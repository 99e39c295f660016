//! Stable sorting by an integer key.
use vstd::prelude::*;

verus! {

/// Where an element with the key goes in `s[..j]`: behind every element whose key
/// is not larger.
pub open spec fn place<A>(s: Seq<(u128, A)>, key: u128, j: int) -> int
    decreases j,
{
    if 0 < j <= s.len() && s[j - 1].0 > key {
        place(s, key, j - 1)
    } else {
        j
    }
}

/// The sequence with the element put in its place.
pub open spec fn insert<A>(s: Seq<(u128, A)>, x: (u128, A)) -> Seq<(u128, A)> {
    s.insert(place(s, x.0, s.len() as int), x)
}

/// The elements in the order of their keys, those with equal keys in the order
/// that they had.
pub open spec fn sorted<A>(s: Seq<(u128, A)>) -> Seq<(u128, A)>
    decreases s.len(),
{
    if s.len() == 0 {
        s
    } else {
        insert(sorted(s.drop_last()), s.last())
    }
}

/// The elements without their keys.
pub open spec fn values<A>(s: Seq<(u128, A)>) -> Seq<A> {
    s.map_values(|x: (u128, A)| x.1)
}

/// No element has a larger key than a later one.
pub open spec fn ordered<A>(s: Seq<(u128, A)>) -> bool {
    forall|i: int, j: int| 0 <= i < j < s.len() ==> (#[trigger] s[i]).0 <= (#[trigger] s[j]).0
}

/// The elements with the key, in order.
pub open spec fn with_key<A>(s: Seq<(u128, A)>, key: u128) -> Seq<(u128, A)>
    decreases s.len(),
{
    if s.len() == 0 {
        s
    } else if s.last().0 == key {
        with_key(s.drop_last(), key).push(s.last())
    } else {
        with_key(s.drop_last(), key)
    }
}

pub proof fn lemma_place<A>(s: Seq<(u128, A)>, key: u128, j: int)
    requires
        0 <= j <= s.len(),
    ensures
        0 <= place(s, key, j) <= j,
        forall|k: int| place(s, key, j) <= k < j ==> (#[trigger] s[k]).0 > key,
        place(s, key, j) > 0 ==> s[place(s, key, j) - 1].0 <= key,
    decreases j,
{
    if 0 < j && s[j - 1].0 > key {
        lemma_place(s, key, j - 1);
    }
}

/// Sorting puts the keys in order and keeps the number of elements.
pub proof fn sorted_is_ordered<A>(s: Seq<(u128, A)>)
    ensures
        ordered(sorted(s)),
        sorted(s).len() == s.len(),
    decreases s.len(),
{
    if s.len() > 0 {
        let t = sorted(s.drop_last());
        let x = s.last();
        sorted_is_ordered(s.drop_last());
        lemma_place(t, x.0, t.len() as int);
        let p = place(t, x.0, t.len() as int);
        assert forall|i: int, j: int| 0 <= i < j < insert(t, x).len() implies (
        #[trigger] insert(t, x)[i]).0 <= (#[trigger] insert(t, x)[j]).0 by {
            let a = if i < p {
                t[i]
            } else if i == p {
                x
            } else {
                t[i - 1]
            };
            let b = if j < p {
                t[j]
            } else if j == p {
                x
            } else {
                t[j - 1]
            };
            assert(insert(t, x)[i] == a && insert(t, x)[j] == b);
            if j == p && i < p - 1 {
                assert(t[i].0 <= t[p - 1].0);
            }
        }
    }
}

/// Sorting neither loses nor adds elements.
pub proof fn sorted_is_a_permutation<A>(s: Seq<(u128, A)>)
    ensures
        sorted(s).to_multiset() == s.to_multiset(),
    decreases s.len(),
{
    if s.len() > 0 {
        let t = sorted(s.drop_last());
        let x = s.last();
        sorted_is_a_permutation(s.drop_last());
        lemma_place(t, x.0, t.len() as int);
        let p = place(t, x.0, t.len() as int);
        s.drop_last().to_multiset_ensures();
        vstd::seq_lib::to_multiset_insert(t, p, x);
        assert(s =~= s.drop_last().push(x));
        assert(s.to_multiset() =~= s.drop_last().to_multiset().insert(x));
    }
}

proof fn lemma_with_key_insert_later<A>(s: Seq<(u128, A)>, p: int, x: (u128, A), key: u128)
    requires
        0 <= p <= s.len(),
        forall|k: int| p <= k < s.len() ==> (#[trigger] s[k]).0 > x.0,
    ensures
        with_key(s.insert(p, x), key) == if x.0 == key {
            with_key(s, key).push(x)
        } else {
            with_key(s, key)
        },
    decreases s.len(),
{
    let t = s.insert(p, x);
    if p == s.len() {
        assert(t =~= s.push(x));
        assert(t.drop_last() =~= s);
    } else {
        assert(t.last() == s.last());
        assert(t.drop_last() =~= s.drop_last().insert(p, x));
        assert forall|k: int| p <= k < s.drop_last().len() implies (#[trigger] s.drop_last()[k]).0
            > x.0 by {
            assert(s[k].0 > x.0);
        }
        lemma_with_key_insert_later(s.drop_last(), p, x, key);
        assert(s[s.len() - 1].0 > x.0);
        if x.0 == key {
            lemma_no_key_above(s, p, key);
        }
    }
}

proof fn lemma_no_key_above<A>(s: Seq<(u128, A)>, p: int, key: u128)
    requires
        0 <= p <= s.len(),
        forall|k: int| p <= k < s.len() ==> (#[trigger] s[k]).0 > key,
    ensures
        with_key(s, key) == with_key(s.take(p), key),
    decreases s.len(),
{
    if p == s.len() {
        assert(s.take(p) =~= s);
    } else {
        assert(s[s.len() - 1].0 > key);
        assert forall|k: int| p <= k < s.drop_last().len() implies (#[trigger] s.drop_last()[k]).0
            > key by {
            assert(s[k].0 > key);
        }
        lemma_no_key_above(s.drop_last(), p, key);
        assert(s.drop_last().take(p) =~= s.take(p));
    }
}

/// Elements with equal keys stay in the order that they had.
pub proof fn sorted_is_stable<A>(s: Seq<(u128, A)>, key: u128)
    ensures
        with_key(sorted(s), key) == with_key(s, key),
    decreases s.len(),
{
    if s.len() > 0 {
        let t = sorted(s.drop_last());
        let x = s.last();
        sorted_is_stable(s.drop_last(), key);
        lemma_place(t, x.0, t.len() as int);
        lemma_with_key_insert_later(t, place(t, x.0, t.len() as int), x, key);
    }
}

/// The elements with a function applied to each.
pub open spec fn mapped<A, B>(s: Seq<(u128, A)>, f: spec_fn(A) -> B) -> Seq<(u128, B)> {
    s.map_values(|x: (u128, A)| (x.0, f(x.1)))
}

/// Sorting looks at the keys alone: it does the same to what the elements are
/// mapped to.
pub proof fn sorted_commutes_with_mapping<A, B>(s: Seq<(u128, A)>, f: spec_fn(A) -> B)
    ensures
        sorted(mapped(s, f)) == mapped(sorted(s), f),
    decreases s.len(),
{
    if s.len() > 0 {
        sorted_commutes_with_mapping(s.drop_last(), f);
        let t = sorted(s.drop_last());
        assert(mapped(s, f).drop_last() =~= mapped(s.drop_last(), f));
        lemma_place_of_mapped(t, f, s.last().0, t.len() as int);
        lemma_place(t, s.last().0, t.len() as int);
        assert(mapped(insert(t, s.last()), f) =~= insert(mapped(t, f), mapped(s, f).last()));
    } else {
        assert(mapped(s, f) =~= mapped(sorted(s), f));
    }
}

proof fn lemma_place_of_mapped<A, B>(s: Seq<(u128, A)>, f: spec_fn(A) -> B, key: u128, j: int)
    requires
        0 <= j <= s.len(),
    ensures
        place(mapped(s, f), key, j) == place(s, key, j),
    decreases j,
{
    if j > 0 {
        lemma_place_of_mapped(s, f, key, j - 1);
    }
}

/// Sorts by the keys.
pub fn sort_by_key<A>(items: Vec<(u128, A)>) -> (out: Vec<(u128, A)>)
    ensures
        out@ == sorted(items@),
{
    let mut rest = items;
    let mut reversed: Vec<(u128, A)> = Vec::new();
    let ghost all = items@;
    while rest.len() > 0
        invariant
            rest@.len() + reversed@.len() == all.len(),
            rest@ == all.take(rest@.len() as int),
            forall|k: int|
                0 <= k < reversed@.len() ==> #[trigger] reversed@[k] == all[all.len() - 1 - k],
        decreases rest.len(),
    {
        match rest.pop() {
            Some(item) => {
                reversed.push(item);
            },
            None => {},
        }
    }
    let mut out: Vec<(u128, A)> = Vec::new();
    let ghost mut taken: int = 0;
    assert(all.take(0) =~= Seq::empty());
    while reversed.len() > 0
        invariant
            0 <= taken <= all.len(),
            reversed@.len() == all.len() - taken,
            out@ == sorted(all.take(taken)),
            forall|k: int|
                0 <= k < reversed@.len() ==> #[trigger] reversed@[k] == all[all.len() - 1 - k],
        decreases reversed.len(),
    {
        match reversed.pop() {
            Some(item) => {
                let key: u128 = item.0;
                let mut j: usize = out.len();
                while j > 0 && out[j - 1].0 > key
                    invariant
                        j <= out.len(),
                        place(out@, key, out@.len() as int) == place(out@, key, j as int),
                    decreases j,
                {
                    j -= 1;
                }
                proof {
                    assert(item == all[taken]);
                    assert(all.take(taken + 1).drop_last() =~= all.take(taken));
                    taken = taken + 1;
                }
                out.insert(j, item);
            },
            None => {},
        }
    }
    assert(all.take(taken) =~= all);
    out
}

/// The first `max` of the elements, or all where there are not so many.
pub open spec fn first<A>(s: Seq<A>, max: int) -> Seq<A> {
    if s.len() <= max {
        s
    } else {
        s.take(max)
    }
}

/// The values with the `max` smallest keys, in the order of the keys.
pub open spec fn best<A>(s: Seq<(u128, A)>, max: int) -> Seq<A> {
    first(values(sorted(s)), max)
}

/// Choosing the best looks at the keys alone.
pub proof fn best_commutes_with_mapping<A, B>(s: Seq<(u128, A)>, f: spec_fn(A) -> B, max: int)
    requires
        0 <= max,
    ensures
        best(mapped(s, f), max) == best(s, max).map_values(f),
{
    sorted_commutes_with_mapping(s, f);
    sorted_is_ordered(s);
    assert(values(mapped(sorted(s), f)) =~= values(sorted(s)).map_values(f));
    assert(best(mapped(s, f), max) =~= best(s, max).map_values(f));
}

/// Every element of the sorted sequence is one of the sequence.
pub proof fn sorted_elements_are_elements<A>(s: Seq<(u128, A)>, k: int)
    requires
        0 <= k < sorted(s).len(),
    ensures
        s.contains(sorted(s)[k]),
    decreases s.len(),
{
    if s.len() > 0 {
        let t = sorted(s.drop_last());
        let x = s.last();
        lemma_place(t, x.0, t.len() as int);
        let p = place(t, x.0, t.len() as int);
        if k == p {
            assert(s[s.len() - 1] == x);
        } else {
            let m = if k < p {
                k
            } else {
                k - 1
            };
            assert(sorted(s)[k] == t[m]);
            sorted_elements_are_elements(s.drop_last(), m);
            let w = choose|w: int| 0 <= w < s.drop_last().len() && s.drop_last()[w] == t[m];
            assert(s[w] == t[m]);
        }
    }
}

/// The values with the `max` smallest keys.
pub fn best_by_key<A>(items: Vec<(u128, A)>, max: usize) -> (out: Vec<A>)
    ensures
        out@ == best(items@, max as int),
{
    let sorted_items = sort_by_key(items);
    let ghost all = sorted_items@;
    let mut out: Vec<A> = Vec::new();
    for item in it: sorted_items
        invariant
            it.seq() == all,
            it.index() <= max ==> out@.len() == it.index(),
            it.index() > max ==> out@.len() == max,
            forall|k: int| 0 <= k < out@.len() ==> #[trigger] out@[k] == all[k].1,
    {
        if out.len() < max {
            out.push(item.1);
        }
    }
    assert(out@ =~= first(values(all), max as int));
    out
}

/// Every element of a sequence is one of the sorted sequence.
pub proof fn elements_stay_when_sorted<A>(s: Seq<(u128, A)>, k: int)
    requires
        0 <= k < s.len(),
    ensures
        sorted(s).contains(s[k]),
        sorted(s).len() == s.len(),
{
    sorted_is_a_permutation(s);
    s.to_multiset_ensures();
    sorted(s).to_multiset_ensures();
    assert(s.contains(s[k]));
    assert(s.to_multiset().count(s[k]) > 0);
    assert(sorted(s).to_multiset().count(s[k]) > 0);
}

} // verus!
