//! Readable text in binary data: maximal runs of printable ASCII bytes.
use vstd::prelude::*;

verus! {

/// The least length of a run that counts as text.
pub const MIN_READABLE_TEXT_LEN: usize = 4;

/// A graphic ASCII character or the space.
pub open spec fn printable(b: u8) -> bool {
    0x20 <= b <= 0x7e
}

/// The first position, not before `i`, that is not printable; the length where
/// there is none.
pub open spec fn run_end(d: Seq<u8>, i: int) -> int
    decreases d.len() - i,
{
    if 0 <= i < d.len() && printable(d[i]) {
        run_end(d, i + 1)
    } else {
        i
    }
}

/// Bytes as characters, one for one.
pub open spec fn as_text(d: Seq<u8>) -> Seq<char> {
    d.map_values(|b: u8| b as char)
}

/// The runs of at least the readable length from position `i` on: where each
/// starts, and its text.
pub open spec fn runs_from(d: Seq<u8>, i: int) -> Seq<(int, Seq<char>)>
    decreases d.len() - i,
{
    if i < 0 || i >= d.len() {
        Seq::empty()
    } else if !printable(d[i]) {
        runs_from(d, i + 1)
    } else {
        let e = run_end(d, i);
        if e <= i || e > d.len() {
            Seq::empty()
        } else if e - i >= MIN_READABLE_TEXT_LEN {
            seq![(i, as_text(d.subrange(i, e)))] + runs_from(d, e)
        } else {
            runs_from(d, e)
        }
    }
}

/// The readable runs of the data.
pub open spec fn runs(d: Seq<u8>) -> Seq<(int, Seq<char>)> {
    runs_from(d, 0)
}

/// The view of collected runs.
pub open spec fn run_views(v: Seq<(usize, Vec<char>)>) -> Seq<(int, Seq<char>)> {
    v.map_values(|r: (usize, Vec<char>)| (r.0 as int, r.1@))
}

/// A run that starts at a printable position is not empty.
pub proof fn lemma_run_end(d: Seq<u8>, i: int)
    requires
        0 <= i <= d.len(),
    ensures
        i <= run_end(d, i) <= d.len(),
        i < d.len() && printable(d[i]) ==> run_end(d, i) > i,
        forall|k: int| i <= k < run_end(d, i) ==> printable(#[trigger] d[k]),
        run_end(d, i) < d.len() ==> !printable(d[run_end(d, i)]),
    decreases d.len() - i,
{
    if i < d.len() && printable(d[i]) {
        lemma_run_end(d, i + 1);
    }
}

/// Every readable run is text of the data at its place: long enough, printable
/// throughout, and not to be lengthened to the right.
pub proof fn runs_are_maximal_printable_text(d: Seq<u8>, from: int, n: int)
    requires
        0 <= from,
        0 <= n < runs_from(d, from).len(),
    ensures
        ({
            let (start, t) = runs_from(d, from)[n];
            &&& from <= start
            &&& start + t.len() <= d.len()
            &&& t.len() >= MIN_READABLE_TEXT_LEN
            &&& t == as_text(d.subrange(start, start + t.len()))
            &&& forall|k: int| start <= k < start + t.len() ==> printable(#[trigger] d[k])
            &&& start + t.len() < d.len() ==> !printable(d[start + t.len()])
        }),
    decreases d.len() - from,
{
    if from < d.len() {
        if !printable(d[from]) {
            runs_are_maximal_printable_text(d, from + 1, n);
        } else {
            let e = run_end(d, from);
            lemma_run_end(d, from);
            if e - from >= MIN_READABLE_TEXT_LEN {
                if n > 0 {
                    runs_are_maximal_printable_text(d, e, n - 1);
                }
            } else {
                runs_are_maximal_printable_text(d, e, n);
            }
        }
    }
}

fn text_between(d: &Vec<u8>, from: usize, to: usize) -> (out: Vec<char>)
    requires
        from <= to <= d.len(),
    ensures
        out@ == as_text(d@.subrange(from as int, to as int)),
{
    let mut out: Vec<char> = Vec::new();
    let mut i: usize = from;
    while i < to
        invariant
            from <= i <= to <= d.len(),
            out@ =~= as_text(d@.subrange(from as int, i as int)),
        decreases to - i,
    {
        out.push(d[i] as char);
        i += 1;
    }
    out
}

/// The readable runs of the data.
pub fn readable_runs(d: &Vec<u8>) -> (out: Vec<(usize, Vec<char>)>)
    ensures
        run_views(out@) == runs(d@),
{
    let mut out: Vec<(usize, Vec<char>)> = Vec::new();
    let mut i: usize = 0;
    assert(run_views(out@) + runs_from(d@, 0) =~= runs(d@));
    while i < d.len()
        invariant
            i <= d.len(),
            run_views(out@) + runs_from(d@, i as int) == runs(d@),
        decreases d.len() - i,
    {
        if d[i] < 0x20 || d[i] > 0x7e {
            i += 1;
        } else {
            let mut e: usize = i;
            while e < d.len() && 0x20 <= d[e] && d[e] <= 0x7e
                invariant
                    i <= e <= d.len(),
                    run_end(d@, i as int) == run_end(d@, e as int),
                decreases d.len() - e,
            {
                e += 1;
            }
            proof {
                lemma_run_end(d@, i as int);
            }
            if e - i >= MIN_READABLE_TEXT_LEN {
                let ghost before = run_views(out@);
                let t = text_between(d, i, e);
                out.push((i, t));
                proof {
                    assert(run_views(out@) =~= before.push((i as int, t@)));
                    assert(before + runs_from(d@, i as int) =~= run_views(out@) + runs_from(
                        d@,
                        e as int,
                    ));
                }
            }
            i = e;
        }
    }
    assert(run_views(out@) + runs_from(d@, i as int) =~= run_views(out@));
    out
}

/// The byte is one of the printable characters of ASCII, from the space to the tilde.
pub open spec fn is_plain(b: u8) -> bool {
    ' ' as int <= b <= '~' as int
}

/// From the position to the end stand four plain characters at least, and none right
/// before or behind them.
pub open spec fn is_run(d: Seq<u8>, start: int, end: int) -> bool {
    &&& 0 <= start && start + 4 <= end <= d.len()
    &&& forall|k: int| start <= k < end ==> is_plain(#[trigger] d[k])
    &&& start > 0 ==> !is_plain(d[start - 1])
    &&& end < d.len() ==> !is_plain(d[end])
}

/// The run is among those that are found from a position on.
pub open spec fn is_found(d: Seq<u8>, from: int, start: int, end: int) -> bool {
    exists|n: int|
        0 <= n < runs_from(d, from).len() && (#[trigger] runs_from(d, from)[n]).0 == start
            && runs_from(d, from)[n].1.len() == end - start && forall|k: int|
            0 <= k < end - start ==> (#[trigger] runs_from(d, from)[n].1[k]) as int == d[start + k]
}

proof fn lemma_found_later(d: Seq<u8>, from: int, e: int, start: int, end: int)
    requires
        0 <= from < d.len(),
        is_found(d, e, start, end),
        runs_from(d, from) == runs_from(d, e) || (runs_from(d, from).len() > 0 && runs_from(d, from)
            == seq![runs_from(d, from)[0]] + runs_from(d, e)),
    ensures
        is_found(d, from, start, end),
{
    let n = choose|n: int|
        0 <= n < runs_from(d, e).len() && (#[trigger] runs_from(d, e)[n]).0 == start && runs_from(
            d,
            e,
        )[n].1.len() == end - start && forall|k: int|
            0 <= k < end - start ==> (#[trigger] runs_from(d, e)[n].1[k]) as int == d[start + k];
    let r = runs_from(d, e)[n];
    let all = runs_from(d, from);
    if all == runs_from(d, e) {
        assert(all[n] == r);
    } else {
        assert(all[n + 1] == r);
    }
}

proof fn lemma_run_is_found(d: Seq<u8>, from: int, start: int, end: int)
    requires
        is_run(d, start, end),
        0 <= from <= start,
        from == 0 || from == start || !is_plain(d[from - 1]) || !is_plain(d[from]),
    ensures
        is_found(d, from, start, end),
    decreases d.len() - from,
{
    if !printable(d[from]) {
        assert(from < start);
        lemma_run_is_found(d, from + 1, start, end);
        lemma_found_later(d, from, from + 1, start, end);
    } else {
        let e = run_end(d, from);
        lemma_run_end(d, from);
        if from == start {
            assert(e == end) by {
                if e < end {
                    assert(!printable(d[e]));
                    assert(is_plain(d[e]));
                }
                if end < e {
                    assert(printable(d[end]));
                }
            }
            let t = as_text(d.subrange(from, e));
            assert(runs_from(d, from)[0] == (from, t));
            assert forall|k: int| 0 <= k < end - start implies (
            #[trigger] runs_from(d, from)[0].1[k]) as int == d[start + k] by {
                assert(t[k] == d[start + k] as char);
            }
        } else {
            assert(e <= start) by {
                if start < e {
                    assert(printable(d[start - 1]));
                }
            }
            assert(e < d.len());
            lemma_run_is_found(d, e, start, end);
            lemma_found_later(d, from, e, start, end);
        }
    }
}

/// Every run of four plain characters or more is found at its place, with its text;
/// and what is found is such a run.
pub proof fn every_readable_run_is_found(d: Seq<u8>, start: int, end: int)
    ensures
        is_run(d, start, end) ==> is_found(d, 0, start, end),
        forall|n: int|
            0 <= n < runs(d).len() ==> is_run(
                d,
                (#[trigger] runs(d)[n]).0,
                runs(d)[n].0 + runs(d)[n].1.len(),
            ),
{
    if is_run(d, start, end) {
        lemma_run_is_found(d, 0, start, end);
    }
    assert forall|n: int| 0 <= n < runs(d).len() implies is_run(
        d,
        (#[trigger] runs(d)[n]).0,
        runs(d)[n].0 + runs(d)[n].1.len(),
    ) by {
        runs_are_maximal_printable_text(d, 0, n);
        lemma_starts(d, 0, n);
    }
}

proof fn lemma_starts(d: Seq<u8>, from: int, n: int)
    requires
        0 <= from <= d.len(),
        from == 0 || !printable(d[from - 1]) || from == d.len() || !printable(d[from]),
        0 <= n < runs_from(d, from).len(),
    ensures
        runs_from(d, from)[n].0 > 0 ==> !printable(d[runs_from(d, from)[n].0 - 1]),
    decreases d.len() - from,
{
    if !printable(d[from]) {
        lemma_starts(d, from + 1, n);
    } else {
        let e = run_end(d, from);
        lemma_run_end(d, from);
        if e - from >= MIN_READABLE_TEXT_LEN {
            if n > 0 {
                lemma_starts(d, e, n - 1);
                assert(runs_from(d, from)[n] == runs_from(d, e)[n - 1]);
            }
        } else {
            lemma_starts(d, e, n);
        }
    }
}

} // verus!
