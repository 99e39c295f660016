//! The targets that are in play: which identities each of them has, where its
//! hit points stand, and which of them a hit met.
use std::collections::VecDeque;
use vstd::hash_map::StringHashMap;
use vstd::prelude::*;

use crate::bits::PathCandidate;
use crate::hexadecimal;
use crate::model::Hit;
use crate::model::HitView;
use crate::net_identity::IdentityView;
use crate::net_identity::NetIdentityCandidate;
use crate::net_identity::NetIdentityCandidateKind;
use crate::object_state;
use crate::resource_index;
use crate::resource_index::ResourceIndex;
use crate::target_resolver::TargetConfidence;
use crate::text;
use crate::text::Class;

verus! {

pub const MAX_HP_HISTORY_PER_INSTANCE: usize = 32;

pub const INSTANCE_PENDING_WINDOW: i64 = 60_000_000;

pub const INSTANCE_ACTIVE_TTL: i64 = 90_000_000;

pub const INSTANCE_DEAD_HP_THRESHOLD: i64 = 1_000;

pub const HP_MATCH_TOLERANCE: i64 = 2_000;

/// A second, in microseconds.
pub const ONE_SECOND: i64 = 1_000_000;

// ------------------------------------------------------------------------ aliases

/// The forms in which a target is identified.
#[derive(Clone, Copy, Debug, PartialEq, Eq, Hash, Structural)]
pub enum TargetAliasKind {
    ActorChannel,
    IrisRef32,
    NetGuid32,
    NetGuidPacked,
    SdkNetTarget,
    BossHpGuid,
    CurrentHpToken,
    HitTargetToken,
    HitVectorToken,
}

impl TargetAliasKind {
    pub open spec fn label_text(self) -> Seq<char> {
        match self {
            TargetAliasKind::ActorChannel => "actor_channel"@,
            TargetAliasKind::IrisRef32 => "iris_ref32"@,
            TargetAliasKind::NetGuid32 => "netguid32"@,
            TargetAliasKind::NetGuidPacked => "netguid_packed"@,
            TargetAliasKind::SdkNetTarget => "sdk_net_target"@,
            TargetAliasKind::BossHpGuid => "boss_hp_guid"@,
            TargetAliasKind::CurrentHpToken => "current_hp_token"@,
            TargetAliasKind::HitTargetToken => "hit_target_token"@,
            TargetAliasKind::HitVectorToken => "hit_target_vector_token"@,
        }
    }

    pub fn label(self) -> (r: &'static str)
        ensures
            r@ == self.label_text(),
    {
        match self {
            TargetAliasKind::ActorChannel => "actor_channel",
            TargetAliasKind::IrisRef32 => "iris_ref32",
            TargetAliasKind::NetGuid32 => "netguid32",
            TargetAliasKind::NetGuidPacked => "netguid_packed",
            TargetAliasKind::SdkNetTarget => "sdk_net_target",
            TargetAliasKind::BossHpGuid => "boss_hp_guid",
            TargetAliasKind::CurrentHpToken => "current_hp_token",
            TargetAliasKind::HitTargetToken => "hit_target_token",
            TargetAliasKind::HitVectorToken => "hit_target_vector_token",
        }
    }

    /// Where the kind stands among the kinds.
    pub open spec fn spec_order(self) -> u8 {
        match self {
            TargetAliasKind::ActorChannel => 0,
            TargetAliasKind::IrisRef32 => 1,
            TargetAliasKind::NetGuid32 => 2,
            TargetAliasKind::NetGuidPacked => 3,
            TargetAliasKind::SdkNetTarget => 4,
            TargetAliasKind::BossHpGuid => 5,
            TargetAliasKind::CurrentHpToken => 6,
            TargetAliasKind::HitTargetToken => 7,
            TargetAliasKind::HitVectorToken => 8,
        }
    }

    fn order(self) -> (r: u8)
        ensures
            r == self.spec_order(),
    {
        match self {
            TargetAliasKind::ActorChannel => 0,
            TargetAliasKind::IrisRef32 => 1,
            TargetAliasKind::NetGuid32 => 2,
            TargetAliasKind::NetGuidPacked => 3,
            TargetAliasKind::SdkNetTarget => 4,
            TargetAliasKind::BossHpGuid => 5,
            TargetAliasKind::CurrentHpToken => 6,
            TargetAliasKind::HitTargetToken => 7,
            TargetAliasKind::HitVectorToken => 8,
        }
    }

    /// Which kind of alias rather names an instance.
    pub open spec fn priority(self) -> u8 {
        match self {
            TargetAliasKind::IrisRef32 => 8,
            TargetAliasKind::NetGuid32 => 7,
            TargetAliasKind::NetGuidPacked => 6,
            TargetAliasKind::ActorChannel => 5,
            TargetAliasKind::SdkNetTarget => 4,
            TargetAliasKind::BossHpGuid => 4,
            TargetAliasKind::CurrentHpToken => 3,
            TargetAliasKind::HitTargetToken => 2,
            TargetAliasKind::HitVectorToken => 1,
        }
    }

    fn instance_id_priority(self) -> (r: u8)
        ensures
            r == self.priority(),
    {
        match self {
            TargetAliasKind::IrisRef32 => 8,
            TargetAliasKind::NetGuid32 => 7,
            TargetAliasKind::NetGuidPacked => 6,
            TargetAliasKind::ActorChannel => 5,
            TargetAliasKind::SdkNetTarget => 4,
            TargetAliasKind::BossHpGuid => 4,
            TargetAliasKind::CurrentHpToken => 3,
            TargetAliasKind::HitTargetToken => 2,
            TargetAliasKind::HitVectorToken => 1,
        }
    }
}

/// A value without surrounding white space, in lower case.
pub open spec fn normal_value(value: Seq<char>) -> Seq<char> {
    text::lower(text::trim(value, Class::Space))
}

fn normalize_alias_value(value: &str) -> (out: String)
    ensures
        out@ == normal_value(value@),
{
    text::string_of(&text::to_lower(&text::trimmed(&text::chars_of(value), Class::Space)))
}

/// One identification of a target.
#[derive(Clone, Debug)]
pub struct TargetAlias {
    pub kind: TargetAliasKind,
    pub value: String,
}

#[verifier::ext_equal]
pub struct AliasView {
    pub kind: TargetAliasKind,
    pub value: Seq<char>,
}

impl View for TargetAlias {
    type V = AliasView;

    open spec fn view(&self) -> AliasView {
        AliasView { kind: self.kind, value: self.value@ }
    }
}

impl AliasView {
    /// The alias in one text.
    pub open spec fn key(self) -> Seq<char> {
        self.kind.label_text() + ":"@ + normal_value(self.value)
    }
}

/// The alias with its value in normal form.
pub open spec fn alias_of(kind: TargetAliasKind, value: Seq<char>) -> AliasView {
    AliasView { kind, value: normal_value(value) }
}

pub open spec fn alias_views(v: Seq<TargetAlias>) -> Seq<AliasView> {
    v.map_values(|a: TargetAlias| a@)
}

impl TargetAlias {
    pub fn new(kind: TargetAliasKind, value: &str) -> (r: TargetAlias)
        ensures
            r@ == alias_of(kind, value@),
    {
        TargetAlias { kind, value: normalize_alias_value(value) }
    }

    pub fn key(&self) -> (out: String)
        ensures
            out@ == self@.key(),
    {
        let value = normalize_alias_value(self.value.as_str());
        text::concat3(self.kind.label(), ":", value.as_str())
    }

    pub(crate) fn copy(&self) -> (r: TargetAlias)
        ensures
            r@ == self@,
    {
        let r = TargetAlias { kind: self.kind, value: self.value.as_str().to_owned() };
        assert(r@ =~= self@);
        r
    }

    fn same(&self, other: &TargetAlias) -> (r: bool)
        ensures
            r == (self@ == other@),
    {
        let r = self.kind == other.kind && text::same_str(self.value.as_str(), other.value.as_str());
        assert(r ==> self@ =~= other@);
        r
    }
}

/// The order of aliases: by kind, then by value.
pub open spec fn alias_lt(a: AliasView, b: AliasView) -> bool {
    a.kind.spec_order() < b.kind.spec_order() || (a.kind == b.kind && text::text_lt(
        a.value,
        b.value,
    ))
}

/// The first position, not before `i`, whose alias does not come before `a`.
pub open spec fn alias_place(set: Seq<AliasView>, a: AliasView, i: int) -> int
    decreases set.len() - i,
{
    if 0 <= i < set.len() && alias_lt(set[i], a) {
        alias_place(set, a, i + 1)
    } else {
        i
    }
}

/// The aliases, in order, with one more, unless it is there.
pub open spec fn with_alias(set: Seq<AliasView>, a: AliasView) -> Seq<AliasView> {
    let p = alias_place(set, a, 0);
    if 0 <= p < set.len() && set[p] == a {
        set
    } else {
        set.insert(p, a)
    }
}

/// The aliases without the one.
pub open spec fn without_alias(set: Seq<AliasView>, a: AliasView) -> Seq<AliasView> {
    let p = alias_place(set, a, 0);
    if 0 <= p < set.len() && set[p] == a {
        set.remove(p)
    } else {
        set
    }
}

/// The aliases are in order, and none of them occurs twice.
pub open spec fn aliases_in_order(set: Seq<AliasView>) -> bool {
    forall|i: int, j: int| 0 <= i < j < set.len() ==> alias_lt(#[trigger] set[i], #[trigger] set[j])
}

proof fn lemma_alias_place(set: Seq<AliasView>, a: AliasView, i: int)
    requires
        0 <= i <= set.len(),
    ensures
        i <= alias_place(set, a, i) <= set.len(),
        forall|k: int| i <= k < alias_place(set, a, i) ==> alias_lt(#[trigger] set[k], a),
        alias_place(set, a, i) < set.len() ==> !alias_lt(set[alias_place(set, a, i)], a),
    decreases set.len() - i,
{
    if i < set.len() && alias_lt(set[i], a) {
        lemma_alias_place(set, a, i + 1);
    }
}

fn find_alias_place(set: &Vec<TargetAlias>, a: &TargetAlias) -> (r: usize)
    ensures
        r == alias_place(alias_views(set@), a@, 0),
        r <= set.len(),
{
    let mut i: usize = 0;
    while i < set.len()
        invariant
            i <= set.len(),
            alias_place(alias_views(set@), a@, 0) == alias_place(alias_views(set@), a@, i as int),
        decreases set.len() - i,
    {
        assert(alias_views(set@)[i as int] == set@[i as int]@);
        let before = set[i].kind.order() < a.kind.order() || (set[i].kind == a.kind
            && text::comes_before(
            &text::chars_of(set[i].value.as_str()),
            &text::chars_of(a.value.as_str()),
        ));
        if !before {
            return i;
        }
        i += 1;
    }
    i
}

fn insert_alias(set: &mut Vec<TargetAlias>, a: TargetAlias)
    ensures
        alias_views(final(set)@) == with_alias(alias_views(old(set)@), a@),
{
    let p = find_alias_place(set, &a);
    let ghost before = alias_views(set@);
    if p < set.len() {
        assert(before[p as int] == set@[p as int]@);
        if set[p].same(&a) {
            return;
        }
    }
    set.insert(p, a);
    assert(alias_views(set@) =~= before.insert(p as int, a@));
}

fn remove_alias(set: &mut Vec<TargetAlias>, a: &TargetAlias)
    ensures
        alias_views(final(set)@) == without_alias(alias_views(old(set)@), a@),
{
    let p = find_alias_place(set, a);
    let ghost before = alias_views(set@);
    if p < set.len() {
        assert(before[p as int] == set@[p as int]@);
        if set[p].same(a) {
            set.remove(p);
            assert(alias_views(set@) =~= before.remove(p as int));
        }
    }
}

/// An added alias leaves the aliases in order.
pub proof fn adding_keeps_aliases_in_order(set: Seq<AliasView>, a: AliasView)
    requires
        aliases_in_order(set),
    ensures
        aliases_in_order(with_alias(set, a)),
        with_alias(set, a).contains(a),
{
    let p = alias_place(set, a, 0);
    lemma_alias_place(set, a, 0);
    let r = with_alias(set, a);
    if p < set.len() && set[p] == a {
    } else {
        assert(r[p] == a);
        assert forall|i: int, j: int| 0 <= i < j < r.len() implies alias_lt(
            #[trigger] r[i],
            #[trigger] r[j],
        ) by {
            if j == p {
                assert(r[i] == set[i]);
            } else if i == p {
                assert(r[j] == set[j - 1]);
                lemma_alias_order_total(set[p], a);
                if j - 1 > p {
                    assert(alias_lt(set[p], set[j - 1]));
                    lemma_alias_order_transitive(a, set[p], set[j - 1]);
                }
            } else {
                let x = if i < p {
                    i
                } else {
                    i - 1
                };
                let y = if j < p {
                    j
                } else {
                    j - 1
                };
                assert(r[i] == set[x] && r[j] == set[y]);
            }
        }
    }
}

proof fn lemma_kind_order(a: TargetAliasKind, b: TargetAliasKind)
    ensures
        a.spec_order() == b.spec_order() ==> a == b,
{
}

proof fn lemma_alias_order_total(a: AliasView, b: AliasView)
    ensures
        a != b && !alias_lt(a, b) ==> alias_lt(b, a),
{
    lemma_kind_order(a.kind, b.kind);
    text::text_order_is_total(a.value, b.value);
    if a.kind == b.kind && a.value == b.value {
        assert(a =~= b);
    }
}

proof fn lemma_text_lt_transitive(a: Seq<char>, b: Seq<char>, c: Seq<char>)
    requires
        text::text_lt(a, b),
        text::text_lt(b, c),
    ensures
        text::text_lt(a, c),
    decreases a.len(),
{
    if a.len() > 0 && b.len() > 0 && c.len() > 0 && a[0] == b[0] && b[0] == c[0] {
        lemma_text_lt_transitive(a.skip(1), b.skip(1), c.skip(1));
    }
}

proof fn lemma_alias_order_transitive(a: AliasView, b: AliasView, c: AliasView)
    requires
        alias_lt(a, b),
        alias_lt(b, c),
    ensures
        alias_lt(a, c),
{
    if a.kind == b.kind && b.kind == c.kind {
        lemma_text_lt_transitive(a.value, b.value, c.value);
    }
}

/// A removed alias leaves the others in order.
pub proof fn removing_keeps_aliases_in_order(set: Seq<AliasView>, a: AliasView)
    requires
        aliases_in_order(set),
    ensures
        aliases_in_order(without_alias(set, a)),
        !without_alias(set, a).contains(a),
{
    let p = alias_place(set, a, 0);
    lemma_alias_place(set, a, 0);
    let r = without_alias(set, a);
    text::text_order_is_total(a.value, a.value);
    assert forall|i: int, j: int| 0 <= i < j < r.len() implies alias_lt(
        #[trigger] r[i],
        #[trigger] r[j],
    ) by {
        if r != set {
            let x = if i < p {
                i
            } else {
                i + 1
            };
            let y = if j < p {
                j
            } else {
                j + 1
            };
            assert(r[i] == set[x] && r[j] == set[y]);
        }
    }
    assert forall|k: int| 0 <= k < r.len() implies #[trigger] r[k] != a by {
        if r != set {
            let x = if k < p {
                k
            } else {
                k + 1
            };
            assert(r[k] == set[x]);
            if x > p {
                assert(alias_lt(set[p], set[x]));
            }
        } else if k > p {
            assert(alias_lt(set[p], set[k]));
            if set[k] == a {
                assert(false);
            }
        }
    }
}

// ---------------------------------------------------------------------- instances

/// A reading of a target's hit points.
#[derive(Clone, Debug)]
pub struct RuntimeTargetHpObservation {
    pub timestamp: i64,
    pub current: i64,
    pub evidence: String,
}

#[verifier::ext_equal]
pub struct ReadingView {
    pub timestamp: i64,
    pub current: i64,
    pub evidence: Seq<char>,
}

impl View for RuntimeTargetHpObservation {
    type V = ReadingView;

    open spec fn view(&self) -> ReadingView {
        ReadingView {
            timestamp: self.timestamp,
            current: self.current,
            evidence: self.evidence@,
        }
    }
}

pub open spec fn reading_views(v: Seq<RuntimeTargetHpObservation>) -> Seq<ReadingView> {
    v.map_values(|o: RuntimeTargetHpObservation| o@)
}

#[derive(Clone, Copy, Debug, PartialEq, Eq, Structural)]
pub enum RuntimeTargetState {
    Active,
    Dead,
    Expired,
}

/// A target in play.
#[derive(Debug)]
pub struct RuntimeTargetInstance {
    pub instance_id: String,
    pub canonical_path: String,
    pub target_name: String,
    pub spawn_seq: u32,
    pub first_seen_at: i64,
    pub last_seen_at: i64,
    pub aliases: Vec<TargetAlias>,
    pub hp_current: Option<i64>,
    pub hp_history: VecDeque<RuntimeTargetHpObservation>,
    pub state: RuntimeTargetState,
}

#[verifier::ext_equal]
pub struct InstanceView {
    pub instance_id: Seq<char>,
    pub canonical_path: Seq<char>,
    pub target_name: Seq<char>,
    pub spawn_seq: u32,
    pub first_seen_at: i64,
    pub last_seen_at: i64,
    pub aliases: Seq<AliasView>,
    pub hp_current: Option<i64>,
    pub hp_history: Seq<ReadingView>,
    pub state: RuntimeTargetState,
}

impl View for RuntimeTargetInstance {
    type V = InstanceView;

    open spec fn view(&self) -> InstanceView {
        InstanceView {
            instance_id: self.instance_id@,
            canonical_path: self.canonical_path@,
            target_name: self.target_name@,
            spawn_seq: self.spawn_seq,
            first_seen_at: self.first_seen_at,
            last_seen_at: self.last_seen_at,
            aliases: alias_views(self.aliases@),
            hp_current: self.hp_current,
            hp_history: reading_views(self.hp_history@),
            state: self.state,
        }
    }
}

pub open spec fn instance_views(v: Seq<RuntimeTargetInstance>) -> Seq<InstanceView> {
    v.map_values(|i: RuntimeTargetInstance| i@)
}

/// What is concluded about the target of a hit.
#[derive(Clone, Debug)]
pub struct TargetInstanceResolution {
    pub instance_id: String,
    pub target_name: String,
    pub canonical_path: String,
    pub confidence: TargetConfidence,
    pub score: i32,
    pub reason: String,
}

#[verifier::ext_equal]
pub struct ResolutionView {
    pub instance_id: Seq<char>,
    pub target_name: Seq<char>,
    pub canonical_path: Seq<char>,
    pub confidence: TargetConfidence,
    pub score: i32,
    pub reason: Seq<char>,
}

impl View for TargetInstanceResolution {
    type V = ResolutionView;

    open spec fn view(&self) -> ResolutionView {
        ResolutionView {
            instance_id: self.instance_id@,
            target_name: self.target_name@,
            canonical_path: self.canonical_path@,
            confidence: self.confidence,
            score: self.score,
            reason: self.reason@,
        }
    }
}

/// The position of the instance with the id, not before `i`; the length where
/// there is none.
pub open spec fn instance_at(s: Seq<InstanceView>, id: Seq<char>, i: int) -> int
    decreases s.len() - i,
{
    if i >= s.len() {
        s.len() as int
    } else if s[i].instance_id == id {
        i
    } else {
        instance_at(s, id, i + 1)
    }
}

pub open spec fn holds_instance(s: Seq<InstanceView>, id: Seq<char>) -> bool {
    instance_at(s, id, 0) < s.len()
}

/// No two instances have one id.
pub open spec fn distinct_ids(s: Seq<InstanceView>) -> bool {
    forall|i: int, j: int|
        0 <= i < j < s.len() ==> (#[trigger] s[i]).instance_id != (#[trigger] s[j]).instance_id
}

proof fn lemma_instance_at(s: Seq<InstanceView>, id: Seq<char>, i: int)
    requires
        0 <= i <= s.len(),
    ensures
        i <= instance_at(s, id, i) <= s.len(),
        instance_at(s, id, i) < s.len() ==> s[instance_at(s, id, i)].instance_id == id,
        forall|k: int| i <= k < instance_at(s, id, i) ==> (#[trigger] s[k]).instance_id != id,
    decreases s.len() - i,
{
    if i < s.len() && s[i].instance_id != id {
        lemma_instance_at(s, id, i + 1);
    }
}

fn find_instance(list: &Vec<RuntimeTargetInstance>, id: &str) -> (r: usize)
    ensures
        r == instance_at(instance_views(list@), id@, 0),
        r <= list.len(),
        r < list.len() ==> list@[r as int].instance_id@ == id@,
{
    let mut i: usize = 0;
    while i < list.len()
        invariant
            i <= list.len(),
            instance_at(instance_views(list@), id@, 0) == instance_at(
                instance_views(list@),
                id@,
                i as int,
            ),
        decreases list.len() - i,
    {
        assert(instance_views(list@)[i as int] == list@[i as int]@);
        if text::same_str(list[i].instance_id.as_str(), id) {
            return i;
        }
        i += 1;
    }
    i
}

/// The position of the last alias, before position `n`, of the highest priority.
pub open spec fn foremost(aliases: Seq<AliasView>, n: int) -> int
    decreases n,
{
    if n <= 1 {
        0
    } else {
        let b = foremost(aliases, n - 1);
        if aliases[n - 1].kind.priority() >= aliases[b].kind.priority() {
            n - 1
        } else {
            b
        }
    }
}

/// The id of an instance: its foremost alias, or its path and number where it has
/// none.
pub open spec fn preferred_id(path: Seq<char>, spawn_seq: u32, aliases: Seq<AliasView>) -> Seq<char> {
    if aliases.len() == 0 {
        path + "#"@ + text::dec(spawn_seq as nat)
    } else {
        aliases[foremost(aliases, aliases.len() as int)].key()
    }
}

fn preferred_instance_id(canonical_path: &str, spawn_seq: u32, aliases: &Vec<TargetAlias>) -> (out:
    String)
    ensures
        out@ == preferred_id(canonical_path@, spawn_seq, alias_views(aliases@)),
{
    let ghost set = alias_views(aliases@);
    if aliases.len() == 0 {
        return text::concat3(canonical_path, "#", text::dec_string(spawn_seq as u64).as_str());
    }
    let mut best: usize = 0;
    let mut i: usize = 1;
    while i < aliases.len()
        invariant
            1 <= i <= aliases.len(),
            best < i,
            set == alias_views(aliases@),
            best == foremost(set, i as int),
        decreases aliases.len() - i,
    {
        assert(set[i as int] == aliases@[i as int]@ && set[best as int] == aliases@[best as int]@);
        if aliases[i].kind.instance_id_priority() >= aliases[best].kind.instance_id_priority() {
            best = i;
        }
        i += 1;
    }
    assert(set[best as int] == aliases@[best as int]@);
    aliases[best].key()
}

/// Hit points that mean death.
pub open spec fn dead_points(hp: i64) -> bool {
    hp <= INSTANCE_DEAD_HP_THRESHOLD
}

/// The readings with one more; the oldest gives way where there are too many.
pub open spec fn with_reading(history: Seq<ReadingView>, reading: ReadingView) -> Seq<ReadingView> {
    let all = history.push(reading);
    if all.len() > MAX_HP_HISTORY_PER_INSTANCE {
        all.skip(all.len() - MAX_HP_HISTORY_PER_INSTANCE)
    } else {
        all
    }
}

/// The instance with a reading of its hit points.
pub open spec fn with_points(
    instance: InstanceView,
    timestamp: i64,
    hp: i64,
    evidence: Seq<char>,
) -> InstanceView {
    InstanceView {
        last_seen_at: timestamp,
        hp_current: Some(hp),
        state: if dead_points(hp) {
            RuntimeTargetState::Dead
        } else {
            RuntimeTargetState::Active
        },
        hp_history: with_reading(
            instance.hp_history,
            ReadingView { timestamp, current: hp, evidence },
        ),
        ..instance
    }
}

fn observe_points(instance: &mut RuntimeTargetInstance, timestamp: i64, hp: i64, evidence: String)
    ensures
        final(instance)@ == with_points(old(instance)@, timestamp, hp, evidence@),
{
    let ghost before = instance@;
    instance.last_seen_at = timestamp;
    instance.hp_current = Some(hp);
    if hp <= INSTANCE_DEAD_HP_THRESHOLD {
        instance.state = RuntimeTargetState::Dead;
    } else {
        instance.state = RuntimeTargetState::Active;
    }
    instance.hp_history.push_back(RuntimeTargetHpObservation { timestamp, current: hp, evidence });
    let ghost all = before.hp_history.push(
        ReadingView { timestamp, current: hp, evidence: evidence@ },
    );
    assert(reading_views(instance.hp_history@) =~= all);
    let ghost kept = instance@;
    assert(all.skip(0) =~= all);
    while instance.hp_history.len() > MAX_HP_HISTORY_PER_INSTANCE
        invariant
            instance@ == (InstanceView { hp_history: instance@.hp_history, ..kept }),
            instance@.hp_history.len() <= all.len(),
            instance@.hp_history == all.skip(all.len() - instance@.hp_history.len()),
            instance@.hp_history.len() >= MAX_HP_HISTORY_PER_INSTANCE || instance@.hp_history
                == all,
        decreases instance.hp_history.len(),
    {
        let ghost now = instance@.hp_history;
        let _ = instance.hp_history.pop_front();
        assert(reading_views(instance.hp_history@) =~= now.skip(1));
        assert(now.skip(1) =~= all.skip(all.len() - now.len() + 1));
    }
    assert(instance@ =~= with_points(before, timestamp, hp, evidence@));
}

/// The instance with one more alias.
pub open spec fn with_new_alias(instance: InstanceView, alias: AliasView) -> InstanceView {
    InstanceView { aliases: with_alias(instance.aliases, alias), ..instance }
}

// -------------------------------------------------------------------------- store

/// The targets in play, the alias by which each is found, and how many of each
/// path there have been.
pub struct TargetInstanceStore {
    instances: Vec<RuntimeTargetInstance>,
    alias_index: StringHashMap<String>,
    spawn_seq_by_path: StringHashMap<u32>,
}

#[verifier::ext_equal]
pub struct StoreView {
    pub instances: Seq<InstanceView>,
    pub index: Map<Seq<char>, Seq<char>>,
    pub spawned: Map<Seq<char>, u32>,
}

impl View for TargetInstanceStore {
    type V = StoreView;

    closed spec fn view(&self) -> StoreView {
        StoreView {
            instances: instance_views(self.instances@),
            index: self.alias_index@.map_values(|id: String| id@),
            spawned: self.spawn_seq_by_path@,
        }
    }
}

/// The id that an alias is indexed under.
pub open spec fn indexed(index: Map<Seq<char>, Seq<char>>, key: Seq<char>) -> Option<Seq<char>> {
    if index.contains_key(key) {
        Some(index[key])
    } else {
        None
    }
}

/// One of the first `n` aliases of the instance is indexed under its id.
pub open spec fn indexed_itself(
    index: Map<Seq<char>, Seq<char>>,
    instance: InstanceView,
    n: int,
) -> bool
    decreases n,
{
    n > 0 && (indexed(index, instance.aliases[n - 1].key()) == Some(instance.instance_id)
        || indexed_itself(index, instance, n - 1))
}

/// The first instance, not before position `i`, that an alias of its own is
/// indexed under; the length where there is none.
pub open spec fn first_indexed(v: StoreView, i: int) -> int
    decreases v.instances.len() - i,
{
    if i >= v.instances.len() {
        v.instances.len() as int
    } else if indexed_itself(v.index, v.instances[i], v.instances[i].aliases.len() as int) {
        i
    } else {
        first_indexed(v, i + 1)
    }
}

/// The id under which an instance is found now.
pub open spec fn current_id(v: StoreView, id: Seq<char>) -> Seq<char> {
    if holds_instance(v.instances, id) {
        id
    } else {
        let at = first_indexed(v, 0);
        if at < v.instances.len() {
            v.instances[at].instance_id
        } else {
            id
        }
    }
}

/// The index with the first `n` aliases under the id.
pub open spec fn with_keys(
    index: Map<Seq<char>, Seq<char>>,
    aliases: Seq<AliasView>,
    n: int,
    id: Seq<char>,
) -> Map<Seq<char>, Seq<char>>
    decreases n,
{
    if n <= 0 {
        index
    } else {
        with_keys(index, aliases, n - 1, id).insert(aliases[n - 1].key(), id)
    }
}

/// The index without the first `n` aliases.
pub open spec fn without_keys(index: Map<Seq<char>, Seq<char>>, aliases: Seq<AliasView>, n: int) -> Map<
    Seq<char>,
    Seq<char>,
>
    decreases n,
{
    if n <= 0 {
        index
    } else {
        without_keys(index, aliases, n - 1).remove(aliases[n - 1].key())
    }
}

/// The instance gets the alias, and with it perhaps another id; the id that it
/// has then.
pub open spec fn alias_added(v: StoreView, id: Seq<char>, alias: AliasView) -> (
    StoreView,
    Seq<char>,
) {
    let cur = current_id(v, id);
    let at = instance_at(v.instances, cur, 0);
    if at >= v.instances.len() {
        (v, cur)
    } else {
        let instance = with_new_alias(v.instances[at], alias);
        let index = v.index.insert(alias.key(), cur);
        let best = preferred_id(instance.canonical_path, instance.spawn_seq, instance.aliases);
        if best == cur || holds_instance(v.instances, best) {
            (StoreView { instances: v.instances.update(at, instance), index, ..v }, cur)
        } else {
            (
                StoreView {
                    instances: v.instances.update(
                        at,
                        InstanceView { instance_id: best, ..instance },
                    ),
                    index: with_keys(index, instance.aliases, instance.aliases.len() as int, best),
                    ..v
                },
                best,
            )
        }
    }
}

/// The instance gets the first `n` aliases, one after the other.
pub open spec fn aliases_added(v: StoreView, id: Seq<char>, aliases: Seq<AliasView>, n: int) -> (
    StoreView,
    Seq<char>,
)
    decreases n,
{
    if n <= 0 {
        (v, id)
    } else {
        let before = aliases_added(v, id, aliases, n - 1);
        alias_added(before.0, before.1, aliases[n - 1])
    }
}

/// The id under which the first of the aliases that is indexed, from position `i`
/// on, is found.
pub open spec fn first_known(index: Map<Seq<char>, Seq<char>>, aliases: Seq<AliasView>, i: int) -> Option<
    Seq<char>,
>
    decreases aliases.len() - i,
{
    if i < 0 || i >= aliases.len() {
        None
    } else if index.contains_key(aliases[i].key()) {
        Some(index[aliases[i].key()])
    } else {
        first_known(index, aliases, i + 1)
    }
}

/// An instance of the path, without aliases, that was seen not over a second ago.
pub open spec fn recent_unaliased(instance: InstanceView, path: Seq<char>, timestamp: i64) -> bool {
    instance.canonical_path == path && instance.aliases.len() == 0 && timestamp
        - instance.last_seen_at <= ONE_SECOND
}

/// Among the first `n` instances, the position of the last of those recent,
/// unaliased ones of the path that were seen last; `-1` where there is none.
pub open spec fn latest_unaliased(s: Seq<InstanceView>, path: Seq<char>, timestamp: i64, n: int) -> int
    decreases n,
{
    if n <= 0 {
        -1
    } else {
        let b = latest_unaliased(s, path, timestamp, n - 1);
        if recent_unaliased(s[n - 1], path, timestamp) && (b < 0 || s[n - 1].last_seen_at
            >= s[b].last_seen_at) {
            n - 1
        } else {
            b
        }
    }
}

/// The number of the next instance of the path.
pub open spec fn next_number(spawned: Map<Seq<char>, u32>, path: Seq<char>) -> u32 {
    if spawned.contains_key(path) {
        if spawned[path] == u32::MAX {
            u32::MAX
        } else {
            (spawned[path] + 1) as u32
        }
    } else {
        1
    }
}

/// The instances with one more, in the place of one that has its id.
pub open spec fn with_instance(s: Seq<InstanceView>, instance: InstanceView) -> Seq<InstanceView> {
    let at = instance_at(s, instance.instance_id, 0);
    if at < s.len() {
        s.update(at, instance)
    } else {
        s.push(instance)
    }
}

/// A new instance, and its id.
pub open spec fn created(
    v: StoreView,
    timestamp: i64,
    path: Seq<char>,
    name: Seq<char>,
    aliases: Seq<AliasView>,
) -> (StoreView, Seq<char>) {
    let number = next_number(v.spawned, path);
    let id = preferred_id(path, number, aliases);
    let instance = InstanceView {
        instance_id: id,
        canonical_path: path,
        target_name: name,
        spawn_seq: number,
        first_seen_at: timestamp,
        last_seen_at: timestamp,
        aliases: Seq::empty(),
        hp_current: None,
        hp_history: Seq::empty(),
        state: RuntimeTargetState::Active,
    };
    (
        StoreView {
            instances: with_instance(v.instances, instance),
            spawned: v.spawned.insert(path, number),
            ..v
        },
        id,
    )
}

/// The instance that a sighting is of: the one that its aliases tell, a recent one
/// of its path without aliases, or a new one.
pub open spec fn sighted_instance(
    v: StoreView,
    timestamp: i64,
    path: Seq<char>,
    name: Seq<char>,
    aliases: Seq<AliasView>,
) -> (StoreView, Seq<char>) {
    match first_known(v.index, aliases, 0) {
        Some(id) => (v, id),
        None => {
            let at = latest_unaliased(v.instances, path, timestamp, v.instances.len() as int);
            if at >= 0 {
                (v, v.instances[at].instance_id)
            } else {
                created(v, timestamp, path, name, aliases)
            }
        },
    }
}

/// The instance, seen again.
pub open spec fn seen_again(instance: InstanceView, timestamp: i64, path: Seq<char>, name: Seq<char>) -> InstanceView {
    InstanceView {
        last_seen_at: timestamp,
        target_name: name,
        canonical_path: path,
        state: if instance.state == RuntimeTargetState::Expired {
            RuntimeTargetState::Active
        } else {
            instance.state
        },
        ..instance
    }
}

/// A target of the path and name was seen under the aliases; the id it has then.
pub open spec fn actor_observed(
    v: StoreView,
    timestamp: i64,
    path: Seq<char>,
    name: Seq<char>,
    aliases: Seq<AliasView>,
) -> (StoreView, Seq<char>) {
    let first = sighted_instance(v, timestamp, path, name, aliases);
    let then = aliases_added(first.0, first.1, aliases, aliases.len() as int);
    let at = instance_at(then.0.instances, then.1, 0);
    if at < then.0.instances.len() {
        (
            StoreView {
                instances: then.0.instances.update(
                    at,
                    seen_again(then.0.instances[at], timestamp, path, name),
                ),
                ..then.0
            },
            then.1,
        )
    } else {
        (then.0, first.1)
    }
}

/// The instance has not been seen for too long.
pub open spec fn timed_out(instance: InstanceView, timestamp: i64) -> bool {
    instance.state == RuntimeTargetState::Active && timestamp - instance.last_seen_at
        > INSTANCE_ACTIVE_TTL
}

/// The instance, expired where it has not been seen for too long.
pub open spec fn aged(instance: InstanceView, timestamp: i64) -> InstanceView {
    if timed_out(instance, timestamp) {
        InstanceView { state: RuntimeTargetState::Expired, ..instance }
    } else {
        instance
    }
}

/// The store with every instance expired that has not been seen for too long.
pub open spec fn all_aged(v: StoreView, timestamp: i64) -> StoreView {
    StoreView { instances: v.instances.map_values(|i: InstanceView| aged(i, timestamp)), ..v }
}

impl Default for TargetInstanceStore {
    fn default() -> (r: TargetInstanceStore)
        ensures
            r@.instances.len() == 0,
            r@.index == Map::<Seq<char>, Seq<char>>::empty(),
            r@.spawned == Map::<Seq<char>, u32>::empty(),
    {
        TargetInstanceStore::new()
    }
}

impl TargetInstanceStore {
    pub fn new() -> (r: TargetInstanceStore)
        ensures
            r@.instances.len() == 0,
            r@.index == Map::<Seq<char>, Seq<char>>::empty(),
            r@.spawned == Map::<Seq<char>, u32>::empty(),
    {
        let r = TargetInstanceStore {
            instances: Vec::new(),
            alias_index: StringHashMap::new(),
            spawn_seq_by_path: StringHashMap::new(),
        };
        assert(r@.index =~= Map::<Seq<char>, Seq<char>>::empty());
        r
    }

    pub fn len(&self) -> (r: usize)
        ensures
            r == self@.instances.len(),
    {
        self.instances.len()
    }

    pub fn instance(&self, instance_id: &str) -> (r: Option<&RuntimeTargetInstance>)
        ensures
            match r {
                Some(i) => holds_instance(self@.instances, instance_id@) && i@
                    == self@.instances[instance_at(self@.instances, instance_id@, 0)],
                None => !holds_instance(self@.instances, instance_id@),
            },
    {
        let at = find_instance(&self.instances, instance_id);
        if at < self.instances.len() {
            Some(&self.instances[at])
        } else {
            None
        }
    }

    fn id_for_key(&self, key: &str) -> (r: Option<String>)
        ensures
            text::opt_text(r) == indexed(self@.index, key@),
    {
        match self.alias_index.get(key) {
            Some(id) => Some(id.as_str().to_owned()),
            None => None,
        }
    }

    fn index_key(&mut self, key: String, id: String)
        ensures
            final(self)@ == (StoreView { index: old(self)@.index.insert(key@, id@), ..old(self)@ }),
            final(self).instances@ == old(self).instances@,
    {
        let ghost before = self@;
        self.alias_index.insert(key, id);
        assert(self@.index =~= before.index.insert(key@, id@));
    }

    fn forget_key(&mut self, key: &str)
        ensures
            final(self)@ == (StoreView { index: old(self)@.index.remove(key@), ..old(self)@ }),
            final(self).instances@ == old(self).instances@,
    {
        let ghost before = self@;
        self.alias_index.remove(key);
        assert(self@.index =~= before.index.remove(key@));
    }

    fn is_indexed_itself(&self, at: usize) -> (r: bool)
        requires
            at < self@.instances.len(),
        ensures
            r == indexed_itself(
                self@.index,
                self@.instances[at as int],
                self@.instances[at as int].aliases.len() as int,
            ),
    {
        let ghost all = self@.instances[at as int];
        let instance = &self.instances[at];
        assert(all == instance@);
        let mut k: usize = instance.aliases.len();
        while k > 0
            invariant
                k <= instance.aliases.len(),
                all == instance@,
                all == self@.instances[at as int],
                indexed_itself(self@.index, all, all.aliases.len() as int) == indexed_itself(
                    self@.index,
                    all,
                    k as int,
                ),
            decreases k,
        {
            assert(all.aliases[k - 1] == instance.aliases@[k - 1]@);
            match self.id_for_key(instance.aliases[k - 1].key().as_str()) {
                Some(id) => {
                    if text::same_str(id.as_str(), instance.instance_id.as_str()) {
                        return true;
                    }
                },
                None => {},
            }
            k -= 1;
        }
        false
    }

    fn current_id_for(&self, instance_id: &str) -> (out: String)
        ensures
            out@ == current_id(self@, instance_id@),
    {
        let at = find_instance(&self.instances, instance_id);
        if at < self.instances.len() {
            return instance_id.to_owned();
        }
        let mut i: usize = 0;
        while i < self.instances.len()
            invariant
                i <= self.instances.len(),
                first_indexed(self@, 0) == first_indexed(self@, i as int),
                !holds_instance(self@.instances, instance_id@),
            decreases self.instances.len() - i,
        {
            if self.is_indexed_itself(i) {
                assert(self@.instances[i as int] == self.instances@[i as int]@);
                return self.instances[i].instance_id.as_str().to_owned();
            }
            i += 1;
        }
        instance_id.to_owned()
    }

    fn index_aliases(&mut self, at: usize, id: &str)
        requires
            at < old(self)@.instances.len(),
        ensures
            final(self)@ == (StoreView {
                index: with_keys(
                    old(self)@.index,
                    old(self)@.instances[at as int].aliases,
                    old(self)@.instances[at as int].aliases.len() as int,
                    id@,
                ),
                ..old(self)@
            }),
    {
        let ghost before = self@;
        let ghost aliases = before.instances[at as int].aliases;
        let mut k: usize = 0;
        assert(self.instances@[at as int]@.aliases == aliases);
        while k < self.instances[at].aliases.len()
            invariant
                at < self.instances.len(),
                k <= aliases.len(),
                self.instances@[at as int]@.aliases == aliases,
                self@ == (StoreView {
                    index: with_keys(before.index, aliases, k as int, id@),
                    ..before
                }),
            decreases aliases.len() - k,
        {
            assert(aliases[k as int] == self.instances@[at as int].aliases@[k as int]@);
            let key = self.instances[at].aliases[k].key();
            self.index_key(key, id.to_owned());
            assert(self@.instances[at as int] == self.instances@[at as int]@);
            k += 1;
        }
    }

    fn add_alias_and_maybe_rename(&mut self, instance_id: &str, alias: TargetAlias) -> (out: String)
        ensures
            (final(self)@, out@) == alias_added(old(self)@, instance_id@, alias@),
    {
        let ghost v = self@;
        let current = self.current_id_for(instance_id);
        let at = find_instance(&self.instances, current.as_str());
        if at >= self.instances.len() {
            return current;
        }
        assert(v.instances[at as int] == self.instances@[at as int]@);
        let key = alias.key();
        let ghost wanted = with_new_alias(v.instances[at as int], alias@);
        let ghost list = self.instances@;
        insert_alias(&mut self.instances[at].aliases, alias);
        assert(self.instances@[at as int]@ =~= wanted);
        assert(self@.instances =~= v.instances.update(at as int, wanted));
        self.index_key(key, current.as_str().to_owned());
        let ghost indexed_now = self@;
        assert(self@.instances[at as int] == self.instances@[at as int]@);
        let best = preferred_instance_id(
            self.instances[at].canonical_path.as_str(),
            self.instances[at].spawn_seq,
            &self.instances[at].aliases,
        );
        proof {
            lemma_same_ids(v.instances, self@.instances, best@, 0);
        }
        if text::same_str(best.as_str(), current.as_str()) || find_instance(
            &self.instances,
            best.as_str(),
        ) < self.instances.len() {
            assert(self@ =~= alias_added(v, instance_id@, alias@).0);
            return current;
        }
        self.instances[at].instance_id = best.as_str().to_owned();
        let ghost renamed = InstanceView { instance_id: best@, ..wanted };
        assert(self.instances@[at as int]@ =~= renamed);
        assert(self@.instances =~= v.instances.update(at as int, renamed));
        assert(self@.index == indexed_now.index && self@.spawned == indexed_now.spawned);
        self.index_aliases(at, best.as_str());
        assert(self@ =~= alias_added(v, instance_id@, alias@).0);
        best
    }

    fn add_aliases(&mut self, instance_id: &str, aliases: &Vec<TargetAlias>) -> (out: String)
        ensures
            (final(self)@, out@) == aliases_added(
                old(self)@,
                instance_id@,
                alias_views(aliases@),
                aliases@.len() as int,
            ),
    {
        let ghost v = self@;
        let mut current = instance_id.to_owned();
        let mut k: usize = 0;
        while k < aliases.len()
            invariant
                k <= aliases.len(),
                (self@, current@) == aliases_added(
                    v,
                    instance_id@,
                    alias_views(aliases@),
                    k as int,
                ),
            decreases aliases.len() - k,
        {
            assert(alias_views(aliases@)[k as int] == aliases@[k as int]@);
            let next = self.add_alias_and_maybe_rename(current.as_str(), aliases[k].copy());
            current = next;
            k += 1;
        }
        current
    }
}

proof fn lemma_same_ids(a: Seq<InstanceView>, b: Seq<InstanceView>, id: Seq<char>, i: int)
    requires
        0 <= i,
        a.len() == b.len(),
        forall|k: int|
            0 <= k < a.len() ==> (#[trigger] a[k]).instance_id == (#[trigger] b[k]).instance_id,
    ensures
        instance_at(a, id, i) == instance_at(b, id, i),
    decreases a.len() - i,
{
    if i < a.len() {
        assert(a[i].instance_id == b[i].instance_id);
        lemma_same_ids(a, b, id, i + 1);
    }
}

// --------------------------------------------------------------------- sightings

/// The alias that an identity makes.
pub open spec fn alias_of_identity(identity: IdentityView) -> AliasView {
    alias_of(
        match identity.kind {
            NetIdentityCandidateKind::NetGuidPacked => TargetAliasKind::NetGuidPacked,
            NetIdentityCandidateKind::NetGuid32 => TargetAliasKind::NetGuid32,
            NetIdentityCandidateKind::IrisNetRefHandle32 => TargetAliasKind::IrisRef32,
        },
        identity.handle,
    )
}

pub(crate) fn alias_from_net_identity(candidate: &NetIdentityCandidate) -> (r: TargetAlias)
    ensures
        r@ == alias_of_identity(candidate@),
{
    let kind = match candidate.kind {
        NetIdentityCandidateKind::NetGuidPacked => TargetAliasKind::NetGuidPacked,
        NetIdentityCandidateKind::NetGuid32 => TargetAliasKind::NetGuid32,
        NetIdentityCandidateKind::IrisNetRefHandle32 => TargetAliasKind::IrisRef32,
    };
    TargetAlias::new(kind, candidate.handle.as_str())
}

/// The aliases that the first `n` identities give to the path.
pub open spec fn aliases_for(identities: Seq<NetIdentityCandidate>, path: Seq<char>, n: int) -> Seq<
    AliasView,
>
    decreases n,
{
    if n <= 0 {
        Seq::empty()
    } else if identities[n - 1].path@ == path {
        aliases_for(identities, path, n - 1).push(alias_of_identity(identities[n - 1]@))
    } else {
        aliases_for(identities, path, n - 1)
    }
}

fn aliases_for_path(identities: &[NetIdentityCandidate], path: &str) -> (out: Vec<TargetAlias>)
    ensures
        alias_views(out@) == aliases_for(identities@, path@, identities@.len() as int),
{
    let mut out: Vec<TargetAlias> = Vec::new();
    let mut k: usize = 0;
    assert(alias_views(out@) =~= aliases_for(identities@, path@, 0));
    while k < identities.len()
        invariant
            k <= identities@.len(),
            alias_views(out@) == aliases_for(identities@, path@, k as int),
        decreases identities.len() - k,
    {
        let ghost before = alias_views(out@);
        if text::same_str(identities[k].path.as_str(), path) {
            let alias = alias_from_net_identity(&identities[k]);
            out.push(alias);
            assert(alias_views(out@) =~= before.push(alias@));
        }
        k += 1;
    }
    out
}

/// The path of the monster that is meant, or the path itself.
pub open spec fn canonical_of(index: resource_index::IndexView, path: Seq<char>) -> Seq<char> {
    match resource_index::first_target(index, crate::aliases::lookup_keys(path), 0) {
        Some(p) => p,
        None => path,
    }
}

/// The path and the name of the monster that the path names, where the tables name
/// it.
pub open spec fn named_target(index: resource_index::IndexView, path: Seq<char>) -> Option<
    (Seq<char>, Seq<char>),
> {
    let canonical = canonical_of(index, path);
    match object_state::either(
        resource_index::resolved_name(index, path),
        resource_index::resolved_name(index, canonical),
    ) {
        Some(name) => Some((canonical, name)),
        None => None,
    }
}

pub open spec fn opt_pair(o: Option<(String, String)>) -> Option<(Seq<char>, Seq<char>)> {
    match o {
        Some(p) => Some((p.0@, p.1@)),
        None => None,
    }
}

fn resolved_target_path_name(resources: &ResourceIndex, path: &str) -> (r: Option<(String, String)>)
    ensures
        opt_pair(r) == named_target(resources@, path@),
{
    let canonical = match resources.canonical_target_path_for_path(path) {
        Some(p) => p,
        None => path.to_owned(),
    };
    let name = match resources.resolved_name_for_path(path) {
        Some(name) => Some(name),
        None => resources.resolved_name_for_path(canonical.as_str()),
    };
    match name {
        Some(name) => Some((canonical, name)),
        None => None,
    }
}

/// One path was seen in a packet.
pub open spec fn path_seen(
    v: StoreView,
    timestamp: i64,
    path: Seq<char>,
    identities: Seq<NetIdentityCandidate>,
    index: resource_index::IndexView,
) -> (StoreView, Option<Seq<char>>) {
    if object_state::ignored_path(path) {
        (v, Some("ignored_non_target_path="@ + path))
    } else {
        match named_target(index, path) {
            Some((canonical, name)) => {
                let r = actor_observed(
                    v,
                    timestamp,
                    canonical,
                    name,
                    aliases_for(identities, path, identities.len() as int),
                );
                (r.0, Some("runtime_target_instance="@ + r.1))
            },
            None => (v, None),
        }
    }
}

/// The first `n` paths were seen in a packet, with what is noted of each.
pub open spec fn paths_seen(
    v: StoreView,
    timestamp: i64,
    paths: Seq<PathCandidate>,
    identities: Seq<NetIdentityCandidate>,
    index: resource_index::IndexView,
    n: int,
) -> (StoreView, Seq<Seq<char>>)
    decreases n,
{
    if n <= 0 {
        (v, Seq::empty())
    } else {
        let before = paths_seen(v, timestamp, paths, identities, index, n - 1);
        let r = path_seen(before.0, timestamp, paths[n - 1].value@, identities, index);
        (
            r.0,
            match r.1 {
                Some(note) => before.1.push(note),
                None => before.1,
            },
        )
    }
}

impl TargetInstanceStore {
    fn put_instance(&mut self, instance: RuntimeTargetInstance)
        ensures
            final(self)@ == (StoreView {
                instances: with_instance(old(self)@.instances, instance@),
                ..old(self)@
            }),
    {
        let ghost v = self@;
        let at = find_instance(&self.instances, instance.instance_id.as_str());
        if at < self.instances.len() {
            self.instances[at] = instance;
            assert(self@.instances =~= v.instances.update(at as int, instance@));
        } else {
            self.instances.push(instance);
            assert(self@.instances =~= v.instances.push(instance@));
        }
        assert(self@ =~= (StoreView { instances: with_instance(v.instances, instance@), ..v }));
    }

    fn create_instance(
        &mut self,
        timestamp: i64,
        canonical_path: &str,
        target_name: &str,
        aliases: &Vec<TargetAlias>,
    ) -> (out: String)
        ensures
            (final(self)@, out@) == created(
                old(self)@,
                timestamp,
                canonical_path@,
                target_name@,
                alias_views(aliases@),
            ),
    {
        let ghost v = self@;
        let number: u32 = match self.spawn_seq_by_path.get(canonical_path) {
            Some(n) => if *n == u32::MAX { u32::MAX } else { *n + 1 },
            None => 1,
        };
        let id = preferred_instance_id(canonical_path, number, aliases);
        self.spawn_seq_by_path.insert(canonical_path.to_owned(), number);
        assert(self@.instances == v.instances && self@.index == v.index);
        let instance = RuntimeTargetInstance {
            instance_id: id.as_str().to_owned(),
            canonical_path: canonical_path.to_owned(),
            target_name: target_name.to_owned(),
            spawn_seq: number,
            first_seen_at: timestamp,
            last_seen_at: timestamp,
            aliases: Vec::new(),
            hp_current: None,
            hp_history: VecDeque::new(),
            state: RuntimeTargetState::Active,
        };
        assert(instance@.aliases =~= Seq::empty());
        assert(instance@.hp_history =~= Seq::empty());
        self.put_instance(instance);
        id
    }

    fn id_for_aliases(&self, aliases: &Vec<TargetAlias>) -> (r: Option<String>)
        ensures
            text::opt_text(r) == first_known(self@.index, alias_views(aliases@), 0),
    {
        let mut k: usize = 0;
        while k < aliases.len()
            invariant
                k <= aliases.len(),
                first_known(self@.index, alias_views(aliases@), 0) == first_known(
                    self@.index,
                    alias_views(aliases@),
                    k as int,
                ),
            decreases aliases.len() - k,
        {
            assert(alias_views(aliases@)[k as int] == aliases@[k as int]@);
            match self.id_for_key(aliases[k].key().as_str()) {
                Some(id) => {
                    return Some(id);
                },
                None => {},
            }
            k += 1;
        }
        None
    }

    fn recent_unaliased_instance_id(&self, canonical_path: &str, timestamp: i64) -> (r: Option<String>)
        ensures
            text::opt_text(r) == ({
                let at = latest_unaliased(
                    self@.instances,
                    canonical_path@,
                    timestamp,
                    self@.instances.len() as int,
                );
                if at >= 0 {
                    Some(self@.instances[at].instance_id)
                } else {
                    None
                }
            }),
    {
        let ghost all = self@.instances;
        let mut best: Option<usize> = None;
        let mut k: usize = 0;
        while k < self.instances.len()
            invariant
                k <= self.instances.len(),
                all == self@.instances,
                match best {
                    Some(b) => b < k && latest_unaliased(all, canonical_path@, timestamp, k as int)
                        == b,
                    None => latest_unaliased(all, canonical_path@, timestamp, k as int) == -1,
                },
            decreases self.instances.len() - k,
        {
            let instance = &self.instances[k];
            assert(all[k as int] == instance@);
            if text::same_str(instance.canonical_path.as_str(), canonical_path)
                && instance.aliases.len() == 0 && (timestamp as i128) - (
            instance.last_seen_at as i128) <= ONE_SECOND as i128 {
                match best {
                    Some(b) => {
                        assert(all[b as int] == self.instances@[b as int]@);
                        if instance.last_seen_at >= self.instances[b].last_seen_at {
                            best = Some(k);
                        }
                    },
                    None => {
                        best = Some(k);
                    },
                }
            }
            k += 1;
        }
        match best {
            Some(b) => {
                assert(all[b as int] == self.instances@[b as int]@);
                Some(self.instances[b].instance_id.as_str().to_owned())
            },
            None => None,
        }
    }

    fn sight_instance(
        &mut self,
        timestamp: i64,
        canonical_path: &str,
        target_name: &str,
        aliases: &Vec<TargetAlias>,
    ) -> (out: String)
        ensures
            (final(self)@, out@) == sighted_instance(
                old(self)@,
                timestamp,
                canonical_path@,
                target_name@,
                alias_views(aliases@),
            ),
    {
        match self.id_for_aliases(aliases) {
            Some(id) => {
                return id;
            },
            None => {},
        }
        match self.recent_unaliased_instance_id(canonical_path, timestamp) {
            Some(id) => id,
            None => self.create_instance(timestamp, canonical_path, target_name, aliases),
        }
    }

    fn observe_monster_actor(
        &mut self,
        timestamp: i64,
        canonical_path: String,
        target_name: String,
        aliases: &Vec<TargetAlias>,
    ) -> (out: String)
        ensures
            (final(self)@, out@) == actor_observed(
                old(self)@,
                timestamp,
                canonical_path@,
                target_name@,
                alias_views(aliases@),
            ),
    {
        let ghost v = self@;
        let first = self.sight_instance(
            timestamp,
            canonical_path.as_str(),
            target_name.as_str(),
            aliases,
        );
        let current = self.add_aliases(first.as_str(), aliases);
        let ghost then = self@;
        let at = find_instance(&self.instances, current.as_str());
        if at < self.instances.len() {
            let ghost wanted = seen_again(
                then.instances[at as int],
                timestamp,
                canonical_path@,
                target_name@,
            );
            assert(then.instances[at as int] == self.instances@[at as int]@);
            let expired = match self.instances[at].state {
                RuntimeTargetState::Expired => true,
                _ => false,
            };
            self.instances[at].last_seen_at = timestamp;
            self.instances[at].target_name = target_name;
            self.instances[at].canonical_path = canonical_path;
            if expired {
                self.instances[at].state = RuntimeTargetState::Active;
            }
            assert(self.instances@[at as int]@ =~= wanted);
            assert(self@.instances =~= then.instances.update(at as int, wanted));
            return current;
        }
        first
    }

    fn expire_old(&mut self, timestamp: i64)
        ensures
            final(self)@ == all_aged(old(self)@, timestamp),
    {
        let ghost v = self@;
        let mut k: usize = 0;
        while k < self.instances.len()
            invariant
                k <= self.instances.len(),
                self@.index == v.index,
                self@.spawned == v.spawned,
                self@.instances.len() == v.instances.len(),
                forall|m: int|
                    0 <= m < k ==> #[trigger] self@.instances[m] == aged(v.instances[m], timestamp),
                forall|m: int|
                    k <= m < self@.instances.len() ==> #[trigger] self@.instances[m]
                        == v.instances[m],
            decreases self.instances.len() - k,
        {
            let ghost now = self@.instances;
            assert(now[k as int] == self.instances@[k as int]@);
            let active = match self.instances[k].state {
                RuntimeTargetState::Active => true,
                _ => false,
            };
            if active && (timestamp as i128) - (self.instances[k].last_seen_at as i128)
                > INSTANCE_ACTIVE_TTL as i128 {
                self.instances[k].state = RuntimeTargetState::Expired;
                assert(self.instances@[k as int]@ =~= aged(v.instances[k as int], timestamp));
                assert(self@.instances =~= now.update(
                    k as int,
                    aged(v.instances[k as int], timestamp),
                ));
            }
            k += 1;
        }
        assert(self@.instances =~= all_aged(v, timestamp).instances);
        assert(self@ =~= all_aged(v, timestamp));
    }

    /// Paths that were seen in a packet, with the identities that stood beside
    /// them. What is noted of each is returned.
    pub fn observe_paths(
        &mut self,
        timestamp: i64,
        paths: &[PathCandidate],
        identities: &[NetIdentityCandidate],
        resources: &ResourceIndex,
    ) -> (out: Vec<String>)
        ensures
            ({
                let r = paths_seen(
                    old(self)@,
                    timestamp,
                    paths@,
                    identities@,
                    resources@,
                    paths@.len() as int,
                );
                final(self)@ == all_aged(r.0, timestamp) && text::texts(out@) == r.1
            }),
    {
        let ghost v = self@;
        let mut notes: Vec<String> = Vec::new();
        let mut k: usize = 0;
        assert(text::texts(notes@) =~= Seq::empty());
        while k < paths.len()
            invariant
                k <= paths@.len(),
                (self@, text::texts(notes@)) == paths_seen(
                    v,
                    timestamp,
                    paths@,
                    identities@,
                    resources@,
                    k as int,
                ),
            decreases paths.len() - k,
        {
            let path = paths[k].value.as_str();
            let ghost before = text::texts(notes@);
            if object_state::is_ignored_non_target_path(path) {
                notes.push(text::concat2("ignored_non_target_path=", path));
                assert(text::texts(notes@) =~= before.push("ignored_non_target_path="@ + path@));
            } else {
                match resolved_target_path_name(resources, path) {
                    Some(named) => {
                        let aliases = aliases_for_path(identities, path);
                        let id = self.observe_monster_actor(timestamp, named.0, named.1, &aliases);
                        notes.push(text::concat2("runtime_target_instance=", id.as_str()));
                        assert(text::texts(notes@) =~= before.push(
                            "runtime_target_instance="@ + id@,
                        ));
                    },
                    None => {},
                }
            }
            k += 1;
        }
        self.expire_old(timestamp);
        notes
    }

    /// A target was reported by the runtime; the id that it has then.
    pub fn observe_runtime_mapping(
        &mut self,
        timestamp: i64,
        canonical_path: String,
        target_name: String,
        aliases: Vec<TargetAlias>,
    ) -> (out: String)
        ensures
            ({
                let r = actor_observed(
                    old(self)@,
                    timestamp,
                    canonical_path@,
                    target_name@,
                    alias_views(aliases@),
                );
                final(self)@ == all_aged(r.0, timestamp) && out@ == r.1
            }),
    {
        let id = self.observe_monster_actor(timestamp, canonical_path, target_name, &aliases);
        self.expire_old(timestamp);
        id
    }
}

// ------------------------------------------------------------------- closed aliases

/// An alias was closed; the id of the instance that had it. The instance expires
/// with it where that is wanted.
pub open spec fn alias_closed(v: StoreView, timestamp: i64, alias: AliasView, expire: bool) -> (
    StoreView,
    Option<Seq<char>>,
) {
    match indexed(v.index, alias.key()) {
        None => (v, None),
        Some(id) => {
            let at = instance_at(v.instances, id, 0);
            let index = v.index.remove(alias.key());
            if at >= v.instances.len() {
                (StoreView { index, ..v }, None)
            } else {
                let instance = v.instances[at];
                (
                    StoreView {
                        instances: v.instances.update(
                            at,
                            InstanceView {
                                aliases: without_alias(instance.aliases, alias),
                                last_seen_at: timestamp,
                                state: if expire {
                                    RuntimeTargetState::Expired
                                } else {
                                    instance.state
                                },
                                ..instance
                            },
                        ),
                        index,
                        ..v
                    },
                    Some(instance.instance_id),
                )
            }
        },
    }
}

/// An active instance of the path.
pub open spec fn active_of(instance: InstanceView, path: Seq<char>) -> bool {
    instance.canonical_path == path && instance.state == RuntimeTargetState::Active
}

pub open spec fn alias_keys(aliases: Seq<AliasView>) -> Seq<Seq<char>> {
    aliases.map_values(|a: AliasView| a.key())
}

/// The active ones of the path among the first `n` instances expire and lose their
/// aliases; the aliases that they had.
pub open spec fn path_expired(v: StoreView, timestamp: i64, path: Seq<char>, n: int) -> (
    StoreView,
    Seq<Seq<char>>,
)
    decreases n,
{
    if n <= 0 {
        (v, Seq::empty())
    } else {
        let before = path_expired(v, timestamp, path, n - 1);
        let instance = v.instances[n - 1];
        if active_of(instance, path) {
            (
                StoreView {
                    instances: before.0.instances.update(
                        n - 1,
                        InstanceView {
                            last_seen_at: timestamp,
                            state: RuntimeTargetState::Expired,
                            ..instance
                        },
                    ),
                    index: without_keys(
                        before.0.index,
                        instance.aliases,
                        instance.aliases.len() as int,
                    ),
                    ..before.0
                },
                before.1 + alias_keys(instance.aliases),
            )
        } else {
            before
        }
    }
}

proof fn lemma_path_expired_keeps_later(v: StoreView, timestamp: i64, path: Seq<char>, n: int)
    requires
        0 <= n <= v.instances.len(),
    ensures
        path_expired(v, timestamp, path, n).0.instances.len() == v.instances.len(),
        path_expired(v, timestamp, path, n).0.spawned == v.spawned,
        forall|k: int|
            n <= k < v.instances.len()
                ==> #[trigger] path_expired(v, timestamp, path, n).0.instances[k] == v.instances[k],
    decreases n,
{
    if n > 0 {
        lemma_path_expired_keeps_later(v, timestamp, path, n - 1);
    }
}

impl TargetInstanceStore {
    fn forget_aliases(&mut self, at: usize, keys: &mut Vec<String>)
        requires
            at < old(self)@.instances.len(),
        ensures
            final(self)@ == (StoreView {
                index: without_keys(
                    old(self)@.index,
                    old(self)@.instances[at as int].aliases,
                    old(self)@.instances[at as int].aliases.len() as int,
                ),
                ..old(self)@
            }),
            final(self).instances@ == old(self).instances@,
            text::texts(final(keys)@) == text::texts(old(keys)@) + alias_keys(
                old(self)@.instances[at as int].aliases,
            ),
    {
        let ghost before = self@;
        let ghost list = self.instances@;
        let ghost had = text::texts(keys@);
        let ghost aliases = before.instances[at as int].aliases;
        assert(aliases == list[at as int]@.aliases);
        let mut k: usize = 0;
        assert(had + alias_keys(aliases.take(0)) =~= had);
        while k < self.instances[at].aliases.len()
            invariant
                at < self.instances.len(),
                self.instances@ == list,
                list[at as int]@.aliases == aliases,
                k <= aliases.len(),
                text::texts(keys@) == had + alias_keys(aliases.take(k as int)),
                self@ == (StoreView {
                    index: without_keys(before.index, aliases, k as int),
                    ..before
                }),
            decreases aliases.len() - k,
        {
            assert(aliases[k as int] == list[at as int].aliases@[k as int]@);
            let key = self.instances[at].aliases[k].key();
            self.forget_key(key.as_str());
            let ghost sofar = text::texts(keys@);
            keys.push(key);
            assert(text::texts(keys@) =~= sofar.push(key@));
            assert(alias_keys(aliases.take(k + 1)) =~= alias_keys(aliases.take(k as int)).push(
                key@,
            ));
            assert(had + alias_keys(aliases.take(k + 1)) =~= sofar.push(key@));
            k += 1;
        }
        assert(aliases.take(k as int) =~= aliases);
    }

    /// An alias was closed; the id of the instance that had it.
    pub fn close_alias(&mut self, timestamp: i64, alias: &TargetAlias, expire_instance: bool) -> (r:
        Option<String>)
        ensures
            (final(self)@, text::opt_text(r)) == alias_closed(
                old(self)@,
                timestamp,
                alias@,
                expire_instance,
            ),
    {
        let ghost v = self@;
        let key = alias.key();
        match self.id_for_key(key.as_str()) {
            None => None,
            Some(id) => {
                self.forget_key(key.as_str());
                let ghost now = self@;
                let at = find_instance(&self.instances, id.as_str());
                if at >= self.instances.len() {
                    return None;
                }
                assert(v.instances[at as int] == self.instances@[at as int]@);
                remove_alias(&mut self.instances[at].aliases, alias);
                self.instances[at].last_seen_at = timestamp;
                if expire_instance {
                    self.instances[at].state = RuntimeTargetState::Expired;
                }
                let ghost wanted = alias_closed(v, timestamp, alias@, expire_instance).0;
                assert(self.instances@[at as int]@ =~= wanted.instances[at as int]);
                assert(self@.instances =~= wanted.instances);
                assert(self@ =~= wanted);
                Some(self.instances[at].instance_id.as_str().to_owned())
            },
        }
    }

    /// The active instances of a path expire; the keys of the aliases they had.
    pub fn expire_path(&mut self, timestamp: i64, canonical_path: &str) -> (out: Vec<String>)
        ensures
            (final(self)@, text::texts(out@)) == path_expired(
                old(self)@,
                timestamp,
                canonical_path@,
                old(self)@.instances.len() as int,
            ),
    {
        let ghost v = self@;
        let mut keys: Vec<String> = Vec::new();
        let mut k: usize = 0;
        assert(text::texts(keys@) =~= Seq::empty());
        while k < self.instances.len()
            invariant
                k <= self@.instances.len(),
                self@.instances.len() == v.instances.len(),
                (self@, text::texts(keys@)) == path_expired(
                    v,
                    timestamp,
                    canonical_path@,
                    k as int,
                ),
            decreases v.instances.len() - k,
        {
            proof {
                lemma_path_expired_keeps_later(v, timestamp, canonical_path@, k as int);
            }
            let ghost now = self@;
            assert(now.instances[k as int] == v.instances[k as int]);
            assert(now.instances[k as int] == self.instances@[k as int]@);
            let active = match self.instances[k].state {
                RuntimeTargetState::Active => true,
                _ => false,
            };
            if active && text::same_str(
                self.instances[k].canonical_path.as_str(),
                canonical_path,
            ) {
                self.instances[k].last_seen_at = timestamp;
                self.instances[k].state = RuntimeTargetState::Expired;
                let ghost changed = InstanceView {
                    last_seen_at: timestamp,
                    state: RuntimeTargetState::Expired,
                    ..v.instances[k as int]
                };
                assert(self.instances@[k as int]@ =~= changed);
                assert(self@.instances =~= now.instances.update(k as int, changed));
                assert(self@.index == now.index && self@.spawned == now.spawned);
                self.forget_aliases(k, &mut keys);
                assert(self@ =~= path_expired(v, timestamp, canonical_path@, k + 1).0);
            }
            k += 1;
        }
        keys
    }
}

// --------------------------------------------------------------------- hit points

/// The instance has another alias of the alias's kind.
pub open spec fn has_other_alias(aliases: Seq<AliasView>, alias: AliasView) -> bool {
    exists|k: int|
        0 <= k < aliases.len() && (#[trigger] aliases[k]).kind == alias.kind && aliases[k].value
            != alias.value
}

/// How well an instance fits an alias that nothing has yet; `-1` where it cannot
/// have it.
pub open spec fn pending_score(instance: InstanceView, timestamp: i64, alias: AliasView) -> int {
    let age = timestamp - instance.last_seen_at;
    if object_state::ignored_path(instance.canonical_path) || instance.target_name.len() == 0
        || instance.state != RuntimeTargetState::Active || has_other_alias(instance.aliases, alias)
        || !(0 <= age <= INSTANCE_PENDING_WINDOW) {
        -1
    } else {
        180 + (2 * (INSTANCE_PENDING_WINDOW - age) + 500_000) / 1_000_000 + (if text::contains(
            instance.canonical_path,
            "Boss"@,
        ) || text::contains(instance.canonical_path, "boss"@) {
            20int
        } else {
            0
        }) + if instance.aliases.len() > 0 {
            10int
        } else {
            0
        }
    }
}

/// How well each instance fits.
pub open spec fn pending_scores(s: Seq<InstanceView>, timestamp: i64, alias: AliasView) -> Seq<int> {
    s.map_values(|i: InstanceView| pending_score(i, timestamp, alias))
}

/// By how much the best must lead.
pub const CLEAR_LEAD: i32 = 25;

/// The score at the position leads all others clearly.
pub open spec fn leads(scores: Seq<int>, i: int) -> bool {
    &&& 0 <= i < scores.len()
    &&& scores[i] >= 0
    &&& forall|j: int|
        0 <= j < scores.len() && j != i ==> (#[trigger] scores[j]) < 0 || scores[j] + CLEAR_LEAD
            <= scores[i]
}

/// The position whose score leads all others clearly, where there is one.
pub open spec fn leader(scores: Seq<int>) -> Option<int> {
    if exists|i: int| leads(scores, i) {
        Some(choose|i: int| leads(scores, i))
    } else {
        None
    }
}

/// There is at most one score that leads all others clearly.
pub proof fn leader_is_alone(scores: Seq<int>, i: int)
    requires
        leads(scores, i),
    ensures
        leader(scores) == Some(i),
{
    let c = choose|i: int| leads(scores, i);
    if c != i {
        assert(scores[c] + CLEAR_LEAD <= scores[i]);
        assert(scores[i] + CLEAR_LEAD <= scores[c]);
    }
}

fn find_leader(scores: &Vec<i32>) -> (r: Option<usize>)
    ensures
        match r {
            Some(i) => leader(scores@.map_values(|x: i32| x as int)) == Some(i as int) && i
                < scores.len(),
            None => leader(scores@.map_values(|x: i32| x as int)) is None,
        },
{
    let ghost all = scores@.map_values(|x: i32| x as int);
    if scores.len() == 0 {
        return None;
    }
    let mut best: usize = 0;
    let mut second: i32 = -1;
    let mut k: usize = 1;
    while k < scores.len()
        invariant
            1 <= k <= scores.len(),
            best < k,
            all == scores@.map_values(|x: i32| x as int),
            second >= -1,
            forall|j: int| 0 <= j < k ==> (#[trigger] all[j]) <= all[best as int],
            forall|j: int| 0 <= j < k && j != best ==> (#[trigger] all[j]) <= second,
            second >= 0 ==> exists|j: int| 0 <= j < k && j != best && (#[trigger] all[j]) == second,
        decreases scores.len() - k,
    {
        assert(all[k as int] == scores@[k as int]);
        assert(all[best as int] == scores@[best as int]);
        if scores[k] > scores[best] {
            if scores[best] > second {
                second = scores[best];
                assert(all[best as int] == second);
            }
            best = k;
        } else if scores[k] > second {
            second = scores[k];
            assert(all[k as int] == second);
        }
        k += 1;
    }
    assert(all[best as int] == scores@[best as int]);
    if scores[best] >= 0 && (second < 0 || scores[best] as i64 - second as i64 >= CLEAR_LEAD as i64) {
        assert(leads(all, best as int));
        proof {
            leader_is_alone(all, best as int);
        }
        Some(best)
    } else {
        assert forall|i: int| !leads(all, i) by {
            if leads(all, i) {
                if i != best {
                    assert(all[best as int] < 0 || all[best as int] + CLEAR_LEAD <= all[i]);
                    assert(all[i] <= all[best as int]);
                } else {
                    let j = choose|j: int| 0 <= j < k && j != best && (#[trigger] all[j]) == second;
                    assert(all[j] < 0 || all[j] + CLEAR_LEAD <= all[best as int]);
                }
            }
        }
        None
    }
}

fn pending_instance_score(
    instance: &RuntimeTargetInstance,
    timestamp: i64,
    incoming_alias: &TargetAlias,
) -> (r: i32)
    ensures
        r == pending_score(instance@, timestamp, incoming_alias@),
{
    let active = match instance.state {
        RuntimeTargetState::Active => true,
        _ => false,
    };
    let ghost aliases = instance@.aliases;
    let mut k: usize = 0;
    while k < instance.aliases.len()
        invariant
            k <= instance.aliases.len(),
            aliases == instance@.aliases,
            forall|m: int|
                0 <= m < k ==> !((#[trigger] aliases[m]).kind == incoming_alias@.kind
                    && aliases[m].value != incoming_alias@.value),
        decreases instance.aliases.len() - k,
    {
        assert(aliases[k as int] == instance.aliases@[k as int]@);
        if instance.aliases[k].kind == incoming_alias.kind && !text::same_str(
            instance.aliases[k].value.as_str(),
            incoming_alias.value.as_str(),
        ) {
            assert(has_other_alias(aliases, incoming_alias@));
            return -1;
        }
        k += 1;
    }
    assert(!has_other_alias(aliases, incoming_alias@));
    let name = text::chars_of(instance.target_name.as_str());
    if object_state::is_ignored_non_target_path(instance.canonical_path.as_str()) || name.len() == 0
        || !active {
        return -1;
    }
    let age: i128 = (timestamp as i128) - (instance.last_seen_at as i128);
    if age < 0 || age > INSTANCE_PENDING_WINDOW as i128 {
        return -1;
    }
    let recency: i128 = (2 * (INSTANCE_PENDING_WINDOW as i128 - age) + 500_000) / 1_000_000;
    let path = text::chars_of(instance.canonical_path.as_str());
    let boss: i32 = if text::has(&path, "Boss") || text::has(&path, "boss") { 20 } else { 0 };
    let aliased: i32 = if instance.aliases.len() > 0 { 10 } else { 0 };
    180 + recency as i32 + boss + aliased
}

/// The instance that an alias belongs to: the one it is indexed under, or the one
/// that fits clearly best.
pub open spec fn alias_owner(v: StoreView, timestamp: i64, alias: AliasView) -> Option<Seq<char>> {
    match indexed(v.index, alias.key()) {
        Some(id) => Some(id),
        None => match leader(pending_scores(v.instances, timestamp, alias)) {
            Some(at) => Some(v.instances[at].instance_id),
            None => None,
        },
    }
}

/// The hit points of what the alias names were read; the id of the instance, while
/// it lives. A dead one loses its aliases.
pub open spec fn points_observed(
    v: StoreView,
    timestamp: i64,
    alias: AliasView,
    hp: i64,
    evidence: Seq<char>,
) -> (StoreView, Option<Seq<char>>) {
    match alias_owner(v, timestamp, alias) {
        None => (v, None),
        Some(id) => {
            let then = alias_added(v, id, alias);
            let at = instance_at(then.0.instances, then.1, 0);
            if at >= then.0.instances.len() {
                (then.0, None)
            } else {
                let instance = with_points(then.0.instances[at], timestamp, hp, evidence);
                let instances = then.0.instances.update(at, instance);
                if dead_points(hp) {
                    (
                        StoreView {
                            instances,
                            index: without_keys(
                                then.0.index,
                                instance.aliases,
                                instance.aliases.len() as int,
                            ),
                            ..then.0
                        },
                        None,
                    )
                } else {
                    (StoreView { instances, ..then.0 }, Some(then.1))
                }
            }
        },
    }
}

impl TargetInstanceStore {
    fn best_pending_instance_id(&self, timestamp: i64, alias: &TargetAlias) -> (r: Option<String>)
        ensures
            text::opt_text(r) == match leader(
                pending_scores(self@.instances, timestamp, alias@),
            ) {
                Some(at) => Some(self@.instances[at].instance_id),
                None => None,
            },
    {
        let ghost all = self@.instances;
        let mut scores: Vec<i32> = Vec::new();
        let mut k: usize = 0;
        while k < self.instances.len()
            invariant
                k <= self.instances.len(),
                all == self@.instances,
                scores.len() == k,
                forall|m: int|
                    0 <= m < k ==> (#[trigger] scores@[m]) == pending_score(
                        all[m],
                        timestamp,
                        alias@,
                    ),
            decreases self.instances.len() - k,
        {
            assert(all[k as int] == self.instances@[k as int]@);
            scores.push(pending_instance_score(&self.instances[k], timestamp, alias));
            k += 1;
        }
        assert(scores@.map_values(|x: i32| x as int) =~= pending_scores(all, timestamp, alias@));
        match find_leader(&scores) {
            Some(at) => {
                assert(all[at as int] == self.instances@[at as int]@);
                Some(self.instances[at].instance_id.as_str().to_owned())
            },
            None => None,
        }
    }

    fn observe_hp_alias(&mut self, timestamp: i64, alias: TargetAlias, current_hp: i64, evidence: String) -> (r:
        Option<String>)
        ensures
            (final(self)@, text::opt_text(r)) == points_observed(
                old(self)@,
                timestamp,
                alias@,
                current_hp,
                evidence@,
            ),
    {
        let ghost v = self@;
        let key = alias.key();
        let owner = match self.id_for_key(key.as_str()) {
            Some(id) => Some(id),
            None => self.best_pending_instance_id(timestamp, &alias),
        };
        match owner {
            None => None,
            Some(id) => {
                let current = self.add_alias_and_maybe_rename(id.as_str(), alias);
                let ghost then = self@;
                let at = find_instance(&self.instances, current.as_str());
                if at >= self.instances.len() {
                    return None;
                }
                assert(then.instances[at as int] == self.instances@[at as int]@);
                let ghost wanted = with_points(
                    then.instances[at as int],
                    timestamp,
                    current_hp,
                    evidence@,
                );
                observe_points(&mut self.instances[at], timestamp, current_hp, evidence);
                assert(self.instances@[at as int]@ == wanted);
                assert(self@.instances =~= then.instances.update(at as int, wanted));
                assert(self@.index == then.index && self@.spawned == then.spawned);
                if current_hp <= INSTANCE_DEAD_HP_THRESHOLD {
                    let mut keys: Vec<String> = Vec::new();
                    self.forget_aliases(at, &mut keys);
                    None
                } else {
                    Some(current)
                }
            },
        }
    }

    /// The hit points of a boss were read.
    pub fn observe_boss_hp_guid(
        &mut self,
        timestamp: i64,
        handle: &[u8],
        current_hp: i64,
        evidence: String,
    ) -> (r: Option<String>)
        ensures
            (final(self)@, text::opt_text(r)) == points_observed(
                old(self)@,
                timestamp,
                alias_of(TargetAliasKind::BossHpGuid, hexadecimal::hex_text(handle@)),
                current_hp,
                evidence@,
            ),
    {
        let alias = TargetAlias::new(
            TargetAliasKind::BossHpGuid,
            hexadecimal::encode(handle).as_str(),
        );
        self.observe_hp_alias(timestamp, alias, current_hp, evidence)
    }

    /// The hit points of what a token names were read.
    pub fn observe_current_hp_token(
        &mut self,
        timestamp: i64,
        token: &[u8],
        current_hp: i64,
        evidence: String,
    ) -> (r: Option<String>)
        ensures
            (final(self)@, text::opt_text(r)) == points_observed(
                old(self)@,
                timestamp,
                alias_of(TargetAliasKind::CurrentHpToken, hexadecimal::hex_text(token@)),
                current_hp,
                evidence@,
            ),
    {
        let alias = TargetAlias::new(
            TargetAliasKind::CurrentHpToken,
            hexadecimal::encode(token).as_str(),
        );
        self.observe_hp_alias(timestamp, alias, current_hp, evidence)
    }

    /// The hit points of a target of the game's own interface were read.
    pub fn observe_sdk_net_target(
        &mut self,
        timestamp: i64,
        token: &[u8],
        current_hp: i64,
        evidence: String,
    ) -> (r: Option<String>)
        ensures
            (final(self)@, text::opt_text(r)) == points_observed(
                old(self)@,
                timestamp,
                alias_of(TargetAliasKind::SdkNetTarget, hexadecimal::hex_text(token@)),
                current_hp,
                evidence@,
            ),
    {
        let alias = TargetAlias::new(
            TargetAliasKind::SdkNetTarget,
            hexadecimal::encode(token).as_str(),
        );
        self.observe_hp_alias(timestamp, alias, current_hp, evidence)
    }
}

// ------------------------------------------------------------ the target of a hit

/// The kind of alias that a label names.
pub open spec fn labelled_kind(label: Seq<char>) -> Option<TargetAliasKind> {
    if label == "iris_ref32"@ {
        Some(TargetAliasKind::IrisRef32)
    } else if label == "actor_channel"@ {
        Some(TargetAliasKind::ActorChannel)
    } else if label == "netguid32"@ {
        Some(TargetAliasKind::NetGuid32)
    } else if label == "netguid_packed"@ {
        Some(TargetAliasKind::NetGuidPacked)
    } else if label == "sdk_net_target"@ {
        Some(TargetAliasKind::SdkNetTarget)
    } else if label == "boss_hp_guid"@ {
        Some(TargetAliasKind::BossHpGuid)
    } else if label == "current_hp_token"@ {
        Some(TargetAliasKind::CurrentHpToken)
    } else if label == "hit_target_token"@ {
        Some(TargetAliasKind::HitTargetToken)
    } else if label == "hit_target_vector_token"@ {
        Some(TargetAliasKind::HitVectorToken)
    } else {
        None
    }
}

pub fn alias_kind_for_label(label: &str) -> (r: Option<TargetAliasKind>)
    ensures
        r == labelled_kind(label@),
{
    if text::same_str(label, "iris_ref32") {
        Some(TargetAliasKind::IrisRef32)
    } else if text::same_str(label, "actor_channel") {
        Some(TargetAliasKind::ActorChannel)
    } else if text::same_str(label, "netguid32") {
        Some(TargetAliasKind::NetGuid32)
    } else if text::same_str(label, "netguid_packed") {
        Some(TargetAliasKind::NetGuidPacked)
    } else if text::same_str(label, "sdk_net_target") {
        Some(TargetAliasKind::SdkNetTarget)
    } else if text::same_str(label, "boss_hp_guid") {
        Some(TargetAliasKind::BossHpGuid)
    } else if text::same_str(label, "current_hp_token") {
        Some(TargetAliasKind::CurrentHpToken)
    } else if text::same_str(label, "hit_target_token") {
        Some(TargetAliasKind::HitTargetToken)
    } else if text::same_str(label, "hit_target_vector_token") {
        Some(TargetAliasKind::HitVectorToken)
    } else {
        None
    }
}

/// The alias that an entry of a hit's context tells: a label, `=` and a value.
pub open spec fn context_alias(entry: Seq<char>) -> Option<AliasView> {
    let at = text::seek_class(entry, Class::Only('='), 0);
    if at >= entry.len() {
        None
    } else {
        match labelled_kind(entry.take(at)) {
            Some(kind) => Some(alias_of(kind, entry.skip(at + 1))),
            None => None,
        }
    }
}

pub open spec fn opt_alias(o: Option<TargetAlias>) -> Option<AliasView> {
    match o {
        Some(a) => Some(a@),
        None => None,
    }
}

fn alias_from_context(entry: &str) -> (r: Option<TargetAlias>)
    ensures
        opt_alias(r) == context_alias(entry@),
{
    let chars = text::chars_of(entry);
    let at = text::seek_pos(&chars, Class::Only('='), 0);
    if at >= chars.len() {
        return None;
    }
    let label = text::part(&chars, 0, at);
    let value = text::part(&chars, at + 1, chars.len());
    assert(label@ =~= entry@.take(at as int));
    assert(value@ =~= entry@.skip(at + 1));
    match alias_kind_for_label(text::string_of(&label).as_str()) {
        Some(kind) => Some(TargetAlias::new(kind, text::string_of(&value).as_str())),
        None => None,
    }
}

/// The position of the active instance that the alias names; the number of
/// instances where there is none.
pub open spec fn alias_instance(v: StoreView, key: Seq<char>) -> int {
    match indexed(v.index, key) {
        Some(id) => {
            let at = instance_at(v.instances, id, 0);
            if at < v.instances.len() && v.instances[at].state == RuntimeTargetState::Active {
                at
            } else {
                v.instances.len() as int
            }
        },
        None => v.instances.len() as int,
    }
}

/// From entry `i` on, the first alias of a hit's context that names an active
/// instance, and that instance's position.
pub open spec fn context_instance(v: StoreView, context: Seq<Seq<char>>, i: int) -> Option<
    (int, Seq<char>),
>
    decreases context.len() - i,
{
    if i < 0 || i >= context.len() {
        None
    } else {
        let found = match context_alias(context[i]) {
            Some(alias) => {
                let at = alias_instance(v, alias.key());
                if at < v.instances.len() {
                    Some((at, alias.key()))
                } else {
                    None
                }
            },
            None => None,
        };
        match found {
            Some(r) => Some(r),
            None => context_instance(v, context, i + 1),
        }
    }
}

pub open spec fn distance(a: int, b: int) -> int {
    if a >= b {
        a - b
    } else {
        b - a
    }
}

/// The values are nearly equal: by two points, or two thousandths of the scale.
pub open spec fn nearly(a: int, b: int, scale: int) -> bool {
    distance(a, b) <= HP_MATCH_TOLERANCE || 500 * distance(a, b) <= distance(scale, 0)
}

fn gap(a: i128, b: i128) -> (r: i128)
    requires
        -0x1_0000_0000_0000_0000 <= a <= 0x1_0000_0000_0000_0000,
        -0x1_0000_0000_0000_0000 <= b <= 0x1_0000_0000_0000_0000,
    ensures
        r == distance(a as int, b as int),
        0 <= r <= 0x2_0000_0000_0000_0000,
{
    if a >= b {
        a - b
    } else {
        b - a
    }
}

pub(crate) fn nearly_equal(a: i128, b: i128, scale: i128) -> (r: bool)
    requires
        -0x1_0000_0000_0000_0000 <= a <= 0x1_0000_0000_0000_0000,
        -0x1_0000_0000_0000_0000 <= b <= 0x1_0000_0000_0000_0000,
        -0x1_0000_0000_0000_0000 <= scale <= 0x1_0000_0000_0000_0000,
    ensures
        r == nearly(a as int, b as int, scale as int),
{
    let d = gap(a, b);
    d <= HP_MATCH_TOLERANCE as i128 || 500 * d <= gap(scale, 0)
}

/// Two successive readings tell of the hit: what was lost is its damage, and the
/// readings are its hit points before and after, within a second.
pub open spec fn readings_match(previous: ReadingView, current: ReadingView, hit: HitView) -> bool {
    &&& distance(current.timestamp as int, hit.timestamp as int) <= ONE_SECOND
    &&& nearly(previous.current - current.current, hit.damage as int, hit.damage as int)
    &&& nearly(
        previous.current as int,
        hit.target_hp_before as int,
        hit.target_hp_before as int,
    )
    &&& nearly(current.current as int, hit.target_hp_after as int, hit.target_hp_after as int)
}

/// Two successive ones of the readings tell of the hit.
pub open spec fn history_matches(history: Seq<ReadingView>, hit: HitView) -> bool {
    exists|k: int|
        0 < k < history.len() && readings_match(history[k - 1], #[trigger] history[k], hit)
}

fn hp_pair_matches_hit(
    previous: &RuntimeTargetHpObservation,
    current: &RuntimeTargetHpObservation,
    hit: &Hit,
) -> (r: bool)
    ensures
        r == readings_match(previous@, current@, hit@),
{
    gap(current.timestamp as i128, hit.timestamp as i128) <= ONE_SECOND as i128 && nearly_equal(
        (previous.current as i128) - (current.current as i128),
        hit.damage as i128,
        hit.damage as i128,
    ) && nearly_equal(
        previous.current as i128,
        hit.target_hp_before as i128,
        hit.target_hp_before as i128,
    ) && nearly_equal(
        current.current as i128,
        hit.target_hp_after as i128,
        hit.target_hp_after as i128,
    )
}

fn history_tells(history: &VecDeque<RuntimeTargetHpObservation>, hit: &Hit) -> (r: bool)
    ensures
        r == history_matches(reading_views(history@), hit@),
{
    let ghost all = reading_views(history@);
    let mut k: usize = 1;
    while k < history.len()
        invariant
            1 <= k,
            all == reading_views(history@),
            forall|m: int|
                0 < m < k && m < all.len() ==> !readings_match(
                    all[m - 1],
                    #[trigger] all[m],
                    hit@,
                ),
        decreases history.len() - k,
    {
        assert(all[k as int] == history@[k as int]@ && all[k - 1] == history@[k - 1]@);
        if hp_pair_matches_hit(&history[k - 1], &history[k], hit) {
            return true;
        }
        k += 1;
    }
    false
}

/// An active instance whose readings tell of the hit.
pub open spec fn timeline_tells(instance: InstanceView, hit: HitView) -> bool {
    instance.state == RuntimeTargetState::Active && history_matches(instance.hp_history, hit)
}

/// An active, named instance that was seen not too long ago.
pub open spec fn active_named(instance: InstanceView, timestamp: i64) -> bool {
    &&& instance.state == RuntimeTargetState::Active
    &&& timestamp - instance.last_seen_at <= INSTANCE_ACTIVE_TTL
    &&& instance.target_name.len() > 0
}

/// The positions of the first `n` instances of which `has` holds.
pub open spec fn instances_with(s: Seq<InstanceView>, has: spec_fn(InstanceView) -> bool, n: int) -> Seq<
    int,
>
    decreases n,
{
    if n <= 0 {
        Seq::empty()
    } else if has(s[n - 1]) {
        instances_with(s, has, n - 1).push(n - 1)
    } else {
        instances_with(s, has, n - 1)
    }
}

/// The position of the only instance of which `has` holds.
pub open spec fn only_instance(s: Seq<InstanceView>, has: spec_fn(InstanceView) -> bool) -> Option<int> {
    let found = instances_with(s, has, s.len() as int);
    if found.len() == 1 {
        Some(found[0])
    } else {
        None
    }
}

pub open spec fn resolution_of(
    instance: InstanceView,
    confidence: TargetConfidence,
    score: i32,
    reason: Seq<char>,
) -> ResolutionView {
    ResolutionView {
        instance_id: instance.instance_id,
        target_name: instance.target_name,
        canonical_path: instance.canonical_path,
        confidence,
        score,
        reason,
    }
}

/// The target of a hit: the instance that an alias of its context names; else the
/// only one whose readings tell of the hit; else the only named one in play.
pub open spec fn resolved(v: StoreView, hit: HitView) -> Option<ResolutionView> {
    match context_instance(v, hit.target_context, 0) {
        Some((at, key)) => Some(
            resolution_of(
                v.instances[at],
                TargetConfidence::Confirmed,
                120,
                "runtime_alias:"@ + key,
            ),
        ),
        None => match only_instance(v.instances, |i: InstanceView| timeline_tells(i, hit)) {
            Some(at) => Some(
                resolution_of(
                    v.instances[at],
                    TargetConfidence::Probable,
                    90,
                    "runtime_hp_timeline"@,
                ),
            ),
            None => match only_instance(
                v.instances,
                |i: InstanceView| active_named(i, hit.timestamp),
            ) {
                Some(at) => Some(
                    resolution_of(
                        v.instances[at],
                        TargetConfidence::Possible,
                        45,
                        "runtime_unique_active_named_instance"@,
                    ),
                ),
                None => None,
            },
        },
    }
}

pub open spec fn opt_resolution(o: Option<TargetInstanceResolution>) -> Option<ResolutionView> {
    match o {
        Some(r) => Some(r@),
        None => None,
    }
}

fn instance_resolution(
    instance: &RuntimeTargetInstance,
    confidence: TargetConfidence,
    score: i32,
    reason: String,
) -> (r: TargetInstanceResolution)
    ensures
        r@ == resolution_of(instance@, confidence, score, reason@),
{
    let r = TargetInstanceResolution {
        instance_id: instance.instance_id.as_str().to_owned(),
        target_name: instance.target_name.as_str().to_owned(),
        canonical_path: instance.canonical_path.as_str().to_owned(),
        confidence,
        score,
        reason,
    };
    assert(r@ =~= resolution_of(instance@, confidence, score, reason@));
    r
}

impl TargetInstanceStore {
    fn position_for_key(&self, key: &str) -> (r: usize)
        ensures
            r == alias_instance(self@, key@),
            r <= self.instances.len(),
    {
        match self.id_for_key(key) {
            Some(id) => {
                let at = find_instance(&self.instances, id.as_str());
                if at < self.instances.len() {
                    assert(self@.instances[at as int] == self.instances@[at as int]@);
                    match self.instances[at].state {
                        RuntimeTargetState::Active => at,
                        _ => self.instances.len(),
                    }
                } else {
                    self.instances.len()
                }
            },
            None => self.instances.len(),
        }
    }

    /// The active instance that an alias names.
    pub fn instance_for_alias(&self, alias: &TargetAlias) -> (r: Option<&RuntimeTargetInstance>)
        ensures
            match r {
                Some(i) => alias_instance(self@, alias@.key()) < self@.instances.len() && i@
                    == self@.instances[alias_instance(self@, alias@.key())],
                None => alias_instance(self@, alias@.key()) >= self@.instances.len(),
            },
    {
        let at = self.position_for_key(alias.key().as_str());
        if at < self.instances.len() {
            assert(self@.instances[at as int] == self.instances@[at as int]@);
            Some(&self.instances[at])
        } else {
            None
        }
    }

    fn resolve_by_alias(&self, hit: &Hit) -> (r: Option<(usize, String)>)
        ensures
            match r {
                Some((at, key)) => context_instance(self@, hit@.target_context, 0) == Some(
                    (at as int, key@),
                ) && at < self.instances.len(),
                None => context_instance(self@, hit@.target_context, 0) is None,
            },
    {
        let ghost context = hit@.target_context;
        let mut k: usize = 0;
        while k < hit.target_context.len()
            invariant
                k <= hit.target_context.len(),
                context == hit@.target_context,
                context_instance(self@, context, 0) == context_instance(self@, context, k as int),
            decreases hit.target_context.len() - k,
        {
            assert(context[k as int] == hit.target_context@[k as int]@);
            match alias_from_context(hit.target_context[k].as_str()) {
                Some(alias) => {
                    let key = alias.key();
                    let at = self.position_for_key(key.as_str());
                    if at < self.instances.len() {
                        return Some((at, key));
                    }
                },
                None => {},
            }
            k += 1;
        }
        None
    }

    fn resolve_by_hp_timeline(&self, hit: &Hit) -> (r: Option<usize>)
        ensures
            match r {
                Some(at) => only_instance(
                    self@.instances,
                    |i: InstanceView| timeline_tells(i, hit@),
                ) == Some(at as int) && at < self.instances.len(),
                None => only_instance(
                    self@.instances,
                    |i: InstanceView| timeline_tells(i, hit@),
                ) is None,
            },
    {
        let ghost all = self@.instances;
        let ghost has = |i: InstanceView| timeline_tells(i, hit@);
        let mut found: usize = 0;
        let mut count: usize = 0;
        let mut k: usize = 0;
        while k < self.instances.len()
            invariant
                k <= self.instances.len(),
                all == self@.instances,
                has == (|i: InstanceView| timeline_tells(i, hit@)),
                count <= k,
                count == instances_with(all, has, k as int).len(),
                count > 0 ==> found < k && instances_with(all, has, k as int).last() == found,
            decreases self.instances.len() - k,
        {
            assert(all[k as int] == self.instances@[k as int]@);
            let active = match self.instances[k].state {
                RuntimeTargetState::Active => true,
                _ => false,
            };
            if active && history_tells(&self.instances[k].hp_history, hit) {
                found = k;
                count += 1;
            }
            k += 1;
        }
        if count == 1 {
            Some(found)
        } else {
            None
        }
    }

    fn only_active_named(&self, timestamp: i64) -> (r: Option<usize>)
        ensures
            match r {
                Some(at) => only_instance(
                    self@.instances,
                    |i: InstanceView| active_named(i, timestamp),
                ) == Some(at as int) && at < self.instances.len(),
                None => only_instance(
                    self@.instances,
                    |i: InstanceView| active_named(i, timestamp),
                ) is None,
            },
    {
        let ghost all = self@.instances;
        let ghost has = |i: InstanceView| active_named(i, timestamp);
        let mut found: usize = 0;
        let mut count: usize = 0;
        let mut k: usize = 0;
        while k < self.instances.len()
            invariant
                k <= self.instances.len(),
                all == self@.instances,
                has == (|i: InstanceView| active_named(i, timestamp)),
                count <= k,
                count == instances_with(all, has, k as int).len(),
                count > 0 ==> found < k && instances_with(all, has, k as int).last() == found,
            decreases self.instances.len() - k,
        {
            let instance = &self.instances[k];
            assert(all[k as int] == instance@);
            let active = match instance.state {
                RuntimeTargetState::Active => true,
                _ => false,
            };
            let name = text::chars_of(instance.target_name.as_str());
            if active && (timestamp as i128) - (instance.last_seen_at as i128)
                <= INSTANCE_ACTIVE_TTL as i128 && name.len() > 0 {
                found = k;
                count += 1;
            }
            k += 1;
        }
        if count == 1 {
            Some(found)
        } else {
            None
        }
    }

    /// The target of a hit.
    pub fn resolve_hit(&self, hit: &Hit) -> (r: Option<TargetInstanceResolution>)
        ensures
            opt_resolution(r) == resolved(self@, hit@),
    {
        match self.resolve_by_alias(hit) {
            Some(found) => {
                assert(self@.instances[found.0 as int] == self.instances@[found.0 as int]@);
                return Some(
                    instance_resolution(
                        &self.instances[found.0],
                        TargetConfidence::Confirmed,
                        120,
                        text::concat2("runtime_alias:", found.1.as_str()),
                    ),
                );
            },
            None => {},
        }
        match self.resolve_by_hp_timeline(hit) {
            Some(at) => {
                assert(self@.instances[at as int] == self.instances@[at as int]@);
                return Some(
                    instance_resolution(
                        &self.instances[at],
                        TargetConfidence::Probable,
                        90,
                        "runtime_hp_timeline".to_owned(),
                    ),
                );
            },
            None => {},
        }
        match self.only_active_named(hit.timestamp) {
            Some(at) => {
                assert(self@.instances[at as int] == self.instances@[at as int]@);
                Some(
                    instance_resolution(
                        &self.instances[at],
                        TargetConfidence::Possible,
                        45,
                        "runtime_unique_active_named_instance".to_owned(),
                    ),
                )
            },
            None => None,
        }
    }
}

// ------------------------------------------------------------------------- laws

/// Every instance has its own id, its aliases in order, and not too many readings.
pub open spec fn sound(v: StoreView) -> bool {
    distinct_ids(v.instances) && forall|k: int|
        0 <= k < v.instances.len() ==> sound_instance(#[trigger] v.instances[k])
}

pub open spec fn sound_instance(i: InstanceView) -> bool {
    aliases_in_order(i.aliases) && i.hp_history.len() <= MAX_HP_HISTORY_PER_INSTANCE
}

/// An added alias leaves the store sound.
pub proof fn adding_an_alias_keeps_soundness(v: StoreView, id: Seq<char>, alias: AliasView)
    requires
        sound(v),
    ensures
        sound(alias_added(v, id, alias).0),
{
    let cur = current_id(v, id);
    let at = instance_at(v.instances, cur, 0);
    lemma_instance_at(v.instances, cur, 0);
    if at < v.instances.len() {
        adding_keeps_aliases_in_order(v.instances[at].aliases, alias);
        let instance = with_new_alias(v.instances[at], alias);
        let best = preferred_id(instance.canonical_path, instance.spawn_seq, instance.aliases);
        lemma_instance_at(v.instances, best, 0);
        let r = alias_added(v, id, alias).0;
        assert(sound_instance(r.instances[at]));
        assert forall|k: int| 0 <= k < r.instances.len() implies sound_instance(
            #[trigger] r.instances[k],
        ) by {
            if k != at {
                assert(r.instances[k] == v.instances[k]);
            }
        }
        assert forall|i: int, j: int| 0 <= i < j < r.instances.len() implies (
        #[trigger] r.instances[i]).instance_id != (#[trigger] r.instances[j]).instance_id by {
            assert(i != at ==> r.instances[i] == v.instances[i]);
            assert(j != at ==> r.instances[j] == v.instances[j]);
            assert(v.instances[i].instance_id != v.instances[j].instance_id);
        }
    }
}

proof fn lemma_aliases_added_sound(v: StoreView, id: Seq<char>, aliases: Seq<AliasView>, n: int)
    requires
        sound(v),
    ensures
        sound(aliases_added(v, id, aliases, n).0),
    decreases n,
{
    if n > 0 {
        lemma_aliases_added_sound(v, id, aliases, n - 1);
        let before = aliases_added(v, id, aliases, n - 1);
        adding_an_alias_keeps_soundness(before.0, before.1, aliases[n - 1]);
    }
}

proof fn lemma_replaced_sound(v: StoreView, at: int, instance: InstanceView)
    requires
        sound(v),
        0 <= at < v.instances.len(),
        sound_instance(instance),
        instance.instance_id == v.instances[at].instance_id,
    ensures
        sound(StoreView { instances: v.instances.update(at, instance), ..v }),
{
    let r = v.instances.update(at, instance);
    assert forall|i: int, j: int| 0 <= i < j < r.len() implies (#[trigger] r[i]).instance_id != (
    #[trigger] r[j]).instance_id by {
        assert(v.instances[i].instance_id != v.instances[j].instance_id);
    }
}

/// A sighting leaves the store sound.
pub proof fn sightings_keep_soundness(
    v: StoreView,
    timestamp: i64,
    path: Seq<char>,
    name: Seq<char>,
    aliases: Seq<AliasView>,
)
    requires
        sound(v),
    ensures
        sound(actor_observed(v, timestamp, path, name, aliases).0),
{
    let first = sighted_instance(v, timestamp, path, name, aliases);
    if first.0 != v {
        let number = next_number(v.spawned, path);
        let id = preferred_id(path, number, aliases);
        lemma_instance_at(v.instances, id, 0);
        let r = first.0.instances;
        let at = instance_at(v.instances, id, 0);
        assert(sound_instance(r[at]));
        assert forall|k: int| 0 <= k < r.len() implies sound_instance(#[trigger] r[k]) by {
            if k != at {
                assert(r[k] == v.instances[k]);
            }
        }
        assert forall|i: int, j: int| 0 <= i < j < r.len() implies (#[trigger] r[i]).instance_id
            != (#[trigger] r[j]).instance_id by {
            if i != at {
                assert(r[i] == v.instances[i]);
            }
            if j != at {
                assert(r[j] == v.instances[j]);
            }
            if i < v.instances.len() && j < v.instances.len() {
                assert(v.instances[i].instance_id != v.instances[j].instance_id);
            }
        }
    }
    lemma_aliases_added_sound(first.0, first.1, aliases, aliases.len() as int);
    let then = aliases_added(first.0, first.1, aliases, aliases.len() as int);
    let at = instance_at(then.0.instances, then.1, 0);
    lemma_instance_at(then.0.instances, then.1, 0);
    if at < then.0.instances.len() {
        assert(sound_instance(then.0.instances[at]));
        lemma_replaced_sound(
            then.0,
            at,
            seen_again(then.0.instances[at], timestamp, path, name),
        );
    }
}

/// Hit points that were read leave the store sound.
pub proof fn hit_points_keep_soundness(
    v: StoreView,
    timestamp: i64,
    alias: AliasView,
    hp: i64,
    evidence: Seq<char>,
)
    requires
        sound(v),
    ensures
        sound(points_observed(v, timestamp, alias, hp, evidence).0),
{
    match alias_owner(v, timestamp, alias) {
        None => {},
        Some(id) => {
            adding_an_alias_keeps_soundness(v, id, alias);
            let then = alias_added(v, id, alias);
            let at = instance_at(then.0.instances, then.1, 0);
            lemma_instance_at(then.0.instances, then.1, 0);
            if at < then.0.instances.len() {
                assert(sound_instance(then.0.instances[at]));
                lemma_replaced_sound(
                    then.0,
                    at,
                    with_points(then.0.instances[at], timestamp, hp, evidence),
                );
            }
        },
    }
}

/// Closed aliases leave the store sound.
pub proof fn closing_keeps_soundness(v: StoreView, timestamp: i64, alias: AliasView, expire: bool)
    requires
        sound(v),
    ensures
        sound(alias_closed(v, timestamp, alias, expire).0),
{
    match indexed(v.index, alias.key()) {
        None => {},
        Some(id) => {
            let at = instance_at(v.instances, id, 0);
            lemma_instance_at(v.instances, id, 0);
            if at < v.instances.len() {
                assert(sound_instance(v.instances[at]));
                removing_keeps_aliases_in_order(v.instances[at].aliases, alias);
                lemma_replaced_sound(
                    v,
                    at,
                    alias_closed(v, timestamp, alias, expire).0.instances[at],
                );
            }
        },
    }
}

/// Expired paths leave the store sound, and no active instance of the path is left.
pub proof fn expiring_keeps_soundness(v: StoreView, timestamp: i64, path: Seq<char>, n: int)
    requires
        sound(v),
        0 <= n <= v.instances.len(),
    ensures
        sound(path_expired(v, timestamp, path, n).0),
        forall|k: int|
            0 <= k < n ==> !active_of(
                #[trigger] path_expired(v, timestamp, path, n).0.instances[k],
                path,
            ),
    decreases n,
{
    if n > 0 {
        expiring_keeps_soundness(v, timestamp, path, n - 1);
        lemma_path_expired_keeps_later(v, timestamp, path, n - 1);
        let before = path_expired(v, timestamp, path, n - 1);
        assert(before.0.instances[n - 1] == v.instances[n - 1]);
        let r = path_expired(v, timestamp, path, n).0;
        if active_of(v.instances[n - 1], path) {
            assert(sound_instance(v.instances[n - 1]));
            lemma_replaced_sound(before.0, n - 1, r.instances[n - 1]);
        }
        assert forall|k: int| 0 <= k < n implies !active_of(#[trigger] r.instances[k], path) by {
            if k < n - 1 {
                assert(r.instances[k] == before.0.instances[k]);
            }
        }
    }
}

/// Time that passes leaves the store sound.
pub proof fn aging_keeps_soundness(v: StoreView, timestamp: i64)
    requires
        sound(v),
    ensures
        sound(all_aged(v, timestamp)),
{
    let r = all_aged(v, timestamp).instances;
    assert forall|k: int| 0 <= k < r.len() implies sound_instance(#[trigger] r[k]) by {
        assert(sound_instance(v.instances[k]));
    }
    assert forall|i: int, j: int| 0 <= i < j < r.len() implies (#[trigger] r[i]).instance_id != (
    #[trigger] r[j]).instance_id by {
        assert(v.instances[i].instance_id != v.instances[j].instance_id);
    }
}

proof fn lemma_instances_with(s: Seq<InstanceView>, has: spec_fn(InstanceView) -> bool, n: int)
    requires
        0 <= n <= s.len(),
    ensures
        forall|k: int|
            #![trigger instances_with(s, has, n)[k]]
            0 <= k < instances_with(s, has, n).len() ==> 0 <= instances_with(s, has, n)[k] < n
                && has(s[instances_with(s, has, n)[k]]),
    decreases n,
{
    if n > 0 {
        lemma_instances_with(s, has, n - 1);
        let before = instances_with(s, has, n - 1);
        let r = instances_with(s, has, n);
        assert forall|k: int| #![trigger r[k]] 0 <= k < r.len() implies 0 <= r[k] < n && has(
            s[r[k]],
        ) by {
            if k < before.len() {
                assert(r[k] == before[k]);
            }
        }
    }
}

proof fn lemma_context_instance(v: StoreView, context: Seq<Seq<char>>, i: int)
    ensures
        context_instance(v, context, i) matches Some((at, key)) ==> 0 <= at < v.instances.len()
            && v.instances[at].state == RuntimeTargetState::Active,
    decreases context.len() - i,
{
    if 0 <= i < context.len() {
        match context_alias(context[i]) {
            Some(alias) => {
                match indexed(v.index, alias.key()) {
                    Some(id) => {
                        lemma_instance_at(v.instances, id, 0);
                    },
                    None => {},
                }
            },
            None => {},
        }
        lemma_context_instance(v, context, i + 1);
    }
}

/// Only an active instance is taken for the target of a hit.
pub proof fn only_the_active_are_hit(v: StoreView, hit: HitView)
    ensures
        resolved(v, hit) matches Some(r) ==> exists|k: int|
            0 <= k < v.instances.len() && (#[trigger] v.instances[k]).state
                == RuntimeTargetState::Active && v.instances[k].instance_id == r.instance_id
                && v.instances[k].target_name == r.target_name,
{
    lemma_context_instance(v, hit.target_context, 0);
    lemma_instances_with(
        v.instances,
        |i: InstanceView| timeline_tells(i, hit),
        v.instances.len() as int,
    );
    lemma_instances_with(
        v.instances,
        |i: InstanceView| active_named(i, hit.timestamp),
        v.instances.len() as int,
    );
}

/// A dead target is found by none of its aliases any more.
pub proof fn the_dead_lose_their_aliases(
    v: StoreView,
    timestamp: i64,
    alias: AliasView,
    hp: i64,
    evidence: Seq<char>,
)
    requires
        dead_points(hp),
        sound(v),
        alias_owner(v, timestamp, alias) matches Some(id) && holds_instance(v.instances, id),
    ensures
        !points_observed(v, timestamp, alias, hp, evidence).0.index.contains_key(alias.key()),
        points_observed(v, timestamp, alias, hp, evidence).1 is None,
{
    let id = alias_owner(v, timestamp, alias).unwrap();
    let at = instance_at(v.instances, id, 0);
    lemma_instance_at(v.instances, id, 0);
    adding_keeps_aliases_in_order(v.instances[at].aliases, alias);
    adding_an_alias_keeps_soundness(v, id, alias);
    let then = alias_added(v, id, alias);
    let now = instance_at(then.0.instances, then.1, 0);
    lemma_instance_at(then.0.instances, then.1, 0);
    assert(then.0.instances[at].instance_id == then.1);
    assert(now == at);
    let aliases = then.0.instances[now].aliases;
    assert(aliases == with_alias(v.instances[at].aliases, alias));
    let k = choose|k: int| 0 <= k < aliases.len() && aliases[k] == alias;
    lemma_without_keys(then.0.index, aliases, aliases.len() as int, k);
}

proof fn lemma_without_keys(index: Map<Seq<char>, Seq<char>>, aliases: Seq<AliasView>, n: int, k: int)
    requires
        0 <= k < n <= aliases.len(),
    ensures
        !without_keys(index, aliases, n).contains_key(aliases[k].key()),
    decreases n,
{
    if k < n - 1 {
        lemma_without_keys(index, aliases, n - 1, k);
    }
}

} // verus!
