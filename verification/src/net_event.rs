//! What a payload tells about the runtime: exported names, references, channels,
//! the life of objects, and hit points of targets.
use vstd::prelude::*;

use crate::bits;
use crate::bits::PathCandidate;
use crate::float::F32;
use crate::hexadecimal;
use crate::net_identity;
use crate::net_identity::IdentityView;
use crate::net_identity::NetIdentityCandidate;
use crate::net_identity::NetIdentityCandidateKind;
use crate::object_state;
use crate::parser;
use crate::parser::ParsedSdkTargetHpKind;
use crate::parser::ParsedSdkTargetHpUpdate;
use crate::parser::SdkTargetView;
use crate::protocol::SequencedPacket;
use crate::protocol::SingleBunch;
use crate::protocol::TransportPacket;
use crate::runs;
use crate::sorting;
use crate::target_instance;
use crate::target_instance::AliasView;
use crate::target_instance::TargetAlias;
use crate::target_instance::TargetAliasKind;
use crate::text;
use crate::text::Class;

verus! {

pub const TEXT_PATH_ASSOCIATION_WINDOW_BYTES: usize = 512;

pub const MAX_TEXT_EVENTS: usize = 24;

pub const MAX_IDENTITY_EVENTS: usize = 24;

pub const MAX_SDK_TARGET_EVENTS: usize = 12;

// ------------------------------------------------------------------------- kinds

#[derive(Clone, Copy, Debug, PartialEq, Eq, Hash, Structural)]
pub enum NetRuntimeEventKind {
    ActorChannel,
    TransportBunch,
    PackageMapExport,
    IrisReference,
    ObjectLifecycle,
    SdkTargetData,
    AbilityLifecycle,
    GameplayEffectLifecycle,
}

impl NetRuntimeEventKind {
    pub open spec fn label_text(self) -> Seq<char> {
        match self {
            NetRuntimeEventKind::ActorChannel => "actor_channel"@,
            NetRuntimeEventKind::TransportBunch => "transport_bunch"@,
            NetRuntimeEventKind::PackageMapExport => "package_map_export"@,
            NetRuntimeEventKind::IrisReference => "iris_reference"@,
            NetRuntimeEventKind::ObjectLifecycle => "object_lifecycle"@,
            NetRuntimeEventKind::SdkTargetData => "sdk_target_data"@,
            NetRuntimeEventKind::AbilityLifecycle => "ability_lifecycle"@,
            NetRuntimeEventKind::GameplayEffectLifecycle => "gameplay_effect_lifecycle"@,
        }
    }

    pub fn label(self) -> (r: &'static str)
        ensures
            r@ == self.label_text(),
    {
        match self {
            NetRuntimeEventKind::ActorChannel => "actor_channel",
            NetRuntimeEventKind::TransportBunch => "transport_bunch",
            NetRuntimeEventKind::PackageMapExport => "package_map_export",
            NetRuntimeEventKind::IrisReference => "iris_reference",
            NetRuntimeEventKind::ObjectLifecycle => "object_lifecycle",
            NetRuntimeEventKind::SdkTargetData => "sdk_target_data",
            NetRuntimeEventKind::AbilityLifecycle => "ability_lifecycle",
            NetRuntimeEventKind::GameplayEffectLifecycle => "gameplay_effect_lifecycle",
        }
    }

    /// The place of the kind's label among the labels.
    pub open spec fn label_place(self) -> int {
        match self {
            NetRuntimeEventKind::AbilityLifecycle => 0,
            NetRuntimeEventKind::ActorChannel => 1,
            NetRuntimeEventKind::GameplayEffectLifecycle => 2,
            NetRuntimeEventKind::IrisReference => 3,
            NetRuntimeEventKind::ObjectLifecycle => 4,
            NetRuntimeEventKind::PackageMapExport => 5,
            NetRuntimeEventKind::SdkTargetData => 6,
            NetRuntimeEventKind::TransportBunch => 7,
        }
    }

    fn place(self) -> (r: u8)
        ensures
            r == self.label_place(),
    {
        match self {
            NetRuntimeEventKind::AbilityLifecycle => 0,
            NetRuntimeEventKind::ActorChannel => 1,
            NetRuntimeEventKind::GameplayEffectLifecycle => 2,
            NetRuntimeEventKind::IrisReference => 3,
            NetRuntimeEventKind::ObjectLifecycle => 4,
            NetRuntimeEventKind::PackageMapExport => 5,
            NetRuntimeEventKind::SdkTargetData => 6,
            NetRuntimeEventKind::TransportBunch => 7,
        }
    }
}

proof fn lemma_before(a: Seq<char>, b: Seq<char>)
    requires
        a.len() > 0,
        b.len() > 0,
        a[0] < b[0],
    ensures
        text::text_lt(a, b),
{
}

/// The kinds are placed by their labels.
pub proof fn places_follow_labels(a: NetRuntimeEventKind, b: NetRuntimeEventKind)
    ensures
        a.label_place() < b.label_place() <==> text::text_lt(a.label_text(), b.label_text()),
{
    reveal_strlit("actor_channel");
    reveal_strlit("transport_bunch");
    reveal_strlit("package_map_export");
    reveal_strlit("iris_reference");
    reveal_strlit("object_lifecycle");
    reveal_strlit("sdk_target_data");
    reveal_strlit("ability_lifecycle");
    reveal_strlit("gameplay_effect_lifecycle");
    if a.label_place() < b.label_place() {
        lemma_places(a, b);
        text::text_order_is_total(a.label_text(), b.label_text());
    } else if b.label_place() < a.label_place() {
        lemma_places(b, a);
        text::text_order_is_total(a.label_text(), b.label_text());
    } else {
        assert(a == b);
        text::text_order_is_total(a.label_text(), a.label_text());
    }
}

proof fn lemma_places(a: NetRuntimeEventKind, b: NetRuntimeEventKind)
    requires
        a.label_place() < b.label_place(),
    ensures
        text::text_lt(a.label_text(), b.label_text()),
{
    reveal_strlit("actor_channel");
    reveal_strlit("transport_bunch");
    reveal_strlit("package_map_export");
    reveal_strlit("iris_reference");
    reveal_strlit("object_lifecycle");
    reveal_strlit("sdk_target_data");
    reveal_strlit("ability_lifecycle");
    reveal_strlit("gameplay_effect_lifecycle");
    let s = a.label_text();
    let t = b.label_text();
    if s[0] < t[0] {
        lemma_before(s, t);
    } else {
        assert(s[0] == t[0]);
        lemma_before(s.skip(1), t.skip(1));
    }
}

#[derive(Clone, Copy, Debug, PartialEq, Eq, Hash, Structural)]
pub enum NetRuntimeAction {
    Mapping,
    Open,
    Close,
    Spawn,
    Destroy,
    UpdateHp,
    Observe,
}

impl NetRuntimeAction {
    pub open spec fn label_text(self) -> Seq<char> {
        match self {
            NetRuntimeAction::Mapping => "map"@,
            NetRuntimeAction::Open => "open"@,
            NetRuntimeAction::Close => "close"@,
            NetRuntimeAction::Spawn => "spawn"@,
            NetRuntimeAction::Destroy => "destroy"@,
            NetRuntimeAction::UpdateHp => "update_hp"@,
            NetRuntimeAction::Observe => "observe"@,
        }
    }

    pub fn label(self) -> (r: &'static str)
        ensures
            r@ == self.label_text(),
    {
        match self {
            NetRuntimeAction::Mapping => "map",
            NetRuntimeAction::Open => "open",
            NetRuntimeAction::Close => "close",
            NetRuntimeAction::Spawn => "spawn",
            NetRuntimeAction::Destroy => "destroy",
            NetRuntimeAction::UpdateHp => "update_hp",
            NetRuntimeAction::Observe => "observe",
        }
    }
}

// ------------------------------------------------------------------------- events

/// A word in the payload that tells of the runtime.
#[derive(Clone, Debug)]
pub struct NetRuntimeTextMarker {
    pub kind: NetRuntimeEventKind,
    pub action: NetRuntimeAction,
    pub text: String,
    pub byte_offset: usize,
    pub bit_shift: u8,
    pub score: u16,
}

#[verifier::ext_equal]
pub struct MarkerView {
    pub kind: NetRuntimeEventKind,
    pub action: NetRuntimeAction,
    pub text: Seq<char>,
    pub byte_offset: usize,
    pub bit_shift: u8,
    pub score: u16,
}

impl View for NetRuntimeTextMarker {
    type V = MarkerView;

    open spec fn view(&self) -> MarkerView {
        MarkerView {
            kind: self.kind,
            action: self.action,
            text: self.text@,
            byte_offset: self.byte_offset,
            bit_shift: self.bit_shift,
            score: self.score,
        }
    }
}

pub open spec fn marker_views(v: Seq<NetRuntimeTextMarker>) -> Seq<MarkerView> {
    v.map_values(|m: NetRuntimeTextMarker| m@)
}

/// One thing that a payload tells about the runtime.
#[derive(Clone, Debug)]
pub struct NetRuntimeEvent {
    pub kind: NetRuntimeEventKind,
    pub action: NetRuntimeAction,
    pub aliases: Vec<TargetAlias>,
    pub path: Option<String>,
    pub current_hp: Option<F32>,
    pub dead_state: Option<i32>,
    pub target_token: Option<Vec<u8>>,
    pub byte_offset: usize,
    pub bit_shift: u8,
    pub score: u16,
    pub evidence: String,
}

#[verifier::ext_equal]
pub struct NetEventView {
    pub kind: NetRuntimeEventKind,
    pub action: NetRuntimeAction,
    pub aliases: Seq<AliasView>,
    pub path: Option<Seq<char>>,
    pub current_hp: Option<F32>,
    pub dead_state: Option<i32>,
    pub target_token: Option<Seq<u8>>,
    pub byte_offset: usize,
    pub bit_shift: u8,
    pub score: u16,
    pub evidence: Seq<char>,
}

pub open spec fn opt_bytes(o: Option<Vec<u8>>) -> Option<Seq<u8>> {
    match o {
        Some(v) => Some(v@),
        None => None,
    }
}

impl View for NetRuntimeEvent {
    type V = NetEventView;

    open spec fn view(&self) -> NetEventView {
        NetEventView {
            kind: self.kind,
            action: self.action,
            aliases: target_instance::alias_views(self.aliases@),
            path: text::opt_text(self.path),
            current_hp: self.current_hp,
            dead_state: self.dead_state,
            target_token: opt_bytes(self.target_token),
            byte_offset: self.byte_offset,
            bit_shift: self.bit_shift,
            score: self.score,
            evidence: self.evidence@,
        }
    }
}

pub open spec fn net_event_views(v: Seq<NetRuntimeEvent>) -> Seq<NetEventView> {
    v.map_values(|e: NetRuntimeEvent| e@)
}

/// An alias as it is written in a summary.
pub open spec fn alias_note(a: AliasView) -> Seq<char> {
    a.kind.label_text() + "="@ + a.value
}

pub open spec fn alias_notes(aliases: Seq<AliasView>) -> Seq<Seq<char>> {
    aliases.map_values(|a: AliasView| alias_note(a))
}

impl NetEventView {
    /// What the event is and where it stands.
    pub open spec fn head(self) -> Seq<char> {
        self.kind.label_text() + ":"@ + self.action.label_text() + "@"@ + text::dec(
            self.byte_offset as nat,
        ) + ":"@ + text::dec(self.bit_shift as nat)
    }

    /// The parts of the event's summary.
    pub open spec fn summary_parts(self) -> Seq<Seq<char>> {
        let path = match self.path {
            Some(p) => seq![self.head(), "path="@ + p],
            None => seq![self.head()],
        };
        let aliases = if self.aliases.len() > 0 {
            path.push("aliases="@ + text::join(alias_notes(self.aliases), "|"@))
        } else {
            path
        };
        let hp = match self.current_hp {
            Some(hp) => aliases.push("hp="@ + hp.whole_text()),
            None => aliases,
        };
        let dead = match self.dead_state {
            Some(d) => hp.push("dead="@ + text::signed_dec(d as int)),
            None => hp,
        };
        dead.push("score="@ + text::dec(self.score as nat))
    }
}

fn push_text(list: &mut Vec<String>, value: String)
    ensures
        text::texts(final(list)@) == text::texts(old(list)@).push(value@),
{
    let ghost before = text::texts(list@);
    list.push(value);
    assert(text::texts(list@) =~= before.push(value@));
}

impl NetRuntimeEvent {
    fn alias_texts(&self) -> (out: Vec<String>)
        ensures
            text::texts(out@) == alias_notes(self@.aliases),
    {
        let ghost all = self@.aliases;
        let mut out: Vec<String> = Vec::new();
        let mut k: usize = 0;
        while k < self.aliases.len()
            invariant
                k <= self.aliases.len(),
                all == self@.aliases,
                out@.len() == k,
                forall|m: int| 0 <= m < k ==> (#[trigger] out@[m])@ == alias_note(all[m]),
            decreases self.aliases.len() - k,
        {
            assert(all[k as int] == self.aliases@[k as int]@);
            out.push(
                text::concat3(self.aliases[k].kind.label(), "=", self.aliases[k].value.as_str()),
            );
            k += 1;
        }
        assert(text::texts(out@) =~= alias_notes(all));
        out
    }

    /// The event on one line.
    pub fn summary(&self) -> (out: String)
        ensures
            out@ == text::join(self@.summary_parts(), " "@),
    {
        let mut head = text::concat3(self.kind.label(), ":", self.action.label());
        head.append("@");
        head.append(text::dec_string(self.byte_offset as u64).as_str());
        head.append(":");
        head.append(text::dec_string(self.bit_shift as u64).as_str());
        let mut parts: Vec<String> = Vec::new();
        parts.push(head);
        assert(text::texts(parts@) =~= seq![self@.head()]);
        match &self.path {
            Some(path) => {
                push_text(&mut parts, text::concat2("path=", path.as_str()));
                assert(text::texts(parts@) =~= seq![self@.head(), "path="@ + path@]);
            },
            None => {},
        }
        if self.aliases.len() > 0 {
            let notes = self.alias_texts();
            push_text(
                &mut parts,
                text::concat2("aliases=", text::join_strings(&notes, "|").as_str()),
            );
        }
        match self.current_hp {
            Some(hp) => {
                push_text(&mut parts, text::concat2("hp=", hp.to_whole_text().as_str()));
            },
            None => {},
        }
        match self.dead_state {
            Some(d) => {
                push_text(
                    &mut parts,
                    text::concat2("dead=", text::signed_dec_string(d as i64).as_str()),
                );
            },
            None => {},
        }
        push_text(
            &mut parts,
            text::concat2("score=", text::dec_string(self.score as u64).as_str()),
        );
        text::join_strings(&parts, " ")
    }
}

/// Which parts of a payload are looked at.
#[derive(Clone, Copy, Debug)]
pub struct NetRuntimeScanOptions {
    pub include_text_markers: bool,
    pub include_sdk_target_data: bool,
}

impl Default for NetRuntimeScanOptions {
    fn default() -> (r: NetRuntimeScanOptions)
        ensures
            !r.include_text_markers,
            !r.include_sdk_target_data,
    {
        NetRuntimeScanOptions { include_text_markers: false, include_sdk_target_data: false }
    }
}

// ------------------------------------------------------------------ text markers

/// What a word means where it stands in a payload.
#[derive(Clone, Copy)]
pub struct MarkerRule {
    pub needle: &'static str,
    pub kind: NetRuntimeEventKind,
    pub action: NetRuntimeAction,
    pub score: u16,
}

/// How many words there are.
pub const MARKER_RULES: usize = 27;

pub open spec fn rule_of(
    needle: &'static str,
    kind: NetRuntimeEventKind,
    action: NetRuntimeAction,
    score: u16,
) -> MarkerRule {
    MarkerRule { needle, kind, action, score }
}

/// The word at the position of the list of words.
pub open spec fn rule_at(i: int) -> MarkerRule {
    if i == 0 {
        rule_of(
            "ClientSetReplicatedTargetData",
            NetRuntimeEventKind::SdkTargetData,
            NetRuntimeAction::Mapping,
            92,
        )
    } else if i == 1 {
        rule_of(
            "ClientUpdateTargetExtraDamageInfos",
            NetRuntimeEventKind::SdkTargetData,
            NetRuntimeAction::UpdateHp,
            92,
        )
    } else if i == 2 {
        rule_of(
            "ClientServerAbilityActorSetCurrentHP",
            NetRuntimeEventKind::SdkTargetData,
            NetRuntimeAction::UpdateHp,
            88,
        )
    } else if i == 3 {
        rule_of(
            "FClientReplicatedTargetDataContainer",
            NetRuntimeEventKind::SdkTargetData,
            NetRuntimeAction::Mapping,
            84,
        )
    } else if i == 4 {
        rule_of(
            "FClientRepExtraDamageInfo",
            NetRuntimeEventKind::SdkTargetData,
            NetRuntimeAction::UpdateHp,
            84,
        )
    } else if i == 5 {
        rule_of(
            "FClientRepFightData",
            NetRuntimeEventKind::SdkTargetData,
            NetRuntimeAction::UpdateHp,
            84,
        )
    } else if i == 6 {
        rule_of(
            "NetMulticast_OnSendHandleDamageInfos",
            NetRuntimeEventKind::AbilityLifecycle,
            NetRuntimeAction::Observe,
            88,
        )
    } else if i == 7 {
        rule_of(
            "ServerReceiveGameplayEventToActor",
            NetRuntimeEventKind::AbilityLifecycle,
            NetRuntimeAction::Observe,
            82,
        )
    } else if i == 8 {
        rule_of(
            "ServerTriggerAbilityNextSection",
            NetRuntimeEventKind::AbilityLifecycle,
            NetRuntimeAction::Observe,
            82,
        )
    } else if i == 9 {
        rule_of(
            "ServerSpawnProjectile",
            NetRuntimeEventKind::AbilityLifecycle,
            NetRuntimeAction::Spawn,
            82,
        )
    } else if i == 10 {
        rule_of(
            "NetMulticast_OnSendPlayGamePlayEffect",
            NetRuntimeEventKind::GameplayEffectLifecycle,
            NetRuntimeAction::Observe,
            88,
        )
    } else if i == 11 {
        rule_of(
            "GameplayCue",
            NetRuntimeEventKind::GameplayEffectLifecycle,
            NetRuntimeAction::Observe,
            70,
        )
    } else if i == 12 {
        rule_of(
            "GameplayEffect",
            NetRuntimeEventKind::GameplayEffectLifecycle,
            NetRuntimeAction::Observe,
            64,
        )
    } else if i == 13 {
        rule_of(
            "ActorChannel",
            NetRuntimeEventKind::ActorChannel,
            NetRuntimeAction::Observe,
            78,
        )
    } else if i == 14 {
        rule_of(
            "OpenChannel",
            NetRuntimeEventKind::ActorChannel,
            NetRuntimeAction::Open,
            78,
        )
    } else if i == 15 {
        rule_of(
            "OpenedChannel",
            NetRuntimeEventKind::ActorChannel,
            NetRuntimeAction::Open,
            78,
        )
    } else if i == 16 {
        rule_of(
            "PackageMap",
            NetRuntimeEventKind::PackageMapExport,
            NetRuntimeAction::Mapping,
            82,
        )
    } else if i == 17 {
        rule_of(
            "NetGUID",
            NetRuntimeEventKind::PackageMapExport,
            NetRuntimeAction::Mapping,
            76,
        )
    } else if i == 18 {
        rule_of(
            "NetGuid",
            NetRuntimeEventKind::PackageMapExport,
            NetRuntimeAction::Mapping,
            76,
        )
    } else if i == 19 {
        rule_of(
            "NetRefHandle",
            NetRuntimeEventKind::IrisReference,
            NetRuntimeAction::Mapping,
            82,
        )
    } else if i == 20 {
        rule_of(
            "Iris",
            NetRuntimeEventKind::IrisReference,
            NetRuntimeAction::Mapping,
            64,
        )
    } else if i == 21 {
        rule_of(
            "SpawnActor",
            NetRuntimeEventKind::ObjectLifecycle,
            NetRuntimeAction::Spawn,
            82,
        )
    } else if i == 22 {
        rule_of(
            "BeginPlay",
            NetRuntimeEventKind::ObjectLifecycle,
            NetRuntimeAction::Spawn,
            64,
        )
    } else if i == 23 {
        rule_of(
            "Destroyed",
            NetRuntimeEventKind::ObjectLifecycle,
            NetRuntimeAction::Destroy,
            82,
        )
    } else if i == 24 {
        rule_of(
            "Destroy",
            NetRuntimeEventKind::ObjectLifecycle,
            NetRuntimeAction::Destroy,
            74,
        )
    } else if i == 25 {
        rule_of(
            "TearOff",
            NetRuntimeEventKind::ObjectLifecycle,
            NetRuntimeAction::Destroy,
            82,
        )
    } else {
        rule_of(
            "Dormancy",
            NetRuntimeEventKind::ObjectLifecycle,
            NetRuntimeAction::Close,
            70,
        )
    }
}

fn marker_rule(i: usize) -> (r: MarkerRule)
    ensures
        r == rule_at(i as int),
{
    if i == 0 {
        MarkerRule {
            needle: "ClientSetReplicatedTargetData",
            kind: NetRuntimeEventKind::SdkTargetData,
            action: NetRuntimeAction::Mapping,
            score: 92,
        }
    } else if i == 1 {
        MarkerRule {
            needle: "ClientUpdateTargetExtraDamageInfos",
            kind: NetRuntimeEventKind::SdkTargetData,
            action: NetRuntimeAction::UpdateHp,
            score: 92,
        }
    } else if i == 2 {
        MarkerRule {
            needle: "ClientServerAbilityActorSetCurrentHP",
            kind: NetRuntimeEventKind::SdkTargetData,
            action: NetRuntimeAction::UpdateHp,
            score: 88,
        }
    } else if i == 3 {
        MarkerRule {
            needle: "FClientReplicatedTargetDataContainer",
            kind: NetRuntimeEventKind::SdkTargetData,
            action: NetRuntimeAction::Mapping,
            score: 84,
        }
    } else if i == 4 {
        MarkerRule {
            needle: "FClientRepExtraDamageInfo",
            kind: NetRuntimeEventKind::SdkTargetData,
            action: NetRuntimeAction::UpdateHp,
            score: 84,
        }
    } else if i == 5 {
        MarkerRule {
            needle: "FClientRepFightData",
            kind: NetRuntimeEventKind::SdkTargetData,
            action: NetRuntimeAction::UpdateHp,
            score: 84,
        }
    } else if i == 6 {
        MarkerRule {
            needle: "NetMulticast_OnSendHandleDamageInfos",
            kind: NetRuntimeEventKind::AbilityLifecycle,
            action: NetRuntimeAction::Observe,
            score: 88,
        }
    } else if i == 7 {
        MarkerRule {
            needle: "ServerReceiveGameplayEventToActor",
            kind: NetRuntimeEventKind::AbilityLifecycle,
            action: NetRuntimeAction::Observe,
            score: 82,
        }
    } else if i == 8 {
        MarkerRule {
            needle: "ServerTriggerAbilityNextSection",
            kind: NetRuntimeEventKind::AbilityLifecycle,
            action: NetRuntimeAction::Observe,
            score: 82,
        }
    } else if i == 9 {
        MarkerRule {
            needle: "ServerSpawnProjectile",
            kind: NetRuntimeEventKind::AbilityLifecycle,
            action: NetRuntimeAction::Spawn,
            score: 82,
        }
    } else if i == 10 {
        MarkerRule {
            needle: "NetMulticast_OnSendPlayGamePlayEffect",
            kind: NetRuntimeEventKind::GameplayEffectLifecycle,
            action: NetRuntimeAction::Observe,
            score: 88,
        }
    } else if i == 11 {
        MarkerRule {
            needle: "GameplayCue",
            kind: NetRuntimeEventKind::GameplayEffectLifecycle,
            action: NetRuntimeAction::Observe,
            score: 70,
        }
    } else if i == 12 {
        MarkerRule {
            needle: "GameplayEffect",
            kind: NetRuntimeEventKind::GameplayEffectLifecycle,
            action: NetRuntimeAction::Observe,
            score: 64,
        }
    } else if i == 13 {
        MarkerRule {
            needle: "ActorChannel",
            kind: NetRuntimeEventKind::ActorChannel,
            action: NetRuntimeAction::Observe,
            score: 78,
        }
    } else if i == 14 {
        MarkerRule {
            needle: "OpenChannel",
            kind: NetRuntimeEventKind::ActorChannel,
            action: NetRuntimeAction::Open,
            score: 78,
        }
    } else if i == 15 {
        MarkerRule {
            needle: "OpenedChannel",
            kind: NetRuntimeEventKind::ActorChannel,
            action: NetRuntimeAction::Open,
            score: 78,
        }
    } else if i == 16 {
        MarkerRule {
            needle: "PackageMap",
            kind: NetRuntimeEventKind::PackageMapExport,
            action: NetRuntimeAction::Mapping,
            score: 82,
        }
    } else if i == 17 {
        MarkerRule {
            needle: "NetGUID",
            kind: NetRuntimeEventKind::PackageMapExport,
            action: NetRuntimeAction::Mapping,
            score: 76,
        }
    } else if i == 18 {
        MarkerRule {
            needle: "NetGuid",
            kind: NetRuntimeEventKind::PackageMapExport,
            action: NetRuntimeAction::Mapping,
            score: 76,
        }
    } else if i == 19 {
        MarkerRule {
            needle: "NetRefHandle",
            kind: NetRuntimeEventKind::IrisReference,
            action: NetRuntimeAction::Mapping,
            score: 82,
        }
    } else if i == 20 {
        MarkerRule {
            needle: "Iris",
            kind: NetRuntimeEventKind::IrisReference,
            action: NetRuntimeAction::Mapping,
            score: 64,
        }
    } else if i == 21 {
        MarkerRule {
            needle: "SpawnActor",
            kind: NetRuntimeEventKind::ObjectLifecycle,
            action: NetRuntimeAction::Spawn,
            score: 82,
        }
    } else if i == 22 {
        MarkerRule {
            needle: "BeginPlay",
            kind: NetRuntimeEventKind::ObjectLifecycle,
            action: NetRuntimeAction::Spawn,
            score: 64,
        }
    } else if i == 23 {
        MarkerRule {
            needle: "Destroyed",
            kind: NetRuntimeEventKind::ObjectLifecycle,
            action: NetRuntimeAction::Destroy,
            score: 82,
        }
    } else if i == 24 {
        MarkerRule {
            needle: "Destroy",
            kind: NetRuntimeEventKind::ObjectLifecycle,
            action: NetRuntimeAction::Destroy,
            score: 74,
        }
    } else if i == 25 {
        MarkerRule {
            needle: "TearOff",
            kind: NetRuntimeEventKind::ObjectLifecycle,
            action: NetRuntimeAction::Destroy,
            score: 82,
        }
    } else {
        MarkerRule {
            needle: "Dormancy",
            kind: NetRuntimeEventKind::ObjectLifecycle,
            action: NetRuntimeAction::Close,
            score: 70,
        }
    }
}

/// The marker that a word makes.
pub open spec fn marker_of(rule: MarkerRule, byte_offset: usize, bit_shift: u8) -> MarkerView {
    MarkerView {
        kind: rule.kind,
        action: rule.action,
        text: rule.needle@,
        byte_offset,
        bit_shift,
        score: rule.score,
    }
}

/// The word stands in the text, in whatever case.
pub open spec fn told_by(line: Seq<char>, rule: MarkerRule) -> bool {
    text::contains(text::lower(line), text::lower(rule.needle@))
}

/// Two markers tell the same at the same place.
pub open spec fn same_marker(a: MarkerView, b: MarkerView) -> bool {
    &&& a.kind == b.kind
    &&& a.action == b.action
    &&& text::lower(a.text) == text::lower(b.text)
    &&& a.byte_offset == b.byte_offset
    &&& a.bit_shift == b.bit_shift
}

/// The markers with one more, unless it is there.
pub open spec fn with_marker(list: Seq<MarkerView>, m: MarkerView) -> Seq<MarkerView> {
    if exists|k: int| 0 <= k < list.len() && same_marker(#[trigger] list[k], m) {
        list
    } else {
        list.push(m)
    }
}

/// The markers that the first `n` words make of a line of text.
pub open spec fn first_markers(line: Seq<char>, byte_offset: usize, bit_shift: u8, n: int) -> Seq<
    MarkerView,
>
    decreases n,
{
    if n <= 0 {
        Seq::empty()
    } else {
        let before = first_markers(line, byte_offset, bit_shift, n - 1);
        if told_by(line, rule_at(n - 1)) {
            before.push(marker_of(rule_at(n - 1), byte_offset, bit_shift))
        } else {
            before
        }
    }
}

/// The markers of a line of text.
pub open spec fn line_markers(line: Seq<char>, byte_offset: usize, bit_shift: u8) -> Seq<MarkerView> {
    first_markers(line, byte_offset, bit_shift, MARKER_RULES as int)
}

/// The markers with the first `n` of some more, each unless it is there.
pub open spec fn with_markers(list: Seq<MarkerView>, more: Seq<MarkerView>, n: int) -> Seq<MarkerView>
    decreases n,
{
    if n <= 0 {
        list
    } else {
        with_marker(with_markers(list, more, n - 1), more[n - 1])
    }
}

/// The markers with those of the first `n` runs of text.
pub open spec fn with_lines(
    list: Seq<MarkerView>,
    lines: Seq<(int, Seq<char>)>,
    bit_shift: u8,
    n: int,
) -> Seq<MarkerView>
    decreases n,
{
    if n <= 0 {
        list
    } else {
        let more = line_markers(
            text::trim(lines[n - 1].1, Class::Space),
            lines[n - 1].0 as usize,
            bit_shift,
        );
        with_markers(with_lines(list, lines, bit_shift, n - 1), more, more.len() as int)
    }
}

/// The markers of the data, read up to `n - 1` bits late.
pub open spec fn markers_up_to(data: Seq<u8>, n: int) -> Seq<MarkerView>
    decreases n,
{
    if n <= 0 {
        Seq::empty()
    } else {
        let lines = runs::runs(bits::shifted(data, n - 1));
        with_lines(markers_up_to(data, n - 1), lines, (n - 1) as u8, lines.len() as int)
    }
}

/// The order by score, the higher first, and then by position.
pub open spec fn position_key(score: u16, place: int, bit_shift: u8, byte_offset: usize) -> u128 {
    ((u16::MAX - score) * 0x1_0000_0000_0000_0000_0000_0000 + place * 0x100_0000_0000_0000_0000
        + bit_shift * 0x1_0000_0000_0000_0000 + byte_offset) as u128
}

fn key_of(score: u16, place: u8, bit_shift: u8, byte_offset: usize) -> (r: u128)
    ensures
        r == position_key(score, place as int, bit_shift, byte_offset),
{
    let lack: u128 = (u16::MAX - score) as u128;
    lack * 0x1_0000_0000_0000_0000_0000_0000 + (place as u128) * 0x100_0000_0000_0000_0000 + (
    bit_shift as u128) * 0x1_0000_0000_0000_0000 + byte_offset as u128
}

pub open spec fn keyed_markers(list: Seq<MarkerView>) -> Seq<(u128, MarkerView)> {
    list.map_values(
        |m: MarkerView| (position_key(m.score, 0, m.bit_shift, m.byte_offset), m),
    )
}

/// The best markers of the data.
pub open spec fn markers(data: Seq<u8>) -> Seq<MarkerView> {
    sorting::best(keyed_markers(markers_up_to(data, 8)), MAX_TEXT_EVENTS as int)
}

fn push_marker(list: &mut Vec<NetRuntimeTextMarker>, marker: NetRuntimeTextMarker)
    ensures
        marker_views(final(list)@) == with_marker(marker_views(old(list)@), marker@),
{
    let ghost before = marker_views(list@);
    let wanted = text::lower_of(marker.text.as_str());
    let mut i: usize = 0;
    while i < list.len()
        invariant
            i <= list.len(),
            list@ == old(list)@,
            before == marker_views(list@),
            wanted@ == text::lower(marker@.text),
            forall|k: int| 0 <= k < i ==> !same_marker(#[trigger] before[k], marker@),
        decreases list.len() - i,
    {
        assert(before[i as int] == list@[i as int]@);
        if list[i].kind == marker.kind && list[i].action == marker.action && list[i].byte_offset
            == marker.byte_offset && list[i].bit_shift == marker.bit_shift && text::same(
            &text::lower_of(list[i].text.as_str()),
            &wanted,
        ) {
            assert(same_marker(before[i as int], marker@));
            return;
        }
        i += 1;
    }
    list.push(marker);
    assert(marker_views(list@) =~= before.push(marker@));
}

/// The markers in a line of text that stands at the place.
pub fn markers_for_text(line: &str, byte_offset: usize, bit_shift: u8) -> (out: Vec<
    NetRuntimeTextMarker,
>)
    ensures
        marker_views(out@) == line_markers(line@, byte_offset, bit_shift),
{
    let lower = text::lower_of(line);
    let mut out: Vec<NetRuntimeTextMarker> = Vec::new();
    assert(marker_views(out@) =~= Seq::<MarkerView>::empty());
    let mut k: usize = 0;
    while k < MARKER_RULES
        invariant
            k <= MARKER_RULES,
            lower@ == text::lower(line@),
            marker_views(out@) == first_markers(line@, byte_offset, bit_shift, k as int),
        decreases MARKER_RULES - k,
    {
        let rule = marker_rule(k);
        let needle = text::string_of(&text::lower_of(rule.needle));
        if text::has(&lower, needle.as_str()) {
            let ghost before = marker_views(out@);
            let marker = NetRuntimeTextMarker {
                kind: rule.kind,
                action: rule.action,
                text: rule.needle.to_owned(),
                byte_offset,
                bit_shift,
                score: rule.score,
            };
            assert(marker@ =~= marker_of(rule, byte_offset, bit_shift));
            out.push(marker);
            assert(marker_views(out@) =~= before.push(marker@));
        }
        k += 1;
    }
    out
}

fn push_markers(list: &mut Vec<NetRuntimeTextMarker>, more: Vec<NetRuntimeTextMarker>)
    ensures
        marker_views(final(list)@) == with_markers(
            marker_views(old(list)@),
            marker_views(more@),
            more@.len() as int,
        ),
{
    let ghost before = marker_views(list@);
    let ghost all = more@;
    for marker in it: more
        invariant
            it.seq() == all,
            marker_views(list@) == with_markers(before, marker_views(all), it.index() as int),
    {
        assert(marker_views(all)[it.index() as int] == marker@);
        push_marker(list, marker);
    }
}

fn push_markers_for_runs(list: &mut Vec<NetRuntimeTextMarker>, shifted: &Vec<u8>, bit_shift: u8)
    ensures
        marker_views(final(list)@) == with_lines(
            marker_views(old(list)@),
            runs::runs(shifted@),
            bit_shift,
            runs::runs(shifted@).len() as int,
        ),
{
    let ghost before = marker_views(list@);
    let lines = runs::readable_runs(shifted);
    let ghost all = runs::run_views(lines@);
    let mut k: usize = 0;
    while k < lines.len()
        invariant
            k <= lines.len(),
            all == runs::run_views(lines@),
            marker_views(list@) == with_lines(before, all, bit_shift, k as int),
        decreases lines.len() - k,
    {
        assert(all[k as int] == (lines@[k as int].0 as int, lines@[k as int].1@));
        let line = text::string_of(&text::trimmed(&lines[k].1, Class::Space));
        push_markers(list, markers_for_text(line.as_str(), lines[k].0, bit_shift));
        k += 1;
    }
}

/// The best markers in the text of a payload.
pub fn extract_net_runtime_text_markers(data: &[u8]) -> (out: Vec<NetRuntimeTextMarker>)
    ensures
        marker_views(out@) == markers(data@),
{
    let mut found: Vec<NetRuntimeTextMarker> = Vec::new();
    let mut bit_shift: u8 = 0;
    assert(marker_views(found@) =~= markers_up_to(data@, 0));
    while bit_shift < 8
        invariant
            bit_shift <= 8,
            marker_views(found@) == markers_up_to(data@, bit_shift as int),
        decreases 8 - bit_shift,
    {
        let shifted = bits::decode_shifted_payload(data, bit_shift);
        push_markers_for_runs(&mut found, &shifted, bit_shift);
        bit_shift += 1;
    }
    let ghost view = |m: NetRuntimeTextMarker| m@;
    let ghost list = marker_views(found@);
    let ghost all = found@;
    let mut with_keys: Vec<(u128, NetRuntimeTextMarker)> = Vec::new();
    for marker in it: found
        invariant
            it.seq() == all,
            list == marker_views(all),
            with_keys@.len() == it.index(),
            forall|k: int|
                0 <= k < it.index() ==> (#[trigger] with_keys@[k]).1 == all[k] && with_keys@[k].0
                    == keyed_markers(list)[k].0,
    {
        let key = key_of(marker.score, 0, marker.bit_shift, marker.byte_offset);
        assert(list[it.index() as int] == marker@);
        with_keys.push((key, marker));
    }
    let ghost chosen = with_keys@;
    assert(sorting::mapped(chosen, view) =~= keyed_markers(list));
    let out = sorting::best_by_key(with_keys, MAX_TEXT_EVENTS);
    proof {
        sorting::best_commutes_with_mapping(chosen, view, MAX_TEXT_EVENTS as int);
        assert(marker_views(out@) =~= out@.map_values(view));
    }
    out
}

/// Every marker of a line stands at the line's place, and its word stands in the
/// line, in whatever case.
pub proof fn markers_stand_in_their_line(line: Seq<char>, byte_offset: usize, bit_shift: u8)
    ensures
        forall|k: int|
            0 <= k < line_markers(line, byte_offset, bit_shift).len() ==> {
                let m = #[trigger] line_markers(line, byte_offset, bit_shift)[k];
                &&& m.byte_offset == byte_offset
                &&& m.bit_shift == bit_shift
                &&& text::contains(text::lower(line), text::lower(m.text))
            },
{
    let all = line_markers(line, byte_offset, bit_shift);
    lemma_markers_by_word(line, byte_offset, bit_shift, MARKER_RULES as int);
    assert forall|k: int| 0 <= k < all.len() implies {
        let m = #[trigger] all[k];
        &&& m.byte_offset == byte_offset
        &&& m.bit_shift == bit_shift
        &&& text::contains(text::lower(line), text::lower(m.text))
    } by {
        assert(made_by_a_word(all[k], line, byte_offset, bit_shift, MARKER_RULES as int));
    }
}

/// The marker is that of one of the first `n` words, which stands in the line.
spec fn made_by_a_word(
    m: MarkerView,
    line: Seq<char>,
    byte_offset: usize,
    bit_shift: u8,
    n: int,
) -> bool {
    exists|i: int|
        0 <= i < n && told_by(line, #[trigger] rule_at(i)) && m == marker_of(
            rule_at(i),
            byte_offset,
            bit_shift,
        )
}

proof fn lemma_markers_by_word(line: Seq<char>, byte_offset: usize, bit_shift: u8, n: int)
    ensures
        forall|k: int|
            0 <= k < first_markers(line, byte_offset, bit_shift, n).len() ==> made_by_a_word(
                #[trigger] first_markers(line, byte_offset, bit_shift, n)[k],
                line,
                byte_offset,
                bit_shift,
                n,
            ),
        forall|i: int|
            0 <= i < n && told_by(line, #[trigger] rule_at(i)) ==> first_markers(
                line,
                byte_offset,
                bit_shift,
                n,
            ).contains(marker_of(rule_at(i), byte_offset, bit_shift)),
    decreases n,
{
    if n > 0 {
        lemma_markers_by_word(line, byte_offset, bit_shift, n - 1);
        let before = first_markers(line, byte_offset, bit_shift, n - 1);
        let all = first_markers(line, byte_offset, bit_shift, n);
        assert forall|k: int| 0 <= k < all.len() implies made_by_a_word(
            #[trigger] all[k],
            line,
            byte_offset,
            bit_shift,
            n,
        ) by {
            if k < before.len() {
                assert(all[k] == before[k]);
                assert(made_by_a_word(before[k], line, byte_offset, bit_shift, n - 1));
            } else {
                assert(told_by(line, rule_at(n - 1)));
            }
        }
        assert forall|i: int| 0 <= i < n && told_by(line, #[trigger] rule_at(i)) implies all.contains(
            marker_of(rule_at(i), byte_offset, bit_shift),
        ) by {
            let m = marker_of(rule_at(i), byte_offset, bit_shift);
            if i < n - 1 {
                assert(before.contains(m));
                let k = choose|k: int| 0 <= k < before.len() && before[k] == m;
                assert(all[k] == m);
            } else {
                assert(all.last() == m);
            }
        }
    }
}

/// The markers of a part of a text are markers of the whole text.
pub proof fn markers_of_a_part_are_markers_of_the_whole(
    line: Seq<char>,
    part: Seq<char>,
    byte_offset: usize,
    bit_shift: u8,
)
    requires
        text::contains(line, part),
    ensures
        forall|k: int|
            0 <= k < line_markers(part, byte_offset, bit_shift).len() ==> line_markers(
                line,
                byte_offset,
                bit_shift,
            ).contains(#[trigger] line_markers(part, byte_offset, bit_shift)[k]),
{
    let some = line_markers(part, byte_offset, bit_shift);
    let all = line_markers(line, byte_offset, bit_shift);
    lemma_markers_by_word(part, byte_offset, bit_shift, MARKER_RULES as int);
    lemma_markers_by_word(line, byte_offset, bit_shift, MARKER_RULES as int);
    assert forall|k: int| 0 <= k < some.len() implies all.contains(#[trigger] some[k]) by {
        assert(made_by_a_word(some[k], part, byte_offset, bit_shift, MARKER_RULES as int));
        let i = choose|i: int|
            0 <= i < MARKER_RULES && told_by(part, #[trigger] rule_at(i)) && some[k] == marker_of(
                rule_at(i),
                byte_offset,
                bit_shift,
            );
        let at = choose|at: int| text::occurs_at(line, part, at);
        let low = text::lower(part);
        let needle = text::lower(rule_at(i).needle@);
        let within = choose|within: int| text::occurs_at(low, needle, within);
        assert(low =~= text::lower(line).subrange(at, at + part.len()));
        assert(text::lower(line).subrange(at + within, at + within + needle.len())
            =~= low.subrange(within, within + needle.len()));
        assert(text::occurs_at(text::lower(line), needle, at + within));
        assert(told_by(line, rule_at(i)));
    }
}

/// The case of the letters of a text does not matter to its markers.
pub proof fn letter_case_does_not_matter_to_markers(
    line: Seq<char>,
    other: Seq<char>,
    byte_offset: usize,
    bit_shift: u8,
)
    ensures
        text::lower(line) == text::lower(other) ==> line_markers(line, byte_offset, bit_shift)
            == line_markers(other, byte_offset, bit_shift),
        line_markers(text::upper(line), byte_offset, bit_shift) == line_markers(
            line,
            byte_offset,
            bit_shift,
        ),
{
    if text::lower(line) == text::lower(other) {
        lemma_same_words(line, other, byte_offset, bit_shift, MARKER_RULES as int);
    }
    text::lower_case_forgets_upper_case(line);
    lemma_same_words(text::upper(line), line, byte_offset, bit_shift, MARKER_RULES as int);
}

proof fn lemma_same_words(
    line: Seq<char>,
    other: Seq<char>,
    byte_offset: usize,
    bit_shift: u8,
    n: int,
)
    requires
        text::lower(line) == text::lower(other),
    ensures
        first_markers(line, byte_offset, bit_shift, n) == first_markers(
            other,
            byte_offset,
            bit_shift,
            n,
        ),
    decreases n,
{
    if n > 0 {
        lemma_same_words(line, other, byte_offset, bit_shift, n - 1);
    }
}

// --------------------------------------------------------------- paths near a place

/// How far two offsets are apart.
pub open spec fn offset_gap(a: usize, b: usize) -> int {
    if a >= b {
        a - b
    } else {
        b - a
    }
}

/// A path that may name a target near the place.
pub open spec fn near_target(path: PathCandidate, byte_offset: usize, bit_shift: u8) -> bool {
    &&& path.bit_shift == bit_shift
    &&& net_identity::eligible(path)
    &&& offset_gap(path.byte_offset, byte_offset) <= TEXT_PATH_ASSOCIATION_WINDOW_BYTES
}

/// The path is no worse than the other: its score is higher, or as high and it is
/// no farther away.
pub open spec fn no_worse(a: PathCandidate, b: PathCandidate, byte_offset: usize) -> bool {
    a.score > b.score || (a.score == b.score && offset_gap(a.byte_offset, byte_offset)
        <= offset_gap(b.byte_offset, byte_offset))
}

/// The position of the best path near the place among the first `n`, the last of
/// those that are equally good; `-1` where there is none.
pub open spec fn nearest_path(paths: Seq<PathCandidate>, byte_offset: usize, bit_shift: u8, n: int) -> int
    decreases n,
{
    if n <= 0 {
        -1
    } else {
        let b = nearest_path(paths, byte_offset, bit_shift, n - 1);
        if near_target(paths[n - 1], byte_offset, bit_shift) && (b < 0 || no_worse(
            paths[n - 1],
            paths[b],
            byte_offset,
        )) {
            n - 1
        } else {
            b
        }
    }
}

/// The text of the best path near the place.
pub open spec fn path_near(paths: Seq<PathCandidate>, byte_offset: usize, bit_shift: u8) -> Option<
    Seq<char>,
> {
    let at = nearest_path(paths, byte_offset, bit_shift, paths.len() as int);
    if at >= 0 {
        Some(paths[at].value@)
    } else {
        None
    }
}

fn gap(a: usize, b: usize) -> (r: usize)
    ensures
        r == offset_gap(a, b),
{
    if a >= b {
        a - b
    } else {
        b - a
    }
}

fn nearest_target_path(paths: &[PathCandidate], byte_offset: usize, bit_shift: u8) -> (r: Option<
    String,
>)
    ensures
        text::opt_text(r) == path_near(paths@, byte_offset, bit_shift),
{
    let mut best: Option<usize> = None;
    let mut k: usize = 0;
    while k < paths.len()
        invariant
            k <= paths@.len(),
            match best {
                Some(b) => b < k && nearest_path(paths@, byte_offset, bit_shift, k as int) == b,
                None => nearest_path(paths@, byte_offset, bit_shift, k as int) == -1,
            },
        decreases paths.len() - k,
    {
        let path = &paths[k];
        if path.bit_shift == bit_shift && gap(path.byte_offset, byte_offset)
            <= TEXT_PATH_ASSOCIATION_WINDOW_BYTES && !object_state::is_ignored_non_target_path(
            path.value.as_str(),
        ) && object_state::is_targetish_path(path.value.as_str()) {
            match best {
                Some(b) => {
                    if path.score > paths[b].score || (path.score == paths[b].score && gap(
                        path.byte_offset,
                        byte_offset,
                    ) <= gap(paths[b].byte_offset, byte_offset)) {
                        best = Some(k);
                    }
                },
                None => {
                    best = Some(k);
                },
            }
        }
        k += 1;
    }
    match best {
        Some(b) => Some(paths[b].value.as_str().to_owned()),
        None => None,
    }
}

// --------------------------------------------------------- events from identities

/// The kind of event that an identity makes.
pub open spec fn identity_kind(kind: NetIdentityCandidateKind) -> NetRuntimeEventKind {
    match kind {
        NetIdentityCandidateKind::IrisNetRefHandle32 => NetRuntimeEventKind::IrisReference,
        _ => NetRuntimeEventKind::PackageMapExport,
    }
}

/// An identity maps a path.
pub open spec fn identity_event(identity: IdentityView) -> NetEventView {
    NetEventView {
        kind: identity_kind(identity.kind),
        action: NetRuntimeAction::Mapping,
        aliases: seq![target_instance::alias_of_identity(identity)],
        path: Some(identity.path),
        current_hp: None,
        dead_state: None,
        target_token: None,
        byte_offset: identity.byte_offset,
        bit_shift: identity.bit_shift,
        score: identity.score,
        evidence: identity.kind.label_text() + ":"@ + identity.handle + " raw="@ + identity.raw_hex
            + " rel="@ + text::signed_dec(identity.relative_offset),
    }
}

pub open spec fn identity_events(identities: Seq<NetIdentityCandidate>) -> Seq<NetEventView> {
    sorting::first(identities, MAX_IDENTITY_EVENTS as int).map_values(
        |c: NetIdentityCandidate| identity_event(c@),
    )
}

fn event_from_identity(identity: &NetIdentityCandidate) -> (r: NetRuntimeEvent)
    ensures
        r@ == identity_event(identity@),
{
    let kind = match identity.kind {
        NetIdentityCandidateKind::IrisNetRefHandle32 => NetRuntimeEventKind::IrisReference,
        _ => NetRuntimeEventKind::PackageMapExport,
    };
    let mut evidence = text::concat3(identity.kind.label(), ":", identity.handle.as_str());
    evidence.append(" raw=");
    evidence.append(identity.raw_hex.as_str());
    evidence.append(" rel=");
    evidence.append(text::signed_dec_string(identity.relative_offset as i64).as_str());
    let mut aliases: Vec<TargetAlias> = Vec::new();
    aliases.push(target_instance::alias_from_net_identity(identity));
    let r = NetRuntimeEvent {
        kind,
        action: NetRuntimeAction::Mapping,
        aliases,
        path: Some(identity.path.as_str().to_owned()),
        current_hp: None,
        dead_state: None,
        target_token: None,
        byte_offset: identity.byte_offset,
        bit_shift: identity.bit_shift,
        score: identity.score,
        evidence,
    };
    assert(r@.aliases =~= identity_event(identity@).aliases);
    assert(r@ =~= identity_event(identity@));
    r
}

fn events_from_identities(identities: &[NetIdentityCandidate]) -> (out: Vec<NetRuntimeEvent>)
    ensures
        net_event_views(out@) == identity_events(identities@),
{
    let mut out: Vec<NetRuntimeEvent> = Vec::new();
    let mut k: usize = 0;
    while k < identities.len() && k < MAX_IDENTITY_EVENTS
        invariant
            k <= identities@.len(),
            k <= MAX_IDENTITY_EVENTS,
            out@.len() == k,
            forall|m: int| 0 <= m < k ==> (#[trigger] out@[m])@ == identity_event(identities@[m]@),
        decreases identities.len() - k,
    {
        out.push(event_from_identity(&identities[k]));
        k += 1;
    }
    assert(net_event_views(out@) =~= identity_events(identities@));
    out
}

// ---------------------------------------------------------- events from transport

/// An event that only tells that something was seen.
pub open spec fn seen_event(kind: NetRuntimeEventKind, score: u16, evidence: Seq<char>) -> NetEventView {
    NetEventView {
        kind,
        action: NetRuntimeAction::Observe,
        aliases: Seq::empty(),
        path: None,
        current_hp: None,
        dead_state: None,
        target_token: None,
        byte_offset: 0,
        bit_shift: 0,
        score,
        evidence,
    }
}

pub open spec fn sequenced_note(p: SequencedPacket) -> Seq<char> {
    "sequenced mode="@ + text::dec(p.mode as nat) + " packet_id="@ + text::dec(p.packet_id as nat)
        + " ack="@ + text::dec(p.acknowledged_packet_id as nat) + " flags="@ + text::dec(
        p.packet_flags as nat,
    ) + " payload_bits="@ + text::dec(p.payload_bit_len as nat)
}

pub open spec fn bunch_note(b: SingleBunch) -> Seq<char> {
    "single_bunch prefix=0x"@ + text::hex(b.prefix as nat) + " sequence="@ + text::dec(
        b.sequence as nat,
    ) + " descriptor=0x"@ + text::zero_pad(text::hex(b.descriptor as nat), 2) + " data_bits="@
        + text::dec(b.data_bit_len as nat)
}

/// What the transport layer tells.
pub open spec fn transport_events(transport: TransportPacket, bunch: Option<SingleBunch>) -> Seq<
    NetEventView,
> {
    match transport {
        TransportPacket::StatelessHandshake { handler_prefix, payload_bit_len } => seq![
            seen_event(
                NetRuntimeEventKind::TransportBunch,
                35,
                "stateless_handshake handler_prefix="@ + text::dec(handler_prefix as nat)
                    + " payload_bits="@ + text::dec(payload_bit_len as nat),
            ),
        ],
        TransportPacket::Sequenced(packet) => {
            let first = seq![
                seen_event(NetRuntimeEventKind::TransportBunch, 40, sequenced_note(packet)),
            ];
            match bunch {
                Some(b) => first.push(
                    seen_event(NetRuntimeEventKind::ActorChannel, 55, bunch_note(b)),
                ),
                None => first,
            }
        },
    }
}

fn observed(kind: NetRuntimeEventKind, score: u16, evidence: String) -> (r: NetRuntimeEvent)
    ensures
        r@ == seen_event(kind, score, evidence@),
{
    let r = NetRuntimeEvent {
        kind,
        action: NetRuntimeAction::Observe,
        aliases: Vec::new(),
        path: None,
        current_hp: None,
        dead_state: None,
        target_token: None,
        byte_offset: 0,
        bit_shift: 0,
        score,
        evidence,
    };
    assert(r@.aliases =~= Seq::empty());
    r
}

fn sequenced_text(p: &SequencedPacket) -> (out: String)
    ensures
        out@ == sequenced_note(*p),
{
    let mut out = text::concat3(
        "sequenced mode=",
        text::dec_string(p.mode as u64).as_str(),
        " packet_id=",
    );
    out.append(text::dec_string(p.packet_id as u64).as_str());
    out.append(" ack=");
    out.append(text::dec_string(p.acknowledged_packet_id as u64).as_str());
    out.append(" flags=");
    out.append(text::dec_string(p.packet_flags as u64).as_str());
    out.append(" payload_bits=");
    out.append(text::dec_string(p.payload_bit_len as u64).as_str());
    out
}

fn bunch_text(b: &SingleBunch) -> (out: String)
    ensures
        out@ == bunch_note(*b),
{
    let mut out = text::concat3(
        "single_bunch prefix=0x",
        text::hex_string(b.prefix as u64).as_str(),
        " sequence=",
    );
    out.append(text::dec_string(b.sequence as u64).as_str());
    out.append(" descriptor=0x");
    out.append(text::zero_padded(text::hex_string(b.descriptor as u64).as_str(), 2).as_str());
    out.append(" data_bits=");
    out.append(text::dec_string(b.data_bit_len as u64).as_str());
    out
}

fn events_from_transport(transport: &TransportPacket, single_bunch: Option<&SingleBunch>) -> (out: Vec<
    NetRuntimeEvent,
>)
    ensures
        net_event_views(out@) == transport_events(
            *transport,
            match single_bunch {
                Some(b) => Some(*b),
                None => None,
            },
        ),
{
    let mut out: Vec<NetRuntimeEvent> = Vec::new();
    match transport {
        TransportPacket::StatelessHandshake { handler_prefix, payload_bit_len } => {
            let mut note = text::concat3(
                "stateless_handshake handler_prefix=",
                text::dec_string(*handler_prefix as u64).as_str(),
                " payload_bits=",
            );
            note.append(text::dec_string(*payload_bit_len as u64).as_str());
            out.push(observed(NetRuntimeEventKind::TransportBunch, 35, note));
        },
        TransportPacket::Sequenced(packet) => {
            out.push(
                observed(NetRuntimeEventKind::TransportBunch, 40, sequenced_text(packet)),
            );
            match single_bunch {
                Some(bunch) => {
                    out.push(observed(NetRuntimeEventKind::ActorChannel, 55, bunch_text(bunch)));
                },
                None => {},
            }
        },
    }
    assert(net_event_views(out@) =~= transport_events(
        *transport,
        match single_bunch {
            Some(b) => Some(*b),
            None => None,
        },
    ));
    out
}

// ------------------------------------------------------------ events from the text

/// A marker, with the path that it stands near.
pub open spec fn marker_event(m: MarkerView, paths: Seq<PathCandidate>) -> NetEventView {
    NetEventView {
        kind: m.kind,
        action: m.action,
        aliases: Seq::empty(),
        path: path_near(paths, m.byte_offset, m.bit_shift),
        current_hp: None,
        dead_state: None,
        target_token: None,
        byte_offset: m.byte_offset,
        bit_shift: m.bit_shift,
        score: m.score,
        evidence: m.text,
    }
}

pub open spec fn marker_events(data: Seq<u8>, paths: Seq<PathCandidate>) -> Seq<NetEventView> {
    markers(data).map_values(|m: MarkerView| marker_event(m, paths))
}

fn events_from_text_markers(data: &[u8], paths: &[PathCandidate]) -> (out: Vec<NetRuntimeEvent>)
    ensures
        net_event_views(out@) == marker_events(data@, paths@),
{
    let found = extract_net_runtime_text_markers(data);
    let ghost list = marker_views(found@);
    let ghost all = found@;
    let mut out: Vec<NetRuntimeEvent> = Vec::new();
    for marker in it: found
        invariant
            it.seq() == all,
            list == marker_views(all),
            out@.len() == it.index(),
            forall|m: int|
                0 <= m < it.index() ==> (#[trigger] out@[m])@ == marker_event(list[m], paths@),
    {
        assert(list[it.index() as int] == marker@);
        let event = NetRuntimeEvent {
            kind: marker.kind,
            action: marker.action,
            aliases: Vec::new(),
            path: nearest_target_path(paths, marker.byte_offset, marker.bit_shift),
            current_hp: None,
            dead_state: None,
            target_token: None,
            byte_offset: marker.byte_offset,
            bit_shift: marker.bit_shift,
            score: marker.score,
            evidence: marker.text,
        };
        assert(event@.aliases =~= Seq::empty());
        assert(event@ =~= marker_event(marker@, paths@));
        out.push(event);
    }
    assert(net_event_views(out@) =~= marker_events(data@, paths@));
    out
}

// ---------------------------------------------------------- events from hit points

pub open spec fn sdk_kind_text(kind: ParsedSdkTargetHpKind) -> Seq<char> {
    match kind {
        ParsedSdkTargetHpKind::ClientRepExtraDamageInfo => "FClientRepExtraDamageInfo"@,
        ParsedSdkTargetHpKind::ClientRepFightData => "FClientRepFightData"@,
    }
}

/// The hit points of a target, with the path that they stand near.
pub open spec fn sdk_event(u: SdkTargetView, paths: Seq<PathCandidate>) -> NetEventView {
    let path = path_near(paths, u.byte_offset, u.bit_shift);
    NetEventView {
        kind: NetRuntimeEventKind::SdkTargetData,
        action: NetRuntimeAction::UpdateHp,
        aliases: seq![
            target_instance::alias_of(
                TargetAliasKind::SdkNetTarget,
                hexadecimal::hex_text(u.target_token),
            ),
        ],
        path,
        current_hp: Some(u.current_hp),
        dead_state: Some(u.dead_state),
        target_token: Some(u.target_token),
        byte_offset: u.byte_offset,
        bit_shift: u.bit_shift,
        score: if path is Some {
            78
        } else {
            52
        },
        evidence: sdk_kind_text(u.kind) + " current_hp="@ + u.current_hp.whole_text()
            + " dead_state="@ + text::signed_dec(u.dead_state as int),
    }
}

pub open spec fn keyed_sdk_events(list: Seq<SdkTargetView>, paths: Seq<PathCandidate>) -> Seq<
    (u128, NetEventView),
> {
    list.map_values(
        |u: SdkTargetView|
            (
                position_key(sdk_event(u, paths).score, 0, u.bit_shift, u.byte_offset),
                sdk_event(u, paths),
            ),
    )
}

/// The first updates of hit points, in order.
pub open spec fn sdk_events(data: Seq<u8>, paths: Seq<PathCandidate>) -> Seq<NetEventView> {
    sorting::values(
        sorting::sorted(
            keyed_sdk_events(
                sorting::first(
                    parser::sdk_targets_up_to(data, 8 * data.len() as int),
                    MAX_SDK_TARGET_EVENTS as int,
                ),
                paths,
            ),
        ),
    )
}

fn event_from_update(update: ParsedSdkTargetHpUpdate, paths: &[PathCandidate]) -> (r: NetRuntimeEvent)
    ensures
        r@ == sdk_event(update@, paths@),
{
    let token_hex = hexadecimal::encode(update.target_token.as_slice());
    let path = nearest_target_path(paths, update.byte_offset, update.bit_shift);
    let score: u16 = if path.is_some() { 78 } else { 52 };
    let kind: &'static str = match update.kind {
        ParsedSdkTargetHpKind::ClientRepExtraDamageInfo => "FClientRepExtraDamageInfo",
        ParsedSdkTargetHpKind::ClientRepFightData => "FClientRepFightData",
    };
    let mut evidence = text::concat3(
        kind,
        " current_hp=",
        update.current_hp.to_whole_text().as_str(),
    );
    evidence.append(" dead_state=");
    evidence.append(text::signed_dec_string(update.dead_state as i64).as_str());
    let mut aliases: Vec<TargetAlias> = Vec::new();
    aliases.push(TargetAlias::new(TargetAliasKind::SdkNetTarget, token_hex.as_str()));
    let ghost wanted = sdk_event(update@, paths@);
    let r = NetRuntimeEvent {
        kind: NetRuntimeEventKind::SdkTargetData,
        action: NetRuntimeAction::UpdateHp,
        aliases,
        path,
        current_hp: Some(update.current_hp),
        dead_state: Some(update.dead_state),
        target_token: Some(update.target_token),
        byte_offset: update.byte_offset,
        bit_shift: update.bit_shift,
        score,
        evidence,
    };
    assert(r@.aliases =~= wanted.aliases);
    assert(r@ =~= wanted);
    r
}

fn events_from_sdk_target_data(data: &[u8], paths: &[PathCandidate]) -> (out: Vec<NetRuntimeEvent>)
    ensures
        net_event_views(out@) == sdk_events(data@, paths@),
{
    let updates = parser::parse_sdk_target_hp_updates(data);
    let ghost list = parser::sdk_views(updates@);
    let ghost taken = sorting::first(list, MAX_SDK_TARGET_EVENTS as int);
    let ghost all = updates@;
    let ghost view = |e: NetRuntimeEvent| e@;
    let mut with_keys: Vec<(u128, NetRuntimeEvent)> = Vec::new();
    for update in it: updates
        invariant
            it.seq() == all,
            list == parser::sdk_views(all),
            taken == sorting::first(list, MAX_SDK_TARGET_EVENTS as int),
            it.index() <= MAX_SDK_TARGET_EVENTS ==> with_keys@.len() == it.index(),
            it.index() > MAX_SDK_TARGET_EVENTS ==> with_keys@.len() == MAX_SDK_TARGET_EVENTS,
            with_keys@.len() <= taken.len(),
            forall|m: int|
                0 <= m < with_keys@.len() ==> (#[trigger] with_keys@[m]).1@ == sdk_event(
                    taken[m],
                    paths@,
                ) && with_keys@[m].0 == keyed_sdk_events(taken, paths@)[m].0,
    {
        assert(list[it.index() as int] == update@);
        if with_keys.len() < MAX_SDK_TARGET_EVENTS {
            assert(taken[it.index() as int] == update@);
            let event = event_from_update(update, paths);
            let key = key_of(event.score, 0, event.bit_shift, event.byte_offset);
            with_keys.push((key, event));
        }
    }
    let ghost chosen = with_keys@;
    assert(sorting::mapped(chosen, view) =~= keyed_sdk_events(taken, paths@));
    let n: usize = with_keys.len();
    let out = sorting::best_by_key(with_keys, n);
    proof {
        sorting::best_commutes_with_mapping(chosen, view, n as int);
        sorting::sorted_is_ordered(keyed_sdk_events(taken, paths@));
        assert(net_event_views(out@) =~= out@.map_values(view));
    }
    out
}

// -------------------------------------------------------------------- all events

/// The keys of an event's aliases in one text.
pub open spec fn joined_keys(e: NetEventView) -> Seq<char> {
    text::join(target_instance::alias_keys(e.aliases), "|"@)
}

/// Two events tell the same.
pub open spec fn same_event(a: NetEventView, b: NetEventView) -> bool {
    &&& a.kind == b.kind
    &&& a.action == b.action
    &&& a.path == b.path
    &&& joined_keys(a) == joined_keys(b)
    &&& a.current_hp == b.current_hp
    &&& a.dead_state == b.dead_state
    &&& a.byte_offset == b.byte_offset
    &&& a.bit_shift == b.bit_shift
}

/// The first `n` events without those that tell what an earlier one told.
pub open spec fn without_repeats(list: Seq<NetEventView>, n: int) -> Seq<NetEventView>
    decreases n,
{
    if n <= 0 {
        Seq::empty()
    } else {
        let before = without_repeats(list, n - 1);
        if exists|k: int| 0 <= k < before.len() && same_event(#[trigger] before[k], list[n - 1]) {
            before
        } else {
            before.push(list[n - 1])
        }
    }
}

pub open spec fn event_key(e: NetEventView) -> u128 {
    position_key(e.score, e.kind.label_place(), e.bit_shift, e.byte_offset)
}

pub open spec fn keyed_events(list: Seq<NetEventView>) -> Seq<(u128, NetEventView)> {
    list.map_values(|e: NetEventView| (event_key(e), e))
}

/// The events, each once, the higher score first, then by label and position.
pub open spec fn arranged(list: Seq<NetEventView>) -> Seq<NetEventView> {
    sorting::values(sorting::sorted(keyed_events(without_repeats(list, list.len() as int))))
}

/// What a payload tells about the runtime.
pub open spec fn runtime_events(
    data: Seq<u8>,
    paths: Seq<PathCandidate>,
    identities: Seq<NetIdentityCandidate>,
    transport: Option<TransportPacket>,
    bunch: Option<SingleBunch>,
    options: NetRuntimeScanOptions,
) -> Seq<NetEventView> {
    let first = identity_events(identities);
    let second = match transport {
        Some(t) => first + transport_events(t, bunch),
        None => first,
    };
    let third = if options.include_text_markers {
        second + marker_events(data, paths)
    } else {
        second
    };
    arranged(
        if options.include_sdk_target_data {
            third + sdk_events(data, paths)
        } else {
            third
        },
    )
}

fn same_hp(a: &Option<F32>, b: &Option<F32>) -> (r: bool)
    ensures
        r == (*a == *b),
{
    match (a, b) {
        (Some(x), Some(y)) => x.bits == y.bits,
        (None, None) => true,
        _ => false,
    }
}

fn same_path(a: &Option<String>, b: &Option<String>) -> (r: bool)
    ensures
        r == (text::opt_text(*a) == text::opt_text(*b)),
{
    match (a, b) {
        (Some(x), Some(y)) => text::same_str(x.as_str(), y.as_str()),
        (None, None) => true,
        _ => false,
    }
}

fn same_state(a: Option<i32>, b: Option<i32>) -> (r: bool)
    ensures
        r == (a == b),
{
    match (a, b) {
        (Some(x), Some(y)) => x == y,
        (None, None) => true,
        _ => false,
    }
}

impl NetRuntimeEvent {
    fn joined(&self) -> (out: String)
        ensures
            out@ == joined_keys(self@),
    {
        let ghost all = self@.aliases;
        let mut keys: Vec<String> = Vec::new();
        let mut k: usize = 0;
        while k < self.aliases.len()
            invariant
                k <= self.aliases.len(),
                all == self@.aliases,
                keys@.len() == k,
                forall|m: int| 0 <= m < k ==> (#[trigger] keys@[m])@ == all[m].key(),
            decreases self.aliases.len() - k,
        {
            assert(all[k as int] == self.aliases@[k as int]@);
            keys.push(self.aliases[k].key());
            k += 1;
        }
        assert(text::texts(keys@) =~= target_instance::alias_keys(all));
        text::join_strings(&keys, "|")
    }

    fn tells_same(&self, other: &NetRuntimeEvent) -> (r: bool)
        ensures
            r == same_event(self@, other@),
    {
        self.kind == other.kind && self.action == other.action && self.byte_offset
            == other.byte_offset && self.bit_shift == other.bit_shift && same_state(
            self.dead_state,
            other.dead_state,
        ) && same_hp(&self.current_hp, &other.current_hp) && same_path(&self.path, &other.path)
            && text::same_str(self.joined().as_str(), other.joined().as_str())
    }
}

fn push_event(list: &mut Vec<NetRuntimeEvent>, event: NetRuntimeEvent)
    ensures
        net_event_views(final(list)@) == if exists|k: int|
            0 <= k < old(list)@.len() && same_event(
                #[trigger] net_event_views(old(list)@)[k],
                event@,
            ) {
            net_event_views(old(list)@)
        } else {
            net_event_views(old(list)@).push(event@)
        },
{
    let ghost before = net_event_views(list@);
    let mut i: usize = 0;
    while i < list.len()
        invariant
            i <= list.len(),
            list@ == old(list)@,
            before == net_event_views(list@),
            forall|k: int| 0 <= k < i ==> !same_event(#[trigger] before[k], event@),
        decreases list.len() - i,
    {
        assert(before[i as int] == list@[i as int]@);
        if list[i].tells_same(&event) {
            return;
        }
        i += 1;
    }
    list.push(event);
    assert(net_event_views(list@) =~= before.push(event@));
}

fn dedupe_events(events: Vec<NetRuntimeEvent>) -> (out: Vec<NetRuntimeEvent>)
    ensures
        net_event_views(out@) == arranged(net_event_views(events@)),
{
    let ghost all = events@;
    let ghost list = net_event_views(all);
    let mut once: Vec<NetRuntimeEvent> = Vec::new();
    assert(net_event_views(once@) =~= without_repeats(list, 0));
    for event in it: events
        invariant
            it.seq() == all,
            list == net_event_views(all),
            net_event_views(once@) == without_repeats(list, it.index() as int),
    {
        assert(list[it.index() as int] == event@);
        push_event(&mut once, event);
    }
    let ghost kept = once@;
    let ghost kept_views = net_event_views(kept);
    let ghost view = |e: NetRuntimeEvent| e@;
    let mut with_keys: Vec<(u128, NetRuntimeEvent)> = Vec::new();
    for event in it: once
        invariant
            it.seq() == kept,
            kept_views == net_event_views(kept),
            with_keys@.len() == it.index(),
            forall|m: int|
                0 <= m < it.index() ==> (#[trigger] with_keys@[m]).1 == kept[m] && with_keys@[m].0
                    == keyed_events(kept_views)[m].0,
    {
        assert(kept_views[it.index() as int] == event@);
        let key = key_of(event.score, event.kind.place(), event.bit_shift, event.byte_offset);
        with_keys.push((key, event));
    }
    let ghost chosen = with_keys@;
    assert(sorting::mapped(chosen, view) =~= keyed_events(kept_views));
    let n: usize = with_keys.len();
    let out = sorting::best_by_key(with_keys, n);
    proof {
        sorting::best_commutes_with_mapping(chosen, view, n as int);
        sorting::sorted_is_ordered(keyed_events(kept_views));
        assert(net_event_views(out@) =~= out@.map_values(view));
    }
    out
}

fn append_events(list: &mut Vec<NetRuntimeEvent>, more: Vec<NetRuntimeEvent>)
    ensures
        net_event_views(final(list)@) == net_event_views(old(list)@) + net_event_views(more@),
{
    let ghost before = net_event_views(list@);
    let ghost added = net_event_views(more@);
    let mut rest = more;
    list.append(&mut rest);
    assert(net_event_views(list@) =~= before + added);
}

/// What a payload tells about the runtime.
pub fn extract_net_runtime_events(
    data: &[u8],
    paths: &[PathCandidate],
    identities: &[NetIdentityCandidate],
    transport: Option<&TransportPacket>,
    single_bunch: Option<&SingleBunch>,
    options: NetRuntimeScanOptions,
) -> (out: Vec<NetRuntimeEvent>)
    ensures
        net_event_views(out@) == runtime_events(
            data@,
            paths@,
            identities@,
            match transport {
                Some(t) => Some(*t),
                None => None,
            },
            match single_bunch {
                Some(b) => Some(*b),
                None => None,
            },
            options,
        ),
{
    let mut events = events_from_identities(identities);
    match transport {
        Some(packet) => {
            append_events(&mut events, events_from_transport(packet, single_bunch));
        },
        None => {},
    }
    if options.include_text_markers {
        append_events(&mut events, events_from_text_markers(data, paths));
    }
    if options.include_sdk_target_data {
        append_events(&mut events, events_from_sdk_target_data(data, paths));
    }
    dedupe_events(events)
}

// ------------------------------------------------------------------------- laws

/// No two events tell the same.
pub open spec fn no_repeats(list: Seq<NetEventView>) -> bool {
    forall|i: int, j: int|
        0 <= i < j < list.len() ==> !same_event(#[trigger] list[i], #[trigger] list[j])
}

/// Dropping repetitions leaves none, and every event is told by one that is left.
pub proof fn repeats_are_dropped(list: Seq<NetEventView>, n: int)
    requires
        0 <= n <= list.len(),
    ensures
        no_repeats(without_repeats(list, n)),
        forall|i: int|
            0 <= i < n ==> exists|k: int|
                0 <= k < without_repeats(list, n).len() && same_event(
                    #[trigger] without_repeats(list, n)[k],
                    #[trigger] list[i],
                ),
    decreases n,
{
    if n > 0 {
        repeats_are_dropped(list, n - 1);
        let before = without_repeats(list, n - 1);
        let r = without_repeats(list, n);
        assert forall|i: int| 0 <= i < n implies exists|k: int|
            0 <= k < r.len() && same_event(#[trigger] r[k], #[trigger] list[i]) by {
            if i < n - 1 {
                let k = choose|k: int|
                    0 <= k < before.len() && same_event(#[trigger] before[k], list[i]);
                assert(r[k] == before[k]);
            } else if r != before {
                assert(same_event(r[before.len() as int], list[i]));
            }
        }
    }
}

/// The events come with falling scores.
pub proof fn events_come_by_score(list: Seq<NetEventView>, i: int, j: int)
    requires
        0 <= i < j < arranged(list).len(),
    ensures
        arranged(list)[i].score >= arranged(list)[j].score,
{
    let s = keyed_events(without_repeats(list, list.len() as int));
    sorting::sorted_is_ordered(s);
    sorting::sorted_elements_are_elements(s, i);
    sorting::sorted_elements_are_elements(s, j);
    let a = arranged(list)[i];
    let b = arranged(list)[j];
    assert(sorting::sorted(s)[i] == (event_key(a), a));
    assert(sorting::sorted(s)[j] == (event_key(b), b));
    assert(event_key(a) <= event_key(b));
}

proof fn lemma_nearest(paths: Seq<PathCandidate>, byte_offset: usize, bit_shift: u8, n: int)
    requires
        0 <= n <= paths.len(),
    ensures
        ({
            let at = nearest_path(paths, byte_offset, bit_shift, n);
            &&& -1 <= at < n
            &&& at >= 0 ==> near_target(paths[at], byte_offset, bit_shift)
            &&& forall|k: int|
                0 <= k < n && near_target(#[trigger] paths[k], byte_offset, bit_shift) ==> at >= 0
                    && (k <= at ==> no_worse(paths[at], paths[k], byte_offset)) && (k > at
                    ==> !no_worse(paths[k], paths[at], byte_offset))
        }),
    decreases n,
{
    if n > 0 {
        lemma_nearest(paths, byte_offset, bit_shift, n - 1);
    }
}

/// How far apart two places are.
pub open spec fn distance(a: usize, b: usize) -> int {
    if a < b {
        b - a
    } else {
        a - b
    }
}

/// What an event is told to be about is a path that was read at the same shift, no more
/// than five hundred and twelve bytes away. No such path has a higher score, and none of
/// the same score is nearer.
pub proof fn events_are_about_the_best_path_nearby(
    paths: Seq<PathCandidate>,
    byte_offset: usize,
    bit_shift: u8,
    k: int,
)
    requires
        0 <= k < paths.len(),
    ensures
        match path_near(paths, byte_offset, bit_shift) {
            Some(path) => exists|at: int|
                0 <= at < paths.len() && (#[trigger] paths[at]).value@ == path
                    && paths[at].bit_shift == bit_shift && distance(
                    paths[at].byte_offset,
                    byte_offset,
                ) <= 512 && net_identity::eligible(paths[at]) && (paths[k].bit_shift == bit_shift
                    && distance(paths[k].byte_offset, byte_offset) <= 512
                    && net_identity::eligible(paths[k]) ==> paths[k].score <= paths[at].score && (
                paths[k].score == paths[at].score ==> distance(paths[at].byte_offset, byte_offset)
                    <= distance(paths[k].byte_offset, byte_offset))),
            None => !(paths[k].bit_shift == bit_shift && distance(
                paths[k].byte_offset,
                byte_offset,
            ) <= 512 && net_identity::eligible(paths[k])),
        },
{
    lemma_nearest(paths, byte_offset, bit_shift, paths.len() as int);
    let at = nearest_path(paths, byte_offset, bit_shift, paths.len() as int);
    assert(distance(paths[k].byte_offset, byte_offset) == offset_gap(
        paths[k].byte_offset,
        byte_offset,
    ));
    if at >= 0 {
        assert(paths[at].value@ == paths[at].value@);
        assert(near_target(paths[k], byte_offset, bit_shift) ==> no_worse(
            paths[at],
            paths[k],
            byte_offset,
        ));
    }
}

/// A line with the word, in whatever case, tells of an event of the kind.
pub open spec fn word_tells(
    line: Seq<char>,
    word: Seq<char>,
    kind: NetRuntimeEventKind,
    action: NetRuntimeAction,
    score: u16,
) -> bool {
    text::contains(text::lower(line), text::lower(word)) ==> forall|byte_offset: usize,
        bit_shift: u8|
        (#[trigger] line_markers(line, byte_offset, bit_shift)).contains(
            (MarkerView { kind, action, text: word, byte_offset, bit_shift, score }),
        )
}

proof fn lemma_word_is_marked(
    line: Seq<char>,
    byte_offset: usize,
    bit_shift: u8,
    i: int,
    n: int,
)
    requires
        0 <= i < n,
        told_by(line, rule_at(i)),
    ensures
        first_markers(line, byte_offset, bit_shift, n).contains(
            marker_of(rule_at(i), byte_offset, bit_shift),
        ),
    decreases n,
{
    let all = first_markers(line, byte_offset, bit_shift, n);
    let m = marker_of(rule_at(i), byte_offset, bit_shift);
    if i == n - 1 {
        assert(all[all.len() - 1] == m);
    } else {
        lemma_word_is_marked(line, byte_offset, bit_shift, i, n - 1);
        let before = first_markers(line, byte_offset, bit_shift, n - 1);
        let w = choose|w: int| 0 <= w < before.len() && before[w] == m;
        assert(all[w] == m);
    }
}

proof fn lemma_word_tells(line: Seq<char>, i: int)
    requires
        0 <= i < 27,
    ensures
        word_tells(
            line,
            rule_at(i).needle@,
            rule_at(i).kind,
            rule_at(i).action,
            rule_at(i).score,
        ),
{
    if told_by(line, rule_at(i)) {
        assert forall|byte_offset: usize, bit_shift: u8|
            (#[trigger] line_markers(line, byte_offset, bit_shift)).contains(
                marker_of(rule_at(i), byte_offset, bit_shift),
            ) by {
            lemma_word_is_marked(line, byte_offset, bit_shift, i, 27);
        }
    }
}

/// Words of the game's protocol tell what kind of event a line is about, and how surely.
pub proof fn words_tell_of_events(line: Seq<char>)
    ensures
        word_tells(
            line,
            "ClientSetReplicatedTargetData"@,
            NetRuntimeEventKind::SdkTargetData,
            NetRuntimeAction::Mapping,
            92,
        ),
        word_tells(
            line,
            "ClientUpdateTargetExtraDamageInfos"@,
            NetRuntimeEventKind::SdkTargetData,
            NetRuntimeAction::UpdateHp,
            92,
        ),
        word_tells(
            line,
            "ClientServerAbilityActorSetCurrentHP"@,
            NetRuntimeEventKind::SdkTargetData,
            NetRuntimeAction::UpdateHp,
            88,
        ),
        word_tells(
            line,
            "FClientReplicatedTargetDataContainer"@,
            NetRuntimeEventKind::SdkTargetData,
            NetRuntimeAction::Mapping,
            84,
        ),
        word_tells(
            line,
            "FClientRepExtraDamageInfo"@,
            NetRuntimeEventKind::SdkTargetData,
            NetRuntimeAction::UpdateHp,
            84,
        ),
        word_tells(
            line,
            "FClientRepFightData"@,
            NetRuntimeEventKind::SdkTargetData,
            NetRuntimeAction::UpdateHp,
            84,
        ),
        word_tells(
            line,
            "NetMulticast_OnSendHandleDamageInfos"@,
            NetRuntimeEventKind::AbilityLifecycle,
            NetRuntimeAction::Observe,
            88,
        ),
        word_tells(
            line,
            "ServerReceiveGameplayEventToActor"@,
            NetRuntimeEventKind::AbilityLifecycle,
            NetRuntimeAction::Observe,
            82,
        ),
        word_tells(
            line,
            "ServerTriggerAbilityNextSection"@,
            NetRuntimeEventKind::AbilityLifecycle,
            NetRuntimeAction::Observe,
            82,
        ),
        word_tells(
            line,
            "ServerSpawnProjectile"@,
            NetRuntimeEventKind::AbilityLifecycle,
            NetRuntimeAction::Spawn,
            82,
        ),
        word_tells(
            line,
            "NetMulticast_OnSendPlayGamePlayEffect"@,
            NetRuntimeEventKind::GameplayEffectLifecycle,
            NetRuntimeAction::Observe,
            88,
        ),
        word_tells(
            line,
            "GameplayCue"@,
            NetRuntimeEventKind::GameplayEffectLifecycle,
            NetRuntimeAction::Observe,
            70,
        ),
        word_tells(
            line,
            "GameplayEffect"@,
            NetRuntimeEventKind::GameplayEffectLifecycle,
            NetRuntimeAction::Observe,
            64,
        ),
        word_tells(
            line,
            "ActorChannel"@,
            NetRuntimeEventKind::ActorChannel,
            NetRuntimeAction::Observe,
            78,
        ),
        word_tells(
            line,
            "OpenChannel"@,
            NetRuntimeEventKind::ActorChannel,
            NetRuntimeAction::Open,
            78,
        ),
        word_tells(
            line,
            "OpenedChannel"@,
            NetRuntimeEventKind::ActorChannel,
            NetRuntimeAction::Open,
            78,
        ),
        word_tells(
            line,
            "PackageMap"@,
            NetRuntimeEventKind::PackageMapExport,
            NetRuntimeAction::Mapping,
            82,
        ),
        word_tells(
            line,
            "NetGUID"@,
            NetRuntimeEventKind::PackageMapExport,
            NetRuntimeAction::Mapping,
            76,
        ),
        word_tells(
            line,
            "NetGuid"@,
            NetRuntimeEventKind::PackageMapExport,
            NetRuntimeAction::Mapping,
            76,
        ),
        word_tells(
            line,
            "NetRefHandle"@,
            NetRuntimeEventKind::IrisReference,
            NetRuntimeAction::Mapping,
            82,
        ),
        word_tells(
            line,
            "Iris"@,
            NetRuntimeEventKind::IrisReference,
            NetRuntimeAction::Mapping,
            64,
        ),
        word_tells(
            line,
            "SpawnActor"@,
            NetRuntimeEventKind::ObjectLifecycle,
            NetRuntimeAction::Spawn,
            82,
        ),
        word_tells(
            line,
            "BeginPlay"@,
            NetRuntimeEventKind::ObjectLifecycle,
            NetRuntimeAction::Spawn,
            64,
        ),
        word_tells(
            line,
            "Destroyed"@,
            NetRuntimeEventKind::ObjectLifecycle,
            NetRuntimeAction::Destroy,
            82,
        ),
        word_tells(
            line,
            "Destroy"@,
            NetRuntimeEventKind::ObjectLifecycle,
            NetRuntimeAction::Destroy,
            74,
        ),
        word_tells(
            line,
            "TearOff"@,
            NetRuntimeEventKind::ObjectLifecycle,
            NetRuntimeAction::Destroy,
            82,
        ),
        word_tells(
            line,
            "Dormancy"@,
            NetRuntimeEventKind::ObjectLifecycle,
            NetRuntimeAction::Close,
            70,
        ),
{
    assert forall|i: int| 0 <= i < 27 implies word_tells(
        line,
        (#[trigger] rule_at(i)).needle@,
        rule_at(i).kind,
        rule_at(i).action,
        rule_at(i).score,
    ) by {
        lemma_word_tells(line, i);
    }
    assert(rule_at(0).needle@ == "ClientSetReplicatedTargetData"@);
    assert(rule_at(1).needle@ == "ClientUpdateTargetExtraDamageInfos"@);
    assert(rule_at(2).needle@ == "ClientServerAbilityActorSetCurrentHP"@);
    assert(rule_at(3).needle@ == "FClientReplicatedTargetDataContainer"@);
    assert(rule_at(4).needle@ == "FClientRepExtraDamageInfo"@);
    assert(rule_at(5).needle@ == "FClientRepFightData"@);
    assert(rule_at(6).needle@ == "NetMulticast_OnSendHandleDamageInfos"@);
    assert(rule_at(7).needle@ == "ServerReceiveGameplayEventToActor"@);
    assert(rule_at(8).needle@ == "ServerTriggerAbilityNextSection"@);
    assert(rule_at(9).needle@ == "ServerSpawnProjectile"@);
    assert(rule_at(10).needle@ == "NetMulticast_OnSendPlayGamePlayEffect"@);
    assert(rule_at(11).needle@ == "GameplayCue"@);
    assert(rule_at(12).needle@ == "GameplayEffect"@);
    assert(rule_at(13).needle@ == "ActorChannel"@);
    assert(rule_at(14).needle@ == "OpenChannel"@);
    assert(rule_at(15).needle@ == "OpenedChannel"@);
    assert(rule_at(16).needle@ == "PackageMap"@);
    assert(rule_at(17).needle@ == "NetGUID"@);
    assert(rule_at(18).needle@ == "NetGuid"@);
    assert(rule_at(19).needle@ == "NetRefHandle"@);
    assert(rule_at(20).needle@ == "Iris"@);
    assert(rule_at(21).needle@ == "SpawnActor"@);
    assert(rule_at(22).needle@ == "BeginPlay"@);
    assert(rule_at(23).needle@ == "Destroyed"@);
    assert(rule_at(24).needle@ == "Destroy"@);
    assert(rule_at(25).needle@ == "TearOff"@);
    assert(rule_at(26).needle@ == "Dormancy"@);
}

/// The numbers and words of a packet that are told of are at most twenty-four each, and
/// the hit points of the game's own structure at most twelve.
pub proof fn events_are_few(
    data: Seq<u8>,
    paths: Seq<PathCandidate>,
    identities: Seq<NetIdentityCandidate>,
)
    ensures
        identity_events(identities).len() <= 24,
        identities.len() <= 24 ==> identity_events(identities).len() == identities.len(),
        marker_events(data, paths).len() <= 24,
        sdk_events(data, paths).len() <= 12,
{
    let found = sorting::first(parser::sdk_targets_up_to(data, 8 * data.len() as int), 12);
    sorting::sorted_is_ordered(keyed_sdk_events(found, paths));
    sorting::sorted_is_ordered(keyed_markers(markers_up_to(data, 8)));
}

/// An event of the game's own structure has the hit points that it tells, is about the
/// path that is near, and counts more where there is one.
pub proof fn sdk_events_tell_hit_points(u: SdkTargetView, paths: Seq<PathCandidate>)
    ensures
        ({
            let e = sdk_event(u, paths);
            &&& e.kind == NetRuntimeEventKind::SdkTargetData && e.action
                == NetRuntimeAction::UpdateHp
            &&& e.current_hp == Some(u.current_hp) && e.dead_state == Some(u.dead_state)
            &&& e.target_token == Some(u.target_token)
            &&& e.byte_offset == u.byte_offset && e.bit_shift == u.bit_shift
            &&& e.path is Some ==> e.score == 78
            &&& e.path is None ==> e.score == 52
            &&& e.aliases.len() == 1 && e.aliases[0].kind == TargetAliasKind::SdkNetTarget
        }),
{
}

/// A packet's transport is told of with little weight, and a channel's bunch in it with
/// more.
pub proof fn transport_is_told_of(transport: TransportPacket, bunch: Option<SingleBunch>)
    ensures
        ({
            let events = transport_events(transport, bunch);
            &&& 1 <= events.len() <= 2
            &&& events[0].kind == NetRuntimeEventKind::TransportBunch && events[0].action
                == NetRuntimeAction::Observe
            &&& transport is StatelessHandshake ==> events.len() == 1 && events[0].score == 35
            &&& transport is Sequenced ==> events[0].score == 40
            &&& transport is Sequenced && bunch is Some ==> events.len() == 2 && events[1].kind
                == NetRuntimeEventKind::ActorChannel && events[1].score == 55
            &&& transport is Sequenced && bunch is None ==> events.len() == 1
        }),
{
}

} // verus!
