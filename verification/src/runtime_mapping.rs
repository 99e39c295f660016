//! What a running game reports beside a capture: which identity belongs to which
//! object, as a timeline of events.
use std::collections::VecDeque;
use vstd::prelude::*;

use crate::abyss;
use crate::decimal;
use crate::decimal::NO_MOMENT;
use crate::json;
use crate::json::Json;
use crate::json::JsonView;
use crate::object_state;
use crate::sorting;
use crate::target_instance;
use crate::target_instance::AliasView;
use crate::target_instance::TargetAlias;
use crate::target_instance::TargetAliasKind;
use crate::text;
use crate::text::Class;

verus! {

/// Times below this, in microseconds, are counted from the start of a recording.
pub const RELATIVE_TIME_CUTOFF: i64 = 10_000_000_000_000;

#[derive(Clone, Copy, Debug, PartialEq, Eq, Structural)]
pub enum RuntimeMappingAction {
    Mapping,
    Close,
    Destroy,
}

/// One report.
#[derive(Debug)]
pub struct RuntimeMappingEvent {
    pub timestamp: i64,
    pub action: RuntimeMappingAction,
    pub object_path: Option<String>,
    pub class_path: Option<String>,
    pub target_name: Option<String>,
    pub aliases: Vec<TargetAlias>,
}

#[verifier::ext_equal]
pub struct MappingView {
    pub timestamp: i64,
    pub action: RuntimeMappingAction,
    pub object_path: Option<Seq<char>>,
    pub class_path: Option<Seq<char>>,
    pub target_name: Option<Seq<char>>,
    pub aliases: Seq<AliasView>,
}

impl View for RuntimeMappingEvent {
    type V = MappingView;

    open spec fn view(&self) -> MappingView {
        MappingView {
            timestamp: self.timestamp,
            action: self.action,
            object_path: text::opt_text(self.object_path),
            class_path: text::opt_text(self.class_path),
            target_name: text::opt_text(self.target_name),
            aliases: target_instance::alias_views(self.aliases@),
        }
    }
}

pub open spec fn mapping_views(v: Seq<RuntimeMappingEvent>) -> Seq<MappingView> {
    v.map_values(|e: RuntimeMappingEvent| e@)
}

// ------------------------------------------------------------------------ fields

/// What a field says on one line: a text that is not blank, or a number.
pub open spec fn scalar(value: JsonView) -> Option<Seq<char>> {
    match value {
        JsonView::Text(t) => if text::trim(t, Class::Space).len() > 0 {
            Some(text::trim(t, Class::Space))
        } else {
            None
        },
        JsonView::Number(n) => Some(n),
        _ => None,
    }
}

/// What the first of the fields says, from field `i` on, that says something.
pub open spec fn scalar_field_of(value: JsonView, fields: Seq<&'static str>, i: int) -> Option<Seq<char>>
    decreases fields.len() - i,
{
    if i < 0 || i >= fields.len() {
        None
    } else {
        let here = match value.field(fields[i]@) {
            Some(v) => scalar(v),
            None => None,
        };
        match here {
            Some(s) => Some(s),
            None => scalar_field_of(value, fields, i + 1),
        }
    }
}

/// What the fields say, unless it is `None`.
pub open spec fn string_field_of(value: JsonView, fields: Seq<&'static str>) -> Option<Seq<char>> {
    match scalar_field_of(value, fields, 0) {
        Some(s) => if text::trim(s, Class::Space).len() > 0 && s != "None"@ {
            Some(s)
        } else {
            None
        },
        None => None,
    }
}

/// The time that the first of the fields says, from field `i` on, that is a number
/// or writes one.
pub open spec fn time_field_of(value: JsonView, fields: Seq<&'static str>, i: int) -> Option<int>
    decreases fields.len() - i,
{
    if i < 0 || i >= fields.len() {
        None
    } else {
        match value.field(fields[i]@) {
            Some(JsonView::Number(n)) => decimal::seconds(n),
            Some(JsonView::Text(t)) => match decimal::seconds(text::trim(t, Class::Space)) {
                Some(s) => Some(s),
                None => time_field_of(value, fields, i + 1),
            },
            _ => time_field_of(value, fields, i + 1),
        }
    }
}

fn scalar_of(value: &Json) -> (r: Option<String>)
    ensures
        text::opt_text(r) == scalar(value@),
{
    match value {
        Json::Text(t) => {
            let s = text::trimmed(&text::chars_of(t.as_str()), Class::Space);
            if s.len() > 0 {
                Some(text::string_of(&s))
            } else {
                None
            }
        },
        Json::Number(n) => Some(n.as_str().to_owned()),
        _ => None,
    }
}

fn scalar_field(value: &Json, fields: &[&'static str]) -> (r: Option<String>)
    ensures
        text::opt_text(r) == scalar_field_of(value@, fields@, 0),
{
    let mut k: usize = 0;
    while k < fields.len()
        invariant
            k <= fields@.len(),
            scalar_field_of(value@, fields@, 0) == scalar_field_of(value@, fields@, k as int),
        decreases fields.len() - k,
    {
        match value.field(fields[k]) {
            Some(v) => {
                match scalar_of(v) {
                    Some(s) => {
                        return Some(s);
                    },
                    None => {},
                }
            },
            None => {},
        }
        k += 1;
    }
    None
}

fn string_field(value: &Json, fields: &[&'static str]) -> (r: Option<String>)
    ensures
        text::opt_text(r) == string_field_of(value@, fields@),
{
    match scalar_field(value, fields) {
        Some(s) => {
            let t = text::trimmed(&text::chars_of(s.as_str()), Class::Space);
            if t.len() > 0 && !text::same_str(s.as_str(), "None") {
                Some(s)
            } else {
                None
            }
        },
        None => None,
    }
}

fn number_field(value: &Json, fields: &[&'static str]) -> (r: Option<i64>)
    ensures
        match r {
            Some(t) => time_field_of(value@, fields@, 0) == Some(t as int),
            None => time_field_of(value@, fields@, 0) is None,
        },
{
    let mut k: usize = 0;
    while k < fields.len()
        invariant
            k <= fields@.len(),
            time_field_of(value@, fields@, 0) == time_field_of(value@, fields@, k as int),
        decreases fields.len() - k,
    {
        match value.field(fields[k]) {
            Some(v) => {
                match v {
                    Json::Number(n) => {
                        return decimal::parse_seconds(&text::chars_of(n.as_str()));
                    },
                    Json::Text(t) => {
                        let s = text::trimmed(&text::chars_of(t.as_str()), Class::Space);
                        match decimal::parse_seconds(&s) {
                            Some(time) => {
                                return Some(time);
                            },
                            None => {},
                        }
                    },
                    _ => {},
                }
            },
            None => {},
        }
        k += 1;
    }
    None
}

// ------------------------------------------------------------------------ aliases

/// The kinds whose plain numbers are written in hexadecimal.
pub open spec fn numeric_kind(kind: TargetAliasKind) -> bool {
    kind == TargetAliasKind::IrisRef32 || kind == TargetAliasKind::NetGuid32 || kind
        == TargetAliasKind::NetGuidPacked
}

/// A handle as it is written for its kind.
pub open spec fn handle_for_kind(kind: TargetAliasKind, value: Seq<char>) -> Seq<char> {
    let v = text::trim(value, Class::Space);
    if text::starts_with(v, "0x"@) || text::starts_with(v, "0X"@) {
        "0x"@ + text::lower(v.skip(2))
    } else if numeric_kind(kind) && v.len() > 0 && text::all_digits(v) && text::digits_value(v)
        <= u32::MAX {
        let digits = text::hex(text::digits_value(v) as nat);
        "0x"@ + if kind == TargetAliasKind::NetGuidPacked {
            digits
        } else {
            text::zero_pad(digits, 8)
        }
    } else {
        v
    }
}

fn normalize_handle_for_kind(kind: TargetAliasKind, value: &str) -> (out: String)
    ensures
        out@ == handle_for_kind(kind, value@),
{
    let v = text::trimmed(&text::chars_of(value), Class::Space);
    proof {
        reveal_strlit("0x");
        reveal_strlit("0X");
    }
    if text::starts(&v, "0x") || text::starts(&v, "0X") {
        let rest = text::part(&v, 2, v.len());
        assert(rest@ =~= v@.skip(2));
        return text::concat2("0x", text::string_of(&text::to_lower(&rest)).as_str());
    }
    let numeric = match kind {
        TargetAliasKind::IrisRef32 => true,
        TargetAliasKind::NetGuid32 => true,
        TargetAliasKind::NetGuidPacked => true,
        _ => false,
    };
    let packed = match kind {
        TargetAliasKind::NetGuidPacked => true,
        _ => false,
    };
    if numeric && v.len() > 0 && text::digit_char(v[0]) {
        match text::parse_number(&v, 0xffff_ffff) {
            Some(n) => {
                proof {
                    text::lemma_digits_value_nonnegative(v@);
                }
                let digits = text::hex_string(n);
                return if packed {
                    text::concat2("0x", digits.as_str())
                } else {
                    text::concat2("0x", text::zero_padded(digits.as_str(), 8).as_str())
                };
            },
            None => {},
        }
    }
    proof {
        if v@.len() > 0 && text::all_digits(v@) {
            assert(text::is_digit(v@[0]));
        }
    }
    text::string_of(&v)
}

/// The first position, not before `i`, whose alias's key does not come before the
/// key.
pub open spec fn key_place(list: Seq<AliasView>, key: Seq<char>, i: int) -> int
    decreases list.len() - i,
{
    if 0 <= i < list.len() && text::text_lt(list[i].key(), key) {
        key_place(list, key, i + 1)
    } else {
        i
    }
}

/// The aliases, in the order of their keys, with one more, unless its key is there.
pub open spec fn with_keyed_alias(list: Seq<AliasView>, alias: AliasView) -> Seq<AliasView> {
    let p = key_place(list, alias.key(), 0);
    if 0 <= p < list.len() && list[p].key() == alias.key() {
        list
    } else {
        list.insert(p, alias)
    }
}

fn insert_keyed_alias(list: &mut Vec<TargetAlias>, alias: TargetAlias)
    ensures
        target_instance::alias_views(final(list)@) == with_keyed_alias(
            target_instance::alias_views(old(list)@),
            alias@,
        ),
{
    let ghost all = target_instance::alias_views(list@);
    let key = text::chars_of(alias.key().as_str());
    let mut p: usize = 0;
    loop
        invariant
            p <= list.len(),
            list@ == old(list)@,
            all == target_instance::alias_views(list@),
            key@ == alias@.key(),
            key_place(all, key@, 0) == key_place(all, key@, p as int),
        ensures
            p <= list.len(),
            list@ == old(list)@,
            p == key_place(all, key@, 0),
        decreases list.len() - p,
    {
        if p >= list.len() {
            break;
        }
        assert(all[p as int] == list@[p as int]@);
        let here = text::chars_of(list[p].key().as_str());
        if !text::comes_before(&here, &key) {
            break;
        }
        p += 1;
    }
    if p < list.len() {
        assert(all[p as int] == list@[p as int]@);
        if text::same(&text::chars_of(list[p].key().as_str()), &key) {
            return;
        }
    }
    list.insert(p, alias);
    assert(target_instance::alias_views(list@) =~= all.insert(p as int, alias@));
}

/// The aliases with those that the first `n` fields give.
pub open spec fn with_alias_fields(
    list: Seq<AliasView>,
    value: JsonView,
    kind: TargetAliasKind,
    fields: Seq<&'static str>,
    n: int,
) -> Seq<AliasView>
    decreases n,
{
    if n <= 0 {
        list
    } else {
        let before = with_alias_fields(list, value, kind, fields, n - 1);
        let here = match value.field(fields[n - 1]@) {
            Some(v) => scalar(v),
            None => None,
        };
        match here {
            Some(s) => with_keyed_alias(
                before,
                target_instance::alias_of(kind, handle_for_kind(kind, s)),
            ),
            None => before,
        }
    }
}

fn push_alias_fields(
    list: &mut Vec<TargetAlias>,
    value: &Json,
    kind: TargetAliasKind,
    fields: &[&'static str],
)
    ensures
        target_instance::alias_views(final(list)@) == with_alias_fields(
            target_instance::alias_views(old(list)@),
            value@,
            kind,
            fields@,
            fields@.len() as int,
        ),
{
    let ghost before = target_instance::alias_views(list@);
    let mut k: usize = 0;
    while k < fields.len()
        invariant
            k <= fields@.len(),
            target_instance::alias_views(list@) == with_alias_fields(
                before,
                value@,
                kind,
                fields@,
                k as int,
            ),
        decreases fields.len() - k,
    {
        match value.field(fields[k]) {
            Some(v) => {
                match scalar_of(v) {
                    Some(s) => {
                        let handle = normalize_handle_for_kind(kind, s.as_str());
                        insert_keyed_alias(list, TargetAlias::new(kind, handle.as_str()));
                    },
                    None => {},
                }
            },
            None => {},
        }
        k += 1;
    }
}

pub open spec fn channel_fields() -> Seq<&'static str> {
    seq!["actor_channel", "channel", "channel_id"]
}

pub open spec fn connection_fields() -> Seq<&'static str> {
    seq!["connection", "conn", "driver", "net_driver"]
}

/// The channel, behind its connection where that is told.
pub open spec fn channel_alias(value: JsonView) -> Option<AliasView> {
    match scalar_field_of(value, channel_fields(), 0) {
        Some(channel) => Some(
            target_instance::alias_of(
                TargetAliasKind::ActorChannel,
                match string_field_of(value, connection_fields()) {
                    Some(connection) => text::trim(connection, Class::Space) + ":"@ + channel,
                    None => channel,
                },
            ),
        ),
        None => None,
    }
}

/// The fields under which the aliases of a kind stand.
pub open spec fn alias_fields(kind: TargetAliasKind) -> Seq<&'static str> {
    match kind {
        TargetAliasKind::IrisRef32 => seq![
            "iris_ref32",
            "iris_ref",
            "iris",
            "netref",
            "net_ref_handle",
            "netref_handle",
        ],
        TargetAliasKind::NetGuid32 => seq!["netguid32", "net_guid32", "netguid", "net_guid"],
        TargetAliasKind::NetGuidPacked => seq!["netguid_packed", "net_guid_packed"],
        TargetAliasKind::SdkNetTarget => seq!["sdk_net_target", "net_target", "fcharacter_for_net"],
        TargetAliasKind::BossHpGuid => seq!["boss_hp_guid", "attribute_guid", "hp_guid"],
        TargetAliasKind::CurrentHpToken => seq!["current_hp_token", "currenthp_token"],
        _ => Seq::empty(),
    }
}

/// The aliases with those of the kind.
pub open spec fn with_kind(list: Seq<AliasView>, value: JsonView, kind: TargetAliasKind) -> Seq<AliasView> {
    with_alias_fields(list, value, kind, alias_fields(kind), alias_fields(kind).len() as int)
}

/// The aliases that an event tells, in the order of their keys.
pub open spec fn event_aliases(value: JsonView) -> Seq<AliasView> {
    let a = match channel_alias(value) {
        Some(alias) => seq![alias],
        None => Seq::empty(),
    };
    let b = with_kind(a, value, TargetAliasKind::IrisRef32);
    let c = with_kind(b, value, TargetAliasKind::NetGuid32);
    let d = with_kind(c, value, TargetAliasKind::NetGuidPacked);
    let e = with_kind(d, value, TargetAliasKind::SdkNetTarget);
    let f = with_kind(e, value, TargetAliasKind::BossHpGuid);
    with_kind(f, value, TargetAliasKind::CurrentHpToken)
}

fn channel_of(value: &Json) -> (r: Option<TargetAlias>)
    ensures
        target_instance::opt_alias(r) == channel_alias(value@),
{
    let channels = ["actor_channel", "channel", "channel_id"];
    assert(channels@ =~= channel_fields());
    match scalar_field(value, &channels) {
        Some(channel) => {
            let connections = ["connection", "conn", "driver", "net_driver"];
            assert(connections@ =~= connection_fields());
            let named = match string_field(value, &connections) {
                Some(connection) => {
                    let c = text::trimmed(&text::chars_of(connection.as_str()), Class::Space);
                    text::concat3(text::string_of(&c).as_str(), ":", channel.as_str())
                },
                None => channel,
            };
            Some(TargetAlias::new(TargetAliasKind::ActorChannel, named.as_str()))
        },
        None => None,
    }
}

fn aliases_from_value(value: &Json) -> (out: Vec<TargetAlias>)
    ensures
        target_instance::alias_views(out@) == event_aliases(value@),
{
    let mut out: Vec<TargetAlias> = Vec::new();
    match channel_of(value) {
        Some(alias) => {
            out.push(alias);
        },
        None => {},
    }
    assert(target_instance::alias_views(out@) =~= match channel_alias(value@) {
        Some(alias) => seq![alias],
        None => Seq::empty(),
    });
    let iris = ["iris_ref32", "iris_ref", "iris", "netref", "net_ref_handle", "netref_handle"];
    assert(iris@ =~= alias_fields(TargetAliasKind::IrisRef32));
    push_alias_fields(&mut out, value, TargetAliasKind::IrisRef32, &iris);
    let guids = ["netguid32", "net_guid32", "netguid", "net_guid"];
    assert(guids@ =~= alias_fields(TargetAliasKind::NetGuid32));
    push_alias_fields(&mut out, value, TargetAliasKind::NetGuid32, &guids);
    let packed = ["netguid_packed", "net_guid_packed"];
    assert(packed@ =~= alias_fields(TargetAliasKind::NetGuidPacked));
    push_alias_fields(&mut out, value, TargetAliasKind::NetGuidPacked, &packed);
    let sdk = ["sdk_net_target", "net_target", "fcharacter_for_net"];
    assert(sdk@ =~= alias_fields(TargetAliasKind::SdkNetTarget));
    push_alias_fields(&mut out, value, TargetAliasKind::SdkNetTarget, &sdk);
    let bosses = ["boss_hp_guid", "attribute_guid", "hp_guid"];
    assert(bosses@ =~= alias_fields(TargetAliasKind::BossHpGuid));
    push_alias_fields(&mut out, value, TargetAliasKind::BossHpGuid, &bosses);
    let tokens = ["current_hp_token", "currenthp_token"];
    assert(tokens@ =~= alias_fields(TargetAliasKind::CurrentHpToken));
    push_alias_fields(&mut out, value, TargetAliasKind::CurrentHpToken, &tokens);
    out
}

// ------------------------------------------------------------------------- events

/// What an event's name says is done.
pub open spec fn action_named(name: Option<Seq<char>>) -> RuntimeMappingAction {
    match name {
        Some(n) => {
            let l = text::lower(n);
            if text::contains(l, "destroy"@) || text::contains(l, "delete"@) || text::contains(
                l,
                "remove_object"@,
            ) {
                RuntimeMappingAction::Destroy
            } else if text::contains(l, "close"@) || text::contains(l, "remove"@)
                || text::contains(l, "unmap"@) {
                RuntimeMappingAction::Close
            } else {
                RuntimeMappingAction::Mapping
            }
        },
        None => RuntimeMappingAction::Mapping,
    }
}

fn action_from_event_name(value: Option<String>) -> (r: RuntimeMappingAction)
    ensures
        r == action_named(text::opt_text(value)),
{
    match value {
        Some(name) => {
            let l = text::lower_of(name.as_str());
            if text::has(&l, "destroy") || text::has(&l, "delete") || text::has(
                &l,
                "remove_object",
            ) {
                RuntimeMappingAction::Destroy
            } else if text::has(&l, "close") || text::has(&l, "remove") || text::has(&l, "unmap") {
                RuntimeMappingAction::Close
            } else {
                RuntimeMappingAction::Mapping
            }
        },
        None => RuntimeMappingAction::Mapping,
    }
}

/// Why a document gives no events.
#[derive(Debug)]
pub enum RuntimeMappingError {
    NotAnObject,
    MissingTimestamp,
    MissingIdentity,
    /// The line is no document, which has a cause, and neither is the whole text.
    InvalidLine { line: usize, error: String, cause: String },
    /// The line is a document, but no event, which has a cause.
    NotAnEvent { line: usize, cause: String },
}

#[verifier::ext_equal]
pub enum MappingFault {
    NotAnObject,
    MissingTimestamp,
    MissingIdentity,
    InvalidLine { line: int, error: Seq<char>, cause: Seq<char> },
    NotAnEvent { line: int, cause: Seq<char> },
}

impl View for RuntimeMappingError {
    type V = MappingFault;

    open spec fn view(&self) -> MappingFault {
        match self {
            RuntimeMappingError::NotAnObject => MappingFault::NotAnObject,
            RuntimeMappingError::MissingTimestamp => MappingFault::MissingTimestamp,
            RuntimeMappingError::MissingIdentity => MappingFault::MissingIdentity,
            RuntimeMappingError::InvalidLine { line, error, cause } => MappingFault::InvalidLine {
                line: *line as int,
                error: error@,
                cause: cause@,
            },
            RuntimeMappingError::NotAnEvent { line, cause } => MappingFault::NotAnEvent {
                line: *line as int,
                cause: cause@,
            },
        }
    }
}

impl MappingFault {
    /// The error in words.
    pub open spec fn words(self) -> Seq<char> {
        match self {
            MappingFault::NotAnObject => "event must be a JSON object"@,
            MappingFault::MissingTimestamp => "event is missing timestamp/time/ts"@,
            MappingFault::MissingIdentity =>
                "event must include at least one alias or object/class path"@,
            MappingFault::InvalidLine { line, error, .. } => "invalid JSON and JSONL line "@
                + text::dec(line as nat) + " is not valid JSON: "@ + error,
            MappingFault::NotAnEvent { line, .. } => "runtime mapping line "@ + text::dec(line as nat)
                + " is not an event"@,
        }
    }
}

impl RuntimeMappingError {
    /// The error in words.
    pub fn message(&self) -> (out: String)
        ensures
            out@ == self@.words(),
    {
        match self {
            RuntimeMappingError::NotAnObject => "event must be a JSON object".to_owned(),
            RuntimeMappingError::MissingTimestamp => "event is missing timestamp/time/ts".to_owned(),
            RuntimeMappingError::MissingIdentity =>
                "event must include at least one alias or object/class path".to_owned(),
            RuntimeMappingError::InvalidLine { line, error, .. } => {
                let mut out = text::concat3(
                    "invalid JSON and JSONL line ",
                    text::dec_string(*line as u64).as_str(),
                    " is not valid JSON: ",
                );
                out.append(error.as_str());
                out
            },
            RuntimeMappingError::NotAnEvent { line, .. } => text::concat3(
                "runtime mapping line ",
                text::dec_string(*line as u64).as_str(),
                " is not an event",
            ),
        }
    }
}

pub open spec fn time_fields() -> Seq<&'static str> {
    seq!["timestamp", "time", "ts", "seconds"]
}

pub open spec fn action_fields() -> Seq<&'static str> {
    seq!["event", "type", "action"]
}

pub open spec fn object_fields() -> Seq<&'static str> {
    seq!["object_path", "actor_path", "object", "actor", "path"]
}

pub open spec fn class_fields() -> Seq<&'static str> {
    seq!["class_path", "class", "actor_class"]
}

pub open spec fn name_fields() -> Seq<&'static str> {
    seq!["target_name", "display_name", "name"]
}

/// The event that a value is: a record with a time and with something that tells
/// what it is about.
pub open spec fn event_of(value: JsonView) -> Result<MappingView, MappingFault> {
    match value {
        JsonView::Record(_) => match time_field_of(value, time_fields(), 0) {
            Some(t) => {
                let aliases = event_aliases(value);
                let object = string_field_of(value, object_fields());
                let class = string_field_of(value, class_fields());
                if aliases.len() == 0 && object is None && class is None {
                    Err(MappingFault::MissingIdentity)
                } else {
                    Ok(
                        MappingView {
                            timestamp: t as i64,
                            action: action_named(string_field_of(value, action_fields())),
                            object_path: object,
                            class_path: class,
                            target_name: string_field_of(value, name_fields()),
                            aliases,
                        },
                    )
                }
            },
            None => Err(MappingFault::MissingTimestamp),
        },
        _ => Err(MappingFault::NotAnObject),
    }
}

pub open spec fn event_outcome(r: Result<RuntimeMappingEvent, RuntimeMappingError>) -> Result<
    MappingView,
    MappingFault,
> {
    match r {
        Ok(e) => Ok(e@),
        Err(e) => Err(e@),
    }
}

pub open spec fn events_outcome(r: Result<Vec<RuntimeMappingEvent>, RuntimeMappingError>) -> Result<
    Seq<MappingView>,
    MappingFault,
> {
    match r {
        Ok(e) => Ok(mapping_views(e@)),
        Err(e) => Err(e@),
    }
}

pub fn event_from_value(value: &Json) -> (r: Result<RuntimeMappingEvent, RuntimeMappingError>)
    ensures
        event_outcome(r) == event_of(value@),
{
    match value {
        Json::Record(_) => {},
        _ => {
            return Err(RuntimeMappingError::NotAnObject);
        },
    }
    let times = ["timestamp", "time", "ts", "seconds"];
    assert(times@ =~= time_fields());
    let timestamp = match number_field(value, &times) {
        Some(t) => t,
        None => {
            return Err(RuntimeMappingError::MissingTimestamp);
        },
    };
    let names = ["event", "type", "action"];
    assert(names@ =~= action_fields());
    let action = action_from_event_name(string_field(value, &names));
    let aliases = aliases_from_value(value);
    let objects = ["object_path", "actor_path", "object", "actor", "path"];
    assert(objects@ =~= object_fields());
    let object_path = string_field(value, &objects);
    let classes = ["class_path", "class", "actor_class"];
    assert(classes@ =~= class_fields());
    let class_path = string_field(value, &classes);
    let titles = ["target_name", "display_name", "name"];
    assert(titles@ =~= name_fields());
    let target_name = string_field(value, &titles);
    assert(event_aliases(value@).len() == aliases.len());
    if aliases.len() == 0 && object_path.is_none() && class_path.is_none() {
        return Err(RuntimeMappingError::MissingIdentity);
    }
    Ok(
        RuntimeMappingEvent { timestamp, action, object_path, class_path, target_name, aliases },
    )
}

/// The events that the first `n` values are, or what is wrong with the first one
/// that is none.
pub open spec fn events_of(values: Seq<JsonView>, n: int) -> Result<Seq<MappingView>, MappingFault>
    decreases n,
{
    if n <= 0 {
        Ok(Seq::empty())
    } else {
        match events_of(values, n - 1) {
            Ok(before) => match event_of(values[n - 1]) {
                Ok(e) => Ok(before.push(e)),
                Err(f) => Err(f),
            },
            Err(f) => Err(f),
        }
    }
}

proof fn lemma_events_fail(values: Seq<JsonView>, k: int, n: int)
    requires
        0 <= k <= n,
        events_of(values, k) is Err,
    ensures
        events_of(values, n) == events_of(values, k),
    decreases n - k,
{
    if k < n {
        lemma_events_fail(values, k, n - 1);
    }
}

fn events_from_values(values: &Vec<Json>) -> (r: Result<Vec<RuntimeMappingEvent>, RuntimeMappingError>)
    ensures
        events_outcome(r) == events_of(json::list_contents(values@), values@.len() as int),
{
    let ghost all = json::list_contents(values@);
    let mut out: Vec<RuntimeMappingEvent> = Vec::new();
    let mut k: usize = 0;
    assert(mapping_views(out@) =~= Seq::empty());
    while k < values.len()
        invariant
            k <= values.len(),
            all == json::list_contents(values@),
            events_of(all, k as int) == Ok::<Seq<MappingView>, MappingFault>(mapping_views(out@)),
        decreases values.len() - k,
    {
        let ghost before = mapping_views(out@);
        assert(all[k as int] == values@[k as int]@);
        match event_from_value(&values[k]) {
            Ok(e) => {
                out.push(e);
                assert(mapping_views(out@) =~= before.push(e@));
            },
            Err(f) => {
                proof {
                    lemma_events_fail(all, k + 1, all.len() as int);
                }
                return Err(f);
            },
        }
        k += 1;
    }
    Ok(out)
}

/// The list of events in a document.
pub open spec fn listed_events(value: JsonView) -> Option<Seq<JsonView>> {
    let inner = match value.field("events"@) {
        Some(v) => Some(v),
        None => value.field("Events"@),
    };
    match inner {
        Some(JsonView::List(items)) => Some(items),
        _ => value.as_list(),
    }
}

/// The events of a document: those it lists, or the one it is.
pub open spec fn document_events(value: JsonView) -> Result<Seq<MappingView>, MappingFault> {
    match listed_events(value) {
        Some(items) => events_of(items, items.len() as int),
        None => match event_of(value) {
            Ok(e) => Ok(seq![e]),
            Err(f) => Err(f),
        },
    }
}

/// The events of a document.
pub fn events_from_json_value(value: &Json) -> (r: Result<
    Vec<RuntimeMappingEvent>,
    RuntimeMappingError,
>)
    ensures
        events_outcome(r) == document_events(value@),
{
    let inner = match value.field("events") {
        Some(v) => Some(v),
        None => value.field("Events"),
    };
    match inner {
        Some(v) => {
            match v.list() {
                Some(items) => {
                    return events_from_values(items);
                },
                None => {},
            }
        },
        None => {},
    }
    match value.list() {
        Some(items) => events_from_values(items),
        None => match event_from_value(value) {
            Ok(e) => {
                let mut out: Vec<RuntimeMappingEvent> = Vec::new();
                out.push(e);
                assert(mapping_views(out@) =~= seq![e@]);
                Ok(out)
            },
            Err(f) => Err(f),
        },
    }
}

/// The event on a line, the `n`-th one; `whole` says why the text as a whole is no
/// document.
pub open spec fn line_event(line: Seq<char>, n: int, whole: Seq<char>) -> Result<MappingView, MappingFault> {
    match json::json_document(line) {
        Ok(value) => match event_of(value) {
            Ok(e) => Ok(e),
            Err(fault) => Err(MappingFault::NotAnEvent { line: n, cause: fault.words() }),
        },
        Err(cause) => Err(MappingFault::InvalidLine { line: n, error: whole, cause }),
    }
}

/// The events on the first `n` lines, of which blank ones are none.
pub open spec fn line_events(lines: Seq<Seq<char>>, whole: Seq<char>, n: int) -> Result<
    Seq<MappingView>,
    MappingFault,
>
    decreases n,
{
    if n <= 0 {
        Ok(Seq::empty())
    } else {
        match line_events(lines, whole, n - 1) {
            Ok(before) => {
                let line = text::trim(lines[n - 1], Class::Space);
                if line.len() == 0 {
                    Ok(before)
                } else {
                    match line_event(line, n, whole) {
                        Ok(e) => Ok(before.push(e)),
                        Err(f) => Err(f),
                    }
                }
            },
            Err(f) => Err(f),
        }
    }
}

/// The events of a text: those of the document it is, or those on its lines.
pub open spec fn text_events(s: Seq<char>) -> Result<Seq<MappingView>, MappingFault> {
    match json::json_document(s) {
        Ok(value) => document_events(value),
        Err(whole) => line_events(abyss::lines(s), whole, abyss::lines(s).len() as int),
    }
}

proof fn lemma_lines_fail(lines: Seq<Seq<char>>, whole: Seq<char>, k: int, n: int)
    requires
        0 <= k <= n,
        line_events(lines, whole, k) is Err,
    ensures
        line_events(lines, whole, n) == line_events(lines, whole, k),
    decreases n - k,
{
    if k < n {
        lemma_lines_fail(lines, whole, k, n - 1);
    }
}

fn event_on_line(line: &Vec<char>, n: usize, whole: &str) -> (r: Result<
    RuntimeMappingEvent,
    RuntimeMappingError,
>)
    ensures
        event_outcome(r) == line_event(line@, n as int, whole@),
{
    match json::parse_json(text::string_of(line).as_str()) {
        Ok(value) => match event_from_value(&value) {
            Ok(e) => Ok(e),
            Err(fault) => Err(RuntimeMappingError::NotAnEvent { line: n, cause: fault.message() }),
        },
        Err(cause) => Err(
            RuntimeMappingError::InvalidLine { line: n, error: whole.to_owned(), cause },
        ),
    }
}

/// The events of a text.
pub fn parse_runtime_mapping_events(s: &str) -> (r: Result<
    Vec<RuntimeMappingEvent>,
    RuntimeMappingError,
>)
    ensures
        events_outcome(r) == text_events(s@),
{
    let whole = match json::parse_json(s) {
        Ok(value) => {
            return events_from_json_value(&value);
        },
        Err(e) => e,
    };
    let lines = abyss::lines_of(&text::chars_of(s));
    let ghost all = text::views(lines@);
    let mut out: Vec<RuntimeMappingEvent> = Vec::new();
    let mut k: usize = 0;
    assert(mapping_views(out@) =~= Seq::empty());
    while k < lines.len()
        invariant
            k <= lines.len(),
            all == text::views(lines@),
            all == abyss::lines(s@),
            json::json_document(s@) == Err::<JsonView, Seq<char>>(whole@),
            line_events(all, whole@, k as int) == Ok::<Seq<MappingView>, MappingFault>(
                mapping_views(out@),
            ),
        decreases lines.len() - k,
    {
        let ghost before = mapping_views(out@);
        assert(all[k as int] == lines@[k as int]@);
        let line = text::trimmed(&lines[k], Class::Space);
        if line.len() > 0 {
            match event_on_line(&line, k + 1, whole.as_str()) {
                Ok(e) => {
                    out.push(e);
                    assert(mapping_views(out@) =~= before.push(e@));
                },
                Err(f) => {
                    proof {
                        lemma_lines_fail(all, whole@, k + 1, all.len() as int);
                    }
                    return Err(f);
                },
            }
        }
        k += 1;
    }
    Ok(out)
}

// ----------------------------------------------------------------------- timeline

/// Reports in the order of their times.
#[derive(Debug)]
pub struct RuntimeMappingTimeline {
    events: VecDeque<RuntimeMappingEvent>,
    aligned: bool,
}

#[verifier::ext_equal]
pub struct TimelineView {
    pub events: Seq<MappingView>,
    pub aligned: bool,
}

impl View for RuntimeMappingTimeline {
    type V = TimelineView;

    closed spec fn view(&self) -> TimelineView {
        TimelineView { events: mapping_views(self.events@), aligned: self.aligned }
    }
}

pub open spec fn time_key(timestamp: i64) -> u128 {
    (timestamp - i64::MIN) as u128
}

pub open spec fn keyed_by_time(events: Seq<MappingView>) -> Seq<(u128, MappingView)> {
    events.map_values(|e: MappingView| (time_key(e.timestamp), e))
}

/// The events in the order of their times.
pub open spec fn by_time(events: Seq<MappingView>) -> Seq<MappingView> {
    sorting::values(sorting::sorted(keyed_by_time(events)))
}

/// The time is one that can come and be counted from.
pub open spec fn countable(timestamp: i64) -> bool {
    timestamp > -i64::MAX
}

/// A time that was counted from `first`, counted so that `first` is at `start`,
/// held within the 64-bit range. Counted from before all times, every later one is
/// never reached; counted from no moment, none is one.
pub open spec fn moved_time(timestamp: i64, first: i64, start: i64) -> i64 {
    let t = timestamp - first + start;
    if first == NO_MOMENT || timestamp == NO_MOMENT {
        NO_MOMENT
    } else if !countable(first) {
        if countable(timestamp) {
            i64::MAX
        } else {
            NO_MOMENT
        }
    } else if t > i64::MAX {
        i64::MAX
    } else if t < -i64::MAX {
        (-i64::MAX) as i64
    } else {
        t as i64
    }
}

fn move_time(timestamp: i64, first: i64, start: i64) -> (r: i64)
    ensures
        r == moved_time(timestamp, first, start),
{
    let t: i128 = (timestamp as i128) - (first as i128) + (start as i128);
    if first == NO_MOMENT || timestamp == NO_MOMENT {
        NO_MOMENT
    } else if first == -i64::MAX {
        if timestamp > -i64::MAX {
            i64::MAX
        } else {
            NO_MOMENT
        }
    } else if t > 0x7fff_ffff_ffff_ffff {
        i64::MAX
    } else if t < -0x7fff_ffff_ffff_ffff {
        -i64::MAX
    } else {
        t as i64
    }
}

/// The events with their times moved.
pub open spec fn moved_events(events: Seq<MappingView>, first: i64, start: i64) -> Seq<MappingView> {
    events.map_values(
        |e: MappingView|
            MappingView { timestamp: moved_time(e.timestamp, first, start), ..e },
    )
}

/// The timeline, aligned to the time of the first packet: where its times are
/// relative and that of the packet is not, it starts with the packet. Only the first
/// alignment counts.
pub open spec fn aligned_to(v: TimelineView, packet: i64) -> TimelineView {
    if v.aligned {
        v
    } else if v.events.len() == 0 || v.events[0].timestamp >= RELATIVE_TIME_CUTOFF || packet
        < RELATIVE_TIME_CUTOFF {
        TimelineView { aligned: true, ..v }
    } else {
        TimelineView {
            events: moved_events(v.events, v.events[0].timestamp, packet),
            aligned: true,
        }
    }
}

/// The event's time has come.
pub open spec fn due(event: MappingView, timestamp: i64) -> bool {
    event.timestamp != NO_MOMENT && event.timestamp <= timestamp
}

/// How many events, from position `i` on, are due one after the other, counted from
/// the start.
pub open spec fn due_until(events: Seq<MappingView>, timestamp: i64, i: int) -> int
    decreases events.len() - i,
{
    if 0 <= i < events.len() && due(events[i], timestamp) {
        due_until(events, timestamp, i + 1)
    } else {
        i
    }
}

proof fn lemma_due_until(events: Seq<MappingView>, timestamp: i64, i: int)
    requires
        0 <= i <= events.len(),
    ensures
        i <= due_until(events, timestamp, i) <= events.len(),
        forall|k: int|
            i <= k < due_until(events, timestamp, i) ==> due(#[trigger] events[k], timestamp),
        due_until(events, timestamp, i) < events.len() ==> !due(
            events[due_until(events, timestamp, i)],
            timestamp,
        ),
    decreases events.len() - i,
{
    if i < events.len() && due(events[i], timestamp) {
        lemma_due_until(events, timestamp, i + 1);
    }
}

impl RuntimeMappingTimeline {
    /// A timeline of the events.
    pub fn new(events: Vec<RuntimeMappingEvent>) -> (r: RuntimeMappingTimeline)
        ensures
            r@.events == by_time(mapping_views(events@)),
            !r@.aligned,
    {
        let ghost all = events@;
        let ghost list = mapping_views(all);
        let ghost view = |e: RuntimeMappingEvent| e@;
        let mut with_keys: Vec<(u128, RuntimeMappingEvent)> = Vec::new();
        for event in it: events
            invariant
                it.seq() == all,
                list == mapping_views(all),
                with_keys@.len() == it.index(),
                forall|k: int|
                    0 <= k < it.index() ==> (#[trigger] with_keys@[k]).1 == all[k]
                        && with_keys@[k].0 == time_key(list[k].timestamp),
        {
            assert(list[it.index() as int] == event@);
            let key: u128 = ((event.timestamp as i128) + 0x8000_0000_0000_0000) as u128;
            with_keys.push((key, event));
        }
        let ghost keyed = with_keys@;
        assert(sorting::mapped(keyed, view) =~= keyed_by_time(list));
        let sorted = sorting::sort_by_key(with_keys);
        let ghost in_order = sorted@;
        proof {
            sorting::sorted_commutes_with_mapping(keyed, view);
        }
        let mut queue: VecDeque<RuntimeMappingEvent> = VecDeque::new();
        for item in it: sorted
            invariant
                it.seq() == in_order,
                queue@.len() == it.index(),
                forall|k: int| 0 <= k < it.index() ==> #[trigger] queue@[k] == in_order[k].1,
        {
            queue.push_back(item.1);
        }
        let r = RuntimeMappingTimeline { events: queue, aligned: false };
        assert(r@.events =~= by_time(list));
        r
    }

    pub fn len(&self) -> (r: usize)
        ensures
            r == self@.events.len(),
    {
        self.events.len()
    }

    /// Aligns the timeline to the time of the first packet.
    pub fn align_to_packet_time(&mut self, packet_timestamp: i64)
        ensures
            final(self)@ == aligned_to(old(self)@, packet_timestamp),
    {
        let ghost v = self@;
        if self.aligned {
            return;
        }
        self.aligned = true;
        if self.events.len() == 0 {
            assert(self@.events == v.events);
            return;
        }
        assert(v.events[0] == self.events@[0]@);
        let first: i64 = self.events[0].timestamp;
        if first >= RELATIVE_TIME_CUTOFF || packet_timestamp < RELATIVE_TIME_CUTOFF {
            assert(self@.events == v.events);
            return;
        }
        let ghost moved = moved_events(v.events, first, packet_timestamp);
        let n: usize = self.events.len();
        let mut k: usize = 0;
        assert(v.events.skip(0) + moved.take(0) =~= v.events);
        while k < n
            invariant
                k <= n,
                n == v.events.len(),
                n == self.events.len(),
                self.aligned,
                moved == moved_events(v.events, first, packet_timestamp),
                self@.events == v.events.skip(k as int) + moved.take(k as int),
            decreases n - k,
        {
            let ghost now = self@.events;
            assert(now[0] == v.events[k as int]);
            assert(now[0] == self.events@[0]@);
            match self.events.pop_front() {
                Some(event) => {
                    assert(mapping_views(self.events@) =~= now.skip(1));
                    let mut event = event;
                    event.timestamp = move_time(event.timestamp, first, packet_timestamp);
                    assert(event@ =~= moved[k as int]);
                    self.events.push_back(event);
                    assert(mapping_views(self.events@) =~= now.skip(1).push(moved[k as int]));
                    assert(now.skip(1).push(moved[k as int]) =~= v.events.skip(k + 1)
                        + moved.take(k + 1));
                },
                None => {},
            }
            k += 1;
        }
        assert(v.events.skip(n as int) + moved.take(n as int) =~= moved);
    }

    /// Takes the events from the front that are not later than the time.
    pub fn pop_due(&mut self, timestamp: i64) -> (out: Vec<RuntimeMappingEvent>)
        ensures
            mapping_views(out@) == old(self)@.events.take(
                due_until(old(self)@.events, timestamp, 0),
            ),
            final(self)@ == (TimelineView {
                events: old(self)@.events.skip(due_until(old(self)@.events, timestamp, 0)),
                ..old(self)@
            }),
    {
        let ghost v = self@;
        let mut out: Vec<RuntimeMappingEvent> = Vec::new();
        assert(v.events.skip(0) =~= v.events);
        assert(mapping_views(out@) =~= v.events.take(0));
        while self.events.len() > 0 && self.events[0].timestamp != NO_MOMENT
            && self.events[0].timestamp <= timestamp
            invariant
                out@.len() <= v.events.len(),
                self.aligned == v.aligned,
                mapping_views(out@) == v.events.take(out@.len() as int),
                self@.events == v.events.skip(out@.len() as int),
                due_until(v.events, timestamp, 0) == due_until(
                    v.events,
                    timestamp,
                    out@.len() as int,
                ),
            decreases self.events.len(),
        {
            let ghost n = out@.len() as int;
            let ghost now = self@.events;
            let ghost sofar = mapping_views(out@);
            assert(now.len() == self.events@.len());
            assert(now[0] == self.events@[0]@);
            assert(now[0] == v.events[n]);
            match self.events.pop_front() {
                Some(event) => {
                    assert(mapping_views(self.events@) =~= now.skip(1));
                    out.push(event);
                    assert(mapping_views(out@) =~= sofar.push(v.events[n]));
                    assert(v.events.take(n + 1) =~= v.events.take(n).push(v.events[n]));
                    assert(v.events.skip(n).skip(1) =~= v.events.skip(n + 1));
                },
                None => {},
            }
        }
        proof {
            let n = out@.len() as int;
            if n < v.events.len() {
                assert(self@.events[0] == v.events[n]);
                assert(self@.events[0] == self.events@[0]@);
            }
        }
        out
    }

    /// Takes all events.
    pub fn pop_all(&mut self) -> (out: Vec<RuntimeMappingEvent>)
        ensures
            mapping_views(out@) == old(self)@.events,
            final(self)@.events.len() == 0,
            final(self)@.aligned == old(self)@.aligned,
    {
        let ghost v = self@;
        let mut out: Vec<RuntimeMappingEvent> = Vec::new();
        assert(v.events.skip(0) =~= v.events);
        assert(mapping_views(out@) =~= v.events.take(0));
        while self.events.len() > 0
            invariant
                out@.len() <= v.events.len(),
                self.aligned == v.aligned,
                mapping_views(out@) == v.events.take(out@.len() as int),
                self@.events == v.events.skip(out@.len() as int),
            decreases self.events.len(),
        {
            let ghost n = out@.len() as int;
            let ghost now = self@.events;
            let ghost sofar = mapping_views(out@);
            assert(now.len() == self.events@.len());
            assert(now[0] == self.events@[0]@);
            assert(now[0] == v.events[n]);
            match self.events.pop_front() {
                Some(event) => {
                    assert(mapping_views(self.events@) =~= now.skip(1));
                    out.push(event);
                    assert(mapping_views(out@) =~= sofar.push(v.events[n]));
                    assert(v.events.take(n + 1) =~= v.events.take(n).push(v.events[n]));
                    assert(v.events.skip(n).skip(1) =~= v.events.skip(n + 1));
                },
                None => {},
            }
        }
        assert(v.events.take(out@.len() as int) =~= v.events);
        out
    }
}

// ------------------------------------------------------------------------- files

/// The names that a file beside a capture may have: from the capture's name
/// without its extension, and from its whole name.
pub open spec fn sidecar_names(stem: Option<Seq<char>>, name: Option<Seq<char>>) -> Seq<Seq<char>> {
    let of_stem = match stem {
        Some(s) => seq![
            s + ".sidecar.jsonl"@,
            s + ".sidecar.json"@,
            s + ".runtime.jsonl"@,
            s + ".runtime.json"@,
            s + ".mapping.jsonl"@,
            s + ".mapping.json"@,
        ],
        None => Seq::empty(),
    };
    match name {
        Some(n) => of_stem.push(n + ".sidecar.jsonl"@).push(n + ".sidecar.json"@),
        None => of_stem,
    }
}

/// The names that a file beside a capture may have, in the order in which they are
/// tried.
pub fn runtime_mapping_sidecar_candidates(stem: Option<&str>, name: Option<&str>) -> (out: Vec<
    String,
>)
    ensures
        text::texts(out@) == sidecar_names(text::opt_str(stem), text::opt_str(name)),
{
    let mut out: Vec<String> = Vec::new();
    match stem {
        Some(s) => {
            out.push(text::concat2(s, ".sidecar.jsonl"));
            out.push(text::concat2(s, ".sidecar.json"));
            out.push(text::concat2(s, ".runtime.jsonl"));
            out.push(text::concat2(s, ".runtime.json"));
            out.push(text::concat2(s, ".mapping.jsonl"));
            out.push(text::concat2(s, ".mapping.json"));
        },
        None => {},
    }
    match name {
        Some(n) => {
            out.push(text::concat2(n, ".sidecar.jsonl"));
            out.push(text::concat2(n, ".sidecar.json"));
        },
        None => {},
    }
    assert(text::texts(out@) =~= sidecar_names(text::opt_str(stem), text::opt_str(name)));
    out
}

/// The first of the names from `i` on that is among the files.
pub open spec fn first_present(names: Seq<Seq<char>>, files: Seq<Seq<char>>, i: int) -> Option<
    Seq<char>,
>
    decreases names.len() - i,
{
    if i < 0 || i >= names.len() {
        None
    } else if files.contains(names[i]) {
        Some(names[i])
    } else {
        first_present(names, files, i + 1)
    }
}

/// The file beside a capture that tells about the runtime, among the files that
/// are there.
pub fn find_companion_runtime_mapping_sidecar(
    stem: Option<&str>,
    name: Option<&str>,
    files: &Vec<String>,
) -> (r: Option<String>)
    ensures
        text::opt_text(r) == first_present(
            sidecar_names(text::opt_str(stem), text::opt_str(name)),
            text::texts(files@),
            0,
        ),
{
    let names = runtime_mapping_sidecar_candidates(stem, name);
    let ghost all = text::texts(names@);
    let ghost there = text::texts(files@);
    let mut i: usize = 0;
    while i < names.len()
        invariant
            i <= names@.len(),
            all == text::texts(names@),
            all == sidecar_names(text::opt_str(stem), text::opt_str(name)),
            there == text::texts(files@),
            first_present(all, there, 0) == first_present(all, there, i as int),
        decreases names.len() - i,
    {
        assert(all[i as int] == names@[i as int]@);
        if object_state::holds_string(files, names[i].as_str()) {
            return Some(names[i].clone());
        }
        i += 1;
    }
    None
}

/// The timeline that the text of such a file gives.
pub fn load_runtime_mapping_sidecar(s: &str) -> (r: Result<
    RuntimeMappingTimeline,
    RuntimeMappingError,
>)
    ensures
        match (r, text_events(s@)) {
            (Ok(timeline), Ok(events)) => timeline@.events == by_time(events)
                && !timeline@.aligned,
            (Err(e), Err(error)) => e@ == error,
            _ => false,
        },
{
    match parse_runtime_mapping_events(s) {
        Ok(events) => Ok(RuntimeMappingTimeline::new(events)),
        Err(e) => Err(e),
    }
}

// ------------------------------------------------------------------------- laws

/// No event is later than one behind it.
pub open spec fn in_time_order(events: Seq<MappingView>) -> bool {
    forall|i: int, j: int|
        0 <= i < j < events.len() ==> (#[trigger] events[i]).timestamp <= (
        #[trigger] events[j]).timestamp
}

/// A timeline's events are in the order of their times.
pub proof fn timelines_are_ordered(events: Seq<MappingView>)
    ensures
        in_time_order(by_time(events)),
        by_time(events).len() == events.len(),
{
    let s = keyed_by_time(events);
    sorting::sorted_is_ordered(s);
    let r = by_time(events);
    assert forall|i: int, j: int| 0 <= i < j < r.len() implies (#[trigger] r[i]).timestamp <= (
    #[trigger] r[j]).timestamp by {
        sorting::sorted_elements_are_elements(s, i);
        sorting::sorted_elements_are_elements(s, j);
        assert(sorting::sorted(s)[i] == (time_key(r[i].timestamp), r[i]));
        assert(sorting::sorted(s)[j] == (time_key(r[j].timestamp), r[j]));
        assert(sorting::sorted(s)[i].0 <= sorting::sorted(s)[j].0);
    }
}

/// Alignment keeps the order, and the number, of the events.
pub proof fn alignment_keeps_order(v: TimelineView, packet: i64)
    requires
        in_time_order(v.events),
    ensures
        in_time_order(aligned_to(v, packet).events),
        aligned_to(v, packet).events.len() == v.events.len(),
{
    let r = aligned_to(v, packet).events;
    assert forall|i: int, j: int| 0 <= i < j < r.len() implies (#[trigger] r[i]).timestamp <= (
    #[trigger] r[j]).timestamp by {
        assert(v.events[i].timestamp <= v.events[j].timestamp);
    }
}

/// A timeline with relative times starts with the packet that it was aligned to, as
/// long as its first time can be counted from.
pub proof fn aligned_timelines_start_with_the_packet(v: TimelineView, packet: i64)
    requires
        !v.aligned,
        v.events.len() > 0,
        countable(v.events[0].timestamp),
        v.events[0].timestamp < RELATIVE_TIME_CUTOFF <= packet,
    ensures
        aligned_to(v, packet).events[0].timestamp == packet,
        aligned_to(aligned_to(v, packet), packet) == aligned_to(v, packet),
{
}

/// What is taken is everything that is due, and nothing that is not. An event that
/// never comes is in front of the others and holds them up.
pub proof fn exactly_the_due_are_taken(events: Seq<MappingView>, timestamp: i64, k: int)
    requires
        in_time_order(events),
        0 <= k < events.len(),
    ensures
        k < due_until(events, timestamp, 0) <==> events[0].timestamp != NO_MOMENT
            && events[k].timestamp <= timestamp,
{
    lemma_due_until(events, timestamp, 0);
    let n = due_until(events, timestamp, 0);
    if n < k {
        assert(events[n].timestamp <= events[k].timestamp);
    }
    if 0 < k {
        assert(events[0].timestamp <= events[k].timestamp);
    }
    if 0 < n < events.len() {
        assert(events[0].timestamp <= events[n].timestamp);
    }
}

/// What an event does is told by the words in its name, in whatever case.
pub proof fn actions_are_told_by_their_words(name: Seq<char>)
    ensures
        ({
            let l = text::lower(name);
            let destroys = text::contains(l, "destroy"@) || text::contains(l, "delete"@)
                || text::contains(l, "remove_object"@);
            let closes = text::contains(l, "close"@) || text::contains(l, "remove"@)
                || text::contains(l, "unmap"@);
            &&& destroys <==> action_named(Some(name)) == RuntimeMappingAction::Destroy
            &&& closes && !destroys <==> action_named(Some(name)) == RuntimeMappingAction::Close
            &&& !closes && !destroys <==> action_named(Some(name)) == RuntimeMappingAction::Mapping
        }),
        action_named(None) == RuntimeMappingAction::Mapping,
{
}

/// A number in decimal is the same handle as the number in eight hexadecimal digits, and
/// for a packed one in as few as write it.
pub proof fn handles_are_the_same_in_decimal(kind: TargetAliasKind, n: nat)
    requires
        n <= 0xffff_ffff,
        kind == TargetAliasKind::IrisRef32 || kind == TargetAliasKind::NetGuid32 || kind
            == TargetAliasKind::NetGuidPacked,
    ensures
        handle_for_kind(kind, text::dec(n)) == "0x"@ + if kind == TargetAliasKind::NetGuidPacked {
            text::hex(n)
        } else {
            text::zero_pad(text::hex(n), 8)
        },
{
    let s = text::dec(n);
    text::decimals_are_digits(n);
    text::decimals_read_back(n);
    reveal_strlit("0x");
    reveal_strlit("0X");
    assert(text::is_digit(s[0]) && text::is_digit(s[s.len() - 1]));
    assert(text::skip_class(s, Class::Space, 0) == 0);
    assert(s.skip(0) =~= s);
    assert(text::back_class(s, Class::Space, s.len() as int) == s.len());
    assert(s.take(s.len() as int) =~= s);
    assert(text::trim(s, Class::Space) == s);
    if text::starts_with(s, "0x"@) {
        assert(s.take(2)[1] == "0x"@[1]);
        assert(text::is_digit(s[1]));
    }
    if text::starts_with(s, "0X"@) {
        assert(s.take(2)[1] == "0X"@[1]);
        assert(text::is_digit(s[1]));
    }
}

/// Relative times are all moved by what lies between the first and the packet; times
/// that are absolute, or a packet without such a time, move nothing.
pub proof fn times_are_moved_together(v: TimelineView, packet: i64, i: int)
    requires
        !v.aligned,
        0 <= i < v.events.len(),
        i64::MIN + 1 < v.events[0].timestamp,
        i64::MIN < v.events[i].timestamp,
        -i64::MAX <= v.events[i].timestamp - v.events[0].timestamp + packet <= i64::MAX,
    ensures
        aligned_to(v, packet).aligned,
        v.events[0].timestamp < 10_000_000_000_000 <= packet ==> aligned_to(
            v,
            packet,
        ).events[i].timestamp - v.events[i].timestamp == packet - v.events[0].timestamp,
        v.events[0].timestamp >= 10_000_000_000_000 || packet < 10_000_000_000_000 ==> aligned_to(
            v,
            packet,
        ).events == v.events,
        aligned_to(v, packet).events[i] == (MappingView {
            timestamp: aligned_to(v, packet).events[i].timestamp,
            ..v.events[i]
        }),
{
}

/// An event is a record with a time, and with an alias or the path of an object or of a
/// class.
pub proof fn events_tell_of_an_object(value: JsonView)
    ensures
        match event_of(value) {
            Ok(e) => value is Record && (e.aliases.len() > 0 || e.object_path is Some
                || e.class_path is Some),
            Err(MappingFault::NotAnObject) => !(value is Record),
            Err(_) => value is Record,
        },
{
}

/// An event has the time that it gives in seconds, and the path of its object without the
/// space around it.
pub proof fn events_have_their_time_and_path(value: JsonView, n: Seq<char>, path: Seq<char>)
    requires
        value is Record,
        value.field("timestamp"@) == Some(JsonView::Number(n)),
        decimal::seconds(n) is Some,
        value.field("object_path"@) == Some(JsonView::Text(path)),
        text::trim(path, Class::Space).len() > 0,
        text::trim(path, Class::Space) != "None"@,
    ensures
        event_of(value) matches Ok(e) && e.timestamp == decimal::seconds(n).unwrap() as i64
            && e.object_path == Some(text::trim(path, Class::Space)),
{
    text::trim_leaves_clean_ends(path, Class::Space);
    let s = text::trim(path, Class::Space);
    assert(text::skip_class(s, Class::Space, 0) == 0);
    assert(s.skip(0) =~= s);
    assert(text::back_class(s, Class::Space, s.len() as int) == s.len());
    assert(s.take(s.len() as int) =~= s);
    assert(object_fields()[0]@ == "object_path"@);
    assert(time_fields()[0]@ == "timestamp"@);
}

/// A channel is named with the connection that it belongs to, where that is told.
pub proof fn channels_belong_to_their_connection(
    value: JsonView,
    channel: Seq<char>,
    connection: Seq<char>,
)
    requires
        value.field("actor_channel"@) == Some(JsonView::Number(channel)),
        value.field("connection"@) == Some(JsonView::Number(connection)),
        text::trim(connection, Class::Space).len() > 0,
        connection != "None"@,
    ensures
        channel_alias(value) == Some(
            target_instance::alias_of(
                TargetAliasKind::ActorChannel,
                text::trim(connection, Class::Space) + ":"@ + channel,
            ),
        ),
{
    assert(channel_fields()[0]@ == "actor_channel"@);
    assert(connection_fields()[0]@ == "connection"@);
}

/// A channel without a connection is named by itself.
pub proof fn channels_can_stand_alone(value: JsonView, channel: Seq<char>)
    requires
        value.field("actor_channel"@) == Some(JsonView::Number(channel)),
        value.field("connection"@) is None,
        value.field("conn"@) is None,
        value.field("driver"@) is None,
        value.field("net_driver"@) is None,
    ensures
        channel_alias(value) == Some(
            target_instance::alias_of(TargetAliasKind::ActorChannel, channel),
        ),
{
    assert(channel_fields()[0]@ == "actor_channel"@);
    let names = connection_fields();
    assert(names[0]@ == "connection"@ && names[1]@ == "conn"@ && names[2]@ == "driver"@
        && names[3]@ == "net_driver"@);
    reveal_with_fuel(scalar_field_of, 6);
}

} // verus!
