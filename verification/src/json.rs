//! JSON documents.
use vstd::prelude::*;

use crate::text;

verus! {

/// A JSON value. Numbers are kept as `serde_json::Number` writes them.
#[derive(Debug)]
pub enum Json {
    Null,
    Bool(bool),
    Number(String),
    Text(String),
    List(Vec<Json>),
    Record(Vec<(String, Json)>),
}

/// The contents of a JSON value.
#[verifier::ext_equal]
pub enum JsonView {
    Null,
    Bool(bool),
    Number(Seq<char>),
    Text(Seq<char>),
    List(Seq<JsonView>),
    Record(Seq<(Seq<char>, JsonView)>),
}

impl Json {
    pub open spec fn contents(self) -> JsonView
        decreases self,
    {
        match self {
            Json::Null => JsonView::Null,
            Json::Bool(b) => JsonView::Bool(b),
            Json::Number(s) => JsonView::Number(s@),
            Json::Text(s) => JsonView::Text(s@),
            Json::List(v) => JsonView::List(
                Seq::new(
                    v@.len(),
                    |i: int|
                        if 0 <= i < v@.len() {
                            v@[i].contents()
                        } else {
                            JsonView::Null
                        },
                ),
            ),
            Json::Record(v) => JsonView::Record(
                Seq::new(
                    v@.len(),
                    |i: int|
                        if 0 <= i < v@.len() {
                            (v@[i].0@, v@[i].1.contents())
                        } else {
                            (Seq::empty(), JsonView::Null)
                        },
                ),
            ),
        }
    }
}

impl View for Json {
    type V = JsonView;

    open spec fn view(&self) -> JsonView {
        self.contents()
    }
}

/// The contents of what reading a text gives.
pub open spec fn outcome(r: Result<Json, String>) -> Result<JsonView, Seq<char>> {
    match r {
        Ok(v) => Ok(v@),
        Err(e) => Err(e@),
    }
}

/// The contents of an optional reference to a JSON value.
pub open spec fn opt_ref_contents(j: Option<&Json>) -> Option<JsonView> {
    match j {
        Some(v) => Some(v@),
        None => None,
    }
}

/// What `serde_json::from_str` makes of a text: the document, or what is wrong with
/// the text.
pub uninterp spec fn json_document(text: Seq<char>) -> Result<JsonView, Seq<char>>;

/// `serde_json::Value`, a parsed document.
#[verifier::external_type_specification]
#[verifier::external_body]
pub struct ExJsonValue(serde_json::Value);

/// What a `serde_json::Value` holds. A number is held as the text in which
/// `serde_json::Number` writes it, and a record's entries in the order in which
/// `serde_json::Map` gives them.
pub uninterp spec fn value_contents(value: serde_json::Value) -> JsonView;

/// A `serde_json::Value`, opened: what it is, and the values right inside it.
enum JsonPart {
    Null,
    Bool(bool),
    Number(String),
    Text(String),
    List(Vec<serde_json::Value>),
    Record(Vec<(String, serde_json::Value)>),
}

/// What an opened value holds.
spec fn part_contents(part: JsonPart) -> JsonView {
    match part {
        JsonPart::Null => JsonView::Null,
        JsonPart::Bool(b) => JsonView::Bool(b),
        JsonPart::Number(s) => JsonView::Number(s@),
        JsonPart::Text(s) => JsonView::Text(s@),
        JsonPart::List(v) => JsonView::List(
            Seq::new(v@.len(), |i: int| value_contents(v@[i])),
        ),
        JsonPart::Record(v) => JsonView::Record(
            Seq::new(v@.len(), |i: int| (v@[i].0@, value_contents(v@[i].1))),
        ),
    }
}

/// Tells the variants of `serde_json::Value` apart: the same contents, with the
/// outermost layer taken off.
#[verifier::external_body]
fn open_value(value: serde_json::Value) -> (part: JsonPart)
    ensures
        part_contents(part) == value_contents(value),
{
    match value {
        serde_json::Value::Null => JsonPart::Null,
        serde_json::Value::Bool(b) => JsonPart::Bool(b),
        serde_json::Value::Number(n) => JsonPart::Number(n.to_string()),
        serde_json::Value::String(s) => JsonPart::Text(s),
        serde_json::Value::Array(items) => JsonPart::List(items),
        serde_json::Value::Object(map) => JsonPart::Record(map.into_iter().collect()),
    }
}

/// `serde_json::from_str` into a `serde_json::Value`: the document, or the error's
/// own text, depends on the given text alone. Which texts are documents, what they
/// hold and what the error says is not said here.
#[verifier::external_body]
fn read_value(text: &str) -> (r: Result<serde_json::Value, String>)
    ensures
        match r {
            Ok(value) => json_document(text@) == Ok::<JsonView, Seq<char>>(value_contents(value)),
            Err(e) => json_document(text@) == Err::<JsonView, Seq<char>>(e@),
        },
{
    serde_json::from_str::<serde_json::Value>(text).map_err(|e| e.to_string())
}

/// A `serde_json::Value` as a JSON value.
fn json_of(value: serde_json::Value) -> (r: Json)
    ensures
        r@ == value_contents(value),
    decreases value_contents(value),
{
    let ghost whole = value_contents(value);
    match open_value(value) {
        JsonPart::Null => Json::Null,
        JsonPart::Bool(b) => Json::Bool(b),
        JsonPart::Number(s) => Json::Number(s),
        JsonPart::Text(s) => Json::Text(s),
        JsonPart::List(items) => {
            let ghost all = items@;
            let mut out: Vec<Json> = Vec::new();
            for item in it: items
                invariant
                    it.seq() == all,
                    whole == value_contents(value),
                    whole == part_contents(JsonPart::List(items)),
                    all == items@,
                    out@.len() == it.index(),
                    forall|k: int| 0 <= k < it.index() ==> (#[trigger] out@[k])@ == value_contents(all[k]),
            {
                assert(item == all[it.index() as int]);
                let ghost list = Seq::new(all.len(), |i: int| value_contents(all[i]));
                assert(whole == JsonView::List(list));
                assert(whole->List_0[it.index() as int] == value_contents(item));
                assert(decreases_to!(whole => whole->List_0[it.index() as int]));
                out.push(json_of(item));
            }
            let r = Json::List(out);
            assert(r@->List_0 =~= whole->List_0);
            r
        },
        JsonPart::Record(entries) => {
            let ghost all = entries@;
            let mut out: Vec<(String, Json)> = Vec::new();
            for entry in it: entries
                invariant
                    it.seq() == all,
                    whole == value_contents(value),
                    whole == part_contents(JsonPart::Record(entries)),
                    all == entries@,
                    out@.len() == it.index(),
                    forall|k: int|
                        0 <= k < it.index() ==> (#[trigger] out@[k]).0@ == all[k].0@ && out@[k].1@
                            == value_contents(all[k].1),
            {
                assert(entry == all[it.index() as int]);
                let ghost list = Seq::new(
                    all.len(),
                    |i: int| (all[i].0@, value_contents(all[i].1)),
                );
                assert(whole == JsonView::Record(list));
                assert(whole->Record_0[it.index() as int].1 == value_contents(entry.1));
                assert(decreases_to!(whole => whole->Record_0[it.index() as int].1));
                let (key, inner) = entry;
                out.push((key, json_of(inner)));
            }
            let r = Json::Record(out);
            assert(r@->Record_0 =~= whole->Record_0);
            r
        },
    }
}

/// The document that a text holds, or what is wrong with the text.
pub fn parse_json(text: &str) -> (r: Result<Json, String>)
    ensures
        outcome(r) == json_document(text@),
{
    match read_value(text) {
        Ok(value) => Ok(json_of(value)),
        Err(e) => Err(e),
    }
}

/// The value of the first entry, from entry `i` on, with the key.
pub open spec fn entry(entries: Seq<(Seq<char>, JsonView)>, key: Seq<char>, i: int) -> Option<
    JsonView,
>
    decreases entries.len() - i,
{
    if i < 0 || i >= entries.len() {
        None
    } else if entries[i].0 == key {
        Some(entries[i].1)
    } else {
        entry(entries, key, i + 1)
    }
}

impl JsonView {
    /// The record's entry with the key; nothing for what is no record.
    pub open spec fn field(self, key: Seq<char>) -> Option<JsonView> {
        match self {
            JsonView::Record(entries) => entry(entries, key, 0),
            _ => None,
        }
    }

    pub open spec fn as_text(self) -> Option<Seq<char>> {
        match self {
            JsonView::Text(s) => Some(s),
            _ => None,
        }
    }

    pub open spec fn as_list(self) -> Option<Seq<JsonView>> {
        match self {
            JsonView::List(s) => Some(s),
            _ => None,
        }
    }

    pub open spec fn as_record(self) -> Option<Seq<(Seq<char>, JsonView)>> {
        match self {
            JsonView::Record(s) => Some(s),
            _ => None,
        }
    }
}

/// The text of an optional value.
pub open spec fn opt_as_text(j: Option<JsonView>) -> Option<Seq<char>> {
    match j {
        Some(v) => v.as_text(),
        None => None,
    }
}

/// The contents of a list's items.
pub open spec fn list_contents(v: Seq<Json>) -> Seq<JsonView> {
    v.map_values(|x: Json| x@)
}

/// The contents of a record's entries.
pub open spec fn record_contents(v: Seq<(String, Json)>) -> Seq<(Seq<char>, JsonView)> {
    v.map_values(|x: (String, Json)| (x.0@, x.1@))
}

impl Json {
    pub proof fn lemma_contents(self)
        ensures
            self matches Json::List(v) ==> self@ == JsonView::List(list_contents(v@)),
            self matches Json::Record(v) ==> self@ == JsonView::Record(record_contents(v@)),
    {
        match self {
            Json::List(v) => {
                assert(self@->List_0 =~= list_contents(v@));
            },
            Json::Record(v) => {
                assert(self@->Record_0 =~= record_contents(v@));
            },
            _ => {},
        }
    }

    /// The record's entry with the key.
    pub fn field(&self, key: &str) -> (r: Option<&Json>)
        ensures
            opt_ref_contents(r) == self@.field(key@),
    {
        proof {
            self.lemma_contents();
        }
        match self {
            Json::Record(entries) => {
                let ghost all = record_contents(entries@);
                let mut i: usize = 0;
                while i < entries.len()
                    invariant
                        i <= entries.len(),
                        all == record_contents(entries@),
                        self@ == JsonView::Record(all),
                        entry(all, key@, 0) == entry(all, key@, i as int),
                    decreases entries.len() - i,
                {
                    if text::same_str(entries[i].0.as_str(), key) {
                        return Some(&entries[i].1);
                    }
                    i += 1;
                }
                None
            },
            _ => None,
        }
    }

    /// The text, where the value is one.
    pub fn text(&self) -> (r: Option<&String>)
        ensures
            match r {
                Some(s) => self@.as_text() == Some(s@),
                None => self@.as_text() is None,
            },
    {
        match self {
            Json::Text(s) => Some(s),
            _ => None,
        }
    }

    /// The items, where the value is a list.
    pub fn list(&self) -> (r: Option<&Vec<Json>>)
        ensures
            match r {
                Some(v) => self@.as_list() == Some(list_contents(v@)),
                None => self@.as_list() is None,
            },
    {
        proof {
            self.lemma_contents();
        }
        match self {
            Json::List(v) => Some(v),
            _ => None,
        }
    }

    /// The entries, where the value is a record.
    pub fn record(&self) -> (r: Option<&Vec<(String, Json)>>)
        ensures
            match r {
                Some(v) => self@.as_record() == Some(record_contents(v@)),
                None => self@.as_record() is None,
            },
    {
        proof {
            self.lemma_contents();
        }
        match self {
            Json::Record(v) => Some(v),
            _ => None,
        }
    }
}

} // verus!
