//! What monsters are called: an index from identifiers and paths to display names
//! and to the monster that is meant, filled from the game's data tables.
use vstd::hash_map::StringHashMap;
use vstd::prelude::*;

use crate::aliases;
use crate::identifier;
use crate::json;
use crate::json::Json;
use crate::text;
use crate::text::Class;

verus! {

pub const PRIORITY_OVERRIDE: u8 = 250;

pub const PRIORITY_ABYSS_STAGE: u8 = 230;

pub const PRIORITY_MANUAL: u8 = 220;

pub const PRIORITY_LACRIMOSA_COLLECTION: u8 = 210;

pub const PRIORITY_STATIC_TEXT: u8 = 180;

pub const PRIORITY_STATIC_COMMENT: u8 = 100;

/// A name, and how much its source counts.
pub struct NameEntry {
    pub name: String,
    pub priority: u8,
}

#[verifier::ext_equal]
pub struct NameView {
    pub name: Seq<char>,
    pub priority: u8,
}

impl View for NameEntry {
    type V = NameView;

    open spec fn view(&self) -> NameView {
        NameView { name: self.name@, priority: self.priority }
    }
}

/// The index.
pub struct ResourceIndex {
    names_by_path: StringHashMap<NameEntry>,
    canonical_targets_by_path: StringHashMap<String>,
}

/// The contents of an index.
#[verifier::ext_equal]
pub struct IndexView {
    pub names: Map<Seq<char>, NameView>,
    pub targets: Map<Seq<char>, Seq<char>>,
}

impl View for ResourceIndex {
    type V = IndexView;

    closed spec fn view(&self) -> IndexView {
        IndexView {
            names: self.names_by_path@.map_values(|e: NameEntry| e@),
            targets: self.canonical_targets_by_path@.map_values(|s: String| s@),
        }
    }
}

pub open spec fn empty_index() -> IndexView {
    IndexView { names: Map::empty(), targets: Map::empty() }
}

// ---------------------------------------------------------------------- lookup

/// The entry with the highest priority under one of the first `n` keys, the last
/// one of several.
pub open spec fn best_name(index: IndexView, keys: Seq<Seq<char>>, n: int) -> Option<NameView>
    decreases n,
{
    if n <= 0 {
        None
    } else {
        let before = best_name(index, keys, n - 1);
        if index.names.contains_key(keys[n - 1]) {
            let entry = index.names[keys[n - 1]];
            match before {
                Some(b) => if entry.priority >= b.priority {
                    Some(entry)
                } else {
                    before
                },
                None => Some(entry),
            }
        } else {
            before
        }
    }
}

/// The target under the first of the keys, from key `i` on, that has one.
pub open spec fn first_target(index: IndexView, keys: Seq<Seq<char>>, i: int) -> Option<Seq<char>>
    decreases keys.len() - i,
{
    if i < 0 || i >= keys.len() {
        None
    } else if index.targets.contains_key(keys[i]) {
        Some(index.targets[keys[i]])
    } else {
        first_target(index, keys, i + 1)
    }
}

pub open spec fn name_of_entry(entry: Option<NameView>) -> Option<Seq<char>> {
    match entry {
        Some(e) => Some(e.name),
        None => None,
    }
}

/// The name that the tables give to a path.
pub open spec fn resolved_name(index: IndexView, path: Seq<char>) -> Option<Seq<char>> {
    let keys = aliases::lookup_keys(path);
    name_of_entry(best_name(index, keys, keys.len() as int))
}

/// The name that the tables give to a gameplay effect.
pub open spec fn resolved_effect_name(index: IndexView, effect: Seq<char>) -> Option<Seq<char>> {
    let keys = aliases::effect_keys(effect);
    name_of_entry(best_name(index, keys, keys.len() as int))
}

/// The name that a path gives by itself: its last part without the marks of a
/// class, unless it is shorter than three bytes.
pub open spec fn fallback_name(path: Seq<char>) -> Option<Seq<char>> {
    let c = identifier::clean(path);
    let name = text::trim(
        text::trim_end_text(identifier::basename(c), "_C"@),
        Class::Only('\u{0}'),
    );
    if c.len() == 0 || text::utf8_len(name) < 3 {
        None
    } else {
        Some(name)
    }
}

/// The name under which a path is shown.
pub open spec fn display_name(index: IndexView, path: Seq<char>) -> Option<Seq<char>> {
    match resolved_name(index, path) {
        Some(name) => Some(name),
        None => fallback_name(path),
    }
}

/// The name that a path gives by itself.
pub fn fallback_name_from_path(path: &str) -> (r: Option<String>)
    ensures
        text::opt_text(r) == fallback_name(path@),
{
    let c = identifier::clean_identifier(&text::chars_of(path));
    if c.len() == 0 {
        return None;
    }
    let name = text::trimmed(
        &text::trimmed_end_text(&identifier::basename_of(&c), "_C"),
        Class::Only('\u{0}'),
    );
    if text::fits_utf8(&name, 2) {
        None
    } else {
        Some(text::string_of(&name))
    }
}

// ------------------------------------------------------------------- insertion

/// The index with the name under the key, unless the key is empty or has a name
/// that counts as much.
pub open spec fn with_key(index: IndexView, key: Seq<char>, name: Seq<char>, priority: u8) -> IndexView {
    let k = aliases::normalize(key);
    if k.len() == 0 || (index.names.contains_key(k) && index.names[k].priority >= priority) {
        index
    } else {
        IndexView {
            names: index.names.insert(k, NameView { name, priority }),
            targets: index.targets,
        }
    }
}

pub open spec fn with_keys(
    index: IndexView,
    keys: Seq<Seq<char>>,
    n: int,
    name: Seq<char>,
    priority: u8,
) -> IndexView
    decreases n,
{
    if n <= 0 {
        index
    } else {
        with_key(with_keys(index, keys, n - 1, name, priority), keys[n - 1], name, priority)
    }
}

/// The index with the name for the path.
pub open spec fn with_path(index: IndexView, path: Seq<char>, name: Seq<char>, priority: u8) -> IndexView {
    let trimmed = text::trim(name, Class::Space);
    let keys = aliases::lookup_keys(path);
    if trimmed.len() == 0 {
        index
    } else {
        with_keys(index, keys, keys.len() as int, trimmed, priority)
    }
}

/// The index with the name for the monster's identifier.
pub open spec fn with_monster_id(
    index: IndexView,
    id: Seq<char>,
    name: Seq<char>,
    priority: u8,
) -> IndexView {
    let trimmed = text::trim(name, Class::Space);
    let keys = aliases::aliases_of(identifier::clean(id));
    if trimmed.len() == 0 {
        index
    } else {
        with_keys(index, keys, keys.len() as int, trimmed, priority)
    }
}

pub open spec fn with_targets(
    index: IndexView,
    keys: Seq<Seq<char>>,
    n: int,
    target: Seq<char>,
) -> IndexView
    decreases n,
{
    if n <= 0 {
        index
    } else {
        let before = with_targets(index, keys, n - 1, target);
        if before.targets.contains_key(keys[n - 1]) {
            before
        } else {
            IndexView {
                names: before.names,
                targets: before.targets.insert(keys[n - 1], target),
            }
        }
    }
}

/// The index with the target that the alias means, where the alias means none yet.
pub open spec fn with_target(index: IndexView, alias: Seq<char>, target: Seq<char>) -> IndexView {
    let t = identifier::clean(target);
    let keys = aliases::lookup_keys(alias);
    if t.len() == 0 {
        index
    } else {
        with_targets(index, keys, keys.len() as int, t)
    }
}

impl ResourceIndex {
    pub fn new() -> (r: ResourceIndex)
        ensures
            r@ == empty_index(),
    {
        let r = ResourceIndex {
            names_by_path: StringHashMap::new(),
            canonical_targets_by_path: StringHashMap::new(),
        };
        assert(r@.names =~= Map::<Seq<char>, NameView>::empty());
        assert(r@.targets =~= Map::<Seq<char>, Seq<char>>::empty());
        r
    }

    fn name_for_keys(&self, keys: &Vec<Vec<char>>) -> (r: Option<String>)
        ensures
            text::opt_text(r) == name_of_entry(
                best_name(self@, text::views(keys@), keys@.len() as int),
            ),
    {
        let ghost all = text::views(keys@);
        let mut best: Option<(String, u8)> = None;
        let mut i: usize = 0;
        while i < keys.len()
            invariant
                i <= keys.len(),
                all == text::views(keys@),
                match best {
                    Some((name, priority)) => best_name(self@, all, i as int) == Some(
                        NameView { name: name@, priority },
                    ),
                    None => best_name(self@, all, i as int) is None,
                },
            decreases keys.len() - i,
        {
            let key = text::string_of(&keys[i]);
            assert(all[i as int] == key@);
            match self.names_by_path.get(key.as_str()) {
                Some(entry) => {
                    assert(self@.names.contains_key(key@));
                    assert(self@.names[key@] == entry@);
                    let better = match &best {
                        Some((_, priority)) => entry.priority >= *priority,
                        None => true,
                    };
                    if better {
                        best = Some((entry.name.clone(), entry.priority));
                    }
                },
                None => {
                    assert(!self@.names.contains_key(key@));
                },
            }
            i += 1;
        }
        match best {
            Some((name, _)) => Some(name),
            None => None,
        }
    }

    fn target_for_keys(&self, keys: &Vec<Vec<char>>) -> (r: Option<String>)
        ensures
            text::opt_text(r) == first_target(self@, text::views(keys@), 0),
    {
        let ghost all = text::views(keys@);
        let mut i: usize = 0;
        while i < keys.len()
            invariant
                i <= keys.len(),
                all == text::views(keys@),
                first_target(self@, all, 0) == first_target(self@, all, i as int),
            decreases keys.len() - i,
        {
            let key = text::string_of(&keys[i]);
            assert(all[i as int] == key@);
            match self.canonical_targets_by_path.get(key.as_str()) {
                Some(target) => {
                    assert(self@.targets.contains_key(key@));
                    assert(self@.targets[key@] == target@);
                    return Some(target.clone());
                },
                None => {
                    assert(!self@.targets.contains_key(key@));
                },
            }
            i += 1;
        }
        None
    }

    /// The name that the tables give to a path.
    pub fn resolved_name_for_path(&self, path: &str) -> (r: Option<String>)
        ensures
            text::opt_text(r) == resolved_name(self@, path@),
    {
        let keys = aliases::lookup_keys_for_path(&text::chars_of(path));
        self.name_for_keys(&keys)
    }

    /// The name under which a path is shown.
    pub fn display_name_for_path(&self, path: &str) -> (r: Option<String>)
        ensures
            text::opt_text(r) == display_name(self@, path@),
    {
        match self.resolved_name_for_path(path) {
            Some(name) => Some(name),
            None => fallback_name_from_path(path),
        }
    }

    /// The monster that a path means.
    pub fn canonical_target_path_for_path(&self, path: &str) -> (r: Option<String>)
        ensures
            text::opt_text(r) == first_target(self@, aliases::lookup_keys(path@), 0),
    {
        let keys = aliases::lookup_keys_for_path(&text::chars_of(path));
        self.target_for_keys(&keys)
    }

    /// The name that the tables give to a gameplay effect.
    pub fn resolved_name_for_gameplay_effect(&self, effect_name: &str) -> (r: Option<String>)
        ensures
            text::opt_text(r) == resolved_effect_name(self@, effect_name@),
    {
        let keys = aliases::lookup_keys_for_gameplay_effect(&text::chars_of(effect_name));
        self.name_for_keys(&keys)
    }

    /// The monster that a gameplay effect means.
    pub fn canonical_target_path_for_gameplay_effect(&self, effect_name: &str) -> (r: Option<
        String,
    >)
        ensures
            text::opt_text(r) == first_target(self@, aliases::effect_keys(effect_name@), 0),
    {
        let keys = aliases::lookup_keys_for_gameplay_effect(&text::chars_of(effect_name));
        self.target_for_keys(&keys)
    }

    fn insert_key(&mut self, key: &Vec<char>, name: &str, priority: u8)
        ensures
            final(self)@ == with_key(old(self)@, key@, name@, priority),
    {
        let k = aliases::normalize_key(key);
        if k.len() == 0 {
            return;
        }
        let key_text = text::string_of(&k);
        let ghost before = self@;
        match self.names_by_path.get(key_text.as_str()) {
            Some(existing) => {
                assert(before.names.contains_key(key_text@));
                assert(before.names[key_text@] == existing@);
                if existing.priority >= priority {
                    return;
                }
            },
            None => {
                assert(!before.names.contains_key(key_text@));
            },
        }
        self.names_by_path.insert(key_text, NameEntry { name: name.to_owned(), priority });
        assert(self@.names =~= before.names.insert(
            key_text@,
            NameView { name: name@, priority },
        ));
        assert(self@.targets =~= before.targets);
    }

    fn insert_keys(&mut self, keys: &Vec<Vec<char>>, name: &str, priority: u8)
        ensures
            final(self)@ == with_keys(
                old(self)@,
                text::views(keys@),
                keys@.len() as int,
                name@,
                priority,
            ),
    {
        let ghost start = self@;
        let ghost all = text::views(keys@);
        let mut i: usize = 0;
        while i < keys.len()
            invariant
                i <= keys.len(),
                all == text::views(keys@),
                self@ == with_keys(start, all, i as int, name@, priority),
            decreases keys.len() - i,
        {
            assert(all[i as int] == keys@[i as int]@);
            self.insert_key(&keys[i], name, priority);
            i += 1;
        }
    }

    /// Enters the name for the path.
    pub fn insert(&mut self, path: &str, name: &str, priority: u8)
        ensures
            final(self)@ == with_path(old(self)@, path@, name@, priority),
    {
        let trimmed = text::trimmed(&text::chars_of(name), Class::Space);
        if trimmed.len() == 0 {
            return;
        }
        let keys = aliases::lookup_keys_for_path(&text::chars_of(path));
        self.insert_keys(&keys, text::string_of(&trimmed).as_str(), priority);
    }

    /// Enters a name that overrides those of the tables.
    pub fn insert_test_target(&mut self, path: &str, name: &str)
        ensures
            final(self)@ == with_path(old(self)@, path@, name@, PRIORITY_OVERRIDE),
    {
        self.insert(path, name, PRIORITY_OVERRIDE);
    }

    #[verifier::spinoff_prover]
    #[verifier::rlimit(30)]
    fn insert_monster_id(&mut self, id: &str, name: &str, priority: u8)
        ensures
            final(self)@ == with_monster_id(old(self)@, id@, name@, priority),
    {
        let trimmed = text::trimmed(&text::chars_of(name), Class::Space);
        if trimmed.len() == 0 {
            return;
        }
        let mut keys: Vec<Vec<char>> = Vec::new();
        assert(text::views(keys@) =~= Seq::<Seq<char>>::empty());
        aliases::add_identifier_aliases(
            &identifier::clean_identifier(&text::chars_of(id)),
            &mut keys,
        );
        assert(text::views(keys@) =~= aliases::aliases_of(identifier::clean(id@)));
        self.insert_keys(&keys, text::string_of(&trimmed).as_str(), priority);
    }

    fn insert_canonical_target_alias(&mut self, alias: &str, target: &str)
        ensures
            final(self)@ == with_target(old(self)@, alias@, target@),
    {
        let t = identifier::clean_identifier(&text::chars_of(target));
        if t.len() == 0 {
            return;
        }
        let target_text = text::string_of(&t);
        let keys = aliases::lookup_keys_for_path(&text::chars_of(alias));
        let ghost start = self@;
        let ghost all = text::views(keys@);
        let mut i: usize = 0;
        while i < keys.len()
            invariant
                i <= keys.len(),
                all == text::views(keys@),
                target_text@ == t@,
                self@ == with_targets(start, all, i as int, t@),
            decreases keys.len() - i,
        {
            let key = text::string_of(&keys[i]);
            assert(all[i as int] == key@);
            let ghost before = self@;
            let known = self.canonical_targets_by_path.contains_key(key.as_str());
            assert(known == before.targets.contains_key(key@));
            if !known {
                self.canonical_targets_by_path.insert(key, target_text.clone());
                assert(self@.targets =~= before.targets.insert(key@, t@));
                assert(self@.names =~= before.names);
            }
            i += 1;
        }
    }

    /// How many keys have names, and how many mean monsters.
    pub fn sizes(&self) -> (r: (usize, usize))
        ensures
            r.0 == self@.names.len(),
            r.1 == self@.targets.len(),
    {
        broadcast use vstd::hash_map::axiom_string_hash_map_spec_len;

        assert(self@.names.dom() =~= self.names_by_path@.dom());
        assert(self@.targets.dom() =~= self.canonical_targets_by_path@.dom());
        (self.names_by_path.len(), self.canonical_targets_by_path.len())
    }
}

/// A name never gives way to one that counts less, or as much.
pub proof fn names_give_way_to_higher_priorities_only(
    index: IndexView,
    key: Seq<char>,
    name: Seq<char>,
    priority: u8,
    other: Seq<char>,
)
    requires
        index.names.contains_key(other),
    ensures
        with_key(index, key, name, priority).names.contains_key(other),
        with_key(index, key, name, priority).names[other].priority >= index.names[other].priority,
        with_key(index, key, name, priority).names[other] != index.names[other] ==> priority
            > index.names[other].priority,
{
}

// -------------------------------------------------------------------- the tables

/// The rows of a data table: the record under `Rows` or `rows`, in the document
/// itself or in the first item of a list.
pub open spec fn table_rows(document: json::JsonView) -> Option<Seq<(Seq<char>, json::JsonView)>> {
    match document {
        json::JsonView::List(items) => if items.len() == 0 {
            None
        } else {
            rows_field(items[0])
        },
        json::JsonView::Record(_) => rows_field(document),
        _ => None,
    }
}

pub open spec fn rows_field(value: json::JsonView) -> Option<Seq<(Seq<char>, json::JsonView)>> {
    let rows = match value.field("Rows"@) {
        Some(v) => Some(v),
        None => value.field("rows"@),
    };
    match rows {
        Some(v) => v.as_record(),
        None => None,
    }
}

fn find_rows_field(value: &Json) -> (r: Option<&Vec<(String, Json)>>)
    ensures
        match r {
            Some(v) => rows_field(value@) == Some(json::record_contents(v@)),
            None => rows_field(value@) is None,
        },
{
    let upper = value.field("Rows");
    let rows = match upper {
        Some(v) => Some(v),
        None => value.field("rows"),
    };
    match rows {
        Some(v) => v.record(),
        None => None,
    }
}

/// The rows of a data table.
pub fn data_table_rows(document: &Json) -> (r: Option<&Vec<(String, Json)>>)
    ensures
        match r {
            Some(v) => table_rows(document@) == Some(json::record_contents(v@)),
            None => table_rows(document@) is None,
        },
{
    proof {
        document.lemma_contents();
    }
    match document {
        Json::List(items) => {
            if items.len() == 0 {
                None
            } else {
                assert(json::list_contents(items@)[0] == items@[0]@);
                find_rows_field(&items[0])
            }
        },
        Json::Record(_) => find_rows_field(document),
        _ => None,
    }
}

/// The text without white space at its ends, unless it is empty or `None`.
pub open spec fn non_empty(value: Seq<char>) -> Option<Seq<char>> {
    let t = text::trim(value, Class::Space);
    if t.len() == 0 || t == "None"@ {
        None
    } else {
        Some(t)
    }
}

pub open spec fn opt_non_empty(value: Option<Seq<char>>) -> Option<Seq<char>> {
    match value {
        Some(v) => non_empty(v),
        None => None,
    }
}

/// The text field of a row, unless it is empty.
pub open spec fn text_field(row: json::JsonView, field: Seq<char>) -> Option<Seq<char>> {
    opt_non_empty(json::opt_as_text(row.field(field)))
}

pub fn non_empty_text(value: &str) -> (r: Option<String>)
    ensures
        text::opt_text(r) == non_empty(value@),
{
    let t = text::trimmed(&text::chars_of(value), Class::Space);
    if t.len() == 0 || text::same(&t, &text::chars_of("None")) {
        None
    } else {
        Some(text::string_of(&t))
    }
}

fn read_text_field(row: &Json, field: &str) -> (r: Option<String>)
    ensures
        text::opt_text(r) == text_field(row@, field@),
{
    match row.field(field) {
        Some(v) => match v.text() {
            Some(s) => non_empty_text(s.as_str()),
            None => None,
        },
        None => None,
    }
}

/// A text that may be localized: the text itself, or the first of the fields of a
/// localized text that is not empty.
pub open spec fn localized(value: Option<json::JsonView>) -> Option<Seq<char>> {
    match value {
        None => None,
        Some(v) => match v {
            json::JsonView::Text(s) => non_empty(s),
            _ => match text_field(v, "LocalizedString"@) {
                Some(s) => Some(s),
                None => match text_field(v, "SourceString"@) {
                    Some(s) => Some(s),
                    None => match text_field(v, "CultureInvariantString"@) {
                        Some(s) => Some(s),
                        None => text_field(v, "Key"@),
                    },
                },
            },
        },
    }
}

/// A text that may be localized.
pub fn localized_text(value: Option<&Json>) -> (r: Option<String>)
    ensures
        text::opt_text(r) == localized(json::opt_ref_contents(value)),
{
    let v = match value {
        Some(v) => v,
        None => {
            return None;
        },
    };
    match v {
        Json::Text(s) => non_empty_text(s.as_str()),
        _ => {
            if let Some(s) = read_text_field(v, "LocalizedString") {
                return Some(s);
            }
            if let Some(s) = read_text_field(v, "SourceString") {
                return Some(s);
            }
            if let Some(s) = read_text_field(v, "CultureInvariantString") {
                return Some(s);
            }
            read_text_field(v, "Key")
        },
    }
}

pub open spec fn is_cjk(c: char) -> bool {
    '\u{4e00}' <= c && c <= '\u{9fff}'
}

pub open spec fn has_cjk(s: Seq<char>) -> bool {
    exists|i: int| 0 <= i < s.len() && is_cjk(#[trigger] s[i])
}

fn contains_cjk(s: &Vec<char>) -> (r: bool)
    ensures
        r == has_cjk(s@),
{
    let mut i: usize = 0;
    while i < s.len()
        invariant
            i <= s.len(),
            forall|k: int| 0 <= k < i ==> !is_cjk(#[trigger] s@[k]),
        decreases s.len() - i,
    {
        if '\u{4e00}' <= s[i] && s[i] <= '\u{9fff}' {
            assert(is_cjk(s@[i as int]));
            return true;
        }
        i += 1;
    }
    false
}

/// What follows the last occurrence of the delimiter, where it holds Chinese text.
pub open spec fn behind_delimiter(s: Seq<char>, delimiter: Seq<char>) -> Seq<char> {
    match identifier::rsplit_once(s, delimiter) {
        Some((_, right)) => if has_cjk(right) {
            text::trim(right, Class::Space)
        } else {
            s
        },
        None => s,
    }
}

/// The text without repetitions of the prefix.
pub open spec fn behind_prefix(s: Seq<char>, prefix: Seq<char>) -> Seq<char> {
    text::trim(text::trim_start_text(s, prefix), Class::Space)
}

/// The name that a table's comment holds: its last part that is Chinese, without
/// the words that say where the monster occurs.
pub open spec fn name_in_comment(comment: Seq<char>) -> Option<Seq<char>> {
    let a = text::trim(comment, Class::Space);
    let b = behind_delimiter(
        behind_delimiter(
            behind_delimiter(behind_delimiter(behind_delimiter(a, "-"@), "－"@), "—"@),
            ":"@,
        ),
        "："@,
    );
    let c = behind_prefix(
        behind_prefix(
            behind_prefix(
                behind_prefix(
                    behind_prefix(behind_prefix(b, "角色试用副本"@), "试用关卡"@),
                    "自定义BOSS"@,
                ),
                "世界Boss"@,
            ),
            "异象委托"@,
        ),
        "副本"@,
    );
    let d = text::trim(c, Class::Dash);
    if has_cjk(a) && d.len() > 0 && has_cjk(d) {
        Some(d)
    } else {
        None
    }
}

fn cut_delimiter(s: Vec<char>, delimiter: &str) -> (out: Vec<char>)
    ensures
        out@ == behind_delimiter(s@, delimiter@),
{
    match identifier::split_last(&s, delimiter) {
        Some((_, right)) => if contains_cjk(&right) {
            text::trimmed(&right, Class::Space)
        } else {
            s
        },
        None => s,
    }
}

fn cut_prefix(s: Vec<char>, prefix: &str) -> (out: Vec<char>)
    ensures
        out@ == behind_prefix(s@, prefix@),
{
    text::trimmed(&text::trimmed_start_text(&s, prefix), Class::Space)
}

/// The name that a table's comment holds.
pub fn comment_name(comment: &str) -> (r: Option<String>)
    ensures
        text::opt_text(r) == name_in_comment(comment@),
{
    let mut s = text::trimmed(&text::chars_of(comment), Class::Space);
    if !contains_cjk(&s) {
        return None;
    }
    s = cut_delimiter(s, "-");
    s = cut_delimiter(s, "－");
    s = cut_delimiter(s, "—");
    s = cut_delimiter(s, ":");
    s = cut_delimiter(s, "：");
    s = cut_prefix(s, "角色试用副本");
    s = cut_prefix(s, "试用关卡");
    s = cut_prefix(s, "自定义BOSS");
    s = cut_prefix(s, "世界Boss");
    s = cut_prefix(s, "异象委托");
    s = cut_prefix(s, "副本");
    s = text::trimmed(&s, Class::Dash);
    if s.len() > 0 && contains_cjk(&s) {
        Some(text::string_of(&s))
    } else {
        None
    }
}

/// The parts from `from` up to `to`, with underscores between them.
pub open spec fn join_parts(parts: Seq<Seq<char>>, from: int, to: int) -> Seq<char> {
    text::join(parts.subrange(from, to), "_"@)
}

/// The stage and the monster that a row of the abyss packs names:
/// `Abyss_1_2_3_4_Boss_..`, where the stage is the first four words.
pub open spec fn pack_target(row_id: Seq<char>) -> Option<(Seq<char>, Seq<char>)> {
    let parts = text::split(row_id, Class::Only('_'));
    let n = parts.len() as int;
    if n < 8 || parts[0] != "Abyss"@ || !text::all_digits(parts[1]) || !text::all_digits(parts[2])
        || !text::all_digits(parts[3]) || !text::all_digits(parts[4]) {
        None
    } else {
        let kind = text::lower(parts[5]);
        let monster = join_parts(parts, 5, n);
        if (kind == "boss"@ || kind == "mon"@) && text::contains(text::lower(monster), "_bp"@) {
            Some((join_parts(parts, 0, 4), monster))
        } else {
            None
        }
    }
}

fn joined_parts(parts: &Vec<Vec<char>>, from: usize, to: usize) -> (out: String)
    requires
        from <= to <= parts.len(),
    ensures
        out@ == join_parts(text::views(parts@), from as int, to as int),
{
    let mut strings: Vec<String> = Vec::new();
    let mut i: usize = from;
    while i < to
        invariant
            from <= i <= to <= parts.len(),
            strings@.len() == i - from,
            forall|k: int| 0 <= k < i - from ==> (#[trigger] strings@[k])@ == parts@[from + k]@,
        decreases to - i,
    {
        strings.push(text::string_of(&parts[i]));
        i += 1;
    }
    assert(text::texts(strings@) =~= text::views(parts@).subrange(from as int, to as int));
    text::join_strings(&strings, "_")
}

/// The stage and the monster that a row of the abyss packs names.
pub fn abyss_pack_target(row_id: &str) -> (r: Option<(String, String)>)
    ensures
        match r {
            Some((stage, monster)) => pack_target(row_id@) == Some((stage@, monster@)),
            None => pack_target(row_id@) is None,
        },
{
    let parts = text::split_at_class(&text::chars_of(row_id), Class::Only('_'));
    let ghost all = text::views(parts@);
    let n: usize = parts.len();
    assert(all.len() == n);
    if n < 8 {
        return None;
    }
    assert(all[0] == parts@[0]@ && all[1] == parts@[1]@ && all[2] == parts@[2]@ && all[3]
        == parts@[3]@ && all[4] == parts@[4]@ && all[5] == parts@[5]@);
    if !text::same(&parts[0], &text::chars_of("Abyss")) || !identifier::only_digits(&parts[1])
        || !identifier::only_digits(&parts[2]) || !identifier::only_digits(&parts[3])
        || !identifier::only_digits(&parts[4]) {
        return None;
    }
    let kind = text::to_lower(&parts[5]);
    if !text::same(&kind, &text::chars_of("boss")) && !text::same(&kind, &text::chars_of("mon")) {
        return None;
    }
    let monster = joined_parts(&parts, 5, n);
    if !text::has(&text::lower_of(monster.as_str()), "_bp") {
        return None;
    }
    Some((joined_parts(&parts, 0, 4), monster))
}

// ------------------------------------------------------------- the monster manual

/// A row of the monster manual.
pub struct ManualMonsterRow {
    pub row_id: String,
    pub name: String,
    pub aliases: Vec<String>,
    pub drop_id: Option<String>,
}

#[verifier::ext_equal]
pub struct ManualView {
    pub row_id: Seq<char>,
    pub name: Seq<char>,
    pub aliases: Seq<Seq<char>>,
    pub drop_id: Option<Seq<char>>,
}

impl View for ManualMonsterRow {
    type V = ManualView;

    open spec fn view(&self) -> ManualView {
        ManualView {
            row_id: self.row_id@,
            name: self.name@,
            aliases: text::texts(self.aliases@),
            drop_id: text::opt_text(self.drop_id),
        }
    }
}

pub open spec fn manual_views(rows: Seq<ManualMonsterRow>) -> Seq<ManualView> {
    rows.map_values(|r: ManualMonsterRow| r@)
}

/// The other identifiers that a row of the manual gives to its monster.
pub open spec fn manual_aliases(row: json::JsonView) -> Seq<Seq<char>> {
    aliases::opt_seq(text_field(row, "WorldBossID"@)) + aliases::opt_seq(
        text_field(row, "CloneID"@),
    ) + aliases::opt_seq(text_field(row, "CloneEnterID"@)) + aliases::opt_seq(
        text_field(row, "MonsterTag"@),
    )
}

/// The named monsters of the first `n` rows of the manual.
pub open spec fn manual_rows(rows: Seq<(Seq<char>, json::JsonView)>, n: int) -> Seq<ManualView>
    decreases n,
{
    if n <= 0 {
        Seq::empty()
    } else {
        let before = manual_rows(rows, n - 1);
        let (row_id, row) = rows[n - 1];
        match localized(row.field("MonsterName"@)) {
            Some(name) => before.push(
                ManualView {
                    row_id,
                    name,
                    aliases: manual_aliases(row),
                    drop_id: text_field(row, "DropID"@),
                },
            ),
            None => before,
        }
    }
}

/// The keys of what a monster drops.
pub open spec fn drop_keys(row: ManualView) -> Seq<Seq<char>> {
    match row.drop_id {
        Some(id) => aliases::lookup_keys(id),
        None => Seq::empty(),
    }
}

/// How many of the first `n` monsters drop something with the key.
pub open spec fn drop_count(rows: Seq<ManualView>, n: int, key: Seq<char>) -> int
    decreases n,
{
    if n <= 0 {
        0
    } else {
        drop_count(rows, n - 1, key) + if drop_keys(rows[n - 1]).contains(key) {
            1int
        } else {
            0
        }
    }
}

/// No other monster drops anything with one of the keys.
pub open spec fn drops_alone(rows: Seq<ManualView>, drop_id: Seq<char>) -> bool {
    let keys = aliases::lookup_keys(drop_id);
    keys.len() > 0 && forall|i: int|
        0 <= i < keys.len() ==> drop_count(rows, rows.len() as int, #[trigger] keys[i]) == 1
}

pub open spec fn with_monster_ids(
    index: IndexView,
    ids: Seq<Seq<char>>,
    n: int,
    name: Seq<char>,
    priority: u8,
) -> IndexView
    decreases n,
{
    if n <= 0 {
        index
    } else {
        with_monster_id(
            with_monster_ids(index, ids, n - 1, name, priority),
            ids[n - 1],
            name,
            priority,
        )
    }
}

/// The index with a monster of the manual.
pub open spec fn with_manual_row(index: IndexView, rows: Seq<ManualView>, row: ManualView) -> IndexView {
    let named = with_monster_ids(
        with_monster_id(index, row.row_id, row.name, PRIORITY_MANUAL),
        row.aliases,
        row.aliases.len() as int,
        row.name,
        PRIORITY_MANUAL,
    );
    match row.drop_id {
        Some(drop_id) => if drops_alone(rows, drop_id) {
            with_target(
                with_monster_id(named, drop_id, row.name, PRIORITY_MANUAL),
                drop_id,
                row.row_id,
            )
        } else {
            named
        },
        None => named,
    }
}

pub open spec fn with_manual_rows(index: IndexView, rows: Seq<ManualView>, n: int) -> IndexView
    decreases n,
{
    if n <= 0 {
        index
    } else {
        with_manual_row(with_manual_rows(index, rows, n - 1), rows, rows[n - 1])
    }
}

/// The index with the monster manual.
pub open spec fn with_manual(index: IndexView, rows: Seq<(Seq<char>, json::JsonView)>) -> IndexView {
    let monsters = manual_rows(rows, rows.len() as int);
    with_manual_rows(index, monsters, monsters.len() as int)
}

fn push_some(list: &mut Vec<String>, value: Option<String>)
    ensures
        text::texts(final(list)@) == text::texts(old(list)@) + aliases::opt_seq(
            text::opt_text(value),
        ),
{
    let ghost before = text::texts(list@);
    match value {
        Some(v) => {
            list.push(v);
            assert(text::texts(list@) =~= before + seq![v@]);
        },
        None => {
            assert(before + aliases::opt_seq(None) =~= before);
        },
    }
}

fn read_manual_rows(rows: &Vec<(String, Json)>) -> (out: Vec<ManualMonsterRow>)
    ensures
        manual_views(out@) == manual_rows(json::record_contents(rows@), rows@.len() as int),
{
    let ghost all = json::record_contents(rows@);
    let mut out: Vec<ManualMonsterRow> = Vec::new();
    let mut i: usize = 0;
    assert(manual_views(out@) =~= manual_rows(all, 0));
    while i < rows.len()
        invariant
            i <= rows.len(),
            all == json::record_contents(rows@),
            manual_views(out@) == manual_rows(all, i as int),
        decreases rows.len() - i,
    {
        let row = &rows[i].1;
        assert(all[i as int] == (rows@[i as int].0@, row@));
        let ghost before = manual_views(out@);
        match localized_text(row.field("MonsterName")) {
            Some(name) => {
                let mut other: Vec<String> = Vec::new();
                assert(text::texts(other@) =~= Seq::<Seq<char>>::empty());
                push_some(&mut other, read_text_field(row, "WorldBossID"));
                push_some(&mut other, read_text_field(row, "CloneID"));
                push_some(&mut other, read_text_field(row, "CloneEnterID"));
                push_some(&mut other, read_text_field(row, "MonsterTag"));
                assert(text::texts(other@) =~= manual_aliases(row@));
                let drop_id = read_text_field(row, "DropID");
                let monster = ManualMonsterRow {
                    row_id: rows[i].0.clone(),
                    name,
                    aliases: other,
                    drop_id,
                };
                out.push(monster);
                assert(manual_views(out@) =~= before.push(monster@));
            },
            None => {},
        }
        i += 1;
    }
    out
}

/// The number under a key; zero where there is none.
spec fn number_at(m: Map<Seq<char>, usize>, key: Seq<char>) -> int {
    if m.contains_key(key) {
        m[key] as int
    } else {
        0
    }
}

proof fn lemma_drop_count_bound(rows: Seq<ManualView>, n: int, key: Seq<char>)
    requires
        0 <= n,
    ensures
        0 <= drop_count(rows, n, key) <= n,
    decreases n,
{
    if n > 0 {
        lemma_drop_count_bound(rows, n - 1, key);
    }
}

proof fn lemma_take_contains(keys: Seq<Seq<char>>, j: int, key: Seq<char>)
    requires
        0 <= j < keys.len(),
        keys.no_duplicates(),
    ensures
        keys.take(j + 1).contains(key) <==> keys.take(j).contains(key) || key == keys[j],
        !keys.take(j).contains(keys[j]),
{
    let longer = keys.take(j + 1);
    if longer.contains(key) {
        let w = choose|w: int| 0 <= w < longer.len() && longer[w] == key;
        if w < j {
            assert(keys.take(j)[w] == key);
        }
    }
    if keys.take(j).contains(key) {
        let w = choose|w: int| 0 <= w < j && keys.take(j)[w] == key;
        assert(keys.take(j + 1)[w] == key);
    }
    assert(keys.take(j + 1)[j] == keys[j]);
    if keys.take(j).contains(keys[j]) {
        let w = choose|w: int| 0 <= w < j && keys.take(j)[w] == keys[j];
        assert(keys[w] == keys[j]);
    }
}

/// How many monsters drop something with each key.
fn manual_drop_key_counts(rows: &Vec<ManualMonsterRow>) -> (counts: StringHashMap<usize>)
    ensures
        forall|key: Seq<char>|
            #[trigger] number_at(counts@, key) == drop_count(
                manual_views(rows@),
                rows@.len() as int,
                key,
            ),
{
    let ghost all = manual_views(rows@);
    let mut counts: StringHashMap<usize> = StringHashMap::new();
    let mut i: usize = 0;
    while i < rows.len()
        invariant
            i <= rows.len(),
            all == manual_views(rows@),
            forall|key: Seq<char>|
                #[trigger] number_at(counts@, key) == drop_count(all, i as int, key),
        decreases rows.len() - i,
    {
        let ghost start = counts@;
        let ghost row = all[i as int];
        assert(row == rows@[i as int]@);
        match &rows[i].drop_id {
            Some(drop_id) => {
                let keys = aliases::lookup_keys_for_path(&text::chars_of(drop_id.as_str()));
                let ghost wanted = text::views(keys@);
                proof {
                    reveal(aliases::lookup_keys);
                    let normal = aliases::normalized(aliases::path_aliases(drop_id@));
                    aliases::distinct_values_are_distinct(normal, normal.len() as int);
                }
                let mut j: usize = 0;
                assert(wanted.take(0) =~= Seq::empty());
                while j < keys.len()
                    invariant
                        j <= keys.len(),
                        i < rows.len(),
                        wanted == text::views(keys@),
                        wanted.no_duplicates(),
                        all == manual_views(rows@),
                        forall|key: Seq<char>|
                            #[trigger] number_at(start, key) == drop_count(all, i as int, key),
                        forall|key: Seq<char>|
                            #[trigger] number_at(counts@, key) == number_at(start, key)
                                + if wanted.take(j as int).contains(key) {
                                1int
                            } else {
                                0
                            },
                    decreases keys.len() - j,
                {
                    let key = text::string_of(&keys[j]);
                    assert(wanted[j as int] == key@);
                    let ghost before = counts@;
                    proof {
                        lemma_drop_count_bound(all, i as int, key@);
                        lemma_take_contains(wanted, j as int, key@);
                        assert(number_at(counts@, key@) == number_at(start, key@));
                        assert(number_at(start, key@) == drop_count(all, i as int, key@));
                    }
                    let known: usize = match counts.get(key.as_str()) {
                        Some(n) => *n,
                        None => 0,
                    };
                    assert(known == number_at(before, key@));
                    counts.insert(key, known + 1);
                    proof {
                        assert forall|k: Seq<char>| #[trigger] number_at(counts@, k) == number_at(
                            start,
                            k,
                        ) + if wanted.take(j + 1).contains(k) {
                            1int
                        } else {
                            0
                        } by {
                            lemma_take_contains(wanted, j as int, k);
                            assert(number_at(before, k) == number_at(start, k)
                                + if wanted.take(j as int).contains(k) {
                                1int
                            } else {
                                0
                            });
                        }
                    }
                    j += 1;
                }
                assert(wanted.take(j as int) =~= wanted);
                assert(drop_keys(row) == wanted);
                assert forall|key: Seq<char>| #[trigger]
                    number_at(counts@, key) == drop_count(all, i + 1, key) by {
                    assert(number_at(start, key) == drop_count(all, i as int, key));
                }
            },
            None => {
                assert(drop_keys(row) =~= Seq::empty());
                assert forall|key: Seq<char>| #[trigger]
                    number_at(counts@, key) == drop_count(all, i + 1, key) by {
                    assert(!drop_keys(row).contains(key));
                }
            },
        }
        i += 1;
    }
    counts
}

fn is_unique_manual_drop_id(
    drop_id: &str,
    counts: &StringHashMap<usize>,
    Ghost(rows): Ghost<Seq<ManualView>>,
) -> (r: bool)
    requires
        forall|key: Seq<char>|
            #[trigger] number_at(counts@, key) == drop_count(rows, rows.len() as int, key),
    ensures
        r == drops_alone(rows, drop_id@),
{
    let keys = aliases::lookup_keys_for_path(&text::chars_of(drop_id));
    let ghost wanted = text::views(keys@);
    if keys.len() == 0 {
        return false;
    }
    let mut i: usize = 0;
    while i < keys.len()
        invariant
            i <= keys.len(),
            wanted == text::views(keys@),
            wanted == aliases::lookup_keys(drop_id@),
            forall|key: Seq<char>|
                #[trigger] number_at(counts@, key) == drop_count(rows, rows.len() as int, key),
            forall|k: int|
                0 <= k < i ==> drop_count(rows, rows.len() as int, #[trigger] wanted[k]) == 1,
        decreases keys.len() - i,
    {
        let key = text::string_of(&keys[i]);
        assert(wanted[i as int] == key@);
        let known: usize = match counts.get(key.as_str()) {
            Some(n) => *n,
            None => 0,
        };
        assert(known == number_at(counts@, key@));
        if known != 1 {
            assert(drop_count(rows, rows.len() as int, wanted[i as int]) != 1);
            return false;
        }
        i += 1;
    }
    true
}

impl ResourceIndex {
    #[verifier::spinoff_prover]
    #[verifier::rlimit(30)]
    fn insert_monster_ids(&mut self, ids: &Vec<String>, name: &str, priority: u8)
        ensures
            final(self)@ == with_monster_ids(
                old(self)@,
                text::texts(ids@),
                ids@.len() as int,
                name@,
                priority,
            ),
    {
        let ghost start = self@;
        let ghost all = text::texts(ids@);
        let mut i: usize = 0;
        while i < ids.len()
            invariant
                i <= ids.len(),
                all == text::texts(ids@),
                self@ == with_monster_ids(start, all, i as int, name@, priority),
            decreases ids.len() - i,
        {
            assert(all[i as int] == ids@[i as int]@);
            self.insert_monster_id(ids[i].as_str(), name, priority);
            i += 1;
        }
    }

    /// Enters the monster manual.
    #[verifier::spinoff_prover]
    #[verifier::rlimit(30)]
    pub fn load_monster_manual(&mut self, rows: &Vec<(String, Json)>)
        ensures
            final(self)@ == with_manual(old(self)@, json::record_contents(rows@)),
    {
        let monsters = read_manual_rows(rows);
        let counts = manual_drop_key_counts(&monsters);
        let ghost all = manual_views(monsters@);
        let ghost start = self@;
        let mut i: usize = 0;
        while i < monsters.len()
            invariant
                i <= monsters.len(),
                all == manual_views(monsters@),
                forall|key: Seq<char>|
                    #[trigger] number_at(counts@, key) == drop_count(all, all.len() as int, key),
                self@ == with_manual_rows(start, all, i as int),
            decreases monsters.len() - i,
        {
            let row = &monsters[i];
            assert(all[i as int] == row@);
            self.insert_monster_id(row.row_id.as_str(), row.name.as_str(), PRIORITY_MANUAL);
            self.insert_monster_ids(&row.aliases, row.name.as_str(), PRIORITY_MANUAL);
            match &row.drop_id {
                Some(drop_id) => {
                    if is_unique_manual_drop_id(drop_id.as_str(), &counts, Ghost(all)) {
                        self.insert_monster_id(drop_id.as_str(), row.name.as_str(), PRIORITY_MANUAL);
                        self.insert_canonical_target_alias(drop_id.as_str(), row.row_id.as_str());
                    }
                },
                None => {},
            }
            i += 1;
        }
    }
}

// ---------------------------------------------------------------- the other tables

/// The index with the name of a row of the static tables, for the first `n` of
/// the row's tags.
pub open spec fn with_tags(index: IndexView, row_id: Seq<char>, tags: Seq<json::JsonView>, n: int) -> IndexView
    decreases n,
{
    if n <= 0 {
        index
    } else {
        let before = with_tags(index, row_id, tags, n - 1);
        match (tags[n - 1].as_text(), display_name(before, row_id)) {
            (Some(tag), Some(name)) => with_monster_id(before, tag, name, PRIORITY_STATIC_TEXT),
            _ => before,
        }
    }
}

/// The index with a row of the static tables.
pub open spec fn with_static_row(index: IndexView, row_id: Seq<char>, row: json::JsonView) -> IndexView {
    let named = match localized(row.field("TextName"@)) {
        Some(name) => with_monster_id(index, row_id, name, PRIORITY_STATIC_TEXT),
        None => match json::opt_as_text(row.field("Comment"@)) {
            Some(comment) => match name_in_comment(comment) {
                Some(name) => with_monster_id(index, row_id, name, PRIORITY_STATIC_COMMENT),
                None => index,
            },
            None => index,
        },
    };
    match row.field("Tags"@) {
        Some(v) => match v.as_list() {
            Some(tags) => with_tags(named, row_id, tags, tags.len() as int),
            None => named,
        },
        None => named,
    }
}

pub open spec fn with_static_rows(
    index: IndexView,
    rows: Seq<(Seq<char>, json::JsonView)>,
    n: int,
) -> IndexView
    decreases n,
{
    if n <= 0 {
        index
    } else {
        with_static_row(with_static_rows(index, rows, n - 1), rows[n - 1].0, rows[n - 1].1)
    }
}

/// The index with a row of the packs: the stage and the row mean the monster.
pub open spec fn with_pack_row(index: IndexView, row_id: Seq<char>) -> IndexView {
    match pack_target(row_id) {
        Some((stage, monster)) => match display_name(index, monster) {
            Some(name) => with_target(
                with_target(
                    with_monster_id(
                        with_monster_id(index, stage, name, PRIORITY_ABYSS_STAGE),
                        row_id,
                        name,
                        PRIORITY_ABYSS_STAGE,
                    ),
                    stage,
                    monster,
                ),
                row_id,
                monster,
            ),
            None => index,
        },
        None => index,
    }
}

pub open spec fn with_pack_rows(
    index: IndexView,
    rows: Seq<(Seq<char>, json::JsonView)>,
    n: int,
) -> IndexView
    decreases n,
{
    if n <= 0 {
        index
    } else {
        with_pack_row(with_pack_rows(index, rows, n - 1), rows[n - 1].0)
    }
}

pub open spec fn opt_field(value: Option<json::JsonView>, field: Seq<char>) -> Option<json::JsonView> {
    match value {
        Some(v) => v.field(field),
        None => None,
    }
}

/// The path of the ability that a row of the collection tells of.
pub open spec fn ability_path(row: json::JsonView) -> Option<Seq<char>> {
    opt_non_empty(
        json::opt_as_text(
            opt_field(
                opt_field(
                    opt_field(row.field("StolenAbilityCollection"@), "AbilityCfg"@),
                    "AbilityClass"@,
                ),
                "AssetPathName"@,
            ),
        ),
    )
}

/// The path of the monster that a row of the collection tells of.
pub open spec fn avatar_path(row: json::JsonView) -> Option<Seq<char>> {
    opt_non_empty(
        json::opt_as_text(
            opt_field(
                opt_field(row.field("StolenAbilityCollection"@), "TargetAvatarClass"@),
                "AssetPathName"@,
            ),
        ),
    )
}

/// The index with the monsters that the ability's names name.
pub open spec fn with_ability_monsters(
    index: IndexView,
    monsters: Seq<Seq<char>>,
    n: int,
    name: Seq<char>,
    target: Option<Seq<char>>,
) -> IndexView
    decreases n,
{
    if n <= 0 {
        index
    } else {
        let named = with_monster_id(
            with_ability_monsters(index, monsters, n - 1, name, target),
            monsters[n - 1],
            name,
            PRIORITY_LACRIMOSA_COLLECTION,
        );
        match target {
            Some(t) => with_target(named, monsters[n - 1], t),
            None => named,
        }
    }
}

/// The index with the target of an ability.
pub open spec fn with_ability_target(
    index: IndexView,
    ability_id: Seq<char>,
    ability: Option<Seq<char>>,
    target: Option<Seq<char>>,
    name: Seq<char>,
) -> IndexView {
    match target {
        None => index,
        Some(t) => {
            let named = if resolved_name(index, t) is None {
                with_path(index, t, name, PRIORITY_LACRIMOSA_COLLECTION)
            } else {
                index
            };
            let meant = with_target(named, ability_id, t);
            match ability {
                Some(a) => with_target(meant, a, t),
                None => meant,
            }
        },
    }
}

/// The index with a row of the collection of abilities.
pub open spec fn with_collection_row(index: IndexView, row_id: Seq<char>, row: json::JsonView) -> IndexView {
    match localized(row.field("MonsterName"@)) {
        None => index,
        Some(table_name) => {
            let ability_id = match text_field(row, "AbilityId"@) {
                Some(id) => id,
                None => row_id,
            };
            let ability = ability_path(row);
            let target = avatar_path(row);
            let known = match target {
                Some(t) => resolved_name(index, t),
                None => None,
            };
            let name = match known {
                Some(n) => n,
                None => table_name,
            };
            let monsters = aliases::named_monsters(ability_id) + match ability {
                Some(a) => aliases::named_monsters(a),
                None => Seq::empty(),
            };
            with_ability_monsters(
                with_ability_target(
                    with_monster_id(index, ability_id, name, PRIORITY_LACRIMOSA_COLLECTION),
                    ability_id,
                    ability,
                    target,
                    name,
                ),
                monsters,
                monsters.len() as int,
                name,
                target,
            )
        },
    }
}

pub open spec fn with_collection_rows(
    index: IndexView,
    rows: Seq<(Seq<char>, json::JsonView)>,
    n: int,
) -> IndexView
    decreases n,
{
    if n <= 0 {
        index
    } else {
        with_collection_row(
            with_collection_rows(index, rows, n - 1),
            rows[n - 1].0,
            rows[n - 1].1,
        )
    }
}

fn nested_text(value: Option<&Json>) -> (r: Option<String>)
    ensures
        text::opt_text(r) == opt_non_empty(json::opt_as_text(json::opt_ref_contents(value))),
{
    match value {
        Some(v) => match v.text() {
            Some(s) => non_empty_text(s.as_str()),
            None => None,
        },
        None => None,
    }
}

fn nested_field<'a>(value: Option<&'a Json>, field: &str) -> (r: Option<&'a Json>)
    ensures
        json::opt_ref_contents(r) == opt_field(json::opt_ref_contents(value), field@),
{
    match value {
        Some(v) => v.field(field),
        None => None,
    }
}

impl ResourceIndex {
    #[verifier::spinoff_prover]
    #[verifier::rlimit(30)]
    fn insert_tags(&mut self, row_id: &str, tags: &Vec<Json>)
        ensures
            final(self)@ == with_tags(
                old(self)@,
                row_id@,
                json::list_contents(tags@),
                tags@.len() as int,
            ),
    {
        let ghost start = self@;
        let ghost all = json::list_contents(tags@);
        let mut i: usize = 0;
        while i < tags.len()
            invariant
                i <= tags.len(),
                all == json::list_contents(tags@),
                self@ == with_tags(start, row_id@, all, i as int),
            decreases tags.len() - i,
        {
            assert(all[i as int] == tags@[i as int]@);
            if let Some(tag) = tags[i].text() {
                if let Some(name) = self.display_name_for_path(row_id) {
                    self.insert_monster_id(tag.as_str(), name.as_str(), PRIORITY_STATIC_TEXT);
                }
            }
            i += 1;
        }
    }

    /// Enters a table of the monsters' static data.
    #[verifier::spinoff_prover]
    #[verifier::rlimit(30)]
    pub fn load_monster_static(&mut self, rows: &Vec<(String, Json)>)
        ensures
            final(self)@ == with_static_rows(
                old(self)@,
                json::record_contents(rows@),
                rows@.len() as int,
            ),
    {
        let ghost start = self@;
        let ghost all = json::record_contents(rows@);
        let mut i: usize = 0;
        while i < rows.len()
            invariant
                i <= rows.len(),
                all == json::record_contents(rows@),
                self@ == with_static_rows(start, all, i as int),
            decreases rows.len() - i,
        {
            let row_id = rows[i].0.as_str();
            let row = &rows[i].1;
            assert(all[i as int] == (row_id@, row@));
            match localized_text(row.field("TextName")) {
                Some(name) => {
                    self.insert_monster_id(row_id, name.as_str(), PRIORITY_STATIC_TEXT);
                },
                None => {
                    if let Some(v) = row.field("Comment") {
                        if let Some(comment) = v.text() {
                            if let Some(name) = comment_name(comment.as_str()) {
                                self.insert_monster_id(
                                    row_id,
                                    name.as_str(),
                                    PRIORITY_STATIC_COMMENT,
                                );
                            }
                        }
                    }
                },
            }
            if let Some(v) = row.field("Tags") {
                if let Some(tags) = v.list() {
                    self.insert_tags(row_id, tags);
                }
            }
            i += 1;
        }
    }

    /// Enters a table of the abyss packs.
    #[verifier::spinoff_prover]
    #[verifier::rlimit(30)]
    pub fn load_monster_pack(&mut self, rows: &Vec<(String, Json)>)
        ensures
            final(self)@ == with_pack_rows(
                old(self)@,
                json::record_contents(rows@),
                rows@.len() as int,
            ),
    {
        let ghost start = self@;
        let ghost all = json::record_contents(rows@);
        let mut i: usize = 0;
        while i < rows.len()
            invariant
                i <= rows.len(),
                all == json::record_contents(rows@),
                self@ == with_pack_rows(start, all, i as int),
            decreases rows.len() - i,
        {
            let row_id = rows[i].0.as_str();
            assert(all[i as int].0 == row_id@);
            if let Some((stage, monster)) = abyss_pack_target(row_id) {
                if let Some(name) = self.display_name_for_path(monster.as_str()) {
                    self.insert_monster_id(stage.as_str(), name.as_str(), PRIORITY_ABYSS_STAGE);
                    self.insert_monster_id(row_id, name.as_str(), PRIORITY_ABYSS_STAGE);
                    self.insert_canonical_target_alias(stage.as_str(), monster.as_str());
                    self.insert_canonical_target_alias(row_id, monster.as_str());
                }
            }
            i += 1;
        }
    }

    #[verifier::spinoff_prover]
    #[verifier::rlimit(30)]
    fn insert_ability_target(
        &mut self,
        ability_id: &str,
        ability: &Option<String>,
        target: &Option<String>,
        name: &str,
    )
        ensures
            final(self)@ == with_ability_target(
                old(self)@,
                ability_id@,
                text::opt_text(*ability),
                text::opt_text(*target),
                name@,
            ),
    {
        if let Some(t) = target {
            if self.resolved_name_for_path(t.as_str()).is_none() {
                self.insert(t.as_str(), name, PRIORITY_LACRIMOSA_COLLECTION);
            }
            self.insert_canonical_target_alias(ability_id, t.as_str());
            if let Some(a) = ability {
                self.insert_canonical_target_alias(a.as_str(), t.as_str());
            }
        }
    }

    #[verifier::spinoff_prover]
    #[verifier::rlimit(30)]
    fn insert_ability_monsters(
        &mut self,
        monsters: &Vec<Vec<char>>,
        name: &str,
        target: &Option<String>,
    )
        ensures
            final(self)@ == with_ability_monsters(
                old(self)@,
                text::views(monsters@),
                monsters@.len() as int,
                name@,
                text::opt_text(*target),
            ),
    {
        let ghost start = self@;
        let ghost all = text::views(monsters@);
        let mut i: usize = 0;
        while i < monsters.len()
            invariant
                i <= monsters.len(),
                all == text::views(monsters@),
                self@ == with_ability_monsters(start, all, i as int, name@, text::opt_text(*target)),
            decreases monsters.len() - i,
        {
            let monster = text::string_of(&monsters[i]);
            assert(all[i as int] == monster@);
            self.insert_monster_id(monster.as_str(), name, PRIORITY_LACRIMOSA_COLLECTION);
            if let Some(t) = target {
                self.insert_canonical_target_alias(monster.as_str(), t.as_str());
            }
            i += 1;
        }
    }

    #[verifier::spinoff_prover]
    #[verifier::rlimit(30)]
    fn load_collection_row(&mut self, row_id: &str, row: &Json)
        ensures
            final(self)@ == with_collection_row(old(self)@, row_id@, row@),
    {
        let table_name = match localized_text(row.field("MonsterName")) {
            Some(name) => name,
            None => {
                return;
            },
        };
        let ability_id = match read_text_field(row, "AbilityId") {
            Some(id) => id,
            None => row_id.to_owned(),
        };
        let collection = row.field("StolenAbilityCollection");
        let ability = nested_text(
            nested_field(
                nested_field(nested_field(collection, "AbilityCfg"), "AbilityClass"),
                "AssetPathName",
            ),
        );
        let target = nested_text(
            nested_field(nested_field(collection, "TargetAvatarClass"), "AssetPathName"),
        );
        let known = match &target {
            Some(t) => self.resolved_name_for_path(t.as_str()),
            None => None,
        };
        let name = match known {
            Some(n) => n,
            None => table_name,
        };
        self.insert_monster_id(ability_id.as_str(), name.as_str(), PRIORITY_LACRIMOSA_COLLECTION);
        self.insert_ability_target(ability_id.as_str(), &ability, &target, name.as_str());
        let mut monsters = aliases::monster_namespace_aliases(&text::chars_of(ability_id.as_str()));
        let ghost own = text::views(monsters@);
        let mut more = match &ability {
            Some(a) => aliases::monster_namespace_aliases(&text::chars_of(a.as_str())),
            None => Vec::new(),
        };
        let ghost tail = text::views(more@);
        assert(text::opt_text(ability) is None ==> tail =~= Seq::empty());
        monsters.append(&mut more);
        assert(text::views(monsters@) =~= own + tail);
        self.insert_ability_monsters(&monsters, name.as_str(), &target);
    }

    /// Enters a table of the collection of abilities.
    #[verifier::spinoff_prover]
    #[verifier::rlimit(30)]
    pub fn load_lacrimosa_collection(&mut self, rows: &Vec<(String, Json)>)
        ensures
            final(self)@ == with_collection_rows(
                old(self)@,
                json::record_contents(rows@),
                rows@.len() as int,
            ),
    {
        let ghost start = self@;
        let ghost all = json::record_contents(rows@);
        let mut i: usize = 0;
        while i < rows.len()
            invariant
                i <= rows.len(),
                all == json::record_contents(rows@),
                self@ == with_collection_rows(start, all, i as int),
            decreases rows.len() - i,
        {
            assert(all[i as int] == (rows@[i as int].0@, rows@[i as int].1@));
            self.load_collection_row(rows[i].0.as_str(), &rows[i].1);
            i += 1;
        }
    }
}

// -------------------------------------------------------------- names given by hand

/// A row of a list of names given by hand.
pub struct TargetRow {
    pub class_path: String,
    pub object_path: String,
    pub path: String,
    pub name: String,
    pub display_name: String,
}

/// Names given by hand: paths with names, or rows.
pub enum TargetDocument {
    Pairs(Vec<(String, String)>),
    List(Vec<TargetRow>),
}

pub open spec fn is_blank(s: Seq<char>) -> bool {
    text::trim(s, Class::Space).len() == 0
}

/// The first of the three that is not blank.
pub open spec fn first_of(a: Seq<char>, b: Seq<char>, c: Seq<char>) -> Seq<char> {
    if !is_blank(a) {
        a
    } else if !is_blank(b) {
        b
    } else if !is_blank(c) {
        c
    } else {
        Seq::empty()
    }
}

pub open spec fn with_pairs(index: IndexView, pairs: Seq<(String, String)>, n: int) -> IndexView
    decreases n,
{
    if n <= 0 {
        index
    } else {
        with_path(
            with_pairs(index, pairs, n - 1),
            pairs[n - 1].0@,
            pairs[n - 1].1@,
            PRIORITY_OVERRIDE,
        )
    }
}

pub open spec fn with_rows(index: IndexView, rows: Seq<TargetRow>, n: int) -> IndexView
    decreases n,
{
    if n <= 0 {
        index
    } else {
        let row = rows[n - 1];
        with_path(
            with_rows(index, rows, n - 1),
            first_of(row.path@, row.class_path@, row.object_path@),
            first_of(row.display_name@, row.name@, Seq::empty()),
            PRIORITY_OVERRIDE,
        )
    }
}

/// The index with names given by hand, in their order.
pub open spec fn with_document(index: IndexView, document: TargetDocument) -> IndexView {
    match document {
        TargetDocument::Pairs(pairs) => with_pairs(index, pairs@, pairs@.len() as int),
        TargetDocument::List(rows) => with_rows(index, rows@, rows@.len() as int),
    }
}

fn blank(s: &str) -> (r: bool)
    ensures
        r == is_blank(s@),
{
    text::trimmed(&text::chars_of(s), Class::Space).len() == 0
}

fn first_non_empty(a: &str, b: &str, c: &str) -> (out: String)
    ensures
        out@ == first_of(a@, b@, c@),
{
    if !blank(a) {
        a.to_owned()
    } else if !blank(b) {
        b.to_owned()
    } else if !blank(c) {
        c.to_owned()
    } else {
        String::new()
    }
}

impl ResourceIndex {
    /// Enters names given by hand.
    #[verifier::spinoff_prover]
    #[verifier::rlimit(30)]
    pub fn load_target_document(&mut self, document: &TargetDocument)
        ensures
            final(self)@ == with_document(old(self)@, *document),
    {
        let ghost start = self@;
        match document {
            TargetDocument::Pairs(pairs) => {
                let mut i: usize = 0;
                while i < pairs.len()
                    invariant
                        i <= pairs.len(),
                        self@ == with_pairs(start, pairs@, i as int),
                    decreases pairs.len() - i,
                {
                    self.insert(pairs[i].0.as_str(), pairs[i].1.as_str(), PRIORITY_OVERRIDE);
                    i += 1;
                }
            },
            TargetDocument::List(rows) => {
                let mut i: usize = 0;
                while i < rows.len()
                    invariant
                        i <= rows.len(),
                        self@ == with_rows(start, rows@, i as int),
                    decreases rows.len() - i,
                {
                    let row = &rows[i];
                    let path = first_non_empty(
                        row.path.as_str(),
                        row.class_path.as_str(),
                        row.object_path.as_str(),
                    );
                    let name = first_non_empty(row.display_name.as_str(), row.name.as_str(), "");
                    proof {
                        reveal_strlit("");
                        assert(""@ =~= Seq::<char>::empty());
                    }
                    self.insert(path.as_str(), name.as_str(), PRIORITY_OVERRIDE);
                    i += 1;
                }
            },
        }
    }
}

// ------------------------------------------------------------------- loading it all

/// The kinds of data tables.
#[derive(Clone, Copy, Debug, PartialEq, Eq, Structural)]
pub enum TableKind {
    Manual,
    Static,
    Pack,
    Collection,
}

/// A data table that was found: its path, and its text or why it cannot be read.
pub struct TableSource {
    pub path: String,
    pub text: Result<String, String>,
}

/// Why names given by hand cannot be used.
pub enum TargetFailure {
    Unreadable(String),
    Unsupported(String),
}

/// A file of names given by hand: where it was found, its path and its contents or
/// why there are none.
pub struct TargetSource {
    pub found: Option<(String, Result<TargetDocument, TargetFailure>)>,
}

/// Everything that the index is filled from.
pub struct ResourceSources {
    pub manual: Vec<TableSource>,
    pub monster_static: Vec<TableSource>,
    pub pack: Vec<TableSource>,
    pub collection: Vec<TableSource>,
    pub targets: Vec<TargetSource>,
}

/// The index so far, and what was found wrong.
#[verifier::ext_equal]
pub struct Loading {
    pub index: IndexView,
    pub warnings: Seq<Seq<char>>,
}

pub open spec fn read_warning(path: Seq<char>, error: Seq<char>) -> Seq<char> {
    "target resource "@ + path + " read failed: "@ + error
}

pub open spec fn json_warning(path: Seq<char>, error: Seq<char>) -> Seq<char> {
    "target resource "@ + path + " has unsupported JSON structure: "@ + error
}

pub open spec fn rows_warning(path: Seq<char>) -> Seq<char> {
    "target resource "@ + path + " has no DataTable Rows object"@
}

/// The index with a table of the kind.
pub open spec fn with_table(
    index: IndexView,
    kind: TableKind,
    rows: Seq<(Seq<char>, json::JsonView)>,
) -> IndexView {
    match kind {
        TableKind::Manual => with_manual(index, rows),
        TableKind::Static => with_static_rows(index, rows, rows.len() as int),
        TableKind::Pack => with_pack_rows(index, rows, rows.len() as int),
        TableKind::Collection => with_collection_rows(index, rows, rows.len() as int),
    }
}

/// A table is entered, or a warning says why not.
pub open spec fn load_table(state: Loading, kind: TableKind, source: TableSource) -> Loading {
    match source.text {
        Err(error) => Loading {
            index: state.index,
            warnings: state.warnings.push(read_warning(source.path@, error@)),
        },
        Ok(content) => match json::json_document(content@) {
            Err(error) => Loading {
                index: state.index,
                warnings: state.warnings.push(json_warning(source.path@, error)),
            },
            Ok(document) => match table_rows(document) {
                None => Loading {
                    index: state.index,
                    warnings: state.warnings.push(rows_warning(source.path@)),
                },
                Some(rows) => Loading {
                    index: with_table(state.index, kind, rows),
                    warnings: state.warnings,
                },
            },
        },
    }
}

pub open spec fn load_tables(state: Loading, kind: TableKind, sources: Seq<TableSource>, n: int) -> Loading
    decreases n,
{
    if n <= 0 {
        state
    } else {
        load_table(load_tables(state, kind, sources, n - 1), kind, sources[n - 1])
    }
}

/// Names given by hand are entered, or a warning says why not. A file that was not
/// found adds nothing.
pub open spec fn load_target(state: Loading, source: TargetSource) -> Loading {
    match source.found {
        None => state,
        Some((path, outcome)) => match outcome {
            Ok(document) => Loading {
                index: with_document(state.index, document),
                warnings: state.warnings,
            },
            Err(TargetFailure::Unreadable(error)) => Loading {
                index: state.index,
                warnings: state.warnings.push(read_warning(path@, error@)),
            },
            Err(TargetFailure::Unsupported(error)) => Loading {
                index: state.index,
                warnings: state.warnings.push(json_warning(path@, error@)),
            },
        },
    }
}

pub open spec fn load_targets(state: Loading, sources: Seq<TargetSource>, n: int) -> Loading
    decreases n,
{
    if n <= 0 {
        state
    } else {
        load_target(load_targets(state, sources, n - 1), sources[n - 1])
    }
}

/// The index and the warnings after the tables and then the names given by hand have
/// been loaded.
pub open spec fn load_sources(warnings: Seq<Seq<char>>, sources: ResourceSources) -> Loading {
    let a = load_tables(
        Loading { index: empty_index(), warnings },
        TableKind::Manual,
        sources.manual@,
        sources.manual@.len() as int,
    );
    let b = load_tables(
        a,
        TableKind::Static,
        sources.monster_static@,
        sources.monster_static@.len() as int,
    );
    let c = load_tables(b, TableKind::Pack, sources.pack@, sources.pack@.len() as int);
    let d = load_tables(
        c,
        TableKind::Collection,
        sources.collection@,
        sources.collection@.len() as int,
    );
    load_targets(d, sources.targets@, sources.targets@.len() as int)
}

/// No table and no file of names was found.
pub open spec fn nothing_found(sources: ResourceSources) -> bool {
    &&& sources.manual@.len() == 0
    &&& sources.monster_static@.len() == 0
    &&& sources.pack@.len() == 0
    &&& sources.collection@.len() == 0
    &&& forall|k: int|
        0 <= k < sources.targets@.len() ==> (#[trigger] sources.targets@[k]).found is None
}

/// The index and the warnings after everything has been loaded. Where anything was
/// found, a last line tells how much.
pub open spec fn load_all(warnings: Seq<Seq<char>>, sources: ResourceSources) -> Loading {
    let loaded = load_sources(warnings, sources);
    if nothing_found(sources) {
        loaded
    } else {
        Loading {
            index: loaded.index,
            warnings: loaded.warnings.push(
                summary_text(
                    loaded.index,
                    (loaded.warnings.len() - warnings.len()) as nat,
                ),
            ),
        }
    }
}

/// What is told of a loaded index.
pub open spec fn summary_text(index: IndexView, warnings_added: nat) -> Seq<char> {
    "target resource index loaded: names_by_path="@ + text::dec(index.names.len())
        + " canonical_targets_by_path="@ + text::dec(index.targets.len()) + " warnings_added="@
        + text::dec(warnings_added)
}

fn push_warning(warnings: &mut Vec<String>, warning: String)
    ensures
        text::texts(final(warnings)@) == text::texts(old(warnings)@).push(warning@),
        final(warnings)@.len() == old(warnings)@.len() + 1,
{
    let ghost before = text::texts(warnings@);
    warnings.push(warning);
    assert(text::texts(warnings@) =~= before.push(warning@));
}

fn four(a: &str, b: &str, c: &str, d: &str) -> (out: String)
    ensures
        out@ == a@ + b@ + c@ + d@,
{
    let mut out = text::concat3(a, b, c);
    out.append(d);
    out
}

/// Whether any table or any file of names was found.
fn found_any(sources: &ResourceSources) -> (r: bool)
    ensures
        r == !nothing_found(*sources),
{
    if sources.manual.len() > 0 || sources.monster_static.len() > 0 || sources.pack.len() > 0
        || sources.collection.len() > 0 {
        return true;
    }
    let mut i: usize = 0;
    while i < sources.targets.len()
        invariant
            i <= sources.targets.len(),
            forall|k: int| 0 <= k < i ==> (#[trigger] sources.targets@[k]).found is None,
        decreases sources.targets.len() - i,
    {
        if sources.targets[i].found.is_some() {
            assert(sources.targets@[i as int].found is Some);
            return true;
        }
        i += 1;
    }
    false
}

impl ResourceIndex {
    fn load_table(&mut self, kind: TableKind, source: &TableSource, warnings: &mut Vec<String>)
        ensures
            (Loading { index: final(self)@, warnings: text::texts(final(warnings)@) })
                == load_table(
                (Loading { index: old(self)@, warnings: text::texts(old(warnings)@) }),
                kind,
                *source,
            ),
            final(warnings)@.len() >= old(warnings)@.len(),
    {
        let content = match &source.text {
            Ok(content) => content,
            Err(error) => {
                push_warning(
                    warnings,
                    four(
                        "target resource ",
                        source.path.as_str(),
                        " read failed: ",
                        error.as_str(),
                    ),
                );
                return;
            },
        };
        let document = match json::parse_json(content.as_str()) {
            Ok(document) => document,
            Err(error) => {
                push_warning(
                    warnings,
                    four(
                        "target resource ",
                        source.path.as_str(),
                        " has unsupported JSON structure: ",
                        error.as_str(),
                    ),
                );
                return;
            },
        };
        match data_table_rows(&document) {
            None => {
                push_warning(
                    warnings,
                    text::concat3(
                        "target resource ",
                        source.path.as_str(),
                        " has no DataTable Rows object",
                    ),
                );
            },
            Some(rows) => match kind {
                TableKind::Manual => self.load_monster_manual(rows),
                TableKind::Static => self.load_monster_static(rows),
                TableKind::Pack => self.load_monster_pack(rows),
                TableKind::Collection => self.load_lacrimosa_collection(rows),
            },
        }
    }

    fn load_tables(&mut self, kind: TableKind, sources: &Vec<TableSource>, warnings: &mut Vec<String>)
        ensures
            (Loading { index: final(self)@, warnings: text::texts(final(warnings)@) })
                == load_tables(
                (Loading { index: old(self)@, warnings: text::texts(old(warnings)@) }),
                kind,
                sources@,
                sources@.len() as int,
            ),
            final(warnings)@.len() >= old(warnings)@.len(),
    {
        let ghost start = Loading { index: self@, warnings: text::texts(warnings@) };
        let mut i: usize = 0;
        while i < sources.len()
            invariant
                i <= sources.len(),
                (Loading { index: self@, warnings: text::texts(warnings@) }) == load_tables(
                    start,
                    kind,
                    sources@,
                    i as int,
                ),
                warnings@.len() >= old(warnings)@.len(),
            decreases sources.len() - i,
        {
            self.load_table(kind, &sources[i], warnings);
            i += 1;
        }
    }

    fn load_targets(&mut self, sources: &Vec<TargetSource>, warnings: &mut Vec<String>)
        ensures
            (Loading { index: final(self)@, warnings: text::texts(final(warnings)@) })
                == load_targets(
                (Loading { index: old(self)@, warnings: text::texts(old(warnings)@) }),
                sources@,
                sources@.len() as int,
            ),
            final(warnings)@.len() >= old(warnings)@.len(),
    {
        let ghost start = Loading { index: self@, warnings: text::texts(warnings@) };
        let mut i: usize = 0;
        while i < sources.len()
            invariant
                i <= sources.len(),
                (Loading { index: self@, warnings: text::texts(warnings@) }) == load_targets(
                    start,
                    sources@,
                    i as int,
                ),
                warnings@.len() >= old(warnings)@.len(),
            decreases sources.len() - i,
        {
            match &sources[i].found {
                None => {},
                Some((path, outcome)) => match outcome {
                    Ok(document) => self.load_target_document(document),
                    Err(TargetFailure::Unreadable(error)) => {
                        push_warning(
                            warnings,
                            four(
                                "target resource ",
                                path.as_str(),
                                " read failed: ",
                                error.as_str(),
                            ),
                        );
                    },
                    Err(TargetFailure::Unsupported(error)) => {
                        push_warning(
                            warnings,
                            four(
                                "target resource ",
                                path.as_str(),
                                " has unsupported JSON structure: ",
                                error.as_str(),
                            ),
                        );
                    },
                },
            }
            i += 1;
        }
    }

    /// The index of everything that was found. The warnings grow by what is wrong with
    /// files that are there and by a line on how much was loaded; what was not found is
    /// passed over.
    pub fn load_default_with_warnings(sources: &ResourceSources, warnings: &mut Vec<String>) -> (r:
        ResourceIndex)
        ensures
            (Loading { index: r@, warnings: text::texts(final(warnings)@) }) == load_all(
                text::texts(old(warnings)@),
                *sources,
            ),
    {
        let initial: usize = warnings.len();
        let mut index = ResourceIndex::new();
        index.load_tables(TableKind::Manual, &sources.manual, warnings);
        index.load_tables(TableKind::Static, &sources.monster_static, warnings);
        index.load_tables(TableKind::Pack, &sources.pack, warnings);
        index.load_tables(TableKind::Collection, &sources.collection, warnings);
        index.load_targets(&sources.targets, warnings);
        if found_any(sources) {
            let added: usize = warnings.len() - initial;
            push_warning(warnings, index.load_summary(added));
        }
        index
    }

    /// One line on how much was loaded, and how many warnings that gave.
    pub fn load_summary(&self, warnings_added: usize) -> (out: String)
        ensures
            out@ == summary_text(self@, warnings_added as nat),
    {
        let (names, targets) = self.sizes();
        let mut out = four(
            "target resource index loaded: names_by_path=",
            text::dec_string(names as u64).as_str(),
            " canonical_targets_by_path=",
            text::dec_string(targets as u64).as_str(),
        );
        out.append(" warnings_added=");
        out.append(text::dec_string(warnings_added as u64).as_str());
        out
    }

    /// The index of everything that was found.
    pub fn load_default(sources: &ResourceSources) -> (r: ResourceIndex)
        ensures
            r@ == load_all(Seq::empty(), *sources).index,
    {
        let mut warnings: Vec<String> = Vec::new();
        assert(text::texts(warnings@) =~= Seq::<Seq<char>>::empty());
        ResourceIndex::load_default_with_warnings(sources, &mut warnings)
    }
}

/// A table that reads as one.
pub open spec fn sound_table(source: TableSource) -> bool {
    source.text matches Ok(content) && (json::json_document(content@) matches Ok(document)
        && table_rows(document) is Some)
}

pub open spec fn sound_tables(sources: Seq<TableSource>) -> bool {
    forall|k: int| 0 <= k < sources.len() ==> sound_table(#[trigger] sources[k])
}

/// Names given by hand that were not found, or that can be used.
pub open spec fn sound_target(source: TargetSource) -> bool {
    match source.found {
        Some((_, outcome)) => outcome is Ok,
        None => true,
    }
}

/// Every file that was found can be used.
pub open spec fn sound_sources(sources: ResourceSources) -> bool {
    &&& sound_tables(sources.manual@)
    &&& sound_tables(sources.monster_static@)
    &&& sound_tables(sources.pack@)
    &&& sound_tables(sources.collection@)
    &&& forall|k: int| 0 <= k < sources.targets@.len() ==> sound_target(#[trigger] sources.targets@[k])
}

proof fn sound_tables_give_no_warnings(
    state: Loading,
    kind: TableKind,
    sources: Seq<TableSource>,
    n: int,
)
    requires
        sound_tables(sources),
        n <= sources.len(),
    ensures
        load_tables(state, kind, sources, n).warnings == state.warnings,
    decreases n,
{
    if n > 0 {
        sound_tables_give_no_warnings(state, kind, sources, n - 1);
        assert(sound_table(sources[n - 1]));
    }
}

proof fn sound_targets_give_no_warnings(state: Loading, sources: Seq<TargetSource>, n: int)
    requires
        forall|k: int| 0 <= k < sources.len() ==> sound_target(#[trigger] sources[k]),
        n <= sources.len(),
    ensures
        load_targets(state, sources, n).warnings == state.warnings,
    decreases n,
{
    if n > 0 {
        sound_targets_give_no_warnings(state, sources, n - 1);
        assert(sound_target(sources[n - 1]));
    }
}

/// Only files that are there and cannot be used give warnings: beside them stands no
/// more than the line on how much was loaded.
pub proof fn only_unusable_files_give_warnings(warnings: Seq<Seq<char>>, sources: ResourceSources)
    requires
        sound_sources(sources),
    ensures
        load_all(warnings, sources).warnings == if nothing_found(sources) {
            warnings
        } else {
            warnings.push(summary_text(load_all(warnings, sources).index, 0))
        },
{
    let a = load_tables(
        Loading { index: empty_index(), warnings },
        TableKind::Manual,
        sources.manual@,
        sources.manual@.len() as int,
    );
    let b = load_tables(
        a,
        TableKind::Static,
        sources.monster_static@,
        sources.monster_static@.len() as int,
    );
    let c = load_tables(b, TableKind::Pack, sources.pack@, sources.pack@.len() as int);
    let d = load_tables(
        c,
        TableKind::Collection,
        sources.collection@,
        sources.collection@.len() as int,
    );
    sound_tables_give_no_warnings(
        Loading { index: empty_index(), warnings },
        TableKind::Manual,
        sources.manual@,
        sources.manual@.len() as int,
    );
    sound_tables_give_no_warnings(
        a,
        TableKind::Static,
        sources.monster_static@,
        sources.monster_static@.len() as int,
    );
    sound_tables_give_no_warnings(b, TableKind::Pack, sources.pack@, sources.pack@.len() as int);
    sound_tables_give_no_warnings(
        c,
        TableKind::Collection,
        sources.collection@,
        sources.collection@.len() as int,
    );
    sound_targets_give_no_warnings(d, sources.targets@, sources.targets@.len() as int);
}

proof fn absent_targets_change_nothing(state: Loading, sources: Seq<TargetSource>, n: int)
    requires
        forall|k: int| 0 <= k < sources.len() ==> (#[trigger] sources[k]).found is None,
        n <= sources.len(),
    ensures
        load_targets(state, sources, n) == state,
    decreases n,
{
    if n > 0 {
        absent_targets_change_nothing(state, sources, n - 1);
        assert(sources[n - 1].found is None);
    }
}

proof fn an_empty_index_has_no_names(keys: Seq<Seq<char>>, n: int)
    ensures
        best_name(empty_index(), keys, n) is None,
    decreases n,
{
    if n > 0 {
        an_empty_index_has_no_names(keys, n - 1);
    }
}

proof fn an_empty_index_has_no_targets(keys: Seq<Seq<char>>, i: int)
    ensures
        first_target(empty_index(), keys, i) is None,
    decreases keys.len() - i,
{
    if 0 <= i < keys.len() {
        an_empty_index_has_no_targets(keys, i + 1);
    }
}

/// Where nothing is found the warnings stay as they were, and the index, which is
/// empty, gives no path a name or a monster.
pub proof fn absent_files_are_passed_over(
    warnings: Seq<Seq<char>>,
    sources: ResourceSources,
    path: Seq<char>,
)
    requires
        nothing_found(sources),
    ensures
        load_all(warnings, sources).warnings == warnings,
        load_all(warnings, sources).index == empty_index(),
        resolved_name(load_all(warnings, sources).index, path) is None,
        first_target(load_all(warnings, sources).index, aliases::lookup_keys(path), 0) is None,
{
    let keys = aliases::lookup_keys(path);
    absent_targets_change_nothing(
        Loading { index: empty_index(), warnings },
        sources.targets@,
        sources.targets@.len() as int,
    );
    an_empty_index_has_no_names(keys, keys.len() as int);
    an_empty_index_has_no_targets(keys, 0);
}

/// Of the names under the keys, the one that counts most is taken, and of those that
/// count as much, the last.
pub proof fn the_weightiest_name_counts(index: IndexView, keys: Seq<Seq<char>>, n: int)
    requires
        0 <= n <= keys.len(),
    ensures
        match best_name(index, keys, n) {
            Some(best) => exists|k: int|
                0 <= k < n && index.names.contains_key(#[trigger] keys[k])
                    && index.names[keys[k]] == best && (forall|j: int|
                    0 <= j < n && index.names.contains_key(#[trigger] keys[j])
                        ==> index.names[keys[j]].priority <= best.priority && (k < j
                        ==> index.names[keys[j]].priority < best.priority)),
            None => forall|k: int| 0 <= k < n ==> !index.names.contains_key(#[trigger] keys[k]),
        },
    decreases n,
{
    if n > 0 {
        the_weightiest_name_counts(index, keys, n - 1);
        let before = best_name(index, keys, n - 1);
        match best_name(index, keys, n) {
            Some(best) => {
                if index.names.contains_key(keys[n - 1]) && index.names[keys[n - 1]] == best && (
                before is None || best.priority >= before.unwrap().priority) {
                    assert(index.names.contains_key(keys[n - 1]));
                } else {
                    let k = choose|k: int|
                        0 <= k < n - 1 && index.names.contains_key(#[trigger] keys[k])
                            && index.names[keys[k]] == best && (forall|j: int|
                            0 <= j < n - 1 && index.names.contains_key(#[trigger] keys[j])
                                ==> index.names[keys[j]].priority <= best.priority && (k < j
                                ==> index.names[keys[j]].priority < best.priority));
                    assert(index.names.contains_key(keys[k]));
                }
            },
            None => {},
        }
    }
}

proof fn lemma_given_names(
    index: IndexView,
    keys: Seq<Seq<char>>,
    n: int,
    name: Seq<char>,
    priority: u8,
)
    requires
        0 <= n <= keys.len(),
        forall|i: int|
            0 <= i < keys.len() ==> (#[trigger] keys[i]).len() > 0 && aliases::normalize(keys[i])
                == keys[i] && (index.names.contains_key(keys[i])
                ==> index.names[keys[i]].priority < priority),
    ensures
        forall|i: int|
            0 <= i < n ==> with_keys(index, keys, n, name, priority).names.contains_key(
                #[trigger] keys[i],
            ) && with_keys(index, keys, n, name, priority).names[keys[i]] == (NameView {
                name,
                priority,
            }),
        forall|k: Seq<char>|
            with_keys(index, keys, n, name, priority).names.contains_key(k) ==> (
            index.names.contains_key(k) && index.names[k] == #[trigger] with_keys(
                index,
                keys,
                n,
                name,
                priority,
            ).names[k]) || with_keys(index, keys, n, name, priority).names[k] == (NameView {
                name,
                priority,
            }),
    decreases n,
{
    if n > 0 {
        lemma_given_names(index, keys, n - 1, name, priority);
        let before = with_keys(index, keys, n - 1, name, priority);
        let after = with_keys(index, keys, n, name, priority);
        let given = NameView { name, priority };
        let key = keys[n - 1];
        assert(key.len() > 0 && aliases::normalize(key) == key);
        if before.names.contains_key(key) {
            assert((index.names.contains_key(key) && index.names[key] == before.names[key])
                || before.names[key] == given);
        }
        assert(after.names.contains_key(key) && after.names[key] == given);
        assert forall|k: Seq<char>| k != key implies before.names.contains_key(k)
            == #[trigger] after.names.contains_key(k) && before.names[k] == after.names[k] by {}
        assert forall|i: int| 0 <= i < n implies after.names.contains_key(#[trigger] keys[i])
            && after.names[keys[i]] == given by {
            if keys[i] != key {
                assert(before.names.contains_key(keys[i]));
            }
        }
        assert forall|k: Seq<char>| after.names.contains_key(k) implies (index.names.contains_key(k)
            && index.names[k] == #[trigger] after.names[k]) || after.names[k] == given by {
            if k != key {
                assert(before.names.contains_key(k));
                assert(before.names[k] == after.names[k]);
            }
        }
    }
}

/// A path that was given a name has it, without the space around it, where nothing that
/// counts as much was known of it.
pub proof fn named_paths_have_their_name(
    index: IndexView,
    path: Seq<char>,
    name: Seq<char>,
    priority: u8,
)
    requires
        text::trim(name, Class::Space).len() > 0,
        aliases::lookup_keys(path).len() > 0,
        forall|i: int|
            0 <= i < aliases::lookup_keys(path).len() ==> (
            #[trigger] aliases::lookup_keys(path)[i]).len() > 0 && aliases::normalize(
                aliases::lookup_keys(path)[i],
            ) == aliases::lookup_keys(path)[i] && (index.names.contains_key(
                aliases::lookup_keys(path)[i],
            ) ==> index.names[aliases::lookup_keys(path)[i]].priority < priority),
    ensures
        resolved_name(with_path(index, path, name, priority), path) == Some(
            text::trim(name, Class::Space),
        ),
        display_name(with_path(index, path, name, priority), path) == Some(
            text::trim(name, Class::Space),
        ),
{
    let keys = aliases::lookup_keys(path);
    let n = keys.len() as int;
    let trimmed = text::trim(name, Class::Space);
    let after = with_path(index, path, name, priority);
    lemma_given_names(index, keys, n, trimmed, priority);
    the_weightiest_name_counts(after, keys, n);
    assert(after.names.contains_key(keys[0]));
}

/// A path keeps its name where one that counts less is given.
pub proof fn paths_keep_weightier_names(
    index: IndexView,
    key: Seq<char>,
    name: Seq<char>,
    priority: u8,
)
    requires
        index.names.contains_key(key),
        index.names[key].priority >= priority,
    ensures
        with_key(index, key, name, priority).names.contains_key(key),
        aliases::normalize(key) == key ==> with_key(index, key, name, priority) == index,
{
}

/// Every name is as it was, or counts as much as is said.
pub open spec fn named_with(before: IndexView, after: IndexView, weights: Set<int>) -> bool {
    forall|k: Seq<char>|
        after.names.contains_key(k) ==> (before.names.contains_key(k) && before.names[k]
            == after.names[k]) || weights.contains((#[trigger] after.names[k]).priority as int)
}

proof fn lemma_keys_weigh(
    index: IndexView,
    keys: Seq<Seq<char>>,
    n: int,
    name: Seq<char>,
    priority: u8,
    weights: Set<int>,
)
    requires
        weights.contains(priority as int),
    ensures
        named_with(index, with_keys(index, keys, n, name, priority), weights),
    decreases n,
{
    if n > 0 {
        lemma_keys_weigh(index, keys, n - 1, name, priority, weights);
    }
}

proof fn lemma_monster_weighs(
    index: IndexView,
    id: Seq<char>,
    name: Seq<char>,
    priority: u8,
    weights: Set<int>,
)
    requires
        weights.contains(priority as int),
    ensures
        named_with(index, with_monster_id(index, id, name, priority), weights),
        named_with(index, with_path(index, id, name, priority), weights),
{
    let keys = aliases::aliases_of(identifier::clean(id));
    lemma_keys_weigh(
        index,
        keys,
        keys.len() as int,
        text::trim(name, Class::Space),
        priority,
        weights,
    );
    let paths = aliases::lookup_keys(id);
    lemma_keys_weigh(
        index,
        paths,
        paths.len() as int,
        text::trim(name, Class::Space),
        priority,
        weights,
    );
}

proof fn lemma_targets_weigh_nothing(
    index: IndexView,
    keys: Seq<Seq<char>>,
    n: int,
    target: Seq<char>,
)
    ensures
        with_targets(index, keys, n, target).names == index.names,
    decreases n,
{
    if n > 0 {
        lemma_targets_weigh_nothing(index, keys, n - 1, target);
    }
}

proof fn lemma_target_weighs_nothing(index: IndexView, alias: Seq<char>, target: Seq<char>)
    ensures
        with_target(index, alias, target).names == index.names,
{
    let keys = aliases::lookup_keys(alias);
    lemma_targets_weigh_nothing(index, keys, keys.len() as int, identifier::clean(target));
}

proof fn lemma_ids_weigh(
    index: IndexView,
    ids: Seq<Seq<char>>,
    n: int,
    name: Seq<char>,
    priority: u8,
    weights: Set<int>,
)
    requires
        weights.contains(priority as int),
    ensures
        named_with(index, with_monster_ids(index, ids, n, name, priority), weights),
    decreases n,
{
    if n > 0 {
        lemma_ids_weigh(index, ids, n - 1, name, priority, weights);
        let before = with_monster_ids(index, ids, n - 1, name, priority);
        lemma_monster_weighs(before, ids[n - 1], name, priority, weights);
    }
}

proof fn lemma_manual_weighs(index: IndexView, rows: Seq<ManualView>, n: int)
    ensures
        named_with(index, with_manual_rows(index, rows, n), set![220int]),
    decreases n,
{
    if n > 0 {
        lemma_manual_weighs(index, rows, n - 1);
        let before = with_manual_rows(index, rows, n - 1);
        let row = rows[n - 1];
        let w = set![220int];
        let first = with_monster_id(before, row.row_id, row.name, PRIORITY_MANUAL);
        lemma_monster_weighs(before, row.row_id, row.name, PRIORITY_MANUAL, w);
        lemma_ids_weigh(
            first,
            row.aliases,
            row.aliases.len() as int,
            row.name,
            PRIORITY_MANUAL,
            w,
        );
        let named = with_monster_ids(
            first,
            row.aliases,
            row.aliases.len() as int,
            row.name,
            PRIORITY_MANUAL,
        );
        match row.drop_id {
            Some(id) => {
                lemma_monster_weighs(named, id, row.name, PRIORITY_MANUAL, w);
                lemma_target_weighs_nothing(
                    with_monster_id(named, id, row.name, PRIORITY_MANUAL),
                    id,
                    row.row_id,
                );
            },
            None => {},
        }
    }
}

proof fn lemma_tags_weigh(
    index: IndexView,
    row_id: Seq<char>,
    tags: Seq<json::JsonView>,
    n: int,
    weights: Set<int>,
)
    requires
        weights.contains(180),
    ensures
        named_with(index, with_tags(index, row_id, tags, n), weights),
    decreases n,
{
    if n > 0 {
        lemma_tags_weigh(index, row_id, tags, n - 1, weights);
        let before = with_tags(index, row_id, tags, n - 1);
        match (tags[n - 1].as_text(), display_name(before, row_id)) {
            (Some(tag), Some(name)) => {
                lemma_monster_weighs(before, tag, name, PRIORITY_STATIC_TEXT, weights);
            },
            _ => {},
        }
    }
}

proof fn lemma_static_weighs(index: IndexView, rows: Seq<(Seq<char>, json::JsonView)>, n: int)
    ensures
        named_with(index, with_static_rows(index, rows, n), set![100int, 180int]),
    decreases n,
{
    if n > 0 {
        lemma_static_weighs(index, rows, n - 1);
        let before = with_static_rows(index, rows, n - 1);
        let (row_id, row) = rows[n - 1];
        let w = set![100int, 180int];
        let named = match localized(row.field("TextName"@)) {
            Some(name) => with_monster_id(before, row_id, name, PRIORITY_STATIC_TEXT),
            None => match json::opt_as_text(row.field("Comment"@)) {
                Some(comment) => match name_in_comment(comment) {
                    Some(name) => with_monster_id(before, row_id, name, PRIORITY_STATIC_COMMENT),
                    None => before,
                },
                None => before,
            },
        };
        match localized(row.field("TextName"@)) {
            Some(name) => {
                lemma_monster_weighs(before, row_id, name, PRIORITY_STATIC_TEXT, w);
            },
            None => match json::opt_as_text(row.field("Comment"@)) {
                Some(comment) => match name_in_comment(comment) {
                    Some(name) => {
                        lemma_monster_weighs(before, row_id, name, PRIORITY_STATIC_COMMENT, w);
                    },
                    None => {},
                },
                None => {},
            },
        }
        assert(named_with(before, named, w));
        match row.field("Tags"@) {
            Some(v) => match v.as_list() {
                Some(tags) => {
                    lemma_tags_weigh(named, row_id, tags, tags.len() as int, w);
                },
                None => {},
            },
            None => {},
        }
    }
}

proof fn lemma_packs_weigh(index: IndexView, rows: Seq<(Seq<char>, json::JsonView)>, n: int)
    ensures
        named_with(index, with_pack_rows(index, rows, n), set![230int]),
    decreases n,
{
    if n > 0 {
        lemma_packs_weigh(index, rows, n - 1);
        let before = with_pack_rows(index, rows, n - 1);
        let row_id = rows[n - 1].0;
        let w = set![230int];
        match pack_target(row_id) {
            Some((stage, monster)) => match display_name(before, monster) {
                Some(name) => {
                    lemma_monster_weighs(before, stage, name, PRIORITY_ABYSS_STAGE, w);
                    let a = with_monster_id(before, stage, name, PRIORITY_ABYSS_STAGE);
                    lemma_monster_weighs(a, row_id, name, PRIORITY_ABYSS_STAGE, w);
                    let b = with_monster_id(a, row_id, name, PRIORITY_ABYSS_STAGE);
                    lemma_target_weighs_nothing(b, stage, monster);
                    lemma_target_weighs_nothing(with_target(b, stage, monster), row_id, monster);
                },
                None => {},
            },
            None => {},
        }
    }
}

proof fn lemma_abilities_weigh(
    index: IndexView,
    monsters: Seq<Seq<char>>,
    n: int,
    name: Seq<char>,
    target: Option<Seq<char>>,
)
    ensures
        named_with(index, with_ability_monsters(index, monsters, n, name, target), set![210int]),
    decreases n,
{
    if n > 0 {
        lemma_abilities_weigh(index, monsters, n - 1, name, target);
        let before = with_ability_monsters(index, monsters, n - 1, name, target);
        lemma_monster_weighs(
            before,
            monsters[n - 1],
            name,
            PRIORITY_LACRIMOSA_COLLECTION,
            set![210int],
        );
        match target {
            Some(t) => {
                lemma_target_weighs_nothing(
                    with_monster_id(before, monsters[n - 1], name, PRIORITY_LACRIMOSA_COLLECTION),
                    monsters[n - 1],
                    t,
                );
            },
            None => {},
        }
    }
}

proof fn lemma_ability_target_weighs(
    index: IndexView,
    ability_id: Seq<char>,
    ability: Option<Seq<char>>,
    target: Option<Seq<char>>,
    name: Seq<char>,
)
    ensures
        named_with(
            index,
            with_ability_target(index, ability_id, ability, target, name),
            set![210int],
        ),
{
    match target {
        None => {},
        Some(t) => {
            lemma_monster_weighs(index, t, name, PRIORITY_LACRIMOSA_COLLECTION, set![210int]);
            let named = if resolved_name(index, t) is None {
                with_path(index, t, name, PRIORITY_LACRIMOSA_COLLECTION)
            } else {
                index
            };
            lemma_target_weighs_nothing(named, ability_id, t);
            match ability {
                Some(a) => {
                    lemma_target_weighs_nothing(with_target(named, ability_id, t), a, t);
                },
                None => {},
            }
        },
    }
}

proof fn lemma_collection_weighs(
    index: IndexView,
    rows: Seq<(Seq<char>, json::JsonView)>,
    n: int,
)
    ensures
        named_with(index, with_collection_rows(index, rows, n), set![210int]),
    decreases n,
{
    if n > 0 {
        lemma_collection_weighs(index, rows, n - 1);
        let before = with_collection_rows(index, rows, n - 1);
        let (row_id, row) = rows[n - 1];
        let w = set![210int];
        match localized(row.field("MonsterName"@)) {
            None => {},
            Some(table_name) => {
                let ability_id = match text_field(row, "AbilityId"@) {
                    Some(id) => id,
                    None => row_id,
                };
                let ability = ability_path(row);
                let target = avatar_path(row);
                let known = match target {
                    Some(t) => resolved_name(before, t),
                    None => None,
                };
                let name = match known {
                    Some(n) => n,
                    None => table_name,
                };
                let monsters = aliases::named_monsters(ability_id) + match ability {
                    Some(a) => aliases::named_monsters(a),
                    None => Seq::empty(),
                };
                lemma_monster_weighs(before, ability_id, name, PRIORITY_LACRIMOSA_COLLECTION, w);
                let a = with_monster_id(before, ability_id, name, PRIORITY_LACRIMOSA_COLLECTION);
                lemma_ability_target_weighs(a, ability_id, ability, target, name);
                let b = with_ability_target(a, ability_id, ability, target, name);
                lemma_abilities_weigh(b, monsters, monsters.len() as int, name, target);
            },
        }
    }
}

proof fn lemma_pairs_weigh(index: IndexView, pairs: Seq<(String, String)>, n: int)
    ensures
        named_with(index, with_pairs(index, pairs, n), set![250int]),
    decreases n,
{
    if n > 0 {
        lemma_pairs_weigh(index, pairs, n - 1);
        lemma_monster_weighs(
            with_pairs(index, pairs, n - 1),
            pairs[n - 1].0@,
            pairs[n - 1].1@,
            PRIORITY_OVERRIDE,
            set![250int],
        );
    }
}

proof fn lemma_rows_weigh(index: IndexView, rows: Seq<TargetRow>, n: int)
    ensures
        named_with(index, with_rows(index, rows, n), set![250int]),
    decreases n,
{
    if n > 0 {
        lemma_rows_weigh(index, rows, n - 1);
        let row = rows[n - 1];
        lemma_monster_weighs(
            with_rows(index, rows, n - 1),
            first_of(row.path@, row.class_path@, row.object_path@),
            first_of(row.display_name@, row.name@, Seq::empty()),
            PRIORITY_OVERRIDE,
            set![250int],
        );
    }
}

/// A name counts by where it comes from: most, where it was written for a path by hand;
/// then come those of the abyss's stages, of the manual, of the collection of abilities,
/// of the texts of the monsters, and last those that are read out of comments.
pub proof fn names_count_by_their_source(
    index: IndexView,
    rows: Seq<(Seq<char>, json::JsonView)>,
    document: TargetDocument,
)
    ensures
        named_with(index, with_document(index, document), set![250int]),
        named_with(index, with_table(index, TableKind::Pack, rows), set![230int]),
        named_with(index, with_table(index, TableKind::Manual, rows), set![220int]),
        named_with(index, with_table(index, TableKind::Collection, rows), set![210int]),
        named_with(index, with_table(index, TableKind::Static, rows), set![100int, 180int]),
{
    let monsters = manual_rows(rows, rows.len() as int);
    lemma_manual_weighs(index, monsters, monsters.len() as int);
    lemma_static_weighs(index, rows, rows.len() as int);
    lemma_packs_weigh(index, rows, rows.len() as int);
    lemma_collection_weighs(index, rows, rows.len() as int);
    match document {
        TargetDocument::Pairs(pairs) => {
            lemma_pairs_weigh(index, pairs@, pairs@.len() as int);
        },
        TargetDocument::List(list) => {
            lemma_rows_weigh(index, list@, list@.len() as int);
        },
    }
}

/// What an alias means is what it was first said to mean.
pub proof fn targets_are_those_that_were_said_first(
    index: IndexView,
    keys: Seq<Seq<char>>,
    n: int,
    target: Seq<char>,
    k: Seq<char>,
)
    requires
        0 <= n <= keys.len(),
    ensures
        index.targets.contains_key(k) ==> with_targets(index, keys, n, target).targets.contains_key(
            k,
        ) && with_targets(index, keys, n, target).targets[k] == index.targets[k],
        !index.targets.contains_key(k) && keys.take(n).contains(k) ==> with_targets(
            index,
            keys,
            n,
            target,
        ).targets.contains_key(k) && with_targets(index, keys, n, target).targets[k] == target,
        !index.targets.contains_key(k) && !keys.take(n).contains(k) ==> !with_targets(
            index,
            keys,
            n,
            target,
        ).targets.contains_key(k),
    decreases n,
{
    if n > 0 {
        targets_are_those_that_were_said_first(index, keys, n - 1, target, k);
        let all = keys.take(n);
        let before = keys.take(n - 1);
        assert(all =~= before.push(keys[n - 1]));
        if before.contains(k) {
            let w = choose|w: int| 0 <= w < before.len() && before[w] == k;
            assert(all[w] == k);
        }
        if k == keys[n - 1] {
            assert(all[n - 1] == k);
        }
        if all.contains(k) && k != keys[n - 1] {
            let w = choose|w: int| 0 <= w < all.len() && all[w] == k;
            assert(before[w] == k);
        }
    }
}

/// A pack of the abyss is named by the stage, by another number, and by its monster, which
/// is a boss or a small one and a blueprint; the stage is its first four parts.
pub proof fn packs_name_stage_and_monster(parts: Seq<Seq<char>>)
    requires
        8 <= parts.len(),
        forall|k: int| 0 <= k < parts.len() ==> !(#[trigger] parts[k]).contains('_'),
        parts[0] == "Abyss"@,
        forall|k: int| 1 <= k < 5 ==> text::all_digits(#[trigger] parts[k]),
        text::lower(parts[5]) == "boss"@ || text::lower(parts[5]) == "mon"@,
        text::contains(
            text::lower(text::join(parts.subrange(5, parts.len() as int), "_"@)),
            "_bp"@,
        ),
    ensures
        pack_target(text::join(parts, seq!['_'])) == Some(
            (
                text::join(parts.subrange(0, 4), "_"@),
                text::join(parts.subrange(5, parts.len() as int), "_"@),
            ),
        ),
{
    text::joined_parts_split_again(parts, '_');
    assert(text::all_digits(parts[1]) && text::all_digits(parts[2]) && text::all_digits(parts[3])
        && text::all_digits(parts[4]));
}

/// A text of a table is the text itself, or what stands first of its translation, its
/// source, its text in all cultures, and its key; space around it does not count, and
/// nothing is said by an empty text or by the word for none.
pub proof fn translations_come_first(value: json::JsonView)
    requires
        !(value is Text),
    ensures
        text_field(value, "LocalizedString"@) is Some ==> localized(Some(value)) == text_field(
            value,
            "LocalizedString"@,
        ),
        text_field(value, "LocalizedString"@) is None && text_field(
            value,
            "SourceString"@,
        ) is Some ==> localized(Some(value)) == text_field(value, "SourceString"@),
        text_field(value, "LocalizedString"@) is None && text_field(
            value,
            "SourceString"@,
        ) is None && text_field(value, "CultureInvariantString"@) is Some ==> localized(
            Some(value),
        ) == text_field(value, "CultureInvariantString"@),
        text_field(value, "LocalizedString"@) is None && text_field(
            value,
            "SourceString"@,
        ) is None && text_field(value, "CultureInvariantString"@) is None ==> localized(Some(value))
            == text_field(value, "Key"@),
        forall|s: Seq<char>|
            #[trigger] localized(Some(json::JsonView::Text(s))) == if text::trim(
                s,
                Class::Space,
            ).len() == 0 || text::trim(s, Class::Space) == "None"@ {
                None
            } else {
                Some(text::trim(s, Class::Space))
            },
{
}

proof fn lemma_drops_are_counted(rows: Seq<ManualView>, n: int, key: Seq<char>, i: int, j: int)
    requires
        0 <= i < j,
        0 <= n <= rows.len(),
        i < rows.len() && drop_keys(rows[i]).contains(key),
        j < rows.len() && drop_keys(rows[j]).contains(key),
    ensures
        drop_count(rows, n, key) >= 0,
        i < n ==> drop_count(rows, n, key) >= 1,
        j < n ==> drop_count(rows, n, key) >= 2,
    decreases n,
{
    if n > 0 {
        lemma_drops_are_counted(rows, n - 1, key, i, j);
    }
}

/// What two monsters drop names neither of them.
pub proof fn shared_drops_name_no_monster(
    rows: Seq<ManualView>,
    drop_id: Seq<char>,
    key: Seq<char>,
    i: int,
    j: int,
)
    requires
        0 <= i < j < rows.len(),
        aliases::lookup_keys(drop_id).contains(key),
        drop_keys(rows[i]).contains(key),
        drop_keys(rows[j]).contains(key),
    ensures
        !drops_alone(rows, drop_id),
{
    lemma_drops_are_counted(rows, rows.len() as int, key, i, j);
    let keys = aliases::lookup_keys(drop_id);
    let w = choose|w: int| 0 <= w < keys.len() && keys[w] == key;
    assert(drop_count(rows, rows.len() as int, keys[w]) >= 2);
}

} // verus!
