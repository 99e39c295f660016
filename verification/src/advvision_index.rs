//! Which target a stage of an advanced vision is about.
use vstd::prelude::*;

use crate::json;
use crate::json::Json;
use crate::json::JsonView;
use crate::object_state;
use crate::resource_index;
use crate::resource_index::ResourceIndex;
use crate::text;
use crate::text::Class;

verus! {

// -------------------------------------------------------------------------- pairs

/// Pairs of a key and a value.
pub open spec fn pair_views(v: Seq<(String, String)>) -> Seq<(Seq<char>, Seq<char>)> {
    v.map_values(|p: (String, String)| (p.0@, p.1@))
}

/// The position of the pair with the key, not before `i`; the length where there is
/// none.
pub open spec fn pair_at(pairs: Seq<(Seq<char>, Seq<char>)>, key: Seq<char>, i: int) -> int
    decreases pairs.len() - i,
{
    if i >= pairs.len() {
        pairs.len() as int
    } else if pairs[i].0 == key {
        i
    } else {
        pair_at(pairs, key, i + 1)
    }
}

/// The value under the key.
pub open spec fn value_at(pairs: Seq<(Seq<char>, Seq<char>)>, key: Seq<char>) -> Option<Seq<char>> {
    let at = pair_at(pairs, key, 0);
    if 0 <= at < pairs.len() {
        Some(pairs[at].1)
    } else {
        None
    }
}

/// The pairs with the value under the key.
pub open spec fn with_pair(
    pairs: Seq<(Seq<char>, Seq<char>)>,
    key: Seq<char>,
    value: Seq<char>,
) -> Seq<(Seq<char>, Seq<char>)> {
    let at = pair_at(pairs, key, 0);
    if 0 <= at < pairs.len() {
        pairs.update(at, (key, value))
    } else {
        pairs.push((key, value))
    }
}

proof fn lemma_pair_at(pairs: Seq<(Seq<char>, Seq<char>)>, key: Seq<char>, i: int)
    requires
        0 <= i <= pairs.len(),
    ensures
        i <= pair_at(pairs, key, i) <= pairs.len(),
        pair_at(pairs, key, i) < pairs.len() ==> pairs[pair_at(pairs, key, i)].0 == key,
        forall|k: int| i <= k < pair_at(pairs, key, i) ==> (#[trigger] pairs[k]).0 != key,
    decreases pairs.len() - i,
{
    if i < pairs.len() && pairs[i].0 != key {
        lemma_pair_at(pairs, key, i + 1);
    }
}

proof fn lemma_pair_is_first(pairs: Seq<(Seq<char>, Seq<char>)>, key: Seq<char>, i: int, at: int)
    requires
        0 <= i <= at < pairs.len(),
        pairs[at].0 == key,
        forall|k: int| i <= k < at ==> (#[trigger] pairs[k]).0 != key,
    ensures
        pair_at(pairs, key, i) == at,
    decreases at - i,
{
    if i < at {
        assert(pairs[i].0 != key);
        lemma_pair_is_first(pairs, key, i + 1, at);
    }
}

/// A value is found under the key it was put under, and the values under other keys
/// stay.
pub proof fn put_values_are_found(
    pairs: Seq<(Seq<char>, Seq<char>)>,
    key: Seq<char>,
    value: Seq<char>,
    other: Seq<char>,
)
    ensures
        value_at(with_pair(pairs, key, value), key) == Some(value),
        other != key ==> value_at(with_pair(pairs, key, value), other) == value_at(pairs, other),
{
    let r = with_pair(pairs, key, value);
    lemma_pair_at(pairs, key, 0);
    lemma_pair_at(pairs, other, 0);
    let at = pair_at(pairs, key, 0);
    assert(r[at] == (key, value));
    lemma_pair_is_first(r, key, 0, at);
    if other != key {
        let o = pair_at(pairs, other, 0);
        if o < pairs.len() {
            assert(r[o] == pairs[o]);
            assert forall|k: int| 0 <= k < o implies (#[trigger] r[k]).0 != other by {
                assert(pairs[k].0 != other);
            }
            lemma_pair_is_first(r, other, 0, o);
        } else {
            lemma_pair_at(r, other, 0);
            let w = pair_at(r, other, 0);
            if w < r.len() {
                assert(r[w].0 == other);
                assert(w < pairs.len() && pairs[w].0 == other);
            }
        }
    }
}

fn find_pair(pairs: &Vec<(String, String)>, key: &str) -> (r: usize)
    ensures
        r == pair_at(pair_views(pairs@), key@, 0),
        r <= pairs.len(),
{
    let ghost all = pair_views(pairs@);
    let mut k: usize = 0;
    while k < pairs.len()
        invariant
            k <= pairs.len(),
            all == pair_views(pairs@),
            pair_at(all, key@, 0) == pair_at(all, key@, k as int),
        decreases pairs.len() - k,
    {
        assert(all[k as int].0 == pairs@[k as int].0@);
        if text::same_str(pairs[k].0.as_str(), key) {
            return k;
        }
        k += 1;
    }
    k
}

fn get_value(pairs: &Vec<(String, String)>, key: &str) -> (r: Option<String>)
    ensures
        text::opt_text(r) == value_at(pair_views(pairs@), key@),
{
    let at = find_pair(pairs, key);
    if at < pairs.len() {
        assert(pair_views(pairs@)[at as int].1 == pairs@[at as int].1@);
        Some(pairs[at].1.as_str().to_owned())
    } else {
        None
    }
}

fn put_value(pairs: &mut Vec<(String, String)>, key: String, value: String)
    ensures
        pair_views(final(pairs)@) == with_pair(pair_views(old(pairs)@), key@, value@),
{
    let ghost all = pair_views(pairs@);
    let at = find_pair(pairs, key.as_str());
    if at < pairs.len() {
        pairs[at] = (key, value);
        assert(pair_views(pairs@) =~= all.update(at as int, (key@, value@)));
    } else {
        pairs.push((key, value));
        assert(pair_views(pairs@) =~= all.push((key@, value@)));
    }
}

// --------------------------------------------------------------------------- rows

/// The target of a stage.
#[derive(Debug)]
pub struct AdvVisionTarget {
    pub advvision_id: String,
    pub scene_id: String,
    pub target_name: String,
    pub target_path: Option<String>,
}

#[verifier::ext_equal]
pub struct VisionTargetView {
    pub advvision_id: Seq<char>,
    pub scene_id: Seq<char>,
    pub target_name: Seq<char>,
    pub target_path: Option<Seq<char>>,
}

impl View for AdvVisionTarget {
    type V = VisionTargetView;

    open spec fn view(&self) -> VisionTargetView {
        VisionTargetView {
            advvision_id: self.advvision_id@,
            scene_id: self.scene_id@,
            target_name: self.target_name@,
            target_path: text::opt_text(self.target_path),
        }
    }
}

/// A vision, and what belongs to each of its stages.
#[derive(Debug)]
pub struct AdvVisionRow {
    pub id: String,
    pub vision_name: Option<String>,
    pub vision_code: Option<String>,
    pub spawn_monster_pool_ids: Vec<(String, String)>,
    pub scene_data_ids: Vec<(String, String)>,
    pub target_descriptions: Vec<(String, String)>,
}

#[verifier::ext_equal]
pub struct RowView {
    pub id: Seq<char>,
    pub vision_name: Option<Seq<char>>,
    pub vision_code: Option<Seq<char>>,
    pub spawn_monster_pool_ids: Seq<(Seq<char>, Seq<char>)>,
    pub scene_data_ids: Seq<(Seq<char>, Seq<char>)>,
    pub target_descriptions: Seq<(Seq<char>, Seq<char>)>,
}

impl View for AdvVisionRow {
    type V = RowView;

    open spec fn view(&self) -> RowView {
        RowView {
            id: self.id@,
            vision_name: text::opt_text(self.vision_name),
            vision_code: text::opt_text(self.vision_code),
            spawn_monster_pool_ids: pair_views(self.spawn_monster_pool_ids@),
            scene_data_ids: pair_views(self.scene_data_ids@),
            target_descriptions: pair_views(self.target_descriptions@),
        }
    }
}

pub open spec fn row_views(v: Seq<AdvVisionRow>) -> Seq<RowView> {
    v.map_values(|r: AdvVisionRow| r@)
}

/// The value of an entry: a plain text, or one that may be localized.
pub open spec fn entry_text(entry: JsonView, localized: bool) -> Option<Seq<char>> {
    if localized {
        resource_index::localized(entry.field("Value"@))
    } else {
        json::opt_as_text(entry.field("Value"@))
    }
}

/// The pairs that the first `n` entries make.
pub open spec fn entry_pairs(entries: Seq<JsonView>, localized: bool, n: int) -> Seq<
    (Seq<char>, Seq<char>),
>
    decreases n,
{
    if n <= 0 {
        Seq::empty()
    } else {
        let before = entry_pairs(entries, localized, n - 1);
        let e = entries[n - 1];
        match (json::opt_as_text(e.field("Key"@)), entry_text(e, localized)) {
            (Some(k), Some(v)) => with_pair(before, k, v),
            _ => before,
        }
    }
}

/// The pairs of a list of entries; none for what is no list.
pub open spec fn keyed_pairs(value: Option<JsonView>, localized: bool) -> Seq<(Seq<char>, Seq<char>)> {
    match value {
        Some(JsonView::List(entries)) => entry_pairs(entries, localized, entries.len() as int),
        _ => Seq::empty(),
    }
}

/// The row of a vision.
pub open spec fn row_of(id: Seq<char>, row: JsonView) -> RowView {
    RowView {
        id,
        vision_name: resource_index::localized(row.field("VisionName"@)),
        vision_code: resource_index::localized(row.field("VisionCode"@)),
        spawn_monster_pool_ids: keyed_pairs(row.field("SpawnMonsterPoolIds"@), false),
        scene_data_ids: keyed_pairs(row.field("SceneDataIds"@), false),
        target_descriptions: keyed_pairs(row.field("TargetDescriptions"@), true),
    }
}

fn plain_value(entry: &Json, localized: bool) -> (r: Option<String>)
    ensures
        text::opt_text(r) == entry_text(entry@, localized),
{
    if localized {
        return resource_index::localized_text(entry.field("Value"));
    }
    match entry.field("Value") {
        Some(v) => match v.text() {
            Some(s) => Some(s.as_str().to_owned()),
            None => None,
        },
        None => None,
    }
}

fn entry_key(entry: &Json) -> (r: Option<String>)
    ensures
        text::opt_text(r) == json::opt_as_text(entry@.field("Key"@)),
{
    match entry.field("Key") {
        Some(v) => match v.text() {
            Some(s) => Some(s.as_str().to_owned()),
            None => None,
        },
        None => None,
    }
}

fn keyed_map(value: Option<&Json>, localized: bool) -> (out: Vec<(String, String)>)
    ensures
        pair_views(out@) == keyed_pairs(json::opt_ref_contents(value), localized),
{
    let mut out: Vec<(String, String)> = Vec::new();
    assert(pair_views(out@) =~= Seq::empty());
    let entries = match value {
        Some(v) => match v.list() {
            Some(items) => items,
            None => {
                return out;
            },
        },
        None => {
            return out;
        },
    };
    let ghost all = json::list_contents(entries@);
    let mut k: usize = 0;
    while k < entries.len()
        invariant
            k <= entries.len(),
            all == json::list_contents(entries@),
            pair_views(out@) == entry_pairs(all, localized, k as int),
        decreases entries.len() - k,
    {
        assert(all[k as int] == entries@[k as int]@);
        match (entry_key(&entries[k]), plain_value(&entries[k], localized)) {
            (Some(key), Some(v)) => {
                put_value(&mut out, key, v);
            },
            _ => {},
        }
        k += 1;
    }
    out
}

fn read_row(id: &str, row: &Json) -> (r: AdvVisionRow)
    ensures
        r@ == row_of(id@, row@),
{
    let r = AdvVisionRow {
        id: id.to_owned(),
        vision_name: resource_index::localized_text(row.field("VisionName")),
        vision_code: resource_index::localized_text(row.field("VisionCode")),
        spawn_monster_pool_ids: keyed_map(row.field("SpawnMonsterPoolIds"), false),
        scene_data_ids: keyed_map(row.field("SceneDataIds"), false),
        target_descriptions: keyed_map(row.field("TargetDescriptions"), true),
    };
    assert(r@ =~= row_of(id@, row@));
    r
}

/// The name that a description puts between corner brackets.
pub open spec fn described_name(description: Seq<char>) -> Option<Seq<char>> {
    let start = text::seek_class(description, Class::Only('「'), 0);
    if start >= description.len() {
        None
    } else {
        let rest = description.skip(start + 1);
        let end = text::seek_class(rest, Class::Only('」'), 0);
        if end >= rest.len() {
            None
        } else {
            resource_index::non_empty(rest.take(end))
        }
    }
}

/// The name that a description puts between corner brackets.
pub fn target_name_from_description(description: &str) -> (r: Option<String>)
    ensures
        text::opt_text(r) == described_name(description@),
{
    let d = text::chars_of(description);
    let start = text::seek_pos(&d, Class::Only('「'), 0);
    if start >= d.len() {
        return None;
    }
    let rest = text::part(&d, start + 1, d.len());
    assert(rest@ =~= description@.skip(start + 1));
    let end = text::seek_pos(&rest, Class::Only('」'), 0);
    if end >= rest.len() {
        return None;
    }
    let name = text::part(&rest, 0, end);
    assert(name@ =~= rest@.take(end as int));
    resource_index::non_empty_text(text::string_of(&name).as_str())
}

// -------------------------------------------------------------------------- index

/// The visions, and what their scenes are about.
pub struct AdvVisionIndex {
    rows: Vec<AdvVisionRow>,
    scene_to_advvision: Vec<(String, String)>,
    target_name_by_scene: Vec<(String, String)>,
    monster_key_by_target_name: Vec<(String, String)>,
}

#[verifier::ext_equal]
pub struct VisionsView {
    pub rows: Seq<RowView>,
    pub visions: Seq<(Seq<char>, Seq<char>)>,
    pub names: Seq<(Seq<char>, Seq<char>)>,
    pub monsters: Seq<(Seq<char>, Seq<char>)>,
}

impl View for AdvVisionIndex {
    type V = VisionsView;

    closed spec fn view(&self) -> VisionsView {
        VisionsView {
            rows: row_views(self.rows@),
            visions: pair_views(self.scene_to_advvision@),
            names: pair_views(self.target_name_by_scene@),
            monsters: pair_views(self.monster_key_by_target_name@),
        }
    }
}

/// The position of the row with the id, not before `i`; the length where there is
/// none.
pub open spec fn row_at(rows: Seq<RowView>, id: Seq<char>, i: int) -> int
    decreases rows.len() - i,
{
    if i >= rows.len() {
        rows.len() as int
    } else if rows[i].id == id {
        i
    } else {
        row_at(rows, id, i + 1)
    }
}

/// The rows with one more, in the place of one that has its id.
pub open spec fn with_row(rows: Seq<RowView>, row: RowView) -> Seq<RowView> {
    let at = row_at(rows, row.id, 0);
    if 0 <= at < rows.len() {
        rows.update(at, row)
    } else {
        rows.push(row)
    }
}

/// The index with the first `n` scenes of a row.
pub open spec fn with_scenes(v: VisionsView, row: RowView, n: int) -> VisionsView
    decreases n,
{
    if n <= 0 {
        v
    } else {
        let before = with_scenes(v, row, n - 1);
        let (key, scene) = row.scene_data_ids[n - 1];
        let name = match value_at(row.target_descriptions, key) {
            Some(d) => described_name(d),
            None => None,
        };
        VisionsView {
            visions: with_pair(before.visions, scene, row.id),
            names: match name {
                Some(n) => with_pair(before.names, scene, n),
                None => before.names,
            },
            ..before
        }
    }
}

/// The index with a row and its scenes.
pub open spec fn with_vision(v: VisionsView, row: RowView) -> VisionsView {
    let scened = with_scenes(v, row, row.scene_data_ids.len() as int);
    VisionsView { rows: with_row(scened.rows, row), ..scened }
}

/// The index with the first `n` rows of a table.
pub open spec fn with_rows(v: VisionsView, rows: Seq<(Seq<char>, JsonView)>, n: int) -> VisionsView
    decreases n,
{
    if n <= 0 {
        v
    } else {
        with_vision(with_rows(v, rows, n - 1), row_of(rows[n - 1].0, rows[n - 1].1))
    }
}

/// The index with a document's table.
pub open spec fn with_table(v: VisionsView, document: JsonView) -> VisionsView {
    match resource_index::table_rows(document) {
        Some(rows) => with_rows(v, rows, rows.len() as int),
        None => v,
    }
}

/// The index with the tables of the first `n` texts; a text that is no document is
/// left out.
pub open spec fn with_texts(v: VisionsView, texts: Seq<Seq<char>>, n: int) -> VisionsView
    decreases n,
{
    if n <= 0 {
        v
    } else {
        let before = with_texts(v, texts, n - 1);
        match json::json_document(texts[n - 1]) {
            Ok(document) => with_table(before, document),
            Err(_) => before,
        }
    }
}

/// The names whose monsters are looked up.
pub open spec fn boss_names() -> Seq<&'static str> {
    seq!["玛门", "斑蝶", "无首铁驭", "庭院花房"]
}

/// The monsters that may have such a name.
pub open spec fn boss_classes() -> Seq<&'static str> {
    seq!["Boss_017_BP_Abyss", "Boss_08_BP_Abyss", "Boss_07_BP_Abyss", "Boss_015_BP_Abyss"]
}

/// The first class, from class `i` on, that the tables give the name.
pub open spec fn class_named(
    index: resource_index::IndexView,
    name: Seq<char>,
    classes: Seq<&'static str>,
    i: int,
) -> Option<Seq<char>>
    decreases classes.len() - i,
{
    if i < 0 || i >= classes.len() {
        None
    } else if resource_index::resolved_name(index, classes[i]@) == Some(name) {
        Some(classes[i]@)
    } else {
        class_named(index, name, classes, i + 1)
    }
}

/// The monster of the name.
pub open spec fn monster_named(index: resource_index::IndexView, name: Seq<char>) -> Option<Seq<char>> {
    object_state::either(
        resource_index::first_target(index, crate::aliases::lookup_keys(name), 0),
        class_named(index, name, boss_classes(), 0),
    )
}

/// The index with the monsters of the first `n` names; what is under a name stays.
pub open spec fn with_monsters(
    v: VisionsView,
    index: resource_index::IndexView,
    names: Seq<&'static str>,
    n: int,
) -> VisionsView
    decreases n,
{
    if n <= 0 {
        v
    } else {
        let before = with_monsters(v, index, names, n - 1);
        let name = names[n - 1]@;
        match monster_named(index, name) {
            Some(path) => if value_at(before.monsters, name) is Some {
                before
            } else {
                VisionsView { monsters: with_pair(before.monsters, name, path), ..before }
            },
            None => before,
        }
    }
}

pub open spec fn no_visions() -> VisionsView {
    VisionsView {
        rows: Seq::empty(),
        visions: Seq::empty(),
        names: Seq::empty(),
        monsters: Seq::empty(),
    }
}

/// The target of a scene.
pub open spec fn scene_target(v: VisionsView, scene: Seq<char>) -> Option<VisionTargetView> {
    match (value_at(v.visions, scene), value_at(v.names, scene)) {
        (Some(vision), Some(name)) => Some(
            VisionTargetView {
                advvision_id: vision,
                scene_id: scene,
                target_name: name,
                target_path: value_at(v.monsters, name),
            },
        ),
        _ => None,
    }
}

/// The target of a vision's stage.
pub open spec fn stage_target(v: VisionsView, vision: Seq<char>, stage: Seq<char>) -> Option<
    VisionTargetView,
> {
    let at = row_at(v.rows, vision, 0);
    if 0 <= at < v.rows.len() {
        match value_at(v.rows[at].scene_data_ids, stage) {
            Some(scene) => scene_target(v, scene),
            None => None,
        }
    } else {
        None
    }
}

pub open spec fn opt_target(o: Option<AdvVisionTarget>) -> Option<VisionTargetView> {
    match o {
        Some(t) => Some(t@),
        None => None,
    }
}

fn find_row(rows: &Vec<AdvVisionRow>, id: &str) -> (r: usize)
    ensures
        r == row_at(row_views(rows@), id@, 0),
        r <= rows.len(),
{
    let ghost all = row_views(rows@);
    let mut k: usize = 0;
    while k < rows.len()
        invariant
            k <= rows.len(),
            all == row_views(rows@),
            row_at(all, id@, 0) == row_at(all, id@, k as int),
        decreases rows.len() - k,
    {
        assert(all[k as int] == rows@[k as int]@);
        if text::same_str(rows[k].id.as_str(), id) {
            return k;
        }
        k += 1;
    }
    k
}

fn monster_for_name(resources: &ResourceIndex, name: &str) -> (r: Option<String>)
    ensures
        text::opt_text(r) == monster_named(resources@, name@),
{
    match resources.canonical_target_path_for_path(name) {
        Some(path) => {
            return Some(path);
        },
        None => {},
    }
    let classes = [
        "Boss_017_BP_Abyss",
        "Boss_08_BP_Abyss",
        "Boss_07_BP_Abyss",
        "Boss_015_BP_Abyss",
    ];
    assert(classes@ =~= boss_classes());
    let mut k: usize = 0;
    while k < 4
        invariant
            k <= 4,
            classes@ == boss_classes(),
            resource_index::first_target(
                resources@,
                crate::aliases::lookup_keys(name@),
                0,
            ) is None,
            class_named(resources@, name@, boss_classes(), 0) == class_named(
                resources@,
                name@,
                boss_classes(),
                k as int,
            ),
        decreases 4 - k,
    {
        match resources.resolved_name_for_path(classes[k]) {
            Some(found) => {
                if text::same_str(found.as_str(), name) {
                    return Some(classes[k].to_owned());
                }
            },
            None => {},
        }
        k += 1;
    }
    None
}

impl Default for AdvVisionIndex {
    fn default() -> (r: AdvVisionIndex)
        ensures
            r@ == no_visions(),
    {
        let r = AdvVisionIndex {
            rows: Vec::new(),
            scene_to_advvision: Vec::new(),
            target_name_by_scene: Vec::new(),
            monster_key_by_target_name: Vec::new(),
        };
        assert(r@ =~= no_visions());
        r
    }
}

impl AdvVisionIndex {
    fn add_vision(&mut self, row: AdvVisionRow)
        ensures
            final(self)@ == with_vision(old(self)@, row@),
    {
        let ghost v = self@;
        let ghost view = row@;
        let mut k: usize = 0;
        while k < row.scene_data_ids.len()
            invariant
                k <= row.scene_data_ids.len(),
                view == row@,
                self@ == with_scenes(v, view, k as int),
            decreases row.scene_data_ids.len() - k,
        {
            let ghost now = self@;
            assert(view.scene_data_ids[k as int] == (
                row.scene_data_ids@[k as int].0@,
                row.scene_data_ids@[k as int].1@,
            ));
            let key = row.scene_data_ids[k].0.as_str();
            let scene = row.scene_data_ids[k].1.as_str();
            put_value(
                &mut self.scene_to_advvision,
                scene.to_owned(),
                row.id.as_str().to_owned(),
            );
            match get_value(&row.target_descriptions, key) {
                Some(description) => {
                    match target_name_from_description(description.as_str()) {
                        Some(name) => {
                            put_value(&mut self.target_name_by_scene, scene.to_owned(), name);
                        },
                        None => {},
                    }
                },
                None => {},
            }
            assert(self@ =~= with_scenes(v, view, k + 1));
            k += 1;
        }
        let ghost scened = self@;
        let at = find_row(&self.rows, row.id.as_str());
        if at < self.rows.len() {
            self.rows[at] = row;
            assert(self@.rows =~= scened.rows.update(at as int, view));
        } else {
            self.rows.push(row);
            assert(self@.rows =~= scened.rows.push(view));
        }
        assert(self@ =~= with_vision(v, view));
    }

    /// Adds a document's table of visions.
    pub fn load_advvision_table(&mut self, document: &Json)
        ensures
            final(self)@ == with_table(old(self)@, document@),
    {
        let ghost v = self@;
        let rows = match resource_index::data_table_rows(document) {
            Some(rows) => rows,
            None => {
                return;
            },
        };
        let ghost all = json::record_contents(rows@);
        let mut k: usize = 0;
        while k < rows.len()
            invariant
                k <= rows.len(),
                all == json::record_contents(rows@),
                self@ == with_rows(v, all, k as int),
            decreases rows.len() - k,
        {
            assert(all[k as int] == (rows@[k as int].0@, rows@[k as int].1@));
            let row = read_row(rows[k].0.as_str(), &rows[k].1);
            self.add_vision(row);
            k += 1;
        }
    }

    fn add_monsters(&mut self, resources: &ResourceIndex)
        ensures
            final(self)@ == with_monsters(old(self)@, resources@, boss_names(), 4),
    {
        let ghost v = self@;
        let names = ["玛门", "斑蝶", "无首铁驭", "庭院花房"];
        assert(names@ =~= boss_names());
        let mut k: usize = 0;
        while k < 4
            invariant
                k <= 4,
                names@ == boss_names(),
                self@ == with_monsters(v, resources@, boss_names(), k as int),
            decreases 4 - k,
        {
            let ghost now = self@;
            match monster_for_name(resources, names[k]) {
                Some(path) => {
                    if get_value(&self.monster_key_by_target_name, names[k]).is_none() {
                        put_value(
                            &mut self.monster_key_by_target_name,
                            names[k].to_owned(),
                            path,
                        );
                    }
                },
                None => {},
            }
            assert(self@ =~= with_monsters(v, resources@, boss_names(), k + 1));
            k += 1;
        }
    }

    /// The index of the tables that the texts hold.
    pub fn load_default(resources: &ResourceIndex, tables: &Vec<String>) -> (r: AdvVisionIndex)
        ensures
            r@ == with_monsters(
                with_texts(no_visions(), text::texts(tables@), tables@.len() as int),
                resources@,
                boss_names(),
                4,
            ),
    {
        let ghost all = text::texts(tables@);
        let mut r = AdvVisionIndex::default();
        let mut k: usize = 0;
        while k < tables.len()
            invariant
                k <= tables.len(),
                all == text::texts(tables@),
                r@ == with_texts(no_visions(), all, k as int),
            decreases tables.len() - k,
        {
            assert(all[k as int] == tables@[k as int]@);
            match json::parse_json(tables[k].as_str()) {
                Ok(document) => {
                    r.load_advvision_table(&document);
                },
                Err(_) => {},
            }
            k += 1;
        }
        r.add_monsters(resources);
        r
    }

    /// The target of a vision's stage.
    pub fn resolve_scene(&self, advvision_id: &str, stage_key: &str) -> (r: Option<AdvVisionTarget>)
        ensures
            opt_target(r) == stage_target(self@, advvision_id@, stage_key@),
    {
        let at = find_row(&self.rows, advvision_id);
        if at >= self.rows.len() {
            return None;
        }
        assert(self@.rows[at as int] == self.rows@[at as int]@);
        match get_value(&self.rows[at].scene_data_ids, stage_key) {
            Some(scene) => self.target_for_scene(scene.as_str()),
            None => None,
        }
    }

    /// The target of a scene.
    pub fn target_for_scene(&self, scene_id: &str) -> (r: Option<AdvVisionTarget>)
        ensures
            opt_target(r) == scene_target(self@, scene_id@),
    {
        match (
            get_value(&self.scene_to_advvision, scene_id),
            get_value(&self.target_name_by_scene, scene_id),
        ) {
            (Some(advvision_id), Some(target_name)) => {
                let target_path = get_value(
                    &self.monster_key_by_target_name,
                    target_name.as_str(),
                );
                Some(
                    AdvVisionTarget {
                        advvision_id,
                        scene_id: scene_id.to_owned(),
                        target_name,
                        target_path,
                    },
                )
            },
            _ => None,
        }
    }

    /// Sets the monster of a name.
    pub fn insert_monster_name_path_for_test(&mut self, name: &str, path: &str)
        ensures
            final(self)@ == (VisionsView {
                monsters: with_pair(old(self)@.monsters, name@, path@),
                ..old(self)@
            }),
    {
        let ghost v = self@;
        put_value(&mut self.monster_key_by_target_name, name.to_owned(), path.to_owned());
        assert(self@ =~= (VisionsView { monsters: with_pair(v.monsters, name@, path@), ..v }));
    }
}

/// What was put under a key is found under it, and what is under others stays.
pub proof fn what_is_put_under_a_key_is_found(
    pairs: Seq<(Seq<char>, Seq<char>)>,
    key: Seq<char>,
    value: Seq<char>,
    other: Seq<char>,
)
    ensures
        value_at(with_pair(pairs, key, value), key) == Some(value),
        other != key ==> value_at(with_pair(pairs, key, value), other) == value_at(pairs, other),
{
    let after = with_pair(pairs, key, value);
    let at = pair_at(pairs, key, 0);
    lemma_pair_at(pairs, key, 0);
    lemma_pair_at(after, key, 0);
    lemma_pair_at(pairs, other, 0);
    lemma_pair_at(after, other, 0);
    assert(after[at].0 == key);
    let found = pair_at(after, key, 0);
    assert(found == at) by {
        if found > at {
            assert(after[at].0 != key);
        }
        if found < at {
            assert(pairs[found].0 != key);
        }
    }
    if other != key {
        let a = pair_at(pairs, other, 0);
        let b = pair_at(after, other, 0);
        if a < pairs.len() {
            assert(after[a] == pairs[a]);
            assert(b <= a) by {
                if b > a {
                    assert(after[a].0 != other);
                }
            }
            if b < a {
                assert(pairs[b].0 != other);
            }
        } else if b < after.len() {
            assert(b != at);
            assert(pairs[b].0 == other);
        }
    }
}

proof fn lemma_seek(s: Seq<char>, c: char, at: int, i: int)
    requires
        0 <= i <= at < s.len(),
        s[at] == c,
        forall|k: int| i <= k < at ==> #[trigger] s[k] != c,
    ensures
        text::seek_class(s, Class::Only(c), i) == at,
    decreases at - i,
{
    if i < at {
        lemma_seek(s, c, at, i + 1);
    }
}

/// A description names what stands in its first pair of corner brackets, without the
/// space around it.
pub proof fn descriptions_name_what_is_bracketed(
    before: Seq<char>,
    name: Seq<char>,
    after: Seq<char>,
)
    requires
        !before.contains('「'),
        !name.contains('」'),
        text::trim(name, Class::Space).len() > 0,
        text::trim(name, Class::Space) != "None"@,
    ensures
        described_name(before + seq!['「'] + name + seq!['」'] + after) == Some(
            text::trim(name, Class::Space),
        ),
{
    let s = before + seq!['「'] + name + seq!['」'] + after;
    assert forall|k: int| 0 <= k < before.len() implies #[trigger] s[k] != '「' by {
        assert(s[k] == before[k]);
        assert(before.contains(before[k]));
    }
    lemma_seek(s, '「', before.len() as int, 0);
    let rest = s.skip(before.len() as int + 1);
    assert(rest =~= name + seq!['」'] + after);
    assert forall|k: int| 0 <= k < name.len() implies #[trigger] rest[k] != '」' by {
        assert(rest[k] == name[k]);
        assert(name.contains(name[k]));
    }
    lemma_seek(rest, '」', name.len() as int, 0);
    assert(rest.take(name.len() as int) =~= name);
}

/// The scenes of a vision's row lead to the vision, and where the row describes their
/// target, to its name.
pub proof fn scenes_lead_to_their_vision(v: VisionsView, row: RowView, n: int)
    requires
        0 < n <= row.scene_data_ids.len(),
    ensures
        ({
            let (key, scene) = row.scene_data_ids[n - 1];
            let after = with_scenes(v, row, n);
            &&& value_at(after.visions, scene) == Some(row.id)
            &&& value_at(row.target_descriptions, key) matches Some(d) ==> (described_name(
                d,
            ) is Some ==> value_at(after.names, scene) == described_name(d))
        }),
{
    let (key, scene) = row.scene_data_ids[n - 1];
    let before = with_scenes(v, row, n - 1);
    what_is_put_under_a_key_is_found(before.visions, scene, row.id, scene);
    match value_at(row.target_descriptions, key) {
        Some(d) => match described_name(d) {
            Some(name) => {
                what_is_put_under_a_key_is_found(before.names, scene, name, scene);
            },
            None => {},
        },
        None => {},
    }
}

} // verus!
