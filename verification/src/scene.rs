//! Where the game is: scenes that packets name by their data layers.
use vstd::prelude::*;

use crate::abyss;
use crate::sorting;
use crate::text;
use crate::text::Class;

verus! {

/// How long a scene keeps those of a lower priority away.
pub const SCENE_HOLD: i64 = 30_000_000;

/// A scene that was seen.
#[derive(Debug)]
pub struct SceneObservation {
    pub timestamp: i64,
    pub id: String,
    pub display_name: String,
    pub category: String,
    pub priority: u8,
}

#[verifier::ext_equal]
pub struct SceneView {
    pub timestamp: i64,
    pub id: Seq<char>,
    pub display_name: Seq<char>,
    pub category: Seq<char>,
    pub priority: u8,
}

impl View for SceneObservation {
    type V = SceneView;

    open spec fn view(&self) -> SceneView {
        SceneView {
            timestamp: self.timestamp,
            id: self.id@,
            display_name: self.display_name@,
            category: self.category@,
            priority: self.priority,
        }
    }
}

pub open spec fn scene_views(v: Seq<SceneObservation>) -> Seq<SceneView> {
    v.map_values(|s: SceneObservation| s@)
}

/// A scene, and the data layers by which it is known.
#[derive(Debug)]
pub struct SceneDefinition {
    pub id: String,
    pub display_name: String,
    pub category: String,
    pub priority: u8,
    pub tokens: Vec<String>,
}

#[verifier::ext_equal]
pub struct DefinitionView {
    pub id: Seq<char>,
    pub display_name: Seq<char>,
    pub category: Seq<char>,
    pub priority: u8,
    pub tokens: Seq<Seq<char>>,
}

impl View for SceneDefinition {
    type V = DefinitionView;

    open spec fn view(&self) -> DefinitionView {
        DefinitionView {
            id: self.id@,
            display_name: self.display_name@,
            category: self.category@,
            priority: self.priority,
            tokens: text::texts(self.tokens@),
        }
    }
}

pub open spec fn definition_views(v: Seq<SceneDefinition>) -> Seq<DefinitionView> {
    v.map_values(|d: SceneDefinition| d@)
}

/// All known scenes.
pub struct SceneIndex {
    scenes: Vec<SceneDefinition>,
}

impl View for SceneIndex {
    type V = Seq<DefinitionView>;

    closed spec fn view(&self) -> Seq<DefinitionView> {
        definition_views(self.scenes@)
    }
}

/// Among the first `n` scenes, the position of the last one that is known by the
/// token; `-1` where there is none.
pub open spec fn scene_with(scenes: Seq<DefinitionView>, token: Seq<char>, n: int) -> int
    decreases n,
{
    if n <= 0 {
        -1
    } else if scenes[n - 1].tokens.contains(token) {
        n - 1
    } else {
        scene_with(scenes, token, n - 1)
    }
}

/// The positions of the scenes that the first `n` lines name, with their priorities.
pub open spec fn named_scenes(scenes: Seq<DefinitionView>, lines: Seq<Seq<char>>, n: int) -> Seq<
    (u128, int),
>
    decreases n,
{
    if n <= 0 {
        Seq::empty()
    } else {
        let before = named_scenes(scenes, lines, n - 1);
        let line = text::trim(lines[n - 1], Class::Space);
        let at = scene_with(scenes, line, scenes.len() as int);
        if text::starts_with(line, "DataLayer_"@) && at >= 0 {
            before.push((scenes[at].priority as u128, at))
        } else {
            before
        }
    }
}

/// The scenes that a text names, by rising priority.
pub open spec fn ranked_scenes(scenes: Seq<DefinitionView>, s: Seq<char>) -> Seq<int> {
    let lines = abyss::lines(s);
    sorting::values(sorting::sorted(named_scenes(scenes, lines, lines.len() as int)))
}

/// The first `n` positions, without those whose scene is the one before.
pub open spec fn without_doubles(scenes: Seq<DefinitionView>, list: Seq<int>, n: int) -> Seq<int>
    decreases n,
{
    if n <= 0 {
        Seq::empty()
    } else {
        let before = without_doubles(scenes, list, n - 1);
        if before.len() > 0 && scenes[before.last()].id == scenes[list[n - 1]].id {
            before
        } else {
            before.push(list[n - 1])
        }
    }
}

/// A change from one scene to another.
pub open spec fn is_transition(d: DefinitionView) -> bool {
    d.category == "transition"@
}

/// From position `i` on, the first scene that is a transition; `-1` where there is
/// none.
pub open spec fn first_transition(scenes: Seq<DefinitionView>, list: Seq<int>, i: int) -> int
    decreases list.len() - i,
{
    if i < 0 || i >= list.len() {
        -1
    } else if is_transition(scenes[list[i]]) {
        list[i]
    } else {
        first_transition(scenes, list, i + 1)
    }
}

/// Among the first `n` scenes, the last of those of the highest priority that are
/// no transitions; `-1` where there is none.
pub open spec fn primary_scene(scenes: Seq<DefinitionView>, list: Seq<int>, n: int) -> int
    decreases n,
{
    if n <= 0 {
        -1
    } else {
        let b = primary_scene(scenes, list, n - 1);
        let c = list[n - 1];
        if !is_transition(scenes[c]) && (b < 0 || scenes[c].priority >= scenes[b].priority) {
            c
        } else {
            b
        }
    }
}

pub open spec fn observation_of(d: DefinitionView, timestamp: i64) -> SceneView {
    SceneView {
        timestamp,
        id: d.id,
        display_name: d.display_name,
        category: d.category,
        priority: d.priority,
    }
}

/// The scenes that a text tells: a transition, where it names one, and then the
/// foremost other scene, where it names one.
pub open spec fn scenes_in(scenes: Seq<DefinitionView>, timestamp: i64, s: Seq<char>) -> Seq<SceneView> {
    let ranked = ranked_scenes(scenes, s);
    let list = without_doubles(scenes, ranked, ranked.len() as int);
    let t = first_transition(scenes, list, 0);
    let p = primary_scene(scenes, list, list.len() as int);
    let first = if t >= 0 {
        seq![observation_of(scenes[t], timestamp)]
    } else {
        Seq::empty()
    };
    if p >= 0 {
        first.push(observation_of(scenes[p], timestamp))
    } else {
        first
    }
}

fn has_token(tokens: &Vec<String>, token: &str) -> (r: bool)
    ensures
        r == text::texts(tokens@).contains(token@),
{
    crate::object_state::holds_string(tokens, token)
}

impl SceneDefinition {
    fn observed(&self, timestamp: i64) -> (r: SceneObservation)
        ensures
            r@ == observation_of(self@, timestamp),
    {
        SceneObservation {
            timestamp,
            id: self.id.as_str().to_owned(),
            display_name: self.display_name.as_str().to_owned(),
            category: self.category.as_str().to_owned(),
            priority: self.priority,
        }
    }

    fn transition(&self) -> (r: bool)
        ensures
            r == is_transition(self@),
    {
        text::same_str(self.category.as_str(), "transition")
    }
}

pub open spec fn as_positions(v: Seq<(u128, usize)>) -> Seq<(u128, int)> {
    v.map_values(|x: (u128, usize)| (x.0, x.1 as int))
}

/// Every position is one of a scene.
pub open spec fn all_within(list: Seq<usize>, n: int) -> bool {
    forall|k: int| 0 <= k < list.len() ==> (#[trigger] list[k]) < n
}

impl SceneIndex {
    /// An index of the scenes. A token that several scenes have means the last of
    /// them.
    pub fn new(scenes: Vec<SceneDefinition>) -> (r: SceneIndex)
        ensures
            r@ == definition_views(scenes@),
    {
        SceneIndex { scenes }
    }

    fn find_scene(&self, token: &str) -> (r: Option<usize>)
        ensures
            match r {
                Some(at) => scene_with(self@, token@, self@.len() as int) == at && at
                    < self.scenes.len(),
                None => scene_with(self@, token@, self@.len() as int) == -1,
            },
    {
        let ghost all = self@;
        let mut k: usize = self.scenes.len();
        while k > 0
            invariant
                k <= self.scenes.len(),
                all == self@,
                scene_with(all, token@, all.len() as int) == scene_with(all, token@, k as int),
            decreases k,
        {
            assert(all[k - 1] == self.scenes@[k - 1]@);
            if has_token(&self.scenes[k - 1].tokens, token) {
                return Some(k - 1);
            }
            k -= 1;
        }
        None
    }

    fn collect_scenes(&self, lines: &Vec<Vec<char>>) -> (out: Vec<(u128, usize)>)
        ensures
            as_positions(out@) == named_scenes(
                self@,
                text::views(lines@),
                lines@.len() as int,
            ),
            forall|k: int| 0 <= k < out@.len() ==> (#[trigger] out@[k]).1 < self.scenes.len(),
    {
        let ghost all = self@;
        let ghost rows = text::views(lines@);
        let mut out: Vec<(u128, usize)> = Vec::new();
        let mut k: usize = 0;
        assert(as_positions(out@) =~= named_scenes(all, rows, 0));
        while k < lines.len()
            invariant
                k <= lines.len(),
                all == self@,
                rows == text::views(lines@),
                as_positions(out@) == named_scenes(all, rows, k as int),
                forall|m: int| 0 <= m < out@.len() ==> (#[trigger] out@[m]).1 < self.scenes.len(),
            decreases lines.len() - k,
        {
            let ghost before = as_positions(out@);
            assert(rows[k as int] == lines@[k as int]@);
            let line = text::trimmed(&lines[k], Class::Space);
            if text::starts(&line, "DataLayer_") {
                match self.find_scene(text::string_of(&line).as_str()) {
                    Some(at) => {
                        assert(all[at as int] == self.scenes@[at as int]@);
                        let priority: u128 = self.scenes[at].priority as u128;
                        out.push((priority, at));
                        assert(as_positions(out@) =~= before.push((priority, at as int)));
                    },
                    None => {},
                }
            }
            k += 1;
        }
        out
    }

    fn ranked(&self, s: &str) -> (out: Vec<usize>)
        ensures
            out@.map_values(|x: usize| x as int) == ranked_scenes(self@, s@),
            all_within(out@, self.scenes.len() as int),
    {
        let lines = abyss::lines_of(&text::chars_of(s));
        let found = self.collect_scenes(&lines);
        let ghost chosen = found@;
        let n: usize = found.len();
        let out = sorting::best_by_key(found, n);
        proof {
            let f = |x: usize| x as int;
            sorting::sorted_is_ordered(chosen);
            sorting::best_commutes_with_mapping(chosen, f, n as int);
            assert(sorting::mapped(chosen, f) =~= as_positions(chosen));
            sorting::sorted_is_ordered(as_positions(chosen));
            assert forall|k: int| 0 <= k < out@.len() implies (#[trigger] out@[k])
                < self.scenes.len() by {
                sorting::sorted_elements_are_elements(chosen, k);
                let w = choose|w: int|
                    0 <= w < chosen.len() && chosen[w] == sorting::sorted(chosen)[k];
                assert(chosen[w].1 < self.scenes.len());
            }
        }
        out
    }

    fn distinct_scenes(&self, list: &Vec<usize>) -> (out: Vec<usize>)
        requires
            all_within(list@, self.scenes.len() as int),
        ensures
            out@.map_values(|x: usize| x as int) == without_doubles(
                self@,
                list@.map_values(|x: usize| x as int),
                list@.len() as int,
            ),
            all_within(out@, self.scenes.len() as int),
    {
        let ghost all = self@;
        let ghost given = list@.map_values(|x: usize| x as int);
        let mut out: Vec<usize> = Vec::new();
        let mut k: usize = 0;
        assert(out@.map_values(|x: usize| x as int) =~= without_doubles(all, given, 0));
        while k < list.len()
            invariant
                k <= list.len(),
                all == self@,
                given == list@.map_values(|x: usize| x as int),
                all_within(list@, self.scenes.len() as int),
                all_within(out@, self.scenes.len() as int),
                out@.map_values(|x: usize| x as int) == without_doubles(all, given, k as int),
            decreases list.len() - k,
        {
            let ghost before = out@.map_values(|x: usize| x as int);
            let at: usize = list[k];
            assert(given[k as int] == at);
            assert(all[at as int] == self.scenes@[at as int]@);
            let doubled = if out.len() > 0 {
                let last: usize = out[out.len() - 1];
                assert(before.last() == last);
                assert(all[last as int] == self.scenes@[last as int]@);
                text::same_str(self.scenes[last].id.as_str(), self.scenes[at].id.as_str())
            } else {
                false
            };
            if !doubled {
                out.push(at);
                assert(out@.map_values(|x: usize| x as int) =~= before.push(at as int));
            }
            k += 1;
        }
        out
    }

    fn find_transition(&self, list: &Vec<usize>) -> (r: Option<usize>)
        requires
            all_within(list@, self.scenes.len() as int),
        ensures
            match r {
                Some(at) => first_transition(self@, list@.map_values(|x: usize| x as int), 0) == at
                    && at < self.scenes.len(),
                None => first_transition(self@, list@.map_values(|x: usize| x as int), 0) == -1,
            },
    {
        let ghost all = self@;
        let ghost given = list@.map_values(|x: usize| x as int);
        let mut k: usize = 0;
        while k < list.len()
            invariant
                k <= list.len(),
                all == self@,
                given == list@.map_values(|x: usize| x as int),
                all_within(list@, self.scenes.len() as int),
                first_transition(all, given, 0) == first_transition(all, given, k as int),
            decreases list.len() - k,
        {
            let at: usize = list[k];
            assert(given[k as int] == at);
            assert(all[at as int] == self.scenes@[at as int]@);
            if self.scenes[at].transition() {
                return Some(at);
            }
            k += 1;
        }
        None
    }

    fn find_primary(&self, list: &Vec<usize>) -> (r: Option<usize>)
        requires
            all_within(list@, self.scenes.len() as int),
        ensures
            match r {
                Some(at) => primary_scene(
                    self@,
                    list@.map_values(|x: usize| x as int),
                    list@.len() as int,
                ) == at && at < self.scenes.len(),
                None => primary_scene(
                    self@,
                    list@.map_values(|x: usize| x as int),
                    list@.len() as int,
                ) == -1,
            },
    {
        let ghost all = self@;
        let ghost given = list@.map_values(|x: usize| x as int);
        let mut best: Option<usize> = None;
        let mut k: usize = 0;
        while k < list.len()
            invariant
                k <= list.len(),
                all == self@,
                given == list@.map_values(|x: usize| x as int),
                all_within(list@, self.scenes.len() as int),
                match best {
                    Some(b) => b < self.scenes.len() && primary_scene(all, given, k as int) == b,
                    None => primary_scene(all, given, k as int) == -1,
                },
            decreases list.len() - k,
        {
            let at: usize = list[k];
            assert(given[k as int] == at);
            assert(all[at as int] == self.scenes@[at as int]@);
            if !self.scenes[at].transition() {
                match best {
                    Some(b) => {
                        assert(all[b as int] == self.scenes@[b as int]@);
                        if self.scenes[at].priority >= self.scenes[b].priority {
                            best = Some(at);
                        }
                    },
                    None => {
                        best = Some(at);
                    },
                }
            }
            k += 1;
        }
        best
    }
}

/// The scenes that a text tells.
pub fn detect_scenes(index: &SceneIndex, timestamp: i64, decoded_text: &str) -> (out: Vec<
    SceneObservation,
>)
    ensures
        scene_views(out@) == scenes_in(index@, timestamp, decoded_text@),
{
    let ranked = index.ranked(decoded_text);
    let list = index.distinct_scenes(&ranked);
    let mut out: Vec<SceneObservation> = Vec::new();
    match index.find_transition(&list) {
        Some(at) => {
            assert(index@[at as int] == index.scenes@[at as int]@);
            out.push(index.scenes[at].observed(timestamp));
        },
        None => {},
    }
    match index.find_primary(&list) {
        Some(at) => {
            assert(index@[at as int] == index.scenes@[at as int]@);
            out.push(index.scenes[at].observed(timestamp));
        },
        None => {},
    }
    assert(scene_views(out@) =~= scenes_in(index@, timestamp, decoded_text@));
    out
}

/// The last scene that a text tells.
pub fn detect_scene(index: &SceneIndex, timestamp: i64, decoded_text: &str) -> (r: Option<
    SceneObservation,
>)
    ensures
        match r {
            Some(s) => scenes_in(index@, timestamp, decoded_text@).len() > 0 && s@ == scenes_in(
                index@,
                timestamp,
                decoded_text@,
            ).last(),
            None => scenes_in(index@, timestamp, decoded_text@).len() == 0,
        },
{
    let mut found = detect_scenes(index, timestamp, decoded_text);
    let ghost all = scene_views(found@);
    match found.pop() {
        Some(s) => {
            assert(all.last() == s@);
            Some(s)
        },
        None => None,
    }
}

// --------------------------------------------------------------------------- state

/// The scene that the game is in.
#[derive(Debug)]
pub struct SceneState {
    current: Option<SceneObservation>,
    in_transition: bool,
}

#[verifier::ext_equal]
pub struct StateView {
    pub current: Option<SceneView>,
    pub in_transition: bool,
}

pub open spec fn opt_scene(o: Option<SceneObservation>) -> Option<SceneView> {
    match o {
        Some(s) => Some(s@),
        None => None,
    }
}

impl View for SceneState {
    type V = StateView;

    closed spec fn view(&self) -> StateView {
        StateView { current: opt_scene(self.current), in_transition: self.in_transition }
    }
}

/// The scene gives way to the other: it was left, the other is no less important,
/// or it was seen long ago.
pub open spec fn gives_way(v: StateView, scene: SceneView) -> bool {
    match v.current {
        Some(c) => v.in_transition || scene.priority >= c.priority || scene.timestamp - c.timestamp
            >= SCENE_HOLD,
        None => true,
    }
}

/// The state after a scene was seen. A transition leaves the name of the last
/// scene standing until the next one is seen.
pub open spec fn with_scene(v: StateView, scene: SceneView) -> StateView {
    if scene.category == "transition"@ {
        StateView { in_transition: true, ..v }
    } else if gives_way(v, scene) {
        StateView { current: Some(scene), in_transition: false }
    } else {
        v
    }
}

impl Default for SceneState {
    fn default() -> (r: SceneState)
        ensures
            r@.current is None,
            !r@.in_transition,
    {
        SceneState { current: None, in_transition: false }
    }
}

impl SceneState {
    /// A scene was seen.
    pub fn apply(&mut self, scene: SceneObservation)
        ensures
            final(self)@ == with_scene(old(self)@, scene@),
    {
        if text::same_str(scene.category.as_str(), "transition") {
            self.in_transition = true;
            return;
        }
        let replaced = match &self.current {
            Some(c) => self.in_transition || scene.priority >= c.priority || (
            scene.timestamp as i128) - (c.timestamp as i128) >= SCENE_HOLD as i128,
            None => true,
        };
        if replaced {
            self.current = Some(scene);
            self.in_transition = false;
        }
    }

    /// The name of the scene; empty where none was seen.
    pub fn display_name(&self) -> (out: String)
        ensures
            out@ == match self@.current {
                Some(c) => c.display_name,
                None => Seq::empty(),
            },
    {
        match &self.current {
            Some(c) => c.display_name.as_str().to_owned(),
            None => String::new(),
        }
    }
}

// -------------------------------------------------------------------------- laws

/// A text tells two scenes at most, and only the first can be a transition.
pub proof fn at_most_a_transition_and_a_scene(
    scenes: Seq<DefinitionView>,
    timestamp: i64,
    s: Seq<char>,
)
    ensures
        scenes_in(scenes, timestamp, s).len() <= 2,
        scenes_in(scenes, timestamp, s).len() == 2 ==> scenes_in(scenes, timestamp, s)[1].category
            != "transition"@,
{
    let ranked = ranked_scenes(scenes, s);
    let list = without_doubles(scenes, ranked, ranked.len() as int);
    lemma_primary_is_no_transition(scenes, list, list.len() as int);
}

proof fn lemma_primary_is_no_transition(scenes: Seq<DefinitionView>, list: Seq<int>, n: int)
    ensures
        primary_scene(scenes, list, n) >= 0 ==> !is_transition(
            scenes[primary_scene(scenes, list, n)],
        ),
    decreases n,
{
    if n > 0 {
        lemma_primary_is_no_transition(scenes, list, n - 1);
    }
}

/// After a transition any scene is taken, however unimportant.
pub proof fn a_transition_lets_every_scene_in(v: StateView, t: SceneView, scene: SceneView)
    requires
        t.category == "transition"@,
        scene.category != "transition"@,
    ensures
        with_scene(v, t).current == v.current,
        with_scene(with_scene(v, t), scene).current == Some(scene),
{
}

/// A less important scene waits until the present one was last seen long enough
/// ago.
pub proof fn less_important_scenes_wait(v: StateView, scene: SceneView)
    requires
        scene.category != "transition"@,
        !v.in_transition,
        v.current matches Some(c) && scene.priority < c.priority,
    ensures
        with_scene(v, scene).current == Some(scene) <==> scene.timestamp
            - v.current.unwrap().timestamp >= SCENE_HOLD,
{
}

/// A less important scene waits for thirty seconds; one that is as important, or the
/// first, is taken at once.
pub proof fn scenes_hold_for_thirty_seconds(v: StateView, scene: SceneView)
    requires
        scene.category != "transition"@,
    ensures
        v.current is None ==> with_scene(v, scene).current == Some(scene),
        v.current matches Some(c) ==> {
            let taken = with_scene(v, scene).current == Some(scene) && !with_scene(
                v,
                scene,
            ).in_transition;
            &&& scene.priority >= c.priority || v.in_transition || scene.timestamp >= c.timestamp
                + 30_000_000 ==> taken
            &&& scene.priority < c.priority && !v.in_transition && scene.timestamp < c.timestamp
                + 30_000_000 ==> with_scene(v, scene) == v
        },
{
}

proof fn lemma_primary(scenes: Seq<DefinitionView>, list: Seq<int>, n: int)
    requires
        0 <= n <= list.len(),
        forall|k: int| 0 <= k < list.len() ==> 0 <= #[trigger] list[k] < scenes.len(),
    ensures
        ({
            let p = primary_scene(scenes, list, n);
            &&& p >= 0 ==> list.contains(p) && scenes[p].category != "transition"@
            &&& forall|k: int|
                0 <= k < n && scenes[#[trigger] list[k]].category != "transition"@ ==> p >= 0
                    && scenes[list[k]].priority <= scenes[p].priority
        }),
    decreases n,
{
    if n > 0 {
        lemma_primary(scenes, list, n - 1);
        if primary_scene(scenes, list, n) == list[n - 1] {
            assert(list.contains(list[n - 1]));
        }
    }
}

proof fn lemma_scene_with(scenes: Seq<DefinitionView>, token: Seq<char>, n: int)
    requires
        0 <= n <= scenes.len(),
    ensures
        ({
            let at = scene_with(scenes, token, n);
            &&& -1 <= at < n
            &&& at >= 0 ==> scenes[at].tokens.contains(token)
            &&& forall|k: int|
                0 <= k < n && (#[trigger] scenes[k]).tokens.contains(token) ==> k <= at
        }),
    decreases n,
{
    if n > 0 {
        lemma_scene_with(scenes, token, n - 1);
    }
}

/// The line names the scene: it starts as the layers do, and is one of the scene's
/// tokens, but none of a scene that is defined later.
pub open spec fn line_names(scenes: Seq<DefinitionView>, line: Seq<char>, at: int) -> bool {
    &&& 0 <= at < scenes.len()
    &&& text::starts_with(text::trim(line, Class::Space), "DataLayer_"@)
    &&& scenes[at].tokens.contains(text::trim(line, Class::Space))
    &&& forall|k: int|
        at < k < scenes.len() ==> !(#[trigger] scenes[k]).tokens.contains(
            text::trim(line, Class::Space),
        )
}

proof fn lemma_named_scenes(scenes: Seq<DefinitionView>, lines: Seq<Seq<char>>, n: int)
    requires
        0 <= n <= lines.len(),
    ensures
        forall|i: int|
            0 <= i < named_scenes(scenes, lines, n).len() ==> exists|l: int|
                0 <= l < n && line_names(
                    scenes,
                    #[trigger] lines[l],
                    (#[trigger] named_scenes(scenes, lines, n)[i]).1,
                ),
        forall|l: int, at: int|
            0 <= l < n && #[trigger] line_names(scenes, lines[l], at) ==> named_scenes(
                scenes,
                lines,
                n,
            ).contains((scenes[at].priority as u128, at)),
    decreases n,
{
    if n > 0 {
        lemma_named_scenes(scenes, lines, n - 1);
        let before = named_scenes(scenes, lines, n - 1);
        let all = named_scenes(scenes, lines, n);
        let line = text::trim(lines[n - 1], Class::Space);
        lemma_scene_with(scenes, line, scenes.len() as int);
        let found = scene_with(scenes, line, scenes.len() as int);
        assert forall|i: int| 0 <= i < all.len() implies exists|l: int|
            0 <= l < n && line_names(scenes, #[trigger] lines[l], (#[trigger] all[i]).1) by {
            if i < before.len() {
                assert(all[i] == before[i]);
                let l = choose|l: int|
                    0 <= l < n - 1 && line_names(scenes, #[trigger] lines[l], before[i].1);
                assert(line_names(scenes, lines[l], all[i].1));
            } else {
                assert(line_names(scenes, lines[n - 1], all[i].1));
            }
        }
        assert forall|l: int, at: int|
            0 <= l < n && #[trigger] line_names(scenes, lines[l], at) implies all.contains(
            (scenes[at].priority as u128, at),
        ) by {
            let x = (scenes[at].priority as u128, at);
            if l < n - 1 {
                let w = choose|w: int| 0 <= w < before.len() && before[w] == x;
                assert(all[w] == x);
            } else {
                assert(found == at);
                assert(all[all.len() - 1] == x);
            }
        }
    }
}

proof fn lemma_without_doubles(scenes: Seq<DefinitionView>, list: Seq<int>, n: int)
    requires
        0 <= n <= list.len(),
        forall|k: int| 0 <= k < list.len() ==> 0 <= #[trigger] list[k] < scenes.len(),
        forall|i: int, j: int|
            0 <= i < j < scenes.len() ==> (#[trigger] scenes[i]).id != (#[trigger] scenes[j]).id,
    ensures
        forall|k: int|
            0 <= k < without_doubles(scenes, list, n).len() ==> list.contains(
                #[trigger] without_doubles(scenes, list, n)[k],
            ),
        forall|k: int|
            0 <= k < n ==> without_doubles(scenes, list, n).contains(#[trigger] list[k]),
    decreases n,
{
    if n > 0 {
        lemma_without_doubles(scenes, list, n - 1);
        let before = without_doubles(scenes, list, n - 1);
        let all = without_doubles(scenes, list, n);
        assert forall|k: int| 0 <= k < all.len() implies list.contains(#[trigger] all[k]) by {
            if k < before.len() {
                assert(all[k] == before[k]);
            } else {
                assert(all[k] == list[n - 1]);
            }
        }
        assert forall|k: int| 0 <= k < n implies all.contains(#[trigger] list[k]) by {
            if k < n - 1 {
                let w = choose|w: int| 0 <= w < before.len() && before[w] == list[k];
                assert(all[w] == list[k]);
            } else if before.len() > 0 && scenes[before.last()].id == scenes[list[n - 1]].id {
                assert(list.contains(before[before.len() - 1]));
                assert(all[all.len() - 1] == list[k]);
            } else {
                assert(all[all.len() - 1] == list[k]);
            }
        }
    }
}

/// Where a line of a text names a scene that is no transition, the text tells a scene
/// that is named in it and at least as important.
pub proof fn the_most_important_scene_is_told(
    scenes: Seq<DefinitionView>,
    timestamp: i64,
    s: Seq<char>,
    l: int,
    at: int,
)
    requires
        forall|i: int, j: int|
            0 <= i < j < scenes.len() ==> (#[trigger] scenes[i]).id != (#[trigger] scenes[j]).id,
        0 <= l < abyss::lines(s).len(),
        line_names(scenes, abyss::lines(s)[l], at),
        scenes[at].category != "transition"@,
    ensures
        scenes_in(scenes, timestamp, s).len() > 0,
        scenes_in(scenes, timestamp, s).last().timestamp == timestamp,
        scenes_in(scenes, timestamp, s).last().category != "transition"@,
        scenes_in(scenes, timestamp, s).last().priority >= scenes[at].priority,
        exists|m: int, k: int|
            0 <= m < abyss::lines(s).len() && #[trigger] line_names(scenes, abyss::lines(s)[m], k)
                && scenes[k].id == scenes_in(scenes, timestamp, s).last().id,
{
    let lines = abyss::lines(s);
    let named = named_scenes(scenes, lines, lines.len() as int);
    let sorted = sorting::sorted(named);
    let ranked = ranked_scenes(scenes, s);
    lemma_named_scenes(scenes, lines, lines.len() as int);
    sorting::sorted_is_ordered(named);
    assert forall|k: int| 0 <= k < ranked.len() implies 0 <= #[trigger] ranked[k] < scenes.len()
        && exists|m: int|
        0 <= m < lines.len() && line_names(scenes, #[trigger] lines[m], ranked[k]) by {
        sorting::sorted_elements_are_elements(named, k);
        let w = choose|w: int| 0 <= w < named.len() && named[w] == sorted[k];
        assert(named[w].1 == ranked[k]);
        let m = choose|m: int|
            0 <= m < lines.len() && line_names(scenes, #[trigger] lines[m], named[w].1);
        assert(line_names(scenes, lines[m], ranked[k]));
    }
    let x = (scenes[at].priority as u128, at);
    assert(named.contains(x));
    let w = choose|w: int| 0 <= w < named.len() && named[w] == x;
    sorting::elements_stay_when_sorted(named, w);
    let r = choose|r: int| 0 <= r < sorted.len() && sorted[r] == x;
    assert(ranked[r] == at);
    lemma_without_doubles(scenes, ranked, ranked.len() as int);
    let list = without_doubles(scenes, ranked, ranked.len() as int);
    assert forall|k: int| 0 <= k < list.len() implies 0 <= #[trigger] list[k] < scenes.len() by {
        let v = choose|v: int| 0 <= v < ranked.len() && ranked[v] == list[k];
        assert(0 <= ranked[v] < scenes.len());
    }
    lemma_primary(scenes, list, list.len() as int);
    assert(list.contains(ranked[r]));
    let q = choose|q: int| 0 <= q < list.len() && list[q] == at;
    assert(scenes[list[q]].category != "transition"@);
    let p = primary_scene(scenes, list, list.len() as int);
    assert(p >= 0);
    let y = choose|y: int| 0 <= y < list.len() && list[y] == p;
    assert(ranked.contains(list[y]));
    let v = choose|v: int| 0 <= v < ranked.len() && ranked[v] == p;
    let m = choose|m: int|
        0 <= m < lines.len() && line_names(scenes, #[trigger] lines[m], ranked[v]);
    assert(line_names(scenes, lines[m], p));
}

} // verus!
