//! The course of an abyss run, as the protocol text of packets tells it.
use vstd::prelude::*;

use crate::model::{AbyssEvent, AbyssHalf};
use crate::text;
use crate::text::Class;

verus! {

/// The line without a carriage return at its end.
pub open spec fn without_return(line: Seq<char>) -> Seq<char> {
    if line.len() > 0 && line.last() == '\r' {
        line.drop_last()
    } else {
        line
    }
}

/// The lines of a text, without their ends. A line ends with a line feed, before
/// which a carriage return may stand; what follows the last line feed is a line
/// unless it is empty.
pub open spec fn lines(s: Seq<char>) -> Seq<Seq<char>> {
    let pieces = text::split(s, Class::Only('\n'));
    let ended = Seq::new(
        (pieces.len() - 1) as nat,
        |i: int| without_return(pieces[i]),
    );
    if pieces.last().len() == 0 {
        ended
    } else {
        ended.push(pieces.last())
    }
}

proof fn lemma_split_not_empty(s: Seq<char>, class: Class, i: int)
    ensures
        text::split_from(s, class, i).len() > 0,
{
}

pub fn lines_of(s: &Vec<char>) -> (out: Vec<Vec<char>>)
    ensures
        text::views(out@) == lines(s@),
{
    let pieces = text::split_at_class(s, Class::Only('\n'));
    let ghost all = text::views(pieces@);
    proof {
        lemma_split_not_empty(s@, Class::Only('\n'), 0);
    }
    let n: usize = pieces.len();
    assert(all.len() == n && n > 0);
    let mut out: Vec<Vec<char>> = Vec::new();
    let mut i: usize = 0;
    while i < n - 1
        invariant
            i <= n - 1,
            n == pieces.len(),
            n > 0,
            all == text::views(pieces@),
            out@.len() == i,
            forall|k: int| 0 <= k < i ==> (#[trigger] out@[k])@ == without_return(all[k]),
        decreases n - i,
    {
        let piece = &pieces[i];
        let m: usize = piece.len();
        let end: usize = if m > 0 && piece[m - 1] == '\r' { m - 1 } else { m };
        let line = text::part(piece, 0, end);
        assert(line@ =~= without_return(all[i as int]));
        out.push(line);
        i += 1;
    }
    let last = text::part(&pieces[n - 1], 0, pieces[n - 1].len());
    assert(last@ =~= all.last());
    if last.len() > 0 {
        out.push(last);
    }
    assert(text::views(out@) =~= lines(s@));
    out
}

/// The floor and the half that a stage id names: words between underscores, the
/// first of them `Abyss`, the last but one the floor, the last `0` or `1`.
pub open spec fn stage_id(value: Seq<char>) -> Option<(u32, AbyssHalf)> {
    let parts = text::split(value, Class::Only('_'));
    if parts.len() < 4 || parts[0] != "Abyss"@ {
        None
    } else {
        match text::parse_uint(parts[parts.len() - 2], u32::MAX as int) {
            None => None,
            Some(floor) => if parts.last() == "0"@ {
                Some((floor as u32, AbyssHalf::First))
            } else if parts.last() == "1"@ {
                Some((floor as u32, AbyssHalf::Second))
            } else {
                None
            },
        }
    }
}

/// The stage that the last of the first `n` lines to name one names.
pub open spec fn last_stage(all: Seq<Seq<char>>, n: int) -> Option<(u32, AbyssHalf)>
    decreases n,
{
    if n <= 0 {
        None
    } else {
        match stage_id(all[n - 1]) {
            Some(stage) => Some(stage),
            None => last_stage(all, n - 1),
        }
    }
}

/// The text tells that the run has succeeded.
pub open spec fn tells_success(s: Seq<char>) -> bool {
    text::contains(s, "ConditionState_Success"@) && text::contains(s, "FAbyssGamePlayData"@)
}

/// The stage that the text tells of: the one that a line names, or else the half
/// that the fight's data names, if it names one half only.
pub open spec fn told_stage(timestamp: i64, s: Seq<char>) -> Option<AbyssEvent> {
    if tells_success(s) {
        None
    } else {
        match last_stage(lines(s), lines(s).len() as int) {
            Some((floor, half)) => Some(AbyssEvent::Stage { timestamp, floor: Some(floor), half }),
            None => {
                let first = text::contains(s, "EAbyssFightStage::FirstHalf"@);
                let second = text::contains(s, "EAbyssFightStage::SecondHalf"@);
                if text::contains(s, "FAbyssGamePlayData"@) && !text::contains(s, "AbyssClone"@)
                    && first != second {
                    Some(
                        AbyssEvent::Stage {
                            timestamp,
                            floor: None,
                            half: if first {
                                AbyssHalf::First
                            } else {
                                AbyssHalf::Second
                            },
                        },
                    )
                } else {
                    None
                }
            },
        }
    }
}

/// What the protocol text of a packet tells about the run, in order.
pub open spec fn told_events(timestamp: i64, s: Seq<char>) -> Seq<AbyssEvent> {
    let stage = match told_stage(timestamp, s) {
        Some(event) => seq![event],
        None => Seq::empty(),
    };
    let restart = if text::contains(s, "Abyss_Battle_Born"@) {
        seq![AbyssEvent::RestartDetected { timestamp }]
    } else {
        Seq::empty()
    };
    let success = if tells_success(s) {
        seq![AbyssEvent::Success { timestamp }]
    } else {
        Seq::empty()
    };
    let exit = if text::contains(s, "Abyss_Station_LeaveClone"@) {
        seq![AbyssEvent::Exit { timestamp }]
    } else {
        Seq::empty()
    };
    stage + restart + success + exit
}

/// The floor and the half that a stage id names.
pub fn parse_abyss_stage_id(value: &str) -> (r: Option<(u32, AbyssHalf)>)
    ensures
        r == stage_id(value@),
{
    read_stage_id(&text::chars_of(value))
}

fn read_stage_id(value: &Vec<char>) -> (r: Option<(u32, AbyssHalf)>)
    ensures
        r == stage_id(value@),
{
    let parts = text::split_at_class(value, Class::Only('_'));
    let ghost all = text::views(parts@);
    let n: usize = parts.len();
    assert(all.len() == n);
    if n < 4 {
        return None;
    }
    assert(all[0] == parts@[0]@);
    assert(all[n - 2] == parts@[n - 2]@);
    assert(all.last() == parts@[n - 1]@);
    if !text::same(&parts[0], &text::chars_of("Abyss")) {
        return None;
    }
    match text::parse_number(&parts[n - 2], u32::MAX as u64) {
        None => None,
        Some(floor) => {
            if text::same(&parts[n - 1], &text::chars_of("0")) {
                Some((floor as u32, AbyssHalf::First))
            } else if text::same(&parts[n - 1], &text::chars_of("1")) {
                Some((floor as u32, AbyssHalf::Second))
            } else {
                None
            }
        },
    }
}

fn find_last_stage(all: &Vec<Vec<char>>) -> (r: Option<(u32, AbyssHalf)>)
    ensures
        r == last_stage(text::views(all@), all@.len() as int),
{
    let mut n: usize = all.len();
    while n > 0
        invariant
            n <= all.len(),
            last_stage(text::views(all@), all@.len() as int) == last_stage(
                text::views(all@),
                n as int,
            ),
        decreases n,
    {
        let stage = read_stage_id(&all[n - 1]);
        if stage.is_some() {
            return stage;
        }
        n -= 1;
    }
    None
}

/// What the protocol text of a packet tells about the run.
pub fn abyss_events_from_text(timestamp: i64, decoded_text: &str) -> (events: Vec<AbyssEvent>)
    ensures
        events@ == told_events(timestamp, decoded_text@),
{
    let s = text::chars_of(decoded_text);
    let mut events: Vec<AbyssEvent> = Vec::new();
    let play_data = text::has(&s, "FAbyssGamePlayData");
    let success = text::has(&s, "ConditionState_Success") && play_data;
    if !success {
        let all = lines_of(&s);
        match find_last_stage(&all) {
            Some((floor, half)) => {
                events.push(AbyssEvent::Stage { timestamp, floor: Some(floor), half });
            },
            None => {
                let first = text::has(&s, "EAbyssFightStage::FirstHalf");
                let second = text::has(&s, "EAbyssFightStage::SecondHalf");
                if play_data && !text::has(&s, "AbyssClone") && first != second {
                    let half = if first { AbyssHalf::First } else { AbyssHalf::Second };
                    events.push(AbyssEvent::Stage { timestamp, floor: None, half });
                }
            },
        }
    }
    if text::has(&s, "Abyss_Battle_Born") {
        events.push(AbyssEvent::RestartDetected { timestamp });
    }
    if success {
        events.push(AbyssEvent::Success { timestamp });
    }
    if text::has(&s, "Abyss_Station_LeaveClone") {
        events.push(AbyssEvent::Exit { timestamp });
    }
    assert(events@ =~= told_events(timestamp, decoded_text@));
    events
}

/// A text that tells of success tells of no stage, and a text tells of one stage
/// at most.
pub proof fn success_excludes_a_stage(timestamp: i64, s: Seq<char>)
    ensures
        tells_success(s) ==> told_stage(timestamp, s) is None,
        told_events(timestamp, s).len() <= 4,
        tells_success(s) ==> told_events(timestamp, s).len() <= 3,
{
}

/// A text tells of a restart, a success and an exit exactly where it holds their words,
/// of a stage at most once, and of a stage never together with a success.
pub proof fn events_are_told_by_their_words(timestamp: i64, s: Seq<char>)
    ensures
        told_events(timestamp, s).contains(AbyssEvent::RestartDetected { timestamp })
            <==> text::contains(s, "Abyss_Battle_Born"@),
        told_events(timestamp, s).contains(AbyssEvent::Success { timestamp }) <==> text::contains(
            s,
            "ConditionState_Success"@,
        ) && text::contains(s, "FAbyssGamePlayData"@),
        told_events(timestamp, s).contains(AbyssEvent::Exit { timestamp }) <==> text::contains(
            s,
            "Abyss_Station_LeaveClone"@,
        ),
        forall|i: int|
            0 < i < told_events(timestamp, s).len() ==> !(#[trigger] told_events(
                timestamp,
                s,
            )[i] is Stage),
        told_events(timestamp, s).contains(AbyssEvent::Success { timestamp }) ==> forall|i: int|
            0 <= i < told_events(timestamp, s).len() ==> !(#[trigger] told_events(
                timestamp,
                s,
            )[i] is Stage),
{
    let all = told_events(timestamp, s);
    let stage = match told_stage(timestamp, s) {
        Some(event) => seq![event],
        None => Seq::empty(),
    };
    let a = stage.len() as int;
    let restart = text::contains(s, "Abyss_Battle_Born"@);
    let b = a + if restart {
        1int
    } else {
        0
    };
    let success = tells_success(s);
    let c = b + if success {
        1int
    } else {
        0
    };
    if restart {
        assert(all[a] == AbyssEvent::RestartDetected { timestamp });
    }
    if success {
        assert(all[b] == AbyssEvent::Success { timestamp });
    }
    if text::contains(s, "Abyss_Station_LeaveClone"@) {
        assert(all[c] == AbyssEvent::Exit { timestamp });
    }
    assert forall|i: int| 0 <= i < all.len() implies {
        &&& #[trigger] all[i] is Stage ==> i < a
        &&& all[i] is RestartDetected ==> restart
        &&& all[i] is Success ==> success
        &&& all[i] is Exit ==> text::contains(s, "Abyss_Station_LeaveClone"@)
    } by {}
}

/// A stage is the one that the last line of its form names, or, where no line does, the
/// half that the text alone tells of.
pub proof fn stages_are_those_of_the_last_line(timestamp: i64, s: Seq<char>, k: int)
    requires
        0 <= k < lines(s).len(),
        stage_id(lines(s)[k]) is Some,
        forall|j: int| k < j < lines(s).len() ==> stage_id(#[trigger] lines(s)[j]) is None,
        !text::contains(s, "ConditionState_Success"@),
    ensures
        told_events(timestamp, s).len() > 0,
        told_events(timestamp, s)[0] == (AbyssEvent::Stage {
            timestamp,
            floor: Some(stage_id(lines(s)[k]).unwrap().0),
            half: stage_id(lines(s)[k]).unwrap().1,
        }),
{
    lemma_last_stage(lines(s), k, lines(s).len() as int);
}

proof fn lemma_last_stage(all: Seq<Seq<char>>, k: int, n: int)
    requires
        0 <= k < n <= all.len(),
        stage_id(all[k]) is Some,
        forall|j: int| k < j < n ==> stage_id(#[trigger] all[j]) is None,
    ensures
        last_stage(all, n) == stage_id(all[k]),
    decreases n,
{
    if k < n - 1 {
        lemma_last_stage(all, k, n - 1);
    }
}

/// A stage is named by what begins with the abyss's name, goes on with anything, and ends
/// with the number of the floor, and then zero for the first half and one for the
/// second.
pub proof fn stages_name_floor_and_half(parts: Seq<Seq<char>>, floor: nat)
    requires
        4 <= parts.len(),
        parts[0] == "Abyss"@,
        forall|k: int| 0 <= k < parts.len() ==> !(#[trigger] parts[k]).contains('_'),
        parts[parts.len() - 2] == text::dec(floor),
        floor <= 0xffff_ffff,
    ensures
        parts.last() == "0"@ ==> stage_id(text::join(parts, seq!['_'])) == Some(
            (floor as u32, AbyssHalf::First),
        ),
        parts.last() == "1"@ ==> stage_id(text::join(parts, seq!['_'])) == Some(
            (floor as u32, AbyssHalf::Second),
        ),
        parts.last() != "0"@ && parts.last() != "1"@ ==> stage_id(
            text::join(parts, seq!['_']),
        ) is None,
{
    text::joined_parts_split_again(parts, '_');
    text::decimals_are_digits(floor);
    text::decimals_read_back(floor);
    assert(text::is_digit(text::dec(floor)[0]));
    reveal_strlit("0");
    reveal_strlit("1");
    assert("0"@[0] != "1"@[0]);
}

} // verus!
