//! The table of characters.
use std::collections::HashMap;
use vstd::prelude::*;

use crate::model::CharacterInfo;
use crate::text;

verus! {

broadcast use vstd::std_specs::hash::group_hash_axioms;

/// The character that a key of the table names.
pub open spec fn row_id(key: Seq<char>) -> Option<int> {
    text::parse_uint(key, u32::MAX as int)
}

/// Where the last of the first `n` rows stands that is about a character.
pub open spec fn last_row(rows: Seq<(String, CharacterInfo)>, id: u32, n: int) -> Option<int>
    decreases n,
{
    if n <= 0 {
        None
    } else if row_id(rows[n - 1].0@) == Some(id as int) {
        Some(n - 1)
    } else {
        last_row(rows, id, n - 1)
    }
}

/// Whether a table holds what the first `n` rows say.
pub open spec fn is_table(
    table: Map<u32, CharacterInfo>,
    rows: Seq<(String, CharacterInfo)>,
    n: int,
) -> bool {
    forall|id: u32|
        match last_row(rows, id, n) {
            Some(at) => #[trigger] table.contains_key(id) && table[id] == rows[at].1,
            None => !table.contains_key(id),
        }
}

/// The rows by character. Rows whose key is no number are left out, and of two
/// rows about one character the later one counts.
pub fn load_characters(rows: Vec<(String, CharacterInfo)>) -> (table: HashMap<u32, CharacterInfo>)
    ensures
        is_table(table@, rows@, rows@.len() as int),
{
    let ghost all = rows@;
    let mut table: HashMap<u32, CharacterInfo> = HashMap::new();
    for row in it: rows
        invariant
            it.seq() == all,
            is_table(table@, all, it.index() as int),
    {
        let (key, info) = row;
        if let Some(id) = text::parse_number(&text::chars_of(key.as_str()), 0xffff_ffff) {
            table.insert(id as u32, info);
        }
    }
    table
}

/// Of the rows with the number of a character, the last counts, and a character without
/// a row is not in the table.
pub proof fn the_last_row_of_a_character_counts(
    rows: Seq<(String, CharacterInfo)>,
    id: u32,
    n: int,
)
    requires
        0 <= n <= rows.len(),
    ensures
        match last_row(rows, id, n) {
            Some(at) => 0 <= at < n && text::parse_uint(rows[at].0@, 0xffff_ffff) == Some(id as int)
                && forall|k: int|
                at < k < n ==> text::parse_uint((#[trigger] rows[k]).0@, 0xffff_ffff) != Some(
                    id as int,
                ),
            None => forall|k: int|
                0 <= k < n ==> text::parse_uint((#[trigger] rows[k]).0@, 0xffff_ffff) != Some(
                    id as int,
                ),
        },
    decreases n,
{
    if n > 0 {
        the_last_row_of_a_character_counts(rows, id, n - 1);
    }
}

} // verus!
