//! Damage records, hit-point updates and character declarations in the payload
//! of a packet. All of them may start at any bit.
use std::collections::HashMap;
use vstd::prelude::*;

use crate::bits;
use crate::float;
use crate::float::{F32, F64};
use crate::model;
use crate::model::{CharacterInfo, Hit};
use crate::runs;
use crate::text;
use crate::text::Class;

verus! {

broadcast use vstd::std_specs::hash::group_hash_axioms;

/// How many fields a damage record has.
pub const RECORD_FIELDS: usize = 10;

/// The largest field of a record, in bytes.
pub const MAX_RECORD_FIELD_LENGTH: usize = 8;

/// The bits of the least damage, two.
pub const MIN_DAMAGE: u32 = 0x4000_0000;

/// The bits of the largest damage, a milliard.
pub const MAX_DAMAGE: u32 = 0x4e6e_6b28;

/// The bits of the most hit points that a character can have, half a million.
pub const MAX_PLAUSIBLE_CHARACTER_HP: u32 = 0x48f4_2400;

pub const CURRENT_HP_PREFIX_LENGTH: usize = 16;

pub const BOSS_HP_PREFIX_LENGTH: usize = 36;

/// The length of the token that names a target in replicated fight data.
pub const SDK_TARGET_TOKEN_LENGTH: usize = 40;

/// How far around a record its metadata is looked for.
pub const METADATA_BEFORE: usize = 256;

pub const METADATA_AFTER: usize = 320;

/// The longest metadata value, in bytes.
pub const MAX_METADATA_VALUE: u64 = 96;

/// Which way a packet goes.
#[derive(Clone, Copy, Debug, PartialEq, Eq, Structural)]
pub enum PacketDirection {
    ClientToServer,
    ServerToClient,
}

/// One damage record.
#[derive(Clone, Copy, Debug, PartialEq, Eq)]
pub struct ParsedDamageRecord {
    pub damage: F32,
    pub target_hp_before: F32,
    pub target_max_hp: F32,
    pub damage_time: F64,
    pub world_time: F32,
    pub repeated_damage: F32,
    pub state_flags: (i32, i32, i32),
    pub trailing_value: F32,
    pub byte_offset: usize,
    pub bit_shift: u8,
}

/// A character's current hit points.
#[derive(Clone, Copy, Debug, PartialEq, Eq, Structural)]
pub struct ParsedCurrentHpUpdate {
    pub current_hp: F32,
    pub byte_offset: usize,
    pub bit_shift: u8,
}

/// A boss's current hit points.
#[derive(Clone, Copy, Debug, PartialEq, Eq, Structural)]
pub struct ParsedBossHpUpdate {
    pub current_hp: F32,
    pub byte_offset: usize,
    pub bit_shift: u8,
}

// ------------------------------------------------------------- record layout

/// The type tag of field `i` of a damage record.
pub open spec fn field_type(i: int) -> u8 {
    if i == 3 {
        13
    } else if 6 <= i <= 8 {
        6
    } else {
        12
    }
}

/// The length of field `i` of a damage record, in bytes.
pub open spec fn field_length(i: int) -> int {
    if i == 3 {
        8
    } else {
        4
    }
}

/// Where field `i` of a damage record starts, in bits: each of those before it
/// has a header of five bytes.
pub open spec fn field_start(i: int) -> int {
    if i <= 3 {
        72 * i
    } else {
        72 * i + 32
    }
}

/// The field at a bit position: its type tag and its value. A field is a tag
/// byte, a length in four bytes, and that many bytes.
pub open spec fn field_at(data: Seq<u8>, pos: int) -> Option<(u8, Seq<u8>)> {
    match bits::bytes_at(data, pos, 5) {
        None => None,
        Some(header) => {
            let length = bits::le32(header, 1) as int;
            if 0 < length <= MAX_RECORD_FIELD_LENGTH {
                match bits::bytes_at(data, pos + 40, length) {
                    None => None,
                    Some(raw) => Some((header[0], raw)),
                }
            } else {
                None
            }
        },
    }
}

/// The ten fields of a damage record stand at the position, each with the type
/// and the length that its place asks for.
pub open spec fn record_layout(data: Seq<u8>, pos: int) -> bool {
    forall|i: int|
        0 <= i < RECORD_FIELDS ==> #[trigger] field_matches(data, pos, i)
}

pub open spec fn field_matches(data: Seq<u8>, pos: int, i: int) -> bool {
    match field_at(data, pos + field_start(i)) {
        Some((tag, raw)) => tag == field_type(i) && raw.len() == field_length(i),
        None => false,
    }
}

/// The value bytes of field `i`.
pub open spec fn field_raw(data: Seq<u8>, pos: int, i: int) -> Seq<u8> {
    field_at(data, pos + field_start(i)).unwrap().1
}

pub open spec fn f32_of(data: Seq<u8>, pos: int, i: int) -> F32 {
    F32 { bits: bits::le32(field_raw(data, pos, i), 0) }
}

pub open spec fn i32_of(data: Seq<u8>, pos: int, i: int) -> i32 {
    bits::le32(field_raw(data, pos, i), 0) as i32
}

/// A value from one up to 2^32, in units of 2^-23.
pub open spec fn fixed(x: F32) -> int {
    ((x.bits % 0x80_0000) + 0x80_0000) * vstd::arithmetic::power2::pow2(
        (x.spec_exponent() - 127) as nat,
    )
}

/// The product of a damage's significand and that of a millionth.
pub open spec fn millionth_product(x: F32) -> int {
    ((x.bits % 0x80_0000) + 0x80_0000) * 8_796_093
}

/// How many bits that product has beyond single precision.
pub open spec fn excess_bits(x: F32) -> int {
    if millionth_product(x) >= 0x8000_0000_0000 {
        24
    } else {
        23
    }
}

/// The repeated damage agrees with the damage: it is no number, or it differs by
/// no more than a hundredth or a millionth of the damage, the latter rounded to
/// single precision. Values below one or from 2^32 on are too far from any
/// damage.
pub open spec fn repeats(damage: F32, repeated: F32) -> bool {
    ||| repeated.is_nan()
    ||| {
        let difference = if fixed(damage) > fixed(repeated) {
            fixed(damage) - fixed(repeated)
        } else {
            fixed(repeated) - fixed(damage)
        };
        let k = excess_bits(damage);
        let rounded = float::round_even(
            millionth_product(damage),
            vstd::arithmetic::power2::pow2(k as nat) as int,
        );
        &&& 0x3f80_0000 <= repeated.bits < 0x4f80_0000
        &&& {
            ||| difference * 128 <= 10_737_418
            ||| difference * vstd::arithmetic::power2::pow2(
                (180 - k - damage.spec_exponent()) as nat,
            ) <= rounded * 1024
        }
    }
}

/// The damage record whose first field starts at the bit position.
pub open spec fn record_at(data: Seq<u8>, pos: int) -> Option<ParsedDamageRecord> {
    let record = ParsedDamageRecord {
        damage: f32_of(data, pos, 0),
        target_hp_before: f32_of(data, pos, 1),
        target_max_hp: f32_of(data, pos, 2),
        damage_time: F64 { bits: bits::le64(field_raw(data, pos, 3), 0) },
        world_time: f32_of(data, pos, 4),
        repeated_damage: f32_of(data, pos, 5),
        state_flags: (i32_of(data, pos, 6), i32_of(data, pos, 7), i32_of(data, pos, 8)),
        trailing_value: f32_of(data, pos, 9),
        byte_offset: (pos / 8 + 5) as usize,
        bit_shift: (pos % 8) as u8,
    };
    if record_layout(data, pos) && plausible(record) {
        Some(record)
    } else {
        None
    }
}

/// The values of a record are such as the game sends.
pub open spec fn plausible(r: ParsedDamageRecord) -> bool {
    &&& MIN_DAMAGE <= r.damage.bits <= MAX_DAMAGE
    &&& r.target_hp_before.finite_nonnegative()
    &&& 0 < r.target_max_hp.bits < float::INFINITY32
    &&& r.damage_time.finite_nonnegative()
    &&& r.world_time.finite_nonnegative()
    &&& r.trailing_value.finite()
    &&& repeats(r.damage, r.repeated_damage)
}

/// The records that start before bit `n`, in order.
pub open spec fn records_up_to(data: Seq<u8>, n: int) -> Seq<ParsedDamageRecord>
    decreases n,
{
    if n <= 0 {
        Seq::empty()
    } else {
        let before = records_up_to(data, n - 1);
        match record_at(data, n - 1) {
            Some(r) => before.push(r),
            None => before,
        }
    }
}

fn read_field(data: &[u8], byte_offset: usize, bit_shift: u8, bit_offset: usize) -> (r: Option<
    (u8, Vec<u8>),
>)
    requires
        bit_offset <= 1000,
    ensures
        match r {
            Some((tag, raw)) => field_at(data@, 8 * byte_offset + bit_shift + bit_offset) == Some(
                (tag, raw@),
            ),
            None => field_at(data@, 8 * byte_offset + bit_shift + bit_offset) is None,
        },
{
    let header = match bits::decode_shifted_bytes(data, byte_offset, bit_shift, bit_offset, 5) {
        Some(h) => h,
        None => {
            return None;
        },
    };
    let length: u32 = bits::read_le32(&header, 1);
    if length == 0 || length > 8 {
        return None;
    }
    match bits::decode_shifted_bytes(
        data,
        byte_offset,
        bit_shift,
        bit_offset + 40,
        length as usize,
    ) {
        Some(raw) => Some((header[0], raw)),
        None => None,
    }
}

fn fixed_of(x: F32) -> (r: u128)
    requires
        0x3f80_0000 <= x.bits < 0x4f80_0000,
    ensures
        r == fixed(x),
        r <= 0x100_0000 * 0x1_0000_0000,
{
    let exponent: u32 = (x.bits % float::SIGN32) / 0x80_0000;
    let scale: u128 = float::power_of_two(exponent - 127);
    let significand: u128 = (x.bits % 0x80_0000) as u128 + 0x80_0000;
    proof {
        vstd::arithmetic::power2::lemma2_to64();
        if exponent - 127 < 32 {
            vstd::arithmetic::power2::lemma_pow2_strictly_increases((exponent - 127) as nat, 32);
        }
        assert(significand * scale <= 0x100_0000 * 0x1_0000_0000) by (nonlinear_arith)
            requires
                significand <= 0x100_0000,
                scale <= 0x1_0000_0000,
        ;
    }
    significand * scale
}

fn damage_repeats(damage: F32, repeated: F32) -> (r: bool)
    requires
        MIN_DAMAGE <= damage.bits <= MAX_DAMAGE,
    ensures
        r == repeats(damage, repeated),
{
    if repeated.bits % float::SIGN32 > float::INFINITY32 {
        return true;
    }
    if repeated.bits < 0x3f80_0000 || repeated.bits >= 0x4f80_0000 {
        return false;
    }
    let a: u128 = fixed_of(damage);
    let b: u128 = fixed_of(repeated);
    let difference: u128 = if a > b { a - b } else { b - a };
    if difference * 128 <= 10_737_418 {
        return true;
    }
    let exponent: u32 = (damage.bits % float::SIGN32) / 0x80_0000;
    let product: u128 = ((damage.bits % 0x80_0000) as u128 + 0x80_0000) * 8_796_093;
    let k: u32 = if product >= 0x8000_0000_0000 { 24 } else { 23 };
    let d: u128 = float::power_of_two(k);
    let q: u128 = product / d;
    let rest: u128 = product % d;
    let rounded: u128 = if 2 * rest > d || (2 * rest == d && q % 2 == 1) { q + 1 } else { q };
    assert(128 <= exponent <= 156);
    let scale: u128 = float::power_of_two(180 - k - exponent);
    proof {
        assert(difference * scale <= 0x100_0000 * 0x1_0000_0000 * 0x1_0000_0000_0000_0000)
            by (nonlinear_arith)
            requires
                difference <= 0x100_0000 * 0x1_0000_0000,
                scale <= 0x1_0000_0000_0000_0000,
        ;
    }
    difference * scale <= rounded * 1024
}

/// The value bytes of the ten fields of a record.
fn read_record_fields(data: &[u8], byte_offset: usize, bit_shift: u8) -> (r: Option<Vec<Vec<u8>>>)
    requires
        bit_shift < 8,
    ensures
        r is Some <==> record_layout(data@, 8 * byte_offset + bit_shift),
        r matches Some(fields) ==> fields@.len() == RECORD_FIELDS && forall|k: int|
            0 <= k < RECORD_FIELDS ==> #[trigger] fields@[k]@ == field_raw(
                data@,
                8 * byte_offset + bit_shift,
                k,
            ) && fields@[k]@.len() == field_length(k),
{
    let ghost pos = 8 * byte_offset + bit_shift;
    let mut fields: Vec<Vec<u8>> = Vec::new();
    let mut cursor: usize = 0;
    let mut i: usize = 0;
    while i < RECORD_FIELDS
        invariant
            i <= RECORD_FIELDS,
            pos == 8 * byte_offset + bit_shift,
            cursor == field_start(i as int),
            fields@.len() == i,
            forall|k: int| 0 <= k < i ==> #[trigger] field_matches(data@, pos, k),
            forall|k: int|
                0 <= k < i ==> #[trigger] fields@[k]@ == field_raw(data@, pos, k)
                    && fields@[k]@.len() == field_length(k),
        decreases RECORD_FIELDS - i,
    {
        let expected_type: u8 = if i == 3 {
            13
        } else if 6 <= i && i <= 8 {
            6
        } else {
            12
        };
        let expected_length: usize = if i == 3 { 8 } else { 4 };
        match read_field(data, byte_offset, bit_shift, cursor) {
            None => {
                assert(!field_matches(data@, pos, i as int));
                return None;
            },
            Some((tag, raw)) => {
                if tag != expected_type || raw.len() != expected_length {
                    assert(!field_matches(data@, pos, i as int));
                    return None;
                }
                assert(field_matches(data@, pos, i as int));
                cursor = cursor + 40 + 8 * expected_length;
                fields.push(raw);
            },
        }
        i += 1;
    }
    assert(record_layout(data@, pos));
    Some(fields)
}

fn parse_damage_record_at(data: &[u8], byte_offset: usize, bit_shift: u8) -> (r: Option<
    ParsedDamageRecord,
>)
    requires
        bit_shift < 8,
    ensures
        r == record_at(data@, 8 * byte_offset + bit_shift),
{
    let ghost pos = 8 * byte_offset + bit_shift;
    let _available: usize = data.len();
    let fields = match read_record_fields(data, byte_offset, bit_shift) {
        Some(fields) => fields,
        None => {
            return None;
        },
    };
    proof {
        assert(field_matches(data@, pos, 0));
        assert(pos / 8 == byte_offset && pos % 8 == bit_shift as int);
        assert(pos + 5 * 8 <= 8 * data@.len());
    }
    let record = ParsedDamageRecord {
        damage: F32 { bits: bits::read_le32(&fields[0], 0) },
        target_hp_before: F32 { bits: bits::read_le32(&fields[1], 0) },
        target_max_hp: F32 { bits: bits::read_le32(&fields[2], 0) },
        damage_time: F64 { bits: bits::read_le64(&fields[3], 0) },
        world_time: F32 { bits: bits::read_le32(&fields[4], 0) },
        repeated_damage: F32 { bits: bits::read_le32(&fields[5], 0) },
        state_flags: (
            bits::read_le32(&fields[6], 0) as i32,
            bits::read_le32(&fields[7], 0) as i32,
            bits::read_le32(&fields[8], 0) as i32,
        ),
        trailing_value: F32 { bits: bits::read_le32(&fields[9], 0) },
        byte_offset: byte_offset + 5,
        bit_shift,
    };
    if is_plausible(&record) {
        Some(record)
    } else {
        None
    }
}

fn is_plausible(record: &ParsedDamageRecord) -> (r: bool)
    ensures
        r == plausible(*record),
{
    MIN_DAMAGE <= record.damage.bits && record.damage.bits <= MAX_DAMAGE
        && record.target_hp_before.is_finite_nonnegative() && record.target_max_hp.bits > 0
        && record.target_max_hp.bits < float::INFINITY32
        && record.damage_time.is_finite_nonnegative() && record.world_time.is_finite_nonnegative()
        && record.trailing_value.is_finite() && damage_repeats(
        record.damage,
        record.repeated_damage,
    )
}

/// The damage records of a payload, in the order of their positions.
pub fn parse_damage_records(data: &[u8]) -> (out: Vec<ParsedDamageRecord>)
    ensures
        out@ == records_up_to(data@, 8 * data@.len() as int),
{
    let mut out: Vec<ParsedDamageRecord> = Vec::new();
    let mut byte_offset: usize = 0;
    while byte_offset < data.len()
        invariant
            byte_offset <= data@.len(),
            out@ == records_up_to(data@, 8 * byte_offset),
        decreases data@.len() - byte_offset,
    {
        let mut bit_shift: u8 = 0;
        while bit_shift < 8
            invariant
                bit_shift <= 8,
                byte_offset < data@.len(),
                out@ == records_up_to(data@, 8 * byte_offset + bit_shift),
            decreases 8 - bit_shift,
        {
            match parse_damage_record_at(data, byte_offset, bit_shift) {
                Some(record) => out.push(record),
                None => {},
            }
            bit_shift += 1;
        }
        byte_offset += 1;
    }
    out
}

/// Every record is plausible, and no two start at one position.
pub proof fn records_are_plausible_and_distinct(data: Seq<u8>, n: int)
    requires
        0 <= n,
        n / 8 + 5 <= usize::MAX,
    ensures
        forall|i: int|
            0 <= i < records_up_to(data, n).len() ==> plausible(#[trigger] records_up_to(data, n)[i]),
        forall|i: int|
            0 <= i < records_up_to(data, n).len() ==> ({
                let r = #[trigger] records_up_to(data, n)[i];
                8 * (r.byte_offset - 5) + r.bit_shift < n
            }),
        forall|i: int, j: int|
            0 <= i < j < records_up_to(data, n).len() ==> {
                let a = #[trigger] records_up_to(data, n)[i];
                let b = #[trigger] records_up_to(data, n)[j];
                8 * a.byte_offset + a.bit_shift < 8 * b.byte_offset + b.bit_shift
            },
    decreases n,
{
    if n > 0 {
        records_are_plausible_and_distinct(data, n - 1);
        let before = records_up_to(data, n - 1);
        let all = records_up_to(data, n);
        assert forall|i: int| 0 <= i < all.len() implies {
            let r = #[trigger] all[i];
            plausible(r) && 8 * (r.byte_offset - 5) + r.bit_shift < n
        } by {
            if i < before.len() {
                assert(all[i] == before[i]);
            }
        }
        assert forall|i: int, j: int| 0 <= i < j < all.len() implies {
            let a = #[trigger] all[i];
            let b = #[trigger] all[j];
            8 * a.byte_offset + a.bit_shift < 8 * b.byte_offset + b.bit_shift
        } by {
            assert(all[i] == before[i]);
            if j < before.len() {
                assert(all[j] == before[j]);
            }
        }
    }
}

// ----------------------------------------------------------- hit-point updates

/// The update of a character's hit points at the bit position.
pub open spec fn current_hp_at(data: Seq<u8>, pos: int) -> Option<ParsedCurrentHpUpdate> {
    match bits::bytes_at(data, pos, CURRENT_HP_PREFIX_LENGTH + 4) {
        None => None,
        Some(d) => {
            let hp = F32 { bits: bits::le32(d, 16) };
            if d[1] == 0 && d[2] == 0 && d[3] == 0xe0 && d[4] == 0x4f && d[5] == 0x33 && d[6]
                == 0x33 && d[8] == 0x0f && d[11] == 0 && d[12] == 0 && d[13] == 0 && d[14] == 0
                && d[15] == 0x24 && hp.from_zero_to(F32 { bits: MAX_PLAUSIBLE_CHARACTER_HP }) {
                Some(
                    ParsedCurrentHpUpdate {
                        current_hp: hp,
                        byte_offset: (pos / 8 + CURRENT_HP_PREFIX_LENGTH) as usize,
                        bit_shift: (pos % 8) as u8,
                    },
                )
            } else {
                None
            }
        },
    }
}

pub open spec fn current_hp_up_to(data: Seq<u8>, n: int) -> Seq<ParsedCurrentHpUpdate>
    decreases n,
{
    if n <= 0 {
        Seq::empty()
    } else {
        let before = current_hp_up_to(data, n - 1);
        match current_hp_at(data, n - 1) {
            Some(r) => before.push(r),
            None => before,
        }
    }
}

fn parse_current_hp_at(data: &[u8], byte_offset: usize, bit_shift: u8) -> (r: Option<
    ParsedCurrentHpUpdate,
>)
    requires
        bit_shift < 8,
    ensures
        r == current_hp_at(data@, 8 * byte_offset + bit_shift),
{
    let _available: usize = data.len();
    let d = match bits::decode_shifted_bytes(
        data,
        byte_offset,
        bit_shift,
        0,
        CURRENT_HP_PREFIX_LENGTH + 4,
    ) {
        Some(d) => d,
        None => {
            return None;
        },
    };
    if d[1] != 0 || d[2] != 0 || d[3] != 0xe0 || d[4] != 0x4f || d[5] != 0x33 || d[6] != 0x33
        || d[8] != 0x0f || d[11] != 0 || d[12] != 0 || d[13] != 0 || d[14] != 0 || d[15] != 0x24 {
        return None;
    }
    let current_hp = F32 { bits: bits::read_le32(&d, 16) };
    if !current_hp.is_from_zero_to(F32 { bits: MAX_PLAUSIBLE_CHARACTER_HP }) {
        return None;
    }
    assert((8 * byte_offset + bit_shift) / 8 == byte_offset);
    assert((8 * byte_offset + bit_shift) % 8 == bit_shift as int);
    Some(
        ParsedCurrentHpUpdate {
            current_hp,
            byte_offset: byte_offset + CURRENT_HP_PREFIX_LENGTH,
            bit_shift,
        },
    )
}

/// The updates of characters' hit points in a payload.
pub fn parse_current_hp_updates(data: &[u8]) -> (out: Vec<ParsedCurrentHpUpdate>)
    ensures
        out@ == current_hp_up_to(data@, 8 * data@.len() as int),
{
    let mut out: Vec<ParsedCurrentHpUpdate> = Vec::new();
    let mut byte_offset: usize = 0;
    while byte_offset < data.len()
        invariant
            byte_offset <= data@.len(),
            out@ == current_hp_up_to(data@, 8 * byte_offset),
        decreases data@.len() - byte_offset,
    {
        let mut bit_shift: u8 = 0;
        while bit_shift < 8
            invariant
                bit_shift <= 8,
                byte_offset < data@.len(),
                out@ == current_hp_up_to(data@, 8 * byte_offset + bit_shift),
            decreases 8 - bit_shift,
        {
            match parse_current_hp_at(data, byte_offset, bit_shift) {
                Some(update) => out.push(update),
                None => {},
            }
            bit_shift += 1;
        }
        byte_offset += 1;
    }
    out
}

/// The prefix of a boss update: a fixed head, sixteen bytes that are not all zero
/// (they name the boss), and twelve zeros.
pub open spec fn boss_prefix(d: Seq<u8>) -> bool {
    &&& d[0] == 6 && d[1] == 0 && d[2] == 0 && d[3] == 0 && d[4] == 0 && d[5] == 0x20 && d[6] == 0
        && d[7] == 0
    &&& exists|i: int| 8 <= i < 24 && #[trigger] d[i] != 0
    &&& forall|i: int| 24 <= i < BOSS_HP_PREFIX_LENGTH ==> #[trigger] d[i] == 0
}

/// The update of a boss's hit points at the bit position.
pub open spec fn boss_hp_at(data: Seq<u8>, pos: int) -> Option<ParsedBossHpUpdate> {
    match bits::bytes_at(data, pos, BOSS_HP_PREFIX_LENGTH + 4) {
        None => None,
        Some(d) => {
            let hp = F32 { bits: bits::le32(d, BOSS_HP_PREFIX_LENGTH as int) };
            if boss_prefix(d) && hp.from_zero_to(F32 { bits: MAX_DAMAGE }) {
                Some(
                    ParsedBossHpUpdate {
                        current_hp: hp,
                        byte_offset: (pos / 8 + BOSS_HP_PREFIX_LENGTH) as usize,
                        bit_shift: (pos % 8) as u8,
                    },
                )
            } else {
                None
            }
        },
    }
}

pub open spec fn boss_hp_up_to(data: Seq<u8>, n: int) -> Seq<ParsedBossHpUpdate>
    decreases n,
{
    if n <= 0 {
        Seq::empty()
    } else {
        let before = boss_hp_up_to(data, n - 1);
        match boss_hp_at(data, n - 1) {
            Some(r) => before.push(r),
            None => before,
        }
    }
}

fn is_boss_prefix(d: &Vec<u8>) -> (r: bool)
    requires
        d.len() >= BOSS_HP_PREFIX_LENGTH,
    ensures
        r == boss_prefix(d@),
{
    if d[0] != 6 || d[1] != 0 || d[2] != 0 || d[3] != 0 || d[4] != 0 || d[5] != 0x20 || d[6] != 0
        || d[7] != 0 {
        return false;
    }
    let mut named = false;
    let mut i: usize = 8;
    while i < 24
        invariant
            8 <= i <= 24,
            d.len() >= BOSS_HP_PREFIX_LENGTH,
            named <==> exists|k: int| 8 <= k < i && #[trigger] d@[k] != 0,
        decreases 24 - i,
    {
        if d[i] != 0 {
            named = true;
        }
        i += 1;
    }
    if !named {
        return false;
    }
    while i < BOSS_HP_PREFIX_LENGTH
        invariant
            24 <= i <= BOSS_HP_PREFIX_LENGTH,
            d.len() >= BOSS_HP_PREFIX_LENGTH,
            forall|k: int| 24 <= k < i ==> #[trigger] d@[k] == 0,
        decreases BOSS_HP_PREFIX_LENGTH - i,
    {
        if d[i] != 0 {
            return false;
        }
        i += 1;
    }
    true
}

fn parse_boss_hp_at(data: &[u8], byte_offset: usize, bit_shift: u8) -> (r: Option<
    ParsedBossHpUpdate,
>)
    requires
        bit_shift < 8,
    ensures
        r == boss_hp_at(data@, 8 * byte_offset + bit_shift),
{
    let _available: usize = data.len();
    let d = match bits::decode_shifted_bytes(
        data,
        byte_offset,
        bit_shift,
        0,
        BOSS_HP_PREFIX_LENGTH + 4,
    ) {
        Some(d) => d,
        None => {
            return None;
        },
    };
    if !is_boss_prefix(&d) {
        return None;
    }
    let current_hp = F32 { bits: bits::read_le32(&d, BOSS_HP_PREFIX_LENGTH) };
    if !current_hp.is_from_zero_to(F32 { bits: MAX_DAMAGE }) {
        return None;
    }
    assert((8 * byte_offset + bit_shift) / 8 == byte_offset);
    assert((8 * byte_offset + bit_shift) % 8 == bit_shift as int);
    Some(
        ParsedBossHpUpdate {
            current_hp,
            byte_offset: byte_offset + BOSS_HP_PREFIX_LENGTH,
            bit_shift,
        },
    )
}

/// The updates of bosses' hit points in a payload.
pub fn parse_boss_hp_updates(data: &[u8]) -> (out: Vec<ParsedBossHpUpdate>)
    ensures
        out@ == boss_hp_up_to(data@, 8 * data@.len() as int),
{
    let mut out: Vec<ParsedBossHpUpdate> = Vec::new();
    let mut byte_offset: usize = 0;
    while byte_offset < data.len()
        invariant
            byte_offset <= data@.len(),
            out@ == boss_hp_up_to(data@, 8 * byte_offset),
        decreases data@.len() - byte_offset,
    {
        let mut bit_shift: u8 = 0;
        while bit_shift < 8
            invariant
                bit_shift <= 8,
                byte_offset < data@.len(),
                out@ == boss_hp_up_to(data@, 8 * byte_offset + bit_shift),
            decreases 8 - bit_shift,
        {
            match parse_boss_hp_at(data, byte_offset, bit_shift) {
                Some(update) => out.push(update),
                None => {},
            }
            bit_shift += 1;
        }
        byte_offset += 1;
    }
    out
}

/// The kinds of replicated structures that carry a target's hit points.
#[derive(Clone, Copy, Debug, PartialEq, Eq, Structural)]
pub enum ParsedSdkTargetHpKind {
    ClientRepExtraDamageInfo,
    ClientRepFightData,
}

/// A target's hit points from replicated fight data.
#[derive(Clone, Debug)]
pub struct ParsedSdkTargetHpUpdate {
    pub kind: ParsedSdkTargetHpKind,
    pub target_token: Vec<u8>,
    pub current_hp: F32,
    pub dead_state: i32,
    pub byte_offset: usize,
    pub bit_shift: u8,
}

/// The contents of such an update.
#[verifier::ext_equal]
pub struct SdkTargetView {
    pub kind: ParsedSdkTargetHpKind,
    pub target_token: Seq<u8>,
    pub current_hp: F32,
    pub dead_state: i32,
    pub byte_offset: usize,
    pub bit_shift: u8,
}

impl View for ParsedSdkTargetHpUpdate {
    type V = SdkTargetView;

    open spec fn view(&self) -> SdkTargetView {
        SdkTargetView {
            kind: self.kind,
            target_token: self.target_token@,
            current_hp: self.current_hp,
            dead_state: self.dead_state,
            byte_offset: self.byte_offset,
            bit_shift: self.bit_shift,
        }
    }
}

/// The update at the bit position: a token that is not all zero, the hit points
/// and the state, of which the living have at least one point and state zero,
/// the dead none and state one.
pub open spec fn sdk_target_at(data: Seq<u8>, pos: int) -> Option<SdkTargetView> {
    match bits::bytes_at(data, pos, SDK_TARGET_TOKEN_LENGTH + 8) {
        None => None,
        Some(d) => {
            let hp = bits::le32(d, 40);
            let dead = bits::le32(d, 44);
            if (exists|i: int| 0 <= i < SDK_TARGET_TOKEN_LENGTH && #[trigger] d[i] != 0) && ((dead
                == 0 && 0x3f80_0000 <= hp <= MAX_DAMAGE) || (dead == 1 && hp == 0)) {
                Some(
                    SdkTargetView {
                        kind: ParsedSdkTargetHpKind::ClientRepExtraDamageInfo,
                        target_token: d.take(SDK_TARGET_TOKEN_LENGTH as int),
                        current_hp: F32 { bits: hp },
                        dead_state: dead as i32,
                        byte_offset: (pos / 8) as usize,
                        bit_shift: (pos % 8) as u8,
                    },
                )
            } else {
                None
            }
        },
    }
}

pub open spec fn sdk_targets_up_to(data: Seq<u8>, n: int) -> Seq<SdkTargetView>
    decreases n,
{
    if n <= 0 {
        Seq::empty()
    } else {
        let before = sdk_targets_up_to(data, n - 1);
        match sdk_target_at(data, n - 1) {
            Some(r) => before.push(r),
            None => before,
        }
    }
}

pub open spec fn sdk_views(v: Seq<ParsedSdkTargetHpUpdate>) -> Seq<SdkTargetView> {
    v.map_values(|u: ParsedSdkTargetHpUpdate| u@)
}

fn parse_sdk_target_at(data: &[u8], byte_offset: usize, bit_shift: u8) -> (r: Option<
    ParsedSdkTargetHpUpdate,
>)
    requires
        bit_shift < 8,
    ensures
        match r {
            Some(u) => sdk_target_at(data@, 8 * byte_offset + bit_shift) == Some(u@),
            None => sdk_target_at(data@, 8 * byte_offset + bit_shift) is None,
        },
{
    let d = match bits::decode_shifted_bytes(
        data,
        byte_offset,
        bit_shift,
        0,
        SDK_TARGET_TOKEN_LENGTH + 8,
    ) {
        Some(d) => d,
        None => {
            return None;
        },
    };
    let mut token: Vec<u8> = Vec::new();
    let mut named = false;
    let mut i: usize = 0;
    while i < SDK_TARGET_TOKEN_LENGTH
        invariant
            i <= SDK_TARGET_TOKEN_LENGTH,
            d.len() == SDK_TARGET_TOKEN_LENGTH + 8,
            token@ =~= d@.take(i as int),
            named <==> exists|k: int| 0 <= k < i && #[trigger] d@[k] != 0,
        decreases SDK_TARGET_TOKEN_LENGTH - i,
    {
        if d[i] != 0 {
            named = true;
        }
        token.push(d[i]);
        i += 1;
    }
    let hp: u32 = bits::read_le32(&d, 40);
    let dead: u32 = bits::read_le32(&d, 44);
    assert((8 * byte_offset + bit_shift) / 8 == byte_offset);
    assert((8 * byte_offset + bit_shift) % 8 == bit_shift as int);
    if named && ((dead == 0 && 0x3f80_0000 <= hp && hp <= MAX_DAMAGE) || (dead == 1 && hp == 0)) {
        Some(
            ParsedSdkTargetHpUpdate {
                kind: ParsedSdkTargetHpKind::ClientRepExtraDamageInfo,
                target_token: token,
                current_hp: F32 { bits: hp },
                dead_state: dead as i32,
                byte_offset,
                bit_shift,
            },
        )
    } else {
        None
    }
}

/// The targets' hit points in a payload, from replicated fight data.
pub fn parse_sdk_target_hp_updates(data: &[u8]) -> (out: Vec<ParsedSdkTargetHpUpdate>)
    ensures
        sdk_views(out@) == sdk_targets_up_to(data@, 8 * data@.len() as int),
{
    let mut out: Vec<ParsedSdkTargetHpUpdate> = Vec::new();
    let mut byte_offset: usize = 0;
    assert(sdk_views(out@) =~= sdk_targets_up_to(data@, 0));
    while byte_offset < data.len()
        invariant
            byte_offset <= data@.len(),
            sdk_views(out@) == sdk_targets_up_to(data@, 8 * byte_offset),
        decreases data@.len() - byte_offset,
    {
        let mut bit_shift: u8 = 0;
        while bit_shift < 8
            invariant
                bit_shift <= 8,
                byte_offset < data@.len(),
                sdk_views(out@) == sdk_targets_up_to(data@, 8 * byte_offset + bit_shift),
            decreases 8 - bit_shift,
        {
            let ghost before = sdk_views(out@);
            match parse_sdk_target_at(data, byte_offset, bit_shift) {
                Some(update) => {
                    out.push(update);
                    assert(sdk_views(out@) =~= before.push(update@));
                },
                None => {},
            }
            bit_shift += 1;
        }
        byte_offset += 1;
    }
    out
}

// ------------------------------------------------------ character declarations

/// A declaration at offset `at`: the length five, four digits that write a number
/// from 1000 on, and a zero byte.
pub open spec fn declaration_at(d: Seq<u8>, at: int) -> Option<u32> {
    let id = 1000 * (d[at + 4] - 48) + 100 * (d[at + 5] - 48) + 10 * (d[at + 6] - 48) + (d[at + 7]
        - 48);
    if d[at] == 5 && d[at + 1] == 0 && d[at + 2] == 0 && d[at + 3] == 0 && d[at + 8] == 0 && (
    forall|k: int| at + 4 <= k < at + 8 ==> 48 <= #[trigger] d[k] <= 57) && id >= 1000 {
        Some(id as u32)
    } else {
        None
    }
}

/// How many offsets can hold a declaration.
pub open spec fn declaration_places(d: Seq<u8>) -> int {
    if d.len() < 9 {
        0
    } else {
        d.len() - 8
    }
}

/// The declarations before offset `n` of data read `shift` bits late.
pub open spec fn declared_in(d: Seq<u8>, shift: u8, n: int) -> Seq<(u32, u8, usize)>
    decreases n,
{
    if n <= 0 {
        Seq::empty()
    } else {
        let before = declared_in(d, shift, n - 1);
        match declaration_at(d, n - 1) {
            Some(id) => before.push((id, shift, (n - 1) as usize)),
            None => before,
        }
    }
}

/// The declarations at all shifts below `k`.
pub open spec fn declared_below(data: Seq<u8>, k: int) -> Seq<(u32, u8, usize)>
    decreases k,
{
    if k <= 0 {
        Seq::empty()
    } else {
        let d = bits::shifted(data, k - 1);
        declared_below(data, k - 1) + declared_in(d, (k - 1) as u8, declaration_places(d))
    }
}

/// The character declarations of a payload: the character's number, the bit
/// shift and the offset.
pub open spec fn declared(data: Seq<u8>) -> Seq<(u32, u8, usize)> {
    declared_below(data, 8)
}

fn read_declaration(d: &Vec<u8>, at: usize) -> (r: Option<u32>)
    requires
        at + 9 <= d.len(),
    ensures
        r == declaration_at(d@, at as int),
{
    if d[at] != 5 || d[at + 1] != 0 || d[at + 2] != 0 || d[at + 3] != 0 || d[at + 8] != 0 {
        return None;
    }
    let mut id: u32 = 0;
    let a: u8 = d[at + 4];
    let b: u8 = d[at + 5];
    let c: u8 = d[at + 6];
    let e: u8 = d[at + 7];
    if a < 48 || a > 57 || b < 48 || b > 57 || c < 48 || c > 57 || e < 48 || e > 57 {
        proof {
            assert(d@[at + 4] == a && d@[at + 5] == b && d@[at + 6] == c && d@[at + 7] == e);
        }
        return None;
    }
    id = 1000 * ((a - 48) as u32) + 100 * ((b - 48) as u32) + 10 * ((c - 48) as u32) + ((e
        - 48) as u32);
    if id >= 1000 {
        Some(id)
    } else {
        None
    }
}

/// The character declarations of a payload.
pub fn find_declared_character_evidence(data: &[u8]) -> (found: Vec<(u32, u8, usize)>)
    ensures
        found@ == declared(data@),
{
    let mut found: Vec<(u32, u8, usize)> = Vec::new();
    let mut bit_shift: u8 = 0;
    while bit_shift < 8
        invariant
            bit_shift <= 8,
            found@ == declared_below(data@, bit_shift as int),
        decreases 8 - bit_shift,
    {
        let d = bits::decode_shifted_payload(data, bit_shift);
        let ghost before = found@;
        let places: usize = if d.len() < 9 { 0 } else { d.len() - 8 };
        let mut offset: usize = 0;
        assert(found@ =~= before + declared_in(d@, bit_shift, 0));
        while offset < places
            invariant
                offset <= places,
                places == declaration_places(d@),
                found@ == before + declared_in(d@, bit_shift, offset as int),
            decreases places - offset,
        {
            match read_declaration(&d, offset) {
                Some(id) => {
                    found.push((id, bit_shift, offset));
                    assert(found@ =~= before + declared_in(d@, bit_shift, offset + 1));
                },
                None => {},
            }
            offset += 1;
        }
        bit_shift += 1;
    }
    found
}

/// The numbers of the first `n` declarations, each once, in the order of their
/// first occurrence.
pub open spec fn distinct_ids(evidence: Seq<(u32, u8, usize)>, n: int) -> Seq<u32>
    decreases n,
{
    if n <= 0 {
        Seq::empty()
    } else {
        let before = distinct_ids(evidence, n - 1);
        if before.contains(evidence[n - 1].0) {
            before
        } else {
            before.push(evidence[n - 1].0)
        }
    }
}

/// The declared characters, each once.
pub fn declared_character_ids_from_evidence(evidence: &[(u32, u8, usize)]) -> (ids: Vec<u32>)
    ensures
        ids@ == distinct_ids(evidence@, evidence@.len() as int),
{
    let mut ids: Vec<u32> = Vec::new();
    let mut i: usize = 0;
    while i < evidence.len()
        invariant
            i <= evidence@.len(),
            ids@ == distinct_ids(evidence@, i as int),
        decreases evidence@.len() - i,
    {
        let id: u32 = evidence[i].0;
        let mut seen = false;
        let mut k: usize = 0;
        while k < ids.len()
            invariant
                k <= ids.len(),
                seen <==> exists|m: int| 0 <= m < k && #[trigger] ids@[m] == id,
            decreases ids.len() - k,
        {
            if ids[k] == id {
                seen = true;
            }
            k += 1;
        }
        if !seen {
            ids.push(id);
        }
        i += 1;
    }
    ids
}

/// The characters that a payload declares, each once.
pub fn declared_character_ids(data: &[u8]) -> (ids: Vec<u32>)
    ensures
        ids@ == distinct_ids(declared(data@), declared(data@).len() as int),
{
    let evidence = find_declared_character_evidence(data);
    declared_character_ids_from_evidence(evidence.as_slice())
}

/// No character is named twice, and every declared one is named.
pub proof fn declared_ids_are_distinct_and_complete(evidence: Seq<(u32, u8, usize)>, n: int)
    requires
        0 <= n <= evidence.len(),
    ensures
        distinct_ids(evidence, n).no_duplicates(),
        forall|k: int| 0 <= k < n ==> distinct_ids(evidence, n).contains(#[trigger] evidence[k].0),
        forall|id: u32|
            distinct_ids(evidence, n).contains(id) ==> exists|k: int|
                0 <= k < n && #[trigger] evidence[k].0 == id,
    decreases n,
{
    if n > 0 {
        declared_ids_are_distinct_and_complete(evidence, n - 1);
        let before = distinct_ids(evidence, n - 1);
        let all = distinct_ids(evidence, n);
        assert forall|k: int| 0 <= k < n implies all.contains(#[trigger] evidence[k].0) by {
            if k < n - 1 {
                assert(before.contains(evidence[k].0));
                let w = choose|w: int| 0 <= w < before.len() && before[w] == evidence[k].0;
                assert(all[w] == evidence[k].0);
            } else if !before.contains(evidence[k].0) {
                assert(all[all.len() - 1] == evidence[k].0);
            }
        }
        assert forall|id: u32| all.contains(id) implies exists|k: int|
            0 <= k < n && #[trigger] evidence[k].0 == id by {
            if before.contains(id) {
                let k = choose|k: int| 0 <= k < n - 1 && #[trigger] evidence[k].0 == id;
                assert(evidence[k].0 == id);
            } else {
                assert(evidence[n - 1].0 == id);
            }
        }
    }
}

// --------------------------------------------------------------- target metadata

/// Words that mark a text as one about a target.
pub open spec fn names_target(lower: Seq<char>) -> bool {
    ||| text::contains(lower, "target"@)
    ||| text::contains(lower, "boss"@)
    ||| text::contains(lower, "enemy"@)
    ||| text::contains(lower, "monster"@)
    ||| text::contains(lower, "actor"@)
    ||| text::contains(lower, "entity"@)
    ||| text::contains(lower, "npc"@)
    ||| text::contains(lower, "characterfornet"@)
}

fn is_target_text(lower: &Vec<char>) -> (r: bool)
    ensures
        r == names_target(lower@),
{
    text::has(lower, "target") || text::has(lower, "boss") || text::has(lower, "enemy")
        || text::has(lower, "monster") || text::has(lower, "actor") || text::has(lower, "entity")
        || text::has(lower, "npc") || text::has(lower, "characterfornet")
}

/// The target texts among the first `n` runs: trimmed, each once.
pub open spec fn target_texts(found: Seq<(int, Seq<char>)>, n: int) -> Seq<Seq<char>>
    decreases n,
{
    if n <= 0 {
        Seq::empty()
    } else {
        let before = target_texts(found, n - 1);
        let value = text::trim(found[n - 1].1, Class::Space);
        if names_target(text::lower(value)) && !before.contains(value) {
            before.push(value)
        } else {
            before
        }
    }
}

/// The value that follows the key in the text: what stands behind the key and
/// its separators, up to the end of the value.
pub open spec fn value_after(value: Seq<char>, key: Seq<char>) -> Option<Seq<char>> {
    match text::find(text::lower(value), key) {
        None => None,
        Some(at) => {
            let tail = text::trim(
                text::until(
                    text::trim_start(value.skip(at + key.len()), Class::KeyLead),
                    Class::ValueEnd,
                ),
                Class::Space,
            );
            if tail.len() > 0 && text::utf8_len(tail) <= MAX_METADATA_VALUE {
                Some(tail)
            } else {
                None
            }
        },
    }
}

/// The value of the first key, from key `k` on, that has one.
pub open spec fn metadata_value(value: Seq<char>, keys: Seq<Seq<char>>, k: int) -> Option<Seq<char>>
    decreases keys.len() - k,
{
    if k < 0 || k >= keys.len() {
        None
    } else {
        match value_after(value, keys[k]) {
            Some(v) => Some(v),
            None => metadata_value(value, keys, k + 1),
        }
    }
}

/// The value that the first text, from text `i` on, has for one of the keys.
pub open spec fn first_metadata(values: Seq<Seq<char>>, keys: Seq<Seq<char>>, i: int) -> Option<
    Seq<char>,
>
    decreases values.len() - i,
{
    if i < 0 || i >= values.len() {
        None
    } else {
        match metadata_value(values[i], keys, 0) {
            Some(v) => Some(v),
            None => first_metadata(values, keys, i + 1),
        }
    }
}

pub open spec fn target_id_keys() -> Seq<Seq<char>> {
    seq!["targetid"@, "target_id"@, "entityid"@, "actorid"@]
}

pub open spec fn target_name_keys() -> Seq<Seq<char>> {
    seq!["targetname"@, "target_name"@, "enemyname"@, "monstername"@, "bossname"@]
}

/// What the surroundings of a record say about its target: the target's id, its
/// name, and the texts that speak of it.
pub open spec fn target_metadata(data: Seq<u8>, byte_offset: int, bit_shift: int) -> (
    Option<Seq<char>>,
    Option<Seq<char>>,
    Seq<Seq<char>>,
) {
    let start = if byte_offset < METADATA_BEFORE {
        0
    } else {
        byte_offset - METADATA_BEFORE
    };
    let end = if data.len() < byte_offset + METADATA_AFTER {
        data.len() as int
    } else {
        byte_offset + METADATA_AFTER
    };
    match bits::bytes_at(data, 8 * start + bit_shift, end - start) {
        None => (None, None, Seq::empty()),
        Some(window) => {
            let found = runs::runs(window);
            let values = target_texts(found, found.len() as int);
            (
                first_metadata(values, target_id_keys(), 0),
                first_metadata(values, target_name_keys(), 0),
                values,
            )
        },
    }
}

fn find_value_after(value: &Vec<char>, key: &str) -> (r: Option<Vec<char>>)
    ensures
        text::opt_chars(r) == value_after(value@, key@),
{
    let lower = text::to_lower(value);
    let key_chars = text::chars_of(key);
    let at = match text::find_pos(&lower, &key_chars, 0) {
        Some(at) => at,
        None => {
            return None;
        },
    };
    let rest = text::part(value, at + key_chars.len(), value.len());
    assert(rest@ =~= value@.skip(at + key@.len()));
    let tail = text::trimmed(
        &text::head_until(&text::trimmed_start(&rest, Class::KeyLead), Class::ValueEnd),
        Class::Space,
    );
    if tail.len() > 0 && text::fits_utf8(&tail, MAX_METADATA_VALUE) {
        Some(tail)
    } else {
        None
    }
}

fn find_metadata_value(value: &Vec<char>, keys: &Vec<&str>, Ghost(wanted): Ghost<Seq<Seq<char>>>) -> (r:
    Option<Vec<char>>)
    requires
        keys@.len() == wanted.len(),
        forall|k: int| 0 <= k < wanted.len() ==> (#[trigger] keys@[k])@ == wanted[k],
    ensures
        text::opt_chars(r) == metadata_value(value@, wanted, 0),
{
    let mut k: usize = 0;
    while k < keys.len()
        invariant
            k <= keys.len(),
            keys@.len() == wanted.len(),
            forall|m: int| 0 <= m < wanted.len() ==> (#[trigger] keys@[m])@ == wanted[m],
            metadata_value(value@, wanted, 0) == metadata_value(value@, wanted, k as int),
        decreases keys.len() - k,
    {
        let found = find_value_after(value, keys[k]);
        assert(keys@[k as int]@ == wanted[k as int]);
        if found.is_some() {
            return found;
        }
        k += 1;
    }
    None
}

fn find_first_metadata(
    values: &Vec<Vec<char>>,
    keys: &Vec<&str>,
    Ghost(wanted): Ghost<Seq<Seq<char>>>,
) -> (r: Option<String>)
    requires
        keys@.len() == wanted.len(),
        forall|k: int| 0 <= k < wanted.len() ==> (#[trigger] keys@[k])@ == wanted[k],
    ensures
        text::opt_text(r) == first_metadata(text::views(values@), wanted, 0),
{
    let mut i: usize = 0;
    while i < values.len()
        invariant
            i <= values.len(),
            keys@.len() == wanted.len(),
            forall|k: int| 0 <= k < wanted.len() ==> (#[trigger] keys@[k])@ == wanted[k],
            first_metadata(text::views(values@), wanted, 0) == first_metadata(
                text::views(values@),
                wanted,
                i as int,
            ),
        decreases values.len() - i,
    {
        let found = find_metadata_value(&values[i], keys, Ghost(wanted));
        match found {
            Some(v) => {
                return Some(text::string_of(&v));
            },
            None => {},
        }
        i += 1;
    }
    None
}

/// Whether the value is among the collected ones.
fn has_value(values: &Vec<Vec<char>>, value: &Vec<char>) -> (r: bool)
    ensures
        r == text::views(values@).contains(value@),
{
    let mut i: usize = 0;
    while i < values.len()
        invariant
            i <= values.len(),
            forall|k: int| 0 <= k < i ==> #[trigger] text::views(values@)[k] != value@,
        decreases values.len() - i,
    {
        if text::same(&values[i], value) {
            assert(text::views(values@)[i as int] == value@);
            return true;
        }
        i += 1;
    }
    false
}

fn collect_target_texts(found: &Vec<(usize, Vec<char>)>) -> (values: Vec<Vec<char>>)
    ensures
        text::views(values@) == target_texts(runs::run_views(found@), found@.len() as int),
{
    let mut values: Vec<Vec<char>> = Vec::new();
    let mut i: usize = 0;
    assert(text::views(values@) =~= target_texts(runs::run_views(found@), 0));
    while i < found.len()
        invariant
            i <= found.len(),
            text::views(values@) == target_texts(runs::run_views(found@), i as int),
        decreases found.len() - i,
    {
        let value = text::trimmed(&found[i].1, Class::Space);
        let ghost before = text::views(values@);
        if is_target_text(&text::to_lower(&value)) && !has_value(&values, &value) {
            values.push(value);
            assert(text::views(values@) =~= before.push(value@));
        }
        i += 1;
    }
    values
}

fn strings_of(values: &Vec<Vec<char>>) -> (out: Vec<String>)
    ensures
        text::texts(out@) == text::views(values@),
{
    let mut out: Vec<String> = Vec::new();
    let mut i: usize = 0;
    while i < values.len()
        invariant
            i <= values.len(),
            out@.len() == i,
            forall|k: int| 0 <= k < i ==> #[trigger] out@[k]@ == values@[k]@,
        decreases values.len() - i,
    {
        out.push(text::string_of(&values[i]));
        i += 1;
    }
    assert(text::texts(out@) =~= text::views(values@));
    out
}

fn extract_target_metadata(data: &[u8], byte_offset: usize, bit_shift: u8) -> (r: (
    Option<String>,
    Option<String>,
    Vec<String>,
))
    requires
        byte_offset <= data@.len(),
        bit_shift < 8,
    ensures
        (text::opt_text(r.0), text::opt_text(r.1), text::texts(r.2@)) == target_metadata(
            data@,
            byte_offset as int,
            bit_shift as int,
        ),
{
    let start: usize = if byte_offset < METADATA_BEFORE { 0 } else { byte_offset - METADATA_BEFORE };
    let end: usize = if data.len() - byte_offset < METADATA_AFTER {
        data.len()
    } else {
        byte_offset + METADATA_AFTER
    };
    let window = match bits::decode_shifted_bytes(data, start, bit_shift, 0, end - start) {
        Some(window) => window,
        None => {
            let none: Vec<String> = Vec::new();
            assert(text::texts(none@) =~= Seq::<Seq<char>>::empty());
            return (None, None, none);
        },
    };
    let found = runs::readable_runs(&window);
    let values = collect_target_texts(&found);
    let id_keys: Vec<&str> = vec!["targetid", "target_id", "entityid", "actorid"];
    let name_keys: Vec<&str> = vec![
        "targetname",
        "target_name",
        "enemyname",
        "monstername",
        "bossname",
    ];
    let target_id = find_first_metadata(&values, &id_keys, Ghost(target_id_keys()));
    let target_name = find_first_metadata(&values, &name_keys, Ghost(target_name_keys()));
    (target_id, target_name, strings_of(&values))
}

// ---------------------------------------------------------------------- hits

/// What a character is called: by the Chinese name, by the English one where
/// there is no Chinese one, and by the number where the character is not known.
pub open spec fn character_label(characters: Map<u32, CharacterInfo>, id: u32) -> Seq<char> {
    if characters.contains_key(id) {
        let row = characters[id];
        if row.name_zh@.len() == 0 {
            row.name_en@
        } else {
            row.name_zh@
        }
    } else if id == 0 {
        "未知角色"@
    } else {
        "未知角色("@ + text::dec(id as nat) + ")"@
    }
}

/// The declared character of the packet is also declared at the record's bit
/// shift.
pub open spec fn declared_at_shift(
    evidence: Seq<(u32, u8, usize)>,
    id: Option<u32>,
    bit_shift: u8,
) -> bool {
    exists|i: int|
        0 <= i < evidence.len() && Some((#[trigger] evidence[i]).0) == id && evidence[i].1
            == bit_shift
}

/// The share of `part` in `whole`, in thousandths of a percent.
pub open spec fn share(part: i64, whole: i64) -> int {
    if whole > 0 {
        float::round_even(part * 100_000, whole as int)
    } else {
        0
    }
}

/// The hit that a damage record of the payload reports.
pub open spec fn hit_of(
    data: Seq<u8>,
    record: ParsedDamageRecord,
    timestamp: i64,
    packet_char_id: Option<u32>,
    fallback_char_id: Option<u32>,
    characters: Map<u32, CharacterInfo>,
    evidence: Seq<(u32, u8, usize)>,
) -> model::HitView {
    let char_id = match packet_char_id {
        Some(id) => id,
        None => match fallback_char_id {
            Some(id) => id,
            None => 0,
        },
    };
    let damage = record.damage.thousandths();
    let before = record.target_hp_before.thousandths();
    let max = record.target_max_hp.thousandths();
    let after = if before > damage {
        before - damage
    } else {
        0
    };
    let metadata = target_metadata(data, record.byte_offset as int, record.bit_shift as int);
    model::HitView {
        timestamp,
        char_id,
        char_name: character_label(characters, char_id),
        char_known: characters.contains_key(char_id),
        damage: damage as i64,
        byte_offset: record.byte_offset,
        bit_shift: record.bit_shift,
        char_source: if packet_char_id is Some {
            "packet"@
        } else if fallback_char_id is Some {
            "session"@
        } else {
            "unknown"@
        },
        direction: if record.target_max_hp.bits <= MAX_PLAUSIBLE_CHARACTER_HP && packet_char_id is Some
            && declared_at_shift(evidence, packet_char_id, record.bit_shift) {
            "incoming"@
        } else if packet_char_id is Some {
            "outgoing"@
        } else {
            "unknown"@
        },
        target_hp_before: before as i64,
        target_hp_after: after as i64,
        target_max_hp: max as i64,
        target_hp_percent: clamp_share(share(after as i64, max as i64)),
        target_id: metadata.0,
        target_name: metadata.1,
        target_context: metadata.2,
        gameplay_effect_index: None,
        gameplay_effect_name: None,
        ability_name: None,
        damage_name: None,
        attack_type: None,
    }
}

/// A share held at the largest 64-bit integer.
pub open spec fn clamp_share(value: int) -> i64 {
    if value > i64::MAX {
        i64::MAX
    } else {
        value as i64
    }
}

fn share_of(part: i64, whole: i64) -> (r: i64)
    requires
        part >= 0,
    ensures
        r == clamp_share(share(part, whole)),
{
    if whole <= 0 {
        return 0;
    }
    let n: i128 = (part as i128) * 100_000;
    let d: i128 = whole as i128;
    let q: i128 = n / d;
    let rest: i128 = n % d;
    proof {
        vstd::arithmetic::div_mod::lemma_div_pos_is_pos(n as int, d as int);
        vstd::arithmetic::div_mod::lemma_div_is_ordered_by_denominator(n as int, 1, d as int);
        assert(n as int / 1 == n) by (nonlinear_arith);
    }
    let rounded: i128 = if 2 * rest > d || (2 * rest == d && q % 2 == 1) { q + 1 } else { q };
    if rounded > 0x7fff_ffff_ffff_ffff {
        i64::MAX
    } else {
        rounded as i64
    }
}

fn label_of(characters: &HashMap<u32, CharacterInfo>, id: u32) -> (r: (String, bool))
    ensures
        r.0@ == character_label(characters@, id),
        r.1 == characters@.contains_key(id),
{
    match characters.get(&id) {
        Some(row) => {
            if row.name_zh.as_str().is_empty() {
                (row.name_en.clone(), true)
            } else {
                (row.name_zh.clone(), true)
            }
        },
        None => {
            if id == 0 {
                ("未知角色".to_owned(), false)
            } else {
                let number = text::dec_string(id as u64);
                (text::concat3("未知角色(", number.as_str(), ")"), false)
            }
        },
    }
}

fn is_declared_at_shift(evidence: &[(u32, u8, usize)], id: u32, bit_shift: u8) -> (r: bool)
    ensures
        r == declared_at_shift(evidence@, Some(id), bit_shift),
{
    let mut i: usize = 0;
    while i < evidence.len()
        invariant
            i <= evidence@.len(),
            forall|k: int|
                0 <= k < i ==> !((#[trigger] evidence@[k]).0 == id && evidence@[k].1 == bit_shift),
        decreases evidence@.len() - i,
    {
        if evidence[i].0 == id && evidence[i].1 == bit_shift {
            assert(Some(evidence@[i as int].0) == Some(id));
            return true;
        }
        i += 1;
    }
    false
}

fn hit_from_record(
    data: &[u8],
    record: &ParsedDamageRecord,
    timestamp: i64,
    packet_char_id: Option<u32>,
    fallback_char_id: Option<u32>,
    characters: &HashMap<u32, CharacterInfo>,
    evidence: &[(u32, u8, usize)],
) -> (hit: Hit)
    requires
        record.byte_offset <= data@.len(),
        record.bit_shift < 8,
        plausible(*record),
    ensures
        hit@ == hit_of(
            data@,
            *record,
            timestamp,
            packet_char_id,
            fallback_char_id,
            characters@,
            evidence@,
        ),
{
    let char_id: u32 = match packet_char_id {
        Some(id) => id,
        None => match fallback_char_id {
            Some(id) => id,
            None => 0,
        },
    };
    let (char_name, char_known) = label_of(characters, char_id);
    let damage: i64 = record.damage.to_thousandths();
    let target_hp_before: i64 = record.target_hp_before.to_thousandths();
    let target_max_hp: i64 = record.target_max_hp.to_thousandths();
    proof {
        record.damage.thousandths_is_nonnegative();
    }
    let target_hp_after: i64 = if target_hp_before > damage {
        target_hp_before - damage
    } else {
        0
    };
    let incoming = match packet_char_id {
        Some(id) => record.target_max_hp.bits <= MAX_PLAUSIBLE_CHARACTER_HP
            && is_declared_at_shift(evidence, id, record.bit_shift),
        None => false,
    };
    let direction = if incoming {
        "incoming"
    } else if packet_char_id.is_some() {
        "outgoing"
    } else {
        "unknown"
    };
    let char_source = if packet_char_id.is_some() {
        "packet"
    } else if fallback_char_id.is_some() {
        "session"
    } else {
        "unknown"
    };
    let (target_id, target_name, target_context) = extract_target_metadata(
        data,
        record.byte_offset,
        record.bit_shift,
    );
    Hit {
        timestamp,
        char_id,
        char_name,
        char_known,
        damage,
        byte_offset: record.byte_offset,
        bit_shift: record.bit_shift,
        char_source: char_source.to_owned(),
        direction: direction.to_owned(),
        target_hp_before,
        target_hp_after,
        target_max_hp,
        target_hp_percent: share_of(target_hp_after, target_max_hp),
        target_id,
        target_name,
        target_context,
        gameplay_effect_index: None,
        gameplay_effect_name: None,
        ability_name: None,
        damage_name: None,
        attack_type: None,
    }
}

proof fn lemma_records_in_data(data: Seq<u8>, n: int)
    requires
        0 <= n <= 8 * data.len(),
        data.len() <= usize::MAX,
    ensures
        forall|i: int|
            0 <= i < records_up_to(data, n).len() ==> {
                let r = #[trigger] records_up_to(data, n)[i];
                plausible(r) && r.byte_offset <= data.len() && r.bit_shift < 8
            },
    decreases n,
{
    if n > 0 {
        lemma_records_in_data(data, n - 1);
        let before = records_up_to(data, n - 1);
        let all = records_up_to(data, n);
        assert forall|i: int| 0 <= i < all.len() implies {
            let r = #[trigger] all[i];
            plausible(r) && r.byte_offset <= data.len() && r.bit_shift < 8
        } by {
            if i < before.len() {
                assert(all[i] == before[i]);
            } else {
                assert(field_matches(data, n - 1, 0));
                assert(bits::bytes_at(data, n - 1, 5) is Some);
            }
        }
    }
}

/// The hits that the damage records of a payload report.
pub fn parse_damage_payload(
    data: &[u8],
    timestamp: i64,
    packet_char_id: Option<u32>,
    fallback_char_id: Option<u32>,
    characters: &HashMap<u32, CharacterInfo>,
    evidence: &[(u32, u8, usize)],
) -> (hits: Vec<Hit>)
    ensures
        model::hit_views(hits@) == records_up_to(data@, 8 * data@.len() as int).map_values(
            |r: ParsedDamageRecord|
                hit_of(
                    data@,
                    r,
                    timestamp,
                    packet_char_id,
                    fallback_char_id,
                    characters@,
                    evidence@,
                ),
        ),
{
    let records = parse_damage_records(data);
    let _available: usize = data.len();
    proof {
        lemma_records_in_data(data@, 8 * data@.len() as int);
    }
    let mut hits: Vec<Hit> = Vec::new();
    let mut i: usize = 0;
    while i < records.len()
        invariant
            i <= records.len(),
            hits@.len() == i,
            forall|k: int|
                0 <= k < records@.len() ==> {
                    let r = #[trigger] records@[k];
                    plausible(r) && r.byte_offset <= data@.len() && r.bit_shift < 8
                },
            forall|k: int|
                0 <= k < i ==> (#[trigger] hits@[k])@ == hit_of(
                    data@,
                    records@[k],
                    timestamp,
                    packet_char_id,
                    fallback_char_id,
                    characters@,
                    evidence@,
                ),
        decreases records.len() - i,
    {
        let hit = hit_from_record(
            data,
            &records[i],
            timestamp,
            packet_char_id,
            fallback_char_id,
            characters,
            evidence,
        );
        hits.push(hit);
        i += 1;
    }
    hits
}

// ------------------------------------------------------------- what is found where

/// From the bit position on, the data reads as the declaration of a character: the
/// length five, the four digits of its number, and a zero.
pub open spec fn declares(data: Seq<u8>, pos: int, id: u32) -> bool {
    &&& 0 <= pos && pos + 72 <= 8 * data.len()
    &&& 1_000 <= id <= 9_999
    &&& bits::byte_at(data, pos) == 5
    &&& bits::byte_at(data, pos + 8) == 0
    &&& bits::byte_at(data, pos + 16) == 0
    &&& bits::byte_at(data, pos + 24) == 0
    &&& bits::byte_at(data, pos + 32) == '0' as int + id / 1_000
    &&& bits::byte_at(data, pos + 40) == '0' as int + id / 100 % 10
    &&& bits::byte_at(data, pos + 48) == '0' as int + id / 10 % 10
    &&& bits::byte_at(data, pos + 56) == '0' as int + id % 10
    &&& bits::byte_at(data, pos + 64) == 0
}

proof fn lemma_late_byte(data: Seq<u8>, shift: int, k: int)
    requires
        0 <= shift < 8,
        0 <= k < bits::shifted(data, shift).len(),
    ensures
        bits::shifted(data, shift)[k] == bits::byte_at(data, 8 * k + shift),
{
    if shift == 0 {
        assert((8 * k) % 8 == 0 && (8 * k) / 8 == k);
    }
}

#[verifier::spinoff_prover]
#[verifier::rlimit(60)]
proof fn lemma_declaration_at(data: Seq<u8>, shift: int, at: int, id: u32)
    requires
        0 <= shift < 8,
        0 <= at < declaration_places(bits::shifted(data, shift)),
    ensures
        declaration_at(bits::shifted(data, shift), at) == Some(id) <==> declares(
            data,
            8 * at + shift,
            id,
        ),
{
    let d = bits::shifted(data, shift);
    lemma_late_byte(data, shift, at);
    lemma_late_byte(data, shift, at + 1);
    lemma_late_byte(data, shift, at + 2);
    lemma_late_byte(data, shift, at + 3);
    lemma_late_byte(data, shift, at + 4);
    lemma_late_byte(data, shift, at + 5);
    lemma_late_byte(data, shift, at + 6);
    lemma_late_byte(data, shift, at + 7);
    lemma_late_byte(data, shift, at + 8);
    assert(8 * at + shift + 72 <= 8 * data.len());
    let (a, b, c, e) = (d[at + 4] - 48, d[at + 5] - 48, d[at + 6] - 48, d[at + 7] - 48);
    if declaration_at(d, at) == Some(id) {
        assert(48 <= d[at + 4] <= 57 && 48 <= d[at + 5] <= 57 && 48 <= d[at + 6] <= 57 && 48 <= d[at
            + 7] <= 57);
        lemma_four_digits(a, b, c, e, id as int);
    }
    if declares(data, 8 * at + shift, id) {
        assert forall|k: int| at + 4 <= k < at + 8 implies 48 <= #[trigger] d[k] <= 57 by {
            assert(k == at + 4 || k == at + 5 || k == at + 6 || k == at + 7);
        }
        lemma_four_digits(a, b, c, e, id as int);
    }
}

proof fn lemma_four_digits(a: int, b: int, c: int, d: int, n: int)
    requires
        0 <= a < 10,
        0 <= b < 10,
        0 <= c < 10,
        0 <= d < 10,
        0 <= n,
    ensures
        1000 * a + 100 * b + 10 * c + d == n <==> n < 10_000 && a == n / 1000 && b == n / 100 % 10 && c
            == n / 10 % 10 && d == n % 10,
{
    let m = 1000 * a + 100 * b + 10 * c + d;
    assert(m / 10 == 100 * a + 10 * b + c);
    assert(m % 10 == d);
    assert((100 * a + 10 * b + c) % 10 == c);
    assert((100 * a + 10 * b + c) / 10 == 10 * a + b);
    assert((10 * a + b) % 10 == b);
    assert((10 * a + b) / 10 == a);
    assert(m / 100 == m / 10 / 10);
    assert(m / 1000 == m / 10 / 10 / 10);
    assert(n / 100 == n / 10 / 10);
    assert(n / 1000 == n / 10 / 10 / 10);
    assert(n == 10 * (n / 10) + n % 10);
    assert(n / 10 == 10 * (n / 10 / 10) + n / 10 % 10);
    assert(n / 10 / 10 == 10 * (n / 10 / 10 / 10) + n / 10 / 10 % 10);
}

proof fn lemma_declared_in(data: Seq<u8>, shift: int, n: int, e: (u32, u8, usize))
    requires
        0 <= shift < 8,
        0 <= n <= declaration_places(bits::shifted(data, shift)),
        data.len() <= usize::MAX,
    ensures
        declared_in(bits::shifted(data, shift), shift as u8, n).contains(e) <==> e.1 == shift && e.2
            < n && declares(data, 8 * e.2 + shift, e.0),
    decreases n,
{
    let d = bits::shifted(data, shift);
    let all = declared_in(d, shift as u8, n);
    if n > 0 {
        let before = declared_in(d, shift as u8, n - 1);
        lemma_declared_in(data, shift, n - 1, e);
        lemma_declaration_at(data, shift, n - 1, e.0);
        match declaration_at(d, n - 1) {
            Some(id) => {
                let new = (id, shift as u8, (n - 1) as usize);
                assert(all == before.push(new));
                if before.contains(e) {
                    let w = choose|w: int| 0 <= w < before.len() && before[w] == e;
                    assert(all[w] == e);
                }
                if e == new {
                    assert(all[all.len() - 1] == e);
                }
                if all.contains(e) {
                    let w = choose|w: int| 0 <= w < all.len() && all[w] == e;
                    if w < before.len() {
                        assert(before[w] == e);
                    }
                }
            },
            None => {},
        }
    }
}

proof fn lemma_declared_below(data: Seq<u8>, k: int, e: (u32, u8, usize))
    requires
        0 <= k <= 8,
        data.len() <= usize::MAX,
    ensures
        declared_below(data, k).contains(e) <==> e.1 < k && declares(data, 8 * e.2 + e.1, e.0),
    decreases k,
{
    if k > 0 {
        let d = bits::shifted(data, k - 1);
        let before = declared_below(data, k - 1);
        let new = declared_in(d, (k - 1) as u8, declaration_places(d));
        let all = declared_below(data, k);
        lemma_declared_below(data, k - 1, e);
        lemma_declared_in(data, k - 1, declaration_places(d), e);
        assert(all == before + new);
        if before.contains(e) {
            let w = choose|w: int| 0 <= w < before.len() && before[w] == e;
            assert(all[w] == e);
        }
        if new.contains(e) {
            let w = choose|w: int| 0 <= w < new.len() && new[w] == e;
            assert(all[before.len() + w] == e);
        }
        if all.contains(e) {
            let w = choose|w: int| 0 <= w < all.len() && all[w] == e;
            if w < before.len() {
                assert(before[w] == e);
            } else {
                assert(new[w - before.len()] == e);
            }
        }
    }
}

/// Whatever reads as a declaration, at any bit of the data, is found, with its place;
/// and nothing else is.
pub proof fn declarations_are_found_at_every_bit(data: Seq<u8>, id: u32, shift: u8, offset: usize)
    requires
        data.len() <= usize::MAX,
    ensures
        declared(data).contains((id, shift, offset)) <==> shift < 8 && declares(
            data,
            8 * offset + shift,
            id,
        ),
{
    lemma_declared_below(data, 8, (id, shift, offset));
}

/// The characters of a payload are those that it declares at some bit.
pub proof fn declared_characters_are_those_of_the_payload(data: Seq<u8>, id: u32)
    requires
        data.len() <= usize::MAX,
    ensures
        distinct_ids(declared(data), declared(data).len() as int).contains(id) <==> exists|pos: int|
            declares(data, pos, id),
        distinct_ids(declared(data), declared(data).len() as int).no_duplicates(),
{
    let evidence = declared(data);
    let n = evidence.len() as int;
    declared_ids_are_distinct_and_complete(evidence, n);
    if distinct_ids(evidence, n).contains(id) {
        let k = choose|k: int| 0 <= k < n && #[trigger] evidence[k].0 == id;
        let e = evidence[k];
        assert(evidence.contains(e));
        declarations_are_found_at_every_bit(data, e.0, e.1, e.2);
        assert(declares(data, 8 * e.2 + e.1, id));
    }
    if exists|pos: int| declares(data, pos, id) {
        let pos = choose|pos: int| declares(data, pos, id);
        let e = (id, (pos % 8) as u8, (pos / 8) as usize);
        assert(8 * (pos / 8) + pos % 8 == pos);
        declarations_are_found_at_every_bit(data, e.0, e.1, e.2);
        let k = choose|k: int| 0 <= k < n && evidence[k] == e;
        assert(evidence[k].0 == id);
    }
}

/// From the bit position on stands a field: its kind, its length, and as many bytes.
pub open spec fn holds_field(data: Seq<u8>, pos: int, kind: u8, length: int) -> bool {
    &&& 0 <= pos && pos + 40 + 8 * length <= 8 * data.len()
    &&& bits::byte_at(data, pos) == kind
    &&& word_at(data, pos + 8) == length
}

/// The number that four bytes from the bit position on write.
pub open spec fn word_at(data: Seq<u8>, pos: int) -> int {
    bits::byte_at(data, pos) + 0x100 * bits::byte_at(data, pos + 8) + 0x1_0000 * bits::byte_at(
        data,
        pos + 16,
    ) + 0x100_0000 * bits::byte_at(data, pos + 24)
}

/// From the bit position on stand the ten fields of a damage record: damage, hit
/// points before, their maximum, the time of the damage, the time of the world, the
/// damage again, three flags, and a last value.
pub open spec fn holds_record(data: Seq<u8>, pos: int) -> bool {
    &&& holds_field(data, pos, 12, 4)
    &&& holds_field(data, pos + 72, 12, 4)
    &&& holds_field(data, pos + 144, 12, 4)
    &&& holds_field(data, pos + 216, 13, 8)
    &&& holds_field(data, pos + 320, 12, 4)
    &&& holds_field(data, pos + 392, 12, 4)
    &&& holds_field(data, pos + 464, 6, 4)
    &&& holds_field(data, pos + 536, 6, 4)
    &&& holds_field(data, pos + 608, 6, 4)
    &&& holds_field(data, pos + 680, 12, 4)
}

/// The values of a record can be those of a hit: from two to a thousand million points
/// of damage, hit points that are not negative, a maximum above zero, and times that
/// are none of them negative.
pub open spec fn holds_sense(r: ParsedDamageRecord) -> bool {
    &&& 0x4000_0000 <= r.damage.bits <= 0x4e6e_6b28
    &&& r.target_hp_before.bits < 0x7f80_0000 || r.target_hp_before.bits == 0x8000_0000
    &&& 0 < r.target_max_hp.bits < 0x7f80_0000
    &&& r.damage_time.bits < 0x7ff0_0000_0000_0000 || r.damage_time.bits == 0x8000_0000_0000_0000
    &&& r.world_time.bits < 0x7f80_0000 || r.world_time.bits == 0x8000_0000
    &&& r.trailing_value.bits % 0x8000_0000 < 0x7f80_0000
}

/// The record has the values that stand at the bit position.
pub open spec fn reads_record(data: Seq<u8>, pos: int, r: ParsedDamageRecord) -> bool {
    &&& r.damage.bits == word_at(data, pos + 40)
    &&& r.target_hp_before.bits == word_at(data, pos + 112)
    &&& r.target_max_hp.bits == word_at(data, pos + 184)
    &&& r.damage_time.bits == word_at(data, pos + 256) + 0x1_0000_0000 * word_at(data, pos + 288)
    &&& r.world_time.bits == word_at(data, pos + 360)
    &&& r.repeated_damage.bits == word_at(data, pos + 432)
    &&& r.trailing_value.bits == word_at(data, pos + 720)
    &&& r.byte_offset == pos / 8 + 5
    &&& r.bit_shift == pos % 8
}

proof fn lemma_word(data: Seq<u8>, pos: int, count: int, at: int)
    requires
        0 <= pos,
        pos + 8 * count <= 8 * data.len(),
        0 <= at,
        at + 4 <= count,
    ensures
        bits::bytes_at(data, pos, count) is Some,
        bits::le32(bits::bytes_at(data, pos, count).unwrap(), at) == word_at(data, pos + 8 * at),
{
    let b = bits::bytes_at(data, pos, count).unwrap();
    assert(b[at] == bits::byte_at(data, pos + 8 * at));
    assert(b[at + 1] == bits::byte_at(data, pos + 8 * at + 8));
    assert(b[at + 2] == bits::byte_at(data, pos + 8 * at + 16));
    assert(b[at + 3] == bits::byte_at(data, pos + 8 * at + 24));
}

proof fn lemma_field(data: Seq<u8>, pos: int, i: int, start: int, kind: u8, length: int)
    requires
        0 <= pos,
        start == field_start(i),
        kind == field_type(i),
        length == field_length(i),
        0 < length <= 8,
        start >= 0,
    ensures
        field_matches(data, pos, i) <==> holds_field(data, pos + start, kind, length),
        field_matches(data, pos, i) ==> bits::le32(field_raw(data, pos, i), 0) == word_at(
            data,
            pos + start + 40,
        ) && (length == 8 ==> bits::le32(field_raw(data, pos, i), 4) == word_at(
            data,
            pos + start + 72,
        )) && pos + start + 40 + 8 * length <= 8 * data.len(),
{
    let p = pos + start;
    if p + 40 <= 8 * data.len() {
        lemma_word(data, p, 5, 1);
        let header = bits::bytes_at(data, p, 5).unwrap();
        assert(header[0] == bits::byte_at(data, p));
        if field_matches(data, pos, i) {
            lemma_word(data, p + 40, length, 0);
            if length == 8 {
                lemma_word(data, p + 40, length, 4);
            }
        }
    }
}

proof fn lemma_record_fields(data: Seq<u8>, pos: int)
    requires
        0 <= pos,
    ensures
        record_layout(data, pos) <==> holds_record(data, pos),
        record_layout(data, pos) ==> forall|i: int|
            0 <= i < 10 ==> bits::le32(#[trigger] field_raw(data, pos, i), 0) == word_at(
                data,
                pos + field_start(i) + 40,
            ),
        record_layout(data, pos) ==> bits::le32(field_raw(data, pos, 3), 4) == word_at(
            data,
            pos + 288,
        ),
{
    lemma_field(data, pos, 0, 0, 12, 4);
    lemma_field(data, pos, 1, 72, 12, 4);
    lemma_field(data, pos, 2, 144, 12, 4);
    lemma_field(data, pos, 3, 216, 13, 8);
    lemma_field(data, pos, 4, 320, 12, 4);
    lemma_field(data, pos, 5, 392, 12, 4);
    lemma_field(data, pos, 6, 464, 6, 4);
    lemma_field(data, pos, 7, 536, 6, 4);
    lemma_field(data, pos, 8, 608, 6, 4);
    lemma_field(data, pos, 9, 680, 12, 4);
    if record_layout(data, pos) {
        assert(field_matches(data, pos, 0) && field_matches(data, pos, 1) && field_matches(
            data,
            pos,
            2,
        ) && field_matches(data, pos, 3) && field_matches(data, pos, 4) && field_matches(
            data,
            pos,
            5,
        ) && field_matches(data, pos, 6) && field_matches(data, pos, 7) && field_matches(
            data,
            pos,
            8,
        ) && field_matches(data, pos, 9));
    }
    if holds_record(data, pos) {
        assert forall|i: int| 0 <= i < RECORD_FIELDS implies #[trigger] field_matches(
            data,
            pos,
            i,
        ) by {
            assert(i == 0 || i == 1 || i == 2 || i == 3 || i == 4 || i == 5 || i == 6 || i == 7 || i
                == 8 || i == 9);
        }
    }
    assert forall|i: int| 0 <= i < 10 && record_layout(data, pos) implies bits::le32(
        #[trigger] field_raw(data, pos, i),
        0,
    ) == word_at(data, pos + field_start(i) + 40) by {
        assert(i == 0 || i == 1 || i == 2 || i == 3 || i == 4 || i == 5 || i == 6 || i == 7 || i
            == 8 || i == 9);
    }
}

proof fn lemma_record_at(data: Seq<u8>, pos: int)
    requires
        0 <= pos,
        pos / 8 + 5 <= usize::MAX,
    ensures
        record_at(data, pos) matches Some(r) ==> holds_record(data, pos) && holds_sense(r)
            && reads_record(data, pos, r) && repeats(r.damage, r.repeated_damage),
        forall|r: ParsedDamageRecord|
            holds_record(data, pos) && #[trigger] reads_record(data, pos, r) && holds_sense(r)
                && repeats(r.damage, r.repeated_damage) ==> record_at(data, pos) is Some,
{
    lemma_record_fields(data, pos);
    if record_layout(data, pos) {
        let ghost a = field_raw(data, pos, 0);
        let ghost b = field_raw(data, pos, 1);
        let ghost c = field_raw(data, pos, 2);
        let ghost d = field_raw(data, pos, 3);
        let ghost e = field_raw(data, pos, 4);
        let ghost f = field_raw(data, pos, 5);
        let ghost g = field_raw(data, pos, 9);
        assert(bits::le32(a, 0) == word_at(data, pos + 40));
        assert(bits::le32(b, 0) == word_at(data, pos + 112));
        assert(bits::le32(c, 0) == word_at(data, pos + 184));
        assert(bits::le32(d, 0) == word_at(data, pos + 256));
        assert(bits::le32(e, 0) == word_at(data, pos + 360));
        assert(bits::le32(f, 0) == word_at(data, pos + 432));
        assert(bits::le32(g, 0) == word_at(data, pos + 720));
    }
}

/// The record starts at the bit position.
pub open spec fn starts_at(r: ParsedDamageRecord, pos: int) -> bool {
    8 * (r.byte_offset - 5) + r.bit_shift == pos
}

#[verifier::spinoff_prover]
#[verifier::rlimit(80)]
proof fn lemma_records_from(data: Seq<u8>, n: int, pos: int)
    requires
        0 <= n,
        n / 8 + 5 <= usize::MAX,
        0 <= pos,
    ensures
        pos < n && record_at(data, pos) is Some ==> records_up_to(data, n).contains(
            record_at(data, pos).unwrap(),
        ),
        forall|k: int|
            0 <= k < records_up_to(data, n).len() && starts_at(
                #[trigger] records_up_to(data, n)[k],
                pos,
            ) ==> pos < n && record_at(data, pos) == Some(records_up_to(data, n)[k]),
    decreases n,
{
    if n > 0 {
        lemma_records_from(data, n - 1, pos);
        let before = records_up_to(data, n - 1);
        let all = records_up_to(data, n);
        if pos < n && record_at(data, pos) is Some {
            let r = record_at(data, pos).unwrap();
            if pos < n - 1 {
                let w = choose|w: int| 0 <= w < before.len() && before[w] == r;
                assert(all[w] == r);
            } else {
                assert(all[all.len() - 1] == r);
            }
        }
        assert forall|k: int| 0 <= k < all.len() && starts_at(#[trigger] all[k], pos) implies pos < n
            && record_at(data, pos) == Some(all[k]) by {
            if k < before.len() {
                assert(all[k] == before[k]);
            } else {
                assert(all[k] == record_at(data, n - 1).unwrap());
                assert(starts_at(all[k], n - 1));
            }
        }
    }
}

/// Damage records are found at every bit: where the ten fields stand and hold
/// sensible values, of which the sixth repeats the first, there is a record with those
/// values, and there is none anywhere else.
pub proof fn records_are_found_at_every_bit(data: Seq<u8>, pos: int, r: ParsedDamageRecord)
    requires
        data.len() + 5 <= usize::MAX,
        0 <= pos < 8 * data.len(),
    ensures
        records_up_to(data, 8 * data.len() as int).contains(r) && starts_at(r, pos) ==> holds_record(
            data,
            pos,
        ) && reads_record(data, pos, r) && holds_sense(r) && repeats(r.damage, r.repeated_damage),
        holds_record(data, pos) && reads_record(data, pos, r) && holds_sense(r) && repeats(
            r.damage,
            r.repeated_damage,
        ) ==> exists|k: int|
            0 <= k < records_up_to(data, 8 * data.len() as int).len() && reads_record(
                data,
                pos,
                #[trigger] records_up_to(data, 8 * data.len() as int)[k],
            ),
{
    let n = 8 * data.len() as int;
    let all = records_up_to(data, n);
    lemma_record_at(data, pos);
    lemma_records_from(data, n, pos);
    if all.contains(r) && starts_at(r, pos) {
        let k = choose|k: int| 0 <= k < all.len() && all[k] == r;
        assert(starts_at(all[k], pos));
    }
    if holds_record(data, pos) && reads_record(data, pos, r) && holds_sense(r) && repeats(
        r.damage,
        r.repeated_damage,
    ) {
        let found = record_at(data, pos).unwrap();
        let k = choose|k: int| 0 <= k < all.len() && all[k] == found;
        assert(reads_record(data, pos, all[k]));
    }
}

/// A hit is on a member of the party only where the target's hit points can be those
/// of a character, at most half a million, and the character that the packet declares
/// is declared among the same bits. Any other hit of a packet that declares one
/// character goes out, and of one that does not it is not known.
pub proof fn only_characters_are_hit_from_outside(
    data: Seq<u8>,
    r: ParsedDamageRecord,
    timestamp: i64,
    packet_char_id: Option<u32>,
    fallback_char_id: Option<u32>,
    characters: Map<u32, CharacterInfo>,
    evidence: Seq<(u32, u8, usize)>,
)
    ensures
        ({
            let hit = hit_of(
                data,
                r,
                timestamp,
                packet_char_id,
                fallback_char_id,
                characters,
                evidence,
            );
            let on_a_character = packet_char_id is Some && r.target_max_hp.bits <= 0x48f4_2400
                && exists|i: int|
                0 <= i < evidence.len() && (#[trigger] evidence[i]).0 == packet_char_id.unwrap()
                    && evidence[i].1 == r.bit_shift;
            &&& hit.direction == "incoming"@ <==> on_a_character
            &&& hit.direction == "outgoing"@ <==> packet_char_id is Some && !on_a_character
            &&& hit.direction == "unknown"@ <==> packet_char_id is None
        }),
{
    reveal_strlit("incoming");
    reveal_strlit("outgoing");
    reveal_strlit("unknown");
    assert("incoming"@[0] == 'i' && "outgoing"@[0] == 'o' && "unknown"@[0] == 'u');
    if packet_char_id is Some {
        let id = packet_char_id.unwrap();
        if exists|i: int|
            0 <= i < evidence.len() && (#[trigger] evidence[i]).0 == id && evidence[i].1
                == r.bit_shift {
            let i = choose|i: int|
                0 <= i < evidence.len() && (#[trigger] evidence[i]).0 == id && evidence[i].1
                    == r.bit_shift;
            assert(Some(evidence[i].0) == packet_char_id);
        }
    }
}

/// A hit is dealt by the character that its packet declares, or else by the one that
/// was declared before, or else by an unknown one; and it says which of them holds.
pub proof fn hits_are_credited_to_declared_characters(
    data: Seq<u8>,
    r: ParsedDamageRecord,
    timestamp: i64,
    packet_char_id: Option<u32>,
    fallback_char_id: Option<u32>,
    characters: Map<u32, CharacterInfo>,
    evidence: Seq<(u32, u8, usize)>,
)
    ensures
        ({
            let hit = hit_of(
                data,
                r,
                timestamp,
                packet_char_id,
                fallback_char_id,
                characters,
                evidence,
            );
            &&& packet_char_id matches Some(id) ==> hit.char_id == id && hit.char_source
                == "packet"@
            &&& packet_char_id is None ==> (fallback_char_id matches Some(id) ==> hit.char_id == id
                && hit.char_source == "session"@)
            &&& packet_char_id is None && fallback_char_id is None ==> hit.char_id == 0
                && hit.char_source == "unknown"@
            &&& hit.char_known == characters.contains_key(hit.char_id)
            &&& characters.contains_key(hit.char_id) ==> hit.char_name == if characters[hit.char_id].name_zh@.len()
                > 0 {
                characters[hit.char_id].name_zh@
            } else {
                characters[hit.char_id].name_en@
            }
            &&& hit.timestamp == timestamp
            &&& hit.byte_offset == r.byte_offset && hit.bit_shift == r.bit_shift
        }),
{
}

/// A hit takes its damage off its target's hit points, down to nothing, and what is
/// left and the maximum make its share.
pub proof fn damage_is_taken_off_the_hit_points(
    data: Seq<u8>,
    r: ParsedDamageRecord,
    timestamp: i64,
    packet_char_id: Option<u32>,
    fallback_char_id: Option<u32>,
    characters: Map<u32, CharacterInfo>,
    evidence: Seq<(u32, u8, usize)>,
)
    requires
        0 <= r.damage.thousandths() <= i64::MAX,
        0 <= r.target_hp_before.thousandths() <= i64::MAX,
        0 < r.target_max_hp.thousandths() <= i64::MAX,
    ensures
        ({
            let hit = hit_of(
                data,
                r,
                timestamp,
                packet_char_id,
                fallback_char_id,
                characters,
                evidence,
            );
            let share = hit.target_hp_percent;
            &&& hit.damage == r.damage.thousandths()
            &&& hit.target_hp_before == r.target_hp_before.thousandths()
            &&& hit.target_max_hp == r.target_max_hp.thousandths()
            &&& hit.target_hp_before >= hit.damage ==> hit.target_hp_after + hit.damage
                == hit.target_hp_before
            &&& hit.target_hp_before < hit.damage ==> hit.target_hp_after == 0
            &&& share < i64::MAX ==> -hit.target_max_hp <= 2 * (share * hit.target_max_hp - 100_000
                * hit.target_hp_after) <= hit.target_max_hp
        }),
{
    let hit = hit_of(
        data,
        r,
        timestamp,
        packet_char_id,
        fallback_char_id,
        characters,
        evidence,
    );
    let a = hit.target_hp_after * 100_000;
    let d = hit.target_max_hp as int;
    let q = a / d;
    vstd::arithmetic::div_mod::lemma_fundamental_div_mod(a, d);
    vstd::arithmetic::div_mod::lemma_mod_bound(a, d);
    vstd::arithmetic::div_mod::lemma_div_pos_is_pos(a, d);
    assert(d * q == q * d) by (nonlinear_arith);
    assert((q + 1) * d == q * d + d) by (nonlinear_arith);
}

/// From the bit position on stands an update of a boss's hit points: its head, sixteen
/// bytes of a handle that are not all zero, twelve zeros, and at most a thousand million
/// hit points.
pub open spec fn tells_boss_hp(data: Seq<u8>, pos: int) -> bool {
    &&& 0 <= pos && pos + 320 <= 8 * data.len()
    &&& word_at(data, pos) == 6
    &&& word_at(data, pos + 32) == 0x2000
    &&& exists|i: int| 8 <= i < 24 && #[trigger] bits::byte_at(data, pos + 8 * i) != 0
    &&& forall|i: int| 24 <= i < 36 ==> #[trigger] bits::byte_at(data, pos + 8 * i) == 0
    &&& word_at(data, pos + 288) <= 0x4e6e_6b28 || word_at(data, pos + 288) == 0x8000_0000
}

proof fn lemma_boss_hp_at(data: Seq<u8>, pos: int)
    requires
        0 <= pos,
        pos / 8 + 36 <= usize::MAX,
    ensures
        boss_hp_at(data, pos) is Some <==> tells_boss_hp(data, pos),
        boss_hp_at(data, pos) matches Some(u) ==> u.current_hp.bits == word_at(data, pos + 288)
            && u.byte_offset == pos / 8 + 36 && u.bit_shift == pos % 8,
{
    if pos + 320 <= 8 * data.len() {
        let d = bits::bytes_at(data, pos, 40).unwrap();
        lemma_word(data, pos, 40, 36);
        lemma_word(data, pos, 40, 0);
        lemma_word(data, pos, 40, 4);
        assert forall|i: int| 0 <= i < 40 implies #[trigger] d[i] == bits::byte_at(
            data,
            pos + 8 * i,
        ) by {}
        assert(d[0] == bits::byte_at(data, pos));
        assert(d[1] == bits::byte_at(data, pos + 8));
        assert(d[2] == bits::byte_at(data, pos + 16));
        assert(d[3] == bits::byte_at(data, pos + 24));
        assert(d[4] == bits::byte_at(data, pos + 32));
        assert(d[5] == bits::byte_at(data, pos + 40));
        assert(d[6] == bits::byte_at(data, pos + 48));
        assert(d[7] == bits::byte_at(data, pos + 56));
        if boss_prefix(d) {
            let i = choose|i: int| 8 <= i < 24 && #[trigger] d[i] != 0;
            assert(bits::byte_at(data, pos + 8 * i) != 0);
            assert forall|i: int| 24 <= i < 36 implies #[trigger] bits::byte_at(data, pos + 8 * i)
                == 0 by {
                assert(d[i] == 0);
            }
        }
        if tells_boss_hp(data, pos) {
            let i = choose|i: int| 8 <= i < 24 && #[trigger] bits::byte_at(data, pos + 8 * i) != 0;
            assert(d[i] != 0);
            assert forall|i: int| 24 <= i < 36 implies #[trigger] d[i] == 0 by {
                assert(bits::byte_at(data, pos + 8 * i) == 0);
            }
        }
    }
}

proof fn lemma_boss_hp_from(data: Seq<u8>, n: int, pos: int)
    requires
        0 <= pos,
        0 <= n,
        n / 8 + 36 <= usize::MAX,
    ensures
        pos < n && boss_hp_at(data, pos) is Some ==> boss_hp_up_to(data, n).contains(
            boss_hp_at(data, pos).unwrap(),
        ),
        forall|k: int|
            0 <= k < boss_hp_up_to(data, n).len() && 8 * ((#[trigger] boss_hp_up_to(
                data,
                n,
            )[k]).byte_offset - 36) + boss_hp_up_to(data, n)[k].bit_shift == pos ==> pos < n
                && boss_hp_at(data, pos) == Some(boss_hp_up_to(data, n)[k]),
    decreases n,
{
    if n > 0 {
        lemma_boss_hp_from(data, n - 1, pos);
        lemma_boss_hp_at(data, n - 1);
        let before = boss_hp_up_to(data, n - 1);
        let all = boss_hp_up_to(data, n);
        if pos < n && boss_hp_at(data, pos) is Some {
            let r = boss_hp_at(data, pos).unwrap();
            if pos < n - 1 {
                let w = choose|w: int| 0 <= w < before.len() && before[w] == r;
                assert(all[w] == r);
            } else {
                assert(all[all.len() - 1] == r);
            }
        }
        assert forall|k: int|
            0 <= k < all.len() && 8 * ((#[trigger] all[k]).byte_offset - 36) + all[k].bit_shift
                == pos implies pos < n && boss_hp_at(data, pos) == Some(all[k]) by {
            if k < before.len() {
                assert(all[k] == before[k]);
            }
        }
    }
}

/// Updates of a boss's hit points are found at every bit, with the hit points that they
/// tell, and nowhere else.
pub proof fn boss_hit_points_are_found_at_every_bit(data: Seq<u8>, pos: int)
    requires
        data.len() + 36 <= usize::MAX,
        0 <= pos < 8 * data.len(),
    ensures
        tells_boss_hp(data, pos) <==> exists|k: int|
            0 <= k < boss_hp_up_to(data, 8 * data.len() as int).len() && {
                let u = #[trigger] boss_hp_up_to(data, 8 * data.len() as int)[k];
                &&& 8 * (u.byte_offset - 36) + u.bit_shift == pos
                &&& u.bit_shift < 8
                &&& u.current_hp.bits == word_at(data, pos + 288)
            },
{
    let n = 8 * data.len() as int;
    let all = boss_hp_up_to(data, n);
    lemma_boss_hp_at(data, pos);
    lemma_boss_hp_from(data, n, pos);
    if tells_boss_hp(data, pos) {
        let r = boss_hp_at(data, pos).unwrap();
        let k = choose|k: int| 0 <= k < all.len() && all[k] == r;
        assert(8 * (all[k].byte_offset - 36) + all[k].bit_shift == pos);
    }
}

/// From the bit position on stands an update of a target's hit points: the pattern of
/// its sixteen bytes, of which four are the target's own, and at most half a million hit
/// points.
pub open spec fn tells_current_hp(data: Seq<u8>, pos: int) -> bool {
    &&& 0 <= pos && pos + 160 <= 8 * data.len()
    &&& bits::byte_at(data, pos + 8) == 0 && bits::byte_at(data, pos + 16) == 0
    &&& bits::byte_at(data, pos + 24) == 0xe0 && bits::byte_at(data, pos + 32) == 0x4f
    &&& bits::byte_at(data, pos + 40) == 0x33 && bits::byte_at(data, pos + 48) == 0x33
    &&& bits::byte_at(data, pos + 64) == 0x0f
    &&& bits::byte_at(data, pos + 88) == 0
    &&& word_at(data, pos + 96) == 0x2400_0000
    &&& word_at(data, pos + 128) <= 0x48f4_2400 || word_at(data, pos + 128) == 0x8000_0000
}

proof fn lemma_current_hp_at(data: Seq<u8>, pos: int)
    requires
        0 <= pos,
        pos / 8 + 16 <= usize::MAX,
    ensures
        current_hp_at(data, pos) is Some <==> tells_current_hp(data, pos),
        current_hp_at(data, pos) matches Some(u) ==> u.current_hp.bits == word_at(data, pos + 128)
            && u.byte_offset == pos / 8 + 16 && u.bit_shift == pos % 8,
{
    if pos + 160 <= 8 * data.len() {
        let d = bits::bytes_at(data, pos, 20).unwrap();
        lemma_word(data, pos, 20, 16);
        assert(d[1] == bits::byte_at(data, pos + 8));
        assert(d[2] == bits::byte_at(data, pos + 16));
        assert(d[3] == bits::byte_at(data, pos + 24));
        assert(d[4] == bits::byte_at(data, pos + 32));
        assert(d[5] == bits::byte_at(data, pos + 40));
        assert(d[6] == bits::byte_at(data, pos + 48));
        assert(d[8] == bits::byte_at(data, pos + 64));
        assert(d[11] == bits::byte_at(data, pos + 88));
        assert(d[12] == bits::byte_at(data, pos + 96));
        assert(d[13] == bits::byte_at(data, pos + 104));
        assert(d[14] == bits::byte_at(data, pos + 112));
        assert(d[15] == bits::byte_at(data, pos + 120));
    }
}

proof fn lemma_current_hp_from(data: Seq<u8>, n: int, pos: int)
    requires
        0 <= pos,
        0 <= n,
        n / 8 + 16 <= usize::MAX,
    ensures
        pos < n && current_hp_at(data, pos) is Some ==> current_hp_up_to(data, n).contains(
            current_hp_at(data, pos).unwrap(),
        ),
        forall|k: int|
            0 <= k < current_hp_up_to(data, n).len() && 8 * ((#[trigger] current_hp_up_to(
                data,
                n,
            )[k]).byte_offset - 16) + current_hp_up_to(data, n)[k].bit_shift == pos ==> pos < n
                && current_hp_at(data, pos) == Some(current_hp_up_to(data, n)[k]),
    decreases n,
{
    if n > 0 {
        lemma_current_hp_from(data, n - 1, pos);
        lemma_current_hp_at(data, n - 1);
        let before = current_hp_up_to(data, n - 1);
        let all = current_hp_up_to(data, n);
        if pos < n && current_hp_at(data, pos) is Some {
            let r = current_hp_at(data, pos).unwrap();
            if pos < n - 1 {
                let w = choose|w: int| 0 <= w < before.len() && before[w] == r;
                assert(all[w] == r);
            } else {
                assert(all[all.len() - 1] == r);
            }
        }
        assert forall|k: int|
            0 <= k < all.len() && 8 * ((#[trigger] all[k]).byte_offset - 16) + all[k].bit_shift
                == pos implies pos < n && current_hp_at(data, pos) == Some(all[k]) by {
            if k < before.len() {
                assert(all[k] == before[k]);
            }
        }
    }
}

/// Updates of a target's hit points are found at every bit, with the hit points that
/// they tell, and nowhere else.
pub proof fn current_hit_points_are_found_at_every_bit(data: Seq<u8>, pos: int)
    requires
        data.len() + 16 <= usize::MAX,
        0 <= pos < 8 * data.len(),
    ensures
        tells_current_hp(data, pos) <==> exists|k: int|
            0 <= k < current_hp_up_to(data, 8 * data.len() as int).len() && {
                let u = #[trigger] current_hp_up_to(data, 8 * data.len() as int)[k];
                &&& 8 * (u.byte_offset - 16) + u.bit_shift == pos
                &&& u.bit_shift < 8
                &&& u.current_hp.bits == word_at(data, pos + 128)
            },
{
    let n = 8 * data.len() as int;
    let all = current_hp_up_to(data, n);
    lemma_current_hp_at(data, pos);
    lemma_current_hp_from(data, n, pos);
    if tells_current_hp(data, pos) {
        let r = current_hp_at(data, pos).unwrap();
        let k = choose|k: int| 0 <= k < all.len() && all[k] == r;
        assert(8 * (all[k].byte_offset - 16) + all[k].bit_shift == pos);
    }
}

/// A damage repeats itself, and what repeats it is no number at all or lies between one
/// and a thousand million and near it: by a hundredth, or by two millionths of it.
#[verifier::spinoff_prover]
pub proof fn damage_is_repeated_by_what_is_near_it(damage: F32, repeated: F32)
    requires
        0x4000_0000 <= damage.bits <= 0x4e6e_6b28,
    ensures
        repeats(damage, damage),
        repeats(damage, repeated) ==> repeated.bits % 0x8000_0000 > 0x7f80_0000 || (0x3f80_0000
            <= repeated.bits < 0x4f80_0000 && ({
            let difference = fixed(damage) - fixed(repeated);
            &&& 100 * difference <= 0x80_0000 || 500_000 * difference <= fixed(damage)
            &&& -100 * difference <= 0x80_0000 || -500_000 * difference <= fixed(damage)
        })),
{
    let s = (damage.bits % 0x80_0000) + 0x80_0000;
    let e = damage.spec_exponent();
    let k = excess_bits(damage);
    let p = vstd::arithmetic::power2::pow2(k as nat) as int;
    let product = millionth_product(damage);
    let rounded = float::round_even(product, p);
    vstd::arithmetic::power2::lemma2_to64();
    assert(p == 0x80_0000 || p == 0x100_0000);
    float::lemma_round_even_bounds(product, p);
    assert(128 <= e <= 157);
    let f = vstd::arithmetic::power2::pow2((e - 127) as nat) as int;
    let g = vstd::arithmetic::power2::pow2((180 - k - e) as nat) as int;
    vstd::arithmetic::power2::lemma_pow2_pos((e - 127) as nat);
    vstd::arithmetic::power2::lemma_pow2_pos((180 - k - e) as nat);
    assert(fixed(damage) == s * f);
    assert(rounded >= 0);
    if repeats(damage, repeated) && !repeated.is_nan() {
        let difference = if fixed(damage) > fixed(repeated) {
            fixed(damage) - fixed(repeated)
        } else {
            fixed(repeated) - fixed(damage)
        };
        if !(difference * 128 <= 10_737_418) {
            assert(difference * g <= rounded * 1024);
            vstd::arithmetic::power2::lemma_pow2_adds((e - 127) as nat, (180 - k - e) as nat);
            assert((e - 127) as nat + (180 - k - e) as nat == (53 - k) as nat);
            let h = vstd::arithmetic::power2::pow2((53 - k) as nat) as int;
            assert(f * g == h);
            vstd::arithmetic::power2::lemma_pow2_adds((53 - k) as nat, k as nat);
            assert((53 - k) as nat + k as nat == 53);
            assert(h * p == 0x20_0000_0000_0000);
            assert(rounded * p <= product + p) by {
                vstd::arithmetic::div_mod::lemma_fundamental_div_mod(product, p);
                vstd::arithmetic::div_mod::lemma_mod_bound(product, p);
                assert(rounded * p <= (product / p + 1) * p) by (nonlinear_arith)
                    requires
                        rounded <= product / p + 1,
                        p > 0,
                ;
                assert((product / p + 1) * p == p * (product / p) + p) by (nonlinear_arith);
            }
            assert(difference * g * p <= (product + p) * 1024) by (nonlinear_arith)
                requires
                    difference * g <= rounded * 1024,
                    rounded * p <= product + p,
                    p > 0,
            ;
            assert(product + p <= s * 8_796_095);
            assert(difference * g * p * f == difference * 0x20_0000_0000_0000) by (nonlinear_arith)
                requires
                    f * g == h,
                    h * p == 0x20_0000_0000_0000,
            ;
            assert(difference * g * p * f <= (s * 8_796_095) * 1024 * f) by (nonlinear_arith)
                requires
                    difference * g * p <= (product + p) * 1024,
                    product + p <= s * 8_796_095,
                    f > 0,
            ;
            assert((s * 8_796_095) * 1024 * f == (s * f) * 9_007_201_280) by (nonlinear_arith);
            assert(difference * 0x20_0000_0000_0000 <= fixed(damage) * 9_007_201_280);
            assert(500_000 * difference <= fixed(damage));
        }
    }
}

/// What stands behind a key and an equals sign, up to the end of the text, is its value,
/// in whatever case the key is written, where it has no more than ninety-six bytes.
pub proof fn values_stand_behind_their_key(key: Seq<char>, written: Seq<char>, v: Seq<char>)
    requires
        text::lower(written) == key,
        v.len() > 0,
        forall|i: int|
            0 <= i < v.len() ==> !text::is_space(#[trigger] v[i]) && v[i] != ',' && v[i] != ';'
                && v[i] != '|' && v[i] != '\u{0}',
        v[0] != ':' && v[0] != '=' && v[0] != '#',
        text::utf8_len(v) <= 96,
    ensures
        value_after(written + "="@ + v, key) == Some(v),
{
    reveal_strlit("=");
    let value = written + "="@ + v;
    let lower = text::lower(value);
    assert(lower.subrange(0, key.len() as int) =~= key) by {
        assert forall|i: int| 0 <= i < key.len() implies lower[i] == key[i] by {
            assert(key[i] == text::lower(written)[i]);
            assert(value[i] == written[i]);
        }
    }
    assert(text::occurs_at(lower, key, 0));
    assert(text::find(lower, key) == Some(0int));
    let rest = value.skip(key.len() as int);
    assert(rest =~= "="@ + v);
    assert(rest[0] == '=' && rest[1] == v[0]);
    reveal_with_fuel(text::skip_class, 3);
    assert(text::skip_class(rest, Class::KeyLead, 0) == 1);
    assert(rest.skip(1) =~= v);
    assert forall|k: int| 0 <= k < v.len() implies !Class::ValueEnd.holds(#[trigger] v[k]) by {
        assert(!text::is_space(v[k]));
    }
    lemma_nothing_ends(v, 0);
    assert(v.take(v.len() as int) =~= v);
    assert(text::skip_class(v, Class::Space, 0) == 0);
    assert(v.skip(0) =~= v);
    assert(!text::is_space(v[v.len() - 1]));
    assert(text::back_class(v, Class::Space, v.len() as int) == v.len());
}

proof fn lemma_nothing_ends(v: Seq<char>, i: int)
    requires
        0 <= i <= v.len(),
        forall|k: int| 0 <= k < v.len() ==> !Class::ValueEnd.holds(#[trigger] v[k]),
    ensures
        text::seek_class(v, Class::ValueEnd, i) == v.len(),
    decreases v.len() - i,
{
    if i < v.len() {
        lemma_nothing_ends(v, i + 1);
    }
}

proof fn lemma_target_texts_are_kept(found: Seq<(int, Seq<char>)>, n: int, r: int)
    requires
        0 <= r < n <= found.len(),
        names_target(text::lower(text::trim(found[r].1, Class::Space))),
    ensures
        target_texts(found, n).contains(text::trim(found[r].1, Class::Space)),
    decreases n,
{
    let value = text::trim(found[r].1, Class::Space);
    let before = target_texts(found, n - 1);
    let all = target_texts(found, n);
    if r < n - 1 {
        lemma_target_texts_are_kept(found, n - 1, r);
    }
    if before.contains(value) {
        let w = choose|w: int| 0 <= w < before.len() && before[w] == value;
        assert(all[w] == value);
    } else {
        assert(all[all.len() - 1] == value);
    }
}

/// The texts about targets that can be read from two hundred and fifty-six bytes before a
/// record to three hundred and twenty behind its start are all told with it.
pub proof fn texts_around_a_record_are_told(
    data: Seq<u8>,
    byte_offset: int,
    bit_shift: int,
    window: Seq<u8>,
    r: int,
)
    requires
        0 <= byte_offset <= data.len(),
        0 <= bit_shift < 8,
        ({
            let start = if byte_offset < 256 {
                0
            } else {
                byte_offset - 256
            };
            let end = if data.len() < byte_offset + 320 {
                data.len() as int
            } else {
                byte_offset + 320
            };
            bits::bytes_at(data, 8 * start + bit_shift, end - start) == Some(window)
        }),
        0 <= r < runs::runs(window).len(),
    ensures
        ({
            let value = text::trim(runs::runs(window)[r].1, Class::Space);
            let l = text::lower(value);
            text::contains(l, "target"@) || text::contains(l, "boss"@) || text::contains(
                l,
                "enemy"@,
            ) || text::contains(l, "monster"@) || text::contains(l, "actor"@) || text::contains(
                l,
                "entity"@,
            ) || text::contains(l, "npc"@) || text::contains(l, "characterfornet"@)
                ==> target_metadata(data, byte_offset, bit_shift).2.contains(value)
        }),
{
    let found = runs::runs(window);
    if names_target(text::lower(text::trim(found[r].1, Class::Space))) {
        lemma_target_texts_are_kept(found, found.len() as int, r);
    }
}

proof fn lemma_some_metadata(values: Seq<Seq<char>>, keys: Seq<Seq<char>>, i: int, k: int, from: int)
    requires
        0 <= from <= i < values.len(),
        0 <= k < keys.len(),
        value_after(values[i], keys[k]) is Some,
    ensures
        first_metadata(values, keys, from) is Some,
    decreases i - from,
{
    if from == i {
        lemma_some_value(values[i], keys, k, 0);
    } else {
        lemma_some_metadata(values, keys, i, k, from + 1);
    }
}

proof fn lemma_some_value(value: Seq<char>, keys: Seq<Seq<char>>, k: int, from: int)
    requires
        0 <= from <= k < keys.len(),
        value_after(value, keys[k]) is Some,
    ensures
        metadata_value(value, keys, from) is Some,
    decreases k - from,
{
    if from < k {
        lemma_some_value(value, keys, k, from + 1);
    }
}

/// A target has an id, and a name, where a text gives one under one of their keys.
pub proof fn ids_and_names_have_their_keys(values: Seq<Seq<char>>, i: int)
    requires
        0 <= i < values.len(),
    ensures
        value_after(values[i], "targetid"@) is Some || value_after(values[i], "target_id"@) is Some
            || value_after(values[i], "entityid"@) is Some || value_after(
            values[i],
            "actorid"@,
        ) is Some ==> first_metadata(values, target_id_keys(), 0) is Some,
        value_after(values[i], "targetname"@) is Some || value_after(
            values[i],
            "target_name"@,
        ) is Some || value_after(values[i], "enemyname"@) is Some || value_after(
            values[i],
            "monstername"@,
        ) is Some || value_after(values[i], "bossname"@) is Some ==> first_metadata(
            values,
            target_name_keys(),
            0,
        ) is Some,
{
    let ids = target_id_keys();
    let names = target_name_keys();
    if value_after(values[i], "targetid"@) is Some {
        lemma_some_metadata(values, ids, i, 0, 0);
    }
    if value_after(values[i], "target_id"@) is Some {
        lemma_some_metadata(values, ids, i, 1, 0);
    }
    if value_after(values[i], "entityid"@) is Some {
        lemma_some_metadata(values, ids, i, 2, 0);
    }
    if value_after(values[i], "actorid"@) is Some {
        lemma_some_metadata(values, ids, i, 3, 0);
    }
    if value_after(values[i], "targetname"@) is Some {
        lemma_some_metadata(values, names, i, 0, 0);
    }
    if value_after(values[i], "target_name"@) is Some {
        lemma_some_metadata(values, names, i, 1, 0);
    }
    if value_after(values[i], "enemyname"@) is Some {
        lemma_some_metadata(values, names, i, 2, 0);
    }
    if value_after(values[i], "monstername"@) is Some {
        lemma_some_metadata(values, names, i, 3, 0);
    }
    if value_after(values[i], "bossname"@) is Some {
        lemma_some_metadata(values, names, i, 4, 0);
    }
}

/// From the bit position on stand the hit points of a target as the game's own structure
/// has them: forty bytes that are not all zero, then a number from one to a thousand
/// million, then zero; or, of a dead target, zero and then one.
pub open spec fn tells_sdk_target(data: Seq<u8>, pos: int) -> bool {
    &&& 0 <= pos && pos + 384 <= 8 * data.len()
    &&& exists|i: int| 0 <= i < 40 && #[trigger] bits::byte_at(data, pos + 8 * i) != 0
    &&& (word_at(data, pos + 352) == 0 && 0x3f80_0000 <= word_at(data, pos + 320) <= 0x4e6e_6b28)
        || (word_at(data, pos + 352) == 1 && word_at(data, pos + 320) == 0)
}

proof fn lemma_sdk_target_at(data: Seq<u8>, pos: int)
    requires
        0 <= pos,
        pos / 8 <= usize::MAX,
    ensures
        sdk_target_at(data, pos) is Some <==> tells_sdk_target(data, pos),
        sdk_target_at(data, pos) matches Some(u) ==> u.current_hp.bits == word_at(data, pos + 320)
            && u.dead_state == word_at(data, pos + 352) && u.target_token.len() == 40
            && u.byte_offset == pos / 8 && u.bit_shift == pos % 8 && forall|i: int|
            0 <= i < 40 ==> #[trigger] u.target_token[i] == bits::byte_at(data, pos + 8 * i),
{
    if pos + 384 <= 8 * data.len() {
        let d = bits::bytes_at(data, pos, 48).unwrap();
        lemma_word(data, pos, 48, 40);
        lemma_word(data, pos, 48, 44);
        if exists|i: int| 0 <= i < 40 && #[trigger] d[i] != 0 {
            let i = choose|i: int| 0 <= i < 40 && #[trigger] d[i] != 0;
            assert(bits::byte_at(data, pos + 8 * i) != 0);
        }
        if exists|i: int| 0 <= i < 40 && #[trigger] bits::byte_at(data, pos + 8 * i) != 0 {
            let i = choose|i: int| 0 <= i < 40 && #[trigger] bits::byte_at(data, pos + 8 * i) != 0;
            assert(d[i] != 0);
        }
    }
}

proof fn lemma_sdk_targets_from(data: Seq<u8>, n: int, pos: int)
    requires
        0 <= pos,
        0 <= n,
        n / 8 <= usize::MAX,
    ensures
        pos < n && sdk_target_at(data, pos) is Some ==> sdk_targets_up_to(data, n).contains(
            sdk_target_at(data, pos).unwrap(),
        ),
        forall|k: int|
            0 <= k < sdk_targets_up_to(data, n).len() && 8 * (#[trigger] sdk_targets_up_to(
                data,
                n,
            )[k]).byte_offset + sdk_targets_up_to(data, n)[k].bit_shift == pos ==> pos < n
                && sdk_target_at(data, pos) == Some(sdk_targets_up_to(data, n)[k]),
    decreases n,
{
    if n > 0 {
        lemma_sdk_targets_from(data, n - 1, pos);
        lemma_sdk_target_at(data, n - 1);
        let before = sdk_targets_up_to(data, n - 1);
        let all = sdk_targets_up_to(data, n);
        if pos < n && sdk_target_at(data, pos) is Some {
            let r = sdk_target_at(data, pos).unwrap();
            if pos < n - 1 {
                let w = choose|w: int| 0 <= w < before.len() && before[w] == r;
                assert(all[w] == r);
            } else {
                assert(all[all.len() - 1] == r);
            }
        }
        assert forall|k: int|
            0 <= k < all.len() && 8 * (#[trigger] all[k]).byte_offset + all[k].bit_shift
                == pos implies pos < n && sdk_target_at(data, pos) == Some(all[k]) by {
            if k < before.len() {
                assert(all[k] == before[k]);
            }
        }
    }
}

/// The hit points that the game's own structure tells of a target are found at every bit,
/// with whether it is dead, and nowhere else.
pub proof fn sdk_targets_are_found_at_every_bit(data: Seq<u8>, pos: int)
    requires
        data.len() <= usize::MAX,
        0 <= pos < 8 * data.len(),
    ensures
        tells_sdk_target(data, pos) <==> exists|k: int|
            0 <= k < sdk_targets_up_to(data, 8 * data.len() as int).len() && {
                let u = #[trigger] sdk_targets_up_to(data, 8 * data.len() as int)[k];
                &&& 8 * u.byte_offset + u.bit_shift == pos
                &&& u.bit_shift < 8
                &&& u.current_hp.bits == word_at(data, pos + 320)
                &&& u.dead_state == word_at(data, pos + 352)
                &&& u.target_token.len() == 40
            },
{
    let n = 8 * data.len() as int;
    let all = sdk_targets_up_to(data, n);
    lemma_sdk_target_at(data, pos);
    lemma_sdk_targets_from(data, n, pos);
    if tells_sdk_target(data, pos) {
        let r = sdk_target_at(data, pos).unwrap();
        let k = choose|k: int| 0 <= k < all.len() && all[k] == r;
        assert(8 * all[k].byte_offset + all[k].bit_shift == pos);
    }
}

/// A character is called by the Chinese name, by the English one without it, and by the
/// number where nothing is known.
pub proof fn characters_are_called_by_their_chinese_name(
    characters: Map<u32, CharacterInfo>,
    id: u32,
)
    ensures
        characters.contains_key(id) && characters[id].name_zh@.len() > 0 ==> character_label(
            characters,
            id,
        ) == characters[id].name_zh@,
        characters.contains_key(id) && characters[id].name_zh@.len() == 0 ==> character_label(
            characters,
            id,
        ) == characters[id].name_en@,
        !characters.contains_key(id) && id != 0 ==> text::contains(
            character_label(characters, id),
            text::dec(id as nat),
        ),
{
    if !characters.contains_key(id) && id != 0 {
        let head = "未知角色("@;
        let s = character_label(characters, id);
        let n = text::dec(id as nat);
        assert(s.subrange(head.len() as int, (head.len() + n.len()) as int) =~= n);
        assert(text::occurs_at(s, n, head.len() as int));
    }
}

} // verus!
