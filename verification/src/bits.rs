//! Reading bytes at arbitrary bit positions. Bits are counted from the least
//! significant bit of the first byte on.
use vstd::prelude::*;

verus! {

/// The bit at position `k`.
pub open spec fn bit_at(data: Seq<u8>, k: int) -> bool {
    (data[k / 8] >> ((k % 8) as u8)) & 1 == 1
}

/// The eight bits from position `pos` on, as a byte.
pub open spec fn byte_at(data: Seq<u8>, pos: int) -> u8 {
    let shift = (pos % 8) as u8;
    if shift == 0 {
        data[pos / 8]
    } else {
        (data[pos / 8] >> shift) | (data[pos / 8 + 1] << ((8 - shift) as u8))
    }
}

/// `count` bytes from bit position `pos` on, where the data reaches that far.
pub open spec fn bytes_at(data: Seq<u8>, pos: int, count: int) -> Option<Seq<u8>> {
    if 0 <= pos && 0 <= count && (count == 0 || pos + 8 * count <= 8 * data.len()) {
        Some(Seq::new(count as nat, |k: int| byte_at(data, pos + 8 * k)))
    } else {
        None
    }
}

/// The whole bytes that the data holds when it is read `shift` bits late.
pub open spec fn shifted(data: Seq<u8>, shift: int) -> Seq<u8> {
    if shift == 0 {
        data
    } else {
        Seq::new(
            if data.len() == 0 {
                0
            } else {
                (data.len() - 1) as nat
            },
            |k: int| byte_at(data, 8 * k + shift),
        )
    }
}

/// Bit `j` of the byte read at `pos` is bit `pos + j` of the data.
pub proof fn byte_holds_the_bits_from_its_position(data: Seq<u8>, pos: int, j: int)
    requires
        0 <= pos,
        pos + 8 <= 8 * data.len(),
        0 <= j < 8,
    ensures
        ((byte_at(data, pos) >> (j as u8)) & 1 == 1) == bit_at(data, pos + j),
{
    let s = (pos % 8) as u8;
    let low = data[pos / 8];
    let jj = j as u8;
    if s == 0 {
        assert((pos + j) / 8 == pos / 8);
        assert((pos + j) % 8 == j);
    } else {
        let high = data[pos / 8 + 1];
        if pos % 8 + j < 8 {
            assert((pos + j) / 8 == pos / 8);
            assert((pos + j) % 8 == pos % 8 + j);
            let t = (s + jj) as u8;
            assert((((low >> s) | (high << ((8 - s) as u8))) >> jj) & 1 == (low >> t) & 1)
                by (bit_vector)
                requires
                    0 < s,
                    s < 8,
                    jj < 8,
                    s + jj < 8,
                    t == s + jj,
            ;
        } else {
            assert((pos + j) / 8 == pos / 8 + 1);
            assert((pos + j) % 8 == pos % 8 + j - 8);
            let t = (s + jj - 8) as u8;
            assert((((low >> s) | (high << ((8 - s) as u8))) >> jj) & 1 == (high >> t) & 1)
                by (bit_vector)
                requires
                    0 < s,
                    s < 8,
                    jj < 8,
                    s + jj >= 8,
                    t == s + jj - 8,
            ;
        }
    }
}

/// What a shifted reading holds are the bytes read at the shifted positions.
pub proof fn shifted_reading_agrees_with_positions(data: Seq<u8>, shift: int)
    requires
        0 <= shift < 8,
        data.len() > 0,
    ensures
        bytes_at(data, shift, shifted(data, shift).len() as int) == Some(shifted(data, shift)),
{
    let n = shifted(data, shift).len() as int;
    assert(bytes_at(data, shift, n).unwrap() =~= shifted(data, shift));
}

/// The byte at a bit position.
pub fn read_byte(data: &[u8], pos: u128) -> (r: Option<u8>)
    requires
        pos + 8 <= u128::MAX,
    ensures
        r is Some <==> pos + 8 <= 8 * data@.len(),
        r matches Some(b) ==> b == byte_at(data@, pos as int),
{
    let len: u128 = data.len() as u128;
    if pos + 8 > 8 * len {
        return None;
    }
    let index: usize = (pos / 8) as usize;
    let shift: u8 = (pos % 8) as u8;
    let low: u8 = data[index];
    if shift == 0 {
        return Some(low);
    }
    Some((low >> shift) | (data[index + 1] << (8 - shift)))
}

/// `count` bytes, `start_bit_offset` bits behind the bit `bit_shift` of the byte
/// `byte_offset`.
pub fn decode_shifted_bytes(
    data: &[u8],
    byte_offset: usize,
    bit_shift: u8,
    start_bit_offset: usize,
    count: usize,
) -> (r: Option<Vec<u8>>)
    ensures
        match r {
            Some(v) => bytes_at(
                data@,
                8 * byte_offset + bit_shift + start_bit_offset,
                count as int,
            ) == Some(v@),
            None => bytes_at(
                data@,
                8 * byte_offset + bit_shift + start_bit_offset,
                count as int,
            ) is None,
        },
{
    let base: u128 = (byte_offset as u128) * 8 + (bit_shift as u128) + (start_bit_offset as u128);
    if count > 0 && base + (count as u128) * 8 > (data.len() as u128) * 8 {
        return None;
    }
    let mut out: Vec<u8> = Vec::new();
    let mut k: usize = 0;
    while k < count
        invariant
            k <= count,
            base == 8 * byte_offset + bit_shift + start_bit_offset,
            count > 0 ==> base + 8 * count <= 8 * data@.len(),
            out@.len() == k,
            forall|m: int| 0 <= m < k ==> out@[m] == byte_at(data@, base + 8 * m),
        decreases count - k,
    {
        match read_byte(data, base + (k as u128) * 8) {
            Some(b) => out.push(b),
            None => {
                return None;
            },
        }
        k += 1;
    }
    assert(out@ =~= bytes_at(data@, base as int, count as int).unwrap());
    Some(out)
}

/// The data read `bit_shift` bits late.
pub fn decode_shifted_payload(data: &[u8], bit_shift: u8) -> (out: Vec<u8>)
    requires
        bit_shift < 8,
    ensures
        out@ == shifted(data@, bit_shift as int),
{
    let mut out: Vec<u8> = Vec::new();
    let n: usize = if bit_shift == 0 {
        data.len()
    } else if data.len() == 0 {
        0
    } else {
        data.len() - 1
    };
    let mut k: usize = 0;
    while k < n
        invariant
            k <= n,
            bit_shift < 8,
            n == shifted(data@, bit_shift as int).len(),
            out@.len() == k,
            bit_shift == 0 ==> n == data@.len(),
            bit_shift != 0 && n > 0 ==> n == data@.len() - 1,
            forall|m: int| 0 <= m < k ==> out@[m] == shifted(data@, bit_shift as int)[m],
        decreases n - k,
    {
        let b: u8 = if bit_shift == 0 {
            data[k]
        } else {
            (data[k] >> bit_shift) | (data[k + 1] << (8 - bit_shift))
        };
        proof {
            assert((8 * k + bit_shift) / 8 == k as int);
            assert((8 * k + bit_shift) % 8 == bit_shift as int);
        }
        out.push(b);
        k += 1;
    }
    assert(out@ =~= shifted(data@, bit_shift as int));
    out
}

/// The number that four bytes write, the least significant one first.
pub open spec fn le32(b: Seq<u8>, at: int) -> u32 {
    (b[at] + 0x100 * b[at + 1] + 0x1_0000 * b[at + 2] + 0x100_0000 * b[at + 3]) as u32
}

/// The number that eight bytes write, the least significant one first.
pub open spec fn le64(b: Seq<u8>, at: int) -> u64 {
    (le32(b, at) + 0x1_0000_0000 * le32(b, at + 4)) as u64
}

pub fn read_le32(b: &Vec<u8>, at: usize) -> (r: u32)
    requires
        at + 4 <= b.len(),
    ensures
        r == le32(b@, at as int),
{
    (b[at] as u32) + 0x100 * (b[at + 1] as u32) + 0x1_0000 * (b[at + 2] as u32) + 0x100_0000 * (
    b[at + 3] as u32)
}

pub fn read_le64(b: &Vec<u8>, at: usize) -> (r: u64)
    requires
        at + 8 <= b.len(),
    ensures
        r == le64(b@, at as int),
{
    (read_le32(b, at) as u64) + 0x1_0000_0000 * (read_le32(b, at + 4) as u64)
}

/// A path that was found in a payload: where, and how much it looks like one.
#[derive(Clone, Debug)]
pub struct PathCandidate {
    pub value: String,
    pub byte_offset: usize,
    pub bit_shift: u8,
    pub score: u16,
}

/// Read late by some bits, data loses its last byte, unless it is read in time; the
/// bytes that are left hold the bits from there on.
pub proof fn late_readings_lose_a_byte(data: Seq<u8>, shift: int, k: int)
    requires
        0 <= shift < 8,
        data.len() > 0,
    ensures
        shift == 0 ==> shifted(data, shift) == data,
        shift > 0 ==> shifted(data, shift).len() == data.len() - 1,
        0 <= k < shifted(data, shift).len() ==> forall|j: int|
            0 <= j < 8 ==> ((shifted(data, shift)[k] >> (j as u8)) & 1 == 1) == #[trigger] bit_at(
                data,
                8 * k + shift + j,
            ),
{
    if 0 <= k < shifted(data, shift).len() {
        assert forall|j: int| 0 <= j < 8 implies ((shifted(data, shift)[k] >> (j as u8)) & 1 == 1)
            == #[trigger] bit_at(data, 8 * k + shift + j) by {
            assert(byte_at(data, 8 * k + shift) == shifted(data, shift)[k]) by {
                if shift == 0 {
                    assert((8 * k) % 8 == 0 && (8 * k) / 8 == k);
                }
            }
            byte_holds_the_bits_from_its_position(data, 8 * k + shift, j);
        }
    }
}

/// Bytes can be read wherever they end within the data, and nowhere else.
pub proof fn readings_end_within_the_data(data: Seq<u8>, pos: int, count: int)
    requires
        0 <= pos,
        0 < count,
    ensures
        bytes_at(data, pos, count) is Some <==> pos + 8 * count <= 8 * data.len(),
        bytes_at(data, pos, count) matches Some(b) ==> b.len() == count && forall|k: int|
            0 <= k < count ==> #[trigger] b[k] == byte_at(data, pos + 8 * k),
{
}

/// Four bytes, the least significant one first, are read as the number that they are
/// the digits of, and eight bytes as two such numbers.
pub proof fn numbers_are_read_by_their_digits(b: Seq<u8>, at: int, n: u32)
    requires
        b[at] == n % 0x100,
        b[at + 1] == n / 0x100 % 0x100,
        b[at + 2] == n / 0x1_0000 % 0x100,
        b[at + 3] == n / 0x100_0000,
    ensures
        le32(b, at) == n,
        le64(b, at) == n + 0x1_0000_0000 * le32(b, at + 4),
{
}

} // verus!
