//! Object identities that stand before a path in a payload.
use vstd::prelude::*;
use vstd::slice::slice_subrange;

use crate::bits;
use crate::bits::PathCandidate;
use crate::hexadecimal;
use crate::object_state;
use crate::sorting;
use crate::text;

verus! {

pub const ANCHOR_WINDOW_BEFORE: usize = 24;

pub const MIN_CANDIDATE_SCORE: u16 = 40;

pub const MAX_CANDIDATES_PER_PATH: usize = 4;

pub const MAX_TOTAL_CANDIDATES: usize = 24;

/// Only so many paths are looked at.
pub const MAX_IDENTITY_PATHS: usize = 8;

/// The forms in which an identity is written.
#[derive(Clone, Copy, Debug, PartialEq, Eq, Hash, Structural)]
pub enum NetIdentityCandidateKind {
    NetGuidPacked,
    NetGuid32,
    IrisNetRefHandle32,
}

impl NetIdentityCandidateKind {
    pub open spec fn label_text(self) -> Seq<char> {
        match self {
            NetIdentityCandidateKind::NetGuidPacked => "netguid_packed"@,
            NetIdentityCandidateKind::NetGuid32 => "netguid32"@,
            NetIdentityCandidateKind::IrisNetRefHandle32 => "iris_ref32"@,
        }
    }

    pub fn label(self) -> (r: &'static str)
        ensures
            r@ == self.label_text(),
    {
        match self {
            NetIdentityCandidateKind::NetGuidPacked => "netguid_packed",
            NetIdentityCandidateKind::NetGuid32 => "netguid32",
            NetIdentityCandidateKind::IrisNetRefHandle32 => "iris_ref32",
        }
    }
}

/// What may be the identity of the object that a path names.
#[derive(Clone, Debug)]
pub struct NetIdentityCandidate {
    pub kind: NetIdentityCandidateKind,
    pub handle: String,
    pub path: String,
    pub byte_offset: usize,
    pub bit_shift: u8,
    pub relative_offset: isize,
    pub raw_hex: String,
    pub score: u16,
}

#[verifier::ext_equal]
pub struct IdentityView {
    pub kind: NetIdentityCandidateKind,
    pub handle: Seq<char>,
    pub path: Seq<char>,
    pub byte_offset: usize,
    pub bit_shift: u8,
    pub relative_offset: int,
    pub raw_hex: Seq<char>,
    pub score: u16,
}

impl View for NetIdentityCandidate {
    type V = IdentityView;

    open spec fn view(&self) -> IdentityView {
        IdentityView {
            kind: self.kind,
            handle: self.handle@,
            path: self.path@,
            byte_offset: self.byte_offset,
            bit_shift: self.bit_shift,
            relative_offset: self.relative_offset as int,
            raw_hex: self.raw_hex@,
            score: self.score,
        }
    }
}

pub open spec fn identity_views(v: Seq<NetIdentityCandidate>) -> Seq<IdentityView> {
    v.map_values(|c: NetIdentityCandidate| c@)
}

// ---------------------------------------------------------------- where a path is

/// The path's bytes stand in the data at the offset.
pub open spec fn stands_at(data: Seq<u8>, path: Seq<char>, offset: int) -> bool {
    let bytes = vstd::utf8::encode_utf8(path);
    0 <= offset && offset + bytes.len() <= data.len() && data.subrange(
        offset,
        offset + bytes.len(),
    ) == bytes
}

/// The first offset from `from` to `to` at which the path stands.
pub open spec fn first_standing(data: Seq<u8>, path: Seq<char>, from: int, to: int) -> Option<int>
    decreases to - from + 1,
{
    if from > to {
        None
    } else if stands_at(data, path, from) {
        Some(from)
    } else {
        first_standing(data, path, from + 1, to)
    }
}

/// Where the path stands: at its offset, or up to four bytes from it; its offset
/// where it stands at none of these.
pub open spec fn anchor_of(data: Seq<u8>, path: Seq<char>, offset: int) -> int {
    if stands_at(data, path, offset) {
        offset
    } else {
        let from = if offset < 4 {
            0
        } else {
            offset - 4
        };
        match first_standing(data, path, from, offset + 4) {
            Some(at) => at,
            None => offset,
        }
    }
}

fn is_standing(data: &Vec<u8>, bytes: &[u8], offset: usize) -> (r: bool)
    ensures
        r == (offset + bytes@.len() <= data@.len() && data@.subrange(
            offset as int,
            offset + bytes@.len(),
        ) == bytes@),
{
    if bytes.len() > data.len() || offset > data.len() - bytes.len() {
        return false;
    }
    let size: usize = data.len();
    let mut i: usize = 0;
    while i < bytes.len()
        invariant
            i <= bytes@.len(),
            size == data@.len(),
            offset + bytes@.len() <= size,
            forall|k: int| 0 <= k < i ==> data@[offset + k] == bytes@[k],
        decreases bytes.len() - i,
    {
        if data[offset + i] != bytes[i] {
            assert(data@.subrange(offset as int, offset + bytes@.len())[i as int] != bytes@[i as int]);
            return false;
        }
        i += 1;
    }
    assert(data@.subrange(offset as int, offset + bytes@.len()) =~= bytes@);
    true
}

fn adjusted_anchor_offset(data: &Vec<u8>, path: &PathCandidate) -> (r: usize)
    requires
        path.byte_offset < data.len(),
    ensures
        r == anchor_of(data@, path.value@, path.byte_offset as int),
        r <= data.len(),
{
    let bytes: &[u8] = path.value.as_str().as_bytes();
    if is_standing(data, bytes, path.byte_offset) {
        return path.byte_offset;
    }
    let from: usize = if path.byte_offset < 4 { 0 } else { path.byte_offset - 4 };
    let ghost last: int = path.byte_offset + 4;
    let mut offset: usize = from;
    while offset <= data.len() && (offset <= path.byte_offset || offset - path.byte_offset <= 4)
        invariant
            from <= offset <= data.len() + 1,
            offset <= last + 1,
            last == path.byte_offset + 4,
            path.byte_offset < data.len(),
            from == if path.byte_offset < 4 {
                0
            } else {
                path.byte_offset - 4
            },
            !stands_at(data@, path.value@, path.byte_offset as int),
            bytes@ == vstd::utf8::encode_utf8(path.value@),
            first_standing(data@, path.value@, from as int, last) == first_standing(
                data@,
                path.value@,
                offset as int,
                last,
            ),
        ensures
            offset <= last ==> offset > data.len(),
            first_standing(data@, path.value@, from as int, last) == first_standing(
                data@,
                path.value@,
                offset as int,
                last,
            ),
        decreases data.len() + 1 - offset,
    {
        if is_standing(data, bytes, offset) {
            return offset;
        }
        if offset == data.len() {
            proof {
                lemma_nothing_stands_beyond(data@, path.value@, offset + 1, last);
                lemma_nothing_stands_beyond(data@, path.value@, offset as int, last);
            }
            return path.byte_offset;
        }
        offset += 1;
    }
    proof {
        if offset <= last {
            lemma_nothing_stands_beyond(data@, path.value@, offset as int, last);
        }
    }
    path.byte_offset
}

proof fn lemma_nothing_stands_beyond(data: Seq<u8>, path: Seq<char>, from: int, to: int)
    requires
        from >= data.len(),
        from == data.len() ==> !stands_at(data, path, from),
    ensures
        first_standing(data, path, from, to) is None,
    decreases to - from + 1,
{
    if from <= to {
        lemma_nothing_stands_beyond(data, path, from + 1, to);
    }
}

// -------------------------------------------------------------------- the numbers

/// A byte that is printable ASCII text.
pub open spec fn plain_byte(b: u8) -> bool {
    32 <= b <= 126
}

/// All the bytes are printable ASCII text.
pub open spec fn plain_bytes(raw: Seq<u8>) -> bool {
    forall|i: int| 0 <= i < raw.len() ==> plain_byte(#[trigger] raw[i])
}

/// The number of bytes of the path, as far as 32 bits hold it.
pub open spec fn length_word(path: Seq<char>, terminator: int) -> int {
    (vstd::utf8::encode_utf8(path).len() + terminator) % 0x1_0000_0000
}

/// The number is the path's length, with or without a terminator.
pub open spec fn is_path_length(value: u32, path: Seq<char>) -> bool {
    value == length_word(path, 0) || value == length_word(path, 1)
}

/// A word that may be an identity.
pub open spec fn plausible_word(value: u32, raw: Seq<u8>, path: Seq<char>) -> bool {
    &&& 0x80 <= value < u32::MAX
    &&& !is_path_length(value, path)
    &&& !(raw[0] == 0 && raw[1] == 0 && raw[2] == 0)
    &&& !plain_bytes(raw)
}

/// A packed number that may be an identity.
pub open spec fn plausible_packed(value: u32, raw: Seq<u8>, path: Seq<char>) -> bool {
    0x80 <= value < u32::MAX && !is_path_length(value, path) && !plain_bytes(raw)
}

/// How many bytes a packed number at `at` takes: at most five, of which only the
/// last one is without its top bit.
pub open spec fn packed_width(data: Seq<u8>, at: int, k: int) -> Option<int>
    decreases 5 - k,
{
    if k >= 5 || at + k >= data.len() {
        None
    } else if data[at + k] < 0x80 {
        Some(k + 1)
    } else {
        packed_width(data, at, k + 1)
    }
}

/// The seven bits of byte `i` of a packed number.
pub open spec fn packed_group(raw: Seq<u8>, i: int) -> int {
    if i < raw.len() {
        raw[i] as int % 0x80
    } else {
        0
    }
}

/// The packed number that the bytes write, the lowest seven bits first, as far as
/// 32 bits hold it.
pub open spec fn packed_value(raw: Seq<u8>) -> u32 {
    ((packed_group(raw, 0) + 0x80 * packed_group(raw, 1) + 0x4000 * packed_group(raw, 2)
        + 0x20_0000 * packed_group(raw, 3) + 0x1000_0000 * packed_group(raw, 4))
        % 0x1_0000_0000) as u32
}

/// How a packed number is rated: long ones and near ones higher.
pub open spec fn packed_rating(distance: int, width: int) -> int {
    let near = if distance < 18 {
        distance
    } else {
        18
    };
    (if width > 1 {
        46int
    } else {
        28int
    }) - near
}

fn all_plain(raw: &[u8]) -> (r: bool)
    ensures
        r == plain_bytes(raw@),
{
    let mut i: usize = 0;
    while i < raw.len()
        invariant
            i <= raw@.len(),
            forall|k: int| 0 <= k < i ==> plain_byte(#[trigger] raw@[k]),
        decreases raw.len() - i,
    {
        if !(32 <= raw[i] && raw[i] <= 126) {
            assert(!plain_byte(raw@[i as int]));
            return false;
        }
        i += 1;
    }
    true
}

fn names_length(value: u32, path: &str) -> (r: bool)
    ensures
        r == is_path_length(value, path@),
{
    let n: u128 = path.as_bytes().len() as u128;
    value as u128 == n % 0x1_0000_0000 || value as u128 == (n + 1) % 0x1_0000_0000
}

fn plausible_u32_value(value: u32, raw: &[u8], path: &str) -> (r: bool)
    requires
        raw@.len() == 4,
    ensures
        r == plausible_word(value, raw@, path@),
{
    if value < 0x80 || value == u32::MAX {
        return false;
    }
    if names_length(value, path) {
        return false;
    }
    if raw[0] == 0 && raw[1] == 0 && raw[2] == 0 {
        return false;
    }
    !all_plain(raw)
}

fn plausible_packed_value(value: u32, raw: &[u8], path: &str) -> (r: bool)
    ensures
        r == plausible_packed(value, raw@, path@),
{
    0x80 <= value && value < u32::MAX && !names_length(value, path) && !all_plain(raw)
}

fn group_at(raw: &[u8], i: usize) -> (r: u64)
    ensures
        r == packed_group(raw@, i as int),
        r < 0x80,
{
    if i < raw.len() {
        (raw[i] % 0x80) as u64
    } else {
        0
    }
}

fn read_packed_width(data: &Vec<u8>, offset: usize) -> (r: Option<usize>)
    requires
        offset < data.len(),
    ensures
        match r {
            Some(w) => packed_width(data@, offset as int, 0) == Some(w as int) && 1 <= w <= 5
                && offset + w <= data.len(),
            None => packed_width(data@, offset as int, 0) is None,
        },
{
    let mut k: usize = 0;
    while k < 5 && k < data.len() - offset
        invariant
            k <= 5,
            offset < data.len(),
            k <= data.len() - offset,
            packed_width(data@, offset as int, 0) == packed_width(data@, offset as int, k as int),
        decreases 5 - k,
    {
        if data[offset + k] < 0x80 {
            return Some(k + 1);
        }
        k += 1;
    }
    None
}

fn packed_number(raw: &[u8]) -> (r: u32)
    ensures
        r == packed_value(raw@),
{
    let sum: u64 = group_at(raw, 0) + 0x80 * group_at(raw, 1) + 0x4000 * group_at(raw, 2) + 0x20_0000
        * group_at(raw, 3) + 0x1000_0000 * group_at(raw, 4);
    (sum % 0x1_0000_0000) as u32
}

// ----------------------------------------------------------------- the candidates

/// The candidates with one more, unless one of its kind, handle and distance is
/// there.
pub open spec fn with_candidate(list: Seq<IdentityView>, c: IdentityView) -> Seq<IdentityView> {
    if exists|k: int| 0 <= k < list.len() && same_sighting(#[trigger] list[k], c) {
        list
    } else {
        list.push(c)
    }
}

pub open spec fn same_sighting(a: IdentityView, b: IdentityView) -> bool {
    a.kind == b.kind && a.handle == b.handle && a.relative_offset == b.relative_offset
}

/// The candidate that the bytes from `at` on make.
pub open spec fn candidate_of(
    kind: NetIdentityCandidateKind,
    handle: Seq<char>,
    path: PathCandidate,
    at: int,
    anchor: int,
    raw: Seq<u8>,
    score: u16,
) -> IdentityView {
    IdentityView {
        kind,
        handle,
        path: path.value@,
        byte_offset: at as usize,
        bit_shift: path.bit_shift,
        relative_offset: at - anchor,
        raw_hex: hexadecimal::hex_text(raw),
        score,
    }
}

/// The candidates with the word at `at`, where it may be an identity.
pub open spec fn with_word(
    list: Seq<IdentityView>,
    data: Seq<u8>,
    path: PathCandidate,
    kind: NetIdentityCandidateKind,
    at: int,
    anchor: int,
    score: u16,
) -> Seq<IdentityView> {
    let raw = data.subrange(at, at + 4);
    let value = bits::le32(data, at);
    if 0 <= at && at + 4 <= data.len() && plausible_word(value, raw, path.value@) {
        with_candidate(
            list,
            candidate_of(
                kind,
                "0x"@ + text::zero_pad(text::hex(value as nat), 8),
                path,
                at,
                anchor,
                raw,
                score,
            ),
        )
    } else {
        list
    }
}

/// The candidates with the packed number at `at`, where it ends before `end` and
/// may be an identity.
pub open spec fn with_packed(
    list: Seq<IdentityView>,
    data: Seq<u8>,
    path: PathCandidate,
    at: int,
    anchor: int,
    end: int,
) -> Seq<IdentityView> {
    match packed_width(data, at, 0) {
        Some(width) => {
            let raw = data.subrange(at, at + width);
            let value = packed_value(raw);
            if at + width <= end && plausible_packed(value, raw, path.value@) {
                with_candidate(
                    list,
                    candidate_of(
                        NetIdentityCandidateKind::NetGuidPacked,
                        "0x"@ + text::hex(value as nat),
                        path,
                        at,
                        anchor,
                        raw,
                        packed_rating(anchor - at, width) as u16,
                    ),
                )
            } else {
                list
            }
        },
        None => list,
    }
}

/// Before the path stands its length.
pub open spec fn length_prefixed(data: Seq<u8>, path: Seq<char>, anchor: int) -> bool {
    &&& 4 <= anchor <= data.len()
    &&& (bits::le32(data, anchor - 4) == vstd::utf8::encode_utf8(path).len() || bits::le32(
        data,
        anchor - 4,
    ) == vstd::utf8::encode_utf8(path).len() + 1)
}

/// The words before the length of a path that stands behind its length.
pub open spec fn words_before_length(data: Seq<u8>, path: PathCandidate, anchor: int) -> Seq<
    IdentityView,
> {
    if length_prefixed(data, path.value@, anchor) {
        let first = with_word(
            Seq::empty(),
            data,
            path,
            NetIdentityCandidateKind::NetGuid32,
            anchor - 8,
            anchor,
            82,
        );
        let second = with_word(
            first,
            data,
            path,
            NetIdentityCandidateKind::IrisNetRefHandle32,
            anchor - 12,
            anchor,
            72,
        );
        with_word(
            second,
            data,
            path,
            NetIdentityCandidateKind::IrisNetRefHandle32,
            anchor - 16,
            anchor,
            66,
        )
    } else {
        Seq::empty()
    }
}

/// Where identities end: before the path's length, or before the path.
pub open spec fn scan_end(data: Seq<u8>, path: Seq<char>, anchor: int) -> int {
    if length_prefixed(data, path, anchor) {
        anchor - 4
    } else {
        anchor
    }
}

/// Where the window before the path starts.
pub open spec fn window_start(anchor: int) -> int {
    if anchor < ANCHOR_WINDOW_BEFORE {
        0
    } else {
        anchor - ANCHOR_WINDOW_BEFORE
    }
}

/// The candidates with those that start at `at`.
pub open spec fn with_both(
    list: Seq<IdentityView>,
    data: Seq<u8>,
    path: PathCandidate,
    at: int,
    anchor: int,
    end: int,
) -> Seq<IdentityView> {
    let words = if at + 4 <= end {
        with_word(
            list,
            data,
            path,
            NetIdentityCandidateKind::IrisNetRefHandle32,
            at,
            anchor,
            38,
        )
    } else {
        list
    };
    with_packed(words, data, path, at, anchor, end)
}

/// The candidates with those that start in the window before position `n`.
pub open spec fn with_window(
    list: Seq<IdentityView>,
    data: Seq<u8>,
    path: PathCandidate,
    anchor: int,
    end: int,
    n: int,
) -> Seq<IdentityView>
    decreases n - window_start(anchor),
{
    if n <= window_start(anchor) {
        list
    } else {
        with_both(
            with_window(list, data, path, anchor, end, n - 1),
            data,
            path,
            n - 1,
            anchor,
            end,
        )
    }
}

/// All candidates of a path.
pub open spec fn sightings_of(data: Seq<u8>, path: PathCandidate) -> Seq<IdentityView> {
    let anchor = anchor_of(data, path.value@, path.byte_offset as int);
    let end = scan_end(data, path.value@, anchor);
    with_window(words_before_length(data, path, anchor), data, path, anchor, end, end)
}

fn push_candidate(candidates: &mut Vec<NetIdentityCandidate>, candidate: NetIdentityCandidate)
    ensures
        identity_views(final(candidates)@) == with_candidate(
            identity_views(old(candidates)@),
            candidate@,
        ),
{
    let ghost before = identity_views(candidates@);
    let mut i: usize = 0;
    while i < candidates.len()
        invariant
            i <= candidates.len(),
            candidates@ == old(candidates)@,
            before == identity_views(candidates@),
            forall|k: int| 0 <= k < i ==> !same_sighting(#[trigger] before[k], candidate@),
        decreases candidates.len() - i,
    {
        if candidates[i].kind == candidate.kind && candidates[i].relative_offset
            == candidate.relative_offset && text::same_str(
            candidates[i].handle.as_str(),
            candidate.handle.as_str(),
        ) {
            assert(same_sighting(before[i as int], candidate@));
            return;
        }
        assert(before[i as int] == candidates@[i as int]@);
        i += 1;
    }
    candidates.push(candidate);
    assert(identity_views(candidates@) =~= before.push(candidate@));
}

fn candidate_at(
    kind: NetIdentityCandidateKind,
    handle: String,
    path: &PathCandidate,
    at: usize,
    anchor: usize,
    raw: &[u8],
    score: u16,
) -> (r: NetIdentityCandidate)
    requires
        at <= anchor <= at + ANCHOR_WINDOW_BEFORE,
    ensures
        r@ == candidate_of(kind, handle@, *path, at as int, anchor as int, raw@, score),
{
    let back: usize = anchor - at;
    let r = NetIdentityCandidate {
        kind,
        handle,
        path: path.value.as_str().to_owned(),
        byte_offset: at,
        bit_shift: path.bit_shift,
        relative_offset: 0isize - back as isize,
        raw_hex: hexadecimal::encode(raw),
        score,
    };
    assert(r@ =~= candidate_of(kind, handle@, *path, at as int, anchor as int, raw@, score));
    r
}

fn push_u32_candidate(
    data: &Vec<u8>,
    path: &PathCandidate,
    candidates: &mut Vec<NetIdentityCandidate>,
    kind: NetIdentityCandidateKind,
    at: usize,
    anchor: usize,
    score: u16,
)
    requires
        at <= anchor <= at + ANCHOR_WINDOW_BEFORE,
    ensures
        identity_views(final(candidates)@) == with_word(
            identity_views(old(candidates)@),
            data@,
            *path,
            kind,
            at as int,
            anchor as int,
            score,
        ),
{
    if data.len() < 4 || at > data.len() - 4 {
        return;
    }
    let raw = slice_subrange(data.as_slice(), at, at + 4);
    let value = bits::read_le32(data, at);
    if !plausible_u32_value(value, raw, path.value.as_str()) {
        return;
    }
    let handle = text::concat2(
        "0x",
        text::zero_padded(text::hex_string(value as u64).as_str(), 8).as_str(),
    );
    let candidate = candidate_at(kind, handle, path, at, anchor, raw, score);
    push_candidate(candidates, candidate);
}

fn has_length_prefix(data: &Vec<u8>, path: &PathCandidate, anchor: usize) -> (r: bool)
    requires
        anchor <= data.len(),
    ensures
        r == length_prefixed(data@, path.value@, anchor as int),
{
    if anchor < 4 {
        return false;
    }
    let length: u128 = bits::read_le32(data, anchor - 4) as u128;
    let n: u128 = path.value.as_str().as_bytes().len() as u128;
    length == n || length == n + 1
}

fn collect_length_prefixed_candidates(
    data: &Vec<u8>,
    path: &PathCandidate,
    anchor: usize,
) -> (out: Vec<NetIdentityCandidate>)
    requires
        anchor <= data.len(),
    ensures
        identity_views(out@) == words_before_length(data@, *path, anchor as int),
{
    let mut out: Vec<NetIdentityCandidate> = Vec::new();
    assert(identity_views(out@) =~= Seq::empty());
    if !has_length_prefix(data, path, anchor) {
        return out;
    }
    if anchor >= 8 {
        push_u32_candidate(
            data,
            path,
            &mut out,
            NetIdentityCandidateKind::NetGuid32,
            anchor - 8,
            anchor,
            82,
        );
    }
    if anchor >= 12 {
        push_u32_candidate(
            data,
            path,
            &mut out,
            NetIdentityCandidateKind::IrisNetRefHandle32,
            anchor - 12,
            anchor,
            72,
        );
    }
    if anchor >= 16 {
        push_u32_candidate(
            data,
            path,
            &mut out,
            NetIdentityCandidateKind::IrisNetRefHandle32,
            anchor - 16,
            anchor,
            66,
        );
    }
    out
}

fn packed_score(distance: usize, width: usize) -> (r: u16)
    ensures
        r == packed_rating(distance as int, width as int),
{
    let near: u16 = if distance < 18 { distance as u16 } else { 18 };
    if width > 1 {
        46 - near
    } else {
        28 - near
    }
}

fn push_packed_candidate(
    data: &Vec<u8>,
    path: &PathCandidate,
    candidates: &mut Vec<NetIdentityCandidate>,
    at: usize,
    anchor: usize,
    end: usize,
)
    requires
        at <= anchor <= at + ANCHOR_WINDOW_BEFORE,
        at < end <= data.len(),
    ensures
        identity_views(final(candidates)@) == with_packed(
            identity_views(old(candidates)@),
            data@,
            *path,
            at as int,
            anchor as int,
            end as int,
        ),
{
    match read_packed_width(data, at) {
        Some(width) => {
            if width > end - at {
                return;
            }
            let raw = slice_subrange(data.as_slice(), at, at + width);
            let value = packed_number(raw);
            if !plausible_packed_value(value, raw, path.value.as_str()) {
                return;
            }
            let handle = text::concat2("0x", text::hex_string(value as u64).as_str());
            let candidate = candidate_at(
                NetIdentityCandidateKind::NetGuidPacked,
                handle,
                path,
                at,
                anchor,
                raw,
                packed_score(anchor - at, width),
            );
            push_candidate(candidates, candidate);
        },
        None => {},
    }
}

fn collect_candidates(data: &Vec<u8>, path: &PathCandidate) -> (out: Vec<NetIdentityCandidate>)
    requires
        path.byte_offset < data.len(),
    ensures
        identity_views(out@) == sightings_of(data@, *path),
{
    let anchor = adjusted_anchor_offset(data, path);
    let mut out = collect_length_prefixed_candidates(data, path, anchor);
    let ghost words = identity_views(out@);
    let end: usize = if has_length_prefix(data, path, anchor) { anchor - 4 } else { anchor };
    let start: usize = if anchor < ANCHOR_WINDOW_BEFORE { 0 } else { anchor - ANCHOR_WINDOW_BEFORE };
    let mut at: usize = start;
    while at < end
        invariant
            start <= at,
            start <= end ==> at <= end,
            start == window_start(anchor as int),
            end <= anchor <= data.len(),
            end == scan_end(data@, path.value@, anchor as int),
            identity_views(out@) == with_window(
                words,
                data@,
                *path,
                anchor as int,
                end as int,
                at as int,
            ),
        decreases end - at,
    {
        if end - at >= 4 {
            push_u32_candidate(
                data,
                path,
                &mut out,
                NetIdentityCandidateKind::IrisNetRefHandle32,
                at,
                anchor,
                38,
            );
        }
        push_packed_candidate(data, path, &mut out, at, anchor, end);
        at += 1;
    }
    out
}

// ------------------------------------------------------------------ the best ones

/// The order of the candidates of one path: the higher score first, and then the
/// nearer one.
pub open spec fn path_key(c: IdentityView) -> u128 {
    ((u16::MAX - c.score) * 0x1_0000_0000_0000_0000_0000_0000 - c.relative_offset
        * 0x1_0000_0000_0000_0000 + c.byte_offset) as u128
}

/// The order of all candidates: the higher score first, and then by position.
pub open spec fn total_key(c: IdentityView) -> u128 {
    ((u16::MAX - c.score) * 0x1_0000_0000_0000_0000_0000_0000 + c.bit_shift
        * 0x1_0000_0000_0000_0000 + c.byte_offset) as u128
}

/// The candidates of a path with a high enough score, up to the `n`-th.
pub open spec fn strong_ones(list: Seq<IdentityView>, n: int) -> Seq<(u128, IdentityView)>
    decreases n,
{
    if n <= 0 {
        Seq::empty()
    } else if list[n - 1].score >= MIN_CANDIDATE_SCORE {
        strong_ones(list, n - 1).push((path_key(list[n - 1]), list[n - 1]))
    } else {
        strong_ones(list, n - 1)
    }
}

/// The best candidates of one path.
pub open spec fn best_of_path(data: Seq<u8>, path: PathCandidate) -> Seq<IdentityView> {
    let found = sightings_of(data, path);
    sorting::best(strong_ones(found, found.len() as int), MAX_CANDIDATES_PER_PATH as int)
}

/// The path may name a target.
pub open spec fn eligible(path: PathCandidate) -> bool {
    !object_state::ignored_path(path.value@) && object_state::targetish_path(path.value@)
}

/// How many of the first `n` paths may name a target.
pub open spec fn eligible_count(paths: Seq<PathCandidate>, n: int) -> int
    decreases n,
{
    if n <= 0 {
        0
    } else {
        eligible_count(paths, n - 1) + if eligible(paths[n - 1]) {
            1int
        } else {
            0
        }
    }
}

/// Two candidates are the same identity of the same path at the same place.
pub open spec fn same_identity(a: IdentityView, b: IdentityView) -> bool {
    &&& a.kind == b.kind
    &&& a.handle == b.handle
    &&& a.path == b.path
    &&& a.bit_shift == b.bit_shift
    &&& a.byte_offset == b.byte_offset
}

/// The list with those of the first `n` candidates that are not in it.
pub open spec fn with_new(list: Seq<IdentityView>, more: Seq<IdentityView>, n: int) -> Seq<
    IdentityView,
>
    decreases n,
{
    if n <= 0 {
        list
    } else {
        let before = with_new(list, more, n - 1);
        if exists|k: int| 0 <= k < before.len() && same_identity(#[trigger] before[k], more[n - 1]) {
            before
        } else {
            before.push(more[n - 1])
        }
    }
}

/// The data as it is read for a path, where it can be.
pub open spec fn reading(data: Seq<u8>, bit_shift: u8) -> Option<Seq<u8>> {
    bits::bytes_at(
        data,
        bit_shift as int,
        if bit_shift == 0 || data.len() == 0 {
            data.len() as int
        } else {
            data.len() - 1
        },
    )
}

/// The candidates of the first `n` paths.
pub open spec fn gathered(data: Seq<u8>, paths: Seq<PathCandidate>, n: int) -> Seq<IdentityView>
    decreases n,
{
    if n <= 0 {
        Seq::empty()
    } else {
        let before = gathered(data, paths, n - 1);
        let path = paths[n - 1];
        if eligible(path) && eligible_count(paths, n - 1) < MAX_IDENTITY_PATHS {
            match reading(data, path.bit_shift) {
                Some(shifted) => if path.byte_offset < shifted.len() {
                    let found = best_of_path(shifted, path);
                    with_new(before, found, found.len() as int)
                } else {
                    before
                },
                None => before,
            }
        } else {
            before
        }
    }
}

/// The candidates with their keys.
pub open spec fn keyed(list: Seq<IdentityView>) -> Seq<(u128, IdentityView)> {
    list.map_values(|c: IdentityView| (total_key(c), c))
}

/// The best identity candidates of the paths.
pub open spec fn identities(data: Seq<u8>, paths: Seq<PathCandidate>) -> Seq<IdentityView> {
    sorting::best(
        keyed(gathered(data, paths, paths.len() as int)),
        MAX_TOTAL_CANDIDATES as int,
    )
}

/// The distance from its path that every candidate has.
pub open spec fn near_path(c: IdentityView) -> bool {
    -(ANCHOR_WINDOW_BEFORE as int) <= c.relative_offset < 0
}

pub open spec fn all_near(list: Seq<IdentityView>) -> bool {
    forall|k: int| 0 <= k < list.len() ==> near_path(#[trigger] list[k])
}

proof fn lemma_window_near(
    list: Seq<IdentityView>,
    data: Seq<u8>,
    path: PathCandidate,
    anchor: int,
    end: int,
    n: int,
)
    requires
        all_near(list),
        n <= end <= anchor,
    ensures
        all_near(with_window(list, data, path, anchor, end, n)),
    decreases n - window_start(anchor),
{
    if n > window_start(anchor) {
        lemma_window_near(list, data, path, anchor, end, n - 1);
    }
}

proof fn lemma_sightings_near(data: Seq<u8>, path: PathCandidate)
    ensures
        all_near(sightings_of(data, path)),
{
    let anchor = anchor_of(data, path.value@, path.byte_offset as int);
    let end = scan_end(data, path.value@, anchor);
    lemma_window_near(words_before_length(data, path, anchor), data, path, anchor, end, end);
}

fn key_in_path(c: &NetIdentityCandidate) -> (r: u128)
    requires
        near_path(c@),
    ensures
        r == path_key(c@),
{
    let lack: u128 = (u16::MAX - c.score) as u128;
    let back: u128 = (0isize - c.relative_offset) as u128;
    lack * 0x1_0000_0000_0000_0000_0000_0000 + back * 0x1_0000_0000_0000_0000 + c.byte_offset as u128
}

fn key_in_total(c: &NetIdentityCandidate) -> (r: u128)
    ensures
        r == total_key(c@),
{
    let lack: u128 = (u16::MAX - c.score) as u128;
    let shift: u128 = c.bit_shift as u128;
    lack * 0x1_0000_0000_0000_0000_0000_0000 + shift * 0x1_0000_0000_0000_0000 + c.byte_offset as u128
}

fn best_candidates(data: &Vec<u8>, path: &PathCandidate) -> (out: Vec<NetIdentityCandidate>)
    requires
        path.byte_offset < data.len(),
    ensures
        identity_views(out@) == best_of_path(data@, *path),
{
    let found = collect_candidates(data, path);
    let ghost list = identity_views(found@);
    let ghost all = found@;
    proof {
        lemma_sightings_near(data@, *path);
    }
    let ghost view = |c: NetIdentityCandidate| c@;
    let mut strong: Vec<(u128, NetIdentityCandidate)> = Vec::new();
    assert(sorting::mapped(strong@, view) =~= strong_ones(list, 0));
    for candidate in it: found
        invariant
            it.seq() == all,
            list == identity_views(all),
            all_near(list),
            view == (|c: NetIdentityCandidate| c@),
            sorting::mapped(strong@, view) == strong_ones(list, it.index() as int),
    {
        let ghost before = sorting::mapped(strong@, view);
        assert(candidate == all[it.index() as int]);
        assert(list[it.index() as int] == candidate@);
        if candidate.score >= MIN_CANDIDATE_SCORE {
            let key = key_in_path(&candidate);
            strong.push((key, candidate));
            assert(sorting::mapped(strong@, view) =~= before.push((key, candidate@)));
        }
    }
    let ghost chosen = strong@;
    let out = sorting::best_by_key(strong, MAX_CANDIDATES_PER_PATH);
    proof {
        sorting::best_commutes_with_mapping(chosen, view, MAX_CANDIDATES_PER_PATH as int);
        assert(identity_views(out@) =~= out@.map_values(view));
    }
    out
}

fn push_new(list: &mut Vec<NetIdentityCandidate>, candidate: NetIdentityCandidate)
    ensures
        identity_views(final(list)@) == if exists|k: int|
            0 <= k < old(list)@.len() && same_identity(
                #[trigger] identity_views(old(list)@)[k],
                candidate@,
            ) {
            identity_views(old(list)@)
        } else {
            identity_views(old(list)@).push(candidate@)
        },
{
    let ghost before = identity_views(list@);
    let mut i: usize = 0;
    while i < list.len()
        invariant
            i <= list.len(),
            list@ == old(list)@,
            before == identity_views(list@),
            forall|k: int| 0 <= k < i ==> !same_identity(#[trigger] before[k], candidate@),
        decreases list.len() - i,
    {
        assert(before[i as int] == list@[i as int]@);
        if list[i].kind == candidate.kind && list[i].bit_shift == candidate.bit_shift
            && list[i].byte_offset == candidate.byte_offset && text::same_str(
            list[i].handle.as_str(),
            candidate.handle.as_str(),
        ) && text::same_str(list[i].path.as_str(), candidate.path.as_str()) {
            assert(same_identity(before[i as int], candidate@));
            return;
        }
        i += 1;
    }
    list.push(candidate);
    assert(identity_views(list@) =~= before.push(candidate@));
}

/// The best identity candidates of the paths that may name targets.
pub fn extract_net_identity_candidates(data: &[u8], paths: &[PathCandidate]) -> (out: Vec<
    NetIdentityCandidate,
>)
    ensures
        identity_views(out@) == identities(data@, paths@),
{
    let mut found: Vec<NetIdentityCandidate> = Vec::new();
    assert(identity_views(found@) =~= gathered(data@, paths@, 0));
    let mut taken: usize = 0;
    let mut i: usize = 0;
    while i < paths.len()
        invariant
            i <= paths@.len(),
            taken == eligible_count(paths@, i as int),
            taken <= i,
            identity_views(found@) == gathered(data@, paths@, i as int),
        decreases paths.len() - i,
    {
        let path = &paths[i];
        let ghost before = identity_views(found@);
        if !object_state::is_ignored_non_target_path(path.value.as_str())
            && object_state::is_targetish_path(path.value.as_str()) {
            if taken < MAX_IDENTITY_PATHS {
                let count: usize = if path.bit_shift == 0 || data.len() == 0 {
                    data.len()
                } else {
                    data.len() - 1
                };
                match bits::decode_shifted_bytes(data, 0, path.bit_shift, 0, count) {
                    Some(shifted) => {
                        if path.byte_offset < shifted.len() {
                            let best = best_candidates(&shifted, path);
                            let ghost more = identity_views(best@);
                            let ghost all = best@;
                            for candidate in it: best
                                invariant
                                    it.seq() == all,
                                    more == identity_views(all),
                                    identity_views(found@) == with_new(
                                        before,
                                        more,
                                        it.index() as int,
                                    ),
                            {
                                assert(more[it.index() as int] == candidate@);
                                push_new(&mut found, candidate);
                            }
                        }
                    },
                    None => {},
                }
            }
            taken += 1;
        }
        i += 1;
    }
    let ghost view = |c: NetIdentityCandidate| c@;
    let ghost list = identity_views(found@);
    let ghost all = found@;
    let mut with_keys: Vec<(u128, NetIdentityCandidate)> = Vec::new();
    for candidate in it: found
        invariant
            it.seq() == all,
            list == identity_views(all),
            view == (|c: NetIdentityCandidate| c@),
            with_keys@.len() == it.index(),
            forall|k: int|
                0 <= k < it.index() ==> (#[trigger] with_keys@[k]).1 == all[k] && with_keys@[k].0
                    == total_key(list[k]),
    {
        let key = key_in_total(&candidate);
        with_keys.push((key, candidate));
    }
    let ghost chosen = with_keys@;
    assert(sorting::mapped(chosen, view) =~= keyed(list));
    let out = sorting::best_by_key(with_keys, MAX_TOTAL_CANDIDATES);
    proof {
        sorting::best_commutes_with_mapping(chosen, view, MAX_TOTAL_CANDIDATES as int);
        assert(identity_views(out@) =~= out@.map_values(view));
    }
    out
}

// ------------------------------------------------------------------------- laws

/// No two of the candidates are the same identity.
pub open spec fn all_different(list: Seq<IdentityView>) -> bool {
    forall|i: int, j: int|
        0 <= i < j < list.len() ==> !same_identity(#[trigger] list[i], #[trigger] list[j])
}

pub open spec fn all_strong(list: Seq<IdentityView>) -> bool {
    forall|k: int| 0 <= k < list.len() ==> (#[trigger] list[k]).score >= MIN_CANDIDATE_SCORE
}

proof fn lemma_strong_ones(list: Seq<IdentityView>, n: int)
    requires
        0 <= n <= list.len(),
    ensures
        forall|k: int|
            0 <= k < strong_ones(list, n).len() ==> (#[trigger] strong_ones(list, n)[k]).1.score
                >= MIN_CANDIDATE_SCORE,
    decreases n,
{
    if n > 0 {
        lemma_strong_ones(list, n - 1);
    }
}

proof fn lemma_best_of_path_strong(data: Seq<u8>, path: PathCandidate)
    ensures
        all_strong(best_of_path(data, path)),
        best_of_path(data, path).len() <= MAX_CANDIDATES_PER_PATH,
{
    let found = sightings_of(data, path);
    let s = strong_ones(found, found.len() as int);
    lemma_strong_ones(found, found.len() as int);
    let r = best_of_path(data, path);
    assert forall|k: int| 0 <= k < r.len() implies (#[trigger] r[k]).score >= MIN_CANDIDATE_SCORE by {
        sorting::sorted_elements_are_elements(s, k);
        assert(r[k] == sorting::sorted(s)[k].1);
        let w = choose|w: int| 0 <= w < s.len() && s[w] == sorting::sorted(s)[k];
        assert(s[w].1.score >= MIN_CANDIDATE_SCORE);
    }
}

proof fn lemma_with_new(list: Seq<IdentityView>, more: Seq<IdentityView>, n: int)
    requires
        0 <= n <= more.len(),
        all_strong(list),
        all_strong(more),
        all_different(list),
    ensures
        all_strong(with_new(list, more, n)),
        all_different(with_new(list, more, n)),
    decreases n,
{
    if n > 0 {
        lemma_with_new(list, more, n - 1);
        assert(more[n - 1].score >= MIN_CANDIDATE_SCORE);
    }
}

proof fn lemma_gathered(data: Seq<u8>, paths: Seq<PathCandidate>, n: int)
    requires
        0 <= n <= paths.len(),
    ensures
        all_strong(gathered(data, paths, n)),
        all_different(gathered(data, paths, n)),
    decreases n,
{
    if n > 0 {
        lemma_gathered(data, paths, n - 1);
        let path = paths[n - 1];
        if eligible(path) && eligible_count(paths, n - 1) < MAX_IDENTITY_PATHS {
            match reading(data, path.bit_shift) {
                Some(shifted) => {
                    if path.byte_offset < shifted.len() {
                        let found = best_of_path(shifted, path);
                        lemma_best_of_path_strong(shifted, path);
                        lemma_with_new(gathered(data, paths, n - 1), found, found.len() as int);
                    }
                },
                None => {},
            }
        }
    }
}

/// There are few identity candidates, each has a high enough score, and they come
/// with falling scores.
pub proof fn identities_are_few_and_ordered(data: Seq<u8>, paths: Seq<PathCandidate>)
    ensures
        identities(data, paths).len() <= MAX_TOTAL_CANDIDATES,
        all_strong(identities(data, paths)),
        forall|i: int, j: int|
            0 <= i < j < identities(data, paths).len() ==> (#[trigger] identities(data, paths)[i]).score
                >= (#[trigger] identities(data, paths)[j]).score,
{
    let list = gathered(data, paths, paths.len() as int);
    let s = keyed(list);
    let r = identities(data, paths);
    lemma_gathered(data, paths, paths.len() as int);
    sorting::sorted_is_ordered(s);
    assert forall|k: int| 0 <= k < r.len() implies (#[trigger] r[k]).score >= MIN_CANDIDATE_SCORE
        && sorting::sorted(s)[k] == (total_key(r[k]), r[k]) by {
        sorting::sorted_elements_are_elements(s, k);
        let w = choose|w: int| 0 <= w < s.len() && s[w] == sorting::sorted(s)[k];
        assert(s[w] == (total_key(list[w]), list[w]));
        assert(list[w].score >= MIN_CANDIDATE_SCORE);
    }
    assert forall|i: int, j: int| 0 <= i < j < r.len() implies (#[trigger] r[i]).score >= (
    #[trigger] r[j]).score by {
        assert(sorting::sorted(s)[i].0 <= sorting::sorted(s)[j].0);
        assert(total_key(r[i]) <= total_key(r[j]));
    }
}

/// A number in groups of seven bits, the lowest first, each but the last marked.
pub open spec fn packed_bytes(n: nat) -> Seq<u8>
    decreases n,
{
    if n < 128 {
        seq![n as u8]
    } else {
        seq![(n % 128 + 128) as u8] + packed_bytes(n / 128)
    }
}

proof fn lemma_packed_parts(n: nat)
    requires
        n < 0x1_0000_0000,
    ensures
        ({
            let p = packed_bytes(n);
            &&& 1 <= p.len() <= 5
            &&& n < 0x80 ==> p.len() == 1
            &&& n < 0x4000 ==> p.len() <= 2
            &&& n < 0x20_0000 ==> p.len() <= 3
            &&& n < 0x1000_0000 ==> p.len() <= 4
            &&& forall|i: int| 0 <= i < p.len() - 1 ==> (#[trigger] p[i]) >= 0x80
            &&& p[p.len() - 1] < 0x80
            &&& packed_group(p, 0) + 0x80 * packed_group(p, 1) + 0x4000 * packed_group(p, 2)
                + 0x20_0000 * packed_group(p, 3) + 0x1000_0000 * packed_group(p, 4) == n
        }),
    decreases n,
{
    let p = packed_bytes(n);
    if n >= 128 {
        let m = n / 128;
        lemma_packed_parts(m);
        let q = packed_bytes(m);
        assert(m < 0x200_0000);
        assert(q.len() <= 4);
        assert forall|i: int| 0 <= i < p.len() - 1 implies (#[trigger] p[i]) >= 0x80 by {
            if i > 0 {
                assert(p[i] == q[i - 1]);
            }
        }
        assert(p[p.len() - 1] == q[q.len() - 1]);
        assert(packed_group(p, 0) == n % 128);
        assert(packed_group(p, 1) == packed_group(q, 0));
        assert(packed_group(p, 2) == packed_group(q, 1));
        assert(packed_group(p, 3) == packed_group(q, 2));
        assert(packed_group(p, 4) == packed_group(q, 3));
        assert(packed_group(q, 4) == 0);
    }
}

proof fn lemma_packed_width(data: Seq<u8>, at: int, p: Seq<u8>, k: int)
    requires
        0 <= at,
        1 <= p.len() <= 5,
        at + p.len() <= data.len(),
        data.subrange(at, at + p.len()) == p,
        forall|i: int| 0 <= i < p.len() - 1 ==> (#[trigger] p[i]) >= 0x80,
        p[p.len() - 1] < 0x80,
        0 <= k < p.len(),
    ensures
        packed_width(data, at, k) == Some(p.len() as int),
    decreases p.len() - k,
{
    assert(data[at + k] == p[k]);
    if k < p.len() - 1 {
        lemma_packed_width(data, at, p, k + 1);
    }
}

/// A packed number reads back, wherever it stands.
pub proof fn packed_numbers_read_back(data: Seq<u8>, at: int, n: nat)
    requires
        n < 0x1_0000_0000,
        0 <= at,
        at + packed_bytes(n).len() <= data.len(),
        data.subrange(at, at + packed_bytes(n).len()) == packed_bytes(n),
    ensures
        packed_width(data, at, 0) == Some(packed_bytes(n).len() as int),
        packed_value(packed_bytes(n)) == n,
{
    lemma_packed_parts(n);
    lemma_packed_width(data, at, packed_bytes(n), 0);
}

proof fn lemma_word_stays(
    list: Seq<IdentityView>,
    data: Seq<u8>,
    path: PathCandidate,
    kind: NetIdentityCandidateKind,
    at: int,
    anchor: int,
    score: u16,
    end: int,
    c: IdentityView,
)
    requires
        list.contains(c),
    ensures
        with_word(list, data, path, kind, at, anchor, score).contains(c),
        with_packed(list, data, path, at, anchor, end).contains(c),
{
    let w = choose|w: int| 0 <= w < list.len() && list[w] == c;
    let a = with_word(list, data, path, kind, at, anchor, score);
    let b = with_packed(list, data, path, at, anchor, end);
    assert(a[w] == c);
    assert(b[w] == c);
}

proof fn lemma_window_keeps(
    list: Seq<IdentityView>,
    data: Seq<u8>,
    path: PathCandidate,
    anchor: int,
    end: int,
    n: int,
    c: IdentityView,
)
    requires
        list.contains(c),
    ensures
        with_window(list, data, path, anchor, end, n).contains(c),
    decreases n - window_start(anchor),
{
    if n > window_start(anchor) {
        lemma_window_keeps(list, data, path, anchor, end, n - 1, c);
        let before = with_window(list, data, path, anchor, end, n - 1);
        lemma_word_stays(
            before,
            data,
            path,
            NetIdentityCandidateKind::IrisNetRefHandle32,
            n - 1,
            anchor,
            38,
            end,
            c,
        );
        let words = if n - 1 + 4 <= end {
            with_word(
                before,
                data,
                path,
                NetIdentityCandidateKind::IrisNetRefHandle32,
                n - 1,
                anchor,
                38,
            )
        } else {
            before
        };
        lemma_word_stays(
            words,
            data,
            path,
            NetIdentityCandidateKind::IrisNetRefHandle32,
            n - 1,
            anchor,
            38,
            end,
            c,
        );
    }
}

/// The number can be that of an object: it is none of the smallest and not the largest,
/// nor the length of the path, and its bytes are not a text and not three zeros first.
pub open spec fn can_be_a_number(data: Seq<u8>, at: int, path: Seq<char>) -> bool {
    let value = bits::le32(data, at);
    let length = vstd::utf8::encode_utf8(path).len();
    &&& 0 <= at && at + 4 <= data.len()
    &&& 128 <= value < 0xffff_ffff
    &&& value != length % 0x1_0000_0000 && value != (length + 1) % 0x1_0000_0000
    &&& !(data[at] == 0 && data[at + 1] == 0 && data[at + 2] == 0)
    &&& !(32 <= data[at] <= 126 && 32 <= data[at + 1] <= 126 && 32 <= data[at + 2] <= 126 && 32
        <= data[at + 3] <= 126)
}

proof fn lemma_plausible(data: Seq<u8>, at: int, path: Seq<char>)
    requires
        can_be_a_number(data, at, path),
    ensures
        plausible_word(bits::le32(data, at), data.subrange(at, at + 4), path),
{
    let raw = data.subrange(at, at + 4);
    assert(raw[0] == data[at] && raw[1] == data[at + 1] && raw[2] == data[at + 2] && raw[3]
        == data[at + 3]);
    if plain_bytes(raw) {
        assert(plain_byte(raw[0]) && plain_byte(raw[1]) && plain_byte(raw[2]) && plain_byte(
            raw[3],
        ));
    }
}

proof fn lemma_word_is_a_candidate(
    list: Seq<IdentityView>,
    data: Seq<u8>,
    path: PathCandidate,
    kind: NetIdentityCandidateKind,
    at: int,
    anchor: int,
    score: u16,
)
    requires
        can_be_a_number(data, at, path.value@),
        forall|k: int|
            0 <= k < list.len() ==> (#[trigger] list[k]).relative_offset != at - anchor,
    ensures
        with_word(list, data, path, kind, at, anchor, score).contains(
            candidate_of(
                kind,
                "0x"@ + text::zero_pad(text::hex(bits::le32(data, at) as nat), 8),
                path,
                at,
                anchor,
                data.subrange(at, at + 4),
                score,
            ),
        ),
        forall|k: int|
            0 <= k < with_word(list, data, path, kind, at, anchor, score).len() ==> {
                let c = #[trigger] with_word(list, data, path, kind, at, anchor, score)[k];
                c.relative_offset == at - anchor || list.contains(c)
            },
{
    lemma_plausible(data, at, path.value@);
    let c = candidate_of(
        kind,
        "0x"@ + text::zero_pad(text::hex(bits::le32(data, at) as nat), 8),
        path,
        at,
        anchor,
        data.subrange(at, at + 4),
        score,
    );
    let all = with_word(list, data, path, kind, at, anchor, score);
    assert(all == list.push(c));
    assert(all[list.len() as int] == c);
    assert forall|k: int| 0 <= k < all.len() implies {
        let c = #[trigger] all[k];
        c.relative_offset == at - anchor || list.contains(c)
    } by {
        if k < list.len() {
            assert(all[k] == list[k]);
        }
    }
}

/// Where the bytes of a path stand behind their length, the number before the length is
/// taken for that of its object, by its eight hexadecimal digits.
pub proof fn numbers_before_a_path_are_its_objects(data: Seq<u8>, path: PathCandidate)
    requires
        stands_at(data, path.value@, path.byte_offset as int),
        8 <= path.byte_offset,
        bits::le32(data, path.byte_offset - 4) == vstd::utf8::encode_utf8(path.value@).len()
            || bits::le32(data, path.byte_offset - 4) == vstd::utf8::encode_utf8(
            path.value@,
        ).len() + 1,
        can_be_a_number(data, path.byte_offset - 8, path.value@),
    ensures
        exists|k: int|
            0 <= k < sightings_of(data, path).len() && {
                let c = #[trigger] sightings_of(data, path)[k];
                &&& c.kind == NetIdentityCandidateKind::NetGuid32
                &&& c.handle == "0x"@ + text::zero_pad(
                    text::hex(bits::le32(data, path.byte_offset - 8) as nat),
                    8,
                )
                &&& c.path == path.value@
                &&& c.byte_offset == path.byte_offset - 8
                &&& c.bit_shift == path.bit_shift
                &&& c.relative_offset == -8
                &&& c.score == 82
            },
{
    let anchor = path.byte_offset as int;
    let kind = NetIdentityCandidateKind::NetGuid32;
    let iris = NetIdentityCandidateKind::IrisNetRefHandle32;
    let end = scan_end(data, path.value@, anchor);
    let c = candidate_of(
        kind,
        "0x"@ + text::zero_pad(text::hex(bits::le32(data, anchor - 8) as nat), 8),
        path,
        anchor - 8,
        anchor,
        data.subrange(anchor - 8, anchor - 4),
        82,
    );
    let none = Seq::<IdentityView>::empty();
    lemma_word_is_a_candidate(none, data, path, kind, anchor - 8, anchor, 82);
    let first = with_word(none, data, path, kind, anchor - 8, anchor, 82);
    lemma_word_stays(first, data, path, iris, anchor - 12, anchor, 72, end, c);
    let second = with_word(first, data, path, iris, anchor - 12, anchor, 72);
    lemma_word_stays(second, data, path, iris, anchor - 16, anchor, 66, end, c);
    let third = with_word(second, data, path, iris, anchor - 16, anchor, 66);
    assert(length_prefixed(data, path.value@, anchor));
    assert(words_before_length(data, path, anchor) == third);
    lemma_window_keeps(third, data, path, anchor, end, end, c);
    let all = sightings_of(data, path);
    let k = choose|k: int| 0 <= k < all.len() && all[k] == c;
    assert(all[k] == c);
}

/// Nearer numbers count more, and those of one byte less.
pub proof fn nearer_numbers_count_more(a: int, b: int, width: int)
    requires
        0 < a <= b,
        0 < width,
    ensures
        packed_rating(b, width) <= packed_rating(a, width),
        a < b <= 18 ==> packed_rating(a, width) - packed_rating(b, width) == b - a,
        width > 1 ==> packed_rating(a, width) == packed_rating(a, 1) + 18 && 28 <= packed_rating(
            a,
            width,
        ) <= 45,
{
}

/// There are at most twenty-four numbers, with scores of forty or more, by falling scores.
pub proof fn numbers_are_few_and_sure(data: Seq<u8>, paths: Seq<PathCandidate>, i: int)
    requires
        0 <= i < identities(data, paths).len(),
    ensures
        identities(data, paths).len() <= 24,
        identities(data, paths)[i].score >= 40,
        i > 0 ==> identities(data, paths)[i - 1].score >= identities(data, paths)[i].score,
{
    identities_are_few_and_ordered(data, paths);
}

} // verus!
