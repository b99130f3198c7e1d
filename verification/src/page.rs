//! The page framing model: capture pattern, header layout, lacing table,
//! and the resynchronization functions over byte sequences.
//!
//! A page starts with the 4-byte capture pattern `"OggS"`, a version byte
//! that must be zero, a flags byte whose low bit marks "starts with a packet
//! continuation", an 8-byte granule position and a 4-byte serial (both
//! ignored — a single logical stream is assumed), a 4-byte little-endian
//! page sequence number, a 4-byte little-endian checksum, a segment count
//! byte, the segment-length table of that many bytes, and the concatenated
//! segment payloads.

use vstd::prelude::*;

use crate::crc::crc_of;

verus! {

/// First byte of the capture pattern, `'O'`.
pub const CAPTURE0: u8 = 0x4f;

/// Second byte of the capture pattern, `'g'`.
pub const CAPTURE1: u8 = 0x67;

/// Third byte of the capture pattern, `'g'`.
pub const CAPTURE2: u8 = 0x67;

/// Fourth byte of the capture pattern, `'S'`.
pub const CAPTURE3: u8 = 0x53;

/// The capture pattern starts at offset `i` of `s`.
pub open spec fn is_capture_at(s: Seq<u8>, i: int) -> bool {
    &&& 0 <= i
    &&& i + 4 <= s.len()
    &&& s[i] == CAPTURE0
    &&& s[i + 1] == CAPTURE1
    &&& s[i + 2] == CAPTURE2
    &&& s[i + 3] == CAPTURE3
}

/// The offset of the first capture pattern at or after `from`, if any.
pub open spec fn find_capture(s: Seq<u8>, from: int) -> Option<int>
    decreases s.len() - from,
    when 0 <= from
{
    if from + 4 > s.len() {
        None
    } else if is_capture_at(s, from) {
        Some(from)
    } else {
        find_capture(s, from + 1)
    }
}

/// A found offset carries the capture pattern, lies at or after `from`,
/// and no offset between `from` and it does.
pub proof fn lemma_find_capture_some(s: Seq<u8>, from: int, i: int)
    requires
        0 <= from,
        find_capture(s, from) == Some(i),
    ensures
        from <= i,
        is_capture_at(s, i),
        forall|j: int| from <= j < i ==> !is_capture_at(s, j),
    decreases s.len() - from,
{
    if from + 4 > s.len() {
    } else if is_capture_at(s, from) {
    } else {
        lemma_find_capture_some(s, from + 1, i);
    }
}

/// If no capture pattern is found, none exists at or after `from`.
pub proof fn lemma_find_capture_none(s: Seq<u8>, from: int, j: int)
    requires
        0 <= from <= j,
        find_capture(s, from) == None::<int>,
    ensures
        !is_capture_at(s, j),
    decreases s.len() - from,
{
    if from + 4 > s.len() {
    } else if is_capture_at(s, from) {
    } else if j > from {
        lemma_find_capture_none(s, from + 1, j);
    }
}

/// If no offset at or after `from` carries the pattern, the search finds
/// nothing.
pub proof fn lemma_find_capture_is_none(s: Seq<u8>, from: int)
    requires
        0 <= from,
        forall|j: int| from <= j ==> !is_capture_at(s, j),
    ensures
        find_capture(s, from) == None::<int>,
    decreases s.len() - from,
{
    if from + 4 <= s.len() {
        lemma_find_capture_is_none(s, from + 1);
    }
}

/// The first capture offset is determined: if `i` carries the pattern and
/// nothing before it does, the search finds exactly `i`.
pub proof fn lemma_find_capture_exact(s: Seq<u8>, from: int, i: int)
    requires
        0 <= from <= i,
        is_capture_at(s, i),
        forall|j: int| from <= j < i ==> !is_capture_at(s, j),
    ensures
        find_capture(s, from) == Some(i),
    decreases i - from,
{
    if from < i {
        lemma_find_capture_exact(s, from + 1, i);
    }
}

/// How many tail bytes to keep when no full capture pattern exists in the
/// buffer: the length of the longest buffer suffix (at most three bytes)
/// that is a proper prefix of the capture pattern.
pub open spec fn tail_keep(s: Seq<u8>) -> int {
    let n = s.len() as int;
    if n >= 3 && s[n - 3] == CAPTURE0 && s[n - 2] == CAPTURE1 && s[n - 1] == CAPTURE2 {
        3
    } else if n >= 2 && s[n - 2] == CAPTURE0 && s[n - 1] == CAPTURE1 {
        2
    } else if n >= 1 && s[n - 1] == CAPTURE0 {
        1
    } else {
        0
    }
}

/// The buffer after resynchronization: everything before the first capture
/// pattern is dropped; if there is none, everything but a partial capture
/// pattern at the tail is dropped.
pub open spec fn resync_seq(s: Seq<u8>) -> Seq<u8> {
    match find_capture(s, 0) {
        Some(i) => s.skip(i),
        None => s.skip(s.len() - tail_keep(s)),
    }
}

/// The buffer after the current page's bytes are discarded: everything
/// before the next capture pattern strictly after the head is dropped; if
/// there is none, the buffer is cleared.
pub open spec fn discard_seq(s: Seq<u8>) -> Seq<u8> {
    match find_capture(s, 1) {
        Some(i) => s.skip(i),
        None => Seq::<u8>::empty(),
    }
}

/// Discarding a non-empty buffer strictly shrinks it.
pub proof fn lemma_discard_shrinks(s: Seq<u8>)
    requires
        s.len() > 0,
    ensures
        discard_seq(s).len() < s.len(),
{
    match find_capture(s, 1) {
        Some(i) => {
            lemma_find_capture_some(s, 1, i);
        },
        None => {},
    }
}

/// The 32-bit little-endian value at offset `i` of `s`.
pub open spec fn le32_at(s: Seq<u8>, i: int) -> u32 {
    (s[i] as u32) | ((s[i + 1] as u32) << 8u32) | ((s[i + 2] as u32) << 16u32) | ((s[i
        + 3] as u32) << 24u32)
}

/// The page's continuation flag: the low bit of the header-flags byte.
pub open spec fn cont_flag(s: Seq<u8>) -> bool {
    s[5] & 1 == 1
}

/// The page's sequence number field.
pub open spec fn page_seq_of(s: Seq<u8>) -> u32 {
    le32_at(s, 18)
}

/// The page's stored checksum field.
pub open spec fn page_crc_of(s: Seq<u8>) -> u32 {
    le32_at(s, 22)
}

/// The page's segment count.
pub open spec fn seg_count(s: Seq<u8>) -> int {
    s[26] as int
}

/// The length of segment `k`, read from the lacing table.
pub open spec fn lace(s: Seq<u8>, k: int) -> int {
    s[27 + k] as int
}

/// The sum of the first `k` lacing values.
pub open spec fn lace_sum(s: Seq<u8>, k: int) -> int
    decreases k,
{
    if k <= 0 {
        0
    } else {
        lace_sum(s, k - 1) + lace(s, k - 1)
    }
}

/// Lacing sums are monotone in the number of segments summed.
pub proof fn lemma_lace_sum_bounds(s: Seq<u8>, k: int)
    requires
        0 <= k,
        forall|j: int| 0 <= j < k ==> 0 <= #[trigger] lace(s, j) <= 255,
    ensures
        0 <= lace_sum(s, k) <= 255 * k,
        forall|j: int| 0 <= j <= k ==> 0 <= #[trigger] lace_sum(s, j) <= lace_sum(s, k),
    decreases k,
{
    if k > 0 {
        lemma_lace_sum_bounds(s, k - 1);
    }
}

/// The total size of the page whose header starts at offset 0: fixed
/// header, lacing table, and payload.
pub open spec fn page_len(s: Seq<u8>) -> int {
    27 + seg_count(s) + lace_sum(s, seg_count(s))
}

/// The byte offset at which segment `k`'s payload starts.
pub open spec fn seg_start(s: Seq<u8>, k: int) -> int {
    27 + seg_count(s) + lace_sum(s, k)
}

/// The payload bytes of segment `k`.
pub open spec fn seg_bytes(s: Seq<u8>, k: int) -> Seq<u8> {
    s.subrange(seg_start(s, k), seg_start(s, k) + lace(s, k))
}

/// The fixed header is present, carries the capture pattern at its head
/// and the supported version byte.
pub open spec fn header_ok(s: Seq<u8>) -> bool {
    &&& s.len() >= 27
    &&& is_capture_at(s, 0)
    &&& s[4] == 0u8
}

/// The whole page, lacing table and payload included, is present.
pub open spec fn page_complete(s: Seq<u8>) -> bool {
    &&& header_ok(s)
    &&& s.len() >= 27 + seg_count(s)
    &&& s.len() >= page_len(s)
}

/// The page's bytes with the checksum field replaced by zeroes: the form
/// the checksum is computed over.
pub open spec fn zeroed_page(s: Seq<u8>) -> Seq<u8> {
    s.subrange(0, 22) + seq![0u8, 0u8, 0u8, 0u8] + s.subrange(26, page_len(s))
}

/// The page's checksum field matches the checksum of its zeroed bytes.
pub open spec fn page_crc_ok(s: Seq<u8>) -> bool {
    page_crc_of(s) == crc_of(zeroed_page(s))
}

/// A complete page that passes the checksum.
pub open spec fn page_valid(s: Seq<u8>) -> bool {
    &&& page_complete(s)
    &&& page_crc_ok(s)
}

/// Lacing sums read only the lacing table, so a prefix determines them.
pub proof fn lemma_lace_sum_prefix(a: Seq<u8>, b: Seq<u8>, k: int)
    requires
        0 <= k,
        27 + k <= a.len(),
    ensures
        lace_sum(a + b, k) == lace_sum(a, k),
    decreases k,
{
    if k > 0 {
        lemma_lace_sum_prefix(a, b, k - 1);
        assert(lace(a + b, k - 1) == lace(a, k - 1));
    }
}

/// A valid page at the head of a buffer stays valid, with the same
/// segment layout, when more bytes are appended after it.
pub proof fn lemma_page_extend(a: Seq<u8>, b: Seq<u8>)
    requires
        page_valid(a),
    ensures
        page_valid(a + b),
        seg_count(a + b) == seg_count(a),
        page_len(a + b) == page_len(a),
        forall|k: int| 0 <= k <= seg_count(a) ==> seg_start(a + b, k) == seg_start(a, k),
        forall|k: int| 0 <= k < seg_count(a) ==> seg_bytes(a + b, k) == seg_bytes(a, k),
{
    let s = a + b;
    assert(seg_count(s) == seg_count(a));
    lemma_lace_sum_prefix(a, b, seg_count(a));
    assert(page_len(s) == page_len(a));
    assert forall|k: int| 0 <= k <= seg_count(a) implies seg_start(s, k) == seg_start(a, k) by {
        lemma_lace_sum_prefix(a, b, k);
    }
    lemma_lace_sum_bounds(a, seg_count(a));
    assert(s.subrange(0, 22) =~= a.subrange(0, 22));
    assert(s.subrange(26, page_len(s)) =~= a.subrange(26, page_len(a)));
    assert(zeroed_page(s) =~= zeroed_page(a));
    assert(page_crc_of(s) == page_crc_of(a));
    assert forall|k: int| 0 <= k < seg_count(a) implies seg_bytes(s, k) == seg_bytes(a, k) by {
        lemma_lace_sum_prefix(a, b, k);
        lemma_lace_sum_prefix(a, b, k + 1);
        assert(lace(s, k) == lace(a, k));
        assert(seg_start(a, k) + lace(a, k) == seg_start(a, k + 1));
        assert(seg_start(a, k + 1) <= page_len(a)) by {
            assert(lace_sum(a, k + 1) <= lace_sum(a, seg_count(a)));
        }
        assert(seg_bytes(s, k) =~= seg_bytes(a, k));
    }
}

/// The sequence number that continues `x`: its successor, wrapping at the
/// top of the 32-bit range.
pub open spec fn seq_next(x: u32) -> u32 {
    if x == 0xffffffffu32 {
        0u32
    } else {
        (x + 1) as u32
    }
}

} // verus!
