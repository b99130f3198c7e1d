//! Properties of the demultiplexer, stated and proved over the abstract
//! model: recovery from junk, corruption, oversized packets and buffer
//! pressure stays confined to the bytes at fault.

use vstd::prelude::*;

use crate::model::Model;
use crate::model::PacketState;
use crate::model::adopt;
use crate::model::adopt_page;
use crate::model::discard_model;
use crate::model::drain;
use crate::model::drain_segs;
use crate::model::evict_if_full;
use crate::model::inv;
use crate::model::lemma_adopt_len;
use crate::model::write_model;
use crate::page::CAPTURE0;
use crate::page::CAPTURE1;
use crate::page::CAPTURE2;
use crate::page::cont_flag;
use crate::page::discard_seq;
use crate::page::find_capture;
use crate::page::header_ok;
use crate::page::is_capture_at;
use crate::page::lace;
use crate::page::lace_sum;
use crate::page::lemma_discard_shrinks;
use crate::page::lemma_find_capture_exact;
use crate::page::lemma_find_capture_is_none;
use crate::page::lemma_find_capture_none;
use crate::page::lemma_find_capture_some;
use crate::page::lemma_lace_sum_bounds;
use crate::page::page_complete;
use crate::page::page_crc_ok;
use crate::page::page_len;
use crate::page::page_valid;
use crate::page::resync_seq;
use crate::page::seg_bytes;
use crate::page::seg_count;
use crate::page::seg_start;
use crate::page::tail_keep;

verus! {

/// Junk bytes holding no capture pattern, prefixed to a stream that
/// starts with one, are dropped whole by resynchronization: parsing sees
/// exactly the bytes from the first capture pattern on.
pub proof fn lemma_resync_drops_junk(junk: Seq<u8>, rest: Seq<u8>)
    requires
        is_capture_at(rest, 0),
        forall|j: int| 0 <= j < junk.len() ==> !is_capture_at(junk + rest, j),
    ensures
        resync_seq(junk + rest) == rest,
{
    let s = junk + rest;
    let n = junk.len() as int;
    assert(s[n] == rest[0]);
    assert(s[n + 1] == rest[1]);
    assert(s[n + 2] == rest[2]);
    assert(s[n + 3] == rest[3]);
    assert(is_capture_at(s, n));
    lemma_find_capture_exact(s, 0, n);
    assert(s.skip(n) =~= rest);
}

/// Resynchronization never loses a capture pattern to buffering: keeping
/// only the resynchronized buffer between two writes yields the same
/// bytes as resynchronizing the whole stream at once. In particular a
/// capture pattern split across two writes is still recognized, because
/// a partial pattern at the buffer's tail is preserved.
pub proof fn lemma_resync_split(a: Seq<u8>, b: Seq<u8>)
    ensures
        resync_seq(resync_seq(a) + b) == resync_seq(a + b),
{
    let full = a + b;
    match find_capture(a, 0) {
        Some(i) => {
            lemma_find_capture_some(a, 0, i);
            let t = a.skip(i);
            assert(is_capture_at(t + b, 0));
            lemma_find_capture_exact(t + b, 0, 0);
            assert(resync_seq(t + b) =~= t + b);
            assert(is_capture_at(full, i));
            assert forall|j: int| 0 <= j < i implies !is_capture_at(full, j) by {
                if is_capture_at(full, j) {
                    assert(is_capture_at(a, j));
                }
            }
            lemma_find_capture_exact(full, 0, i);
            assert(full.skip(i) =~= t + b);
        },
        None => {
            lemma_resync_split_none(a, b);
        },
    }
}

/// The case of [`lemma_resync_split`] in which the first buffer holds no
/// full capture pattern: only its kept tail can matter.
#[verifier::rlimit(100)]
proof fn lemma_resync_split_none(a: Seq<u8>, b: Seq<u8>)
    requires
        find_capture(a, 0) == None::<int>,
    ensures
        resync_seq(resync_seq(a) + b) == resync_seq(a + b),
{
    let full = a + b;
    let alen = a.len() as int;
    assert forall|j: int| 0 <= j implies !is_capture_at(a, j) by {
        lemma_find_capture_none(a, 0, j);
    }
    let k = tail_keep(a);
    let t = a.skip(alen - k);
    let u = t + b;
    let ulen = u.len() as int;
    let flen = full.len() as int;
    // the suffix of the whole stream of the kept length is
    // exactly the kept bytes plus the new ones
    assert(full.skip(alen - k) =~= u);
    assert(forall|x: int| 0 <= x < ulen ==> full[alen - k + x] == u[x]);
    // nothing before the kept tail can start a capture pattern:
    // a longer matching suffix would have been kept
    assert forall|j: int| 0 <= j < alen - k implies !is_capture_at(full, j) by {
        if is_capture_at(full, j) {
            if j + 4 <= alen {
                assert(is_capture_at(a, j));
            } else {
                let d = alen - j;
                assert(1 <= d <= 3);
                assert(d > k);
                if d == 3 {
                    assert(a[alen - 3] == CAPTURE0 && a[alen - 2] == CAPTURE1 && a[alen
                        - 1] == CAPTURE2);
                    assert(k == 3);
                } else if d == 2 {
                    assert(a[alen - 2] == CAPTURE0 && a[alen - 1] == CAPTURE1);
                    assert(k >= 2);
                } else {
                    assert(a[alen - 1] == CAPTURE0);
                    assert(k >= 1);
                }
            }
        }
    }
    match find_capture(u, 0) {
        Some(p) => {
            lemma_find_capture_some(u, 0, p);
            assert(is_capture_at(full, alen - k + p));
            assert forall|j: int| 0 <= j < alen - k + p implies !is_capture_at(full, j) by {
                if j >= alen - k && is_capture_at(full, j) {
                    assert(is_capture_at(u, j - (alen - k)));
                }
            }
            lemma_find_capture_exact(full, 0, alen - k + p);
            assert(full.skip(alen - k + p) =~= u.skip(p));
        },
        None => {
            assert forall|x: int| 0 <= x implies !is_capture_at(u, x) by {
                lemma_find_capture_none(u, 0, x);
            }
            assert forall|j: int| 0 <= j implies !is_capture_at(full, j) by {
                if j >= alen - k && is_capture_at(full, j) {
                    assert(is_capture_at(u, j - (alen - k)));
                }
            }
            lemma_find_capture_is_none(full, 0);
            // the kept length agrees on both sides: its checks
            // read only the last three bytes, and a check that
            // would reach past the kept tail into discarded junk
            // is ruled out by the maximality of the kept tail
            if ulen >= 3 {
                assert(tail_keep(full) == tail_keep(u));
            } else {
                if flen >= 3 && full[flen - 3] == CAPTURE0 && full[flen - 2] == CAPTURE1
                    && full[flen - 1] == CAPTURE2 {
                    let d = 3 - b.len() as int;
                    assert(1 <= d <= 3);
                    if d == 3 {
                        assert(a[alen - 3] == CAPTURE0 && a[alen - 2] == CAPTURE1 && a[alen
                            - 1] == CAPTURE2);
                        assert(k == 3);
                    } else if d == 2 {
                        assert(a[alen - 2] == CAPTURE0 && a[alen - 1] == CAPTURE1);
                        assert(k >= 2);
                    } else {
                        assert(a[alen - 1] == CAPTURE0);
                        assert(k >= 1);
                    }
                    assert(false);
                }
                if flen >= 2 && full[flen - 2] == CAPTURE0 && full[flen - 1] == CAPTURE1 {
                    if ulen < 2 {
                        let d = 2 - b.len() as int;
                        assert(1 <= d <= 2);
                        if d == 2 {
                            assert(a[alen - 2] == CAPTURE0 && a[alen - 1] == CAPTURE1);
                            assert(k >= 2);
                        } else {
                            assert(a[alen - 1] == CAPTURE0);
                            assert(k >= 1);
                        }
                        assert(false);
                    }
                }
                if flen >= 1 && full[flen - 1] == CAPTURE0 {
                    if ulen < 1 {
                        assert(a[alen - 1] == CAPTURE0);
                        assert(k >= 1);
                        assert(false);
                    }
                }
                assert(tail_keep(full) == tail_keep(u));
            }
            assert(full.skip(flen - tail_keep(full)) =~= u.skip(ulen - tail_keep(u)));
        },
    }
}

/// A complete page whose checksum fails validates nothing: the parse
/// attempt discards it whole and continues exactly on the buffer past
/// it, at the next capture pattern.
pub proof fn lemma_corrupt_page_skipped(m: Model)
    requires
        m.page is None,
        page_complete(m.input),
        !page_crc_ok(m.input),
    ensures
        adopt(m) == adopt(discard_model(m)),
{
}

/// When the input buffer is full, a write behaves exactly as the same
/// write after the oldest page's bytes were discarded: eviction loses
/// that page and corrupts nothing else.
pub proof fn lemma_full_buffer_evicts_oldest(m: Model, data: Seq<u8>)
    requires
        inv(m),
        m.icap > 0,
        m.input.len() == m.icap,
    ensures
        write_model(m, data) == write_model(discard_model(m), data),
{
    lemma_discard_shrinks(m.input);
    assert(evict_if_full(m) == discard_model(m));
    assert(evict_if_full(discard_model(m)) == discard_model(m));
}

/// A packet that would overflow the packet buffer is dropped entirely:
/// after its terminating segment, draining stands at the next packet
/// boundary in `New` state, exactly as if nothing had been accumulated.
pub proof fn lemma_oversized_packet_dropped(m: Model, idx: int)
    requires
        m.page == Some(idx),
        0 <= idx < seg_count(m.input),
        !(m.state is Dropping),
        (if m.state is New {
            0int
        } else {
            m.packet.len() as int
        }) + lace(m.input, idx) > m.pcap,
        lace(m.input, idx) != 255,
    ensures
        drain(m) == drain(Model {
            packet: if m.state is New {
                Seq::<u8>::empty()
            } else {
                m.packet
            },
            state: PacketState::New,
            page: Some(idx + 1),
            ..m
        }),
{
}

/// Writing a complete valid page to an empty demultiplexer adopts it
/// whole: every byte is admitted and the parse cursor stands at the
/// page's first segment.
pub proof fn lemma_valid_page_adopted(m: Model, page: Seq<u8>)
    requires
        m.page is None,
        m.input.len() == 0,
        page_valid(page),
        page.len() <= m.icap,
        page.len() == page_len(page),
    ensures
        write_model(m, page).0 == adopt_page(Model { input: page, ..m }),
        write_model(m, page).1 == page.len(),
{
    let appended = m.input + page.take(page.len() as int);
    assert(appended =~= page);
    lemma_find_capture_exact(page, 0, 0);
    assert(resync_seq(page) =~= page);
    let m2 = Model { input: resync_seq(appended), ..m };
    assert(m2 == Model { input: page, ..m });
    assert(adopt(m2) == adopt_page(m2));
}

/// Junk ahead of the stream is inert: writing junk followed by the
/// stream's bytes leaves the demultiplexer exactly as writing the
/// stream's bytes alone, as long as the junk never forms a capture
/// pattern (not even together with what follows it).
pub proof fn lemma_junk_prefix_ignored(m: Model, junk: Seq<u8>, rest: Seq<u8>)
    requires
        m.page is None,
        m.input.len() == 0,
        is_capture_at(rest, 0),
        forall|j: int| 0 <= j < junk.len() ==> !is_capture_at(junk + rest, j),
        junk.len() + rest.len() <= m.icap,
    ensures
        write_model(m, junk + rest).0 == write_model(m, rest).0,
{
    let s = junk + rest;
    assert(m.input + s.take(s.len() as int) =~= s);
    assert(m.input + rest.take(rest.len() as int) =~= rest);
    lemma_resync_drops_junk(junk, rest);
    lemma_find_capture_exact(rest, 0, 0);
    assert(resync_seq(rest) =~= rest);
    assert((Model { input: resync_seq(s), ..m }) == (Model { input: rest, ..m }));
    assert((Model { input: resync_seq(rest), ..m }) == (Model { input: rest, ..m }));
}

/// Round trip of one packet: when the adopted page's lacing values from
/// segment `idx` run 255, 255, … up to a terminating value at segment
/// `end`, and the packet fits the packet buffer, draining yields exactly
/// the concatenated payload bytes of those segments (appended to
/// whatever an awaited continuation had already accumulated), and leaves
/// the cursor at the next packet boundary in `New` state. Applied
/// repeatedly, every packet of a well-formed page comes back
/// byte-for-byte.
pub proof fn lemma_packet_recovered(m: Model, idx: int, end: int)
    requires
        inv(m),
        m.page == Some(idx),
        0 <= idx <= end < seg_count(m.input),
        forall|j: int| idx <= j < end ==> lace(m.input, j) == 255,
        lace(m.input, end) != 255,
        !(m.state is Dropping),
        (if m.state is New {
            0int
        } else {
            m.packet.len() as int
        }) + (seg_start(m.input, end + 1) - seg_start(m.input, idx)) <= m.pcap,
    ensures
        ({
            let s = m.input;
            let p0 = if m.state is New {
                Seq::<u8>::empty()
            } else {
                m.packet
            };
            let pkt = p0 + s.subrange(seg_start(s, idx), seg_start(s, end + 1));
            drain(m) == (
                Model { packet: pkt, state: PacketState::New, page: Some(end + 1), ..m },
                Some(pkt),
            )
        }),
    decreases end - idx,
{
    let s = m.input;
    let l = lace(s, idx);
    let p0 = if m.state is New {
        Seq::<u8>::empty()
    } else {
        m.packet
    };
    lemma_lace_sum_bounds(s, seg_count(s));
    assert(lace_sum(s, idx) <= lace_sum(s, seg_count(s)));
    assert(lace_sum(s, end + 1) <= lace_sum(s, seg_count(s)));
    assert(seg_start(s, end + 1) <= page_len(m.input));
    assert(s.len() >= page_len(m.input));
    lemma_lace_sum_bounds(s, end + 1);
    assert(lace_sum(s, idx) <= lace_sum(s, end + 1));
    assert(lace_sum(s, idx + 1) <= lace_sum(s, end + 1));
    assert(lace_sum(s, idx + 1) == lace_sum(s, idx) + l);
    assert(p0.len() + l <= m.pcap);
    let p1 = p0 + seg_bytes(s, idx);
    if idx == end {
        assert(seg_bytes(s, idx) == s.subrange(seg_start(s, idx), seg_start(s, idx + 1)));
        assert(p1 == p0 + s.subrange(seg_start(s, idx), seg_start(s, end + 1)));
    } else {
        let m_next = Model { packet: p1, state: PacketState::Continued, page: Some(idx + 1), ..m };
        lemma_packet_recovered(m_next, idx + 1, end);
        assert(p1 + s.subrange(seg_start(s, idx + 1), seg_start(s, end + 1)) =~= p0 + s.subrange(
            seg_start(s, idx),
            seg_start(s, end + 1),
        ));
    }
}

/// The index of the segment that terminates the packet starting at
/// segment `idx`: the first segment at or after it whose lacing value is
/// not 255, or the segment count when the packet runs off the page.
pub open spec fn packet_end(s: Seq<u8>, idx: int) -> int
    decreases seg_count(s) - idx,
{
    if idx >= seg_count(s) {
        idx
    } else if lace(s, idx) != 255 {
        idx
    } else {
        packet_end(s, idx + 1)
    }
}

/// Where the terminating segment lies: at or after `idx`, within the
/// page, with only 255-valued lacing entries before it.
pub proof fn lemma_packet_end(s: Seq<u8>, idx: int)
    requires
        0 <= idx <= seg_count(s),
    ensures
        idx <= packet_end(s, idx) <= seg_count(s),
        forall|j: int| idx <= j < packet_end(s, idx) ==> lace(s, j) == 255,
        packet_end(s, idx) < seg_count(s) ==> lace(s, packet_end(s, idx)) != 255,
    decreases seg_count(s) - idx,
{
    if idx < seg_count(s) && lace(s, idx) == 255 {
        lemma_packet_end(s, idx + 1);
    }
}

/// The whole packets that the page's lacing table encodes from segment
/// `idx` on; a trailing packet awaiting continuation on a later page is
/// not among them.
pub open spec fn packets_from(s: Seq<u8>, idx: int) -> Seq<Seq<u8>>
    decreases seg_count(s) - idx,
    via packets_from_dec
{
    if idx < 0 || idx >= seg_count(s) {
        Seq::<Seq<u8>>::empty()
    } else {
        let e = packet_end(s, idx);
        if e >= seg_count(s) {
            Seq::<Seq<u8>>::empty()
        } else {
            seq![s.subrange(seg_start(s, idx), seg_start(s, e + 1))] + packets_from(s, e + 1)
        }
    }
}

#[via_fn]
proof fn packets_from_dec(s: Seq<u8>, idx: int) {
    if 0 <= idx < seg_count(s) {
        lemma_packet_end(s, idx);
    }
}

/// Draining makes progress: a yielded packet consumes segments or whole
/// pages, so repeated pulling terminates.
pub proof fn lemma_drain_progress(m: Model)
    ensures
        drain(m).0.input.len() <= m.input.len(),
        drain(m).1 is Some ==> drain(m).0.input.len() < m.input.len() || (drain(m).0.input.len()
            == m.input.len() && drain_segs(drain(m).0) < drain_segs(m)),
    decreases m.input.len(), drain_segs(m),
{
    match m.page {
        None => {},
        Some(idx) => {
            if idx >= seg_count(m.input) {
                let m2 = adopt(discard_model(m));
                lemma_adopt_len(discard_model(m));
                if m2.page is Some {
                    if m.input.len() == 0 {
                        assert(discard_seq(m.input) =~= Seq::<u8>::empty());
                        assert(false);
                    }
                    lemma_discard_shrinks(m.input);
                    lemma_drain_progress(m2);
                } else {
                    if m.input.len() > 0 {
                        lemma_discard_shrinks(m.input);
                    }
                }
            } else {
                let s = m.input;
                let l = lace(s, idx);
                let p0 = if m.state is New {
                    Seq::<u8>::empty()
                } else {
                    m.packet
                };
                let dropping = m.state is Dropping || p0.len() + l > m.pcap;
                let p1 = if dropping {
                    p0
                } else {
                    p0 + seg_bytes(s, idx)
                };
                if l == 255 {
                    let st = if dropping {
                        PacketState::Dropping
                    } else {
                        PacketState::Continued
                    };
                    lemma_drain_progress(
                        Model { packet: p1, state: st, page: Some(idx + 1), ..m },
                    );
                } else if dropping {
                    lemma_drain_progress(
                        Model { packet: p1, state: PacketState::New, page: Some(idx + 1), ..m },
                    );
                }
            }
        },
    }
}

/// Every packet yielded by pulling until nothing remains.
pub open spec fn drain_all(m: Model) -> Seq<Seq<u8>>
    decreases m.input.len(), drain_segs(m),
    via drain_all_dec
{
    match drain(m).1 {
        None => Seq::<Seq<u8>>::empty(),
        Some(p) => seq![p] + drain_all(drain(m).0),
    }
}

#[via_fn]
proof fn drain_all_dec(m: Model) {
    lemma_drain_progress(m);
}

/// Round trip of a page: with a page of whole packets adopted and alone
/// in the buffer, and every packet within the packet buffer's capacity,
/// pulling packets until nothing remains yields exactly the packet
/// sequence the page's lacing table encodes, byte for byte.
pub proof fn lemma_page_round_trip(m: Model, idx: int)
    requires
        inv(m),
        m.page == Some(idx),
        m.state is New,
        0 <= idx <= seg_count(m.input),
        seg_count(m.input) > 0 ==> lace(m.input, seg_count(m.input) - 1) != 255,
        find_capture(m.input, 1) == None::<int>,
        forall|k: int|
            0 <= k < packets_from(m.input, idx).len() ==> (#[trigger] packets_from(
                m.input,
                idx,
            )[k]).len() <= m.pcap,
    ensures
        drain_all(m) == packets_from(m.input, idx),
    decreases seg_count(m.input) - idx,
{
    let s = m.input;
    if idx >= seg_count(s) {
        // page exhausted: the buffer holds no further capture pattern,
        // so the discard clears it and nothing more is adopted
        assert(discard_seq(s) =~= Seq::<u8>::empty());
        let m2 = adopt(discard_model(m));
        assert(m2.page is None);
        assert(drain(m).1 is None);
    } else {
        lemma_packet_end(s, idx);
        let e = packet_end(s, idx);
        if e == seg_count(s) {
            assert(lace(s, seg_count(s) - 1) == 255);
            assert(false);
        }
        let pkt = s.subrange(seg_start(s, idx), seg_start(s, e + 1));
        assert(packets_from(s, idx) == seq![pkt] + packets_from(s, e + 1));
        assert(packets_from(s, idx)[0] == pkt);
        assert(pkt.len() <= m.pcap);
        // the packet's length is the span of its segments
        lemma_lace_sum_bounds(s, seg_count(s));
        lemma_lace_sum_bounds(s, e + 1);
        assert(seg_start(s, idx) <= seg_start(s, e + 1));
        lemma_packet_recovered(m, idx, e);
        let m2 = Model { packet: pkt, state: PacketState::New, page: Some(e + 1), ..m };
        assert(drain(m) == (m2, Some(pkt)));
        assert forall|k: int|
            0 <= k < packets_from(s, e + 1).len() implies (#[trigger] packets_from(
            s,
            e + 1,
        )[k]).len() <= m.pcap by {
            assert(packets_from(s, idx)[k + 1] == packets_from(s, e + 1)[k]);
        }
        lemma_page_round_trip(m2, e + 1);
        assert(drain_all(m) == seq![pkt] + drain_all(m2));
    }
}

/// Round trip of a whole stream of one page: writing a valid,
/// non-continuing page of whole packets to a fresh demultiplexer and
/// then pulling packets until nothing remains yields exactly the
/// packets the page encodes.
pub proof fn lemma_single_page_stream_round_trip(m: Model, page: Seq<u8>)
    requires
        inv(m),
        m.page is None,
        m.input.len() == 0,
        m.state is New,
        page_valid(page),
        !cont_flag(page),
        page.len() == page_len(page),
        page.len() <= m.icap,
        seg_count(page) > 0 ==> lace(page, seg_count(page) - 1) != 255,
        find_capture(page, 1) == None::<int>,
        forall|k: int|
            0 <= k < packets_from(page, 0).len() ==> (#[trigger] packets_from(page, 0)[k]).len()
                <= m.pcap,
    ensures
        drain_all(write_model(m, page).0) == packets_from(page, 0),
{
    lemma_valid_page_adopted(m, page);
    let ma = adopt_page(Model { input: page, ..m });
    assert(ma.state is New);
    lemma_page_round_trip(ma, 0);
}

/// The parse attempt never reads the packet buffer: it commutes with
/// replacing the buffer's content.
pub proof fn lemma_adopt_packet_irrelevant(m: Model, q: Seq<u8>)
    ensures
        adopt(Model { packet: q, ..m }) == (Model { packet: q, ..adopt(m) }),
    decreases m.input.len(),
{
    let mq = Model { packet: q, ..m };
    if m.page is Some {
    } else if m.input.len() < 27 {
    } else if !header_ok(m.input) {
        lemma_discard_shrinks(m.input);
        lemma_adopt_packet_irrelevant(discard_model(m), q);
        assert(discard_model(mq) == Model { packet: q, ..discard_model(m) });
    } else if m.input.len() < 27 + seg_count(m.input) {
    } else if m.input.len() < page_len(m.input) {
    } else if !page_crc_ok(m.input) {
        lemma_discard_shrinks(m.input);
        lemma_adopt_packet_irrelevant(discard_model(m), q);
        assert(discard_model(mq) == Model { packet: q, ..discard_model(m) });
    } else {
        assert(adopt_page(mq) == Model { packet: q, ..adopt_page(m) });
    }
}

/// A parse attempt from `New` or `Dropping` reassembly state never lands
/// in `Continued`: a continuation flag without a packet awaiting it
/// drops the in-flight packet instead.
pub proof fn lemma_adopt_state(m: Model)
    requires
        m.state is New || m.state is Dropping,
    ensures
        adopt(m).state is New || adopt(m).state is Dropping,
    decreases m.input.len(),
{
    if m.page is Some {
    } else if m.input.len() < 27 {
    } else if !header_ok(m.input) {
        lemma_discard_shrinks(m.input);
        lemma_adopt_state(discard_model(m));
    } else if m.input.len() < 27 + seg_count(m.input) {
    } else if m.input.len() < page_len(m.input) {
    } else if !page_crc_ok(m.input) {
        lemma_discard_shrinks(m.input);
        lemma_adopt_state(discard_model(m));
    } else {
    }
}

/// Corruption and overflow are isolated: once the reassembly state is
/// `New` or `Dropping`, whatever stale bytes an abandoned packet left in
/// the packet buffer are inert — draining yields the same packets, walks
/// the same pages and ends in the same parse state.
pub proof fn lemma_stale_packet_is_inert(m: Model, q: Seq<u8>)
    requires
        m.state is New || m.state is Dropping,
    ensures
        ({
            let (ma, ra) = drain(m);
            let (mb, rb) = drain(Model { packet: q, ..m });
            &&& ra == rb
            &&& ma.input == mb.input
            &&& ma.state == mb.state
            &&& ma.page == mb.page
            &&& ma.last_seq == mb.last_seq
            &&& ma.icap == mb.icap
            &&& ma.pcap == mb.pcap
            &&& (ra is Some ==> ma == mb)
        }),
    decreases m.input.len(), drain_segs(m),
{
    let mq = Model { packet: q, ..m };
    match m.page {
        None => {},
        Some(idx) => {
            if idx >= seg_count(m.input) {
                assert(discard_model(mq) == Model { packet: q, ..discard_model(m) });
                lemma_adopt_packet_irrelevant(discard_model(m), q);
                let m2 = adopt(discard_model(m));
                let m2q = adopt(discard_model(mq));
                assert(m2q == Model { packet: q, ..m2 });
                if m2.page is Some {
                    if m.input.len() == 0 {
                        assert(discard_seq(m.input) =~= Seq::<u8>::empty());
                        assert(false);
                    }
                    lemma_discard_shrinks(m.input);
                    lemma_adopt_len(discard_model(m));
                    lemma_adopt_state(discard_model(m));
                    lemma_stale_packet_is_inert(m2, q);
                }
            } else {
                let s = m.input;
                let l = lace(s, idx);
                if m.state is New {
                    // the packet buffer is cleared before the first
                    // segment, so both runs coincide from here on
                    let p0 = Seq::<u8>::empty();
                    let dropping = p0.len() + l > m.pcap;
                    let p1 = if dropping {
                        p0
                    } else {
                        p0 + crate::page::seg_bytes(s, idx)
                    };
                    if l == 255 {
                        let st = if dropping {
                            PacketState::Dropping
                        } else {
                            PacketState::Continued
                        };
                        assert((Model { packet: p1, state: st, page: Some(idx + 1), ..m }) == (
                        Model { packet: p1, state: st, page: Some(idx + 1), ..mq }));
                    } else if dropping {
                        assert((Model {
                            packet: p1,
                            state: PacketState::New,
                            page: Some(idx + 1),
                            ..m
                        }) == (Model {
                            packet: p1,
                            state: PacketState::New,
                            page: Some(idx + 1),
                            ..mq
                        }));
                    } else {
                        assert((Model {
                            packet: p1,
                            state: PacketState::New,
                            page: Some(idx + 1),
                            ..m
                        }) == (Model {
                            packet: p1,
                            state: PacketState::New,
                            page: Some(idx + 1),
                            ..mq
                        }));
                    }
                } else {
                    // dropping: neither run appends or yields
                    if l == 255 {
                        lemma_stale_packet_is_inert(
                            Model { state: PacketState::Dropping, page: Some(idx + 1), ..m },
                            q,
                        );
                    } else {
                        lemma_stale_packet_is_inert(
                            Model { state: PacketState::New, page: Some(idx + 1), ..m },
                            q,
                        );
                    }
                }
            }
        },
    }
}

} // verus!
