//! The mathematical model of the demultiplexer: an abstract state and the
//! transition functions that `write` and `next_packet` are proved to
//! implement exactly.

use vstd::prelude::*;

use crate::page::cont_flag;
use crate::page::discard_seq;
use crate::page::header_ok;
use crate::page::lace;
use crate::page::lemma_discard_shrinks;
use crate::page::page_crc_ok;
use crate::page::page_len;
use crate::page::page_seq_of;
use crate::page::page_valid;
use crate::page::resync_seq;
use crate::page::seg_bytes;
use crate::page::seg_count;
use crate::page::seq_next;

verus! {

/// The packet-reassembly state.
#[derive(Clone, Copy, PartialEq, Eq, Structural, Debug)]
pub enum PacketState {
    /// About to start a packet.
    New,
    /// A packet spans into a following page and awaits its continuation.
    Continued,
    /// The current packet overflowed or its continuation chain broke;
    /// its bytes are discarded until the terminating segment.
    Dropping,
}

/// The abstract state of the demultiplexer.
///
/// `page` is `Some(idx)` when a validated page sits at the head of `input`
/// and `idx` is the index of the next segment of it to process.
#[verifier::ext_equal]
pub struct Model {
    /// Bytes accumulated in the input buffer.
    pub input: Seq<u8>,
    /// Capacity of the input buffer.
    pub icap: int,
    /// Bytes accumulated for the packet under reassembly.
    pub packet: Seq<u8>,
    /// Capacity of the packet buffer.
    pub pcap: int,
    /// The reassembly state.
    pub state: PacketState,
    /// The adopted page's next segment index, if a page is adopted.
    pub page: Option<int>,
    /// The sequence number of the most recently adopted page.
    pub last_seq: u32,
}

/// The model's internal consistency: buffers within capacity, and an
/// adopted page is a validated page at the head of the input buffer.
pub open spec fn inv(m: Model) -> bool {
    &&& 0 <= m.icap
    &&& 0 <= m.pcap
    &&& m.input.len() <= m.icap
    &&& m.packet.len() <= m.pcap
    &&& match m.page {
        Some(idx) => 0 <= idx <= seg_count(m.input) && page_valid(m.input),
        None => true,
    }
}

/// Discard the page at the head of the input buffer: drop everything up
/// to the next capture pattern strictly after the head, and forget the
/// adopted page.
pub open spec fn discard_model(m: Model) -> Model {
    Model { input: discard_seq(m.input), page: None::<int>, ..m }
}

/// Evict the oldest page when the input buffer is at capacity.
pub open spec fn evict_if_full(m: Model) -> Model {
    if m.input.len() >= m.icap {
        discard_model(m)
    } else {
        m
    }
}

/// Adopt the validated page at the head of the input buffer: position the
/// cursor at its first segment, record its sequence number, and judge the
/// continuation. A set continuation flag is honoured only when a packet
/// was awaiting continuation and the sequence number is the successor of
/// the previous page's; otherwise the in-flight packet is dropped. A clear
/// flag abandons any in-flight partial packet and starts fresh.
pub open spec fn adopt_page(m: Model) -> Model {
    let s = m.input;
    let st = if cont_flag(s) {
        if m.state is Continued && page_seq_of(s) == seq_next(m.last_seq) {
            PacketState::Continued
        } else {
            PacketState::Dropping
        }
    } else {
        PacketState::New
    };
    Model { state: st, last_seq: page_seq_of(s), page: Some(0int), ..m }
}

/// The parse attempt: with no page adopted, defer while the header, the
/// lacing table or the payload is incomplete; skip past a header whose
/// capture pattern or version is wrong, or a complete page whose checksum
/// does not match, and retry; adopt a complete page that validates.
pub open spec fn adopt(m: Model) -> Model
    decreases m.input.len(),
    via adopt_dec
{
    if m.page is Some {
        m
    } else if m.input.len() < 27 {
        m
    } else if !header_ok(m.input) {
        adopt(discard_model(m))
    } else if m.input.len() < 27 + seg_count(m.input) {
        m
    } else if m.input.len() < page_len(m.input) {
        m
    } else if !page_crc_ok(m.input) {
        adopt(discard_model(m))
    } else {
        adopt_page(m)
    }
}

#[via_fn]
proof fn adopt_dec(m: Model) {
    if m.input.len() > 0 {
        lemma_discard_shrinks(m.input);
    }
}

/// The parse attempt never grows the input buffer.
pub proof fn lemma_adopt_len(m: Model)
    ensures
        adopt(m).input.len() <= m.input.len(),
        adopt(m).icap == m.icap,
    decreases m.input.len(),
{
    if !(m.page is Some) && m.input.len() >= 27 {
        lemma_discard_shrinks(m.input);
        if !header_ok(m.input) {
            lemma_adopt_len(discard_model(m));
        } else if m.input.len() >= 27 + seg_count(m.input) && m.input.len() >= page_len(m.input)
            && !page_crc_ok(m.input) {
            lemma_adopt_len(discard_model(m));
        }
    }
}

/// One `write` call: evict the oldest page if the input buffer is full,
/// accept as many bytes as fit, resynchronize on the capture pattern, and
/// attempt a parse. Returns the new state and the number of bytes
/// admitted.
pub open spec fn write_model(m: Model, data: Seq<u8>) -> (Model, int) {
    let m1 = evict_if_full(m);
    let room = m1.icap - m1.input.len();
    let take = if data.len() <= room {
        data.len() as int
    } else {
        room
    };
    let m2 = Model { input: resync_seq(m1.input + data.take(take)), ..m1 };
    (adopt(m2), take)
}

/// The number of unprocessed segments of the adopted page, used as a
/// termination measure for draining.
pub open spec fn drain_segs(m: Model) -> int {
    match m.page {
        Some(idx) => if seg_count(m.input) - idx >= 0 {
            seg_count(m.input) - idx
        } else {
            0
        },
        None => 0,
    }
}

/// One `next_packet` call: walk the adopted page's segments, appending
/// them to the packet buffer, until a terminating segment yields a packet;
/// cross into following pages when a page's segments are exhausted; return
/// nothing when no adopted page remains.
pub open spec fn drain(m: Model) -> (Model, Option<Seq<u8>>)
    decreases m.input.len(), drain_segs(m),
    via drain_dec
{
    match m.page {
        None => (m, None::<Seq<u8>>),
        Some(idx) => {
            let s = m.input;
            if idx >= seg_count(s) {
                let m2 = adopt(discard_model(m));
                if m2.page is Some {
                    drain(m2)
                } else {
                    (m2, None::<Seq<u8>>)
                }
            } else {
                let l = lace(s, idx);
                let p0 = if m.state is New {
                    Seq::<u8>::empty()
                } else {
                    m.packet
                };
                let dropping = m.state is Dropping || p0.len() + l > m.pcap;
                let p1 = if dropping {
                    p0
                } else {
                    p0 + seg_bytes(s, idx)
                };
                if l == 255 {
                    let st = if dropping {
                        PacketState::Dropping
                    } else {
                        PacketState::Continued
                    };
                    drain(Model { packet: p1, state: st, page: Some(idx + 1), ..m })
                } else if dropping {
                    drain(Model { packet: p1, state: PacketState::New, page: Some(idx + 1), ..m })
                } else {
                    (
                        Model { packet: p1, state: PacketState::New, page: Some(idx + 1), ..m },
                        Some(p1),
                    )
                }
            }
        },
    }
}

#[via_fn]
proof fn drain_dec(m: Model) {
    match m.page {
        None => {},
        Some(idx) => {
            if idx >= seg_count(m.input) {
                if m.input.len() == 0 {
                    assert(discard_seq(m.input) =~= Seq::<u8>::empty());
                    assert(adopt(discard_model(m)).page is None);
                } else {
                    lemma_discard_shrinks(m.input);
                    lemma_adopt_len(discard_model(m));
                }
            }
        },
    }
}

} // verus!
