//! The stream demultiplexer: fixed-capacity input and packet buffers, the
//! parse cursor, and the packet-reassembly state machine.
//!
//! `write` admits raw bytes, resynchronizes on the capture pattern and
//! attempts to adopt a page; `next_packet` walks the adopted page's
//! segments and yields reassembled packets. Both are proved to implement
//! the transition functions of [`crate::model`] exactly.

use vstd::prelude::*;
use vstd::slice::slice_index_get;

use crate::crc::Crc;
use crate::crc::crc_of;
use crate::crc::lemma_crc_fold_concat;
use crate::model::Model;
use crate::model::PacketState;
use crate::model::adopt;
use crate::model::adopt_page;
use crate::model::discard_model;
use crate::model::drain;
use crate::model::evict_if_full;
use crate::model::inv;
use crate::model::lemma_adopt_len;
use crate::model::write_model;
use crate::page::CAPTURE0;
use crate::page::CAPTURE1;
use crate::page::CAPTURE2;
use crate::page::CAPTURE3;
use crate::page::cont_flag;
use crate::page::find_capture;
use crate::page::header_ok;
use crate::page::is_capture_at;
use crate::page::lace;
use crate::page::lace_sum;
use crate::page::le32_at;
use crate::page::lemma_discard_shrinks;
use crate::page::lemma_find_capture_exact;
use crate::page::lemma_find_capture_is_none;
use crate::page::lemma_find_capture_some;
use crate::page::lemma_lace_sum_bounds;
use crate::page::lemma_page_extend;
use crate::page::page_crc_of;
use crate::page::page_crc_ok;
use crate::page::page_len;
use crate::page::page_seq_of;
use crate::page::page_valid;
use crate::page::resync_seq;
use crate::page::seg_bytes;
use crate::page::seg_count;
use crate::page::seg_start;
use crate::page::seq_next;
use crate::page::tail_keep;
use crate::page::zeroed_page;

verus! {

/// Remove the first `n` bytes of `v`, shifting the rest to the front.
fn shift_front(v: &mut Vec<u8>, n: usize)
    requires
        n <= old(v)@.len(),
    ensures
        final(v)@ == old(v)@.skip(n as int),
{
    let len = v.len();
    let mut i: usize = n;
    while i < len
        invariant
            n <= i <= len,
            len == v@.len(),
            forall|j: int| 0 <= j < i - n ==> v@[j] == old(v)@[n + j],
            forall|j: int| i - n <= j < len ==> v@[j] == old(v)@[j],
        decreases len - i,
    {
        let b = v[i];
        v[i - n] = b;
        i = i + 1;
    }
    v.truncate(len - n);
    proof {
        assert(v@ =~= old(v)@.skip(n as int));
    }
}

/// Find the first capture pattern at or after `from` in `v`.
fn find_capture_in(v: &Vec<u8>, from: usize) -> (r: Option<usize>)
    ensures
        match r {
            Some(i) => from <= i && i + 4 <= v@.len() && is_capture_at(v@, i as int)
                && find_capture(v@, from as int) == Some(i as int),
            None => find_capture(v@, from as int) == None::<int>,
        },
{
    let len = v.len();
    let mut i: usize = from;
    while i < len && len - i >= 4
        invariant
            from <= i,
            len == v@.len(),
            forall|j: int| from <= j < i ==> !is_capture_at(v@, j),
        decreases len - i,
    {
        if v[i] == CAPTURE0 && v[i + 1] == CAPTURE1 && v[i + 2] == CAPTURE2 && v[i + 3]
            == CAPTURE3 {
            proof {
                lemma_find_capture_exact(v@, from as int, i as int);
            }
            return Some(i);
        }
        i = i + 1;
    }
    proof {
        assert(forall|j: int| from <= j ==> !is_capture_at(v@, j)) by {
            assert forall|j: int| from <= j implies !is_capture_at(v@, j) by {
                if j + 4 <= v@.len() {
                    assert(j < i);
                }
            }
        }
        lemma_find_capture_is_none(v@, from as int);
    }
    None
}

/// Read the 32-bit little-endian value at `off`.
fn le32_in(v: &Vec<u8>, off: usize) -> (r: u32)
    requires
        off + 4 <= v@.len(),
    ensures
        r == le32_at(v@, off as int),
{
    let n = v.len();
    proof {
        assert(off + 4 <= n);
    }
    (v[off] as u32) | ((v[off + 1] as u32) << 8u32) | ((v[off + 2] as u32) << 16u32) | ((v[off
        + 3] as u32) << 24u32)
}

/// Copy a byte vector.
fn copy_bytes(v: &Vec<u8>) -> (r: Vec<u8>)
    ensures
        r@ == v@,
{
    let mut r: Vec<u8> = Vec::new();
    let mut i: usize = 0;
    while i < v.len()
        invariant
            i <= v@.len(),
            r@ == v@.take(i as int),
        decreases v@.len() - i,
    {
        r.push(v[i]);
        proof {
            assert(v@.take(i + 1) =~= v@.take(i as int).push(v@[i as int]));
        }
        i = i + 1;
    }
    proof {
        assert(v@.take(v@.len() as int) =~= v@);
    }
    r
}

/// The stream demultiplexer.
///
/// It owns a fixed-capacity input buffer of raw, not yet parsed stream
/// bytes and a fixed-capacity packet buffer for the packet under
/// reassembly, plus the parse cursor over the currently adopted page.
pub struct Demux {
    crc: Crc,
    input: Vec<u8>,
    input_cap: usize,
    packet: Vec<u8>,
    packet_cap: usize,
    state: PacketState,
    page_adopted: bool,
    seg_index: usize,
    seg_offset: usize,
    seg_total: usize,
    page_size: usize,
    last_seq: u32,
}

impl View for Demux {
    type V = Model;

    closed spec fn view(&self) -> Model {
        Model {
            input: self.input@,
            icap: self.input_cap as int,
            packet: self.packet@,
            pcap: self.packet_cap as int,
            state: self.state,
            page: if self.page_adopted {
                Some(self.seg_index as int)
            } else {
                None
            },
            last_seq: self.last_seq,
        }
    }
}

impl Demux {
    /// The demultiplexer's internal consistency: buffers within capacity,
    /// the checksum table intact, and the parse cursor in step with the
    /// adopted page's lacing table.
    pub closed spec fn wf(&self) -> bool {
        &&& self.crc.wf()
        &&& self.input@.len() <= self.input_cap
        &&& self.packet@.len() <= self.packet_cap
        &&& self.page_adopted ==> {
            &&& page_valid(self.input@)
            &&& self.seg_total == seg_count(self.input@)
            &&& self.page_size == page_len(self.input@)
            &&& self.seg_index <= self.seg_total
            &&& self.seg_offset == seg_start(self.input@, self.seg_index as int)
        }
    }

    /// A well-formed demultiplexer's abstract state satisfies the model
    /// invariant.
    pub proof fn lemma_wf_inv(&self)
        requires
            self.wf(),
        ensures
            inv(self@),
    {
    }

    /// Create a demultiplexer with the given buffer capacities.
    pub fn new(input_capacity: usize, packet_capacity: usize) -> (d: Demux)
        requires
            input_capacity >= 1,
            packet_capacity >= 1,
        ensures
            d.wf(),
            d@ == (Model {
                input: Seq::<u8>::empty(),
                icap: input_capacity as int,
                packet: Seq::<u8>::empty(),
                pcap: packet_capacity as int,
                state: PacketState::New,
                page: None::<int>,
                last_seq: 0u32,
            }),
    {
        let d = Demux {
            crc: Crc::new(),
            input: Vec::new(),
            input_cap: input_capacity,
            packet: Vec::new(),
            packet_cap: packet_capacity,
            state: PacketState::New,
            page_adopted: false,
            seg_index: 0,
            seg_offset: 0,
            seg_total: 0,
            page_size: 0,
            last_seq: 0,
        };
        proof {
            assert(d@ =~= Model {
                input: Seq::<u8>::empty(),
                icap: input_capacity as int,
                packet: Seq::<u8>::empty(),
                pcap: packet_capacity as int,
                state: PacketState::New,
                page: None::<int>,
                last_seq: 0u32,
            });
        }
        d
    }

    /// Discard the adopted (or head) page's bytes from the input buffer
    /// and reset the cursor to "no page adopted".
    fn discard_page(&mut self)
        requires
            old(self).wf(),
        ensures
            final(self).wf(),
            final(self)@ == discard_model(old(self)@),
    {
        let r = find_capture_in(&self.input, 1);
        match r {
            Some(i) => shift_front(&mut self.input, i),
            None => self.input.clear(),
        }
        self.page_adopted = false;
        proof {
            assert(self@ =~= discard_model(old(self)@));
        }
    }

    /// Drop everything in the input buffer before the first capture
    /// pattern; keep a partial capture pattern at the tail.
    fn resync(&mut self)
        requires
            old(self).wf(),
        ensures
            final(self).wf(),
            final(self)@ == (Model { input: resync_seq(old(self)@.input), ..old(self)@ }),
    {
        let ghost s = self.input@;
        let r = find_capture_in(&self.input, 0);
        match r {
            Some(i) => {
                proof {
                    if self.page_adopted {
                        // an adopted page carries the capture pattern at
                        // its head, so nothing is shifted
                        assert(is_capture_at(s, 0));
                        lemma_find_capture_some(s, 0, i as int);
                        assert(i == 0);
                    }
                }
                shift_front(&mut self.input, i);
                proof {
                    if self.page_adopted {
                        assert(self.input@ =~= s);
                    }
                }
            },
            None => {
                proof {
                    if self.page_adopted {
                        assert(is_capture_at(s, 0));
                        lemma_find_capture_exact(s, 0, 0);
                        assert(false);
                    }
                }
                let len = self.input.len();
                let keep: usize = if len >= 3 && self.input[len - 3] == CAPTURE0 && self.input[len
                    - 2] == CAPTURE1 && self.input[len - 1] == CAPTURE2 {
                    3
                } else if len >= 2 && self.input[len - 2] == CAPTURE0 && self.input[len - 1]
                    == CAPTURE1 {
                    2
                } else if len >= 1 && self.input[len - 1] == CAPTURE0 {
                    1
                } else {
                    0
                };
                proof {
                    assert(keep == tail_keep(s));
                }
                shift_front(&mut self.input, len - keep);
            },
        }
        proof {
            assert(self@ =~= Model { input: resync_seq(old(self)@.input), ..old(self)@ });
        }
    }

    /// Attempt to adopt a page from the head of the input buffer,
    /// skipping past malformed headers and checksum failures.
    fn try_adopt(&mut self)
        requires
            old(self).wf(),
        ensures
            final(self).wf(),
            final(self)@ == adopt(old(self)@),
    {
        if self.page_adopted {
            return ;
        }
        loop
            invariant
                self.wf(),
                !self.page_adopted,
                adopt(self@) == adopt(old(self)@),
            decreases self.input@.len(),
        {
            let ghost m = self@;
            let len = self.input.len();
            if len < 27 {
                proof {
                    assert(adopt(m) == m);
                }
                return ;
            }
            let header_good = self.input[0] == CAPTURE0 && self.input[1] == CAPTURE1
                && self.input[2] == CAPTURE2 && self.input[3] == CAPTURE3 && self.input[4] == 0;
            if !header_good {
                proof {
                    assert(!header_ok(m.input));
                    assert(adopt(m) == adopt(discard_model(m)));
                    lemma_discard_shrinks(m.input);
                }
                self.discard_page();
                continue ;
            }
            proof {
                assert(header_ok(m.input));
            }
            let nsegs = self.input[26] as usize;
            proof {
                assert(nsegs == seg_count(m.input));
            }
            if len < 27 + nsegs {
                proof {
                    assert(adopt(m) == m);
                }
                return ;
            }
            // sum the lacing table
            let mut total: usize = 0;
            let mut k: usize = 0;
            while k < nsegs
                invariant
                    k <= nsegs,
                    self.input@ == m.input,
                    nsegs == seg_count(m.input),
                    m.input.len() >= 27 + nsegs,
                    total == lace_sum(m.input, k as int),
                    total <= 255 * k,
                decreases nsegs - k,
            {
                let b = self.input[27 + k];
                proof {
                    assert(b as int == lace(m.input, k as int));
                }
                total = total + b as usize;
                k = k + 1;
            }
            let psize = 27 + nsegs + total;
            proof {
                assert(psize == page_len(m.input));
            }
            if len < psize {
                proof {
                    assert(adopt(m) == m);
                }
                return ;
            }
            // validate the checksum: the page's bytes with the checksum
            // field zeroed, folded through the engine
            let a1 = self.crc.fold_range(0, &self.input, 0, 22);
            let a2 = self.crc.fold_zero4(a1);
            let a3 = self.crc.fold_range(a2, &self.input, 26, psize);
            let stored = le32_in(&self.input, 22);
            proof {
                let s = m.input;
                let za = s.subrange(0, 22);
                let zz = seq![0u8, 0u8, 0u8, 0u8];
                let zb = s.subrange(26, page_len(s));
                lemma_crc_fold_concat(0, za + zz, zb);
                lemma_crc_fold_concat(0, za, zz);
                assert(zeroed_page(s) == za + zz + zb);
                assert(a3 == crc_of(zeroed_page(s)));
                assert(stored == page_crc_of(s));
            }
            if stored != a3 {
                proof {
                    assert(!page_crc_ok(m.input));
                    assert(adopt(m) == adopt(discard_model(m)));
                    lemma_discard_shrinks(m.input);
                }
                self.discard_page();
                continue ;
            }
            // the page validates: adopt it
            let flags = self.input[5];
            let pseq = le32_in(&self.input, 18);
            if flags & 1 == 1 {
                if self.state == PacketState::Continued && pseq == self.last_seq.wrapping_add(1) {
                    self.state = PacketState::Continued;
                } else {
                    self.state = PacketState::Dropping;
                }
            } else {
                self.state = PacketState::New;
            }
            self.last_seq = pseq;
            self.page_adopted = true;
            self.seg_index = 0;
            self.seg_total = nsegs;
            self.page_size = psize;
            self.seg_offset = 27 + nsegs;
            proof {
                let s = m.input;
                assert(page_valid(s));
                assert(adopt(m) == adopt_page(m));
                assert(cont_flag(s) <==> (flags & 1 == 1));
                assert(pseq == page_seq_of(s));
                let prev = m.last_seq;
                assert(seq_next(prev) == prev.wrapping_add(1)) by (bit_vector);
                assert(lace_sum(s, 0) == 0);
                assert(self@ =~= adopt_page(m));
            }
            return ;
        }
    }

    /// Feed raw stream bytes to the demultiplexer; returns how many were
    /// admitted (the caller retries with the remainder).
    ///
    /// If the input buffer is already at capacity, the oldest page's
    /// bytes are evicted first. As many bytes as fit are then appended,
    /// the buffer is resynchronized on the capture pattern — junk before
    /// it is dropped, a partial capture pattern at the tail is kept — and
    /// a page parse is attempted.
    pub fn write(&mut self, data: &[u8]) -> (n: usize)
        requires
            old(self).wf(),
        ensures
            final(self).wf(),
            final(self)@ == write_model(old(self)@, data@).0,
            n as int == write_model(old(self)@, data@).1,
    {
        if self.input.len() == self.input_cap {
            self.discard_page();
        }
        let ghost m1 = evict_if_full(old(self)@);
        proof {
            assert(self@ =~= m1);
        }
        let room = self.input_cap - self.input.len();
        let take = if data.len() <= room {
            data.len()
        } else {
            room
        };
        let ghost appended = m1.input + data@.take(take as int);
        proof {
            if self.page_adopted {
                lemma_page_extend(self.input@, data@.take(take as int));
            }
        }
        append_limited(&mut self.input, data, take);
        proof {
            assert(self@ =~= Model { input: appended, ..m1 });
            if self.page_adopted {
                assert(self.wf());
            }
        }
        self.resync();
        proof {
            assert(self@ =~= Model { input: resync_seq(appended), ..m1 });
        }
        self.try_adopt();
        proof {
            assert(self@ =~= write_model(old(self)@, data@).0);
        }
        take
    }

    /// Retrieve the next fully reassembled packet, or nothing if more
    /// input is needed.
    ///
    /// Walks the adopted page's segments: each segment's bytes join the
    /// packet buffer (unless the packet is being dropped); a segment of
    /// exactly 255 bytes continues the packet, any other length
    /// terminates it and the packet is yielded. A packet whose bytes
    /// would overflow the packet buffer is dropped entirely. When a
    /// page's segments are exhausted the page is discarded and parsing
    /// resumes on the remaining input.
    pub fn next_packet(&mut self) -> (r: Option<Vec<u8>>)
        requires
            old(self).wf(),
        ensures
            final(self).wf(),
            final(self)@ == drain(old(self)@).0,
            match r {
                None => drain(old(self)@).1 is None,
                Some(v) => drain(old(self)@).1 == Some(v@),
            },
    {
        if !self.page_adopted {
            return None;
        }
        loop
            invariant
                self.wf(),
                self.page_adopted,
                drain(self@) == drain(old(self)@),
            decreases self.input@.len(), self.seg_total - self.seg_index,
        {
            let ghost m = self@;
            if self.seg_index == self.seg_total {
                // page exhausted: discard it and try to adopt the next
                proof {
                    lemma_discard_shrinks(m.input);
                    lemma_adopt_len(discard_model(m));
                }
                self.discard_page();
                self.try_adopt();
                if !self.page_adopted {
                    proof {
                        assert(drain(m) == (self@, None::<Seq<u8>>));
                    }
                    return None;
                }
                proof {
                    assert(drain(m) == drain(self@));
                }
            } else {
                let ghost s = m.input;
                let ghost idx = self.seg_index as int;
                proof {
                    lemma_lace_sum_bounds(s, seg_count(s));
                    assert(lace_sum(s, idx) <= lace_sum(s, seg_count(s)));
                    assert(lace_sum(s, idx + 1) <= lace_sum(s, seg_count(s)));
                    assert(lace_sum(s, idx + 1) == lace_sum(s, idx) + lace(s, idx));
                }
                let l = self.input[27 + self.seg_index] as usize;
                proof {
                    assert(l == lace(s, idx));
                }
                let ghost p0 = if m.state is New {
                    Seq::<u8>::empty()
                } else {
                    m.packet
                };
                if self.state == PacketState::New {
                    self.packet.clear();
                }
                proof {
                    assert(self.packet@ == p0);
                }
                let mut dropping = self.state == PacketState::Dropping;
                if !dropping {
                    if l <= self.packet_cap - self.packet.len() {
                        append_segment(&mut self.packet, &self.input, self.seg_offset, l);
                    } else {
                        dropping = true;
                    }
                }
                let ghost was_dropping = m.state is Dropping || p0.len() + lace(s, idx) > m.pcap;
                let ghost p1 = if was_dropping {
                    p0
                } else {
                    p0 + seg_bytes(s, idx)
                };
                proof {
                    assert(dropping == was_dropping);
                    assert(self.packet@ == p1);
                }
                self.seg_offset = self.seg_offset + l;
                self.seg_index = self.seg_index + 1;
                if l == 255 {
                    if dropping {
                        self.state = PacketState::Dropping;
                    } else {
                        self.state = PacketState::Continued;
                    }
                    proof {
                        let st = if was_dropping {
                            PacketState::Dropping
                        } else {
                            PacketState::Continued
                        };
                        assert(self@ =~= Model { packet: p1, state: st, page: Some(idx + 1), ..m });
                        assert(drain(m) == drain(self@));
                    }
                } else if dropping {
                    self.state = PacketState::New;
                    proof {
                        assert(self@ =~= Model {
                            packet: p1,
                            state: PacketState::New,
                            page: Some(idx + 1),
                            ..m
                        });
                        assert(drain(m) == drain(self@));
                    }
                } else {
                    self.state = PacketState::New;
                    let out = copy_bytes(&self.packet);
                    proof {
                        assert(self@ =~= Model {
                            packet: p1,
                            state: PacketState::New,
                            page: Some(idx + 1),
                            ..m
                        });
                        assert(drain(m) == (self@, Some(p1)));
                    }
                    return Some(out);
                }
            }
        }
    }

    /// The number of raw bytes currently held in the input buffer.
    pub fn buffered(&self) -> (n: usize)
        ensures
            n as int == self@.input.len(),
    {
        self.input.len()
    }
}

/// Append to `v` the first `take` bytes of `data`.
fn append_limited(v: &mut Vec<u8>, data: &[u8], take: usize)
    requires
        take <= data@.len(),
        old(v)@.len() + take <= usize::MAX,
    ensures
        final(v)@ == old(v)@ + data@.take(take as int),
{
    proof {
        assert(old(v)@ + data@.take(0) =~= old(v)@);
    }
    let mut i: usize = 0;
    while i < take
        invariant
            i <= take <= data@.len(),
            v@ == old(v)@ + data@.take(i as int),
        decreases take - i,
    {
        let b = *slice_index_get(data, i);
        proof {
            assert(old(v)@ + data@.take(i + 1) =~= (old(v)@ + data@.take(i as int)).push(
                data@[i as int],
            ));
        }
        v.push(b);
        i = i + 1;
    }
}

/// Append to `packet` the bytes `input[start..start + l]`.
fn append_segment(packet: &mut Vec<u8>, input: &Vec<u8>, start: usize, l: usize)
    requires
        start + l <= input@.len(),
        old(packet)@.len() + l <= usize::MAX,
    ensures
        final(packet)@ == old(packet)@ + input@.subrange(start as int, start + l),
{
    let n = input.len();
    proof {
        assert(start + l <= n);
        assert(old(packet)@ + input@.subrange(start as int, start as int) =~= old(packet)@);
    }
    let mut j: usize = 0;
    while j < l
        invariant
            j <= l,
            start + l <= input@.len() <= usize::MAX,
            packet@ == old(packet)@ + input@.subrange(start as int, start + j),
        decreases l - j,
    {
        let b = input[start + j];
        proof {
            assert(old(packet)@ + input@.subrange(start as int, start + j + 1) =~= (old(packet)@
                + input@.subrange(start as int, start + j)).push(input@[start + j]));
        }
        packet.push(b);
        j = j + 1;
    }
}

} // verus!
