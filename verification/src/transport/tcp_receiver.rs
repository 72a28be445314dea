//! The TCP receive path: gate intake on the first SYN, translate wire
//! sequence numbers to absolute stream offsets, feed payloads to the
//! stream reassembler, and report the acknowledgment number and advertised
//! window back to the sender.

use vstd::prelude::*;

verus! {

use crate::transport::tcp_segment::{TcpCtrlFlag, TcpSegment};
use crate::utils::stream_reassemble::{
    spec_recv,
    total_seg_len,
    lemma_capacity_ceiling,
    lemma_total_seg_len_nonneg,
    ReassemblerView,
    StreamReassembler,
};
use vstd::arithmetic::div_mod::lemma_fundamental_div_mod;

/// The receiver as the contracts see it: the initial sequence number, the
/// SYN gate, the configured capacity and the reassembler state.
#[verifier::ext_equal]
pub ghost struct ReceiverView {
    pub initial_seq: u32,
    pub established: bool,
    pub capacity: int,
    pub stream: ReassemblerView,
}

impl ReceiverView {
    /// Well-formedness: the reassembler is well formed, carries the
    /// receiver's capacity, and that capacity fits the advertised window.
    pub open spec fn wf(self) -> bool {
        &&& self.stream.wf()
        &&& self.stream.capacity == self.capacity
        &&& 0 <= self.capacity <= u32::MAX
    }
}

/// The unique absolute offset congruent to `rel - init` modulo `2^32` that
/// lies in `[ref_pt, ref_pt + 2^32)`.  Correct resolution assumes the true
/// displacement from the reference point stays under one full wrap of the
/// 32-bit sequence space.
pub open spec fn spec_rel_to_abs(init: u32, rel: u32, ref_pt: int) -> int {
    let delta = (rel - init) % 0x1_0000_0000;
    let round = ref_pt / 0x1_0000_0000;
    let rel_ref = ref_pt % 0x1_0000_0000;
    if delta >= rel_ref {
        round * 0x1_0000_0000 + delta
    } else {
        (round + 1) * 0x1_0000_0000 + delta
    }
}

/// The wire sequence number of absolute offset `abs`: the initial sequence
/// number advanced by `abs`, wrapping modulo `2^32`.
pub open spec fn spec_abs_to_rel(init: u32, abs: int) -> u32 {
    ((init + abs % 0x1_0000_0000) % 0x1_0000_0000) as u32
}

/// The resolved offset falls in the window of one wrap starting at the
/// reference point, and is congruent to the wire displacement.
pub proof fn lemma_rel_to_abs_range(init: u32, rel: u32, ref_pt: int)
    requires
        0 <= ref_pt,
    ensures
        ref_pt <= spec_rel_to_abs(init, rel, ref_pt) < ref_pt + 0x1_0000_0000,
        spec_rel_to_abs(init, rel, ref_pt) % 0x1_0000_0000 == (rel - init) % 0x1_0000_0000,
{
    let m = 0x1_0000_0000;
    let delta = (rel - init) % m;
    let round = ref_pt / m;
    let rel_ref = ref_pt % m;
    lemma_fundamental_div_mod(ref_pt, m);
    lemma_fundamental_div_mod(rel - init, m);
    let r = spec_rel_to_abs(init, rel, ref_pt);
    if delta >= rel_ref {
        assert(r == ref_pt - rel_ref + delta);
        vstd::arithmetic::div_mod::lemma_mod_multiples_vanish(round, delta, m);
    } else {
        assert(r == ref_pt - rel_ref + m + delta);
        vstd::arithmetic::div_mod::lemma_mod_multiples_vanish(round + 1, delta, m);
    }
}

/// Translator round trip: with the reference point at `a` itself, the wire
/// number written for absolute offset `a` resolves back to exactly `a`.
pub proof fn lemma_translator_round_trip(init: u32, a: u64)
    ensures
        spec_rel_to_abs(init, spec_abs_to_rel(init, a as int), a as int) == a,
{
    let m = 0x1_0000_0000;
    let x = (a as int) % m;
    lemma_fundamental_div_mod(a as int, m);
    let rel = spec_abs_to_rel(init, a as int);
    assert(rel == (init + x) % m);
    let delta = (rel - init) % m;
    assert(delta == x) by {
        if init + x < m {
            assert(rel == init + x);
            vstd::arithmetic::div_mod::lemma_mod_multiples_vanish(0, x, m);
        } else {
            assert((init + x) % m == init + x - m) by {
                lemma_fundamental_div_mod(init + x, m);
                vstd::arithmetic::div_mod::lemma_mod_multiples_vanish(1, init + x - m, m);
            }
            assert(rel == init + x - m);
            vstd::arithmetic::div_mod::lemma_mod_multiples_vanish(-1, x, m);
        }
    }
    assert(delta >= (a as int) % m);
    assert(spec_rel_to_abs(init, rel, a as int) == (a as int / m) * m + x);
}

/// The receive side of one TCP connection.
pub struct TcpReceiver {
    initial_seq: u32,
    syn_flag: bool,
    capacity: usize,
    reassembler: StreamReassembler,
}

impl View for TcpReceiver {
    type V = ReceiverView;

    closed spec fn view(&self) -> ReceiverView {
        ReceiverView {
            initial_seq: self.initial_seq,
            established: self.syn_flag,
            capacity: self.capacity as int,
            stream: self.reassembler@,
        }
    }
}

impl TcpReceiver {
    /// A fresh receiver: not yet established, with an empty reassembler of
    /// the given capacity.  The initial sequence number is provisional
    /// until the first SYN overwrites it.
    pub fn new(initial_seq: u32, capacity: usize) -> (r: Self)
        requires
            capacity <= u32::MAX,
        ensures
            r@ == (ReceiverView {
                initial_seq,
                established: false,
                capacity: capacity as int,
                stream: ReassemblerView {
                    assembled: Seq::<u8>::empty(),
                    frontier: 0,
                    segs: Seq::<(int, Seq<u8>)>::empty(),
                    capacity: capacity as int,
                    eof: usize::MAX as int,
                },
            }),
            r@.wf(),
    {
        TcpReceiver {
            initial_seq,
            syn_flag: false,
            capacity,
            reassembler: StreamReassembler::new(capacity),
        }
    }

    /// Take in one decoded segment.
    ///
    /// Before establishment, a segment without SYN is dropped with no
    /// change at all; the first SYN fixes the initial sequence number and
    /// establishes the connection.  Every accepted segment has its
    /// sequence number resolved against the current frontier and its
    /// payload and FIN flag handed to the reassembler.
    pub fn segment_received(&mut self, segment: &TcpSegment)
        requires
            old(self)@.wf(),
            old(self)@.stream.frontier + 0x1_0000_0000 + segment.data@.len() <= usize::MAX,
        ensures
            final(self)@.wf(),
            !old(self)@.established && !segment.has_flag(TcpCtrlFlag::SYN) ==> final(self)@ == old(
                self,
            )@,
            old(self)@.established || segment.has_flag(TcpCtrlFlag::SYN) ==> ({
                let init = if old(self)@.established {
                    old(self)@.initial_seq
                } else {
                    segment.seq
                };
                let abs = spec_rel_to_abs(init, segment.seq, old(self)@.stream.frontier);
                &&& final(self)@.established
                &&& final(self)@.initial_seq == init
                &&& final(self)@.capacity == old(self)@.capacity
                &&& final(self)@.stream == spec_recv(
                    old(self)@.stream,
                    segment.data@,
                    abs,
                    segment.has_flag(TcpCtrlFlag::FIN),
                )
            }),
    {
        if !self.syn_flag {
            if !segment.SYN() {
                return;
            }
            self.syn_flag = true;
            self.initial_seq = segment.seq;
        }
        let recent = self.reassembler.assembled_cnt();
        proof {
            lemma_rel_to_abs_range(self.initial_seq, segment.seq, recent as int);
        }
        let abs64 = Self::rel_offset_to_abs(self.initial_seq, segment.seq, recent);
        let abs_offset: usize = abs64.try_into().unwrap();
        self.reassembler.recv(segment.data.as_slice(), abs_offset, segment.FIN());
    }

    /// The next byte the sender should transmit, as a wire sequence
    /// number: the frontier translated back through the initial sequence
    /// number.
    pub fn ack_num(&self) -> (r: u32)
        ensures
            r == spec_abs_to_rel(self@.initial_seq, self@.stream.frontier),
    {
        Self::abs_offset_to_rel(self.initial_seq, self.reassembler.assembled_cnt())
    }

    /// The window advertised to the sender: capacity not taken up by
    /// undrained assembled bytes or buffered ranges.
    pub fn window_size(&self) -> (r: u32)
        requires
            self@.wf(),
        ensures
            r as int == self@.stream.capacity - self@.stream.assembled.len() - total_seg_len(
                self@.stream.segs,
            ),
    {
        let w = self.reassembler.unassembled_window_size();
        proof {
            lemma_capacity_ceiling(self@.stream);
            lemma_total_seg_len_nonneg(self@.stream.segs);
        }
        w as u32
    }

    /// Resolve a wire sequence number to the absolute offset within one
    /// wrap above the reference point.
    pub fn rel_offset_to_abs(initial_seq: u32, rel_offset: u32, recent_point: u64) -> (r: u64)
        requires
            recent_point <= u64::MAX - 0x1_0000_0000,
        ensures
            r as int == spec_rel_to_abs(initial_seq, rel_offset, recent_point as int),
            recent_point <= r < recent_point + 0x1_0000_0000,
    {
        let offset_this_round: u64 = rel_offset.wrapping_sub(initial_seq) as u64;
        let round_cnt: u64 = recent_point / 0x1_0000_0000u64;
        let rel_of_recent_point: u64 = recent_point % 0x1_0000_0000u64;
        proof {
            lemma_rel_to_abs_range(initial_seq, rel_offset, recent_point as int);
            lemma_fundamental_div_mod(recent_point as int, 0x1_0000_0000);
            assert(offset_this_round as int == (rel_offset - initial_seq) % 0x1_0000_0000) by {
                if rel_offset >= initial_seq {
                    vstd::arithmetic::div_mod::lemma_mod_multiples_vanish(
                        0,
                        rel_offset - initial_seq,
                        0x1_0000_0000,
                    );
                } else {
                    vstd::arithmetic::div_mod::lemma_mod_multiples_vanish(
                        -1,
                        rel_offset - initial_seq + 0x1_0000_0000,
                        0x1_0000_0000,
                    );
                }
            }
        }
        if offset_this_round >= rel_of_recent_point {
            offset_this_round + round_cnt * 0x1_0000_0000u64
        } else {
            offset_this_round + (round_cnt + 1) * 0x1_0000_0000u64
        }
    }

    /// Project an absolute offset back onto the wire: the initial sequence
    /// number advanced by the offset, wrapping.
    pub fn abs_offset_to_rel(initial_seq: u32, abs_offset: u64) -> (r: u32)
        ensures
            r == spec_abs_to_rel(initial_seq, abs_offset as int),
    {
        let low = (abs_offset % 0x1_0000_0000u64) as u32;
        let r = initial_seq.wrapping_add(low);
        proof {
            if initial_seq + low < 0x1_0000_0000 {
                vstd::arithmetic::div_mod::lemma_mod_multiples_vanish(
                    0,
                    initial_seq + low,
                    0x1_0000_0000,
                );
            } else {
                vstd::arithmetic::div_mod::lemma_mod_multiples_vanish(
                    1,
                    initial_seq + low - 0x1_0000_0000,
                    0x1_0000_0000,
                );
            }
        }
        r
    }
}

} // verus!
