//! Reassembly of a byte stream from ranges that may arrive out of order,
//! overlapping, or duplicated.
//!
//! The reassembler keeps an in-order `assembled` buffer up to a frontier
//! offset, and a sorted window of disjoint, non-touching byte ranges that
//! arrived beyond the frontier.  A fixed capacity bounds the undrained
//! assembled bytes plus the buffered ranges; a range whose tail would not
//! fit is dropped whole.

use vstd::prelude::*;

verus! {

use crate::utils::trans_bytes::push_bytes;

/// The start offset of a buffered range.
pub open spec fn seg_start(s: (int, Seq<u8>)) -> int {
    s.0
}

/// One past the last offset of a buffered range.
pub open spec fn seg_end(s: (int, Seq<u8>)) -> int {
    s.0 + s.1.len()
}

/// The reassembler as the contracts see it: the drain buffer, the frontier,
/// the buffered ranges in ascending order, the capacity, and the recorded
/// end-of-stream offset (`usize::MAX` while none has been seen).
#[verifier::ext_equal]
pub ghost struct ReassemblerView {
    pub assembled: Seq<u8>,
    pub frontier: int,
    pub segs: Seq<(int, Seq<u8>)>,
    pub capacity: int,
    pub eof: int,
}

impl ReassemblerView {
    /// Bytes that may still be admitted beyond the frontier.
    pub open spec fn avail(self) -> int {
        self.capacity - self.assembled.len()
    }

    /// Well-formedness: the assembled buffer never exceeds the frontier or
    /// the capacity, and the buffered ranges are non-empty, strictly beyond
    /// the frontier, within the admissible window, and strictly separated
    /// in ascending order.
    pub open spec fn wf(self) -> bool {
        &&& 0 <= self.assembled.len() <= self.frontier
        &&& self.assembled.len() <= self.capacity
        &&& self.frontier <= usize::MAX
        &&& 0 <= self.capacity
        &&& 0 <= self.eof <= usize::MAX
        &&& forall|i: int|
            0 <= i < self.segs.len() ==> (#[trigger] self.segs[i]).1.len() > 0
        &&& forall|i: int|
            0 <= i < self.segs.len() ==> self.frontier < (#[trigger] self.segs[i]).0
        &&& forall|i: int|
            0 <= i < self.segs.len() ==> seg_end(#[trigger] self.segs[i]) <= self.frontier
                + self.avail()
        &&& forall|i: int|
            0 <= i < self.segs.len() ==> seg_end(#[trigger] self.segs[i]) <= usize::MAX
        &&& forall|i: int, j: int|
            #![trigger self.segs[i], self.segs[j]]
            0 <= i < j < self.segs.len() ==> seg_end(self.segs[i]) < seg_start(self.segs[j])
    }
}

/// Total number of bytes held by the buffered ranges.
pub open spec fn total_seg_len(segs: Seq<(int, Seq<u8>)>) -> int
    decreases segs.len(),
{
    if segs.len() == 0 {
        0
    } else {
        total_seg_len(segs.drop_last()) + segs.last().1.len()
    }
}

/// How many leading ranges end strictly before `x`.
pub open spec fn count_end_below(segs: Seq<(int, Seq<u8>)>, x: int) -> int
    decreases segs.len(),
{
    if segs.len() == 0 {
        0
    } else if seg_end(segs[0]) < x {
        1 + count_end_below(segs.drop_first(), x)
    } else {
        0
    }
}

/// How many leading ranges start at or before `x`.
pub open spec fn count_start_at_or_below(segs: Seq<(int, Seq<u8>)>, x: int) -> int
    decreases segs.len(),
{
    if segs.len() == 0 {
        0
    } else if seg_start(segs[0]) <= x {
        1 + count_start_at_or_below(segs.drop_first(), x)
    } else {
        0
    }
}

/// The window after splicing a new range at `offset` holding `data` into
/// the sorted window `segs`: every stored range that overlaps or touches
/// the new one is folded with it into a single spanning range, keyed by the
/// smallest start involved; the new bytes win wherever they overlap stored
/// ones, and only the stored prefix before `offset` and the stored suffix
/// past the new end survive from the old ranges.
pub open spec fn insert_coalesce(
    segs: Seq<(int, Seq<u8>)>,
    offset: int,
    data: Seq<u8>,
) -> Seq<(int, Seq<u8>)> {
    let e = offset + data.len();
    let lo = count_end_below(segs, offset);
    let hi = lo + count_start_at_or_below(segs.skip(lo), e);
    if lo == hi {
        segs.take(lo) + seq![(offset, data)] + segs.skip(lo)
    } else {
        let first = segs[lo];
        let last = segs[hi - 1];
        let st = if first.0 < offset {
            first.0
        } else {
            offset
        };
        let bytes = (if first.0 < offset {
            first.1.take(offset - first.0)
        } else {
            Seq::<u8>::empty()
        }) + data + (if seg_end(last) > e {
            last.1.skip(e - last.0)
        } else {
            Seq::<u8>::empty()
        });
        segs.take(lo) + seq![(st, bytes)] + segs.skip(hi)
    }
}

/// The state after a range at `offset` that reaches past the frontier goes
/// straight into the assembled buffer: its tail beyond the frontier is
/// appended, every stored range starting at or before its end is consumed,
/// and the one such range that may reach further extends the frontier with
/// its own tail.
pub open spec fn spec_assemble(m: ReassemblerView, data: Seq<u8>, offset: int) -> ReassemblerView {
    let e = offset + data.len();
    let n = count_start_at_or_below(m.segs, e);
    let asm1 = m.assembled + data.skip(m.frontier - offset);
    if n > 0 && seg_end(m.segs[n - 1]) > e {
        let b = m.segs[n - 1];
        ReassemblerView {
            assembled: asm1 + b.1.skip(e - b.0),
            frontier: seg_end(b),
            segs: m.segs.skip(n),
            ..m
        }
    } else {
        ReassemblerView { assembled: asm1, frontier: e, segs: m.segs.skip(n), ..m }
    }
}

/// Record the end of the stream at the current frontier.
pub open spec fn with_eof(m: ReassemblerView, eof: bool) -> ReassemblerView {
    if eof {
        ReassemblerView { eof: m.frontier, ..m }
    } else {
        m
    }
}

/// What one `recv` call does, as a function of the prior state: an empty
/// range only records the end of stream; a range whose end does not fit the
/// admissible window is dropped without any effect; a range entirely below
/// the frontier is a duplicate and only records the end of stream; a range
/// reaching the frontier extends the assembled buffer (cascading into the
/// buffered window); and a range beyond the frontier is spliced into the
/// window.
pub open spec fn spec_recv(
    m: ReassemblerView,
    data: Seq<u8>,
    offset: int,
    eof: bool,
) -> ReassemblerView {
    let e = offset + data.len();
    if data.len() == 0 {
        with_eof(m, eof)
    } else if e > m.frontier + m.avail() {
        m
    } else if e <= m.frontier {
        with_eof(m, eof)
    } else if offset <= m.frontier {
        with_eof(spec_assemble(m, data, offset), eof)
    } else {
        with_eof(
            ReassemblerView { segs: insert_coalesce(m.segs, offset, data), ..m },
            eof,
        )
    }
}

/// Turns submitted byte ranges, keyed by absolute stream offset, back into
/// one in-order stream under a fixed capacity.
pub struct StreamReassembler {
    unassembled_window: Vec<(usize, Vec<u8>)>,
    assembled_window: Vec<u8>,
    next_to_be_assembled: usize,
    buffer_window_size: usize,
    /// Offset recorded when a submission carried the end-of-stream flag;
    /// `usize::MAX` while none has.
    pub eof_idx: usize,
}

impl View for StreamReassembler {
    type V = ReassemblerView;

    closed spec fn view(&self) -> ReassemblerView {
        ReassemblerView {
            assembled: self.assembled_window@,
            frontier: self.next_to_be_assembled as int,
            segs: Seq::new(
                self.unassembled_window@.len(),
                |i: int| (self.unassembled_window@[i].0 as int, self.unassembled_window@[i].1@),
            ),
            capacity: self.buffer_window_size as int,
            eof: self.eof_idx as int,
        }
    }
}

impl StreamReassembler {
    /// A fresh reassembler: empty buffers, frontier at zero, no end of
    /// stream seen, and the given capacity.
    pub fn new(buffer_window_size: usize) -> (r: Self)
        ensures
            r@ == (ReassemblerView {
                assembled: Seq::<u8>::empty(),
                frontier: 0,
                segs: Seq::<(int, Seq<u8>)>::empty(),
                capacity: buffer_window_size as int,
                eof: usize::MAX as int,
            }),
            r@.wf(),
    {
        let r = StreamReassembler {
            unassembled_window: Vec::new(),
            assembled_window: Vec::new(),
            next_to_be_assembled: 0,
            eof_idx: usize::MAX,
            buffer_window_size,
        };
        proof {
            assert(r@.segs =~= Seq::<(int, Seq<u8>)>::empty());
        }
        r
    }

    /// The in-order bytes received so far and not yet drained.
    pub fn view_assembled(&self) -> (r: &[u8])
        ensures
            r@ == self@.assembled,
    {
        self.assembled_window.as_slice()
    }

    /// Drain the in-order bytes, freeing their share of the capacity.
    pub fn get_and_remove_assembled(&mut self) -> (r: Vec<u8>)
        ensures
            r@ == old(self)@.assembled,
            final(self)@ == (ReassemblerView { assembled: Seq::<u8>::empty(), ..old(self)@ }),
            old(self)@.wf() ==> final(self)@.wf(),
    {
        let mut result: Vec<u8> = Vec::new();
        result.append(&mut self.assembled_window);
        result
    }

    /// The frontier: how many bytes of the stream have been delivered in
    /// order since the start.
    pub fn assembled_cnt(&self) -> (r: u64)
        ensures
            r as int == self@.frontier,
    {
        self.next_to_be_assembled as u64
    }

    /// Capacity still open for buffering: the configured bound minus the
    /// undrained assembled bytes and the buffered range bytes.
    pub fn unassembled_window_size(&self) -> (r: usize)
        requires
            self@.wf(),
        ensures
            r as int == self@.capacity - self@.assembled.len() - total_seg_len(self@.segs),
    {
        let n = self.unassembled_window.len();
        let mut total: usize = 0;
        let mut i: usize = 0;
        proof {
            assert(self@.segs.take(0) =~= Seq::<(int, Seq<u8>)>::empty());
        }
        while i < n
            invariant
                self@.wf(),
                n == self@.segs.len(),
                i <= n,
                total == total_seg_len(self@.segs.take(i as int)),
                total <= self@.avail(),
            decreases n - i,
        {
            proof {
                lemma_total_within(self@.segs.take(i + 1), self@.frontier + 1, self@.frontier
                    + self@.avail());
                assert(self@.segs.take(i + 1).drop_last() =~= self@.segs.take(i as int));
                assert(self@.segs.take(i + 1).last() == self@.segs[i as int]);
            }
            let len_i = self.unassembled_window[i].1.len();
            total += len_i;
            i += 1;
        }
        proof {
            assert(self@.segs.take(n as int) =~= self@.segs);
            lemma_capacity_ceiling(self@);
        }
        self.buffer_window_size - self.assembled_window.len() - total
    }
}

impl StreamReassembler {
    /// Number of leading stored ranges that start at or before `x`.
    fn count_starts_at_or_below(&self, x: usize) -> (n: usize)
        ensures
            n as int == count_start_at_or_below(self@.segs, x as int),
            n <= self@.segs.len(),
    {
        let n_win = self.unassembled_window.len();
        let mut n: usize = 0;
        while n < n_win && self.unassembled_window[n].0 <= x
            invariant
                n <= n_win,
                n_win == self@.segs.len(),
                forall|i: int| 0 <= i < n ==> seg_start(#[trigger] self@.segs[i]) <= x,
            decreases n_win - n,
        {
            n += 1;
        }
        proof {
            lemma_count_start_at_or_below_char(self@.segs, x as int);
            let c = count_start_at_or_below(self@.segs, x as int);
            if c < n {
                assert(seg_start(self@.segs[c]) <= x);
            }
            if c > n {
                assert(seg_start(self@.segs[n as int]) <= x);
            }
        }
        n
    }

    /// Number of leading stored ranges that end strictly before `x`.
    fn count_ends_below(&self, x: usize) -> (n: usize)
        requires
            self@.wf(),
        ensures
            n as int == count_end_below(self@.segs, x as int),
            n <= self@.segs.len(),
    {
        let n_win = self.unassembled_window.len();
        let mut n: usize = 0;
        proof {
            assert forall|i: int|
                0 <= i < n_win implies (#[trigger] self.unassembled_window@[i]).0
                + self.unassembled_window@[i].1@.len() <= usize::MAX by {
                assert(seg_end(self@.segs[i]) <= usize::MAX);
            }
        }
        while n < n_win && self.unassembled_window[n].0 + self.unassembled_window[n].1.len() < x
            invariant
                n <= n_win,
                n_win == self@.segs.len(),
                self@.wf(),
                forall|i: int|
                    0 <= i < n_win ==> (#[trigger] self.unassembled_window@[i]).0
                        + self.unassembled_window@[i].1@.len() <= usize::MAX,
                forall|i: int| 0 <= i < n ==> seg_end(#[trigger] self@.segs[i]) < x,
            decreases n_win - n,
        {
            n += 1;
        }
        proof {
            lemma_count_end_below_char(self@.segs, x as int);
            let c = count_end_below(self@.segs, x as int);
            if c < n {
                assert(seg_end(self@.segs[c]) < x);
            }
            if c > n {
                assert(seg_end(self@.segs[n as int]) < x);
            }
        }
        n
    }

    /// Drop `count` stored ranges starting at position `at`.
    fn remove_segs(&mut self, at: usize, count: usize)
        requires
            at + count <= old(self)@.segs.len(),
        ensures
            final(self)@ == (ReassemblerView {
                segs: old(self)@.segs.take(at as int) + old(self)@.segs.skip(at + count),
                ..old(self)@
            }),
    {
        let mut r: usize = 0;
        while r < count
            invariant
                r <= count,
                at + count <= old(self).unassembled_window@.len(),
                self.unassembled_window@.len() == old(self).unassembled_window@.len() - r,
                forall|i: int|
                    0 <= i < at ==> #[trigger] self.unassembled_window@[i] == old(
                        self,
                    ).unassembled_window@[i],
                forall|i: int|
                    at <= i < self.unassembled_window@.len()
                        ==> #[trigger] self.unassembled_window@[i] == old(
                        self,
                    ).unassembled_window@[i + r],
                self.assembled_window@ == old(self).assembled_window@,
                self.next_to_be_assembled == old(self).next_to_be_assembled,
                self.buffer_window_size == old(self).buffer_window_size,
                self.eof_idx == old(self).eof_idx,
            decreases count - r,
        {
            self.unassembled_window.remove(at);
            r += 1;
        }
        proof {
            let expect = old(self)@.segs.take(at as int) + old(self)@.segs.skip(at + count);
            assert forall|i: int| 0 <= i < self@.segs.len() implies self@.segs[i] == expect[i] by {
                if i < at {
                    assert(self.unassembled_window@[i] == old(self).unassembled_window@[i]);
                } else {
                    assert(self.unassembled_window@[i] == old(self).unassembled_window@[i + count]);
                }
            }
            assert(self@.segs =~= expect);
            assert(self@ =~= (ReassemblerView { segs: expect, ..old(self)@ }));
        }
    }

    /// Store one range at position `at`.
    fn insert_seg_at(&mut self, at: usize, seg_offset: usize, seg_bytes: Vec<u8>)
        requires
            at <= old(self)@.segs.len(),
        ensures
            final(self)@ == (ReassemblerView {
                segs: old(self)@.segs.insert(at as int, (seg_offset as int, seg_bytes@)),
                ..old(self)@
            }),
    {
        self.unassembled_window.insert(at, (seg_offset, seg_bytes));
        proof {
            let expect = old(self)@.segs.insert(at as int, (seg_offset as int, seg_bytes@));
            assert forall|i: int| 0 <= i < self@.segs.len() implies self@.segs[i] == expect[i] by {
                if i < at {
                    assert(self.unassembled_window@[i] == old(self).unassembled_window@[i]);
                } else if i == at {
                    assert(self.unassembled_window@[i] == (seg_offset, seg_bytes));
                } else {
                    assert(self.unassembled_window@[i] == old(self).unassembled_window@[i - 1]);
                }
            }
            assert(self@.segs =~= expect);
            assert(self@ =~= (ReassemblerView { segs: expect, ..old(self)@ }));
        }
    }

    /// A range that reaches the frontier goes straight into the assembled
    /// buffer; the stored ranges it now connects to follow it there.
    fn merge_to_assembled(&mut self, data: &[u8], offset: usize)
        requires
            old(self)@.wf(),
            offset <= old(self)@.frontier,
            old(self)@.frontier < offset + data@.len(),
            offset + data@.len() <= old(self)@.frontier + old(self)@.avail(),
            offset + data@.len() <= usize::MAX,
        ensures
            final(self)@ == spec_assemble(old(self)@, data@, offset as int),
    {
        let ghost m0 = self@;
        let f1 = offset + data.len();
        let n = self.count_starts_at_or_below(f1);
        proof {
            lemma_count_start_at_or_below_char(m0.segs, f1 as int);
        }
        let start_idx = self.next_to_be_assembled - offset;
        push_bytes(&mut self.assembled_window, data, start_idx, data.len());
        self.next_to_be_assembled = f1;
        proof {
            assert(data@.subrange(m0.frontier - offset, data@.len() as int) =~= data@.skip(
                m0.frontier - offset,
            ));
        }
        if n > 0 {
            let b_start = self.unassembled_window[n - 1].0;
            let b_len = self.unassembled_window[n - 1].1.len();
            proof {
                assert(seg_end(m0.segs[n - 1]) <= usize::MAX);
                assert(seg_start(m0.segs[n - 1]) <= f1);
            }
            if b_start + b_len > f1 {
                push_bytes(
                    &mut self.assembled_window,
                    self.unassembled_window[n - 1].1.as_slice(),
                    f1 - b_start,
                    b_len,
                );
                self.next_to_be_assembled = b_start + b_len;
                proof {
                    let b = m0.segs[n - 1];
                    assert(b.1.subrange(f1 - b.0, b.1.len() as int) =~= b.1.skip(f1 - b.0));
                }
            }
        }
        self.remove_segs(0, n);
        proof {
            assert(m0.segs.take(0) + m0.segs.skip(n as int) =~= m0.segs.skip(n as int));
            assert(self@ =~= spec_assemble(m0, data@, offset as int));
        }
    }

    /// A range beyond the frontier is spliced into the stored window,
    /// folding every stored range it overlaps or touches into one.
    fn merge_from_unassemble(&mut self, data: &[u8], offset: usize)
        requires
            old(self)@.wf(),
            old(self)@.frontier < offset,
            data@.len() > 0,
            offset + data@.len() <= old(self)@.frontier + old(self)@.avail(),
            offset + data@.len() <= usize::MAX,
        ensures
            final(self)@ == (ReassemblerView {
                segs: insert_coalesce(old(self)@.segs, offset as int, data@),
                ..old(self)@
            }),
    {
        let ghost m0 = self@;
        let e = offset + data.len();
        let lo = self.count_ends_below(offset);
        proof {
            lemma_coalesce_bounds(m0, offset as int, data@);
            lemma_count_start_at_or_below_char(m0.segs.skip(lo as int), e as int);
            assert(forall|i: int|
                0 <= i < m0.segs.skip(lo as int).len() ==> m0.segs.skip(lo as int)[i] == m0.segs[
                    lo + i
                ]);
        }
        let n_win = self.unassembled_window.len();
        let mut merged_st = offset;
        let mut merged: Vec<u8> = Vec::new();
        let mut hi = lo;
        let ghost run = lo < n_win && seg_start(m0.segs[lo as int]) <= e;
        if lo < n_win && self.unassembled_window[lo].0 <= e {
            let first_start = self.unassembled_window[lo].0;
            if first_start < offset {
                merged_st = first_start;
                proof {
                    assert(seg_end(m0.segs[lo as int]) >= offset);
                }
                push_bytes(
                    &mut merged,
                    self.unassembled_window[lo].1.as_slice(),
                    0,
                    offset - first_start,
                );
            }
            push_bytes(&mut merged, data, 0, data.len());
            proof {
                assert(data@.subrange(0, data@.len() as int) =~= data@);
            }
            hi = lo + 1;
            while hi < n_win && self.unassembled_window[hi].0 <= e
                invariant
                    lo < hi <= n_win,
                    n_win == m0.segs.len(),
                    m0 == self@,
                    forall|i: int| lo <= i < hi ==> seg_start(#[trigger] m0.segs[i]) <= e,
                decreases n_win - hi,
            {
                hi += 1;
            }
            proof {
                let c = count_start_at_or_below(m0.segs.skip(lo as int), e as int);
                if c < hi - lo {
                    assert(seg_start(m0.segs[lo + c]) <= e);
                    assert(seg_start(m0.segs.skip(lo as int)[c]) > e);
                }
                if c > hi - lo {
                    assert(seg_start(m0.segs.skip(lo as int)[hi - lo]) <= e);
                }
                assert(c == hi - lo);
                assert(seg_end(m0.segs[hi - 1]) <= usize::MAX);
                assert(seg_start(m0.segs[hi - 1]) <= e);
            }
            let last_start = self.unassembled_window[hi - 1].0;
            let last_len = self.unassembled_window[hi - 1].1.len();
            if last_start + last_len > e {
                push_bytes(
                    &mut merged,
                    self.unassembled_window[hi - 1].1.as_slice(),
                    e - last_start,
                    last_len,
                );
                proof {
                    let last = m0.segs[hi - 1];
                    assert(last.1.subrange(e - last.0, last.1.len() as int) =~= last.1.skip(
                        e - last.0,
                    ));
                }
            }
        } else {
            push_bytes(&mut merged, data, 0, data.len());
            proof {
                assert(data@.subrange(0, data@.len() as int) =~= data@);
                assert(count_start_at_or_below(m0.segs.skip(lo as int), e as int) == 0);
            }
        }
        self.remove_segs(lo, hi - lo);
        self.insert_seg_at(lo, merged_st, merged);
        proof {
            let expect = insert_coalesce(m0.segs, offset as int, data@);
            let cur = (m0.segs.take(lo as int) + m0.segs.skip(hi as int)).insert(
                lo as int,
                (merged_st as int, merged@),
            );
            assert(self@.segs == cur);
            if run {
                let first = m0.segs[lo as int];
                let last = m0.segs[hi - 1];
                let st = if first.0 < offset {
                    first.0
                } else {
                    offset as int
                };
                let bytes = (if first.0 < offset {
                    first.1.take(offset - first.0)
                } else {
                    Seq::<u8>::empty()
                }) + data@ + (if seg_end(last) > e {
                    last.1.skip(e - last.0)
                } else {
                    Seq::<u8>::empty()
                });
                assert(merged_st == st);
                assert(merged@ =~= bytes);
                assert(expect == m0.segs.take(lo as int) + seq![(st, bytes)] + m0.segs.skip(
                    hi as int,
                ));
                assert(cur =~= m0.segs.take(lo as int) + seq![(st, bytes)] + m0.segs.skip(
                    hi as int,
                ));
            } else {
                assert(hi == lo);
                assert(merged@ =~= data@);
                assert(expect == m0.segs.take(lo as int) + seq![(offset as int, data@)]
                    + m0.segs.skip(lo as int));
                assert(cur =~= m0.segs.take(lo as int) + seq![(offset as int, data@)]
                    + m0.segs.skip(lo as int));
            }
            assert(self@ =~= (ReassemblerView { segs: expect, ..m0 }));
        }
    }

    /// Submit one byte range of the stream.
    ///
    /// A range whose tail does not fit the admissible window is dropped
    /// whole with no effect; an empty range or one lying entirely below the
    /// frontier changes no buffer; any other accepted range either extends
    /// the assembled bytes or joins the stored window.  A set end-of-stream
    /// flag records the frontier reached by this call.
    pub fn recv(&mut self, data: &[u8], offset: usize, eof: bool)
        requires
            old(self)@.wf(),
            offset + data@.len() <= usize::MAX,
        ensures
            final(self)@ == spec_recv(old(self)@, data@, offset as int, eof),
            final(self)@.wf(),
    {
        proof {
            lemma_spec_recv_wf(old(self)@, data@, offset as int, eof);
        }
        if data.len() == 0 {
            if eof {
                self.eof_idx = self.next_to_be_assembled;
            }
            return;
        }
        let end = offset + data.len();
        let avail = self.buffer_window_size - self.assembled_window.len();
        if end > self.next_to_be_assembled && end - self.next_to_be_assembled > avail {
            return;
        }
        if end > self.next_to_be_assembled {
            if offset <= self.next_to_be_assembled {
                self.merge_to_assembled(data, offset);
            } else {
                self.merge_from_unassemble(data, offset);
            }
        }
        if eof {
            self.eof_idx = self.next_to_be_assembled;
        }
    }
}

/// Sorted, strictly separated ranges lying between `lo` and `hi` hold at
/// most `hi - lo` bytes in all.
proof fn lemma_total_within(segs: Seq<(int, Seq<u8>)>, lo: int, hi: int)
    requires
        lo <= hi,
        forall|i: int|
            0 <= i < segs.len() ==> lo <= seg_start(#[trigger] segs[i]) && seg_end(segs[i]) <= hi
                && segs[i].1.len() > 0,
        forall|i: int, j: int|
            #![trigger segs[i], segs[j]]
            0 <= i < j < segs.len() ==> seg_end(segs[i]) < seg_start(segs[j]),
    ensures
        total_seg_len(segs) <= hi - lo,
    decreases segs.len(),
{
    if segs.len() > 0 {
        let last = segs.last();
        let front = segs.drop_last();
        assert(forall|i: int|
            0 <= i < front.len() ==> lo <= seg_start(#[trigger] front[i]) && seg_end(front[i])
                <= seg_start(last) && front[i].1.len() > 0);
        lemma_total_within(front, lo, seg_start(last));
    }
}

/// Capacity ceiling: a well-formed reassembler never holds more than its
/// capacity, counting the undrained assembled bytes and all buffered range
/// bytes together.
pub proof fn lemma_capacity_ceiling(m: ReassemblerView)
    requires
        m.wf(),
    ensures
        m.assembled.len() + total_seg_len(m.segs) <= m.capacity,
{
    if m.segs.len() == 0 {
    } else {
        assert(seg_start(m.segs[0]) < seg_end(m.segs[0]));
        lemma_total_within(m.segs, m.frontier + 1, m.frontier + m.avail());
    }
}

/// Buffered ranges hold a non-negative number of bytes.
pub proof fn lemma_total_seg_len_nonneg(segs: Seq<(int, Seq<u8>)>)
    ensures
        total_seg_len(segs) >= 0,
    decreases segs.len(),
{
    if segs.len() > 0 {
        lemma_total_seg_len_nonneg(segs.drop_last());
    }
}

/// The count of leading ranges ending before `x` marks the first one that
/// does not.
proof fn lemma_count_end_below_char(segs: Seq<(int, Seq<u8>)>, x: int)
    ensures
        0 <= count_end_below(segs, x) <= segs.len(),
        forall|i: int| 0 <= i < count_end_below(segs, x) ==> seg_end(#[trigger] segs[i]) < x,
        count_end_below(segs, x) < segs.len() ==> seg_end(segs[count_end_below(segs, x)]) >= x,
    decreases segs.len(),
{
    let c = count_end_below(segs, x);
    if segs.len() > 0 && seg_end(segs[0]) < x {
        lemma_count_end_below_char(segs.drop_first(), x);
        assert forall|i: int| 0 <= i < c implies seg_end(#[trigger] segs[i]) < x by {
            if i > 0 {
                assert(segs[i] == segs.drop_first()[i - 1]);
            }
        }
        if c < segs.len() {
            assert(segs[c] == segs.drop_first()[c - 1]);
        }
    }
}

/// The count of leading ranges starting at or before `x` marks the first
/// one that does not.
proof fn lemma_count_start_at_or_below_char(segs: Seq<(int, Seq<u8>)>, x: int)
    ensures
        0 <= count_start_at_or_below(segs, x) <= segs.len(),
        forall|i: int|
            0 <= i < count_start_at_or_below(segs, x) ==> seg_start(#[trigger] segs[i]) <= x,
        count_start_at_or_below(segs, x) < segs.len() ==> seg_start(
            segs[count_start_at_or_below(segs, x)],
        ) > x,
    decreases segs.len(),
{
    let c = count_start_at_or_below(segs, x);
    if segs.len() > 0 && seg_start(segs[0]) <= x {
        lemma_count_start_at_or_below_char(segs.drop_first(), x);
        assert forall|i: int| 0 <= i < c implies seg_start(#[trigger] segs[i]) <= x by {
            if i > 0 {
                assert(segs[i] == segs.drop_first()[i - 1]);
            }
        }
        if c < segs.len() {
            assert(segs[c] == segs.drop_first()[c - 1]);
        }
    }
}

/// The facts `insert_coalesce` proofs lean on: where the spliced run starts
/// and stops relative to the new range.
proof fn lemma_coalesce_bounds(m: ReassemblerView, offset: int, data: Seq<u8>)
    requires
        m.wf(),
        m.frontier < offset,
        data.len() > 0,
    ensures
        ({
            let e = offset + data.len();
            let lo = count_end_below(m.segs, offset);
            let hi = lo + count_start_at_or_below(m.segs.skip(lo), e);
            &&& 0 <= lo <= hi <= m.segs.len()
            &&& forall|i: int| 0 <= i < lo ==> seg_end(#[trigger] m.segs[i]) < offset
            &&& forall|i: int| lo <= i < hi ==> seg_start(#[trigger] m.segs[i]) <= e
            &&& forall|i: int| lo <= i < hi ==> seg_end(#[trigger] m.segs[i]) >= offset
            &&& forall|j: int| hi <= j < m.segs.len() ==> seg_start(#[trigger] m.segs[j]) > e
        }),
{
    let e = offset + data.len();
    let segs = m.segs;
    let lo = count_end_below(segs, offset);
    lemma_count_end_below_char(segs, offset);
    let rest = segs.skip(lo);
    lemma_count_start_at_or_below_char(rest, e);
    let hi = lo + count_start_at_or_below(rest, e);
    assert(forall|i: int| 0 <= i < rest.len() ==> rest[i] == segs[lo + i]);
    assert forall|i: int| lo <= i < hi implies seg_start(#[trigger] segs[i]) <= e by {
        assert(rest[i - lo] == segs[i]);
        assert(seg_start(rest[i - lo]) <= e);
    }
    assert forall|i: int| lo <= i < hi implies seg_end(#[trigger] segs[i]) >= offset by {
        if i > lo {
            assert(seg_end(segs[lo]) < seg_start(segs[i]));
        }
    }
    assert forall|j: int| hi <= j < segs.len() implies seg_start(#[trigger] segs[j]) > e by {
        if hi < segs.len() {
            assert(seg_start(segs[hi]) > e);
            if j > hi {
                assert(seg_end(segs[hi]) < seg_start(segs[j]));
                assert(seg_start(segs[hi]) < seg_end(segs[hi]));
            }
        }
    }
}

/// Splicing a range beyond the frontier preserves well-formedness.
proof fn lemma_insert_coalesce_wf(m: ReassemblerView, offset: int, data: Seq<u8>)
    requires
        m.wf(),
        m.frontier < offset,
        data.len() > 0,
        offset + data.len() <= m.frontier + m.avail(),
        offset + data.len() <= usize::MAX,
    ensures
        (ReassemblerView { segs: insert_coalesce(m.segs, offset, data), ..m }).wf(),
{
    let segs = m.segs;
    let e = offset + data.len();
    let lo = count_end_below(segs, offset);
    let hi = lo + count_start_at_or_below(segs.skip(lo), e);
    lemma_coalesce_bounds(m, offset, data);
    let res = insert_coalesce(segs, offset, data);
    if lo == hi {
        assert(forall|k: int| 0 <= k < lo ==> res[k] == segs[k]);
        assert(res[lo as int] == (offset, data));
        assert(forall|k: int| lo < k < res.len() ==> res[k] == segs[k - 1]);
        assert forall|k: int, l: int|
            #![trigger res[k], res[l]]
            0 <= k < l < res.len() implies seg_end(res[k]) < seg_start(res[l]) by {
            if k < lo && l == lo {
                assert(seg_end(segs[k]) < offset);
            } else if k == lo && l > lo {
                assert(seg_start(segs[l - 1]) > e);
            }
        }
    } else {
        let first = segs[lo];
        let last = segs[hi - 1];
        let st = if first.0 < offset {
            first.0
        } else {
            offset
        };
        let tail_len: int = if seg_end(last) > e {
            seg_end(last) - e
        } else {
            0
        };
        let head_len: int = if first.0 < offset {
            offset - first.0
        } else {
            0
        };
        let mseg = res[lo as int];
        assert(forall|k: int| 0 <= k < lo ==> res[k] == segs[k]);
        assert(forall|k: int| lo < k < res.len() ==> res[k] == segs[k + hi - lo - 1]);
        assert(seg_end(first) >= offset);
        assert(seg_start(last) <= e);
        assert(mseg.0 == st);
        assert(mseg.1.len() == head_len + data.len() + tail_len);
        assert(seg_end(mseg) == if seg_end(last) > e {
            seg_end(last)
        } else {
            e
        });
        assert(seg_end(mseg) <= m.frontier + m.avail());
        assert(seg_end(mseg) <= usize::MAX);
        assert(st > m.frontier);
        assert forall|k: int, l: int|
            #![trigger res[k], res[l]]
            0 <= k < l < res.len() implies seg_end(res[k]) < seg_start(res[l]) by {
            if k < lo && l == lo {
                assert(seg_end(segs[k]) < offset);
                if first.0 < offset {
                    assert(seg_end(segs[k]) < seg_start(segs[lo]));
                }
            } else if k == lo && l > lo {
                assert(seg_start(segs[l + hi - lo - 1]) > e);
                if seg_end(last) > e {
                    assert(seg_end(segs[hi - 1]) < seg_start(segs[l + hi - lo - 1]));
                }
            }
        }
    }
}

/// Merging a range into the assembled buffer preserves well-formedness and
/// never moves the frontier backwards.
proof fn lemma_assemble_wf(m: ReassemblerView, data: Seq<u8>, offset: int)
    requires
        m.wf(),
        data.len() > 0,
        0 <= offset <= m.frontier,
        m.frontier < offset + data.len(),
        offset + data.len() <= m.frontier + m.avail(),
        offset + data.len() <= usize::MAX,
    ensures
        spec_assemble(m, data, offset).wf(),
        spec_assemble(m, data, offset).frontier >= m.frontier,
        spec_assemble(m, data, offset).capacity == m.capacity,
        spec_assemble(m, data, offset).eof == m.eof,
{
    let e = offset + data.len();
    let segs = m.segs;
    let n = count_start_at_or_below(segs, e);
    lemma_count_start_at_or_below_char(segs, e);
    let res = spec_assemble(m, data, offset);
    assert(forall|j: int| 0 <= j < res.segs.len() ==> res.segs[j] == segs[j + n]);
    assert forall|j: int| n <= j < segs.len() implies seg_start(#[trigger] segs[j]) > e by {
        if n < segs.len() {
            assert(seg_start(segs[n]) > e);
            if j > n {
                assert(seg_end(segs[n]) < seg_start(segs[j]));
                assert(seg_start(segs[n]) < seg_end(segs[n]));
            }
        }
    }
    if n > 0 && seg_end(segs[n - 1]) > e {
        let b = segs[n - 1];
        assert(res.frontier == seg_end(b));
        assert(res.assembled.len() == m.assembled.len() + (e - m.frontier) + (seg_end(b) - e));
        assert forall|j: int| 0 <= j < res.segs.len() implies res.segs[j].0 > res.frontier by {
            assert(seg_end(segs[n - 1]) < seg_start(segs[j + n]));
        }
    } else {
        assert(res.frontier == e);
        assert(res.assembled.len() == m.assembled.len() + (e - m.frontier));
    }
}

/// Splicing the same range twice changes nothing the second time: the
/// merged range already holds the new bytes where they overlap it.
proof fn lemma_insert_coalesce_idempotent(m: ReassemblerView, offset: int, data: Seq<u8>)
    requires
        m.wf(),
        m.frontier < offset,
        data.len() > 0,
        offset + data.len() <= m.frontier + m.avail(),
        offset + data.len() <= usize::MAX,
    ensures
        insert_coalesce(insert_coalesce(m.segs, offset, data), offset, data) == insert_coalesce(
            m.segs,
            offset,
            data,
        ),
{
    let e = offset + data.len();
    let segs = m.segs;
    let lo = count_end_below(segs, offset);
    let hi = lo + count_start_at_or_below(segs.skip(lo), e);
    lemma_coalesce_bounds(m, offset, data);
    lemma_insert_coalesce_wf(m, offset, data);
    let segs1 = insert_coalesce(segs, offset, data);
    let mseg = segs1[lo as int];
    // The merged range reaches from at or before `offset` to at or past the
    // new end, and carries the new bytes in between.
    assert(segs1.len() == lo + 1 + (segs.len() - hi));
    assert(mseg.0 <= offset);
    assert(seg_end(mseg) >= e);
    assert(forall|k: int| 0 <= k < data.len() ==> mseg.1[offset - mseg.0 + k] == data[k]);
    assert(forall|k: int| 0 <= k < lo ==> segs1[k] == segs[k]);
    assert(forall|k: int| lo < k < segs1.len() ==> segs1[k] == segs[k + hi - lo - 1]);
    // The second splice finds exactly the merged range.
    lemma_count_end_below_char(segs1, offset);
    let lo2 = count_end_below(segs1, offset);
    if lo2 < lo {
        assert(seg_end(segs1[lo2]) >= offset);
        assert(seg_end(segs[lo2]) < offset);
    }
    if lo2 > lo {
        assert(seg_end(segs1[lo as int]) < offset);
    }
    assert(lo2 == lo);
    let rest1 = segs1.skip(lo as int);
    lemma_count_start_at_or_below_char(rest1, e);
    let c2 = count_start_at_or_below(rest1, e);
    assert(forall|i: int| 0 <= i < rest1.len() ==> rest1[i] == segs1[lo + i]);
    if c2 == 0 {
        assert(seg_start(rest1[0]) > e);
        assert(rest1[0] == mseg);
    }
    if c2 >= 2 {
        assert(seg_start(rest1[1]) <= e);
        assert(rest1[1] == segs1[lo + 1]);
        assert(segs1[lo + 1] == segs[hi as int]);
        assert(seg_start(segs[hi as int]) > e);
    }
    assert(c2 == 1);
    let res2 = insert_coalesce(segs1, offset, data);
    let st2 = if mseg.0 < offset {
        mseg.0
    } else {
        offset
    };
    assert(st2 == mseg.0);
    let bytes2 = (if mseg.0 < offset {
        mseg.1.take(offset - mseg.0)
    } else {
        Seq::<u8>::empty()
    }) + data + (if seg_end(mseg) > e {
        mseg.1.skip(e - mseg.0)
    } else {
        Seq::<u8>::empty()
    });
    assert(res2 == segs1.take(lo as int) + seq![(st2, bytes2)] + segs1.skip(lo + 1));
    assert(bytes2.len() == mseg.1.len());
    assert forall|k: int| 0 <= k < bytes2.len() implies bytes2[k] == mseg.1[k] by {
        let head_len: int = if mseg.0 < offset {
            offset - mseg.0
        } else {
            0
        };
        if k < head_len {
            assert(bytes2[k] == mseg.1.take(offset - mseg.0)[k]);
        } else if k < head_len + data.len() {
            assert(bytes2[k] == data[k - head_len]);
            assert(mseg.1[offset - mseg.0 + (k - head_len)] == data[k - head_len]);
        } else {
            assert(bytes2[k] == mseg.1.skip(e - mseg.0)[k - head_len - data.len()]);
        }
    }
    assert(bytes2 =~= mseg.1);
    assert forall|k: int| 0 <= k < res2.len() implies res2[k] == segs1[k] by {
        if k < lo {
            assert(res2[k] == segs1.take(lo as int)[k]);
        } else if k == lo {
            assert(res2[k] == (st2, bytes2));
        } else {
            assert(res2[k] == segs1.skip(lo + 1)[k - lo - 1]);
        }
    }
    assert(res2 =~= segs1);
}

/// Idempotence of duplicates: submitting the same range with the same flag
/// a second time leaves the state exactly as the first submission left it,
/// so the assembled output is that of a single submission.
pub proof fn lemma_recv_idempotent(m: ReassemblerView, data: Seq<u8>, offset: int, eof: bool)
    requires
        m.wf(),
        0 <= offset,
        offset + data.len() <= usize::MAX,
    ensures
        spec_recv(spec_recv(m, data, offset, eof), data, offset, eof) == spec_recv(
            m,
            data,
            offset,
            eof,
        ),
{
    let e = offset + data.len();
    let m1 = spec_recv(m, data, offset, eof);
    lemma_spec_recv_wf(m, data, offset, eof);
    if data.len() == 0 {
        assert(spec_recv(m1, data, offset, eof) =~= m1);
    } else if e > m.frontier + m.avail() {
        assert(spec_recv(m1, data, offset, eof) =~= m1);
    } else if e <= m.frontier {
        assert(spec_recv(m1, data, offset, eof) =~= m1);
    } else if offset <= m.frontier {
        assert(m1.frontier >= e);
        assert(spec_recv(m1, data, offset, eof) =~= m1);
    } else {
        lemma_insert_coalesce_idempotent(m, offset, data);
        assert(spec_recv(m1, data, offset, eof) =~= m1);
    }
}

/// Overlap merge: two overlapping or touching ranges beyond the frontier
/// leave exactly one stored range, spanning their union and holding one
/// byte per position of it.
pub proof fn lemma_overlap_merge(
    m: ReassemblerView,
    o1: int,
    d1: Seq<u8>,
    o2: int,
    d2: Seq<u8>,
)
    requires
        m.wf(),
        m.segs.len() == 0,
        m.frontier < o1,
        m.frontier < o2,
        d1.len() > 0,
        d2.len() > 0,
        o1 + d1.len() <= m.frontier + m.avail(),
        o1 + d1.len() <= usize::MAX,
        o2 + d2.len() <= m.frontier + m.avail(),
        o2 + d2.len() <= usize::MAX,
        o2 <= o1 + d1.len(),
        o1 <= o2 + d2.len(),
    ensures
        ({
            let m2 = spec_recv(spec_recv(m, d1, o1, false), d2, o2, false);
            &&& m2.segs.len() == 1
            &&& seg_start(m2.segs[0]) == if o1 <= o2 {
                o1
            } else {
                o2
            }
            &&& seg_end(m2.segs[0]) == if o1 + d1.len() >= o2 + d2.len() {
                o1 + d1.len()
            } else {
                o2 + d2.len()
            }
            &&& m2.segs[0].1.len() == seg_end(m2.segs[0]) - seg_start(m2.segs[0])
            &&& m2.assembled == m.assembled
            &&& m2.frontier == m.frontier
        }),
{
    let e1 = o1 + d1.len();
    let e2 = o2 + d2.len();
    let m1 = spec_recv(m, d1, o1, false);
    lemma_spec_recv_wf(m, d1, o1, false);
    assert(count_end_below(m.segs, o1) == 0);
    assert(count_start_at_or_below(m.segs.skip(0), e1) == 0);
    assert(m.segs.take(0) + seq![(o1, d1)] + m.segs.skip(0) =~= seq![(o1, d1)]);
    assert(m1.segs == seq![(o1, d1)]);
    let segs1 = m1.segs;
    assert(count_end_below(segs1, o2) == 0);
    assert(count_start_at_or_below(segs1.skip(0), e2) == 1) by {
        let s = segs1.skip(0);
        assert(s.len() == 1);
        assert(s[0] == segs1[0]);
        assert(seg_start(s[0]) == o1);
        assert(s.drop_first().len() == 0);
        assert(count_start_at_or_below(s.drop_first(), e2) == 0);
    }
    let res = insert_coalesce(segs1, o2, d2);
    assert(res.len() == 1);
    let mseg = res[0];
    assert(seg_start(mseg) == if o1 < o2 {
        o1
    } else {
        o2
    });
    assert(mseg.1.len() == (if o1 < o2 {
        o2 - o1
    } else {
        0
    }) + d2.len() + (if e1 > e2 {
        e1 - e2
    } else {
        0
    }));
    let m2 = spec_recv(m1, d2, o2, false);
    assert(m2.segs == res);
}

/// Whether the reassembler holds the byte at stream position `p`: still in
/// the undrained assembled buffer, or inside a stored range.
pub open spec fn holds_at(m: ReassemblerView, p: int) -> bool {
    (m.frontier - m.assembled.len() <= p < m.frontier) || (exists|i: int|
        0 <= i < m.segs.len() && (#[trigger] m.segs[i]).0 <= p < seg_end(m.segs[i]))
}

/// The byte held at stream position `p`.
pub open spec fn byte_at(m: ReassemblerView, p: int) -> u8 {
    if m.frontier - m.assembled.len() <= p < m.frontier {
        m.assembled[p - (m.frontier - m.assembled.len())]
    } else {
        let i = choose|i: int|
            0 <= i < m.segs.len() && (#[trigger] m.segs[i]).0 <= p < seg_end(m.segs[i]);
        m.segs[i].1[p - m.segs[i].0]
    }
}

/// In a well-formed window at most one stored range covers a position.
proof fn lemma_cover_unique(m: ReassemblerView, p: int, i: int, j: int)
    requires
        m.wf(),
        0 <= i < m.segs.len(),
        0 <= j < m.segs.len(),
        m.segs[i].0 <= p < seg_end(m.segs[i]),
        m.segs[j].0 <= p < seg_end(m.segs[j]),
    ensures
        i == j,
{
    if i < j {
        assert(seg_end(m.segs[i]) < seg_start(m.segs[j]));
    }
    if j < i {
        assert(seg_end(m.segs[j]) < seg_start(m.segs[i]));
    }
}

/// The byte at a position covered by stored range `i` comes from that
/// range.
proof fn lemma_byte_at_seg(m: ReassemblerView, p: int, i: int)
    requires
        m.wf(),
        0 <= i < m.segs.len(),
        m.segs[i].0 <= p < seg_end(m.segs[i]),
    ensures
        byte_at(m, p) == m.segs[i].1[p - m.segs[i].0],
        holds_at(m, p),
{
    assert(m.segs[i].0 > m.frontier);
    let k = choose|k: int|
        0 <= k < m.segs.len() && (#[trigger] m.segs[k]).0 <= p < seg_end(m.segs[k]);
    lemma_cover_unique(m, p, i, k);
}

/// What splicing a range beyond the frontier does to the held bytes: the
/// new range's positions take the new bytes, every other held position
/// keeps its byte, and nothing else is held.
#[verifier::rlimit(60)]
proof fn lemma_insert_content(m: ReassemblerView, offset: int, data: Seq<u8>)
    requires
        m.wf(),
        m.frontier < offset,
        data.len() > 0,
        offset + data.len() <= m.frontier + m.avail(),
        offset + data.len() <= usize::MAX,
    ensures
        ({
            let e = offset + data.len();
            let m1 = ReassemblerView { segs: insert_coalesce(m.segs, offset, data), ..m };
            &&& forall|p: int| holds_at(m1, p) <==> holds_at(m, p) || (offset <= p < e)
            &&& forall|p: int| offset <= p < e ==> byte_at(m1, p) == data[p - offset]
            &&& forall|p: int|
                holds_at(m, p) && !(offset <= p < e) ==> byte_at(m1, p) == byte_at(m, p)
        }),
{
    let e = offset + data.len();
    let segs = m.segs;
    let lo = count_end_below(segs, offset);
    let hi = lo + count_start_at_or_below(segs.skip(lo), e);
    lemma_coalesce_bounds(m, offset, data);
    lemma_insert_coalesce_wf(m, offset, data);
    let m1 = ReassemblerView { segs: insert_coalesce(m.segs, offset, data), ..m };
    let segs1 = m1.segs;
    let mseg = segs1[lo as int];
    assert(segs1.len() == segs.len() - (hi - lo) + 1);
    assert(forall|k: int| 0 <= k < lo ==> segs1[k] == segs[k]);
    assert(forall|k: int| lo < k < segs1.len() ==> segs1[k] == segs[k + (hi - lo) - 1]);
    assert(mseg.0 <= offset);
    assert(seg_end(mseg) >= e);
    assert(lo < hi ==> mseg.0 <= segs[lo as int].0);
    assert(lo < hi ==> seg_end(mseg) >= seg_end(segs[hi - 1]));
    assert(lo == hi ==> mseg == (offset, data));
    assert(mseg.0 < offset ==> lo < hi && mseg.0 == segs[lo as int].0);
    assert(seg_end(mseg) > e ==> lo < hi && seg_end(mseg) == seg_end(segs[hi - 1]));
    assert(forall|k: int| 0 <= k < offset - mseg.0 ==> mseg.1[k] == segs[lo as int].1[k]);
    assert(forall|k: int|
        0 <= k < data.len() ==> mseg.1[offset - mseg.0 + k] == data[k]);
    assert(forall|p: int|
        e <= p < seg_end(mseg) ==> #[trigger] mseg.1[p - mseg.0] == segs[hi - 1].1[p - segs[hi
            - 1].0]);
    // The new range's bytes.
    assert forall|p: int| offset <= p < e implies byte_at(m1, p) == data[p - offset] by {
        assert(mseg.1[p - mseg.0] == data[p - offset]) by {
            assert(mseg.1[offset - mseg.0 + (p - offset)] == data[p - offset]);
        }
        lemma_byte_at_seg(m1, p, lo as int);
    }
    // Held positions.
    assert forall|p: int| holds_at(m1, p) implies holds_at(m, p) || (offset <= p < e) by {
        if !(m1.frontier - m1.assembled.len() <= p < m1.frontier) {
            let k = choose|k: int|
                0 <= k < segs1.len() && (#[trigger] segs1[k]).0 <= p < seg_end(segs1[k]);
            if k < lo {
                assert(segs[k].0 <= p < seg_end(segs[k]));
            } else if k == lo {
                if p < offset {
                    assert(mseg.0 < offset);
                    assert(segs[lo as int].0 <= p);
                    assert(seg_end(segs[lo as int]) >= offset);
                    assert(segs[lo as int].0 <= p < seg_end(segs[lo as int]));
                } else if p >= e {
                    assert(seg_end(mseg) > e);
                    assert(segs[hi - 1].0 <= e <= p < seg_end(segs[hi - 1]));
                }
            } else {
                assert(segs[k + (hi - lo) - 1].0 <= p < seg_end(segs[k + (hi - lo) - 1]));
            }
        }
    }
    assert forall|p: int| holds_at(m, p) || (offset <= p < e) implies holds_at(m1, p) by {
        if offset <= p < e {
            assert(segs1[lo as int].0 <= p < seg_end(segs1[lo as int]));
        } else if !(m.frontier - m.assembled.len() <= p < m.frontier) {
            let k = choose|k: int|
                0 <= k < segs.len() && (#[trigger] segs[k]).0 <= p < seg_end(segs[k]);
            if k < lo {
                assert(segs1[k].0 <= p < seg_end(segs1[k]));
            } else if k < hi {
                assert(mseg.0 <= segs[lo as int].0);
                if k > lo {
                    assert(seg_end(segs[lo as int]) < seg_start(segs[k]));
                }
                assert(mseg.0 <= segs[k].0);
                if k < hi - 1 {
                    assert(seg_end(segs[k]) < seg_start(segs[hi - 1]));
                    assert(seg_start(segs[hi - 1]) <= e);
                } else {
                    assert(seg_end(segs[k]) <= seg_end(mseg));
                }
                assert(segs1[lo as int].0 <= p < seg_end(segs1[lo as int]));
            } else {
                assert(segs1[k - (hi - lo) + 1] == segs[k]);
                assert(segs1[k - (hi - lo) + 1].0 <= p < seg_end(segs1[k - (hi - lo) + 1]));
            }
        }
    }
    // Positions outside the new range keep their bytes.
    assert forall|p: int|
        holds_at(m, p) && !(offset <= p < e) implies byte_at(m1, p) == byte_at(m, p) by {
        if m.frontier - m.assembled.len() <= p < m.frontier {
        } else {
            let k = choose|k: int|
                0 <= k < segs.len() && (#[trigger] segs[k]).0 <= p < seg_end(segs[k]);
            lemma_byte_at_seg(m, p, k);
            if k < lo {
                lemma_byte_at_seg(m1, p, k);
            } else if k < hi {
                if p < offset {
                    if k > lo {
                        assert(seg_end(segs[lo as int]) < seg_start(segs[k]));
                        assert(seg_end(segs[lo as int]) >= offset);
                    }
                    assert(k == lo);
                    assert(mseg.0 == segs[lo as int].0);
                    assert(mseg.1[p - mseg.0] == segs[lo as int].1[p - mseg.0]);
                    lemma_byte_at_seg(m1, p, lo as int);
                } else {
                    assert(p >= e);
                    if k < hi - 1 {
                        assert(seg_end(segs[k]) < seg_start(segs[hi - 1]));
                        assert(seg_start(segs[hi - 1]) <= e);
                        assert(false);
                    }
                    assert(k == hi - 1);
                    assert(mseg.1[p - mseg.0] == segs[hi - 1].1[p - segs[hi - 1].0]);
                    lemma_byte_at_seg(m1, p, lo as int);
                }
            } else {
                assert(segs1[k - (hi - lo) + 1] == segs[k]);
                lemma_byte_at_seg(m1, p, k - (hi - lo) + 1);
            }
        }
    }
}

/// What merging a range into the assembled buffer does to the held bytes:
/// positions from the old frontier to the new data's end take the new
/// bytes, the new frontier reaches at least that end, every other held
/// position keeps its byte, and what is held grows by exactly the span
/// from old frontier to new frontier.
#[verifier::rlimit(60)]
proof fn lemma_assemble_content(m: ReassemblerView, data: Seq<u8>, offset: int)
    requires
        m.wf(),
        data.len() > 0,
        0 <= offset <= m.frontier,
        m.frontier < offset + data.len(),
        offset + data.len() <= m.frontier + m.avail(),
        offset + data.len() <= usize::MAX,
    ensures
        ({
            let e = offset + data.len();
            let m1 = spec_assemble(m, data, offset);
            &&& e <= m1.frontier
            &&& m1.frontier - m1.assembled.len() == m.frontier - m.assembled.len()
            &&& forall|p: int| holds_at(m1, p) <==> holds_at(m, p) || (m.frontier <= p < m1.frontier)
            &&& forall|p: int| m.frontier <= p < e ==> byte_at(m1, p) == data[p - offset]
            &&& forall|p: int|
                e <= p < m1.frontier ==> byte_at(m1, p) == byte_at(m, p) && holds_at(m, p)
            &&& forall|p: int|
                holds_at(m, p) && !(m.frontier <= p < e) ==> byte_at(m1, p) == byte_at(m, p)
        }),
{
    let e = offset + data.len();
    let segs = m.segs;
    let n = count_start_at_or_below(segs, e);
    lemma_count_start_at_or_below_char(segs, e);
    lemma_assemble_wf(m, data, offset);
    let m1 = spec_assemble(m, data, offset);
    let base = m.frontier - m.assembled.len();
    assert(forall|j: int| 0 <= j < m1.segs.len() ==> m1.segs[j] == segs[j + n]);
    assert forall|j: int| n <= j < segs.len() implies seg_start(#[trigger] segs[j]) > e by {
        if n < segs.len() {
            assert(seg_start(segs[n as int]) > e);
            if j > n {
                assert(seg_end(segs[n as int]) < seg_start(segs[j]));
                assert(seg_start(segs[n as int]) < seg_end(segs[n as int]));
            }
        }
    }
    let bridge = n > 0 && seg_end(segs[n - 1]) > e;
    assert(m1.frontier == if bridge {
        seg_end(segs[n - 1])
    } else {
        e
    });
    assert(m1.assembled.len() == m1.frontier - base);
    // Bytes of the grown assembled buffer.
    assert(forall|p: int|
        base <= p < m.frontier ==> #[trigger] m1.assembled[p - base] == m.assembled[p - base]);
    assert forall|p: int| m.frontier <= p < e implies #[trigger] m1.assembled[p - base]
        == data[p - offset] by {
        assert(data.skip(m.frontier - offset)[p - m.frontier] == data[p - offset]);
    }
    if bridge {
        let b = segs[n - 1];
        assert forall|p: int| e <= p < m1.frontier implies #[trigger] m1.assembled[p - base]
            == b.1[p - b.0] by {
            assert(b.1.skip(e - b.0)[p - e] == b.1[p - b.0]);
        }
    }
    // Byte claims.
    assert forall|p: int| m.frontier <= p < e implies byte_at(m1, p) == data[p - offset] by {
        assert(base <= p < m1.frontier);
    }
    assert forall|p: int| e <= p < m1.frontier implies byte_at(m1, p) == byte_at(m, p)
        && holds_at(m, p) by {
        let b = segs[n - 1];
        assert(seg_start(b) <= e);
        assert(b.0 <= p < seg_end(b));
        lemma_byte_at_seg(m, p, n - 1);
    }
    assert forall|p: int|
        holds_at(m, p) && !(m.frontier <= p < e) implies byte_at(m1, p) == byte_at(m, p) by {
        if base <= p < m.frontier {
        } else {
            let k = choose|k: int|
                0 <= k < segs.len() && (#[trigger] segs[k]).0 <= p < seg_end(segs[k]);
            lemma_byte_at_seg(m, p, k);
            assert(p > m.frontier);
            if p < e {
                assert(false);
            }
            if k < n {
                if k < n - 1 {
                    assert(seg_end(segs[k]) < seg_start(segs[n - 1]));
                    assert(seg_start(segs[n - 1]) <= e);
                    assert(false);
                }
                assert(k == n - 1);
                assert(e <= p < m1.frontier);
            } else {
                assert(m1.segs[k - n] == segs[k]);
                lemma_byte_at_seg(m1, p, k - n);
            }
        }
    }
    // Held positions.
    assert forall|p: int| holds_at(m1, p) implies holds_at(m, p) || (m.frontier <= p
        < m1.frontier) by {
        if base <= p < m1.frontier {
        } else {
            let k = choose|k: int|
                0 <= k < m1.segs.len() && (#[trigger] m1.segs[k]).0 <= p < seg_end(m1.segs[k]);
            assert(segs[k + n].0 <= p < seg_end(segs[k + n]));
        }
    }
    assert forall|p: int| holds_at(m, p) || (m.frontier <= p < m1.frontier) implies holds_at(
        m1,
        p,
    ) by {
        if m.frontier <= p < m1.frontier {
            assert(base <= p < m1.frontier);
        } else if base <= p < m.frontier {
        } else if holds_at(m, p) {
            let k = choose|k: int|
                0 <= k < segs.len() && (#[trigger] segs[k]).0 <= p < seg_end(segs[k]);
            if k < n {
                if k < n - 1 {
                    assert(seg_end(segs[k]) < seg_start(segs[n - 1]));
                    assert(seg_start(segs[n - 1]) <= e);
                }
                assert(p < m1.frontier);
                assert(p > m.frontier);
                assert(base <= p < m1.frontier);
            } else {
                assert(m1.segs[k - n] == segs[k]);
                assert(m1.segs[k - n].0 <= p < seg_end(m1.segs[k - n]));
            }
        }
    }
}

/// Piece `i` starts where the piece before it ended (at zero for the
/// first).
pub open spec fn piece_linked(pieces: Seq<(int, Seq<u8>)>, i: int) -> bool {
    pieces[i].0 == if i == 0 {
        0
    } else {
        seg_end(pieces[i - 1])
    }
}

/// A run of pieces that is gapless from offset zero: each piece starts
/// where the one before it ended.
pub open spec fn pieces_wf(pieces: Seq<(int, Seq<u8>)>) -> bool {
    forall|i: int| 0 <= i < pieces.len() ==> #[trigger] piece_linked(pieces, i)
}

/// One past the last offset the pieces cover.
pub open spec fn pieces_end(pieces: Seq<(int, Seq<u8>)>) -> int {
    if pieces.len() == 0 {
        0
    } else {
        seg_end(pieces.last())
    }
}

/// The pieces' bytes, in offset order.
pub open spec fn pieces_concat(pieces: Seq<(int, Seq<u8>)>) -> Seq<u8>
    decreases pieces.len(),
{
    if pieces.len() == 0 {
        Seq::empty()
    } else {
        pieces_concat(pieces.drop_last()) + pieces.last().1
    }
}

/// Whether piece `j` covers stream position `p`.
pub open spec fn piece_covers(pieces: Seq<(int, Seq<u8>)>, j: int, p: int) -> bool {
    0 <= j < pieces.len() && pieces[j].0 <= p < seg_end(pieces[j])
}

/// An earlier piece ends at or before a later piece's start.
proof fn lemma_pieces_ordered(pieces: Seq<(int, Seq<u8>)>, a: int, b: int)
    requires
        pieces_wf(pieces),
        0 <= a < b < pieces.len(),
    ensures
        seg_end(pieces[a]) <= pieces[b].0,
    decreases b - a,
{
    assert(piece_linked(pieces, b));
    if a + 1 < b {
        lemma_pieces_ordered(pieces, a, b - 1);
    }
}

/// Each piece lies between offset zero and the pieces' end.
proof fn lemma_pieces_bounds(pieces: Seq<(int, Seq<u8>)>)
    requires
        pieces_wf(pieces),
    ensures
        forall|j: int|
            0 <= j < pieces.len() ==> 0 <= (#[trigger] pieces[j]).0 && seg_end(pieces[j])
                <= pieces_end(pieces),
    decreases pieces.len(),
{
    if pieces.len() > 0 {
        let front = pieces.drop_last();
        lemma_pieces_wf_front(pieces);
        lemma_pieces_bounds(front);
        assert(forall|i: int| 0 <= i < front.len() ==> front[i] == pieces[i]);
        assert(piece_linked(pieces, pieces.len() - 1));
        assert(pieces.len() > 1 ==> pieces_end(front) == pieces[pieces.len() - 1].0);
    }
}

/// Dropping the last piece keeps the run gapless.
proof fn lemma_pieces_wf_front(pieces: Seq<(int, Seq<u8>)>)
    requires
        pieces_wf(pieces),
        pieces.len() > 0,
    ensures
        pieces_wf(pieces.drop_last()),
{
    let front = pieces.drop_last();
    assert forall|i: int| 0 <= i < front.len() implies #[trigger] piece_linked(front, i) by {
        assert(piece_linked(pieces, i));
        assert(front[i] == pieces[i]);
        if i > 0 {
            assert(front[i - 1] == pieces[i - 1]);
        }
    }
}

/// At most one piece covers a position.
proof fn lemma_piece_cover_unique(pieces: Seq<(int, Seq<u8>)>, p: int, a: int, b: int)
    requires
        pieces_wf(pieces),
        piece_covers(pieces, a, p),
        piece_covers(pieces, b, p),
    ensures
        a == b,
{
    if a < b {
        lemma_pieces_ordered(pieces, a, b);
    }
    if b < a {
        lemma_pieces_ordered(pieces, b, a);
    }
}

/// Every position below the pieces' end is covered by some piece.
proof fn lemma_pieces_cover(pieces: Seq<(int, Seq<u8>)>, p: int)
    requires
        pieces_wf(pieces),
        0 <= p < pieces_end(pieces),
    ensures
        exists|j: int| #[trigger] piece_covers(pieces, j, p),
    decreases pieces.len(),
{
    let last = pieces.last();
    if p >= last.0 {
        assert(piece_covers(pieces, pieces.len() - 1, p));
    } else {
        let front = pieces.drop_last();
        lemma_pieces_wf_front(pieces);
        assert(piece_linked(pieces, pieces.len() - 1));
        assert(piece_linked(pieces, 0));
        assert(pieces_end(front) == last.0);
        lemma_pieces_cover(front, p);
        let j = choose|j: int| #[trigger] piece_covers(front, j, p);
        assert(front[j] == pieces[j]);
        assert(piece_covers(pieces, j, p));
    }
}

/// The concatenation is as long as the pieces' end.
proof fn lemma_pieces_concat_len(pieces: Seq<(int, Seq<u8>)>)
    requires
        pieces_wf(pieces),
    ensures
        pieces_concat(pieces).len() == pieces_end(pieces),
    decreases pieces.len(),
{
    if pieces.len() > 0 {
        let front = pieces.drop_last();
        lemma_pieces_wf_front(pieces);
        lemma_pieces_concat_len(front);
        assert(piece_linked(pieces, pieces.len() - 1));
        assert(pieces.len() > 1 ==> pieces_end(front) == pieces[pieces.len() - 1].0);
        assert(pieces.len() == 1 ==> pieces_end(front) == 0 && pieces[0].0 == 0);
    }
}

/// The concatenation reads, at each covered position, the covering
/// piece's byte.
proof fn lemma_pieces_concat_index(pieces: Seq<(int, Seq<u8>)>, j: int, p: int)
    requires
        pieces_wf(pieces),
        piece_covers(pieces, j, p),
    ensures
        0 <= p < pieces_concat(pieces).len(),
        pieces_concat(pieces)[p] == pieces[j].1[p - pieces[j].0],
    decreases pieces.len(),
{
    lemma_pieces_concat_len(pieces);
    lemma_pieces_bounds(pieces);
    let front = pieces.drop_last();
    lemma_pieces_wf_front(pieces);
    assert(piece_linked(pieces, pieces.len() - 1));
    assert(piece_linked(pieces, 0));
    if j == pieces.len() - 1 {
        lemma_pieces_concat_len(front);
        assert(pieces.len() > 1 ==> pieces_end(front) == pieces[j].0);
        assert(pieces.len() == 1 ==> pieces_end(front) == 0 && pieces[j].0 == 0);
    } else {
        assert(front[j] == pieces[j]);
        lemma_pieces_concat_index(front, j, p);
        lemma_pieces_concat_len(front);
        assert(pieces.len() > 1 ==> pieces_end(front) == pieces[pieces.len() - 1].0);
        lemma_pieces_ordered(pieces, j, pieces.len() - 1);
    }
}

/// One `recv` step preserves well-formedness; the frontier never moves
/// backwards and the capacity never changes.
pub proof fn lemma_spec_recv_wf(m: ReassemblerView, data: Seq<u8>, offset: int, eof: bool)
    requires
        m.wf(),
        0 <= offset,
        offset + data.len() <= usize::MAX,
    ensures
        spec_recv(m, data, offset, eof).wf(),
        spec_recv(m, data, offset, eof).frontier >= m.frontier,
        spec_recv(m, data, offset, eof).capacity == m.capacity,
{
    let e = offset + data.len();
    if data.len() == 0 {
    } else if e > m.frontier + m.avail() {
    } else if e <= m.frontier {
    } else if offset <= m.frontier {
        lemma_assemble_wf(m, data, offset);
    } else {
        lemma_insert_coalesce_wf(m, offset, data);
    }
}

/// Whether a submitted piece covers stream position `p`.
pub open spec fn piece_covers_some(pieces: Seq<(int, Seq<u8>)>, done: Set<int>, p: int) -> bool {
    exists|j: int| done.contains(j) && #[trigger] piece_covers(pieces, j, p)
}

/// The state of a never-drained reassembler that has taken in exactly the
/// pieces in `done`: it holds their positions and bytes and nothing else,
/// and can still admit every piece.
pub open spec fn pieces_inv(
    m: ReassemblerView,
    pieces: Seq<(int, Seq<u8>)>,
    done: Set<int>,
) -> bool {
    &&& m.wf()
    &&& m.assembled.len() == m.frontier
    &&& pieces_end(pieces) <= m.capacity
    &&& pieces_end(pieces) <= usize::MAX
    &&& forall|p: int| #[trigger] holds_at(m, p) ==> piece_covers_some(pieces, done, p)
    &&& forall|p: int| #[trigger] piece_covers_some(pieces, done, p) ==> holds_at(m, p)
    &&& forall|p: int, j: int|
        done.contains(j) && #[trigger] piece_covers(pieces, j, p) ==> byte_at(m, p) == pieces[j].1[
            p - pieces[j].0
        ]
}

/// Taking in one piece of a gapless run extends the invariant by that
/// piece, wherever it falls and whether or not it was taken in before.
#[verifier::rlimit(60)]
proof fn lemma_recv_piece(m: ReassemblerView, pieces: Seq<(int, Seq<u8>)>, done: Set<int>, j: int)
    requires
        pieces_wf(pieces),
        pieces_inv(m, pieces, done),
        0 <= j < pieces.len(),
    ensures
        pieces_inv(spec_recv(m, pieces[j].1, pieces[j].0, false), pieces, done.insert(j)),
{
    let o = pieces[j].0;
    let d = pieces[j].1;
    let e = o + d.len();
    lemma_pieces_bounds(pieces);
    let m1 = spec_recv(m, d, o, false);
    lemma_spec_recv_wf(m, d, o, false);
    let done1 = done.insert(j);
    assert(m.frontier - m.assembled.len() == 0);
    assert(e <= m.frontier + m.avail());
    if d.len() == 0 {
        assert(m1 == m);
        assert forall|p: int| #[trigger] holds_at(m1, p) implies piece_covers_some(
            pieces,
            done1,
            p,
        ) by {
            assert(piece_covers_some(pieces, done, p));
            let jj = choose|jj: int| done.contains(jj) && #[trigger] piece_covers(pieces, jj, p);
            assert(done1.contains(jj) && piece_covers(pieces, jj, p));
        }
        assert forall|p: int| #[trigger] piece_covers_some(pieces, done1, p) implies holds_at(
            m1,
            p,
        ) by {
            let jj = choose|jj: int| done1.contains(jj) && #[trigger] piece_covers(pieces, jj, p);
            assert(jj != j);
            assert(piece_covers_some(pieces, done, p));
        }
    } else if e <= m.frontier {
        assert(m1 == m);
        assert forall|p: int| #[trigger] holds_at(m1, p) implies piece_covers_some(
            pieces,
            done1,
            p,
        ) by {
            assert(piece_covers_some(pieces, done, p));
            let jj = choose|jj: int| done.contains(jj) && #[trigger] piece_covers(pieces, jj, p);
            assert(done1.contains(jj) && piece_covers(pieces, jj, p));
        }
        assert forall|p: int| #[trigger] piece_covers_some(pieces, done1, p) implies holds_at(
            m1,
            p,
        ) by {
            let jj = choose|jj: int| done1.contains(jj) && #[trigger] piece_covers(pieces, jj, p);
            if jj == j {
                assert(0 <= p < m.frontier);
                assert(holds_at(m, p));
            } else {
                assert(piece_covers_some(pieces, done, p));
            }
        }
        assert forall|p: int, jj: int|
            done1.contains(jj) && #[trigger] piece_covers(pieces, jj, p) implies byte_at(m1, p)
            == pieces[jj].1[p - pieces[jj].0] by {
            if jj == j {
                assert(0 <= p < m.frontier);
                assert(holds_at(m, p));
                assert(piece_covers_some(pieces, done, p));
                let j2 = choose|j2: int| done.contains(j2) && #[trigger] piece_covers(
                    pieces,
                    j2,
                    p,
                );
                lemma_piece_cover_unique(pieces, p, j2, j);
            }
        }
    } else if o <= m.frontier {
        lemma_assemble_content(m, d, o);
        assert(m1 == spec_assemble(m, d, o));
        let f0 = m.frontier;
        let f1 = m1.frontier;
        assert(m1.assembled.len() == m1.frontier);
        assert forall|p: int| #[trigger] holds_at(m1, p) implies piece_covers_some(
            pieces,
            done1,
            p,
        ) by {
            if holds_at(m, p) {
                assert(piece_covers_some(pieces, done, p));
                let jj = choose|jj: int| done.contains(jj) && #[trigger] piece_covers(
                    pieces,
                    jj,
                    p,
                );
                assert(done1.contains(jj) && piece_covers(pieces, jj, p));
            } else {
                assert(f0 <= p < f1);
                assert(p < e);
                assert(done1.contains(j) && piece_covers(pieces, j, p));
            }
        }
        assert forall|p: int| #[trigger] piece_covers_some(pieces, done1, p) implies holds_at(
            m1,
            p,
        ) by {
            let jj = choose|jj: int| done1.contains(jj) && #[trigger] piece_covers(pieces, jj, p);
            if jj == j {
                if p < f0 {
                    assert(holds_at(m, p));
                } else {
                    assert(f0 <= p < f1);
                }
            } else {
                assert(piece_covers_some(pieces, done, p));
                assert(holds_at(m, p));
            }
        }
        assert forall|p: int, jj: int|
            done1.contains(jj) && #[trigger] piece_covers(pieces, jj, p) implies byte_at(m1, p)
            == pieces[jj].1[p - pieces[jj].0] by {
            if f0 <= p < e {
                assert(piece_covers(pieces, j, p));
                lemma_piece_cover_unique(pieces, p, jj, j);
                assert(byte_at(m1, p) == d[p - o]);
            } else if jj == j {
                assert(o <= p < f0);
                assert(holds_at(m, p));
                assert(piece_covers_some(pieces, done, p));
                let j2 = choose|j2: int| done.contains(j2) && #[trigger] piece_covers(
                    pieces,
                    j2,
                    p,
                );
                lemma_piece_cover_unique(pieces, p, j2, j);
                assert(byte_at(m1, p) == byte_at(m, p));
            } else {
                assert(piece_covers_some(pieces, done, p));
                assert(holds_at(m, p));
                assert(byte_at(m1, p) == byte_at(m, p));
            }
        }
    } else {
        lemma_insert_content(m, o, d);
        assert(m1 == (ReassemblerView { segs: insert_coalesce(m.segs, o, d), ..m }));
        assert forall|p: int| #[trigger] holds_at(m1, p) implies piece_covers_some(
            pieces,
            done1,
            p,
        ) by {
            if holds_at(m, p) {
                assert(piece_covers_some(pieces, done, p));
                let jj = choose|jj: int| done.contains(jj) && #[trigger] piece_covers(
                    pieces,
                    jj,
                    p,
                );
                assert(done1.contains(jj) && piece_covers(pieces, jj, p));
            } else {
                assert(o <= p < e);
                assert(done1.contains(j) && piece_covers(pieces, j, p));
            }
        }
        assert forall|p: int| #[trigger] piece_covers_some(pieces, done1, p) implies holds_at(
            m1,
            p,
        ) by {
            let jj = choose|jj: int| done1.contains(jj) && #[trigger] piece_covers(pieces, jj, p);
            if jj != j {
                assert(piece_covers_some(pieces, done, p));
                assert(holds_at(m, p));
            }
        }
        assert forall|p: int, jj: int|
            done1.contains(jj) && #[trigger] piece_covers(pieces, jj, p) implies byte_at(m1, p)
            == pieces[jj].1[p - pieces[jj].0] by {
            if o <= p < e {
                assert(piece_covers(pieces, j, p));
                lemma_piece_cover_unique(pieces, p, jj, j);
                assert(byte_at(m1, p) == d[p - o]);
            } else {
                assert(jj != j);
                assert(piece_covers_some(pieces, done, p));
                assert(holds_at(m, p));
                assert(byte_at(m1, p) == byte_at(m, p));
            }
        }
    }
}

/// Submit the pieces named by `order`, in that order, each with a clear
/// end-of-stream flag.
pub open spec fn fold_recv(
    m: ReassemblerView,
    pieces: Seq<(int, Seq<u8>)>,
    order: Seq<int>,
) -> ReassemblerView
    decreases order.len(),
{
    if order.len() == 0 {
        m
    } else {
        fold_recv(
            spec_recv(m, pieces[order[0]].1, pieces[order[0]].0, false),
            pieces,
            order.drop_first(),
        )
    }
}

/// The set of piece indices a submission order names.
pub open spec fn order_members(order: Seq<int>) -> Set<int> {
    Set::new(|x: int| order.contains(x))
}

/// A sequence's members are its head and its tail's members.
proof fn lemma_order_members_step(order: Seq<int>)
    requires
        order.len() > 0,
    ensures
        forall|x: int|
            #[trigger] order.contains(x) <==> x == order[0] || order.drop_first().contains(x),
{
    assert forall|x: int| #[trigger] order.contains(x) implies x == order[0]
        || order.drop_first().contains(x) by {
        let i = choose|i: int| 0 <= i < order.len() && order[i] == x;
        if i > 0 {
            assert(order.drop_first()[i - 1] == x);
        }
    }
    assert forall|x: int| x == order[0] || order.drop_first().contains(x) implies order.contains(
        x,
    ) by {
        if x == order[0] {
            assert(order[0] == x);
        } else {
            let i = choose|i: int| 0 <= i < order.drop_first().len() && order.drop_first()[i] == x;
            assert(order[i + 1] == x);
        }
    }
}

/// Folding a submission order extends the invariant by the pieces the
/// order names.
proof fn lemma_fold_inv(
    m: ReassemblerView,
    pieces: Seq<(int, Seq<u8>)>,
    order: Seq<int>,
    done: Set<int>,
)
    requires
        pieces_wf(pieces),
        pieces_inv(m, pieces, done),
        forall|i: int| 0 <= i < order.len() ==> 0 <= #[trigger] order[i] < pieces.len(),
    ensures
        pieces_inv(fold_recv(m, pieces, order), pieces, done.union(order_members(order))),
    decreases order.len(),
{
    if order.len() == 0 {
        assert(done.union(order_members(order)) =~= done);
    } else {
        let j = order[0];
        lemma_recv_piece(m, pieces, done, j);
        let m1 = spec_recv(m, pieces[j].1, pieces[j].0, false);
        let rest = order.drop_first();
        assert(forall|i: int| 0 <= i < rest.len() ==> rest[i] == order[i + 1]);
        lemma_fold_inv(m1, pieces, rest, done.insert(j));
        lemma_order_members_step(order);
        assert(done.insert(j).union(order_members(rest)) =~= done.union(order_members(order)));
        assert(fold_recv(m, pieces, order) == fold_recv(m1, pieces, rest));
    }
}

/// Order independence: non-overlapping, gapless pieces covering the
/// stream from offset zero, submitted to a fresh reassembler of
/// sufficient capacity in any order that names every piece (repetitions
/// allowed), assemble to exactly their concatenation in offset order.
pub proof fn lemma_order_independence(
    m0: ReassemblerView,
    pieces: Seq<(int, Seq<u8>)>,
    order: Seq<int>,
)
    requires
        m0.wf(),
        m0.frontier == 0,
        m0.assembled.len() == 0,
        m0.segs.len() == 0,
        pieces_wf(pieces),
        pieces_end(pieces) <= m0.capacity,
        pieces_end(pieces) <= usize::MAX,
        forall|i: int| 0 <= i < order.len() ==> 0 <= #[trigger] order[i] < pieces.len(),
        forall|j: int| 0 <= j < pieces.len() ==> order.contains(j),
    ensures
        fold_recv(m0, pieces, order).assembled == pieces_concat(pieces),
{
    let n = pieces_end(pieces);
    lemma_pieces_bounds(pieces);
    assert(n >= 0) by {
        if pieces.len() > 0 {
            assert(0 <= pieces.last().0 <= seg_end(pieces.last()));
        }
    }
    assert(pieces_inv(m0, pieces, Set::empty())) by {
        assert forall|p: int| !(#[trigger] holds_at(m0, p)) by {
            if holds_at(m0, p) {
                let k = choose|k: int|
                    0 <= k < m0.segs.len() && (#[trigger] m0.segs[k]).0 <= p < seg_end(m0.segs[k]);
                assert(false);
            }
        }
        assert forall|p: int| !(#[trigger] piece_covers_some(pieces, Set::<int>::empty(), p)) by {
            if piece_covers_some(pieces, Set::<int>::empty(), p) {
                let jj = choose|jj: int|
                    Set::<int>::empty().contains(jj) && #[trigger] piece_covers(pieces, jj, p);
                assert(false);
            }
        }
    }
    lemma_fold_inv(m0, pieces, order, Set::empty());
    let mf = fold_recv(m0, pieces, order);
    let done = Set::empty().union(order_members(order));
    assert(forall|j: int| 0 <= j < pieces.len() ==> done.contains(j));
    // The frontier reaches exactly the pieces' end.
    assert(!holds_at(mf, mf.frontier)) by {
        if holds_at(mf, mf.frontier) {
            assert(!(mf.frontier - mf.assembled.len() <= mf.frontier < mf.frontier));
            let k = choose|k: int|
                0 <= k < mf.segs.len() && (#[trigger] mf.segs[k]).0 <= mf.frontier < seg_end(
                    mf.segs[k],
                );
            assert(mf.segs[k].0 > mf.frontier);
        }
    }
    assert(mf.frontier >= n) by {
        if mf.frontier < n {
            lemma_pieces_cover(pieces, mf.frontier);
            let jj = choose|jj: int| #[trigger] piece_covers(pieces, jj, mf.frontier);
            assert(done.contains(jj));
            assert(piece_covers_some(pieces, done, mf.frontier));
        }
    }
    assert(mf.frontier <= n) by {
        if mf.frontier > n {
            assert(mf.frontier - mf.assembled.len() <= n < mf.frontier);
            assert(holds_at(mf, n));
            assert(piece_covers_some(pieces, done, n));
            let jj = choose|jj: int| done.contains(jj) && #[trigger] piece_covers(pieces, jj, n);
            assert(seg_end(pieces[jj]) <= n);
        }
    }
    assert(mf.frontier == n);
    lemma_pieces_concat_len(pieces);
    assert(mf.assembled.len() == n);
    assert forall|p: int| 0 <= p < n implies mf.assembled[p] == pieces_concat(pieces)[p] by {
        assert(mf.frontier - mf.assembled.len() <= p < mf.frontier);
        assert(byte_at(mf, p) == mf.assembled[p]);
        lemma_pieces_cover(pieces, p);
        let jj = choose|jj: int| #[trigger] piece_covers(pieces, jj, p);
        assert(done.contains(jj));
        assert(byte_at(mf, p) == pieces[jj].1[p - pieces[jj].0]);
        lemma_pieces_concat_index(pieces, jj, p);
    }
    assert(mf.assembled =~= pieces_concat(pieces));
}

} // verus!
