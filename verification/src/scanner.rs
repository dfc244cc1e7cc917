//! Block scanner: probe every address of one block under a fan-out cap.
//!
//! The scanner is a state machine driven from outside: the caller asks it for
//! the next offset to probe ([`BlockScan::issue`]), performs the probe through
//! whatever transport it has, and hands the outcome back
//! ([`BlockScan::record`]). The scanner enforces the per-block concurrency
//! cap — it never has more offsets outstanding than `cap` — and guarantees
//! that the finished result set holds exactly one row per offset of the
//! block: no duplicate, no omission. Probe outcomes may come back in any
//! order.

use crate::partition::{
    block_size, spec_block_size, valid_block_id, valid_offset_bits,
};
use crate::seq_facts::lemma_push_contains;
use vstd::prelude::*;

verus! {

/// Whether a row for offset `o` stands in the rows `s`.
pub open spec fn has_result(s: Seq<(u64, bool)>, o: u64) -> bool {
    exists|i: int| 0 <= i < s.len() && s[i].0 == o
}

/// A complete result set for a block of `size` addresses: one row per
/// offset, no duplicate, no omission.
pub open spec fn complete_result_set(s: Seq<(u64, bool)>, size: nat) -> bool {
    &&& s.len() == size
    &&& forall|i: int, j: int| 0 <= i < j < s.len() ==> s[i].0 != s[j].0
    &&& forall|i: int| 0 <= i < s.len() ==> s[i].0 < size
    &&& forall|o: u64| o < size ==> has_result(s, o)
}

/// The scan of one block, part way through: offsets `0..issued` have been
/// handed out; those in `inflight` await their outcome; `results` holds one
/// row per outcome already recorded.
pub struct BlockScan {
    pub block_id: u64,
    pub offset_bits: u32,
    pub cap: usize,
    pub issued: u64,
    pub inflight: Vec<u64>,
    pub results: Vec<(u64, bool)>,
}

impl BlockScan {
    /// Every issued offset is either in flight or recorded, never both; no
    /// offset is tracked twice; and — the bounded fan-out guarantee — never
    /// more than `cap` offsets are in flight.
    pub open spec fn wf(self) -> bool {
        &&& valid_offset_bits(self.offset_bits)
        &&& valid_block_id(self.offset_bits, self.block_id)
        &&& self.cap >= 1
        &&& self.issued <= spec_block_size(self.offset_bits)
        &&& self.inflight@.len() <= self.cap
        &&& self.results@.len() + self.inflight@.len() == self.issued
        &&& forall|i: int| 0 <= i < self.inflight@.len() ==> self.inflight@[i] < self.issued
        &&& forall|i: int, j: int|
            0 <= i < j < self.inflight@.len() ==> self.inflight@[i] != self.inflight@[j]
        &&& forall|i: int| 0 <= i < self.results@.len() ==> self.results@[i].0 < self.issued
        &&& forall|i: int, j: int|
            0 <= i < j < self.results@.len() ==> self.results@[i].0 != self.results@[j].0
        &&& forall|o: u64|
            o < self.issued ==> (self.inflight@.contains(o) <==> !has_result(self.results@, o))
    }

    /// Start the scan of one block under a fan-out cap of at least one.
    pub fn new(offset_bits: u32, block_id: u64, cap: usize) -> (r: BlockScan)
        requires
            valid_offset_bits(offset_bits),
            valid_block_id(offset_bits, block_id),
            cap >= 1,
        ensures
            r.wf(),
            r.block_id == block_id,
            r.offset_bits == offset_bits,
            r.cap == cap,
            r.issued == 0,
            r.inflight@.len() == 0,
            r.results@.len() == 0,
    {
        BlockScan {
            block_id,
            offset_bits,
            cap,
            issued: 0,
            inflight: Vec::new(),
            results: Vec::new(),
        }
    }

    /// Whether another probe may start now: the block has unissued offsets
    /// and a fan-out slot is free.
    pub fn can_issue(&self) -> (r: bool)
        requires
            self.wf(),
        ensures
            r == (self.issued < spec_block_size(self.offset_bits) && self.inflight@.len()
                < self.cap),
    {
        let bs = block_size(self.offset_bits);
        self.issued < bs && self.inflight.len() < self.cap
    }

    /// Hand out the next offset to probe. It counts against the fan-out cap
    /// until its outcome is recorded.
    pub fn issue(&mut self) -> (o: u64)
        requires
            old(self).wf(),
            old(self).issued < spec_block_size(old(self).offset_bits),
            old(self).inflight@.len() < old(self).cap,
        ensures
            final(self).wf(),
            o == old(self).issued,
            final(self).issued == old(self).issued + 1,
            final(self).inflight@ == old(self).inflight@.push(o),
            final(self).inflight@.len() <= final(self).cap,
            final(self).results == old(self).results,
            final(self).block_id == old(self).block_id,
            final(self).offset_bits == old(self).offset_bits,
            final(self).cap == old(self).cap,
    {
        proof {
            vstd::bits::lemma_u64_pow2_no_overflow(self.offset_bits as nat);
        }
        let o = self.issued;
        self.inflight.push(o);
        self.issued = self.issued + 1;
        proof {
            lemma_push_contains(old(self).inflight@, o);
        }
        o
    }

    /// Record the outcome of one probe: the offset leaves the in-flight set
    /// and its row — exactly the reported reachability — joins the results.
    pub fn record(&mut self, offset: u64, reachable: bool)
        requires
            old(self).wf(),
            old(self).inflight@.contains(offset),
        ensures
            final(self).wf(),
            final(self).results@ == old(self).results@.push((offset, reachable)),
            final(self).inflight@.len() == old(self).inflight@.len() - 1,
            forall|o: u64|
                final(self).inflight@.contains(o) <==> (old(self).inflight@.contains(o) && o
                    != offset),
            final(self).issued == old(self).issued,
            final(self).block_id == old(self).block_id,
            final(self).offset_bits == old(self).offset_bits,
            final(self).cap == old(self).cap,
    {
        let ghost s0 = *self;
        let mut j: usize = 0;
        while j < self.inflight.len()
            invariant
                *self == s0,
                s0 == *old(self),
                s0.wf(),
                s0.inflight@.contains(offset),
                j <= self.inflight@.len(),
                forall|k: int| 0 <= k < j ==> self.inflight@[k] != offset,
            decreases self.inflight@.len() - j,
        {
            if self.inflight[j] == offset {
                self.inflight.remove(j);
                self.results.push((offset, reachable));
                proof {
                    s0.inflight@.remove_ensures(j as int);
                    assert forall|o: u64| self.inflight@.contains(o) implies (
                    s0.inflight@.contains(o) && o != offset) by {
                        let w = choose|w: int|
                            0 <= w < self.inflight@.len() && self.inflight@[w] == o;
                        if w < j {
                            assert(s0.inflight@[w] == o);
                        } else {
                            assert(s0.inflight@[w + 1] == o);
                        }
                    }
                    assert forall|o: u64| s0.inflight@.contains(o) && o != offset implies self
                        .inflight@.contains(o) by {
                        let w = choose|w: int|
                            0 <= w < s0.inflight@.len() && s0.inflight@[w] == o;
                        if w < j {
                            assert(self.inflight@[w] == o);
                        } else {
                            assert(w != j);
                            assert(self.inflight@[w - 1] == o);
                        }
                    }
                    assert forall|o: u64| o < self.issued implies (self.inflight@.contains(o)
                        <==> !has_result(self.results@, o)) by {
                        if o == offset {
                            assert(self.results@[self.results@.len() - 1].0 == o);
                        } else {
                            if has_result(s0.results@, o) {
                                let w = choose|w: int|
                                    0 <= w < s0.results@.len() && s0.results@[w].0 == o;
                                assert(self.results@[w].0 == o);
                            }
                            if has_result(self.results@, o) {
                                let w = choose|w: int|
                                    0 <= w < self.results@.len() && self.results@[w].0 == o;
                                assert(s0.results@[w].0 == o);
                            }
                        }
                    }
                }
                return;
            }
            j = j + 1;
        }
        proof {
            let w = choose|w: int|
                0 <= w < s0.inflight@.len() && s0.inflight@[w] == offset;
            assert(false);
        }
    }

    /// Whether every offset of the block has been issued and recorded.
    pub fn is_done(&self) -> (r: bool)
        requires
            self.wf(),
        ensures
            r == (self.issued == spec_block_size(self.offset_bits) && self.inflight@.len() == 0),
    {
        let bs = block_size(self.offset_bits);
        self.issued == bs && self.inflight.len() == 0
    }

    /// The finished scan's result set: exactly one row per offset of the
    /// block, each holding the reachability that was recorded for it.
    pub fn into_results(self) -> (r: Vec<(u64, bool)>)
        requires
            self.wf(),
            self.issued == spec_block_size(self.offset_bits),
            self.inflight@.len() == 0,
        ensures
            r@ == self.results@,
            complete_result_set(r@, spec_block_size(self.offset_bits)),
    {
        proof {
            assert forall|o: u64| o < spec_block_size(self.offset_bits) implies has_result(
                self.results@,
                o,
            ) by {
                assert(!self.inflight@.contains(o));
            }
        }
        self.results
    }
}

/// Bounded fan-out: however a scan is driven, a well-formed scan state never
/// has more probes outstanding than its configured cap.
pub proof fn lemma_bounded_fanout(s: BlockScan)
    requires
        s.wf(),
    ensures
        s.inflight@.len() <= s.cap,
{
}

} // verus!
