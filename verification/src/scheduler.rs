//! Scheduler: a bounded pool of concurrently in-flight blocks.
//!
//! The scheduler owns the scan cursor and a queue of blocks that must be
//! scanned again (gaps found at startup, commits that failed and are
//! retried). It is a state machine driven from outside: the caller asks for
//! the next assignment, runs the block scan and the ledger commit through its
//! own transport and store, and reports how each ended. Queued blocks are
//! always dispatched ahead of fresh ground, so a missed block is re-scanned
//! before new blocks are started — coverage is at-least-once, never
//! at-most-once. A scan abandoned at shutdown leaves its block pending, to be
//! recovered by the next run's high-water-mark and gap logic.

use crate::partition::{block_count, spec_block_count, valid_block_id, valid_offset_bits};
use vstd::prelude::*;

verus! {

/// The failures a run surfaces: an invalid configuration, or a storage
/// commit that kept failing after its bounded retries.
#[derive(Clone, Copy, Debug, PartialEq, Eq, Structural)]
pub enum ScanError {
    Configuration,
    OperationFailed,
}

/// One worker slot: idle, or scanning a block that has been re-attempted a
/// recorded number of times.
#[derive(Clone, Copy, Debug)]
pub enum SlotState {
    Idle,
    Assigned(u64, u32),
}

/// The scheduler's whole state between two events.
#[derive(Debug)]
pub struct Scheduler {
    pub offset_bits: u32,
    /// Next block id of fresh ground.
    pub cursor: u64,
    /// Blocks to scan before fresh ground, each with its attempt count.
    pub queue: Vec<(u64, u32)>,
    pub slots: Vec<SlotState>,
    /// Successful commits of this run.
    pub committed: u64,
    /// Stop after this many successful commits; `None` runs to completion.
    pub limit: Option<u64>,
    /// How many times a failed commit is re-enqueued before the run aborts.
    pub max_retries: u32,
    pub shutting_down: bool,
}

impl Scheduler {
    pub open spec fn wf(self) -> bool {
        &&& valid_offset_bits(self.offset_bits)
        &&& self.cursor <= spec_block_count(self.offset_bits)
        &&& self.slots@.len() >= 1
        &&& forall|i: int|
            0 <= i < self.queue@.len() ==> valid_block_id(self.offset_bits, self.queue@[i].0)
        &&& forall|i: int|
            0 <= i < self.slots@.len() ==> ((#[trigger] self.slots@[i]) matches
            SlotState::Assigned(b, _) ==> valid_block_id(self.offset_bits, b))
    }

    /// Whether the bounded-count termination condition is met.
    pub open spec fn limit_reached(self) -> bool {
        match self.limit {
            Some(l) => self.committed >= l,
            None => false,
        }
    }

    /// Whether any block may still be handed out: the run is not stopping
    /// and either a re-enqueued block waits or fresh ground remains.
    pub open spec fn may_dispatch(self) -> bool {
        &&& !self.shutting_down
        &&& !self.limit_reached()
        &&& (self.queue@.len() > 0 || self.cursor < spec_block_count(self.offset_bits))
    }

    pub open spec fn all_idle(self) -> bool {
        forall|i: int| 0 <= i < self.slots@.len() ==> self.slots@[i] is Idle
    }

    /// Build the state of one run. The cursor resumes right after the
    /// high-water mark and the detected gaps are queued ahead of it. An
    /// invalid offset width, an empty pool, or an out-of-range block id is a
    /// fatal configuration error.
    pub fn startup(
        offset_bits: u32,
        num_slots: usize,
        highest: Option<u64>,
        gaps: &Vec<u64>,
        limit: Option<u64>,
        max_retries: u32,
    ) -> (r: Result<Scheduler, ScanError>)
        ensures
            r is Ok <==> (valid_offset_bits(offset_bits) && num_slots >= 1 && (match highest {
                Some(h) => valid_block_id(offset_bits, h),
                None => true,
            }) && (forall|i: int|
                0 <= i < gaps@.len() ==> valid_block_id(offset_bits, gaps@[i]))),
            r matches Err(e) ==> e == ScanError::Configuration,
            r matches Ok(s) ==> {
                &&& s.wf()
                &&& s.offset_bits == offset_bits
                &&& s.cursor == (match highest {
                    Some(h) => h + 1,
                    None => 0,
                })
                &&& s.queue@.len() == gaps@.len()
                &&& forall|i: int| 0 <= i < gaps@.len() ==> s.queue@[i] == (gaps@[i], 0u32)
                &&& s.slots@.len() == num_slots
                &&& s.all_idle()
                &&& s.committed == 0
                &&& s.limit == limit
                &&& s.max_retries == max_retries
                &&& !s.shutting_down
            },
    {
        if offset_bits > 32 || num_slots == 0 {
            return Err(ScanError::Configuration);
        }
        let count = block_count(offset_bits);
        let cursor: u64 = match highest {
            Some(h) => {
                if h >= count {
                    return Err(ScanError::Configuration);
                }
                h + 1
            },
            None => 0,
        };
        let mut queue: Vec<(u64, u32)> = Vec::new();
        let mut i: usize = 0;
        while i < gaps.len()
            invariant
                i <= gaps@.len(),
                count == spec_block_count(offset_bits),
                valid_offset_bits(offset_bits),
                queue@.len() == i,
                forall|k: int| 0 <= k < i ==> queue@[k] == (gaps@[k], 0u32),
                forall|k: int| 0 <= k < i ==> valid_block_id(offset_bits, gaps@[k]),
                forall|k: int| 0 <= k < i ==> valid_block_id(offset_bits, queue@[k].0),
            decreases gaps@.len() - i,
        {
            let g = gaps[i];
            if g >= count {
                return Err(ScanError::Configuration);
            }
            queue.push((g, 0));
            i = i + 1;
        }
        let mut slots: Vec<SlotState> = Vec::new();
        let mut j: usize = 0;
        while j < num_slots
            invariant
                j <= num_slots,
                slots@.len() == j,
                forall|k: int| 0 <= k < j ==> slots@[k] is Idle,
            decreases num_slots - j,
        {
            slots.push(SlotState::Idle);
            j = j + 1;
        }
        Ok(
            Scheduler {
                offset_bits,
                cursor,
                queue,
                slots,
                committed: 0,
                limit,
                max_retries,
                shutting_down: false,
            },
        )
    }

    /// Hand the next block to a free slot: a re-enqueued block if one waits,
    /// else the block under the cursor. `None` when nothing may be
    /// dispatched or no slot is free.
    pub fn next_assignment(&mut self) -> (r: Option<(usize, u64)>)
        requires
            old(self).wf(),
        ensures
            final(self).wf(),
            final(self).offset_bits == old(self).offset_bits,
            final(self).slots@.len() == old(self).slots@.len(),
            final(self).committed == old(self).committed,
            final(self).limit == old(self).limit,
            final(self).max_retries == old(self).max_retries,
            final(self).shutting_down == old(self).shutting_down,
            r is None ==> *final(self) == *old(self),
            r is None <==> (!old(self).may_dispatch() || forall|i: int|
                0 <= i < old(self).slots@.len() ==> !(old(self).slots@[i] is Idle)),
            r matches Some((slot, b)) ==> {
                &&& old(self).may_dispatch()
                &&& 0 <= slot < old(self).slots@.len()
                &&& old(self).slots@[slot as int] is Idle
                &&& valid_block_id(old(self).offset_bits, b)
                &&& (if old(self).queue@.len() > 0 {
                    &&& b == old(self).queue@[0].0
                    &&& final(self).slots@ == old(self).slots@.update(
                        slot as int,
                        SlotState::Assigned(b, old(self).queue@[0].1),
                    )
                    &&& final(self).queue@ == old(self).queue@.subrange(
                        1,
                        old(self).queue@.len() as int,
                    )
                    &&& final(self).cursor == old(self).cursor
                } else {
                    &&& b == old(self).cursor
                    &&& final(self).slots@ == old(self).slots@.update(
                        slot as int,
                        SlotState::Assigned(b, 0u32),
                    )
                    &&& final(self).queue@ == old(self).queue@
                    &&& final(self).cursor == old(self).cursor + 1
                })
            },
    {
        if self.shutting_down {
            return None;
        }
        match self.limit {
            Some(l) => {
                if self.committed >= l {
                    return None;
                }
            },
            None => {},
        }
        let count = block_count(self.offset_bits);
        if self.queue.len() == 0 && self.cursor >= count {
            return None;
        }
        let mut slot: usize = 0;
        while slot < self.slots.len()
            invariant
                *self == *old(self),
                old(self).wf(),
                old(self).may_dispatch(),
                slot <= self.slots@.len(),
                forall|k: int| 0 <= k < slot ==> !(self.slots@[k] is Idle),
            decreases self.slots@.len() - slot,
        {
            let free = match self.slots[slot] {
                SlotState::Idle => true,
                SlotState::Assigned(_, _) => false,
            };
            if free {
                if self.queue.len() > 0 {
                    let (b, attempts) = self.queue.remove(0);
                    self.slots[slot] = SlotState::Assigned(b, attempts);
                    return Some((slot, b));
                } else {
                    proof {
                        vstd::bits::lemma_u64_pow2_no_overflow(
                            (32 - self.offset_bits) as nat,
                        );
                    }
                    let b = self.cursor;
                    self.slots[slot] = SlotState::Assigned(b, 0);
                    self.cursor = self.cursor + 1;
                    return Some((slot, b));
                }
            }
            slot = slot + 1;
        }
        None
    }

    /// A slot's block was scanned and its commit succeeded: free the slot
    /// and count the commit (the count sticks at its maximum rather than
    /// wrap).
    pub fn commit_ok(&mut self, slot: usize)
        requires
            old(self).wf(),
            slot < old(self).slots@.len(),
            old(self).slots@[slot as int] is Assigned,
        ensures
            final(self).wf(),
            final(self).slots@ == old(self).slots@.update(slot as int, SlotState::Idle),
            final(self).committed == (if old(self).committed == u64::MAX {
                u64::MAX
            } else {
                (old(self).committed + 1) as u64
            }),
            final(self).cursor == old(self).cursor,
            final(self).queue == old(self).queue,
            final(self).offset_bits == old(self).offset_bits,
            final(self).limit == old(self).limit,
            final(self).max_retries == old(self).max_retries,
            final(self).shutting_down == old(self).shutting_down,
    {
        self.slots[slot] = SlotState::Idle;
        if self.committed < u64::MAX {
            self.committed = self.committed + 1;
        }
    }

    /// A slot's commit failed: free the slot and re-enqueue the block for
    /// another attempt, unless its bounded retries are exhausted — then the
    /// failure is fatal and the block stays pending.
    pub fn commit_failed(&mut self, slot: usize) -> (r: Option<ScanError>)
        requires
            old(self).wf(),
            slot < old(self).slots@.len(),
            old(self).slots@[slot as int] is Assigned,
        ensures
            final(self).wf(),
            final(self).slots@ == old(self).slots@.update(slot as int, SlotState::Idle),
            old(self).slots@[slot as int] matches SlotState::Assigned(b, attempts) ==> (if attempts
                < old(self).max_retries {
                &&& r is None
                &&& final(self).queue@ == old(self).queue@.push((b, (attempts + 1) as u32))
            } else {
                &&& r == Some(ScanError::OperationFailed)
                &&& final(self).queue@ == old(self).queue@
            }),
            final(self).cursor == old(self).cursor,
            final(self).committed == old(self).committed,
            final(self).offset_bits == old(self).offset_bits,
            final(self).limit == old(self).limit,
            final(self).max_retries == old(self).max_retries,
            final(self).shutting_down == old(self).shutting_down,
    {
        let (b, attempts) = match self.slots[slot] {
            SlotState::Assigned(b, a) => (b, a),
            SlotState::Idle => (0, 0),
        };
        self.slots[slot] = SlotState::Idle;
        if attempts < self.max_retries {
            self.queue.push((b, attempts + 1));
            None
        } else {
            Some(ScanError::OperationFailed)
        }
    }

    /// A slot's scan exceeded the drain timeout and was abandoned: free the
    /// slot. Its block stays pending and the next run recovers it.
    pub fn drain_timeout(&mut self, slot: usize)
        requires
            old(self).wf(),
            slot < old(self).slots@.len(),
            old(self).slots@[slot as int] is Assigned,
        ensures
            final(self).wf(),
            final(self).slots@ == old(self).slots@.update(slot as int, SlotState::Idle),
            final(self).cursor == old(self).cursor,
            final(self).queue == old(self).queue,
            final(self).committed == old(self).committed,
            final(self).offset_bits == old(self).offset_bits,
            final(self).limit == old(self).limit,
            final(self).max_retries == old(self).max_retries,
            final(self).shutting_down == old(self).shutting_down,
    {
        self.slots[slot] = SlotState::Idle;
    }

    /// Stop handing out new blocks; outstanding scans drain.
    pub fn begin_shutdown(&mut self)
        requires
            old(self).wf(),
        ensures
            final(self).wf(),
            final(self).shutting_down,
            final(self).slots == old(self).slots,
            final(self).queue == old(self).queue,
            final(self).cursor == old(self).cursor,
            final(self).committed == old(self).committed,
            final(self).offset_bits == old(self).offset_bits,
            final(self).limit == old(self).limit,
            final(self).max_retries == old(self).max_retries,
    {
        self.shutting_down = true;
    }

    /// The run is over: nothing may be dispatched any more and every
    /// outstanding scan has drained.
    pub fn is_finished(&self) -> (r: bool)
        requires
            self.wf(),
        ensures
            r == (!self.may_dispatch() && self.all_idle()),
    {
        if self.shutting_down || self.limit_hit() {
        } else {
            let count = block_count(self.offset_bits);
            if self.queue.len() > 0 || self.cursor < count {
                return false;
            }
        }
        let mut i: usize = 0;
        while i < self.slots.len()
            invariant
                i <= self.slots@.len(),
                forall|k: int| 0 <= k < i ==> self.slots@[k] is Idle,
            decreases self.slots@.len() - i,
        {
            let idle = match self.slots[i] {
                SlotState::Idle => true,
                SlotState::Assigned(_, _) => false,
            };
            if !idle {
                return false;
            }
            i = i + 1;
        }
        true
    }

    /// Whether the bounded-count termination condition is met.
    pub fn limit_hit(&self) -> (r: bool)
        ensures
            r == self.limit_reached(),
    {
        match self.limit {
            Some(l) => self.committed >= l,
            None => false,
        }
    }
}

} // verus!
