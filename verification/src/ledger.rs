//! Crash-consistent progress ledger.
//!
//! The durable store holds progress markers (one per completed block) and one
//! result set per completed block. This module models the store's contents
//! exactly ([`StoreModel`], viewed as a [`LedgerView`]) and plans a commit as
//! an ordered list of store operations ([`CommitStep`]): clear the stale
//! marker, clear the stale result set, write every row, and only then write
//! the marker. The ordering is the correctness-critical contract: whatever
//! prefix of a commit survives a crash, the marker is absent unless every row
//! was written first, so a marker's presence always implies a complete result
//! set and an interrupted block is observably pending.

use crate::seq_facts::{lemma_insert_to_set, lemma_push_contains, lemma_remove_to_set};
use vstd::prelude::*;

verus! {

/// One operation of the durable store, in the order a commit issues them.
pub enum CommitStep {
    /// Delete the progress marker of a block, if present.
    ClearMarker(u64),
    /// Drop the result set of a block, if present.
    ClearResults(u64),
    /// Append one row `(offset, reachable)` to the result set of a block,
    /// creating the set when absent.
    PutRow(u64, u64, bool),
    /// Write the progress marker of a block.
    PutMarker(u64),
}

/// Abstract contents of the durable store: which blocks carry a progress
/// marker, and the rows of each stored result set.
#[verifier::ext_equal]
pub ghost struct LedgerView {
    pub markers: Set<u64>,
    pub sets: Map<u64, Seq<(u64, bool)>>,
}

/// What one store operation does to the store's contents.
pub open spec fn step_spec(v: LedgerView, step: CommitStep) -> LedgerView {
    match step {
        CommitStep::ClearMarker(b) => LedgerView { markers: v.markers.remove(b), sets: v.sets },
        CommitStep::ClearResults(b) => LedgerView { markers: v.markers, sets: v.sets.remove(b) },
        CommitStep::PutRow(b, o, reach) => LedgerView {
            markers: v.markers,
            sets: if v.sets.dom().contains(b) {
                v.sets.insert(b, v.sets[b].push((o, reach)))
            } else {
                v.sets.insert(b, seq![(o, reach)])
            },
        },
        CommitStep::PutMarker(b) => LedgerView { markers: v.markers.insert(b), sets: v.sets },
    }
}

/// The store's contents after the first `n` steps of a plan.
pub open spec fn plan_spec(v: LedgerView, plan: Seq<CommitStep>, n: int) -> LedgerView
    decreases n,
{
    if n <= 0 {
        v
    } else {
        step_spec(plan_spec(v, plan, n - 1), plan[n - 1])
    }
}

/// The ordered operations that commit one block: stale marker out, stale
/// rows out, every row in, marker last.
pub open spec fn commit_plan_spec(block: u64, results: Seq<(u64, bool)>) -> Seq<CommitStep> {
    seq![CommitStep::ClearMarker(block), CommitStep::ClearResults(block)]
        + Seq::new(results.len(), |i: int| CommitStep::PutRow(block, results[i].0, results[i].1))
        + seq![CommitStep::PutMarker(block)]
}

/// In-memory model of the durable store: the markers in ascending order and
/// one result set per marked-or-pending block, keyed by block id.
pub struct StoreModel {
    pub markers: Vec<u64>,
    pub sets: Vec<(u64, Vec<(u64, bool)>)>,
}

pub open spec fn strictly_ascending(s: Seq<u64>) -> bool {
    forall|i: int, j: int| 0 <= i < j < s.len() ==> s[i] < s[j]
}

/// How many of the highest completed ids a head inspection of depth `n`
/// sees: `n`, or all of them when fewer are completed.
pub open spec fn head_count(m: Seq<u64>, n: usize) -> int {
    if n as int <= m.len() {
        n as int
    } else {
        m.len() as int
    }
}

/// The result sets of an association list, as a map from block id to rows.
pub open spec fn assoc_map(s: Seq<(u64, Vec<(u64, bool)>)>) -> Map<u64, Seq<(u64, bool)>>
    decreases s.len(),
{
    if s.len() == 0 {
        Map::empty()
    } else {
        assoc_map(s.drop_last()).insert(s.last().0, s.last().1@)
    }
}

proof fn lemma_assoc_dom(s: Seq<(u64, Vec<(u64, bool)>)>)
    ensures
        forall|b: u64|
            assoc_map(s).dom().contains(b) <==> exists|j: int| 0 <= j < s.len() && s[j].0 == b,
    decreases s.len(),
{
    if s.len() > 0 {
        lemma_assoc_dom(s.drop_last());
        assert forall|b: u64| assoc_map(s).dom().contains(b) implies exists|j: int|
            0 <= j < s.len() && s[j].0 == b by {
            if b == s.last().0 {
                assert(s[s.len() - 1].0 == b);
            } else {
                assert(assoc_map(s.drop_last()).dom().contains(b));
                let j = choose|j: int| 0 <= j < s.drop_last().len() && s.drop_last()[j].0 == b;
                assert(s[j].0 == b);
            }
        };
        assert forall|b: u64| (exists|j: int| 0 <= j < s.len() && s[j].0 == b) implies assoc_map(
            s,
        ).dom().contains(b) by {
            let j = choose|j: int| 0 <= j < s.len() && s[j].0 == b;
            if j < s.len() - 1 {
                assert(s.drop_last()[j].0 == b);
                assert(assoc_map(s.drop_last()).dom().contains(b));
            } else {
                assert(b == s.last().0);
            }
        };
    }
}

proof fn lemma_assoc_get(s: Seq<(u64, Vec<(u64, bool)>)>, i: int)
    requires
        0 <= i < s.len(),
        forall|p: int, q: int| 0 <= p < q < s.len() ==> s[p].0 != s[q].0,
    ensures
        assoc_map(s).dom().contains(s[i].0),
        assoc_map(s)[s[i].0] == s[i].1@,
    decreases s.len(),
{
    if i < s.len() - 1 {
        lemma_assoc_get(s.drop_last(), i);
        assert(s.drop_last()[i] == s[i]);
        assert(s.last().0 != s[i].0);
    }
}

proof fn lemma_assoc_remove(s: Seq<(u64, Vec<(u64, bool)>)>, i: int)
    requires
        0 <= i < s.len(),
        forall|p: int, q: int| 0 <= p < q < s.len() ==> s[p].0 != s[q].0,
    ensures
        assoc_map(s.remove(i)) =~= assoc_map(s).remove(s[i].0),
    decreases s.len(),
{
    lemma_assoc_dom(s.drop_last());
    if i == s.len() - 1 {
        assert(s.remove(i) =~= s.drop_last());
        assert(!assoc_map(s.drop_last()).dom().contains(s[i].0));
        assert(assoc_map(s.drop_last()).insert(s.last().0, s.last().1@).remove(s[i].0)
            =~= assoc_map(s.drop_last()));
    } else {
        let t = s.remove(i);
        s.remove_ensures(i);
        assert(t.drop_last() =~= s.drop_last().remove(i));
        assert(t.last() == s.last());
        lemma_assoc_remove(s.drop_last(), i);
        assert(s.drop_last()[i] == s[i]);
        assert(assoc_map(t) == assoc_map(s.drop_last()).remove(s[i].0).insert(
            s.last().0,
            s.last().1@,
        ));
        assert(s.last().0 != s[i].0);
        assert(assoc_map(s.drop_last()).remove(s[i].0).insert(s.last().0, s.last().1@)
            =~= assoc_map(s.drop_last()).insert(s.last().0, s.last().1@).remove(s[i].0));
    }
}

proof fn lemma_assoc_update(s: Seq<(u64, Vec<(u64, bool)>)>, i: int, e: (u64, Vec<(u64, bool)>))
    requires
        0 <= i < s.len(),
        forall|p: int, q: int| 0 <= p < q < s.len() ==> s[p].0 != s[q].0,
        e.0 == s[i].0,
    ensures
        assoc_map(s.update(i, e)) =~= assoc_map(s).insert(e.0, e.1@),
    decreases s.len(),
{
    let t = s.update(i, e);
    if i == s.len() - 1 {
        assert(t.drop_last() =~= s.drop_last());
        assert(t.last() == e);
    } else {
        assert(t.drop_last() =~= s.drop_last().update(i, e));
        assert(t.last() == s.last());
        lemma_assoc_update(s.drop_last(), i, e);
        assert(s.drop_last()[i] == s[i]);
        assert(s.last().0 != e.0);
        assert(assoc_map(s.drop_last()).insert(e.0, e.1@).insert(s.last().0, s.last().1@)
            =~= assoc_map(s.drop_last()).insert(s.last().0, s.last().1@).insert(e.0, e.1@));
    }
}

impl View for StoreModel {
    type V = LedgerView;

    open spec fn view(&self) -> LedgerView {
        LedgerView { markers: self.markers@.to_set(), sets: assoc_map(self.sets@) }
    }
}

impl StoreModel {
    /// Markers are kept in ascending order with no duplicate, and at most
    /// one result set exists per block id.
    pub open spec fn wf(self) -> bool {
        &&& strictly_ascending(self.markers@)
        &&& forall|i: int, j: int|
            0 <= i < j < self.sets@.len() ==> self.sets@[i].0 != self.sets@[j].0
    }

    /// An empty store: nothing completed, nothing written.
    pub fn new() -> (r: StoreModel)
        ensures
            r.wf(),
            r@.markers == Set::<u64>::empty(),
            r@.sets == Map::<u64, Seq<(u64, bool)>>::empty(),
    {
        let r = StoreModel { markers: Vec::new(), sets: Vec::new() };
        proof {
            assert(r@.markers =~= Set::<u64>::empty());
        }
        r
    }

    /// A block is complete exactly when its progress marker is present.
    pub fn is_complete(&self, block: u64) -> (r: bool)
        ensures
            r == self@.markers.contains(block),
    {
        let mut i: usize = 0;
        while i < self.markers.len()
            invariant
                i <= self.markers@.len(),
                forall|k: int| 0 <= k < i ==> self.markers@[k] != block,
            decreases self.markers@.len() - i,
        {
            if self.markers[i] == block {
                return true;
            }
            i = i + 1;
        }
        false
    }

    /// Write the progress marker of `block`, keeping the markers ascending;
    /// a marker is never stored twice.
    fn put_marker(&mut self, block: u64)
        requires
            old(self).wf(),
        ensures
            final(self).wf(),
            final(self)@.markers == old(self)@.markers.insert(block),
            final(self)@.sets == old(self)@.sets,
    {
        let ghost s0 = *self;
        let mut i: usize = 0;
        while i < self.markers.len() && self.markers[i] < block
            invariant
                *self == s0,
                s0 == *old(self),
                s0.wf(),
                i <= self.markers@.len(),
                forall|k: int| 0 <= k < i ==> self.markers@[k] < block,
            decreases self.markers@.len() - i,
        {
            i = i + 1;
        }
        if i < self.markers.len() && self.markers[i] == block {
            proof {
                assert(s0@.markers.contains(block));
                assert(s0@.markers.insert(block) =~= s0@.markers);
            }
        } else {
            self.markers.insert(i, block);
            proof {
                lemma_insert_to_set(s0.markers@, i as int, block);
                s0.markers@.insert_ensures(i as int, block);
                assert forall|p: int, q: int|
                    0 <= p < q < self.markers@.len() implies self.markers@[p]
                    < self.markers@[q] by {
                    if q < i {
                    } else if p < i && q == i {
                    } else if p == i {
                        assert(self.markers@[q] == s0.markers@[q - 1]);
                        assert(s0.markers@[q - 1] >= s0.markers@[i as int]);
                        assert(s0.markers@[i as int] > block);
                    } else if p > i {
                        assert(self.markers@[p] == s0.markers@[p - 1]);
                        assert(self.markers@[q] == s0.markers@[q - 1]);
                    } else {
                        assert(p < i && q > i);
                        assert(self.markers@[q] == s0.markers@[q - 1]);
                        assert(s0.markers@[q - 1] >= s0.markers@[i as int]);
                        assert(s0.markers@[i as int] > block);
                    }
                }
            }
        }
    }

    /// Delete the progress marker of `block`, if present.
    fn clear_marker(&mut self, block: u64)
        requires
            old(self).wf(),
        ensures
            final(self).wf(),
            final(self)@.markers == old(self)@.markers.remove(block),
            final(self)@.sets == old(self)@.sets,
    {
        let ghost s0 = *self;
        let mut i: usize = 0;
        while i < self.markers.len()
            invariant
                *self == s0,
                s0 == *old(self),
                s0.wf(),
                i <= self.markers@.len(),
                forall|k: int| 0 <= k < i ==> self.markers@[k] != block,
            decreases self.markers@.len() - i,
        {
            if self.markers[i] == block {
                self.markers.remove(i);
                proof {
                    lemma_remove_to_set(s0.markers@, i as int);
                    s0.markers@.remove_ensures(i as int);
                }
                return;
            }
            i = i + 1;
        }
        proof {
            assert(!s0@.markers.contains(block));
            assert(s0@.markers.remove(block) =~= s0@.markers);
        }
    }

    /// Drop the result set of `block`, if present.
    fn clear_results(&mut self, block: u64)
        requires
            old(self).wf(),
        ensures
            final(self).wf(),
            final(self)@.markers == old(self)@.markers,
            final(self)@.sets == old(self)@.sets.remove(block),
    {
        let ghost s0 = *self;
        let mut i: usize = 0;
        while i < self.sets.len()
            invariant
                *self == s0,
                s0 == *old(self),
                s0.wf(),
                i <= self.sets@.len(),
                forall|k: int| 0 <= k < i ==> self.sets@[k].0 != block,
            decreases self.sets@.len() - i,
        {
            if self.sets[i].0 == block {
                self.sets.remove(i);
                proof {
                    lemma_assoc_remove(s0.sets@, i as int);
                    s0.sets@.remove_ensures(i as int);
                }
                return;
            }
            i = i + 1;
        }
        proof {
            lemma_assoc_dom(s0.sets@);
            assert(!s0@.sets.dom().contains(block));
            assert(s0@.sets.remove(block) =~= s0@.sets);
        }
    }

    /// Append one row to the result set of `block`, creating the set when
    /// it is absent.
    fn put_row(&mut self, block: u64, offset: u64, reachable: bool)
        requires
            old(self).wf(),
        ensures
            final(self).wf(),
            final(self)@.markers == old(self)@.markers,
            old(self)@.sets.dom().contains(block) ==> final(self)@.sets == old(self)@.sets.insert(
                block,
                old(self)@.sets[block].push((offset, reachable)),
            ),
            !old(self)@.sets.dom().contains(block) ==> final(self)@.sets == old(self)@.sets.insert(
                block,
                seq![(offset, reachable)],
            ),
    {
        let ghost s0 = *self;
        let mut i: usize = 0;
        while i < self.sets.len()
            invariant
                *self == s0,
                s0 == *old(self),
                s0.wf(),
                i <= self.sets@.len(),
                forall|k: int| 0 <= k < i ==> self.sets@[k].0 != block,
            decreases self.sets@.len() - i,
        {
            if self.sets[i].0 == block {
                proof {
                    lemma_assoc_get(s0.sets@, i as int);
                }
                let entry = &mut self.sets[i];
                entry.1.push((offset, reachable));
                proof {
                    lemma_assoc_update(
                        s0.sets@,
                        i as int,
                        (block, self.sets@[i as int].1),
                    );
                    assert(self.sets@ =~= s0.sets@.update(
                        i as int,
                        (block, self.sets@[i as int].1),
                    ));
                }
                return;
            }
            i = i + 1;
        }
        proof {
            lemma_assoc_dom(s0.sets@);
            assert(!s0@.sets.dom().contains(block));
        }
        let mut rows: Vec<(u64, bool)> = Vec::new();
        rows.push((offset, reachable));
        self.sets.push((block, rows));
        proof {
            assert(self.sets@.drop_last() =~= s0.sets@);
            assert(self.sets@.last().1@ =~= seq![(offset, reachable)]);
        }
    }

    /// Perform one store operation of a commit plan.
    pub fn apply_step(&mut self, step: &CommitStep)
        requires
            old(self).wf(),
        ensures
            final(self).wf(),
            final(self)@ == step_spec(old(self)@, *step),
    {
        match step {
            CommitStep::ClearMarker(b) => self.clear_marker(*b),
            CommitStep::ClearResults(b) => self.clear_results(*b),
            CommitStep::PutRow(b, o, reach) => self.put_row(*b, *o, *reach),
            CommitStep::PutMarker(b) => self.put_marker(*b),
        }
        proof {
            assert(self@ =~= step_spec(old(self)@, *step));
        }
    }

    /// The greatest completed block id, the default resume point; `None`
    /// when nothing is completed yet.
    pub fn highest_completed(&self) -> (r: Option<u64>)
        requires
            self.wf(),
        ensures
            r is None ==> forall|b: u64| !self@.markers.contains(b),
            r matches Some(m) ==> self@.markers.contains(m)
                && forall|b: u64| self@.markers.contains(b) ==> b <= m,
    {
        if self.markers.len() == 0 {
            None
        } else {
            Some(self.markers[self.markers.len() - 1])
        }
    }

    /// Inspect the `n` highest completed block ids, in order, and report
    /// every id missing strictly between two consecutive inspected ids: a
    /// numeric discontinuity near the head of the completed range. Ids below
    /// the inspected head are not examined — this is a deliberately cheap
    /// head-only check, not a full-history audit.
    pub fn find_gaps_near_head(&self, n: usize) -> (r: Vec<u64>)
        requires
            self.wf(),
        ensures
            strictly_ascending(r@),
            forall|g: u64| #![trigger r@.contains(g)]
                r@.contains(g) <==> (head_count(self.markers@, n) >= 2 && self.markers@[self.markers@.len()
                    - head_count(self.markers@, n)] < g && g < self.markers@[self.markers@.len()
                    - 1] && !self.markers@.contains(g)),
    {
        let ghost m = self.markers@;
        let len = self.markers.len();
        let mut r: Vec<u64> = Vec::new();
        let k: usize = if n < len {
            n
        } else {
            len
        };
        if k < 2 {
            return r;
        }
        let start = len - k;
        let mut i: usize = start;
        while i + 1 < len
            invariant
                self.wf(),
                m == self.markers@,
                len == m.len(),
                2 <= k <= len,
                k == head_count(m, n),
                start == len - k,
                start <= i <= len - 1,
                strictly_ascending(r@),
                forall|idx: int| 0 <= idx < r@.len() ==> r@[idx] < m[i as int],
                forall|g: u64| #![trigger r@.contains(g)]
                    r@.contains(g) <==> (m[start as int] < g && g < m[i as int] && !m.contains(g)),
            decreases len - i,
        {
            let lo = self.markers[i];
            let hi = self.markers[i + 1];
            let mut g = lo + 1;
            while g < hi
                invariant
                    self.wf(),
                    m == self.markers@,
                    len == m.len(),
                    start <= i,
                    i + 1 < len,
                    lo == m[i as int],
                    hi == m[i as int + 1],
                    lo < g <= hi,
                    strictly_ascending(r@),
                    forall|idx: int| 0 <= idx < r@.len() ==> r@[idx] < g,
                    forall|x: u64| #![trigger r@.contains(x)]
                        r@.contains(x) <==> ((m[start as int] < x && x < m[i as int]
                            && !m.contains(x)) || (lo < x && x < g)),
                decreases hi - g,
            {
                let ghost r_prev = r@;
                r.push(g);
                proof {
                    lemma_push_contains(r_prev, g);
                    assert(r@ == r_prev.push(g));
                    assert forall|x: u64| #![trigger r@.contains(x)] r@.contains(x) implies (
                    r_prev.contains(x) || x == g) by {
                        assert(r_prev.push(g).contains(x));
                    }
                }
                g = g + 1;
            }
            proof {
                assert forall|x: u64| m[i as int] < x && x < m[i as int + 1] implies !m.contains(
                    x,
                ) by {
                    if m.contains(x) {
                        let j = choose|j: int| 0 <= j < m.len() && m[j] == x;
                        if j <= i {
                            assert(m[j] <= m[i as int]);
                        } else {
                            assert(m[j] >= m[i as int + 1]);
                        }
                    }
                };
                assert(m[start as int] <= m[i as int]);
            }
            i = i + 1;
        }
        r
    }

    /// Perform the first `n` steps of a plan, then stop, as a crash between
    /// store operations would.
    pub fn apply_prefix(&mut self, plan: &Vec<CommitStep>, n: usize)
        requires
            old(self).wf(),
            n <= plan@.len(),
        ensures
            final(self).wf(),
            final(self)@ == plan_spec(old(self)@, plan@, n as int),
    {
        let ghost v0 = self@;
        let mut i: usize = 0;
        while i < n
            invariant
                i <= n,
                n <= plan@.len(),
                self.wf(),
                self@ == plan_spec(v0, plan@, i as int),
                v0 == old(self)@,
            decreases n - i,
        {
            self.apply_step(&plan[i]);
            i = i + 1;
        }
    }

    /// Commit one block with its complete result set, as one ordered plan
    /// performed to the end: any stale marker and stale rows of the block
    /// leave the store, the given rows replace them, and the marker is
    /// written last. A complete result set holds one row per address of the
    /// block, so it is never empty.
    pub fn commit(&mut self, block: u64, results: &Vec<(u64, bool)>)
        requires
            old(self).wf(),
            results@.len() > 0,
        ensures
            final(self).wf(),
            final(self)@ == commit_spec(old(self)@, block, results@),
            final(self)@.markers == old(self)@.markers.insert(block),
            final(self)@.sets == old(self)@.sets.insert(block, results@),
    {
        let plan = commit_plan(block, results);
        let n = plan.len();
        self.apply_prefix(&plan, n);
        proof {
            lemma_commit_plan_complete(old(self)@, block, results@);
        }
    }
}

/// The ordered store operations that commit `block` with `results`.
pub fn commit_plan(block: u64, results: &Vec<(u64, bool)>) -> (r: Vec<CommitStep>)
    ensures
        r@ == commit_plan_spec(block, results@),
{
    let mut r: Vec<CommitStep> = Vec::new();
    r.push(CommitStep::ClearMarker(block));
    r.push(CommitStep::ClearResults(block));
    let mut i: usize = 0;
    while i < results.len()
        invariant
            i <= results@.len(),
            r@.len() == 2 + i,
            r@[0] == CommitStep::ClearMarker(block),
            r@[1] == CommitStep::ClearResults(block),
            forall|k: int|
                0 <= k < i ==> r@[2 + k] == CommitStep::PutRow(
                    block,
                    results@[k].0,
                    results@[k].1,
                ),
        decreases results@.len() - i,
    {
        let row = results[i];
        r.push(CommitStep::PutRow(block, row.0, row.1));
        i = i + 1;
    }
    r.push(CommitStep::PutMarker(block));
    proof {
        assert(r@ =~= commit_plan_spec(block, results@));
    }
    r
}

/// The store's contents once a commit of `block` with `results` has run to
/// the end of its plan.
pub open spec fn commit_spec(v: LedgerView, block: u64, results: Seq<(u64, bool)>) -> LedgerView {
    plan_spec(
        v,
        commit_plan_spec(block, results),
        commit_plan_spec(block, results).len() as int,
    )
}

proof fn lemma_commit_rows(v: LedgerView, block: u64, results: Seq<(u64, bool)>, k: int)
    requires
        0 <= k <= results.len(),
    ensures
        plan_spec(v, commit_plan_spec(block, results), 2 + k).markers == v.markers.remove(block),
        k == 0 ==> plan_spec(v, commit_plan_spec(block, results), 2 + k).sets == v.sets.remove(
            block,
        ),
        k > 0 ==> plan_spec(v, commit_plan_spec(block, results), 2 + k).sets == v.sets.remove(
            block,
        ).insert(block, results.take(k)),
    decreases k,
{
    let plan = commit_plan_spec(block, results);
    if k == 0 {
        assert(plan[0] == CommitStep::ClearMarker(block));
        assert(plan[1] == CommitStep::ClearResults(block));
        assert(plan_spec(v, plan, 0) == v);
        assert(plan_spec(v, plan, 1) == step_spec(v, plan[0]));
        assert(plan_spec(v, plan, 2) == step_spec(plan_spec(v, plan, 1), plan[1]));
    } else {
        lemma_commit_rows(v, block, results, k - 1);
        let prev = plan_spec(v, plan, 2 + k - 1);
        assert(plan[2 + k - 1] == CommitStep::PutRow(block, results[k - 1].0, results[k - 1].1));
        assert(plan_spec(v, plan, 2 + k) == step_spec(prev, plan[2 + k - 1]));
        if k == 1 {
            assert(!prev.sets.dom().contains(block));
            assert(seq![(results[0].0, results[0].1)] =~= results.take(1));
        } else {
            assert(prev.sets.dom().contains(block));
            assert(prev.sets[block] == results.take(k - 1));
            assert(results.take(k - 1).push((results[k - 1].0, results[k - 1].1)) =~= results.take(
                k,
            ));
            assert(v.sets.remove(block).insert(block, results.take(k - 1)).insert(
                block,
                results.take(k),
            ) =~= v.sets.remove(block).insert(block, results.take(k)));
        }
    }
}

/// Crash consistency: a commit interrupted anywhere after it has begun and
/// before its final step — in particular after every row of the result set
/// is written but before the marker — leaves the block without a progress
/// marker, so the block is observably pending and a later run scans it
/// again.
pub proof fn lemma_commit_prefix_pending(
    v: LedgerView,
    block: u64,
    results: Seq<(u64, bool)>,
    n: int,
)
    requires
        1 <= n < commit_plan_spec(block, results).len(),
    ensures
        !plan_spec(v, commit_plan_spec(block, results), n).markers.contains(block),
    decreases n,
{
    let plan = commit_plan_spec(block, results);
    if n == 1 {
        assert(plan[0] == CommitStep::ClearMarker(block));
        assert(plan_spec(v, plan, 0) == v);
        assert(plan_spec(v, plan, 1) == step_spec(v, plan[0]));
    } else {
        lemma_commit_prefix_pending(v, block, results, n - 1);
        let prev = plan_spec(v, plan, n - 1);
        assert(plan_spec(v, plan, n) == step_spec(prev, plan[n - 1]));
        if n - 1 == 1 {
            assert(plan[n - 1] == CommitStep::ClearResults(block));
        } else {
            assert(plan[n - 1] == CommitStep::PutRow(
                block,
                results[n - 3].0,
                results[n - 3].1,
            ));
        }
    }
}

/// A commit performed to the end of its plan marks the block complete and
/// stores exactly the given result set, whatever the block held before.
pub proof fn lemma_commit_plan_complete(v: LedgerView, block: u64, results: Seq<(u64, bool)>)
    requires
        results.len() > 0,
    ensures
        commit_spec(v, block, results).markers == v.markers.insert(block),
        commit_spec(v, block, results).sets == v.sets.insert(block, results),
{
    let plan = commit_plan_spec(block, results);
    let len = plan.len() as int;
    lemma_commit_rows(v, block, results, results.len() as int);
    assert(plan[len - 1] == CommitStep::PutMarker(block));
    assert(plan_spec(v, plan, len) == step_spec(plan_spec(v, plan, len - 1), plan[len - 1]));
    assert(results.take(results.len() as int) =~= results);
    assert(v.markers.remove(block).insert(block) =~= v.markers.insert(block));
    assert(v.sets.remove(block).insert(block, results) =~= v.sets.insert(block, results));
}

/// Marker present implies results complete: if the block's progress marker
/// is in the store after a commit's plan was cut off anywhere — having begun
/// — then the plan in fact ran to its end, and the block's stored result set
/// is exactly the committed one. No prefix of a commit leaves a marker over
/// a partial result set.
pub proof fn lemma_marker_implies_complete(
    v: LedgerView,
    block: u64,
    results: Seq<(u64, bool)>,
    n: int,
)
    requires
        results.len() > 0,
        1 <= n <= commit_plan_spec(block, results).len(),
        plan_spec(v, commit_plan_spec(block, results), n).markers.contains(block),
    ensures
        n == commit_plan_spec(block, results).len(),
        plan_spec(v, commit_plan_spec(block, results), n).sets[block] == results,
{
    if n < commit_plan_spec(block, results).len() {
        lemma_commit_prefix_pending(v, block, results, n);
    }
    lemma_commit_plan_complete(v, block, results);
}

/// Idempotent commit: committing the same block twice, with different
/// result sets, leaves the store exactly as if only the later commit had
/// happened — one result set for the block (the latest) and one marker.
pub proof fn lemma_commit_idempotent(
    v: LedgerView,
    block: u64,
    r1: Seq<(u64, bool)>,
    r2: Seq<(u64, bool)>,
)
    requires
        r1.len() > 0,
        r2.len() > 0,
    ensures
        commit_spec(commit_spec(v, block, r1), block, r2) == commit_spec(v, block, r2),
{
    lemma_commit_plan_complete(v, block, r1);
    lemma_commit_plan_complete(commit_spec(v, block, r1), block, r2);
    lemma_commit_plan_complete(v, block, r2);
    assert(v.markers.insert(block).insert(block) =~= v.markers.insert(block));
    assert(v.sets.insert(block, r1).insert(block, r2) =~= v.sets.insert(block, r2));
    assert(commit_spec(commit_spec(v, block, r1), block, r2) =~= commit_spec(v, block, r2));
}

} // verus!
