//! The concurrency core: admits targets up to the cap, tracks which targets
//! are in flight, and records that every target eventually receives exactly
//! one outcome.
//!
//! The scheduler holds no process handles; it is the decision state of the
//! polling strategy. The caller owning the real processes reports each event
//! (a start, a start failure, a completion) and the scheduler answers which
//! target index the event concerns, while its invariant keeps the number of
//! in-flight targets within the cap and each index accounted for exactly once.

use vstd::prelude::*;

verus! {

/// Per-target lifecycle bookkeeping for one run under a concurrency cap.
///
/// Target indices `0 .. total` are admitted strictly in order. An index is
/// *queued* while `next_to_spawn <= index`, *in flight* while it sits in
/// `active`, and *recorded* once its outcome exists. A cap of 0 means
/// unlimited.
pub struct BoundedScheduler {
    total: usize,
    cap: usize,
    next_to_spawn: usize,
    active: Vec<usize>,
    recorded: Vec<bool>,
}

impl BoundedScheduler {
    /// How many targets this run has.
    pub closed spec fn spec_total(&self) -> usize {
        self.total
    }

    /// The concurrency cap; 0 means unlimited.
    pub closed spec fn spec_cap(&self) -> usize {
        self.cap
    }

    /// The next target index to admit; all smaller indices were admitted.
    pub closed spec fn spec_next_to_spawn(&self) -> usize {
        self.next_to_spawn
    }

    /// The indices of the targets whose processes are in flight.
    pub closed spec fn spec_active(&self) -> Seq<usize> {
        self.active@
    }

    /// For each target index, whether its outcome has been recorded.
    pub closed spec fn spec_recorded(&self) -> Seq<bool> {
        self.recorded@
    }

    /// The scheduler invariant: indices are admitted in order, in-flight
    /// indices are distinct, admitted, and unrecorded, queued indices are
    /// unrecorded, every admitted index is in flight or recorded, and the
    /// number of in-flight indices never exceeds a non-zero cap.
    pub open spec fn wf(&self) -> bool {
        &&& self.spec_recorded().len() == self.spec_total()
        &&& self.spec_next_to_spawn() <= self.spec_total()
        &&& forall|j: int|
            0 <= j < self.spec_active().len() ==> #[trigger] self.spec_active()[j]
                < self.spec_next_to_spawn()
        &&& forall|j: int, k: int|
            0 <= j < self.spec_active().len() && 0 <= k < self.spec_active().len() && j != k
                ==> self.spec_active()[j] != self.spec_active()[k]
        &&& forall|j: int|
            0 <= j < self.spec_active().len() ==> !self.spec_recorded()[
                #[trigger] self.spec_active()[j] as int
            ]
        &&& forall|i: int|
            self.spec_next_to_spawn() <= i < self.spec_total() ==> !(
            #[trigger] self.spec_recorded()[i])
        &&& forall|i: int|
            0 <= i < self.spec_next_to_spawn() ==> (#[trigger] self.spec_recorded()[i]
                || self.spec_active().contains(i as usize))
        &&& (self.spec_cap() > 0 ==> self.spec_active().len() <= self.spec_cap())
    }

    /// Whether another target may start right now: some target is still
    /// queued and either the cap is unlimited or a slot is free.
    pub open spec fn spec_can_admit(&self) -> bool {
        self.spec_next_to_spawn() < self.spec_total() && (self.spec_cap() == 0
            || self.spec_active().len() < self.spec_cap())
    }

    /// A fresh scheduler for `total` targets under `cap`.
    pub fn new(total: usize, cap: usize) -> (r: Self)
        ensures
            r.wf(),
            r.spec_total() == total,
            r.spec_cap() == cap,
            r.spec_next_to_spawn() == 0,
            r.spec_active() =~= Seq::<usize>::empty(),
            forall|i: int| 0 <= i < total ==> !(#[trigger] r.spec_recorded()[i]),
    {
        let mut recorded: Vec<bool> = Vec::new();
        let mut i: usize = 0;
        while i < total
            invariant
                i <= total,
                recorded@.len() == i,
                forall|k: int| 0 <= k < i ==> !(#[trigger] recorded@[k]),
            decreases total - i,
        {
            recorded.push(false);
            i = i + 1;
        }
        BoundedScheduler { total, cap, next_to_spawn: 0, active: Vec::new(), recorded }
    }

    /// Whether another target may start right now.
    pub fn can_admit(&self) -> (r: bool)
        ensures
            r == self.spec_can_admit(),
    {
        self.next_to_spawn < self.total && (self.cap == 0 || self.active.len() < self.cap)
    }

    /// The next target index to admit.
    pub fn next_to_spawn(&self) -> (r: usize)
        ensures
            r == self.spec_next_to_spawn(),
    {
        self.next_to_spawn
    }

    /// How many targets are in flight.
    pub fn running(&self) -> (r: usize)
        ensures
            r == self.spec_active().len(),
    {
        self.active.len()
    }

    /// The in-flight target index at position `pos` of the active list.
    pub fn active_at(&self, pos: usize) -> (i: usize)
        requires
            pos < self.spec_active().len(),
        ensures
            i == self.spec_active()[pos as int],
    {
        self.active[pos]
    }

    /// Whether every target has been admitted and nothing is in flight.
    pub fn all_done(&self) -> (r: bool)
        ensures
            r == (self.spec_next_to_spawn() == self.spec_total() && self.spec_active().len()
                == 0),
    {
        self.next_to_spawn == self.total && self.active.len() == 0
    }

    /// Admit the next queued target: its process started, so it joins the
    /// in-flight set. Admission order is the discovery order.
    pub fn started(&mut self) -> (i: usize)
        requires
            old(self).wf(),
            old(self).spec_can_admit(),
        ensures
            final(self).wf(),
            i == old(self).spec_next_to_spawn(),
            i < old(self).spec_total(),
            !old(self).spec_recorded()[i as int],
            final(self).spec_next_to_spawn() == i + 1,
            final(self).spec_active() =~= old(self).spec_active().push(i),
            final(self).spec_recorded() == old(self).spec_recorded(),
            final(self).spec_total() == old(self).spec_total(),
            final(self).spec_cap() == old(self).spec_cap(),
    {
        let i = self.next_to_spawn;
        self.active.push(i);
        self.next_to_spawn = i + 1;
        proof {
            assert forall|k: int| 0 <= k < self.next_to_spawn implies (
            #[trigger] self.recorded@[k] || self.active@.contains(k as usize)) by {
                if k == i as int {
                    assert(self.active@[self.active@.len() - 1] == i);
                } else if !self.recorded@[k] {
                    let j = choose|j: int|
                        0 <= j < old(self).active@.len() && old(self).active@[j] == k as usize;
                    assert(self.active@[j] == k as usize);
                }
            }
        }
        i
    }

    /// Admit the next queued target whose process could not be launched: its
    /// failure outcome is recorded at once and no slot is occupied, so later
    /// targets are admitted exactly as before.
    pub fn start_failed(&mut self) -> (i: usize)
        requires
            old(self).wf(),
            old(self).spec_can_admit(),
        ensures
            final(self).wf(),
            i == old(self).spec_next_to_spawn(),
            i < old(self).spec_total(),
            !old(self).spec_recorded()[i as int],
            final(self).spec_next_to_spawn() == i + 1,
            final(self).spec_active() == old(self).spec_active(),
            final(self).spec_recorded() =~= old(self).spec_recorded().update(i as int, true),
            final(self).spec_total() == old(self).spec_total(),
            final(self).spec_cap() == old(self).spec_cap(),
    {
        let i = self.next_to_spawn;
        self.recorded.set(i, true);
        self.next_to_spawn = i + 1;
        proof {
            assert(self.spec_active() == old(self).spec_active());
            assert(self.spec_recorded() =~= old(self).spec_recorded().update(i as int, true));
            assert forall|j: int|
                0 <= j < self.spec_active().len() implies !self.spec_recorded()[
            #[trigger] self.spec_active()[j] as int] by {
                assert(old(self).spec_active()[j] < old(self).spec_next_to_spawn());
            }
            assert forall|k: int|
                0 <= k < self.spec_next_to_spawn() implies (#[trigger] self.spec_recorded()[k]
                    || self.spec_active().contains(k as usize)) by {
                if k < i as int && !self.spec_recorded()[k] {
                    assert(old(self).spec_recorded()[k] || old(self).spec_active().contains(
                        k as usize,
                    ));
                }
            }
        }
        i
    }

    /// Remove the in-flight target at position `pos` of the active list,
    /// recording that its outcome now exists. Frees one slot.
    pub fn finished(&mut self, pos: usize) -> (i: usize)
        requires
            old(self).wf(),
            pos < old(self).spec_active().len(),
        ensures
            final(self).wf(),
            i == old(self).spec_active()[pos as int],
            i < old(self).spec_total(),
            !old(self).spec_recorded()[i as int],
            final(self).spec_active() =~= old(self).spec_active().update(
                pos as int,
                old(self).spec_active().last(),
            ).drop_last(),
            final(self).spec_recorded() =~= old(self).spec_recorded().update(i as int, true),
            final(self).spec_next_to_spawn() == old(self).spec_next_to_spawn(),
            final(self).spec_total() == old(self).spec_total(),
            final(self).spec_cap() == old(self).spec_cap(),
    {
        let i = self.active.swap_remove(pos);
        self.recorded.set(i, true);
        assert forall|k: int| 0 <= k < self.next_to_spawn implies (
        #[trigger] self.recorded@[k] || self.active@.contains(k as usize)) by {
            if !self.recorded@[k] {
                assert(!old(self).recorded@[k]);
                assert(k != i as int);
                assert(old(self).active@.contains(k as usize));
                let j = choose|j: int|
                    0 <= j < old(self).active@.len() && old(self).active@[j] == k as usize;
                assert(j != pos as int);
                if j == old(self).active@.len() - 1 {
                    assert(self.active@[pos as int] == k as usize);
                } else {
                    assert(self.active@[j] == k as usize);
                }
            }
        }
        i
    }

    /// The cap is a hard bound: whenever the invariant holds and the cap is
    /// non-zero, no more targets are in flight than the cap allows.
    pub proof fn lemma_cap_never_exceeded(&self)
        requires
            self.wf(),
        ensures
            self.spec_cap() > 0 ==> self.spec_active().len() <= self.spec_cap(),
    {
    }

    /// A cap of 0 and a cap of at least the target count behave alike:
    /// while any target is still queued, admission is always possible, so no
    /// target ever waits for a slot.
    pub proof fn lemma_unlimited_never_waits(&self)
        requires
            self.wf(),
            self.spec_cap() == 0 || self.spec_cap() >= self.spec_total(),
            self.spec_next_to_spawn() < self.spec_total(),
        ensures
            self.spec_can_admit(),
    {
        if self.spec_cap() > 0 {
            self.lemma_active_len_bounded();
        }
    }

    /// The in-flight list never holds more entries than targets admitted so
    /// far: its entries are distinct values below `next_to_spawn`.
    pub proof fn lemma_active_len_bounded(&self)
        requires
            self.wf(),
        ensures
            self.spec_active().len() <= self.spec_next_to_spawn(),
    {
        let s = self.spec_active();
        let bound = self.spec_next_to_spawn() as int;
        Self::lemma_distinct_below(s, bound);
    }

    /// A sequence of distinct natural numbers below `bound` has at most
    /// `bound` entries.
    proof fn lemma_distinct_below(s: Seq<usize>, bound: int)
        requires
            bound >= 0,
            forall|j: int| 0 <= j < s.len() ==> #[trigger] s[j] < bound,
            forall|j: int, k: int| 0 <= j < s.len() && 0 <= k < s.len() && j != k ==> s[j] != s[k],
        ensures
            s.len() <= bound,
        decreases bound,
    {
        if s.len() > 0 {
            assert(s[0] < bound);
            assert(bound >= 1);
            if exists|p: int| 0 <= p < s.len() && #[trigger] s[p] as int == bound - 1 {
                let p = choose|p: int| 0 <= p < s.len() && #[trigger] s[p] as int == bound - 1;
                let t = s.subrange(0, p) + s.subrange(p + 1, s.len() as int);
                assert forall|j: int| 0 <= j < t.len() implies #[trigger] t[j] < bound - 1 by {
                    if j < p {
                        assert(t[j] == s[j]);
                        assert(s[j] != s[p]);
                    } else {
                        assert(t[j] == s[j + 1]);
                        assert(s[j + 1] != s[p]);
                    }
                }
                assert forall|j: int, k: int|
                    0 <= j < t.len() && 0 <= k < t.len() && j != k implies t[j] != t[k] by {
                    let j1 = if j < p { j } else { j + 1 };
                    let k1 = if k < p { k } else { k + 1 };
                    assert(t[j] == s[j1]);
                    assert(t[k] == s[k1]);
                }
                Self::lemma_distinct_below(t, bound - 1);
            } else {
                assert forall|j: int| 0 <= j < s.len() implies #[trigger] s[j] < bound - 1 by {
                    assert(s[j] as int != bound - 1);
                }
                Self::lemma_distinct_below(s, bound - 1);
            }
        }
    }

    /// Once every target is admitted and none is in flight, every target has
    /// a recorded outcome: nothing was dropped.
    pub proof fn lemma_all_done_all_recorded(&self)
        requires
            self.wf(),
            self.spec_next_to_spawn() == self.spec_total(),
            self.spec_active().len() == 0,
        ensures
            forall|i: int| 0 <= i < self.spec_total() ==> #[trigger] self.spec_recorded()[i],
    {
        assert forall|i: int| 0 <= i < self.spec_total() implies #[trigger] self.spec_recorded()[i] by {
            if !self.spec_recorded()[i] {
                assert(self.active@.contains(i as usize));
            }
        }
    }
}

} // verus!
