//! Order-preserving result emission: outcomes arrive in arbitrary completion
//! order and are surfaced strictly in the original discovery order.
//!
//! The emitter keeps `next_index` (the first index not yet surfaced) and a
//! holding area of outcomes that arrived early. Each delivery flushes the
//! longest contiguous run of indices now available, so a single slow target
//! delays only the printing of results after it, never their completion.

use vstd::multiset::Multiset;
use vstd::prelude::*;

use crate::runner::IndexedOutcome;

verus! {

broadcast use
    vstd::seq_lib::group_to_multiset_ensures,
    vstd::multiset::group_multiset_axioms,
;

/// Whether some element of `s` carries target index `i`.
pub open spec fn spec_has_index(s: Seq<IndexedOutcome>, i: int) -> bool {
    exists|j: int| 0 <= j < s.len() && #[trigger] s[j].index as int == i
}

/// Buffers completed-but-not-yet-printable outcomes and releases them in
/// strict discovery order.
pub struct OrderedEmitter {
    total: usize,
    next_index: usize,
    pending: Vec<IndexedOutcome>,
}

impl OrderedEmitter {
    /// How many targets this run has.
    pub closed spec fn spec_total(&self) -> usize {
        self.total
    }

    /// The first index not yet surfaced; indices `0 .. next_index` have been
    /// emitted, in that order.
    pub closed spec fn spec_next_index(&self) -> usize {
        self.next_index
    }

    /// The outcomes that arrived ahead of their turn.
    pub closed spec fn spec_pending(&self) -> Seq<IndexedOutcome> {
        self.pending@
    }

    /// The emitter invariant: everything held back carries a distinct index
    /// that is not yet due, and all indices are within the run.
    pub open spec fn wf(&self) -> bool {
        &&& self.spec_next_index() <= self.spec_total()
        &&& forall|j: int|
            0 <= j < self.spec_pending().len() ==> self.spec_next_index()
                <= #[trigger] self.spec_pending()[j].index < self.spec_total()
        &&& forall|j: int, k: int|
            0 <= j < self.spec_pending().len() && 0 <= k < self.spec_pending().len() && j != k
                ==> self.spec_pending()[j].index != self.spec_pending()[k].index
    }

    /// Whether the outcome for target index `i` has been delivered to this
    /// emitter: it was either surfaced already or is held back.
    pub open spec fn spec_seen(&self, i: int) -> bool {
        i < self.spec_next_index() || spec_has_index(self.spec_pending(), i)
    }

    /// A fresh emitter for `total` targets, with nothing emitted yet.
    pub fn new(total: usize) -> (r: Self)
        ensures
            r.wf(),
            r.spec_total() == total,
            r.spec_next_index() == 0,
            r.spec_pending() =~= Seq::<IndexedOutcome>::empty(),
    {
        OrderedEmitter { total, next_index: 0, pending: Vec::new() }
    }

    /// The position in `pending` of the outcome with index `want`, if any.
    fn find_pos(pending: &Vec<IndexedOutcome>, want: usize) -> (r: Option<usize>)
        ensures
            match r {
                Some(p) => p < pending@.len() && pending@[p as int].index == want,
                None => !spec_has_index(pending@, want as int),
            },
    {
        let mut j: usize = 0;
        while j < pending.len()
            invariant
                j <= pending@.len(),
                forall|k: int| 0 <= k < j ==> #[trigger] pending@[k].index != want,
            decreases pending@.len() - j,
        {
            if pending[j].index == want {
                return Some(j);
            }
            j = j + 1;
        }
        None
    }

    /// The first index not yet surfaced.
    pub fn next_index(&self) -> (r: usize)
        ensures
            r == self.spec_next_index(),
    {
        self.next_index
    }

    /// Whether the outcome for target index `i` has already been delivered.
    pub fn delivered(&self, i: usize) -> (r: bool)
        ensures
            r == self.spec_seen(i as int),
    {
        if i < self.next_index {
            return true;
        }
        match Self::find_pos(&self.pending, i) {
            Some(_) => true,
            None => false,
        }
    }

    /// Deliver one completed outcome and surface everything now due.
    ///
    /// The returned vector is the longest contiguous run of outcomes whose
    /// indices continue the emission order: its `k`-th element carries index
    /// `next_index + k`. Nothing is duplicated and nothing is dropped: the
    /// delivered outcome and the previously held ones are split exactly
    /// between the new holding area and the returned run, and no outcome
    /// whose turn has come is held back.
    pub fn push(&mut self, o: IndexedOutcome) -> (ready: Vec<IndexedOutcome>)
        requires
            old(self).wf(),
            o.index < old(self).spec_total(),
            old(self).spec_next_index() <= o.index,
            !spec_has_index(old(self).spec_pending(), o.index as int),
        ensures
            final(self).wf(),
            final(self).spec_total() == old(self).spec_total(),
            final(self).spec_next_index() == old(self).spec_next_index() + ready@.len(),
            forall|k: int|
                0 <= k < ready@.len() ==> #[trigger] ready@[k].index as int == old(
                    self,
                ).spec_next_index() + k,
            final(self).spec_pending().to_multiset().add(ready@.to_multiset()) =~= old(
                self,
            ).spec_pending().push(o).to_multiset(),
            !spec_has_index(final(self).spec_pending(), final(self).spec_next_index() as int),
            forall|k: int|
                0 <= k < ready@.len() ==> (old(self).spec_pending().contains(#[trigger] ready@[k])
                    || ready@[k] == o),
            forall|j: int|
                0 <= j < final(self).spec_pending().len() ==> (old(self).spec_pending().contains(
                    #[trigger] final(self).spec_pending()[j],
                ) || final(self).spec_pending()[j] == o),
            forall|i: int|
                final(self).spec_seen(i) <==> (old(self).spec_seen(i) || i == o.index as int),
    {

        let ghost base = self.next_index as int;
        let ghost delivered = self.pending@.push(o);
        self.pending.push(o);
        let mut ready: Vec<IndexedOutcome> = Vec::new();
        proof {
            assert(ready@.to_multiset() =~= Multiset::<IndexedOutcome>::empty());
            assert(self.pending@.to_multiset().add(ready@.to_multiset()) =~= delivered.to_multiset());
            assert forall|j: int|
                0 <= j < self.pending@.len() implies delivered.contains(
                #[trigger] self.pending@[j]) by {
                assert(delivered[j] == self.pending@[j]);
            }
        }
        let mut go = true;
        while go
            invariant
                self.wf(),
                self.total == old(self).spec_total(),
                base + ready@.len() == self.next_index,
                forall|k: int|
                    0 <= k < ready@.len() ==> #[trigger] ready@[k].index as int == base + k,
                self.pending@.to_multiset().add(ready@.to_multiset()) =~= delivered.to_multiset(),
                forall|i: int|
                    (spec_has_index(self.pending@, i) || spec_has_index(ready@, i))
                        <==> spec_has_index(delivered, i),
                forall|j: int|
                    0 <= j < self.pending@.len() ==> delivered.contains(
                        #[trigger] self.pending@[j],
                    ),
                forall|k: int| 0 <= k < ready@.len() ==> delivered.contains(#[trigger] ready@[k]),
                !go ==> !spec_has_index(self.pending@, self.next_index as int),
            decreases self.pending@.len() + (if go {
                1int
            } else {
                0int
            }),
        {
            match Self::find_pos(&self.pending, self.next_index) {
                None => {
                    go = false;
                },
                Some(p) => {
                    let ghost before = self.pending@;
                    let ghost ready0 = ready@;
                    let x = self.pending.remove(p);
                    self.next_index = self.next_index + 1;
                    ready.push(x);
                    proof {
                        assert(before[p as int] == x);
                        assert(before.contains(x));
                        assert(before.remove(p as int).to_multiset() =~= before.to_multiset()
                            .remove(x));
                        assert(before.to_multiset().count(x) > 0);
                        assert(self.pending@.to_multiset().add(ready@.to_multiset())
                            =~= delivered.to_multiset());
                        assert forall|j: int|
                            0 <= j < self.pending@.len() implies self.next_index
                            <= #[trigger] self.pending@[j].index < self.total by {
                            if j < p {
                                assert(self.pending@[j] == before[j]);
                                assert(before[j].index != before[p as int].index);
                            } else {
                                assert(self.pending@[j] == before[j + 1]);
                                assert(before[j + 1].index != before[p as int].index);
                            }
                        }
                        assert forall|j: int, k: int|
                            0 <= j < self.pending@.len() && 0 <= k < self.pending@.len() && j
                                != k implies self.pending@[j].index != self.pending@[k].index by {
                            let j1 = if j < p {
                                j
                            } else {
                                j + 1
                            };
                            let k1 = if k < p {
                                k
                            } else {
                                k + 1
                            };
                            assert(self.pending@[j] == before[j1]);
                            assert(self.pending@[k] == before[k1]);
                        }
                        assert forall|j: int|
                            0 <= j < self.pending@.len() implies delivered.contains(
                            #[trigger] self.pending@[j]) by {
                            if j < p {
                                assert(self.pending@[j] == before[j]);
                            } else {
                                assert(self.pending@[j] == before[j + 1]);
                            }
                        }
                        assert forall|i: int|
                            (spec_has_index(self.pending@, i) || spec_has_index(ready@, i))
                                <==> spec_has_index(delivered, i) by {
                            if spec_has_index(self.pending@, i) {
                                let j = choose|j: int|
                                    0 <= j < self.pending@.len()
                                        && #[trigger] self.pending@[j].index as int == i;
                                if j < p {
                                    assert(before[j].index as int == i);
                                } else {
                                    assert(before[j + 1].index as int == i);
                                }
                            }
                            if spec_has_index(ready@, i) {
                                let k = choose|k: int|
                                    0 <= k < ready@.len() && #[trigger] ready@[k].index as int
                                        == i;
                                if k < ready0.len() {
                                    assert(ready0[k].index as int == i);
                                } else {
                                    assert(x.index as int == i);
                                    assert(before[p as int].index as int == i);
                                }
                            }
                            if spec_has_index(delivered, i) {
                                if spec_has_index(before, i) {
                                    let j = choose|j: int|
                                        0 <= j < before.len() && #[trigger] before[j].index as int
                                            == i;
                                    if j == p {
                                        assert(ready@[ready@.len() - 1].index as int == i);
                                    } else if j < p {
                                        assert(self.pending@[j].index as int == i);
                                    } else {
                                        assert(self.pending@[j - 1].index as int == i);
                                    }
                                } else {
                                    let k = choose|k: int|
                                        0 <= k < ready0.len() && #[trigger] ready0[k].index as int
                                            == i;
                                    assert(ready@[k].index as int == i);
                                }
                            }
                        }
                    }
                },
            }
        }
        proof {
            let old_p = old(self).spec_pending();
            assert forall|i: int|
                self.spec_seen(i) <==> (old(self).spec_seen(i) || i == o.index as int) by {
                if i >= base {
                    if spec_has_index(delivered, i) {
                        let j = choose|j: int|
                            0 <= j < delivered.len() && #[trigger] delivered[j].index as int == i;
                        if j < old_p.len() {
                            assert(old_p[j].index as int == i);
                        }
                    }
                    if spec_has_index(old_p, i) {
                        let j = choose|j: int|
                            0 <= j < old_p.len() && #[trigger] old_p[j].index as int == i;
                        assert(delivered[j].index as int == i);
                    }
                    if i == o.index as int {
                        assert(delivered[old_p.len() as int].index as int == i);
                    }
                    if base <= i < self.next_index {
                        assert(ready@[i - base].index as int == i);
                    }
                    if spec_has_index(ready@, i) {
                        let k = choose|k: int|
                            0 <= k < ready@.len() && #[trigger] ready@[k].index as int == i;
                        assert(base <= i < self.next_index);
                    }
                }
            }
        }
        ready
    }

    /// Once emission has reached the end of the run, nothing is held back:
    /// every outcome was surfaced.
    pub proof fn lemma_done_nothing_held(&self)
        requires
            self.wf(),
            self.spec_next_index() == self.spec_total(),
        ensures
            self.spec_pending().len() == 0,
    {
        if self.spec_pending().len() > 0 {
            assert(self.spec_pending()[0].index < self.spec_total());
        }
    }
}

} // verus!
