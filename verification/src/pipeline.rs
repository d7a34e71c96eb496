//! The polling run, executed against synthetic processes: admit targets under
//! the cap, tick the in-flight ones, reap completions, and surface outcomes
//! through the ordered emitter.
//!
//! A synthetic process for target `t` completes after `max(1, delays[t])`
//! poll passes, or fails to start when `start_fails[t]` is set. Running the
//! whole pipeline over such processes proves the end-to-end guarantees: the
//! emitted sequence carries index `k` at position `k` (emission order equals
//! discovery order, whatever the completion order), exactly one outcome per
//! target, failures exactly where starting failed, and a peak concurrency
//! within the cap.

use vstd::prelude::*;

use crate::emitter::spec_has_index;
use crate::emitter::OrderedEmitter;
use crate::runner::IndexedOutcome;
use crate::runner::ProcessOutcome;
use crate::scheduler::BoundedScheduler;

verus! {

/// An outcome as the run over `targets` and `start_fails` must produce it:
/// it names its own target, and it is a failure exactly when that target's
/// process could not start.
pub open spec fn spec_outcome_matches(
    o: IndexedOutcome,
    targets: Seq<String>,
    start_fails: Seq<bool>,
) -> bool {
    &&& o.index < targets.len()
    &&& o.target@ == targets[o.index as int]@
    &&& (start_fails[o.index as int] ==> o.outcome is Failure)
    &&& (!start_fails[o.index as int] ==> o.outcome is Success)
}

/// The total number of poll passes still owed: for every target without a
/// recorded outcome, its remaining passes plus one for the reap itself.
spec fn spec_outstanding(rem: Seq<u64>, recorded: Seq<bool>) -> int
    decreases rem.len(),
{
    if rem.len() == 0 || rem.len() != recorded.len() {
        0
    } else {
        (if recorded.last() {
            0int
        } else {
            rem.last() + 1
        }) + spec_outstanding(rem.drop_last(), recorded.drop_last())
    }
}

proof fn lemma_outstanding_nonneg(rem: Seq<u64>, recorded: Seq<bool>)
    ensures
        spec_outstanding(rem, recorded) >= 0,
    decreases rem.len(),
{
    if rem.len() > 0 && rem.len() == recorded.len() {
        lemma_outstanding_nonneg(rem.drop_last(), recorded.drop_last());
    }
}

/// Recording target `i` removes its share, `rem[i] + 1`, from the total owed.
proof fn lemma_outstanding_record(rem: Seq<u64>, recorded: Seq<bool>, i: int)
    requires
        rem.len() == recorded.len(),
        0 <= i < rem.len(),
        !recorded[i],
    ensures
        spec_outstanding(rem, recorded.update(i, true)) == spec_outstanding(rem, recorded) - (
        rem[i] + 1),
    decreases rem.len(),
{
    let n = rem.len() as int;
    if i == n - 1 {
        assert(recorded.update(i, true).drop_last() =~= recorded.drop_last());
    } else {
        assert(recorded.update(i, true).drop_last() =~= recorded.drop_last().update(i, true));
        lemma_outstanding_record(rem.drop_last(), recorded.drop_last(), i);
    }
}

/// One poll pass over target `i` removes exactly one from the total owed.
proof fn lemma_outstanding_tick(rem: Seq<u64>, recorded: Seq<bool>, i: int)
    requires
        rem.len() == recorded.len(),
        0 <= i < rem.len(),
        !recorded[i],
        rem[i] >= 1,
    ensures
        spec_outstanding(rem.update(i, (rem[i] - 1) as u64), recorded) == spec_outstanding(
            rem,
            recorded,
        ) - 1,
    decreases rem.len(),
{
    let n = rem.len() as int;
    if i == n - 1 {
        assert(rem.update(i, (rem[i] - 1) as u64).drop_last() =~= rem.drop_last());
    } else {
        assert(rem.update(i, (rem[i] - 1) as u64).drop_last() =~= rem.drop_last().update(
            i,
            (rem[i] - 1) as u64,
        ));
        lemma_outstanding_tick(rem.drop_last(), recorded.drop_last(), i);
    }
}

/// Move every element of `src` to the end of `dst`, keeping their order.
fn append_outcomes(dst: &mut Vec<IndexedOutcome>, src: Vec<IndexedOutcome>)
    ensures
        final(dst)@ == old(dst)@ + src@,
{
    let ghost src0 = src@;
    let mut src = src;
    while src.len() > 0
        invariant
            dst@ + src@ == old(dst)@ + src0,
        decreases src@.len(),
    {
        let x = src.remove(0);
        dst.push(x);
    }
    proof {
        assert(dst@ =~= dst@ + src@);
    }
}

/// Hand one freshly captured outcome to the emitter and move everything it
/// releases to the end of the emission record, so that the record stays one
/// contiguous, correctly attributed prefix of the discovery order.
fn deliver(
    em: &mut OrderedEmitter,
    emitted: &mut Vec<IndexedOutcome>,
    o: IndexedOutcome,
    Ghost(targets): Ghost<Seq<String>>,
    Ghost(start_fails): Ghost<Seq<bool>>,
)
    requires
        old(em).wf(),
        old(em).spec_total() == targets.len(),
        spec_outcome_matches(o, targets, start_fails),
        !old(em).spec_seen(o.index as int),
        !spec_has_index(old(em).spec_pending(), old(em).spec_next_index() as int),
        old(emitted)@.len() == old(em).spec_next_index(),
        forall|k: int|
            0 <= k < old(emitted)@.len() ==> #[trigger] old(emitted)@[k].index as int == k,
        forall|k: int|
            0 <= k < old(emitted)@.len() ==> spec_outcome_matches(
                #[trigger] old(emitted)@[k],
                targets,
                start_fails,
            ),
        forall|j: int|
            0 <= j < old(em).spec_pending().len() ==> spec_outcome_matches(
                #[trigger] old(em).spec_pending()[j],
                targets,
                start_fails,
            ),
    ensures
        final(em).wf(),
        final(em).spec_total() == old(em).spec_total(),
        !spec_has_index(final(em).spec_pending(), final(em).spec_next_index() as int),
        final(emitted)@.len() == final(em).spec_next_index(),
        forall|k: int|
            0 <= k < final(emitted)@.len() ==> #[trigger] final(emitted)@[k].index as int == k,
        forall|k: int|
            0 <= k < final(emitted)@.len() ==> spec_outcome_matches(
                #[trigger] final(emitted)@[k],
                targets,
                start_fails,
            ),
        forall|j: int|
            0 <= j < final(em).spec_pending().len() ==> spec_outcome_matches(
                #[trigger] final(em).spec_pending()[j],
                targets,
                start_fails,
            ),
        forall|i0: int|
            final(em).spec_seen(i0) <==> (old(em).spec_seen(i0) || i0 == o.index as int),
{
    let ghost base = em.spec_next_index() as int;
    let ghost old_pending = em.spec_pending();
    let ready = em.push(o);
    proof {
        assert forall|k: int|
            0 <= k < ready@.len() implies spec_outcome_matches(
            #[trigger] ready@[k],
            targets,
            start_fails,
        ) by {
            if old_pending.contains(ready@[k]) {
                let j = choose|j: int| 0 <= j < old_pending.len() && old_pending[j] == ready@[k];
                assert(spec_outcome_matches(old_pending[j], targets, start_fails));
            }
        }
        assert forall|j: int|
            0 <= j < em.spec_pending().len() implies spec_outcome_matches(
            #[trigger] em.spec_pending()[j],
            targets,
            start_fails,
        ) by {
            if old_pending.contains(em.spec_pending()[j]) {
                let j0 = choose|j0: int|
                    0 <= j0 < old_pending.len() && old_pending[j0] == em.spec_pending()[j];
                assert(spec_outcome_matches(old_pending[j0], targets, start_fails));
            }
        }
    }
    let ghost emitted0 = emitted@;
    append_outcomes(emitted, ready);
    proof {
        assert forall|k: int|
            0 <= k < emitted@.len() implies #[trigger] emitted@[k].index as int == k by {
            if k < emitted0.len() {
                assert(emitted@[k] == emitted0[k]);
            } else {
                assert(emitted@[k] == ready@[k - emitted0.len()]);
            }
        }
        assert forall|k: int|
            0 <= k < emitted@.len() implies spec_outcome_matches(
            #[trigger] emitted@[k],
            targets,
            start_fails,
        ) by {
            if k < emitted0.len() {
                assert(emitted@[k] == emitted0[k]);
            } else {
                assert(emitted@[k] == ready@[k - emitted0.len()]);
            }
        }
    }
}

/// The position in the active list of an in-flight target whose synthetic
/// process has completed (no passes remain), if any.
fn find_completed(sched: &BoundedScheduler, rem: &Vec<u64>) -> (r: Option<usize>)
    requires
        forall|j: int|
            0 <= j < sched.spec_active().len() ==> #[trigger] sched.spec_active()[j] < rem@.len(),
    ensures
        match r {
            Some(p) => p < sched.spec_active().len() && rem@[sched.spec_active()[p as int] as int]
                == 0,
            None => forall|j: int|
                0 <= j < sched.spec_active().len() ==> rem@[
                    #[trigger] sched.spec_active()[j] as int
                ] != 0,
        },
{
    let mut p: usize = 0;
    let count = sched.running();
    while p < count
        invariant
            p <= count,
            count == sched.spec_active().len(),
            forall|j: int|
                0 <= j < sched.spec_active().len() ==> #[trigger] sched.spec_active()[j]
                    < rem@.len(),
            forall|j: int| 0 <= j < p ==> rem@[#[trigger] sched.spec_active()[j] as int] != 0,
        decreases count - p,
    {
        let i = sched.active_at(p);
        if rem[i] == 0 {
            return Some(p);
        }
        p = p + 1;
    }
    None
}

/// Run the whole pipeline over synthetic processes: target `t`'s process
/// completes after `max(1, delays[t])` poll passes, and fails to start when
/// `start_fails[t]` is set. Returns the emitted outcomes in emission order,
/// and the peak number of simultaneously in-flight targets.
///
/// The contract is the system's end-to-end guarantee: whatever the delays,
/// and so whatever order processes complete in, exactly one outcome per
/// target is emitted, in discovery order, with a failure exactly at each
/// target that could not start; and under a non-zero cap the peak number of
/// concurrently running processes never exceeds the cap.
pub fn run_simulated(
    targets: &Vec<String>,
    delays: &Vec<u64>,
    start_fails: &Vec<bool>,
    cap: usize,
) -> (r: (Vec<IndexedOutcome>, usize))
    requires
        delays@.len() == targets@.len(),
        start_fails@.len() == targets@.len(),
    ensures
        r.0@.len() == targets@.len(),
        forall|k: int| 0 <= k < r.0@.len() ==> #[trigger] r.0@[k].index as int == k,
        forall|k: int|
            0 <= k < r.0@.len() ==> spec_outcome_matches(
                #[trigger] r.0@[k],
                targets@,
                start_fails@,
            ),
        cap > 0 ==> r.1 <= cap,
{
    let n = targets.len();
    let mut sched = BoundedScheduler::new(n, cap);
    let mut em = OrderedEmitter::new(n);
    let mut emitted: Vec<IndexedOutcome> = Vec::new();
    let mut peak: usize = 0;

    // Remaining poll passes per target; a process takes at least one pass.
    let mut rem: Vec<u64> = Vec::new();
    let mut t: usize = 0;
    while t < n
        invariant
            t <= n,
            delays@.len() == n,
            rem@.len() == t,
            forall|k: int| 0 <= k < t ==> #[trigger] rem@[k] >= 1,
        decreases n - t,
    {
        let d = delays[t];
        rem.push(
            if d == 0 {
                1
            } else {
                d
            },
        );
        t = t + 1;
    }

    while !sched.all_done()
        invariant
            sched.wf(),
            sched.spec_total() == n,
            sched.spec_cap() == cap,
            em.wf(),
            em.spec_total() == n,
            rem@.len() == n,
            targets@.len() == n,
            start_fails@.len() == n,
            forall|t0: int|
                0 <= t0 < n ==> (#[trigger] sched.spec_recorded()[t0] <==> em.spec_seen(t0)),
            !spec_has_index(em.spec_pending(), em.spec_next_index() as int),
            emitted@.len() == em.spec_next_index(),
            forall|k: int| 0 <= k < emitted@.len() ==> #[trigger] emitted@[k].index as int == k,
            forall|k: int|
                0 <= k < emitted@.len() ==> spec_outcome_matches(
                    #[trigger] emitted@[k],
                    targets@,
                    start_fails@,
                ),
            forall|j: int|
                0 <= j < em.spec_pending().len() ==> spec_outcome_matches(
                    #[trigger] em.spec_pending()[j],
                    targets@,
                    start_fails@,
                ),
            forall|j: int|
                0 <= j < sched.spec_active().len() ==> rem@[
                    #[trigger] sched.spec_active()[j] as int
                ] >= 1,
            forall|j: int|
                0 <= j < sched.spec_active().len() ==> !start_fails@[
                    #[trigger] sched.spec_active()[j] as int
                ],
            forall|t0: int| sched.spec_next_to_spawn() <= t0 < n ==> #[trigger] rem@[t0] >= 1,
            cap > 0 ==> peak <= cap,
        decreases spec_outstanding(rem@, sched.spec_recorded()),
    {
        let ghost m_entry = spec_outstanding(rem@, sched.spec_recorded());
        let ghost a0 = sched.spec_active().len() as int;
        let ghost next0 = sched.spec_next_to_spawn() as int;
        let ghost mut fails: int = 0;

        // Admission: start queued targets while a slot is free.
        while sched.can_admit()
            invariant
                sched.wf(),
                sched.spec_total() == n,
                sched.spec_cap() == cap,
                em.wf(),
                em.spec_total() == n,
                rem@.len() == n,
                targets@.len() == n,
                start_fails@.len() == n,
                forall|t0: int|
                    0 <= t0 < n ==> (#[trigger] sched.spec_recorded()[t0] <==> em.spec_seen(t0)),
                !spec_has_index(em.spec_pending(), em.spec_next_index() as int),
                emitted@.len() == em.spec_next_index(),
                forall|k: int|
                    0 <= k < emitted@.len() ==> #[trigger] emitted@[k].index as int == k,
                forall|k: int|
                    0 <= k < emitted@.len() ==> spec_outcome_matches(
                        #[trigger] emitted@[k],
                        targets@,
                        start_fails@,
                    ),
                forall|j: int|
                    0 <= j < em.spec_pending().len() ==> spec_outcome_matches(
                        #[trigger] em.spec_pending()[j],
                        targets@,
                        start_fails@,
                    ),
                forall|j: int|
                    0 <= j < sched.spec_active().len() ==> rem@[
                        #[trigger] sched.spec_active()[j] as int
                    ] >= 1,
                forall|j: int|
                    0 <= j < sched.spec_active().len() ==> !start_fails@[
                        #[trigger] sched.spec_active()[j] as int
                    ],
                forall|t0: int| sched.spec_next_to_spawn() <= t0 < n ==> #[trigger] rem@[t0] >= 1,
                cap > 0 ==> peak <= cap,
                fails >= 0,
                sched.spec_active().len() >= a0,
                sched.spec_next_to_spawn() - next0 == fails + (sched.spec_active().len() - a0),
                spec_outstanding(rem@, sched.spec_recorded()) <= m_entry - fails,
            decreases n - sched.spec_next_to_spawn(),
        {
            let idx = sched.next_to_spawn();
            if start_fails[idx] {
                let ghost rec0 = sched.spec_recorded();
                let i = sched.start_failed();
                proof {
                    lemma_outstanding_record(rem@, rec0, i as int);
                    fails = fails + 1;
                }
                let o = IndexedOutcome {
                    index: i,
                    target: targets[i].clone(),
                    outcome: ProcessOutcome::Failure {
                        message: "process could not be started".to_owned(),
                    },
                };
                deliver(&mut em, &mut emitted, o, Ghost(targets@), Ghost(start_fails@));
            } else {
                let i = sched.started();
                let r = sched.running();
                if r > peak {
                    peak = r;
                }
            }
        }

        // If no process is in flight now, every queued target was admitted
        // (an empty active set always leaves room), and each admission in
        // this round failed to start.
        let count = sched.running();
        proof {
            if count == 0 {
                assert(sched.spec_next_to_spawn() == n);
                assert(fails >= 1);
            }
        }

        // Poll pass: every in-flight process advances by one.
        let ghost m_admitted = spec_outstanding(rem@, sched.spec_recorded());
        let ghost rem_a = rem@;
        let mut pos: usize = 0;
        while pos < count
            invariant
                pos <= count,
                sched.wf(),
                count == sched.spec_active().len(),
                sched.spec_total() == n,
                rem@.len() == n,
                rem_a.len() == n,
                forall|j: int|
                    0 <= j < pos ==> rem@[#[trigger] sched.spec_active()[j] as int] == rem_a[
                        sched.spec_active()[j] as int
                    ] - 1,
                forall|j: int|
                    pos <= j < count ==> rem@[#[trigger] sched.spec_active()[j] as int] == rem_a[
                        sched.spec_active()[j] as int
                    ],
                forall|t0: int|
                    0 <= t0 < n && !sched.spec_active().contains(t0 as usize) ==> #[trigger] rem@[
                        t0
                    ] == rem_a[t0],
                forall|j: int|
                    0 <= j < count ==> rem_a[#[trigger] sched.spec_active()[j] as int] >= 1,
                spec_outstanding(rem@, sched.spec_recorded()) == m_admitted - pos,
            decreases count - pos,
        {
            let i = sched.active_at(pos);
            let ghost rem_b = rem@;
            let v = rem[i];
            rem.set(i, v - 1);
            proof {
                lemma_outstanding_tick(rem_b, sched.spec_recorded(), i as int);
                assert forall|j: int|
                    0 <= j < pos + 1 implies rem@[#[trigger] sched.spec_active()[j] as int]
                    == rem_a[sched.spec_active()[j] as int] - 1 by {
                    if j < pos {
                        assert(sched.spec_active()[j] != sched.spec_active()[pos as int]);
                    }
                }
                assert forall|j: int|
                    pos + 1 <= j < count implies rem@[#[trigger] sched.spec_active()[j] as int]
                    == rem_a[sched.spec_active()[j] as int] by {
                    assert(sched.spec_active()[j] != sched.spec_active()[pos as int]);
                }
            }
            pos = pos + 1;
        }

        // After the pass, queued targets still owe at least one pass each.
        proof {
            assert forall|t0: int|
                sched.spec_next_to_spawn() <= t0 < n implies #[trigger] rem@[t0] >= 1 by {
                if sched.spec_active().contains(t0 as usize) {
                    let j = choose|j: int|
                        0 <= j < sched.spec_active().len() && sched.spec_active()[j]
                            == t0 as usize;
                    assert(sched.spec_active()[j] < sched.spec_next_to_spawn());
                }
            }
        }

        // Reap: hand every completed process's outcome to the emitter.
        let ghost m_polled = spec_outstanding(rem@, sched.spec_recorded());
        let ghost next_mid = sched.spec_next_to_spawn() as int;
        let mut found = find_completed(&sched, &rem);
        while found.is_some()
            invariant
                sched.wf(),
                sched.spec_total() == n,
                sched.spec_cap() == cap,
                sched.spec_next_to_spawn() == next_mid,
                em.wf(),
                em.spec_total() == n,
                rem@.len() == n,
                targets@.len() == n,
                start_fails@.len() == n,
                forall|t0: int|
                    0 <= t0 < n ==> (#[trigger] sched.spec_recorded()[t0] <==> em.spec_seen(t0)),
                !spec_has_index(em.spec_pending(), em.spec_next_index() as int),
                emitted@.len() == em.spec_next_index(),
                forall|k: int|
                    0 <= k < emitted@.len() ==> #[trigger] emitted@[k].index as int == k,
                forall|k: int|
                    0 <= k < emitted@.len() ==> spec_outcome_matches(
                        #[trigger] emitted@[k],
                        targets@,
                        start_fails@,
                    ),
                forall|j: int|
                    0 <= j < em.spec_pending().len() ==> spec_outcome_matches(
                        #[trigger] em.spec_pending()[j],
                        targets@,
                        start_fails@,
                    ),
                forall|j: int|
                    0 <= j < sched.spec_active().len() ==> !start_fails@[
                        #[trigger] sched.spec_active()[j] as int
                    ],
                forall|t0: int| sched.spec_next_to_spawn() <= t0 < n ==> #[trigger] rem@[t0] >= 1,
                match found {
                    Some(p) => p < sched.spec_active().len() && rem@[
                        sched.spec_active()[p as int] as int
                    ] == 0,
                    None => forall|j: int|
                        0 <= j < sched.spec_active().len() ==> rem@[
                            #[trigger] sched.spec_active()[j] as int
                        ] != 0,
                },
                spec_outstanding(rem@, sched.spec_recorded()) <= m_polled,
            decreases sched.spec_active().len(),
        {
            let p = found.unwrap();
            let ghost oa = sched.spec_active();
            let ghost rec0 = sched.spec_recorded();
            let i = sched.finished(p);
            proof {
                lemma_outstanding_record(rem@, rec0, i as int);
                assert forall|j: int|
                    0 <= j < sched.spec_active().len() implies !start_fails@[
                #[trigger] sched.spec_active()[j] as int] by {
                    if j == p as int {
                        assert(sched.spec_active()[j] == oa[oa.len() - 1]);
                    } else {
                        assert(sched.spec_active()[j] == oa[j]);
                    }
                }
            }
            let o = IndexedOutcome {
                index: i,
                target: targets[i].clone(),
                outcome: ProcessOutcome::Success {
                    exit_ok: true,
                    stdout: Vec::new(),
                    stderr: Vec::new(),
                },
            };
            deliver(&mut em, &mut emitted, o, Ghost(targets@), Ghost(start_fails@));
            found = find_completed(&sched, &rem);
        }

        proof {
            lemma_outstanding_nonneg(rem@, sched.spec_recorded());
            assert(spec_outstanding(rem@, sched.spec_recorded()) < m_entry);
        }
    }

    proof {
        sched.lemma_all_done_all_recorded();
        if em.spec_next_index() < n {
            let t0 = em.spec_next_index() as int;
            assert(sched.spec_recorded()[t0]);
            assert(em.spec_seen(t0));
            assert(false);
        }
    }
    (emitted, peak)
}

} // verus!
