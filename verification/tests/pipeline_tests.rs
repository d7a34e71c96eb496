use nit::emitter::OrderedEmitter;
use nit::pipeline::run_simulated;
use nit::runner::dry_run_lines;
use nit::runner::GitCommand;
use nit::runner::IndexedOutcome;
use nit::runner::ProcessOutcome;
use nit::runner::UrlScheme;
use nit::scheduler::BoundedScheduler;

fn names(n: usize) -> Vec<String> {
    let mut v = Vec::new();
    let mut i = 0;
    while i < n {
        v.push(format!("repo{}", i));
        i += 1;
    }
    v
}

fn assert_in_discovery_order(outcomes: &[IndexedOutcome], targets: &[String]) {
    assert_eq!(outcomes.len(), targets.len());
    for (k, o) in outcomes.iter().enumerate() {
        assert_eq!(o.index, k);
        assert_eq!(o.target, targets[k]);
    }
}

#[test]
fn emission_order_is_discovery_order_when_completions_reverse() {
    // The earliest target is the slowest: everything else completes first
    // and must be held back, then flushed in one burst, still in order.
    let targets = names(6);
    let delays = vec![60, 50, 40, 30, 20, 10];
    let fails = vec![false; 6];
    let (outcomes, _) = run_simulated(&targets, &delays, &fails, 0);
    assert_in_discovery_order(&outcomes, &targets);
}

#[test]
fn emission_order_is_discovery_order_under_scattered_delays() {
    let targets = names(8);
    let delays = vec![7, 1, 29, 3, 11, 2, 13, 5];
    let fails = vec![false; 8];
    let (outcomes, _) = run_simulated(&targets, &delays, &fails, 3);
    assert_in_discovery_order(&outcomes, &targets);
}

#[test]
fn peak_concurrency_never_exceeds_the_cap() {
    let targets = names(5);
    let delays = vec![3, 3, 3, 3, 3];
    let fails = vec![false; 5];
    let (outcomes, peak) = run_simulated(&targets, &delays, &fails, 2);
    assert_eq!(outcomes.len(), 5);
    assert_eq!(peak, 2);
}

#[test]
fn zero_cap_and_large_cap_both_run_everything_at_once() {
    let targets = names(5);
    let delays = vec![4, 4, 4, 4, 4];
    let fails = vec![false; 5];

    let (outcomes, peak) = run_simulated(&targets, &delays, &fails, 0);
    assert_eq!(outcomes.len(), 5);
    assert_eq!(peak, 5);

    let (outcomes, peak) = run_simulated(&targets, &delays, &fails, 9);
    assert_eq!(outcomes.len(), 5);
    assert_eq!(peak, 5);
}

#[test]
fn exactly_one_outcome_per_target_with_start_failures() {
    let targets = names(7);
    let delays = vec![9, 2, 4, 8, 1, 6, 3];
    let fails = vec![false, true, false, true, true, false, false];
    let (outcomes, _) = run_simulated(&targets, &delays, &fails, 2);
    assert_in_discovery_order(&outcomes, &targets);
    for (k, o) in outcomes.iter().enumerate() {
        if fails[k] {
            assert!(matches!(o.outcome, ProcessOutcome::Failure { .. }));
        } else {
            assert!(matches!(o.outcome, ProcessOutcome::Success { .. }));
        }
    }
}

#[test]
fn start_failure_does_not_stall_later_targets() {
    // Even with one slot, a target that cannot start must not hold it.
    let targets = names(4);
    let delays = vec![2, 1, 2, 1];
    let fails = vec![false, true, false, false];
    let (outcomes, peak) = run_simulated(&targets, &delays, &fails, 1);
    assert_in_discovery_order(&outcomes, &targets);
    assert!(matches!(outcomes[1].outcome, ProcessOutcome::Failure { .. }));
    assert_eq!(peak, 1);
}

#[test]
fn five_targets_cap_two_with_one_slow_target() {
    // One early target takes far longer than the rest; the fast targets'
    // results wait behind it and still print in the original order.
    let targets = names(5);
    let delays = vec![2, 90, 2, 2, 2];
    let fails = vec![false; 5];
    let (outcomes, peak) = run_simulated(&targets, &delays, &fails, 2);
    assert_in_discovery_order(&outcomes, &targets);
    assert_eq!(peak, 2);
    for o in &outcomes {
        assert!(matches!(o.outcome, ProcessOutcome::Success { .. }));
    }
}

#[test]
fn dry_run_renders_one_line_per_target_in_order() {
    let cmds = vec![
        GitCommand::new(String::from("/a"), vec![String::from("pull")]),
        GitCommand::new(String::from("/b"), vec![String::from("pull")]),
        GitCommand::new(String::from("/c"), vec![String::from("pull")]),
    ];
    let lines = dry_run_lines(&cmds, None);
    assert_eq!(
        lines,
        vec![
            String::from("git -C /a pull"),
            String::from("git -C /b pull"),
            String::from("git -C /c pull"),
        ]
    );

    let lines = dry_run_lines(&cmds, Some(UrlScheme::Https));
    assert_eq!(
        lines[0],
        "git -c \"url.https://github.com/.insteadOf=git@github.com:\" -C /a pull"
    );
}

fn outcome(index: usize) -> IndexedOutcome {
    IndexedOutcome {
        index,
        target: format!("repo{}", index),
        outcome: ProcessOutcome::Success {
            exit_ok: true,
            stdout: Vec::new(),
            stderr: Vec::new(),
        },
    }
}

#[test]
fn emitter_holds_early_arrivals_until_their_turn() {
    let mut em = OrderedEmitter::new(4);
    assert!(em.push(outcome(2)).is_empty());
    assert!(em.push(outcome(1)).is_empty());

    let ready = em.push(outcome(0));
    let indices: Vec<usize> = ready.iter().map(|o| o.index).collect();
    assert_eq!(indices, vec![0, 1, 2]);

    let ready = em.push(outcome(3));
    let indices: Vec<usize> = ready.iter().map(|o| o.index).collect();
    assert_eq!(indices, vec![3]);
}

#[test]
fn scheduler_respects_the_cap_and_frees_slots() {
    let mut sched = BoundedScheduler::new(3, 2);
    assert!(sched.can_admit());
    let first = sched.started();
    assert_eq!(first, 0);
    let second = sched.started();
    assert_eq!(second, 1);
    // Both slots are taken; the third target has to wait.
    assert!(!sched.can_admit());
    assert_eq!(sched.running(), 2);

    let done = sched.finished(0);
    assert_eq!(done, 0);
    assert!(sched.can_admit());
    let third = sched.started();
    assert_eq!(third, 2);

    assert!(!sched.all_done());
    sched.finished(0);
    sched.finished(0);
    assert!(sched.all_done());
}

#[test]
fn scheduler_start_failure_keeps_the_slot_free() {
    let mut sched = BoundedScheduler::new(2, 1);
    let first = sched.start_failed();
    assert_eq!(first, 0);
    // The failed start occupied nothing: the next target may start at once.
    assert_eq!(sched.running(), 0);
    assert!(sched.can_admit());
    let second = sched.started();
    assert_eq!(second, 1);
    sched.finished(0);
    assert!(sched.all_done());
}
