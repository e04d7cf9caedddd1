use random_client::model::{word_from_u16, Effect, Operation, Operations, Transfer};
use random_client::tracker::{elapsed, CheckOutcome, Run, RECEIPT_TIMEOUT_MS};

fn transfer(n: u8) -> Transfer {
    Transfer { to: [n; 20], amount: word_from_u16(n as u16) }
}

fn hash(n: u8) -> [u8; 32] {
    [n; 32]
}

/// Submits every operation of the run, transfers at time `now`.
fn submit_all(run: &mut Run, now: u64) {
    let mut h: u8 = 1;
    while let Some(op) = run.current_operation() {
        match op {
            Operation::Transfer(_) => {
                run.complete_transfer(hash(h), now);
                h += 1;
            }
            Operation::Wait(_) => run.complete_wait(),
        }
    }
    run.finish_submission();
}

#[test]
fn new_run_is_idle() {
    let run = Run::new(Operations(vec![Operation::Wait(5)]));
    assert_eq!(run.pending_count(), 0);
    assert_eq!(run.client_epoch(), 0);
    assert!(!run.is_finished());
    assert_eq!(run.current_operation(), Some(Operation::Wait(5)));
}

#[test]
fn empty_script_finishes_after_submission() {
    let mut run = Run::new(Operations(vec![]));
    assert_eq!(run.current_operation(), None);
    run.finish_submission();
    assert!(run.is_finished());
}

#[test]
fn waits_leave_no_effect() {
    let mut run = Run::new(Operations(vec![Operation::Wait(1), Operation::Transfer(transfer(3)), Operation::Wait(2)]));
    submit_all(&mut run, 0);
    assert_eq!(run.pending_count(), 1);
    let h = run.begin_check();
    assert_eq!(h, Some(hash(1)));
}

#[test]
fn confirmed_effect_is_dropped() {
    let mut run = Run::new(Operations(vec![Operation::Transfer(transfer(1))]));
    submit_all(&mut run, 1000);
    assert_eq!(run.begin_check(), Some(hash(1)));
    match run.finish_check(true, 3500) {
        CheckOutcome::Confirmed { effect, elapsed } => {
            assert_eq!(elapsed, 2500);
            assert_eq!(
                effect,
                Effect::PendingReceipt { transfer: transfer(1), hash: hash(1), start: 1000, index: 0 }
            );
        }
        other => panic!("unexpected {:?}", other),
    }
    assert!(run.is_finished());
}

#[test]
fn unconfirmed_effect_goes_to_the_tail() {
    let mut run = Run::new(Operations(vec![Operation::Transfer(transfer(1)), Operation::Transfer(transfer(2))]));
    submit_all(&mut run, 0);
    assert_eq!(run.begin_check(), Some(hash(1)));
    assert!(matches!(run.finish_check(false, 1000), CheckOutcome::StillPending { elapsed: 1000, .. }));
    assert_eq!(run.pending_count(), 2);
    assert_eq!(run.begin_check(), Some(hash(2)));
    assert!(matches!(run.finish_check(true, 1500), CheckOutcome::Confirmed { .. }));
    assert_eq!(run.begin_check(), Some(hash(1)));
}

#[test]
fn empty_queue_gives_nothing_to_check() {
    let mut run = Run::new(Operations(vec![Operation::Wait(1)]));
    assert_eq!(run.begin_check(), None);
    assert_eq!(run.pending_count(), 0);
}

#[test]
fn exactly_at_timeout_is_still_pending() {
    let mut run = Run::new(Operations(vec![Operation::Transfer(transfer(1))]));
    submit_all(&mut run, 0);
    run.begin_check();
    assert!(matches!(
        run.finish_check(false, RECEIPT_TIMEOUT_MS),
        CheckOutcome::StillPending { .. }
    ));
    assert_eq!(run.client_epoch(), 0);
}

#[test]
fn stalled_transfer_clears_batch_and_rebuilds_client() {
    let ops = Operations(vec![
        Operation::Transfer(transfer(1)),
        Operation::Transfer(transfer(2)),
        Operation::Transfer(transfer(3)),
        Operation::Transfer(transfer(4)),
    ]);
    let mut run = Run::new(ops);
    run.complete_transfer(hash(1), 0);
    run.complete_transfer(hash(2), 0);
    run.complete_transfer(hash(3), 0);
    let mut now = 0u64;
    loop {
        now += 1000;
        assert_eq!(run.begin_check().is_some(), true);
        match run.finish_check(false, now) {
            CheckOutcome::StillPending { .. } => assert!(now <= RECEIPT_TIMEOUT_MS),
            CheckOutcome::TimedOut { effect, elapsed, cleared } => {
                assert_eq!(now, 91_000);
                assert_eq!(elapsed, 91_000);
                assert_eq!(effect.hash(), hash(1));
                let hashes: Vec<[u8; 32]> = cleared.iter().map(|e| e.hash()).collect();
                assert_eq!(hashes, vec![hash(2), hash(3)]);
                break;
            }
            CheckOutcome::Confirmed { .. } => panic!("no receipt was given"),
        }
    }
    assert_eq!(run.pending_count(), 0);
    assert_eq!(run.client_epoch(), 1);
    assert!(!run.is_finished());
    run.complete_transfer(hash(4), now);
    run.finish_submission();
    assert_eq!(run.begin_check(), Some(hash(4)));
    assert!(matches!(run.finish_check(true, now + 10), CheckOutcome::Confirmed { elapsed: 10, .. }));
    assert!(run.is_finished());
    assert_eq!(run.client_epoch(), 1);
}

#[test]
fn tracker_finishes_when_every_check_settles() {
    let ops = Operations((1..=5).map(|n| Operation::Transfer(transfer(n))).collect());
    let mut run = Run::new(ops);
    submit_all(&mut run, 0);
    let mut cycles = 0;
    while !run.is_finished() {
        assert!(run.begin_check().is_some());
        run.finish_check(true, 10);
        cycles += 1;
    }
    assert_eq!(cycles, 5);
}

#[test]
fn elapsed_is_saturating() {
    let e = Effect::PendingReceipt { transfer: transfer(1), hash: hash(1), start: 500, index: 0 };
    assert_eq!(elapsed(&e, 400), 0);
    assert_eq!(elapsed(&e, 90_501), 90_001);
}

#[test]
fn tracker_interleaved_with_submission_finishes() {
    let ops = Operations(vec![
        Operation::Transfer(transfer(1)),
        Operation::Wait(10),
        Operation::Transfer(transfer(2)),
    ]);
    let mut run = Run::new(ops);
    run.complete_transfer(hash(1), 0);
    assert_eq!(run.begin_check(), Some(hash(1)));
    assert!(matches!(run.finish_check(false, 500), CheckOutcome::StillPending { .. }));
    run.complete_wait();
    assert_eq!(run.begin_check(), Some(hash(1)));
    assert!(matches!(run.finish_check(true, 1500), CheckOutcome::Confirmed { .. }));
    assert!(!run.is_finished());
    run.complete_transfer(hash(2), 2000);
    run.finish_submission();
    assert!(!run.is_finished());
    assert_eq!(run.begin_check(), Some(hash(2)));
    assert!(matches!(run.finish_check(true, 2100), CheckOutcome::Confirmed { elapsed: 100, .. }));
    assert!(run.is_finished());
}
