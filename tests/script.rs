use random_client::generate::ScriptBuilder;
use random_client::model::{word_from_u16, Operation, Operations, Transfer, AMOUNT_BOUND, WAIT_BOUND_MS};

fn total_wait(ops: &[Operation]) -> u128 {
    ops.iter()
        .map(|op| match op {
            Operation::Wait(ms) => *ms as u128,
            Operation::Transfer(_) => 0,
        })
        .sum()
}

fn sample_transfer(to: u8, amount: u16) -> Transfer {
    Transfer { to: [to; 20], amount: word_from_u16(amount) }
}

#[test]
fn test_ops_serialization() {
    let ops = Operations::generate(100_000);
    let bytes = ops.to_bytes();
    assert_eq!(Operations::from_bytes(&bytes), Some(ops));
}

#[test]
fn generated_waits_exceed_target_and_stop_at_once() {
    for target in [0u64, 1, 50, 5_000, 30_000] {
        let ops = Operations::generate(target);
        assert!(!ops.0.is_empty());
        assert!(total_wait(&ops.0) > target as u128);
        assert!(total_wait(&ops.0[..ops.0.len() - 1]) <= target as u128);
        assert!(matches!(ops.0.last(), Some(Operation::Wait(_))));
    }
}

#[test]
fn generate_zero_is_not_empty() {
    let ops = Operations::generate(0);
    assert!(ops.0.len() >= 1);
    assert!(total_wait(&ops.0) > 0);
    assert!(ops.0.iter().any(|op| matches!(op, Operation::Wait(ms) if *ms > 0)));
}

#[test]
fn generated_draws_are_in_range() {
    let ops = Operations::generate(60_000);
    for op in &ops.0 {
        match op {
            Operation::Wait(ms) => assert!(*ms < WAIT_BOUND_MS),
            Operation::Transfer(t) => {
                assert!(t.amount[..30].iter().all(|b| *b == 0));
                let n = t.amount[30] as u64 * 256 + t.amount[31] as u64;
                assert!(n < AMOUNT_BOUND);
            }
        }
    }
}

#[test]
fn builder_stops_after_first_wait_over_zero() {
    let mut b = ScriptBuilder::new(0);
    assert!(!b.is_done());
    let t = sample_transfer(7, 12);
    assert!(!b.push(Operation::Transfer(t)));
    assert!(b.push(Operation::Wait(50)));
    assert!(b.is_done());
    let ops = b.finish();
    assert_eq!(ops.0, vec![Operation::Transfer(t), Operation::Wait(50)]);
}

#[test]
fn builder_zero_wait_does_not_stop() {
    let mut b = ScriptBuilder::new(0);
    assert!(!b.push(Operation::Wait(0)));
    assert!(!b.push(Operation::Wait(0)));
    assert!(b.push(Operation::Wait(1)));
}

#[test]
fn builder_equal_to_target_does_not_stop() {
    let mut b = ScriptBuilder::new(100);
    assert!(!b.push(Operation::Wait(60)));
    assert!(!b.push(Operation::Wait(40)));
    assert!(b.push(Operation::Wait(1)));
    assert_eq!(b.finish().0.len(), 3);
}

#[test]
fn word_holds_small_number() {
    let w = word_from_u16(999);
    assert_eq!(w[30], 3);
    assert_eq!(w[31], 231);
    assert!(w[..30].iter().all(|b| *b == 0));
}

#[test]
fn text_form_of_a_wait() {
    let ops = Operations(vec![Operation::Wait(50)]);
    let text = String::from_utf8(ops.to_bytes()).unwrap();
    assert_eq!(text, "wait 0x0000000000000032\n");
}

#[test]
fn text_form_of_a_transfer() {
    let ops = Operations(vec![Operation::Transfer(sample_transfer(0xab, 1000))]);
    let text = String::from_utf8(ops.to_bytes()).unwrap();
    let expected = format!(
        "transfer 0x{} 0x{}03e8\n",
        "ab".repeat(20),
        "0".repeat(60)
    );
    assert_eq!(text, expected);
}

#[test]
fn empty_script_round_trips() {
    let ops = Operations(vec![]);
    assert!(ops.to_bytes().is_empty());
    assert_eq!(Operations::from_bytes(&vec![]), Some(ops));
}

#[test]
fn mixed_script_round_trips() {
    let ops = Operations(vec![
        Operation::Wait(u64::MAX),
        Operation::Transfer(sample_transfer(1, 0)),
        Operation::Wait(0),
        Operation::Transfer(sample_transfer(255, 65535)),
    ]);
    assert_eq!(Operations::from_bytes(&ops.to_bytes()), Some(ops));
}

#[test]
fn malformed_text_is_refused() {
    assert_eq!(Operations::from_bytes(&b"wait 0x00000000000000zz\n".to_vec()), None);
    assert_eq!(Operations::from_bytes(&b"wait 0x0000000000000032".to_vec()), None);
    assert_eq!(Operations::from_bytes(&b"WAIT 0x0000000000000032\n".to_vec()), None);
    assert_eq!(Operations::from_bytes(&b"wait 0x00000000000000AB\n".to_vec()), None);
    let mut good = Operations(vec![Operation::Wait(1)]).to_bytes();
    good.push(b'x');
    assert_eq!(Operations::from_bytes(&good), None);
}
