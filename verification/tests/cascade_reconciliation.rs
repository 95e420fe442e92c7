use aegle::cascade::{error_count, run_ec, SetupCascade};
use aegle::key_state::{Key, Reconciling};
use aegle::protocol::{FollowerRequests, FollowerResponse, PPStep};

fn reconciling(bits: Vec<bool>) -> Key<Reconciling> {
    Key::new(bits, 7, 9, 0).verify().start_reconciliation()
}

fn create_key(len: usize, error_rate: f64) -> (Vec<bool>, Vec<bool>) {
    let mut b1 = Vec::new();
    let mut b2 = Vec::new();
    for _ in 0..len {
        let v: bool = rand::random();
        b1.push(v);
        let r: f64 = rand::random();
        if error_rate < r {
            b2.push(v);
        } else {
            b2.push(!v);
        }
    }
    (b1, b2)
}

fn calc_syndrome(idx: &[usize], key: &[bool]) -> bool {
    let mut s = false;
    for i in idx {
        s ^= key[*i];
    }
    s
}

fn calc_error_rate(key1: &[bool], key2: &[bool]) -> usize {
    key1.iter().zip(key2.iter()).filter(|(v1, v2)| v1 != v2).count()
}

/// Runs Cascade against a follower holding `correct`; returns the reconciled bits, the
/// number of leaked bits and the number of requests made.
fn run(correct: &[bool], noisy: Vec<bool>, iterations: usize, block: usize) -> (Vec<bool>, usize, usize) {
    let mut cascade = SetupCascade::new(iterations).setup(reconciling(noisy), block);
    let mut requests = 0;
    loop {
        match cascade.step() {
            Ok(PPStep::Result(())) => break,
            Ok(PPStep::GetUpdate(FollowerRequests::Syndrome(indicies))) => {
                requests += 1;
                let mut syndrome = Vec::new();
                for idx in indicies {
                    syndrome.push(calc_syndrome(&idx, correct));
                }
                cascade.update(FollowerResponse::Syndrome(syndrome)).unwrap();
            }
            Ok(_) => panic!("Unexpected request produced"),
            Err(e) => panic!("step failed: {}", e.msg()),
        }
    }
    let leaked = cascade.leaked_bits();
    let key = cascade.finalize().unwrap();
    (key.get_interior(), leaked, requests)
}

#[test]
fn test_cascade_ec() {
    let (key_a, key_b) = create_key(1_000, 0.05);
    let before = calc_error_rate(&key_a, &key_b);
    println!("Error before: {}", before);
    let block = (0.73f64 / 0.05).ceil() as usize;
    let (fixed, leaked, _) = run(&key_a, key_b, 4, block);
    let after = calc_error_rate(&key_a, &fixed);
    println!("Leaked bits: {}. Errors: {}", leaked, after);
    assert!(after <= before);
}

#[test]
fn run_cascade() {
    let (correct_key, bad_key) = create_key(10000, 0.05);
    let before = calc_error_rate(&correct_key, &bad_key);
    println!("Error rate: {}", before);
    let (fixed, bits, _) = run(&correct_key, bad_key, 4, 15);
    let after = calc_error_rate(&correct_key, &fixed);
    println!("Error rate: {}", after);
    println!("leaked {} bits", bits);
    assert!(after <= before);
}

#[test]
fn cascade_equal_keys_asks_only_whole_blocks() {
    let bits: Vec<bool> = (0..64).map(|i| i % 3 == 0).collect();
    let (fixed, leaked, requests) = run(&bits, bits.clone(), 1, 16);
    assert_eq!(fixed, bits);
    // The one iteration has 4 blocks; all parities agree, so nothing more is asked.
    assert_eq!(leaked, 4);
    assert_eq!(requests, 1);
}

#[test]
fn cascade_single_error_is_found() {
    let correct: Vec<bool> = (0..40).map(|i| i % 5 == 1).collect();
    for pos in [0usize, 13, 39] {
        let mut noisy = correct.clone();
        noisy[pos] = !noisy[pos];
        let (fixed, leaked, _) = run(&correct, noisy, 1, 40);
        assert_eq!(fixed, correct);
        // The whole block, then one parity for each halving down to a single bit.
        assert!(leaked >= 2);
    }
}

#[test]
fn cascade_two_iterations_fix_single_error() {
    let correct: Vec<bool> = (0..100).map(|i| i % 7 < 3).collect();
    let mut noisy = correct.clone();
    noisy[57] = !noisy[57];
    let (fixed, _, _) = run(&correct, noisy, 2, 10);
    assert_eq!(fixed, correct);
}

#[test]
fn cascade_reconciled_key_counts() {
    let correct: Vec<bool> = (0..32).map(|i| i % 2 == 0).collect();
    let mut noisy = correct.clone();
    noisy[5] = !noisy[5];
    let mut cascade = SetupCascade::new(1).setup(reconciling(noisy), 32);
    let mut asked = 0;
    loop {
        match cascade.step() {
            Ok(PPStep::Result(())) => break,
            Ok(PPStep::GetUpdate(FollowerRequests::Syndrome(indicies))) => {
                asked += indicies.len();
                let syndrome = indicies.iter().map(|idx| calc_syndrome(idx, &correct)).collect();
                cascade.update(FollowerResponse::Syndrome(syndrome)).unwrap();
            }
            _ => panic!("unexpected"),
        }
    }
    assert_eq!(cascade.leaked_bits(), asked);
    let key = cascade.finalize().unwrap();
    assert_eq!(key.get_interior(), correct);
    assert_eq!(key.leaked_bits(), asked);
    assert_eq!(key.corrected_bits(), 1);
}

#[test]
fn cascade_refuses_out_of_order_messages() {
    let bits: Vec<bool> = (0..16).map(|i| i % 4 == 0).collect();
    let mut cascade = SetupCascade::new(2).setup(reconciling(bits.clone()), 4);
    // No parities awaited yet.
    assert!(cascade.update(FollowerResponse::Syndrome(vec![true])).is_err());
    let asked = match cascade.step() {
        Ok(PPStep::GetUpdate(FollowerRequests::Syndrome(indicies))) => indicies,
        _ => panic!("expected a request"),
    };
    assert_eq!(asked.len(), 4);
    // A second step while parities are awaited is refused.
    assert!(cascade.step().is_err());
    // A wrong number of parities is refused, and nothing is awaited afterwards.
    assert!(cascade.update(FollowerResponse::Syndrome(vec![true])).is_err());
    assert!(cascade.update(FollowerResponse::Syndrome(vec![true; 4])).is_err());
    assert_eq!(cascade.leaked_bits(), 0);
    // A wrong kind of response is refused too.
    let asked = match cascade.step() {
        Ok(PPStep::GetUpdate(FollowerRequests::Syndrome(indicies))) => indicies,
        _ => panic!("expected a request"),
    };
    assert!(cascade.update(FollowerResponse::Reveal(vec![true; asked.len()])).is_err());
}

#[test]
fn error_count_counts_differences() {
    assert_eq!(error_count(&[true, false, true], &[true, true, false]), 2);
    assert_eq!(error_count(&[true, false], &[true, false, true, true]), 0);
    assert_eq!(error_count(&[], &[true]), 0);
}

#[test]
fn run_ec_leaves_no_more_errors() {
    let (correct, noisy) = create_key(2_000, 0.03);
    let before = error_count(&correct, &noisy);
    let cascade = SetupCascade::new(4).setup(reconciling(noisy), 25);
    let key = run_ec(cascade, &correct).expect("the count of leaked bits fits");
    let after = error_count(&correct, key.get_interior_ref());
    assert!(after <= before);
    assert!(key.leaked_bits() <= 2 * 2_000 * 4);
    assert_eq!(key.key_id(), 7);
    assert_eq!(key.device_id(), 9);
}

#[test]
fn run_ec_equal_keys_unchanged() {
    let bits: Vec<bool> = (0..64).map(|i| i % 3 == 0).collect();
    let cascade = SetupCascade::new(1).setup(reconciling(bits.clone()), 16);
    let key = run_ec(cascade, &bits).unwrap();
    assert_eq!(key.get_interior(), bits);
    assert_eq!(key.leaked_bits(), 4);
}

#[test]
fn run_ec_single_error_is_corrected() {
    let correct: Vec<bool> = (0..40).map(|i| i % 5 == 1).collect();
    let mut noisy = correct.clone();
    noisy[17] = !noisy[17];
    let cascade = SetupCascade::new(2).setup(reconciling(noisy), 40);
    let key = run_ec(cascade, &correct).unwrap();
    assert_eq!(key.get_interior(), correct);
    assert_eq!(key.corrected_bits(), 1);
}
