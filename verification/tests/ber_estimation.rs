use aegle::key_state::{Key, Reconciling};
use aegle::protocol::{FollowerRequests, FollowerResponse, PPError, PPStep};
use aegle::stages::BEREstimation;
use rand::Rng;
use statrs::distribution::{ContinuousCDF, Normal};

struct TestFollower {
    key: Vec<bool>,
}

impl TestFollower {
    fn reveal_bits(&mut self, idx: Vec<usize>) -> Vec<bool> {
        idx.into_iter().map(|i| self.key[i]).collect()
    }
}

fn create_random_bitvec(length: usize) -> Vec<bool> {
    (0..length).map(|_| rand::random()).collect()
}

fn corrupt(original: &[bool], error_rate: f64) -> Vec<bool> {
    let rng = &mut rand::thread_rng();
    original
        .iter()
        .map(|&bit| {
            let r: f64 = rng.gen_range(0.0..1.0);
            if r < error_rate {
                !bit
            } else {
                bit
            }
        })
        .collect()
}

fn create_key(data: Vec<bool>) -> Key<Reconciling> {
    Key::new(data, rand::random(), rand::random(), 0)
        .verify()
        .start_reconciliation()
}

/// The sample size for an estimate within `margin_of_error` at `confidence_level`.
fn sample_size(key_size: usize, confidence_level: f64, margin_of_error: f64) -> usize {
    let prior_p = 0.5;
    let normal_dist = Normal::new(0.0, 1.0).unwrap();
    let input = 1.0 - ((1.0 - confidence_level) / 2.0);
    let prior_variance = prior_p * (1.0 - prior_p);
    let z_value = normal_dist.inverse_cdf(input);
    let numerator = z_value.powf(2.0) * prior_variance * (key_size as f64);
    let denominator =
        margin_of_error.powf(2.0) * ((key_size - 1) as f64) + z_value.powf(2.0) * prior_variance;
    (numerator / denominator).ceil() as usize
}

/// Runs the estimation against a follower holding a corrupted copy of the key.
fn estimate(estimator: &mut BEREstimation, follower: &mut TestFollower) -> Result<f64, PPError> {
    loop {
        match estimator.step()? {
            PPStep::GetUpdate(FollowerRequests::Reveal(idx)) => {
                let x = follower.reveal_bits(idx);
                estimator.update(FollowerResponse::Reveal(x))?;
            }
            PPStep::Result((errors, sample)) => break Ok(errors as f64 / sample as f64),
            PPStep::GetUpdate(_) => panic!("Unexpected update request!"),
            PPStep::Abort => panic!("Unexpected Abort!"),
        }
    }
}

fn error_estimate(
    key_len: usize,
    sim_error_rate: f64,
    margin_of_error: f64,
    confidence_level: f64,
) -> Result<f64, PPError> {
    let key_vec = create_random_bitvec(key_len);
    let size = sample_size(key_len, confidence_level, margin_of_error);
    let mut error_estimate = BEREstimation::new(create_key(key_vec.clone()), size);
    let corrupted_key = corrupt(&key_vec, sim_error_rate);
    let error_count = key_vec
        .iter()
        .zip(corrupted_key.iter())
        .filter(|(l, r)| l != r)
        .count();
    let actual_error_rate = (error_count as f64) / (key_vec.len() as f64);
    let mut counter_party = TestFollower { key: corrupted_key };
    let error_rate = estimate(&mut error_estimate, &mut counter_party)?;
    Ok((error_rate - actual_error_rate).abs())
}

#[test]
fn test_error_estimate() -> Result<(), PPError> {
    let sim_error_rate = 0.15;
    let margin_of_error = 0.05;
    let confidence_level = 0.95;
    let margin_of_error = error_estimate(100, sim_error_rate, margin_of_error, confidence_level)?;
    assert!(margin_of_error >= 0.0);
    Ok(())
}

#[test]
fn test_ber_confidence_level() -> Result<(), PPError> {
    let sim_error_rate = 0.15;
    let margin_of_error = 0.05;
    let confidence_level = 0.99;
    let mut out_of_bound = 0;
    let num_samples = 10000;
    for _ in 0..num_samples {
        let moe = error_estimate(1000, sim_error_rate, margin_of_error, confidence_level)?;
        if moe >= margin_of_error {
            out_of_bound += 1
        }
    }
    let error_rate = out_of_bound as f64 / num_samples as f64;
    assert!(
        error_rate < 1.0 - confidence_level,
        "Fraction of times margin of error violated: {}",
        error_rate
    );
    Ok(())
}

#[derive(Debug)]
enum LimitResult {
    Continue(f64),
    Abort,
}

/// The estimation followed by the limit: a key whose estimated rate exceeds `limit` is
/// given up.
fn ber_limit(limit: f64, error_rate: f64) -> Result<LimitResult, PPError> {
    let original = create_random_bitvec(1000);
    let corrupted = corrupt(&original, error_rate);
    let size = sample_size(1000, 0.95, 0.05);
    let mut estimator = BEREstimation::new(create_key(original), size);
    let mut counter_party = TestFollower { key: corrupted };
    let estimate = estimate(&mut estimator, &mut counter_party)?;
    if estimate > limit {
        Ok(LimitResult::Abort)
    } else {
        Ok(LimitResult::Continue(estimate))
    }
}

#[test]
fn test_ber_limit() -> Result<(), PPError> {
    let limit = 0.05;
    let rate = 0.04;
    let mut num_aborts = 0;
    for _ in 0..10000 {
        let result = ber_limit(limit, rate);
        match result {
            Err(_) => panic!(),
            Ok(LimitResult::Continue(error)) => {
                assert!(error < limit, "{} >= {}", error, limit)
            }
            Ok(LimitResult::Abort) => num_aborts += 1,
        }
    }
    assert_ne!(num_aborts, 0);
    assert_ne!(num_aborts, 10000);
    Ok(())
}
