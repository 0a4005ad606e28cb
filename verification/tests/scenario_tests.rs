use linear_qf::calculate_linear_qf;
use linear_qf::Contribution;
use linear_qf::LinearQfOptions;
use linear_qf::MatchingCapStrategy;
use linear_qf::QfError;

fn contribution(recipient: &str, sender: &str, amount: u64) -> Contribution {
    Contribution {
        recipient: recipient.into(),
        sender: sender.into(),
        amount,
    }
}

fn skewed_fixed() -> Vec<Contribution> {
    let mut contributions = Vec::new();
    for i in 0..5 {
        contributions.push(contribution("A", &format!("S{}", i), 200));
    }
    for i in 0..2 {
        contributions.push(contribution("B", &format!("S{}", i), 500));
    }
    for i in 0..20 {
        contributions.push(contribution("C", &format!("S{}", i), 50));
    }
    contributions
}

/// The skewed scenario: the three matches sum to at most the pool, and the
/// computation is deterministic, yielding identical output on a rerun.
#[test]
fn test_skewed_scenario_total_and_determinism() {
    let first = calculate_linear_qf(skewed_fixed(), 10_000, LinearQfOptions::default()).unwrap();
    let second = calculate_linear_qf(skewed_fixed(), 10_000, LinearQfOptions::default()).unwrap();
    let total: u64 = first.iter().map(|d| d.matcha).sum();
    assert!(total <= 10_000);
    assert_eq!(first.len(), second.len());
    for (a, b) in first.iter().zip(second.iter()) {
        assert_eq!(a.recipient, b.recipient);
        assert_eq!(a.matcha, b.matcha);
    }
}

/// Heavily skewed contributions under a tight cap with redistribution: no
/// output exceeds the cap and the total stays within the pool.
#[test]
fn test_skewed_redistribution_under_cap() {
    let mut contributions = skewed_fixed();
    for i in 0..30 {
        contributions.push(contribution("D", &format!("T{}", i), 900));
    }
    let options = LinearQfOptions {
        matching_cap_amount: Some(10),
        matching_cap_strategy: MatchingCapStrategy::Redistribute,
        upscale: false,
    };
    let distributions = calculate_linear_qf(contributions, 10_000, options).unwrap();
    assert!(distributions.iter().all(|d| d.matcha <= 10));
    let total: u64 = distributions.iter().map(|d| d.matcha).sum();
    assert!(total <= 10_000);
}

/// Upscaling against an empty pool is rejected before any computation.
#[test]
fn test_upscale_zero_pot_rejected() {
    let contributions = vec![
        contribution("A", "S1", 4),
        contribution("A", "S2", 9),
    ];
    let options = LinearQfOptions {
        upscale: true,
        ..Default::default()
    };
    let r = calculate_linear_qf(contributions, 0, options);
    assert_eq!(r.unwrap_err(), QfError::UpscaleWithZeroPot);
}

/// Upscaling with a zero raw match total (every recipient has one sender) is
/// rejected: no scaling factor exists.
#[test]
fn test_upscale_zero_total_rejected() {
    let contributions = vec![
        contribution("A", "S1", 4),
        contribution("A", "S1", 9),
        contribution("B", "S2", 7),
    ];
    let options = LinearQfOptions {
        upscale: true,
        ..Default::default()
    };
    let r = calculate_linear_qf(contributions, 100, options);
    assert_eq!(r.unwrap_err(), QfError::UpscaleWithZeroTotal);
}

/// An empty round yields an empty result, and is rejected only when
/// upscaling asks for a factor that does not exist.
#[test]
fn test_empty_input() {
    let r = calculate_linear_qf(Vec::new(), 100, LinearQfOptions::default()).unwrap();
    assert!(r.is_empty());

    let options = LinearQfOptions {
        upscale: true,
        ..Default::default()
    };
    let r = calculate_linear_qf(Vec::new(), 100, options);
    assert_eq!(r.unwrap_err(), QfError::UpscaleWithZeroTotal);
}

/// The output carries exactly the distinct recipients of the input, each
/// once, in order of first appearance.
#[test]
fn test_recipient_set_preserved() {
    let contributions = vec![
        contribution("B", "S1", 10),
        contribution("A", "S2", 20),
        contribution("B", "S3", 30),
        contribution("C", "S1", 40),
        contribution("A", "S2", 50),
    ];
    let distributions =
        calculate_linear_qf(contributions, 1_000, LinearQfOptions::default()).unwrap();
    let names: Vec<&str> = distributions.iter().map(|d| d.recipient.as_str()).collect();
    assert_eq!(names, vec!["B", "A", "C"]);
}

/// Saturation with floor division: raw matches 200 and 8 against a pool of
/// 100 scale to 96 and 3, and the total lands within one unit per recipient
/// of the pool.
#[test]
fn test_saturation_floor_division() {
    let contributions = vec![
        contribution("A", "S1", 100),
        contribution("A", "S2", 100),
        contribution("B", "S3", 4),
        contribution("B", "S4", 4),
    ];
    let distributions =
        calculate_linear_qf(contributions, 100, LinearQfOptions::default()).unwrap();
    assert_eq!(distributions[0].recipient, "A");
    assert_eq!(distributions[0].matcha, 96);
    assert_eq!(distributions[1].recipient, "B");
    assert_eq!(distributions[1].matcha, 3);
}

/// The largest allowed round: the amounts together reach the 32-bit bound,
/// and the quadratic score is still exact.
#[test]
fn test_largest_amounts() {
    let contributions = vec![
        contribution("A", "S1", 2_147_483_647),
        contribution("A", "S2", 2_147_483_648),
    ];
    let distributions = calculate_linear_qf(
        contributions,
        u64::MAX,
        LinearQfOptions::default(),
    )
    .unwrap();
    // isqrt(2147483647 * 2147483648) == 2147483647
    assert_eq!(distributions[0].matcha, 4_294_967_294);
}

/// A cap of zero discards every match outright.
#[test]
fn test_zero_cap_discards_everything() {
    let contributions = vec![
        contribution("A", "S1", 100),
        contribution("A", "S2", 100),
    ];
    let options = LinearQfOptions {
        matching_cap_amount: Some(0),
        ..Default::default()
    };
    let distributions = calculate_linear_qf(contributions, 100, options).unwrap();
    assert!(distributions.iter().all(|d| d.matcha == 0));
}

/// When every recipient sits at or above the cap, the overflow stays
/// undistributed: a base fully saturated at the cap cannot receive more.
#[test]
fn test_redistribution_with_no_eligible_recipient() {
    let contributions = vec![
        contribution("A", "S1", 15),
        contribution("A", "S2", 15),
        contribution("B", "S1", 15),
        contribution("B", "S2", 15),
    ];
    let options = LinearQfOptions {
        matching_cap_amount: Some(10),
        matching_cap_strategy: MatchingCapStrategy::Redistribute,
        upscale: false,
    };
    let distributions = calculate_linear_qf(contributions, 10_000, options).unwrap();
    assert_eq!(distributions.len(), 2);
    assert!(distributions.iter().all(|d| d.matcha == 10));
}

/// Zero amounts are accepted and contribute nothing.
#[test]
fn test_zero_amounts() {
    let contributions = vec![
        contribution("A", "S1", 0),
        contribution("A", "S2", 0),
        contribution("B", "S3", 0),
    ];
    let distributions =
        calculate_linear_qf(contributions, 100, LinearQfOptions::default()).unwrap();
    assert_eq!(distributions.len(), 2);
    assert!(distributions.iter().all(|d| d.matcha == 0));
}
