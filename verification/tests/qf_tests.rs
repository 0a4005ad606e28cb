use linear_qf::calculate_linear_qf;
use linear_qf::Contribution;
use linear_qf::LinearQfOptions;
use linear_qf::Matcha;
use linear_qf::MatchingCapStrategy;
use rand::rngs::StdRng;
use rand::seq::SliceRandom;
use rand::Rng;
use rand::SeedableRng;

fn rnd_contribution(rng: &mut StdRng) -> Contribution {
    let names = ["Alice", "Bob", "Thomas", "Ben", "Jason", "Mary"];
    let rand_names = names.choose_multiple(rng, 2).collect::<Vec<&&str>>();
    let amount: u64 = rng.gen_range(1..=1000);
    Contribution {
        sender: format!("0x{}", rand_names[0]),
        recipient: format!("0x{}", rand_names[1]),
        amount,
    }
}

#[test]
fn test_upscale_to_pot() {
    let mut rng = StdRng::seed_from_u64(7);
    let contributions: Vec<Contribution> = (0..50).map(|_| rnd_contribution(&mut rng)).collect();
    let matching_pot = 1000;
    let options = LinearQfOptions {
        upscale: true,
        ..Default::default()
    };

    let distributions = calculate_linear_qf(contributions, matching_pot, options).unwrap();

    let total_distributed: u64 = distributions.iter().map(|d| d.matcha).sum();
    assert!(total_distributed <= matching_pot);
    assert!(total_distributed >= matching_pot - matching_pot / 100); // Allow a small margin for rounding
}

fn skewed_contributions(rng: &mut StdRng) -> Vec<Contribution> {
    let a_contribs: Vec<Contribution> = (0..5)
        .map(|_| Contribution {
            recipient: "A".into(),
            amount: 200,
            sender: rng.gen::<char>().into(),
        })
        .collect();
    let b_contribs: Vec<Contribution> = (0..2)
        .map(|_| Contribution {
            recipient: "B".into(),
            amount: 500,
            sender: rng.gen::<char>().into(),
        })
        .collect();
    let c_contribs: Vec<Contribution> = (0..20)
        .map(|_| Contribution {
            recipient: "C".into(),
            amount: 50,
            sender: rng.gen::<char>().into(),
        })
        .collect();
    vec![a_contribs, b_contribs, c_contribs]
        .into_iter()
        .flatten()
        .collect::<Vec<Contribution>>()
}

#[test]
fn test_add() {
    let mut rng = StdRng::seed_from_u64(11);
    let contributions = skewed_contributions(&mut rng);
    let _ = calculate_linear_qf(contributions, 10_000, LinearQfOptions::default());
}

#[test]
fn test_redistribution_strategy() {
    let mut rng = StdRng::seed_from_u64(13);
    let contributions = skewed_contributions(&mut rng);

    let matching_pot = 10000;
    let cap = 10; // Set a cap that would force redistribution

    let options = LinearQfOptions {
        matching_cap_amount: Some(cap),
        matching_cap_strategy: MatchingCapStrategy::Redistribute,
        upscale: false, // Upscaling not relevant for this test
    };

    let distributions = calculate_linear_qf(contributions, matching_pot, options).unwrap();

    // Verify that none of the distributions exceed the cap
    assert!(
        distributions.iter().all(|d| d.matcha <= cap),
        "All distributions must be within the cap."
    );

    // Calculate total distributed amount to ensure it's within the matching pot
    let total_distributed: u64 = distributions.iter().map(|d| d.matcha).sum();

    // The total distributed amount should be less than or equal to the matching pot
    assert!(
        total_distributed <= matching_pot,
        "Total distributed amount must not exceed the matching pot."
    );
}

fn contribution(recipient: &str, sender: &str, amount: u64) -> Contribution {
    Contribution {
        recipient: recipient.into(),
        sender: sender.into(),
        amount,
    }
}

fn by_recipient<'a>(distributions: &'a [Matcha], recipient: &str) -> &'a Matcha {
    distributions
        .iter()
        .find(|d| d.recipient == recipient)
        .unwrap()
}

/// The raw quadratic score: A gets 4 from S1 and 9 from S2, so its match is
/// 2 * isqrt(4 * 9) = 12; B has a single sender and is matched exactly zero.
#[test]
fn test_exact_quadratic_score() {
    let contributions = vec![
        contribution("A", "S1", 4),
        contribution("A", "S2", 9),
        contribution("B", "S3", 7),
    ];
    let distributions =
        calculate_linear_qf(contributions, 100, LinearQfOptions::default()).unwrap();
    assert_eq!(distributions.len(), 2);
    assert_eq!(by_recipient(&distributions, "A").matcha, 12);
    assert_eq!(by_recipient(&distributions, "B").matcha, 0);
}

/// Repeated (recipient, sender) pairs merge by addition: S1's 4 and 5 join
/// into 9, so A scores 2 * isqrt(9 * 9) = 18.
#[test]
fn test_repeated_pair_merges() {
    let contributions = vec![
        contribution("A", "S1", 4),
        contribution("A", "S1", 5),
        contribution("A", "S2", 9),
    ];
    let distributions =
        calculate_linear_qf(contributions, 100, LinearQfOptions::default()).unwrap();
    assert_eq!(distributions.len(), 1);
    assert_eq!(distributions[0].recipient, "A");
    assert_eq!(distributions[0].matcha, 18);
}

/// Saturation: A scores 2 * isqrt(100 * 100) = 200 against a pool of 50, so
/// it is scaled to exactly the pool; the single-sender B stays at zero.
#[test]
fn test_saturation_scales_to_pot() {
    let contributions = vec![
        contribution("A", "S1", 100),
        contribution("A", "S2", 100),
        contribution("B", "S3", 40),
    ];
    let distributions =
        calculate_linear_qf(contributions, 50, LinearQfOptions::default()).unwrap();
    assert_eq!(by_recipient(&distributions, "A").matcha, 50);
    assert_eq!(by_recipient(&distributions, "B").matcha, 0);
    let total: u64 = distributions.iter().map(|d| d.matcha).sum();
    assert_eq!(total, 50);
}

/// Upscaling: a raw total of 12 against a pool of 120 scales A to 120, while
/// the single-sender B stays proportionally at zero.
#[test]
fn test_upscale_exact_and_single_sender_stays_zero() {
    let contributions = vec![
        contribution("A", "S1", 4),
        contribution("A", "S2", 9),
        contribution("B", "S3", 7),
    ];
    let options = LinearQfOptions {
        upscale: true,
        ..Default::default()
    };
    let distributions = calculate_linear_qf(contributions, 120, options).unwrap();
    assert_eq!(by_recipient(&distributions, "A").matcha, 120);
    assert_eq!(by_recipient(&distributions, "B").matcha, 0);
}

/// Cap strategy: overflow above the cap is discarded, values below it are
/// untouched.
#[test]
fn test_cap_discards_overflow() {
    let contributions = vec![
        contribution("A", "S1", 100),
        contribution("A", "S2", 100),
        contribution("B", "S3", 2),
        contribution("B", "S4", 2),
    ];
    let options = LinearQfOptions {
        matching_cap_amount: Some(10),
        ..Default::default()
    };
    let distributions = calculate_linear_qf(contributions, 10_000, options).unwrap();
    assert_eq!(by_recipient(&distributions, "A").matcha, 10);
    assert_eq!(by_recipient(&distributions, "B").matcha, 4);
}

/// Redistribution: raw matches 12, 10 and 4 under a cap of 10 clamp to
/// 10, 10, 4 with an overflow of 2; only the recipient strictly below the cap
/// is eligible, so it alone receives the whole overflow.
#[test]
fn test_redistribution_exact_shares() {
    let contributions = vec![
        contribution("A", "S1", 4),
        contribution("A", "S2", 9),
        contribution("B", "S3", 5),
        contribution("B", "S4", 5),
        contribution("C", "S5", 2),
        contribution("C", "S6", 2),
    ];
    let options = LinearQfOptions {
        matching_cap_amount: Some(10),
        matching_cap_strategy: MatchingCapStrategy::Redistribute,
        upscale: false,
    };
    let distributions = calculate_linear_qf(contributions, 10_000, options).unwrap();
    assert_eq!(by_recipient(&distributions, "A").matcha, 10);
    assert_eq!(by_recipient(&distributions, "B").matcha, 10);
    assert_eq!(by_recipient(&distributions, "C").matcha, 6);
}

/// Redistribution re-clamps at the cap: with matches 30, 4 and 4 under a cap
/// of 10, the share of 10 pushes both eligible recipients to the cap exactly.
#[test]
fn test_redistribution_reclamps_at_cap() {
    let contributions = vec![
        contribution("A", "S1", 15),
        contribution("A", "S2", 15),
        contribution("B", "S3", 2),
        contribution("B", "S4", 2),
        contribution("C", "S5", 2),
        contribution("C", "S6", 2),
    ];
    let options = LinearQfOptions {
        matching_cap_amount: Some(10),
        matching_cap_strategy: MatchingCapStrategy::Redistribute,
        upscale: false,
    };
    let distributions = calculate_linear_qf(contributions, 10_000, options).unwrap();
    for d in &distributions {
        assert_eq!(d.matcha, 10);
    }
}
