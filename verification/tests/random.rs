use cash_register::currency::{eur, usd};
use cash_register::strategy::random::RandomStrategy;
use cash_register::strategy::ChangeStrategy;
use rand::rngs::StdRng;
use rand::SeedableRng;

fn seeded_strategy(seed: u64) -> RandomStrategy {
    RandomStrategy::new(StdRng::seed_from_u64(seed))
}

#[test]
fn random_change_sums_correctly() {
    for seed in 0..100 {
        let mut strategy = seeded_strategy(seed);
        let target = 167u32; // $1.67

        let breakdown = strategy.make_change(target, &usd());
        let total: u32 = breakdown.iter().map(|(d, c)| d.cents * c).sum();

        assert_eq!(
            total, target,
            "seed {seed}: breakdown sums to {total}, expected {target}"
        );
    }
}

#[test]
fn random_change_all_counts_positive() {
    for seed in 0..100 {
        let mut strategy = seeded_strategy(seed);
        let breakdown = strategy.make_change(250, &usd());

        for (denom, count) in &breakdown {
            assert!(
                *count > 0,
                "seed {seed}: {} has count 0 but appeared in breakdown",
                denom.singular
            );
        }
    }
}

#[test]
fn random_change_zero() {
    let mut strategy = seeded_strategy(42);
    let breakdown = strategy.make_change(0, &usd());
    assert!(breakdown.is_empty());
}

#[test]
fn random_change_uses_table_denominations_in_order() {
    for seed in 0..50 {
        let mut strategy = seeded_strategy(seed);
        let breakdown = strategy.make_change(388, &usd());
        let cents: Vec<u32> = breakdown.iter().map(|(d, c)| {
            assert!(*c > 0);
            d.cents
        }).collect();
        let table = [100, 25, 10, 5, 1];
        // Every used value comes from the table, in strictly descending order.
        for w in cents.windows(2) {
            assert!(w[0] > w[1]);
        }
        for v in &cents {
            assert!(table.contains(v));
        }
    }
}

#[test]
fn deterministic_with_same_seed() {
    let b1 = seeded_strategy(42).make_change(167, &usd());
    let b2 = seeded_strategy(42).make_change(167, &usd());

    let counts1: Vec<u32> = b1.iter().map(|(_, c)| *c).collect();
    let counts2: Vec<u32> = b2.iter().map(|(_, c)| *c).collect();
    assert_eq!(counts1, counts2);
}

#[test]
fn different_seeds_can_produce_different_results() {
    // Not guaranteed, but with enough seeds at least one should differ
    let baseline = seeded_strategy(0).make_change(500, &usd());
    let baseline_counts: Vec<u32> = baseline.iter().map(|(_, c)| *c).collect();

    let any_different = (1..50).any(|seed| {
        let b = seeded_strategy(seed).make_change(500, &usd());
        let counts: Vec<u32> = b.iter().map(|(_, c)| *c).collect();
        counts != baseline_counts
    });

    assert!(
        any_different,
        "random strategy should produce varied results across seeds"
    );
}

#[test]
fn random_eur_random_sums_correctly() {
    for seed in 0..100 {
        let mut strategy = seeded_strategy(seed);
        let target = 263u32; // EUR has 2-cent coins and 20-cent coins — different structure
        let breakdown = strategy.make_change(target, &eur());
        let total: u32 = breakdown.iter().map(|(d, c)| d.cents * c).sum();
        assert_eq!(
            total, target,
            "seed {seed}: EUR breakdown sums to {total}, expected {target}"
        );
    }
}
