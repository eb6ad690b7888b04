use cash_register::currency::usd;
use cash_register::parse::Transaction;
use cash_register::rules::make_change_for;
use rand::rngs::StdRng;
use rand::SeedableRng;

fn tx(owed: u32, paid: u32) -> Transaction {
    Transaction {
        owed_cents: owed,
        paid_cents: paid,
        change_cents: paid - owed,
    }
}

#[test]
fn divisible_by_3_uses_random() {
    let mut rng = StdRng::seed_from_u64(42);

    // 333 is divisible by 3
    let random_result = make_change_for(&tx(333, 500), &usd(), 3, &mut rng);
    let total: u32 = random_result.iter().map(|(d, c)| d.cents * c).sum();
    assert_eq!(total, 167);
}

#[test]
fn not_divisible_by_3_uses_greedy() {
    let mut rng = StdRng::seed_from_u64(42);

    // 212 is not divisible by 3
    let result = make_change_for(&tx(212, 300), &usd(), 3, &mut rng);
    let named: Vec<(&str, u32)> = result
        .iter()
        .map(|(d, c)| (d.singular.as_str(), *c))
        .collect();
    assert_eq!(named, vec![("quarter", 3), ("dime", 1), ("penny", 3)]);
}

#[test]
fn zero_divisor_always_uses_greedy() {
    let mut rng = StdRng::seed_from_u64(42);

    // Even though 300 is divisible by 3, divisor is 0 so greedy is used
    let result = make_change_for(&tx(300, 500), &usd(), 0, &mut rng);
    let named: Vec<(&str, u32)> = result
        .iter()
        .map(|(d, c)| (d.singular.as_str(), *c))
        .collect();
    assert_eq!(named, vec![("dollar", 2)]);
}

#[test]
fn rules_custom_divisor() {
    let mut rng = StdRng::seed_from_u64(42);

    // 500 is divisible by 5 -> random
    let result = make_change_for(&tx(500, 700), &usd(), 5, &mut rng);
    let total: u32 = result.iter().map(|(d, c)| d.cents * c).sum();
    assert_eq!(total, 200);
}

#[test]
fn exact_payment_returns_empty() {
    let mut rng = StdRng::seed_from_u64(42);
    let result = make_change_for(&tx(300, 300), &usd(), 3, &mut rng);
    assert!(result.is_empty());
}

#[test]
fn dispatch_is_deterministic_under_one_seed() {
    let mut rng1 = StdRng::seed_from_u64(7);
    let mut rng2 = StdRng::seed_from_u64(7);
    let b1 = make_change_for(&tx(333, 500), &usd(), 3, &mut rng1);
    let b2 = make_change_for(&tx(333, 500), &usd(), 3, &mut rng2);
    let c1: Vec<(u32, u32)> = b1.iter().map(|(d, c)| (d.cents, *c)).collect();
    let c2: Vec<(u32, u32)> = b2.iter().map(|(d, c)| (d.cents, *c)).collect();
    assert_eq!(c1, c2);
}
