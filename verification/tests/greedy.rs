use cash_register::currency::{eur, usd};
use cash_register::strategy::greedy::GreedyStrategy;
use cash_register::strategy::ChangeStrategy;

#[test]
fn sample_output_88_cents() {
    // 3.00 - 2.12 = 0.88 -> 3 quarters, 1 dime, 3 pennies
    let mut strategy = GreedyStrategy;
    let breakdown = strategy.make_change(88, &usd());

    let named: Vec<(&str, u32)> = breakdown
        .iter()
        .map(|(d, c)| (d.singular.as_str(), *c))
        .collect();
    assert_eq!(named, vec![("quarter", 3), ("dime", 1), ("penny", 3)]);
}

#[test]
fn sample_output_3_cents() {
    // 2.00 - 1.97 = 0.03 -> 3 pennies
    let mut strategy = GreedyStrategy;
    let breakdown = strategy.make_change(3, &usd());

    let named: Vec<(&str, u32)> = breakdown
        .iter()
        .map(|(d, c)| (d.singular.as_str(), *c))
        .collect();
    assert_eq!(named, vec![("penny", 3)]);
}

#[test]
fn exact_dollar_amount() {
    let mut strategy = GreedyStrategy;
    let breakdown = strategy.make_change(300, &usd());

    let named: Vec<(&str, u32)> = breakdown
        .iter()
        .map(|(d, c)| (d.singular.as_str(), *c))
        .collect();
    assert_eq!(named, vec![("dollar", 3)]);
}

#[test]
fn zero_change() {
    let mut strategy = GreedyStrategy;
    let breakdown = strategy.make_change(0, &usd());
    assert!(breakdown.is_empty());
}

#[test]
fn uses_all_denominations() {
    // 141 = 100 + 25 + 10 + 5 + 1
    let mut strategy = GreedyStrategy;
    let breakdown = strategy.make_change(141, &usd());

    let named: Vec<(&str, u32)> = breakdown
        .iter()
        .map(|(d, c)| (d.singular.as_str(), *c))
        .collect();
    assert_eq!(
        named,
        vec![
            ("dollar", 1),
            ("quarter", 1),
            ("dime", 1),
            ("nickel", 1),
            ("penny", 1),
        ],
    );
}

#[test]
fn single_penny() {
    let mut strategy = GreedyStrategy;
    let breakdown = strategy.make_change(1, &usd());
    let named: Vec<(&str, u32)> = breakdown
        .iter()
        .map(|(d, c)| (d.singular.as_str(), *c))
        .collect();
    assert_eq!(named, vec![("penny", 1)]);
}

#[test]
fn large_amount() {
    // $99.99 = 9999 cents
    let mut strategy = GreedyStrategy;
    let breakdown = strategy.make_change(9999, &usd());
    let total: u32 = breakdown.iter().map(|(d, c)| d.cents * c).sum();
    assert_eq!(total, 9999);
    // Should be 99 dollars, 3 quarters, 2 dimes, 4 pennies
    let named: Vec<(&str, u32)> = breakdown
        .iter()
        .map(|(d, c)| (d.singular.as_str(), *c))
        .collect();
    assert_eq!(
        named,
        vec![("dollar", 99), ("quarter", 3), ("dime", 2), ("penny", 4)]
    );
}

#[test]
fn eur_greedy_63_cents() {
    // 63 = 50 + 10 + 2 + 1
    let mut strategy = GreedyStrategy;
    let breakdown = strategy.make_change(63, &eur());

    let named: Vec<(&str, u32)> = breakdown
        .iter()
        .map(|(d, c)| (d.singular.as_str(), *c))
        .collect();
    assert_eq!(
        named,
        vec![
            ("50 cent coin", 1),
            ("10 cent coin", 1),
            ("2 cent coin", 1),
            ("1 cent coin", 1),
        ],
    );
}

#[test]
fn eur_greedy_387_cents() {
    // 387 = 200 + 100 + 50 + 20 + 10 + 5 + 2
    let mut strategy = GreedyStrategy;
    let breakdown = strategy.make_change(387, &eur());

    let named: Vec<(&str, u32)> = breakdown
        .iter()
        .map(|(d, c)| (d.singular.as_str(), *c))
        .collect();
    assert_eq!(
        named,
        vec![
            ("2 euro coin", 1),
            ("1 euro coin", 1),
            ("50 cent coin", 1),
            ("20 cent coin", 1),
            ("10 cent coin", 1),
            ("5 cent coin", 1),
            ("2 cent coin", 1),
        ],
    );
}

#[test]
fn greedy_beats_handmade_alternatives() {
    // 30 cents: greedy takes 2 coins (25+5); three dimes would take 3.
    let mut strategy = GreedyStrategy;
    let b30 = strategy.make_change(30, &usd());
    let coins30: u32 = b30.iter().map(|(_, c)| *c).sum();
    assert_eq!(coins30, 2);

    // 188 cents: greedy 1+3+1+3 = 8 coins.
    let b188 = strategy.make_change(188, &usd());
    let coins188: u32 = b188.iter().map(|(_, c)| *c).sum();
    assert_eq!(coins188, 8);

    // 8 cents in EUR: 5+2+1, three coins.
    let b8 = strategy.make_change(8, &eur());
    let coins8: u32 = b8.iter().map(|(_, c)| *c).sum();
    assert_eq!(coins8, 3);
}
