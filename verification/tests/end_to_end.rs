use cash_register::currency::usd;
use cash_register::format::format_breakdown;
use cash_register::parse::parse_input;
use cash_register::rules::make_change_for;
use rand::rngs::StdRng;
use rand::SeedableRng;

#[test]
fn three_line_scenario_with_divisor_three() {
    let input = "2.12,3.00\n1.97,2.00\n3.33,5.00";
    let mut rng = StdRng::seed_from_u64(42);
    let results = parse_input(input);
    assert_eq!(results.len(), 3);

    // Line 1: owed 212, not divisible by 3 -> greedy over 88 cents.
    let tx1 = results[0].as_ref().unwrap();
    assert_eq!((tx1.owed_cents, tx1.change_cents), (212, 88));
    let b1 = make_change_for(tx1, &usd(), 3, &mut rng);
    let named1: Vec<(u32, u32)> = b1.iter().map(|(d, c)| (d.cents, *c)).collect();
    assert_eq!(named1, vec![(25, 3), (10, 1), (1, 3)]);
    assert_eq!(format_breakdown(&b1), "3 quarters,1 dime,3 pennies");

    // Line 2: owed 197, not divisible by 3 -> greedy over 3 cents.
    let tx2 = results[1].as_ref().unwrap();
    let b2 = make_change_for(tx2, &usd(), 3, &mut rng);
    let named2: Vec<(u32, u32)> = b2.iter().map(|(d, c)| (d.cents, *c)).collect();
    assert_eq!(named2, vec![(1, 3)]);
    assert_eq!(format_breakdown(&b2), "3 pennies");

    // Line 3: owed 333, divisible by 3 -> randomized, but the sum is exact.
    let tx3 = results[2].as_ref().unwrap();
    assert_eq!(tx3.change_cents, 167);
    let b3 = make_change_for(tx3, &usd(), 3, &mut rng);
    let total3: u32 = b3.iter().map(|(d, c)| d.cents * c).sum();
    assert_eq!(total3, 167);
    for (_, c) in &b3 {
        assert!(*c > 0);
    }
}

#[test]
fn end_to_end_is_deterministic_for_a_fixed_seed() {
    let input = "2.12,3.00\n1.97,2.00\n3.33,5.00";
    let run = |seed: u64| -> Vec<String> {
        let mut rng = StdRng::seed_from_u64(seed);
        parse_input(input)
            .iter()
            .map(|r| {
                let tx = r.as_ref().unwrap();
                format_breakdown(&make_change_for(tx, &usd(), 3, &mut rng))
            })
            .collect()
    };
    assert_eq!(run(9), run(9), "same seed should produce identical output");
}
