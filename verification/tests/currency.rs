use cash_register::currency::{eur, usd};

#[test]
fn usd_denominations_are_sorted_descending() {
    let currency = usd();
    for window in currency.denominations.windows(2) {
        assert!(
            window[0].cents > window[1].cents,
            "{} ({}) should be larger than {} ({})",
            window[0].singular,
            window[0].cents,
            window[1].singular,
            window[1].cents,
        );
    }
}

#[test]
fn usd_smallest_denomination_is_one_cent() {
    let currency = usd();
    let last = currency.denominations.last().unwrap();
    assert_eq!(
        last.cents, 1,
        "smallest denomination must be 1 cent for exact change"
    );
}

#[test]
fn eur_smallest_denomination_is_one_cent() {
    let currency = eur();
    let last = currency.denominations.last().unwrap();
    assert_eq!(last.cents, 1);
}

#[test]
fn eur_denominations_are_sorted_descending() {
    let currency = eur();
    for window in currency.denominations.windows(2) {
        assert!(window[0].cents > window[1].cents);
    }
}
