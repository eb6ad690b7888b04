use cash_register::currency::{eur, usd, Denomination};
use cash_register::format::{format_amount, format_breakdown, format_verbose};
use cash_register::parse::Transaction;

fn penny() -> Denomination {
    Denomination {
        cents: 1,
        singular: "penny".to_string(),
        plural: "pennies".to_string(),
    }
}

fn quarter() -> Denomination {
    Denomination {
        cents: 25,
        singular: "quarter".to_string(),
        plural: "quarters".to_string(),
    }
}

fn dime() -> Denomination {
    Denomination {
        cents: 10,
        singular: "dime".to_string(),
        plural: "dimes".to_string(),
    }
}

fn dollar() -> Denomination {
    Denomination {
        cents: 100,
        singular: "dollar".to_string(),
        plural: "dollars".to_string(),
    }
}

#[test]
fn sample_output_format() {
    let breakdown = vec![(quarter(), 3), (dime(), 1), (penny(), 3)];
    assert_eq!(format_breakdown(&breakdown), "3 quarters,1 dime,3 pennies");
}

#[test]
fn single_denomination_singular() {
    let breakdown = vec![(dollar(), 1)];
    assert_eq!(format_breakdown(&breakdown), "1 dollar");
}

#[test]
fn single_denomination_plural() {
    let breakdown = vec![(penny(), 5)];
    assert_eq!(format_breakdown(&breakdown), "5 pennies");
}

#[test]
fn empty_breakdown() {
    assert_eq!(format_breakdown(&Vec::new()), "no change");
}

#[test]
fn matches_exact_sample_output() {
    // "3 quarters,1 dime,3 pennies" — note: no spaces after commas
    let breakdown = vec![(quarter(), 3), (dime(), 1), (penny(), 3)];
    let output = format_breakdown(&breakdown);
    assert!(
        !output.contains(", "),
        "output should not have spaces after commas"
    );
    assert_eq!(output, "3 quarters,1 dime,3 pennies");
}

#[test]
fn format_amount_usd() {
    assert_eq!(format_amount(213, "$"), "$2.13");
    assert_eq!(format_amount(5, "$"), "$0.05");
    assert_eq!(format_amount(300, "$"), "$3.00");
    assert_eq!(format_amount(0, "$"), "$0.00");
    assert_eq!(format_amount(10000, "$"), "$100.00");
}

#[test]
fn format_amount_eur() {
    assert_eq!(format_amount(150, "€"), "€1.50");
    assert_eq!(format_amount(1, "€"), "€0.01");
}

#[test]
fn verbose_greedy() {
    let tx = Transaction {
        owed_cents: 212,
        paid_cents: 300,
        change_cents: 88,
    };
    let breakdown = vec![(quarter(), 3), (dime(), 1), (penny(), 3)];
    assert_eq!(
        format_verbose(&tx, &breakdown, &usd(), false),
        "Owed $2.12, Paid $3.00 -> 3 quarters,1 dime,3 pennies",
    );
}

#[test]
fn verbose_random() {
    let tx = Transaction {
        owed_cents: 333,
        paid_cents: 500,
        change_cents: 167,
    };
    let breakdown = vec![(dollar(), 1), (quarter(), 2), (penny(), 17)];
    assert_eq!(
        format_verbose(&tx, &breakdown, &usd(), true),
        "Owed $3.33, Paid $5.00 -> 1 dollar,2 quarters,17 pennies (random)",
    );
}

#[test]
fn verbose_no_change() {
    let tx = Transaction {
        owed_cents: 500,
        paid_cents: 500,
        change_cents: 0,
    };
    assert_eq!(
        format_verbose(&tx, &Vec::new(), &usd(), false),
        "Owed $5.00, Paid $5.00 -> no change",
    );
}

#[test]
fn verbose_eur_uses_euro_symbol() {
    let tx = Transaction {
        owed_cents: 150,
        paid_cents: 200,
        change_cents: 50,
    };
    let breakdown = vec![(
        Denomination {
            cents: 50,
            singular: "50 cent coin".to_string(),
            plural: "50 cent coins".to_string(),
        },
        1,
    )];
    assert_eq!(
        format_verbose(&tx, &breakdown, &eur(), false),
        "Owed €1.50, Paid €2.00 -> 1 50 cent coin",
    );
}
