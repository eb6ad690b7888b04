use cash_register::error::CashRegisterError;
use cash_register::parse::{parse_dollars_to_cents, parse_input, parse_line};

#[test]
fn parse_whole_dollars() {
    assert_eq!(parse_dollars_to_cents("3"), Ok(300));
    assert_eq!(parse_dollars_to_cents("0"), Ok(0));
    assert_eq!(parse_dollars_to_cents("100"), Ok(10_000));
}

#[test]
fn parse_dollars_and_cents() {
    assert_eq!(parse_dollars_to_cents("2.13"), Ok(213));
    assert_eq!(parse_dollars_to_cents("3.00"), Ok(300));
    assert_eq!(parse_dollars_to_cents("0.01"), Ok(1));
    assert_eq!(parse_dollars_to_cents("0.50"), Ok(50));
}

#[test]
fn parse_single_decimal_digit() {
    // "3.1" means $3.10
    assert_eq!(parse_dollars_to_cents("3.1"), Ok(310));
}

#[test]
fn parse_with_whitespace() {
    assert_eq!(parse_dollars_to_cents("  2.13  "), Ok(213));
}

#[test]
fn parse_rejects_too_many_decimals() {
    assert!(parse_dollars_to_cents("2.123").is_err());
}

#[test]
fn parse_rejects_empty() {
    assert!(parse_dollars_to_cents("").is_err());
}

#[test]
fn parse_rejects_non_numeric() {
    assert!(parse_dollars_to_cents("abc").is_err());
    assert!(parse_dollars_to_cents("1.ab").is_err());
}

#[test]
fn parse_rejects_sign_and_stray_dots() {
    assert!(parse_dollars_to_cents("-1").is_err());
    assert!(parse_dollars_to_cents(".5").is_err());
    assert!(parse_dollars_to_cents("5.").is_err());
    assert!(parse_dollars_to_cents("1.2.3").is_err());
}

#[test]
fn parse_largest_representable_amount() {
    // u32::MAX cents is 42949672.95; one cent more cannot be represented.
    assert_eq!(parse_dollars_to_cents("42949672.95"), Ok(u32::MAX));
    assert!(parse_dollars_to_cents("42949672.96").is_err());
    assert!(parse_dollars_to_cents("42949673").is_err());
}

#[test]
fn parse_line_valid() {
    let tx = parse_line("2.12,3.00", 1).unwrap();
    assert_eq!(tx.owed_cents, 212);
    assert_eq!(tx.paid_cents, 300);
    assert_eq!(tx.change_cents, 88);
}

#[test]
fn parse_line_with_whitespace() {
    let tx = parse_line("  2.12 , 3.00  ", 1).unwrap();
    assert_eq!(tx.change_cents, 88);
}

#[test]
fn parse_line_exact_payment() {
    let tx = parse_line("5.00,5.00", 1).unwrap();
    assert_eq!(tx.change_cents, 0);
}

#[test]
fn parse_line_underpayment() {
    let result = parse_line("5.00,3.00", 1);
    assert!(matches!(result, Err(CashRegisterError::Underpayment { .. })));
}

#[test]
fn parse_line_missing_comma() {
    let result = parse_line("5.00", 1);
    assert!(matches!(result, Err(CashRegisterError::MalformedLine { .. })));
}

#[test]
fn parse_line_invalid_amount_token() {
    match parse_line("abc,1.00", 7) {
        Err(CashRegisterError::InvalidAmount { line, input }) => {
            assert_eq!(line, 7);
            assert_eq!(input, "abc");
        }
        other => panic!("expected InvalidAmount, got {:?}", other),
    }
}

#[test]
fn parse_line_underpayment_keeps_tokens() {
    match parse_line(" 5.00 , 3.00 ", 2) {
        Err(CashRegisterError::Underpayment { line, owed, paid }) => {
            assert_eq!(line, 2);
            assert_eq!(owed, "5.00");
            assert_eq!(paid, "3.00");
        }
        other => panic!("expected Underpayment, got {:?}", other),
    }
}

#[test]
fn parse_input_skips_blank_lines() {
    let input = "2.12,3.00\n\n1.97,2.00\n";
    let results = parse_input(input);
    assert_eq!(results.len(), 2);
    assert!(results.iter().all(|r| r.is_ok()));
}

#[test]
fn parse_input_preserves_line_numbers() {
    let input = "\nbad\n2.12,3.00\n";
    let results = parse_input(input);
    assert_eq!(results.len(), 2);
    // The "bad" line is line 2 (1-indexed)
    match &results[0] {
        Err(CashRegisterError::MalformedLine { line, .. }) => assert_eq!(*line, 2),
        other => panic!("expected MalformedLine, got {:?}", other),
    }
}

#[test]
fn parse_input_empty_input_has_no_results() {
    assert!(parse_input("").is_empty());
    assert!(parse_input("  \n\t\n").is_empty());
}
