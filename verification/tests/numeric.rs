use arff::numeric::is_valid_numeric;
use arff::text::chars_of;

fn valid(s: &str) -> bool {
    is_valid_numeric(&chars_of(s))
}

#[test]
fn plain_and_signed_integers_are_numeric() {
    assert!(valid("72"));
    assert!(valid("+72"));
    assert!(valid("-72"));
    assert!(valid("0"));
}

#[test]
fn decimal_and_exponent_forms_are_numeric() {
    assert!(valid("3.5"));
    assert!(valid("3."));
    assert!(valid(".5"));
    assert!(valid("3.5e-2"));
    assert!(valid("3E10"));
    assert!(valid("-1.25e+3"));
    assert!(valid(".5e2"));
}

#[test]
fn special_words_are_numeric_case_insensitively() {
    assert!(valid("inf"));
    assert!(valid("-INF"));
    assert!(valid("Infinity"));
    assert!(valid("NaN"));
    assert!(valid("+nan"));
}

#[test]
fn malformed_literals_are_rejected() {
    assert!(!valid(""));
    assert!(!valid("."));
    assert!(!valid("+"));
    assert!(!valid("abc"));
    assert!(!valid("1.2.3"));
    assert!(!valid("1e"));
    assert!(!valid("e5"));
    assert!(!valid("1e5.5"));
    assert!(!valid("7 2"));
    assert!(!valid("72x"));
    assert!(!valid("in"));
}

#[test]
fn validator_agrees_with_the_standard_parser() {
    let cases = [
        "72", "+72", "-72", "3.5", "3.", ".5", "3.5e-2", "3E10", "-1.25e+3", "inf", "-INF",
        "Infinity", "NaN", "+nan", "", ".", "+", "abc", "1.2.3", "1e", "e5", "1e5.5", "7 2",
        "72x", "in", "0.0e0", "-.5",
    ];
    for c in cases {
        assert_eq!(valid(c), c.parse::<f64>().is_ok(), "disagreed on {:?}", c);
    }
}
