use arff::schema::{code_of, ArffError, AttributeType};
use arff::text::chars_of;

#[test]
fn numeric_keywords_are_case_insensitive() {
    assert!(matches!(AttributeType::parse_schema("REAL"), Ok(AttributeType::Numeric)));
    assert!(matches!(AttributeType::parse_schema("Integer"), Ok(AttributeType::Numeric)));
    assert!(matches!(AttributeType::parse_schema("continuous"), Ok(AttributeType::Numeric)));
    assert!(matches!(AttributeType::parse_schema("real"), Ok(AttributeType::Numeric)));
}

#[test]
fn nominal_set_keeps_declaration_order_and_codes() {
    let t = AttributeType::parse_schema("{red,green,blue}").unwrap();
    match &t {
        AttributeType::Nominal(vals) => {
            assert_eq!(vals, &vec!["red".to_string(), "green".to_string(), "blue".to_string()]);
            assert_eq!(code_of(vals, &chars_of("red")), Some(0));
            assert_eq!(code_of(vals, &chars_of("green")), Some(1));
            assert_eq!(code_of(vals, &chars_of("blue")), Some(2));
            assert_eq!(code_of(vals, &chars_of("RED")), None);
        },
        AttributeType::Numeric => panic!("expected a nominal set"),
    }
}

#[test]
fn quoted_nominal_value_may_hold_commas() {
    let t = AttributeType::parse_schema("{'a,b',c}").unwrap();
    match &t {
        AttributeType::Nominal(vals) => {
            assert_eq!(vals, &vec!["a,b".to_string(), "c".to_string()]);
        },
        AttributeType::Numeric => panic!("expected a nominal set"),
    }
}

#[test]
fn duplicate_nominal_value_is_reported() {
    let e = AttributeType::parse_schema("{a,a}").unwrap_err();
    assert!(matches!(e, ArffError::DuplicateNominal(s) if s == "a"));
}

#[test]
fn empty_nominal_set_is_incomplete() {
    assert!(matches!(AttributeType::parse_schema("{}"), Err(ArffError::IncompleteNominal)));
}

#[test]
fn unrecognized_type_is_invalid() {
    let e = AttributeType::parse_schema("foo").unwrap_err();
    assert!(matches!(e, ArffError::InvalidAttributeType(s) if s == "foo"));
}
