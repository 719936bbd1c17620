use arff::relation::{Relation, Value};
use arff::schema::{ArffError, AttributeType};

fn strings(lines: &[&str]) -> Vec<String> {
    lines.iter().map(|s| s.to_string()).collect()
}

fn weather() -> Relation {
    let lines = strings(&[
        "@relation weather",
        "@attribute temperature real",
        "@attribute outlook {sunny,rainy}",
        "@data",
        "72,sunny",
        "?,rainy",
    ]);
    Relation::load("weather.arff", &lines).unwrap()
}

#[test]
fn header_concludes_on_data_marker() {
    let mut rel = Relation::new("f");
    assert!(matches!(rel.load_header_line("@relation weather"), Ok(false)));
    assert!(matches!(rel.load_header_line("@attribute temperature real"), Ok(false)));
    assert!(matches!(rel.load_header_line("@attribute outlook {sunny,rainy}"), Ok(false)));
    assert!(matches!(rel.load_header_line("@data"), Ok(true)));
    assert_eq!(rel.name, "weather");
    let schema = rel.schema();
    assert_eq!(schema.len(), 2);
    assert_eq!(schema[0].name, "temperature");
    assert!(matches!(schema[0].attr_type, AttributeType::Numeric));
    assert_eq!(schema[1].name, "outlook");
    match &schema[1].attr_type {
        AttributeType::Nominal(vals) => {
            assert_eq!(vals, &vec!["sunny".to_string(), "rainy".to_string()]);
        },
        AttributeType::Numeric => panic!("outlook should be nominal"),
    }
}

#[test]
fn empty_header_line_is_a_no_op() {
    let mut rel = Relation::new("f");
    assert!(matches!(rel.load_header_line(""), Ok(false)));
    assert_eq!(rel.schema().len(), 0);
}

#[test]
fn quoted_relation_name_keeps_spaces() {
    let mut rel = Relation::new("f");
    assert!(matches!(rel.load_header_line("@relation 'my weather data'"), Ok(false)));
    assert_eq!(rel.name, "my weather data");
}

#[test]
fn missing_relation_name_is_an_error() {
    let mut rel = Relation::new("f");
    assert!(matches!(rel.load_header_line("@relation"), Err(ArffError::NoRelationName)));
}

#[test]
fn missing_attribute_name_is_an_error() {
    let mut rel = Relation::new("f");
    assert!(matches!(rel.load_header_line("@attribute"), Err(ArffError::NoAttributeName)));
    assert!(matches!(
        rel.load_header_line("@attribute 'never closed real"),
        Err(ArffError::NoAttributeName)
    ));
}

#[test]
fn unrecognized_directive_is_an_error() {
    let mut rel = Relation::new("f");
    let e = rel.load_header_line("@foo bar").unwrap_err();
    assert!(matches!(e, ArffError::UnrecognizedToken(s) if s == "@foo"));
}

#[test]
fn data_line_decodes_against_schema() {
    let mut rel = Relation::new("f");
    rel.load_header_line("@attribute temperature real").unwrap();
    rel.load_header_line("@attribute outlook {sunny,rainy}").unwrap();

    rel.load_data_line("72,sunny").unwrap();
    let row = rel.row(0).unwrap();
    assert_eq!(row.len(), 2);
    assert_eq!(row[0], Value::Numeric("72".to_string()));
    match &row[0] {
        Value::Numeric(text) => assert_eq!(text.parse::<f64>().unwrap(), 72.0),
        _ => panic!("expected a numeric field"),
    }
    assert_eq!(row[1], Value::Nominal(0));

    rel.load_data_line("?,rainy").unwrap();
    let row2 = rel.row(1).unwrap();
    assert_eq!(row2[0], Value::Missing);
    assert_eq!(row2[1], Value::Nominal(1));
}

#[test]
fn unknown_nominal_value_names_the_field() {
    let mut rel = Relation::new("f");
    rel.load_header_line("@attribute temperature real").unwrap();
    rel.load_header_line("@attribute outlook {sunny,rainy}").unwrap();
    let e = rel.load_data_line("72,overcast").unwrap_err();
    assert!(matches!(e, ArffError::UnknownValue(s) if s == "overcast"));
    assert_eq!(rel.n_rows(), 0);
}

#[test]
fn row_width_mismatch_reports_both_lengths() {
    let mut rel = Relation::new("f");
    rel.load_header_line("@attribute temperature real").unwrap();
    rel.load_header_line("@attribute outlook {sunny,rainy}").unwrap();
    let e = rel.load_data_line("72,sunny,extra").unwrap_err();
    assert!(matches!(e, ArffError::WidthMismatch(3, 2)));
    let e2 = rel.load_data_line("72").unwrap_err();
    assert!(matches!(e2, ArffError::WidthMismatch(1, 2)));
}

#[test]
fn unparseable_numeric_field_names_the_field() {
    let mut rel = Relation::new("f");
    rel.load_header_line("@attribute temperature real").unwrap();
    let e = rel.load_data_line("warm").unwrap_err();
    assert!(matches!(e, ArffError::UnparseableNumeric(s) if s == "warm"));
    let e2 = rel.load_data_line("").unwrap_err();
    assert!(matches!(e2, ArffError::UnparseableNumeric(s) if s == ""));
}

#[test]
fn fields_are_trimmed_before_decoding() {
    let mut rel = Relation::new("f");
    rel.load_header_line("@attribute temperature real").unwrap();
    rel.load_header_line("@attribute outlook {sunny,rainy}").unwrap();
    rel.load_data_line(" 72 ,  sunny ").unwrap();
    let row = rel.row(0).unwrap();
    assert_eq!(row[0], Value::Numeric("72".to_string()));
    assert_eq!(row[1], Value::Nominal(0));
}

#[test]
fn loaded_rows_match_schema_width_and_out_of_range_is_absent() {
    let rel = weather();
    assert_eq!(rel.name, "weather");
    assert_eq!(rel.filename, "weather.arff");
    assert_eq!(rel.n_rows(), 2);
    for i in 0..rel.n_rows() {
        assert_eq!(rel.row(i).unwrap().len(), rel.schema().len());
    }
    assert!(rel.row(2).is_none());
    assert!(rel.row(usize::MAX).is_none());
}

#[test]
fn loading_twice_yields_identical_relations() {
    let a = weather();
    let b = weather();
    assert_eq!(a.name, b.name);
    assert_eq!(a.filename, b.filename);
    assert_eq!(a.n_rows(), b.n_rows());
    assert_eq!(a.schema().len(), b.schema().len());
    for k in 0..a.schema().len() {
        assert_eq!(a.schema()[k].name, b.schema()[k].name);
    }
    for i in 0..a.n_rows() {
        assert_eq!(a.row(i).unwrap(), b.row(i).unwrap());
    }
}

#[test]
fn column_accessor_matches_rows() {
    let rel = weather();
    for k in 0..rel.schema().len() {
        let col = rel.col(k).unwrap();
        assert_eq!(col.len(), rel.n_rows());
        for i in 0..rel.n_rows() {
            assert_eq!(col[i], rel.row(i).unwrap()[k]);
        }
    }
    assert!(rel.col(2).is_none());
}

#[test]
fn row_mut_edits_in_place() {
    let mut rel = weather();
    {
        let row = rel.row_mut(0).unwrap();
        row[1] = Value::Nominal(1);
    }
    assert_eq!(rel.row(0).unwrap()[1], Value::Nominal(1));
    assert!(rel.row_mut(5).is_none());
}

#[test]
fn load_aborts_on_first_failure() {
    let lines = strings(&["@relation w", "@attribute a real", "@data", "1", "oops", "2"]);
    let e = Relation::load("f", &lines).unwrap_err();
    assert!(matches!(e, ArffError::UnparseableNumeric(s) if s == "oops"));
}

#[test]
fn duplicate_column_names_are_legal() {
    let lines = strings(&["@relation w", "@attribute a real", "@attribute a real", "@data", "1,2"]);
    let rel = Relation::load("f", &lines).unwrap();
    assert_eq!(rel.schema().len(), 2);
    assert_eq!(rel.row(0).unwrap().len(), 2);
}

#[test]
fn quoted_attribute_name_and_nominal_values() {
    let mut rel = Relation::new("f");
    rel.load_header_line("@attribute 'my attr' {'a,b',c}").unwrap();
    assert_eq!(rel.schema()[0].name, "my attr");
    match &rel.schema()[0].attr_type {
        AttributeType::Nominal(vals) => {
            assert_eq!(vals, &vec!["a,b".to_string(), "c".to_string()]);
        },
        AttributeType::Numeric => panic!("expected a nominal set"),
    }
    rel.load_data_line("a,b").unwrap_err();
    rel.load_data_line("c").unwrap();
    assert_eq!(rel.row(0).unwrap()[0], Value::Nominal(1));
}

#[test]
fn repeated_spaces_between_header_tokens_are_tolerated() {
    let mut rel = Relation::new("f");
    rel.load_header_line("@attribute  temperature   real").unwrap();
    assert_eq!(rel.schema()[0].name, "temperature");
    assert!(matches!(rel.schema()[0].attr_type, AttributeType::Numeric));
}

#[test]
fn empty_relation_has_columns_of_no_rows() {
    let lines = strings(&["@relation w", "@attribute a real", "@data"]);
    let rel = Relation::load("f", &lines).unwrap();
    assert_eq!(rel.n_rows(), 0);
    assert!(rel.row(0).is_none());
    let col = rel.col(0).unwrap();
    assert!(col.is_empty());
}

#[test]
fn header_lines_after_data_marker_are_rows() {
    let lines = strings(&["@relation w", "@attribute a {x}", "@data", "@relation"]);
    let e = Relation::load("f", &lines).unwrap_err();
    assert!(matches!(e, ArffError::UnknownValue(s) if s == "@relation"));
}

#[test]
fn tab_and_space_trimming_around_fields() {
    let mut rel = Relation::new("f");
    rel.load_header_line("@attribute temperature real").unwrap();
    rel.load_data_line("\t 72.5 \t").unwrap();
    assert_eq!(rel.row(0).unwrap()[0], Value::Numeric("72.5".to_string()));
}
