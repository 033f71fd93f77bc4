use future_value::decimal::Decimal;
use future_value::numeric_field::{clean_input, get_numeric_error_message, validate_numeric_input, NumericField};

#[test]
fn field_edit_sequence() {
    let field = NumericField::new("", Decimal::from_integer(1));
    let field = field.edit("1000");
    assert!(field.is_valid);
    assert_eq!(field.value, Decimal::from_integer(1000));
    assert!(!field.shows_error());
    let field = field.edit("");
    assert!(field.is_valid);
    assert_eq!(field.value, Decimal::from_integer(1000));
    assert!(!field.shows_error());
    let field = field.edit("abc");
    assert!(!field.is_valid);
    assert_eq!(field.value, Decimal::from_integer(1000));
    assert!(field.shows_error());
    assert_eq!(field.raw_text, "abc");
    let field = field.edit("2000");
    assert!(field.is_valid);
    assert_eq!(field.value, Decimal::from_integer(2000));
}

#[test]
fn field_accepts_separators_and_rejects_non_positive() {
    let field = NumericField::new("1000.00", Decimal::from_integer(1000));
    let field = field.edit("12,345.5");
    assert!(field.is_valid);
    assert_eq!(field.value, Decimal::new(false, 123455, 1));
    assert_eq!(field.raw_text, "12,345.5");
    let field = field.edit("0");
    assert!(!field.is_valid);
    assert_eq!(field.value, Decimal::new(false, 123455, 1));
    assert_eq!(field.error_message("Number of years"), Some("Number of years must be greater than zero".to_string()));
    let field = field.edit("  \t ");
    assert!(field.is_valid);
    assert_eq!(field.error_message("Number of years"), None);
}

#[test]
fn error_message_scenarios() {
    assert_eq!(get_numeric_error_message("-5", "Principal amount"), "Principal amount must be greater than zero");
    assert_eq!(
        get_numeric_error_message("12a", "Principal amount"),
        "Please enter a valid number (digits and decimal point only)"
    );
    assert_eq!(get_numeric_error_message("inf", "Principal amount"), "Invalid number format");
    assert_eq!(get_numeric_error_message("-inf", "Rate"), "Rate must be greater than zero");
    assert_eq!(get_numeric_error_message("nan", "Rate"), "Invalid number format");
    assert_eq!(get_numeric_error_message("1e999", "Rate"), "Invalid number format");
    assert_eq!(get_numeric_error_message("-1, 000", "Rate"), "Rate must be greater than zero");
}

#[test]
fn validate_sets_flags() {
    let mut valid = true;
    let mut value = Decimal::from_integer(7);
    assert!(!validate_numeric_input("-3", &mut valid, &mut value));
    assert!(!valid);
    assert_eq!(value, Decimal::from_integer(7));
    assert!(validate_numeric_input("3.25", &mut valid, &mut value));
    assert!(valid);
    assert_eq!(value, Decimal::new(false, 325, 2));
}

#[test]
fn cleaning_removes_commas_and_spaces() {
    assert_eq!(clean_input(" 1, 234 ,5 "), "12345");
    assert_eq!(clean_input("\t7"), "\t7");
}
