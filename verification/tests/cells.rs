use rustexcel::cell::Cell;
use rustexcel::expression::Expression;
use rustexcel::formula::{Formula, Operator};
use rustexcel::table_error::ParseError;
use rustexcel::value::Value;

#[test]
fn test_sum() {
    let sum = "=SUM(A1:A2)";
    let actual = Formula::from_str(sum);
    assert!(actual.is_ok());
    let actual = actual.unwrap();
    assert_eq!("A1", actual.begin().as_str());
    assert_eq!("A2", actual.end().as_str());
}

#[test]
fn formula_rejects_unknown_function_and_bad_shape() {
    assert!(matches!(Formula::from_str("=FOO(A1:A2)"), Err(ParseError::UnknownFunction)));
    assert!(matches!(Formula::from_str("=SUM(A1)"), Err(ParseError::MalformedRange)));
    assert!(matches!(Formula::from_str("=SUM(A1:A2)x"), Err(ParseError::MalformedRange)));
    assert!(matches!(Formula::from_str("=MIN(A1:B2)"), Ok(Formula::Min(_))));
}

#[test]
fn expression_needs_two_operands() {
    assert!(matches!(Expression::from_str("= A1"), Err(ParseError::TooFewOperands)));
    let e = Expression::from_str("= A1 + B1").unwrap();
    assert!(matches!(e, Expression::Add(_)));
    assert_eq!(2, e.arguments_len());
    let d = Expression::from_str("= A1 - B1 - C1").unwrap();
    assert!(matches!(d, Expression::Sub(_)));
    assert_eq!(3, d.arguments_len());
}

#[test]
fn expression_folds_values_from_zero() {
    let e = Expression::Add(Vec::new());
    let values = vec![Value::Int(1), Value::Int(2), Value::Int(4)];
    assert_eq!(Ok(Value::Int(7)), e.sum(&values));
    assert_eq!(Ok(Value::Int(-7)), e.difference(&values));
}

#[test]
fn cell_parse_precedence() {
    assert!(matches!(Cell::from_str(""), Ok(Cell::Empty)));
    assert!(Cell::from_str("").unwrap().is_empty());
    assert!(matches!(Cell::from_str("42"), Ok(Cell::Value(Value::Int(42)))));
    assert!(matches!(Cell::from_str("= A1 + B1"), Ok(Cell::Expression(_))));
    assert!(matches!(Cell::from_str("=SUM(A1:A2)"), Ok(Cell::Formula(_))));
    match Cell::from_str("hello") {
        Err(ParseError::UnparseableCell(raw)) => assert_eq!("hello", raw.as_str()),
        other => panic!("expected an unparseable-cell error, got {:?}", other),
    }
    assert!(matches!(Cell::from_str("= A1"), Err(ParseError::TooFewOperands)));
    assert!(matches!(Cell::from_str("=FOO(A1:A2)"), Err(ParseError::UnknownFunction)));
}

#[test]
fn operator_symbols_parse() {
    assert!(matches!(Operator::from_str("+"), Ok(Operator::Addition)));
    assert!(matches!(Operator::from_str("-"), Ok(Operator::Subtraction)));
    assert!(matches!(Operator::from_str("*"), Ok(Operator::Multiplication)));
    assert!(matches!(Operator::from_str("/"), Ok(Operator::Division)));
    assert!(matches!(Operator::from_str("%"), Err(ParseError::UnparseableCell(_))));
}

#[test]
fn value_parses_integers_and_decimals() {
    assert_eq!(Ok(Value::Int(42)), as_eq(Value::from_str("42")));
    assert_eq!(Ok(Value::Int(-3)), as_eq(Value::from_str("-3")));
    assert_eq!(Ok(Value::Float { mantissa: 15, scale: 1 }), as_eq(Value::from_str("1.5")));
    assert_eq!(Ok(Value::Float { mantissa: 15, scale: 1 }), as_eq(Value::from_str("1.50")));
    assert_eq!(Ok(Value::Float { mantissa: 3, scale: 0 }), as_eq(Value::from_str("3.0")));
    assert_eq!(Ok(Value::Float { mantissa: -225, scale: 2 }), as_eq(Value::from_str("-2.25")));
    assert!(Value::from_str("abc").is_err());
    assert!(Value::from_str("1.2.3").is_err());
}

fn as_eq(r: Result<Value, ParseError>) -> Result<Value, ()> {
    r.map_err(|_| ())
}

#[test]
fn value_displays_decimal_text() {
    assert_eq!("42", Value::Int(42).to_text().as_str());
    assert_eq!("-3", Value::Int(-3).to_text().as_str());
    assert_eq!("1.5", Value::from_str("1.5").unwrap().to_text().as_str());
    assert_eq!("3", Value::from_str("3.0").unwrap().to_text().as_str());
    assert_eq!("-2.25", Value::from_str("-2.25").unwrap().to_text().as_str());
    assert_eq!("0.05", Value::from_str("0.05").unwrap().to_text().as_str());
}

#[test]
fn value_mixed_arithmetic_promotes_to_float() {
    let two = Value::Int(2);
    let one_and_a_half = Value::Float { mantissa: 15, scale: 1 };
    assert_eq!(Some(Value::Float { mantissa: 35, scale: 1 }), two.checked_add(one_and_a_half));
    assert_eq!(Some(Value::Int(5)), Value::Int(2).checked_add(Value::Int(3)));
    assert_eq!(Some(Value::Float { mantissa: 5, scale: 1 }), two.checked_sub(one_and_a_half));
    assert_eq!(
        Some(Value::Float { mantissa: 4, scale: 0 }),
        one_and_a_half.checked_add(Value::Float { mantissa: 25, scale: 1 })
    );
    assert_eq!(None, Value::Int(i64::MAX).checked_add(Value::Int(1)));
}

#[test]
fn value_minimum_is_numeric() {
    let two = Value::Int(2);
    let one_and_a_half = Value::Float { mantissa: 15, scale: 1 };
    assert_eq!(one_and_a_half, two.num_min(one_and_a_half));
    assert_eq!(one_and_a_half, one_and_a_half.num_min(two));
    assert!(one_and_a_half.num_lt(&two));
    assert!(!two.num_lt(&one_and_a_half));
    assert!(!two.num_lt(&Value::Float { mantissa: 2, scale: 0 }));
}

#[test]
fn value_integer_limits() {
    assert_eq!(
        Ok(Value::Int(i64::MIN)),
        as_eq(Value::from_str("-9223372036854775808"))
    );
    assert_eq!(
        Ok(Value::Int(i64::MAX)),
        as_eq(Value::from_str("9223372036854775807"))
    );
    assert!(Value::from_str("9223372036854775808").is_err());
    assert!(Value::from_str("-9223372036854775809").is_err());
}

#[test]
fn value_rejects_unrepresentable_decimals() {
    assert!(Value::from_str("0.1234567890123456789").is_err());
    assert!(Value::from_str("92233720368547758080.5").is_err());
    assert_eq!(
        Ok(Value::Float { mantissa: 123456789012345678, scale: 18 }),
        as_eq(Value::from_str("0.123456789012345678"))
    );
}
