use rustexcel::table_output::TableOutput;
use rustexcel::table_error::StructuralError;

#[test]
fn test_empty_table() {
    let mut actual = TableOutput::new(8);
    actual.add_col(String::from("A"));
    actual.add_row(String::from("1"));
    let expected = String::from("0,       A\n1,        \n");
    assert_eq!(expected.as_str(), actual.to_text().as_str());
}

#[test]
fn test_small_value_table() {
    let mut actual = TableOutput::new(8);
    actual.add_col(String::from("A"));
    actual.add_row(String::from("1"));
    actual.insert_cell(String::from("5"), 0, 0).unwrap();
    let expected = String::from("0,       A\n1,       5\n");
    let actual = actual.to_text();
    assert_eq!(expected, actual);
}

#[test]
fn test_large_value() {
    let mut actual = TableOutput::new(8);
    actual.add_col(String::from("A"));
    actual.add_row(String::from("1"));
    actual.insert_cell(String::from("123456789"), 0, 0).unwrap();
    let expected = String::from("0,       A\n1,  1*10^8\n");
    let actual = actual.to_text();
    assert_eq!(expected, actual);
}

#[test]
fn width_eight_formatting() {
    let out = TableOutput::new(8);
    assert_eq!("       5", out.trim_length("5").as_str());
    assert_eq!("  1*10^8", out.trim_length("123456789").as_str());
    assert_eq!("12345678", out.trim_length("12345678").as_str());
    assert_eq!(" -1*10^8", out.trim_length("-123456789").as_str());
    assert_eq!("abcdefgh", out.trim_length("abcdefghij").as_str());
    assert_eq!("        ", out.trim_length("").as_str());
    assert_eq!("1.234567", out.trim_length("1.23456789").as_str());
}

#[test]
fn compression_handles_eleven_digits() {
    let out = TableOutput::new(8);
    assert_eq!(" 1*10^10", out.trim_length("12345678901").as_str());
}

#[test]
fn padding_keeps_wide_text() {
    let out = TableOutput::new(8);
    assert_eq!("       A", out.fill_with_white_space("A").as_str());
    assert_eq!("ABCDEFGHI", out.fill_with_white_space("ABCDEFGHI").as_str());
}

#[test]
fn row_and_header_lines() {
    let mut out = TableOutput::new(8);
    out.add_col(String::from("A"));
    out.add_col(String::from("B"));
    out.add_row(String::from("7"));
    out.insert_cell(String::from("1"), 0, 0).unwrap();
    out.insert_cell(String::from("2"), 0, 1).unwrap();
    assert_eq!("0,       A,       B", out.header_to_string().as_str());
    assert_eq!("7,       1,       2", out.row_to_string(0).unwrap().as_str());
    assert!(out.row_to_string(1).is_none());
}

#[test]
fn insert_cell_rejects_out_of_bounds() {
    let mut out = TableOutput::new(8);
    out.add_col(String::from("A"));
    out.add_row(String::from("1"));
    assert!(matches!(
        out.insert_cell(String::from("x"), 1, 0),
        Err(StructuralError::IndexOutOfBounds)
    ));
    assert!(matches!(
        out.insert_cell(String::from("x"), 0, 1),
        Err(StructuralError::IndexOutOfBounds)
    ));
}

#[test]
fn rendering_literals_twice_is_identical() {
    let mut out = TableOutput::new(8);
    out.add_col(String::from("A"));
    out.add_row(String::from("1"));
    out.insert_cell(String::from("5"), 0, 0).unwrap();
    assert_eq!(out.to_text(), out.to_text());
}
