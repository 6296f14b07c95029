use storage_manager::catalog::Column;
use storage_manager::codec::{decode_row, encode_row, parse_i32, text_pad, FieldValue};
use storage_manager::page::{init_page, page_insert, read_tuple, Page};

fn col(name: &str, data_type: &str) -> Column {
    Column {
        name: name.to_string(),
        data_type: data_type.to_string(),
    }
}

fn b(s: &str) -> Vec<u8> {
    s.as_bytes().to_vec()
}

#[test]
fn parse_i32_decimal_values() {
    assert_eq!(parse_i32(&b("123")), 123);
    assert_eq!(parse_i32(&b("-45")), -45);
    assert_eq!(parse_i32(&b("+7")), 7);
    assert_eq!(parse_i32(&b("0")), 0);
    assert_eq!(parse_i32(&b("00042")), 42);
    assert_eq!(parse_i32(&b("2147483647")), i32::MAX);
    assert_eq!(parse_i32(&b("-2147483648")), i32::MIN);
}

#[test]
fn parse_i32_degrades_to_zero() {
    assert_eq!(parse_i32(&b("")), 0);
    assert_eq!(parse_i32(&b("+")), 0);
    assert_eq!(parse_i32(&b("-")), 0);
    assert_eq!(parse_i32(&b("abc")), 0);
    assert_eq!(parse_i32(&b("12a")), 0);
    assert_eq!(parse_i32(&b("1.5")), 0);
    assert_eq!(parse_i32(&b(" 1")), 0);
    assert_eq!(parse_i32(&b("2147483648")), 0);
    assert_eq!(parse_i32(&b("-2147483649")), 0);
    assert_eq!(parse_i32(&b("99999999999999999999999999")), 0);
}

#[test]
fn text_pad_fits_to_ten_bytes() {
    assert_eq!(text_pad(&b("Bob")), b("Bob       "));
    assert_eq!(text_pad(&b("")), b("          "));
    assert_eq!(text_pad(&b("exactly_10")), b("exactly_10"));
    assert_eq!(text_pad(&b("longer_than_ten")), b("longer_tha"));
}

#[test]
fn encode_row_is_fixed_width() {
    let cols = vec![col("id", "INT"), col("name", "TEXT")];
    let tuple = encode_row(&cols, &vec![b("7"), b("Bob")]);
    assert_eq!(tuple.len(), 14);
    assert_eq!(&tuple[0..4], &7i32.to_le_bytes());
    assert_eq!(&tuple[4..14], b"Bob       ");
}

#[test]
fn encode_row_zeroes_unparsable_int() {
    let cols = vec![col("id", "INT")];
    let tuple = encode_row(&cols, &vec![b("not_a_number")]);
    assert_eq!(tuple, 0i32.to_le_bytes().to_vec());
}

#[test]
fn encode_row_skips_unsupported_column() {
    let cols = vec![col("id", "INT"), col("price", "FLOAT"), col("name", "TEXT")];
    let tuple = encode_row(&cols, &vec![b("3"), b("9.99"), b("Ada")]);
    // the FLOAT column contributes nothing: 4 + 10 bytes only
    assert_eq!(tuple.len(), 14);
}

#[test]
fn decode_row_walks_schema_in_order() {
    let cols = vec![col("id", "INT"), col("name", "TEXT")];
    let tuple = encode_row(&cols, &vec![b("-12"), b("Ada")]);
    let values = decode_row(&cols, &tuple);
    assert_eq!(values.len(), 2);
    assert!(matches!(values[0], FieldValue::Int(-12)));
    match &values[1] {
        FieldValue::Text(t) => assert_eq!(t, &b("Ada")),
        _ => panic!("expected a text value"),
    }
}

#[test]
fn decode_row_marks_unsupported_column() {
    let cols = vec![col("id", "INT"), col("price", "FLOAT")];
    let tuple = encode_row(&cols, &vec![b("3"), b("9.99")]);
    let values = decode_row(&cols, &tuple);
    assert_eq!(values.len(), 2);
    assert!(matches!(values[0], FieldValue::Int(3)));
    assert!(matches!(values[1], FieldValue::Unsupported));
}

#[test]
fn round_trip_through_a_page() {
    // encoding {id: 7, name: "Bob"} against [INT, TEXT], inserting the
    // tuple, reading the slot back and decoding yields id=7, name="Bob".
    let cols = vec![col("id", "INT"), col("name", "TEXT")];
    let tuple = encode_row(&cols, &vec![b("7"), b("Bob")]);
    let mut page = Page::new();
    init_page(&mut page);
    let slot = page_insert(&mut page, &tuple).unwrap();
    let payload = read_tuple(&page, slot).unwrap();
    let values = decode_row(&cols, &payload);
    assert_eq!(values.len(), 2);
    assert!(matches!(values[0], FieldValue::Int(7)));
    match &values[1] {
        FieldValue::Text(t) => assert_eq!(t, &b("Bob")),
        _ => panic!("expected a text value"),
    }
}
