use r_approx::error::ParseError;
use r_approx::row::DataRow;

#[test]
fn string_to_row() {
    let row = DataRow::from_str("12;34;56").unwrap();
    assert_eq!(
        row,
        DataRow {
            temp: Some(12),
            x: Some(34),
            y: Some(56)
        }
    );

    let row = DataRow::from_str("kek;34;56").unwrap();
    assert_eq!(
        row,
        DataRow {
            temp: None,
            x: Some(34),
            y: Some(56)
        }
    );

    let row = DataRow::from_str("kek;;").unwrap();
    assert_eq!(
        row,
        DataRow {
            temp: None,
            x: None,
            y: None
        }
    );
}

#[test]
fn row_to_string() {
    let row = DataRow {
        temp: Some(12),
        x: Some(34),
        y: Some(56),
    };
    assert_eq!("12;34;56", row.to_string());

    let row = DataRow {
        temp: None,
        x: Some(34),
        y: Some(56),
    };
    assert_eq!("nan;34;56", row.to_string());

    let row = DataRow {
        temp: None,
        x: None,
        y: None,
    };
    assert_eq!("nan;nan;nan", row.to_string());
}

#[test]
fn row_with_wrong_field_count_is_malformed() {
    assert_eq!(DataRow::from_str("12;34"), Err(ParseError::MalformedRow));
    assert_eq!(DataRow::from_str("12;34;56;78"), Err(ParseError::MalformedRow));
    assert_eq!(DataRow::from_str(""), Err(ParseError::MalformedRow));
    assert_eq!(DataRow::from_str("12,34,56"), Err(ParseError::MalformedRow));
}

#[test]
fn row_fields_read_as_signed_integers() {
    let row = DataRow::from_str("-12;+34;007").unwrap();
    assert_eq!(
        row,
        DataRow {
            temp: Some(-12),
            x: Some(34),
            y: Some(7)
        }
    );
}

#[test]
fn row_fields_at_the_limits_of_32_bits() {
    let row = DataRow::from_str("-2147483648;2147483647;2147483648").unwrap();
    assert_eq!(
        row,
        DataRow {
            temp: Some(i32::MIN),
            x: Some(i32::MAX),
            y: None
        }
    );
    let row = DataRow::from_str("-2147483649;99999999999999999999;-0").unwrap();
    assert_eq!(
        row,
        DataRow {
            temp: None,
            x: None,
            y: Some(0)
        }
    );
}

#[test]
fn row_fields_that_are_no_integers_are_missing() {
    let row = DataRow::from_str(" 1;2 ;+").unwrap();
    assert_eq!(row, DataRow::default());
    let row = DataRow::from_str("-;1.5;0x10").unwrap();
    assert_eq!(row, DataRow::default());
    let row = DataRow::from_str("nan;NaN;--1").unwrap();
    assert_eq!(row, DataRow::default());
}

#[test]
fn row_text_of_extreme_values() {
    let row = DataRow {
        temp: Some(i32::MIN),
        x: Some(i32::MAX),
        y: Some(0),
    };
    assert_eq!("-2147483648;2147483647;0", row.to_string());
    let row = DataRow {
        temp: Some(-1),
        x: Some(10),
        y: Some(-100),
    };
    assert_eq!("-1;10;-100", row.to_string());
}

#[test]
fn row_text_reads_back_as_the_row() {
    let rows = [
        DataRow { temp: Some(-48), x: Some(2), y: Some(-4) },
        DataRow { temp: None, x: Some(0), y: None },
        DataRow { temp: Some(i32::MAX), x: None, y: Some(i32::MIN) },
        DataRow::default(),
    ];
    for row in rows {
        assert_eq!(DataRow::from_str(&row.to_string()), Ok(row));
    }
}

#[test]
fn anchor_and_complete_rows_are_told_apart() {
    assert!(DataRow::default().is_anchor());
    assert!(!DataRow::default().is_complete());
    let partial = DataRow { temp: None, x: Some(1), y: Some(2) };
    assert!(!partial.is_anchor());
    assert!(!partial.is_complete());
    let full = DataRow { temp: Some(0), x: Some(1), y: Some(2) };
    assert!(!full.is_anchor());
    assert!(full.is_complete());
}
