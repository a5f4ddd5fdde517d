use luna_core::cells::{convert_row, kind_for_type_name, to_column_value, SourceCell};
use luna_core::parse::ValueKind;
use luna_core::value::{ColumnValue, DateTimeValue, DecimalValue};

#[test]
fn null_renders_as_null_for_every_variant() {
    let kinds = [
        ValueKind::Bool,
        ValueKind::Short,
        ValueKind::Integer,
        ValueKind::UnsignedInt,
        ValueKind::Float,
        ValueKind::BigFloat,
        ValueKind::Long,
        ValueKind::String,
        ValueKind::Uuid,
        ValueKind::DateTime2,
        ValueKind::DateTimeOffset,
        ValueKind::Decimal,
    ];
    for k in kinds {
        assert_eq!(ColumnValue::null(k).render(), "NULL");
    }
}

#[test]
fn integers_render_in_decimal() {
    assert_eq!(ColumnValue::Short(Some(-32768)).render(), "-32768");
    assert_eq!(ColumnValue::Integer(Some(0)).render(), "0");
    assert_eq!(ColumnValue::UnsignedInt(Some(255)).render(), "255");
    assert_eq!(ColumnValue::Long(Some(i64::MIN)).render(), "-9223372036854775808");
    assert_eq!(ColumnValue::Long(Some(i64::MAX)).render(), "9223372036854775807");
}

#[test]
fn bool_and_text_render_unquoted() {
    assert_eq!(ColumnValue::Bool(Some(true)).render(), "true");
    assert_eq!(ColumnValue::Bool(Some(false)).render(), "false");
    assert_eq!(ColumnValue::String(Some("O'Brien".to_string())).render(), "O'Brien");
    assert_eq!(ColumnValue::BigFloat(Some(2.5f64.to_string())).render(), "2.5");
}

#[test]
fn uuid_renders_hyphenated() {
    let v = ColumnValue::Uuid(Some(0x0123_4567_89ab_cdef_0011_2233_4455_6677));
    assert_eq!(v.render(), "01234567-89ab-cdef-0011-223344556677");
}

#[test]
fn decimal_renders_with_full_precision() {
    let v = ColumnValue::Decimal(Some(DecimalValue { mantissa: -1234500, scale: 4 }));
    assert_eq!(v.render(), "-123.4500");
    let w = ColumnValue::Decimal(Some(DecimalValue { mantissa: 7, scale: 0 }));
    assert_eq!(w.render(), "7");
}

#[test]
fn timestamp_renders_date_and_time() {
    let d = DateTimeValue {
        year: 2023,
        month: 2,
        day: 28,
        hour: 13,
        minute: 5,
        second: 9,
        nanosecond: 0,
    };
    assert_eq!(ColumnValue::DateTime2(Some(d)).render(), "2023-02-28 13:05:09");
    let e = DateTimeValue { nanosecond: 500_000_000, ..d };
    assert_eq!(ColumnValue::DateTimeOffset(Some(e)).render(), "2023-02-28 13:05:09.500");
}

#[test]
fn parse_then_render_gives_the_text() {
    let cases = [
        (ValueKind::Bool, "true"),
        (ValueKind::Bool, "false"),
        (ValueKind::Short, "-32768"),
        (ValueKind::Integer, "2147483647"),
        (ValueKind::UnsignedInt, "0"),
        (ValueKind::Long, "-9223372036854775808"),
        (ValueKind::String, "anything at all"),
        (ValueKind::Float, "1.5"),
    ];
    for (k, t) in cases {
        let v = ColumnValue::parse(k, t).unwrap();
        assert_eq!(v.render(), t);
    }
}

#[test]
fn parse_rejects_non_canonical_or_out_of_range() {
    assert!(ColumnValue::parse(ValueKind::Integer, "007").is_none());
    assert!(ColumnValue::parse(ValueKind::Integer, "-0").is_none());
    assert!(ColumnValue::parse(ValueKind::Integer, "+5").is_none());
    assert!(ColumnValue::parse(ValueKind::Integer, "").is_none());
    assert!(ColumnValue::parse(ValueKind::Integer, "-").is_none());
    assert!(ColumnValue::parse(ValueKind::Integer, "12a").is_none());
    assert!(ColumnValue::parse(ValueKind::UnsignedInt, "256").is_none());
    assert!(ColumnValue::parse(ValueKind::Short, "32768").is_none());
    assert!(ColumnValue::parse(ValueKind::Long, "9223372036854775808").is_none());
    assert!(ColumnValue::parse(ValueKind::Long, "123456789012345678901234567890").is_none());
    assert!(ColumnValue::parse(ValueKind::Bool, "True").is_none());
}

#[test]
fn parse_reads_integer_values() {
    match ColumnValue::parse(ValueKind::Integer, "-42") {
        Some(ColumnValue::Integer(Some(v))) => assert_eq!(v, -42),
        other => panic!("unexpected {:?}", other),
    }
}

#[test]
fn binary_cell_has_no_mapping() {
    let err = to_column_value(SourceCell::Binary(Some(vec![1, 2, 3])), Some(ValueKind::String))
        .unwrap_err();
    assert_eq!(err.source_type, "binary");
    assert_eq!(err.target, Some(ValueKind::String));
    let err = to_column_value(SourceCell::Other("xml".to_string()), None).unwrap_err();
    assert_eq!(err.source_type, "xml");
    assert_eq!(err.target, None);
}

#[test]
fn cells_convert_to_matching_variant() {
    match to_column_value(SourceCell::I32(Some(7)), Some(ValueKind::Integer)).unwrap() {
        ColumnValue::Integer(Some(7)) => {}
        other => panic!("unexpected {:?}", other),
    }
    match to_column_value(SourceCell::Guid(None), None).unwrap() {
        ColumnValue::Uuid(None) => {}
        other => panic!("unexpected {:?}", other),
    }
}

#[test]
fn failing_cell_is_skipped_and_row_goes_on() {
    let (values, failures) = convert_row(
        vec![
            SourceCell::I16(Some(1)),
            SourceCell::Binary(None),
            SourceCell::Text(Some("x".to_string())),
        ],
        &vec![Some(ValueKind::Short), None, Some(ValueKind::String)],
    );
    assert_eq!(values.len(), 2);
    assert_eq!(values[1].render(), "x");
    assert_eq!(failures.len(), 1);
    assert_eq!(failures[0].0, 1);
}

#[test]
fn uuid_text_reads_back() {
    let t = "01234567-89ab-cdef-0011-223344556677";
    let v = ColumnValue::parse(ValueKind::Uuid, t).unwrap();
    match &v {
        ColumnValue::Uuid(Some(u)) => assert_eq!(*u, 0x0123_4567_89ab_cdef_0011_2233_4455_6677),
        other => panic!("unexpected {:?}", other),
    }
    assert_eq!(v.render(), t);
    let max = "ffffffff-ffff-ffff-ffff-ffffffffffff";
    assert_eq!(ColumnValue::parse(ValueKind::Uuid, max).unwrap().render(), max);
}

#[test]
fn uuid_reader_is_strict() {
    assert!(ColumnValue::parse(ValueKind::Uuid, "01234567-89AB-cdef-0011-223344556677").is_none());
    assert!(ColumnValue::parse(ValueKind::Uuid, "0123456789abcdef0011223344556677").is_none());
    assert!(ColumnValue::parse(ValueKind::Uuid, "01234567-89ab-cdef-0011-22334455667").is_none());
    assert!(ColumnValue::parse(ValueKind::Uuid, "01234567_89ab-cdef-0011-223344556677").is_none());
}

#[test]
fn cell_of_another_variant_is_refused() {
    let err = to_column_value(SourceCell::I64(Some(5)), Some(ValueKind::Integer)).unwrap_err();
    assert_eq!(err.source_type, "bigint");
    assert_eq!(err.target, Some(ValueKind::Integer));
    assert_eq!(kind_for_type_name("nvarchar"), Some(ValueKind::String));
    assert_eq!(kind_for_type_name("datetime2"), Some(ValueKind::DateTime2));
    assert_eq!(kind_for_type_name("xml"), None);
}

#[test]
fn decimal_text_reads_back() {
    for t in ["123.4500", "-0.005", "0", "-7", "0.000", "79228162514264337593543950335", "1.0000000000000000000000000001"] {
        let v = ColumnValue::parse(ValueKind::Decimal, t).unwrap();
        assert_eq!(v.render(), t);
    }
    match ColumnValue::parse(ValueKind::Decimal, "-12.50") {
        Some(ColumnValue::Decimal(Some(d))) => {
            assert_eq!(d.mantissa, -1250);
            assert_eq!(d.scale, 2);
        }
        other => panic!("unexpected {:?}", other),
    }
}

#[test]
fn decimal_reader_is_strict() {
    for t in ["-0", "-0.00", "007.1", "1.", ".5", "1.2.3", "", "-", "+1", "1e3",
              "79228162514264337593543950336", "0.12345678901234567890123456789"] {
        assert!(ColumnValue::parse(ValueKind::Decimal, t).is_none(), "{}", t);
    }
}

#[test]
fn timestamp_text_reads_back() {
    for t in [
        "2023-02-28 13:05:09",
        "2024-02-29 00:00:00.500",
        "1999-12-31 23:59:59.000001",
        "0001-01-01 00:00:00.000000001",
        "-0001-03-01 01:02:03",
        "+10000-01-01 00:00:00.123456789",
    ] {
        let v = ColumnValue::parse(ValueKind::DateTime2, t).unwrap();
        assert_eq!(v.render(), t);
        let w = ColumnValue::parse(ValueKind::DateTimeOffset, t).unwrap();
        assert_eq!(w.render(), t);
    }
}

#[test]
fn timestamp_reader_is_strict() {
    for t in [
        "2023-02-29 00:00:00",
        "2023-02-28 24:00:00",
        "2023-02-28 13:05:09.500000",
        "2023-02-28 13:05:09.000",
        "+2023-02-28 13:05:09",
        "-0000-01-01 00:00:00",
        "2023-2-28 13:05:09",
        "2023-02-28T13:05:09",
        "",
    ] {
        assert!(ColumnValue::parse(ValueKind::DateTime2, t).is_none(), "{}", t);
    }
}
