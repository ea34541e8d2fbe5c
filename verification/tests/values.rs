use update_schema::calendar::{
    iso_date_to_days, iso_datetime_to_microseconds, iso_offset_datetime_to_microseconds,
};
use update_schema::decimal::{decimal_default, decimal_string_default, literal_of_exact, literal_of_rescaled};
use update_schema::defaults::{convert_default, string_default, DoubleTexts};
use update_schema::encodings::{bytes_from_hex, uuid_from_text};
use update_schema::error::{Error, ErrorKind, ErrorSource};
use update_schema::floats::{double_of_float, double_of_int, float_of_double, float_of_int};
use update_schema::literal::{Literal, PrimitiveLiteral};
use update_schema::order::sort_texts;
use update_schema::temporal::{check_datetime, check_time, nanos_from_epoch, parse_local_time};
use update_schema::type_promotion::{is_promotion_allowed, promote_default};
use update_schema::types::{PrimitiveType, Type};

fn message(literal: Result<Literal, Error>) -> String {
    let error = literal.unwrap_err();
    assert_eq!(error.kind(), ErrorKind::DataInvalid);
    error.message().to_string()
}

fn inner(error: &Error) -> Option<&Error> {
    match &error.source {
        Some(ErrorSource::Inner(inner)) => Some(inner.as_ref()),
        _ => None,
    }
}

#[test]
fn integers_become_the_nearest_floating_point_numbers() {
    for n in [
        0, 1, -1, 2, 3, -7, 255, 16_777_215, 16_777_216, 16_777_217, 16_777_219, -33_554_433,
        9_007_199_254_740_992, 9_007_199_254_740_993, -9_007_199_254_740_995, i64::MAX, i64::MIN,
        i64::MAX - 1, 0x7fff_ffff_ffff_fdff, 123_456_789_012_345_678,
    ] {
        assert_eq!(float_of_int(n), (n as f32).to_bits(), "{n}");
        assert_eq!(double_of_int(n), (n as f64).to_bits(), "{n}");
    }
}

#[test]
fn widening_a_float_keeps_its_value() {
    for value in [
        0.0f32, -0.0, 1.0, -2.5, 0.1, f32::MIN_POSITIVE, f32::MAX, f32::MIN, 1.0e-45, -1.0e-40,
        f32::INFINITY, f32::NEG_INFINITY,
    ] {
        assert_eq!(double_of_float(value.to_bits()), f64::from(value).to_bits(), "{value}");
    }
    assert!(f64::from_bits(double_of_float(f32::NAN.to_bits())).is_nan());
}

#[test]
fn narrowing_undoes_widening() {
    for bits in [
        0u32, 1, 2, 0x007f_ffff, 0x0080_0000, 0x3f80_0000, 0x3dcc_cccd, 0x7f7f_ffff, 0x8000_0000,
        0x8000_0001, 0xff7f_ffff,
    ] {
        assert_eq!(float_of_double(double_of_float(bits)), bits, "{bits:x}");
    }
}

#[test]
fn narrowing_rounds_to_the_nearest_float() {
    for value in [0.1f64, -0.3, 1.0 / 3.0, 1.0e-46, 7.0e-46, 1.5e-45, 16_777_217.0, 3.4e38, -1.0e30] {
        assert_eq!(float_of_double(value.to_bits()), (value as f32).to_bits(), "{value}");
    }
}

#[test]
fn dates_count_from_the_epoch() {
    for (text, days) in [
        ("1970-01-01", 0),
        ("1970-01-02", 1),
        ("1969-12-31", -1),
        ("2000-02-29", 11_016),
        ("2000-03-01", 11_017),
        ("2024-01-02", 19_724),
        ("0001-01-01", -719_162),
        ("1900-03-01", -25_508),
    ] {
        assert_eq!(iso_date_to_days(text).unwrap(), days, "{text}");
    }
    for text in ["", "1970-1-1", "1970-13-01", "1970-02-30", "1900-02-29", "1970/01/01", "x"] {
        assert_eq!(iso_date_to_days(text).unwrap_err().message(), "Invalid date default", "{text}");
    }
    assert_eq!(
        iso_date_to_days("+9999999-01-01").unwrap_err().message(),
        "Date default is out of range"
    );
}

#[test]
fn dates_follow_each_other_without_gaps() {
    let lengths = [31, 28, 31, 30, 31, 30, 31, 31, 30, 31, 30, 31];
    let mut expected = iso_date_to_days("1999-01-01").unwrap();
    for year in 1999..2005 {
        for month in 1..=12 {
            let leap = month == 2 && year % 4 == 0;
            for day in 1..=(lengths[month - 1] + i32::from(leap)) {
                let text = format!("{year:04}-{month:02}-{day:02}");
                assert_eq!(iso_date_to_days(&text).unwrap(), expected, "{text}");
                expected += 1;
            }
        }
    }
}

#[test]
fn timestamps_count_microseconds_from_the_epoch() {
    assert_eq!(iso_datetime_to_microseconds("1970-01-01T00:00:00").unwrap(), 0);
    assert_eq!(iso_datetime_to_microseconds("1970-01-01T00:01").unwrap(), 60_000_000);
    assert_eq!(iso_datetime_to_microseconds("1970-01-02t00:00:00.000001").unwrap(), 86_400_000_001);
    assert_eq!(iso_datetime_to_microseconds("1969-12-31T23:59:59.999999").unwrap(), -1);
    assert_eq!(
        iso_datetime_to_microseconds("1970-01-01").unwrap_err().message(),
        "Invalid timestamp default"
    );
    assert_eq!(iso_offset_datetime_to_microseconds("1970-01-01T00:00:00Z").unwrap(), 0);
    assert_eq!(
        iso_offset_datetime_to_microseconds("1970-01-01T01:00:00+01:00").unwrap(),
        0
    );
    assert_eq!(
        iso_offset_datetime_to_microseconds("1970-01-01T00:00:00-00:30").unwrap(),
        1_800_000_000
    );
    assert_eq!(
        iso_offset_datetime_to_microseconds("1970-01-01T00:00:00+19:00").unwrap_err().message(),
        "Timestamptz UTC offset is out of range"
    );
    assert_eq!(
        iso_offset_datetime_to_microseconds("1970-01-01T00:00:00+1:00").unwrap_err().message(),
        "Invalid timestamptz UTC offset"
    );
}

#[test]
fn times_of_day_are_read() {
    assert_eq!(parse_local_time("00:00").unwrap(), (0, 0));
    assert_eq!(parse_local_time("01:02:03.000000004").unwrap(), (3723, 4));
    assert_eq!(parse_local_time("23:59:59.5").unwrap(), (86_399, 500_000_000));
    assert_eq!(parse_local_time("24:00").unwrap_err().message(), "Invalid time default");
    assert_eq!(
        parse_local_time("23:59:60").unwrap_err().message(),
        "Invalid time default: leap seconds are not supported"
    );
    assert_eq!(
        string_default("01:02:03.000004", &PrimitiveType::Time).unwrap(),
        Literal::long(3_723_000_004)
    );
}

#[test]
fn readings_of_times_are_checked() {
    assert_eq!(check_time(Ok((5, 6))).unwrap(), (5, 6));
    let error = check_time(Err("trailing input".to_string())).unwrap_err();
    assert_eq!(error.message(), "Invalid time default");
    assert_eq!(error.source, Some(ErrorSource::Outside("trailing input".to_string())));
    assert_eq!(
        check_time(Ok((5, 1_000_000_000))).unwrap_err().message(),
        "Invalid time default: leap seconds are not supported"
    );
    assert_eq!(check_datetime(Ok((-5, 6))).unwrap(), (-5, 6));
    let error = check_datetime(Err("premature end of input".to_string())).unwrap_err();
    assert_eq!(error.message(), "Invalid timestamp default");
    assert_eq!(error.source, Some(ErrorSource::Outside("premature end of input".to_string())));
    assert_eq!(
        check_datetime(Ok((5, 1_999_999_999))).unwrap_err().message(),
        "Invalid timestamp default: leap seconds are not supported"
    );
}

#[test]
fn nanosecond_timestamps_are_read_and_bounded() {
    assert_eq!(
        string_default("1970-01-01T00:00:01.000000002", &PrimitiveType::TimestampNs).unwrap(),
        Literal::long(1_000_000_002)
    );
    assert_eq!(
        string_default("1970-01-01T00:00:01.000000002+00:00:01", &PrimitiveType::TimestamptzNs)
            .unwrap(),
        Literal::long(2)
    );
    assert_eq!(
        message(string_default("2300-01-01T00:00:00", &PrimitiveType::TimestampNs)),
        "Timestamp default is out of range"
    );
    assert_eq!(
        message(string_default("2300-01-01T00:00:00Z", &PrimitiveType::TimestamptzNs)),
        "Timestamptz default is out of range"
    );
    assert_eq!(nanos_from_epoch(-1, 999_999_999), Some(-1));
    assert_eq!(nanos_from_epoch(9_223_372_036, 854_775_807), Some(i64::MAX));
    assert_eq!(nanos_from_epoch(9_223_372_036, 854_775_808), None);
}

#[test]
fn decimals_are_read_and_rounded() {
    assert_eq!(decimal_default("1.005", 9, 2).unwrap(), Literal::decimal(101));
    assert_eq!(decimal_default("-1.005", 9, 2).unwrap(), Literal::decimal(-101));
    assert_eq!(decimal_default("12", 9, 2).unwrap(), Literal::decimal(1200));
    assert_eq!(message(decimal_default("1234.5", 4, 2)), "Decimal default exceeds precision 4");
    assert_eq!(message(decimal_default("NaN", 9, 2)), "Decimal default is not finite");
    assert_eq!(message(decimal_default("1x", 9, 2)), "Cannot parse decimal default");
    assert_eq!(message(decimal_default("1", 9, 32_768)), "Decimal scale is out of range");
    assert_eq!(decimal_default("1", 9, 65_538).unwrap(), Literal::decimal(100));
    assert_eq!(decimal_default("1", 9, 40_000).unwrap(), Literal::decimal(0));
    assert_eq!(message(decimal_default("1e99999999999", 9, 2)), "Cannot parse decimal default");

    assert_eq!(decimal_string_default("12.34", 9, 2).unwrap(), Literal::decimal(1234));
    assert_eq!(
        message(decimal_string_default("12.3", 9, 2)),
        "Decimal string default must have scale 2"
    );
    assert_eq!(
        message(decimal_string_default("123.45", 4, 2)),
        "Decimal default exceeds precision 4"
    );
    assert_eq!(message(decimal_string_default("", 4, 2)), "Cannot parse decimal default");
}

#[test]
fn exponents_of_decimals_are_read_by_their_values() {
    assert_eq!(decimal_string_default("1e-0000000002", 9, 2).unwrap(), Literal::decimal(1));
    assert_eq!(decimal_string_default("12.5E-0000000000001", 9, 2).unwrap(), Literal::decimal(125));
    assert_eq!(decimal_default("1.5e+00000000000000000003", 9, 2).unwrap(), Literal::decimal(150_000));
    assert_eq!(decimal_default("0e-2147483648", 9, 2).unwrap(), Literal::decimal(0));
    assert_eq!(decimal_default("1e-2147483648", 9, 2).unwrap(), Literal::decimal(0));
    for text in ["0.5e-2147483648", "1e2147483648", "1e", "1e-", "1e+-1", "1e1.0"] {
        assert_eq!(message(decimal_default(text, 9, 2)), "Cannot parse decimal default", "{text}");
    }
}

#[test]
fn readings_of_decimals_are_checked() {
    assert_eq!(literal_of_rescaled(Some((true, true, 12)), 2).unwrap(), Literal::decimal(-12));
    assert_eq!(
        message(literal_of_rescaled(Some((true, false, 123)), 2)),
        "Decimal default exceeds precision 2"
    );
    assert_eq!(
        message(literal_of_rescaled(Some((false, false, 0)), 2)),
        "Decimal default is not finite"
    );
    assert_eq!(message(literal_of_rescaled(None, 2)), "Cannot parse decimal default");
    assert_eq!(literal_of_exact(Some((true, false, 12, 1)), 2, 1).unwrap(), Literal::decimal(12));
    assert_eq!(
        message(literal_of_exact(Some((true, false, 12, -1)), 2, 1)),
        "Decimal string default must have scale 1"
    );
    assert_eq!(message(literal_of_exact(None, 2, 1)), "Cannot parse decimal default");
}

#[test]
fn hexadecimal_text_stands_for_bytes() {
    assert_eq!(bytes_from_hex("").unwrap(), Vec::<u8>::new());
    assert_eq!(bytes_from_hex("00ff7A").unwrap(), vec![0, 255, 122]);
    assert_eq!(bytes_from_hex("0"), None);
    assert_eq!(bytes_from_hex("0g"), None);
    assert_eq!(
        message(string_default("xyz", &PrimitiveType::Binary)),
        "Invalid hexadecimal default"
    );
}

#[test]
fn uuids_are_read() {
    assert_eq!(
        uuid_from_text("f79c3e09-677c-4bbd-a479-3f349cb785e7"),
        Some(0xf79c3e09_677c_4bbd_a479_3f349cb785e7)
    );
    assert_eq!(uuid_from_text("1-1-1-1-1"), Some(0x00000001_0001_0001_0001_000000000001));
    assert_eq!(uuid_from_text("f79c3e09677c4bbda4793f349cb785e7"), None);
    assert_eq!(uuid_from_text("g-1-1-1-1"), None);
    assert_eq!(message(string_default("1", &PrimitiveType::Uuid)), "Invalid UUID default");
}

#[test]
fn texts_are_sorted_by_their_characters() {
    let sorted = sort_texts(&vec![
        "b".to_string(),
        "a".to_string(),
        "ab".to_string(),
        "".to_string(),
        "a".to_string(),
        "Z".to_string(),
    ]);
    assert_eq!(sorted, vec!["", "Z", "a", "a", "ab", "b"]);
}

#[test]
fn only_wider_types_are_promotions() {
    let decimal = |precision, scale| PrimitiveType::Decimal { precision, scale };
    let int = Type::Primitive(PrimitiveType::Int);
    assert!(is_promotion_allowed(&int, &PrimitiveType::Long));
    assert!(!is_promotion_allowed(&int, &PrimitiveType::Int));
    assert!(!is_promotion_allowed(&Type::Primitive(PrimitiveType::Long), &PrimitiveType::Int));
    assert!(is_promotion_allowed(&Type::Primitive(decimal(9, 2)), &decimal(10, 2)));
    assert!(!is_promotion_allowed(&Type::Primitive(decimal(9, 2)), &decimal(10, 3)));
    assert!(!is_promotion_allowed(&Type::Primitive(decimal(9, 2)), &decimal(9, 2)));
}

#[test]
fn defaults_are_promoted_with_their_columns() {
    let long = Type::Primitive(PrimitiveType::Long);
    assert_eq!(
        promote_default(&Some(Literal::integer(-7)), &PrimitiveType::Int, &long).unwrap(),
        Some(Literal::long(-7))
    );
    assert_eq!(promote_default(&None, &PrimitiveType::Int, &long).unwrap(), None);
    assert!(promote_default(&Some(Literal::string("x")), &PrimitiveType::Int, &long).is_err());
    assert_eq!(
        promote_default(
            &Some(Literal::float_bits(0.1f32.to_bits())),
            &PrimitiveType::Float,
            &Type::Primitive(PrimitiveType::Double)
        )
        .unwrap(),
        Some(Literal::double_bits(f64::from(0.1f32).to_bits()))
    );
}

#[test]
fn converted_defaults_stay_as_they_are() {
    let texts = DoubleTexts::new();
    for (p, literal) in [
        (PrimitiveType::Long, Literal::integer(5)),
        (PrimitiveType::Double, Literal::integer(5)),
        (PrimitiveType::Date, Literal::string("2024-01-02")),
        (PrimitiveType::Uuid, Literal::string("1-1-1-1-1")),
        (PrimitiveType::Fixed(2), Literal::string("00ff")),
        (PrimitiveType::Decimal { precision: 9, scale: 2 }, Literal::string("1.25")),
    ] {
        let field_type = Type::Primitive(p);
        let once = convert_default(&field_type, &Some(literal), "c", &texts).unwrap();
        let twice = convert_default(&field_type, &once, "c", &texts).unwrap();
        assert!(once.is_some());
        assert_eq!(once, twice);
    }
}

#[test]
fn floating_point_defaults_of_decimals_are_read_from_their_texts() {
    let decimal = Type::Primitive(PrimitiveType::Decimal { precision: 9, scale: 2 });
    let bits = 1.255f64.to_bits();
    let mut texts = DoubleTexts::new();
    texts.entries.push((bits, "1.255".to_string()));
    let converted =
        convert_default(&decimal, &Some(Literal::double_bits(bits)), "price", &texts).unwrap();
    assert_eq!(converted, Some(Literal::Primitive(PrimitiveLiteral::Int128(126))));

    let error = convert_default(
        &decimal,
        &Some(Literal::double_bits(2.0f64.to_bits())),
        "price",
        &texts,
    )
    .unwrap_err();
    assert_eq!(error.kind(), ErrorKind::PreconditionFailed);
    assert_eq!(
        inner(&error).unwrap().message(),
        "Text of a floating-point default is missing"
    );
}

#[test]
fn texts_of_string_columns_are_read_as_they_are() {
    for text in ["", "plain", "2024-01-01", "\"quoted\""] {
        assert_eq!(
            string_default(text, &PrimitiveType::String).unwrap(),
            Literal::string(text),
            "{text}"
        );
    }
    assert_eq!(
        message(string_default("true", &PrimitiveType::Boolean)),
        "Default cannot be converted to the column type"
    );
}

#[test]
fn errors_of_other_libraries_lie_beneath() {
    for (text, source) in [
        ("24:00", "input is out of range"),
        ("12", "premature end of input"),
        ("12:00:00 ", "trailing input"),
        ("noon", "input contains invalid characters"),
    ] {
        let error = parse_local_time(text).unwrap_err();
        assert_eq!(error.message(), "Invalid time default", "{text}");
        assert_eq!(error.source, Some(ErrorSource::Outside(source.to_string())), "{text}");
    }
    let error = string_default("2024-01-01", &PrimitiveType::TimestampNs).unwrap_err();
    assert_eq!(error.message(), "Invalid timestamp default");
    assert_eq!(error.source, Some(ErrorSource::Outside("premature end of input".to_string())));

    for (p, text) in [
        (PrimitiveType::Int, "Integer default is out of range"),
        (PrimitiveType::Date, "Date default is out of range"),
    ] {
        for (value, fits) in [
            (i64::from(i32::MAX), true),
            (i64::from(i32::MIN), true),
            (i64::from(i32::MAX) + 1, false),
            (i64::from(i32::MIN) - 1, false),
        ] {
            let converted = convert_default(
                &Type::Primitive(p),
                &Some(Literal::long(value)),
                "n",
                &DoubleTexts::new(),
            );
            if fits {
                assert_eq!(converted.unwrap(), Some(Literal::integer(value as i32)));
            } else {
                let error = converted.unwrap_err();
                let beneath = inner(&error).unwrap();
                assert_eq!(beneath.message(), text);
                let narrowing = i32::try_from(value).unwrap_err().to_string();
                assert_eq!(beneath.source, Some(ErrorSource::Outside(narrowing)));
            }
        }
    }
}
