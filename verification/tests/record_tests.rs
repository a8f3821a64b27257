use solar_log::decimal::{parse_scaled, SCALED_LIMIT};
use solar_log::notation::write_scaled;
use solar_log::record::Record;

fn fields(record: &Record) -> (i64, i64, i64) {
    (record.timestamp_ms, record.current_ua, record.voltage_uv)
}

#[test]
fn parses_a_plain_line() {
    let record = Record::new("1500000000.123;1.25;12.5").unwrap();
    assert_eq!(fields(&record), (1_500_000_000_123, 1_250_000, 12_500_000));
}

#[test]
fn parses_a_line_given_as_bytes() {
    let record = Record::from_bytes(b"1500000000;-0.5;12").unwrap();
    assert_eq!(fields(&record), (1_500_000_000_000, -500_000, 12_000_000));
}

#[test]
fn timestamp_is_cut_off_at_milliseconds() {
    let record = Record::new("1500000000.9999;0;12").unwrap();
    assert_eq!(record.timestamp_ms, 1_500_000_000_999);
}

#[test]
fn values_are_cut_off_at_millionths() {
    let record = Record::new("1500000000;1.2345678;5.0000009").unwrap();
    assert_eq!(record.current_ua, 1_234_567);
    assert_eq!(record.voltage_uv, 5_000_000);
}

#[test]
fn current_bounds() {
    assert!(Record::new("1500000000;15.0;12.0").is_some());
    assert!(Record::new("1500000000;15.0001;12.0").is_none());
    assert!(Record::new("1500000000;-15.0;12.0").is_some());
    assert!(Record::new("1500000000;-15.0001;12.0").is_none());
}

#[test]
fn voltage_bounds() {
    assert!(Record::new("1500000000;1.0;5.0").is_some());
    assert!(Record::new("1500000000;1.0;4.999").is_none());
    assert!(Record::new("1500000000;1.0;16.0").is_some());
    assert!(Record::new("1500000000;1.0;16.000001").is_none());
}

#[test]
fn timestamp_bounds() {
    assert!(Record::new("1000000000;1.0;12.0").is_some());
    assert!(Record::new("999999999.999;1.0;12.0").is_none());
    assert!(Record::new("2000000000;1.0;12.0").is_some());
    assert!(Record::new("2000000000.001;1.0;12.0").is_none());
    assert!(Record::new("-1500000000;1.0;12.0").is_none());
}

#[test]
fn wrong_field_count_is_rejected() {
    assert!(Record::new("").is_none());
    assert!(Record::new("1500000000").is_none());
    assert!(Record::new("1500000000;1.0").is_none());
    assert!(Record::new("1500000000;1.0;12.0;").is_none());
    assert!(Record::new("1500000000;1.0;12.0;7").is_none());
    assert!(Record::new(";;").is_none());
}

#[test]
fn unparseable_numbers_are_rejected() {
    assert!(Record::new("abc;1.0;12.0").is_none());
    assert!(Record::new("1500000000;1.0a;12.0").is_none());
    assert!(Record::new("1500000000;1.0;12.0.0").is_none());
    assert!(Record::new("1500000000;;12.0").is_none());
    assert!(Record::new("1500000000; 1.0;12.0").is_none());
    assert!(Record::new("1500000000;.;12.0").is_none());
    assert!(Record::new("1500000000;+;12.0").is_none());
    assert!(Record::new("1500000000;1,0;12.0").is_none());
    assert!(Record::new("1500000000;1.0;12.0\u{e9}").is_none());
}

#[test]
fn signs_and_bare_points_are_read() {
    let record = Record::new("+1500000000.;+.5;12.").unwrap();
    assert_eq!(fields(&record), (1_500_000_000_000, 500_000, 12_000_000));
}

#[test]
fn accepted_records_are_within_bounds() {
    let lines = [
        "1000000000;-15;5",
        "2000000000;15;16",
        "1234567890.5;0.000001;5.000001",
    ];
    for line in lines {
        let record = Record::new(line).unwrap();
        assert!(1_000_000_000_000 <= record.timestamp_ms && record.timestamp_ms <= 2_000_000_000_000);
        assert!(-15_000_000 <= record.current_ua && record.current_ua <= 15_000_000);
        assert!(5_000_000 <= record.voltage_uv && record.voltage_uv <= 16_000_000);
    }
}

#[test]
fn parse_then_write_then_parse_gives_the_same_values() {
    let first = Record::new("1500000000.1239;-3.25;13.75").unwrap();
    let line = format!(
        "{}.{:03};-{}.{:06};{}.{:06}",
        first.timestamp_ms / 1000,
        first.timestamp_ms % 1000,
        -first.current_ua / 1_000_000,
        -first.current_ua % 1_000_000,
        first.voltage_uv / 1_000_000,
        first.voltage_uv % 1_000_000
    );
    assert_eq!(line, "1500000000.123;-3.250000;13.750000");
    let second = Record::new(&line).unwrap();
    assert_eq!(fields(&second), fields(&first));
}

#[test]
fn matches_floating_point_reading_of_the_fields() {
    let line = "1500000000.5;2.5;12.25";
    let record = Record::new(line).unwrap();
    let parts: Vec<&str> = line.split(';').collect();
    let seconds: f64 = parts[0].parse().unwrap();
    let current: f32 = parts[1].parse().unwrap();
    let voltage: f32 = parts[2].parse().unwrap();
    assert_eq!(record.timestamp_ms, (seconds * 1000.0) as i64);
    assert_eq!(record.current_ua as f32 / 1.0e6, current);
    assert_eq!(record.voltage_uv as f32 / 1.0e6, voltage);
}

#[test]
fn records_compare_by_timestamp_alone() {
    let a = Record { timestamp_ms: 5, current_ua: 1, voltage_uv: 2 };
    let b = Record { timestamp_ms: 5, current_ua: 3, voltage_uv: 4 };
    let c = Record { timestamp_ms: 6, current_ua: 1, voltage_uv: 2 };
    assert!(a == b);
    assert!(a != c);
    assert!(a < c);
    assert!(c > b);
    assert!(a <= b && a >= b);
}

#[test]
fn scaled_values_of_numerals() {
    assert_eq!(parse_scaled(b"1.2345", 3), Some(1234));
    assert_eq!(parse_scaled(b"-0.5", 6), Some(-500_000));
    assert_eq!(parse_scaled(b".25", 2), Some(25));
    assert_eq!(parse_scaled(b"3.", 1), Some(30));
    assert_eq!(parse_scaled(b"007", 0), Some(7));
    assert_eq!(parse_scaled(b"12.999", 0), Some(12));
    assert_eq!(parse_scaled(b"-0", 3), Some(0));
    assert_eq!(parse_scaled(b"+42", 0), Some(42));
}

#[test]
fn text_that_is_no_numeral() {
    assert_eq!(parse_scaled(b"", 3), None);
    assert_eq!(parse_scaled(b"-", 3), None);
    assert_eq!(parse_scaled(b".", 3), None);
    assert_eq!(parse_scaled(b"1e", 3), None);
    assert_eq!(parse_scaled(b"e5", 3), None);
    assert_eq!(parse_scaled(b"1e+", 3), None);
    assert_eq!(parse_scaled(b"1e5.0", 3), None);
    assert_eq!(parse_scaled(b"1e5e5", 3), None);
    assert_eq!(parse_scaled(b".e5", 3), None);
    assert_eq!(parse_scaled(b"1 e5", 3), None);
    assert_eq!(parse_scaled(b"--1", 3), None);
    assert_eq!(parse_scaled(b"1.2.3", 3), None);
    assert_eq!(parse_scaled(b"1-", 3), None);
    assert_eq!(parse_scaled(b"nan", 3), None);
}

#[test]
fn large_numerals_saturate() {
    assert_eq!(parse_scaled(b"9223372036854775807", 0), Some(SCALED_LIMIT));
    assert_eq!(parse_scaled(b"9223372036854775808", 0), Some(SCALED_LIMIT));
    assert_eq!(parse_scaled(b"99999999999999999999999999999", 3), Some(SCALED_LIMIT));
    assert_eq!(parse_scaled(b"-99999999999999999999999999999", 3), Some(-SCALED_LIMIT));
    assert_eq!(parse_scaled(b"1", 40), Some(SCALED_LIMIT));
    assert_eq!(parse_scaled(b"0", 40), Some(0));
}

#[test]
fn exponents_move_the_point() {
    assert_eq!(parse_scaled(b"1e3", 3), Some(1_000_000));
    assert_eq!(parse_scaled(b"1.5e1", 6), Some(15_000_000));
    assert_eq!(parse_scaled(b"2E-2", 3), Some(20));
    assert_eq!(parse_scaled(b"1e-3", 3), Some(1));
    assert_eq!(parse_scaled(b"1e-4", 3), Some(0));
    assert_eq!(parse_scaled(b"12345e-2", 0), Some(123));
    assert_eq!(parse_scaled(b"0.00012e4", 0), Some(1));
    assert_eq!(parse_scaled(b".5e1", 0), Some(5));
    assert_eq!(parse_scaled(b"5.e1", 0), Some(50));
    assert_eq!(parse_scaled(b"-7.25e+2", 1), Some(-7250));
    assert_eq!(parse_scaled(b"123456789e-9", 9), Some(123_456_789));
    assert_eq!(parse_scaled(b"1e0", 0), Some(1));
    assert_eq!(parse_scaled(b"1e-0", 2), Some(100));
    assert_eq!(parse_scaled(b"1e0005", 0), Some(100_000));
}

#[test]
fn huge_exponents_saturate_or_vanish() {
    assert_eq!(parse_scaled(b"1e99999999999999999999999999999999999999", 3), Some(SCALED_LIMIT));
    assert_eq!(parse_scaled(b"-1e30", 0), Some(-SCALED_LIMIT));
    assert_eq!(parse_scaled(b"0e99999999999999999999999999999999999999", 3), Some(0));
    assert_eq!(parse_scaled(b"0.000e99999999999999999999999999999999999999", 3), Some(0));
    assert_eq!(parse_scaled(b"1e-99999999999999999999999999999999999999", 3), Some(0));
    assert_eq!(parse_scaled(b"9e18", 0), Some(9_000_000_000_000_000_000));
    assert_eq!(parse_scaled(b"1e19", 0), Some(SCALED_LIMIT));
    assert_eq!(parse_scaled(b"0.0000000000000000000000001e25", 0), Some(1));
}

#[test]
fn lines_with_exponents_are_read() {
    let record = Record::new("1.5e9;1.5e1;1.2E1").unwrap();
    assert_eq!(fields(&record), (1_500_000_000_000, 15_000_000, 12_000_000));
    assert!(Record::new("1.5e9;1.6e1;1.2e1").is_none());
    assert!(Record::new("1.5e9;1e-7;5").is_some());
    assert!(Record::new("1.5e10;1;12").is_none());
}

#[test]
fn numerals_are_what_reads_as_a_finite_float() {
    let texts = [
        "0", "1", "-1", "+1", "1.", ".1", "1.5", "-1.5e3", "1e3", "1E3", "1e+3", "1e-3", "", "+",
        "-", ".", "e", "1e", "e1", ".e1", "1.e1", "1..2", "1.2.3", "--1", "+-1", "1+", "1e1.5",
        "1e--1", " 1", "1 ", "1_000", "0x10", "1,5", "12abc", "1e1e1", "00012", "000.000",
    ];
    for text in texts {
        let float: Result<f64, _> = text.parse();
        assert_eq!(parse_scaled(text.as_bytes(), 3).is_some(), float.is_ok(), "{:?}", text);
    }
}

fn written(value: i64, places: u32) -> String {
    let mut out = Vec::new();
    write_scaled(&mut out, value, places);
    String::from_utf8(out).unwrap()
}

#[test]
fn scaled_values_are_written_with_all_their_places() {
    assert_eq!(written(1234, 3), "1.234");
    assert_eq!(written(-500_000, 6), "-0.500000");
    assert_eq!(written(0, 3), "0.000");
    assert_eq!(written(7, 0), "7.");
    assert_eq!(written(-5, 3), "-0.005");
    assert_eq!(written(12_000_000, 6), "12.000000");
    assert_eq!(written(i64::MAX, 18), "9.223372036854775807");
    assert_eq!(written(i64::MIN, 0), "-9223372036854775808.");
    assert_eq!(written(i64::MIN, 18), "-9.223372036854775808");
}

#[test]
fn writing_appends() {
    let mut out = b"x=".to_vec();
    write_scaled(&mut out, 15, 1);
    assert_eq!(out, b"x=1.5");
}

#[test]
fn written_values_read_back() {
    let values = [0i64, 1, -1, 999, 1000, -1001, 123_456_789, i64::MAX, -i64::MAX];
    for &value in values.iter() {
        for places in [0u32, 1, 3, 6, 18] {
            let text = written(value, places);
            assert_eq!(parse_scaled(text.as_bytes(), places), Some(value), "{}", text);
        }
    }
}

#[test]
fn record_is_written_as_a_line() {
    let record = Record { timestamp_ms: 1_500_000_000_123, current_ua: -3_250_000, voltage_uv: 13_750_000 };
    assert_eq!(record.to_line(), b"1500000000.123;-3.250000;13.750000");
}

#[test]
fn written_lines_read_back_within_bounds_only() {
    let inside = [
        Record { timestamp_ms: 1_000_000_000_000, current_ua: -15_000_000, voltage_uv: 5_000_000 },
        Record { timestamp_ms: 2_000_000_000_000, current_ua: 15_000_000, voltage_uv: 16_000_000 },
        Record { timestamp_ms: 1_234_567_890_123, current_ua: 1, voltage_uv: 5_000_001 },
    ];
    for record in inside.iter() {
        let read = Record::from_bytes(&record.to_line()).unwrap();
        assert_eq!(fields(&read), fields(record));
    }
    let outside = [
        Record { timestamp_ms: 999_999_999_999, current_ua: 0, voltage_uv: 5_000_000 },
        Record { timestamp_ms: 1_500_000_000_000, current_ua: 15_000_001, voltage_uv: 5_000_000 },
        Record { timestamp_ms: 1_500_000_000_000, current_ua: 0, voltage_uv: 4_999_999 },
        Record { timestamp_ms: i64::MIN, current_ua: i64::MIN, voltage_uv: i64::MIN },
    ];
    for record in outside.iter() {
        assert!(Record::from_bytes(&record.to_line()).is_none());
    }
}

#[test]
fn read_then_written_then_read_is_the_same_record() {
    let lines = ["1500000000.1239;-3.25;13.75", "1.5e9;1e-6;5", "+1999999999.999;.5;16."];
    for line in lines {
        let first = Record::new(line).unwrap();
        let second = Record::from_bytes(&first.to_line()).unwrap();
        assert_eq!(fields(&second), fields(&first));
    }
}
