use ruskie::games::{parse_time, time_in_range};
use ruskie::text::{chars_of, decimal, parse_u16_in};

#[test]
fn decimal_writes_numbers() {
    assert_eq!(decimal(0), "0");
    assert_eq!(decimal(7), "7");
    assert_eq!(decimal(42), "42");
    assert_eq!(decimal(1000), "1000");
    assert_eq!(decimal(u32::MAX), "4294967295");
}

#[test]
fn decimal_matches_format() {
    for n in [0u32, 9, 10, 99, 100, 12345, 65535, 65536, 2018020001] {
        assert_eq!(decimal(n), format!("{}", n));
    }
}

#[test]
fn chars_of_keeps_every_char() {
    assert_eq!(chars_of("12:34"), vec!['1', '2', ':', '3', '4']);
    assert_eq!(chars_of(""), Vec::<char>::new());
    assert_eq!(chars_of("é:ü"), vec!['é', ':', 'ü']);
}

#[test]
fn parse_u16_in_follows_std() {
    let cases = ["0", "65535", "65536", "+7", "+", "", "-1", "1a", "007", " 1", "99999999999"];
    for case in cases {
        let cs = chars_of(case);
        assert_eq!(parse_u16_in(&cs, 0, cs.len()), case.parse::<u16>().ok(), "{:?}", case);
    }
    let cs = chars_of("x123y");
    assert_eq!(parse_u16_in(&cs, 1, 4), Some(123));
    assert_eq!(parse_u16_in(&cs, 0, 4), None);
}

#[test]
fn parse_time_reads_clock_times() {
    assert_eq!(parse_time("12:34"), Some(754));
    assert_eq!(parse_time("20:00"), Some(1200));
    assert_eq!(parse_time("00:00"), Some(0));
    assert_eq!(parse_time("0:59"), Some(59));
    assert_eq!(parse_time("+1:+2"), Some(62));
    assert_eq!(parse_time("1092:15"), Some(65535));
}

#[test]
fn parse_time_rejects_other_texts() {
    assert_eq!(parse_time(""), None);
    assert_eq!(parse_time("12"), None);
    assert_eq!(parse_time("1:2:3"), None);
    assert_eq!(parse_time(":30"), None);
    assert_eq!(parse_time("30:"), None);
    assert_eq!(parse_time("ab:cd"), None);
    assert_eq!(parse_time("-1:00"), None);
    assert_eq!(parse_time("65536:0"), None);
    assert_eq!(parse_time("1:65536"), None);
    assert_eq!(parse_time(" 1:00"), None);
}

#[test]
fn time_in_range_marks_overflow() {
    assert!(time_in_range("12:34"));
    assert!(time_in_range("1092:15"));
    assert!(!time_in_range("1092:16"));
    assert!(!time_in_range("1093:00"));
    assert!(time_in_range("junk"));
    assert!(time_in_range("65536:0"));
}

#[test]
fn parse_time_reads_back_formatted_times() {
    for (m, s) in [(0u16, 0u16), (1, 2), (12, 34), (19, 59), (1000, 5), (1092, 15)] {
        let text = format!("{}:{}", m, s);
        assert!(time_in_range(&text));
        assert_eq!(parse_time(&text), Some(m * 60 + s));
    }
}
