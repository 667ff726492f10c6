use fpoc::text::{decimal, format_duration, with_number};

#[test]
fn format_duration_zero() {
    assert_eq!(format_duration(0), "00:00:00");
}

#[test]
fn format_duration_pads_each_part() {
    assert_eq!(format_duration(3661), "01:01:01");
    assert_eq!(format_duration(59), "00:00:59");
    assert_eq!(format_duration(600), "00:10:00");
}

#[test]
fn format_duration_long_hours() {
    assert_eq!(format_duration(360_005), "100:00:05");
    assert_eq!(format_duration(86_399), "23:59:59");
}

#[test]
fn decimal_text_of_numbers() {
    assert_eq!(decimal(0), "0");
    assert_eq!(decimal(7), "7");
    assert_eq!(decimal(10), "10");
    assert_eq!(decimal(1_234_567_890), "1234567890");
    assert_eq!(decimal(u64::MAX), "18446744073709551615");
}

#[test]
fn number_after_text() {
    assert_eq!(with_number("Invalid timestamp at height ", 42), "Invalid timestamp at height 42");
}
