use yachat::chat::render_line;
use yachat::protocol::TextMessage;
use yachat::timefmt::{civil_from_timestamp, format_local_stamp};

#[test]
fn epoch_is_the_first_moment_of_1970() {
    let c = civil_from_timestamp(0, 0);
    assert_eq!(c.year, 1970);
    assert_eq!(c.month, 1);
    assert_eq!(c.day, 1);
    assert_eq!(c.hour, 0);
    assert_eq!(c.minute, 0);
    assert_eq!(c.second, 0);
}

#[test]
fn epoch_formats_zero_padded() {
    assert_eq!(format_local_stamp(0, 0), "1970-01-01 00:00:00");
}

#[test]
fn known_moment_formats_exactly() {
    assert_eq!(format_local_stamp(1600173296000, 0), "2020-09-15 12:34:56");
}

#[test]
fn offset_shifts_across_midnight_and_year() {
    assert_eq!(format_local_stamp(0, -3600), "1969-12-31 23:00:00");
    assert_eq!(format_local_stamp(946684799000, 1), "2000-01-01 00:00:00");
}

#[test]
fn leap_day_is_reached() {
    assert_eq!(format_local_stamp(951782400000, 0), "2000-02-29 00:00:00");
}

#[test]
fn milliseconds_truncate_toward_minus_infinity() {
    assert_eq!(format_local_stamp(-1, 0), "1969-12-31 23:59:59");
    assert_eq!(format_local_stamp(999, 0), "1970-01-01 00:00:00");
}

#[test]
fn a_line_renders_stamp_sender_and_content() {
    let message = TextMessage {
        content: String::from("hi there"),
        timestamp: 1600173296000,
    };
    let line = render_line(0, &String::from("bob"), &message);
    assert_eq!(line, "2020-09-15 12:34:56 bob > hi there");
}
