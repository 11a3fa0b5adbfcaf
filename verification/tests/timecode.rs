//! Tests for timecode construction, arithmetic and rendering, and for the
//! bulk shift transformations.

use fmtsrt::action::{add_secs, reset_nums, sub_secs};
use fmtsrt::get::subs_from_lines;
use fmtsrt::model::{SrtError, TimeCode};
use fmtsrt::util::{bytes_to_megabytes, hours_to_secs, millis_to_nanos, mins_to_secs};

fn lines_of(input: &str) -> Vec<&str> {
    input.split('\n').collect()
}

#[test]
fn new_timecode_is_zero() {
    let t = TimeCode::new();
    assert_eq!(t.hours, 0);
    assert_eq!(t.mins, 0);
    assert_eq!(t.secs, 0);
    assert_eq!(t.millis, 0);
    assert_eq!(t.total_secs, 0);
}

#[test]
fn build_flattens_duration() {
    let t = TimeCode::build(1, 2, 3, 4);
    assert_eq!(t.hours, 1);
    assert_eq!(t.mins, 2);
    assert_eq!(t.secs, 3);
    assert_eq!(t.millis, 4);
    assert_eq!(t.total_secs, 3723);
}

#[test]
fn add_secs_renormalizes_fields() {
    let mut t = TimeCode::build(0, 59, 58, 500);
    t.add_secs(3);
    assert_eq!(t.hours, 1);
    assert_eq!(t.mins, 0);
    assert_eq!(t.secs, 1);
    assert_eq!(t.millis, 500);
    assert_eq!(t.total_secs, 3601);
}

#[test]
fn shift_forward_two_seconds() {
    let mut t = TimeCode::build(0, 0, 1, 40);
    t.add_secs(2);
    assert_eq!(t.to_string(), "00:00:03,040");
}

#[test]
fn sub_secs_underflow_leaves_value_unchanged() {
    let mut t = TimeCode::build(0, 0, 1, 0);
    let ok = t.sub_secs(5);
    assert!(!ok);
    assert_eq!(t, TimeCode::build(0, 0, 1, 0));
}

#[test]
fn add_then_sub_returns_original() {
    let original = TimeCode::build(1, 2, 3, 4);
    let mut t = original;
    t.add_secs(7261);
    t.sub_secs(7261);
    assert_eq!(t, original);
}

#[test]
fn renders_fixed_width_fields() {
    assert_eq!(TimeCode::build(0, 0, 1, 40).to_string(), "00:00:01,040");
    assert_eq!(TimeCode::build(0, 0, 0, 0).to_string(), "00:00:00,000");
    assert_eq!(TimeCode::build(12, 34, 56, 789).to_string(), "12:34:56,789");
    assert_eq!(TimeCode::build(100, 0, 7, 5).to_string(), "100:00:07,005");
}

#[test]
fn renumbers_in_order() {
    let input = "10\n00:00:01,000 --> 00:00:02,000\nA\n\n20\n00:00:03,000 --> 00:00:04,000\nB\n";
    let mut subs = subs_from_lines(lines_of(input)).unwrap();
    reset_nums(&mut subs);
    assert_eq!(subs[0].number, 1);
    assert_eq!(subs[1].number, 2);
}

#[test]
fn renumbering_twice_equals_once() {
    let input = "10\n00:00:01,000 --> 00:00:02,000\nA\n\n20\n00:00:03,000 --> 00:00:04,000\nB\n";
    let mut once = subs_from_lines(lines_of(input)).unwrap();
    reset_nums(&mut once);
    let mut twice = subs_from_lines(lines_of(input)).unwrap();
    reset_nums(&mut twice);
    reset_nums(&mut twice);
    assert_eq!(once, twice);
}

#[test]
fn bulk_shift_forward() {
    let input = "1\n00:00:01,040 --> 00:00:04,000\nA\n";
    let mut subs = subs_from_lines(lines_of(input)).unwrap();
    add_secs(&mut subs, 2);
    assert_eq!(subs[0].start.to_string(), "00:00:03,040");
    assert_eq!(subs[0].end.to_string(), "00:00:06,000");
}

#[test]
fn bulk_shift_backward() {
    let input = "1\n00:01:10,500 --> 00:01:20,000\nA\n";
    let mut subs = subs_from_lines(lines_of(input)).unwrap();
    assert_eq!(sub_secs(&mut subs, 70), Ok(()));
    assert_eq!(subs[0].start.to_string(), "00:00:00,500");
    assert_eq!(subs[0].end.to_string(), "00:00:10,000");
}

#[test]
fn bulk_shift_backward_underflow_names_record() {
    let input = "1\n00:00:01,000 --> 00:00:04,000\nA\n";
    let mut subs = subs_from_lines(lines_of(input)).unwrap();
    let err = sub_secs(&mut subs, 5).unwrap_err();
    assert_eq!(err, SrtError::TimeUnderflow { index: 0 });
    assert_eq!(subs[0].start.to_string(), "00:00:01,000");
    assert_eq!(subs[0].end.to_string(), "00:00:04,000");
}

#[test]
fn bulk_shift_backward_underflow_is_atomic() {
    let input = "1\n00:01:00,000 --> 00:01:05,000\nA\n\n2\n00:00:01,000 --> 00:01:00,000\nB\n";
    let mut subs = subs_from_lines(lines_of(input)).unwrap();
    let err = sub_secs(&mut subs, 5).unwrap_err();
    assert_eq!(err, SrtError::TimeUnderflow { index: 1 });
    // nothing was shifted, not even the first record
    assert_eq!(subs[0].start.to_string(), "00:01:00,000");
    assert_eq!(subs[0].end.to_string(), "00:01:05,000");
    assert_eq!(subs[1].start.to_string(), "00:00:01,000");
}

#[test]
fn unit_conversions() {
    assert_eq!(hours_to_secs(2), 7200);
    assert_eq!(mins_to_secs(3), 180);
    assert_eq!(millis_to_nanos(5), 5_000_000);
    assert_eq!(bytes_to_megabytes(2_500_000), 2);
    assert_eq!(bytes_to_megabytes(999_999), 0);
}
