//! Tests for the line classifier and the parser.

use fmtsrt::get::{hh_mm_ss_ms, subs_from_lines};
use fmtsrt::model::SrtError;
use fmtsrt::validate::{num, timecodes};

fn lines_of(input: &str) -> Vec<&str> {
    input.split('\n').collect()
}

#[test]
fn classifies_plain_number_line() {
    assert!(num("2024"));
    assert!(num("1"));
    assert!(num("007"));
}

#[test]
fn rejects_non_number_lines() {
    assert!(!num(""));
    assert!(!num("abc"));
    assert!(!num("1:00"));
    assert!(!num("1,5"));
    assert!(!num("1 --> 2"));
    assert!(!num(" 1"));
}

#[test]
fn classifies_timerange_line() {
    assert!(timecodes("00:00:01,040 --> 00:00:04,000"));
}

#[test]
fn rejects_partial_timerange_lines() {
    assert!(!timecodes(","));
    assert!(!timecodes(":"));
    assert!(!timecodes("1,2"));
    assert!(!timecodes("1:2"));
    assert!(!timecodes("00:00:01,040"));
    assert!(!timecodes(""));
    assert!(!timecodes("a0:00:01,040 --> 00:00:04,000"));
}

#[test]
fn parses_two_record_document() {
    let input = "1\n00:00:01,040 --> 00:00:04,000\nFirst subtitle\n\n2\n00:00:04,000 --> 00:00:08,720\nseconds subtitle,\nand a third subtitle.\n";
    let subs = subs_from_lines(lines_of(input)).unwrap();

    assert_eq!(subs.len(), 2);

    assert_eq!(subs[0].number, 1);
    assert_eq!(subs[0].start.hours, 0);
    assert_eq!(subs[0].start.mins, 0);
    assert_eq!(subs[0].start.secs, 1);
    assert_eq!(subs[0].start.millis, 40);
    assert_eq!(subs[0].end.hours, 0);
    assert_eq!(subs[0].end.mins, 0);
    assert_eq!(subs[0].end.secs, 4);
    assert_eq!(subs[0].end.millis, 0);
    assert_eq!(subs[0].text, String::from("\nFirst subtitle"));

    assert_eq!(subs[1].number, 2);
    assert_eq!(subs[1].start.secs, 4);
    assert_eq!(subs[1].end.secs, 8);
    assert_eq!(subs[1].end.millis, 720);
    assert_eq!(subs[1].text, String::from("\nseconds subtitle,\nand a third subtitle."));
}

#[test]
fn parses_large_sequence_number() {
    let input = "2024\n00:00:01,000 --> 00:00:02,000\nHello\n";
    let subs = subs_from_lines(lines_of(input)).unwrap();
    assert_eq!(subs.len(), 1);
    assert_eq!(subs[0].number, 2024);
}

#[test]
fn two_blank_lines_stop_parsing() {
    let input = "1\n00:00:01,000 --> 00:00:02,000\nHello\n\n\nthis trailing garbage\nis never looked at\n";
    let subs = subs_from_lines(lines_of(input)).unwrap();
    assert_eq!(subs.len(), 1);
    assert_eq!(subs[0].number, 1);
    assert_eq!(subs[0].text, String::from("\nHello"));
}

#[test]
fn strips_byte_order_mark_before_number() {
    let input = "\u{feff}1\n00:00:01,000 --> 00:00:02,000\nHello\n";
    let subs = subs_from_lines(lines_of(input)).unwrap();
    assert_eq!(subs.len(), 1);
    assert_eq!(subs[0].number, 1);
}

#[test]
fn reports_malformed_number_line() {
    let input = "one\n00:00:01,000 --> 00:00:02,000\nHello\n";
    let err = subs_from_lines(lines_of(input)).unwrap_err();
    assert_eq!(err, SrtError::MalformedNumberLine { line: 1 });
}

#[test]
fn reports_malformed_timerange_line() {
    let input = "1\nnot a timerange\nHello\n";
    let err = subs_from_lines(lines_of(input)).unwrap_err();
    assert_eq!(err, SrtError::MalformedTimeRangeLine { line: 2 });
}

#[test]
fn reports_timerange_with_oversized_fields() {
    // minutes must stay below sixty
    let input = "1\n00:99:01,000 --> 00:00:02,000\nHello\n";
    let err = subs_from_lines(lines_of(input)).unwrap_err();
    assert_eq!(err, SrtError::MalformedTimeRangeLine { line: 2 });
}

#[test]
fn reports_missing_caption_text() {
    let input = "1\n00:00:01,000 --> 00:00:02,000\n\nHello\n";
    let err = subs_from_lines(lines_of(input)).unwrap_err();
    assert_eq!(err, SrtError::MissingCaptionText { line: 3 });
}

#[test]
fn reads_timecode_components() {
    assert_eq!(hh_mm_ss_ms("01:02:03,004"), Some((1, 2, 3, 4)));
    assert_eq!(hh_mm_ss_ms("100:59:59,999"), Some((100, 59, 59, 999)));
    assert_eq!(hh_mm_ss_ms("00:00:01,040"), Some((0, 0, 1, 40)));
}

#[test]
fn rejects_malformed_timecode_components() {
    assert_eq!(hh_mm_ss_ms(""), None);
    assert_eq!(hh_mm_ss_ms("00:00:01"), None);
    assert_eq!(hh_mm_ss_ms("00:00,01,040"), None);
    assert_eq!(hh_mm_ss_ms("0a:00:01,040"), None);
    assert_eq!(hh_mm_ss_ms("00:00:01,040,5"), None);
    assert_eq!(hh_mm_ss_ms("00:00:00:01,040"), None);
}
