//! Tests for the serializer, the line splitter, and the serialize/parse
//! round trip.

use fmtsrt::action::reset_nums;
use fmtsrt::get::{subs_from_lines, text_contents_subs};
use fmtsrt::text::{split_lines, trim_start};

fn lines_of(input: &str) -> Vec<&str> {
    input.split('\n').collect()
}

#[test]
fn splits_on_line_feed() {
    let lines = split_lines("a\nbc\nd");
    assert_eq!(lines, vec!["a".to_string(), "bc".to_string(), "d".to_string()]);
}

#[test]
fn split_keeps_trailing_empty_line() {
    assert_eq!(split_lines("a\n"), vec!["a".to_string(), "".to_string()]);
    assert_eq!(split_lines(""), vec!["".to_string()]);
    assert_eq!(split_lines("\n"), vec!["".to_string(), "".to_string()]);
}

#[test]
fn trims_leading_whitespace_only() {
    assert_eq!(trim_start(" \t\r\n x"), "x");
    assert_eq!(trim_start("x "), "x ");
    assert_eq!(trim_start(""), "");
}

#[test]
fn renders_record_block() {
    let input = "1\n00:00:01,040 --> 00:00:04,000\nFirst subtitle\n";
    let subs = subs_from_lines(lines_of(input)).unwrap();
    assert_eq!(subs.len(), 1);
    assert_eq!(subs[0].to_string(), "1\n00:00:01,040 --> 00:00:04,000\nFirst subtitle\n");
}

#[test]
fn serializes_whole_document() {
    let input = "1\n00:00:01,040 --> 00:00:04,000\nFirst subtitle\n\n2\n00:00:04,000 --> 00:00:08,720\nseconds subtitle,\nand a third subtitle.\n";
    let subs = subs_from_lines(lines_of(input)).unwrap();
    let rendered = text_contents_subs(subs);
    assert_eq!(
        rendered,
        "1\n00:00:01,040 --> 00:00:04,000\nFirst subtitle\n\n2\n00:00:04,000 --> 00:00:08,720\nseconds subtitle,\nand a third subtitle.\n\n"
    );
}

#[test]
fn serialize_then_reparse_is_identity() {
    let input = "3\n00:00:01,040 --> 00:00:04,000\nFirst subtitle\n\n7\n01:02:03,004 --> 01:02:59,999\nseconds subtitle,\nand a third subtitle.\n";
    let subs = subs_from_lines(lines_of(input)).unwrap();
    let rendered = text_contents_subs(subs);

    let reparsed_lines = split_lines(rendered.as_str());
    let refs: Vec<&str> = reparsed_lines.iter().map(|l| l.as_str()).collect();
    let reparsed = subs_from_lines(refs).unwrap();

    let original = subs_from_lines(lines_of(input)).unwrap();
    assert_eq!(reparsed, original);
}

#[test]
fn serialize_then_reparse_after_renumbering() {
    let input = "10\n00:00:01,000 --> 00:00:02,000\nA\n\n20\n00:00:03,000 --> 00:00:04,000\nB line one\nB line two\n";
    let mut subs = subs_from_lines(lines_of(input)).unwrap();
    reset_nums(&mut subs);
    let rendered = text_contents_subs(subs);

    let reparsed_lines = split_lines(rendered.as_str());
    let refs: Vec<&str> = reparsed_lines.iter().map(|l| l.as_str()).collect();
    let reparsed = subs_from_lines(refs).unwrap();

    assert_eq!(reparsed.len(), 2);
    assert_eq!(reparsed[0].number, 1);
    assert_eq!(reparsed[1].number, 2);
    assert_eq!(reparsed[1].text, String::from("\nB line one\nB line two"));
}

#[test]
fn rendering_trims_leading_whitespace_of_text() {
    let input = "1\n00:00:01,000 --> 00:00:02,000\n  padded first line\nsecond line\n";
    let subs = subs_from_lines(lines_of(input)).unwrap();
    assert_eq!(subs[0].text, String::from("\n  padded first line\nsecond line"));
    assert_eq!(
        subs[0].to_string(),
        "1\n00:00:01,000 --> 00:00:02,000\npadded first line\nsecond line\n"
    );
}

#[test]
fn empty_sequence_serializes_to_empty_document() {
    let rendered = text_contents_subs(Vec::new());
    assert_eq!(rendered, "");
}
