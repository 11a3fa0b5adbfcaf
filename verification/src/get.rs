//! The parser: a state machine that consumes the input lines in order and
//! produces the sequence of caption records, together with the serializer
//! that renders a record sequence back to one document.

use vstd::prelude::*;
use crate::model::{LineKind, LineTracker, SrtError, SubRec, Subtitle, TimeCode, spec_block};
use crate::text::{
    all_digits, char_pos, dec_value, find_char_pos, lemma_char_pos, parse_dec_u64, push_char,
};
use crate::validate::{is_timerange_line, num, timecodes};

verus! {

/// The components of a timecode string `HH:MM:SS,mmm`: the digits before
/// the first colon, between the colons, between the second colon and the
/// comma, and after the comma. `None` unless the string has exactly two
/// colons followed by exactly one comma.
pub open spec fn spec_split_timecode(s: Seq<char>) -> Option<(Seq<char>, Seq<char>, Seq<char>, Seq<char>)> {
    let p1 = char_pos(s, ':');
    if p1 < 0 {
        None
    } else {
        let rest1 = s.skip(p1 + 1);
        let p2 = char_pos(rest1, ':');
        if p2 < 0 {
            None
        } else {
            let rest2 = rest1.skip(p2 + 1);
            if char_pos(rest2, ':') >= 0 {
                None
            } else {
                let p3 = char_pos(rest2, ',');
                if p3 < 0 {
                    None
                } else {
                    let ms = rest2.skip(p3 + 1);
                    if char_pos(ms, ',') >= 0 {
                        None
                    } else {
                        Some((s.take(p1), rest1.take(p2), rest2.take(p3), ms))
                    }
                }
            }
        }
    }
}

/// Each split component is a non-empty digit string whose value fits the
/// field it is parsed into.
pub open spec fn spec_parts_fit(parts: (Seq<char>, Seq<char>, Seq<char>, Seq<char>)) -> bool {
    &&& parts.0.len() > 0 && all_digits(parts.0) && dec_value(parts.0) <= u64::MAX
    &&& parts.1.len() > 0 && all_digits(parts.1) && dec_value(parts.1) <= u64::MAX
    &&& parts.2.len() > 0 && all_digits(parts.2) && dec_value(parts.2) <= u64::MAX
    &&& parts.3.len() > 0 && all_digits(parts.3) && dec_value(parts.3) <= u32::MAX
}

/// The numeric values of the four split components.
pub open spec fn spec_parts_values(parts: (Seq<char>, Seq<char>, Seq<char>, Seq<char>)) -> (u64, u64, u64, u32) {
    (
        dec_value(parts.0) as u64,
        dec_value(parts.1) as u64,
        dec_value(parts.2) as u64,
        dec_value(parts.3) as u32,
    )
}

/// The components denote a timecode the parser accepts: minutes and seconds
/// below sixty, milliseconds below a thousand, and a flattened duration
/// that fits in a `u64`.
pub open spec fn spec_timecode_parts_ok(parts: (Seq<char>, Seq<char>, Seq<char>, Seq<char>)) -> bool {
    &&& spec_parts_fit(parts)
    &&& dec_value(parts.1) < 60
    &&& dec_value(parts.2) < 60
    &&& dec_value(parts.3) < 1000
    &&& dec_value(parts.0) * 3600 + dec_value(parts.1) * 60 + dec_value(parts.2) <= u64::MAX
}

/// The timecode denoted by the string `s`, if `s` is a well-formed
/// `HH:MM:SS,mmm`.
pub open spec fn spec_parse_timecode(s: Seq<char>) -> Option<TimeCode> {
    match spec_split_timecode(s) {
        Some(parts) => if spec_timecode_parts_ok(parts) {
            Some(TimeCode {
                hours: dec_value(parts.0) as u64,
                mins: dec_value(parts.1) as u64,
                secs: dec_value(parts.2) as u64,
                millis: dec_value(parts.3) as u32,
                total_secs: (dec_value(parts.0) * 3600 + dec_value(parts.1) * 60
                    + dec_value(parts.2)) as u64,
            })
        } else {
            None
        },
        None => None,
    }
}

/// Splits a timecode string on its colons and comma and reads the four
/// numeric components. `None` when the shape or a number is malformed or a
/// value does not fit its field.
pub fn hh_mm_ss_ms(timecode: &str) -> (r: Option<(u64, u64, u64, u32)>)
    ensures
        spec_split_timecode(timecode@) is None ==> r is None,
        spec_split_timecode(timecode@) matches Some(parts) ==> {
            &&& r is Some <==> spec_parts_fit(parts)
            &&& r is Some ==> r->0 == spec_parts_values(parts)
        },
{
    let n = timecode.unicode_len();
    let p1 = match find_char_pos(timecode, ':') {
        Some(p) => p,
        None => {
            return None;
        },
    };
    proof {
        lemma_char_pos(timecode@, ':');
    }
    let hh_str = timecode.substring_char(0, p1);
    let rest1 = timecode.substring_char(p1 + 1, n);
    proof {
        assert(hh_str@ =~= timecode@.take(p1 as int));
        assert(rest1@ =~= timecode@.skip(p1 + 1));
    }
    let p2 = match find_char_pos(rest1, ':') {
        Some(p) => p,
        None => {
            return None;
        },
    };
    proof {
        lemma_char_pos(rest1@, ':');
    }
    let mm_str = rest1.substring_char(0, p2);
    let rest2 = rest1.substring_char(p2 + 1, rest1.unicode_len());
    proof {
        assert(mm_str@ =~= rest1@.take(p2 as int));
        assert(rest2@ =~= rest1@.skip(p2 + 1));
    }
    if find_char_pos(rest2, ':').is_some() {
        return None;
    }
    let p3 = match find_char_pos(rest2, ',') {
        Some(p) => p,
        None => {
            return None;
        },
    };
    proof {
        lemma_char_pos(rest2@, ',');
    }
    let ss_str = rest2.substring_char(0, p3);
    let ms_str = rest2.substring_char(p3 + 1, rest2.unicode_len());
    proof {
        assert(ss_str@ =~= rest2@.take(p3 as int));
        assert(ms_str@ =~= rest2@.skip(p3 + 1));
    }
    if find_char_pos(ms_str, ',').is_some() {
        return None;
    }
    let hh = match parse_dec_u64(hh_str) {
        Some(v) => v,
        None => {
            return None;
        },
    };
    let mm = match parse_dec_u64(mm_str) {
        Some(v) => v,
        None => {
            return None;
        },
    };
    let ss = match parse_dec_u64(ss_str) {
        Some(v) => v,
        None => {
            return None;
        },
    };
    let msv = match parse_dec_u64(ms_str) {
        Some(v) => v,
        None => {
            return None;
        },
    };
    if msv > 0xffff_ffff {
        return None;
    }
    Some((hh, mm, ss, msv as u32))
}

/// Parses one side of a time-range line into a timecode, enforcing the
/// normalized ranges of the minute, second and millisecond fields and that
/// the flattened duration fits.
fn parse_timecode_str(s: &str) -> (r: Option<TimeCode>)
    ensures
        r == spec_parse_timecode(s@),
{
    match hh_mm_ss_ms(s) {
        Some((hh, mm, ss, ms)) => {
            if mm < 60 && ss < 60 && ms < 1000 {
                let small = mm * 60 + ss;
                if hh <= (u64::MAX - small) / 3600 {
                    proof {
                        assert(hh * 3600 + small <= u64::MAX) by {
                            vstd::arithmetic::div_mod::lemma_fundamental_div_mod(
                                (u64::MAX - small) as int, 3600);
                            vstd::arithmetic::mul::lemma_mul_inequality(
                                hh as int, ((u64::MAX - small) / 3600) as int, 3600);
                        };
                    }
                    Some(TimeCode::build(hh, mm, ss, ms))
                } else {
                    proof {
                        assert(hh * 3600 + small > u64::MAX) by {
                            vstd::arithmetic::div_mod::lemma_fundamental_div_mod(
                                (u64::MAX - small) as int, 3600);
                            vstd::arithmetic::mul::lemma_mul_inequality(
                                ((u64::MAX - small) / 3600 + 1) as int, hh as int, 3600);
                        };
                    }
                    None
                }
            } else {
                None
            }
        },
        None => None,
    }
}

/// The five-character separator ` --> ` starts at position `i` of `s`.
pub open spec fn arrow5_at(s: Seq<char>, i: int) -> bool {
    &&& 0 <= i
    &&& i + 5 <= s.len()
    &&& s[i] == ' '
    &&& s[i + 1] == '-'
    &&& s[i + 2] == '-'
    &&& s[i + 3] == '>'
    &&& s[i + 4] == ' '
}

/// The position of the first ` --> ` in `s`, or `-1` if none occurs.
pub open spec fn arrow5_pos(s: Seq<char>) -> int
    decreases s.len(),
{
    if s.len() < 5 {
        -1
    } else if arrow5_at(s, 0) {
        0
    } else {
        let p = arrow5_pos(s.skip(1));
        if p < 0 {
            -1
        } else {
            p + 1
        }
    }
}

/// What `arrow5_pos` finds: either no separator at all, or the first one.
pub proof fn lemma_arrow5_pos(s: Seq<char>)
    ensures
        arrow5_pos(s) == -1 ==> forall|j: int| !(#[trigger] arrow5_at(s, j)),
        arrow5_pos(s) >= 0 ==> {
            &&& arrow5_at(s, arrow5_pos(s))
            &&& forall|j: int| 0 <= j < arrow5_pos(s) ==> !(#[trigger] arrow5_at(s, j))
        },
    decreases s.len(),
{
    if s.len() < 5 {
    } else if !arrow5_at(s, 0) {
        lemma_arrow5_pos(s.skip(1));
        assert(forall|j: int| 0 <= j < s.skip(1).len() ==> s.skip(1)[j] == s[j + 1]);
        assert(forall|j: int| #[trigger] arrow5_at(s, j) && j >= 1
            ==> arrow5_at(s.skip(1), j - 1));
        assert(forall|j: int| #[trigger] arrow5_at(s.skip(1), j)
            ==> arrow5_at(s, j + 1));
    }
}

/// Finds the first ` --> ` separator in `s`, if any.
fn find_arrow5(s: &str) -> (r: Option<usize>)
    ensures
        r is Some <==> arrow5_pos(s@) >= 0,
        r is Some ==> r->0 == arrow5_pos(s@),
{
    proof {
        lemma_arrow5_pos(s@);
    }
    let n = s.unicode_len();
    if n < 5 {
        return None;
    }
    let mut i: usize = 0;
    while i <= n - 5
        invariant
            5 <= n == s@.len(),
            0 <= i <= n - 4,
            forall|j: int| 0 <= j < i ==> !(#[trigger] arrow5_at(s@, j)),
        decreases n - i,
    {
        if s.get_char(i) == ' ' && s.get_char(i + 1) == '-' && s.get_char(i + 2) == '-'
            && s.get_char(i + 3) == '>' && s.get_char(i + 4) == ' ' {
            proof {
                assert(arrow5_at(s@, i as int));
                lemma_arrow5_pos(s@);
                assert(arrow5_pos(s@) == i);
            }
            return Some(i);
        }
        assert(!arrow5_at(s@, i as int));
        i += 1;
    }
    proof {
        assert(forall|j: int| #[trigger] arrow5_at(s@, j) ==> 0 <= j < i);
    }
    None
}

/// The two timecodes of a time-range line: the line must classify as a
/// time-range, split on the first ` --> `, and parse on both sides.
pub open spec fn spec_parse_timerange(line: Seq<char>) -> Option<(TimeCode, TimeCode)> {
    if !is_timerange_line(line) {
        None
    } else {
        let p = arrow5_pos(line);
        if p < 0 {
            None
        } else {
            match (spec_parse_timecode(line.take(p)), spec_parse_timecode(line.skip(p + 5))) {
                (Some(s), Some(e)) => Some((s, e)),
                _ => None,
            }
        }
    }
}

/// Parses a time-range line into its start and end timecodes.
fn parse_timerange_line(line: &str) -> (r: Option<(TimeCode, TimeCode)>)
    ensures
        r == spec_parse_timerange(line@),
{
    if !timecodes(line) {
        return None;
    }
    let n = line.unicode_len();
    let p = match find_arrow5(line) {
        Some(p) => p,
        None => {
            return None;
        },
    };
    proof {
        lemma_arrow5_pos(line@);
    }
    let start_str = line.substring_char(0, p);
    let end_str = line.substring_char(p + 5, n);
    proof {
        assert(start_str@ =~= line@.take(p as int));
        assert(end_str@ =~= line@.skip(p + 5));
    }
    let s_tc = match parse_timecode_str(start_str) {
        Some(t) => t,
        None => {
            return None;
        },
    };
    let e_tc = match parse_timecode_str(end_str) {
        Some(t) => t,
        None => {
            return None;
        },
    };
    Some((s_tc, e_tc))
}

/// A leading byte-order mark, removed before a line is classified as a
/// sequence number.
pub open spec fn strip_bom(s: Seq<char>) -> Seq<char> {
    if s.len() > 0 && s[0] == '\u{feff}' {
        s.skip(1)
    } else {
        s
    }
}

/// The zero timecode, the parser's reset value for pending fields.
pub open spec fn tc_zero() -> TimeCode {
    TimeCode { hours: 0, mins: 0, secs: 0, millis: 0, total_secs: 0 }
}

/// A line is accepted as a sequence number exactly when it is a non-empty
/// digit string whose value fits; any byte-order mark is removed before
/// this test is applied.
pub open spec fn number_line_ok(l: Seq<char>) -> bool {
    l.len() > 0 && all_digits(l) && dec_value(l) <= usize::MAX
}

/// The parser's transition system, run from line `i` in the given state:
/// `prev` and `next` are the tracker, `num`, `start`, `end` and `text` the
/// pending record, and `acc` the records finalized so far. Errors carry the
/// 1-based number of the offending line.
pub open spec fn spec_parse_from(
    lines: Seq<Seq<char>>,
    i: int,
    prev: Option<LineKind>,
    next: LineKind,
    num: usize,
    start: TimeCode,
    end: TimeCode,
    text: Seq<char>,
    acc: Seq<SubRec>,
) -> Result<Seq<SubRec>, SrtError>
    decreases lines.len() - i,
{
    if i < 0 || i >= lines.len() {
        Ok(acc)
    } else {
        let line = lines[i];
        match next {
            LineKind::Number => {
                if line.len() == 0 && prev == Some(LineKind::Empty) {
                    Ok(acc)
                } else {
                    let l = strip_bom(line);
                    if number_line_ok(l) {
                        spec_parse_from(lines, i + 1, Some(LineKind::Number),
                            LineKind::TimeCodes, dec_value(l) as usize, start, end, text, acc)
                    } else {
                        Err(SrtError::MalformedNumberLine { line: (i + 1) as usize })
                    }
                }
            },
            LineKind::TimeCodes => {
                match spec_parse_timerange(line) {
                    Some(tcs) => spec_parse_from(lines, i + 1, Some(LineKind::TimeCodes),
                        LineKind::Text, num, tcs.0, tcs.1, text, acc),
                    None => Err(SrtError::MalformedTimeRangeLine { line: (i + 1) as usize }),
                }
            },
            LineKind::Text => {
                if line.len() > 0 {
                    spec_parse_from(lines, i + 1, Some(LineKind::Text), LineKind::Text, num,
                        start, end, text + seq!['\n'] + line, acc)
                } else if prev == Some(LineKind::TimeCodes) {
                    Err(SrtError::MissingCaptionText { line: (i + 1) as usize })
                } else if prev == Some(LineKind::Text) {
                    spec_parse_from(lines, i + 1, Some(LineKind::Empty), LineKind::Number, 0,
                        tc_zero(), tc_zero(), Seq::<char>::empty(),
                        acc.push(SubRec { number: num, start, end, text }))
                } else {
                    spec_parse_from(lines, i + 1, prev, next, num, start, end, text, acc)
                }
            },
            LineKind::Empty => {
                spec_parse_from(lines, i + 1, prev, next, num, start, end, text, acc)
            },
        }
    }
}

/// Two blank lines in a row stop the parse at once: a blank line seen while
/// a number is expected and the previous line was itself blank yields the
/// records finalized so far, whatever still follows.
pub proof fn lemma_two_blanks_stop(
    lines: Seq<Seq<char>>,
    i: int,
    num: usize,
    start: TimeCode,
    end: TimeCode,
    text: Seq<char>,
    acc: Seq<SubRec>,
)
    requires
        0 <= i < lines.len(),
        lines[i].len() == 0,
    ensures
        spec_parse_from(lines, i, Some(LineKind::Empty), LineKind::Number, num, start, end,
            text, acc) == Ok::<Seq<SubRec>, SrtError>(acc),
{
}

/// The whole parse, from the initial state: expecting a number, nothing
/// consumed, nothing pending.
pub open spec fn spec_parse(lines: Seq<Seq<char>>) -> Result<Seq<SubRec>, SrtError> {
    spec_parse_from(lines, 0, None, LineKind::Number, 0, tc_zero(), tc_zero(),
        Seq::<char>::empty(), Seq::<SubRec>::empty())
}

/// A parse result's mathematical value: the record views on success, the
/// error unchanged on failure.
pub open spec fn parse_result_view(r: Result<Vec<Subtitle>, SrtError>) -> Result<
    Seq<SubRec>,
    SrtError,
> {
    match r {
        Ok(v) => Ok(v.deep_view()),
        Err(e) => Err(e),
    }
}

/// Parses the lines of an SRT document into its caption records, driven by
/// the state machine: a number line, a time-range line, one or more text
/// lines, and a blank separator per record, stopping at two consecutive
/// blank lines, and failing with the first format violation.
pub fn subs_from_lines(lines: Vec<&str>) -> (r: Result<Vec<Subtitle>, SrtError>)
    ensures
        parse_result_view(r) == spec_parse(lines.deep_view()),
{
    let ghost all = lines.deep_view();
    let mut subs: Vec<Subtitle> = Vec::new();
    let mut number: usize = 0;
    let mut start = TimeCode::new();
    let mut end = TimeCode::new();
    let mut text = String::new();
    let mut tracker = LineTracker { prev: None, next: LineKind::Number };
    let n = lines.len();
    let mut i: usize = 0;
    proof {
        assert(all.len() == n);
        assert(subs.deep_view() =~= Seq::<SubRec>::empty());
    }
    while i < n
        invariant
            0 <= i <= n,
            n == lines@.len(),
            all == lines.deep_view(),
            all.len() == n,
            spec_parse(all) == spec_parse_from(all, i as int, tracker.prev, tracker.next,
                number, start, end, text@, subs.deep_view()),
        decreases n - i,
    {
        let line: &str = lines[i];
        proof {
            assert(all[i as int] == line@);
        }
        match tracker.next {
            LineKind::Number => {
                if line.is_empty() {
                    if let Some(LineKind::Empty) = tracker.prev {
                        return Ok(subs);
                    }
                }
                let line2: &str = if line.unicode_len() > 0 && line.get_char(0) == '\u{feff}' {
                    line.substring_char(1, line.unicode_len())
                } else {
                    line
                };
                proof {
                    assert(line2@ =~= strip_bom(all[i as int]));
                }
                if num(line2) {
                    match parse_dec_u64(line2) {
                        Some(v) => {
                            if v <= usize::MAX as u64 {
                                number = v as usize;
                                tracker.prev = Some(LineKind::Number);
                                tracker.next = LineKind::TimeCodes;
                            } else {
                                return Err(SrtError::MalformedNumberLine { line: i + 1 });
                            }
                        },
                        None => {
                            return Err(SrtError::MalformedNumberLine { line: i + 1 });
                        },
                    }
                } else {
                    proof {
                        if number_line_ok(strip_bom(all[i as int])) {
                            crate::validate::lemma_digits_number_line(strip_bom(all[i as int]));
                        }
                    }
                    return Err(SrtError::MalformedNumberLine { line: i + 1 });
                }
            },
            LineKind::TimeCodes => {
                match parse_timerange_line(line) {
                    Some(tcs) => {
                        start = tcs.0;
                        end = tcs.1;
                        tracker.prev = Some(LineKind::TimeCodes);
                        tracker.next = LineKind::Text;
                    },
                    None => {
                        return Err(SrtError::MalformedTimeRangeLine { line: i + 1 });
                    },
                }
            },
            LineKind::Text => {
                if line.is_empty() {
                    match tracker.prev {
                        Some(LineKind::TimeCodes) => {
                            return Err(SrtError::MissingCaptionText { line: i + 1 });
                        },
                        Some(LineKind::Text) => {
                            let ghost subs0 = subs.deep_view();
                            let sub = Subtitle { number, start, end, text };
                            let ghost rec = sub@;
                            subs.push(sub);
                            number = 0;
                            start = TimeCode::new();
                            end = TimeCode::new();
                            text = String::new();
                            tracker.prev = Some(LineKind::Empty);
                            tracker.next = LineKind::Number;
                            proof {
                                assert(subs.deep_view() =~= subs0.push(rec));
                            }
                        },
                        _ => {},
                    }
                } else {
                    let ghost text0 = text@;
                    push_char(&mut text, '\n');
                    text.append(line);
                    tracker.prev = Some(LineKind::Text);
                    tracker.next = LineKind::Text;
                    proof {
                        assert(text@ =~= text0 + seq!['\n'] + all[i as int]);
                    }
                }
            },
            LineKind::Empty => {},
        }
        i += 1;
    }
    Ok(subs)
}

/// The whole document: each record's block followed by the blank separator
/// line, concatenated in sequence order. The final separator doubles as the
/// document's single trailing newline.
pub open spec fn spec_render_subs(subs: Seq<SubRec>) -> Seq<char>
    decreases subs.len(),
{
    if subs.len() == 0 {
        Seq::<char>::empty()
    } else {
        spec_block(subs[0]) + seq!['\n'] + spec_render_subs(subs.skip(1))
    }
}

/// Renders the caption records back to one SRT document.
pub fn text_contents_subs(subs: Vec<Subtitle>) -> (r: String)
    ensures
        r@ == spec_render_subs(subs.deep_view()),
{
    let ghost all = subs.deep_view();
    let mut r = String::new();
    let n = subs.len();
    let mut i: usize = 0;
    proof {
        assert(all.skip(0) =~= all);
        assert(Seq::<char>::empty() + spec_render_subs(all) =~= spec_render_subs(all));
    }
    while i < n
        invariant
            0 <= i <= n,
            n == subs.len(),
            all == subs.deep_view(),
            spec_render_subs(all) == r@ + spec_render_subs(all.skip(i as int)),
        decreases n - i,
    {
        let ghost r0 = r@;
        let block = subs[i].to_string();
        r.append(block.as_str());
        push_char(&mut r, '\n');
        proof {
            assert(all.skip(i as int)[0] == all[i as int]);
            assert(all.skip(i as int).skip(1) =~= all.skip(i + 1));
            assert(r@ =~= r0 + spec_block(all[i as int]) + seq!['\n']);
            assert(r0 + (spec_block(all[i as int]) + seq!['\n']
                + spec_render_subs(all.skip(i + 1)))
                =~= (r0 + spec_block(all[i as int]) + seq!['\n'])
                    + spec_render_subs(all.skip(i + 1)));
        }
        i += 1;
    }
    proof {
        assert(all.skip(n as int) =~= Seq::<SubRec>::empty());
        assert(r@ + Seq::<char>::empty() =~= r@);
    }
    r
}

} // verus!
