//! The laws relating the parser and the serializer: every record of a
//! successful parse is well shaped, and rendering a sequence of such
//! records and parsing the rendered document again yields the same
//! sequence.

use vstd::prelude::*;
use crate::model::{LineKind, SrtError, SubRec, TimeCode, arrow_sep, spec_block};
use crate::text::{
    char_pos, dec_digits, dec_value, is_digit_char, is_space_char, lemma_dec_digits_value,
    lemma_pad_digits_value, lemma_rejoin_split, lemma_split_lines_append, lemma_split_lines_len,
    lemma_split_lines_whole, pad2_digits, pad3_digits, rejoin_lines, spec_split_lines,
    spec_trim_start,
};
use crate::get::{
    arrow5_at, arrow5_pos, lemma_arrow5_pos, number_line_ok, spec_parse, spec_parse_from,
    spec_parse_timecode, spec_parse_timerange, spec_render_subs, spec_split_timecode, strip_bom,
    tc_zero,
};
use crate::validate::{arrow_at, contains_char, is_timerange_line};

verus! {

/// The shape of a text payload as the parser accumulates it: a `'\n'`
/// before each of one or more non-empty text lines, so the payload starts
/// with a separator, never doubles one, and never ends on one.
pub open spec fn accumulated_text(t: Seq<char>) -> bool {
    &&& t.len() >= 2
    &&& t[0] == '\n'
    &&& forall|i: int| 0 <= i < t.len() && #[trigger] t[i] == '\n'
        ==> i + 1 < t.len() && t[i + 1] != '\n'
}

/// An accumulated payload whose first text line does not begin with
/// whitespace, so that trimming the rendered text loses nothing.
pub open spec fn parsed_text(t: Seq<char>) -> bool {
    &&& accumulated_text(t)
    &&& !is_space_char(t[1])
}

/// The shape every record of a successful parse has: well-formed timecodes
/// and a payload in accumulated shape.
pub open spec fn shaped_record(r: SubRec) -> bool {
    &&& r.start.wf()
    &&& r.end.wf()
    &&& accumulated_text(r.text)
}

/// A shaped record whose first text line does not begin with whitespace:
/// the records for which the serialize/parse round trip is exact.
pub open spec fn parsed_record(r: SubRec) -> bool {
    &&& r.start.wf()
    &&& r.end.wf()
    &&& parsed_text(r.text)
}

/// No line of the pre-split input contains a line separator.
pub open spec fn separator_free(lines: Seq<Seq<char>>) -> bool {
    forall|k: int, i: int| 0 <= k < lines.len() && 0 <= i < lines[k].len()
        ==> #[trigger] lines[k][i] != '\n'
}

/// Every character of a rendered timecode is a digit, a colon or a comma.
pub open spec fn tc_char(c: char) -> bool {
    is_digit_char(c) || c == ':' || c == ','
}

pub proof fn lemma_tc_render_chars(t: TimeCode)
    ensures
        forall|i: int| 0 <= i < t.spec_render().len() ==> tc_char(#[trigger] t.spec_render()[i]),
{
    lemma_pad_digits_value(t.hours as nat);
    lemma_pad_digits_value(t.mins as nat);
    lemma_pad_digits_value(t.secs as nat);
    lemma_pad_digits_value(t.millis as nat);
    let s = t.spec_render();
    assert forall|i: int| 0 <= i < s.len() implies tc_char(#[trigger] s[i]) by {
        let p1 = pad2_digits(t.hours as nat);
        let p2 = pad2_digits(t.mins as nat);
        let p3 = pad2_digits(t.secs as nat);
        let p4 = pad3_digits(t.millis as nat);
        assert(s =~= p1 + seq![':'] + p2 + seq![':'] + p3 + seq![','] + p4);
        if i < p1.len() {
            assert(s[i] == p1[i]);
        } else if i == p1.len() {
            assert(s[i] == ':');
        } else if i < p1.len() + 1 + p2.len() {
            assert(s[i] == p2[i - p1.len() - 1]);
        } else if i == p1.len() + 1 + p2.len() {
            assert(s[i] == ':');
        } else if i < p1.len() + 1 + p2.len() + 1 + p3.len() {
            assert(s[i] == p3[i - p1.len() - 1 - p2.len() - 1]);
        } else if i == p1.len() + 1 + p2.len() + 1 + p3.len() {
            assert(s[i] == ',');
        } else {
            assert(s[i] == p4[i - p1.len() - 1 - p2.len() - 1 - p3.len() - 1]);
        }
    };
}

/// Trimming a payload in accumulated shape removes exactly the leading
/// separator.
pub proof fn lemma_trim_parsed_text(t: Seq<char>)
    requires
        parsed_text(t),
    ensures
        spec_trim_start(t) == t.skip(1),
{
    assert(t[0] == '\n');
    assert(t.skip(1)[0] == t[1]);
    assert(spec_trim_start(t.skip(1)) == t.skip(1));
}

/// In a string with no doubled separator and no separator at the end,
/// every line after the first is non-empty.
proof fn lemma_split_tail_nonempty(x: Seq<char>)
    requires
        forall|i: int| 0 <= i < x.len() && #[trigger] x[i] == '\n'
            ==> i + 1 < x.len() && x[i + 1] != '\n',
    ensures
        forall|j: int| 1 <= j < spec_split_lines(x).len()
            ==> #[trigger] spec_split_lines(x)[j].len() > 0,
    decreases x.len(),
{
    if x.len() == 0 {
    } else {
        let x1 = x.skip(1);
        assert(forall|i: int| 0 <= i < x1.len() ==> x1[i] == x[i + 1]);
        lemma_split_tail_nonempty(x1);
        let a = spec_split_lines(x1);
        lemma_split_lines_len(x1);
        if x[0] == '\n' {
            assert(x1.len() > 0 && x1[0] != '\n');
            assert(a[0].len() > 0);
            assert(spec_split_lines(x) == seq![Seq::<char>::empty()] + a);
            assert(forall|j: int| 1 <= j < spec_split_lines(x).len()
                ==> spec_split_lines(x)[j] == a[j - 1]);
        } else {
            assert(spec_split_lines(x) == seq![seq![x[0]] + a[0]] + a.skip(1));
            assert(forall|j: int| 1 <= j < spec_split_lines(x).len()
                ==> spec_split_lines(x)[j] == a[j]);
        }
    }
}

/// Every line of a payload's rendered text (the payload behind its leading
/// separator) is non-empty.
pub proof fn lemma_parsed_text_lines_nonempty(t: Seq<char>)
    requires
        parsed_text(t),
    ensures
        forall|j: int| 0 <= j < spec_split_lines(t.skip(1)).len()
            ==> #[trigger] spec_split_lines(t.skip(1))[j].len() > 0,
{
    let x = t.skip(1);
    assert(forall|i: int| 0 <= i < x.len() ==> x[i] == t[i + 1]);
    assert forall|i: int| 0 <= i < x.len() && #[trigger] x[i] == '\n'
        implies i + 1 < x.len() && x[i + 1] != '\n' by {
        assert(t[i + 1] == '\n');
    };
    lemma_split_tail_nonempty(x);
    assert(x.len() > 0 && x[0] != '\n');
    let a = spec_split_lines(x.skip(1));
    lemma_split_lines_len(x.skip(1));
    assert(spec_split_lines(x)[0] == seq![x[0]] + a[0]);
}

/// Parsing a rendered well-formed timecode gives back the timecode.
#[verifier::rlimit(100)]
pub proof fn lemma_parse_render_timecode(t: TimeCode)
    requires
        t.wf(),
    ensures
        spec_parse_timecode(t.spec_render()) == Some(t),
{
    let p1s = pad2_digits(t.hours as nat);
    let p2s = pad2_digits(t.mins as nat);
    let p3s = pad2_digits(t.secs as nat);
    let p4s = pad3_digits(t.millis as nat);
    lemma_pad_digits_value(t.hours as nat);
    lemma_pad_digits_value(t.mins as nat);
    lemma_pad_digits_value(t.secs as nat);
    lemma_pad_digits_value(t.millis as nat);
    let s = t.spec_render();
    let tail1 = p2s + seq![':'] + p3s + seq![','] + p4s;
    let tail2 = p3s + seq![','] + p4s;
    assert(s =~= p1s + (seq![':'] + tail1));
    crate::text::lemma_char_pos_concat(p1s, seq![':'] + tail1, ':');
    assert(char_pos(s, ':') == p1s.len());
    let rest1 = s.skip(p1s.len() as int + 1);
    assert(rest1 =~= tail1);
    assert(tail1 =~= p2s + (seq![':'] + tail2));
    crate::text::lemma_char_pos_concat(p2s, seq![':'] + tail2, ':');
    assert(char_pos(rest1, ':') == p2s.len());
    let rest2 = rest1.skip(p2s.len() as int + 1);
    assert(rest2 =~= tail2);
    assert forall|i: int| 0 <= i < tail2.len() implies tail2[i] != ':' by {
        if i < p3s.len() {
            assert(tail2[i] == p3s[i]);
        } else if i == p3s.len() {
            assert(tail2[i] == ',');
        } else {
            assert(tail2[i] == p4s[i - p3s.len() - 1]);
        }
    };
    crate::text::lemma_char_pos_absent(tail2, ':');
    assert(tail2 =~= p3s + (seq![','] + p4s));
    crate::text::lemma_char_pos_concat(p3s, seq![','] + p4s, ',');
    assert(char_pos(rest2, ',') == p3s.len());
    let msp = rest2.skip(p3s.len() as int + 1);
    assert(msp =~= p4s);
    crate::text::lemma_char_pos_absent(p4s, ',');
    assert(s.take(p1s.len() as int) =~= p1s);
    assert(rest1.take(p2s.len() as int) =~= p2s);
    assert(rest2.take(p3s.len() as int) =~= p3s);
    assert(spec_split_timecode(s) == Some((p1s, p2s, p3s, p4s)));
    assert(dec_value(p1s) * 3600 + dec_value(p2s) * 60 + dec_value(p3s) == t.total_secs);
    assert(spec_parse_timecode(s) == Some(TimeCode {
        hours: t.hours,
        mins: t.mins,
        secs: t.secs,
        millis: t.millis,
        total_secs: t.total_secs,
    }));
}

/// Parsing a rendered time-range line gives back its two timecodes.
#[verifier::rlimit(100)]
pub proof fn lemma_parse_render_timerange(s_tc: TimeCode, e_tc: TimeCode)
    requires
        s_tc.wf(),
        e_tc.wf(),
    ensures
        spec_parse_timerange(s_tc.spec_render() + arrow_sep() + e_tc.spec_render())
            == Some((s_tc, e_tc)),
{
    let s = s_tc.spec_render();
    let e = e_tc.spec_render();
    let line = s + arrow_sep() + e;
    lemma_tc_render_chars(s_tc);
    lemma_tc_render_chars(e_tc);
    lemma_pad_digits_value(s_tc.hours as nat);
    // classification: starts with a digit, has a colon, an arrow, a comma
    assert(line[0] == s[0]);
    assert(s[0] == pad2_digits(s_tc.hours as nat)[0]);
    assert(is_digit_char(line[0]));
    let pcolon = pad2_digits(s_tc.hours as nat).len() as int;
    assert(s[pcolon] == ':') by {
        assert(s =~= pad2_digits(s_tc.hours as nat) + seq![':']
            + pad2_digits(s_tc.mins as nat) + seq![':'] + pad2_digits(s_tc.secs as nat)
            + seq![','] + pad3_digits(s_tc.millis as nat));
    };
    assert(line[pcolon] == ':');
    assert(contains_char(line, ':'));
    let pcomma = s.len() - pad3_digits(s_tc.millis as nat).len() - 1;
    assert(s[pcomma] == ',') by {
        assert(s =~= (pad2_digits(s_tc.hours as nat) + seq![':']
            + pad2_digits(s_tc.mins as nat) + seq![':'] + pad2_digits(s_tc.secs as nat))
            + (seq![','] + pad3_digits(s_tc.millis as nat)));
    };
    assert(line[pcomma] == ',');
    assert(contains_char(line, ','));
    assert(line[s.len() as int] == ' ');
    assert(line[s.len() as int + 1] == '-');
    assert(line[s.len() as int + 2] == '-');
    assert(line[s.len() as int + 3] == '>');
    assert(line[s.len() as int + 4] == ' ');
    assert(arrow_at(line, s.len() as int + 1));
    assert(is_timerange_line(line));
    // the first five-character separator sits right after the start timecode
    lemma_arrow5_pos(line);
    let p = arrow5_pos(line);
    assert(arrow5_at(line, s.len() as int));
    if p == -1 {
        assert(false);
    } else if p < s.len() {
        assert(line[p] == s[p]);
        assert(tc_char(s[p]));
        assert(false);
    } else if p > s.len() {
        assert(!arrow5_at(line, s.len() as int));
        assert(false);
    }
    assert(line.take(p) =~= s);
    assert(line.skip(p + 5) =~= e);
    lemma_parse_render_timecode(s_tc);
    lemma_parse_render_timecode(e_tc);
}

/// The lines of one rendered record: number line, time-range line, the
/// text lines, and the blank separator.
pub open spec fn record_lines(r: SubRec) -> Seq<Seq<char>> {
    seq![dec_digits(r.number as nat)]
        + seq![r.start.spec_render() + arrow_sep() + r.end.spec_render()]
        + spec_split_lines(r.text.skip(1))
        + seq![Seq::<char>::empty()]
}

/// The lines of all rendered records, in order.
pub open spec fn records_lines(subs: Seq<SubRec>) -> Seq<Seq<char>>
    decreases subs.len(),
{
    if subs.len() == 0 {
        Seq::<Seq<char>>::empty()
    } else {
        record_lines(subs[0]) + records_lines(subs.skip(1))
    }
}

/// Splitting a rendered document yields each record's lines in order, and
/// one final empty line from the trailing newline.
#[verifier::rlimit(100)]
pub proof fn lemma_split_render(subs: Seq<SubRec>)
    requires
        forall|i: int| 0 <= i < subs.len() ==> parsed_record(#[trigger] subs[i]),
    ensures
        spec_split_lines(spec_render_subs(subs))
            == records_lines(subs) + seq![Seq::<char>::empty()],
    decreases subs.len(),
{
    if subs.len() == 0 {
        assert(spec_render_subs(subs) == Seq::<char>::empty());
        assert(records_lines(subs) + seq![Seq::<char>::empty()]
            =~= seq![Seq::<char>::empty()]);
    } else {
        let r = subs[0];
        assert(parsed_record(r));
        assert(forall|i: int| 0 <= i < subs.skip(1).len()
            ==> parsed_record(#[trigger] subs.skip(1)[i]));
        lemma_split_render(subs.skip(1));
        let digits = dec_digits(r.number as nat);
        let s = r.start.spec_render();
        let e = r.end.spec_render();
        let trline = s + arrow_sep() + e;
        lemma_trim_parsed_text(r.text);
        let body = r.text.skip(1);
        let rest_render = spec_render_subs(subs.skip(1));
        let d3 = Seq::<char>::empty() + seq!['\n'] + rest_render;
        let d2 = body + seq!['\n'] + d3;
        let d1 = trline + seq!['\n'] + d2;
        assert(spec_render_subs(subs)
            == spec_block(r) + seq!['\n'] + rest_render);
        assert(spec_render_subs(subs) =~= digits + seq!['\n'] + d1);
        lemma_split_lines_append(digits, d1);
        lemma_split_lines_append(trline, d2);
        lemma_split_lines_append(body, d3);
        lemma_split_lines_append(Seq::<char>::empty(), rest_render);
        lemma_dec_digits_value(r.number as nat);
        assert(forall|i: int| 0 <= i < digits.len() ==> digits[i] != '\n');
        lemma_split_lines_whole(digits);
        lemma_tc_render_chars(r.start);
        lemma_tc_render_chars(r.end);
        assert forall|i: int| 0 <= i < trline.len() implies trline[i] != '\n' by {
            if i < s.len() {
                assert(trline[i] == s[i]);
                assert(tc_char(s[i]));
            } else if i < s.len() + 5 {
                assert(trline[i] == arrow_sep()[i - s.len()]);
            } else {
                assert(trline[i] == e[i - s.len() - 5]);
                assert(tc_char(e[i - s.len() - 5]));
            }
        };
        lemma_split_lines_whole(trline);
        assert(spec_split_lines(Seq::<char>::empty() + seq!['\n'] + rest_render)
            == spec_split_lines(Seq::<char>::empty()) + spec_split_lines(rest_render));
        assert(spec_split_lines(Seq::<char>::empty()) == seq![Seq::<char>::empty()]);
        assert(spec_split_lines(spec_render_subs(subs))
            == seq![digits] + (seq![trline] + (spec_split_lines(body)
                + (seq![Seq::<char>::empty()]
                    + (records_lines(subs.skip(1)) + seq![Seq::<char>::empty()])))));
        assert(records_lines(subs) == record_lines(r) + records_lines(subs.skip(1)));
        assert(seq![digits] + (seq![trline] + (spec_split_lines(body)
            + (seq![Seq::<char>::empty()]
                + (records_lines(subs.skip(1)) + seq![Seq::<char>::empty()]))))
            =~= records_lines(subs) + seq![Seq::<char>::empty()]);
    }
}

/// Consuming a run of non-empty lines in the text state appends each of
/// them, behind a separator, to the pending payload.
proof fn lemma_parse_text_lines(
    lines: Seq<Seq<char>>,
    i: int,
    ls: Seq<Seq<char>>,
    prev: Option<LineKind>,
    num: usize,
    start: TimeCode,
    end: TimeCode,
    text0: Seq<char>,
    acc: Seq<SubRec>,
)
    requires
        0 <= i,
        i + ls.len() <= lines.len(),
        lines.subrange(i, i + ls.len()) == ls,
        forall|j: int| 0 <= j < ls.len() ==> #[trigger] ls[j].len() > 0,
    ensures
        spec_parse_from(lines, i, prev, LineKind::Text, num, start, end, text0, acc)
            == spec_parse_from(lines, i + ls.len(),
                if ls.len() == 0 { prev } else { Some(LineKind::Text) }, LineKind::Text,
                num, start, end, text0 + rejoin_lines(ls), acc),
    decreases ls.len(),
{
    if ls.len() == 0 {
        assert(text0 + rejoin_lines(ls) =~= text0);
    } else {
        assert(lines[i] == ls[0]);
        assert(ls[0].len() > 0);
        assert(spec_parse_from(lines, i, prev, LineKind::Text, num, start, end, text0, acc)
            == spec_parse_from(lines, i + 1, Some(LineKind::Text), LineKind::Text, num,
                start, end, text0 + seq!['\n'] + ls[0], acc));
        assert(lines.subrange(i + 1, i + 1 + ls.skip(1).len()) =~= ls.skip(1));
        lemma_parse_text_lines(lines, i + 1, ls.skip(1), Some(LineKind::Text), num, start,
            end, text0 + seq!['\n'] + ls[0], acc);
        assert(rejoin_lines(ls) == seq!['\n'] + ls[0] + rejoin_lines(ls.skip(1)));
        assert((text0 + seq!['\n'] + ls[0]) + rejoin_lines(ls.skip(1))
            =~= text0 + rejoin_lines(ls));
    }
}

/// Parsing from a record boundary consumes each rendered record in turn
/// and finalizes it unchanged, and the final empty line stops the parse.
#[verifier::rlimit(100)]
proof fn lemma_parse_records_lines(
    lines: Seq<Seq<char>>,
    i: int,
    rest: Seq<SubRec>,
    prev: Option<LineKind>,
    num: usize,
    start: TimeCode,
    end: TimeCode,
    acc: Seq<SubRec>,
)
    requires
        0 <= i <= lines.len(),
        lines.subrange(i, lines.len() as int)
            == records_lines(rest) + seq![Seq::<char>::empty()],
        forall|j: int| 0 <= j < rest.len() ==> parsed_record(#[trigger] rest[j]),
        rest.len() == 0 ==> prev == Some(LineKind::Empty),
    ensures
        spec_parse_from(lines, i, prev, LineKind::Number, num, start, end,
            Seq::<char>::empty(), acc) == Ok::<Seq<SubRec>, SrtError>(acc + rest),
    decreases rest.len(),
{
    let suffix = lines.subrange(i, lines.len() as int);
    if rest.len() == 0 {
        assert(records_lines(rest) == Seq::<Seq<char>>::empty());
        assert(suffix.len() == 1);
        assert(lines.len() - i == 1);
        assert(lines[i] == suffix[0]);
        assert(suffix[0] == Seq::<char>::empty());
        assert(acc + rest =~= acc);
    } else {
        let r = rest[0];
        assert(parsed_record(r));
        let digits = dec_digits(r.number as nat);
        let trline = r.start.spec_render() + arrow_sep() + r.end.spec_render();
        let tl = spec_split_lines(r.text.skip(1));
        let rl = record_lines(r);
        let r2 = records_lines(rest.skip(1));
        assert(records_lines(rest) == rl + r2);
        assert(rl.len() == 3 + tl.len());
        lemma_split_lines_len(r.text.skip(1));
        assert(suffix.len() == lines.len() - i);
        assert(suffix.len() == rl.len() + r2.len() + 1);
        assert(forall|k: int| 0 <= k < suffix.len() ==> #[trigger] suffix[k] == lines[i + k]);
        // the number line
        assert(lines[i] == suffix[0]);
        assert(suffix[0] == rl[0]);
        assert(rl[0] == digits);
        lemma_dec_digits_value(r.number as nat);
        assert(is_digit_char(digits[0]));
        assert(digits[0] != '\u{feff}');
        assert(strip_bom(digits) == digits);
        assert(number_line_ok(digits));
        assert(spec_parse_from(lines, i, prev, LineKind::Number, num, start, end,
            Seq::<char>::empty(), acc)
            == spec_parse_from(lines, i + 1, Some(LineKind::Number), LineKind::TimeCodes,
                r.number, start, end, Seq::<char>::empty(), acc));
        // the time-range line
        assert(lines[i + 1] == suffix[1]);
        assert(suffix[1] == rl[1]);
        assert(rl[1] == trline);
        lemma_parse_render_timerange(r.start, r.end);
        assert(spec_parse_from(lines, i + 1, Some(LineKind::Number), LineKind::TimeCodes,
            r.number, start, end, Seq::<char>::empty(), acc)
            == spec_parse_from(lines, i + 2, Some(LineKind::TimeCodes), LineKind::Text,
                r.number, r.start, r.end, Seq::<char>::empty(), acc));
        // the text lines
        assert forall|k: int| 0 <= k < tl.len()
            implies #[trigger] lines.subrange(i + 2, i + 2 + tl.len())[k] == tl[k] by {
            assert(lines.subrange(i + 2, i + 2 + tl.len())[k] == lines[i + 2 + k]);
            assert(lines[i + 2 + k] == suffix[2 + k]);
            assert(suffix[2 + k] == rl[2 + k]);
            assert(rl[2 + k] == tl[k]);
        };
        assert(lines.subrange(i + 2, i + 2 + tl.len()) =~= tl);
        lemma_parsed_text_lines_nonempty(r.text);
        lemma_parse_text_lines(lines, i + 2, tl, Some(LineKind::TimeCodes), r.number,
            r.start, r.end, Seq::<char>::empty(), acc);
        lemma_rejoin_split(r.text.skip(1));
        assert(seq!['\n'] + r.text.skip(1) =~= r.text);
        assert(Seq::<char>::empty() + rejoin_lines(tl) =~= r.text);
        let i2 = i + 2 + tl.len();
        // the blank separator finalizes the pending record
        assert(lines[i2] == suffix[2 + tl.len() as int]);
        assert(suffix[2 + tl.len() as int] == rl[2 + tl.len() as int]);
        assert(rl[2 + tl.len() as int] == Seq::<char>::empty());
        assert(tl.len() >= 1);
        assert(spec_parse_from(lines, i2, Some(LineKind::Text), LineKind::Text, r.number,
            r.start, r.end, r.text, acc)
            == spec_parse_from(lines, i2 + 1, Some(LineKind::Empty), LineKind::Number, 0,
                tc_zero(), tc_zero(), Seq::<char>::empty(),
                acc.push(SubRec { number: r.number, start: r.start, end: r.end, text: r.text })));
        assert(SubRec { number: r.number, start: r.start, end: r.end, text: r.text } == r);
        // the rest of the records, by induction
        assert forall|k: int| 0 <= k < lines.len() - i2 - 1
            implies #[trigger] lines.subrange(i2 + 1, lines.len() as int)[k]
                == (r2 + seq![Seq::<char>::empty()])[k] by {
            assert(lines.subrange(i2 + 1, lines.len() as int)[k] == lines[i2 + 1 + k]);
            assert(lines[i2 + 1 + k] == suffix[rl.len() + k]);
            assert(suffix[rl.len() + k] == (rl + (r2 + seq![Seq::<char>::empty()]))[rl.len() + k]);
            assert(suffix =~= rl + (r2 + seq![Seq::<char>::empty()]));
        };
        assert(lines.subrange(i2 + 1, lines.len() as int) =~= r2 + seq![Seq::<char>::empty()]);
        assert(forall|j: int| 0 <= j < rest.skip(1).len()
            ==> parsed_record(#[trigger] rest.skip(1)[j]));
        lemma_parse_records_lines(lines, i2 + 1, rest.skip(1), Some(LineKind::Empty), 0,
            tc_zero(), tc_zero(), acc.push(r));
        assert(acc.push(r) + rest.skip(1) =~= acc + rest);
    }
}

/// A timecode the parser accepts is well formed.
proof fn lemma_parse_timecode_wf(s: Seq<char>)
    ensures
        spec_parse_timecode(s) matches Some(tc) ==> tc.wf(),
{
}

/// The inductive shape argument: from any state whose pending payload and
/// finished records are in shape, the parse only produces shaped records.
proof fn lemma_parse_from_shaped(
    lines: Seq<Seq<char>>,
    i: int,
    prev: Option<LineKind>,
    next: LineKind,
    num: usize,
    start: TimeCode,
    end: TimeCode,
    text: Seq<char>,
    acc: Seq<SubRec>,
)
    requires
        separator_free(lines),
        forall|j: int| 0 <= j < acc.len() ==> shaped_record(#[trigger] acc[j]),
        next == LineKind::Number ==> text == Seq::<char>::empty(),
        next == LineKind::TimeCodes ==> text == Seq::<char>::empty(),
        next == LineKind::Text
            ==> prev == Some(LineKind::Text) || prev == Some(LineKind::TimeCodes),
        next == LineKind::Text ==> start.wf() && end.wf(),
        next == LineKind::Text && prev == Some(LineKind::Text) ==> accumulated_text(text),
        next == LineKind::Text && prev == Some(LineKind::TimeCodes)
            ==> text == Seq::<char>::empty(),
    ensures
        spec_parse_from(lines, i, prev, next, num, start, end, text, acc) matches Ok(res)
            ==> forall|j: int| 0 <= j < res.len() ==> shaped_record(#[trigger] res[j]),
    decreases lines.len() - i,
{
    if i < 0 || i >= lines.len() {
    } else {
        let line = lines[i];
        assert(forall|k: int| 0 <= k < line.len() ==> line[k] != '\n');
        match next {
            LineKind::Number => {
                if line.len() == 0 && prev == Some(LineKind::Empty) {
                } else if number_line_ok(strip_bom(line)) {
                    lemma_parse_from_shaped(lines, i + 1, Some(LineKind::Number),
                        LineKind::TimeCodes, dec_value(strip_bom(line)) as usize, start, end,
                        text, acc);
                }
            },
            LineKind::TimeCodes => {
                match spec_parse_timerange(line) {
                    Some(tcs) => {
                        if arrow5_pos(line) >= 0 {
                            lemma_parse_timecode_wf(line.take(arrow5_pos(line)));
                            lemma_parse_timecode_wf(line.skip(arrow5_pos(line) + 5));
                        }
                        lemma_parse_from_shaped(lines, i + 1, Some(LineKind::TimeCodes),
                            LineKind::Text, num, tcs.0, tcs.1, text, acc);
                    },
                    None => {},
                }
            },
            LineKind::Text => {
                if line.len() > 0 {
                    let t2 = text + seq!['\n'] + line;
                    assert forall|k: int| 0 <= k < t2.len() && #[trigger] t2[k] == '\n'
                        implies k + 1 < t2.len() && t2[k + 1] != '\n' by {
                        if k < text.len() {
                            assert(t2[k] == text[k]);
                            assert(prev == Some(LineKind::Text));
                            assert(k + 1 < text.len());
                            assert(t2[k + 1] == text[k + 1]);
                        } else if k == text.len() {
                            assert(t2[k + 1] == line[0]);
                        } else {
                            assert(t2[k] == line[k - text.len() - 1]);
                        }
                    };
                    assert(t2[0] == '\n') by {
                        if prev == Some(LineKind::Text) {
                            assert(t2[0] == text[0]);
                        }
                    };
                    lemma_parse_from_shaped(lines, i + 1, Some(LineKind::Text), LineKind::Text,
                        num, start, end, t2, acc);
                } else if prev == Some(LineKind::TimeCodes) {
                } else if prev == Some(LineKind::Text) {
                    let r = SubRec { number: num, start, end, text };
                    assert(shaped_record(r));
                    assert(forall|j: int| 0 <= j < acc.push(r).len()
                        ==> shaped_record(#[trigger] acc.push(r)[j]));
                    lemma_parse_from_shaped(lines, i + 1, Some(LineKind::Empty),
                        LineKind::Number, 0, tc_zero(), tc_zero(), Seq::<char>::empty(),
                        acc.push(r));
                } else {
                    // a blank line in the text state always follows a
                    // time-range or text line, and the first case errored
                    assert(false);
                }
            },
            LineKind::Empty => {
                lemma_parse_from_shaped(lines, i + 1, prev, next, num, start, end, text, acc);
            },
        }
    }
}

/// Every record of a successful parse of separator-free lines is shaped:
/// well-formed timecodes and a payload in accumulated shape. Whether a
/// first text line begins with whitespace is the input's choice, so that
/// part of `parsed_record` cannot be promised here.
pub proof fn lemma_parse_records_shaped(lines: Seq<Seq<char>>)
    requires
        separator_free(lines),
    ensures
        spec_parse(lines) matches Ok(res)
            ==> forall|j: int| 0 <= j < res.len() ==> shaped_record(#[trigger] res[j]),
{
    lemma_parse_from_shaped(lines, 0, None, LineKind::Number, 0, tc_zero(), tc_zero(),
        Seq::<char>::empty(), Seq::<SubRec>::empty());
}

/// The round trip: rendering a non-empty sequence of parsed records and
/// parsing the rendered document's lines yields the same sequence.
pub proof fn lemma_render_parse_round_trip(subs: Seq<SubRec>)
    requires
        subs.len() > 0,
        forall|i: int| 0 <= i < subs.len() ==> parsed_record(#[trigger] subs[i]),
    ensures
        spec_parse(spec_split_lines(spec_render_subs(subs)))
            == Ok::<Seq<SubRec>, SrtError>(subs),
{
    lemma_split_render(subs);
    let lines = spec_split_lines(spec_render_subs(subs));
    assert(lines.subrange(0, lines.len() as int) =~= lines);
    lemma_parse_records_lines(lines, 0, subs, None, 0, tc_zero(), tc_zero(),
        Seq::<SubRec>::empty());
    assert(Seq::<SubRec>::empty() + subs =~= subs);
}

} // verus!
