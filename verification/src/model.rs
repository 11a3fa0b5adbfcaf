//! The data model: timecodes with normalized display fields, caption
//! records, line classification tags, and the structured errors that parsing
//! and shifting surface.

use vstd::prelude::*;
use crate::text::{
    dec_digits, pad2_digits, pad3_digits, spec_trim_start, push_char, u64_to_dec, u64_to_dec2,
    u32_to_dec3, trim_start,
};

verus! {

/// A point in time on a subtitle track: hours, minutes, seconds and
/// milliseconds, together with the flattened whole-second duration that the
/// shift arithmetic works on.
#[derive(Debug, Clone, Copy, PartialEq, Eq, Structural)]
pub struct TimeCode {
    pub hours: u64,
    pub mins: u64,
    pub secs: u64,
    pub millis: u32,
    /// The duration since zero in whole seconds; milliseconds are carried
    /// separately in `millis`.
    pub total_secs: u64,
}

/// The error conditions of the core: the three fatal format violations that
/// abort a parse, each with the 1-based input line on which it was seen, and
/// the underflow of a backward shift, with the index of the record that
/// could not be shifted.
#[derive(Debug, Clone, Copy, PartialEq, Eq, Structural)]
pub enum SrtError {
    MalformedNumberLine { line: usize },
    MalformedTimeRangeLine { line: usize },
    MissingCaptionText { line: usize },
    TimeUnderflow { index: usize },
}

impl TimeCode {
    /// The display fields are the normalized decomposition of the flattened
    /// duration: minutes and seconds below sixty, milliseconds below a
    /// thousand, and the whole-second total matching the fields exactly.
    pub open spec fn wf(self) -> bool {
        &&& self.total_secs == self.hours * 3600 + self.mins * 60 + self.secs
        &&& self.mins < 60
        &&& self.secs < 60
        &&& self.millis < 1000
    }

    /// The timecode whose duration is `total` whole seconds plus the
    /// milliseconds of `self`, with the display fields re-derived.
    pub open spec fn spec_with_total(self, total: u64) -> TimeCode {
        TimeCode {
            hours: (total as int / 3600) as u64,
            mins: (total as int % 3600 / 60) as u64,
            secs: (total as int % 3600 % 60) as u64,
            millis: self.millis,
            total_secs: total,
        }
    }

    /// The value after adding `n` whole seconds.
    pub open spec fn spec_add_secs(self, n: u64) -> TimeCode {
        self.spec_with_total((self.total_secs + n) as u64)
    }

    /// The value after subtracting `n` whole seconds.
    pub open spec fn spec_sub_secs(self, n: u64) -> TimeCode {
        self.spec_with_total((self.total_secs - n) as u64)
    }

    /// The canonical rendering `HH:MM:SS,mmm`: two-digit minimum for hours,
    /// minutes and seconds, three digits for milliseconds.
    pub open spec fn spec_render(self) -> Seq<char> {
        pad2_digits(self.hours as nat) + seq![':'] + pad2_digits(self.mins as nat) + seq![':']
            + pad2_digits(self.secs as nat) + seq![','] + pad3_digits(self.millis as nat)
    }

    /// The zero timecode.
    pub fn new() -> (r: TimeCode)
        ensures
            r == (TimeCode { hours: 0, mins: 0, secs: 0, millis: 0, total_secs: 0 }),
            r.wf(),
    {
        TimeCode { hours: 0, mins: 0, secs: 0, millis: 0, total_secs: 0 }
    }

    /// Builds a timecode from raw components. Callers guarantee normalized
    /// components; no renormalization happens here.
    pub fn build(hours: u64, mins: u64, secs: u64, millis: u32) -> (r: TimeCode)
        requires
            mins < 60,
            secs < 60,
            millis < 1000,
            hours * 3600 + mins * 60 + secs <= u64::MAX,
        ensures
            r == (TimeCode {
                hours,
                mins,
                secs,
                millis,
                total_secs: (hours * 3600 + mins * 60 + secs) as u64,
            }),
            r.wf(),
    {
        let total_secs = crate::util::hours_to_secs(hours) + crate::util::mins_to_secs(mins)
            + secs;
        TimeCode { hours, mins, secs, millis, total_secs }
    }

    /// Re-derives the display fields from the flattened duration.
    fn renormalize(&mut self)
        ensures
            *final(self) == old(self).spec_with_total(old(self).total_secs),
            final(self).millis < 1000 ==> final(self).wf(),
    {
        let total = self.total_secs;
        let hh = total / 3600;
        let rem = total % 3600;
        let mm = rem / 60;
        let ss = rem % 60;
        proof {
            vstd::arithmetic::div_mod::lemma_fundamental_div_mod(total as int, 3600);
            vstd::arithmetic::div_mod::lemma_fundamental_div_mod(rem as int, 60);
        }
        self.hours = hh;
        self.mins = mm;
        self.secs = ss;
    }

    /// Adds `n` whole seconds to the duration and re-derives the display
    /// fields; milliseconds are unaffected.
    pub fn add_secs(&mut self, secs: u64)
        requires
            old(self).total_secs + secs <= u64::MAX,
        ensures
            *final(self) == old(self).spec_add_secs(secs),
            old(self).millis < 1000 ==> final(self).wf(),
    {
        self.total_secs = self.total_secs + secs;
        self.renormalize();
    }

    /// Subtracts `n` whole seconds if the duration stays non-negative and
    /// says whether it did; on underflow the value is left unchanged.
    pub fn sub_secs(&mut self, secs: u64) -> (ok: bool)
        ensures
            ok == (secs <= old(self).total_secs),
            ok ==> *final(self) == old(self).spec_sub_secs(secs),
            ok && old(self).millis < 1000 ==> final(self).wf(),
            !ok ==> *final(self) == *old(self),
    {
        if secs > self.total_secs {
            return false;
        }
        self.total_secs = self.total_secs - secs;
        self.renormalize();
        true
    }

    /// Renders the timecode as `HH:MM:SS,mmm`.
    pub fn to_string(&self) -> (r: String)
        ensures
            r@ == self.spec_render(),
    {
        let mut r = u64_to_dec2(self.hours);
        push_char(&mut r, ':');
        let mins = u64_to_dec2(self.mins);
        r.append(mins.as_str());
        push_char(&mut r, ':');
        let secs = u64_to_dec2(self.secs);
        r.append(secs.as_str());
        push_char(&mut r, ',');
        let millis = u32_to_dec3(self.millis);
        r.append(millis.as_str());
        proof {
            assert(r@ =~= self.spec_render());
        }
        r
    }
}

/// One subtitle entry: sequence number, start and end timecodes, and the
/// multi-line text payload. The payload is accumulated with a `'\n'` before
/// every text line, so it always begins with a separator that rendering
/// trims away.
#[derive(Debug, PartialEq)]
pub struct Subtitle {
    pub number: usize,
    pub start: TimeCode,
    pub end: TimeCode,
    pub text: String,
}

/// The mathematical value of a `Subtitle`: the same fields with the text as
/// a character sequence.
pub struct SubRec {
    pub number: usize,
    pub start: TimeCode,
    pub end: TimeCode,
    pub text: Seq<char>,
}

impl View for Subtitle {
    type V = SubRec;

    open spec fn view(&self) -> SubRec {
        SubRec { number: self.number, start: self.start, end: self.end, text: self.text@ }
    }
}

impl DeepView for Subtitle {
    type V = SubRec;

    open spec fn deep_view(&self) -> SubRec {
        self.view()
    }
}

/// The five-character arrow that separates the two timecodes of a
/// time-range line.
pub open spec fn arrow_sep() -> Seq<char> {
    seq![' ', '-', '-', '>', ' ']
}

/// One record rendered as its block: the number line, the time-range line,
/// the text with leading whitespace trimmed, and a final line break.
pub open spec fn spec_block(r: SubRec) -> Seq<char> {
    dec_digits(r.number as nat) + seq!['\n'] + r.start.spec_render() + arrow_sep()
        + r.end.spec_render() + seq!['\n'] + spec_trim_start(r.text) + seq!['\n']
}

impl Subtitle {
    /// Renders the record as its four-line block (the trailing blank line
    /// between records is the serializer's job).
    pub fn to_string(&self) -> (r: String)
        ensures
            r@ == spec_block(self@),
    {
        let mut r = u64_to_dec(self.number as u64);
        push_char(&mut r, '\n');
        let start = self.start.to_string();
        r.append(start.as_str());
        r.append(" --> ");
        let end = self.end.to_string();
        r.append(end.as_str());
        push_char(&mut r, '\n');
        let trimmed = trim_start(self.text.as_str());
        r.append(trimmed);
        push_char(&mut r, '\n');
        proof {
            reveal_strlit(" --> ");
            assert(" --> "@ =~= arrow_sep());
            assert(r@ =~= spec_block(self@));
        }
        r
    }
}

/// The classification of one consumed input line, as the parser's state
/// machine tracks it.
#[derive(Debug, Clone, Copy, PartialEq, Eq, Structural)]
pub enum LineKind {
    Number,
    TimeCodes,
    Text,
    Empty,
}

/// The parser's state: what kind of line was consumed last, and what kind
/// is expected next.
#[derive(Debug, Clone, Copy)]
pub struct LineTracker {
    pub prev: Option<LineKind>,
    pub next: LineKind,
}

/// Adding `n` seconds to a well-formed timecode and then subtracting the
/// same `n` returns the original value, fields and all.
pub proof fn lemma_add_sub_secs_round_trip(t: TimeCode, n: u64)
    requires
        t.wf(),
        t.total_secs + n <= u64::MAX,
    ensures
        t.spec_add_secs(n).spec_sub_secs(n) == t,
{
    let a = t.spec_add_secs(n);
    assert(a.total_secs == t.total_secs + n);
    assert(a.millis == t.millis);
    assert(a.spec_sub_secs(n) == a.spec_with_total(t.total_secs));
    lemma_wf_renormalizes(t);
}

/// A well-formed timecode is fixed by renormalization.
pub proof fn lemma_wf_renormalizes(a: TimeCode)
    requires
        a.wf(),
    ensures
        a == a.spec_with_total(a.total_secs),
{
    let t = a.total_secs as int;
    assert(t == a.hours * 3600 + (a.mins * 60 + a.secs));
    vstd::arithmetic::div_mod::lemma_fundamental_div_mod_converse(
        t, 3600, a.hours as int, (a.mins * 60 + a.secs) as int);
    assert(t / 3600 == a.hours && t % 3600 == a.mins * 60 + a.secs);
    vstd::arithmetic::div_mod::lemma_fundamental_div_mod_converse(
        (a.mins * 60 + a.secs) as int, 60, a.mins as int, a.secs as int);
}

} // verus!
