//! The line classifier: purely syntactic tests that decide whether a raw
//! line is a sequence number or a time-range header. Blank versus caption
//! text is the parser's decision, since it depends on parser state.

use vstd::prelude::*;
use crate::text::{all_digits, is_digit_char};

verus! {

/// `c` occurs somewhere in `s`.
pub open spec fn contains_char(s: Seq<char>, c: char) -> bool {
    exists|i: int| 0 <= i < s.len() && s[i] == c
}

/// The three-character arrow `-->` starts at position `i` of `s`.
pub open spec fn arrow_at(s: Seq<char>, i: int) -> bool {
    &&& 0 <= i
    &&& i + 3 <= s.len()
    &&& s[i] == '-'
    &&& s[i + 1] == '-'
    &&& s[i + 2] == '>'
}

/// The arrow `-->` occurs somewhere in `s`.
pub open spec fn contains_arrow(s: Seq<char>) -> bool {
    exists|i: int| #[trigger] arrow_at(s, i)
}

/// A sequence-number line: non-empty, starts with a digit, and contains
/// none of `:`, `-->`, `,`.
pub open spec fn is_number_line(s: Seq<char>) -> bool {
    &&& s.len() > 0
    &&& is_digit_char(s[0])
    &&& !contains_char(s, ':')
    &&& !contains_arrow(s)
    &&& !contains_char(s, ',')
}

/// A time-range line: non-empty, starts with a digit, and contains all of
/// `:`, `-->`, `,`.
pub open spec fn is_timerange_line(s: Seq<char>) -> bool {
    &&& s.len() > 0
    &&& is_digit_char(s[0])
    &&& contains_char(s, ':')
    &&& contains_arrow(s)
    &&& contains_char(s, ',')
}

/// A non-empty string of digits always classifies as a sequence-number
/// line: digits are not `:`, `,` or any character of the arrow.
pub proof fn lemma_digits_number_line(l: Seq<char>)
    requires
        l.len() > 0,
        all_digits(l),
    ensures
        is_number_line(l),
{
    assert(forall|i: int| 0 <= i < l.len() ==> l[i] != ':');
    assert(forall|i: int| 0 <= i < l.len() ==> l[i] != ',');
    assert forall|j: int| !(#[trigger] arrow_at(l, j)) by {
        if arrow_at(l, j) {
            assert(is_digit_char(l[j]));
            assert(l[j] == '-');
        }
    };
}

/// Whether `c` occurs in `s`.
fn find_char(s: &str, c: char) -> (r: bool)
    ensures
        r == contains_char(s@, c),
{
    let n = s.unicode_len();
    let mut i: usize = 0;
    while i < n
        invariant
            0 <= i <= n,
            n == s@.len(),
            forall|j: int| 0 <= j < i ==> s@[j] != c,
        decreases n - i,
    {
        if s.get_char(i) == c {
            return true;
        }
        i += 1;
    }
    false
}

/// Whether the arrow `-->` occurs in `s`.
fn find_arrow(s: &str) -> (r: bool)
    ensures
        r == contains_arrow(s@),
{
    let n = s.unicode_len();
    if n < 3 {
        return false;
    }
    let mut i: usize = 0;
    while i <= n - 3
        invariant
            3 <= n == s@.len(),
            0 <= i <= n - 2,
            forall|j: int| 0 <= j < i ==> !arrow_at(s@, j),
        decreases n - i,
    {
        if s.get_char(i) == '-' && s.get_char(i + 1) == '-' && s.get_char(i + 2) == '>' {
            assert(arrow_at(s@, i as int));
            return true;
        }
        assert(!arrow_at(s@, i as int));
        i += 1;
    }
    assert(forall|j: int| #[trigger] arrow_at(s@, j) ==> 0 <= j < i);
    false
}

/// Classifies `line` as a sequence-number line: non-empty, first character
/// a digit, and free of `:`, `-->` and `,`.
pub fn num(line: &str) -> (r: bool)
    ensures
        r == is_number_line(line@),
{
    if line.unicode_len() == 0 {
        return false;
    }
    let c = line.get_char(0);
    let u = c as u32;
    if u < 48 || u > 57 {
        return false;
    }
    !find_char(line, ':') && !find_arrow(line) && !find_char(line, ',')
}

/// Classifies `line` as a time-range line: non-empty, first character a
/// digit, and containing `:`, `-->` and `,`.
pub fn timecodes(line: &str) -> (r: bool)
    ensures
        r == is_timerange_line(line@),
{
    if line.unicode_len() == 0 {
        return false;
    }
    let c = line.get_char(0);
    let u = c as u32;
    if u < 48 || u > 57 {
        return false;
    }
    find_char(line, ':') && find_arrow(line) && find_char(line, ',')
}

} // verus!
