//! Character-level building blocks shared by the classifier, the parser and
//! the serializer: decimal digit strings, line splitting on `'\n'`, and
//! leading-whitespace trimming, each with a mathematical model.

use vstd::prelude::*;

verus! {

/// A decimal digit character, `'0'` through `'9'`.
pub open spec fn is_digit_char(c: char) -> bool {
    48 <= c as int && c as int <= 57
}

/// The numeric value of a decimal digit character.
pub open spec fn digit_val(c: char) -> nat {
    (c as int - 48) as nat
}

/// The character for a decimal digit value below ten.
pub open spec fn digit_char(d: nat) -> char {
    (d + 48) as char
}

/// Every character of `s` is a decimal digit.
pub open spec fn all_digits(s: Seq<char>) -> bool {
    forall|i: int| 0 <= i < s.len() ==> is_digit_char(s[i])
}

/// The number denoted by a string of decimal digits, most significant first.
pub open spec fn dec_value(s: Seq<char>) -> nat
    decreases s.len(),
{
    if s.len() == 0 {
        0
    } else {
        dec_value(s.drop_last()) * 10 + digit_val(s.last())
    }
}

/// The shortest decimal digit string denoting `n`, most significant first.
pub open spec fn dec_digits(n: nat) -> Seq<char>
    decreases n,
{
    if n < 10 {
        seq![digit_char(n)]
    } else {
        dec_digits(n / 10).push(digit_char(n % 10))
    }
}

/// A digit string's value only grows as more digits are appended: the value
/// of a prefix never exceeds the value of the whole string.
pub proof fn lemma_dec_value_take_le(s: Seq<char>, i: int)
    requires
        0 <= i <= s.len(),
    ensures
        dec_value(s.take(i)) <= dec_value(s),
    decreases s.len() - i,
{
    if i < s.len() {
        lemma_dec_value_take_le(s, i + 1);
        let t = s.take(i + 1);
        assert(t.drop_last() =~= s.take(i));
        assert(dec_value(s.take(i)) <= dec_value(s.take(i + 1)));
    } else {
        assert(s.take(i) =~= s);
    }
}

/// Rendering a number yields a non-empty string of digits whose value is the
/// number itself.
pub proof fn lemma_dec_digits_value(n: nat)
    ensures
        dec_digits(n).len() >= 1,
        all_digits(dec_digits(n)),
        dec_value(dec_digits(n)) == n,
    decreases n,
{
    if n < 10 {
        let s = dec_digits(n);
        assert(s.drop_last() =~= Seq::<char>::empty());
        assert(dec_value(Seq::<char>::empty()) == 0);
        assert(dec_value(s) == dec_value(s.drop_last()) * 10 + digit_val(s.last()));
        assert(digit_val(digit_char(n)) == n);
    } else {
        lemma_dec_digits_value(n / 10);
        vstd::arithmetic::div_mod::lemma_fundamental_div_mod(n as int, 10);
        let s = dec_digits(n);
        assert(s.drop_last() =~= dec_digits(n / 10));
        assert(s.last() == digit_char(n % 10));
        assert(digit_val(digit_char(n % 10)) == n % 10);
        assert(forall|i: int|
            0 <= i < s.len() ==> is_digit_char(#[trigger] s[i])) by {
            assert(forall|i: int|
                0 <= i < s.len() - 1 ==> s[i] == dec_digits(n / 10)[i]);
        }
    }
}

/// A leading zero does not change the value of a digit string.
pub proof fn lemma_dec_value_leading_zero(s: Seq<char>)
    ensures
        dec_value(seq!['0'] + s) == dec_value(s),
    decreases s.len(),
{
    if s.len() == 0 {
        assert((seq!['0'] + s) =~= seq!['0']);
        assert((seq!['0']).drop_last() =~= Seq::<char>::empty());
        assert(dec_value(Seq::<char>::empty()) == 0);
        assert(dec_value(seq!['0'])
            == dec_value((seq!['0']).drop_last()) * 10 + digit_val((seq!['0']).last()));
        assert(digit_val('0') == 0);
    } else {
        lemma_dec_value_leading_zero(s.drop_last());
        let t = seq!['0'] + s;
        assert(t.drop_last() =~= seq!['0'] + s.drop_last());
        assert(t.last() == s.last());
    }
}

/// `n` rendered in decimal, left-padded with zeros to at least two digits.
pub open spec fn pad2_digits(n: nat) -> Seq<char> {
    if n < 10 {
        seq!['0'] + dec_digits(n)
    } else {
        dec_digits(n)
    }
}

/// `n` rendered in decimal, left-padded with zeros to at least three digits.
pub open spec fn pad3_digits(n: nat) -> Seq<char> {
    if n < 10 {
        seq!['0', '0'] + dec_digits(n)
    } else if n < 100 {
        seq!['0'] + dec_digits(n)
    } else {
        dec_digits(n)
    }
}

/// Zero padding keeps a digit string a digit string and keeps its value.
pub proof fn lemma_pad_digits_value(n: nat)
    ensures
        pad2_digits(n).len() >= 2,
        all_digits(pad2_digits(n)),
        dec_value(pad2_digits(n)) == n,
        pad3_digits(n).len() >= 3,
        all_digits(pad3_digits(n)),
        dec_value(pad3_digits(n)) == n,
{
    lemma_dec_digits_value(n);
    lemma_dec_value_leading_zero(dec_digits(n));
    lemma_dec_value_leading_zero(seq!['0'] + dec_digits(n));
    assert(seq!['0', '0'] + dec_digits(n) =~= seq!['0'] + (seq!['0'] + dec_digits(n)));
    if n >= 10 {
        lemma_dec_digits_value(n / 10);
        assert(dec_digits(n) == dec_digits(n / 10).push(digit_char(n % 10)));
        if n >= 100 {
            lemma_dec_digits_value(n / 10 / 10);
            assert(dec_digits(n / 10)
                == dec_digits(n / 10 / 10).push(digit_char((n / 10) % 10)));
        }
    }
}

/// Relies on `String::push`: appends the character to the end of the string.
#[verifier::external_body]
pub fn push_char(s: &mut String, c: char)
    ensures
        final(s)@ == old(s)@.push(c),
{
    s.push(c);
}

/// Renders `n` in decimal, most significant digit first.
pub fn u64_to_dec(n: u64) -> (s: String)
    ensures
        s@ == dec_digits(n as nat),
    decreases n,
{
    if n < 10 {
        let mut s = String::new();
        let d: u8 = 48 + n as u8;
        push_char(&mut s, d as char);
        proof {
            assert(s@ =~= seq![digit_char(n as nat)]);
        }
        s
    } else {
        let mut s = u64_to_dec(n / 10);
        let d: u8 = 48 + (n % 10) as u8;
        push_char(&mut s, d as char);
        proof {
            assert(s@ =~= dec_digits((n / 10) as nat).push(digit_char((n % 10) as nat)));
        }
        s
    }
}

/// Renders `n` in decimal with at least two digits.
pub fn u64_to_dec2(n: u64) -> (s: String)
    ensures
        s@ == pad2_digits(n as nat),
{
    if n < 10 {
        let mut s = String::new();
        push_char(&mut s, '0');
        let rest = u64_to_dec(n);
        s.append(rest.as_str());
        proof {
            assert(s@ =~= seq!['0'] + dec_digits(n as nat));
        }
        s
    } else {
        u64_to_dec(n)
    }
}

/// Renders `n` in decimal with at least three digits.
pub fn u32_to_dec3(n: u32) -> (s: String)
    ensures
        s@ == pad3_digits(n as nat),
{
    if n < 100 {
        let mut s = String::new();
        push_char(&mut s, '0');
        let rest = u64_to_dec2(n as u64);
        s.append(rest.as_str());
        proof {
            assert(s@ =~= seq!['0'] + pad2_digits(n as nat));
            if n < 10 {
                assert(seq!['0'] + (seq!['0'] + dec_digits(n as nat))
                    =~= seq!['0', '0'] + dec_digits(n as nat));
            }
        }
        s
    } else {
        u64_to_dec(n as u64)
    }
}

/// Reads a decimal number from `s`. Returns the value exactly when `s` is a
/// non-empty string of digits whose value fits in a `u64`; leading zeros are
/// accepted.
pub fn parse_dec_u64(s: &str) -> (r: Option<u64>)
    ensures
        r is Some <==> s@.len() > 0 && all_digits(s@) && dec_value(s@) <= u64::MAX,
        r is Some ==> r->0 == dec_value(s@),
{
    let n = s.unicode_len();
    if n == 0 {
        return None;
    }
    let mut acc: u64 = 0;
    let mut i: usize = 0;
    while i < n
        invariant
            0 < n == s@.len(),
            0 <= i <= n,
            all_digits(s@.take(i as int)),
            acc == dec_value(s@.take(i as int)),
        decreases n - i,
    {
        let c = s.get_char(i);
        let u = c as u32;
        if u < 48 || u > 57 {
            assert(!is_digit_char(s@[i as int]));
            return None;
        }
        let d = (u - 48) as u64;
        proof {
            assert(s@.take(i + 1).drop_last() =~= s@.take(i as int));
            assert(s@.take(i + 1).last() == s@[i as int]);
            assert(digit_val(s@[i as int]) == d);
        }
        if acc > (u64::MAX - d) / 10 {
            proof {
                assert(dec_value(s@.take(i + 1)) == acc * 10 + d);
                assert(acc * 10 + d > u64::MAX) by {
                    assert(acc >= (u64::MAX - d) / 10 + 1);
                    assert(((u64::MAX - d) / 10 + 1) * 10
                        == ((u64::MAX - d) / 10) * 10 + 10);
                    vstd::arithmetic::div_mod::lemma_fundamental_div_mod(
                        (u64::MAX - d) as int, 10);
                    vstd::arithmetic::mul::lemma_mul_inequality(
                        ((u64::MAX - d) / 10 + 1) as int, acc as int, 10);
                };
                lemma_dec_value_take_le(s@, i + 1);
            }
            return None;
        }
        acc = acc * 10 + d;
        i += 1;
    }
    proof {
        assert(s@.take(n as int) =~= s@);
    }
    Some(acc)
}

/// The position of the first occurrence of `c` in `s`, or `-1` if `c` does
/// not occur.
pub open spec fn char_pos(s: Seq<char>, c: char) -> int
    decreases s.len(),
{
    if s.len() == 0 {
        -1
    } else if s[0] == c {
        0
    } else {
        let p = char_pos(s.skip(1), c);
        if p < 0 {
            -1
        } else {
            p + 1
        }
    }
}

/// What `char_pos` finds: either no occurrence at all, or the first one.
pub proof fn lemma_char_pos(s: Seq<char>, c: char)
    ensures
        char_pos(s, c) == -1 ==> forall|j: int| 0 <= j < s.len() ==> s[j] != c,
        char_pos(s, c) >= 0 ==> {
            &&& char_pos(s, c) < s.len()
            &&& s[char_pos(s, c)] == c
            &&& forall|j: int| 0 <= j < char_pos(s, c) ==> s[j] != c
        },
    decreases s.len(),
{
    if s.len() > 0 && s[0] != c {
        lemma_char_pos(s.skip(1), c);
        assert(forall|j: int| 1 <= j < s.len() ==> s[j] == s.skip(1)[j - 1]);
    }
}

/// When `c` does not occur in `a` but starts `b`, the first occurrence in
/// `a + b` is right after `a`.
pub proof fn lemma_char_pos_concat(a: Seq<char>, b: Seq<char>, c: char)
    requires
        forall|i: int| 0 <= i < a.len() ==> a[i] != c,
        b.len() > 0,
        b[0] == c,
    ensures
        char_pos(a + b, c) == a.len(),
{
    let s = a + b;
    lemma_char_pos(s, c);
    assert(s[a.len() as int] == c);
    let p = char_pos(s, c);
    if p == -1 {
        assert(false);
    } else if p < a.len() {
        assert(s[p] == a[p]);
        assert(false);
    } else if p > a.len() {
        assert(s[a.len() as int] != c);
        assert(false);
    }
}

/// When `c` occurs nowhere in `s`, `char_pos` reports no occurrence.
pub proof fn lemma_char_pos_absent(s: Seq<char>, c: char)
    requires
        forall|i: int| 0 <= i < s.len() ==> s[i] != c,
    ensures
        char_pos(s, c) == -1,
{
    lemma_char_pos(s, c);
    if char_pos(s, c) >= 0 {
        assert(s[char_pos(s, c)] == c);
    }
}

/// Finds the first occurrence of `c` in `s`, if any.
pub fn find_char_pos(s: &str, c: char) -> (r: Option<usize>)
    ensures
        r is Some <==> char_pos(s@, c) >= 0,
        r is Some ==> r->0 == char_pos(s@, c),
{
    proof {
        lemma_char_pos(s@, c);
    }
    let n = s.unicode_len();
    let mut i: usize = 0;
    while i < n
        invariant
            0 <= i <= n,
            n == s@.len(),
            forall|j: int| 0 <= j < i ==> s@[j] != c,
        decreases n - i,
    {
        if s.get_char(i) == c {
            proof {
                lemma_char_pos(s@, c);
                assert(char_pos(s@, c) == i);
            }
            return Some(i);
        }
        i += 1;
    }
    proof {
        if char_pos(s@, c) >= 0 {
            assert(s@[char_pos(s@, c)] == c);
        }
    }
    None
}

/// A whitespace character as far as trimming is concerned: space, tab,
/// carriage return or line feed.
pub open spec fn is_space_char(c: char) -> bool {
    c == ' ' || c == '\t' || c == '\r' || c == '\n'
}

/// `s` without its leading whitespace characters.
pub open spec fn spec_trim_start(s: Seq<char>) -> Seq<char>
    decreases s.len(),
{
    if s.len() > 0 && is_space_char(s[0]) {
        spec_trim_start(s.skip(1))
    } else {
        s
    }
}

/// `s` split on `'\n'`. Splitting never yields an empty result: a string
/// without a separator is one line, and every separator ends a line, so a
/// trailing separator yields a final empty line.
pub open spec fn spec_split_lines(s: Seq<char>) -> Seq<Seq<char>>
    decreases s.len(),
{
    if s.len() == 0 {
        seq![Seq::<char>::empty()]
    } else if s[0] == '\n' {
        seq![Seq::<char>::empty()] + spec_split_lines(s.skip(1))
    } else {
        let rest = spec_split_lines(s.skip(1));
        seq![seq![s[0]] + rest[0]] + rest.skip(1)
    }
}

/// Splitting always produces at least one line.
pub proof fn lemma_split_lines_len(s: Seq<char>)
    ensures
        spec_split_lines(s).len() >= 1,
    decreases s.len(),
{
    if s.len() > 0 {
        lemma_split_lines_len(s.skip(1));
    }
}

/// A string without separators is a single line.
pub proof fn lemma_split_lines_whole(s: Seq<char>)
    requires
        forall|i: int| 0 <= i < s.len() ==> s[i] != '\n',
    ensures
        spec_split_lines(s) == seq![s],
    decreases s.len(),
{
    if s.len() == 0 {
        assert(s =~= Seq::<char>::empty());
        assert(spec_split_lines(s) =~= seq![s]);
    } else {
        lemma_split_lines_whole(s.skip(1));
        let rest = spec_split_lines(s.skip(1));
        assert(rest[0] == s.skip(1));
        assert(seq![s[0]] + rest[0] =~= s);
        assert(rest.skip(1) =~= Seq::<Seq<char>>::empty());
        assert(spec_split_lines(s) == seq![seq![s[0]] + rest[0]] + rest.skip(1));
        assert(seq![seq![s[0]] + rest[0]] + rest.skip(1) =~= seq![s]);
    }
}

/// Splitting distributes over a separator: the lines of `x` + `'\n'` + `y`
/// are the lines of `x` followed by the lines of `y`.
pub proof fn lemma_split_lines_append(x: Seq<char>, y: Seq<char>)
    ensures
        spec_split_lines(x + seq!['\n'] + y) == spec_split_lines(x) + spec_split_lines(y),
    decreases x.len(),
{
    let s = x + seq!['\n'] + y;
    if x.len() == 0 {
        assert(s.skip(1) =~= y);
        assert(s[0] == '\n');
        assert(spec_split_lines(x) =~= seq![Seq::<char>::empty()]);
        assert(spec_split_lines(s) =~= spec_split_lines(x) + spec_split_lines(y));
    } else {
        lemma_split_lines_append(x.skip(1), y);
        assert(s.skip(1) =~= x.skip(1) + seq!['\n'] + y);
        lemma_split_lines_len(x.skip(1));
        let a = spec_split_lines(x.skip(1));
        let r = a + spec_split_lines(y);
        if x[0] == '\n' {
            assert(spec_split_lines(s) =~= seq![Seq::<char>::empty()] + r);
            assert(spec_split_lines(x) =~= seq![Seq::<char>::empty()] + a);
            assert(spec_split_lines(x) + spec_split_lines(y)
                =~= seq![Seq::<char>::empty()] + r);
        } else {
            assert(r[0] == a[0]);
            assert(spec_split_lines(s) =~= seq![seq![x[0]] + r[0]] + r.skip(1));
            assert(spec_split_lines(x) =~= seq![seq![x[0]] + a[0]] + a.skip(1));
            assert(r.skip(1) =~= a.skip(1) + spec_split_lines(y));
            assert(spec_split_lines(x) + spec_split_lines(y)
                =~= seq![seq![x[0]] + a[0]] + a.skip(1) + spec_split_lines(y));
            assert(spec_split_lines(s) =~= spec_split_lines(x) + spec_split_lines(y));
        }
    }
}

/// Joins lines back into one string, writing a `'\n'` before every line.
pub open spec fn rejoin_lines(lines: Seq<Seq<char>>) -> Seq<char>
    decreases lines.len(),
{
    if lines.len() == 0 {
        Seq::<char>::empty()
    } else {
        seq!['\n'] + lines[0] + rejoin_lines(lines.skip(1))
    }
}

/// Splitting and rejoining are inverse: rejoining the lines of `x` yields
/// `x` itself behind one leading separator.
pub proof fn lemma_rejoin_split(x: Seq<char>)
    ensures
        rejoin_lines(spec_split_lines(x)) == seq!['\n'] + x,
    decreases x.len(),
{
    if x.len() == 0 {
        let l = spec_split_lines(x);
        assert(l == seq![Seq::<char>::empty()]);
        assert(l.skip(1) =~= Seq::<Seq<char>>::empty());
        assert(rejoin_lines(l.skip(1)) == Seq::<char>::empty());
        assert(rejoin_lines(l) == seq!['\n'] + l[0] + rejoin_lines(l.skip(1)));
        assert(seq!['\n'] + Seq::<char>::empty() + Seq::<char>::empty() =~= seq!['\n'] + x);
    } else {
        lemma_rejoin_split(x.skip(1));
        let a = spec_split_lines(x.skip(1));
        lemma_split_lines_len(x.skip(1));
        if x[0] == '\n' {
            let l = spec_split_lines(x);
            assert(l == seq![Seq::<char>::empty()] + a);
            assert(l.skip(1) =~= a);
            assert(l[0] == Seq::<char>::empty());
            assert(rejoin_lines(l) == seq!['\n'] + l[0] + rejoin_lines(a));
            assert(seq!['\n'] + Seq::<char>::empty() + (seq!['\n'] + x.skip(1))
                =~= seq!['\n'] + x);
        } else {
            let l = spec_split_lines(x);
            assert(l == seq![seq![x[0]] + a[0]] + a.skip(1));
            assert(l.skip(1) =~= a.skip(1));
            assert(l[0] == seq![x[0]] + a[0]);
            let r = rejoin_lines(a.skip(1));
            assert(rejoin_lines(l) == seq!['\n'] + l[0] + r);
            // the induction hypothesis, unfolded one line
            assert(rejoin_lines(a) == seq!['\n'] + a[0] + r);
            assert(seq!['\n'] + a[0] + r == seq!['\n'] + x.skip(1));
            assert(a[0] + r =~= (seq!['\n'] + a[0] + r).skip(1));
            assert((seq!['\n'] + x.skip(1)).skip(1) =~= x.skip(1));
            assert(a[0] + r == x.skip(1));
            assert(seq!['\n'] + l[0] + r =~= seq!['\n'] + (seq![x[0]] + (a[0] + r)));
            assert(seq![x[0]] + x.skip(1) =~= x);
            assert(seq!['\n'] + (seq![x[0]] + x.skip(1)) =~= seq!['\n'] + x);
        }
    }
}

/// Splits `s` into its lines on the `'\n'` separator.
pub fn split_lines(s: &str) -> (lines: Vec<String>)
    ensures
        lines.deep_view() == spec_split_lines(s@),
{
    let n = s.unicode_len();
    let mut out: Vec<String> = Vec::new();
    let mut cur = String::new();
    let mut i: usize = 0;
    proof {
        assert(s@.skip(0) =~= s@);
        lemma_split_lines_len(s@);
        assert(out.deep_view() =~= Seq::<Seq<char>>::empty());
        assert(cur@ + spec_split_lines(s@)[0] =~= spec_split_lines(s@)[0]);
        assert(out.deep_view() + prepend_to_first(cur@, spec_split_lines(s@))
            =~= spec_split_lines(s@));
    }
    while i < n
        invariant
            0 <= i <= n,
            n == s@.len(),
            spec_split_lines(s@) == out.deep_view()
                + prepend_to_first(cur@, spec_split_lines(s@.skip(i as int))),
        decreases n - i,
    {
        let c = s.get_char(i);
        proof {
            assert(s@.skip(i as int)[0] == s@[i as int]);
            assert(s@.skip(i as int).skip(1) =~= s@.skip(i + 1));
            lemma_split_lines_len(s@.skip(i + 1));
        }
        let ghost rest = spec_split_lines(s@.skip(i + 1));
        if c == '\n' {
            let ghost o0 = out.deep_view();
            let ghost c0 = cur@;
            proof {
                assert(spec_split_lines(s@.skip(i as int))
                    =~= seq![Seq::<char>::empty()] + rest);
                assert(prepend_to_first(c0, seq![Seq::<char>::empty()] + rest)
                    =~= seq![c0] + rest);
                assert(prepend_to_first(Seq::<char>::empty(), rest) =~= rest);
            }
            out.push(cur);
            cur = String::new();
            proof {
                assert(out.deep_view() =~= o0 + seq![c0]);
                assert((o0 + seq![c0]) + rest =~= o0 + (seq![c0] + rest));
            }
        } else {
            proof {
                let sp = spec_split_lines(s@.skip(i as int));
                assert(sp == seq![seq![s@[i as int]] + rest[0]] + rest.skip(1));
                assert(sp[0] == seq![s@[i as int]] + rest[0]);
                assert(sp.skip(1) =~= rest.skip(1));
                assert(cur@ + sp[0] =~= cur@.push(s@[i as int]) + rest[0]);
                assert(prepend_to_first(cur@, sp)
                    =~= prepend_to_first(cur@.push(s@[i as int]), rest));
            }
            push_char(&mut cur, c);
        }
        i += 1;
    }
    proof {
        assert(s@.skip(n as int) =~= Seq::<char>::empty());
        assert(spec_split_lines(Seq::<char>::empty()) =~= seq![Seq::<char>::empty()]);
        assert(prepend_to_first(cur@, seq![Seq::<char>::empty()]) =~= seq![cur@]);
    }
    out.push(cur);
    out
}

/// The lines of `lines`, with `extra` written in front of the first line.
pub open spec fn prepend_to_first(extra: Seq<char>, lines: Seq<Seq<char>>) -> Seq<Seq<char>> {
    seq![extra + lines[0]] + lines.skip(1)
}

/// Removes leading whitespace (spaces, tabs, carriage returns, line feeds).
pub fn trim_start(s: &str) -> (r: &str)
    ensures
        r@ == spec_trim_start(s@),
{
    let n = s.unicode_len();
    let mut i: usize = 0;
    proof {
        assert(s@.skip(0) =~= s@);
    }
    while i < n
        invariant
            0 <= i <= n,
            n == s@.len(),
            spec_trim_start(s@) == spec_trim_start(s@.skip(i as int)),
        decreases n - i,
    {
        let c = s.get_char(i);
        if !(c == ' ' || c == '\t' || c == '\r' || c == '\n') {
            proof {
                assert(s@.skip(i as int)[0] == s@[i as int]);
                assert(spec_trim_start(s@.skip(i as int)) == s@.skip(i as int));
            }
            return s.substring_char(i, n);
        }
        proof {
            assert(s@.skip(i as int)[0] == s@[i as int]);
            assert(s@.skip(i as int).skip(1) =~= s@.skip(i + 1));
        }
        i += 1;
    }
    proof {
        assert(s@.skip(n as int) =~= Seq::<char>::empty());
    }
    s.substring_char(n, n)
}

} // verus!
