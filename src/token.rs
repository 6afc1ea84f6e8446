//! Parsers for the tokens of the exchange-file format (ISO 10303-21, table 2).
//!
//! Each parser reads a token at the start of its input and returns what is
//! left of the input together with the token's value.

use vstd::prelude::*;
use vstd::string::*;

verus! {

/// The input does not start with the token that was asked for.
#[derive(Debug, Clone, Copy, PartialEq, Eq, Structural)]
pub struct ParseError {}

/// What is left of the input, and the value read.
pub type ParseResult<'a, T> = Result<(&'a str, T), ParseError>;

/// Character classes of the token grammar.
#[derive(Debug, Clone, Copy, PartialEq, Eq, Structural)]
pub enum CharClass {
    Digit,
    Upper,
    Lower,
    UpperOrDigit,
    Alphanumeric,
    Base64,
    Space,
}

pub open spec fn in_class(c: char, k: CharClass) -> bool {
    let digit = '0' <= c && c <= '9';
    let upper = 'A' <= c && c <= 'Z';
    let lower = 'a' <= c && c <= 'z';
    match k {
        CharClass::Digit => digit,
        CharClass::Upper => upper,
        CharClass::Lower => lower,
        CharClass::UpperOrDigit => upper || digit,
        CharClass::Alphanumeric => upper || lower || digit,
        CharClass::Base64 => upper || lower || digit || c == '+' || c == '/' || c == '=',
        CharClass::Space => c == ' ' || c == '\t' || c == '\n' || c == '\r',
    }
}

/// The number of leading characters of `s` in class `k`.
pub open spec fn run_len(s: Seq<char>, k: CharClass) -> nat
    decreases s.len(),
{
    if s.len() > 0 && in_class(s[0], k) {
        1 + run_len(s.drop_first(), k)
    } else {
        0
    }
}

/// The number of leading characters of `s` other than `stop`.
pub open spec fn until_len(s: Seq<char>, stop: char) -> nat
    decreases s.len(),
{
    if s.len() > 0 && s[0] != stop {
        1 + until_len(s.drop_first(), stop)
    } else {
        0
    }
}

/// The length of the `standard_keyword` at the start of `s`, or 0 if there is none.
pub open spec fn keyword_len(s: Seq<char>) -> nat {
    if s.len() > 0 && in_class(s[0], CharClass::Upper) {
        1 + run_len(s.drop_first(), CharClass::UpperOrDigit)
    } else {
        0
    }
}

/// The length of the `tag_name` at the start of `s`, or 0 if there is none.
pub open spec fn tag_len(s: Seq<char>) -> nat {
    if s.len() > 0 && (in_class(s[0], CharClass::Upper) || in_class(s[0], CharClass::Lower)) {
        1 + run_len(s.drop_first(), CharClass::Alphanumeric)
    } else {
        0
    }
}

/// The value of a sequence of decimal digits.
pub open spec fn digits_value(s: Seq<char>) -> int
    decreases s.len(),
{
    if s.len() == 0 {
        0
    } else {
        digits_value(s.drop_last()) * 10 + (s.last() as int - '0' as int)
    }
}

/// `s` starts with `open`, then characters other than `close`, then `close`;
/// the text between the two has length `n`.
pub open spec fn delimited(s: Seq<char>, open: char, close: char, n: nat) -> bool {
    s.len() > 0 && s[0] == open && n == until_len(s.drop_first(), close) && 1 + n < s.len() && s[1 + n as int]
        == close
}

/// `s` starts with `lead` followed by a token of length `n > 0` (not counting `lead`).
pub open spec fn led(s: Seq<char>, lead: char, n: nat) -> bool {
    s.len() > 0 && s[0] == lead && n > 0
}

fn class_has(c: char, k: CharClass) -> (r: bool)
    ensures
        r == in_class(c, k),
{
    let digit = '0' <= c && c <= '9';
    let upper = 'A' <= c && c <= 'Z';
    let lower = 'a' <= c && c <= 'z';
    match k {
        CharClass::Digit => digit,
        CharClass::Upper => upper,
        CharClass::Lower => lower,
        CharClass::UpperOrDigit => upper || digit,
        CharClass::Alphanumeric => upper || lower || digit,
        CharClass::Base64 => upper || lower || digit || c == '+' || c == '/' || c == '=',
        CharClass::Space => c == ' ' || c == '\t' || c == '\n' || c == '\r',
    }
}

/// The end of the run of class `k` that starts at `from`.
fn scan(s: &str, n: usize, from: usize, k: CharClass) -> (end: usize)
    requires
        n == s@.len(),
        from <= n,
    ensures
        end == from + run_len(s@.subrange(from as int, n as int), k),
        end <= n,
{
    let mut i: usize = from;
    while i < n
        invariant
            n == s@.len(),
            from <= i <= n,
            run_len(s@.subrange(from as int, n as int), k) == (i - from) + run_len(s@.subrange(i as int, n as int), k),
        decreases n - i,
    {
        assert(s@.subrange(i as int, n as int).drop_first() =~= s@.subrange(i + 1, n as int));
        if !class_has(s.get_char(i), k) {
            return i;
        }
        i = i + 1;
    }
    i
}

/// The end of the run of characters other than `stop` that starts at `from`.
fn scan_until(s: &str, n: usize, from: usize, stop: char) -> (end: usize)
    requires
        n == s@.len(),
        from <= n,
    ensures
        end == from + until_len(s@.subrange(from as int, n as int), stop),
        end <= n,
{
    let mut i: usize = from;
    while i < n
        invariant
            n == s@.len(),
            from <= i <= n,
            until_len(s@.subrange(from as int, n as int), stop) == (i - from) + until_len(
                s@.subrange(i as int, n as int),
                stop,
            ),
        decreases n - i,
    {
        assert(s@.subrange(i as int, n as int).drop_first() =~= s@.subrange(i + 1, n as int));
        if s.get_char(i) == stop {
            return i;
        }
        i = i + 1;
    }
    i
}

fn starts_with(s: &str, n: usize, c: char) -> (r: bool)
    requires
        n == s@.len(),
    ensures
        r == (s@.len() > 0 && s@[0] == c),
{
    n > 0 && s.get_char(0) == c
}

/// The characters from `a` to `b` as a new string.
fn text(s: &str, a: usize, b: usize) -> (r: String)
    requires
        a <= b <= s@.len(),
    ensures
        r@ == s@.subrange(a as int, b as int),
{
    String::from_str(s.substring_char(a, b))
}

/// sign = `+` | `-` .
pub fn sign(input: &str) -> (r: ParseResult<char>)
    ensures
        match r {
            Ok((rest, c)) => input@.len() > 0 && (c == '+' || c == '-') && c == input@[0] && rest@ == input@.drop_first(),
            Err(_) => !(input@.len() > 0 && (input@[0] == '+' || input@[0] == '-')),
        },
{
    let n = input.unicode_len();
    if n > 0 {
        let c = input.get_char(0);
        if c == '+' || c == '-' {
            let rest = input.substring_char(1, n);
            assert(rest@ =~= input@.drop_first());
            return Ok((rest, c));
        }
    }
    Err(ParseError {})
}

/// The position after an optional sign at the start of `s`.
pub open spec fn after_sign(s: Seq<char>) -> int {
    if s.len() > 0 && (s[0] == '+' || s[0] == '-') {
        1
    } else {
        0
    }
}

/// Where the digits of an `integer` at the start of `s` begin: after the sign and any white space.
pub open spec fn integer_digits_start(s: Seq<char>) -> int {
    after_sign(s) + run_len(s.skip(after_sign(s)), CharClass::Space)
}

/// Where the digits of an `integer` at the start of `s` end.
pub open spec fn integer_digits_end(s: Seq<char>) -> int {
    integer_digits_start(s) + run_len(s.skip(integer_digits_start(s)), CharClass::Digit)
}

/// The magnitude written by the digits of an `integer` at the start of `s`.
pub open spec fn integer_magnitude(s: Seq<char>) -> int {
    digits_value(s.subrange(integer_digits_start(s), integer_digits_end(s)))
}

proof fn lemma_run_bounded(s: Seq<char>, k: CharClass)
    ensures
        run_len(s, k) <= s.len(),
        forall|i: int| 0 <= i < run_len(s, k) ==> in_class(#[trigger] s[i], k),
    decreases s.len(),
{
    if s.len() > 0 && in_class(s[0], k) {
        lemma_run_bounded(s.drop_first(), k);
        assert forall|i: int| 0 <= i < run_len(s, k) implies in_class(#[trigger] s[i], k) by {
            if i > 0 {
                assert(s[i] == s.drop_first()[i - 1]);
            }
        }
    }
}

proof fn lemma_digits_nonneg(t: Seq<char>)
    requires
        forall|i: int| 0 <= i < t.len() ==> in_class(#[trigger] t[i], CharClass::Digit),
    ensures
        digits_value(t) >= 0,
    decreases t.len(),
{
    if t.len() > 0 {
        lemma_digits_nonneg(t.drop_last());
    }
}

proof fn lemma_digits_grow(t: Seq<char>, i: int)
    requires
        0 <= i <= t.len(),
        forall|j: int| 0 <= j < t.len() ==> in_class(#[trigger] t[j], CharClass::Digit),
    ensures
        digits_value(t.take(i)) <= digits_value(t),
    decreases t.len(),
{
    if i < t.len() {
        let u = t.drop_last();
        assert(u.take(i) =~= t.take(i));
        lemma_digits_grow(u, i);
        lemma_digits_nonneg(u);
    } else {
        assert(t.take(i) =~= t);
    }
}

/// The largest magnitude an `integer` at the start of `s` may have: one more
/// for a negative number, as `i64` allows.
pub open spec fn integer_limit(s: Seq<char>) -> int {
    if s.len() > 0 && s[0] == '-' {
        i64::MAX + 1
    } else {
        i64::MAX as int
    }
}

/// integer = \[ sign \] digit { digit } .
///
/// White space may stand between the sign and the digits. A value outside
/// the range of `i64` is refused.
pub fn integer(input: &str) -> (r: ParseResult<i64>)
    ensures
        match r {
            Ok((rest, v)) => integer_digits_end(input@) > integer_digits_start(input@) && integer_magnitude(input@)
                <= integer_limit(input@) && v == (if input@.len() > 0 && input@[0] == '-' {
                    -integer_magnitude(input@)
                } else {
                    integer_magnitude(input@)
                }) && rest@ == input@.skip(integer_digits_end(input@)),
            Err(_) => integer_digits_end(input@) == integer_digits_start(input@) || integer_magnitude(input@)
                > integer_limit(input@),
        },
{
    let ghost s = input@;
    let n = input.unicode_len();
    let neg = starts_with(input, n, '-');
    let start: usize = if neg || starts_with(input, n, '+') { 1 } else { 0 };
    assert(start == after_sign(s));
    let a = scan(input, n, start, CharClass::Space);
    assert(s.subrange(start as int, n as int) =~= s.skip(start as int));
    let b = scan(input, n, a, CharClass::Digit);
    assert(s.subrange(a as int, n as int) =~= s.skip(a as int));
    if b == a {
        return Err(ParseError {});
    }
    proof {
        lemma_run_bounded(s.skip(a as int), CharClass::Digit);
    }
    let ghost digits = s.subrange(a as int, b as int);
    assert forall|j: int| 0 <= j < digits.len() implies in_class(#[trigger] digits[j], CharClass::Digit) by {
        assert(digits[j] == s.skip(a as int)[j]);
    }
    let last: u64 = if neg { 8 } else { 7 };
    assert(integer_limit(s) == 922337203685477580 * 10 + last);
    let mut v: u64 = 0;
    let mut i: usize = a;
    while i < b
        invariant
            n == s.len(),
            input@ == s,
            a <= i <= b <= n,
            a == integer_digits_start(s),
            b == integer_digits_end(s),
            start == after_sign(s),
            neg == (s.len() > 0 && s[0] == '-'),
            integer_limit(s) == 922337203685477580 * 10 + last,
            digits == s.subrange(a as int, b as int),
            forall|j: int| 0 <= j < digits.len() ==> in_class(#[trigger] digits[j], CharClass::Digit),
            v == digits_value(s.subrange(a as int, i as int)),
            v <= integer_limit(s),
        decreases b - i,
    {
        let c = input.get_char(i);
        assert(c == digits[i - a]);
        let d: u64 = (c as u32 - '0' as u32) as u64;
        assert(s.subrange(a as int, i + 1).drop_last() =~= s.subrange(a as int, i as int));
        if v > 922337203685477580 || (v == 922337203685477580 && d > last) {
            proof {
                assert(digits_value(s.subrange(a as int, i + 1)) > integer_limit(s)) by (nonlinear_arith)
                    requires
                        digits_value(s.subrange(a as int, i + 1)) == v * 10 + d,
                        v > 922337203685477580 || (v == 922337203685477580 && d > last),
                        integer_limit(s) == 922337203685477580 * 10 + last,
                        d >= 0;
                assert(digits.take(i + 1 - a) =~= s.subrange(a as int, i + 1));
                lemma_digits_grow(digits, i + 1 - a);
            }
            return Err(ParseError {});
        }
        assert(v * 10 + d <= integer_limit(s)) by (nonlinear_arith)
            requires
                v <= 922337203685477580,
                v == 922337203685477580 ==> d <= last,
                d <= 9,
                integer_limit(s) == 922337203685477580 * 10 + last;
        v = v * 10 + d;
        i = i + 1;
    }
    let rest = input.substring_char(b, n);
    assert(rest@ =~= s.skip(b as int));
    if neg {
        if v == 9223372036854775808 {
            Ok((rest, i64::MIN))
        } else {
            Ok((rest, -(v as i64)))
        }
    } else {
        Ok((rest, v as i64))
    }
}

/// The text between `open` and the next `close` at the start of `input`.
fn delimited_text<'a>(input: &'a str, open: char, close: char) -> (r: ParseResult<'a, String>)
    ensures
        match r {
            Ok((rest, v)) => delimited(input@, open, close, until_len(input@.drop_first(), close)) && v@
                == input@.subrange(1, 1 + until_len(input@.drop_first(), close) as int) && rest@ == input@.skip(
                2 + until_len(input@.drop_first(), close) as int,
            ),
            Err(_) => !delimited(input@, open, close, until_len(input@.drop_first(), close)),
        },
{
    let n = input.unicode_len();
    if !starts_with(input, n, open) {
        return Err(ParseError {});
    }
    let e = scan_until(input, n, 1, close);
    assert(input@.subrange(1, n as int) =~= input@.drop_first());
    if e >= n {
        return Err(ParseError {});
    }
    let v = text(input, 1, e);
    let rest = input.substring_char(e + 1, n);
    assert(rest@ =~= input@.skip(e + 1));
    if input.get_char(e) != close {
        proof {
            let u = input@.subrange(e as int, n as int);
            assert(u.drop_first() =~= input@.subrange(e + 1, n as int));
        }
        return Err(ParseError {});
    }
    Ok((rest, v))
}

/// Decodes the body of a `string` token: `s` is what follows the opening
/// quote. Gives the decoded characters and how many characters of `s` stand
/// before the closing quote, or `None` if the quote is never closed. Two
/// apostrophes stand for one, two reverse solidi for one.
pub open spec fn string_body(s: Seq<char>) -> Option<(Seq<char>, nat)>
    decreases s.len(),
{
    if s.len() == 0 {
        None
    } else if s[0] == '\'' {
        if s.len() > 1 && s[1] == '\'' {
            prepend(seq!['\''], 2, string_body(s.skip(2)))
        } else {
            Some((Seq::empty(), 0))
        }
    } else if s[0] == '\\' && s.len() > 1 && s[1] == '\\' {
        prepend(seq!['\\'], 2, string_body(s.skip(2)))
    } else {
        prepend(seq![s[0]], 1, string_body(s.drop_first()))
    }
}

/// `r` with `v` decoded from `k` more characters in front.
pub open spec fn prepend(v: Seq<char>, k: nat, r: Option<(Seq<char>, nat)>) -> Option<(Seq<char>, nat)> {
    match r {
        Some((w, n)) => Some((v + w, k + n)),
        None => None,
    }
}

/// string = `'` { character | `''` | `\\` } `'` .
///
/// The value is the decoded text between the quotes.
pub fn string(input: &str) -> (r: ParseResult<String>)
    ensures
        match r {
            Ok((rest, v)) => input@.len() > 0 && input@[0] == '\'' && string_body(input@.drop_first()) is Some
                && v@ == string_body(input@.drop_first())->Some_0.0 && rest@ == input@.skip(
                string_body(input@.drop_first())->Some_0.1 + 2int,
            ),
            Err(_) => !(input@.len() > 0 && input@[0] == '\'' && string_body(input@.drop_first()) is Some),
        },
{
    let n = input.unicode_len();
    if !starts_with(input, n, '\'') {
        return Err(ParseError {});
    }
    let mut out = String::new();
    let mut i: usize = 1;
    assert(input@.subrange(1, n as int) =~= input@.drop_first());
    assert(prepend(Seq::empty(), 0, string_body(input@.subrange(1, n as int))) =~= string_body(input@.subrange(1, n as int))) by {
        match string_body(input@.subrange(1, n as int)) {
            Some((w, m)) => assert(Seq::<char>::empty() + w =~= w),
            None => {},
        }
    }
    while i < n
        invariant
            n == input@.len(),
            1 <= i <= n,
            input@[0] == '\'',
            string_body(input@.drop_first()) == prepend(out@, (i - 1) as nat, string_body(input@.subrange(i as int, n as int))),
        decreases n - i,
    {
        let ghost t = input@.subrange(i as int, n as int);
        let c = input.get_char(i);
        let two = i + 1 < n && input.get_char(i + 1) == c;
        let ghost before = out@;
        if c == '\'' && !two {
            assert(string_body(t) == Some((Seq::<char>::empty(), 0nat)));
            let rest = input.substring_char(i + 1, n);
            assert(out@ + Seq::<char>::empty() =~= out@);
            assert(rest@ =~= input@.skip(i + 1));
            return Ok((rest, out));
        }
        let step: usize = if (c == '\'' || c == '\\') && two { 2 } else { 1 };
        out.append(input.substring_char(i, i + 1));
        assert(input@.subrange(i as int, i + 1) =~= seq![c]);
        assert(t.skip(step as int) =~= input@.subrange(i + step, n as int));
        assert(t.drop_first() =~= input@.subrange(i + 1, n as int));
        assert(string_body(t) == prepend(seq![c], step as nat, string_body(input@.subrange(i + step, n as int))));
        proof {
            match string_body(input@.subrange(i + step, n as int)) {
                Some((w, m)) => {
                    assert(before + (seq![c] + w) =~= out@ + w);
                },
                None => {},
            }
        }
        i = i + step;
    }
    assert(input@.subrange(n as int, n as int).len() == 0);
    Err(ParseError {})
}

/// A resource locator, kept as text.
#[derive(Debug, Clone, PartialEq)]
pub struct URI(pub String);

/// resource = `<` UNIVERSAL_RESOURCE_IDENTIFIER `>` .
///
/// The text is not checked to be a URI.
pub fn resource(input: &str) -> (r: ParseResult<URI>)
    ensures
        match r {
            Ok((rest, v)) => delimited(input@, '<', '>', until_len(input@.drop_first(), '>')) && v.0@
                == input@.subrange(1, 1 + until_len(input@.drop_first(), '>') as int) && rest@ == input@.skip(
                2 + until_len(input@.drop_first(), '>') as int,
            ),
            Err(_) => !delimited(input@, '<', '>', until_len(input@.drop_first(), '>')),
        },
{
    match delimited_text(input, '<', '>') {
        Ok((rest, s)) => Ok((rest, URI(s))),
        Err(e) => Err(e),
    }
}

/// anchor_name = `<` URI_FRAGMENT_IDENTIFIER `>` .
///
/// The text is not checked to be a fragment identifier.
pub fn anchor_name(input: &str) -> (r: ParseResult<String>)
    ensures
        match r {
            Ok((rest, v)) => delimited(input@, '<', '>', until_len(input@.drop_first(), '>')) && v@
                == input@.subrange(1, 1 + until_len(input@.drop_first(), '>') as int) && rest@ == input@.skip(
                2 + until_len(input@.drop_first(), '>') as int,
            ),
            Err(_) => !delimited(input@, '<', '>', until_len(input@.drop_first(), '>')),
        },
{
    delimited_text(input, '<', '>')
}

/// standard_keyword = upper { upper | digit } .
pub fn standard_keyword(input: &str) -> (r: ParseResult<String>)
    ensures
        match r {
            Ok((rest, v)) => keyword_len(input@) > 0 && v@ == input@.take(keyword_len(input@) as int) && rest@
                == input@.skip(keyword_len(input@) as int),
            Err(_) => keyword_len(input@) == 0,
        },
{
    let n = input.unicode_len();
    if n == 0 || !class_has(input.get_char(0), CharClass::Upper) {
        return Err(ParseError {});
    }
    let e = scan(input, n, 1, CharClass::UpperOrDigit);
    assert(input@.subrange(1, n as int) =~= input@.drop_first());
    let v = text(input, 0, e);
    let rest = input.substring_char(e, n);
    assert(v@ =~= input@.take(e as int));
    assert(rest@ =~= input@.skip(e as int));
    Ok((rest, v))
}

/// A token of length `k > 0` after the character `lead`.
pub open spec fn led_post(s: Seq<char>, lead: char, k: nat, r: Result<(Seq<char>, Seq<char>), ParseError>) -> bool {
    match r {
        Ok((rest, v)) => led(s, lead, k) && v == s.subrange(1, 1 + k as int) && rest == s.skip(1 + k as int),
        Err(_) => !led(s, lead, k),
    }
}

pub open spec fn led_view(r: ParseResult<String>) -> Result<(Seq<char>, Seq<char>), ParseError> {
    match r {
        Ok((rest, v)) => Ok((rest@, v@)),
        Err(e) => Err(e),
    }
}

/// `lead` followed by a `standard_keyword`.
fn lead_keyword<'a>(input: &'a str, lead: char) -> (r: ParseResult<'a, String>)
    ensures
        led_post(input@, lead, keyword_len(input@.drop_first()), led_view(r)),
{
    let n = input.unicode_len();
    if !starts_with(input, n, lead) {
        return Err(ParseError {});
    }
    let tail = input.substring_char(1, n);
    assert(tail@ =~= input@.drop_first());
    proof {
        lemma_run_bounded(tail@.drop_first(), CharClass::UpperOrDigit);
    }
    match standard_keyword(tail) {
        Ok((rest, v)) => {
            assert(v@ =~= input@.subrange(1, 1 + keyword_len(input@.drop_first()) as int));
            assert(rest@ =~= input@.skip(1 + keyword_len(input@.drop_first()) as int));
            Ok((rest, v))
        },
        Err(e) => Err(e),
    }
}

/// `lead` followed by one or more digits.
fn lead_digits<'a>(input: &'a str, lead: char) -> (r: ParseResult<'a, String>)
    ensures
        led_post(input@, lead, run_len(input@.drop_first(), CharClass::Digit), led_view(r)),
{
    let n = input.unicode_len();
    if !starts_with(input, n, lead) {
        return Err(ParseError {});
    }
    let e = scan(input, n, 1, CharClass::Digit);
    assert(input@.subrange(1, n as int) =~= input@.drop_first());
    if e == 1 {
        return Err(ParseError {});
    }
    let v = text(input, 1, e);
    let rest = input.substring_char(e, n);
    assert(rest@ =~= input@.skip(e as int));
    Ok((rest, v))
}

/// enumeration = `.` upper { upper | digit } `.` .
pub fn enumeration(input: &str) -> (r: ParseResult<String>)
    ensures
        match r {
            Ok((rest, v)) => {
                let k = keyword_len(input@.drop_first());
                led(input@, '.', k) && 1 + k < input@.len() && input@[1 + k as int] == '.' && v@ == input@.subrange(1, 1 + k as int) && rest@ == input@.skip(2 + k as int)
            },
            Err(_) => {
                let k = keyword_len(input@.drop_first());
                !(led(input@, '.', k) && 1 + k < input@.len() && input@[1 + k as int] == '.')
            },
        },
{
    proof {
        if input@.len() > 0 {
            lemma_run_bounded(input@.drop_first().drop_first(), CharClass::UpperOrDigit);
        }
    }
    match lead_keyword(input, '.') {
        Ok((rest, v)) => {
            let n = rest.unicode_len();
            if n > 0 && rest.get_char(0) == '.' {
                let tail = rest.substring_char(1, n);
                assert(tail@ =~= input@.skip(2 + keyword_len(input@.drop_first()) as int));
                Ok((tail, v))
            } else {
                Err(ParseError {})
            }
        },
        Err(e) => Err(e),
    }
}

/// entity_instance_name = `#` digit { digit } .
pub fn entity_instance_name(input: &str) -> (r: ParseResult<String>)
    ensures
        led_post(input@, '#', run_len(input@.drop_first(), CharClass::Digit), led_view(r)),
{
    lead_digits(input, '#')
}

/// value_instance_name = `@` digit { digit } .
pub fn value_instance_name(input: &str) -> (r: ParseResult<String>)
    ensures
        led_post(input@, '@', run_len(input@.drop_first(), CharClass::Digit), led_view(r)),
{
    lead_digits(input, '@')
}

/// constant_entity_name = `#` upper { upper | digit } .
pub fn constant_entity_name(input: &str) -> (r: ParseResult<String>)
    ensures
        led_post(input@, '#', keyword_len(input@.drop_first()), led_view(r)),
{
    lead_keyword(input, '#')
}

/// constant_value_name = `@` upper { upper | digit } .
pub fn constant_value_name(input: &str) -> (r: ParseResult<String>)
    ensures
        led_post(input@, '@', keyword_len(input@.drop_first()), led_view(r)),
{
    lead_keyword(input, '@')
}

/// user_defined_keyword = `!` upper { upper | digit } .
pub fn user_defined_keyword(input: &str) -> (r: ParseResult<String>)
    ensures
        led_post(input@, '!', keyword_len(input@.drop_first()), led_view(r)),
{
    lead_keyword(input, '!')
}

/// keyword = user_defined_keyword | standard_keyword .
pub fn keyword(input: &str) -> (r: ParseResult<String>)
    ensures
        match r {
            Ok((rest, v)) => if led(input@, '!', keyword_len(input@.drop_first())) {
                led_post(input@, '!', keyword_len(input@.drop_first()), led_view(r))
            } else {
                keyword_len(input@) > 0 && v@ == input@.take(keyword_len(input@) as int) && rest@ == input@.skip(
                    keyword_len(input@) as int,
                )
            },
            Err(_) => !led(input@, '!', keyword_len(input@.drop_first())) && keyword_len(input@) == 0,
        },
{
    match user_defined_keyword(input) {
        Ok(x) => Ok(x),
        Err(_) => standard_keyword(input),
    }
}

/// tag_name = ( upper | lower ) { upper | lower | digit } .
pub fn tag_name(input: &str) -> (r: ParseResult<String>)
    ensures
        match r {
            Ok((rest, v)) => tag_len(input@) > 0 && v@ == input@.take(tag_len(input@) as int) && rest@
                == input@.skip(tag_len(input@) as int),
            Err(_) => tag_len(input@) == 0,
        },
{
    let n = input.unicode_len();
    if n == 0 {
        return Err(ParseError {});
    }
    let c = input.get_char(0);
    if !(class_has(c, CharClass::Upper) || class_has(c, CharClass::Lower)) {
        return Err(ParseError {});
    }
    let e = scan(input, n, 1, CharClass::Alphanumeric);
    assert(input@.subrange(1, n as int) =~= input@.drop_first());
    let v = text(input, 0, e);
    let rest = input.substring_char(e, n);
    assert(v@ =~= input@.take(e as int));
    assert(rest@ =~= input@.skip(e as int));
    Ok((rest, v))
}

/// signature_content = BASE64 .
///
/// The characters are returned as they stand, not decoded.
pub fn signature_content(input: &str) -> (r: ParseResult<String>)
    ensures
        match r {
            Ok((rest, v)) => run_len(input@, CharClass::Base64) > 0 && v@ == input@.take(
                run_len(input@, CharClass::Base64) as int,
            ) && rest@ == input@.skip(run_len(input@, CharClass::Base64) as int),
            Err(_) => run_len(input@, CharClass::Base64) == 0,
        },
{
    let n = input.unicode_len();
    let e = scan(input, n, 0, CharClass::Base64);
    assert(input@.subrange(0, n as int) =~= input@);
    if e == 0 {
        return Err(ParseError {});
    }
    let v = text(input, 0, e);
    let rest = input.substring_char(e, n);
    assert(v@ =~= input@.take(e as int));
    assert(rest@ =~= input@.skip(e as int));
    Ok((rest, v))
}

/// Left hand side value
#[derive(Debug, Clone, PartialEq)]
pub enum LValue {
    /// Like `#11`
    Entity(String),
    /// Like `@11`
    Value(String),
}

/// Right hand side value
#[derive(Debug, Clone, PartialEq)]
pub enum RValue {
    /// Like `#11`
    Entity(String),
    /// Like `@11`
    Value(String),
    /// Like `#CONST_ENTITY`
    ConstantEntity(String),
    /// Like `@CONST_VALUE`
    ConstantValue(String),
}

/// `s` starts with `lead` followed by one or more digits.
pub open spec fn digits_token(s: Seq<char>, lead: char) -> bool {
    led(s, lead, run_len(s.drop_first(), CharClass::Digit))
}

/// `s` starts with `lead` followed by a `standard_keyword`.
pub open spec fn keyword_token(s: Seq<char>, lead: char) -> bool {
    led(s, lead, keyword_len(s.drop_first()))
}

/// The digits that follow the first character of `s`.
pub open spec fn digits_after(s: Seq<char>) -> Seq<char> {
    s.subrange(1, 1 + run_len(s.drop_first(), CharClass::Digit) as int)
}

/// The keyword that follows the first character of `s`.
pub open spec fn keyword_after(s: Seq<char>) -> Seq<char> {
    s.subrange(1, 1 + keyword_len(s.drop_first()) as int)
}

/// lhs_occurrence_name = entity_instance_name | value_instance_name .
pub fn lhs_occurrence_name(input: &str) -> (r: ParseResult<LValue>)
    ensures
        match r {
            Ok((rest, LValue::Entity(v))) => digits_token(input@, '#') && v@ == digits_after(input@) && rest@
                == input@.skip(1 + run_len(input@.drop_first(), CharClass::Digit) as int),
            Ok((rest, LValue::Value(v))) => digits_token(input@, '@') && v@ == digits_after(input@) && rest@
                == input@.skip(1 + run_len(input@.drop_first(), CharClass::Digit) as int),
            Err(_) => !digits_token(input@, '#') && !digits_token(input@, '@'),
        },
{
    match entity_instance_name(input) {
        Ok((rest, v)) => return Ok((rest, LValue::Entity(v))),
        Err(_) => {},
    }
    match value_instance_name(input) {
        Ok((rest, v)) => Ok((rest, LValue::Value(v))),
        Err(e) => Err(e),
    }
}

/// rhs_occurrence_name = entity_instance_name | value_instance_name | constant_entity_name | constant_value_name .
pub fn rhs_occurrence_name(input: &str) -> (r: ParseResult<RValue>)
    ensures
        match r {
            Ok((rest, RValue::Entity(v))) => digits_token(input@, '#') && v@ == digits_after(input@) && rest@
                == input@.skip(1 + run_len(input@.drop_first(), CharClass::Digit) as int),
            Ok((rest, RValue::Value(v))) => digits_token(input@, '@') && v@ == digits_after(input@) && rest@
                == input@.skip(1 + run_len(input@.drop_first(), CharClass::Digit) as int),
            Ok((rest, RValue::ConstantEntity(v))) => !digits_token(input@, '#') && keyword_token(input@, '#') && v@
                == keyword_after(input@) && rest@ == input@.skip(1 + keyword_len(input@.drop_first()) as int),
            Ok((rest, RValue::ConstantValue(v))) => !digits_token(input@, '@') && keyword_token(input@, '@') && v@
                == keyword_after(input@) && rest@ == input@.skip(1 + keyword_len(input@.drop_first()) as int),
            Err(_) => !digits_token(input@, '#') && !digits_token(input@, '@') && !keyword_token(input@, '#')
                && !keyword_token(input@, '@'),
        },
{
    match entity_instance_name(input) {
        Ok((rest, v)) => return Ok((rest, RValue::Entity(v))),
        Err(_) => {},
    }
    match value_instance_name(input) {
        Ok((rest, v)) => return Ok((rest, RValue::Value(v))),
        Err(_) => {},
    }
    match constant_entity_name(input) {
        Ok((rest, v)) => return Ok((rest, RValue::ConstantEntity(v))),
        Err(_) => {},
    }
    match constant_value_name(input) {
        Ok((rest, v)) => Ok((rest, RValue::ConstantValue(v))),
        Err(e) => Err(e),
    }
}

/// Where the `real` at the start of `s` begins, after its sign and any white space.
pub open spec fn real_start(s: Seq<char>) -> int {
    integer_digits_start(s)
}

/// Where the integer part of a `real` ends (the position of its `.`).
pub open spec fn real_point(s: Seq<char>) -> int {
    integer_digits_end(s)
}

/// Where the fraction digits of a `real` end.
pub open spec fn real_fraction_end(s: Seq<char>) -> int {
    real_point(s) + 1 + run_len(s.skip(real_point(s) + 1), CharClass::Digit)
}

/// Where a `real` ends: after its exponent if a complete one follows the
/// fraction, else after the fraction.
pub open spec fn real_end(s: Seq<char>) -> int {
    let f = real_fraction_end(s);
    let es = if f + 1 < s.len() && (s[f + 1] == '+' || s[f + 1] == '-') {
        f + 2
    } else {
        f + 1
    };
    if f < s.len() && s[f] == 'E' && es <= s.len() && run_len(s.skip(es), CharClass::Digit) > 0 {
        es + run_len(s.skip(es), CharClass::Digit)
    } else {
        f
    }
}

/// The text of a `real` token: its sign, and its digits, point and exponent.
#[derive(Debug, Clone, PartialEq, Eq)]
pub struct RealText {
    pub negative: bool,
    pub text: String,
}

/// real = \[ sign \] digit { digit } `.` { digit } \[ `E` \[ sign \] digit { digit } \] .
///
/// Reads the token and returns its text; white space may stand after the sign.
pub fn real_text(input: &str) -> (r: ParseResult<RealText>)
    ensures
        match r {
            Ok((rest, v)) => real_point(input@) > real_start(input@) && real_point(input@) < input@.len()
                && input@[real_point(input@)] == '.' && v.negative == (input@.len() > 0 && input@[0] == '-')
                && v.text@ == input@.subrange(real_start(input@), real_end(input@)) && rest@ == input@.skip(
                real_end(input@),
            ),
            Err(_) => !(real_point(input@) > real_start(input@) && real_point(input@) < input@.len()
                && input@[real_point(input@)] == '.'),
        },
{
    let ghost s = input@;
    let n = input.unicode_len();
    let neg = starts_with(input, n, '-');
    let start: usize = if neg || starts_with(input, n, '+') { 1 } else { 0 };
    let a = scan(input, n, start, CharClass::Space);
    assert(s.subrange(start as int, n as int) =~= s.skip(start as int));
    let p = scan(input, n, a, CharClass::Digit);
    assert(s.subrange(a as int, n as int) =~= s.skip(a as int));
    if p == a || p >= n || input.get_char(p) != '.' {
        return Err(ParseError {});
    }
    let f = scan(input, n, p + 1, CharClass::Digit);
    assert(s.subrange(p + 1, n as int) =~= s.skip(p + 1));
    let mut end = f;
    if f < n && input.get_char(f) == 'E' {
        let es: usize = if f + 1 < n && (input.get_char(f + 1) == '+' || input.get_char(f + 1) == '-') {
            f + 2
        } else {
            f + 1
        };
        let ed = scan(input, n, es, CharClass::Digit);
        assert(s.subrange(es as int, n as int) =~= s.skip(es as int));
        if ed > es {
            end = ed;
        }
    }
    let text = text(input, a, end);
    let rest = input.substring_char(end, n);
    assert(rest@ =~= s.skip(end as int));
    Ok((rest, RealText { negative: neg, text }))
}

} // verus!
