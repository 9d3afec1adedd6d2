//! The grammar of one report line.

use vstd::prelude::*;
use crate::store::ImgView;

verus! {

/// Whether `c` has the Unicode `White_Space` property.
pub uninterp spec fn white_space(c: char) -> bool;

/// Whether `c` is a Unicode word character (`Alphabetic`, `Join_Control`,
/// `Decimal_Number`, `Mark` or `Connector_Punctuation`).
pub uninterp spec fn word_char(c: char) -> bool;

/// Relies on char::is_whitespace: true exactly for the `White_Space` characters.
#[verifier::external_body]
fn is_space(c: char) -> (r: bool)
    ensures
        r == white_space(c),
{
    c.is_whitespace()
}

/// Relies on regex_syntax::is_word_character (with its default `unicode-perl`
/// feature, under which it does not panic): true exactly for word characters.
#[verifier::external_body]
fn is_word(c: char) -> (r: bool)
    ensures
        r == word_char(c),
{
    regex_syntax::is_word_character(c)
}

/// An ASCII decimal digit.
pub open spec fn is_digit(c: char) -> bool {
    48 <= c as u32 <= 57
}

/// The kinds of characters that a line's fields are made of.
#[derive(Clone, Copy, PartialEq, Eq, Debug, Structural)]
pub enum CharClass {
    Space,
    Word,
    Digit,
}

pub open spec fn in_class(k: CharClass, c: char) -> bool {
    match k {
        CharClass::Space => white_space(c),
        CharClass::Word => word_char(c),
        CharClass::Digit => is_digit(c),
    }
}

/// The end of the run of characters of class `k` that starts at `i`.
pub open spec fn run_end(l: Seq<char>, i: int, k: CharClass) -> int
    decreases l.len() - i,
{
    if 0 <= i < l.len() && in_class(k, l[i]) {
        run_end(l, i + 1, k)
    } else {
        i
    }
}

/// The number written by a sequence of decimal digits.
pub open spec fn digits_value(s: Seq<char>) -> nat
    decreases s.len(),
{
    if s.len() == 0 {
        0
    } else {
        digits_value(s.drop_last()) * 10 + (s.last() as u32 - 48) as nat
    }
}

/// Why a report line was refused.
#[derive(Clone, Copy, PartialEq, Eq, Debug, Structural)]
pub enum LineError {
    /// The line does not have the shape `tag(WIDTHxHEIGHT): path`.
    Malformed,
    /// The width or the height does not fit in 32 bits.
    NumberTooLarge,
}

/// One report line: optional white space, a word, `(`, the width in digits,
/// `x`, the height in digits, `): `, and then a non-empty path that runs to the
/// end of the line.
pub open spec fn line_image(l: Seq<char>) -> Result<ImgView, LineError> {
    let a = run_end(l, 0, CharClass::Space);
    let b = run_end(l, a, CharClass::Word);
    let c = run_end(l, b + 1, CharClass::Digit);
    let d = run_end(l, c + 1, CharClass::Digit);
    if b == a || b >= l.len() || l[b] != '(' {
        Err(LineError::Malformed)
    } else if c == b + 1 || c >= l.len() || l[c] != 'x' {
        Err(LineError::Malformed)
    } else if d == c + 1 || d + 3 >= l.len() || l[d] != ')' || l[d + 1] != ':' || l[d + 2] != ' ' {
        Err(LineError::Malformed)
    } else {
        let w = digits_value(l.subrange(b + 1, c));
        let h = digits_value(l.subrange(c + 1, d));
        if w > u32::MAX || h > u32::MAX {
            Err(LineError::NumberTooLarge)
        } else {
            Ok(ImgView { path: l.subrange(d + 3, l.len() as int), width: w as u32, height: h as u32 })
        }
    }
}

proof fn lemma_run_end_bounds(l: Seq<char>, i: int, k: CharClass)
    requires
        0 <= i,
    ensures
        i <= run_end(l, i, k),
        i <= l.len() ==> run_end(l, i, k) <= l.len(),
        forall|j: int| i <= j < run_end(l, i, k) ==> in_class(k, #[trigger] l[j]),
    decreases l.len() - i,
{
    if 0 <= i < l.len() && in_class(k, l[i]) {
        lemma_run_end_bounds(l, i + 1, k);
    }
}

fn in_class_exec(k: CharClass, c: char) -> (r: bool)
    ensures
        r == in_class(k, c),
{
    match k {
        CharClass::Space => is_space(c),
        CharClass::Word => is_word(c),
        CharClass::Digit => 48 <= c as u32 && c as u32 <= 57,
    }
}

fn scan_run(l: &Vec<char>, i: usize, k: CharClass) -> (r: usize)
    requires
        i <= l@.len(),
    ensures
        r == run_end(l@, i as int, k),
        i <= r <= l@.len(),
{
    let mut j: usize = i;
    while j < l.len() && in_class_exec(k, l[j])
        invariant
            i <= j <= l@.len(),
            run_end(l@, i as int, k) == run_end(l@, j as int, k),
        decreases l@.len() - j,
    {
        j = j + 1;
    }
    j
}

proof fn lemma_digits_grow(s: Seq<char>, n: int)
    requires
        0 <= n <= s.len(),
        forall|j: int| 0 <= j < s.len() ==> is_digit(#[trigger] s[j]),
    ensures
        digits_value(s.take(n)) <= digits_value(s),
    decreases s.len() - n,
{
    if n < s.len() {
        lemma_digits_grow(s, n + 1);
        assert(s.take(n + 1).drop_last() =~= s.take(n));
    } else {
        assert(s.take(n) =~= s);
    }
}

/// The number written by the digits `l[from..to]`, where it fits in 32 bits.
fn digits_u32(l: &Vec<char>, from: usize, to: usize) -> (r: Option<u32>)
    requires
        from <= to <= l@.len(),
        forall|j: int| from <= j < to ==> is_digit(#[trigger] l@[j]),
    ensures
        r matches Some(v) ==> v as nat == digits_value(l@.subrange(from as int, to as int)),
        r is None <==> digits_value(l@.subrange(from as int, to as int)) > u32::MAX,
{
    let ghost s = l@.subrange(from as int, to as int);
    let mut v: u32 = 0;
    let mut i: usize = from;
    while i < to
        invariant
            from <= i <= to <= l@.len(),
            s == l@.subrange(from as int, to as int),
            forall|j: int| from <= j < to ==> is_digit(#[trigger] l@[j]),
            v as nat == digits_value(s.take(i - from)),
        decreases to - i,
    {
        let d: u32 = l[i] as u32 - 48;
        assert(s.take(i + 1 - from).drop_last() =~= s.take(i - from));
        assert(s.take(i + 1 - from).last() == l@[i as int]);
        if v > (4294967295u32 - d) / 10 {
            proof {
                lemma_digits_grow(s, i + 1 - from);
            }
            return None;
        }
        v = v * 10 + d;
        i = i + 1;
    }
    assert(s.take(to - from) =~= s);
    Some(v)
}

/// Reads one report line.
pub fn parse_line(l: &Vec<char>) -> (r: Result<(usize, u32, u32), LineError>)
    ensures
        match line_image(l@) {
            Ok(img) => r matches Ok((p, w, h)) && p <= l@.len()
                && l@.subrange(p as int, l@.len() as int) == img.path
                && w == img.width && h == img.height,
            Err(e) => r == Err::<(usize, u32, u32), LineError>(e),
        },
{
    let n = l.len();
    let a = scan_run(l, 0, CharClass::Space);
    let b = scan_run(l, a, CharClass::Word);
    if b == a || b >= n || l[b] != '(' {
        return Err(LineError::Malformed);
    }
    let c = scan_run(l, b + 1, CharClass::Digit);
    if c == b + 1 || c >= n || l[c] != 'x' {
        return Err(LineError::Malformed);
    }
    let d = scan_run(l, c + 1, CharClass::Digit);
    if d == c + 1 || n - d <= 3 || l[d] != ')' || l[d + 1] != ':' || l[d + 2] != ' ' {
        return Err(LineError::Malformed);
    }
    proof {
        lemma_run_end_bounds(l@, b as int + 1, CharClass::Digit);
        lemma_run_end_bounds(l@, c as int + 1, CharClass::Digit);
    }
    let w = digits_u32(l, b + 1, c);
    let h = digits_u32(l, c + 1, d);
    match (w, h) {
        (Some(w), Some(h)) => Ok((d + 3, w, h)),
        _ => Err(LineError::NumberTooLarge),
    }
}

} // verus!
