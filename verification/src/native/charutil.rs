//! Thin contracts over the standard library's character and string
//! conversions that the parser and the matcher rely on.

use vstd::prelude::*;

verus! {

/// Whether `cp` is a Unicode scalar value (a codepoint that is not a
/// surrogate).
pub open spec fn is_scalar(cp: u32) -> bool {
    cp <= 0x10FFFF && !(0xD800 <= cp && cp <= 0xDFFF)
}

/// The characters of `s`, in order.
pub fn str_to_chars(s: &str) -> (v: Vec<char>)
    ensures
        v@ == s@,
{
    broadcast use vstd::string::axiom_spec_iter;

    let mut v: Vec<char> = Vec::new();
    for c in it: s.chars()
        invariant
            it.seq() == s@,
            v@ == it.seq().take(it.index()),
    {
        proof {
            assert(it.seq().take(it.index() + 1) =~= it.seq().take(it.index()).push(c));
        }
        v.push(c);
    }
    proof {
        assert(v@ =~= s@);
    }
    v
}

/// `String::push`.
#[verifier::external_body]
fn push_char(s: &mut String, c: char)
    ensures
        final(s)@ == old(s)@.push(c),
{
    s.push(c);
}

/// The string made of the characters of `v`.
pub fn chars_to_string(v: &[char]) -> (s: String)
    ensures
        s@ == v@,
{
    let mut s = String::new();
    let mut i: usize = 0;
    while i < v.len()
        invariant
            i <= v@.len(),
            s@ == v@.take(i as int),
        decreases v@.len() - i,
    {
        proof {
            assert(v@.take(i + 1) =~= v@.take(i as int).push(v@[i as int]));
        }
        push_char(&mut s, v[i]);
        i += 1;
    }
    proof {
        assert(v@.take(i as int) =~= v@);
    }
    s
}

/// `char::from_u32`: `Some` exactly for Unicode scalar values.
#[verifier::external_body]
pub fn char_from_u32(cp: u32) -> (r: Option<char>)
    ensures
        r is Some <==> is_scalar(cp),
        r matches Some(c) ==> c as u32 == cp && c == cp as char,
{
    char::from_u32(cp)
}

/// What `char::is_alphabetic` answers (the Unicode `Alphabetic` property).
pub uninterp spec fn spec_is_alphabetic(c: char) -> bool;

/// `char::is_alphabetic`.
#[verifier::external_body]
pub fn is_alphabetic(c: char) -> (r: bool)
    ensures
        r == spec_is_alphabetic(c),
{
    c.is_alphabetic()
}

/// What `char::is_alphanumeric` answers (`Alphabetic` or `Numeric`).
pub uninterp spec fn spec_is_alphanumeric(c: char) -> bool;

/// `char::is_alphanumeric`.
#[verifier::external_body]
pub fn is_alphanumeric(c: char) -> (r: bool)
    ensures
        r == spec_is_alphanumeric(c),
{
    c.is_alphanumeric()
}

/// What `char::is_lowercase` answers (the Unicode `Lowercase` property).
pub uninterp spec fn spec_is_lowercase(c: char) -> bool;

/// `char::is_lowercase`.
#[verifier::external_body]
pub fn is_lowercase(c: char) -> (r: bool)
    ensures
        r == spec_is_lowercase(c),
{
    c.is_lowercase()
}

/// What `char::is_uppercase` answers (the Unicode `Uppercase` property).
pub uninterp spec fn spec_is_uppercase(c: char) -> bool;

/// `char::is_uppercase`.
#[verifier::external_body]
pub fn is_uppercase(c: char) -> (r: bool)
    ensures
        r == spec_is_uppercase(c),
{
    c.is_uppercase()
}

/// The first character of the uppercase mapping of a character.
pub uninterp spec fn spec_upper_first(c: char) -> Option<char>;

/// `char::to_uppercase`, its first character: the mapping depends on the
/// character alone, and has at least one character.
#[verifier::external_body]
pub fn upper_first(c: char) -> (r: Option<char>)
    ensures
        r == spec_upper_first(c),
        r is Some,
{
    c.to_uppercase().next()
}

/// The first character of the lowercase mapping of a character.
pub uninterp spec fn spec_lower_first(c: char) -> Option<char>;

/// `char::to_lowercase`, its first character: the mapping depends on the
/// character alone, and has at least one character.
#[verifier::external_body]
pub fn lower_first(c: char) -> (r: Option<char>)
    ensures
        r == spec_lower_first(c),
        r is Some,
{
    c.to_lowercase().next()
}

/// What `char::is_numeric` answers (the Unicode `Numeric` property).
pub uninterp spec fn spec_is_numeric(c: char) -> bool;

/// `char::is_numeric`.
#[verifier::external_body]
pub fn is_numeric(c: char) -> (r: bool)
    ensures
        r == spec_is_numeric(c),
{
    c.is_numeric()
}

/// What `char::is_whitespace` answers: the Unicode `White_Space`
/// property, which holds of exactly these codepoints.
pub open spec fn spec_is_whitespace(c: char) -> bool {
    let v = c as u32;
    ||| 0x09 <= v <= 0x0D
    ||| v == 0x20
    ||| v == 0x85
    ||| v == 0xA0
    ||| v == 0x1680
    ||| 0x2000 <= v <= 0x200A
    ||| v == 0x2028
    ||| v == 0x2029
    ||| v == 0x202F
    ||| v == 0x205F
    ||| v == 0x3000
}

/// Whether `c` has the Unicode `White_Space` property.
pub fn is_whitespace(c: char) -> (r: bool)
    ensures
        r == spec_is_whitespace(c),
{
    let v = c as u32;
    (0x09 <= v && v <= 0x0D) || v == 0x20 || v == 0x85 || v == 0xA0 || v == 0x1680 || (0x2000 <= v && v
        <= 0x200A) || v == 0x2028 || v == 0x2029 || v == 0x202F || v == 0x205F || v == 0x3000
}

/// What `char::is_control` answers: general category `Cc`, which is
/// exactly `U+0000..=U+001F` and `U+007F..=U+009F`.
pub open spec fn spec_is_control(c: char) -> bool {
    let v = c as u32;
    v <= 0x1F || (0x7F <= v && v <= 0x9F)
}

/// Whether `c` is a control character (general category `Cc`).
pub fn is_control(c: char) -> (r: bool)
    ensures
        r == spec_is_control(c),
{
    let v = c as u32;
    v <= 0x1F || (0x7F <= v && v <= 0x9F)
}

/// An ASCII decimal digit, `'0'..='9'`.
pub open spec fn spec_is_ascii_digit(c: char) -> bool {
    '0' <= c && c <= '9'
}

/// Whether `c` is an ASCII decimal digit.
pub fn is_ascii_digit(c: char) -> (r: bool)
    ensures
        r == spec_is_ascii_digit(c),
{
    '0' <= c && c <= '9'
}

/// ASCII punctuation: the graphic ASCII characters that are neither
/// letters nor digits.
pub open spec fn spec_is_ascii_punctuation(c: char) -> bool {
    ('!' <= c && c <= '/') || (':' <= c && c <= '@') || ('[' <= c && c <= '`') || ('{' <= c && c
        <= '~')
}

/// Whether `c` is ASCII punctuation.
pub fn is_ascii_punctuation(c: char) -> (r: bool)
    ensures
        r == spec_is_ascii_punctuation(c),
{
    ('!' <= c && c <= '/') || (':' <= c && c <= '@') || ('[' <= c && c <= '`') || ('{' <= c && c
        <= '~')
}

/// Whether the characters of `k` are exactly `a`.
pub fn chars_are1(k: &Vec<char>, a: char) -> (r: bool)
    ensures
        r == (k@ == seq![a]),
{
    let r = k.len() == 1 && k[0] == a;
    proof {
        if r {
            assert(k@ =~= seq![a]);
        }
    }
    r
}

/// Whether the characters of `k` are exactly `a`, `b`.
pub fn chars_are2(k: &Vec<char>, a: char, b: char) -> (r: bool)
    ensures
        r == (k@ == seq![a, b]),
{
    let r = k.len() == 2 && k[0] == a && k[1] == b;
    proof {
        if r {
            assert(k@ =~= seq![a, b]);
        }
    }
    r
}

/// The decimal digit character for `d` (0 to 9).
pub open spec fn digit_char(d: int) -> char {
    (48 + d) as char
}

/// The decimal digits of `n`, most significant first.
pub open spec fn decimal_digits(n: nat) -> Seq<char>
    decreases n,
{
    if n < 10 {
        seq![digit_char(n as int)]
    } else {
        decimal_digits(n / 10).push(digit_char((n % 10) as int))
    }
}

/// The character of the digit `d`.
fn digit(d: u128) -> (c: char)
    requires
        d < 10,
    ensures
        c == digit_char(d as int),
{
    let c = if d == 0 {
        '0'
    } else if d == 1 {
        '1'
    } else if d == 2 {
        '2'
    } else if d == 3 {
        '3'
    } else if d == 4 {
        '4'
    } else if d == 5 {
        '5'
    } else if d == 6 {
        '6'
    } else if d == 7 {
        '7'
    } else if d == 8 {
        '8'
    } else {
        '9'
    };
    c
}

/// The decimal digits of `n`, most significant first.
pub fn decimal(n: u128) -> (r: Vec<char>)
    ensures
        r@ == decimal_digits(n as nat),
{
    let mut rev: Vec<char> = Vec::new();
    let mut m = n;
    loop
        invariant
            m > 0 ==> decimal_digits(n as nat) == decimal_digits(m as nat) + rev@.reverse(),
            m == 0 && rev@.len() > 0 ==> decimal_digits(n as nat) == rev@.reverse(),
            rev@.len() == 0 ==> m == n,
        ensures
            decimal_digits(n as nat) == rev@.reverse(),
        decreases m + if rev@.len() == 0 {
            1int
        } else {
            0int
        },
    {
        if m == 0 && rev.len() > 0 {
            break;
        }
        let d = m % 10;
        let ghost before = rev@;
        rev.push(digit(d));
        proof {
            assert(rev@.reverse() =~= seq![digit_char(d as int)] + before.reverse());
            if m >= 10 {
                assert(decimal_digits(m as nat) == decimal_digits((m / 10) as nat).push(
                    digit_char(d as int),
                ));
                assert(decimal_digits((m / 10) as nat).push(digit_char(d as int)) + before.reverse()
                    =~= decimal_digits((m / 10) as nat) + rev@.reverse());
            } else {
                assert(decimal_digits(m as nat) == seq![digit_char(d as int)]);
            }
        }
        m = m / 10;
    }
    let mut r: Vec<char> = Vec::new();
    let mut j = rev.len();
    while j > 0
        invariant
            j <= rev@.len(),
            r@ == rev@.reverse().take(rev@.len() - j),
        decreases j,
    {
        j -= 1;
        r.push(rev[j]);
        proof {
            assert(rev@.reverse().take(rev@.len() - j) =~= rev@.reverse().take(rev@.len() - j - 1).push(
                rev@[j as int],
            ));
        }
    }
    proof {
        assert(rev@.reverse().take(rev@.len() as int) =~= rev@.reverse());
    }
    r
}

} // verus!
