//! Calendar and clock pieces of the date and time schemas (month lengths
//! in the Gregorian calendar, times in ISO 8601 form) and the text of a
//! UUID.

use vstd::prelude::*;

use crate::native::charutil::{char_from_u32, chars_to_string, decimal, decimal_digits};

verus! {

/// A Gregorian leap year: divisible by 4, unless divisible by 100 but not
/// by 400.
pub open spec fn is_leap_year(year: int) -> bool {
    year % 4 == 0 && (year % 100 != 0 || year % 400 == 0)
}

/// The number of days in `month` (1 to 12) of `year`.
pub open spec fn spec_days_in_month(year: int, month: int) -> int {
    if month == 2 {
        if is_leap_year(year) {
            29
        } else {
            28
        }
    } else if month == 4 || month == 6 || month == 9 || month == 11 {
        30
    } else {
        31
    }
}

/// The days of the twelve months of a year, from `month` on.
pub open spec fn days_from_month(year: int, month: int) -> int
    decreases 13 - month,
{
    if month > 12 || month < 1 {
        0
    } else {
        spec_days_in_month(year, month) + days_from_month(year, month + 1)
    }
}

/// Thirty days have September, April, June and November; February has 28,
/// or 29 in a leap year, and is the only month with fewer than 30; all the
/// rest have 31. The months of a year add up to 365 days, or 366 in a leap
/// year.
pub proof fn lemma_month_lengths(year: int, month: int)
    requires
        1 <= month <= 12,
    ensures
        month == 4 || month == 6 || month == 9 || month == 11 ==> spec_days_in_month(year, month) == 30,
        28 <= spec_days_in_month(year, month) <= 31,
        spec_days_in_month(year, month) < 30 <==> month == 2,
        month == 2 ==> (spec_days_in_month(year, month) == 29 <==> is_leap_year(year)),
        days_from_month(year, 1) == if is_leap_year(year) { 366int } else { 365int },
{
    reveal_with_fuel(days_from_month, 13);
}

/// The leap-year rule repeats every 400 years; a year not divisible by 4 is
/// never a leap year; of the century years, 2000 is a leap year and 1900,
/// 2100 are not; so February of a year not divisible by 4 has 28 days.
pub proof fn lemma_leap_years(year: int)
    ensures
        is_leap_year(year + 400) == is_leap_year(year),
        year % 4 != 0 ==> !is_leap_year(year) && spec_days_in_month(year, 2) == 28,
        is_leap_year(2000),
        !is_leap_year(1900),
        !is_leap_year(2100),
        is_leap_year(2024),
        !is_leap_year(2023),
{
    assert((year + 400) % 4 == year % 4);
    assert((year + 400) % 100 == year % 100);
    assert((year + 400) % 400 == year % 400);
}

/// Whether `a` is a multiple of the positive `d`.
fn divisible(a: i128, d: i128) -> (r: bool)
    requires
        d > 0,
    ensures
        r == (a % d == 0),
{
    let mag: u128 = if a < 0 {
        (-(a + 1)) as u128 + 1
    } else {
        a as u128
    };
    let dm = d as u128;
    let r = mag % dm == 0;
    proof {
        let ai = a as int;
        let di = d as int;
        let mi = mag as int;
        assert(mi == if ai < 0 { -ai } else { ai });
        if ai < 0 {
            vstd::arithmetic::div_mod::lemma_fundamental_div_mod(mi, di);
            let q = mi / di;
            let m = mi % di;
            assert(ai == (-q) * di - m) by (nonlinear_arith)
                requires
                    mi == di * q + m,
                    ai == -mi,
            ;
            if m == 0 {
                vstd::arithmetic::div_mod::lemma_fundamental_div_mod_converse(ai, di, -q, 0);
            } else {
                assert(ai == (-q - 1) * di + (di - m)) by (nonlinear_arith)
                    requires
                        ai == (-q) * di - m,
                ;
                vstd::arithmetic::div_mod::lemma_fundamental_div_mod_converse(ai, di, -q - 1, di - m);
            }
        }
    }
    r
}

/// The number of days in the given month of the Gregorian `year`.
pub fn days_in_month(year: i128, month: i128) -> (r: i128)
    requires
        1 <= month <= 12,
    ensures
        r == spec_days_in_month(year as int, month as int),
{
    if month == 2 {
        let is_leap = divisible(year, 4) && (!divisible(year, 100) || divisible(year, 400));
        if is_leap {
            29
        } else {
            28
        }
    } else if month == 4 || month == 6 || month == 9 || month == 11 {
        30
    } else {
        31
    }
}

/// `n` in decimal, padded with zeros after any sign to at least `width`
/// characters, as `format!("{n:0width$}")` writes it.
pub open spec fn zero_padded(n: int, width: nat) -> Seq<char> {
    let sign: Seq<char> = if n < 0 {
        seq!['-']
    } else {
        Seq::empty()
    };
    let mag = decimal_digits((if n < 0 {
        -n
    } else {
        n
    }) as nat);
    let fill = width - sign.len() - mag.len();
    sign + Seq::new(
        if fill > 0 {
            fill as nat
        } else {
            0
        },
        |i: int| '0',
    ) + mag
}

/// A time of day in ISO 8601 form, `HH:MM:SS`, with `.ffffff` after it
/// when there are microseconds.
pub open spec fn spec_format_time(hour: int, minute: int, second: int, microsecond: int) -> Seq<
    char,
> {
    let hms = zero_padded(hour, 2) + seq![':'] + zero_padded(minute, 2) + seq![':'] + zero_padded(
        second,
        2,
    );
    if microsecond == 0 {
        hms
    } else {
        hms + seq!['.'] + zero_padded(microsecond, 6)
    }
}

/// Appends `n` in decimal, zero-padded to `width`.
fn push_zero_padded(out: &mut Vec<char>, n: i128, width: usize)
    ensures
        final(out)@ == old(out)@ + zero_padded(n as int, width as nat),
{
    let mag: u128 = if n < 0 {
        (-(n + 1)) as u128 + 1
    } else {
        n as u128
    };
    let ghost magn: nat = (if n < 0 {
        -n
    } else {
        n as int
    }) as nat;
    assert(mag == magn);
    let digits = decimal(mag);
    let ghost start = out@;
    if n < 0 {
        out.push('-');
    }
    let sign_len: usize = if n < 0 {
        1
    } else {
        0
    };
    let fill: usize = if width > digits.len() && width - digits.len() > sign_len {
        width - digits.len() - sign_len
    } else {
        0
    };
    let mut k: usize = 0;
    while k < fill
        invariant
            k <= fill,
            out@ == start + (if n < 0 {
                seq!['-']
            } else {
                Seq::<char>::empty()
            }) + Seq::new(k as nat, |i: int| '0'),
        decreases fill - k,
    {
        out.push('0');
        proof {
            assert(out@ =~= start + (if n < 0 {
                seq!['-']
            } else {
                Seq::<char>::empty()
            }) + Seq::new((k + 1) as nat, |i: int| '0'));
        }
        k += 1;
    }
    let ghost mid = out@;
    let mut j: usize = 0;
    while j < digits.len()
        invariant
            j <= digits@.len(),
            out@ == mid + digits@.take(j as int),
        decreases digits@.len() - j,
    {
        out.push(digits[j]);
        j += 1;
        proof {
            assert(out@ =~= mid + digits@.take(j as int));
        }
    }
    proof {
        assert(digits@.take(j as int) =~= digits@);
        let sign: Seq<char> = if n < 0 {
            seq!['-']
        } else {
            Seq::empty()
        };
        let f = width - sign.len() - decimal_digits(magn).len();
        assert(fill == if f > 0 {
            f
        } else {
            0
        });
        assert(out@ =~= old(out)@ + zero_padded(n as int, width as nat));
    }
}

/// Formats a time of day as ISO 8601 `HH:MM:SS`, adding `.ffffff` when
/// `microsecond` is not zero.
pub fn format_time(hour: i128, minute: i128, second: i128, microsecond: i128) -> (r: String)
    ensures
        r@ == spec_format_time(hour as int, minute as int, second as int, microsecond as int),
{
    let mut out: Vec<char> = Vec::new();
    push_zero_padded(&mut out, hour, 2);
    out.push(':');
    push_zero_padded(&mut out, minute, 2);
    out.push(':');
    push_zero_padded(&mut out, second, 2);
    if microsecond != 0 {
        out.push('.');
        push_zero_padded(&mut out, microsecond, 6);
    }
    proof {
        assert(out@ =~= spec_format_time(hour as int, minute as int, second as int, microsecond as int));
    }
    chars_to_string(out.as_slice())
}


/// The 128-bit value of a UUID drawn as two 64-bit halves: with a version,
/// the RFC 4122 variant bits are set and the version is written at bit 76;
/// without one, zero becomes one.
pub open spec fn uuid_value(hi: u64, lo: u64, version: Option<u8>) -> u128 {
    let n = ((hi as u128) << 64u128) | (lo as u128);
    match version {
        Some(v) => {
            let n1 = (n & !(0xc000u128 << 48u128)) | (0x8000u128 << 48u128);
            (n1 & !(0xf000u128 << 64u128)) | ((v as u128) << 76u128)
        },
        None => if n == 0 {
            1
        } else {
            n
        },
    }
}

/// The `k`-th hexadecimal digit of `n`, most significant first.
pub open spec fn nibble(n: u128, k: int) -> u128 {
    (n >> ((124 - 4 * k) as u128)) & 0xfu128
}

/// A lowercase hexadecimal digit.
pub open spec fn hex_digit(d: int) -> char {
    if d < 10 {
        (48 + d) as char
    } else {
        (87 + d) as char
    }
}

/// Whether position `p` of a UUID's text holds a dash.
pub open spec fn uuid_dash(p: int) -> bool {
    p == 8 || p == 13 || p == 18 || p == 23
}

/// Which hexadecimal digit stands at position `p` of a UUID's text.
pub open spec fn uuid_digit_index(p: int) -> int {
    if p <= 8 {
        p
    } else if p <= 13 {
        p - 1
    } else if p <= 18 {
        p - 2
    } else if p <= 23 {
        p - 3
    } else {
        p - 4
    }
}

/// The text of a UUID: its 32 lowercase hexadecimal digits, most
/// significant first, in groups of 8, 4, 4, 4 and 12 joined by dashes.
pub open spec fn uuid_text(n: u128) -> Seq<char> {
    Seq::new(
        36,
        |p: int|
            if uuid_dash(p) {
                '-'
            } else {
                hex_digit(nibble(n, uuid_digit_index(p)) as int)
            },
    )
}

/// The text of the UUID drawn as the halves `hi` and `lo`, with the given
/// version, if any.
pub fn uuid_string(hi: u64, lo: u64, version: Option<u8>) -> (r: String)
    ensures
        r@ == uuid_text(uuid_value(hi, lo, version)),
{
    let mut n: u128 = ((hi as u128) << 64u128) | (lo as u128);
    match version {
        Some(v) => {
            n = n & !(0xc000u128 << 48u128);
            n = n | (0x8000u128 << 48u128);
            n = n & !(0xf000u128 << 64u128);
            n = n | ((v as u128) << 76u128);
        },
        None => {
            if n == 0 {
                n = 1;
            }
        },
    }
    assert(n == uuid_value(hi, lo, version));
    let mut out: Vec<char> = Vec::new();
    let mut p: usize = 0;
    let mut k: u32 = 0;
    while p < 36
        invariant
            p <= 36,
            k as int == uuid_digit_index(p as int),
            out@ == uuid_text(n).take(p as int),
        decreases 36 - p,
    {
        if p == 8 || p == 13 || p == 18 || p == 23 {
            out.push('-');
        } else {
            let d = (n >> ((124 - 4 * k) as u128)) & 0xfu128;
            assert(d == nibble(n, k as int));
            assert(d < 16) by (bit_vector)
                requires
                    d == (n >> ((124 - 4 * k) as u128)) & 0xfu128,
            ;
            let code: u32 = if d < 10 {
                48 + d as u32
            } else {
                87 + d as u32
            };
            match char_from_u32(code) {
                Some(c) => out.push(c),
                None => {
                    assert(false);
                },
            }
            k += 1;
        }
        proof {
            assert(out@ =~= uuid_text(n).take(p + 1));
        }
        p += 1;
    }
    assert(uuid_text(n).take(36) =~= uuid_text(n));
    chars_to_string(out.as_slice())
}

} // verus!
