//! Fixed-point scores and their decimal rendering.
//!
//! Every score, signal and weight of the analysis is a fixed-point number:
//! the integer `SCALE` (3·10^15) stands for 1.0.  Every constant of the
//! scoring model (thirds of 0.2, weights in hundredths, signals in
//! twentieths) is then a whole number of units, so claim-level scores are
//! computed without rounding, and a derived value (an average, a ratio) is
//! rounded once, down to the next 1/(3·10^15).
use vstd::prelude::*;
use crate::text::push_char;

verus! {

/// The fixed-point unit: `SCALE` stands for 1.0.  It is fine enough that
/// every constant of the model (hundredths, and the fifteenths of
/// specificity) is exact, and that a single rounding of a derived value is
/// off by less than 4e-16.
pub const SCALE: u64 = 3_000_000_000_000_000;

/// The character of a decimal digit.
pub open spec fn digit_char(d: nat) -> char
    recommends
        d < 10,
{
    (48 + d) as char
}

/// The decimal notation of `n`, without leading zeros.
pub open spec fn decimal(n: nat) -> Seq<char>
    decreases n,
{
    if n < 10 {
        seq![digit_char(n)]
    } else {
        decimal(n / 10).push(digit_char(n % 10))
    }
}

/// The last `width` decimal digits of `n`, padded with leading zeros.
pub open spec fn padded(n: nat, width: nat) -> Seq<char>
    decreases width,
{
    if width == 0 {
        seq![]
    } else {
        padded(n / 10, (width - 1) as nat).push(digit_char(n % 10))
    }
}

pub open spec fn pow10(p: nat) -> nat
    decreases p,
{
    if p == 0 {
        1
    } else {
        10 * pow10((p - 1) as nat)
    }
}

/// `q / 10^places` written with `places` decimals.
pub open spec fn fixed_text(q: nat, places: nat) -> Seq<char> {
    if places == 0 {
        decimal(q)
    } else {
        decimal(q / pow10(places)) + seq!['.'] + padded(q % pow10(places), places)
    }
}

/// `num / den` rounded to the nearest integer, ties to the even neighbour
/// (the rule of Rust's `{:.N}` formatting).
pub open spec fn round_half_even(num: nat, den: nat) -> nat
    recommends
        den > 0,
{
    let q = num / den;
    let r = num % den;
    if 2 * r > den || (2 * r == den && q % 2 == 1) {
        q + 1
    } else {
        q
    }
}

/// `num / den` written with `places` decimals.
pub open spec fn ratio_text(num: nat, den: nat, places: nat) -> Seq<char> {
    fixed_text(round_half_even(num * pow10(places), den), places)
}

/// The fixed-point value `v` as a whole percentage (`{:.0}` of `v * 100`).
pub open spec fn percent_text(v: nat) -> Seq<char> {
    ratio_text(v * 100, SCALE as nat, 0)
}

fn digit(d: u64) -> (c: char)
    requires
        d < 10,
    ensures
        c == digit_char(d as nat),
{
    let b: u8 = 48u8 + (d as u8);
    b as char
}

/// Appends the decimal notation of `n`.
pub fn append_decimal(s: &mut String, n: u64)
    ensures
        final(s)@ == old(s)@ + decimal(n as nat),
{
    append_decimal_wide(s, n as u128);
}

/// Appends the last `width` digits of `n`, zero-padded.
fn append_padded(s: &mut String, n: u64, width: u32)
    ensures
        final(s)@ == old(s)@ + padded(n as nat, width as nat),
    decreases width,
{
    if width > 0 {
        append_padded(s, n / 10, width - 1);
        push_char(s, digit(n % 10));
        assert(old(s)@ + padded((n / 10) as nat, (width - 1) as nat) + seq![
            digit_char((n % 10) as nat),
        ] =~= old(s)@ + padded(n as nat, width as nat));
    } else {
        assert(old(s)@ + seq![] =~= old(s)@);
    }
}

fn pow10_exec(p: u32) -> (r: u64)
    requires
        p <= 4,
    ensures
        r == pow10(p as nat),
        1 <= r <= 10000,
{
    reveal_with_fuel(pow10, 5);
    if p == 0 {
        1
    } else if p == 1 {
        10
    } else if p == 2 {
        100
    } else if p == 3 {
        1000
    } else {
        10000
    }
}

/// Appends `num / den` written with `places` decimals, rounded half to even.
pub fn append_ratio(s: &mut String, num: u128, den: u128, places: u32)
    requires
        den > 0,
        num <= 0x1_0000_0000_0000_0000_0000_0000_0000,
        places <= 4,
    ensures
        final(s)@ == old(s)@ + ratio_text(num as nat, den as nat, places as nat),
{
    let p = pow10_exec(places);
    assert(num * (p as u128) <= 0x1_0000_0000_0000_0000_0000_0000_0000 * 10000) by (
    nonlinear_arith)
        requires
            p <= 10000,
            num <= 0x1_0000_0000_0000_0000_0000_0000_0000,
    ;
    let scaled: u128 = num * (p as u128);
    let q: u128 = scaled / den;
    let r: u128 = scaled % den;
    assert(q <= scaled) by (nonlinear_arith)
        requires
            q == scaled / den,
            den > 0,
    ;
    assert(r < den) by (nonlinear_arith)
        requires
            r == scaled % den,
            den > 0,
    ;
    let rounded: u128 = if r > den - r || (r == den - r && q % 2 == 1) {
        q + 1
    } else {
        q
    };
    assert(rounded == round_half_even(num as nat * pow10(places as nat), den as nat));
    if places == 0 {
        append_decimal_wide(s, rounded);
    } else {
        append_decimal_wide(s, rounded / (p as u128));
        crate::text::push_char(s, '.');
        let frac: u64 = (rounded % (p as u128)) as u64;
        append_padded(s, frac, places);
        assert(old(s)@ + decimal((rounded / (p as u128)) as nat) + seq!['.'] + padded(
            frac as nat,
            places as nat,
        ) =~= old(s)@ + fixed_text(rounded as nat, places as nat));
    }
}

/// Appends the decimal notation of a 128-bit `n`.
fn append_decimal_wide(s: &mut String, n: u128)
    ensures
        final(s)@ == old(s)@ + decimal(n as nat),
    decreases n,
{
    if n >= 10 {
        append_decimal_wide(s, n / 10);
    }
    push_char(s, digit((n % 10) as u64));
    proof {
        if n >= 10 {
            assert(old(s)@ + decimal((n / 10) as nat) + seq![digit_char((n % 10) as nat)]
                =~= old(s)@ + decimal(n as nat));
        } else {
            assert(old(s)@.push(digit_char(n as nat)) =~= old(s)@ + decimal(n as nat));
        }
    }
}

} // verus!
