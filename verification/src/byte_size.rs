//! Human-readable byte counts: `B` below one KiB, else KiB, MiB or GiB with two decimals,
//! exactly as the counts print when converted to `f64`, scaled and formatted with `{:.2}`.
use vstd::prelude::*;
use crate::text::{decimal, digit, digit_char, push_char, push_decimal, push_str};

verus! {

pub open spec fn pow2(e: nat) -> nat
    decreases e,
{
    if e == 0 {
        1
    } else {
        2 * pow2((e - 1) as nat)
    }
}

/// The nearest integer to `num / den`; an exact half goes to the even neighbour.
pub open spec fn round_half_even(num: nat, den: nat) -> nat {
    let q = num / den;
    let r = num % den;
    if 2 * r > den || (2 * r == den && q % 2 == 1) {
        q + 1
    } else {
        q
    }
}

/// How many low bits of `n` an `f64` cannot keep (its significand holds 53 bits).
pub open spec fn dropped_bits(n: nat) -> nat
    decreases n,
{
    if n < 9007199254740992 {
        0
    } else {
        1 + dropped_bits(n / 2)
    }
}

/// The integer value of `n as f64`: `n` rounded to 53 significant bits, ties to even.
pub open spec fn f64_value(n: nat) -> nat {
    let p = pow2(dropped_bits(n));
    round_half_even(n, p) * p
}

/// `x` in hundredths, rounded to the nearest with ties to even, as `{:.2}` prints it,
/// where `x` is `n as f64` divided by `unit`.
pub open spec fn hundredths(n: nat, unit: nat) -> nat {
    round_half_even(f64_value(n) * 100, unit)
}

/// A count of hundredths written with two decimals.
pub open spec fn two_decimals(h: nat) -> Seq<char> {
    decimal(h / 100) + seq!['.', digit((h % 100) / 10), digit(h % 10)]
}

pub open spec fn format_bytes_spec(n: u64) -> Seq<char> {
    if n >= 1073741824 {
        two_decimals(hundredths(n as nat, 1073741824)) + " GiB"@
    } else if n >= 1048576 {
        two_decimals(hundredths(n as nat, 1048576)) + " MiB"@
    } else if n >= 1024 {
        two_decimals(hundredths(n as nat, 1024)) + " KiB"@
    } else {
        decimal(n as nat) + " B"@
    }
}

fn round_half_even_exec(num: u128, den: u128) -> (r: u128)
    requires
        0 < den <= 0x1_0000_0000_0000_0000,
        num <= 0x1_0000_0000_0000_1000 * 100,
    ensures
        r == round_half_even(num as nat, den as nat),
{
    let q = num / den;
    let rem = num % den;
    if 2 * rem > den || (2 * rem == den && q % 2 == 1) {
        q + 1
    } else {
        q
    }
}

/// The integer value of `n as f64`.
fn f64_value_exec(n: u64) -> (m: u128)
    ensures
        m == f64_value(n as nat),
        m <= 0x1_0000_0000_0000_1000,
{
    let mut q: u64 = n;
    let mut p: u64 = 1;
    let mut r: u64 = 0;
    let ghost mut e: nat = 0;
    while q >= 9007199254740992
        invariant
            dropped_bits(n as nat) == e + dropped_bits(q as nat),
            p == pow2(e),
            n == q * p + r,
            r < p,
            p <= 4096,
        decreases q,
    {
        proof {
            assert((q / 2) * (2 * p) <= n) by (nonlinear_arith)
                requires
                    n == q * p + r,
                    r < p,
            ;
            assert(4503599627370496 * (2 * p) <= (q / 2) * (2 * p)) by (nonlinear_arith)
                requires
                    q >= 9007199254740992,
            ;
            assert(2 * p <= 4096);
            assert(n == (q / 2) * (2 * p) + ((q % 2) * p + r)) by (nonlinear_arith)
                requires
                    n == q * p + r,
            ;
            assert((q % 2) * p + r < 2 * p) by (nonlinear_arith)
                requires
                    r < p,
                    q % 2 < 2,
            ;
        }
        r = (q % 2) * p + r;
        q = q / 2;
        p = 2 * p;
        proof {
            e = e + 1;
        }
    }
    proof {
        vstd::arithmetic::div_mod::lemma_fundamental_div_mod_converse(n as int, p as int, q as int, r as int);
        assert(dropped_bits(n as nat) == e);
    }
    let qr = round_half_even_exec(n as u128, p as u128);
    proof {
        assert(qr <= q + 1);
        assert(qr * p <= n + p) by (nonlinear_arith)
            requires
                qr <= q + 1,
                n == q * p + r,
        ;
    }
    qr * (p as u128)
}

/// Appends a count of hundredths with two decimals.
fn push_two_decimals(s: &mut String, h: u128)
    requires
        h <= u64::MAX,
    ensures
        final(s)@ == old(s)@ + two_decimals(h as nat),
{
    push_decimal(s, (h / 100) as u64);
    push_char(s, '.');
    push_char(s, digit_char(((h % 100) / 10) as u8));
    push_char(s, digit_char((h % 10) as u8));
    proof {
        assert(final(s)@ =~= old(s)@ + two_decimals(h as nat));
    }
}

/// Formats a byte count: plain bytes below 1024, else KiB, MiB or GiB (powers of 1024)
/// with two decimals, rounded as `{:.2}` rounds the count converted to `f64`.
pub fn format_bytes(n: u64) -> (s: String)
    ensures
        s@ == format_bytes_spec(n),
{
    let mut s = String::new();
    if n >= 1024 {
        let unit: u128 = if n >= 1073741824 {
            1073741824
        } else if n >= 1048576 {
            1048576
        } else {
            1024
        };
        let m = f64_value_exec(n);
        let h = round_half_even_exec(m * 100, unit);
        proof {
            let num: int = m as int * 100;
            assert(h <= num / (unit as int) + 1);
            assert(num / (unit as int) <= num / 1024) by {
                vstd::arithmetic::div_mod::lemma_div_is_ordered_by_denominator(num, 1024, unit as int);
            }
            assert(num / 1024 <= 0x1_0000_0000_0000_1000int * 100 / 1024) by {
                vstd::arithmetic::div_mod::lemma_div_is_ordered(num, 0x1_0000_0000_0000_1000int * 100, 1024);
            }
        }
        push_two_decimals(&mut s, h);
        if n >= 1073741824 {
            push_str(&mut s, " GiB");
        } else if n >= 1048576 {
            push_str(&mut s, " MiB");
        } else {
            push_str(&mut s, " KiB");
        }
    } else {
        push_decimal(&mut s, n);
        push_str(&mut s, " B");
    }
    s
}

} // verus!
