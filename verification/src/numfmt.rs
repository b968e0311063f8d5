//! Decimal rendering of counters and byte totals.

use vstd::prelude::*;
use vstd::arithmetic::power2::pow2;
use crate::bytes::{append_bytes, lit};

verus! {

/// Decimal digits of `n`, most significant first.
pub open spec fn spec_decimal(n: nat) -> Seq<u8>
    decreases n,
{
    if n < 10 {
        seq![(48 + n) as u8]
    } else {
        spec_decimal(n / 10) + seq![(48 + n % 10) as u8]
    }
}

/// Decimal digits of `n`, padded with a leading zero to at least two.
pub open spec fn spec_pad2(n: nat) -> Seq<u8> {
    if n < 10 { seq![48u8] + spec_decimal(n) } else { spec_decimal(n) }
}

/// `num / den` rounded to the nearest integer, ties to even.
pub open spec fn spec_round_div(num: nat, den: nat) -> nat
    recommends
        den > 0,
{
    let q = num / den;
    let r = num % den;
    if 2 * r > den || (2 * r == den && q % 2 == 1) { q + 1 } else { q }
}

/// `num / den` written with one decimal, rounded half to even.
pub open spec fn spec_fixed1(num: nat, den: nat) -> Seq<u8> {
    let v = spec_round_div(num * 10, den);
    spec_decimal(v / 10) + seq![46u8] + spec_decimal(v % 10)
}

/// `num / den` written with two decimals, rounded half to even.
pub open spec fn spec_fixed2(num: nat, den: nat) -> Seq<u8> {
    let v = spec_round_div(num * 100, den);
    spec_decimal(v / 100) + seq![46u8] + spec_pad2(v % 100)
}

/// How many low bits of `b` a 53-bit significand cannot hold.
pub open spec fn spec_bit_shift(b: nat) -> nat
    decreases b,
{
    if b < 0x20_0000_0000_0000 { 0 } else { 1 + spec_bit_shift(b / 2) }
}

/// The value of `b` converted to the nearest double (ties to even): `b`
/// itself below 2^53, above it the nearest multiple of the unit in the
/// last place.
pub open spec fn spec_f64_round(b: nat) -> nat {
    if b < 0x20_0000_0000_0000 {
        b
    } else {
        let p = pow2(spec_bit_shift(b));
        let q = b / p;
        let r = b % p;
        if r > p / 2 || (r == p / 2 && q % 2 == 1) { (q + 1) * p } else { q * p }
    }
}

/// A byte total in human units: plain bytes below 1 KiB, then KiB and
/// MiB with one decimal, then GiB with two.
pub open spec fn spec_fmt_bytes(b: u64) -> Seq<u8> {
    if b < 1024 {
        spec_decimal(b as nat) + lit(" B")
    } else if b < 1048576 {
        spec_fixed1(b as nat, 1024) + lit(" KB")
    } else if b < 1073741824 {
        spec_fixed1(b as nat, 1048576) + lit(" MB")
    } else {
        spec_fixed2(spec_f64_round(b as nat), 1073741824) + lit(" GB")
    }
}

/// Decimal digits are ASCII.
pub proof fn lemma_decimal_ascii(n: nat)
    ensures
        crate::text::is_ascii_bytes(spec_decimal(n)),
    decreases n,
{
    if n >= 10 {
        lemma_decimal_ascii(n / 10);
    }
}

/// Human-readable byte totals are ASCII.
pub proof fn lemma_fmt_bytes_ascii(b: u64)
    ensures
        crate::text::is_ascii_bytes(spec_fmt_bytes(b)),
{
    reveal_strlit(" B");
    reveal_strlit(" KB");
    reveal_strlit(" MB");
    reveal_strlit(" GB");
    vstd::utf8::is_ascii_chars_encode_utf8(" B"@);
    vstd::utf8::is_ascii_chars_encode_utf8(" KB"@);
    vstd::utf8::is_ascii_chars_encode_utf8(" MB"@);
    vstd::utf8::is_ascii_chars_encode_utf8(" GB"@);
    lemma_decimal_ascii(b as nat);
    let v1 = spec_round_div((b as nat) * 10, 1024);
    let v2 = spec_round_div((b as nat) * 10, 1048576);
    let v3 = spec_round_div(spec_f64_round(b as nat) * 100, 1073741824);
    lemma_decimal_ascii(v1 / 10);
    lemma_decimal_ascii(v1 % 10);
    lemma_decimal_ascii(v2 / 10);
    lemma_decimal_ascii(v2 % 10);
    lemma_decimal_ascii(v3 / 100);
    lemma_decimal_ascii(v3 % 100);
    let s = spec_fmt_bytes(b);
    assert forall|i: int| 0 <= i < s.len() implies #[trigger] s[i] < 128 by {
        if b < 1024 {
        } else if b < 1048576 {
        } else if b < 1073741824 {
        } else {
        }
    }
}

/// Append the decimal digits of `n`.
pub fn push_decimal(out: &mut Vec<u8>, n: u128)
    ensures
        final(out)@ == old(out)@ + spec_decimal(n as nat),
    decreases n,
{
    if n >= 10 {
        push_decimal(out, n / 10);
    }
    out.push((48 + n % 10) as u8);
    proof {
        if n < 10 {
            assert(n % 10 == n);
        }
    }
}

/// Append `n` with at least two digits.
pub fn push_pad2(out: &mut Vec<u8>, n: u128)
    ensures
        final(out)@ == old(out)@ + spec_pad2(n as nat),
{
    if n < 10 {
        out.push(48);
    }
    push_decimal(out, n);
    assert(final(out)@ =~= old(out)@ + spec_pad2(n as nat)) by {
        if n < 10 {
            assert(old(out)@ + spec_pad2(n as nat) =~= old(out)@.push(48u8) + spec_decimal(n as nat));
        }
    }
}

fn round_div(num: u128, den: u128) -> (r: u128)
    requires
        den > 0,
        num / den + 1 <= u128::MAX,
    ensures
        r == spec_round_div(num as nat, den as nat),
{
    let q = num / den;
    let r = num % den;
    assert(r < den);
    if (r > den - r) || (r == den - r && q % 2 == 1) { q + 1 } else { q }
}

/// Append `num / den` with one decimal.
fn push_fixed1(out: &mut Vec<u8>, num: u128, den: u128)
    requires
        den > 0,
        num <= 0x1_0000_0000_0000_0000,
    ensures
        final(out)@ == old(out)@ + spec_fixed1(num as nat, den as nat),
{
    assert(((num * 10) as int) / (den as int) <= num * 10) by (nonlinear_arith) requires den > 0;
    let v = round_div(num * 10, den);
    push_decimal(out, v / 10);
    out.push(46);
    push_decimal(out, v % 10);
    assert(final(out)@ =~= old(out)@ + spec_fixed1(num as nat, den as nat));
}

/// Append `num / den` with two decimals.
fn push_fixed2(out: &mut Vec<u8>, num: u128, den: u128)
    requires
        den > 0,
        num <= 0x2_0000_0000_0000_0000,
    ensures
        final(out)@ == old(out)@ + spec_fixed2(num as nat, den as nat),
{
    assert(((num * 100) as int) / (den as int) <= num * 100) by (nonlinear_arith) requires den > 0;
    let v = round_div(num * 100, den);
    push_decimal(out, v / 100);
    out.push(46);
    push_pad2(out, v % 100);
    assert(final(out)@ =~= old(out)@ + spec_fixed2(num as nat, den as nat));
}

/// `b` converted to the nearest double, as an exact integer.
fn f64_round(b: u64) -> (r: u128)
    ensures
        r == spec_f64_round(b as nat),
        r <= 0x2_0000_0000_0000_0000,
{
    if b < 0x20_0000_0000_0000 {
        return b as u128;
    }
    let mut t: u64 = b;
    let ghost mut k: nat = 0;
    let mut p: u128 = 1;
    proof { vstd::arithmetic::power::lemma_pow0(2); }
    while t >= 0x20_0000_0000_0000
        invariant
            spec_bit_shift(b as nat) == k + spec_bit_shift(t as nat),
            p == pow2(k),
            p * t <= b,
            1 <= t,
        decreases t,
    {
        proof {
            vstd::arithmetic::power2::lemma_pow2_unfold(k + 1);
            assert(2 * (t / 2) <= t) by (nonlinear_arith);
            assert(p * 2 * (t / 2) <= p * t) by (nonlinear_arith) requires 2 * (t / 2) <= t, p >= 0;
            assert(p * 2 <= b) by (nonlinear_arith) requires p * t <= b, t >= 2;
        }
        t = t / 2;
        proof { k = k + 1; }
        p = p * 2;
    }
    proof {
        assert(p >= 1) by { vstd::arithmetic::power2::lemma_pow2_pos(k); }
        assert(p <= b) by (nonlinear_arith) requires p * t <= b, t >= 1, p >= 1;
    }
    let bb = b as u128;
    let q = bb / p;
    let r = bb % p;
    proof {
        assert(q * p + r == bb) by (nonlinear_arith) requires q == bb / p, r == bb % p, p > 0;
        assert(q * p <= bb) by (nonlinear_arith) requires q * p + r == bb, r >= 0;
        assert((q + 1) * p == q * p + p) by (nonlinear_arith);
    }
    if r > p / 2 || (r == p / 2 && q % 2 == 1) {
        (q + 1) * p
    } else {
        q * p
    }
}

/// Append `b` in human units.
pub fn push_fmt_bytes(out: &mut Vec<u8>, b: u64)
    ensures
        final(out)@ == old(out)@ + spec_fmt_bytes(b),
{
    if b < 1024 {
        push_decimal(out, b as u128);
        append_bytes(out, " B".as_bytes());
    } else if b < 1048576 {
        push_fixed1(out, b as u128, 1024);
        append_bytes(out, " KB".as_bytes());
    } else if b < 1073741824 {
        push_fixed1(out, b as u128, 1048576);
        append_bytes(out, " MB".as_bytes());
    } else {
        let r = f64_round(b);
        push_fixed2(out, r, 1073741824);
        append_bytes(out, " GB".as_bytes());
    }
    assert(final(out)@ =~= old(out)@ + spec_fmt_bytes(b));
}

} // verus!
