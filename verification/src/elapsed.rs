//! Elapsed times as text: milliseconds, seconds with one decimal, or minutes and
//! seconds.
use vstd::prelude::*;
use crate::report::{
    as_double, bit_len, digit2, div_round_even, div_round_even_exec, lemma_bit_len_bound,
    lemma_pow2_mono, pow2,
};
use crate::text::{decimal, digit_char, push_char, push_decimal, push_str};

verus! {

broadcast use vstd::string::group_string_axioms;

/// The smallest `k` from `from` up to 30 with `n * 2^k` at least a billion.
pub open spec fn frac_shift(n: nat, from: nat) -> nat
    decreases 30 - from,
{
    if from >= 30 || n * pow2(from) >= 1_000_000_000 {
        from
    } else {
        frac_shift(n, from + 1)
    }
}

/// The binary exponent at which the fraction `nanos / 10^9` has 53 significant
/// bits as an integer.
pub open spec fn frac_scale(nanos: nat) -> nat {
    52 + frac_shift(nanos, 0)
}

/// The fraction `nanos / 10^9` as a 64-bit float, times `2^frac_scale(nanos)`: the
/// quotient rounded to 53 significant bits, ties to even.
pub open spec fn frac_scaled(nanos: nat) -> nat {
    div_round_even(nanos * pow2(frac_scale(nanos)), 1_000_000_000)
}

/// The seconds of a duration as a 64-bit float (`secs` plus the float fraction,
/// the sum rounded to 53 significant bits), times `2^frac_scale(nanos)`.
pub open spec fn seconds_scaled(secs: nat, nanos: nat) -> nat {
    as_double(secs * pow2(frac_scale(nanos)) + frac_scaled(nanos))
}

/// The seconds of a duration as a 64-bit float, in tenths, rounded to nearest,
/// ties to even.
pub open spec fn seconds_tenths(secs: nat, nanos: nat) -> nat {
    div_round_even(10 * seconds_scaled(secs, nanos), pow2(frac_scale(nanos)))
}

/// The whole milliseconds of a duration.
pub open spec fn total_millis(secs: u64, nanos: u32) -> nat {
    (secs as nat) * 1000 + (nanos as nat) / 1_000_000
}

/// An elapsed time as text: below a second the whole milliseconds and `ms`; below
/// a minute the seconds, taken as a 64-bit float, with one decimal and `s`;
/// otherwise whole minutes, `m`, the remaining whole seconds and `s`.
pub open spec fn duration_text(secs: u64, nanos: u32) -> Seq<char> {
    let ms = total_millis(secs, nanos);
    if ms < 1000 {
        decimal(ms) + "ms"@
    } else if ms < 60_000 {
        let t = seconds_tenths(secs as nat, nanos as nat);
        decimal(t / 10) + seq!['.', digit_char(t % 10), 's']
    } else {
        decimal((secs / 60) as nat) + seq!['m'] + decimal((secs % 60) as nat) + seq!['s']
    }
}

proof fn lemma_pow2_succ(k: nat)
    ensures
        pow2(k + 1) == 2 * pow2(k),
{
}

proof fn lemma_pow2_add(a: nat, b: nat)
    ensures
        pow2(a + b) == pow2(a) * pow2(b),
    decreases b,
{
    if b > 0 {
        let b1 = (b - 1) as nat;
        lemma_pow2_add(a, b1);
        assert(pow2(a + b) == 2 * pow2(a + b1));
        assert(pow2(b) == 2 * pow2(b1));
        let x = pow2(a);
        let y = pow2(b1);
        assert(x * (2 * y) == 2 * (x * y)) by (nonlinear_arith);
        assert(pow2(a) * pow2(b) == x * (2 * y));
    } else {
        assert(pow2(0) == 1);
        assert(a + b == a);
    }
}

proof fn lemma_pow2_facts()
    ensures
        pow2(30) == 0x4000_0000,
        pow2(52) == 0x10_0000_0000_0000,
        pow2(53) == 0x20_0000_0000_0000,
        pow2(82) == 0x4_0000_0000_0000_0000_0000,
        pow2(112) == 0x1_0000_0000_0000_0000_0000_0000_0000,
{
    lemma_pow2_small();
    lemma_pow2_add(52, 30);
    lemma_pow2_add(82, 30);
}

proof fn lemma_pow2_small()
    ensures
        pow2(30) == 0x4000_0000,
        pow2(52) == 0x10_0000_0000_0000,
        pow2(53) == 0x20_0000_0000_0000,
{
    reveal_with_fuel(pow2, 54);
}

/// The shift that `frac_shift` finds, computed from `from` upwards.
fn frac_shift_exec(n: u64) -> (r: (u64, u128))
    requires
        n < 1_000_000_000,
    ensures
        r.0 == frac_shift(n as nat, 0),
        r.0 <= 30,
        r.1 == pow2(r.0 as nat),
{
    let mut k: u64 = 0;
    let mut p: u128 = 1;
    proof {
        lemma_pow2_facts();
    }
    while k < 30 && (n as u128) * p < 1_000_000_000
        invariant
            k <= 30,
            p == pow2(k as nat),
            p <= 0x4000_0000,
            (n as u128) * p <= 2_000_000_000,
            frac_shift(n as nat, 0) == frac_shift(n as nat, k as nat),
            n < 1_000_000_000,
        decreases 30 - k,
    {
        proof {
            lemma_pow2_succ(k as nat);
            lemma_pow2_mono((k + 1) as nat, 30);
            lemma_pow2_facts();
        }
        assert((n as u128) * (p * 2) == 2 * ((n as u128) * p)) by (nonlinear_arith);
        p = p * 2;
        k = k + 1;
    }
    (k, p)
}

/// `n` rounded to 53 significant bits, ties to even.
fn round_to_double(n: u128) -> (r: u128)
    requires
        n < 0x1_0000_0000_0000_0000_0000_0000_0000,
    ensures
        r == as_double(n as nat),
        r <= 2 * n,
{
    let mut m = n;
    let mut bl: u64 = 0;
    proof {
        lemma_pow2_facts();
        lemma_bit_len_bound(n as nat, 112);
    }
    while m > 0
        invariant
            bl + bit_len(m as nat) == bit_len(n as nat),
            bit_len(n as nat) <= 112,
        decreases m,
    {
        m = m / 2;
        bl = bl + 1;
    }
    if bl <= 53 {
        return n;
    }
    let e = bl - 53;
    let mut p: u128 = 1;
    let mut k: u64 = 0;
    while k < e
        invariant
            k <= e,
            e <= 59,
            p == pow2(k as nat),
            p <= 0x800_0000_0000_0000,
            p >= 1,
        decreases e - k,
    {
        proof {
            lemma_pow2_succ(k as nat);
            lemma_pow2_mono((k + 1) as nat, 59);
            reveal_with_fuel(pow2, 60);
        }
        p = p * 2;
        k = k + 1;
    }
    proof {
        lemma_pow2_mono(e as nat, (bit_len(n as nat) - 1) as nat);
        lemma_bit_len_low(n as nat);
    }
    let q = div_round_even_exec(n, p);
    assert(q * p <= 2 * n) by (nonlinear_arith)
        requires
            q <= n / p + 1,
            p <= n,
            p >= 1,
    ;
    q * p
}

/// A positive `n` is at least `2^(bit_len(n) - 1)`.
proof fn lemma_bit_len_low(n: nat)
    requires
        n > 0,
    ensures
        pow2((bit_len(n) - 1) as nat) <= n,
    decreases n,
{
    if n >= 2 {
        lemma_bit_len_low(n / 2);
        assert(bit_len(n / 2) >= 1);
        assert(bit_len(n) == 1 + bit_len(n / 2));
        assert(pow2((bit_len(n) - 1) as nat) == pow2(bit_len(n / 2)));
        assert(pow2(bit_len(n / 2)) == 2 * pow2((bit_len(n / 2) - 1) as nat));
        assert(2 * (n / 2) <= n);
    } else {
        assert(bit_len(n) == 1 + bit_len(n / 2));
        assert(bit_len(0) == 0);
        assert(pow2(0) == 1);
    }
}

/// The seconds of a duration of `secs` seconds and `nanos` nanoseconds, taken as a
/// 64-bit float, in tenths.
fn seconds_tenths_exec(secs: u64, nanos: u32) -> (t: u128)
    requires
        secs < 64,
        nanos < 1_000_000_000,
    ensures
        t == seconds_tenths(secs as nat, nanos as nat),
{
    let (k, pk) = frac_shift_exec(nanos as u64);
    proof {
        lemma_pow2_facts();
        lemma_pow2_add(52, k as nat);
        lemma_pow2_mono(k as nat, 30);
        lemma_pow2_mono(0, k as nat);
        assert(pow2(0) == 1);
    }
    let pe: u128 = pk * 0x10_0000_0000_0000;
    assert(pe == pow2(frac_scale(nanos as nat)));
    assert(pe <= 0x4_0000_0000_0000_0000_0000);
    assert((nanos as u128) * pe < 0x1_0000_0000_0000_0000_0000_0000_0000) by (nonlinear_arith)
        requires
            nanos < 1_000_000_000,
            pe <= 0x4_0000_0000_0000_0000_0000,
    ;
    let q = div_round_even_exec((nanos as u128) * pe, 1_000_000_000);
    assert(q <= (nanos as u128) * pe / 1_000_000_000 + 1);
    assert(q <= 0x4_0000_0000_0000_0000_0000) by (nonlinear_arith)
        requires
            q <= (nanos as u128) * pe / 1_000_000_000 + 1,
            nanos < 1_000_000_000,
            pe <= 0x4_0000_0000_0000_0000_0000,
    ;
    assert((secs as u128) * pe <= 64 * 0x4_0000_0000_0000_0000_0000) by (nonlinear_arith)
        requires
            secs < 64,
            pe <= 0x4_0000_0000_0000_0000_0000,
    ;
    let x = (secs as u128) * pe + q;
    let d = round_to_double(x);
    div_round_even_exec(10 * d, pe)
}

/// An elapsed time of `secs` seconds and `nanos` nanoseconds as text, such as
/// `250ms`, `1.2s` or `3m5s`.
pub fn format_duration(secs: u64, nanos: u32) -> (r: String)
    requires
        nanos < 1_000_000_000,
    ensures
        r@ == duration_text(secs, nanos),
{
    let mut r = String::new();
    if secs < 1 {
        let ms = (nanos / 1_000_000) as u128;
        push_decimal(&mut r, ms);
        push_str(&mut r, "ms");
        assert(r@ =~= duration_text(secs, nanos));
    } else if secs < 60 {
        let t = seconds_tenths_exec(secs, nanos);
        push_decimal(&mut r, t / 10);
        push_char(&mut r, '.');
        push_char(&mut r, digit2(t % 10));
        push_char(&mut r, 's');
        assert(r@ =~= duration_text(secs, nanos));
    } else {
        push_decimal(&mut r, (secs / 60) as u128);
        push_char(&mut r, 'm');
        push_decimal(&mut r, (secs % 60) as u128);
        push_char(&mut r, 's');
        assert(r@ =~= duration_text(secs, nanos));
    }
    r
}

} // verus!
