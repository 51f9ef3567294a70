//! Short line counts ("12.3k", "2.5M"), computed in integers exactly as the
//! double-precision arithmetic and one-decimal formatting would give them.
use vstd::prelude::*;
use vstd::arithmetic::power2::{pow2, lemma_pow2_unfold, lemma_pow2_strictly_increases, lemma2_to64_rest};
use crate::text::{dec, digit_char, push_u128, push_u64, digit_for};

verus! {

/// `num / den` rounded to the nearest integer, ties to the even one.
pub open spec fn round_half_even(num: nat, den: nat) -> nat {
    let q = num / den;
    let r = num % den;
    if 2 * r > den || (2 * r == den && q % 2 == 1) {
        q + 1
    } else {
        q
    }
}

/// The smallest `j >= from` (up to 11) with `n < 2^53 * 2^j`: rounding `n` to the
/// 53 significant bits of a double keeps multiples of `2^j`.
pub open spec fn f64_shift(n: nat, from: nat) -> nat
    decreases 11 - from,
{
    if from >= 11 || n < 0x20_0000_0000_0000 * pow2(from) {
        from
    } else {
        f64_shift(n, from + 1)
    }
}

/// The value of `n as f64` for `n < 2^64`: `n` rounded to 53 significant bits,
/// ties to even.
pub open spec fn f64_value(n: nat) -> nat {
    let j = f64_shift(n, 0);
    round_half_even(n, pow2(j)) * pow2(j)
}

/// The smallest `k >= from` (up to 52) with `x * 2^k >= 2^52 * d`: the quotient
/// `x / d` has a 53-bit significand when scaled by `2^k`.
pub open spec fn quot_shift(x: nat, d: nat, from: nat) -> nat
    decreases 52 - from,
{
    if from >= 52 || x * pow2(from) >= 0x10_0000_0000_0000 * d {
        from
    } else {
        quot_shift(x, d, from + 1)
    }
}

/// Tenths of the double nearest to `x / d` (with `d <= x`), rounded to the nearest
/// tenth with ties to even, as the format spec `{:.1}` prints them: the quotient
/// is `m / 2^k` with `m` the rounded 53-bit significand.
pub open spec fn tenths_of_quotient(x: nat, d: nat) -> nat {
    let k = quot_shift(x, d, 0);
    let m = round_half_even(x * pow2(k), d);
    round_half_even(10 * m, pow2(k))
}

/// A number of tenths written with one decimal: "12.3".
pub open spec fn one_decimal(t: nat) -> Seq<char> {
    dec(t / 10) + seq!['.', digit_char(t % 10)]
}

/// What `human_lines` prints for `n`: below 1000 the number itself; below a million
/// `n as f64 / 1000.0` with one decimal and "k"; else `n as f64 / 1_000_000.0` with
/// one decimal and "M".
pub open spec fn human_spec(n: nat) -> Seq<char> {
    if n >= 1_000_000 {
        one_decimal(tenths_of_quotient(f64_value(n), 1_000_000)) + seq!['M']
    } else if n >= 1000 {
        one_decimal(tenths_of_quotient(n, 1000)) + seq!['k']
    } else {
        dec(n)
    }
}

proof fn lemma_pow2_bound(k: nat)
    requires
        k <= 52,
    ensures
        pow2(k) <= 0x10_0000_0000_0000,
        pow2(k) >= 1,
{
    lemma2_to64_rest();
    if k < 52 {
        lemma_pow2_strictly_increases(k, 52);
    }
    vstd::arithmetic::power2::lemma_pow2_pos(k);
}

proof fn lemma_f64_shift_bound(n: nat, from: nat)
    requires
        from <= 11,
    ensures
        from <= f64_shift(n, from) <= 11,
    decreases 11 - from,
{
    if !(from >= 11 || n < 0x20_0000_0000_0000 * pow2(from)) {
        lemma_f64_shift_bound(n, from + 1);
    }
}

proof fn lemma_f64_value_at_least(n: nat)
    requires
        1_000_000 <= n,
    ensures
        f64_value(n) >= 1_000_000,
{
    let j = f64_shift(n, 0);
    lemma_f64_shift_bound(n, 0);
    lemma_pow2_bound(j);
    vstd::arithmetic::power2::lemma2_to64();
    let p = pow2(j);
    let q = n / p;
    assert(q * p >= n - p + 1) by (nonlinear_arith)
        requires
            q == n / p,
            p >= 1,
    ;
    if j > 0 {
        assert(n >= 0x20_0000_0000_0000);
        assert(p <= 0x800) by {
            if j < 11 {
                lemma_pow2_strictly_increases(j, 11);
            }
        }
    } else {
        assert(p == 1);
    }
    assert(round_half_even(n, p) >= q);
    assert(round_half_even(n, p) * p >= q * p) by (nonlinear_arith)
        requires
            round_half_even(n, p) >= q,
            p >= 1,
    ;
}

/// `num / den` rounded to the nearest integer, ties to even.
fn round_half_even_exec(num: u128, den: u128) -> (r: u128)
    requires
        den > 0,
        num <= 0x1000_0000_0000_0000_0000_0000_0000_0000,
    ensures
        r == round_half_even(num as nat, den as nat),
        r <= num / den + 1,
{
    let q = num / den;
    let r = num % den;
    assert(q <= num) by (nonlinear_arith)
        requires
            q == num / den,
            den > 0,
    ;
    if r > den - r || (r == den - r && q % 2 == 1) {
        q + 1
    } else {
        q
    }
}

proof fn lemma_round_bound(num: nat, den: nat)
    requires
        den > 0,
    ensures
        round_half_even(num, den) * den <= num + den,
{
    let q = num / den;
    assert(q * den <= num) by (nonlinear_arith)
        requires
            q == num / den,
            den > 0,
    ;
    assert((q + 1) * den == q * den + den) by (nonlinear_arith);
}

/// The value of `n as f64`, computed in integers.
fn f64_of_u64(n: u64) -> (x: u128)
    ensures
        x == f64_value(n as nat),
        x <= 0x1_0000_0000_0000_0000 + 0x1000,
{
    let mut j: u64 = 0;
    let mut p: u128 = 1;
    proof {
        vstd::arithmetic::power2::lemma_pow2_pos(0);
        assert(pow2(0) == 1) by {
            vstd::arithmetic::power2::lemma2_to64();
        }
    }
    while j < 11 && (n as u128) >= 0x20_0000_0000_0000 * p
        invariant
            j <= 11,
            p == pow2(j as nat),
            1 <= p <= 0x800,
            f64_shift(n as nat, j as nat) == f64_shift(n as nat, 0),
        decreases 11 - j,
    {
        proof {
            lemma_pow2_unfold((j + 1) as nat);
            vstd::arithmetic::power2::lemma2_to64();
            if j + 1 < 11 {
                lemma_pow2_strictly_increases((j + 1) as nat, 11);
            }
        }
        j = j + 1;
        p = p * 2;
    }
    let m = round_half_even_exec(n as u128, p);
    proof {
        lemma_round_bound(n as nat, p as nat);
    }
    m * p
}

/// Tenths of the double nearest to `x / d`, as `{:.1}` rounds them.
fn tenths_exec(x: u128, d: u128) -> (t: u128)
    requires
        1 <= d <= x <= 0x1_0000_0000_0000_0000 + 0x1000,
    ensures
        t == tenths_of_quotient(x as nat, d as nat),
{
    let mut k: u64 = 0;
    let mut p: u128 = 1;
    proof {
        assert(pow2(0) == 1) by {
            vstd::arithmetic::power2::lemma2_to64();
        }
    }
    proof {
        vstd::arithmetic::mul::lemma_mul_upper_bound(
            x as int,
            0x1_0000_0000_0000_1000int,
            p as int,
            0x10_0000_0000_0000,
        );
    }
    while k < 52 && x * p < 0x10_0000_0000_0000 * d
        invariant
            k <= 52,
            p == pow2(k as nat),
            1 <= p <= 0x10_0000_0000_0000,
            1 <= d <= x <= 0x1_0000_0000_0000_0000 + 0x1000,
            x * p <= 0x10_0000_0000_0001_0000_0000_0000_0000,
            quot_shift(x as nat, d as nat, k as nat) == quot_shift(x as nat, d as nat, 0),
        decreases 52 - k,
    {
        proof {
            lemma_pow2_unfold((k + 1) as nat);
            lemma_pow2_bound((k + 1) as nat);
        }
        k = k + 1;
        p = p * 2;
        proof {
            vstd::arithmetic::mul::lemma_mul_upper_bound(
                x as int,
                0x1_0000_0000_0000_1000int,
                p as int,
                0x10_0000_0000_0000,
            );
        }
    }
    let xp: u128 = x * p;
    assert(xp <= 0x10_0000_0000_0001_0000_0000_0000_0000);
    let m = round_half_even_exec(xp, d);
    assert(m <= xp + 1) by (nonlinear_arith)
        requires
            m <= xp / d + 1,
            d >= 1,
    ;
    round_half_even_exec(10 * m, p)
}

/// Appends a number of tenths with one decimal.
fn push_one_decimal(out: &mut String, t: u128)
    ensures
        final(out)@ == old(out)@ + one_decimal(t as nat),
{
    push_u128(out, t / 10);
    out.push('.');
    out.push(digit_for((t % 10) as u64));
    assert(out@ =~= old(out)@ + one_decimal(t as nat));
}

/// Short form of a line count: "999", "1.2k", "2.5M".
pub fn human_lines(n: u64) -> (r: String)
    ensures
        r@ == human_spec(n as nat),
{
    let mut s = String::new();
    if n >= 1_000_000 {
        let x = f64_of_u64(n);
        proof {
            lemma_f64_value_at_least(n as nat);
        }
        let t = tenths_exec(x, 1_000_000);
        push_one_decimal(&mut s, t);
        s.push('M');
    } else if n >= 1000 {
        let t = tenths_exec(n as u128, 1000);
        push_one_decimal(&mut s, t);
        s.push('k');
    } else {
        push_u64(&mut s, n);
    }
    assert(s@ =~= human_spec(n as nat));
    s
}

} // verus!
