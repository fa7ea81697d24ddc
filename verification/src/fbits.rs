//! Widening an IEEE-754 binary32 bit pattern to the binary64 bit
//! pattern naming the same number, in pure integer arithmetic. The
//! widening is exact for every 32-bit pattern: normal and subnormal
//! numbers, zeros, infinities and NaN payloads each map to the
//! binary64 pattern with the same sign, value and payload.

use vstd::prelude::*;

verus! {

/// 2 to the power `n`.
pub open spec fn pow2(n: nat) -> nat
    decreases n,
{
    if n == 0 {
        1
    } else {
        2 * pow2((n - 1) as nat)
    }
}

/// The position of the highest set bit: `2^msb_pos(f) <= f < 2^(msb_pos(f)+1)`
/// for `f >= 1`.
pub open spec fn msb_pos(f: nat) -> nat
    decreases f,
{
    if f < 2 {
        0
    } else {
        (1 + msb_pos(f / 2)) as nat
    }
}

/// The binary64 bit pattern naming the same number as the binary32
/// bit pattern `b`: the exponent is re-biased from 127 to 1023 and
/// the 23-bit fraction widened to 52 bits; subnormal inputs are
/// normalized; infinities and NaNs keep their payload, shifted.
pub open spec fn widen32(b: u32) -> u64 {
    let sign: nat = b as nat / 0x8000_0000;
    let e: nat = (b as nat / 0x80_0000) % 0x100;
    let f: nat = b as nat % 0x80_0000;
    let wide: nat = if e == 0xFF {
        // infinity or NaN: all-ones exponent, fraction shifted up
        sign * 0x8000_0000_0000_0000 + 2047 * 0x10_0000_0000_0000 + f * 0x2000_0000
    } else if e == 0 && f == 0 {
        // signed zero
        sign * 0x8000_0000_0000_0000
    } else if e == 0 {
        // subnormal: value f * 2^-149 becomes a normal binary64
        let m = msb_pos(f);
        sign * 0x8000_0000_0000_0000 + (m + 874) * 0x10_0000_0000_0000 + ((f - pow2(m)) as nat)
            * pow2((52 - m) as nat)
    } else {
        // normal: same fraction, exponent re-biased
        sign * 0x8000_0000_0000_0000 + (e + 896) * 0x10_0000_0000_0000 + f * 0x2000_0000
    };
    wide as u64
}

proof fn lemma_pow2_values()
    ensures
        pow2(0) == 1,
        pow2(22) == 0x40_0000,
        pow2(23) == 0x80_0000,
        pow2(29) == 0x2000_0000,
        pow2(30) == 0x4000_0000,
        pow2(52) == 0x10_0000_0000_0000,
        pow2(61) == 0x2000_0000_0000_0000,
        pow2(32) == 0x1_0000_0000,
{
    reveal_with_fuel(pow2, 53);
}

proof fn lemma_pow2_mono(a: nat, b: nat)
    requires
        a <= b,
    ensures
        pow2(a) <= pow2(b),
    decreases b,
{
    if a < b {
        lemma_pow2_mono(a, (b - 1) as nat);
    }
}

proof fn lemma_pow2_add(a: nat, b: nat)
    ensures
        pow2(a + b) == pow2(a) * pow2(b),
    decreases a,
{
    if a > 0 {
        lemma_pow2_add((a - 1) as nat, b);
        let x = pow2((a - 1) as nat);
        let y = pow2(b);
        assert(((a - 1) as nat) + b == (a + b - 1) as nat);
        assert(pow2((a + b - 1) as nat) == x * y);
        assert(pow2(a + b) == 2 * pow2((a + b - 1) as nat));
        assert(2 * (x * y) == (2 * x) * y) by (nonlinear_arith);
        assert(pow2(a) == 2 * x);
        assert(pow2(a + b) == pow2(a) * pow2(b));
    } else {
        assert(a == 0);
        assert(pow2(a) == 1);
        assert(pow2(a + b) == pow2(b));
        assert(1 * pow2(b) == pow2(b)) by (nonlinear_arith);
    }
}

/// For `f >= 1`, the highest set bit brackets the value.
proof fn lemma_msb_pos(f: nat)
    requires
        f >= 1,
    ensures
        pow2(msb_pos(f)) <= f < pow2(msb_pos(f) + 1),
    decreases f,
{
    if f >= 2 {
        lemma_msb_pos(f / 2);
    }
}

/// For `f < 2^23`, the highest set bit is below position 23.
proof fn lemma_msb_below(f: nat, k: nat)
    requires
        1 <= f,
        f < pow2(k),
    ensures
        msb_pos(f) < k,
{
    lemma_msb_pos(f);
    if msb_pos(f) >= k {
        lemma_pow2_mono(k, msb_pos(f));
    }
}

/// Computes `2^n` as a machine word, for `n` at most 62.
fn pow2_u64(n: usize) -> (r: u64)
    requires
        n <= 62,
    ensures
        r == pow2(n as nat),
{
    let mut r: u64 = 1;
    let mut i: usize = 0;
    while i < n
        invariant
            i <= n <= 62,
            r == pow2(i as nat),
        decreases n - i,
    {
        proof {
            lemma_pow2_mono(i as nat, 61);
            lemma_pow2_values();
        }
        r = r * 2;
        i = i + 1;
    }
    r
}

/// The position of the highest set bit of `f`, for `f >= 1`.
fn msb_pos_u32(f: u32) -> (r: usize)
    requires
        f >= 1,
    ensures
        r == msb_pos(f as nat),
        r <= 31,
{
    proof {
        lemma_pow2_values();
        lemma_msb_below(f as nat, 32);
    }
    let mut m: usize = 0;
    let mut t: u32 = f;
    while t >= 2
        invariant
            t >= 1,
            msb_pos(f as nat) == m + msb_pos(t as nat),
            msb_pos(f as nat) <= 31,
        decreases t,
    {
        t = t / 2;
        m = m + 1;
    }
    m
}

/// Widens a binary32 bit pattern to the binary64 pattern naming the
/// same number.
pub fn widen_bits32(b: u32) -> (r: u64)
    ensures
        r == widen32(b),
{
    proof {
        lemma_pow2_values();
    }
    let sign: u64 = (b / 0x8000_0000) as u64;
    let e: u64 = ((b / 0x80_0000) % 0x100) as u64;
    let f: u64 = (b % 0x80_0000) as u64;
    let wide: u64 = if e == 0xFF {
        sign * 0x8000_0000_0000_0000 + 2047 * 0x10_0000_0000_0000 + f * 0x2000_0000
    } else if e == 0 && f == 0 {
        sign * 0x8000_0000_0000_0000
    } else if e == 0 {
        let m = msb_pos_u32(#[verifier::truncate] (f as u32));
        proof {
            lemma_msb_below(f as nat, 23);
            lemma_msb_pos(f as nat);
            lemma_pow2_mono(msb_pos(f as nat) + 1, 23);
            lemma_pow2_add(msb_pos(f as nat), (52 - msb_pos(f as nat)) as nat);
            lemma_pow2_values();
            assert(pow2((52 - msb_pos(f as nat)) as nat) <= pow2(52)) by {
                lemma_pow2_mono((52 - msb_pos(f as nat)) as nat, 52);
            }
            assert((f - pow2(msb_pos(f as nat))) * pow2((52 - msb_pos(f as nat)) as nat)
                < pow2(msb_pos(f as nat)) * pow2((52 - msb_pos(f as nat)) as nat)) by (nonlinear_arith)
                requires
                    f as nat - pow2(msb_pos(f as nat)) < pow2(msb_pos(f as nat)),
                    pow2((52 - msb_pos(f as nat)) as nat) >= 1,
            ;
        }
        let p = pow2_u64(m);
        let q = pow2_u64(52 - m);
        sign * 0x8000_0000_0000_0000 + ((m as u64) + 874) * 0x10_0000_0000_0000 + (f - p) * q
    } else {
        sign * 0x8000_0000_0000_0000 + (e + 896) * 0x10_0000_0000_0000 + f * 0x2000_0000
    };
    wide
}


/// The widening is injective: distinct 32-bit patterns widen to
/// distinct 64-bit patterns, so a 32-bit float read loses nothing —
/// not even NaN payloads.
pub proof fn lemma_widen32_injective(a: u32, b: u32)
    requires
        widen32(a) == widen32(b),
    ensures
        a == b,
{
    lemma_widen32_parts(a);
    lemma_widen32_parts(b);
    let sa = a as nat / 0x8000_0000;
    let ea = (a as nat / 0x80_0000) % 0x100;
    let fa = a as nat % 0x80_0000;
    let sb = b as nat / 0x8000_0000;
    let eb = (b as nat / 0x80_0000) % 0x100;
    let fb = b as nat % 0x80_0000;
    let w = widen32(a) as nat;
    assert(sa == sb && wexp(a) == wexp(b) && wfrac(a) == wfrac(b));
    lemma_pow2_values_more();
    assert(ea < 0x100 && eb < 0x100) by {
        vstd::arithmetic::div_mod::lemma_mod_bound((a as nat / 0x80_0000) as int, 0x100);
        vstd::arithmetic::div_mod::lemma_mod_bound((b as nat / 0x80_0000) as int, 0x100);
    }
    assert(fa < 0x80_0000 && fb < 0x80_0000) by {
        vstd::arithmetic::div_mod::lemma_mod_bound(a as int, 0x80_0000);
        vstd::arithmetic::div_mod::lemma_mod_bound(b as int, 0x80_0000);
    }
    if fa >= 1 {
        lemma_msb_below(fa, 23);
    }
    if fb >= 1 {
        lemma_msb_below(fb, 23);
    }
    if ea == 0xFF {
        assert(eb == 0xFF);
        assert(fa * 0x2000_0000 == fb * 0x2000_0000);
        assert(fa == fb);
    } else if ea == 0 && fa == 0 {
        assert(eb == 0 && fb == 0);
    } else if ea == 0 {
        let ma = msb_pos(fa);
        assert(874 <= wexp(a) <= 896);
        assert(eb == 0 && fb != 0);
        let mb = msb_pos(fb);
        assert(ma == mb);
        lemma_msb_pos(fa);
        lemma_msb_pos(fb);
        let q = pow2((52 - ma) as nat);
        assert(q >= 1) by {
            lemma_pow2_mono(0, (52 - ma) as nat);
        }
        let da = (fa - pow2(ma)) as nat;
        let db = (fb - pow2(mb)) as nat;
        assert(da * q == db * q);
        assert(da == db) by (nonlinear_arith)
            requires
                da * q == db * q,
                q >= 1,
        ;
        assert(fa == fb);
    } else {
        assert(897 <= wexp(a) <= 1150);
        assert(!(eb == 0) && eb != 0xFF);
        assert(ea + 896 == eb + 896);
        assert(fa * 0x2000_0000 == fb * 0x2000_0000);
        assert(fa == fb);
    }
    lemma_u32_from_parts(a);
    lemma_u32_from_parts(b);
}

/// The exponent field of a widened pattern.
pub open spec fn wexp(b: u32) -> nat {
    let e: nat = (b as nat / 0x80_0000) % 0x100;
    let f: nat = b as nat % 0x80_0000;
    if e == 0xFF {
        2047
    } else if e == 0 && f == 0 {
        0
    } else if e == 0 {
        msb_pos(f) + 874
    } else {
        e + 896
    }
}

/// The fraction field of a widened pattern.
pub open spec fn wfrac(b: u32) -> nat {
    let e: nat = (b as nat / 0x80_0000) % 0x100;
    let f: nat = b as nat % 0x80_0000;
    if e == 0xFF {
        f * 0x2000_0000
    } else if e == 0 && f == 0 {
        0
    } else if e == 0 {
        let m = msb_pos(f);
        ((f - pow2(m)) as nat) * pow2((52 - m) as nat)
    } else {
        f * 0x2000_0000
    }
}

proof fn lemma_pow2_values_more()
    ensures
        pow2(0) == 1,
        pow2(22) == 0x40_0000,
        pow2(23) == 0x80_0000,
        pow2(29) == 0x2000_0000,
        pow2(31) == 0x8000_0000,
        pow2(52) == 0x10_0000_0000_0000,
        pow2(63) == 0x8000_0000_0000_0000,
{
    reveal_with_fuel(pow2, 64);
}

/// The widened pattern decomposes into the three fields: the sign at
/// bit 63, the 11-bit exponent below it, the 52-bit fraction at the
/// bottom — each recoverable by division, so the fields determine
/// each other.
proof fn lemma_widen32_parts(b: u32)
    ensures
        widen32(b) as nat / 0x8000_0000_0000_0000 == b as nat / 0x8000_0000,
        (widen32(b) as nat % 0x8000_0000_0000_0000) / 0x10_0000_0000_0000 == wexp(b),
        (widen32(b) as nat % 0x8000_0000_0000_0000) % 0x10_0000_0000_0000 == wfrac(b),
{
    lemma_pow2_values_more();
    let sign: nat = b as nat / 0x8000_0000;
    let e: nat = (b as nat / 0x80_0000) % 0x100;
    let f: nat = b as nat % 0x80_0000;
    assert(sign <= 1) by {
        assert((b as nat) < 0x1_0000_0000);
    }
    assert(e < 0x100) by {
        vstd::arithmetic::div_mod::lemma_mod_bound((b as nat / 0x80_0000) as int, 0x100);
    }
    assert(f < 0x80_0000) by {
        vstd::arithmetic::div_mod::lemma_mod_bound(b as int, 0x80_0000);
    }
    if f >= 1 {
        lemma_msb_below(f, 23);
    }
    let ee = wexp(b);
    let ff = wfrac(b);
    assert(ee <= 2047);
    assert(ff < 0x10_0000_0000_0000) by {
        if e != 0xFF && !(e == 0 && f == 0) && e == 0 {
            let m = msb_pos(f);
            lemma_msb_below(f, 23);
            lemma_msb_pos(f);
            assert(((f - pow2(m)) as nat) < pow2(m));
            lemma_pow2_add(m, (52 - m) as nat);
            assert(pow2((52 - m) as nat) >= 1) by {
                lemma_pow2_mono(0, (52 - m) as nat);
            }
            assert(((f - pow2(m)) as nat) * pow2((52 - m) as nat) < pow2(m) * pow2(
                (52 - m) as nat,
            )) by (nonlinear_arith)
                requires
                    ((f - pow2(m)) as nat) < pow2(m),
                    pow2((52 - m) as nat) >= 1,
            ;
        }
    }
    let w: nat = widen32(b) as nat;
    assert(w == sign * 0x8000_0000_0000_0000 + (ee * 0x10_0000_0000_0000 + ff)) by {
        assert(sign * 0x8000_0000_0000_0000 + ee * 0x10_0000_0000_0000 + ff
            < 0x1_0000_0000_0000_0000) by (nonlinear_arith)
            requires
                sign <= 1,
                ee <= 2047,
                ff < 0x10_0000_0000_0000,
        ;
    }
    assert(ee * 0x10_0000_0000_0000 + ff < 0x8000_0000_0000_0000) by (nonlinear_arith)
        requires
            ee <= 2047,
            ff < 0x10_0000_0000_0000,
    ;
    vstd::arithmetic::div_mod::lemma_fundamental_div_mod_converse(
        w as int,
        0x8000_0000_0000_0000,
        sign as int,
        (ee * 0x10_0000_0000_0000 + ff) as int,
    );
    vstd::arithmetic::div_mod::lemma_fundamental_div_mod_converse(
        (ee * 0x10_0000_0000_0000 + ff) as int,
        0x10_0000_0000_0000,
        ee as int,
        ff as int,
    );
}

/// A 32-bit pattern is its sign, exponent and fraction reassembled.
proof fn lemma_u32_from_parts(b: u32)
    ensures
        b as nat == (b as nat / 0x8000_0000) * 0x8000_0000 + ((b as nat / 0x80_0000) % 0x100)
            * 0x80_0000 + b as nat % 0x80_0000,
{
    vstd::arithmetic::div_mod::lemma_fundamental_div_mod(b as int, 0x80_0000);
    vstd::arithmetic::div_mod::lemma_fundamental_div_mod(b as int / 0x80_0000, 0x100);
    vstd::arithmetic::div_mod::lemma_div_denominator(b as int, 0x80_0000, 0x100);
    assert(b as int / 0x80_0000 / 0x100 == b as int / 0x8000_0000);
}

} // verus!
