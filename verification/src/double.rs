//! The IEEE 754 double that stands for a whole number, as its 64 bits.
//!
//! WebM stores the sampling rate and the duration as doubles; both are whole
//! numbers here, so their bits follow from integer arithmetic alone.

use vstd::arithmetic::div_mod::*;
use vstd::arithmetic::power2::*;
use vstd::prelude::*;

verus! {

/// 2 to the power of 52: one unit of the exponent field.
pub const UNIT: u64 = 0x10_0000_0000_0000;

/// The position of the highest one bit.
pub open spec fn log2(n: nat) -> nat
    decreases n,
{
    if n < 2 {
        0
    } else {
        1 + log2(n / 2)
    }
}

/// `n / d` rounded to the nearest whole number, a half to the even one.
pub open spec fn round_half_even(n: nat, d: nat) -> nat {
    let q = n / d;
    let r = n % d;
    if 2 * r > d || (2 * r == d && q % 2 == 1) {
        q + 1
    } else {
        q
    }
}

/// The 53 leading bits of `n`, rounded (or filled up with zeros).
pub open spec fn significand(n: nat) -> nat {
    let e = log2(n);
    if e <= 52 {
        n * pow2((52 - e) as nat)
    } else {
        round_half_even(n, pow2((e - 52) as nat))
    }
}

/// The bits of the double nearest to `n`: the exponent with its bias of 1023,
/// then the significand without its leading one.
pub open spec fn double_bits(n: nat) -> nat {
    if n == 0 {
        0
    } else {
        ((log2(n) + 1023) * UNIT + significand(n) - UNIT) as nat
    }
}

/// What a positive, normal double with these bits is worth, times 2 to the power
/// of `52 - exponent`; the exponent.
pub open spec fn double_parts(bits: nat) -> (nat, int) {
    (bits % (UNIT as nat) + UNIT as nat, bits / (UNIT as nat) - 1023)
}

pub proof fn lemma_log2_bounds(n: nat)
    requires
        n > 0,
    ensures
        pow2(log2(n)) <= n < pow2(log2(n) + 1),
    decreases n,
{
    lemma2_to64();
    if n >= 2 {
        lemma_log2_bounds(n / 2);
        lemma_pow2_unfold(log2(n));
        lemma_pow2_unfold(log2(n) + 1);
    }
}

pub proof fn lemma_log2_unique(n: nat, e: nat)
    requires
        pow2(e) <= n < pow2(e + 1),
    ensures
        log2(n) == e,
{
    lemma_pow2_pos(e);
    lemma_log2_bounds(n);
    let l = log2(n);
    if l < e {
        if l + 1 < e {
            lemma_pow2_strictly_increases(l + 1, e);
        }
    } else if e < l {
        if e + 1 < l {
            lemma_pow2_strictly_increases(e + 1, l);
        }
    }
}

/// Below 2 to the power of 53 the double is exactly the number: its significand,
/// moved by its exponent, gives it back.
pub proof fn law_double_is_exact(n: nat)
    requires
        0 < n < 2 * UNIT,
    ensures
        ({
            let (m, e) = double_parts(double_bits(n));
            &&& 0 <= e <= 52
            &&& m == n * pow2((52 - e) as nat)
        }),
{
    lemma2_to64();
    lemma2_to64_rest();
    lemma_log2_bounds(n);
    let e = log2(n);
    if e > 52 {
        if e > 53 {
            lemma_pow2_strictly_increases(53, e);
        }
    }
    lemma_significand_range(n, e);
    let m = significand(n);
    let bits = double_bits(n);
    assert(bits == (e + 1023) * UNIT + (m - UNIT));
    assert(bits / (UNIT as nat) == e + 1023 && bits % (UNIT as nat) == m - UNIT);
}

proof fn lemma_significand_range(n: nat, e: nat)
    requires
        n > 0,
        e == log2(n),
        e <= 52,
    ensures
        UNIT <= n * pow2((52 - e) as nat) < 2 * UNIT,
{
    lemma2_to64();
    lemma2_to64_rest();
    lemma_log2_bounds(n);
    let k = (52 - e) as nat;
    lemma_pow2_adds(e, k);
    lemma_pow2_adds(e + 1, k);
    lemma_pow2_pos(k);
    let p = pow2(k);
    let a = pow2(e);
    let b = pow2(e + 1);
    assert(a * p <= n * p && n * p < b * p) by (nonlinear_arith)
        requires
            a <= n < b,
            p > 0,
    ;
}

/// The bits fit 64 bits.
pub proof fn lemma_double_bits_bound(n: nat)
    requires
        n <= u64::MAX,
    ensures
        double_bits(n) <= u64::MAX,
{
    lemma2_to64();
    lemma2_to64_rest();
    if n > 0 {
        let e = log2(n);
        lemma_log2_bounds(n);
        if e > 63 {
            if e > 64 {
                lemma_pow2_strictly_increases(64, e);
            }
        }
        if e <= 52 {
            lemma_significand_range(n, e);
        } else {
            let d = pow2((e - 52) as nat) as int;
            let p = pow2(e) as int;
            lemma_pow2_adds(52, (e - 52) as nat);
            lemma_pow2_pos((e - 52) as nat);
            lemma_pow2_unfold(e + 1);
            lemma_fundamental_div_mod(n as int, d);
            lemma_mod_bound(n as int, d);
            let q = n as int / d;
            let r = n as int % d;
            assert(0x10_0000_0000_0000 <= q < 0x20_0000_0000_0000) by (nonlinear_arith)
                requires
                    n == d * q + r,
                    0 <= r < d,
                    p == 0x10_0000_0000_0000 * d,
                    p <= n < 2 * p,
            ;
        }
    }
}

/// The bits of the double nearest to `n`.
pub fn double_of(n: u64) -> (bits: u64)
    ensures
        bits == double_bits(n as nat),
{
    if n == 0 {
        return 0;
    }
    proof {
        lemma2_to64();
        lemma2_to64_rest();
    }
    let mut p: u64 = 1;
    let mut e: u64 = 0;
    while n / 2 >= p
        invariant
            n > 0,
            p == pow2(e as nat),
            p <= n,
            e < 64,
        decreases n - p,
    {
        proof {
            lemma_pow2_unfold((e + 1) as nat);
            lemma2_to64();
            lemma2_to64_rest();
            lemma_pow2_pos(e as nat);
            if e == 63 {
                assert(p == 0x8000_0000_0000_0000);
            }
        }
        p = p * 2;
        e = e + 1;
    }
    proof {
        lemma_pow2_unfold((e + 1) as nat);
        lemma_log2_unique(n as nat, e as nat);
    }
    if e <= 52 {
        proof {
            lemma_significand_range(n as nat, e as nat);
            lemma_pow2_adds(e as nat, (52 - e) as nat);
            lemma_pow2_pos(e as nat);
            let k = pow2((52 - e) as nat) as int;
            assert(0x10_0000_0000_0000int / (p as int) == k) by (nonlinear_arith)
                requires
                    p * k == 0x10_0000_0000_0000,
                    p > 0,
            ;
        }
        let k: u64 = 0x10_0000_0000_0000 / p;
        (e + 1023) * 0x10_0000_0000_0000 + (n * k - 0x10_0000_0000_0000)
    } else {
        proof {
            lemma_pow2_adds(52, (e - 52) as nat);
            lemma_pow2_pos((e - 52) as nat);
            let k = pow2((e - 52) as nat) as int;
            assert((p as int) / 0x10_0000_0000_0000int == k) by (nonlinear_arith)
                requires
                    p == 0x10_0000_0000_0000 * k,
            ;
        }
        let d: u64 = p / 0x10_0000_0000_0000;
        let q: u64 = n / d;
        let r: u64 = n % d;
        proof {
            lemma_fundamental_div_mod(n as int, d as int);
            lemma_mod_bound(n as int, d as int);
            assert(0x10_0000_0000_0000 <= q < 0x20_0000_0000_0000) by (nonlinear_arith)
                requires
                    n == d * q + r,
                    0 <= r < d,
                    p == 0x10_0000_0000_0000 * d,
                    p <= n < 2 * p,
            ;
        }
        let up: u64 = if r > d - r || (r == d - r && q % 2 == 1) {
            1
        } else {
            0
        };
        (e + 1023) * 0x10_0000_0000_0000 + (q + up - 0x10_0000_0000_0000)
    }
}

/// From 2 to the power of 53 on the double is the nearest one: no other is closer, and
/// of two that are as close it is the one with the even significand.
pub proof fn law_double_is_nearest(n: nat)
    requires
        2 * UNIT <= n <= u64::MAX,
    ensures
        ({
            let e = log2(n);
            let step = pow2((e - 52) as nat) as int;
            let m = significand(n) as int;
            &&& 53 <= e <= 63
            &&& pow2(e) <= n < pow2(e + 1)
            &&& double_bits(n) == (e + 1_023) * 0x10_0000_0000_0000 + (m - 0x10_0000_0000_0000)
            &&& 2 * (m * step - n) <= step
            &&& 2 * (n - m * step) <= step
            &&& 2 * (m * step - n) == step || 2 * (n - m * step) == step ==> m % 2 == 0
        }),
{
    lemma2_to64();
    lemma2_to64_rest();
    lemma_log2_bounds(n);
    let e = log2(n);
    if e < 53 {
        if e + 1 < 53 {
            lemma_pow2_strictly_increases(e + 1, 53);
        }
    }
    if e > 63 {
        if e > 64 {
            lemma_pow2_strictly_increases(64, e);
        }
    }
    let d = pow2((e - 52) as nat) as int;
    lemma_pow2_pos((e - 52) as nat);
    lemma_fundamental_div_mod(n as int, d);
    lemma_mod_bound(n as int, d);
    let q = n as int / d;
    let r = n as int % d;
    assert((q + 1) * d == q * d + d) by (nonlinear_arith);
    assert(d * q == q * d) by (nonlinear_arith);
}

} // verus!
