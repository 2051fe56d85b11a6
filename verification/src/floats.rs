//! Integers as 64-bit floats.
//!
//! An integer that a float cannot hold goes to the nearest float, and where two are equally near
//! to the one with the even significand. A float is known by its bits: one for the sign, eleven
//! for the exponent, and 52 for the significand without its leading one.

use vstd::prelude::*;

#[allow(unused_imports)]
use vstd::arithmetic::power2::{
    lemma2_to64, lemma2_to64_rest, lemma_pow2_adds, lemma_pow2_pos, lemma_pow2_strictly_increases,
    lemma_pow2_unfold, pow2,
};

#[allow(unused_imports)]
use crate::json::rank;

verus! {

/// The exponent of the greatest power of two in a positive integer.
pub open spec fn exponent(n: nat) -> nat
    decreases n,
{
    if n < 2 {
        0
    } else {
        1 + exponent(n / 2)
    }
}

/// A quotient to the nearest integer, and from halfway to the even one.
pub open spec fn rounded(n: nat, d: nat) -> nat {
    let q = n / d;
    let r = n % d;
    if 2 * r > d || (2 * r == d && q % 2 == 1) {
        q + 1
    } else {
        q
    }
}

/// The significand of a positive integer: 53 bits, the leading one among them.
pub open spec fn significand(n: nat) -> nat {
    if exponent(n) <= 52 {
        n * pow2((52 - exponent(n)) as nat)
    } else {
        rounded(n, pow2((exponent(n) - 52) as nat))
    }
}

/// The bits of the float for a positive integer. The leading one of the significand counts as one
/// in the exponent, so a significand that was rounded up to the next power of two raises it.
pub open spec fn positive_bits(n: nat) -> nat {
    (1022 + exponent(n)) * 0x10_0000_0000_0000 + significand(n)
}

/// The bits of the float that an integer is cast to.
pub open spec fn int_real(n: int) -> u64 {
    if n == 0 {
        0
    } else if n > 0 {
        positive_bits(n as nat) as u64
    } else {
        (0x8000_0000_0000_0000 + positive_bits((-n) as nat)) as u64
    }
}

proof fn lemma_exponent(n: nat)
    requires
        n > 0,
    ensures
        pow2(exponent(n)) <= n < 2 * pow2(exponent(n)),
    decreases n,
{
    lemma2_to64();
    if n >= 2 {
        lemma_exponent(n / 2);
        lemma_pow2_unfold(exponent(n));
    }
}

proof fn lemma_exponent_grows(a: nat, b: nat)
    requires
        a <= b,
    ensures
        exponent(a) <= exponent(b),
    decreases b,
{
    if a >= 2 {
        lemma_exponent_grows(a / 2, b / 2);
    }
}

proof fn lemma_exponent_below(n: nat, e: nat)
    requires
        0 < n < pow2(e),
    ensures
        exponent(n) < e,
{
    lemma_exponent(n);
    if exponent(n) > e {
        lemma_pow2_strictly_increases(e, exponent(n));
    }
}

proof fn lemma_rounded_grows(a: nat, b: nat, d: nat)
    requires
        a <= b,
        d > 0,
    ensures
        rounded(a, d) <= rounded(b, d),
{
    let (p, q) = (a / d, b / d);
    assert(a == d * p + a % d && 0 <= a % d < d) by (nonlinear_arith)
        requires
            d > 0,
            p == a / d,
    ;
    assert(b == d * q + b % d && 0 <= b % d < d) by (nonlinear_arith)
        requires
            d > 0,
            q == b / d,
    ;
    assert(p <= q) by (nonlinear_arith)
        requires
            a <= b,
            d > 0,
            p == a / d,
            q == b / d,
    ;
}

proof fn lemma_significand(n: nat)
    requires
        n > 0,
    ensures
        0x10_0000_0000_0000 <= significand(n) <= 0x20_0000_0000_0000,
        exponent(n) <= 52 ==> significand(n) < 0x20_0000_0000_0000,
{
    let e = exponent(n);
    let p = pow2(e);
    lemma_exponent(n);
    lemma2_to64_rest();
    if e <= 52 {
        let k = pow2((52 - e) as nat);
        lemma_pow2_pos((52 - e) as nat);
        lemma_pow2_adds(e, (52 - e) as nat);
        assert(p * k <= n * k < 2 * (p * k)) by (nonlinear_arith)
            requires
                p <= n < 2 * p,
                k > 0,
        ;
    } else {
        let d = pow2((e - 52) as nat);
        lemma_pow2_pos((e - 52) as nat);
        lemma_pow2_adds(52, (e - 52) as nat);
        assert(0x10_0000_0000_0000 <= n / d < 0x20_0000_0000_0000) by (nonlinear_arith)
            requires
                0x10_0000_0000_0000 * d <= n < 2 * (0x10_0000_0000_0000 * d),
                d > 0,
        ;
    }
}

proof fn lemma_positive_bits_grow(a: nat, b: nat)
    requires
        0 < a < b,
    ensures
        positive_bits(a) <= positive_bits(b),
        b <= 0x20_0000_0000_0000 ==> positive_bits(a) < positive_bits(b),
{
    lemma_exponent_grows(a, b);
    lemma_significand(a);
    lemma_significand(b);
    lemma2_to64_rest();
    let e = exponent(b);
    if b <= 0x20_0000_0000_0000 {
        lemma_exponent_below(a, 53);
    }
    if exponent(a) == e {
        if e <= 52 {
            let k = pow2((52 - e) as nat);
            lemma_pow2_pos((52 - e) as nat);
            assert(a * k < b * k) by (nonlinear_arith)
                requires
                    a < b,
                    k > 0,
            ;
        } else {
            lemma_pow2_pos((e - 52) as nat);
            lemma_rounded_grows(a, b, pow2((e - 52) as nat));
        }
    }
}

proof fn lemma_positive_bits_fit(n: nat)
    requires
        0 < n <= u64::MAX,
    ensures
        0 < positive_bits(n) < 0x8000_0000_0000_0000,
{
    lemma2_to64_rest();
    lemma_exponent_below(n, 64);
    lemma_significand(n);
}

/// Of two integers the smaller one is not cast to the greater float, and up to `2^53`, where
/// floats hold every integer, it is cast to the smaller one.
pub proof fn integers_keep_their_order(a: int, b: int)
    requires
        i64::MIN <= a < b <= u64::MAX,
    ensures
        rank(int_real(a)) <= rank(int_real(b)),
        -0x20_0000_0000_0000 <= a && b <= 0x20_0000_0000_0000 ==> rank(int_real(a)) < rank(
            int_real(b),
        ),
{
    if a > 0 {
        lemma_positive_bits_fit(a as nat);
        lemma_positive_bits_fit(b as nat);
        lemma_positive_bits_grow(a as nat, b as nat);
    } else if b < 0 {
        lemma_positive_bits_fit((-a) as nat);
        lemma_positive_bits_fit((-b) as nat);
        lemma_positive_bits_grow((-b) as nat, (-a) as nat);
    } else {
        if a < 0 {
            lemma_positive_bits_fit((-a) as nat);
        }
        if b > 0 {
            lemma_positive_bits_fit(b as nat);
        }
    }
}

/// The significand of a normal float, with its leading bit.
pub open spec fn leading(bits: u64) -> nat {
    (0x10_0000_0000_0000 + bits % 0x10_0000_0000_0000) as nat
}

/// The power of two by which the significand of a positive normal float is multiplied.
pub open spec fn scale(bits: u64) -> int {
    bits / 0x10_0000_0000_0000 - 1075
}

proof fn lemma_rounded_near(n: nat, d: nat)
    requires
        d > 0,
    ensures
        -(d as int) <= 2 * (rounded(n, d) * d - n) <= d,
        2 * (rounded(n, d) * d - n) == d || 2 * (n - rounded(n, d) * d) == d ==> rounded(n, d) % 2
            == 0,
{
    let q = n / d;
    let r = n % d;
    assert(n == d * q + r && 0 <= r < d) by (nonlinear_arith)
        requires
            d > 0,
            q == n / d,
            r == n % d,
    ;
    assert(d * q == q * d) by (nonlinear_arith);
    assert((q + 1) * d == q * d + d) by (nonlinear_arith);
}

/// An integer is cast to the float that is nearest to it and, where two are equally near, to the
/// one with the even significand; a negative one differs from its opposite in the sign bit alone.
pub proof fn integers_are_cast_to_the_nearest_float(n: int)
    requires
        0 < n <= u64::MAX,
    ensures
        ({
            let m = leading(int_real(n)) as int;
            let e = scale(int_real(n));
            &&& e < 0 ==> m == n * pow2((-e) as nat)
            &&& e >= 0 ==> {
                let p = pow2(e as nat) as int;
                &&& -p <= 2 * (m * p - n) <= p
                &&& 2 * (m * p - n) == p || 2 * (n - m * p) == p ==> m % 2 == 0
            }
        }),
        int_real(n) < 0x8000_0000_0000_0000,
        int_real(-n) == 0x8000_0000_0000_0000 + int_real(n),
        int_real(0) == 0,
{
    let x = exponent(n as nat);
    let s = significand(n as nat);
    let b = int_real(n);
    lemma_positive_bits_fit(n as nat);
    lemma_significand(n as nat);
    lemma2_to64();
    if x <= 52 {
        assert(b / 0x10_0000_0000_0000 == 1023 + x);
        assert(leading(b) == s);
        assert(scale(b) == x - 52);
        let k = pow2((52 - x) as nat);
        assert(s == n * k);
        if x == 52 {
            assert(n * k == n && s * k == s) by (nonlinear_arith)
                requires
                    k == 1,
            ;
        }
    } else {
        let d = pow2((x - 52) as nat);
        lemma_pow2_pos((x - 52) as nat);
        lemma_rounded_near(n as nat, d);
        if s < 0x20_0000_0000_0000 {
            assert(b / 0x10_0000_0000_0000 == 1023 + x);
            assert(leading(b) == s);
        } else {
            assert(b / 0x10_0000_0000_0000 == 1024 + x);
            assert(leading(b) == 0x10_0000_0000_0000);
            lemma_pow2_unfold((x - 51) as nat);
            let p = pow2((x - 51) as nat);
            assert(0x10_0000_0000_0000 * p == s * d) by (nonlinear_arith)
                requires
                    p == 2 * d,
                    s == 0x20_0000_0000_0000,
            ;
        }
    }
}

} // verus!
