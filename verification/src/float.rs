//! Binary floating-point rounding, stated and computed on integers.
//!
//! The positive numbers that the sender rounds are natural numbers, or quotients of them
//! scaled by a power of two, so that rounding to the significand of a `f64` is a statement
//! about natural numbers alone.
use vstd::arithmetic::div_mod::{lemma_fundamental_div_mod, lemma_fundamental_div_mod_converse};
use vstd::arithmetic::power2::{
    lemma2_to64, lemma2_to64_rest, lemma_pow2_adds, lemma_pow2_pos, lemma_pow2_strictly_increases,
    lemma_pow2_unfold, pow2,
};
use vstd::prelude::*;

verus! {

/// Number of binary digits of `x`; zero has none.
pub open spec fn bit_length(x: nat) -> nat
    decreases x,
{
    if x == 0 {
        0
    } else {
        1 + bit_length(x / 2)
    }
}

/// The integer nearest to `x / d`; of two equally near ones, the even one.
pub open spec fn nearest(x: nat, d: nat) -> nat {
    let q = x / d;
    let r = x % d;
    if 2 * r > d || (2 * r == d && q % 2 == 1) {
        q + 1
    } else {
        q
    }
}

/// `x / d` rounded to `p` significant binary digits, or to an integer where the integer part
/// has no more than `p` digits.
pub open spec fn round_ratio(x: nat, d: nat, p: nat) -> nat {
    let l = bit_length(x / d);
    if l <= p {
        nearest(x, d)
    } else {
        nearest(x, d * pow2((l - p) as nat)) * pow2((l - p) as nat)
    }
}

/// `x` rounded to `p` significant binary digits.
pub open spec fn round_to(x: nat, p: nat) -> nat {
    round_ratio(x, 1, p)
}

proof fn lemma_bit_length_bounds(x: nat)
    requires
        x > 0,
    ensures
        bit_length(x) >= 1,
        pow2((bit_length(x) - 1) as nat) <= x < pow2(bit_length(x)),
    decreases x,
{
    lemma2_to64();
    if x == 1 {
        assert(bit_length(0) == 0);
        assert(bit_length(1) == 1 + bit_length(1nat / 2));
    } else {
        lemma_bit_length_bounds(x / 2);
        let l = bit_length(x / 2);
        lemma_pow2_unfold(l);
        lemma_pow2_unfold(l + 1);
    }
}

proof fn lemma_bit_length_unique(x: nat, k: nat)
    requires
        k >= 1,
        pow2((k - 1) as nat) <= x < pow2(k),
    ensures
        bit_length(x) == k,
{
    lemma_pow2_pos((k - 1) as nat);
    lemma_bit_length_bounds(x);
    let l = bit_length(x);
    if l < k {
        if l < k - 1 {
            lemma_pow2_strictly_increases(l, (k - 1) as nat);
        }
    }
    if k < l {
        if k < l - 1 {
            lemma_pow2_strictly_increases(k, (l - 1) as nat);
        }
    }
}

/// Quotient and remainder of `f * b + r` by `b * u`, read off those of `f` by `u`.
proof fn lemma_split(f: nat, r: nat, b: nat, u: nat)
    requires
        b > 0,
        u > 0,
        r < b,
    ensures
        (f * b + r) / (b * u) == f / u,
        (f * b + r) % (b * u) == (f % u) * b + r,
        b * u > 0,
{
    let q = f / u;
    let low = f % u;
    lemma_fundamental_div_mod(f as int, u as int);
    assert(f == u * q + low);
    assert(f * b + r == q * (b * u) + (low * b + r)) by (nonlinear_arith)
        requires
            f == u * q + low,
    ;
    assert(0 <= low * b + r < b * u) by (nonlinear_arith)
        requires
            low < u,
            r < b,
    ;
    assert(b * u > 0) by (nonlinear_arith)
        requires
            b > 0,
            u > 0,
    ;
    lemma_fundamental_div_mod_converse(
        (f * b + r) as int,
        (b * u) as int,
        q as int,
        (low * b + r) as int,
    );
}

/// A common factor of numerator and denominator does not change the nearest integer.
proof fn lemma_nearest_scale(x: nat, d: nat, c: nat)
    requires
        d > 0,
        c > 0,
    ensures
        nearest(x * c, d * c) == nearest(x, d),
{
    let q = x / d;
    let r = x % d;
    lemma_fundamental_div_mod(x as int, d as int);
    assert(x * c == q * (d * c) + r * c) by (nonlinear_arith)
        requires
            x == d * q + r,
    ;
    assert(0 <= r * c < d * c) by (nonlinear_arith)
        requires
            r < d,
            c > 0,
    ;
    lemma_fundamental_div_mod_converse(
        (x * c) as int,
        (d * c) as int,
        q as int,
        (r * c) as int,
    );
    assert(2 * (r * c) > d * c <==> 2 * r > d) by (nonlinear_arith)
        requires
            c > 0,
    ;
    assert(2 * (r * c) == d * c <==> 2 * r == d) by (nonlinear_arith)
        requires
            c > 0,
    ;
}

/// `2^k`.
pub(crate) fn power(k: u32) -> (u: u128)
    requires
        k < 128,
    ensures
        u == pow2(k as nat),
{
    proof {
        lemma2_to64();
        lemma_pow2_adds(64, 64);
        lemma_pow2_unfold(128);
    }
    let mut u: u128 = 1;
    let mut i: u32 = 0;
    while i < k
        invariant
            i <= k < 128,
            u == pow2(i as nat),
            pow2(127) == 0x8000_0000_0000_0000_0000_0000_0000_0000,
        decreases k - i,
    {
        proof {
            lemma_pow2_unfold((i + 1) as nat);
            if i + 1 < 127 {
                lemma_pow2_strictly_increases((i + 1) as nat, 127);
            }
        }
        u = u * 2;
        i = i + 1;
    }
    u
}

/// Number of binary digits of `x`.
fn length(x: u128) -> (l: u32)
    ensures
        l == bit_length(x as nat),
        l <= 128,
{
    let mut rest: u128 = x;
    let mut l: u32 = 0;
    proof {
        lemma2_to64();
        lemma_pow2_adds(64, 64);
    }
    while rest > 0
        invariant
            l + bit_length(rest as nat) == bit_length(x as nat),
            l <= 128,
            rest < pow2((128 - l) as nat),
        decreases rest,
    {
        proof {
            if l == 128 {
                lemma2_to64();
            } else {
                lemma_pow2_unfold((128 - l) as nat);
            }
        }
        rest = rest / 2;
        l = l + 1;
    }
    l
}

/// `(f + r / b) / 2^k` rounded to the nearest integer, halves to even.
fn nearest_shifted(f: u128, r: u128, b: u128, k: u32) -> (s: u128)
    requires
        r < b,
        1 <= k < 128,
    ensures
        s == nearest((f * b + r) as nat, (b * pow2(k as nat)) as nat),
{
    let unit: u128 = power(k);
    proof {
        lemma_pow2_unfold(k as nat);
        lemma_pow2_pos((k - 1) as nat);
        lemma_split(f as nat, r as nat, b as nat, unit as nat);
    }
    let q: u128 = f / unit;
    let low: u128 = f % unit;
    let half: u128 = unit / 2;
    proof {
        assert(2 * (low * b + r) - b * unit == 2 * ((low - half) * b + r)) by (nonlinear_arith)
            requires
                unit == 2 * half,
        ;
        assert(low > half ==> (low - half) * b + r > 0) by (nonlinear_arith)
            requires
                b > 0,
                r >= 0,
        ;
        assert(low < half ==> (low - half) * b + r < 0) by (nonlinear_arith)
            requires
                b > 0,
                r < b,
        ;
        assert(low == half ==> (low - half) * b == 0) by (nonlinear_arith);
        assert(q <= f / 2) by (nonlinear_arith)
            requires
                q == f / unit,
                unit >= 2,
        ;
    }
    if low > half || (low == half && (r > 0 || q % 2 == 1)) {
        q + 1
    } else {
        q
    }
}

/// `x` rounded to `p` significant binary digits, as a significand and the power of two that it
/// is multiplied by.
pub(crate) fn round_int(x: u128, p: u32) -> (res: (u128, u32))
    requires
        1 <= p < 128,
    ensures
        res.0 * pow2(res.1 as nat) == round_to(x as nat, p as nat),
        res.0 <= pow2(p as nat),
        res.1 > 0 ==> res.0 >= pow2((p - 1) as nat),
        res.1 == (if bit_length(x as nat) <= p {
            0int
        } else {
            bit_length(x as nat) - p
        }),
        bit_length(x as nat) <= 128,
{
    let l: u32 = length(x);
    proof {
        lemma2_to64();
        lemma_pow2_pos(p as nat);
        assert(x as nat / 1 == x);
        assert(x as nat % 1 == 0);
        if x > 0 {
            lemma_bit_length_bounds(x as nat);
        }
    }
    if l <= p {
        proof {
            if l < p {
                lemma_pow2_strictly_increases(l as nat, p as nat);
            }
        }
        (x, 0)
    } else {
        let k: u32 = l - p;
        let s: u128 = nearest_shifted(x, 0, 1, k);
        proof {
            let u = pow2(k as nat);
            lemma_pow2_pos(k as nat);
            lemma_pow2_adds(p as nat, k as nat);
            lemma_pow2_adds((p - 1) as nat, k as nat);
            lemma_fundamental_div_mod(x as int, u as int);
            let q = x as nat / u;
            assert(q < pow2(p as nat)) by (nonlinear_arith)
                requires
                    x == u * q + (x as nat % u),
                    x < pow2(p as nat) * u,
                    u > 0,
            ;
            assert(q >= pow2((p - 1) as nat)) by (nonlinear_arith)
                requires
                    x == u * q + (x as nat % u),
                    x as nat % u < u,
                    x >= pow2((p - 1) as nat) * u,
                    u > 0,
            ;
            assert(x * 1 + 0 == x);
            assert(1 * u == u);
        }
        (s, k)
    }
}

/// Rounding to `p` digits commutes with multiplying by a power of two.
pub(crate) proof fn lemma_round_scale(x: nat, p: nat, k: nat)
    requires
        bit_length(x) > p,
    ensures
        round_to(x * pow2(k), p) == round_to(x, p) * pow2(k),
{
    let l = bit_length(x);
    let c = pow2(k);
    lemma_pow2_pos(k);
    lemma_bit_length_bounds(x);
    lemma_pow2_adds(l, k);
    lemma_pow2_adds((l - 1) as nat, k);
    assert(pow2((l - 1 + k) as nat) <= x * c < pow2(l + k)) by (nonlinear_arith)
        requires
            pow2((l - 1) as nat) <= x < pow2(l),
            pow2((l - 1 + k) as nat) == pow2((l - 1) as nat) * c,
            pow2(l + k) == pow2(l) * c,
            c > 0,
    ;
    lemma_bit_length_unique(x * c, l + k);
    let u = pow2((l - p) as nat);
    lemma_pow2_pos((l - p) as nat);
    lemma_pow2_adds((l - p) as nat, k);
    assert(x / 1 == x);
    assert((x * c) / 1 == x * c);
    assert(1 * u == u);
    assert(1 * (u * c) == u * c);
    lemma_nearest_scale(x, u, c);
    let s = nearest(x, u);
    assert(s * (u * c) == (s * u) * c) by (nonlinear_arith);
}

/// Where `a * 2^s` is `f * b + r`, rounding `a * 2^128 / b` to 53 digits is rounding
/// `f + r / b` to them, shifted.
proof fn lemma_round_quotient(a: nat, b: nat, f: nat, r: nat, s: nat, sig: nat)
    requires
        b > 0,
        r < b,
        s <= 128,
        a * pow2(s) == f * b + r,
        bit_length(f) > 53,
        sig == nearest(f * b + r, b * pow2((bit_length(f) - 53) as nat)),
    ensures
        round_ratio(a * pow2(128), b, 53) == sig * pow2((bit_length(f) - 53 + 128 - s) as nat),
{
    let t = (128 - s) as nat;
    let c = pow2(t);
    let l = bit_length(f);
    let k = (l - 53) as nat;
    let y = f * b + r;
    lemma_pow2_adds(s, t);
    lemma_pow2_pos(t);
    lemma_pow2_pos(k);
    let x = a * pow2(128);
    assert(x == y * c) by (nonlinear_arith)
        requires
            x == a * (pow2(s) * c),
            y == a * pow2(s),
    ;
    // The integer part of `x / b` has `l + t` digits.
    lemma_bit_length_bounds(f);
    lemma_pow2_adds((l - 1) as nat, t);
    lemma_pow2_adds(l, t);
    let g = x / b;
    lemma_fundamental_div_mod(x as int, b as int);
    let m = x % b;
    assert(f * c <= g < (f + 1) * c) by {
        assert(f * c < g + 1) by (nonlinear_arith)
            requires
                y * c == b * g + m,
                m < b,
                y == f * b + r,
                b > 0,
                c > 0,
        ;
        assert(g < (f + 1) * c) by (nonlinear_arith)
            requires
                y * c == b * g + m,
                m >= 0,
                y == f * b + r,
                r < b,
                b > 0,
                c > 0,
        ;
    }
    assert(pow2((l - 1 + t) as nat) <= g) by (nonlinear_arith)
        requires
            pow2((l - 1) as nat) <= f,
            pow2((l - 1 + t) as nat) == pow2((l - 1) as nat) * c,
            f * c <= g,
            c > 0,
    ;
    assert(g < pow2(l + t)) by (nonlinear_arith)
        requires
            f + 1 <= pow2(l),
            pow2(l + t) == pow2(l) * c,
            g < (f + 1) * c,
            c > 0,
    ;
    lemma_bit_length_unique(g, l + t);
    lemma_pow2_adds(k, t);
    let d = b * pow2(k);
    assert(d > 0) by (nonlinear_arith)
        requires
            d == b * pow2(k),
            b > 0,
            pow2(k) > 0,
    ;
    lemma_nearest_scale(y, d, c);
    assert(b * pow2(k + t) == d * c) by (nonlinear_arith)
        requires
            pow2(k + t) == pow2(k) * c,
            d == b * pow2(k),
    ;
}

/// The quotient `a / b` rounded to 53 significant binary digits: a significand `res.0` that is
/// multiplied by `2^res.1` and divided by `2^res.2`.
pub(crate) fn round_quotient(a: u128, b: u128) -> (res: (u128, u32, u32))
    requires
        1 <= a <= 0x1_0000_0000_0000_0000,
        1 <= b <= 0x1_0000_0000_0000_0000,
    ensures
        res.1 <= 12,
        res.2 <= 118,
        pow2(52) <= res.0 <= pow2(53),
        res.0 * pow2((res.1 + 128 - res.2) as nat) == round_ratio(
            (a * pow2(128)) as nat,
            b as nat,
            53,
        ),
{
    let mut f: u128 = a / b;
    let mut r: u128 = a % b;
    let mut s: u32 = 0;
    proof {
        lemma2_to64();
        lemma2_to64_rest();
        lemma_pow2_adds(54, 64);
        lemma_fundamental_div_mod(a as int, b as int);
        assert(a == f * b + r) by (nonlinear_arith)
            requires
                a == b * f + r,
        ;
        assert(f <= a) by (nonlinear_arith)
            requires
                f == a / b,
                b >= 1,
        ;
        assert(a * pow2(0) == a);
    }
    while f < 0x40_0000_0000_0000
        invariant
            1 <= a <= 0x1_0000_0000_0000_0000,
            1 <= b <= 0x1_0000_0000_0000_0000,
            r < b,
            f <= 0x1_0000_0000_0000_0000,
            s <= 118,
            a * pow2(s as nat) == f * b + r,
            pow2(118) == 0x40_0000_0000_0000 * 0x1_0000_0000_0000_0000,
        decreases 118 - s,
    {
        let ghost f0 = f;
        let ghost r0 = r;
        proof {
            assert(pow2(s as nat) < pow2(118)) by (nonlinear_arith)
                requires
                    a * pow2(s as nat) == f * b + r,
                    r < b,
                    f < 0x40_0000_0000_0000,
                    1 <= b <= 0x1_0000_0000_0000_0000,
                    a >= 1,
                    pow2(118) == 0x40_0000_0000_0000 * 0x1_0000_0000_0000_0000,
            ;
            lemma_pow2_unfold((s + 1) as nat);
            assert(a * pow2((s + 1) as nat) == 2 * (f * b + r)) by (nonlinear_arith)
                requires
                    a * pow2(s as nat) == f * b + r,
                    pow2((s + 1) as nat) == 2 * pow2(s as nat),
            ;
        }
        if 2 * r >= b {
            f = 2 * f + 1;
            r = 2 * r - b;
            proof {
                assert(2 * (f0 * b + r0) == f * b + r) by (nonlinear_arith)
                    requires
                        f == 2 * f0 + 1,
                        r == 2 * r0 - b,
                ;
            }
        } else {
            f = 2 * f;
            r = 2 * r;
            proof {
                assert(2 * (f0 * b + r0) == f * b + r) by (nonlinear_arith)
                    requires
                        f == 2 * f0,
                        r == 2 * r0,
                ;
            }
        }
        s = s + 1;
    }
    let l: u32 = length(f);
    proof {
        lemma2_to64();
        lemma2_to64_rest();
        lemma_pow2_unfold(65);
        lemma_bit_length_bounds(f as nat);
        if l < 55 {
            if l < 54 {
                lemma_pow2_strictly_increases(l as nat, 54);
            }
        }
        if l > 65 {
            if l - 1 > 65 {
                lemma_pow2_strictly_increases(65, (l - 1) as nat);
            }
        }
    }
    let k: u32 = l - 53;
    let sig: u128 = nearest_shifted(f, r, b, k);
    proof {
        let u = pow2(k as nat);
        lemma_pow2_pos(k as nat);
        lemma_pow2_adds(53, k as nat);
        lemma_pow2_adds(52, k as nat);
        lemma_split(f as nat, r as nat, b as nat, u);
        lemma_fundamental_div_mod(f as int, u as int);
        let q = f as nat / u;
        assert(q < pow2(53)) by (nonlinear_arith)
            requires
                f == u * q + (f as nat % u),
                f < pow2(53) * u,
                u > 0,
        ;
        assert(q >= pow2(52)) by (nonlinear_arith)
            requires
                f == u * q + (f as nat % u),
                f as nat % u < u,
                f >= pow2(52) * u,
                u > 0,
        ;
        lemma_round_quotient(a as nat, b as nat, f as nat, r as nat, s as nat, sig as nat);
    }
    (sig, k, s)
}

/// What `p` digits hold exactly, rounding to `p` digits leaves alone.
pub(crate) proof fn lemma_round_exact(j: nat, k: nat, d: nat, p: nat)
    requires
        d > 0,
        bit_length(j) <= p,
    ensures
        round_ratio((j * pow2(k)) * d, d, p) == j * pow2(k),
{
    let v = j * pow2(k);
    lemma_pow2_pos(k);
    assert(v * d == d * v + 0) by (nonlinear_arith);
    lemma_fundamental_div_mod_converse((v * d) as int, d as int, v as int, 0);
    let l = bit_length(v);
    if l > p {
        if j == 0 {
            assert(v == 0) by (nonlinear_arith)
                requires
                    v == j * pow2(k),
                    j == 0,
            ;
        }
        let lj = bit_length(j);
        let c = pow2(k);
        lemma_bit_length_bounds(j);
        lemma_pow2_adds(lj, k);
        lemma_pow2_adds((lj - 1) as nat, k);
        assert(pow2((lj - 1 + k) as nat) <= v < pow2(lj + k)) by (nonlinear_arith)
            requires
                pow2((lj - 1) as nat) <= j < pow2(lj),
                pow2((lj - 1 + k) as nat) == pow2((lj - 1) as nat) * c,
                pow2(lj + k) == pow2(lj) * c,
                v == j * c,
                c > 0,
        ;
        lemma_bit_length_unique(v, lj + k);
        let e = (l - p) as nat;
        let u = pow2(e);
        lemma_pow2_pos(e);
        lemma_pow2_adds((k - e) as nat, e);
        let w = j * pow2((k - e) as nat);
        assert(w * u == v) by (nonlinear_arith)
            requires
                w == j * pow2((k - e) as nat),
                c == pow2((k - e) as nat) * u,
                v == j * c,
        ;
        assert(d * u > 0) by (nonlinear_arith)
            requires
                d > 0,
                u > 0,
        ;
        assert(v * d == w * (d * u) + 0) by (nonlinear_arith)
            requires
                w * u == v,
        ;
        lemma_fundamental_div_mod_converse((v * d) as int, (d * u) as int, w as int, 0);
    }
}

/// A number below `2^p` has at most `p` digits.
pub(crate) proof fn lemma_bit_length_at_most(x: nat, p: nat)
    requires
        x < pow2(p),
    ensures
        bit_length(x) <= p,
{
    if x > 0 {
        lemma_bit_length_bounds(x);
        let l = bit_length(x);
        if l > p {
            if l - 1 > p {
                lemma_pow2_strictly_increases(p, (l - 1) as nat);
            }
        }
    }
}

/// A number of at least `2^p` has more than `p` digits.
pub(crate) proof fn lemma_bit_length_above(x: nat, p: nat)
    requires
        x >= pow2(p),
    ensures
        bit_length(x) > p,
{
    lemma_pow2_pos(p);
    lemma_bit_length_bounds(x);
    let l = bit_length(x);
    if l < p {
        lemma_pow2_strictly_increases(l, p);
    }
}

/// A rounded number lies between the powers of two next to the number itself.
pub(crate) proof fn lemma_round_bounds(x: nat, p: nat)
    requires
        x > 0,
        p > 0,
    ensures
        pow2((bit_length(x) - 1) as nat) <= round_to(x, p) <= pow2(bit_length(x)),
{
    assert(x / 1 == x && x % 1 == 0);
    let l = bit_length(x);
    lemma_bit_length_bounds(x);
    if l > p {
        let e = (l - p) as nat;
        let u = pow2(e);
        lemma_pow2_pos(e);
        lemma_pow2_pos(p);
        lemma_pow2_unfold(p);
        lemma_pow2_adds((p - 1) as nat, e);
        lemma_pow2_adds(p, e);
        lemma_fundamental_div_mod(x as int, u as int);
        let q = x / u;
        let r = x % u;
        let s = nearest(x, u);
        let top = pow2((p - 1) as nat);
        assert(1 * u == u);
        assert(q < 2 * top) by (nonlinear_arith)
            requires
                x == u * q + r,
                x < (2 * top) * u,
                u > 0,
        ;
        assert(q >= top) by (nonlinear_arith)
            requires
                x == u * q + r,
                r < u,
                x >= top * u,
                u > 0,
        ;
        assert(top * u <= s * u <= (2 * top) * u) by (nonlinear_arith)
            requires
                top <= s <= 2 * top,
                u > 0,
        ;
    }
}

/// No positive number is rounded to zero.
pub(crate) proof fn lemma_round_positive(x: nat, p: nat)
    requires
        x > 0,
        p > 0,
    ensures
        round_to(x, p) > 0,
{
    lemma_bit_length_bounds(x);
    lemma_pow2_pos((bit_length(x) - 1) as nat);
    lemma_round_bounds(x, p);
}

/// Rounding a quotient that has more than `p` digits before the point changes it by at most one
/// part in `2^p`.
pub(crate) proof fn lemma_round_ratio_error(x: nat, d: nat, p: nat)
    requires
        d > 0,
        p > 0,
        bit_length(x / d) > p,
    ensures
        round_ratio(x, d, p) * d * pow2(p) <= x * (pow2(p) + 1),
        round_ratio(x, d, p) * d * pow2(p) >= x * (pow2(p) - 1),
{
    let l = bit_length(x / d);
    let e = (l - p) as nat;
    let u = pow2(e);
    let c = d * u;
    let half = pow2((p - 1) as nat);
    lemma_pow2_pos(e);
    lemma_pow2_unfold(p);
    lemma_pow2_adds((p - 1) as nat, e);
    assert(c > 0) by (nonlinear_arith)
        requires
            c == d * u,
            d > 0,
            u > 0,
    ;
    let q = x / c;
    let r = x % c;
    let s = nearest(x, c);
    lemma_fundamental_div_mod(x as int, c as int);
    lemma_fundamental_div_mod(x as int, d as int);
    assert(x / d > 0) by {
        if x / d == 0 {
            assert(bit_length(0) == 0);
        }
    }
    lemma_bit_length_bounds(x / d);
    let whole = x / d;
    assert(c * half <= x) by (nonlinear_arith)
        requires
            c == d * u,
            half * u <= whole,
            x == d * whole + (x % d),
            x % d >= 0,
            d > 0,
    ;
    assert(2 * (s * c) <= 2 * x + c && 2 * (s * c) >= 2 * x - c) by (nonlinear_arith)
        requires
            x == c * q + r,
            s == q && 2 * r <= c || s == q + 1 && 2 * r >= c,
            0 <= r < c,
    ;
    assert((s * u) * d == s * c) by (nonlinear_arith)
        requires
            c == d * u,
    ;
    let y = s * c;
    assert(y * (2 * half) <= x * (2 * half + 1)) by (nonlinear_arith)
        requires
            2 * y <= 2 * x + c,
            c * half <= x,
            half >= 0,
    ;
    assert(y * (2 * half) >= x * (2 * half - 1)) by (nonlinear_arith)
        requires
            2 * y >= 2 * x - c,
            c * half <= x,
            half >= 0,
    ;
}

/// Whether `y` is the number of `p` binary digits and `e` zeros behind them that is nearest to
/// `x / d`, and of two equally near ones the one whose last digit is zero. There are as many
/// zeros as `x / d` has digits before the point beyond the first `p`.
pub open spec fn rounded(y: nat, x: nat, d: nat, p: nat, e: nat) -> bool {
    let gap = if y * d < x {
        x - y * d
    } else {
        y * d - x
    };
    &&& x < d * pow2(p + e)
    &&& e > 0 ==> x >= d * pow2((p + e - 1) as nat)
    &&& y % pow2(e) == 0
    &&& 2 * gap <= d * pow2(e)
    &&& 2 * gap == d * pow2(e) ==> (y / pow2(e)) % 2 == 0
}

/// Number of digits of a number: it lies between the powers of two next to it.
pub proof fn law_digits_count_powers_of_two(x: nat)
    ensures
        x < pow2(bit_length(x)),
        bit_length(x) > 0 ==> x >= pow2((bit_length(x) - 1) as nat),
{
    lemma2_to64();
    if x > 0 {
        lemma_bit_length_bounds(x);
    }
}

/// Rounding gives the nearest number that has no more than `p` digits before its zeros, and of
/// two equally near ones the even one.
pub proof fn law_rounding_is_to_the_nearest(x: nat, d: nat, p: nat)
    requires
        d > 0,
        p > 0,
    ensures
        ({
            let l = bit_length(x / d);
            rounded(
                round_ratio(x, d, p),
                x,
                d,
                p,
                if l <= p {
                    0
                } else {
                    (l - p) as nat
                },
            )
        }),
{
    let l = bit_length(x / d);
    let e = if l <= p {
        0nat
    } else {
        (l - p) as nat
    };
    let u = pow2(e);
    let c = d * u;
    let whole = x / d;
    lemma2_to64();
    lemma_pow2_pos(e);
    lemma_fundamental_div_mod(x as int, d as int);
    law_digits_count_powers_of_two(whole);
    if l < p {
        lemma_pow2_strictly_increases(l, p);
    }
    assert(p + e == l || (e == 0 && l <= p));
    let top = pow2(p + e);
    assert(d * whole + d <= d * top) by (nonlinear_arith)
        requires
            whole + 1 <= top,
    ;
    assert(x < d * top);
    if e > 0 {
        let low = pow2((p + e - 1) as nat);
        assert(d * whole >= d * low) by (nonlinear_arith)
            requires
                whole >= low,
        ;
    }
    assert(c > 0) by (nonlinear_arith)
        requires
            c == d * u,
            d > 0,
            u > 0,
    ;
    assert(d * 1 == d);
    let s = nearest(x, c);
    let y = round_ratio(x, d, p);
    assert(s * 1 == s);
    assert(y == s * u);
    let q = x / c;
    let r = x % c;
    lemma_fundamental_div_mod(x as int, c as int);
    assert(y * d == s * c) by (nonlinear_arith)
        requires
            y == s * u,
            c == d * u,
    ;
    assert(s * c == if s == q {
        x - r
    } else {
        x - r + c
    }) by (nonlinear_arith)
        requires
            x == c * q + r,
            s == q || s == q + 1,
    ;
    assert(s * u == u * s + 0) by (nonlinear_arith);
    lemma_fundamental_div_mod_converse(y as int, u as int, s as int, 0);
}

/// There is only one number that a number is rounded to.
pub proof fn law_rounding_is_unique(y: nat, z: nat, x: nat, d: nat, p: nat, e: nat, f: nat)
    requires
        d > 0,
        p > 0,
        rounded(y, x, d, p, e),
        rounded(z, x, d, p, f),
    ensures
        y == z,
        e == f,
{
    if e < f {
        lemma_longer_is_larger(x, d, p, e, f);
    }
    if f < e {
        lemma_longer_is_larger(x, d, p, f, e);
    }
    let u = pow2(e);
    let c = d * u;
    lemma_pow2_pos(e);
    assert(c > 0) by (nonlinear_arith)
        requires
            c == d * u,
            d > 0,
            u > 0,
    ;
    lemma_fundamental_div_mod(y as int, u as int);
    lemma_fundamental_div_mod(z as int, u as int);
    let s = y / u;
    let t = z / u;
    assert(y * d == s * c) by (nonlinear_arith)
        requires
            y == u * s,
            c == d * u,
    ;
    assert(z * d == t * c) by (nonlinear_arith)
        requires
            z == u * t,
            c == d * u,
    ;
    assert(s < t ==> s * c + c <= t * c) by (nonlinear_arith)
        requires
            c > 0,
    ;
    assert(t < s ==> t * c + c <= s * c) by (nonlinear_arith)
        requires
            c > 0,
    ;
    assert(s + 1 < t ==> s * c + 2 * c <= t * c) by (nonlinear_arith)
        requires
            c > 0,
    ;
    assert(t + 1 < s ==> t * c + 2 * c <= s * c) by (nonlinear_arith)
        requires
            c > 0,
    ;
    assert(s == t);
}

/// What stays below a power of two stays below the larger ones.
proof fn lemma_longer_is_larger(x: nat, d: nat, p: nat, e: nat, f: nat)
    requires
        d > 0,
        p > 0,
        e < f,
        x < d * pow2(p + e),
    ensures
        x < d * pow2((p + f - 1) as nat),
{
    if e < f - 1 {
        lemma_pow2_strictly_increases(p + e, (p + f - 1) as nat);
    }
    let a = pow2(p + e);
    let b = pow2((p + f - 1) as nat);
    assert(d * a <= d * b) by (nonlinear_arith)
        requires
            a <= b,
    ;
}

} // verus!
