//! How many senders run, and how long each of them waits between two transactions.
use crate::float::{
    bit_length, law_rounding_is_to_the_nearest, law_rounding_is_unique, lemma_bit_length_above,
    lemma_bit_length_at_most, lemma_round_bounds, lemma_round_exact, lemma_round_positive,
    lemma_round_ratio_error, lemma_round_scale, power, round_int, round_quotient, round_ratio,
    round_to, rounded,
};
use vstd::arithmetic::div_mod::{lemma_fundamental_div_mod, lemma_fundamental_div_mod_converse};
use vstd::arithmetic::power2::{
    lemma2_to64, lemma2_to64_rest, lemma_pow2_adds, lemma_pow2_pos, lemma_pow2_strictly_increases,
    pow2,
};
use vstd::prelude::*;

verus! {

/// Number of senders: as many as asked for, else one for each transaction per second.
pub open spec fn senders(total_senders: Option<usize>, tps: usize) -> usize {
    match total_senders {
        Some(n) => n,
        None => tps,
    }
}

/// Returns the number of senders to run for a target of `tps` transactions per second.
pub fn sender_count(total_senders: Option<usize>, tps: usize) -> (n: usize)
    ensures
        n == senders(total_senders, tps),
{
    match total_senders {
        Some(n) => n,
        None => tps,
    }
}

/// Milliseconds between two transactions of one sender where `n` senders share a target of
/// `tps` transactions per second: `1000 * (n / tps)` in `f64` arithmetic, rounded towards zero
/// and cut off at the largest `u64`.
///
/// Both counts are rounded to a `f64`, so is their quotient (written here in units of
/// `2^-128`), and so is a thousand times the quotient. With no senders the result is zero, also
/// where the target is zero and the quotient is not a number; with a target of zero and some
/// sender the quotient is infinite.
pub open spec fn sleep_millis(n: nat, tps: nat) -> nat {
    if n == 0 {
        0
    } else if tps == 0 {
        u64::MAX as nat
    } else {
        let quotient = round_ratio(round_to(n, 53) * pow2(128), round_to(tps, 53), 53);
        let product = round_to(quotient * 1000, 53);
        let whole = product / pow2(128);
        if whole > u64::MAX {
            u64::MAX as nat
        } else {
            whole
        }
    }
}

/// The integer part of `m * 2^up / 2^down`, cut off at the largest `u64`.
fn scaled(m: u128, up: u32, down: u32) -> (r: u64)
    requires
        m <= pow2(53),
        up <= 22,
        down <= 118,
    ensures
        r == ({
            let whole = (m * pow2((up + 128 - down) as nat)) as nat / pow2(128);
            if whole > u64::MAX {
                u64::MAX as nat
            } else {
                whole
            }
        }),
{
    proof {
        lemma2_to64_rest();
        lemma_pow2_pos(128);
    }
    let whole: u128 = if up >= down {
        let u: u128 = power(up - down);
        proof {
            lemma_pow2_adds((up - down) as nat, 128);
            if up - down < 22 {
                lemma_pow2_strictly_increases((up - down) as nat, 22);
            }
            lemma2_to64();
            assert(m * u <= 0x20_0000_0000_0000 * 0x40_0000) by (nonlinear_arith)
                requires
                    m <= 0x20_0000_0000_0000,
                    u <= 0x40_0000,
            ;
            assert(m * (u * pow2(128)) == (m * u) * pow2(128) + 0) by (nonlinear_arith);
            lemma_fundamental_div_mod_converse(
                m * pow2((up + 128 - down) as nat),
                pow2(128) as int,
                m * u,
                0,
            );
        }
        m * u
    } else {
        let u: u128 = power(down - up);
        proof {
            let c = pow2((up + 128 - down) as nat);
            lemma_pow2_adds((up + 128 - down) as nat, (down - up) as nat);
            lemma_pow2_pos((down - up) as nat);
            lemma_pow2_pos((up + 128 - down) as nat);
            lemma_fundamental_div_mod(m as int, u as int);
            let q = m as int / u as int;
            let r = m as int % u as int;
            assert(m * c == q * (c * u) + r * c) by (nonlinear_arith)
                requires
                    m == u * q + r,
            ;
            assert(0 <= r * c < c * u) by (nonlinear_arith)
                requires
                    0 <= r < u,
                    c > 0,
            ;
            lemma_fundamental_div_mod_converse(m * c, pow2(128) as int, q, r * c);
        }
        m / u
    };
    if whole > u64::MAX as u128 {
        u64::MAX
    } else {
        whole as u64
    }
}

/// A count, as the `f64` nearest to it.
fn count_to_f64(n: usize) -> (a: u128)
    requires
        n > 0,
    ensures
        a == round_to(n as nat, 53),
        1 <= a <= 0x1_0000_0000_0000_0000,
{
    let (sig, e): (u128, u32) = round_int(n as u128, 53);
    proof {
        lemma2_to64();
        lemma2_to64_rest();
        lemma_bit_length_at_most(n as nat, 64);
        lemma_pow2_pos(e as nat);
        if e < 11 {
            lemma_pow2_strictly_increases(e as nat, 11);
        }
        assert(sig * pow2(e as nat) <= 0x20_0000_0000_0000 * 0x800) by (nonlinear_arith)
            requires
                sig <= 0x20_0000_0000_0000,
                pow2(e as nat) <= 0x800,
        ;
        if e == 0 {
            assert(n as nat / 1 == n);
            assert(n as nat % 1 == 0);
        } else {
            assert(sig * pow2(e as nat) >= 1) by (nonlinear_arith)
                requires
                    sig >= 1,
                    pow2(e as nat) >= 1,
            ;
        }
    }
    sig * power(e)
}

/// Returns how many milliseconds a sender waits between two transactions.
pub fn worker_sleep(n_tx_sender: usize, tps: usize) -> (ms: u64)
    ensures
        ms == sleep_millis(n_tx_sender as nat, tps as nat),
{
    if n_tx_sender == 0 {
        return 0;
    }
    if tps == 0 {
        return u64::MAX;
    }
    let a: u128 = count_to_f64(n_tx_sender);
    let b: u128 = count_to_f64(tps);
    let (sig, k, s): (u128, u32, u32) = round_quotient(a, b);
    proof {
        lemma2_to64_rest();
    }
    let (m, e): (u128, u32) = round_int(sig * 1000, 53);
    proof {
        let x = (sig * 1000) as nat;
        lemma_bit_length_at_most(x, 63);
        lemma_bit_length_above(x, 53);
        let t = (k + 128 - s) as nat;
        lemma_round_scale(x, 53, t);
        lemma_pow2_adds(e as nat, t);
        assert((sig * pow2(t)) * 1000 == x * pow2(t)) by (nonlinear_arith)
            requires
                x == sig * 1000,
        ;
        assert((m * pow2(e as nat)) * pow2(t) == m * (pow2(e as nat) * pow2(t)))
            by (nonlinear_arith);
        assert(e + t == e + k + 128 - s);
    }
    scaled(m, e + k, s)
}

/// Where the number of senders is a multiple of the target, each sender waits that multiple of
/// a second. Counts below `2^53` are held by a `f64` exactly.
pub proof fn law_whole_multiple_waits_whole_seconds(tps: nat, j: nat)
    requires
        tps > 0,
        j * tps < 0x20_0000_0000_0000,
        1000 * j < 0x20_0000_0000_0000,
    ensures
        sleep_millis(j * tps, tps) == 1000 * j,
{
    lemma2_to64_rest();
    lemma_pow2_pos(128);
    let n = j * tps;
    if j > 0 {
        assert(tps <= n && n > 0) by (nonlinear_arith)
            requires
                n == j * tps,
                j >= 1,
                tps >= 1,
        ;
        lemma_bit_length_at_most(n, 53);
        lemma_bit_length_at_most(tps, 53);
        assert(n / 1 == n && n % 1 == 0);
        assert(tps / 1 == tps && tps % 1 == 0);
        assert(round_to(n, 53) == n);
        assert(round_to(tps, 53) == tps);
        lemma_bit_length_at_most(j, 53);
        lemma_round_exact(j, 128, tps, 53);
        assert(n * pow2(128) == (j * pow2(128)) * tps) by (nonlinear_arith)
            requires
                n == j * tps,
        ;
        lemma_bit_length_at_most(1000 * j, 53);
        lemma_round_exact(1000 * j, 128, 1, 53);
        let p = (1000 * j) * pow2(128);
        assert((j * pow2(128)) * 1000 == p) by (nonlinear_arith)
            requires
                p == (1000 * j) * pow2(128),
        ;
        assert(p * 1 == p);
        lemma_fundamental_div_mod_converse(p as int, pow2(128) as int, (1000 * j) as int, 0);
    } else {
        assert(n == 0) by (nonlinear_arith)
            requires
                n == j * tps,
                j == 0,
        ;
    }
}

/// With one sender for each transaction per second, which is what runs where no number of
/// senders is given, every sender waits one second.
pub proof fn law_one_sender_per_tps_waits_one_second(tps: usize)
    requires
        tps > 0,
    ensures
        sleep_millis(senders(None, tps) as nat, tps as nat) == 1000,
{
    let n = tps as nat;
    lemma2_to64();
    lemma2_to64_rest();
    lemma_pow2_pos(128);
    let a = round_to(n, 53);
    lemma_round_positive(n, 53);
    lemma_bit_length_at_most(1, 53);
    lemma_round_exact(1, 128, a, 53);
    assert(1 * pow2(128) == pow2(128));
    assert(a * pow2(128) == pow2(128) * a) by (nonlinear_arith);
    lemma_bit_length_at_most(1000, 53);
    lemma_round_exact(1000, 128, 1, 53);
    let p = 1000 * pow2(128);
    assert(pow2(128) * 1000 == p);
    assert(p * 1 == p);
    lemma_fundamental_div_mod_converse(p as int, pow2(128) as int, 1000, 0);
}

/// The quotient and the product that the wait is read off have more than 53 digits before the
/// point.
proof fn lemma_long_enough(a: nat, b: nat)
    requires
        1 <= a,
        1 <= b <= 0x1_0000_0000_0000_0000,
    ensures
        bit_length((a * pow2(128)) / b) > 53,
        ({
            let q = round_ratio(a * pow2(128), b, 53);
            bit_length((q * 1000) / 1) > 53
        }),
{
    lemma2_to64();
    lemma2_to64_rest();
    lemma_pow2_adds(64, 64);
    let x = a * pow2(128);
    let y = x / b;
    lemma_fundamental_div_mod(x as int, b as int);
    assert(y >= 0x1_0000_0000_0000_0000) by (nonlinear_arith)
        requires
            x == b * y + (x % b),
            x % b < b,
            x == a * (0x1_0000_0000_0000_0000 * 0x1_0000_0000_0000_0000),
            a >= 1,
            1 <= b <= 0x1_0000_0000_0000_0000,
    ;
    lemma_bit_length_above(y, 53);
    lemma_round_ratio_error(x, b, 53);
    let q = round_ratio(x, b, 53);
    let w = pow2(53);
    assert(q >= 0x20_0000_0000_0000) by (nonlinear_arith)
        requires
            q * b * w >= x * (w - 1),
            w == 0x20_0000_0000_0000,
            x >= b * 0x1_0000_0000_0000_0000,
            b >= 1,
    ;
    assert((q * 1000) / 1 == q * 1000);
    lemma_bit_length_above(q * 1000, 53);
}

/// How far the wait can be from a thousand times the quotient of two counts that were rounded
/// already, where it is not cut off.
proof fn lemma_wait_error(a: nat, b: nat)
    requires
        1 <= a,
        1 <= b <= 0x1_0000_0000_0000_0000,
    ensures
        ({
            let w = pow2(53);
            let q = round_ratio(a * pow2(128), b, 53);
            let whole = round_to(q * 1000, 53) / pow2(128);
            &&& whole * b * (w * w) <= 1000 * a * ((w + 1) * (w + 1))
            &&& (whole + 1) * b * (w * w) > 1000 * a * ((w - 1) * (w - 1))
        }),
{
    lemma2_to64_rest();
    lemma_pow2_pos(128);
    lemma_long_enough(a, b);
    let w = pow2(53);
    let c = pow2(128);
    let q = round_ratio(a * c, b, 53);
    lemma_round_ratio_error(a * c, b, 53);
    lemma_round_ratio_error(q * 1000, 1, 53);
    let p = round_to(q * 1000, 53);
    let whole = p / c;
    lemma_fundamental_div_mod(p as int, c as int);
    assert(p * 1 * w == p * w);
    let qb = q * b;
    let up = w + 1;
    let down = w - 1;
    assert(whole * c <= p < (whole + 1) * c) by (nonlinear_arith)
        requires
            p == c * whole + (p % c),
            0 <= p % c < c,
    ;
    // From above.
    assert(p * w * (b * w) <= (1000 * a * (up * up)) * c) by {
        assert(p * w * (b * w) <= ((q * 1000) * up) * (b * w)) by (nonlinear_arith)
            requires
                p * w <= (q * 1000) * up,
                b * w >= 0,
        ;
        assert(((q * 1000) * up) * (b * w) == (1000 * up) * (qb * w)) by (nonlinear_arith)
            requires
                qb == q * b,
        ;
        assert((1000 * up) * (qb * w) <= (1000 * up) * ((a * c) * up)) by (nonlinear_arith)
            requires
                qb * w <= (a * c) * up,
                up >= 0,
        ;
        assert((1000 * up) * ((a * c) * up) == (1000 * a * (up * up)) * c) by (nonlinear_arith);
    }
    assert((whole * b * (w * w)) * c <= p * w * (b * w)) by (nonlinear_arith)
        requires
            whole * c <= p,
            b >= 0,
            w >= 0,
    ;
    let high = 1000 * a * (up * up);
    let low_side = whole * b * (w * w);
    assert(low_side <= high) by (nonlinear_arith)
        requires
            low_side * c <= high * c,
            c > 0,
    ;
    // From below.
    assert(p * w * (b * w) >= (1000 * a * (down * down)) * c) by {
        assert(p * w * (b * w) >= ((q * 1000) * down) * (b * w)) by (nonlinear_arith)
            requires
                p * w >= (q * 1000) * down,
                b * w >= 0,
        ;
        assert(((q * 1000) * down) * (b * w) == (1000 * down) * (qb * w)) by (nonlinear_arith)
            requires
                qb == q * b,
        ;
        assert((1000 * down) * (qb * w) >= (1000 * down) * ((a * c) * down)) by (nonlinear_arith)
            requires
                qb * w >= (a * c) * down,
                down >= 0,
        ;
        assert((1000 * down) * ((a * c) * down) == (1000 * a * (down * down)) * c)
            by (nonlinear_arith);
    }
    let bw = b * w * w;
    assert(bw > 0) by (nonlinear_arith)
        requires
            bw == b * w * w,
            b > 0,
            w > 0,
    ;
    assert(((whole + 1) * b * (w * w)) * c > p * w * (b * w)) by (nonlinear_arith)
        requires
            p < (whole + 1) * c,
            bw == b * w * w,
            bw > 0,
    ;
    let low = 1000 * a * (down * down);
    let high_side = (whole + 1) * b * (w * w);
    assert(high_side > low) by (nonlinear_arith)
        requires
            high_side * c > low * c,
            c > 0,
    ;
}

/// All senders together send as many transactions per second as they should, as closely as a
/// wait in whole milliseconds allows: with a wait of one millisecond more they would send at
/// most as many, and with the wait they have they send no fewer.
///
/// A thousand times the number of senders is below `2^52`; beyond that the roundings can add up
/// to a millisecond.
pub proof fn law_senders_meet_the_target(n: nat, tps: nat)
    requires
        0 < tps <= u64::MAX,
        1000 * n < 0x10_0000_0000_0000,
    ensures
        sleep_millis(n, tps) * tps <= 1000 * n <= (sleep_millis(n, tps) + 1) * tps,
{
    if n > 0 {
        lemma2_to64();
        lemma2_to64_rest();
        lemma_pow2_pos(128);
        let w = pow2(53);
        let b = round_to(tps, 53);
        lemma_bit_length_at_most(n, 53);
        assert(n / 1 == n && n % 1 == 0);
        assert(round_to(n, 53) == n);
        lemma_round_positive(tps, 53);
        lemma_bit_length_at_most(tps, 64);
        lemma_round_bounds(tps, 53);
        if bit_length(tps) < 64 {
            lemma_pow2_strictly_increases(bit_length(tps), 64);
        }
        lemma_wait_error(n, b);
        let q = round_ratio(n * pow2(128), b, 53);
        let whole = round_to(q * 1000, 53) / pow2(128);
        let k = 1000 * n;
        let wb = whole * b;
        assert(wb * (w * w) <= k * ((w + 1) * (w + 1)));
        let vb = (whole + 1) * b;
        assert(vb * (w * w) > k * ((w - 1) * (w - 1)));
        assert(wb <= k) by (nonlinear_arith)
            requires
                wb * (w * w) <= k * ((w + 1) * (w + 1)),
                w == 0x20_0000_0000_0000,
                k < 0x10_0000_0000_0000,
        ;
        assert(vb >= k) by (nonlinear_arith)
            requires
                vb * (w * w) > k * ((w - 1) * (w - 1)),
                w == 0x20_0000_0000_0000,
                k < 0x10_0000_0000_0000,
        ;
        assert(whole <= wb) by (nonlinear_arith)
            requires
                wb == whole * b,
                b >= 1,
        ;
        assert(sleep_millis(n, tps) == whole);
        if tps < w {
            lemma_bit_length_at_most(tps, 53);
            assert(tps / 1 == tps && tps % 1 == 0);
            assert(b == tps);
        } else {
            // So high a target leaves no whole millisecond to wait.
            lemma_bit_length_above(tps, 53);
            if bit_length(tps) > 54 {
                lemma_pow2_strictly_increases(53, (bit_length(tps) - 1) as nat);
            }
            assert(b >= w);
            assert(whole == 0) by (nonlinear_arith)
                requires
                    whole * b <= k,
                    b >= w,
                    w == 0x20_0000_0000_0000,
                    k < 0x10_0000_0000_0000,
            ;
        }
    }
}

/// As many senders run as are asked for; where no number is given, as many as the target counts
/// transactions per second.
pub proof fn law_asked_for_senders_run(n: usize, tps: usize)
    ensures
        senders(Some(n), tps) == n,
        senders(None, tps) == tps,
{
}

/// No senders wait no time; where the target is zero, any sender waits for as long as can be.
pub proof fn law_wait_at_zero(n: nat)
    requires
        n > 0,
    ensures
        sleep_millis(n, 0) == u64::MAX,
        forall|tps: nat| sleep_millis(0, tps) == 0,
{
}

/// The wait is what `f64` arithmetic makes of `1000 * (n / tps)`, for all counts. Where `a` and
/// `b` are the numbers of 53 digits nearest to the two counts, `q` is the one nearest to their
/// quotient, in units of `2^-128`, and `p` the one nearest to a thousand times that, the wait is
/// the integer part of `p`, or the largest `u64` where that is smaller.
pub proof fn law_wait_is_the_rounded_quotient(
    n: nat,
    tps: nat,
    a: nat,
    b: nat,
    q: nat,
    p: nat,
    zeros: (nat, nat, nat, nat),
)
    requires
        n > 0,
        tps > 0,
        rounded(a, n, 1, 53, zeros.0),
        rounded(b, tps, 1, 53, zeros.1),
        rounded(q, a * pow2(128), b, 53, zeros.2),
        rounded(p, 1000 * q, 1, 53, zeros.3),
    ensures
        ({
            let wait = sleep_millis(n, tps);
            &&& wait <= u64::MAX
            &&& wait * pow2(128) <= p
            &&& wait < u64::MAX ==> p < (wait + 1) * pow2(128)
        }),
{
    law_rounding_is_to_the_nearest(n, 1, 53);
    law_rounding_is_unique(a, round_to(n, 53), n, 1, 53, zeros.0, zeros_of(n, 1));
    law_rounding_is_to_the_nearest(tps, 1, 53);
    law_rounding_is_unique(b, round_to(tps, 53), tps, 1, 53, zeros.1, zeros_of(tps, 1));
    lemma_round_positive(tps, 53);
    let x = a * pow2(128);
    law_rounding_is_to_the_nearest(x, b, 53);
    law_rounding_is_unique(q, round_ratio(x, b, 53), x, b, 53, zeros.2, zeros_of(x, b));
    let y = 1000 * q;
    law_rounding_is_to_the_nearest(y, 1, 53);
    law_rounding_is_unique(p, round_to(y, 53), y, 1, 53, zeros.3, zeros_of(y, 1));
    assert(q * 1000 == y);
    let c = pow2(128);
    lemma_pow2_pos(128);
    lemma_fundamental_div_mod(p as int, c as int);
    let whole = p / c;
    let wait = sleep_millis(n, tps);
    assert(whole * c <= p < (whole + 1) * c) by (nonlinear_arith)
        requires
            p == c * whole + (p % c),
            0 <= p % c < c,
    ;
    assert(wait * c <= whole * c) by (nonlinear_arith)
        requires
            wait <= whole,
    ;
}

/// How many zeros stand behind the 53 digits that `x / d` is rounded to.
spec fn zeros_of(x: nat, d: nat) -> nat {
    let l = bit_length(x / d);
    if l <= 53 {
        0
    } else {
        (l - 53) as nat
    }
}

} // verus!
