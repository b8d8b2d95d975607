//! Numbers as they are shown with one decimal.
//!
//! Sizes and durations are shown the way binary floating point shows them: each
//! step of the computation keeps 53 significant bits, and every rounding goes to
//! the nearest value, to the even one of two that are equally near.
use crate::text;
use vstd::prelude::*;

verus! {

/// Two to the power of 53: the first integer with more significant bits than are
/// kept.
pub const PRECISION: u128 = 0x20_0000_0000_0000;

/// `n / d` to the nearest integer, to the even one of two that are equally near.
pub open spec fn nearest(n: nat, d: nat) -> nat {
    let q = n / d;
    let r = n % d;
    if 2 * r > d || (2 * r == d && q % 2 == 1) {
        q + 1
    } else {
        q
    }
}

/// The weight of the last bit kept of `n`, found by doubling `u`.
pub open spec fn last_bit(n: nat, u: nat) -> nat
    decreases n - u,
{
    if u > 0 && n >= u * PRECISION {
        last_bit(n, u * 2)
    } else {
        u
    }
}

/// `n` with 53 significant bits kept.
pub open spec fn rounded(n: nat) -> nat {
    let u = last_bit(n, 1);
    nearest(n, u) * u
}

/// `n` and `p` doubled together until the quotient of `n` and `d` has 53 bits.
pub open spec fn widened(n: nat, p: nat, d: nat) -> (nat, nat)
    decreases PRECISION * d - n,
{
    if n == 0 || 2 * n >= PRECISION * d {
        (n, p)
    } else {
        widened(n * 2, p * 2, d)
    }
}

/// `n / d`, which is at most one, as a numerator and its power of two.
pub open spec fn quotient(n: nat, d: nat) -> (nat, nat) {
    let (wide, p) = widened(n, 1, d);
    (nearest(wide, d), p)
}

/// `whole + n / d`, for a fraction below one, as a numerator and its power of two:
/// the fraction is rounded first, and then the sum.
pub open spec fn mixed(whole: nat, n: nat, d: nat) -> (nat, nat) {
    let (m, p) = quotient(n, d);
    (rounded(whole * p + m), p)
}

/// `done / total` as a numerator and its power of two, and one where there is
/// nothing to do or more than all of it is done.
pub open spec fn fraction(done: nat, total: nat) -> (nat, nat) {
    let n = rounded(done);
    let d = rounded(total);
    if total == 0 || n > d {
        (1, 1)
    } else {
        quotient(n, d)
    }
}

/// The part of `whole` that `done` is of `total`, to the nearest integer, and to
/// the larger of two that are equally near.
pub open spec fn share_nearest(done: nat, total: nat, whole: nat) -> nat {
    let (m, p) = fraction(done, total);
    let n = (2 * rounded(m * whole) + p) / (2 * p);
    if n < whole {
        n
    } else {
        whole
    }
}

/// The part of `whole` that `done` is of `total`, rounded down.
pub open spec fn share_below(done: nat, total: nat, whole: nat) -> nat {
    let (m, p) = fraction(done, total);
    rounded(m * whole) / p
}

/// `n / d` with one decimal.
pub open spec fn one_decimal(n: nat, d: nat) -> Seq<char> {
    let tenths = nearest(n * 10, d);
    text::dec(tenths / 10) + "."@ + text::dec(tenths % 10)
}

/// `n / d` to the nearest integer.
pub fn nearest_to(n: u128, d: u128) -> (r: u128)
    requires
        0 < d < 0x8000_0000_0000_0000_0000_0000_0000_0000,
    ensures
        r == nearest(n as nat, d as nat),
        r <= n / d + 1,
{
    let q: u128 = n / d;
    let r: u128 = n % d;
    if 2 * r > d || (2 * r == d && q % 2 == 1) {
        assert(q < 0xffff_ffff_ffff_ffff_ffff_ffff_ffff_ffff) by (nonlinear_arith)
            requires
                q == n / d,
                r == n % d,
                2 * r >= d,
                d > 0,
        ;
        q + 1
    } else {
        q
    }
}

/// `n` with 53 significant bits kept.
pub fn rounded_to(n: u128) -> (r: u128)
    requires
        n < 0x1_0000_0000_0000_0000_0000_0000,
    ensures
        r == rounded(n as nat),
        r <= 2 * n,
        n < PRECISION ==> r == n,
{
    let mut u: u128 = 1;
    while n >= u * PRECISION
        invariant
            0 < u,
            n < 0x1_0000_0000_0000_0000_0000_0000,
            u * PRECISION <= 2 * n || u == 1,
            last_bit(n as nat, u as nat) == last_bit(n as nat, 1),
        decreases n - u,
    {
        assert(u * 2 * PRECISION <= 2 * n) by (nonlinear_arith)
            requires
                u * PRECISION <= n,
        ;
        u = u * 2;
    }
    let q = nearest_to(n, u);
    proof {
        lemma_product(n as nat, u as nat, q as nat);
    }
    q * u
}

proof fn lemma_product(n: nat, u: nat, q: nat)
    requires
        u > 0,
        q == nearest(n, u),
    ensures
        q * u <= 2 * n,
        u == 1 ==> q == n,
{
    let a = n / u;
    let r = n % u;
    assert(n == a * u + r && r < u) by (nonlinear_arith)
        requires
            a == n / u,
            r == n % u,
            u > 0,
    ;
    if q == a + 1 {
        assert((a + 1) * u == a * u + u) by (nonlinear_arith);
        assert(a * u >= 0) by (nonlinear_arith)
            requires
                a >= 0,
                u > 0,
        ;
        if u == 1 {
            assert(r == 0);
        }
    } else {
        assert(a * u <= n);
        assert(u == 1 ==> a == n) by (nonlinear_arith)
            requires
                n == a * u + r,
                r < u,
        ;
    }
}

/// `n / d`, which is at most one, as a numerator and its power of two.
pub fn quotient_to(n: u128, d: u128) -> (r: (u128, u128))
    requires
        n <= d,
        0 < d <= 0x2_0000_0000_0000_0000,
    ensures
        r.0 == quotient(n as nat, d as nat).0,
        r.1 == quotient(n as nat, d as nat).1,
        0 < r.1 <= PRECISION * d,
        r.0 <= PRECISION + 1,
        r.0 <= r.1,
{
    let mut wide: u128 = n;
    let mut p: u128 = 1;
    assert(PRECISION * d <= 0x40_0000_0000_0000_0000_0000_0000_0000) by (nonlinear_arith)
        requires
            d <= 0x2_0000_0000_0000_0000,
            PRECISION == 0x20_0000_0000_0000,
    ;
    assert(n < PRECISION * d) by (nonlinear_arith)
        requires
            n <= d,
            0 < d,
            PRECISION == 0x20_0000_0000_0000,
    ;
    while wide != 0 && 2 * wide < PRECISION * d
        invariant
            PRECISION * d <= 0x40_0000_0000_0000_0000_0000_0000_0000,
            wide < PRECISION * d,
            n == 0 ==> p == 1 && wide == 0,
            n > 0 ==> p <= wide,
            0 < p,
            wide == n * p,
            widened(wide as nat, p as nat, d as nat) == widened(n as nat, 1, d as nat),
        decreases PRECISION * d - wide,
    {
        assert(n * (p * 2) == (n * p) * 2) by (nonlinear_arith);
        wide = wide * 2;
        p = p * 2;
    }
    let m = nearest_to(wide, d);
    assert(wide / d <= PRECISION) by (nonlinear_arith)
        requires
            wide < PRECISION * d,
            d > 0,
    ;
    proof {
        lemma_at_most_one(n as nat, p as nat, d as nat);
    }
    (m, p)
}

proof fn lemma_at_most_one(n: nat, p: nat, d: nat)
    requires
        n <= d,
        0 < d,
    ensures
        nearest(n * p, d) <= p,
{
    let q = (n * p) / d;
    let r = (n * p) % d;
    assert(n * p <= d * p) by (nonlinear_arith)
        requires
            n <= d,
    ;
    assert(n * p == d * q + r && r < d) by (nonlinear_arith)
        requires
            d > 0,
            q == (n * p) / d,
            r == (n * p) % d,
    ;
    assert(q <= p && (q == p ==> r == 0)) by (nonlinear_arith)
        requires
            d > 0,
            d * q + r <= d * p,
            0 <= r < d,
    ;
}

/// `whole + n / d` for a fraction below one, as a numerator and its power of two.
pub fn mixed_to(whole: u128, n: u128, d: u128) -> (r: (u128, u128))
    requires
        whole < 64,
        n < d,
        d <= 0x4000_0000,
    ensures
        r.0 == mixed(whole as nat, n as nat, d as nat).0,
        r.1 == mixed(whole as nat, n as nat, d as nat).1,
        0 < r.1 <= 0x80_0000_0000_0000_0000_0000,
        r.0 <= 128 * r.1,
{
    assert(PRECISION * d <= 0x80_0000_0000_0000_0000_0000) by (nonlinear_arith)
        requires
            d <= 0x4000_0000,
            PRECISION == 0x20_0000_0000_0000,
    ;
    let (m, p) = quotient_to(n, d);
    assert(whole * p <= 63 * p) by (nonlinear_arith)
        requires
            whole < 64,
            0 < p,
    ;
    (rounded_to(whole * p + m), p)
}

fn fraction_to(done: usize, total: usize) -> (r: (u128, u128))
    ensures
        r.0 == fraction(done as nat, total as nat).0,
        r.1 == fraction(done as nat, total as nat).1,
        0 < r.1 <= 0x40_0000_0000_0000_0000_0000_0000_0000,
        r.0 <= PRECISION + 1,
{
    let n = rounded_to(done as u128);
    let d = rounded_to(total as u128);
    if total == 0 || n > d {
        return (1, 1);
    }
    proof {
        lemma_rounded_positive(total as nat);
        assert(PRECISION * d <= 0x40_0000_0000_0000_0000_0000_0000_0000) by (nonlinear_arith)
            requires
                d <= 0x2_0000_0000_0000_0000,
                PRECISION == 0x20_0000_0000_0000,
        ;
    }
    quotient_to(n, d)
}

proof fn lemma_last_bit(n: nat, u: nat)
    requires
        n > 0,
        u > 0,
        u == 1 || n >= u,
    ensures
        last_bit(n, u) > 0,
        last_bit(n, u) <= n,
    decreases n - u,
{
    if n >= u * PRECISION {
        assert(u * 2 <= u * PRECISION) by (nonlinear_arith)
            requires
                PRECISION == 0x20_0000_0000_0000,
        ;
        lemma_last_bit(n, u * 2);
    }
}

proof fn lemma_rounded_positive(n: nat)
    requires
        n > 0,
    ensures
        rounded(n) > 0,
{
    lemma_last_bit(n, 1);
    let u = last_bit(n, 1);
    let q = nearest(n, u);
    assert(n / u >= 1) by (nonlinear_arith)
        requires
            0 < u <= n,
    ;
    assert(q * u > 0) by (nonlinear_arith)
        requires
            q >= 1,
            u > 0,
    ;
}

/// The part of `whole` that `done` is of `total`, to the nearest integer.
pub fn share_nearest_to(done: usize, total: usize, whole: usize) -> (r: usize)
    requires
        whole <= 1000,
    ensures
        r == share_nearest(done as nat, total as nat, whole as nat),
        r <= whole,
{
    let (m, p) = fraction_to(done, total);
    assert(m * whole <= (PRECISION + 1) * 1000) by (nonlinear_arith)
        requires
            m <= PRECISION + 1,
            whole <= 1000,
    ;
    let n: u128 = (2 * rounded_to(m * (whole as u128)) + p) / (2 * p);
    if n < whole as u128 {
        n as usize
    } else {
        whole
    }
}

/// The part of `whole` that `done` is of `total`, rounded down.
pub fn share_below_to(done: usize, total: usize, whole: usize) -> (r: u64)
    requires
        whole <= 1000,
    ensures
        r == share_below(done as nat, total as nat, whole as nat),
{
    let (m, p) = fraction_to(done, total);
    assert(m * whole <= (PRECISION + 1) * 1000) by (nonlinear_arith)
        requires
            m <= PRECISION + 1,
            whole <= 1000,
    ;
    let n: u128 = rounded_to(m * (whole as u128));
    let q: u128 = n / p;
    assert(q <= n) by (nonlinear_arith)
        requires
            q == n / p,
            p > 0,
    ;
    q as u64
}

/// `n / d` with one decimal.
pub fn one_decimal_text(n: u128, d: u128) -> (r: String)
    requires
        0 < d < 0x8000_0000_0000_0000_0000_0000_0000_0000,
        n * 10 <= u128::MAX,
        nearest((n * 10) as nat, d as nat) <= u64::MAX,
    ensures
        r@ == one_decimal(n as nat, d as nat),
{
    let tenths: u128 = nearest_to(n * 10, d);
    let mut r = text::dec_text((tenths / 10) as u64);
    r.append(".");
    r.append(text::dec_text((tenths % 10) as u64).as_str());
    r
}

// ---------------------------------------------------------------------------
// How near the numbers are
// ---------------------------------------------------------------------------

/// The nearest integer is off by half at most, and is even where it is off by half.
pub proof fn law_the_nearest_is_off_by_half_at_most(n: nat, d: nat)
    requires
        d > 0,
    ensures
        2 * (nearest(n, d) * d) <= 2 * n + d,
        2 * n <= 2 * (nearest(n, d) * d) + d,
        2 * (nearest(n, d) * d) == 2 * n + d || 2 * n == 2 * (nearest(n, d) * d) + d ==> nearest(
            n,
            d,
        ) % 2 == 0,
{
    let q = n / d;
    let r = n % d;
    assert(n == q * d + r && r < d) by (nonlinear_arith)
        requires
            d > 0,
            q == n / d,
            r == n % d,
    ;
    assert((q + 1) * d == q * d + d) by (nonlinear_arith);
}

proof fn lemma_weight(n: nat, u: nat)
    requires
        u > 0,
    ensures
        last_bit(n, u) >= u,
        n < last_bit(n, u) * PRECISION,
        last_bit(n, u) == u || 2 * n >= last_bit(n, u) * PRECISION,
    decreases n - u,
{
    if n >= u * PRECISION {
        assert(u * 2 <= u * PRECISION) by (nonlinear_arith)
            requires
                u > 0,
                PRECISION >= 2,
        ;
        lemma_weight(n, u * 2);
        assert(2 * n >= (u * 2) * PRECISION) by (nonlinear_arith)
            requires
                n >= u * PRECISION,
        ;
    }
}

/// Whether `r` is `n` with no more of it kept than the multiple `k` of the weight `u` of a
/// last bit, where no bit is given up without need.
pub open spec fn kept_of(n: nat, r: nat, k: nat, u: nat) -> bool {
    &&& u > 0
    &&& k <= PRECISION
    &&& r == k * u
    &&& 2 * r <= 2 * n + u
    &&& 2 * n <= 2 * r + u
    &&& u == 1 || 2 * n >= u * PRECISION
}

/// Of a number 53 significant bits are kept, which is all of a small one, and what is
/// lost is half of the last of them at most.
pub proof fn law_rounding_keeps_the_leading_bits(n: nat)
    ensures
        n < PRECISION ==> rounded(n) == n,
        exists|k: nat, u: nat| #[trigger] kept_of(n, rounded(n), k, u),
{
    let u = last_bit(n, 1);
    let k = nearest(n, u);
    lemma_weight(n, 1);
    law_the_nearest_is_off_by_half_at_most(n, u);
    if n < PRECISION {
        assert(u == 1);
        lemma_product(n, u, k);
    }
    assert(k <= PRECISION) by (nonlinear_arith)
        requires
            2 * (k * u) <= 2 * n + u,
            n < u * PRECISION,
            u > 0,
    ;
    assert(kept_of(n, rounded(n), k, u));
}

proof fn lemma_widened(n: nat, p: nat, d: nat)
    requires
        0 < n,
        n < PRECISION * d,
        p > 0,
    ensures
        ({
            let (wide, q) = widened(n, p, d);
            &&& wide < PRECISION * d
            &&& 2 * wide >= PRECISION * d
            &&& wide * p == n * q
            &&& q >= p
        }),
    decreases PRECISION * d - n,
{
    let (wide, q) = widened(n, p, d);
    if 2 * n < PRECISION * d {
        lemma_widened(n * 2, p * 2, d);
        assert(wide * p == n * q) by (nonlinear_arith)
            requires
                wide * (p * 2) == (n * 2) * q,
        ;
    } else {
        assert(wide == n && q == p);
    }
}

/// A quotient of at most one is told to 53 bits: off by half of the last at most.
pub proof fn law_a_quotient_is_near(n: nat, d: nat)
    requires
        0 < n <= d,
    ensures
        ({
            let (m, p) = quotient(n, d);
            &&& PRECISION <= 2 * m
            &&& m <= p
            &&& 2 * (m * d) <= 2 * (n * p) + d
            &&& 2 * (n * p) <= 2 * (m * d) + d
        }),
{
    assert(n < PRECISION * d) by (nonlinear_arith)
        requires
            0 < n <= d,
            PRECISION >= 2,
    ;
    lemma_widened(n, 1, d);
    let (wide, p) = widened(n, 1, d);
    let m = nearest(wide, d);
    assert(wide == n * p);
    law_the_nearest_is_off_by_half_at_most(wide, d);
    lemma_at_most_one(n, p, d);
    assert(PRECISION <= 2 * m) by (nonlinear_arith)
        requires
            2 * wide >= PRECISION * d,
            2 * wide <= 2 * (m * d) + d,
            PRECISION == 0x20_0000_0000_0000,
            d > 0,
    ;
}

/// How far what is rounded of `m * w` is from `w` parts in `t` of `p`.
proof fn lemma_share(done: nat, t: nat, w: nat, m: nat, p: nat, s: nat, u: nat)
    requires
        0 < t < 0x1000_0000_0000,
        0 < w <= 100,
        PRECISION <= 2 * m,
        m <= p,
        2 * (m * t) <= 2 * (done * p) + t,
        2 * (done * p) <= 2 * (m * t) + t,
        2 * s <= 2 * (m * w) + u,
        2 * (m * w) <= 2 * s + u,
        u == 1 || 2 * (m * w) >= u * PRECISION,
        PRECISION == 0x20_0000_0000_0000,
    ensures
        2 * (s * t) < 2 * (w * done) * p + p,
        2 * (w * done) * p < 2 * (s * t) + p,
{
    let e = u * t + w * t;
    assert(2 * (s * t) <= 2 * (w * done) * p + e && 2 * (w * done) * p <= 2 * (s * t) + e) by {
        assert(2 * (s * t) <= 2 * (m * w * t) + u * t && 2 * (m * w * t) <= 2 * (s * t) + u * t)
            by (nonlinear_arith)
            requires
                2 * s <= 2 * (m * w) + u,
                2 * (m * w) <= 2 * s + u,
                t > 0,
        ;
        assert(2 * (m * w * t) <= 2 * (w * done) * p + w * t && 2 * (w * done) * p <= 2 * (m * w
            * t) + w * t) by (nonlinear_arith)
            requires
                2 * (m * t) <= 2 * (done * p) + t,
                2 * (done * p) <= 2 * (m * t) + t,
                w > 0,
        ;
    }
    assert(w * t < 100 * 0x1000_0000_0000) by (nonlinear_arith)
        requires
            0 < w <= 100,
            0 < t < 0x1000_0000_0000,
    ;
    if u == 1 {
        assert(e < p);
    } else {
        assert(u * PRECISION <= 200 * p) by (nonlinear_arith)
            requires
                2 * (m * w) >= u * PRECISION,
                0 < w <= 100,
                m <= p,
        ;
        assert(u * t <= u * 0x1000_0000_0000) by (nonlinear_arith)
            requires
                t < 0x1000_0000_0000,
        ;
        assert(e < p);
    }
}

/// A share of the whole stands to it as what is done to the total: the nearest one is off
/// by half at most, and the one below is off by one at most.
pub proof fn law_a_share_is_in_proportion(done: nat, total: nat, whole: nat)
    requires
        0 < total < 0x1000_0000_0000,
        done <= total,
        0 < whole <= 100,
    ensures
        share_nearest(done, total, whole) <= whole,
        2 * (share_nearest(done, total, whole) * total) <= 2 * (whole * done) + total,
        2 * (whole * done) <= 2 * (share_nearest(done, total, whole) * total) + total,
        share_below(done, total, whole) * total <= whole * done,
        whole * done <= (share_below(done, total, whole) + 1) * total,
{
    law_rounding_keeps_the_leading_bits(done);
    law_rounding_keeps_the_leading_bits(total);
    let (m, p) = quotient(done, total);
    assert(fraction(done, total) == (m, p));
    let s = rounded(m * whole);
    let n = (2 * s + p) / (2 * p);
    let b = s / p;
    if done == 0 {
        assert(widened(0, 1, total) == (0nat, 1nat));
        assert(nearest(0, total) == 0) by {
            law_the_nearest_is_off_by_half_at_most(0, total);
            assert(0nat / total == 0 && 0nat % total == 0) by (nonlinear_arith)
                requires
                    total > 0,
            ;
        }
        assert(m == 0 && p == 1);
        law_rounding_keeps_the_leading_bits(0);
        assert(m * whole == 0) by (nonlinear_arith)
            requires
                m == 0,
        ;
        assert(n == 0 && b == 0) by (nonlinear_arith)
            requires
                s == 0,
                p == 1,
                n == (2 * s + p) / (2 * p),
                b == s / p,
        ;
        assert(s == 0 && n == 0 && b == 0);
        assert(0 * total == 0 && whole * 0 == 0);
    } else {
        law_a_quotient_is_near(done, total);
        law_rounding_keeps_the_leading_bits(m * whole);
        let product = m * whole;
        let (k, u) = choose|k: nat, u: nat| #[trigger] kept_of(product, s, k, u);
        lemma_share(done, total, whole, m, p, s, u);
        assert(2 * p * n <= 2 * s + p && 2 * s + p < 2 * p * n + 2 * p) by (nonlinear_arith)
            requires
                p > 0,
                n == (2 * s + p) / (2 * p),
        ;
        assert(p * b <= s && s < p * b + p) by (nonlinear_arith)
            requires
                p > 0,
                b == s / p,
        ;
        lemma_shares(done, total, whole, p, s, n, b);
        if n >= whole {
            assert(whole * done <= whole * total) by (nonlinear_arith)
                requires
                    done <= total,
            ;
            assert(whole * total <= n * total) by (nonlinear_arith)
                requires
                    whole <= n,
            ;
        }
    }
}

proof fn lemma_shares(done: nat, t: nat, w: nat, p: nat, s: nat, n: nat, b: nat)
    requires
        p > 0,
        2 * (s * t) < 2 * (w * done) * p + p,
        2 * (w * done) * p < 2 * (s * t) + p,
        2 * p * n <= 2 * s + p,
        2 * s + p < 2 * p * n + 2 * p,
        p * b <= s,
        s < p * b + p,
    ensures
        2 * (n * t) <= 2 * (w * done) + t,
        2 * (w * done) <= 2 * (n * t) + t,
        b * t <= w * done,
        w * done <= (b + 1) * t,
{
    let x = w * done;
    let y = n * t;
    let z = b * t;
    assert(2 * y * p <= 2 * (s * t) + p * t && 2 * (s * t) <= 2 * y * p + p * t)
        by (nonlinear_arith)
        requires
            2 * p * n <= 2 * s + p,
            2 * s + p < 2 * p * n + 2 * p,
            y == n * t,
    ;
    assert(2 * z * p <= 2 * (s * t) && 2 * (s * t) <= 2 * z * p + 2 * p * t) by (nonlinear_arith)
        requires
            p * b <= s,
            s < p * b + p,
            z == b * t,
    ;
    assert(2 * y < 2 * x + t + 1) by (nonlinear_arith)
        requires
            2 * y * p < 2 * x * p + p + p * t,
            p > 0,
    ;
    assert(2 * x < 2 * y + t + 1) by (nonlinear_arith)
        requires
            2 * x * p < 2 * y * p + p * t + p,
            p > 0,
    ;
    assert(2 * z < 2 * x + 1) by (nonlinear_arith)
        requires
            2 * z * p < 2 * x * p + p,
            p > 0,
    ;
    assert(2 * x < 2 * z + 2 * t + 1) by (nonlinear_arith)
        requires
            2 * x * p < 2 * z * p + 2 * p * t + p,
            p > 0,
    ;
    assert((b + 1) * t == z + t) by (nonlinear_arith)
        requires
            z == b * t,
    ;
}

} // verus!
