//! Double-precision rounding, on integers.
//!
//! User-typed sizes such as `1.5GiB` are read as double-precision numbers. This
//! module says with integers alone which number that is: a value `p / q` becomes
//! the 53-bit multiple of a power of two nearest to it, ties going to the even
//! neighbour.
//!
//! The exponent is left unbounded. Numbers too small for a normal double are far
//! below one byte whatever the unit, and numbers too large for any double are
//! told apart by [`overflows`].

use vstd::arithmetic::div_mod::{lemma_fundamental_div_mod, lemma_fundamental_div_mod_converse};
use vstd::arithmetic::power2::{lemma2_to64, lemma_pow2_adds, lemma_pow2_pos, lemma_pow2_strictly_increases, lemma_pow2_unfold, pow2};
use vstd::prelude::*;

use crate::digits::{digits_of, digits_ok, double, is_zero, lemma_leading_digit, lemma_pow10_pos, lemma_value_bound, pow10, value_of};

verus! {

/// `mant * 2^exp`.
pub struct Binary {
    pub mant: nat,
    pub exp: int,
}

/// The numerator of `2^e`.
pub open spec fn up(e: int) -> nat {
    if e >= 0 {
        pow2(e as nat)
    } else {
        1
    }
}

/// The denominator of `2^e`.
pub open spec fn down(e: int) -> nat {
    if e < 0 {
        pow2((-e) as nat)
    } else {
        1
    }
}

/// The whole number nearest to `n / d`, the even one of two equally near.
pub open spec fn round_half_even(n: nat, d: nat) -> nat {
    let f = n / d;
    let r = n % d;
    if 2 * r < d || (2 * r == d && f % 2 == 0) {
        f
    } else {
        f + 1
    }
}

/// `2^52 <= (p / q) / 2^e < 2^53`.
pub open spec fn fits(p: nat, q: nat, e: int) -> bool {
    pow2(52) * (q * up(e)) <= p * down(e) < pow2(53) * (q * up(e))
}

/// The power of two that leaves `p / q` with a 53-bit whole part.
pub open spec fn exponent(p: nat, q: nat) -> int {
    choose|e: int| fits(p, q, e)
}

/// The 53-bit number nearest to `p / q`.
pub open spec fn nearest(p: nat, q: nat) -> Binary {
    if p == 0 {
        Binary { mant: 0, exp: 0 }
    } else {
        let e = exponent(p, q);
        Binary { mant: round_half_even(p * down(e), q * up(e)), exp: e }
    }
}

/// The 53-bit number nearest to `v * k`.
pub open spec fn times(v: Binary, k: nat) -> Binary {
    nearest(v.mant * k * up(v.exp), down(v.exp))
}

/// `v` with its fraction cut off.
pub open spec fn whole(v: Binary) -> nat {
    (v.mant * up(v.exp)) / down(v.exp)
}

/// Whether `p / q` is too large for any finite double: at least halfway between
/// the largest one, `(2^53 - 1) * 2^971`, and the next power of two.
pub open spec fn overflows(p: nat, q: nat) -> bool {
    p >= (pow2(54) - 1) * pow2(970) * q
}

proof fn lemma_lt_cancel(a: int, b: int, c: int)
    by (nonlinear_arith)
    requires
        c > 0,
    ensures
        (a < b) == (a * c < b * c),
        (a <= b) == (a * c <= b * c),
{
}

/// [`fits`] over one common power of two.
proof fn lemma_fits_common(p: nat, q: nat, e: int, s: nat)
    requires
        s + e >= 0,
    ensures
        fits(p, q, e) == (q * pow2((s + e + 52) as nat) <= p * pow2(s) < q * pow2(
            (s + e + 53) as nat,
        )),
{
    let t = (s + e) as nat;
    lemma_pow2_pos(s);
    lemma_pow2_pos(t);
    lemma_pow2_adds(52, t);
    lemma_pow2_adds(53, t);
    assert(up(e) > 0 && up(e) * pow2(s) == down(e) * pow2(t)) by {
        if e >= 0 {
            lemma_pow2_pos(e as nat);
            lemma_pow2_adds(s, e as nat);
            assert(up(e) * pow2(s) == down(e) * pow2(t)) by (nonlinear_arith)
                requires
                    up(e) == pow2(e as nat),
                    down(e) == 1,
                    pow2(s) * pow2(e as nat) == pow2(t),
            ;
        } else {
            lemma_pow2_adds(t, (-e) as nat);
            assert(up(e) * pow2(s) == down(e) * pow2(t)) by (nonlinear_arith)
                requires
                    up(e) == 1,
                    down(e) == pow2((-e) as nat),
                    pow2(t) * pow2((-e) as nat) == pow2(s),
            ;
        }
    }
    let (u, d, ps, pt) = (up(e) as int, down(e) as int, pow2(s) as int, pow2(t) as int);
    let (a, b) = (pow2(52) as int, pow2(53) as int);
    let (pi, qi) = (p as int, q as int);
    // Both sides of each comparison, multiplied out by `2^t`, share the factor `2^up`.
    assert((pi * d) * pt == (pi * ps) * u) by (nonlinear_arith)
        requires
            u * ps == d * pt,
    ;
    assert((a * (qi * u)) * pt == (qi * (a * pt)) * u) by (nonlinear_arith);
    assert((b * (qi * u)) * pt == (qi * (b * pt)) * u) by (nonlinear_arith);
    lemma_lt_cancel(a * (qi * u), pi * d, pt);
    lemma_lt_cancel(pi * d, b * (qi * u), pt);
    lemma_lt_cancel(qi * (a * pt), pi * ps, u);
    lemma_lt_cancel(pi * ps, qi * (b * pt), u);
}

/// At most one exponent fits.
proof fn lemma_fits_unique(p: nat, q: nat, e1: int, e2: int)
    requires
        q > 0,
        fits(p, q, e1),
        fits(p, q, e2),
    ensures
        e1 == e2,
{
    if e1 != e2 {
        let (lo, hi) = if e1 < e2 {
            (e1, e2)
        } else {
            (e2, e1)
        };
        let s = (if lo < 0 {
            -lo
        } else {
            0
        }) as nat;
        lemma_fits_common(p, q, lo, s);
        lemma_fits_common(p, q, hi, s);
        let x = (s + lo + 53) as nat;
        let y = (s + hi + 52) as nat;
        if x < y {
            lemma_pow2_strictly_increases(x, y);
        }
        assert(q * pow2(x) <= q * pow2(y)) by (nonlinear_arith)
            requires
                pow2(x) <= pow2(y),
        ;
    }
}

/// Scaling both terms of a fraction does not change how it rounds.
pub proof fn lemma_round_scaled(n: nat, d: nat, c: nat)
    requires
        d > 0,
        c > 0,
    ensures
        round_half_even(n * c, d * c) == round_half_even(n, d),
{
    let f = n as int / d as int;
    let r = n as int % d as int;
    lemma_fundamental_div_mod(n as int, d as int);
    assert(n * c == f * (d * c) + r * c) by (nonlinear_arith)
        requires
            n == d * f + r,
    ;
    assert(0 <= r * c < d * c) by (nonlinear_arith)
        requires
            0 <= r < d,
            c > 0,
    ;
    lemma_fundamental_div_mod_converse((n * c) as int, (d * c) as int, f, r * c);
    lemma_lt_cancel(2 * r, d as int, c as int);
    lemma_lt_cancel(d as int, 2 * r, c as int);
    assert((2 * r) * c == 2 * (r * c)) by (nonlinear_arith);
}

/// How to exhibit the number nearest to `p / q`: any `a`, `b` for which
/// `(p * 2^b) / (q * 2^a)` has a 53-bit whole part give its exponent `a - b`, and
/// rounding that fraction gives its mantissa.
pub proof fn lemma_nearest(p: nat, q: nat, a: nat, b: nat)
    requires
        q > 0,
        q * pow2(52 + a) <= p * pow2(b) < q * pow2(53 + a),
    ensures
        nearest(p, q) == (Binary {
            mant: round_half_even(p * pow2(b), q * pow2(a)),
            exp: a - b,
        }),
{
    let e = a - b;
    lemma_fits_common(p, q, e, b);
    assert(fits(p, q, e));
    lemma_fits_unique(p, q, exponent(p, q), e);
    lemma_pow2_pos(52 + a);
    assert(q * pow2(52 + a) > 0) by (nonlinear_arith)
        requires
            q > 0,
            pow2(52 + a) > 0,
    ;
    assert(p > 0) by (nonlinear_arith)
        requires
            p * pow2(b) > 0,
            p >= 0,
    ;
    if e >= 0 {
        lemma_pow2_adds(b, e as nat);
        lemma_pow2_pos(b);
        lemma_pow2_pos(e as nat);
        assert(q * up(e) > 0) by (nonlinear_arith)
            requires
                q > 0,
                up(e) > 0,
        ;
        lemma_round_scaled(p * down(e), q * up(e), pow2(b));
        assert((q * up(e)) * pow2(b) == q * pow2(a)) by (nonlinear_arith)
            requires
                pow2(b) * up(e) == pow2(a),
        ;
    } else {
        lemma_pow2_adds(a, (-e) as nat);
        lemma_pow2_pos(a);
        lemma_round_scaled(p * down(e), q * up(e), pow2(a));
        assert((p * down(e)) * pow2(a) == p * pow2(b)) by (nonlinear_arith)
            requires
                pow2(a) * down(e) == pow2(b),
        ;
    }
}

/// Every positive number has an exponent that fits.
pub proof fn lemma_fits_exists(p: nat, q: nat)
    requires
        p > 0,
        q > 0,
    ensures
        fits(p, q, exponent(p, q)),
    decreases
        (if p < pow2(52) * q {
            pow2(52) * q - p
        } else {
            0
        }),
        (if p >= pow2(53) * q {
            p - q
        } else {
            0
        }),
{
    lemma_pow2_pos(52);
    lemma_pow2_unfold(53);
    if p < pow2(52) * q {
        let e = exponent(2 * p, q);
        lemma_fits_exists(2 * p, q);
        let s = (if e < 0 {
            -e
        } else {
            0
        }) as nat;
        lemma_fits_common(2 * p, q, e, s);
        lemma_fits_common(p, q, e - 1, s + 1);
        lemma_pow2_unfold(s + 1);
        assert(p * (2 * pow2(s)) == (2 * p) * pow2(s)) by (nonlinear_arith);
        assert(fits(p, q, e - 1));
    } else if p >= pow2(53) * q {
        assert(p >= 2 * (pow2(52) * q)) by (nonlinear_arith)
            requires
                p >= (2 * pow2(52)) * q,
        ;
        assert(pow2(52) * (2 * q) == 2 * (pow2(52) * q)) by (nonlinear_arith);
        assert(pow2(52) * q >= q) by (nonlinear_arith)
            requires
                pow2(52) >= 1,
        ;
        let e = exponent(p, 2 * q);
        lemma_fits_exists(p, 2 * q);
        let s = (if e < 0 {
            -e
        } else {
            0
        }) as nat;
        lemma_fits_common(p, 2 * q, e, s);
        lemma_fits_common(p, q, e + 1, s);
        let x = (s + e + 52) as nat;
        lemma_pow2_unfold(x + 1);
        lemma_pow2_unfold(x + 2);
        assert((2 * q) * pow2(x) == q * (2 * pow2(x))) by (nonlinear_arith);
        assert((2 * q) * pow2(x + 1) == q * (2 * pow2(x + 1))) by (nonlinear_arith);
        assert(fits(p, q, e + 1));
    } else {
        assert(fits(p, q, 0)) by {
            vstd::arithmetic::power2::lemma2_to64();
            assert(up(0) == 1 && down(0) == 1);
            assert(q * 1 == q && p * 1 == p);
        }
    }
}

/// `x / 2^k` rounded half to even, when `sticky` says that the true value lies
/// strictly between `x` and `x + 1`.
pub open spec fn rounded(x: nat, k: nat, sticky: bool) -> nat {
    let f = x / pow2(k);
    let r = x % pow2(k);
    if 2 * r < pow2(k) || (2 * r == pow2(k) && !sticky && f % 2 == 0) {
        f
    } else {
        f + 1
    }
}

/// [`rounded`] is the rounding of `(x * q + r) / (q * 2^k)`.
pub proof fn lemma_rounded(x: nat, q: nat, r: nat, k: nat)
    requires
        r < q,
        r == 0 || k > 0,
    ensures
        round_half_even(x * q + r, q * pow2(k)) == rounded(x, k, r > 0),
{
    let t = pow2(k) as int;
    lemma_pow2_pos(k);
    let f = x as int / t;
    let m = x as int % t;
    lemma_fundamental_div_mod(x as int, t);
    let low = m * q + r;
    assert(x * q + r == f * (q * t) + low) by (nonlinear_arith)
        requires
            x == t * f + m,
            low == m * q + r,
    ;
    assert(0 <= low < q * t) by (nonlinear_arith)
        requires
            0 <= m,
            m + 1 <= t,
            0 <= r < q,
            low == m * q + r,
    ;
    lemma_fundamental_div_mod_converse((x * q + r) as int, q * t, f, low);
    if 2 * m < t {
        if k > 0 {
            lemma_pow2_unfold(k);
            assert(2 * low < q * t) by (nonlinear_arith)
                requires
                    2 * m + 2 <= t,
                    0 <= r < q,
                    low == m * q + r,
            ;
        } else {
            vstd::arithmetic::power2::lemma2_to64();
            assert(m == 0);
            assert(low == 0) by (nonlinear_arith)
                requires
                    m == 0,
                    r == 0,
                    low == m * q + r,
            ;
            assert(q * t > 0) by (nonlinear_arith)
                requires
                    q > 0,
                    t > 0,
            ;
        }
    } else if 2 * m > t {
        assert(2 * low > q * t) by (nonlinear_arith)
            requires
                2 * m >= t + 1,
                0 <= r < q,
                low == m * q + r,
        ;
    } else {
        assert(2 * low == q * t + 2 * r) by (nonlinear_arith)
            requires
                2 * m == t,
                low == m * q + r,
        ;
    }
}

/// A 53-bit number rounds to at most `2^53`.
proof fn lemma_mantissa_bound(n: nat, d: nat)
    requires
        d > 0,
        n < pow2(53) * d,
    ensures
        round_half_even(n, d) <= pow2(53),
{
    lemma_fundamental_div_mod(n as int, d as int);
    let f = n as int / d as int;
    assert(f < pow2(53)) by (nonlinear_arith)
        requires
            n == d * f + (n as int % d as int),
            n as int % d as int >= 0,
            n < pow2(53) * d,
            d > 0,
    ;
}

/// `2^n`.
pub fn power_of_two(n: u32) -> (r: u128)
    requires
        n <= 120,
    ensures
        r == pow2(n as nat),
        r <= 0x100_0000_0000_0000_0000_0000_0000_0000,
{
    let mut r: u128 = 1;
    let mut i: u32 = 0;
    proof {
        lemma2_to64();
        lemma_pow2_120();
    }
    while i < n
        invariant
            i <= n <= 120,
            r == pow2(i as nat),
            pow2(120) == 0x100_0000_0000_0000_0000_0000_0000_0000,
        decreases n - i,
    {
        proof {
            lemma_pow2_unfold((i + 1) as nat);
            if i + 1 < 120 {
                lemma_pow2_strictly_increases((i + 1) as nat, 120);
            }
        }
        r = 2 * r;
        i += 1;
    }
    proof {
        if n < 120 {
            lemma_pow2_strictly_increases(n as nat, 120);
        }
    }
    r
}

pub proof fn lemma_pow2_120()
    ensures
        pow2(52) == 0x10_0000_0000_0000,
        pow2(53) == 0x20_0000_0000_0000,
        pow2(40) == 0x100_0000_0000,
        pow2(55) == 0x80_0000_0000_0000,
        pow2(64) == 0x1_0000_0000_0000_0000,
        pow2(119) == 0x80_0000_0000_0000_0000_0000_0000_0000,
        pow2(120) == 0x100_0000_0000_0000_0000_0000_0000_0000,
{
    lemma2_to64();
    vstd::arithmetic::power2::lemma2_to64_rest();
    lemma_pow2_adds(60, 60);
    lemma_pow2_adds(60, 59);
}

/// Cuts `x` down to 53 bits: the mantissa and how many bits were dropped.
pub fn round53(x: u128, sticky: bool) -> (r: (u64, u32))
    requires
        0x10_0000_0000_0000 <= x < 0x100_0000_0000_0000_0000_0000_0000_0000,
        sticky ==> x >= 0x20_0000_0000_0000,
    ensures
        pow2(52 + r.1 as nat) <= x < pow2(53 + r.1 as nat),
        r.1 <= 68,
        sticky ==> r.1 > 0,
        r.0 == rounded(x as nat, r.1 as nat, sticky),
        0x10_0000_0000_0000 <= r.0 <= 0x20_0000_0000_0000,
{
    let mut t: u128 = x;
    let mut k: u32 = 0;
    let mut w: u128 = 1;
    proof {
        lemma2_to64();
        lemma_pow2_120();
    }
    while t >= 0x20_0000_0000_0000
        invariant
            0x10_0000_0000_0000 <= t <= x,
            x < 0x100_0000_0000_0000_0000_0000_0000_0000,
            w == pow2(k as nat),
            w > 0,
            t * w <= x < (t + 1) * w,
            w * 0x10_0000_0000_0000 <= x,
            k <= 68,
            sticky ==> k > 0 || t >= 0x20_0000_0000_0000,
            pow2(120) == 0x100_0000_0000_0000_0000_0000_0000_0000,
            pow2(52) == 0x10_0000_0000_0000,
        decreases t,
    {
        let h: u128 = t / 2;
        proof {
            lemma_pow2_unfold((k + 1) as nat);
            assert(h * (2 * w) <= x < (h + 1) * (2 * w)) by (nonlinear_arith)
                requires
                    t * w <= x < (t + 1) * w,
                    2 * h <= t <= 2 * h + 1,
                    w > 0,
            ;
            assert((2 * w) * 0x10_0000_0000_0000 <= x) by (nonlinear_arith)
                requires
                    h * (2 * w) <= x,
                    h >= 0x10_0000_0000_0000,
                    w > 0,
            ;
            if k == 68 {
                lemma_pow2_adds(52, 69);
                assert(pow2(121) > pow2(120)) by {
                    lemma_pow2_strictly_increases(120, 121);
                }
            }
        }
        w = 2 * w;
        t = h;
        k += 1;
    }
    proof {
        lemma_pow2_adds(52, k as nat);
        lemma_pow2_adds(53, k as nat);
        assert(x < 0x20_0000_0000_0000 * w) by (nonlinear_arith)
            requires
                x < (t + 1) * w,
                t + 1 <= 0x20_0000_0000_0000,
                w > 0,
        ;
        assert(t * w == w * t) by (nonlinear_arith);
        assert((t + 1) * w == t * w + w) by (nonlinear_arith);
        lemma_fundamental_div_mod_converse(x as int, w as int, t as int, x - t * w);
    }
    let low: u128 = x - t * w;
    let half_up: bool = low > w - low || (low == w - low && (sticky || t % 2 == 1));
    let m: u64 = if half_up {
        (t + 1) as u64
    } else {
        t as u64
    };
    (m, k)
}

/// The byte count of `p / q` units of `k` bytes each: both numbers taken as
/// doubles, multiplied as doubles, and the fraction of the product cut off.
pub open spec fn product(p: nat, q: nat, k: nat) -> nat {
    whole(times(nearest(p, q), k))
}

proof fn lemma_product_zero(q: nat, k: nat)
    ensures
        product(0, q, k) == 0,
{
    let v = nearest(0, q);
    assert(v == Binary { mant: 0, exp: 0 });
    assert(v.mant * k * up(v.exp) == 0) by (nonlinear_arith)
        requires
            v.mant == 0,
    ;
    lemma2_to64();
    assert(up(0) == 1 && down(0) == 1);
}

/// Below `2^-64`, not even the largest unit reaches one byte.
proof fn lemma_product_tiny(p: nat, q: nat, k: nat)
    requires
        p > 0,
        q > 0,
        0 < k <= pow2(40),
        p * pow2(64) < q,
    ensures
        product(p, q, k) == 0,
{
    let v = nearest(p, q);
    let e = v.exp;
    lemma_fits_exists(p, q);
    // The exponent of `p / q` is below -116.
    if e > -117 {
        let s: nat = (if e < 0 {
            -e
        } else {
            0
        }) as nat;
        let s = if s < 64 {
            64
        } else {
            s
        };
        lemma_fits_common(p, q, e, s);
        lemma_pow2_adds(64, (s - 64) as nat);
        if s - 64 < s + e + 52 {
            lemma_pow2_strictly_increases((s - 64) as nat, (s + e + 52) as nat);
        }
        lemma_pow2_pos((s - 64) as nat);
        let c = pow2((s - 64) as nat);
        let d = pow2((s + e + 52) as nat);
        assert(p * (pow2(64) * c) < q * d) by (nonlinear_arith)
            requires
                p * pow2(64) < q,
                0 < c <= d,
        ;
    }
    let n = (-e) as nat;
    lemma_pow2_pos(n);
    let m = v.mant;
    assert(q * up(e) > 0) by (nonlinear_arith)
        requires
            q > 0,
            up(e) == 1,
    ;
    lemma_mantissa_bound(p * down(e), q * up(e));
    let p2 = m * k * up(e);
    let q2 = down(e);
    let w = nearest(p2, q2);
    lemma2_to64();
    lemma_pow2_adds(53, 40);
    assert(m * k <= pow2(93)) by (nonlinear_arith)
        requires
            m <= pow2(53),
            k <= pow2(40),
            pow2(53) * pow2(40) == pow2(93),
    ;
    assert(p2 == m * k) by (nonlinear_arith)
        requires
            p2 == m * k * up(e),
            up(e) == 1,
    ;
    if p2 == 0 {
        assert(w == Binary { mant: 0, exp: 0 });
    } else {
        lemma_fits_exists(p2, q2);
        let f = w.exp;
        // The exponent of the product is below -75.
        if f > -76 {
            let s: nat = (if f < 0 {
                -f
            } else {
                0
            }) as nat;
            lemma_fits_common(p2, q2, f, s);
            let x = (s + f + 52) as nat;
            lemma_pow2_adds(n, x);
            lemma_pow2_adds(93, s);
            assert(p2 * pow2(s) <= pow2(93) * pow2(s)) by (nonlinear_arith)
                requires
                    p2 <= pow2(93),
            ;
            lemma_pow2_strictly_increases(93 + s, n + x);
        }
        assert(q2 * up(f) > 0) by (nonlinear_arith)
            requires
                q2 > 0,
                up(f) == 1,
        ;
        lemma_mantissa_bound(p2 * down(f), q2 * up(f));
        let g = (-f) as nat;
        lemma_pow2_strictly_increases(53, g);
        assert(w.mant * up(f) == w.mant) by (nonlinear_arith)
            requires
                up(f) == 1,
        ;
        vstd::arithmetic::div_mod::lemma_basic_div(w.mant as int, pow2(g) as int);
    }
}

/// A whole number below `2^53` is a double itself.
pub proof fn lemma_exact(n: nat, c: nat)
    requires
        0 < n < pow2(53),
        c > 0,
    ensures
        ({
            let v = nearest(n * c, c);
            v.exp <= 0 && v.mant == n * down(v.exp)
        }),
{
    assert(n * c > 0) by (nonlinear_arith)
        requires
            n > 0,
            c > 0,
    ;
    lemma_fits_exists(n * c, c);
    let e = exponent(n * c, c);
    lemma_pow2_120();
    lemma2_to64();
    if e > 0 {
        lemma_pow2_unfold(e as nat);
        lemma_pow2_pos((e - 1) as nat);
        let u = up(e);
        assert(n >= pow2(53)) by (nonlinear_arith)
            requires
                0x10_0000_0000_0000 * (c * u) <= (n * c) * 1,
                u >= 2,
                c > 0,
                pow2(53) == 0x20_0000_0000_0000,
        ;
    }
    let d = down(e);
    assert((n * c) * d == (n * d) * c + 0) by (nonlinear_arith);
    assert(c * up(e) == c) by (nonlinear_arith)
        requires
            up(e) == 1,
    ;
    lemma_fundamental_div_mod_converse(((n * c) * d) as int, c as int, (n * d) as int, 0);
}

/// A whole number below `2^53` survives the conversion to a double.
pub proof fn whole_number_is_exact(n: nat)
    requires
        n < pow2(53),
    ensures
        whole(nearest(n, 1)) == n,
{
    lemma2_to64();
    if n == 0 {
        assert(up(0) == 1 && down(0) == 1);
    } else {
        assert(n * 1 == n);
        lemma_exact(n, 1);
        let v = nearest(n, 1);
        let g = down(v.exp);
        if v.exp < 0 {
            lemma_pow2_pos((-v.exp) as nat);
        }
        assert(v.mant * up(v.exp) == n * g) by (nonlinear_arith)
            requires
                v.mant == n * g,
                up(v.exp) == 1,
        ;
        vstd::arithmetic::div_mod::lemma_div_multiples_vanish(n as int, g as int);
        assert(n * g == g * n) by (nonlinear_arith);
    }
}

/// Whole sizes up to `2^53` bytes come out exactly.
pub proof fn whole_sizes_are_exact(n: nat, k: nat)
    requires
        n * k < pow2(53),
        k > 0,
    ensures
        product(n, 1, k) == n * k,
{
    if n == 0 {
        lemma_product_zero(1, k);
    } else {
        assert(n <= n * k && n * k > 0) by (nonlinear_arith)
            requires
                k >= 1,
                n >= 1,
        ;
        assert(n * 1 == n);
        lemma_exact(n, 1);
        let v = nearest(n, 1);
        let d = down(v.exp);
        if v.exp < 0 {
            lemma_pow2_pos((-v.exp) as nat);
        } else {
            lemma2_to64();
        }
        assert(v.mant * k * up(v.exp) == (n * k) * d) by (nonlinear_arith)
            requires
                v.mant == n * d,
                up(v.exp) == 1,
        ;
        lemma_exact(n * k, d);
        let w = times(v, k);
        let g = down(w.exp);
        if w.exp < 0 {
            lemma_pow2_pos((-w.exp) as nat);
        } else {
            lemma2_to64();
        }
        assert(w.mant * up(w.exp) == (n * k) * g) by (nonlinear_arith)
            requires
                w.mant == (n * k) * g,
                up(w.exp) == 1,
        ;
        vstd::arithmetic::div_mod::lemma_div_multiples_vanish((n * k) as int, g as int);
        assert((n * k) * g == g * (n * k)) by (nonlinear_arith);
    }
}

/// A number of at least `2^64` keeps that size when rounded.
proof fn lemma_nearest_large(p: nat, q: nat)
    requires
        q > 0,
        p >= pow2(64) * q,
    ensures
        nearest(p, q).mant * up(nearest(p, q).exp) >= pow2(64),
        nearest(p, q).exp >= 0,
{
    lemma_pow2_120();
    assert(p > 0) by (nonlinear_arith)
        requires
            p >= pow2(64) * q,
            q > 0,
            pow2(64) > 0,
    ;
    lemma_fits_exists(p, q);
    let v = nearest(p, q);
    let e = v.exp;
    if e < 12 {
        let s: nat = (if e < 0 {
            -e
        } else {
            0
        }) as nat;
        lemma_fits_common(p, q, e, s);
        lemma_pow2_adds(64, s);
        if s + e + 53 < s + 64 {
            lemma_pow2_strictly_increases((s + e + 53) as nat, s + 64);
        }
        let b = pow2((s + e + 53) as nat);
        lemma_pow2_pos(s);
        assert(p * pow2(s) >= q * b) by (nonlinear_arith)
            requires
                p >= pow2(64) * q,
                b <= pow2(64) * pow2(s),
                pow2(s) > 0,
        ;
    }
    let u = up(e);
    if e > 12 {
        lemma_pow2_strictly_increases(12, e as nat);
    }
    lemma_pow2_adds(52, 12);
    let d = q * u;
    lemma_pow2_pos(12);
    assert(d > 0) by (nonlinear_arith)
        requires
            d == q * u,
            q > 0,
            u > 0,
    ;
    let n = p * down(e);
    lemma_fundamental_div_mod(n as int, d as int);
    let f = n as int / d as int;
    assert(f >= pow2(52)) by (nonlinear_arith)
        requires
            pow2(52) * d <= n,
            n == d * f + (n as int % d as int),
            n as int % (d as int) < d,
            d > 0,
    ;
    assert(v.mant * u >= pow2(52) * pow2(12)) by (nonlinear_arith)
        requires
            v.mant >= pow2(52),
            u >= pow2(12),
    ;
}

/// `2^64` units and more never fit.
pub proof fn lemma_product_large(p: nat, q: nat, k: nat)
    requires
        q > 0,
        k > 0,
        p >= pow2(64) * q,
    ensures
        product(p, q, k) >= pow2(64),
{
    lemma_nearest_large(p, q);
    let v = nearest(p, q);
    let p2 = v.mant * k * up(v.exp);
    assert(p2 >= v.mant * up(v.exp)) by (nonlinear_arith)
        requires
            p2 == v.mant * k * up(v.exp),
            k >= 1,
    ;
    assert(pow2(64) * 1 == pow2(64));
    lemma_nearest_large(p2, 1);
    let w = nearest(p2, 1);
    vstd::arithmetic::div_mod::lemma_div_basics((w.mant * up(w.exp)) as int);
}

/// Numbers below `2^64` are far from overflowing.
pub proof fn lemma_no_overflow(p: nat, q: nat)
    requires
        p < pow2(64) * q,
    ensures
        !overflows(p, q),
{
    lemma2_to64();
    vstd::arithmetic::power2::lemma2_to64_rest();
    lemma_pow2_strictly_increases(64, 970);
    let t = (pow2(54) - 1) * pow2(970);
    assert(t >= pow2(64)) by (nonlinear_arith)
        requires
            t == (pow2(54) - 1) * pow2(970),
            pow2(54) >= 2,
            pow2(970) > pow2(64),
    ;
    assert(t * q >= pow2(64) * q) by (nonlinear_arith)
        requires
            t >= pow2(64),
    ;
}

/// Only the whole part decides whether a number overflows.
pub proof fn lemma_overflow_whole(n: nat, f: nat, q: nat)
    requires
        f < q,
    ensures
        overflows(n * q + f, q) == (n >= (pow2(54) - 1) * pow2(970)),
{
    let t = (pow2(54) - 1) * pow2(970);
    if n >= t {
        assert(n * q + f >= t * q) by (nonlinear_arith)
            requires
                n >= t,
                f >= 0,
        ;
    } else {
        assert(n * q + f < t * q) by (nonlinear_arith)
            requires
                n + 1 <= t,
                f < q,
        ;
    }
}

/// The digits of the smallest whole number that overflows.
pub fn overflow_limit() -> (r: Vec<u8>)
    ensures
        digits_ok(r@),
        r@.len() > 0,
        r@[0] > 0,
        value_of(r@) == (pow2(54) - 1) * pow2(970),
{
    let mut r: Vec<u8> = digits_of(0x3f_ffff_ffff_ffff);
    let mut i: u32 = 0;
    proof {
        lemma2_to64();
        vstd::arithmetic::power2::lemma2_to64_rest();
        assert((pow2(54) - 1) * 1 == pow2(54) - 1);
    }
    while i < 970
        invariant
            i <= 970,
            digits_ok(r@),
            r@.len() > 0,
            value_of(r@) == (pow2(54) - 1) * pow2(i as nat),
            r@[0] > 0,
        decreases 970 - i,
    {
        let ghost before = r@;
        proof {
            lemma_pow2_unfold((i + 1) as nat);
            let (a, b) = (pow2(54) - 1, pow2(i as nat));
            assert(a * (2 * b) == 2 * (a * b)) by (nonlinear_arith);
        }
        let carry = double(&mut r);
        let ghost mid = r@;
        if carry {
            r.insert(0, 1);
            assert(r@.drop_first() =~= mid);
            assert(1nat * pow10(mid.len()) == pow10(mid.len()));
        } else {
            proof {
                lemma_leading_digit(before, mid);
            }
        }
        i += 1;
    }
    r
}

/// The product of a 53-bit number and a unit, read off its 53-bit rounding.
proof fn lemma_times(m: nat, e: int, k: nat, k2: nat)
    requires
        pow2(52 + k2) <= m * k < pow2(53 + k2),
    ensures
        times(Binary { mant: m, exp: e }, k) == (Binary {
            mant: rounded(m * k, k2, false),
            exp: e + k2,
        }),
{
    let x = m * k;
    lemma_pow2_pos(k2);
    lemma_rounded(x, 1, 0, k2);
    assert(x * 1 + 0 == x && 1 * pow2(k2) == pow2(k2));
    if e >= 0 {
        let u = pow2(e as nat);
        lemma_pow2_pos(e as nat);
        lemma_pow2_adds(52 + k2, e as nat);
        lemma_pow2_adds(53 + k2, e as nat);
        lemma_pow2_adds(k2, e as nat);
        lemma_lt_cancel(pow2(52 + k2) as int, x as int, u as int);
        lemma_lt_cancel(x as int, pow2(53 + k2) as int, u as int);
        lemma2_to64();
        assert((x * u) * pow2(0) == x * u);
        assert(1 * pow2((52 + (k2 + e)) as nat) == pow2((52 + k2 + e) as nat));
        assert(1 * pow2((53 + (k2 + e)) as nat) == pow2((53 + k2 + e) as nat));
        assert(1 * pow2((k2 + e) as nat) == pow2(k2) * u);
        lemma_nearest(x * u, 1, (k2 + e) as nat, 0);
        lemma_round_scaled(x, pow2(k2), u);
    } else {
        let n = (-e) as nat;
        let d = pow2(n);
        lemma_pow2_pos(n);
        assert(x * 1 == x);
        assert(d * pow2(52 + k2) <= x * d < d * pow2(53 + k2)) by (nonlinear_arith)
            requires
                pow2(52 + k2) <= x < pow2(53 + k2),
                d > 0,
        ;
        lemma_nearest(x, d, k2, n);
        lemma_round_scaled(x, pow2(k2), d);
        assert(pow2(k2) * d == d * pow2(k2)) by (nonlinear_arith);
    }
}

/// Reads the number `int_part + 0.frac`, multiplies it by `unit` and cuts off the
/// fraction. `None` when the result does not fit.
pub fn scaled(int_part: u64, frac: Vec<u8>, unit: u64) -> (r: Option<u64>)
    requires
        digits_ok(frac@),
        0 < unit <= 0x100_0000_0000,
    ensures
        ({
            let q = pow10(frac@.len());
            let n = product(int_part as nat * q + value_of(frac@), q, unit as nat);
            r == if n <= u64::MAX {
                Some(n as u64)
            } else {
                None
            }
        }),
{
    let ghost q = pow10(frac@.len());
    let ghost p = int_part as nat * q + value_of(frac@);
    let mut f: Vec<u8> = frac;
    proof {
        lemma_pow10_pos(f@.len());
        lemma2_to64();
        lemma_pow2_120();
        lemma_value_bound(f@);
    }
    if int_part == 0 && is_zero(&f) {
        proof {
            assert(p == 0) by (nonlinear_arith)
                requires
                    p == int_part as nat * q + 0,
                    int_part == 0,
            ;
            lemma_product_zero(q, unit as nat);
        }
        return Some(0);
    }
    assert(p > 0) by {
        assert(int_part > 0 ==> int_part as nat * q > 0) by (nonlinear_arith)
            requires
                q > 0,
        ;
    }
    // Enough binary places for 53 bits and one to round on.
    let places: u32 = if int_part > 0 {
        55
    } else {
        119
    };
    let mut x: u128 = int_part as u128;
    let mut s: u32 = 0;
    let ghost mut w: nat = 1;
    proof {
        assert(p * 1 == x * q + value_of(f@));
        assert(x < 0x1_0000_0000_0000_0000 * w);
        if int_part > 0 {
            assert(x >= w);
        } else {
            assert(x < w);
        }
    }
    while s < places
        invariant
            s <= places,
            places == 55 || places == 119,
            digits_ok(f@),
            f@.len() == frac@.len(),
            q == pow10(f@.len()),
            w == pow2(s as nat),
            w > 0,
            p * w == x * q + value_of(f@),
            places == 55 ==> w <= x < 0x1_0000_0000_0000_0000 * w,
            places == 119 ==> x < w,
            pow2(55) == 0x80_0000_0000_0000,
            pow2(119) == 0x80_0000_0000_0000_0000_0000_0000_0000,
        decreases places - s,
    {
        let ghost g = value_of(f@);
        proof {
            lemma_pow2_unfold((s + 1) as nat);
            if s + 1 < places {
                lemma_pow2_strictly_increases((s + 1) as nat, places as nat);
            }
        }
        let carry = double(&mut f);
        let bit: u128 = if carry {
            1
        } else {
            0
        };
        proof {
            let c: nat = if carry {
                1
            } else {
                0
            };
            assert(p * (2 * w) == (2 * x + c) * q + value_of(f@)) by (nonlinear_arith)
                requires
                    p * w == x * q + g,
                    2 * g == value_of(f@) + c * q,
            ;
        }
        x = 2 * x + bit;
        s += 1;
        proof {
            w = 2 * w;
        }
    }
    let sticky = !is_zero(&f);
    let ghost rem = value_of(f@);
    proof {
        lemma_value_bound(f@);
        lemma_pow2_adds(55, 64);
    }
    if x < 0x80_0000_0000_0000 {
        proof {
            assert(p * pow2(64) < q) by (nonlinear_arith)
                requires
                    p * (pow2(55) * pow2(64)) == x * q + rem,
                    x + 1 <= pow2(55),
                    rem < q,
                    pow2(55) > 0,
            ;
            lemma_product_tiny(p, q, unit as nat);
        }
        return Some(0);
    }
    let (m, k) = round53(x, sticky);
    let ghost e = k - s;
    proof {
        assert(q * pow2(52 + k as nat) <= p * pow2(s as nat) < q * pow2(53 + k as nat))
            by (nonlinear_arith)
            requires
                p * pow2(s as nat) == x * q + rem,
                0 <= rem < q,
                pow2(52 + k as nat) <= x,
                x + 1 <= pow2(53 + k as nat),
        ;
        lemma_nearest(p, q, k as nat, s as nat);
        lemma_rounded(x as nat, q, rem, k as nat);
        assert(nearest(p, q) == Binary { mant: m as nat, exp: e });
        assert(0x10_0000_0000_0000 <= m * unit <= 0x20_0000_0000_0000 * 0x100_0000_0000)
            by (nonlinear_arith)
            requires
                0x10_0000_0000_0000 <= m <= 0x20_0000_0000_0000,
                1 <= unit <= 0x100_0000_0000,
        ;
    }
    let y: u128 = (m as u128) * (unit as u128);
    let (m2, k2) = round53(y, false);
    proof {
        assert(y == m as nat * unit as nat);
        lemma_times(m as nat, e, unit as nat, k2 as nat);
    }
    // The product is m2 * 2^(k + k2 - s).
    let a: u32 = k + k2;
    if a >= s {
        let shift: u32 = a - s;
        if shift >= 12 {
            proof {
                lemma_pow2_adds(52, 12);
                if shift > 12 {
                    lemma_pow2_strictly_increases(12, shift as nat);
                }
                assert(m2 * pow2(shift as nat) >= 0x10_0000_0000_0000 * pow2(12)) by (nonlinear_arith)
                    requires
                        m2 >= 0x10_0000_0000_0000,
                        pow2(shift as nat) >= pow2(12),
                ;
            }
            return None;
        }
        let z: u128 = power_of_two(shift);
        proof {
            if shift < 12 {
                lemma_pow2_strictly_increases(shift as nat, 12);
            }
            assert(m2 * z <= 0x20_0000_0000_0000 * 0x1000) by (nonlinear_arith)
                requires
                    m2 <= 0x20_0000_0000_0000,
                    z <= 0x1000,
            ;
        }
        let n: u128 = (m2 as u128) * z;
        if n < 0x1_0000_0000_0000_0000 {
            Some(n as u64)
        } else {
            None
        }
    } else {
        let shift: u32 = s - a;
        let z: u128 = power_of_two(shift);
        proof {
            lemma_pow2_pos(shift as nat);
            assert(m2 as nat * 1 == m2);
            lemma_fundamental_div_mod(m2 as int, z as int);
            assert(m2 as int / z as int <= m2) by (nonlinear_arith)
                requires
                    m2 == z * (m2 as int / z as int) + (m2 as int % z as int),
                    z >= 1,
                    m2 as int % z as int >= 0,
                    m2 as int / z as int >= 0,
            ;
        }
        let n: u128 = (m2 as u128) / z;
        Some(n as u64)
    }
}

/// Rounding goes to the nearest whole number, and to the even one of two that are equally
/// near.
pub proof fn rounding_goes_to_the_nearest(n: nat, d: nat)
    requires
        d > 0,
    ensures
        ({
            let r = round_half_even(n, d);
            &&& 2 * (r * d) <= 2 * n + d
            &&& 2 * n <= 2 * (r * d) + d
            &&& 2 * (r * d) == 2 * n + d || 2 * n == 2 * (r * d) + d ==> r % 2 == 0
        }),
{
    let f = n / d;
    lemma_fundamental_div_mod(n as int, d as int);
    assert(f * d == d * f) by (nonlinear_arith);
    assert((f + 1) * d == f * d + d) by (nonlinear_arith);
}

/// The double nearest to `p / q` has 53 binary digits, and is off by half of its last one at
/// most.
pub proof fn doubles_are_the_nearest(p: nat, q: nat)
    requires
        p > 0,
        q > 0,
    ensures
        ({
            let v = nearest(p, q);
            let (n, d) = (p * down(v.exp), q * up(v.exp));
            &&& pow2(52) <= v.mant <= pow2(53)
            &&& 2 * (v.mant * d) <= 2 * n + d
            &&& 2 * n <= 2 * (v.mant * d) + d
        }),
{
    lemma_fits_exists(p, q);
    let v = nearest(p, q);
    let (n, d) = (p * down(v.exp), q * up(v.exp));
    lemma2_to64();
    if v.exp > 0 {
        lemma_pow2_pos(v.exp as nat);
    }
    assert(d > 0) by (nonlinear_arith)
        requires
            d == q * up(v.exp),
            q > 0,
            up(v.exp) > 0,
    ;
    rounding_goes_to_the_nearest(n, d);
    let m = v.mant as int;
    let (lo, hi) = (pow2(52) as int, pow2(53) as int);
    assert(m >= lo) by (nonlinear_arith)
        requires
            2 * n <= 2 * (m * d) + d,
            lo * d <= n,
            d > 0,
    ;
    assert(m <= hi) by (nonlinear_arith)
        requires
            2 * (m * d) <= 2 * n + d,
            n < hi * d,
            d > 0,
    ;
}

/// A double loses its fraction and nothing else.
pub proof fn fractions_are_cut_off(v: Binary)
    ensures
        whole(v) * down(v.exp) <= v.mant * up(v.exp) < (whole(v) + 1) * down(v.exp),
{
    lemma2_to64();
    if v.exp < 0 {
        lemma_pow2_pos((-v.exp) as nat);
    }
    let (n, d) = ((v.mant * up(v.exp)) as int, down(v.exp) as int);
    lemma_fundamental_div_mod(n, d);
    vstd::arithmetic::div_mod::lemma_mod_bound(n, d);
    let w = whole(v) as int;
    assert(w * d == d * w) by (nonlinear_arith);
    assert((w + 1) * d == w * d + d) by (nonlinear_arith);
}

} // verus!
