//! Transfer rates: bytes divided by elapsed time, as doubles.

use vstd::arithmetic::div_mod::{lemma_div_multiples_vanish, lemma_fundamental_div_mod};
use vstd::arithmetic::power2::{lemma2_to64, lemma2_to64_rest, lemma_pow2_adds, lemma_pow2_pos, lemma_pow2_strictly_increases, pow2};
use vstd::prelude::*;

use crate::binary64::{down, lemma_exact, lemma_nearest, lemma_pow2_120, lemma_round_scaled, lemma_rounded, nearest, power_of_two, round53, round_half_even, rounded, up, whole, Binary};

verus! {

/// The nanoseconds of a second.
pub const NANOS: u64 = 1_000_000_000;

/// The 53-bit number nearest to `a / b`.
pub open spec fn quotient(a: Binary, b: Binary) -> Binary {
    nearest(a.mant * up(a.exp) * down(b.exp), b.mant * up(b.exp) * down(a.exp))
}

/// The 53-bit number nearest to `n + v`.
pub open spec fn plus(n: nat, v: Binary) -> Binary {
    nearest(n * down(v.exp) + v.mant * up(v.exp), down(v.exp))
}

/// A time in seconds: the whole seconds, plus the nanoseconds over `10^9`.
pub open spec fn seconds(nanos: nat) -> Binary {
    plus(nanos / 1_000_000_000, nearest(nanos % 1_000_000_000, 1_000_000_000))
}

/// Bytes per second, without a fraction, at most what 64 bits hold.
pub open spec fn bytes_per_second(moved: nat, nanos: nat) -> nat {
    let r = whole(quotient(nearest(moved, 1), seconds(nanos)));
    if r <= u64::MAX {
        r
    } else {
        u64::MAX as nat
    }
}

/// `e` where it is positive.
spec fn pos(e: int) -> nat {
    if e > 0 {
        e as nat
    } else {
        0
    }
}

proof fn lemma_up_down(e: int)
    ensures
        up(e) == pow2(pos(e)),
        down(e) == pow2(pos(-e)),
        up(e) > 0,
        down(e) > 0,
{
    lemma2_to64();
    lemma_pow2_pos(pos(e));
    lemma_pow2_pos(pos(-e));
}

/// A quotient, read off the rounding of `m1 * 2^64 / m2`.
proof fn lemma_quotient(m1: nat, e1: int, m2: nat, e2: int, k: nat)
    requires
        m2 > 0,
        m2 * pow2(52 + k) <= m1 * pow2(64) < m2 * pow2(53 + k),
    ensures
        quotient(Binary { mant: m1, exp: e1 }, Binary { mant: m2, exp: e2 }) == (Binary {
            mant: round_half_even(m1 * pow2(64), m2 * pow2(k)),
            exp: e1 - e2 + k - 64,
        }),
{
    lemma_up_down(e1);
    lemma_up_down(e2);
    let u = pos(e1) + pos(-e2);
    let v = pos(e2) + pos(-e1);
    lemma_pow2_adds(pos(e1), pos(-e2));
    lemma_pow2_adds(pos(e2), pos(-e1));
    lemma_pow2_adds(u, v);
    lemma_pow2_pos(u);
    lemma_pow2_pos(v);
    lemma_pow2_pos(k);
    let z = pow2(u) * pow2(v);
    assert(z > 0) by (nonlinear_arith)
        requires
            z == pow2(u) * pow2(v),
            pow2(u) > 0,
            pow2(v) > 0,
    ;
    let p = m1 * up(e1) * down(e2);
    let q = m2 * up(e2) * down(e1);
    let a = k + u;
    let b = 64 + v;
    lemma_pow2_adds(64, v);
    lemma_pow2_adds(k, u);
    lemma_pow2_adds(52 + k, u);
    lemma_pow2_adds(53 + k, u);
    assert(p * pow2(b) == (m1 * pow2(64)) * z) by (nonlinear_arith)
        requires
            p == m1 * up(e1) * down(e2),
            up(e1) * down(e2) == pow2(u),
            pow2(b) == pow2(64) * pow2(v),
            z == pow2(u) * pow2(v),
    ;
    let (uk, ulo, uhi) = (pow2(k), pow2(52 + k), pow2(53 + k));
    assert(q * pow2(a) == (m2 * uk) * z) by (nonlinear_arith)
        requires
            q == m2 * up(e2) * down(e1),
            up(e2) * down(e1) == pow2(v),
            pow2(a) == uk * pow2(u),
            z == pow2(u) * pow2(v),
    ;
    assert(q * pow2(52 + a) == (m2 * ulo) * z) by (nonlinear_arith)
        requires
            q == m2 * up(e2) * down(e1),
            up(e2) * down(e1) == pow2(v),
            pow2(52 + a) == ulo * pow2(u),
            z == pow2(u) * pow2(v),
    ;
    assert(q * pow2(53 + a) == (m2 * uhi) * z) by (nonlinear_arith)
        requires
            q == m2 * up(e2) * down(e1),
            up(e2) * down(e1) == pow2(v),
            pow2(53 + a) == uhi * pow2(u),
            z == pow2(u) * pow2(v),
    ;
    assert((m2 * ulo) * z <= (m1 * pow2(64)) * z < (m2 * uhi) * z) by (nonlinear_arith)
        requires
            m2 * ulo <= m1 * pow2(64) < m2 * uhi,
            z > 0,
    ;
    assert(q > 0) by (nonlinear_arith)
        requires
            q == m2 * up(e2) * down(e1),
            m2 > 0,
            up(e2) > 0,
            down(e1) > 0,
    ;
    lemma_nearest(p, q, a, b);
    assert(m2 * uk > 0) by (nonlinear_arith)
        requires
            m2 > 0,
            uk > 0,
    ;
    lemma_round_scaled(m1 * pow2(64), m2 * uk, z);
}

/// A double given by its mantissa and exponent.
pub struct Double {
    pub mant: u64,
    pub exp: i32,
}

impl Double {
    pub open spec fn view(&self) -> Binary {
        Binary { mant: self.mant as nat, exp: self.exp as int }
    }

    pub open spec fn normal(&self) -> bool {
        0x10_0000_0000_0000 <= self.mant <= 0x20_0000_0000_0000
    }
}

/// `n` as a double.
fn of_u64(n: u64) -> (r: Double)
    requires
        n > 0,
    ensures
        r@ == nearest(n as nat, 1),
        r.normal(),
        -60 <= r.exp <= 20,
{
    proof {
        lemma2_to64();
        lemma_pow2_120();
    }
    let x: u128 = (n as u128) * 0x20_0000_0000_0000;
    let (m, k) = round53(x, false);
    proof {
        assert(1 * pow2(52 + k as nat) == pow2(52 + k as nat));
        assert(1 * pow2(53 + k as nat) == pow2(53 + k as nat));
        lemma_nearest(n as nat, 1, k as nat, 53);
        lemma_rounded(x as nat, 1, 0, k as nat);
        assert(x as nat * 1 + 0 == x);
    }
    Double { mant: m, exp: k as i32 - 53 }
}

/// `n` rounded to a double, as the whole number that it then is.
pub fn rounded_u64(n: u64) -> (r: u128)
    ensures
        r == whole(nearest(n as nat, 1)),
        r <= 0x1_0000_0000_0000_0000,
        n < 0x20_0000_0000_0000 ==> r == n,
{
    if n < 0x20_0000_0000_0000 {
        proof {
            lemma2_to64();
            lemma_pow2_120();
            crate::binary64::whole_number_is_exact(n as nat);
        }
        return n as u128;
    }
    proof {
        lemma2_to64();
        lemma_pow2_120();
    }
    let (m, k) = round53(n as u128, false);
    proof {
        assert(1 * pow2(52 + k as nat) == pow2(52 + k as nat));
        assert(1 * pow2(53 + k as nat) == pow2(53 + k as nat));
        assert(n as nat * pow2(0) == n);
        lemma_nearest(n as nat, 1, k as nat, 0);
        lemma_rounded(n as nat, 1, 0, k as nat);
        assert(n as nat * 1 + 0 == n);
        lemma_up_down(k as int);
        if k > 11 {
            lemma_pow2_strictly_increases(64, 52 + k as nat);
        }
        lemma_pow2_adds(53, k as nat);
    }
    let z: u128 = power_of_two(k);
    proof {
        if k < 11 {
            lemma_pow2_strictly_increases(k as nat, 11);
        }
        assert(m * z <= 0x20_0000_0000_0000 * 2048) by (nonlinear_arith)
            requires
                m <= 0x20_0000_0000_0000,
                z <= 2048,
        ;
        vstd::arithmetic::div_mod::lemma_div_basics((m * z) as int);
    }
    (m as u128) * z
}

/// A time in seconds as a double.
fn seconds_of(nanos: u64) -> (r: Double)
    requires
        nanos >= 500_000_000,
    ensures
        r@ == seconds(nanos as nat),
        r.normal(),
        -90 <= r.exp <= 20,
{
    let s: u64 = nanos / NANOS;
    let f: u64 = nanos % NANOS;
    proof {
        lemma2_to64();
        lemma_pow2_120();
    }
    if f == 0 {
        assert(s as nat * 1 + 0 * 1 == s) by (nonlinear_arith);
        assert(seconds(nanos as nat) == nearest(s as nat, 1)) by {
            assert(up(0) == 1 && down(0) == 1);
            assert(0nat * up(0) == 0);
        }
        return of_u64(s);
    }
    let scaled: u128 = (f as u128) * 0x10_0000_0000_0000_0000_0000;
    proof {
        lemma2_to64_rest();
        lemma_pow2_adds(60, 24);
        assert(pow2(84) == 0x10_0000_0000_0000_0000_0000);
        lemma_fundamental_div_mod(scaled as int, 1_000_000_000);
        assert(scaled >= 0x10_0000_0000_0000_0000_0000);
        assert(scaled < 1_000_000_000 * 0x10_0000_0000_0000_0000_0000);
    }
    let x: u128 = scaled / 1_000_000_000;
    let rem: u128 = scaled % 1_000_000_000;
    let (m, k) = round53(x, rem != 0);
    proof {
        let q: nat = 1_000_000_000;
        assert(x * q + rem == f as nat * pow2(84));
        assert(q * pow2(52 + k as nat) <= f as nat * pow2(84) < q * pow2(53 + k as nat))
            by (nonlinear_arith)
            requires
                x * q + rem == f as nat * pow2(84),
                0 <= rem < q,
                pow2(52 + k as nat) <= x,
                x + 1 <= pow2(53 + k as nat),
        ;
        lemma_nearest(f as nat, q, k as nat, 84);
        lemma_rounded(x as nat, q, rem as nat, k as nat);
        lemma_up_down(k - 84);
        // x < 2^84, so that k stays below 32.
        if k >= 32 {
            lemma_pow2_adds(60, 24);
            if k > 32 {
                lemma_pow2_strictly_increases(84, 52 + k as nat);
            }
        }
        assert(k < 32);
    }
    let ghost v = nearest(f as nat, 1_000_000_000);
    assert(v == Binary { mant: m as nat, exp: k - 84 });
    let d: u32 = 84 - k;
    let z: u128 = power_of_two(d);
    proof {
        lemma_pow2_strictly_increases(d as nat, 85);
        lemma_pow2_adds(60, 25);
        assert(s <= 0x4_5000_0000);
        assert(s * z <= 0x4_5000_0000 * 0x20_0000_0000_0000_0000_0000) by (nonlinear_arith)
            requires
                s <= 0x4_5000_0000,
                z <= 0x20_0000_0000_0000_0000_0000,
        ;
    }
    let t: u128 = (s as u128) * z + m as u128;
    let (m2, k2) = round53(t, false);
    proof {
        let q2 = down(v.exp);
        let p2 = s as nat * q2 + m as nat * up(v.exp);
        assert(up(v.exp) == 1);
        assert(q2 == z);
        assert(m as nat * up(v.exp) == m) by (nonlinear_arith)
            requires
                up(v.exp) == 1,
        ;
        assert(p2 == t);
        lemma_pow2_pos(d as nat);
        assert(q2 * pow2(52 + k2 as nat) <= p2 * pow2(d as nat) < q2 * pow2(53 + k2 as nat))
            by (nonlinear_arith)
            requires
                q2 == pow2(d as nat),
                pow2(d as nat) > 0,
                pow2(52 + k2 as nat) <= p2 < pow2(53 + k2 as nat),
        ;
        lemma_nearest(p2, q2, k2 as nat, d as nat);
        lemma_pow2_pos(k2 as nat);
        lemma_round_scaled(p2, pow2(k2 as nat), q2);
        assert(pow2(k2 as nat) * q2 == q2 * pow2(k2 as nat)) by (nonlinear_arith);
        lemma_rounded(t as nat, 1, 0, k2 as nat);
        assert(t as nat * 1 + 0 == t && 1 * pow2(k2 as nat) == pow2(k2 as nat));
        // The sum is below 2^35 seconds, so that its exponent is small.
        if k2 as int - d as int > 20 {
            lemma_pow2_adds(d as nat, 73);
            lemma_pow2_strictly_increases(d as nat + 72, 52 + k2 as nat);
            lemma_pow2_adds(d as nat, 72);
            assert(t < pow2(d as nat) * pow2(72)) by (nonlinear_arith)
                requires
                    t == s * pow2(d as nat) + m,
                    s <= 0x4_5000_0000,
                    m <= 0x20_0000_0000_0000,
                    pow2(72) >= 0x4_5000_0000 + 0x20_0000_0000_0000 + 1,
                    pow2(d as nat) >= 1,
            ;
        }
    }
    Double { mant: m2, exp: k2 as i32 - d as i32 }
}

/// The value without its fraction, at most what 64 bits hold.
fn whole_of(v: &Double) -> (r: u64)
    requires
        v.normal(),
        -200 <= v.exp <= 200,
    ensures
        r == if whole(v@) <= u64::MAX {
            whole(v@)
        } else {
            u64::MAX as nat
        },
{
    proof {
        lemma2_to64();
        lemma_pow2_120();
        lemma_up_down(v.exp as int);
    }
    let m: u64 = v.mant;
    if v.exp >= 12 {
        proof {
            lemma_pow2_adds(52, 12);
            if v.exp > 12 {
                lemma_pow2_strictly_increases(12, v.exp as nat);
            }
            assert(m * up(v.exp as int) >= 0x10_0000_0000_0000 * pow2(12)) by (nonlinear_arith)
                requires
                    m >= 0x10_0000_0000_0000,
                    up(v.exp as int) >= pow2(12),
            ;
            vstd::arithmetic::div_mod::lemma_div_basics((m * up(v.exp as int)) as int);
        }
        return u64::MAX;
    }
    if v.exp >= 0 {
        let e: u32 = v.exp as u32;
        let z: u128 = power_of_two(e);
        proof {
            if e < 12 {
                lemma_pow2_strictly_increases(e as nat, 12);
            }
            assert(m * z <= 0x20_0000_0000_0000 * 0x1000) by (nonlinear_arith)
                requires
                    m <= 0x20_0000_0000_0000,
                    z <= 0x1000,
            ;
            vstd::arithmetic::div_mod::lemma_div_basics((m * z) as int);
        }
        let n: u128 = (m as u128) * z;
        if n <= 0xffff_ffff_ffff_ffff {
            n as u64
        } else {
            u64::MAX
        }
    } else {
        let e: u32 = (-v.exp) as u32;
        proof {
            assert(m as nat * 1 == m);
        }
        if e > 53 {
            proof {
                lemma_pow2_strictly_increases(53, e as nat);
                vstd::arithmetic::div_mod::lemma_basic_div(m as int, pow2(e as nat) as int);
            }
            return 0;
        }
        let z: u128 = power_of_two(e);
        proof {
            lemma_fundamental_div_mod(m as int, z as int);
            assert(m as int / z as int <= m) by (nonlinear_arith)
                requires
                    m == z * (m as int / z as int) + (m as int % z as int),
                    z >= 1,
                    m as int % z as int >= 0,
                    m as int / z as int >= 0,
            ;
        }
        let n: u128 = (m as u128) / z;
        n as u64
    }
}

/// The rate of a transfer that moved `moved` bytes in `nanos` nanoseconds.
pub fn rate(moved: u64, nanos: u64) -> (r: u64)
    requires
        moved > 0,
        nanos >= 500_000_000,
    ensures
        r == bytes_per_second(moved as nat, nanos as nat),
{
    let a = of_u64(moved);
    let b = seconds_of(nanos);
    proof {
        lemma2_to64();
        lemma_pow2_120();
    }
    let scaled: u128 = (a.mant as u128) * 0x1_0000_0000_0000_0000;
    let d: u128 = b.mant as u128;
    let x: u128 = scaled / d;
    let rem: u128 = scaled % d;
    proof {
        lemma_fundamental_div_mod(scaled as int, d as int);
        assert(x >= 0x8000_0000_0000_0000) by (nonlinear_arith)
            requires
                scaled == d * x + rem,
                rem < d,
                d <= 0x20_0000_0000_0000,
                scaled >= 0x10_0000_0000_0000 * 0x1_0000_0000_0000_0000,
        ;
        assert(x <= scaled) by (nonlinear_arith)
            requires
                scaled == d * x + rem,
                d >= 1,
                rem >= 0,
        ;
    }
    let (m, k) = round53(x, rem != 0);
    proof {
        let (q, n) = (d as nat, a.mant as nat * pow2(64));
        assert(q * pow2(52 + k as nat) <= n < q * pow2(53 + k as nat)) by (nonlinear_arith)
            requires
                n == q * x + rem,
                0 <= rem < q,
                pow2(52 + k as nat) <= x,
                x + 1 <= pow2(53 + k as nat),
        ;
        lemma_quotient(a.mant as nat, a.exp as int, q, b.exp as int, k as nat);
        lemma_rounded(x as nat, q, rem as nat, k as nat);
        assert(x as nat * q + rem == n) by (nonlinear_arith)
            requires
                n == q * x + rem,
        ;
    }
    whole_of(&Double { mant: m, exp: a.exp - b.exp + k as i32 - 64 })
}

/// So many bytes every second, for a whole number of seconds, are that many bytes per second
/// exactly.
pub proof fn steady_rates_are_exact(r: nat, secs: nat)
    requires
        r > 0,
        secs > 0,
        r * secs < pow2(53),
    ensures
        bytes_per_second(r * secs, secs * 1_000_000_000) == r,
{
    let moved = r * secs;
    assert(moved >= secs && moved >= r && moved > 0) by (nonlinear_arith)
        requires
            moved == r * secs,
            r > 0,
            secs > 0,
    ;
    lemma2_to64();
    lemma2_to64_rest();
    lemma_pow2_strictly_increases(53, 64);
    let nanos = secs * 1_000_000_000;
    assert(nanos / 1_000_000_000 == secs && nanos % 1_000_000_000 == 0);
    let none = nearest(0, 1_000_000_000);
    assert(none.mant == 0 && none.exp == 0);
    lemma_up_down(0);
    assert(secs * down(0) + 0nat * up(0) == secs) by (nonlinear_arith)
        requires
            down(0) == 1,
            up(0) == 1,
    ;
    assert(seconds(nanos) == nearest(secs, 1));
    lemma_exact(moved, 1);
    lemma_exact(secs, 1);
    assert(moved * 1 == moved && secs * 1 == secs);
    let (a, b) = (nearest(moved, 1), nearest(secs, 1));
    lemma_up_down(a.exp);
    lemma_up_down(b.exp);
    let (da, db) = (down(a.exp), down(b.exp));
    let c = secs * da * db;
    assert(up(a.exp) == 1 && up(b.exp) == 1);
    assert(a.mant * up(a.exp) * down(b.exp) == r * c) by (nonlinear_arith)
        requires
            a.mant == moved * da,
            up(a.exp) == 1,
            down(b.exp) == db,
            moved == r * secs,
            c == secs * da * db,
    ;
    assert(b.mant * up(b.exp) * down(a.exp) == c) by (nonlinear_arith)
        requires
            b.mant == secs * db,
            up(b.exp) == 1,
            down(a.exp) == da,
            c == secs * da * db,
    ;
    assert(c > 0) by (nonlinear_arith)
        requires
            secs > 0,
            da > 0,
            db > 0,
            c == secs * da * db,
    ;
    lemma_exact(r, c);
    let v = nearest(r * c, c);
    lemma_up_down(v.exp);
    let g = down(v.exp);
    assert(v.mant * up(v.exp) == r * g) by (nonlinear_arith)
        requires
            v.mant == r * g,
            up(v.exp) == 1,
    ;
    lemma_div_multiples_vanish(r as int, g as int);
    assert(r * g == g * r) by (nonlinear_arith);
    assert(whole(v) == r);
}

} // verus!
