//! Natural numbers as decimal digit strings of any length.

use vstd::prelude::*;

verus! {

/// `10^n`.
pub open spec fn pow10(n: nat) -> nat
    decreases n,
{
    if n == 0 {
        1
    } else {
        10 * pow10((n - 1) as nat)
    }
}

/// Every entry is a decimal digit.
pub open spec fn digits_ok(d: Seq<u8>) -> bool {
    forall|i: int| 0 <= i < d.len() ==> 0 <= #[trigger] d[i] < 10
}

/// The number that the digits `d` spell, most significant digit first.
pub open spec fn value_of(d: Seq<u8>) -> nat
    decreases d.len(),
{
    if d.len() == 0 {
        0
    } else {
        d[0] as nat * pow10((d.len() - 1) as nat) + value_of(d.drop_first())
    }
}

pub proof fn lemma_pow10_pos(n: nat)
    ensures
        pow10(n) > 0,
    decreases n,
{
    if n > 0 {
        lemma_pow10_pos((n - 1) as nat);
    }
}

pub proof fn lemma_pow10_monotone(a: nat, b: nat)
    requires
        a <= b,
    ensures
        pow10(a) <= pow10(b),
    decreases b - a,
{
    if a < b {
        lemma_pow10_monotone(a, (b - 1) as nat);
        lemma_pow10_pos((b - 1) as nat);
    }
}

/// `n` digits spell a number below `10^n`.
pub proof fn lemma_value_bound(d: Seq<u8>)
    requires
        digits_ok(d),
    ensures
        value_of(d) < pow10(d.len()),
    decreases d.len(),
{
    if d.len() > 0 {
        let n = (d.len() - 1) as nat;
        lemma_value_bound(d.drop_first());
        assert(d[0] as nat * pow10(n) <= 9 * pow10(n)) by (nonlinear_arith)
            requires
                d[0] <= 9,
        ;
    }
}

/// Appending a digit multiplies by ten and adds it.
pub proof fn lemma_value_push(d: Seq<u8>, x: u8)
    ensures
        value_of(d.push(x)) == 10 * value_of(d) + x,
    decreases d.len(),
{
    let e = d.push(x);
    reveal_with_fuel(value_of, 2);
    reveal_with_fuel(pow10, 2);
    if d.len() == 0 {
        assert(e.drop_first() =~= Seq::<u8>::empty());
        assert(x as nat * 1 == x);
    } else {
        let n = d.len();
        assert(e.drop_first() =~= d.drop_first().push(x));
        lemma_value_push(d.drop_first(), x);
        let t = pow10((n - 1) as nat);
        assert(pow10(n) == 10 * t);
        assert(d[0] as nat * (10 * t) == 10 * (d[0] as nat * t)) by (nonlinear_arith);
    }
}

/// The digits `a` followed by the digits `b`.
pub proof fn lemma_value_concat(a: Seq<u8>, b: Seq<u8>)
    ensures
        value_of(a + b) == value_of(a) * pow10(b.len()) + value_of(b),
    decreases b.len(),
{
    if b.len() == 0 {
        assert(a + b =~= a);
        assert(value_of(a) * 1 == value_of(a));
    } else {
        let c = b.drop_last();
        let x = b.last();
        assert(c.push(x) =~= b);
        assert((a + c).push(x) =~= a + b);
        lemma_value_push(a + c, x);
        lemma_value_push(c, x);
        lemma_value_concat(a, c);
        let t = pow10(c.len());
        assert(10 * (value_of(a) * t) == value_of(a) * (10 * t)) by (nonlinear_arith);
    }
}

/// Digits spell zero exactly when all of them are zero.
pub proof fn lemma_value_zero(d: Seq<u8>)
    ensures
        (value_of(d) == 0) == (forall|i: int| 0 <= i < d.len() ==> d[i] == 0),
    decreases d.len(),
{
    if d.len() > 0 {
        let n = (d.len() - 1) as nat;
        let t = d.drop_first();
        lemma_value_zero(t);
        lemma_pow10_pos(n);
        assert((d[0] as nat * pow10(n) == 0) == (d[0] == 0)) by (nonlinear_arith)
            requires
                pow10(n) > 0,
        ;
        if value_of(d) == 0 {
            assert forall|i: int| 0 <= i < d.len() implies d[i] == 0 by {
                if i > 0 {
                    assert(t[i - 1] == 0);
                }
            }
        }
    }
}

/// Whether all digits are zero.
pub fn is_zero(d: &Vec<u8>) -> (r: bool)
    ensures
        r == (value_of(d@) == 0),
{
    proof {
        lemma_value_zero(d@);
    }
    let mut i: usize = 0;
    while i < d.len()
        invariant
            i <= d.len(),
            forall|k: int| 0 <= k < i ==> d@[k] == 0,
            (value_of(d@) == 0) == (forall|k: int| 0 <= k < d@.len() ==> d@[k] == 0),
        decreases d.len() - i,
    {
        if d[i] != 0 {
            return false;
        }
        i += 1;
    }
    true
}

/// Doubles the number in place; the result is the digit carried out in front.
pub fn double(d: &mut Vec<u8>) -> (carry: bool)
    requires
        digits_ok(old(d)@),
    ensures
        final(d)@.len() == old(d)@.len(),
        digits_ok(final(d)@),
        2 * value_of(old(d)@) == value_of(final(d)@) + if carry {
            pow10(old(d)@.len())
        } else {
            0
        },
{
    let ghost before = d@;
    let mut carry: bool = false;
    let mut i: usize = d.len();
    assert(d@.skip(d@.len() as int) =~= Seq::<u8>::empty());
    while i > 0
        invariant
            i <= d.len(),
            d@.len() == before.len(),
            digits_ok(before),
            digits_ok(d@),
            forall|k: int| 0 <= k < i ==> d@[k] == before[k],
            2 * value_of(before.skip(i as int)) == value_of(d@.skip(i as int)) + if carry {
                pow10((before.len() - i) as nat)
            } else {
                0
            },
        decreases i,
    {
        let ghost mid = d@;
        let ghost carried = carry;
        i -= 1;
        assert(digits_ok(d@) && d@[i as int] < 10);
        let x: u8 = 2 * d[i] + if carry {
            1u8
        } else {
            0u8
        };
        carry = x >= 10;
        d.set(i, if carry {
            x - 10
        } else {
            x
        });
        proof {
            let n = (before.len() - i - 1) as nat;
            let old_tail = before.skip(i + 1);
            let new_tail = mid.skip(i + 1);
            assert(d@.skip(i as int).drop_first() =~= new_tail);
            assert(before.skip(i as int).drop_first() =~= old_tail);
            assert(before.skip(i as int)[0] == before[i as int]);
            assert(d@.skip(i as int)[0] == d@[i as int]);
            let t = pow10(n);
            assert(pow10((before.len() - i) as nat) == 10 * t);
            let b = before[i as int] as nat;
            let y = d@[i as int] as nat;
            let c_in: nat = if carried {
                1
            } else {
                0
            };
            let c_out: nat = if carry {
                1
            } else {
                0
            };
            assert(2 * b + c_in == y + 10 * c_out);
            assert(2 * (b * t) + c_in * t == y * t + c_out * (10 * t)) by (nonlinear_arith)
                requires
                    2 * b + c_in == y + 10 * c_out,
            ;
        }
    }
    assert(before.skip(0) =~= before);
    assert(d@.skip(0) =~= d@);
    carry
}

/// The digits of `n`, without leading zeros.
pub fn digits_of(n: u64) -> (r: Vec<u8>)
    requires
        n > 0,
    ensures
        digits_ok(r@),
        value_of(r@) == n,
        r@.len() > 0,
        r@[0] > 0,
    decreases n,
{
    let x: u8 = (n % 10) as u8;
    if n < 10 {
        let mut r: Vec<u8> = Vec::new();
        r.push(x);
        proof {
            assert(value_of(Seq::<u8>::empty()) == 0);
            lemma_value_push(Seq::<u8>::empty(), x);
        }
        r
    } else {
        let mut r = digits_of(n / 10);
        proof {
            lemma_value_push(r@, x);
        }
        r.push(x);
        r
    }
}

/// The first place where `a` and `b` differ decides which number is smaller.
proof fn lemma_first_difference(a: Seq<u8>, b: Seq<u8>, i: int)
    requires
        a.len() == b.len(),
        digits_ok(a),
        digits_ok(b),
        0 <= i < a.len(),
        forall|k: int| 0 <= k < i ==> a[k] == b[k],
        a[i] < b[i],
    ensures
        value_of(a) < value_of(b),
    decreases a.len(),
{
    let n = (a.len() - 1) as nat;
    let (x, y) = (a.drop_first(), b.drop_first());
    if i == 0 {
        lemma_value_bound(x);
        assert(a[0] as nat * pow10(n) + pow10(n) <= b[0] as nat * pow10(n)) by (nonlinear_arith)
            requires
                a[0] + 1 <= b[0],
        ;
    } else {
        assert(a[0] == b[0]);
        assert forall|k: int| 0 <= k < i - 1 implies x[k] == y[k] by {
            assert(a[k + 1] == b[k + 1]);
        }
        lemma_first_difference(x, y, i - 1);
    }
}

/// A number without a leading zero is at least `10^(n-1)`.
proof fn lemma_value_lower(d: Seq<u8>)
    requires
        d.len() > 0,
        d[0] > 0,
    ensures
        value_of(d) >= pow10((d.len() - 1) as nat),
{
    let n = (d.len() - 1) as nat;
    assert(d[0] as nat * pow10(n) >= pow10(n)) by (nonlinear_arith)
        requires
            d[0] >= 1,
    ;
}

/// A number of as many digits that is no smaller has no leading zero either.
pub proof fn lemma_leading_digit(a: Seq<u8>, b: Seq<u8>)
    requires
        a.len() == b.len(),
        a.len() > 0,
        a[0] > 0,
        digits_ok(b),
        value_of(b) >= value_of(a),
    ensures
        b[0] > 0,
{
    lemma_value_lower(a);
    if b[0] == 0 {
        assert(0nat * pow10((b.len() - 1) as nat) == 0);
        assert forall|i: int| 0 <= i < b.drop_first().len() implies 0 <= #[trigger] b.drop_first()[i]
            < 10 by {
            assert(b[i + 1] < 10);
        }
        lemma_value_bound(b.drop_first());
    }
}

/// Leading zeros do not count.
proof fn lemma_value_skip_zeros(d: Seq<u8>, z: int)
    requires
        0 <= z <= d.len(),
        forall|k: int| 0 <= k < z ==> d[k] == 0,
    ensures
        value_of(d.skip(z)) == value_of(d),
    decreases z,
{
    if z == 0 {
        assert(d.skip(0) =~= d);
    } else {
        lemma_value_skip_zeros(d, z - 1);
        assert(d.skip(z - 1).drop_first() =~= d.skip(z));
        assert(d.skip(z - 1)[0] == 0);
        assert(0nat * pow10((d.skip(z - 1).len() - 1) as nat) == 0);
    }
}

/// Whether `a < b`, for a `b` without leading zeros.
pub fn less(a: &Vec<u8>, b: &Vec<u8>) -> (r: bool)
    requires
        digits_ok(a@),
        digits_ok(b@),
        b@.len() > 0,
        b@[0] > 0,
    ensures
        r == (value_of(a@) < value_of(b@)),
{
    let mut z: usize = 0;
    while z < a.len() && a[z] == 0
        invariant
            z <= a.len(),
            forall|k: int| 0 <= k < z ==> a@[k] == 0,
        decreases a.len() - z,
    {
        z += 1;
    }
    let ghost s = a@.skip(z as int);
    proof {
        lemma_value_skip_zeros(a@, z as int);
        lemma_value_lower(b@);
        lemma_value_bound(b@);
        assert forall|i: int| 0 <= i < s.len() implies 0 <= #[trigger] s[i] < 10 by {
            assert(a@[i + z] < 10);
        }
        lemma_value_bound(s);
        if s.len() > 0 {
            assert(s[0] == a@[z as int]);
            lemma_value_lower(s);
        }
    }
    if a.len() - z < b.len() {
        proof {
            lemma_pow10_monotone(s.len(), (b@.len() - 1) as nat);
        }
        return true;
    }
    if a.len() - z > b.len() {
        proof {
            lemma_pow10_monotone(b@.len(), (s.len() - 1) as nat);
        }
        return false;
    }
    let mut i: usize = 0;
    while i < b.len()
        invariant
            i <= b.len(),
            s.len() == b@.len(),
            a.len() == z + b.len(),
            s == a@.skip(z as int),
            value_of(s) == value_of(a@),
            digits_ok(s),
            digits_ok(b@),
            forall|k: int| 0 <= k < i ==> s[k] == b@[k],
        decreases b.len() - i,
    {
        assert(s[i as int] == a@[z + i]);
        if a[z + i] < b[i] {
            proof {
                lemma_first_difference(s, b@, i as int);
            }
            return true;
        }
        if a[z + i] > b[i] {
            proof {
                lemma_first_difference(b@, s, i as int);
            }
            return false;
        }
        i += 1;
    }
    assert(s =~= b@);
    false
}

} // verus!
