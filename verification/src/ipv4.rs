//! IPv4 addresses as 32-bit numbers.

use vstd::arithmetic::div_mod::lemma_fundamental_div_mod_converse;
use vstd::prelude::*;
use vstd::string::*;

use crate::text::{decimal, decimal_of, digit_char, is_digit};

verus! {

/// The first of the four numbers of an address.
pub open spec fn first(ip: u32) -> nat {
    ip as nat / 0x100_0000
}

/// The second of the four numbers of an address.
pub open spec fn second(ip: u32) -> nat {
    (ip as nat / 0x1_0000) % 0x100
}

/// The third of the four numbers of an address.
pub open spec fn third(ip: u32) -> nat {
    (ip as nat / 0x100) % 0x100
}

/// The last of the four numbers of an address.
pub open spec fn fourth(ip: u32) -> nat {
    ip as nat % 0x100
}

/// `127.0.0.0/8`: this machine itself.
pub open spec fn loopback(ip: u32) -> bool {
    first(ip) == 127
}

/// `169.254.0.0/16`: made up by the machine for want of anything better.
pub open spec fn link_local(ip: u32) -> bool {
    first(ip) == 169 && second(ip) == 254
}

/// `224.0.0.0/4`.
pub open spec fn multicast(ip: u32) -> bool {
    224 <= first(ip) <= 239
}

/// The ranges for private networks.
pub open spec fn private(ip: u32) -> bool {
    ||| first(ip) == 10
    ||| first(ip) == 172 && 16 <= second(ip) <= 31
    ||| first(ip) == 192 && second(ip) == 168
}

/// `100.64.0.0/10`, which overlay networks take their addresses from.
pub open spec fn cgnat(ip: u32) -> bool {
    first(ip) == 100 && 64 <= second(ip) < 128
}

/// `198.18.0.0/15`, which proxies take fake addresses from; nothing there can be
/// reached.
pub open spec fn benchmark(ip: u32) -> bool {
    first(ip) == 198 && 18 <= second(ip) < 20
}

/// The four numbers of an address.
pub fn octets(ip: u32) -> (r: (u32, u32, u32, u32))
    ensures
        r.0 == first(ip),
        r.1 == second(ip),
        r.2 == third(ip),
        r.3 == fourth(ip),
{
    (ip / 0x100_0000, (ip / 0x1_0000) % 0x100, (ip / 0x100) % 0x100, ip % 0x100)
}

pub fn is_loopback(ip: u32) -> (r: bool)
    ensures
        r == loopback(ip),
{
    octets(ip).0 == 127
}

pub fn is_link_local(ip: u32) -> (r: bool)
    ensures
        r == link_local(ip),
{
    let o = octets(ip);
    o.0 == 169 && o.1 == 254
}

pub fn is_multicast(ip: u32) -> (r: bool)
    ensures
        r == multicast(ip),
{
    let o = octets(ip);
    224 <= o.0 && o.0 <= 239
}

pub fn is_private(ip: u32) -> (r: bool)
    ensures
        r == private(ip),
{
    let o = octets(ip);
    o.0 == 10 || (o.0 == 172 && 16 <= o.1 && o.1 <= 31) || (o.0 == 192 && o.1 == 168)
}

pub fn is_cgnat(ip: u32) -> (r: bool)
    ensures
        r == cgnat(ip),
{
    let o = octets(ip);
    o.0 == 100 && 64 <= o.1 && o.1 < 128
}

pub fn is_benchmark(ip: u32) -> (r: bool)
    ensures
        r == benchmark(ip),
{
    let o = octets(ip);
    o.0 == 198 && 18 <= o.1 && o.1 < 20
}

/// An address in dotted notation.
pub open spec fn dotted(ip: u32) -> Seq<char> {
    decimal(first(ip)) + "."@ + decimal(second(ip)) + "."@ + decimal(third(ip)) + "."@ + decimal(
        fourth(ip),
    )
}

/// An address in dotted notation.
pub fn dotted_of(ip: u32) -> (r: String)
    ensures
        r@ == dotted(ip),
{
    let o = octets(ip);
    let mut s = decimal_of(o.0 as u64);
    s.append(".");
    s.append(decimal_of(o.1 as u64).as_str());
    s.append(".");
    s.append(decimal_of(o.2 as u64).as_str());
    s.append(".");
    s.append(decimal_of(o.3 as u64).as_str());
    s
}

/// The number that digits spell.
pub open spec fn digits_value(s: Seq<char>) -> nat
    decreases s.len(),
{
    if s.len() == 0 {
        0
    } else {
        10 * digits_value(s.drop_last()) + (s.last() as nat - 48) as nat
    }
}

/// One to three digits without a leading zero, at most 255.
pub open spec fn is_octet(s: Seq<char>) -> bool {
    &&& 1 <= s.len() <= 3
    &&& forall|i: int| 0 <= i < s.len() ==> is_digit(#[trigger] s[i])
    &&& s.len() > 1 ==> s[0] != '0'
    &&& digits_value(s) <= 255
}

/// `s` is the address with the four numbers between its three dots at `i`, `j`, `k`.
pub open spec fn spells_at(s: Seq<char>, ip: u32, i: int, j: int, k: int) -> bool {
    &&& 0 <= i < j < k < s.len()
    &&& s[i] == '.' && s[j] == '.' && s[k] == '.'
    &&& is_octet(s.subrange(0, i)) && digits_value(s.subrange(0, i)) == first(ip)
    &&& is_octet(s.subrange(i + 1, j)) && digits_value(s.subrange(i + 1, j)) == second(ip)
    &&& is_octet(s.subrange(j + 1, k)) && digits_value(s.subrange(j + 1, k)) == third(ip)
    &&& is_octet(s.subrange(k + 1, s.len() as int)) && digits_value(
        s.subrange(k + 1, s.len() as int),
    ) == fourth(ip)
}

/// `s` is the address `ip` in dotted notation.
pub open spec fn spells(s: Seq<char>, ip: u32) -> bool {
    exists|i: int, j: int, k: int| spells_at(s, ip, i, j, k)
}

/// The number at the start of `cs`, from `at` on, and where it ends.
fn read_octet(cs: &[char], at: usize) -> (r: Option<(u32, usize)>)
    requires
        at <= cs@.len(),
    ensures
        match r {
            Some((n, end)) => {
                &&& at < end <= cs@.len()
                &&& is_octet(cs@.subrange(at as int, end as int))
                &&& n == digits_value(cs@.subrange(at as int, end as int))
                &&& n <= 255
                &&& end == cs@.len() || !is_digit(cs@[end as int])
            },
            None => forall|end: int|
                at <= end <= cs@.len() && (end == cs@.len() || !is_digit(cs@[end]))
                    ==> !is_octet(#[trigger] cs@.subrange(at as int, end)),
        },
{
    let mut end: usize = at;
    let mut n: u32 = 0;
    assert(cs@.subrange(at as int, at as int) =~= Seq::<char>::empty());
    while end < cs.len() && '0' <= cs[end] && cs[end] <= '9'
        invariant
            at <= end <= cs@.len(),
            end - at <= 3,
            forall|i: int| at <= i < end ==> is_digit(#[trigger] cs@[i]),
            n == digits_value(cs@.subrange(at as int, end as int)),
            end - at == 0 ==> n == 0,
            end - at == 1 ==> n < 10,
            end - at == 2 ==> n < 100,
            end - at == 3 ==> n < 1000,
        decreases cs@.len() - end,
    {
        if end - at == 3 {
            // A fourth digit.
            assert forall|e: int|
                at <= e <= cs@.len() && (e == cs@.len() || !is_digit(cs@[e])) implies !is_octet(
                #[trigger] cs@.subrange(at as int, e),
            ) by {
                if e <= end {
                    assert(is_digit(cs@[e]));
                } else {
                    assert(cs@.subrange(at as int, e).len() > 3);
                }
            }
            return None;
        }
        proof {
            let a = cs@.subrange(at as int, end + 1);
            assert(a.drop_last() =~= cs@.subrange(at as int, end as int));
            assert(a.last() == cs@[end as int]);
        }
        n = 10 * n + (cs[end] as u32 - 48);
        end += 1;
    }
    let ghost s = cs@.subrange(at as int, end as int);
    assert forall|e: int|
        at <= e <= cs@.len() && (e == cs@.len() || !is_digit(cs@[e])) && is_octet(
            cs@.subrange(at as int, e),
        ) implies e == end by {
        if e < end {
            assert(is_digit(cs@[e]));
        } else if e > end {
            assert(cs@.subrange(at as int, e)[end - at] == cs@[end as int]);
        }
    }
    assert forall|i: int| 0 <= i < s.len() implies is_digit(#[trigger] s[i]) by {
        assert(is_digit(cs@[at + i]));
    }
    if end == at || (end - at > 1 && cs[at] == '0') || n > 255 {
        assert(!is_octet(s)) by {
            if end - at > 1 {
                assert(s[0] == cs@[at as int]);
            }
        }
        return None;
    }
    assert(is_octet(s)) by {
        assert(s[0] == cs@[at as int]);
    }
    Some((n, end))
}

proof fn lemma_octets_compose(a: u32, b: u32, c: u32, d: u32)
    requires
        a <= 255,
        b <= 255,
        c <= 255,
        d <= 255,
    ensures
        ({
            let ip = (a * 0x100_0000 + b * 0x1_0000 + c * 0x100 + d) as u32;
            first(ip) == a && second(ip) == b && third(ip) == c && fourth(ip) == d
        }),
{
    let x: int = a * 0x100_0000 + b * 0x1_0000 + c * 0x100 + d;
    lemma_fundamental_div_mod_converse(x, 0x100_0000, a as int, b * 0x1_0000 + c * 0x100 + d);
    lemma_fundamental_div_mod_converse(x, 0x1_0000, a * 0x100 + b, c * 0x100 + d);
    lemma_fundamental_div_mod_converse(a * 0x100 + b, 0x100, a as int, b as int);
    lemma_fundamental_div_mod_converse(x, 0x100, a * 0x1_0000 + b * 0x100 + c, d as int);
    lemma_fundamental_div_mod_converse(
        a * 0x1_0000 + b * 0x100 + c,
        0x100,
        a * 0x100 + b,
        c as int,
    );
}

/// The address that `cs` spells in dotted notation: four numbers up to 255, without
/// leading zeros, and nothing else.
pub fn parse(cs: &[char]) -> (r: Option<u32>)
    ensures
        match r {
            Some(ip) => spells(cs@, ip),
            None => forall|ip: u32| !spells(cs@, ip),
        },
{
    let n: usize = cs.len();
    let (a, i) = match read_octet(cs, 0) {
        Some(x) => x,
        None => {
            proof {
                lemma_no_first(cs@);
            }
            return None;
        },
    };
    if i >= n || cs[i] != '.' {
        proof {
            lemma_first_ends(cs@, i as int);
        }
        return None;
    }
    let (b, j) = match read_octet(cs, i + 1) {
        Some(x) => x,
        None => {
            proof {
                lemma_no_second(cs@, i as int);
            }
            return None;
        },
    };
    if j >= n || cs[j] != '.' {
        proof {
            lemma_second_ends(cs@, i as int, j as int);
        }
        return None;
    }
    let (c, k) = match read_octet(cs, j + 1) {
        Some(x) => x,
        None => {
            proof {
                lemma_no_third(cs@, i as int, j as int);
            }
            return None;
        },
    };
    if k >= n || cs[k] != '.' {
        proof {
            lemma_third_ends(cs@, i as int, j as int, k as int);
        }
        return None;
    }
    let (d, l) = match read_octet(cs, k + 1) {
        Some(x) => x,
        None => {
            proof {
                lemma_no_fourth(cs@, i as int, j as int, k as int);
            }
            return None;
        },
    };
    if l != n {
        proof {
            lemma_fourth_ends(cs@, i as int, j as int, k as int, l as int);
        }
        return None;
    }
    let ip: u32 = a * 0x100_0000 + b * 0x1_0000 + c * 0x100 + d;
    proof {
        lemma_octets_compose(a, b, c, d);
        assert(spells_at(cs@, ip, i as int, j as int, k as int));
    }
    Some(ip)
}

/// Where a number starting at `at` ends: at the first character that is no digit.
spec fn ends_at(s: Seq<char>, at: int, end: int) -> bool {
    &&& at <= end <= s.len()
    &&& forall|x: int| at <= x < end ==> is_digit(#[trigger] s[x])
    &&& end == s.len() || !is_digit(s[end])
}

proof fn lemma_octet_ends(s: Seq<char>, at: int, end: int)
    requires
        0 <= at <= end < s.len(),
        s[end] == '.',
        is_octet(s.subrange(at, end)),
    ensures
        ends_at(s, at, end),
{
    assert forall|x: int| at <= x < end implies is_digit(#[trigger] s[x]) by {
        assert(is_digit(s.subrange(at, end)[x - at]));
    }
}

proof fn lemma_octet_range(s: Seq<char>, at: int, end: int)
    requires
        0 <= at <= end <= s.len(),
        is_octet(s.subrange(at, end)),
    ensures
        forall|x: int| at <= x < end ==> is_digit(#[trigger] s[x]),
{
    assert forall|x: int| at <= x < end implies is_digit(#[trigger] s[x]) by {
        assert(is_digit(s.subrange(at, end)[x - at]));
    }
}

proof fn lemma_same_end(s: Seq<char>, at: int, x: int, y: int)
    requires
        ends_at(s, at, x),
        ends_at(s, at, y),
    ensures
        x == y,
{
    if x < y {
        assert(is_digit(s[x]));
    } else if y < x {
        assert(is_digit(s[y]));
    }
}

proof fn lemma_no_first(s: Seq<char>)
    requires
        forall|end: int|
            0 <= end <= s.len() && (end == s.len() || !is_digit(s[end])) ==> !is_octet(
                #[trigger] s.subrange(0, end),
            ),
    ensures
        forall|ip: u32| !spells(s, ip),
{
    assert forall|ip: u32| !spells(s, ip) by {
        if spells(s, ip) {
            let (i, j, k) = choose|i: int, j: int, k: int| spells_at(s, ip, i, j, k);
            assert(!is_octet(s.subrange(0, i)));
        }
    }
}

proof fn lemma_first_ends(s: Seq<char>, e: int)
    requires
        0 < e <= s.len(),
        is_octet(s.subrange(0, e)),
        e == s.len() || (!is_digit(s[e]) && s[e] != '.'),
    ensures
        forall|ip: u32| !spells(s, ip),
{
    lemma_octet_range(s, 0, e);
    assert forall|ip: u32| !spells(s, ip) by {
        if spells(s, ip) {
            let (i, j, k) = choose|i: int, j: int, k: int| spells_at(s, ip, i, j, k);
            lemma_octet_ends(s, 0, i);
            lemma_same_end(s, 0, i, e);
        }
    }
}

proof fn lemma_no_second(s: Seq<char>, a: int)
    requires
        0 < a < s.len(),
        is_octet(s.subrange(0, a)),
        s[a] == '.',
        forall|end: int|
            a + 1 <= end <= s.len() && (end == s.len() || !is_digit(s[end])) ==> !is_octet(
                #[trigger] s.subrange(a + 1, end),
            ),
    ensures
        forall|ip: u32| !spells(s, ip),
{
    lemma_octet_ends(s, 0, a);
    assert forall|ip: u32| !spells(s, ip) by {
        if spells(s, ip) {
            let (i, j, k) = choose|i: int, j: int, k: int| spells_at(s, ip, i, j, k);
            lemma_octet_ends(s, 0, i);
            lemma_same_end(s, 0, i, a);
            assert(!is_octet(s.subrange(a + 1, j)));
        }
    }
}

proof fn lemma_second_ends(s: Seq<char>, a: int, e: int)
    requires
        0 < a < s.len(),
        is_octet(s.subrange(0, a)),
        s[a] == '.',
        a + 1 < e <= s.len(),
        is_octet(s.subrange(a + 1, e)),
        e == s.len() || (!is_digit(s[e]) && s[e] != '.'),
    ensures
        forall|ip: u32| !spells(s, ip),
{
    lemma_octet_ends(s, 0, a);
    lemma_octet_range(s, a + 1, e);
    assert forall|ip: u32| !spells(s, ip) by {
        if spells(s, ip) {
            let (i, j, k) = choose|i: int, j: int, k: int| spells_at(s, ip, i, j, k);
            lemma_octet_ends(s, 0, i);
            lemma_same_end(s, 0, i, a);
            lemma_octet_ends(s, a + 1, j);
            lemma_same_end(s, a + 1, j, e);
        }
    }
}

proof fn lemma_no_third(s: Seq<char>, a: int, b: int)
    requires
        0 < a,
        a + 1 < b < s.len(),
        is_octet(s.subrange(0, a)),
        s[a] == '.',
        is_octet(s.subrange(a + 1, b)),
        s[b] == '.',
        forall|end: int|
            b + 1 <= end <= s.len() && (end == s.len() || !is_digit(s[end])) ==> !is_octet(
                #[trigger] s.subrange(b + 1, end),
            ),
    ensures
        forall|ip: u32| !spells(s, ip),
{
    lemma_octet_ends(s, 0, a);
    lemma_octet_ends(s, a + 1, b);
    assert forall|ip: u32| !spells(s, ip) by {
        if spells(s, ip) {
            let (i, j, k) = choose|i: int, j: int, k: int| spells_at(s, ip, i, j, k);
            lemma_octet_ends(s, 0, i);
            lemma_same_end(s, 0, i, a);
            lemma_octet_ends(s, a + 1, j);
            lemma_same_end(s, a + 1, j, b);
            assert(!is_octet(s.subrange(b + 1, k)));
        }
    }
}

proof fn lemma_third_ends(s: Seq<char>, a: int, b: int, e: int)
    requires
        0 < a,
        a + 1 < b < s.len(),
        is_octet(s.subrange(0, a)),
        s[a] == '.',
        is_octet(s.subrange(a + 1, b)),
        s[b] == '.',
        b + 1 < e <= s.len(),
        is_octet(s.subrange(b + 1, e)),
        e == s.len() || (!is_digit(s[e]) && s[e] != '.'),
    ensures
        forall|ip: u32| !spells(s, ip),
{
    lemma_octet_ends(s, 0, a);
    lemma_octet_ends(s, a + 1, b);
    lemma_octet_range(s, b + 1, e);
    assert forall|ip: u32| !spells(s, ip) by {
        if spells(s, ip) {
            let (i, j, k) = choose|i: int, j: int, k: int| spells_at(s, ip, i, j, k);
            lemma_octet_ends(s, 0, i);
            lemma_same_end(s, 0, i, a);
            lemma_octet_ends(s, a + 1, j);
            lemma_same_end(s, a + 1, j, b);
            lemma_octet_ends(s, b + 1, k);
            lemma_same_end(s, b + 1, k, e);
        }
    }
}

proof fn lemma_no_fourth(s: Seq<char>, a: int, b: int, c: int)
    requires
        0 < a,
        a + 1 < b,
        b + 1 < c < s.len(),
        is_octet(s.subrange(0, a)),
        s[a] == '.',
        is_octet(s.subrange(a + 1, b)),
        s[b] == '.',
        is_octet(s.subrange(b + 1, c)),
        s[c] == '.',
        forall|end: int|
            c + 1 <= end <= s.len() && (end == s.len() || !is_digit(s[end])) ==> !is_octet(
                #[trigger] s.subrange(c + 1, end),
            ),
    ensures
        forall|ip: u32| !spells(s, ip),
{
    lemma_octet_ends(s, 0, a);
    lemma_octet_ends(s, a + 1, b);
    lemma_octet_ends(s, b + 1, c);
    assert forall|ip: u32| !spells(s, ip) by {
        if spells(s, ip) {
            let (i, j, k) = choose|i: int, j: int, k: int| spells_at(s, ip, i, j, k);
            lemma_octet_ends(s, 0, i);
            lemma_same_end(s, 0, i, a);
            lemma_octet_ends(s, a + 1, j);
            lemma_same_end(s, a + 1, j, b);
            lemma_octet_ends(s, b + 1, k);
            lemma_same_end(s, b + 1, k, c);
            assert(!is_octet(s.subrange(c + 1, s.len() as int)));
        }
    }
}

proof fn lemma_fourth_ends(s: Seq<char>, a: int, b: int, c: int, e: int)
    requires
        0 < a,
        a + 1 < b,
        b + 1 < c,
        c + 1 < e < s.len(),
        is_octet(s.subrange(0, a)),
        s[a] == '.',
        is_octet(s.subrange(a + 1, b)),
        s[b] == '.',
        is_octet(s.subrange(b + 1, c)),
        s[c] == '.',
        !is_digit(s[e]),
    ensures
        forall|ip: u32| !spells(s, ip),
{
    lemma_octet_ends(s, 0, a);
    lemma_octet_ends(s, a + 1, b);
    lemma_octet_ends(s, b + 1, c);
    assert forall|ip: u32| !spells(s, ip) by {
        if spells(s, ip) {
            let (i, j, k) = choose|i: int, j: int, k: int| spells_at(s, ip, i, j, k);
            lemma_octet_ends(s, 0, i);
            lemma_same_end(s, 0, i, a);
            lemma_octet_ends(s, a + 1, j);
            lemma_same_end(s, a + 1, j, b);
            lemma_octet_ends(s, b + 1, k);
            lemma_same_end(s, b + 1, k, c);
            lemma_octet_range(s, c + 1, s.len() as int);
        }
    }
}

proof fn lemma_decimal_octet(n: nat)
    requires
        n <= 255,
    ensures
        is_octet(decimal(n)),
        digits_value(decimal(n)) == n,
{
    reveal_with_fuel(decimal, 4);
    reveal_with_fuel(digits_value, 4);
    let s = decimal(n);
    if n < 10 {
        assert(s.drop_last() =~= Seq::<char>::empty());
    } else if n < 100 {
        assert(s =~= seq![digit_char((n / 10) as int), digit_char((n % 10) as int)]);
        assert(s.drop_last() =~= seq![digit_char((n / 10) as int)]);
        assert(s.drop_last().drop_last() =~= Seq::<char>::empty());
    } else {
        let (a, b, c) = (n / 100, (n / 10) % 10, n % 10);
        assert((n / 10) / 10 == a);
        assert(s =~= seq![digit_char(a as int), digit_char(b as int), digit_char(c as int)]);
        assert(s.drop_last() =~= seq![digit_char(a as int), digit_char(b as int)]);
        assert(s.drop_last().drop_last() =~= seq![digit_char(a as int)]);
        assert(s.drop_last().drop_last().drop_last() =~= Seq::<char>::empty());
    }
}

/// What is written for an address reads back as that address.
pub proof fn written_address_reads_back(ip: u32)
    ensures
        spells(dotted(ip), ip),
{
    reveal_strlit(".");
    lemma_decimal_octet(first(ip));
    lemma_decimal_octet(second(ip));
    lemma_decimal_octet(third(ip));
    lemma_decimal_octet(fourth(ip));
    let (a, b, c, d) = (
        decimal(first(ip)),
        decimal(second(ip)),
        decimal(third(ip)),
        decimal(fourth(ip)),
    );
    let s = dotted(ip);
    let i = a.len() as int;
    let j = i + 1 + b.len();
    let k = j + 1 + c.len();
    assert(s.subrange(0, i) =~= a);
    assert(s.subrange(i + 1, j) =~= b);
    assert(s.subrange(j + 1, k) =~= c);
    assert(s.subrange(k + 1, s.len() as int) =~= d);
    assert(spells_at(s, ip, i, j, k));
}

/// A text spells at most one address.
pub proof fn notation_is_unique(s: Seq<char>, a: u32, b: u32)
    requires
        spells(s, a),
        spells(s, b),
    ensures
        a == b,
{
    let (i, j, k) = choose|i: int, j: int, k: int| spells_at(s, a, i, j, k);
    let (x, y, z) = choose|i: int, j: int, k: int| spells_at(s, b, i, j, k);
    lemma_octet_ends(s, 0, i);
    lemma_octet_ends(s, 0, x);
    lemma_same_end(s, 0, i, x);
    lemma_octet_ends(s, i + 1, j);
    lemma_octet_ends(s, i + 1, y);
    lemma_same_end(s, i + 1, j, y);
    lemma_octet_ends(s, j + 1, k);
    lemma_octet_ends(s, j + 1, z);
    lemma_same_end(s, j + 1, k, z);
    assert(first(a) == first(b) && second(a) == second(b) && third(a) == third(b) && fourth(a)
        == fourth(b));
}

/// Each named range is one unbroken block of addresses; the private networks are three.
pub proof fn ranges_are_blocks(ip: u32)
    ensures
        loopback(ip) <==> 0x7f00_0000 <= ip <= 0x7fff_ffff,
        link_local(ip) <==> 0xa9fe_0000 <= ip <= 0xa9fe_ffff,
        multicast(ip) <==> 0xe000_0000 <= ip <= 0xefff_ffff,
        cgnat(ip) <==> 0x6440_0000 <= ip <= 0x647f_ffff,
        benchmark(ip) <==> 0xc612_0000 <= ip <= 0xc613_ffff,
        private(ip) <==> (0x0a00_0000 <= ip <= 0x0aff_ffff || 0xac10_0000 <= ip <= 0xac1f_ffff
            || 0xc0a8_0000 <= ip <= 0xc0a8_ffff),
{
}

/// An address is made of its four numbers, the first one counting most.
pub proof fn four_numbers_make_the_address(ip: u32)
    ensures
        ip == 0x100_0000 * first(ip) + 0x1_0000 * second(ip) + 0x100 * third(ip) + fourth(ip),
        first(ip) < 256 && second(ip) < 256 && third(ip) < 256 && fourth(ip) < 256,
{
}

/// What is written for a number are its decimal digits, without a leading zero.
pub proof fn written_numbers_read_back(n: nat)
    ensures
        digits_value(decimal(n)) == n,
        decimal(n).len() > 0,
        forall|i: int| 0 <= i < decimal(n).len() ==> '0' <= #[trigger] decimal(n)[i] <= '9',
        n > 0 ==> decimal(n)[0] != '0',
    decreases n,
{
    reveal_with_fuel(digits_value, 2);
    let s = decimal(n);
    if n < 10 {
        assert(s.drop_last() =~= Seq::<char>::empty());
    } else {
        written_numbers_read_back(n / 10);
        let t = decimal(n / 10);
        assert(s.drop_last() =~= t);
        assert(s[0] == t[0]);
        assert forall|i: int| 0 <= i < s.len() implies '0' <= #[trigger] s[i] <= '9' by {
            if i < t.len() {
                assert('0' <= t[i] <= '9');
            }
        }
    }
}

proof fn lemma_octet_is_decimal(t: Seq<char>)
    requires
        is_octet(t),
    ensures
        t == decimal(digits_value(t)),
{
    reveal_with_fuel(decimal, 4);
    reveal_with_fuel(digits_value, 4);
    assert(is_digit(t[0]) && is_digit(t[t.len() - 1]));
    let n = digits_value(t);
    let s = t.drop_last();
    if t.len() == 1 {
        assert(s =~= Seq::<char>::empty());
        assert(t =~= seq![digit_char(n as int)]);
    } else if t.len() == 2 {
        assert(s =~= seq![t[0]]);
        assert(s.drop_last() =~= Seq::<char>::empty());
        assert(n / 10 == t[0] as nat - 48 && n % 10 == t[1] as nat - 48);
        assert(t =~= seq![digit_char((n / 10) as int), digit_char((n % 10) as int)]);
        assert(t =~= decimal(n));
    } else {
        assert(is_digit(t[1]));
        assert(s =~= seq![t[0], t[1]]);
        assert(s.drop_last() =~= seq![t[0]]);
        assert(s.drop_last().drop_last() =~= Seq::<char>::empty());
        let m = n / 10;
        assert(m == 10 * (t[0] as nat - 48) + (t[1] as nat - 48));
        assert(n % 10 == t[2] as nat - 48);
        assert(m / 10 == t[0] as nat - 48 && m % 10 == t[1] as nat - 48);
        assert(t =~= seq![
            digit_char((m / 10) as int),
            digit_char((m % 10) as int),
            digit_char((n % 10) as int),
        ]);
        assert(t =~= decimal(n));
    }
}

proof fn lemma_three_dots(s: Seq<char>, i: int, j: int, k: int)
    requires
        0 <= i < j < k < s.len(),
        s[i] == '.' && s[j] == '.' && s[k] == '.',
    ensures
        s == s.subrange(0, i) + "."@ + s.subrange(i + 1, j) + "."@ + s.subrange(j + 1, k) + "."@
            + s.subrange(k + 1, s.len() as int),
{
    reveal_strlit(".");
    let n = s.len() as int;
    assert(s.subrange(0, i) + "."@ =~= s.subrange(0, i + 1));
    assert(s.subrange(0, i + 1) + s.subrange(i + 1, j) =~= s.subrange(0, j));
    assert(s.subrange(0, j) + "."@ =~= s.subrange(0, j + 1));
    assert(s.subrange(0, j + 1) + s.subrange(j + 1, k) =~= s.subrange(0, k));
    assert(s.subrange(0, k) + "."@ =~= s.subrange(0, k + 1));
    assert(s.subrange(0, k + 1) + s.subrange(k + 1, n) =~= s);
}

/// An address is read in one notation only, the one in which it is written: four numbers
/// without leading zeros, between three dots.
pub proof fn only_the_usual_notation_is_read(s: Seq<char>, ip: u32)
    ensures
        spells(s, ip) <==> s == dotted(ip),
{
    written_address_reads_back(ip);
    if spells(s, ip) {
        let (i, j, k) = choose|i: int, j: int, k: int| spells_at(s, ip, i, j, k);
        let n = s.len() as int;
        lemma_octet_is_decimal(s.subrange(0, i));
        lemma_octet_is_decimal(s.subrange(i + 1, j));
        lemma_octet_is_decimal(s.subrange(j + 1, k));
        lemma_octet_is_decimal(s.subrange(k + 1, n));
        lemma_three_dots(s, i, j, k);
    }
}

} // verus!
