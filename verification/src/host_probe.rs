//! Where a device waiting to be paired might be.
//!
//! Multicast does not cross overlay networks, so that addresses there have to be tried.
//! They come from three sources: the peers that overlay tools report, the neighbours of
//! this machine's own overlay addresses, and the machine's own subnets. Trying them is
//! the caller's.

use vstd::arithmetic::power2::{lemma2_to64, lemma_pow2_pos, lemma_pow2_unfold, pow2};
use vstd::prelude::*;

use crate::ipv4::{cgnat, is_cgnat, is_link_local, is_loopback, is_multicast, is_private, link_local, loopback, multicast, notation_is_unique, parse, private, spells, spells_at};
use crate::text::{chars_of, is_digit};
use crate::types::{Endpoint, Ip};

verus! {

/// How many addresses are tried at most.
pub const MAX_CANDIDATES: usize = 1_024;

/// Whether a device could be at an address: a private one, or one of an overlay
/// network.
pub open spec fn reachable_peer(ip: u32) -> bool {
    &&& !loopback(ip) && !link_local(ip) && !multicast(ip) && ip != 0
    &&& private(ip) || cgnat(ip)
}

/// Whether a device could be at an address.
pub fn is_reachable_peer(ip: u32) -> (r: bool)
    ensures
        r == reachable_peer(ip),
{
    if is_loopback(ip) || is_link_local(ip) || is_multicast(ip) || ip == 0 {
        return false;
    }
    is_private(ip) || is_cgnat(ip)
}

/// The pieces of `s` between characters that cannot be part of an address.
pub open spec fn tokens(s: Seq<char>) -> Seq<Seq<char>>
    decreases s.len(),
{
    if s.len() == 0 {
        seq![Seq::empty()]
    } else {
        let before = tokens(s.drop_last());
        let c = s.last();
        if is_digit(c) || c == '.' {
            before.update(before.len() - 1, before.last().push(c))
        } else {
            before.push(Seq::empty())
        }
    }
}

/// The addresses among pieces of text, each once, in the order in which they occur.
pub open spec fn addresses(pieces: Seq<Seq<char>>) -> Seq<u32>
    decreases pieces.len(),
{
    if pieces.len() == 0 {
        Seq::empty()
    } else {
        let before = addresses(pieces.drop_last());
        let ip = choose|ip: u32| spells(pieces.last(), ip);
        if spells(pieces.last(), ip) && reachable_peer(ip) && !before.contains(ip) {
            before.push(ip)
        } else {
            before
        }
    }
}

fn contains(v: &Vec<u32>, x: u32) -> (r: bool)
    ensures
        r == v@.contains(x),
{
    let mut i: usize = 0;
    while i < v.len()
        invariant
            i <= v.len(),
            forall|k: int| 0 <= k < i ==> v@[k] != x,
        decreases v.len() - i,
    {
        if v[i] == x {
            return true;
        }
        i += 1;
    }
    false
}

/// Takes one more piece of text.
fn take_piece(out: &mut Vec<u32>, piece: &Vec<char>, Ghost(before): Ghost<Seq<Seq<char>>>)
    requires
        old(out)@ == addresses(before),
    ensures
        final(out)@ == addresses(before.push(piece@)),
{
    proof {
        assert(before.push(piece@).drop_last() =~= before);
    }
    match parse(piece) {
        Some(ip) => {
            proof {
                let c = choose|ip: u32| spells(piece@, ip);
                notation_is_unique(piece@, ip, c);
            }
            if is_reachable_peer(ip) && !contains(out, ip) {
                out.push(ip);
            }
        },
        None => {},
    }
}

/// All addresses of possible devices in a tool's output, whatever its format.
pub fn scrape_ipv4(text: &str) -> (r: Vec<u32>)
    ensures
        r@ == addresses(tokens(text@)),
{
    let cs = chars_of(text);
    let mut out: Vec<u32> = Vec::new();
    let mut piece: Vec<char> = Vec::new();
    let mut i: usize = 0;
    proof {
        assert(cs@.take(0) =~= Seq::<char>::empty());
        assert(tokens(cs@.take(0)).drop_last() =~= Seq::<Seq<char>>::empty());
    }
    while i < cs.len()
        invariant
            i <= cs.len(),
            tokens(cs@.take(i as int)).len() > 0,
            piece@ == tokens(cs@.take(i as int)).last(),
            out@ == addresses(tokens(cs@.take(i as int)).drop_last()),
        decreases cs.len() - i,
    {
        let c = cs[i];
        let ghost before = tokens(cs@.take(i as int));
        proof {
            assert(cs@.take(i + 1).drop_last() =~= cs@.take(i as int));
            assert(cs@.take(i + 1).last() == c);
        }
        if ('0' <= c && c <= '9') || c == '.' {
            piece.push(c);
            proof {
                assert(tokens(cs@.take(i + 1)).drop_last() =~= before.drop_last());
            }
        } else {
            take_piece(&mut out, &piece, Ghost(before.drop_last()));
            piece = Vec::new();
            proof {
                assert(before.drop_last().push(before.last()) =~= before);
                assert(tokens(cs@.take(i + 1)).drop_last() =~= before);
                assert(tokens(cs@.take(i + 1)).last() =~= Seq::<char>::empty());
            }
        }
        i += 1;
    }
    let ghost all = tokens(cs@);
    proof {
        assert(cs@.take(cs@.len() as int) =~= cs@);
        assert(all.drop_last().push(all.last()) =~= all);
    }
    take_piece(&mut out, &piece, Ghost(all.drop_last()));
    out
}

/// Everything found is an address worth trying, and nothing is found twice.
pub proof fn scraped_addresses_are_usable(pieces: Seq<Seq<char>>)
    ensures
        forall|i: int|
            0 <= i < addresses(pieces).len() ==> reachable_peer(#[trigger] addresses(pieces)[i]),
        addresses(pieces).no_duplicates(),
    decreases pieces.len(),
{
    if pieces.len() > 0 {
        scraped_addresses_are_usable(pieces.drop_last());
    }
}

/// The number of addresses of a subnet that is worth enumerating: a mask of at least 22
/// and at most 30 leading ones.
pub open spec fn subnet_size(mask: u32) -> Option<nat> {
    if mask == 0xffff_fffc {
        Some(4)
    } else if mask == 0xffff_fff8 {
        Some(8)
    } else if mask == 0xffff_fff0 {
        Some(16)
    } else if mask == 0xffff_ffe0 {
        Some(32)
    } else if mask == 0xffff_ffc0 {
        Some(64)
    } else if mask == 0xffff_ff80 {
        Some(128)
    } else if mask == 0xffff_ff00 {
        Some(256)
    } else if mask == 0xffff_fe00 {
        Some(512)
    } else if mask == 0xffff_fc00 {
        Some(1024)
    } else {
        None
    }
}

fn size_of_subnet(mask: u32) -> (r: Option<u32>)
    ensures
        match r {
            Some(n) => {
                &&& subnet_size(mask) == Some(n as nat)
                &&& 4 <= n <= 1024
                &&& 0x1_0000_0000int % (n as int) == 0
            },
            None => subnet_size(mask) is None,
        },
{
    proof {
        assert(0x1_0000_0000int % 4 == 0 && 0x1_0000_0000int % 8 == 0);
        assert(0x1_0000_0000int % 16 == 0 && 0x1_0000_0000int % 32 == 0);
        assert(0x1_0000_0000int % 64 == 0 && 0x1_0000_0000int % 128 == 0);
        assert(0x1_0000_0000int % 256 == 0 && 0x1_0000_0000int % 512 == 0);
        assert(0x1_0000_0000int % 1024 == 0);
    }
    if mask == 0xffff_fffc {
        Some(4)
    } else if mask == 0xffff_fff8 {
        Some(8)
    } else if mask == 0xffff_fff0 {
        Some(16)
    } else if mask == 0xffff_ffe0 {
        Some(32)
    } else if mask == 0xffff_ffc0 {
        Some(64)
    } else if mask == 0xffff_ff80 {
        Some(128)
    } else if mask == 0xffff_ff00 {
        Some(256)
    } else if mask == 0xffff_fe00 {
        Some(512)
    } else if mask == 0xffff_fc00 {
        Some(1024)
    } else {
        None
    }
}

/// The addresses from `from` up to, but not including, `to`, without `me`.
pub open spec fn others(from: int, to: int, me: u32) -> Seq<u32>
    decreases to - from,
{
    if from >= to {
        Seq::empty()
    } else if to - 1 == me {
        others(from, to - 1, me)
    } else {
        others(from, to - 1, me).push((to - 1) as u32)
    }
}

/// The other addresses of the block of `size` addresses that `ip` lies in, without the
/// block's first and last one, which stand for the subnet itself and for everybody in
/// it.
pub open spec fn neighbours(ip: u32, size: nat) -> Seq<u32> {
    let base = ip - ip % (size as u32);
    others(base + 1, base + size - 1, ip)
}

/// Whether an interface's address is one that other devices can be near.
pub open spec fn real_address(ip: u32) -> bool {
    !loopback(ip) && !link_local(ip) && ip != 0
}

/// How many ones the binary form of `n` has.
pub open spec fn ones(n: nat) -> nat
    decreases n,
{
    if n == 0 {
        0
    } else {
        n % 2 + ones(n / 2)
    }
}

fn count_ones(n: u32) -> (r: u32)
    ensures
        r == ones(n as nat),
        r <= n,
    decreases n,
{
    if n == 0 {
        0
    } else {
        n % 2 + count_ones(n / 2)
    }
}

/// The other addresses in this machine's subnets, as far as they are worth enumerating.
pub open spec fn subnet_addresses(nets: Seq<(u32, u32)>) -> Seq<u32>
    decreases nets.len(),
{
    if nets.len() == 0 {
        Seq::empty()
    } else {
        let before = subnet_addresses(nets.drop_last());
        let (ip, mask) = nets.last();
        match subnet_size(mask) {
            Some(n) => if real_address(ip) {
                before + neighbours(ip, n)
            } else {
                before
            },
            None => before,
        }
    }
}

/// The neighbours of this machine's addresses in networks that cannot be enumerated:
/// devices of one overlay often lie in one block of 256.
pub open spec fn overlay_addresses(nets: Seq<(u32, u32)>) -> Seq<u32>
    decreases nets.len(),
{
    if nets.len() == 0 {
        Seq::empty()
    } else {
        let before = overlay_addresses(nets.drop_last());
        let (ip, mask) = nets.last();
        if ones(mask as nat) > 30 && reachable_peer(ip) {
            before + neighbours(ip, 256)
        } else {
            before
        }
    }
}

/// Appends the neighbours of `ip` to `out`.
fn push_neighbours(out: &mut Vec<u32>, ip: u32, size: u32)
    requires
        4 <= size <= 1024,
        0x1_0000_0000int % (size as int) == 0,
    ensures
        final(out)@ == old(out)@ + neighbours(ip, size as nat),
{
    proof {
        vstd::arithmetic::div_mod::lemma_mod_decreases(ip as nat, size as nat);
        lemma_block_fits(ip, size);
    }
    let base: u32 = ip - ip % size;
    let start: u32 = base + 1;
    let end: u32 = base + (size - 1);
    let mut a: u32 = start;
    assert(out@ + others(start as int, start as int, ip) =~= out@);
    while a < end
        invariant
            start <= a <= end,
            out@ == old(out)@ + others(start as int, a as int, ip),
        decreases end - a,
    {
        let ghost before = out@;
        if a != ip {
            out.push(a);
            assert(out@ =~= old(out)@ + others(start as int, a as int, ip).push(a));
        }
        a += 1;
    }
}

/// The block of an address lies within the address space.
proof fn lemma_block_fits(ip: u32, size: u32)
    requires
        size > 0,
        0x1_0000_0000int % (size as int) == 0,
    ensures
        ip - ip % size + size <= 0x1_0000_0000,
{
    let s = size as int;
    let q = ip as int / s;
    let t = 0x1_0000_0000int / s;
    vstd::arithmetic::div_mod::lemma_fundamental_div_mod(ip as int, s);
    vstd::arithmetic::div_mod::lemma_fundamental_div_mod(0x1_0000_0000int, s);
    assert(q < t) by (nonlinear_arith)
        requires
            ip as int == s * q + (ip as int % s),
            0 <= ip as int % s,
            0x1_0000_0000int == s * t,
            ip < 0x1_0000_0000int,
            s > 0,
    ;
    assert(s * (q + 1) <= s * t) by (nonlinear_arith)
        requires
            q + 1 <= t,
            s > 0,
    ;
    assert(s * (q + 1) == s * q + s) by (nonlinear_arith);
}

/// The addresses at `port`.
pub open spec fn at_port(ips: Seq<u32>, port: u16) -> Seq<Endpoint> {
    ips.map_values(|ip: u32| Endpoint { ip: Ip::V4(ip), port })
}

/// The first `n` of a list, or all of it.
pub open spec fn up_to<T>(s: Seq<T>, n: nat) -> Seq<T> {
    if s.len() <= n {
        s
    } else {
        s.take(n as int)
    }
}

fn endpoints(ips: &Vec<u32>, max: usize, port: u16) -> (r: Vec<Endpoint>)
    ensures
        r@ == at_port(up_to(ips@, max as nat), port),
{
    let mut r: Vec<Endpoint> = Vec::new();
    let mut i: usize = 0;
    while i < ips.len() && i < max
        invariant
            i <= ips.len(),
            i <= max,
            r@ == at_port(ips@.take(i as int), port),
        decreases ips.len() - i,
    {
        r.push(Endpoint { ip: Ip::V4(ips[i]), port });
        i += 1;
        assert(r@ =~= at_port(ips@.take(i as int), port));
    }
    if ips.len() <= max {
        assert(ips@.take(ips@.len() as int) =~= ips@);
    }
    r
}

/// Addresses to try in this machine's own subnets, given its interfaces' addresses and
/// masks.
pub fn subnet_candidates(nets: &Vec<(u32, u32)>, port: u16) -> (r: Vec<Endpoint>)
    ensures
        r@ == at_port(up_to(subnet_addresses(nets@), 1024), port),
{
    let mut ips: Vec<u32> = Vec::new();
    let mut i: usize = 0;
    assert(nets@.take(0) =~= Seq::<(u32, u32)>::empty());
    while i < nets.len()
        invariant
            i <= nets.len(),
            ips@ == subnet_addresses(nets@.take(i as int)),
        decreases nets.len() - i,
    {
        let (ip, mask) = nets[i];
        proof {
            assert(nets@.take(i + 1).drop_last() =~= nets@.take(i as int));
            assert(nets@.take(i + 1).last() == nets@[i as int]);
        }
        if !is_loopback(ip) && !is_link_local(ip) && ip != 0 {
            match size_of_subnet(mask) {
                Some(n) => push_neighbours(&mut ips, ip, n),
                None => {},
            }
        }
        i += 1;
    }
    assert(nets@.take(nets@.len() as int) =~= nets@);
    endpoints(&ips, MAX_CANDIDATES, port)
}

/// Addresses to try near this machine's own overlay addresses.
pub fn overlay_neighborhood(nets: &Vec<(u32, u32)>, port: u16) -> (r: Vec<Endpoint>)
    ensures
        r@ == at_port(overlay_addresses(nets@), port),
{
    let mut ips: Vec<u32> = Vec::new();
    let mut i: usize = 0;
    assert(nets@.take(0) =~= Seq::<(u32, u32)>::empty());
    while i < nets.len()
        invariant
            i <= nets.len(),
            ips@ == overlay_addresses(nets@.take(i as int)),
        decreases nets.len() - i,
    {
        let (ip, mask) = nets[i];
        proof {
            assert(nets@.take(i + 1).drop_last() =~= nets@.take(i as int));
            assert(nets@.take(i + 1).last() == nets@[i as int]);
        }
        if count_ones(mask) > 30 && is_reachable_peer(ip) {
            push_neighbours(&mut ips, ip, 256);
        }
        i += 1;
    }
    assert(nets@.take(nets@.len() as int) =~= nets@);
    let n: usize = ips.len();
    endpoints(&ips, n, port)
}

/// Enumerating leaves out the subnet's own address, the broadcast address and this
/// machine, and lists every other address of the subnet once.
pub proof fn enumeration_is_exact(from: int, to: int, me: u32, a: u32)
    requires
        0 <= from,
        to <= 0x1_0000_0000,
    ensures
        others(from, to, me).contains(a) == (from <= a < to && a != me),
        others(from, to, me).no_duplicates(),
        forall|i: int| 0 <= i < others(from, to, me).len() ==> #[trigger] others(from, to, me)[i] < to,
    decreases to - from,
{
    if from < to {
        enumeration_is_exact(from, to - 1, me, a);
        let before = others(from, to - 1, me);
        let all = others(from, to, me);
        if to - 1 != me {
            assert(all.contains(a) == (before.contains(a) || a == to - 1)) by {
                if before.contains(a) {
                    let i = choose|i: int| 0 <= i < before.len() && before[i] == a;
                    assert(all[i] == a);
                }
                if a == to - 1 {
                    assert(all[all.len() - 1] == a);
                }
                if all.contains(a) {
                    let i = choose|i: int| 0 <= i < all.len() && all[i] == a;
                    if i < before.len() {
                        assert(before[i] == a);
                    }
                }
            }
            assert forall|i: int| 0 <= i < all.len() implies #[trigger] all[i] < to by {
                if i < before.len() {
                    assert(before[i] < to - 1);
                }
            }
            assert(all.no_duplicates()) by {
                assert forall|i: int, j: int|
                    0 <= i < all.len() && 0 <= j < all.len() && i != j implies all[i] != all[j] by {
                    if i < before.len() {
                        assert(before[i] < to - 1);
                    }
                    if j < before.len() {
                        assert(before[j] < to - 1);
                    }
                }
            }
        }
    }
}

/// `x` inserted into an ascending list of different numbers.
pub open spec fn inserted(s: Seq<u32>, x: u32) -> Seq<u32>
    decreases s.len(),
{
    if s.len() == 0 {
        seq![x]
    } else if s.last() < x {
        s.push(x)
    } else if s.last() == x {
        s
    } else {
        inserted(s.drop_last(), x).push(s.last())
    }
}

/// An ascending list of different numbers.
pub open spec fn ascending(s: Seq<u32>) -> bool {
    forall|i: int, j: int| 0 <= i < j < s.len() ==> #[trigger] s[i] < #[trigger] s[j]
}

fn insert_sorted(v: &mut Vec<u32>, x: u32)
    requires
        ascending(old(v)@),
    ensures
        final(v)@ == inserted(old(v)@, x),
{
    let ghost s = v@;
    let mut p: usize = v.len();
    assert(s.take(s.len() as int) =~= s);
    assert(s.skip(s.len() as int) =~= Seq::<u32>::empty());
    assert(inserted(s, x) =~= inserted(s.take(p as int), x) + s.skip(p as int));
    while p > 0 && v[p - 1] > x
        invariant
            p <= v.len(),
            v@ == s,
            inserted(s, x) == inserted(s.take(p as int), x) + s.skip(p as int),
        decreases p,
    {
        proof {
            let t = s.take(p as int);
            assert(t.drop_last() =~= s.take(p - 1));
            assert(t.last() == s[p - 1]);
            assert(inserted(s.take(p - 1), x).push(s[p - 1]) + s.skip(p as int) =~= inserted(
                s.take(p - 1),
                x,
            ) + s.skip(p - 1));
        }
        p -= 1;
    }
    if p > 0 && v[p - 1] == x {
        proof {
            assert(s.take(p as int).last() == s[p - 1]);
            assert(s.take(p as int) + s.skip(p as int) =~= s);
        }
        return;
    }
    proof {
        if p > 0 {
            assert(s.take(p as int).last() == s[p - 1]);
        }
        assert(s.insert(p as int, x) =~= s.take(p as int).push(x) + s.skip(p as int));
        if p == 0 {
            assert(seq![x] =~= s.take(0).push(x));
        }
    }
    v.insert(p, x);
}

proof fn lemma_inserted(s: Seq<u32>, x: u32)
    requires
        ascending(s),
    ensures
        ascending(inserted(s, x)),
        forall|y: u32| #[trigger] inserted(s, x).contains(y) == (s.contains(y) || y == x),
        s.len() > 0 ==> inserted(s, x).last() == if s.last() < x {
            x
        } else {
            s.last()
        },
        inserted(s, x).len() > 0,
    decreases s.len(),
{
    let r = inserted(s, x);
    if s.len() == 0 {
        assert forall|y: u32| #[trigger] r.contains(y) == (s.contains(y) || y == x) by {
            if y == x {
                assert(r[0] == y);
            }
        }
    } else if s.last() < x {
        assert forall|i: int, j: int| 0 <= i < j < r.len() implies #[trigger] r[i] < #[trigger] r[j] by {
            if i < s.len() - 1 {
                assert(s[i] < s[s.len() - 1]);
            }
        }
        assert forall|y: u32| #[trigger] r.contains(y) == (s.contains(y) || y == x) by {
            if s.contains(y) {
                let i = choose|i: int| 0 <= i < s.len() && s[i] == y;
                assert(r[i] == y);
            }
            if y == x {
                assert(r[s.len() as int] == y);
            }
            if r.contains(y) && y != x {
                let i = choose|i: int| 0 <= i < r.len() && r[i] == y;
                assert(s[i] == y);
            }
        }
    } else if s.last() == x {
        assert forall|y: u32| #[trigger] r.contains(y) == (s.contains(y) || y == x) by {
            if y == x {
                assert(s[s.len() - 1] == y);
            }
        }
    } else {
        let t = s.drop_last();
        assert(ascending(t)) by {
            assert forall|i: int, j: int| 0 <= i < j < t.len() implies #[trigger] t[i]
                < #[trigger] t[j] by {
                assert(s[i] < s[j]);
            }
        }
        lemma_inserted(t, x);
        let u = inserted(t, x);
        assert(u.last() < s.last()) by {
            if t.len() > 0 {
                assert(s[t.len() - 1] < s[s.len() - 1]);
            }
        }
        assert forall|i: int, j: int| 0 <= i < j < r.len() implies #[trigger] r[i] < #[trigger] r[j] by {
            if j == u.len() {
                if i < u.len() - 1 {
                    assert(u[i] < u[u.len() - 1]);
                }
            } else {
                assert(u[i] < u[j]);
            }
        }
        assert forall|y: u32| #[trigger] r.contains(y) == (s.contains(y) || y == x) by {
            if s.contains(y) {
                let i = choose|i: int| 0 <= i < s.len() && s[i] == y;
                if i < t.len() {
                    assert(t[i] == y);
                    assert(u.contains(y));
                    let k = choose|k: int| 0 <= k < u.len() && u[k] == y;
                    assert(r[k] == y);
                } else {
                    assert(r[u.len() as int] == y);
                }
            }
            if y == x {
                assert(u.contains(y));
                let k = choose|k: int| 0 <= k < u.len() && u[k] == y;
                assert(r[k] == y);
            }
            if r.contains(y) {
                let i = choose|i: int| 0 <= i < r.len() && r[i] == y;
                if i < u.len() {
                    assert(u[i] == y);
                    assert(u.contains(y));
                    if y != x {
                        assert(t.contains(y));
                        let k = choose|k: int| 0 <= k < t.len() && t[k] == y;
                        assert(s[k] == y);
                    }
                } else {
                    assert(s[s.len() - 1] == y);
                }
            }
        }
    }
}

/// Whether some tool reported this address, and it is not this machine's own.
pub open spec fn reported(outputs: Seq<String>, own: Seq<u32>, ip: u32) -> bool {
    !own.contains(ip) && exists|i: int|
        0 <= i < outputs.len() && addresses(tokens(#[trigger] outputs[i]@)).contains(ip)
}

/// `ips` lists what the tools reported, in ascending order.
pub open spec fn lists_reported(ips: Seq<u32>, outputs: Seq<String>, own: Seq<u32>) -> bool {
    &&& ascending(ips)
    &&& forall|ip: u32| #[trigger] ips.contains(ip) == reported(outputs, own, ip)
}

/// Addresses that overlay tools report, given their outputs and this machine's own
/// addresses.
pub fn overlay_tool_candidates(outputs: &Vec<String>, own: &Vec<u32>, port: u16) -> (r: Vec<
    Endpoint,
>)
    ensures
        exists|ips: Seq<u32>|
            lists_reported(ips, outputs@, own@) && r@ == #[trigger] at_port(
                up_to(ips, 1024),
                port,
            ),
{
    let mut ips: Vec<u32> = Vec::new();
    let mut i: usize = 0;
    assert(outputs@.take(0) =~= Seq::<String>::empty());
    while i < outputs.len()
        invariant
            i <= outputs.len(),
            lists_reported(ips@, outputs@.take(i as int), own@),
        decreases outputs.len() - i,
    {
        let found = scrape_ipv4(outputs[i].as_str());
        let ghost seen = outputs@.take(i as int);
        let ghost now_seen = outputs@.take(i + 1);
        let ghost before = ips@;
        let mut k: usize = 0;
        while k < found.len()
            invariant
                k <= found.len(),
                ascending(ips@),
                forall|ip: u32| #[trigger]
                    ips@.contains(ip) == (before.contains(ip) || (!own@.contains(ip)
                        && found@.take(k as int).contains(ip))),
            decreases found.len() - k,
        {
            let x = found[k];
            let ghost mid = ips@;
            proof {
                lemma_inserted(mid, x);
                assert forall|ip: u32| found@.take(k + 1).contains(ip) == (found@.take(
                    k as int,
                ).contains(ip) || ip == x) by {
                    let a = found@.take(k as int);
                    let b = found@.take(k + 1);
                    if a.contains(ip) {
                        let j = choose|j: int| 0 <= j < a.len() && a[j] == ip;
                        assert(b[j] == ip);
                    }
                    if ip == x {
                        assert(b[k as int] == ip);
                    }
                    if b.contains(ip) && ip != x {
                        let j = choose|j: int| 0 <= j < b.len() && b[j] == ip;
                        assert(a[j] == ip);
                    }
                }
            }
            if !contains(own, x) {
                insert_sorted(&mut ips, x);
            }
            assert forall|ip: u32| #[trigger] ips@.contains(ip) == (before.contains(ip) || (
            !own@.contains(ip) && found@.take(k + 1).contains(ip))) by {
                assert(mid.contains(ip) == (before.contains(ip) || (!own@.contains(ip)
                    && found@.take(k as int).contains(ip))));
            }
            k += 1;
        }
        proof {
            assert(found@.take(found@.len() as int) =~= found@);
            assert forall|ip: u32| #[trigger] ips@.contains(ip) == reported(now_seen, own@, ip) by {
                assert(before.contains(ip) == reported(seen, own@, ip));
                if reported(seen, own@, ip) {
                    let j = choose|j: int|
                        0 <= j < seen.len() && addresses(tokens(#[trigger] seen[j]@)).contains(ip);
                    assert(addresses(tokens(now_seen[j]@)).contains(ip));
                }
                if found@.contains(ip) {
                    assert(addresses(tokens(now_seen[i as int]@)).contains(ip));
                }
                if reported(now_seen, own@, ip) {
                    let j = choose|j: int|
                        0 <= j < now_seen.len() && addresses(
                            tokens(#[trigger] now_seen[j]@),
                        ).contains(ip);
                    if j < i {
                        assert(addresses(tokens(seen[j]@)).contains(ip));
                    } else {
                        assert(found@.contains(ip));
                    }
                }
            }
        }
        i += 1;
    }
    assert(outputs@.take(outputs@.len() as int) =~= outputs@);
    endpoints(&ips, MAX_CANDIDATES, port)
}

/// The addresses of a list, each where it occurs first.
pub open spec fn first_occurrences(s: Seq<Endpoint>) -> Seq<Endpoint>
    decreases s.len(),
{
    if s.len() == 0 {
        s
    } else {
        let before = first_occurrences(s.drop_last());
        if before.contains(s.last()) {
            before
        } else {
            before.push(s.last())
        }
    }
}

fn push_new(out: &mut Vec<Endpoint>, more: &Vec<Endpoint>, Ghost(before): Ghost<Seq<Endpoint>>)
    requires
        old(out)@ == first_occurrences(before),
    ensures
        final(out)@ == first_occurrences(before + more@),
{
    let mut i: usize = 0;
    assert(before + more@.take(0) =~= before);
    while i < more.len()
        invariant
            i <= more.len(),
            out@ == first_occurrences(before + more@.take(i as int)),
        decreases more.len() - i,
    {
        let x = more[i];
        let mut there: bool = false;
        let mut k: usize = 0;
        while k < out.len()
            invariant
                k <= out.len(),
                there == (exists|j: int| 0 <= j < k && out@[j] == x),
            decreases out.len() - k,
        {
            if out[k] == x {
                there = true;
            }
            k += 1;
        }
        proof {
            let s = before + more@.take(i + 1);
            assert(s.drop_last() =~= before + more@.take(i as int));
            assert(s.last() == x);
        }
        if !there {
            out.push(x);
        }
        i += 1;
    }
    assert(more@.take(more@.len() as int) =~= more@);
}

/// All addresses to try, each once: what the tools report first, then the overlay
/// neighbours, then the subnets.
pub fn find_hosts(tools: &Vec<Endpoint>, overlay: &Vec<Endpoint>, subnets: &Vec<Endpoint>) -> (r: Vec<
    Endpoint,
>)
    ensures
        r@ == first_occurrences(tools@ + overlay@ + subnets@),
{
    let mut out: Vec<Endpoint> = Vec::new();
    push_new(&mut out, tools, Ghost(Seq::empty()));
    assert(Seq::<Endpoint>::empty() + tools@ =~= tools@);
    push_new(&mut out, overlay, Ghost(tools@));
    push_new(&mut out, subnets, Ghost(tools@ + overlay@));
    out
}

/// Whether the first bytes of a connection are those of a device waiting to be paired:
/// the big-endian length of its first message, not zero and below `2^16`.
///
/// `head` is what could be read in time. Mere connecting proves nothing: some proxies
/// accept connections to any address.
pub fn speaks_pairing(head: &[u8]) -> (r: bool)
    ensures
        r == (head@.len() == 4 && head@[0] == 0 && head@[1] == 0 && (head@[2] != 0 || head@[3]
            != 0)),
{
    head.len() == 4 && head[0] == 0 && head[1] == 0 && (head[2] != 0 || head[3] != 0)
}

/// Devices are looked for in private networks and in overlay networks, and nowhere else.
pub proof fn devices_are_near(ip: u32)
    ensures
        reachable_peer(ip) <==> private(ip) || cgnat(ip),
{
}

/// Whether a character can be part of an address.
spec fn in_address(c: char) -> bool {
    '0' <= c <= '9' || c == '.'
}

proof fn lemma_spelled(s: Seq<char>, ip: u32)
    requires
        spells(s, ip),
    ensures
        s.len() > 0,
        forall|x: int| 0 <= x < s.len() ==> in_address(#[trigger] s[x]),
{
    let (i, j, k) = choose|i: int, j: int, k: int| spells_at(s, ip, i, j, k);
    assert forall|x: int| 0 <= x < s.len() implies in_address(#[trigger] s[x]) by {
        if x < i {
            assert(is_digit(s.subrange(0, i)[x]));
        } else if i < x < j {
            assert(is_digit(s.subrange(i + 1, j)[x - i - 1]));
        } else if j < x < k {
            assert(is_digit(s.subrange(j + 1, k)[x - j - 1]));
        } else if k < x {
            assert(is_digit(s.subrange(k + 1, s.len() as int)[x - k - 1]));
        }
    }
}

/// `[i, j)` is where a piece of `s` stands, as far as the characters of addresses go.
spec fn piece_at(s: Seq<char>, i: int, j: int) -> bool {
    &&& 0 <= i <= j <= s.len()
    &&& i == 0 || !in_address(s[i - 1])
    &&& j == s.len() || !in_address(s[j])
    &&& forall|x: int| i <= x < j ==> in_address(#[trigger] s[x])
}

/// Whether `p` is a piece of `s` with something behind it.
spec fn followed(s: Seq<char>, p: Seq<char>) -> bool {
    exists|i: int, j: int| #[trigger] piece_at(s, i, j) && j < s.len() && p == s.subrange(i, j)
}

proof fn lemma_piece_longer(s: Seq<char>, i: int, j: int)
    requires
        s.len() > 0,
        piece_at(s.drop_last(), i, j),
    ensures
        j < s.len() - 1 || !in_address(s.last()) ==> piece_at(s, i, j),
        j == s.len() - 1 && in_address(s.last()) ==> piece_at(s, i, j + 1),
{
    let t = s.drop_last();
    assert forall|x: int| i <= x < j implies in_address(#[trigger] s[x]) by {
        assert(in_address(t[x]));
    }
    if i > 0 {
        assert(!in_address(t[i - 1]));
    }
    if j < t.len() {
        assert(!in_address(t[j]));
    }
}

proof fn lemma_tokens(s: Seq<char>)
    ensures
        tokens(s).len() > 0,
        exists|i: int| #[trigger] piece_at(s, i, s.len() as int) && tokens(s).last() == s.subrange(i, s.len() as int),
        forall|k: int| 0 <= k < tokens(s).len() - 1 ==> followed(s, #[trigger] tokens(s)[k]),
    decreases s.len(),
{
    if s.len() == 0 {
        assert(s.subrange(0, 0) =~= Seq::<char>::empty());
        assert(piece_at(s, 0, 0));
    } else {
        let t = s.drop_last();
        let n = t.len() as int;
        let c = s.last();
        lemma_tokens(t);
        let at = choose|i: int| #[trigger] piece_at(t, i, n) && tokens(t).last() == t.subrange(i, n);
        let before = tokens(t);
        let all = tokens(s);
        lemma_piece_longer(s, at, n);
        if in_address(c) {
            assert(t.subrange(at, n).push(c) =~= s.subrange(at, n + 1));
        } else {
            assert(piece_at(s, n + 1, n + 1));
            assert(s.subrange(n + 1, n + 1) =~= Seq::<char>::empty());
            assert(t.subrange(at, n) =~= s.subrange(at, n));
        }
        assert forall|k: int| 0 <= k < all.len() - 1 implies followed(s, #[trigger] all[k]) by {
            if k < before.len() - 1 {
                assert(followed(t, before[k]));
                let (i, j) = choose|i: int, j: int| #[trigger]
                    piece_at(t, i, j) && j < t.len() && before[k] == t.subrange(i, j);
                assert(t.subrange(i, j) =~= s.subrange(i, j));
                lemma_piece_longer(s, i, j);
            }
        }
    }
}

proof fn lemma_token_grows(a: Seq<char>, p: Seq<char>)
    requires
        forall|x: int| 0 <= x < p.len() ==> in_address(#[trigger] p[x]),
    ensures
        tokens(a).len() > 0,
        tokens(a + p).len() == tokens(a).len(),
        tokens(a + p).last() == tokens(a).last() + p,
    decreases p.len(),
{
    lemma_tokens(a);
    if p.len() == 0 {
        assert(a + p =~= a);
        assert(tokens(a).last() + p =~= tokens(a).last());
    } else {
        let q = p.drop_last();
        lemma_token_grows(a, q);
        assert((a + p).drop_last() =~= a + q);
        assert(in_address(p[p.len() - 1]));
        assert((tokens(a).last() + q).push(p.last()) =~= tokens(a).last() + p);
    }
}

proof fn lemma_token_stays(t: Seq<char>, b: Seq<char>)
    requires
        b.len() > 0,
        !in_address(b[0]),
    ensures
        tokens(t).len() > 0,
        tokens(t + b).len() > tokens(t).len(),
        tokens(t + b)[tokens(t).len() - 1] == tokens(t).last(),
    decreases b.len(),
{
    lemma_tokens(t);
    assert((t + b).drop_last() =~= t + b.drop_last());
    if b.len() == 1 {
        assert(t + b.drop_last() =~= t);
    } else {
        lemma_token_stays(t, b.drop_last());
    }
}

proof fn lemma_address_kept(pieces: Seq<Seq<char>>, k: int, ip: u32)
    requires
        0 <= k < pieces.len(),
        spells(pieces[k], ip),
        reachable_peer(ip),
    ensures
        addresses(pieces).contains(ip),
    decreases pieces.len(),
{
    let before = addresses(pieces.drop_last());
    let all = addresses(pieces);
    if k == pieces.len() - 1 {
        let c = choose|x: u32| spells(pieces.last(), x);
        notation_is_unique(pieces.last(), ip, c);
        if !before.contains(ip) {
            assert(all[before.len() as int] == ip);
        }
    } else {
        lemma_address_kept(pieces.drop_last(), k, ip);
        let i = choose|i: int| 0 <= i < before.len() && before[i] == ip;
        assert(all[i] == ip);
    }
}

/// An address that a device could be at is found in a text wherever it stands: at the
/// start, at the end, or between any characters but digits and dots.
pub proof fn addresses_are_found_in_any_text(a: Seq<char>, p: Seq<char>, b: Seq<char>, ip: u32)
    requires
        a.len() > 0 ==> !('0' <= a.last() <= '9' || a.last() == '.'),
        b.len() > 0 ==> !('0' <= b[0] <= '9' || b[0] == '.'),
        spells(p, ip),
        reachable_peer(ip),
    ensures
        addresses(tokens(a + p + b)).contains(ip),
{
    lemma_spelled(p, ip);
    lemma_token_grows(a, p);
    let t = a + p;
    assert(tokens(a).last() =~= Seq::<char>::empty());
    assert(tokens(t).last() =~= p);
    if b.len() > 0 {
        lemma_token_stays(t, b);
    } else {
        assert(t + b =~= t);
    }
    lemma_address_kept(tokens(t + b), tokens(t).len() - 1, ip);
}

/// Nothing is found in a text but the addresses that stand in it, between characters that
/// could not be part of them.
pub proof fn only_written_addresses_are_found(s: Seq<char>, ip: u32) -> (r: (int, int))
    requires
        addresses(tokens(s)).contains(ip),
    ensures
        0 <= r.0 < r.1 <= s.len(),
        spells(s.subrange(r.0, r.1), ip),
        r.0 > 0 ==> !('0' <= s[r.0 - 1] <= '9' || s[r.0 - 1] == '.'),
        r.1 < s.len() ==> !('0' <= s[r.1] <= '9' || s[r.1] == '.'),
        private(ip) || cgnat(ip),
{
    let pieces = tokens(s);
    let k = lemma_found(pieces, ip);
    lemma_tokens(s);
    let n = s.len() as int;
    let (i, j) = if k == pieces.len() - 1 {
        let i = choose|i: int| #[trigger] piece_at(s, i, n) && pieces.last() == s.subrange(i, n);
        (i, n)
    } else {
        assert(followed(s, pieces[k]));
        choose|i: int, j: int| #[trigger]
            piece_at(s, i, j) && j < s.len() && pieces[k] == s.subrange(i, j)
    };
    lemma_spelled(pieces[k], ip);
    (i, j)
}

proof fn lemma_found(pieces: Seq<Seq<char>>, ip: u32) -> (k: int)
    requires
        addresses(pieces).contains(ip),
    ensures
        0 <= k < pieces.len(),
        spells(pieces[k], ip),
        reachable_peer(ip),
    decreases pieces.len(),
{
    let before = addresses(pieces.drop_last());
    if before.contains(ip) {
        lemma_found(pieces.drop_last(), ip)
    } else {
        let all = addresses(pieces);
        let i = choose|i: int| 0 <= i < all.len() && all[i] == ip;
        if i < before.len() {
            assert(before[i] == ip);
        }
        pieces.len() - 1
    }
}

/// What is found in more text comes behind what was found already.
pub proof fn addresses_are_found_in_their_order(pieces: Seq<Seq<char>>, more: Seq<Seq<char>>)
    ensures
        addresses(pieces).len() <= addresses(pieces + more).len(),
        addresses(pieces + more).take(addresses(pieces).len() as int) == addresses(pieces),
    decreases more.len(),
{
    if more.len() == 0 {
        assert(pieces + more =~= pieces);
        assert(addresses(pieces).take(addresses(pieces).len() as int) =~= addresses(pieces));
    } else {
        let m = more.drop_last();
        addresses_are_found_in_their_order(pieces, m);
        assert((pieces + more).drop_last() =~= pieces + m);
        assert(addresses(pieces + more).take(addresses(pieces).len() as int) =~= addresses(
            pieces + m,
        ).take(addresses(pieces).len() as int));
    }
}

/// A mask says how many addresses its subnet has: it and that number make up the whole
/// address space. Worth enumerating are the subnets of 4 to 1024 addresses.
pub proof fn masks_tell_the_size(mask: u32, k: nat)
    requires
        2 <= k <= 10,
    ensures
        subnet_size(mask) == Some(pow2(k)) <==> mask + pow2(k) == 0x1_0000_0000,
        subnet_size(mask) matches Some(n) ==> 4 <= n <= 1024 && mask + n == 0x1_0000_0000,
{
    lemma2_to64();
}

/// The neighbours of an address are the addresses of its block, each once, but for the
/// block's first and last one and the address itself.
pub proof fn neighbours_share_the_block(ip: u32, size: nat, a: u32)
    requires
        4 <= size <= 1024,
        0x1_0000_0000int % (size as int) == 0,
    ensures
        neighbours(ip, size).contains(a) <==> {
            &&& a as nat / size == ip as nat / size
            &&& a as nat % size != 0
            &&& a as nat % size != size - 1
            &&& a != ip
        },
        neighbours(ip, size).no_duplicates(),
{
    let s = size as int;
    lemma_block_fits(ip, size as u32);
    vstd::arithmetic::div_mod::lemma_mod_decreases(ip as nat, size);
    let base = ip - ip % (size as u32);
    enumeration_is_exact(base + 1, base + size - 1, ip, a);
    let q = ip as int / s;
    vstd::arithmetic::div_mod::lemma_fundamental_div_mod(ip as int, s);
    vstd::arithmetic::div_mod::lemma_fundamental_div_mod(a as int, s);
    vstd::arithmetic::div_mod::lemma_mod_bound(a as int, s);
    assert(base == s * q);
    let m = a as int / s;
    let r = a as int % s;
    if base + 1 <= a < base + size - 1 {
        vstd::arithmetic::div_mod::lemma_fundamental_div_mod_converse(a as int, s, q, a - base);
    }
    if m == q {
        assert(a == base + r);
    }
}

/// Whether `a` is another address of the block of `size` addresses around `ip`, and
/// neither the first nor the last of it.
pub open spec fn is_neighbour(a: u32, ip: u32, size: nat) -> bool {
    &&& a as nat / size == ip as nat / size
    &&& a as nat % size != 0
    &&& a as nat % size != size - 1
    &&& a != ip
}

/// Whether a search of the subnet that this machine has the address `net.0` and the mask
/// `net.1` in tries `a`.
pub open spec fn in_small_subnet(net: (u32, u32), a: u32) -> bool {
    &&& !loopback(net.0) && !link_local(net.0) && net.0 != 0
    &&& exists|k: nat|
        2 <= k <= 10 && net.1 + pow2(k) == 0x1_0000_0000 && #[trigger] is_neighbour(
            a,
            net.0,
            pow2(k),
        )
}

/// Whether a search around this machine's address `net.0`, with the mask `net.1`, tries
/// `a`.
pub open spec fn near_overlay(net: (u32, u32), a: u32) -> bool {
    &&& private(net.0) || cgnat(net.0)
    &&& ones(net.1 as nat) >= 31
    &&& is_neighbour(a, net.0, 256)
}

/// An address is tried as part of a subnet exactly where it is another address, but not
/// the first or the last one, of a subnet of 4 to 1024 addresses that this machine has a
/// real address in.
pub proof fn subnets_are_searched_whole(nets: Seq<(u32, u32)>, a: u32)
    ensures
        subnet_addresses(nets).contains(a) <==> exists|k: int|
            0 <= k < nets.len() && in_small_subnet(#[trigger] nets[k], a),
    decreases nets.len(),
{
    if nets.len() > 0 {
        let t = nets.drop_last();
        let last = nets.len() - 1;
        subnets_are_searched_whole(t, a);
        let before = subnet_addresses(t);
        let (ip, mask) = nets[last];
        if let Some(n) = subnet_size(mask) {
            lemma_sizes(mask);
            neighbours_share_the_block(ip, n, a);
            lemma_contains_sum(before, neighbours(ip, n), a);
        }
        lemma_small_subnet(ip, mask, a);
        if before.contains(a) {
            let k = choose|k: int| 0 <= k < t.len() && in_small_subnet(#[trigger] t[k], a);
            assert(in_small_subnet(nets[k], a));
        }
        if in_small_subnet((ip, mask), a) {
            assert(in_small_subnet(nets[last], a));
        }
        if exists|k: int| 0 <= k < nets.len() && in_small_subnet(#[trigger] nets[k], a) {
            let k = choose|k: int| 0 <= k < nets.len() && in_small_subnet(#[trigger] nets[k], a);
            if k < last {
                assert(in_small_subnet(t[k], a));
            }
        }
    }
}

proof fn lemma_small_subnet(ip: u32, mask: u32, a: u32)
    ensures
        in_small_subnet((ip, mask), a) <==> real_address(ip) && subnet_size(mask) is Some
            && is_neighbour(a, ip, subnet_size(mask)->0),
{
    lemma2_to64();
    if let Some(n) = subnet_size(mask) {
        let k: nat = if n == 4 {
            2
        } else if n == 8 {
            3
        } else if n == 16 {
            4
        } else if n == 32 {
            5
        } else if n == 64 {
            6
        } else if n == 128 {
            7
        } else if n == 256 {
            8
        } else if n == 512 {
            9
        } else {
            10
        };
        assert(pow2(k) == n);
        masks_tell_the_size(mask, k);
        if real_address(ip) && is_neighbour(a, ip, n) {
            let net = (ip, mask);
            assert(2 <= k <= 10 && net.1 + pow2(k) == 0x1_0000_0000);
            assert(is_neighbour(a, net.0, pow2(k)));
            assert(in_small_subnet(net, a));
        }
    }
    if in_small_subnet((ip, mask), a) {
        let k = choose|k: nat|
            2 <= k <= 10 && mask + pow2(k) == 0x1_0000_0000 && #[trigger] is_neighbour(
                a,
                ip,
                pow2(k),
            );
        masks_tell_the_size(mask, k);
        assert(subnet_size(mask) == Some(pow2(k)));
    }
}

proof fn lemma_sizes(mask: u32)
    requires
        subnet_size(mask) is Some,
    ensures
        4 <= subnet_size(mask)->0 <= 1024,
        0x1_0000_0000int % (subnet_size(mask)->0 as int) == 0,
{
    assert(0x1_0000_0000int % 4 == 0 && 0x1_0000_0000int % 8 == 0);
    assert(0x1_0000_0000int % 16 == 0 && 0x1_0000_0000int % 32 == 0);
    assert(0x1_0000_0000int % 64 == 0 && 0x1_0000_0000int % 128 == 0);
    assert(0x1_0000_0000int % 256 == 0 && 0x1_0000_0000int % 512 == 0);
    assert(0x1_0000_0000int % 1024 == 0);
}

proof fn lemma_contains_sum(x: Seq<u32>, y: Seq<u32>, a: u32)
    ensures
        (x + y).contains(a) <==> x.contains(a) || y.contains(a),
{
    let s = x + y;
    if x.contains(a) {
        let i = choose|i: int| 0 <= i < x.len() && x[i] == a;
        assert(s[i] == a);
    }
    if y.contains(a) {
        let i = choose|i: int| 0 <= i < y.len() && y[i] == a;
        assert(s[x.len() + i] == a);
    }
    if s.contains(a) {
        let i = choose|i: int| 0 <= i < s.len() && s[i] == a;
        if i < x.len() {
            assert(x[i] == a);
        } else {
            assert(y[i - x.len()] == a);
        }
    }
}

/// Where a network gives this machine a private or overlay address and nobody beside it,
/// the other addresses of the block of 256 around it are tried, and no others.
pub proof fn overlays_are_searched_around(nets: Seq<(u32, u32)>, a: u32)
    ensures
        overlay_addresses(nets).contains(a) <==> exists|k: int|
            0 <= k < nets.len() && near_overlay(#[trigger] nets[k], a),
    decreases nets.len(),
{
    if nets.len() > 0 {
        let t = nets.drop_last();
        let last = nets.len() - 1;
        overlays_are_searched_around(t, a);
        let before = overlay_addresses(t);
        let (ip, mask) = nets[last];
        assert(0x1_0000_0000int % 256 == 0);
        neighbours_share_the_block(ip, 256, a);
        lemma_contains_sum(before, neighbours(ip, 256), a);
        if before.contains(a) {
            let k = choose|k: int| 0 <= k < t.len() && near_overlay(#[trigger] t[k], a);
            assert(near_overlay(nets[k], a));
        }
        if near_overlay((ip, mask), a) {
            assert(near_overlay(nets[last], a));
        }
        if exists|k: int| 0 <= k < nets.len() && near_overlay(#[trigger] nets[k], a) {
            let k = choose|k: int| 0 <= k < nets.len() && near_overlay(#[trigger] nets[k], a);
            if k < last {
                assert(near_overlay(t[k], a));
            }
        }
    }
}

/// A mask of `k` ones in a row at its lower end has `k` ones; one more bit below adds
/// itself.
pub proof fn ones_are_counted(k: nat, n: nat)
    ensures
        ones((pow2(k) - 1) as nat) == k,
        ones(2 * n) == ones(n),
        ones(2 * n + 1) == ones(n) + 1,
    decreases k,
{
    lemma_pow2_pos(k);
    if k == 0 {
        lemma2_to64();
    } else {
        ones_are_counted((k - 1) as nat, n);
        lemma_pow2_unfold(k);
        lemma_pow2_pos((k - 1) as nat);
        let m = (pow2((k - 1) as nat) - 1) as nat;
        assert(pow2(k) - 1 == 2 * m + 1);
    }
    assert(n > 0 ==> (2 * n) / 2 == n && (2 * n) % 2 == 0);
    assert((2 * n + 1) / 2 == n && (2 * n + 1) % 2 == 1);
}

/// The addresses are all tried at the same port, in their order, and as many of them as
/// fit the limit.
pub proof fn as_many_as_allowed_are_tried(ips: Seq<u32>, max: nat, port: u16, i: int)
    requires
        0 <= i < ips.len(),
        i < max,
    ensures
        at_port(up_to(ips, max), port).len() == if ips.len() <= max {
            ips.len()
        } else {
            max
        },
        at_port(up_to(ips, max), port)[i].ip == Ip::V4(ips[i]),
        at_port(up_to(ips, max), port)[i].port == port,
{
}

/// Every address of the list is tried, none twice, and none that is not in the list; what
/// follows never changes the order of what was there.
pub proof fn each_is_tried_once(s: Seq<Endpoint>, more: Seq<Endpoint>, x: Endpoint)
    ensures
        first_occurrences(s).contains(x) <==> s.contains(x),
        first_occurrences(s).no_duplicates(),
        first_occurrences(s).len() <= first_occurrences(s + more).len(),
        first_occurrences(s + more).take(first_occurrences(s).len() as int) == first_occurrences(s),
    decreases s.len() + more.len(),
{
    let f = first_occurrences(s);
    if more.len() > 0 {
        let m = more.drop_last();
        each_is_tried_once(s, m, x);
        assert((s + more).drop_last() =~= s + m);
        assert(first_occurrences(s + more).take(f.len() as int) =~= first_occurrences(s + m).take(
            f.len() as int,
        ));
    } else {
        assert(s + more =~= s);
        assert(f.take(f.len() as int) =~= f);
        if s.len() > 0 {
            let t = s.drop_last();
            let before = first_occurrences(t);
            each_is_tried_once(t, more, x);
            each_is_tried_once(t, more, s.last());
            if before.contains(x) {
                let i = choose|i: int| 0 <= i < before.len() && before[i] == x;
                assert(f[i] == x);
            }
            if t.contains(x) {
                let i = choose|i: int| 0 <= i < t.len() && t[i] == x;
                assert(s[i] == x);
            }
            if x == s.last() {
                assert(s[s.len() - 1] == x);
                if !before.contains(x) {
                    assert(f[before.len() as int] == x);
                }
            }
            if f.contains(x) && x != s.last() {
                let i = choose|i: int| 0 <= i < f.len() && f[i] == x;
                assert(before[i] == x);
            }
            if s.contains(x) && x != s.last() {
                let i = choose|i: int| 0 <= i < s.len() && s[i] == x;
                assert(t[i] == x);
            }
        }
    }
}

} // verus!
