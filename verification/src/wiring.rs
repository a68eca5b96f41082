//! Start-up: addresses given by hand, and telling our own clipboard writes apart.

use vstd::prelude::*;

use crate::addrbook::{class_of, has_addr, learned_addresses_are_listed, listed_once, with_addrs, AddrBook, AddrSource, Candidate, LocalNetworks};
use crate::known_peers::{has_device, KnownPeers};
use crate::text::{chars_of, is_white, only_blank_texts_vanish, str_eq, string_of, trim, trimmed};
use crate::types::{DeviceId, Endpoint, PairingRecord};

verus! {

/// The pieces of `s` between commas.
pub open spec fn comma_pieces(s: Seq<char>) -> Seq<Seq<char>>
    decreases s.len(),
{
    if s.len() == 0 {
        seq![Seq::empty()]
    } else {
        let before = comma_pieces(s.drop_last());
        if s.last() == ',' {
            before.push(Seq::empty())
        } else {
            before.update(before.len() - 1, before.last().push(s.last()))
        }
    }
}

/// The addresses written in a comma-separated list, each without surrounding white
/// space; none where the whole list is blank. What is not an address is left to the
/// caller to skip.
pub open spec fn address_texts(raw: Seq<char>) -> Seq<Seq<char>> {
    if trimmed(raw).len() == 0 {
        Seq::empty()
    } else {
        comma_pieces(raw).map_values(|p: Seq<char>| trimmed(p))
    }
}

/// The characters of each string.
pub open spec fn texts(v: Seq<String>) -> Seq<Seq<char>> {
    v.map_values(|s: String| s@)
}

/// The addresses written in a comma-separated list.
pub fn manual_addrs(raw: &str) -> (r: Vec<String>)
    ensures
        texts(r@) == address_texts(raw@),
{
    let cs = chars_of(raw);
    let t = trim(&cs);
    let mut r: Vec<String> = Vec::new();
    if t.len() == 0 {
        assert(texts(r@) =~= address_texts(raw@));
        return r;
    }
    let ghost clean = |p: Seq<char>| trimmed(p);
    let mut piece: Vec<char> = Vec::new();
    let mut i: usize = 0;
    proof {
        assert(cs@.take(0) =~= Seq::<char>::empty());
        assert(comma_pieces(cs@.take(0)).drop_last() =~= Seq::<Seq<char>>::empty());
        assert(texts(r@) =~= Seq::<Seq<char>>::empty());
        assert(comma_pieces(cs@.take(0)).drop_last().map_values(clean) =~= Seq::<Seq<char>>::empty());
    }
    while i < cs.len()
        invariant
            i <= cs.len(),
            clean == (|p: Seq<char>| trimmed(p)),
            comma_pieces(cs@.take(i as int)).len() > 0,
            piece@ == comma_pieces(cs@.take(i as int)).last(),
            texts(r@) == comma_pieces(cs@.take(i as int)).drop_last().map_values(clean),
        decreases cs.len() - i,
    {
        let ghost before = comma_pieces(cs@.take(i as int));
        proof {
            assert(cs@.take(i + 1).drop_last() =~= cs@.take(i as int));
            assert(cs@.take(i + 1).last() == cs@[i as int]);
        }
        if cs[i] == ',' {
            let p = trim(&piece);
            let ghost old_r = r@;
            r.push(string_of(&p));
            piece = Vec::new();
            proof {
                let after = comma_pieces(cs@.take(i + 1));
                assert(after == before.push(Seq::empty()));
                assert(after.drop_last() =~= before);
                assert(before =~= before.drop_last().push(before.last()));
                assert(texts(r@) =~= texts(old_r).push(trimmed(before.last())));
                assert(after.drop_last().map_values(clean) =~= before.drop_last().map_values(
                    clean,
                ).push(trimmed(before.last())));
                assert(after.last() =~= Seq::<char>::empty());
            }
        } else {
            piece.push(cs[i]);
            proof {
                let after = comma_pieces(cs@.take(i + 1));
                assert(after.drop_last() =~= before.drop_last());
            }
        }
        i += 1;
    }
    let p = trim(&piece);
    let ghost old_r = r@;
    r.push(string_of(&p));
    proof {
        let all = comma_pieces(cs@);
        assert(cs@.take(cs@.len() as int) =~= cs@);
        assert(texts(r@) =~= texts(old_r).push(trimmed(all.last())));
        assert(all.map_values(clean) =~= all.drop_last().map_values(clean).push(trimmed(all.last())));
    }
    r
}

/// A path, by its components.
pub struct PathParts {
    pub parts: Vec<String>,
}

/// Whether the path `p` lies in the directory `dir` or below it.
pub open spec fn lies_in(p: Seq<String>, dir: Seq<String>) -> bool {
    dir.len() <= p.len() && forall|i: int| 0 <= i < dir.len() ==> p[i]@ == #[trigger] dir[i]@
}

/// Whether the path `p` lies in the directory `dir` or below it.
pub fn starts_with(p: &Vec<String>, dir: &Vec<String>) -> (r: bool)
    ensures
        r == lies_in(p@, dir@),
{
    if dir.len() > p.len() {
        return false;
    }
    let mut i: usize = 0;
    while i < dir.len()
        invariant
            i <= dir.len() <= p.len(),
            forall|k: int| 0 <= k < i ==> p@[k]@ == #[trigger] dir@[k]@,
        decreases dir.len() - i,
    {
        if !str_eq(p[i].as_str(), dir[i].as_str()) {
            assert(p@[i as int]@ != dir@[i as int]@);
            return false;
        }
        i += 1;
    }
    true
}

/// Whether a clipboard change is our own: files, every one of them in the directory
/// of received files. Such a change is not sent back.
pub fn is_our_received_files(paths: &Vec<PathParts>, received_dir: &Vec<String>) -> (r: bool)
    ensures
        r == (paths@.len() > 0 && forall|i: int|
            0 <= i < paths@.len() ==> lies_in((#[trigger] paths@[i]).parts@, received_dir@)),
{
    let mut i: usize = 0;
    while i < paths.len()
        invariant
            i <= paths.len(),
            forall|k: int| 0 <= k < i ==> lies_in((#[trigger] paths@[k]).parts@, received_dir@),
        decreases paths.len() - i,
    {
        if !starts_with(&paths[i].parts, received_dir) {
            return false;
        }
        i += 1;
    }
    paths.len() > 0
}

/// What the book knows of a device after the addresses given by hand were put in for
/// every stored pairing.
pub open spec fn hand_seeded(
    list: Seq<Candidate>,
    records: Seq<PairingRecord>,
    device: Seq<char>,
    addrs: Seq<Endpoint>,
    local: LocalNetworks,
) -> Seq<Candidate>
    decreases records.len(),
{
    if records.len() == 0 {
        list
    } else {
        let before = hand_seeded(list, records.drop_last(), device, addrs, local);
        if records.last().device@ == device {
            with_addrs(before, addrs, AddrSource::Manual, local)
        } else {
            before
        }
    }
}

/// Puts the addresses given by hand into the book, for every paired device: which of
/// them an address belongs to comes out when it connects.
pub fn seed_manual_addrs(
    book: &mut AddrBook,
    records: &Vec<PairingRecord>,
    addrs: &Vec<Endpoint>,
)
    requires
        old(book).wf(),
    ensures
        final(book).wf(),
        final(book).spec_local() == old(book).spec_local(),
        forall|d: Seq<char>| #[trigger]
            final(book).known(d) == hand_seeded(
                old(book).known(d),
                records@,
                d,
                addrs@,
                old(book).spec_local(),
            ),
{
    let mut i: usize = 0;
    assert(records@.take(0) =~= Seq::<PairingRecord>::empty());
    while i < records.len()
        invariant
            i <= records.len(),
            book.wf(),
            book.spec_local() == old(book).spec_local(),
            forall|d: Seq<char>| #[trigger]
                book.known(d) == hand_seeded(
                    old(book).known(d),
                    records@.take(i as int),
                    d,
                    addrs@,
                    old(book).spec_local(),
                ),
        decreases records.len() - i,
    {
        proof {
            assert(records@.take(i + 1).drop_last() =~= records@.take(i as int));
            assert(records@.take(i + 1).last() == records@[i as int]);
        }
        book.add_addrs(&records[i].device, addrs, AddrSource::Manual);
        i += 1;
    }
    assert(records@.take(records@.len() as int) =~= records@);
}

/// A device announced itself on the local network: from `lan`, with further addresses.
/// Only a paired device is listened to; the address that it was heard from comes first.
pub fn beacon_heard(
    book: &mut AddrBook,
    known: &KnownPeers,
    device: &DeviceId,
    lan: Endpoint,
    extra: &Vec<Endpoint>,
)
    requires
        old(book).wf(),
    ensures
        final(book).wf(),
        final(book).spec_local() == old(book).spec_local(),
        forall|d: Seq<char>|
            d != device@ ==> #[trigger] final(book).known(d) == old(book).known(d),
        final(book).known(device@) == if has_device(known@, device@) {
            with_addrs(
                with_addrs(
                    old(book).known(device@),
                    seq![lan],
                    AddrSource::Beacon,
                    old(book).spec_local(),
                ),
                extra@,
                AddrSource::Beacon,
                old(book).spec_local(),
            )
        } else {
            old(book).known(device@)
        },
{
    if !known.contains(device) {
        return;
    }
    let mut first: Vec<Endpoint> = Vec::new();
    first.push(lan);
    assert(first@ =~= seq![lan]);
    book.add_addrs(device, &first, AddrSource::Beacon);
    book.add_addrs(device, extra, AddrSource::Beacon);
}

proof fn lemma_some_piece(s: Seq<char>)
    ensures
        comma_pieces(s).len() > 0,
    decreases s.len(),
{
    if s.len() > 0 {
        lemma_some_piece(s.drop_last());
    }
}

/// A comma, and nothing else, parts two addresses of a list.
pub proof fn commas_part_a_list(a: Seq<char>, b: Seq<char>)
    ensures
        comma_pieces(a + seq![','] + b) == comma_pieces(a) + comma_pieces(b),
        !a.contains(',') ==> comma_pieces(a) == seq![a],
    decreases a.len() + b.len(),
{
    let s = a + seq![','] + b;
    lemma_some_piece(b);
    if b.len() == 0 {
        assert(s.drop_last() =~= a);
        assert(s.last() == ',');
        assert(comma_pieces(s) =~= comma_pieces(a) + comma_pieces(b));
    } else {
        let c = b.drop_last();
        commas_part_a_list(a, c);
        lemma_some_piece(c);
        assert(s.drop_last() =~= a + seq![','] + c);
        assert(s.last() == b.last());
        assert(comma_pieces(s) =~= comma_pieces(a) + comma_pieces(b));
    }
    if !a.contains(',') && a.len() > 0 {
        let t = a.drop_last();
        assert(a[a.len() - 1] == a.last());
        assert(!t.contains(',')) by {
            if t.contains(',') {
                let i = choose|i: int| 0 <= i < t.len() && t[i] == ',';
                assert(a[i] == ',');
            }
        }
        commas_part_a_list(t, Seq::empty());
        assert(t.push(a.last()) =~= a);
        assert(comma_pieces(a) =~= seq![a]);
    } else if a.len() == 0 {
        assert(a =~= Seq::<char>::empty());
    }
}

/// A single address is read without the white space around it; those of two lists that are
/// not blank, with a comma between them, are those of the first and then those of the
/// second; and a blank list has none.
pub proof fn lists_of_addresses_add_up(a: Seq<char>, b: Seq<char>)
    requires
        trimmed(a).len() > 0,
        trimmed(b).len() > 0,
    ensures
        address_texts(a + seq![','] + b) == address_texts(a) + address_texts(b),
        !a.contains(',') ==> address_texts(a) == seq![trimmed(a)],
{
    let s = a + seq![','] + b;
    only_blank_texts_vanish(a);
    only_blank_texts_vanish(s);
    let i = choose|i: int| 0 <= i < a.len() && !is_white(#[trigger] a[i]);
    assert(s[i] == a[i]);
    commas_part_a_list(a, b);
    assert(address_texts(s) =~= address_texts(a) + address_texts(b));
    if !a.contains(',') {
        assert(address_texts(a) =~= seq![trimmed(a)]);
    }
}

/// A list with nothing in it but white space has no addresses.
pub proof fn a_blank_list_has_no_addresses(s: Seq<char>)
    requires
        forall|i: int| 0 <= i < s.len() ==> is_white(#[trigger] s[i]),
    ensures
        address_texts(s).len() == 0,
{
    only_blank_texts_vanish(s);
}

/// An address given by hand is where every paired device is looked for; a device that is
/// not paired is not looked for anywhere new.
pub proof fn hand_given_addresses_are_for_the_paired(
    list: Seq<Candidate>,
    records: Seq<PairingRecord>,
    device: Seq<char>,
    addrs: Seq<Endpoint>,
    local: LocalNetworks,
    addr: Endpoint,
)
    requires
        listed_once(list),
    ensures
        ({
            let paired = exists|i: int|
                0 <= i < records.len() && (#[trigger] records[i]).device@ == device;
            let after = hand_seeded(list, records, device, addrs, local);
            &&& listed_once(after)
            &&& !paired ==> after == list
            &&& paired && addrs.contains(addr) && class_of(addr.ip, local) is Some ==> has_addr(
                after,
                addr,
            )
        }),
    decreases records.len(),
{
    if records.len() > 0 {
        let t = records.drop_last();
        let n = records.len() - 1;
        hand_given_addresses_are_for_the_paired(list, t, device, addrs, local, addr);
        let before = hand_seeded(list, t, device, addrs, local);
        learned_addresses_are_listed(before, addrs, AddrSource::Manual, local, addr);
        if exists|i: int| 0 <= i < t.len() && (#[trigger] t[i]).device@ == device {
            let i = choose|i: int| 0 <= i < t.len() && (#[trigger] t[i]).device@ == device;
            assert(records[i] == t[i]);
        }
        if exists|i: int| 0 <= i < records.len() && (#[trigger] records[i]).device@ == device {
            let i = choose|i: int|
                0 <= i < records.len() && (#[trigger] records[i]).device@ == device;
            if i < n {
                assert(t[i].device@ == device);
            }
        } else {
            assert(records[n].device@ != device);
        }
    }
}

/// A path lies in a directory exactly where it begins with it, component by component: what
/// is added behind it changes nothing, and a directory of another name holds none of it.
pub proof fn paths_lie_where_they_begin(dir: Seq<String>, rest: Seq<String>, other: Seq<String>)
    ensures
        lies_in(dir + rest, dir),
        lies_in(other, dir) ==> lies_in(other + rest, dir),
        lies_in(other, dir) <==> dir.len() <= other.len() && texts(other).take(dir.len() as int)
            == texts(dir),
{
    let n = dir.len() as int;
    if lies_in(other, dir) {
        assert(texts(other).take(n) =~= texts(dir));
        assert forall|i: int| 0 <= i < n implies (other + rest)[i]@ == #[trigger] dir[i]@ by {
            assert(other[i]@ == dir[i]@);
        }
    }
    if n <= other.len() && texts(other).take(n) == texts(dir) {
        assert forall|i: int| 0 <= i < n implies other[i]@ == #[trigger] dir[i]@ by {
            assert(texts(other).take(n)[i] == texts(dir)[i]);
        }
    }
}

} // verus!
