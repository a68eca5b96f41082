//! Pairing two devices with a short code.
//!
//! One device hosts: it shows a four-digit code and waits. The other joins: it finds the
//! host, and both prove to each other that they know the code. A code of four digits
//! holds up only because a host takes very few wrong ones; see `HostSession`.

use vstd::prelude::*;
use vstd::string::*;

use crate::ipv4::{benchmark, cgnat, dotted, dotted_of, is_benchmark, is_cgnat, is_private, private};
use crate::language::Lang;
use crate::text::{chars_of, copy_of, decimal, decimal_of, is_digit, is_white, string_of, trim, trim_end, trim_start, trimmed, whitespace};
use crate::types::Ip;
use crate::wallclock::{clock_text, hms_after};
use crate::wiring::texts;

verus! {

/// The TCP port of pairing.
pub const PAIRING_PORT: u16 = 47_685;

/// How long a code is good for, in seconds.
pub const HOST_SESSION_TIMEOUT: u64 = 180;

/// How many wrong codes end a session.
pub const MAX_FAILED_ATTEMPTS: u32 = 5;

/// How long to wait between two looks for a connection, in milliseconds.
pub const ACCEPT_POLL_INTERVAL: u64 = 200;

/// How long one exchange may take, in seconds.
pub const HANDSHAKE_TIMEOUT: u64 = 30;

/// Whether a character of a typed code counts; white space and hyphens do not.
pub open spec fn counts(c: char) -> bool {
    !is_white(c) && c != '-'
}

/// Four decimal digits.
pub open spec fn four_digits(s: Seq<char>) -> bool {
    s.len() == 4 && forall|i: int| 0 <= i < 4 ==> is_digit(#[trigger] s[i])
}

/// The code that a typed text stands for: four digits, however they are spaced.
pub open spec fn code_of(s: Seq<char>) -> Option<Seq<char>> {
    let d = s.filter(|c: char| counts(c));
    if four_digits(d) {
        Some(d)
    } else {
        None
    }
}

/// A pairing code.
#[derive(Debug)]
pub struct PairingCode {
    digits: String,
}

impl PairingCode {
    pub closed spec fn view(&self) -> Seq<char> {
        self.digits@
    }

    /// The four digits.
    pub fn as_str(&self) -> (r: &str)
        ensures
            r@ == self@,
    {
        self.digits.as_str()
    }

    /// Reads a code.
    pub fn parse(s: &str) -> (r: Option<PairingCode>)
        ensures
            match r {
                Some(c) => code_of(s@) == Some(c@),
                None => code_of(s@) is None,
            },
    {
        let cs = chars_of(s);
        parse_code(&cs)
    }
}

fn parse_code(cs: &[char]) -> (r: Option<PairingCode>)
    ensures
        match r {
            Some(c) => code_of(cs@) == Some(c@),
            None => code_of(cs@) is None,
        },
{
    let ghost keep = |c: char| counts(c);
    let mut d: Vec<char> = Vec::new();
    let mut i: usize = 0;
    assert(cs@.take(0).filter(keep) =~= Seq::<char>::empty()) by {
        reveal(Seq::filter);
    }
    while i < cs.len()
        invariant
            i <= cs.len(),
            keep == (|c: char| counts(c)),
            d@ == cs@.take(i as int).filter(keep),
        decreases cs.len() - i,
    {
        let c = cs[i];
        proof {
            reveal(Seq::filter);
            assert(cs@.take(i + 1).drop_last() =~= cs@.take(i as int));
            assert(cs@.take(i + 1).last() == c);
        }
        if !whitespace(c) && c != '-' {
            d.push(c);
        }
        i += 1;
    }
    assert(cs@.take(cs@.len() as int) =~= cs@);
    if d.len() != 4 {
        return None;
    }
    let mut k: usize = 0;
    while k < 4
        invariant
            k <= 4,
            d@.len() == 4,
            d@ == cs@.filter(|c: char| counts(c)),
            forall|j: int| 0 <= j < k ==> is_digit(#[trigger] d@[j]),
        decreases 4 - k,
    {
        if !(d[k] >= '0' && d[k] <= '9') {
            assert(!is_digit(d@[k as int]));
            return None;
        }
        k += 1;
    }
    Some(PairingCode { digits: string_of(&d) })
}

/// Where the last `@` stands; -1 where there is none.
pub open spec fn last_at(s: Seq<char>) -> int
    decreases s.len(),
{
    if s.len() == 0 {
        -1
    } else if s.last() == '@' {
        s.len() - 1
    } else {
        last_at(s.drop_last())
    }
}

proof fn lemma_last_at(s: Seq<char>, at: int)
    requires
        -1 <= at < s.len(),
        at >= 0 ==> s[at] == '@',
        forall|k: int| at < k < s.len() ==> #[trigger] s[k] != '@',
    ensures
        last_at(s) == at,
    decreases s.len(),
{
    if s.len() > 0 && at < s.len() - 1 {
        assert(s[s.len() - 1] != '@');
        lemma_last_at(s.drop_last(), at);
    }
}

/// What a typed text asks for: a code, or a code and the host's address behind an `@`.
pub open spec fn pairing_input(input: Seq<char>) -> Option<(Seq<char>, Option<Seq<char>>)> {
    let s = trimmed(input);
    let at = last_at(s);
    if at < 0 {
        match code_of(s) {
            Some(c) => Some((c, None)),
            None => None,
        }
    } else {
        let host = trimmed(s.skip(at + 1));
        match code_of(s.take(at)) {
            Some(c) => if host.len() > 0 {
                Some((c, Some(host)))
            } else {
                None
            },
            None => None,
        }
    }
}

/// Reads a code, or a code and the host's address behind an `@`. Without an address the
/// host is searched for.
pub fn parse_pairing_input(input: &str) -> (r: Option<(PairingCode, Option<String>)>)
    ensures
        match r {
            None => pairing_input(input@) is None,
            Some((c, None)) => pairing_input(input@) == Some((c@, None::<Seq<char>>)),
            Some((c, Some(h))) => pairing_input(input@) == Some((c@, Some(h@))),
        },
{
    let cs = chars_of(input);
    let s = trim(&cs);
    let mut n: usize = s.len();
    while n > 0 && s[n - 1] != '@'
        invariant
            n <= s.len(),
            forall|k: int| n <= k < s@.len() ==> #[trigger] s@[k] != '@',
        decreases n,
    {
        n -= 1;
    }
    proof {
        lemma_last_at(s@, n - 1);
    }
    if n == 0 {
        return match parse_code(&s) {
            Some(c) => Some((c, None)),
            None => None,
        };
    }
    let (head, tail) = split(&s, n);
    let host = trim(&tail);
    if host.len() == 0 {
        return None;
    }
    match parse_code(&head) {
        Some(c) => Some((c, Some(string_of(&host)))),
        None => None,
    }
}

/// What stands before the character in front of `n`, and what stands from `n` on.
fn split(s: &Vec<char>, n: usize) -> (r: (Vec<char>, Vec<char>))
    requires
        0 < n <= s@.len(),
    ensures
        r.0@ == s@.take(n - 1),
        r.1@ == s@.skip(n as int),
{
    let mut head: Vec<char> = Vec::new();
    let mut i: usize = 0;
    while i < n - 1
        invariant
            0 < n <= s@.len(),
            i <= n - 1,
            head@ == s@.take(i as int),
        decreases n - i,
    {
        head.push(s[i]);
        i += 1;
    }
    let mut tail: Vec<char> = Vec::new();
    let mut j: usize = n;
    while j < s.len()
        invariant
            n <= j <= s@.len(),
            tail@ == s@.subrange(n as int, j as int),
        decreases s.len() - j,
    {
        tail.push(s[j]);
        j += 1;
    }
    assert(s@.subrange(n as int, s@.len() as int) =~= s@.skip(n as int));
    (head, tail)
}

/// A code and an address, written down with an `@` between them, read back as that code
/// and that address, as long as the address is not empty, has no white space around it,
/// and no `@` in it.
pub proof fn code_with_address_reads_back(code: Seq<char>, host: Seq<char>)
    requires
        four_digits(code),
        host.len() > 0,
        trimmed(host) == host,
        forall|i: int| 0 <= i < host.len() ==> #[trigger] host[i] != '@',
    ensures
        pairing_input(code + "@"@ + host) == Some((code, Some(host))),
{
    reveal_strlit("@");
    let s = code + "@"@ + host;
    assert(is_digit(code[0]));
    assert(!is_white(s[0]));
    assert(trim_start(s) == s);
    lemma_trimmed_end(host);
    assert(s.last() == host.last());
    assert(trim_end(s) == s);
    lemma_last_at(s, 4);
    assert(s.take(4) =~= code);
    assert(s.skip(5) =~= host);
    lemma_plain_code(code);
}

/// A code alone reads back as itself.
pub proof fn bare_code_reads_back(code: Seq<char>)
    requires
        four_digits(code),
    ensures
        pairing_input(code) == Some((code, None::<Seq<char>>)),
{
    assert(is_digit(code[0]) && is_digit(code[3]));
    assert(trim_start(code) == code);
    assert(trim_end(code) == code);
    assert forall|k: int| -1 < k < code.len() implies #[trigger] code[k] != '@' by {
        assert(is_digit(code[k]));
    }
    lemma_last_at(code, -1);
    lemma_plain_code(code);
}

proof fn lemma_plain_code(code: Seq<char>)
    requires
        four_digits(code),
    ensures
        code_of(code) == Some(code),
{
    let keep = |c: char| counts(c);
    lemma_all_kept(code, keep);
}

proof fn lemma_all_kept(s: Seq<char>, keep: spec_fn(char) -> bool)
    requires
        keep == (|c: char| counts(c)),
        forall|i: int| 0 <= i < s.len() ==> is_digit(#[trigger] s[i]),
    ensures
        s.filter(keep) == s,
    decreases s.len(),
{
    reveal(Seq::filter);
    if s.len() > 0 {
        assert(is_digit(s[s.len() - 1]));
        let t = s.drop_last();
        assert forall|i: int| 0 <= i < t.len() implies is_digit(#[trigger] t[i]) by {
            assert(is_digit(s[i]));
        }
        lemma_all_kept(t, keep);
        assert(s =~= t.push(s.last()));
    }
}

proof fn lemma_trim_end_len(s: Seq<char>)
    ensures
        trim_end(s).len() <= s.len(),
        s.len() > 0 && is_white(s.last()) ==> trim_end(s).len() < s.len(),
    decreases s.len(),
{
    if s.len() > 0 && is_white(s.last()) {
        lemma_trim_end_len(s.drop_last());
    }
}

proof fn lemma_trim_start_len(s: Seq<char>)
    ensures
        trim_start(s).len() <= s.len(),
        s.len() > 0 && is_white(s[0]) ==> trim_start(s).len() < s.len(),
    decreases s.len(),
{
    if s.len() > 0 && is_white(s[0]) {
        lemma_trim_start_len(s.drop_first());
    }
}

proof fn lemma_trimmed_end(s: Seq<char>)
    requires
        s.len() > 0,
        trimmed(s) == s,
    ensures
        !is_white(s.last()),
{
    lemma_trim_start_len(s);
    lemma_trim_end_len(trim_start(s));
    if is_white(s.last()) {
        if trim_start(s).len() == s.len() {
            assert(trim_start(s) == s);
            lemma_trim_end_len(s);
        }
    }
}

/// How an own address is listed: near networks first, then overlay networks, then the
/// internet. An address of the benchmark range is not listed, for it leads nowhere.
pub open spec fn listed_as(ip: Ip) -> Option<nat> {
    match ip {
        Ip::V4(v) => if benchmark(v) {
            None
        } else if cgnat(v) {
            Some(1)
        } else if private(v) {
            Some(0)
        } else {
            Some(2)
        },
        Ip::V6(_) => None,
    }
}

/// The word for a kind of network.
pub open spec fn network_word(rank: nat) -> Seq<char> {
    if rank == 0 {
        "局域网"@
    } else if rank == 1 {
        "覆盖网"@
    } else {
        "公网"@
    }
}

/// The line of an own address.
pub open spec fn address_line(ip: u32, rank: nat) -> Seq<char> {
    dotted(ip) + "（"@ + network_word(rank) + "）"@
}

/// The lines of one kind of network, in the order in which the addresses were found.
pub open spec fn lines_of(addrs: Seq<Ip>, rank: nat) -> Seq<Seq<char>>
    decreases addrs.len(),
{
    if addrs.len() == 0 {
        Seq::empty()
    } else {
        let before = lines_of(addrs.drop_last(), rank);
        match addrs.last() {
            Ip::V4(v) => if listed_as(addrs.last()) == Some(rank) {
                before.push(address_line(v, rank))
            } else {
                before
            },
            Ip::V6(_) => before,
        }
    }
}

/// The lines of all own addresses that a person may have to read out.
pub open spec fn all_lines(addrs: Seq<Ip>) -> Seq<Seq<char>> {
    lines_of(addrs, 0) + lines_of(addrs, 1) + lines_of(addrs, 2)
}

fn rank_of(v: u32) -> (r: Option<u8>)
    ensures
        match r {
            Some(k) => listed_as(Ip::V4(v)) == Some(k as nat) && k <= 2,
            None => listed_as(Ip::V4(v)) is None,
        },
{
    if is_benchmark(v) {
        None
    } else if is_cgnat(v) {
        Some(1)
    } else if is_private(v) {
        Some(0)
    } else {
        Some(2)
    }
}

fn line_of(v: u32, rank: u8) -> (r: String)
    requires
        rank <= 2,
    ensures
        r@ == address_line(v, rank as nat),
{
    let mut s = dotted_of(v);
    s.append("（");
    if rank == 0 {
        s.append("局域网");
    } else if rank == 1 {
        s.append("覆盖网");
    } else {
        s.append("公网");
    }
    s.append("）");
    s
}

fn push_lines(out: &mut Vec<String>, addrs: &Vec<Ip>, rank: u8)
    requires
        rank <= 2,
    ensures
        texts(final(out)@) == texts(old(out)@) + lines_of(addrs@, rank as nat),
{
    let ghost before = texts(out@);
    let mut i: usize = 0;
    assert(addrs@.take(0) =~= Seq::<Ip>::empty());
    assert(texts(out@) =~= before + lines_of(addrs@.take(0), rank as nat));
    while i < addrs.len()
        invariant
            i <= addrs.len(),
            rank <= 2,
            texts(out@) == before + lines_of(addrs@.take(i as int), rank as nat),
        decreases addrs.len() - i,
    {
        let ghost was = out@;
        proof {
            assert(addrs@.take(i + 1).drop_last() =~= addrs@.take(i as int));
            assert(addrs@.take(i + 1).last() == addrs@[i as int]);
        }
        match addrs[i] {
            Ip::V4(v) => match rank_of(v) {
                Some(k) => if k == rank {
                    let line = line_of(v, rank);
                    out.push(line);
                    assert(texts(out@) =~= texts(was).push(line@));
                    assert(texts(out@) =~= before + lines_of(addrs@.take(i + 1), rank as nat));
                },
                None => {},
            },
            Ip::V6(_) => {},
        }
        i += 1;
    }
    assert(addrs@.take(addrs@.len() as int) =~= addrs@);
}

/// The lines of all own addresses that a person may have to read out: IPv4 only, each
/// with the kind of network it belongs to, in the order in which they are likely to work.
/// Which of them works depends on where the other device is, so all are listed.
pub fn local_ipv4_lines(addrs: &Vec<Ip>) -> (r: Vec<String>)
    ensures
        texts(r@) == all_lines(addrs@),
{
    let mut out: Vec<String> = Vec::new();
    assert(texts(out@) =~= Seq::<Seq<char>>::empty());
    push_lines(&mut out, addrs, 0);
    assert(texts(out@) =~= lines_of(addrs@, 0));
    push_lines(&mut out, addrs, 1);
    push_lines(&mut out, addrs, 2);
    out
}

/// Lines below each other, each set in by four blanks.
pub open spec fn indented(lines: Seq<Seq<char>>) -> Seq<char>
    decreases lines.len(),
{
    if lines.len() == 0 {
        Seq::empty()
    } else if lines.len() == 1 {
        "    "@ + lines[0]
    } else {
        indented(lines.drop_last()) + "\n"@ + ("    "@ + lines.last())
    }
}

/// The own addresses as a block of lines; `None` where there are none.
pub fn addr_block(addrs: &Vec<Ip>) -> (r: Option<String>)
    ensures
        match r {
            None => all_lines(addrs@).len() == 0,
            Some(s) => all_lines(addrs@).len() > 0 && s@ == indented(all_lines(addrs@)),
        },
{
    let lines = local_ipv4_lines(addrs);
    if lines.len() == 0 {
        return None;
    }
    let ghost all = texts(lines@);
    let mut s = copy_of("    ");
    s.append(lines[0].as_str());
    let mut i: usize = 1;
    assert(all.take(1).len() == 1 && all.take(1)[0] == lines@[0]@);
    while i < lines.len()
        invariant
            1 <= i <= lines.len(),
            all == texts(lines@),
            s@ == indented(all.take(i as int)),
        decreases lines.len() - i,
    {
        proof {
            assert(all.take(i + 1).drop_last() =~= all.take(i as int));
            assert(all.take(i + 1).last() == lines@[i as int]@);
        }
        let mut line = copy_of("    ");
        line.append(lines[i].as_str());
        s.append("\n");
        s.append(line.as_str());
        i += 1;
    }
    assert(all.take(all.len() as int) =~= all);
    Some(s)
}

/// A host as it is typed on the command line: an IPv6 address needs brackets, so that
/// its colons are not taken for the port's.
pub enum HostText {
    V4(u32),
    /// An IPv6 address in its usual notation.
    V6(String),
}

/// A host as it is typed on the command line.
pub open spec fn host_text(h: HostText) -> Seq<char> {
    match h {
        HostText::V4(v) => dotted(v),
        HostText::V6(t) => "["@ + t@ + "]"@,
    }
}

/// A host as it is typed on the command line.
pub fn fmt_host(h: &HostText) -> (r: String)
    ensures
        r@ == host_text(*h),
{
    match h {
        HostText::V4(v) => dotted_of(*v),
        HostText::V6(t) => {
            let mut s = copy_of("[");
            s.append(t.as_str());
            s.append("]");
            s
        },
    }
}

/// How long a code is good for, in words: until a time of day, for a window's text cannot
/// change any more; where the clock is unknown, for how many minutes.
pub open spec fn validity(clock: Option<i64>, expires_in: u64, lang: Lang) -> Seq<char> {
    match clock {
        Some(now) => match lang {
            Lang::Zh => "有效至 "@ + clock_text(now + expires_in),
            Lang::English => "valid until "@ + clock_text(now + expires_in),
        },
        None => match lang {
            Lang::Zh => decimal(3) + " 分钟内有效"@,
            Lang::English => "valid for "@ + decimal(3) + " minutes"@,
        },
    }
}

/// What the window with the code says.
pub open spec fn code_dialog_text(
    code: Seq<char>,
    addrs: Seq<Ip>,
    clock: Option<i64>,
    expires_in: u64,
    lang: Lang,
) -> Seq<char> {
    let head = match lang {
        Lang::Zh => "配对码  "@ + code
            + "\n\n在对方设备上选「输入配对码…」，输入这四位。\n"@ + validity(
            clock,
            expires_in,
            lang,
        ) + "，配对成功即失效。"@,
        Lang::English => "Pairing code  "@ + code
            + "\n\nOn the other machine choose \"Enter pairing code…\" and type these four digits.\nThis code is "@
            + validity(clock, expires_in, lang) + " and stops working once pairing succeeds."@,
    };
    let lines = all_lines(addrs);
    if lines.len() == 0 {
        head
    } else {
        match lang {
            Lang::Zh => head + "\n\n若对方提示需要地址，挑一个与它同网段的：\n"@ + indented(
                lines,
            ),
            Lang::English => head
                + "\n\nIf it asks for an address, pick the one on its subnet:\n"@ + indented(
                lines,
            ),
        }
    }
}

fn validity_of(clock: Option<i64>, expires_in: u64, lang: Lang) -> (r: String)
    requires
        clock matches Some(s) ==> s + expires_in <= i64::MAX,
        expires_in <= i64::MAX,
    ensures
        r@ == validity(clock, expires_in, lang),
{
    match hms_after(clock, expires_in) {
        Some(at) => {
            let mut s = match lang {
                Lang::Zh => copy_of("有效至 "),
                Lang::English => copy_of("valid until "),
            };
            s.append(at.as_str());
            s
        },
        None => match lang {
            Lang::Zh => {
                let mut s = decimal_of(HOST_SESSION_TIMEOUT / 60);
                s.append(" 分钟内有效");
                s
            },
            Lang::English => {
                let mut s = copy_of("valid for ");
                s.append(decimal_of(HOST_SESSION_TIMEOUT / 60).as_str());
                s.append(" minutes");
                s
            },
        },
    }
}

/// What the window with the code says: the code, where to type it, how long it is good
/// for, and the own addresses. `clock` is the time of day in seconds, if known;
/// `expires_in` is in seconds.
pub fn code_dialog_body(
    code: &str,
    addrs: &Vec<Ip>,
    clock: Option<i64>,
    expires_in: u64,
    lang: Lang,
) -> (r: String)
    requires
        clock matches Some(s) ==> s + expires_in <= i64::MAX,
        expires_in <= i64::MAX,
    ensures
        r@ == code_dialog_text(code@, addrs@, clock, expires_in, lang),
{
    let until = validity_of(clock, expires_in, lang);
    let mut s = match lang {
        Lang::Zh => copy_of("配对码  "),
        Lang::English => copy_of("Pairing code  "),
    };
    s.append(code);
    match lang {
        Lang::Zh => s.append("\n\n在对方设备上选「输入配对码…」，输入这四位。\n"),
        Lang::English => s.append(
            "\n\nOn the other machine choose \"Enter pairing code…\" and type these four digits.\nThis code is ",
        ),
    }
    s.append(until.as_str());
    match lang {
        Lang::Zh => s.append("，配对成功即失效。"),
        Lang::English => s.append(" and stops working once pairing succeeds."),
    }
    if let Some(block) = addr_block(addrs) {
        match lang {
            Lang::Zh => s.append("\n\n若对方提示需要地址，挑一个与它同网段的：\n"),
            Lang::English => s.append(
                "\n\nIf it asks for an address, pick the one on its subnet:\n",
            ),
        }
        s.append(block.as_str());
    }
    s
}

/// What a look for a connection found.
#[derive(Debug, Clone, Copy, PartialEq, Eq, Structural)]
pub enum Accepted {
    Connection,
    NoneYet,
    Failed,
}

/// What to do after a look for a connection.
#[derive(Debug, Clone, Copy, PartialEq, Eq, Structural)]
pub enum AcceptStep {
    /// Serve the connection.
    Serve,
    /// Look again after `ACCEPT_POLL_INTERVAL`.
    Wait,
    /// The session is over: it ran out of time or was cancelled.
    GiveUp,
    /// Looking itself failed.
    Fail,
}

/// What to do after a look for a connection. Once the session was cancelled or its time is
/// up it is over, whatever was found; before that, a connection that is there is served.
/// Times are in milliseconds.
pub fn accept_until(found: Accepted, now: u64, deadline: u64, cancelled: bool) -> (r: AcceptStep)
    ensures
        r == if cancelled || now >= deadline {
            AcceptStep::GiveUp
        } else {
            match found {
                Accepted::Connection => AcceptStep::Serve,
                Accepted::NoneYet => AcceptStep::Wait,
                Accepted::Failed => AcceptStep::Fail,
            }
        },
{
    if cancelled || now >= deadline {
        return AcceptStep::GiveUp;
    }
    match found {
        Accepted::Connection => AcceptStep::Serve,
        Accepted::NoneYet => AcceptStep::Wait,
        Accepted::Failed => AcceptStep::Fail,
    }
}

/// How the exchange on one connection ended.
#[derive(Debug, Clone, Copy, PartialEq, Eq, Structural)]
pub enum Handshake {
    /// Both sides know the code.
    Paired,
    /// The other side sent a proof, and it was wrong.
    WrongCode,
    /// The connection broke before a proof was sent. That is no guess: whoever looks for
    /// hosts connects and hangs up.
    Broken,
}

/// The user asked for another code. This is no failure, and is told from all failures by
/// its type.
#[derive(Debug, Clone, Copy, PartialEq, Eq, Structural)]
pub struct Cancelled;

/// Why hosting ended without a pairing.
#[derive(Debug, Clone, Copy, PartialEq, Eq, Structural)]
pub enum HostError {
    Cancelled(Cancelled),
    TimedOut,
    /// Too many wrong codes.
    TooManyGuesses(u32),
}

impl HostError {
    pub open spec fn text(self) -> Seq<char> {
        match self {
            HostError::Cancelled(_) => "已取消当前配对会话"@,
            HostError::TimedOut => "配对已超时（"@ + decimal(180)
                + " 秒内无人连入），请重新发起配对"@,
            HostError::TooManyGuesses(n) => "配对码连错 "@ + decimal(n as nat)
                + " 次，已结束本次配对以防猜测；请重新发起（会生成新的配对码）"@,
        }
    }

    /// What to tell the user.
    pub fn message(&self) -> (r: String)
        ensures
            r@ == self.text(),
    {
        match self {
            HostError::Cancelled(_) => copy_of("已取消当前配对会话"),
            HostError::TimedOut => {
                let mut s = copy_of("配对已超时（");
                s.append(decimal_of(HOST_SESSION_TIMEOUT).as_str());
                s.append(" 秒内无人连入），请重新发起配对");
                s
            },
            HostError::TooManyGuesses(n) => {
                let mut s = copy_of("配对码连错 ");
                s.append(decimal_of(*n as u64).as_str());
                s.append(
                    " 次，已结束本次配对以防猜测；请重新发起（会生成新的配对码）",
                );
                s
            },
        }
    }
}

/// What to do after the exchange on one connection.
#[derive(Debug, Clone, Copy, PartialEq, Eq, Structural)]
pub enum HostStep {
    /// Store the pairing; the session is over.
    Paired,
    /// Wait for the next connection; nothing happened.
    Ignore,
    /// Wait for the next connection; so many wrong codes are left.
    Retry(u32),
    /// The session is over.
    End(HostError),
}

/// A hosting session.
#[derive(Debug)]
pub struct HostSession {
    /// When the code expires, in milliseconds since the program started.
    pub deadline: u64,
    /// The wrong codes so far.
    pub failures: u32,
}

/// The wrong codes after one more exchange; `None` where the session is over.
pub open spec fn after_exchange(failures: nat, h: Handshake) -> Option<nat> {
    match h {
        Handshake::Paired => None,
        Handshake::Broken => Some(failures),
        Handshake::WrongCode => if failures + 1 >= 5 {
            None
        } else {
            Some(failures + 1)
        },
    }
}

impl HostSession {
    /// A session that goes on.
    pub open spec fn wf(&self) -> bool {
        self.failures < 5
    }

    /// A session that starts at `now`, in milliseconds.
    pub fn start(now: u64) -> (r: Self)
        requires
            now + 180_000 <= u64::MAX,
        ensures
            r.wf(),
            r.failures == 0,
            r.deadline == now + 180_000,
    {
        HostSession { deadline: now + HOST_SESSION_TIMEOUT * 1000, failures: 0 }
    }

    /// Why the wait for a connection ended.
    pub fn gave_up(&self, cancelled: bool) -> (r: HostError)
        ensures
            r == if cancelled {
                HostError::Cancelled(Cancelled)
            } else {
                HostError::TimedOut
            },
    {
        if cancelled {
            HostError::Cancelled(Cancelled)
        } else {
            HostError::TimedOut
        }
    }

    /// Takes note of an exchange. Only a wrong code counts, and the fifth one ends the
    /// session.
    pub fn exchanged(&mut self, h: Handshake) -> (r: HostStep)
        requires
            old(self).wf(),
        ensures
            final(self).deadline == old(self).deadline,
            match after_exchange(old(self).failures as nat, h) {
                Some(f) => {
                    &&& final(self).wf()
                    &&& final(self).failures == f
                    &&& r == if h == Handshake::Broken {
                        HostStep::Ignore
                    } else {
                        HostStep::Retry((5 - f) as u32)
                    }
                },
                None => r == if h == Handshake::Paired {
                    HostStep::Paired
                } else {
                    HostStep::End(HostError::TooManyGuesses(5))
                },
            },
    {
        match h {
            Handshake::Paired => HostStep::Paired,
            Handshake::Broken => HostStep::Ignore,
            Handshake::WrongCode => {
                self.failures = self.failures + 1;
                if self.failures >= MAX_FAILED_ATTEMPTS {
                    HostStep::End(HostError::TooManyGuesses(self.failures))
                } else {
                    HostStep::Retry(MAX_FAILED_ATTEMPTS - self.failures)
                }
            },
        }
    }
}

/// The wrong codes after a row of exchanges; `None` where the session was over before or
/// with the last one.
pub open spec fn after_all(hs: Seq<Handshake>) -> Option<nat>
    decreases hs.len(),
{
    if hs.len() == 0 {
        Some(0)
    } else {
        match after_all(hs.drop_last()) {
            None => None,
            Some(f) => after_exchange(f, hs.last()),
        }
    }
}

/// How many of the exchanges were wrong codes.
pub open spec fn wrong_codes(hs: Seq<Handshake>) -> nat
    decreases hs.len(),
{
    if hs.len() == 0 {
        0
    } else {
        wrong_codes(hs.drop_last()) + if hs.last() == Handshake::WrongCode {
            1nat
        } else {
            0
        }
    }
}

/// Whatever connects, and in whatever order, a session takes fewer than five wrong codes
/// and goes on: the fifth one ends it.
pub proof fn guesses_are_capped(hs: Seq<Handshake>)
    ensures
        after_all(hs) matches Some(f) ==> f == wrong_codes(hs) && f < 5,
        wrong_codes(hs) >= 5 ==> after_all(hs) is None,
    decreases hs.len(),
{
    if hs.len() > 0 {
        guesses_are_capped(hs.drop_last());
    }
}

/// A code pairs one device: the first success ends the session.
pub proof fn first_success_ends_the_session(hs: Seq<Handshake>, i: int)
    requires
        0 <= i < hs.len(),
        hs[i] == Handshake::Paired,
    ensures
        after_all(hs) is None,
    decreases hs.len(),
{
    if i < hs.len() - 1 {
        first_success_ends_the_session(hs.drop_last(), i);
    }
}

/// Connections that break before a code is sent never end a session, however many there
/// are.
pub proof fn broken_connections_are_harmless(hs: Seq<Handshake>)
    requires
        forall|i: int| 0 <= i < hs.len() ==> #[trigger] hs[i] == Handshake::Broken,
    ensures
        after_all(hs) == Some(0nat),
    decreases hs.len(),
{
    if hs.len() > 0 {
        let t = hs.drop_last();
        assert forall|i: int| 0 <= i < t.len() implies #[trigger] t[i] == Handshake::Broken by {
            assert(hs[i] == Handshake::Broken);
        }
        broken_connections_are_harmless(t);
        assert(hs[hs.len() - 1] == Handshake::Broken);
    }
}

/// The host's lines on the command line: the code, how to join from the same network,
/// how to join from elsewhere, and how long the code is good for.
pub open spec fn host_lines(
    code: Seq<char>,
    announcing: bool,
    hosts: Seq<HostText>,
    lang: Lang,
) -> Seq<Seq<char>> {
    let head = seq![
        Seq::<char>::empty(),
        (match lang {
            Lang::Zh => "  配对码： "@,
            Lang::English => "  Pairing code: "@,
        }) + code,
        Seq::<char>::empty(),
    ];
    let near = if announcing {
        seq![
            match lang {
                Lang::Zh => "  在另一台设备上运行（同一局域网内，无需输入 IP）："@,
                Lang::English => "  On the other machine run (same LAN, no IP needed):"@,
            },
            "      clipsync pair "@ + code,
            Seq::<char>::empty(),
        ]
    } else {
        Seq::empty()
    };
    head + near + manual_lines(code, hosts, lang) + seq![
        "  正在等待对方连接（"@ + decimal(180) + " 秒内有效）…"@,
    ]
}

/// How to join at one of the addresses.
pub open spec fn manual_line(code: Seq<char>, h: HostText) -> Seq<char> {
    "      clipsync pair "@ + host_text(h) + " "@ + code
}

/// How to join from another network; nothing where there are no addresses.
pub open spec fn manual_lines(code: Seq<char>, hosts: Seq<HostText>, lang: Lang) -> Seq<
    Seq<char>,
> {
    if hosts.len() == 0 {
        Seq::empty()
    } else {
        seq![
            match lang {
                Lang::Zh => "  若两台设备不在同一局域网，在对方设备上运行："@,
                Lang::English => "  If they are not on the same LAN, run this on the other machine:"@,
            },
        ] + hosts.map_values(|h: HostText| manual_line(code, h)) + seq![Seq::<char>::empty()]
    }
}

fn push_text(out: &mut Vec<String>, s: String)
    ensures
        texts(final(out)@) == texts(old(out)@).push(s@),
{
    out.push(s);
    assert(texts(out@) =~= texts(old(out)@).push(s@));
}

/// How to join from another network.
pub fn manual_hint(code: &str, hosts: &Vec<HostText>, lang: Lang) -> (r: Vec<String>)
    ensures
        texts(r@) == manual_lines(code@, hosts@, lang),
{
    let mut out: Vec<String> = Vec::new();
    if hosts.len() == 0 {
        assert(texts(out@) =~= Seq::<Seq<char>>::empty());
        return out;
    }
    let ghost each = |h: HostText| manual_line(code@, h);
    let ghost all = hosts@.map_values(each);
    push_text(
        &mut out,
        match lang {
            Lang::Zh => copy_of("  若两台设备不在同一局域网，在对方设备上运行："),
            Lang::English => copy_of(
                "  If they are not on the same LAN, run this on the other machine:",
            ),
        },
    );
    let ghost head = texts(out@);
    let mut i: usize = 0;
    assert(head + all.take(0) =~= head);
    while i < hosts.len()
        invariant
            i <= hosts.len(),
            each == (|h: HostText| manual_line(code@, h)),
            all == hosts@.map_values(each),
            texts(out@) == head + all.take(i as int),
        decreases hosts.len() - i,
    {
        let mut s = copy_of("      clipsync pair ");
        s.append(fmt_host(&hosts[i]).as_str());
        s.append(" ");
        s.append(code);
        proof {
            assert(s@ == all[i as int]);
            assert((head + all.take(i as int)).push(s@) =~= head + all.take(i + 1));
        }
        push_text(&mut out, s);
        i += 1;
    }
    proof {
        assert(all.take(all.len() as int) =~= all);
        reveal_strlit("");
        assert(""@ =~= Seq::<char>::empty());
    }
    push_text(&mut out, copy_of(""));
    assert(texts(out@) =~= manual_lines(code@, hosts@, lang));
    out
}

/// What a host prints before it waits.
pub fn host_banner(code: &str, announcing: bool, hosts: &Vec<HostText>, lang: Lang) -> (r: Vec<
    String,
>)
    ensures
        texts(r@) == host_lines(code@, announcing, hosts@, lang),
{
    proof {
        reveal_strlit("");
        assert(""@ =~= Seq::<char>::empty());
    }
    let mut out: Vec<String> = Vec::new();
    assert(texts(out@) =~= Seq::<Seq<char>>::empty());
    push_text(&mut out, copy_of(""));
    let mut shown = match lang {
        Lang::Zh => copy_of("  配对码： "),
        Lang::English => copy_of("  Pairing code: "),
    };
    shown.append(code);
    push_text(&mut out, shown);
    push_text(&mut out, copy_of(""));
    if announcing {
        push_text(
            &mut out,
            match lang {
                Lang::Zh => copy_of("  在另一台设备上运行（同一局域网内，无需输入 IP）："),
                Lang::English => copy_of("  On the other machine run (same LAN, no IP needed):"),
            },
        );
        let mut s = copy_of("      clipsync pair ");
        s.append(code);
        push_text(&mut out, s);
        push_text(&mut out, copy_of(""));
    }
    let ghost before = out@;
    let mut hint = manual_hint(code, hosts, lang);
    let ghost more = hint@;
    out.append(&mut hint);
    assert(texts(out@) =~= texts(before) + texts(more));
    let mut s = copy_of("  正在等待对方连接（");
    s.append(decimal_of(HOST_SESSION_TIMEOUT).as_str());
    s.append(" 秒内有效）…");
    push_text(&mut out, s);
    assert(texts(out@) =~= host_lines(code@, announcing, hosts@, lang));
    out
}

/// What a host prints after a wrong code.
pub fn retry_line(left: u32) -> (r: String)
    ensures
        r@ == "  仍在等待（配对码不变，还可重试 "@ + decimal(left as nat) + " 次）…"@,
{
    let mut s = copy_of("  仍在等待（配对码不变，还可重试 ");
    s.append(decimal_of(left as u64).as_str());
    s.append(" 次）…");
    s
}

/// An address that a waiting host was heard from.
#[derive(Debug)]
pub struct FoundAddr {
    /// The address in its usual notation.
    pub ip: String,
    pub port: u16,
}

/// A device heard to be waiting for a pairing, with every address it was heard from.
#[derive(Debug)]
pub struct FoundHost {
    pub device_name: String,
    pub addrs: Vec<FoundAddr>,
}

/// How to pick one of several waiting devices. One without an address is left out.
pub open spec fn host_choices(hosts: Seq<FoundHost>) -> Seq<char>
    decreases hosts.len(),
{
    if hosts.len() == 0 {
        Seq::empty()
    } else {
        let h = hosts.last();
        if h.addrs@.len() == 0 {
            host_choices(hosts.drop_last())
        } else {
            host_choices(hosts.drop_last()) + ("      clipsync pair <配对码>@"@ + h.addrs@[0].ip@
                + "   # "@ + h.device_name@ + "\n"@)
        }
    }
}

/// Why the network's announcements name no single host.
pub open spec fn discovery_complaint(hosts: Seq<FoundHost>) -> Seq<char> {
    if hosts.len() == 0 {
        "未在局域网中找到等待配对的设备。\n  请确认对方正显示着配对码；\n  若两台设备不在同一局域网，本机会自动改为主动探测"@
    } else {
        "局域网中有多台设备在等待配对，请指定其一：\n"@ + host_choices(hosts)
    }
}

/// The addresses of the one device that announces itself as waiting. None, or several, is
/// an error that says what to do.
pub fn discover_host(hosts: Vec<FoundHost>) -> (r: Result<Vec<FoundAddr>, String>)
    ensures
        match r {
            Ok(addrs) => hosts@.len() == 1 && addrs@ == hosts@[0].addrs@,
            Err(e) => hosts@.len() != 1 && e@ == discovery_complaint(hosts@),
        },
{
    if hosts.len() == 0 {
        return Err(
            copy_of(
                "未在局域网中找到等待配对的设备。\n  请确认对方正显示着配对码；\n  若两台设备不在同一局域网，本机会自动改为主动探测",
            ),
        );
    }
    let mut hosts = hosts;
    if hosts.len() == 1 {
        let h = hosts.remove(0);
        return Ok(h.addrs);
    }
    let mut list = copy_of("");
    proof {
        reveal_strlit("");
        assert(hosts@.take(0) =~= Seq::<FoundHost>::empty());
        assert(list@ =~= host_choices(hosts@.take(0)));
    }
    let mut i: usize = 0;
    while i < hosts.len()
        invariant
            i <= hosts.len(),
            list@ == host_choices(hosts@.take(i as int)),
        decreases hosts.len() - i,
    {
        proof {
            assert(hosts@.take(i + 1).drop_last() =~= hosts@.take(i as int));
            assert(hosts@.take(i + 1).last() == hosts@[i as int]);
        }
        if hosts[i].addrs.len() > 0 {
            let mut line = copy_of("      clipsync pair <配对码>@");
            line.append(hosts[i].addrs[0].ip.as_str());
            line.append("   # ");
            line.append(hosts[i].device_name.as_str());
            line.append("\n");
            list.append(line.as_str());
        }
        i += 1;
    }
    assert(hosts@.take(hosts@.len() as int) =~= hosts@);
    let mut msg = copy_of("局域网中有多台设备在等待配对，请指定其一：\n");
    msg.append(list.as_str());
    Err(msg)
}

/// What to do next to reach the host.
#[derive(Debug)]
pub enum ConnectStep {
    /// Connect to this address and nowhere else.
    Dial(String),
    /// Listen for announcements on the local network.
    Listen,
    /// Try these addresses.
    Probe(Vec<FoundAddr>),
    /// Search the reachable networks.
    Search,
    /// Try the code on the connections that were made.
    Pair,
    /// There is no host to be found.
    Fail(String),
}

/// What is said where no host was found.
pub open spec fn not_found_text() -> Seq<char> {
    "没能自动找到等待配对的设备。\n  请确认对方正显示着配对码（"@ + decimal(180)
        + " 秒内有效），\n  或改用带地址的写法：clipsync pair <配对码>@<对方IP>"@
}

/// The first step to the host: straight to its address, where one is given.
pub fn connect_hosts(host_ip: Option<&str>) -> (r: ConnectStep)
    ensures
        match host_ip {
            Some(ip) => r matches ConnectStep::Dial(a) && a@ == ip@ + ":"@ + decimal(47685),
            None => r is Listen,
        },
{
    match host_ip {
        Some(ip) => {
            let mut a = copy_of(ip);
            a.append(":");
            a.append(decimal_of(PAIRING_PORT as u64).as_str());
            ConnectStep::Dial(a)
        },
        None => ConnectStep::Listen,
    }
}

/// After listening: try what was heard, else search.
pub fn listened(heard: Result<Vec<FoundAddr>, String>) -> (r: ConnectStep)
    ensures
        match heard {
            Ok(addrs) => r == ConnectStep::Probe(addrs),
            Err(_) => r is Search,
        },
{
    match heard {
        Ok(addrs) => ConnectStep::Probe(addrs),
        Err(_) => ConnectStep::Search,
    }
}

/// After trying what was heard: `found` connections stand.
pub fn probed(found: usize) -> (r: ConnectStep)
    ensures
        if found > 0 {
            r is Pair
        } else {
            r is Search
        },
{
    if found > 0 {
        ConnectStep::Pair
    } else {
        ConnectStep::Search
    }
}

/// After searching: `found` connections stand.
pub fn searched(found: usize) -> (r: ConnectStep)
    ensures
        if found > 0 {
            r is Pair
        } else {
            r matches ConnectStep::Fail(m) && m@ == not_found_text()
        },
{
    if found > 0 {
        return ConnectStep::Pair;
    }
    let mut m = copy_of("没能自动找到等待配对的设备。\n  请确认对方正显示着配对码（");
    m.append(decimal_of(HOST_SESSION_TIMEOUT).as_str());
    m.append(
        " 秒内有效），\n  或改用带地址的写法：clipsync pair <配对码>@<对方IP>",
    );
    ConnectStep::Fail(m)
}

/// The connections that were tried so far, none with success.
#[derive(Debug)]
pub struct Tries {
    pub last: Option<String>,
}

impl Tries {
    pub fn new() -> (r: Self)
        ensures
            r.last is None,
    {
        Tries { last: None }
    }

    /// One more connection that led nowhere.
    pub fn failed(&mut self, why: String)
        ensures
            final(self).last == Some(why),
    {
        self.last = Some(why);
    }

    /// Why joining failed: the last connection's reason, or that there was none.
    pub fn give_up(self) -> (r: String)
        ensures
            match self.last {
                Some(why) => r == why,
                None => r@ == "没有可用的连接"@,
            },
    {
        match self.last {
            Some(why) => why,
            None => copy_of("没有可用的连接"),
        }
    }
}

/// The code to try on a connection.
pub fn join_on(code: &str) -> (r: Result<PairingCode, String>)
    ensures
        match r {
            Ok(c) => code_of(code@) == Some(c@),
            Err(e) => code_of(code@) is None && e@ == "配对码格式非法: "@ + code@,
        },
{
    match PairingCode::parse(code) {
        Some(c) => Ok(c),
        None => {
            let mut s = copy_of("配对码格式非法: ");
            s.append(code);
            Err(s)
        },
    }
}

/// What is printed of the addresses that a pairing brought; nothing where it brought
/// none.
pub fn learned_lines(addrs: &Vec<String>, lang: Lang) -> (r: Vec<String>)
    ensures
        addrs@.len() == 0 ==> r@.len() == 0,
        addrs@.len() > 0 ==> {
            &&& r@.len() == addrs@.len() + 1
            &&& r@[0]@ == match lang {
                Lang::Zh => "  已记录对方 "@ + decimal(addrs@.len()) + " 个可达地址："@,
                Lang::English => "  Recorded "@ + decimal(addrs@.len())
                    + " reachable address(es):"@,
            }
            &&& forall|i: int|
                0 <= i < addrs@.len() ==> (#[trigger] r@[i + 1])@ == "      "@ + addrs@[i]@
        },
{
    let mut out: Vec<String> = Vec::new();
    if addrs.len() == 0 {
        return out;
    }
    let mut head = match lang {
        Lang::Zh => copy_of("  已记录对方 "),
        Lang::English => copy_of("  Recorded "),
    };
    head.append(decimal_of(addrs.len() as u64).as_str());
    match lang {
        Lang::Zh => head.append(" 个可达地址："),
        Lang::English => head.append(" reachable address(es):"),
    }
    out.push(head);
    let ghost first = out@[0];
    let mut i: usize = 0;
    while i < addrs.len()
        invariant
            i <= addrs.len(),
            out@.len() == i + 1,
            out@[0] == first,
            forall|k: int| 1 <= k <= i ==> (#[trigger] out@[k])@ == "      "@ + addrs@[k - 1]@,
        decreases addrs.len() - i,
    {
        let mut s = copy_of("      ");
        s.append(addrs[i].as_str());
        out.push(s);
        i += 1;
    }
    out
}

/// A code is four digits, and nothing else may stand in what is typed for one but white
/// space and hyphens.
pub proof fn only_digits_make_a_code(s: Seq<char>)
    ensures
        code_of(s) matches Some(c) ==> {
            &&& c.len() == 4
            &&& forall|i: int| 0 <= i < 4 ==> '0' <= #[trigger] c[i] <= '9'
            &&& forall|i: int|
                0 <= i < s.len() ==> is_white(#[trigger] s[i]) || s[i] == '-' || '0' <= s[i] <= '9'
        },
{
    let keep = |c: char| counts(c);
    let d = s.filter(keep);
    if let Some(c) = code_of(s) {
        assert forall|i: int| 0 <= i < 4 implies '0' <= #[trigger] c[i] <= '9' by {
            assert(is_digit(c[i]));
        }
        assert forall|i: int| 0 <= i < s.len() implies is_white(#[trigger] s[i]) || s[i] == '-'
            || '0' <= s[i] <= '9' by {
            if !is_white(s[i]) && s[i] != '-' {
                s.lemma_filter_contains(keep, i);
                let k = choose|k: int| 0 <= k < d.len() && d[k] == s[i];
                assert(is_digit(d[k]));
            }
        }
    }
}

/// However the digits of a code are spaced, they are the same code.
pub proof fn spacing_does_not_matter(a: Seq<char>, c: char, b: Seq<char>)
    requires
        is_white(c) || c == '-',
    ensures
        code_of(a + seq![c] + b) == code_of(a + b),
{
    let keep = |c: char| counts(c);
    Seq::filter_distributes_over_add(a + seq![c], b, keep);
    Seq::filter_distributes_over_add(a, b, keep);
    Seq::filter_distributes_over_add(a, seq![c], keep);
    let one = seq![c];
    assert(one.filter(keep) =~= Seq::<char>::empty()) by {
        reveal(Seq::filter);
        one.drop_last().lemma_filter_len(keep);
        assert(!keep(one.last()));
    }
    assert(a.filter(keep) + Seq::<char>::empty() =~= a.filter(keep));
}

proof fn lemma_trim_start_code(s: Seq<char>)
    ensures
        code_of(trim_start(s)) == code_of(s),
    decreases s.len(),
{
    if s.len() > 0 && is_white(s[0]) {
        let t = s.drop_first();
        lemma_trim_start_code(t);
        spacing_does_not_matter(Seq::empty(), s[0], t);
        assert(Seq::<char>::empty() + seq![s[0]] + t =~= s);
        assert(Seq::<char>::empty() + t =~= t);
    }
}

proof fn lemma_trim_end_code(s: Seq<char>)
    ensures
        code_of(trim_end(s)) == code_of(s),
    decreases s.len(),
{
    if s.len() > 0 && is_white(s.last()) {
        let t = s.drop_last();
        lemma_trim_end_code(t);
        spacing_does_not_matter(t, s.last(), Seq::empty());
        assert(t + seq![s.last()] + Seq::<char>::empty() =~= s);
        assert(t + Seq::<char>::empty() =~= t);
    }
}

proof fn lemma_trim_start_add(a: Seq<char>, t: Seq<char>)
    requires
        t.len() > 0,
        !is_white(t[0]),
    ensures
        trim_start(a + t) == trim_start(a) + t,
    decreases a.len(),
{
    if a.len() > 0 && is_white(a[0]) {
        lemma_trim_start_add(a.drop_first(), t);
        assert((a + t).drop_first() =~= a.drop_first() + t);
    } else if a.len() == 0 {
        assert(a + t =~= t);
        assert(trim_start(a) + t =~= t);
    }
}

proof fn lemma_trim_end_add(t: Seq<char>, w: Seq<char>)
    requires
        forall|i: int| 0 <= i < w.len() ==> is_white(#[trigger] w[i]),
    ensures
        trim_end(t + w) == trim_end(t),
    decreases w.len(),
{
    if w.len() > 0 {
        assert(is_white(w[w.len() - 1]));
        assert((t + w).drop_last() =~= t + w.drop_last());
        lemma_trim_end_add(t, w.drop_last());
    } else {
        assert(t + w =~= t);
    }
}

proof fn lemma_trims_keep(s: Seq<char>)
    ensures
        forall|i: int| 0 <= i < trim_start(s).len() ==> s.contains(#[trigger] trim_start(s)[i]),
        forall|i: int| 0 <= i < trim_end(s).len() ==> s.contains(#[trigger] trim_end(s)[i]),
    decreases s.len(),
{
    if s.len() > 0 {
        if is_white(s[0]) {
            let t = s.drop_first();
            lemma_trims_keep(t);
            assert forall|i: int| 0 <= i < trim_start(s).len() implies s.contains(
                #[trigger] trim_start(s)[i],
            ) by {
                assert(t.contains(trim_start(t)[i]));
                let k = choose|k: int| 0 <= k < t.len() && t[k] == trim_start(t)[i];
                assert(s[k + 1] == t[k]);
            }
        }
        if is_white(s.last()) {
            let t = s.drop_last();
            lemma_trims_keep(t);
            assert forall|i: int| 0 <= i < trim_end(s).len() implies s.contains(
                #[trigger] trim_end(s)[i],
            ) by {
                assert(t.contains(trim_end(t)[i]));
                let k = choose|k: int| 0 <= k < t.len() && t[k] == trim_end(t)[i];
                assert(s[k] == t[k]);
            }
        }
    }
}

/// What is typed without an `@` is a code, or nothing; the host is then searched for.
pub proof fn without_an_address_it_is_a_code(s: Seq<char>)
    requires
        !s.contains('@'),
    ensures
        match code_of(s) {
            Some(c) => pairing_input(s) == Some((c, None::<Seq<char>>)),
            None => pairing_input(s) is None,
        },
{
    let t = trim_start(s);
    lemma_trim_start_code(s);
    lemma_trim_end_code(t);
    lemma_trims_keep(s);
    lemma_trims_keep(t);
    let u = trim_end(t);
    assert forall|k: int| -1 < k < u.len() implies #[trigger] u[k] != '@' by {
        assert(t.contains(u[k]));
        let i = choose|i: int| 0 <= i < t.len() && t[i] == u[k];
        assert(s.contains(t[i]));
    }
    lemma_last_at(u, -1);
}

/// What stands behind the last `@` is the host's address, and what stands before it has to
/// be a code.
pub proof fn the_host_stands_behind_the_last_at(a: Seq<char>, host: Seq<char>)
    requires
        host.len() > 0,
        !is_white(host[0]),
        !is_white(host.last()),
        !host.contains('@'),
    ensures
        match code_of(a) {
            Some(c) => pairing_input(a + seq!['@'] + host) == Some((c, Some(host))),
            None => pairing_input(a + seq!['@'] + host) is None,
        },
{
    let s = a + seq!['@'] + host;
    let t = seq!['@'] + host;
    assert(s =~= a + t);
    lemma_trim_start_add(a, t);
    let b = trim_start(a);
    let u = b + t;
    assert(trim_end(u) == u);
    assert(trimmed(s) == u);
    assert forall|k: int| b.len() < k < u.len() implies #[trigger] u[k] != '@' by {
        assert(host.contains(host[k - b.len() - 1]));
    }
    lemma_last_at(u, b.len() as int);
    assert(u.take(b.len() as int) =~= b);
    assert(u.skip(b.len() as int + 1) =~= host);
    assert(trimmed(host) == host);
    lemma_trim_start_code(a);
}

/// An `@` with no address behind it is refused, whatever stands before it.
pub proof fn an_at_without_a_host_is_refused(a: Seq<char>, w: Seq<char>)
    requires
        forall|i: int| 0 <= i < w.len() ==> is_white(#[trigger] w[i]),
    ensures
        pairing_input(a + seq!['@'] + w) is None,
{
    let s = a + seq!['@'] + w;
    let t = seq!['@'] + w;
    assert(s =~= a + t);
    lemma_trim_start_add(a, t);
    let b = trim_start(a);
    let u = b + seq!['@'];
    assert(b + t =~= u + w);
    lemma_trim_end_add(u, w);
    assert(trim_end(u) == u);
    lemma_last_at(u, b.len() as int);
    assert(u.skip(b.len() as int + 1).len() == 0);
}

/// Fewer than five wrong codes, and no pairing, and the session still goes on.
pub proof fn a_session_lasts_until_the_fifth_guess(hs: Seq<Handshake>)
    requires
        forall|i: int| 0 <= i < hs.len() ==> #[trigger] hs[i] != Handshake::Paired,
        wrong_codes(hs) < 5,
    ensures
        after_all(hs) == Some(wrong_codes(hs)),
    decreases hs.len(),
{
    if hs.len() > 0 {
        let t = hs.drop_last();
        assert forall|i: int| 0 <= i < t.len() implies #[trigger] t[i] != Handshake::Paired by {
            assert(hs[i] != Handshake::Paired);
        }
        a_session_lasts_until_the_fifth_guess(t);
        assert(hs[hs.len() - 1] != Handshake::Paired);
    }
}

/// Which of the addresses make the lines of one kind of network.
spec fn sources(addrs: Seq<Ip>, rank: nat) -> Seq<int>
    decreases addrs.len(),
{
    if addrs.len() == 0 {
        Seq::empty()
    } else if listed_as(addrs.last()) == Some(rank) {
        sources(addrs.drop_last(), rank).push(addrs.len() - 1)
    } else {
        sources(addrs.drop_last(), rank)
    }
}

proof fn lemma_sources(addrs: Seq<Ip>, rank: nat)
    ensures
        sources(addrs, rank).len() == lines_of(addrs, rank).len(),
        forall|k: int|
            #![trigger sources(addrs, rank)[k]]
            #![trigger lines_of(addrs, rank)[k]]
            0 <= k < sources(addrs, rank).len() ==> {
                let i = sources(addrs, rank)[k];
                &&& 0 <= i < addrs.len()
                &&& listed_as(addrs[i]) == Some(rank)
                &&& addrs[i] matches Ip::V4(v) && lines_of(addrs, rank)[k] == address_line(v, rank)
            },
        forall|a: int, b: int|
            0 <= a < b < sources(addrs, rank).len() ==> #[trigger] sources(addrs, rank)[a]
                < #[trigger] sources(addrs, rank)[b],
        forall|i: int|
            0 <= i < addrs.len() && listed_as(#[trigger] addrs[i]) == Some(rank) ==> sources(
                addrs,
                rank,
            ).contains(i),
    decreases addrs.len(),
{
    if addrs.len() > 0 {
        let t = addrs.drop_last();
        lemma_sources(t, rank);
        let s = sources(addrs, rank);
        assert forall|i: int|
            0 <= i < addrs.len() && listed_as(#[trigger] addrs[i]) == Some(rank) implies s.contains(
            i,
        ) by {
            if i < t.len() {
                assert(t[i] == addrs[i]);
                let k = choose|k: int|
                    0 <= k < sources(t, rank).len() && sources(t, rank)[k] == i;
                assert(s[k] == i);
            } else {
                assert(s[s.len() - 1] == i);
            }
        }
    }
}

/// Every own IPv4 address but those of the benchmark range is listed once, with the word
/// for its network: the near networks first, then the overlay networks, then the internet,
/// and within one kind in the order in which they were found. `src` tells which address
/// each line is for.
pub proof fn own_addresses_are_listed_by_network(addrs: Seq<Ip>) -> (src: Seq<int>)
    ensures
        src.len() == all_lines(addrs).len(),
        forall|k: int|
            #![trigger src[k]]
            0 <= k < src.len() ==> {
                &&& 0 <= src[k] < addrs.len()
                &&& addrs[src[k]] matches Ip::V4(v) && !benchmark(v) && all_lines(addrs)[k]
                    == dotted(v) + "（"@ + (if private(v) {
                    "局域网"@
                } else if cgnat(v) {
                    "覆盖网"@
                } else {
                    "公网"@
                }) + "）"@
            },
        forall|a: int, b: int|
            #![trigger src[a], src[b]]
            0 <= a < b < src.len() ==> {
                &&& src[a] != src[b]
                &&& (addrs[src[a]] matches Ip::V4(v) && (addrs[src[b]] matches Ip::V4(w) && {
                    &&& private(w) ==> private(v)
                    &&& cgnat(w) ==> private(v) || cgnat(v)
                    &&& private(v) == private(w) && cgnat(v) == cgnat(w) ==> src[a] < src[b]
                }))
            },
        forall|i: int|
            0 <= i < addrs.len() && (#[trigger] addrs[i] matches Ip::V4(v) && !benchmark(v))
                ==> src.contains(i),
{
    lemma_sources(addrs, 0);
    lemma_sources(addrs, 1);
    lemma_sources(addrs, 2);
    let (x, y, z) = (sources(addrs, 0), sources(addrs, 1), sources(addrs, 2));
    let src = x + y + z;
    let all = all_lines(addrs);
    assert forall|k: int| #![trigger src[k]] 0 <= k < src.len() implies 0 <= src[k] < addrs.len()
        && listed_as(addrs[src[k]]) == Some(
        if k < x.len() {
            0nat
        } else if k < x.len() + y.len() {
            1
        } else {
            2
        },
    ) && (addrs[src[k]] matches Ip::V4(v) && all[k] == address_line(
        v,
        listed_as(addrs[src[k]])->0,
    )) by {
        if k < x.len() {
            assert(src[k] == x[k]);
            assert(all[k] == lines_of(addrs, 0)[k]);
        } else if k < x.len() + y.len() {
            assert(src[k] == y[k - x.len()]);
            assert(all[k] == lines_of(addrs, 1)[k - x.len()]);
        } else {
            assert(src[k] == z[k - x.len() - y.len()]);
            assert(all[k] == lines_of(addrs, 2)[k - x.len() - y.len()]);
        }
    }
    assert forall|a: int, b: int|
        #![trigger src[a], src[b]]
        0 <= a < b < src.len() && listed_as(addrs[src[a]]) == listed_as(
            addrs[src[b]],
        ) implies src[a] < src[b] by {
        if b < x.len() {
            assert(src[a] == x[a] && src[b] == x[b]);
        } else if b < x.len() + y.len() {
            assert(a >= x.len());
            assert(src[a] == y[a - x.len()] && src[b] == y[b - x.len()]);
        } else {
            assert(a >= x.len() + y.len());
            assert(src[a] == z[a - x.len() - y.len()] && src[b] == z[b - x.len() - y.len()]);
        }
    }
    assert forall|i: int|
        0 <= i < addrs.len() && (#[trigger] addrs[i] matches Ip::V4(v) && !benchmark(
            v,
        )) implies src.contains(i) by {
        if listed_as(addrs[i]) == Some(0nat) {
            let k = choose|k: int| 0 <= k < x.len() && x[k] == i;
            assert(src[k] == i);
        } else if listed_as(addrs[i]) == Some(1nat) {
            let k = choose|k: int| 0 <= k < y.len() && y[k] == i;
            assert(src[x.len() + k] == i);
        } else {
            let k = choose|k: int| 0 <= k < z.len() && z[k] == i;
            assert(src[x.len() + y.len() + k] == i);
        }
    }
    src
}

/// Whatever the language, the window shows the code, behind a caption that does not depend
/// on it.
pub proof fn the_code_is_shown(
    code: Seq<char>,
    addrs: Seq<Ip>,
    clock: Option<i64>,
    expires_in: u64,
    lang: Lang,
) -> (rest: Seq<char>)
    ensures
        code_dialog_text(code, addrs, clock, expires_in, lang) == (match lang {
            Lang::Zh => "配对码  "@,
            Lang::English => "Pairing code  "@,
        }) + code + rest,
{
    let full = code_dialog_text(code, addrs, clock, expires_in, lang);
    let caption = match lang {
        Lang::Zh => "配对码  "@,
        Lang::English => "Pairing code  "@,
    };
    let n: int = (caption.len() + code.len()) as int;
    let rest = full.skip(n);
    assert(full.take(n) =~= caption + code);
    assert(full =~= caption + code + rest);
    rest
}

/// A host that can be reached at addresses says for each of them, in their order, how to
/// join there with its code.
pub proof fn every_address_has_its_command(
    code: Seq<char>,
    announcing: bool,
    hosts: Seq<HostText>,
    lang: Lang,
    i: int,
)
    requires
        0 <= i < hosts.len(),
    ensures
        ({
            let first: int = if announcing {
                7
            } else {
                4
            };
            let lines = host_lines(code, announcing, hosts, lang);
            &&& lines.len() == first + hosts.len() + 2
            &&& lines[first + i] == "      clipsync pair "@ + (match hosts[i] {
                HostText::V4(v) => dotted(v),
                HostText::V6(t) => "["@ + t@ + "]"@,
            }) + " "@ + code
        }),
        announcing ==> host_lines(code, announcing, hosts, lang)[4] == "      clipsync pair "@
            + code,
{
}

/// Where several devices wait, each one that was heard from an address is offered at the
/// first of its addresses, under its name.
pub proof fn every_waiting_device_is_offered(hosts: Seq<FoundHost>, i: int) -> (r: (
    Seq<char>,
    Seq<char>,
))
    requires
        0 <= i < hosts.len(),
        hosts[i].addrs@.len() > 0,
    ensures
        host_choices(hosts) == r.0 + ("      clipsync pair <配对码>@"@ + hosts[i].addrs@[0].ip@
            + "   # "@ + hosts[i].device_name@ + "\n"@) + r.1,
    decreases hosts.len(),
{
    let line = "      clipsync pair <配对码>@"@ + hosts[i].addrs@[0].ip@ + "   # "@
        + hosts[i].device_name@ + "\n"@;
    let t = hosts.drop_last();
    if i == hosts.len() - 1 {
        assert(host_choices(hosts) =~= host_choices(t) + line + Seq::<char>::empty());
        (host_choices(t), Seq::empty())
    } else {
        assert(t[i] == hosts[i]);
        let (a, b) = every_waiting_device_is_offered(t, i);
        let c = host_choices(hosts).skip(host_choices(t).len() as int);
        assert(host_choices(hosts) =~= host_choices(t) + c);
        assert(host_choices(t) + c =~= a + line + (b + c));
        (a, b + c)
    }
}

/// Every line of a block stands on a line of its own, behind four blanks. The result is what
/// stands before it and behind it.
pub proof fn every_line_is_set_in(lines: Seq<Seq<char>>, i: int) -> (r: (Seq<char>, Seq<char>))
    requires
        0 <= i < lines.len(),
    ensures
        indented(lines) == r.0 + seq![' ', ' ', ' ', ' '] + lines[i] + r.1,
        i == 0 ==> r.0.len() == 0,
        i > 0 ==> r.0 == indented(lines.take(i)) + seq!['\n'],
        i == lines.len() - 1 ==> r.1.len() == 0,
        i < lines.len() - 1 ==> r.1.len() > 0 && r.1[0] == '\n',
    decreases lines.len(),
{
    reveal_strlit("    ");
    reveal_strlit("\n");
    let blanks = seq![' ', ' ', ' ', ' '];
    assert("    "@ =~= blanks);
    assert("\n"@ =~= seq!['\n']);
    let t = lines.drop_last();
    let e = Seq::<char>::empty();
    if i == lines.len() - 1 {
        if i == 0 {
            assert(indented(lines) =~= e + blanks + lines[0] + e);
            (e, e)
        } else {
            assert(lines.take(i) =~= t);
            let a = indented(t) + seq!['\n'];
            assert(indented(lines) =~= a + blanks + lines[i] + e);
            (a, e)
        }
    } else {
        let (a, b) = every_line_is_set_in(t, i);
        let c = b + seq!['\n'] + blanks + lines.last();
        assert(t[i] == lines[i]);
        assert(t.take(i) =~= lines.take(i));
        assert(indented(lines) =~= a + blanks + lines[i] + c);
        (a, c)
    }
}

/// The window says when the code expires, and whoever looks later at the same code reads the
/// same moment.
pub proof fn the_window_names_the_moment(
    now: i64,
    later: i64,
    expires_in: u64,
    left: u64,
    lang: Lang,
) -> (head: Seq<char>)
    requires
        now + expires_in == later + left,
    ensures
        validity(Some(now), expires_in, lang) == head + clock_text(now + expires_in),
        validity(Some(later), left, lang) == validity(Some(now), expires_in, lang),
{
    match lang {
        Lang::Zh => "有效至 "@,
        Lang::English => "valid until "@,
    }
}

/// The window says how long the code is good for, and ends with the own addresses where there
/// are any. The result is what stands between the code and that.
pub proof fn the_window_shows_all_there_is(
    code: Seq<char>,
    addrs: Seq<Ip>,
    clock: Option<i64>,
    expires_in: u64,
    lang: Lang,
) -> (r: (Seq<char>, Seq<char>))
    ensures
        code_dialog_text(code, addrs, clock, expires_in, lang) == r.0 + validity(
            clock,
            expires_in,
            lang,
        ) + r.1 + if all_lines(addrs).len() == 0 {
            Seq::<char>::empty()
        } else {
            indented(all_lines(addrs))
        },
{
    let full = code_dialog_text(code, addrs, clock, expires_in, lang);
    let v = validity(clock, expires_in, lang);
    let block = if all_lines(addrs).len() == 0 {
        Seq::<char>::empty()
    } else {
        indented(all_lines(addrs))
    };
    let (a, b) = match lang {
        Lang::Zh => (
            "配对码  "@ + code + "\n\n在对方设备上选「输入配对码…」，输入这四位。\n"@,
            "，配对成功即失效。"@,
        ),
        Lang::English => (
            "Pairing code  "@ + code
                + "\n\nOn the other machine choose \"Enter pairing code…\" and type these four digits.\nThis code is "@,
            " and stops working once pairing succeeds."@,
        ),
    };
    let more = if all_lines(addrs).len() == 0 {
        Seq::<char>::empty()
    } else {
        match lang {
            Lang::Zh => "\n\n若对方提示需要地址，挑一个与它同网段的：\n"@,
            Lang::English => "\n\nIf it asks for an address, pick the one on its subnet:\n"@,
        }
    };
    assert(full =~= a + v + (b + more) + block);
    (a, b + more)
}

} // verus!
