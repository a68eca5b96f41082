//! The command line: what is asked for, and what is printed.

use vstd::prelude::*;
use vstd::string::*;

use crate::addrbook::v6_unique_local;
use crate::ipv4::{cgnat, is_cgnat, is_private, private};
use crate::language::Lang;
use crate::pairing_cli::{code_with_address_reads_back, four_digits, pairing_input, parse_pairing_input};
use crate::text::{chars_of, contains_part, copy_of, decimal, decimal_of, has_part, str_eq, string_of, trim, trimmed};
use crate::types::Ip;
use crate::wiring::texts;

verus! {

/// What is asked for on the command line.
#[derive(Debug)]
pub enum Command {
    /// Synchronise in the background.
    Sync,
    /// Host a pairing.
    PairHost,
    /// Join a pairing with this code, at this host where one is given.
    PairJoin { code: String, host: Option<String> },
    /// Say how to pair.
    PairUsage,
    List,
    ClipDiag,
    Addrs,
    AutostartOn,
    AutostartOff,
    AutostartStatus,
    Unknown(String),
}

/// What the words behind `pair` ask for. A code never looks like an address, so that
/// both orders are understood: a code, perhaps with its host, or a host and a code.
pub open spec fn pair_command(args: Seq<String>, c: Command) -> bool {
    if args.len() < 2 {
        c is PairUsage
    } else if args[1]@ == "--host"@ || args[1]@ == "-h"@ {
        c is PairHost
    } else {
        match pairing_input(args[1]@) {
            Some((digits, at)) => c matches Command::PairJoin { code, host } && code@ == digits
                && match host {
                Some(h) => at == Some(h@),
                None => at is None,
            },
            None => c matches Command::PairJoin { code, host } && host == Some(args[1]) && code@
                == if args.len() > 2 {
                args[2]@
            } else {
                Seq::empty()
            },
        }
    }
}

/// What a command line asks for.
pub open spec fn asks_for(args: Seq<String>, c: Command) -> bool {
    if args.len() == 0 {
        c is Sync
    } else if args[0]@ == "pair"@ {
        pair_command(args, c)
    } else if args[0]@ == "list"@ {
        c is List
    } else if args[0]@ == "clipdiag"@ {
        c is ClipDiag
    } else if args[0]@ == "addrs"@ {
        c is Addrs
    } else if args[0]@ == "autostart"@ {
        if args.len() > 1 && args[1]@ == "on"@ {
            c is AutostartOn
        } else if args.len() > 1 && args[1]@ == "off"@ {
            c is AutostartOff
        } else {
            c is AutostartStatus
        }
    } else {
        c == Command::Unknown(args[0])
    }
}

fn command_of_pair(args: &Vec<String>) -> (r: Command)
    ensures
        pair_command(args@, r),
{
    if args.len() < 2 {
        return Command::PairUsage;
    }
    let first = args[1].as_str();
    if str_eq(first, "--host") || str_eq(first, "-h") {
        return Command::PairHost;
    }
    match parse_pairing_input(first) {
        Some((code, host)) => Command::PairJoin { code: copy_of(code.as_str()), host },
        None => Command::PairJoin {
            code: if args.len() > 2 {
                args[2].clone()
            } else {
                String::new()
            },
            host: Some(args[1].clone()),
        },
    }
}

/// What a command line asks for, the program's name left out.
pub fn command(args: &Vec<String>) -> (r: Command)
    ensures
        asks_for(args@, r),
{
    proof {
        reveal_strlit("pair");
        reveal_strlit("list");
        reveal_strlit("clipdiag");
        reveal_strlit("addrs");
        reveal_strlit("autostart");
        reveal_strlit("on");
        reveal_strlit("off");
    }
    if args.len() == 0 {
        return Command::Sync;
    }
    let word = args[0].as_str();
    if str_eq(word, "pair") {
        command_of_pair(args)
    } else if str_eq(word, "list") {
        Command::List
    } else if str_eq(word, "clipdiag") {
        Command::ClipDiag
    } else if str_eq(word, "addrs") {
        Command::Addrs
    } else if str_eq(word, "autostart") {
        if args.len() > 1 && str_eq(args[1].as_str(), "on") {
            Command::AutostartOn
        } else if args.len() > 1 && str_eq(args[1].as_str(), "off") {
            Command::AutostartOff
        } else {
            Command::AutostartStatus
        }
    } else {
        Command::Unknown(args[0].clone())
    }
}

/// What sort of address it is, in plain words.
pub open spec fn description(ip: Ip, lang: Lang) -> Seq<char> {
    match ip {
        Ip::V4(v) => if cgnat(v) {
            match lang {
                Lang::Zh => "覆盖网段 (100.64/10 CGNAT，Tailscale 等常用)"@,
                Lang::English => "overlay network (100.64/10 CGNAT, used by Tailscale and others)"@,
            }
        } else if private(v) {
            match lang {
                Lang::Zh => "局域网/私有网段"@,
                Lang::English => "LAN / private range"@,
            }
        } else {
            match lang {
                Lang::Zh => "公网地址"@,
                Lang::English => "public address"@,
            }
        },
        Ip::V6(v) => if v6_unique_local(v) {
            match lang {
                Lang::Zh => "覆盖网段 (IPv6 ULA)"@,
                Lang::English => "overlay network (IPv6 ULA)"@,
            }
        } else {
            match lang {
                Lang::Zh => "公网 IPv6"@,
                Lang::English => "public IPv6"@,
            }
        },
    }
}

/// What sort of address it is, in plain words. How good a path it is depends on where
/// the other device is, so that nothing is said of that.
pub fn describe_addr(ip: Ip, lang: Lang) -> (r: &'static str)
    ensures
        r@ == description(ip, lang),
{
    match ip {
        Ip::V4(v) => if is_cgnat(v) {
            match lang {
                Lang::Zh => "覆盖网段 (100.64/10 CGNAT，Tailscale 等常用)",
                Lang::English => "overlay network (100.64/10 CGNAT, used by Tailscale and others)",
            }
        } else if is_private(v) {
            match lang {
                Lang::Zh => "局域网/私有网段",
                Lang::English => "LAN / private range",
            }
        } else {
            match lang {
                Lang::Zh => "公网地址",
                Lang::English => "public address",
            }
        },
        Ip::V6(v) => if v >= 0xfc00_0000_0000_0000_0000_0000_0000_0000 && v
            < 0xfe00_0000_0000_0000_0000_0000_0000_0000 {
            match lang {
                Lang::Zh => "覆盖网段 (IPv6 ULA)",
                Lang::English => "overlay network (IPv6 ULA)",
            }
        } else {
            match lang {
                Lang::Zh => "公网 IPv6",
                Lang::English => "public IPv6",
            }
        },
    }
}

/// `s` filled up with blanks to a width of 42 characters.
pub open spec fn filled(s: Seq<char>) -> Seq<char> {
    if s.len() < 42 {
        s + Seq::new((42 - s.len()) as nat, |i: int| ' ')
    } else {
        s
    }
}

fn fill(s: &str) -> (r: String)
    ensures
        r@ == filled(s@),
{
    let n: usize = chars_of(s).len();
    let mut r = copy_of(s);
    let mut i: usize = n;
    while i < 42
        invariant
            n == s@.len(),
            n <= i,
            n < 42 ==> i <= 42,
            n >= 42 ==> i == n,
            r@ == s@ + Seq::new((i - n) as nat, |k: int| ' '),
        decreases 42 - i,
    {
        r.push(' ');
        i += 1;
        assert(r@ =~= s@ + Seq::new((i - n) as nat, |k: int| ' '));
    }
    assert(r@ =~= filled(s@));
    r
}

/// The line of one own address: as written, then what sort it is.
pub fn addr_line(written: &str, ip: Ip, lang: Lang) -> (r: String)
    ensures
        r@ == "  "@ + filled(written@) + " "@ + description(ip, lang),
{
    let mut s = copy_of("  ");
    s.append(fill(written).as_str());
    s.append(" ");
    s.append(describe_addr(ip, lang));
    s
}

/// A paired device as it is listed.
#[derive(Debug)]
pub struct Listed {
    pub name: String,
    pub device: String,
    /// Its addresses, as written.
    pub addrs: Vec<String>,
}

/// The lines of one device: its name and id, then its addresses.
pub open spec fn device_lines(d: Listed) -> Seq<Seq<char>> {
    seq!["  - "@ + d.name@ + " ("@ + d.device@ + ")"@] + texts(d.addrs@).map_values(
        |a: Seq<char>| "      "@ + a,
    )
}

/// The lines of all devices.
pub open spec fn all_device_lines(list: Seq<Listed>) -> Seq<Seq<char>>
    decreases list.len(),
{
    if list.len() == 0 {
        Seq::empty()
    } else {
        all_device_lines(list.drop_last()) + device_lines(list.last())
    }
}

/// The list of paired devices, or what to do where there are none.
pub open spec fn listing(list: Seq<Listed>, lang: Lang) -> Seq<Seq<char>> {
    if list.len() == 0 {
        seq![
            match lang {
                Lang::Zh => "尚无已配对设备。用 `clipsync pair --host` 开始配对。"@,
                Lang::English => "No paired devices yet. Run `clipsync pair --host` to start."@,
            },
        ]
    } else {
        seq![
            match lang {
                Lang::Zh => "已配对设备（"@ + decimal(list.len()) + "）："@,
                Lang::English => "Paired devices ("@ + decimal(list.len()) + "):"@,
            },
        ] + all_device_lines(list)
    }
}

fn push_text(out: &mut Vec<String>, s: String)
    ensures
        texts(final(out)@) == texts(old(out)@).push(s@),
{
    out.push(s);
    assert(texts(out@) =~= texts(old(out)@).push(s@));
}

fn push_device(out: &mut Vec<String>, d: &Listed)
    ensures
        texts(final(out)@) == texts(old(out)@) + device_lines(*d),
{
    let ghost before = texts(out@);
    let mut s = copy_of("  - ");
    s.append(d.name.as_str());
    s.append(" (");
    s.append(d.device.as_str());
    s.append(")");
    push_text(out, s);
    let ghost head = texts(out@);
    let ghost each = |a: Seq<char>| "      "@ + a;
    let ghost all = texts(d.addrs@).map_values(each);
    let mut i: usize = 0;
    assert(head + all.take(0) =~= head);
    while i < d.addrs.len()
        invariant
            i <= d.addrs.len(),
            each == (|a: Seq<char>| "      "@ + a),
            all == texts(d.addrs@).map_values(each),
            texts(out@) == head + all.take(i as int),
        decreases d.addrs.len() - i,
    {
        let mut line = copy_of("      ");
        line.append(d.addrs[i].as_str());
        proof {
            assert(line@ == all[i as int]);
            assert((head + all.take(i as int)).push(line@) =~= head + all.take(i + 1));
        }
        push_text(out, line);
        i += 1;
    }
    assert(all.take(all.len() as int) =~= all);
    assert(texts(out@) =~= before + device_lines(*d));
}

/// The list of paired devices.
pub fn list_lines(list: &Vec<Listed>, lang: Lang) -> (r: Vec<String>)
    ensures
        texts(r@) == listing(list@, lang),
{
    let mut out: Vec<String> = Vec::new();
    assert(texts(out@) =~= Seq::<Seq<char>>::empty());
    if list.len() == 0 {
        push_text(
            &mut out,
            match lang {
                Lang::Zh => copy_of("尚无已配对设备。用 `clipsync pair --host` 开始配对。"),
                Lang::English => copy_of(
                    "No paired devices yet. Run `clipsync pair --host` to start.",
                ),
            },
        );
        return out;
    }
    let mut head = match lang {
        Lang::Zh => copy_of("已配对设备（"),
        Lang::English => copy_of("Paired devices ("),
    };
    head.append(decimal_of(list.len() as u64).as_str());
    match lang {
        Lang::Zh => head.append("）："),
        Lang::English => head.append("):"),
    }
    push_text(&mut out, head);
    let ghost first = texts(out@);
    let mut i: usize = 0;
    assert(list@.take(0) =~= Seq::<Listed>::empty());
    assert(first + all_device_lines(list@.take(0)) =~= first);
    while i < list.len()
        invariant
            i <= list.len(),
            texts(out@) == first + all_device_lines(list@.take(i as int)),
        decreases list.len() - i,
    {
        let ghost before = texts(out@);
        push_device(&mut out, &list[i]);
        proof {
            assert(list@.take(i + 1).drop_last() =~= list@.take(i as int));
            assert(list@.take(i + 1).last() == list@[i as int]);
            assert(texts(out@) =~= first + all_device_lines(list@.take(i + 1)));
        }
        i += 1;
    }
    assert(list@.take(list@.len() as int) =~= list@);
    out
}

/// Why no file was found on the clipboard.
#[derive(Debug, Clone, Copy, PartialEq, Eq, Structural)]
pub enum NoFiles {
    /// A file was promised that does not exist yet.
    Promised,
    Empty,
    /// There is something, but no reference to a file.
    OtherContent,
}

/// Whether one of the clipboard's types speaks of a promise.
pub open spec fn promises(types: Seq<String>) -> bool {
    exists|i: int| 0 <= i < types.len() && has_part((#[trigger] types[i])@, "promise"@)
}

/// Why no file was found, going by the types of what is on the clipboard.
pub fn why_no_files(types: &Vec<String>) -> (r: NoFiles)
    ensures
        r == if promises(types@) {
            NoFiles::Promised
        } else if types@.len() == 0 {
            NoFiles::Empty
        } else {
            NoFiles::OtherContent
        },
{
    let mut i: usize = 0;
    while i < types.len()
        invariant
            i <= types.len(),
            forall|k: int| 0 <= k < i ==> !has_part((#[trigger] types@[k])@, "promise"@),
        decreases types.len() - i,
    {
        let cs = chars_of(types[i].as_str());
        if contains_part(&cs, "promise") {
            return NoFiles::Promised;
        }
        i += 1;
    }
    if types.len() == 0 {
        NoFiles::Empty
    } else {
        NoFiles::OtherContent
    }
}

impl NoFiles {
    /// The explanation, line by line.
    pub open spec fn text(self, lang: Lang) -> Seq<Seq<char>> {
        match self {
            NoFiles::Promised => match lang {
                Lang::Zh => seq![
                    "  剪贴板里是**承诺文件**（promised file）——文件此刻还不存在，"@,
                    "  要等接收方「接受」时才由源 App 写出来。本程序目前不认这种，"@,
                    "  这就是它没被同步的原因。"@,
                ],
                Lang::English => seq![
                    "  The clipboard holds a *promised file* — it does not exist yet and is"@,
                    "  only written by the source app once a receiver accepts it. ClipSync"@,
                    "  does not support these yet, which is why it was not synced."@,
                ],
            },
            NoFiles::Empty => match lang {
                Lang::Zh => seq!["  剪贴板是空的。请先复制文件，再运行本命令。"@],
                Lang::English => seq![
                    "  The clipboard is empty. Copy a file first, then run this again."@,
                ],
            },
            NoFiles::OtherContent => match lang {
                Lang::Zh => seq![
                    "  上面这些类型里没有 public.file-url，说明源 App 放进剪贴板的"@,
                    "  并不是文件引用（可能只是文本或图片）。"@,
                ],
                Lang::English => seq![
                    "  None of the types above is public.file-url, so the source app did not"@,
                    "  put a file reference on the clipboard (probably just text or an image)."@,
                ],
            },
        }
    }

    /// The explanation, line by line.
    pub fn lines(self, lang: Lang) -> (r: Vec<String>)
        ensures
            texts(r@) == self.text(lang),
    {
        let mut r: Vec<String> = Vec::new();
        match self {
            NoFiles::Promised => match lang {
                Lang::Zh => {
                    r.push(copy_of("  剪贴板里是**承诺文件**（promised file）——文件此刻还不存在，"));
                    r.push(copy_of("  要等接收方「接受」时才由源 App 写出来。本程序目前不认这种，"));
                    r.push(copy_of("  这就是它没被同步的原因。"));
                },
                Lang::English => {
                    r.push(
                        copy_of(
                            "  The clipboard holds a *promised file* — it does not exist yet and is",
                        ),
                    );
                    r.push(
                        copy_of(
                            "  only written by the source app once a receiver accepts it. ClipSync",
                        ),
                    );
                    r.push(
                        copy_of("  does not support these yet, which is why it was not synced."),
                    );
                },
            },
            NoFiles::Empty => match lang {
                Lang::Zh => r.push(copy_of("  剪贴板是空的。请先复制文件，再运行本命令。")),
                Lang::English => r.push(
                    copy_of("  The clipboard is empty. Copy a file first, then run this again."),
                ),
            },
            NoFiles::OtherContent => match lang {
                Lang::Zh => {
                    r.push(
                        copy_of("  上面这些类型里没有 public.file-url，说明源 App 放进剪贴板的"),
                    );
                    r.push(copy_of("  并不是文件引用（可能只是文本或图片）。"));
                },
                Lang::English => {
                    r.push(
                        copy_of(
                            "  None of the types above is public.file-url, so the source app did not",
                        ),
                    );
                    r.push(
                        copy_of(
                            "  put a file reference on the clipboard (probably just text or an image).",
                        ),
                    );
                },
            },
        }
        assert(texts(r@) =~= self.text(lang));
        r
    }
}

/// Where this program runs from. Permissions are recorded per program file.
#[derive(Debug, Clone, Copy, PartialEq, Eq, Structural)]
pub enum RunsFrom {
    Bundle,
    /// A copy that the system moved to a place that changes with every start, so that
    /// no permission sticks.
    Translocated,
    /// Not the application's own program file, so that its permissions do not count.
    Elsewhere,
}

/// Where a program with this path runs from.
pub fn runs_from(exe: &str) -> (r: RunsFrom)
    ensures
        r == if has_part(exe@, "/AppTranslocation/"@) {
            RunsFrom::Translocated
        } else if has_part(exe@, ".app/Contents/MacOS/"@) {
            RunsFrom::Bundle
        } else {
            RunsFrom::Elsewhere
        },
{
    let cs = chars_of(exe);
    if contains_part(&cs, "/AppTranslocation/") {
        RunsFrom::Translocated
    } else if contains_part(&cs, ".app/Contents/MacOS/") {
        RunsFrom::Bundle
    } else {
        RunsFrom::Elsewhere
    }
}

/// Where the first line of `s` ends.
pub open spec fn line_end(s: Seq<char>) -> nat
    decreases s.len(),
{
    if s.len() == 0 || s[0] == '\n' {
        0
    } else {
        1 + line_end(s.drop_first())
    }
}

/// The first line that states the designated requirement, in what the signing tool
/// printed.
pub open spec fn requirement_line(s: Seq<char>) -> Option<Seq<char>>
    decreases s.len(),
{
    let n = line_end(s);
    if s.len() == 0 || n > s.len() {
        None
    } else if has_part(s.take(n as int), "designated =>"@) {
        Some(s.take(n as int))
    } else if n < s.len() {
        requirement_line(s.skip(n as int + 1))
    } else {
        None
    }
}

/// `s` without any number of hash marks, each with a blank behind it, in front.
pub open spec fn unhashed(s: Seq<char>) -> Seq<char>
    decreases s.len(),
{
    if s.len() >= 2 && s[0] == '#' && s[1] == ' ' {
        unhashed(s.skip(2))
    } else {
        s
    }
}

fn unhash(cs: Vec<char>) -> (r: Vec<char>)
    ensures
        r@ == unhashed(cs@),
{
    let mut at: usize = 0;
    assert(cs@.skip(0) =~= cs@);
    while cs.len() - at >= 2 && cs[at] == '#' && cs[at + 1] == ' '
        invariant
            at <= cs.len(),
            unhashed(cs@.skip(at as int)) == unhashed(cs@),
        decreases cs.len() - at,
    {
        assert(cs@.skip(at as int).skip(2) =~= cs@.skip(at + 2));
        at += 2;
    }
    let mut r: Vec<char> = Vec::new();
    let mut i: usize = at;
    while i < cs.len()
        invariant
            at <= i <= cs.len(),
            r@ == cs@.subrange(at as int, i as int),
        decreases cs.len() - i,
    {
        r.push(cs[i]);
        i += 1;
    }
    assert(r@ =~= cs@.skip(at as int));
    r
}

/// The designated requirement, in what the signing tool printed.
pub fn designated_requirement(output: &str) -> (r: Option<String>)
    ensures
        match requirement_line(output@) {
            Some(line) => r matches Some(t) && t@ == trimmed(unhashed(trimmed(line))),
            None => r is None,
        },
{
    let cs = chars_of(output);
    let mut at: usize = 0;
    assert(cs@.skip(0) =~= cs@);
    while at < cs.len()
        invariant
            at <= cs.len(),
            requirement_line(cs@.skip(at as int)) == requirement_line(cs@),
            cs@ == output@,
        decreases cs.len() - at,
    {
        let ghost rest = cs@.skip(at as int);
        let mut line: Vec<char> = Vec::new();
        let mut i: usize = at;
        while i < cs.len() && cs[i] != '\n'
            invariant
                at <= i <= cs.len(),
                line@ == cs@.subrange(at as int, i as int),
                rest == cs@.skip(at as int),
                line_end(rest) == i - at + line_end(cs@.skip(i as int)),
            decreases cs.len() - i,
        {
            line.push(cs[i]);
            proof {
                assert(cs@.skip(i as int)[0] == cs@[i as int]);
                assert(cs@.skip(i as int).drop_first() =~= cs@.skip(i + 1));
            }
            i += 1;
        }
        proof {
            if i < cs.len() {
                assert(cs@.skip(i as int)[0] == '\n');
            }
            assert(line_end(rest) == i - at);
            assert(line@ =~= rest.take(i - at));
        }
        if contains_part(&line, "designated =>") {
            let t = trim(&line);
            let t = unhash(t);
            let t = trim(&t);
            return Some(string_of(&t));
        }
        if i >= cs.len() {
            return None;
        }
        proof {
            assert(rest.skip(i - at + 1) =~= cs@.skip(i + 1));
        }
        at = i + 1;
    }
    assert(cs@.skip(at as int).len() == 0);
    None
}

/// Whether permissions are tied to this very program file, so that they end with the next
/// update.
pub fn ends_with_update(requirement: &str) -> (r: bool)
    ensures
        r == has_part(requirement@, "cdhash"@),
{
    let cs = chars_of(requirement);
    contains_part(&cs, "cdhash")
}

/// Whether the user has to be told which permission is missing: looking at the file, or
/// opening it, was denied. The system often allows the one and not the other.
pub fn is_denied(look: Option<bool>, open: Option<bool>) -> (r: bool)
    ensures
        r == (look == Some(true) || open == Some(true)),
{
    let a = match look {
        Some(d) => d,
        None => false,
    };
    let b = match open {
        Some(d) => d,
        None => false,
    };
    a || b
}

/// Each command comes from its own word, and from nothing else.
pub proof fn each_command_has_its_word(args: Seq<String>, c: Command)
    requires
        asks_for(args, c),
    ensures
        c is Sync <==> args.len() == 0,
        c is List <==> args.len() > 0 && args[0]@ == "list"@,
        c is ClipDiag <==> args.len() > 0 && args[0]@ == "clipdiag"@,
        c is Addrs <==> args.len() > 0 && args[0]@ == "addrs"@,
        c is AutostartOn <==> args.len() > 1 && args[0]@ == "autostart"@ && args[1]@ == "on"@,
        c is AutostartOff <==> args.len() > 1 && args[0]@ == "autostart"@ && args[1]@ == "off"@,
        c is PairUsage <==> args.len() == 1 && args[0]@ == "pair"@,
        c is PairHost <==> args.len() > 1 && args[0]@ == "pair"@ && (args[1]@ == "--host"@
            || args[1]@ == "-h"@),
        c is AutostartOn || c is AutostartOff || c is AutostartStatus <==> args.len() > 0
            && args[0]@ == "autostart"@,
        c matches Command::Unknown(word) ==> word == args[0],
{
    reveal_strlit("pair");
    reveal_strlit("list");
    reveal_strlit("clipdiag");
    reveal_strlit("addrs");
    reveal_strlit("autostart");
    reveal_strlit("on");
    reveal_strlit("off");
    if args.len() > 0 {
        let w = args[0]@;
        assert(w == "list"@ ==> w.len() == 4 && w[0] == 'l');
        assert(w == "pair"@ ==> w.len() == 4 && w[0] == 'p');
        assert(w == "clipdiag"@ ==> w.len() == 8);
        assert(w == "addrs"@ ==> w.len() == 5);
        assert(w == "autostart"@ ==> w.len() == 9);
    }
}

/// Both orders join the same host: a code with the host behind an `@`, and the host and then
/// the code, as long as the host is no code itself.
pub proof fn both_orders_join_the_same_host(
    code: Seq<char>,
    host: Seq<char>,
    a: Seq<String>,
    b: Seq<String>,
    c: Command,
    d: Command,
)
    requires
        four_digits(code),
        host.len() > 0,
        trimmed(host) == host,
        forall|i: int| 0 <= i < host.len() ==> #[trigger] host[i] != '@',
        pairing_input(host) is None,
        host != "--host"@ && host != "-h"@,
        a.len() == 2 && a[0]@ == "pair"@ && a[1]@ == code + "@"@ + host,
        b.len() == 3 && b[0]@ == "pair"@ && b[1]@ == host && b[2]@ == code,
        asks_for(a, c),
        asks_for(b, d),
    ensures
        c matches Command::PairJoin { code: x, host: y } && x@ == code && (y matches Some(h) && h@
            == host),
        d matches Command::PairJoin { code: x, host: y } && x@ == code && (y matches Some(h) && h@
            == host),
{
    reveal_strlit("--host");
    reveal_strlit("-h");
    reveal_strlit("@");
    code_with_address_reads_back(code, host);
    let s = a[1]@;
    assert(s[0] == code[0]);
    assert('0' <= code[0] <= '9');
    assert(s != "--host"@ && s != "-h"@);
}

/// An address is written in front of its description, with blanks between them, so that the
/// descriptions stand below each other.
pub proof fn addresses_stand_in_a_column(s: Seq<char>)
    ensures
        filled(s).len() >= 42,
        s.len() <= 42 ==> filled(s).len() == 42,
        filled(s).take(s.len() as int) == s,
        forall|i: int| s.len() <= i < filled(s).len() ==> #[trigger] filled(s)[i] == ' ',
{
    assert(filled(s).take(s.len() as int) =~= s);
}

/// Every paired device is listed with its name and its id, and below that with every one of
/// its addresses. The result is the line that it stands in.
pub proof fn every_device_is_listed(list: Seq<Listed>, lang: Lang, i: int) -> (at: int)
    requires
        0 <= i < list.len(),
    ensures
        0 < at,
        at + list[i].addrs@.len() < listing(list, lang).len(),
        listing(list, lang)[at] == "  - "@ + list[i].name@ + " ("@ + list[i].device@ + ")"@,
        forall|k: int|
            0 <= k < list[i].addrs@.len() ==> #[trigger] listing(list, lang)[at + 1 + k]
                == "      "@ + list[i].addrs@[k]@,
{
    let at = lemma_device_listed(list, i);
    let all = all_device_lines(list);
    let full = listing(list, lang);
    assert forall|k: int| 0 <= k < list[i].addrs@.len() implies #[trigger] full[at + 1 + 1 + k]
        == "      "@ + list[i].addrs@[k]@ by {
        assert(full[at + 1 + 1 + k] == all[at + 1 + k]);
    }
    at + 1
}

proof fn lemma_device_listed(list: Seq<Listed>, i: int) -> (at: int)
    requires
        0 <= i < list.len(),
    ensures
        0 <= at,
        at + list[i].addrs@.len() < all_device_lines(list).len(),
        all_device_lines(list)[at] == "  - "@ + list[i].name@ + " ("@ + list[i].device@ + ")"@,
        forall|k: int|
            0 <= k < list[i].addrs@.len() ==> #[trigger] all_device_lines(list)[at + 1 + k]
                == "      "@ + list[i].addrs@[k]@,
    decreases list.len(),
{
    let t = list.drop_last();
    let before = all_device_lines(t);
    let all = all_device_lines(list);
    if i == list.len() - 1 {
        let d = list[i];
        let own = device_lines(d);
        let n = before.len() as int;
        assert(all[n] == own[0]);
        assert forall|k: int| 0 <= k < d.addrs@.len() implies #[trigger] all[n + 1 + k]
            == "      "@ + d.addrs@[k]@ by {
            assert(all[n + 1 + k] == own[1 + k]);
        }
        n
    } else {
        assert(t[i] == list[i]);
        let at = lemma_device_listed(t, i);
        assert forall|k: int| 0 <= k < list[i].addrs@.len() implies #[trigger] all[at + 1 + k]
            == "      "@ + list[i].addrs@[k]@ by {
            assert(all[at + 1 + k] == before[at + 1 + k]);
        }
        at
    }
}

/// `[i, j)` is a line of `s`.
pub open spec fn is_line(s: Seq<char>, i: int, j: int) -> bool {
    &&& 0 <= i <= j <= s.len()
    &&& i == 0 || s[i - 1] == '\n'
    &&& j == s.len() || s[j] == '\n'
    &&& forall|x: int| i <= x < j ==> #[trigger] s[x] != '\n'
}

proof fn lemma_line_end(s: Seq<char>)
    ensures
        is_line(s, 0, line_end(s) as int),
    decreases s.len(),
{
    if s.len() > 0 && s[0] != '\n' {
        let t = s.drop_first();
        lemma_line_end(t);
        let n = line_end(s) as int;
        assert forall|x: int| 0 <= x < n implies #[trigger] s[x] != '\n' by {
            if x > 0 {
                assert(t[x - 1] != '\n');
            }
        }
        if n < s.len() {
            assert(t[n - 1] == '\n');
        }
    }
}

proof fn lemma_line_of_rest(s: Seq<char>, n: int, i: int, j: int)
    requires
        is_line(s, 0, n),
        n < s.len(),
    ensures
        i > n ==> is_line(s, i, j) == is_line(s.skip(n + 1), i - n - 1, j - n - 1),
        i <= n && is_line(s, i, j) ==> i == 0 && j == n,
        i > n && is_line(s, i, j) ==> s.subrange(i, j) == s.skip(n + 1).subrange(
            i - n - 1,
            j - n - 1,
        ),
{
    let t = s.skip(n + 1);
    let (a, b) = (i - n - 1, j - n - 1);
    if i > n {
        if is_line(s, i, j) {
            assert forall|x: int| a <= x < b implies #[trigger] t[x] != '\n' by {
                assert(s[x + n + 1] != '\n');
            }
            assert(is_line(t, a, b));
            assert(s.subrange(i, j) =~= t.subrange(a, b));
        }
        if is_line(t, a, b) {
            assert forall|x: int| i <= x < j implies #[trigger] s[x] != '\n' by {
                assert(t[x - n - 1] != '\n');
            }
            if a > 0 {
                assert(t[a - 1] == s[i - 1]);
            }
            if b < t.len() {
                assert(t[b] == s[j]);
            }
            assert(is_line(s, i, j));
        }
    } else if is_line(s, i, j) {
        if i > 0 {
            assert(s[i - 1] != '\n');
        }
        if j < n {
            assert(s[j] != '\n');
        }
        if n < j {
            assert(s[n] != '\n');
        }
    }
}

/// The requirement is read off the first line that states one; there is none only where no
/// line does. The result is where that line stands.
pub proof fn the_first_requirement_counts(s: Seq<char>) -> (at: (int, int))
    ensures
        match requirement_line(s) {
            Some(line) => {
                &&& is_line(s, at.0, at.1)
                &&& line == s.subrange(at.0, at.1)
                &&& has_part(line, "designated =>"@)
                &&& forall|i: int, j: int| #[trigger]
                    is_line(s, i, j) && i < at.0 ==> !has_part(
                        s.subrange(i, j),
                        "designated =>"@,
                    )
            },
            None => forall|i: int, j: int| #[trigger]
                is_line(s, i, j) ==> !has_part(s.subrange(i, j), "designated =>"@),
        },
    decreases s.len(),
{
    reveal_strlit("designated =>");
    let part = "designated =>"@;
    let n = line_end(s) as int;
    lemma_line_end(s);
    assert(s.take(n) =~= s.subrange(0, n));
    if s.len() == 0 {
        assert forall|i: int, j: int| #[trigger] is_line(s, i, j) implies !has_part(
            s.subrange(i, j),
            part,
        ) by {
            assert(s.subrange(i, j).len() == 0);
        }
        (0, 0)
    } else if has_part(s.take(n), part) {
        (0, n)
    } else if n < s.len() {
        let t = s.skip(n + 1);
        let (a, b) = the_first_requirement_counts(t);
        let (x, y) = (a + n + 1, b + n + 1);
        if requirement_line(t) is Some {
            lemma_line_of_rest(s, n, x, y);
            assert(is_line(s, x, y));
            assert forall|i: int, j: int| #[trigger] is_line(s, i, j) && i < x implies !has_part(
                s.subrange(i, j),
                part,
            ) by {
                lemma_line_of_rest(s, n, i, j);
                if i > n {
                    assert(is_line(t, i - n - 1, j - n - 1));
                }
            }
        } else {
            assert forall|i: int, j: int| #[trigger] is_line(s, i, j) implies !has_part(
                s.subrange(i, j),
                part,
            ) by {
                lemma_line_of_rest(s, n, i, j);
                if i > n {
                    assert(is_line(t, i - n - 1, j - n - 1));
                }
            }
        }
        (x, y)
    } else {
        assert forall|i: int, j: int| #[trigger] is_line(s, i, j) implies !has_part(
            s.subrange(i, j),
            part,
        ) by {
            if i > 0 {
                assert(s[i - 1] != '\n');
            }
            if j < n {
                assert(s[j] != '\n');
            }
        }
        (0, n)
    }
}

/// A hash mark with a blank behind it is left out in front, however many there are; anything
/// else stays.
pub proof fn hash_marks_are_left_out(s: Seq<char>)
    ensures
        unhashed(seq!['#', ' '] + s) == unhashed(s),
        !(s.len() >= 2 && s[0] == '#' && s[1] == ' ') ==> unhashed(s) == s,
{
    assert((seq!['#', ' '] + s).skip(2) =~= s);
}

/// An address is described by the kind of network that it belongs to.
pub proof fn addresses_are_described_by_their_network(a: u32, b: u128, lang: Lang)
    ensures
        private(a) ==> description(Ip::V4(a), lang) == match lang {
            Lang::Zh => "局域网/私有网段"@,
            Lang::English => "LAN / private range"@,
        },
        cgnat(a) ==> description(Ip::V4(a), lang) == match lang {
            Lang::Zh => "覆盖网段 (100.64/10 CGNAT，Tailscale 等常用)"@,
            Lang::English => "overlay network (100.64/10 CGNAT, used by Tailscale and others)"@,
        },
        !private(a) && !cgnat(a) ==> description(Ip::V4(a), lang) == match lang {
            Lang::Zh => "公网地址"@,
            Lang::English => "public address"@,
        },
        0xfc00_0000_0000_0000_0000_0000_0000_0000 <= b < 0xfe00_0000_0000_0000_0000_0000_0000_0000
            ==> description(Ip::V6(b), lang) == match lang {
            Lang::Zh => "覆盖网段 (IPv6 ULA)"@,
            Lang::English => "overlay network (IPv6 ULA)"@,
        },
        !(0xfc00_0000_0000_0000_0000_0000_0000_0000 <= b
            < 0xfe00_0000_0000_0000_0000_0000_0000_0000) ==> description(Ip::V6(b), lang)
            == match lang {
            Lang::Zh => "公网 IPv6"@,
            Lang::English => "public IPv6"@,
        },
{
}

} // verus!
