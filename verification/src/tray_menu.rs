//! What the tray menu says.
//!
//! Labels are short and carry the current value. The words are the library's, so that
//! two languages cannot drift apart unnoticed.

use vstd::arithmetic::div_mod::{lemma_fundamental_div_mod, lemma_mod_bound};
use vstd::arithmetic::power2::pow2;
use vstd::prelude::*;
use vstd::string::*;

use crate::binary64::{nearest, round_half_even, whole, whole_number_is_exact};
use crate::language::Lang;
use crate::rate::rounded_u64;
use crate::text::{copy_of, decimal, decimal_of, two_digits, two_digits_of};
use crate::tray_text::{ellipsize_middle, ellipsized};

verus! {

/// The units that sizes are shown in.
#[derive(Debug, Clone, Copy, PartialEq, Eq, Structural)]
pub enum SizeUnit {
    B,
    KiB,
    MiB,
    GiB,
}

impl SizeUnit {
    /// The unit that a size is shown in: the largest one that it reaches.
    pub open spec fn of(n: nat) -> SizeUnit {
        if n >= 0x4000_0000 {
            SizeUnit::GiB
        } else if n >= 0x10_0000 {
            SizeUnit::MiB
        } else if n >= 0x400 {
            SizeUnit::KiB
        } else {
            SizeUnit::B
        }
    }

    /// The bytes of one unit.
    pub open spec fn bytes(self) -> nat {
        match self {
            SizeUnit::B => 1,
            SizeUnit::KiB => 0x400,
            SizeUnit::MiB => 0x10_0000,
            SizeUnit::GiB => 0x4000_0000,
        }
    }

    pub open spec fn text(self) -> Seq<char> {
        match self {
            SizeUnit::B => "B"@,
            SizeUnit::KiB => "KiB"@,
            SizeUnit::MiB => "MiB"@,
            SizeUnit::GiB => "GiB"@,
        }
    }

    /// The unit's name.
    pub fn name(self) -> (r: &'static str)
        ensures
            r@ == self.text(),
    {
        match self {
            SizeUnit::B => "B",
            SizeUnit::KiB => "KiB",
            SizeUnit::MiB => "MiB",
            SizeUnit::GiB => "GiB",
        }
    }
}

/// A size in its unit, the unit left out: with one decimal place, or with none where
/// the size is less than a twentieth above a whole number of units.
///
/// The size is taken as a double, and the decimal place is rounded half to even.
pub open spec fn size_value(n: nat) -> Seq<char> {
    let u = SizeUnit::of(n).bytes();
    let v = whole(nearest(n, 1));
    if u == 1 {
        decimal(n)
    } else if 20 * (v % u) < u {
        decimal(v / u)
    } else {
        let tenths = round_half_even(10 * v, u);
        decimal(tenths / 10) + "."@ + decimal(tenths % 10)
    }
}

/// A size as people read it, such as `1.5 GiB`.
pub open spec fn size_text(n: nat) -> Seq<char> {
    size_value(n) + " "@ + SizeUnit::of(n).text()
}

/// A size in its unit, and the unit.
pub fn human_parts(n: u64) -> (r: (String, SizeUnit))
    ensures
        r.0@ == size_value(n as nat),
        r.1 == SizeUnit::of(n as nat),
{
    let (unit, u): (SizeUnit, u128) = if n >= 0x4000_0000 {
        (SizeUnit::GiB, 0x4000_0000)
    } else if n >= 0x10_0000 {
        (SizeUnit::MiB, 0x10_0000)
    } else if n >= 0x400 {
        (SizeUnit::KiB, 0x400)
    } else {
        return (decimal_of(n), SizeUnit::B);
    };
    let v: u128 = rounded_u64(n);
    let whole_part: u128 = v / u;
    let rest: u128 = v % u;
    if 20 * rest < u {
        return (decimal_of(whole_part as u64), unit);
    }
    let w: u128 = 10 * v;
    let f: u128 = w / u;
    let r: u128 = w % u;
    let tenths: u64 = if 2 * r < u || (2 * r == u && f % 2 == 0) {
        f as u64
    } else {
        (f + 1) as u64
    };
    let mut s = decimal_of(tenths / 10);
    s.append(".");
    s.append(decimal_of(tenths % 10).as_str());
    (s, unit)
}

/// A size as people read it.
pub fn human_bytes(n: u64) -> (r: String)
    ensures
        r@ == size_text(n as nat),
{
    let (mut s, unit) = human_parts(n);
    s.append(" ");
    s.append(unit.name());
    s
}

/// The label of the automatic fetch limit; the largest value stands for no limit.
pub open spec fn auto_fetch_text(v: usize, lang: Lang) -> Seq<char> {
    if v == usize::MAX {
        match lang {
            Lang::Zh => "自动取回：不限…"@,
            Lang::English => "Auto-fetch: unlimited…"@,
        }
    } else {
        match lang {
            Lang::Zh => "自动取回："@ + size_text(v as nat) + "…"@,
            Lang::English => "Auto-fetch: "@ + size_text(v as nat) + "…"@,
        }
    }
}

/// The label of the automatic fetch limit.
pub fn auto_fetch_label(v: usize, lang: Lang) -> (r: String)
    ensures
        r@ == auto_fetch_text(v, lang),
{
    if v == usize::MAX {
        return match lang {
            Lang::Zh => copy_of("自动取回：不限…"),
            Lang::English => copy_of("Auto-fetch: unlimited…"),
        };
    }
    let mut s = match lang {
        Lang::Zh => copy_of("自动取回："),
        Lang::English => copy_of("Auto-fetch: "),
    };
    s.append(human_bytes(v as u64).as_str());
    s.append("…");
    s
}

/// The label of the files waiting to be fetched: the first one's name, how many there
/// are, and how large they are together.
pub open spec fn fetch_text(first: Seq<char>, count: nat, total: nat, lang: Lang) -> Seq<char> {
    let name = ellipsized(first);
    match lang {
        Lang::Zh => if count > 1 {
            "取回 "@ + name + " 等 "@ + decimal(count) + " 个（"@ + size_text(total) + "）"@
        } else {
            "取回 "@ + name + "（"@ + size_text(total) + "）"@
        },
        Lang::English => if count > 1 {
            "Fetch "@ + name + " and "@ + decimal((count - 1) as nat) + " more ("@ + size_text(total)
                + ")"@
        } else {
            "Fetch "@ + name + " ("@ + size_text(total) + ")"@
        },
    }
}

/// The label of the files waiting to be fetched.
pub fn fetch_label(first_name: &str, count: usize, total: u64, lang: Lang) -> (r: String)
    ensures
        r@ == fetch_text(first_name@, count as nat, total as nat, lang),
{
    let name = ellipsize_middle(first_name);
    let size = human_bytes(total);
    match lang {
        Lang::Zh => {
            let mut s = copy_of("取回 ");
            s.append(name.as_str());
            if count > 1 {
                s.append(" 等 ");
                s.append(decimal_of(count as u64).as_str());
                s.append(" 个（");
            } else {
                s.append("（");
            }
            s.append(size.as_str());
            s.append("）");
            s
        },
        Lang::English => {
            let mut s = copy_of("Fetch ");
            s.append(name.as_str());
            if count > 1 {
                s.append(" and ");
                s.append(decimal_of((count - 1) as u64).as_str());
                s.append(" more (");
            } else {
                s.append(" (");
            }
            s.append(size.as_str());
            s.append(")");
            s
        },
    }
}

/// The label of the upload limit; zero stands for no limit.
pub open spec fn rate_text(v: u64, lang: Lang) -> Seq<char> {
    if v == 0 {
        match lang {
            Lang::Zh => "发送限速：不限…"@,
            Lang::English => "Upload limit: unlimited…"@,
        }
    } else {
        match lang {
            Lang::Zh => "发送限速："@ + size_text(v as nat) + "/s…"@,
            Lang::English => "Upload limit: "@ + size_text(v as nat) + "/s…"@,
        }
    }
}

/// The label of the upload limit.
pub fn rate_label(v: u64, lang: Lang) -> (r: String)
    ensures
        r@ == rate_text(v, lang),
{
    if v == 0 {
        return match lang {
            Lang::Zh => copy_of("发送限速：不限…"),
            Lang::English => copy_of("Upload limit: unlimited…"),
        };
    }
    let mut s = match lang {
        Lang::Zh => copy_of("发送限速："),
        Lang::English => copy_of("Upload limit: "),
    };
    s.append(human_bytes(v).as_str());
    s.append("/s…");
    s
}

/// The label of the port.
pub open spec fn port_text(port: u16, lang: Lang) -> Seq<char> {
    match lang {
        Lang::Zh => "同步端口："@ + decimal(port as nat) + "…"@,
        Lang::English => "Sync port: "@ + decimal(port as nat) + "…"@,
    }
}

/// The label of the port.
pub fn port_label(port: u16, lang: Lang) -> (r: String)
    ensures
        r@ == port_text(port, lang),
{
    let mut s = match lang {
        Lang::Zh => copy_of("同步端口："),
        Lang::English => copy_of("Sync port: "),
    };
    s.append(decimal_of(port as u64).as_str());
    s.append("…");
    s
}

/// The minutes and seconds of a countdown.
pub open spec fn countdown_text(secs: u64) -> Seq<char> {
    decimal((secs / 60) as nat) + ":"@ + two_digits((secs % 60) as nat)
}

/// The label of the pairing entry: an entry point, or the live code and the minutes and
/// seconds it has left.
pub open spec fn pairing_text(live: Option<(String, u64)>, lang: Lang) -> Seq<char> {
    match live {
        Some((code, secs)) => live_text(code@, secs, lang),
        None => match lang {
            Lang::Zh => "显示配对码…"@,
            Lang::English => "Show pairing code…"@,
        },
    }
}

/// The live code and the time it has left.
pub open spec fn live_text(code: Seq<char>, secs: u64, lang: Lang) -> Seq<char> {
    match lang {
        Lang::Zh => "配对码 "@ + code + " · 剩 "@ + countdown_text(secs),
        Lang::English => "Code "@ + code + " · "@ + countdown_text(secs) + " left"@,
    }
}

/// The label of the pairing entry.
pub fn pairing_label(live: Option<(&str, u64)>, lang: Lang) -> (r: String)
    ensures
        match live {
            Some((code, secs)) => r@ == live_text(code@, secs, lang),
            None => r@ == pairing_text(None, lang),
        },
{
    match live {
        Some((code, secs)) => {
            let mut s = match lang {
                Lang::Zh => copy_of("配对码 "),
                Lang::English => copy_of("Code "),
            };
            s.append(code);
            match lang {
                Lang::Zh => s.append(" · 剩 "),
                Lang::English => s.append(" · "),
            }
            let mut left = decimal_of(secs / 60);
            left.append(":");
            left.append(two_digits_of(secs % 60).as_str());
            s.append(left.as_str());
            match lang {
                Lang::Zh => {},
                Lang::English => s.append(" left"),
            }
            s
        },
        None => match lang {
            Lang::Zh => copy_of("显示配对码…"),
            Lang::English => copy_of("Show pairing code…"),
        },
    }
}

/// The label of the language entry. Each language is called by its own name, for the
/// entry serves those who cannot read the current one.
pub fn language_label(lang: Lang) -> (r: String)
    ensures
        r@ == match lang {
            Lang::Zh => "语言：中文…"@,
            Lang::English => "Language: English…"@,
        },
{
    match lang {
        Lang::Zh => copy_of("语言：中文…"),
        Lang::English => copy_of("Language: English…"),
    }
}

/// The id that the "leave the group" entry stands under in the device menu. Device ids
/// are hexadecimal, so that none equals it.
pub const LEAVE_GROUP_ID: &'static str = "\u{1}leave-group";

/// A paired device as the menu shows it.
#[derive(Debug)]
pub struct TrayPeer {
    pub device: String,
    pub name: String,
    pub online: bool,
    /// Who vouched for the device, where it was not paired by hand.
    pub introduced_by: Option<String>,
}

/// A line of the device menu.
#[derive(Debug)]
pub enum PeerRow {
    /// A line that cannot be clicked.
    Hint(String),
    /// A line that stands for `id`.
    Item { label: String, id: String },
    Separator,
}

/// A device's label: whether it is connected, its name, and who vouched for it.
pub open spec fn peer_text(p: TrayPeer, lang: Lang) -> Seq<char> {
    let head = (if p.online {
        "●"@
    } else {
        "○"@
    }) + " "@ + p.name@;
    match p.introduced_by {
        Some(by) => match lang {
            Lang::Zh => head + "（经 "@ + by@ + "）"@,
            Lang::English => head + " (via "@ + by@ + ")"@,
        },
        None => head,
    }
}

/// A device's label.
pub fn peer_label(p: &TrayPeer, lang: Lang) -> (r: String)
    ensures
        r@ == peer_text(*p, lang),
{
    let mut s = if p.online {
        copy_of("●")
    } else {
        copy_of("○")
    };
    s.append(" ");
    s.append(p.name.as_str());
    match &p.introduced_by {
        Some(by) => match lang {
            Lang::Zh => {
                s.append("（经 ");
                s.append(by.as_str());
                s.append("）");
            },
            Lang::English => {
                s.append(" (via ");
                s.append(by.as_str());
                s.append(")");
            },
        },
        None => {},
    }
    s
}

/// `row` is the line of the device `p`.
pub open spec fn is_peer_row(row: PeerRow, p: TrayPeer, lang: Lang) -> bool {
    row matches PeerRow::Item { label, id } && label@ == peer_text(p, lang) && id == p.device
}

/// The device menu, from top to bottom: one line per device, then, set apart, the way
/// out of the group. With no devices, one line that says so.
pub fn rebuild_peer_menu(peers: &Vec<TrayPeer>, lang: Lang) -> (r: Vec<PeerRow>)
    ensures
        peers@.len() == 0 ==> {
            &&& r@.len() == 1
            &&& r@[0] matches PeerRow::Hint(s) && s@ == match lang {
                Lang::Zh => "（尚未配对）"@,
                Lang::English => "(no paired devices)"@,
            }
        },
        peers@.len() > 0 ==> {
            let n = peers@.len() as int;
            &&& r@.len() == n + 2
            &&& forall|i: int| 0 <= i < n ==> is_peer_row(#[trigger] r@[i], peers@[i], lang)
            &&& r@[n] is Separator
            &&& r@[n + 1] matches PeerRow::Item { label, id } && id@ == LEAVE_GROUP_ID@ && label@
                == match lang {
                Lang::Zh => "退出设备组…"@,
                Lang::English => "Leave device group…"@,
            }
        },
{
    let mut r: Vec<PeerRow> = Vec::new();
    if peers.len() == 0 {
        r.push(
            PeerRow::Hint(
                match lang {
                    Lang::Zh => copy_of("（尚未配对）"),
                    Lang::English => copy_of("(no paired devices)"),
                },
            ),
        );
        return r;
    }
    let mut i: usize = 0;
    while i < peers.len()
        invariant
            i <= peers.len(),
            r@.len() == i,
            forall|k: int| 0 <= k < i ==> is_peer_row(#[trigger] r@[k], peers@[k], lang),
        decreases peers.len() - i,
    {
        r.push(PeerRow::Item { label: peer_label(&peers[i], lang), id: peers[i].device.clone() });
        i += 1;
    }
    r.push(PeerRow::Separator);
    r.push(
        PeerRow::Item {
            label: match lang {
                Lang::Zh => copy_of("退出设备组…"),
                Lang::English => copy_of("Leave device group…"),
            },
            id: copy_of(LEAVE_GROUP_ID),
        },
    );
    r
}

/// A size is shown in the largest of the four units that it reaches.
pub proof fn units_fit_the_size(n: nat)
    ensures
        SizeUnit::of(n) is B <==> n < 1024,
        SizeUnit::of(n) is KiB <==> 1024 <= n < 1024 * 1024,
        SizeUnit::of(n) is MiB <==> 1024 * 1024 <= n < 1024 * 1024 * 1024,
        SizeUnit::of(n) is GiB <==> 1024 * 1024 * 1024 <= n,
{
}

/// Up to `2^53` bytes, a shown size is off by half a tenth of its unit at most. The result
/// is the number of tenths shown; bytes are not split.
pub proof fn shown_sizes_are_close(n: nat) -> (tenths: nat)
    requires
        1024 <= n < pow2(53),
    ensures
        ({
            let u: nat = if n < 1024 * 1024 {
                1024
            } else if n < 1024 * 1024 * 1024 {
                1024 * 1024
            } else {
                1024 * 1024 * 1024
            };
            &&& 2 * (tenths * u) <= 2 * (10 * n) + u
            &&& 2 * (10 * n) <= 2 * (tenths * u) + u
            &&& if tenths % 10 == 0 && 20 * (n % u) < u {
                size_value(n) == decimal(tenths / 10)
            } else {
                size_value(n) == decimal(tenths / 10) + "."@ + decimal(tenths % 10)
            }
        }),
{
    whole_number_is_exact(n);
    let u = SizeUnit::of(n).bytes();
    lemma_fundamental_div_mod(n as int, u as int);
    if 20 * (n % u) < u {
        let tenths = 10 * (n / u);
        assert(tenths * u == 10 * (u * (n / u))) by (nonlinear_arith)
            requires
                tenths == 10 * (n / u),
        ;
        tenths
    } else {
        let w = 10 * n;
        lemma_fundamental_div_mod(w as int, u as int);
        lemma_mod_bound(w as int, u as int);
        let f = w / u;
        let t = round_half_even(w, u);
        assert(f * u == u * f) by (nonlinear_arith);
        assert((f + 1) * u == f * u + u) by (nonlinear_arith);
        t
    }
}

/// Fewer than 1024 bytes are shown to the byte.
pub proof fn small_sizes_are_exact(n: nat)
    requires
        n < 1024,
    ensures
        size_text(n) == decimal(n) + " "@ + "B"@,
{
}

/// A countdown is in minutes and seconds, the seconds in two digits.
pub proof fn countdowns_are_minutes_and_seconds(minutes: u64, secs: u64)
    requires
        secs < 60,
        60 * minutes + secs <= u64::MAX,
    ensures
        countdown_text((60 * minutes + secs) as u64) == decimal(minutes as nat) + ":"@ + two_digits(
            secs as nat,
        ),
{
}

/// A device's line starts with a filled dot exactly where it is connected, and shows the
/// device's name behind it.
pub proof fn lines_tell_who_is_online(p: TrayPeer, lang: Lang)
    ensures
        peer_text(p, lang).len() >= 2 + p.name@.len(),
        peer_text(p, lang)[0] == '●' <==> p.online,
        peer_text(p, lang).subrange(2, 2 + p.name@.len() as int) == p.name@,
        p.introduced_by is None ==> peer_text(p, lang).len() == 2 + p.name@.len(),
        p.introduced_by matches Some(by) ==> exists|a: Seq<char>, b: Seq<char>|
            peer_text(p, lang) == #[trigger] (a + by@ + b) && a.len() > 2 + p.name@.len(),
{
    reveal_strlit("●");
    reveal_strlit("○");
    reveal_strlit(" ");
    let head = (if p.online {
        "●"@
    } else {
        "○"@
    }) + " "@ + p.name@;
    let t = peer_text(p, lang);
    assert(head.subrange(2, 2 + p.name@.len() as int) =~= p.name@);
    if let Some(by) = p.introduced_by {
        reveal_strlit("（经 ");
        reveal_strlit(" (via ");
        let (a, b) = match lang {
            Lang::Zh => (head + "（经 "@, "）"@),
            Lang::English => (head + " (via "@, ")"@),
        };
        assert(t == a + by@ + b);
        assert(a.len() > 2 + p.name@.len());
    }
    assert(t.subrange(2, 2 + p.name@.len() as int) =~= p.name@);
}

/// The live code is legible in its line, whatever the language.
pub proof fn the_live_code_is_legible(code: Seq<char>, secs: u64, lang: Lang)
    ensures
        exists|a: Seq<char>, b: Seq<char>| live_text(code, secs, lang) == #[trigger] (a + code + b),
{
    match lang {
        Lang::Zh => {
            let (a, b) = ("配对码 "@, " · 剩 "@ + countdown_text(secs));
            assert(live_text(code, secs, lang) =~= a + code + b);
        },
        Lang::English => {
            let (a, b) = ("Code "@, " · "@ + countdown_text(secs) + " left"@);
            assert(live_text(code, secs, lang) =~= a + code + b);
        },
    }
}

/// The labels of the limits and of the port carry the value, in the same words whatever it
/// is. The results are the words before and behind it.
pub proof fn labels_carry_the_value(v: usize, w: u64, port: u16, lang: Lang) -> (r: (
    (Seq<char>, Seq<char>),
    (Seq<char>, Seq<char>),
    (Seq<char>, Seq<char>),
))
    ensures
        v != usize::MAX ==> auto_fetch_text(v, lang) == (r.0).0 + size_text(v as nat) + (r.0).1,
        w != 0 ==> rate_text(w, lang) == (r.1).0 + size_text(w as nat) + (r.1).1,
        port_text(port, lang) == (r.2).0 + decimal(port as nat) + (r.2).1,
        r == match lang {
            Lang::Zh => (("自动取回："@, "…"@), ("发送限速："@, "/s…"@), ("同步端口："@, "…"@)),
            Lang::English => (
                ("Auto-fetch: "@, "…"@),
                ("Upload limit: "@, "/s…"@),
                ("Sync port: "@, "…"@),
            ),
        },
{
    match lang {
        Lang::Zh => (("自动取回："@, "…"@), ("发送限速："@, "/s…"@), ("同步端口："@, "…"@)),
        Lang::English => (
            ("Auto-fetch: "@, "…"@),
            ("Upload limit: "@, "/s…"@),
            ("Sync port: "@, "…"@),
        ),
    }
}

/// The fetch entry names the first file, says how many there are or how many more there are,
/// and how large they are together. The results are the words between those.
pub proof fn the_fetch_entry_counts_the_files(
    first: Seq<char>,
    count: nat,
    total: nat,
    lang: Lang,
) -> (r: (Seq<char>, Seq<char>, Seq<char>, Seq<char>))
    requires
        count > 1,
    ensures
        fetch_text(first, count, total, lang) == r.0 + ellipsized(first) + r.1 + decimal(
            match lang {
                Lang::Zh => count,
                Lang::English => (count - 1) as nat,
            },
        ) + r.2 + size_text(total) + r.3,
        fetch_text(first, 1, total, lang).len() == r.0.len() + ellipsized(first).len() + size_text(
            total,
        ).len() + r.3.len() + match lang {
            Lang::Zh => 1int,
            Lang::English => 2int,
        },
{
    reveal_strlit("（");
    reveal_strlit(" (");
    match lang {
        Lang::Zh => ("取回 "@, " 等 "@, " 个（"@, "）"@),
        Lang::English => ("Fetch "@, " and "@, " more ("@, ")"@),
    }
}

/// A device's line stands for that device and no other.
pub proof fn lines_stand_for_their_device(row: PeerRow, p: TrayPeer, lang: Lang)
    requires
        is_peer_row(row, p, lang),
    ensures
        row matches PeerRow::Item { label, id } && id@ == p.device@ && label@ == peer_text(p, lang),
{
}

} // verus!
