//! The state that the tray shows.
//!
//! Times are nanoseconds since the program started. A transfer counts as running while
//! chunks keep coming; nobody has to remember to end it.

use vstd::arithmetic::power2::pow2;
use vstd::prelude::*;
use vstd::string::*;

use crate::binary64::{nearest, round_half_even, whole};
use crate::known_peers::{has_device, lemma_device_at, lemma_without_device, with_peer, without_device, KnownPeers};
use crate::language::Lang;
use crate::rate::{bytes_per_second, rate, steady_rates_are_exact};
use crate::text::{copy_of, decimal, decimal_of, lemma_decimal_digits, lemma_occurrences_concat, lemma_occurrences_none, occurrences, str_eq};
use crate::tray_menu::{human_bytes, size_text, size_value, SizeUnit};
use crate::tray_text::{bytes_pair, ellipsize_middle, ellipsized, fit_chars, fitted, pair_text, percent, percent_of, shortened_names_have_one_width, NAME_HEAD, NAME_TAIL, TOOLTIP_MAX_CHARS};
use crate::types::KnownPeer;

verus! {

/// How long after the last chunk a transfer still counts as running, in milliseconds.
pub const TRANSFER_LINGER_MS: u64 = 1_500;

/// How often a transfer's progress goes to the log.
pub const PROGRESS_LOG_INTERVAL_NS: u64 = 10_000_000_000;

/// How far back the shown rate reaches.
pub const RATE_WINDOW_NS: u64 = 3_000_000_000;

/// How long a rate has to be measured before it is shown.
pub const RATE_SETTLE_NS: u64 = 500_000_000;

/// A file on its way.
#[derive(Debug, Clone, PartialEq, Eq)]
pub struct TransferProgress {
    /// Whether the file leaves this device.
    pub sending: bool,
    pub name: String,
    pub done: u64,
    pub total: u64,
}

/// Files that wait for the user to fetch them, as the tray shows them.
#[derive(Debug, Clone, PartialEq, Eq)]
pub struct PendingFetchInfo {
    /// The device they come from.
    pub from: String,
    pub first_name: String,
    pub count: usize,
    pub total: u64,
}

impl PendingFetchInfo {
    /// A copy.
    pub fn dup(&self) -> (r: PendingFetchInfo)
        ensures
            r == *self,
    {
        PendingFetchInfo {
            from: self.from.clone(),
            first_name: self.first_name.clone(),
            count: self.count,
            total: self.total,
        }
    }
}

/// A transfer, and the point from which its rate is measured.
pub struct ProgressState {
    pub p: TransferProgress,
    pub since: u64,
    pub since_bytes: u64,
    pub logged: u64,
}

/// How many devices are connected and paired.
#[derive(Debug, Clone, Copy, PartialEq, Eq, Structural)]
pub struct StatusData {
    pub connected: usize,
    pub paired: usize,
}

/// The state that the tray shows. How many devices are paired is no part of it: whoever
/// reads the state hands in the table of devices, so that there is one such number and not
/// two that may come apart.
pub struct TrayStatus {
    pub connected: Vec<String>,
    pub paused: bool,
    pub hub_dead: bool,
    pub progress: Option<ProgressState>,
    pub waiting: Option<PendingFetchInfo>,
    /// When the last chunk passed, in milliseconds; zero where none ever did.
    pub last_transfer: u64,
}

/// The time from `since` to `now`, none where the clock went backwards.
pub open spec fn elapsed(now: u64, since: u64) -> nat {
    if now >= since {
        (now - since) as nat
    } else {
        0
    }
}

/// Whether a chunk passed within the last moment.
pub fn transfer_is_recent(now_ms: u64, last_ms: u64) -> (r: bool)
    ensures
        r == recent(now_ms, last_ms),
{
    last_ms != 0 && now_ms.saturating_sub(last_ms) < TRANSFER_LINGER_MS
}

/// Whether a chunk passed within the last moment; never where none ever did.
pub open spec fn recent(now_ms: u64, last_ms: u64) -> bool {
    last_ms != 0 && elapsed(now_ms, last_ms) < 1500
}

/// The word for a transfer's direction.
pub open spec fn direction(sending: bool, lang: Lang) -> Seq<char> {
    match lang {
        Lang::Zh => if sending {
            "发送"@
        } else {
            "接收"@
        },
        Lang::English => if sending {
            "Sending"@
        } else {
            "Receiving"@
        },
    }
}

fn direction_of(sending: bool, lang: Lang) -> (r: &'static str)
    ensures
        r@ == direction(sending, lang),
{
    match lang {
        Lang::Zh => if sending {
            "发送"
        } else {
            "接收"
        },
        Lang::English => if sending {
            "Sending"
        } else {
            "Receiving"
        },
    }
}

impl ProgressState {
    /// The bytes since the rate's starting point.
    pub open spec fn moved(&self) -> nat {
        if self.p.done >= self.since_bytes {
            (self.p.done - self.since_bytes) as nat
        } else {
            0
        }
    }

    /// The rate, once bytes have moved for half a second.
    pub open spec fn shown_rate(&self, now: u64) -> Option<nat> {
        if self.moved() > 0 && elapsed(now, self.since) >= 500_000_000 {
            Some(bytes_per_second(self.moved(), elapsed(now, self.since)))
        } else {
            None
        }
    }

    fn current_rate(&self, now: u64) -> (r: Option<u64>)
        ensures
            match r {
                Some(v) => self.shown_rate(now) == Some(v as nat),
                None => self.shown_rate(now) is None,
            },
    {
        let moved: u64 = self.p.done.saturating_sub(self.since_bytes);
        let time: u64 = now.saturating_sub(self.since);
        if moved > 0 && time >= RATE_SETTLE_NS {
            Some(rate(moved, time))
        } else {
            None
        }
    }

    /// Direction, name and percentage.
    pub open spec fn head(&self, name: Seq<char>, lang: Lang) -> Seq<char> {
        direction(self.p.sending, lang) + " "@ + name + " "@ + decimal(
            percent(self.p.done as nat, self.p.total as nat),
        ) + "%"@
    }

    fn head_of(&self, name: &str, lang: Lang) -> (r: String)
        ensures
            r@ == self.head(name@, lang),
    {
        let mut s = copy_of(direction_of(self.p.sending, lang));
        s.append(" ");
        s.append(name);
        s.append(" ");
        s.append(decimal_of(percent_of(self.p.done, self.p.total)).as_str());
        s.append("%");
        s
    }

    /// The progress on one line; the tray shortens the name, the log does not.
    pub open spec fn line(&self, now: u64, shorten: bool, lang: Lang) -> Seq<char> {
        let name = if shorten {
            ellipsized(self.p.name@)
        } else {
            self.p.name@
        };
        let head = self.head(name, lang);
        let pair = pair_text(self.p.done as nat, self.p.total as nat);
        match (self.shown_rate(now), lang) {
            (None, _) => head,
            (Some(v), Lang::Zh) => head + "（"@ + pair + "，"@ + size_text(v) + "/s）"@,
            (Some(v), Lang::English) => head + " ("@ + pair + ", "@ + size_text(v) + "/s)"@,
        }
    }

    /// The progress on one line.
    pub fn describe(&self, now: u64, shorten: bool, lang: Lang) -> (r: String)
        ensures
            r@ == self.line(now, shorten, lang),
    {
        let name = if shorten {
            ellipsize_middle(self.p.name.as_str())
        } else {
            self.p.name.clone()
        };
        let mut s = self.head_of(name.as_str(), lang);
        match self.current_rate(now) {
            None => {},
            Some(v) => {
                match lang {
                    Lang::Zh => s.append("（"),
                    Lang::English => s.append(" ("),
                }
                s.append(bytes_pair(self.p.done, self.p.total).as_str());
                match lang {
                    Lang::Zh => s.append("，"),
                    Lang::English => s.append(", "),
                }
                s.append(human_bytes(v).as_str());
                match lang {
                    Lang::Zh => s.append("/s）"),
                    Lang::English => s.append("/s)"),
                }
            },
        }
        s
    }

    /// The progress on two lines: what and how far, then how much and how fast.
    pub open spec fn two_lines(&self, now: u64, lang: Lang) -> Seq<char> {
        self.head(ellipsized(self.p.name@), lang) + "\n"@ + pair_text(
            self.p.done as nat,
            self.p.total as nat,
        ) + match self.shown_rate(now) {
            None => Seq::<char>::empty(),
            Some(v) => " · "@ + size_text(v) + "/s"@,
        }
    }

    fn two_lines_of(&self, now: u64, lang: Lang) -> (r: String)
        ensures
            r@ == self.two_lines(now, lang),
    {
        let name = ellipsize_middle(self.p.name.as_str());
        let mut s = self.head_of(name.as_str(), lang);
        s.append("\n");
        s.append(bytes_pair(self.p.done, self.p.total).as_str());
        match self.current_rate(now) {
            None => {},
            Some(v) => {
                s.append(" · ");
                s.append(human_bytes(v).as_str());
                s.append("/s");
            },
        }
        assert(s@ =~= self.two_lines(now, lang));
        s
    }
}

/// Whether `s` is among `v`.
pub open spec fn lists(v: Seq<String>, s: Seq<char>) -> bool {
    exists|i: int| 0 <= i < v.len() && (#[trigger] v[i])@ == s
}

/// No text occurs twice.
pub open spec fn all_different(v: Seq<String>) -> bool {
    forall|i: int, j: int| 0 <= i < j < v.len() ==> (#[trigger] v[i])@ != (#[trigger] v[j])@
}

fn listed(v: &Vec<String>, s: &str) -> (r: bool)
    ensures
        r == lists(v@, s@),
{
    let mut i: usize = 0;
    while i < v.len()
        invariant
            i <= v.len(),
            forall|k: int| 0 <= k < i ==> (#[trigger] v@[k])@ != s@,
        decreases v.len() - i,
    {
        if str_eq(v[i].as_str(), s) {
            assert(v@[i as int]@ == s@);
            return true;
        }
        i += 1;
    }
    false
}

/// The line that tells of waiting files.
pub open spec fn waiting_text(p: PendingFetchInfo, lang: Lang) -> Seq<char> {
    match lang {
        Lang::Zh => decimal(p.count as nat) + " 项待取回（"@ + size_text(p.total as nat) + "）"@,
        Lang::English => decimal(p.count as nat) + " to fetch ("@ + size_text(p.total as nat)
            + ")"@,
    }
}

/// The line that says how many of the paired devices are connected.
pub open spec fn connected_text(connected: nat, paired: nat, lang: Lang) -> Seq<char> {
    let counts = decimal(connected) + " / "@ + decimal(paired);
    match lang {
        Lang::Zh => "ClipSync — 已连接 "@ + counts + " 台"@,
        Lang::English => "ClipSync — "@ + counts + " connected"@,
    }
}

impl TrayStatus {
    /// The connected devices are all different.
    pub open spec fn wf(&self) -> bool {
        all_different(self.connected@)
    }

    /// A fresh state, read beside the table of devices: it shows at all times as many
    /// paired devices as that table then holds.
    pub fn tracking() -> (r: Self)
        ensures
            r.wf(),
            r.connected@.len() == 0,
            !r.paused,
            !r.hub_dead,
            r.progress is None,
            r.waiting is None,
            r.last_transfer == 0,
    {
        TrayStatus {
            connected: Vec::new(),
            paused: false,
            hub_dead: false,
            progress: None,
            waiting: None,
            last_transfer: 0,
        }
    }

    /// A fresh state.
    pub fn new() -> (r: Self)
        ensures
            r.wf(),
            r.connected@.len() == 0,
            !r.paused,
            !r.hub_dead,
            r.progress is None,
            r.waiting is None,
            r.last_transfer == 0,
    {
        TrayStatus::tracking()
    }

    /// Everything but the transfer is the same.
    pub open spec fn same_but_transfer(&self, other: &TrayStatus) -> bool {
        &&& self.connected == other.connected
        &&& self.paused == other.paused
        &&& self.hub_dead == other.hub_dead
        &&& self.waiting == other.waiting
    }

    /// What a chunk does to the transfer being shown: the same file in the same
    /// direction moves on, its rate measured anew every few seconds; anything else is
    /// a new transfer, measured from where it stands.
    pub open spec fn progressed(&self, p: TransferProgress, now: u64) -> ProgressState {
        match self.progress {
            Some(st) => if st.p.name@ == p.name@ && st.p.sending == p.sending {
                let anew = elapsed(now, st.since) >= 3_000_000_000;
                ProgressState {
                    p,
                    since: if anew {
                        now
                    } else {
                        st.since
                    },
                    since_bytes: if anew {
                        st.p.done
                    } else {
                        st.since_bytes
                    },
                    logged: if elapsed(now, st.logged) >= 10_000_000_000 {
                        now
                    } else {
                        st.logged
                    },
                }
            } else {
                ProgressState { p, since: now, since_bytes: p.done, logged: now }
            },
            None => ProgressState { p, since: now, since_bytes: p.done, logged: now },
        }
    }

    /// Whether a chunk's progress goes to the log.
    pub open spec fn logs(&self, p: TransferProgress, now: u64) -> bool {
        self.progress matches Some(st) && st.p.name@ == p.name@ && st.p.sending == p.sending
            && elapsed(now, st.logged) >= 10_000_000_000
    }

    /// Takes note of a chunk; the result is what to log, if anything.
    pub fn note_transfer(&mut self, p: TransferProgress, now: u64, lang: Lang) -> (r: Option<String>)
        ensures
            final(self).same_but_transfer(old(self)),
            final(self).progress == Some(old(self).progressed(p, now)),
            final(self).last_transfer == if now / 1_000_000 == 0 {
                1
            } else {
                now / 1_000_000
            },
            match r {
                Some(t) => old(self).logs(p, now) && t@ == old(self).progressed(p, now).line(
                    now,
                    false,
                    lang,
                ),
                None => !old(self).logs(p, now),
            },
    {
        let ms: u64 = now / 1_000_000;
        self.last_transfer = if ms == 0 {
            1
        } else {
            ms
        };
        let mut log: bool = false;
        let st = match self.progress.take() {
            Some(st) => if str_eq(st.p.name.as_str(), p.name.as_str()) && st.p.sending == p.sending {
                let anew = now.saturating_sub(st.since) >= RATE_WINDOW_NS;
                log = now.saturating_sub(st.logged) >= PROGRESS_LOG_INTERVAL_NS;
                ProgressState {
                    p,
                    since: if anew {
                        now
                    } else {
                        st.since
                    },
                    since_bytes: if anew {
                        st.p.done
                    } else {
                        st.since_bytes
                    },
                    logged: if log {
                        now
                    } else {
                        st.logged
                    },
                }
            } else {
                ProgressState { since: now, since_bytes: p.done, p, logged: now }
            },
            None => ProgressState { since: now, since_bytes: p.done, p, logged: now },
        };
        let text = if log {
            Some(st.describe(now, false, lang))
        } else {
            None
        };
        self.progress = Some(st);
        text
    }

    /// The transfer is over.
    pub fn clear_transfer(&mut self)
        ensures
            final(self).same_but_transfer(old(self)),
            final(self).progress is None,
            final(self).last_transfer == old(self).last_transfer,
    {
        self.progress = None;
    }

    /// The files waiting to be fetched, or none.
    pub fn set_pending(&mut self, p: Option<PendingFetchInfo>)
        ensures
            final(self).waiting == p,
            final(self).connected == old(self).connected,
            final(self).paused == old(self).paused,
            final(self).hub_dead == old(self).hub_dead,
            final(self).progress == old(self).progress,
            final(self).last_transfer == old(self).last_transfer,
    {
        self.waiting = p;
    }

    /// The files waiting to be fetched, or none.
    pub fn pending(&self) -> (r: Option<PendingFetchInfo>)
        ensures
            r == self.waiting,
    {
        match &self.waiting {
            Some(p) => Some(p.dup()),
            None => None,
        }
    }

    /// Whether a file is on its way.
    pub open spec fn transferring(&self, now: u64) -> bool {
        recent(now / 1_000_000, self.last_transfer)
    }

    /// Whether a file is on its way.
    pub fn is_transferring(&self, now: u64) -> (r: bool)
        ensures
            r == self.transferring(now),
    {
        transfer_is_recent(now / 1_000_000, self.last_transfer)
    }

    /// The devices connected now.
    pub fn set_connected_ids(&mut self, ids: Vec<String>)
        ensures
            final(self).wf(),
            forall|s: Seq<char>| lists(final(self).connected@, s) == lists(ids@, s),
            final(self).paused == old(self).paused,
            final(self).hub_dead == old(self).hub_dead,
            final(self).waiting == old(self).waiting,
            final(self).progress == old(self).progress,
            final(self).last_transfer == old(self).last_transfer,
            all_different(ids@) ==> final(self).connected@ == ids@,
    {
        let mut kept: Vec<String> = Vec::new();
        let mut i: usize = 0;
        while i < ids.len()
            invariant
                i <= ids.len(),
                all_different(kept@),
                forall|s: Seq<char>| lists(kept@, s) == lists(ids@.take(i as int), s),
                all_different(ids@) ==> kept@ == ids@.take(i as int),
            decreases ids.len() - i,
        {
            let ghost before = kept@;
            let ghost seen = ids@.take(i as int);
            let ghost now_seen = ids@.take(i + 1);
            let x = ids[i].clone();
            let there = listed(&kept, x.as_str());
            proof {
                assert forall|s: Seq<char>| lists(now_seen, s) == (lists(seen, s) || x@ == s) by {
                    if lists(seen, s) {
                        let k = choose|k: int| 0 <= k < seen.len() && (#[trigger] seen[k])@ == s;
                        assert(now_seen[k]@ == s);
                    }
                    if x@ == s {
                        assert(now_seen[i as int]@ == s);
                    }
                    if lists(now_seen, s) && x@ != s {
                        let k = choose|k: int|
                            0 <= k < now_seen.len() && (#[trigger] now_seen[k])@ == s;
                        assert(seen[k]@ == s);
                    }
                }
                if all_different(ids@) && there {
                    let k = choose|k: int| 0 <= k < before.len() && (#[trigger] before[k])@ == x@;
                    assert(ids@[k]@ == ids@[i as int]@);
                }
            }
            if !there {
                kept.push(x);
                proof {
                    assert forall|s: Seq<char>| lists(kept@, s) == (lists(before, s) || x@ == s) by {
                        if lists(before, s) {
                            let k = choose|k: int|
                                0 <= k < before.len() && (#[trigger] before[k])@ == s;
                            assert(kept@[k]@ == s);
                        }
                        if x@ == s {
                            assert(kept@[before.len() as int]@ == s);
                        }
                        if lists(kept@, s) && x@ != s {
                            let k = choose|k: int|
                                0 <= k < kept@.len() && (#[trigger] kept@[k])@ == s;
                            assert(before[k]@ == s);
                        }
                    }
                    assert forall|a: int, b: int| 0 <= a < b < kept@.len() implies (
                    #[trigger] kept@[a])@ != (#[trigger] kept@[b])@ by {
                        if b == before.len() {
                            assert(before[a]@ != x@);
                        } else {
                            assert(before[a]@ != before[b]@);
                        }
                    }
                    if all_different(ids@) {
                        assert(kept@ =~= now_seen);
                    }
                }
            }
            assert forall|s: Seq<char>| lists(kept@, s) == lists(now_seen, s) by {
                assert(lists(before, s) == lists(seen, s));
                if there && x@ == s {
                    assert(lists(before, x@));
                }
            }
            i += 1;
        }
        assert(ids@.take(ids@.len() as int) =~= ids@);
        self.connected = kept;
    }

    /// The devices connected now.
    pub fn connected_devices(&self) -> (r: &Vec<String>)
        ensures
            r@ == self.connected@,
    {
        &self.connected
    }

    /// How many devices are connected, and how many are paired as `known` has it.
    pub fn snapshot(&self, known: &KnownPeers) -> (r: StatusData)
        ensures
            r.connected == self.connected@.len(),
            r.paired == known@.len(),
    {
        StatusData { connected: self.connected.len(), paired: known.len() }
    }

    /// Whether the user paused synchronisation.
    pub fn is_paused(&self) -> (r: bool)
        ensures
            r == self.paused,
    {
        self.paused
    }

    /// Pauses or resumes synchronisation.
    pub fn set_paused(&mut self, paused: bool)
        ensures
            final(self).paused == paused,
            final(self).connected == old(self).connected,
            final(self).hub_dead == old(self).hub_dead,
            final(self).waiting == old(self).waiting,
            final(self).progress == old(self).progress,
            final(self).last_transfer == old(self).last_transfer,
    {
        self.paused = paused;
    }

    /// Synchronisation stopped working.
    pub fn set_hub_dead(&mut self)
        ensures
            final(self).hub_dead,
            final(self).connected == old(self).connected,
            final(self).paused == old(self).paused,
            final(self).waiting == old(self).waiting,
            final(self).progress == old(self).progress,
            final(self).last_transfer == old(self).last_transfer,
    {
        self.hub_dead = true;
    }

    /// Whether synchronisation stopped working.
    pub fn is_hub_dead(&self) -> (r: bool)
        ensures
            r == self.hub_dead,
    {
        self.hub_dead
    }

    /// The state in one line. What is broken comes first, then what the user did, then
    /// what is moving, then who is connected.
    pub open spec fn summary_text(&self, paired: nat, now: u64, lang: Lang) -> Seq<char> {
        if self.hub_dead {
            match lang {
                Lang::Zh => "ClipSync — 同步已停止（请重启程序）"@,
                Lang::English => "ClipSync — sync stopped (please restart)"@,
            }
        } else if self.paused {
            match lang {
                Lang::Zh => "ClipSync — 已暂停"@,
                Lang::English => "ClipSync — paused"@,
            }
        } else if self.transferring(now) && self.progress is Some {
            "ClipSync — "@ + self.progress->0.line(now, true, lang)
        } else if paired == 0 {
            match lang {
                Lang::Zh => "ClipSync — 尚未配对设备"@,
                Lang::English => "ClipSync — no paired devices"@,
            }
        } else if self.connected@.len() == 0 {
            match lang {
                Lang::Zh => "ClipSync — 未连接（已配对 "@ + decimal(paired) + " 台）"@,
                Lang::English => "ClipSync — not connected ("@ + decimal(paired)
                    + " paired)"@,
            }
        } else {
            connected_text(self.connected@.len(), paired, lang)
        }
    }

    /// The state in one line.
    pub fn summary(&self, known: &KnownPeers, now: u64, lang: Lang) -> (r: String)
        ensures
            r@ == self.summary_text(known@.len(), now, lang),
    {
        if self.hub_dead {
            return match lang {
                Lang::Zh => copy_of("ClipSync — 同步已停止（请重启程序）"),
                Lang::English => copy_of("ClipSync — sync stopped (please restart)"),
            };
        }
        if self.paused {
            return match lang {
                Lang::Zh => copy_of("ClipSync — 已暂停"),
                Lang::English => copy_of("ClipSync — paused"),
            };
        }
        if self.is_transferring(now) {
            if let Some(st) = &self.progress {
                let mut s = copy_of("ClipSync — ");
                s.append(st.describe(now, true, lang).as_str());
                return s;
            }
        }
        let data = self.snapshot(known);
        if data.paired == 0 {
            return match lang {
                Lang::Zh => copy_of("ClipSync — 尚未配对设备"),
                Lang::English => copy_of("ClipSync — no paired devices"),
            };
        }
        let paired = decimal_of(data.paired as u64);
        if data.connected == 0 {
            let mut s = match lang {
                Lang::Zh => copy_of("ClipSync — 未连接（已配对 "),
                Lang::English => copy_of("ClipSync — not connected ("),
            };
            s.append(paired.as_str());
            match lang {
                Lang::Zh => s.append(" 台）"),
                Lang::English => s.append(" paired)"),
            }
            return s;
        }
        let mut counts = decimal_of(data.connected as u64);
        counts.append(" / ");
        counts.append(paired.as_str());
        let mut s = match lang {
            Lang::Zh => copy_of("ClipSync — 已连接 "),
            Lang::English => copy_of("ClipSync — "),
        };
        s.append(counts.as_str());
        match lang {
            Lang::Zh => s.append(" 台"),
            Lang::English => s.append(" connected"),
        }
        s
    }

    /// The tooltip before it is cut to its limit: two lines while a file is on its way,
    /// else the state and, on a line of its own, what waits to be fetched.
    pub open spec fn full_tooltip(&self, paired: nat, now: u64, lang: Lang) -> Seq<char> {
        if self.transferring(now) && self.progress is Some {
            self.progress->0.two_lines(now, lang)
        } else {
            match self.waiting {
                None => self.summary_text(paired, now, lang),
                Some(p) => self.summary_text(paired, now, lang) + "\n"@ + waiting_text(p, lang),
            }
        }
    }

    /// The text shown when the pointer rests on the tray icon.
    pub fn tooltip(&self, known: &KnownPeers, now: u64, lang: Lang) -> (r: String)
        ensures
            r@ == fitted(self.full_tooltip(known@.len(), now, lang), 63),
    {
        if self.is_transferring(now) {
            if let Some(st) = &self.progress {
                let s = st.two_lines_of(now, lang);
                return fit_chars(s.as_str(), TOOLTIP_MAX_CHARS);
            }
        }
        let mut s = self.summary(known, now, lang);
        match &self.waiting {
            None => {},
            Some(p) => {
                let mut tail = decimal_of(p.count as u64);
                match lang {
                    Lang::Zh => tail.append(" 项待取回（"),
                    Lang::English => tail.append(" to fetch ("),
                }
                tail.append(human_bytes(p.total).as_str());
                match lang {
                    Lang::Zh => tail.append("）"),
                    Lang::English => tail.append(")"),
                }
                s.append("\n");
                s.append(tail.as_str());
            },
        }
        fit_chars(s.as_str(), TOOLTIP_MAX_CHARS)
    }
}

impl Default for TrayStatus {
    fn default() -> (r: Self)
        ensures
            r.wf(),
            r.connected@.len() == 0,
            !r.paused,
            !r.hub_dead,
            r.progress is None,
            r.waiting is None,
            r.last_transfer == 0,
    {
        TrayStatus::new()
    }
}

/// No tooltip is longer than the system shows.
pub proof fn tooltip_fits(status: TrayStatus, paired: nat, now: u64, lang: Lang)
    ensures
        fitted(status.full_tooltip(paired, now, lang), 63).len() <= 63,
{
}

proof fn lemma_decimal_no_break(n: nat)
    ensures
        occurrences(decimal(n), '\n') == 0,
    decreases n,
{
    if n >= 10 {
        lemma_decimal_no_break(n / 10);
        assert(decimal(n).drop_last() =~= decimal(n / 10));
    } else {
        assert(decimal(n).drop_last() =~= Seq::<char>::empty());
        assert(occurrences(Seq::<char>::empty(), '\n') == 0);
    }
    assert(decimal(n).last() != '\n');
}

proof fn lemma_size_no_break(n: nat)
    ensures
        occurrences(size_value(n), '\n') == 0,
        occurrences(size_text(n), '\n') == 0,
{
    reveal_strlit(".");
    reveal_strlit(" ");
    reveal_strlit("B");
    reveal_strlit("KiB");
    reveal_strlit("MiB");
    reveal_strlit("GiB");
    let u = SizeUnit::of(n).bytes();
    let v = whole(nearest(n, 1));
    let tenths = round_half_even(10 * v, u);
    lemma_decimal_no_break(n);
    lemma_decimal_no_break(v / u);
    lemma_decimal_no_break(tenths / 10);
    lemma_decimal_no_break(tenths % 10);
    lemma_occurrences_none("."@, '\n');
    lemma_occurrences_concat(decimal(tenths / 10), "."@, '\n');
    lemma_occurrences_concat(decimal(tenths / 10) + "."@, decimal(tenths % 10), '\n');
    lemma_occurrences_none(" "@, '\n');
    lemma_occurrences_none(SizeUnit::of(n).text(), '\n');
    lemma_occurrences_concat(size_value(n), " "@, '\n');
    lemma_occurrences_concat(size_value(n) + " "@, SizeUnit::of(n).text(), '\n');
}

proof fn lemma_ellipsized_no_break(name: Seq<char>)
    requires
        forall|i: int| 0 <= i < name.len() ==> #[trigger] name[i] != '\n',
    ensures
        occurrences(ellipsized(name), '\n') == 0,
{
    let e = ellipsized(name);
    assert forall|i: int| 0 <= i < e.len() implies #[trigger] e[i] != '\n' by {
        if name.len() > NAME_HEAD + 1 + NAME_TAIL {
            if i < 5 {
                assert(name[i] != '\n');
            } else if i > 5 {
                assert(e[i] == name[name.len() - 5 + (i - 6)]);
            }
        } else {
            assert(name[i] != '\n');
        }
    }
    lemma_occurrences_none(e, '\n');
}

/// No percentage takes more than twenty digits.
proof fn lemma_percent_width(st: ProgressState)
    ensures
        decimal(percent(st.p.done as nat, st.p.total as nat)).len() <= 20,
{
    let pct = percent(st.p.done as nat, st.p.total as nat);
    assert(pct <= u64::MAX) by {
        if st.p.total > 0 {
            let (n, t) = (100 * st.p.done as int, st.p.total as int);
            assert(n >= 0 ==> n / t <= n) by (nonlinear_arith)
                requires
                    t >= 1,
            ;
            let m = u64::MAX as int;
            assert(m / t <= m) by (nonlinear_arith)
                requires
                    t >= 1,
                    m >= 0,
            ;
        }
    }
    assert(decimal(pct).len() <= 20) by {
        reveal_with_fuel(crate::digits::pow10, 21);
        lemma_decimal_digits(pct, 20);
    }
}

/// The first line of a transfer's tooltip: no break in it, and far shorter than the
/// limit.
proof fn lemma_head(st: ProgressState, lang: Lang)
    requires
        forall|i: int| 0 <= i < st.p.name@.len() ==> #[trigger] st.p.name@[i] != '\n',
    ensures
        occurrences(st.head(ellipsized(st.p.name@), lang), '\n') == 0,
        st.head(ellipsized(st.p.name@), lang).len() <= 44,
{
    let name = ellipsized(st.p.name@);
    let pct = percent(st.p.done as nat, st.p.total as nat);
    reveal_strlit("发送");
    reveal_strlit("接收");
    reveal_strlit("Sending");
    reveal_strlit("Receiving");
    reveal_strlit(" ");
    reveal_strlit("%");
    let dir = direction(st.p.sending, lang);
    assert(dir.len() <= 9);
    lemma_ellipsized_no_break(st.p.name@);
    shortened_names_have_one_width(st.p.name@);
    lemma_decimal_no_break(pct);
    lemma_occurrences_none(dir, '\n');
    lemma_occurrences_none(" "@, '\n');
    lemma_occurrences_none("%"@, '\n');
    lemma_occurrences_concat(dir, " "@, '\n');
    lemma_occurrences_concat(dir + " "@, name, '\n');
    lemma_occurrences_concat(dir + " "@ + name, " "@, '\n');
    lemma_occurrences_concat(dir + " "@ + name + " "@, decimal(pct), '\n');
    lemma_occurrences_concat(dir + " "@ + name + " "@ + decimal(pct), "%"@, '\n');
    lemma_percent_width(st);
}

/// The second line holds no break either.
proof fn lemma_second_line(st: ProgressState, now: u64)
    ensures
        ({
            let end = match st.shown_rate(now) {
                None => Seq::<char>::empty(),
                Some(v) => " · "@ + size_text(v) + "/s"@,
            };
            occurrences(pair_text(st.p.done as nat, st.p.total as nat) + end, '\n') == 0
        }),
{
    reveal_strlit(" / ");
    reveal_strlit(" · ");
    reveal_strlit("/s");
    let (d, t) = (st.p.done as nat, st.p.total as nat);
    lemma_size_no_break(d);
    lemma_size_no_break(t);
    lemma_occurrences_none(" / "@, '\n');
    lemma_occurrences_concat(size_value(d), " / "@, '\n');
    lemma_occurrences_concat(size_value(d) + " / "@, size_text(t), '\n');
    lemma_occurrences_concat(size_text(d), " / "@, '\n');
    lemma_occurrences_concat(size_text(d) + " / "@, size_text(t), '\n');
    let end = match st.shown_rate(now) {
        None => Seq::<char>::empty(),
        Some(v) => " · "@ + size_text(v) + "/s"@,
    };
    lemma_occurrences_concat(pair_text(d, t), end, '\n');
    if let Some(v) = st.shown_rate(now) {
        lemma_size_no_break(v);
        lemma_occurrences_none(" · "@, '\n');
        lemma_occurrences_none("/s"@, '\n');
        lemma_occurrences_concat(" · "@, size_text(v), '\n');
        lemma_occurrences_concat(" · "@ + size_text(v), "/s"@, '\n');
    }
}

/// While a file is on its way the tooltip has exactly two lines, the first one whole,
/// unless the file's name itself holds a line break.
pub proof fn transfer_tooltip_has_two_lines(status: TrayStatus, paired: nat, now: u64, lang: Lang)
    requires
        status.transferring(now),
        status.progress is Some,
        forall|i: int|
            0 <= i < status.progress->0.p.name@.len() ==> #[trigger] status.progress->0.p.name@[i]
                != '\n',
    ensures
        occurrences(fitted(status.full_tooltip(paired, now, lang), 63), '\n') == 1,
        ({
            let head = status.progress->0.head(ellipsized(status.progress->0.p.name@), lang);
            fitted(status.full_tooltip(paired, now, lang), 63).take(head.len() as int) == head
        }),
{
    let st = status.progress->0;
    let head = st.head(ellipsized(st.p.name@), lang);
    let pair = pair_text(st.p.done as nat, st.p.total as nat);
    let end = match st.shown_rate(now) {
        None => Seq::<char>::empty(),
        Some(v) => " · "@ + size_text(v) + "/s"@,
    };
    let second = pair + end;
    lemma_head(st, lang);
    lemma_second_line(st, now);
    reveal_strlit("\n");
    let line_end = head + "\n"@;
    assert("\n"@.drop_last() =~= Seq::<char>::empty());
    assert(occurrences(Seq::<char>::empty(), '\n') == 0);
    assert(occurrences("\n"@, '\n') == 1);
    lemma_occurrences_concat(head, "\n"@, '\n');
    let full = status.full_tooltip(paired, now, lang);
    assert(full =~= line_end + second);
    lemma_occurrences_concat(line_end, second, '\n');
    let shown = fitted(full, 63);
    if full.len() > 63 {
        let kept = full.take(62);
        let rest = second.take(62 - line_end.len());
        let cut = second.skip(62 - line_end.len());
        assert(kept =~= line_end + rest);
        assert(rest + cut =~= second);
        lemma_occurrences_concat(rest, cut, '\n');
        lemma_occurrences_concat(line_end, rest, '\n');
        assert(shown.drop_last() =~= kept);
    }
    assert(shown.take(head.len() as int) =~= head);
}

/// A transfer that sends no more chunks ends by itself: a moment after the last one,
/// nothing of it is shown any more.
pub proof fn transfers_expire(status: TrayStatus, now: u64)
    requires
        now / 1_000_000 >= status.last_transfer + 1500,
    ensures
        !status.transferring(now),
{
}

/// A stopped hub shows in every state, whatever else is true.
pub proof fn broken_state_is_never_hidden(status: TrayStatus, paired: nat, now: u64, lang: Lang)
    requires
        status.hub_dead,
    ensures
        status.summary_text(paired, now, lang) == match lang {
            Lang::Zh => "ClipSync — 同步已停止（请重启程序）"@,
            Lang::English => "ClipSync — sync stopped (please restart)"@,
        },
{
}

/// The shown number of paired devices follows every change of the table, with nothing to
/// be told to the state: a device that joined counts at once, and one that left no longer.
pub proof fn shown_count_follows_the_table(
    status: TrayStatus,
    before: Seq<KnownPeer>,
    peer: KnownPeer,
    now: u64,
    lang: Lang,
)
    requires
        !status.hub_dead,
        !status.paused,
        !status.transferring(now),
        status.connected@.len() > 0,
    ensures
        ({
            let (online, device) = (status.connected@.len(), peer.device@);
            let joined = with_peer(before, peer).len();
            let left = without_device(before, device).len();
            &&& joined == if has_device(before, device) {
                before.len()
            } else {
                before.len() + 1
            }
            &&& status.summary_text(joined, now, lang) == connected_text(online, joined, lang)
            &&& if has_device(before, device) {
                left < before.len()
            } else {
                left == before.len()
            }
            &&& left > 0 ==> status.summary_text(left, now, lang) == connected_text(
                online,
                left,
                lang,
            )
        }),
{
    lemma_device_at(before, peer.device@);
    lemma_without_device(before, peer.device@);
}

/// A transfer shows from its last chunk on, for a second and a half.
pub proof fn transfers_show_for_a_moment(status: TrayStatus, now: u64)
    ensures
        status.transferring(now) <==> status.last_transfer != 0 && now / 1_000_000
            < status.last_transfer + 1_500,
{
}

/// While synchronisation is paused, nothing shows but that: neither who is connected nor
/// what moves.
pub proof fn a_pause_hides_everything_but_a_breakdown(
    a: TrayStatus,
    b: TrayStatus,
    paired: (nat, nat),
    now: (u64, u64),
    lang: Lang,
)
    requires
        a.paused && b.paused,
        !a.hub_dead && !b.hub_dead,
    ensures
        a.summary_text(paired.0, now.0, lang) == b.summary_text(paired.1, now.1, lang),
{
}

/// At rest the state is a matter of two numbers, and both are legible wherever devices are
/// connected.
pub proof fn the_counts_are_legible(
    status: TrayStatus,
    paired: nat,
    now: u64,
    lang: Lang,
) -> (r: (Seq<char>, Seq<char>))
    requires
        !status.hub_dead && !status.paused && !status.transferring(now),
        paired > 0,
    ensures
        status.connected@.len() > 0 ==> status.summary_text(paired, now, lang) == r.0 + decimal(
            status.connected@.len(),
        ) + " / "@ + decimal(paired) + r.1,
        status.connected@.len() == 0 ==> status.summary_text(paired, now, lang) == r.0 + decimal(
            paired,
        ) + r.1,
{
    let t = status.summary_text(paired, now, lang);
    if status.connected@.len() > 0 {
        let r = match lang {
            Lang::Zh => ("ClipSync — 已连接 "@, " 台"@),
            Lang::English => ("ClipSync — "@, " connected"@),
        };
        assert(t =~= r.0 + decimal(status.connected@.len()) + " / "@ + decimal(paired) + r.1);
        r
    } else {
        match lang {
            Lang::Zh => ("ClipSync — 未连接（已配对 "@, " 台）"@),
            Lang::English => ("ClipSync — not connected ("@, " paired)"@),
        }
    }
}

/// A rate is shown exactly where bytes have moved since the point that it is measured from,
/// and that was half a second ago at least. A file that has just begun shows none.
pub proof fn rates_need_half_a_second(status: TrayStatus, p: TransferProgress, now: u64, later: u64)
    ensures
        ({
            let st = status.progressed(p, now);
            &&& st.p == p
            &&& st.shown_rate(later) is Some <==> p.done > st.since_bytes && later >= st.since
                + 500_000_000
            &&& (status.progress matches Some(old_st) ==> old_st.p.name@ != p.name@
                || old_st.p.sending != p.sending) ==> st.shown_rate(later) is None
        }),
{
}

/// A rate is measured over the last few seconds of one file: from a point at which as many
/// bytes were done as it says, never longer ago than three seconds.
pub proof fn rates_are_of_the_last_seconds(status: TrayStatus, p: TransferProgress, now: u64)
    ensures
        ({
            let st = status.progressed(p, now);
            &&& now < st.since + 3_000_000_000
            &&& status.progress matches Some(before) ==> {
                &&& {
                    ||| st.since == before.since && st.since_bytes == before.since_bytes
                    ||| st.since == now && (st.since_bytes == before.p.done || st.since_bytes
                        == p.done)
                }
                &&& (before.p.name@ == p.name@ && before.p.sending == p.sending && now
                    < before.since + 3_000_000_000) ==> st.since == before.since && st.since_bytes
                    == before.since_bytes
            }
        }),
{
}

/// The progress of a file goes to the log every ten seconds, and not more often.
pub proof fn progress_is_logged_every_ten_seconds(
    before: TrayStatus,
    after: TrayStatus,
    p: TransferProgress,
    q: TransferProgress,
    now: u64,
    later: u64,
)
    requires
        after.progress == Some(before.progressed(p, now)),
        before.progress is None || before.logs(p, now),
        now <= later,
    ensures
        before.progress is None ==> !before.logs(p, now),
        after.logs(q, later) <==> q.name@ == p.name@ && q.sending == p.sending && later >= now
            + 10_000_000_000,
{
}

/// So many bytes every second since the point that the rate is measured from show as that
/// rate, whatever was done before it.
pub proof fn steady_transfers_show_their_rate(st: ProgressState, now: u64, rate: nat, secs: nat)
    requires
        rate > 0,
        secs > 0,
        rate * secs < pow2(53),
        st.p.done == st.since_bytes + rate * secs,
        now == st.since + secs * 1_000_000_000,
    ensures
        st.shown_rate(now) == Some(rate),
{
    assert(rate * secs > 0) by (nonlinear_arith)
        requires
            rate > 0,
            secs > 0,
    ;
    steady_rates_are_exact(rate, secs);
}

/// At rest the tooltip is the state and, on a line of its own, how many files wait and how
/// large they are together. The result is what stands around the two numbers.
pub proof fn waiting_files_are_counted_in_the_tooltip(
    status: TrayStatus,
    p: PendingFetchInfo,
    paired: nat,
    now: u64,
    lang: Lang,
) -> (r: (Seq<char>, Seq<char>))
    requires
        !status.transferring(now),
        status.waiting == Some(p),
    ensures
        status.full_tooltip(paired, now, lang) == status.summary_text(paired, now, lang)
            + seq!['\n'] + decimal(p.count as nat) + r.0 + size_text(p.total as nat) + r.1,
{
    reveal_strlit("\n");
    assert("\n"@ =~= seq!['\n']);
    let r = match lang {
        Lang::Zh => (" 项待取回（"@, "）"@),
        Lang::English => (" to fetch ("@, ")"@),
    };
    assert(status.full_tooltip(paired, now, lang) =~= status.summary_text(paired, now, lang)
        + seq!['\n'] + decimal(p.count as nat) + r.0 + size_text(p.total as nat) + r.1);
    r
}

/// The progress begins with the direction, the file's name and the percentage, in this order;
/// sending and receiving are told apart.
pub proof fn progress_names_the_file(st: ProgressState, name: Seq<char>, lang: Lang) -> (
    way: Seq<char>)
    ensures
        st.head(name, lang) == way + seq![' '] + name + seq![' '] + decimal(
            percent(st.p.done as nat, st.p.total as nat),
        ) + seq!['%'],
        way == match lang {
            Lang::Zh => if st.p.sending {
                "发送"@
            } else {
                "接收"@
            },
            Lang::English => if st.p.sending {
                "Sending"@
            } else {
                "Receiving"@
            },
        },
{
    reveal_strlit(" ");
    reveal_strlit("%");
    assert(" "@ =~= seq![' ']);
    assert("%"@ =~= seq!['%']);
    direction(st.p.sending, lang)
}

/// Once there is a rate, the progress tells how much is done, how much there is in all, and
/// how fast it goes; before that it tells the percentage alone. The results are the words
/// between those.
pub proof fn progress_tells_the_rate(st: ProgressState, now: u64, lang: Lang) -> (r: (
    Seq<char>,
    Seq<char>,
    Seq<char>,
))
    ensures
        st.shown_rate(now) is None ==> {
            &&& st.line(now, false, lang) == st.head(st.p.name@, lang)
            &&& st.line(now, true, lang) == st.head(ellipsized(st.p.name@), lang)
        },
        st.shown_rate(now) matches Some(v) ==> {
            let tail = r.0 + pair_text(st.p.done as nat, st.p.total as nat) + r.1 + size_text(v)
                + r.2;
            &&& st.line(now, false, lang) == st.head(st.p.name@, lang) + tail
            &&& st.line(now, true, lang) == st.head(ellipsized(st.p.name@), lang) + tail
        },
{
    let r = match lang {
        Lang::Zh => ("（"@, "，"@, "/s）"@),
        Lang::English => (" ("@, ", "@, "/s)"@),
    };
    if let Some(v) = st.shown_rate(now) {
        let tail = r.0 + pair_text(st.p.done as nat, st.p.total as nat) + r.1 + size_text(v) + r.2;
        assert(st.line(now, false, lang) =~= st.head(st.p.name@, lang) + tail);
        assert(st.line(now, true, lang) =~= st.head(ellipsized(st.p.name@), lang) + tail);
    }
    r
}

} // verus!
