//! From what the user clicks to what happens.
//!
//! Toggles take effect at once. Whatever has to ask the user something runs beside the
//! menu, so that the menu never stalls; the answers come back here.

use vstd::prelude::*;
use vstd::string::*;

use crate::config::{Settings, SettingsHandle};
use crate::ipv4::{digits_value, written_numbers_read_back};
use crate::language::{preference, Lang, LangPref};
use crate::size_parse::{complaint, parse_byte_size, parse_rate, rate_of, size_of, SizeError, SizeReading};
use crate::text::{chars_of, copy_of, decimal, decimal_of, is_digit, trim, trimmed};
use crate::tray::{Entry, TrayAction, TraySettings};
use crate::tray_menu::{human_bytes, size_text};
use crate::tray_status::TrayStatus;

verus! {

/// What an action needs from the outside.
pub enum TrayTask {
    /// Everything is done.
    Done,
    /// Store the settings.
    Save(Settings),
    SetAutostart(bool),
    HostPairing,
    JoinPairing,
    NewCode,
    FetchPending,
    AskAutoFetch,
    AskUploadLimit,
    AskListenPort,
    AskLanguage,
    /// Switch the log's level; whether it worked goes to `verbose_switched`.
    SwitchLog(bool),
    OpenLogDir,
    RemovePeer(String),
    LeaveGroup,
    /// Stop the program.
    Stop,
}

/// The settings were changed to `s`.
pub open spec fn changed(before: SettingsHandle, after: SettingsHandle, s: Settings) -> bool {
    &&& after@ == s
    &&& after.spec_version() == before.spec_version().wrapping_add(1)
}

/// The settings that an action changes, after the change.
pub open spec fn toggled(action: TrayAction, s: Settings) -> Option<Settings> {
    match action {
        TrayAction::ToggleImages => Some(Settings { allow_image: !s.allow_image, ..s }),
        TrayAction::ToggleFiles => Some(Settings { allow_files: !s.allow_files, ..s }),
        TrayAction::ToggleCompress => Some(
            Settings { compress_transfers: !s.compress_transfers, ..s },
        ),
        _ => None,
    }
}

/// What an action needs from the outside.
pub open spec fn task_of(action: TrayAction, s: Settings, autostart: bool) -> TrayTask {
    match toggled(action, s) {
        Some(after) => TrayTask::Save(after),
        None => match action {
            TrayAction::ToggleAutostart => TrayTask::SetAutostart(!autostart),
            TrayAction::ShowPairingCode => TrayTask::HostPairing,
            TrayAction::EnterPairingCode => TrayTask::JoinPairing,
            TrayAction::NewPairingCode => TrayTask::NewCode,
            TrayAction::FetchPending => TrayTask::FetchPending,
            TrayAction::PromptAutoFetch => TrayTask::AskAutoFetch,
            TrayAction::PromptUploadLimit => TrayTask::AskUploadLimit,
            TrayAction::PromptListenPort => TrayTask::AskListenPort,
            TrayAction::PromptLanguage => TrayTask::AskLanguage,
            TrayAction::ToggleVerboseLog => TrayTask::SwitchLog(!s.verbose_log),
            TrayAction::OpenLogDir => TrayTask::OpenLogDir,
            TrayAction::RemovePeer(d) => TrayTask::RemovePeer(d),
            TrayAction::LeaveGroup => TrayTask::LeaveGroup,
            TrayAction::Quit => TrayTask::Stop,
            _ => TrayTask::Done,
        },
    }
}

/// Puts `s` into effect. The result is what to store.
fn store(settings: &mut SettingsHandle, s: Settings) -> (r: Settings)
    ensures
        changed(*old(settings), *final(settings), s),
        r == s,
{
    settings.set(s)
}

fn flip_images(s: Settings) -> (r: Settings)
    ensures
        r == (Settings { allow_image: !s.allow_image, ..s }),
{
    Settings { allow_image: !s.allow_image, ..s }
}

fn flip_files(s: Settings) -> (r: Settings)
    ensures
        r == (Settings { allow_files: !s.allow_files, ..s }),
{
    Settings { allow_files: !s.allow_files, ..s }
}

fn flip_compress(s: Settings) -> (r: Settings)
    ensures
        r == (Settings { compress_transfers: !s.compress_transfers, ..s }),
{
    Settings { compress_transfers: !s.compress_transfers, ..s }
}

/// Carries out an action: what can be done at once is done, the rest is the result.
/// `autostart` tells whether the program starts with the session now.
pub fn on_action(
    action: TrayAction,
    status: &mut TrayStatus,
    settings: &mut SettingsHandle,
    autostart: bool,
) -> (r: TrayTask)
    ensures
        r == task_of(action, old(settings)@, autostart),
        match toggled(action, old(settings)@) {
            Some(s) => changed(*old(settings), *final(settings), s),
            None => *final(settings) == *old(settings),
        },
        *final(status) == if action is TogglePause {
            TrayStatus { paused: !old(status).paused, ..*old(status) }
        } else {
            *old(status)
        },
{
    match action {
        TrayAction::TogglePause => {
            let now = !status.is_paused();
            status.set_paused(now);
            TrayTask::Done
        },
        TrayAction::ToggleAutostart => TrayTask::SetAutostart(!autostart),
        TrayAction::ShowPairingCode => TrayTask::HostPairing,
        TrayAction::EnterPairingCode => TrayTask::JoinPairing,
        TrayAction::NewPairingCode => TrayTask::NewCode,
        TrayAction::FetchPending => TrayTask::FetchPending,
        TrayAction::Quit => TrayTask::Stop,
        TrayAction::ToggleImages => TrayTask::Save(settings.update(flip_images)),
        TrayAction::ToggleFiles => TrayTask::Save(settings.update(flip_files)),
        TrayAction::ToggleCompress => TrayTask::Save(settings.update(flip_compress)),
        TrayAction::PromptAutoFetch => TrayTask::AskAutoFetch,
        TrayAction::PromptUploadLimit => TrayTask::AskUploadLimit,
        TrayAction::PromptListenPort => TrayTask::AskListenPort,
        TrayAction::PromptLanguage => TrayTask::AskLanguage,
        TrayAction::ToggleVerboseLog => TrayTask::SwitchLog(!settings.snapshot().verbose_log),
        TrayAction::OpenLogDir => TrayTask::OpenLogDir,
        TrayAction::RemovePeer(device) => TrayTask::RemovePeer(device),
        TrayAction::LeaveGroup => TrayTask::LeaveGroup,
    }
}

/// Notes the log's new level, but only where the switch worked: the menu must not claim
/// what is not so. The result is what to store.
pub fn verbose_switched(settings: &mut SettingsHandle, now: bool, worked: bool) -> (r: Option<
    Settings,
>)
    ensures
        if worked {
            let after = Settings { verbose_log: now, ..old(settings)@ };
            changed(*old(settings), *final(settings), after) && r == Some(after)
        } else {
            *final(settings) == *old(settings) && r is None
        },
{
    if !worked {
        return None;
    }
    let mut s = settings.snapshot();
    s.verbose_log = now;
    Some(store(settings, s))
}

/// The settings as the menu shows them.
pub fn tray_settings(s: &Settings) -> (r: TraySettings)
    ensures
        r == (TraySettings {
            sync_images: s.allow_image,
            sync_files: s.allow_files,
            compress: s.compress_transfers,
            auto_fetch_bytes: s.auto_fetch_bytes,
            upload_limit: s.upload_limit_bytes_per_sec,
            listen_port: s.listen_port,
            verbose_log: s.verbose_log,
        }),
{
    TraySettings {
        sync_images: s.allow_image,
        sync_files: s.allow_files,
        compress: s.compress_transfers,
        auto_fetch_bytes: s.auto_fetch_bytes,
        upload_limit: s.upload_limit_bytes_per_sec,
        listen_port: s.listen_port,
        verbose_log: s.verbose_log,
    }
}

/// Where the folder of the log could not be opened: what to show instead.
pub fn log_dir_message(dir: &str, why: &str) -> (r: String)
    ensures
        r@ == "日志位于：\n"@ + dir@ + "\n\n（自动打开失败："@ + why@ + "）"@,
{
    let mut s = copy_of("日志位于：\n");
    s.append(dir);
    s.append("\n\n（自动打开失败：");
    s.append(why);
    s.append("）");
    s
}

/// A question with items to pick from.
pub struct Question {
    pub title: String,
    pub body: String,
    pub items: Vec<String>,
}

/// The items of a question: the presets' labels, and a way to type something else.
pub open spec fn offers<T>(items: Seq<String>, presets: Seq<(&'static str, T)>) -> bool {
    &&& items.len() == presets.len() + 1
    &&& forall|i: int| 0 <= i < presets.len() ==> (#[trigger] items[i])@ == presets[i].0@
    &&& items[presets.len() as int]@ == "自定义…"@
}

fn question<T>(title: &str, current: &str, presets: &Vec<(&'static str, T)>) -> (r: Question)
    ensures
        r.title@ == title@,
        r.body@ == "当前："@ + current@,
        offers(r.items@, presets@),
{
    let mut items: Vec<String> = Vec::new();
    let mut i: usize = 0;
    while i < presets.len()
        invariant
            i <= presets.len(),
            items@.len() == i,
            forall|k: int| 0 <= k < i ==> (#[trigger] items@[k])@ == presets@[k].0@,
        decreases presets.len() - i,
    {
        items.push(copy_of(presets[i].0));
        i += 1;
    }
    items.push(copy_of("自定义…"));
    let mut body = copy_of("当前：");
    body.append(current);
    Question { title: copy_of(title), body, items }
}

/// What became of a question.
pub enum Outcome {
    /// The user changed their mind.
    Nothing,
    /// The settings to store.
    Saved(Settings),
    /// What was typed was not understood: what to tell the user.
    Complain(String),
}

/// The limits for automatic fetching that can be picked; the largest value stands for no
/// limit.
pub open spec fn auto_fetch_table() -> Seq<(&'static str, usize)> {
    seq![
        ("10 MiB", 0xA0_0000usize),
        ("50 MiB", 0x320_0000usize),
        ("100 MiB（默认）", 0x640_0000usize),
        ("200 MiB", 0xC80_0000usize),
        ("500 MiB", 0x1F40_0000usize),
        ("1 GiB", 0x4000_0000usize),
        ("2 GiB", 0x8000_0000usize),
        ("不限", usize::MAX),
    ]
}

/// The limits for automatic fetching that can be picked.
pub fn auto_fetch_presets() -> (r: Vec<(&'static str, usize)>)
    ensures
        r@ == auto_fetch_table(),
{
    let r: Vec<(&'static str, usize)> = vec![
        ("10 MiB", 0xA0_0000usize),
        ("50 MiB", 0x320_0000usize),
        ("100 MiB（默认）", 0x640_0000usize),
        ("200 MiB", 0xC80_0000usize),
        ("500 MiB", 0x1F40_0000usize),
        ("1 GiB", 0x4000_0000usize),
        ("2 GiB", 0x8000_0000usize),
        ("不限", usize::MAX),
    ];
    r
}

/// The upload limits that can be picked, in bytes per second; zero stands for no limit.
pub open spec fn rate_table() -> Seq<(&'static str, u64)> {
    seq![
        ("不限（默认）", 0u64),
        ("2 MB/s", 2_000_000u64),
        ("5 MB/s", 5_000_000u64),
        ("10 MB/s", 10_000_000u64),
        ("20 MB/s", 20_000_000u64),
        ("50 MB/s", 50_000_000u64),
        ("100 MB/s", 100_000_000u64),
    ]
}

/// The upload limits that can be picked.
pub fn rate_presets() -> (r: Vec<(&'static str, u64)>)
    ensures
        r@ == rate_table(),
{
    let r: Vec<(&'static str, u64)> = vec![
        ("不限（默认）", 0u64),
        ("2 MB/s", 2_000_000u64),
        ("5 MB/s", 5_000_000u64),
        ("10 MB/s", 10_000_000u64),
        ("20 MB/s", 20_000_000u64),
        ("50 MB/s", 50_000_000u64),
        ("100 MB/s", 100_000_000u64),
    ];
    r
}

/// What a picked item and, where the last one was picked, a typed text stand for.
pub enum Pick<T> {
    Nothing,
    Value(T),
    Complain(String),
}

/// Reads a typed limit for automatic fetching; zero means no limit rather than nothing
/// at all.
pub fn parse_auto_fetch(input: &str) -> (r: Result<usize, SizeError>)
    ensures
        match r {
            Ok(v) => {
                &&& size_of(input@) matches SizeReading::Bytes(n)
                &&& v == if n == 0 {
                    usize::MAX
                } else {
                    (n as u64) as usize
                }
            },
            Err(e) => !(size_of(input@) is Bytes) && e.text() == complaint(size_of(input@)),
        },
{
    match parse_byte_size(input) {
        Ok(n) => Ok(
            if n == 0 {
                usize::MAX
            } else {
                #[verifier::truncate]
                (n as usize)
            },
        ),
        Err(e) => Err(e),
    }
}

/// The title of the question about automatic fetching.
pub const AUTO_FETCH_TITLE: &'static str = "自动取回上限";

/// What is asked where the user types a limit for automatic fetching.
pub const AUTO_FETCH_HINT: &'static str = "收到的文件多大以内自动拉取，超过的挂起等你点「取回」。\n输入大小，例如 500MB、1.5GiB；填 0 表示多大都自动拉";

/// The title of the question about the upload limit.
pub const RATE_TITLE: &'static str = "发送限速";

/// What is asked where the user types an upload limit.
pub const RATE_HINT: &'static str = "输入速率，例如 10MB/s、20mbps；填 0 表示不限";

/// The question about automatic fetching, with the current limit.
pub fn ask_auto_fetch(s: &Settings) -> (r: Question)
    ensures
        r.title@ == AUTO_FETCH_TITLE@,
        r.body@ == "当前："@ + if s.auto_fetch_bytes == usize::MAX {
            "不限"@
        } else {
            size_text(s.auto_fetch_bytes as nat)
        },
        offers(r.items@, auto_fetch_table()),
{
    let shown = if s.auto_fetch_bytes == usize::MAX {
        copy_of("不限")
    } else {
        human_bytes(s.auto_fetch_bytes as u64)
    };
    let presets = auto_fetch_presets();
    question(AUTO_FETCH_TITLE, shown.as_str(), &presets)
}

/// The question about the upload limit, with the current one.
pub fn ask_upload_limit(s: &Settings) -> (r: Question)
    ensures
        r.title@ == RATE_TITLE@,
        r.body@ == "当前："@ + if s.upload_limit_bytes_per_sec == 0 {
            "不限"@
        } else {
            size_text(s.upload_limit_bytes_per_sec as nat) + "/s"@
        },
        offers(r.items@, rate_table()),
{
    let shown = if s.upload_limit_bytes_per_sec == 0 {
        copy_of("不限")
    } else {
        let mut t = human_bytes(s.upload_limit_bytes_per_sec);
        t.append("/s");
        t
    };
    let presets = rate_presets();
    question(RATE_TITLE, shown.as_str(), &presets)
}

/// What the answers about automatic fetching stand for: the picked limit, or the typed
/// one, or nothing.
pub open spec fn auto_fetch_pick(choice: Option<usize>, typed: Option<Seq<char>>, r: Pick<usize>) -> bool {
    match choice {
        None => r is Nothing,
        Some(i) => if i < auto_fetch_table().len() {
            r == Pick::Value(auto_fetch_table()[i as int].1)
        } else {
            match typed {
                None => r is Nothing,
                Some(t) => match size_of(t) {
                    SizeReading::Bytes(n) => r == Pick::Value(
                        if n == 0 {
                            usize::MAX
                        } else {
                            (n as u64) as usize
                        },
                    ),
                    e => r matches Pick::Complain(m) && m@ == complaint(e),
                },
            }
        },
    }
}

fn pick_auto_fetch(choice: Option<usize>, typed: &Option<String>) -> (r: Pick<usize>)
    ensures
        auto_fetch_pick(choice, text_of(*typed), r),
{
    let presets = auto_fetch_presets();
    match choice {
        None => Pick::Nothing,
        Some(i) => if i < presets.len() {
            Pick::Value(presets[i].1)
        } else {
            match typed {
                None => Pick::Nothing,
                Some(t) => match parse_auto_fetch(t.as_str()) {
                    Ok(v) => Pick::Value(v),
                    Err(e) => Pick::Complain(e.message()),
                },
            }
        },
    }
}

/// The characters of a typed text, if any.
pub open spec fn text_of(t: Option<String>) -> Option<Seq<char>> {
    match t {
        Some(s) => Some(s@),
        None => None,
    }
}

/// Puts the answers about automatic fetching into effect. `typed` is asked for only
/// where the last item was picked.
pub fn prompt_auto_fetch(
    settings: &mut SettingsHandle,
    choice: Option<usize>,
    typed: Option<String>,
) -> (r: Outcome)
    ensures
        exists|p: Pick<usize>| #[trigger]
            auto_fetch_pick(choice, text_of(typed), p) && match p {
                Pick::Nothing => r is Nothing && *final(settings) == *old(settings),
                Pick::Value(v) => {
                    let after = Settings { auto_fetch_bytes: v, ..old(settings)@ };
                    r == Outcome::Saved(after) && changed(*old(settings), *final(settings), after)
                },
                Pick::Complain(m) => r == Outcome::Complain(m) && *final(settings)
                    == *old(settings),
            },
{
    let p = pick_auto_fetch(choice, &typed);
    let ghost picked = p;
    assert(auto_fetch_pick(choice, text_of(typed), picked));
    match p {
        Pick::Nothing => Outcome::Nothing,
        Pick::Value(v) => {
            let mut s = settings.snapshot();
            s.auto_fetch_bytes = v;
            Outcome::Saved(store(settings, s))
        },
        Pick::Complain(m) => Outcome::Complain(m),
    }
}

/// What the answers about the upload limit stand for.
pub open spec fn rate_pick(choice: Option<usize>, typed: Option<Seq<char>>, r: Pick<u64>) -> bool {
    match choice {
        None => r is Nothing,
        Some(i) => if i < rate_table().len() {
            r == Pick::Value(rate_table()[i as int].1)
        } else {
            match typed {
                None => r is Nothing,
                Some(t) => match rate_of(t) {
                    SizeReading::Bytes(n) => r == Pick::Value(n as u64),
                    e => r matches Pick::Complain(m) && m@ == complaint(e),
                },
            }
        },
    }
}

fn pick_rate(choice: Option<usize>, typed: &Option<String>) -> (r: Pick<u64>)
    ensures
        rate_pick(choice, text_of(*typed), r),
{
    let presets = rate_presets();
    match choice {
        None => Pick::Nothing,
        Some(i) => if i < presets.len() {
            Pick::Value(presets[i].1)
        } else {
            match typed {
                None => Pick::Nothing,
                Some(t) => match parse_rate(t.as_str()) {
                    Ok(v) => Pick::Value(v),
                    Err(e) => Pick::Complain(e.message()),
                },
            }
        },
    }
}

/// Puts the answers about the upload limit into effect. `typed` is asked for only where
/// the last item was picked.
pub fn prompt_upload_limit(
    settings: &mut SettingsHandle,
    choice: Option<usize>,
    typed: Option<String>,
) -> (r: Outcome)
    ensures
        exists|p: Pick<u64>| #[trigger]
            rate_pick(choice, text_of(typed), p) && match p {
                Pick::Nothing => r is Nothing && *final(settings) == *old(settings),
                Pick::Value(v) => {
                    let after = Settings { upload_limit_bytes_per_sec: v, ..old(settings)@ };
                    r == Outcome::Saved(after) && changed(*old(settings), *final(settings), after)
                },
                Pick::Complain(m) => r == Outcome::Complain(m) && *final(settings)
                    == *old(settings),
            },
{
    let p = pick_rate(choice, &typed);
    let ghost picked = p;
    assert(rate_pick(choice, text_of(typed), picked));
    match p {
        Pick::Nothing => Outcome::Nothing,
        Pick::Value(v) => {
            let mut s = settings.snapshot();
            s.upload_limit_bytes_per_sec = v;
            Outcome::Saved(store(settings, s))
        },
        Pick::Complain(m) => Outcome::Complain(m),
    }
}

/// What is asked about the port.
pub fn ask_listen_port(current: u16) -> (r: String)
    ensures
        r@ == "当前："@ + decimal(current as nat) + "\n\n填 1024–65535；重启后生效"@,
{
    let mut s = copy_of("当前：");
    s.append(decimal_of(current as u64).as_str());
    s.append("\n\n填 1024–65535；重启后生效");
    s
}

/// The number that a row of decimal digits stands for.
pub open spec fn number(s: Seq<char>) -> nat
    decreases s.len(),
{
    if s.len() == 0 {
        0
    } else {
        (10 * number(s.drop_last()) + (s.last() as int - '0' as int)) as nat
    }
}

/// The digits of a typed number: what follows an optional plus sign.
pub open spec fn unsigned(s: Seq<char>) -> Seq<char> {
    if s.len() > 0 && s[0] == '+' {
        s.drop_first()
    } else {
        s
    }
}

/// The 16-bit number that a text stands for, leading zeros and a plus sign allowed.
pub open spec fn port_number(s: Seq<char>) -> Option<nat> {
    let d = unsigned(s);
    if d.len() > 0 && (forall|i: int| 0 <= i < d.len() ==> is_digit(#[trigger] d[i])) && number(d)
        <= 65535 {
        Some(number(d))
    } else {
        None
    }
}

proof fn lemma_number_grows(s: Seq<char>, i: int)
    requires
        0 <= i <= s.len(),
        forall|k: int| 0 <= k < s.len() ==> is_digit(#[trigger] s[k]),
    ensures
        number(s.take(i)) <= number(s),
    decreases s.len() - i,
{
    if i < s.len() {
        assert(s.take(i + 1).drop_last() =~= s.take(i));
        assert(is_digit(s[i]));
        lemma_number_grows(s, i + 1);
    } else {
        assert(s.take(i) =~= s);
    }
}

fn parse_u16(cs: &[char]) -> (r: Option<u16>)
    ensures
        match r {
            Some(p) => port_number(cs@) == Some(p as nat),
            None => port_number(cs@) is None,
        },
{
    let start: usize = if cs.len() > 0 && cs[0] == '+' {
        1
    } else {
        0
    };
    let ghost d = unsigned(cs@);
    assert(d =~= cs@.skip(start as int));
    if start == cs.len() {
        return None;
    }
    let mut acc: u32 = 0;
    let mut i: usize = start;
    while i < cs.len()
        invariant
            start <= i <= cs.len(),
            start <= 1,
            d == cs@.skip(start as int),
            d == unsigned(cs@),
            acc <= 65535,
            acc == number(d.take(i - start)),
            forall|k: int| 0 <= k < i - start ==> is_digit(#[trigger] d[k]),
        decreases cs.len() - i,
    {
        let c = cs[i];
        assert(c == d[i - start]);
        if !(c >= '0' && c <= '9') {
            return None;
        }
        proof {
            assert(d.take(i - start + 1).drop_last() =~= d.take(i - start));
        }
        acc = 10 * acc + (c as u32 - '0' as u32);
        assert(acc == number(d.take(i - start + 1)));
        if acc > 65535 {
            proof {
                if port_number(cs@) is Some {
                    lemma_number_grows(d, i - start + 1);
                }
            }
            return None;
        }
        i += 1;
    }
    assert(d.take(d.len() as int) =~= d);
    Some(acc as u16)
}

/// Puts a typed port into effect, from the next start on. The system reserves ports
/// below 1024, so that they are turned down here rather than at the next start.
pub fn prompt_listen_port(settings: &mut SettingsHandle, typed: Option<String>) -> (r: Outcome)
    ensures
        match typed {
            None => r is Nothing && *final(settings) == *old(settings),
            Some(t) => match port_number(trimmed(t@)) {
                Some(p) => if p >= 1024 {
                    let after = Settings { listen_port: p as u16, ..old(settings)@ };
                    r == Outcome::Saved(after) && changed(*old(settings), *final(settings), after)
                } else {
                    &&& r matches Outcome::Complain(m)
                    &&& m@ == decimal(p) + " 属于系统保留范围，请填 1024–65535"@
                    &&& *final(settings) == *old(settings)
                },
                None => {
                    &&& r matches Outcome::Complain(m)
                    &&& m@ == "「"@ + t@ + "」不是有效端口"@
                    &&& *final(settings) == *old(settings)
                },
            },
        },
{
    let t = match typed {
        None => {
            return Outcome::Nothing;
        },
        Some(t) => t,
    };
    let cs = chars_of(t.as_str());
    let cs = trim(&cs);
    match parse_u16(&cs) {
        Some(p) => if p >= 1024 {
            let mut s = settings.snapshot();
            s.listen_port = p;
            Outcome::Saved(store(settings, s))
        } else {
            let mut m = decimal_of(p as u64);
            m.append(" 属于系统保留范围，请填 1024–65535");
            Outcome::Complain(m)
        },
        None => {
            let mut m = copy_of("「");
            m.append(t.as_str());
            m.append("」不是有效端口");
            Outcome::Complain(m)
        },
    }
}

/// The languages that can be picked, in this order.
pub open spec fn language_choices() -> Seq<LangPref> {
    seq![LangPref::Auto, LangPref::Fixed(Lang::Zh), LangPref::Fixed(Lang::English)]
}

/// A language's item: its own name for itself, ticked where it is in effect.
pub open spec fn language_item(p: LangPref, current: LangPref, lang: Lang) -> Seq<char> {
    let name = match p {
        LangPref::Auto => match lang {
            Lang::Zh => "跟随系统"@,
            Lang::English => "Follow system"@,
        },
        LangPref::Fixed(Lang::Zh) => "中文"@,
        LangPref::Fixed(Lang::English) => "English"@,
    };
    if p == current {
        name + " ✓"@
    } else {
        name
    }
}

fn item_of(p: LangPref, current: LangPref, lang: Lang) -> (r: String)
    ensures
        r@ == language_item(p, current, lang),
{
    let mut s = match p {
        LangPref::Auto => match lang {
            Lang::Zh => copy_of("跟随系统"),
            Lang::English => copy_of("Follow system"),
        },
        LangPref::Fixed(Lang::Zh) => copy_of("中文"),
        LangPref::Fixed(Lang::English) => copy_of("English"),
    };
    if p == current {
        s.append(" ✓");
    }
    s
}

/// The question about the language.
pub fn ask_language(s: &Settings, lang: Lang) -> (r: Question)
    ensures
        r.title@ == match lang {
            Lang::Zh => "界面语言"@,
            Lang::English => "Language"@,
        },
        r.body@ == match lang {
            Lang::Zh => "选「跟随系统」则随系统语言自动切换。改完立即生效，无需重启。"@,
            Lang::English => "\"Follow system\" tracks your system language. Takes effect immediately."@,
        },
        r.items@.len() == 3,
        forall|i: int|
            0 <= i < 3 ==> (#[trigger] r.items@[i])@ == language_item(
                language_choices()[i],
                preference(s.language@),
                lang,
            ),
{
    let current = LangPref::parse(s.language.as_str());
    let mut items: Vec<String> = Vec::new();
    items.push(item_of(LangPref::Auto, current, lang));
    items.push(item_of(LangPref::Fixed(Lang::Zh), current, lang));
    items.push(item_of(LangPref::Fixed(Lang::English), current, lang));
    match lang {
        Lang::Zh => Question {
            title: copy_of("界面语言"),
            body: copy_of("选「跟随系统」则随系统语言自动切换。改完立即生效，无需重启。"),
            items,
        },
        Lang::English => Question {
            title: copy_of("Language"),
            body: copy_of("\"Follow system\" tracks your system language. Takes effect immediately."),
            items,
        },
    }
}

/// Puts the picked language into effect: the settings to store, and the language that
/// the interface speaks from now on. `system` is the system's language, if known.
pub fn prompt_language(
    settings: &mut SettingsHandle,
    choice: Option<usize>,
    system: Option<Lang>,
) -> (r: Option<(Settings, Lang)>)
    requires
        choice matches Some(i) ==> i < 3,
    ensures
        match choice {
            None => r is None && *final(settings) == *old(settings),
            Some(i) => {
                let p = language_choices()[i as int];
                &&& r matches Some((s, now))
                &&& s.language@ == p.code()
                &&& s == (Settings { language: s.language, ..old(settings)@ })
                &&& changed(*old(settings), *final(settings), s)
                &&& now == match p {
                    LangPref::Fixed(l) => l,
                    LangPref::Auto => match system {
                        Some(l) => l,
                        None => Lang::Zh,
                    },
                }
            },
        },
{
    match choice {
        None => None,
        Some(i) => {
            let picked = if i == 0 {
                LangPref::Auto
            } else if i == 1 {
                LangPref::Fixed(Lang::Zh)
            } else {
                LangPref::Fixed(Lang::English)
            };
            let mut s = settings.snapshot();
            s.language = copy_of(picked.as_str());
            let saved = store(settings, s);
            Some((saved, picked.resolve(system)))
        },
    }
}

/// The presets grow from one to the next, so that the lists read naturally; the first
/// upload limit is "none", which is the largest.
pub proof fn presets_grow(i: int, j: int)
    ensures
        0 <= i < j < auto_fetch_table().len() ==> auto_fetch_table()[i].1
            < auto_fetch_table()[j].1,
        1 <= i < j < rate_table().len() ==> rate_table()[i].1 < rate_table()[j].1,
{
}

/// Toggling twice changes nothing.
pub proof fn toggling_twice_is_nothing(action: TrayAction, s: Settings)
    ensures
        toggled(action, s) matches Some(t) ==> toggled(action, t) == Some(s),
{
}

/// Only quitting ends the program.
pub proof fn only_quitting_stops(action: TrayAction, s: Settings, autostart: bool)
    ensures
        task_of(action, s, autostart) is Stop <==> action is Quit,
{
}

/// Each toggle turns one switch over and touches nothing else; no other action touches the
/// settings.
pub proof fn toggles_turn_one_switch(action: TrayAction, s: Settings)
    ensures
        toggled(action, s) is Some <==> action is ToggleImages || action is ToggleFiles
            || action is ToggleCompress,
        toggled(action, s) matches Some(t) ==> {
            &&& t.allow_image == (s.allow_image != action is ToggleImages)
            &&& t.allow_files == (s.allow_files != action is ToggleFiles)
            &&& t.compress_transfers == (s.compress_transfers != action is ToggleCompress)
            &&& t.auto_fetch_bytes == s.auto_fetch_bytes
            &&& t.upload_limit_bytes_per_sec == s.upload_limit_bytes_per_sec
            &&& t.listen_port == s.listen_port
            &&& t.language == s.language
            &&& t.verbose_log == s.verbose_log
        },
{
}

/// A click on an entry of the menu leads to what the entry says.
pub proof fn entries_do_what_they_say(s: Settings, autostart: bool)
    ensures
        task_of(Entry::Autostart.asks(), s, autostart) == TrayTask::SetAutostart(!autostart),
        task_of(Entry::Pair.asks(), s, autostart) is HostPairing,
        task_of(Entry::Join.asks(), s, autostart) is JoinPairing,
        task_of(Entry::NewCode.asks(), s, autostart) is NewCode,
        task_of(Entry::Fetch.asks(), s, autostart) is FetchPending,
        task_of(Entry::AutoFetch.asks(), s, autostart) is AskAutoFetch,
        task_of(Entry::Rate.asks(), s, autostart) is AskUploadLimit,
        task_of(Entry::Port.asks(), s, autostart) is AskListenPort,
        task_of(Entry::Language.asks(), s, autostart) is AskLanguage,
        task_of(Entry::VerboseLog.asks(), s, autostart) == TrayTask::SwitchLog(!s.verbose_log),
        task_of(Entry::LogDir.asks(), s, autostart) is OpenLogDir,
        task_of(Entry::Quit.asks(), s, autostart) is Stop,
        task_of(Entry::Pause.asks(), s, autostart) is Done,
        task_of(Entry::Images.asks(), s, autostart) matches TrayTask::Save(t) && t.allow_image
            == !s.allow_image,
        task_of(Entry::Files.asks(), s, autostart) matches TrayTask::Save(t) && t.allow_files
            == !s.allow_files,
        task_of(Entry::Compress.asks(), s, autostart) matches TrayTask::Save(t)
            && t.compress_transfers == !s.compress_transfers,
{
}

proof fn lemma_number_is_value(s: Seq<char>)
    requires
        forall|i: int| 0 <= i < s.len() ==> '0' <= #[trigger] s[i] <= '9',
    ensures
        number(s) == digits_value(s),
    decreases s.len(),
{
    if s.len() > 0 {
        let t = s.drop_last();
        assert('0' <= s[s.len() - 1] <= '9');
        assert forall|i: int| 0 <= i < t.len() implies '0' <= #[trigger] t[i] <= '9' by {
            assert('0' <= s[i] <= '9');
        }
        lemma_number_is_value(t);
    }
}

/// Every port is understood as it is written down, with or without a plus sign; a number
/// that is no port is not.
pub proof fn written_ports_are_understood(n: nat)
    ensures
        n <= 65_535 ==> port_number(decimal(n)) == Some(n),
        n <= 65_535 ==> port_number(seq!['+'] + decimal(n)) == Some(n),
        n > 65_535 ==> port_number(decimal(n)) is None,
        n > 65_535 ==> port_number(seq!['+'] + decimal(n)) is None,
{
    written_numbers_read_back(n);
    let d = decimal(n);
    lemma_number_is_value(d);
    assert('0' <= d[0] <= '9');
    assert(unsigned(d) == d);
    assert(unsigned(seq!['+'] + d) =~= d);
    assert forall|i: int| 0 <= i < d.len() implies is_digit(#[trigger] d[i]) by {
        assert('0' <= d[i] <= '9');
    }
}

/// What is understood as a port is made of digits, but for a plus sign in front.
pub proof fn only_digits_make_a_port(s: Seq<char>)
    ensures
        port_number(s) is Some ==> forall|i: int|
            0 <= i < s.len() ==> '0' <= #[trigger] s[i] <= '9' || (i == 0 && s[0] == '+'),
        port_number(s) matches Some(p) ==> p <= 65_535,
        port_number(s) is Some ==> s.len() > 0,
{
    if port_number(s) is Some {
        let d = unsigned(s);
        assert forall|i: int| 0 <= i < s.len() implies '0' <= #[trigger] s[i] <= '9' || (i == 0
            && s[0] == '+') by {
            if s[0] == '+' {
                if i > 0 {
                    assert(is_digit(d[i - 1]));
                }
            } else {
                assert(is_digit(d[i]));
            }
        }
    }
}

/// A picked limit is the preset's; "no limit" is the largest value for fetching and zero for
/// uploading. Without a pick, nothing is changed.
pub proof fn picks_are_the_presets(
    choice: Option<usize>,
    typed: Option<Seq<char>>,
    a: Pick<usize>,
    b: Pick<u64>,
)
    requires
        auto_fetch_pick(choice, typed, a),
        rate_pick(choice, typed, b),
    ensures
        choice is None ==> a is Nothing && b is Nothing,
        choice == Some(7usize) ==> a == Pick::Value(usize::MAX),
        choice == Some(0usize) ==> b == Pick::Value(0u64),
        choice == Some(0usize) ==> a == Pick::Value(0xA0_0000usize),
        choice matches Some(i) ==> (i < 7 ==> a is Value && b is Value) && (i >= 8
            && typed is None ==> a is Nothing && b is Nothing),
{
}

/// The language in effect is ticked, and no other.
pub proof fn the_language_in_effect_is_ticked(p: LangPref, current: LangPref, lang: Lang)
    ensures
        language_item(p, current, lang).last() == '✓' <==> p == current,
        language_item(p, current, lang).len() > 0,
{
    reveal_strlit(" ✓");
    reveal_strlit("跟随系统");
    reveal_strlit("Follow system");
    reveal_strlit("中文");
    reveal_strlit("English");
    assert("跟随系统"@.last() == '统');
    assert("Follow system"@.last() == 'm');
    assert("中文"@.last() == '文');
    assert("English"@.last() == 'h');
    assert(" ✓"@.last() == '✓');
}

/// A typed limit is the one that takes effect; none for fetching is typed as zero. What is
/// not understood changes nothing, and the user is told why.
pub proof fn typed_limits_take_effect(
    i: usize,
    typed: Seq<char>,
    a: Pick<usize>,
    b: Pick<u64>,
)
    requires
        i >= 8,
        auto_fetch_pick(Some(i), Some(typed), a),
        rate_pick(Some(i), Some(typed), b),
    ensures
        size_of(typed) == SizeReading::Bytes(0) ==> a == Pick::Value(usize::MAX),
        size_of(typed) matches SizeReading::Bytes(n) ==> (0 < n <= u64::MAX && n <= usize::MAX
            ==> a == Pick::Value(n as usize)),
        !(size_of(typed) is Bytes) ==> (a matches Pick::Complain(m) && m@ == complaint(
            size_of(typed),
        )),
        rate_of(typed) matches SizeReading::Bytes(n) ==> (n <= u64::MAX ==> b == Pick::Value(
            n as u64,
        )),
        !(rate_of(typed) is Bytes) ==> (b matches Pick::Complain(m) && m@ == complaint(
            rate_of(typed),
        )),
{
}

} // verus!
