//! The tray menu as a state machine.
//!
//! Drawing menus and icons is the platform's business. What a click means, and what has
//! to be drawn again when something changed, is decided here. Nothing is drawn that did
//! not change: the loop turns five times a second.

use vstd::prelude::*;
use vstd::string::*;

pub use crate::tray_icon_draw::IconState;
pub use crate::tray_menu::{human_bytes, TrayPeer};
pub use crate::tray_status::{PendingFetchInfo, TransferProgress, TrayStatus};
pub use crate::tray_text::ellipsize_middle;

use crate::known_peers::KnownPeers;
use crate::language::Lang;
use crate::text::str_eq;
use crate::tray_icon_draw::{icon_of, is_dimmed};
use crate::tray_menu::{auto_fetch_label, auto_fetch_text, fetch_label, fetch_text, pairing_label, pairing_text, port_label, port_text, rate_label, rate_text, LEAVE_GROUP_ID};
use crate::tray_status::{lists, waiting_text};
use crate::tray_text::fitted;

verus! {

/// What the user asked for.
#[derive(Debug, Clone, PartialEq, Eq)]
pub enum TrayAction {
    TogglePause,
    ToggleAutostart,
    /// Host a pairing: show a code and wait for the other device.
    ShowPairingCode,
    /// Join a pairing: enter the other device's code.
    EnterPairingCode,
    /// Replace the current code by a new one.
    NewPairingCode,
    /// Fetch the files that wait.
    FetchPending,
    Quit,
    ToggleImages,
    ToggleFiles,
    ToggleCompress,
    PromptAutoFetch,
    PromptUploadLimit,
    PromptListenPort,
    PromptLanguage,
    /// Remove a device from the group.
    RemovePeer(String),
    /// Leave the group.
    LeaveGroup,
    OpenLogDir,
    ToggleVerboseLog,
}

/// The settings that the menu shows.
#[derive(Debug, Clone, Copy, PartialEq, Eq, Structural)]
pub struct TraySettings {
    pub sync_images: bool,
    pub sync_files: bool,
    pub compress: bool,
    pub auto_fetch_bytes: usize,
    pub upload_limit: u64,
    pub listen_port: u16,
    pub verbose_log: bool,
}

/// The menu's own entries.
#[derive(Debug, Clone, Copy, PartialEq, Eq, Structural)]
pub enum Entry {
    Pause,
    Autostart,
    Pair,
    Fetch,
    NewCode,
    Join,
    Quit,
    Images,
    Files,
    Compress,
    AutoFetch,
    Rate,
    Port,
    Language,
    VerboseLog,
    LogDir,
}

impl Entry {
    /// What a click on the entry asks for.
    pub open spec fn asks(self) -> TrayAction {
        match self {
            Entry::Pause => TrayAction::TogglePause,
            Entry::Autostart => TrayAction::ToggleAutostart,
            Entry::Pair => TrayAction::ShowPairingCode,
            Entry::Fetch => TrayAction::FetchPending,
            Entry::NewCode => TrayAction::NewPairingCode,
            Entry::Join => TrayAction::EnterPairingCode,
            Entry::Quit => TrayAction::Quit,
            Entry::Images => TrayAction::ToggleImages,
            Entry::Files => TrayAction::ToggleFiles,
            Entry::Compress => TrayAction::ToggleCompress,
            Entry::AutoFetch => TrayAction::PromptAutoFetch,
            Entry::Rate => TrayAction::PromptUploadLimit,
            Entry::Port => TrayAction::PromptListenPort,
            Entry::Language => TrayAction::PromptLanguage,
            Entry::VerboseLog => TrayAction::ToggleVerboseLog,
            Entry::LogDir => TrayAction::OpenLogDir,
        }
    }

    /// What a click on the entry asks for.
    pub fn action(self) -> (r: TrayAction)
        ensures
            r == self.asks(),
    {
        match self {
            Entry::Pause => TrayAction::TogglePause,
            Entry::Autostart => TrayAction::ToggleAutostart,
            Entry::Pair => TrayAction::ShowPairingCode,
            Entry::Fetch => TrayAction::FetchPending,
            Entry::NewCode => TrayAction::NewPairingCode,
            Entry::Join => TrayAction::EnterPairingCode,
            Entry::Quit => TrayAction::Quit,
            Entry::Images => TrayAction::ToggleImages,
            Entry::Files => TrayAction::ToggleFiles,
            Entry::Compress => TrayAction::ToggleCompress,
            Entry::AutoFetch => TrayAction::PromptAutoFetch,
            Entry::Rate => TrayAction::PromptUploadLimit,
            Entry::Port => TrayAction::PromptListenPort,
            Entry::Language => TrayAction::PromptLanguage,
            Entry::VerboseLog => TrayAction::ToggleVerboseLog,
            Entry::LogDir => TrayAction::OpenLogDir,
        }
    }
}

/// A line of the menu.
#[derive(Debug, Clone, Copy, PartialEq, Eq, Structural)]
pub enum MenuRow {
    /// The state in one line; it cannot be clicked.
    Status,
    Separator,
    Entry(Entry),
    /// The submenu of paired devices.
    Peers,
    /// The submenu of settings that few people touch.
    Advanced,
}

/// The line that the fetch entry takes when something waits.
pub const FETCH_SLOT: usize = 2;

/// The menu from top to bottom, while nothing waits to be fetched.
pub open spec fn usual_rows() -> Seq<MenuRow> {
    seq![
        MenuRow::Status,
        MenuRow::Separator,
        MenuRow::Entry(Entry::Pair),
        MenuRow::Entry(Entry::NewCode),
        MenuRow::Entry(Entry::Join),
        MenuRow::Peers,
        MenuRow::Separator,
        MenuRow::Entry(Entry::Images),
        MenuRow::Entry(Entry::Files),
        MenuRow::Entry(Entry::Pause),
        MenuRow::Separator,
        MenuRow::Entry(Entry::Autostart),
        MenuRow::Advanced,
        MenuRow::Separator,
        MenuRow::Entry(Entry::Quit),
    ]
}

/// The menu from top to bottom. The fetch entry is a notice: without files that wait,
/// its line is not there.
pub fn menu_rows(fetch: bool) -> (r: Vec<MenuRow>)
    ensures
        r@ == if fetch {
            usual_rows().insert(2, MenuRow::Entry(Entry::Fetch))
        } else {
            usual_rows()
        },
{
    let mut r: Vec<MenuRow> = vec![
        MenuRow::Status,
        MenuRow::Separator,
        MenuRow::Entry(Entry::Pair),
        MenuRow::Entry(Entry::NewCode),
        MenuRow::Entry(Entry::Join),
        MenuRow::Peers,
        MenuRow::Separator,
        MenuRow::Entry(Entry::Images),
        MenuRow::Entry(Entry::Files),
        MenuRow::Entry(Entry::Pause),
        MenuRow::Separator,
        MenuRow::Entry(Entry::Autostart),
        MenuRow::Advanced,
        MenuRow::Separator,
        MenuRow::Entry(Entry::Quit),
    ];
    assert(r@ =~= usual_rows());
    if fetch {
        r.insert(FETCH_SLOT, MenuRow::Entry(Entry::Fetch));
    }
    r
}

/// The submenu of settings that few people touch, from top to bottom.
pub fn advanced_rows() -> (r: Vec<MenuRow>)
    ensures
        r@ == seq![
            MenuRow::Entry(Entry::AutoFetch),
            MenuRow::Entry(Entry::Rate),
            MenuRow::Entry(Entry::Port),
            MenuRow::Entry(Entry::Compress),
            MenuRow::Entry(Entry::Language),
            MenuRow::Separator,
            MenuRow::Entry(Entry::VerboseLog),
            MenuRow::Entry(Entry::LogDir),
        ],
{
    let r: Vec<MenuRow> = vec![
        MenuRow::Entry(Entry::AutoFetch),
        MenuRow::Entry(Entry::Rate),
        MenuRow::Entry(Entry::Port),
        MenuRow::Entry(Entry::Compress),
        MenuRow::Entry(Entry::Language),
        MenuRow::Separator,
        MenuRow::Entry(Entry::VerboseLog),
        MenuRow::Entry(Entry::LogDir),
    ];
    r
}

/// Where `id` first stands in a list of clickable lines; the list's length where it
/// does not.
pub open spec fn line_at<T>(lines: Seq<(String, T)>, id: Seq<char>) -> nat
    decreases lines.len(),
{
    if lines.len() == 0 || lines[0].0@ == id {
        0
    } else {
        1 + line_at(lines.drop_first(), id)
    }
}

proof fn lemma_line_at<T>(lines: Seq<(String, T)>, id: Seq<char>, i: nat)
    requires
        i <= lines.len(),
        forall|k: int| 0 <= k < i ==> (#[trigger] lines[k]).0@ != id,
        i < lines.len() ==> lines[i as int].0@ == id,
    ensures
        line_at(lines, id) == i,
    decreases lines.len(),
{
    if i > 0 {
        let rest = lines.drop_first();
        assert(lines[0].0@ != id);
        assert forall|k: int| 0 <= k < i - 1 implies (#[trigger] rest[k]).0@ != id by {
            assert(lines[k + 1].0@ != id);
        }
        lemma_line_at(rest, id, (i - 1) as nat);
    }
}

fn find_line<T>(lines: &Vec<(String, T)>, id: &str) -> (r: usize)
    ensures
        r == line_at(lines@, id@),
        r <= lines@.len(),
{
    let mut i: usize = 0;
    while i < lines.len()
        invariant
            i <= lines.len(),
            forall|k: int| 0 <= k < i ==> (#[trigger] lines@[k]).0@ != id@,
        decreases lines.len() - i,
    {
        if str_eq(lines[i].0.as_str(), id) {
            proof {
                lemma_line_at(lines@, id@, i as nat);
            }
            return i;
        }
        i += 1;
    }
    proof {
        lemma_line_at(lines@, id@, i as nat);
    }
    i
}

/// The lines that can be clicked, under the ids that the platform gave them.
pub struct Clickable {
    pub entries: Vec<(String, Entry)>,
    /// The lines of the device menu, each with the device it stands for.
    pub peers: Vec<(String, String)>,
}

/// What a click on `id` asks for: an entry of the menu, a device's removal, or the way
/// out of the group. Nothing where no line has that id.
pub open spec fn click(lines: Clickable, id: Seq<char>) -> Option<TrayAction> {
    let i = line_at(lines.entries@, id);
    let j = line_at(lines.peers@, id);
    if i < lines.entries@.len() {
        Some(lines.entries@[i as int].1.asks())
    } else if j < lines.peers@.len() {
        let device = lines.peers@[j as int].1;
        Some(
            if device@ == LEAVE_GROUP_ID@ {
                TrayAction::LeaveGroup
            } else {
                TrayAction::RemovePeer(device)
            },
        )
    } else {
        None
    }
}

impl Clickable {
    /// What a click on `id` asks for.
    pub fn clicked(&self, id: &str) -> (r: Option<TrayAction>)
        ensures
            r == click(*self, id@),
    {
        let i: usize = find_line(&self.entries, id);
        if i < self.entries.len() {
            return Some(self.entries[i].1.action());
        }
        let j: usize = find_line(&self.peers, id);
        if j < self.peers.len() {
            if str_eq(self.peers[j].1.as_str(), LEAVE_GROUP_ID) {
                return Some(TrayAction::LeaveGroup);
            }
            return Some(TrayAction::RemovePeer(self.peers[j].1.clone()));
        }
        None
    }
}

/// What the settings look like in the menu.
pub struct SettingsView {
    pub images: bool,
    pub files: bool,
    pub compress: bool,
    pub verbose: bool,
    pub auto_fetch: String,
    pub rate: String,
    pub port: String,
}

/// `v` shows the settings `s`.
pub open spec fn shows(v: SettingsView, s: TraySettings, lang: Lang) -> bool {
    &&& v.images == s.sync_images
    &&& v.files == s.sync_files
    &&& v.compress == s.compress
    &&& v.verbose == s.verbose_log
    &&& v.auto_fetch@ == auto_fetch_text(s.auto_fetch_bytes, lang)
    &&& v.rate@ == rate_text(s.upload_limit, lang)
    &&& v.port@ == port_text(s.listen_port, lang)
}

impl TraySettings {
    /// What the settings look like in the menu.
    pub fn view_in(&self, lang: Lang) -> (r: SettingsView)
        ensures
            shows(r, *self, lang),
    {
        SettingsView {
            images: self.sync_images,
            files: self.sync_files,
            compress: self.compress,
            verbose: self.verbose_log,
            auto_fetch: auto_fetch_label(self.auto_fetch_bytes, lang),
            rate: rate_label(self.upload_limit, lang),
            port: port_label(self.listen_port, lang),
        }
    }
}

/// The icon: its state, whether it is the paler half of a pulse, and the dot.
#[derive(Debug, Clone, Copy, PartialEq, Eq, Structural)]
pub struct IconLook {
    pub state: IconState,
    pub dimmed: bool,
    pub badge: bool,
}

/// What the world looks like at one turn of the loop.
pub struct Moment {
    /// Nanoseconds since the program started.
    pub now: u64,
    /// Milliseconds since the loop started.
    pub elapsed_ms: u64,
    /// The live pairing code and the seconds it has left.
    pub live: Option<(String, u64)>,
    pub settings_version: u64,
    pub settings: TraySettings,
    /// Whether the part that synchronises still runs.
    pub hub_alive: bool,
    pub lang: Lang,
}

/// What the menu shows now.
pub struct TrayLoop {
    pub pending: Option<PendingFetchInfo>,
    pub fetch_shown: bool,
    pub live: Option<(String, u64)>,
    pub settings_version: u64,
    pub summary: String,
    pub tip: String,
    pub connected: Vec<String>,
    pub peers_version: u64,
    pub icon: IconLook,
}

/// What to do with the fetch entry.
#[derive(Debug)]
pub enum FetchRow {
    Keep,
    /// A new label; the line is already there.
    Relabel(String),
    /// Insert the line, with this label.
    Insert(String),
    Remove,
    /// Nothing waits, and the line was not there.
    Gone,
}

/// What has to be drawn again.
pub struct Redraw {
    pub fetch: FetchRow,
    /// The label of the pairing entry, and whether a new code can be asked for.
    pub pairing: Option<(String, bool)>,
    pub settings: Option<SettingsView>,
    /// The state in one line, and the tooltip.
    pub status: Option<(String, String)>,
    /// Whether the device menu is to be built anew.
    pub peers: bool,
    pub icon: Option<IconLook>,
}

/// The same devices, in whatever order.
pub open spec fn same_devices(a: Seq<String>, b: Seq<String>) -> bool {
    forall|s: Seq<char>| #[trigger] lists(a, s) == lists(b, s)
}

fn listed_in(v: &Vec<String>, s: &str) -> (r: bool)
    ensures
        r == lists(v@, s@),
{
    let mut i: usize = 0;
    while i < v.len()
        invariant
            i <= v.len(),
            forall|k: int| 0 <= k < i ==> (#[trigger] v@[k])@ != s@,
        decreases v.len() - i,
    {
        if str_eq(v[i].as_str(), s) {
            return true;
        }
        i += 1;
    }
    false
}

fn all_listed(a: &Vec<String>, b: &Vec<String>) -> (r: bool)
    ensures
        r == (forall|s: Seq<char>| #[trigger] lists(a@, s) ==> lists(b@, s)),
{
    let mut i: usize = 0;
    while i < a.len()
        invariant
            i <= a.len(),
            forall|k: int| 0 <= k < i ==> lists(b@, (#[trigger] a@[k])@),
        decreases a.len() - i,
    {
        if !listed_in(b, a[i].as_str()) {
            assert(lists(a@, a@[i as int]@));
            return false;
        }
        i += 1;
    }
    true
}

fn devices_same(a: &Vec<String>, b: &Vec<String>) -> (r: bool)
    ensures
        r == same_devices(a@, b@),
{
    let r = all_listed(a, b) && all_listed(b, a);
    proof {
        if same_devices(a@, b@) {
            assert forall|s: Seq<char>| #[trigger] lists(a@, s) implies lists(b@, s) by {
                assert(lists(a@, s) == lists(b@, s));
            }
            assert forall|s: Seq<char>| #[trigger] lists(b@, s) implies lists(a@, s) by {
                assert(lists(a@, s) == lists(b@, s));
            }
        }
    }
    r
}

/// Two notices of waiting files that say the same.
pub open spec fn same_pending(a: Option<PendingFetchInfo>, b: Option<PendingFetchInfo>) -> bool {
    match (a, b) {
        (Some(x), Some(y)) => x.from@ == y.from@ && x.first_name@ == y.first_name@ && x.count
            == y.count && x.total == y.total,
        (None, None) => true,
        _ => false,
    }
}

fn pending_same(a: &Option<PendingFetchInfo>, b: &Option<PendingFetchInfo>) -> (r: bool)
    ensures
        r == same_pending(*a, *b),
{
    match (a, b) {
        (Some(x), Some(y)) => str_eq(x.from.as_str(), y.from.as_str()) && str_eq(
            x.first_name.as_str(),
            y.first_name.as_str(),
        ) && x.count == y.count && x.total == y.total,
        (None, None) => true,
        _ => false,
    }
}

/// Two live codes that look the same.
pub open spec fn same_live(a: Option<(String, u64)>, b: Option<(String, u64)>) -> bool {
    match (a, b) {
        (Some((c, s)), Some((d, t))) => c@ == d@ && s == t,
        (None, None) => true,
        _ => false,
    }
}

fn live_same(a: &Option<(String, u64)>, b: &Option<(String, u64)>) -> (r: bool)
    ensures
        r == same_live(*a, *b),
{
    match (a, b) {
        (Some(x), Some(y)) => str_eq(x.0.as_str(), y.0.as_str()) && x.1 == y.1,
        (None, None) => true,
        _ => false,
    }
}

/// The label that the fetch entry has to carry.
pub open spec fn fetch_label_of(p: PendingFetchInfo, lang: Lang) -> Seq<char> {
    fetch_text(p.first_name@, p.count as nat, p.total as nat, lang)
}

/// The icon that belongs to a state.
pub open spec fn look_of(status: TrayStatus, m: Moment) -> IconLook {
    IconLook {
        state: icon_of(status),
        dimmed: status.transferring(m.now) && (m.elapsed_ms / 450) % 2 == 1,
        badge: status.waiting is Some,
    }
}

/// What the fetch entry needs. It is there exactly while something waits.
pub open spec fn fetch_row(
    before: TrayLoop,
    waiting: Option<PendingFetchInfo>,
    lang: Lang,
    r: FetchRow,
) -> bool {
    if same_pending(before.pending, waiting) {
        r is Keep
    } else {
        match waiting {
            Some(p) => if before.fetch_shown {
                r matches FetchRow::Relabel(s) && s@ == fetch_label_of(p, lang)
            } else {
                r matches FetchRow::Insert(s) && s@ == fetch_label_of(p, lang)
            },
            None => if before.fetch_shown {
                r is Remove
            } else {
                r is Gone
            },
        }
    }
}

/// The tooltip that belongs to a state.
pub open spec fn tip_of(status: TrayStatus, known: KnownPeers, m: Moment) -> Seq<char> {
    fitted(status.full_tooltip(known@.len(), m.now, m.lang), 63)
}

/// `r` redraws exactly what changed between what the menu shows and the new state.
pub open spec fn redraws(
    before: TrayLoop,
    status: TrayStatus,
    known: KnownPeers,
    m: Moment,
    r: Redraw,
) -> bool {
    let line = status.summary_text(known@.len(), m.now, m.lang);
    let tip = tip_of(status, known, m);
    &&& fetch_row(before, status.waiting, m.lang, r.fetch)
    &&& match r.pairing {
        Some((label, on)) => {
            &&& !same_live(before.live, m.live)
            &&& label@ == pairing_text(m.live, m.lang)
            &&& on == m.live is Some
        },
        None => same_live(before.live, m.live),
    }
    &&& match r.settings {
        Some(v) => before.settings_version != m.settings_version && shows(v, m.settings, m.lang),
        None => before.settings_version == m.settings_version,
    }
    &&& match r.status {
        Some((l, t)) => {
            &&& before.summary@ != line || before.tip@ != tip
            &&& l@ == line
            &&& t@ == tip
        },
        None => before.summary@ == line && before.tip@ == tip,
    }
    &&& r.peers == (!same_devices(before.connected@, status.connected@) || before.peers_version
        != known.spec_version())
    &&& r.icon == if before.icon == look_of(status, m) {
        None::<IconLook>
    } else {
        Some(look_of(status, m))
    }
}

/// `l` is what the menu shows once it is drawn for `status` at `m`.
pub open spec fn up_to_date(l: TrayLoop, status: TrayStatus, known: KnownPeers, m: Moment) -> bool {
    &&& same_pending(l.pending, status.waiting)
    &&& l.fetch_shown == status.waiting is Some
    &&& same_live(l.live, m.live)
    &&& l.settings_version == m.settings_version
    &&& l.summary@ == status.summary_text(known@.len(), m.now, m.lang)
    &&& l.tip@ == tip_of(status, known, m)
    &&& same_devices(l.connected@, status.connected@)
    &&& l.peers_version == known.spec_version()
    &&& l.icon == look_of(status, m)
}

/// The state after the loop looked whether synchronisation still runs.
pub open spec fn watched(before: TrayStatus, alive: bool, after: TrayStatus) -> bool {
    after == TrayStatus { hub_dead: before.hub_dead || !alive, ..before }
}

fn copy_strings(v: &Vec<String>) -> (r: Vec<String>)
    ensures
        r@ == v@,
{
    let mut r: Vec<String> = Vec::new();
    let mut i: usize = 0;
    while i < v.len()
        invariant
            i <= v.len(),
            r@ == v@.take(i as int),
        decreases v.len() - i,
    {
        r.push(v[i].clone());
        i += 1;
    }
    assert(v@.take(v@.len() as int) =~= v@);
    r
}

fn copy_live(live: &Option<(String, u64)>) -> (r: Option<(String, u64)>)
    ensures
        r == *live,
{
    match live {
        Some(x) => Some((x.0.clone(), x.1)),
        None => None,
    }
}

fn label_of_live(live: &Option<(String, u64)>, lang: Lang) -> (r: String)
    ensures
        r@ == pairing_text(*live, lang),
{
    match live {
        Some(x) => pairing_label(Some((x.0.as_str(), x.1)), lang),
        None => pairing_label(None, lang),
    }
}

impl TrayLoop {
    /// The fetch entry is there exactly while something waits.
    pub open spec fn wf(&self) -> bool {
        self.fetch_shown == self.pending is Some
    }

    /// What the freshly built menu shows: no fetch entry yet, whatever waits, so that
    /// the first turn inserts it.
    pub fn start(status: &TrayStatus, known: &KnownPeers, m: &Moment) -> (r: Self)
        ensures
            r.wf(),
            r.pending is None,
            !r.fetch_shown,
            r.live == m.live,
            r.settings_version == m.settings_version,
            r.summary@ == status.summary_text(known@.len(), m.now, m.lang),
            r.tip@ == tip_of(*status, *known, *m),
            r.connected@ == status.connected@,
            r.peers_version == known.spec_version(),
            r.icon == (IconLook {
                state: icon_of(*status),
                dimmed: false,
                badge: status.waiting is Some,
            }),
    {
        TrayLoop {
            pending: None,
            fetch_shown: false,
            live: copy_live(&m.live),
            settings_version: m.settings_version,
            summary: status.summary(known, m.now, m.lang),
            tip: status.tooltip(known, m.now, m.lang),
            connected: copy_strings(status.connected_devices()),
            peers_version: known.version(),
            icon: IconLook {
                state: IconState::of(status),
                dimmed: false,
                badge: status.waiting.is_some(),
            },
        }
    }

    fn turn_fetch(&mut self, waiting: Option<PendingFetchInfo>, lang: Lang) -> (r: FetchRow)
        requires
            old(self).wf(),
        ensures
            final(self).wf(),
            same_pending(final(self).pending, waiting),
            fetch_row(*old(self), waiting, lang, r),
            final(self).live == old(self).live,
            final(self).settings_version == old(self).settings_version,
            final(self).summary == old(self).summary,
            final(self).tip == old(self).tip,
            final(self).connected == old(self).connected,
            final(self).peers_version == old(self).peers_version,
            final(self).icon == old(self).icon,
    {
        if pending_same(&self.pending, &waiting) {
            return FetchRow::Keep;
        }
        let r = match &waiting {
            Some(p) => {
                let label = fetch_label(p.first_name.as_str(), p.count, p.total, lang);
                if self.fetch_shown {
                    FetchRow::Relabel(label)
                } else {
                    FetchRow::Insert(label)
                }
            },
            None => if self.fetch_shown {
                FetchRow::Remove
            } else {
                FetchRow::Gone
            },
        };
        self.fetch_shown = waiting.is_some();
        self.pending = waiting;
        r
    }

    /// One turn of the loop: notes whether synchronisation still runs, and says what
    /// has to be drawn again.
    pub fn turn(&mut self, status: &mut TrayStatus, known: &KnownPeers, m: &Moment) -> (r: Redraw)
        requires
            old(self).wf(),
        ensures
            final(self).wf(),
            watched(*old(status), m.hub_alive, *final(status)),
            redraws(*old(self), *final(status), *known, *m, r),
            up_to_date(*final(self), *final(status), *known, *m),
    {
        let ghost before = *self;
        if !status.is_hub_dead() && !m.hub_alive {
            status.set_hub_dead();
        }
        let fetch = self.turn_fetch(status.pending(), m.lang);
        let pairing = if live_same(&self.live, &m.live) {
            None
        } else {
            self.live = copy_live(&m.live);
            Some((label_of_live(&m.live, m.lang), m.live.is_some()))
        };
        let settings = if self.settings_version == m.settings_version {
            None
        } else {
            self.settings_version = m.settings_version;
            Some(m.settings.view_in(m.lang))
        };
        let summary = status.summary(known, m.now, m.lang);
        let tip = status.tooltip(known, m.now, m.lang);
        let line = if str_eq(self.summary.as_str(), summary.as_str()) && str_eq(
            self.tip.as_str(),
            tip.as_str(),
        ) {
            None
        } else {
            self.summary = summary.clone();
            self.tip = tip.clone();
            Some((summary, tip))
        };
        let peers = !devices_same(&self.connected, status.connected_devices())
            || self.peers_version != known.version();
        if peers {
            self.connected = copy_strings(status.connected_devices());
            self.peers_version = known.version();
        }
        let look = IconLook {
            state: IconState::of(status),
            dimmed: is_dimmed(status.is_transferring(m.now), m.elapsed_ms),
            badge: self.pending.is_some(),
        };
        let icon = if self.icon == look {
            None
        } else {
            self.icon = look;
            Some(look)
        };
        Redraw { fetch, pairing, settings, status: line, peers, icon }
    }
}

/// A turn in which nothing changed draws nothing.
pub proof fn idle_turns_draw_nothing(
    l: TrayLoop,
    status: TrayStatus,
    known: KnownPeers,
    m: Moment,
    r: Redraw,
)
    requires
        up_to_date(l, status, known, m),
        redraws(l, status, known, m, r),
    ensures
        r.fetch is Keep,
        r.pairing is None,
        r.settings is None,
        r.status is None,
        !r.peers,
        r.icon is None,
{
}

/// The entry in the menu, the mark on the icon and the tooltip never disagree about waiting
/// files: after a turn each of them tells of the files that wait, and of none where none do.
/// While a file is on its way the tooltip tells of that one instead.
pub proof fn waiting_files_show_everywhere(
    l: TrayLoop,
    status: TrayStatus,
    known: KnownPeers,
    m: Moment,
)
    requires
        up_to_date(l, status, known, m),
    ensures
        l.fetch_shown == status.waiting is Some,
        same_pending(l.pending, status.waiting),
        l.icon.badge == status.waiting is Some,
        !(status.transferring(m.now) && status.progress is Some) ==> l.tip@ == fitted(
            match status.waiting {
                None => l.summary@,
                Some(p) => l.summary@ + "\n"@ + waiting_text(p, m.lang),
            },
            63,
        ),
{
}

/// A stopped synchronisation shows at the very next turn, whatever else is going on, and
/// never looks healthy again.
pub proof fn dead_hub_is_shown(before: TrayStatus, after: TrayStatus, paired: nat, m: Moment)
    requires
        watched(before, m.hub_alive, after),
        before.hub_dead || !m.hub_alive,
    ensures
        after.hub_dead,
        look_of(after, m).state == IconState::Broken,
        after.summary_text(paired, m.now, m.lang) == match m.lang {
            Lang::Zh => "ClipSync — 同步已停止（请重启程序）"@,
            Lang::English => "ClipSync — sync stopped (please restart)"@,
        },
{
}

/// A digit of a device's id.
pub open spec fn is_id_char(c: char) -> bool {
    ('0' <= c && c <= '9') || ('a' <= c && c <= 'f') || ('A' <= c && c <= 'F')
}

/// No device is taken for the way out of the group: ids are hexadecimal, and a click on a
/// device's line asks for that device's removal.
pub proof fn devices_are_not_the_way_out(lines: Clickable, id: Seq<char>, i: int)
    requires
        line_at(lines.entries@, id) == lines.entries@.len(),
        0 <= i < lines.peers@.len(),
        line_at(lines.peers@, id) == i,
        forall|k: int|
            0 <= k < lines.peers@[i].1@.len() ==> is_id_char(#[trigger] lines.peers@[i].1@[k]),
    ensures
        click(lines, id) == Some(TrayAction::RemovePeer(lines.peers@[i].1)),
{
    reveal_strlit("\u{1}leave-group");
    let device = lines.peers@[i].1;
    if device@ == LEAVE_GROUP_ID@ {
        assert(device@[0] == '\u{1}');
        assert(is_id_char(device@[0]));
    }
}

/// A click does what stands on the first line with that id: the menu's own entries come
/// before the devices. On an id that no line has, nothing happens.
pub proof fn clicks_find_their_line(lines: Clickable, id: Seq<char>, i: int, j: int)
    requires
        0 <= i <= lines.entries@.len(),
        forall|k: int| 0 <= k < i ==> (#[trigger] lines.entries@[k]).0@ != id,
        i < lines.entries@.len() ==> lines.entries@[i].0@ == id,
        0 <= j <= lines.peers@.len(),
        forall|k: int| 0 <= k < j ==> (#[trigger] lines.peers@[k]).0@ != id,
        j < lines.peers@.len() ==> lines.peers@[j].0@ == id,
    ensures
        i < lines.entries@.len() ==> click(lines, id) == Some(lines.entries@[i].1.asks()),
        i == lines.entries@.len() && j < lines.peers@.len() ==> match click(lines, id) {
            Some(TrayAction::LeaveGroup) => lines.peers@[j].1@ == LEAVE_GROUP_ID@,
            Some(TrayAction::RemovePeer(d)) => d@ == lines.peers@[j].1@ && d@ != LEAVE_GROUP_ID@,
            _ => false,
        },
        click(lines, id) is None <==> i == lines.entries@.len() && j == lines.peers@.len(),
{
    lemma_line_at(lines.entries@, id, i as nat);
    lemma_line_at(lines.peers@, id, j as nat);
}

/// Different entries ask for different things.
pub proof fn entries_are_told_apart(a: Entry, b: Entry)
    ensures
        a.asks() == b.asks() <==> a == b,
{
}

/// No entry stands in the menu twice, and the way out stands at its end.
pub proof fn the_menu_has_each_entry_once(i: int, j: int)
    requires
        0 <= i < j < usual_rows().len(),
    ensures
        usual_rows()[i] is Entry ==> usual_rows()[i] != usual_rows()[j],
        usual_rows().last() == MenuRow::Entry(Entry::Quit),
        usual_rows()[0] == MenuRow::Status,
        !usual_rows().contains(MenuRow::Entry(Entry::Fetch)),
{
    let rows = usual_rows();
    if rows.contains(MenuRow::Entry(Entry::Fetch)) {
        let k = choose|k: int| 0 <= k < rows.len() && rows[k] == MenuRow::Entry(Entry::Fetch);
        assert(rows[k] == MenuRow::Entry(Entry::Fetch));
    }
}

/// After a turn the user sees the state of that moment, whether or not a part was drawn
/// again: the line, the tooltip, the icon and the pairing entry are as if everything had
/// been drawn anew.
pub proof fn what_is_seen_is_current(
    before: TrayLoop,
    status: TrayStatus,
    known: KnownPeers,
    m: Moment,
    r: Redraw,
)
    requires
        redraws(before, status, known, m, r),
    ensures
        (match r.status {
            Some((line, _)) => line@,
            None => before.summary@,
        }) == status.summary_text(known@.len(), m.now, m.lang),
        (match r.status {
            Some((_, tip)) => tip@,
            None => before.tip@,
        }) == fitted(status.full_tooltip(known@.len(), m.now, m.lang), 63),
        ({
            let icon = match r.icon {
                Some(look) => look,
                None => before.icon,
            };
            &&& icon.state == icon_of(status)
            &&& icon.badge <==> status.waiting is Some
            &&& icon.dimmed ==> status.transferring(m.now)
            &&& status.transferring(m.now) ==> (icon.dimmed <==> m.elapsed_ms % 900 >= 450)
        }),
        r.pairing is None ==> (before.live is Some <==> m.live is Some) && (m.live matches Some((
            code,
            secs,
        )) ==> (before.live->0).0@ == code@ && (before.live->0).1 == secs),
        r.pairing matches Some((label, on)) ==> on == m.live is Some && label@ == pairing_text(
            m.live,
            m.lang,
        ),
        r.settings is None ==> before.settings_version == m.settings_version,
{
    let e = m.elapsed_ms;
    assert((e / 450) % 2 == 1 <==> e % 900 >= 450) by (nonlinear_arith);
}

/// The device menu is drawn again whenever a device comes, goes, or changes in the table;
/// otherwise it is left alone.
pub proof fn the_device_menu_follows_the_devices(
    before: TrayLoop,
    status: TrayStatus,
    known: KnownPeers,
    m: Moment,
    r: Redraw,
    device: Seq<char>,
)
    requires
        redraws(before, status, known, m, r),
        !r.peers,
    ensures
        before.peers_version == known.spec_version(),
        (exists|i: int|
            0 <= i < before.connected@.len() && (#[trigger] before.connected@[i])@ == device) <==> (
        exists|i: int|
            0 <= i < status.connected@.len() && (#[trigger] status.connected@[i])@ == device),
{
    assert(lists(before.connected@, device) == lists(status.connected@, device));
}

/// The fetch entry is inserted only where it was not there, relabelled only where it was,
/// and taken away as soon as nothing waits any more.
pub proof fn the_fetch_entry_follows_what_waits(
    before: TrayLoop,
    waiting: Option<PendingFetchInfo>,
    lang: Lang,
    r: FetchRow,
)
    requires
        before.wf(),
        fetch_row(before, waiting, lang, r),
    ensures
        waiting is None && before.fetch_shown ==> r is Remove,
        waiting is None && !before.fetch_shown ==> r is Keep,
        waiting is Some && !before.fetch_shown ==> r is Insert,
        waiting is Some && before.fetch_shown ==> r is Keep || r is Relabel,
        r is Keep && waiting is Some ==> before.pending is Some && before.pending->0.count
            == waiting->0.count && before.pending->0.total == waiting->0.total
            && before.pending->0.first_name@ == waiting->0.first_name@ && before.pending->0.from@
            == waiting->0.from@,
        r matches FetchRow::Insert(s) ==> s@ == fetch_text(
            waiting->0.first_name@,
            waiting->0.count as nat,
            waiting->0.total as nat,
            lang,
        ),
        r matches FetchRow::Relabel(s) ==> s@ == fetch_text(
            waiting->0.first_name@,
            waiting->0.count as nat,
            waiting->0.total as nat,
            lang,
        ),
{
}

/// Every switch of the menu shows its own setting: two settings that agree on it show alike,
/// and two that do not, do not.
pub proof fn switches_show_their_setting(
    v: SettingsView,
    w: SettingsView,
    s: TraySettings,
    t: TraySettings,
    lang: Lang,
)
    requires
        shows(v, s, lang),
        shows(w, t, lang),
    ensures
        v.images == w.images <==> s.sync_images == t.sync_images,
        v.files == w.files <==> s.sync_files == t.sync_files,
        v.compress == w.compress <==> s.compress == t.compress,
        v.verbose == w.verbose <==> s.verbose_log == t.verbose_log,
        v.images ==> s.sync_images,
        v.files ==> s.sync_files,
        v.compress ==> s.compress,
        v.verbose ==> s.verbose_log,
        s.listen_port == t.listen_port ==> v.port@ == w.port@,
        s.upload_limit == t.upload_limit ==> v.rate@ == w.rate@,
        s.auto_fetch_bytes == t.auto_fetch_bytes ==> v.auto_fetch@ == w.auto_fetch@,
{
}

} // verus!
