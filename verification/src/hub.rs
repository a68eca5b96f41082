//! The hub: what a clipboard change, a message or a change of connections leads to.
//!
//! The hub decides; it neither reads the clipboard nor writes files. Each event it is
//! handed yields the actions to perform, in order.
//!
//! At most one batch of files is being received at a time. New content on the sender's
//! clipboard ends the reception of the old one; the bytes already received stay in the
//! cache, so that a later reception continues from there.

use vstd::prelude::*;
use vstd::string::*;

use crate::filecache::appended;
use crate::filetransfer::{are_sent, hashed_bytes, is_chunk, is_run, lemma_place_of, newest, pieces_of, the_newest_copies_are_remembered, whole_run_restores_the_file, OutgoingFiles, OutgoingStream};
use crate::language::Lang;
use crate::text::copy_of;
use crate::tray_status::{PendingFetchInfo, TransferProgress};
use crate::types::{ClipContent, DeviceId, Endpoint, FileMeta, SyncMessage};

verus! {

/// A connected device.
pub struct Peer {
    pub device: DeviceId,
    pub name: String,
}

/// Files that exceed the automatic fetch limit and wait for the user.
///
/// There is at most one such batch: a new file copy replaces it.
pub struct PendingFetch {
    pub from: DeviceId,
    pub generation: u64,
    pub files: Vec<FileMeta>,
    pub total: u64,
}

/// Files being received.
pub struct IncomingTransfer {
    pub generation: u64,
    pub from: DeviceId,
    pub files: Vec<FileMeta>,
    /// Whether the user asked for the files by hand.
    pub manual: bool,
    /// For each file, whether it is complete.
    pub done: Vec<bool>,
    pub total_bytes: u64,
    pub got_bytes: u64,
}

/// Why a clipboard change was not sent.
#[derive(Debug, Clone, Copy, PartialEq, Eq, Structural)]
pub enum SkipReason {
    /// It was written by this program.
    Echo,
    /// It is what the clipboard held before.
    Duplicate,
    /// It is larger than what is sent along with a message.
    TooLarge,
    /// Its kind is switched off.
    KindDisabled,
    /// Anything else, such as a paused state.
    Other,
}

/// What a skipped change is worth telling the user.
#[derive(Debug, Clone, Copy, PartialEq, Eq, Structural)]
pub enum SkipNotice {
    Quiet,
    TooLarge,
    KindDisabled,
}

/// Whether a clipboard change is sent.
#[derive(Debug, Clone, Copy, PartialEq, Eq, Structural)]
pub enum LocalDecision {
    Broadcast { seq: u64, content_hash: u64 },
    Skip(SkipReason),
}

/// Whether received content is taken over.
#[derive(Debug, Clone, Copy, PartialEq, Eq, Structural)]
pub enum RemoteDecision {
    Apply,
    Skip,
}

/// How much of a file is in the cache.
#[derive(Debug, Clone, Copy, PartialEq, Eq, Structural)]
pub struct CacheProbe {
    pub complete: bool,
    /// The byte from which to continue, where the file is not complete.
    pub have: u64,
}

/// How storing a received chunk went.
#[derive(Debug, Clone, Copy, PartialEq, Eq, Structural)]
pub enum ChunkOutcome {
    /// The chunk could not be decompressed.
    Undecodable,
    /// The chunk did not continue the file, or could not be written.
    Refused,
    /// This many bytes were written.
    Stored(u64),
}

/// How handing received files to the clipboard went.
#[derive(Debug, Clone, Copy, PartialEq, Eq, Structural)]
pub enum LandingOutcome {
    Done,
    /// The files could not be created, or the clipboard refused them.
    Failed,
    /// The clipboard could not be reached at all.
    NoClipboard,
}

/// Something to do, in the order given.
#[derive(Debug)]
pub enum HubAction {
    /// Send a message to one device.
    Send { to: DeviceId, msg: SyncMessage },
    /// Send a message to several devices.
    Broadcast { to: Vec<DeviceId>, msg: SyncMessage },
    /// The clipboard does not hold the content announced last.
    ForgetCurrent,
    /// No transfer is to be shown any more.
    ClearTransfer,
    /// A chunk passed.
    NoteTransfer(TransferProgress),
    /// What waits to be fetched, for the tray.
    SetPending(Option<PendingFetchInfo>),
    /// Which devices are connected, for the tray.
    SetConnected(Vec<DeviceId>),
    /// Tell the user something.
    Notify(String),
    /// Ask whether received content is taken over.
    Consult { from: DeviceId, seq: u64, content_hash: u64, content: ClipContent },
    /// The clipboard will report this content as new although this program wrote it.
    ExpectEcho(u64),
    /// Write content to the clipboard.
    WriteClipboard { from: DeviceId, content: ClipContent },
    /// Store a chunk at its place in the file.
    StoreChunk { file_id: u64, offset: u64, data: Vec<u8>, compressed: bool, plain_len: u32 },
    /// Check a complete file against its hash.
    Finalize { generation: u64, file_id: u64, content_hash: u64 },
    /// Create the named files and hand them to the clipboard; `manual` where the user asked
    /// for them by hand.
    Land { generation: u64, items: Vec<(u64, String)>, manual: bool },
    /// Delete the named files of other generations.
    CleanupExcept(u64),
    /// Bring the cache back to its limit, keeping these contents.
    Evict(Vec<u64>),
    /// Remember where a device can be reached.
    LearnAddresses { from: DeviceId, addrs: Vec<Endpoint> },
}

/// The bytes of all files together.
pub open spec fn total_size(files: Seq<FileMeta>) -> nat
    decreases files.len(),
{
    if files.len() == 0 {
        0
    } else {
        total_size(files.drop_last()) + files.last().size as nat
    }
}

/// The bytes already in the cache.
pub open spec fn cached_size(files: Seq<FileMeta>, probes: Seq<CacheProbe>) -> nat
    decreases files.len(),
{
    if files.len() == 0 {
        0
    } else {
        cached_size(files.drop_last(), probes.drop_last()) + if probes.last().complete {
            files.last().size as nat
        } else {
            probes.last().have as nat
        }
    }
}

/// The incomplete files, each with the byte from which it continues.
pub open spec fn needed(files: Seq<FileMeta>, probes: Seq<CacheProbe>) -> Seq<(u64, u64)>
    decreases files.len(),
{
    if files.len() == 0 {
        Seq::empty()
    } else {
        let before = needed(files.drop_last(), probes.drop_last());
        if probes.last().complete {
            before
        } else {
            before.push((files.last().id, probes.last().have))
        }
    }
}

/// There is a probe for each file, and none has more than the file.
pub open spec fn probes_ok(files: Seq<FileMeta>, probes: Seq<CacheProbe>) -> bool {
    &&& files.len() == probes.len()
    &&& forall|i: int| 0 <= i < files.len() ==> (#[trigger] probes[i]).have <= files[i].size
    &&& total_size(files) <= u64::MAX
}

/// Every file is in the cache.
pub open spec fn all_cached(probes: Seq<CacheProbe>) -> bool {
    forall|i: int| 0 <= i < probes.len() ==> (#[trigger] probes[i]).complete
}

/// Whether a device is connected.
pub open spec fn connected(peers: Seq<Peer>, device: Seq<char>) -> bool {
    exists|i: int| 0 <= i < peers.len() && (#[trigger] peers[i]).device@ == device
}

/// No device is listed twice.
pub open spec fn peers_distinct(peers: Seq<Peer>) -> bool {
    forall|i: int, j: int|
        0 <= i < j < peers.len() ==> (#[trigger] peers[i]).device@ != (#[trigger] peers[j]).device@
}

/// The identities of the connected devices.
pub open spec fn device_list(peers: Seq<Peer>) -> Seq<DeviceId> {
    peers.map_values(|p: Peer| p.device)
}

/// The first file with an id, or the number of files.
pub open spec fn file_at(files: Seq<FileMeta>, id: u64) -> nat
    decreases files.len(),
{
    if files.len() == 0 || files[0].id == id {
        0
    } else {
        1 + file_at(files.drop_first(), id)
    }
}

proof fn lemma_file_at(files: Seq<FileMeta>, id: u64, n: int)
    requires
        0 <= n <= files.len(),
        forall|i: int| 0 <= i < n ==> (#[trigger] files[i]).id != id,
        n == files.len() || files[n].id == id,
    ensures
        file_at(files, id) == n,
    decreases n,
{
    if n > 0 {
        assert(files[0].id != id);
        let t = files.drop_first();
        assert forall|i: int| 0 <= i < n - 1 implies (#[trigger] t[i]).id != id by {
            assert(files[i + 1].id != id);
        }
        lemma_file_at(t, id, n - 1);
    }
}

/// Whether files are fetched without asking: within the limit, or, whatever their
/// size, when nothing has to be transferred.
pub fn should_auto_fetch(total: u64, limit: u64, fully_cached: bool) -> (r: bool)
    ensures
        r == (total <= limit || fully_cached),
{
    total <= limit || fully_cached
}

/// The name of a kind of content, for the log.
pub fn kind_label(content: &ClipContent) -> (r: &'static str)
    ensures
        r@ == match content {
            ClipContent::Text(_) => "文本"@,
            ClipContent::Image(_) => "图片"@,
            ClipContent::Files(_) => "文件"@,
        },
{
    match content {
        ClipContent::Text(_) => "文本",
        ClipContent::Image(_) => "图片",
        ClipContent::Files(_) => "文件",
    }
}

/// Every flag is set.
pub open spec fn all_set(flags: Seq<bool>) -> bool {
    forall|i: int| 0 <= i < flags.len() ==> #[trigger] flags[i]
}

impl IncomingTransfer {
    /// One flag per file.
    pub open spec fn wf(&self) -> bool {
        self.done@.len() == self.files@.len()
    }

    /// Every file is complete.
    pub open spec fn complete(&self) -> bool {
        all_set(self.done@)
    }

    /// Whether every file is complete.
    pub fn all_done(&self) -> (r: bool)
        ensures
            r == self.complete(),
    {
        let mut i: usize = 0;
        while i < self.done.len()
            invariant
                i <= self.done.len(),
                forall|k: int| 0 <= k < i ==> #[trigger] self.done@[k],
            decreases self.done.len() - i,
        {
            if !self.done[i] {
                return false;
            }
            i += 1;
        }
        true
    }

    /// The first file with an id.
    pub fn index_of(&self, file_id: u64) -> (r: Option<usize>)
        ensures
            match r {
                Some(i) => i == file_at(self.files@, file_id) && i < self.files@.len(),
                None => file_at(self.files@, file_id) == self.files@.len(),
            },
    {
        let mut i: usize = 0;
        while i < self.files.len()
            invariant
                i <= self.files.len(),
                forall|k: int| 0 <= k < i ==> (#[trigger] self.files@[k]).id != file_id,
            decreases self.files.len() - i,
        {
            if self.files[i].id == file_id {
                proof {
                    lemma_file_at(self.files@, file_id, i as int);
                }
                return Some(i);
            }
            i += 1;
        }
        proof {
            lemma_file_at(self.files@, file_id, i as int);
        }
        None
    }

    /// The ids of the files, which the cache must keep.
    pub fn pinned_ids(&self) -> (r: Vec<u64>)
        ensures
            r@ == self.files@.map_values(|f: FileMeta| f.id),
    {
        let mut r: Vec<u64> = Vec::new();
        let mut i: usize = 0;
        while i < self.files.len()
            invariant
                i <= self.files.len(),
                r@.len() == i,
                forall|k: int| 0 <= k < i ==> #[trigger] r@[k] == self.files@[k].id,
            decreases self.files.len() - i,
        {
            r.push(self.files[i].id);
            i += 1;
        }
        assert(r@ =~= self.files@.map_values(|f: FileMeta| f.id));
        r
    }

    /// The ids and names under which the files are handed to the clipboard.
    fn items(&self) -> (r: Vec<(u64, String)>)
        ensures
            r@ == items_of(self.files@),
    {
        let mut r: Vec<(u64, String)> = Vec::new();
        let mut i: usize = 0;
        while i < self.files.len()
            invariant
                i <= self.files.len(),
                r@.len() == i,
                forall|k: int|
                    0 <= k < i ==> #[trigger] r@[k] == (self.files@[k].id, self.files@[k].name),
            decreases self.files.len() - i,
        {
            r.push((self.files[i].id, self.files[i].name.clone()));
            i += 1;
        }
        assert(r@ =~= items_of(self.files@));
        r
    }
}

/// The ids and names of files.
pub open spec fn items_of(files: Seq<FileMeta>) -> Seq<(u64, String)> {
    files.map_values(|f: FileMeta| (f.id, f.name))
}

/// The hub's memory.
pub struct HubState {
    pub peers: Vec<Peer>,
    pub incoming: Option<IncomingTransfer>,
    pub pending: Option<PendingFetch>,
    pub last_skip: Option<SkipReason>,
    /// The version of the settings in effect.
    pub applied_settings: u64,
}

/// What to bring up to date before an event is handled.
#[derive(Debug, Clone, Copy, PartialEq, Eq, Structural)]
pub struct Tuning {
    /// Pause or resume.
    pub set_paused: Option<bool>,
    /// Read the settings anew.
    pub refresh_limits: bool,
}

/// `act` asks for the file `(id, offset)` of a generation.
pub open spec fn is_need(act: HubAction, from: DeviceId, generation: u64, need: (u64, u64)) -> bool {
    act == (HubAction::Send {
        to: from,
        msg: SyncMessage::FileNeed { generation, file_id: need.0, offset: need.1 },
    })
}

/// `act` hands the files to the clipboard.
pub open spec fn is_landing(
    act: HubAction,
    generation: u64,
    files: Seq<FileMeta>,
    manual: bool,
) -> bool {
    act matches HubAction::Land { generation: g, items, manual: m } && {
        &&& g == generation
        &&& items@ == items_of(files)
        &&& m == manual
    }
}

/// The device that sends went away before its files were complete, and `acts` are what that
/// leads to: `tail`, after word to the tray where the files wait again. They do where the
/// user asked for them by hand; what was received stays in the cache.
pub open spec fn cut_off(
    before: HubState,
    after: HubState,
    acts: Seq<HubAction>,
    tail: Seq<HubAction>,
) -> bool {
    &&& after.incoming is None
    &&& if before.incoming matches Some(t) && t.manual {
        let t = before.incoming->0;
        &&& after.pending matches Some(p) && {
            &&& p.from == t.from
            &&& p.generation == t.generation
            &&& p.files == t.files
            &&& p.total == t.total_bytes
        }
        &&& acts.len() == 1 + tail.len()
        &&& shows_pending(acts[0], after.pending)
        &&& acts.skip(1) == tail
    } else {
        &&& after.pending == before.pending
        &&& acts == tail
    }
}

/// `act` tells the tray what waits in `pending`.
pub open spec fn shows_pending(act: HubAction, pending: Option<PendingFetch>) -> bool {
    match pending {
        None => act == HubAction::SetPending(None),
        Some(p) => act matches HubAction::SetPending(Some(i)) && {
            &&& i.from == p.from.text
            &&& i.count == p.files@.len()
            &&& i.total == p.total
            &&& if p.files@.len() > 0 {
                i.first_name == p.files@[0].name
            } else {
                i.first_name@ == "文件"@
            }
        },
    }
}

/// `acts` begins the reception of files: those missing are asked for, or, with nothing
/// missing, all are handed to the clipboard at once.
pub open spec fn begins(
    before: HubState,
    after: HubState,
    from: DeviceId,
    generation: u64,
    files: Seq<FileMeta>,
    manual: bool,
    probes: Seq<CacheProbe>,
    acts: Seq<HubAction>,
) -> bool {
    let needs = needed(files, probes);
    if all_cached(probes) {
        &&& after.incoming is None
        &&& acts.len() == 1
        &&& is_landing(acts[0], generation, files, manual)
    } else {
        &&& after.incoming matches Some(t) && {
            &&& t.wf()
            &&& t.generation == generation
            &&& t.from == from
            &&& t.files@ == files
            &&& t.manual == manual
            &&& t.done@ == probes.map_values(|p: CacheProbe| p.complete)
            &&& t.total_bytes == total_size(files)
            &&& t.got_bytes == cached_size(files, probes)
        }
        &&& acts.len() == if connected(before.peers@, from@) {
            needs.len()
        } else {
            0
        }
        &&& forall|k: int|
            0 <= k < acts.len() ==> is_need(#[trigger] acts[k], from, generation, needs[k])
    }
}

proof fn lemma_total_monotone(files: Seq<FileMeta>, n: int)
    requires
        0 <= n <= files.len(),
    ensures
        total_size(files.take(n)) <= total_size(files),
    decreases files.len() - n,
{
    if n == files.len() {
        assert(files.take(n) =~= files);
    } else {
        lemma_total_monotone(files, n + 1);
        assert(files.take(n + 1).drop_last() =~= files.take(n));
    }
}

/// The message shown when files cannot be fetched because their device is away.
pub open spec fn offline_text(lang: Lang) -> Seq<char> {
    match lang {
        Lang::Zh => "对方当前不在线。\n\n等它上线后再点一次「取回」——\n只要它没有再复制别的文件，这一份就还在。"@,
        Lang::English => "That device is offline right now.\n\nClick \"Fetch\" again once it is back — the files are still waiting, as long as it has not copied something else in the meantime."@,
    }
}

fn offline_message(lang: Lang) -> (r: String)
    ensures
        r@ == offline_text(lang),
{
    match lang {
        Lang::Zh => copy_of(
            "对方当前不在线。\n\n等它上线后再点一次「取回」——\n只要它没有再复制别的文件，这一份就还在。",
        ),
        Lang::English => copy_of(
            "That device is offline right now.\n\nClick \"Fetch\" again once it is back — the files are still waiting, as long as it has not copied something else in the meantime.",
        ),
    }
}

/// The message shown when fetched files could not be put on the clipboard.
pub open spec fn not_landed_text(lang: Lang) -> Seq<char> {
    match lang {
        Lang::Zh => "文件已经取回，但没能放进剪贴板。"@,
        Lang::English => "The files were fetched, but could not be put on the clipboard."@,
    }
}

fn not_landed_message(lang: Lang) -> (r: String)
    ensures
        r@ == not_landed_text(lang),
{
    match lang {
        Lang::Zh => copy_of("文件已经取回，但没能放进剪贴板。"),
        Lang::English => copy_of("The files were fetched, but could not be put on the clipboard."),
    }
}

/// The message shown when what was fetched did not arrive as it was sent.
pub open spec fn damaged_text(lang: Lang) -> Seq<char> {
    match lang {
        Lang::Zh => "取回没有完成：收到的内容有误。"@,
        Lang::English => "The fetch was not completed: what arrived was damaged."@,
    }
}

fn damaged_message(lang: Lang) -> (r: String)
    ensures
        r@ == damaged_text(lang),
{
    match lang {
        Lang::Zh => copy_of("取回没有完成：收到的内容有误。"),
        Lang::English => copy_of("The fetch was not completed: what arrived was damaged."),
    }
}

/// The message shown when what was fetched could not be stored.
pub open spec fn not_stored_text(lang: Lang) -> Seq<char> {
    match lang {
        Lang::Zh => "取回没有完成：收到的内容无法保存。"@,
        Lang::English => "The fetch was not completed: what arrived could not be stored."@,
    }
}

fn not_stored_message(lang: Lang) -> (r: String)
    ensures
        r@ == not_stored_text(lang),
{
    match lang {
        Lang::Zh => copy_of("取回没有完成：收到的内容无法保存。"),
        Lang::English => copy_of("The fetch was not completed: what arrived could not be stored."),
    }
}

impl HubState {
    /// The connected devices are distinct, and a reception has one flag per file.
    pub open spec fn wf(&self) -> bool {
        &&& peers_distinct(self.peers@)
        &&& self.incoming matches Some(t) ==> t.wf()
    }

    /// A hub that knows nobody.
    pub fn new(settings_version: u64) -> (r: Self)
        ensures
            r.wf(),
            r.peers@.len() == 0,
            r.incoming is None,
            r.pending is None,
            r.last_skip is None,
            r.applied_settings == settings_version,
    {
        HubState {
            peers: Vec::new(),
            incoming: None,
            pending: None,
            last_skip: None,
            applied_settings: settings_version,
        }
    }

    /// What to bring up to date before the next event: the pause switch and the
    /// settings may have changed since the last one.
    pub fn before_event(&mut self, engine_paused: bool, paused: bool, settings_version: u64) -> (r:
        Tuning)
        ensures
            r.set_paused == if engine_paused != paused {
                Some(paused)
            } else {
                None
            },
            r.refresh_limits == (settings_version != old(self).applied_settings),
            final(self).applied_settings == settings_version,
            final(self).peers == old(self).peers,
            final(self).incoming == old(self).incoming,
            final(self).pending == old(self).pending,
            final(self).last_skip == old(self).last_skip,
    {
        let set_paused = if engine_paused != paused {
            Some(paused)
        } else {
            None
        };
        let refresh_limits = settings_version != self.applied_settings;
        self.applied_settings = settings_version;
        Tuning { set_paused, refresh_limits }
    }

    /// Whether a device is connected.
    pub fn is_connected(&self, device: &DeviceId) -> (r: bool)
        ensures
            r == connected(self.peers@, device@),
    {
        let mut i: usize = 0;
        while i < self.peers.len()
            invariant
                i <= self.peers.len(),
                forall|k: int| 0 <= k < i ==> (#[trigger] self.peers@[k]).device@ != device@,
            decreases self.peers.len() - i,
        {
            if self.peers[i].device.is(device) {
                assert(self.peers@[i as int].device@ == device@);
                return true;
            }
            i += 1;
        }
        false
    }

    /// The connected devices.
    fn connected_ids(&self) -> (r: Vec<DeviceId>)
        ensures
            r@ == device_list(self.peers@),
            r@.len() == self.peers@.len(),
            forall|i: int| 0 <= i < r@.len() ==> #[trigger] r@[i] == self.peers@[i].device,
    {
        let mut r: Vec<DeviceId> = Vec::new();
        let mut i: usize = 0;
        while i < self.peers.len()
            invariant
                i <= self.peers.len(),
                r@.len() == i,
                forall|k: int| 0 <= k < i ==> #[trigger] r@[k] == self.peers@[k].device,
            decreases self.peers.len() - i,
        {
            r.push(self.peers[i].device.dup());
            i += 1;
        }
        assert(r@ =~= device_list(self.peers@));
        r
    }

    /// Whether files of this generation are being received.
    pub open spec fn receiving(&self, generation: u64) -> bool {
        self.incoming matches Some(t) && t.generation == generation
    }

    /// Whether files of this generation are being received.
    pub fn matches_incoming(&self, generation: u64) -> (r: bool)
        ensures
            r == self.receiving(generation),
    {
        match &self.incoming {
            Some(t) => t.generation == generation,
            None => false,
        }
    }

    /// What waits to be fetched, as the tray shows it.
    fn publish_pending(&self) -> (r: HubAction)
        ensures
            shows_pending(r, self.pending),
    {
        match &self.pending {
            None => HubAction::SetPending(None),
            Some(p) => {
                let first_name = if p.files.len() > 0 {
                    p.files[0].name.clone()
                } else {
                    copy_of("文件")
                };
                HubAction::SetPending(
                    Some(
                        PendingFetchInfo {
                            from: p.from.text.clone(),
                            first_name,
                            count: p.files.len(),
                            total: p.total,
                        },
                    ),
                )
            },
        }
    }

    /// Begins the reception of files: what the cache already holds is not asked for
    /// again.
    pub fn begin_incoming_files(
        &mut self,
        from: DeviceId,
        generation: u64,
        files: Vec<FileMeta>,
        manual: bool,
        probes: &Vec<CacheProbe>,
    ) -> (r: Vec<HubAction>)
        requires
            old(self).wf(),
            probes_ok(files@, probes@),
        ensures
            final(self).wf(),
            begins(*old(self), *final(self), from, generation, files@, manual, probes@, r@),
            final(self).peers == old(self).peers,
            final(self).pending == old(self).pending,
            final(self).last_skip == old(self).last_skip,
            final(self).applied_settings == old(self).applied_settings,
    {
        let mut done: Vec<bool> = Vec::new();
        let mut needs: Vec<(u64, u64)> = Vec::new();
        let mut cached: u64 = 0;
        let mut total: u64 = 0;
        let mut i: usize = 0;
        proof {
            assert(files@.take(0) =~= Seq::<FileMeta>::empty());
        }
        while i < files.len()
            invariant
                i <= files.len(),
                probes_ok(files@, probes@),
                done@ == probes@.take(i as int).map_values(|p: CacheProbe| p.complete),
                needs@ == needed(files@.take(i as int), probes@.take(i as int)),
                cached == cached_size(files@.take(i as int), probes@.take(i as int)),
                cached <= total,
                total == total_size(files@.take(i as int)),
            decreases files.len() - i,
        {
            proof {
                assert(files@.take(i + 1).drop_last() =~= files@.take(i as int));
                assert(probes@.take(i + 1).drop_last() =~= probes@.take(i as int));
                assert(files@.take(i + 1).last() == files@[i as int]);
                assert(probes@.take(i + 1).last() == probes@[i as int]);
                lemma_total_monotone(files@, i + 1);
                assert(probes@[i as int].have <= files@[i as int].size);
            }
            let p = probes[i];
            let size = files[i].size;
            total = total + size;
            done.push(p.complete);
            if p.complete {
                cached = cached + size;
            } else {
                cached = cached + p.have;
                needs.push((files[i].id, p.have));
            }
            i += 1;
            assert(done@ =~= probes@.take(i as int).map_values(|p: CacheProbe| p.complete));
        }
        proof {
            assert(files@.take(files@.len() as int) =~= files@);
            assert(probes@.take(probes@.len() as int) =~= probes@);
        }
        let transfer = IncomingTransfer {
            generation,
            from: from.dup(),
            files,
            manual,
            done,
            total_bytes: total,
            got_bytes: cached,
        };
        let complete = transfer.all_done();
        proof {
            if complete {
                assert forall|k: int| 0 <= k < probes@.len() implies (
                #[trigger] probes@[k]).complete by {
                    assert(transfer.done@[k]);
                }
            } else {
                let k = choose|k: int| 0 <= k < transfer.done@.len() && !(
                #[trigger] transfer.done@[k]);
                assert(!probes@[k].complete);
            }
        }
        let mut acts: Vec<HubAction> = Vec::new();
        if complete {
            acts.push(HubAction::Land { generation, items: transfer.items(), manual });
            self.incoming = None;
            return acts;
        }
        self.incoming = Some(transfer);
        if self.is_connected(&from) {
            let mut k: usize = 0;
            while k < needs.len()
                invariant
                    k <= needs.len(),
                    acts@.len() == k,
                    forall|j: int|
                        0 <= j < k ==> is_need(#[trigger] acts@[j], from, generation, needs@[j]),
                decreases needs.len() - k,
            {
                let (file_id, offset) = needs[k];
                acts.push(
                    HubAction::Send {
                        to: from.dup(),
                        msg: SyncMessage::FileNeed { generation, file_id, offset },
                    },
                );
                k += 1;
            }
        }
        acts
    }

    /// A device offers files. Within the limit, or when the cache holds all of them,
    /// their reception begins; otherwise they wait for the user.
    pub fn offer_incoming_files(
        &mut self,
        from: DeviceId,
        generation: u64,
        files: Vec<FileMeta>,
        probes: &Vec<CacheProbe>,
        limit: u64,
    ) -> (r: Vec<HubAction>)
        requires
            old(self).wf(),
            probes_ok(files@, probes@),
        ensures
            final(self).wf(),
            final(self).peers == old(self).peers,
            final(self).last_skip == old(self).last_skip,
            final(self).applied_settings == old(self).applied_settings,
            if total_size(files@) <= limit || all_cached(probes@) {
                let n = if old(self).pending is Some {
                    1int
                } else {
                    0int
                };
                &&& final(self).pending is None
                &&& n <= r@.len()
                &&& n == 1 ==> r@[0] == HubAction::SetPending(None)
                &&& begins(
                    *old(self),
                    *final(self),
                    from,
                    generation,
                    files@,
                    false,
                    probes@,
                    r@.skip(n),
                )
            } else {
                &&& final(self).incoming is None
                &&& final(self).pending matches Some(p) && {
                    &&& p.from == from
                    &&& p.generation == generation
                    &&& p.files == files
                    &&& p.total == total_size(files@)
                }
                &&& r@.len() == 2
                &&& r@[0] == HubAction::ForgetCurrent
                &&& shows_pending(r@[1], final(self).pending)
            },
    {
        let mut total: u64 = 0;
        let mut cached: bool = true;
        let mut i: usize = 0;
        assert(files@.take(0) =~= Seq::<FileMeta>::empty());
        while i < files.len()
            invariant
                i <= files.len(),
                probes_ok(files@, probes@),
                total == total_size(files@.take(i as int)),
                cached == (forall|k: int| 0 <= k < i ==> (#[trigger] probes@[k]).complete),
            decreases files.len() - i,
        {
            proof {
                assert(files@.take(i + 1).drop_last() =~= files@.take(i as int));
                lemma_total_monotone(files@, i + 1);
            }
            total = total + files[i].size;
            if !probes[i].complete {
                cached = false;
                assert(!probes@[i as int].complete);
            }
            i += 1;
        }
        assert(files@.take(files@.len() as int) =~= files@);
        if should_auto_fetch(total, limit, cached) {
            let mut acts = self.clear_pending();
            let ghost n = acts@.len() as int;
            let mut more = self.begin_incoming_files(from, generation, files, false, probes);
            let ghost begun = more@;
            acts.append(&mut more);
            assert(acts@.skip(n) =~= begun);
            return acts;
        }
        self.incoming = None;
        self.pending = Some(PendingFetch { from, generation, files, total });
        let mut acts: Vec<HubAction> = Vec::new();
        acts.push(HubAction::ForgetCurrent);
        acts.push(self.publish_pending());
        acts
    }

    /// The user asked for the waiting files. Where their device is away, they keep
    /// waiting and the user is told.
    pub fn fetch_pending(&mut self, probes: &Vec<CacheProbe>, lang: Lang) -> (r: Vec<HubAction>)
        requires
            old(self).wf(),
            old(self).pending matches Some(p) ==> probes_ok(p.files@, probes@),
        ensures
            final(self).wf(),
            final(self).peers == old(self).peers,
            final(self).last_skip == old(self).last_skip,
            final(self).applied_settings == old(self).applied_settings,
            match old(self).pending {
                None => {
                    &&& r@.len() == 0
                    &&& final(self).incoming == old(self).incoming
                    &&& final(self).pending is None
                },
                Some(p) => if connected(old(self).peers@, p.from@) {
                    &&& final(self).pending is None
                    &&& r@.len() >= 1
                    &&& r@[0] == HubAction::SetPending(None)
                    &&& begins(
                        *old(self),
                        *final(self),
                        p.from,
                        p.generation,
                        p.files@,
                        true,
                        probes@,
                        r@.skip(1),
                    )
                } else {
                    &&& final(self).pending == old(self).pending
                    &&& final(self).incoming == old(self).incoming
                    &&& r@.len() == 2
                    &&& shows_pending(r@[0], old(self).pending)
                    &&& r@[1] matches HubAction::Notify(t) && t@ == offline_text(lang)
                },
            },
    {
        let mut acts: Vec<HubAction> = Vec::new();
        match self.pending.take() {
            None => acts,
            Some(p) => {
                if !self.is_connected(&p.from) {
                    self.pending = Some(p);
                    acts.push(self.publish_pending());
                    acts.push(HubAction::Notify(offline_message(lang)));
                    return acts;
                }
                acts.push(self.publish_pending());
                let mut more = self.begin_incoming_files(
                    p.from,
                    p.generation,
                    p.files,
                    true,
                    probes,
                );
                let ghost begun = more@;
                acts.append(&mut more);
                assert(acts@.skip(1) =~= begun);
                acts
            },
        }
    }

    /// A reception was cut off. One that the user asked for by hand waits again; what
    /// was received stays in the cache.
    pub fn requeue_if_manual(&mut self) -> (r: Vec<HubAction>)
        requires
            old(self).wf(),
        ensures
            final(self).wf(),
            final(self).peers == old(self).peers,
            final(self).last_skip == old(self).last_skip,
            final(self).applied_settings == old(self).applied_settings,
            cut_off(*old(self), *final(self), r@, Seq::empty()),
    {
        let mut acts: Vec<HubAction> = Vec::new();
        match self.incoming.take() {
            None => {},
            Some(t) => if t.manual {
                self.pending = Some(
                    PendingFetch {
                        from: t.from,
                        generation: t.generation,
                        files: t.files,
                        total: t.total_bytes,
                    },
                );
                acts.push(self.publish_pending());
            },
        }
        proof {
            if acts@.len() == 0 {
                assert(acts@ =~= Seq::<HubAction>::empty());
            } else {
                assert(acts@.skip(1) =~= Seq::<HubAction>::empty());
            }
        }
        acts
    }

    /// The device that sends went away: the clipboard does not hold what was announced.
    fn break_off(&mut self) -> (r: Vec<HubAction>)
        requires
            old(self).wf(),
        ensures
            final(self).wf(),
            final(self).peers == old(self).peers,
            final(self).last_skip == old(self).last_skip,
            final(self).applied_settings == old(self).applied_settings,
            cut_off(*old(self), *final(self), r@, seq![HubAction::ForgetCurrent]),
    {
        let mut acts = self.requeue_if_manual();
        let ghost first = acts@;
        acts.push(HubAction::ForgetCurrent);
        proof {
            let tail = seq![HubAction::ForgetCurrent];
            if first.len() == 0 {
                assert(acts@ =~= tail);
            } else {
                assert(acts@.skip(1) =~= tail);
            }
        }
        acts
    }

    /// Nothing waits to be fetched any more.
    pub fn clear_pending(&mut self) -> (r: Vec<HubAction>)
        ensures
            final(self).pending is None,
            final(self).peers == old(self).peers,
            final(self).incoming == old(self).incoming,
            final(self).last_skip == old(self).last_skip,
            final(self).applied_settings == old(self).applied_settings,
            r@ == if old(self).pending is Some {
                seq![HubAction::SetPending(None)]
            } else {
                Seq::<HubAction>::empty()
            },
    {
        let mut acts: Vec<HubAction> = Vec::new();
        if self.pending.take().is_some() {
            acts.push(self.publish_pending());
        }
        acts
    }

    /// A chunk of a file was handled. Chunks of a generation that is not being received
    /// are not handled at all.
    pub fn on_file_chunk(
        &mut self,
        generation: u64,
        file_id: u64,
        outcome: ChunkOutcome,
        lang: Lang,
    ) -> (r: Vec<HubAction>)
        requires
            old(self).wf(),
        ensures
            final(self).wf(),
            final(self).peers == old(self).peers,
            final(self).last_skip == old(self).last_skip,
            final(self).applied_settings == old(self).applied_settings,
            final(self).pending == old(self).pending,
            !old(self).receiving(generation) ==> final(self).incoming == old(self).incoming
                && r@.len() == 0,
            old(self).receiving(generation) ==> match outcome {
                ChunkOutcome::Undecodable => {
                    &&& final(self).incoming is None
                    &&& gives_up(
                        old(self).incoming->0.manual,
                        damaged_text(lang),
                        seq![HubAction::ForgetCurrent],
                        r@,
                    )
                },
                ChunkOutcome::Refused => {
                    &&& final(self).incoming is None
                    &&& gives_up(
                        old(self).incoming->0.manual,
                        not_stored_text(lang),
                        seq![HubAction::ForgetCurrent, HubAction::ClearTransfer],
                        r@,
                    )
                },
                ChunkOutcome::Stored(n) => {
                    let t = old(self).incoming->0;
                    let got = if t.got_bytes + n <= u64::MAX {
                        (t.got_bytes + n) as u64
                    } else {
                        u64::MAX
                    };
                    let at = file_at(t.files@, file_id) as int;
                    &&& final(self).incoming == Some(IncomingTransfer { got_bytes: got, ..t })
                    &&& r@.len() == 1
                    &&& r@[0] matches HubAction::NoteTransfer(p) && {
                        &&& !p.sending
                        &&& p.done == got
                        &&& p.total == t.total_bytes
                        &&& if at < t.files@.len() {
                            p.name == t.files@[at].name
                        } else {
                            p.name@ == "文件"@
                        }
                    }
                },
            },
    {
        let mut acts: Vec<HubAction> = Vec::new();
        if !self.matches_incoming(generation) {
            return acts;
        }
        match outcome {
            ChunkOutcome::Undecodable => {
                acts.push(HubAction::ForgetCurrent);
                assert(acts@ =~= seq![HubAction::ForgetCurrent]);
                acts = self.refused(acts, damaged_message(lang));
            },
            ChunkOutcome::Refused => {
                acts.push(HubAction::ForgetCurrent);
                acts.push(HubAction::ClearTransfer);
                assert(acts@ =~= seq![HubAction::ForgetCurrent, HubAction::ClearTransfer]);
                acts = self.refused(acts, not_stored_message(lang));
            },
            ChunkOutcome::Stored(n) => {
                match self.incoming.take() {
                    None => {},
                    Some(t) => {
                        let got: u64 = t.got_bytes.saturating_add(n);
                        let name = match t.index_of(file_id) {
                            Some(i) => t.files[i].name.clone(),
                            None => copy_of("文件"),
                        };
                        acts.push(
                            HubAction::NoteTransfer(
                                TransferProgress {
                                    sending: false,
                                    name,
                                    done: got,
                                    total: t.total_bytes,
                                },
                            ),
                        );
                        self.incoming = Some(
                            IncomingTransfer {
                                generation: t.generation,
                                from: t.from,
                                files: t.files,
                                manual: t.manual,
                                done: t.done,
                                total_bytes: t.total_bytes,
                                got_bytes: got,
                            },
                        );
                    },
                }
            },
        }
        acts
    }

    /// A file arrived completely and was checked. A file that fails its check ends the
    /// reception; the last file that passes leads to the clipboard.
    pub fn on_file_done(
        &mut self,
        generation: u64,
        file_id: u64,
        verified: bool,
        lang: Lang,
    ) -> (r: Vec<HubAction>)
        requires
            old(self).wf(),
        ensures
            final(self).wf(),
            final(self).peers == old(self).peers,
            final(self).last_skip == old(self).last_skip,
            final(self).applied_settings == old(self).applied_settings,
            !old(self).receiving(generation) ==> final(self).incoming == old(self).incoming
                && r@.len() == 0,
            final(self).pending == old(self).pending,
            old(self).receiving(generation) && !verified ==> final(self).incoming is None
                && gives_up(
                old(self).incoming->0.manual,
                damaged_text(lang),
                seq![HubAction::ForgetCurrent],
                r@,
            ),
            old(self).receiving(generation) && verified ==> {
                let t = old(self).incoming->0;
                let at = file_at(t.files@, file_id) as int;
                let done = if at < t.files@.len() {
                    t.done@.update(at, true)
                } else {
                    t.done@
                };
                if all_set(done) {
                    &&& final(self).incoming is None
                    &&& r@.len() == 1
                    &&& is_landing(r@[0], generation, t.files@, t.manual)
                } else {
                    &&& r@.len() == 0
                    &&& final(self).incoming matches Some(u) && {
                        &&& u.done@ == done
                        &&& u.generation == t.generation
                        &&& u.from == t.from
                        &&& u.files == t.files
                        &&& u.manual == t.manual
                        &&& u.total_bytes == t.total_bytes
                        &&& u.got_bytes == t.got_bytes
                    }
                }
            },
    {
        let mut acts: Vec<HubAction> = Vec::new();
        if !self.matches_incoming(generation) {
            return acts;
        }
        if !verified {
            acts.push(HubAction::ForgetCurrent);
            return self.refused(acts, damaged_message(lang));
        }
        match self.incoming.take() {
            None => {},
            Some(t) => {
                let ghost before = t;
                let mut t = t;
                match t.index_of(file_id) {
                    Some(i) => {
                        t.done.set(i, true);
                    },
                    None => {},
                }
                let ghost at = file_at(before.files@, file_id) as int;
                let ghost done = if at < before.files@.len() {
                    before.done@.update(at, true)
                } else {
                    before.done@
                };
                assert(t.done@ == done);
                if t.all_done() {
                    acts.push(HubAction::Land {
                            generation: t.generation,
                            items: t.items(),
                            manual: t.manual,
                        });
                } else {
                    self.incoming = Some(t);
                }
            },
        }
        acts
    }

    /// What follows an attempt to hand files to the clipboard: on success the cache is
    /// tidied, the files just handed out excepted. Where the user had asked for the files
    /// by hand, they are told of a failure.
    pub fn landed(
        &self,
        outcome: LandingOutcome,
        generation: u64,
        items: &Vec<(u64, String)>,
        manual: bool,
        lang: Lang,
    ) -> (r: Vec<HubAction>)
        ensures
            match outcome {
                LandingOutcome::Done => {
                    &&& r@.len() == 2
                    &&& r@[0] == HubAction::CleanupExcept(generation)
                    &&& r@[1] matches HubAction::Evict(ids) && ids@ == items@.map_values(
                        |i: (u64, String)| i.0,
                    )
                },
                LandingOutcome::Failed => {
                    &&& r@.len() == if manual {
                        2
                    } else {
                        1int
                    }
                    &&& r@[0] == HubAction::ForgetCurrent
                    &&& manual ==> (r@[1] matches HubAction::Notify(t) && t@ == not_landed_text(
                        lang,
                    ))
                },
                LandingOutcome::NoClipboard => {
                    &&& r@.len() == if manual {
                        1
                    } else {
                        0int
                    }
                    &&& manual ==> (r@[0] matches HubAction::Notify(t) && t@ == not_landed_text(
                        lang,
                    ))
                },
            },
    {
        let mut acts: Vec<HubAction> = Vec::new();
        match outcome {
            LandingOutcome::Done => {
                let mut ids: Vec<u64> = Vec::new();
                let mut i: usize = 0;
                while i < items.len()
                    invariant
                        i <= items.len(),
                        ids@.len() == i,
                        forall|k: int| 0 <= k < i ==> #[trigger] ids@[k] == items@[k].0,
                    decreases items.len() - i,
                {
                    ids.push(items[i].0);
                    i += 1;
                }
                assert(ids@ =~= items@.map_values(|i: (u64, String)| i.0));
                acts.push(HubAction::CleanupExcept(generation));
                acts.push(HubAction::Evict(ids));
            },
            LandingOutcome::Failed => {
                acts.push(HubAction::ForgetCurrent);
                if manual {
                    acts.push(HubAction::Notify(not_landed_message(lang)));
                }
            },
            LandingOutcome::NoClipboard => {
                if manual {
                    acts.push(HubAction::Notify(not_landed_message(lang)));
                }
            },
        }
        acts
    }

    /// Gives the reception under way up: `acts` are done, and the user is told `text` where
    /// they had asked for the files by hand.
    fn refused(&mut self, acts: Vec<HubAction>, text: String) -> (r: Vec<HubAction>)
        requires
            old(self).wf(),
            old(self).incoming is Some,
        ensures
            final(self).wf(),
            final(self).peers == old(self).peers,
            final(self).pending == old(self).pending,
            final(self).last_skip == old(self).last_skip,
            final(self).applied_settings == old(self).applied_settings,
            final(self).incoming is None,
            gives_up(old(self).incoming->0.manual, text@, acts@, r@),
    {
        let ghost head = acts@;
        let mut acts = acts;
        match self.incoming.take() {
            Some(t) => if t.manual {
                acts.push(HubAction::Notify(text));
                assert(acts@.take(head.len() as int) =~= head);
            },
            None => {},
        }
        acts
    }

    /// A device sent a message. Where it thereby ends a reception that the user asked for
    /// by hand, the user is told.
    pub fn on_remote(&mut self, from: DeviceId, msg: SyncMessage, lang: Lang) -> (r: Vec<
        HubAction,
    >)
        requires
            old(self).wf(),
        ensures
            final(self).wf(),
            final(self).peers == old(self).peers,
            final(self).last_skip == old(self).last_skip,
            final(self).applied_settings == old(self).applied_settings,
            final(self).pending == old(self).pending,
            if ends_reception(*old(self), msg) {
                &&& final(self).incoming is None
                &&& gives_up(
                    old(self).incoming->0.manual,
                    refusal_text(msg, lang),
                    seq![HubAction::ForgetCurrent],
                    r@,
                )
            } else {
                &&& final(self).incoming == old(self).incoming
                &&& r@ == remote_actions(*old(self), from, msg)
            },
            msg matches SyncMessage::FileChunk {
                generation,
                file_id,
                offset,
                data,
                compressed,
                plain_len,
            } ==> r@ == if old(self).incoming matches Some(t) && t.generation == generation {
                seq![HubAction::StoreChunk { file_id, offset, data, compressed, plain_len }]
            } else {
                Seq::<HubAction>::empty()
            },
            msg matches SyncMessage::FileDone { generation, file_id, content_hash } ==> r@
                == if old(self).incoming matches Some(t) && t.generation == generation {
                seq![HubAction::Finalize { generation, file_id, content_hash }]
            } else {
                Seq::<HubAction>::empty()
            },
    {
        let mut acts: Vec<HubAction> = Vec::new();
        match msg {
            SyncMessage::Clip { origin, seq, content_hash, content } => {
                acts.push(HubAction::Consult { from, seq, content_hash, content });
            },
            SyncMessage::FileChunk { generation, file_id, offset, data, compressed, plain_len } => {
                if self.matches_incoming(generation) {
                    acts.push(
                        HubAction::StoreChunk { file_id, offset, data, compressed, plain_len },
                    );
                }
            },
            SyncMessage::FileDone { generation, file_id, content_hash } => {
                if self.matches_incoming(generation) {
                    acts.push(HubAction::Finalize { generation, file_id, content_hash });
                }
            },
            SyncMessage::FileAbort { generation } => {
                if self.matches_incoming(generation) {
                    let text = match lang {
                        Lang::Zh => copy_of("取回没有完成：对方的剪贴板已经换成了别的内容。"),
                        Lang::English => copy_of(
                            "The fetch was not completed: that device has copied something else.",
                        ),
                    };
                    acts.push(HubAction::ForgetCurrent);
                    return self.refused(acts, text);
                }
            },
            SyncMessage::FileUnavailable { generation, file_id, reason } => {
                if self.matches_incoming(generation) {
                    let mut text = match lang {
                        Lang::Zh => copy_of("取回没有完成："),
                        Lang::English => copy_of("The fetch was not completed: "),
                    };
                    text.append(reason.as_str());
                    acts.push(HubAction::ForgetCurrent);
                    return self.refused(acts, text);
                }
            },
            SyncMessage::Addresses { addrs } => {
                acts.push(HubAction::LearnAddresses { from, addrs });
            },
            _ => {},
        }
        acts
    }

    /// Received content was found new or not. Text and images go to the clipboard at
    /// once, files are offered.
    pub fn on_remote_clip(
        &mut self,
        decision: RemoteDecision,
        from: DeviceId,
        seq: u64,
        content_hash: u64,
        content: ClipContent,
        probes: &Vec<CacheProbe>,
        limit: u64,
    ) -> (r: Vec<HubAction>)
        requires
            old(self).wf(),
            content matches ClipContent::Files(files) ==> probes_ok(files@, probes@),
        ensures
            final(self).wf(),
            final(self).peers == old(self).peers,
            final(self).last_skip == old(self).last_skip,
            final(self).applied_settings == old(self).applied_settings,
            decision == RemoteDecision::Skip || !(content is Files) ==> {
                &&& final(self).incoming == old(self).incoming
                &&& final(self).pending == old(self).pending
            },
            decision == RemoteDecision::Skip ==> r@.len() == 0,
            decision == RemoteDecision::Apply && !(content is Files) ==> r@
                == seq![HubAction::ExpectEcho(content_hash), HubAction::WriteClipboard {
                from,
                content,
            }],
            decision == RemoteDecision::Apply ==> (content matches ClipContent::Files(files) ==> {
                if total_size(files@) <= limit || all_cached(probes@) {
                    let n = if old(self).pending is Some {
                        1int
                    } else {
                        0int
                    };
                    &&& final(self).pending is None
                    &&& n <= r@.len()
                    &&& n == 1 ==> r@[0] == HubAction::SetPending(None)
                    &&& begins(
                        *old(self),
                        *final(self),
                        from,
                        seq,
                        files@,
                        false,
                        probes@,
                        r@.skip(n),
                    )
                } else {
                    &&& final(self).incoming is None
                    &&& final(self).pending matches Some(p) && {
                        &&& p.from == from
                        &&& p.generation == seq
                        &&& p.files == files
                        &&& p.total == total_size(files@)
                    }
                    &&& r@.len() == 2
                    &&& r@[0] == HubAction::ForgetCurrent
                    &&& shows_pending(r@[1], final(self).pending)
                }
            }),
    {
        let mut acts: Vec<HubAction> = Vec::new();
        match decision {
            RemoteDecision::Skip => acts,
            RemoteDecision::Apply => match content {
                ClipContent::Files(files) => self.offer_incoming_files(
                    from,
                    seq,
                    files,
                    probes,
                    limit,
                ),
                other => {
                    acts.push(HubAction::ExpectEcho(content_hash));
                    acts.push(HubAction::WriteClipboard { from, content: other });
                    acts
                },
            },
        }
    }

    /// Takes a device out of the connected ones.
    fn drop_peer(&mut self, device: &DeviceId)
        requires
            peers_distinct(old(self).peers@),
        ensures
            peers_distinct(final(self).peers@),
            final(self).peers@ == without_peer(old(self).peers@, device@),
            final(self).incoming == old(self).incoming,
            final(self).pending == old(self).pending,
            final(self).last_skip == old(self).last_skip,
            final(self).applied_settings == old(self).applied_settings,
    {
        let mut i: usize = 0;
        while i < self.peers.len()
            invariant
                i <= self.peers.len(),
                self.peers == old(self).peers,
                self.incoming == old(self).incoming,
                self.pending == old(self).pending,
                self.last_skip == old(self).last_skip,
                self.applied_settings == old(self).applied_settings,
                peers_distinct(self.peers@),
                forall|k: int| 0 <= k < i ==> (#[trigger] self.peers@[k]).device@ != device@,
            decreases self.peers.len() - i,
        {
            if self.peers[i].device.is(device) {
                proof {
                    lemma_peer_at(self.peers@, device@, i as int);
                    lemma_remove_distinct(self.peers@, i as int);
                }
                self.peers.remove(i);
                return;
            }
            i += 1;
        }
        proof {
            lemma_peer_at(self.peers@, device@, i as int);
        }
    }

    /// A device connected.
    pub fn peer_connected(&mut self, device: DeviceId, name: String) -> (r: Vec<HubAction>)
        requires
            old(self).wf(),
        ensures
            final(self).wf(),
            final(self).peers@ == without_peer(old(self).peers@, device@).push(
                Peer { device, name },
            ),
            final(self).incoming == old(self).incoming,
            final(self).pending == old(self).pending,
            final(self).last_skip == old(self).last_skip,
            final(self).applied_settings == old(self).applied_settings,
            r@.len() == 1,
            r@[0] matches HubAction::SetConnected(ids) && ids@ == device_list(final(self).peers@),
    {
        self.drop_peer(&device);
        proof {
            lemma_without_peer(old(self).peers@, device@);
            let p = self.peers@;
            assert forall|a: int, b: int|
                0 <= a < b < p.len() + 1 implies (#[trigger] p.push(Peer { device, name })[a]).device@
                != (#[trigger] p.push(Peer { device, name })[b]).device@ by {
                if b == p.len() {
                    assert(p[a].device@ != device@);
                } else {
                    assert(p[a].device@ != p[b].device@);
                }
            }
        }
        self.peers.push(Peer { device, name });
        let mut acts: Vec<HubAction> = Vec::new();
        acts.push(HubAction::SetConnected(self.connected_ids()));
        acts
    }

    /// Whether a reception from this device is under way.
    pub open spec fn receiving_from(&self, device: Seq<char>) -> bool {
        self.incoming matches Some(t) && t.from@ == device
    }

    fn is_receiving_from(&self, device: &DeviceId) -> (r: bool)
        ensures
            r == self.receiving_from(device@),
    {
        match &self.incoming {
            Some(t) => t.from.is(device),
            None => false,
        }
    }

    /// A device's connection ended. A reception from it is cut off; one that the user
    /// asked for by hand waits again.
    pub fn peer_disconnected(&mut self, device: &DeviceId) -> (r: Vec<HubAction>)
        requires
            old(self).wf(),
        ensures
            final(self).wf(),
            final(self).peers@ == without_peer(old(self).peers@, device@),
            final(self).last_skip == old(self).last_skip,
            final(self).applied_settings == old(self).applied_settings,
            r@.len() >= 1,
            r@[0] matches HubAction::SetConnected(ids) && ids@ == device_list(final(self).peers@),
            if old(self).receiving_from(device@) {
                cut_off(*old(self), *final(self), r@.skip(1), seq![HubAction::ForgetCurrent])
            } else {
                &&& final(self).incoming == old(self).incoming
                &&& final(self).pending == old(self).pending
                &&& r@.len() == 1
            },
    {
        self.drop_peer(device);
        let mut acts: Vec<HubAction> = Vec::new();
        acts.push(HubAction::SetConnected(self.connected_ids()));
        if self.is_receiving_from(device) {
            let mut more = self.break_off();
            let ghost broken = more@;
            acts.append(&mut more);
            assert(acts@.skip(1) =~= broken);
        }
        acts
    }

    /// The user ended the pairing with a device. Its connection ends with it, and so
    /// does any reception from it.
    pub fn unpaired(&mut self, device: &DeviceId) -> (r: Vec<HubAction>)
        requires
            old(self).wf(),
        ensures
            final(self).wf(),
            final(self).peers@ == without_peer(old(self).peers@, device@),
            final(self).pending == old(self).pending,
            final(self).last_skip == old(self).last_skip,
            final(self).applied_settings == old(self).applied_settings,
            r@.len() >= 1,
            r@[0] matches HubAction::SetConnected(ids) && ids@ == device_list(final(self).peers@),
            if old(self).receiving_from(device@) {
                &&& final(self).incoming is None
                &&& r@.len() == 2
                &&& r@[1] == HubAction::ForgetCurrent
            } else {
                &&& final(self).incoming == old(self).incoming
                &&& r@.len() == 1
            },
    {
        self.drop_peer(device);
        let mut acts: Vec<HubAction> = Vec::new();
        acts.push(HubAction::SetConnected(self.connected_ids()));
        if self.is_receiving_from(device) {
            self.incoming = None;
            acts.push(HubAction::ForgetCurrent);
        }
        acts
    }

    /// All connected devices are told that a device left the group.
    pub fn announce_removal(&self, device: DeviceId) -> (r: HubAction)
        ensures
            r matches HubAction::Broadcast { to, msg } && to@ == device_list(self.peers@) && msg == (
            SyncMessage::Removed { device }),
    {
        HubAction::Broadcast { to: self.connected_ids(), msg: SyncMessage::Removed { device } }
    }

    /// What a skipped change is worth telling: the two reasons that the user can do
    /// something about, each the first time in a row only.
    pub fn log_skip(&mut self, reason: SkipReason) -> (r: SkipNotice)
        ensures
            final(self).last_skip == Some(reason),
            final(self).peers == old(self).peers,
            final(self).incoming == old(self).incoming,
            final(self).pending == old(self).pending,
            final(self).applied_settings == old(self).applied_settings,
            r == if old(self).last_skip == Some(reason) {
                SkipNotice::Quiet
            } else {
                match reason {
                    SkipReason::TooLarge => SkipNotice::TooLarge,
                    SkipReason::KindDisabled => SkipNotice::KindDisabled,
                    _ => SkipNotice::Quiet,
                }
            },
    {
        let repeated = match self.last_skip {
            Some(last) => last == reason,
            None => false,
        };
        self.last_skip = Some(reason);
        if repeated {
            return SkipNotice::Quiet;
        }
        match reason {
            SkipReason::TooLarge => SkipNotice::TooLarge,
            SkipReason::KindDisabled => SkipNotice::KindDisabled,
            _ => SkipNotice::Quiet,
        }
    }

    /// The clipboard of this device changed. Content that is sent becomes the current
    /// generation, which ends transfers of older ones; files are registered so that
    /// other devices can ask for them.
    pub fn on_local<P>(
        &mut self,
        decision: LocalDecision,
        origin: DeviceId,
        content: ClipContent,
        file_paths: Vec<P>,
        outgoing: &mut OutgoingFiles<P>,
    ) -> (r: (Option<HubAction>, SkipNotice))
        requires
            old(outgoing).wf(),
        ensures
            final(outgoing).wf(),
            final(self).peers == old(self).peers,
            final(self).incoming == old(self).incoming,
            final(self).pending == old(self).pending,
            final(self).applied_settings == old(self).applied_settings,
            match decision {
                LocalDecision::Skip(reason) => {
                    &&& r.0 is None
                    &&& r.1 == if old(self).last_skip == Some(reason) {
                        SkipNotice::Quiet
                    } else {
                        match reason {
                            SkipReason::TooLarge => SkipNotice::TooLarge,
                            SkipReason::KindDisabled => SkipNotice::KindDisabled,
                            _ => SkipNotice::Quiet,
                        }
                    }
                    &&& final(self).last_skip == Some(reason)
                    &&& *final(outgoing) == *old(outgoing)
                },
                LocalDecision::Broadcast { seq, content_hash } => {
                    &&& r.1 == SkipNotice::Quiet
                    &&& final(self).last_skip == old(self).last_skip
                    &&& final(outgoing).now() == seq
                    &&& match content {
                        ClipContent::Files(metas) => {
                            &&& final(outgoing).latest_files() == seq
                            &&& own_paths(
                                metas@,
                                file_paths@,
                                old(outgoing).generations().dom(),
                                seq,
                            ) ==> forall|i: int|
                                0 <= i < metas@.len() ==> final(outgoing).lookup(
                                    seq,
                                    (#[trigger] metas@[i]).id,
                                ) == Some(file_paths@[i])
                            &&& exists|pairs: Vec<(u64, P)>|
                                {
                                    &&& is_pairing(pairs@, metas@, file_paths@)
                                    &&& final(outgoing).generations() == #[trigger] newest(
                                        old(outgoing).generations().insert(seq, pairs),
                                    )
                                }
                        },
                        _ => {
                            &&& final(outgoing).latest_files() == old(outgoing).latest_files()
                            &&& final(outgoing).generations() == old(outgoing).generations()
                        },
                    }
                    &&& if old(self).peers@.len() == 0 {
                        r.0 is None
                    } else {
                        r.0 matches Some(HubAction::Broadcast { to, msg }) && to@ == device_list(
                            old(self).peers@,
                        ) && msg == (SyncMessage::Clip { origin, seq, content_hash, content })
                    }
                },
            },
    {
        match decision {
            LocalDecision::Skip(reason) => {
                let notice = self.log_skip(reason);
                (None, notice)
            },
            LocalDecision::Broadcast { seq, content_hash } => {
                match &content {
                    ClipContent::Files(metas) => {
                        let ghost paths = file_paths@;
                        let pairs = pair_up(metas, file_paths);
                        let ghost joined = pairs;
                        outgoing.register(seq, pairs);
                        proof {
                            if own_paths(metas@, paths, old(outgoing).generations().dom(), seq) {
                                assert forall|i: int| 0 <= i < metas@.len() implies outgoing.lookup(
                                    seq,
                                    (#[trigger] metas@[i]).id,
                                ) == Some(paths[i]) by {
                                    each_file_is_served_by_its_own_path(
                                        *old(outgoing),
                                        *outgoing,
                                        seq,
                                        metas@,
                                        paths,
                                        joined,
                                        i,
                                    );
                                }
                            }
                        }
                    },
                    _ => {
                        outgoing.advance(seq);
                    },
                }
                if self.peers.len() == 0 {
                    return (None, SkipNotice::Quiet);
                }
                let to = self.connected_ids();
                let msg = SyncMessage::Clip { origin, seq, content_hash, content };
                (Some(HubAction::Broadcast { to, msg }), SkipNotice::Quiet)
            },
        }
    }
}

/// There is a path for each file, no two files have one id, and the generation is not dropped
/// at once for being older than the four that are remembered.
pub open spec fn own_paths<P>(
    metas: Seq<FileMeta>,
    paths: Seq<P>,
    remembered: Set<u64>,
    generation: u64,
) -> bool {
    &&& metas.len() == paths.len()
    &&& forall|i: int, j: int|
        0 <= i < j < metas.len() ==> (#[trigger] metas[i]).id != (#[trigger] metas[j]).id
    &&& {
        ||| remembered.len() < 4
        ||| remembered.contains(generation)
        ||| exists|g: u64| #[trigger] remembered.contains(g) && g < generation
    }
}

/// `pairs` joins each file's id with the path at the same place, as far as both lists
/// reach.
pub open spec fn is_pairing<P>(
    pairs: Seq<(u64, P)>,
    metas: Seq<FileMeta>,
    paths: Seq<P>,
) -> bool {
    &&& pairs.len() == if metas.len() <= paths.len() {
        metas.len()
    } else {
        paths.len()
    }
    &&& forall|i: int| 0 <= i < pairs.len() ==> #[trigger] pairs[i] == (metas[i].id, paths[i])
}

fn pair_up<P>(metas: &Vec<FileMeta>, paths: Vec<P>) -> (r: Vec<(u64, P)>)
    ensures
        is_pairing(r@, metas@, paths@),
{
    let mut r: Vec<(u64, P)> = Vec::new();
    for p in it: paths
        invariant
            it.seq() == paths@,
            r@.len() <= metas@.len(),
            r@.len() == if it.index() <= metas@.len() {
                it.index() as nat
            } else {
                metas@.len()
            },
            forall|i: int| 0 <= i < r@.len() ==> #[trigger] r@[i] == (metas@[i].id, paths@[i]),
    {
        if r.len() < metas.len() {
            let i: usize = r.len();
            r.push((metas[i].id, p));
        }
    }
    r
}

/// Whether a message ends the reception under way.
pub open spec fn ends_reception(st: HubState, msg: SyncMessage) -> bool {
    match msg {
        SyncMessage::FileAbort { generation } => st.receiving(generation),
        SyncMessage::FileUnavailable { generation, .. } => st.receiving(generation),
        _ => false,
    }
}

/// What the user is told where a message ends a fetch that they asked for by hand.
pub open spec fn refusal_text(msg: SyncMessage, lang: Lang) -> Seq<char> {
    match (msg, lang) {
        (SyncMessage::FileUnavailable { reason, .. }, Lang::Zh) => "取回没有完成："@ + reason@,
        (SyncMessage::FileUnavailable { reason, .. }, Lang::English) =>
            "The fetch was not completed: "@ + reason@,
        (_, Lang::Zh) => "取回没有完成：对方的剪贴板已经换成了别的内容。"@,
        (_, Lang::English) => "The fetch was not completed: that device has copied something else."@,
    }
}

/// A reception is given up, and `acts` are what that leads to: `head`, and word to the user
/// where they had asked for the files by hand.
pub open spec fn gives_up(
    manual: bool,
    text: Seq<char>,
    head: Seq<HubAction>,
    acts: Seq<HubAction>,
) -> bool {
    if manual {
        &&& acts.len() == head.len() + 1
        &&& acts.take(head.len() as int) == head
        &&& acts.last() matches HubAction::Notify(t) && t@ == text
    } else {
        acts == head
    }
}

/// What a message from another device leads to, where it does not end a reception.
pub open spec fn remote_actions(st: HubState, from: DeviceId, msg: SyncMessage) -> Seq<HubAction> {
    match msg {
        SyncMessage::Clip { origin, seq, content_hash, content } => seq![
            HubAction::Consult { from, seq, content_hash, content },
        ],
        SyncMessage::FileChunk { generation, file_id, offset, data, compressed, plain_len } => {
            if st.receiving(generation) {
                seq![HubAction::StoreChunk { file_id, offset, data, compressed, plain_len }]
            } else {
                Seq::empty()
            }
        },
        SyncMessage::FileDone { generation, file_id, content_hash } => {
            if st.receiving(generation) {
                seq![HubAction::Finalize { generation, file_id, content_hash }]
            } else {
                Seq::empty()
            }
        },
        SyncMessage::Addresses { addrs } => seq![HubAction::LearnAddresses { from, addrs }],
        _ => Seq::empty(),
    }
}

/// The first place of a device, or the number of devices.
pub open spec fn peer_at(peers: Seq<Peer>, device: Seq<char>) -> nat
    decreases peers.len(),
{
    if peers.len() == 0 || peers[0].device@ == device {
        0
    } else {
        1 + peer_at(peers.drop_first(), device)
    }
}

/// The connected devices without one of them.
pub open spec fn without_peer(peers: Seq<Peer>, device: Seq<char>) -> Seq<Peer> {
    if peer_at(peers, device) < peers.len() {
        peers.remove(peer_at(peers, device) as int)
    } else {
        peers
    }
}

proof fn lemma_peer_at(peers: Seq<Peer>, device: Seq<char>, n: int)
    requires
        0 <= n <= peers.len(),
        forall|i: int| 0 <= i < n ==> (#[trigger] peers[i]).device@ != device,
        n == peers.len() || peers[n].device@ == device,
    ensures
        peer_at(peers, device) == n,
    decreases n,
{
    if n > 0 {
        assert(peers[0].device@ != device);
        let t = peers.drop_first();
        assert forall|i: int| 0 <= i < n - 1 implies (#[trigger] t[i]).device@ != device by {
            assert(peers[i + 1].device@ != device);
        }
        lemma_peer_at(t, device, n - 1);
    }
}

proof fn lemma_peer_at_first(peers: Seq<Peer>, device: Seq<char>)
    ensures
        peer_at(peers, device) <= peers.len(),
        forall|i: int| 0 <= i < peer_at(peers, device) ==> (#[trigger] peers[i]).device@ != device,
        peer_at(peers, device) < peers.len() ==> peers[peer_at(peers, device) as int].device@
            == device,
    decreases peers.len(),
{
    if peers.len() > 0 && peers[0].device@ != device {
        let t = peers.drop_first();
        lemma_peer_at_first(t, device);
        assert forall|i: int| 0 <= i < peer_at(peers, device) implies (
        #[trigger] peers[i]).device@ != device by {
            if i > 0 {
                assert(t[i - 1].device@ != device);
            }
        }
    }
}

proof fn lemma_remove_distinct(peers: Seq<Peer>, i: int)
    requires
        0 <= i < peers.len(),
        peers_distinct(peers),
    ensures
        peers_distinct(peers.remove(i)),
{
    let r = peers.remove(i);
    assert forall|a: int, b: int| 0 <= a < b < r.len() implies (#[trigger] r[a]).device@ != (
    #[trigger] r[b]).device@ by {
        let a2 = if a < i {
            a
        } else {
            a + 1
        };
        let b2 = if b < i {
            b
        } else {
            b + 1
        };
        assert(peers[a2].device@ != peers[b2].device@);
    }
}

/// A device that left is no longer connected; the others stay.
pub proof fn lemma_without_peer(peers: Seq<Peer>, device: Seq<char>)
    requires
        peers_distinct(peers),
    ensures
        !connected(without_peer(peers, device), device),
        forall|d: Seq<char>|
            d != device ==> #[trigger] connected(without_peer(peers, device), d) == connected(
                peers,
                d,
            ),
{
    lemma_peer_at_first(peers, device);
    let n = peer_at(peers, device) as int;
    let r = without_peer(peers, device);
    assert forall|k: int| 0 <= k < r.len() implies (#[trigger] r[k]).device@ != device by {
        if n < peers.len() {
            if k < n {
                assert(peers[k].device@ != device);
            } else {
                assert(peers[n].device@ != peers[k + 1].device@);
            }
        } else {
            assert(peers[k].device@ != device);
        }
    }
    assert forall|d: Seq<char>| d != device implies #[trigger] connected(r, d) == connected(
        peers,
        d,
    ) by {
        if connected(peers, d) {
            let k = choose|k: int| 0 <= k < peers.len() && (#[trigger] peers[k]).device@ == d;
            if n < peers.len() && k > n {
                assert(r[k - 1].device@ == d);
            } else {
                assert(r[k].device@ == d);
            }
        }
        if connected(r, d) {
            let k = choose|k: int| 0 <= k < r.len() && (#[trigger] r[k]).device@ == d;
            if n < peers.len() && k >= n {
                assert(peers[k + 1].device@ == d);
            } else {
                assert(peers[k].device@ == d);
            }
        }
    }
}

/// A fetch that the user asked for by hand outlives the connection: where the device that
/// sends goes away, its files wait again as they did, and the tray is told so first.
pub proof fn fetches_by_hand_outlive_the_connection(
    before: HubState,
    after: HubState,
    acts: Seq<HubAction>,
    tail: Seq<HubAction>,
)
    requires
        cut_off(before, after, acts, tail),
        before.incoming matches Some(t) && t.manual,
    ensures
        after.pending matches Some(p) && p.files == before.incoming->0.files && p.from
            == before.incoming->0.from && p.generation == before.incoming->0.generation,
        acts.len() > 0,
        acts[0] matches HubAction::SetPending(Some(i)) && i.count
            == before.incoming->0.files@.len() && i.from == before.incoming->0.from.text && i.total
            == before.incoming->0.total_bytes,
        after.pending->0.total == before.incoming->0.total_bytes,
        after.incoming is None,
        acts.len() == tail.len() + 1,
        forall|k: int| 0 <= k < tail.len() ==> acts[k + 1] == #[trigger] tail[k],
{
    assert forall|k: int| 0 <= k < tail.len() implies acts[k + 1] == #[trigger] tail[k] by {
        assert(acts.skip(1)[k] == tail[k]);
    }
}

/// The bytes of incomplete files that are not in the cache.
pub open spec fn missing_size(files: Seq<FileMeta>, probes: Seq<CacheProbe>) -> nat
    decreases files.len(),
{
    if files.len() == 0 {
        0
    } else {
        missing_size(files.drop_last(), probes.drop_last()) + if probes.last().complete {
            0nat
        } else {
            (files.last().size - probes.last().have) as nat
        }
    }
}

/// Exactly what is missing is asked for: each request is for an incomplete file, from the
/// byte where its part ends; and the bytes asked for and those in the cache add up to
/// all of them. With everything in the cache, nothing is asked for.
pub proof fn only_what_is_missing_is_asked_for(files: Seq<FileMeta>, probes: Seq<CacheProbe>)
    requires
        probes_ok(files, probes),
    ensures
        cached_size(files, probes) + missing_size(files, probes) == total_size(files),
        forall|k: int|
            0 <= k < needed(files, probes).len() ==> is_missing(
                files,
                probes,
                #[trigger] needed(files, probes)[k],
            ),
        all_cached(probes) ==> needed(files, probes).len() == 0 && missing_size(files, probes) == 0,
    decreases files.len(),
{
    if files.len() > 0 {
        let f = files.drop_last();
        let p = probes.drop_last();
        assert forall|i: int| 0 <= i < f.len() implies (#[trigger] p[i]).have <= f[i].size by {
            assert(probes[i].have <= files[i].size);
        }
        only_what_is_missing_is_asked_for(f, p);
        let n = needed(files, probes);
        let before = needed(f, p);
        assert(probes[probes.len() - 1].have <= files[files.len() - 1].size);
        assert forall|k: int| 0 <= k < n.len() implies is_missing(
            files,
            probes,
            #[trigger] n[k],
        ) by {
            if k < before.len() {
                assert(is_missing(f, p, before[k]));
                let i = choose|i: int|
                    0 <= i < f.len() && !(#[trigger] p[i]).complete && before[k] == (
                        f[i].id,
                        p[i].have,
                    );
                assert(!probes[i].complete && n[k] == (files[i].id, probes[i].have));
            } else {
                let i = files.len() - 1;
                assert(!probes[i].complete && n[k] == (files[i].id, probes[i].have));
            }
        }
        if all_cached(probes) {
            assert forall|i: int| 0 <= i < p.len() implies (#[trigger] p[i]).complete by {
                assert(probes[i].complete);
            }
            assert(probes[probes.len() - 1].complete);
        }
    }
}

/// A request for an incomplete file, from the byte where its part ends.
pub open spec fn is_missing(
    files: Seq<FileMeta>,
    probes: Seq<CacheProbe>,
    need: (u64, u64),
) -> bool {
    exists|i: int|
        0 <= i < files.len() && !(#[trigger] probes[i]).complete && need == (
            files[i].id,
            probes[i].have,
        )
}

/// Whoever asks for a copied file is sent that very file: each id leads to the path that was
/// copied with it, and to no other.
pub proof fn each_file_is_served_by_its_own_path<P>(
    before: OutgoingFiles<P>,
    after: OutgoingFiles<P>,
    generation: u64,
    metas: Seq<FileMeta>,
    paths: Seq<P>,
    pairs: Vec<(u64, P)>,
    i: int,
)
    requires
        before.wf(),
        own_paths(metas, paths, before.generations().dom(), generation),
        is_pairing(pairs@, metas, paths),
        after.generations() == newest(before.generations().insert(generation, pairs)),
        0 <= i < metas.len(),
    ensures
        after.lookup(generation, metas[i].id) == Some(paths[i]),
{
    let m = before.generations().insert(generation, pairs);
    assert(m.dom() =~= before.generations().dom().insert(generation));
    the_newest_copies_are_remembered(m, generation);
    if exists|g: u64| #[trigger] before.generations().dom().contains(g) && g < generation {
        let g = choose|g: u64| #[trigger]
            before.generations().dom().contains(g) && g < generation;
        assert(m.dom().contains(g));
    }
    assert(pairs@[i] == (metas[i].id, paths[i]));
    assert forall|k: int| 0 <= k < i implies (#[trigger] pairs@[k]).0 != metas[i].id by {
        assert(metas[k].id != metas[i].id);
    }
    lemma_place_of(pairs@, metas[i].id, i);
}

/// What is sent to the connected devices reaches every one of them, each once: the list of
/// recipients has each connected device in it, nobody else, and nobody twice.
pub proof fn broadcasts_reach_each_device_once(peers: Seq<Peer>, d: Seq<char>)
    requires
        peers_distinct(peers),
    ensures
        device_list(peers).len() == peers.len(),
        forall|i: int|
            0 <= i < peers.len() ==> device_list(peers).contains((#[trigger] peers[i]).device),
        forall|k: int|
            0 <= k < device_list(peers).len() ==> exists|i: int|
                0 <= i < peers.len() && (#[trigger] peers[i]).device == #[trigger] device_list(
                    peers,
                )[k],
        forall|j: int, k: int|
            0 <= j < k < device_list(peers).len() ==> (#[trigger] device_list(peers)[j])@ != (
            #[trigger] device_list(peers)[k])@,
        connected(peers, d) <==> exists|k: int|
            0 <= k < device_list(peers).len() && (#[trigger] device_list(peers)[k])@ == d,
        connected(peers, d) <==> exists|i: int|
            0 <= i < peers.len() && (#[trigger] peers[i]).device@ == d,
{
    let to = device_list(peers);
    assert forall|i: int| 0 <= i < peers.len() implies to.contains(
        (#[trigger] peers[i]).device,
    ) by {
        assert(to[i] == peers[i].device);
    }
    assert forall|k: int| 0 <= k < to.len() implies exists|i: int|
        0 <= i < peers.len() && (#[trigger] peers[i]).device == #[trigger] to[k] by {
        assert(peers[k].device == to[k]);
    }
    assert forall|j: int, k: int| 0 <= j < k < to.len() implies (#[trigger] to[j])@ != (
    #[trigger] to[k])@ by {
        assert(peers[j].device@ != peers[k].device@);
    }
    if connected(peers, d) {
        let i = choose|i: int| 0 <= i < peers.len() && (#[trigger] peers[i]).device@ == d;
        assert(to[i]@ == d);
    }
    if exists|k: int| 0 <= k < to.len() && (#[trigger] to[k])@ == d {
        let k = choose|k: int| 0 <= k < to.len() && (#[trigger] to[k])@ == d;
        assert(peers[k].device@ == d);
    }
}

/// The chunks of the reception under way are stored, each at its place with all that came
/// with it, and a file that is over is checked against the hash that came with it. Chunks of
/// any other generation are left alone.
pub proof fn chunks_of_the_reception_are_stored(
    st: HubState,
    from: DeviceId,
    generation: u64,
    file_id: u64,
    offset: u64,
    data: Vec<u8>,
    compressed: bool,
    plain_len: u32,
    content_hash: u64,
)
    ensures
        ({
            let chunk = SyncMessage::FileChunk {
                generation,
                file_id,
                offset,
                data,
                compressed,
                plain_len,
            };
            let done = SyncMessage::FileDone { generation, file_id, content_hash };
            let under_way = st.incoming is Some && st.incoming->0.generation == generation;
            &&& !ends_reception(st, chunk) && !ends_reception(st, done)
            &&& under_way ==> {
                &&& remote_actions(st, from, chunk).len() == 1
                &&& remote_actions(st, from, chunk)[0] == (HubAction::StoreChunk {
                    file_id,
                    offset,
                    data,
                    compressed,
                    plain_len,
                })
                &&& remote_actions(st, from, done).len() == 1
                &&& remote_actions(st, from, done)[0] == (HubAction::Finalize {
                    generation,
                    file_id,
                    content_hash,
                })
            }
            &&& !under_way ==> remote_actions(st, from, chunk).len() == 0 && remote_actions(
                st,
                from,
                done,
            ).len() == 0
        }),
{
}

/// New content and new addresses are passed on whole, whatever is being received.
pub proof fn content_and_addresses_are_passed_on(
    st: HubState,
    from: DeviceId,
    origin: DeviceId,
    seq: u64,
    content_hash: u64,
    content: ClipContent,
    addrs: Vec<Endpoint>,
)
    ensures
        ({
            let clip = SyncMessage::Clip { origin, seq, content_hash, content };
            let told = SyncMessage::Addresses { addrs };
            &&& !ends_reception(st, clip) && !ends_reception(st, told)
            &&& remote_actions(st, from, clip).len() == 1
            &&& remote_actions(st, from, clip)[0] == (HubAction::Consult {
                from,
                seq,
                content_hash,
                content,
            })
            &&& remote_actions(st, from, told).len() == 1
            &&& remote_actions(st, from, told)[0] == (HubAction::LearnAddresses { from, addrs })
        }),
{
}

/// A sender ends the reception of its own generation and of no other.
pub proof fn senders_end_their_own_reception(
    st: HubState,
    from: DeviceId,
    generation: u64,
    file_id: u64,
    reason: String,
)
    ensures
        ({
            let abort = SyncMessage::FileAbort { generation };
            let gone = SyncMessage::FileUnavailable { generation, file_id, reason };
            let under_way = st.incoming is Some && st.incoming->0.generation == generation;
            &&& ends_reception(st, abort) == under_way
            &&& ends_reception(st, gone) == under_way
            &&& remote_actions(st, from, abort).len() == 0
            &&& remote_actions(st, from, gone).len() == 0
        }),
{
}

/// What a received chunk adds to the file, once it is stored.
pub open spec fn stored_piece(act: HubAction, unpack: spec_fn(Seq<u8>) -> Seq<u8>) -> (
    nat,
    Seq<u8>,
) {
    match act {
        HubAction::StoreChunk { offset, data, compressed, .. } => (
            offset as nat,
            if compressed {
                unpack(data@)
            } else {
                data@
            },
        ),
        _ => (0, Seq::empty()),
    }
}

/// A file arrives as it was sent: where the messages of a sender's run reach a hub that is
/// receiving their generation, each chunk leads to one piece being stored, the pieces
/// appended to what the cache already holds make up the whole file, and the file is then
/// checked against the hash of the sender's file.
///
/// `hubs[i]` is the hub when message `i` arrives, and `acts[i]` what it then does.
pub proof fn files_arrive_as_they_were_sent(
    file: Seq<u8>,
    states: Seq<OutgoingStream>,
    budgets: Seq<usize>,
    reads: Seq<Vec<u8>>,
    packed: Seq<Option<Vec<u8>>>,
    hashes: Seq<u64>,
    messages: Seq<SyncMessage>,
    unpack: spec_fn(Seq<u8>) -> Seq<u8>,
    hash: spec_fn(Seq<u8>) -> u64,
    hubs: Seq<HubState>,
    from: DeviceId,
    acts: Seq<Seq<HubAction>>,
    pieces: Seq<(nat, Seq<u8>)>,
)
    requires
        is_run(file, states, budgets, reads),
        are_sent(states, reads, packed, hashes, messages, unpack),
        hashes.last() == hash(hashed_bytes(states[0], file, reads)),
        hubs.len() == messages.len(),
        acts.len() == messages.len(),
        forall|i: int|
            0 <= i < hubs.len() ==> (#[trigger] hubs[i]).incoming is Some
                && hubs[i].incoming->0.generation == states[0].spec_generation(),
        forall|i: int|
            0 <= i < acts.len() ==> #[trigger] acts[i] == remote_actions(
                hubs[i],
                from,
                messages[i],
            ),
        pieces.len() == messages.len() - 1,
        forall|i: int|
            0 <= i < pieces.len() ==> #[trigger] pieces[i] == stored_piece(acts[i][0], unpack),
    ensures
        forall|i: int|
            0 <= i < pieces.len() ==> (#[trigger] acts[i]).len() == 1 && acts[i][0] is StoreChunk,
        appended(file.take(states[0].spec_offset() as int), pieces) == Some(file),
        acts.last().len() == 1,
        acts.last()[0] == (HubAction::Finalize {
            generation: states[0].spec_generation(),
            file_id: states[0].spec_file_id(),
            content_hash: hash(file),
        }),
{
    whole_run_restores_the_file(
        file,
        states,
        budgets,
        reads,
        packed,
        hashes,
        messages,
        unpack,
        hash,
    );
    let sent = pieces_of(messages.drop_last(), unpack);
    assert forall|i: int| 0 <= i < pieces.len() implies (#[trigger] acts[i]).len() == 1
        && acts[i][0] is StoreChunk && pieces[i] == sent[i] by {
        assert(is_chunk(messages[i], states[0], budgets[i], unpack));
        assert(hubs[i].incoming is Some);
        assert(pieces[i] == stored_piece(acts[i][0], unpack));
        assert(messages.drop_last()[i] == messages[i]);
    }
    assert(pieces =~= sent) by {
        assert forall|i: int| 0 <= i < pieces.len() implies pieces[i] == sent[i] by {
            assert(acts[i].len() == 1);
        }
    }
    let n = messages.len() - 1;
    assert(hubs[n].incoming is Some);
    assert(acts[n] == remote_actions(hubs[n], from, messages[n]));
}

/// A reception asks its sender for everything that is missing and for nothing else: for each
/// incomplete file once, from the byte where its part ends. It remembers whose files they
/// are, and which of them are complete.
pub proof fn a_reception_asks_for_what_is_missing(
    before: HubState,
    after: HubState,
    from: DeviceId,
    generation: u64,
    files: Seq<FileMeta>,
    manual: bool,
    probes: Seq<CacheProbe>,
    acts: Seq<HubAction>,
    i: int,
)
    requires
        probes_ok(files, probes),
        begins(before, after, from, generation, files, manual, probes, acts),
        exists|j: int| 0 <= j < before.peers@.len() && (#[trigger] before.peers@[j]).device@ == from@,
        0 <= i < files.len(),
        !probes[i].complete,
    ensures
        exists|k: int|
            0 <= k < acts.len() && #[trigger] acts[k] == (HubAction::Send {
                to: from,
                msg: SyncMessage::FileNeed {
                    generation,
                    file_id: files[i].id,
                    offset: probes[i].have,
                },
            }),
        forall|k: int|
            0 <= k < acts.len() ==> exists|j: int|
                0 <= j < files.len() && !(#[trigger] probes[j]).complete && #[trigger] acts[k] == (
                HubAction::Send {
                    to: from,
                    msg: SyncMessage::FileNeed {
                        generation,
                        file_id: files[j].id,
                        offset: probes[j].have,
                    },
                }),
        acts.len() == incomplete(probes),
        after.incoming is Some,
        ({
            let t = after.incoming->0;
            &&& t.generation == generation
            &&& t.from == from
            &&& t.files@ == files
            &&& t.manual == manual
            &&& t.total_bytes == total_size(files)
            &&& t.done@.len() == files.len()
            &&& forall|j: int|
                0 <= j < files.len() ==> #[trigger] t.done@[j] == probes[j].complete
        }),
{
    assert(!all_cached(probes));
    assert(connected(before.peers@, from@));
    lemma_needed(files, probes);
    let needs = needed(files, probes);
    let k = choose|k: int|
        0 <= k < needs.len() && #[trigger] needs[k] == (files[i].id, probes[i].have);
    assert(is_need(acts[k], from, generation, needs[k]));
    only_what_is_missing_is_asked_for(files, probes);
    assert forall|k: int| 0 <= k < acts.len() implies exists|j: int|
        0 <= j < files.len() && !(#[trigger] probes[j]).complete && #[trigger] acts[k] == (
        HubAction::Send {
            to: from,
            msg: SyncMessage::FileNeed {
                generation,
                file_id: files[j].id,
                offset: probes[j].have,
            },
        }) by {
        assert(is_missing(files, probes, needs[k]));
        assert(is_need(acts[k], from, generation, needs[k]));
        let j = choose|j: int|
            0 <= j < files.len() && !(#[trigger] probes[j]).complete && needs[k] == (
                files[j].id,
                probes[j].have,
            );
        assert(!probes[j].complete);
    }
}

/// How many files are not complete.
pub open spec fn incomplete(probes: Seq<CacheProbe>) -> nat
    decreases probes.len(),
{
    if probes.len() == 0 {
        0
    } else {
        incomplete(probes.drop_last()) + if probes.last().complete {
            0nat
        } else {
            1nat
        }
    }
}

/// Every incomplete file is among those needed, and there are as many of either.
proof fn lemma_needed(files: Seq<FileMeta>, probes: Seq<CacheProbe>)
    requires
        files.len() == probes.len(),
    ensures
        forall|i: int|
            0 <= i < files.len() && !(#[trigger] probes[i]).complete ==> exists|k: int|
                0 <= k < needed(files, probes).len() && #[trigger] needed(files, probes)[k] == (
                    files[i].id,
                    probes[i].have,
                ),
        needed(files, probes).len() == incomplete(probes),
    decreases files.len(),
{
    if files.len() > 0 {
        let (f, p) = (files.drop_last(), probes.drop_last());
        lemma_needed(f, p);
        let (n, b) = (needed(files, probes), needed(f, p));
        assert forall|i: int| 0 <= i < files.len() && !(#[trigger] probes[i]).complete implies exists|
            k: int,
        |
            0 <= k < n.len() && #[trigger] n[k] == (files[i].id, probes[i].have) by {
            if i < f.len() {
                assert(!p[i].complete);
                let k = choose|k: int| 0 <= k < b.len() && #[trigger] b[k] == (f[i].id, p[i].have);
                assert(n[k] == (files[i].id, probes[i].have));
            } else {
                assert(n[n.len() - 1] == (files[i].id, probes[i].have));
            }
        }
    }
}

/// With everything in the cache nothing is transferred: the files go to the clipboard at
/// once, each under its own name, and nothing is being received.
pub proof fn cached_files_go_to_the_clipboard_at_once(
    before: HubState,
    after: HubState,
    from: DeviceId,
    generation: u64,
    files: Seq<FileMeta>,
    manual: bool,
    probes: Seq<CacheProbe>,
    acts: Seq<HubAction>,
)
    requires
        files.len() == probes.len(),
        begins(before, after, from, generation, files, manual, probes, acts),
        forall|i: int| 0 <= i < probes.len() ==> (#[trigger] probes[i]).complete,
    ensures
        acts.len() == 1,
        hands_out(acts[0], generation, files, manual),
        after.incoming is None,
{
    landings_hand_out_every_file(acts[0], generation, files, manual);
}

/// `act` hands each of the files to the clipboard, by its id and under its name.
pub open spec fn hands_out(
    act: HubAction,
    generation: u64,
    files: Seq<FileMeta>,
    manual: bool,
) -> bool {
    act matches HubAction::Land { generation: g, items, manual: m } && {
        &&& g == generation
        &&& m == manual
        &&& items@.len() == files.len()
        &&& forall|i: int|
            0 <= i < files.len() ==> (#[trigger] items@[i]).0 == files[i].id && items@[i].1
                == files[i].name
    }
}

/// Whatever is handed to the clipboard is every file of the batch, by its id and under its
/// name.
pub proof fn landings_hand_out_every_file(
    act: HubAction,
    generation: u64,
    files: Seq<FileMeta>,
    manual: bool,
)
    requires
        is_landing(act, generation, files, manual),
    ensures
        hands_out(act, generation, files, manual),
{
}

/// The size that is held against the limit is that of all files together: of a batch in two
/// parts it is the sum of the parts, and of one file its size.
pub proof fn sizes_add_up(a: Seq<FileMeta>, b: Seq<FileMeta>, f: FileMeta)
    ensures
        total_size(a + b) == total_size(a) + total_size(b),
        total_size(seq![f]) == f.size,
        total_size(a.push(f)) == total_size(a) + f.size,
    decreases b.len(),
{
    assert(seq![f].drop_last() =~= Seq::<FileMeta>::empty());
    assert(total_size(Seq::<FileMeta>::empty()) == 0);
    assert(a.push(f).drop_last() =~= a);
    if b.len() == 0 {
        assert(a + b =~= a);
    } else {
        sizes_add_up(a, b.drop_last(), f);
        assert((a + b).drop_last() =~= a + b.drop_last());
    }
}

/// The tray is told what really waits: whose files they are, how many, how large, and the
/// name of the first; and nothing where nothing waits.
pub proof fn the_tray_is_told_what_waits(act: HubAction, p: PendingFetch)
    ensures
        shows_pending(act, None) <==> act == HubAction::SetPending(None),
        shows_pending(act, Some(p)) ==> (act matches HubAction::SetPending(Some(i)) && {
            &&& i.from == p.from.text
            &&& i.count == p.files@.len()
            &&& i.total == p.total
            &&& p.files@.len() > 0 ==> i.first_name == p.files@[0].name
        }),
{
}

/// A chunk is shown under the name of the file that it belongs to: the first of the batch
/// with its id.
pub proof fn chunks_belong_to_their_file(files: Seq<FileMeta>, id: u64)
    ensures
        file_at(files, id) <= files.len(),
        file_at(files, id) < files.len() ==> files[file_at(files, id) as int].id == id,
        forall|i: int| 0 <= i < file_at(files, id) && i < files.len() ==> (#[trigger] files[i]).id != id,
    decreases files.len(),
{
    if files.len() > 0 && files[0].id != id {
        let t = files.drop_first();
        chunks_belong_to_their_file(t, id);
        assert forall|i: int| 0 <= i < file_at(files, id) && i < files.len() implies (
        #[trigger] files[i]).id != id by {
            if i > 0 {
                assert(t[i - 1].id != id);
            }
        }
    }
}

/// Giving a reception up does what has to be done in any case, and tells the user if and
/// only if they had asked for the files by hand.
pub proof fn only_fetches_by_hand_are_reported(
    manual: bool,
    text: Seq<char>,
    head: Seq<HubAction>,
    acts: Seq<HubAction>,
)
    requires
        gives_up(manual, text, head, acts),
    ensures
        acts.len() >= head.len(),
        forall|i: int| 0 <= i < head.len() ==> #[trigger] acts[i] == head[i],
        manual ==> acts.len() == head.len() + 1 && (acts[head.len() as int] matches HubAction::Notify(
            t,
        ) && t@ == text),
        !manual ==> acts.len() == head.len(),
{
    if manual {
        assert forall|i: int| 0 <= i < head.len() implies #[trigger] acts[i] == head[i] by {
            assert(acts.take(head.len() as int)[i] == head[i]);
        }
    }
}

/// The user is told why a file cannot be had, in the words of the device that was to send it.
pub proof fn reasons_are_passed_on(generation: u64, file_id: u64, reason: String, lang: Lang)
    ensures
        ({
            let msg = SyncMessage::FileUnavailable { generation, file_id, reason };
            let text = refusal_text(msg, lang);
            &&& text.len() >= reason@.len()
            &&& text.skip(text.len() - reason@.len()) == reason@
        }),
{
    let msg = SyncMessage::FileUnavailable { generation, file_id, reason };
    let text = refusal_text(msg, lang);
    assert(text.skip(text.len() - reason@.len()) =~= reason@);
}

} // verus!
