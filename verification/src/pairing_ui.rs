//! Pairing from the tray: who is in the group, and what the windows say.
//!
//! Devices vouch for each other, so that the paired ones form a group. Removing a device
//! therefore concerns the whole group: the others are told before the own traces are
//! wiped, for afterwards there is no connection left to tell them over.

use vstd::prelude::*;
use vstd::string::*;

use crate::addrbook::{with_addrs, AddrBook, AddrSource, Candidate};
use crate::config::{clear_pairings, record_at, remove_pairing};
use crate::known_peers::{bumped, device_at, device_count, has_device, lemma_bumped, lemma_device_at, lemma_next, lemma_without_device, with_peer, without_device, KnownPeers};
use crate::language::Lang;
use crate::pairing_cli::{Cancelled, HostError};
use crate::pairing_session::PairingHostSlot;
use crate::text::{copy_of, decimal, decimal_of, str_eq};
use crate::tray_menu::TrayPeer;
use crate::tray_status::{lists, TrayStatus};
use crate::types::{DeviceId, KnownPeer, PairingRecord};

verus! {

/// What the hub is told.
pub enum HubNote {
    /// Tell all connected devices that this one left the group.
    AnnounceRemoval(DeviceId),
    /// Drop the connection to this device.
    Unpaired(DeviceId),
}

/// What pairing touches while the program runs.
pub struct PairingDeps {
    pub known: KnownPeers,
    pub addrbook: AddrBook,
    pub local_device: DeviceId,
}

/// Who vouched for a device, going by the stored pairings.
pub open spec fn voucher(records: Seq<PairingRecord>, device: Seq<char>) -> Option<String>
    decreases records.len(),
{
    if records.len() == 0 {
        None
    } else if records.last().device@ == device && records.last().introduced_by is Some {
        records.last().introduced_by
    } else {
        voucher(records.drop_last(), device)
    }
}

fn voucher_of(records: &Vec<PairingRecord>, device: &DeviceId) -> (r: Option<String>)
    ensures
        r == voucher(records@, device@),
{
    let mut n: usize = records.len();
    assert(records@.take(n as int) =~= records@);
    while n > 0
        invariant
            n <= records.len(),
            voucher(records@.take(n as int), device@) == voucher(records@, device@),
        decreases n,
    {
        let rec = &records[n - 1];
        proof {
            assert(records@.take(n as int).drop_last() =~= records@.take(n - 1));
            assert(records@.take(n as int).last() == records@[n - 1]);
        }
        if rec.device.is(device) {
            if let Some(by) = &rec.introduced_by {
                return Some(by.clone());
            }
        }
        n -= 1;
    }
    None
}

fn connected_to(status: &TrayStatus, id: &str) -> (r: bool)
    ensures
        r == lists(status.connected@, id@),
{
    let mut i: usize = 0;
    while i < status.connected.len()
        invariant
            i <= status.connected.len(),
            forall|k: int| 0 <= k < i ==> (#[trigger] status.connected@[k])@ != id@,
        decreases status.connected.len() - i,
    {
        if str_eq(status.connected[i].as_str(), id) {
            return true;
        }
        i += 1;
    }
    false
}

/// `row` shows the paired device `p`.
pub open spec fn shows_peer(
    row: TrayPeer,
    p: KnownPeer,
    status: TrayStatus,
    records: Seq<PairingRecord>,
) -> bool {
    &&& row.device@ == p.device@
    &&& row.name == p.name
    &&& row.online == lists(status.connected@, p.device@)
    &&& row.introduced_by == voucher(records, p.device@)
}

/// Where the hub's notes about leaving the group start with the announcement, and then
/// drop every device in turn.
pub open spec fn leaving(notes: Seq<HubNote>, local: DeviceId, peers: Seq<KnownPeer>) -> bool {
    &&& notes.len() == peers.len() + 1
    &&& notes[0] == HubNote::AnnounceRemoval(local)
    &&& forall|i: int|
        0 <= i < peers.len() ==> #[trigger] notes[i + 1] == HubNote::Unpaired(peers[i].device)
}

/// A device that was removed: its name, and what the hub is told, in this order.
pub struct Removal {
    pub name: String,
    pub notes: Vec<HubNote>,
}

impl PairingDeps {
    pub open spec fn wf(&self) -> bool {
        self.addrbook.wf()
    }

    /// Puts a fresh pairing to use at once: the device is recognised, and the addresses
    /// that it gave are where it is looked for first.
    pub fn register(&mut self, record: PairingRecord)
        requires
            old(self).wf(),
        ensures
            final(self).wf(),
            final(self).local_device == old(self).local_device,
            final(self).known@ == with_peer(
                old(self).known@,
                (KnownPeer {
                    device: record.device,
                    name: record.name,
                    static_public_key: record.static_public_key,
                }),
            ),
            final(self).known.spec_version() == old(self).known.spec_version().wrapping_add(1),
            final(self).addrbook.known(record.device@) == with_addrs(
                old(self).addrbook.known(record.device@),
                record.addrs@,
                AddrSource::Pairing,
                old(self).addrbook.spec_local(),
            ),
            forall|d: Seq<char>|
                d != record.device@ ==> #[trigger] final(self).addrbook.known(d)
                    == old(self).addrbook.known(d),
            final(self).addrbook.spec_local() == old(self).addrbook.spec_local(),
    {
        if record.addrs.len() > 0 {
            self.addrbook.add_addrs(&record.device, &record.addrs, AddrSource::Pairing);
        }
        self.known.upsert(
            KnownPeer {
                device: record.device,
                name: record.name,
                static_public_key: record.static_public_key,
            },
        );
    }

    /// The paired devices as the tray shows them: who is connected, and who vouched for
    /// whom.
    pub fn peers_for_tray(&self, status: &TrayStatus, records: &Vec<PairingRecord>) -> (r: Vec<
        TrayPeer,
    >)
        ensures
            r@.len() == self.known@.len(),
            forall|i: int|
                0 <= i < r@.len() ==> shows_peer(
                    #[trigger] r@[i],
                    self.known@[i],
                    *status,
                    records@,
                ),
    {
        let peers = self.known.snapshot();
        let mut out: Vec<TrayPeer> = Vec::new();
        let mut i: usize = 0;
        while i < peers.len()
            invariant
                i <= peers.len(),
                peers@ == self.known@,
                out@.len() == i,
                forall|k: int|
                    0 <= k < i ==> shows_peer(
                        #[trigger] out@[k],
                        self.known@[k],
                        *status,
                        records@,
                    ),
            decreases peers.len() - i,
        {
            let p = &peers[i];
            out.push(
                TrayPeer {
                    online: connected_to(status, p.device.text.as_str()),
                    introduced_by: voucher_of(records, &p.device),
                    device: p.device.text.clone(),
                    name: p.name.clone(),
                },
            );
            i += 1;
        }
        out
    }

    /// Removes a device from the group: from the stored pairings, from the devices that
    /// are recognised, and from the address book. Nothing happens where it was not
    /// paired any more.
    pub fn remove_peer(&mut self, records: &mut Vec<PairingRecord>, device_id: &str) -> (r: Option<
        Removal,
    >)
        requires
            old(self).wf(),
        ensures
            final(self).wf(),
            final(self).local_device == old(self).local_device,
            ({
                let i = record_at(old(records)@, device_id@);
                if i < old(records)@.len() {
                    &&& final(records)@ == old(records)@.remove(i as int)
                    &&& r matches Some(done) && done.name == old(records)@[i as int].name && (
                    forgets(done.notes@, device_id@))
                    &&& final(self).known@ == without_device(old(self).known@, device_id@)
                    &&& final(self).known.spec_version() == if has_device(
                        old(self).known@,
                        device_id@,
                    ) {
                        old(self).known.spec_version().wrapping_add(1)
                    } else {
                        old(self).known.spec_version()
                    }
                    &&& final(self).addrbook.spec_local() == old(self).addrbook.spec_local()
                    &&& final(self).addrbook.known(device_id@) == Seq::<Candidate>::empty()
                    &&& forall|d: Seq<char>|
                        d != device_id@ ==> #[trigger] final(self).addrbook.known(d)
                            == old(self).addrbook.known(d)
                } else {
                    &&& final(records)@ == old(records)@
                    &&& r is None
                    &&& *final(self) == *old(self)
                }
            }),
    {
        let device = DeviceId::new(device_id);
        match remove_pairing(records, &device) {
            None => None,
            Some(name) => {
                let mut notes: Vec<HubNote> = Vec::new();
                notes.push(HubNote::AnnounceRemoval(device.dup()));
                self.forget_locally(&device, &mut notes);
                Some(Removal { name, notes })
            },
        }
    }

    /// Leaves the group: every pairing goes, and the others are told to drop this
    /// device. The result is how many devices there were, and what the hub is told.
    pub fn leave_group(&mut self, records: &mut Vec<PairingRecord>) -> (r: (usize, Vec<HubNote>))
        requires
            old(self).wf(),
        ensures
            final(self).wf(),
            final(self).local_device == old(self).local_device,
            final(records)@ == Seq::<PairingRecord>::empty(),
            final(self).known@ == Seq::<KnownPeer>::empty(),
            final(self).known.spec_version() == bumped(
                old(self).known.spec_version(),
                device_count(old(self).known@),
            ),
            final(self).addrbook.spec_local() == old(self).addrbook.spec_local(),
            forall|d: Seq<char>|
                has_device(old(self).known@, d) ==> #[trigger] final(self).addrbook.known(d)
                    == Seq::<Candidate>::empty(),
            forall|d: Seq<char>|
                !has_device(old(self).known@, d) ==> #[trigger] final(self).addrbook.known(d)
                    == old(self).addrbook.known(d),
            r.0 == old(self).known@.len(),
            leaving(r.1@, old(self).local_device, old(self).known@),
    {
        let devices = self.devices();
        let ghost peers = self.known@;
        let ghost book = self.addrbook;
        let mut notes: Vec<HubNote> = Vec::new();
        notes.push(HubNote::AnnounceRemoval(self.local_device.dup()));
        let mut i: usize = 0;
        proof {
            lemma_bumped(self.known.spec_version(), 0);
        }
        while i < devices.len()
            invariant
                i <= devices.len(),
                self.wf(),
                self.local_device == old(self).local_device,
                peers == old(self).known@,
                book == old(self).addrbook,
                devices@.len() == peers.len(),
                forall|k: int| 0 <= k < devices@.len() ==> #[trigger] devices@[k] == peers[k].device,
                notes@.len() == i + 1,
                notes@[0] == HubNote::AnnounceRemoval(old(self).local_device),
                forall|k: int|
                    0 <= k < i ==> #[trigger] notes@[k + 1] == HubNote::Unpaired(peers[k].device),
                self.known.spec_version() == bumped(
                    old(self).known.spec_version(),
                    device_count(peers.take(i as int)),
                ),
                self.addrbook.spec_local() == old(self).addrbook.spec_local(),
                forall|d: Seq<char>| #[trigger]
                    has_device(self.known@, d) == (has_device(peers, d) && !has_device(
                        peers.take(i as int),
                        d,
                    )),
                forall|d: Seq<char>|
                    #![trigger self.addrbook.known(d)]
                    self.addrbook.known(d) == if has_device(peers.take(i as int), d) {
                        Seq::<Candidate>::empty()
                    } else {
                        book.known(d)
                    },
            decreases devices.len() - i,
        {
            let ghost before = self.known@;
            let ghost gone = devices@[i as int]@;
            self.forget_locally(&devices[i], &mut notes);
            proof {
                lemma_without_device(before, gone);
                let now = peers.take(i + 1);
                let was = peers.take(i as int);
                assert forall|d: Seq<char>| has_device(now, d) == (has_device(was, d) || d
                    == gone) by {
                    lemma_next(peers, i as int, d);
                }
                assert(has_device(peers, gone)) by {
                    assert(peers[i as int].device@ == gone);
                }
                assert forall|d: Seq<char>| #[trigger]
                    has_device(self.known@, d) == (has_device(peers, d) && !has_device(now, d)) by {
                    assert(has_device(before, d) == (has_device(peers, d) && !has_device(was, d)));
                }
                lemma_next(peers, i as int, gone);
                lemma_bumped(old(self).known.spec_version(), device_count(was));
            }
            i += 1;
        }
        proof {
            assert(peers.take(peers.len() as int) =~= peers);
            if self.known@.len() > 0 {
                let d = self.known@[0].device@;
                assert(has_device(self.known@, d));
            }
            assert(self.known@ =~= Seq::<KnownPeer>::empty());
        }
        clear_pairings(records);
        (devices.len(), notes)
    }

    fn devices(&self) -> (r: Vec<DeviceId>)
        ensures
            r@.len() == self.known@.len(),
            forall|k: int| 0 <= k < r@.len() ==> #[trigger] r@[k] == self.known@[k].device,
    {
        let peers = self.known.snapshot();
        let mut out: Vec<DeviceId> = Vec::new();
        let mut i: usize = 0;
        while i < peers.len()
            invariant
                i <= peers.len(),
                peers@ == self.known@,
                out@.len() == i,
                forall|k: int| 0 <= k < i ==> #[trigger] out@[k] == self.known@[k].device,
            decreases peers.len() - i,
        {
            out.push(peers[i].device.dup());
            i += 1;
        }
        out
    }

    /// Wipes a device's traces from what is held while the program runs.
    fn forget_locally(&mut self, device: &DeviceId, notes: &mut Vec<HubNote>)
        requires
            old(self).wf(),
        ensures
            final(self).wf(),
            final(self).local_device == old(self).local_device,
            final(self).known@ == without_device(old(self).known@, device@),
            final(self).known.spec_version() == if has_device(old(self).known@, device@) {
                old(self).known.spec_version().wrapping_add(1)
            } else {
                old(self).known.spec_version()
            },
            final(self).addrbook.spec_local() == old(self).addrbook.spec_local(),
            final(self).addrbook.known(device@) == Seq::<Candidate>::empty(),
            forall|d: Seq<char>|
                d != device@ ==> #[trigger] final(self).addrbook.known(d)
                    == old(self).addrbook.known(d),
            final(notes)@ == old(notes)@.push(HubNote::Unpaired(*device)),
    {
        self.known.remove(device);
        self.addrbook.forget(device);
        notes.push(HubNote::Unpaired(device.dup()));
    }
}

/// The group is told first, and the connection dropped after that.
pub open spec fn forgets(notes: Seq<HubNote>, device: Seq<char>) -> bool {
    &&& notes.len() == 2
    &&& notes[0] matches HubNote::AnnounceRemoval(a) && a@ == device
    &&& notes[1] matches HubNote::Unpaired(b) && b@ == device
}

/// After its removal a device is neither recognised nor looked for, and every other
/// device is as it was.
pub proof fn removed_device_is_forgotten(peers: Seq<KnownPeer>, device: Seq<char>, d: Seq<char>)
    ensures
        !has_device(without_device(peers, device), device),
        d != device ==> has_device(without_device(peers, device), d) == has_device(peers, d),
{
    lemma_without_device(peers, device);
}

/// The name that a removal is asked about: the device's, or its id where it is not
/// known any more.
pub open spec fn name_or_id(peers: Seq<KnownPeer>, id: Seq<char>) -> Seq<char> {
    let i = device_at(peers, id);
    if i < peers.len() {
        peers[i as int].name@
    } else {
        id
    }
}

fn shown_name(known: &KnownPeers, id: &str) -> (r: String)
    ensures
        r@ == name_or_id(known@, id@),
{
    let peers = known.snapshot();
    let mut i: usize = 0;
    proof {
        lemma_device_at(peers@, id@);
    }
    while i < peers.len()
        invariant
            i <= peers.len(),
            peers@ == known@,
            i <= device_at(peers@, id@),
            device_at(peers@, id@) <= peers@.len(),
            device_at(peers@, id@) < peers@.len() ==> peers@[device_at(
                peers@,
                id@,
            ) as int].device@ == id@,
            forall|k: int|
                0 <= k < device_at(peers@, id@) ==> (#[trigger] peers@[k]).device@ != id@,
        decreases peers.len() - i,
    {
        if str_eq(peers[i].device.text.as_str(), id) {
            return peers[i].name.clone();
        }
        i += 1;
    }
    copy_of(id)
}

/// What is asked before a device is removed: it concerns all devices, not just this one.
pub fn ask_remove_peer(known: &KnownPeers, device_id: &str) -> (r: String)
    ensures
        r@ == "确定把「"@ + name_or_id(known@, device_id@)
            + "」移出设备组吗？\n\n组里所有设备都会移除它，它自己也会清空配对。\n想加回来的话，重新配对一次即可。"@,
{
    let mut s = copy_of("确定把「");
    s.append(shown_name(known, device_id).as_str());
    s.append(
        "」移出设备组吗？\n\n组里所有设备都会移除它，它自己也会清空配对。\n想加回来的话，重新配对一次即可。",
    );
    s
}

/// What is said after a removal; nothing where the device was not paired any more.
pub fn removal_message(result: &Result<Option<String>, String>) -> (r: Option<String>)
    ensures
        match result {
            Ok(Some(name)) => r matches Some(m) && m@ == "已把「"@ + name@ + "」移出设备组。"@,
            Ok(None) => r is None,
            Err(e) => r matches Some(m) && m@ == "移出失败："@ + e@,
        },
{
    match result {
        Ok(Some(name)) => {
            let mut s = copy_of("已把「");
            s.append(name.as_str());
            s.append("」移出设备组。");
            Some(s)
        },
        Ok(None) => None,
        Err(e) => {
            let mut s = copy_of("移出失败：");
            s.append(e.as_str());
            Some(s)
        },
    }
}

/// What the user is shown who wants to leave the group.
#[derive(Debug)]
pub enum LeaveQuestion {
    /// There is nothing to leave.
    Alone(String),
    Confirm(String),
}

/// What the user is shown who wants to leave a group of `count` other devices.
pub fn ask_leave_group(count: usize) -> (r: LeaveQuestion)
    ensures
        if count == 0 {
            r matches LeaveQuestion::Alone(m) && m@ == "本机尚未配对任何设备。"@
        } else {
            r matches LeaveQuestion::Confirm(m) && m@
                == "确定退出设备组吗？\n\n本机将清空全部 "@ + decimal(count as nat)
                + " 台配对，其它设备也会移除本机。\n想回来的话，重新配对一次即可。"@
        },
{
    if count == 0 {
        return LeaveQuestion::Alone(copy_of("本机尚未配对任何设备。"));
    }
    let mut s = copy_of("确定退出设备组吗？\n\n本机将清空全部 ");
    s.append(decimal_of(count as u64).as_str());
    s.append(" 台配对，其它设备也会移除本机。\n想回来的话，重新配对一次即可。");
    LeaveQuestion::Confirm(s)
}

/// What is said after the group was left, or could not be.
pub fn leave_message(result: &Result<(), String>) -> (r: String)
    ensures
        match result {
            Ok(_) => r@ == "已退出设备组。"@,
            Err(e) => r@ == "退出失败："@ + e@,
        },
{
    match result {
        Ok(_) => copy_of("已退出设备组。"),
        Err(e) => {
            let mut s = copy_of("退出失败：");
            s.append(e.as_str());
            s
        },
    }
}

/// What "another code" is called, in the menu and in windows alike.
pub fn new_code_label(lang: Lang) -> (r: &'static str)
    ensures
        r@ == match lang {
            Lang::Zh => "换个配对码"@,
            Lang::English => "New code"@,
        },
{
    match lang {
        Lang::Zh => "换个配对码",
        Lang::English => "New code",
    }
}

/// What to do when the user wants to see a code.
#[derive(Debug)]
pub enum CodeRequest {
    /// Host a session.
    Host,
    /// Show the code of the session that runs: this code, for so many milliseconds more.
    ShowAgain(String, u64),
    /// A session is about to start: say so.
    Starting(String),
}

/// What to do when the user wants to see a code at `now`. At most one session runs: a
/// second wish shows the code that is there.
pub fn request_code(slot: &mut PairingHostSlot, now: u64) -> (r: CodeRequest)
    ensures
        if old(slot).active is None {
            &&& r is Host
            &&& final(slot).active matches Some(s) && s.code@.len() == 0 && !s.cancelled
                && s.deadline is None
        } else {
            &&& *final(slot) == *old(slot)
            &&& if old(slot).is_live(now) {
                r matches CodeRequest::ShowAgain(code, left) && code@
                    == old(slot).active->0.code@ && now + left
                    == old(slot).active->0.deadline->0
            } else {
                r matches CodeRequest::Starting(m) && m@
                    == "配对会话正在启动，请稍候再看。"@
            }
        },
{
    if slot.try_acquire() {
        return CodeRequest::Host;
    }
    match slot.live(now) {
        Some(l) => CodeRequest::ShowAgain(l.code, l.remaining),
        None => CodeRequest::Starting(copy_of("配对会话正在启动，请稍候再看。")),
    }
}

/// How a hosting session ended.
#[derive(Debug)]
pub enum HostEnd {
    /// Paired with the device of this name.
    Paired(String),
    Ended(HostError),
    /// Something outside failed.
    Failed(String),
}

/// What follows a hosting session.
#[derive(Debug)]
pub enum AfterHost {
    /// Tell the user of the pairing.
    Tell(String),
    /// Host again, with a new code: that is what the user asked for.
    Again,
    /// Tell the user what went wrong.
    Complain(String),
}

/// What follows a hosting session. Its place is free again, however it ended.
pub fn host_ended(slot: &mut PairingHostSlot, end: HostEnd) -> (r: AfterHost)
    ensures
        final(slot).active is None,
        match end {
            HostEnd::Paired(name) => r matches AfterHost::Tell(m) && m@ == "已与「"@ + name@
                + "」配对，现在可以互相同步了。"@,
            HostEnd::Ended(e) => if e == HostError::Cancelled(Cancelled) {
                r is Again
            } else {
                r matches AfterHost::Complain(m) && m@ == e.text()
            },
            HostEnd::Failed(e) => r == AfterHost::Complain(e),
        },
{
    slot.release();
    match end {
        HostEnd::Paired(name) => {
            let mut s = copy_of("已与「");
            s.append(name.as_str());
            s.append("」配对，现在可以互相同步了。");
            AfterHost::Tell(s)
        },
        HostEnd::Ended(e) => if e == HostError::Cancelled(Cancelled) {
            AfterHost::Again
        } else {
            AfterHost::Complain(e.message())
        },
        HostEnd::Failed(e) => AfterHost::Complain(e),
    }
}

/// Asks for another code. Where the session it was meant for is over, the result says
/// so: a button that does nothing looks broken.
pub fn new_code_requested(slot: &mut PairingHostSlot, only_if: Option<&str>) -> (r: Option<String>)
    ensures
        ({
            let meant = old(slot).has_code() && (only_if matches Some(c) ==> c@
                == old(slot).active->0.code@);
            if meant {
                &&& r is None
                &&& final(slot).active matches Some(s) && s.cancelled && s.code
                    == old(slot).active->0.code && s.deadline == old(slot).active->0.deadline
            } else {
                &&& r matches Some(m) && m@
                    == "这个配对码已经失效了。\n\n请在托盘菜单里重新选「显示配对码…」。"@
                &&& *final(slot) == *old(slot)
            }
        }),
{
    if slot.request_new_code(only_if) {
        return None;
    }
    Some(copy_of("这个配对码已经失效了。\n\n请在托盘菜单里重新选「显示配对码…」。"))
}

/// A device is shown as vouched for by whoever the last stored pairing of it names that
/// names anyone.
pub proof fn the_last_voucher_is_shown(records: Seq<PairingRecord>, device: Seq<char>)
    ensures
        match voucher(records, device) {
            Some(by) => exists|i: int|
                {
                    &&& 0 <= i < records.len()
                    &&& (#[trigger] records[i]).device@ == device
                    &&& records[i].introduced_by == Some(by)
                    &&& forall|j: int|
                        i < j < records.len() && (#[trigger] records[j]).device@ == device
                            ==> records[j].introduced_by is None
                },
            None => forall|j: int|
                0 <= j < records.len() && (#[trigger] records[j]).device@ == device
                    ==> records[j].introduced_by is None,
        },
    decreases records.len(),
{
    if records.len() > 0 {
        let n = records.len() - 1;
        let t = records.drop_last();
        if records[n].device@ == device && records[n].introduced_by is Some {
            assert(records[n].introduced_by == voucher(records, device));
        } else {
            the_last_voucher_is_shown(t, device);
            if let Some(by) = voucher(t, device) {
                let i = choose|i: int|
                    {
                        &&& 0 <= i < t.len()
                        &&& (#[trigger] t[i]).device@ == device
                        &&& t[i].introduced_by == Some(by)
                        &&& forall|j: int|
                            i < j < t.len() && (#[trigger] t[j]).device@ == device
                                ==> t[j].introduced_by is None
                    };
                assert(records[i] == t[i]);
                assert forall|j: int|
                    i < j < records.len() && (#[trigger] records[j]).device@
                        == device implies records[j].introduced_by is None by {
                    if j < n {
                        assert(t[j] == records[j]);
                    }
                }
            } else {
                assert forall|j: int|
                    0 <= j < records.len() && (#[trigger] records[j]).device@
                        == device implies records[j].introduced_by is None by {
                    if j < n {
                        assert(t[j] == records[j]);
                    }
                }
            }
        }
    }
}

/// A row of the tray is online exactly where its device is among the connected ones.
pub proof fn rows_tell_who_is_connected(
    row: TrayPeer,
    p: KnownPeer,
    status: TrayStatus,
    records: Seq<PairingRecord>,
)
    requires
        shows_peer(row, p, status, records),
    ensures
        row.device@ == p.device@ && row.name@ == p.name@,
        row.online <==> exists|i: int|
            0 <= i < status.connected@.len() && (#[trigger] status.connected@[i])@ == p.device@,
{
}

/// Who leaves the group says so first, and only then drops the connections: that of every
/// paired device, and no other.
pub proof fn the_group_is_told_before_it_is_left(
    notes: Seq<HubNote>,
    local: DeviceId,
    peers: Seq<KnownPeer>,
    k: int,
)
    requires
        leaving(notes, local, peers),
        0 <= k < notes.len(),
    ensures
        notes.len() == peers.len() + 1,
        notes[k] is AnnounceRemoval <==> k == 0,
        k == 0 ==> notes[k]->AnnounceRemoval_0 == local,
        k > 0 ==> notes[k] is Unpaired && notes[k]->Unpaired_0 == peers[k - 1].device,
{
    if k > 0 {
        assert(notes[k - 1 + 1] == HubNote::Unpaired(peers[k - 1].device));
    }
}

/// A removal is announced first, and the connection to the device is dropped after that.
pub proof fn a_removal_is_announced_first(notes: Seq<HubNote>, device: Seq<char>)
    requires
        forgets(notes, device),
    ensures
        notes.len() == 2,
        notes[0] is AnnounceRemoval && notes[0]->AnnounceRemoval_0@ == device,
        notes[1] is Unpaired && notes[1]->Unpaired_0@ == device,
{
}

/// A removal is asked about under the name of the first device of that id, and under the
/// id itself where there is none.
pub proof fn a_removal_is_asked_about_by_name(peers: Seq<KnownPeer>, id: Seq<char>, i: int)
    requires
        0 <= i <= peers.len(),
        i < peers.len() ==> peers[i].device@ == id,
        forall|k: int| 0 <= k < i ==> (#[trigger] peers[k]).device@ != id,
    ensures
        i < peers.len() ==> name_or_id(peers, id) == peers[i].name@,
        i == peers.len() ==> name_or_id(peers, id) == id,
{
    lemma_device_at(peers, id);
    let at = device_at(peers, id) as int;
    if at < i {
        assert(peers[at].device@ != id);
    }
    if i < at {
        assert(peers[i].device@ != id);
    }
}

} // verus!
