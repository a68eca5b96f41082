//! Settings and stored pairings.
//!
//! Reading and writing the files is the caller's; here stands what a file's state
//! means. A damaged settings or pairing file never keeps the program from starting:
//! it is moved aside and the defaults apply. A damaged identity does, for replacing
//! it silently would make this a different device to all others.

use vstd::prelude::*;
use vstd::string::*;

pub use crate::size_parse::{parse_byte_size, parse_rate};

use crate::text::copy_of;
use crate::types::{DeviceId, PairingRecord};

verus! {

/// What the user can adjust.
#[derive(Debug)]
pub struct Settings {
    /// Received files up to this many bytes are fetched without asking.
    pub auto_fetch_bytes: usize,
    /// Whether images are synchronised.
    pub allow_image: bool,
    /// Whether files are synchronised.
    pub allow_files: bool,
    /// The TCP port that other devices connect to.
    pub listen_port: u16,
    /// How large the cache of received contents may grow.
    pub file_cache_bytes: u64,
    /// How fast files are sent, in bytes per second; zero is no limit.
    pub upload_limit_bytes_per_sec: u64,
    /// Whether files are compressed when that makes them smaller.
    pub compress_transfers: bool,
    /// Whether the log holds details.
    pub verbose_log: bool,
    /// The language of the interface: `auto`, `zh` or `en`.
    pub language: String,
}

pub const DEFAULT_AUTO_FETCH_BYTES: usize = 104_857_600;

pub const DEFAULT_LISTEN_PORT: u16 = 47_684;

pub const DEFAULT_FILE_CACHE_BYTES: u64 = 1_073_741_824;

/// The settings of a fresh installation.
pub open spec fn are_defaults(s: Settings) -> bool {
    &&& s.auto_fetch_bytes == 100 * 1024 * 1024
    &&& s.allow_image
    &&& s.allow_files
    &&& s.listen_port == 47684
    &&& s.file_cache_bytes == 1024 * 1024 * 1024
    &&& s.upload_limit_bytes_per_sec == 0
    &&& s.compress_transfers
    &&& !s.verbose_log
    &&& s.language@ == "auto"@
}

impl Default for Settings {
    fn default() -> (r: Self)
        ensures
            are_defaults(r),
    {
        Settings {
            auto_fetch_bytes: DEFAULT_AUTO_FETCH_BYTES,
            allow_image: true,
            allow_files: true,
            listen_port: DEFAULT_LISTEN_PORT,
            file_cache_bytes: DEFAULT_FILE_CACHE_BYTES,
            upload_limit_bytes_per_sec: 0,
            compress_transfers: true,
            verbose_log: false,
            language: copy_of("auto"),
        }
    }
}

/// Which kinds of content may be synchronised.
#[derive(Debug, Clone, Copy, PartialEq, Eq, Structural)]
pub struct Limits {
    pub allow_image: bool,
    pub allow_files: bool,
}

impl Settings {
    /// What the settings allow to be synchronised.
    pub fn to_limits(&self) -> (r: Limits)
        ensures
            r == (Limits { allow_image: self.allow_image, allow_files: self.allow_files }),
    {
        Limits { allow_image: self.allow_image, allow_files: self.allow_files }
    }

    /// A copy of the settings.
    pub fn dup(&self) -> (r: Settings)
        ensures
            r == *self,
    {
        Settings {
            auto_fetch_bytes: self.auto_fetch_bytes,
            allow_image: self.allow_image,
            allow_files: self.allow_files,
            listen_port: self.listen_port,
            file_cache_bytes: self.file_cache_bytes,
            upload_limit_bytes_per_sec: self.upload_limit_bytes_per_sec,
            compress_transfers: self.compress_transfers,
            verbose_log: self.verbose_log,
            language: self.language.clone(),
        }
    }
}

/// The settings that a file spells out; what it leaves out is `None`.
///
/// `max_bytes` is the former name of `auto_fetch_bytes`.
#[derive(Debug)]
pub struct StoredSettings {
    pub auto_fetch_bytes: Option<usize>,
    pub max_bytes: Option<usize>,
    pub allow_image: Option<bool>,
    pub allow_files: Option<bool>,
    pub listen_port: Option<u16>,
    pub file_cache_bytes: Option<u64>,
    pub upload_limit_bytes_per_sec: Option<u64>,
    pub compress_transfers: Option<bool>,
    pub verbose_log: Option<bool>,
    pub language: Option<String>,
}

/// `value`, or `default` where nothing was written.
pub open spec fn or_default<T>(value: Option<T>, default: T) -> T {
    match value {
        Some(v) => v,
        None => default,
    }
}

/// `r` is what the file `s` says, and the defaults for the rest.
pub open spec fn fills_in(s: StoredSettings, r: Settings) -> bool {
    &&& r.auto_fetch_bytes == or_default(
        s.auto_fetch_bytes,
        or_default(s.max_bytes, (100 * 1024 * 1024) as usize),
    )
    &&& r.allow_image == or_default(s.allow_image, true)
    &&& r.allow_files == or_default(s.allow_files, true)
    &&& r.listen_port == or_default(s.listen_port, 47684u16)
    &&& r.file_cache_bytes == or_default(s.file_cache_bytes, (1024 * 1024 * 1024) as u64)
    &&& r.upload_limit_bytes_per_sec == or_default(s.upload_limit_bytes_per_sec, 0u64)
    &&& r.compress_transfers == or_default(s.compress_transfers, true)
    &&& r.verbose_log == or_default(s.verbose_log, false)
    &&& match s.language {
        Some(l) => r.language == l,
        None => r.language@ == "auto"@,
    }
}

impl StoredSettings {
    /// The settings in effect: what the file says, and the defaults for the rest.
    pub fn fill_in(self) -> (r: Settings)
        ensures
            fills_in(self, r),
    {
        let d = Settings::default();
        Settings {
            auto_fetch_bytes: match self.auto_fetch_bytes {
                Some(v) => v,
                None => match self.max_bytes {
                    Some(v) => v,
                    None => d.auto_fetch_bytes,
                },
            },
            allow_image: match self.allow_image {
                Some(v) => v,
                None => d.allow_image,
            },
            allow_files: match self.allow_files {
                Some(v) => v,
                None => d.allow_files,
            },
            listen_port: match self.listen_port {
                Some(v) => v,
                None => d.listen_port,
            },
            file_cache_bytes: match self.file_cache_bytes {
                Some(v) => v,
                None => d.file_cache_bytes,
            },
            upload_limit_bytes_per_sec: match self.upload_limit_bytes_per_sec {
                Some(v) => v,
                None => d.upload_limit_bytes_per_sec,
            },
            compress_transfers: match self.compress_transfers {
                Some(v) => v,
                None => d.compress_transfers,
            },
            verbose_log: match self.verbose_log {
                Some(v) => v,
                None => d.verbose_log,
            },
            language: match self.language {
                Some(v) => v,
                None => d.language,
            },
        }
    }
}

/// What was found where a stored file should be.
#[derive(Debug)]
pub enum Stored<T> {
    Missing,
    Damaged,
    Intact(T),
}

/// What a loaded file amounts to, and what to do about the file.
#[derive(Debug)]
pub struct Loaded<T> {
    pub value: T,
    /// The damaged file is moved aside.
    pub quarantine: bool,
    /// The value is written back.
    pub save: bool,
}

/// The settings to start with: the file's, or the defaults where there is none or it
/// is damaged, in which case the defaults are also written.
pub fn load_or_init_settings(found: Stored<StoredSettings>) -> (r: Loaded<Settings>)
    ensures
        match found {
            Stored::Intact(s) => fills_in(s, r.value) && !r.quarantine && !r.save,
            Stored::Missing => are_defaults(r.value) && !r.quarantine && r.save,
            Stored::Damaged => are_defaults(r.value) && r.quarantine && r.save,
        },
{
    match found {
        Stored::Intact(s) => {
            let value = s.fill_in();
            Loaded { value, quarantine: false, save: false }
        },
        Stored::Missing => Loaded { value: Settings::default(), quarantine: false, save: true },
        Stored::Damaged => Loaded { value: Settings::default(), quarantine: true, save: true },
    }
}

/// The pairings to start with; none where there is no file or it is damaged.
pub fn load_pairings(found: Stored<Vec<PairingRecord>>) -> (r: Loaded<Vec<PairingRecord>>)
    ensures
        !r.save,
        r.quarantine == (found is Damaged),
        r.value@ == match found {
            Stored::Intact(list) => list@,
            _ => Seq::<PairingRecord>::empty(),
        },
{
    match found {
        Stored::Intact(value) => Loaded { value, quarantine: false, save: false },
        Stored::Missing => Loaded { value: Vec::new(), quarantine: false, save: false },
        Stored::Damaged => Loaded { value: Vec::new(), quarantine: true, save: false },
    }
}

/// What to do about this device's identity.
#[derive(Debug)]
pub enum IdentityStep<T> {
    /// The stored identity is used.
    Use(T),
    /// There is none yet: one is generated and stored.
    Generate,
    /// The stored one is damaged: the program stops with this message.
    Fail(String),
}

/// How to obtain this device's identity; `path` is where it is stored.
pub fn load_or_init_identity<T>(found: Stored<T>, path: &str) -> (r: IdentityStep<T>)
    ensures
        match found {
            Stored::Intact(id) => r == IdentityStep::Use(id),
            Stored::Missing => r == IdentityStep::<T>::Generate,
            Stored::Damaged => r matches IdentityStep::Fail(m) && m@ == "解析 "@ + path@
                + " 失败。该文件保存着本机的加密身份，损坏后无法自动恢复——若无备份，需要删除它并与所有设备重新配对"@,
        },
{
    match found {
        Stored::Intact(id) => IdentityStep::Use(id),
        Stored::Missing => IdentityStep::Generate,
        Stored::Damaged => {
            let mut m = copy_of("解析 ");
            m.append(path);
            m.append(
                " 失败。该文件保存着本机的加密身份，损坏后无法自动恢复——若无备份，需要删除它并与所有设备重新配对",
            );
            IdentityStep::Fail(m)
        },
    }
}

/// Where a damaged file is moved to.
pub fn quarantine(name: &str) -> (r: String)
    ensures
        r@ == name@ + ".bad"@,
{
    let mut s = copy_of(name);
    s.append(".bad");
    s
}

/// The settings in effect, with a number that tells readers of changes.
pub struct SettingsHandle {
    settings: Settings,
    version: u64,
}

impl SettingsHandle {
    pub closed spec fn view(&self) -> Settings {
        self.settings
    }

    pub closed spec fn spec_version(&self) -> u64 {
        self.version
    }

    /// A handle on `settings`, unchanged so far.
    pub fn new(settings: Settings) -> (r: Self)
        ensures
            r@ == settings,
            r.spec_version() == 0,
    {
        SettingsHandle { settings, version: 0 }
    }

    /// The settings as they are now.
    pub fn snapshot(&self) -> (r: Settings)
        ensures
            r == self@,
    {
        self.settings.dup()
    }

    /// A number that differs after every change.
    pub fn version(&self) -> (r: u64)
        ensures
            r == self.spec_version(),
    {
        self.version
    }

    /// Applies a change. The result is what to store; it is in effect even if storing
    /// fails.
    pub fn update<F: FnOnce(Settings) -> Settings>(&mut self, f: F) -> (r: Settings)
        requires
            f.requires((old(self)@,)),
        ensures
            f.ensures((old(self)@,), final(self)@),
            r == final(self)@,
            final(self).spec_version() == old(self).spec_version().wrapping_add(1),
    {
        let now = self.settings.dup();
        self.settings = f(now);
        self.version = self.version.wrapping_add(1);
        self.settings.dup()
    }
}

impl SettingsHandle {
    /// Replaces the settings. The result is what to store.
    pub fn set(&mut self, settings: Settings) -> (r: Settings)
        ensures
            final(self)@ == settings,
            r == settings,
            final(self).spec_version() == old(self).spec_version().wrapping_add(1),
    {
        self.settings = settings;
        self.version = self.version.wrapping_add(1);
        self.settings.dup()
    }
}

/// Every update is counted, whether it changed a value or not: a fresh handle has version
/// zero, and after `n` updates it has version `n`, the number starting over at its limit. So
/// each update makes the version differ from the one before it.
///
/// `handles` are the states of one handle: the first as it was made, each further one an
/// update later.
pub proof fn every_update_bumps_the_version(handles: Seq<SettingsHandle>)
    requires
        handles.len() > 0,
        handles[0].spec_version() == 0,
        forall|i: int, j: int|
            #![trigger handles[i], handles[j]]
            0 <= i && j == i + 1 && j < handles.len() ==> handles[j].spec_version()
                == handles[i].spec_version().wrapping_add(1),
    ensures
        forall|n: int|
            0 <= n < handles.len() ==> (#[trigger] handles[n]).spec_version() == n % 0x1_0000_0000_0000_0000,
        handles.len() <= 0x1_0000_0000_0000_0000 ==> forall|n: int|
            0 <= n < handles.len() ==> (#[trigger] handles[n]).spec_version() == n,
        forall|i: int, j: int|
            #![trigger handles[i], handles[j]]
            0 <= i && j == i + 1 && j < handles.len() ==> handles[j].spec_version()
                != handles[i].spec_version(),
{
    assert forall|n: int| 0 <= n < handles.len() implies (#[trigger] handles[n]).spec_version()
        == n % 0x1_0000_0000_0000_0000 by {
        lemma_versions(handles, n);
    }
}

proof fn lemma_versions(handles: Seq<SettingsHandle>, n: int)
    requires
        0 <= n < handles.len(),
        handles[0].spec_version() == 0,
        forall|i: int, j: int|
            #![trigger handles[i], handles[j]]
            0 <= i && j == i + 1 && j < handles.len() ==> handles[j].spec_version()
                == handles[i].spec_version().wrapping_add(1),
    ensures
        handles[n].spec_version() == n % 0x1_0000_0000_0000_0000,
    decreases n,
{
    if n > 0 {
        lemma_versions(handles, n - 1);
        assert(handles[n].spec_version() == handles[n - 1].spec_version().wrapping_add(1));
    }
}

/// The first place of a device among stored pairings, or their number.
pub open spec fn record_at(list: Seq<PairingRecord>, device: Seq<char>) -> nat
    decreases list.len(),
{
    if list.len() == 0 || list[0].device@ == device {
        0
    } else {
        1 + record_at(list.drop_first(), device)
    }
}

proof fn lemma_record_at(list: Seq<PairingRecord>, device: Seq<char>, n: int)
    requires
        0 <= n <= list.len(),
        forall|i: int| 0 <= i < n ==> (#[trigger] list[i]).device@ != device,
        n == list.len() || list[n].device@ == device,
    ensures
        record_at(list, device) == n,
    decreases n,
{
    if n > 0 {
        assert(list[0].device@ != device);
        let t = list.drop_first();
        assert forall|i: int| 0 <= i < n - 1 implies (#[trigger] t[i]).device@ != device by {
            assert(list[i + 1].device@ != device);
        }
        lemma_record_at(t, device, n - 1);
    }
}

fn position(list: &Vec<PairingRecord>, device: &DeviceId) -> (r: usize)
    ensures
        r == record_at(list@, device@),
        r <= list@.len(),
{
    let mut i: usize = 0;
    while i < list.len()
        invariant
            i <= list.len(),
            forall|k: int| 0 <= k < i ==> (#[trigger] list@[k]).device@ != device@,
        decreases list.len() - i,
    {
        if list[i].device.is(device) {
            proof {
                lemma_record_at(list@, device@, i as int);
            }
            return i;
        }
        i += 1;
    }
    proof {
        lemma_record_at(list@, device@, i as int);
    }
    i
}

/// Stores a pairing, replacing the one that the device already has.
pub fn upsert_pairing(list: &mut Vec<PairingRecord>, record: PairingRecord)
    ensures
        ({
            let i = record_at(old(list)@, record.device@);
            final(list)@ == if i < old(list)@.len() {
                old(list)@.update(i as int, record)
            } else {
                old(list)@.push(record)
            }
        }),
{
    let i = position(list, &record.device);
    if i < list.len() {
        list.set(i, record);
    } else {
        list.push(record);
    }
}

/// Deletes a device's pairing; the result is the device's name, if it was paired.
pub fn remove_pairing(list: &mut Vec<PairingRecord>, device: &DeviceId) -> (r: Option<String>)
    ensures
        ({
            let i = record_at(old(list)@, device@);
            if i < old(list)@.len() {
                &&& final(list)@ == old(list)@.remove(i as int)
                &&& r == Some(old(list)@[i as int].name)
            } else {
                &&& final(list)@ == old(list)@
                &&& r is None
            }
        }),
{
    let i = position(list, device);
    if i >= list.len() {
        return None;
    }
    let removed = list.remove(i);
    Some(removed.name)
}

/// No device is paired twice.
pub open spec fn paired_once(list: Seq<PairingRecord>) -> bool {
    forall|i: int, j: int|
        0 <= i < j < list.len() ==> (#[trigger] list[i]).device@ != (#[trigger] list[j]).device@
}

proof fn lemma_record_at_first(list: Seq<PairingRecord>, device: Seq<char>)
    ensures
        record_at(list, device) <= list.len(),
        forall|i: int|
            0 <= i < record_at(list, device) ==> (#[trigger] list[i]).device@ != device,
        record_at(list, device) < list.len() ==> list[record_at(list, device) as int].device@
            == device,
    decreases list.len(),
{
    if list.len() > 0 && list[0].device@ != device {
        let t = list.drop_first();
        lemma_record_at_first(t, device);
        assert forall|i: int| 0 <= i < record_at(list, device) implies (
        #[trigger] list[i]).device@ != device by {
            if i > 0 {
                assert(t[i - 1].device@ != device);
            }
        }
    }
}

/// A removed pairing is gone for good, and storing a pairing never makes a second
/// entry for its device.
pub proof fn pairings_stay_single(list: Seq<PairingRecord>, record: PairingRecord)
    requires
        paired_once(list),
    ensures
        ({
            let i = record_at(list, record.device@) as int;
            if i < list.len() {
                &&& paired_once(list.update(i, record))
                &&& paired_once(list.remove(i))
                &&& record_at(list.remove(i), record.device@) == list.len() - 1
            } else {
                paired_once(list.push(record))
            }
        }),
{
    let d = record.device@;
    lemma_record_at_first(list, d);
    let i = record_at(list, d) as int;
    if i < list.len() {
        let u = list.update(i, record);
        assert forall|a: int, b: int| 0 <= a < b < u.len() implies (#[trigger] u[a]).device@ != (
        #[trigger] u[b]).device@ by {
            assert(list[a].device@ != list[b].device@);
        }
        let r = list.remove(i);
        assert forall|a: int, b: int| 0 <= a < b < r.len() implies (#[trigger] r[a]).device@ != (
        #[trigger] r[b]).device@ by {
            let a2 = if a < i {
                a
            } else {
                a + 1
            };
            let b2 = if b < i {
                b
            } else {
                b + 1
            };
            assert(list[a2].device@ != list[b2].device@);
        }
        assert forall|a: int| 0 <= a < r.len() implies (#[trigger] r[a]).device@ != d by {
            if a < i {
                assert(list[a].device@ != d);
            } else {
                assert(list[i].device@ != list[a + 1].device@);
            }
        }
        lemma_record_at(r, d, r.len() as int);
    } else {
        let p = list.push(record);
        assert forall|a: int, b: int| 0 <= a < b < p.len() implies (#[trigger] p[a]).device@ != (
        #[trigger] p[b]).device@ by {
            if b < list.len() {
                assert(list[a].device@ != list[b].device@);
            } else {
                assert(list[a].device@ != d);
            }
        }
    }
}

/// Deletes all pairings.
pub fn clear_pairings(list: &mut Vec<PairingRecord>)
    ensures
        final(list)@ == Seq::<PairingRecord>::empty(),
{
    list.clear();
}

/// What a settings file says is what is in effect, setting by setting; what it leaves out is
/// as in a fresh installation; and a file that says nothing is a fresh installation. The
/// former name of a setting counts only where the present one is not written.
pub proof fn written_settings_are_in_effect(s: StoredSettings, r: Settings, d: Settings)
    requires
        fills_in(s, r),
        are_defaults(d),
    ensures
        s.auto_fetch_bytes is Some ==> r.auto_fetch_bytes == s.auto_fetch_bytes->0,
        s.auto_fetch_bytes is None && s.max_bytes is Some ==> r.auto_fetch_bytes == s.max_bytes->0,
        s.auto_fetch_bytes is None && s.max_bytes is None ==> r.auto_fetch_bytes
            == d.auto_fetch_bytes,
        r.allow_image == if s.allow_image is Some {
            s.allow_image->0
        } else {
            d.allow_image
        },
        r.allow_files == if s.allow_files is Some {
            s.allow_files->0
        } else {
            d.allow_files
        },
        r.listen_port == if s.listen_port is Some {
            s.listen_port->0
        } else {
            d.listen_port
        },
        r.file_cache_bytes == if s.file_cache_bytes is Some {
            s.file_cache_bytes->0
        } else {
            d.file_cache_bytes
        },
        r.upload_limit_bytes_per_sec == if s.upload_limit_bytes_per_sec is Some {
            s.upload_limit_bytes_per_sec->0
        } else {
            d.upload_limit_bytes_per_sec
        },
        r.compress_transfers == if s.compress_transfers is Some {
            s.compress_transfers->0
        } else {
            d.compress_transfers
        },
        r.verbose_log == if s.verbose_log is Some {
            s.verbose_log->0
        } else {
            d.verbose_log
        },
        r.language@ == if s.language is Some {
            s.language->0@
        } else {
            d.language@
        },
{
}

/// A pairing that is stored can be found with all that belongs to it, the pairings of other
/// devices stay as they are, and one that is removed is gone while the others stay.
pub proof fn stored_pairings_are_kept(
    list: Seq<PairingRecord>,
    record: PairingRecord,
    other: PairingRecord,
)
    requires
        paired_once(list),
        other.device@ != record.device@,
    ensures
        ({
            let i = record_at(list, record.device@) as int;
            let after = if i < list.len() {
                list.update(i, record)
            } else {
                list.push(record)
            };
            let rest = if i < list.len() {
                list.remove(i)
            } else {
                list
            };
            &&& after.contains(record)
            &&& after.contains(other) == list.contains(other)
            &&& forall|k: int|
                0 <= k < after.len() ==> ((#[trigger] after[k]).device@ == record.device@
                    ==> after[k] == record)
            &&& rest.contains(other) == list.contains(other)
            &&& forall|k: int| 0 <= k < rest.len() ==> (#[trigger] rest[k]).device@ != record.device@
            &&& i < list.len() <==> exists|k: int|
                0 <= k < list.len() && (#[trigger] list[k]).device@ == record.device@
        }),
{
    let d = record.device@;
    lemma_record_at_first(list, d);
    pairings_stay_single(list, record);
    let i = record_at(list, d) as int;
    let after = if i < list.len() {
        list.update(i, record)
    } else {
        list.push(record)
    };
    let rest = if i < list.len() {
        list.remove(i)
    } else {
        list
    };
    assert(after[i] == record);
    if list.contains(other) {
        let k = choose|k: int| 0 <= k < list.len() && list[k] == other;
        assert(after[k] == other);
        if k < i || i == list.len() {
            assert(rest[k] == other);
        } else {
            assert(rest[k - 1] == other);
        }
    }
    if after.contains(other) {
        let k = choose|k: int| 0 <= k < after.len() && after[k] == other;
        assert(list[k] == other);
    }
    if rest.contains(other) {
        let k = choose|k: int| 0 <= k < rest.len() && rest[k] == other;
        if k < i || i == list.len() {
            assert(list[k] == other);
        } else {
            assert(list[k + 1] == other);
        }
    }
    assert forall|k: int| 0 <= k < rest.len() implies (#[trigger] rest[k]).device@ != d by {
        if k < i {
            assert(list[k].device@ != d);
        } else if i < list.len() {
            assert(list[i].device@ != list[k + 1].device@);
        }
    }
    assert forall|k: int| 0 <= k < after.len() implies ((#[trigger] after[k]).device@ == d
        ==> after[k] == record) by {
        if k < i {
            assert(list[k].device@ != d);
        } else if k > i {
            assert(list[i].device@ != list[k].device@);
        }
    }
}

} // verus!
