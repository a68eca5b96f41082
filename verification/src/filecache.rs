//! The cache of received file contents.
//!
//! Three directories under one root: `parts` holds what is still arriving, `blobs`
//! what arrived completely and passed its check, and `recv` the named files handed to
//! the clipboard. Only checked contents become blobs, so that nothing damaged is
//! ever pasted.
//!
//! Paths are lists of components below; reading and writing the files is the
//! caller's.

use vstd::prelude::*;
use vstd::string::*;

use crate::text::{chars_of, copy_of, decimal, decimal_of, hex, hex_of, lemma_hex_injective, str_eq, string_of};

verus! {

/// Where the cache lies and how large it may grow.
pub struct FileCache {
    root: Vec<String>,
    limit: u64,
}

/// The characters of each component of a path.
pub open spec fn parts(path: Seq<String>) -> Seq<Seq<char>> {
    path.map_values(|s: String| s@)
}

/// `base` followed by one more component.
fn join(base: &Vec<String>, last: String) -> (r: Vec<String>)
    ensures
        r@ == base@.push(last),
{
    let mut r: Vec<String> = Vec::new();
    let mut i: usize = 0;
    while i < base.len()
        invariant
            i <= base.len(),
            r@ == base@.take(i as int),
        decreases base.len() - i,
    {
        r.push(base[i].clone());
        i += 1;
    }
    assert(base@.take(base@.len() as int) =~= base@);
    r.push(last);
    r
}

/// The file name of a content's cached form: its id in hexadecimal, and an ending.
pub open spec fn cache_name(id: u64, ending: Seq<char>) -> Seq<char> {
    hex(id as nat, 16) + ending
}

fn cache_name_of(id: u64, ending: &str) -> (r: String)
    ensures
        r@ == cache_name(id, ending@),
{
    let mut s = hex_of(id, 16);
    s.append(ending);
    s
}

/// How much of a content is already here.
#[derive(Debug, Clone, Copy, PartialEq, Eq, Structural)]
pub struct Held {
    /// The byte from which to continue.
    pub have: u64,
    /// Whether a stale part has to be deleted.
    pub discard_part: bool,
}

/// A chunk that does not continue what is already here.
#[derive(Debug, Clone, Copy, PartialEq, Eq, Structural)]
pub struct OffsetMismatch {
    pub expected: u64,
    pub got: u64,
}

impl OffsetMismatch {
    /// The message for the log.
    pub fn message(&self) -> (r: String)
        ensures
            r@ == "分块偏移不连续（期望 "@ + decimal(self.expected as nat) + "，收到 "@ + decimal(
                self.got as nat,
            ) + "），丢弃"@,
    {
        let mut s = copy_of("分块偏移不连续（期望 ");
        s.append(decimal_of(self.expected).as_str());
        s.append("，收到 ");
        s.append(decimal_of(self.got).as_str());
        s.append("），丢弃");
        s
    }
}

/// What becomes of a part whose last byte has arrived.
#[derive(Debug, Clone, Copy, PartialEq, Eq, Structural)]
pub enum Verdict {
    /// The check passed: the part becomes a blob.
    Promote,
    /// The check failed: the part is deleted and has to be sent again.
    Discard,
}

/// A blob and the named file it is handed out as.
pub struct Landing {
    pub blob: Vec<String>,
    pub dest: Vec<String>,
}

impl FileCache {
    pub closed spec fn spec_root(&self) -> Seq<String> {
        self.root@
    }

    pub closed spec fn spec_limit(&self) -> u64 {
        self.limit
    }

    /// A cache below `base`, of at most `limit` bytes.
    pub fn new(base: &Vec<String>, limit: u64) -> (r: Self)
        ensures
            parts(r.spec_root()) == parts(base@).push("ClipSync"@),
            r.spec_limit() == limit,
    {
        let root = join(base, copy_of("ClipSync"));
        assert(parts(root@) =~= parts(base@).push("ClipSync"@));
        FileCache { root, limit }
    }

    /// The directory of the named files.
    pub fn received_dir(&self) -> (r: Vec<String>)
        ensures
            parts(r@) == parts(self.spec_root()).push("recv"@),
    {
        let r = join(&self.root, copy_of("recv"));
        assert(parts(r@) =~= parts(self.spec_root()).push("recv"@));
        r
    }

    /// Where a content's part lies.
    pub fn part_path(&self, id: u64) -> (r: Vec<String>)
        ensures
            parts(r@) == parts(self.spec_root()).push("parts"@).push(cache_name(id, ".part"@)),
    {
        let dir = join(&self.root, copy_of("parts"));
        let r = join(&dir, cache_name_of(id, ".part"));
        assert(parts(r@) =~= parts(self.spec_root()).push("parts"@).push(cache_name(id, ".part"@)));
        r
    }

    /// Where a content's blob lies.
    pub fn blob_path(&self, id: u64) -> (r: Vec<String>)
        ensures
            parts(r@) == parts(self.spec_root()).push("blobs"@).push(cache_name(id, ".bin"@)),
    {
        let dir = join(&self.root, copy_of("blobs"));
        let r = join(&dir, cache_name_of(id, ".bin"));
        assert(parts(r@) =~= parts(self.spec_root()).push("blobs"@).push(cache_name(id, ".bin"@)));
        r
    }

    /// The directory of the named files of one generation.
    pub fn landing_dir(&self, generation: u64) -> (r: Vec<String>)
        ensures
            parts(r@) == parts(self.spec_root()).push("recv"@).push(hex(generation as nat, 16)),
    {
        let dir = self.received_dir();
        let r = join(&dir, hex_of(generation, 16));
        assert(parts(r@) =~= parts(self.spec_root()).push("recv"@).push(hex(generation as nat, 16)));
        r
    }

    /// Whether a content is here completely, given the length of its blob if there
    /// is one.
    pub fn is_complete(&self, blob_len: Option<u64>, expected_size: u64) -> (r: bool)
        ensures
            r == (blob_len == Some(expected_size)),
    {
        match blob_len {
            Some(n) => n == expected_size,
            None => false,
        }
    }

    /// From which byte a transfer continues, given the lengths of the content's blob
    /// and part.
    ///
    /// A part longer than the announced size is left over from something else and is
    /// deleted.
    pub fn have_bytes(&self, blob_len: Option<u64>, part_len: Option<u64>, expected_size: u64) -> (r:
        Held)
        ensures
            blob_len == Some(expected_size) ==> r == (Held {
                have: expected_size,
                discard_part: false,
            }),
            blob_len != Some(expected_size) ==> r == match part_len {
                None => Held { have: 0, discard_part: false },
                Some(n) => if n > expected_size {
                    Held { have: 0, discard_part: true }
                } else {
                    Held { have: n, discard_part: false }
                },
            },
            r.have <= expected_size,
    {
        if self.is_complete(blob_len, expected_size) {
            return Held { have: expected_size, discard_part: false };
        }
        match part_len {
            None => Held { have: 0, discard_part: false },
            Some(n) => if n > expected_size {
                Held { have: 0, discard_part: true }
            } else {
                Held { have: n, discard_part: false }
            },
        }
    }

    /// Whether `n` bytes at `offset` continue a part of length `part_len`; the
    /// result is the part's new length.
    pub fn append(&self, part_len: Option<u64>, offset: u64, n: u64) -> (r: Result<
        u64,
        OffsetMismatch,
    >)
        requires
            part_len matches Some(c) ==> c + n <= u64::MAX,
        ensures
            ({
                let current = match part_len {
                    Some(c) => c,
                    None => 0,
                };
                r == if continues(current as nat, offset as nat) {
                    Ok((current + n) as u64)
                } else {
                    Err(OffsetMismatch { expected: current, got: offset })
                }
            }),
            r is Ok <==> (part_len == Some(offset) || (part_len is None && offset == 0)),
    {
        let current: u64 = match part_len {
            Some(c) => c,
            None => 0,
        };
        if offset != current {
            return Err(OffsetMismatch { expected: current, got: offset });
        }
        Ok(current + n)
    }

    /// What becomes of a finished part, given its hash and the announced one.
    pub fn finalize(&self, actual_hash: u64, expected_hash: u64) -> (r: Verdict)
        ensures
            r == if actual_hash == expected_hash {
                Verdict::Promote
            } else {
                Verdict::Discard
            },
    {
        if actual_hash == expected_hash {
            Verdict::Promote
        } else {
            Verdict::Discard
        }
    }

    /// Which blob is handed out under which name.
    pub fn materialize(&self, generation: u64, files: &Vec<(u64, String)>) -> (r: Vec<Landing>)
        ensures
            r@.len() == files@.len(),
            forall|i: int|
                #![trigger r@[i]]
                0 <= i < files@.len() ==> {
                    &&& parts(r@[i].blob@) == parts(self.spec_root()).push("blobs"@).push(
                        cache_name(files@[i].0, ".bin"@),
                    )
                    &&& parts(r@[i].dest@) == parts(self.spec_root()).push("recv"@).push(
                        hex(generation as nat, 16),
                    ).push(sanitized(files@[i].1@))
                },
    {
        let dir = self.landing_dir(generation);
        let mut r: Vec<Landing> = Vec::new();
        let mut i: usize = 0;
        while i < files.len()
            invariant
                i <= files.len(),
                r@.len() == i,
                parts(dir@) == parts(self.spec_root()).push("recv"@).push(
                    hex(generation as nat, 16),
                ),
                forall|k: int|
                    #![trigger r@[k]]
                    0 <= k < i ==> {
                        &&& parts(r@[k].blob@) == parts(self.spec_root()).push("blobs"@).push(
                            cache_name(files@[k].0, ".bin"@),
                        )
                        &&& parts(r@[k].dest@) == parts(self.spec_root()).push("recv"@).push(
                            hex(generation as nat, 16),
                        ).push(sanitized(files@[k].1@))
                    },
            decreases files.len() - i,
        {
            let blob = self.blob_path(files[i].0);
            let dest = join(&dir, sanitize_name(files[i].1.as_str()));
            assert(parts(dest@) =~= parts(dir@).push(sanitized(files@[i as int].1@)));
            r.push(Landing { blob, dest });
            i += 1;
        }
        r
    }

    /// Whether a directory of named files belongs to another generation than the one
    /// to keep.
    pub fn cleanup_materialized_except(&self, keep_generation: Option<u64>, name: &str) -> (r: bool)
        ensures
            r == match keep_generation {
                Some(g) => name@ != hex(g as nat, 16),
                None => true,
            },
    {
        match keep_generation {
            Some(g) => {
                let keep = hex_of(g, 16);
                !str_eq(name, keep.as_str())
            },
            None => true,
        }
    }
}

/// Ids have different cache names.
pub proof fn cache_names_tell_ids_apart(a: u64, b: u64, ending: Seq<char>)
    requires
        a != b,
    ensures
        cache_name(a, ending) != cache_name(b, ending),
        hex(a as nat, 16) != hex(b as nat, 16),
{
    if hex(a as nat, 16) == hex(b as nat, 16) {
        lemma_hex_injective(a as nat, b as nat, 16);
        reveal(vstd::arithmetic::power::pow);
        reveal_with_fuel(vstd::arithmetic::power::pow, 17);
        assert(vstd::arithmetic::power::pow(16, 16) == 0x1_0000_0000_0000_0000);
        vstd::arithmetic::div_mod::lemma_small_mod(a as nat, 0x1_0000_0000_0000_0000);
        vstd::arithmetic::div_mod::lemma_small_mod(b as nat, 0x1_0000_0000_0000_0000);
    }
    if cache_name(a, ending) == cache_name(b, ending) {
        lemma_hex_len(a as nat, 16);
        lemma_hex_len(b as nat, 16);
        assert(cache_name(a, ending).take(16) =~= hex(a as nat, 16));
        assert(cache_name(b, ending).take(16) =~= hex(b as nat, 16));
    }
}

proof fn lemma_hex_len(n: nat, width: nat)
    ensures
        hex(n, width).len() == width,
    decreases width,
{
    if width > 0 {
        lemma_hex_len(n / 16, (width - 1) as nat);
    }
}

/// A cached file: its name without the ending, its size, and when it was last used.
pub struct CacheEntry {
    pub stem: String,
    pub size: u64,
    pub accessed: u64,
}

/// Whether an entry belongs to a content in use.
pub open spec fn is_pinned(e: CacheEntry, pinned: Seq<u64>) -> bool {
    exists|j: int| 0 <= j < pinned.len() && e.stem@ == hex(#[trigger] pinned[j] as nat, 16)
}

/// Whether entry `i` is evicted before entry `j`: the one unused for longer, the one
/// listed first where both were used at the same time.
pub open spec fn evicted_before(entries: Seq<CacheEntry>, i: int, j: int) -> bool {
    entries[i].accessed < entries[j].accessed || (entries[i].accessed == entries[j].accessed && i
        < j)
}

/// `q` lists the first `n` entries that are not in use, in the order of eviction.
pub open spec fn is_queue(
    q: Seq<usize>,
    entries: Seq<CacheEntry>,
    pinned: Seq<u64>,
    n: int,
) -> bool {
    &&& forall|k: int|
        0 <= k < q.len() ==> (#[trigger] q[k]) < n && !is_pinned(entries[q[k] as int], pinned)
    &&& forall|a: int, b: int|
        0 <= a < b < q.len() ==> evicted_before(
            entries,
            (#[trigger] q[a]) as int,
            (#[trigger] q[b]) as int,
        )
    &&& forall|i: int|
        0 <= i < n && !is_pinned(#[trigger] entries[i], pinned) ==> q.contains(i as usize)
}

/// The bytes in the first `n` entries.
pub open spec fn bytes_in(entries: Seq<CacheEntry>, n: int) -> nat
    decreases n,
{
    if n <= 0 {
        0
    } else {
        bytes_in(entries, n - 1) + entries[n - 1].size as nat
    }
}

/// The bytes in those of the first `n` entries that are in use.
pub open spec fn pinned_bytes(entries: Seq<CacheEntry>, pinned: Seq<u64>, n: int) -> nat
    decreases n,
{
    if n <= 0 {
        0
    } else {
        pinned_bytes(entries, pinned, n - 1) + if is_pinned(entries[n - 1], pinned) {
            entries[n - 1].size as nat
        } else {
            0
        }
    }
}

/// The bytes in the listed entries.
pub open spec fn listed_bytes(entries: Seq<CacheEntry>, q: Seq<usize>) -> nat
    decreases q.len(),
{
    if q.len() == 0 {
        0
    } else {
        listed_bytes(entries, q.drop_last()) + entries[q.last() as int].size as nat
    }
}

/// An eviction under way: what may be deleted, in which order, and how much the
/// cache still holds.
pub struct Eviction {
    pub queue: Vec<usize>,
    pub at: usize,
    pub total: u64,
    pub limit: u64,
}

impl Eviction {
    /// The next entry to delete, while the cache is over its limit.
    pub fn next_victim(&mut self) -> (r: Option<usize>)
        requires
            old(self).at <= old(self).queue@.len(),
        ensures
            final(self).at <= final(self).queue@.len(),
            final(self).queue == old(self).queue,
            final(self).total == old(self).total,
            final(self).limit == old(self).limit,
            if old(self).total > old(self).limit && old(self).at < old(self).queue@.len() {
                &&& r == Some(old(self).queue@[old(self).at as int])
                &&& final(self).at == old(self).at + 1
            } else {
                &&& r is None
                &&& final(self).at == old(self).at
            },
    {
        if self.total <= self.limit || self.at >= self.queue.len() {
            return None;
        }
        let i = self.queue[self.at];
        self.at = self.at + 1;
        Some(i)
    }

    /// An entry of `size` bytes was deleted.
    pub fn removed(&mut self, size: u64)
        ensures
            final(self).queue == old(self).queue,
            final(self).at == old(self).at,
            final(self).limit == old(self).limit,
            final(self).total == if old(self).total >= size {
                old(self).total - size
            } else {
                0
            },
    {
        self.total = self.total.saturating_sub(size);
    }
}

fn pinned_entry(e: &CacheEntry, pinned: &Vec<u64>) -> (r: bool)
    ensures
        r == is_pinned(*e, pinned@),
{
    let mut j: usize = 0;
    while j < pinned.len()
        invariant
            j <= pinned.len(),
            forall|k: int| 0 <= k < j ==> e.stem@ != hex(#[trigger] pinned@[k] as nat, 16),
        decreases pinned.len() - j,
    {
        let name = hex_of(pinned[j], 16);
        if str_eq(e.stem.as_str(), name.as_str()) {
            assert(e.stem@ == hex(pinned@[j as int] as nat, 16));
            return true;
        }
        j += 1;
    }
    false
}

impl FileCache {
    /// Which entries to delete, in which order, to bring the cache back to its limit.
    ///
    /// Entries in use are never listed. The longest unused come first.
    pub fn evict_to_limit(&self, entries: &Vec<CacheEntry>, pinned: &Vec<u64>) -> (r: Eviction)
        requires
            bytes_in(entries@, entries@.len() as int) <= u64::MAX,
        ensures
            is_queue(r.queue@, entries@, pinned@, entries@.len() as int),
            r.at == 0,
            r.total == bytes_in(entries@, entries@.len() as int),
            r.limit == self.spec_limit(),
    {
        let mut queue: Vec<usize> = Vec::new();
        let mut total: u64 = 0;
        let mut i: usize = 0;
        while i < entries.len()
            invariant
                i <= entries.len(),
                bytes_in(entries@, entries@.len() as int) <= u64::MAX,
                total == bytes_in(entries@, i as int),
                is_queue(queue@, entries@, pinned@, i as int),
            decreases entries.len() - i,
        {
            proof {
                lemma_bytes_monotone(entries@, i + 1, entries@.len() as int);
            }
            total = total + entries[i].size;
            if !pinned_entry(&entries[i], pinned) {
                let mut p: usize = queue.len();
                while p > 0 && entries[queue[p - 1]].accessed > entries[i].accessed
                    invariant
                        p <= queue.len(),
                        i < entries.len(),
                        is_queue(queue@, entries@, pinned@, i as int),
                        forall|k: int|
                            p <= k < queue@.len() ==> entries@[(#[trigger] queue@[k]) as int].accessed
                                > entries@[i as int].accessed,
                    decreases p,
                {
                    p -= 1;
                }
                let ghost before = queue@;
                queue.insert(p, i);
                proof {
                    lemma_queue_insert(before, entries@, pinned@, i as int, p as int);
                }
            }
            i += 1;
        }
        Eviction { queue, at: 0, total, limit: self.limit }
    }
}

proof fn lemma_bytes_monotone(entries: Seq<CacheEntry>, a: int, b: int)
    requires
        a <= b,
    ensures
        bytes_in(entries, a) <= bytes_in(entries, b),
    decreases b - a,
{
    if a < b {
        lemma_bytes_monotone(entries, a, b - 1);
    }
}

proof fn lemma_queue_insert(
    q: Seq<usize>,
    entries: Seq<CacheEntry>,
    pinned: Seq<u64>,
    i: int,
    p: int,
)
    requires
        0 <= i < entries.len(),
        i <= usize::MAX,
        0 <= p <= q.len(),
        is_queue(q, entries, pinned, i),
        !is_pinned(entries[i], pinned),
        p == 0 || entries[q[p - 1] as int].accessed <= entries[i].accessed,
        forall|k: int|
            p <= k < q.len() ==> entries[(#[trigger] q[k]) as int].accessed > entries[i].accessed,
    ensures
        is_queue(q.insert(p, i as usize), entries, pinned, i + 1),
{
    let r = q.insert(p, i as usize);
    assert forall|k: int| 0 <= k < r.len() implies (#[trigger] r[k]) < i + 1 && !is_pinned(
        entries[r[k] as int],
        pinned,
    ) by {
        if k < p {
            assert(r[k] == q[k]);
        } else if k > p {
            assert(r[k] == q[k - 1]);
        }
    }
    assert forall|a: int, b: int| 0 <= a < b < r.len() implies evicted_before(
        entries,
        (#[trigger] r[a]) as int,
        (#[trigger] r[b]) as int,
    ) by {
        if b < p {
            assert(r[a] == q[a] && r[b] == q[b]);
        } else if b == p {
            assert(r[a] == q[a]);
            if a < p - 1 {
                assert(evicted_before(entries, q[a] as int, q[p - 1] as int));
            }
        } else if a < p {
            assert(r[a] == q[a] && r[b] == q[b - 1]);
        } else if a == p {
            assert(r[b] == q[b - 1]);
        } else {
            assert(r[a] == q[a - 1] && r[b] == q[b - 1]);
        }
    }
    assert forall|j: int| 0 <= j < i + 1 && !is_pinned(#[trigger] entries[j], pinned) implies r.contains(
        j as usize,
    ) by {
        if j == i {
            assert(r[p] == i as usize);
        } else {
            let k = choose|k: int| 0 <= k < q.len() && q[k] == j as usize;
            assert(q.contains(j as usize));
            if k < p {
                assert(r[k] == q[k]);
            } else {
                assert(r[k + 1] == q[k]);
            }
        }
    }
}

proof fn lemma_listed_remove(entries: Seq<CacheEntry>, q: Seq<usize>, p: int)
    requires
        0 <= p < q.len(),
    ensures
        listed_bytes(entries, q) == listed_bytes(entries, q.remove(p)) + entries[q[p] as int].size,
    decreases q.len(),
{
    if p == q.len() - 1 {
        assert(q.remove(p) =~= q.drop_last());
    } else {
        lemma_listed_remove(entries, q.drop_last(), p);
        assert(q.remove(p).drop_last() =~= q.drop_last().remove(p));
        assert(q.remove(p).last() == q.last());
    }
}

proof fn lemma_queue_bytes(
    q: Seq<usize>,
    entries: Seq<CacheEntry>,
    pinned: Seq<u64>,
    n: int,
)
    requires
        0 <= n <= entries.len(),
        n <= usize::MAX,
        is_queue(q, entries, pinned, n),
    ensures
        listed_bytes(entries, q) + pinned_bytes(entries, pinned, n) == bytes_in(entries, n),
    decreases n,
{
    if n == 0 {
        if q.len() > 0 {
            assert(q[0] < 0);
        }
    } else {
        let i = n - 1;
        if is_pinned(entries[i], pinned) {
            assert forall|k: int| 0 <= k < q.len() implies (#[trigger] q[k]) < i && !is_pinned(
                entries[q[k] as int],
                pinned,
            ) by {
                assert(q[k] < n);
            }
            lemma_queue_bytes(q, entries, pinned, i);
        } else {
            assert(q.contains(i as usize));
            let p = choose|k: int| 0 <= k < q.len() && q[k] == i as usize;
            let r = q.remove(p);
            assert forall|k: int| 0 <= k < r.len() implies (#[trigger] r[k]) < i && !is_pinned(
                entries[r[k] as int],
                pinned,
            ) by {
                if k < p {
                    assert(r[k] == q[k]);
                    assert(evicted_before(entries, q[k] as int, q[p] as int));
                } else {
                    assert(r[k] == q[k + 1]);
                    assert(evicted_before(entries, q[p] as int, q[k + 1] as int));
                }
            }
            assert forall|a: int, b: int| 0 <= a < b < r.len() implies evicted_before(
                entries,
                (#[trigger] r[a]) as int,
                (#[trigger] r[b]) as int,
            ) by {
                let a2 = if a < p {
                    a
                } else {
                    a + 1
                };
                let b2 = if b < p {
                    b
                } else {
                    b + 1
                };
                assert(r[a] == q[a2] && r[b] == q[b2]);
            }
            assert forall|j: int| 0 <= j < i && !is_pinned(#[trigger] entries[j], pinned) implies r.contains(
                j as usize,
            ) by {
                assert(q.contains(j as usize));
                let k = choose|k: int| 0 <= k < q.len() && q[k] == j as usize;
                if k < p {
                    assert(r[k] == q[k]);
                } else {
                    assert(r[k - 1] == q[k]);
                }
            }
            lemma_queue_bytes(r, entries, pinned, i);
            lemma_listed_remove(entries, q, p);
        }
    }
}

/// Deleting everything an eviction lists leaves exactly the contents in use; where
/// those fit, the cache is back within its limit.
pub proof fn eviction_leaves_only_what_is_in_use(
    q: Seq<usize>,
    entries: Seq<CacheEntry>,
    pinned: Seq<u64>,
    limit: nat,
)
    requires
        entries.len() <= usize::MAX,
        is_queue(q, entries, pinned, entries.len() as int),
    ensures
        bytes_in(entries, entries.len() as int) - listed_bytes(entries, q) == pinned_bytes(
            entries,
            pinned,
            entries.len() as int,
        ),
        pinned_bytes(entries, pinned, entries.len() as int) <= limit ==> bytes_in(
            entries,
            entries.len() as int,
        ) - listed_bytes(entries, q) <= limit,
{
    lemma_queue_bytes(q, entries, pinned, entries.len() as int);
}

/// Whether bytes at `offset` continue a part of this length: they start where it ends.
pub open spec fn continues(part_len: nat, offset: nat) -> bool {
    offset == part_len
}

/// A transfer as the receiver sees it: pieces that each continue the part where it
/// ends.
pub open spec fn appended(part: Seq<u8>, pieces: Seq<(nat, Seq<u8>)>) -> Option<Seq<u8>>
    decreases pieces.len(),
{
    if pieces.len() == 0 {
        Some(part)
    } else if !continues(part.len(), pieces[0].0) {
        None
    } else {
        appended(part + pieces[0].1, pieces.drop_first())
    }
}

/// The pieces that a sender cuts `file` into from `offset` on: each starts where the
/// one before ended.
pub open spec fn are_pieces_of(file: Seq<u8>, offset: nat, pieces: Seq<(nat, Seq<u8>)>) -> bool
    decreases pieces.len(),
{
    if pieces.len() == 0 {
        offset == file.len()
    } else {
        &&& pieces[0].0 == offset
        &&& offset + pieces[0].1.len() <= file.len()
        &&& pieces[0].1 == file.subrange(offset as int, (offset + pieces[0].1.len()) as int)
        &&& are_pieces_of(file, offset + pieces[0].1.len(), pieces.drop_first())
    }
}

/// Resuming is lossless: a part that holds the first `have` bytes of a file, continued
/// from there with the pieces of the file, becomes the whole file.
pub proof fn resumed_transfer_restores_the_file(
    file: Seq<u8>,
    have: nat,
    pieces: Seq<(nat, Seq<u8>)>,
)
    requires
        have <= file.len(),
        are_pieces_of(file, have, pieces),
    ensures
        appended(file.take(have as int), pieces) == Some(file),
    decreases pieces.len(),
{
    if pieces.len() == 0 {
        assert(file.take(have as int) =~= file);
    } else {
        let n = pieces[0].1.len();
        assert(file.take(have as int) + pieces[0].1 =~= file.take((have + n) as int));
        resumed_transfer_restores_the_file(file, have + n, pieces.drop_first());
    }
}

/// The characters that separate the components of a path.
pub open spec fn is_separator(c: char) -> bool {
    c == '/' || c == '\\'
}

/// The characters that file names must not hold.
pub open spec fn is_illegal(c: char) -> bool {
    c == '<' || c == '>' || c == ':' || c == '"' || c == '|' || c == '?' || c == '*'
}

/// What stands behind the last separator.
pub open spec fn last_component(s: Seq<char>) -> Seq<char>
    decreases s.len(),
{
    if s.len() == 0 || is_separator(s.last()) {
        Seq::empty()
    } else {
        last_component(s.drop_last()).push(s.last())
    }
}

/// `s` without the dots at its start.
pub open spec fn without_leading_dots(s: Seq<char>) -> Seq<char>
    decreases s.len(),
{
    if s.len() > 0 && s[0] == '.' {
        without_leading_dots(s.drop_first())
    } else {
        s
    }
}

/// `s` without the dots at its end.
pub open spec fn without_trailing_dots(s: Seq<char>) -> Seq<char>
    decreases s.len(),
{
    if s.len() > 0 && s.last() == '.' {
        without_trailing_dots(s.drop_last())
    } else {
        s
    }
}

/// The name under which a received file is stored: the announced name's last
/// component, without dots at its ends and with illegal characters replaced.
pub open spec fn sanitized(name: Seq<char>) -> Seq<char> {
    let base = without_trailing_dots(without_leading_dots(last_component(name)));
    if base.len() == 0 {
        "unnamed"@
    } else {
        base.map_values(
            |c: char|
                if is_illegal(c) {
                    '_'
                } else {
                    c
                },
        )
    }
}

proof fn lemma_last_component(s: Seq<char>, i: int)
    requires
        0 <= i <= s.len(),
        forall|k: int| i <= k < s.len() ==> !is_separator(#[trigger] s[k]),
        i == 0 || is_separator(s[i - 1]),
    ensures
        last_component(s) == s.skip(i),
    decreases s.len(),
{
    if i == s.len() {
        assert(s.skip(i) =~= Seq::<char>::empty());
    } else {
        assert(!is_separator(s[s.len() - 1]));
        let t = s.drop_last();
        assert forall|k: int| i <= k < t.len() implies !is_separator(#[trigger] t[k]) by {
            assert(!is_separator(s[k]));
        }
        lemma_last_component(t, i);
        assert(t.skip(i).push(s.last()) =~= s.skip(i));
    }
}

/// The name under which a received file is stored.
pub fn sanitize_name(name: &str) -> (r: String)
    ensures
        r@ == sanitized(name@),
{
    let cs = chars_of(name);
    let mut i: usize = cs.len();
    while i > 0 && cs[i - 1] != '/' && cs[i - 1] != '\\'
        invariant
            i <= cs.len(),
            forall|k: int| i <= k < cs.len() ==> !is_separator(#[trigger] cs@[k]),
        decreases i,
    {
        i -= 1;
    }
    let ghost base = cs@.skip(i as int);
    proof {
        lemma_last_component(cs@, i as int);
    }
    let mut a: usize = i;
    assert(cs@.skip(a as int) == base);
    while a < cs.len() && cs[a] == '.'
        invariant
            i <= a <= cs.len(),
            without_leading_dots(cs@.skip(a as int)) == without_leading_dots(base),
        decreases cs.len() - a,
    {
        assert(cs@.skip(a as int).drop_first() =~= cs@.skip(a + 1));
        a += 1;
    }
    let ghost lead = cs@.skip(a as int);
    let mut b: usize = cs.len();
    assert(lead.take(lead.len() as int) =~= lead);
    while b > a && cs[b - 1] == '.'
        invariant
            a <= b <= cs.len(),
            lead == cs@.skip(a as int),
            without_trailing_dots(lead.take(b - a)) == without_trailing_dots(lead),
        decreases b,
    {
        assert(lead.take(b - a).last() == cs@[b - 1]);
        assert(lead.take(b - a).drop_last() =~= lead.take(b - a - 1));
        b -= 1;
    }
    let ghost core = lead.take(b - a);
    assert(core == without_trailing_dots(lead)) by {
        if b > a {
            assert(core.last() == cs@[b - 1]);
        }
    }
    if a == b {
        return copy_of("unnamed");
    }
    let ghost fix = |c: char|
        if is_illegal(c) {
            '_'
        } else {
            c
        };
    let mut r: Vec<char> = Vec::new();
    let mut k: usize = a;
    while k < b
        invariant
            a <= k <= b <= cs.len(),
            core == cs@.subrange(a as int, b as int),
            fix == (|c: char|
                if is_illegal(c) {
                    '_'
                } else {
                    c
                }),
            r@ == core.take(k - a).map_values(fix),
        decreases b - k,
    {
        let c = cs[k];
        let d = if c == '<' || c == '>' || c == ':' || c == '"' || c == '|' || c == '?' || c == '*' {
            '_'
        } else {
            c
        };
        r.push(d);
        k += 1;
        assert(core[k - a - 1] == c);
        assert(r@ =~= core.take(k - a).map_values(fix));
    }
    assert(core.take(core.len() as int) =~= core);
    string_of(&r)
}

proof fn lemma_last_component_clean(s: Seq<char>)
    ensures
        forall|i: int|
            0 <= i < last_component(s).len() ==> !is_separator(#[trigger] last_component(s)[i]),
    decreases s.len(),
{
    if s.len() > 0 && !is_separator(s.last()) {
        lemma_last_component_clean(s.drop_last());
        let t = last_component(s.drop_last());
        assert forall|i: int| 0 <= i < last_component(s).len() implies !is_separator(
            #[trigger] last_component(s)[i],
        ) by {
            if i < t.len() {
                assert(!is_separator(t[i]));
            }
        }
    }
}

proof fn lemma_dots_clean(s: Seq<char>)
    requires
        forall|i: int| 0 <= i < s.len() ==> !is_separator(#[trigger] s[i]),
    ensures
        forall|i: int|
            0 <= i < without_leading_dots(s).len() ==> !is_separator(
                #[trigger] without_leading_dots(s)[i],
            ),
        forall|i: int|
            0 <= i < without_trailing_dots(s).len() ==> !is_separator(
                #[trigger] without_trailing_dots(s)[i],
            ),
        without_leading_dots(s).len() > 0 ==> without_leading_dots(s)[0] != '.',
        without_trailing_dots(s).len() > 0 ==> without_trailing_dots(s).last() != '.',
        without_trailing_dots(s).len() > 0 && s[0] != '.' ==> without_trailing_dots(s)[0] != '.',
    decreases s.len(),
{
    if s.len() > 0 {
        assert forall|i: int| 0 <= i < s.drop_first().len() implies !is_separator(
            #[trigger] s.drop_first()[i],
        ) by {
            assert(!is_separator(s[i + 1]));
        }
        lemma_dots_clean(s.drop_first());
        assert forall|i: int| 0 <= i < s.drop_last().len() implies !is_separator(
            #[trigger] s.drop_last()[i],
        ) by {
            assert(!is_separator(s[i]));
        }
        lemma_dots_clean(s.drop_last());
    }
}

/// No announced name leads out of the directory it is stored in: what remains of it
/// is one non-empty component, never `.` or `..`, free of separators and of the
/// characters that file systems refuse.
pub proof fn stored_names_stay_inside(name: Seq<char>)
    ensures
        sanitized(name).len() > 0,
        forall|i: int|
            0 <= i < sanitized(name).len() ==> !is_separator(#[trigger] sanitized(name)[i])
                && !is_illegal(sanitized(name)[i]),
        forall|i: int|
            #![trigger sanitized(name)[i]]
            0 <= i < sanitized(name).len() ==> {
                let c = sanitized(name)[i];
                &&& c != '/' && c != '\\'
                &&& c != '<' && c != '>' && c != ':' && c != '"' && c != '|' && c != '?' && c != '*'
            },
        sanitized(name)[0] != '.',
        sanitized(name).last() != '.',
{
    reveal_strlit("unnamed");
    let l = last_component(name);
    lemma_last_component_clean(name);
    lemma_dots_clean(l);
    let a = without_leading_dots(l);
    lemma_dots_clean(a);
    let base = without_trailing_dots(a);
    if base.len() > 0 {
        let s = sanitized(name);
        assert forall|i: int| 0 <= i < s.len() implies !is_separator(#[trigger] s[i]) && !is_illegal(
            s[i],
        ) by {
            assert(!is_separator(base[i]));
        }
        assert(a.len() > 0) by {
            if a.len() == 0 {
                assert(base =~= a);
            }
        }
    }
}

/// A name that can be stored as it is keeps every character, and of a path only its last
/// component counts, whichever separator stands before it.
pub proof fn harmless_names_are_kept(dir: Seq<char>, name: Seq<char>)
    requires
        name.len() > 0,
        forall|i: int|
            #![trigger name[i]]
            0 <= i < name.len() ==> {
                let c = name[i];
                &&& c != '/' && c != '\\'
                &&& c != '<' && c != '>' && c != ':' && c != '"' && c != '|' && c != '?' && c != '*'
            },
        name[0] != '.',
        name.last() != '.',
    ensures
        sanitized(name) == name,
        sanitized(dir + seq!['/'] + name) == name,
        sanitized(dir + seq!['\\'] + name) == name,
{
    lemma_last_component(name, 0);
    assert(name.skip(0) =~= name);
    let fix = |c: char|
        if is_illegal(c) {
            '_'
        } else {
            c
        };
    assert(name.map_values(fix) =~= name);
    let a = dir + seq!['/'] + name;
    let b = dir + seq!['\\'] + name;
    let n: int = dir.len() as int + 1;
    assert forall|k: int| n <= k < a.len() implies !is_separator(#[trigger] a[k]) by {
        assert(a[k] == name[k - n]);
    }
    assert forall|k: int| n <= k < b.len() implies !is_separator(#[trigger] b[k]) by {
        assert(b[k] == name[k - n]);
    }
    lemma_last_component(a, n);
    lemma_last_component(b, n);
    assert(a.skip(n) =~= name);
    assert(b.skip(n) =~= name);
}

/// Eviction goes by last use: what was used longest ago goes first, everything that is not
/// in use can go, and nothing that is in use ever does.
pub proof fn the_longest_unused_go_first(
    q: Seq<usize>,
    entries: Seq<CacheEntry>,
    pinned: Seq<u64>,
    i: usize,
)
    requires
        i < entries.len(),
        is_queue(q, entries, pinned, entries.len() as int),
    ensures
        forall|a: int, b: int|
            0 <= a < b < q.len() ==> entries[(#[trigger] q[a]) as int].accessed <= entries[(
            #[trigger] q[b]) as int].accessed,
        forall|a: int, b: int| 0 <= a < b < q.len() ==> #[trigger] q[a] != #[trigger] q[b],
        forall|k: int, j: int|
            0 <= k < q.len() && 0 <= j < pinned.len() ==> entries[(
            #[trigger] q[k]) as int].stem@ != hex(#[trigger] pinned[j] as nat, 16),
        q.contains(i) || exists|j: int|
            0 <= j < pinned.len() && entries[i as int].stem@ == hex(#[trigger] pinned[j] as nat, 16),
{
    assert forall|a: int, b: int| 0 <= a < b < q.len() implies entries[(
    #[trigger] q[a]) as int].accessed <= entries[(#[trigger] q[b]) as int].accessed && q[a]
        != q[b] by {
        assert(evicted_before(entries, q[a] as int, q[b] as int));
    }
    assert forall|k: int, j: int| 0 <= k < q.len() && 0 <= j < pinned.len() implies entries[(
    #[trigger] q[k]) as int].stem@ != hex(#[trigger] pinned[j] as nat, 16) by {
        assert(!is_pinned(entries[q[k] as int], pinned));
    }
    if !q.contains(i) {
        assert(is_pinned(entries[i as int], pinned));
    }
}

/// A piece that does not start where the part ends is never taken, so that no gap and no
/// overlap gets into a file; one that does is appended whole.
pub proof fn only_continuations_are_taken(part: Seq<u8>, at: nat, piece: Seq<u8>)
    ensures
        continues(part.len(), at) <==> at == part.len(),
        at != part.len() ==> appended(part, seq![(at, piece)]) is None,
        at == part.len() ==> appended(part, seq![(at, piece)]) == Some(part + piece),
{
    let one = seq![(at, piece)];
    assert(one.drop_first() =~= Seq::<(nat, Seq<u8>)>::empty());
    assert(appended(part + piece, one.drop_first()) == Some(part + piece));
}

/// The bytes that are held against the limit are those of all entries together.
pub proof fn every_entry_counts(entries: Seq<CacheEntry>, n: int)
    requires
        0 <= n < entries.len(),
    ensures
        bytes_in(entries, 0) == 0,
        bytes_in(entries, n + 1) == bytes_in(entries, n) + entries[n].size,
{
}

} // verus!
