//! Sending file contents: what this device offers, and the stream of messages that
//! carries one file.
//!
//! Contents are pulled, not pushed: the receiver asks, and each round of the
//! connection sends one chunk, so that memory use stays at one chunk and a transfer
//! can be dropped between two of them.
//!
//! A new clipboard content supersedes the transfer of the old one. The one exception
//! is a file that the other side asked for by hand: it stays available until another
//! file is copied here.

use std::collections::HashMap;

use vstd::prelude::*;
use vstd::string::*;

use crate::filecache::{appended, are_pieces_of, resumed_transfer_restores_the_file};
use crate::text::copy_of;
use crate::types::SyncMessage;

verus! {

broadcast use vstd::std_specs::hash::group_hash_axioms;

/// The size of one chunk.
pub const CHUNK_SIZE: usize = 262_144;

/// How many file copies are remembered.
pub const KEPT_GENERATIONS: usize = 4;

/// The files that other devices may ask for, by clipboard generation.
///
/// `P` is whatever the caller opens a file by.
pub struct OutgoingFiles<P> {
    table: HashMap<u64, Vec<(u64, P)>>,
    current: u64,
    last_file: u64,
}

/// `k` is the smallest key of `m`.
pub open spec fn is_oldest<V>(m: Map<u64, V>, k: u64) -> bool {
    m.dom().contains(k) && forall|j: u64| #[trigger] m.dom().contains(j) ==> k <= j
}

/// `m` itself while it holds at most four generations, else `m` without its oldest.
pub open spec fn newest<V>(m: Map<u64, V>) -> Map<u64, V> {
    if m.dom().len() <= KEPT_GENERATIONS {
        m
    } else {
        m.remove(choose|k: u64| is_oldest(m, k))
    }
}

/// The first place at which `id` is listed, or the length where it is not.
pub open spec fn place_of<P>(files: Seq<(u64, P)>, id: u64) -> nat
    decreases files.len(),
{
    if files.len() == 0 || files[0].0 == id {
        0
    } else {
        1 + place_of(files.drop_first(), id)
    }
}

pub proof fn lemma_place_of<P>(files: Seq<(u64, P)>, id: u64, n: int)
    requires
        0 <= n <= files.len(),
        forall|i: int| 0 <= i < n ==> (#[trigger] files[i]).0 != id,
        n == files.len() || files[n].0 == id,
    ensures
        place_of(files, id) == n,
    decreases n,
{
    if n > 0 {
        assert(files[0].0 != id);
        assert forall|i: int| 0 <= i < n - 1 implies (#[trigger] files.drop_first()[i]).0 != id by {
            assert(files[i + 1].0 != id);
        }
        lemma_place_of(files.drop_first(), id, n - 1);
    }
}

impl<P> OutgoingFiles<P> {
    /// The remembered file copies.
    pub closed spec fn generations(&self) -> Map<u64, Vec<(u64, P)>> {
        self.table@
    }

    /// The generation of the clipboard as it is now.
    pub closed spec fn now(&self) -> u64 {
        self.current
    }

    /// The generation of the latest file copy.
    pub closed spec fn latest_files(&self) -> u64 {
        self.last_file
    }

    /// At most four file copies are remembered.
    pub open spec fn wf(&self) -> bool {
        &&& self.generations().dom().finite()
        &&& self.generations().dom().len() <= KEPT_GENERATIONS
    }

    /// The path under which file `id` of a generation can be opened.
    pub open spec fn lookup(&self, generation: u64, id: u64) -> Option<P> {
        let m = self.generations();
        if m.dom().contains(generation) && place_of(m[generation]@, id) < m[generation]@.len() {
            Some(m[generation]@[place_of(m[generation]@, id) as int].1)
        } else {
            None
        }
    }

    /// Whether requests for a generation are still answered.
    pub open spec fn servable(&self, generation: u64) -> bool {
        self.now() == generation || self.latest_files() == generation
    }

    /// Nothing offered, generation zero.
    pub fn new() -> (r: Self)
        ensures
            r.wf(),
            r.generations() == Map::<u64, Vec<(u64, P)>>::empty(),
            r.now() == 0,
            r.latest_files() == 0,
    {
        OutgoingFiles { table: HashMap::new(), current: 0, last_file: 0 }
    }

    /// Records a file copy and makes it the current content.
    pub fn register(&mut self, generation: u64, files: Vec<(u64, P)>)
        requires
            old(self).wf(),
        ensures
            final(self).wf(),
            final(self).generations() == newest(old(self).generations().insert(generation, files)),
            final(self).now() == generation,
            final(self).latest_files() == generation,
    {
        self.table.insert(generation, files);
        let ghost m = self.table@;
        if self.table.len() > KEPT_GENERATIONS {
            let mut oldest: u64 = generation;
            for k in it: self.table.keys()
                invariant
                    it.seq().unref().to_set() == m.dom(),
                    self.table@ == m,
                    m.dom().contains(oldest),
                    forall|i: int|
                        0 <= i < it.index() ==> oldest <= *#[trigger] it.seq()[i],
            {
                if *k < oldest {
                    oldest = *k;
                }
            }
            proof {
                assert forall|j: u64| #[trigger] m.dom().contains(j) implies oldest <= j by {
                }
                let c = choose|k: u64| is_oldest(m, k);
                assert(is_oldest(m, oldest));
                assert(c == oldest);
            }
            self.table.remove(&oldest);
        }
        self.last_file = generation;
        self.current = generation;
    }

    /// The clipboard turned into something other than files.
    pub fn advance(&mut self, generation: u64)
        ensures
            final(self).generations() == old(self).generations(),
            final(self).now() == generation,
            final(self).latest_files() == old(self).latest_files(),
    {
        self.current = generation;
    }

    /// The generation of the clipboard as it is now.
    pub fn current(&self) -> (r: u64)
        ensures
            r == self.now(),
    {
        self.current
    }

    /// Whether a generation is what the clipboard holds now.
    pub fn is_current(&self, generation: u64) -> (r: bool)
        ensures
            r == (self.now() == generation),
    {
        self.current == generation
    }

    /// Whether requests for a generation are still answered: for the current
    /// content, and for the latest file copy.
    pub fn is_servable(&self, generation: u64) -> (r: bool)
        ensures
            r == self.servable(generation),
    {
        self.current == generation || self.last_file == generation
    }

    /// Where file `file_id` of a generation can be opened.
    pub fn path_for(&self, generation: u64, file_id: u64) -> (r: Option<&P>)
        ensures
            match r {
                Some(p) => self.lookup(generation, file_id) == Some(*p),
                None => self.lookup(generation, file_id) is None,
            },
    {
        match self.table.get(&generation) {
            None => None,
            Some(files) => {
                let mut i: usize = 0;
                while i < files.len()
                    invariant
                        i <= files.len(),
                        forall|k: int| 0 <= k < i ==> (#[trigger] files@[k]).0 != file_id,
                        self.table@.dom().contains(generation),
                        self.table@[generation] == *files,
                    decreases files.len() - i,
                {
                    if files[i].0 == file_id {
                        proof {
                            lemma_place_of(files@, file_id, i as int);
                        }
                        return Some(&files[i].1);
                    }
                    i += 1;
                }
                proof {
                    lemma_place_of(files@, file_id, i as int);
                }
                None
            },
        }
    }
}

/// A file request that this device is ready to answer.
pub struct StreamRequest<'a, P> {
    pub generation: u64,
    pub file_id: u64,
    /// Where the file can be opened.
    pub path: &'a P,
    /// The byte to start from.
    pub offset: u64,
    /// Whether a new clipboard content ends the transfer.
    pub abort_on_supersede: bool,
}

impl<'a, P> StreamRequest<'a, P> {
    /// Whether a new clipboard content ends the transfer.
    pub fn abort_on_supersede(&self) -> (r: bool)
        ensures
            r == self.abort_on_supersede,
    {
        self.abort_on_supersede
    }
}

/// Answers a request for a file: the stream to open, or what to reply instead.
///
/// A generation that is neither the current content nor the latest file copy is
/// answered with an abort, a file that was not part of it as unavailable. A request
/// for anything but the current content can only come from a fetch by hand, and is
/// therefore not ended by later copies.
pub fn begin_stream<'a, P>(
    outgoing: &'a OutgoingFiles<P>,
    generation: u64,
    file_id: u64,
    offset: u64,
) -> (r: Result<StreamRequest<'a, P>, SyncMessage>)
    ensures
        match r {
            Ok(q) => {
                &&& outgoing.servable(generation)
                &&& outgoing.lookup(generation, file_id) == Some(*q.path)
                &&& q.generation == generation
                &&& q.file_id == file_id
                &&& q.offset == offset
                &&& q.abort_on_supersede == (outgoing.now() == generation)
            },
            Err(SyncMessage::FileAbort { generation: g }) => {
                g == generation && !outgoing.servable(generation)
            },
            Err(SyncMessage::FileUnavailable { generation: g, file_id: f, reason }) => {
                &&& outgoing.servable(generation)
                &&& outgoing.lookup(generation, file_id) is None
                &&& g == generation
                &&& f == file_id
                &&& reason@ == "该文件不在当前剪贴板内容中"@
            },
            Err(_) => false,
        },
{
    if !outgoing.is_servable(generation) {
        return Err(SyncMessage::FileAbort { generation });
    }
    let abort_on_supersede = outgoing.is_current(generation);
    match outgoing.path_for(generation, file_id) {
        Some(path) => Ok(
            StreamRequest { generation, file_id, path, offset, abort_on_supersede },
        ),
        None => Err(
            SyncMessage::FileUnavailable {
                generation,
                file_id,
                reason: copy_of("该文件不在当前剪贴板内容中"),
            },
        ),
    }
}

/// The reply when an offered file turned out not to be readable.
pub fn unreadable(generation: u64, file_id: u64, path: &str, error: &str) -> (r: SyncMessage)
    ensures
        r matches SyncMessage::FileUnavailable { generation: g, file_id: f, reason } && g
            == generation && f == file_id && reason@ == "无法读取文件 "@ + path@ + ": "@ + error@,
{
    let mut reason = copy_of("无法读取文件 ");
    reason.append(path);
    reason.append(": ");
    reason.append(error);
    SyncMessage::FileUnavailable { generation, file_id, reason }
}

/// A file on its way to another device.
pub struct OutgoingStream {
    generation: u64,
    file_id: u64,
    /// The file's name, for progress reports; `None` where the path has none.
    name: Option<String>,
    /// The next byte to read.
    offset: u64,
    /// The file's size when it was opened.
    size: u64,
    /// Whether chunks are offered in compressed form.
    compress: bool,
    abort_on_supersede: bool,
    /// Whether the content hash is computed along the way.
    hashing: bool,
}

/// How many bytes a turn reads at most: the budget, at most a chunk, at least one.
pub open spec fn wanted(budget: usize) -> usize {
    if budget == 0 {
        1
    } else if budget < CHUNK_SIZE {
        budget
    } else {
        CHUNK_SIZE
    }
}

/// The message for the bytes just read: the end of the file where there are none, else a
/// chunk, in its compressed form where that is wanted and smaller.
pub open spec fn message_for(
    s: OutgoingStream,
    plain: Vec<u8>,
    packed: Option<Vec<u8>>,
    content_hash: u64,
) -> SyncMessage {
    if plain@.len() == 0 {
        SyncMessage::FileDone {
            generation: s.spec_generation(),
            file_id: s.spec_file_id(),
            content_hash,
        }
    } else {
        let compressed = s.spec_compress() && packed is Some && packed->0@.len() < plain@.len();
        SyncMessage::FileChunk {
            generation: s.spec_generation(),
            file_id: s.spec_file_id(),
            offset: s.spec_offset(),
            data: if compressed {
                packed->0
            } else {
                plain
            },
            compressed,
            plain_len: plain@.len() as u32,
        }
    }
}

impl OutgoingStream {
    pub closed spec fn spec_generation(&self) -> u64 {
        self.generation
    }

    pub closed spec fn spec_file_id(&self) -> u64 {
        self.file_id
    }

    pub closed spec fn spec_offset(&self) -> u64 {
        self.offset
    }

    pub closed spec fn spec_size(&self) -> u64 {
        self.size
    }

    pub closed spec fn spec_name(&self) -> Option<String> {
        self.name
    }

    pub closed spec fn spec_compress(&self) -> bool {
        self.compress
    }

    pub closed spec fn spec_abort(&self) -> bool {
        self.abort_on_supersede
    }

    pub closed spec fn spec_hashing(&self) -> bool {
        self.hashing
    }

    /// Everything but the offset is the same.
    pub open spec fn same_file(&self, other: &OutgoingStream) -> bool {
        &&& self.spec_generation() == other.spec_generation()
        &&& self.spec_file_id() == other.spec_file_id()
        &&& self.spec_size() == other.spec_size()
        &&& self.spec_name() == other.spec_name()
        &&& self.spec_compress() == other.spec_compress()
        &&& self.spec_abort() == other.spec_abort()
        &&& self.spec_hashing() == other.spec_hashing()
    }

    /// A stream over an opened file of `size` bytes, positioned at `offset`.
    ///
    /// Compression needs the user's consent and a sample that shrinks. The content
    /// hash can be computed along the way only from the first byte on.
    pub fn start(
        generation: u64,
        file_id: u64,
        name: Option<String>,
        size: u64,
        offset: u64,
        allow_compress: bool,
        worth_compressing: bool,
        abort_on_supersede: bool,
    ) -> (r: Self)
        ensures
            r.spec_generation() == generation,
            r.spec_file_id() == file_id,
            r.spec_name() == name,
            r.spec_size() == size,
            r.spec_offset() == offset,
            r.spec_compress() == (allow_compress && worth_compressing),
            r.spec_abort() == abort_on_supersede,
            r.spec_hashing() == (offset == 0),
    {
        OutgoingStream {
            generation,
            file_id,
            name,
            offset,
            size,
            compress: allow_compress && worth_compressing,
            abort_on_supersede,
            hashing: offset == 0,
        }
    }

    /// Bytes sent, bytes in all, and the file's name.
    pub fn progress(&self) -> (r: (u64, u64, String))
        ensures
            r.0 == self.spec_offset(),
            r.1 == self.spec_size(),
            match self.spec_name() {
                Some(n) => r.2 == n,
                None => r.2@ == "文件"@,
            },
    {
        let name = match &self.name {
            Some(n) => n.clone(),
            None => copy_of("文件"),
        };
        (self.offset, self.size, name)
    }

    /// The clipboard generation that the file belongs to.
    pub fn generation(&self) -> (r: u64)
        ensures
            r == self.spec_generation(),
    {
        self.generation
    }

    /// Whether a new clipboard content ends the transfer.
    pub fn abort_on_supersede(&self) -> (r: bool)
        ensures
            r == self.spec_abort(),
    {
        self.abort_on_supersede
    }

    /// Whether chunks are to be offered in compressed form.
    pub fn compresses(&self) -> (r: bool)
        ensures
            r == self.spec_compress(),
    {
        self.compress
    }

    /// Whether the final hash comes from the bytes sent; otherwise the file has to
    /// be read again, for its first part was never sent.
    pub fn hashes_along(&self) -> (r: bool)
        ensures
            r == self.spec_hashing(),
    {
        self.hashing
    }

    /// How many bytes to read next: the budget, at most a chunk, at least one.
    pub fn want(&self, budget: usize) -> (r: usize)
        ensures
            r == wanted(budget),
    {
        if budget == 0 {
            1
        } else if budget < CHUNK_SIZE {
            budget
        } else {
            CHUNK_SIZE
        }
    }

    /// The message for the bytes just read, none of them meaning that the file has
    /// ended. `packed` is their compressed form, used where it is smaller;
    /// `content_hash` is needed only at the end: the hash of the bytes sent where it was
    /// computed along the way, which were all of them then, else of the file read anew.
    pub fn next_message(
        &mut self,
        plain: Vec<u8>,
        packed: Option<Vec<u8>>,
        content_hash: u64,
    ) -> (r: SyncMessage)
        requires
            plain@.len() <= CHUNK_SIZE,
            old(self).spec_offset() + plain@.len() <= u64::MAX,
        ensures
            final(self).same_file(old(self)),
            final(self).spec_offset() == old(self).spec_offset() + plain@.len(),
            r == message_for(*old(self), plain, packed, content_hash),
    {
        let n: usize = plain.len();
        if n == 0 {
            return SyncMessage::FileDone {
                generation: self.generation,
                file_id: self.file_id,
                content_hash,
            };
        }
        let offset = self.offset;
        let (data, compressed) = match packed {
            Some(c) => if self.compress && c.len() < n {
                (c, true)
            } else {
                (plain, false)
            },
            None => (plain, false),
        };
        self.offset = offset + n as u64;
        SyncMessage::FileChunk {
            generation: self.generation,
            file_id: self.file_id,
            offset,
            data,
            compressed,
            plain_len: n as u32,
        }
    }
}

/// One stream from its start to its end: `states[i]` is the stream before its turn `i`,
/// `budgets[i]` what the turn was allowed to read, and `reads[i]` the bytes that were read
/// from the file then. The last turn reads nothing.
pub open spec fn is_run(
    file: Seq<u8>,
    states: Seq<OutgoingStream>,
    budgets: Seq<usize>,
    reads: Seq<Vec<u8>>,
) -> bool {
    &&& reads.len() > 0
    &&& states.len() == reads.len()
    &&& budgets.len() == reads.len()
    &&& reads.last()@.len() == 0
    &&& states[0].spec_hashing() == (states[0].spec_offset() == 0)
    &&& states.last().spec_offset() == file.len()
    &&& forall|i: int|
        #![trigger states[i]]
        0 <= i < states.len() ==> {
            &&& states[i].spec_offset() + reads[i]@.len() <= file.len()
            &&& reads[i]@.len() <= wanted(budgets[i])
            &&& reads[i]@ == file.subrange(
                states[i].spec_offset() as int,
                states[i].spec_offset() + reads[i]@.len(),
            )
        }
    &&& forall|i: int, j: int|
        #![trigger states[i], states[j]]
        0 <= i && j == i + 1 && j < states.len() ==> {
            &&& states[j].same_file(&states[i])
            &&& states[j].spec_offset() == states[i].spec_offset() + reads[i]@.len()
            &&& reads[i]@.len() > 0
        }
}

/// The bytes that were read, one after another.
pub open spec fn all_read(reads: Seq<Vec<u8>>) -> Seq<u8>
    decreases reads.len(),
{
    if reads.len() == 0 {
        Seq::empty()
    } else {
        all_read(reads.drop_last()) + reads.last()@
    }
}

/// The bytes that the hash at the end of a file covers: those that were sent, where it was
/// computed along the way; else those of the file, read anew.
pub open spec fn hashed_bytes(
    stream: OutgoingStream,
    file: Seq<u8>,
    reads: Seq<Vec<u8>>,
) -> Seq<u8> {
    if stream.spec_hashing() {
        all_read(reads)
    } else {
        file
    }
}

/// The place and the bytes of a chunk, as the receiver appends them: the data of the
/// message, decompressed by `unpack` where it is compressed.
pub open spec fn piece_of(msg: SyncMessage, unpack: spec_fn(Seq<u8>) -> Seq<u8>) -> (nat, Seq<u8>) {
    match msg {
        SyncMessage::FileChunk { offset, data, compressed, .. } => (
            offset as nat,
            if compressed {
                unpack(data@)
            } else {
                data@
            },
        ),
        _ => (0, Seq::empty()),
    }
}

/// The pieces that a row of messages carries.
pub open spec fn pieces_of(
    messages: Seq<SyncMessage>,
    unpack: spec_fn(Seq<u8>) -> Seq<u8>,
) -> Seq<(nat, Seq<u8>)> {
    messages.map_values(|m: SyncMessage| piece_of(m, unpack))
}

/// A chunk of the stream's file, no longer than its turn was allowed to read, and no longer
/// than it says.
pub open spec fn is_chunk(
    msg: SyncMessage,
    stream: OutgoingStream,
    budget: usize,
    unpack: spec_fn(Seq<u8>) -> Seq<u8>,
) -> bool {
    msg matches SyncMessage::FileChunk { generation, file_id, plain_len, .. } && {
        &&& generation == stream.spec_generation()
        &&& file_id == stream.spec_file_id()
        &&& 1 <= plain_len <= wanted(budget)
        &&& plain_len == piece_of(msg, unpack).1.len()
    }
}

/// `messages` are those of a run, where `packed[i]` is the compressed form of what turn `i`
/// read, if there is one, and `hashes[i]` the hash that the turn was handed.
pub open spec fn are_sent(
    states: Seq<OutgoingStream>,
    reads: Seq<Vec<u8>>,
    packed: Seq<Option<Vec<u8>>>,
    hashes: Seq<u64>,
    messages: Seq<SyncMessage>,
    unpack: spec_fn(Seq<u8>) -> Seq<u8>,
) -> bool {
    &&& packed.len() == reads.len()
    &&& hashes.len() == reads.len()
    &&& messages.len() == reads.len()
    &&& forall|i: int|
        0 <= i < messages.len() ==> #[trigger] messages[i] == message_for(
            states[i],
            reads[i],
            packed[i],
            hashes[i],
        )
    &&& forall|i: int|
        0 <= i < packed.len() ==> ((#[trigger] packed[i]) matches Some(p) ==> unpack(p@)
            == reads[i]@)
}

/// What a turn of a run sends carries exactly what it read.
proof fn lemma_piece(
    file: Seq<u8>,
    states: Seq<OutgoingStream>,
    budgets: Seq<usize>,
    reads: Seq<Vec<u8>>,
    packed: Seq<Option<Vec<u8>>>,
    hashes: Seq<u64>,
    messages: Seq<SyncMessage>,
    unpack: spec_fn(Seq<u8>) -> Seq<u8>,
    k: int,
)
    requires
        is_run(file, states, budgets, reads),
        are_sent(states, reads, packed, hashes, messages, unpack),
        0 <= k < messages.len() - 1,
    ensures
        messages[k] is FileChunk,
        piece_of(messages[k], unpack) == (states[k].spec_offset() as nat, reads[k]@),
        messages[k]->plain_len == reads[k]@.len(),
        1 <= reads[k]@.len() <= wanted(budgets[k]),
{
    assert(states[k + 1].same_file(&states[k]));
    assert(messages[k] == message_for(states[k], reads[k], packed[k], hashes[k]));
    if packed[k] is Some {
        assert(unpack(packed[k]->0@) == reads[k]@);
    }
}

proof fn lemma_run_from(
    file: Seq<u8>,
    states: Seq<OutgoingStream>,
    budgets: Seq<usize>,
    reads: Seq<Vec<u8>>,
    packed: Seq<Option<Vec<u8>>>,
    hashes: Seq<u64>,
    messages: Seq<SyncMessage>,
    unpack: spec_fn(Seq<u8>) -> Seq<u8>,
    k: int,
)
    requires
        is_run(file, states, budgets, reads),
        are_sent(states, reads, packed, hashes, messages, unpack),
        0 <= k < messages.len(),
    ensures
        are_pieces_of(
            file,
            states[k].spec_offset() as nat,
            pieces_of(messages.drop_last(), unpack).skip(k),
        ),
    decreases messages.len() - k,
{
    let pieces = pieces_of(messages.drop_last(), unpack);
    let rest = pieces.skip(k);
    if k < pieces.len() {
        lemma_run_from(file, states, budgets, reads, packed, hashes, messages, unpack, k + 1);
        lemma_piece(file, states, budgets, reads, packed, hashes, messages, unpack, k);
        assert(states[k + 1].same_file(&states[k]));
        assert(rest[0] == piece_of(messages[k], unpack));
        assert(rest.drop_first() =~= pieces.skip(k + 1));
    }
}

/// A run stays with its file, and what it read up to a turn is the file up to there.
proof fn lemma_read_so_far(
    file: Seq<u8>,
    states: Seq<OutgoingStream>,
    budgets: Seq<usize>,
    reads: Seq<Vec<u8>>,
    k: int,
)
    requires
        is_run(file, states, budgets, reads),
        0 <= k < states.len(),
    ensures
        states[k].same_file(&states[0]),
        states[0].spec_offset() <= states[k].spec_offset() <= file.len(),
        all_read(reads.take(k)) == file.subrange(
            states[0].spec_offset() as int,
            states[k].spec_offset() as int,
        ),
    decreases k,
{
    assert(states[k].spec_offset() + reads[k]@.len() <= file.len());
    if k > 0 {
        lemma_read_so_far(file, states, budgets, reads, k - 1);
        assert(states[k].same_file(&states[k - 1]));
        assert(reads.take(k).drop_last() =~= reads.take(k - 1));
        assert(reads.take(k).last() == reads[k - 1]);
        assert(all_read(reads.take(k)) =~= file.subrange(
            states[0].spec_offset() as int,
            states[k].spec_offset() as int,
        ));
    } else {
        assert(all_read(reads.take(0)) =~= file.subrange(
            states[0].spec_offset() as int,
            states[0].spec_offset() as int,
        ));
    }
}

/// Sending is lossless. Whatever the turns are allowed to read, and wherever the stream
/// starts:
///
/// - every message but the last is a chunk of the stream's file and generation, of at least
///   one byte and at most as many as its turn may read;
/// - the chunks' data, decompressed where compressed and appended in turn to the bytes that
///   the receiver already has, make up the whole file, none of them out of place;
/// - the last message ends the file, and its hash is that of the whole file, also where the
///   stream did not start at the first byte.
///
/// `unpack` is what undoes the compression, and `hash` the hash of a file's bytes.
pub proof fn whole_run_restores_the_file(
    file: Seq<u8>,
    states: Seq<OutgoingStream>,
    budgets: Seq<usize>,
    reads: Seq<Vec<u8>>,
    packed: Seq<Option<Vec<u8>>>,
    hashes: Seq<u64>,
    messages: Seq<SyncMessage>,
    unpack: spec_fn(Seq<u8>) -> Seq<u8>,
    hash: spec_fn(Seq<u8>) -> u64,
)
    requires
        is_run(file, states, budgets, reads),
        are_sent(states, reads, packed, hashes, messages, unpack),
        hashes.last() == hash(hashed_bytes(states[0], file, reads)),
    ensures
        forall|i: int|
            0 <= i < messages.len() - 1 ==> is_chunk(
                #[trigger] messages[i],
                states[0],
                budgets[i],
                unpack,
            ),
        appended(
            file.take(states[0].spec_offset() as int),
            pieces_of(messages.drop_last(), unpack),
        ) == Some(file),
        messages.last() == (SyncMessage::FileDone {
            generation: states[0].spec_generation(),
            file_id: states[0].spec_file_id(),
            content_hash: hash(file),
        }),
{
    let n = messages.len() - 1;
    let pieces = pieces_of(messages.drop_last(), unpack);
    assert forall|i: int| 0 <= i < n implies is_chunk(
        #[trigger] messages[i],
        states[0],
        budgets[i],
        unpack,
    ) by {
        lemma_piece(file, states, budgets, reads, packed, hashes, messages, unpack, i);
        lemma_read_so_far(file, states, budgets, reads, i);
    }
    lemma_run_from(file, states, budgets, reads, packed, hashes, messages, unpack, 0);
    assert(pieces.skip(0) =~= pieces);
    assert(states[0].spec_offset() + reads[0]@.len() <= file.len());
    resumed_transfer_restores_the_file(file, states[0].spec_offset() as nat, pieces);
    lemma_read_so_far(file, states, budgets, reads, n);
    assert(messages[n] == message_for(states[n], reads[n], packed[n], hashes[n]));
    assert(reads.drop_last() =~= reads.take(n));
    assert(all_read(reads) =~= all_read(reads.take(n)));
    if states[0].spec_hashing() {
        assert(file.subrange(0, file.len() as int) =~= file);
    }
}

/// The largest generation of a full table stays when a newer one is added.
proof fn lemma_newest_keeps<V>(m: Map<u64, V>, g: u64)
    requires
        m.dom().finite(),
        m.dom().contains(g),
        forall|j: u64| #[trigger] m.dom().contains(j) ==> j <= g,
    ensures
        newest(m).dom().contains(g),
        newest(m)[g] == m[g],
{
    if m.dom().len() > KEPT_GENERATIONS {
        let k = choose|k: u64| is_oldest(m, k);
        if k == g && is_oldest(m, k) {
            // Then `g` is the only key, and the table is not full.
            assert forall|j: u64| m.dom().contains(j) implies j == g by {
            }
            assert(m.dom() =~= set![g]);
        } else if !is_oldest(m, k) {
            lemma_oldest_exists(m);
        }
    }
}

proof fn lemma_oldest_exists<V>(m: Map<u64, V>)
    requires
        m.dom().finite(),
        m.dom().len() > 0,
    ensures
        exists|k: u64| is_oldest(m, k),
    decreases m.dom().len(),
{
    let a = m.dom().choose();
    let rest = m.remove(a);
    assert(rest.dom() =~= m.dom().remove(a));
    if rest.dom().len() == 0 {
        assert forall|j: u64| #[trigger] m.dom().contains(j) implies a <= j by {
            if j != a {
                assert(rest.dom().contains(j));
            }
        }
        assert(is_oldest(m, a));
    } else {
        lemma_oldest_exists(rest);
        let b = choose|k: u64| is_oldest(rest, k);
        let k = if a <= b {
            a
        } else {
            b
        };
        assert forall|j: u64| #[trigger] m.dom().contains(j) implies k <= j by {
            if j != a {
                assert(rest.dom().contains(j));
            }
        }
        assert(m.dom().contains(k));
        assert(is_oldest(m, k));
    }
}

/// The latest file copy can always be fetched: registering a generation newer than
/// the remembered ones keeps its files reachable, through any later change of the
/// clipboard to something other than files.
pub proof fn latest_copy_stays_available<P>(
    before: OutgoingFiles<P>,
    registered: OutgoingFiles<P>,
    later: OutgoingFiles<P>,
    generation: u64,
    files: Vec<(u64, P)>,
    id: u64,
)
    requires
        before.wf(),
        forall|j: u64| #[trigger] before.generations().dom().contains(j) ==> j <= generation,
        // The table after `register(generation, files)`.
        registered.generations() == newest(before.generations().insert(generation, files)),
        registered.latest_files() == generation,
        // The table after any number of `advance` calls.
        later.generations() == registered.generations(),
        later.latest_files() == registered.latest_files(),
        place_of(files@, id) < files@.len(),
    ensures
        later.servable(generation),
        later.lookup(generation, id) == Some(files@[place_of(files@, id) as int].1),
{
    let m = before.generations().insert(generation, files);
    lemma_newest_keeps(m, generation);
}

/// An id leads to a path only where the two were registered together, in the generation that
/// is asked for; and to one wherever the id is listed there.
pub proof fn only_offered_files_are_served<P>(o: OutgoingFiles<P>, generation: u64, id: u64)
    ensures
        o.lookup(generation, id) matches Some(p) ==> o.generations().dom().contains(generation)
            && o.generations()[generation]@.contains((id, p)),
        o.lookup(generation, id) is None ==> !o.generations().dom().contains(generation) || (forall|
            k: int,
        |
            0 <= k < o.generations()[generation]@.len() ==> (#[trigger] o.generations()[generation]@[k]).0
                != id),
{
    if o.generations().dom().contains(generation) {
        let files = o.generations()[generation]@;
        lemma_place(files, id);
        let n = place_of(files, id) as int;
        if n < files.len() {
            assert(files[n] == (id, files[n].1));
        }
    }
}

proof fn lemma_place<P>(files: Seq<(u64, P)>, id: u64)
    ensures
        place_of(files, id) <= files.len(),
        place_of(files, id) < files.len() ==> files[place_of(files, id) as int].0 == id,
        forall|k: int|
            0 <= k < place_of(files, id) && k < files.len() ==> (#[trigger] files[k]).0 != id,
    decreases files.len(),
{
    if files.len() > 0 && files[0].0 != id {
        let t = files.drop_first();
        lemma_place(t, id);
        assert forall|k: int| 0 <= k < place_of(files, id) && k < files.len() implies (
        #[trigger] files[k]).0 != id by {
            if k > 0 {
                assert(t[k - 1].0 != id);
            }
        }
    }
}

/// A generation is answered for while it is what the clipboard holds, or the latest file
/// copy, and no longer: once another file copy was registered, requests for the one before
/// are refused.
pub proof fn superseded_copies_are_refused<P>(o: OutgoingFiles<P>, generation: u64)
    ensures
        o.now() == generation ==> o.servable(generation),
        o.latest_files() == generation ==> o.servable(generation),
        o.now() != generation && o.latest_files() != generation ==> !o.servable(generation),
{
}

/// Remembering one more file copy drops at most one, the oldest, and only where there are
/// more than four; whatever is remembered is unchanged.
pub proof fn the_newest_copies_are_remembered<V>(m: Map<u64, V>, g: u64)
    requires
        m.dom().finite(),
        0 < m.dom().len() <= 5,
    ensures
        newest(m).dom().finite(),
        newest(m).dom().len() <= 4,
        m.dom().len() <= 4 ==> newest(m) == m,
        newest(m).dom().contains(g) ==> m.dom().contains(g) && newest(m)[g] == m[g],
        m.dom().contains(g) && !newest(m).dom().contains(g) ==> forall|j: u64| #[trigger]
            m.dom().contains(j) ==> g <= j,
        m.dom().len() == 5 ==> newest(m).dom().len() == 4,
{
    lemma_oldest_exists(m);
    let k = choose|k: u64| is_oldest(m, k);
    assert(is_oldest(m, k));
}

/// The rate limit and the size of a chunk bound every read, and something is always read.
pub proof fn reads_are_bounded(budget: usize)
    ensures
        1 <= wanted(budget) <= 262_144,
        budget > 0 ==> wanted(budget) <= budget,
        1 <= budget <= 262_144 ==> wanted(budget) == budget,
        budget >= 262_144 ==> wanted(budget) == 262_144,
{
}

/// Compression is an offer, not a duty: what is sent is never longer than what was read, and
/// is compressed only where that was wanted and makes it shorter.
pub proof fn messages_are_never_longer_than_the_file(
    s: OutgoingStream,
    plain: Vec<u8>,
    packed: Option<Vec<u8>>,
    content_hash: u64,
)
    requires
        0 < plain@.len() <= 262_144,
    ensures
        message_for(s, plain, packed, content_hash) matches SyncMessage::FileChunk {
            generation,
            file_id,
            offset,
            data,
            compressed,
            plain_len,
        } && {
            &&& generation == s.spec_generation()
            &&& file_id == s.spec_file_id()
            &&& offset == s.spec_offset()
            &&& plain_len == plain@.len()
            &&& data@.len() <= plain@.len()
            &&& !compressed ==> data == plain
            &&& compressed ==> s.spec_compress() && packed == Some(data) && data@.len()
                < plain@.len()
            &&& s.spec_compress() && packed is Some && packed->0@.len() < plain@.len()
                ==> compressed
        },
{
}

} // verus!
