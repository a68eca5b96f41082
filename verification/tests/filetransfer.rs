use clipsync::filetransfer::{begin_stream, unreadable, OutgoingFiles, OutgoingStream, CHUNK_SIZE};
use clipsync::types::SyncMessage;

fn outgoing() -> OutgoingFiles<&'static str> {
    OutgoingFiles::new()
}

/// A stand-in for a content hash.
fn hash(data: &[u8]) -> u64 {
    data.iter().fold(14_695_981_039_346_656_037, |h, b| (h ^ *b as u64).wrapping_mul(1_099_511_628_211))
}

/// A file that is read as a stream asks for it, and packed by `pack`.
struct Source {
    data: Vec<u8>,
    at: usize,
    sent: Vec<u8>,
}

impl Source {
    fn new(data: &[u8], at: usize) -> Source {
        Source { data: data.to_vec(), at, sent: Vec::new() }
    }

    fn next(&mut self, s: &mut OutgoingStream, budget: usize, pack: fn(&[u8]) -> Option<Vec<u8>>) -> SyncMessage {
        let want = s.want(budget);
        let end = self.data.len().min(self.at + want);
        let plain = self.data[self.at..end].to_vec();
        self.at = end;
        self.sent.extend_from_slice(&plain);
        let content_hash = if s.hashes_along() { hash(&self.sent) } else { hash(&self.data) };
        let packed = if s.compresses() { pack(&plain) } else { None };
        s.next_message(plain, packed, content_hash)
    }

    fn finish(&mut self, s: &mut OutgoingStream, pack: fn(&[u8]) -> Option<Vec<u8>>) -> u64 {
        loop {
            if let SyncMessage::FileDone { content_hash, .. } = self.next(s, CHUNK_SIZE, pack) {
                return content_hash;
            }
        }
    }
}

fn none(_: &[u8]) -> Option<Vec<u8>> {
    None
}

/// Packs a run of one byte as that byte and its length.
fn run_length(plain: &[u8]) -> Option<Vec<u8>> {
    let first = *plain.first()?;
    if plain.iter().all(|b| *b == first) {
        let mut v = vec![first];
        v.extend_from_slice(&(plain.len() as u32).to_be_bytes());
        Some(v)
    } else {
        None
    }
}

fn stream(size: usize, offset: u64, compress: bool) -> OutgoingStream {
    OutgoingStream::start(1, 1, Some("f.bin".to_string()), size as u64, offset, compress, true, true)
}

#[test]
fn registers_and_finds_paths() {
    let mut o = outgoing();
    o.register(7, vec![(123, "reg.bin")]);

    assert_eq!(o.current(), 7);
    assert!(o.is_current(7));
    assert_eq!(o.path_for(7, 123), Some(&"reg.bin"));
    assert_eq!(o.path_for(7, 999), None);
}

#[test]
fn advancing_generation_invalidates_old() {
    let mut o = outgoing();
    o.register(1, vec![]);
    assert!(o.is_current(1));
    o.advance(2);
    assert!(!o.is_current(1));
}

#[test]
fn only_recent_generations_are_kept() {
    let mut o = outgoing();
    for gen in 1..=6u64 {
        o.register(gen, vec![(gen, "keep.bin")]);
    }
    assert!(o.path_for(1, 1).is_none());
    assert!(o.path_for(6, 6).is_some());
    assert!(o.path_for(2, 2).is_none());
    assert!(o.path_for(3, 3).is_some());
}

#[test]
fn stream_emits_chunks_then_done() {
    let data = vec![9u8; CHUNK_SIZE + 100];
    let mut src = Source::new(&data, 0);
    let mut s = OutgoingStream::start(1, 55, Some("stream.bin".to_string()), data.len() as u64, 0, false, true, true);

    match src.next(&mut s, CHUNK_SIZE, none) {
        SyncMessage::FileChunk { offset, ref data, file_id, .. } => {
            assert_eq!(offset, 0);
            assert_eq!(data.len(), CHUNK_SIZE);
            assert_eq!(file_id, 55);
        }
        _ => panic!("the first message is a chunk"),
    }
    match src.next(&mut s, CHUNK_SIZE, none) {
        SyncMessage::FileChunk { offset, ref data, .. } => {
            assert_eq!(offset, CHUNK_SIZE as u64);
            assert_eq!(data.len(), 100);
        }
        _ => panic!("the second message is the rest"),
    }
    assert!(matches!(src.next(&mut s, CHUNK_SIZE, none), SyncMessage::FileDone { .. }));
}

#[test]
fn incremental_hash_matches_full_reread() {
    let data: Vec<u8> = (0..(CHUNK_SIZE * 2 + 1234)).map(|i| (i % 251) as u8).collect();
    let mut s = stream(data.len(), 0, false);
    assert!(s.hashes_along());
    assert_eq!(Source::new(&data, 0).finish(&mut s, none), hash(&data));
}

#[test]
fn resumed_transfer_still_hashes_whole_file() {
    let data: Vec<u8> = (0..5000).map(|i| (i % 97) as u8).collect();
    let mut s = stream(data.len(), 2000, false);
    assert!(!s.hashes_along());
    assert_eq!(Source::new(&data, 2000).finish(&mut s, none), hash(&data));
}

#[test]
fn hash_covers_plaintext_not_compressed_bytes() {
    let data = vec![b'Z'; 200_000];
    let mut s = stream(data.len(), 0, true);
    assert_eq!(Source::new(&data, 0).finish(&mut s, run_length), hash(&data));
}

#[test]
fn stream_resumes_from_offset() {
    let data = b"0123456789".to_vec();
    let mut s = stream(data.len(), 6, false);
    match Source::new(&data, 6).next(&mut s, CHUNK_SIZE, none) {
        SyncMessage::FileChunk { offset, data, .. } => {
            assert_eq!(offset, 6);
            assert_eq!(data, b"6789".to_vec());
        }
        _ => panic!("a chunk"),
    }
}

#[test]
fn budget_limits_chunk_size() {
    let data = vec![7u8; 10_000];
    let mut src = Source::new(&data, 0);
    let mut s = stream(data.len(), 0, false);
    match src.next(&mut s, 1000, none) {
        SyncMessage::FileChunk { offset, data, .. } => {
            assert_eq!(offset, 0);
            assert_eq!(data.len(), 1000);
        }
        _ => panic!("a chunk"),
    }
    match src.next(&mut s, 1000, none) {
        SyncMessage::FileChunk { offset, .. } => assert_eq!(offset, 1000),
        _ => panic!("a chunk"),
    }
    assert_eq!(s.want(0), 1);
    assert_eq!(s.want(usize::MAX), CHUNK_SIZE);
}

#[test]
fn compressible_content_is_compressed() {
    let data = vec![b'A'; 100_000];
    let mut s = stream(data.len(), 0, true);
    match Source::new(&data, 0).next(&mut s, CHUNK_SIZE, run_length) {
        SyncMessage::FileChunk { data: sent, compressed, plain_len, .. } => {
            assert!(compressed);
            assert_eq!(plain_len, 100_000);
            assert!(sent.len() < 100_000 / 10);
            let n = u32::from_be_bytes([sent[1], sent[2], sent[3], sent[4]]);
            assert_eq!(vec![sent[0]; n as usize], data);
        }
        _ => panic!("a chunk"),
    }
}

#[test]
fn compression_can_be_disabled() {
    let data = vec![b'B'; 50_000];
    let mut s = stream(data.len(), 0, false);
    match Source::new(&data, 0).next(&mut s, CHUNK_SIZE, run_length) {
        SyncMessage::FileChunk { data: sent, compressed, .. } => {
            assert!(!compressed);
            assert_eq!(sent.len(), 50_000);
        }
        _ => panic!("a chunk"),
    }
}

#[test]
fn chunks_that_do_not_shrink_are_sent_as_they_are() {
    let mut s = stream(3, 0, true);
    match s.next_message(vec![1, 2, 3], Some(vec![9, 9, 9]), 0) {
        SyncMessage::FileChunk { data, compressed, .. } => {
            assert!(!compressed);
            assert_eq!(data, vec![1, 2, 3]);
        }
        _ => panic!("a chunk"),
    }
    assert_eq!(s.progress(), (3, 3, "f.bin".to_string()));
    let unnamed = OutgoingStream::start(1, 1, None, 3, 0, true, false, false);
    assert_eq!(unnamed.progress(), (0, 3, "文件".to_string()));
    assert!(!unnamed.compresses());
}

#[test]
fn stale_generation_request_is_aborted() {
    let mut o = outgoing();
    o.register(1, vec![(1, "stale.bin")]);
    o.register(2, vec![(2, "newer.bin")]);

    match begin_stream(&o, 1, 1, 0) {
        Err(SyncMessage::FileAbort { generation }) => assert_eq!(generation, 1),
        _ => panic!("a later copy of files ends the offer"),
    }
}

#[test]
fn a_file_stays_servable_after_copying_text() {
    let mut o = outgoing();
    o.register(1, vec![(1, "big.bin")]);
    o.advance(2);
    o.advance(3);

    assert!(!o.is_current(1));
    assert!(o.is_servable(1));
    assert!(begin_stream(&o, 1, 1, 0).is_ok());
}

#[test]
fn manual_fetch_streams_do_not_abort_on_supersede() {
    let mut o = outgoing();
    o.register(1, vec![(1, "manual.bin")]);

    let auto = begin_stream(&o, 1, 1, 0).ok().unwrap();
    assert!(auto.abort_on_supersede());

    o.advance(2);
    let manual = begin_stream(&o, 1, 1, 0).ok().unwrap();
    assert!(!manual.abort_on_supersede());
}

#[test]
fn missing_file_reports_unavailable() {
    let mut o = outgoing();
    o.register(3, vec![(1, "/definitely/missing/file.bin")]);
    let path = *begin_stream(&o, 3, 1, 0).ok().unwrap().path;
    match unreadable(3, 1, path, "No such file or directory") {
        SyncMessage::FileUnavailable { file_id, reason, .. } => {
            assert_eq!(file_id, 1);
            assert_eq!(reason, "无法读取文件 /definitely/missing/file.bin: No such file or directory");
        }
        _ => panic!("a file that cannot be read is unavailable"),
    }
}

#[test]
fn unknown_file_id_reports_unavailable() {
    let mut o = outgoing();
    o.register(4, vec![]);
    assert!(matches!(
        begin_stream(&o, 4, 12345, 0),
        Err(SyncMessage::FileUnavailable { .. })
    ));
}

#[test]
fn whatever_the_reads_the_receiver_gets_the_file() {
    let data: Vec<u8> = (0..10_000u32).map(|i| (i % 253) as u8).collect();
    let mut src = Source::new(&data, 1234);
    let mut s = stream(data.len(), 1234, false);
    let mut part = data[..1234].to_vec();
    let mut budget = 1;
    loop {
        match src.next(&mut s, budget, none) {
            SyncMessage::FileChunk { offset, data, .. } => {
                assert_eq!(offset as usize, part.len());
                part.extend_from_slice(&data);
            }
            SyncMessage::FileDone { .. } => break,
            _ => panic!("a chunk or the end"),
        }
        budget = budget * 3 % 1009;
    }
    assert_eq!(part, data);
}

#[test]
fn a_whole_run_restores_the_file() {
    let mut data = vec![7u8; 3_000];
    data.extend((0..2_500u32).map(|i| (i * i % 251) as u8));
    for (offset, compress) in [(0usize, false), (0, true), (1_234, true), (5_500, false)] {
        let mut src = Source::new(&data, offset);
        let mut s = stream(data.len(), offset as u64, compress);
        let mut got = data[..offset].to_vec();
        let mut packed = 0;
        for budget in [0, 1, 500, 700, 900].into_iter().cycle() {
            match src.next(&mut s, budget, run_length) {
                SyncMessage::FileChunk { generation, file_id, offset, data, compressed, plain_len } => {
                    assert_eq!((generation, file_id, offset), (1, 1, got.len() as u64));
                    assert!(1 <= plain_len && plain_len as usize <= budget.max(1));
                    if compressed {
                        packed += 1;
                        got.extend(vec![data[0]; plain_len as usize]);
                    } else {
                        assert_eq!(data.len(), plain_len as usize);
                        got.extend_from_slice(&data);
                    }
                }
                SyncMessage::FileDone { generation, file_id, content_hash } => {
                    assert_eq!((generation, file_id, content_hash), (1, 1, hash(&data)));
                    break;
                }
                other => panic!("{other:?}"),
            }
        }
        assert_eq!(got, data);
        assert_eq!(packed > 0, compress);
    }
}
