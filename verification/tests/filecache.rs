use clipsync::filecache::{sanitize_name, CacheEntry, FileCache, Verdict};

fn cache(limit: u64) -> FileCache {
    FileCache::new(&vec!["/tmp".to_string()], limit)
}

/// A stand-in for a content hash.
fn hash(data: &[u8]) -> u64 {
    data.iter().fold(14_695_981_039_346_656_037, |h, b| (h ^ *b as u64).wrapping_mul(1_099_511_628_211))
}

#[test]
fn append_and_finalize_roundtrip() {
    let c = cache(1 << 30);
    let data = b"hello clipsync file transfer";
    let size = data.len() as u64;

    assert_eq!(c.have_bytes(None, None, size).have, 0);
    let n = c.append(None, 0, size).unwrap();
    assert_eq!(n, size);

    let expected = hash(data);
    assert_eq!(c.finalize(hash(data), expected), Verdict::Promote);
    assert!(c.is_complete(Some(size), size));
    assert_eq!(c.have_bytes(Some(size), None, size).have, size);
}

#[test]
fn resume_from_partial() {
    let c = cache(1 << 30);
    let full = b"0123456789abcdef".to_vec();
    let size = full.len() as u64;

    let part = c.append(None, 0, 8).unwrap();
    assert_eq!(c.have_bytes(None, Some(part), size).have, 8);
    let part = c.append(Some(part), 8, 8).unwrap();
    assert_eq!(part, size);
    let mut whole = full[..8].to_vec();
    whole.extend_from_slice(&full[8..]);
    assert_eq!(c.finalize(hash(&whole), hash(&full)), Verdict::Promote);
    assert!(c.is_complete(Some(part), size));
}

#[test]
fn out_of_order_chunk_is_rejected() {
    let c = cache(1 << 30);
    let part = c.append(None, 0, 3).unwrap();
    let err = c.append(Some(part), 99, 3).unwrap_err();
    assert_eq!(err.message(), "分块偏移不连续（期望 3，收到 99），丢弃");
    let err = c.append(Some(part), u64::MAX, 3).unwrap_err();
    assert_eq!((err.expected, err.got), (3, u64::MAX));
    assert!(c.append(None, u64::MAX, u64::MAX).is_err());
}

#[test]
fn corrupted_content_fails_verification_and_is_discarded() {
    let c = cache(1 << 30);
    c.append(None, 0, 14).unwrap();
    assert_eq!(c.finalize(hash(b"actual-content"), 0xDEADBEEF), Verdict::Discard);
    assert_eq!(c.have_bytes(None, None, 14).have, 0);
}

#[test]
fn oversized_partial_is_discarded() {
    let c = cache(1 << 30);
    let part = c.append(None, 0, 17).unwrap();
    let held = c.have_bytes(None, Some(part), 4);
    assert_eq!(held.have, 0);
    assert!(held.discard_part);
}

#[test]
fn eviction_respects_limit_and_pins() {
    let c = cache(10);
    let entries: Vec<CacheEntry> = [1u64, 2, 3]
        .iter()
        .map(|id| CacheEntry { stem: format!("{id:016x}"), size: 8, accessed: *id })
        .collect();

    let mut eviction = c.evict_to_limit(&entries, &vec![1]);
    let mut gone = Vec::new();
    while let Some(i) = eviction.next_victim() {
        gone.push(i);
        eviction.removed(entries[i].size);
    }
    assert!(!gone.contains(&0));
    assert!(!gone.is_empty());
    assert_eq!(gone, vec![1, 2]);
}

#[test]
fn eviction_takes_the_least_recently_used_first_and_stops_at_the_limit() {
    let c = cache(20);
    let entries: Vec<CacheEntry> = [(1u64, 30u64), (2, 10), (3, 20)]
        .iter()
        .map(|(id, at)| CacheEntry { stem: format!("{id:016x}"), size: 8, accessed: *at })
        .collect();
    let mut eviction = c.evict_to_limit(&entries, &vec![]);
    assert_eq!(eviction.next_victim(), Some(1));
    eviction.removed(8);
    assert_eq!(eviction.next_victim(), None);
}

#[test]
fn materialize_creates_named_files() {
    let c = cache(1 << 30);
    let paths = c.materialize(5, &vec![(77, "报告.pdf".to_string())]);
    assert_eq!(paths.len(), 1);
    assert_eq!(paths[0].blob, c.blob_path(77));
    assert_eq!(paths[0].dest.last().unwrap(), "报告.pdf");
    assert_eq!(paths[0].dest[..3], c.received_dir()[..]);
    assert_eq!(paths[0].dest[3], "0000000000000005");
}

#[test]
fn malicious_names_are_sanitized() {
    assert_eq!(sanitize_name("../../evil.exe"), "evil.exe");
    assert_eq!(sanitize_name(r"C:\Windows\system32\bad.dll"), "bad.dll");
    assert_eq!(sanitize_name("a<b>c.txt"), "a_b_c.txt");
    assert_eq!(sanitize_name("..."), "unnamed");
}

#[test]
fn cleanup_removes_old_generations_only() {
    let c = cache(1 << 30);
    let name = |g: u64| c.landing_dir(g).last().unwrap().clone();
    assert_eq!(name(1), format!("{:016x}", 1));
    assert!(c.cleanup_materialized_except(Some(2), &name(1)));
    assert!(!c.cleanup_materialized_except(Some(2), &name(2)));
    assert!(c.cleanup_materialized_except(None, &name(2)));
}

#[test]
fn cache_files_lie_in_their_directories() {
    let c = cache(1);
    assert_eq!(c.part_path(0xABCDEF), vec!["/tmp", "ClipSync", "parts", "0000000000abcdef.part"]);
    assert_eq!(c.blob_path(0xABCDEF), vec!["/tmp", "ClipSync", "blobs", "0000000000abcdef.bin"]);
    assert_eq!(c.received_dir(), vec!["/tmp", "ClipSync", "recv"]);
}
