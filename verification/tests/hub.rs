use clipsync::filetransfer::OutgoingFiles;
use clipsync::hub::{kind_label, should_auto_fetch, CacheProbe, ChunkOutcome, HubAction, HubState, LandingOutcome, LocalDecision, RemoteDecision, SkipNotice, SkipReason};
use clipsync::language::Lang;
use clipsync::types::{ClipContent, DeviceId, FileMeta, SyncMessage};

#[test]
fn size_decides_whether_to_pull_now() {
    const LIMIT: u64 = 100 << 20;
    assert!(should_auto_fetch(1, LIMIT, false));
    assert!(should_auto_fetch(LIMIT, LIMIT, false));
    assert!(!should_auto_fetch(LIMIT + 1, LIMIT, false));
    assert!(!should_auto_fetch(5 << 30, LIMIT, false));
}

#[test]
fn a_fully_cached_batch_never_waits_for_a_click() {
    assert!(should_auto_fetch(500 << 30, 1, true));
}

#[test]
fn unlimited_pulls_everything() {
    assert!(should_auto_fetch(u64::MAX, usize::MAX as u64, false));
}

fn dev(s: &str) -> DeviceId {
    DeviceId::new(s)
}

fn files(sizes: &[u64]) -> Vec<FileMeta> {
    sizes
        .iter()
        .enumerate()
        .map(|(i, s)| FileMeta { id: i as u64 + 1, name: format!("f{}", i + 1), size: *s })
        .collect()
}

fn probe(complete: bool, have: u64) -> CacheProbe {
    CacheProbe { complete, have }
}

fn hub_with(id: &str) -> HubState {
    let mut h = HubState::new(0);
    h.peer_connected(dev(id), id.to_string());
    h
}

#[test]
fn exactly_the_missing_bytes_are_asked_for() {
    let mut h = hub_with("a");
    let acts = h.begin_incoming_files(dev("a"), 7, files(&[100, 50, 10]), false, &vec![probe(false, 30), probe(true, 0), probe(false, 0)]);
    let asked: Vec<(u64, u64)> = acts
        .iter()
        .map(|a| match a {
            HubAction::Send { to, msg: SyncMessage::FileNeed { generation: 7, file_id, offset } } if to.text == "a" => (*file_id, *offset),
            _ => panic!("{a:?}"),
        })
        .collect();
    assert_eq!(asked, vec![(1, 30), (3, 0)]);
    let t = h.incoming.as_ref().unwrap();
    assert_eq!((t.total_bytes, t.got_bytes), (160, 80));
}

#[test]
fn cached_files_land_without_any_transfer() {
    let mut h = hub_with("a");
    let acts = h.begin_incoming_files(dev("a"), 7, files(&[100]), false, &vec![probe(true, 0)]);
    assert!(matches!(&acts[..], [HubAction::Land { generation: 7, items, manual: false }] if items[..] == [(1, "f1".to_string())]));
    assert!(h.incoming.is_none());
}

#[test]
fn large_files_wait_until_they_are_fetched() {
    let mut h = hub_with("a");
    let content = ClipContent::Files(files(&[2_000]));
    let acts = h.on_remote_clip(RemoteDecision::Apply, dev("a"), 9, 1, content, &vec![probe(false, 0)], 1_000);
    assert!(h.incoming.is_none());
    assert_eq!(h.pending.as_ref().unwrap().total, 2_000);
    assert!(acts.iter().any(|a| matches!(a, HubAction::SetPending(Some(p)) if p.first_name == "f1" && p.count == 1)));

    let acts = h.fetch_pending(&vec![probe(false, 500)], Lang::Zh);
    assert!(matches!(&acts[0], HubAction::SetPending(None)));
    assert!(matches!(&acts[1], HubAction::Send { msg: SyncMessage::FileNeed { offset: 500, .. }, .. }));
    assert!(h.incoming.as_ref().unwrap().manual);

    let acts = h.peer_disconnected(&dev("a"));
    assert!(matches!(acts.last(), Some(HubAction::ForgetCurrent)));
    assert_eq!(h.pending.as_ref().unwrap().generation, 9);
    let acts = h.fetch_pending(&vec![probe(false, 700)], Lang::Zh);
    assert!(matches!(&acts[..], [HubAction::SetPending(Some(_)), HubAction::Notify(m)] if m.contains("对方当前不在线")));
    assert!(h.pending.is_some());
}

#[test]
fn chunks_count_and_the_last_file_lands() {
    let mut h = hub_with("a");
    h.begin_incoming_files(dev("a"), 7, files(&[100, 50]), false, &vec![probe(false, 0), probe(false, 0)]);
    let acts = h.on_file_chunk(7, 1, ChunkOutcome::Stored(60), Lang::Zh);
    assert!(matches!(&acts[..], [HubAction::NoteTransfer(p)] if p.done == 60 && p.total == 150 && !p.sending));
    assert!(h.on_file_chunk(6, 1, ChunkOutcome::Stored(60), Lang::Zh).is_empty());
    h.on_file_done(7, 1, true, Lang::Zh);
    assert!(h.incoming.is_some());
    let acts = h.on_file_done(7, 2, true, Lang::Zh);
    assert!(h.incoming.is_none());
    assert!(acts.iter().any(|a| matches!(a, HubAction::Land { generation: 7, .. })));
}

#[test]
fn failures_end_a_reception() {
    let begin = || {
        let mut h = hub_with("a");
        h.begin_incoming_files(dev("a"), 7, files(&[100]), false, &vec![probe(false, 0)]);
        h
    };
    let mut h = begin();
    assert!(matches!(&h.on_file_chunk(7, 1, ChunkOutcome::Undecodable, Lang::Zh)[..], [HubAction::ForgetCurrent]));
    assert!(h.incoming.is_none());
    let mut h = begin();
    assert!(matches!(&h.on_file_chunk(7, 1, ChunkOutcome::Refused, Lang::Zh)[..], [HubAction::ForgetCurrent, HubAction::ClearTransfer]));
    let mut h = begin();
    assert!(matches!(&h.on_file_done(7, 1, false, Lang::Zh)[..], [HubAction::ForgetCurrent]));
    let mut h = begin();
    assert!(matches!(&h.on_remote(dev("a"), SyncMessage::FileAbort { generation: 7 }, Lang::Zh)[..], [HubAction::ForgetCurrent]));
    assert!(h.incoming.is_none());
    let mut h = begin();
    assert!(h.on_remote(dev("a"), SyncMessage::FileAbort { generation: 8 }, Lang::Zh).is_empty());
    assert!(h.matches_incoming(7));
    let acts = h.unpaired(&dev("a"));
    assert!(matches!(acts.last(), Some(HubAction::ForgetCurrent)));
    assert!(!h.is_connected(&dev("a")));
}

#[test]
fn received_text_goes_to_the_clipboard() {
    let mut h = hub_with("a");
    let acts = h.on_remote_clip(RemoteDecision::Apply, dev("a"), 1, 42, ClipContent::Text("hi".to_string()), &vec![], 0);
    assert!(matches!(&acts[..], [HubAction::ExpectEcho(42), HubAction::WriteClipboard { content: ClipContent::Text(t), .. }] if t == "hi"));
    assert!(h.on_remote_clip(RemoteDecision::Skip, dev("a"), 1, 42, ClipContent::Text("hi".to_string()), &vec![], 0).is_empty());
    let acts = h.on_remote(dev("a"), SyncMessage::Clip { origin: dev("a"), seq: 3, content_hash: 4, content: ClipContent::Text("t".to_string()) }, Lang::Zh);
    assert!(matches!(&acts[..], [HubAction::Consult { seq: 3, content_hash: 4, .. }]));
}

#[test]
fn local_copies_are_announced_and_registered() {
    let mut h = hub_with("a");
    let mut out: OutgoingFiles<&str> = OutgoingFiles::new();
    let (act, _) = h.on_local(LocalDecision::Broadcast { seq: 5, content_hash: 6 }, dev("me"), ClipContent::Files(files(&[1])), vec!["/x"], &mut out);
    assert!(matches!(act, Some(HubAction::Broadcast { to, msg: SyncMessage::Clip { seq: 5, .. } }) if to.len() == 1));
    assert_eq!(out.path_for(5, 1), Some(&"/x"));
    let (_, _) = h.on_local(LocalDecision::Broadcast { seq: 6, content_hash: 7 }, dev("me"), ClipContent::Text("t".to_string()), vec![], &mut out);
    assert!(!out.is_current(5) && out.is_servable(5));

    let skip = |h: &mut HubState, out: &mut OutgoingFiles<&str>, r: SkipReason| h.on_local(LocalDecision::Skip(r), dev("me"), ClipContent::Text("t".to_string()), vec![], out).1;
    assert_eq!(skip(&mut h, &mut out, SkipReason::TooLarge), SkipNotice::TooLarge);
    assert_eq!(skip(&mut h, &mut out, SkipReason::TooLarge), SkipNotice::Quiet);
    assert_eq!(skip(&mut h, &mut out, SkipReason::KindDisabled), SkipNotice::KindDisabled);
    assert_eq!(skip(&mut h, &mut out, SkipReason::Echo), SkipNotice::Quiet);
}

#[test]
fn pause_and_settings_are_picked_up_before_each_event() {
    let mut h = HubState::new(3);
    let t = h.before_event(false, true, 4);
    assert_eq!((t.set_paused, t.refresh_limits), (Some(true), true));
    let t = h.before_event(true, true, 4);
    assert_eq!((t.set_paused, t.refresh_limits), (None, false));
}

#[test]
fn removals_go_to_everyone_connected() {
    let mut h = hub_with("a");
    h.peer_connected(dev("b"), "b".to_string());
    assert!(matches!(h.announce_removal(dev("x")), HubAction::Broadcast { to, msg: SyncMessage::Removed { device } } if to.len() == 2 && device.text == "x"));
    assert!(matches!(&h.peer_connected(dev("a"), "again".to_string())[..], [HubAction::SetConnected(ids)] if ids.len() == 2));
}

#[test]
fn landing_is_cleaned_up_after() {
    let h = HubState::new(0);
    let items = vec![(4u64, "x".to_string())];
    for manual in [false, true] {
        let done = h.landed(LandingOutcome::Done, 7, &items, manual, Lang::Zh);
        assert!(matches!(&done[..], [HubAction::CleanupExcept(7), HubAction::Evict(ids)] if ids[..] == [4]));
    }
    assert!(matches!(&h.landed(LandingOutcome::Failed, 7, &items, false, Lang::Zh)[..], [HubAction::ForgetCurrent]));
    assert!(h.landed(LandingOutcome::NoClipboard, 7, &items, false, Lang::Zh).is_empty());
    let told = h.landed(LandingOutcome::Failed, 7, &items, true, Lang::Zh);
    assert!(matches!(&told[..], [HubAction::ForgetCurrent, HubAction::Notify(m)] if m.contains("剪贴板")));
    let told = h.landed(LandingOutcome::NoClipboard, 7, &items, true, Lang::English);
    assert!(matches!(&told[..], [HubAction::Notify(m)] if m.contains("clipboard")));
    assert_ne!(kind_label(&ClipContent::Text(String::new())), kind_label(&ClipContent::Image(vec![])));
}

#[test]
fn files_on_their_way_stay_in_the_cache() {
    let mut h = hub_with("a");
    h.begin_incoming_files(dev("a"), 7, files(&[100, 50]), false, &vec![probe(false, 30), probe(true, 0)]);
    assert_eq!(h.incoming.as_ref().unwrap().pinned_ids(), vec![1, 2]);
}

#[test]
fn a_fetch_asked_for_by_hand_does_not_fail_in_silence() {
    let begin = || {
        let mut h = hub_with("a");
        h.begin_incoming_files(dev("a"), 7, files(&[100, 20]), true, &vec![probe(false, 0), probe(false, 0)]);
        h
    };
    let mut h = begin();
    let acts = h.on_file_chunk(7, 1, ChunkOutcome::Undecodable, Lang::Zh);
    assert!(matches!(&acts[..], [HubAction::ForgetCurrent, HubAction::Notify(m)] if m.contains("有误")));
    assert!(h.incoming.is_none() && h.pending.is_none());
    let mut h = begin();
    let acts = h.on_file_chunk(7, 1, ChunkOutcome::Refused, Lang::English);
    assert!(matches!(&acts[..], [HubAction::ForgetCurrent, HubAction::ClearTransfer, HubAction::Notify(m)] if m.contains("stored")));
    assert!(h.incoming.is_none() && h.pending.is_none());
    let mut h = begin();
    let acts = h.on_file_done(7, 1, false, Lang::English);
    assert!(matches!(&acts[..], [HubAction::ForgetCurrent, HubAction::Notify(m)] if m.contains("damaged")));
    assert!(h.incoming.is_none() && h.pending.is_none());
}

#[test]
fn a_fetch_asked_for_by_hand_is_not_refused_in_silence() {
    let begin = || {
        let mut h = hub_with("a");
        h.begin_incoming_files(dev("a"), 7, files(&[100]), true, &vec![probe(false, 0)]);
        h
    };
    let mut h = begin();
    let acts = h.on_remote(dev("a"), SyncMessage::FileAbort { generation: 7 }, Lang::Zh);
    assert!(matches!(&acts[..], [HubAction::ForgetCurrent, HubAction::Notify(m)] if m.contains("别的内容")));
    assert!(h.incoming.is_none() && h.pending.is_none());
    let mut h = begin();
    let gone = SyncMessage::FileUnavailable { generation: 7, file_id: 1, reason: "no such file".to_string() };
    let acts = h.on_remote(dev("a"), gone, Lang::English);
    assert!(matches!(&acts[..], [HubAction::ForgetCurrent, HubAction::Notify(m)] if m == "The fetch was not completed: no such file"));
}
