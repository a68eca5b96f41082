use clipsync::pairing_session::PairingHostSlot;

const NOW: u64 = 1_000_000;

#[test]
fn host_slot_reports_existing_code_instead_of_starting_over() {
    let mut slot = PairingHostSlot::default();
    assert!(slot.try_acquire());
    slot.begin("1234", NOW + 180_000);

    assert!(!slot.try_acquire());
    let live = slot.live(NOW).unwrap();
    assert_eq!(live.code, "1234");
    assert!(live.remaining > 170_000);

    slot.release();
    assert!(slot.try_acquire());
}

#[test]
fn host_slot_releases_on_error_path() {
    let mut slot = PairingHostSlot::default();
    assert!(slot.try_acquire());
    slot.begin("7890", NOW + 180_000);
    slot.release();
    assert!(slot.live(NOW).is_none());
    assert!(slot.try_acquire());
    assert!(slot.live(NOW).is_none());
}

#[test]
fn an_expired_code_is_not_live() {
    let mut slot = PairingHostSlot::default();
    assert!(slot.try_acquire());
    slot.begin("1234", NOW - 1_000);
    assert!(slot.live(NOW).is_none());
}

#[test]
fn a_placeholder_session_has_no_code_yet() {
    let mut slot = PairingHostSlot::default();
    assert!(slot.try_acquire());
    assert!(slot.live(NOW).is_none());
    assert!(!slot.request_new_code(None));
}

#[test]
fn requesting_a_new_code_cancels_the_round() {
    let mut slot = PairingHostSlot::default();
    assert!(slot.try_acquire());
    slot.begin("1234", NOW + 180_000);

    assert!(!slot.is_cancelled());
    assert!(slot.request_new_code(None));
    assert!(slot.is_cancelled());
}

#[test]
fn a_stale_dialog_cannot_cancel_the_current_round() {
    let mut slot = PairingHostSlot::default();
    assert!(slot.try_acquire());
    slot.begin("5678", NOW + 180_000);

    assert!(!slot.request_new_code(Some("1234")));
    assert!(!slot.is_cancelled());
    assert!(slot.request_new_code(Some("5678")));
    assert!(slot.is_cancelled());
}

#[test]
fn a_code_that_still_works_never_shows_zero_seconds() {
    let mut slot = PairingHostSlot::default();
    slot.begin("1234", NOW);
    assert!(slot.active.is_none());
    assert!(slot.try_acquire());
    slot.begin("1234", NOW + 300);
    assert_eq!(slot.live(NOW).unwrap().seconds(), 1);
    slot.begin("1234", NOW + 167_000);
    assert_eq!(slot.live(NOW).unwrap().seconds(), 167);
}
