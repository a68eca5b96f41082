use clipsync::dialog::{agreed, choose_item, confirm, picked_button, prompt, script_answer};

#[test]
fn nonzero_exit_maps_to_cancelled() {
    assert!(script_answer(false, String::new()).is_none());
    assert_eq!(script_answer(true, "x".to_string()).as_deref(), Some("x"));
}

#[test]
fn what_cannot_be_asked_is_not_agreed_to() {
    assert!(confirm::<()>(Ok(true)));
    assert!(!confirm::<()>(Ok(false)));
    assert!(!confirm(Err("no session")));
    assert!(agreed(&Some("确定\n".to_string())));
    assert!(!agreed(&Some("取消".to_string())));
    assert!(!agreed(&None));
}

#[test]
fn nothing_can_be_picked_from_an_empty_list() {
    assert_eq!(choose_item::<()>(3, Ok(Some(2))), Some(2));
    assert_eq!(choose_item::<()>(0, Ok(Some(2))), None);
    assert_eq!(choose_item(3, Err("no session")), None);
}

#[test]
fn typed_text_is_trimmed_and_never_blank() {
    assert_eq!(prompt::<()>(Ok(Some("  a b ".to_string()))).as_deref(), Some("a b"));
    assert_eq!(prompt::<()>(Ok(Some("   ".to_string()))), None);
    assert_eq!(prompt::<()>(Ok(None)), None);
    assert_eq!(prompt(Err("no session")), None);
}

#[test]
fn buttons_are_numbered_from_a_thousand() {
    assert_eq!(picked_button(1000, 2), Some(0));
    assert_eq!(picked_button(1001, 2), Some(1));
    assert_eq!(picked_button(1002, 2), None);
    assert_eq!(picked_button(2, 2), None);
    assert_eq!(picked_button(-1, 2), None);
}
