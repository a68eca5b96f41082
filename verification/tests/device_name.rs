use clipsync::device_name::{device_name_best_effort, non_empty};

fn some(s: &str) -> Option<String> {
    Some(s.to_string())
}

#[test]
fn non_empty_trims_and_rejects_blank() {
    assert_eq!(non_empty(Some("  mac  ".into())), Some("mac".to_string()));
    assert_eq!(non_empty(Some("   ".into())), None);
    assert_eq!(non_empty(Some(String::new())), None);
    assert_eq!(non_empty(None), None);
}

#[test]
fn device_name_is_not_placeholder_on_this_machine() {
    let name = device_name_best_effort(None, None, None, some("this-machine\n"), None);
    assert_ne!(name, "unknown-host");
    assert!(!name.trim().is_empty());
}

#[test]
fn unix_device_name_has_no_domain_suffix() {
    let name = device_name_best_effort(None, None, None, some("wangs-mac.local\n"), None);
    assert!(!name.ends_with(".local"), "{name}");
    assert_eq!(name, "wangs-mac");
}

#[test]
fn names_are_looked_for_in_order() {
    let all = |a, b, c, d, e| device_name_best_effort(a, b, c, d, e);
    assert_eq!(all(some(" desk "), some("PC"), None, None, None), "desk");
    assert_eq!(all(some("  "), some("PC"), some("Mac"), None, None), "PC");
    assert_eq!(all(None, None, some("王的 Mac"), some("mac.local"), None), "王的 Mac");
    assert_eq!(all(None, None, None, some(".local"), some("shell")), "shell");
    assert_eq!(all(None, None, None, None, None), "unknown-host");
}
