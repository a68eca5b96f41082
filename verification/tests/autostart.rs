use clipsync::autostart::{is_enabled, is_transient, launch_agent, registry_failed, registry_value, transient_warning, xml_escape};

#[test]
fn escapes_xml_metacharacters() {
    assert_eq!(
        xml_escape("/Users/me/A&B/clip<sync>"),
        "/Users/me/A&amp;B/clip&lt;sync&gt;"
    );
    assert_eq!(xml_escape(r#"/a/"b"/'c'"#), "/a/&quot;b&quot;/&apos;c&apos;");
}

#[test]
fn leaves_ordinary_paths_untouched() {
    let p = "/Users/wang/PythonProject/ClipSync/target/release/clipsync";
    assert_eq!(xml_escape(p), p);
    assert_eq!(xml_escape("/Users/王鑫/应用/clipsync"), "/Users/王鑫/应用/clipsync");
}

#[test]
fn build_results_are_recognised() {
    let parts = |p: &[&str]| p.iter().map(|s| s.to_string()).collect::<Vec<_>>();
    assert!(is_transient(&parts(&["/", "src", "target", "release", "clipsync"])));
    assert!(is_transient(&parts(&["deps", "clipsync"])));
    assert!(!is_transient(&parts(&["/", "Applications", "ClipSync.app", "clipsync"])));
    assert!(!is_transient(&parts(&["/", "targets"])));
    assert!(transient_warning("/x/target/clipsync").contains("/x/target/clipsync"));
}

#[test]
fn launch_agent_names_the_program() {
    let text = launch_agent("/a&b/clipsync");
    assert!(text.starts_with("<?xml version=\"1.0\" encoding=\"UTF-8\"?>\n<!DOCTYPE plist PUBLIC"));
    assert!(text.contains("    <string>com.clipsync</string>\n"));
    assert!(text.contains("        <string>/a&amp;b/clipsync</string>\n    </array>\n"));
    assert!(text.ends_with("    <key>KeepAlive</key>\n    <false/>\n</dict>\n</plist>\n"));
}

#[test]
fn registry_value_is_quoted_and_deleting_never_fails() {
    assert_eq!(registry_value(r"C:\Program Files\clipsync.exe"), r#""C:\Program Files\clipsync.exe""#);
    assert!(registry_failed(true, false));
    assert!(!registry_failed(false, false));
    assert!(!registry_failed(true, true));
}

#[test]
fn unknown_state_counts_as_off() {
    assert!(is_enabled::<()>(Ok(true)));
    assert!(!is_enabled::<()>(Ok(false)));
    assert!(!is_enabled(Err("no registry")));
}
