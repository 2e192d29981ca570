use sidecar::fs::{
    arrange_entries, check_within_root, classify_file_bytes, path_starts_with_base, should_emit_change,
    size_verdict, FileContent, FileEntry, WorkspaceRootState, MAX_PREVIEW_BYTES,
};

fn bytes(s: &str) -> Vec<u8> {
    s.as_bytes().to_vec()
}

#[test]
fn reads_text_file_contents() {
    let result = classify_file_bytes(b"hello world\n".to_vec());
    match result {
        FileContent::Text { content } => assert_eq!(content, "hello world\n"),
        _ => panic!("expected text"),
    }
}

#[test]
fn detects_binary_file_via_nul_byte() {
    let result = classify_file_bytes(vec![0x00u8, 0x01, 0x02, 0xff, 0xfe]);
    assert!(matches!(result, FileContent::Binary));
}

#[test]
fn detects_binary_file_via_invalid_utf8_without_nul() {
    // 0xC3 0x28 is not a valid UTF-8 sequence, and contains no NUL byte.
    let result = classify_file_bytes(vec![0xC3u8, 0x28, 0x41, 0x42]);
    assert!(matches!(result, FileContent::Binary));
}

#[test]
fn rejects_path_outside_workspace_root() {
    // Both paths as canonicalisation leaves them.
    let workspace = bytes("/tmp/sidecar-fs-test-1");
    let secret = bytes("/tmp/sidecar-fs-test-2/secret.txt");
    let result = check_within_root(secret, &workspace);
    assert!(result.is_err(), "expected a path outside the workspace root to be rejected");
}

#[test]
fn rejects_traversal_via_dot_dot() {
    // `<workspace>/../<outside>/secret.txt` canonicalises to `<outside>/secret.txt`.
    let workspace = bytes("/tmp/sidecar-fs-test-1");
    let traversal_canonical = bytes("/tmp/sidecar-fs-test-2/secret.txt");
    let result = check_within_root(traversal_canonical, &workspace);
    assert!(result.is_err(), "expected a ../ escape from the workspace root to be rejected");
}

#[test]
fn rejects_read_when_no_workspace_open() {
    let state = WorkspaceRootState::new();
    assert!(state.require_root().is_err());
}

#[test]
fn reports_oversized_file_without_reading_it_fully() {
    match size_verdict(MAX_PREVIEW_BYTES + 1) {
        Some(FileContent::TooLarge { size }) => assert_eq!(size, MAX_PREVIEW_BYTES + 1),
        _ => panic!("expected TooLarge"),
    }
    assert!(size_verdict(MAX_PREVIEW_BYTES).is_none());
}

#[test]
fn accepts_paths_inside_the_root() {
    let root = bytes("/home/u/repo");
    let inside = bytes("/home/u/repo/src/main.rs");
    match check_within_root(inside.clone(), &root) {
        Ok(p) => assert_eq!(p, inside),
        Err(e) => panic!("unexpected error {e}"),
    }
    assert!(path_starts_with_base(&root, &root));
    assert!(path_starts_with_base(&bytes("/home/u/repo/"), &root));
    assert!(path_starts_with_base(&bytes("/home//u/./repo/x"), &root));
}

#[test]
fn containment_compares_whole_components() {
    let root = bytes("/home/u/repo");
    match check_within_root(bytes("/home/u/repo2/x"), &root) {
        Err(e) => assert_eq!(e, "path is outside the open workspace"),
        Ok(_) => panic!("a sibling sharing a name prefix is not inside"),
    }
    assert!(!path_starts_with_base(&bytes("home/u/repo/x"), &root));
    assert!(path_starts_with_base(&bytes("./a/b"), &bytes(".")));
    assert!(!path_starts_with_base(&bytes("a/b"), &bytes("./a")));
}

#[test]
fn workspace_state_remembers_opened_root() {
    let mut state = WorkspaceRootState::new();
    state.open(bytes("/w"));
    assert_eq!(state.require_root().unwrap(), bytes("/w"));
    match WorkspaceRootState::new().require_root() {
        Err(e) => assert_eq!(e, "no workspace folder is open"),
        Ok(_) => panic!("no root was opened"),
    }
}

#[test]
fn nul_beyond_sniff_window_is_not_sniffed() {
    let mut data = vec![b'a'; 8192];
    data.push(0);
    match classify_file_bytes(data) {
        FileContent::Text { content } => assert_eq!(content.len(), 8193),
        _ => panic!("NUL after the sniff window is valid UTF-8 text"),
    }
    let mut early = vec![b'a'; 8191];
    early.push(0);
    assert!(matches!(classify_file_bytes(early), FileContent::Binary));
}

#[test]
fn empty_file_is_empty_text() {
    match classify_file_bytes(vec![]) {
        FileContent::Text { content } => assert_eq!(content, ""),
        _ => panic!("expected text"),
    }
}

fn entry(name: &str, is_dir: bool) -> FileEntry {
    FileEntry { name: name.to_string(), path: format!("/r/{name}"), is_dir }
}

#[test]
fn listing_hides_dotfiles_and_puts_directories_first() {
    let entries = vec![
        entry("b.txt", false),
        entry(".git", true),
        entry("Zed", true),
        entry("A.md", false),
        entry("alpha", true),
        entry(".env", false),
    ];
    let names: Vec<String> = arrange_entries(entries).into_iter().map(|e| e.name).collect();
    assert_eq!(names, vec!["alpha", "Zed", "A.md", "b.txt"]);
}

#[test]
fn listing_is_stable_for_names_equal_up_to_case() {
    let entries = vec![entry("readme", false), entry("README", false), entry("Readme", false)];
    let names: Vec<String> = arrange_entries(entries).into_iter().map(|e| e.name).collect();
    assert_eq!(names, vec!["readme", "README", "Readme"]);
}

#[test]
fn change_notifications_are_debounced() {
    assert!(should_emit_change(None, 0));
    assert!(!should_emit_change(Some(1_000), 200_000_999));
    assert!(should_emit_change(Some(1_000), 200_001_000));
    assert!(!should_emit_change(Some(500), 100));
}

/// The watcher loop as the app runs it, over (time, reported without error).
fn signals(events: &[(u128, bool)]) -> Vec<u128> {
    let mut last = None;
    let mut out = Vec::new();
    for &(now, ok) in events {
        if ok && should_emit_change(last, now) {
            last = Some(now);
            out.push(now);
        }
    }
    out
}

#[test]
fn a_burst_of_events_yields_one_signal_per_window() {
    let ms = 1_000_000u128;
    let events = [
        (0, true),
        (50 * ms, true),
        (150 * ms, false),
        (199 * ms, true),
        (200 * ms, false),
        (210 * ms, true),
        (260 * ms, true),
        (409 * ms, true),
        (410 * ms, true),
    ];
    assert_eq!(signals(&events), vec![0, 210 * ms, 410 * ms]);
}

#[test]
fn a_file_that_outgrew_the_limit_is_not_previewed() {
    let data = vec![b'a'; MAX_PREVIEW_BYTES as usize + 1];
    match classify_file_bytes(data) {
        FileContent::TooLarge { size } => assert_eq!(size, MAX_PREVIEW_BYTES + 1),
        _ => panic!("expected TooLarge"),
    }
    let data = vec![b'a'; MAX_PREVIEW_BYTES as usize];
    match classify_file_bytes(data) {
        FileContent::Text { content } => assert_eq!(content.len() as u64, MAX_PREVIEW_BYTES),
        _ => panic!("expected text"),
    }
}
