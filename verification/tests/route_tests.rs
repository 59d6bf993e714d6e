use notes_site::route::resolve;

fn segs(parts: &[&str]) -> Vec<String> {
    parts.iter().map(|s| s.to_string()).collect()
}

#[test]
fn empty_request_resolves_to_root_document() {
    assert_eq!(resolve("content", &segs(&[])), Some("content/index.md".to_string()));
}

#[test]
fn index_resolves_to_root_document() {
    assert_eq!(resolve("content", &segs(&["index"])), Some("content/index.md".to_string()));
}

#[test]
fn nested_path_resolves_to_md_file() {
    assert_eq!(
        resolve("content", &segs(&["analog", "1) filters", "rc"])),
        Some("content/analog/1) filters/rc.md".to_string())
    );
}

#[test]
fn dotdot_segment_is_rejected() {
    assert_eq!(resolve("content", &segs(&[".."])), None);
    assert_eq!(resolve("content", &segs(&["a", "..", "b"])), None);
    assert_eq!(resolve("content", &segs(&["a", "..secret"])), None);
}

#[test]
fn separator_in_segment_is_rejected() {
    assert_eq!(resolve("content", &segs(&["a/b"])), None);
    assert_eq!(resolve("content", &segs(&["a\\b"])), None);
}

#[test]
fn empty_segment_is_rejected() {
    assert_eq!(resolve("content", &segs(&["a", ""])), None);
}
