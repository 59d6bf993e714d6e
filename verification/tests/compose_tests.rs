use notes_site::compose::compose;
use notes_site::fstree::FsEntry;
use notes_site::route::resolve;

fn file(name: &str, modified: u64) -> FsEntry {
    FsEntry::File { name: name.to_string(), modified }
}

fn dir(name: &str, entries: Vec<FsEntry>) -> FsEntry {
    FsEntry::Dir { name: name.to_string(), entries }
}

fn segs(parts: &[&str]) -> Vec<String> {
    parts.iter().map(|s| s.to_string()).collect()
}

fn sample_tree() -> Vec<FsEntry> {
    vec![
        file("index.md", 50),
        dir("analog", vec![file("overview.md", 100), file("filters.md", 200)]),
    ]
}

#[test]
fn missing_document_gives_not_found_page_without_sidebar() {
    let page = compose(&segs(&["nope"]), None, &sample_tree(), "", "My Notes");
    assert_eq!(page.body_html, "<h1>404 Not Found</h1>");
    assert_eq!(page.sidebar_html, "");
    assert_eq!(page.page_title, "404 Not Found");
    assert_eq!(page.active_path, "/nope");
}

#[test]
fn traversal_request_gives_not_found_page() {
    let tree = sample_tree();
    let resolved = resolve("content", &segs(&["..", "secret"]));
    assert_eq!(resolved, None);
    let page = compose(&segs(&["..", "secret"]), None, &tree, "", "My Notes");
    assert_eq!(page.body_html, "<h1>404 Not Found</h1>");
    assert_eq!(page.sidebar_html, "");
}

#[test]
fn document_page_has_body_sidebar_and_title() {
    let page = compose(
        &segs(&["analog", "overview"]),
        Some("# Overview\n\ntext"),
        &sample_tree(),
        "",
        "My Notes",
    );
    assert!(page.body_html.contains("<h1>Overview</h1>"));
    assert!(!page.body_html.contains("Recently Added"));
    assert_eq!(page.page_title, "Overview");
    assert_eq!(page.active_path, "/analog/overview");
    assert!(page.sidebar_html.starts_with("<ul class=\"sidebar-nav\">"));
    assert!(page.sidebar_html.contains("<a href=\"/analog/overview\" class=\"active\">Overview</a>"));
    assert!(page.sidebar_html.contains("<a href=\"/analog\">Analog</a>"));
}

#[test]
fn root_page_appends_recently_added_table() {
    let page = compose(&segs(&[]), Some("# Welcome"), &sample_tree(), "", "My Notes");
    assert!(page.body_html.contains("<h1>Welcome</h1>"));
    assert!(page.body_html.contains("<h2>Recently Added</h2>"));
    assert!(page.body_html.contains("<td>Analog</td>"));
    let filters = page.body_html.find("Filters").unwrap();
    let overview = page.body_html.find("Overview").unwrap();
    assert!(filters < overview, "newer document must come first");
    assert_eq!(page.page_title, "My Notes");
    assert_eq!(page.active_path, "/index");
}

#[test]
fn index_segment_is_the_root_page() {
    let page = compose(&segs(&["index"]), Some("hello"), &sample_tree(), "", "My Notes");
    assert!(page.body_html.contains("Recently Added"));
    assert_eq!(page.page_title, "My Notes");
}

#[test]
fn site_prefix_reaches_links_and_active_marker() {
    let page = compose(
        &segs(&["analog", "overview"]),
        Some("x"),
        &sample_tree(),
        "/notes",
        "My Notes",
    );
    assert!(page.sidebar_html.contains("<a href=\"/notes/analog\">"));
    assert!(
        page.sidebar_html.contains("<a href=\"/notes/analog/overview\" class=\"active\">")
    );
    assert_eq!(page.active_path, "/analog/overview");
}

#[test]
fn figures_are_numbered_in_composed_body() {
    let page = compose(
        &segs(&["analog", "overview"]),
        Some("<img src=\"a.png\" alt=\"Cat\" title=\"300px\">\n"),
        &sample_tree(),
        "",
        "My Notes",
    );
    assert!(page.body_html.contains("<figcaption><strong>Fig. 1:</strong> Cat</figcaption>"));
    assert!(page.body_html.contains("style=\"width: 300px;\""));
}

#[test]
fn resolve_then_compose_round_trip() {
    let tree = sample_tree();
    let path = resolve("content", &segs(&["analog", "overview"]));
    assert_eq!(path, Some("content/analog/overview.md".to_string()));
    let page = compose(&segs(&["analog", "overview"]), Some("body"), &tree, "", "T");
    assert!(page.body_html.contains("body"));
}
