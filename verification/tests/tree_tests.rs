use notes_site::fstree::FsEntry;
use notes_site::fstree::NavEntry;
use notes_site::fstree::scan;
use notes_site::recent::recent;

fn file(name: &str, modified: u64) -> FsEntry {
    FsEntry::File { name: name.to_string(), modified }
}

fn dir(name: &str, entries: Vec<FsEntry>) -> FsEntry {
    FsEntry::Dir { name: name.to_string(), entries }
}

fn titles(nodes: &[NavEntry]) -> Vec<String> {
    nodes.iter().map(|n| n.title.clone()).collect()
}

fn no_images_nodes(nodes: &[NavEntry]) -> bool {
    nodes.iter().all(|n| {
        n.url_path.rsplit('/').next() != Some("images") && no_images_nodes(&n.children)
    })
}

#[test]
fn siblings_follow_sort_key_order() {
    let root = vec![
        file("2) beta.md", 1),
        file("1) alpha.md", 2),
        file("zeta.md", 3),
    ];
    let tree = scan(&root, "");
    assert_eq!(titles(&tree), vec!["Alpha", "Beta", "Zeta"]);
}

#[test]
fn all_sibling_permutations_sort_the_same() {
    let names = ["2) beta.md", "1) alpha.md", "zeta.md"];
    let perms: [[usize; 3]; 6] = [
        [0, 1, 2],
        [0, 2, 1],
        [1, 0, 2],
        [1, 2, 0],
        [2, 0, 1],
        [2, 1, 0],
    ];
    for p in perms.iter() {
        let root: Vec<FsEntry> = p.iter().map(|&i| file(names[i], 1)).collect();
        let tree = scan(&root, "");
        assert_eq!(titles(&tree), vec!["Alpha", "Beta", "Zeta"]);
    }
}

#[test]
fn images_directories_are_excluded_at_every_depth() {
    let root = vec![
        dir("images", vec![file("pic.md", 1)]),
        dir(
            "analog",
            vec![
                dir("images", vec![file("x.md", 1)]),
                dir("deep", vec![dir("images", vec![]), file("note.md", 2)]),
                file("intro.md", 3),
            ],
        ),
    ];
    let tree = scan(&root, "");
    assert!(no_images_nodes(&tree));
    assert_eq!(tree.len(), 1);
    assert_eq!(tree[0].title, "Analog");
}

#[test]
fn markdown_leaves_get_stem_urls_and_nesting_is_unbounded() {
    let root = vec![dir(
        "a",
        vec![dir("b", vec![dir("c", vec![file("leaf.md", 1), file("skip.txt", 1)])])],
    )];
    let tree = scan(&root, "/site");
    assert_eq!(tree[0].url_path, "/site/a");
    let b = &tree[0].children[0];
    assert_eq!(b.url_path, "/site/a/b");
    let c = &b.children[0];
    let leaf = &c.children[0];
    assert_eq!(leaf.title, "Leaf");
    assert_eq!(leaf.url_path, "/site/a/b/c/leaf");
    assert_eq!(c.children.len(), 1);
}

#[test]
fn recent_returns_newest_first() {
    let root = vec![dir(
        "cat",
        vec![file("old.md", 100), file("new.md", 300), file("mid.md", 200)],
    )];
    let items = recent(&root, "", 10);
    assert_eq!(items.len(), 3);
    assert_eq!(items[0].title, "New");
    assert_eq!(items[1].title, "Mid");
    assert_eq!(items[2].title, "Old");
    assert!(items[0].modified >= items[1].modified);
    assert!(items[1].modified >= items[2].modified);
}

#[test]
fn recent_respects_the_limit() {
    let files: Vec<FsEntry> = (0..15u64).map(|i| file(&format!("n{}.md", i), i)).collect();
    let root = vec![dir("cat", files)];
    let items = recent(&root, "", 10);
    assert_eq!(items.len(), 10);
    for w in items.windows(2) {
        assert!(w[0].modified > w[1].modified);
    }
    assert_eq!(items[0].modified, 14);
}

#[test]
fn recent_ties_keep_walk_order() {
    let root = vec![dir("cat", vec![file("first.md", 5), file("second.md", 5)])];
    let items = recent(&root, "", 10);
    assert_eq!(items[0].title, "First");
    assert_eq!(items[1].title, "Second");
}

#[test]
fn recent_excludes_images_and_labels_categories() {
    let root = vec![
        dir("images", vec![file("pic.md", 9)]),
        dir("1) analog_circuits", vec![file("intro.md", 7)]),
    ];
    let items = recent(&root, "/site", 10);
    assert_eq!(items.len(), 1);
    assert_eq!(items[0].category, "Analog Circuits");
    assert_eq!(items[0].url_path, "/site/1) analog_circuits/intro");
}

#[test]
fn recent_formats_epoch_date() {
    let root = vec![file("genesis.md", 0)];
    let items = recent(&root, "", 10);
    assert_eq!(items[0].date, "Jan 01, 1970 00:00");
    assert_eq!(items[0].modified, 0);
}
