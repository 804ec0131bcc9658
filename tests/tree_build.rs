use disk_usage_tui::sizes::{aggregate_sizes, Entry};
use disk_usage_tui::tree::{build_tree, sort_entries, DirEntryInfo};

fn path(s: &str) -> Vec<Vec<u8>> {
    s.split('/').map(|c| c.as_bytes().to_vec()).collect()
}

fn dir(s: &str) -> Entry {
    Entry { path: path(s), size: 0, is_dir: true }
}

fn file(s: &str, size: u64) -> Entry {
    Entry { path: path(s), size, is_dir: false }
}

fn name(n: &DirEntryInfo) -> String {
    String::from_utf8(n.path.last().unwrap().clone()).unwrap()
}

fn scenario_a() -> Vec<Entry> {
    vec![
        dir("r"),
        dir("r/dirA"),
        file("r/dirA/f1", 100),
        file("r/dirA/f2", 200),
        file("r/fileB", 50),
    ]
}

fn check_consistent(n: &DirEntryInfo) {
    if n.is_dir {
        let sum: u64 = n.children.iter().map(|c| c.size).sum();
        assert_eq!(n.size, sum);
    } else {
        assert!(n.children.is_empty());
    }
    for c in &n.children {
        assert_eq!(c.path[..c.path.len() - 1], n.path[..]);
        check_consistent(c);
    }
}

#[test]
fn scenario_a_sizes() {
    let t = build_tree(&path("r"), scenario_a());
    assert_eq!(t.size, 350);
    assert!(t.is_dir);
    assert_eq!(t.children.len(), 2);
    assert_eq!(name(&t.children[0]), "dirA");
    assert_eq!(t.children[0].size, 300);
    assert_eq!(name(&t.children[1]), "fileB");
    assert_eq!(t.children[1].size, 50);
    let a = &t.children[0];
    assert_eq!(a.children.len(), 2);
    assert_eq!(a.children[0].size, 100);
    assert_eq!(a.children[1].size, 200);
    check_consistent(&t);
}

#[test]
fn root_synthesized_without_record() {
    let es = vec![dir("r/d"), file("r/d/x", 7), file("r/y", 5)];
    let t = build_tree(&path("r"), es);
    assert!(t.is_dir);
    assert_eq!(t.path, path("r"));
    assert_eq!(t.size, 12);
    check_consistent(&t);
}

#[test]
fn empty_scan_gives_empty_root() {
    let t = build_tree(&path("r"), vec![]);
    assert_eq!(t.size, 0);
    assert!(t.children.is_empty());
    assert!(t.is_dir);
}

#[test]
fn empty_directory_has_size_zero() {
    let t = build_tree(&path("r"), vec![dir("r"), dir("r/dirC"), file("r/g", 9)]);
    assert_eq!(t.size, 9);
    assert_eq!(t.children[0].size, 0);
    assert!(t.children[0].is_dir);
    assert!(t.children[0].children.is_empty());
}

#[test]
fn deep_chain_totals() {
    let es = vec![dir("r"), dir("r/a"), dir("r/a/b"), dir("r/a/b/c"), file("r/a/b/c/z", 42), file("r/a/q", 8)];
    let t = build_tree(&path("r"), es);
    assert_eq!(t.size, 50);
    let a = &t.children[0];
    assert_eq!(a.size, 50);
    assert_eq!(a.children[0].size, 42);
    assert_eq!(a.children[0].children[0].size, 42);
    check_consistent(&t);
}

#[test]
fn symlink_not_followed_counts_link_only() {
    // The link is one record of its own, with no records under it.
    let es = vec![dir("r"), file("r/linkD", 0), file("r/a", 10)];
    let t = build_tree(&path("r"), es);
    assert_eq!(t.size, 10);
    let link = t.children.iter().find(|c| name(c) == "linkD").unwrap();
    assert_eq!(link.size, 0);
    assert!(link.children.is_empty());
}

#[test]
fn symlink_followed_counts_target() {
    // Followed, the link reads as a directory holding the target's file.
    let es = vec![dir("r"), dir("r/linkD"), file("r/linkD/big", 1000), file("r/a", 10)];
    let t = build_tree(&path("r"), es);
    assert_eq!(t.size, 1010);
    let link = t.children.iter().find(|c| name(c) == "linkD").unwrap();
    assert_eq!(link.size, 1000);
    check_consistent(&t);
}

#[test]
fn sort_entries_orders_by_components() {
    let mut es = vec![file("r/b/x", 1), dir("r/b"), file("r/a", 2), dir("r"), file("r/ab", 3)];
    sort_entries(&mut es);
    let paths: Vec<Vec<Vec<u8>>> = es.iter().map(|e| e.path.clone()).collect();
    assert_eq!(paths, vec![path("r"), path("r/a"), path("r/ab"), path("r/b"), path("r/b/x")]);
}

#[test]
fn aggregate_sizes_credits_every_ancestor() {
    let es = scenario_a();
    let m = aggregate_sizes(&es);
    assert_eq!(m.get(&path("r")), 350);
    assert_eq!(m.get(&path("r/dirA")), 300);
    assert_eq!(m.get(&path("r/dirA/f2")), 200);
    assert_eq!(m.get(&path("r/fileB")), 50);
    assert_eq!(m.get(&path("elsewhere")), 0);
    // Ancestors above the scan root are credited too.
    let mut above = path("r");
    above.truncate(0);
    assert_eq!(m.get(&above), 350);
}

#[test]
fn children_follow_path_order() {
    let es = vec![file("r/b", 1), dir("r"), file("r/a", 2), file("r/c", 3), file("r/B", 4)];
    let t = build_tree(&path("r"), es);
    let names: Vec<String> = t.children.iter().map(name).collect();
    assert_eq!(names, vec!["B", "a", "b", "c"]);
}
