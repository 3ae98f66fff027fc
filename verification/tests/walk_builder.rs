use xray_core::entry::Entry;
use xray_core::project::{build_tree, Project, ScanError, WalkItem};

fn s(x: &str) -> String {
    x.to_string()
}

fn item(depth: usize, name: &str, is_dir: bool) -> WalkItem {
    WalkItem { depth, name: s(name), is_dir }
}

fn child_names(e: &Entry) -> Vec<String> {
    e.children()
        .expect("directory expected")
        .iter()
        .map(|c| c.name().clone())
        .collect()
}

#[test]
fn build_tree_folds_a_walk_into_a_tree() {
    let walk = vec![
        item(0, "root", true),
        item(1, "src", true),
        item(2, "main.rs", false),
        item(1, "README", false),
    ];
    let tree = build_tree(&walk).expect("well-nested walk");
    assert_eq!(tree.name(), "root");
    assert!(tree.is_dir());
    assert_eq!(child_names(&tree), vec![s("src"), s("README")]);
    let src = &tree.children().unwrap()[0];
    assert_eq!(child_names(src), vec![s("main.rs")]);
    assert!(tree.is_well_formed());
}

#[test]
fn build_tree_keeps_sibling_order_across_depth_changes() {
    let walk = vec![
        item(0, "top", true),
        item(1, "a", true),
        item(2, "a1", false),
        item(2, "a2", true),
        item(3, "deep", false),
        item(1, "b", false),
        item(1, "c", true),
    ];
    let tree = build_tree(&walk).expect("well-nested walk");
    assert_eq!(child_names(&tree), vec![s("a"), s("b"), s("c")]);
    let a = &tree.children().unwrap()[0];
    assert_eq!(child_names(a), vec![s("a1"), s("a2")]);
    let a2 = &a.children().unwrap()[1];
    assert_eq!(child_names(a2), vec![s("deep")]);
}

#[test]
fn build_tree_rejects_malformed_walks() {
    assert!(build_tree(&Vec::new()).is_none());
    assert!(build_tree(&vec![item(0, "loose", false)]).is_none());
    assert!(build_tree(&vec![item(0, "r", true), item(0, "again", true)]).is_none());
}

#[test]
fn rescan_replaces_entries_one_tree_per_path() {
    let mut project = Project::new(vec![vec![s("one")], vec![s("two")]]);
    let walks = vec![
        vec![item(0, "one", true), item(1, "f", false)],
        vec![item(0, "two", true)],
    ];
    project.rescan(&walks).unwrap();
    assert_eq!(project.entries.len(), 2);
    assert_eq!(project.entries[0].name(), "one");
    assert_eq!(child_names(&project.entries[0]), vec![s("f")]);
    assert_eq!(project.entries[1].name(), "two");

    // a second rescan replaces, not appends
    project.rescan(&walks).unwrap();
    assert_eq!(project.entries.len(), 2);
}

#[test]
fn rescan_reports_mismatched_walk_count_and_leaves_project_unchanged() {
    let mut project = Project::new(vec![vec![s("one")]]);
    let r = project.rescan(&Vec::new());
    assert_eq!(r.unwrap_err(), ScanError::PathCountMismatch);
    assert!(project.entries.is_empty());
}

#[test]
fn rescan_reports_malformed_walk_and_leaves_project_unchanged() {
    let mut project = Project::new(vec![vec![s("one")]]);
    let r = project.rescan(&vec![vec![item(0, "loose", false)]]);
    assert_eq!(r.unwrap_err(), ScanError::MalformedWalk);
    assert!(project.entries.is_empty());
}
