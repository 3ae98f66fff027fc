use xray_core::entry::{ContractError, Entry};
use xray_core::file_tree::{Error, FileTree, MutationError};

fn s(x: &str) -> String {
    x.to_string()
}

fn path(parts: &[&str]) -> Vec<String> {
    parts.iter().map(|p| s(p)).collect()
}

fn child_names(e: &Entry) -> Vec<String> {
    e.children()
        .expect("directory expected")
        .iter()
        .map(|c| c.name().clone())
        .collect()
}

#[test]
fn new_tree_has_empty_root_dir_named_after_final_component() {
    let tree = FileTree::new(path(&["home", "projects"])).expect("construction should succeed");
    assert_eq!(tree.root.name(), "projects");
    assert!(tree.root.is_dir());
    assert!(child_names(&tree.root).is_empty());
    assert_eq!(tree.path, path(&["home", "projects"]));
}

#[test]
fn new_tree_fails_without_final_component() {
    assert_eq!(FileTree::new(Vec::new()).unwrap_err(), Error::NoDirectoryName);
    assert_eq!(FileTree::new(path(&["a", ".."])).unwrap_err(), Error::NoDirectoryName);
    assert_eq!(FileTree::new(path(&["a", "."])).unwrap_err(), Error::NoDirectoryName);
    assert_eq!(FileTree::new(path(&["a", ""])).unwrap_err(), Error::NoDirectoryName);
}

#[test]
fn new_tree_accepts_dotted_intermediate_components() {
    let tree = FileTree::new(path(&["..", ".", "work"])).expect("only the last component counts");
    assert_eq!(tree.root.name(), "work");
}

#[test]
fn error_description_text() {
    assert_eq!(
        Error::NoDirectoryName.description(),
        "Root directories cannot end in '..'"
    );
}

#[test]
fn upsert_then_read() {
    let mut tree = FileTree::new(path(&["root"])).unwrap();
    tree.apply_upsert(&path(&["src"]), Entry::new_dir(s("src"))).unwrap();
    tree.apply_upsert(&path(&["src", "main"]), Entry::new_file(s("main"))).unwrap();

    let children = tree.root.children().unwrap();
    assert_eq!(children.len(), 1);
    let src = &children[0];
    assert_eq!(src.name(), "src");
    assert!(src.is_dir());
    let src_children = src.children().unwrap();
    assert_eq!(src_children.len(), 1);
    assert_eq!(src_children[0].name(), "main");
    assert!(!src_children[0].is_dir());
}

#[test]
fn upsert_replaces_existing_entry_wholesale() {
    let mut tree = FileTree::new(path(&["root"])).unwrap();
    tree.apply_upsert(&path(&["a"]), Entry::new_dir(s("a"))).unwrap();
    tree.apply_upsert(&path(&["a", "b"]), Entry::new_file(s("b"))).unwrap();
    // replace the whole directory `a` with a file of the same name
    tree.apply_upsert(&path(&["a"]), Entry::new_file(s("a"))).unwrap();
    let children = tree.root.children().unwrap();
    assert_eq!(children.len(), 1);
    assert_eq!(children[0].name(), "a");
    assert!(!children[0].is_dir());
}

#[test]
fn upsert_missing_intermediate_fails_with_path_not_found() {
    let mut tree = FileTree::new(path(&["root"])).unwrap();
    let r = tree.apply_upsert(&path(&["x", "y"]), Entry::new_file(s("y")));
    assert_eq!(r.unwrap_err(), MutationError::PathNotFound);
    assert!(child_names(&tree.root).is_empty());
}

#[test]
fn out_of_order_descent_fails_and_leaves_tree_unchanged() {
    let mut tree = FileTree::new(path(&["root"])).unwrap();
    tree.apply_upsert(&path(&["a"]), Entry::new_file(s("a"))).unwrap();
    let r = tree.apply_upsert(&path(&["a", "x"]), Entry::new_file(s("x")));
    assert_eq!(r.unwrap_err(), MutationError::InvalidIntermediate);
    let names = child_names(&tree.root);
    assert_eq!(names, vec![s("a")]);
    assert!(!tree.root.children().unwrap()[0].is_dir());
    assert!(tree.root.children().unwrap()[0].children().is_err());
}

#[test]
fn replace_at_root() {
    let mut tree = FileTree::new(path(&["root"])).unwrap();
    tree.apply_upsert(&path(&["a"]), Entry::new_dir(s("a"))).unwrap();
    tree.apply_upsert(&Vec::new(), Entry::new_dir(s("root2"))).unwrap();
    assert_eq!(tree.root.name(), "root2");
    assert!(tree.root.is_dir());
    assert!(child_names(&tree.root).is_empty());
}

#[test]
fn delete_removes_exactly_one_entry_and_is_idempotent() {
    let mut tree = FileTree::new(path(&["root"])).unwrap();
    tree.apply_upsert(&path(&["a"]), Entry::new_dir(s("a"))).unwrap();
    tree.apply_upsert(&path(&["a", "b"]), Entry::new_file(s("b"))).unwrap();
    tree.apply_upsert(&path(&["a", "c"]), Entry::new_file(s("c"))).unwrap();

    tree.apply_delete(&path(&["a", "b"])).unwrap();
    let a = &tree.root.children().unwrap()[0];
    assert_eq!(child_names(a), vec![s("c")]);

    let again = tree.apply_delete(&path(&["a", "b"]));
    assert_eq!(again.unwrap_err(), MutationError::PathNotFound);
    let a = &tree.root.children().unwrap()[0];
    assert_eq!(child_names(a), vec![s("c")]);
}

#[test]
fn delete_of_single_component_path_removes_direct_child() {
    let mut tree = FileTree::new(path(&["root"])).unwrap();
    tree.apply_upsert(&path(&["a"]), Entry::new_file(s("a"))).unwrap();
    tree.apply_delete(&path(&["a"])).unwrap();
    assert!(child_names(&tree.root).is_empty());
    assert_eq!(
        tree.apply_delete(&path(&["a"])).unwrap_err(),
        MutationError::PathNotFound
    );
}

#[test]
fn delete_with_empty_path_fails_with_path_not_found() {
    let mut tree = FileTree::new(path(&["root"])).unwrap();
    assert_eq!(
        tree.apply_delete(&Vec::new()).unwrap_err(),
        MutationError::PathNotFound
    );
}

#[test]
fn delete_through_file_fails_with_invalid_intermediate() {
    let mut tree = FileTree::new(path(&["root"])).unwrap();
    tree.apply_upsert(&path(&["a"]), Entry::new_file(s("a"))).unwrap();
    assert_eq!(
        tree.apply_delete(&path(&["a", "b"])).unwrap_err(),
        MutationError::InvalidIntermediate
    );
    assert_eq!(child_names(&tree.root), vec![s("a")]);
}

#[test]
fn apply_event_dispatches_upsert_and_delete() {
    let mut tree = FileTree::new(path(&["root"])).unwrap();
    tree.apply_event(&path(&["a"]), Some(Entry::new_file(s("a")))).unwrap();
    assert_eq!(child_names(&tree.root), vec![s("a")]);
    tree.apply_event(&path(&["a"]), None).unwrap();
    assert!(child_names(&tree.root).is_empty());
}

#[test]
fn tree_stays_well_formed_under_event_stream() {
    let mut tree = FileTree::new(path(&["root"])).unwrap();
    let events: Vec<(Vec<String>, Option<Entry>)> = vec![
        (path(&["src"]), Some(Entry::new_dir(s("src")))),
        (path(&["src", "lib"]), Some(Entry::new_file(s("lib")))),
        (path(&["src", "bin"]), Some(Entry::new_dir(s("bin")))),
        (path(&["src", "bin", "cli"]), Some(Entry::new_file(s("cli")))),
        (path(&["docs"]), Some(Entry::new_dir(s("docs")))),
        (path(&["src", "lib"]), Some(Entry::new_file(s("lib")))),
        (path(&["src", "bin"]), None),
        (path(&["src", "bin"]), None),
        (path(&["missing", "deep"]), Some(Entry::new_file(s("deep")))),
    ];
    for (p, event) in events {
        let _ = tree.apply_event(&p, event);
        assert!(tree.root.is_well_formed());
    }
    assert_eq!(child_names(&tree.root), vec![s("src"), s("docs")]);
}

#[test]
fn push_child_and_children_report_contract_errors_on_files() {
    let mut file = Entry::new_file(s("f"));
    assert_eq!(
        file.push_child(Entry::new_file(s("x"))).unwrap_err(),
        ContractError::ChildrenOfFile
    );
    assert!(file.children().is_err());

    let mut dir = Entry::new_dir(s("d"));
    dir.push_child(Entry::new_file(s("x"))).unwrap();
    assert_eq!(child_names(&dir), vec![s("x")]);
}

#[test]
fn is_well_formed_detects_duplicate_names() {
    let mut dir = Entry::new_dir(s("d"));
    dir.push_child(Entry::new_file(s("x"))).unwrap();
    dir.push_child(Entry::new_file(s("x"))).unwrap();
    assert!(!dir.is_well_formed());

    let mut parent = Entry::new_dir(s("p"));
    parent.push_child(dir).unwrap();
    assert!(!parent.is_well_formed());
}
