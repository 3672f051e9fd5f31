use std::path::Path;

use mq_mount::watch::{is_relevant, mount_path_for, Change};

/// The components of a path.
fn parts(path: &Path) -> Vec<Vec<u8>> {
    path.components().map(|c| c.as_os_str().as_encoded_bytes().to_vec()).collect()
}

#[test]
fn maps_a_direct_child_to_a_mount_path() {
    let root = Path::new("/docs");
    let path = root.join("a.md");
    let base = vec!["docs".to_string()];
    assert_eq!(
        mount_path_for(&parts(root), &base, &parts(&path)),
        Some(vec!["docs".to_string(), "a".to_string()])
    );
}

#[test]
fn maps_a_nested_child_through_intermediate_directories() {
    let root = Path::new("/docs");
    let path = root.join("guide/a.md");
    let base = vec!["docs".to_string()];
    assert_eq!(
        mount_path_for(&parts(root), &base, &parts(&path)),
        Some(vec!["docs".to_string(), "guide".to_string(), "a".to_string()])
    );
}

#[test]
fn rejects_non_markdown_files() {
    let root = Path::new("/docs");
    let path = root.join("notes.txt");
    assert_eq!(mount_path_for(&parts(root), &[], &parts(&path)), None);
}

#[test]
fn rejects_dotfiles_and_dot_directories() {
    let root = Path::new("/docs");
    assert_eq!(mount_path_for(&parts(root), &[], &parts(&root.join(".hidden.md"))), None);
    assert_eq!(mount_path_for(&parts(root), &[], &parts(&root.join(".git/a.md"))), None);
}

#[test]
fn rejects_a_path_outside_the_watch_root() {
    let root = Path::new("/docs");
    let path = Path::new("/other/a.md");
    assert_eq!(mount_path_for(&parts(root), &[], &parts(path)), None);
}

#[test]
fn rejects_the_watch_root_itself_and_names_that_are_no_text() {
    let root = parts(Path::new("/docs.md"));
    assert_eq!(mount_path_for(&root, &[], &root), None);
    let mut odd = root.clone();
    odd.push(b"\xff.md".to_vec());
    assert_eq!(mount_path_for(&root, &[], &odd), None);
}

#[test]
fn only_changes_that_may_add_a_file_are_relevant() {
    assert!(is_relevant(Change::Created));
    assert!(is_relevant(Change::DataModified));
    assert!(is_relevant(Change::RenamedTo));
    assert!(!is_relevant(Change::Other));
}
