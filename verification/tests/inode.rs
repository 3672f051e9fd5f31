use mq_mount::document::Document;
use mq_mount::inode::{InodeTable, MountPath, ROOT_INO};
use mq_mount::section::{FrontMatterKind, SectionTree};

fn synced(table: &mut InodeTable, next_ino: &mut u64, src: &str) -> SectionTree {
    let doc = Document::parse(src).unwrap();
    let tree = doc.tree();
    table.sync(next_ino, &tree);
    tree
}

#[test]
fn root_dir_ino_is_stable_across_resyncs() {
    let mut table = InodeTable::new();
    let mut next_ino = ROOT_INO + 1;
    synced(&mut table, &mut next_ino, "# A\n");
    let root_ino = table.ino_for(&MountPath::Dir(vec![])).unwrap();
    assert_eq!(table.root_dir_ino(), root_ino);

    synced(&mut table, &mut next_ino, "# A\n\n# B\n");
    assert_eq!(table.ino_for(&MountPath::Dir(vec![])), Some(root_ino));
    assert_eq!(table.root_dir_ino(), root_ino);
}

#[test]
fn unrelated_edit_keeps_existing_inos_stable() {
    let mut table = InodeTable::new();
    let mut next_ino = ROOT_INO + 1;
    synced(&mut table, &mut next_ino, "# A\n\nx\n\n# B\n\ny\n");
    let a_ino = table.ino_for(&MountPath::Dir(vec!["A".into()])).unwrap();
    let b_ino = table.ino_for(&MountPath::Dir(vec!["B".into()])).unwrap();

    synced(&mut table, &mut next_ino, "# A\n\nx changed\n\n# B\n\ny\n\n# C\n\nz\n");
    assert_eq!(table.ino_for(&MountPath::Dir(vec!["A".into()])), Some(a_ino));
    assert_eq!(table.ino_for(&MountPath::Dir(vec!["B".into()])), Some(b_ino));
    assert!(table.ino_for(&MountPath::Dir(vec!["C".into()])).is_some());
}

#[test]
fn rename_in_place_preserves_inode() {
    let mut table = InodeTable::new();
    let mut next_ino = ROOT_INO + 1;
    synced(&mut table, &mut next_ino, "# Old Name\n\nbody\n");
    let old_ino = table.ino_for(&MountPath::Dir(vec!["Old Name".into()])).unwrap();
    let old_content_ino = table.ino_for(&MountPath::Content(vec!["Old Name".into()])).unwrap();

    synced(&mut table, &mut next_ino, "# New Name\n\nbody\n");
    assert_eq!(table.ino_for(&MountPath::Dir(vec!["Old Name".into()])), None);
    assert_eq!(table.ino_for(&MountPath::Dir(vec!["New Name".into()])), Some(old_ino));
    assert_eq!(
        table.ino_for(&MountPath::Content(vec!["New Name".into()])),
        Some(old_content_ino)
    );
}

#[test]
fn removing_a_sibling_does_not_disturb_the_others() {
    let mut table = InodeTable::new();
    let mut next_ino = ROOT_INO + 1;
    synced(&mut table, &mut next_ino, "# A\n\n# B\n\n# C\n");
    let a_ino = table.ino_for(&MountPath::Dir(vec!["A".into()])).unwrap();
    let c_ino = table.ino_for(&MountPath::Dir(vec!["C".into()])).unwrap();

    synced(&mut table, &mut next_ino, "# A\n\n# C\n");
    assert_eq!(table.ino_for(&MountPath::Dir(vec!["A".into()])), Some(a_ino));
    assert_eq!(table.ino_for(&MountPath::Dir(vec!["C".into()])), Some(c_ino));
    assert_eq!(table.ino_for(&MountPath::Dir(vec!["B".into()])), None);
}

#[test]
fn removed_inode_is_never_reused_even_if_the_name_comes_back() {
    let mut table = InodeTable::new();
    let mut next_ino = ROOT_INO + 1;
    synced(&mut table, &mut next_ino, "# A\n\n# B\n\n# C\n");
    let original_b_ino = table.ino_for(&MountPath::Dir(vec!["B".into()])).unwrap();

    synced(&mut table, &mut next_ino, "# A\n\n# C\n");
    synced(&mut table, &mut next_ino, "# A\n\n# B\n\n# C\n");

    let new_b_ino = table.ino_for(&MountPath::Dir(vec!["B".into()])).unwrap();
    assert_ne!(
        original_b_ino, new_b_ino,
        "a re-added section must not reuse a retired inode"
    );
}

#[test]
fn frontmatter_ino_persists_while_present_and_is_retired_when_removed() {
    let mut table = InodeTable::new();
    let mut next_ino = ROOT_INO + 1;
    synced(&mut table, &mut next_ino, "---\nkey: 1\n---\n# A\n");
    let fm_ino = table.ino_for(&MountPath::FrontMatter(FrontMatterKind::Yaml)).unwrap();

    synced(&mut table, &mut next_ino, "---\nkey: 2\n---\n# A\n");
    assert_eq!(
        table.ino_for(&MountPath::FrontMatter(FrontMatterKind::Yaml)),
        Some(fm_ino)
    );

    synced(&mut table, &mut next_ino, "# A\n");
    assert_eq!(table.ino_for(&MountPath::FrontMatter(FrontMatterKind::Yaml)), None);

    synced(&mut table, &mut next_ino, "---\nkey: 3\n---\n# A\n");
    let new_fm_ino = table.ino_for(&MountPath::FrontMatter(FrontMatterKind::Yaml)).unwrap();
    assert_ne!(fm_ino, new_fm_ino);
}
