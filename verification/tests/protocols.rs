use mq_mount::document::CONTENT_FILE;
use mq_mount::fs::MqFs;
use mq_mount::inode::{InodeTable, ROOT_INO};
use mq_mount::mount::Source;
use mq_mount::nfs::{mode, nfs_mount_opts, nfs_time, NfsAttr};
use mq_mount::vfs::{DirEntryOwned, FileAttr, FileKind, MountFs, Timestamp, VfsError};
use mq_mount::winfsp::{
    creates_directory, entry_info, file_attributes, filetime, plan_listing, EntryInfo, Listing,
};

const NOW: Timestamp = Timestamp { secs: 1_000, nanos: 5 };

fn mounted(text: &str) -> MqFs {
    let names = vec!["doc".to_string()];
    let source = Source::open(b"/doc.md".to_vec(), names, text.to_string(), None).unwrap();
    MqFs::new(vec![source], false, false, 0, 0)
}

/// The names that any file system shows in its root.
fn root_names<T: MountFs>(fs: &T) -> Vec<String> {
    let (entries, end) = fs.readdir(fs.root_ino(), 0, 10, NOW).unwrap();
    assert!(end);
    entries.into_iter().map(|e| e.name).collect()
}

#[test]
fn a_mount_serves_any_protocol() {
    let mut fs = mounted("# A\n\nbody\n");
    assert_eq!(root_names(&fs), vec!["doc"]);
    let doc = MountFs::lookup(&fs, ROOT_INO, "doc").unwrap();
    assert_eq!(MountFs::parent_of(&fs, doc), Ok(ROOT_INO));
    let ino = MountFs::create_exclusive(&mut fs, doc, "tmp").unwrap();
    assert_eq!(MountFs::getattr(&fs, ino, NOW).map(|a| a.size), Ok(0));
    assert_eq!(MountFs::read(&fs, ino, 0, 10), Ok((Vec::new(), true)));
    assert!(!MountFs::readonly(&fs));
}

#[test]
fn an_inode_table_starts_empty() {
    let table = InodeTable::default();
    assert_eq!(table.root_dir_ino(), 0);
    assert!(table.entries().is_empty());
}

#[test]
fn permission_bits_follow_kind_and_options() {
    assert_eq!(mode(FileKind::Dir, false, false), 0o755);
    assert_eq!(mode(FileKind::Dir, true, false), 0o755);
    assert_eq!(mode(FileKind::Dir, true, true), 0o777);
    assert_eq!(mode(FileKind::File, true, true), 0o444);
    assert_eq!(mode(FileKind::File, false, true), 0o666);
    assert_eq!(mode(FileKind::File, false, false), 0o644);
}

#[test]
fn times_are_seconds_and_nanoseconds_in_32_bits() {
    assert_eq!(nfs_time(Timestamp { secs: 7, nanos: 9 }), (7, 9));
    assert_eq!(nfs_time(Timestamp { secs: -1, nanos: 9 }), (0, 0));
    assert_eq!(nfs_time(Timestamp { secs: 0x1_0000_0003, nanos: 0 }), (3, 0));
}

#[test]
fn the_server_reports_owner_size_and_time() {
    let names = vec!["doc".to_string()];
    let source = Source::open(b"/doc.md".to_vec(), names, "# A\n\nbody\n".to_string(), None).unwrap();
    let fs = MqFs::new(vec![source], true, true, 501, 20);
    let content = fs.resolve("\\doc\\A\\content.md").unwrap();
    let attr = fs.getattr(content, NOW).unwrap();
    assert_eq!(
        fs.nfs_attr(attr),
        NfsAttr {
            kind: FileKind::File,
            mode: 0o444,
            nlink: 1,
            uid: 501,
            gid: 20,
            size: 5,
            used: 5,
            fileid: content,
            seconds: 1_000,
            nanoseconds: 5,
        }
    );
    let root = fs.getattr(ROOT_INO, NOW).unwrap();
    assert_eq!((fs.nfs_attr(root).mode, fs.nfs_attr(root).size), (0o777, 0));
}

#[test]
fn file_information_holds_one_time_and_one_size() {
    let attr = FileAttr { ino: 3, kind: FileKind::File, size: 7, mtime: Timestamp { secs: 1, nanos: 0 } };
    let time = 116_444_736_010_000_000;
    assert_eq!(
        entry_info(&attr, true),
        EntryInfo {
            file_attributes: 0x81,
            file_size: 7,
            allocation_size: 7,
            creation_time: time,
            last_access_time: time,
            last_write_time: time,
            change_time: time,
        }
    );
}

#[test]
fn mount_options_name_port_and_caching() {
    assert_eq!(
        nfs_mount_opts("nolock", 2049, true),
        "actimeo=30,nolock,vers=3,tcp,port=2049,mountport=2049,ro"
    );
    assert_eq!(nfs_mount_opts("nolocks", 0, false), "noac,nolocks,vers=3,tcp,port=0,mountport=0");
}

#[test]
fn dots_name_the_directory_and_the_one_above() {
    let fs = mounted("# A\n\n## B\n");
    let doc = fs.lookup(ROOT_INO, "doc").unwrap();
    let a = fs.lookup(doc, "A").unwrap();
    assert_eq!(fs.lookup_with_dots(a, "."), Ok(a));
    assert_eq!(fs.lookup_with_dots(a, ".."), Ok(doc));
    assert_eq!(fs.lookup_with_dots(a, "B"), fs.lookup(a, "B"));
    assert_eq!(fs.lookup_with_dots(a, "..."), Err(VfsError::NotFound));
    let content = fs.lookup(a, CONTENT_FILE).unwrap();
    assert_eq!(fs.lookup_with_dots(content, ".."), Err(VfsError::NotDir));
}

#[test]
fn file_times_count_from_1601() {
    assert_eq!(filetime(Timestamp { secs: 0, nanos: 0 }), 116_444_736_000_000_000);
    assert_eq!(filetime(Timestamp { secs: 1, nanos: 250 }), 116_444_736_010_000_002);
    assert_eq!(filetime(Timestamp { secs: -5, nanos: 0 }), 116_444_736_000_000_000);
}

#[test]
fn file_attributes_tell_kind_and_protection() {
    assert_eq!(file_attributes(FileKind::Dir, false), 0x10);
    assert_eq!(file_attributes(FileKind::Dir, true), 0x11);
    assert_eq!(file_attributes(FileKind::File, false), 0x80);
    assert_eq!(file_attributes(FileKind::File, true), 0x81);
}

#[test]
fn the_lowest_option_bit_asks_for_a_directory() {
    assert!(creates_directory(1));
    assert!(creates_directory(0x21));
    assert!(!creates_directory(0x20));
    assert!(!creates_directory(0));
}

#[test]
fn paths_are_walked_component_by_component() {
    let fs = mounted("# A\n\n## B\n");
    let doc = fs.lookup(ROOT_INO, "doc").unwrap();
    let a = fs.lookup(doc, "A").unwrap();
    let b = fs.lookup(a, "B").unwrap();
    assert_eq!(fs.resolve("\\"), Ok(ROOT_INO));
    assert_eq!(fs.resolve(""), Ok(ROOT_INO));
    assert_eq!(fs.resolve("\\doc\\A\\B"), Ok(b));
    assert_eq!(fs.resolve("\\\\doc\\\\A\\"), Ok(a));
    assert_eq!(fs.resolve("\\doc\\X\\B"), Err(VfsError::NotFound));
    assert_eq!(fs.resolve_parent_and_name("\\doc\\A\\New"), Ok((a, "New".to_string())));
    assert_eq!(fs.resolve_parent_and_name("\\doc"), Ok((ROOT_INO, "doc".to_string())));
    assert_eq!(fs.resolve_parent_and_name("\\"), Ok((ROOT_INO, String::new())));
    assert_eq!(fs.resolve_parent_and_name("doc\\A\\"), Ok((a, String::new())));
    assert_eq!(fs.resolve_parent_and_name("\\x\\y"), Err(VfsError::NotFound));
}

#[test]
fn writes_start_at_the_end_on_request() {
    let fs = mounted("# A\n\nbody\n");
    let content = fs.resolve("\\doc\\A\\content.md").unwrap();
    assert_eq!(fs.write_offset(content, 3, false, NOW), Ok(3));
    assert_eq!(fs.write_offset(content, 3, true, NOW), Ok(5));
    assert_eq!(fs.write_offset(9_999, 3, true, NOW), Err(VfsError::NotFound));
    assert_eq!(fs.write_offset(9_999, 3, false, NOW), Ok(3));
}

#[test]
fn listings_go_on_behind_the_last_name() {
    let entries: Vec<DirEntryOwned> = ["x", "y"]
        .iter()
        .map(|name| DirEntryOwned {
            ino: 2,
            name: name.to_string(),
            attr: FileAttr { ino: 2, kind: FileKind::Dir, size: 0, mtime: NOW },
        })
        .collect();
    let all = Listing { dot: true, dot_dot: true, start: 0 };
    assert_eq!(plan_listing(false, None, &entries), all);
    assert_eq!(plan_listing(true, None, &entries), Listing { dot: false, dot_dot: false, start: 0 });
    assert_eq!(plan_listing(false, Some("."), &entries), Listing { dot: false, ..all });
    assert_eq!(plan_listing(false, Some(".."), &entries), Listing { dot: false, dot_dot: false, start: 0 });
    assert_eq!(plan_listing(false, Some("x"), &entries), Listing { dot: false, dot_dot: false, start: 1 });
    assert_eq!(plan_listing(false, Some("z"), &entries), Listing { dot: false, dot_dot: false, start: 2 });
}
