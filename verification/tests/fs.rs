use std::collections::HashMap;

use mq_mount::document::{MutationError, CONTENT_FILE};
use mq_mount::fs::{frontmatter_kind_for_name, map_mutation_error, paginate, MqFs, SavePlan, Step};
use mq_mount::inode::ROOT_INO;
use mq_mount::mount::Source;
use mq_mount::section::FrontMatterKind;
use mq_mount::state::Reply;
use mq_mount::vfs::{DirEntryOwned, FileAttr, FileKind, Ino, Timestamp, VfsError};

/// The files on a disk that lives in memory, with the times at which they were last changed.
struct Disk {
    files: HashMap<Vec<u8>, (String, Timestamp)>,
    clock: i64,
}

impl Disk {
    fn new() -> Disk {
        Disk { files: HashMap::new(), clock: 1_000 }
    }

    fn now(&self) -> Timestamp {
        Timestamp { secs: self.clock, nanos: 0 }
    }

    fn put(&mut self, path: &str, text: &str) {
        self.clock += 1;
        let at = self.now();
        self.files.insert(path.as_bytes().to_vec(), (text.to_string(), at));
    }

    fn text(&self, path: &str) -> String {
        self.files[path.as_bytes()].0.clone()
    }

    fn mtime(&self, path: &[u8]) -> Option<Timestamp> {
        self.files.get(path).map(|(_, at)| *at)
    }

    fn source(&self, path: &str, mount_path: &[&str]) -> Source {
        let names = mount_path.iter().map(|n| n.to_string()).collect();
        let bytes = path.as_bytes().to_vec();
        let mtime = self.mtime(&bytes);
        Source::open(bytes, names, self.text(path), mtime).unwrap()
    }
}

/// A mount whose source files lie on a [`Disk`].
struct Mounted {
    fs: MqFs,
    disk: Disk,
}

impl Mounted {
    fn new(disk: Disk, entries: &[(&str, &[&str])], readonly: bool) -> Mounted {
        let sources = entries.iter().map(|(path, names)| disk.source(path, names)).collect();
        Mounted { fs: MqFs::new(sources, readonly, false, 501, 20), disk }
    }

    /// Carries out the saves that a request asks for.
    fn run(&mut self, first: Step) -> Result<Reply, VfsError> {
        let mut step = first;
        loop {
            match step {
                Step::Finished(reply) => return reply,
                Step::Save { file, next } => {
                    let path = self.fs.source_path(file).clone();
                    match self.fs.plan_save(file, self.disk.mtime(&path)) {
                        SavePlan::UpToDate => {}
                        SavePlan::Conflict => return Err(VfsError::Conflict),
                        SavePlan::Write(text) => {
                            let name = String::from_utf8(path.clone()).unwrap();
                            self.disk.put(&name, &text);
                            self.fs.record_saved(file, text, self.disk.mtime(&path));
                        }
                    }
                    step = self.fs.resume(file, next, self.disk.now());
                }
            }
        }
    }

    fn lookup(&self, parent: Ino, name: &str) -> Result<Ino, VfsError> {
        self.fs.lookup(parent, name)
    }

    fn lookup_path(&self, from: Ino, path: &[&str]) -> Ino {
        let mut ino = from;
        for part in path {
            ino = self.fs.lookup(ino, part).unwrap();
        }
        ino
    }

    fn attr(reply: Reply) -> FileAttr {
        match reply {
            Reply::Attr(attr) => attr,
            other => panic!("expected attributes, got {other:?}"),
        }
    }

    fn truncate(&mut self, ino: Ino) -> Result<FileAttr, VfsError> {
        let step = self.fs.truncate(ino, self.disk.now());
        self.run(step).map(Mounted::attr)
    }

    fn set_size(&mut self, ino: Ino, size: Option<u64>) -> Result<FileAttr, VfsError> {
        let step = self.fs.set_size(ino, size, self.disk.now());
        self.run(step).map(Mounted::attr)
    }

    fn write(&mut self, ino: Ino, offset: u64, data: &[u8]) -> Result<FileAttr, VfsError> {
        let step = self.fs.write(ino, offset, data, self.disk.now());
        self.run(step).map(Mounted::attr)
    }

    fn read(&self, ino: Ino) -> Result<(Vec<u8>, bool), VfsError> {
        self.fs.read(ino, 0, 4096)
    }

    fn create(&mut self, parent: Ino, name: &str) -> Result<(Ino, FileAttr), VfsError> {
        self.fs.create(parent, name, self.disk.now())
    }

    fn mkdir(&mut self, parent: Ino, name: &str) -> Result<(Ino, FileAttr), VfsError> {
        let step = self.fs.mkdir(parent, name, self.disk.now());
        self.run(step).map(|reply| match reply {
            Reply::Entry(ino, attr) => (ino, attr),
            other => panic!("expected an entry, got {other:?}"),
        })
    }

    fn remove(&mut self, parent: Ino, name: &str) -> Result<(), VfsError> {
        let step = self.fs.remove(parent, name, self.disk.now());
        self.run(step).map(|reply| assert_eq!(reply, Reply::Done))
    }

    fn rename(&mut self, from: Ino, name: &str, to: Ino, new: &str) -> Result<(), VfsError> {
        let step = self.fs.rename(from, name, to, new, self.disk.now());
        self.run(step).map(|reply| assert_eq!(reply, Reply::Done))
    }

    fn readdir(&self, ino: Ino, after: Ino, max: usize) -> Result<(Vec<DirEntryOwned>, bool), VfsError> {
        self.fs.readdir(ino, after, max, self.disk.now())
    }

    fn names(&self, ino: Ino) -> Vec<String> {
        let (entries, end) = self.readdir(ino, 0, 100).unwrap();
        assert!(end);
        entries.into_iter().map(|e| e.name).collect()
    }

    fn doc(&self) -> String {
        self.disk.text("/doc.md")
    }
}

/// Mounts `content` as a single file and returns the mount and the number of that file's own
/// top-level directory.
fn mounted(content: &str) -> (Mounted, Ino) {
    mounted_with(content, false)
}

fn mounted_with(content: &str, readonly: bool) -> (Mounted, Ino) {
    let mut disk = Disk::new();
    disk.put("/doc.md", content);
    let m = Mounted::new(disk, &[("/doc.md", &["doc"])], readonly);
    let (entries, _) = m.readdir(m.fs.root_ino(), 0, 100).unwrap();
    let file_ino = entries[0].ino;
    (m, file_ino)
}

#[test]
fn write_then_read_round_trips_through_content_md() {
    let (mut m, file_ino) = mounted("# Title\n\noriginal body\n");
    let content_ino = m.lookup_path(file_ino, &["Title", CONTENT_FILE]);

    // `write` only overwrites the byte range it's given, like a real
    // write(2) — a whole-file save (shell redirection, an editor) always
    // truncates first, same as O_TRUNC would.
    m.truncate(content_ino).unwrap();
    m.write(content_ino, 0, b"new body\n").unwrap();
    let (bytes, eof) = m.fs.read(content_ino, 0, 1024).unwrap();
    assert_eq!(bytes, b"new body\n");
    assert!(eof);

    let persisted = m.doc();
    assert!(persisted.contains("new body"), "persisted doc was: {persisted}");
}

#[test]
fn saving_a_multi_paragraph_section_keeps_the_blank_lines_between_paragraphs() {
    let (mut m, file_ino) = mounted("# Title\n\npara one\n\npara two\n\npara three\n");
    let content_ino = m.lookup_path(file_ino, &["Title", CONTENT_FILE]);

    // Editor-style whole-file save: read the body back and write it unchanged.
    let (bytes, _) = m.fs.read(content_ino, 0, 4096).unwrap();
    m.truncate(content_ino).unwrap();
    m.write(content_ino, 0, &bytes).unwrap();

    assert_eq!(m.doc(), "# Title\n\npara one\n\npara two\n\npara three\n");
}

#[test]
fn mkdir_adds_a_heading_visible_in_readdir_and_on_disk() {
    let (mut m, file_ino) = mounted("# Title\n\nbody\n");
    let title_ino = m.lookup(file_ino, "Title").unwrap();

    let (sub_ino, attr) = m.mkdir(title_ino, "Sub").unwrap();
    assert_eq!(attr.kind, FileKind::Dir);

    let (entries, _) = m.readdir(title_ino, 0, 100).unwrap();
    assert!(entries.iter().any(|e| e.ino == sub_ino && e.name == "Sub"));

    let persisted = m.doc();
    assert!(persisted.contains("Sub"), "persisted doc was: {persisted}");
}

#[test]
fn remove_rejects_nonempty_directory() {
    let (mut m, file_ino) = mounted("# A\n\n## B\n\nbody\n");

    let err = m.remove(file_ino, "A").unwrap_err();
    assert!(matches!(err, VfsError::NotEmpty));
}

#[test]
fn remove_deletes_an_empty_heading() {
    let (mut m, file_ino) = mounted("# A\n\n# B\n");
    m.remove(file_ino, "A").unwrap();
    assert!(matches!(m.lookup(file_ino, "A"), Err(VfsError::NotFound)));
    assert!(m.lookup(file_ino, "B").is_ok());
}

#[test]
fn rename_renames_a_heading_and_persists() {
    let (mut m, file_ino) = mounted("# Old\n\nbody\n");
    m.rename(file_ino, "Old", file_ino, "New").unwrap();

    assert!(matches!(m.lookup(file_ino, "Old"), Err(VfsError::NotFound)));
    assert!(m.lookup(file_ino, "New").is_ok());
    assert!(m.doc().contains("New"));
}

#[test]
fn rename_reparents_a_heading_to_a_different_parent_and_persists() {
    let (mut m, file_ino) = mounted("# A\n\nintro\n\n## B\n\nb body\n\n# C\n\nc body\n");
    let a_ino = m.lookup(file_ino, "A").unwrap();
    let c_ino = m.lookup(file_ino, "C").unwrap();

    m.rename(a_ino, "B", c_ino, "Moved").unwrap();

    assert!(matches!(m.lookup(a_ino, "B"), Err(VfsError::NotFound)));
    let moved_ino = m.lookup(c_ino, "Moved").unwrap();
    let content_ino = m.lookup(moved_ino, CONTENT_FILE).unwrap();
    let (bytes, _) = m.fs.read(content_ino, 0, 1024).unwrap();
    assert_eq!(bytes, b"b body\n");

    assert_eq!(m.doc(), "# A\n\nintro\n\n# C\n\nc body\n\n## Moved\n\nb body\n");
}

#[test]
fn rename_rejects_reparenting_across_different_mounted_files() {
    let mut disk = Disk::new();
    disk.put("/a.md", "# A\n\n## Sub\n\nbody\n");
    disk.put("/b.md", "# B\n\nbody\n");
    let mut m = Mounted::new(disk, &[("/a.md", &["a"]), ("/b.md", &["b"])], false);

    let a_root = m.lookup(ROOT_INO, "a").unwrap();
    let a_heading = m.lookup(a_root, "A").unwrap();
    let b_root = m.lookup(ROOT_INO, "b").unwrap();

    let err = m.rename(a_heading, "Sub", b_root, "Sub").unwrap_err();
    assert!(matches!(err, VfsError::Unsupported));
}

#[test]
fn atomic_save_via_scratch_rename_commits_content() {
    let (mut m, file_ino) = mounted("# Title\n\noriginal\n");
    let title_ino = m.lookup(file_ino, "Title").unwrap();

    let (tmp_ino, _attr) = m.create(title_ino, ".tmp").unwrap();
    m.write(tmp_ino, 0, b"saved via temp file\n").unwrap();
    m.rename(title_ino, ".tmp", title_ino, CONTENT_FILE).unwrap();

    let content_ino = m.lookup(title_ino, CONTENT_FILE).unwrap();
    let (bytes, _) = m.fs.read(content_ino, 0, 1024).unwrap();
    assert_eq!(bytes, b"saved via temp file\n");

    let persisted = m.doc();
    assert!(
        persisted.contains("saved via temp file"),
        "persisted doc was: {persisted}"
    );
}

#[test]
fn readonly_mount_rejects_every_mutation() {
    let (mut m, file_ino) = mounted_with("# Title\n\nbody\n", true);
    let title_ino = m.lookup(file_ino, "Title").unwrap();
    let content_ino = m.lookup(title_ino, CONTENT_FILE).unwrap();

    assert!(matches!(m.write(content_ino, 0, b"x"), Err(VfsError::ReadOnly)));
    assert!(matches!(m.create(title_ino, "x"), Err(VfsError::ReadOnly)));
    assert!(matches!(m.mkdir(title_ino, "Sub"), Err(VfsError::ReadOnly)));
    assert!(matches!(m.remove(title_ino, "content.md"), Err(VfsError::ReadOnly)));
    assert!(matches!(
        m.rename(file_ino, "Title", file_ino, "Renamed"),
        Err(VfsError::ReadOnly)
    ));
    assert!(matches!(m.truncate(content_ino), Err(VfsError::ReadOnly)));
    assert!(matches!(m.fs.create_exclusive(title_ino, "x"), Err(VfsError::ReadOnly)));
    assert_eq!(m.doc(), "# Title\n\nbody\n");
}

#[test]
fn truncate_clears_content() {
    let (mut m, file_ino) = mounted("# Title\n\nbody\n");
    let content_ino = m.lookup_path(file_ino, &["Title", CONTENT_FILE]);

    m.truncate(content_ino).unwrap();

    let (bytes, eof) = m.fs.read(content_ino, 0, 1024).unwrap();
    assert!(bytes.is_empty());
    assert!(eof);
    let persisted = m.doc();
    assert!(!persisted.contains("body"), "persisted doc was: {persisted}");
}

#[test]
fn write_refuses_to_overwrite_a_file_changed_externally_since_mount() {
    let (mut m, file_ino) = mounted("# Title\n\noriginal\n");
    let content_ino = m.lookup_path(file_ino, &["Title", CONTENT_FILE]);

    // Simulate an external edit, mtime pushed well past mount time.
    m.disk.clock += 3600;
    m.disk.put("/doc.md", "# Title\n\nexternal edit\n");

    let err = m.truncate(content_ino).unwrap_err();
    assert!(matches!(err, VfsError::Conflict));

    assert_eq!(
        m.doc(),
        "# Title\n\nexternal edit\n",
        "external edit must survive untouched, not be overwritten"
    );
}

#[test]
fn create_exclusive_rejects_an_existing_canonical_name() {
    let (mut m, file_ino) = mounted("# Title\n\nbody\n");
    let err = m.fs.create_exclusive(file_ino, CONTENT_FILE).unwrap_err();
    assert!(matches!(err, VfsError::Exists));
}

#[test]
fn root_directory_rejects_structural_mutations() {
    let (mut m, _file_ino) = mounted("# Title\n\nbody\n");
    assert!(matches!(m.mkdir(ROOT_INO, "x"), Err(VfsError::PermissionDenied)));
    assert!(matches!(m.remove(ROOT_INO, "x"), Err(VfsError::PermissionDenied)));
}

#[test]
fn readdir_pagination_visits_every_entry_exactly_once_with_max_entries_one() {
    let (m, file_ino) = mounted("# A\n\n# B\n\n# C\n\n# D\n");

    let mut seen = Vec::new();
    let mut cookie: Ino = 0;
    loop {
        let (page_entries, end) = m.readdir(file_ino, cookie, 1).unwrap();
        assert!(page_entries.len() <= 1);
        for e in &page_entries {
            seen.push(e.ino);
            cookie = e.ino;
        }
        if end {
            break;
        }
        if seen.len() > 20 {
            panic!("readdir pagination did not converge: {seen:?}");
        }
    }

    let mut unique = seen.clone();
    unique.sort_unstable();
    unique.dedup();
    assert_eq!(seen.len(), unique.len(), "pagination revisited an entry: {seen:?}");
    // content.md + A, B, C, D
    assert_eq!(seen.len(), 5);
}

#[test]
fn nested_mount_paths_create_intermediate_directories() {
    let mut disk = Disk::new();
    disk.put("/a.md", "# A\n\nbody\n");
    disk.put("/b.md", "# B\n\nbody\n");

    let mut m = Mounted::new(
        disk,
        &[("/a.md", &["docs", "guide", "a"]), ("/b.md", &["docs", "api", "b"])],
        false,
    );

    let docs_ino = m.lookup(ROOT_INO, "docs").unwrap();
    let guide_ino = m.lookup(docs_ino, "guide").unwrap();
    let api_ino = m.lookup(docs_ino, "api").unwrap();
    let a_ino = m.lookup(guide_ino, "a").unwrap();
    let b_ino = m.lookup(api_ino, "b").unwrap();

    // both leaves resolve down to their own heading trees
    assert!(m.lookup(a_ino, "A").is_ok());
    assert!(m.lookup(b_ino, "B").is_ok());

    // .. climbs back up through the synthetic directories to the root
    assert_eq!(m.fs.parent_of(guide_ino).unwrap(), docs_ino);
    assert_eq!(m.fs.parent_of(docs_ino).unwrap(), ROOT_INO);
    assert_eq!(m.fs.parent_of(a_ino).unwrap(), guide_ino);

    // synthetic directories reject structural mutations, same as root
    assert!(matches!(m.mkdir(docs_ino, "x"), Err(VfsError::PermissionDenied)));

    let mut names = m.names(docs_ino);
    names.sort();
    assert_eq!(names, vec!["api", "guide"]);
}

#[test]
fn colliding_mount_paths_get_suffixed_like_sibling_headings() {
    let mut disk = Disk::new();
    disk.put("/a.md", "# A\n");
    disk.put("/b.md", "# B\n");

    let m = Mounted::new(disk, &[("/a.md", &["doc"]), ("/b.md", &["doc"])], false);

    assert!(m.lookup(ROOT_INO, "doc").is_ok());
    assert!(m.lookup(ROOT_INO, "doc-2").is_ok());
}

#[test]
fn frontmatter_write_then_read_round_trips() {
    let (mut m, file_ino) = mounted("---\nkey: 1\n---\n# Title\n\nbody\n");
    let fm_ino = m.lookup(file_ino, "_frontmatter.yaml").unwrap();

    m.write(fm_ino, 0, b"key: 2").unwrap();
    let (bytes, _) = m.fs.read(fm_ino, 0, 1024).unwrap();
    assert_eq!(bytes, b"key: 2");

    let persisted = m.doc();
    assert!(persisted.contains("key: 2"), "persisted doc was: {persisted}");
}

#[test]
fn watch_add_mounts_a_new_top_level_file() {
    let (mut m, _file_ino) = mounted("# Doc\n\nbody\n");
    m.disk.put("/extra.md", "# Extra\n\nnew body\n");

    let source = m.disk.source("/extra.md", &["extra"]);
    m.fs.watch_add(source);

    let extra_ino = m.lookup(ROOT_INO, "extra").unwrap();
    let heading_ino = m.lookup(extra_ino, "Extra").unwrap();
    let content_ino = m.lookup(heading_ino, CONTENT_FILE).unwrap();
    let (bytes, _) = m.fs.read(content_ino, 0, 1024).unwrap();
    assert_eq!(bytes, b"new body\n");
}

#[test]
fn watch_add_creates_missing_intermediate_directories() {
    let (mut m, _file_ino) = mounted("# Doc\n\nbody\n");
    m.disk.put("/docs/guide/a.md", "# A\n");

    let source = m.disk.source("/docs/guide/a.md", &["docs", "guide", "a"]);
    m.fs.watch_add(source);

    let docs_ino = m.lookup(ROOT_INO, "docs").unwrap();
    let guide_ino = m.lookup(docs_ino, "guide").unwrap();
    assert!(m.lookup(guide_ino, "a").is_ok());
}

#[test]
fn watch_add_reuses_an_existing_intermediate_directory() {
    let mut disk = Disk::new();
    disk.put("/docs/a.md", "# A\n");
    let mut m = Mounted::new(disk, &[("/docs/a.md", &["docs", "a"])], false);
    let docs_ino_before = m.lookup(ROOT_INO, "docs").unwrap();

    m.disk.put("/docs/b.md", "# B\n");
    let source = m.disk.source("/docs/b.md", &["docs", "b"]);
    m.fs.watch_add(source);

    let docs_ino_after = m.lookup(ROOT_INO, "docs").unwrap();
    assert_eq!(
        docs_ino_before, docs_ino_after,
        "must reuse the existing docs/ directory"
    );
    assert!(m.lookup(docs_ino_after, "a").is_ok());
    assert!(m.lookup(docs_ino_after, "b").is_ok());
}

#[test]
fn watch_add_ignores_a_path_already_mounted() {
    let (mut m, file_ino) = mounted("# Doc\n\nbody\n");

    let source = m.disk.source("/doc.md", &["doc-2"]);
    m.fs.watch_add(source);

    assert!(matches!(m.lookup(ROOT_INO, "doc-2"), Err(VfsError::NotFound)));
    assert!(m.lookup(file_ino, "Doc").is_ok());
}

#[test]
fn a_new_mount_reports_what_it_was_made_with() {
    let mut disk = Disk::new();
    disk.put("/doc.md", "# A\n");
    let fs = MqFs::new(vec![disk.source("/doc.md", &["doc"])], true, true, 501, 20);
    assert_eq!(fs.root_ino(), ROOT_INO);
    assert!(fs.readonly());
    assert!(fs.allow_other());
    assert_eq!((fs.uid(), fs.gid()), (501, 20));
}

#[test]
fn a_source_that_hides_sections_makes_the_mount_read_only() {
    let mut disk = Disk::new();
    disk.put("/doc.md", "# A\n\n# B\n");
    let mut source = disk.source("/doc.md", &["doc"]);
    source.shown = Some(vec![false, true]);
    let fs = MqFs::new(vec![source], false, false, 0, 0);
    assert!(fs.readonly());
    let doc = fs.lookup(ROOT_INO, "doc").unwrap();
    assert_eq!(fs.lookup(doc, "A"), Err(VfsError::NotFound));
    assert!(fs.lookup(doc, "B").is_ok());
}

#[test]
fn a_directory_lists_its_content_its_front_matter_and_its_headings_in_order() {
    let (m, file_ino) = mounted("---\nkey: 1\n---\n# A\n\n## Sub\n\n# B\n");
    assert_eq!(m.names(ROOT_INO), vec!["doc"]);
    assert_eq!(m.names(file_ino), vec!["content.md", "_frontmatter.yaml", "A", "B"]);
    let a = m.lookup(file_ino, "A").unwrap();
    assert_eq!(m.names(a), vec!["content.md", "Sub"]);
    for name in m.names(file_ino) {
        assert!(m.lookup(file_ino, &name).is_ok(), "{name} is listed but cannot be looked up");
    }
}

#[test]
fn attributes_tell_kind_and_size() {
    let (mut m, file_ino) = mounted("---\nkey: 1\n---\n# A\n\nbody\n");
    let now = m.disk.now();
    let a = m.lookup(file_ino, "A").unwrap();
    let content = m.lookup(a, CONTENT_FILE).unwrap();
    let front = m.lookup(file_ino, "_frontmatter.yaml").unwrap();
    assert_eq!(
        m.fs.getattr(ROOT_INO, now),
        Ok(FileAttr { ino: ROOT_INO, kind: FileKind::Dir, size: 0, mtime: now })
    );
    assert_eq!(m.fs.getattr(a, now), Ok(FileAttr { ino: a, kind: FileKind::Dir, size: 0, mtime: now }));
    assert_eq!(
        m.fs.getattr(content, now),
        Ok(FileAttr { ino: content, kind: FileKind::File, size: 5, mtime: now })
    );
    assert_eq!(m.fs.getattr(front, now).unwrap().size, 6);
    assert_eq!(m.fs.getattr(9_999, now), Err(VfsError::NotFound));
    let (tmp, _) = m.create(a, "tmp").unwrap();
    m.write(tmp, 3, b"xy").unwrap();
    assert_eq!(m.fs.getattr(tmp, now).unwrap().size, 5);
    assert_eq!(m.read(tmp), Ok((b"\0\0\0xy".to_vec(), true)));
}

#[test]
fn read_hands_out_a_window_and_tells_the_end() {
    let (m, file_ino) = mounted("# A\n\nhello\n");
    let content = m.lookup_path(file_ino, &["A", CONTENT_FILE]);
    assert_eq!(m.fs.read(content, 0, 3), Ok((b"hel".to_vec(), false)));
    assert_eq!(m.fs.read(content, 3, 3), Ok((b"lo\n".to_vec(), true)));
    assert_eq!(m.fs.read(content, 100, 3), Ok((Vec::new(), true)));
    assert_eq!(m.fs.read(file_ino, 0, 3), Err(VfsError::IsDir));
    assert_eq!(m.fs.read(9_999, 0, 3), Err(VfsError::NotFound));
}

#[test]
fn write_overwrites_only_the_bytes_it_is_given() {
    let (mut m, file_ino) = mounted("# A\n\nhello world\n");
    let content = m.lookup_path(file_ino, &["A", CONTENT_FILE]);
    let attr = m.write(content, 6, b"there").unwrap();
    assert_eq!(m.read(content), Ok((b"hello there\n".to_vec(), true)));
    assert_eq!(attr.size, 12);
    assert_eq!(m.doc(), "# A\n\nhello there\n");
    assert_eq!(m.write(file_ino, 0, b"x"), Err(VfsError::IsDir));
    assert_eq!(m.write(9_999, 0, b"x"), Err(VfsError::NotFound));
}

#[test]
fn bytes_that_are_no_text_are_written_with_replacement_characters() {
    let (mut m, file_ino) = mounted("# A\n");
    let content = m.lookup_path(file_ino, &["A", CONTENT_FILE]);
    m.write(content, 0, b"a\xffb\n").unwrap();
    assert_eq!(m.doc(), "# A\n\na\u{fffd}b\n");
}

#[test]
fn a_heading_typed_into_content_becomes_a_directory() {
    let (mut m, file_ino) = mounted("# A\n\n## Deep\n\nx\n");
    let deep = m.lookup_path(file_ino, &["A", "Deep"]);
    let content = m.lookup(deep, CONTENT_FILE).unwrap();
    m.truncate(content).unwrap();
    m.write(content, 0, b"x\n\n# Top\n\ny\n").unwrap();
    assert_eq!(m.names(file_ino), vec!["content.md", "A", "Top"]);
    let top = m.lookup_path(file_ino, &["Top", CONTENT_FILE]);
    assert_eq!(m.read(top), Ok((b"y\n".to_vec(), true)));
}

#[test]
fn set_size_truncates_only_to_nothing() {
    let (mut m, file_ino) = mounted("# A\n\nbody\n");
    let content = m.lookup_path(file_ino, &["A", CONTENT_FILE]);
    assert_eq!(m.set_size(content, Some(3)).unwrap().size, 5);
    assert_eq!(m.set_size(content, None).unwrap().size, 5);
    assert_eq!(m.set_size(content, Some(0)).unwrap().size, 0);
    assert_eq!(m.doc(), "# A\n");
    assert_eq!(m.set_size(9_999, Some(0)), Err(VfsError::NotFound));
    assert_eq!(m.set_size(file_ino, Some(0)), Err(VfsError::IsDir));
}

#[test]
fn truncate_of_a_synthetic_directory_changes_nothing() {
    let (mut m, _file_ino) = mounted("# A\n\nbody\n");
    assert_eq!(m.truncate(ROOT_INO).unwrap().kind, FileKind::Dir);
    assert_eq!(m.doc(), "# A\n\nbody\n");
}

#[test]
fn create_hands_out_the_file_that_is_already_there() {
    let (mut m, file_ino) = mounted("# A\n\nbody\n");
    let a = m.lookup(file_ino, "A").unwrap();
    let content = m.lookup(a, CONTENT_FILE).unwrap();
    assert_eq!(m.create(a, CONTENT_FILE).unwrap().0, content);
    assert_eq!(m.create(a, CONTENT_FILE).unwrap().1.size, 5);
    let (tmp, attr) = m.create(a, "tmp").unwrap();
    assert_eq!(attr.size, 0);
    m.write(tmp, 0, b"abc").unwrap();
    assert_eq!(m.create(a, "tmp").unwrap(), (tmp, FileAttr { size: 3, ..attr }));
    // There is no front matter to hand out.
    assert_eq!(m.create(file_ino, "_frontmatter.yaml"), Err(VfsError::Io));
    assert_eq!(m.create(ROOT_INO, "x"), Err(VfsError::NotFound));
    assert_eq!(m.create(content, "x"), Err(VfsError::NotFound));
}

#[test]
fn create_exclusive_tells_apart_what_is_new() {
    let (mut m, file_ino) = mounted("# A\n");
    assert_eq!(m.fs.create_exclusive(file_ino, "A"), Err(VfsError::Exists));
    assert_eq!(m.fs.create_exclusive(file_ino, "_frontmatter.toml"), Err(VfsError::Exists));
    assert_eq!(m.fs.create_exclusive(ROOT_INO, "doc"), Err(VfsError::Exists));
    assert!(m.fs.create_exclusive(ROOT_INO, "other").is_ok());
    assert!(m.fs.create_exclusive(file_ino, "tmp").is_ok());
    assert_eq!(m.fs.create_exclusive(file_ino, "tmp"), Err(VfsError::Exists));
    assert_eq!(m.fs.create_exclusive(9_999, "x"), Err(VfsError::NotFound));
}

#[test]
fn mkdir_refuses_what_it_cannot_make() {
    let (mut m, file_ino) = mounted("# A\n\nbody\n");
    assert_eq!(m.mkdir(file_ino, "A"), Err(VfsError::Exists));
    assert_eq!(m.mkdir(9_999, "x"), Err(VfsError::NotFound));
    // The heading is made, but its directory goes by its slug.
    assert_eq!(m.mkdir(file_ino, "a/b"), Err(VfsError::Io));
    assert!(m.lookup(file_ino, "a-b").is_ok());
}

#[test]
fn mkdir_then_remove_restores_the_source_file() {
    let (mut m, file_ino) = mounted("# A\n\nbody\n\n## B\n\nb\n");
    let a = m.lookup(file_ino, "A").unwrap();
    m.mkdir(a, "New").unwrap();
    assert_eq!(m.doc(), "# A\n\nbody\n\n## New\n\n## B\n\nb\n");
    m.remove(a, "New").unwrap();
    assert_eq!(m.doc(), "# A\n\nbody\n\n## B\n\nb\n");
}

#[test]
fn remove_clears_files_and_forgets_temporary_ones() {
    let (mut m, file_ino) = mounted("---\nkey: 1\n---\n# A\n\nbody\n");
    let a = m.lookup(file_ino, "A").unwrap();
    m.remove(a, CONTENT_FILE).unwrap();
    assert!(!m.doc().contains("body"));
    m.remove(file_ino, "_frontmatter.yaml").unwrap();
    assert!(!m.doc().contains("key"));
    let (tmp, _) = m.create(a, "tmp").unwrap();
    m.remove(a, "tmp").unwrap();
    assert_eq!(m.read(tmp), Err(VfsError::NotFound));
    assert_eq!(m.remove(a, "tmp"), Err(VfsError::NotFound));
    assert_eq!(m.remove(9_999, "tmp"), Err(VfsError::NotFound));
}

#[test]
fn a_whole_section_is_removed_from_the_bottom_up() {
    let (mut m, file_ino) = mounted("# A\n\na\n\n## B\n\nb\n\n# C\n\nc\n");
    let a = m.lookup(file_ino, "A").unwrap();
    let b = m.lookup(a, "B").unwrap();
    assert_eq!(m.remove(file_ino, "A"), Err(VfsError::NotEmpty));
    m.remove(b, CONTENT_FILE).unwrap();
    m.remove(a, "B").unwrap();
    assert_eq!(m.remove(file_ino, "A"), Err(VfsError::NotEmpty));
    m.remove(a, CONTENT_FILE).unwrap();
    m.remove(file_ino, "A").unwrap();
    assert_eq!(m.doc(), "# C\n\nc\n");
}

#[test]
fn rename_refuses_what_it_cannot_move() {
    let (mut m, file_ino) = mounted("# A\n\n## B\n\nb\n\n# C\n\n## B\n\nc\n");
    let a = m.lookup(file_ino, "A").unwrap();
    let b = m.lookup(a, "B").unwrap();
    let c = m.lookup(file_ino, "C").unwrap();
    assert_eq!(m.rename(a, "B", c, "B"), Err(VfsError::Exists));
    assert_eq!(m.rename(file_ino, "A", b, "A"), Err(VfsError::Invalid));
    assert_eq!(m.rename(file_ino, "missing", file_ino, "x"), Err(VfsError::NotFound));
    assert_eq!(m.rename(a, "missing", c, "x"), Err(VfsError::NotFound));
    assert_eq!(m.rename(a, "B", ROOT_INO, "B"), Err(VfsError::NotFound));
    assert_eq!(m.rename(ROOT_INO, "doc", a, "doc"), Err(VfsError::NotFound));
    assert_eq!(m.rename(a, "B", c, CONTENT_FILE), Err(VfsError::NotFound));
    assert_eq!(m.doc(), "# A\n\n## B\n\nb\n\n# C\n\n## B\n\nc\n");
}

#[test]
fn a_rename_to_a_taken_name_is_told_apart() {
    let (mut m, file_ino) = mounted("# A\n\na\n\n# B\n\nb\n");
    m.rename(file_ino, "A", file_ino, "B").unwrap();
    assert_eq!(m.names(file_ino), vec!["content.md", "B", "B-2"]);
    let content = m.lookup_path(file_ino, &["B-2", CONTENT_FILE]);
    assert_eq!(m.read(content), Ok((b"b\n".to_vec(), true)));
}

#[test]
fn a_move_past_the_deepest_heading_is_refused() {
    let (mut m, file_ino) = mounted("# A\n\n## B\n\n# 1\n\n## 2\n\n### 3\n\n#### 4\n\n##### 5\n");
    let five = m.lookup_path(file_ino, &["1", "2", "3", "4", "5"]);
    assert_eq!(m.rename(file_ino, "A", five, "A"), Err(VfsError::Invalid));
}

#[test]
fn content_moves_within_a_file_but_not_between_files() {
    let mut disk = Disk::new();
    disk.put("/a.md", "# A\n\nbody\n\n# B\n");
    disk.put("/b.md", "# C\n");
    let mut m = Mounted::new(disk, &[("/a.md", &["a"]), ("/b.md", &["b"])], false);
    let a = m.lookup_path(ROOT_INO, &["a", "A"]);
    let b = m.lookup_path(ROOT_INO, &["a", "B"]);
    let c = m.lookup_path(ROOT_INO, &["b", "C"]);
    assert_eq!(m.rename(a, CONTENT_FILE, c, CONTENT_FILE), Err(VfsError::Unsupported));
    m.rename(a, CONTENT_FILE, b, CONTENT_FILE).unwrap();
    assert_eq!(m.disk.text("/a.md"), "# A\n\n# B\n\nbody\n");
}

#[test]
fn a_temporary_file_becomes_front_matter_or_takes_another_name() {
    let (mut m, file_ino) = mounted("---\nkey: 1\n---\n# A\n");
    let a = m.lookup(file_ino, "A").unwrap();
    let (tmp, _) = m.create(a, "tmp").unwrap();
    m.write(tmp, 0, b"key: 3").unwrap();
    m.rename(a, "tmp", file_ino, "swap").unwrap();
    assert_eq!(m.create(file_ino, "swap").unwrap().0, tmp);
    m.rename(file_ino, "swap", file_ino, "_frontmatter.yaml").unwrap();
    assert!(m.doc().starts_with("---\nkey: 3\n---\n"));
    assert_eq!(m.read(tmp), Err(VfsError::NotFound));
}

#[test]
fn an_unchanged_render_is_not_written() {
    let (mut m, file_ino) = mounted("# A\n\nbody\n");
    let before = m.disk.mtime(b"/doc.md");
    let content = m.lookup_path(file_ino, &["A", CONTENT_FILE]);
    m.write(content, 0, b"body\n").unwrap();
    assert_eq!(m.disk.mtime(b"/doc.md"), before);
    // Nor is a newer file a conflict, where nothing would be written.
    m.disk.put("/doc.md", "# Other\n");
    m.write(content, 0, b"body\n").unwrap();
    assert_eq!(m.doc(), "# Other\n");
}

#[test]
fn a_saved_file_is_up_to_date() {
    let (mut m, file_ino) = mounted("# A\n\nbody\n");
    let content = m.lookup_path(file_ino, &["A", CONTENT_FILE]);
    m.write(content, 0, b"text\n").unwrap();
    assert!(matches!(m.fs.plan_save(0, m.disk.mtime(b"/doc.md")), SavePlan::UpToDate));
    m.write(content, 0, b"more\n").unwrap();
    assert_eq!(m.doc(), "# A\n\nmore\n");
}

#[test]
fn a_file_without_a_known_time_is_written() {
    let (mut m, file_ino) = mounted("# A\n\nbody\n");
    let content = m.lookup_path(file_ino, &["A", CONTENT_FILE]);
    m.disk.files.clear();
    m.write(content, 0, b"text\n").unwrap();
    assert_eq!(m.doc(), "# A\n\ntext\n");
}

#[test]
fn a_request_changes_one_file_only() {
    let mut disk = Disk::new();
    disk.put("/a.md", "# A\n\na\n");
    disk.put("/b.md", "# B\n\nb\n");
    let mut m = Mounted::new(disk, &[("/a.md", &["a"]), ("/b.md", &["b"])], false);
    let a = m.lookup(ROOT_INO, "a").unwrap();
    let b = m.lookup_path(ROOT_INO, &["b", "B", CONTENT_FILE]);
    m.mkdir(a, "New").unwrap();
    assert_eq!(m.read(b), Ok((b"b\n".to_vec(), true)));
    assert_eq!(m.lookup_path(ROOT_INO, &["b", "B", CONTENT_FILE]), b);
    assert_eq!(m.disk.text("/b.md"), "# B\n\nb\n");
}

#[test]
fn numbers_survive_edits_and_are_never_shared() {
    let (mut m, file_ino) = mounted("# A\n\n# B\n\n# C\n");
    let b = m.lookup(file_ino, "B").unwrap();
    m.rename(file_ino, "B", file_ino, "Bee").unwrap();
    assert_eq!(m.lookup(file_ino, "Bee"), Ok(b));
    m.remove(file_ino, "Bee").unwrap();
    let (again, _) = m.mkdir(file_ino, "Bee").unwrap();
    assert_ne!(again, b);
    let (tmp, _) = m.create(file_ino, "tmp").unwrap();
    let mut all = vec![ROOT_INO, file_ino, tmp];
    for name in m.names(file_ino) {
        all.push(m.lookup(file_ino, &name).unwrap());
    }
    let n = all.len();
    all.sort_unstable();
    all.dedup();
    assert_eq!(all.len(), n);
}

#[test]
fn parents_of_headings_are_the_headings_above() {
    let (m, file_ino) = mounted("# A\n\n## B\n");
    let a = m.lookup(file_ino, "A").unwrap();
    let b = m.lookup(a, "B").unwrap();
    assert_eq!(m.fs.parent_of(b), Ok(a));
    assert_eq!(m.fs.parent_of(a), Ok(file_ino));
    assert_eq!(m.fs.parent_of(file_ino), Ok(ROOT_INO));
    assert_eq!(m.fs.parent_of(ROOT_INO), Ok(ROOT_INO));
    let content = m.lookup(a, CONTENT_FILE).unwrap();
    assert_eq!(m.fs.parent_of(content), Err(VfsError::NotDir));
    assert_eq!(m.lookup(content, "x"), Err(VfsError::NotDir));
    assert!(matches!(m.readdir(content, 0, 10), Err(VfsError::NotDir)));
}

#[test]
fn a_file_and_a_directory_of_one_name_stand_side_by_side() {
    let mut disk = Disk::new();
    disk.put("/docs.md", "# A\n");
    disk.put("/docs/a.md", "# B\n");
    let m = Mounted::new(disk, &[("/docs.md", &["docs"]), ("/docs/a.md", &["docs", "a"])], false);
    assert_eq!(m.names(ROOT_INO), vec!["docs", "docs-2"]);
    assert!(m.lookup(m.lookup(ROOT_INO, "docs").unwrap(), "a").is_ok());
    assert!(m.lookup(m.lookup(ROOT_INO, "docs-2").unwrap(), "A").is_ok());
}

#[test]
fn watch_add_without_a_mount_path_is_ignored() {
    let (mut m, _file_ino) = mounted("# Doc\n");
    m.disk.put("/extra.md", "# Extra\n");
    let source = m.disk.source("/extra.md", &[]);
    m.fs.watch_add(source);
    assert_eq!(m.names(ROOT_INO), vec!["doc"]);
}

#[test]
fn watch_add_tells_apart_files_of_one_name() {
    let (mut m, file_ino) = mounted("# Doc\n");
    m.disk.put("/more/doc.md", "# More\n");
    let source = m.disk.source("/more/doc.md", &["doc"]);
    m.fs.watch_add(source);
    assert_eq!(m.names(ROOT_INO), vec!["doc", "doc-2"]);
    assert_eq!(m.lookup(ROOT_INO, "doc"), Ok(file_ino));
}

#[test]
fn each_refusal_has_its_error() {
    assert_eq!(map_mutation_error(MutationError::AlreadyExists("x".to_string())), VfsError::Exists);
    assert_eq!(map_mutation_error(MutationError::NotEmpty), VfsError::NotEmpty);
    assert_eq!(map_mutation_error(MutationError::NotADirectory), VfsError::NotDir);
    assert_eq!(map_mutation_error(MutationError::Parse("x".to_string())), VfsError::Invalid);
    assert_eq!(map_mutation_error(MutationError::WouldCreateCycle), VfsError::Invalid);
    assert_eq!(map_mutation_error(MutationError::TooDeep), VfsError::Invalid);
}

#[test]
fn front_matter_goes_by_its_file_name() {
    assert_eq!(frontmatter_kind_for_name("_frontmatter.yaml"), Some(FrontMatterKind::Yaml));
    assert_eq!(frontmatter_kind_for_name("_frontmatter.toml"), Some(FrontMatterKind::Toml));
    assert_eq!(frontmatter_kind_for_name("frontmatter.toml"), None);
}

fn listed(inos: &[Ino]) -> Vec<DirEntryOwned> {
    let mtime = Timestamp { secs: 0, nanos: 0 };
    inos.iter()
        .map(|&ino| DirEntryOwned {
            ino,
            name: format!("e{ino}"),
            attr: FileAttr { ino, kind: FileKind::Dir, size: 0, mtime },
        })
        .collect()
}

#[test]
fn pages_start_behind_the_given_entry() {
    let page = |after: Ino, max: usize| {
        let (entries, end) = paginate(listed(&[5, 6, 7]), after, max);
        (entries.into_iter().map(|e| e.ino).collect::<Vec<Ino>>(), end)
    };
    assert_eq!(page(0, 2), (vec![5, 6], false));
    assert_eq!(page(6, 2), (vec![7], true));
    assert_eq!(page(0, 3), (vec![5, 6, 7], true));
    assert_eq!(page(0, 0), (vec![5], false));
    assert_eq!(page(7, 1), (vec![], true));
    assert_eq!(page(9, 1), (vec![], true));
}

#[test]
fn renaming_content_to_itself_keeps_it() {
    let (mut m, file_ino) = mounted("# Title\n\nbody\n");
    let title = m.lookup(file_ino, "Title").unwrap();
    let content = m.lookup(title, CONTENT_FILE).unwrap();
    assert_eq!(m.rename(title, CONTENT_FILE, title, CONTENT_FILE), Ok(()));
    assert_eq!(m.read(content), Ok((b"body\n".to_vec(), true)));
    assert_eq!(m.doc(), "# Title\n\nbody\n");
}

#[test]
fn a_made_directory_is_empty_and_leaves_the_others_where_they_are() {
    let (mut m, file_ino) = mounted("# A\n\n### C\n");
    let a = m.lookup(file_ino, "A").unwrap();
    let c = m.lookup(a, "C").unwrap();
    let (new, _) = m.mkdir(a, "New").unwrap();
    let (entries, end) = m.readdir(new, 0, 100).unwrap();
    assert!(end);
    assert_eq!(entries.len(), 1);
    assert_eq!(entries[0].name, CONTENT_FILE);
    assert_eq!(entries[0].attr.size, 0);
    assert_eq!(m.lookup(a, "C"), Ok(c));
    assert_eq!(m.names(a), vec![CONTENT_FILE, "C", "New"]);
    assert_eq!(m.doc(), "# A\n\n### C\n\n## New\n");
}

#[test]
fn mkdir_refuses_to_go_too_deep() {
    let (mut m, file_ino) = mounted("###### Six\n");
    let six = m.lookup(file_ino, "Six").unwrap();
    assert_eq!(m.mkdir(six, "x"), Err(VfsError::Invalid));
    assert_eq!(m.names(six), vec![CONTENT_FILE]);
    assert_eq!(m.doc(), "###### Six\n");
}

#[test]
fn a_renamed_directory_and_those_beside_it_keep_their_numbers() {
    let (mut m, file_ino) = mounted("# A\n\na\n\n# B\n\nb\n\n## Sub\n\n# C\n\nc\n");
    let old: Vec<Ino> = ["A", "B", "C"].iter().map(|n| m.lookup(file_ino, n).unwrap()).collect();
    let content = m.lookup(old[1], CONTENT_FILE).unwrap();
    m.rename(file_ino, "B", file_ino, "New").unwrap();
    assert_eq!(m.lookup(file_ino, "New"), Ok(old[1]));
    assert_eq!(m.lookup(file_ino, "B"), Err(VfsError::NotFound));
    assert_eq!(m.lookup(old[1], CONTENT_FILE), Ok(content));
    assert_eq!(m.lookup(file_ino, "A"), Ok(old[0]));
    assert_eq!(m.lookup(file_ino, "C"), Ok(old[2]));
}

#[test]
fn a_name_that_nobody_asks_for_is_given_up_for_good() {
    let (mut m, file_ino) = mounted("# Foo-7\n\n# Foo\n\n# Foo\n");
    let names = ["Foo-7", "Foo", "Foo-2"];
    let old: Vec<Ino> = names.iter().map(|n| m.lookup(file_ino, n).unwrap()).collect();
    m.rename(file_ino, "Foo-7", file_ino, "New").unwrap();
    assert_eq!(m.lookup(file_ino, "New"), Ok(old[0]));
    assert_eq!(m.lookup(file_ino, "Foo-7"), Err(VfsError::NotFound));
    assert_eq!(m.lookup(file_ino, "Foo"), Ok(old[1]));
    assert_eq!(m.lookup(file_ino, "Foo-2"), Ok(old[2]));
}

#[test]
fn a_name_that_was_passed_over_is_taken_once_it_is_given_up() {
    let (mut m, file_ino) = mounted("# Foo\n\n# Foo-2\n\n# Foo\n");
    assert!(m.lookup(file_ino, "Foo-3").is_ok());
    m.rename(file_ino, "Foo-2", file_ino, "New").unwrap();
    assert!(m.lookup(file_ino, "Foo-2").is_ok());
    assert_eq!(m.lookup(file_ino, "Foo-3"), Err(VfsError::NotFound));
}

#[test]
fn every_directory_leads_back_and_lists_what_can_be_looked_up() {
    let mut disk = Disk::new();
    disk.put("/a.md", "---\nx: 1\n---\n\n# T\n\n## U\n\n# T\n");
    disk.put("/b.md", "# V\n");
    disk.put("/c.md", "text\n");
    let places: [(&str, &[&str]); 3] =
        [("/a.md", &["docs", "guide", "a"]), ("/b.md", &["docs", "a"]), ("/c.md", &["docs", "a"])];
    let m = Mounted::new(disk, &places, true);
    assert_eq!(m.fs.parent_of(ROOT_INO), Ok(ROOT_INO));
    let mut pending = vec![ROOT_INO];
    let mut seen = 0;
    while let Some(dir) = pending.pop() {
        seen += 1;
        for entry in m.readdir(dir, 0, 100).unwrap().0 {
            assert_eq!(m.lookup(dir, &entry.name), Ok(entry.ino));
            if entry.attr.kind == FileKind::Dir {
                assert_eq!(m.fs.parent_of(entry.ino), Ok(dir));
                pending.push(entry.ino);
            } else {
                assert_eq!(m.fs.parent_of(entry.ino), Err(VfsError::NotDir));
            }
        }
    }
    assert_eq!(seen, 10);
}
