use mq_mount::cli::{
    compile_globs, effective_readonly, glob_allows, globs_of, mount_name, passes, sanitize, truncate,
    visit, visit_entry, EntryKind, Glob, Visit,
};
use mq_mount::paths::{
    file_stem, has_markdown_extension, name_text, own_name, sorted_order, starts_with_dot, stem_or_name,
};

fn strings(names: &[&str]) -> Vec<String> {
    names.iter().map(|n| n.to_string()).collect()
}

fn globs(patterns: &[&str]) -> Vec<Glob> {
    compile_globs(&strings(patterns)).unwrap()
}

#[test]
fn filter_forces_read_only_even_with_write() {
    assert!(effective_readonly(true, true));
    assert!(!effective_readonly(true, false));
    assert!(effective_readonly(false, false));
}

#[test]
fn glob_allows_matches_only_included_patterns() {
    let include_globs = globs(&["guide/*.md"]);
    assert!(glob_allows("guide/a.md", &include_globs, &vec![]));
    assert!(!glob_allows("api/a.md", &include_globs, &vec![]));
}

#[test]
fn glob_allows_applies_exclude_after_include() {
    let include_globs = globs(&["**/*.md"]);
    let exclude_globs = globs(&["**/draft-*.md"]);
    assert!(glob_allows("guide/a.md", &include_globs, &exclude_globs));
    assert!(!glob_allows("guide/draft-a.md", &include_globs, &exclude_globs));
}

#[test]
fn glob_allows_with_no_include_patterns_allows_everything_but_excludes() {
    let exclude_globs = globs(&["*.tmp.md"]);
    assert!(glob_allows("a.md", &vec![], &exclude_globs));
    assert!(!glob_allows("a.tmp.md", &vec![], &exclude_globs));
}

/// A file or a directory of a tree that lives in memory.
enum Entry {
    Dir(&'static str, Vec<Entry>),
    File(&'static str),
}

/// Walks a directory as a mount does, and collects the files to mount with their places.
fn collect(
    rel: &str,
    entries: &[Entry],
    path: &[String],
    include_globs: &Vec<Glob>,
    exclude_globs: &Vec<Glob>,
    out: &mut Vec<(String, Vec<String>)>,
) {
    let names: Vec<Vec<u8>> = entries
        .iter()
        .map(|e| match e {
            Entry::Dir(name, _) | Entry::File(name) => name.as_bytes().to_vec(),
        })
        .collect();
    for i in sorted_order(&names) {
        let (kind, below) = match &entries[i] {
            Entry::Dir(_, below) => (EntryKind::Dir, below.as_slice()),
            Entry::File(_) => (EntryKind::File, [].as_slice()),
        };
        let name = String::from_utf8(names[i].clone()).unwrap();
        let entry_rel = if rel.is_empty() { name } else { format!("{rel}/{name}") };
        match visit(&names[i], kind, path, &entry_rel, include_globs, exclude_globs) {
            Visit::Skip => {}
            Visit::Descend(path) => collect(&entry_rel, below, &path, include_globs, exclude_globs, out),
            Visit::Mount(path) => out.push((entry_rel, path)),
        }
    }
}

#[test]
fn collect_entries_applies_include_and_exclude_under_a_directory_argument() {
    let tree = vec![
        Entry::Dir("guide", vec![Entry::File("a.md"), Entry::File("draft-b.md")]),
        Entry::Dir("api", vec![Entry::File("c.md")]),
    ];
    let mut entries = Vec::new();
    let include_globs = globs(&["guide/*.md"]);
    let exclude_globs = globs(&["guide/draft-*.md"]);
    collect("", &tree, &strings(&["dir"]), &include_globs, &exclude_globs, &mut entries);

    let names: Vec<String> = entries
        .iter()
        .map(|(rel, _)| stem_or_name(rel.rsplit('/').next().map(str::as_bytes)))
        .collect();
    assert_eq!(names, vec!["a"]);
}

#[test]
fn a_directory_is_mirrored_in_the_order_of_names_without_hidden_files() {
    let tree = vec![
        Entry::File("z.MD"),
        Entry::Dir(".git", vec![Entry::File("a.md")]),
        Entry::Dir("api", vec![Entry::File("b.md"), Entry::File("notes.txt"), Entry::File(".c.md")]),
        Entry::File("B.md"),
    ];
    let mut entries = Vec::new();
    collect("", &tree, &strings(&["docs"]), &vec![], &vec![], &mut entries);
    assert_eq!(
        entries,
        vec![
            ("B.md".to_string(), strings(&["docs", "B"])),
            ("api/b.md".to_string(), strings(&["docs", "api", "b"])),
            ("z.MD".to_string(), strings(&["docs", "z"])),
        ]
    );
}

#[test]
fn entries_that_are_neither_file_nor_directory_are_skipped() {
    let path = strings(&["docs"]);
    assert!(matches!(visit_entry(b"a.md", EntryKind::Other, &path, true), Visit::Skip));
    assert!(matches!(visit_entry(b"a.md", EntryKind::File, &path, false), Visit::Skip));
    assert!(matches!(visit_entry(b"\xff.md", EntryKind::File, &path, true), Visit::Skip));
    assert!(matches!(visit_entry(b"\xff", EntryKind::Dir, &path, true), Visit::Skip));
    match visit_entry(b"sub.md", EntryKind::Dir, &path, false) {
        Visit::Descend(path) => assert_eq!(path, vec!["docs", "sub.md"]),
        other => panic!("expected to descend, got {other:?}"),
    }
}

#[test]
fn the_first_invalid_pattern_is_reported() {
    let e = compile_globs(&strings(&["*.md", "a***b", "[x"])).unwrap_err();
    assert_eq!(e.pattern, "a***b");
    assert!(e.message.contains("wildcards"), "message was: {}", e.message);
    let compiled = compile_globs(&strings(&["*.md", "**/x"])).unwrap();
    assert_eq!(compiled.iter().map(|g| g.pattern.as_str()).collect::<Vec<_>>(), vec!["*.md", "**/x"]);
}

#[test]
fn messages_decide_which_patterns_compile() {
    let patterns = strings(&["a", "b", "c"]);
    let ok = globs_of(&patterns, &vec![None, None, None]).unwrap();
    assert_eq!(ok.len(), 3);
    let e = globs_of(&patterns, &vec![None, Some("first".to_string()), Some("second".to_string())]);
    let e = e.unwrap_err();
    assert_eq!((e.pattern.as_str(), e.message.as_str()), ("b", "first"));
}

#[test]
fn a_path_passes_by_one_hit_to_let_in_and_none_to_keep_out() {
    assert!(passes(&vec![], &vec![]));
    assert!(passes(&vec![false, true], &vec![false]));
    assert!(!passes(&vec![false, false], &vec![]));
    assert!(!passes(&vec![true], &vec![false, true]));
}

#[test]
fn backslashes_in_a_path_separate_like_slashes() {
    assert!(glob_allows("guide\\a.md", &globs(&["guide/a.md"]), &vec![]));
}

#[test]
fn names_are_sanitized_to_letters_digits_and_single_dashes() {
    assert_eq!(sanitize("My  Notes (2024)"), "My-Notes-2024");
    assert_eq!(sanitize("--a--"), "a");
    assert_eq!(sanitize("日本"), "");
    assert_eq!(sanitize("é1"), "1");
}

#[test]
fn texts_are_truncated_by_characters() {
    assert_eq!(truncate("日本語", 2), "日本");
    assert_eq!(truncate("ab", 2), "ab");
    assert_eq!(truncate("ab", 0), "");
}

#[test]
fn mount_names_tell_what_is_mounted() {
    assert_eq!(mount_name(&vec![]), "mq-mount");
    assert_eq!(mount_name(&vec![strings(&["notes"])]), "mq-notes");
    assert_eq!(mount_name(&vec![strings(&["docs", "a"]), strings(&["docs", "b"])]), "mq-docs");
    assert_eq!(mount_name(&vec![strings(&["my docs"]), strings(&["b"]), strings(&["c"])]), "mq-my-docs+2");
    assert_eq!(mount_name(&vec![strings(&["日本"])]), "mq-mount");
    assert_eq!(mount_name(&vec![strings(&["日本"]), strings(&["b"])]), "mq-+1");
    let long = "x".repeat(60);
    assert_eq!(mount_name(&vec![vec![long]]), format!("mq-{}", "x".repeat(40)));
    assert_eq!(mount_name(&vec![vec![]]), "mq-mount");
}

#[test]
fn stems_end_before_the_last_dot() {
    assert_eq!(file_stem(b"a.tar.md"), b"a.tar");
    assert_eq!(file_stem(b".hidden"), b".hidden");
    assert_eq!(file_stem(b"plain"), b"plain");
    assert_eq!(file_stem(b".."), b"..");
    assert_eq!(stem_or_name(Some(b"notes.md")), "notes");
    assert_eq!(stem_or_name(Some(b"\xff.md")), "untitled");
    assert_eq!(stem_or_name(None), "untitled");
}

#[test]
fn a_directory_is_mounted_under_its_own_name() {
    assert_eq!(own_name(Some(b"docs.v1")), "docs.v1");
    assert_eq!(own_name(Some(b"docs")), "docs");
    assert_eq!(own_name(Some(b"\xff")), "untitled");
    assert_eq!(own_name(None), "untitled");
}

#[test]
fn markdown_files_go_by_their_extension() {
    assert!(has_markdown_extension(b"a.md"));
    assert!(has_markdown_extension(b"a.MD"));
    assert!(has_markdown_extension(b"a.b.mD"));
    assert!(!has_markdown_extension(b".md"));
    assert!(!has_markdown_extension(b"a.markdown"));
    assert!(!has_markdown_extension(b"md"));
    assert!(starts_with_dot(b".git"));
    assert!(!starts_with_dot(b"a.git"));
    assert!(!starts_with_dot(b""));
    assert_eq!(name_text("é".as_bytes()), Some("é".to_string()));
    assert_eq!(name_text(b"\xff"), None);
}

#[test]
fn names_are_sorted_by_their_bytes() {
    let names: Vec<Vec<u8>> = vec![b"b".to_vec(), b"a".to_vec(), b"B".to_vec(), b"a".to_vec(), b"ab".to_vec()];
    assert_eq!(sorted_order(&names), vec![2, 1, 3, 4, 0]);
    assert_eq!(sorted_order(&vec![]), Vec::<usize>::new());
}
