use mq_mount::block::{Block, Content};
use mq_mount::bytes::{read_window, splice, to_text_lossy};
use mq_mount::document::{Document, MutationError};
use mq_mount::names::{slugify, unique_name, SeenNames, MAX_SLUG};
use mq_mount::section::{FrontMatterKind, Section};

/// A heading with its body and the headings below it.
#[derive(Debug, Clone)]
struct HeadingSpec {
    name: String,
    body: String,
    children: Vec<HeadingSpec>,
}

const NAME_POOL: [&str; 6] = ["Alpha", "Bravo", "Charlie", "Delta", "Echo", "Foxtrot"];

/// Numbers that look random, the same in each run.
struct Numbers(u64);

impl Numbers {
    fn below(&mut self, n: u64) -> u64 {
        self.0 = self.0.wrapping_mul(6_364_136_223_846_793_005).wrapping_add(1_442_695_040_888_963_407);
        (self.0 >> 33) % n
    }

    fn word(&mut self) -> String {
        let len = 1 + self.below(8);
        (0..len).map(|_| (b'a' + self.below(26) as u8) as char).collect()
    }

    fn words(&mut self, n: u64) -> String {
        (0..n).map(|_| self.word()).collect::<Vec<_>>().join(" ")
    }

    fn headings(&mut self, max_depth: u32) -> Vec<HeadingSpec> {
        let mut specs = Vec::new();
        for name in NAME_POOL {
            if specs.len() < 4 && self.below(2) == 0 {
                let words = self.below(3);
                let body = self.words(words);
                let children = if max_depth > 0 { self.headings(max_depth - 1) } else { Vec::new() };
                specs.push(HeadingSpec { name: name.to_string(), body, children });
            }
        }
        specs
    }
}

fn render_specs(specs: &[HeadingSpec], depth: usize, out: &mut String) {
    for spec in specs {
        out.push_str(&"#".repeat(depth));
        out.push(' ');
        out.push_str(&spec.name);
        out.push_str("\n\n");
        if !spec.body.is_empty() {
            out.push_str(&spec.body);
            out.push_str("\n\n");
        }
        render_specs(&spec.children, depth + 1, out);
    }
}

fn source_of(specs: &[HeadingSpec]) -> String {
    let mut src = String::new();
    render_specs(specs, 1, &mut src);
    src
}

fn assert_matches_spec(specs: &[HeadingSpec], sections: &[Section]) {
    assert_eq!(
        specs.iter().map(|s| s.name.as_str()).collect::<Vec<_>>(),
        sections.iter().map(|s| s.name.as_str()).collect::<Vec<_>>(),
    );
    for (spec, section) in specs.iter().zip(sections) {
        assert_matches_spec(&spec.children, &section.children);
    }
}

/// Every path (in document order) to a heading in `specs`, as the name chain `find` expects.
fn all_paths(specs: &[HeadingSpec], prefix: &[String], out: &mut Vec<Vec<String>>) {
    for spec in specs {
        let path: Vec<String> = prefix.iter().cloned().chain([spec.name.clone()]).collect();
        out.push(path.clone());
        all_paths(&spec.children, &path, out);
    }
}

/// Samples of documents, each with the path of one of its headings.
fn samples() -> Vec<(Vec<HeadingSpec>, Vec<String>)> {
    let mut numbers = Numbers(7);
    let mut out = Vec::new();
    while out.len() < 40 {
        let specs = numbers.headings(2);
        let mut paths = Vec::new();
        all_paths(&specs, &[], &mut paths);
        if !paths.is_empty() {
            let i = numbers.below(paths.len() as u64) as usize;
            out.push((specs, paths.swap_remove(i)));
        }
    }
    out
}

#[test]
fn heading_structure_round_trips_through_render_and_reparse() {
    for (specs, _) in samples() {
        let doc = Document::parse(&source_of(&specs)).unwrap();
        assert_matches_spec(&specs, &doc.tree().root.children);

        let reparsed = Document::parse(&doc.render()).unwrap();
        assert_matches_spec(&specs, &reparsed.tree().root.children);
    }
}

#[test]
fn replace_section_content_preserves_sibling_headings() {
    let mut numbers = Numbers(11);
    for (specs, path) in samples() {
        let words = 1 + numbers.below(4);
        let new_body = numbers.words(words);
        let mut doc = Document::parse(&source_of(&specs)).unwrap();

        let refs: Vec<&str> = path.iter().map(String::as_str).collect();
        let range = doc.tree().find(&refs).unwrap().own_content_range.clone();
        doc.replace_section_content(range, &format!("{new_body}\n")).unwrap();

        let reparsed = Document::parse(&doc.render()).unwrap();
        let tree = reparsed.tree();
        assert_matches_spec(&specs, &tree.root.children);
        let range = tree.find(&refs).unwrap().own_content_range.clone();
        assert_eq!(reparsed.render_range(range).trim(), new_body.trim());
    }
}

#[test]
fn replace_section_content_with_unchanged_body_is_a_full_document_no_op() {
    for (specs, path) in samples() {
        let src = source_of(&specs);
        let refs: Vec<&str> = path.iter().map(String::as_str).collect();
        let baseline = Document::parse(&src).unwrap().render();

        let mut doc = Document::parse(&src).unwrap();
        let range = doc.tree().find(&refs).unwrap().own_content_range.clone();
        let unchanged_body = doc.render_range(range.clone());
        doc.replace_section_content(range, &unchanged_body).unwrap();

        assert_eq!(doc.render(), baseline);
    }
}

/// `text` with some of its letters in upper case.
fn mixed_case(numbers: &mut Numbers, text: &str) -> String {
    text.chars().map(|c| if numbers.below(2) == 0 { c.to_ascii_uppercase() } else { c }).collect()
}

fn mix_bodies(numbers: &mut Numbers, specs: &mut [HeadingSpec]) {
    for spec in specs {
        spec.body = mixed_case(numbers, &spec.body);
        mix_bodies(numbers, &mut spec.children);
    }
}

fn levels(specs: &[HeadingSpec]) -> usize {
    specs.iter().map(|s| 1 + levels(&s.children)).max().unwrap_or(0)
}

#[test]
fn four_levels_of_headings_with_mixed_case_bodies_keep_their_structure() {
    let mut numbers = Numbers(23);
    let mut deepest = 0;
    for _ in 0..12 {
        let mut specs = numbers.headings(3);
        mix_bodies(&mut numbers, &mut specs);
        deepest = deepest.max(levels(&specs));
        let src = source_of(&specs);
        let baseline = Document::parse(&src).unwrap();
        assert_matches_spec(&specs, &baseline.tree().root.children);
        let reparsed = Document::parse(&baseline.render()).unwrap();
        assert_matches_spec(&specs, &reparsed.tree().root.children);

        let mut paths = Vec::new();
        all_paths(&specs, &[], &mut paths);
        for path in paths.iter().step_by(5) {
            let refs: Vec<&str> = path.iter().map(String::as_str).collect();
            let mut doc = Document::parse(&src).unwrap();
            let range = doc.tree().find(&refs).unwrap().own_content_range.clone();
            let body = doc.render_range(range.clone());
            doc.replace_section_content(range.clone(), &body).unwrap();
            assert_eq!(doc.render(), baseline.render());

            let words = 1 + numbers.below(4);
            let text = numbers.words(words);
            let new_body = mixed_case(&mut numbers, &text);
            let mut doc = Document::parse(&src).unwrap();
            doc.replace_section_content(range, &format!("{new_body}\n")).unwrap();
            let reparsed = Document::parse(&doc.render()).unwrap();
            let tree = reparsed.tree();
            assert_matches_spec(&specs, &tree.root.children);
            let range = tree.find(&refs).unwrap().own_content_range.clone();
            assert_eq!(reparsed.render_range(range).trim(), new_body);
        }
    }
    assert_eq!(deepest, 4);
}

fn walk<'a>(section: &'a Section, out: &mut Vec<&'a Section>) {
    out.push(section);
    for child in &section.children {
        walk(child, out);
    }
}

#[test]
fn every_block_has_exactly_one_home() {
    let doc = Document::parse("---\nk: 1\n---\nintro\n\n### Deep\n\nx\n\n# A\n\n- l\n\np\n\n## B\n\n# A\n").unwrap();
    let tree = doc.tree();
    let mut sections = Vec::new();
    walk(&tree.root, &mut sections);
    let mut homes = vec![0; doc.blocks.len()];
    homes[tree.front_matter.unwrap().1] += 1;
    for section in &sections {
        if let Some(i) = section.heading_index {
            assert!(doc.blocks[i].is_heading());
            homes[i] += 1;
        }
        for home in &mut homes[section.own_content_range.clone()] {
            *home += 1;
        }
    }
    assert_eq!(homes, vec![1; doc.blocks.len()]);
    assert_eq!(tree.clone(), tree);
    for section in &sections {
        let mut last = section.own_content_range.end;
        for child in &section.children {
            assert!(child.depth > section.depth);
            assert!(child.heading_index.unwrap() >= last);
            last = child.own_content_range.end;
        }
    }
}

fn lines(block: &Block) -> (usize, usize) {
    let span = block.span.unwrap();
    (span.start_line, span.end_line)
}

#[test]
fn a_splice_leaves_one_blank_line_at_both_seams() {
    let mut doc = Document::parse("# A\n\n\n\na\n\n# B\n\nb\n").unwrap();
    let range = doc.tree().find(&["A"]).unwrap().own_content_range.clone();
    doc.replace_section_content(range, "\n\none\ntwo\n\nthree\n").unwrap();
    let all: Vec<(usize, usize)> = doc.blocks.iter().map(lines).collect();
    assert_eq!(all[0], (1, 1));
    assert_eq!(all[1], (3, 4));
    assert_eq!(all[2].0, 6);
    assert_eq!(all[3].0, all[2].1 + 2);
    assert_eq!(all[4].0, all[3].1 + 2);
    assert_eq!(doc.render(), "# A\n\none\ntwo\n\nthree\n\n# B\n\nb\n");
}

#[test]
fn an_inserted_heading_is_the_first_subdirectory() {
    let mut doc = Document::parse("# A\n\na\n\n## X\n\nx\n").unwrap();
    let tree = doc.tree();
    doc.insert_heading(tree.find(&["A"]).unwrap(), "New").unwrap();
    let after = doc.tree();
    let a = after.find(&["A"]).unwrap();
    assert_eq!(a.children[0].name, "New");
    assert_eq!(a.children[0].depth, 2);
    assert_eq!(a.children[1].name, "X");
}

#[test]
fn a_rename_changes_one_title() {
    let mut doc = Document::parse("# A\n\na\n\n## **B**\n\nb\n").unwrap();
    let tree = doc.tree();
    doc.rename_heading(tree.find(&["A", "B"]).unwrap(), "C").unwrap();
    assert_eq!(doc.render(), "# A\n\na\n\n## C\n\nb\n");
    let root = doc.tree();
    assert!(matches!(doc.rename_heading(&root.root, "x"), Err(MutationError::NotADirectory)));
    assert!(matches!(doc.remove_heading(&doc.tree().root), Err(MutationError::NotEmpty)));
}

#[test]
fn a_moved_section_is_the_first_subdirectory_of_its_new_parent() {
    let mut doc = Document::parse("# A\n\n## M\n\nm\n\n### N\n\nn\n\n# B\n\nb\n\n## X\n").unwrap();
    let tree = doc.tree();
    doc.move_heading(tree.find(&["A", "M"]).unwrap(), tree.find(&["B"]).unwrap(), "M2").unwrap();
    assert_eq!(doc.render(), "# A\n\n# B\n\nb\n\n## M2\n\nm\n\n### N\n\nn\n\n## X\n");
    let after = doc.tree();
    assert_eq!(after.find(&["B"]).unwrap().children[0].name, "M2");
    let root = doc.tree();
    let err = doc.move_heading(&root.root, root.find(&["A"]).unwrap(), "x").unwrap_err();
    assert!(matches!(err, MutationError::NotADirectory));
}

#[test]
fn a_filtered_tree_holds_matches_and_their_ancestors_only() {
    let doc = Document::parse("# A\n\n## B\n\n### C\n\n# D\n\n## E\n").unwrap();
    let keep = doc.matching_headings(&|b: &Block| {
        matches!(&b.content, Content::Heading { title, .. } if title == "B")
    });
    assert_eq!(keep, vec![false, true, false, false, false]);
    let tree = doc.tree_keeping(&keep);
    assert!(tree.find(&["A", "B"]).is_some());
    assert!(tree.find(&["A", "B", "C"]).is_none());
    assert!(tree.find(&["D"]).is_none());
    assert_eq!(tree.root.children.len(), 1);
}

#[test]
fn front_matter_is_told_apart_and_replaced() {
    let mut doc = Document::parse("+++\nk = 1\n+++\n# A\n").unwrap();
    let (kind, idx) = doc.tree().front_matter.unwrap();
    assert_eq!(kind, FrontMatterKind::Toml);
    assert_eq!(doc.frontmatter_value(idx), "k = 1");
    doc.set_frontmatter(idx, "k = 2".to_string());
    assert_eq!(doc.frontmatter_value(idx), "k = 2");
    assert!(doc.render().contains("k = 2"));
}

#[test]
fn slugs_are_usable_names() {
    assert_eq!(slugify("  Title  "), "Title");
    assert_eq!(slugify("a/b\\c\0d"), "a-b-c-d");
    assert_eq!(slugify("a\tb\u{85}c"), "a b c");
    assert_eq!(slugify(" . "), "untitled");
    assert_eq!(slugify(".."), "untitled");
    assert_eq!(slugify("\t"), "untitled");
    assert_eq!(slugify("..."), "...");
    assert_eq!(slugify("Old Name"), "Old Name");
    assert_eq!(slugify(&"é".repeat(300)).chars().count(), MAX_SLUG);
}

#[test]
fn sibling_names_are_told_apart_by_numbers() {
    let mut seen = SeenNames::new();
    assert_eq!(unique_name(&mut seen, "Foo"), "Foo");
    assert_eq!(unique_name(&mut seen, " Foo"), "Foo-2");
    assert_eq!(unique_name(&mut seen, "Bar"), "Bar");
    assert_eq!(unique_name(&mut seen, "Foo"), "Foo-3");
    assert!(seen.contains("Foo-2"));
    assert!(!seen.contains("Foo-4"));
}

#[test]
fn a_name_is_not_given_out_twice() {
    let mut seen = SeenNames::new();
    let titles = ["Foo", "Foo", "Foo-2", "Foo", "Foo-2-2", "Foo-2", "Bar-2", "Bar", "Bar"];
    let names: Vec<String> = titles.iter().map(|t| unique_name(&mut seen, t)).collect();
    assert_eq!(
        names,
        vec!["Foo", "Foo-2", "Foo-2-2", "Foo-3", "Foo-2-2-2", "Foo-2-3", "Bar-2", "Bar", "Bar-3"]
    );
}

#[test]
fn every_section_is_reached_however_titles_clash() {
    let doc = Document::parse("# Foo\n\na\n\n# Foo\n\nb\n\n# Foo-2\n\nc\n").unwrap();
    let tree = doc.tree();
    let body = |name: &str| {
        let range = tree.find(&[name]).unwrap().own_content_range.clone();
        doc.render_range(range).trim().to_string()
    };
    assert_eq!(body("Foo"), "a");
    assert_eq!(body("Foo-2"), "b");
    assert_eq!(body("Foo-2-2"), "c");
}

#[test]
fn a_new_heading_does_not_take_over_deeper_ones() {
    let mut doc = Document::parse("# A\n\n### C\n\nc\n\n## D\n\nd\n").unwrap();
    let tree = doc.tree();
    doc.insert_heading(tree.find(&["A"]).unwrap(), "New").unwrap();
    assert_eq!(doc.render(), "# A\n\n### C\n\nc\n\n## New\n\n## D\n\nd\n");
    let tree = doc.tree();
    assert!(tree.find(&["A", "New"]).unwrap().is_removable());
    assert!(tree.find(&["A", "C"]).is_some());
    assert!(tree.find(&["A", "D"]).is_some());
}

#[test]
fn a_moved_heading_does_not_take_over_deeper_ones() {
    let mut doc = Document::parse("# A\n\n### C\n\nc\n\n# B\n\n## X\n\nx\n").unwrap();
    let tree = doc.tree();
    let x = tree.find(&["B", "X"]).unwrap();
    doc.move_heading(x, tree.find(&["A"]).unwrap(), "Y").unwrap();
    assert_eq!(doc.render(), "# A\n\n### C\n\nc\n\n## Y\n\nx\n\n# B\n");
    let tree = doc.tree();
    assert!(tree.find(&["A", "C"]).is_some());
    assert!(tree.find(&["A", "Y"]).unwrap().children.is_empty());
}

#[test]
fn no_heading_is_added_deeper_than_markdown_can_express() {
    let mut doc = Document::parse("##### Five\n\n###### Six\n").unwrap();
    let tree = doc.tree();
    let six = tree.find(&["Five", "Six"]).unwrap();
    assert!(matches!(doc.insert_heading(six, "x"), Err(MutationError::TooDeep)));
    assert_eq!(doc.render(), "##### Five\n\n###### Six\n");
    doc.insert_heading(tree.find(&["Five"]).unwrap(), "x").unwrap();
    assert_eq!(doc.render(), "##### Five\n\n###### x\n\n###### Six\n");
}

#[test]
fn the_own_content_of_a_section_written_back_changes_nothing() {
    let source = "intro\n\n# A\n\none two\n\n## B\n\nthree\n\n# C\n\nfour\n";
    for path in [vec![], vec!["A"], vec!["A", "B"], vec!["C"]] {
        let mut doc = Document::parse(source).unwrap();
        let range = doc.tree().find(&path).unwrap().own_content_range.clone();
        let body = doc.render_range(range.clone());
        doc.replace_section_content(range, &body).unwrap();
        assert_eq!(doc.render(), source);
        assert_eq!(doc.tree(), Document::parse(source).unwrap().tree());
    }
}

#[test]
fn bytes_are_overwritten_and_padded() {
    let mut buf = b"hello".to_vec();
    splice(&mut buf, 1, b"EL");
    assert_eq!(buf, b"hELlo");
    splice(&mut buf, 4, b"OH");
    assert_eq!(buf, b"hELlOH");
    splice(&mut buf, 8, b"!");
    assert_eq!(buf, b"hELlOH\0\0!");
    splice(&mut buf, 12, b"");
    assert_eq!(buf, b"hELlOH\0\0!\0\0\0");
}

#[test]
fn windows_end_at_the_end() {
    assert_eq!(read_window(b"abc", 1, 1), (b"b".to_vec(), false));
    assert_eq!(read_window(b"abc", 1, 2), (b"bc".to_vec(), true));
    assert_eq!(read_window(b"abc", 3, 2), (Vec::new(), true));
    assert_eq!(read_window(b"abc", 0, 0), (Vec::new(), false));
    assert_eq!(read_window(b"", 0, 1), (Vec::new(), true));
}

#[test]
fn text_is_kept_and_anything_else_replaced() {
    assert_eq!(to_text_lossy("é".as_bytes().to_vec()), "é");
    assert_eq!(to_text_lossy(b"a\xf0b".to_vec()), "a\u{fffd}b");
}
