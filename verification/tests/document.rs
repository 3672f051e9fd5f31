use mq_mount::block::{Block, Content};
use mq_mount::document::{Document, MutationError};
use mq_mount::section::{FrontMatterKind, Section};

#[test]
fn insert_heading_keeps_tight_reference_definitions_tight() {
    let mut doc = Document::parse("# A\n\n[a]: http://a\n[b]: http://b\n[c]: http://c\n\n# B\n").unwrap();
    let tree = doc.tree();
    let a = tree.find(&["A"]).unwrap();
    doc.insert_heading(a, "New").unwrap();
    assert_eq!(
        doc.render(),
        "# A\n\n[a]: http://a\n[b]: http://b\n[c]: http://c\n\n## New\n\n# B\n"
    );
}

#[test]
fn insert_heading_keeps_a_formatted_paragraph_as_one_paragraph() {
    // mq-markdown stores each inline run (plain text, bold, link, ...) of
    // one paragraph as its own flat top-level node; an edit elsewhere in
    // the document must not blow them apart into separate paragraphs.
    let mut doc = Document::parse("# A\n\nHello **bold** and [a link](http://x) here.\n\n# B\n").unwrap();
    let tree = doc.tree();
    let a = tree.find(&["A"]).unwrap();
    doc.insert_heading(a, "New").unwrap();
    assert_eq!(
        doc.render(),
        "# A\n\nHello **bold** and [a link](http://x) here.\n\n## New\n\n# B\n"
    );
}

#[test]
fn replace_section_content_leaves_an_unrelated_sections_list_and_formatting_intact() {
    let mut doc = Document::parse("# A\n\nHello **bold** [x](http://x).\n\n- a\n- b\n\n# B\n\nold\n").unwrap();
    let tree = doc.tree();
    let b = tree.find(&["B"]).unwrap();
    doc.replace_section_content(b.own_content_range.clone(), "new\n")
        .unwrap();
    assert_eq!(
        doc.render(),
        "# A\n\nHello **bold** [x](http://x).\n\n- a\n- b\n\n# B\n\nnew\n"
    );
}

#[test]
fn replace_section_content_preserves_the_blank_line_after_the_heading() {
    let mut doc = Document::parse("# Title\n\nline1\nline2\n").unwrap();
    let tree = doc.tree();
    let title = tree.find(&["Title"]).unwrap();
    let mut body = doc.render_range(title.own_content_range.clone());
    body.push_str("line3\n");
    doc.replace_section_content(title.own_content_range.clone(), &body)
        .unwrap();
    assert_eq!(doc.render(), "# Title\n\nline1\nline2\nline3\n");
}

#[test]
fn replace_section_content_keeps_a_tight_list_tight_after_appending_an_item() {
    let mut doc = Document::parse("# Ideas\n\n- ship the watch mode\n\n# Todo\n\n- record a demo\n").unwrap();
    let tree = doc.tree();
    let ideas = tree.find(&["Ideas"]).unwrap();
    let mut body = doc.render_range(ideas.own_content_range.clone());
    body.push_str("- also ship the demo gif\n");
    doc.replace_section_content(ideas.own_content_range.clone(), &body)
        .unwrap();
    assert_eq!(
        doc.render(),
        "# Ideas\n\n- ship the watch mode\n- also ship the demo gif\n\n# Todo\n\n- record a demo\n"
    );
}

#[test]
fn insert_heading_keeps_a_nested_list_intact() {
    let mut doc = Document::parse("# Title\n\n- a\n  - a1\n  - a2\n- b\n").unwrap();
    let tree = doc.tree();
    let title = tree.find(&["Title"]).unwrap();
    doc.insert_heading(title, "New").unwrap();
    assert_eq!(doc.render(), "# Title\n\n- a\n  - a1\n  - a2\n- b\n\n## New\n");
}

#[test]
fn replace_section_content_preserves_blank_lines_between_paragraphs() {
    let mut doc = Document::parse("# Title\n\npara one\n\npara two\n\npara three\n").unwrap();
    let tree = doc.tree();
    let title = tree.find(&["Title"]).unwrap();
    let body = doc.render_range(title.own_content_range.clone());
    doc.replace_section_content(title.own_content_range.clone(), &body)
        .unwrap();
    assert_eq!(doc.render(), "# Title\n\npara one\n\npara two\n\npara three\n");
}

#[test]
fn insert_heading_preserves_blank_lines_around_the_new_heading() {
    let mut doc = Document::parse("# Title\n\nintro\n\n## A\n\na body\n").unwrap();
    let tree = doc.tree();
    let title = tree.find(&["Title"]).unwrap();
    doc.insert_heading(title, "New").unwrap();
    assert_eq!(doc.render(), "# Title\n\nintro\n\n## New\n\n## A\n\na body\n");
}

fn names(sections: &[Section]) -> Vec<&str> {
    sections.iter().map(|s| s.name.as_str()).collect()
}

#[test]
fn flat_document_has_no_headings() {
    let doc = Document::parse("just a paragraph\n").unwrap();
    let tree = doc.tree();
    assert!(tree.root.children.is_empty());
    assert_eq!(doc.render_range(tree.root.own_content_range), "just a paragraph\n");
}

#[test]
fn nested_headings_build_expected_tree() {
    let doc = Document::parse("# A\n\nintro\n\n## B\n\nb body\n\n### C\n\nc body\n\n## D\n\nd body\n").unwrap();
    let tree = doc.tree();
    assert_eq!(names(&tree.root.children), vec!["A"]);
    let a = &tree.root.children[0];
    assert_eq!(names(&a.children), vec!["B", "D"]);
    let b = &a.children[0];
    assert_eq!(names(&b.children), vec!["C"]);
    assert_eq!(doc.render_range(a.own_content_range.clone()).trim(), "intro");
    assert_eq!(doc.render_range(b.own_content_range.clone()).trim(), "b body");
    assert_eq!(
        doc.render_range(b.children[0].own_content_range.clone()).trim(),
        "c body"
    );
}

#[test]
fn duplicate_sibling_titles_get_suffixed() {
    let doc = Document::parse("## Foo\n\na\n\n## Foo\n\nb\n\n## Foo\n\nc\n").unwrap();
    let tree = doc.tree();
    assert_eq!(names(&tree.root.children), vec!["Foo", "Foo-2", "Foo-3"]);
}

#[test]
fn heading_shallower_than_container_becomes_root_sibling() {
    // A `#` typed inside a `###`-deep section's content is a document-order
    // event, not indentation: it closes out to a top-level section.
    let doc = Document::parse("### Deep\n\n# Shallow\n").unwrap();
    let tree = doc.tree();
    assert_eq!(names(&tree.root.children), vec!["Deep", "Shallow"]);
}

#[test]
fn frontmatter_is_extracted() {
    let doc = Document::parse("---\nkey: value\n---\n# H\n").unwrap();
    let tree = doc.tree();
    let (found_kind, idx) = tree.front_matter.expect("front matter present");
    assert_eq!(found_kind, FrontMatterKind::Yaml);
    assert_eq!(doc.frontmatter_value(idx).trim(), "key: value");
}

fn depth_filter(depth: u8) -> impl Fn(&Block) -> bool {
    move |block: &Block| matches!(block.content, Content::Heading { depth: d, .. } if d == depth)
}

#[test]
fn tree_filtered_keeps_only_matching_sections() {
    let doc = Document::parse("# A\n\n## B\n\nb\n\n# C\n\nc\n").unwrap();
    let tree = doc.tree_filtered(&depth_filter(1));
    assert_eq!(names(&tree.root.children), vec!["A", "C"]);
    assert!(tree.find(&["A", "B"]).is_none(), "a non-matching child is pruned");
}

#[test]
fn tree_filtered_keeps_non_matching_ancestors_of_a_match() {
    let doc = Document::parse("# A\n\n## B\n\n### C\n\nleaf\n").unwrap();
    // Only depth-3 headings match; A and B don't match themselves but
    // must stay visible so C remains reachable by path.
    let tree = doc.tree_filtered(&depth_filter(3));
    let c = tree
        .find(&["A", "B", "C"])
        .expect("matching leaf survives under its ancestors");
    assert_eq!(doc.render_range(c.own_content_range.clone()).trim(), "leaf");
    assert!(
        tree.find(&["A"]).unwrap().children.len() == 1,
        "A keeps only the path to the match"
    );
}

#[test]
fn tree_filtered_with_no_match_collapses_to_an_empty_root() {
    let doc = Document::parse("# A\n\n## B\n\nb\n").unwrap();
    let tree = doc.tree_filtered(&depth_filter(9));
    assert!(tree.root.children.is_empty());
}

#[test]
fn insert_rename_and_remove_heading_round_trip() {
    let mut doc = Document::parse("# Title\n\nintro\n").unwrap();
    let tree = doc.tree();
    let title = tree.find(&["Title"]).unwrap();
    doc.insert_heading(title, "Sub").unwrap();

    let tree = doc.tree();
    let sub = tree.find(&["Title", "Sub"]).unwrap();
    assert_eq!(sub.depth, 2);
    assert!(sub.is_removable());

    doc.rename_heading(sub, "Renamed").unwrap();
    let tree = doc.tree();
    assert!(tree.find(&["Title", "Sub"]).is_none());
    let renamed = tree.find(&["Title", "Renamed"]).unwrap();
    assert!(renamed.is_removable());

    doc.remove_heading(renamed).unwrap();
    let tree = doc.tree();
    assert!(tree.find(&["Title", "Renamed"]).is_none());
    assert!(doc.render().contains("# Title"));
    assert!(!doc.render().contains("Renamed"));
}

#[test]
fn move_heading_keeps_a_tight_list_in_the_moved_subtree_tight() {
    let mut doc = Document::parse("# A\n\n## B\n\n- a\n- b\n\n# D\n\nd\n").unwrap();
    let tree = doc.tree();
    let b = tree.find(&["A", "B"]).unwrap();
    let d = tree.find(&["D"]).unwrap();
    doc.move_heading(b, d, "Moved").unwrap();
    assert_eq!(doc.render(), "# A\n\n# D\n\nd\n\n## Moved\n\n- a\n- b\n");
}

#[test]
fn move_heading_reparents_a_section_and_its_subtree() {
    let mut doc = Document::parse("# A\n\nintro\n\n## B\n\nb\n\n### C\n\nc\n\n# D\n\nd\n\n## E\n\ne\n").unwrap();
    let tree = doc.tree();
    let b = tree.find(&["A", "B"]).unwrap();
    let e = tree.find(&["D", "E"]).unwrap();
    doc.move_heading(b, e, "Moved").unwrap();

    let tree = doc.tree();
    assert!(tree.find(&["A", "B"]).is_none(), "B no longer under A");
    assert!(tree.find(&["A"]).unwrap().children.is_empty(), "A has no children left");

    let moved = tree.find(&["D", "E", "Moved"]).expect("B now lives under D/E as Moved");
    assert_eq!(doc.render_range(moved.own_content_range.clone()).trim(), "b");
    let child = tree
        .find(&["D", "E", "Moved", "C"])
        .expect("C moved along with its parent");
    assert_eq!(doc.render_range(child.own_content_range.clone()).trim(), "c");

    // Depths must stay valid ATX headings (round-trips through render+reparse).
    let reparsed = Document::parse(&doc.render()).unwrap();
    assert!(reparsed.tree().find(&["D", "E", "Moved", "C"]).is_some());
}

#[test]
fn move_heading_rejects_duplicate_name_at_destination() {
    let mut doc = Document::parse("# A\n\n## X\n\nax\n\n# B\n\n## X\n\nbx\n").unwrap();
    let tree = doc.tree();
    let a_x = tree.find(&["A", "X"]).unwrap();
    let b = tree.find(&["B"]).unwrap();
    let err = doc.move_heading(a_x, b, "X").unwrap_err();
    assert!(matches!(err, MutationError::AlreadyExists(_)));
}

#[test]
fn move_heading_rejects_moving_into_its_own_subtree() {
    let mut doc = Document::parse("# A\n\n## B\n\nb\n").unwrap();
    let tree = doc.tree();
    let a = tree.find(&["A"]).unwrap();
    let b = tree.find(&["A", "B"]).unwrap();
    let err = doc.move_heading(a, b, "A").unwrap_err();
    assert!(matches!(err, MutationError::WouldCreateCycle));
}

#[test]
fn move_heading_rejects_when_it_would_exceed_heading_depth_6() {
    let mut doc = Document::parse(
        "# 1\n\n## 2\n\n### 3\n\n#### 4\n\n##### 5\n\n###### 6\n\nleaf\n\n\
         # Other\n\n## OA\n\n### OB\n\n#### OC\n\n##### OD\n\n###### OE\n\noe leaf\n",
    )
    .unwrap();
    let tree = doc.tree();
    // "2" carries its depth-6 leaf; under depth-6 "OE" that needs depth 7+.
    let two = tree.find(&["1", "2"]).unwrap();
    let oe = tree.find(&["Other", "OA", "OB", "OC", "OD", "OE"]).unwrap();
    let err = doc.move_heading(two, oe, "Moved").unwrap_err();
    assert!(matches!(err, MutationError::TooDeep));
}

#[test]
fn insert_heading_rejects_duplicate_sibling_name() {
    let mut doc = Document::parse("# Title\n\n## Sub\n\nbody\n").unwrap();
    let tree = doc.tree();
    let title = tree.find(&["Title"]).unwrap();
    let err = doc.insert_heading(title, "Sub").unwrap_err();
    assert!(matches!(err, MutationError::AlreadyExists(_)));
}

#[test]
fn remove_heading_rejects_nonempty_section() {
    let mut doc = Document::parse("# Title\n\nintro\n").unwrap();
    let tree = doc.tree();
    let title = tree.find(&["Title"]).unwrap();
    let err = doc.remove_heading(title).unwrap_err();
    assert!(matches!(err, MutationError::NotEmpty));
}

#[test]
fn replace_section_content_with_new_heading_creates_subdirectory() {
    let mut doc = Document::parse("# Title\n\nintro\n").unwrap();
    let tree = doc.tree();
    let title = tree.find(&["Title"]).unwrap();
    doc.replace_section_content(title.own_content_range.clone(), "intro\n\n## New\n\nchild body\n")
        .unwrap();

    let tree = doc.tree();
    let new_section = tree
        .find(&["Title", "New"])
        .expect("typed heading became a subdirectory");
    assert_eq!(
        doc.render_range(new_section.own_content_range.clone()).trim(),
        "child body"
    );
}

#[test]
fn replace_section_content_does_not_glue_onto_the_next_heading() {
    let mut doc = Document::parse("# Title\n\n## A\n\nold\n\n## B\n\nb body\n").unwrap();
    let tree = doc.tree();
    let a = tree.find(&["Title", "A"]).unwrap();
    doc.replace_section_content(a.own_content_range.clone(), "new\n")
        .unwrap();

    let reparsed = Document::parse(&doc.render()).unwrap();
    let tree = reparsed.tree();
    let a = tree.find(&["Title", "A"]).expect("A survives re-parse");
    assert_eq!(reparsed.render_range(a.own_content_range.clone()).trim(), "new");
    assert!(tree.find(&["Title", "B"]).is_some(), "B survives re-parse");
}
