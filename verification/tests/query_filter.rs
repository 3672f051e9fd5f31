use mq_mount::document::Document;
use mq_mount::fs::MqFs;
use mq_mount::inode::ROOT_INO;
use mq_mount::mount::Source;
use mq_mount::query_filter::{compile, filter_of, is_match, is_runnable, HeadingFilter, REFUSED_QUERY};
use mq_mount::vfs::VfsError;

fn source(text: &str) -> Source {
    Source::open(b"/doc.md".to_vec(), vec!["doc".to_string()], text.to_string(), None).unwrap()
}

#[test]
fn a_query_matches_where_it_yields_a_value() {
    assert!(is_match(Some(1)));
    assert!(!is_match(Some(0)));
    assert!(!is_match(None));
}

#[test]
fn a_query_that_does_not_compile_is_refused() {
    assert!(!compile("select(").unwrap_err().message.is_empty());
    assert_eq!(compile(".h2").unwrap().query, ".h2");
    assert!(compile("").is_ok());
}

#[test]
fn a_query_that_could_do_harm_is_refused() {
    let deep = format!("{}{}", "not(".repeat(25), ")".repeat(25));
    let wide = format!("or({}1)", "1, ".repeat(201));
    for query in [
        "halt(1)",
        "halt_error()",
        "select(contains(\"a\")) | halt(1)",
        "\"\\\"\" | halt(1)",
        "s\"${halt(1)}\"",
        "s\"${self}\"",
        "input()",
        "import \"test\" | test::run_tests([])",
        "get_variable(\"ha\" + \"lt\")",
        "# \"\nhalt(1)",
        "del(\"a\", 5)",
        "strftime(0, \"%\")",
        "to_date(0, \"%\")",
        "_sort_by_impl([1, 2])",
        "macro m(): None | m()",
        "date_add(gmtime(0), 9999999999999, \"days\")",
        "set([], 99999999999999999999, 1)",
        "insert([], 99999999999999999999, 1)",
        "pow(10, 30)",
        "9223372036854775807..9223372036854775807",
        "\"aaaaaaaa\"..\"zzzzzzzz\"",
        ".. | .h",
        "self >> 255",
        "self << 1",
        ".depth |= 300",
        "select = 1",
        "1.5halt(1)",
        ".>halt(1)",
        "$HOME",
        "now()",
        "while(true): 1",
        "def f(): f(); | f()",
        "select(contains(\"\u{e9}\")) | \u{e9}",
        deep.as_str(),
        wide.as_str(),
    ] {
        assert!(!is_runnable(query), "{query}");
        assert_eq!(compile(query).unwrap_err().message, REFUSED_QUERY);
        let filter = HeadingFilter { query: query.to_string() };
        let doc = Document::parse("# A\n").unwrap();
        assert_eq!(filter.run(&doc.blocks[0]), None);
        assert!(!filter.matches(&doc.blocks[0]));
    }
}

#[test]
fn queries_may_be_nested_and_long_up_to_a_limit() {
    let doc = Document::parse("# A\n").unwrap();
    let deep = format!("select({}true{})", "identity(".repeat(23), ")".repeat(23));
    assert_eq!(compile(&deep).unwrap().run(&doc.blocks[0]), Some(1));
    let wide = format!("select(or({}true))", "false, ".repeat(200));
    assert_eq!(compile(&wide).unwrap().run(&doc.blocks[0]), Some(1));
    let closed = format!("{}true", ")".repeat(3));
    assert!(is_runnable(&closed));
    assert_eq!(HeadingFilter { query: closed }.run(&doc.blocks[0]), None);
}

#[test]
fn functions_of_the_query_language_may_be_used() {
    let doc = Document::parse("# Abc def\n\n## xyz\n").unwrap();
    for (query, expected) in [
        ("select(.depth == 2)", vec![false, true]),
        ("select(.depth != 2 && .level <= 6)", vec![true, false]),
        ("select(attr(\"depth\") >= 2)", vec![false, true]),
        (".h(1, 3)", vec![true, false]),
        ("select(is_h_level(2))", vec![false, true]),
        ("select(self =~ \"^A\")", vec![true, false]),
        ("select(self !~ \"^A\")", vec![false, true]),
        ("select(test(\"c d\"))", vec![true, false]),
        ("select(len(regex_match(\"[a-z]+\")) == 2)", vec![true, false]),
        ("select(len(scan(\"y\")) == 1)", vec![false, true]),
        ("select(index(\"def\") == 4)", vec![true, false]),
        ("select(rindex(\"z\") == 2)", vec![false, true]),
        ("select(slice(to_text(self), 0, 3) == \"Abc\")", vec![true, false]),
        ("select(downcase(to_text(self)) == \"abc def\")", vec![true, false]),
        ("select(ltrimstr(to_text(self), \"x\") == \"yz\")", vec![false, true]),
        ("select(len() < 4)\n\t| select(is_markdown())", vec![false, true]),
        ("select(between(len(), 5, 9))", vec![true, false]),
        ("select(to_md_name(self) == \"h2\")", vec![false, true]),
        ("select(min(len(), 5) == 5 || !is_string(self) && false)", vec![true, false]),
        ("select(type(.depth) == \"number\")", vec![true, true]),
        ("select(coalesce(None, false))", vec![false, false]),
        ("to_number(\"x\")", vec![false, false]),
        ("select(is_regex_match(\"(\"))", vec![false, false]),
        ("select(1, 2, 3)", vec![false, false]),
    ] {
        assert_eq!(compile(query).unwrap().matching(&doc), expected, "{query}");
    }
}

#[test]
fn words_in_texts_do_not_matter() {
    let doc = Document::parse("# halt\n\n# import \\\"x\n\n# A\n").unwrap();
    assert!(is_runnable("select(contains(\"halt\"))"));
    assert_eq!(compile("select(contains(\"halt\"))").unwrap().matching(&doc), vec![true, false, false]);
    assert_eq!(compile("select(contains(\"import \\\"\"))").unwrap().matching(&doc), vec![false, true, false]);
}

#[test]
fn a_query_is_compiled_as_it_is() {
    assert!(compile("select(contains(\"TODO\"))").is_ok());
    assert!(compile("select(contains(\"TODO\")").is_err());
    let first = compile(")").unwrap_err().message;
    assert_eq!(first, compile(")").unwrap_err().message);
    assert_ne!(first, REFUSED_QUERY);
}

#[test]
fn plain_queries_go_by_the_heading_alone() {
    let doc = Document::parse("# TODO: a\n\n## b\n\n## TODO\n").unwrap();
    for (query, expected) in [
        ("select(contains(\"TODO\"))", vec![true, false, true]),
        ("select(starts_with(\"b\"))", vec![false, true, false]),
        ("select(is_h2() && contains(\"TODO\"))", vec![false, false, true]),
        ("select(not(contains(\"TODO\")))", vec![false, true, false]),
    ] {
        assert_eq!(compile(query).unwrap().matching(&doc), expected, "{query}");
    }
    let values = compile("select(contains(\"TODO\"))").unwrap().run(&doc.blocks[0]);
    assert_eq!(values, Some(1));
}

#[test]
fn the_query_engine_decides_on_the_filter() {
    assert_eq!(filter_of("q", Ok(())).unwrap().query, "q");
    assert_eq!(filter_of("q", Err("no".to_string())).unwrap_err().message, "no");
}

#[test]
fn headings_match_by_depth_and_by_text() {
    let doc = Document::parse("# A\n\ntext\n\n## TODO: B\n").unwrap();
    assert_eq!(compile(".h2").unwrap().matching(&doc), vec![false, false, true]);
    assert_eq!(compile(".h1").unwrap().matching(&doc), vec![true, false, false]);
    assert_eq!(compile("select(contains(\"TODO\"))").unwrap().matching(&doc), vec![false, false, true]);
    assert_eq!(compile(".h2").unwrap().run(&doc.blocks[1]), None);
    assert!(!compile(".h2").unwrap().matches(&doc.blocks[0]));
    assert!(compile(".h2").unwrap().matches(&doc.blocks[2]));
}

#[test]
fn a_depth_query_counts_a_heading_of_that_depth_once() {
    let text = "# One\n\n## *Two* [2](u) `2`\n\n### Three\n\n#### Four\n\n##### Five\n\n###### Six\n\n## [[Page]] <b>\n";
    let doc = Document::parse(text).unwrap();
    let depths: Vec<u8> = vec![1, 2, 3, 4, 5, 6, 2];
    assert_eq!(doc.blocks.len(), depths.len());
    for level in 1..=6u8 {
        let filter = compile(&format!(".h{level}")).unwrap();
        for (block, depth) in doc.blocks.iter().zip(&depths) {
            assert_eq!(filter.run(block), Some(usize::from(*depth == level)));
            assert_eq!(filter.matches(block), *depth == level);
        }
    }
    for query in ["", ".h"] {
        let filter = compile(query).unwrap();
        for block in &doc.blocks {
            assert_eq!(filter.run(block), Some(1));
            assert!(filter.matches(block));
        }
    }
}

#[test]
fn a_heading_without_a_title_matches_no_depth_query() {
    let doc = Document::parse("##\n\ntext\n").unwrap();
    for query in ["", ".h", ".h1", ".h2"] {
        let filter = compile(query).unwrap();
        assert_eq!(filter.run(&doc.blocks[0]), Some(0));
        assert!(!filter.matches(&doc.blocks[0]));
        assert_eq!(filter.run(&doc.blocks[1]), None);
    }
}

#[test]
fn a_heading_made_from_its_title_matches_by_depth() {
    let mut doc = Document::parse("# A\n").unwrap();
    let tree = doc.tree();
    let a = tree.find(&["A"]).unwrap();
    doc.insert_heading(a, "New").unwrap();
    assert_eq!(compile(".h2").unwrap().run(&doc.blocks[1]), Some(1));
    assert_eq!(compile(".h3").unwrap().run(&doc.blocks[1]), Some(0));
    assert_eq!(compile(".h").unwrap().run(&doc.blocks[1]), Some(1));
    doc.insert_heading(a, "").unwrap();
    assert_eq!(compile(".h2").unwrap().run(&doc.blocks[1]), Some(0));
    assert_eq!(compile("").unwrap().run(&doc.blocks[1]), Some(0));
}

#[test]
fn a_query_that_fails_matches_nothing() {
    let doc = Document::parse("# A\n").unwrap();
    let filter = HeadingFilter { query: "select(".to_string() };
    assert_eq!(filter.run(&doc.blocks[0]), None);
    assert!(!filter.matches(&doc.blocks[0]));
}

#[test]
fn only_matching_sections_and_their_ancestors_are_mounted() {
    let mut file = source("# A\n\na\n\n## B\n\nb\n\n# C\n\nc\n");
    compile(".h2").unwrap().apply(&mut file);
    let fs = MqFs::new(vec![file], false, false, 0, 0);
    assert!(fs.readonly());
    let doc = fs.lookup(ROOT_INO, "doc").unwrap();
    let a = fs.lookup(doc, "A").unwrap();
    assert!(fs.lookup(a, "B").is_ok());
    assert_eq!(fs.lookup(doc, "C"), Err(VfsError::NotFound));
}
