//! Showing only the sections whose headings match a query.
//!
//! The query engine is not shared between calls: a query is compiled anew for each heading. It is
//! compiled once beforehand, so that a mistake in it is reported when the mount is made.
use mq_lang::{DefaultEngine, RuntimeValue};
use mq_markdown::{Heading, Node, Point, Position};
use vstd::prelude::*;

use crate::block::{parsed, text_node_of, Block, BlockView, Content, ContentView, Span};
use crate::document::Document;
use crate::mount::{Source, SourceView};
use crate::text::{chars_of, same_text, string_of, sub_chars};

verus! {

/// The code of a query: all of it but the insides of its string literals. `inside` tells whether it
/// begins in one. What follows a `#` or stands in an interpolated string, `s"..."`, counts as code.
pub open spec fn code_of(query: Seq<char>, inside: bool) -> Seq<char>
    decreases query.len(),
{
    if query.len() == 0 {
        Seq::empty()
    } else if inside {
        if query[0] == '\\' && query.len() > 1 {
            code_of(query.skip(2), true)
        } else {
            code_of(query.skip(1), query[0] != '"')
        }
    } else if query[0] == '#' || (query[0] == 's' && query.len() > 1 && query[1] == '"') {
        query
    } else {
        seq![query[0]] + code_of(query.skip(1), query[0] == '"')
    }
}

/// Whether a character may occur in a name.
pub open spec fn is_name_char(c: char) -> bool {
    'a' <= c <= 'z' || 'A' <= c <= 'Z' || is_digit(c) || c == '_'
}

/// Whether a character is a digit.
pub open spec fn is_digit(c: char) -> bool {
    '0' <= c <= '9'
}

/// Functions that tell headings and other nodes apart.
pub open spec fn is_heading_test(name: Seq<char>) -> bool {
    ||| name == "is_h"@ || name == "is_h1"@ || name == "is_h2"@ || name == "is_h3"@
    ||| name == "is_h4"@ || name == "is_h5"@ || name == "is_h6"@ || name == "is_h_level"@
    ||| name == "is_markdown"@ || name == "is_text"@ || name == "is_code"@ || name == "is_html"@
    ||| name == "is_em"@ || name == "is_list"@ || name == "is_callout"@ || name == "is_yaml"@
    ||| name == "is_toml"@ || name == "is_table_align"@ || name == "is_table_cell"@
    ||| name == "is_mdx"@
}

/// Functions that tell values apart, and those that hand on the values of one sort.
pub open spec fn is_value_test(name: Seq<char>) -> bool {
    ||| name == "type"@ || name == "is_string"@ || name == "is_number"@ || name == "is_bool"@
    ||| name == "is_none"@ || name == "is_array"@ || name == "is_dict"@ || name == "is_bytes"@
    ||| name == "is_empty"@ || name == "is_nan"@ || name == "strings"@ || name == "numbers"@
    ||| name == "booleans"@ || name == "nones"@ || name == "arrays"@ || name == "dicts"@
    ||| name == "markdowns"@ || name == "iterables"@ || name == "scalars"@ || name == "identity"@
    ||| name == "coalesce"@
}

/// Functions on texts.
pub open spec fn is_text_function(name: Seq<char>) -> bool {
    ||| name == "contains"@ || name == "starts_with"@ || name == "ends_with"@ || name == "test"@
    ||| name == "is_regex_match"@ || name == "is_not_regex_match"@ || name == "regex_match"@
    ||| name == "scan"@ || name == "index"@ || name == "rindex"@ || name == "len"@
    ||| name == "utf8bytelen"@ || name == "slice"@ || name == "trim"@ || name == "ltrim"@
    ||| name == "rtrim"@ || name == "ltrimstr"@ || name == "rtrimstr"@ || name == "upcase"@
    ||| name == "downcase"@ || name == "ascii_upcase"@ || name == "ascii_downcase"@
    ||| name == "strip_tags"@ || name == "to_text"@ || name == "to_string"@
}

/// Functions that choose and compare, functions on numbers, and constants.
pub open spec fn is_logic_name(name: Seq<char>) -> bool {
    ||| name == "select"@ || name == "and"@ || name == "or"@ || name == "not"@ || name == "eq"@
    ||| name == "ne"@ || name == "lt"@ || name == "lte"@ || name == "gt"@ || name == "gte"@
    ||| name == "between"@ || name == "min"@ || name == "max"@ || name == "abs"@ || name == "ceil"@
    ||| name == "floor"@ || name == "round"@ || name == "trunc"@ || name == "sqrt"@
    ||| name == "to_number"@ || name == "to_boolean"@ || name == "attr"@ || name == "to_md_name"@
    ||| name == "get_url"@ || name == "get_title"@ || name == "matches_url"@ || name == "compact"@
    ||| name == "flatten"@ || name == "true"@ || name == "false"@ || name == "None"@
    ||| name == "self"@
}

/// Where the name ends that goes on at `i`.
pub open spec fn name_end(code: Seq<char>, i: int) -> int
    decreases code.len() - i,
{
    if 0 <= i < code.len() && is_name_char(code[i]) {
        name_end(code, i + 1)
    } else {
        i
    }
}

/// Whether a name begins at `i`.
pub open spec fn begins_name(code: Seq<char>, i: int) -> bool {
    is_name_char(code[i]) && (i == 0 || !is_name_char(code[i - 1]))
}

/// Whether the name at `i` may be used: a selector, a number, or one of the names above.
pub open spec fn may_name(code: Seq<char>, i: int) -> bool {
    let name = code.subrange(i, name_end(code, i));
    ||| i > 0 && code[i - 1] == '.' && !is_digit(code[i])
    ||| forall|k: int| 0 <= k < name.len() ==> is_digit(#[trigger] name[k])
    ||| is_heading_test(name)
    ||| is_value_test(name)
    ||| is_text_function(name)
    ||| is_logic_name(name)
}

/// Whether the character at `i` may stand there, if it is not part of a name. There are no ranges
/// (`..`), no shifts (`<<` and `>>`) and no assignments (`=` and `|=`).
pub open spec fn may_mark(code: Seq<char>, i: int) -> bool {
    let c = code[i];
    let doubled = i + 1 < code.len() && code[i + 1] == c;
    ||| c == ' ' || c == '\t' || c == '\n' || c == '"'
    ||| c == '(' || c == ')' || c == ',' || c == '|' || c == '&' || c == '!' || c == '~'
    ||| (c == '.' || c == '<' || c == '>') && !doubled
    ||| c == '=' && (i > 0 ==> code[i - 1] != '|') && {
        ||| doubled
        ||| i + 1 < code.len() && code[i + 1] == '~'
        ||| i > 0 && (code[i - 1] == '=' || code[i - 1] == '!' || code[i - 1] == '<' || code[i - 1]
            == '>')
    }
}

/// How many brackets are open after the first `n` characters.
pub open spec fn nesting(code: Seq<char>, n: nat) -> nat
    decreases n,
{
    if n == 0 {
        0
    } else {
        let before = nesting(code, (n - 1) as nat);
        if code[n - 1] == '(' {
            before + 1
        } else if code[n - 1] == ')' && before > 0 {
            (before - 1) as nat
        } else {
            before
        }
    }
}

/// How many commas are among the first `n` characters.
pub open spec fn commas(code: Seq<char>, n: nat) -> nat
    decreases n,
{
    if n == 0 {
        0
    } else if code[n - 1] == ',' {
        commas(code, (n - 1) as nat) + 1
    } else {
        commas(code, (n - 1) as nat)
    }
}

/// How deep brackets may be nested in a query. The engine's own limit on nested calls is larger than
/// this leads to, and depends on how it was built.
pub const MAX_NESTING: u32 = 24;

/// How many commas a query may hold. The engine takes numbers of arguments modulo 256.
pub const MAX_COMMAS: u32 = 200;

/// Whether a query may be run: it is made of selectors, texts, numbers, comparisons, logical operators
/// and functions that go by their arguments alone, that are done for whatever arguments, and that do
/// not repeat anything.
pub open spec fn may_run(query: Seq<char>) -> bool {
    let code = code_of(query, false);
    &&& forall|i: int|
        0 <= i < code.len() ==> is_name_char(#[trigger] code[i]) || may_mark(code, i)
    &&& forall|i: int|
        0 <= i < code.len() && #[trigger] begins_name(code, i) ==> may_name(code, i)
    &&& forall|n: nat| n <= code.len() ==> #[trigger] nesting(code, n) <= MAX_NESTING
    &&& commas(code, code.len()) <= MAX_COMMAS
}

/// Why a query is refused that may not be run.
pub const REFUSED_QUERY: &'static str =
    "a filter is made of selectors, texts, numbers, comparisons, `&&`, `||`, `!` and functions that test a heading";

/// The message with which a query does not compile, if it does not.
pub uninterp spec fn query_error(query: Seq<char>) -> Option<Seq<char>>;

/// `Engine::compile` on a fresh engine: tells whether `query` compiles, or the message of the error.
/// The empty query compiles. What comes of any other that may be run depends on its text alone, and is
/// called [`query_error`].
#[verifier::external_body]
fn check_query(query: &str) -> (r: Result<(), String>)
    requires
        may_run(query@),
    ensures
        query@.len() == 0 ==> r is Ok,
        match r {
            Ok(_) => query_error(query@) is None,
            Err(message) => query_error(query@) == Some(message@),
        },
{
    let mut engine = DefaultEngine::default();
    engine.load_builtin_module();
    engine.compile(query).map(|_| ()).map_err(|e| e.to_string())
}

/// Whether `query` selects headings by their depth alone: `.h1` to `.h6` name a depth, while `.h` and
/// the empty query take any heading.
pub open spec fn is_depth_query(query: Seq<char>) -> bool {
    ||| query.len() == 0
    ||| query == seq!['.', 'h']
    ||| {
        &&& query.len() == 3
        &&& query[0] == '.'
        &&& query[1] == 'h'
        &&& '1' as int <= query[2] as int <= '6' as int
    }
}

/// Whether a query that goes by depth alone takes headings of this depth.
pub open spec fn takes_depth(query: Seq<char>, depth: u8) -> bool
    recommends
        is_depth_query(query),
{
    query.len() == 3 ==> query[2] as int == '0' as int + depth
}

/// Whether the parser gives, at place `i` of `source`, a heading with this title and these inline
/// nodes.
pub open spec fn is_parsed_heading(
    source: Seq<char>,
    i: int,
    title: Seq<char>,
    markup: Seq<Node>,
) -> bool {
    &&& parsed(source) is Ok
    &&& 0 <= i < parsed(source)->Ok_0.len()
    &&& parsed(source)->Ok_0[i].content matches ContentView::Heading { title: t, markup: m, .. }
    &&& t == title
    &&& m == markup
}

/// Whether `markup` are the inline nodes of a heading with this title: those that the parser gives,
/// or the one text node of a heading that was made from its title.
pub open spec fn spells(markup: Seq<Node>, title: Seq<char>) -> bool {
    ||| markup == seq![text_node_of(title)]
    ||| exists|source: Seq<char>, i: int| #[trigger] is_parsed_heading(source, i, title, markup)
}

/// How many values a query that goes by depth alone yields for a heading: the heading itself where it
/// takes that depth. A heading with an empty title counts as an empty value.
pub open spec fn depth_query_values(query: Seq<char>, depth: u8, title: Seq<char>) -> usize {
    if takes_depth(query, depth) && title.len() > 0 {
        1
    } else {
        0
    }
}

/// How many values other than empty ones a query that may be run yields for a heading, or nothing
/// where it fails.
pub uninterp spec fn query_values(
    query: Seq<char>,
    depth: u8,
    markup: Seq<Node>,
    span: Option<Span>,
) -> Option<usize>;

/// `Engine::eval_compiled` on a fresh engine: how many values other than empty ones `query` yields
/// for a heading, or nothing where it fails. For a query that may be run this depends on the query and
/// the heading alone, and is called [`query_values`]. Among the others are queries on which the engine
/// panics, ends the process, waits for input or does not come to an end.
///
/// The empty query and a heading selector, `.h` or `.h1` to `.h6`, yield the heading itself where it
/// has the depth asked for. Where it has not, they look for headings among its inline nodes, and one
/// that was parsed or made from its title has none there. `RuntimeValues::compact` drops a heading
/// without text.
#[verifier::external_body]
fn count_values(query: &str, depth: u8, markup: &Vec<Node>, span: Option<Span>) -> (n: Option<usize>)
    requires
        may_run(query@),
    ensures
        n == query_values(query@, depth, markup@, span),
        is_depth_query(query@) ==> forall|title: Seq<char>| #[trigger]
            spells(markup@, title) ==> n == Some(depth_query_values(query@, depth, title)),
{
    let mut engine = DefaultEngine::default();
    engine.load_builtin_module();
    let compiled = engine.compile(query).ok()?;
    let position = span.map(|s| Position {
        start: Point { line: s.start_line, column: s.start_column },
        end: Point { line: s.end_line, column: s.end_column },
    });
    let heading = Node::Heading(Heading { depth, values: markup.clone(), position });
    let input = std::iter::once(RuntimeValue::from(heading));
    let values = engine.eval_compiled(&compiled, input).ok()?;
    Some(values.compact().len())
}

/// The code of a query.
fn find_code(query: &Vec<char>) -> (code: Vec<char>)
    ensures
        code@ == code_of(query@, false),
{
    let mut code: Vec<char> = Vec::new();
    let mut inside = false;
    let mut i: usize = 0;
    assert(query@.skip(0) =~= query@);
    assert(code@ + code_of(query@, false) =~= code_of(query@, false));
    while i < query.len()
        invariant
            i <= query@.len(),
            code@ + code_of(query@.skip(i as int), inside) == code_of(query@, false),
        decreases query@.len() - i,
    {
        let ghost rest = query@.skip(i as int);
        let c = query[i];
        let more = i + 1 < query.len();
        if inside {
            if c == '\\' && more {
                assert(rest.skip(2) =~= query@.skip(i + 2));
                i += 2;
            } else {
                assert(rest.skip(1) =~= query@.skip(i + 1));
                inside = c != '"';
                i += 1;
            }
        } else if c == '#' || (c == 's' && more && query[i + 1] == '"') {
            let mut tail = sub_chars(query, i, query.len());
            assert(tail@ =~= rest);
            code.append(&mut tail);
            return code;
        } else {
            let ghost before = code@;
            assert(rest.skip(1) =~= query@.skip(i + 1));
            code.push(c);
            inside = c == '"';
            i += 1;
            assert(before + (seq![c] + code_of(query@.skip(i as int), inside)) =~= code@ + code_of(
                query@.skip(i as int),
                inside,
            ));
        }
    }
    assert(code@ + Seq::<char>::empty() =~= code@);
    code
}

fn find_heading_test(name: &str) -> (r: bool)
    ensures
        r == is_heading_test(name@),
{
    same_text(name, "is_h") || same_text(name, "is_h1") || same_text(name, "is_h2")
        || same_text(name, "is_h3") || same_text(name, "is_h4") || same_text(name, "is_h5")
        || same_text(name, "is_h6") || same_text(name, "is_h_level")
        || same_text(name, "is_markdown") || same_text(name, "is_text")
        || same_text(name, "is_code") || same_text(name, "is_html") || same_text(name, "is_em")
        || same_text(name, "is_list") || same_text(name, "is_callout") || same_text(name, "is_yaml")
        || same_text(name, "is_toml") || same_text(name, "is_table_align")
        || same_text(name, "is_table_cell") || same_text(name, "is_mdx")
}

fn find_value_test(name: &str) -> (r: bool)
    ensures
        r == is_value_test(name@),
{
    same_text(name, "type") || same_text(name, "is_string") || same_text(name, "is_number")
        || same_text(name, "is_bool") || same_text(name, "is_none") || same_text(name, "is_array")
        || same_text(name, "is_dict") || same_text(name, "is_bytes") || same_text(name, "is_empty")
        || same_text(name, "is_nan") || same_text(name, "strings") || same_text(name, "numbers")
        || same_text(name, "booleans") || same_text(name, "nones") || same_text(name, "arrays")
        || same_text(name, "dicts") || same_text(name, "markdowns") || same_text(name, "iterables")
        || same_text(name, "scalars") || same_text(name, "identity") || same_text(name, "coalesce")
}

fn find_text_function(name: &str) -> (r: bool)
    ensures
        r == is_text_function(name@),
{
    same_text(name, "contains") || same_text(name, "starts_with") || same_text(name, "ends_with")
        || same_text(name, "test") || same_text(name, "is_regex_match")
        || same_text(name, "is_not_regex_match") || same_text(name, "regex_match")
        || same_text(name, "scan") || same_text(name, "index") || same_text(name, "rindex")
        || same_text(name, "len") || same_text(name, "utf8bytelen") || same_text(name, "slice")
        || same_text(name, "trim") || same_text(name, "ltrim") || same_text(name, "rtrim")
        || same_text(name, "ltrimstr") || same_text(name, "rtrimstr") || same_text(name, "upcase")
        || same_text(name, "downcase") || same_text(name, "ascii_upcase")
        || same_text(name, "ascii_downcase") || same_text(name, "strip_tags")
        || same_text(name, "to_text") || same_text(name, "to_string")
}

fn find_logic_name(name: &str) -> (r: bool)
    ensures
        r == is_logic_name(name@),
{
    same_text(name, "select") || same_text(name, "and") || same_text(name, "or")
        || same_text(name, "not") || same_text(name, "eq") || same_text(name, "ne")
        || same_text(name, "lt") || same_text(name, "lte") || same_text(name, "gt")
        || same_text(name, "gte") || same_text(name, "between") || same_text(name, "min")
        || same_text(name, "max") || same_text(name, "abs") || same_text(name, "ceil")
        || same_text(name, "floor") || same_text(name, "round") || same_text(name, "trunc")
        || same_text(name, "sqrt") || same_text(name, "to_number") || same_text(name, "to_boolean")
        || same_text(name, "attr") || same_text(name, "to_md_name") || same_text(name, "get_url")
        || same_text(name, "get_title") || same_text(name, "matches_url")
        || same_text(name, "compact") || same_text(name, "flatten") || same_text(name, "true")
        || same_text(name, "false") || same_text(name, "None") || same_text(name, "self")
}

/// Whether the name at `from` may be used.
fn find_name(code: &Vec<char>, from: usize) -> (r: bool)
    requires
        from < code@.len(),
        begins_name(code@, from as int),
    ensures
        r == may_name(code@, from as int),
{
    let mut to: usize = from;
    let mut digits = true;
    while to < code.len() && is_name_part(code[to])
        invariant
            from <= to <= code@.len(),
            name_end(code@, from as int) == name_end(code@, to as int),
            digits == forall|k: int| from <= k < to ==> is_digit(#[trigger] code@[k]),
        decreases code@.len() - to,
    {
        digits = digits && is_decimal(code[to]);
        to += 1;
    }
    let ghost name = code@.subrange(from as int, to as int);
    proof {
        if digits {
            assert(forall|k: int| 0 <= k < name.len() ==> is_digit(#[trigger] name[k]));
        } else {
            let k = choose|k: int| from <= k < to && !is_digit(#[trigger] code@[k]);
            assert(!is_digit(name[k - from]));
        }
    }
    if digits || (from > 0 && code[from - 1] == '.' && !is_decimal(code[from])) {
        return true;
    }
    let text = string_of(&sub_chars(code, from, to));
    find_heading_test(&text) || find_value_test(&text) || find_text_function(&text)
        || find_logic_name(&text)
}

/// Whether the character at `i` may stand there.
fn find_mark(code: &Vec<char>, i: usize) -> (r: bool)
    requires
        i < code@.len(),
    ensures
        r == may_mark(code@, i as int),
{
    let next: Option<char> = if code.len() - i > 1 { Some(code[i + 1]) } else { None };
    let last: Option<char> = if i > 0 { Some(code[i - 1]) } else { None };
    match code[i] {
        ' ' | '\t' | '\n' | '"' | '(' | ')' | ',' | '|' | '&' | '!' | '~' => true,
        '.' | '<' | '>' => match next {
            Some(c) => c != code[i],
            None => true,
        },
        '=' => match last {
            Some('|') => false,
            Some('=') | Some('!') | Some('<') | Some('>') => true,
            _ => match next {
                Some(c) => c == '=' || c == '~',
                None => false,
            },
        },
        _ => false,
    }
}

/// Whether a character may occur in a name.
fn is_name_part(c: char) -> (r: bool)
    ensures
        r == is_name_char(c),
{
    ('a' <= c && c <= 'z') || ('A' <= c && c <= 'Z') || is_decimal(c) || c == '_'
}

/// Whether a character is a digit.
fn is_decimal(c: char) -> (r: bool)
    ensures
        r == is_digit(c),
{
    '0' <= c && c <= '9'
}

/// Whether `query` may be run.
pub fn is_runnable(query: &str) -> (r: bool)
    ensures
        r == may_run(query@),
{
    let code = find_code(&chars_of(query));
    let mut open: u32 = 0;
    let mut count: u32 = 0;
    let mut i: usize = 0;
    while i < code.len()
        invariant
            code@ == code_of(query@, false),
            i <= code@.len(),
            open == nesting(code@, i as nat),
            count == commas(code@, i as nat),
            count <= MAX_COMMAS,
            forall|k: int| 0 <= k < i ==> is_name_char(#[trigger] code@[k]) || may_mark(code@, k),
            forall|k: int| 0 <= k < i && #[trigger] begins_name(code@, k) ==> may_name(code@, k),
            forall|n: nat| n <= i ==> #[trigger] nesting(code@, n) <= MAX_NESTING,
        decreases code@.len() - i,
    {
        let c = code[i];
        if is_name_part(c) {
            if (i == 0 || !is_name_part(code[i - 1])) && !find_name(&code, i) {
                assert(begins_name(code@, i as int));
                return false;
            }
        } else if !find_mark(&code, i) {
            assert(code@[i as int] == c);
            return false;
        }
        proof {
            assert(nesting(code@, (i + 1) as nat) <= open + 1);
        }
        if c == '(' {
            if open == MAX_NESTING {
                assert(nesting(code@, (i + 1) as nat) > MAX_NESTING);
                return false;
            }
            open += 1;
        } else if c == ')' && open > 0 {
            open -= 1;
        } else if c == ',' {
            if count == MAX_COMMAS {
                proof {
                    lemma_commas_grow(code@, (i + 1) as nat, code@.len());
                }
                return false;
            }
            count += 1;
        }
        i += 1;
    }
    true
}

proof fn lemma_commas_grow(code: Seq<char>, m: nat, n: nat)
    requires
        m <= n,
    ensures
        commas(code, m) <= commas(code, n),
    decreases n,
{
    if m < n {
        lemma_commas_grow(code, m, (n - 1) as nat);
    }
}

/// A query that goes by depth alone may be run.
pub proof fn law_depth_queries_may_run(query: Seq<char>)
    requires
        is_depth_query(query),
    ensures
        may_run(query),
{
    reveal_with_fuel(code_of, 4);
    reveal_with_fuel(nesting, 4);
    reveal_with_fuel(commas, 4);
    assert(code_of(query, false) =~= query);
    assert forall|i: int| 0 <= i < query.len() && #[trigger] begins_name(query, i) implies may_name(
        query,
        i,
    ) by {
        assert(query[i - 1] == '.');
    }
}

/// Whether a query that yields so many values matches: it does where there is a value. A query that
/// fails does not match.
pub fn is_match(values: Option<usize>) -> (r: bool)
    ensures
        r == is_hit(values),
{
    match values {
        Some(n) => n > 0,
        None => false,
    }
}

/// A query against which headings are tested.
#[derive(Debug)]
pub struct HeadingFilter {
    pub query: String,
}

/// Why a query is refused: the message of the query engine.
#[derive(Debug)]
pub struct InvalidQuery {
    pub message: String,
}

/// The filter with the query `query`, if it compiles: `checked` is what the query engine says of it.
pub fn filter_of(query: &str, checked: Result<(), String>) -> (r: Result<
    HeadingFilter,
    InvalidQuery,
>)
    ensures
        match checked {
            Ok(_) => r is Ok && r->Ok_0.query@ == query@,
            Err(message) => r is Err && r->Err_0.message@ == message@,
        },
{
    match checked {
        Ok(_) => Ok(HeadingFilter { query: query.to_string() }),
        Err(message) => Err(InvalidQuery { message }),
    }
}

/// Compiles `query` once, and makes a filter of it. A query that may not be run is refused.
pub fn compile(query: &str) -> (r: Result<HeadingFilter, InvalidQuery>)
    ensures
        r is Ok ==> r->Ok_0.query@ == query@,
        query@.len() == 0 ==> r is Ok,
        !may_run(query@) ==> r is Err && r->Err_0.message@ == REFUSED_QUERY@,
        may_run(query@) ==> (match r {
            Ok(_) => query_error(query@) is None,
            Err(refused) => query_error(query@) == Some(refused.message@),
        }),
{
    if !is_runnable(query) {
        proof {
            if query@.len() == 0 {
                law_depth_queries_may_run(query@);
            }
        }
        return Err(InvalidQuery { message: REFUSED_QUERY.to_string() });
    }
    filter_of(query, check_query(query))
}

/// Whether so many values mean a match.
pub open spec fn is_hit(values: Option<usize>) -> bool {
    values is Some && values->0 > 0
}

/// Whether `r` tells of block `b` whether it is a heading that matches `query`: no other block matches,
/// nor does any where the query may not be run; a heading matches where the query yields a value for
/// it, and one that goes by depth alone matches the headings of that depth that have a title.
pub open spec fn is_verdict(query: Seq<char>, b: BlockView, r: bool) -> bool {
    &&& r == (b.is_heading() && may_run(query) && is_hit(
        query_values(query, b.depth(), b.content->markup, b.span),
    ))
    &&& b.is_heading() && is_depth_query(query) && spells(b.content->markup, b.title()) ==> r == (
    takes_depth(query, b.depth()) && b.title().len() > 0)
}

impl HeadingFilter {
    /// Runs the query against a heading: how many values it yields, or nothing where it fails or may
    /// not be run. Any other block yields nothing. A query that goes by depth alone does not fail, and
    /// yields one value for a heading of that depth with a title, none for any other heading.
    pub fn run(&self, block: &Block) -> (values: Option<usize>)
        ensures
            !block@.is_heading() ==> values is None,
            !may_run(self.query@) ==> values is None,
            block@.is_heading() && may_run(self.query@) ==> values == query_values(
                self.query@,
                block@.depth(),
                block@.content->markup,
                block@.span,
            ),
            block@.is_heading() && is_depth_query(self.query@) && spells(
                block@.content->markup,
                block@.title(),
            ) ==> values == Some(depth_query_values(self.query@, block@.depth(), block@.title())),
    {
        proof {
            if is_depth_query(self.query@) {
                law_depth_queries_may_run(self.query@);
            }
        }
        if !is_runnable(&self.query) {
            return None;
        }
        match &block.content {
            Content::Heading { depth, markup, .. } => count_values(
                &self.query,
                *depth,
                markup,
                block.span,
            ),
            _ => None,
        }
    }

    /// Whether a heading matches. Any other block does not.
    pub fn matches(&self, block: &Block) -> (r: bool)
        ensures
            is_verdict(self.query@, block@, r),
    {
        is_match(self.run(block))
    }

    /// Tells of each block of a document whether it is a heading that matches.
    pub fn matching(&self, document: &Document) -> (keep: Vec<bool>)
        ensures
            keep@.len() == document@.len(),
            forall|i: int|
                0 <= i < document@.len() ==> is_verdict(
                    self.query@,
                    document@[i],
                    #[trigger] keep@[i],
                ),
    {
        let filter = |block: &Block| -> (r: bool)
            ensures
                is_verdict(self.query@, block@, r),
            { self.matches(block) };
        document.matching_headings(&filter)
    }

    /// Hides the sections of a file that neither match nor have a subsection that does.
    pub fn apply(&self, source: &mut Source)
        ensures
            final(source)@ == hiding(old(source)@, final(source)@.shown),
            final(source)@.shown is Some,
            final(source)@.shown->0.len() == old(source)@.document.len(),
            forall|i: int|
                0 <= i < old(source)@.document.len() ==> is_verdict(
                    self.query@,
                    old(source)@.document[i],
                    #[trigger] final(source)@.shown->0[i],
                ),
    {
        let keep = self.matching(&source.document);
        source.shown = Some(keep);
    }
}

/// A file of which only some headings are shown.
pub open spec fn hiding(source: SourceView, shown: Option<Seq<bool>>) -> SourceView {
    SourceView { shown, ..source }
}

} // verus!
