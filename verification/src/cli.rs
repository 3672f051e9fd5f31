//! Rules of the command line.
use glob::Pattern;
use vstd::prelude::*;

use crate::inode::append_name;
use crate::model::{group_views, opt_view, views};
use crate::paths::{
    decoded, display_name, has_markdown_extension, is_hidden, is_markdown, name_text,
    starts_with_dot, stem_or_name,
};
use crate::text::{chars_of, decimal, decimal_chars, push_text, same_text, string_of};

verus! {

/// Whether a mount is read-only that was asked to be writable or not, and to be filtered or not.
pub open spec fn is_readonly(write: bool, filtered: bool) -> bool {
    !write || filtered
}

/// Whether the mount is read-only. A filtered mount always is: an edit could not be put back among
/// sections that the mount never showed.
pub fn effective_readonly(write: bool, filtered: bool) -> (r: bool)
    ensures
        r == (!write || filtered),
        r == is_readonly(write, filtered),
{
    !write || filtered
}

/// Whether `c` is an ASCII letter or digit.
pub open spec fn is_plain(c: char) -> bool {
    ('0' <= c <= '9') || ('A' <= c <= 'Z') || ('a' <= c <= 'z')
}

/// `name` with a single `-` for each run of characters other than ASCII letters and digits, and
/// nothing for such a run at its start.
pub open spec fn dashed(name: Seq<char>) -> Seq<char>
    decreases name.len(),
{
    if name.len() == 0 {
        Seq::empty()
    } else {
        let before = dashed(name.drop_last());
        if is_plain(name.last()) {
            before.push(name.last())
        } else if before.len() > 0 && before.last() != '-' {
            before.push('-')
        } else {
            before
        }
    }
}

/// `name`, made of ASCII letters and digits with single `-` between runs of them.
pub open spec fn sanitized(name: Seq<char>) -> Seq<char> {
    let d = dashed(name);
    if d.len() > 0 && d.last() == '-' {
        d.drop_last()
    } else {
        d
    }
}

/// The first components of `paths`, each once, in the order in which they first occur.
pub open spec fn top_levels(paths: Seq<Seq<Seq<char>>>) -> Seq<Seq<char>>
    decreases paths.len(),
{
    if paths.len() == 0 {
        Seq::empty()
    } else {
        let before = top_levels(paths.drop_last());
        let path = paths.last();
        if path.len() > 0 && !before.contains(path[0]) {
            before.push(path[0])
        } else {
            before
        }
    }
}

/// The longest label in a mount's name, in characters.
pub const MAX_LABEL: usize = 40;

/// What a mount's name says of what is mounted: the first name, and how many more there are.
pub open spec fn label(names: Seq<Seq<char>>) -> Seq<char> {
    let text = if names.len() == 0 {
        Seq::empty()
    } else if names.len() == 1 {
        sanitized(names[0])
    } else {
        sanitized(names[0]).push('+') + decimal((names.len() - 1) as nat)
    };
    if text.len() == 0 {
        "mount"@
    } else {
        text
    }
}

/// `s`, cut off behind `max` characters.
pub open spec fn shortened(s: Seq<char>, max: nat) -> Seq<char> {
    if s.len() <= max {
        s
    } else {
        s.take(max as int)
    }
}

/// The name of a mount of files that go to `paths`.
pub open spec fn name_of_mount(paths: Seq<Seq<Seq<char>>>) -> Seq<char> {
    "mq-"@ + shortened(label(top_levels(paths)), MAX_LABEL as nat)
}

/// Makes a name that is safe as the name of an export or of a file system.
pub fn sanitize(name: &str) -> (r: String)
    ensures
        r@ == sanitized(name@),
{
    let mut chars = dash(&chars_of(name));
    if chars.len() > 0 && chars[chars.len() - 1] == '-' {
        let _dash = chars.pop();
    }
    string_of(&chars)
}

fn dash(name: &Vec<char>) -> (r: Vec<char>)
    ensures
        r@ == dashed(name@),
{
    let mut r: Vec<char> = Vec::new();
    let mut i: usize = 0;
    while i < name.len()
        invariant
            i <= name@.len(),
            r@ == dashed(name@.take(i as int)),
        decreases name@.len() - i,
    {
        assert(name@.take(i + 1).drop_last() =~= name@.take(i as int));
        let c = name[i];
        if ('0' <= c && c <= '9') || ('A' <= c && c <= 'Z') || ('a' <= c && c <= 'z') {
            r.push(c);
        } else if r.len() > 0 && r[r.len() - 1] != '-' {
            r.push('-');
        }
        i += 1;
    }
    assert(name@.take(i as int) =~= name@);
    r
}

/// Cuts off `s` behind `max_chars` characters.
pub fn truncate(s: &str, max_chars: usize) -> (r: String)
    ensures
        r@ == shortened(s@, max_chars as nat),
{
    let mut chars = chars_of(s);
    if chars.len() > max_chars {
        chars.truncate(max_chars);
        assert(chars@ =~= s@.take(max_chars as int));
    }
    string_of(&chars)
}

/// The mount paths as plain values.
pub open spec fn path_texts(paths: Seq<Vec<String>>) -> Seq<Seq<Seq<char>>> {
    Seq::new(paths.len(), |i: int| views(paths[i]@))
}

fn contains_text(names: &Vec<String>, name: &str) -> (r: bool)
    ensures
        r == views(names@).contains(name@),
{
    let mut i: usize = 0;
    while i < names.len()
        invariant
            i <= names@.len(),
            forall|j: int| 0 <= j < i ==> #[trigger] names@[j]@ != name@,
        decreases names@.len() - i,
    {
        if same_text(&names[i], name) {
            assert(views(names@)[i as int] == name@);
            return true;
        }
        i += 1;
    }
    assert forall|j: int| 0 <= j < views(names@).len() implies views(names@)[j] != name@ by {
        assert(names@[j]@ != name@);
    }
    false
}

/// The name of a mount of files that go to `mount_paths`, so that several mounts can be told apart.
pub fn mount_name(mount_paths: &Vec<Vec<String>>) -> (name: String)
    ensures
        name@ == name_of_mount(path_texts(mount_paths@)),
{
    broadcast use group_views;

    let ghost paths = path_texts(mount_paths@);
    let mut names: Vec<String> = Vec::new();
    let mut i: usize = 0;
    assert(views(names@) =~= Seq::empty());
    while i < mount_paths.len()
        invariant
            i <= mount_paths@.len(),
            paths == path_texts(mount_paths@),
            views(names@) == top_levels(paths.take(i as int)),
        decreases mount_paths@.len() - i,
    {
        broadcast use group_views;

        assert(paths.take(i + 1).drop_last() =~= paths.take(i as int));
        assert(paths.take(i + 1).last() == views(mount_paths@[i as int]@));
        let path = &mount_paths[i];
        if path.len() > 0 && !contains_text(&names, &path[0]) {
            names.push(path[0].clone());
        }
        i += 1;
    }
    assert(paths.take(i as int) =~= paths);
    let n = names.len();
    let text = if n == 0 {
        String::new()
    } else if n == 1 {
        sanitize(&names[0])
    } else {
        let mut chars = chars_of(&sanitize(&names[0]));
        chars.push('+');
        let mut more = decimal_chars((n - 1) as u128);
        chars.append(&mut more);
        string_of(&chars)
    };
    let text = if text.as_str().is_empty() {
        "mount".to_string()
    } else {
        text
    };
    let mut name = chars_of("mq-");
    push_text(&mut name, &truncate(&text, MAX_LABEL));
    string_of(&name)
}

/// A pattern for paths.
#[derive(Debug)]
pub struct Glob {
    pub pattern: String,
}

/// Why a pattern is refused: the pattern and the message of the pattern parser.
#[derive(Debug)]
pub struct InvalidGlob {
    pub pattern: String,
    pub message: String,
}

/// The message with which a pattern is refused, if it is.
pub uninterp spec fn glob_error(pattern: Seq<char>) -> Option<Seq<char>>;

/// Whether a text is free of `\`, which separates the components of a path on some systems only.
pub open spec fn portable(text: Seq<char>) -> bool {
    !text.contains('\\')
}

/// `glob::Pattern::new`: the message of the error, if the pattern is not valid. It depends on the
/// pattern alone, unless that holds a `\`, and is called [`glob_error`].
#[verifier::external_body]
fn check_glob(pattern: &str) -> (message: Option<String>)
    ensures
        portable(pattern@) ==> opt_view(message) == glob_error(pattern@),
{
    Pattern::new(pattern).err().map(|e| e.to_string())
}

/// Whether a path matches a pattern.
pub uninterp spec fn glob_matches(pattern: Seq<char>, path: Seq<char>) -> bool;

/// `glob::Pattern::matches`: whether `path` matches `pattern`; nothing matches a pattern that is not
/// valid. It depends on the two texts alone, unless one holds a `\`, and is called
/// [`glob_matches`].
#[verifier::external_body]
fn match_glob(pattern: &str, path: &str) -> (r: bool)
    ensures
        portable(pattern@) && portable(path@) ==> r == glob_matches(pattern@, path@),
{
    Pattern::new(pattern).is_ok_and(|p| p.matches(path))
}

/// The patterns as plain values.
pub open spec fn pattern_texts(globs: Seq<Glob>) -> Seq<Seq<char>> {
    Seq::new(globs.len(), |i: int| globs[i].pattern@)
}

/// Whether a path passes that matches these of the patterns to let in and to keep out: it matches
/// one to let in, if there are any, and none to keep out.
pub open spec fn allowed(includes: Seq<bool>, excludes: Seq<bool>) -> bool {
    &&& includes.len() == 0 || includes.contains(true)
    &&& !excludes.contains(true)
}

/// Whether `hits` tells of each of `patterns` whether `path` matches it.
pub open spec fn hits_of(hits: Seq<bool>, patterns: Seq<Seq<char>>, path: Seq<char>) -> bool {
    &&& hits.len() == patterns.len()
    &&& forall|i: int|
        0 <= i < patterns.len() && portable(patterns[i]) ==> #[trigger] hits[i] == glob_matches(
            patterns[i],
            path,
        )
}

/// Whether `errors` tells of each of `patterns` with which message it is refused, if it is.
pub open spec fn errors_of(errors: Seq<Option<Seq<char>>>, patterns: Seq<Seq<char>>) -> bool {
    &&& errors.len() == patterns.len()
    &&& forall|i: int|
        0 <= i < patterns.len() && portable(patterns[i]) ==> #[trigger] errors[i] == glob_error(
            patterns[i],
        )
}

/// A path with `/` for each `\`.
pub open spec fn with_slashes(path: Seq<char>) -> Seq<char> {
    path.map_values(
        |c: char|
            if c == '\\' {
                '/'
            } else {
                c
            },
    )
}

/// The outcome of compiling `patterns`, where `errors` tells of each with which message it is
/// refused, if it is: the first refused pattern decides.
pub open spec fn globs_compiled(
    patterns: Seq<Seq<char>>,
    errors: Seq<Option<Seq<char>>>,
    r: Result<Vec<Glob>, InvalidGlob>,
) -> bool {
    match r {
        Ok(globs) => {
            &&& pattern_texts(globs@) == patterns
            &&& forall|i: int| 0 <= i < patterns.len() ==> (#[trigger] errors[i]) is None
        },
        Err(e) => exists|i: int|
            {
                &&& 0 <= i < patterns.len()
                &&& #[trigger] errors[i] == Some(e.message@)
                &&& e.pattern@ == patterns[i]
                &&& forall|j: int| 0 <= j < i ==> (#[trigger] errors[j]) is None
            },
    }
}

/// Makes globs of `patterns`, where `messages` tells of each with which message it is refused, if it
/// is.
pub fn globs_of(patterns: &Vec<String>, messages: &Vec<Option<String>>) -> (r: Result<
    Vec<Glob>,
    InvalidGlob,
>)
    requires
        patterns@.len() == messages@.len(),
    ensures
        globs_compiled(
            views(patterns@),
            Seq::new(messages@.len(), |i: int| opt_view(messages@[i])),
            r,
        ),
{
    let ghost errors = Seq::new(messages@.len(), |i: int| opt_view(messages@[i]));
    let mut globs: Vec<Glob> = Vec::new();
    let mut i: usize = 0;
    while i < patterns.len()
        invariant
            i <= patterns@.len() == messages@.len(),
            errors == Seq::new(messages@.len(), |i: int| opt_view(messages@[i])),
            globs@.len() == i,
            forall|j: int| 0 <= j < i ==> (#[trigger] globs@[j]).pattern@ == patterns@[j]@,
            forall|j: int| 0 <= j < i ==> (#[trigger] errors[j]) is None,
        decreases patterns@.len() - i,
    {
        if let Some(message) = &messages[i] {
            assert(errors[i as int] == Some(message@));
            return Err(InvalidGlob { pattern: patterns[i].clone(), message: message.clone() });
        }
        globs.push(Glob { pattern: patterns[i].clone() });
        i += 1;
    }
    assert(pattern_texts(globs@) =~= views(patterns@));
    Ok(globs)
}

/// Compiles patterns. The first one that is not valid is reported.
pub fn compile_globs(patterns: &Vec<String>) -> (r: Result<Vec<Glob>, InvalidGlob>)
    ensures
        exists|errors: Seq<Option<Seq<char>>>| #[trigger]
            errors_of(errors, views(patterns@)) && globs_compiled(views(patterns@), errors, r),
{
    let mut messages: Vec<Option<String>> = Vec::new();
    let mut i: usize = 0;
    while i < patterns.len()
        invariant
            i <= patterns@.len(),
            messages@.len() == i,
            forall|j: int|
                0 <= j < i && portable(patterns@[j]@) ==> opt_view(#[trigger] messages@[j])
                    == glob_error(patterns@[j]@),
        decreases patterns@.len() - i,
    {
        messages.push(check_glob(&patterns[i]));
        i += 1;
    }
    let ghost errors = Seq::new(messages@.len(), |i: int| opt_view(messages@[i]));
    assert(errors_of(errors, views(patterns@)));
    globs_of(patterns, &messages)
}

/// Tells of each glob whether `path` matches it.
fn match_globs(globs: &Vec<Glob>, path: &str) -> (hits: Vec<bool>)
    requires
        portable(path@),
    ensures
        hits_of(hits@, pattern_texts(globs@), path@),
{
    let mut hits: Vec<bool> = Vec::new();
    let mut i: usize = 0;
    while i < globs.len()
        invariant
            i <= globs@.len(),
            hits@.len() == i,
            portable(path@),
            forall|j: int|
                0 <= j < i && portable(globs@[j].pattern@) ==> #[trigger] hits@[j] == glob_matches(
                    globs@[j].pattern@,
                    path@,
                ),
        decreases globs@.len() - i,
    {
        hits.push(match_glob(&globs[i].pattern, path));
        i += 1;
    }
    hits
}

fn any(hits: &Vec<bool>) -> (r: bool)
    ensures
        r == hits@.contains(true),
{
    let mut i: usize = 0;
    while i < hits.len()
        invariant
            i <= hits@.len(),
            forall|j: int| 0 <= j < i ==> !#[trigger] hits@[j],
        decreases hits@.len() - i,
    {
        if hits[i] {
            return true;
        }
        i += 1;
    }
    false
}

/// Whether a path passes that matches these of the patterns to let in and to keep out.
pub fn passes(includes: &Vec<bool>, excludes: &Vec<bool>) -> (r: bool)
    ensures
        r == allowed(includes@, excludes@),
{
    if includes.len() > 0 && !any(includes) {
        return false;
    }
    !any(excludes)
}

fn slashed(path: &str) -> (r: String)
    ensures
        r@ == with_slashes(path@),
{
    let mut chars = chars_of(path);
    let ghost before = chars@;
    let mut i: usize = 0;
    while i < chars.len()
        invariant
            i <= chars@.len() == before.len(),
            forall|j: int| 0 <= j < i ==> #[trigger] chars@[j] == with_slashes(before)[j],
            forall|j: int| i <= j < chars@.len() ==> #[trigger] chars@[j] == before[j],
        decreases chars@.len() - i,
    {
        if chars[i] == '\\' {
            chars.set(i, '/');
        }
        i += 1;
    }
    assert(chars@ =~= with_slashes(before));
    string_of(&chars)
}

/// Whether a path passes the patterns to let in and to keep out.
pub open spec fn path_allowed(
    r: bool,
    rel: Seq<char>,
    includes: Seq<Glob>,
    excludes: Seq<Glob>,
) -> bool {
    exists|inc: Seq<bool>, exc: Seq<bool>|
        {
            &&& #[trigger] hits_of(inc, pattern_texts(includes), with_slashes(rel))
            &&& #[trigger] hits_of(exc, pattern_texts(excludes), with_slashes(rel))
            &&& r == allowed(inc, exc)
        }
}

/// Whether a Markdown file passes, where `rel` is its path relative to the directory that was
/// given on the command line: it matches one of the patterns `includes`, if there are any, and none
/// of `excludes`.
pub fn glob_allows(rel: &str, includes: &Vec<Glob>, excludes: &Vec<Glob>) -> (r: bool)
    ensures
        path_allowed(r, rel@, includes@, excludes@),
{
    let path = slashed(rel);
    assert(portable(path@)) by {
        assert forall|i: int| 0 <= i < path@.len() implies path@[i] != '\\' by {}
    }
    let inc = match_globs(includes, &path);
    let exc = match_globs(excludes, &path);
    passes(&inc, &exc)
}

/// What a directory entry on disk is.
#[derive(Debug, Clone, Copy, PartialEq, Eq, Structural)]
pub enum EntryKind {
    Dir,
    File,
    Other,
}

/// What to do with a directory entry on disk.
#[derive(Debug)]
pub enum Visit {
    /// Leave it alone.
    Skip,
    /// Look into this directory, whose entries go below this path in the mount.
    Descend(Vec<String>),
    /// Mount this file at this path.
    Mount(Vec<String>),
}

/// The mathematical value of a [`Visit`].
pub enum VisitView {
    Skip,
    Descend(Seq<Seq<char>>),
    Mount(Seq<Seq<char>>),
}

impl View for Visit {
    type V = VisitView;

    open spec fn view(&self) -> VisitView {
        match *self {
            Visit::Skip => VisitView::Skip,
            Visit::Descend(path) => VisitView::Descend(views(path@)),
            Visit::Mount(path) => VisitView::Mount(views(path@)),
        }
    }
}

/// What to do with the entry `name` of a directory that is at `path` in the mount. `passes` tells
/// whether the patterns let it pass. Hidden entries, and names that are not UTF-8, are left alone.
pub open spec fn visit_of(
    name: Seq<u8>,
    kind: EntryKind,
    path: Seq<Seq<char>>,
    passes: bool,
) -> VisitView {
    match decoded(name) {
        None => VisitView::Skip,
        Some(text) => if is_hidden(name) {
            VisitView::Skip
        } else {
            match kind {
                EntryKind::Dir => VisitView::Descend(path.push(text)),
                EntryKind::File => if is_markdown(name) && passes {
                    VisitView::Mount(path.push(display_name(Some(name))))
                } else {
                    VisitView::Skip
                },
                EntryKind::Other => VisitView::Skip,
            }
        },
    }
}

/// Decides what to do with the entry `name` of a directory that is at `path` in the mount. `rel` is
/// its path relative to the directory that was given on the command line.
pub fn visit(
    name: &[u8],
    kind: EntryKind,
    path: &[String],
    rel: &str,
    includes: &Vec<Glob>,
    excludes: &Vec<Glob>,
) -> (r: Visit)
    ensures
        exists|passes: bool| #[trigger]
            path_allowed(passes, rel@, includes@, excludes@) && r@ == visit_of(
                name@,
                kind,
                views(path@),
                passes,
            ),
{
    let passes = glob_allows(rel, includes, excludes);
    visit_entry(name, kind, path, passes)
}

/// Decides what to do with the entry `name` of a directory that is at `path` in the mount. `passes`
/// tells whether the patterns let it pass.
pub fn visit_entry(name: &[u8], kind: EntryKind, path: &[String], passes: bool) -> (r: Visit)
    ensures
        r@ == visit_of(name@, kind, views(path@), passes),
{
    let text = match name_text(name) {
        Some(text) => text,
        None => {
            return Visit::Skip;
        },
    };
    if starts_with_dot(name) {
        return Visit::Skip;
    }
    match kind {
        EntryKind::Dir => Visit::Descend(append_name(path, &text)),
        EntryKind::File => {
            if has_markdown_extension(name) && passes {
                Visit::Mount(append_name(path, &stem_or_name(Some(name))))
            } else {
                Visit::Skip
            }
        },
        EntryKind::Other => Visit::Skip,
    }
}

} // verus!
