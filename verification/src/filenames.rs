//! What the names of files on disk tell, and where the files go in a mount.
use vstd::prelude::*;
use vstd::utf8::{decode_utf8, valid_utf8};

use crate::cli::{allowed, visit_of, EntryKind, VisitView};
use crate::paths::{
    decoded, directory_name, display_name, extension_start, in_order, is_markdown, last_dot, stem,
    DOT,
};
use crate::watch::{names_below, placed_at};

verus! {

/// Whether a name holds no full stop.
pub open spec fn has_no_dot(name: Seq<u8>) -> bool {
    forall|i: int| 0 <= i < name.len() ==> #[trigger] name[i] != 46
}

proof fn lemma_last_dot(a: Seq<u8>, b: Seq<u8>)
    requires
        has_no_dot(b),
    ensures
        last_dot(a + seq![46u8] + b) == Some(a.len() as int),
        last_dot(b) is None,
    decreases b.len(),
{
    let whole = a + seq![46u8] + b;
    if b.len() == 0 {
        assert(whole.last() == 46);
    } else {
        let less = b.drop_last();
        assert(has_no_dot(less)) by {
            assert forall|i: int| 0 <= i < less.len() implies #[trigger] less[i] != 46 by {
                assert(less[i] == b[i]);
            }
        }
        assert(b.last() == b[b.len() - 1]);
        assert(whole.last() == b.last());
        assert(whole.drop_last() =~= a + seq![46u8] + less);
        lemma_last_dot(a, less);
    }
}

/// A name with something before its last full stop is that something and an extension; it is the name
/// of a Markdown file exactly if the extension is `md`, in capitals or not. Only `..` is no such name.
pub proof fn law_what_an_extension_is(before: Seq<u8>, extension: Seq<u8>)
    requires
        before.len() > 0,
        has_no_dot(extension),
        !(before == seq![46u8] && extension.len() == 0),
    ensures
        stem(before + seq![46u8] + extension) == before,
        is_markdown(before + seq![46u8] + extension) <==> extension.len() == 2 && (extension[0] == 109
            || extension[0] == 77) && (extension[1] == 100 || extension[1] == 68),
{
    let name = before + seq![46u8] + extension;
    lemma_last_dot(before, extension);
    if name == seq![DOT, DOT] {
        assert(name.len() == 2);
        assert(before.len() == 1);
        assert(name[0] == before[0]);
        assert(before =~= seq![46u8]);
    }
    let i = before.len() as int;
    assert(name.take(i) =~= before);
    assert(extension_start(name) == Some(i + 1));
    assert(name.len() == i + 1 + extension.len());
    if extension.len() == 2 {
        assert(name[i + 1] == extension[0]);
        assert(name[i + 2] == extension[1]);
    }
}

/// A name without a full stop, or with none but at its start, has no extension and is not the name of a
/// Markdown file.
pub proof fn law_names_without_extension(rest: Seq<u8>)
    requires
        has_no_dot(rest),
    ensures
        stem(rest) == rest,
        !is_markdown(rest),
        stem(seq![46u8] + rest) == seq![46u8] + rest,
        !is_markdown(seq![46u8] + rest),
        stem(seq![46u8, 46u8]) == seq![46u8, 46u8],
        !is_markdown(seq![46u8, 46u8]),
{
    let none = Seq::<u8>::empty();
    lemma_last_dot(none, rest);
    assert(none + seq![46u8] + rest =~= seq![46u8] + rest);
    let dots = seq![46u8, 46u8];
    assert(dots == seq![DOT, DOT]);
    assert(extension_start(dots) is None);
}

/// A file is shown under its name without extension, a directory under its name; what has no name, or
/// none that is UTF-8, is `untitled`.
pub proof fn law_what_a_mounted_file_is_called(name: Seq<u8>)
    ensures
        valid_utf8(stem(name)) ==> display_name(Some(name)) == decode_utf8(stem(name)),
        !valid_utf8(stem(name)) ==> display_name(Some(name)) == "untitled"@,
        display_name(None) == "untitled"@,
        valid_utf8(name) ==> directory_name(Some(name)) == decode_utf8(name),
        !valid_utf8(name) ==> directory_name(Some(name)) == "untitled"@,
        directory_name(None) == "untitled"@,
{
}

/// Names are in order by the first byte in which they differ, and the shorter one comes first where
/// none differs.
pub proof fn law_names_are_ordered_by_bytes(a: Seq<u8>, b: Seq<u8>, i: int)
    requires
        0 <= i <= a.len(),
        i <= b.len(),
        forall|j: int| 0 <= j < i ==> #[trigger] a[j] == b[j],
        i == a.len() || i == b.len() || a[i] != b[i],
    ensures
        i == a.len() ==> in_order(a, b),
        i < a.len() && i == b.len() ==> !in_order(a, b),
        i < a.len() && i < b.len() ==> (in_order(a, b) <==> a[i] < b[i]),
    decreases i,
{
    if i > 0 {
        assert(a[0] == b[0]);
        let c = a.drop_first();
        let d = b.drop_first();
        assert forall|j: int| 0 <= j < i - 1 implies #[trigger] c[j] == d[j] by {
            assert(a[j + 1] == b[j + 1]);
        }
        law_names_are_ordered_by_bytes(c, d, i - 1);
    }
}

/// What is done with an entry on disk: nothing with one whose name begins with a full stop or is not
/// UTF-8; a directory is looked into, below its own name; a Markdown file that passes is mounted, under
/// its name without extension; and nothing is done with anything else.
pub proof fn law_what_is_done_with_an_entry(
    name: Seq<u8>,
    kind: EntryKind,
    path: Seq<Seq<char>>,
    passes: bool,
)
    ensures
        ({
            let r = visit_of(name, kind, path, passes);
            let left_alone = !valid_utf8(name) || (name.len() > 0 && name[0] == 46);
            &&& left_alone ==> r is Skip
            &&& !left_alone && kind is Dir ==> r == VisitView::Descend(path + seq![decode_utf8(name)])
            &&& !left_alone && kind is File && is_markdown(name) && passes && valid_utf8(stem(name))
                ==> r == VisitView::Mount(path + seq![decode_utf8(stem(name))])
            &&& r is Mount ==> !left_alone && kind is File && is_markdown(name) && passes
            &&& r is Descend ==> !left_alone && kind is Dir
        }),
{
    if let Some(text) = decoded(name) {
        assert(path.push(text) =~= path + seq![text]);
    }
    if valid_utf8(stem(name)) {
        let text = decode_utf8(stem(name));
        assert(path.push(text) =~= path + seq![text]);
    }
}

/// A file passes if some pattern lets it in, or there is none to let files in, and no pattern keeps it
/// out.
pub proof fn law_which_files_pass(includes: Seq<bool>, excludes: Seq<bool>)
    ensures
        allowed(includes, excludes) <==> (includes.len() == 0 || exists|i: int|
            0 <= i < includes.len() && #[trigger] includes[i]) && forall|i: int|
            0 <= i < excludes.len() ==> !#[trigger] excludes[i],
{
    if includes.contains(true) {
        let i = choose|i: int| 0 <= i < includes.len() && includes[i] == true;
        assert(includes[i]);
    }
    if exists|i: int| 0 <= i < includes.len() && #[trigger] includes[i] {
        let i = choose|i: int| 0 <= i < includes.len() && #[trigger] includes[i];
        assert(includes[i] == true);
    }
    if excludes.contains(true) {
        let i = choose|i: int| 0 <= i < excludes.len() && excludes[i] == true;
        assert(excludes[i]);
    }
    if !excludes.contains(true) {
        assert forall|i: int| 0 <= i < excludes.len() implies !#[trigger] excludes[i] by {}
    }
}

/// Whether a component of a path may be shown: it is UTF-8 and does not begin with a full stop.
pub open spec fn is_shown(name: Seq<u8>) -> bool {
    valid_utf8(name) && !(name.len() > 0 && name[0] == 46)
}

proof fn lemma_names_below(base: Seq<Seq<char>>, rel: Seq<Seq<u8>>)
    requires
        rel.len() > 0,
    ensures
        ({
            let fine = (forall|i: int| 0 <= i < rel.len() ==> is_shown(#[trigger] rel[i]))
                && valid_utf8(stem(rel.last()));
            match names_below(base, rel) {
                None => !fine,
                Some(names) => {
                    &&& fine
                    &&& names.len() == base.len() + rel.len()
                    &&& names.take(base.len() as int) == base
                    &&& forall|i: int|
                        0 <= i < rel.len() - 1 ==> names[base.len() + i] == decode_utf8(
                            #[trigger] rel[i],
                        )
                    &&& names.last() == decode_utf8(stem(rel.last()))
                },
            }
        }),
    decreases rel.len(),
{
    reveal_with_fuel(names_below, 2);
    let name = rel[0];
    if rel.len() == 1 {
        assert(rel.last() == name);
        assert(rel.drop_first() =~= Seq::empty());
        if is_shown(name) && valid_utf8(stem(name)) {
            let names = base.push(decode_utf8(stem(name)));
            assert(names_below(base, rel) == Some(names));
            assert(names.take(base.len() as int) =~= base);
            assert forall|i: int| 0 <= i < rel.len() implies is_shown(#[trigger] rel[i]) by {}
        } else {
            assert(!is_shown(rel[0]) || !valid_utf8(stem(rel.last())));
        }
    } else {
        let rest = rel.drop_first();
        assert(rest.last() == rel.last());
        if is_shown(name) {
            let more = base.push(decode_utf8(name));
            lemma_names_below(more, rest);
            match names_below(more, rest) {
                None => {
                    if (forall|i: int| 0 <= i < rel.len() ==> is_shown(#[trigger] rel[i])) {
                        assert forall|i: int| 0 <= i < rest.len() implies is_shown(
                            #[trigger] rest[i],
                        ) by {
                            assert(is_shown(rel[i + 1]));
                        }
                    }
                },
                Some(names) => {
                    assert forall|i: int| 0 <= i < rel.len() implies is_shown(#[trigger] rel[i]) by {
                        if i > 0 {
                            assert(rel[i] == rest[i - 1]);
                        }
                    }
                    let n = base.len() as int;
                    assert(names.take(n + 1) == more);
                    assert(names.take(n) =~= base) by {
                        assert forall|i: int| 0 <= i < n implies names[i] == base[i] by {
                            assert(names.take(n + 1)[i] == more[i]);
                        }
                    }
                    assert(names[n] == names.take(n + 1)[n]);
                    assert forall|i: int| 0 <= i < rel.len() - 1 implies names[n + i] == decode_utf8(
                        #[trigger] rel[i],
                    ) by {
                        if i > 0 {
                            assert(rel[i] == rest[i - 1]);
                            assert(names[more.len() + (i - 1)] == decode_utf8(rest[i - 1]));
                        }
                    }
                },
            }
        } else {
            assert(!is_shown(rel[0]));
        }
    }
}

/// A new file on disk is mounted if it is a Markdown file below the watched directory and none of the
/// names on the way to it is hidden or is not UTF-8. It goes below the place of that directory, by the
/// names on the way, and under its own name without extension.
pub proof fn law_where_a_new_file_goes(
    root: Seq<Seq<u8>>,
    base: Seq<Seq<char>>,
    rel: Seq<Seq<u8>>,
)
    requires
        rel.len() > 0,
    ensures
        ({
            let fine = is_markdown(rel.last()) && (forall|i: int|
                0 <= i < rel.len() ==> is_shown(#[trigger] rel[i])) && valid_utf8(stem(rel.last()));
            match placed_at(root, base, root + rel) {
                None => !fine,
                Some(names) => {
                    &&& fine
                    &&& names.len() == base.len() + rel.len()
                    &&& names.take(base.len() as int) == base
                    &&& forall|i: int|
                        0 <= i < rel.len() - 1 ==> names[base.len() + i] == decode_utf8(
                            #[trigger] rel[i],
                        )
                    &&& names.last() == decode_utf8(stem(rel.last()))
                },
            }
        }),
{
    let created = root + rel;
    assert(created.subrange(0, root.len() as int) =~= root);
    assert(created.last() == rel.last());
    assert(created.skip(root.len() as int) =~= rel);
    lemma_names_below(base, rel);
}

/// A file that is not below the watched directory is not mounted, and neither is that directory.
pub proof fn law_other_new_files_stay_out(
    root: Seq<Seq<u8>>,
    base: Seq<Seq<char>>,
    created: Seq<Seq<u8>>,
)
    requires
        created.len() <= root.len() || exists|i: int|
            0 <= i < root.len() && #[trigger] created[i] != root[i],
    ensures
        placed_at(root, base, created) is None,
{
    if root.is_prefix_of(created) && created.len() > root.len() {
        let i = choose|i: int| 0 <= i < root.len() && #[trigger] created[i] != root[i];
        assert(created.subrange(0, root.len() as int)[i] == created[i]);
    }
}

} // verus!
