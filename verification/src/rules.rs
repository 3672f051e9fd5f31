//! What holds of the rules that decide what is mounted, and how.
use vstd::prelude::*;

use crate::block::{text_node_of, BlockView};
use crate::cli::{
    allowed, errors_of, glob_error, glob_matches, globs_compiled, hits_of, is_readonly, path_allowed,
    pattern_texts, portable, with_slashes, Glob, InvalidGlob,
};
use crate::filenames::{law_names_are_ordered_by_bytes, law_which_files_pass};
use crate::paths::{in_order, lists_in_order};
use crate::query_filter::{
    is_depth_query, is_verdict, law_depth_queries_may_run, may_run, query_values, takes_depth,
};
use crate::watch::{may_add, Change};
use crate::winfsp::asks_for_directory;

verus! {

/// A mount can be changed only if that was asked for, and nothing is hidden.
pub proof fn law_filtered_mounts_are_read_only(write: bool, filtered: bool)
    ensures
        filtered ==> is_readonly(write, filtered),
        !write ==> is_readonly(write, filtered),
        write && !filtered ==> !is_readonly(write, filtered),
{
}

/// A file may have been added where one was created, where its content was changed, and where one was
/// renamed to this name; no other change adds one.
pub proof fn law_which_changes_add_files(change: Change)
    ensures
        change == Change::Created ==> may_add(change),
        change == Change::DataModified ==> may_add(change),
        change == Change::RenamedTo ==> may_add(change),
        change == Change::Other ==> !may_add(change),
{
}

/// Options ask for a directory by their lowest bit, whatever else they ask for.
pub proof fn law_which_options_ask_for_a_directory(options: u32)
    ensures
        asks_for_directory(options) <==> options & 1 == 1,
{
    assert(options & 1 == options % 2) by (bit_vector);
}

/// A query that names a depth takes the headings of that depth, and `.h` and the empty query take all
/// of them. They may be run.
pub proof fn law_which_depths_a_query_takes(c: char, n: u8, depth: u8)
    requires
        1 <= n <= 6,
        c as int == '0' as int + n,
    ensures
        is_depth_query(seq!['.', 'h', c]),
        takes_depth(seq!['.', 'h', c], depth) <==> depth == n,
        is_depth_query(seq!['.', 'h']),
        takes_depth(seq!['.', 'h'], depth),
        is_depth_query(Seq::empty()),
        takes_depth(Seq::empty(), depth),
        may_run(seq!['.', 'h', c]),
        may_run(seq!['.', 'h']),
        may_run(Seq::empty()),
{
    law_depth_queries_may_run(seq!['.', 'h', c]);
    law_depth_queries_may_run(seq!['.', 'h']);
    law_depth_queries_may_run(Seq::empty());
}

/// What a filter decides of a block: nothing but a heading matches, and only where the query yields a
/// value for it. A query that goes by depth takes the headings of that depth whose title is not empty,
/// those that were made from a title among them.
pub proof fn law_which_headings_match(query: Seq<char>, b: BlockView, r: bool)
    requires
        is_verdict(query, b, r),
    ensures
        r ==> b.is_heading(),
        r ==> ({
            let values = query_values(query, b.depth(), b.content->markup, b.span);
            values is Some && values->0 != 0
        }),
        b.is_heading() && may_run(query) && ({
            let values = query_values(query, b.depth(), b.content->markup, b.span);
            values is Some && values->0 != 0
        }) ==> r,
        b.is_heading() && b.content->markup == seq![text_node_of(b.title())] && is_depth_query(query)
            ==> (r <==> takes_depth(query, b.depth()) && b.title().len() > 0),
{
}

/// The first pattern that is refused is the one that is reported, with the message it is refused with;
/// patterns none of which is refused are all kept, in their order.
pub proof fn law_the_first_bad_pattern_is_reported(
    patterns: Seq<Seq<char>>,
    errors: Seq<Option<Seq<char>>>,
    r: Result<Vec<Glob>, InvalidGlob>,
    i: int,
)
    requires
        globs_compiled(patterns, errors, r),
        errors.len() == patterns.len(),
        0 <= i <= patterns.len(),
        forall|j: int| 0 <= j < i ==> (#[trigger] errors[j]) is None,
        i < patterns.len() ==> errors[i] is Some,
    ensures
        i == patterns.len() ==> r is Ok && r->Ok_0@.len() == patterns.len() && forall|j: int|
            0 <= j < patterns.len() ==> (#[trigger] r->Ok_0@[j]).pattern@ == patterns[j],
        i < patterns.len() ==> r is Err && r->Err_0.pattern@ == patterns[i] && r->Err_0.message@
            == errors[i]->0,
{
    match r {
        Ok(globs) => {
            if i < patterns.len() {
                assert(errors[i] is None);
            }
            assert(pattern_texts(globs@).len() == patterns.len());
            assert forall|j: int| 0 <= j < patterns.len() implies (#[trigger] globs@[j]).pattern@
                == patterns[j] by {
                assert(pattern_texts(globs@)[j] == patterns[j]);
            }
        },
        Err(e) => {
            let k = choose|k: int|
                {
                    &&& 0 <= k < patterns.len()
                    &&& #[trigger] errors[k] == Some(e.message@)
                    &&& e.pattern@ == patterns[k]
                    &&& forall|j: int| 0 <= j < k ==> (#[trigger] errors[j]) is None
                };
            if k < i {
                assert(errors[k] is None);
            } else if i < k {
                assert(errors[i] is None);
            }
        },
    }
}

/// What is known of patterns is what the pattern parser says of each.
pub proof fn law_each_pattern_is_judged_for_itself(
    patterns: Seq<Seq<char>>,
    errors: Seq<Option<Seq<char>>>,
    i: int,
)
    requires
        errors_of(errors, patterns),
        0 <= i < patterns.len(),
        !patterns[i].contains('\\'),
    ensures
        errors.len() == patterns.len(),
        errors[i] == glob_error(patterns[i]),
{
    assert(portable(patterns[i]));
}

/// A path is matched with `/` for each `\`, and everything else as it is.
pub proof fn law_paths_are_matched_with_slashes(path: Seq<char>, i: int)
    requires
        0 <= i < path.len(),
    ensures
        with_slashes(path).len() == path.len(),
        path[i] == '\\' ==> with_slashes(path)[i] == '/',
        path[i] != '\\' ==> with_slashes(path)[i] == path[i],
{
}

/// A file passes exactly if one of the patterns to let in matches its path, or there are none, and none
/// of those to keep out does.
pub proof fn law_which_paths_pass(r: bool, rel: Seq<char>, includes: Seq<Glob>, excludes: Seq<Glob>)
    requires
        path_allowed(r, rel, includes, excludes),
        forall|i: int|
            0 <= i < includes.len() ==> !(#[trigger] includes[i]).pattern@.contains('\\'),
        forall|i: int|
            0 <= i < excludes.len() ==> !(#[trigger] excludes[i]).pattern@.contains('\\'),
    ensures
        r <==> (includes.len() == 0 || exists|i: int|
            0 <= i < includes.len() && glob_matches(
                (#[trigger] includes[i]).pattern@,
                with_slashes(rel),
            )) && forall|i: int|
            0 <= i < excludes.len() ==> !glob_matches(
                (#[trigger] excludes[i]).pattern@,
                with_slashes(rel),
            ),
{
    let path = with_slashes(rel);
    let (inc, exc) = choose|inc: Seq<bool>, exc: Seq<bool>|
        {
            &&& #[trigger] hits_of(inc, pattern_texts(includes), path)
            &&& #[trigger] hits_of(exc, pattern_texts(excludes), path)
            &&& r == allowed(inc, exc)
        };
    law_which_files_pass(inc, exc);
    assert forall|i: int| 0 <= i < includes.len() implies #[trigger] inc[i] == glob_matches(
        includes[i].pattern@,
        path,
    ) by {
        assert(portable(pattern_texts(includes)[i]));
    }
    assert forall|i: int| 0 <= i < excludes.len() implies #[trigger] exc[i] == glob_matches(
        excludes[i].pattern@,
        path,
    ) by {
        assert(portable(pattern_texts(excludes)[i]));
    }
    if exists|i: int| 0 <= i < inc.len() && #[trigger] inc[i] {
        let i = choose|i: int| 0 <= i < inc.len() && #[trigger] inc[i];
        assert(glob_matches(includes[i].pattern@, path));
    }
    if exists|i: int| 0 <= i < includes.len() && glob_matches((#[trigger] includes[i]).pattern@, path) {
        let i = choose|i: int|
            0 <= i < includes.len() && glob_matches((#[trigger] includes[i]).pattern@, path);
        assert(inc[i]);
    }
    if forall|i: int| 0 <= i < exc.len() ==> !#[trigger] exc[i] {
        assert forall|i: int| 0 <= i < excludes.len() implies !glob_matches(
            (#[trigger] excludes[i]).pattern@,
            path,
        ) by {
            assert(!exc[i]);
        }
    } else {
        let i = choose|i: int| 0 <= i < exc.len() && #[trigger] exc[i];
        assert(glob_matches(excludes[i].pattern@, path));
    }
}

/// Of two names of which one is visited before the other, the first has the smaller byte where they
/// first differ, or is the shorter one.
pub proof fn law_entries_are_visited_in_order(
    order: Seq<usize>,
    names: Seq<Vec<u8>>,
    i: int,
    j: int,
    p: int,
)
    requires
        lists_in_order(order, names, names.len() as int),
        0 <= i < j < order.len(),
        ({
            let a = names[order[i] as int]@;
            let b = names[order[j] as int]@;
            &&& 0 <= p <= a.len()
            &&& p <= b.len()
            &&& forall|k: int| 0 <= k < p ==> #[trigger] a[k] == b[k]
            &&& p == a.len() || p == b.len() || a[p] != b[p]
        }),
    ensures
        ({
            let a = names[order[i] as int]@;
            let b = names[order[j] as int]@;
            &&& order[i] != order[j]
            &&& p < a.len() ==> p < b.len() && a[p] < b[p]
        }),
{
    law_names_are_ordered_by_bytes(names[order[i] as int]@, names[order[j] as int]@, p);
    assert(in_order(names[order[i] as int]@, names[order[j] as int]@));
}

} // verus!
