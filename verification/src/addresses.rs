//! Mounted files are found where they were put.
use vstd::prelude::*;

use crate::block::BlockView;
use crate::editing::lemma_children_range;
use crate::histories::{
    after_events, law_every_mount_is_sound, lemma_added_goes_on, sound, Event,
};
use crate::inode::{empty_table, next_ino_after, section_names, ROOT_INO};
use crate::listing::{all_names_differ, child_names, lemma_made_dirs_names, names_differ};
use crate::mount::{shown_tree, SourceView};
use crate::mounting::law_what_a_mount_is_made_of;
use crate::names::{
    is_first_free, law_a_name_is_not_given_out_twice, lemma_only_first_free, seen_after, slug,
    suffixed, unique,
};
use crate::naming::{
    law_decimal_is_read_back, lemma_names_len, lemma_section_names, lemma_suffix_parts, names_for,
    titles_of,
};
use crate::numbering::law_synced_table_is_in_step;
use crate::outline::occurs;
use crate::reading::numbers_of;
use crate::renaming::lemma_recorded_under_numbers;
use crate::section::{find_below, tree_of, SectionView};
use crate::state::{
    bare_mount, leaves_of, mount_of, roots_of, super_dir_at, super_dir_below, with_all_unplaced,
    with_unplaced, FsView,
};
use crate::supers::{
    child_ino, deeper_leaves, empty_dir, files_named, laid_out, leaves_size, lemma_deeper_smaller,
    lemma_laid_out_fresh, lemma_other_smaller, lemma_with_files_dirs, other_leaves, with_files, Layout,
    SuperView,
};
use crate::text::decimal;
use crate::titles::{law_what_a_directory_is_called, lemma_names_one_by_one};
use crate::uniqueness::{law_added_file_keeps_numbers_apart, numbers_apart};
use crate::vfs::{Ino, Timestamp, VfsError};
use crate::wayfinding::{law_a_way_is_followed_in_parts, lemma_one_step};

verus! {

/// Whether two paths part somewhere, so that none is the beginning of the other.
pub open spec fn paths_part(a: Seq<Seq<char>>, b: Seq<Seq<char>>) -> bool {
    exists|k: int| 0 <= k < a.len() && k < b.len() && #[trigger] a[k] != b[k]
}

/// Whether each name on a path is that of a directory, and there is one.
pub open spec fn is_plain_path(path: Seq<Seq<char>>) -> bool {
    path.len() > 0 && forall|k: int| 0 <= k < path.len() ==> slug(#[trigger] path[k]) == path[k]
}

/// Whether all paths are plain and part from each other.
spec fn apart(leaves: Seq<(usize, Seq<Seq<char>>)>) -> bool {
    &&& forall|i: int| 0 <= i < leaves.len() ==> is_plain_path((#[trigger] leaves[i]).1)
    &&& forall|i: int, j: int|
        0 <= i < j < leaves.len() ==> paths_part((#[trigger] leaves[i]).1, (#[trigger] leaves[j]).1)
}

/// Whether following `path` from a directory with these entries leads to `ino`.
spec fn leads_down(
    dirs: Map<Ino, SuperView>,
    children: Seq<(Seq<char>, Ino)>,
    path: Seq<Seq<char>>,
    ino: Ino,
) -> bool
    decreases path.len(),
{
    &&& path.len() > 0
    &&& child_ino(children, path[0]) is Some
    &&& if path.len() == 1 {
        child_ino(children, path[0]) == Some(ino)
    } else {
        let next = child_ino(children, path[0])->0;
        dirs.contains_key(next) && leads_down(dirs, dirs[next].children, path.drop_first(), ino)
    }
}

/// Whether all directories of `dirs` are in `more` as they are.
spec fn extends(dirs: Map<Ino, SuperView>, more: Map<Ino, SuperView>) -> bool {
    forall|d: Ino| #[trigger]
        dirs.contains_key(d) ==> more.contains_key(d) && more[d] == dirs[d]
}

proof fn lemma_leads_on(
    dirs: Map<Ino, SuperView>,
    more: Map<Ino, SuperView>,
    children: Seq<(Seq<char>, Ino)>,
    others: Seq<(Seq<char>, Ino)>,
    path: Seq<Seq<char>>,
    ino: Ino,
)
    requires
        leads_down(dirs, children, path, ino),
        extends(dirs, more),
        child_ino(others, path[0]) == child_ino(children, path[0]),
    ensures
        leads_down(more, others, path, ino),
    decreases path.len(),
{
    if path.len() > 1 {
        let next = child_ino(children, path[0])->0;
        let c = dirs[next].children;
        assert(more[next] == dirs[next]);
        lemma_leads_on(dirs, more, c, c, path.drop_first(), ino);
    }
}

proof fn lemma_child_pushed(children: Seq<(Seq<char>, Ino)>, name: Seq<char>, ino: Ino, n: Seq<char>)
    ensures
        child_ino(children.push((name, ino)), n) == (match child_ino(children, n) {
            Some(x) => Some(x),
            None => if n == name {
                Some(ino)
            } else {
                None
            },
        }),
    decreases children.len(),
{
    let all = children.push((name, ino));
    if children.len() == 0 {
        assert(all.drop_first() =~= Seq::empty());
        assert(child_ino(all.drop_first(), n) is None);
    } else {
        assert(all[0] == children[0]);
        assert(all.drop_first() =~= children.drop_first().push((name, ino)));
        lemma_child_pushed(children.drop_first(), name, ino, n);
    }
}

proof fn lemma_apart_fewer(leaves: Seq<(usize, Seq<Seq<char>>)>)
    requires
        apart(leaves),
        leaves.len() > 0,
    ensures
        apart(leaves.drop_last()),
{
    let less = leaves.drop_last();
    assert forall|i: int| 0 <= i < less.len() implies is_plain_path((#[trigger] less[i]).1) by {
        assert(less[i] == leaves[i]);
    }
    assert forall|i: int, j: int| 0 <= i < j < less.len() implies paths_part(
        (#[trigger] less[i]).1,
        (#[trigger] less[j]).1,
    ) by {
        assert(less[i] == leaves[i] && less[j] == leaves[j]);
    }
}

/// Whether `leaf` is what is left of one of the leaves behind `name`.
spec fn comes_from(
    leaves: Seq<(usize, Seq<Seq<char>>)>,
    name: Seq<char>,
    leaf: (usize, Seq<Seq<char>>),
) -> bool {
    exists|i: int|
        {
            &&& 0 <= i < leaves.len()
            &&& (#[trigger] leaves[i]).1.len() > 1
            &&& leaves[i].1[0] == name
            &&& leaf.0 == leaves[i].0
            &&& leaf.1 == leaves[i].1.drop_first()
        }
}

/// What goes deeper comes from leaves that begin with the name, parts again, and is all of that.
proof fn lemma_deeper(leaves: Seq<(usize, Seq<Seq<char>>)>, name: Seq<char>)
    requires
        apart(leaves),
    ensures
        apart(deeper_leaves(leaves, name)),
        forall|j: int|
            0 <= j < deeper_leaves(leaves, name).len() ==> comes_from(
                leaves,
                name,
                #[trigger] deeper_leaves(leaves, name)[j],
            ),
        forall|i: int|
            0 <= i < leaves.len() && (#[trigger] leaves[i]).1.len() > 1 && leaves[i].1[0] == name
                ==> deeper_leaves(leaves, name).contains((leaves[i].0, leaves[i].1.drop_first())),
    decreases leaves.len(),
{
    let all = deeper_leaves(leaves, name);
    if leaves.len() > 0 {
        let less = leaves.drop_last();
        lemma_apart_fewer(leaves);
        lemma_deeper(less, name);
        let before = deeper_leaves(less, name);
        let n = leaves.len() - 1;
        let last = leaves[n];
        assert(is_plain_path(last.1));
        let taken = last.1[0] == name && last.1.len() > 1;
        let leaf = (last.0, last.1.drop_first());
        assert(all == if taken {
            before.push(leaf)
        } else {
            before
        });
        assert forall|j: int| 0 <= j < all.len() implies comes_from(
            leaves,
            name,
            #[trigger] all[j],
        ) by {
            if j < before.len() {
                assert(all[j] == before[j]);
                let i = choose|i: int|
                    {
                        &&& 0 <= i < less.len()
                        &&& (#[trigger] less[i]).1.len() > 1
                        &&& less[i].1[0] == name
                        &&& before[j].0 == less[i].0
                        &&& before[j].1 == less[i].1.drop_first()
                    };
                assert(leaves[i] == less[i]);
            } else {
                assert(leaves[n].1.len() > 1);
            }
        }
        assert forall|i: int|
            0 <= i < leaves.len() && (#[trigger] leaves[i]).1.len() > 1 && leaves[i].1[0]
                == name implies all.contains((leaves[i].0, leaves[i].1.drop_first())) by {
            if i < n {
                assert(less[i] == leaves[i]);
                let x = (leaves[i].0, leaves[i].1.drop_first());
                let j = choose|j: int| 0 <= j < before.len() && before[j] == x;
                assert(all[j] == x);
            } else {
                assert(all[before.len() as int] == leaf);
            }
        }
        assert forall|i: int| 0 <= i < all.len() implies is_plain_path((#[trigger] all[i]).1) by {
            if i < before.len() {
                assert(all[i] == before[i]);
            } else {
                assert forall|k: int| 0 <= k < leaf.1.len() implies slug(#[trigger] leaf.1[k])
                    == leaf.1[k] by {
                    assert(leaf.1[k] == last.1[k + 1]);
                }
            }
        }
        assert forall|i: int, j: int| 0 <= i < j < all.len() implies paths_part(
            (#[trigger] all[i]).1,
            (#[trigger] all[j]).1,
        ) by {
            assert(all[i] == before[i]);
            if j < before.len() {
                assert(all[j] == before[j]);
            } else {
                let l = choose|l: int|
                    {
                        &&& 0 <= l < less.len()
                        &&& (#[trigger] less[l]).1.len() > 1
                        &&& less[l].1[0] == name
                        &&& before[i].0 == less[l].0
                        &&& before[i].1 == less[l].1.drop_first()
                    };
                assert(comes_from(less, name, before[i]));
                assert(leaves[l] == less[l]);
                assert(paths_part(leaves[l].1, leaves[n].1));
                let a = leaves[l].1;
                let b = leaves[n].1;
                let k = choose|k: int| 0 <= k < a.len() && k < b.len() && #[trigger] a[k] != b[k];
                assert(k > 0);
                assert(all[i].1[k - 1] == a[k]);
                assert(all[j].1[k - 1] == b[k]);
            }
        }
    }
}

/// What begins otherwise is among the leaves, parts, and is all of that.
proof fn lemma_others(leaves: Seq<(usize, Seq<Seq<char>>)>, name: Seq<char>)
    requires
        apart(leaves),
    ensures
        apart(other_leaves(leaves, name)),
        forall|j: int|
            0 <= j < other_leaves(leaves, name).len() ==> (#[trigger] other_leaves(
                leaves,
                name,
            )[j]).1[0] != name && leaves.contains(other_leaves(leaves, name)[j]),
        forall|i: int|
            0 <= i < leaves.len() && (#[trigger] leaves[i]).1[0] != name ==> other_leaves(
                leaves,
                name,
            ).contains(leaves[i]),
    decreases leaves.len(),
{
    let all = other_leaves(leaves, name);
    if leaves.len() > 0 {
        let less = leaves.drop_last();
        lemma_apart_fewer(leaves);
        lemma_others(less, name);
        let before = other_leaves(less, name);
        let n = leaves.len() - 1;
        let last = leaves[n];
        assert forall|j: int| 0 <= j < all.len() implies (#[trigger] all[j]).1[0] != name
            && leaves.contains(all[j]) by {
            if j < before.len() {
                assert(all[j] == before[j]);
                let i = choose|i: int| 0 <= i < less.len() && less[i] == before[j];
                assert(leaves[i] == before[j]);
            } else {
                assert(all[j] == leaves[n]);
            }
        }
        assert forall|i: int| 0 <= i < leaves.len() && (#[trigger] leaves[i]).1[0] != name implies
            all.contains(leaves[i]) by {
            if i < n {
                assert(less[i] == leaves[i]);
                let j = choose|j: int| 0 <= j < before.len() && before[j] == leaves[i];
                assert(all[j] == leaves[i]);
            } else {
                assert(all[before.len() as int] == last);
            }
        }
        assert forall|i: int| 0 <= i < all.len() implies is_plain_path((#[trigger] all[i]).1) by {
            assert(leaves.contains(all[i]));
            let l = choose|l: int| 0 <= l < leaves.len() && leaves[l] == all[i];
            assert(is_plain_path(leaves[l].1));
        }
        assert forall|i: int, j: int| 0 <= i < j < all.len() implies paths_part(
            (#[trigger] all[i]).1,
            (#[trigger] all[j]).1,
        ) by {
            assert(all[i] == before[i]);
            if j < before.len() {
                assert(all[j] == before[j]);
            } else {
                assert(less.contains(before[i]));
                let l = choose|l: int| 0 <= l < less.len() && less[l] == before[i];
                assert(leaves[l] == less[l]);
                assert(paths_part(leaves[l].1, leaves[n].1));
            }
        }
    }
}

/// At most one leaf is just the name, and then no other begins with it.
proof fn lemma_one_file(leaves: Seq<(usize, Seq<Seq<char>>)>, name: Seq<char>)
    requires
        apart(leaves),
    ensures
        files_named(leaves, name).len() <= 1,
        files_named(leaves, name).len() == 1 ==> exists|i: int|
            0 <= i < leaves.len() && (#[trigger] leaves[i]).1.len() == 1 && leaves[i].1[0] == name
                && files_named(leaves, name)[0] == leaves[i].0,
        forall|i: int|
            0 <= i < leaves.len() && (#[trigger] leaves[i]).1.len() == 1 && leaves[i].1[0] == name
                ==> files_named(leaves, name).len() == 1 && files_named(leaves, name)[0]
                == leaves[i].0,
    decreases leaves.len(),
{
    let all = files_named(leaves, name);
    if leaves.len() > 0 {
        let less = leaves.drop_last();
        lemma_apart_fewer(leaves);
        lemma_one_file(less, name);
        let before = files_named(less, name);
        let n = leaves.len() - 1;
        let last = leaves[n];
        assert(is_plain_path(last.1));
        let taken = last.1[0] == name && last.1.len() == 1;
        if before.len() == 1 {
            let i = choose|i: int|
                0 <= i < less.len() && (#[trigger] less[i]).1.len() == 1 && less[i].1[0] == name
                    && before[0] == less[i].0;
            assert(leaves[i] == less[i]);
            assert(paths_part(leaves[i].1, leaves[n].1));
            assert(!taken);
            assert(all == before);
        } else if taken {
            assert(before.len() == 0);
            assert(all[0] == last.0);
            assert(leaves[n].1.len() == 1);
        }
        assert forall|i: int|
            0 <= i < leaves.len() && (#[trigger] leaves[i]).1.len() == 1 && leaves[i].1[0]
                == name implies all.len() == 1 && all[0] == leaves[i].0 by {
            if i < n {
                assert(less[i] == leaves[i]);
            }
        }
    }
}

/// Leaves that part are found at their paths once they are laid out.
#[verifier::spinoff_prover]
proof fn lemma_laid_out_at_paths(
    layout: Layout,
    leaves: Seq<(usize, Seq<Seq<char>>)>,
    parent: Ino,
    roots: Seq<Ino>,
)
    requires
        apart(leaves),
        forall|i: int|
            0 <= i < leaves.len() ==> !layout.seen.contains((#[trigger] leaves[i]).1[0]),
        forall|i: int|
            0 <= i < leaves.len() ==> child_ino(
                layout.children,
                (#[trigger] leaves[i]).1[0],
            ) is None,
        forall|d: Ino| #[trigger] layout.dirs.contains_key(d) ==> d < layout.next,
        laid_out(layout, leaves, parent, roots).next < u64::MAX,
    ensures
        ({
            let after = laid_out(layout, leaves, parent, roots);
            &&& extends(layout.dirs, after.dirs)
            &&& forall|i: int|
                0 <= i < leaves.len() ==> leads_down(
                    after.dirs,
                    after.children,
                    (#[trigger] leaves[i]).1,
                    roots[leaves[i].0 as int],
                )
            &&& forall|n: Seq<char>| #[trigger]
                child_ino(layout.children, n) is Some ==> child_ino(after.children, n) == child_ino(
                    layout.children,
                    n,
                )
        }),
    decreases leaves_size(leaves),
{
    if leaves.len() > 0 {
        let name = leaves[0].1[0];
        let deeper = deeper_leaves(leaves, name);
        let files = files_named(leaves, name);
        let others = other_leaves(leaves, name);
        lemma_deeper_smaller(leaves, name);
        lemma_other_smaller(leaves, name);
        lemma_deeper(leaves, name);
        lemma_others(leaves, name);
        lemma_one_file(leaves, name);
        assert(is_plain_path(leaves[0].1));
        assert(slug(leaves[0].1[0]) == name);
        assert(unique(layout.seen, name) == name);
        let after = laid_out(layout, leaves, parent, roots);
        let (with_dir, filled) = lemma_first_name(layout, leaves, parent, roots);
        assert forall|j: int| 0 <= j < others.len() implies !filled.seen.contains(
            (#[trigger] others[j]).1[0],
        ) && child_ino(filled.children, others[j].1[0]) is None by {
            assert(leaves.contains(others[j]));
            let i = choose|i: int| 0 <= i < leaves.len() && leaves[i] == others[j];
            assert(!layout.seen.contains(leaves[i].1[0]));
            assert(child_ino(layout.children, leaves[i].1[0]) is None);
        }
        lemma_laid_out_at_paths(filled, others, parent, roots);
        assert forall|i: int| 0 <= i < leaves.len() implies leads_down(
            after.dirs,
            after.children,
            (#[trigger] leaves[i]).1,
            roots[leaves[i].0 as int],
        ) by {
            let path = leaves[i].1;
            if path[0] != name {
                assert(others.contains(leaves[i]));
                let j = choose|j: int| 0 <= j < others.len() && others[j] == leaves[i];
                assert(leads_down(
                    after.dirs,
                    after.children,
                    others[j].1,
                    roots[others[j].0 as int],
                ));
            } else {
                assert(leads_down(filled.dirs, filled.children, path, roots[leaves[i].0 as int]));
                assert(child_ino(filled.children, path[0]) is Some);
                lemma_leads_on(
                    filled.dirs,
                    after.dirs,
                    filled.children,
                    after.children,
                    path,
                    roots[leaves[i].0 as int],
                );
            }
        }
        assert forall|n: Seq<char>| #[trigger] child_ino(layout.children, n) is Some implies child_ino(
            after.children,
            n,
        ) == child_ino(layout.children, n) by {
            assert(child_ino(filled.children, n) == child_ino(layout.children, n));
        }
    }
}

/// The leaves that begin with the first name are found at their paths once that name is an entry.
#[verifier::spinoff_prover]
proof fn lemma_first_name(
    layout: Layout,
    leaves: Seq<(usize, Seq<Seq<char>>)>,
    parent: Ino,
    roots: Seq<Ino>,
) -> (r: (Layout, Layout))
    requires
        leaves.len() > 0,
        apart(leaves),
        !layout.seen.contains(leaves[0].1[0]),
        child_ino(layout.children, leaves[0].1[0]) is None,
        forall|d: Ino| #[trigger] layout.dirs.contains_key(d) ==> d < layout.next,
        laid_out(layout, leaves, parent, roots).next < u64::MAX,
    ensures
        ({
            let (with_dir, filled) = r;
            let name = leaves[0].1[0];
            let after = laid_out(layout, leaves, parent, roots);
            &&& after == laid_out(filled, other_leaves(leaves, name), parent, roots)
            &&& filled.next >= layout.next
            &&& extends(layout.dirs, filled.dirs)
            &&& forall|d: Ino| #[trigger] filled.dirs.contains_key(d) ==> d < filled.next
            &&& filled.seen == layout.seen.insert(name)
            &&& child_ino(filled.children, name) is Some
            &&& forall|n: Seq<char>|
                n != name ==> #[trigger] child_ino(filled.children, n) == child_ino(
                    layout.children,
                    n,
                )
            &&& forall|i: int|
                0 <= i < leaves.len() && (#[trigger] leaves[i]).1[0] == name ==> leads_down(
                    filled.dirs,
                    filled.children,
                    leaves[i].1,
                    roots[leaves[i].0 as int],
                )
        }),
    decreases leaves_size(leaves), 0nat,
{
    let name = leaves[0].1[0];
    let deeper = deeper_leaves(leaves, name);
    let files = files_named(leaves, name);
    let others = other_leaves(leaves, name);
    lemma_deeper_smaller(leaves, name);
    lemma_other_smaller(leaves, name);
    lemma_deeper(leaves, name);
    lemma_one_file(leaves, name);
    assert(is_plain_path(leaves[0].1));
    assert(slug(leaves[0].1[0]) == name);
    assert(unique(layout.seen, name) == name);
    let after = laid_out(layout, leaves, parent, roots);
    if leaves[0].1.len() > 1 {
        assert(deeper.contains((leaves[0].0, leaves[0].1.drop_first())));
        assert(deeper.len() > 0);
        assert(files.len() == 0) by {
            if files.len() == 1 {
                let i = choose|i: int|
                    0 <= i < leaves.len() && (#[trigger] leaves[i]).1.len() == 1 && leaves[i].1[0]
                        == name && files[0] == leaves[i].0;
                assert(i != 0);
                assert(paths_part(leaves[0].1, leaves[i].1));
            }
        }
        let ino = layout.next;
        let start = Layout {
            children: Seq::empty(),
            seen: Set::empty(),
            next: next_ino_after(ino),
            ..layout
        };
        let below = laid_out(start, deeper, ino, roots);
        let dir = SuperView { parent, children: below.children, seen: below.seen };
        let with_dir = Layout {
            children: layout.children.push((unique(layout.seen, name), ino)),
            seen: seen_after(layout.seen, name),
            dirs: below.dirs.insert(ino, dir),
            ..below
        };
        assert(with_files(with_dir, files, name, parent, roots) == with_dir);
        assert(after == laid_out(with_dir, others, parent, roots));
        lemma_laid_out_fresh(with_dir, others, parent, roots, ino);
        lemma_laid_out_fresh(start, deeper, ino, roots, ino);
        assert(below.next < u64::MAX);
        assert(ino < start.next);
        assert forall|j: int| 0 <= j < deeper.len() implies child_ino(
            start.children,
            (#[trigger] deeper[j]).1[0],
        ) is None by {}
        lemma_laid_out_at_paths(start, deeper, ino, roots);
        assert(!below.dirs.contains_key(ino)) by {
            if below.dirs.contains_key(ino) {
                assert(!layout.dirs.contains_key(ino));
            }
        }
        assert forall|d: Ino| #[trigger] with_dir.dirs.contains_key(d) implies d < with_dir.next by {
            lemma_laid_out_fresh(start, deeper, ino, roots, d);
        }
        assert(extends(below.dirs, with_dir.dirs));
        assert forall|n: Seq<char>| n != name implies #[trigger] child_ino(with_dir.children, n)
            == child_ino(layout.children, n) by {
            lemma_child_pushed(layout.children, name, ino, n);
        }
        lemma_child_pushed(layout.children, name, ino, name);
        assert forall|i: int| 0 <= i < leaves.len() && (#[trigger] leaves[i]).1[0] == name implies
            leads_down(
            with_dir.dirs,
            with_dir.children,
            leaves[i].1,
            roots[leaves[i].0 as int],
        ) by {
            let path = leaves[i].1;
            assert(is_plain_path(path));
            if path.len() == 1 {
                assert(files.len() == 1);
            }
            let rest = (leaves[i].0, path.drop_first());
            assert(deeper.contains(rest));
            let j = choose|j: int| 0 <= j < deeper.len() && deeper[j] == rest;
            assert(leads_down(below.dirs, below.children, deeper[j].1, roots[deeper[j].0 as int]));
            lemma_leads_on(
                below.dirs,
                with_dir.dirs,
                below.children,
                dir.children,
                rest.1,
                roots[rest.0 as int],
            );
            assert(with_dir.dirs[ino] == dir);
        }
        (with_dir, with_dir)
    } else {
        let file = leaves[0].0;
        assert(files.len() == 1 && files[0] == file);
        assert(deeper.len() == 0) by {
            if deeper.len() > 0 {
                let i = choose|i: int|
                    {
                        &&& 0 <= i < leaves.len()
                        &&& (#[trigger] leaves[i]).1.len() > 1
                        &&& leaves[i].1[0] == name
                        &&& deeper[0].0 == leaves[i].0
                        &&& deeper[0].1 == leaves[i].1.drop_first()
                    };
                assert(comes_from(leaves, name, deeper[0]));
                assert(i != 0);
                assert(paths_part(leaves[0].1, leaves[i].1));
            }
        }
        let filled = with_files(layout, files, name, parent, roots);
        assert(files.drop_last() =~= Seq::empty());
        assert(with_files(layout, files.drop_last(), name, parent, roots) == layout);
        assert(filled.children == layout.children.push((name, roots[file as int])));
        assert(after == laid_out(filled, others, parent, roots));
        lemma_child_pushed(layout.children, name, roots[file as int], name);
        assert forall|n: Seq<char>| n != name implies #[trigger] child_ino(filled.children, n)
            == child_ino(layout.children, n) by {
            lemma_child_pushed(layout.children, name, roots[file as int], n);
        }
        assert forall|i: int| 0 <= i < leaves.len() && (#[trigger] leaves[i]).1[0] == name implies
            leads_down(filled.dirs, filled.children, leaves[i].1, roots[leaves[i].0 as int]) by {
            if i > 0 {
                assert(paths_part(leaves[0].1, leaves[i].1));
                assert(false);
            }
        }
        (layout, filled)
    }
}

proof fn lemma_walk_down(fs: FsView, dir: Ino, path: Seq<Seq<char>>, ino: Ino)
    requires
        fs.dirs.contains_key(dir),
        leads_down(fs.dirs, fs.dirs[dir].children, path, ino),
    ensures
        fs.walk(dir, path) == Ok::<Ino, VfsError>(ino),
    decreases path.len(),
{
    let next = child_ino(fs.dirs[dir].children, path[0])->0;
    if path.len() == 1 {
        assert(path.drop_first() =~= Seq::empty());
        assert(fs.walk(next, path.drop_first()) == Ok::<Ino, VfsError>(next));
    } else {
        lemma_walk_down(fs, next, path.drop_first(), ino);
    }
}

/// In a fresh mount every file is found at its path: the names on the path lead from the root to the
/// file's own directory. This is so as long as the numbers do not run out, where the names are those of
/// directories and no path is the beginning of another.
pub proof fn law_files_are_found_at_their_paths(
    sources: Seq<SourceView>,
    readonly: bool,
    allow_other: bool,
    uid: u32,
    gid: u32,
    i: int,
)
    requires
        sources.len() < usize::MAX,
        forall|k: int|
            0 <= k < sources.len() ==> is_plain_path((#[trigger] sources[k]).mount_path),
        forall|k: int, l: int|
            0 <= k < l < sources.len() ==> paths_part(
                (#[trigger] sources[k]).mount_path,
                (#[trigger] sources[l]).mount_path,
            ),
        mount_of(sources, readonly, allow_other, uid, gid).next < u64::MAX,
        0 <= i < sources.len(),
    ensures
        ({
            let fs = mount_of(sources, readonly, allow_other, uid, gid);
            let found = fs.walk(ROOT_INO, sources[i].mount_path);
            &&& found is Ok
            &&& fs.dir_path(found->Ok_0) == Some((i as usize, Seq::<Seq<char>>::empty()))
        }),
{
    let hidden = exists|i: int| 0 <= i < sources.len() && (#[trigger] sources[i]).shown is Some;
    let bare = bare_mount(readonly || hidden, allow_other, uid, gid);
    let all = with_all_unplaced(bare, sources);
    let fs = mount_of(sources, readonly, allow_other, uid, gid);
    let roots = roots_of(all.files);
    let leaves = leaves_of(sources);
    let start = Layout {
        children: Seq::empty(),
        seen: Set::empty(),
        dirs: Map::empty(),
        file_parents: Map::empty(),
        next: all.next,
    };
    let layout = laid_out(start, leaves, ROOT_INO, roots);
    let none = Seq::<(Event, Timestamp)>::empty();
    assert(after_events(fs, none) == fs);
    law_every_mount_is_sound(sources, readonly, allow_other, uid, gid, none);
    assert(sound(fs));
    law_what_a_mount_is_made_of(sources, readonly, allow_other, uid, gid);
    assert(apart(leaves)) by {
        assert forall|k: int| 0 <= k < leaves.len() implies is_plain_path(
            (#[trigger] leaves[k]).1,
        ) by {
            assert(is_plain_path(sources[k].mount_path));
        }
        assert forall|k: int, l: int| 0 <= k < l < leaves.len() implies paths_part(
            (#[trigger] leaves[k]).1,
            (#[trigger] leaves[l]).1,
        ) by {
            assert(paths_part(sources[k].mount_path, sources[l].mount_path));
        }
    }
    lemma_laid_out_at_paths(start, leaves, ROOT_INO, roots);
    assert(extends(layout.dirs, fs.dirs)) by {
        if layout.dirs.contains_key(ROOT_INO) {
            lemma_laid_out_fresh(start, leaves, ROOT_INO, roots, ROOT_INO);
            lemma_first_numbers(bare, sources);
        }
    }
    let path = leaves[i].1;
    let root = roots[leaves[i].0 as int];
    assert(leads_down(layout.dirs, layout.children, path, root));
    lemma_leads_on(
        layout.dirs,
        fs.dirs,
        layout.children,
        fs.dirs[ROOT_INO].children,
        path,
        root,
    );
    lemma_walk_down(fs, ROOT_INO, path, root);
    let f = fs.files[i];
    let none = Seq::<Seq<char>>::empty();
    assert(find_below(f.tree.root, none) is Some);
    lemma_recorded_under_numbers(fs, i as usize, none);
    assert(numbers_of(f.inodes, f.tree, none).dir == root);
}

proof fn lemma_first_numbers(fs: FsView, sources: Seq<SourceView>)
    requires
        fs.next > 0,
    ensures
        fs.next <= with_all_unplaced(fs, sources).next,
    decreases sources.len(),
{
    if sources.len() > 0 {
        lemma_first_numbers(fs, sources.drop_last());
        let before = with_all_unplaced(fs, sources.drop_last());
        law_synced_table_is_in_step(
            empty_table(),
            before.next,
            shown_tree(sources.last().document, sources.last().shown),
        );
    }
}

/// The directory above the files that is reached from `dir` by `names`.
spec fn followed(dirs: Map<Ino, SuperView>, dir: Ino, names: Seq<Seq<char>>) -> Option<Ino>
    decreases names.len(),
{
    if names.len() == 0 {
        Some(dir)
    } else {
        match followed(dirs, dir, names.drop_last()) {
            Some(p) => match child_ino(dirs[p].children, names.last()) {
                Some(x) => if dirs.contains_key(x) {
                    Some(x)
                } else {
                    None
                },
                None => None,
            },
            None => None,
        }
    }
}

/// Whether all directories of `dirs` are in `more`, with all their entries.
spec fn grows(dirs: Map<Ino, SuperView>, more: Map<Ino, SuperView>) -> bool {
    &&& forall|d: Ino| #[trigger] dirs.contains_key(d) ==> more.contains_key(d)
    &&& forall|d: Ino, n: Seq<char>|
        dirs.contains_key(d) && (#[trigger] child_ino(dirs[d].children, n)) is Some ==> child_ino(
            more[d].children,
            n,
        ) == child_ino(dirs[d].children, n)
}

proof fn lemma_followed(dirs: Map<Ino, SuperView>, dir: Ino, names: Seq<Seq<char>>)
    requires
        dirs.contains_key(dir),
        followed(dirs, dir, names) is Some,
    ensures
        dirs.contains_key(followed(dirs, dir, names)->0),
    decreases names.len(),
{
    if names.len() > 0 {
        lemma_followed(dirs, dir, names.drop_last());
    }
}

proof fn lemma_followed_on(
    dirs: Map<Ino, SuperView>,
    more: Map<Ino, SuperView>,
    dir: Ino,
    names: Seq<Seq<char>>,
)
    requires
        dirs.contains_key(dir),
        grows(dirs, more),
        followed(dirs, dir, names) is Some,
    ensures
        followed(more, dir, names) == followed(dirs, dir, names),
    decreases names.len(),
{
    if names.len() > 0 {
        lemma_followed_on(dirs, more, dir, names.drop_last());
        lemma_followed(dirs, dir, names.drop_last());
        let p = followed(dirs, dir, names.drop_last())->0;
        assert(child_ino(dirs[p].children, names.last()) is Some);
    }
}

proof fn lemma_walk_followed(fs: FsView, dir: Ino, names: Seq<Seq<char>>)
    requires
        fs.dirs.contains_key(dir),
        followed(fs.dirs, dir, names) is Some,
    ensures
        fs.walk(dir, names) == Ok::<Ino, VfsError>(followed(fs.dirs, dir, names)->0),
    decreases names.len(),
{
    if names.len() > 0 {
        let p = followed(fs.dirs, dir, names.drop_last())->0;
        lemma_walk_followed(fs, dir, names.drop_last());
        lemma_followed(fs.dirs, dir, names.drop_last());
        lemma_last_step(fs, dir, names);
    }
}

/// The last step of a way.
proof fn lemma_last_step(fs: FsView, dir: Ino, names: Seq<Seq<char>>)
    requires
        names.len() > 0,
    ensures
        fs.walk(dir, names) == (match fs.walk(dir, names.drop_last()) {
            Ok(p) => fs.lookup(p, names.last()),
            Err(e) => Err(e),
        }),
{
    let last = seq![names.last()];
    assert(names =~= names.drop_last() + last);
    law_a_way_is_followed_in_parts(fs, dir, names.drop_last(), last);
    if let Ok(p) = fs.walk(dir, names.drop_last()) {
        lemma_one_step(fs, p, names.last());
    }
}

proof fn lemma_no_child(children: Seq<(Seq<char>, Ino)>, name: Seq<char>)
    requires
        child_ino(children, name) is None,
    ensures
        !child_names(children).contains(name),
    decreases children.len(),
{
    if children.len() > 0 {
        lemma_no_child(children.drop_first(), name);
        let names = child_names(children);
        if names.contains(name) {
            let i = choose|i: int| 0 <= i < names.len() && names[i] == name;
            assert(child_names(children.drop_first())[i - 1] == name);
        }
    }
}

/// A directory that is made in another is found there under its name.
proof fn lemma_one_more_dir(
    dirs: Map<Ino, SuperView>,
    next: Ino,
    parent: Ino,
    name: Seq<char>,
)
    requires
        all_names_differ(dirs),
        dirs.contains_key(parent),
        !dirs.contains_key(next),
        child_ino(dirs[parent].children, name) is None,
        slug(name) == name,
    ensures
        ({
            let (after, free, found) = super_dir_below(dirs, next, parent, name);
            &&& found == next
            &&& free == next_ino_after(next)
            &&& grows(dirs, after)
            &&& after.contains_key(next)
            &&& child_ino(after[parent].children, name) == Some(next)
            &&& after[next] == empty_dir(parent)
        }),
{
    let (after, free, found) = super_dir_below(dirs, next, parent, name);
    assert(names_differ(dirs[parent].children, dirs[parent].seen));
    lemma_no_child(dirs[parent].children, name);
    assert(!dirs[parent].seen.contains(name));
    assert(unique(dirs[parent].seen, name) == name);
    let made = dirs.insert(next, empty_dir(parent));
    assert(made[parent] == dirs[parent]);
    assert(after[parent].children == dirs[parent].children.push((name, next)));
    lemma_child_pushed(dirs[parent].children, name, next, name);
    assert forall|d: Ino, n: Seq<char>|
        dirs.contains_key(d) && (#[trigger] child_ino(dirs[d].children, n)) is Some implies child_ino(
        after[d].children,
        n,
    ) == child_ino(dirs[d].children, n) by {
        if d == parent {
            lemma_child_pushed(dirs[parent].children, name, next, n);
        }
    }
}

/// The directories on the way to a new file are found by their names: they are those that there are,
/// and from the first that is missing on they are made.
proof fn lemma_made_way(fs: FsView, next: Ino, names: Seq<Seq<char>>)
    requires
        all_names_differ(fs.dirs),
        fs.dirs.contains_key(ROOT_INO),
        forall|d: Ino| #[trigger] fs.dirs.contains_key(d) ==> d < next,
        super_dir_at(fs.dirs, next, names).1 < u64::MAX,
        forall|k: int| 0 <= k < names.len() ==> slug(#[trigger] names[k]) == names[k],
        forall|k: int|
            0 < k <= names.len() && fs.walk(ROOT_INO, #[trigger] names.take(k)) is Ok
                ==> fs.dirs.contains_key(fs.walk(ROOT_INO, names.take(k))->Ok_0),
    ensures
        ({
            let (dirs, free, p) = super_dir_at(fs.dirs, next, names);
            &&& all_names_differ(dirs)
            &&& followed(dirs, ROOT_INO, names) == Some(p)
            &&& dirs.contains_key(p)
            &&& grows(fs.dirs, dirs)
            &&& next <= free
            &&& forall|d: Ino| #[trigger] dirs.contains_key(d) ==> d < free
            &&& dirs == fs.dirs || dirs[p].children.len() == 0
        }),
    decreases names.len(),
{
    if names.len() > 0 {
        let less = names.drop_last();
        let name = names.last();
        assert(name == names[names.len() - 1]);
        let (dirs, free, p) = super_dir_at(fs.dirs, next, less);
        let (after, free2, found) = super_dir_below(dirs, free, p, name);
        assert forall|k: int| 0 <= k < less.len() implies slug(#[trigger] less[k]) == less[k] by {
            assert(less[k] == names[k]);
        }
        assert forall|k: int|
            0 < k <= less.len() && fs.walk(ROOT_INO, #[trigger] less.take(k)) is Ok implies
            fs.dirs.contains_key(fs.walk(ROOT_INO, less.take(k))->Ok_0) by {
            assert(less.take(k) =~= names.take(k));
        }
        lemma_made_way(fs, next, less);
        lemma_made_dirs_names(fs.dirs, next, names);
        let existing = child_ino(dirs[p].children, name);
        if existing is Some {
            if dirs[p].children.len() == 0 {
                assert(false);
            }
            assert(dirs == fs.dirs);
            lemma_walk_followed(fs, ROOT_INO, less);
            lemma_last_step(fs, ROOT_INO, names);
            assert(names.take(names.len() as int) =~= names);
            assert(fs.walk(ROOT_INO, names.take(names.len() as int)) == Ok::<Ino, VfsError>(
                existing->0,
            ));
            assert(after == dirs && found == existing->0);
        } else {
            lemma_one_more_dir(dirs, free, p, name);
            lemma_followed_on(dirs, after, ROOT_INO, less);
            assert(free < free2);
            assert forall|d: Ino| #[trigger] after.contains_key(d) implies d < free2 by {
                if d != free && d != p {
                    assert(dirs.contains_key(d));
                }
            }
            assert forall|d: Ino, n: Seq<char>|
                fs.dirs.contains_key(d) && (#[trigger] child_ino(fs.dirs[d].children, n))
                    is Some implies child_ino(after[d].children, n) == child_ino(
                fs.dirs[d].children,
                n,
            ) by {
                assert(dirs.contains_key(d));
                assert(child_ino(dirs[d].children, n) is Some);
            }
            assert forall|d: Ino| #[trigger] fs.dirs.contains_key(d) implies after.contains_key(
                d,
            ) by {
                assert(dirs.contains_key(d));
            }
        }
    } else {
        assert(grows(fs.dirs, fs.dirs));
    }
}

/// A file that is added to a mount is found at its path, where the names on it are those of directories,
/// nothing is there yet, and no file stands in the way. This is so as long as the numbers do not run
/// out.
pub proof fn law_added_file_is_found_at_its_path(fs: FsView, source: SourceView)
    requires
        fs.wf(),
        numbers_apart(fs),
        all_names_differ(fs.dirs),
        fs.files.len() < usize::MAX,
        is_plain_path(source.mount_path),
        !fs.mounted.contains(source.path),
        fs.walk(ROOT_INO, source.mount_path) is Err,
        forall|k: int|
            0 < k < source.mount_path.len() && fs.walk(
                ROOT_INO,
                #[trigger] source.mount_path.take(k),
            ) is Ok ==> fs.dirs.contains_key(fs.walk(ROOT_INO, source.mount_path.take(k))->Ok_0),
        fs.with_file(source).next < u64::MAX,
        source.shown is Some ==> fs.readonly,
    ensures
        ({
            let after = fs.with_file(source);
            let found = after.walk(ROOT_INO, source.mount_path);
            &&& found is Ok
            &&& after.dir_path(found->Ok_0) == Some(
                (fs.files.len() as usize, Seq::<Seq<char>>::empty()),
            )
        }),
{
    let path = source.mount_path;
    let after = fs.with_file(source);
    lemma_added_goes_on(fs, source);
    law_added_file_keeps_numbers_apart(fs, source);
    let opened_fs = with_unplaced(fs, source);
    let root = opened_fs.files.last().inodes.shadow.dir;
    let names = path.drop_last();
    let name = path.last();
    assert(name == path[path.len() - 1]);
    let (dirs, free, p) = super_dir_at(opened_fs.dirs, opened_fs.next, names);
    law_synced_table_is_in_step(
        empty_table(),
        fs.next,
        shown_tree(source.document, source.shown),
    );
    assert(fs.next <= opened_fs.next);
    assert forall|k: int| 0 <= k < names.len() implies slug(#[trigger] names[k]) == names[k] by {
        assert(names[k] == path[k]);
    }
    assert forall|k: int|
        0 < k <= names.len() && fs.walk(ROOT_INO, #[trigger] names.take(k)) is Ok implies
        fs.dirs.contains_key(fs.walk(ROOT_INO, names.take(k))->Ok_0) by {
        assert(names.take(k) =~= path.take(k));
    }
    lemma_made_way(fs, opened_fs.next, names);
    assert(child_ino(dirs[p].children, name) is None) by {
        if child_ino(dirs[p].children, name) is Some {
            assert(dirs[p].children.len() > 0);
            assert(dirs == fs.dirs);
            lemma_walk_followed(fs, ROOT_INO, names);
            lemma_last_step(fs, ROOT_INO, path);
        }
    }
    assert(names_differ(dirs[p].children, dirs[p].seen));
    lemma_no_child(dirs[p].children, name);
    assert(unique(dirs[p].seen, name) == name);
    assert(after.dirs[p].children == dirs[p].children.push((name, root)));
    lemma_child_pushed(dirs[p].children, name, root, name);
    assert(grows(dirs, after.dirs)) by {
        assert forall|d: Ino, n: Seq<char>|
            dirs.contains_key(d) && (#[trigger] child_ino(dirs[d].children, n)) is Some implies
            child_ino(after.dirs[d].children, n) == child_ino(dirs[d].children, n) by {
            if d == p {
                lemma_child_pushed(dirs[p].children, name, root, n);
            }
        }
    }
    assert(dirs.contains_key(ROOT_INO));
    lemma_followed_on(dirs, after.dirs, ROOT_INO, names);
    lemma_walk_followed(after, ROOT_INO, names);
    lemma_last_step(after, ROOT_INO, path);
    assert(after.walk(ROOT_INO, path) == Ok::<Ino, VfsError>(root));
    let i = fs.files.len() as int;
    let f = after.files[i];
    let none = Seq::<Seq<char>>::empty();
    assert(find_below(f.tree.root, none) is Some);
    lemma_recorded_under_numbers(after, i as usize, none);
    assert(numbers_of(f.inodes, f.tree, none).dir == root);
}

/// The leaves but the first, where no other begins with its name.
proof fn lemma_other_than_first(leaves: Seq<(usize, Seq<Seq<char>>)>, name: Seq<char>)
    requires
        leaves.len() > 0,
        leaves[0].1.len() == 1,
        leaves[0].1[0] == name,
        forall|i: int| 0 < i < leaves.len() ==> (#[trigger] leaves[i]).1[0] != name,
    ensures
        other_leaves(leaves, name) == leaves.drop_first(),
        files_named(leaves, name) == seq![leaves[0].0],
        deeper_leaves(leaves, name).len() == 0,
    decreases leaves.len(),
{
    let less = leaves.drop_last();
    let n = leaves.len() - 1;
    if n > 0 {
        assert forall|i: int| 0 < i < less.len() implies (#[trigger] less[i]).1[0] != name by {
            assert(less[i] == leaves[i]);
        }
        assert(less[0] == leaves[0]);
        lemma_other_than_first(less, name);
        assert(leaves[n].1[0] != name);
        assert(other_leaves(leaves, name) =~= leaves.drop_first());
    } else {
        assert(less =~= Seq::empty());
        assert(other_leaves(less, name) =~= Seq::empty());
        assert(other_leaves(leaves, name) =~= leaves.drop_first());
        assert(files_named(less, name) =~= Seq::empty());
        assert(files_named(leaves, name) =~= seq![leaves[0].0]);
        assert(deeper_leaves(less, name).len() == 0);
    }
}

/// The first names of leaves.
spec fn heads(leaves: Seq<(usize, Seq<Seq<char>>)>) -> Seq<Seq<char>> {
    Seq::new(leaves.len(), |i: int| leaves[i].1[0])
}

proof fn lemma_laid_out_flat(
    layout: Layout,
    leaves: Seq<(usize, Seq<Seq<char>>)>,
    parent: Ino,
    roots: Seq<Ino>,
)
    requires
        forall|i: int| 0 <= i < leaves.len() ==> (#[trigger] leaves[i]).1.len() == 1,
        heads(leaves).no_duplicates(),
    ensures
        ({
            let after = laid_out(layout, leaves, parent, roots);
            let names = names_for(heads(leaves), layout.seen);
            after.children == layout.children + Seq::new(
                leaves.len(),
                |i: int| (names[i], roots[leaves[i].0 as int]),
            )
        }),
    decreases leaves.len(),
{
    let after = laid_out(layout, leaves, parent, roots);
    let names = names_for(heads(leaves), layout.seen);
    let new = Seq::new(leaves.len(), |i: int| (names[i], roots[leaves[i].0 as int]));
    if leaves.len() == 0 {
        assert(layout.children + new =~= layout.children);
    } else {
        let name = leaves[0].1[0];
        let hs = heads(leaves);
        assert(hs[0] == name);
        assert forall|i: int| 0 < i < leaves.len() implies (#[trigger] leaves[i]).1[0] != name by {
            assert(hs[i] != hs[0]);
        }
        lemma_other_than_first(leaves, name);
        let rest = leaves.drop_first();
        let files = files_named(leaves, name);
        let filled = with_files(layout, files, name, parent, roots);
        assert(files.drop_last() =~= Seq::empty());
        assert(files.last() == leaves[0].0);
        assert(with_files(layout, files.drop_last(), name, parent, roots) == layout);
        assert(after == laid_out(filled, rest, parent, roots));
        assert(heads(rest) =~= hs.drop_first());
        assert(heads(rest).no_duplicates()) by {
            assert forall|i: int, j: int| 0 <= i < j < rest.len() implies heads(rest)[i] != heads(
                rest,
            )[j] by {
                assert(hs[i + 1] != hs[j + 1]);
            }
        }
        assert forall|i: int| 0 <= i < rest.len() implies (#[trigger] rest[i]).1.len() == 1 by {
            assert(rest[i] == leaves[i + 1]);
        }
        lemma_laid_out_flat(filled, rest, parent, roots);
        let more = names_for(heads(rest), filled.seen);
        assert(names == seq![unique(layout.seen, name)] + more);
        let new2 = Seq::new(rest.len(), |i: int| (more[i], roots[rest[i].0 as int]));
        lemma_names_len(heads(rest), filled.seen);
        assert(layout.children + new =~= filled.children + new2);
    }
}

/// A mount of files that have one name each, all different, lists them in their order: each is called
/// by the slug of its name, or, where a file before it is called that, by the slug, `-` and the smallest
/// number from 2 on that makes a name that none before it has.
pub proof fn law_mounted_files_are_listed_in_order(
    sources: Seq<SourceView>,
    readonly: bool,
    allow_other: bool,
    uid: u32,
    gid: u32,
    i: int,
)
    requires
        sources.len() < usize::MAX,
        forall|k: int| 0 <= k < sources.len() ==> (#[trigger] sources[k]).mount_path.len() == 1,
        forall|k: int, l: int|
            0 <= k < l < sources.len() ==> (#[trigger] sources[k]).mount_path[0]
                != (#[trigger] sources[l]).mount_path[0],
        0 <= i < sources.len(),
    ensures
        ({
            let fs = mount_of(sources, readonly, allow_other, uid, gid);
            let children = fs.dirs[ROOT_INO].children;
            let base = slug(sources[i].mount_path[0]);
            let before = child_names(children.take(i));
            &&& fs.dirs.contains_key(ROOT_INO)
            &&& children.len() == sources.len()
            &&& children[i].1 == fs.files[i].inodes.shadow.dir
            &&& !before.contains(children[i].0)
            &&& !before.contains(base) ==> children[i].0 == base
            &&& before.contains(base) ==> exists|n: nat|
                {
                    &&& n >= 2
                    &&& children[i].0 == base + seq!['-'] + #[trigger] decimal(n)
                    &&& forall|m: nat|
                        2 <= m < n ==> before.contains(base + seq!['-'] + #[trigger] decimal(m))
                }
        }),
{
    let hidden = exists|i: int| 0 <= i < sources.len() && (#[trigger] sources[i]).shown is Some;
    let bare = bare_mount(readonly || hidden, allow_other, uid, gid);
    let all = with_all_unplaced(bare, sources);
    let fs = mount_of(sources, readonly, allow_other, uid, gid);
    let roots = roots_of(all.files);
    let leaves = leaves_of(sources);
    let none = Set::<Seq<char>>::empty();
    let start = Layout {
        children: Seq::empty(),
        seen: none,
        dirs: Map::empty(),
        file_parents: Map::empty(),
        next: all.next,
    };
    law_what_a_mount_is_made_of(sources, readonly, allow_other, uid, gid);
    assert forall|k: int| 0 <= k < leaves.len() implies (#[trigger] leaves[k]).1.len() == 1 by {
        assert(sources[k].mount_path.len() == 1);
    }
    assert(heads(leaves).no_duplicates()) by {
        assert forall|k: int, l: int| 0 <= k < l < leaves.len() implies heads(leaves)[k] != heads(
            leaves,
        )[l] by {
            assert(sources[k].mount_path[0] != sources[l].mount_path[0]);
        }
    }
    lemma_laid_out_flat(start, leaves, ROOT_INO, roots);
    let hs = heads(leaves);
    let names = names_for(hs, none);
    lemma_names_one_by_one(hs, none, i);
    let children = fs.dirs[ROOT_INO].children;
    let before = child_names(children.take(i));
    assert(before =~= names.take(i));
    let seen = none.union(names.take(i).to_set());
    assert(seen =~= before.to_set());
    vstd::seq_lib::seq_to_set_is_finite(before);
    let title = sources[i].mount_path[0];
    assert(hs[i] == title);
    assert(children[i].0 == unique(seen, title));
    law_a_name_is_not_given_out_twice(seen, title);
    law_what_a_directory_is_called(seen, title);
    if before.contains(slug(title)) {
        let n = choose|n: nat|
            {
                &&& n >= 2
                &&& unique(seen, title) == slug(title) + seq!['-'] + #[trigger] decimal(n)
                &&& !seen.contains(unique(seen, title))
                &&& forall|m: nat|
                    2 <= m < n ==> seen.contains(slug(title) + seq!['-'] + #[trigger] decimal(m))
            };
        assert(children[i].0 == slug(title) + seq!['-'] + decimal(n));
        assert forall|m: nat| 2 <= m < n implies before.contains(
            slug(title) + seq!['-'] + #[trigger] decimal(m),
        ) by {
            assert(seen.contains(slug(title) + seq!['-'] + decimal(m)));
        }
    }
}

/// The name of the `k`-th of those that all ask for `base`, counted from 0: `base` itself, then `base-2`,
/// `base-3` and so on.
pub open spec fn numbered(base: Seq<char>, k: nat) -> Seq<char> {
    if k == 0 {
        base
    } else {
        base + seq!['-'] + decimal(k + 1)
    }
}

/// Whether just the first `k` of those that ask for `base` have their names.
spec fn are_numbered(seen: Set<Seq<char>>, base: Seq<char>, k: nat) -> bool {
    forall|x: Seq<char>| #[trigger]
        seen.contains(x) <==> exists|j: nat| j < k && x == #[trigger] numbered(base, j)
}

proof fn lemma_numbered_differ(base: Seq<char>, j: nat, k: nat)
    requires
        numbered(base, j) == numbered(base, k),
    ensures
        j == k,
{
    law_decimal_is_read_back(j + 1);
    law_decimal_is_read_back(k + 1);
    assert(base + seq!['-'] =~= base.push('-'));
    if j > 0 && k > 0 {
        lemma_suffix_parts(base, j + 1, base, k + 1);
    } else if j > 0 {
        assert(numbered(base, j).len() > base.len());
    } else if k > 0 {
        assert(numbered(base, k).len() > base.len());
    }
}

proof fn lemma_next_number(seen: Set<Seq<char>>, title: Seq<char>, k: nat)
    requires
        are_numbered(seen, slug(title), k),
    ensures
        unique(seen, title) == numbered(slug(title), k),
        are_numbered(seen_after(seen, title), slug(title), k + 1),
{
    let base = slug(title);
    assert(base + seq!['-'] =~= base.push('-'));
    if k == 0 {
        assert(!seen.contains(base));
    } else {
        assert(numbered(base, 0) == base);
        assert(seen.contains(base));
        let n = k + 1;
        assert(is_first_free(seen, base, n)) by {
            assert(suffixed(base, n) == numbered(base, k));
            if seen.contains(numbered(base, k)) {
                let j = choose|j: nat| j < k && numbered(base, k) == #[trigger] numbered(base, j);
                lemma_numbered_differ(base, j, k);
            }
            assert forall|m: nat| 2 <= m < n implies seen.contains(#[trigger] suffixed(base, m)) by {
                assert(suffixed(base, m) == numbered(base, (m - 1) as nat));
            }
        }
        let chosen = choose|c: nat| is_first_free(seen, base, c);
        lemma_only_first_free(seen, base, chosen, n);
    }
    let after = seen_after(seen, title);
    assert forall|x: Seq<char>| #[trigger] after.contains(x) <==> exists|j: nat|
        j < k + 1 && x == #[trigger] numbered(base, j) by {
        if after.contains(x) {
            if x == numbered(base, k) {
                assert(k < k + 1);
            } else {
                assert(seen.contains(x));
                let j = choose|j: nat| j < k && x == #[trigger] numbered(base, j);
                assert(j < k + 1);
            }
        }
        if exists|j: nat| j < k + 1 && x == #[trigger] numbered(base, j) {
            let j = choose|j: nat| j < k + 1 && x == #[trigger] numbered(base, j);
            if j < k {
                assert(seen.contains(x));
            }
        }
    }
}

/// Subdirectories whose headings all have one title are numbered: the first has the slug for its name,
/// and those behind it have `-2`, `-3` and so on behind it.
pub proof fn law_same_titles_are_numbered(
    bs: Seq<BlockView>,
    s: SectionView,
    title: Seq<char>,
    k: int,
)
    requires
        occurs(tree_of(bs).root, s),
        forall|i: int|
            0 <= i < s.children.len() ==> bs[(#[trigger] s.children[i]).heading->0].title()
                == title,
        0 <= k < s.children.len(),
    ensures
        k == 0 ==> s.children[k].name == slug(title),
        k > 0 ==> s.children[k].name == slug(title) + seq!['-'] + decimal((k + 1) as nat),
{
    let to = lemma_children_range(bs, s);
    let none = Set::<Seq<char>>::empty();
    lemma_section_names(bs, s.start, to, none);
    let titles = titles_of(bs, s.children);
    assert forall|i: int| 0 <= i < titles.len() implies titles[i] == title by {
        assert(bs[s.children[i].heading->0].title() == title);
    }
    assert(are_numbered(none, slug(title), 0));
    lemma_numbered_names(titles, none, title, 0, k);
    assert(section_names(s.children)[k] == s.children[k].name);
}

proof fn lemma_numbered_names(
    titles: Seq<Seq<char>>,
    seen: Set<Seq<char>>,
    title: Seq<char>,
    from: nat,
    k: int,
)
    requires
        forall|i: int| 0 <= i < titles.len() ==> #[trigger] titles[i] == title,
        are_numbered(seen, slug(title), from),
        0 <= k < titles.len(),
    ensures
        names_for(titles, seen)[k] == numbered(slug(title), (from + k) as nat),
    decreases titles.len(),
{
    assert(titles[0] == title);
    lemma_next_number(seen, title, from);
    let rest = titles.drop_first();
    let seen2 = seen_after(seen, title);
    lemma_names_len(rest, seen2);
    if k > 0 {
        assert forall|i: int| 0 <= i < rest.len() implies #[trigger] rest[i] == title by {
            assert(rest[i] == titles[i + 1]);
        }
        lemma_numbered_names(rest, seen2, title, from + 1, k - 1);
        assert(names_for(titles, seen)[k] == names_for(rest, seen2)[k - 1]);
    }
}

proof fn lemma_files_numbered(
    layout: Layout,
    files: Seq<usize>,
    name: Seq<char>,
    parent: Ino,
    roots: Seq<Ino>,
    from: nat,
)
    requires
        are_numbered(layout.seen, slug(name), from),
    ensures
        ({
            let after = with_files(layout, files, name, parent, roots);
            &&& are_numbered(after.seen, slug(name), from + files.len())
            &&& after.children == layout.children + Seq::new(
                files.len(),
                |i: int| (numbered(slug(name), (from + i) as nat), roots[files[i] as int]),
            )
        }),
    decreases files.len(),
{
    let after = with_files(layout, files, name, parent, roots);
    let new = Seq::new(
        files.len(),
        |i: int| (numbered(slug(name), (from + i) as nat), roots[files[i] as int]),
    );
    if files.len() == 0 {
        assert(layout.children + new =~= layout.children);
    } else {
        let less = files.drop_last();
        let before = with_files(layout, less, name, parent, roots);
        lemma_files_numbered(layout, less, name, parent, roots, from);
        lemma_next_number(before.seen, name, from + less.len());
        assert(after.children =~= layout.children + new);
    }
}

proof fn lemma_all_of_one_name(leaves: Seq<(usize, Seq<Seq<char>>)>, name: Seq<char>)
    requires
        forall|i: int|
            0 <= i < leaves.len() ==> (#[trigger] leaves[i]).1.len() == 1 && leaves[i].1[0] == name,
    ensures
        files_named(leaves, name) == Seq::new(leaves.len(), |i: int| leaves[i].0),
        deeper_leaves(leaves, name).len() == 0,
        other_leaves(leaves, name).len() == 0,
    decreases leaves.len(),
{
    if leaves.len() > 0 {
        let less = leaves.drop_last();
        assert forall|i: int| 0 <= i < less.len() implies (#[trigger] less[i]).1.len() == 1
            && less[i].1[0] == name by {
            assert(less[i] == leaves[i]);
        }
        lemma_all_of_one_name(less, name);
        let n = leaves.len() - 1;
        assert(leaves[n].1.len() == 1 && leaves[n].1[0] == name);
    }
    assert(files_named(leaves, name) =~= Seq::new(leaves.len(), |i: int| leaves[i].0));
}

/// Mounted files of one name are numbered in their order: the first has the slug for its name, and those
/// behind it have `-2`, `-3` and so on behind it.
pub proof fn law_files_of_one_name_are_numbered(
    sources: Seq<SourceView>,
    readonly: bool,
    allow_other: bool,
    uid: u32,
    gid: u32,
    name: Seq<char>,
    i: int,
)
    requires
        sources.len() < usize::MAX,
        forall|k: int|
            0 <= k < sources.len() ==> (#[trigger] sources[k]).mount_path == seq![name],
        0 <= i < sources.len(),
    ensures
        ({
            let fs = mount_of(sources, readonly, allow_other, uid, gid);
            let children = fs.dirs[ROOT_INO].children;
            &&& children.len() == sources.len()
            &&& children[i].1 == fs.files[i].inodes.shadow.dir
            &&& i == 0 ==> children[i].0 == slug(name)
            &&& i > 0 ==> children[i].0 == slug(name) + seq!['-'] + decimal((i + 1) as nat)
        }),
{
    let hidden = exists|i: int| 0 <= i < sources.len() && (#[trigger] sources[i]).shown is Some;
    let bare = bare_mount(readonly || hidden, allow_other, uid, gid);
    let all = with_all_unplaced(bare, sources);
    let fs = mount_of(sources, readonly, allow_other, uid, gid);
    let roots = roots_of(all.files);
    let leaves = leaves_of(sources);
    let start = Layout {
        children: Seq::empty(),
        seen: Set::empty(),
        dirs: Map::empty(),
        file_parents: Map::empty(),
        next: all.next,
    };
    law_what_a_mount_is_made_of(sources, readonly, allow_other, uid, gid);
    assert forall|k: int| 0 <= k < leaves.len() implies (#[trigger] leaves[k]).1.len() == 1
        && leaves[k].1[0] == name by {
        assert(sources[k].mount_path == seq![name]);
    }
    lemma_all_of_one_name(leaves, name);
    assert(leaves[0].1[0] == name);
    let files = files_named(leaves, name);
    let filled = with_files(start, files, name, ROOT_INO, roots);
    assert(are_numbered(start.seen, slug(name), 0));
    lemma_files_numbered(start, files, name, ROOT_INO, roots, 0);
    let none = other_leaves(leaves, name);
    assert(laid_out(start, leaves, ROOT_INO, roots) == laid_out(filled, none, ROOT_INO, roots));
    assert(laid_out(filled, none, ROOT_INO, roots) == filled);
    assert(fs.dirs[ROOT_INO].children == filled.children);
    assert(files[i] == i as usize);
}

proof fn lemma_one_file_among_deeper(leaves: Seq<(usize, Seq<Seq<char>>)>, name: Seq<char>)
    requires
        leaves.len() > 0,
        leaves[0].1.len() == 1,
        leaves[0].1[0] == name,
        forall|i: int|
            0 < i < leaves.len() ==> (#[trigger] leaves[i]).1.len() > 1 && leaves[i].1[0] == name,
    ensures
        files_named(leaves, name) == seq![leaves[0].0],
        deeper_leaves(leaves, name).len() == leaves.len() - 1,
        other_leaves(leaves, name).len() == 0,
    decreases leaves.len(),
{
    let less = leaves.drop_last();
    let n = leaves.len() - 1;
    if n > 0 {
        assert forall|i: int| 0 < i < less.len() implies (#[trigger] less[i]).1.len() > 1
            && less[i].1[0] == name by {
            assert(less[i] == leaves[i]);
        }
        assert(less[0] == leaves[0]);
        lemma_one_file_among_deeper(less, name);
        assert(leaves[n].1.len() > 1 && leaves[n].1[0] == name);
    } else {
        assert(less =~= Seq::empty());
        assert(files_named(less, name) =~= Seq::empty());
        assert(deeper_leaves(less, name) =~= Seq::empty());
        assert(other_leaves(less, name) =~= Seq::empty());
        assert(files_named(leaves, name) =~= seq![leaves[0].0]);
    }
}

/// A file whose name is also that of a directory on the way to other files stands behind the directory,
/// which keeps the name; the file has `-2` behind it.
pub proof fn law_a_directory_keeps_the_name(
    sources: Seq<SourceView>,
    readonly: bool,
    allow_other: bool,
    uid: u32,
    gid: u32,
    name: Seq<char>,
)
    requires
        1 < sources.len() < usize::MAX,
        sources[0].mount_path == seq![name],
        forall|k: int|
            0 < k < sources.len() ==> (#[trigger] sources[k]).mount_path.len() > 1
                && sources[k].mount_path[0] == name,
    ensures
        ({
            let fs = mount_of(sources, readonly, allow_other, uid, gid);
            let children = fs.dirs[ROOT_INO].children;
            &&& children.len() == 2
            &&& children[0].0 == slug(name)
            &&& fs.dirs.contains_key(children[0].1)
            &&& children[1].0 == slug(name) + seq!['-', '2']
            &&& children[1].1 == fs.files[0].inodes.shadow.dir
        }),
{
    let hidden = exists|i: int| 0 <= i < sources.len() && (#[trigger] sources[i]).shown is Some;
    let bare = bare_mount(readonly || hidden, allow_other, uid, gid);
    let all = with_all_unplaced(bare, sources);
    let fs = mount_of(sources, readonly, allow_other, uid, gid);
    let roots = roots_of(all.files);
    let leaves = leaves_of(sources);
    let start = Layout {
        children: Seq::empty(),
        seen: Set::empty(),
        dirs: Map::empty(),
        file_parents: Map::empty(),
        next: all.next,
    };
    law_what_a_mount_is_made_of(sources, readonly, allow_other, uid, gid);
    assert(sources[1].mount_path.len() > 1);
    assert forall|k: int| 0 < k < leaves.len() implies (#[trigger] leaves[k]).1.len() > 1
        && leaves[k].1[0] == name by {
        assert(sources[k].mount_path.len() > 1);
    }
    assert(leaves[0].1[0] == name);
    lemma_one_file_among_deeper(leaves, name);
    let deeper = deeper_leaves(leaves, name);
    let files = files_named(leaves, name);
    let none = other_leaves(leaves, name);
    let ino = start.next;
    let inner = Layout {
        children: Seq::empty(),
        seen: Set::empty(),
        next: next_ino_after(ino),
        ..start
    };
    let below = laid_out(inner, deeper, ino, roots);
    let dir = SuperView { parent: ROOT_INO, children: below.children, seen: below.seen };
    let with_dir = Layout {
        children: start.children.push((unique(start.seen, name), ino)),
        seen: seen_after(start.seen, name),
        dirs: below.dirs.insert(ino, dir),
        ..below
    };
    let filled = with_files(with_dir, files, name, ROOT_INO, roots);
    assert(are_numbered(start.seen, slug(name), 0));
    lemma_next_number(start.seen, name, 0);
    lemma_files_numbered(with_dir, files, name, ROOT_INO, roots, 1);
    lemma_with_files_dirs(with_dir, files, name, ROOT_INO, roots);
    assert(laid_out(start, leaves, ROOT_INO, roots) == laid_out(filled, none, ROOT_INO, roots));
    assert(laid_out(filled, none, ROOT_INO, roots) == filled);
    assert(fs.dirs[ROOT_INO].children == filled.children);
    assert(files[0] == 0usize);
    assert(decimal(2) =~= seq!['2']);
    assert(slug(name) + seq!['-'] + decimal(2) =~= slug(name) + seq!['-', '2']);
    assert(numbered(slug(name), 1) == slug(name) + seq!['-'] + decimal(2));
    assert(filled.dirs.contains_key(ino));
}

} // verus!
