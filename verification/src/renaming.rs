//! A directory that is renamed keeps its numbers, and so do those beside it.
use vstd::prelude::*;

use crate::block::BlockView;
use crate::document::{renamed, retitled, CONTENT_FILE};
use crate::editing::lemma_children_range;
use crate::fs::lemma_found_child;
use crate::grafting::{lemma_sections_without, lemma_unique_without};
use crate::inode::{
    by_name, continued, only_new, only_old, renumbered, section_names, shadow_names, PathView,
    ShadowView,
};
use crate::making::law_changes_behind_a_heading_keep_its_path;
use crate::mount::{lemma_child_index, lemma_found_occurs};
use crate::names::{
    is_first_free, law_a_name_is_not_given_out_twice, lemma_first_free, lemma_only_first_free,
    seen_after, slug, suffixed, unique,
};
use crate::naming::{
    law_all_sibling_names_differ, law_shown_sibling_names_differ, lemma_suffix_parts,
};
use crate::numbering::{
    distinct_names, in_step, law_renamed_section_keeps_its_numbers, law_synced_table_is_in_step,
    lemma_last_named, lemma_last_named_is, lemma_renumbered_at, named_like, proper_table, table_uses,
};
use crate::outline::{lemma_closed_parts, lemma_sections_placed, occurs};
use crate::reading::{
    law_found_section_keeps_its_numbers, law_numbers_stand_for_their_section, numbers_at, numbers_of,
};
use crate::section::{
    body_start, child_index, closing_heading, find_below, heading_section, lemma_closing_heading,
    next_heading, sections, tree_of, SectionView,
};
use crate::state::{canonical_child, FsView, NextView, Reply, StepView};
use crate::uniqueness::{
    in_files, law_entries_are_the_numbers_in_use, law_requests_keep_numbers_apart, numbers_apart,
};
use crate::vfs::{Ino, Timestamp, VfsError};
use crate::visibility::law_paths_lead_back;

verus! {

/// Whether a section with the name `name` keeps it when one before it gives up the name `given_up`: it
/// has the name that its title asks for, or neither asks for `given_up` nor passed it over for a larger
/// number.
pub open spec fn keeps_name(given_up: Seq<char>, title: Seq<char>, name: Seq<char>) -> bool {
    ||| name == slug(title)
    ||| {
        &&& slug(title) != given_up
        &&& forall|m: nat, n: nat|
            2 <= m < n && name == #[trigger] suffixed(slug(title), n) ==> #[trigger] suffixed(
                slug(title),
                m,
            ) != given_up
    }
}

/// Whether the sections behind the `k`-th of `f` keep their names when it gives up its own.
pub open spec fn others_keep_names(bs: Seq<BlockView>, f: Seq<SectionView>, k: int) -> bool {
    forall|j: int|
        k < j < f.len() ==> keeps_name(
            f[k].name,
            bs[(#[trigger] f[j]).heading->0].title(),
            f[j].name,
        )
}

/// Whether `bs2` is `bs` with another title for the heading at `h`.
spec fn respelled(bs: Seq<BlockView>, bs2: Seq<BlockView>, h: int) -> bool {
    &&& 0 <= h < bs.len()
    &&& bs2.len() == bs.len()
    &&& bs[h].is_heading() && bs2[h].is_heading() && bs2[h].depth() == bs[h].depth()
    &&& forall|j: int| 0 <= j < bs.len() && j != h ==> #[trigger] bs2[j] == bs[j]
}

proof fn lemma_respelled_closing(
    bs: Seq<BlockView>,
    bs2: Seq<BlockView>,
    h: int,
    x: int,
    to: int,
    depth: u8,
)
    requires
        respelled(bs, bs2, h),
        0 <= x <= to <= bs.len(),
    ensures
        closing_heading(bs2, x, to, depth) == closing_heading(bs, x, to, depth),
    decreases to - x,
{
    if x < to {
        assert(x != h ==> bs2[x] == bs[x]);
        lemma_respelled_closing(bs, bs2, h, x + 1, to, depth);
    }
}

proof fn lemma_respelled_next(bs: Seq<BlockView>, bs2: Seq<BlockView>, h: int, x: int)
    requires
        respelled(bs, bs2, h),
        0 <= x <= bs.len(),
    ensures
        next_heading(bs2, x) == next_heading(bs, x),
    decreases bs.len() - x,
{
    if x < bs.len() {
        assert(x != h ==> bs2[x] == bs[x]);
        lemma_respelled_next(bs, bs2, h, x + 1);
    }
}

/// The directories for a range without the heading stay.
proof fn lemma_respelled_elsewhere(
    bs: Seq<BlockView>,
    bs2: Seq<BlockView>,
    h: int,
    x: int,
    to: int,
    seen: Set<Seq<char>>,
)
    requires
        respelled(bs, bs2, h),
        0 <= x <= to <= bs.len(),
        !(x <= h < to),
    ensures
        sections(bs2, x, to, seen) == sections(bs, x, to, seen),
    decreases to - x,
{
    if x < to {
        assert(bs2[x] == bs[x]);
        if !bs[x].is_heading() {
            lemma_respelled_elsewhere(bs, bs2, h, x + 1, to, seen);
        } else {
            let end = closing_heading(bs, x + 1, to, bs[x].depth());
            lemma_closing_heading(bs, x + 1, to, bs[x].depth());
            lemma_respelled_closing(bs, bs2, h, x + 1, to, bs[x].depth());
            lemma_respelled_next(bs, bs2, h, x + 1);
            lemma_respelled_elsewhere(bs, bs2, h, x + 1, end, Set::empty());
            lemma_respelled_elsewhere(bs, bs2, h, end, to, seen_after(seen, bs[x].title()));
        }
    }
}

/// A section that keeps its name has it whether or not the other name was given out.
proof fn lemma_kept_name(seen: Set<Seq<char>>, given_up: Seq<char>, title: Seq<char>)
    requires
        seen.finite(),
        keeps_name(given_up, title, unique(seen.insert(given_up), title)),
    ensures
        unique(seen.insert(given_up), title) == unique(seen, title),
{
    let base = slug(title);
    let more = seen.insert(given_up);
    if more.contains(base) {
        lemma_first_free(more, base, 2);
        let n = choose|n: nat| is_first_free(more, base, n);
        assert(suffixed(base, n).len() > base.len());
        assert(is_first_free(seen, base, n)) by {
            assert forall|m: nat| 2 <= m < n implies seen.contains(#[trigger] suffixed(base, m)) by {
                assert(more.contains(suffixed(base, m)));
            }
        }
        let k = choose|k: nat| is_first_free(seen, base, k);
        lemma_only_first_free(seen, base, k, n);
    }
}

/// Sections that keep their names have them whether or not the other name was given out.
pub(crate) proof fn lemma_kept_sections(
    bs: Seq<BlockView>,
    x: int,
    to: int,
    seen: Set<Seq<char>>,
    given_up: Seq<char>,
)
    requires
        0 <= x <= to <= bs.len(),
        seen.finite(),
        ({
            let f = sections(bs, x, to, seen.insert(given_up));
            forall|j: int|
                0 <= j < f.len() ==> keeps_name(
                    given_up,
                    bs[(#[trigger] f[j]).heading->0].title(),
                    f[j].name,
                )
        }),
    ensures
        sections(bs, x, to, seen.insert(given_up)) == sections(bs, x, to, seen),
    decreases to - x,
{
    if x < to {
        if !bs[x].is_heading() {
            assert(sections(bs, x, to, seen.insert(given_up)) == sections(
                bs,
                x + 1,
                to,
                seen.insert(given_up),
            ));
            lemma_kept_sections(bs, x + 1, to, seen, given_up);
        } else {
            let title = bs[x].title();
            let end = closing_heading(bs, x + 1, to, bs[x].depth());
            lemma_closing_heading(bs, x + 1, to, bs[x].depth());
            let f = sections(bs, x, to, seen.insert(given_up));
            let rest = sections(bs, end, to, seen_after(seen.insert(given_up), title));
            assert(f[0].heading == Some(x));
            assert(f[0].name == unique(seen.insert(given_up), title));
            lemma_kept_name(seen, given_up, title);
            assert(seen_after(seen.insert(given_up), title) =~= seen_after(seen, title).insert(
                given_up,
            ));
            assert forall|j: int| 0 <= j < rest.len() implies keeps_name(
                given_up,
                bs[(#[trigger] rest[j]).heading->0].title(),
                rest[j].name,
            ) by {
                assert(f[j + 1] == rest[j]);
            }
            lemma_kept_sections(bs, end, to, seen_after(seen, title), given_up);
        }
    }
}

/// One heading with another title changes one name, where those behind it keep theirs and none has the
/// new one.
proof fn lemma_one_name_changes(
    bs: Seq<BlockView>,
    bs2: Seq<BlockView>,
    h: int,
    x: int,
    to: int,
    seen: Set<Seq<char>>,
    k: int,
)
    requires
        respelled(bs, bs2, h),
        crate::outline::closed_range(bs, x, to),
        seen.finite(),
        0 <= k < sections(bs, x, to, seen).len(),
        sections(bs, x, to, seen)[k].heading == Some(h),
        others_keep_names(bs, sections(bs, x, to, seen), k),
        slug(bs2[h].title()) == bs2[h].title(),
        !seen.contains(bs2[h].title()),
        !section_names(sections(bs, x, to, seen)).contains(bs2[h].title()),
    ensures
        section_names(sections(bs2, x, to, seen)) == section_names(
            sections(bs, x, to, seen),
        ).update(k, bs2[h].title()),
    decreases to - x,
{
    let b = bs2[h].title();
    let f = sections(bs, x, to, seen);
    let names = section_names(f);
    if !bs[x].is_heading() {
        assert(bs2[x] == bs[x]);
        lemma_one_name_changes(bs, bs2, h, x + 1, to, seen, k);
    } else {
        let title = bs[x].title();
        let depth = bs[x].depth();
        let end = closing_heading(bs, x + 1, to, depth);
        lemma_closed_parts(bs, x, to);
        lemma_respelled_closing(bs, bs2, h, x + 1, to, depth);
        let seen2 = seen_after(seen, title);
        let rest = sections(bs, end, to, seen2);
        let top = heading_section(
            bs,
            x,
            unique(seen, title),
            sections(bs, x + 1, end, Set::empty()),
        );
        assert(f == seq![top] + rest);
        let f2 = sections(bs2, x, to, seen);
        assert(!section_names(rest).contains(b)) by {
            if section_names(rest).contains(b) {
                let i = choose|i: int|
                    0 <= i < section_names(rest).len() && section_names(rest)[i] == b;
                assert(f[i + 1] == rest[i]);
                assert(names[i + 1] == b);
            }
        }
        assert(names[0] == unique(seen, title));
        assert(names =~= seq![unique(seen, title)] + section_names(rest)) by {
            assert forall|i: int| 0 < i < f.len() implies names[i] == section_names(rest)[i
                - 1] by {
                assert(f[i] == rest[i - 1]);
            }
        }
        if k > 0 {
            assert(f[k] == rest[k - 1]);
            assert(occurs(rest[k - 1], rest[k - 1]));
            lemma_sections_placed(bs, end, to, seen2, k - 1, rest[k - 1]);
            assert(x != h);
            assert(bs2[x] == bs[x]);
            assert(others_keep_names(bs, rest, k - 1)) by {
                assert forall|j: int| k - 1 < j < rest.len() implies keeps_name(
                    rest[k - 1].name,
                    bs[(#[trigger] rest[j]).heading->0].title(),
                    rest[j].name,
                ) by {
                    assert(f[j + 1] == rest[j]);
                }
            }
            lemma_one_name_changes(bs, bs2, h, end, to, seen2, k - 1);
            let rest2 = sections(bs2, end, to, seen2);
            assert(f2.drop_first() =~= rest2);
            assert(section_names(f2) =~= seq![unique(seen, title)] + section_names(rest2)) by {
                assert(section_names(rest2).len() == rest2.len());
                assert forall|i: int| 0 < i < f2.len() implies section_names(f2)[i]
                    == section_names(rest2)[i - 1] by {
                    assert(f2[i] == rest2[i - 1]);
                }
            }
            assert(section_names(f2) =~= names.update(k, b));
        } else {
            assert(x == h);
            let a = unique(seen, title);
            assert(f[0].name == a);
            assert forall|j: int| 0 <= j < rest.len() implies keeps_name(
                a,
                bs[(#[trigger] rest[j]).heading->0].title(),
                rest[j].name,
            ) by {
                assert(f[j + 1] == rest[j]);
            }
            lemma_kept_sections(bs, end, to, seen, a);
            lemma_sections_without(bs, end, to, seen, b);
            lemma_respelled_elsewhere(bs, bs2, h, end, to, seen.insert(b));
            assert(unique(seen, b) == b);
            let rest2 = sections(bs2, end, to, seen.insert(b));
            assert(rest2 == rest);
            assert(f2.drop_first() =~= rest2);
            assert(section_names(f2) =~= names.update(k, b)) by {
                assert(f2.len() == f.len());
                assert forall|i: int| 0 < i < f2.len() implies section_names(f2)[i] == names[i] by {
                    assert(f2[i] == rest2[i - 1]);
                    assert(f[i] == rest[i - 1]);
                }
            }
        }
    }
}

/// Where one name changes, one section is left over on either side.
proof fn lemma_one_left_over(names: Seq<Seq<char>>, k: int, b: Seq<char>)
    requires
        names.no_duplicates(),
        0 <= k < names.len(),
        !names.contains(b),
    ensures
        only_new(names, names.update(k, b), k),
        only_old(names, names.update(k, b), k),
{
    let news = names.update(k, b);
    assert forall|j: int| 0 <= j < news.len() implies #[trigger] by_name(names, news, j) == (if j
        == k {
        None::<int>
    } else {
        Some(j)
    }) by {
        lemma_last_named(names, news[j]);
        assert forall|i: int| 0 <= i < j implies #[trigger] news[i] != news[j] by {
            if j == k {
                assert(news[i] == names[i]);
                assert(names.contains(names[i]));
            } else if i == k {
                assert(names.contains(names[j]));
            }
        }
        if j != k {
            lemma_last_named_is(names, names[j], j);
        }
    }
    assert forall|j: int| 0 <= j < names.len() implies (j != k <==> #[trigger] continued(
        names,
        news,
        j,
    )) by {
        if j != k {
            assert(by_name(names, news, j) == Some(j));
        }
    }
}

/// A section that got another name keeps its numbers, wherever it is in the tree.
proof fn lemma_renamed_keeps_numbers(
    olds: Seq<ShadowView>,
    old_section: SectionView,
    section: SectionView,
    next: u64,
    path: Seq<Seq<char>>,
    k: int,
    b: Seq<char>,
)
    requires
        named_like(olds, old_section),
        distinct_names(old_section),
        find_below(old_section, path) is Some,
        find_below(section, path) is Some,
        ({
            let names = section_names((find_below(old_section, path)->0).children);
            &&& 0 <= k < names.len()
            &&& !names.contains(b)
            &&& section_names((find_below(section, path)->0).children) == names.update(k, b)
        }),
    ensures
        ({
            let a = (find_below(old_section, path)->0).children[k].name;
            let nodes = renumbered(olds, section, section.children.len(), next).0;
            let new = numbers_at(nodes, section, path.push(b));
            let before = numbers_at(olds, old_section, path.push(a));
            new.dir == before.dir && new.content == before.content
        }),
    decreases path.len(),
{
    let all = section_names(old_section.children);
    let names = shadow_names(olds);
    assert(names =~= all) by {
        assert forall|j: int| 0 <= j < names.len() implies names[j] == all[j] by {
            assert(olds[j].name == old_section.children[j].name);
        }
    }
    if path.len() == 0 {
        let a = old_section.children[k].name;
        let news = section_names(section.children);
        lemma_one_left_over(names, k, b);
        law_renamed_section_keeps_its_numbers(olds, section, next, k, k);
        lemma_child_index(old_section.children, a);
        lemma_child_index(section.children, b);
        let i = child_index(old_section.children, a)->0;
        let l = child_index(section.children, b)->0;
        assert(all[k] == a && all[i] == a);
        assert(news[k] == b);
        assert(section.children[k].name == b);
        assert(news[l] == b);
        assert(l == k) by {
            if l != k {
                assert(all[l] == b);
            }
        }
        assert(path.push(a)[0] == a && path.push(b)[0] == b);
    } else {
        let a = (find_below(old_section, path)->0).children[k].name;
        let name = path[0];
        lemma_child_index(old_section.children, name);
        lemma_child_index(section.children, name);
        let i = child_index(old_section.children, name)->0;
        let l = child_index(section.children, name)->0;
        assert(names[i] == name);
        assert forall|j: int| i < j < names.len() implies #[trigger] names[j] != name by {
            assert(all[i] == name);
        }
        lemma_last_named_is(names, name, i);
        let news = section_names(section.children);
        assert forall|j: int| 0 <= j < l implies #[trigger] news[j] != news[l] by {
            assert(section.children[j].name != name);
        }
        assert(by_name(names, news, l) == Some(i));
        lemma_renumbered_at(olds, section, section.children.len(), next, l);
        let nodes = renumbered(olds, section, section.children.len(), next).0;
        let child = section.children[l];
        let free = choose|free: u64|
            nodes[l].children == (#[trigger] renumbered(
                olds[i].children,
                child,
                child.children.len(),
                free,
            )).0;
        assert(named_like(olds[i].children, old_section.children[i]));
        assert(distinct_names(old_section.children[i]));
        let rest = path.drop_first();
        lemma_renamed_keeps_numbers(
            olds[i].children,
            old_section.children[i],
            child,
            free,
            rest,
            k,
            b,
        );
        assert(path.push(a).drop_first() =~= rest.push(a));
        assert(path.push(b).drop_first() =~= rest.push(b));
        assert(path.push(a)[0] == name && path.push(b)[0] == name);
    }
}

/// The entries of a section are recorded under its numbers.
pub(crate) proof fn lemma_recorded_under_numbers(fs: FsView, file: usize, path: Seq<Seq<char>>)
    requires
        fs.wf(),
        numbers_apart(fs),
        file < fs.files.len(),
        fs.files[file as int].section(path) is Some,
    ensures
        ({
            let f = fs.files[file as int];
            let x = numbers_of(f.inodes, f.tree, path);
            &&& f.inodes.index.inos.get(PathView::Dir(path)) == Some(x.dir)
            &&& f.inodes.index.inos.get(PathView::Content(path)) == Some(x.content)
            &&& fs.path_for_ino(x.dir) == Some((file, PathView::Dir(path)))
            &&& !fs.dirs.contains_key(x.dir)
        }),
{
    let f = fs.files[file as int];
    let x = numbers_of(f.inodes, f.tree, path);
    assert(in_step(f.inodes, f.tree));
    assert(proper_table(f.inodes));
    law_shown_sibling_names_differ(f.document, f.shown);
    law_numbers_stand_for_their_section(f.inodes, f.tree, path);
    law_paths_lead_back(f.inodes, f.tree);
    assert(f.inodes.index.paths.contains_key(x.dir));
    assert(f.inodes.index.paths.contains_key(x.content));
    law_entries_are_the_numbers_in_use(f.inodes, x.dir);
    assert(table_uses(fs.files[file as int].inodes, x.dir));
    assert(in_files(fs.files, x.dir));
    assert(fs.owner.contains_key(x.dir));
    assert(table_uses(fs.files[fs.owner[x.dir] as int].inodes, x.dir));
    assert(fs.owner[x.dir] == file);
}

/// The document after one of its sections was renamed: the section above it is found where it was, and
/// has its subdirectories from the same blocks.
proof fn lemma_renamed_place(
    bs: Seq<BlockView>,
    path: Seq<Seq<char>>,
    a: Seq<char>,
    b: Seq<char>,
) -> (r: (int, int))
    requires
        find_below(tree_of(bs).root, path) is Some,
        child_index((find_below(tree_of(bs).root, path)->0).children, a) is Some,
        child_index((find_below(tree_of(bs).root, path)->0).children, b) is None,
    ensures
        ({
            let (k, to) = r;
            let p = find_below(tree_of(bs).root, path)->0;
            let h = p.children[k].heading->0;
            let bs2 = renamed(bs, p.children[k], b)->Ok_0;
            &&& child_index(p.children, a) == Some(k)
            &&& 0 <= k < p.children.len()
            &&& p.children[k].name == a
            &&& p.children[k].heading == Some(h)
            &&& !section_names(p.children).contains(b)
            &&& renamed(bs, p.children[k], b) is Ok
            &&& respelled(bs, bs2, h)
            &&& bs2[h].title() == b
            &&& crate::outline::closed_range(bs, p.start, to)
            &&& p.children == sections(bs, p.start, to, Set::empty())
            &&& find_below(tree_of(bs2).root, path) is Some
            &&& (find_below(tree_of(bs2).root, path)->0).children == sections(
                bs2,
                p.start,
                to,
                Set::empty(),
            )
        }),
{
    let root = tree_of(bs).root;
    let p = find_below(root, path)->0;
    lemma_found_occurs(root, path);
    lemma_child_index(p.children, a);
    lemma_child_index(p.children, b);
    let k = child_index(p.children, a)->0;
    let names = section_names(p.children);
    assert(!names.contains(b)) by {
        if names.contains(b) {
            let i = choose|i: int| 0 <= i < names.len() && names[i] == b;
            assert(p.children[i].name == b);
        }
    }
    let to = lemma_children_range(bs, p);
    assert(crate::outline::closed_range(bs, p.start, to));
    assert(occurs(p.children[k], p.children[k]));
    lemma_sections_placed(bs, p.start, to, Set::empty(), k, p.children[k]);
    let h = p.children[k].heading->0;
    let bs2 = bs.update(h, retitled(bs[h], b));
    let root2 = tree_of(bs2).root;
    assert(respelled(bs, bs2, h));
    assert(body_start(bs2) == body_start(bs));
    match p.heading {
        None => {
            if path.len() > 0 {
                lemma_child_index(root.children, path[0]);
                let i = child_index(root.children, path[0])->0;
                lemma_found_occurs(root.children[i], path.drop_first());
                lemma_sections_placed(
                    bs,
                    body_start(bs),
                    bs.len() as int,
                    Set::empty(),
                    i,
                    p,
                );
            }
            assert(find_below(root2, path) == Some(root2));
        },
        Some(g) => {
            assert forall|j: int| 0 <= j <= g implies crate::shifting::alike(
                #[trigger] bs[j],
                bs2[j],
            ) by {}
            law_changes_behind_a_heading_keep_its_path(bs, bs2, g, path);
            lemma_found_occurs(root2, path);
            let p2 = find_below(root2, path)->0;
            let to2 = lemma_children_range(bs2, p2);
            assert(to2 == to) by {
                if to2 < to {
                    assert(bs2[to2].depth() == bs[to2].depth());
                    assert(bs2[to2].is_heading() == bs[to2].is_heading());
                } else if to < to2 {
                    assert(bs2[to].depth() == bs[to].depth());
                    assert(bs2[to].is_heading() == bs[to].is_heading());
                }
            }
        },
    }
    (k, to)
}

/// The document after one of its sections was renamed: the section above it has the same
/// subdirectories, but for one name.
proof fn lemma_renamed_below(
    bs: Seq<BlockView>,
    path: Seq<Seq<char>>,
    a: Seq<char>,
    b: Seq<char>,
) -> (k: int)
    requires
        find_below(tree_of(bs).root, path) is Some,
        ({
            let p = find_below(tree_of(bs).root, path)->0;
            let k = child_index(p.children, a);
            &&& k is Some
            &&& child_index(p.children, b) is None
            &&& others_keep_names(bs, p.children, k->0)
        }),
        slug(b) == b,
    ensures
        ({
            let p = find_below(tree_of(bs).root, path)->0;
            let bs2 = renamed(bs, p.children[k], b)->Ok_0;
            let names = section_names(p.children);
            &&& child_index(p.children, a) == Some(k)
            &&& 0 <= k < p.children.len()
            &&& p.children[k].name == a
            &&& !names.contains(b)
            &&& renamed(bs, p.children[k], b) is Ok
            &&& find_below(tree_of(bs2).root, path) is Some
            &&& section_names((find_below(tree_of(bs2).root, path)->0).children) == names.update(
                k,
                b,
            )
        }),
{
    let p = find_below(tree_of(bs).root, path)->0;
    let (k, to) = lemma_renamed_place(bs, path, a, b);
    let bs2 = renamed(bs, p.children[k], b)->Ok_0;
    let h = p.children[k].heading->0;
    lemma_one_name_changes(bs, bs2, h, p.start, to, Set::empty(), k);
    k
}

/// A title that does not keep its name gets the one that is given up.
proof fn lemma_passed_over_name(
    seen: Set<Seq<char>>,
    given_up: Seq<char>,
    new: Seq<char>,
    title: Seq<char>,
)
    requires
        seen.finite(),
        !seen.contains(given_up),
        given_up != new,
        !keeps_name(given_up, title, unique(seen.insert(given_up), title)),
    ensures
        unique(seen.insert(new), title) == given_up,
{
    let base = slug(title);
    let more = seen.insert(given_up);
    let name = unique(more, title);
    if base != given_up {
        lemma_first_free(more, base, 2);
        let first = choose|n: nat| is_first_free(more, base, n);
        let (m, n) = choose|m: nat, n: nat|
            2 <= m < n && name == #[trigger] suffixed(base, n) && #[trigger] suffixed(base, m)
                == given_up;
        lemma_suffix_parts(base, first, base, n);
        assert(is_first_free(seen.insert(new), base, m)) by {
            assert forall|i: nat| 2 <= i < m implies seen.insert(new).contains(
                #[trigger] suffixed(base, i),
            ) by {
                assert(more.contains(suffixed(base, i)));
                if suffixed(base, i) == suffixed(base, m) {
                    lemma_suffix_parts(base, i, base, m);
                }
            }
        }
        let k = choose|k: nat| is_first_free(seen.insert(new), base, k);
        lemma_only_first_free(seen.insert(new), base, k, m);
    }
}

/// Where a section does not keep its name, some section gets the one that is given up.
proof fn lemma_passed_over(
    bs: Seq<BlockView>,
    x: int,
    to: int,
    seen: Set<Seq<char>>,
    given_up: Seq<char>,
    new: Seq<char>,
)
    requires
        0 <= x <= to <= bs.len(),
        seen.finite(),
        !seen.contains(given_up),
        given_up != new,
        !section_names(sections(bs, x, to, seen.insert(given_up))).contains(new),
        ({
            let f = sections(bs, x, to, seen.insert(given_up));
            exists|j: int|
                0 <= j < f.len() && !keeps_name(
                    given_up,
                    bs[(#[trigger] f[j]).heading->0].title(),
                    f[j].name,
                )
        }),
    ensures
        section_names(sections(bs, x, to, seen.insert(new))).contains(given_up),
    decreases to - x,
{
    let f = sections(bs, x, to, seen.insert(given_up));
    let j = choose|j: int|
        0 <= j < f.len() && !keeps_name(
            given_up,
            bs[(#[trigger] f[j]).heading->0].title(),
            f[j].name,
        );
    if x < to {
        if !bs[x].is_heading() {
            assert(f == sections(bs, x + 1, to, seen.insert(given_up)));
            lemma_passed_over(bs, x + 1, to, seen, given_up, new);
        } else {
            let title = bs[x].title();
            let end = closing_heading(bs, x + 1, to, bs[x].depth());
            lemma_closing_heading(bs, x + 1, to, bs[x].depth());
            let rest = sections(bs, end, to, seen_after(seen.insert(given_up), title));
            let f2 = sections(bs, x, to, seen.insert(new));
            let rest2 = sections(bs, end, to, seen_after(seen.insert(new), title));
            let name = unique(seen.insert(given_up), title);
            assert(f[0].heading == Some(x));
            assert(f[0].name == name);
            assert(f2[0].name == unique(seen.insert(new), title));
            if keeps_name(given_up, title, name) {
                assert(j > 0);
                assert(f[j] == rest[j - 1]);
                assert(section_names(f)[0] == name);
                lemma_kept_name(seen, given_up, title);
                lemma_unique_without(seen, new, title);
                law_a_name_is_not_given_out_twice(seen.insert(given_up), title);
                let after = seen_after(seen, title);
                assert(seen_after(seen.insert(given_up), title) =~= after.insert(given_up));
                assert(seen_after(seen.insert(new), title) =~= after.insert(new));
                assert(!section_names(rest).contains(new)) by {
                    if section_names(rest).contains(new) {
                        let i = choose|i: int|
                            0 <= i < section_names(rest).len() && section_names(rest)[i] == new;
                        assert(f[i + 1] == rest[i]);
                        assert(section_names(f)[i + 1] == new);
                    }
                }
                lemma_passed_over(bs, end, to, after, given_up, new);
                let i = choose|i: int|
                    0 <= i < section_names(rest2).len() && section_names(rest2)[i] == given_up;
                assert(f2[i + 1] == rest2[i]);
                assert(section_names(f2)[i + 1] == given_up);
            } else {
                lemma_passed_over_name(seen, given_up, new, title);
                assert(section_names(f2)[0] == given_up);
            }
        }
    }
}

proof fn lemma_old_name_is_taken_over(
    bs: Seq<BlockView>,
    bs2: Seq<BlockView>,
    h: int,
    x: int,
    to: int,
    seen: Set<Seq<char>>,
    k: int,
)
    requires
        respelled(bs, bs2, h),
        crate::outline::closed_range(bs, x, to),
        seen.finite(),
        0 <= k < sections(bs, x, to, seen).len(),
        sections(bs, x, to, seen)[k].heading == Some(h),
        !others_keep_names(bs, sections(bs, x, to, seen), k),
        slug(bs2[h].title()) == bs2[h].title(),
        !seen.contains(bs2[h].title()),
        !section_names(sections(bs, x, to, seen)).contains(bs2[h].title()),
    ensures
        section_names(sections(bs2, x, to, seen)).contains(sections(bs, x, to, seen)[k].name),
    decreases to - x,
{
    let b = bs2[h].title();
    let f = sections(bs, x, to, seen);
    if !bs[x].is_heading() {
        assert(bs2[x] == bs[x]);
        lemma_old_name_is_taken_over(bs, bs2, h, x + 1, to, seen, k);
    } else {
        let title = bs[x].title();
        let depth = bs[x].depth();
        let end = closing_heading(bs, x + 1, to, depth);
        lemma_closed_parts(bs, x, to);
        lemma_respelled_closing(bs, bs2, h, x + 1, to, depth);
        let seen2 = seen_after(seen, title);
        let rest = sections(bs, end, to, seen2);
        let f2 = sections(bs2, x, to, seen);
        let a = f[k].name;
        let j = choose|j: int|
            k < j < f.len() && !keeps_name(
                f[k].name,
                bs[(#[trigger] f[j]).heading->0].title(),
                f[j].name,
            );
        assert(f[j] == rest[j - 1]);
        assert(section_names(f)[0] == unique(seen, title));
        assert(!section_names(rest).contains(b)) by {
            if section_names(rest).contains(b) {
                let i = choose|i: int|
                    0 <= i < section_names(rest).len() && section_names(rest)[i] == b;
                assert(f[i + 1] == rest[i]);
                assert(section_names(f)[i + 1] == b);
            }
        }
        let rest2 = if k > 0 {
            sections(bs2, end, to, seen2)
        } else {
            sections(bs2, end, to, seen.insert(b))
        };
        if k > 0 {
            assert(f[k] == rest[k - 1]);
            assert(occurs(rest[k - 1], rest[k - 1]));
            lemma_sections_placed(bs, end, to, seen2, k - 1, rest[k - 1]);
            assert(x != h);
            assert(bs2[x] == bs[x]);
            assert(!others_keep_names(bs, rest, k - 1));
            lemma_old_name_is_taken_over(bs, bs2, h, end, to, seen2, k - 1);
        } else {
            assert(x == h);
            law_a_name_is_not_given_out_twice(seen, title);
            assert(a == unique(seen, title));
            assert(section_names(f)[0] == a);
            lemma_passed_over(bs, end, to, seen, a, b);
            lemma_respelled_elsewhere(bs, bs2, h, end, to, seen.insert(b));
            assert(unique(seen, b) == b);
        }
        assert(f2.drop_first() =~= rest2);
        let i = choose|i: int|
            0 <= i < section_names(rest2).len() && section_names(rest2)[i] == a;
        assert(f2[i + 1] == rest2[i]);
        assert(section_names(f2)[i + 1] == a);
    }
}

/// Where a directory behind a renamed one does not keep its name, the old name is taken over: there is
/// a directory of that name again.
pub proof fn law_old_name_is_taken_over(
    bs: Seq<BlockView>,
    path: Seq<Seq<char>>,
    a: Seq<char>,
    b: Seq<char>,
)
    requires
        find_below(tree_of(bs).root, path) is Some,
        ({
            let p = find_below(tree_of(bs).root, path)->0;
            let k = child_index(p.children, a);
            &&& k is Some
            &&& child_index(p.children, b) is None
            &&& !others_keep_names(bs, p.children, k->0)
        }),
        slug(b) == b,
    ensures
        ({
            let p = find_below(tree_of(bs).root, path)->0;
            let done = renamed(bs, p.children[child_index(p.children, a)->0], b);
            let p2 = find_below(tree_of(done->Ok_0).root, path);
            &&& done is Ok
            &&& p2 is Some
            &&& child_index((p2->0).children, a) is Some
        }),
{
    let p = find_below(tree_of(bs).root, path)->0;
    let (k, to) = lemma_renamed_place(bs, path, a, b);
    let bs2 = renamed(bs, p.children[k], b)->Ok_0;
    let h = p.children[k].heading->0;
    lemma_old_name_is_taken_over(bs, bs2, h, p.start, to, Set::empty(), k);
    let f2 = sections(bs2, p.start, to, Set::empty());
    let i = choose|i: int| 0 <= i < section_names(f2).len() && section_names(f2)[i] == a;
    assert(f2[i].name == a);
    lemma_child_index(f2, a);
}

/// A directory that is renamed where it is keeps its numbers and those of its `content.md`, and so do
/// the directories beside it: each is still found under its name, and the renamed one under the new
/// name only. This is so as long as the numbers do not run out, where the new name is that of a
/// directory and not yet taken, and where no directory behind it gets the old name in turn.
pub proof fn law_renamed_directory_keeps_its_numbers(
    fs: FsView,
    parent: Ino,
    file: usize,
    path: Seq<Seq<char>>,
    a: Seq<char>,
    b: Seq<char>,
    now: Timestamp,
)
    requires
        fs.wf(),
        numbers_apart(fs),
        !fs.readonly,
        !fs.dirs.contains_key(parent),
        fs.dir_path(parent) == Some((file, path)),
        !fs.names.contains_key((parent, a)),
        fs.files[file as int].section(path) is Some,
        fs.files[file as int].child_section(path, a) is Some,
        fs.files[file as int].child_section(path, b) is None,
        canonical_child(path, a) is None,
        canonical_child(path, b) is None,
        slug(b) == b,
        ({
            let f = fs.files[file as int];
            let p = f.section(path)->0;
            others_keep_names(f.document, p.children, child_index(p.children, a)->0)
        }),
        fs.rename(parent, a, parent, b, now).0.next < u64::MAX,
    ensures
        ({
            let (after, step) = fs.rename(parent, a, parent, b, now);
            let i = fs.lookup(parent, a)->Ok_0;
            &&& step == (StepView::Save { file, next: NextView::Finish })
            &&& after.resumed(file, NextView::Finish, now) == (
                after,
                StepView::Finished(Ok(Reply::Done)),
            )
            &&& fs.lookup(parent, a) is Ok
            &&& after.lookup(parent, b) == Ok::<Ino, VfsError>(i)
            &&& after.lookup(parent, a) == Err::<Ino, VfsError>(VfsError::NotFound)
            &&& fs.lookup(i, CONTENT_FILE@) is Ok
            &&& after.lookup(i, CONTENT_FILE@) == fs.lookup(i, CONTENT_FILE@)
            &&& after.lookup(parent, CONTENT_FILE@) == fs.lookup(parent, CONTENT_FILE@)
            &&& forall|n: Seq<char>|
                n != a && fs.files[file as int].child_section(path, n) is Some && canonical_child(
                    path,
                    n,
                ) is None ==> #[trigger] after.lookup(parent, n) == fs.lookup(parent, n)
        }),
{
    let f = fs.files[file as int];
    assert(fs.owner[parent] < fs.files.len());
    assert(f.shown is None);
    assert(in_step(f.inodes, f.tree));
    let bs = f.document;
    let root = tree_of(bs).root;
    assert(occurs(root, root));
    law_all_sibling_names_differ(bs, root);
    let p = f.section(path)->0;
    let k = lemma_renamed_below(bs, path, a, b);
    let bs2 = renamed(bs, p.children[k], b)->Ok_0;
    let tree2 = tree_of(bs2);
    let p2 = find_below(tree2.root, path)->0;
    let names = section_names(p.children);
    let names2 = section_names(p2.children);
    let (after, step) = fs.rename(parent, a, parent, b, now);
    assert(after == fs.rebuilt(file, bs2));
    let g = after.files[file as int];
    law_synced_table_is_in_step(f.inodes, fs.next, tree2);
    assert(after.wf());
    law_requests_keep_numbers_apart(fs, parent, a, parent, b, 0, Seq::empty(), now);
    let seen_a = path.push(a);
    let seen_b = path.push(b);
    lemma_found_child(root, path, a);
    lemma_found_child(tree2.root, path, b);
    lemma_child_index(p2.children, b);
    assert(names2.len() == names.len());
    assert(p2.children.len() == names2.len() && p.children.len() == names.len());
    assert(names2[k] == b);
    assert(p2.children[k].name == b);
    lemma_recorded_under_numbers(fs, file, path);
    lemma_recorded_under_numbers(fs, file, seen_a);
    lemma_recorded_under_numbers(after, file, path);
    lemma_recorded_under_numbers(after, file, seen_b);
    law_found_section_keeps_its_numbers(f.inodes, f.tree, fs.next, tree2, path);
    let free = choose|free: u64|
        g.inodes.shadow.children == (#[trigger] renumbered(
            f.inodes.shadow.children,
            tree2.root,
            tree2.root.children.len(),
            free,
        )).0;
    lemma_renamed_keeps_numbers(
        f.inodes.shadow.children,
        root,
        tree2.root,
        free,
        path,
        k,
        b,
    );
    law_paths_lead_back(f.inodes, f.tree);
    assert(f.inodes.index.paths.contains_key(parent));
    assert(numbers_of(f.inodes, f.tree, path).dir == parent);
    assert(g.child_section(path, a) is None) by {
        lemma_child_index(p2.children, a);
        if let Some(i) = child_index(p2.children, a) {
            assert(names2[i] == a);
            assert(names[k] == a);
            if i != k {
                assert(names[i] == a);
                assert(names[i] != names[k]) by {
                    assert(distinct_names(root));
                    lemma_found_occurs(root, path);
                    law_all_sibling_names_differ(bs, p);
                }
            } else {
                assert(names.contains(a));
            }
        }
    }
    assert forall|n: Seq<char>|
        n != a && f.child_section(path, n) is Some && canonical_child(path, n) is None implies
        #[trigger] after.lookup(parent, n) == fs.lookup(parent, n) by {
        lemma_child_index(p.children, n);
        let i = child_index(p.children, n)->0;
        assert(names[i] == n);
        assert(names2[i] == n);
        assert(p2.children[i].name == n);
        lemma_child_index(p2.children, n);
        lemma_found_child(root, path, n);
        lemma_found_child(tree2.root, path, n);
        law_found_section_keeps_its_numbers(f.inodes, f.tree, fs.next, tree2, path.push(n));
        lemma_recorded_under_numbers(fs, file, path.push(n));
        lemma_recorded_under_numbers(after, file, path.push(n));
    }
}

} // verus!
