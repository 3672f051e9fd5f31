//! What holds of inode numbers, however often a tree is built anew.
use vstd::prelude::*;

use crate::inode::{
    by_name, continued, empty_table, index_of, last_named, matched, next_ino_after, only_new,
    only_old, renumbered, section_names, shadow_names, synced, ShadowView, TableView,
};
use crate::section::{FrontMatterKind, SectionView, TreeView};

verus! {

/// Whether `nodes` are the numbers of the subsections of `parent`, name by name.
pub open spec fn named_like(nodes: Seq<ShadowView>, parent: SectionView) -> bool
    decreases parent,
{
    &&& nodes.len() == parent.children.len()
    &&& forall|k: int|
        0 <= k < parent.children.len() ==> {
            &&& (#[trigger] nodes[k]).name == parent.children[k].name
            &&& named_like(nodes[k].children, parent.children[k])
        }
}

/// Whether a table holds the numbers of `tree`.
pub open spec fn in_step(table: TableView, tree: TreeView) -> bool {
    &&& named_like(table.shadow.children, tree.root)
    &&& table.shadow.name == Seq::<char>::empty()
    &&& table.shadow.dir > 0
    &&& table.shadow.content > 0
    &&& match tree.front_matter {
        Some((kind, _)) => table.front_matter is Some && (table.front_matter->0).0 == kind,
        None => table.front_matter is None,
    }
    &&& table.index == index_of(table.shadow, table.front_matter)
}

/// Numbers are handed out upwards, and the new ones are named like the sections.
pub proof fn lemma_renumbered(olds: Seq<ShadowView>, parent: SectionView, n: nat, next: u64)
    requires
        n <= parent.children.len(),
    ensures
        next <= renumbered(olds, parent, n, next).1,
        renumbered(olds, parent, n, next).0.len() == n,
        forall|k: int|
            0 <= k < n ==> {
                &&& (#[trigger] renumbered(olds, parent, n, next).0[k]).name
                    == parent.children[k].name
                &&& named_like(
                    renumbered(olds, parent, n, next).0[k].children,
                    parent.children[k],
                )
            },
    decreases parent, n,
{
    if n > 0 {
        lemma_renumbered(olds, parent, (n - 1) as nat, next);
        let (before, free) = renumbered(olds, parent, (n - 1) as nat, next);
        let section = parent.children[n - 1];
        match matched(shadow_names(olds), section_names(parent.children), n - 1) {
            Some(i) => {
                lemma_renumbered(olds[i].children, section, section.children.len(), free);
            },
            None => {
                lemma_renumbered(
                    Seq::empty(),
                    section,
                    section.children.len(),
                    next_ino_after(next_ino_after(free)),
                );
            },
        }
    }
}

/// A table that was brought up to date holds the numbers of the tree.
pub proof fn law_synced_table_is_in_step(table: TableView, next: u64, tree: TreeView)
    requires
        next > 0,
    ensures
        in_step(synced(table, next, tree).0, tree),
        next <= synced(table, next, tree).1,
{
    let old = table.shadow;
    let next1 = if old.content == 0 {
        next_ino_after(next)
    } else {
        next
    };
    let next2 = if old.dir == 0 {
        next_ino_after(next1)
    } else {
        next1
    };
    lemma_renumbered(old.children, tree.root, tree.root.children.len(), next2);
}

/// Whether no two subsections of one section have the same name.
pub open spec fn distinct_names(s: SectionView) -> bool
    decreases s,
{
    &&& section_names(s.children).no_duplicates()
    &&& forall|k: int| 0 <= k < s.children.len() ==> distinct_names(#[trigger] s.children[k])
}

/// What [`last_named`] finds, if anything.
pub proof fn lemma_last_named(names: Seq<Seq<char>>, name: Seq<char>)
    ensures
        match last_named(names, name) {
            Some(i) => 0 <= i < names.len() && names[i] == name,
            None => !names.contains(name),
        },
    decreases names.len(),
{
    if names.len() > 0 && names.last() != name {
        lemma_last_named(names.drop_last(), name);
        if names.contains(name) {
            let i = choose|i: int| 0 <= i < names.len() && names[i] == name;
            assert(names.drop_last()[i] == name);
        }
    }
}

/// Of distinct names, each goes on as itself.
proof fn lemma_same_names_match(names: Seq<Seq<char>>, k: int)
    requires
        names.no_duplicates(),
        0 <= k < names.len(),
    ensures
        matched(names, names, k) == Some(k),
{
    lemma_last_named(names, names[k]);
    assert(names.contains(names[k]));
}

proof fn lemma_renumbered_same(olds: Seq<ShadowView>, parent: SectionView, n: nat, next: u64)
    requires
        n <= parent.children.len(),
        named_like(olds, parent),
        distinct_names(parent),
    ensures
        renumbered(olds, parent, n, next) == (olds.take(n as int), next),
    decreases parent, n,
{
    if n > 0 {
        lemma_renumbered_same(olds, parent, (n - 1) as nat, next);
        let names = section_names(parent.children);
        assert(shadow_names(olds) =~= names);
        lemma_same_names_match(names, n - 1);
        let section = parent.children[n - 1];
        assert(named_like(olds[n - 1].children, section));
        lemma_renumbered_same(olds[n - 1].children, section, section.children.len(), next);
        assert(olds[n - 1].children.take(section.children.len() as int)
            =~= olds[n - 1].children);
        assert(olds.take(n as int) =~= olds.take(n - 1).push(olds[n - 1]));
    } else {
        assert(olds.take(0) =~= Seq::empty());
    }
}

/// An edit that changes no name and no nesting changes no number, as long as sibling names differ.
pub proof fn law_unchanged_names_keep_their_numbers(table: TableView, next: u64, tree: TreeView)
    requires
        in_step(table, tree),
        distinct_names(tree.root),
    ensures
        synced(table, next, tree) == (table, next),
{
    let n = tree.root.children.len();
    lemma_renumbered_same(table.shadow.children, tree.root, n, next);
    assert(table.shadow.children.take(n as int) =~= table.shadow.children);
    assert(table.shadow.name =~= Seq::<char>::empty());
}

/// The root of a mounted file keeps its numbers forever.
pub proof fn law_root_keeps_its_numbers(table: TableView, next: u64, tree: TreeView)
    requires
        table.shadow.dir > 0,
        table.shadow.content > 0,
    ensures
        synced(table, next, tree).0.shadow.dir == table.shadow.dir,
        synced(table, next, tree).0.shadow.content == table.shadow.content,
{
}

/// Front matter keeps its number as long as it is there and of the same kind.
pub proof fn law_front_matter_keeps_its_number(
    table: TableView,
    next: u64,
    tree: TreeView,
    kind: FrontMatterKind,
)
    requires
        table.front_matter is Some,
        (table.front_matter->0).0 == kind,
        tree.front_matter is Some,
        (tree.front_matter->0).0 == kind,
    ensures
        synced(table, next, tree).0.front_matter == table.front_matter,
{
}

/// A section whose name is not that of an earlier sibling keeps its numbers if there was a sibling
/// of that name before: the last such one.
pub proof fn law_same_name_keeps_its_numbers(
    olds: Seq<ShadowView>,
    parent: SectionView,
    next: u64,
    k: int,
    i: int,
)
    requires
        0 <= k < parent.children.len(),
        0 <= i < olds.len(),
        olds[i].name == parent.children[k].name,
        forall|j: int|
            0 <= j < k ==> (#[trigger] parent.children[j]).name != parent.children[k].name,
        forall|j: int| i < j < olds.len() ==> (#[trigger] olds[j]).name != parent.children[k].name,
    ensures
        ({
            let nodes = renumbered(olds, parent, parent.children.len(), next).0;
            nodes[k].dir == olds[i].dir && nodes[k].content == olds[i].content
        }),
{
    let names = shadow_names(olds);
    let name = parent.children[k].name;
    lemma_last_named_is(names, name, i);
    assert(by_name(names, section_names(parent.children), k) == Some(i));
    lemma_renumbered_at(olds, parent, parent.children.len(), next, k);
}

/// What [`last_named`] finds.
pub proof fn lemma_last_named_is(names: Seq<Seq<char>>, name: Seq<char>, i: int)
    requires
        0 <= i < names.len(),
        names[i] == name,
        forall|j: int| i < j < names.len() ==> #[trigger] names[j] != name,
    ensures
        last_named(names, name) == Some(i),
    decreases names.len(),
{
    if names.last() != name {
        lemma_last_named_is(names.drop_last(), name, i);
    } else {
        assert(i == names.len() - 1) by {
            if i < names.len() - 1 {
                assert(names[names.len() - 1] == name);
            }
        }
    }
}

/// A section that goes on has the numbers of the old one, and so do those below it that go on.
pub proof fn lemma_renumbered_at(
    olds: Seq<ShadowView>,
    parent: SectionView,
    n: nat,
    next: u64,
    k: int,
)
    requires
        n <= parent.children.len(),
        0 <= k < n,
    ensures
        match matched(shadow_names(olds), section_names(parent.children), k) {
            Some(i) => {
                let node = renumbered(olds, parent, n, next).0[k];
                &&& node.dir == olds[i].dir
                &&& node.content == olds[i].content
                &&& exists|free: u64|
                    node.children == (#[trigger] renumbered(
                        olds[i].children,
                        parent.children[k],
                        parent.children[k].children.len(),
                        free,
                    )).0
            },
            None => true,
        },
    decreases n,
{
    lemma_renumbered(olds, parent, (n - 1) as nat, next);
    let (before, free) = renumbered(olds, parent, (n - 1) as nat, next);
    let node = renumbered(olds, parent, n, next).0[k];
    if k < n - 1 {
        lemma_renumbered_at(olds, parent, (n - 1) as nat, next, k);
        assert(node == before[k]);
    } else if let Some(i) = matched(shadow_names(olds), section_names(parent.children), k) {
        let section = parent.children[k];
        assert(node.children == renumbered(
            olds[i].children,
            section,
            section.children.len(),
            free,
        ).0);
    }
}

/// A single section that is left over on either side has been renamed, and keeps its numbers.
pub proof fn law_renamed_section_keeps_its_numbers(
    olds: Seq<ShadowView>,
    parent: SectionView,
    next: u64,
    k: int,
    i: int,
)
    requires
        only_new(shadow_names(olds), section_names(parent.children), k),
        only_old(shadow_names(olds), section_names(parent.children), i),
    ensures
        ({
            let nodes = renumbered(olds, parent, parent.children.len(), next).0;
            nodes[k].dir == olds[i].dir && nodes[k].content == olds[i].content
        }),
{
    let names = shadow_names(olds);
    let news = section_names(parent.children);
    let c = choose|c: int| only_old(names, news, c);
    assert(only_old(names, news, c));
    assert(c == i) by {
        if c != i {
            assert(continued(names, news, c));
        }
    }
    assert(by_name(names, news, k) is None);
    assert(matched(names, news, k) == Some(i));
    lemma_renumbered_at(olds, parent, parent.children.len(), next, k);
}

/// Whether the number `x` is in use in a section or below it.
pub open spec fn uses(node: ShadowView, x: u64) -> bool
    decreases node,
{
    node.dir == x || node.content == x || exists|k: int|
        0 <= k < node.children.len() && uses(#[trigger] node.children[k], x)
}

/// Whether the number `x` is in use in one of `nodes`.
pub open spec fn any_uses(nodes: Seq<ShadowView>, x: u64) -> bool {
    exists|k: int| 0 <= k < nodes.len() && uses(#[trigger] nodes[k], x)
}

/// Whether no number is in use twice in a section and below it.
pub open spec fn proper(node: ShadowView) -> bool
    decreases node, 0int,
{
    &&& node.dir != node.content
    &&& !any_uses(node.children, node.dir)
    &&& !any_uses(node.children, node.content)
    &&& all_proper(node.children)
}

/// Whether no number is in use twice in `nodes`.
pub open spec fn all_proper(nodes: Seq<ShadowView>) -> bool
    decreases nodes, 1int,
{
    &&& forall|k: int| 0 <= k < nodes.len() ==> proper(#[trigger] nodes[k])
    &&& forall|k: int, l: int, x: u64|
        0 <= k < l < nodes.len() ==> !(#[trigger] uses(nodes[k], x) && #[trigger] uses(nodes[l], x))
}

/// No old section goes on as two new ones.
proof fn lemma_matched_injective(olds: Seq<Seq<char>>, news: Seq<Seq<char>>, k: int, l: int)
    requires
        0 <= k < news.len(),
        0 <= l < news.len(),
        matched(olds, news, k) is Some,
        matched(olds, news, k) == matched(olds, news, l),
    ensures
        k == l,
{
    lemma_last_named(olds, news[k]);
    lemma_last_named(olds, news[l]);
    let i = matched(olds, news, k)->0;
    if by_name(olds, news, k) is Some && by_name(olds, news, l) is Some {
        assert(news[k] == news[l]);
    } else if by_name(olds, news, k) is Some {
        assert(by_name(olds, news, k) == Some(i));
        assert(continued(olds, news, i));
        assert(only_old(olds, news, i));
    } else if by_name(olds, news, l) is Some {
        assert(by_name(olds, news, l) == Some(i));
        assert(continued(olds, news, i));
        assert(only_old(olds, news, i));
    } else {
        assert(only_new(olds, news, k));
        assert(only_new(olds, news, l));
        if k != l {
            assert(by_name(olds, news, l) is Some);
        }
    }
}

/// An old section that goes on is one of the old sections.
proof fn lemma_matched_in_bounds(olds: Seq<Seq<char>>, news: Seq<Seq<char>>, k: int)
    requires
        0 <= k < news.len(),
        matched(olds, news, k) is Some,
    ensures
        0 <= matched(olds, news, k)->0 < olds.len(),
{
    lemma_last_named(olds, news[k]);
    if by_name(olds, news, k) is None {
        let i = choose|i: int| only_old(olds, news, i);
        assert(only_old(olds, news, i));
    }
}

/// The numbers of sections after a change: those of the `k`-th section are old ones, of the section
/// that it continues, or new ones.
pub open spec fn inherited(
    olds: Seq<ShadowView>,
    parent: SectionView,
    nodes: Seq<ShadowView>,
    next: u64,
    free: u64,
    k: int,
    x: u64,
) -> bool {
    uses(nodes[k], x) ==> x < free && (x >= next || {
        let m = matched(shadow_names(olds), section_names(parent.children), k);
        m is Some && uses(olds[m->0], x)
    })
}

proof fn lemma_renumbered_proper(
    olds: Seq<ShadowView>,
    parent: SectionView,
    n: nat,
    next: u64,
)
    requires
        n <= parent.children.len(),
        all_proper(olds),
        forall|x: u64| any_uses(olds, x) ==> x < next,
        renumbered(olds, parent, n, next).1 < u64::MAX,
    ensures
        all_proper(renumbered(olds, parent, n, next).0),
        forall|k: int, x: u64|
            0 <= k < n ==> #[trigger] inherited(
                olds,
                parent,
                renumbered(olds, parent, n, next).0,
                next,
                renumbered(olds, parent, n, next).1,
                k,
                x,
            ),
    decreases parent, n,
{
    let (nodes, free_after) = renumbered(olds, parent, n, next);
    if n > 0 {
        let olds_names = shadow_names(olds);
        let news = section_names(parent.children);
        let (before, free) = renumbered(olds, parent, (n - 1) as nat, next);
        let section = parent.children[n - 1];
        let node = nodes[n - 1];
        let m = matched(olds_names, news, n - 1);
        lemma_renumbered(olds, parent, (n - 1) as nat, next);
        let (inner_olds, start) = match m {
            Some(i) => (olds[i].children, free),
            None => (Seq::empty(), next_ino_after(next_ino_after(free))),
        };
        lemma_renumbered(inner_olds, section, section.children.len(), start);
        lemma_renumbered_proper(olds, parent, (n - 1) as nat, next);
        if m is Some {
            lemma_matched_in_bounds(olds_names, news, n - 1);
            assert(proper(olds[m->0]));
        }
        assert forall|x: u64| any_uses(inner_olds, x) implies x < start by {
            let c = choose|c: int|
                0 <= c < inner_olds.len() && uses(#[trigger] inner_olds[c], x);
            assert(uses(olds[m->0], x));
            assert(any_uses(olds, x));
        }
        lemma_renumbered_proper(inner_olds, section, section.children.len(), start);
        assert(nodes =~= before.push(node));
        assert(node.children == renumbered(
            inner_olds,
            section,
            section.children.len(),
            start,
        ).0);
        // What the subsections use is new, or was used below the old section.
        assert forall|x: u64| any_uses(node.children, x) implies x < free_after && (x >= start || (
        m is Some && any_uses(olds[m->0].children, x))) by {
            let c = choose|c: int|
                0 <= c < node.children.len() && uses(#[trigger] node.children[c], x);
            assert(inherited(inner_olds, section, node.children, start, free_after, c, x));
            if x < start {
                let mm = matched(
                    shadow_names(inner_olds),
                    section_names(section.children),
                    c,
                );
                lemma_matched_in_bounds(
                    shadow_names(inner_olds),
                    section_names(section.children),
                    c,
                );
                assert(uses(inner_olds[mm->0], x));
            }
        }
        assert forall|x: u64| uses(node, x) implies x < free_after && (x >= free || (m is Some
            && uses(olds[m->0], x))) by {
            if x == node.dir || x == node.content {
                if m is Some {
                    assert(uses(olds[m->0], x));
                    assert(any_uses(olds, x));
                }
            } else {
                assert(any_uses(node.children, x));
                if x < start && m is Some {
                    assert(uses(olds[m->0], x)) by {
                        let c = choose|c: int|
                            0 <= c < olds[m->0].children.len() && uses(
                                #[trigger] olds[m->0].children[c],
                                x,
                            );
                    }
                }
            }
        }
        if m is Some {
            assert(uses(olds[m->0], node.dir));
            assert(uses(olds[m->0], node.content));
            assert(any_uses(olds, node.dir));
            assert(any_uses(olds, node.content));
        }
        assert(proper(node));
        assert forall|k: int, x: u64| 0 <= k < n implies #[trigger] inherited(
            olds,
            parent,
            nodes,
            next,
            free_after,
            k,
            x,
        ) by {
            if k < n - 1 {
                assert(nodes[k] == before[k]);
                assert(inherited(olds, parent, before, next, free, k, x));
            }
        }
        assert forall|k: int| 0 <= k < nodes.len() implies proper(#[trigger] nodes[k]) by {
            if k < n - 1 {
                assert(nodes[k] == before[k]);
            }
        }
        assert forall|k: int, l: int, x: u64| 0 <= k < l < nodes.len() implies !(
        #[trigger] uses(nodes[k], x) && #[trigger] uses(nodes[l], x)) by {
            assert(nodes[k] == before[k]);
            if l < n - 1 {
                assert(nodes[l] == before[l]);
            } else if uses(nodes[k], x) && uses(nodes[l], x) {
                assert(inherited(olds, parent, before, next, free, k, x));
                assert(m is Some && uses(olds[m->0], x));
                assert(any_uses(olds, x));
                let mk = matched(olds_names, news, k);
                assert(mk is Some && uses(olds[mk->0], x));
                lemma_matched_in_bounds(olds_names, news, k);
                if mk == m {
                    lemma_matched_injective(olds_names, news, k, n - 1);
                }
                if mk->0 < m->0 {
                    assert(!(uses(olds[mk->0], x) && uses(olds[m->0], x)));
                } else {
                    assert(!(uses(olds[m->0], x) && uses(olds[mk->0], x)));
                }
            }
        }
    }
}

/// Whether the number `x` is in use in a table.
pub open spec fn table_uses(table: TableView, x: u64) -> bool {
    uses(table.shadow, x) || (table.front_matter is Some && (table.front_matter->0).1 == x)
}

/// Whether no number is in use twice in a table.
pub open spec fn proper_table(table: TableView) -> bool {
    &&& proper(table.shadow)
    &&& table.front_matter is Some ==> !uses(table.shadow, (table.front_matter->0).1)
}

/// Bringing a table up to date never puts a number to two uses, and never puts one back to use: each
/// number in use was in use before, or is handed out for the first time. The numbers do not run out
/// as long as the next free one is below `u64::MAX`.
pub proof fn law_numbers_are_never_shared_or_reused(table: TableView, next: u64, tree: TreeView)
    requires
        proper_table(table),
        table.shadow.dir > 0,
        table.shadow.content > 0,
        forall|x: u64| #[trigger] table_uses(table, x) ==> x < next,
        synced(table, next, tree).1 < u64::MAX,
    ensures
        proper_table(synced(table, next, tree).0),
        forall|x: u64| #[trigger]
            table_uses(synced(table, next, tree).0, x) ==> x < synced(table, next, tree).1 && (
            table_uses(table, x) || x >= next),
{
    let old = table.shadow;
    let n = tree.root.children.len();
    let (children, next3) = renumbered(old.children, tree.root, n, next);
    let after = synced(table, next, tree).0;
    lemma_renumbered(old.children, tree.root, n, next);
    assert forall|x: u64| #[trigger] any_uses(old.children, x) implies x < next by {
        let c = choose|c: int| 0 <= c < old.children.len() && uses(#[trigger] old.children[c], x);
        assert(uses(old, x));
        assert(table_uses(table, x));
    }
    lemma_renumbered_proper(old.children, tree.root, n, next);
    assert forall|x: u64| #[trigger] any_uses(children, x) implies x < next3 && (x >= next || any_uses(
        old.children,
        x,
    )) by {
        let c = choose|c: int| 0 <= c < children.len() && uses(#[trigger] children[c], x);
        assert(inherited(old.children, tree.root, children, next, next3, c, x));
        if x < next {
            lemma_matched_in_bounds(
                shadow_names(old.children),
                section_names(tree.root.children),
                c,
            );
        }
    }
    assert(table_uses(table, old.dir));
    assert(table_uses(table, old.content));
    assert forall|x: u64| #[trigger] uses(after.shadow, x) implies x < next3 && (uses(old, x) || x
        >= next) by {
        if x != old.dir && x != old.content {
            assert(any_uses(children, x));
            if x < next {
                let c = choose|c: int|
                    0 <= c < old.children.len() && uses(#[trigger] old.children[c], x);
            }
        }
    }
    assert(!any_uses(children, old.dir));
    assert(!any_uses(children, old.content));
    assert(after.shadow.children == children);
    assert(all_proper(children));
    assert(proper(after.shadow));
    if table.front_matter is Some {
        assert(table_uses(table, (table.front_matter->0).1));
    }
    if after.front_matter is Some {
        let ino = (after.front_matter->0).1;
        assert(!uses(after.shadow, ino)) by {
            if uses(after.shadow, ino) {
                assert(ino < next3);
            }
        }
    }
    assert forall|x: u64| #[trigger] table_uses(after, x) implies x < synced(table, next, tree).1 && (
    table_uses(table, x) || x >= next) by {
        if uses(after.shadow, x) {
            assert(uses(old, x) ==> table_uses(table, x));
        }
    }
}

/// The numbers of a file that is mounted for the first time are all handed out for the first time,
/// each for one use.
pub proof fn law_first_numbers_are_new(next: u64, tree: TreeView)
    requires
        next > 0,
        synced(empty_table(), next, tree).1 < u64::MAX,
    ensures
        proper_table(synced(empty_table(), next, tree).0),
        forall|x: u64| #[trigger]
            table_uses(synced(empty_table(), next, tree).0, x) ==> next <= x < synced(
                empty_table(),
                next,
                tree,
            ).1,
{
    let n = tree.root.children.len();
    let next2 = next_ino_after(next_ino_after(next));
    let (children, next3) = renumbered(Seq::empty(), tree.root, n, next2);
    let after = synced(empty_table(), next, tree).0;
    lemma_renumbered(Seq::empty(), tree.root, n, next2);
    lemma_renumbered_proper(Seq::empty(), tree.root, n, next2);
    assert forall|x: u64| #[trigger] any_uses(children, x) implies next2 <= x < next3 by {
        let c = choose|c: int| 0 <= c < children.len() && uses(#[trigger] children[c], x);
        assert(inherited(Seq::empty(), tree.root, children, next2, next3, c, x));
        if x < next2 {
            lemma_matched_in_bounds(
                shadow_names(Seq::empty()),
                section_names(tree.root.children),
                c,
            );
        }
    }
    assert forall|x: u64| #[trigger] uses(after.shadow, x) implies next <= x < next3 by {
        if x != after.shadow.dir && x != after.shadow.content {
            assert(any_uses(children, x));
        }
    }
}

} // verus!
