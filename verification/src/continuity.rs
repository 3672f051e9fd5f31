//! Which sections keep their numbers when a document changes.
use vstd::prelude::*;

use crate::inode::{
    by_name, continued, last_named, matched, next_ino_after, only_new, only_old, renumbered,
    section_names, shadow_names, synced, ShadowView, TableView,
};
use crate::numbering::{lemma_last_named, lemma_renumbered, lemma_renumbered_at};
use crate::section::{FrontMatterKind, SectionView, TreeView};

verus! {

/// Of different names, a section goes on under its name exactly if there was one of that name.
proof fn lemma_by_name(olds: Seq<Seq<char>>, news: Seq<Seq<char>>, k: int)
    requires
        news.no_duplicates(),
        0 <= k < news.len(),
    ensures
        by_name(olds, news, k) is Some <==> olds.contains(news[k]),
        by_name(olds, news, k) is Some ==> 0 <= by_name(olds, news, k)->0 < olds.len()
            && olds[by_name(olds, news, k)->0] == news[k],
{
    lemma_last_named(olds, news[k]);
    if let Some(i) = last_named(olds, news[k]) {
        assert(olds.contains(olds[i]));
    }
}

proof fn lemma_continued(olds: Seq<Seq<char>>, news: Seq<Seq<char>>, i: int)
    requires
        olds.no_duplicates(),
        news.no_duplicates(),
        0 <= i < olds.len(),
    ensures
        continued(olds, news, i) <==> news.contains(olds[i]),
{
    if continued(olds, news, i) {
        let k = choose|k: int| 0 <= k < news.len() && #[trigger] by_name(olds, news, k) == Some(i);
        lemma_by_name(olds, news, k);
        assert(news[k] == olds[i]);
    }
    if news.contains(olds[i]) {
        let k = choose|k: int| 0 <= k < news.len() && news[k] == olds[i];
        assert(olds.contains(olds[i]));
        lemma_by_name(olds, news, k);
        let j = by_name(olds, news, k)->0;
        assert(j == i);
    }
}

/// Where of all subsections just one has a name that none had before, and just one that there was has a
/// name that none has now, it has been renamed: it keeps the numbers of its directory and of its
/// `content.md`.
pub proof fn law_when_a_section_counts_as_renamed(
    olds: Seq<ShadowView>,
    parent: SectionView,
    next: u64,
    k: int,
    i: int,
)
    requires
        shadow_names(olds).no_duplicates(),
        section_names(parent.children).no_duplicates(),
        0 <= k < parent.children.len(),
        0 <= i < olds.len(),
        forall|j: int|
            0 <= j < parent.children.len() ==> (j != k <==> shadow_names(olds).contains(
                (#[trigger] parent.children[j]).name,
            )),
        forall|j: int|
            0 <= j < olds.len() ==> (j != i <==> section_names(parent.children).contains(
                (#[trigger] olds[j]).name,
            )),
    ensures
        ({
            let nodes = renumbered(olds, parent, parent.children.len(), next).0;
            nodes[k].dir == olds[i].dir && nodes[k].content == olds[i].content
        }),
{
    let names = shadow_names(olds);
    let news = section_names(parent.children);
    assert(only_new(names, news, k)) by {
        assert forall|j: int| 0 <= j < news.len() implies (j != k <==> #[trigger] by_name(
            names,
            news,
            j,
        ) is Some) by {
            lemma_by_name(names, news, j);
            assert(news[j] == parent.children[j].name);
        }
    }
    assert(only_old(names, news, i)) by {
        assert forall|j: int| 0 <= j < names.len() implies (j != i <==> #[trigger] continued(
            names,
            news,
            j,
        )) by {
            lemma_continued(names, news, j);
            assert(names[j] == olds[j].name);
        }
    }
    let c = choose|c: int| only_old(names, news, c);
    assert(only_old(names, news, c));
    assert(c == i) by {
        if c != i {
            assert(continued(names, news, c));
        }
    }
    lemma_by_name(names, news, k);
    assert(matched(names, news, k) == Some(i));
    lemma_renumbered_at(olds, parent, parent.children.len(), next, k);
}

/// The numbers of a section that goes on from none are new, and so are those below it.
proof fn lemma_new_numbers(olds: Seq<ShadowView>, parent: SectionView, n: nat, next: u64, k: int)
    requires
        n <= parent.children.len(),
        0 <= k < n,
        matched(shadow_names(olds), section_names(parent.children), k) is None,
    ensures
        ({
            let node = renumbered(olds, parent, n, next).0[k];
            node.dir >= next && node.content >= next && (renumbered(olds, parent, n, next).1
                < u64::MAX ==> node.dir != node.content)
        }),
    decreases n,
{
    lemma_renumbered(olds, parent, (n - 1) as nat, next);
    let (before, free) = renumbered(olds, parent, (n - 1) as nat, next);
    if k < n - 1 {
        lemma_new_numbers(olds, parent, (n - 1) as nat, next, k);
        assert(renumbered(olds, parent, n, next).0[k] == before[k]);
        lemma_numbers_go_up(olds, parent, n, next);
    } else {
        let section = parent.children[k];
        let content = next_ino_after(free);
        lemma_renumbered(
            Seq::empty(),
            section,
            section.children.len(),
            next_ino_after(content),
        );
    }
}

proof fn lemma_numbers_go_up(olds: Seq<ShadowView>, parent: SectionView, n: nat, next: u64)
    requires
        0 < n <= parent.children.len(),
    ensures
        renumbered(olds, parent, (n - 1) as nat, next).1 <= renumbered(olds, parent, n, next).1,
{
    let (before, free) = renumbered(olds, parent, (n - 1) as nat, next);
    let section = parent.children[n - 1];
    match matched(shadow_names(olds), section_names(parent.children), n - 1) {
        Some(i) => {
            lemma_renumbered(olds[i].children, section, section.children.len(), free);
        },
        None => {
            lemma_renumbered(
                Seq::empty(),
                section,
                section.children.len(),
                next_ino_after(next_ino_after(free)),
            );
        },
    }
}

/// A section with a name that none had before is a new one, with new numbers, where another one has
/// such a name too, and where none or more than one is gone that there was.
pub proof fn law_when_a_section_counts_as_new(
    olds: Seq<ShadowView>,
    parent: SectionView,
    next: u64,
    k: int,
    a: int,
    b: int,
)
    requires
        shadow_names(olds).no_duplicates(),
        section_names(parent.children).no_duplicates(),
        0 <= k < parent.children.len(),
        !shadow_names(olds).contains(parent.children[k].name),
        ({
            ||| {
                &&& 0 <= a < parent.children.len() && a != k
                &&& !shadow_names(olds).contains(parent.children[a].name)
            }
            ||| {
                &&& 0 <= a < b < olds.len()
                &&& !section_names(parent.children).contains(olds[a].name)
                &&& !section_names(parent.children).contains(olds[b].name)
            }
            ||| forall|j: int|
                0 <= j < olds.len() ==> section_names(parent.children).contains(
                    (#[trigger] olds[j]).name,
                )
        }),
        renumbered(olds, parent, parent.children.len(), next).1 < u64::MAX,
    ensures
        ({
            let node = renumbered(olds, parent, parent.children.len(), next).0[k];
            node.dir >= next && node.content >= next && node.dir != node.content
        }),
{
    let names = shadow_names(olds);
    let news = section_names(parent.children);
    assert(news[k] == parent.children[k].name);
    lemma_by_name(names, news, k);
    if only_new(names, news, k) && exists|i: int| only_old(names, news, i) {
        let i = choose|i: int| only_old(names, news, i);
        assert forall|j: int| 0 <= j < news.len() implies (j != k <==> names.contains(
            #[trigger] news[j],
        )) by {
            lemma_by_name(names, news, j);
            assert(j != k <==> by_name(names, news, j) is Some);
        }
        assert forall|j: int| 0 <= j < names.len() implies (j != i <==> news.contains(
            #[trigger] names[j],
        )) by {
            lemma_continued(names, news, j);
            assert(j != i <==> continued(names, news, j));
        }
        if 0 <= a < parent.children.len() && a != k && !names.contains(parent.children[a].name) {
            assert(news[a] == parent.children[a].name);
        }
        if 0 <= a < b < olds.len() && !news.contains(olds[a].name) && !news.contains(olds[b].name) {
            assert(names[a] == olds[a].name);
            assert(names[b] == olds[b].name);
        }
        if forall|j: int| 0 <= j < olds.len() ==> news.contains((#[trigger] olds[j]).name) {
            assert(names[i] == olds[i].name);
            assert(news.contains(olds[i].name));
        }
        assert(false);
    }
    assert(matched(names, news, k) is None);
    lemma_new_numbers(olds, parent, parent.children.len(), next, k);
}

/// Front matter that was not there, or of another kind, gets a new number; and none has one that is
/// gone.
pub proof fn law_when_front_matter_is_new(
    table: TableView,
    next: u64,
    tree: TreeView,
    kind: FrontMatterKind,
    i: int,
)
    requires
        tree.front_matter == Some((kind, i)),
        table.front_matter is None || (table.front_matter->0).0 != kind,
    ensures
        synced(table, next, tree).0.front_matter is Some,
        (synced(table, next, tree).0.front_matter->0).0 == kind,
        (synced(table, next, tree).0.front_matter->0).1 >= next,
        forall|other: TreeView|
            other.front_matter is None ==> #[trigger] synced(
                table,
                next,
                other,
            ).0.front_matter is None,
{
    let old = table.shadow;
    let next1 = if old.content == 0 {
        next_ino_after(next)
    } else {
        next
    };
    let next2 = if old.dir == 0 {
        next_ino_after(next1)
    } else {
        next1
    };
    lemma_renumbered(old.children, tree.root, tree.root.children.len(), next2);
}

} // verus!
