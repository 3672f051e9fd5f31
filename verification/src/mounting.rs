//! What a mount shows of the files that it was made of.
use vstd::prelude::*;

use crate::block::BlockView;
use crate::document::{filtered_tree, matches_within, pruned};
use crate::editing::{law_filter_shows_matches_and_their_ancestors, law_filter_shows_nothing_else};
use crate::inode::PathView;
use crate::mount::{FileView, SourceView};
use crate::naming::lemma_occurs_child;
use crate::outline::{
    law_a_heading_is_one_directory, lemma_placed, lemma_section_form, lemma_sections_have,
    lemma_sections_placed, occurs,
};
use crate::section::{body_start, tree_of, FrontMatterKind, SectionView};
use crate::spelling::ends_subtree;
use crate::state::{
    bare_mount, canonical_child, mount_of, with_all_unplaced, with_unplaced, FsView,
};

verus! {

/// Whether `f` is the file `source` as it was read.
pub open spec fn is_mounted_as(source: SourceView, f: FileView) -> bool {
    &&& f.document == source.document
    &&& f.source_path == source.path
    &&& f.shown == source.shown
    &&& f.persisted == source.text
    &&& f.known_mtime == source.mtime
}

proof fn lemma_unplaced(fs: FsView, sources: Seq<SourceView>)
    ensures
        ({
            let all = with_all_unplaced(fs, sources);
            &&& all.files.len() == fs.files.len() + sources.len()
            &&& forall|i: int| 0 <= i < fs.files.len() ==> #[trigger] all.files[i] == fs.files[i]
            &&& forall|i: int|
                0 <= i < sources.len() ==> is_mounted_as(
                    #[trigger] sources[i],
                    all.files[fs.files.len() + i],
                )
            &&& all.readonly == fs.readonly && all.allow_other == fs.allow_other
            &&& all.uid == fs.uid && all.gid == fs.gid
            &&& all.scratch == fs.scratch && all.names == fs.names
            &&& forall|path: Seq<u8>| #[trigger]
                all.mounted.contains(path) <==> fs.mounted.contains(path) || exists|i: int|
                    0 <= i < sources.len() && (#[trigger] sources[i]).path == path
        }),
    decreases sources.len(),
{
    let all = with_all_unplaced(fs, sources);
    if sources.len() > 0 {
        let less = sources.drop_last();
        let before = with_all_unplaced(fs, less);
        lemma_unplaced(fs, less);
        assert(all == with_unplaced(before, sources.last()));
        assert forall|i: int| 0 <= i < sources.len() implies is_mounted_as(
            #[trigger] sources[i],
            all.files[fs.files.len() + i],
        ) by {
            if i < less.len() {
                assert(less[i] == sources[i]);
                assert(all.files[fs.files.len() + i] == before.files[fs.files.len() + i]);
            }
        }
        assert forall|path: Seq<u8>| #[trigger]
            all.mounted.contains(path) <==> fs.mounted.contains(path) || exists|i: int|
                0 <= i < sources.len() && (#[trigger] sources[i]).path == path by {
            if before.mounted.contains(path) && !fs.mounted.contains(path) {
                let i = choose|i: int| 0 <= i < less.len() && (#[trigger] less[i]).path == path;
                assert(sources[i].path == path);
            }
            if path == sources.last().path {
                assert(sources[sources.len() - 1].path == path);
            }
            if exists|i: int| 0 <= i < sources.len() && (#[trigger] sources[i]).path == path {
                let i = choose|i: int|
                    0 <= i < sources.len() && (#[trigger] sources[i]).path == path;
                if i < less.len() {
                    assert(less[i].path == path);
                }
            }
        }
    }
}

/// A mount has the files that it was made of, in their order and as they were read, and no buffers. It
/// is read-only where it was asked for, and where sections of a file are hidden; and its owner is the
/// one that was given.
pub proof fn law_what_a_mount_is_made_of(
    sources: Seq<SourceView>,
    readonly: bool,
    allow_other: bool,
    uid: u32,
    gid: u32,
)
    ensures
        ({
            let fs = mount_of(sources, readonly, allow_other, uid, gid);
            &&& fs.files.len() == sources.len()
            &&& forall|i: int|
                0 <= i < sources.len() ==> is_mounted_as(#[trigger] sources[i], fs.files[i])
            &&& fs.readonly <==> readonly || exists|i: int|
                0 <= i < sources.len() && (#[trigger] sources[i]).shown is Some
            &&& fs.allow_other == allow_other
            &&& fs.uid == uid && fs.gid == gid
            &&& forall|x: u64| !#[trigger] fs.scratch.contains_key(x)
            &&& forall|x: u64, n: Seq<char>| !#[trigger] fs.names.contains_key((x, n))
            &&& forall|path: Seq<u8>| #[trigger]
                fs.mounted.contains(path) <==> exists|i: int|
                    0 <= i < sources.len() && (#[trigger] sources[i]).path == path
        }),
{
    let hidden = exists|i: int| 0 <= i < sources.len() && (#[trigger] sources[i]).shown is Some;
    let bare = bare_mount(readonly || hidden, allow_other, uid, gid);
    lemma_unplaced(bare, sources);
    let all = with_all_unplaced(bare, sources);
    assert forall|i: int| 0 <= i < sources.len() implies is_mounted_as(
        #[trigger] sources[i],
        all.files[i],
    ) by {
        assert(all.files[bare.files.len() + i] == all.files[i]);
    }
}

/// A file that is added is the last one, as it was read, and no other file changes; one that is mounted
/// already, and one without a place, is left out.
pub proof fn law_what_adding_a_file_does(fs: FsView, source: SourceView)
    ensures
        ({
            let after = fs.with_file(source);
            let left_out = source.mount_path.len() == 0 || fs.mounted.contains(source.path);
            &&& left_out ==> after == fs
            &&& !left_out ==> {
                &&& after.files.len() == fs.files.len() + 1
                &&& forall|i: int|
                    0 <= i < fs.files.len() ==> #[trigger] after.files[i] == fs.files[i]
                &&& is_mounted_as(source, after.files[fs.files.len() as int])
                &&& after.mounted == fs.mounted.insert(source.path)
                &&& after.scratch == fs.scratch && after.names == fs.names
                &&& after.readonly == fs.readonly && after.allow_other == fs.allow_other
                &&& after.uid == fs.uid && after.gid == fs.gid
                &&& after.with_file(source) == after
            }
        }),
{
}

/// The front matter of a document is its first block, where that is YAML or TOML, and its body begins
/// behind it.
pub proof fn law_what_front_matter_is(bs: Seq<BlockView>)
    ensures
        bs.len() > 0 && bs[0].content is Yaml ==> tree_of(bs).front_matter == Some(
            (FrontMatterKind::Yaml, 0int),
        ) && body_start(bs) == 1,
        bs.len() > 0 && bs[0].content is Toml ==> tree_of(bs).front_matter == Some(
            (FrontMatterKind::Toml, 0int),
        ) && body_start(bs) == 1,
        bs.len() == 0 || !(bs[0].content is Yaml || bs[0].content is Toml) ==> tree_of(
            bs,
        ).front_matter is None && body_start(bs) == 0,
        tree_of(bs).root.start == body_start(bs),
        tree_of(bs).root.heading is None,
        tree_of(bs).root.depth == 0,
{
}

/// Which names stand for part of the document: `content.md` in every directory, and in a file's own
/// directory that of the front matter; no others.
pub proof fn law_which_names_stand_for_the_document(path: Seq<Seq<char>>, name: Seq<char>)
    ensures
        canonical_child(path, "content.md"@) == Some(PathView::Content(path)),
        path.len() == 0 ==> canonical_child(path, "_frontmatter.yaml"@) == Some(
            PathView::FrontMatter(FrontMatterKind::Yaml),
        ),
        path.len() == 0 ==> canonical_child(path, "_frontmatter.toml"@) == Some(
            PathView::FrontMatter(FrontMatterKind::Toml),
        ),
        path.len() > 0 && name != "content.md"@ ==> canonical_child(path, name) is None,
        name != "content.md"@ && name != "_frontmatter.yaml"@ && name != "_frontmatter.toml"@
            ==> canonical_child(path, name) is None,
{
    reveal_strlit("content.md");
    reveal_strlit("_frontmatter.yaml");
    reveal_strlit("_frontmatter.toml");
    assert("_frontmatter.yaml"@[13] == 'y' && "_frontmatter.toml"@[13] == 't');
    assert("_frontmatter.yaml"@[0] == '_' && "_frontmatter.toml"@[0] == '_');
    assert("content.md"@[0] == 'c');
}

/// Whether one of the headings in `start..end` is to be kept.
pub open spec fn keeps_one(bs: Seq<BlockView>, keep: Seq<bool>, start: int, end: int) -> bool {
    exists|j: int|
        start <= j < end && (#[trigger] bs[j]).is_heading() && j < keep.len() && keep[j]
}

/// A section leads to a heading to keep exactly if one is in its subtree.
proof fn lemma_matches_within(bs: Seq<BlockView>, s: SectionView, keep: Seq<bool>)
    requires
        occurs(tree_of(bs).root, s),
        s.heading is Some,
    ensures
        matches_within(s, keep) <==> keeps_one(bs, keep, s.heading->0, s.subtree_end()),
    decreases s,
{
    lemma_placed(bs, s);
    lemma_section_form(bs, s);
    let h = s.heading->0;
    let end = s.subtree_end();
    let root = tree_of(bs).root;
    assert forall|k: int| 0 <= k < s.children.len() implies {
        let c = #[trigger] s.children[k];
        &&& c.heading is Some
        &&& h < c.heading->0 < c.subtree_end() <= end
        &&& matches_within(c, keep) <==> keeps_one(bs, keep, c.heading->0, c.subtree_end())
    } by {
        let c = s.children[k];
        assert(occurs(c, c));
        lemma_sections_placed(bs, h + 1, end, Set::empty(), k, c);
        lemma_occurs_child(root, s, k);
        lemma_matches_within(bs, c, keep);
    }
    if matches_within(s, keep) {
        if 0 <= h < keep.len() && keep[h] {
            assert(bs[h].is_heading());
        } else {
            let k = choose|k: int|
                0 <= k < s.children.len() && matches_within(#[trigger] s.children[k], keep);
            let c = s.children[k];
            let j = choose|j: int|
                c.heading->0 <= j < c.subtree_end() && (#[trigger] bs[j]).is_heading() && j
                    < keep.len() && keep[j];
            assert(bs[j].is_heading() && keep[j]);
        }
    }
    if keeps_one(bs, keep, h, end) {
        let j = choose|j: int|
            h <= j < end && (#[trigger] bs[j]).is_heading() && j < keep.len() && keep[j];
        if j > h {
            let (k, t) = lemma_sections_have(bs, h + 1, end, Set::empty(), j);
            let c = s.children[k];
            lemma_occurs_child(root, s, k);
            if t != c {
                let i = choose|i: int|
                    0 <= i < c.children.len() && occurs(#[trigger] c.children[i], t);
                lemma_placed(bs, c);
                lemma_section_form(bs, c);
                lemma_sections_placed(
                    bs,
                    c.heading->0 + 1,
                    c.subtree_end(),
                    Set::empty(),
                    i,
                    t,
                );
            } else {
                lemma_placed(bs, c);
            }
            assert(c.heading->0 <= j < c.subtree_end());
            assert(keeps_one(bs, keep, c.heading->0, c.subtree_end()));
            assert(matches_within(s.children[k], keep));
        }
    }
}

/// Of a filtered document a directory is shown exactly if its heading is to be kept or one below it is,
/// and what is shown of it are its own name and content.
pub proof fn law_which_directories_a_filter_shows(
    bs: Seq<BlockView>,
    keep: Seq<bool>,
    s: SectionView,
    end: int,
)
    requires
        occurs(tree_of(bs).root, s),
        s.heading is Some,
        ends_subtree(bs, s.heading->0, end),
    ensures
        keeps_one(bs, keep, s.heading->0, end) <==> exists|x: SectionView| #[trigger]
            occurs(filtered_tree(bs, keep).root, x) && x.heading == s.heading,
        forall|x: SectionView| #[trigger]
            occurs(filtered_tree(bs, keep).root, x) && x.heading == s.heading ==> x.name == s.name
                && x.depth == s.depth && x.start == s.start && x.end == s.end,
        filtered_tree(bs, keep).front_matter == tree_of(bs).front_matter,
{
    let root = tree_of(bs).root;
    let shown = filtered_tree(bs, keep).root;
    lemma_placed(bs, s);
    assert(end == s.subtree_end()) by {
        let e = s.subtree_end();
        if e < end {
            assert(bs[e].is_heading());
        } else if end < e {
            assert(bs[end].is_heading());
        }
    }
    lemma_matches_within(bs, s, keep);
    if keeps_one(bs, keep, s.heading->0, end) {
        law_filter_shows_matches_and_their_ancestors(root, keep, s);
        assert(occurs(shown, pruned(s, keep)) && pruned(s, keep).heading == s.heading);
    }
    assert forall|x: SectionView| #[trigger] occurs(shown, x) && x.heading == s.heading implies x.name
        == s.name && x.depth == s.depth && x.start == s.start && x.end == s.end && matches_within(
        s,
        keep,
    ) by {
        law_filter_shows_nothing_else(root, keep, x);
        let y = choose|y: SectionView| #[trigger]
            occurs(root, y) && x == pruned(y, keep) && (y == root || matches_within(y, keep));
        law_a_heading_is_one_directory(bs, y, s);
    }
}

} // verus!
