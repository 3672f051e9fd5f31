//! Which headings are the directories of which, and what they are called.
use vstd::prelude::*;

use crate::block::BlockView;
use crate::editing::lemma_children_range;
use crate::fs::lemma_found_child;
use crate::inode::section_names;
use crate::mount::lemma_child_index;
use crate::names::{
    clean, is_first_free, law_a_name_is_not_given_out_twice, lemma_first_free, slug, seen_after,
    suffixed, unique,
};
use crate::naming::{lemma_names_len, lemma_section_names, names_for, titles_of};
use crate::outline::{
    closed_range, law_every_heading_is_a_directory, lemma_closed_parts, lemma_placed,
    lemma_sections_placed, occurs,
};
use crate::section::{
    body_start, child_index, closing_heading, find_below, heading_section, sections, tree_of,
    SectionView,
};
use crate::text::{decimal, is_space, trim, trim_end, trim_start};

verus! {

/// Whether `d` stands for `c` in a directory name: `-` for a separator and for NUL, a space for any
/// other control character, and the character itself for all others.
pub open spec fn stands_in(c: char, d: char) -> bool {
    if c == '/' || c == '\\' || c == '\0' {
        d == '-'
    } else if c <= '\u{1f}' || '\u{7f}' <= c <= '\u{9f}' {
        d == ' '
    } else {
        d == c
    }
}

/// Whether a character is dropped at either end of a title: white space, and control characters but
/// NUL.
pub open spec fn is_dropped(c: char) -> bool {
    is_space(c) || ((c <= '\u{1f}' || '\u{7f}' <= c <= '\u{9f}') && c != '\0')
}

/// Which characters are white space, by their code points.
pub proof fn law_which_characters_are_white_space(c: char)
    ensures
        ({
            let n = c as int;
            is_space(c) <==> {
                ||| 9 <= n && n <= 13
                ||| n == 32 || n == 133 || n == 160 || n == 5760
                ||| 8192 <= n && n <= 8202
                ||| n == 8232 || n == 8233 || n == 8239 || n == 8287 || n == 12288
            }
        }),
{
}

proof fn lemma_trim_start(s: Seq<char>, n: int)
    requires
        0 <= n <= s.len(),
        forall|i: int| 0 <= i < n ==> is_space(#[trigger] s[i]),
        n < s.len() ==> !is_space(s[n]),
    ensures
        trim_start(s) == s.skip(n),
    decreases n,
{
    if n > 0 {
        let rest = s.drop_first();
        assert forall|i: int| 0 <= i < n - 1 implies is_space(#[trigger] rest[i]) by {
            assert(rest[i] == s[i + 1]);
        }
        lemma_trim_start(rest, n - 1);
        assert(rest.skip(n - 1) =~= s.skip(n));
    } else {
        assert(s.skip(0) =~= s);
    }
}

proof fn lemma_trim_end(s: Seq<char>, n: int)
    requires
        0 <= n <= s.len(),
        forall|i: int| n <= i < s.len() ==> is_space(#[trigger] s[i]),
        n > 0 ==> !is_space(s[n - 1]),
    ensures
        trim_end(s) == s.take(n),
    decreases s.len() - n,
{
    if n < s.len() {
        let rest = s.drop_last();
        assert forall|i: int| n <= i < rest.len() implies is_space(#[trigger] rest[i]) by {
            assert(rest[i] == s[i]);
        }
        lemma_trim_end(rest, n);
        assert(rest.take(n) =~= s.take(n));
    } else {
        assert(s.take(n) =~= s);
    }
}

/// Trimming a text takes the white space off its ends, and nothing else.
pub proof fn law_what_trimming_leaves(s: Seq<char>, from: int, to: int)
    requires
        0 <= from <= to <= s.len(),
        forall|i: int| 0 <= i < from || to <= i < s.len() ==> is_space(#[trigger] s[i]),
        from < to ==> !is_space(s[from]) && !is_space(s[to - 1]),
    ensures
        trim(s) == s.subrange(from, to),
{
    if from == to {
        assert forall|i: int| 0 <= i < s.len() implies is_space(#[trigger] s[i]) by {}
        lemma_trim_start(s, s.len() as int);
        assert(trim_end(s.skip(s.len() as int)) =~= s.subrange(from, to));
    } else {
        lemma_trim_start(s, from);
        let rest = s.skip(from);
        assert forall|i: int| to - from <= i < rest.len() implies is_space(#[trigger] rest[i]) by {
            assert(rest[i] == s[i + from]);
        }
        lemma_trim_end(rest, to - from);
        assert(rest.take(to - from) =~= s.subrange(from, to));
    }
}

/// What a title's slug is, where `from..to` is the title without what is dropped at its ends: the first
/// 200 characters of that, each as it may stand in a file name, or `untitled` where nothing is left, or
/// only `.` or `..`.
pub proof fn law_what_a_slug_is(title: Seq<char>, from: int, to: int)
    requires
        0 <= from <= to <= title.len(),
        forall|i: int| 0 <= i < from || to <= i < title.len() ==> is_dropped(#[trigger] title[i]),
        from < to ==> !is_dropped(title[from]) && !is_dropped(title[to - 1]),
    ensures
        ({
            let dots = (to == from + 1 && title[from] == '.') || (to == from + 2 && title[from] == '.'
                && title[from + 1] == '.');
            let s = slug(title);
            &&& from == to || dots ==> s == "untitled"@
            &&& from < to && !dots ==> {
                &&& s.len() == (if to - from <= 200 {
                    to - from
                } else {
                    200
                })
                &&& forall|i: int| 0 <= i < s.len() ==> stands_in(title[from + i], #[trigger] s[i])
            }
        }),
{
    reveal_strlit("untitled");
    let cleaned = title.map_values(|c: char| clean(c));
    assert forall|i: int| 0 <= i < from || to <= i < cleaned.len() implies is_space(
        #[trigger] cleaned[i],
    ) by {
        assert(is_dropped(title[i]));
    }
    law_what_trimming_leaves(cleaned, from, to);
    let t = trim(cleaned);
    assert(t.len() == to - from);
    assert forall|i: int| 0 <= i < t.len() implies #[trigger] t[i] == clean(title[from + i]) by {}
    if t.len() == 0 {
        assert(t =~= Seq::<char>::empty());
    } else if t.len() == 1 {
        assert(t[0] == clean(title[from]));
        if t[0] == '.' {
            assert(t =~= seq!['.']);
        }
    } else if t.len() == 2 {
        assert(t[0] == clean(title[from]));
        assert(t[1] == clean(title[from + 1]));
        if t[0] == '.' && t[1] == '.' {
            assert(t =~= seq!['.', '.']);
        }
    }
}

/// A title that is a file name already is its own slug.
pub proof fn law_file_names_are_their_own_slugs(title: Seq<char>)
    requires
        0 < title.len() <= 200,
        forall|i: int| 0 <= i < title.len() ==> stands_in(#[trigger] title[i], title[i]),
        !is_space(title[0]),
        !is_space(title.last()),
        title != seq!['.'],
        title != seq!['.', '.'],
    ensures
        slug(title) == title,
{
    assert(stands_in(title[0], title[0]));
    assert(stands_in(title[title.len() - 1], title[title.len() - 1]));
    law_what_a_slug_is(title, 0, title.len() as int);
    if title.len() == 1 && title[0] == '.' {
        assert(title =~= seq!['.']);
    }
    if title.len() == 2 && title[0] == '.' && title[1] == '.' {
        assert(title =~= seq!['.', '.']);
    }
    let s = slug(title);
    assert forall|i: int| 0 <= i < s.len() implies s[i] == title[i] by {
        assert(stands_in(title[0 + i], s[i]));
        assert(stands_in(title[i], title[i]));
    }
    assert(s =~= title);
}

/// What a title is called among siblings with the names `seen`: by its slug; and where that is taken,
/// by the slug, `-` and the smallest number from 2 on that makes a name that is not.
pub proof fn law_what_a_directory_is_called(seen: Set<Seq<char>>, title: Seq<char>)
    requires
        seen.finite(),
    ensures
        !seen.contains(slug(title)) ==> unique(seen, title) == slug(title),
        seen.contains(slug(title)) ==> exists|n: nat|
            {
                &&& n >= 2
                &&& unique(seen, title) == slug(title) + seq!['-'] + #[trigger] decimal(n)
                &&& !seen.contains(unique(seen, title))
                &&& forall|m: nat|
                    2 <= m < n ==> seen.contains(slug(title) + seq!['-'] + #[trigger] decimal(m))
            },
{
    let base = slug(title);
    if seen.contains(base) {
        lemma_first_free(seen, base, 2);
        let n = choose|n: nat| is_first_free(seen, base, n);
        assert(base + seq!['-'] =~= base.push('-'));
        assert forall|m: nat| 2 <= m < n implies seen.contains(
            base + seq!['-'] + #[trigger] decimal(m),
        ) by {
            assert(seen.contains(suffixed(base, m)));
        }
        assert(unique(seen, title) == base + seq!['-'] + decimal(n));
    }
}

proof fn lemma_children_above(
    bs: Seq<BlockView>,
    from: int,
    to: int,
    seen: Set<Seq<char>>,
    k: int,
    j: int,
)
    requires
        closed_range(bs, from, to),
        0 <= k < sections(bs, from, to, seen).len(),
        from <= j < sections(bs, from, to, seen)[k].heading->0,
        bs[j].is_heading(),
    ensures
        bs[j].depth() >= bs[sections(bs, from, to, seen)[k].heading->0].depth(),
    decreases to - from,
{
    let f = sections(bs, from, to, seen);
    let h = f[k].heading->0;
    if !bs[from].is_heading() {
        lemma_children_above(bs, from + 1, to, seen, k, j);
    } else {
        let end = closing_heading(bs, from + 1, to, bs[from].depth());
        lemma_closed_parts(bs, from, to);
        let seen2 = seen_after(seen, bs[from].title());
        let rest = sections(bs, end, to, seen2);
        let top = heading_section(
            bs,
            from,
            unique(seen, bs[from].title()),
            sections(bs, from + 1, end, Set::empty()),
        );
        assert(f == seq![top] + rest);
        if k > 0 {
            assert(f[k] == rest[k - 1]);
            assert(occurs(rest[k - 1], rest[k - 1]));
            lemma_sections_placed(bs, end, to, seen2, k - 1, rest[k - 1]);
            if j < end {
                assert(end < bs.len());
                assert(bs[end].depth() <= bs[from].depth() <= bs[j].depth());
                if end < h {
                    lemma_children_above(bs, end, to, seen2, k - 1, end);
                }
            } else {
                lemma_children_above(bs, end, to, seen2, k - 1, j);
            }
        }
    }
}

/// A subdirectory stands for a heading behind that of its directory: one that is deeper, where the
/// directory has a heading, and none of the headings between the two is less deep.
pub proof fn law_a_subdirectory_is_the_next_level(bs: Seq<BlockView>, s: SectionView, k: int)
    requires
        occurs(tree_of(bs).root, s),
        0 <= k < s.children.len(),
    ensures
        ({
            let c = s.children[k];
            let h = c.heading->0;
            &&& c.heading is Some
            &&& body_start(bs) <= h < bs.len()
            &&& bs[h].is_heading()
            &&& c.depth == bs[h].depth()
            &&& match s.heading {
                Some(i) => {
                    &&& 0 <= i < h
                    &&& bs[i].is_heading()
                    &&& bs[i].depth() < bs[h].depth()
                    &&& forall|j: int|
                        i < j < h && (#[trigger] bs[j]).is_heading() ==> bs[j].depth()
                            >= bs[h].depth()
                },
                None => forall|j: int|
                    body_start(bs) <= j < h && (#[trigger] bs[j]).is_heading() ==> bs[j].depth()
                        >= bs[h].depth(),
            }
        }),
{
    let c = s.children[k];
    let to = lemma_children_range(bs, s);
    assert(closed_range(bs, s.start, to));
    assert(occurs(c, c));
    lemma_sections_placed(bs, s.start, to, Set::empty(), k, c);
    let h = c.heading->0;
    assert forall|j: int| s.start <= j < h && (#[trigger] bs[j]).is_heading() implies bs[j].depth()
        >= bs[h].depth() by {
        lemma_children_above(bs, s.start, to, Set::empty(), k, j);
    }
}

/// What occurs below a section is a subdirectory of something that does.
proof fn lemma_has_parent(root: SectionView, t: SectionView) -> (r: (SectionView, int))
    requires
        occurs(root, t),
        t != root,
    ensures
        occurs(root, r.0),
        0 <= r.1 < r.0.children.len(),
        r.0.children[r.1] == t,
    decreases root,
{
    let c = choose|c: int| 0 <= c < root.children.len() && occurs(#[trigger] root.children[c], t);
    if root.children[c] == t {
        assert(occurs(root, root));
        (root, c)
    } else {
        let (s, k) = lemma_has_parent(root.children[c], t);
        assert(occurs(root, s));
        (s, k)
    }
}

/// Whether `p` is the last heading before `h` in the body that is less deep, if there is one.
pub open spec fn is_heading_above(bs: Seq<BlockView>, p: Option<int>, h: int) -> bool {
    match p {
        Some(i) => {
            &&& body_start(bs) <= i < h
            &&& bs[i].is_heading()
            &&& bs[i].depth() < bs[h].depth()
            &&& forall|j: int|
                i < j < h && (#[trigger] bs[j]).is_heading() ==> bs[j].depth() >= bs[h].depth()
        },
        None => forall|j: int|
            body_start(bs) <= j < h && (#[trigger] bs[j]).is_heading() ==> bs[j].depth()
                >= bs[h].depth(),
    }
}

/// Every heading is a subdirectory of the directory for the last heading before it that is less deep,
/// or of the file's own directory where there is none.
pub proof fn law_where_a_heading_belongs(bs: Seq<BlockView>, h: int, p: Option<int>)
    requires
        body_start(bs) <= h < bs.len(),
        bs[h].is_heading(),
        is_heading_above(bs, p, h),
    ensures
        exists|s: SectionView, k: int|
            #![trigger occurs(tree_of(bs).root, s), s.children[k]]
            {
                &&& occurs(tree_of(bs).root, s)
                &&& s.heading == p
                &&& 0 <= k < s.children.len()
                &&& s.children[k].heading == Some(h)
            },
{
    let root = tree_of(bs).root;
    law_every_heading_is_a_directory(bs, h);
    let t = choose|t: SectionView| #[trigger] occurs(root, t) && t.heading == Some(h);
    let (s, k) = lemma_has_parent(root, t);
    law_a_subdirectory_is_the_next_level(bs, s, k);
    if s != root {
        lemma_placed(bs, s);
    }
    assert(s.heading == p) by {
        match (s.heading, p) {
            (Some(i), Some(j)) => {
                if i < j {
                    assert(bs[j].is_heading());
                } else if j < i {
                    assert(bs[i].is_heading());
                }
            },
            (Some(i), None) => {
                assert(bs[i].is_heading());
            },
            (None, Some(j)) => {
                assert(bs[j].is_heading());
            },
            (None, None) => {},
        }
    }
    assert(occurs(root, s) && s.children[k] == t);
}

pub(crate) proof fn lemma_names_one_by_one(titles: Seq<Seq<char>>, seen: Set<Seq<char>>, k: int)
    requires
        0 <= k < titles.len(),
    ensures
        names_for(titles, seen).len() == titles.len(),
        names_for(titles, seen)[k] == unique(
            seen.union(names_for(titles, seen).take(k).to_set()),
            titles[k],
        ),
    decreases titles.len(),
{
    lemma_names_len(titles, seen);
    let names = names_for(titles, seen);
    let seen2 = seen_after(seen, titles[0]);
    let rest = names_for(titles.drop_first(), seen2);
    lemma_names_len(titles.drop_first(), seen2);
    if k == 0 {
        assert(seen.union(names.take(0).to_set()) =~= seen);
    } else {
        lemma_names_one_by_one(titles.drop_first(), seen2, k - 1);
        assert(names[k] == rest[k - 1]);
        let first = names.take(k);
        let second = rest.take(k - 1);
        let a = seen.union(first.to_set());
        let b = seen2.union(second.to_set());
        assert forall|n: Seq<char>| a.contains(n) == b.contains(n) by {
            if first.contains(n) {
                let i = choose|i: int| 0 <= i < first.len() && first[i] == n;
                if i > 0 {
                    assert(second[i - 1] == n);
                }
            }
            if second.contains(n) {
                let i = choose|i: int| 0 <= i < second.len() && second[i] == n;
                assert(first[i + 1] == n);
            }
            if n == unique(seen, titles[0]) {
                assert(first[0] == n);
            }
        }
        assert(a =~= b);
    }
}

/// A directory is called by the slug of its heading's title, or, where a directory before it in the
/// same directory is called that, by the slug, `-` and the smallest number from 2 on that makes a name
/// that none before it has.
pub proof fn law_directories_are_called_by_their_titles(bs: Seq<BlockView>, s: SectionView, k: int)
    requires
        occurs(tree_of(bs).root, s),
        0 <= k < s.children.len(),
    ensures
        ({
            let name = s.children[k].name;
            let base = slug(bs[s.children[k].heading->0].title());
            let before = section_names(s.children.take(k));
            &&& !before.contains(name)
            &&& !before.contains(base) ==> name == base
            &&& before.contains(base) ==> exists|n: nat|
                {
                    &&& n >= 2
                    &&& name == base + seq!['-'] + #[trigger] decimal(n)
                    &&& forall|m: nat|
                        2 <= m < n ==> before.contains(base + seq!['-'] + #[trigger] decimal(m))
                }
        }),
{
    let to = lemma_children_range(bs, s);
    let none = Set::<Seq<char>>::empty();
    lemma_section_names(bs, s.start, to, none);
    let titles = titles_of(bs, s.children);
    let names = section_names(s.children);
    lemma_names_one_by_one(titles, none, k);
    let before = section_names(s.children.take(k));
    assert(before =~= names.take(k));
    let seen = none.union(names.take(k).to_set());
    assert(seen =~= before.to_set());
    vstd::seq_lib::seq_to_set_is_finite(before);
    let title = bs[s.children[k].heading->0].title();
    assert(titles[k] == title);
    assert(s.children[k].name == unique(seen, title));
    law_a_name_is_not_given_out_twice(seen, title);
    law_what_a_directory_is_called(seen, title);
    if before.contains(slug(title)) {
        let n = choose|n: nat|
            {
                &&& n >= 2
                &&& unique(seen, title) == slug(title) + seq!['-'] + #[trigger] decimal(n)
                &&& !seen.contains(unique(seen, title))
                &&& forall|m: nat|
                    2 <= m < n ==> seen.contains(slug(title) + seq!['-'] + #[trigger] decimal(m))
            };
        assert(s.children[k].name == slug(title) + seq!['-'] + decimal(n));
        assert forall|m: nat| 2 <= m < n implies before.contains(
            slug(title) + seq!['-'] + #[trigger] decimal(m),
        ) by {
            assert(seen.contains(slug(title) + seq!['-'] + decimal(m)));
        }
    }
}

/// How a path leads on: the empty path leads nowhere else, and one more name leads to the first
/// subdirectory of that name, where there is one.
pub proof fn law_how_paths_lead_on(s: SectionView, path: Seq<Seq<char>>, name: Seq<char>, k: int)
    ensures
        find_below(s, Seq::empty()) == Some(s),
        find_below(s, path) is None ==> find_below(s, path.push(name)) is None,
        find_below(s, path) is Some ==> ({
            let children = (find_below(s, path)->0).children;
            &&& 0 <= k < children.len() && children[k].name == name && (forall|j: int|
                0 <= j < k ==> (#[trigger] children[j]).name != name) ==> find_below(
                s,
                path.push(name),
            ) == Some(children[k])
            &&& (forall|j: int| 0 <= j < children.len() ==> (#[trigger] children[j]).name != name)
                ==> find_below(s, path.push(name)) is None
        }),
{
    lemma_found_child(s, path, name);
    if let Some(p) = find_below(s, path) {
        lemma_child_index(p.children, name);
        if let Some(i) = child_index(p.children, name) {
            if i < k {
                assert(p.children[i].name == name);
            }
        }
    }
}

} // verus!
