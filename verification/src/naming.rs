//! What holds of the names that are made up for directories, mounts and state files.
use vstd::prelude::*;

use crate::block::BlockView;
use crate::cli::{dashed, is_plain, label, name_of_mount, sanitized, top_levels, MAX_LABEL};
use crate::daemon::{digits_value, first_line, line_end, pid_in, pid_text, second_line};
use crate::document::{matches_within, pruned, pruned_first};
use crate::inode::section_names;
use crate::mount::shown_tree;
use crate::names::{
    clean, is_control, law_a_name_is_not_given_out_twice, seen_after, slug, suffixed, unique, MAX_SLUG,
};
use crate::numbering::distinct_names;
use crate::outline::{lemma_closing_heading_first, lemma_placed, lemma_section_form, occurs};
use crate::section::{
    body_start, closing_heading, heading_section, sections, tree_of, SectionView,
};
use crate::text::{decimal, trim, trim_end, trim_start};

verus! {

/// Whether a character may occur in a file name.
pub open spec fn is_usable(c: char) -> bool {
    c != '/' && c != '\\' && c != '\0' && !is_control(c)
}

/// Whether all characters may occur in a file name.
pub open spec fn all_usable(s: Seq<char>) -> bool {
    forall|i: int| 0 <= i < s.len() ==> is_usable(#[trigger] s[i])
}

proof fn lemma_trim_start_usable(s: Seq<char>)
    requires
        all_usable(s),
    ensures
        all_usable(trim_start(s)),
    decreases s.len(),
{
    if s.len() > 0 && crate::text::is_space(s[0]) {
        let rest = s.drop_first();
        assert forall|i: int| 0 <= i < rest.len() implies is_usable(#[trigger] rest[i]) by {
            assert(rest[i] == s[i + 1]);
        }
        lemma_trim_start_usable(rest);
    }
}

proof fn lemma_trim_end_usable(s: Seq<char>)
    requires
        all_usable(s),
    ensures
        all_usable(trim_end(s)),
    decreases s.len(),
{
    if s.len() > 0 && crate::text::is_space(s.last()) {
        let rest = s.drop_last();
        assert forall|i: int| 0 <= i < rest.len() implies is_usable(#[trigger] rest[i]) by {
            assert(rest[i] == s[i]);
        }
        lemma_trim_end_usable(rest);
    }
}

/// Whatever the title, its slug is a usable file name: it is not empty, not too long, neither `.`
/// nor `..`, and holds no separators and no control characters.
pub proof fn law_slugs_are_usable_names(title: Seq<char>)
    ensures
        0 < slug(title).len() <= MAX_SLUG,
        all_usable(slug(title)),
        slug(title) != seq!['.'],
        slug(title) != seq!['.', '.'],
{
    reveal_strlit("untitled");
    let cleaned = title.map_values(|c: char| clean(c));
    assert forall|i: int| 0 <= i < cleaned.len() implies is_usable(#[trigger] cleaned[i]) by {
        assert(cleaned[i] == clean(title[i]));
    }
    lemma_trim_start_usable(cleaned);
    lemma_trim_end_usable(trim_start(cleaned));
    let t = trim(cleaned);
    assert(all_usable("untitled"@));
    let named = if t == Seq::<char>::empty() || t == seq!['.'] || t == seq!['.', '.'] {
        "untitled"@
    } else {
        t
    };
    assert(all_usable(named));
    if t.len() == 0 {
        assert(t =~= Seq::<char>::empty());
    }
    assert forall|i: int| 0 <= i < slug(title).len() implies is_usable(
        #[trigger] slug(title)[i],
    ) by {
        assert(slug(title)[i] == named[i]);
    }
    assert("untitled"@.len() == 8);
    assert(seq!['.'].len() == 1);
    assert(seq!['.', '.'].len() == 2);
    if named.len() > MAX_SLUG {
        assert(slug(title).len() == MAX_SLUG);
    } else {
        assert(slug(title) == named);
    }
}

/// Reading a number that was written in decimal gives it back.
pub proof fn law_decimal_is_read_back(n: nat)
    ensures
        digits_value(decimal(n)) == Some(n),
        decimal(n).len() > 0,
        forall|i: int| 0 <= i < decimal(n).len() ==> '0' <= #[trigger] decimal(n)[i] <= '9',
    decreases n,
{
    if n < 10 {
        let d = decimal(n);
        assert(d.drop_last() =~= Seq::empty());
        assert(digits_value(d.drop_last()) == Some(0nat));
    } else {
        law_decimal_is_read_back(n / 10);
        let d = decimal(n);
        assert(d.drop_last() =~= decimal(n / 10));
    }
}

/// Two texts that end in `-` and digits are equal only if both parts are.
pub(crate) proof fn lemma_suffix_parts(a: Seq<char>, m: nat, b: Seq<char>, n: nat)
    requires
        suffixed(a, m) == suffixed(b, n),
    ensures
        a == b,
        m == n,
{
    law_decimal_is_read_back(m);
    law_decimal_is_read_back(n);
    let x = a.push('-') + decimal(m);
    let y = b.push('-') + decimal(n);
    let dm = decimal(m);
    let dn = decimal(n);
    if dm.len() < dn.len() {
        let i = x.len() - dm.len() - 1;
        assert(x[i] == '-');
        assert(y[i] == dn[i - b.len() - 1]);
    } else if dn.len() < dm.len() {
        let i = y.len() - dn.len() - 1;
        assert(y[i] == '-');
        assert(x[i] == dm[i - a.len() - 1]);
    }
    assert(dm.len() == dn.len());
    assert(x.len() == a.len() + 1 + dm.len());
    assert(y.len() == b.len() + 1 + dn.len());
    assert(a =~= b) by {
        assert forall|i: int| 0 <= i < a.len() implies a[i] == b[i] by {
            assert(x[i] == a[i]);
            assert(y[i] == b[i]);
        }
    }
    assert(dm =~= dn) by {
        assert forall|i: int| 0 <= i < dm.len() implies dm[i] == dn[i] by {
            assert(x[a.len() + 1 + i] == dm[i]);
            assert(y[b.len() + 1 + i] == dn[i]);
        }
    }
}

/// The names for `titles`, in order, where those in `seen` were given out before.
pub open spec fn names_for(titles: Seq<Seq<char>>, seen: Set<Seq<char>>) -> Seq<Seq<char>>
    decreases titles.len(),
{
    if titles.len() == 0 {
        Seq::empty()
    } else {
        seq![unique(seen, titles[0])] + names_for(
            titles.drop_first(),
            seen_after(seen, titles[0]),
        )
    }
}

/// The titles of the headings that `f` are the directories of.
pub open spec fn titles_of(bs: Seq<BlockView>, f: Seq<SectionView>) -> Seq<Seq<char>> {
    Seq::new(f.len(), |k: int| bs[f[k].heading->0].title())
}

pub(crate) proof fn lemma_section_names(bs: Seq<BlockView>, from: int, to: int, seen: Set<Seq<char>>)
    requires
        0 <= from <= to <= bs.len(),
    ensures
        section_names(sections(bs, from, to, seen)) == names_for(
            titles_of(bs, sections(bs, from, to, seen)),
            seen,
        ),
    decreases to - from,
{
    let f = sections(bs, from, to, seen);
    if from >= to {
        assert(section_names(f) =~= Seq::empty());
    } else if !bs[from].is_heading() {
        lemma_section_names(bs, from + 1, to, seen);
    } else {
        let end = closing_heading(bs, from + 1, to, bs[from].depth());
        lemma_closing_heading_first(bs, from + 1, to, bs[from].depth());
        let title = bs[from].title();
        let children = sections(bs, from + 1, end, Set::empty());
        let rest = sections(bs, end, to, seen_after(seen, title));
        let top = heading_section(bs, from, unique(seen, title), children);
        lemma_section_names(bs, end, to, seen_after(seen, title));
        assert(f == seq![top] + rest);
        let titles = titles_of(bs, f);
        assert(titles[0] == title);
        assert(titles.drop_first() =~= titles_of(bs, rest)) by {
            assert forall|k: int| 0 <= k < rest.len() implies titles.drop_first()[k] == titles_of(
                bs,
                rest,
            )[k] by {
                assert(f[k + 1] == rest[k]);
            }
        }
        assert(section_names(f) =~= seq![unique(seen, title)] + section_names(rest)) by {
            assert forall|k: int| 0 < k < f.len() implies section_names(f)[k] == section_names(
                rest,
            )[k - 1] by {
                assert(f[k] == rest[k - 1]);
            }
        }
    }
}

pub(crate) proof fn lemma_names_len(titles: Seq<Seq<char>>, seen: Set<Seq<char>>)
    ensures
        names_for(titles, seen).len() == titles.len(),
    decreases titles.len(),
{
    if titles.len() > 0 {
        lemma_names_len(titles.drop_first(), seen_after(seen, titles[0]));
    }
}

/// Names are given out once each, whatever the titles.
pub proof fn law_names_for_titles_differ(titles: Seq<Seq<char>>, seen: Set<Seq<char>>)
    requires
        seen.finite(),
    ensures
        names_for(titles, seen).len() == titles.len(),
        names_for(titles, seen).no_duplicates(),
        forall|k: int|
            0 <= k < titles.len() ==> !seen.contains(#[trigger] names_for(titles, seen)[k]),
    decreases titles.len(),
{
    lemma_names_len(titles, seen);
    if titles.len() > 0 {
        law_a_name_is_not_given_out_twice(seen, titles[0]);
        let seen2 = seen_after(seen, titles[0]);
        law_names_for_titles_differ(titles.drop_first(), seen2);
        let names = names_for(titles, seen);
        let rest = names_for(titles.drop_first(), seen2);
        assert forall|k: int| 0 < k < names.len() implies !seen2.contains(#[trigger] names[k]) by {
            assert(names[k] == rest[k - 1]);
        }
        assert forall|k: int, l: int| 0 <= k < l < names.len() implies names[k] != names[l] by {
            if k > 0 {
                assert(names[k] == rest[k - 1]);
                assert(names[l] == rest[l - 1]);
            }
        }
    }
}

/// Siblings have different names, whatever their titles.
pub proof fn law_sibling_names_differ(bs: Seq<BlockView>, from: int, to: int)
    requires
        0 <= from <= to <= bs.len(),
    ensures
        section_names(sections(bs, from, to, Set::empty())).no_duplicates(),
{
    let seen = Set::<Seq<char>>::empty();
    lemma_section_names(bs, from, to, seen);
    law_names_for_titles_differ(titles_of(bs, sections(bs, from, to, seen)), seen);
}

/// Siblings have different names everywhere in a tree.
pub proof fn law_all_sibling_names_differ(bs: Seq<BlockView>, s: SectionView)
    requires
        occurs(tree_of(bs).root, s),
    ensures
        distinct_names(s),
    decreases s,
{
    let root = tree_of(bs).root;
    if s == root {
        law_sibling_names_differ(bs, body_start(bs), bs.len() as int);
    } else {
        lemma_section_form(bs, s);
        lemma_placed(bs, s);
        law_sibling_names_differ(bs, s.heading->0 + 1, s.subtree_end());
    }
    assert forall|k: int| 0 <= k < s.children.len() implies distinct_names(
        #[trigger] s.children[k],
    ) by {
        lemma_occurs_child(root, s, k);
        law_all_sibling_names_differ(bs, s.children[k]);
    }
}

/// What stays of the first subsections of a section has different names too.
proof fn lemma_pruned_names_differ(s: SectionView, n: nat, keep: Seq<bool>)
    requires
        n <= s.children.len(),
        distinct_names(s),
    ensures
        ({
            let f = pruned_first(s, n, keep);
            &&& section_names(f).no_duplicates()
            &&& forall|k: int| 0 <= k < f.len() ==> distinct_names(#[trigger] f[k])
            &&& forall|k: int|
                0 <= k < f.len() ==> exists|i: int|
                    0 <= i < n && (#[trigger] s.children[i]).name == (#[trigger] f[k]).name
        }),
    decreases s, n,
{
    if n > 0 {
        lemma_pruned_names_differ(s, (n - 1) as nat, keep);
        let before = pruned_first(s, (n - 1) as nat, keep);
        let f = pruned_first(s, n, keep);
        let child = s.children[n - 1];
        assert(distinct_names(child));
        if matches_within(child, keep) {
            lemma_pruned_names_differ(child, child.children.len(), keep);
            assert(f == before.push(pruned(child, keep)));
            let names = section_names(s.children);
            assert forall|k: int| 0 <= k < before.len() implies (#[trigger] before[k]).name
                != child.name by {
                let i = choose|i: int|
                    0 <= i < n - 1 && (#[trigger] s.children[i]).name == before[k].name;
                assert(names[i] == before[k].name);
                assert(names[n - 1] == child.name);
            }
            assert forall|k: int, l: int|
                0 <= k < l < f.len() implies section_names(f)[k] != section_names(f)[l] by {
                assert(f[k] == before[k]);
                if l < before.len() {
                    assert(section_names(before)[k] != section_names(before)[l]);
                }
            }
            assert forall|k: int| 0 <= k < f.len() implies exists|i: int|
                0 <= i < n && (#[trigger] s.children[i]).name == (#[trigger] f[k]).name by {
                if k < before.len() {
                    let i = choose|i: int|
                        0 <= i < n - 1 && (#[trigger] s.children[i]).name == before[k].name;
                    assert(s.children[i].name == f[k].name);
                } else {
                    assert(s.children[n - 1].name == f[k].name);
                }
            }
        }
    }
}

/// Siblings have different names everywhere in what is shown of a document.
pub proof fn law_shown_sibling_names_differ(bs: Seq<BlockView>, shown: Option<Seq<bool>>)
    ensures
        distinct_names(shown_tree(bs, shown).root),
{
    let root = tree_of(bs).root;
    assert(occurs(root, root));
    law_all_sibling_names_differ(bs, root);
    if let Some(keep) = shown {
        lemma_pruned_names_differ(root, root.children.len(), keep);
    }
}

/// What is below a section that occurs in a tree occurs in it too.
pub(crate) proof fn lemma_occurs_child(root: SectionView, s: SectionView, k: int)
    requires
        occurs(root, s),
        0 <= k < s.children.len(),
    ensures
        occurs(root, s.children[k]),
    decreases root,
{
    if root == s {
        assert(occurs(s.children[k], s.children[k]));
    } else {
        let c = choose|c: int| 0 <= c < root.children.len() && occurs(#[trigger] root.children[c], s);
        lemma_occurs_child(root.children[c], s, k);
    }
}

/// Whether a text is made of ASCII letters and digits with single `-` between runs of them.
pub open spec fn is_label(s: Seq<char>) -> bool {
    &&& forall|i: int| 0 <= i < s.len() ==> is_plain(#[trigger] s[i]) || s[i] == '-'
    &&& forall|i: int|
        0 <= i < s.len() - 1 ==> !(#[trigger] s[i] == '-' && s[i + 1] == '-')
    &&& s.len() > 0 ==> s[0] != '-'
}

pub(crate) proof fn lemma_dashed(name: Seq<char>)
    ensures
        is_label(dashed(name)),
    decreases name.len(),
{
    if name.len() > 0 {
        lemma_dashed(name.drop_last());
    }
}

/// A sanitized name is made of ASCII letters and digits with single `-` between runs of them, and
/// sanitizing it again changes nothing.
pub proof fn law_sanitized_names_are_plain(name: Seq<char>)
    ensures
        is_label(sanitized(name)),
        sanitized(name).len() > 0 ==> sanitized(name).last() != '-',
        sanitized(sanitized(name)) == sanitized(name),
{
    lemma_dashed(name);
    let s = sanitized(name);
    assert(is_label(s));
    assert(s.len() > 0 ==> s.last() != '-') by {
        let d = dashed(name);
        if d.len() > 1 && d.last() == '-' {
            assert(!(d[d.len() - 2] == '-' && d[d.len() - 2 + 1] == '-'));
        }
    }
    lemma_dashed_again(s);
}

proof fn lemma_dashed_again(s: Seq<char>)
    requires
        is_label(s),
    ensures
        dashed(s) == s,
    decreases s.len(),
{
    if s.len() > 0 {
        let before = s.drop_last();
        assert(is_label(before)) by {
            assert forall|i: int| 0 <= i < before.len() implies is_plain(#[trigger] before[i])
                || before[i] == '-' by {
                assert(before[i] == s[i]);
            }
            assert forall|i: int| 0 <= i < before.len() - 1 implies !(#[trigger] before[i] == '-'
                && before[i + 1] == '-') by {
                assert(before[i] == s[i]);
            }
        }
        lemma_dashed_again(before);
        if s.last() == '-' {
            assert(s.len() > 1);
            assert(!(s[s.len() - 2] == '-' && s[s.len() - 2 + 1] == '-'));
            assert(before.last() == s[s.len() - 2]);
        }
        assert(s =~= before.push(s.last()));
    } else {
        assert(dashed(s) =~= s);
    }
}

/// A mount's name begins with `mq-`, goes on, and is at most 43 characters long.
pub proof fn law_mount_names_are_short(paths: Seq<Seq<Seq<char>>>)
    ensures
        name_of_mount(paths).take(3) == "mq-"@,
        3 < name_of_mount(paths).len() <= MAX_LABEL + 3,
{
    reveal_strlit("mq-");
    reveal_strlit("mount");
    assert(name_of_mount(paths).take(3) =~= "mq-"@);
    assert(label(top_levels(paths)).len() > 0);
}

/// What a process writes about the mount that it serves leads back to the mount directory.
pub proof fn law_mountpoint_is_read_back(pid: u32, mountpoint: Seq<char>)
    requires
        !mountpoint.contains('\n'),
        mountpoint.len() > 0 ==> mountpoint.last() != '\r',
    ensures
        second_line(pid_text(pid, mountpoint)) == Some(mountpoint),
{
    law_decimal_is_read_back(pid as nat);
    let d = decimal(pid as nat);
    let text = pid_text(pid, mountpoint);
    assert(text.take(d.len() as int) =~= d);
    lemma_line_end(d, text);
    let rest = text.skip(d.len() as int + 1);
    assert(rest =~= mountpoint.push('\n'));
    assert(rest.take(mountpoint.len() as int) =~= mountpoint);
    assert forall|i: int| 0 <= i < mountpoint.len() implies #[trigger] mountpoint[i] != '\n' by {
        assert(mountpoint.contains(mountpoint[i]));
    }
    lemma_line_end(mountpoint, rest);
}

/// What a process writes about the mount that it serves leads back to it.
pub proof fn law_pid_is_read_back(pid: u32, mountpoint: Seq<char>)
    requires
        pid <= i32::MAX,
    ensures
        pid_in(pid_text(pid, mountpoint)) == Some(pid as int),
{
    law_decimal_is_read_back(pid as nat);
    let d = decimal(pid as nat);
    let text = pid_text(pid, mountpoint);
    lemma_line_end(d, text);
    assert(text.take(d.len() as int) =~= d);
    assert(text[d.len() - 1] == d[d.len() - 1]);
    assert(first_line(text) == d);
    assert('0' <= d[0] <= '9');
}

proof fn lemma_line_end(line: Seq<char>, text: Seq<char>)
    requires
        line.len() < text.len(),
        text.take(line.len() as int) == line,
        text[line.len() as int] == '\n',
        forall|i: int| 0 <= i < line.len() ==> #[trigger] line[i] != '\n',
    ensures
        line_end(text) == line.len(),
    decreases line.len(),
{
    if line.len() > 0 {
        assert(text[0] == line[0]);
        let rest = text.drop_first();
        assert(rest.take(line.len() - 1) =~= line.drop_first());
        lemma_line_end(line.drop_first(), rest);
    }
}

} // verus!
