//! Directory names: slugs of heading titles, told apart among siblings.
use rustc_hash::FxHashSet;
use vstd::prelude::*;

use crate::naming::lemma_suffix_parts;
use crate::text::{chars_of, decimal, decimal_chars, string_of, sub_chars, trim, trimmed};

verus! {

/// The hasher of `FxHashMap` and [`FxHashSet`].
#[verifier::external_type_specification]
#[verifier::external_body]
pub struct ExFxBuildHasher(rustc_hash::FxBuildHasher);

/// The elements of an `FxHashSet` of names.
pub uninterp spec fn name_set(names: FxHashSet<String>) -> Set<Seq<char>>;

/// `FxHashSet::default`: an empty set.
#[verifier::external_body]
fn name_set_new() -> (names: FxHashSet<String>)
    ensures
        name_set(names) == Set::<Seq<char>>::empty(),
{
    FxHashSet::default()
}

/// `HashSet::contains` on an `FxHashSet` of names.
#[verifier::external_body]
fn name_set_contains(names: &FxHashSet<String>, name: &str) -> (r: bool)
    ensures
        r == name_set(*names).contains(name@),
{
    names.contains(name)
}

/// How many elements a set has, if it is finite.
pub open spec fn size(names: Set<Seq<char>>) -> Option<nat> {
    if names.finite() {
        Some(names.len())
    } else {
        None
    }
}

/// `HashSet::len` on an `FxHashSet` of names: how many elements there are.
#[verifier::external_body]
fn name_set_len(names: &FxHashSet<String>) -> (n: usize)
    ensures
        size(name_set(*names)) == Some(n as nat),
{
    names.len()
}

/// `HashSet::insert` on an `FxHashSet` of names: `name` is now an element too.
#[verifier::external_body]
fn name_set_insert(names: &mut FxHashSet<String>, name: String)
    ensures
        name_set(*final(names)) == name_set(*old(names)).insert(name@),
{
    names.insert(name);
}

/// The names that were given out among the siblings of one directory.
pub struct SeenNames {
    names: FxHashSet<String>,
}

impl View for SeenNames {
    type V = Set<Seq<char>>;

    closed spec fn view(&self) -> Set<Seq<char>> {
        name_set(self.names)
    }
}

impl SeenNames {
    /// No name was given out yet.
    pub fn new() -> (seen: SeenNames)
        ensures
            seen@ == Set::<Seq<char>>::empty(),
    {
        SeenNames { names: name_set_new() }
    }

    /// Whether `name` was given out.
    pub fn contains(&self, name: &str) -> (r: bool)
        ensures
            r == self@.contains(name@),
    {
        name_set_contains(&self.names, name)
    }
}

/// The longest slug, in characters.
pub const MAX_SLUG: usize = 200;

/// The characters of the Unicode general category `Cc`.
pub open spec fn is_control(c: char) -> bool {
    c <= '\u{1f}' || '\u{7f}' <= c <= '\u{9f}'
}

/// What stands in a directory name for `c`: path separators and NUL become `-`, other control
/// characters become a space.
pub open spec fn clean(c: char) -> char {
    if c == '/' || c == '\\' || c == '\0' {
        '-'
    } else if is_control(c) {
        ' '
    } else {
        c
    }
}

/// The directory name for `title`: cleaned, trimmed, `untitled` where nothing usable is left, and
/// at most [`MAX_SLUG`] characters.
pub open spec fn slug(title: Seq<char>) -> Seq<char> {
    let t = trim(title.map_values(|c: char| clean(c)));
    let named = if t == Seq::<char>::empty() || t == seq!['.'] || t == seq!['.', '.'] {
        "untitled"@
    } else {
        t
    };
    if named.len() <= MAX_SLUG {
        named
    } else {
        named.take(MAX_SLUG as int)
    }
}

/// `base` with the number `n` behind it.
pub open spec fn suffixed(base: Seq<char>, n: nat) -> Seq<char> {
    base.push('-') + decimal(n)
}

/// Whether `n` is the first number from 2 on with which `base` was not given out.
pub open spec fn is_first_free(seen: Set<Seq<char>>, base: Seq<char>, n: nat) -> bool {
    &&& n >= 2
    &&& !seen.contains(suffixed(base, n))
    &&& forall|m: nat| 2 <= m < n ==> seen.contains(#[trigger] suffixed(base, m))
}

/// The name that `title` gets among siblings with the names `seen`: its slug, or, if that was given
/// out before, the slug with the first number from 2 on that makes a new name of it.
pub open spec fn unique(seen: Set<Seq<char>>, title: Seq<char>) -> Seq<char> {
    if seen.contains(slug(title)) {
        suffixed(slug(title), choose|n: nat| is_first_free(seen, slug(title), n))
    } else {
        slug(title)
    }
}

/// The names that are given out once `title` got its own.
pub open spec fn seen_after(seen: Set<Seq<char>>, title: Seq<char>) -> Set<Seq<char>> {
    seen.insert(unique(seen, title))
}

/// There are at least as many names as numbers that are taken, and `base` besides.
proof fn lemma_taken(seen: Set<Seq<char>>, base: Seq<char>, n: nat)
    requires
        seen.finite(),
        seen.contains(base),
        n >= 2,
        forall|m: nat| 2 <= m < n ==> seen.contains(#[trigger] suffixed(base, m)),
    ensures
        n <= seen.len() + 1,
    decreases n,
{
    if n == 2 {
        assert(seen.remove(base).len() + 1 == seen.len());
    } else {
        let last = suffixed(base, (n - 1) as nat);
        let fewer = seen.remove(last);
        assert forall|m: nat| 2 <= m < n - 1 implies fewer.contains(#[trigger] suffixed(base, m)) by {
            if suffixed(base, m) == last {
                lemma_suffix_parts(base, m, base, (n - 1) as nat);
            }
        }
        assert(last.len() > base.len());
        lemma_taken(fewer, base, (n - 1) as nat);
    }
}

/// There is a number that makes a new name of `base`.
pub(crate) proof fn lemma_first_free(seen: Set<Seq<char>>, base: Seq<char>, n: nat)
    requires
        seen.finite(),
        seen.contains(base),
        n >= 2,
        forall|m: nat| 2 <= m < n ==> seen.contains(#[trigger] suffixed(base, m)),
    ensures
        exists|k: nat| is_first_free(seen, base, k),
    decreases seen.len() + 1 - n,
{
    lemma_taken(seen, base, n);
    if seen.contains(suffixed(base, n)) {
        lemma_taken(seen, base, n + 1);
        lemma_first_free(seen, base, n + 1);
    } else {
        assert(is_first_free(seen, base, n));
    }
}

pub(crate) proof fn lemma_only_first_free(seen: Set<Seq<char>>, base: Seq<char>, m: nat, n: nat)
    requires
        is_first_free(seen, base, m),
        is_first_free(seen, base, n),
    ensures
        m == n,
{
    if m < n {
        assert(seen.contains(suffixed(base, m)));
    } else if n < m {
        assert(seen.contains(suffixed(base, n)));
    }
}

/// Whatever the names given out before, a title gets a new one.
pub proof fn law_a_name_is_not_given_out_twice(seen: Set<Seq<char>>, title: Seq<char>)
    requires
        seen.finite(),
    ensures
        !seen.contains(unique(seen, title)),
        !seen.contains(slug(title)) ==> unique(seen, title) == slug(title),
        seen_after(seen, title).finite(),
{
    if seen.contains(slug(title)) {
        lemma_first_free(seen, slug(title), 2);
    }
}

fn clean_char(c: char) -> (r: char)
    ensures
        r == clean(c),
{
    if c == '/' || c == '\\' || c == '\0' {
        '-'
    } else if c <= '\u{1f}' || ('\u{7f}' <= c && c <= '\u{9f}') {
        ' '
    } else {
        c
    }
}

/// Makes a directory name of a heading title or a file stem.
pub fn slugify(title: &str) -> (r: String)
    ensures
        r@ == slug(title@),
{
    let chars = chars_of(title);
    let mut cleaned: Vec<char> = Vec::new();
    let mut i: usize = 0;
    while i < chars.len()
        invariant
            i <= chars@.len(),
            cleaned@ == chars@.take(i as int).map_values(|c: char| clean(c)),
        decreases chars@.len() - i,
    {
        cleaned.push(clean_char(chars[i]));
        i += 1;
        assert(cleaned@ =~= chars@.take(i as int).map_values(|c: char| clean(c)));
    }
    assert(chars@.take(i as int) =~= chars@);
    let t = trimmed(&cleaned);
    let unusable = t.len() == 0 || (t.len() == 1 && t[0] == '.') || (t.len() == 2 && t[0] == '.'
        && t[1] == '.');
    proof {
        if t@.len() == 1 && t@[0] == '.' {
            assert(t@ =~= seq!['.']);
        }
        if t@.len() == 2 && t@[0] == '.' && t@[1] == '.' {
            assert(t@ =~= seq!['.', '.']);
        }
        if t@.len() == 0 {
            assert(t@ =~= Seq::<char>::empty());
        }
    }
    let named = if unusable {
        chars_of("untitled")
    } else {
        t
    };
    if named.len() <= MAX_SLUG {
        string_of(&named)
    } else {
        let short = sub_chars(&named, 0, MAX_SLUG);
        assert(named@.subrange(0, MAX_SLUG as int) =~= named@.take(MAX_SLUG as int));
        string_of(&short)
    }
}

/// Slugifies `title` and tells it apart from the sibling names that were given out before:
/// duplicates get `-2`, `-3` and so on.
pub fn unique_name(seen: &mut SeenNames, title: &str) -> (name: String)
    ensures
        name@ == unique(old(seen)@, title@),
        final(seen)@ == old(seen)@.insert(name@),
        !old(seen)@.contains(name@),
        !old(seen)@.contains(slug(title@)) ==> name@ == slug(title@),
{
    let base = slugify(title);
    let total = name_set_len(&seen.names);
    proof {
        law_a_name_is_not_given_out_twice(seen@, title@);
    }
    if !seen.contains(&base) {
        name_set_insert(&mut seen.names, base.clone());
        return base;
    }
    let mut n: u128 = 2;
    loop
        invariant
            seen@ == old(seen)@,
            seen@.finite(),
            total == seen@.len(),
            base@ == slug(title@),
            seen@.contains(base@),
            2 <= n <= total + 1,
            forall|m: nat| 2 <= m < n ==> seen@.contains(#[trigger] suffixed(base@, m)),
            !seen@.contains(unique(seen@, title@)),
        decreases total + 2 - n,
    {
        let mut chars = chars_of(&base);
        chars.push('-');
        let mut digits = decimal_chars(n);
        chars.append(&mut digits);
        let name = string_of(&chars);
        assert(name@ == suffixed(base@, n as nat));
        if !seen.contains(&name) {
            proof {
                assert(is_first_free(seen@, base@, n as nat));
                let k = choose|k: nat| is_first_free(seen@, base@, k);
                lemma_only_first_free(seen@, base@, k, n as nat);
            }
            name_set_insert(&mut seen.names, name.clone());
            return name;
        }
        proof {
            lemma_taken(seen@, base@, (n + 1) as nat);
        }
        n += 1;
    }
}

} // verus!
