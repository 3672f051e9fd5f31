//! File names.
use vstd::prelude::*;
use vstd::slice::slice_to_vec;
use vstd::utf8::{decode_utf8, valid_utf8};

use crate::bytes::utf8_text;

verus! {

/// The byte of a full stop.
pub const DOT: u8 = 46;

/// The index of the last full stop in a name.
pub open spec fn last_dot(name: Seq<u8>) -> Option<int>
    decreases name.len(),
{
    if name.len() == 0 {
        None
    } else if name.last() == DOT {
        Some(name.len() - 1)
    } else {
        last_dot(name.drop_last())
    }
}

/// Where the extension of a file name begins: behind its last full stop, unless that is its first
/// character or the name is `..`.
pub open spec fn extension_start(name: Seq<u8>) -> Option<int> {
    match last_dot(name) {
        Some(i) => if i == 0 || name == seq![DOT, DOT] {
            None
        } else {
            Some(i + 1)
        },
        None => None,
    }
}

/// A file name without its extension.
pub open spec fn stem(name: Seq<u8>) -> Seq<u8> {
    match extension_start(name) {
        Some(i) => name.take(i - 1),
        None => name,
    }
}

/// `b`, in lower case if it is an ASCII letter.
pub open spec fn lower(b: u8) -> u8 {
    if 65 <= b <= 90 {
        (b + 32) as u8
    } else {
        b
    }
}

/// Whether a file name has the extension `md`, in upper or lower case.
pub open spec fn is_markdown(name: Seq<u8>) -> bool {
    match extension_start(name) {
        Some(i) => name.len() == i + 2 && lower(name[i]) == 109 && lower(name[i + 1]) == 100,
        None => false,
    }
}

/// What is decoded of bytes, if they are UTF-8.
pub open spec fn decoded(bytes: Seq<u8>) -> Option<Seq<char>> {
    if valid_utf8(bytes) {
        Some(decode_utf8(bytes))
    } else {
        None
    }
}

/// Whether a name is that of a hidden entry.
pub open spec fn is_hidden(name: Seq<u8>) -> bool {
    name.len() > 0 && name[0] == DOT
}

/// The name of the directory for a file: its name without extension, or `untitled` where it has no
/// name or one that is not UTF-8.
pub open spec fn display_name(file_name: Option<Seq<u8>>) -> Seq<char> {
    match file_name {
        Some(name) => match decoded(stem(name)) {
            Some(text) => text,
            None => "untitled"@,
        },
        None => "untitled"@,
    }
}

/// The name under which a directory is mounted: its own, or `untitled` where it has none or one that is
/// not UTF-8.
pub open spec fn directory_name(file_name: Option<Seq<u8>>) -> Seq<char> {
    match file_name {
        Some(name) => match decoded(name) {
            Some(text) => text,
            None => "untitled"@,
        },
        None => "untitled"@,
    }
}

fn find_extension(name: &[u8]) -> (r: Option<usize>)
    ensures
        match extension_start(name@) {
            Some(i) => r is Some && r->0 == i && 1 < i <= name@.len(),
            None => r is None,
        },
{
    let n = name.len();
    let mut i: usize = n;
    assert(name@.take(n as int) =~= name@);
    while i > 0
        invariant
            i <= n == name@.len(),
            last_dot(name@) == last_dot(name@.take(i as int)),
        decreases i,
    {
        assert(name@.take(i as int).last() == name@[i - 1]);
        assert(name@.take(i as int).drop_last() =~= name@.take(i - 1));
        if name[i - 1] == DOT {
            let parent = n == 2 && name[0] == DOT && name[1] == DOT;
            assert(parent == (name@ == seq![DOT, DOT])) by {
                if parent {
                    assert(name@ =~= seq![DOT, DOT]);
                }
            }
            return if i == 1 || parent {
                None
            } else {
                Some(i)
            };
        }
        i -= 1;
    }
    None
}

/// A file name without its extension.
pub fn file_stem(name: &[u8]) -> (r: Vec<u8>)
    ensures
        r@ == stem(name@),
{
    match find_extension(name) {
        Some(i) => slice_to_vec(&name[0..i - 1]),
        None => slice_to_vec(name),
    }
}

fn to_lower(b: u8) -> (r: u8)
    ensures
        r == lower(b),
{
    if 65 <= b && b <= 90 {
        b + 32
    } else {
        b
    }
}

/// Whether a file name has the extension `md`, in upper or lower case.
pub fn has_markdown_extension(name: &[u8]) -> (r: bool)
    ensures
        r == is_markdown(name@),
{
    match find_extension(name) {
        Some(i) => name.len() - i == 2 && to_lower(name[i]) == 109 && to_lower(name[i + 1]) == 100,
        None => false,
    }
}

/// The text of a name, if it is UTF-8.
pub fn name_text(name: &[u8]) -> (r: Option<String>)
    ensures
        match decoded(name@) {
            Some(text) => r is Some && r->0@ == text,
            None => r is None,
        },
{
    utf8_text(slice_to_vec(name))
}

/// Whether a name is that of a hidden entry.
pub fn starts_with_dot(name: &[u8]) -> (r: bool)
    ensures
        r == is_hidden(name@),
{
    name.len() > 0 && name[0] == DOT
}

/// The name of the directory for a file.
pub fn stem_or_name(file_name: Option<&[u8]>) -> (r: String)
    ensures
        r@ == display_name(
            match file_name {
                Some(name) => Some(name@),
                None => None,
            },
        ),
{
    match file_name {
        Some(name) => match name_text(&file_stem(name)) {
            Some(text) => text,
            None => "untitled".to_string(),
        },
        None => "untitled".to_string(),
    }
}

/// The name under which a directory is mounted.
pub fn own_name(file_name: Option<&[u8]>) -> (r: String)
    ensures
        r@ == directory_name(
            match file_name {
                Some(name) => Some(name@),
                None => None,
            },
        ),
{
    match file_name {
        Some(name) => match name_text(name) {
            Some(text) => text,
            None => "untitled".to_string(),
        },
        None => "untitled".to_string(),
    }
}

/// The order of byte strings: by the first byte in which they differ; a prefix comes first.
pub open spec fn in_order(a: Seq<u8>, b: Seq<u8>) -> bool
    decreases a.len(),
{
    if a.len() == 0 {
        true
    } else if b.len() == 0 {
        false
    } else if a[0] != b[0] {
        a[0] < b[0]
    } else {
        in_order(a.drop_first(), b.drop_first())
    }
}

proof fn lemma_in_order_total(a: Seq<u8>, b: Seq<u8>)
    ensures
        in_order(a, b) || in_order(b, a),
    decreases a.len(),
{
    if a.len() > 0 && b.len() > 0 && a[0] == b[0] {
        lemma_in_order_total(a.drop_first(), b.drop_first());
    }
}

proof fn lemma_in_order_transitive(a: Seq<u8>, b: Seq<u8>, c: Seq<u8>)
    requires
        in_order(a, b),
        in_order(b, c),
    ensures
        in_order(a, c),
    decreases a.len(),
{
    if a.len() > 0 && b.len() > 0 && c.len() > 0 && a[0] == b[0] && b[0] == c[0] {
        lemma_in_order_transitive(a.drop_first(), b.drop_first(), c.drop_first());
    }
}

fn compare_names(a: &[u8], b: &[u8]) -> (r: bool)
    ensures
        r == in_order(a@, b@),
{
    let n = a.len();
    let m = b.len();
    let mut i: usize = 0;
    assert(a@.skip(0) =~= a@);
    assert(b@.skip(0) =~= b@);
    while i < n && i < m
        invariant
            n == a@.len(),
            m == b@.len(),
            i <= n,
            i <= m,
            in_order(a@, b@) == in_order(a@.skip(i as int), b@.skip(i as int)),
        decreases n - i,
    {
        assert(a@.skip(i as int)[0] == a@[i as int]);
        assert(b@.skip(i as int)[0] == b@[i as int]);
        assert(a@.skip(i as int).drop_first() =~= a@.skip(i + 1));
        assert(b@.skip(i as int).drop_first() =~= b@.skip(i + 1));
        if a[i] != b[i] {
            return a[i] < b[i];
        }
        i += 1;
    }
    i == n
}

/// Whether `order` lists numbers below `n`, each at most once, so that the names with these numbers
/// are in order.
pub open spec fn lists_in_order(order: Seq<usize>, names: Seq<Vec<u8>>, n: int) -> bool {
    &&& forall|i: int| 0 <= i < order.len() ==> 0 <= (#[trigger] order[i]) < n
    &&& order.no_duplicates()
    &&& forall|i: int, j: int|
        0 <= i < j < order.len() ==> in_order(
            names[#[trigger] order[i] as int]@,
            names[#[trigger] order[j] as int]@,
        )
}

/// The order in which the entries of a directory are visited: by name.
pub fn sorted_order(names: &Vec<Vec<u8>>) -> (order: Vec<usize>)
    ensures
        order@.len() == names@.len(),
        lists_in_order(order@, names@, names@.len() as int),
{
    let mut order: Vec<usize> = Vec::new();
    let mut k: usize = 0;
    while k < names.len()
        invariant
            k <= names@.len(),
            order@.len() == k,
            lists_in_order(order@, names@, k as int),
        decreases names@.len() - k,
    {
        let mut p: usize = 0;
        while p < order.len() && compare_names(&names[order[p]], &names[k])
            invariant
                k < names@.len(),
                p <= order@.len(),
                lists_in_order(order@, names@, k as int),
                forall|i: int|
                    0 <= i < p ==> in_order(
                        names@[#[trigger] order@[i] as int]@,
                        names@[k as int]@,
                    ),
            decreases order@.len() - p,
        {
            p += 1;
        }
        let ghost before = order@;
        proof {
            if p < before.len() {
                lemma_in_order_total(names@[before[p as int] as int]@, names@[k as int]@);
                assert forall|i: int| p <= i < before.len() implies in_order(
                    names@[k as int]@,
                    names@[#[trigger] before[i] as int]@,
                ) by {
                    if i > p {
                        lemma_in_order_transitive(
                            names@[k as int]@,
                            names@[before[p as int] as int]@,
                            names@[before[i] as int]@,
                        );
                    }
                }
            }
        }
        order.insert(p, k);
        proof {
            let after = order@;
            assert(after =~= before.insert(p as int, k));
            assert forall|i: int, j: int| 0 <= i < j < after.len() implies in_order(
                names@[#[trigger] after[i] as int]@,
                names@[#[trigger] after[j] as int]@,
            ) && after[i] != after[j] by {
                let a = if i < p { before[i] } else if i == p { k } else { before[i - 1] };
                let b = if j < p { before[j] } else if j == p { k } else { before[j - 1] };
                assert(after[i] == a);
                assert(after[j] == b);
            }
        }
        k += 1;
    }
    order
}

} // verus!
