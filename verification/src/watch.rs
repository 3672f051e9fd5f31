//! Which changes on disk add a file to a mount, and where it goes.
use vstd::prelude::*;

use crate::inode::copy_names;
use crate::model::{group_views, views};
use crate::paths::{
    decoded, file_stem, has_markdown_extension, is_hidden, is_markdown, name_text, starts_with_dot,
    stem,
};
use crate::text::same_bytes;

verus! {

/// What happened to a file on disk.
#[derive(Debug, Clone, Copy, PartialEq, Eq, Structural)]
pub enum Change {
    /// It was created.
    Created,
    /// Its content was changed.
    DataModified,
    /// It was renamed, and this is its new name.
    RenamedTo,
    /// Anything else.
    Other,
}

/// Whether a change may have added a file.
pub open spec fn may_add(change: Change) -> bool {
    change is Created || change is DataModified || change is RenamedTo
}

/// Whether a change may have added a file.
pub fn is_relevant(change: Change) -> (r: bool)
    ensures
        r == (change is Created || change is DataModified || change is RenamedTo),
        r == may_add(change),
{
    match change {
        Change::Created => true,
        Change::DataModified => true,
        Change::RenamedTo => true,
        Change::Other => false,
    }
}

/// The components of a path as plain values.
pub open spec fn component_bytes(path: Seq<Vec<u8>>) -> Seq<Seq<u8>> {
    Seq::new(path.len(), |i: int| path[i]@)
}

/// `base` with the names of all components of `rel`, the last without its extension; nothing where
/// one of them is hidden or not UTF-8.
pub open spec fn names_below(base: Seq<Seq<char>>, rel: Seq<Seq<u8>>) -> Option<Seq<Seq<char>>>
    decreases rel.len(),
{
    if rel.len() == 0 {
        Some(base)
    } else {
        let name = rel[0];
        let shown = if rel.len() == 1 {
            stem(name)
        } else {
            name
        };
        if decoded(name) is None || is_hidden(name) || decoded(shown) is None {
            None
        } else {
            names_below(base.push(decoded(shown)->0), rel.drop_first())
        }
    }
}

/// Where a file on disk goes in the mount, if it is a Markdown file below `root` that is not hidden.
pub open spec fn placed_at(root: Seq<Seq<u8>>, base: Seq<Seq<char>>, created: Seq<Seq<u8>>) -> Option<
    Seq<Seq<char>>,
> {
    if root.is_prefix_of(created) && created.len() > root.len() && is_markdown(created.last()) {
        names_below(base, created.skip(root.len() as int))
    } else {
        None
    }
}

fn has_prefix(path: &Vec<Vec<u8>>, root: &Vec<Vec<u8>>) -> (r: bool)
    ensures
        r == component_bytes(root@).is_prefix_of(component_bytes(path@)),
{
    if root.len() > path.len() {
        return false;
    }
    let ghost a = component_bytes(root@);
    let ghost b = component_bytes(path@);
    let mut i: usize = 0;
    while i < root.len()
        invariant
            i <= root@.len() <= path@.len(),
            a == component_bytes(root@),
            b == component_bytes(path@),
            forall|j: int| 0 <= j < i ==> #[trigger] a[j] == b[j],
        decreases root@.len() - i,
    {
        if !same_bytes(&root[i], &path[i]) {
            proof {
                if a.is_prefix_of(b) {
                    assert(b.subrange(0, a.len() as int)[i as int] == b[i as int]);
                    assert(a[i as int] != b[i as int]);
                }
            }
            return false;
        }
        i += 1;
    }
    assert(a =~= b.subrange(0, a.len() as int));
    true
}

/// Decides where the file `created` goes in the mount, if it is a Markdown file below `watch_root`
/// that is not hidden. `base_prefix` is where `watch_root` is in the mount. Paths are given by their
/// components.
pub fn mount_path_for(
    watch_root: &Vec<Vec<u8>>,
    base_prefix: &[String],
    created: &Vec<Vec<u8>>,
) -> (r: Option<Vec<String>>)
    ensures
        match placed_at(
            component_bytes(watch_root@),
            views(base_prefix@),
            component_bytes(created@),
        ) {
            Some(path) => r is Some && views(r->0@) == path,
            None => r is None,
        },
{
    broadcast use group_views;

    let ghost all = component_bytes(created@);
    let n = created.len();
    let start = watch_root.len();
    if !has_prefix(created, watch_root) || n <= start {
        return None;
    }
    assert(all.last() == created@[n - 1]@);
    if !has_markdown_extension(&created[n - 1]) {
        return None;
    }
    let mut names = copy_names(base_prefix);
    let mut i: usize = start;
    while i < n
        invariant
            start <= i <= n == created@.len(),
            all == component_bytes(created@),
            names_below(views(names@), all.skip(i as int)) == placed_at(
                component_bytes(watch_root@),
                views(base_prefix@),
                all,
            ),
        decreases n - i,
    {
        broadcast use group_views;

        let ghost rest = all.skip(i as int);
        assert(rest[0] == created@[i as int]@);
        assert(rest.drop_first() =~= all.skip(i + 1));
        let name = &created[i];
        let text = match name_text(name) {
            Some(text) => text,
            None => {
                return None;
            },
        };
        if starts_with_dot(name) {
            return None;
        }
        if i == n - 1 {
            match name_text(&file_stem(name)) {
                Some(text) => names.push(text),
                None => {
                    return None;
                },
            }
        } else {
            names.push(text);
        }
        i += 1;
    }
    Some(names)
}

} // verus!
