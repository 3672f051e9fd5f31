//! What the WinFSP file system reports, and how it finds entries.
use vstd::prelude::*;

use crate::fs::MqFs;
use crate::inode::ROOT_INO;
use crate::model::views;
use crate::state::FsView;
use crate::text::{chars_of, same_text, string_of, sub_chars};
use crate::vfs::{DirEntryOwned, DirEntryView, FileAttr, FileKind, Ino, Timestamp, VfsError};

verus! {

/// The time between 1601-01-01 and the Unix epoch, in units of 100 ns.
pub const EPOCH_DIFF_100NS: u64 = 116_444_736_000_000_000;

/// The attribute of a directory.
pub const ATTRIBUTE_DIRECTORY: u32 = 0x10;

/// The attribute of a file without others.
pub const ATTRIBUTE_NORMAL: u32 = 0x80;

/// The attribute of an entry that cannot be changed.
pub const ATTRIBUTE_READONLY: u32 = 0x1;

/// A point in time in units of 100 ns since 1601-01-01. Nanoseconds since the Unix epoch are counted
/// modulo 2^64; a point before the epoch counts as the epoch.
pub open spec fn filetime_of(t: Timestamp) -> int {
    let nanos = if t.secs < 0 {
        0
    } else {
        (t.secs * 1_000_000_000 + t.nanos) % 0x1_0000_0000_0000_0000
    };
    EPOCH_DIFF_100NS + nanos / 100
}

/// A point in time as the system counts it.
pub fn filetime(t: Timestamp) -> (r: u64)
    ensures
        r == filetime_of(t),
{
    if t.secs < 0 {
        return EPOCH_DIFF_100NS;
    }
    let nanos: u128 = t.secs as u128 * 1_000_000_000 + t.nanos as u128;
    let nanos: u64 = (nanos % 0x1_0000_0000_0000_0000) as u64;
    EPOCH_DIFF_100NS + nanos / 100
}

/// The attributes of an entry.
pub open spec fn attributes_of(kind: FileKind, readonly: bool) -> u32 {
    match (kind, readonly) {
        (FileKind::Dir, false) => 0x10,
        (FileKind::Dir, true) => 0x11,
        (FileKind::File, false) => 0x80,
        (FileKind::File, true) => 0x81,
    }
}

/// The attributes of an entry.
pub fn file_attributes(kind: FileKind, readonly: bool) -> (attributes: u32)
    ensures
        attributes == attributes_of(kind, readonly),
{
    let attributes = match kind {
        FileKind::Dir => ATTRIBUTE_DIRECTORY,
        FileKind::File => ATTRIBUTE_NORMAL,
    };
    if readonly {
        attributes + ATTRIBUTE_READONLY
    } else {
        attributes
    }
}

/// What is reported of an entry.
#[derive(Debug, Clone, Copy, PartialEq, Eq, Structural)]
pub struct EntryInfo {
    pub file_attributes: u32,
    pub file_size: u64,
    pub allocation_size: u64,
    pub creation_time: u64,
    pub last_access_time: u64,
    pub last_write_time: u64,
    pub change_time: u64,
}

/// What is reported of an entry with these attributes.
pub open spec fn info_of(attr: FileAttr, readonly: bool) -> EntryInfo {
    let time = filetime_of(attr.mtime) as u64;
    EntryInfo {
        file_attributes: attributes_of(attr.kind, readonly),
        file_size: attr.size,
        allocation_size: attr.size,
        creation_time: time,
        last_access_time: time,
        last_write_time: time,
        change_time: time,
    }
}

/// What is reported of an entry with these attributes.
pub fn entry_info(attr: &FileAttr, readonly: bool) -> (info: EntryInfo)
    ensures
        info == info_of(*attr, readonly),
{
    let time = filetime(attr.mtime);
    EntryInfo {
        file_attributes: file_attributes(attr.kind, readonly),
        file_size: attr.size,
        allocation_size: attr.size,
        creation_time: time,
        last_access_time: time,
        last_write_time: time,
        change_time: time,
    }
}

/// Whether these options ask for a directory.
pub open spec fn asks_for_directory(create_options: u32) -> bool {
    create_options % 2 == 1
}

/// Whether a file that is created with these options is to be a directory.
pub fn creates_directory(create_options: u32) -> (r: bool)
    ensures
        r == (create_options % 2 == 1),
        r == asks_for_directory(create_options),
{
    create_options % 2 == 1
}

/// The components of a path, which are separated by `\`. Empty ones do not count.
pub open spec fn components(path: Seq<char>) -> Seq<Seq<char>>
    decreases path.len(),
{
    if path.len() == 0 {
        Seq::empty()
    } else if path[0] == '\\' {
        components(path.drop_first())
    } else {
        let end = separator_from(path, 0);
        proof {
            lemma_separator_from(path, 0);
        }
        seq![path.take(end)] + components(path.skip(end))
    }
}

/// The index of the first `\` at or after `from`, or the length.
pub open spec fn separator_from(path: Seq<char>, from: int) -> int
    decreases path.len() - from,
{
    if from >= path.len() {
        path.len() as int
    } else if path[from] == '\\' {
        from
    } else {
        separator_from(path, from + 1)
    }
}

/// [`separator_from`] stays in bounds.
pub proof fn lemma_separator_from(path: Seq<char>, from: int)
    requires
        0 <= from <= path.len(),
    ensures
        from <= separator_from(path, from) <= path.len(),
        from < path.len() && path[from] != '\\' ==> separator_from(path, from) > from,
    decreases path.len() - from,
{
    if from < path.len() && path[from] != '\\' {
        lemma_separator_from(path, from + 1);
    }
}

/// `path` without the `\` at its start.
pub open spec fn relative(path: Seq<char>) -> Seq<char>
    decreases path.len(),
{
    if path.len() > 0 && path[0] == '\\' {
        relative(path.drop_first())
    } else {
        path
    }
}

/// The index of the last `\`.
pub open spec fn last_separator(path: Seq<char>) -> Option<int>
    decreases path.len(),
{
    if path.len() == 0 {
        None
    } else if path.last() == '\\' {
        Some(path.len() - 1)
    } else {
        last_separator(path.drop_last())
    }
}

/// The part of a path before its last component, and that component.
pub open spec fn parent_and_name(path: Seq<char>) -> (Seq<char>, Seq<char>) {
    let p = relative(path);
    match last_separator(p) {
        Some(i) => (p.take(i), p.skip(i + 1)),
        None => (Seq::empty(), p),
    }
}

impl FsView {
    /// The entry that is reached from the directory `ino` by `names`.
    pub open spec fn walk(self, ino: Ino, names: Seq<Seq<char>>) -> Result<Ino, VfsError>
        decreases names.len(),
    {
        if names.len() == 0 {
            Ok(ino)
        } else {
            match self.lookup(ino, names[0]) {
                Ok(next) => self.walk(next, names.drop_first()),
                Err(e) => Err(e),
            }
        }
    }

    /// The entry at a path.
    pub open spec fn resolve(self, path: Seq<char>) -> Result<Ino, VfsError> {
        self.walk(ROOT_INO, components(path))
    }

    /// The directory in which the entry at a path is, or would be, and the entry's name.
    pub open spec fn resolve_parent_and_name(self, path: Seq<char>) -> Result<
        (Ino, Seq<char>),
        VfsError,
    > {
        let (parent, name) = parent_and_name(path);
        match self.resolve(parent) {
            Ok(ino) => Ok((ino, name)),
            Err(e) => Err(e),
        }
    }

    /// Where a write begins: at the end of the file, or at `offset`.
    pub open spec fn write_offset(self, ino: Ino, offset: u64, to_end: bool, now: Timestamp) -> Result<
        u64,
        VfsError,
    > {
        if to_end {
            match self.getattr(ino, now) {
                Ok(attr) => Ok(attr.size),
                Err(e) => Err(e),
            }
        } else {
            Ok(offset)
        }
    }
}

/// The index of the first entry called `name`.
pub open spec fn named_entry(entries: Seq<DirEntryView>, name: Seq<char>) -> Option<int>
    decreases entries.len(),
{
    if entries.len() == 0 {
        None
    } else if entries[0].name == name {
        Some(0)
    } else {
        match named_entry(entries.drop_first(), name) {
            Some(i) => Some(i + 1),
            None => None,
        }
    }
}

/// What to list next: `.`, then `..`, then the entries of the directory. `.` and `..` are not listed
/// in the root.
pub struct ListingView {
    pub dot: bool,
    pub dot_dot: bool,
    pub start: int,
}

/// What to list next of a directory with these entries, behind what was listed last.
pub open spec fn listing_of(
    is_root: bool,
    marker: Option<Seq<char>>,
    entries: Seq<DirEntryView>,
) -> ListingView {
    ListingView {
        dot: !is_root && marker is None,
        dot_dot: !is_root && (marker is None || marker->0 == "."@),
        start: match marker {
            None => 0,
            Some(name) => if name == "."@ || name == ".."@ {
                0
            } else {
                match named_entry(entries, name) {
                    Some(i) => i + 1,
                    None => entries.len() as int,
                }
            },
        },
    }
}

/// What to list next.
#[derive(Debug, Clone, Copy, PartialEq, Eq, Structural)]
pub struct Listing {
    /// Whether to list the directory itself.
    pub dot: bool,
    /// Whether to list the directory above it.
    pub dot_dot: bool,
    /// The first of the entries to list.
    pub start: usize,
}

fn find_named(entries: &Vec<DirEntryOwned>, name: &str) -> (r: Option<usize>)
    ensures
        match named_entry(views(entries@), name@) {
            Some(i) => r is Some && r->0 == i && 0 <= i < entries@.len(),
            None => r is None,
        },
{
    let ghost all = views(entries@);
    let mut i: usize = 0;
    assert(all.skip(0) =~= all);
    while i < entries.len()
        invariant
            i <= entries@.len(),
            all == views(entries@),
            named_entry(all, name@) == (match named_entry(all.skip(i as int), name@) {
                Some(j) => Some(j + i),
                None => None,
            }),
        decreases entries@.len() - i,
    {
        assert(all.skip(i as int)[0] == all[i as int]);
        assert(all.skip(i as int).drop_first() =~= all.skip(i + 1));
        if same_text(&entries[i].name, name) {
            return Some(i);
        }
        i += 1;
    }
    None
}

/// Decides what to list next of a directory with these entries. `marker` is the name that was listed
/// last, if any was.
pub fn plan_listing(is_root: bool, marker: Option<&str>, entries: &Vec<DirEntryOwned>) -> (r: Listing)
    ensures
        ({
            let l = listing_of(
                is_root,
                match marker {
                    Some(name) => Some(name@),
                    None => None,
                },
                views(entries@),
            );
            r.dot == l.dot && r.dot_dot == l.dot_dot && r.start == l.start
        }),
        r.start <= entries@.len(),
{
    let n = entries.len();
    match marker {
        None => Listing { dot: !is_root, dot_dot: !is_root, start: 0 },
        Some(name) => {
            let dot = same_text(name, ".");
            if dot || same_text(name, "..") {
                Listing { dot: false, dot_dot: !is_root && dot, start: 0 }
            } else {
                let start = match find_named(entries, name) {
                    Some(i) => i + 1,
                    None => n,
                };
                Listing { dot: false, dot_dot: false, start }
            }
        },
    }
}

fn find_separator(path: &Vec<char>, from: usize) -> (r: usize)
    requires
        from <= path@.len(),
    ensures
        r == separator_from(path@, from as int),
        from <= r <= path@.len(),
{
    let mut i: usize = from;
    while i < path.len()
        invariant
            from <= i <= path@.len(),
            separator_from(path@, from as int) == separator_from(path@, i as int),
        decreases path@.len() - i,
    {
        if path[i] == '\\' {
            return i;
        }
        i += 1;
    }
    i
}

/// Looking for a separator in the rest of a path is looking for it in the path.
proof fn lemma_separator_skip(path: Seq<char>, from: int, k: int)
    requires
        0 <= from <= from + k <= path.len(),
        0 <= k,
    ensures
        separator_from(path, from + k) == from + separator_from(path.skip(from), k),
    decreases path.len() - from - k,
{
    if from + k < path.len() && path[from + k] != '\\' {
        lemma_separator_skip(path, from, k + 1);
        assert(path.skip(from)[k] == path[from + k]);
    } else if from + k < path.len() {
        assert(path.skip(from)[k] == path[from + k]);
    }
}

impl MqFs {
    /// The entry at a path, whose components are separated by `\`.
    pub fn resolve(&self, path: &str) -> (r: Result<Ino, VfsError>)
        requires
            self@.wf(),
        ensures
            r == self@.resolve(path@),
    {
        self.resolve_chars(&chars_of(path))
    }

    fn resolve_chars(&self, path: &Vec<char>) -> (r: Result<Ino, VfsError>)
        requires
            self@.wf(),
        ensures
            r == self@.resolve(path@),
    {
        let mut ino = ROOT_INO;
        let mut i: usize = 0;
        assert(path@.skip(0) =~= path@);
        while i < path.len()
            invariant
                i <= path@.len(),
                self@.wf(),
                self@.resolve(path@) == self@.walk(ino, components(path@.skip(i as int))),
            decreases path@.len() - i,
        {
            let ghost rest = path@.skip(i as int);
            assert(rest[0] == path@[i as int]);
            if path[i] == '\\' {
                assert(rest.drop_first() =~= path@.skip(i + 1));
                i += 1;
            } else {
                let end = find_separator(path, i);
                proof {
                    lemma_separator_skip(path@, i as int, 0);
                    lemma_separator_from(path@, i as int);
                }
                let name = string_of(&sub_chars(path, i, end));
                proof {
                    assert(name@ =~= rest.take(end - i));
                    assert(rest.skip(end - i) =~= path@.skip(end as int));
                    let names = components(rest);
                    assert(names[0] == name@);
                    assert(names.drop_first() =~= components(path@.skip(end as int)));
                }
                match self.lookup(ino, &name) {
                    Ok(next) => {
                        ino = next;
                    },
                    Err(e) => {
                        return Err(e);
                    },
                }
                i = end;
            }
        }
        Ok(ino)
    }

    /// The directory in which the entry at a path is, or would be, and the entry's name.
    pub fn resolve_parent_and_name(&self, path: &str) -> (r: Result<(Ino, String), VfsError>)
        requires
            self@.wf(),
        ensures
            match self@.resolve_parent_and_name(path@) {
                Ok((ino, name)) => r is Ok && (r->Ok_0).0 == ino && (r->Ok_0).1@ == name,
                Err(e) => r == Err::<(Ino, String), VfsError>(e),
            },
    {
        let chars = chars_of(path);
        let n = chars.len();
        let mut from: usize = 0;
        assert(chars@.skip(0) =~= chars@);
        while from < n && chars[from] == '\\'
            invariant
                from <= n == chars@.len(),
                relative(chars@) == relative(chars@.skip(from as int)),
            decreases n - from,
        {
            assert(chars@.skip(from as int)[0] == chars@[from as int]);
            assert(chars@.skip(from as int).drop_first() =~= chars@.skip(from + 1));
            from += 1;
        }
        let ghost rest = chars@.skip(from as int);
        proof {
            if from < n {
                assert(rest[0] == chars@[from as int]);
            }
            assert(relative(chars@) == rest);
        }
        let mut end: usize = n;
        assert(rest.take(n - from) =~= rest);
        while end > from && chars[end - 1] != '\\'
            invariant
                from <= end <= n == chars@.len(),
                rest == chars@.skip(from as int),
                last_separator(rest) == last_separator(rest.take(end - from)),
            decreases end - from,
        {
            assert(rest.take(end - from).last() == chars@[end - 1]);
            assert(rest.take(end - from).drop_last() =~= rest.take(end - 1 - from));
            end -= 1;
        }
        let cut = if end > from {
            assert(rest.take(end - from).last() == chars@[end - 1]);
            end - 1
        } else {
            from
        };
        let name_start = end;
        let parent = sub_chars(&chars, from, cut);
        let name = string_of(&sub_chars(&chars, name_start, n));
        proof {
            let (p, m) = parent_and_name(path@);
            assert(parent@ =~= p);
            assert(name@ =~= m);
        }
        match self.resolve_chars(&parent) {
            Ok(ino) => Ok((ino, name)),
            Err(e) => Err(e),
        }
    }

    /// Where a write begins: at the end of the file, or at `offset`.
    pub fn write_offset(&self, ino: Ino, offset: u64, to_end: bool, now: Timestamp) -> (r: Result<
        u64,
        VfsError,
    >)
        requires
            self@.wf(),
        ensures
            r == self@.write_offset(ino, offset, to_end, now),
    {
        if to_end {
            match self.getattr(ino, now) {
                Ok(attr) => Ok(attr.size),
                Err(e) => Err(e),
            }
        } else {
            Ok(offset)
        }
    }
}

} // verus!
