//! How entries are found and reported by the protocols.
use vstd::prelude::*;

use crate::answers::law_what_is_reported_of_an_entry;
use crate::bytes::spliced;
use crate::inode::ROOT_INO;
use crate::nfs::{mode_bits, mount_options, time_of};
use crate::state::FsView;
use crate::text::decimal;
use crate::uniqueness::numbers_apart;
use crate::vfs::{DirEntryView, FileAttr, FileKind, Ino, Timestamp, VfsError};
use crate::visibility::entry_names;
use crate::winfsp::{
    attributes_of, components, filetime_of, info_of, last_separator, lemma_separator_from,
    listing_of, named_entry, relative, separator_from,
};

verus! {

/// Whether a text holds no `\`.
pub open spec fn is_one_name(name: Seq<char>) -> bool {
    forall|i: int| 0 <= i < name.len() ==> #[trigger] name[i] != '\\'
}

proof fn lemma_separator_joined(a: Seq<char>, b: Seq<char>, from: int)
    requires
        0 <= from <= a.len(),
    ensures
        separator_from(a + seq!['\\'] + b, from) == separator_from(a, from),
    decreases a.len() - from,
{
    let whole = a + seq!['\\'] + b;
    if from < a.len() {
        assert(whole[from] == a[from]);
        if a[from] != '\\' {
            lemma_separator_joined(a, b, from + 1);
        }
    } else {
        assert(whole[from] == '\\');
    }
}

/// The components of two paths with a `\` between them are those of the one and then those of the
/// other.
pub proof fn law_components_of_a_joined_path(a: Seq<char>, b: Seq<char>)
    ensures
        components(a + seq!['\\'] + b) == components(a) + components(b),
    decreases a.len(),
{
    let whole = a + seq!['\\'] + b;
    if a.len() == 0 {
        assert(whole[0] == '\\');
        assert(whole.drop_first() =~= b);
        assert(components(a) + components(b) =~= components(b));
    } else if a[0] == '\\' {
        assert(whole[0] == '\\');
        assert(whole.drop_first() =~= a.drop_first() + seq!['\\'] + b);
        law_components_of_a_joined_path(a.drop_first(), b);
    } else {
        assert(whole[0] == a[0]);
        let end = separator_from(a, 0);
        lemma_separator_from(a, 0);
        lemma_separator_joined(a, b, 0);
        assert(whole.take(end) =~= a.take(end));
        assert(whole.skip(end) =~= a.skip(end) + seq!['\\'] + b);
        law_components_of_a_joined_path(a.skip(end), b);
        assert(components(whole) =~= components(a) + components(b));
    }
}

proof fn lemma_no_separator(name: Seq<char>, from: int)
    requires
        is_one_name(name),
        0 <= from <= name.len(),
    ensures
        separator_from(name, from) == name.len(),
    decreases name.len() - from,
{
    if from < name.len() {
        lemma_no_separator(name, from + 1);
    }
}

/// A text without `\` is one component, unless it is empty.
pub proof fn law_a_name_is_one_component(name: Seq<char>)
    requires
        is_one_name(name),
    ensures
        name.len() > 0 ==> components(name) == seq![name],
        name.len() == 0 ==> components(name).len() == 0,
{
    if name.len() > 0 {
        lemma_no_separator(name, 0);
        let n = name.len() as int;
        assert(name.take(n) =~= name);
        assert(name.skip(n) =~= Seq::empty());
        assert(components(name.skip(n)).len() == 0);
        assert(components(name) =~= seq![name]);
    }
}

/// A way that is followed in two parts leads where it leads as a whole.
pub proof fn law_a_way_is_followed_in_parts(
    fs: FsView,
    ino: Ino,
    first: Seq<Seq<char>>,
    second: Seq<Seq<char>>,
)
    ensures
        fs.walk(ino, first + second) == (match fs.walk(ino, first) {
            Ok(middle) => fs.walk(middle, second),
            Err(e) => Err(e),
        }),
    decreases first.len(),
{
    if first.len() == 0 {
        assert(first + second =~= second);
    } else {
        assert((first + second)[0] == first[0]);
        assert((first + second).drop_first() =~= first.drop_first() + second);
        if let Ok(next) = fs.lookup(ino, first[0]) {
            law_a_way_is_followed_in_parts(fs, next, first.drop_first(), second);
        }
    }
}

/// The entry at a path is looked up by the last name in the entry at the path before it; the empty
/// path is the root, and so is a path of nothing but `\`.
pub proof fn law_what_a_path_leads_to(fs: FsView, path: Seq<char>, name: Seq<char>)
    requires
        is_one_name(name),
        name.len() > 0,
    ensures
        fs.resolve(path + seq!['\\'] + name) == (match fs.resolve(path) {
            Ok(dir) => fs.lookup(dir, name),
            Err(e) => Err(e),
        }),
        fs.resolve(name) == fs.lookup(ROOT_INO, name),
        fs.resolve(path + seq!['\\']) == fs.resolve(path),
        fs.resolve(seq!['\\'] + path) == fs.resolve(path),
        fs.resolve(Seq::empty()) == Ok::<Ino, VfsError>(ROOT_INO),
{
    law_components_of_a_joined_path(path, name);
    law_a_name_is_one_component(name);
    law_a_way_is_followed_in_parts(fs, ROOT_INO, components(path), seq![name]);
    lemma_one_step(fs, ROOT_INO, name);
    if let Ok(dir) = fs.resolve(path) {
        lemma_one_step(fs, dir, name);
    }
    let none = Seq::<char>::empty();
    law_components_of_a_joined_path(path, none);
    assert(path + seq!['\\'] + none =~= path + seq!['\\']);
    assert(components(none) =~= Seq::empty());
    assert(components(path) + components(none) =~= components(path));
    let slashed = seq!['\\'] + path;
    assert(slashed[0] == '\\');
    assert(slashed.drop_first() =~= path);
}

pub(crate) proof fn lemma_one_step(fs: FsView, dir: Ino, name: Seq<char>)
    ensures
        fs.walk(dir, seq![name]) == fs.lookup(dir, name),
{
    let way = seq![name];
    assert(way[0] == name);
    assert(way.drop_first() =~= Seq::empty());
    if let Ok(next) = fs.lookup(dir, name) {
        assert(fs.walk(next, way.drop_first()) == Ok::<Ino, VfsError>(next));
    }
}

proof fn lemma_relative(path: Seq<char>)
    ensures
        components(relative(path)) == components(path),
        relative(path).len() > 0 ==> relative(path)[0] != '\\',
        relative(path).len() <= path.len(),
    decreases path.len(),
{
    if path.len() > 0 && path[0] == '\\' {
        lemma_relative(path.drop_first());
    }
}

proof fn lemma_relative_joined(a: Seq<char>, b: Seq<char>)
    requires
        is_one_name(b),
    ensures
        relative(a).len() > 0 ==> relative(a + seq!['\\'] + b) == relative(a) + seq!['\\'] + b,
        relative(a).len() == 0 ==> relative(a + seq!['\\'] + b) == b,
    decreases a.len(),
{
    let whole = a + seq!['\\'] + b;
    if a.len() == 0 {
        assert(whole[0] == '\\');
        assert(whole.drop_first() =~= b);
        assert(relative(b) == b);
    } else if a[0] == '\\' {
        assert(whole[0] == '\\');
        assert(whole.drop_first() =~= a.drop_first() + seq!['\\'] + b);
        lemma_relative_joined(a.drop_first(), b);
    } else {
        assert(whole[0] == a[0]);
    }
}

proof fn lemma_last_separator(a: Seq<char>, b: Seq<char>)
    requires
        is_one_name(b),
    ensures
        last_separator(a + seq!['\\'] + b) == Some(a.len() as int),
        last_separator(b) is None,
    decreases b.len(),
{
    let whole = a + seq!['\\'] + b;
    if b.len() == 0 {
        assert(whole.last() == '\\');
    } else {
        let less = b.drop_last();
        assert(is_one_name(less)) by {
            assert forall|i: int| 0 <= i < less.len() implies #[trigger] less[i] != '\\' by {
                assert(less[i] == b[i]);
            }
        }
        assert(b.last() == b[b.len() - 1]);
        assert(whole.last() == b.last());
        assert(whole.drop_last() =~= a + seq!['\\'] + less);
        lemma_last_separator(a, less);
    }
}

/// The last name of a path is the name of an entry in the directory at the path before it; a path
/// without `\` is the name of an entry of the root.
pub proof fn law_where_a_new_entry_goes(fs: FsView, path: Seq<char>, name: Seq<char>)
    requires
        is_one_name(name),
    ensures
        fs.resolve_parent_and_name(path + seq!['\\'] + name) == (match fs.resolve(path) {
            Ok(dir) => Ok((dir, name)),
            Err(e) => Err(e),
        }),
        fs.resolve_parent_and_name(name) == Ok::<(Ino, Seq<char>), VfsError>((ROOT_INO, name)),
{
    let whole = path + seq!['\\'] + name;
    let r = relative(path);
    lemma_relative(path);
    lemma_relative_joined(path, name);
    lemma_last_separator(r, name);
    assert(relative(name) == name);
    assert(components(Seq::<char>::empty()) =~= Seq::empty());
    if r.len() > 0 {
        let p = r + seq!['\\'] + name;
        let i = r.len() as int;
        assert(p.take(i) =~= r);
        assert(p.skip(i + 1) =~= name);
    } else {
        assert(r =~= Seq::empty());
    }
}

/// A write to the end of a file begins where its bytes end; any other write begins where it says.
pub proof fn law_where_a_write_begins(
    fs: FsView,
    ino: Ino,
    offset: u64,
    now: Timestamp,
)
    requires
        fs.wf(),
        numbers_apart(fs),
        fs.contents(ino) is Ok,
        (fs.contents(ino)->Ok_0).len() <= u64::MAX,
    ensures
        fs.write_offset(ino, offset, false, now) == Ok::<u64, VfsError>(offset),
        fs.write_offset(ino, offset, true, now) is Ok,
        fs.write_offset(ino, offset, true, now)->Ok_0 == (fs.contents(ino)->Ok_0).len(),
{
    law_what_is_reported_of_an_entry(fs, ino, now);
}

/// Data that is written to the end of a buffer stands behind what was there.
pub proof fn law_data_is_appended(
    fs: FsView,
    ino: Ino,
    offset: u64,
    data: Seq<u8>,
    now: Timestamp,
)
    requires
        !fs.readonly,
        fs.scratch.contains_key(ino),
        fs.scratch[ino].len() <= u64::MAX,
    ensures
        fs.write_offset(ino, offset, true, now) is Ok,
        fs.write(ino, fs.write_offset(ino, offset, true, now)->Ok_0 as int, data, now).0.contents(ino)
            == Ok::<Seq<u8>, VfsError>((fs.contents(ino)->Ok_0) + data),
{
    let buf = fs.scratch[ino];
    assert(spliced(buf, buf.len() as int, data) =~= buf + data);
}

proof fn lemma_named_entry(entries: Seq<DirEntryView>, name: Seq<char>)
    ensures
        match named_entry(entries, name) {
            Some(i) => 0 <= i < entries.len() && entries[i].name == name && forall|j: int|
                0 <= j < i ==> (#[trigger] entries[j]).name != name,
            None => forall|j: int| 0 <= j < entries.len() ==> (#[trigger] entries[j]).name != name,
        },
    decreases entries.len(),
{
    if entries.len() > 0 && entries[0].name != name {
        let rest = entries.drop_first();
        lemma_named_entry(rest, name);
        match named_entry(rest, name) {
            Some(i) => {
                assert(entries[i + 1] == rest[i]);
                assert forall|j: int| 0 <= j < i + 1 implies (#[trigger] entries[j]).name
                    != name by {
                    if j > 0 {
                        assert(entries[j] == rest[j - 1]);
                    }
                }
            },
            None => {
                assert forall|j: int| 0 <= j < entries.len() implies (#[trigger] entries[j]).name
                    != name by {
                    if j > 0 {
                        assert(entries[j] == rest[j - 1]);
                    }
                }
            },
        }
    }
}

/// All names that are listed of a directory: `.` and `..`, but in the root, and then its entries.
pub open spec fn all_listed(is_root: bool, entries: Seq<DirEntryView>) -> Seq<Seq<char>> {
    if is_root {
        entry_names(entries)
    } else {
        seq!["."@, ".."@] + entry_names(entries)
    }
}

/// The names that a plan lists.
pub open spec fn planned(
    is_root: bool,
    marker: Option<Seq<char>>,
    entries: Seq<DirEntryView>,
) -> Seq<Seq<char>> {
    let plan = listing_of(is_root, marker, entries);
    let dot = if plan.dot {
        seq!["."@]
    } else {
        Seq::empty()
    };
    let dot_dot = if plan.dot_dot {
        seq![".."@]
    } else {
        Seq::empty()
    };
    dot + dot_dot + entry_names(entries).skip(plan.start)
}

/// A listing goes on behind the name that was listed last, and begins with the first where none was.
/// Behind a name that is not there, there is none.
pub proof fn law_where_a_listing_goes_on(is_root: bool, entries: Seq<DirEntryView>, p: int)
    requires
        forall|i: int|
            0 <= i < entries.len() ==> (#[trigger] entries[i]).name != "."@ && entries[i].name
                != ".."@,
        0 <= p < all_listed(is_root, entries).len(),
        forall|i: int|
            0 <= i < p ==> #[trigger] all_listed(is_root, entries)[i] != all_listed(
                is_root,
                entries,
            )[p],
    ensures
        planned(is_root, None, entries) == all_listed(is_root, entries),
        planned(is_root, Some(all_listed(is_root, entries)[p]), entries) == all_listed(
            is_root,
            entries,
        ).skip(p + 1),
        forall|name: Seq<char>|
            name != "."@ && name != ".."@ && !entry_names(entries).contains(name)
                ==> #[trigger] planned(is_root, Some(name), entries).len() == 0,
{
    reveal_strlit(".");
    reveal_strlit("..");
    assert("."@.len() == 1 && ".."@.len() == 2);
    let all = all_listed(is_root, entries);
    let names = entry_names(entries);
    let name = all[p];
    assert(planned(is_root, None, entries) =~= all) by {
        assert(names.skip(0) =~= names);
    }
    lemma_named_entry(entries, name);
    let shift = if is_root {
        0int
    } else {
        2
    };
    if p >= shift {
        let q = p - shift;
        assert(names[q] == name);
        assert(entries[q].name == name);
        let i = named_entry(entries, name)->0;
        assert(i == q) by {
            if i < q {
                assert(all[i + shift] == names[i]);
            }
        }
        assert(planned(is_root, Some(name), entries) =~= all.skip(p + 1));
    } else {
        assert(names.skip(0) =~= names);
        assert(planned(is_root, Some(name), entries) =~= all.skip(p + 1));
    }
    assert forall|n: Seq<char>|
        n != "."@ && n != ".."@ && !names.contains(n) implies #[trigger] planned(
        is_root,
        Some(n),
        entries,
    ).len() == 0 by {
        lemma_named_entry(entries, n);
        if let Some(i) = named_entry(entries, n) {
            assert(names[i] == n);
        }
    }
}

/// The attributes tell a directory from a file, and whether an entry can be changed, and nothing else.
pub proof fn law_what_attributes_tell(kind: FileKind, readonly: bool)
    ensures
        attributes_of(kind, readonly) % 2 == 1 <==> readonly,
        (attributes_of(kind, readonly) / 16) % 2 == 1 <==> kind is Dir,
        (attributes_of(kind, readonly) / 128) % 2 == 1 <==> kind is File,
        attributes_of(kind, readonly) < 256,
        (attributes_of(kind, readonly) / 2) % 8 == 0,
        (attributes_of(kind, readonly) / 32) % 4 == 0,
{
}

/// What is reported of an entry: its size and the time of its last change, whatever is asked for.
pub proof fn law_what_is_reported_to_the_system(attr: FileAttr, readonly: bool)
    ensures
        ({
            let info = info_of(attr, readonly);
            &&& info.file_size == attr.size
            &&& info.allocation_size == attr.size
            &&& info.creation_time == filetime_of(attr.mtime)
            &&& info.last_access_time == filetime_of(attr.mtime)
            &&& info.last_write_time == filetime_of(attr.mtime)
            &&& info.change_time == filetime_of(attr.mtime)
            &&& info.file_attributes % 2 == 1 <==> readonly
            &&& (info.file_attributes / 16) % 2 == 1 <==> attr.kind is Dir
        }),
{
    law_what_attributes_tell(attr.kind, readonly);
    let t = attr.mtime;
    let n = t.secs * 1_000_000_000 + t.nanos;
    assert(0 <= n % 0x1_0000_0000_0000_0000 < 0x1_0000_0000_0000_0000);
}

/// The permission bits: everybody may read, and look into directories; files are not executable; the
/// owner may write, and others where that was allowed, but nobody into a file of a read-only mount.
pub proof fn law_what_permissions_tell(kind: FileKind, readonly: bool, allow_other: bool)
    ensures
        ({
            let bits = mode_bits(kind, readonly, allow_other);
            let owner = bits / 64;
            let group = (bits / 8) % 8;
            let other = bits % 8;
            &&& bits < 512
            &&& group == other
            &&& owner / 4 == 1 && other / 4 == 1
            &&& owner % 2 == 1 <==> kind is Dir
            &&& other % 2 == 1 <==> kind is Dir
            &&& (owner / 2) % 2 == 1 <==> kind is Dir || !readonly
            &&& (other / 2) % 2 == 1 <==> allow_other && (kind is Dir || !readonly)
        }),
{
}

/// What the server reports of an entry is what the mount knows of it and of its owner.
pub proof fn law_what_the_server_reports(fs: FsView, attr: FileAttr)
    ensures
        ({
            let r = fs.nfs_attr(attr);
            &&& r.kind == attr.kind
            &&& r.fileid == attr.ino
            &&& r.size == attr.size && r.used == attr.size
            &&& r.uid == fs.uid && r.gid == fs.gid
            &&& r.nlink == 1
            &&& (r.seconds, r.nanoseconds) == time_of(attr.mtime)
            &&& (r.mode / 64) % 2 == 1 <==> attr.kind is Dir
            &&& (r.mode / 128) % 2 == 1 <==> attr.kind is Dir || !fs.readonly
            &&& (r.mode / 2) % 2 == 1 <==> fs.allow_other && (attr.kind is Dir || !fs.readonly)
            &&& r.mode == mode_bits(attr.kind, fs.readonly, fs.allow_other)
        }),
{
}

/// `.` is the directory itself, `..` the directory above it, and any other name is looked up.
pub proof fn law_dots_are_entries(fs: FsView, dir: Ino, name: Seq<char>)
    ensures
        fs.lookup_with_dots(dir, "."@) == Ok::<Ino, VfsError>(dir),
        fs.lookup_with_dots(dir, ".."@) == fs.parent_of(dir),
        name != "."@ && name != ".."@ ==> fs.lookup_with_dots(dir, name) == fs.lookup(dir, name),
{
    reveal_strlit(".");
    reveal_strlit("..");
    assert("."@.len() == 1 && ".."@.len() == 2);
}

/// The options name the port twice, for both services, and say that the mount is read-only exactly if
/// it is; what it shows may be cached then, and not otherwise.
pub proof fn law_what_mount_options_say(flag: Seq<char>, port: u16)
    ensures
        mount_options(flag, port, false) == "noac,"@ + flag + ",vers=3,tcp,port="@ + decimal(
            port as nat,
        ) + ",mountport="@ + decimal(port as nat),
        mount_options(flag, port, true) == "actimeo=30,"@ + flag + ",vers=3,tcp,port="@ + decimal(
            port as nat,
        ) + ",mountport="@ + decimal(port as nat) + ",ro"@,
{
    reveal_strlit("noac");
    reveal_strlit("noac,");
    reveal_strlit("actimeo=30");
    reveal_strlit("actimeo=30,");
    assert("noac"@.push(',') =~= "noac,"@);
    assert("actimeo=30"@.push(',') =~= "actimeo=30,"@);
    assert(mount_options(flag, port, false) =~= "noac,"@ + flag + ",vers=3,tcp,port="@ + decimal(
        port as nat,
    ) + ",mountport="@ + decimal(port as nat));
}

} // verus!
