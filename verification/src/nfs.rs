//! What the NFS server reports.
use vstd::prelude::*;

use crate::fs::MqFs;
use crate::state::FsView;
use crate::text::{chars_of, decimal, decimal_chars, push_text, same_text, string_of};
use crate::vfs::{FileAttr, FileKind, Ino, Timestamp, VfsError};

verus! {

/// The permission bits of an entry.
pub open spec fn mode_bits(kind: FileKind, readonly: bool, allow_other: bool) -> u32 {
    match kind {
        FileKind::Dir => if allow_other {
            0o777
        } else {
            0o755
        },
        FileKind::File => if readonly {
            0o444
        } else if allow_other {
            0o666
        } else {
            0o644
        },
    }
}

/// The permission bits of an entry.
pub fn mode(kind: FileKind, readonly: bool, allow_other: bool) -> (bits: u32)
    ensures
        bits == mode_bits(kind, readonly, allow_other),
{
    match kind {
        FileKind::Dir => if allow_other {
            0o777
        } else {
            0o755
        },
        FileKind::File => if readonly {
            0o444
        } else if allow_other {
            0o666
        } else {
            0o644
        },
    }
}

/// A point in time as seconds and nanoseconds since the Unix epoch; the epoch itself for a point
/// before it. Seconds are counted modulo 2^32.
pub open spec fn time_of(t: Timestamp) -> (u32, u32) {
    if t.secs < 0 {
        (0, 0)
    } else {
        ((t.secs % 0x1_0000_0000) as u32, t.nanos)
    }
}

/// A point in time as the protocol counts it.
pub fn nfs_time(t: Timestamp) -> (r: (u32, u32))
    ensures
        r == time_of(t),
{
    if t.secs < 0 {
        return (0, 0);
    }
    let secs: u64 = t.secs as u64;
    ((secs % 0x1_0000_0000) as u32, t.nanos)
}

/// What the server reports of an entry.
#[derive(Debug, Clone, Copy, PartialEq, Eq, Structural)]
pub struct NfsAttr {
    pub kind: FileKind,
    pub mode: u32,
    pub nlink: u32,
    pub uid: u32,
    pub gid: u32,
    pub size: u64,
    pub used: u64,
    pub fileid: u64,
    /// The time of the last access, of the last change of the content, and of the last change of
    /// the attributes.
    pub seconds: u32,
    pub nanoseconds: u32,
}

/// The options for mounting the server that listens on `port`.
pub open spec fn mount_options(nolock_flag: Seq<char>, port: u16, readonly: bool) -> Seq<char> {
    let cache = if readonly {
        "actimeo=30"@
    } else {
        "noac"@
    };
    let end = if readonly {
        ",ro"@
    } else {
        Seq::empty()
    };
    cache.push(',') + nolock_flag + ",vers=3,tcp,port="@ + decimal(port as nat) + ",mountport="@
        + decimal(port as nat) + end
}

/// The options for mounting the server that listens on `port`. What a read-only mount shows may be
/// cached; otherwise nothing is.
pub fn nfs_mount_opts(nolock_flag: &str, port: u16, readonly: bool) -> (opts: String)
    ensures
        opts@ == mount_options(nolock_flag@, port, readonly),
{
    let mut chars = chars_of(
        if readonly {
            "actimeo=30"
        } else {
            "noac"
        },
    );
    chars.push(',');
    push_text(&mut chars, nolock_flag);
    push_text(&mut chars, ",vers=3,tcp,port=");
    let mut digits = decimal_chars(port as u128);
    chars.append(&mut digits);
    push_text(&mut chars, ",mountport=");
    let mut digits = decimal_chars(port as u128);
    chars.append(&mut digits);
    if readonly {
        push_text(&mut chars, ",ro");
    }
    let opts = string_of(&chars);
    assert(opts@ =~= mount_options(nolock_flag@, port, readonly));
    opts
}

impl FsView {
    /// What the server reports of an entry with these attributes.
    pub open spec fn nfs_attr(self, attr: FileAttr) -> NfsAttr {
        NfsAttr {
            kind: attr.kind,
            mode: mode_bits(attr.kind, self.readonly, self.allow_other),
            nlink: 1,
            uid: self.uid,
            gid: self.gid,
            size: attr.size,
            used: attr.size,
            fileid: attr.ino,
            seconds: time_of(attr.mtime).0,
            nanoseconds: time_of(attr.mtime).1,
        }
    }

    /// The number of the entry `name` in the directory `dir`, where `.` and `..` are entries too.
    pub open spec fn lookup_with_dots(self, dir: Ino, name: Seq<char>) -> Result<Ino, VfsError> {
        if name == "."@ {
            Ok(dir)
        } else if name == ".."@ {
            self.parent_of(dir)
        } else {
            self.lookup(dir, name)
        }
    }
}

impl MqFs {
    /// What the server reports of an entry with these attributes.
    pub fn nfs_attr(&self, attr: FileAttr) -> (r: NfsAttr)
        ensures
            r == self@.nfs_attr(attr),
    {
        let (seconds, nanoseconds) = nfs_time(attr.mtime);
        NfsAttr {
            kind: attr.kind,
            mode: mode(attr.kind, self.readonly(), self.allow_other()),
            nlink: 1,
            uid: self.uid(),
            gid: self.gid(),
            size: attr.size,
            used: attr.size,
            fileid: attr.ino,
            seconds,
            nanoseconds,
        }
    }

    /// The number of the entry `name` in the directory `dir`, where `.` and `..` are entries too.
    pub fn lookup_with_dots(&self, dir: Ino, name: &str) -> (r: Result<Ino, VfsError>)
        requires
            self@.wf(),
        ensures
            r == self@.lookup_with_dots(dir, name@),
    {
        if same_text(name, ".") {
            Ok(dir)
        } else if same_text(name, "..") {
            self.parent_of(dir)
        } else {
            self.lookup(dir, name)
        }
    }
}

} // verus!
