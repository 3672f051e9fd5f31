//! The terms in which a mount speaks of its files, whatever protocol it is reached by.
use vstd::prelude::*;

use crate::fs::{MqFs, Step};
use crate::inode::ROOT_INO;
use crate::model::views;
use crate::state::FsView;

verus! {

/// An inode number.
pub type Ino = u64;

/// What an entry is.
#[derive(Debug, Clone, Copy, PartialEq, Eq, Structural)]
pub enum FileKind {
    Dir,
    File,
}

/// A point in time: seconds since the Unix epoch, which may be negative, and nanoseconds from there.
#[derive(Debug, Clone, Copy, PartialEq, Eq, Structural)]
pub struct Timestamp {
    pub secs: i64,
    pub nanos: u32,
}

impl Timestamp {
    /// Whether this point lies after `other`.
    pub open spec fn after(self, other: Timestamp) -> bool {
        self.secs > other.secs || (self.secs == other.secs && self.nanos > other.nanos)
    }

    /// Whether this point lies after `other`.
    pub fn is_after(self, other: Timestamp) -> (r: bool)
        ensures
            r == self.after(other),
    {
        self.secs > other.secs || (self.secs == other.secs && self.nanos > other.nanos)
    }
}

/// The attributes of an entry.
#[derive(Debug, Clone, Copy, PartialEq, Eq, Structural)]
pub struct FileAttr {
    pub ino: Ino,
    pub kind: FileKind,
    pub size: u64,
    pub mtime: Timestamp,
}

/// An entry of a directory.
#[derive(Debug)]
pub struct DirEntryOwned {
    pub ino: Ino,
    pub name: String,
    pub attr: FileAttr,
}

/// The mathematical value of a [`DirEntryOwned`].
pub struct DirEntryView {
    pub ino: Ino,
    pub name: Seq<char>,
    pub attr: FileAttr,
}

impl View for DirEntryOwned {
    type V = DirEntryView;

    open spec fn view(&self) -> DirEntryView {
        DirEntryView { ino: self.ino, name: self.name@, attr: self.attr }
    }
}

impl Clone for DirEntryOwned {
    fn clone(&self) -> (r: DirEntryOwned)
        ensures
            r@ == self@,
    {
        DirEntryOwned { ino: self.ino, name: self.name.clone(), attr: self.attr }
    }
}

/// Why a request was refused.
#[derive(Debug, Clone, Copy, PartialEq, Eq, Structural)]
pub enum VfsError {
    NotFound,
    NotDir,
    IsDir,
    Exists,
    NotEmpty,
    ReadOnly,
    PermissionDenied,
    Unsupported,
    Invalid,
    Io,
    /// The source file changed on disk outside the mount since it was last read; it was not
    /// overwritten.
    Conflict,
}

/// A tree of directories and files, addressed by inode numbers. `.` and `..` are not looked up: for
/// `..` there is [`MountFs::parent_of`]. A request that changes something takes the present time,
/// and may have to wait for a file to be saved.
pub trait MountFs: Send + Sync {
    /// What is mounted.
    spec fn state(&self) -> FsView;

    /// The number of the root directory.
    fn root_ino(&self) -> (ino: Ino)
        ensures
            ino == ROOT_INO,
    ;

    /// Whether nothing may be changed.
    fn readonly(&self) -> (r: bool)
        ensures
            r == self.state().readonly,
    ;

    /// Whether permission bits are loosened for other local users.
    fn allow_other(&self) -> (r: bool)
        ensures
            r == self.state().allow_other,
    ;

    /// The user who owns all entries.
    fn uid(&self) -> (r: u32)
        ensures
            r == self.state().uid,
    ;

    /// The group that owns all entries.
    fn gid(&self) -> (r: u32)
        ensures
            r == self.state().gid,
    ;

    /// The number of the entry `name` in the directory `parent`.
    fn lookup(&self, parent: Ino, name: &str) -> (r: Result<Ino, VfsError>)
        requires
            self.state().wf(),
        ensures
            r == self.state().lookup(parent, name@),
    ;

    /// The directory in which the directory `ino` is.
    fn parent_of(&self, ino: Ino) -> (r: Result<Ino, VfsError>)
        requires
            self.state().wf(),
        ensures
            r == self.state().parent_of(ino),
    ;

    /// The attributes of an entry.
    fn getattr(&self, ino: Ino, now: Timestamp) -> (r: Result<FileAttr, VfsError>)
        requires
            self.state().wf(),
        ensures
            r == self.state().getattr(ino, now),
    ;

    /// Empties a file.
    fn truncate(&mut self, ino: Ino, now: Timestamp) -> (step: Step)
        requires
            old(self).state().wf(),
        ensures
            final(self).state().wf(),
            (final(self).state(), step@) == old(self).state().truncate(ino, now),
    ;

    /// Reads at most `count` bytes of a file from `offset` on, and tells whether the end is reached.
    fn read(&self, ino: Ino, offset: u64, count: u32) -> (r: Result<(Vec<u8>, bool), VfsError>)
        requires
            self.state().wf(),
        ensures
            match self.state().read(ino, (offset as usize) as int, (count as usize) as int) {
                Ok((bytes, end)) => r is Ok && (r->Ok_0).0@ == bytes && (r->Ok_0).1 == end,
                Err(e) => r == Err::<(Vec<u8>, bool), VfsError>(e),
            },
    ;

    /// Overwrites the bytes of a file from `offset` on.
    fn write(&mut self, ino: Ino, offset: u64, data: &[u8], now: Timestamp) -> (step: Step)
        requires
            old(self).state().wf(),
            !old(self).state().readonly && old(self).state().contents(ino) is Ok ==> (offset as usize)
                + data@.len() <= usize::MAX,
        ensures
            final(self).state().wf(),
            (final(self).state(), step@) == old(self).state().write(
                ino,
                (offset as usize) as int,
                data@,
                now,
            ),
    ;

    /// The file `name` in the directory `parent`, which is made if need be.
    fn create(&mut self, parent: Ino, name: &str, now: Timestamp) -> (r: Result<(Ino, FileAttr), VfsError>)
        requires
            old(self).state().wf(),
        ensures
            final(self).state().wf(),
            (final(self).state(), r) == old(self).state().create(parent, name@, now),
    ;

    /// Makes a file that is not there yet.
    fn create_exclusive(&mut self, parent: Ino, name: &str) -> (r: Result<Ino, VfsError>)
        requires
            old(self).state().wf(),
        ensures
            final(self).state().wf(),
            (final(self).state(), r) == old(self).state().create_exclusive(parent, name@),
    ;

    /// Makes a directory.
    fn mkdir(&mut self, parent: Ino, name: &str, now: Timestamp) -> (step: Step)
        requires
            old(self).state().wf(),
        ensures
            final(self).state().wf(),
            (final(self).state(), step@) == old(self).state().mkdir(parent, name@, now),
    ;

    /// Removes an entry.
    fn remove(&mut self, parent: Ino, name: &str, now: Timestamp) -> (step: Step)
        requires
            old(self).state().wf(),
        ensures
            final(self).state().wf(),
            (final(self).state(), step@) == old(self).state().remove(parent, name@, now),
    ;

    /// Renames or moves an entry.
    fn rename(
        &mut self,
        from_parent: Ino,
        from_name: &str,
        to_parent: Ino,
        to_name: &str,
        now: Timestamp,
    ) -> (step: Step)
        requires
            old(self).state().wf(),
        ensures
            final(self).state().wf(),
            (final(self).state(), step@) == old(self).state().rename(
                from_parent,
                from_name@,
                to_parent,
                to_name@,
                now,
            ),
    ;

    /// A page of at most `max_entries` entries, but of at least one, of a directory, behind the entry
    /// `start_after`, and whether it is the last one. 0 stands for the start.
    fn readdir(
        &self,
        ino: Ino,
        start_after: Ino,
        max_entries: usize,
        now: Timestamp,
    ) -> (r: Result<(Vec<DirEntryOwned>, bool), VfsError>)
        requires
            self.state().wf(),
        ensures
            match self.state().readdir(ino, start_after, max_entries as nat, now) {
                Ok((entries, end)) => r is Ok && views((r->Ok_0).0@) == entries && (r->Ok_0).1
                    == end,
                Err(e) => r == Err::<(Vec<DirEntryOwned>, bool), VfsError>(e),
            },
    ;
}

impl MountFs for MqFs {
    open spec fn state(&self) -> FsView {
        self@
    }

    fn root_ino(&self) -> (ino: Ino) {
        MqFs::root_ino(self)
    }

    fn readonly(&self) -> (r: bool) {
        MqFs::readonly(self)
    }

    fn allow_other(&self) -> (r: bool) {
        MqFs::allow_other(self)
    }

    fn uid(&self) -> (r: u32) {
        MqFs::uid(self)
    }

    fn gid(&self) -> (r: u32) {
        MqFs::gid(self)
    }

    fn lookup(&self, parent: Ino, name: &str) -> (r: Result<Ino, VfsError>) {
        MqFs::lookup(self, parent, name)
    }

    fn parent_of(&self, ino: Ino) -> (r: Result<Ino, VfsError>) {
        MqFs::parent_of(self, ino)
    }

    fn getattr(&self, ino: Ino, now: Timestamp) -> (r: Result<FileAttr, VfsError>) {
        MqFs::getattr(self, ino, now)
    }

    fn truncate(&mut self, ino: Ino, now: Timestamp) -> (step: Step) {
        MqFs::truncate(self, ino, now)
    }

    fn read(&self, ino: Ino, offset: u64, count: u32) -> (r: Result<(Vec<u8>, bool), VfsError>) {
        MqFs::read(self, ino, offset, count)
    }

    fn write(&mut self, ino: Ino, offset: u64, data: &[u8], now: Timestamp) -> (step: Step) {
        MqFs::write(self, ino, offset, data, now)
    }

    fn create(&mut self, parent: Ino, name: &str, now: Timestamp) -> (r: Result<(Ino, FileAttr), VfsError>) {
        MqFs::create(self, parent, name, now)
    }

    fn create_exclusive(&mut self, parent: Ino, name: &str) -> (r: Result<Ino, VfsError>) {
        MqFs::create_exclusive(self, parent, name)
    }

    fn mkdir(&mut self, parent: Ino, name: &str, now: Timestamp) -> (step: Step) {
        MqFs::mkdir(self, parent, name, now)
    }

    fn remove(&mut self, parent: Ino, name: &str, now: Timestamp) -> (step: Step) {
        MqFs::remove(self, parent, name, now)
    }

    fn rename(
        &mut self,
        from_parent: Ino,
        from_name: &str,
        to_parent: Ino,
        to_name: &str,
        now: Timestamp,
    ) -> (step: Step) {
        MqFs::rename(self, from_parent, from_name, to_parent, to_name, now)
    }

    fn readdir(
        &self,
        ino: Ino,
        start_after: Ino,
        max_entries: usize,
        now: Timestamp,
    ) -> (r: Result<(Vec<DirEntryOwned>, bool), VfsError>) {
        MqFs::readdir(self, ino, start_after, max_entries, now)
    }
}

} // verus!
