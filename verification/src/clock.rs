//! Points in time, and what is saved when.
use vstd::prelude::*;

use crate::block::rendered;
use crate::fs::{save_plan, SavePlanView};
use crate::mount::FileView;
use crate::nfs::time_of;
use crate::state::FsView;
use crate::vfs::{Ino, Timestamp};
use crate::winfsp::{filetime_of, EPOCH_DIFF_100NS};

verus! {

/// A point in time in nanoseconds since the Unix epoch.
pub open spec fn instant(t: Timestamp) -> int {
    t.secs * 1_000_000_000 + t.nanos
}

/// Whether the nanoseconds are less than a second.
pub open spec fn proper(t: Timestamp) -> bool {
    t.nanos < 1_000_000_000
}

/// One point in time lies after another exactly if more nanoseconds have passed since the epoch.
pub proof fn law_later_is_more_nanoseconds(a: Timestamp, b: Timestamp)
    requires
        proper(a),
        proper(b),
    ensures
        a.after(b) <==> instant(a) > instant(b),
{
}

/// Of two different points in time one lies after the other, and never both; what lies after a later
/// point lies after the earlier one too; and a greater number of seconds decides.
pub proof fn law_points_in_time_are_ordered(a: Timestamp, b: Timestamp, c: Timestamp)
    ensures
        !a.after(a),
        a.after(b) ==> !b.after(a),
        a != b ==> a.after(b) || b.after(a),
        a.after(b) && b.after(c) ==> a.after(c),
        a.secs > b.secs ==> a.after(b),
        a.secs == b.secs ==> (a.after(b) <==> a.nanos > b.nanos),
{
}

/// A file whose text on disk is that of its document is left alone. Otherwise it is not written if the
/// file on disk was changed after it was last read, and in all other cases the text of the document is
/// written.
pub proof fn law_what_is_saved(f: FileView, current: Option<Timestamp>)
    requires
        f.known_mtime is Some ==> proper(f.known_mtime->0),
        current is Some ==> proper(current->0),
    ensures
        ({
            let plan = save_plan(f, current);
            let newer = f.known_mtime is Some && current is Some && instant(current->0) > instant(
                f.known_mtime->0,
            );
            &&& plan is UpToDate <==> rendered(f.document) == f.persisted
            &&& plan is Conflict <==> rendered(f.document) != f.persisted && newer
            &&& plan is Write <==> rendered(f.document) != f.persisted && !newer
            &&& plan is Write ==> plan == SavePlanView::Write(rendered(f.document))
        }),
{
}

/// Once a text was written for a file, that text and the time of the write are what the mount knows of
/// the file on disk. Nothing that the mount shows changes.
pub proof fn law_saving_changes_nothing_that_is_shown(
    fs: FsView,
    file: usize,
    text: Seq<char>,
    mtime: Option<Timestamp>,
    ino: Ino,
    name: Seq<char>,
    now: Timestamp,
)
    requires
        fs.wf(),
        file < fs.files.len(),
    ensures
        ({
            let after = fs.saved(file, text, mtime);
            let f = after.files[file as int];
            &&& f.persisted == text
            &&& f.known_mtime == mtime
            &&& f.document == fs.files[file as int].document
            &&& f.source_path == fs.files[file as int].source_path
            &&& after.files.len() == fs.files.len()
            &&& forall|i: int|
                0 <= i < fs.files.len() && i != file ==> #[trigger] after.files[i] == fs.files[i]
            &&& after.contents(ino) == fs.contents(ino)
            &&& after.lookup(ino, name) == fs.lookup(ino, name)
            &&& after.getattr(ino, now) == fs.getattr(ino, now)
            &&& after.parent_of(ino) == fs.parent_of(ino)
        }),
{
    let after = fs.saved(file, text, mtime);
    let f = fs.files[file as int];
    let g = after.files[file as int];
    assert(f.tree == g.tree && f.inodes == g.inodes && f.document == g.document);
    if fs.owner.contains_key(ino) {
        assert(fs.owner[ino] < fs.files.len());
        let i = fs.owner[ino] as int;
        assert(after.files[i].inodes == fs.files[i].inodes);
        assert(after.files[i].tree == fs.files[i].tree);
        assert(after.files[i].document == fs.files[i].document);
        if let Some((_, path)) = fs.path_for_ino(ino) {
            assert(after.files[i].bytes_for(path) == fs.files[i].bytes_for(path));
            assert(after.files[i].attr_for(ino, path, now) == fs.files[i].attr_for(ino, path, now));
            if let crate::inode::PathView::Dir(p) = path {
                assert(after.files[i].child_section(p, name) == fs.files[i].child_section(p, name));
            }
        }
    }
}

/// A point in time that the protocol can express is handed over as it is, and one before the epoch as
/// the epoch.
pub proof fn law_times_are_handed_over(t: Timestamp)
    ensures
        0 <= t.secs < 0x1_0000_0000 ==> time_of(t).0 == t.secs && time_of(t).1 == t.nanos,
        t.secs < 0 ==> time_of(t) == (0u32, 0u32),
{
}

/// The seconds go round once they do not fit.
pub proof fn law_seconds_go_round(t: Timestamp, later: Timestamp)
    requires
        0 <= t.secs,
        later.secs == t.secs + 0x1_0000_0000,
        later.nanos == t.nanos,
    ensures
        time_of(later) == time_of(t),
{
}

/// The time that is reported counts the units of 100 ns since 1601-01-01 that have passed; 134774 days
/// lie between then and the epoch. A point before the epoch counts as the epoch.
pub proof fn law_file_times_count_from_1601(t: Timestamp)
    requires
        instant(t) < 0x1_0000_0000_0000_0000,
    ensures
        t.secs < 0 ==> filetime_of(t) == 134_774 * 86_400 * 10_000_000,
        t.secs >= 0 ==> {
            let since = filetime_of(t) - 134_774 * 86_400 * 10_000_000;
            since * 100 <= instant(t) < (since + 1) * 100
        },
{
    assert(EPOCH_DIFF_100NS == 134_774 * 86_400 * 10_000_000);
    if t.secs >= 0 {
        let n = instant(t);
        assert(n % 0x1_0000_0000_0000_0000 == n) by (nonlinear_arith)
            requires
                0 <= n < 0x1_0000_0000_0000_0000,
        ;
    }
}

/// A later point in time is not reported as an earlier one.
pub proof fn law_file_times_keep_the_order(a: Timestamp, b: Timestamp)
    requires
        instant(a) <= instant(b) < 0x1_0000_0000_0000_0000,
        proper(a),
        proper(b),
    ensures
        filetime_of(a) <= filetime_of(b),
{
    law_file_times_count_from_1601(a);
    law_file_times_count_from_1601(b);
}

} // verus!
