//! What reading and writing does to files, byte by byte.
use vstd::prelude::*;
use vstd::utf8::{decode_utf8, encode_utf8, valid_utf8};

use crate::block::parsed;
use crate::bytes::{lossy_text, spliced, text_of, window};
use crate::inode::PathView;
use crate::mount::lemma_section_in_bounds;
use crate::reading::law_front_matter_gives_back_what_was_written;
use crate::section::FrontMatterKind;
use crate::shifting::{contents, law_splice_keeps_all_other_blocks};
use crate::state::{FsView, NextView, Reply, StepView};
use crate::vfs::{FileAttr, FileKind, Ino, Timestamp, VfsError};

verus! {

/// Whether `after` is what a file that held `before` holds once `data` was written at `offset`: the
/// data stands there, every other byte that there was stays, and a gap is filled with zeros.
pub open spec fn overwritten(before: Seq<u8>, offset: int, data: Seq<u8>, after: Seq<u8>) -> bool {
    &&& after.len() >= before.len()
    &&& after.len() >= offset + data.len()
    &&& after.len() == before.len() || after.len() == offset + data.len()
    &&& forall|i: int| 0 <= i < data.len() ==> after[offset + i] == #[trigger] data[i]
    &&& forall|i: int|
        0 <= i < before.len() && (i < offset || i >= offset + data.len()) ==> #[trigger] after[i]
            == before[i]
    &&& forall|i: int| before.len() <= i < offset ==> #[trigger] after[i] == 0
}

/// A write puts the data at its offset, leaves every other byte as it was, and fills a gap with zeros;
/// the file ends where it ended, or behind the data.
pub proof fn law_written_bytes(buf: Seq<u8>, offset: int, data: Seq<u8>)
    requires
        0 <= offset,
    ensures
        ({
            let r = spliced(buf, offset, data);
            let end = offset + data.len();
            &&& r.len() == (if buf.len() < end {
                end
            } else {
                buf.len() as int
            })
            &&& r.subrange(offset, end) == data
            &&& forall|i: int|
                0 <= i < buf.len() && !(offset <= i < end) ==> #[trigger] r[i] == buf[i]
            &&& forall|i: int|
                buf.len() <= i < r.len() && !(offset <= i < end) ==> #[trigger] r[i] == 0
        }),
        overwritten(buf, offset, data, spliced(buf, offset, data)),
{
    let r = spliced(buf, offset, data);
    assert(r.subrange(offset, offset + data.len()) =~= data);
    assert forall|i: int| 0 <= i < data.len() implies r[offset + i] == #[trigger] data[i] by {}
}

/// A write leaves nothing open: what a file holds afterwards follows from what it held, where the data
/// went and what it was.
pub proof fn law_a_write_has_one_outcome(
    before: Seq<u8>,
    offset: int,
    data: Seq<u8>,
    a: Seq<u8>,
    b: Seq<u8>,
)
    requires
        0 <= offset,
        overwritten(before, offset, data, a),
        overwritten(before, offset, data, b),
    ensures
        a == b,
{
    assert forall|i: int| 0 <= i < a.len() implies a[i] == b[i] by {
        if offset <= i < offset + data.len() {
            assert(data[i - offset] == a[offset + (i - offset)]);
        }
    }
    assert(a =~= b);
}

/// Two writes one behind the other are one write of all the data.
pub proof fn law_adjoining_writes_are_one(buf: Seq<u8>, offset: int, first: Seq<u8>, second: Seq<u8>)
    requires
        0 <= offset,
    ensures
        spliced(spliced(buf, offset, first), offset + first.len(), second) == spliced(
            buf,
            offset,
            first + second,
        ),
{
    let a = spliced(spliced(buf, offset, first), offset + first.len(), second);
    let b = spliced(buf, offset, first + second);
    assert(a.len() == b.len());
    assert forall|i: int| 0 <= i < a.len() implies a[i] == b[i] by {}
    assert(a =~= b);
}

/// What is read of a file from `offset` on are its bytes there, as many as were asked for or as there
/// are, and the end is reported where nothing is left behind them.
pub proof fn law_read_gives_the_bytes_there(fs: FsView, ino: Ino, offset: int, count: int)
    requires
        0 <= offset,
        0 <= count,
    ensures
        match fs.contents(ino) {
            Ok(b) => {
                let until = if offset + count < b.len() {
                    offset + count
                } else {
                    b.len() as int
                };
                let r = fs.read(ino, offset, count);
                &&& r is Ok
                &&& offset <= b.len() ==> (r->Ok_0).0 == b.subrange(offset, until)
                &&& offset > b.len() ==> (r->Ok_0).0.len() == 0
                &&& (r->Ok_0).1 <==> offset + count >= b.len()
                &&& forall|i: int|
                    0 <= i < (r->Ok_0).0.len() ==> offset + i < b.len() && #[trigger] (r->Ok_0).0[i]
                        == b[offset + i]
            },
            Err(e) => fs.read(ino, offset, count) == Err::<(Seq<u8>, bool), VfsError>(e),
        },
{
    if let Ok(b) = fs.contents(ino) {
        let (p, end) = window(b, offset, count);
        if offset <= b.len() {
            if offset + count < b.len() {
                assert(p =~= b.subrange(offset, offset + count));
            } else {
                assert(p =~= b.subrange(offset, b.len() as int));
            }
        }
    }
}

/// What a client has that reads a file from `offset` on in pieces of at most `count` bytes, one behind
/// the other, until the end is reported.
pub open spec fn read_on(fs: FsView, ino: Ino, offset: int, count: int, pieces: nat) -> Seq<u8>
    decreases pieces,
{
    if pieces == 0 {
        Seq::empty()
    } else {
        match fs.read(ino, offset, count) {
            Err(_) => Seq::empty(),
            Ok((piece, end)) => if end {
                piece
            } else {
                piece + read_on(fs, ino, offset + piece.len(), count, (pieces - 1) as nat)
            },
        }
    }
}

proof fn lemma_pieces(fs: FsView, ino: Ino, offset: int, count: int, pieces: nat)
    requires
        count > 0,
        fs.contents(ino) is Ok,
        0 <= offset <= (fs.contents(ino)->Ok_0).len(),
        pieces > (fs.contents(ino)->Ok_0).len() - offset,
    ensures
        read_on(fs, ino, offset, count, pieces) == (fs.contents(ino)->Ok_0).skip(offset),
    decreases pieces,
{
    let b = fs.contents(ino)->Ok_0;
    law_read_gives_the_bytes_there(fs, ino, offset, count);
    let (piece, end) = fs.read(ino, offset, count)->Ok_0;
    if !end {
        lemma_pieces(fs, ino, offset + count, count, (pieces - 1) as nat);
        assert(piece + b.skip(offset + count) =~= b.skip(offset));
    } else {
        assert(piece =~= b.skip(offset));
    }
}

/// Pieces of a file that are read one behind the other make up the whole file, whatever their size.
pub proof fn law_pieces_make_up_the_file(fs: FsView, ino: Ino, count: int)
    requires
        count > 0,
        fs.contents(ino) is Ok,
    ensures
        read_on(fs, ino, 0, count, (fs.contents(ino)->Ok_0).len() + 1) == fs.contents(ino)->Ok_0,
{
    let b = fs.contents(ino)->Ok_0;
    lemma_pieces(fs, ino, 0, count, b.len() + 1);
    assert(b.skip(0) =~= b);
}

/// A write into a buffer puts the data at its offset and nowhere else, and is answered with how long
/// the buffer is then. Nothing else changes.
pub proof fn law_buffer_takes_what_is_written(
    fs: FsView,
    ino: Ino,
    offset: int,
    data: Seq<u8>,
    now: Timestamp,
)
    requires
        !fs.readonly,
        fs.scratch.contains_key(ino),
        0 <= offset,
    ensures
        ({
            let (after, step) = fs.write(ino, offset, data, now);
            let b = after.contents(ino)->Ok_0;
            &&& after.contents(ino) is Ok
            &&& overwritten(fs.contents(ino)->Ok_0, offset, data, b)
            &&& after.read(ino, offset, data.len() as int) == Ok::<(Seq<u8>, bool), VfsError>(
                (data, b.len() == offset + data.len()),
            )
            &&& step == StepView::Finished(
                Ok(
                    Reply::Attr(
                        FileAttr { ino, kind: FileKind::File, size: b.len() as u64, mtime: now },
                    ),
                ),
            )
            &&& after.files == fs.files && after.names == fs.names && after.dirs == fs.dirs
            &&& after.scratch.dom() == fs.scratch.dom()
            &&& forall|x: Ino|
                x != ino && fs.scratch.contains_key(x) ==> #[trigger] after.scratch[x]
                    == fs.scratch[x]
        }),
{
    law_written_bytes(fs.scratch[ino], offset, data);
    let (after, step) = fs.write(ino, offset, data, now);
    law_read_gives_the_bytes_there(after, ino, offset, data.len() as int);
    assert(after.scratch.dom() =~= fs.scratch.dom());
}

/// A write into a `content.md` parses what the file holds once the data is written. If that is not
/// Markdown the write is refused and changes nothing. Otherwise its blocks take the place of the
/// section's own content, and every other block of the document stays in its place.
pub proof fn law_content_takes_what_is_written(
    fs: FsView,
    ino: Ino,
    file: usize,
    path: Seq<Seq<char>>,
    offset: int,
    data: Seq<u8>,
    bytes: Seq<u8>,
    now: Timestamp,
)
    requires
        fs.wf(),
        !fs.readonly,
        !fs.scratch.contains_key(ino),
        fs.path_for_ino(ino) == Some((file, PathView::Content(path))),
        fs.files[file as int].section(path) is Some,
        0 <= offset,
        overwritten(fs.contents(ino)->Ok_0, offset, data, bytes),
    ensures
        ({
            let f = fs.files[file as int];
            let s = f.section(path)->0;
            let (after, step) = fs.write(ino, offset, data, now);
            let new = parsed(
                if valid_utf8(bytes) {
                    decode_utf8(bytes)
                } else {
                    lossy_text(bytes)
                },
            );
            match new {
                Err(_) => after == fs && step == StepView::Finished(Err(VfsError::Invalid)),
                Ok(blocks) => {
                    &&& step == (StepView::Save {
                        file,
                        next: NextView::Attr { ino, entry: PathView::Content(path) },
                    })
                    &&& contents(after.files[file as int].document) == contents(
                        f.document.take(s.start),
                    ) + contents(blocks) + contents(f.document.skip(s.end))
                },
            }
        }),
{
    let f = fs.files[file as int];
    assert(fs.owner[ino] < fs.files.len());
    law_written_bytes(f.section_bytes(path), offset, data);
    law_a_write_has_one_outcome(
        f.section_bytes(path),
        offset,
        data,
        bytes,
        spliced(f.section_bytes(path), offset, data),
    );
    lemma_section_in_bounds(f, path);
    let s = f.section(path)->0;
    if let Ok(blocks) = parsed(text_of(bytes)) {
        law_splice_keeps_all_other_blocks(f.document, s.start, s.end, blocks);
    }
}

/// A write into the front matter file leaves it with the data at its offset and everything else as it
/// was, if that is UTF-8; otherwise with the text that is made of it.
pub proof fn law_front_matter_takes_what_is_written(
    fs: FsView,
    ino: Ino,
    file: usize,
    kind: FrontMatterKind,
    offset: int,
    data: Seq<u8>,
    bytes: Seq<u8>,
    now: Timestamp,
)
    requires
        fs.wf(),
        !fs.readonly,
        !fs.scratch.contains_key(ino),
        fs.path_for_ino(ino) == Some((file, PathView::FrontMatter(kind))),
        0 <= offset,
        overwritten(fs.contents(ino)->Ok_0, offset, data, bytes),
    ensures
        ({
            let (after, step) = fs.write(ino, offset, data, now);
            &&& step is Save
            &&& valid_utf8(bytes) ==> after.contents(ino) == Ok::<Seq<u8>, VfsError>(bytes)
            &&& !valid_utf8(bytes) ==> after.contents(ino) == Ok::<Seq<u8>, VfsError>(
                encode_utf8(lossy_text(bytes)),
            )
        }),
{
    let f = fs.files[file as int];
    assert(fs.owner[ino] < fs.files.len());
    law_written_bytes(f.frontmatter_bytes(kind), offset, data);
    law_a_write_has_one_outcome(
        f.frontmatter_bytes(kind),
        offset,
        data,
        bytes,
        spliced(f.frontmatter_bytes(kind), offset, data),
    );
    law_front_matter_gives_back_what_was_written(fs, ino, file, kind, offset, data, now);
}

} // verus!
