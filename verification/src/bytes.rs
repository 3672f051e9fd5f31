//! File contents as bytes.
use vstd::prelude::*;
use vstd::slice::slice_to_vec;
use vstd::utf8::{decode_utf8, valid_utf8};

verus! {

/// `String::from_utf8`: the text that `bytes` encodes, if it is UTF-8.
#[verifier::external_body]
pub(crate) fn utf8_text(bytes: Vec<u8>) -> (text: Option<String>)
    ensures
        match text {
            Some(s) => valid_utf8(bytes@) && s@ == decode_utf8(bytes@),
            None => !valid_utf8(bytes@),
        },
{
    String::from_utf8(bytes).ok()
}

/// The text that `String::from_utf8_lossy` makes of bytes.
pub uninterp spec fn lossy_text(bytes: Seq<u8>) -> Seq<char>;

/// `String::from_utf8_lossy`: the text that `bytes` encodes, with replacement characters for what is
/// not UTF-8. It depends on `bytes` alone and is called [`lossy_text`].
#[verifier::external_body]
fn lossy_utf8_text(bytes: &[u8]) -> (text: String)
    ensures
        text@ == lossy_text(bytes@),
{
    String::from_utf8_lossy(bytes).into_owned()
}

/// The text of a file: decoded where that is possible.
pub open spec fn text_of(bytes: Seq<u8>) -> Seq<char> {
    if valid_utf8(bytes) {
        decode_utf8(bytes)
    } else {
        lossy_text(bytes)
    }
}

/// Decodes a file.
pub fn to_text_lossy(buf: Vec<u8>) -> (text: String)
    ensures
        text@ == text_of(buf@),
{
    let copy = slice_to_vec(&buf);
    match utf8_text(copy) {
        Some(text) => text,
        None => lossy_utf8_text(&buf),
    }
}

/// `buf` with `data` written at `offset`. A gap before `offset` is filled with zeros.
pub open spec fn spliced(buf: Seq<u8>, offset: int, data: Seq<u8>) -> Seq<u8> {
    let end = offset + data.len();
    Seq::new(
        if end > buf.len() {
            end as nat
        } else {
            buf.len()
        },
        |i: int|
            if offset <= i < end {
                data[i - offset]
            } else if i < buf.len() {
                buf[i]
            } else {
                0
            },
    )
}

/// Writes `data` into `buf` at `offset`.
pub fn splice(buf: &mut Vec<u8>, offset: usize, data: &[u8])
    requires
        offset + data@.len() <= usize::MAX,
    ensures
        final(buf)@ == spliced(old(buf)@, offset as int, data@),
{
    let ghost before = buf@;
    let end = offset + data.len();
    if end > buf.len() {
        buf.resize(end, 0);
    }
    let ghost padded = buf@;
    let mut i: usize = 0;
    while i < data.len()
        invariant
            i <= data@.len(),
            end == offset + data@.len(),
            end <= buf@.len(),
            buf@.len() == padded.len(),
            forall|j: int|
                0 <= j < padded.len() ==> #[trigger] buf@[j] == (if offset <= j < offset + i {
                    data@[j - offset]
                } else {
                    padded[j]
                }),
        decreases data@.len() - i,
    {
        buf.set(offset + i, data[i]);
        i += 1;
    }
    assert(buf@ =~= spliced(before, offset as int, data@));
}

/// What is read of `bytes` from `offset` on, at most `count` of them, and whether the end is
/// reached.
pub open spec fn window(bytes: Seq<u8>, offset: int, count: int) -> (Seq<u8>, bool) {
    if offset >= bytes.len() {
        (Seq::empty(), true)
    } else if offset + count >= bytes.len() {
        (bytes.skip(offset), true)
    } else {
        (bytes.subrange(offset, offset + count), false)
    }
}

/// Reads at most `count` of `bytes` from `offset` on, and tells whether the end is reached.
pub fn read_window(bytes: &[u8], offset: usize, count: usize) -> (r: (Vec<u8>, bool))
    ensures
        (r.0@, r.1) == window(bytes@, offset as int, count as int),
{
    if offset >= bytes.len() {
        return (Vec::new(), true);
    }
    let rest = bytes.len() - offset;
    let end = if count < rest {
        offset + count
    } else {
        bytes.len()
    };
    let part = slice_to_vec(&bytes[offset..end]);
    (part, end >= bytes.len())
}

} // verus!
