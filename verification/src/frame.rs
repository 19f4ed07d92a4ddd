//! Frames and the walk over a buffer of frames.
//!
//! A frame is the archived bytes of one document followed by a footer of
//! eight bytes: the CRC-32 of those bytes, then their number, both as
//! little-endian `u32`. Frames follow each other with nothing in between.
//! Since the footer closes a frame, a buffer is walked from its end: the
//! footer just before the cursor tells where its frame begins, and that is
//! where the frame before it ends.

use crate::checksum::{checksum, crc32, lemma_one_byte_changes_crc32};
use vstd::bytes::{
    lemma_auto_spec_u32_to_from_le_bytes, spec_u32_from_le_bytes, spec_u32_to_le_bytes,
    u32_from_le_bytes, u32_to_le_bytes,
};
use vstd::prelude::*;
use vstd::slice::slice_subrange;

verus! {

/// Size in bytes of the footer that closes every frame.
pub const FOOTER_SIZE: usize = 8;

/// The largest number of data bytes that a footer can declare.
pub const MAX_FRAME_LEN: usize = 0xFFFF_FFFF;

/// Why bytes could not be decoded.
#[derive(Clone, Copy, Debug, PartialEq, Eq, Structural)]
pub enum DecodeError {
    /// The data bytes of a frame do not have the checksum that its footer
    /// declares.
    ChecksumMismatch { expected: u32, actual: u32 },
    /// Fewer bytes are at hand than a frame or a document record needs.
    Truncated,
    /// A value record carries a tag that names no kind of value.
    MalformedTag { tag: u8 },
    /// A stored offset or length leads outside the bytes that lie before
    /// the record that holds it.
    OutOfBounds,
    /// The bytes of a text are not well-formed UTF-8.
    InvalidUtf8,
}

/// What a decode error says, in a few words.
pub open spec fn decode_message(e: DecodeError) -> Seq<char> {
    match e {
        DecodeError::ChecksumMismatch { .. } => "checksum mismatch"@,
        DecodeError::Truncated => "truncated frame"@,
        DecodeError::MalformedTag { .. } => "malformed variant tag"@,
        DecodeError::OutOfBounds => "offset out of bounds"@,
        DecodeError::InvalidUtf8 => "text is not UTF-8"@,
    }
}

impl DecodeError {
    /// What the error says, in a few words.
    pub fn message(&self) -> (r: &'static str)
        ensures
            r@ == decode_message(*self),
    {
        match self {
            DecodeError::ChecksumMismatch { .. } => "checksum mismatch",
            DecodeError::Truncated => "truncated frame",
            DecodeError::MalformedTag { .. } => "malformed variant tag",
            DecodeError::OutOfBounds => "offset out of bounds",
            DecodeError::InvalidUtf8 => "text is not UTF-8",
        }
    }

    /// What the error says, as an owned string.
    pub fn to_string(&self) -> (r: String)
        ensures
            r@ == decode_message(*self),
    {
        self.message().to_owned()
    }
}

/// The footer of a frame whose data bytes are `data`.
pub open spec fn footer_of(data: Seq<u8>) -> Seq<u8>
    recommends
        data.len() <= MAX_FRAME_LEN,
{
    spec_u32_to_le_bytes(crc32(data)) + spec_u32_to_le_bytes(data.len() as u32)
}

/// The frame whose data bytes are `data`.
pub open spec fn frame_of(data: Seq<u8>) -> Seq<u8>
    recommends
        data.len() <= MAX_FRAME_LEN,
{
    data + footer_of(data)
}

/// The checksum that the footer ending at `end` declares.
pub open spec fn stored_checksum(buffer: Seq<u8>, end: int) -> u32
    recommends
        8 <= end <= buffer.len(),
{
    spec_u32_from_le_bytes(buffer.subrange(end - 8, end - 4))
}

/// The number of data bytes that the footer ending at `end` declares.
pub open spec fn stored_len(buffer: Seq<u8>, end: int) -> int
    recommends
        8 <= end <= buffer.len(),
{
    spec_u32_from_le_bytes(buffer.subrange(end - 4, end)) as int
}

/// No whole frame ends at `end`: there is no room for a footer, or the
/// footer declares more data bytes than lie before it.
pub open spec fn truncated_at(buffer: Seq<u8>, end: int) -> bool {
    end < 8 || stored_len(buffer, end) + 8 > end
}

/// Where the frame that ends at `end` begins.
pub open spec fn frame_start(buffer: Seq<u8>, end: int) -> int
    recommends
        !truncated_at(buffer, end),
{
    end - 8 - stored_len(buffer, end)
}

/// The data bytes of the frame that ends at `end`.
pub open spec fn frame_data(buffer: Seq<u8>, end: int) -> Seq<u8>
    recommends
        !truncated_at(buffer, end),
{
    buffer.subrange(frame_start(buffer, end), end - 8)
}

/// The data bytes of the frame that ends at `end` have the checksum that
/// its footer declares.
pub open spec fn intact_at(buffer: Seq<u8>, end: int) -> bool
    recommends
        !truncated_at(buffer, end),
{
    crc32(frame_data(buffer, end)) == stored_checksum(buffer, end)
}

/// What one step of the walk finds at `end`: nothing at the start of the
/// buffer, else a truncation, a checksum mismatch, or the data bytes of a
/// frame.
pub open spec fn step_result(buffer: Seq<u8>, end: int) -> Option<Result<Seq<u8>, DecodeError>> {
    if end <= 0 {
        None
    } else if truncated_at(buffer, end) {
        Some(Err(DecodeError::Truncated))
    } else if !intact_at(buffer, end) {
        Some(
            Err(
                DecodeError::ChecksumMismatch {
                    expected: stored_checksum(buffer, end),
                    actual: crc32(frame_data(buffer, end)),
                },
            ),
        )
    } else {
        Some(Ok(frame_data(buffer, end)))
    }
}

/// Where the walk stands after one step from `end`: at the start of the
/// frame it found, whether or not that frame is intact, and at the start
/// of the buffer when no frame boundary can be found.
pub open spec fn step_cursor(buffer: Seq<u8>, end: int) -> int {
    if end <= 0 || truncated_at(buffer, end) {
        0
    } else {
        frame_start(buffer, end)
    }
}

/// The ends of the frames that lie before `end`, first frame first. The
/// walk finds them last frame first; it stops at the start of the buffer
/// or where no further frame boundary can be found.
pub open spec fn frame_ends(buffer: Seq<u8>, end: int) -> Seq<int>
    decreases end,
{
    if end <= 0 || truncated_at(buffer, end) {
        Seq::empty()
    } else {
        frame_ends(buffer, frame_start(buffer, end)).push(end)
    }
}

/// The number of leading bytes before `end` that belong to no frame: zero
/// when the frames fill the buffer from its start.
pub open spec fn unframed_len(buffer: Seq<u8>, end: int) -> int
    decreases end,
{
    if end <= 0 {
        0
    } else if truncated_at(buffer, end) {
        end
    } else {
        unframed_len(buffer, frame_start(buffer, end))
    }
}

/// The frames made of each of `datas` in turn, one after the other.
pub open spec fn concat_frames(datas: Seq<Seq<u8>>) -> Seq<u8>
    decreases datas.len(),
{
    if datas.len() == 0 {
        Seq::empty()
    } else {
        concat_frames(datas.drop_last()) + frame_of(datas.last())
    }
}

/// The sum of `data.len() + 8` over `datas`.
pub open spec fn framed_len(datas: Seq<Seq<u8>>) -> int
    decreases datas.len(),
{
    if datas.len() == 0 {
        0
    } else {
        framed_len(datas.drop_last()) + datas.last().len() + 8
    }
}

/// A footer is read back as written: behind any prefix, the frame of
/// `data` ends with a footer that declares the length and the checksum of
/// `data`, and the data bytes it delimits are `data`.
pub proof fn lemma_frame_read_back(prefix: Seq<u8>, data: Seq<u8>)
    requires
        data.len() <= MAX_FRAME_LEN,
    ensures
        ({
            let buffer = prefix + frame_of(data);
            let end = buffer.len() as int;
            &&& end == prefix.len() + data.len() + 8
            &&& stored_len(buffer, end) == data.len()
            &&& stored_checksum(buffer, end) == crc32(data)
            &&& !truncated_at(buffer, end)
            &&& frame_start(buffer, end) == prefix.len()
            &&& frame_data(buffer, end) == data
            &&& intact_at(buffer, end)
        }),
{
    lemma_auto_spec_u32_to_from_le_bytes();
    let buffer = prefix + frame_of(data);
    let end = buffer.len() as int;
    let sum = spec_u32_to_le_bytes(crc32(data));
    let len = spec_u32_to_le_bytes(data.len() as u32);
    assert(buffer.subrange(end - 8, end - 4) =~= sum);
    assert(buffer.subrange(end - 4, end) =~= len);
    assert(buffer.subrange(prefix.len() as int, end - 8) =~= data);
}

/// What the walk finds before `end` depends on the bytes before `end`
/// alone.
pub proof fn lemma_walk_reads_prefix(a: Seq<u8>, b: Seq<u8>, end: int)
    requires
        0 <= end <= a.len(),
        end <= b.len(),
        a.subrange(0, end) == b.subrange(0, end),
    ensures
        step_result(a, end) == step_result(b, end),
        step_cursor(a, end) == step_cursor(b, end),
        frame_ends(a, end) == frame_ends(b, end),
        unframed_len(a, end) == unframed_len(b, end),
    decreases end,
{
    if end >= 8 {
        assert(a.subrange(end - 4, end) =~= a.subrange(0, end).subrange(end - 4, end));
        assert(b.subrange(end - 4, end) =~= b.subrange(0, end).subrange(end - 4, end));
        assert(a.subrange(end - 8, end - 4) =~= a.subrange(0, end).subrange(end - 8, end - 4));
        assert(b.subrange(end - 8, end - 4) =~= b.subrange(0, end).subrange(end - 8, end - 4));
        if !truncated_at(a, end) {
            let start = frame_start(a, end);
            assert(a.subrange(start, end - 8) =~= a.subrange(0, end).subrange(start, end - 8));
            assert(b.subrange(start, end - 8) =~= b.subrange(0, end).subrange(start, end - 8));
            assert(a.subrange(0, start) =~= a.subrange(0, end).subrange(0, start));
            assert(b.subrange(0, start) =~= b.subrange(0, end).subrange(0, start));
            lemma_walk_reads_prefix(a, b, start);
        }
    }
}

/// The length of a run of frames is the sum of `data.len() + 8` over its
/// frames.
pub proof fn lemma_concat_frames_len(datas: Seq<Seq<u8>>)
    ensures
        concat_frames(datas).len() == framed_len(datas),
    decreases datas.len(),
{
    lemma_auto_spec_u32_to_from_le_bytes();
    if datas.len() > 0 {
        lemma_concat_frames_len(datas.drop_last());
    }
}

/// Frame boundary integrity. A buffer made of the frames of `datas`, one
/// after the other, is walked into exactly as many frames, in the order in
/// which they were appended; each is intact and delimits its own data
/// bytes; no byte is left over; and the frame lengths add up to the length
/// of the buffer.
pub proof fn lemma_walk_concat_frames(datas: Seq<Seq<u8>>)
    requires
        forall|i: int| 0 <= i < datas.len() ==> (#[trigger] datas[i]).len() <= MAX_FRAME_LEN,
    ensures
        ({
            let buffer = concat_frames(datas);
            let ends = frame_ends(buffer, buffer.len() as int);
            &&& buffer.len() == framed_len(datas)
            &&& ends.len() == datas.len()
            &&& unframed_len(buffer, buffer.len() as int) == 0
            &&& forall|i: int|
                0 <= i < datas.len() ==> {
                    &&& 0 < (#[trigger] ends[i]) <= buffer.len()
                    &&& ends[i] == framed_len(datas.take(i + 1))
                    &&& step_result(buffer, ends[i]) == Some(
                        Ok::<Seq<u8>, DecodeError>(datas[i]),
                    )
                }
        }),
    decreases datas.len(),
{
    let buffer = concat_frames(datas);
    let end = buffer.len() as int;
    lemma_concat_frames_len(datas);
    if datas.len() > 0 {
        let rest = datas.drop_last();
        let prefix = concat_frames(rest);
        let last = datas.last();
        lemma_walk_concat_frames(rest);
        lemma_concat_frames_len(rest);
        lemma_frame_read_back(prefix, last);
        let start = prefix.len() as int;
        assert(buffer.subrange(0, start) =~= prefix.subrange(0, start));
        lemma_walk_reads_prefix(buffer, prefix, start);
        let ends = frame_ends(buffer, end);
        let rest_ends = frame_ends(prefix, start);
        assert(ends == rest_ends.push(end));
        assert(datas.take(datas.len() as int) =~= datas);
        assert forall|i: int| 0 <= i < datas.len() implies {
            &&& 0 < (#[trigger] ends[i]) <= buffer.len()
            &&& ends[i] == framed_len(datas.take(i + 1))
            &&& step_result(buffer, ends[i]) == Some(Ok::<Seq<u8>, DecodeError>(datas[i]))
        } by {
            if i < rest.len() {
                assert(ends[i] == rest_ends[i]);
                assert(rest.take(i + 1) =~= datas.take(i + 1));
                assert(buffer.subrange(0, ends[i]) =~= prefix.subrange(0, ends[i]));
                lemma_walk_reads_prefix(buffer, prefix, ends[i]);
            }
        }
    }
}

/// Checksum sensitivity. When one data byte of a frame is changed and the
/// footer is left as it was, the walk reports a checksum mismatch for that
/// frame, and still finds where the frame begins.
pub proof fn lemma_corruption_detected(prefix: Seq<u8>, data: Seq<u8>, index: int, byte: u8)
    requires
        data.len() <= MAX_FRAME_LEN,
        0 <= index < data.len(),
        byte != data[index],
    ensures
        ({
            let buffer = prefix + frame_of(data).update(index, byte);
            let end = buffer.len() as int;
            &&& step_result(buffer, end) == Some(
                Err::<Seq<u8>, DecodeError>(
                    DecodeError::ChecksumMismatch {
                        expected: crc32(data),
                        actual: crc32(data.update(index, byte)),
                    },
                ),
            )
            &&& step_cursor(buffer, end) == prefix.len()
        }),
{
    let changed = data.update(index, byte);
    lemma_frame_read_back(prefix, data);
    lemma_one_byte_changes_crc32(changed, data, index);
    let good = prefix + frame_of(data);
    let buffer = prefix + frame_of(data).update(index, byte);
    let end = buffer.len() as int;
    assert(buffer.subrange(end - 8, end - 4) =~= good.subrange(end - 8, end - 4));
    assert(buffer.subrange(end - 4, end) =~= good.subrange(end - 4, end));
    assert(buffer.subrange(prefix.len() as int, end - 8) =~= changed);
}

/// Reads the little-endian `u32` that ends at `end`.
fn read_u32_before(buffer: &[u8], end: usize) -> (r: u32)
    requires
        4 <= end <= buffer@.len(),
    ensures
        r == spec_u32_from_le_bytes(buffer@.subrange(end - 4, end as int)),
{
    u32_from_le_bytes(slice_subrange(buffer, end - 4, end))
}

/// The footer for data bytes of the given checksum and length.
pub fn footer_bytes(sum: u32, len: u32) -> (r: Vec<u8>)
    ensures
        r@ == spec_u32_to_le_bytes(sum) + spec_u32_to_le_bytes(len),
        r@.len() == 8,
{
    let mut out = u32_to_le_bytes(sum);
    let mut tail = u32_to_le_bytes(len);
    out.append(&mut tail);
    out
}

/// A cursor over a buffer of frames. It starts at the end of the buffer
/// and moves towards its start, one frame at a step.
pub struct BufferWalker<'a> {
    buffer: &'a [u8],
    cursor: usize,
}

impl<'a> BufferWalker<'a> {
    /// The bytes that are walked.
    pub closed spec fn bytes(&self) -> Seq<u8> {
        self.buffer@
    }

    /// The position of the cursor: the end of the next frame to be found.
    pub closed spec fn position(&self) -> int {
        self.cursor as int
    }

    /// The cursor never leaves the buffer.
    pub closed spec fn wf(&self) -> bool {
        self.cursor <= self.buffer@.len()
    }

    /// A walker at the end of `buffer`.
    pub fn new(buffer: &'a [u8]) -> (r: Self)
        ensures
            r.wf(),
            r.bytes() == buffer@,
            r.position() == buffer@.len(),
    {
        BufferWalker { buffer, cursor: buffer.len() }
    }

    /// A walker over `buffer` whose next frame ends at `cursor`, or nothing
    /// when `cursor` lies behind the end of the buffer.
    pub fn at(buffer: &'a [u8], cursor: usize) -> (r: Option<Self>)
        ensures
            r is Some <==> cursor <= buffer@.len(),
            r matches Some(w) ==> w.wf() && w.bytes() == buffer@ && w.position() == cursor,
    {
        if cursor <= buffer.len() {
            Some(BufferWalker { buffer, cursor })
        } else {
            None
        }
    }

    /// The position of the cursor.
    pub fn cursor(&self) -> (r: usize)
        ensures
            r == self.position(),
    {
        self.cursor
    }

    /// Finds the frame that ends at the cursor and moves the cursor to
    /// where that frame begins.
    ///
    /// Returns nothing at the start of the buffer. Reports a truncation
    /// when fewer than eight bytes, or fewer bytes than the footer
    /// declares, lie before the cursor; the cursor is then moved to the
    /// start of the buffer, since no further boundary can be found.
    /// Reports a checksum mismatch when the data bytes do not have the
    /// declared checksum; the cursor has then still moved past that
    /// frame, so that the walk can go on. It never reads outside the
    /// buffer.
    pub fn next_frame(&mut self) -> (r: Option<Result<&'a [u8], DecodeError>>)
        requires
            old(self).wf(),
        ensures
            final(self).wf(),
            final(self).bytes() == old(self).bytes(),
            final(self).position() == step_cursor(old(self).bytes(), old(self).position()),
            final(self).position() <= old(self).position(),
            r is Some ==> final(self).position() < old(self).position(),
            match r {
                None => step_result(old(self).bytes(), old(self).position()) is None,
                Some(Err(e)) => step_result(old(self).bytes(), old(self).position()) == Some(
                    Err::<Seq<u8>, DecodeError>(e),
                ),
                Some(Ok(data)) => step_result(old(self).bytes(), old(self).position()) == Some(
                    Ok::<Seq<u8>, DecodeError>(data@),
                ),
            },
    {
        let end: usize = self.cursor;
        if end == 0 {
            return None;
        }
        if end < FOOTER_SIZE {
            self.cursor = 0;
            return Some(Err(DecodeError::Truncated));
        }
        let len: u32 = read_u32_before(self.buffer, end);
        let expected: u32 = read_u32_before(self.buffer, end - 4);
        if len as usize > end - FOOTER_SIZE {
            self.cursor = 0;
            return Some(Err(DecodeError::Truncated));
        }
        let start: usize = end - FOOTER_SIZE - len as usize;
        let data = slice_subrange(self.buffer, start, end - FOOTER_SIZE);
        self.cursor = start;
        let actual: u32 = checksum(data);
        if actual != expected {
            Some(Err(DecodeError::ChecksumMismatch { expected, actual }))
        } else {
            Some(Ok(data))
        }
    }
}

/// Finds the frames of `buffer`: the end of each, first frame first, and
/// the number of leading bytes that belong to no frame. Footers alone are
/// read; no checksum is computed.
pub fn scan_frames(buffer: &[u8]) -> (r: (Vec<usize>, usize))
    ensures
        r.0@.len() == frame_ends(buffer@, buffer@.len() as int).len(),
        forall|i: int|
            0 <= i < r.0@.len() ==> r.0@[i] as int == #[trigger] frame_ends(
                buffer@,
                buffer@.len() as int,
            )[i],
        r.1 == unframed_len(buffer@, buffer@.len() as int),
{
    let mut found: Vec<usize> = Vec::new();
    let mut end: usize = buffer.len();
    let mut left: usize = 0;
    let ghost total = buffer@.len() as int;
    let ghost mut tail: Seq<int> = Seq::empty();
    proof {
        assert(frame_ends(buffer@, total) =~= frame_ends(buffer@, end as int) + tail);
    }
    while end > 0
        invariant
            end <= buffer@.len(),
            total == buffer@.len(),
            left == 0 ==> unframed_len(buffer@, total) == unframed_len(buffer@, end as int),
            left > 0 ==> end == 0 && unframed_len(buffer@, total) == left,
            frame_ends(buffer@, total) == frame_ends(buffer@, end as int) + tail,
            tail.len() == found@.len(),
            forall|j: int| 0 <= j < found@.len() ==> found@[j] as int == tail[tail.len() - 1 - j],
        decreases end,
    {
        if end < FOOTER_SIZE {
            left = end;
            end = 0;
        } else {
            let len: u32 = read_u32_before(buffer, end);
            if len as usize > end - FOOTER_SIZE {
                left = end;
                end = 0;
            } else {
                proof {
                    let before = frame_ends(buffer@, frame_start(buffer@, end as int));
                    assert(before.push(end as int) + tail =~= before + (seq![end as int] + tail));
                    tail = seq![end as int] + tail;
                }
                found.push(end);
                end = end - FOOTER_SIZE - len as usize;
            }
        }
    }
    proof {
        assert(frame_ends(buffer@, total) =~= tail);
    }
    let n: usize = found.len();
    let mut out: Vec<usize> = Vec::with_capacity(n);
    let mut i: usize = 0;
    while i < n
        invariant
            i <= n,
            n == found@.len(),
            out@.len() == i,
            forall|j: int| 0 <= j < i ==> out@[j] == found@[n - 1 - j],
        decreases n - i,
    {
        out.push(found[n - 1 - i]);
        i += 1;
    }
    (out, left)
}

} // verus!
