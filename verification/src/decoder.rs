//! Decoding: from the bytes of a frame to a view of the document, and
//! from a buffer of frames to the documents in it.
//!
//! There are two ways to a view. [`CheckedArchiver`] validates the whole
//! archive first and so can be handed any bytes. [`UnsafeArchiver`]
//! performs no check at all; it is for bytes that are known to be a
//! sound archive, such as those an encoder has just produced.

use crate::archive::{validate_document, ArchivedDocument};
use crate::document::{Document, DocumentModel};
use crate::frame::{
    frame_data, frame_ends, intact_at, scan_frames, step_result, truncated_at, unframed_len,
    BufferWalker, DecodeError,
};
use crate::layout::read_document;
use vstd::prelude::*;

verus! {

/// A way from the data bytes of one frame to a view of the document.
pub trait Archiver {
    /// The bytes that this archiver may be handed.
    spec fn accepts(data: Seq<u8>) -> bool;

    /// A view of the document that `data` archives, or the reason why
    /// `data` is no archive.
    fn archive<'a>(data: &'a [u8]) -> (r: Result<ArchivedDocument<'a>, DecodeError>)
        requires
            Self::accepts(data@),
        ensures
            match r {
                Ok(view) => view.archive() == data@ && read_document(data@) == Ok::<
                    DocumentModel,
                    DecodeError,
                >(view@),
                Err(e) => read_document(data@) == Err::<DocumentModel, DecodeError>(e),
            },
    ;
}

/// Takes the bytes on trust: no check is made. It may be handed sound
/// archives only, and then never fails.
#[derive(Clone, Copy, Debug)]
pub struct UnsafeArchiver;

impl Archiver for UnsafeArchiver {
    open spec fn accepts(data: Seq<u8>) -> bool {
        read_document(data) is Ok
    }

    fn archive<'a>(data: &'a [u8]) -> (r: Result<ArchivedDocument<'a>, DecodeError>) {
        Ok(ArchivedDocument::trusted(data))
    }
}

/// Validates the whole archive before it hands out a view. It may be
/// handed any bytes.
#[derive(Clone, Copy, Debug)]
pub struct CheckedArchiver;

impl Archiver for CheckedArchiver {
    open spec fn accepts(data: Seq<u8>) -> bool {
        true
    }

    fn archive<'a>(data: &'a [u8]) -> (r: Result<ArchivedDocument<'a>, DecodeError>) {
        match validate_document(data) {
            Ok(()) => Ok(ArchivedDocument::trusted(data)),
            Err(e) => Err(e),
        }
    }
}

/// What the frame that ends at `end` decodes to: the document it
/// archives, or the error that the walk or the validation reports.
pub open spec fn frame_result(buffer: Seq<u8>, end: int) -> Result<DocumentModel, DecodeError> {
    match step_result(buffer, end) {
        Some(Ok(data)) => read_document(data),
        Some(Err(e)) => Err(e),
        None => Err(DecodeError::Truncated),
    }
}

/// What the frames of `buffer` that end at `ends` decode to, each in its
/// place.
pub open spec fn frame_results(buffer: Seq<u8>, ends: Seq<int>) -> Seq<
    Result<DocumentModel, DecodeError>,
> {
    Seq::new(ends.len(), |i: int| frame_result(buffer, ends[i]))
}

/// What a buffer decodes to, step by step: a truncation first if leading
/// bytes belong to no frame, then each frame in the order in which the
/// frames were appended.
pub open spec fn decode_all(buffer: Seq<u8>) -> Seq<Result<DocumentModel, DecodeError>> {
    let total = buffer.len() as int;
    let head = if unframed_len(buffer, total) > 0 {
        seq![Err::<DocumentModel, DecodeError>(DecodeError::Truncated)]
    } else {
        Seq::empty()
    };
    head + frame_results(buffer, frame_ends(buffer, total))
}

/// Every intact frame of `buffer` holds a sound archive.
pub open spec fn all_sound(buffer: Seq<u8>) -> bool {
    forall|i: int|
        #![trigger frame_ends(buffer, buffer.len() as int)[i]]
        0 <= i < frame_ends(buffer, buffer.len() as int).len() ==> {
            let end = frame_ends(buffer, buffer.len() as int)[i];
            intact_at(buffer, end) ==> read_document(frame_data(buffer, end)) is Ok
        }
}

/// The ends of the frames of a buffer lie in it, and none comes with a
/// truncation.
pub proof fn lemma_frame_ends_sound(buffer: Seq<u8>, end: int)
    requires
        0 <= end <= buffer.len(),
    ensures
        forall|i: int|
            0 <= i < frame_ends(buffer, end).len() ==> {
                let e = #[trigger] frame_ends(buffer, end)[i];
                8 <= e <= end && !truncated_at(buffer, e)
            },
    decreases end,
{
    if end > 0 && !truncated_at(buffer, end) {
        let start = crate::frame::frame_start(buffer, end);
        lemma_frame_ends_sound(buffer, start);
        let before = frame_ends(buffer, start);
        let all = frame_ends(buffer, end);
        assert(all == before.push(end));
        assert forall|i: int| 0 <= i < all.len() implies {
            let e = #[trigger] all[i];
            8 <= e <= end && !truncated_at(buffer, e)
        } by {
            if i < before.len() {
                assert(all[i] == before[i]);
            }
        }
    }
}

/// A lazy walk over the documents of a buffer, as views that borrow the
/// buffer. The frames come in the order in which they were appended. A
/// frame that fails is reported in its place and does not stop the walk.
pub struct ArchivedIterator<'a> {
    buffer: &'a [u8],
    ends: Vec<usize>,
    unframed: usize,
    index: usize,
    trusting: bool,
}

impl<'a> ArchivedIterator<'a> {
    /// The bytes walked.
    pub closed spec fn bytes(&self) -> Seq<u8> {
        self.buffer@
    }

    /// What is still to come, in order.
    pub closed spec fn pending(&self) -> Seq<Result<DocumentModel, DecodeError>> {
        let ends = Seq::new(self.ends@.len(), |i: int| self.ends@[i] as int);
        let head = if self.unframed > 0 {
            seq![Err::<DocumentModel, DecodeError>(DecodeError::Truncated)]
        } else {
            Seq::empty()
        };
        head + frame_results(self.buffer@, ends.skip(self.index as int))
    }

    /// The iterator is made of what the walk has found.
    pub closed spec fn wf(&self) -> bool {
        let total = self.buffer@.len() as int;
        &&& self.index <= self.ends@.len()
        &&& self.ends@.len() == frame_ends(self.buffer@, total).len()
        &&& forall|i: int|
            0 <= i < self.ends@.len() ==> self.ends@[i] as int == #[trigger] frame_ends(
                self.buffer@,
                total,
            )[i]
        &&& self.unframed > 0 ==> self.index == 0 && self.unframed == unframed_len(
            self.buffer@,
            total,
        )
        &&& self.trusting ==> all_sound(self.buffer@)
    }

    fn make(buffer: &'a [u8], trusting: bool) -> (r: Self)
        requires
            trusting ==> all_sound(buffer@),
        ensures
            r.wf(),
            r.bytes() == buffer@,
            r.pending() == decode_all(buffer@),
    {
        let (ends, unframed) = scan_frames(buffer);
        let r = ArchivedIterator { buffer, ends, unframed, index: 0, trusting };
        proof {
            let total = buffer@.len() as int;
            let mine = Seq::new(r.ends@.len(), |i: int| r.ends@[i] as int);
            assert(mine.skip(0) =~= frame_ends(buffer@, total));
        }
        r
    }

    /// A walk over the frames of `buffer` that validates every frame
    /// before it hands out a view.
    pub fn new(buffer: &'a [u8]) -> (r: Self)
        ensures
            r.wf(),
            r.bytes() == buffer@,
            r.pending() == decode_all(buffer@),
    {
        Self::make(buffer, false)
    }

    /// A walk over the frames of `buffer` that takes every intact frame
    /// on trust. The buffer must hold sound archives only.
    pub fn trusted(buffer: &'a [u8]) -> (r: Self)
        requires
            all_sound(buffer@),
        ensures
            r.wf(),
            r.bytes() == buffer@,
            r.pending() == decode_all(buffer@),
    {
        Self::make(buffer, true)
    }

    /// The number of steps still to come.
    pub fn remaining(&self) -> (r: usize)
        requires
            self.wf(),
        ensures
            r == self.pending().len(),
    {
        let frames: usize = self.ends.len() - self.index;
        // The length, once asked for, is known to fit a `usize`.
        let total: usize = self.buffer.len();
        if self.unframed > 0 {
            proof {
                lemma_frame_count(self.buffer@);
            }
            frames + 1
        } else {
            frames
        }
    }

    /// The next step of the walk: nothing when the buffer is used up,
    /// else a view of the next document or the error of the next frame.
    pub fn next(&mut self) -> (r: Option<Result<ArchivedDocument<'a>, DecodeError>>)
        requires
            old(self).wf(),
        ensures
            final(self).wf(),
            final(self).bytes() == old(self).bytes(),
            match r {
                None => old(self).pending().len() == 0 && final(self).pending() == old(
                    self,
                ).pending(),
                Some(step) => {
                    &&& old(self).pending().len() > 0
                    &&& final(self).pending() == old(self).pending().drop_first()
                    &&& match step {
                        Ok(view) => old(self).pending()[0] == Ok::<DocumentModel, DecodeError>(
                            view@,
                        ),
                        Err(e) => old(self).pending()[0] == Err::<DocumentModel, DecodeError>(e),
                    }
                },
            },
    {
        let ghost ends = Seq::new(self.ends@.len(), |i: int| self.ends@[i] as int);
        if self.unframed > 0 {
            self.unframed = 0;
            proof {
                let tail = frame_results(self.buffer@, ends.skip(0));
                assert(old(self).pending().drop_first() =~= tail);
                assert(self.pending() =~= tail);
            }
            return Some(Err(DecodeError::Truncated));
        }
        if self.index >= self.ends.len() {
            return None;
        }
        let end: usize = self.ends[self.index];
        proof {
            lemma_frame_ends_sound(self.buffer@, self.buffer@.len() as int);
            let rest = ends.skip(self.index as int);
            let next = ends.skip(self.index + 1);
            assert(rest[0] == end);
            assert(frame_results(self.buffer@, rest).drop_first() =~= frame_results(
                self.buffer@,
                next,
            ));
            assert(frame_ends(self.buffer@, self.buffer@.len() as int)[self.index as int] == end);
        }
        let found = match BufferWalker::at(self.buffer, end) {
            Some(mut walker) => walker.next_frame(),
            None => None,
        };
        self.index = self.index + 1;
        match found {
            Some(Ok(data)) => {
                if self.trusting {
                    Some(crate::decoder::UnsafeArchiver::archive(data))
                } else {
                    Some(crate::decoder::CheckedArchiver::archive(data))
                }
            },
            Some(Err(e)) => Some(Err(e)),
            None => Some(Err(DecodeError::Truncated)),
        }
    }
}

/// The frames of a buffer and its leading bytes that belong to no frame
/// are no more than its bytes.
proof fn lemma_frame_count(buffer: Seq<u8>)
    ensures
        frame_ends(buffer, buffer.len() as int).len() + unframed_len(
            buffer,
            buffer.len() as int,
        ) <= buffer.len(),
{
    lemma_frame_count_upto(buffer, buffer.len() as int);
}

proof fn lemma_frame_count_upto(buffer: Seq<u8>, end: int)
    requires
        0 <= end,
    ensures
        frame_ends(buffer, end).len() + unframed_len(buffer, end) <= end,
    decreases end,
{
    if end > 0 && !truncated_at(buffer, end) {
        lemma_frame_count_upto(buffer, crate::frame::frame_start(buffer, end));
    }
}

/// A walk over the documents of a buffer that hands out owned copies.
/// Every frame is validated and then copied in full, so that nothing
/// handed out borrows the buffer.
pub struct DeserializerIterator<'a> {
    inner: ArchivedIterator<'a>,
}

impl<'a> DeserializerIterator<'a> {
    /// The bytes walked.
    pub closed spec fn bytes(&self) -> Seq<u8> {
        self.inner.bytes()
    }

    /// What is still to come, in order.
    pub closed spec fn pending(&self) -> Seq<Result<DocumentModel, DecodeError>> {
        self.inner.pending()
    }

    /// The iterator is made of what the walk has found.
    pub closed spec fn wf(&self) -> bool {
        self.inner.wf()
    }

    /// A walk over the frames of `buffer`.
    pub fn new(buffer: &'a [u8]) -> (r: Self)
        ensures
            r.wf(),
            r.bytes() == buffer@,
            r.pending() == decode_all(buffer@),
    {
        DeserializerIterator { inner: ArchivedIterator::new(buffer) }
    }

    /// The number of steps still to come.
    pub fn remaining(&self) -> (r: usize)
        requires
            self.wf(),
        ensures
            r == self.pending().len(),
    {
        self.inner.remaining()
    }

    /// The next step of the walk: nothing when the buffer is used up,
    /// else the next document or the error of the next frame.
    pub fn next(&mut self) -> (r: Option<Result<Document, DecodeError>>)
        requires
            old(self).wf(),
        ensures
            final(self).wf(),
            final(self).bytes() == old(self).bytes(),
            match r {
                None => old(self).pending().len() == 0 && final(self).pending() == old(
                    self,
                ).pending(),
                Some(step) => {
                    &&& old(self).pending().len() > 0
                    &&& final(self).pending() == old(self).pending().drop_first()
                    &&& match step {
                        Ok(document) => old(self).pending()[0] == Ok::<DocumentModel, DecodeError>(
                            document@,
                        ),
                        Err(e) => old(self).pending()[0] == Err::<DocumentModel, DecodeError>(e),
                    }
                },
            },
    {
        match self.inner.next() {
            None => None,
            Some(Ok(view)) => Some(Ok(view.to_document())),
            Some(Err(e)) => Some(Err(e)),
        }
    }
}

/// Decodes the documents of a buffer of frames.
#[derive(Clone, Copy, Debug)]
pub struct Decoder<'a> {
    buffer: &'a [u8],
}

impl<'a> Decoder<'a> {
    /// The bytes to decode.
    pub closed spec fn bytes(&self) -> Seq<u8> {
        self.buffer@
    }

    /// A decoder of `buffer`.
    pub fn new(buffer: &'a [u8]) -> (r: Self)
        ensures
            r.bytes() == buffer@,
    {
        Decoder { buffer }
    }

    /// A walk over the documents as validated views that borrow the
    /// buffer.
    pub fn archived(&self) -> (r: ArchivedIterator<'a>)
        ensures
            r.wf(),
            r.bytes() == self.bytes(),
            r.pending() == decode_all(self.bytes()),
    {
        ArchivedIterator::new(self.buffer)
    }

    /// A walk over the documents as owned copies.
    pub fn documents(&self) -> (r: DeserializerIterator<'a>)
        ensures
            r.wf(),
            r.bytes() == self.bytes(),
            r.pending() == decode_all(self.bytes()),
    {
        DeserializerIterator::new(self.buffer)
    }

    /// All documents of the buffer, in the order in which their frames
    /// were appended, or the first error.
    pub fn decode(&self) -> (r: Result<Vec<Document>, DecodeError>)
        ensures
            match r {
                Ok(documents) => {
                    &&& documents@.len() == decode_all(self.bytes()).len()
                    &&& forall|i: int|
                        0 <= i < documents@.len() ==> decode_all(self.bytes())[i] == Ok::<
                            DocumentModel,
                            DecodeError,
                        >((#[trigger] documents@[i])@)
                },
                Err(e) => exists|k: int|
                    0 <= k < decode_all(self.bytes()).len() && decode_all(self.bytes())[k] == Err::<
                        DocumentModel,
                        DecodeError,
                    >(e) && forall|j: int| 0 <= j < k ==> (#[trigger] decode_all(self.bytes())[j])
                        is Ok,
            },
    {
        let mut walk = DeserializerIterator::new(self.buffer);
        let mut out: Vec<Document> = Vec::new();
        let ghost all = decode_all(self.buffer@);
        loop
            invariant
                walk.wf(),
                all == decode_all(self.buffer@),
                out@.len() + walk.pending().len() == all.len(),
                walk.pending() == all.skip(out@.len() as int),
                forall|i: int|
                    0 <= i < out@.len() ==> all[i] == Ok::<DocumentModel, DecodeError>(
                        (#[trigger] out@[i])@,
                    ),
            decreases walk.pending().len(),
        {
            let ghost before = walk.pending();
            match walk.next() {
                None => {
                    return Ok(out);
                },
                Some(Ok(document)) => {
                    proof {
                        assert(before[0] == all[out@.len() as int]);
                        assert(before.drop_first() =~= all.skip(out@.len() as int + 1));
                    }
                    out.push(document);
                },
                Some(Err(e)) => {
                    proof {
                        let k = out@.len() as int;
                        assert(before[0] == all[k]);
                        assert forall|j: int| 0 <= j < k implies (#[trigger] all[j]) is Ok by {
                            assert(all[j] == Ok::<DocumentModel, DecodeError>(out@[j]@));
                        }
                        assert(0 <= k < all.len() && all[k] == Err::<DocumentModel, DecodeError>(e)
                            && forall|j: int| 0 <= j < k ==> (#[trigger] all[j]) is Ok);
                    }
                    return Err(e);
                },
            }
        }
    }
}

/// Decodes the frame that closes `buffer` into an owned document, after
/// its checksum and its archive have been validated.
pub fn from_bytes(buffer: &[u8]) -> (r: Result<Document, DecodeError>)
    ensures
        match r {
            Ok(document) => frame_result(buffer@, buffer@.len() as int) == Ok::<
                DocumentModel,
                DecodeError,
            >(document@),
            Err(e) => frame_result(buffer@, buffer@.len() as int) == Err::<
                DocumentModel,
                DecodeError,
            >(e),
        },
{
    let mut walker = BufferWalker::new(buffer);
    match walker.next_frame() {
        None => Err(DecodeError::Truncated),
        Some(Err(e)) => Err(e),
        Some(Ok(data)) => match CheckedArchiver::archive(data) {
            Ok(view) => Ok(view.to_document()),
            Err(e) => Err(e),
        },
    }
}

} // verus!
