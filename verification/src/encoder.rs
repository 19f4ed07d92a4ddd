//! The encoder: one document in, one frame out.
//!
//! A frame is written in one pass. The bytes of the archive go to the
//! writer as they are produced, while their checksum and their number are
//! kept up to date; the footer follows at once.

use crate::checksum::{absorb, lemma_absorb_concat, Checksum, INITIAL};
use crate::decoder::{decode_all, frame_result};
use crate::document::{Document, DocumentModel};
use crate::frame::{footer_bytes, footer_of, frame_of, DecodeError, MAX_FRAME_LEN};
use crate::layout::read_document;
use crate::plan::{archive_of, document_plan, fresh};
use crate::scratch::StackScratch;
use crate::serializer::{BelliniSerializer, BelliniSerializerError};
use crate::sink::{sink_wf, written, Serializer, SinkFull, Writer};
use crate::size::{document_need, document_size};
use vstd::prelude::*;

verus! {

/// The scratch space, in bytes, that an encoder has unless told
/// otherwise: room for 512 positions.
pub const DEFAULT_SCRATCH_SPACE: usize = 4096;

/// Why a frame could not be closed.
#[derive(Debug)]
pub enum FrameError<E> {
    /// The writer failed.
    Write(E),
    /// The frame holds more data bytes than a footer can declare.
    TooLarge,
}

/// A writer that keeps the checksum and the number of the bytes that
/// pass through it, and closes them with a footer.
#[derive(Debug)]
pub struct ChecksumAndLenWriter<W> {
    writer: W,
    checksum: Checksum,
    len: usize,
}

impl<W> ChecksumAndLenWriter<W> {
    /// The writer that the bytes are passed on to.
    pub closed spec fn writer(&self) -> W {
        self.writer
    }

    /// The number of bytes since the last footer.
    pub closed spec fn count(&self) -> nat {
        self.len as nat
    }

    /// The checksum register.
    pub closed spec fn register(&self) -> u32 {
        self.checksum.register()
    }

    /// Wraps a writer. No byte has passed yet.
    pub fn new(writer: W) -> (r: Self)
        ensures
            r.writer() == writer,
            r.count() == 0,
            r.register() == INITIAL,
    {
        ChecksumAndLenWriter { writer, checksum: Checksum::new(), len: 0 }
    }

    /// Returns a mutable reference to the inner writer. Bytes written
    /// through it are not counted.
    pub fn writer_mut(&mut self) -> (r: &mut W)
        ensures
            *r == old(self).writer(),
            final(self).writer() == *final(r),
            final(self).count() == old(self).count(),
            final(self).register() == old(self).register(),
    {
        &mut self.writer
    }

    /// Returns the inner writer.
    pub fn into_inner(self) -> (r: W)
        ensures
            r == self.writer(),
    {
        self.writer
    }

    /// Forgets the bytes that have passed: the next byte opens a new
    /// frame.
    pub fn restart(&mut self)
        ensures
            final(self).writer() == old(self).writer(),
            final(self).count() == 0,
            final(self).register() == INITIAL,
    {
        self.checksum = Checksum::new();
        self.len = 0;
    }
}

impl<W: Writer> Serializer for ChecksumAndLenWriter<W> {
    type Error = W::Error;

    open spec fn stream(&self) -> Seq<u8> {
        self.writer().stream()
    }

    open spec fn position(&self) -> nat {
        self.count()
    }

    open spec fn room(&self) -> nat {
        self.writer().room()
    }

    /// The register is that of the bytes since the last footer.
    open spec fn inv(&self) -> bool {
        self.register() == absorb(
            INITIAL,
            self.writer().stream().subrange(
                self.writer().stream().len() - self.count(),
                self.writer().stream().len() as int,
            ),
        )
    }

    fn pos(&self) -> (p: usize) {
        self.len
    }

    fn write(&mut self, bytes: &[u8]) -> (r: Result<(), W::Error>) {
        let ghost before = self.writer.stream();
        match self.writer.write_all(bytes) {
            Ok(()) => {
                self.checksum.update(bytes);
                self.len = self.len + bytes.len();
                proof {
                    let after = self.writer.stream();
                    let data = before.subrange(
                        before.len() - old(self).count(),
                        before.len() as int,
                    );
                    lemma_absorb_concat(INITIAL, data, bytes@);
                    assert(after.subrange(after.len() - self.count(), after.len() as int) =~= data
                        + bytes@);
                }
                Ok(())
            },
            Err(e) => Err(e),
        }
    }
}

impl<W: Writer> ChecksumAndLenWriter<W> {
    /// The bytes since the last footer: the data of the open frame.
    pub open spec fn data(&self) -> Seq<u8> {
        written(*self)
    }

    /// Closes the frame: writes the footer of the bytes since the last
    /// footer, and starts anew. Nothing is written when those bytes
    /// are more than a footer can declare.
    pub fn finish(&mut self) -> (r: Result<(), FrameError<W::Error>>)
        requires
            sink_wf(*old(self)),
            old(self).inv(),
        ensures
            old(self).stream().is_prefix_of(final(self).stream()),
            match r {
                Ok(()) => {
                    &&& old(self).data().len() <= MAX_FRAME_LEN
                    &&& final(self).stream() == old(self).stream() + footer_of(old(self).data())
                    &&& final(self).stream().len() <= usize::MAX
                    &&& final(self).count() == 0
                    &&& final(self).inv()
                    &&& final(self).room() + 8 >= old(self).room()
                },
                Err(FrameError::TooLarge) => {
                    &&& old(self).data().len() > MAX_FRAME_LEN
                    &&& final(self).stream() == old(self).stream()
                },
                Err(FrameError::Write(_)) => {
                    &&& old(self).data().len() <= MAX_FRAME_LEN
                    &&& 8 > old(self).room()
                },
            },
    {
        if self.len > MAX_FRAME_LEN {
            proof {
                assert(self.stream().subrange(0, self.stream().len() as int) =~= self.stream());
            }
            return Err(FrameError::TooLarge);
        }
        let footer = footer_bytes(self.checksum.value(), self.len as u32);
        match self.writer.write_all(footer.as_slice()) {
            Ok(()) => {
                self.checksum = Checksum::new();
                self.len = 0;
                proof {
                    let s = self.writer.stream();
                    assert(s.subrange(s.len() - 0, s.len() as int) =~= Seq::<u8>::empty());
                }
                Ok(())
            },
            Err(e) => Err(FrameError::Write(e)),
        }
    }
}

/// Why a document could not be encoded.
#[derive(Debug)]
pub enum EncodeError<const N: usize, E> {
    /// The serializer failed: the sink, the scratch space or the
    /// registry of shared values.
    Serializer(BelliniSerializerError<N, E>),
    /// The archive of the document is larger than a footer can declare.
    FrameTooLarge,
}

/// Encodes documents into frames, one after the other, with a scratch
/// space of `N` bytes.
#[derive(Debug)]
pub struct Encoder<const N: usize, W> {
    serializer: BelliniSerializer<N, ChecksumAndLenWriter<W>>,
}

impl<const N: usize, W: Writer> Encoder<N, W> {
    /// The writer.
    pub closed spec fn writer(&self) -> W {
        self.serializer.inner().writer()
    }

    /// Everything the writer has accepted.
    pub open spec fn stream(&self) -> Seq<u8> {
        self.writer().stream()
    }

    /// The number of further bytes that the writer is certain to accept.
    pub open spec fn room(&self) -> nat {
        self.writer().room()
    }

    /// An encoder that appends its frames to `writer`.
    pub fn new(writer: W) -> (r: Self)
        ensures
            r.writer() == writer,
    {
        Encoder { serializer: BelliniSerializer::new(ChecksumAndLenWriter::new(writer)) }
    }

    /// Returns the writer.
    pub fn into_inner(self) -> (r: W)
        ensures
            r == self.writer(),
    {
        self.serializer.into_inner_serializer().into_inner()
    }

    /// Encodes `document` as one frame and appends it to the writer.
    /// Returns the length of the frame, footer and all.
    ///
    /// The frame is made of the archive of the document, which is
    /// `archive_of(document)`, and the footer of that archive; bytes
    /// written earlier stay as they are. Within the frame, a text or byte
    /// string that occurs more than once is written once.
    ///
    /// Encoding needs a scratch space that can hold `document_need`
    /// words, and an archive of at most `MAX_FRAME_LEN` bytes: without
    /// either it fails. With both it succeeds whenever the writer is
    /// certain to accept the archive and eight bytes more. After a
    /// failure the writer may hold a part of a frame behind its earlier
    /// bytes, which are never touched.
    pub fn encode(&mut self, document: &Document) -> (r: Result<usize, EncodeError<N, W::Error>>)
        ensures
            old(self).stream().is_prefix_of(final(self).stream()),
            match r {
                Ok(n) => {
                    let data = final(self).stream().subrange(
                        old(self).stream().len() as int,
                        final(self).stream().len() - 8,
                    );
                    &&& n == data.len() + 8
                    &&& data == archive_of(document@)
                    &&& data.len() <= MAX_FRAME_LEN
                    &&& data.len() <= document_size(document@)
                    &&& final(self).stream() == old(self).stream() + frame_of(data)
                    &&& read_document(data) == Ok::<DocumentModel, DecodeError>(document@)
                    &&& final(self).room() + n >= old(self).room()
                    &&& document_need(document@) <= StackScratch::<N>::capacity()
                },
                Err(EncodeError::FrameTooLarge) => {
                    &&& archive_of(document@).len() > MAX_FRAME_LEN
                    &&& document_need(document@) <= StackScratch::<N>::capacity()
                },
                Err(EncodeError::Serializer(BelliniSerializerError::SerializerError(_))) =>
                    archive_of(document@).len() + 8 > old(self).room(),
                Err(EncodeError::Serializer(BelliniSerializerError::ScratchSpaceError(_))) =>
                    document_need(document@) > StackScratch::<N>::capacity(),
                Err(EncodeError::Serializer(BelliniSerializerError::SharedError(_))) => false,
            },
    {
        let ghost start = self.stream();
        self.serializer.clear();
        self.serializer.inner_mut().restart();
        let ghost opened = self.serializer;
        proof {
            assert(opened.frame() =~= Seq::<u8>::empty());
            assert(opened.seen() =~= Map::<Seq<u8>, nat>::empty());
            assert(opened.plan() == fresh());
        }
        match self.serializer.serialize_document(document) {
            Ok(_) => {},
            Err(e) => {
                return Err(EncodeError::Serializer(e));
            },
        }
        let ghost archived = self.serializer;
        proof {
            assert(archived.frame().skip(0) =~= archived.frame());
            assert(archived.inner().stream() == start + archived.frame());
            assert(archived.plan() == document_plan(fresh(), document@));
            assert(archived.frame() == archive_of(document@));
        }
        let len: usize = self.serializer.pos();
        match self.serializer.inner_mut().finish() {
            Ok(()) => {
                proof {
                    let data = archived.frame();
                    let all = self.stream();
                    crate::frame::lemma_frame_read_back(start, data);
                    assert(all =~= start + frame_of(data));
                    assert(all.subrange(start.len() as int, all.len() - 8) =~= data);
                }
                Ok(len + 8)
            },
            Err(FrameError::TooLarge) => Err(EncodeError::FrameTooLarge),
            Err(FrameError::Write(e)) => Err(
                EncodeError::Serializer(BelliniSerializerError::SerializerError(e)),
            ),
        }
    }
}

/// Encodes `document` as one frame in memory, with a scratch space of
/// `N` bytes.
///
/// It succeeds exactly when the scratch space can hold `document_need`
/// words and the archive fits a frame and, with its footer, the address
/// space. Decoding the frame gives the document back: the same
/// identifier, the same fields in the same order, with the same keys,
/// kinds and payloads.
pub fn to_bytes<const N: usize>(document: &Document) -> (r: Result<
    Vec<u8>,
    EncodeError<N, SinkFull>,
>)
    ensures
        r is Ok <==> {
            &&& document_need(document@) <= StackScratch::<N>::capacity()
            &&& archive_of(document@).len() <= MAX_FRAME_LEN
            &&& archive_of(document@).len() + 8 <= usize::MAX
        },
        match r {
            Ok(frame) => {
                let archive = archive_of(document@);
                &&& frame@ == frame_of(archive)
                &&& archive.len() <= document_size(document@)
                &&& archive.len() <= MAX_FRAME_LEN
                &&& read_document(archive) == Ok::<DocumentModel, DecodeError>(document@)
                &&& decode_all(frame@) == seq![Ok::<DocumentModel, DecodeError>(document@)]
                &&& frame_result(frame@, frame@.len() as int) == Ok::<DocumentModel, DecodeError>(
                    document@,
                )
                &&& document_need(document@) <= StackScratch::<N>::capacity()
            },
            Err(EncodeError::FrameTooLarge) => {
                &&& archive_of(document@).len() > MAX_FRAME_LEN
                &&& document_need(document@) <= StackScratch::<N>::capacity()
            },
            Err(EncodeError::Serializer(BelliniSerializerError::SerializerError(_))) =>
                archive_of(document@).len() + 8 > usize::MAX,
            Err(EncodeError::Serializer(BelliniSerializerError::ScratchSpaceError(_))) =>
                document_need(document@) > StackScratch::<N>::capacity(),
            Err(EncodeError::Serializer(BelliniSerializerError::SharedError(_))) => false,
        },
{
    let mut encoder = Encoder::<N, Vec<u8>>::new(Vec::new());
    match encoder.encode(document) {
        Ok(_) => {
            let frame = encoder.into_inner();
            // The length, once asked for, is known to fit a `usize`.
            let len: usize = frame.len();
            proof {
                let archive = archive_of(document@);
                assert(frame@ =~= frame_of(archive));
                crate::laws::lemma_round_trip_one(archive, document@);
            }
            Ok(frame)
        },
        Err(e) => Err(e),
    }
}

} // verus!
