//! A binary serialization engine for a JSON-like document model.
//!
//! Documents are packed into self-describing frames: the archived bytes of
//! one document followed by an eight byte footer that carries a CRC-32 of
//! those bytes and their length. Frames are appended to a buffer with no
//! separator; the footers alone tell where each frame starts. A frame can be
//! read in place through borrowed views, or copied out into owned values.
//!
//! * [`document`] holds the data model, [`layout`] the meaning of archived
//!   bytes, and [`plan`] the bytes that archiving produces.
//! * [`sink`], [`scratch`] and [`shared`] are the parts a serializer is
//!   made of; [`serializer`] puts them together and archives values, and
//!   [`encoder`] wraps an archive into a frame.
//! * [`frame`] walks a buffer of frames, [`archive`] validates and reads
//!   one archive, and [`decoder`] goes from buffers to documents.
//! * [`laws`] states what holds of all of them together.
//!
//! ```text
//! let frame = bellini::to_bytes::<4096>(&document)?;
//! assert_eq!(bellini::from_bytes(&frame)?, document);
//! ```

pub mod archive;
pub mod checksum;
pub mod decoder;
pub mod document;
pub mod encoder;
pub mod frame;
pub mod laws;
pub mod layout;
pub mod plan;
pub mod scratch;
pub mod serializer;
pub mod shared;
pub mod sink;
pub mod size;

pub use archive::{ArchivedBytes, ArchivedDocument, ArchivedText, ArchivedValue};
pub use checksum::{checksum, Checksum};
pub use decoder::{
    from_bytes, ArchivedIterator, Archiver, CheckedArchiver, Decoder, DeserializerIterator,
    UnsafeArchiver,
};
pub use document::{Bytes, Document, DocumentModel, Text, Value, ValueModel};
pub use encoder::{
    to_bytes, ChecksumAndLenWriter, EncodeError, Encoder, FrameError, DEFAULT_SCRATCH_SPACE,
};
pub use frame::{BufferWalker, DecodeError, FOOTER_SIZE, MAX_FRAME_LEN};
pub use scratch::{ScratchError, StackScratch};
pub use serializer::{BelliniSerializer, BelliniSerializerError};
pub use shared::{DuplicateSharedValue, SharedRegistry};
pub use sink::{BelliniWriteSerializer, Serializer, SinkFull, Writer};
