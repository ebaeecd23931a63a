//! A container and codec for digital audio: a lossless predictive coder
//! (integer linear prediction with Rice-coded residuals) and the byte-exact
//! container around it (header, table of contents, frame stream, metadata),
//! together with the integer side of the transform (lossy) frame layout and
//! a streaming decoder.
//!
//! Samples inside the library are 16-bit PCM values held in `i32`; the
//! float interface of an application is a thin conversion layer outside it.

pub mod bits;
pub mod container;
pub mod crc32;
pub mod decoder;
pub mod encoder;
pub mod laws;
pub mod lpc;
pub mod metadata;
pub mod reader;
pub mod rice;
pub mod stereo;
pub mod streaming;
pub mod transform;
pub mod types;
pub mod writer;

pub use bits::BitReader;
pub use bits::BitWriter;
pub use container::get_metadata_bytes_native;
pub use container::has_metadata;
pub use container::strip_metadata_bytes;
pub use container::update_metadata_bytes;
pub use container::validate;
pub use container::validate_flo;
pub use container::strip_metadata_no_reencode;
pub use crc32::compute as compute_crc32;
pub use decoder::Decoder;
pub use encoder::Encoder;
pub use metadata::AnimatedCover;
pub use metadata::CollaborationCredit;
pub use metadata::Comment;
pub use metadata::CoverVariant;
pub use metadata::CoverVariantType;
pub use metadata::CreatorNote;
pub use metadata::KeyChange;
pub use metadata::Lyrics;
pub use metadata::Picture;
pub use metadata::PictureType;
pub use metadata::Popularimeter;
pub use metadata::RemixChainEntry;
pub use metadata::SectionMarker;
pub use metadata::SectionType;
pub use metadata::SyncedLyrics;
pub use metadata::SyncedLyricsContentType;
pub use metadata::SyncedLyricsLine;
pub use metadata::UserText;
pub use metadata::UserUrl;
pub use reader::Reader;
pub use streaming::DecoderState;
pub use streaming::EncodedFrame;
pub use streaming::StreamingAudioInfo;
pub use streaming::StreamingDecoder;
pub use streaming::StreamingEncoder;
pub use transform::deserialize_frame;
pub use transform::deserialize_sparse;
pub use transform::serialize_frame;
pub use transform::serialize_sparse;
pub use transform::BlockSize;
pub use transform::QualityPreset;
pub use transform::TransformFrame;
pub use types::ChannelData;
pub use types::FloError;
pub use types::FloFile;
pub use types::FloResult;
pub use types::Frame;
pub use types::FrameType;
pub use types::Header;
pub use types::ResidualEncoding;
pub use types::TocEntry;
pub use types::HEADER_SIZE;
pub use types::VERSION_MAJOR;
pub use types::VERSION_MINOR;
pub use writer::Writer;
