//! The container's data model: frame and residual-encoding tags, the file
//! header, table-of-contents entries, per-channel payloads, frames, and the
//! parsed file.

use vstd::prelude::*;

verus! {

/// File format version.
pub const VERSION_MAJOR: u8 = 1;

pub const VERSION_MINOR: u8 = 0;

/// Size of the header in bytes, the 4-byte magic excluded.
pub const HEADER_SIZE: u64 = 66;

/// The four magic bytes that open a file: the letters `FLO` and a bang.
pub open spec fn spec_magic() -> Seq<u8> {
    seq![0x46u8, 0x4cu8, 0x4fu8, 0x21u8]
}

/// The kind of one frame, discriminated by a single byte in the file:
/// 0 silence, 1 to 12 adaptive LPC of that order, 253 transform (lossy),
/// 254 raw PCM, anything else reserved.
#[derive(Debug, Clone, Copy, PartialEq, Eq, Structural)]
pub enum FrameType {
    Silence,
    Alpc1,
    Alpc2,
    Alpc3,
    Alpc4,
    Alpc5,
    Alpc6,
    Alpc7,
    Alpc8,
    Alpc9,
    Alpc10,
    Alpc11,
    Alpc12,
    Transform,
    Raw,
    Reserved,
}

pub open spec fn spec_frame_type_byte(t: FrameType) -> u8 {
    match t {
        FrameType::Silence => 0,
        FrameType::Alpc1 => 1,
        FrameType::Alpc2 => 2,
        FrameType::Alpc3 => 3,
        FrameType::Alpc4 => 4,
        FrameType::Alpc5 => 5,
        FrameType::Alpc6 => 6,
        FrameType::Alpc7 => 7,
        FrameType::Alpc8 => 8,
        FrameType::Alpc9 => 9,
        FrameType::Alpc10 => 10,
        FrameType::Alpc11 => 11,
        FrameType::Alpc12 => 12,
        FrameType::Transform => 253,
        FrameType::Raw => 254,
        FrameType::Reserved => 255,
    }
}

pub open spec fn spec_frame_type_of(v: u8) -> FrameType {
    if v == 0 {
        FrameType::Silence
    } else if v == 1 {
        FrameType::Alpc1
    } else if v == 2 {
        FrameType::Alpc2
    } else if v == 3 {
        FrameType::Alpc3
    } else if v == 4 {
        FrameType::Alpc4
    } else if v == 5 {
        FrameType::Alpc5
    } else if v == 6 {
        FrameType::Alpc6
    } else if v == 7 {
        FrameType::Alpc7
    } else if v == 8 {
        FrameType::Alpc8
    } else if v == 9 {
        FrameType::Alpc9
    } else if v == 10 {
        FrameType::Alpc10
    } else if v == 11 {
        FrameType::Alpc11
    } else if v == 12 {
        FrameType::Alpc12
    } else if v == 253 {
        FrameType::Transform
    } else if v == 254 {
        FrameType::Raw
    } else {
        FrameType::Reserved
    }
}

impl FrameType {
    /// The byte that stands for this frame type in the file.
    pub fn to_byte(self) -> (v: u8)
        ensures
            v == spec_frame_type_byte(self),
    {
        match self {
            FrameType::Silence => 0,
            FrameType::Alpc1 => 1,
            FrameType::Alpc2 => 2,
            FrameType::Alpc3 => 3,
            FrameType::Alpc4 => 4,
            FrameType::Alpc5 => 5,
            FrameType::Alpc6 => 6,
            FrameType::Alpc7 => 7,
            FrameType::Alpc8 => 8,
            FrameType::Alpc9 => 9,
            FrameType::Alpc10 => 10,
            FrameType::Alpc11 => 11,
            FrameType::Alpc12 => 12,
            FrameType::Transform => 253,
            FrameType::Raw => 254,
            FrameType::Reserved => 255,
        }
    }

    /// Reads a frame type back out of its byte.
    pub fn from_byte(v: u8) -> (t: FrameType)
        ensures
            t == spec_frame_type_of(v),
    {
        if v == 0 {
            FrameType::Silence
        } else if v == 1 {
            FrameType::Alpc1
        } else if v == 2 {
            FrameType::Alpc2
        } else if v == 3 {
            FrameType::Alpc3
        } else if v == 4 {
            FrameType::Alpc4
        } else if v == 5 {
            FrameType::Alpc5
        } else if v == 6 {
            FrameType::Alpc6
        } else if v == 7 {
            FrameType::Alpc7
        } else if v == 8 {
            FrameType::Alpc8
        } else if v == 9 {
            FrameType::Alpc9
        } else if v == 10 {
            FrameType::Alpc10
        } else if v == 11 {
            FrameType::Alpc11
        } else if v == 12 {
            FrameType::Alpc12
        } else if v == 253 {
            FrameType::Transform
        } else if v == 254 {
            FrameType::Raw
        } else {
            FrameType::Reserved
        }
    }

    /// The LPC order of an adaptive-LPC frame type.
    pub fn lpc_order(self) -> (r: Option<usize>)
        ensures
            r == (if 1 <= spec_frame_type_byte(self) <= 12 {
                Some(spec_frame_type_byte(self) as usize)
            } else {
                None::<usize>
            }),
    {
        let v: u8 = self.to_byte();
        if 1 <= v && v <= 12 {
            Some(v as usize)
        } else {
            None
        }
    }

    /// Whether this is an adaptive-LPC frame type.
    pub fn is_alpc(self) -> (r: bool)
        ensures
            r == (1 <= spec_frame_type_byte(self) <= 12),
    {
        let v: u8 = self.to_byte();
        1 <= v && v <= 12
    }

    /// Whether this is the transform (lossy) frame type.
    pub fn is_transform(self) -> (r: bool)
        ensures
            r == (self is Transform),
    {
        match self {
            FrameType::Transform => true,
            _ => false,
        }
    }

    /// The adaptive-LPC frame type of a given order; orders outside 1..=12
    /// fall back to order 8.
    pub fn from_order(order: usize) -> (t: FrameType)
        ensures
            t == (if 1 <= order <= 12 {
                spec_frame_type_of(order as u8)
            } else {
                FrameType::Alpc8
            }),
    {
        if 1 <= order && order <= 12 {
            Self::from_byte(order as u8)
        } else {
            FrameType::Alpc8
        }
    }
}

/// How the residual bytes of a channel are encoded.
#[derive(Debug, Clone, Copy, PartialEq, Eq, Structural)]
pub enum ResidualEncoding {
    Rice,
    Golomb,
    Raw,
}

pub open spec fn spec_residual_encoding_byte(e: ResidualEncoding) -> u8 {
    match e {
        ResidualEncoding::Rice => 0,
        ResidualEncoding::Golomb => 1,
        ResidualEncoding::Raw => 2,
    }
}

pub open spec fn spec_residual_encoding_of(v: u8) -> ResidualEncoding {
    if v == 0 {
        ResidualEncoding::Rice
    } else if v == 1 {
        ResidualEncoding::Golomb
    } else {
        ResidualEncoding::Raw
    }
}

impl ResidualEncoding {
    pub fn to_byte(self) -> (v: u8)
        ensures
            v == spec_residual_encoding_byte(self),
    {
        match self {
            ResidualEncoding::Rice => 0,
            ResidualEncoding::Golomb => 1,
            ResidualEncoding::Raw => 2,
        }
    }

    pub fn from_byte(v: u8) -> (e: ResidualEncoding)
        ensures
            e == spec_residual_encoding_of(v),
    {
        if v == 0 {
            ResidualEncoding::Rice
        } else if v == 1 {
            ResidualEncoding::Golomb
        } else {
            ResidualEncoding::Raw
        }
    }
}

/// The fixed 66-byte file header that follows the magic.
#[derive(Debug, Clone, Copy, PartialEq, Eq, Structural)]
pub struct Header {
    pub version_major: u8,
    pub version_minor: u8,
    pub flags: u16,
    pub sample_rate: u32,
    pub channels: u8,
    pub bit_depth: u8,
    pub total_frames: u64,
    pub compression_level: u8,
    pub data_crc32: u32,
    pub header_size: u64,
    pub toc_size: u64,
    pub data_size: u64,
    pub extra_size: u64,
    pub meta_size: u64,
}

impl Default for Header {
    /// A mono 44.1 kHz 16-bit header with no chunks.
    fn default() -> (h: Header)
        ensures
            h.version_major == VERSION_MAJOR,
            h.version_minor == VERSION_MINOR,
            h.flags == 0,
            h.sample_rate == 44100,
            h.channels == 1,
            h.bit_depth == 16,
            h.total_frames == 0,
            h.compression_level == 5,
            h.data_crc32 == 0,
            h.header_size == HEADER_SIZE,
            h.toc_size == 0,
            h.data_size == 0,
            h.extra_size == 0,
            h.meta_size == 0,
    {
        Header {
            version_major: VERSION_MAJOR,
            version_minor: VERSION_MINOR,
            flags: 0,
            sample_rate: 44100,
            channels: 1,
            bit_depth: 16,
            total_frames: 0,
            compression_level: 5,
            data_crc32: 0,
            header_size: HEADER_SIZE,
            toc_size: 0,
            data_size: 0,
            extra_size: 0,
            meta_size: 0,
        }
    }
}

/// One 20-byte table-of-contents entry.
#[derive(Debug, Clone, Copy, PartialEq, Eq, Structural)]
pub struct TocEntry {
    pub frame_index: u32,
    pub byte_offset: u64,
    pub frame_size: u32,
    pub timestamp_ms: u32,
}

/// The payload of one channel inside a frame.
#[derive(Debug, Clone, PartialEq, Eq)]
pub struct ChannelData {
    pub predictor_coeffs: Vec<i32>,
    pub shift_bits: u8,
    pub residual_encoding: ResidualEncoding,
    pub rice_parameter: u8,
    pub residuals: Vec<u8>,
}

impl ChannelData {
    /// An empty channel, as used by silence frames.
    pub fn new_silence() -> (c: ChannelData)
        ensures
            c.predictor_coeffs@ == Seq::<i32>::empty(),
            c.shift_bits == 0,
            c.residual_encoding is Rice,
            c.rice_parameter == 0,
            c.residuals@ == Seq::<u8>::empty(),
    {
        ChannelData {
            predictor_coeffs: Vec::new(),
            shift_bits: 0,
            residual_encoding: ResidualEncoding::Rice,
            rice_parameter: 0,
            residuals: Vec::new(),
        }
    }

    /// A channel holding raw 16-bit PCM bytes.
    pub fn new_raw(data: Vec<u8>) -> (c: ChannelData)
        ensures
            c.predictor_coeffs@ == Seq::<i32>::empty(),
            c.shift_bits == 0,
            c.residual_encoding is Raw,
            c.rice_parameter == 0,
            c.residuals@ == data@,
    {
        ChannelData {
            predictor_coeffs: Vec::new(),
            shift_bits: 0,
            residual_encoding: ResidualEncoding::Raw,
            rice_parameter: 0,
            residuals: data,
        }
    }

    /// A channel holding one serialized transform-frame blob. The fields
    /// beside the payload take the values the parser models an opaque
    /// transform channel with, so a written blob round-trips exactly.
    pub fn new_transform(data: Vec<u8>) -> (c: ChannelData)
        ensures
            c.predictor_coeffs@ == Seq::<i32>::empty(),
            c.shift_bits == 0,
            c.residual_encoding is Raw,
            c.rice_parameter == 0,
            c.residuals@ == data@,
    {
        ChannelData {
            predictor_coeffs: Vec::new(),
            shift_bits: 0,
            residual_encoding: ResidualEncoding::Raw,
            rice_parameter: 0,
            residuals: data,
        }
    }
}

/// One frame of audio: a type byte, the per-channel sample count, a flags
/// byte (bit 0 set means mid-side stereo), and the channel payloads.
#[derive(Debug, Clone, PartialEq, Eq)]
pub struct Frame {
    pub frame_type: u8,
    pub frame_samples: u32,
    pub flags: u8,
    pub channels: Vec<ChannelData>,
}

impl Frame {
    pub fn new(frame_type: u8, frame_samples: u32) -> (f: Frame)
        ensures
            f.frame_type == frame_type,
            f.frame_samples == frame_samples,
            f.flags == 0,
            f.channels@ == Seq::<ChannelData>::empty(),
    {
        Frame { frame_type, frame_samples, flags: 0, channels: Vec::new() }
    }
}

/// Everything that can go wrong while reading, writing, or streaming a
/// file.
#[derive(Debug, Clone, Copy, PartialEq, Eq, Structural)]
pub enum FloError {
    /// The first four bytes are not the magic.
    BadMagic,
    /// The buffer ends before a structure it declares.
    Truncated,
    /// The table of contents declares more entries than allowed.
    TooManyTocEntries,
    /// The declared TOC size does not match its entry count.
    InvalidTocSize,
    /// A frame declares more samples than allowed.
    TooManySamples,
    /// A channel declares an LPC order above 12.
    InvalidLpcOrder,
    /// A channel ends before its declared fields.
    ChannelTooSmall,
    /// The file declares no channels.
    ZeroChannels,
    /// A frame or channel is too large for its length field.
    FrameTooLarge,
    /// More frames than a table of contents can index.
    TooManyFrames,
    /// A streaming call needs a parsed header first.
    MissingHeader,
    /// A transform frame's payload cannot be deserialized.
    BadTransformFrame,
}

impl FloError {
    /// A short fixed description of the error.
    pub fn describe(&self) -> (s: &'static str)
    {
        match self {
            FloError::BadMagic => "invalid file: bad magic",
            FloError::Truncated => "unexpected end of file",
            FloError::TooManyTocEntries => "invalid TOC: too many entries",
            FloError::InvalidTocSize => "invalid TOC: size does not match entries",
            FloError::TooManySamples => "invalid frame: too many samples",
            FloError::InvalidLpcOrder => "invalid LPC order",
            FloError::ChannelTooSmall => "channel data truncated",
            FloError::ZeroChannels => "invalid header: zero channels",
            FloError::FrameTooLarge => "frame too large",
            FloError::TooManyFrames => "too many frames",
            FloError::MissingHeader => "no header",
            FloError::BadTransformFrame => "failed to deserialize transform frame",
        }
    }
}

/// The result type used throughout the library.
pub type FloResult<T> = Result<T, FloError>;

/// A whole parsed file.
#[derive(Debug, Clone)]
pub struct FloFile {
    pub header: Header,
    pub toc: Vec<TocEntry>,
    pub frames: Vec<Frame>,
    pub extra: Vec<u8>,
    pub metadata: Vec<u8>,
}

} // verus!
