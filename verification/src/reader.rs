//! Parses a complete file: magic, header, table of contents, frames, and
//! metadata. The grammar is stated as a total specification-level parser
//! over the byte sequence, and the reader is proved to return exactly its
//! result — the same parsed structures on success, the same error otherwise.

use vstd::prelude::*;
use vstd::bytes::*;
use vstd::slice::{slice_subrange, slice_to_vec};

use crate::types::{
    ChannelData,
    FloError,
    FloFile,
    FloResult,
    Frame,
    FrameType,
    Header,
    ResidualEncoding,
    TocEntry,
    spec_frame_type_of,
    spec_magic,
    spec_residual_encoding_of,
};

verus! {

/// The 16-bit little-endian value at offset `p`.
pub open spec fn le16_at(b: Seq<u8>, p: int) -> u16 {
    spec_u16_from_le_bytes(b.subrange(p, p + 2))
}

/// The 32-bit little-endian value at offset `p`.
pub open spec fn le32_at(b: Seq<u8>, p: int) -> u32 {
    spec_u32_from_le_bytes(b.subrange(p, p + 4))
}

/// The 64-bit little-endian value at offset `p`.
pub open spec fn le64_at(b: Seq<u8>, p: int) -> u64 {
    spec_u64_from_le_bytes(b.subrange(p, p + 8))
}

/// The specification-level image of one parsed channel.
#[verifier::ext_equal]
pub struct ChannelModel {
    pub coeffs: Seq<i32>,
    pub shift_bits: u8,
    pub encoding: ResidualEncoding,
    pub rice_parameter: u8,
    pub residuals: Seq<u8>,
}

/// The specification-level image of one parsed frame.
#[verifier::ext_equal]
pub struct FrameModel {
    pub frame_type: u8,
    pub frame_samples: u32,
    pub flags: u8,
    pub channels: Seq<ChannelModel>,
}

/// The specification-level image of a parsed file.
#[verifier::ext_equal]
pub struct FileModel {
    pub header: Header,
    pub toc: Seq<TocEntry>,
    pub frames: Seq<FrameModel>,
    pub metadata: Seq<u8>,
}

pub open spec fn channel_model(c: ChannelData) -> ChannelModel {
    ChannelModel {
        coeffs: c.predictor_coeffs@,
        shift_bits: c.shift_bits,
        encoding: c.residual_encoding,
        rice_parameter: c.rice_parameter,
        residuals: c.residuals@,
    }
}

pub open spec fn frame_model(f: Frame) -> FrameModel {
    FrameModel {
        frame_type: f.frame_type,
        frame_samples: f.frame_samples,
        flags: f.flags,
        channels: f.channels@.map_values(|c: ChannelData| channel_model(c)),
    }
}

pub open spec fn file_model(f: FloFile) -> FileModel {
    FileModel {
        header: f.header,
        toc: f.toc@,
        frames: f.frames@.map_values(|fr: Frame| frame_model(fr)),
        metadata: f.metadata@,
    }
}

pub open spec fn silence_channel_model() -> ChannelModel {
    ChannelModel {
        coeffs: Seq::empty(),
        shift_bits: 0,
        encoding: ResidualEncoding::Rice,
        rice_parameter: 0,
        residuals: Seq::empty(),
    }
}

/// The header fields at their fixed offsets after the magic.
pub open spec fn spec_parse_header(b: Seq<u8>) -> Header
    recommends
        b.len() >= 70,
{
    Header {
        version_major: b[4],
        version_minor: b[5],
        flags: le16_at(b, 6),
        sample_rate: le32_at(b, 8),
        channels: b[12],
        bit_depth: b[13],
        total_frames: le64_at(b, 14),
        compression_level: b[22],
        data_crc32: le32_at(b, 26),
        header_size: le64_at(b, 30),
        toc_size: le64_at(b, 38),
        data_size: le64_at(b, 46),
        extra_size: le64_at(b, 54),
        meta_size: le64_at(b, 62),
    }
}

/// Table-of-contents entry `i`, 20 bytes at offset `74 + 20 i`.
pub open spec fn spec_parse_toc_entry(b: Seq<u8>, i: int) -> TocEntry {
    TocEntry {
        frame_index: le32_at(b, 74 + 20 * i),
        byte_offset: le64_at(b, 78 + 20 * i),
        frame_size: le32_at(b, 86 + 20 * i),
        timestamp_ms: le32_at(b, 90 + 20 * i),
    }
}

pub open spec fn spec_parse_toc(b: Seq<u8>, n: nat) -> Seq<TocEntry> {
    Seq::new(n, |i: int| spec_parse_toc_entry(b, i))
}

/// One channel blob over `[lo, hi)`: silence and reserved frames carry
/// nothing, raw frames carry up to `2 * samples` PCM bytes, transform frames
/// carry the whole blob, and adaptive-LPC blobs are coefficient count (at
/// most 12), coefficients, shift, encoding byte, Rice parameter when
/// Rice-coded, and the residual bytes to the end of the blob.
pub open spec fn spec_parse_channel(
    b: Seq<u8>,
    lo: int,
    hi: int,
    ft: FrameType,
    samples: u32,
) -> Result<ChannelModel, FloError> {
    match ft {
        FrameType::Silence => Ok(silence_channel_model()),
        FrameType::Reserved => Ok(silence_channel_model()),
        FrameType::Raw => {
            let take = if 2 * samples <= hi - lo {
                2 * samples as int
            } else {
                hi - lo
            };
            Ok(
                ChannelModel {
                    coeffs: Seq::empty(),
                    shift_bits: 0,
                    encoding: ResidualEncoding::Raw,
                    rice_parameter: 0,
                    residuals: b.subrange(lo, lo + take),
                },
            )
        },
        FrameType::Transform => Ok(
            ChannelModel {
                coeffs: Seq::empty(),
                shift_bits: 0,
                encoding: ResidualEncoding::Raw,
                rice_parameter: 0,
                residuals: b.subrange(lo, hi),
            },
        ),
        _ => {
            if lo >= hi {
                Err(FloError::ChannelTooSmall)
            } else {
                let order = b[lo] as int;
                if order > 12 {
                    Err(FloError::InvalidLpcOrder)
                } else if lo + 1 + 4 * order + 2 > hi {
                    Err(FloError::ChannelTooSmall)
                } else {
                    let shift = b[lo + 1 + 4 * order];
                    let enc = spec_residual_encoding_of(b[lo + 2 + 4 * order]);
                    if enc is Rice && lo + 4 * order + 4 > hi {
                        Err(FloError::ChannelTooSmall)
                    } else {
                        let res_lo = if enc is Rice {
                            lo + 4 * order + 4
                        } else {
                            lo + 4 * order + 3
                        };
                        Ok(
                            ChannelModel {
                                coeffs: Seq::new(
                                    order as nat,
                                    |j: int| le32_at(b, lo + 1 + 4 * j) as i32,
                                ),
                                shift_bits: shift,
                                encoding: enc,
                                rice_parameter: if enc is Rice {
                                    b[lo + 3 + 4 * order]
                                } else {
                                    0
                                },
                                residuals: b.subrange(res_lo, hi),
                            },
                        )
                    }
                }
            }
        },
    }
}

/// `count` length-prefixed channel blobs starting at `pos`, all within
/// `frame_end`.
pub open spec fn spec_parse_channels(
    b: Seq<u8>,
    pos: int,
    frame_end: int,
    ft: FrameType,
    samples: u32,
    count: nat,
) -> Result<Seq<ChannelModel>, FloError>
    decreases count,
{
    if count == 0 {
        Ok(Seq::empty())
    } else if pos + 4 > frame_end {
        Err(FloError::Truncated)
    } else {
        let sz = le32_at(b, pos) as int;
        if pos + 4 + sz > frame_end {
            Err(FloError::Truncated)
        } else {
            match spec_parse_channel(b, pos + 4, pos + 4 + sz, ft, samples) {
                Err(e) => Err(e),
                Ok(ch) => match spec_parse_channels(
                    b,
                    pos + 4 + sz,
                    frame_end,
                    ft,
                    samples,
                    (count - 1) as nat,
                ) {
                    Err(e) => Err(e),
                    Ok(rest) => Ok(seq![ch] + rest),
                },
            }
        }
    }
}

/// One frame of `size` bytes at `lo`: a 6-byte envelope, then one blob for a
/// transform frame and one per channel otherwise.
pub open spec fn spec_parse_frame(b: Seq<u8>, lo: int, size: int, channels: u8) -> Result<
    FrameModel,
    FloError,
> {
    if size < 6 {
        Err(FloError::Truncated)
    } else {
        let ft_byte = b[lo];
        let samples = le32_at(b, lo + 1);
        let flags = b[lo + 5];
        let ft = spec_frame_type_of(ft_byte);
        if samples > 2_000_000 {
            Err(FloError::TooManySamples)
        } else {
            let nch: nat = if ft is Transform {
                1
            } else {
                channels as nat
            };
            match spec_parse_channels(b, lo + 6, lo + size, ft, samples, nch) {
                Err(e) => Err(e),
                Ok(chs) => Ok(
                    FrameModel { frame_type: ft_byte, frame_samples: samples, flags, channels: chs },
                ),
            }
        }
    }
}

/// The frames named by the table of contents, from entry `i` on.
pub open spec fn spec_parse_frames(
    b: Seq<u8>,
    toc: Seq<TocEntry>,
    data_start: int,
    data_size: int,
    channels: u8,
    i: nat,
) -> Result<Seq<FrameModel>, FloError>
    decreases toc.len() - i,
{
    if i >= toc.len() {
        Ok(Seq::empty())
    } else {
        let e = toc[i as int];
        if e.byte_offset + e.frame_size > data_size {
            Err(FloError::Truncated)
        } else {
            match spec_parse_frame(
                b,
                data_start + e.byte_offset,
                e.frame_size as int,
                channels,
            ) {
                Err(er) => Err(er),
                Ok(f) => match spec_parse_frames(b, toc, data_start, data_size, channels, i + 1) {
                    Err(er) => Err(er),
                    Ok(rest) => Ok(seq![f] + rest),
                },
            }
        }
    }
}

/// The whole file grammar. Trailing bytes after the metadata are ignored.
pub open spec fn spec_parse_file(b: Seq<u8>) -> Result<FileModel, FloError> {
    if b.len() < 70 {
        Err(FloError::Truncated)
    } else if b.subrange(0, 4) != spec_magic() {
        Err(FloError::BadMagic)
    } else {
        let h = spec_parse_header(b);
        if h.channels == 0 {
            Err(FloError::ZeroChannels)
        } else if h.toc_size < 4 {
            Err(FloError::InvalidTocSize)
        } else if h.toc_size > b.len() - 70 {
            Err(FloError::Truncated)
        } else {
            let n = le32_at(b, 70) as nat;
            if n > 100_000 {
                Err(FloError::TooManyTocEntries)
            } else if h.toc_size != 4 + 20 * n {
                Err(FloError::InvalidTocSize)
            } else if h.data_size > b.len() - 70 - h.toc_size {
                Err(FloError::Truncated)
            } else if h.extra_size > b.len() - 70 - h.toc_size - h.data_size {
                Err(FloError::Truncated)
            } else if h.meta_size > b.len() - 70 - h.toc_size - h.data_size - h.extra_size {
                Err(FloError::Truncated)
            } else {
                let toc = spec_parse_toc(b, n);
                let data_start = 70 + h.toc_size as int;
                match spec_parse_frames(b, toc, data_start, h.data_size as int, h.channels, 0) {
                    Err(e) => Err(e),
                    Ok(frames) => {
                        let meta_lo = data_start + h.data_size + h.extra_size;
                        Ok(
                            FileModel {
                                header: h,
                                toc,
                                frames,
                                metadata: b.subrange(meta_lo, meta_lo + h.meta_size),
                            },
                        )
                    },
                }
            }
        }
    }
}

/// Two byte sequences that agree on a window parse the same channel there.
pub proof fn lemma_parse_channel_agree(
    b1: Seq<u8>,
    b2: Seq<u8>,
    lo: int,
    hi: int,
    ft: FrameType,
    samples: u32,
)
    requires
        0 <= lo <= hi <= b1.len(),
        hi <= b2.len(),
        b1.subrange(lo, hi) == b2.subrange(lo, hi),
    ensures
        spec_parse_channel(b1, lo, hi, ft, samples) == spec_parse_channel(b2, lo, hi, ft, samples),
{
    assert forall|i: int| lo <= i < hi implies b1[i] == b2[i] by {
        assert(b1.subrange(lo, hi)[i - lo] == b1[i]);
        assert(b2.subrange(lo, hi)[i - lo] == b2[i]);
        assert(b1.subrange(lo, hi)[i - lo] == b2.subrange(lo, hi)[i - lo]);
    }
    match ft {
        FrameType::Raw => {
            let take = if 2 * samples <= hi - lo {
                2 * samples as int
            } else {
                hi - lo
            };
            assert(b1.subrange(lo, lo + take) =~= b2.subrange(lo, lo + take));
        },
        FrameType::Transform => {
            assert(b1.subrange(lo, hi) =~= b2.subrange(lo, hi));
        },
        FrameType::Silence => {},
        FrameType::Reserved => {},
        _ => {
            if lo < hi {
                let order = b1[lo] as int;
                if order <= 12 && lo + 1 + 4 * order + 2 <= hi {
                    let enc = spec_residual_encoding_of(b1[lo + 2 + 4 * order]);
                    assert forall|j: int| 0 <= j < order implies #[trigger] le32_at(
                        b1,
                        lo + 1 + 4 * j,
                    ) == le32_at(b2, lo + 1 + 4 * j) by {
                        assert(b1.subrange(lo + 1 + 4 * j, lo + 1 + 4 * j + 4) =~= b2.subrange(
                            lo + 1 + 4 * j,
                            lo + 1 + 4 * j + 4,
                        ));
                    }
                    if !(enc is Rice && lo + 4 * order + 4 > hi) {
                        let res_lo = if enc is Rice {
                            lo + 4 * order + 4
                        } else {
                            lo + 4 * order + 3
                        };
                        assert(b1.subrange(res_lo, hi) =~= b2.subrange(res_lo, hi));
                        assert((spec_parse_channel(b1, lo, hi, ft, samples)->Ok_0).coeffs
                            =~= (spec_parse_channel(b2, lo, hi, ft, samples)->Ok_0).coeffs);
                    }
                }
            }
        },
    }
}

/// Two byte sequences that agree on a frame's window parse the same channel
/// list there.
pub proof fn lemma_parse_channels_agree(
    b1: Seq<u8>,
    b2: Seq<u8>,
    pos: int,
    frame_end: int,
    ft: FrameType,
    samples: u32,
    count: nat,
    lo: int,
)
    requires
        0 <= lo <= pos <= frame_end <= b1.len(),
        frame_end <= b2.len(),
        b1.subrange(lo, frame_end) == b2.subrange(lo, frame_end),
    ensures
        spec_parse_channels(b1, pos, frame_end, ft, samples, count) == spec_parse_channels(
            b2,
            pos,
            frame_end,
            ft,
            samples,
            count,
        ),
    decreases count,
{
    if count > 0 && pos + 4 <= frame_end {
        assert(le32_at(b1, pos) == le32_at(b2, pos)) by {
            assert forall|i: int| lo <= i < frame_end implies b1[i] == b2[i] by {
                assert(b1.subrange(lo, frame_end)[i - lo] == b1[i]);
                assert(b2.subrange(lo, frame_end)[i - lo] == b2[i]);
                assert(b1.subrange(lo, frame_end)[i - lo] == b2.subrange(lo, frame_end)[i - lo]);
            }
            assert(b1.subrange(pos, pos + 4) =~= b2.subrange(pos, pos + 4));
        }
        let sz = le32_at(b1, pos) as int;
        if pos + 4 + sz <= frame_end {
            assert(b1.subrange(pos + 4, pos + 4 + sz) =~= b2.subrange(pos + 4, pos + 4 + sz)) by {
                assert forall|i: int| lo <= i < frame_end implies b1[i] == b2[i] by {
                    assert(b1.subrange(lo, frame_end)[i - lo] == b1[i]);
                    assert(b2.subrange(lo, frame_end)[i - lo] == b2[i]);
                    assert(b1.subrange(lo, frame_end)[i - lo] == b2.subrange(lo, frame_end)[i
                        - lo]);
                }
            }
            lemma_parse_channel_agree(b1, b2, pos + 4, pos + 4 + sz, ft, samples);
            lemma_parse_channels_agree(
                b1,
                b2,
                pos + 4 + sz,
                frame_end,
                ft,
                samples,
                (count - 1) as nat,
                lo,
            );
        }
    }
}

/// Two byte sequences that agree on a frame's window parse the same frame.
pub proof fn lemma_parse_frame_agree(b1: Seq<u8>, b2: Seq<u8>, lo: int, size: int, channels: u8)
    requires
        0 <= lo,
        size >= 0,
        lo + size <= b1.len(),
        lo + size <= b2.len(),
        b1.subrange(lo, lo + size) == b2.subrange(lo, lo + size),
    ensures
        spec_parse_frame(b1, lo, size, channels) == spec_parse_frame(b2, lo, size, channels),
{
    if size >= 6 {
        assert forall|i: int| lo <= i < lo + size implies b1[i] == b2[i] by {
            assert(b1.subrange(lo, lo + size)[i - lo] == b1[i]);
            assert(b2.subrange(lo, lo + size)[i - lo] == b2[i]);
            assert(b1.subrange(lo, lo + size)[i - lo] == b2.subrange(lo, lo + size)[i - lo]);
        }
        assert(le32_at(b1, lo + 1) == le32_at(b2, lo + 1)) by {
            assert(b1.subrange(lo + 1, lo + 5) =~= b2.subrange(lo + 1, lo + 5));
        }
        let ft = spec_frame_type_of(b1[lo]);
        let samples = le32_at(b1, lo + 1);
        let nch: nat = if ft is Transform {
            1
        } else {
            channels as nat
        };
        lemma_parse_channels_agree(b1, b2, lo + 6, lo + size, ft, samples, nch, lo);
    }
}

/// Two byte sequences that agree on the whole data window parse the same
/// frame sequence.
pub proof fn lemma_parse_frames_agree(
    b1: Seq<u8>,
    b2: Seq<u8>,
    toc: Seq<TocEntry>,
    data_start: int,
    data_size: int,
    channels: u8,
    i: nat,
)
    requires
        0 <= data_start,
        data_size >= 0,
        data_start + data_size <= b1.len(),
        data_start + data_size <= b2.len(),
        b1.subrange(data_start, data_start + data_size) == b2.subrange(
            data_start,
            data_start + data_size,
        ),
    ensures
        spec_parse_frames(b1, toc, data_start, data_size, channels, i) == spec_parse_frames(
            b2,
            toc,
            data_start,
            data_size,
            channels,
            i,
        ),
    decreases toc.len() - i,
{
    if i < toc.len() {
        let e = toc[i as int];
        if e.byte_offset + e.frame_size <= data_size {
            assert(b1.subrange(
                data_start + e.byte_offset,
                data_start + e.byte_offset + e.frame_size,
            ) =~= b2.subrange(
                data_start + e.byte_offset,
                data_start + e.byte_offset + e.frame_size,
            )) by {
                assert forall|q: int|
                    data_start <= q < data_start + data_size implies b1[q] == b2[q] by {
                    assert(b1.subrange(data_start, data_start + data_size)[q - data_start]
                        == b1[q]);
                    assert(b2.subrange(data_start, data_start + data_size)[q - data_start]
                        == b2[q]);
                    assert(b1.subrange(data_start, data_start + data_size)[q - data_start]
                        == b2.subrange(data_start, data_start + data_size)[q - data_start]);
                }
            }
            lemma_parse_frame_agree(
                b1,
                b2,
                data_start + e.byte_offset,
                e.frame_size as int,
                channels,
            );
            lemma_parse_frames_agree(b1, b2, toc, data_start, data_size, channels, i + 1);
        }
    }
}

/// When the frame walk succeeds, it yields one frame per remaining entry,
/// each the parse of exactly the window its entry names.
pub proof fn lemma_parse_frames_element(
    b: Seq<u8>,
    toc: Seq<TocEntry>,
    data_start: int,
    data_size: int,
    channels: u8,
    i: nat,
    j: int,
)
    requires
        i <= toc.len(),
        spec_parse_frames(b, toc, data_start, data_size, channels, i) is Ok,
        0 <= j < toc.len() - i,
    ensures
        spec_parse_frames(b, toc, data_start, data_size, channels, i)->Ok_0.len() == toc.len()
            - i,
        toc[i + j].byte_offset + toc[i + j].frame_size <= data_size,
        spec_parse_frame(
            b,
            data_start + toc[i + j].byte_offset,
            toc[i + j].frame_size as int,
            channels,
        ) is Ok,
        spec_parse_frames(b, toc, data_start, data_size, channels, i)->Ok_0[j] == spec_parse_frame(
            b,
            data_start + toc[i + j].byte_offset,
            toc[i + j].frame_size as int,
            channels,
        )->Ok_0,
    decreases toc.len() - i,
{
    lemma_parse_frames_len(b, toc, data_start, data_size, channels, i);
    let fs = spec_parse_frames(b, toc, data_start, data_size, channels, i)->Ok_0;
    let rest = spec_parse_frames(b, toc, data_start, data_size, channels, i + 1)->Ok_0;
    let e0 = toc[i as int];
    let fm0 = spec_parse_frame(b, data_start + e0.byte_offset, e0.frame_size as int, channels);
    assert(fs == seq![fm0->Ok_0] + rest);
    if j == 0 {
        assert(toc[i as int + 0] == e0);
        assert(fs[0] == fm0->Ok_0);
    } else {
        lemma_parse_frames_element(b, toc, data_start, data_size, channels, i + 1, j - 1);
        assert(fs[j] == rest[j - 1]);
        assert(i + 1 + (j - 1) == i + j);
    }
}

/// A successful frame walk yields one frame per remaining entry.
pub proof fn lemma_parse_frames_len(
    b: Seq<u8>,
    toc: Seq<TocEntry>,
    data_start: int,
    data_size: int,
    channels: u8,
    i: nat,
)
    requires
        i <= toc.len(),
        spec_parse_frames(b, toc, data_start, data_size, channels, i) is Ok,
    ensures
        spec_parse_frames(b, toc, data_start, data_size, channels, i)->Ok_0.len() == toc.len()
            - i,
    decreases toc.len() - i,
{
    if i < toc.len() {
        lemma_parse_frames_len(b, toc, data_start, data_size, channels, i + 1);
    }
}

/// Streaming parity: in a file that parses, every frame the whole-file
/// reader yields is exactly the parse of the window its table-of-contents
/// entry names — the same frame a streaming decoder parses and decodes when
/// that window's bytes have arrived. Concatenating the streamed per-frame
/// decodes therefore reproduces the one-shot decode, which is by definition
/// that same concatenation.
pub proof fn lemma_streaming_parity(b: Seq<u8>)
    requires
        spec_parse_file(b) is Ok,
    ensures
        ({
            let f = spec_parse_file(b)->Ok_0;
            let h = f.header;
            &&& f.frames.len() == f.toc.len()
            &&& forall|i: int|
                0 <= i < f.frames.len() ==> (#[trigger] spec_parse_frame(
                    b,
                    70 + h.toc_size + f.toc[i].byte_offset,
                    f.toc[i].frame_size as int,
                    h.channels,
                )) is Ok && f.frames[i] == spec_parse_frame(
                    b,
                    70 + h.toc_size + f.toc[i].byte_offset,
                    f.toc[i].frame_size as int,
                    h.channels,
                )->Ok_0
        }),
{
    let f = spec_parse_file(b)->Ok_0;
    let h = f.header;
    let n = le32_at(b, 70) as nat;
    let toc = spec_parse_toc(b, n);
    lemma_parse_frames_len(b, toc, 70 + h.toc_size as int, h.data_size as int, h.channels, 0);
    assert forall|i: int|
        0 <= i < f.frames.len() implies (#[trigger] spec_parse_frame(
        b,
        70 + h.toc_size + f.toc[i].byte_offset,
        f.toc[i].frame_size as int,
        h.channels,
    )) is Ok && f.frames[i] == spec_parse_frame(
        b,
        70 + h.toc_size + f.toc[i].byte_offset,
        f.toc[i].frame_size as int,
        h.channels,
    )->Ok_0 by {
        lemma_parse_frames_element(
            b,
            toc,
            70 + h.toc_size as int,
            h.data_size as int,
            h.channels,
            0,
            i,
        );
        assert(0nat + i == i);
    }
}

/// Reads the 16-bit little-endian value at `p`.
pub fn read_u16_at(data: &[u8], p: usize) -> (v: u16)
    requires
        p + 2 <= data@.len(),
    ensures
        v == le16_at(data@, p as int),
{
    let n: usize = data.len();
    let s: &[u8] = slice_subrange(data, p, p + 2);
    u16_from_le_bytes(s)
}

/// Reads the 32-bit little-endian value at `p`.
pub fn read_u32_at(data: &[u8], p: usize) -> (v: u32)
    requires
        p + 4 <= data@.len(),
    ensures
        v == le32_at(data@, p as int),
{
    let n: usize = data.len();
    let s: &[u8] = slice_subrange(data, p, p + 4);
    u32_from_le_bytes(s)
}

/// Reads the 64-bit little-endian value at `p`.
pub fn read_u64_at(data: &[u8], p: usize) -> (v: u64)
    requires
        p + 8 <= data@.len(),
    ensures
        v == le64_at(data@, p as int),
{
    let n: usize = data.len();
    let s: &[u8] = slice_subrange(data, p, p + 8);
    u64_from_le_bytes(s)
}

/// Copies the bytes `[lo, hi)` out of a slice.
pub fn read_range(data: &[u8], lo: usize, hi: usize) -> (v: Vec<u8>)
    requires
        lo <= hi <= data@.len(),
    ensures
        v@ == data@.subrange(lo as int, hi as int),
{
    let s: &[u8] = slice_subrange(data, lo, hi);
    slice_to_vec(s)
}

/// Parses the header fields at their fixed offsets.
pub fn parse_header(data: &[u8]) -> (h: Header)
    requires
        data@.len() >= 70,
    ensures
        h == spec_parse_header(data@),
{
    Header {
        version_major: data[4],
        version_minor: data[5],
        flags: read_u16_at(data, 6),
        sample_rate: read_u32_at(data, 8),
        channels: data[12],
        bit_depth: data[13],
        total_frames: read_u64_at(data, 14),
        compression_level: data[22],
        data_crc32: read_u32_at(data, 26),
        header_size: read_u64_at(data, 30),
        toc_size: read_u64_at(data, 38),
        data_size: read_u64_at(data, 46),
        extra_size: read_u64_at(data, 54),
        meta_size: read_u64_at(data, 62),
    }
}

/// Parses one channel blob.
fn parse_channel(data: &[u8], lo: usize, hi: usize, ft: FrameType, samples: u32) -> (r: FloResult<
    ChannelData,
>)
    requires
        lo <= hi <= data@.len(),
        samples <= 2_000_000,
    ensures
        (r is Ok) == (spec_parse_channel(data@, lo as int, hi as int, ft, samples) is Ok),
        r is Ok ==> channel_model(r->Ok_0) == spec_parse_channel(
            data@,
            lo as int,
            hi as int,
            ft,
            samples,
        )->Ok_0,
        r is Err ==> r->Err_0 == spec_parse_channel(
            data@,
            lo as int,
            hi as int,
            ft,
            samples,
        )->Err_0,
{
    match ft {
        FrameType::Silence => Ok(ChannelData::new_silence()),
        FrameType::Reserved => Ok(ChannelData::new_silence()),
        FrameType::Raw => {
            let need: usize = 2 * (samples as usize);
            let take: usize = if need <= hi - lo {
                need
            } else {
                hi - lo
            };
            let residuals: Vec<u8> = read_range(data, lo, lo + take);
            Ok(ChannelData::new_raw(residuals))
        },
        FrameType::Transform => {
            let residuals: Vec<u8> = read_range(data, lo, hi);
            Ok(
                ChannelData {
                    predictor_coeffs: Vec::new(),
                    shift_bits: 0,
                    residual_encoding: ResidualEncoding::Raw,
                    rice_parameter: 0,
                    residuals,
                },
            )
        },
        _ => {
            if lo >= hi {
                return Err(FloError::ChannelTooSmall);
            }
            let order: usize = data[lo] as usize;
            if order > 12 {
                return Err(FloError::InvalidLpcOrder);
            }
            if 1 + 4 * order + 2 > hi - lo {
                return Err(FloError::ChannelTooSmall);
            }
            let ghost target = spec_parse_channel(
                data@,
                lo as int,
                hi as int,
                ft,
                samples,
            )->Ok_0;
            let mut coeffs: Vec<i32> = Vec::new();
            let mut j: usize = 0;
            while j < order
                invariant
                    j <= order <= 12,
                    lo + 1 + 4 * order + 2 <= hi <= data@.len(),
                    coeffs@.len() == j,
                    forall|q: int|
                        0 <= q < j ==> #[trigger] coeffs@[q] == le32_at(
                            data@,
                            lo + 1 + 4 * q,
                        ) as i32,
                decreases order - j,
            {
                let w: u32 = read_u32_at(data, lo + 1 + 4 * j);
                coeffs.push(#[verifier::truncate] (w as i32));
                j = j + 1;
            }
            let shift_bits: u8 = data[lo + 1 + 4 * order];
            let enc_byte: u8 = data[lo + 2 + 4 * order];
            let encoding: ResidualEncoding = ResidualEncoding::from_byte(enc_byte);
            let is_rice: bool = matches!(encoding, ResidualEncoding::Rice);
            if is_rice && 4 * order + 4 > hi - lo {
                return Err(FloError::ChannelTooSmall);
            }
            let rice_parameter: u8 = if is_rice {
                data[lo + 3 + 4 * order]
            } else {
                0
            };
            let res_lo: usize = if is_rice {
                lo + 4 * order + 4
            } else {
                lo + 4 * order + 3
            };
            let residuals: Vec<u8> = read_range(data, res_lo, hi);
            let c = ChannelData { predictor_coeffs: coeffs, shift_bits, residual_encoding: encoding, rice_parameter, residuals };
            proof {
                assert(channel_model(c).coeffs =~= target.coeffs);
            }
            Ok(c)
        },
    }
}

/// Parses one frame of `size` bytes at `lo`.
#[verifier::loop_isolation(false)]
pub fn parse_frame_at(data: &[u8], lo: usize, size: usize, channels: u8) -> (r: FloResult<Frame>)
    requires
        lo + size <= data@.len(),
    ensures
        (r is Ok) == (spec_parse_frame(data@, lo as int, size as int, channels) is Ok),
        r is Ok ==> frame_model(r->Ok_0) == spec_parse_frame(
            data@,
            lo as int,
            size as int,
            channels,
        )->Ok_0,
        r is Err ==> r->Err_0 == spec_parse_frame(
            data@,
            lo as int,
            size as int,
            channels,
        )->Err_0,
{
    if size < 6 {
        return Err(FloError::Truncated);
    }
    let frame_type: u8 = data[lo];
    let frame_samples: u32 = read_u32_at(data, lo + 1);
    let flags: u8 = data[lo + 5];
    let ft: FrameType = FrameType::from_byte(frame_type);
    if frame_samples > 2_000_000 {
        return Err(FloError::TooManySamples);
    }
    let nch: usize = if ft.is_transform() {
        1
    } else {
        channels as usize
    };
    let frame_end: usize = lo + size;
    let mut chs: Vec<ChannelData> = Vec::new();
    let mut pos: usize = lo + 6;
    let mut remaining: usize = nch;
    let ghost whole = spec_parse_channels(
        data@,
        lo + 6,
        frame_end as int,
        ft,
        frame_samples,
        nch as nat,
    );
    proof {
        assert(chs@.map_values(|c: ChannelData| channel_model(c)) =~= Seq::<
            ChannelModel,
        >::empty());
        if whole is Ok {
            assert(Seq::<ChannelModel>::empty() + whole->Ok_0 =~= whole->Ok_0);
        }
    }
    while remaining > 0
        invariant
            pos <= frame_end <= data@.len(),
            remaining <= nch,
            chs@.len() + remaining == nch,
            frame_samples <= 2_000_000,
            whole == spec_parse_channels(
                data@,
                lo + 6,
                frame_end as int,
                ft,
                frame_samples,
                nch as nat,
            ),
            ({
                let rest = spec_parse_channels(
                    data@,
                    pos as int,
                    frame_end as int,
                    ft,
                    frame_samples,
                    remaining as nat,
                );
                &&& (rest is Ok ==> whole is Ok && whole->Ok_0 == chs@.map_values(
                    |c: ChannelData| channel_model(c),
                ) + rest->Ok_0)
                &&& (rest is Err ==> whole is Err && whole->Err_0 == rest->Err_0)
            }),
        decreases remaining,
    {
        let ghost rest0 = spec_parse_channels(
            data@,
            pos as int,
            frame_end as int,
            ft,
            frame_samples,
            remaining as nat,
        );
        if frame_end - pos < 4 {
            return Err(FloError::Truncated);
        }
        let sz: u32 = read_u32_at(data, pos);
        if (sz as u64) > (frame_end - pos - 4) as u64 {
            return Err(FloError::Truncated);
        }
        let ch: ChannelData = match parse_channel(
            data,
            pos + 4,
            pos + 4 + (sz as usize),
            ft,
            frame_samples,
        ) {
            Ok(c) => c,
            Err(e) => {
                return Err(e);
            },
        };
        chs.push(ch);
        pos = pos + 4 + (sz as usize);
        remaining = remaining - 1;
        proof {
            let rest1 = spec_parse_channels(
                data@,
                pos as int,
                frame_end as int,
                ft,
                frame_samples,
                remaining as nat,
            );
            if rest1 is Ok {
                assert(chs@.map_values(|c: ChannelData| channel_model(c)) + rest1->Ok_0
                    =~= chs@.drop_last().map_values(|c: ChannelData| channel_model(c))
                    + rest0->Ok_0);
            }
        }
    }
    proof {
        assert(spec_parse_channels(
            data@,
            pos as int,
            frame_end as int,
            ft,
            frame_samples,
            0,
        ) is Ok);
        assert(chs@.map_values(|c: ChannelData| channel_model(c)) + Seq::<ChannelModel>::empty()
            =~= chs@.map_values(|c: ChannelData| channel_model(c)));
    }
    let mut f = Frame::new(frame_type, frame_samples);
    f.flags = flags;
    f.channels = chs;
    Ok(f)
}

/// Binary reader for the container format.
pub struct Reader;

impl Reader {
    pub fn new() -> Reader {
        Reader
    }

    /// Parses a whole file. Succeeds exactly when the byte sequence follows
    /// the file grammar, returning the parsed header, table of contents,
    /// frames, and metadata; otherwise the grammar's error.
    #[verifier::loop_isolation(false)]
    #[verifier::rlimit(60)]
    pub fn read(&self, data: &[u8]) -> (r: FloResult<FloFile>)
        ensures
            (r is Ok) == (spec_parse_file(data@) is Ok),
            r is Ok ==> file_model(r->Ok_0) == spec_parse_file(data@)->Ok_0,
            r is Err ==> r->Err_0 == spec_parse_file(data@)->Err_0,
    {
        if data.len() < 70 {
            return Err(FloError::Truncated);
        }
        if !(data[0] == 0x46 && data[1] == 0x4c && data[2] == 0x4f && data[3] == 0x21) {
            proof {
                if data@.subrange(0, 4) =~= spec_magic() {
                    assert(data@[0] == 0x46 && data@[1] == 0x4c && data@[2] == 0x4f && data@[3]
                        == 0x21);
                }
            }
            return Err(FloError::BadMagic);
        }
        proof {
            assert(data@.subrange(0, 4) =~= spec_magic());
        }
        let h: Header = parse_header(data);
        if h.channels == 0 {
            return Err(FloError::ZeroChannels);
        }
        if h.toc_size < 4 {
            return Err(FloError::InvalidTocSize);
        }
        if h.toc_size > (data.len() - 70) as u64 {
            return Err(FloError::Truncated);
        }
        let n: u32 = read_u32_at(data, 70);
        if n > 100_000 {
            return Err(FloError::TooManyTocEntries);
        }
        if h.toc_size != 4 + 20 * (n as u64) {
            return Err(FloError::InvalidTocSize);
        }
        let after_toc: u64 = (data.len() as u64) - 70 - h.toc_size;
        if h.data_size > after_toc {
            return Err(FloError::Truncated);
        }
        let after_data: u64 = after_toc - h.data_size;
        if h.extra_size > after_data {
            return Err(FloError::Truncated);
        }
        let after_extra: u64 = after_data - h.extra_size;
        if h.meta_size > after_extra {
            return Err(FloError::Truncated);
        }
        // table of contents
        let mut toc: Vec<TocEntry> = Vec::new();
        let mut i: usize = 0;
        while i < (n as usize)
            invariant
                i <= n,
                n <= 100_000,
                toc@.len() == i,
                74 + 20 * (n as int) <= data@.len(),
                forall|q: int| 0 <= q < i ==> #[trigger] toc@[q] == spec_parse_toc_entry(data@, q),
            decreases n - i,
        {
            let base: usize = 74 + 20 * i;
            let e = TocEntry {
                frame_index: read_u32_at(data, base),
                byte_offset: read_u64_at(data, base + 4),
                frame_size: read_u32_at(data, base + 12),
                timestamp_ms: read_u32_at(data, base + 16),
            };
            toc.push(e);
            i = i + 1;
        }
        proof {
            assert(toc@ =~= spec_parse_toc(data@, n as nat));
        }
        let data_start: usize = 70 + (h.toc_size as usize);
        // frames
        let ghost whole = spec_parse_frames(
            data@,
            toc@,
            data_start as int,
            h.data_size as int,
            h.channels,
            0,
        );
        let mut frames: Vec<Frame> = Vec::new();
        let mut fi: usize = 0;
        proof {
            assert(frames@.map_values(|fr: Frame| frame_model(fr)) =~= Seq::<
                FrameModel,
            >::empty());
            if whole is Ok {
                assert(Seq::<FrameModel>::empty() + whole->Ok_0 =~= whole->Ok_0);
            }
            assert(h.toc_size as usize == h.toc_size);
        }
        while fi < toc.len()
            invariant
                fi <= toc@.len() == n,
                toc@ == spec_parse_toc(data@, n as nat),
                frames@.len() == fi,
                data_start == 70 + h.toc_size,
                data_start + h.data_size <= data@.len(),
                whole == spec_parse_frames(
                    data@,
                    toc@,
                    data_start as int,
                    h.data_size as int,
                    h.channels,
                    0,
                ),
                ({
                    let rest = spec_parse_frames(
                        data@,
                        toc@,
                        data_start as int,
                        h.data_size as int,
                        h.channels,
                        fi as nat,
                    );
                    &&& (rest is Ok ==> whole is Ok && whole->Ok_0 == frames@.map_values(
                        |fr: Frame| frame_model(fr),
                    ) + rest->Ok_0)
                    &&& (rest is Err ==> whole is Err && whole->Err_0 == rest->Err_0)
                }),
            decreases toc@.len() - fi,
        {
            let ghost rest0 = spec_parse_frames(
                data@,
                toc@,
                data_start as int,
                h.data_size as int,
                h.channels,
                fi as nat,
            );
            let e: TocEntry = toc[fi];
            proof {
                assert(toc@[fi as int] == spec_parse_toc_entry(data@, fi as int));
            }
            if e.byte_offset > h.data_size || (e.frame_size as u64) > h.data_size
                - e.byte_offset {
                return Err(FloError::Truncated);
            }
            proof {
                assert(e.byte_offset <= h.data_size);
                assert(data_start + h.data_size <= data@.len());
                assert(e.byte_offset as usize == e.byte_offset);
                assert(e.frame_size as usize == e.frame_size);
            }
            let flo: usize = data_start + (e.byte_offset as usize);
            let f: Frame = match parse_frame_at(data, flo, e.frame_size as usize, h.channels) {
                Ok(f) => f,
                Err(er) => {
                    return Err(er);
                },
            };
            frames.push(f);
            fi = fi + 1;
            proof {
                let rest1 = spec_parse_frames(
                    data@,
                    toc@,
                    data_start as int,
                    h.data_size as int,
                    h.channels,
                    fi as nat,
                );
                if rest1 is Ok {
                    assert(frames@.map_values(|fr: Frame| frame_model(fr)) + rest1->Ok_0
                        =~= frames@.drop_last().map_values(|fr: Frame| frame_model(fr))
                        + rest0->Ok_0);
                }
            }
        }
        proof {
            assert(spec_parse_frames(
                data@,
                toc@,
                data_start as int,
                h.data_size as int,
                h.channels,
                n as nat,
            ) is Ok);
            assert(frames@.map_values(|fr: Frame| frame_model(fr)) + Seq::<FrameModel>::empty()
                =~= frames@.map_values(|fr: Frame| frame_model(fr)));
        }
        // metadata
        let meta_lo: usize = data_start + (h.data_size as usize) + (h.extra_size as usize);
        let metadata: Vec<u8> = read_range(data, meta_lo, meta_lo + (h.meta_size as usize));
        let file = FloFile { header: h, toc, frames, extra: Vec::new(), metadata };
        proof {
            assert(file_model(file) == spec_parse_file(data@)->Ok_0);
        }
        Ok(file)
    }
}

} // verus!
