//! Assembles a complete file: magic, header, table of contents, DATA chunk,
//! and metadata. The byte layout is stated by spec functions and the writer
//! is proved to produce exactly that layout.

use vstd::prelude::*;
use vstd::bytes::*;

use crate::crc32::spec_crc32;
use crate::types::{
    ChannelData,
    FloError,
    FloResult,
    Frame,
    FrameType,
    Header,
    ResidualEncoding,
    spec_frame_type_of,
    spec_magic,
    spec_residual_encoding_byte,
    HEADER_SIZE,
    VERSION_MAJOR,
    VERSION_MINOR,
};

verus! {

/// Little-endian bytes of a signed coefficient.
pub open spec fn spec_i32_le(v: i32) -> Seq<u8> {
    spec_u32_to_le_bytes(v as u32)
}

/// The little-endian bytes of a coefficient sequence.
pub open spec fn spec_coeffs_bytes(cs: Seq<i32>) -> Seq<u8>
    decreases cs.len(),
{
    if cs.len() == 0 {
        Seq::empty()
    } else {
        spec_coeffs_bytes(cs.drop_last()) + spec_i32_le(cs.last())
    }
}

/// The serialized body of one channel, as a function of the frame type:
/// silence has no body, raw and transform channels carry their bytes as
/// they are, and an adaptive-LPC channel is coefficient count, coefficients,
/// shift, residual-encoding byte, the Rice parameter when Rice-coded, and
/// the residual bytes.
pub open spec fn spec_channel_bytes(ch: ChannelData, ft: FrameType) -> Seq<u8> {
    match ft {
        FrameType::Silence => Seq::empty(),
        FrameType::Raw => ch.residuals@,
        FrameType::Transform => ch.residuals@,
        FrameType::Reserved => Seq::empty(),
        _ => seq![ch.predictor_coeffs@.len() as u8] + spec_coeffs_bytes(ch.predictor_coeffs@)
            + seq![ch.shift_bits] + seq![spec_residual_encoding_byte(ch.residual_encoding)] + (
        if ch.residual_encoding is Rice {
            seq![ch.rice_parameter]
        } else {
            Seq::<u8>::empty()
        }) + ch.residuals@,
    }
}

/// The channel blobs of a frame, each preceded by its 32-bit length.
pub open spec fn spec_channels_bytes(chs: Seq<ChannelData>, ft: FrameType) -> Seq<u8>
    decreases chs.len(),
{
    if chs.len() == 0 {
        Seq::empty()
    } else {
        let body = spec_channel_bytes(chs.last(), ft);
        spec_channels_bytes(chs.drop_last(), ft) + spec_u32_to_le_bytes(body.len() as u32) + body
    }
}

/// One serialized frame: type byte, per-channel sample count, flags byte,
/// then the length-prefixed channel blobs.
pub open spec fn spec_frame_bytes(f: Frame) -> Seq<u8> {
    seq![f.frame_type] + spec_u32_to_le_bytes(f.frame_samples) + seq![f.flags]
        + spec_channels_bytes(f.channels@, spec_frame_type_of(f.frame_type))
}

/// The DATA chunk: every frame in order.
pub open spec fn spec_data_bytes(frames: Seq<Frame>) -> Seq<u8>
    decreases frames.len(),
{
    if frames.len() == 0 {
        Seq::empty()
    } else {
        spec_data_bytes(frames.drop_last()) + spec_frame_bytes(frames.last())
    }
}

/// The byte offset of frame `i` inside the DATA chunk.
pub open spec fn spec_frame_offset(frames: Seq<Frame>, i: int) -> nat {
    spec_data_bytes(frames.take(i)).len()
}

/// The table-of-contents entries.
pub open spec fn spec_toc_entries(frames: Seq<Frame>, n: int) -> Seq<u8>
    decreases n,
{
    if n <= 0 {
        Seq::empty()
    } else {
        spec_toc_entries(frames, n - 1) + spec_u32_to_le_bytes((n - 1) as u32)
            + spec_u64_to_le_bytes(spec_frame_offset(frames, n - 1) as u64) + spec_u32_to_le_bytes(
            spec_frame_bytes(frames[n - 1]).len() as u32,
        ) + spec_u32_to_le_bytes(((n - 1) * 1000) as u32)
    }
}

/// The TOC chunk: an entry count and one 20-byte record per frame.
pub open spec fn spec_toc_bytes(frames: Seq<Frame>) -> Seq<u8> {
    spec_u32_to_le_bytes(frames.len() as u32) + spec_toc_entries(frames, frames.len() as int)
}

/// The 66 header bytes that follow the magic.
pub open spec fn spec_header_bytes(h: Header) -> Seq<u8> {
    seq![h.version_major, h.version_minor] + spec_u16_to_le_bytes(h.flags)
        + spec_u32_to_le_bytes(h.sample_rate) + seq![h.channels, h.bit_depth]
        + spec_u64_to_le_bytes(h.total_frames) + seq![h.compression_level, 0u8, 0u8, 0u8]
        + spec_u32_to_le_bytes(h.data_crc32) + spec_u64_to_le_bytes(h.header_size)
        + spec_u64_to_le_bytes(h.toc_size) + spec_u64_to_le_bytes(h.data_size)
        + spec_u64_to_le_bytes(h.extra_size) + spec_u64_to_le_bytes(h.meta_size)
}

/// The header a writer produces for a frame sequence and metadata.
pub open spec fn spec_written_header(
    sample_rate: u32,
    channels: u8,
    bit_depth: u8,
    compression_level: u8,
    lossy: bool,
    lossy_quality: u8,
    frames: Seq<Frame>,
    metadata: Seq<u8>,
) -> Header {
    Header {
        version_major: VERSION_MAJOR,
        version_minor: VERSION_MINOR,
        flags: if lossy {
            (1 + (lossy_quality as u16) * 256) as u16
        } else {
            0u16
        },
        sample_rate,
        channels,
        bit_depth,
        total_frames: frames.len() as u64,
        compression_level,
        data_crc32: spec_crc32(spec_data_bytes(frames)),
        header_size: HEADER_SIZE,
        toc_size: (4 + frames.len() * 20) as u64,
        data_size: spec_data_bytes(frames).len() as u64,
        extra_size: 0,
        meta_size: metadata.len() as u64,
    }
}

/// A whole written file.
pub open spec fn spec_file_bytes(h: Header, frames: Seq<Frame>, metadata: Seq<u8>) -> Seq<u8> {
    spec_magic() + spec_header_bytes(h) + spec_toc_bytes(frames) + spec_data_bytes(frames)
        + metadata
}

/// What the writer accepts: a bounded frame count, coefficient counts that
/// fit their count byte, channel blobs whose length fits its 32-bit prefix,
/// and frames whose size fits a TOC record.
pub open spec fn spec_channel_writable(ch: ChannelData, ft: FrameType) -> bool {
    &&& ch.predictor_coeffs@.len() <= 255
    &&& spec_channel_bytes(ch, ft).len() < 0x1_0000_0000
}

pub open spec fn spec_frame_writable(f: Frame) -> bool {
    &&& forall|j: int|
        0 <= j < f.channels@.len() ==> spec_channel_writable(
            #[trigger] f.channels@[j],
            spec_frame_type_of(f.frame_type),
        )
    &&& spec_frame_bytes(f).len() < 0x1_0000_0000
}

pub open spec fn spec_frames_writable(frames: Seq<Frame>) -> bool {
    &&& frames.len() <= 100_000
    &&& forall|i: int| 0 <= i < frames.len() ==> spec_frame_writable(#[trigger] frames[i])
}

/// A channel whose serialized form parses back to its own model: silence
/// frames carry empty channels, raw frames carry whole 16-bit payloads, and
/// adaptive-LPC channels keep their order within 12.
pub open spec fn spec_channel_parseable(ch: ChannelData, ft: FrameType, samples: u32) -> bool {
    match ft {
        FrameType::Silence => crate::reader::channel_model(ch) == crate::reader::silence_channel_model(),
        FrameType::Reserved => crate::reader::channel_model(ch) == crate::reader::silence_channel_model(),
        FrameType::Raw => {
            &&& ch.predictor_coeffs@.len() == 0
            &&& ch.shift_bits == 0
            &&& ch.residual_encoding is Raw
            &&& ch.rice_parameter == 0
            &&& ch.residuals@.len() <= 2 * samples
        },
        FrameType::Transform => {
            &&& ch.predictor_coeffs@.len() == 0
            &&& ch.shift_bits == 0
            &&& ch.residual_encoding is Raw
            &&& ch.rice_parameter == 0
        },
        _ => {
            &&& ch.predictor_coeffs@.len() <= 12
            &&& (!(ch.residual_encoding is Rice) ==> ch.rice_parameter == 0)
        },
    }
}

/// A frame whose serialized form parses back to its own model. A transform
/// frame carries its whole payload as one opaque channel, so the grammar
/// reads exactly one channel for it.
pub open spec fn spec_frame_parseable(f: Frame, channels: u8) -> bool {
    &&& f.frame_samples <= 2_000_000
    &&& f.channels@.len() == (if spec_frame_type_of(f.frame_type) is Transform {
        1nat
    } else {
        channels as nat
    })
    &&& forall|j: int|
        0 <= j < f.channels@.len() ==> spec_channel_parseable(
            #[trigger] f.channels@[j],
            spec_frame_type_of(f.frame_type),
            f.frame_samples,
        )
}

/// Appends a byte slice.
pub fn push_bytes(dst: &mut Vec<u8>, src: &[u8])
    ensures
        final(dst)@ == old(dst)@ + src@,
{
    let mut i: usize = 0;
    proof {
        assert(dst@ =~= old(dst)@ + src@.take(0));
    }
    while i < src.len()
        invariant
            i <= src@.len(),
            dst@ == old(dst)@ + src@.take(i as int),
        decreases src@.len() - i,
    {
        dst.push(src[i]);
        i = i + 1;
        proof {
            assert(dst@ =~= old(dst)@ + src@.take(i as int));
        }
    }
    proof {
        assert(old(dst)@ + src@.take(src@.len() as int) =~= old(dst)@ + src@);
    }
}

/// Appends a slice of samples.
pub fn push_i32s(dst: &mut Vec<i32>, src: &[i32])
    ensures
        final(dst)@ == old(dst)@ + src@,
{
    let mut i: usize = 0;
    proof {
        assert(dst@ =~= old(dst)@ + src@.take(0));
    }
    while i < src.len()
        invariant
            i <= src@.len(),
            dst@ == old(dst)@ + src@.take(i as int),
        decreases src@.len() - i,
    {
        dst.push(src[i]);
        i = i + 1;
        proof {
            assert(dst@ =~= old(dst)@ + src@.take(i as int));
        }
    }
    proof {
        assert(old(dst)@ + src@.take(src@.len() as int) =~= old(dst)@ + src@);
    }
}

/// Appends a 16-bit value, little-endian.
pub fn push_u16_le(dst: &mut Vec<u8>, v: u16)
    ensures
        final(dst)@ == old(dst)@ + spec_u16_to_le_bytes(v),
{
    let mut tmp: Vec<u8> = u16_to_le_bytes(v);
    dst.append(&mut tmp);
}

/// Appends a 32-bit value, little-endian.
pub fn push_u32_le(dst: &mut Vec<u8>, v: u32)
    ensures
        final(dst)@ == old(dst)@ + spec_u32_to_le_bytes(v),
{
    let mut tmp: Vec<u8> = u32_to_le_bytes(v);
    dst.append(&mut tmp);
}

/// Appends a 64-bit value, little-endian.
pub fn push_u64_le(dst: &mut Vec<u8>, v: u64)
    ensures
        final(dst)@ == old(dst)@ + spec_u64_to_le_bytes(v),
{
    let mut tmp: Vec<u8> = u64_to_le_bytes(v);
    dst.append(&mut tmp);
}

/// Appends a signed coefficient, little-endian.
pub fn push_i32_le(dst: &mut Vec<u8>, v: i32)
    ensures
        final(dst)@ == old(dst)@ + spec_i32_le(v),
{
    let u: u32 = #[verifier::truncate] (v as u32);
    push_u32_le(dst, u);
}

/// Serializes one channel body.
fn build_channel_bytes(ch: &ChannelData, ft: FrameType) -> (out: Vec<u8>)
    requires
        ch.predictor_coeffs@.len() <= 255,
    ensures
        out@ == spec_channel_bytes(*ch, ft),
{
    let mut out: Vec<u8> = Vec::new();
    match ft {
        FrameType::Silence => {
            proof {
                assert(out@ =~= spec_channel_bytes(*ch, ft));
            }
        },
        FrameType::Raw => {
            push_bytes(&mut out, ch.residuals.as_slice());
            proof {
                assert(out@ =~= spec_channel_bytes(*ch, ft));
            }
        },
        FrameType::Transform => {
            push_bytes(&mut out, ch.residuals.as_slice());
            proof {
                assert(out@ =~= spec_channel_bytes(*ch, ft));
            }
        },
        FrameType::Reserved => {
            proof {
                assert(out@ =~= spec_channel_bytes(*ch, ft));
            }
        },
        _ => {
            out.push(ch.predictor_coeffs.len() as u8);
            let mut ci: usize = 0;
            let ghost base = out@;
            while ci < ch.predictor_coeffs.len()
                invariant
                    ci <= ch.predictor_coeffs@.len(),
                    out@ == base + spec_coeffs_bytes(ch.predictor_coeffs@.take(ci as int)),
                decreases ch.predictor_coeffs@.len() - ci,
            {
                push_i32_le(&mut out, ch.predictor_coeffs[ci]);
                ci = ci + 1;
                proof {
                    assert(ch.predictor_coeffs@.take(ci as int).drop_last()
                        =~= ch.predictor_coeffs@.take(ci - 1));
                    assert(out@ =~= base + spec_coeffs_bytes(
                        ch.predictor_coeffs@.take(ci as int),
                    ));
                }
            }
            proof {
                assert(ch.predictor_coeffs@.take(ch.predictor_coeffs@.len() as int)
                    =~= ch.predictor_coeffs@);
            }
            out.push(ch.shift_bits);
            out.push(ch.residual_encoding.to_byte());
            if matches!(ch.residual_encoding, crate::types::ResidualEncoding::Rice) {
                out.push(ch.rice_parameter);
            }
            push_bytes(&mut out, ch.residuals.as_slice());
            proof {
                assert(out@ =~= spec_channel_bytes(*ch, ft));
            }
        },
    }
    out
}

/// Serializes one frame.
pub fn build_frame_bytes(frame: &Frame) -> (r: FloResult<Vec<u8>>)
    ensures
        r is Ok <==> (forall|j: int|
            0 <= j < frame.channels@.len() ==> spec_channel_writable(
                #[trigger] frame.channels@[j],
                spec_frame_type_of(frame.frame_type),
            )),
        r is Ok ==> (r->Ok_0)@ == spec_frame_bytes(*frame),
{
    let ft: FrameType = FrameType::from_byte(frame.frame_type);
    let mut out: Vec<u8> = Vec::new();
    out.push(frame.frame_type);
    push_u32_le(&mut out, frame.frame_samples);
    out.push(frame.flags);
    let ghost head = out@;
    let mut i: usize = 0;
    while i < frame.channels.len()
        invariant
            i <= frame.channels@.len(),
            ft == spec_frame_type_of(frame.frame_type),
            out@ == head + spec_channels_bytes(frame.channels@.take(i as int), ft),
            forall|j: int|
                0 <= j < i ==> spec_channel_writable(#[trigger] frame.channels@[j], ft),
        decreases frame.channels@.len() - i,
    {
        let ch = &frame.channels[i];
        if ch.predictor_coeffs.len() > 255 {
            return Err(FloError::FrameTooLarge);
        }
        let body: Vec<u8> = build_channel_bytes(ch, ft);
        if body.len() as u64 > 0xffff_ffffu64 {
            return Err(FloError::FrameTooLarge);
        }
        push_u32_le(&mut out, body.len() as u32);
        push_bytes(&mut out, body.as_slice());
        i = i + 1;
        proof {
            assert(frame.channels@.take(i as int).drop_last() =~= frame.channels@.take(i - 1));
            assert(frame.channels@.take(i as int).last() == frame.channels@[i - 1]);
            assert(out@ =~= head + spec_channels_bytes(frame.channels@.take(i as int), ft));
        }
    }
    proof {
        assert(frame.channels@.take(frame.channels@.len() as int) =~= frame.channels@);
        assert(out@ =~= spec_frame_bytes(*frame));
    }
    Ok(out)
}

/// Binary writer for the container format.
pub struct Writer {
    buffer: Vec<u8>,
}

impl Writer {
    /// Whether this writer still holds an empty buffer.
    pub closed spec fn fresh(&self) -> bool {
        self.buffer@.len() == 0
    }

    pub fn new() -> (w: Writer)
        ensures
            w.fresh(),
    {
        Writer { buffer: Vec::new() }
    }

    /// Writes a complete lossless file.
    pub fn write(
        self,
        sample_rate: u32,
        channels: u8,
        bit_depth: u8,
        compression_level: u8,
        frames: &Vec<Frame>,
        metadata: &[u8],
    ) -> (r: FloResult<Vec<u8>>)
        requires
            self.fresh(),
        ensures
            r is Ok <==> spec_frames_writable(frames@),
            r is Ok ==> (r->Ok_0)@ == spec_file_bytes(
                spec_written_header(
                    sample_rate,
                    channels,
                    bit_depth,
                    compression_level,
                    false,
                    0,
                    frames@,
                    metadata@,
                ),
                frames@,
                metadata@,
            ),
    {
        self.write_ex(
            sample_rate,
            channels,
            bit_depth,
            compression_level,
            false,
            0,
            frames,
            metadata,
        )
    }

    /// Writes a complete file, optionally marked lossy with a quality level.
    #[verifier::rlimit(100)]
    pub fn write_ex(
        self,
        sample_rate: u32,
        channels: u8,
        bit_depth: u8,
        compression_level: u8,
        lossy: bool,
        lossy_quality: u8,
        frames: &Vec<Frame>,
        metadata: &[u8],
    ) -> (r: FloResult<Vec<u8>>)
        requires
            self.fresh(),
            lossy_quality <= 15,
        ensures
            r is Ok <==> spec_frames_writable(frames@),
            r is Ok ==> (r->Ok_0)@ == spec_file_bytes(
                spec_written_header(
                    sample_rate,
                    channels,
                    bit_depth,
                    compression_level,
                    lossy,
                    lossy_quality,
                    frames@,
                    metadata@,
                ),
                frames@,
                metadata@,
            ),
    {
        if frames.len() > 100_000 {
            return Err(FloError::TooManyFrames);
        }
        // serialize every frame
        let mut frame_blobs: Vec<Vec<u8>> = Vec::new();
        let mut i: usize = 0;
        while i < frames.len()
            invariant
                i <= frames@.len(),
                frame_blobs@.len() == i,
                forall|j: int| 0 <= j < i ==> spec_frame_writable(#[trigger] frames@[j]),
                forall|j: int|
                    0 <= j < i ==> (#[trigger] frame_blobs@[j])@ == spec_frame_bytes(frames@[j])
                        && frame_blobs@[j]@.len() < 0x1_0000_0000,
            decreases frames@.len() - i,
        {
            let blob: Vec<u8> = match build_frame_bytes(&frames[i]) {
                Ok(b) => b,
                Err(e) => {
                    return Err(e);
                },
            };
            if blob.len() as u64 > 0xffff_ffffu64 {
                return Err(FloError::FrameTooLarge);
            }
            frame_blobs.push(blob);
            i = i + 1;
        }
        // DATA chunk
        let mut data: Vec<u8> = Vec::new();
        let mut di: usize = 0;
        while di < frame_blobs.len()
            invariant
                di <= frame_blobs@.len() == frames@.len(),
                forall|j: int|
                    0 <= j < frames@.len() ==> (#[trigger] frame_blobs@[j])@ == spec_frame_bytes(
                        frames@[j],
                    ),
                data@ == spec_data_bytes(frames@.take(di as int)),
            decreases frame_blobs@.len() - di,
        {
            push_bytes(&mut data, frame_blobs[di].as_slice());
            di = di + 1;
            proof {
                assert(frames@.take(di as int).drop_last() =~= frames@.take(di - 1));
                assert(data@ =~= spec_data_bytes(frames@.take(di as int)));
            }
        }
        proof {
            assert(frames@.take(frames@.len() as int) =~= frames@);
        }
        let data_crc32: u32 = crate::crc32::compute(data.as_slice());
        // TOC chunk
        let mut toc: Vec<u8> = Vec::new();
        push_u32_le(&mut toc, frames.len() as u32);
        let ghost toc_head = toc@;
        let mut byte_offset: u64 = 0;
        let mut ti: usize = 0;
        while ti < frame_blobs.len()
            invariant
                ti <= frame_blobs@.len() == frames@.len() <= 100_000,
                forall|j: int|
                    0 <= j < frames@.len() ==> (#[trigger] frame_blobs@[j])@ == spec_frame_bytes(
                        frames@[j],
                    ) && frame_blobs@[j]@.len() < 0x1_0000_0000,
                byte_offset == spec_frame_offset(frames@, ti as int),
                byte_offset <= ti * 0x1_0000_0000,
                toc@ == toc_head + spec_toc_entries(frames@, ti as int),
            decreases frame_blobs@.len() - ti,
        {
            proof {
                lemma_data_bytes_len_monotonic(frames@, ti as int);
                vstd::arithmetic::mul::lemma_mul_is_distributive_add(0x1_0000_0000, ti as int, 1);
                vstd::arithmetic::mul::lemma_mul_is_commutative(0x1_0000_0000, ti as int + 1);
                vstd::arithmetic::mul::lemma_mul_is_commutative(0x1_0000_0000, ti as int);
                vstd::arithmetic::mul::lemma_mul_basics(0x1_0000_0000);
                vstd::arithmetic::mul::lemma_mul_inequality(ti as int + 1, 100_001, 0x1_0000_0000);
            }
            push_u32_le(&mut toc, ti as u32);
            push_u64_le(&mut toc, byte_offset);
            push_u32_le(&mut toc, frame_blobs[ti].len() as u32);
            push_u32_le(&mut toc, (ti as u32) * 1000);
            byte_offset = byte_offset + (frame_blobs[ti].len() as u64);
            ti = ti + 1;
            proof {
                assert(frames@.take(ti as int).drop_last() =~= frames@.take(ti - 1));
                assert(frames@.take(ti as int).last() == frames@[ti - 1]);
                assert(byte_offset == spec_frame_offset(frames@, ti as int));
                assert(toc@ =~= toc_head + spec_toc_entries(frames@, ti as int));
            }
        }
        // header and assembly
        let ghost h = spec_written_header(
            sample_rate,
            channels,
            bit_depth,
            compression_level,
            lossy,
            lossy_quality,
            frames@,
            metadata@,
        );
        let flags: u16 = if lossy {
            1 + (lossy_quality as u16) * 256
        } else {
            0
        };
        let mut out: Vec<u8> = self.buffer;
        out.push(0x46);
        out.push(0x4c);
        out.push(0x4f);
        out.push(0x21);
        out.push(VERSION_MAJOR);
        out.push(VERSION_MINOR);
        push_u16_le(&mut out, flags);
        push_u32_le(&mut out, sample_rate);
        out.push(channels);
        out.push(bit_depth);
        push_u64_le(&mut out, frames.len() as u64);
        out.push(compression_level);
        out.push(0);
        out.push(0);
        out.push(0);
        push_u32_le(&mut out, data_crc32);
        push_u64_le(&mut out, HEADER_SIZE);
        push_u64_le(&mut out, 4 + 20 * (frames.len() as u64));
        push_u64_le(&mut out, data.len() as u64);
        push_u64_le(&mut out, 0);
        push_u64_le(&mut out, metadata.len() as u64);
        proof {
            assert(out@ =~= spec_magic() + spec_header_bytes(h));
        }
        push_bytes(&mut out, toc.as_slice());
        push_bytes(&mut out, data.as_slice());
        push_bytes(&mut out, metadata);
        proof {
            assert(out@ =~= spec_file_bytes(h, frames@, metadata@));
        }
        Ok(out)
    }
}

/// The DATA chunk grows by whole frames: a prefix of `i + 1` frames is the
/// prefix of `i` frames plus one serialized frame.
pub proof fn lemma_data_bytes_len_monotonic(frames: Seq<Frame>, i: int)
    requires
        0 <= i < frames.len(),
    ensures
        spec_frame_offset(frames, i + 1) == spec_frame_offset(frames, i) + spec_frame_bytes(
            frames[i],
        ).len(),
{
    assert(frames.take(i + 1).drop_last() =~= frames.take(i));
    assert(frames.take(i + 1).last() == frames[i]);
}

impl Frame {
    /// The number of bytes this frame occupies in the DATA chunk. The frame
    /// must fit its length fields, as every frame a writer accepts does.
    pub fn byte_size(&self) -> (n: u64)
        requires
            spec_frame_writable(*self),
        ensures
            n == spec_frame_bytes(*self).len(),
    {
        let ft: FrameType = FrameType::from_byte(self.frame_type);
        let mut total: u64 = 6;
        let mut i: usize = 0;
        proof {
            vstd::bytes::lemma_auto_spec_u32_to_from_le_bytes();
            assert(spec_channels_bytes(self.channels@.take(0), ft) =~= spec_channels_bytes(
                Seq::<ChannelData>::empty(),
                ft,
            ));
        }
        while i < self.channels.len()
            invariant
                i <= self.channels@.len(),
                spec_frame_writable(*self),
                ft == spec_frame_type_of(self.frame_type),
                total == 6 + spec_channels_bytes(self.channels@.take(i as int), ft).len(),
            decreases self.channels@.len() - i,
        {
            proof {
                lemma_channels_prefix_le(self.channels@, ft, i as int);
            }
            let ch = &self.channels[i];
            let body_len: u64 = channel_byte_len(ch, ft);
            total = total + 4 + body_len;
            i = i + 1;
            proof {
                vstd::bytes::lemma_auto_spec_u32_to_from_le_bytes();
                assert(self.channels@.take(i as int).drop_last() =~= self.channels@.take(i - 1));
                assert(self.channels@.take(i as int).last() == self.channels@[i - 1]);
                assert(spec_channels_bytes(self.channels@.take(i as int), ft).len()
                    == spec_channels_bytes(self.channels@.take(i - 1), ft).len() + 4
                    + spec_channel_bytes(self.channels@[i - 1], ft).len());
            }
        }
        proof {
            assert(self.channels@.take(self.channels@.len() as int) =~= self.channels@);
        }
        total
    }
}

/// A channel-list prefix occupies no more bytes than the whole frame.
proof fn lemma_channels_prefix_le(chs: Seq<ChannelData>, ft: FrameType, i: int)
    requires
        0 <= i <= chs.len(),
    ensures
        spec_channels_bytes(chs.take(i), ft).len() + (chs.len() - i) * 4 <= spec_channels_bytes(
            chs,
            ft,
        ).len(),
    decreases chs.len() - i,
{
    vstd::bytes::lemma_auto_spec_u32_to_from_le_bytes();
    if i < chs.len() {
        lemma_channels_prefix_le(chs, ft, i + 1);
        assert(chs.take(i + 1).drop_last() =~= chs.take(i));
        assert(chs.take(i + 1).last() == chs[i]);
        assert((chs.len() - i) * 4 == (chs.len() - i - 1) * 4 + 4) by (nonlinear_arith);
    } else {
        assert(chs.take(i) =~= chs);
        vstd::arithmetic::mul::lemma_mul_basics(4);
    }
}

/// The byte length of one serialized channel body.
fn channel_byte_len(ch: &ChannelData, ft: FrameType) -> (n: u64)
    requires
        spec_channel_writable(*ch, ft),
    ensures
        n == spec_channel_bytes(*ch, ft).len(),
{
    proof {
        crate::encoder::lemma_coeffs_bytes_len(ch.predictor_coeffs@);
    }
    match ft {
        FrameType::Silence => 0,
        FrameType::Reserved => 0,
        FrameType::Raw => ch.residuals.len() as u64,
        FrameType::Transform => ch.residuals.len() as u64,
        _ => {
            let rice_byte: u64 = if matches!(ch.residual_encoding, ResidualEncoding::Rice) {
                1
            } else {
                0
            };
            1 + 4 * (ch.predictor_coeffs.len() as u64) + 2 + rice_byte + (ch.residuals.len()
                as u64)
        },
    }
}


} // verus!
