//! Decodes lossless frames back to interleaved 16-bit PCM samples held in
//! `i32`. Every step — Rice decoding, predictor reconstruction, mid-side
//! undoing, interleaving — is specified exactly, so the decoder's output is
//! a function of the parsed file alone.

use vstd::prelude::*;

use crate::bits::bits_of_bytes;
use crate::lpc::{
    reconstruct_fixed,
    reconstruct_lpc_int,
    spec_fixed_reconstruct,
    spec_lpc_reconstruct,
};
use crate::reader::{channel_model, frame_model, le16_at, ChannelModel, FrameModel, Reader};
use crate::rice::{decode_i32, spec_rice_decode};
use crate::stereo::{decode_mid_side, ms_left, ms_right};
use crate::types::{ChannelData, FloError, FloFile, FloResult, Frame};

verus! {

/// Raw 16-bit PCM decoding: sample `i` is the little-endian pair at offset
/// `2 i`, or zero when the bytes run out.
pub open spec fn spec_raw_i16(bytes: Seq<u8>, n: nat) -> Seq<i32> {
    Seq::new(
        n,
        |i: int|
            if 2 * i + 2 <= bytes.len() {
                (le16_at(bytes, 2 * i) as i16) as i32
            } else {
                0i32
            },
    )
}

/// The samples of one decoded channel: a fixed-predictor channel (marked by
/// an empty coefficient list and a shift of 128 plus the order) or an LPC
/// channel Rice-decodes its residuals and reconstructs; raw channels decode
/// 16-bit PCM; an empty channel is silence.
pub open spec fn spec_decode_channel(c: ChannelModel, n: nat) -> Seq<i32> {
    if c.coeffs.len() == 0 && c.residuals.len() > 0 && c.shift_bits >= 128 {
        let order = (c.shift_bits - 128) as nat;
        let res = spec_rice_decode(bits_of_bytes(c.residuals), 0, c.rice_parameter as nat, n);
        spec_fixed_reconstruct(res, order, n)
    } else if c.coeffs.len() > 0 {
        let res = if c.encoding is Rice {
            spec_rice_decode(bits_of_bytes(c.residuals), 0, c.rice_parameter as nat, n)
        } else {
            spec_raw_i16(c.residuals, n)
        };
        spec_lpc_reconstruct(res, c.coeffs, c.shift_bits, n)
    } else if c.residuals.len() > 0 {
        spec_raw_i16(c.residuals, n)
    } else {
        Seq::new(n, |i: int| 0i32)
    }
}

/// One interleaved sample row: channel `c` of sample `i`, zero where a
/// channel is missing or short.
pub open spec fn spec_row(chs: Seq<Seq<i32>>, nch: nat, i: int) -> Seq<i32> {
    Seq::new(
        nch,
        |c: int|
            if c < chs.len() && i < chs[c].len() {
                chs[c][i]
            } else {
                0i32
            },
    )
}

/// `n` interleaved rows of `nch` channels.
pub open spec fn spec_interleave(chs: Seq<Seq<i32>>, nch: nat, n: nat) -> Seq<i32>
    decreases n,
{
    if n == 0 {
        Seq::empty()
    } else {
        spec_interleave(chs, nch, (n - 1) as nat) + spec_row(chs, nch, n - 1)
    }
}

/// The decoded channels of a frame, mid-side undone when the frame's flag
/// bit 0 is set on a two-channel file.
pub open spec fn spec_frame_channels(fm: FrameModel, channels: u8) -> Seq<Seq<i32>> {
    let n = fm.frame_samples as nat;
    let decoded = fm.channels.map_values(|c: ChannelModel| spec_decode_channel(c, n));
    if channels == 2 && fm.flags & 1 == 1 && decoded.len() == 2 {
        seq![
            Seq::new(n, |i: int| ms_left(decoded[0][i], decoded[1][i]) as i32),
            Seq::new(n, |i: int| ms_right(decoded[0][i], decoded[1][i]) as i32),
        ]
    } else {
        decoded
    }
}

/// The interleaved samples of one decoded frame.
pub open spec fn spec_decode_frame(fm: FrameModel, channels: u8) -> Seq<i32> {
    spec_interleave(spec_frame_channels(fm, channels), channels as nat, fm.frame_samples as nat)
}

/// Whether every frame of a parsed file is one the lossless decoder can
/// reconstruct: no transform (lossy) frames and no oversized sample counts.
pub open spec fn spec_frames_decodable(fms: Seq<FrameModel>) -> bool {
    forall|i: int|
        0 <= i < fms.len() ==> (#[trigger] fms[i]).frame_type != 253 && fms[i].frame_samples
            <= 2_000_000
}

/// The interleaved samples of a frame sequence.
pub open spec fn spec_decode_frames(fms: Seq<FrameModel>, channels: u8) -> Seq<i32>
    decreases fms.len(),
{
    if fms.len() == 0 {
        Seq::empty()
    } else {
        spec_decode_frames(fms.drop_last(), channels) + spec_decode_frame(fms.last(), channels)
    }
}

/// A frame sequence's decode splits off its first frame's samples.
pub proof fn lemma_decode_frames_first(fms: Seq<FrameModel>, channels: u8)
    requires
        fms.len() > 0,
    ensures
        spec_decode_frames(fms, channels) == spec_decode_frame(fms[0], channels)
            + spec_decode_frames(fms.skip(1), channels),
    decreases fms.len(),
{
    if fms.len() == 1 {
        assert(fms.drop_last() =~= Seq::<FrameModel>::empty());
        assert(fms.skip(1) =~= Seq::<FrameModel>::empty());
        assert(spec_decode_frames(fms, channels) =~= spec_decode_frame(fms[0], channels)
            + spec_decode_frames(fms.skip(1), channels));
    } else {
        lemma_decode_frames_first(fms.drop_last(), channels);
        assert(fms.drop_last().skip(1) =~= fms.skip(1).drop_last());
        assert(fms.skip(1).last() == fms.last());
        assert(fms.drop_last()[0] == fms[0]);
        assert(spec_decode_frames(fms, channels) =~= spec_decode_frame(fms[0], channels)
            + spec_decode_frames(fms.skip(1), channels));
    }
}

/// Reads one raw 16-bit PCM channel.
fn decode_raw_i16(bytes: &[u8], n: usize) -> (out: Vec<i32>)
    ensures
        out@ == spec_raw_i16(bytes@, n as nat),
{
    let mut out: Vec<i32> = Vec::new();
    let mut i: usize = 0;
    let len: usize = bytes.len();
    let half: usize = len / 2;
    proof {
        vstd::arithmetic::div_mod::lemma_fundamental_div_mod(len as int, 2);
        vstd::arithmetic::div_mod::lemma_mod_bound(len as int, 2);
    }
    while i < n
        invariant
            i <= n,
            len == bytes@.len(),
            half == len / 2,
            2 * half <= len < 2 * half + 2,
            out@.len() == i,
            forall|q: int| 0 <= q < i ==> out@[q] == spec_raw_i16(bytes@, n as nat)[q],
        decreases n - i,
    {
        let v: i32 = if i < half {
            let w: u16 = crate::reader::read_u16_at(bytes, 2 * i);
            (#[verifier::truncate] (w as i16)) as i32
        } else {
            0
        };
        out.push(v);
        i = i + 1;
    }
    proof {
        assert(out@ =~= spec_raw_i16(bytes@, n as nat));
    }
    out
}

/// Lossless audio decoder.
pub struct Decoder;

impl Decoder {
    pub fn new() -> Decoder {
        Decoder
    }

    /// Decodes one channel to integer samples.
    pub fn decode_channel_int(&self, ch: &ChannelData, frame_samples: usize) -> (out: Vec<i32>)
        ensures
            out@ == spec_decode_channel(channel_model(*ch), frame_samples as nat),
            out@.len() == frame_samples,
    {
        let has_coeffs: bool = ch.predictor_coeffs.len() > 0;
        let has_residuals: bool = ch.residuals.len() > 0;
        proof {
            crate::rice::lemma_rice_decode_len(
                bits_of_bytes(ch.residuals@),
                0,
                ch.rice_parameter as nat,
                frame_samples as nat,
            );
        }
        if !has_coeffs && has_residuals && ch.shift_bits >= 128 {
            let order: usize = (ch.shift_bits - 128) as usize;
            let residuals: Vec<i32> = decode_i32(
                ch.residuals.as_slice(),
                ch.rice_parameter,
                frame_samples,
            );
            let out = reconstruct_fixed(order, residuals.as_slice(), frame_samples);
            proof {
                assert(out@.take(frame_samples as int) =~= out@);
            }
            out
        } else if has_coeffs {
            let residuals: Vec<i32> = if matches!(
                ch.residual_encoding,
                crate::types::ResidualEncoding::Rice,
            ) {
                decode_i32(ch.residuals.as_slice(), ch.rice_parameter, frame_samples)
            } else {
                decode_raw_i16(ch.residuals.as_slice(), frame_samples)
            };
            let out = reconstruct_lpc_int(
                ch.predictor_coeffs.as_slice(),
                residuals.as_slice(),
                ch.shift_bits,
                ch.predictor_coeffs.len(),
                frame_samples,
            );
            proof {
                assert(out@.take(frame_samples as int) =~= out@);
            }
            out
        } else if has_residuals {
            decode_raw_i16(ch.residuals.as_slice(), frame_samples)
        } else {
            let mut out: Vec<i32> = Vec::new();
            let mut i: usize = 0;
            while i < frame_samples
                invariant
                    i <= frame_samples,
                    out@.len() == i,
                    forall|q: int| 0 <= q < i ==> out@[q] == 0i32,
                decreases frame_samples - i,
            {
                out.push(0);
                i = i + 1;
            }
            proof {
                assert(out@ =~= spec_decode_channel(
                    channel_model(*ch),
                    frame_samples as nat,
                ));
            }
            out
        }
    }

    /// Decodes one frame to interleaved samples.
    #[verifier::loop_isolation(false)]
    pub fn decode_frame_samples(&self, frame: &Frame, channels: u8) -> (out: Vec<i32>)
        requires
            frame.frame_samples <= 2_000_000,
        ensures
            out@ == spec_decode_frame(frame_model(*frame), channels),
    {
        let n: usize = frame.frame_samples as usize;
        let ghost fm = frame_model(*frame);
        let mut decoded: Vec<Vec<i32>> = Vec::new();
        let mut ci: usize = 0;
        while ci < frame.channels.len()
            invariant
                ci <= frame.channels@.len(),
                decoded@.len() == ci,
                forall|q: int|
                    0 <= q < ci ==> (#[trigger] decoded@[q])@ == spec_decode_channel(
                        channel_model(frame.channels@[q]),
                        n as nat,
                    ) && decoded@[q]@.len() == n,
            decreases frame.channels@.len() - ci,
        {
            let ch_out: Vec<i32> = self.decode_channel_int(&frame.channels[ci], n);
            decoded.push(ch_out);
            ci = ci + 1;
        }
        let ghost dec_models = fm.channels.map_values(
            |c: ChannelModel| spec_decode_channel(c, n as nat),
        );
        proof {
            assert(decoded@.map_values(|v: Vec<i32>| v@) =~= dec_models);
        }
        let use_mid_side: bool = channels == 2 && frame.flags & 1 == 1 && decoded.len() == 2;
        let chans: Vec<Vec<i32>> = if use_mid_side {
            let (left, right) = decode_mid_side(&decoded[0], &decoded[1]);
            proof {
                let sl = spec_frame_channels(fm, channels)[0];
                let sr = spec_frame_channels(fm, channels)[1];
                assert forall|q: int| 0 <= q < n implies left@[q] == sl[q] && right@[q]
                    == sr[q] by {
                    assert(decoded@[0]@ == dec_models[0] && decoded@[1]@ == dec_models[1]);
                    assert(left@[q] == ms_left(decoded@[0]@[q], decoded@[1]@[q]));
                    assert(right@[q] == ms_right(decoded@[0]@[q], decoded@[1]@[q]));
                }
                assert(left@ =~= sl);
                assert(right@ =~= sr);
            }
            let mut v: Vec<Vec<i32>> = Vec::new();
            v.push(left);
            v.push(right);
            v
        } else {
            decoded
        };
        proof {
            assert(chans@.map_values(|v: Vec<i32>| v@) =~= spec_frame_channels(fm, channels));
        }
        let ghost spec_chs = spec_frame_channels(fm, channels);
        let nch: usize = channels as usize;
        let mut out: Vec<i32> = Vec::new();
        let mut i: usize = 0;
        while i < n
            invariant
                i <= n,
                out@ == spec_interleave(spec_chs, nch as nat, i as nat),
                chans@.map_values(|v: Vec<i32>| v@) == spec_chs,
            decreases n - i,
        {
            let mut c: usize = 0;
            while c < nch
                invariant
                    c <= nch,
                    i < n,
                    out@ == spec_interleave(spec_chs, nch as nat, i as nat) + spec_row(
                        spec_chs,
                        nch as nat,
                        i as int,
                    ).take(c as int),
                    chans@.map_values(|v: Vec<i32>| v@) == spec_chs,
                decreases nch - c,
            {
                let v: i32 = if c < chans.len() {
                    let chv = &chans[c];
                    if i < chv.len() {
                        chv[i]
                    } else {
                        0
                    }
                } else {
                    0
                };
                proof {
                    assert(spec_row(spec_chs, nch as nat, i as int)[c as int] == v);
                }
                out.push(v);
                c = c + 1;
                proof {
                    assert(spec_row(spec_chs, nch as nat, i as int).take(c as int) =~= spec_row(
                        spec_chs,
                        nch as nat,
                        i as int,
                    ).take(c - 1).push(v));
                }
            }
            i = i + 1;
            proof {
                assert(spec_row(spec_chs, nch as nat, i - 1).take(nch as int) =~= spec_row(
                    spec_chs,
                    nch as nat,
                    i - 1,
                ));
            }
        }
        out
    }

    /// Decodes a parsed lossless file to interleaved samples. Transform
    /// (lossy) frames are not audio the lossless decoder can reconstruct, so
    /// a file holding one is refused.
    #[verifier::loop_isolation(false)]
    pub fn decode_file(&self, file: &FloFile) -> (r: FloResult<Vec<i32>>)
        ensures
            (r is Ok) == (forall|i: int|
                0 <= i < file.frames@.len() ==> (#[trigger] file.frames@[i]).frame_type != 253
                    && file.frames@[i].frame_samples <= 2_000_000),
            r is Ok ==> (r->Ok_0)@ == spec_decode_frames(
                file.frames@.map_values(|f: Frame| frame_model(f)),
                file.header.channels,
            ),
            r is Err ==> r->Err_0 == FloError::BadTransformFrame,
    {
        let ghost fms = file.frames@.map_values(|f: Frame| frame_model(f));
        let mut out: Vec<i32> = Vec::new();
        let mut i: usize = 0;
        proof {
            assert(out@ =~= spec_decode_frames(fms.take(0), file.header.channels));
        }
        while i < file.frames.len()
            invariant
                i <= file.frames@.len(),
                out@ == spec_decode_frames(fms.take(i as int), file.header.channels),
                forall|q: int|
                    0 <= q < i ==> (#[trigger] file.frames@[q]).frame_type != 253
                        && file.frames@[q].frame_samples <= 2_000_000,
            decreases file.frames@.len() - i,
        {
            let frame = &file.frames[i];
            if frame.frame_type == 253 || frame.frame_samples > 2_000_000 {
                return Err(FloError::BadTransformFrame);
            }
            let mut fs: Vec<i32> = self.decode_frame_samples(frame, file.header.channels);
            out.append(&mut fs);
            i = i + 1;
            proof {
                assert(fms.take(i as int).drop_last() =~= fms.take(i - 1));
                assert(fms.take(i as int).last() == fms[i - 1]);
                assert(out@ =~= spec_decode_frames(fms.take(i as int), file.header.channels));
            }
        }
        proof {
            assert(fms.take(fms.len() as int) =~= fms);
        }
        Ok(out)
    }

    /// Parses and decodes a lossless file in one call: succeeds exactly when
    /// the bytes follow the file grammar and every frame is one the lossless
    /// decoder reconstructs, and then returns exactly the decoded samples.
    pub fn decode(&self, data: &[u8]) -> (r: FloResult<Vec<i32>>)
        ensures
            (r is Ok) == (crate::reader::spec_parse_file(data@) is Ok && spec_frames_decodable(
                (crate::reader::spec_parse_file(data@)->Ok_0).frames,
            )),
            r is Ok ==> (r->Ok_0)@ == spec_decode_frames(
                (crate::reader::spec_parse_file(data@)->Ok_0).frames,
                (crate::reader::spec_parse_file(data@)->Ok_0).header.channels,
            ),
            r is Err && crate::reader::spec_parse_file(data@) is Err ==> r->Err_0
                == crate::reader::spec_parse_file(data@)->Err_0,
            r is Err && crate::reader::spec_parse_file(data@) is Ok ==> r->Err_0
                == FloError::BadTransformFrame,
    {
        let reader = Reader::new();
        let file = match reader.read(data) {
            Ok(f) => f,
            Err(e) => {
                return Err(e);
            },
        };
        let ghost fm = crate::reader::spec_parse_file(data@)->Ok_0;
        proof {
            let maps = file.frames@.map_values(|f: Frame| frame_model(f));
            assert forall|i: int|
                0 <= i < file.frames@.len() implies ((#[trigger] file.frames@[i]).frame_type
                == fm.frames[i].frame_type && file.frames@[i].frame_samples
                == fm.frames[i].frame_samples) by {
                assert(maps[i] == frame_model(file.frames@[i]));
            }
        }
        match self.decode_file(&file) {
            Ok(samples) => Ok(samples),
            Err(e) => Err(e),
        }
    }
}

} // verus!
