//! The lossless encoder: frames of one second, silence detection, an
//! optional mid-side transform for stereo, and a per-channel search over raw
//! PCM, fixed predictors, and adaptive LPC, keeping whichever encodes
//! smallest. Every candidate a channel can choose is proved to decode back
//! to exactly the samples it was given, so the whole encoder inverts.

use vstd::prelude::*;

use crate::bits::bits_of_bytes;
use crate::decoder::{
    spec_decode_channel,
    spec_decode_frame,
    spec_decode_frames,
    spec_frame_channels,
    spec_interleave,
    spec_raw_i16,
    spec_row,
};
use crate::lpc::{
    autocorr_int,
    calc_residuals_int,
    fixed_predictor_residuals,
    levinson_durbin_int,
    lemma_fixed_round_trip,
    lemma_lpc_round_trip,
    lemma_wrap32_identity,
    spec_fixed_residuals,
};
use crate::reader::{channel_model, frame_model, ChannelModel, FrameModel};
use crate::rice::{
    abs_int,
    lemma_rice_stream_len,
    encode_i32,
    estimate_rice_parameter_i32,
    lemma_rice_round_trip,
    zigzags,
    lemma_rice_decode_len,
};
use crate::stereo::{lemma_mid_side_bijection, to_mid_side};
use crate::types::{ChannelData, FloResult, Frame, FrameType, ResidualEncoding};
use crate::writer::{
    spec_channel_bytes,
    spec_channel_writable,
    spec_frame_bytes,
    spec_frame_writable,
    Writer,
};

verus! {

/// A channel whose decode is the given samples, with a bound on its size.
pub open spec fn spec_channel_inverts(c: ChannelData, samples: Seq<i32>) -> bool {
    &&& spec_decode_channel(channel_model(c), samples.len()) == samples
    &&& c.predictor_coeffs@.len() <= 12
    &&& c.residuals@.len() <= 68 * samples.len() + 8
}

/// Encodes a channel as raw 16-bit PCM.
fn make_raw_channel(samples: &[i32]) -> (c: ChannelData)
    requires
        forall|i: int| 0 <= i < samples@.len() ==> -0x8000 <= #[trigger] samples@[i] <= 0x7fff,
        samples@.len() >= 1,
        samples@.len() <= 2_000_000,
    ensures
        spec_channel_inverts(c, samples@),
        c.residuals@.len() == 2 * samples@.len(),
        c.predictor_coeffs@.len() == 0,
        c.shift_bits == 0,
        c.residual_encoding is Raw,
        c.rice_parameter == 0,
{
    let n: usize = samples.len();
    let mut bytes: Vec<u8> = Vec::new();
    let mut i: usize = 0;
    while i < n
        invariant
            i <= n == samples@.len() <= 2_000_000,
            forall|q: int| 0 <= q < n ==> -0x8000 <= #[trigger] samples@[q] <= 0x7fff,
            bytes@.len() == 2 * i,
            forall|q: int|
                0 <= q < i ==> crate::reader::le16_at(bytes@, 2 * q) == (samples@[q] as i16)
                    as u16,
        decreases n - i,
    {
        let s: i32 = samples[i];
        let v: i16 = s as i16;
        let w: u16 = #[verifier::truncate] (v as u16);
        let ghost pre = bytes@;
        crate::writer::push_u16_le(&mut bytes, w);
        i = i + 1;
        proof {
            vstd::bytes::lemma_auto_spec_u16_to_from_le_bytes();
            assert forall|q: int| 0 <= q < i implies crate::reader::le16_at(bytes@, 2 * q) == (
            samples@[q] as i16) as u16 by {
                if q < i - 1 {
                    assert(bytes@.subrange(2 * q, 2 * q + 2) =~= pre.subrange(2 * q, 2 * q + 2));
                } else {
                    assert(bytes@.subrange(2 * q, 2 * q + 2) =~= vstd::bytes::spec_u16_to_le_bytes(
                        w,
                    ));
                }
            }
        }
    }
    let c = ChannelData::new_raw(bytes);
    proof {
        let model = channel_model(c);
        assert forall|q: int| 0 <= q < n implies spec_raw_i16(model.residuals, n as nat)[q]
            == samples@[q] by {
            lemma_u16_i16_round(samples@[q] as i16);
        }
        assert(spec_raw_i16(model.residuals, n as nat) =~= samples@);
    }
    c
}

/// A 16-bit value survives the trip through its unsigned carrier.
proof fn lemma_u16_i16_round(v: i16)
    by (bit_vector)
    ensures
        (v as u16) as i16 == v,
{
}

/// Encodes a channel with a fixed predictor of the given order.
fn make_fixed_channel(samples: &[i32], order: usize) -> (c: ChannelData)
    requires
        forall|i: int| 0 <= i < samples@.len() ==> -0x2_0000 <= #[trigger] samples@[i] <= 0x2_0000,
        order <= 4,
        1 <= samples@.len() <= 2_000_000,
    ensures
        spec_channel_inverts(c, samples@),
        channel_model(c).coeffs.len() == 0,
        c.residual_encoding is Rice,
{
    let n: usize = samples.len();
    let residuals: Vec<i32> = fixed_predictor_residuals(samples, order);
    proof {
        assert forall|i: int| 0 <= i < residuals@.len() implies abs_int(#[trigger] residuals@[i])
            <= 0x3f_ffff by {
            lemma_fixed_residual_bound(samples@, order as nat, i);
        }
    }
    let k: u8 = estimate_rice_parameter_i32(residuals.as_slice());
    let enc: Vec<u8> = encode_i32(residuals.as_slice(), k);
    proof {
        lemma_rice_stream_len(zigzags(residuals@), k as nat);
        assert(residuals@.len() * 272 <= 2_000_000 * 272) by (nonlinear_arith)
            requires
                residuals@.len() <= 2_000_000,
        ;
    }
    let c = ChannelData {
        predictor_coeffs: Vec::new(),
        shift_bits: (128 + order) as u8,
        residual_encoding: ResidualEncoding::Rice,
        rice_parameter: k,
        residuals: enc,
    };
    proof {
        let model = channel_model(c);
        lemma_rice_round_trip(residuals@, k as nat, enc@);
        assert(spec_decode_channel(model, n as nat) == samples@) by {
            lemma_rice_decode_len(bits_of_bytes(enc@), 0, k as nat, n as nat);
            lemma_fixed_round_trip(samples@, order as nat);
        }
        assert(8 * enc@.len() < 2_000_000 * 272 + 8);
    }
    c
}

/// The residual of a fixed predictor over 17-bit samples stays within 22
/// bits.
proof fn lemma_fixed_residual_bound(s: Seq<i32>, order: nat, i: int)
    requires
        forall|q: int| 0 <= q < s.len() ==> -0x2_0000 <= #[trigger] s[q] <= 0x2_0000,
        0 <= i < s.len(),
    ensures
        abs_int(spec_fixed_residuals(s, order)[i]) <= 0x3f_ffff,
{
    if order < 1 || order > 4 || i < order {
    } else {
        let p = crate::lpc::fixed_pred_int(s, order, i);
        assert(-16 * 0x2_0000 <= p <= 16 * 0x2_0000);
        lemma_wrap32_identity(s[i] - p);
    }
}

/// Tries an adaptive LPC predictor of the given order; gives up when the
/// solve fails or a residual is too large to encode safely.
fn make_lpc_channel(samples: &[i32], order: usize) -> (r: Option<ChannelData>)
    requires
        forall|i: int| 0 <= i < samples@.len() ==> -0x2_0000 <= #[trigger] samples@[i] <= 0x2_0000,
        5 <= order <= 12,
        1 <= samples@.len() <= 2_000_000,
    ensures
        r is Some ==> spec_channel_inverts(r->Some_0, samples@) && (r->Some_0).residual_encoding
            is Rice,
{
    if samples.len() <= order {
        return None;
    }
    let autoc: Vec<i64> = autocorr_int(samples, order);
    let (coeffs, shift) = match levinson_durbin_int(autoc.as_slice(), order) {
        Some(p) => p,
        None => {
            return None;
        },
    };
    let residuals: Vec<i32> = calc_residuals_int(samples, coeffs.as_slice(), shift, order);
    // reject exploding residuals: they cannot be Rice-coded within the cap
    let mut i: usize = 0;
    while i < residuals.len()
        invariant
            i <= residuals@.len(),
            forall|q: int| 0 <= q < i ==> abs_int(#[trigger] residuals@[q]) <= 1_000_000,
        decreases residuals@.len() - i,
    {
        let v: i32 = residuals[i];
        if v > 1_000_000 || v < -1_000_000 {
            return None;
        }
        i = i + 1;
    }
    let k: u8 = estimate_rice_parameter_i32(residuals.as_slice());
    let enc: Vec<u8> = encode_i32(residuals.as_slice(), k);
    proof {
        lemma_rice_stream_len(zigzags(residuals@), k as nat);
        assert(residuals@.len() * 272 <= 2_000_000 * 272) by (nonlinear_arith)
            requires
                residuals@.len() <= 2_000_000,
        ;
    }
    let c = ChannelData {
        predictor_coeffs: coeffs,
        shift_bits: shift,
        residual_encoding: ResidualEncoding::Rice,
        rice_parameter: k,
        residuals: enc,
    };
    proof {
        let model = channel_model(c);
        lemma_rice_round_trip(residuals@, k as nat, enc@);
        assert(spec_decode_channel(model, samples@.len() as nat) == samples@) by {
            lemma_rice_decode_len(bits_of_bytes(enc@), 0, k as nat, samples@.len() as nat);
            lemma_lpc_round_trip(samples@, model.coeffs, shift);
        }
        assert(8 * enc@.len() < 2_000_000 * 272 + 8);
    }
    Some(c)
}

/// Lossless encoder over interleaved 16-bit PCM samples held in `i32`.
pub struct Encoder {
    pub sample_rate: u32,
    pub channels: u8,
    pub bit_depth: u8,
    pub compression_level: u8,
}

impl Encoder {
    pub fn new(sample_rate: u32, channels: u8, bit_depth: u8) -> (e: Encoder)
        ensures
            e.sample_rate == sample_rate,
            e.channels == channels,
            e.bit_depth == bit_depth,
            e.compression_level == 5,
    {
        Encoder { sample_rate, channels, bit_depth, compression_level: 5 }
    }

    /// Sets the compression level, capped at 9.
    pub fn with_compression(self, level: u8) -> (e: Encoder)
        ensures
            e.sample_rate == self.sample_rate,
            e.channels == self.channels,
            e.bit_depth == self.bit_depth,
            e.compression_level == (if level <= 9 {
                level
            } else {
                9u8
            }),
    {
        let l: u8 = if level > 9 {
            9
        } else {
            level
        };
        Encoder { compression_level: l, ..self }
    }

    /// The highest LPC order the compression level allows.
    pub fn lpc_order_from_level(&self) -> (r: usize)
        ensures
            r <= 12,
            r == spec_lpc_order_of_level(self.compression_level),
    {
        if self.compression_level == 0 {
            0
        } else if self.compression_level == 1 {
            2
        } else if self.compression_level <= 3 {
            4
        } else if self.compression_level == 4 {
            6
        } else if self.compression_level <= 6 {
            8
        } else if self.compression_level == 7 {
            10
        } else {
            12
        }
    }

    /// Picks the smallest of the candidate encodings for one channel; the
    /// boolean says whether raw PCM won.
    pub fn encode_channel_int(&self, samples: &[i32], max_order: usize) -> (r: (ChannelData, bool))
        requires
            forall|i: int|
                0 <= i < samples@.len() ==> -0x2_0000 <= #[trigger] samples@[i] <= 0x2_0000,
            1 <= samples@.len() <= 2_000_000,
            max_order <= 12,
        ensures
            spec_channel_inverts(r.0, samples@),
            r.1 ==> channel_model(r.0).coeffs.len() == 0 && r.0.shift_bits == 0
                && r.0.residual_encoding is Raw && r.0.residuals@.len() == 2 * samples@.len(),
            !(r.0.residual_encoding is Rice) ==> r.0.rice_parameter == 0
                && r.0.predictor_coeffs@.len() == 0 && r.0.shift_bits == 0
                && r.0.residual_encoding is Raw && r.0.residuals@.len() == 2 * samples@.len(),
            (forall|i: int| 0 <= i < samples@.len() ==> -0x8000 <= #[trigger] samples@[i] <= 0x7fff)
                ==> r.0.residuals@.len() <= 2 * samples@.len(),
    {
        // raw PCM is only sound when every sample fits 16 bits
        let mut fits16: bool = true;
        let mut i: usize = 0;
        while i < samples.len()
            invariant
                i <= samples@.len(),
                fits16 == (forall|q: int|
                    0 <= q < i ==> -0x8000 <= #[trigger] samples@[q] <= 0x7fff),
            decreases samples@.len() - i,
        {
            let s: i32 = samples[i];
            if s < -0x8000 || s > 0x7fff {
                fits16 = false;
                proof {
                    assert(!(-0x8000 <= samples@[i as int] <= 0x7fff));
                }
            }
            i = i + 1;
        }
        let mut best: ChannelData = make_fixed_channel(samples, 0);
        let mut best_len: usize = best.residuals.len();
        let mut best_is_raw: bool = false;
        if fits16 {
            let raw: ChannelData = make_raw_channel(samples);
            if raw.residuals.len() < best_len {
                best_len = raw.residuals.len();
                best = raw;
                best_is_raw = true;
            }
            proof {
                assert(best.residuals@.len() <= 2 * samples@.len());
            }
        }
        let fixed_cap: usize = if max_order < 4 {
            max_order
        } else {
            4
        };
        let mut order: usize = 1;
        while order <= fixed_cap
            invariant
                1 <= order <= fixed_cap + 1,
                fixed_cap <= 4,
                forall|q: int|
                    0 <= q < samples@.len() ==> -0x2_0000 <= #[trigger] samples@[q] <= 0x2_0000,
                1 <= samples@.len() <= 2_000_000,
                spec_channel_inverts(best, samples@),
                best_is_raw ==> channel_model(best).coeffs.len() == 0 && best.shift_bits == 0
                    && best.residual_encoding is Raw && best.residuals@.len() == 2
                    * samples@.len(),
                !(best.residual_encoding is Rice) ==> best.rice_parameter == 0
                    && best.predictor_coeffs@.len() == 0 && best.shift_bits == 0
                    && best.residual_encoding is Raw && best.residuals@.len() == 2
                    * samples@.len(),
                best_len == best.residuals@.len(),
                fits16 ==> best_len <= 2 * samples@.len(),
                fits16 == (forall|q: int|
                    0 <= q < samples@.len() ==> -0x8000 <= #[trigger] samples@[q] <= 0x7fff),
            decreases fixed_cap + 1 - order,
        {
            let cand: ChannelData = make_fixed_channel(samples, order);
            if cand.residuals.len() < best_len {
                best_len = cand.residuals.len();
                best = cand;
                best_is_raw = false;
            }
            order = order + 1;
        }
        if self.compression_level >= 3 && max_order > 4 {
            let mut lorder: usize = 5;
            while lorder <= max_order
                invariant
                    5 <= lorder <= max_order + 1,
                    max_order <= 12,
                    forall|q: int|
                        0 <= q < samples@.len() ==> -0x2_0000 <= #[trigger] samples@[q]
                            <= 0x2_0000,
                    1 <= samples@.len() <= 2_000_000,
                    spec_channel_inverts(best, samples@),
                    best_is_raw ==> channel_model(best).coeffs.len() == 0 && best.shift_bits == 0
                        && best.residual_encoding is Raw && best.residuals@.len() == 2
                        * samples@.len(),
                    !(best.residual_encoding is Rice) ==> best.rice_parameter == 0
                        && best.predictor_coeffs@.len() == 0 && best.shift_bits == 0
                        && best.residual_encoding is Raw && best.residuals@.len() == 2
                        * samples@.len(),
                    best_len == best.residuals@.len(),
                    fits16 ==> best_len <= 2 * samples@.len(),
                    fits16 == (forall|q: int|
                        0 <= q < samples@.len() ==> -0x8000 <= #[trigger] samples@[q] <= 0x7fff),
                decreases max_order + 1 - lorder,
            {
                match make_lpc_channel(samples, lorder) {
                    Some(cand) => {
                        if cand.residuals.len() < best_len {
                            best_len = cand.residuals.len();
                            best = cand;
                            best_is_raw = false;
                        }
                    },
                    None => {},
                }
                lorder = lorder + 1;
            }
        }
        (best, best_is_raw)
    }
}

pub open spec fn spec_lpc_order_of_level(level: u8) -> nat {
    if level == 0 {
        0
    } else if level == 1 {
        2
    } else if level <= 3 {
        4
    } else if level == 4 {
        6
    } else if level <= 6 {
        8
    } else if level == 7 {
        10
    } else {
        12
    }
}

/// Channel `c` of an interleaved buffer with `nch` channels.
pub open spec fn spec_channel_of(samples: Seq<i32>, nch: nat, c: int) -> Seq<i32>
    recommends
        nch >= 1,
{
    Seq::new(samples.len() / nch, |i: int| samples[i * (nch as int) + c])
}

proof fn lemma_interleave_len(chs: Seq<Seq<i32>>, nch: nat, n: nat)
    ensures
        spec_interleave(chs, nch, n).len() == n * nch,
    decreases n,
{
    if n == 0 {
        assert(n * nch == 0) by (nonlinear_arith)
            requires
                n == 0,
        ;
    } else {
        lemma_interleave_len(chs, nch, (n - 1) as nat);
        assert((n - 1) * nch + nch == n * nch) by (nonlinear_arith);
    }
}

proof fn lemma_interleave_index(chs: Seq<Seq<i32>>, nch: nat, n: nat, kk: int)
    requires
        nch >= 1,
        0 <= kk < n * nch,
    ensures
        spec_interleave(chs, nch, n).len() == n * nch,
        spec_interleave(chs, nch, n)[kk] == spec_row(chs, nch, kk / (nch as int))[kk % (nch as int)],
    decreases n,
{
    lemma_interleave_len(chs, nch, n);
    if n > 0 {
        lemma_interleave_len(chs, nch, (n - 1) as nat);
        if kk < (n - 1) * nch {
            lemma_interleave_index(chs, nch, (n - 1) as nat, kk);
        } else {
            let c = kk - (n - 1) * nch;
            assert(0 <= c < nch);
            vstd::arithmetic::div_mod::lemma_fundamental_div_mod_converse(
                kk,
                nch as int,
                n - 1,
                c,
            );
        }
    }
}

/// Interleaving the deinterleaved channels of a buffer gives the buffer
/// back.
proof fn lemma_interleave_deinterleave(samples: Seq<i32>, nch: nat, chs: Seq<Seq<i32>>)
    requires
        nch >= 1,
        (samples.len() as int) % (nch as int) == 0,
        chs.len() == nch,
        forall|c: int| 0 <= c < nch ==> #[trigger] chs[c] == spec_channel_of(samples, nch, c),
    ensures
        spec_interleave(chs, nch, ((samples.len() as int) / (nch as int)) as nat) == samples,
{
    let n = ((samples.len() as int) / (nch as int)) as nat;
    vstd::arithmetic::div_mod::lemma_fundamental_div_mod(samples.len() as int, nch as int);
    vstd::arithmetic::mul::lemma_mul_is_commutative(nch as int, n as int);
    lemma_interleave_len(chs, nch, n);
    assert forall|kk: int| 0 <= kk < samples.len() implies spec_interleave(chs, nch, n)[kk]
        == samples[kk] by {
        lemma_interleave_index(chs, nch, n, kk);
        let i = kk / (nch as int);
        let c = kk % (nch as int);
        vstd::arithmetic::div_mod::lemma_fundamental_div_mod(kk, nch as int);
        vstd::arithmetic::div_mod::lemma_mod_bound(kk, nch as int);
        assert(0 <= i < n) by {
            vstd::arithmetic::div_mod::lemma_div_pos_is_pos(kk, nch as int);
            if i >= n {
                vstd::arithmetic::mul::lemma_mul_inequality(n as int, i, nch as int);
                vstd::arithmetic::mul::lemma_mul_is_commutative(n as int, nch as int);
                vstd::arithmetic::mul::lemma_mul_is_commutative(i, nch as int);
            }
        }
        vstd::arithmetic::mul::lemma_mul_is_commutative(i, nch as int);
        assert(chs[c] == spec_channel_of(samples, nch, c));
        assert(chs[c][i] == samples[i * (nch as int) + c]);
    }
    assert(spec_interleave(chs, nch, n) =~= samples);
}

/// The two flag-bit facts the codec needs.
proof fn lemma_flag_bit()
    by (bit_vector)
    ensures
        0u8 & 1 == 0,
        1u8 & 1 == 1,
{
}

/// The energy of a channel: the sum of the squared samples.
pub open spec fn spec_energy(v: Seq<i32>) -> int
    decreases v.len(),
{
    if v.len() == 0 {
        0
    } else {
        spec_energy(v.drop_last()) + (v.last() as int) * (v.last() as int)
    }
}

/// The energy of the difference channel of a stereo pair.
pub open spec fn spec_side_energy(l: Seq<i32>, r: Seq<i32>) -> int
    decreases l.len(),
{
    if l.len() == 0 {
        0
    } else {
        spec_side_energy(l.drop_last(), r.drop_last()) + (l.last() - r.last()) * (l.last()
            - r.last())
    }
}

impl Encoder {
    /// Splits an interleaved buffer into its channels.
    fn deinterleave(&self, samples: &[i32], nch: usize) -> (chs: Vec<Vec<i32>>)
        requires
            nch >= 1,
            (samples@.len() as int) % (nch as int) == 0,
        ensures
            chs@.len() == nch,
            forall|c: int|
                0 <= c < nch ==> (#[trigger] chs@[c])@ == spec_channel_of(
                    samples@,
                    nch as nat,
                    c,
                ),
    {
        let len: usize = samples.len();
        let n: usize = len / nch;
        proof {
            vstd::arithmetic::div_mod::lemma_fundamental_div_mod(len as int, nch as int);
        }
        let mut chs: Vec<Vec<i32>> = Vec::new();
        let mut c: usize = 0;
        while c < nch
            invariant
                c <= nch,
                nch >= 1,
                len == samples@.len(),
                n == len / nch,
                len == n * nch,
                chs@.len() == c,
                forall|q: int|
                    0 <= q < c ==> (#[trigger] chs@[q])@ == spec_channel_of(
                        samples@,
                        nch as nat,
                        q,
                    ),
            decreases nch - c,
        {
            let mut v: Vec<i32> = Vec::new();
            let mut i: usize = 0;
            let mut idx: usize = c;
            while i < n
                invariant
                    i <= n,
                    c < nch,
                    len == samples@.len(),
                    len == n * nch,
                    i < n ==> idx == i * nch + c,
                    v@.len() == i,
                    forall|q: int| 0 <= q < i ==> #[trigger] v@[q] == samples@[q * (nch as int) + c],
                decreases n - i,
            {
                proof {
                    assert(i * nch + nch <= n * nch) by (nonlinear_arith)
                        requires
                            i < n,
                            nch >= 1,
                    ;
                }
                v.push(samples[idx]);
                i = i + 1;
                if i < n {
                    proof {
                        assert((i - 1) * nch + c + nch == i * nch + c) by (nonlinear_arith);
                        assert(i * nch + nch <= n * nch) by (nonlinear_arith)
                            requires
                                i < n,
                                nch >= 1,
                        ;
                    }
                    idx = idx + nch;
                }
            }
            proof {
                assert(v@ =~= spec_channel_of(samples@, nch as nat, c as int));
            }
            chs.push(v);
            c = c + 1;
        }
        chs
    }

    /// Whether mid-side coding looks cheaper than left/right: the side
    /// channel's energy is below the channels' average.
    fn should_use_mid_side(&self, left: &Vec<i32>, right: &Vec<i32>) -> (r: bool)
        requires
            left@.len() == right@.len(),
            left@.len() <= 2_000_000,
            forall|i: int| 0 <= i < left@.len() ==> -0x8000 <= #[trigger] left@[i] <= 0x7fff,
            forall|i: int| 0 <= i < right@.len() ==> -0x8000 <= #[trigger] right@[i] <= 0x7fff,
        ensures
            r == (2 * spec_side_energy(left@, right@) < spec_energy(left@) + spec_energy(
                right@,
            )),
    {
        let mut var_l: i64 = 0;
        let mut var_r: i64 = 0;
        let mut var_side: i64 = 0;
        let mut i: usize = 0;
        while i < left.len()
            invariant
                i <= left@.len() == right@.len() <= 2_000_000,
                forall|q: int| 0 <= q < left@.len() ==> -0x8000 <= #[trigger] left@[q] <= 0x7fff,
                forall|q: int| 0 <= q < right@.len() ==> -0x8000 <= #[trigger] right@[q] <= 0x7fff,
                0 <= var_l <= i * 0x4000_0000,
                0 <= var_r <= i * 0x4000_0000,
                0 <= var_side <= i * 0x1_0000_0000,
                var_l == spec_energy(left@.take(i as int)),
                var_r == spec_energy(right@.take(i as int)),
                var_side == spec_side_energy(left@.take(i as int), right@.take(i as int)),
            decreases left@.len() - i,
        {
            let l: i64 = left[i] as i64;
            let r: i64 = right[i] as i64;
            let s: i64 = l - r;
            proof {
                assert(0 <= l * l <= 0x4000_0000 && 0 <= r * r <= 0x4000_0000 && 0 <= s * s
                    <= 0x1_0000_0000) by (nonlinear_arith)
                    requires
                        -0x8000 <= l <= 0x7fff,
                        -0x8000 <= r <= 0x7fff,
                        s == l - r,
                ;
                assert((i + 1) * 0x4000_0000 == i * 0x4000_0000 + 0x4000_0000) by (nonlinear_arith);
                assert((i + 1) * 0x1_0000_0000 == i * 0x1_0000_0000 + 0x1_0000_0000)
                    by (nonlinear_arith);
                assert(i * 0x4000_0000 <= 2_000_000 * 0x4000_0000 && i * 0x1_0000_0000 <= 2_000_000
                    * 0x1_0000_0000) by (nonlinear_arith)
                    requires
                        0 <= i <= 2_000_000,
                ;
            }
            var_l = var_l + l * l;
            var_r = var_r + r * r;
            var_side = var_side + s * s;
            i = i + 1;
            proof {
                assert(left@.take(i as int).drop_last() =~= left@.take(i - 1));
                assert(right@.take(i as int).drop_last() =~= right@.take(i - 1));
            }
        }
        proof {
            assert(left@.take(left@.len() as int) =~= left@);
            assert(right@.take(right@.len() as int) =~= right@);
        }
        2 * var_side < var_l + var_r
    }

    /// Encodes one frame of interleaved samples. The returned frame decodes
    /// back to exactly its input.
    #[verifier::loop_isolation(false)]
    #[verifier::rlimit(60)]
    pub fn encode_frame(&self, samples: &[i32]) -> (f: Frame)
        requires
            1 <= self.channels,
            (samples@.len() as int) % (self.channels as int) == 0,
            self.channels <= samples@.len(),
            (samples@.len() as int) / (self.channels as int) <= 2_000_000,
            forall|i: int| 0 <= i < samples@.len() ==> -0x8000 <= #[trigger] samples@[i] <= 0x7fff,
        ensures
            spec_decode_frame(frame_model(f), self.channels) == samples@,
            spec_frame_writable(f),
            crate::writer::spec_frame_parseable(f, self.channels),
            f.frame_type != 253 && f.frame_type != 255,
            f.frame_samples == (samples@.len() as int) / (self.channels as int),
            f.frame_samples <= 2_000_000,
            f.channels@.len() == self.channels,
            forall|j: int|
                0 <= j < f.channels@.len() ==> (#[trigger] f.channels@[j]).predictor_coeffs@.len()
                    <= 12,
            (f.frame_type == 0) == (forall|q: int|
                0 <= q < samples@.len() ==> samples@[q] == 0i32),
            self.channels == 2 ==> ((f.flags & 1) == 1) == (!(forall|q: int|
                0 <= q < samples@.len() ==> samples@[q] == 0i32) && 2 * spec_side_energy(
                spec_channel_of(samples@, 2, 0),
                spec_channel_of(samples@, 2, 1),
            ) < spec_energy(spec_channel_of(samples@, 2, 0)) + spec_energy(
                spec_channel_of(samples@, 2, 1),
            )),
    {
        let nch: usize = self.channels as usize;
        let n: usize = samples.len() / nch;
        proof {
            vstd::arithmetic::div_mod::lemma_fundamental_div_mod(
                samples@.len() as int,
                nch as int,
            );
            lemma_flag_bit();
        }
        // silence?
        let mut all_zero: bool = true;
        let mut si: usize = 0;
        while si < samples.len()
            invariant
                si <= samples@.len(),
                all_zero == (forall|q: int| 0 <= q < si ==> samples@[q] == 0i32),
            decreases samples@.len() - si,
        {
            if samples[si] != 0 {
                all_zero = false;
                proof {
                    assert(samples@[si as int] != 0i32);
                }
            }
            si = si + 1;
        }
        if all_zero {
            let mut f = Frame::new(0, n as u32);
            let mut c: usize = 0;
            let mut chans: Vec<ChannelData> = Vec::new();
            while c < nch
                invariant
                    c <= nch,
                    chans@.len() == c,
                    forall|q: int|
                        0 <= q < c ==> channel_model(#[trigger] chans@[q])
                            == crate::reader::silence_channel_model(),
                decreases nch - c,
            {
                chans.push(ChannelData::new_silence());
                c = c + 1;
                proof {
                    assert(channel_model(chans@[c - 1]) =~= crate::reader::silence_channel_model());
                }
            }
            f.channels = chans;
            proof {
                lemma_silence_frame_decodes(frame_model(f), self.channels, samples@);
                assert(f.channels@.len() * (0 + 56) + 6 < 0x1_0000_0000) by (nonlinear_arith)
                    requires
                        f.channels@.len() <= 255,
                ;
                lemma_encoded_frame_writable(f, 0);
                assert(crate::writer::spec_frame_parseable(f, self.channels)) by {
                    assert forall|j: int| 0 <= j < f.channels@.len() implies
                        crate::writer::spec_channel_parseable(
                        #[trigger] f.channels@[j],
                        crate::types::spec_frame_type_of(0),
                        f.frame_samples,
                    ) by {
                        assert(channel_model(f.channels@[j])
                            == crate::reader::silence_channel_model());
                    }
                }
            }
            return f;
        }
        // deinterleave and optionally switch to mid-side
        let deint: Vec<Vec<i32>> = self.deinterleave(samples, nch);
        let ghost deint_chs = deint@.map_values(|v: Vec<i32>| v@);
        let mut use_ms: bool = false;
        proof {
            if nch == 2 {
                assert forall|w: int| 0 <= w < deint@[0]@.len() implies -0x8000 <= #[trigger] deint@[0]@[w]
                    <= 0x7fff by {
                    lemma_sample_in_range(samples@, nch as nat, w, n as nat);
                    assert(deint@[0]@[w] == samples@[w * (nch as int) + 0]);
                }
                assert forall|w: int| 0 <= w < deint@[1]@.len() implies -0x8000 <= #[trigger] deint@[1]@[w]
                    <= 0x7fff by {
                    lemma_sample_in_range(samples@, nch as nat, w, n as nat);
                    assert(deint@[1]@[w] == samples@[w * (nch as int) + 1]);
                }
            }
        }
        let chans_in: Vec<Vec<i32>> = if nch == 2 && self.should_use_mid_side(
            &deint[0],
            &deint[1],
        ) {
            use_ms = true;
            let (mid, side) = to_mid_side(&deint[0], &deint[1]);
            let mut v: Vec<Vec<i32>> = Vec::new();
            v.push(mid);
            v.push(side);
            v
        } else {
            deint
        };
        proof {
            assert(chans_in@.map_values(|v: Vec<i32>| v@).len() == nch);
            assert forall|q: int| 0 <= q < chans_in@.len() implies (#[trigger] chans_in@[q])@.len()
                == n by {}
            assert forall|q: int, w: int|
                0 <= q < chans_in@.len() && 0 <= w < n implies -0x2_0000 <= #[trigger] (
            chans_in@[q])@[w] <= 0x2_0000 by {
                lemma_sample_in_range(samples@, nch as nat, w, n as nat);
                if use_ms {
                    assert(deint_chs[0][w] == samples@[w * (nch as int) + 0]);
                    assert(deint_chs[1][w] == samples@[w * (nch as int) + 1]);
                    assert((chans_in@[0])@[w] == deint@[0]@[w] + deint@[1]@[w]);
                    assert((chans_in@[1])@[w] == deint@[0]@[w] - deint@[1]@[w]);
                } else {
                    assert((chans_in@[q])@[w] == samples@[w * (nch as int) + q]);
                }
            }
            if (samples@.len() as int) / (nch as int) < 1 {
                vstd::arithmetic::div_mod::lemma_div_is_ordered(
                    nch as int,
                    samples@.len() as int,
                    nch as int,
                );
                vstd::arithmetic::div_mod::lemma_div_by_self(nch as int);
            }
            if !use_ms {
                assert forall|q: int, w: int|
                    0 <= q < chans_in@.len() && 0 <= w < n implies -0x8000 <= #[trigger] (
                chans_in@[q])@[w] <= 0x7fff by {
                    vstd::arithmetic::mul::lemma_mul_is_commutative(nch as int, n as int);
                    lemma_sample_in_range(samples@, nch as nat, w, n as nat);
                    assert((chans_in@[q])@[w] == samples@[w * (nch as int) + q]);
                }
            }
        }
        let max_order: usize = self.lpc_order_from_level();
        let mut chans: Vec<ChannelData> = Vec::new();
        let mut all_raw: bool = true;
        let mut c: usize = 0;
        while c < chans_in.len()
            invariant
                c <= chans_in@.len(),
                chans@.len() == c,
                forall|q: int| 0 <= q < chans_in@.len() ==> (#[trigger] chans_in@[q])@.len() == n,
                forall|q: int, w: int|
                    0 <= q < chans_in@.len() && 0 <= w < n ==> -0x2_0000 <= #[trigger] (
                    chans_in@[q])@[w] <= 0x2_0000,
                forall|q: int|
                    0 <= q < c ==> spec_channel_inverts(#[trigger] chans@[q], (chans_in@[q])@),
                forall|q: int|
                    0 <= q < c ==> (!((#[trigger] chans@[q]).residual_encoding is Rice)
                        ==> chans@[q].rice_parameter == 0 && chans@[q].predictor_coeffs@.len() == 0
                        && chans@[q].shift_bits == 0 && chans@[q].residual_encoding is Raw
                        && chans@[q].residuals@.len() == 2 * n),
                all_raw ==> forall|q: int|
                    0 <= q < c ==> (#[trigger] chans@[q]).predictor_coeffs@.len() == 0
                        && chans@[q].shift_bits == 0 && chans@[q].residual_encoding is Raw
                        && chans@[q].residuals@.len() == 2 * n,
                !use_ms ==> forall|q: int|
                    0 <= q < c ==> (#[trigger] chans@[q]).residuals@.len() <= 2 * n,
            decreases chans_in@.len() - c,
        {
            let (cd, is_raw) = self.encode_channel_int(chans_in[c].as_slice(), max_order);
            if !is_raw {
                all_raw = false;
            }
            chans.push(cd);
            c = c + 1;
        }
        let ftype: u8 = if all_raw {
            254
        } else {
            FrameType::from_order(max_order).to_byte()
        };
        let mut f = Frame::new(ftype, n as u32);
        f.flags = if use_ms {
            1
        } else {
            0
        };
        f.channels = chans;
        proof {
            let civ = chans_in@.map_values(|v: Vec<i32>| v@);
            if use_ms {
                assert forall|w: int| 0 <= w < n implies (#[trigger] civ[0][w])
                    == (deint_chs[0][w] + deint_chs[1][w]) as i32 by {
                    assert((chans_in@[0])@[w] == deint@[0]@[w] + deint@[1]@[w]);
                    lemma_sample_in_range(samples@, nch as nat, w, n as nat);
                    assert(deint_chs[0][w] == samples@[w * (nch as int) + 0]);
                    assert(deint_chs[1][w] == samples@[w * (nch as int) + 1]);
                }
                assert forall|w: int| 0 <= w < n implies (#[trigger] civ[1][w])
                    == (deint_chs[0][w] - deint_chs[1][w]) as i32 by {
                    assert((chans_in@[0])@[w] == deint@[0]@[w] + deint@[1]@[w]);
                    assert((chans_in@[1])@[w] == deint@[0]@[w] - deint@[1]@[w]);
                    lemma_sample_in_range(samples@, nch as nat, w, n as nat);
                    assert(deint_chs[0][w] == samples@[w * (nch as int) + 0]);
                    assert(deint_chs[1][w] == samples@[w * (nch as int) + 1]);
                }
                assert(civ[0] =~= Seq::new(
                    n as nat,
                    |i: int| (deint_chs[0][i] + deint_chs[1][i]) as i32,
                ));
                assert(civ[1] =~= Seq::new(
                    n as nat,
                    |i: int| (deint_chs[0][i] - deint_chs[1][i]) as i32,
                ));
            } else {
                assert(civ =~= deint_chs);
            }
            lemma_encoded_frame_decodes(
                frame_model(f),
                self.channels,
                samples@,
                deint_chs,
                civ,
                use_ms,
            );
            if use_ms {
                assert(f.channels@.len() * ((68 * n + 8) + 56) + 6 < 0x1_0000_0000)
                    by (nonlinear_arith)
                    requires
                        f.channels@.len() == 2,
                        n <= 2_000_000,
                ;
                lemma_encoded_frame_writable(f, (68 * n + 8) as nat);
            } else {
                assert(f.channels@.len() * ((2 * n) + 56) + 6 < 0x1_0000_0000)
                    by (nonlinear_arith)
                    requires
                        f.channels@.len() <= 255,
                        n <= 2_000_000,
                ;
                lemma_encoded_frame_writable(f, (2 * n) as nat);
            }
            assert(crate::writer::spec_frame_parseable(f, self.channels)) by {
                let ftt = crate::types::spec_frame_type_of(f.frame_type);
                assert forall|j: int| 0 <= j < f.channels@.len() implies
                    crate::writer::spec_channel_parseable(
                    #[trigger] f.channels@[j],
                    ftt,
                    f.frame_samples,
                ) by {
                    if all_raw {
                        assert(f.channels@[j].residuals@.len() == 2 * n);
                    }
                }
            }
            assert(f.frame_type != 0);
            if nch == 2 {
                assert(deint@[0]@ == spec_channel_of(samples@, 2, 0));
                assert(deint@[1]@ == spec_channel_of(samples@, 2, 1));
            }
        }
        f
    }
}

/// A silence frame with one empty channel per file channel decodes to
/// all-zero samples.
proof fn lemma_silence_frame_decodes(fm: FrameModel, channels: u8, samples: Seq<i32>)
    requires
        channels >= 1,
        fm.frame_type == 0,
        fm.flags == 0,
        (samples.len() as int) % (channels as int) == 0,
        fm.frame_samples == (samples.len() as int) / (channels as int),
        fm.channels.len() == channels,
        forall|q: int|
            0 <= q < fm.channels.len() ==> #[trigger] fm.channels[q]
                == crate::reader::silence_channel_model(),
        forall|q: int| 0 <= q < samples.len() ==> #[trigger] samples[q] == 0i32,
    ensures
        spec_decode_frame(fm, channels) == samples,
{
    lemma_flag_bit();
    let n = fm.frame_samples as nat;
    let decoded = fm.channels.map_values(|c: ChannelModel| spec_decode_channel(c, n));
    assert(spec_frame_channels(fm, channels) == decoded);
    vstd::arithmetic::div_mod::lemma_fundamental_div_mod(samples.len() as int, channels as int);
    lemma_interleave_len(decoded, channels as nat, n);
    assert forall|kk: int| 0 <= kk < samples.len() implies spec_interleave(
        decoded,
        channels as nat,
        n,
    )[kk] == samples[kk] by {
        lemma_interleave_index(decoded, channels as nat, n, kk);
        vstd::arithmetic::div_mod::lemma_fundamental_div_mod(kk, channels as int);
        vstd::arithmetic::div_mod::lemma_mod_bound(kk, channels as int);
        vstd::arithmetic::div_mod::lemma_div_pos_is_pos(kk, channels as int);
        let i = kk / (channels as int);
        let c = kk % (channels as int);
        assert(0 <= i < n) by {
            if i >= n {
                vstd::arithmetic::mul::lemma_mul_inequality(n as int, i, channels as int);
                vstd::arithmetic::mul::lemma_mul_is_commutative(n as int, channels as int);
                vstd::arithmetic::mul::lemma_mul_is_commutative(i, channels as int);
                assert((n as int) * (channels as int) <= i * (channels as int));
                assert(kk >= samples.len());
            }
        }
        assert(decoded[c] == spec_decode_channel(fm.channels[c], n));
    }
    assert(spec_interleave(decoded, channels as nat, n) =~= samples);
}

/// A frame whose channels each decode to the (possibly mid-side) channel
/// split of its samples decodes to the samples.
proof fn lemma_encoded_frame_decodes(
    fm: FrameModel,
    channels: u8,
    samples: Seq<i32>,
    deint: Seq<Seq<i32>>,
    chans_in: Seq<Seq<i32>>,
    use_ms: bool,
)
    requires
        channels >= 1,
        (samples.len() as int) % (channels as int) == 0,
        fm.frame_samples == (samples.len() as int) / (channels as int),
        fm.flags == (if use_ms {
            1u8
        } else {
            0u8
        }),
        fm.frame_type != 253 && fm.frame_type != 0,
        deint.len() == channels,
        forall|c: int|
            0 <= c < channels ==> #[trigger] deint[c] == spec_channel_of(
                samples,
                channels as nat,
                c,
            ),
        use_ms ==> channels == 2 && chans_in.len() == 2 && chans_in[0] == Seq::new(
            fm.frame_samples as nat,
            |i: int| (deint[0][i] + deint[1][i]) as i32,
        ) && chans_in[1] == Seq::new(
            fm.frame_samples as nat,
            |i: int| (deint[0][i] - deint[1][i]) as i32,
        ),
        !use_ms ==> chans_in == deint,
        fm.channels.len() == chans_in.len(),
        forall|c: int| 0 <= c < chans_in.len() ==> (#[trigger] chans_in[c]).len()
            == fm.frame_samples,
        forall|c: int|
            0 <= c < fm.channels.len() ==> spec_decode_channel(
                #[trigger] fm.channels[c],
                fm.frame_samples as nat,
            ) == chans_in[c],
        forall|q: int| 0 <= q < samples.len() ==> -0x8000 <= #[trigger] samples[q] <= 0x7fff,
    ensures
        spec_decode_frame(fm, channels) == samples,
{
    lemma_flag_bit();
    let n = fm.frame_samples as nat;
    let decoded = fm.channels.map_values(|c: ChannelModel| spec_decode_channel(c, n));
    assert(decoded =~= chans_in);
    vstd::arithmetic::div_mod::lemma_fundamental_div_mod(samples.len() as int, channels as int);
    let fc = spec_frame_channels(fm, channels);
    assert forall|c: int| 0 <= c < channels implies #[trigger] fc[c] == deint[c] && fc.len()
        == channels by {
        if use_ms {
            assert(fc.len() == 2);
            assert forall|i: int| 0 <= i < n implies fc[0][i] == deint[0][i] && fc[1][i]
                == deint[1][i] by {
                let l = deint[0][i];
                let r = deint[1][i];
                assert(samples[i * (channels as int) + 0] == l && samples[i * (channels as int)
                    + 1] == r) by {
                    lemma_sample_in_range(samples, channels as nat, i, n);
                }
                lemma_mid_side_bijection(l, r);
                assert(chans_in[0][i] == (l + r) as i32 && chans_in[1][i] == (l - r) as i32);
            }
            assert(fc[0] =~= deint[0]);
            assert(fc[1] =~= deint[1]);
            assert(fc[c] == deint[c]);
        } else {
            assert(fc == decoded);
        }
    }
    assert(fc =~= deint);
    lemma_interleave_deinterleave(samples, channels as nat, deint);
}

/// Sample `i * nch + c` exists and is 16-bit for `i` below the row count.
proof fn lemma_sample_in_range(samples: Seq<i32>, nch: nat, i: int, n: nat)
    requires
        nch >= 1,
        samples.len() == n * nch,
        0 <= i < n,
        forall|q: int| 0 <= q < samples.len() ==> -0x8000 <= #[trigger] samples[q] <= 0x7fff,
    ensures
        forall|c: int|
            0 <= c < nch ==> 0 <= i * (nch as int) + c < samples.len() && -0x8000 <= #[trigger]
            samples[i * (nch as int) + c] <= 0x7fff,
{
    assert(i * nch + nch <= n * nch) by (nonlinear_arith)
        requires
            0 <= i < n,
            nch >= 1,
    ;
    vstd::arithmetic::mul::lemma_mul_nonnegative(i, nch as int);
}

/// Bounds the serialized size of an encoder-built frame.
proof fn lemma_frame_bytes_len(f: Frame)
    requires
        forall|j: int|
            0 <= j < f.channels@.len() ==> spec_channel_writable(
                #[trigger] f.channels@[j],
                crate::types::spec_frame_type_of(f.frame_type),
            ),
    ensures
        spec_frame_bytes(f).len() == 6 + spec_channels_bytes_len(
            f.channels@,
            crate::types::spec_frame_type_of(f.frame_type),
        ),
{
    lemma_channels_bytes_len(f.channels@, crate::types::spec_frame_type_of(f.frame_type));
    vstd::bytes::lemma_auto_spec_u32_to_from_le_bytes();
}

/// The total length of the length-prefixed channel blobs.
pub open spec fn spec_channels_bytes_len(chs: Seq<ChannelData>, ft: FrameType) -> nat
    decreases chs.len(),
{
    if chs.len() == 0 {
        0
    } else {
        spec_channels_bytes_len(chs.drop_last(), ft) + 4 + spec_channel_bytes(chs.last(), ft).len()
    }
}

proof fn lemma_channels_bytes_len(chs: Seq<ChannelData>, ft: FrameType)
    ensures
        crate::writer::spec_channels_bytes(chs, ft).len() == spec_channels_bytes_len(chs, ft),
    decreases chs.len(),
{
    if chs.len() > 0 {
        lemma_channels_bytes_len(chs.drop_last(), ft);
        vstd::bytes::lemma_auto_spec_u32_to_from_le_bytes();
    }
}

/// An encoder-built frame is small enough for the writer: each channel blob
/// is bounded by the Rice worst case, so the whole frame fits its length
/// fields.
proof fn lemma_encoded_frame_writable(f: Frame, rb: nat)
    requires
        rb <= 0x1000_0000,
        f.channels@.len() * (rb + 56) + 6 < 0x1_0000_0000,
        forall|j: int|
            0 <= j < f.channels@.len() ==> (#[trigger] f.channels@[j]).predictor_coeffs@.len()
                <= 12 && f.channels@[j].residuals@.len() <= rb,
    ensures
        spec_frame_writable(f),
{
    let ft = crate::types::spec_frame_type_of(f.frame_type);
    assert forall|j: int| 0 <= j < f.channels@.len() implies spec_channel_writable(
        #[trigger] f.channels@[j],
        ft,
    ) by {
        lemma_channel_bytes_bound(f.channels@[j], ft, rb);
    }
    lemma_channels_bytes_len_bound(f.channels@, ft, rb);
    lemma_frame_bytes_len(f);
}

proof fn lemma_channel_bytes_bound(ch: ChannelData, ft: FrameType, rb: nat)
    requires
        rb <= 0x1000_0000,
        ch.predictor_coeffs@.len() <= 12,
        ch.residuals@.len() <= rb,
    ensures
        spec_channel_bytes(ch, ft).len() <= rb + 52,
        spec_channel_writable(ch, ft),
{
    lemma_coeffs_bytes_len(ch.predictor_coeffs@);
}

pub proof fn lemma_coeffs_bytes_len(cs: Seq<i32>)
    ensures
        crate::writer::spec_coeffs_bytes(cs).len() == 4 * cs.len(),
    decreases cs.len(),
{
    if cs.len() > 0 {
        lemma_coeffs_bytes_len(cs.drop_last());
        vstd::bytes::lemma_auto_spec_u32_to_from_le_bytes();
    }
}

proof fn lemma_channels_bytes_len_bound(chs: Seq<ChannelData>, ft: FrameType, rb: nat)
    requires
        rb <= 0x1000_0000,
        forall|j: int|
            0 <= j < chs.len() ==> (#[trigger] chs[j]).predictor_coeffs@.len() <= 12
                && chs[j].residuals@.len() <= rb,
    ensures
        spec_channels_bytes_len(chs, ft) <= chs.len() * (rb + 56),
    decreases chs.len(),
{
    if chs.len() == 0 {
        vstd::arithmetic::mul::lemma_mul_basics((rb + 56) as int);
    } else {
        lemma_channels_bytes_len_bound(chs.drop_last(), ft, rb);
        lemma_channel_bytes_bound(chs.last(), ft, rb);
        assert((chs.len() - 1) * (rb + 56) + (rb + 56) == chs.len() * (rb + 56))
            by (nonlinear_arith);
    }
}

/// The number of frames an interleaved buffer splits into: rows divided by
/// the rate, rounded up.
pub open spec fn spec_num_frames(len: nat, nch: nat, rate: nat) -> nat
    recommends
        nch >= 1,
        rate >= 1,
{
    ((((len as int) / (nch as int)) + (rate as int) - 1) / (rate as int)) as nat
}

/// Ceiling-division characterization: `fi` chunks of `rate` rows cover `npc`
/// rows with the last chunk partial exactly when `fi` is the rounded-up
/// quotient.
proof fn lemma_ceil_div(npc: int, rate: int, fi: int)
    requires
        rate >= 1,
        npc >= 0,
        fi >= 0,
        fi * rate >= npc,
        fi == 0 ==> npc == 0,
        fi >= 1 ==> (fi - 1) * rate < npc,
    ensures
        fi == (npc + rate - 1) / rate,
{
    if fi == 0 {
        vstd::arithmetic::div_mod::lemma_div_pos_is_pos(npc + rate - 1, rate);
        vstd::arithmetic::div_mod::lemma_basic_div(npc + rate - 1, rate);
    } else {
        let r = npc + rate - 1 - fi * rate;
        assert(0 <= r < rate) by (nonlinear_arith)
            requires
                rate >= 1,
                fi >= 1,
                fi * rate >= npc,
                (fi - 1) * rate < npc,
                r == npc + rate - 1 - fi * rate,
        ;
        vstd::arithmetic::div_mod::lemma_fundamental_div_mod_converse(
            npc + rate - 1,
            rate,
            fi,
            r,
        );
    }
}

impl Encoder {
    /// Encodes interleaved samples into a complete file with the given
    /// metadata chunk. Succeeds exactly when the sample count splits into at
    /// most four million frames; the produced bytes are the file layout over
    /// the encoded frames, whose decoded samples are exactly the input.
    #[verifier::loop_isolation(false)]
    #[verifier::rlimit(100)]
    pub fn encode(&self, samples: &[i32], metadata: &[u8]) -> (r: FloResult<Vec<u8>>)
        requires
            1 <= self.channels,
            1 <= self.sample_rate <= 2_000_000,
            (samples@.len() as int) % (self.channels as int) == 0,
            forall|i: int| 0 <= i < samples@.len() ==> -0x8000 <= #[trigger] samples@[i] <= 0x7fff,
        ensures
            (r is Ok) == (spec_num_frames(
                samples@.len(),
                self.channels as nat,
                self.sample_rate as nat,
            ) <= 100_000),
            r is Ok ==> exists|fs: Seq<Frame>|
                {
                    &&& crate::writer::spec_frames_writable(fs)
                    &&& (#[trigger] crate::writer::spec_file_bytes(
                        crate::writer::spec_written_header(
                            self.sample_rate,
                            self.channels,
                            self.bit_depth,
                            self.compression_level,
                            false,
                            0,
                            fs,
                            metadata@,
                        ),
                        fs,
                        metadata@,
                    )) == (r->Ok_0)@
                    &&& spec_decode_frames(
                        fs.map_values(|fr: Frame| frame_model(fr)),
                        self.channels,
                    ) == samples@
                    &&& fs.len() == spec_num_frames(
                        samples@.len(),
                        self.channels as nat,
                        self.sample_rate as nat,
                    )
                    &&& forall|i: int|
                        0 <= i < fs.len() ==> (#[trigger] fs[i]).frame_type != 253
                            && fs[i].frame_samples <= 2_000_000 && fs[i].channels@.len()
                            == self.channels && crate::writer::spec_frame_parseable(
                            fs[i],
                            self.channels,
                        )
                    &&& forall|i: int|
                        0 <= i < fs.len() ==> {
                            let step = (self.sample_rate as int) * (self.channels as int);
                            let lo = i * step;
                            let hi = if lo + step <= samples@.len() {
                                lo + step
                            } else {
                                samples@.len() as int
                            };
                            &&& (#[trigger] fs[i]).frame_samples == (hi - lo) / (
                            self.channels as int)
                            &&& (fs[i].frame_type == 0) == (forall|q: int|
                                lo <= q < hi ==> samples@[q] == 0i32)
                        }
                },
    {
        let nch: usize = self.channels as usize;
        let rate: usize = self.sample_rate as usize;
        let len: usize = samples.len();
        let npc: usize = len / nch;
        proof {
            vstd::arithmetic::div_mod::lemma_fundamental_div_mod(len as int, nch as int);
            vstd::arithmetic::mul::lemma_mul_is_commutative(nch as int, npc as int);
        }
        let mut frames: Vec<Frame> = Vec::new();
        let mut start: usize = 0;
        let ghost fms = Seq::<FrameModel>::empty();
        let mut rows_done: usize = 0;
        proof {
            assert(spec_decode_frames(
                frames@.map_values(|fr: Frame| frame_model(fr)),
                self.channels,
            ) =~= samples@.take(0));
        }
        while start < len
            invariant
                rows_done <= npc,
                start == rows_done * nch,
                start <= len,
                start < len ==> rows_done == frames@.len() * rate,
                start == len ==> rows_done == npc && (frames@.len() * rate >= npc) && (
                frames@.len() == 0 ==> npc == 0) && (frames@.len() >= 1 ==> (frames@.len() - 1)
                    * rate < npc),
                spec_decode_frames(frames@.map_values(|fr: Frame| frame_model(fr)), self.channels)
                    == samples@.take(start as int),
                forall|i: int|
                    0 <= i < frames@.len() ==> crate::writer::spec_frame_writable(
                        #[trigger] frames@[i],
                    ) && frames@[i].frame_type != 253 && frames@[i].frame_samples <= 2_000_000
                        && frames@[i].channels@.len() == self.channels
                        && crate::writer::spec_frame_parseable(frames@[i], self.channels),
                forall|i: int|
                    0 <= i < frames@.len() ==> {
                        let step = (rate as int) * (nch as int);
                        let lo = i * step;
                        let hi = if lo + step <= len {
                            lo + step
                        } else {
                            len as int
                        };
                        &&& (#[trigger] frames@[i]).frame_samples == (hi - lo) / (nch as int)
                        &&& (frames@[i].frame_type == 0) == (forall|q: int|
                            lo <= q < hi ==> samples@[q] == 0i32)
                    },
            decreases len - start,
        {
            let rows_left: usize = npc - rows_done;
            let chunk_rows: usize = if rows_left < rate {
                rows_left
            } else {
                rate
            };
            proof {
                assert(rows_left >= 1) by {
                    if rows_done >= npc {
                        vstd::arithmetic::mul::lemma_mul_inequality(
                            npc as int,
                            rows_done as int,
                            nch as int,
                        );
                    }
                }
                assert((rows_done + chunk_rows) * nch == rows_done * nch + chunk_rows * nch)
                    by (nonlinear_arith);
                assert(chunk_rows * nch <= rows_left * nch && rows_left * nch <= (npc - rows_done)
                    * nch) by (nonlinear_arith)
                    requires
                        chunk_rows <= rows_left,
                        rows_left == npc - rows_done,
                        nch >= 1,
                ;
                assert((npc - rows_done) * nch == npc * nch - rows_done * nch)
                    by (nonlinear_arith);
                assert(npc * nch == len);
                assert(chunk_rows * nch >= nch) by (nonlinear_arith)
                    requires
                        chunk_rows >= 1,
                        nch >= 1,
                ;
            }
            let chunk_len: usize = chunk_rows * nch;
            let chunk: &[i32] = vstd::slice::slice_subrange(samples, start, start + chunk_len);
            proof {
                assert((chunk@.len() as int) % (nch as int) == 0 && (chunk@.len() as int) / (
                nch as int) == chunk_rows) by {
                    vstd::arithmetic::div_mod::lemma_fundamental_div_mod_converse(
                        chunk_len as int,
                        nch as int,
                        chunk_rows as int,
                        0,
                    );
                }
            }
            let frame: Frame = self.encode_frame(chunk);
            let ghost old_frames = frames@;
            frames.push(frame);
            let ghost old_start = start;
            start = start + chunk_len;
            rows_done = rows_done + chunk_rows;
            proof {
                let maps = frames@.map_values(|fr: Frame| frame_model(fr));
                assert(frames@.drop_last() =~= old_frames);
                assert(maps.drop_last() =~= old_frames.map_values(|fr: Frame| frame_model(fr)));
                assert(maps.last() == frame_model(frame));
                assert(spec_decode_frame(frame_model(frame), self.channels) == chunk@);
                assert(spec_decode_frames(maps, self.channels) == spec_decode_frames(
                    maps.drop_last(),
                    self.channels,
                ) + spec_decode_frame(maps.last(), self.channels));
                assert(samples@.take(start as int) =~= samples@.take(old_start as int)
                    + chunk@);
                assert(spec_decode_frames(maps, self.channels) =~= samples@.take(start as int));
                assert forall|i: int| 0 <= i < frames@.len() implies {
                    let step = (rate as int) * (nch as int);
                    let lo = i * step;
                    let hi = if lo + step <= len {
                        lo + step
                    } else {
                        len as int
                    };
                    &&& (#[trigger] frames@[i]).frame_samples == (hi - lo) / (nch as int)
                    &&& (frames@[i].frame_type == 0) == (forall|q: int|
                        lo <= q < hi ==> samples@[q] == 0i32)
                } by {
                    let step = (rate as int) * (nch as int);
                    let lo = i * step;
                    let hi = if lo + step <= len {
                        lo + step
                    } else {
                        len as int
                    };
                    if i < frames@.len() - 1 {
                        assert(frames@[i] == old_frames[i]);
                    } else {
                        let flen = old_frames.len() as int;
                        assert(lo == old_start as int) by {
                            vstd::arithmetic::mul::lemma_mul_is_associative(
                                flen,
                                rate as int,
                                nch as int,
                            );
                            vstd::arithmetic::mul::lemma_mul_is_commutative(
                                flen * (rate as int),
                                nch as int,
                            );
                        }
                        assert(hi == start as int) by {
                            if chunk_rows == rate {
                                assert(lo + step == old_start + chunk_rows * nch);
                            } else {
                                assert(chunk_rows < rate);
                                assert(rows_done == npc);
                                assert(start == len);
                                assert(lo + step == old_start + (rate as int) * (nch as int));
                                assert((rate as int) * (nch as int) > chunk_rows * nch)
                                    by (nonlinear_arith)
                                    requires
                                        chunk_rows < rate,
                                        nch >= 1,
                                ;
                            }
                        }
                        assert(frames@[i] == frame);
                        assert(frame.frame_samples == (hi - lo) / (nch as int));
                        assert((frame.frame_type == 0) == (forall|q: int|
                            0 <= q < chunk@.len() ==> chunk@[q] == 0i32));
                        assert forall|q: int| lo <= q < hi implies samples@[q] == chunk@[q
                            - lo] by {
                            assert(chunk@[q - lo] == samples@[old_start + (q - lo)]);
                        }
                        if forall|q: int| lo <= q < hi ==> samples@[q] == 0i32 {
                            assert forall|q: int| 0 <= q < chunk@.len() implies chunk@[q]
                                == 0i32 by {
                                assert(chunk@[q] == samples@[lo + q]);
                            }
                        }
                        if forall|q: int| 0 <= q < chunk@.len() ==> chunk@[q] == 0i32 {
                            assert forall|q: int| lo <= q < hi implies samples@[q] == 0i32 by {
                                assert(samples@[q] == chunk@[q - lo]);
                            }
                        }
                    }
                }
                if start < len {
                    assert(rows_done == frames@.len() * rate) by {
                        assert(chunk_rows == rate) by {
                            if rows_left < rate {
                                assert(rows_done == npc);
                                assert(start == len);
                            }
                        }
                        assert((frames@.len() - 1) * rate + rate == frames@.len() * rate)
                            by (nonlinear_arith);
                    }
                } else {
                    assert(rows_done == npc) by {
                        if rows_done < npc {
                            assert(rows_done * nch < npc * nch) by (nonlinear_arith)
                                requires
                                    rows_done < npc,
                                    nch >= 1,
                            ;
                        }
                    }
                    assert((frames@.len() - 1) * rate + chunk_rows == frames@.len() * rate
                        - rate + chunk_rows) by (nonlinear_arith);
                }
            }
        }
        proof {
            assert(samples@.take(len as int) =~= samples@);
            if npc == 0 {
                vstd::arithmetic::div_mod::lemma_div_pos_is_pos(
                    npc as int + rate - 1,
                    rate as int,
                );
                vstd::arithmetic::div_mod::lemma_basic_div(npc as int + rate - 1, rate as int);
            } else {
                lemma_ceil_div(npc as int, rate as int, frames@.len() as int);
            }
        }
        let writer = Writer::new();
        let r = writer.write(
            self.sample_rate,
            self.channels,
            self.bit_depth,
            self.compression_level,
            &frames,
            metadata,
        );
        match r {
            Ok(bytes) => {
                proof {
                    let fs = frames@;
                    assert(crate::writer::spec_file_bytes(
                        crate::writer::spec_written_header(
                            self.sample_rate,
                            self.channels,
                            self.bit_depth,
                            self.compression_level,
                            false,
                            0,
                            fs,
                            metadata@,
                        ),
                        fs,
                        metadata@,
                    ) == bytes@);
                }
                Ok(bytes)
            },
            Err(e) => {
                proof {
                    assert(frames@.len() > 100_000);
                }
                Err(e)
            },
        }
    }
}

} // verus!
