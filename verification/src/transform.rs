//! The integer side of the transform (lossy) frame layout: block sizes,
//! quality presets, the LEB128 varint, the sparse run-length coding of
//! quantized coefficients, and the serialized transform-frame record
//! (block-size tag, channel count, log-encoded scale factors, and one
//! length-prefixed sparse payload per channel).

use vstd::prelude::*;
use vstd::arithmetic::power2::pow2;
use vstd::bytes::{spec_u16_to_le_bytes, spec_u32_to_le_bytes};

use crate::reader::le16_at;
use crate::types::{FloError, FloResult};
use crate::writer::{push_bytes, push_u16_le, push_u32_le};

verus! {

/// The number of Bark bands, and so of scale factors per channel.
pub const NUM_BARK_BANDS: usize = 25;

/// The block sizes of the transform: long blocks of 2048 samples, short
/// blocks of 256, and the two transition shapes.
#[derive(Debug, Clone, Copy, PartialEq, Eq, Structural)]
pub enum BlockSize {
    Long,
    Short,
    Start,
    Stop,
}

pub open spec fn spec_block_size_tag(b: BlockSize) -> u8 {
    match b {
        BlockSize::Long => 0,
        BlockSize::Short => 1,
        BlockSize::Start => 2,
        BlockSize::Stop => 3,
    }
}

pub open spec fn spec_block_size_samples(b: BlockSize) -> nat {
    match b {
        BlockSize::Short => 256,
        _ => 2048,
    }
}

impl BlockSize {
    /// The number of input samples of one block.
    pub fn samples(self) -> (n: usize)
        ensures
            n == spec_block_size_samples(self),
    {
        match self {
            BlockSize::Short => 256,
            _ => 2048,
        }
    }

    /// The number of transform coefficients: half the block length.
    pub fn coefficients(self) -> (n: usize)
        ensures
            n == spec_block_size_samples(self) / 2,
    {
        self.samples() / 2
    }

    pub fn to_tag(self) -> (t: u8)
        ensures
            t == spec_block_size_tag(self),
    {
        match self {
            BlockSize::Long => 0,
            BlockSize::Short => 1,
            BlockSize::Start => 2,
            BlockSize::Stop => 3,
        }
    }

    /// Reads a block size back from its tag byte.
    pub fn from_tag(t: u8) -> (r: Option<BlockSize>)
        ensures
            r == (if t == 0 {
                Some(BlockSize::Long)
            } else if t == 1 {
                Some(BlockSize::Short)
            } else if t == 2 {
                Some(BlockSize::Start)
            } else if t == 3 {
                Some(BlockSize::Stop)
            } else {
                None::<BlockSize>
            }),
    {
        if t == 0 {
            Some(BlockSize::Long)
        } else if t == 1 {
            Some(BlockSize::Short)
        } else if t == 2 {
            Some(BlockSize::Start)
        } else if t == 3 {
            Some(BlockSize::Stop)
        } else {
            None
        }
    }
}

/// Named quality levels for the lossy coder.
#[derive(Debug, Clone, Copy, PartialEq, Eq, Structural)]
pub enum QualityPreset {
    Low,
    Medium,
    High,
    VeryHigh,
    Transparent,
}

impl QualityPreset {
    /// A rough equivalent bitrate in kbit/s for stereo 44.1 kHz audio.
    pub fn equivalent_bitrate(self) -> (r: u32)
        ensures
            r == match self {
                QualityPreset::Low => 48u32,
                QualityPreset::Medium => 128u32,
                QualityPreset::High => 192u32,
                QualityPreset::VeryHigh => 256u32,
                QualityPreset::Transparent => 320u32,
            },
    {
        match self {
            QualityPreset::Low => 48,
            QualityPreset::Medium => 128,
            QualityPreset::High => 192,
            QualityPreset::VeryHigh => 256,
            QualityPreset::Transparent => 320,
        }
    }

    /// The quality level on a scale of 0 to 4.
    pub fn level(self) -> (r: u8)
        ensures
            r == spec_quality_level(self),
    {
        match self {
            QualityPreset::Low => 0,
            QualityPreset::Medium => 1,
            QualityPreset::High => 2,
            QualityPreset::VeryHigh => 3,
            QualityPreset::Transparent => 4,
        }
    }

    /// The preset of a quality level on a scale of 0 to 4; anything higher
    /// counts as transparent.
    pub fn from_level(v: u8) -> (r: QualityPreset)
        ensures
            spec_quality_level(r) == (if v <= 4 {
                v
            } else {
                4u8
            }),
    {
        if v == 0 {
            QualityPreset::Low
        } else if v == 1 {
            QualityPreset::Medium
        } else if v == 2 {
            QualityPreset::High
        } else if v == 3 {
            QualityPreset::VeryHigh
        } else {
            QualityPreset::Transparent
        }
    }

    /// Picks the preset whose compression ratio best matches a target
    /// bitrate for raw 16-bit PCM of the given rate and channel count: the
    /// raw rate in kbit/s over the target, in tenths, against fixed
    /// thresholds.
    pub fn from_bitrate(bitrate_kbps: u32, sample_rate: u32, channels: u8) -> (r: QualityPreset)
        requires
            bitrate_kbps >= 1,
        ensures
            r == spec_preset_for_ratio(
                ((sample_rate as int) * (channels as int) * 16 / 1000) * 10 / (
                bitrate_kbps as int),
            ),
    {
        proof {
            assert((sample_rate as int) * (channels as int) * 16 <= 0xffff_ffffi64 * 255 * 16)
                by (nonlinear_arith)
                requires
                    0 <= sample_rate <= 0xffff_ffff,
                    0 <= channels <= 255,
            ;
        }
        let raw_kbps: u64 = (sample_rate as u64) * (channels as u64) * 16 / 1000;
        let ratio_x10: u64 = raw_kbps * 10 / (bitrate_kbps as u64);
        if ratio_x10 > 200 {
            QualityPreset::Low
        } else if ratio_x10 > 100 {
            QualityPreset::Medium
        } else if ratio_x10 > 60 {
            QualityPreset::High
        } else if ratio_x10 > 40 {
            QualityPreset::VeryHigh
        } else {
            QualityPreset::Transparent
        }
    }
}

/// The preset chosen for a given compression ratio in tenths.
pub open spec fn spec_preset_for_ratio(ratio_x10: int) -> QualityPreset {
    if ratio_x10 > 200 {
        QualityPreset::Low
    } else if ratio_x10 > 100 {
        QualityPreset::Medium
    } else if ratio_x10 > 60 {
        QualityPreset::High
    } else if ratio_x10 > 40 {
        QualityPreset::VeryHigh
    } else {
        QualityPreset::Transparent
    }
}

pub open spec fn spec_quality_level(q: QualityPreset) -> u8 {
    match q {
        QualityPreset::Low => 0,
        QualityPreset::Medium => 1,
        QualityPreset::High => 2,
        QualityPreset::VeryHigh => 3,
        QualityPreset::Transparent => 4,
    }
}

/// The LEB128 bytes of a value: seven data bits per byte, low bits first,
/// the high bit of each byte flagging a continuation.
pub open spec fn spec_varint(v: u32) -> Seq<u8>
    decreases v,
{
    if v < 128 {
        seq![v as u8]
    } else {
        seq![(v % 128 + 128) as u8] + spec_varint(v / 128)
    }
}

/// Appends the varint encoding of a value.
pub fn encode_varint(out: &mut Vec<u8>, value: u32)
    ensures
        final(out)@ == old(out)@ + spec_varint(value),
{
    let mut v: u32 = value;
    loop
        invariant_except_break
            old(out)@ + spec_varint(value) == out@ + spec_varint(v),
        ensures
            out@ == old(out)@ + spec_varint(value),
        decreases v,
    {
        let ghost pre = out@;
        if v < 128 {
            out.push(v as u8);
            proof {
                assert(out@ + Seq::<u8>::empty() =~= out@);
                assert(pre + spec_varint(v) =~= out@);
            }
            break ;
        }
        let b: u8 = ((v % 128) + 128) as u8;
        out.push(b);
        v = v / 128;
        proof {
            assert(pre + (seq![b] + spec_varint(v)) =~= out@ + spec_varint(v));
        }
    }
}

/// Reading a varint at `pos`: accumulates seven bits per byte until a byte
/// without the continuation bit, the end of the data, or a shift past 32
/// bits; yields the value and the position after it.
pub open spec fn spec_read_varint(b: Seq<u8>, pos: int, shift: nat, acc: u32) -> (u32, int)
    decreases b.len() - pos,
{
    if pos < 0 || pos >= b.len() {
        (acc, pos)
    } else {
        let byte = b[pos];
        let low = (byte % 128) as u32;
        let acc2 = vstd::wrapping::u32_specs::wrapping_add(
            acc,
            vstd::wrapping::u32_specs::wrapping_mul(
                low,
                if shift < 32 {
                    pow2(shift) as u32
                } else {
                    0
                },
            ),
        );
        if byte < 128 {
            (acc2, pos + 1)
        } else if shift + 7 >= 32 {
            (acc2, pos + 1)
        } else {
            spec_read_varint(b, pos + 1, shift + 7, acc2)
        }
    }
}

/// A varint read at an in-range position consumes at least one byte.
pub proof fn lemma_varint_advances(b: Seq<u8>, pos: int, shift: nat, acc: u32)
    requires
        0 <= pos < b.len(),
    ensures
        spec_read_varint(b, pos, shift, acc).1 >= pos + 1,
    decreases b.len() - pos,
{
    if b[pos] >= 128 && shift + 7 < 32 {
        let byte = b[pos];
        let low = (byte % 128) as u32;
        let acc2 = vstd::wrapping::u32_specs::wrapping_add(
            acc,
            vstd::wrapping::u32_specs::wrapping_mul(
                low,
                if shift < 32 {
                    pow2(shift) as u32
                } else {
                    0
                },
            ),
        );
        if pos + 1 < b.len() {
            lemma_varint_advances(b, pos + 1, shift + 7, acc2);
        } else {
            assert(spec_read_varint(b, pos + 1, shift + 7, acc2) == (acc2, pos + 1));
        }
    }
}

/// Reads a varint out of a byte slice.
pub fn decode_varint(data: &[u8], pos: usize) -> (r: (u32, usize))
    requires
        pos <= data@.len(),
    ensures
        (r.0, r.1 as int) == spec_read_varint(data@, pos as int, 0, 0),
        pos <= r.1 <= data@.len(),
        pos < data@.len() ==> r.1 > pos,
{
    let n: usize = data.len();
    let mut p: usize = pos;
    let mut shift: u8 = 0;
    let mut acc: u32 = 0;
    loop
        invariant_except_break
            shift <= 28,
            shift % 7 == 0,
            spec_read_varint(data@, pos as int, 0, 0) == spec_read_varint(
                data@,
                p as int,
                shift as nat,
                acc,
            ),
        invariant
            pos <= p <= n == data@.len(),
        ensures
            (acc, p as int) == spec_read_varint(data@, pos as int, 0, 0),
        decreases n - p,
    {
        if p >= n {
            proof {
                assert(spec_read_varint(data@, p as int, shift as nat, acc) == (acc, p as int));
            }
            break ;
        }
        let ghost p0 = p as int;
        let ghost shift0 = shift as nat;
        let ghost acc0 = acc;
        let byte: u8 = data[p];
        let low: u32 = (byte % 128) as u32;
        let power: u32 = crate::bits::pow2_u32(shift as u32);
        proof {
            vstd::arithmetic::power2::lemma_pow2_strictly_increases(shift as nat, 32);
            vstd::arithmetic::power2::lemma2_to64();
        }
        acc = acc.wrapping_add(low.wrapping_mul(power));
        p = p + 1;
        if byte < 128 {
            proof {
                assert(spec_read_varint(data@, p0, shift0, acc0) == (acc, p as int));
            }
            break ;
        }
        if shift + 7 >= 32 {
            proof {
                assert(spec_read_varint(data@, p0, shift0, acc0) == (acc, p as int));
            }
            break ;
        }
        shift = shift + 7;
    }
    proof {
        if pos < data@.len() {
            lemma_varint_advances(data@, pos as int, 0, 0);
        }
    }
    (acc, p)
}

/// Counts the zero coefficients from `i`.
pub open spec fn spec_zero_run(c: Seq<i16>, i: int) -> int
    decreases c.len() - i,
{
    if i < 0 || i >= c.len() {
        0
    } else if c[i] != 0 {
        0
    } else {
        1 + spec_zero_run(c, i + 1)
    }
}

/// Counts the nonzero coefficients from `i`, stopping at 255.
pub open spec fn spec_nonzero_run(c: Seq<i16>, i: int, cap: int) -> int
    decreases c.len() - i,
{
    if i < 0 || i >= c.len() || cap <= 0 {
        0
    } else if c[i] == 0 {
        0
    } else {
        1 + spec_nonzero_run(c, i + 1, cap - 1)
    }
}

/// The little-endian bytes of a run of coefficients.
pub open spec fn spec_coeff_values_bytes(c: Seq<i16>, i: int, m: int) -> Seq<u8>
    decreases m,
{
    if m <= 0 {
        Seq::empty()
    } else {
        spec_u16_to_le_bytes(c[i] as u16) + spec_coeff_values_bytes(c, i + 1, m - 1)
    }
}

/// The sparse run-length encoding of the coefficients from `i` on: each run
/// is a varint count of zeros, a one-byte count of nonzero values, and those
/// values as 16-bit little-endian words.
pub open spec fn spec_sparse_bytes(c: Seq<i16>, i: int) -> Seq<u8>
    decreases c.len() - i,
{
    if i < 0 || i >= c.len() {
        Seq::empty()
    } else {
        let z = spec_zero_run(c, i);
        let m = spec_nonzero_run(c, i + z, 255);
        let step = if 1 <= z + m <= c.len() - i {
            z + m
        } else {
            1
        };
        spec_varint(z as u32) + seq![m as u8] + spec_coeff_values_bytes(c, i + z, m)
            + spec_sparse_bytes(c, i + step)
    }
}

proof fn lemma_zero_run_bounds(c: Seq<i16>, i: int)
    requires
        0 <= i <= c.len(),
    ensures
        0 <= spec_zero_run(c, i) <= c.len() - i,
        i + spec_zero_run(c, i) < c.len() ==> c[i + spec_zero_run(c, i)] != 0,
    decreases c.len() - i,
{
    if i < c.len() && c[i] == 0 {
        lemma_zero_run_bounds(c, i + 1);
    }
}

proof fn lemma_nonzero_run_bounds(c: Seq<i16>, i: int, cap: int)
    requires
        0 <= i <= c.len(),
    ensures
        0 <= spec_nonzero_run(c, i, cap) <= c.len() - i,
        spec_nonzero_run(c, i, cap) <= (if cap >= 0 {
            cap
        } else {
            0
        }),
    decreases c.len() - i,
{
    if i < c.len() && cap > 0 && c[i] != 0 {
        lemma_nonzero_run_bounds(c, i + 1, cap - 1);
    }
}

proof fn lemma_values_snoc(c: Seq<i16>, s: int, m: int)
    requires
        0 <= s,
        m >= 0,
        s + m < c.len(),
    ensures
        spec_coeff_values_bytes(c, s, m + 1) == spec_coeff_values_bytes(c, s, m)
            + spec_u16_to_le_bytes(c[s + m] as u16),
    decreases m,
{
    if m > 0 {
        lemma_values_snoc(c, s + 1, m - 1);
        assert(spec_coeff_values_bytes(c, s, m + 1) =~= spec_coeff_values_bytes(c, s, m)
            + spec_u16_to_le_bytes(c[s + m] as u16));
    } else {
        assert(spec_coeff_values_bytes(c, s + 1, 0) =~= Seq::<u8>::empty());
        assert(spec_coeff_values_bytes(c, s, 1) == spec_u16_to_le_bytes(c[s] as u16)
            + spec_coeff_values_bytes(c, s + 1, 0));
        assert(spec_u16_to_le_bytes(c[s] as u16) + Seq::<u8>::empty() =~= spec_u16_to_le_bytes(
            c[s] as u16,
        ));
        assert(spec_coeff_values_bytes(c, s, 0) =~= Seq::<u8>::empty());
        assert(c[s + 0] == c[s]);
    }
}

/// Run-length encodes quantized coefficients.
#[verifier::loop_isolation(false)]
#[verifier::rlimit(60)]
pub fn serialize_sparse(coeffs: &[i16]) -> (out: Vec<u8>)
    requires
        coeffs@.len() < 0x1_0000_0000,
    ensures
        out@ == spec_sparse_bytes(coeffs@, 0),
{
    let n: usize = coeffs.len();
    let mut out: Vec<u8> = Vec::new();
    let mut i: usize = 0;
    proof {
        assert(out@ + spec_sparse_bytes(coeffs@, 0) =~= spec_sparse_bytes(coeffs@, 0));
    }
    while i < n
        invariant
            i <= n,
            out@ + spec_sparse_bytes(coeffs@, i as int) == spec_sparse_bytes(coeffs@, 0),
        decreases n - i,
    {
        let ghost i0 = i as int;
        let run_start: usize = i;
        while i < n && coeffs[i] == 0
            invariant
                run_start <= i <= n,
                spec_zero_run(coeffs@, run_start as int) == i - run_start + spec_zero_run(
                    coeffs@,
                    i as int,
                ),
            decreases n - i,
        {
            i = i + 1;
        }
        let zero_count: usize = i - run_start;
        proof {
            assert(spec_zero_run(coeffs@, i as int) == 0);
            assert(zero_count == spec_zero_run(coeffs@, i0));
        }
        let nz_start: usize = i;
        while i < n && coeffs[i] != 0 && i - nz_start < 255
            invariant
                nz_start <= i <= n,
                i - nz_start <= 255,
                spec_nonzero_run(coeffs@, nz_start as int, 255) == i - nz_start
                    + spec_nonzero_run(coeffs@, i as int, 255 - (i - nz_start)),
            decreases n - i,
        {
            i = i + 1;
        }
        let nz_count: usize = i - nz_start;
        proof {
            assert(spec_nonzero_run(coeffs@, i as int, 255 - (i - nz_start)) == 0);
            assert(nz_count == spec_nonzero_run(coeffs@, nz_start as int, 255));
        }
        encode_varint(&mut out, zero_count as u32);
        out.push(nz_count as u8);
        let ghost base = out@;
        let mut j: usize = nz_start;
        while j < i
            invariant
                nz_start <= j <= i <= n,
                out@ == base + spec_coeff_values_bytes(
                    coeffs@,
                    nz_start as int,
                    (j - nz_start) as int,
                ),
            decreases i - j,
        {
            let w: u16 = #[verifier::truncate] (coeffs[j] as u16);
            push_u16_le(&mut out, w);
            j = j + 1;
            proof {
                lemma_values_snoc(coeffs@, nz_start as int, j - 1 - nz_start);
                assert(out@ =~= base + spec_coeff_values_bytes(
                    coeffs@,
                    nz_start as int,
                    (j - nz_start) as int,
                ));
            }
        }
        proof {
            assert(spec_coeff_values_bytes(coeffs@, nz_start as int, 0) =~= Seq::<u8>::empty());
            assert(out@ + spec_sparse_bytes(coeffs@, i as int) =~= spec_sparse_bytes(
                coeffs@,
                0,
            ));
        }
    }
    proof {
        assert(spec_sparse_bytes(coeffs@, n as int) =~= Seq::<u8>::empty());
        assert(out@ =~= spec_sparse_bytes(coeffs@, 0));
    }
    out
}

/// Decoding sparse runs into a zero-filled buffer: each step reads a varint
/// zero count, skips that many output slots, then copies the values of one
/// nonzero block, stopping at the end of the data or of the output. The
/// positions are clamped forward so the walk visibly advances; the clamps
/// never fire on well-formed input.
pub open spec fn spec_sparse_fill(data: Seq<u8>, pos: int, out: Seq<i16>, oi: int) -> Seq<i16>
    decreases data.len() - pos,
{
    if pos < 0 || pos >= data.len() || oi < 0 || oi >= out.len() {
        out
    } else {
        let vp = spec_read_varint(data, pos, 0, 0);
        let zc = vp.0 as int;
        let p1 = if vp.1 > pos {
            vp.1
        } else {
            pos + 1
        };
        let oi2 = if oi + zc <= out.len() {
            oi + zc
        } else {
            out.len() as int
        };
        if p1 >= data.len() {
            out
        } else {
            let m = data[p1] as int;
            let avail = (data.len() - (p1 + 1)) / 2;
            let space = out.len() - oi2;
            let copied0 = if m <= avail {
                m
            } else {
                avail
            };
            let copied1 = if copied0 <= space {
                copied0
            } else {
                space
            };
            let copied = if copied1 >= 0 {
                copied1
            } else {
                0
            };
            let out2 = Seq::new(
                out.len(),
                |q: int|
                    if oi2 <= q < oi2 + copied {
                        (le16_at(data, p1 + 1 + 2 * (q - oi2)) as i16)
                    } else {
                        out[q]
                    },
            );
            spec_sparse_fill(data, p1 + 1 + 2 * copied, out2, oi2 + copied)
        }
    }
}


/// Every coefficient inside a zero run is zero.
proof fn lemma_zero_run_zeros(c: Seq<i16>, i: int)
    requires
        0 <= i <= c.len(),
    ensures
        forall|q: int| i <= q < i + spec_zero_run(c, i) ==> #[trigger] c[q] == 0i16,
    decreases c.len() - i,
{
    if i < c.len() && c[i] == 0 {
        lemma_zero_run_zeros(c, i + 1);
    }
}

/// The bytes of a coefficient run are two per value, each value's word at
/// its own offset.
proof fn lemma_values_window(c: Seq<i16>, s: int, m: int, k: int)
    requires
        0 <= s,
        0 <= k < m,
        s + m <= c.len(),
    ensures
        spec_coeff_values_bytes(c, s, m).len() == 2 * m,
        spec_coeff_values_bytes(c, s, m).subrange(2 * k, 2 * k + 2) == spec_u16_to_le_bytes(
            c[s + k] as u16,
        ),
    decreases m,
{
    vstd::bytes::lemma_auto_spec_u16_to_from_le_bytes();
    lemma_values_bytes_len(c, s, m);
    lemma_values_bytes_len(c, s + 1, m - 1);
    if k == 0 {
        assert(spec_coeff_values_bytes(c, s, m).subrange(0, 2) =~= spec_u16_to_le_bytes(
            c[s] as u16,
        ));
    } else {
        lemma_values_window(c, s + 1, m - 1, k - 1);
        assert(spec_coeff_values_bytes(c, s, m).subrange(2 * k, 2 * k + 2)
            =~= spec_coeff_values_bytes(c, s + 1, m - 1).subrange(2 * (k - 1), 2 * (k - 1) + 2));
    }
}

proof fn lemma_values_bytes_len(c: Seq<i16>, s: int, m: int)
    requires
        0 <= s,
        m >= 0,
        s + m <= c.len(),
    ensures
        spec_coeff_values_bytes(c, s, m).len() == 2 * m,
    decreases m,
{
    vstd::bytes::lemma_auto_spec_u16_to_from_le_bytes();
    if m > 0 {
        lemma_values_bytes_len(c, s + 1, m - 1);
    }
}

/// A 16-bit value survives the unsigned detour of the wire format.
proof fn lemma_i16_u16_round(v: i16)
    by (bit_vector)
    ensures
        (v as u16) as i16 == v,
{
}

/// Reading back a written varint yields the value and stops right after it.
proof fn lemma_varint_roundtrip(data: Seq<u8>, pos: int, w: u32, shift: nat, acc: u32)
    requires
        0 <= pos,
        pos + spec_varint(w).len() <= data.len(),
        data.subrange(pos, pos + spec_varint(w).len()) == spec_varint(w),
        shift <= 28,
        w < pow2((28 - shift) as nat),
        acc < pow2(shift),
    ensures
        spec_read_varint(data, pos, shift, acc) == (
            (acc + w * pow2(shift)) as u32,
            pos + spec_varint(w).len(),
        ),
    decreases w,
{
    vstd::arithmetic::power2::lemma2_to64();
    vstd::arithmetic::power2::lemma_pow2_pos(shift);
    vstd::arithmetic::power2::lemma_pow2_pos((28 - shift) as nat);
    vstd::arithmetic::power2::lemma_pow2_adds((28 - shift) as nat, shift);
    assert(pow2(shift) <= pow2(28)) by {
        if shift < 28 {
            vstd::arithmetic::power2::lemma_pow2_strictly_increases(shift, 28);
        }
    }
    assert(w * pow2(shift) < pow2(28)) by (nonlinear_arith)
        requires
            w < pow2((28 - shift) as nat),
            pow2((28 - shift) as nat) * pow2(shift) == pow2(28),
            pow2(shift) >= 1,
    ;
    let vb = spec_varint(w);
    assert forall|q: int| 0 <= q < vb.len() implies data[pos + q] == vb[q] by {
        assert(data.subrange(pos, pos + vb.len())[q] == vb[q]);
    }
    if w < 128 {
        assert(data[pos + 0] == vb[0]);
        assert(data[pos] == w as u8);
        let low = (data[pos] % 128) as u32;
        assert(low == w);
        assert(vstd::wrapping::u32_specs::wrapping_mul(low, pow2(shift) as u32) == w * pow2(
            shift,
        )) by {
            vstd::arithmetic::div_mod::lemma_small_mod(
                (w * pow2(shift)) as nat,
                0x1_0000_0000,
            );
        }
        assert(spec_read_varint(data, pos, shift, acc) == (
            (acc + w * pow2(shift)) as u32,
            pos + 1,
        ));
    } else {
        let byte = (w % 128 + 128) as u8;
        assert(data[pos + 0] == vb[0]);
        assert(data[pos] == byte);
        assert(byte >= 128);
        let low = (byte % 128) as u32;
        assert(low == w % 128);
        assert(shift < 21) by {
            if shift >= 21 {
                assert((28 - shift) as nat <= 7);
                if ((28 - shift) as nat) < 7 {
                    vstd::arithmetic::power2::lemma_pow2_strictly_increases(
                        (28 - shift) as nat,
                        7,
                    );
                }
                assert(w < 128);
            }
        }
        let lowterm = low * pow2(shift);
        assert(lowterm < pow2(28)) by (nonlinear_arith)
            requires
                low < 128,
                128 * pow2(shift) <= pow2(28),
                lowterm == low * pow2(shift),
                pow2(shift) >= 1,
        ;
        assert(128 * pow2(shift) <= pow2(28)) by {
            vstd::arithmetic::power2::lemma_pow2_adds(7, shift);
            if shift + 7 < 28 {
                vstd::arithmetic::power2::lemma_pow2_strictly_increases((shift + 7) as nat, 28);
            }
        }
        assert(vstd::wrapping::u32_specs::wrapping_mul(low, pow2(shift) as u32) == lowterm) by {
            vstd::arithmetic::div_mod::lemma_small_mod(lowterm as nat, 0x1_0000_0000);
        }
        let acc2 = vstd::wrapping::u32_specs::wrapping_add(acc, (lowterm as u32));
        assert(acc2 == acc + lowterm);
        assert(acc2 < pow2((shift + 7) as nat)) by (nonlinear_arith)
            requires
                acc < pow2(shift),
                low < 128,
                acc2 == acc + low * pow2(shift),
                pow2((shift + 7) as nat) == 128 * pow2(shift),
                pow2(shift) >= 1,
        ;
        assert(pow2((shift + 7) as nat) == 128 * pow2(shift)) by {
            vstd::arithmetic::power2::lemma_pow2_adds(7, shift);
        }
        let w2 = w / 128;
        assert(w2 < pow2((28 - (shift + 7)) as nat)) by {
            vstd::arithmetic::power2::lemma_pow2_adds((28 - shift - 7) as nat, 7);
            assert(pow2((28 - shift) as nat) == pow2((28 - shift - 7) as nat) * 128);
            if w2 >= pow2((28 - shift - 7) as nat) {
                vstd::arithmetic::div_mod::lemma_fundamental_div_mod(w as int, 128);
                vstd::arithmetic::mul::lemma_mul_inequality(
                    pow2((28 - shift - 7) as nat) as int,
                    w2 as int,
                    128,
                );
                vstd::arithmetic::mul::lemma_mul_is_commutative(w2 as int, 128);
                vstd::arithmetic::mul::lemma_mul_is_commutative(
                    pow2((28 - shift - 7) as nat) as int,
                    128,
                );
            }
        }
        assert(spec_varint(w) == seq![byte] + spec_varint(w2));
        assert(data.subrange(pos + 1, pos + 1 + spec_varint(w2).len()) =~= spec_varint(w2)) by {
            assert forall|q: int| 0 <= q < spec_varint(w2).len() implies data[pos + 1 + q]
                == spec_varint(w2)[q] by {
                assert(vb[1 + q] == spec_varint(w2)[q]);
            }
        }
        lemma_varint_roundtrip(data, pos + 1, w2, (shift + 7) as nat, acc2);
        assert(acc2 + w2 * pow2((shift + 7) as nat) == acc + w * pow2(shift))
            by (nonlinear_arith)
            requires
                acc2 == acc + (w % 128) * pow2(shift),
                pow2((shift + 7) as nat) == 128 * pow2(shift),
                w == 128 * (w / 128) + w % 128,
                w2 == w / 128,
        ;
        assert(w == 128 * (w / 128) + w % 128) by {
            vstd::arithmetic::div_mod::lemma_fundamental_div_mod(w as int, 128);
        }
        assert(spec_read_varint(data, pos, shift, acc) == spec_read_varint(
            data,
            pos + 1,
            (shift + 7) as nat,
            acc2,
        ));
    }
}


/// Decoding the encoding of the tail `c[i..]` into a buffer that already
/// matches `c` before `i` and is zero from `i` on recovers `c` exactly.
proof fn lemma_sparse_fill_of_bytes(data: Seq<u8>, pos: int, c: Seq<i16>, i: int, out: Seq<i16>)
    requires
        c.len() < 0x1000_0000,
        0 <= i <= c.len(),
        out.len() == c.len(),
        forall|q: int| 0 <= q < i ==> #[trigger] out[q] == c[q],
        forall|q: int| i <= q < c.len() ==> #[trigger] out[q] == 0i16,
        0 <= pos <= data.len(),
        data.subrange(pos, data.len() as int) == spec_sparse_bytes(c, i),
    ensures
        spec_sparse_fill(data, pos, out, i) == c,
    decreases c.len() - i,
{
    vstd::arithmetic::power2::lemma2_to64();
    let bytes = spec_sparse_bytes(c, i);
    assert(bytes.len() == data.len() - pos);
    assert forall|q: int| 0 <= q < bytes.len() implies data[pos + q] == bytes[q] by {
        assert(data.subrange(pos, data.len() as int)[q] == bytes[q]);
    }
    if i >= c.len() {
        assert(bytes =~= Seq::<u8>::empty());
        assert(pos == data.len());
        assert(out =~= c);
    } else {
        let z = spec_zero_run(c, i);
        let m = spec_nonzero_run(c, i + z, 255);
        lemma_zero_run_bounds(c, i);
        lemma_zero_run_zeros(c, i);
        lemma_nonzero_run_bounds(c, i + z, 255);
        let step = z + m;
        assert(1 <= step <= c.len() - i) by {
            if c[i] != 0i16 {
                assert(z == 0);
                lemma_nonzero_run_bounds(c, i + 1, 254);
                assert(spec_nonzero_run(c, i, 255) >= 1);
            }
        }
        let vb = spec_varint(z as u32);
        let values = spec_coeff_values_bytes(c, i + z, m);
        lemma_values_bytes_len(c, i + z, m);
        assert(bytes == vb + seq![m as u8] + values + spec_sparse_bytes(c, i + step));
        let vlen = vb.len() as int;
        assert(vlen >= 1);
        assert(pos < data.len());
        assert(i < out.len());
        assert(data.subrange(pos, pos + vlen) =~= vb) by {
            assert forall|q: int| 0 <= q < vlen implies data[pos + q] == vb[q] by {
                assert(bytes[q] == vb[q]);
            }
        }
        assert((z as u32) < pow2(28)) by {
            assert(c.len() < 0x1000_0000);
        }
        lemma_varint_roundtrip(data, pos, z as u32, 0, 0);
        vstd::arithmetic::mul::lemma_mul_basics((z as u32) as int);
        assert((z as u32) * pow2(0) == (z as u32) as int);
        let vp = spec_read_varint(data, pos, 0, 0);
        assert(vp == ((z as u32) as u32, pos + vlen));
        assert(vp.0 as int == z);
        let p1 = pos + vlen;
        let oi2 = i + z;
        assert(p1 < data.len()) by {
            assert(bytes.len() >= vlen + 1);
        }
        assert(data[p1] == (m as u8)) by {
            assert(bytes[vlen] == (m as u8));
            assert(data[pos + vlen] == bytes[vlen]);
        }
        assert(data[p1] as int == m);
        let restb = spec_sparse_bytes(c, i + step);
        assert((vb + seq![m as u8]).len() == vlen + 1);
        assert((vb + seq![m as u8] + values).len() == vlen + 1 + 2 * m);
        assert(data.len() - (p1 + 1) == 2 * m + restb.len());
        let avail = (data.len() - (p1 + 1)) / 2;
        assert(avail >= m) by {
            assert((2 * m + restb.len() as int) / 2 >= m) by (nonlinear_arith)
                requires
                    restb.len() >= 0,
                    m >= 0,
            ;
        }
        let space = out.len() - oi2;
        assert(space >= m);
        assert forall|k: int| 0 <= k < m implies (#[trigger] le16_at(data, p1 + 1 + 2 * k))
            as i16 == c[oi2 + k] by {
            lemma_values_window(c, i + z, m, k);
            vstd::bytes::lemma_auto_spec_u16_to_from_le_bytes();
            let w0 = p1 + 1 + 2 * k;
            let wordb = spec_u16_to_le_bytes(c[i + z + k] as u16);
            assert(data.subrange(w0, w0 + 2) =~= wordb) by {
                assert(0 <= 2 * k && 2 * k + 1 < 2 * m);
                assert(bytes[vlen + 1 + 2 * k] == values[2 * k]);
                assert(bytes[vlen + 1 + 2 * k + 1] == values[2 * k + 1]);
                assert(data[pos + (vlen + 1 + 2 * k)] == bytes[vlen + 1 + 2 * k]);
                assert(data[pos + (vlen + 1 + 2 * k + 1)] == bytes[vlen + 1 + 2 * k + 1]);
                assert(values.subrange(2 * k, 2 * k + 2) == wordb);
                assert(values.subrange(2 * k, 2 * k + 2)[0] == values[2 * k]);
                assert(values.subrange(2 * k, 2 * k + 2)[1] == values[2 * k + 1]);
                assert(data.subrange(w0, w0 + 2)[0] == data[w0]);
                assert(data.subrange(w0, w0 + 2)[1] == data[w0 + 1]);
                assert(data[w0] == data[pos + (vlen + 1 + 2 * k)]);
                assert(data[w0 + 1] == data[pos + (vlen + 1 + 2 * k + 1)]);
            }
            assert(le16_at(data, w0) == c[i + z + k] as u16);
            lemma_i16_u16_round(c[i + z + k]);
        }
        let out2 = Seq::new(
            out.len(),
            |q: int|
                if oi2 <= q < oi2 + m {
                    (le16_at(data, p1 + 1 + 2 * (q - oi2)) as i16)
                } else {
                    out[q]
                },
        );
        assert forall|q: int| 0 <= q < i + step implies #[trigger] out2[q] == c[q] by {
            if q < i {
            } else if q < oi2 {
                assert(c[q] == 0i16);
                assert(out[q] == 0i16);
            } else {
                assert(out2[q] == le16_at(data, p1 + 1 + 2 * (q - oi2)) as i16);
            }
        }
        assert forall|q: int| i + step <= q < c.len() implies #[trigger] out2[q] == 0i16 by {
            assert(out[q] == 0i16);
        }
        let pos2 = p1 + 1 + 2 * m;
        assert(data.subrange(pos2, data.len() as int) =~= restb) by {
            assert forall|q: int| 0 <= q < restb.len() implies data[pos2 + q] == restb[q] by {
                assert(bytes[vlen + 1 + 2 * m + q] == restb[q]);
                assert(data[pos + (vlen + 1 + 2 * m + q)] == bytes[vlen + 1 + 2 * m + q]);
            }
        }
        lemma_sparse_fill_of_bytes(data, pos2, c, i + step, out2);
        assert(spec_sparse_fill(data, pos, out, i) == spec_sparse_fill(data, pos2, out2, i
            + step));
    }
}

/// Law: the sparse coefficient codec is lossless — decoding the encoding of
/// any coefficient block into a zeroed buffer of the block's length returns
/// the block exactly.
pub proof fn lemma_sparse_round_trip(c: Seq<i16>)
    requires
        c.len() < 0x1000_0000,
    ensures
        spec_sparse_fill(spec_sparse_bytes(c, 0), 0, Seq::new(c.len(), |q: int| 0i16), 0) == c,
{
    let data = spec_sparse_bytes(c, 0);
    assert(data.subrange(0, data.len() as int) =~= data);
    lemma_sparse_fill_of_bytes(data, 0, c, 0, Seq::new(c.len(), |q: int| 0i16));
}

/// Decodes sparse runs into a zero-filled buffer of `num_coeffs`
/// coefficients.
pub fn deserialize_sparse(data: &[u8], num_coeffs: usize) -> (out: Vec<i16>)
    ensures
        out@.len() == num_coeffs,
        out@ == spec_sparse_fill(
            data@,
            0,
            Seq::new(num_coeffs as nat, |q: int| 0i16),
            0,
        ),
{
    let n: usize = data.len();
    let ghost zeros = Seq::new(num_coeffs as nat, |q: int| 0i16);
    let mut out: Vec<i16> = Vec::new();
    let mut z: usize = 0;
    while z < num_coeffs
        invariant
            z <= num_coeffs,
            out@.len() == z,
            forall|q: int| 0 <= q < z ==> out@[q] == 0i16,
        decreases num_coeffs - z,
    {
        out.push(0);
        z = z + 1;
    }
    proof {
        assert(out@ =~= zeros);
    }
    let mut pos: usize = 0;
    let mut oi: usize = 0;
    while pos < n && oi < num_coeffs
        invariant_except_break
            spec_sparse_fill(data@, 0, zeros, 0) == spec_sparse_fill(
                data@,
                pos as int,
                out@,
                oi as int,
            ),
        invariant
            pos <= n == data@.len(),
            oi <= num_coeffs,
            out@.len() == num_coeffs,
        ensures
            out@ == spec_sparse_fill(data@, 0, zeros, 0),
        decreases n - pos,
    {
        let ghost pos0 = pos as int;
        let ghost oi0 = oi as int;
        let ghost out0 = out@;
        let (zc, p1) = decode_varint(data, pos);
        let skip: usize = if (zc as u64) > ((num_coeffs - oi) as u64) {
            num_coeffs - oi
        } else {
            zc as usize
        };
        oi = oi + skip;
        let ghost oi2 = oi as int;
        proof {
            assert(oi2 == (if oi0 + zc <= out0.len() {
                oi0 + zc as int
            } else {
                out0.len() as int
            }));
        }
        if p1 >= n {
            proof {
                assert(spec_sparse_fill(data@, pos0, out0, oi0) == out0);
                assert(out@ == spec_sparse_fill(data@, 0, zeros, 0));
            }
            break ;
        }
        let m: usize = data[p1] as usize;
        let ghost avail = (n - (p1 + 1)) as int / 2;
        let ghost space = num_coeffs as int - oi2;
        let ghost copied = {
            let c0 = if m as int <= avail {
                m as int
            } else {
                avail
            };
            if c0 <= space {
                c0
            } else {
                space
            }
        };
        let mut j: usize = 0;
        let mut vpos: usize = p1 + 1;
        while j < m && n - vpos >= 2 && oi < num_coeffs
            invariant
                n == data@.len(),
                out@.len() == num_coeffs,
                oi == oi2 + j,
                oi <= num_coeffs,
                p1 < vpos <= n,
                j <= m,
                vpos == p1 + 1 + 2 * j,
                out@ =~= Seq::new(
                    num_coeffs as nat,
                    |q: int|
                        if oi2 <= q < oi2 + j {
                            (le16_at(data@, p1 + 1 + 2 * (q - oi2)) as i16)
                        } else {
                            out0[q]
                        },
                ),
            decreases m - j,
        {
            let w: u16 = crate::reader::read_u16_at(data, vpos);
            let v: i16 = #[verifier::truncate] (w as i16);
            out.set(oi, v);
            oi = oi + 1;
            vpos = vpos + 2;
            j = j + 1;
            proof {
                assert(out@ =~= Seq::new(
                    num_coeffs as nat,
                    |q: int|
                        if oi2 <= q < oi2 + j {
                            (le16_at(data@, p1 + 1 + 2 * (q - oi2)) as i16)
                        } else {
                            out0[q]
                        },
                ));
            }
        }
        proof {
            vstd::arithmetic::div_mod::lemma_fundamental_div_mod((n - (p1 + 1)) as int, 2);
            vstd::arithmetic::div_mod::lemma_mod_bound((n - (p1 + 1)) as int, 2);
            assert(j <= avail) by {
                vstd::arithmetic::div_mod::lemma_fundamental_div_mod_converse(
                    j as int,
                    1,
                    j as int,
                    0,
                );
            }
            assert(j as int == copied);
            assert(out@ =~= Seq::new(
                num_coeffs as nat,
                |q: int|
                    if oi2 <= q < oi2 + copied {
                        (le16_at(data@, p1 + 1 + 2 * (q - oi2)) as i16)
                    } else {
                        out0[q]
                    },
            ));
            assert(spec_sparse_fill(data@, pos0, out0, oi0) == spec_sparse_fill(
                data@,
                p1 as int + 1 + 2 * copied,
                out@,
                oi2 + copied,
            ));
        }
        pos = if vpos > n {
            n
        } else {
            vpos
        };
        proof {
            if (vpos as int) != (pos as int) {
                assert(vpos > n);
                assert(spec_sparse_fill(data@, vpos as int, out@, oi as int) == out@);
                assert(spec_sparse_fill(data@, pos as int, out@, oi as int) == out@);
            }
        }
    }
    out
}

/// One transform (lossy) frame in its integer form: a block size, the
/// channel count, the log-encoded scale factors (one 16-bit word per Bark
/// band per channel), and the quantized coefficients per channel.
#[derive(Debug, Clone, PartialEq, Eq)]
pub struct TransformFrame {
    pub block_size: BlockSize,
    pub num_channels: u8,
    pub scale_factors: Vec<Vec<u16>>,
    pub coefficients: Vec<Vec<i16>>,
}

/// Whether a transform frame has the shape the wire format demands: one
/// scale-factor row of 25 bands and one coefficient row per channel.
pub open spec fn spec_transform_frame_wf(f: TransformFrame) -> bool {
    &&& f.scale_factors@.len() == f.num_channels
    &&& f.coefficients@.len() == f.num_channels
    &&& forall|c: int|
        0 <= c < f.scale_factors@.len() ==> (#[trigger] f.scale_factors@[c])@.len() == 25
    &&& forall|c: int|
        0 <= c < f.coefficients@.len() ==> (#[trigger] f.coefficients@[c])@.len()
            == spec_block_size_samples(f.block_size) / 2
}

/// The scale-factor words of one channel, little-endian.
pub open spec fn spec_sf_bytes(sf: Seq<u16>) -> Seq<u8>
    decreases sf.len(),
{
    if sf.len() == 0 {
        Seq::empty()
    } else {
        spec_sf_bytes(sf.drop_last()) + spec_u16_to_le_bytes(sf.last())
    }
}

pub open spec fn spec_all_sf_bytes(sfs: Seq<Vec<u16>>) -> Seq<u8>
    decreases sfs.len(),
{
    if sfs.len() == 0 {
        Seq::empty()
    } else {
        spec_all_sf_bytes(sfs.drop_last()) + spec_sf_bytes(sfs.last()@)
    }
}

pub open spec fn spec_all_coeff_bytes(cs: Seq<Vec<i16>>) -> Seq<u8>
    decreases cs.len(),
{
    if cs.len() == 0 {
        Seq::empty()
    } else {
        let body = spec_sparse_bytes(cs.last()@, 0);
        spec_all_coeff_bytes(cs.drop_last()) + spec_u32_to_le_bytes(body.len() as u32) + body
    }
}

/// The serialized transform frame: tag, channel count, scale factors, then
/// one length-prefixed sparse payload per channel.
pub open spec fn spec_transform_frame_bytes(f: TransformFrame) -> Seq<u8> {
    seq![spec_block_size_tag(f.block_size), f.num_channels] + spec_all_sf_bytes(f.scale_factors@)
        + spec_all_coeff_bytes(f.coefficients@)
}

/// Serializes a transform frame: succeeds exactly when every channel's
/// sparse payload fits its 32-bit length prefix, and then produces exactly
/// the specified layout.
#[verifier::loop_isolation(false)]
#[verifier::rlimit(60)]
pub fn serialize_frame(frame: &TransformFrame) -> (r: FloResult<Vec<u8>>)
    requires
        spec_transform_frame_wf(*frame),
    ensures
        (r is Ok) == (forall|c: int|
            0 <= c < frame.coefficients@.len() ==> spec_sparse_bytes(
                (#[trigger] frame.coefficients@[c])@,
                0,
            ).len() < 0x1_0000_0000),
        r is Ok ==> (r->Ok_0)@ == spec_transform_frame_bytes(*frame),
        r is Err ==> r->Err_0 == FloError::FrameTooLarge,
{
    let mut out: Vec<u8> = Vec::new();
    out.push(frame.block_size.to_tag());
    out.push(frame.num_channels);
    let ghost head = out@;
    let mut c: usize = 0;
    while c < frame.scale_factors.len()
        invariant
            c <= frame.scale_factors@.len(),
            out@ == head + spec_all_sf_bytes(frame.scale_factors@.take(c as int)),
        decreases frame.scale_factors@.len() - c,
    {
        let row: &Vec<u16> = &frame.scale_factors[c];
        let ghost rowhead = out@;
        let mut b: usize = 0;
        while b < row.len()
            invariant
                b <= row@.len(),
                out@ == rowhead + spec_sf_bytes(row@.take(b as int)),
            decreases row@.len() - b,
        {
            push_u16_le(&mut out, row[b]);
            b = b + 1;
            proof {
                assert(row@.take(b as int).drop_last() =~= row@.take(b - 1));
                assert(out@ =~= rowhead + spec_sf_bytes(row@.take(b as int)));
            }
        }
        c = c + 1;
        proof {
            assert(row@.take(row@.len() as int) =~= row@);
            assert(frame.scale_factors@.take(c as int).drop_last() =~= frame.scale_factors@.take(
                c - 1,
            ));
            assert(out@ =~= head + spec_all_sf_bytes(frame.scale_factors@.take(c as int)));
        }
    }
    proof {
        assert(frame.scale_factors@.take(frame.scale_factors@.len() as int)
            =~= frame.scale_factors@);
    }
    let ghost mid = out@;
    let mut c2: usize = 0;
    while c2 < frame.coefficients.len()
        invariant
            c2 <= frame.coefficients@.len(),
            out@ == mid + spec_all_coeff_bytes(frame.coefficients@.take(c2 as int)),
            forall|q: int|
                0 <= q < frame.coefficients@.len() ==> (#[trigger] frame.coefficients@[q])@.len()
                    == spec_block_size_samples(frame.block_size) / 2,
            forall|q: int|
                0 <= q < c2 ==> spec_sparse_bytes((#[trigger] frame.coefficients@[q])@, 0).len()
                    < 0x1_0000_0000,
        decreases frame.coefficients@.len() - c2,
    {
        let body: Vec<u8> = serialize_sparse(frame.coefficients[c2].as_slice());
        if body.len() as u64 > 0xffff_ffffu64 {
            return Err(FloError::FrameTooLarge);
        }
        push_u32_le(&mut out, body.len() as u32);
        push_bytes(&mut out, body.as_slice());
        c2 = c2 + 1;
        proof {
            assert(frame.coefficients@.take(c2 as int).drop_last() =~= frame.coefficients@.take(
                c2 - 1,
            ));
            assert(out@ =~= mid + spec_all_coeff_bytes(frame.coefficients@.take(c2 as int)));
        }
    }
    proof {
        assert(frame.coefficients@.take(frame.coefficients@.len() as int)
            =~= frame.coefficients@);
        assert(out@ =~= spec_transform_frame_bytes(*frame));
    }
    Ok(out)
}

/// The byte position of the start of the `k`-th length-prefixed coefficient
/// payload record, walking from `pos`, or -1 when the data runs out first.
pub open spec fn spec_payload_pos(b: Seq<u8>, pos: int, k: int) -> int
    decreases k,
{
    if k <= 0 {
        pos
    } else {
        let p = spec_payload_pos(b, pos, k - 1);
        if p < 0 || p + 4 > b.len() {
            -1
        } else if crate::reader::le32_at(b, p) as int > b.len() - (p + 4) {
            -1
        } else {
            p + 4 + crate::reader::le32_at(b, p) as int
        }
    }
}

/// Once the payload walk has run out of data it never recovers.
proof fn lemma_payload_pos_none(b: Seq<u8>, pos: int, k: int, j: int)
    requires
        spec_payload_pos(b, pos, k) == -1,
        k <= j,
    ensures
        spec_payload_pos(b, pos, j) == -1,
    decreases j - k,
{
    if j > k {
        lemma_payload_pos_none(b, pos, k, j - 1);
    }
}

/// A transform-frame byte string is structurally valid: the tag is known,
/// every scale-factor word is present, and each channel's length-prefixed
/// sparse payload lies inside the data.
pub open spec fn spec_frame_layout_ok(b: Seq<u8>) -> bool {
    &&& b.len() >= 2
    &&& b[0] <= 3
    &&& 2 + 50 * (b[1] as int) <= b.len()
    &&& spec_payload_pos(b, 2 + 50 * (b[1] as int), b[1] as int) >= 0
}

/// The transform frame a structurally valid byte string determines: the
/// well-formed frame whose tag, channel count, scale factors and sparse
/// coefficient decodings all match the bytes.
pub open spec fn spec_frame_matches(f: TransformFrame, b: Seq<u8>) -> bool {
    &&& spec_transform_frame_wf(f)
    &&& b.len() >= 2
    &&& spec_block_size_tag(f.block_size) == b[0]
    &&& f.num_channels == b[1]
    &&& forall|c: int, w: int|
        0 <= c < f.num_channels && 0 <= w < 25 ==> (#[trigger] f.scale_factors@[c]@[w])
            == le16_at(b, 2 + 50 * c + 2 * w)
    &&& forall|c: int|
        0 <= c < f.num_channels ==> {
            let p = spec_payload_pos(b, 2 + 50 * (f.num_channels as int), c);
            (#[trigger] f.coefficients@[c])@ == spec_sparse_fill(
                b.subrange(p + 4, p + 4 + crate::reader::le32_at(b, p) as int),
                0,
                Seq::new(spec_block_size_samples(f.block_size) / 2, |q: int| 0i16),
                0,
            )
        }
}

/// Parses a transform frame back out of its bytes: the inverse layout walk.
/// It succeeds exactly on structurally valid data. The envelope and scale
/// factors sit at fixed offsets; each channel's coefficients are exactly the
/// sparse decoding of its length-prefixed payload window.
pub fn deserialize_frame(data: &[u8]) -> (r: Option<TransformFrame>)
    ensures
        (r is Some) == spec_frame_layout_ok(data@),
        r is Some ==> spec_frame_matches(r->Some_0, data@),
{
    let n: usize = data.len();
    if n < 2 {
        return None;
    }
    let block_size: BlockSize = match BlockSize::from_tag(data[0]) {
        Some(b) => b,
        None => {
            return None;
        },
    };
    let num_channels: usize = data[1] as usize;
    let num_coeffs: usize = block_size.coefficients();
    let mut pos: usize = 2;
    let mut scale_factors: Vec<Vec<u16>> = Vec::new();
    let mut c: usize = 0;
    while c < num_channels
        invariant
            c <= num_channels <= 255,
            num_channels == data@[1] as usize,
            pos <= n == data@.len(),
            pos == 2 + 50 * c,
            scale_factors@.len() == c,
            forall|q: int|
                0 <= q < c ==> (#[trigger] scale_factors@[q])@.len() == 25,
            forall|q: int, w: int|
                0 <= q < c && 0 <= w < 25 ==> (#[trigger] scale_factors@[q]@[w]) == le16_at(
                    data@,
                    2 + 50 * q + 2 * w,
                ),
        decreases num_channels - c,
    {
        let mut row: Vec<u16> = Vec::new();
        let mut b: usize = 0;
        while b < 25
            invariant
                b <= 25,
                c < num_channels <= 255,
                num_channels == data@[1] as usize,
                pos <= n == data@.len(),
                pos == 2 + 50 * c + 2 * b,
                row@.len() == b,
                forall|w: int|
                    0 <= w < b ==> (#[trigger] row@[w]) == le16_at(data@, 2 + 50 * c + 2 * w),
            decreases 25 - b,
        {
            if n - pos < 2 {
                proof {
                    assert(2 + 50 * (num_channels as int) >= pos + 2);
                    assert(2 + 50 * (data@[1] as int) > data@.len());
                    assert(!spec_frame_layout_ok(data@));
                }
                return None;
            }
            let w: u16 = crate::reader::read_u16_at(data, pos);
            row.push(w);
            pos = pos + 2;
            b = b + 1;
        }
        scale_factors.push(row);
        c = c + 1;
    }
    let mut coefficients: Vec<Vec<i16>> = Vec::new();
    let ghost base = pos as int;
    let mut c2: usize = 0;
    while c2 < num_channels
        invariant
            c2 <= num_channels <= 255,
            num_channels == data@[1] as usize,
            pos <= n == data@.len(),
            base == 2 + 50 * (num_channels as int),
            pos as int == spec_payload_pos(data@, base, c2 as int),
            coefficients@.len() == c2,
            forall|q: int|
                0 <= q < c2 ==> (#[trigger] coefficients@[q])@.len() == num_coeffs,
            num_coeffs == spec_block_size_samples(block_size) / 2,
            forall|q: int|
                0 <= q < c2 ==> {
                    let p = spec_payload_pos(data@, base, q);
                    (#[trigger] coefficients@[q])@ == spec_sparse_fill(
                        data@.subrange(p + 4, p + 4 + crate::reader::le32_at(data@, p) as int),
                        0,
                        Seq::new(num_coeffs as nat, |i: int| 0i16),
                        0,
                    )
                },
        decreases num_channels - c2,
    {
        if n - pos < 4 {
            proof {
                assert(spec_payload_pos(data@, base, c2 + 1) == -1);
                lemma_payload_pos_none(data@, base, c2 + 1, num_channels as int);
                assert(spec_payload_pos(data@, 2 + 50 * (data@[1] as int), data@[1] as int)
                    == -1);
                assert(!spec_frame_layout_ok(data@));
            }
            return None;
        }
        let ghost p0 = pos as int;
        let len: usize = crate::reader::read_u32_at(data, pos) as usize;
        pos = pos + 4;
        if len > n - pos {
            proof {
                assert(spec_payload_pos(data@, base, c2 + 1) == -1);
                lemma_payload_pos_none(data@, base, c2 + 1, num_channels as int);
                assert(spec_payload_pos(data@, 2 + 50 * (data@[1] as int), data@[1] as int)
                    == -1);
                assert(!spec_frame_layout_ok(data@));
            }
            return None;
        }
        let payload: &[u8] = vstd::slice::slice_subrange(data, pos, pos + len);
        let quantized: Vec<i16> = deserialize_sparse(payload, num_coeffs);
        coefficients.push(quantized);
        pos = pos + len;
        c2 = c2 + 1;
        proof {
            assert(pos as int == spec_payload_pos(data@, base, c2 as int));
            assert forall|q: int| 0 <= q < c2 implies {
                let p = spec_payload_pos(data@, base, q);
                (#[trigger] coefficients@[q])@ == spec_sparse_fill(
                    data@.subrange(p + 4, p + 4 + crate::reader::le32_at(data@, p) as int),
                    0,
                    Seq::new(num_coeffs as nat, |i: int| 0i16),
                    0,
                )
            } by {
                if q == c2 - 1 {
                    assert(spec_payload_pos(data@, base, q) == p0);
                    assert(payload@ == data@.subrange(p0 + 4, p0 + 4 + len));
                    assert(crate::reader::le32_at(data@, p0) as int == len);
                } else {
                    assert(coefficients@[q] == coefficients@.drop_last()[q]);
                }
            }
        }
    }
    proof {
        assert(spec_frame_layout_ok(data@));
    }
    Some(
        TransformFrame {
            block_size,
            num_channels: num_channels as u8,
            scale_factors,
            coefficients,
        },
    )
}

} // verus!
