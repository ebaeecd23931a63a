//! Integer prediction: fixed (finite-difference) predictors of orders 0 to
//! 4, adaptive LPC with quantized coefficients, and the mid-side stereo
//! transform. All sample arithmetic wraps at 32 bits, so residual
//! computation and reconstruction invert each other exactly on every input.

use vstd::prelude::*;
use vstd::arithmetic::div_mod::*;
use vstd::wrapping::i32_specs;
use vstd::wrapping::i64_specs;

verus! {

/// `x` reduced into the `i32` window `[-2^31, 2^31)`, keeping its residue
/// modulo `2^32` (the value of a truncating 64-to-32-bit cast).
pub open spec fn wrap32(x: int) -> i32 {
    i32_specs::signed_crop(x)
}

proof fn lemma_as_i32_truncate(x: i64)
    by (bit_vector)
    ensures
        x as i32 as int == (if (x as int) % 0x1_0000_0000 > 0x7fff_ffff {
            (x as int) % 0x1_0000_0000 - 0x1_0000_0000
        } else {
            (x as int) % 0x1_0000_0000
        }),
{
}

/// Truncates a 64-bit value to 32 bits.
pub fn crop_i32(x: i64) -> (r: i32)
    ensures
        r == wrap32(x as int),
{
    proof {
        lemma_as_i32_truncate(x);
    }
    #[verifier::truncate] (x as i32)
}

/// `wrap32` keeps the residue modulo `2^32`.
pub proof fn lemma_wrap32_congruent(x: int)
    ensures
        (wrap32(x) as int) % 0x1_0000_0000 == x % 0x1_0000_0000,
{
    let m: int = 0x1_0000_0000;
    lemma_mod_bound(x, m);
    let r = x % m;
    if r > 0x7fff_ffff {
        lemma_mod_multiples_vanish(-1, r, m);
        lemma_small_mod(r as nat, m as nat);
    } else {
        lemma_small_mod(r as nat, m as nat);
        lemma_mod_twice(x, m);
    }
}

/// `wrap32` is the identity on values already in the window.
pub proof fn lemma_wrap32_identity(x: int)
    requires
        -0x8000_0000 <= x < 0x8000_0000,
    ensures
        wrap32(x) == x,
{
    let m: int = 0x1_0000_0000;
    if x >= 0 {
        lemma_small_mod(x as nat, m as nat);
    } else {
        lemma_fundamental_div_mod_converse_mod(x, m, -1, x + m);
    }
}

/// Two values of the window with equal residues are equal.
proof fn lemma_unique_in_window(v: int, w: int)
    requires
        -0x8000_0000 <= v < 0x8000_0000,
        -0x8000_0000 <= w < 0x8000_0000,
        v % 0x1_0000_0000 == w % 0x1_0000_0000,
    ensures
        v == w,
{
    let m: int = 0x1_0000_0000;
    let d = v - w;
    lemma_sub_mod_noop(v, w, m);
    lemma_mod_self_0(m);
    assert(d % m == 0) by {
        lemma_sub_mod_noop(v, w, m);
        assert((v % m - w % m) % m == (v - w) % m);
        lemma_small_mod(0, m as nat);
    }
    if d > 0 {
        lemma_small_mod(d as nat, m as nat);
    } else if d < 0 {
        lemma_fundamental_div_mod_converse_mod(d, m, -1, d + m);
    }
}

/// Subtracting and re-adding the same value cancels under `wrap32`.
pub proof fn lemma_wrap32_cancel(a: i32, p: int)
    ensures
        wrap32(wrap32(a - p) as int + p) == a,
{
    let m: int = 0x1_0000_0000;
    let c1 = wrap32(a - p) as int;
    lemma_wrap32_congruent(a - p);
    let c2 = wrap32(c1 + p) as int;
    lemma_wrap32_congruent(c1 + p);
    assert((c1 + p) % m == (a - p + p) % m) by {
        lemma_add_mod_noop(c1, p, m);
        lemma_add_mod_noop(a - p, p, m);
    }
    lemma_unique_in_window(c2, a as int);
}

/// The integer prediction of a fixed (finite-difference) predictor of order
/// 1 to 4 at index `i`, over the samples before `i`.
pub open spec fn fixed_pred_int(s: Seq<i32>, order: nat, i: int) -> int
    recommends
        1 <= order <= 4,
        order <= i < s.len(),
{
    if order == 1 {
        s[i - 1] as int
    } else if order == 2 {
        2 * s[i - 1] - s[i - 2]
    } else if order == 3 {
        3 * s[i - 1] - 3 * s[i - 2] + s[i - 3]
    } else {
        4 * s[i - 1] - 6 * s[i - 2] + 4 * s[i - 3] - s[i - 4]
    }
}

/// The residual at index `i` for a fixed predictor: warm-up samples (and any
/// order outside 1..=4) pass through unchanged.
pub open spec fn fixed_residual_at(s: Seq<i32>, order: nat, i: int) -> i32
    recommends
        0 <= i < s.len(),
{
    if order < 1 || order > 4 || i < order {
        s[i]
    } else {
        wrap32(s[i] - fixed_pred_int(s, order, i))
    }
}

pub open spec fn spec_fixed_residuals(s: Seq<i32>, order: nat) -> Seq<i32> {
    Seq::new(s.len(), |i: int| fixed_residual_at(s, order, i))
}

/// Reconstruction of the first `n` samples from fixed-predictor residuals:
/// each sample is its residual plus the prediction over the samples already
/// reconstructed.
pub open spec fn spec_fixed_reconstruct(r: Seq<i32>, order: nat, n: nat) -> Seq<i32>
    recommends
        n <= r.len(),
    decreases n,
{
    if n == 0 {
        Seq::empty()
    } else {
        let prev = spec_fixed_reconstruct(r, order, (n - 1) as nat);
        let i = n - 1;
        let v: i32 = if order < 1 || order > 4 || i < order {
            r[i as int]
        } else {
            wrap32(r[i as int] + fixed_pred_int(prev, order, i as int))
        };
        prev.push(v)
    }
}

pub proof fn lemma_fixed_reconstruct_len(r: Seq<i32>, order: nat, n: nat)
    ensures
        spec_fixed_reconstruct(r, order, n).len() == n,
    decreases n,
{
    if n > 0 {
        lemma_fixed_reconstruct_len(r, order, (n - 1) as nat);
    }
}

/// Fixed-predictor round trip: reconstruction inverts residual computation
/// exactly, for every order and every 32-bit input.
pub proof fn lemma_fixed_round_trip(s: Seq<i32>, order: nat)
    ensures
        spec_fixed_reconstruct(spec_fixed_residuals(s, order), order, s.len()) == s,
{
    lemma_fixed_round_trip_prefix(s, order, s.len());
    assert(s.take(s.len() as int) =~= s);
}

proof fn lemma_fixed_round_trip_prefix(s: Seq<i32>, order: nat, n: nat)
    requires
        n <= s.len(),
    ensures
        spec_fixed_reconstruct(spec_fixed_residuals(s, order), order, n) == s.take(n as int),
    decreases n,
{
    let r = spec_fixed_residuals(s, order);
    if n > 0 {
        lemma_fixed_round_trip_prefix(s, order, (n - 1) as nat);
        let prev = spec_fixed_reconstruct(r, order, (n - 1) as nat);
        let i = n - 1;
        if !(order < 1 || order > 4 || i < order) {
            assert(prev == s.take(n - 1));
            assert(fixed_pred_int(prev, order, i as int) == fixed_pred_int(s, order, i as int));
            lemma_wrap32_cancel(s[i as int], fixed_pred_int(s, order, i as int));
        }
        assert(spec_fixed_reconstruct(r, order, n) =~= s.take(n as int));
    } else {
        assert(spec_fixed_reconstruct(r, order, 0) =~= s.take(0));
    }
}

/// Computes the fixed-predictor residuals of one channel. Orders outside
/// 1..=4 return the samples unchanged.
pub fn fixed_predictor_residuals(samples: &[i32], order: usize) -> (out: Vec<i32>)
    ensures
        out@ == spec_fixed_residuals(samples@, order as nat),
{
    let mut out: Vec<i32> = Vec::new();
    let mut i: usize = 0;
    while i < samples.len()
        invariant
            i <= samples@.len(),
            out@ == spec_fixed_residuals(samples@, order as nat).take(i as int),
        decreases samples@.len() - i,
    {
        let v: i32 = if order < 1 || order > 4 || i < order {
            samples[i]
        } else {
            let p: i64 = fixed_prediction(samples, order, i);
            crop_i32(samples[i] as i64 - p)
        };
        out.push(v);
        i = i + 1;
        proof {
            assert(out@ =~= spec_fixed_residuals(samples@, order as nat).take(i as int));
        }
    }
    proof {
        assert(out@ =~= spec_fixed_residuals(samples@, order as nat));
    }
    out
}

/// The finite-difference prediction at index `i`, exact in 64 bits.
fn fixed_prediction(samples: &[i32], order: usize, i: usize) -> (p: i64)
    requires
        1 <= order <= 4,
        order <= i < samples@.len(),
    ensures
        p == fixed_pred_int(samples@, order as nat, i as int),
{
    if order == 1 {
        samples[i - 1] as i64
    } else if order == 2 {
        2 * (samples[i - 1] as i64) - (samples[i - 2] as i64)
    } else if order == 3 {
        3 * (samples[i - 1] as i64) - 3 * (samples[i - 2] as i64) + (samples[i - 3] as i64)
    } else {
        4 * (samples[i - 1] as i64) - 6 * (samples[i - 2] as i64) + 4 * (samples[i - 3] as i64) - (
        samples[i - 4] as i64)
    }
}

/// Rebuilds `target_len` samples from fixed-predictor residuals; missing
/// residuals decode as zero samples.
pub fn reconstruct_fixed(order: usize, residuals: &[i32], target_len: usize) -> (out: Vec<i32>)
    ensures
        out@.len() == target_len,
        ({
            let n = if residuals@.len() < target_len {
                residuals@.len()
            } else {
                target_len as nat
            };
            &&& out@.take(n as int) == spec_fixed_reconstruct(residuals@, order as nat, n)
            &&& forall|i: int| n <= i < target_len ==> out@[i] == 0i32
        }),
{
    let n: usize = if residuals.len() < target_len {
        residuals.len()
    } else {
        target_len
    };
    let mut out: Vec<i32> = Vec::new();
    let mut i: usize = 0;
    proof {
        lemma_fixed_reconstruct_len(residuals@, order as nat, n as nat);
    }
    while i < n
        invariant
            i <= n <= residuals@.len(),
            out@ == spec_fixed_reconstruct(residuals@, order as nat, i as nat),
            out@.len() == i,
        decreases n - i,
    {
        let v: i32 = if order < 1 || order > 4 || i < order {
            residuals[i]
        } else {
            let p: i64 = fixed_prediction_vec(&out, order, i);
            crop_i32(residuals[i] as i64 + p)
        };
        out.push(v);
        i = i + 1;
        proof {
            assert(out@ =~= spec_fixed_reconstruct(residuals@, order as nat, i as nat)) by {
                assert(out@.drop_last() =~= spec_fixed_reconstruct(
                    residuals@,
                    order as nat,
                    (i - 1) as nat,
                ));
            }
        }
    }
    let ghost prefix = out@;
    while out.len() < target_len
        invariant
            n <= out@.len() <= target_len,
            out@.take(n as int) == prefix,
            prefix.len() == n,
            forall|j: int| n <= j < out@.len() ==> out@[j] == 0i32,
        decreases target_len - out@.len(),
    {
        out.push(0);
        proof {
            assert(out@.take(n as int) =~= prefix);
        }
    }
    out
}

/// The finite-difference prediction over an already-reconstructed prefix.
fn fixed_prediction_vec(samples: &Vec<i32>, order: usize, i: usize) -> (p: i64)
    requires
        1 <= order <= 4,
        order <= i <= samples@.len(),
    ensures
        p == fixed_pred_int(samples@, order as nat, i as int),
{
    if order == 1 {
        samples[i - 1] as i64
    } else if order == 2 {
        2 * (samples[i - 1] as i64) - (samples[i - 2] as i64)
    } else if order == 3 {
        3 * (samples[i - 1] as i64) - 3 * (samples[i - 2] as i64) + (samples[i - 3] as i64)
    } else {
        4 * (samples[i - 1] as i64) - 6 * (samples[i - 2] as i64) + 4 * (samples[i - 3] as i64) - (
        samples[i - 4] as i64)
    }
}

/// The LPC dot product of the first `j` coefficients with the samples before
/// index `i`, accumulated with 64-bit wrap-around.
pub open spec fn lpc_acc(s: Seq<i32>, coeffs: Seq<i32>, i: int, j: nat) -> i64
    recommends
        j <= coeffs.len(),
        j <= i,
    decreases j,
{
    if j == 0 {
        0i64
    } else {
        i64_specs::wrapping_add(
            lpc_acc(s, coeffs, i, (j - 1) as nat),
            i64_specs::wrapping_mul(coeffs[j - 1] as i64, s[i - j] as i64),
        )
    }
}

/// The quantized LPC prediction at index `i`: the wrapped dot product,
/// shifted right arithmetically (shifts of 64 or more count as 63), then
/// truncated to 32 bits.
pub open spec fn lpc_pred32(s: Seq<i32>, coeffs: Seq<i32>, shift: u8, i: int) -> i32 {
    let sh: i64 = if shift >= 64 {
        63
    } else {
        shift as i64
    };
    wrap32((lpc_acc(s, coeffs, i, coeffs.len()) >> sh) as int)
}

pub open spec fn lpc_residual_at(s: Seq<i32>, coeffs: Seq<i32>, shift: u8, i: int) -> i32 {
    if i < coeffs.len() {
        s[i]
    } else {
        wrap32(s[i] - lpc_pred32(s, coeffs, shift, i) as int)
    }
}

pub open spec fn spec_lpc_residuals(s: Seq<i32>, coeffs: Seq<i32>, shift: u8) -> Seq<i32> {
    Seq::new(s.len(), |i: int| lpc_residual_at(s, coeffs, shift, i))
}

/// Reconstruction of the first `n` samples from LPC residuals, predicting
/// over the samples already reconstructed.
pub open spec fn spec_lpc_reconstruct(r: Seq<i32>, coeffs: Seq<i32>, shift: u8, n: nat) -> Seq<
    i32,
>
    recommends
        n <= r.len(),
    decreases n,
{
    if n == 0 {
        Seq::empty()
    } else {
        let prev = spec_lpc_reconstruct(r, coeffs, shift, (n - 1) as nat);
        let i = n - 1;
        let v: i32 = if i < coeffs.len() {
            r[i as int]
        } else {
            wrap32(r[i as int] + lpc_pred32(prev, coeffs, shift, i as int) as int)
        };
        prev.push(v)
    }
}

pub proof fn lemma_lpc_reconstruct_len(r: Seq<i32>, coeffs: Seq<i32>, shift: u8, n: nat)
    ensures
        spec_lpc_reconstruct(r, coeffs, shift, n).len() == n,
    decreases n,
{
    if n > 0 {
        lemma_lpc_reconstruct_len(r, coeffs, shift, (n - 1) as nat);
    }
}

/// The LPC accumulator depends only on the samples before `i`.
proof fn lemma_lpc_acc_same(s: Seq<i32>, t: Seq<i32>, coeffs: Seq<i32>, i: int, j: nat)
    requires
        j <= i,
        i <= s.len(),
        i <= t.len(),
        s.take(i) == t.take(i),
    ensures
        lpc_acc(s, coeffs, i, j) == lpc_acc(t, coeffs, i, j),
    decreases j,
{
    if j > 0 {
        lemma_lpc_acc_same(s, t, coeffs, i, (j - 1) as nat);
        assert(s[i - j] == t[i - j]) by {
            assert(0 <= i - j < i);
            assert(s.take(i)[i - j] == s[i - j]);
            assert(t.take(i)[i - j] == t[i - j]);
        }
    }
}

/// Adaptive-LPC round trip: reconstruction inverts residual computation
/// exactly, for any coefficients and shift, on every 32-bit input.
pub proof fn lemma_lpc_round_trip(s: Seq<i32>, coeffs: Seq<i32>, shift: u8)
    ensures
        spec_lpc_reconstruct(spec_lpc_residuals(s, coeffs, shift), coeffs, shift, s.len()) == s,
{
    lemma_lpc_round_trip_prefix(s, coeffs, shift, s.len());
    assert(s.take(s.len() as int) =~= s);
}

proof fn lemma_lpc_round_trip_prefix(s: Seq<i32>, coeffs: Seq<i32>, shift: u8, n: nat)
    requires
        n <= s.len(),
    ensures
        spec_lpc_reconstruct(spec_lpc_residuals(s, coeffs, shift), coeffs, shift, n) == s.take(
            n as int,
        ),
    decreases n,
{
    let r = spec_lpc_residuals(s, coeffs, shift);
    if n > 0 {
        lemma_lpc_round_trip_prefix(s, coeffs, shift, (n - 1) as nat);
        let prev = spec_lpc_reconstruct(r, coeffs, shift, (n - 1) as nat);
        let i = n - 1;
        if i >= coeffs.len() {
            assert(prev == s.take(n - 1));
            assert(prev.take(i as int) =~= prev);
            assert(s.take(n - 1).take(i as int) == s.take(i as int));
            lemma_lpc_acc_same(prev, s, coeffs, i as int, coeffs.len());
            lemma_wrap32_cancel(s[i as int], lpc_pred32(s, coeffs, shift, i as int) as int);
        }
        assert(spec_lpc_reconstruct(r, coeffs, shift, n) =~= s.take(n as int));
    } else {
        assert(spec_lpc_reconstruct(r, coeffs, shift, 0) =~= s.take(0));
    }
}

/// The wrapped LPC dot product over a sample slice.
fn lpc_prediction(samples: &[i32], coeffs: &[i32], shift: u8, i: usize) -> (p: i32)
    requires
        coeffs@.len() <= i < samples@.len(),
    ensures
        p == lpc_pred32(samples@, coeffs@, shift, i as int),
{
    let mut acc: i64 = 0;
    let mut j: usize = 0;
    while j < coeffs.len()
        invariant
            j <= coeffs@.len() <= i < samples@.len(),
            acc == lpc_acc(samples@, coeffs@, i as int, j as nat),
        decreases coeffs@.len() - j,
    {
        let term: i64 = (coeffs[j] as i64).wrapping_mul(samples[i - j - 1] as i64);
        acc = acc.wrapping_add(term);
        j = j + 1;
    }
    let sh: i64 = if shift >= 64 {
        63
    } else {
        shift as i64
    };
    crop_i32(acc >> sh)
}

/// The wrapped LPC dot product over an already-reconstructed prefix.
fn lpc_prediction_vec(samples: &Vec<i32>, coeffs: &[i32], shift: u8, i: usize) -> (p: i32)
    requires
        coeffs@.len() <= i <= samples@.len(),
    ensures
        p == lpc_pred32(samples@, coeffs@, shift, i as int),
{
    let mut acc: i64 = 0;
    let mut j: usize = 0;
    while j < coeffs.len()
        invariant
            j <= coeffs@.len() <= i <= samples@.len(),
            acc == lpc_acc(samples@, coeffs@, i as int, j as nat),
        decreases coeffs@.len() - j,
    {
        let term: i64 = (coeffs[j] as i64).wrapping_mul(samples[i - j - 1] as i64);
        acc = acc.wrapping_add(term);
        j = j + 1;
    }
    let sh: i64 = if shift >= 64 {
        63
    } else {
        shift as i64
    };
    crop_i32(acc >> sh)
}

/// Computes LPC residuals: the first `coeffs.len()` warm-up samples pass
/// through, every later sample has the quantized prediction subtracted.
pub fn calc_residuals_int(samples: &[i32], coeffs: &[i32], shift: u8, order: usize) -> (out: Vec<
    i32,
>)
    requires
        order == coeffs@.len(),
    ensures
        out@ == spec_lpc_residuals(samples@, coeffs@, shift),
{
    let mut out: Vec<i32> = Vec::new();
    let mut i: usize = 0;
    while i < samples.len()
        invariant
            i <= samples@.len(),
            order == coeffs@.len(),
            out@ == spec_lpc_residuals(samples@, coeffs@, shift).take(i as int),
        decreases samples@.len() - i,
    {
        let v: i32 = if i < order {
            samples[i]
        } else {
            let p: i32 = lpc_prediction(samples, coeffs, shift, i);
            crop_i32(samples[i] as i64 - p as i64)
        };
        out.push(v);
        i = i + 1;
        proof {
            assert(out@ =~= spec_lpc_residuals(samples@, coeffs@, shift).take(i as int));
        }
    }
    proof {
        assert(out@ =~= spec_lpc_residuals(samples@, coeffs@, shift));
    }
    out
}

/// Rebuilds `target_len` samples from LPC residuals; missing residuals
/// decode as zero samples.
pub fn reconstruct_lpc_int(
    coeffs: &[i32],
    residuals: &[i32],
    shift: u8,
    order: usize,
    target_len: usize,
) -> (out: Vec<i32>)
    requires
        order == coeffs@.len(),
    ensures
        out@.len() == target_len,
        ({
            let n = if residuals@.len() < target_len {
                residuals@.len()
            } else {
                target_len as nat
            };
            &&& out@.take(n as int) == spec_lpc_reconstruct(residuals@, coeffs@, shift, n)
            &&& forall|i: int| n <= i < target_len ==> out@[i] == 0i32
        }),
{
    let n: usize = if residuals.len() < target_len {
        residuals.len()
    } else {
        target_len
    };
    let mut out: Vec<i32> = Vec::new();
    let mut i: usize = 0;
    proof {
        lemma_lpc_reconstruct_len(residuals@, coeffs@, shift, n as nat);
    }
    while i < n
        invariant
            i <= n <= residuals@.len(),
            order == coeffs@.len(),
            out@ == spec_lpc_reconstruct(residuals@, coeffs@, shift, i as nat),
            out@.len() == i,
        decreases n - i,
    {
        let v: i32 = if i < order {
            residuals[i]
        } else {
            let p: i32 = lpc_prediction_vec(&out, coeffs, shift, i);
            crop_i32(residuals[i] as i64 + p as i64)
        };
        out.push(v);
        i = i + 1;
        proof {
            assert(out@ =~= spec_lpc_reconstruct(residuals@, coeffs@, shift, i as nat)) by {
                assert(out@.drop_last() =~= spec_lpc_reconstruct(
                    residuals@,
                    coeffs@,
                    shift,
                    (i - 1) as nat,
                ));
            }
        }
    }
    let ghost prefix = out@;
    while out.len() < target_len
        invariant
            n <= out@.len() <= target_len,
            out@.take(n as int) == prefix,
            prefix.len() == n,
            forall|j: int| n <= j < out@.len() ==> out@[j] == 0i32,
        decreases target_len - out@.len(),
    {
        out.push(0);
        proof {
            assert(out@.take(n as int) =~= prefix);
        }
    }
    out
}

/// The autocorrelation of `s` at `lag`, summed up to index `n` (exclusive).
pub open spec fn autocorr_sum(s: Seq<i32>, lag: int, n: int) -> int
    decreases n,
{
    if n <= lag || n <= 0 {
        0
    } else {
        autocorr_sum(s, lag, n - 1) + (s[n - 1] as int) * (s[n - 1 - lag] as int)
    }
}

/// Computes the autocorrelation of one channel for lags `0 ..= order`, with
/// 64-bit accumulation. The bounds on the samples and the length keep every
/// intermediate sum well inside 64 bits.
pub fn autocorr_int(samples: &[i32], order: usize) -> (out: Vec<i64>)
    requires
        forall|i: int|
            0 <= i < samples@.len() ==> -0x2_0000 <= #[trigger] samples@[i] <= 0x2_0000,
        samples@.len() <= 0x400_0000,
        order <= 32,
    ensures
        out@.len() == order + 1,
        forall|lag: int|
            0 <= lag <= order ==> #[trigger] out@[lag] == autocorr_sum(
                samples@,
                lag,
                samples@.len() as int,
            ),
{
    let mut out: Vec<i64> = Vec::new();
    let mut lag: usize = 0;
    while lag <= order
        invariant
            lag <= order + 1,
            out@.len() == lag,
            order <= 32,
            samples@.len() <= 0x400_0000,
            forall|i: int|
                0 <= i < samples@.len() ==> -0x2_0000 <= #[trigger] samples@[i] <= 0x2_0000,
            forall|l: int|
                0 <= l < lag ==> #[trigger] out@[l] == autocorr_sum(
                    samples@,
                    l,
                    samples@.len() as int,
                ),
        decreases order + 1 - lag,
    {
        let mut acc: i64 = 0;
        let mut i: usize = lag;
        while i < samples.len()
            invariant
                lag <= i <= samples@.len() || (i == lag && samples@.len() < lag),
                samples@.len() <= 0x400_0000,
                forall|j: int|
                    0 <= j < samples@.len() ==> -0x2_0000 <= #[trigger] samples@[j] <= 0x2_0000,
                acc == autocorr_sum(samples@, lag as int, i as int),
                -0x4_0000_0000 * (i - lag) <= acc <= 0x4_0000_0000 * (i - lag),
            decreases samples@.len() - i,
    {
            let a: i64 = samples[i] as i64;
            let b: i64 = samples[i - lag] as i64;
            proof {
                assert(-0x4_0000_0000 <= a * b <= 0x4_0000_0000) by (nonlinear_arith)
                    requires
                        -0x2_0000 <= a <= 0x2_0000,
                        -0x2_0000 <= b <= 0x2_0000,
                ;
                assert(0x4_0000_0000 * ((i + 1) - lag) == 0x4_0000_0000 * (i - lag)
                    + 0x4_0000_0000) by (nonlinear_arith);
                assert(0x4_0000_0000 * (i - lag) <= 0x4_0000_0000 * 0x400_0000)
                    by (nonlinear_arith)
                    requires
                        0 <= i - lag <= 0x400_0000,
                ;
            }
            acc = acc + a * b;
            i = i + 1;
        }
        proof {
            if samples@.len() < lag {
                assert(autocorr_sum(samples@, lag as int, samples@.len() as int) == 0);
            }
        }
        out.push(acc);
        lag = lag + 1;
    }
    out
}

/// Truncating signed division, used only inside the fixed-point recursion.
fn div_trunc(a: i64, b: i64) -> (r: i64)
    requires
        b > 0,
        -0x4000_0000_0000_0000 <= a <= 0x4000_0000_0000_0000,
    ensures
        -0x4000_0000_0000_0000 <= r <= 0x4000_0000_0000_0000,
        r == spec_div_trunc(a as int, b as int),
{
    if a >= 0 {
        let q: u64 = (a as u64) / (b as u64);
        proof {
            lemma_div_nonincreasing(a as int, b as int);
            lemma_div_pos_is_pos(a as int, b as int);
            vstd::arithmetic::div_mod::lemma_div_is_ordered(
                q as int,
                a as int,
                1,
            );
        }
        assert(q <= a as u64) by {
            vstd::arithmetic::div_mod::lemma_div_nonincreasing(a as int, b as int);
        };
        q as i64
    } else {
        let q: u64 = ((-a) as u64) / (b as u64);
        proof {
            lemma_div_nonincreasing(-a as int, b as int);
            lemma_div_pos_is_pos(-a as int, b as int);
        }
        -(q as i64)
    }
}

/// Division truncated toward zero.
pub open spec fn spec_div_trunc(a: int, b: int) -> int
    recommends
        b > 0,
{
    if a >= 0 {
        a / b
    } else {
        -((-a) / b)
    }
}

/// The numerator accumulation of one reflection step, after `j` of the
/// step's `i` subtracted terms.
pub open spec fn spec_lev_lambda(rs: Seq<int>, cs: Seq<int>, i: int, j: int) -> int
    decreases j,
{
    if j <= 0 {
        rs[i + 1] * 16384
    } else {
        spec_lev_lambda(rs, cs, i, j - 1) - cs[j - 1] * rs[i - (j - 1)]
    }
}

/// Whether every product and partial sum of the accumulation stays inside
/// the 64-bit guards the recursion checks.
pub open spec fn spec_lev_lambda_ok(rs: Seq<int>, cs: Seq<int>, i: int, j: int) -> bool
    decreases j,
{
    if j <= 0 {
        -0x7fff_ffff_ffff_ffff <= rs[i + 1] * 16384 <= 0x7fff_ffff_ffff_ffff
    } else {
        &&& spec_lev_lambda_ok(rs, cs, i, j - 1)
        &&& -0x8000_0000_0000_0000 <= cs[j - 1] * rs[i - (j - 1)] <= 0x7fff_ffff_ffff_ffff
        &&& -0x7fff_ffff_ffff_ffff <= spec_lev_lambda(rs, cs, i, j - 1) - cs[j - 1] * rs[i - (j
            - 1)] <= 0x7fff_ffff_ffff_ffff
    }
}

/// A failed partial stays failed as the accumulation continues.
proof fn lemma_lev_lambda_ok_mono(rs: Seq<int>, cs: Seq<int>, i: int, j: int, j2: int)
    requires
        !spec_lev_lambda_ok(rs, cs, i, j),
        j <= j2,
    ensures
        !spec_lev_lambda_ok(rs, cs, i, j2),
    decreases j2 - j,
{
    if j2 > j {
        lemma_lev_lambda_ok_mono(rs, cs, i, j, j2 - 1);
    }
}

/// The coefficient that one reflection step writes at position `j`.
pub open spec fn spec_lev_newc(cs: Seq<int>, gamma: int, i: int, j: int) -> int {
    cs[j] - spec_div_trunc(gamma * cs[i - 1 - j], 16384)
}

/// One reflection step of the Q14 recursion: the updated coefficient row
/// and prediction error, or nothing when a guard fires — an overflowing
/// accumulation, a non-positive error, an out-of-range numerator, a
/// reflection coefficient on or outside the Q14 unit circle, or an updated
/// coefficient outside its 21-bit bound.
pub open spec fn spec_lev_step(rs: Seq<int>, cs: Seq<int>, error: int, i: int) -> Option<
    (Seq<int>, int),
> {
    if !spec_lev_lambda_ok(rs, cs, i, i) {
        None
    } else {
        let lambda = spec_lev_lambda(rs, cs, i, i);
        if error <= 0 {
            None
        } else if lambda > 0x4000_0000_0000_0000 || lambda < -0x4000_0000_0000_0000 {
            None
        } else {
            let gamma = spec_div_trunc(lambda, error);
            if gamma >= 16384 || gamma <= -16384 {
                None
            } else if !(forall|j: int|
                0 <= j < i ==> -0x10_0000 <= #[trigger] spec_lev_newc(cs, gamma, i, j)
                    <= 0x10_0000) {
                None
            } else {
                let newc = Seq::new(
                    (i + 1) as nat,
                    |j: int|
                        if j < i {
                            spec_lev_newc(cs, gamma, i, j)
                        } else {
                            gamma
                        },
                );
                let t2 = spec_div_trunc(gamma * gamma, 16384) * error;
                if t2 > 0x4000_0000_0000_0000 {
                    None
                } else {
                    Some((newc, error - spec_div_trunc(t2, 16384)))
                }
            }
        }
    }
}

/// The recursion state after `i` reflection steps: the Q14 coefficients so
/// far and the remaining prediction error.
pub open spec fn spec_lev_run(rs: Seq<int>, i: int) -> Option<(Seq<int>, int)>
    decreases i,
{
    if i <= 0 {
        Some((Seq::<int>::empty(), rs[0]))
    } else if spec_lev_run(rs, i - 1) is None {
        None
    } else {
        let st = spec_lev_run(rs, i - 1)->Some_0;
        spec_lev_step(rs, st.0, st.1, i - 1)
    }
}

/// Once a guard has fired the recursion stays failed.
proof fn lemma_lev_run_none(rs: Seq<int>, k: int, j: int)
    requires
        spec_lev_run(rs, k) is None,
        k <= j,
    ensures
        spec_lev_run(rs, j) is None,
    decreases j - k,
{
    if j > k {
        lemma_lev_run_none(rs, k, j - 1);
    }
}

/// A failed step at `i` fails the whole recursion.
proof fn lemma_lev_fail_at(rs: Seq<int>, cs: Seq<int>, error: int, i: int, order: int)
    requires
        spec_lev_run(rs, i) == Some((cs, error)),
        spec_lev_step(rs, cs, error, i) is None,
        0 <= i < order,
    ensures
        spec_lev_run(rs, order) is None,
{
    assert(spec_lev_run(rs, i + 1) is None);
    lemma_lev_run_none(rs, i + 1, order);
}

/// The integer view of a 64-bit coefficient row.
pub open spec fn spec_cseq(v: Seq<i64>) -> Seq<int> {
    v.map_values(|c: i64| c as int)
}

/// The power of two the zero-lag value is normalized by: the smallest that
/// brings it under 30 bits.
pub open spec fn spec_lev_scale(a0: int) -> int {
    vstd::arithmetic::power2::pow2(crate::rice::spec_smallest_fit(a0 as nat, 0x3fff_ffff)) as int
}

/// The normalized autocorrelation row the recursion runs on.
pub open spec fn spec_lev_rs(autocorr: Seq<i64>, order: int) -> Seq<int> {
    Seq::new(
        (order + 1) as nat,
        |li: int| spec_div_trunc(autocorr[li] as int, spec_lev_scale(autocorr[0] as int)),
    )
}

/// Solves for quantized LPC coefficients from autocorrelation values by the
/// Levinson-Durbin recursion, carried out in Q14 fixed-point integer
/// arithmetic. Returns the coefficients (scaled by `2^14`) and the shift 14,
/// or nothing when the system is degenerate or the recursion detects an
/// unstable reflection coefficient.
pub fn levinson_durbin_int(autocorr: &[i64], order: usize) -> (r: Option<(Vec<i32>, u8)>)
    ensures
        r is Some ==> (r->Some_0).0@.len() == order && (r->Some_0).1 <= 15,
        (r is Some) == ({
            &&& autocorr@.len() > 0
            &&& order < autocorr@.len()
            &&& autocorr@[0] > 0
            &&& autocorr@[0] < 0x1000_0000_0000_0000
            &&& (forall|li: int| 0 <= li <= order ==> #[trigger] autocorr@[li] != i64::MIN)
            &&& spec_lev_run(spec_lev_rs(autocorr@, order as int), order as int) is Some
        }),
        r is Some ==> {
            let st = spec_lev_run(spec_lev_rs(autocorr@, order as int), order as int)->Some_0;
            &&& (r->Some_0).1 == 14
            &&& st.0.len() == order
            &&& forall|j: int|
                0 <= j < order ==> ((#[trigger] (r->Some_0).0@[j]) as int) == st.0[j]
        },
{
    if autocorr.len() == 0 || order >= autocorr.len() {
        return None;
    }
    if autocorr[0] <= 0 {
        return None;
    }
    // normalize so the zero-lag value fits in 30 bits
    let mut scale: u32 = 1;
    let mut r0: u64 = autocorr[0] as u64;
    let ghost mut sk: nat = 0;
    proof {
        vstd::arithmetic::power2::lemma2_to64();
        lemma_div_basics_1(r0 as int);
    }
    while r0 >= 0x4000_0000
        invariant
            autocorr@.len() > 0,
            autocorr@[0] > 0,
            sk <= 30,
            scale == vstd::arithmetic::power2::pow2(sk),
            scale >= 1,
            scale <= 0x4000_0000,
            r0 == (autocorr@[0] as int) / (vstd::arithmetic::power2::pow2(sk) as int),
            sk == 0 || (autocorr@[0] as int) / (vstd::arithmetic::power2::pow2(
                (sk - 1) as nat,
            ) as int) >= 0x4000_0000,
        decreases r0,
    {
        let ghost r0_start = r0 as int;
        proof {
            lemma_div_is_strictly_smaller(r0 as int, 2);
            lemma_div_pos_is_pos(r0 as int, 2);
            vstd::arithmetic::power2::lemma_pow2_pos(sk);
            vstd::arithmetic::power2::lemma_pow2_unfold((sk + 1) as nat);
            lemma_div_denominator(
                autocorr@[0] as int,
                vstd::arithmetic::power2::pow2(sk) as int,
                2,
            );
        }
        r0 = r0 / 2;
        if scale < 0x4000_0000 {
            scale = scale * 2;
            proof {
                vstd::arithmetic::power2::lemma2_to64();
                sk = sk + 1;
                assert(sk <= 30) by {
                    if sk - 1 >= 30 {
                        if (sk - 1) as nat > 30 {
                            vstd::arithmetic::power2::lemma_pow2_strictly_increases(
                                30,
                                (sk - 1) as nat,
                            );
                        }
                        assert(vstd::arithmetic::power2::pow2((sk - 1) as nat)
                            >= 0x4000_0000);
                    }
                }
                assert(scale <= 0x4000_0000) by {
                    if sk < 30 {
                        vstd::arithmetic::power2::lemma_pow2_strictly_increases(sk, 30);
                    }
                }
            }
        } else {
            proof {
                vstd::arithmetic::power2::lemma2_to64();
                assert(sk == 30) by {
                    if sk < 30 {
                        vstd::arithmetic::power2::lemma_pow2_strictly_increases(sk, 30);
                    }
                }
                lemma_fundamental_div_mod(
                    autocorr@[0] as int,
                    vstd::arithmetic::power2::pow2(30) as int,
                );
                lemma_mod_bound(
                    autocorr@[0] as int,
                    vstd::arithmetic::power2::pow2(30) as int,
                );
                vstd::arithmetic::mul::lemma_mul_inequality(
                    0x4000_0000,
                    r0_start,
                    vstd::arithmetic::power2::pow2(30) as int,
                );
                vstd::arithmetic::mul::lemma_mul_is_commutative(
                    r0_start,
                    vstd::arithmetic::power2::pow2(30) as int,
                );
                assert(autocorr@[0] >= 0x1000_0000_0000_0000);
            }
            return None;
        }
    }
    proof {
        crate::rice::lemma_smallest_fit_char(autocorr@[0] as nat, 0x3fff_ffff, sk);
        assert(scale as int == spec_lev_scale(autocorr@[0] as int));
        lemma_fundamental_div_mod(
            autocorr@[0] as int,
            vstd::arithmetic::power2::pow2(sk) as int,
        );
        lemma_mod_bound(autocorr@[0] as int, vstd::arithmetic::power2::pow2(sk) as int);
        vstd::arithmetic::power2::lemma_pow2_pos(sk);
        assert(autocorr@[0] < 0x1000_0000_0000_0000) by (nonlinear_arith)
            requires
                autocorr@[0] as int == (vstd::arithmetic::power2::pow2(sk) as int) * (
                r0 as int) + (autocorr@[0] as int) % (vstd::arithmetic::power2::pow2(
                    sk,
                ) as int),
                0 <= (autocorr@[0] as int) % (vstd::arithmetic::power2::pow2(sk) as int)
                    < vstd::arithmetic::power2::pow2(sk) as int,
                r0 < 0x4000_0000,
                1 <= vstd::arithmetic::power2::pow2(sk) <= 0x4000_0000,
        ;
    }
    let mut rs: Vec<i64> = Vec::new();
    let mut li: usize = 0;
    while li <= order
        invariant
            li <= order + 1,
            rs@.len() == li,
            scale >= 1,
            order < autocorr@.len(),
            scale as int == spec_lev_scale(autocorr@[0] as int),
            forall|q: int| 0 <= q < li ==> #[trigger] autocorr@[q] != i64::MIN,
            forall|q: int|
                0 <= q < li ==> (#[trigger] rs@[q]) as int == spec_lev_rs(
                    autocorr@,
                    order as int,
                )[q],
        decreases order + 1 - li,
    {
        let v: i64 = autocorr[li];
        if v == i64::MIN {
            return None;
        }
        let sv: i64 = if v >= 0 {
            proof {
                lemma_div_nonincreasing(v as int, scale as int);
                lemma_div_pos_is_pos(v as int, scale as int);
            }
            ((v as u64) / (scale as u64)) as i64
        } else {
            proof {
                lemma_div_nonincreasing(-v as int, scale as int);
                lemma_div_pos_is_pos(-v as int, scale as int);
            }
            -((((-v) as u64) / (scale as u64)) as i64)
        };
        proof {
            assert(sv as int == spec_div_trunc(autocorr@[li as int] as int, scale as int));
            assert(sv as int == spec_lev_rs(autocorr@, order as int)[li as int]);
        }
        rs.push(sv);
        li = li + 1;
    }
    // Q14 recursion
    let mut coeffs: Vec<i64> = Vec::new();
    let mut error: i64 = rs[0];
    proof {
        assert(coeffs@.map_values(|c: i64| c as int) =~= Seq::<int>::empty());
        assert(spec_cseq(coeffs@) =~= Seq::<int>::empty());
        assert(error as int == spec_lev_rs(autocorr@, order as int)[0]);
    }
    let mut i: usize = 0;
    while i < order
        invariant
            i <= order,
            coeffs@.len() == i,
            rs@.len() == order + 1,
            order < autocorr@.len(),
            forall|j: int| 0 <= j < i ==> -0x10_0000 <= #[trigger] coeffs@[j] <= 0x10_0000,
            forall|q: int|
                0 <= q < rs@.len() ==> (#[trigger] rs@[q]) as int == spec_lev_rs(
                    autocorr@,
                    order as int,
                )[q],
            spec_lev_run(spec_lev_rs(autocorr@, order as int), i as int) == Some(
                (spec_cseq(coeffs@), error as int),
            ),
        decreases order - i,
    {
        let ghost rsq = spec_lev_rs(autocorr@, order as int);
        let ghost csq = spec_cseq(coeffs@);
        let ghost error_pre = error as int;
        let mut lambda: i64 = match rs[i + 1].checked_mul(16384) {
            Some(v) => v,
            None => {
                proof {
                    assert(!spec_lev_lambda_ok(rsq, csq, i as int, 0));
                    lemma_lev_lambda_ok_mono(rsq, csq, i as int, 0, i as int);
                    lemma_lev_fail_at(rsq, csq, error_pre, i as int, order as int);
                }
                return None;
            },
        };
        if lambda == i64::MIN {
            proof {
                assert(!spec_lev_lambda_ok(rsq, csq, i as int, 0));
                lemma_lev_lambda_ok_mono(rsq, csq, i as int, 0, i as int);
                lemma_lev_fail_at(rsq, csq, error_pre, i as int, order as int);
            }
            return None;
        }
        proof {
            assert(lambda as int == spec_lev_lambda(rsq, csq, i as int, 0));
            assert(spec_lev_lambda_ok(rsq, csq, i as int, 0));
        }
        let mut j: usize = 0;
        while j < i
            invariant
                j <= i < order,
                coeffs@.len() == i,
                rs@.len() == order + 1,
                forall|jj: int| 0 <= jj < i ==> -0x10_0000 <= #[trigger] coeffs@[jj] <= 0x10_0000,
                -0x7fff_ffff_ffff_ffff <= lambda <= 0x7fff_ffff_ffff_ffff,
                rsq == spec_lev_rs(autocorr@, order as int),
                csq == spec_cseq(coeffs@),
                error_pre == error as int,
                forall|q: int| 0 <= q < rs@.len() ==> (#[trigger] rs@[q]) as int == rsq[q],
                spec_lev_run(rsq, i as int) == Some((csq, error_pre)),
                lambda as int == spec_lev_lambda(rsq, csq, i as int, j as int),
                spec_lev_lambda_ok(rsq, csq, i as int, j as int),
            decreases i - j,
        {
            let t: i64 = match coeffs[j].checked_mul(rs[i - j]) {
                Some(v) => v,
                None => {
                    proof {
                        assert(csq[j as int] == coeffs@[j as int] as int);
                        assert(!spec_lev_lambda_ok(rsq, csq, i as int, j as int + 1));
                        lemma_lev_lambda_ok_mono(rsq, csq, i as int, j as int + 1, i as int);
                        lemma_lev_fail_at(rsq, csq, error_pre, i as int, order as int);
                    }
                    return None;
                },
            };
            lambda = match lambda.checked_sub(t) {
                Some(v) => v,
                None => {
                    proof {
                        assert(csq[j as int] == coeffs@[j as int] as int);
                        assert(!spec_lev_lambda_ok(rsq, csq, i as int, j as int + 1));
                        lemma_lev_lambda_ok_mono(rsq, csq, i as int, j as int + 1, i as int);
                        lemma_lev_fail_at(rsq, csq, error_pre, i as int, order as int);
                    }
                    return None;
                },
            };
            if lambda == i64::MIN {
                proof {
                    assert(csq[j as int] == coeffs@[j as int] as int);
                    assert(!spec_lev_lambda_ok(rsq, csq, i as int, j as int + 1));
                    lemma_lev_lambda_ok_mono(rsq, csq, i as int, j as int + 1, i as int);
                    lemma_lev_fail_at(rsq, csq, error_pre, i as int, order as int);
                }
                return None;
            }
            proof {
                assert(csq[j as int] == coeffs@[j as int] as int);
                assert(lambda as int == spec_lev_lambda(rsq, csq, i as int, j as int + 1));
                assert(spec_lev_lambda_ok(rsq, csq, i as int, j as int + 1));
            }
            j = j + 1;
        }
        if error <= 0 {
            proof {
                assert(spec_lev_step(rsq, csq, error_pre, i as int) is None);
                lemma_lev_fail_at(rsq, csq, error_pre, i as int, order as int);
            }
            return None;
        }
        if lambda == i64::MIN || lambda > 0x4000_0000_0000_0000 || lambda < -0x4000_0000_0000_0000 {
            proof {
                assert(spec_lev_step(rsq, csq, error_pre, i as int) is None);
                lemma_lev_fail_at(rsq, csq, error_pre, i as int, order as int);
            }
            return None;
        }
        let gamma: i64 = div_trunc(lambda, error);
        proof {
            assert(gamma as int == spec_div_trunc(
                spec_lev_lambda(rsq, csq, i as int, i as int),
                error_pre,
            ));
        }
        if gamma >= 16384 || gamma <= -16384 {
            proof {
                assert(spec_lev_step(rsq, csq, error_pre, i as int) is None);
                lemma_lev_fail_at(rsq, csq, error_pre, i as int, order as int);
            }
            return None;
        }
        // coefficient update: c'[j] = c[j] - (gamma * c[i-1-j]) / 2^14
        let mut newc: Vec<i64> = Vec::new();
        let mut j2: usize = 0;
        while j2 < i
            invariant
                j2 <= i < order,
                newc@.len() == j2,
                coeffs@.len() == i,
                -16384 < gamma < 16384,
                forall|jj: int| 0 <= jj < i ==> -0x10_0000 <= #[trigger] coeffs@[jj] <= 0x10_0000,
                forall|jj: int| 0 <= jj < j2 ==> -0x10_0000 <= #[trigger] newc@[jj] <= 0x10_0000,
                rsq == spec_lev_rs(autocorr@, order as int),
                csq == spec_cseq(coeffs@),
                error_pre == error as int,
                error > 0,
                spec_lev_run(rsq, i as int) == Some((csq, error_pre)),
                spec_lev_lambda_ok(rsq, csq, i as int, i as int),
                lambda as int == spec_lev_lambda(rsq, csq, i as int, i as int),
                -0x4000_0000_0000_0000 <= lambda <= 0x4000_0000_0000_0000,
                gamma as int == spec_div_trunc(lambda as int, error_pre),
                forall|jj: int|
                    0 <= jj < j2 ==> (#[trigger] newc@[jj]) as int == spec_lev_newc(
                        csq,
                        gamma as int,
                        i as int,
                        jj,
                    ),
            decreases i - j2,
        {
            let prod: i64 = match gamma.checked_mul(coeffs[i - 1 - j2]) {
                Some(v) => v,
                None => {
                    proof {
                        assert(false) by (nonlinear_arith)
                            requires
                                -16384 < gamma < 16384,
                                -0x10_0000 <= coeffs@[i - 1 - j2] <= 0x10_0000,
                                !(-0x8000_0000_0000_0000 <= gamma * coeffs@[i - 1 - j2]
                                    <= 0x7fff_ffff_ffff_ffff),
                        ;
                    }
                    return None;
                },
            };
            proof {
                assert(-0x4000_0000_0000_0000 <= prod <= 0x4000_0000_0000_0000)
                    by (nonlinear_arith)
                    requires
                        prod == gamma * coeffs@[i - 1 - j2],
                        -16384 < gamma < 16384,
                        -0x10_0000 <= coeffs@[i - 1 - j2] <= 0x10_0000,
                ;
            }
            let scaled: i64 = div_trunc(prod, 16384);
            let v: i64 = match coeffs[j2].checked_sub(scaled) {
                Some(v) => v,
                None => {
                    proof {
                        assert(false);
                    }
                    return None;
                },
            };
            proof {
                assert(csq[i - 1 - j2] == coeffs@[i - 1 - j2] as int);
                assert(csq[j2 as int] == coeffs@[j2 as int] as int);
                assert(v as int == spec_lev_newc(csq, gamma as int, i as int, j2 as int));
            }
            if v > 0x10_0000 || v < -0x10_0000 {
                proof {
                    assert(!(-0x10_0000 <= spec_lev_newc(csq, gamma as int, i as int, j2 as int)
                        <= 0x10_0000));
                    assert(spec_lev_step(rsq, csq, error_pre, i as int) is None);
                    lemma_lev_fail_at(rsq, csq, error_pre, i as int, order as int);
                }
                return None;
            }
            newc.push(v);
            j2 = j2 + 1;
        }
        let ghost newc_vals = newc@;
        proof {
            assert forall|jj: int| 0 <= jj < i implies (#[trigger] spec_lev_newc(
                csq,
                gamma as int,
                i as int,
                jj,
            )) == newc_vals[jj] as int && -0x10_0000 <= spec_lev_newc(
                csq,
                gamma as int,
                i as int,
                jj,
            ) <= 0x10_0000 by {
                assert(newc@[jj] as int == spec_lev_newc(csq, gamma as int, i as int, jj));
                assert(-0x10_0000 <= newc@[jj] <= 0x10_0000);
            }
        }
        if gamma > 0x10_0000 || gamma < -0x10_0000 {
            proof {
                assert(false);
            }
            return None;
        }
        newc.push(gamma);
        coeffs = newc;
        proof {
            assert(coeffs@ =~= newc_vals.push(gamma));
        }
        // error update: error *= 1 - gamma^2 (in Q14 twice)
        let g2: i64 = match gamma.checked_mul(gamma) {
            Some(v) => v,
            None => {
                proof {
                    assert(false) by (nonlinear_arith)
                        requires
                            -16384 < gamma < 16384,
                            !(-0x8000_0000_0000_0000 <= gamma * gamma
                                <= 0x7fff_ffff_ffff_ffff),
                    ;
                }
                return None;
            },
        };
        proof {
            assert(0 <= g2 <= 0x1000_0000) by (nonlinear_arith)
                requires
                    g2 == gamma * gamma,
                    -16384 < gamma < 16384,
            ;
        }
        let g2q: i64 = div_trunc(g2, 16384);
        proof {
            assert(g2q >= 0) by {
                lemma_div_pos_is_pos(g2 as int, 16384);
            }
            assert(g2q as int == spec_div_trunc(gamma as int * gamma as int, 16384));
        }
        let t2: i64 = match g2q.checked_mul(error) {
            Some(v) => v,
            None => {
                proof {
                    assert(g2q as int * error as int > 0x4000_0000_0000_0000)
                        by (nonlinear_arith)
                        requires
                            g2q >= 0,
                            error > 0,
                            !(-0x8000_0000_0000_0000 <= g2q as int * error as int
                                <= 0x7fff_ffff_ffff_ffff),
                    ;
                    assert(spec_lev_step(rsq, csq, error_pre, i as int) is None);
                    lemma_lev_fail_at(rsq, csq, error_pre, i as int, order as int);
                }
                return None;
            },
        };
        proof {
            assert(t2 >= 0) by (nonlinear_arith)
                requires
                    t2 == g2q as int * error as int,
                    g2q >= 0,
                    error > 0,
            ;
        }
        if t2 > 0x4000_0000_0000_0000 || t2 < -0x4000_0000_0000_0000 {
            proof {
                assert(spec_lev_step(rsq, csq, error_pre, i as int) is None);
                lemma_lev_fail_at(rsq, csq, error_pre, i as int, order as int);
            }
            return None;
        }
        let shrunk: i64 = div_trunc(t2, 16384);
        proof {
            assert(shrunk >= 0) by {
                lemma_div_pos_is_pos(t2 as int, 16384);
            }
        }
        error = match error.checked_sub(shrunk) {
            Some(v) => v,
            None => {
                proof {
                    assert(false);
                }
                return None;
            },
        };
        proof {
            let st = spec_lev_step(rsq, csq, error_pre, i as int);
            assert(st is Some);
            assert(st->Some_0.1 == error as int);
            assert(st->Some_0.0 =~= spec_cseq(coeffs@)) by {
                assert forall|jj: int| 0 <= jj < i + 1 implies st->Some_0.0[jj] == spec_cseq(
                    coeffs@,
                )[jj] by {
                    if jj < i {
                        assert(coeffs@[jj] == newc_vals[jj]);
                        assert(newc_vals[jj] as int == spec_lev_newc(
                            csq,
                            gamma as int,
                            i as int,
                            jj,
                        ));
                    } else {
                        assert(coeffs@[jj] == gamma);
                    }
                }
            }
            assert(spec_lev_run(rsq, i as int + 1) == Some(
                (spec_cseq(coeffs@), error as int),
            ));
        }
        i = i + 1;
    }
    // emit Q14 coefficients with shift 14
    let mut out: Vec<i32> = Vec::new();
    let mut oi: usize = 0;
    while oi < order
        invariant
            oi <= order,
            out@.len() == oi,
            coeffs@.len() == order,
            forall|jj: int| 0 <= jj < order ==> -0x10_0000 <= #[trigger] coeffs@[jj] <= 0x10_0000,
            forall|jj: int| 0 <= jj < oi ==> (#[trigger] out@[jj]) as int == coeffs@[jj] as int,
        decreases order - oi,
    {
        out.push(coeffs[oi] as i32);
        oi = oi + 1;
    }
    proof {
        let st = spec_lev_run(spec_lev_rs(autocorr@, order as int), order as int)->Some_0;
        assert(st.0 == spec_cseq(coeffs@));
        assert forall|jj: int| 0 <= jj < order implies (#[trigger] out@[jj]) as int
            == st.0[jj] by {
            assert(spec_cseq(coeffs@)[jj] == coeffs@[jj] as int);
        }
    }
    Some((out, 14))
}

} // verus!
