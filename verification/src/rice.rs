//! Rice coding of signed residuals: zigzag map to unsigned, then a unary
//! quotient (capped at 255 one bits), a zero bit, and `k` remainder bits,
//! most significant first.

use vstd::prelude::*;
use vstd::arithmetic::power2::*;
use vstd::arithmetic::div_mod::*;
use vstd::arithmetic::mul::{
    lemma_mul_inequality,
    lemma_mul_is_distributive_add,
    lemma_mul_is_commutative,
};

use crate::bits::{
    BitReader,
    BitWriter,
    bits_of_bytes,
    bits_val,
    val_bits,
    lemma_val_bits_len,
    lemma_bits_val_of_val_bits,
    lemma_pow2_unfold,
    pow2_u32,
    spec_read_bits_val,
    spec_read_bits_acc,
};

verus! {

/// The zigzag map folding signed integers into unsigned ones:
/// `0, -1, 1, -2, 2, ...` become `0, 1, 2, 3, 4, ...`.
pub open spec fn zigzag(s: i32) -> u32 {
    if s >= 0 {
        (2 * s) as u32
    } else {
        (-2 * s - 1) as u32
    }
}

/// The inverse of `zigzag`.
pub open spec fn zigzag_inv(u: u32) -> i32 {
    if u % 2 == 0 {
        (u / 2) as i32
    } else {
        (-(u / 2) - 1) as i32
    }
}

pub proof fn lemma_zigzag_inverse(s: i32)
    ensures
        zigzag_inv(zigzag(s)) == s,
{
    if s >= 0 {
        lemma_fundamental_div_mod_converse(zigzag(s) as int, 2, s as int, 0);
    } else {
        lemma_fundamental_div_mod_converse(zigzag(s) as int, 2, -(s as int) - 1, 1);
    }
}

pub open spec fn zigzags(rs: Seq<i32>) -> Seq<u32> {
    rs.map_values(|s: i32| zigzag(s))
}

/// The Rice code of one unsigned value: `min(u / 2^k, 255)` one bits, a zero
/// bit, then the `k` low bits of `u`, most significant first.
pub open spec fn rice_code(u: u32, k: nat) -> Seq<bool> {
    let q = (u as nat) / pow2(k);
    let cap = if q > 255 {
        255nat
    } else {
        q
    };
    Seq::new(cap, |i: int| true) + seq![false] + val_bits((u as nat) % pow2(k), k)
}

/// The concatenation of the Rice codes of a value sequence.
pub open spec fn rice_stream(us: Seq<u32>, k: nat) -> Seq<bool>
    decreases us.len(),
{
    if us.len() == 0 {
        Seq::empty()
    } else {
        rice_stream(us.drop_last(), k) + rice_code(us.last(), k)
    }
}

pub proof fn lemma_rice_stream_first(us: Seq<u32>, k: nat)
    requires
        us.len() > 0,
    ensures
        rice_stream(us, k) == rice_code(us[0], k) + rice_stream(us.skip(1), k),
    decreases us.len(),
{
    if us.len() == 1 {
        assert(us.drop_last() =~= Seq::<u32>::empty());
        assert(us.skip(1) =~= Seq::<u32>::empty());
        assert(rice_stream(us, k) =~= rice_code(us[0], k) + rice_stream(us.skip(1), k));
    } else {
        lemma_rice_stream_first(us.drop_last(), k);
        assert(us.drop_last().skip(1) =~= us.skip(1).drop_last());
        assert(us.skip(1).last() == us.last());
        assert(rice_stream(us, k) =~= rice_code(us[0], k) + rice_stream(us.skip(1), k));
    }
}

/// Zigzag-maps one sample.
pub fn zigzag_u32(s: i32) -> (u: u32)
    ensures
        u == zigzag(s),
{
    if s >= 0 {
        (s as u32) * 2
    } else {
        let t: i32 = -(s + 1);
        (t as u32) * 2 + 1
    }
}

/// Inverts the zigzag map.
pub fn unzigzag_i32(u: u32) -> (s: i32)
    ensures
        s == zigzag_inv(u),
{
    let h: u32 = u / 2;
    if u % 2 == 0 {
        h as i32
    } else {
        -(h as i32) - 1
    }
}

/// Appends the Rice code of one sample to a bit stream.
fn encode_sample(bits: &mut BitWriter, sample: i32, k: u8)
    requires
        old(bits).wf(),
        k <= 15,
    ensures
        final(bits).wf(),
        final(bits).bits() == old(bits).bits() + rice_code(zigzag(sample), k as nat),
{
    let u: u32 = zigzag_u32(sample);
    let p: u32 = pow2_u32(k as u32);
    proof {
        lemma_pow2_pos(k as nat);
    }
    let q: u32 = u / p;
    let rem: u32 = u % p;
    let cap: u32 = if q > 255 {
        255
    } else {
        q
    };
    let ghost ones = Seq::new(cap as nat, |i: int| true);
    let mut j: u32 = 0;
    while j < cap
        invariant
            bits.wf(),
            j <= cap,
            ones == Seq::new(cap as nat, |i: int| true),
            bits.bits() == old(bits).bits() + ones.take(j as int),
        decreases cap - j,
    {
        bits.write_bit(1);
        j = j + 1;
        proof {
            assert(ones.take(j as int) =~= ones.take(j - 1).push(true));
            assert(bits.bits() =~= old(bits).bits() + ones.take(j as int));
        }
    }
    proof {
        assert(ones.take(cap as int) =~= ones);
    }
    bits.write_bit(0);
    proof {
        lemma_mod_division_less_than_divisor(u as int, p as int);
    }
    bits.write_bits(rem, k);
    proof {
        assert(final(bits).bits() =~= old(bits).bits() + rice_code(zigzag(sample), k as nat));
    }
}

/// Rice-encodes a residual array into bytes: the codes in order, then zero
/// bits to the next byte boundary.
pub fn encode_i32(residuals: &[i32], k: u8) -> (out: Vec<u8>)
    requires
        k <= 15,
    ensures
        ({
            let stream = rice_stream(zigzags(residuals@), k as nat);
            &&& stream.len() <= out@.len() * 8 < stream.len() + 8
            &&& bits_of_bytes(out@).take(stream.len() as int) == stream
            &&& forall|i: int|
                stream.len() <= i < out@.len() * 8 ==> !#[trigger] bits_of_bytes(out@)[i]
        }),
{
    let mut bits = BitWriter::new();
    let mut idx: usize = 0;
    proof {
        assert(zigzags(residuals@.take(0)) =~= Seq::<u32>::empty());
        assert(bits.bits() =~= rice_stream(zigzags(residuals@.take(0)), k as nat));
    }
    while idx < residuals.len()
        invariant
            bits.wf(),
            idx <= residuals@.len(),
            k <= 15,
            bits.bits() == rice_stream(zigzags(residuals@.take(idx as int)), k as nat),
        decreases residuals@.len() - idx,
    {
        let s: i32 = residuals[idx];
        encode_sample(&mut bits, s, k);
        idx = idx + 1;
        proof {
            let zz_new = zigzags(residuals@.take(idx as int));
            assert(zz_new =~= zigzags(residuals@.take(idx - 1)).push(zigzag(s)));
            assert(zz_new.drop_last() =~= zigzags(residuals@.take(idx - 1)));
            assert(bits.bits() =~= rice_stream(zz_new, k as nat));
        }
    }
    proof {
        assert(residuals@.take(residuals@.len() as int) =~= residuals@);
    }
    bits.into_bytes()
}

/// The absolute value of a sample, as a mathematical integer.
pub open spec fn abs_int(s: i32) -> int {
    if s >= 0 {
        s as int
    } else {
        -(s as int)
    }
}

/// The absolute value of a sample as a `u32`.
fn abs_u32(s: i32) -> (a: u32)
    ensures
        a == abs_int(s),
{
    if s >= 0 {
        s as u32
    } else {
        (-(s as i64)) as u32
    }
}


/// The largest residual magnitude.
pub open spec fn spec_max_abs(rs: Seq<i32>) -> int
    decreases rs.len(),
{
    if rs.len() == 0 {
        0
    } else {
        let rest = spec_max_abs(rs.drop_last());
        let a = abs_int(rs.last());
        if a > rest {
            a
        } else {
            rest
        }
    }
}

/// The sum of the residual magnitudes.
pub open spec fn spec_abs_sum(rs: Seq<i32>) -> int
    decreases rs.len(),
{
    if rs.len() == 0 {
        0
    } else {
        spec_abs_sum(rs.drop_last()) + abs_int(rs.last())
    }
}

/// A sequence of zero-magnitude residuals has a zero magnitude sum.
proof fn lemma_abs_sum_zero(rs: Seq<i32>)
    requires
        forall|j: int| 0 <= j < rs.len() ==> abs_int(#[trigger] rs[j]) <= 0,
    ensures
        spec_abs_sum(rs) == 0,
    decreases rs.len(),
{
    if rs.len() > 0 {
        lemma_abs_sum_zero(rs.drop_last());
    }
}

/// The smallest number of halvings that brings `v` within `cap`.
pub open spec fn spec_smallest_fit(v: nat, cap: nat) -> nat
    decreases v,
{
    if v <= cap {
        0
    } else {
        1 + spec_smallest_fit(v / 2, cap)
    }
}

/// `j` halvings reach `cap` and `j - 1` do not, so `j` is the smallest fit.
pub proof fn lemma_smallest_fit_char(mu: nat, cap: nat, j: nat)
    requires
        mu / pow2(j) <= cap,
        j > 0 ==> mu / pow2((j - 1) as nat) > cap,
    ensures
        spec_smallest_fit(mu, cap) == j,
    decreases j,
{
    lemma_pow2_pos(j);
    if j == 0 {
        lemma2_to64();
        assert(mu / pow2(0) == mu) by {
            lemma_div_basics_1(mu as int);
        }
    } else {
        lemma_pow2_pos((j - 1) as nat);
        assert(mu >= mu / pow2((j - 1) as nat)) by {
            lemma_div_is_ordered_by_denominator(mu as int, 1, pow2((j - 1) as nat) as int);
            lemma_div_basics_1(mu as int);
        }
        assert(mu > cap);
        assert((mu / 2) / pow2((j - 1) as nat) == mu / pow2(j)) by {
            lemma_pow2_unfold(j);
            lemma_div_denominator(mu as int, 2, pow2((j - 1) as nat) as int);
            lemma_mul_is_commutative(2, pow2((j - 1) as nat) as int);
        }
        if j > 1 {
            assert((mu / 2) / pow2((j - 2) as nat) == mu / pow2((j - 1) as nat)) by {
                lemma_pow2_unfold((j - 1) as nat);
                lemma_pow2_pos((j - 2) as nat);
                lemma_div_denominator(mu as int, 2, pow2((j - 2) as nat) as int);
                lemma_mul_is_commutative(2, pow2((j - 2) as nat) as int);
            }
        }
        lemma_smallest_fit_char(mu / 2, cap, (j - 1) as nat);
    }
}

/// The estimated parameter in closed form: the larger of the smallest shift
/// that caps the unary quotient at 255 and the bit length of the mean
/// magnitude, clamped to 15.
pub open spec fn spec_estimate_k(rs: Seq<i32>) -> nat
    recommends
        rs.len() > 0,
{
    let fit = spec_smallest_fit((2 * spec_max_abs(rs)) as nat, 255);
    let bl = spec_smallest_fit((spec_abs_sum(rs) / rs.len() as int) as nat, 0);
    let kk = if fit > bl {
        fit
    } else {
        bl
    };
    if kk > 15 {
        15
    } else {
        kk
    }
}

/// Picks a Rice parameter for a residual array: large enough that no unary
/// quotient overruns the 255 cap (whenever the residuals fit in 22 bits),
/// and no smaller than the bit length of the mean magnitude. An empty array
/// yields 4, an all-zero array yields 0; the result never exceeds 15.
pub fn estimate_rice_parameter_i32(residuals: &[i32]) -> (k: u8)
    requires
        residuals@.len() < 0x1_0000_0000,
    ensures
        k <= 15,
        residuals@.len() == 0 ==> k == 4,
        residuals@.len() > 0 ==> k as nat == spec_estimate_k(residuals@),
        residuals@.len() > 0 && (forall|i: int|
            0 <= i < residuals@.len() ==> residuals@[i] == 0i32) ==> k == 0,
        (forall|i: int| 0 <= i < residuals@.len() ==> abs_int(#[trigger] residuals@[i]) <= 0x3f_ffff)
            ==> forall|i: int|
            0 <= i < residuals@.len() ==> (zigzag(#[trigger] residuals@[i]) as nat) / pow2(
                k as nat,
            ) <= 255,
{
    if residuals.len() == 0 {
        return 4;
    }
    let mut max_abs: u32 = 0;
    let mut sum: u64 = 0;
    let mut i: usize = 0;
    while i < residuals.len()
        invariant
            i <= residuals@.len() < 0x1_0000_0000,
            max_abs <= 0x8000_0000u32,
            sum <= i * 0x8000_0000,
            forall|j: int| 0 <= j < i ==> abs_int(#[trigger] residuals@[j]) <= max_abs,
            max_abs == 0 || exists|j: int|
                0 <= j < i && abs_int(#[trigger] residuals@[j]) == max_abs,
            max_abs == spec_max_abs(residuals@.take(i as int)),
            sum == spec_abs_sum(residuals@.take(i as int)),
        decreases residuals@.len() - i,
    {
        let ghost before = residuals@.take(i as int);
        let a: u32 = abs_u32(residuals[i]);
        if a > max_abs {
            max_abs = a;
        }
        proof {
            assert((i + 1) * 0x8000_0000 == i * 0x8000_0000 + 0x8000_0000) by {
                lemma_mul_is_distributive_add(0x8000_0000, i as int, 1);
                lemma_mul_is_commutative(0x8000_0000, i as int + 1);
                lemma_mul_is_commutative(0x8000_0000, i as int);
                vstd::arithmetic::mul::lemma_mul_basics(0x8000_0000);
            }
            assert(residuals@.len() * 0x8000_0000 <= 0x1_0000_0000 * 0x8000_0000) by {
                lemma_mul_inequality(residuals@.len() as int, 0x1_0000_0000, 0x8000_0000);
            }
        }
        sum = sum + (a as u64);
        i = i + 1;
        proof {
            assert(residuals@.take(i as int).drop_last() =~= before);
            assert(residuals@.take(i as int).last() == residuals@[i - 1]);
        }
    }
    proof {
        assert(residuals@.take(residuals@.len() as int) =~= residuals@);
    }
    if max_abs == 0 {
        proof {
            lemma2_to64();
            assert forall|j: int| 0 <= j < residuals@.len() implies (zigzag(
                #[trigger] residuals@[j],
            ) as nat) / pow2(0) <= 255 by {
                assert(abs_int(residuals@[j]) <= 0);
                assert(residuals@[j] == 0i32);
                assert(zigzag(residuals@[j]) == 0);
                lemma_div_basics_1(0);
            }
            lemma_abs_sum_zero(residuals@);
            assert(0int / (residuals@.len() as int) == 0) by (nonlinear_arith)
                requires
                    residuals@.len() > 0,
            ;
            assert(spec_estimate_k(residuals@) == 0);
        }
        return 0;
    }
    // smallest k with (2 * max_abs) >> k <= 255
    let max_unsigned: u64 = 2 * (max_abs as u64);
    let mut v: u64 = max_unsigned;
    let mut min_k: u8 = 0;
    proof {
        lemma2_to64();
        lemma_div_basics_1(max_unsigned as int);
        vstd::arithmetic::mul::lemma_mul_basics(max_unsigned as int);
    }
    while v > 255
        invariant
            max_unsigned <= 0x1_0000_0000,
            min_k <= 33,
            pow2(min_k as nat) <= 0x4_0000_0000,
            v == max_unsigned as nat / pow2(min_k as nat),
            min_k == 0 || max_unsigned as nat / pow2((min_k - 1) as nat) > 255,
        decreases v,
    {
        proof {
            lemma_pow2_pos(min_k as nat);
            lemma_pow2_unfold((min_k + 1) as nat);
            lemma_div_denominator(
                max_unsigned as int,
                pow2(min_k as nat) as int,
                2,
            );
            assert(v / 2 < v) by {
                lemma_div_is_strictly_smaller(v as int, 2);
            }
            // v > 255 bounds min_k: 256 * pow2(min_k) <= max_unsigned
            assert(256 * pow2(min_k as nat) <= max_unsigned) by {
                lemma_fundamental_div_mod(max_unsigned as int, pow2(min_k as nat) as int);
                lemma_mod_bound(max_unsigned as int, pow2(min_k as nat) as int);
                lemma_mul_inequality(256, v as int, pow2(min_k as nat) as int);
                lemma_mul_is_commutative(v as int, pow2(min_k as nat) as int);
            }
            assert(min_k < 33) by {
                if min_k >= 33 {
                    lemma_pow2_strictly_increases(33, min_k as nat + 8);
                    lemma_pow2_adds(min_k as nat, 8);
                    lemma2_to64();
                    lemma_pow2_adds(33, 8);
                    assert(256 * pow2(min_k as nat) == pow2(min_k as nat + 8)) by {
                        lemma_mul_is_commutative(256, pow2(min_k as nat) as int);
                    }
                }
            }
            assert(pow2((min_k + 1) as nat) <= 0x4_0000_0000) by {
                if min_k + 1 <= 34 {
                    lemma_pow2_adds(34, 0);
                    if ((min_k + 1) as nat) < 34 {
                        lemma_pow2_strictly_increases((min_k + 1) as nat, 34);
                    }
                    lemma2_to64();
                    lemma_pow2_unfold(34);
                    lemma_pow2_unfold(33);
                }
            }
        }
        v = v / 2;
        min_k = min_k + 1;
    }
    // bit length of the mean magnitude
    let mean: u64 = sum / (residuals.len() as u64);
    let mut m: u64 = mean;
    let mut mean_k: u8 = 0;
    while m > 0
        invariant
            mean <= 0x8000_0000_0000_0000,
            mean_k <= 64,
            pow2(mean_k as nat) <= 0x1_0000_0000_0000_0000,
            m == mean as nat / pow2(mean_k as nat),
            mean_k == 0 || mean as nat / pow2((mean_k - 1) as nat) > 0,
        decreases m,
    {
        proof {
            lemma_pow2_pos(mean_k as nat);
            lemma_pow2_unfold((mean_k + 1) as nat);
            lemma_div_denominator(mean as int, pow2(mean_k as nat) as int, 2);
            assert(m / 2 < m) by {
                lemma_div_is_strictly_smaller(m as int, 2);
            }
            assert(1 * pow2(mean_k as nat) <= mean) by {
                lemma_fundamental_div_mod(mean as int, pow2(mean_k as nat) as int);
                lemma_mod_bound(mean as int, pow2(mean_k as nat) as int);
                lemma_mul_inequality(1, m as int, pow2(mean_k as nat) as int);
                lemma_mul_is_commutative(m as int, pow2(mean_k as nat) as int);
            }
            assert(mean_k < 64) by {
                if mean_k >= 64 {
                    lemma2_to64_rest();
                    if (mean_k as nat) > 64 {
                        lemma_pow2_strictly_increases(64, mean_k as nat);
                    }
                    vstd::arithmetic::mul::lemma_mul_basics(pow2(mean_k as nat) as int);
                }
            }
            assert(pow2((mean_k + 1) as nat) <= 0x1_0000_0000_0000_0000) by {
                lemma2_to64_rest();
                if ((mean_k + 1) as nat) < 64 {
                    lemma_pow2_strictly_increases((mean_k + 1) as nat, 64);
                }
            }
        }
        m = m / 2;
        mean_k = mean_k + 1;
    }
    let k0: u8 = if min_k > mean_k {
        min_k
    } else {
        mean_k
    };
    let k: u8 = if k0 > 15 {
        15
    } else {
        k0
    };
    proof {
        lemma_estimate_cap(residuals@, max_abs, max_unsigned, min_k, k);
        lemma_smallest_fit_char(max_unsigned as nat, 255, min_k as nat);
        lemma_smallest_fit_char(mean as nat, 0, mean_k as nat);
        assert(max_unsigned as nat == (2 * spec_max_abs(residuals@)) as nat);
        assert(mean as nat == (spec_abs_sum(residuals@) / residuals@.len() as int) as nat);
        assert(k as nat == spec_estimate_k(residuals@));
        let j = choose|j: int|
            0 <= j < residuals@.len() && abs_int(#[trigger] residuals@[j]) == max_abs;
        assert(residuals@[j] != 0i32);
    }
    k
}

/// If every residual magnitude fits in 22 bits, the chosen parameter keeps
/// every unary quotient within the 255 cap.
proof fn lemma_estimate_cap(rs: Seq<i32>, max_abs: u32, max_unsigned: u64, min_k: u8, k: u8)
    requires
        forall|j: int| 0 <= j < rs.len() ==> abs_int(#[trigger] rs[j]) <= max_abs,
        max_abs == 0 || exists|j: int| 0 <= j < rs.len() && abs_int(#[trigger] rs[j]) == max_abs,
        max_unsigned == 2 * max_abs,
        max_unsigned as nat / pow2(min_k as nat) <= 255,
        min_k == 0 || max_unsigned as nat / pow2((min_k - 1) as nat) > 255,
        k <= 15,
        min_k <= 15 ==> k >= min_k,
    ensures
        (forall|i: int| 0 <= i < rs.len() ==> abs_int(#[trigger] rs[i]) <= 0x3f_ffff)
            ==> forall|i: int|
            0 <= i < rs.len() ==> (zigzag(#[trigger] rs[i]) as nat) / pow2(k as nat) <= 255,
{
    if forall|i: int| 0 <= i < rs.len() ==> abs_int(#[trigger] rs[i]) <= 0x3f_ffff {
        // max_unsigned < 2^23, so the minimal parameter is at most 15
        assert(max_abs <= 0x3f_ffff) by {
            if max_abs != 0 {
                let j = choose|j: int|
                    0 <= j < rs.len() && abs_int(#[trigger] rs[j]) == max_abs;
                assert(abs_int(rs[j]) <= 0x3f_ffff);
            }
        }
        assert(min_k <= 15) by {
            if min_k > 15 {
                assert(max_unsigned as nat / pow2((min_k - 1) as nat) > 255);
                lemma_pow2_pos(15);
                if 15 < min_k - 1 {
                    lemma_pow2_strictly_increases(15, (min_k - 1) as nat);
                }
                lemma2_to64();
                lemma_div_is_ordered_by_denominator(
                    max_unsigned as int,
                    pow2(15) as int,
                    pow2((min_k - 1) as nat) as int,
                );
                lemma_div_is_ordered(max_unsigned as int, 0x7f_fffe, pow2(15) as int);
            }
        }
        assert forall|i: int| 0 <= i < rs.len() implies (zigzag(#[trigger] rs[i]) as nat) / pow2(
            k as nat,
        ) <= 255 by {
            assert(zigzag(rs[i]) <= max_unsigned);
            lemma_pow2_pos(min_k as nat);
            lemma_pow2_pos(k as nat);
            if k > min_k {
                lemma_pow2_strictly_increases(min_k as nat, k as nat);
            }
            lemma_div_is_ordered_by_denominator(
                max_unsigned as int,
                pow2(min_k as nat) as int,
                pow2(k as nat) as int,
            );
            lemma_div_is_ordered(zigzag(rs[i]) as int, max_unsigned as int, pow2(k as nat) as int);
        }
    }
}

/// Reading a unary run starting at `pos` with `count` ones already seen:
/// ones are counted until a zero bit, the end of the stream, or a count
/// above 255; the terminating zero bit is consumed.
pub open spec fn spec_read_unary(bits: Seq<bool>, pos: nat, count: nat) -> (nat, nat)
    decreases bits.len() - pos,
{
    if pos >= bits.len() {
        (count, pos)
    } else if !bits[pos as int] {
        (count, pos + 1)
    } else if count + 1 > 255 {
        (count + 1, pos + 1)
    } else {
        spec_read_unary(bits, pos + 1, count + 1)
    }
}

/// Decoding one sample: nothing is read at the end of the stream and the
/// sample is zero; otherwise a unary quotient, then `k` remainder bits,
/// reassembled modulo `2^32` and zigzag-inverted.
pub open spec fn spec_decode_sample(bits: Seq<bool>, pos: nat, k: nat) -> (i32, nat) {
    if pos >= bits.len() {
        (0i32, pos)
    } else {
        let qp = spec_read_unary(bits, pos, 0);
        let rp = spec_read_bits_val(bits, qp.1, k as nat);
        let u = (((qp.0 * pow2(k)) + rp.0) % 0x1_0000_0000) as u32;
        (zigzag_inv(u), rp.1)
    }
}

/// Decoding `n` samples in sequence.
pub open spec fn spec_rice_decode(bits: Seq<bool>, pos: nat, k: nat, n: nat) -> Seq<i32>
    decreases n,
{
    if n == 0 {
        Seq::empty()
    } else {
        let sp = spec_decode_sample(bits, pos, k);
        seq![sp.0] + spec_rice_decode(bits, sp.1, k, (n - 1) as nat)
    }
}

/// Decodes one sample off a bit reader.
fn decode_sample(bits: &mut BitReader, k: u8) -> (s: i32)
    requires
        old(bits).wf(),
        old(bits).pos() < old(bits).stream().len(),
    ensures
        final(bits).wf(),
        final(bits).stream() == old(bits).stream(),
        (s, final(bits).pos()) == spec_decode_sample(
            old(bits).stream(),
            old(bits).pos(),
            k as nat,
        ),
{
    let mut quotient: u32 = 0;
    loop
        invariant_except_break
            quotient <= 255,
            spec_read_unary(old(bits).stream(), old(bits).pos(), 0) == spec_read_unary(
                bits.stream(),
                bits.pos(),
                quotient as nat,
            ),
        invariant
            bits.wf(),
            bits.stream() == old(bits).stream(),
        ensures
            (quotient as nat, bits.pos()) == spec_read_unary(
                old(bits).stream(),
                old(bits).pos(),
                0,
            ),
        decreases bits.stream().len() - bits.pos() + 1,
    {
        if bits.is_exhausted() {
            break ;
        }
        let b: u32 = bits.read_bit();
        if b == 0 {
            break ;
        }
        quotient = quotient + 1;
        if quotient > 255 {
            break ;
        }
    }
    let remainder: u32 = bits.read_bits(k);
    let u: u32 = if k >= 32 {
        proof {
            lemma_pow2_modular_zero(quotient as nat, remainder as nat, k as nat);
            lemma_small_mod(remainder as nat, 0x1_0000_0000);
        }
        remainder
    } else {
        let p: u32 = pow2_u32(k as u32);
        proof {
            lemma_wrapping_muladd_mod(quotient, p, remainder, k as nat);
        }
        quotient.wrapping_mul(p).wrapping_add(remainder)
    };
    unzigzag_i32(u)
}

/// `q * 2^k + r` taken modulo `2^32` equals `r % 2^32` when `k >= 32`.
proof fn lemma_pow2_modular_zero(q: nat, r: nat, k: nat)
    requires
        k >= 32,
    ensures
        ((q * pow2(k) + r) % 0x1_0000_0000) == r % 0x1_0000_0000,
{
    lemma_pow2_adds(32, (k - 32) as nat);
    lemma2_to64();
    let m: int = 0x1_0000_0000;
    assert(q * pow2(k) == m * (q * pow2((k - 32) as nat))) by {
        vstd::arithmetic::mul::lemma_mul_is_associative(
            q as int,
            m,
            pow2((k - 32) as nat) as int,
        );
        lemma_mul_is_commutative(q as int, m);
        vstd::arithmetic::mul::lemma_mul_is_associative(
            m,
            q as int,
            pow2((k - 32) as nat) as int,
        );
    }
    lemma_mod_multiples_vanish((q * pow2((k - 32) as nat)) as int, r as int, m);
}

/// The wrapped multiply-add computes `(q * 2^k + r) % 2^32` for `k < 32`.
proof fn lemma_wrapping_muladd_mod(q: u32, p: u32, r: u32, k: nat)
    requires
        k < 32,
        p == pow2(k),
    ensures
        vstd::wrapping::u32_specs::wrapping_add(
            vstd::wrapping::u32_specs::wrapping_mul(q, p),
            r,
        ) as nat == ((q as nat) * pow2(k) + r as nat) % 0x1_0000_0000,
{
    let m: int = 0x1_0000_0000;
    let qp = vstd::wrapping::u32_specs::wrapping_mul(q, p);
    assert(qp as int == (q as int * p as int) % m);
    let s = vstd::wrapping::u32_specs::wrapping_add(qp, r);
    lemma_mod_division_less_than_divisor(q as int * p as int, m);
    assert(s as int == (qp as int + r as int) % m) by {
        if qp + r > u32::MAX {
            lemma_fundamental_div_mod_converse_mod(
                qp as int + r as int,
                m,
                1,
                qp as int + r as int - m,
            );
        } else {
            lemma_small_mod((qp + r) as nat, m as nat);
        }
    }
    lemma_add_mod_noop(q as int * p as int, r as int, m);
    lemma_small_mod(r as nat, m as nat);
}

/// Rice-decodes `target_len` samples out of a byte buffer; bits past the end
/// of the buffer read as zero.
pub fn decode_i32(encoded: &[u8], k: u8, target_len: usize) -> (out: Vec<i32>)
    ensures
        out@ == spec_rice_decode(bits_of_bytes(encoded@), 0, k as nat, target_len as nat),
        out@.len() == target_len,
{
    let ghost stream = bits_of_bytes(encoded@);
    let mut bits = BitReader::new(encoded);
    let mut out: Vec<i32> = Vec::new();
    let mut i: usize = 0;
    proof {
        lemma_rice_decode_len(stream, 0, k as nat, target_len as nat);
    }
    while i < target_len
        invariant
            bits.wf(),
            bits.stream() == stream,
            i <= target_len,
            out@.len() == i,
            out@ + spec_rice_decode(stream, bits.pos(), k as nat, (target_len - i) as nat)
                == spec_rice_decode(stream, 0, k as nat, target_len as nat),
        decreases target_len - i,
    {
        let ghost pos0 = bits.pos();
        let ghost rest = spec_rice_decode(stream, pos0, k as nat, (target_len - i) as nat);
        if bits.is_exhausted() {
            out.push(0);
        } else {
            let s: i32 = decode_sample(&mut bits, k);
            out.push(s);
        }
        i = i + 1;
        proof {
            let sp = spec_decode_sample(stream, pos0, k as nat);
            assert(rest == seq![sp.0] + spec_rice_decode(
                stream,
                sp.1,
                k as nat,
                (target_len - i) as nat,
            ));
            assert(out@ + spec_rice_decode(stream, bits.pos(), k as nat, (target_len - i) as nat)
                =~= spec_rice_decode(stream, 0, k as nat, target_len as nat));
        }
    }
    proof {
        assert(spec_rice_decode(stream, bits.pos(), k as nat, 0) =~= Seq::<i32>::empty());
        assert(out@ =~= spec_rice_decode(stream, 0, k as nat, target_len as nat));
    }
    out
}

pub proof fn lemma_rice_decode_len(bits: Seq<bool>, pos: nat, k: nat, n: nat)
    ensures
        spec_rice_decode(bits, pos, k, n).len() == n,
    decreases n,
{
    if n > 0 {
        let sp = spec_decode_sample(bits, pos, k);
        lemma_rice_decode_len(bits, sp.1, k, (n - 1) as nat);
    }
}

/// `bits_val` over a concatenation: the left part is scaled by the length of
/// the right part.
pub proof fn lemma_bits_val_concat(a: Seq<bool>, b: Seq<bool>)
    ensures
        bits_val(a + b) == bits_val(a) * pow2(b.len()) + bits_val(b),
    decreases b.len(),
{
    if b.len() == 0 {
        assert(a + b =~= a);
        lemma2_to64();
        vstd::arithmetic::mul::lemma_mul_basics(bits_val(a) as int);
    } else {
        assert((a + b).drop_last() =~= a + b.drop_last());
        lemma_bits_val_concat(a, b.drop_last());
        let x = bits_val(a) as int;
        let p = pow2((b.len() - 1) as nat) as int;
        lemma_pow2_unfold(b.len());
        assert(2 * (x * p) == x * (2 * p)) by {
            vstd::arithmetic::mul::lemma_mul_is_associative(2, x, p);
            vstd::arithmetic::mul::lemma_mul_is_associative(x, 2, p);
            lemma_mul_is_commutative(x, 2);
        }
    }
}

/// A unary scan over `j` one bits followed by a zero bit reads exactly that.
proof fn lemma_read_unary_exact(bits: Seq<bool>, pos: nat, j: nat, c: nat)
    requires
        pos + j < bits.len(),
        forall|i: int| 0 <= i < j ==> #[trigger] bits[pos + i],
        !bits[(pos + j) as int],
        c + j <= 255,
    ensures
        spec_read_unary(bits, pos, c) == ((c + j) as nat, (pos + j + 1) as nat),
    decreases j,
{
    if j == 0 {
    } else {
        assert(bits[pos as int]) by {
            assert(bits[pos as int + 0]);
        }
        assert forall|i: int| 0 <= i < j - 1 implies #[trigger] bits[pos as int + 1 + i] by {
            assert(bits[pos as int + (i + 1)]);
        }
        lemma_read_unary_exact(bits, pos + 1, (j - 1) as nat, c + 1);
    }
}

/// Reading `k` in-bounds bits accumulates their binary value.
proof fn lemma_read_bits_exact(bits: Seq<bool>, pos: nat, k: nat, acc: u32)
    requires
        pos + k <= bits.len(),
        acc * pow2(k) + bits_val(bits.subrange(pos as int, (pos + k) as int)) < 0x1_0000_0000,
    ensures
        spec_read_bits_acc(bits, pos, k, acc) == (
            ((acc * pow2(k) + bits_val(bits.subrange(pos as int, (pos + k) as int))) as u32),
            (pos + k) as nat,
        ),
    decreases k,
{
    let sub = bits.subrange(pos as int, (pos + k) as int);
    if k == 0 {
        assert(sub =~= Seq::<bool>::empty());
        lemma2_to64();
        vstd::arithmetic::mul::lemma_mul_basics(acc as int);
    } else {
        let bv: u32 = if bits[pos as int] {
            1
        } else {
            0
        };
        let sub1 = bits.subrange((pos + 1) as int, (pos + k) as int);
        assert(sub =~= seq![bits[pos as int]] + sub1);
        lemma_bits_val_concat(seq![bits[pos as int]], sub1);
        assert(bits_val(seq![bits[pos as int]]) == bv) by {
            assert(seq![bits[pos as int]].drop_last() =~= Seq::<bool>::empty());
            assert(bits_val(Seq::<bool>::empty()) == 0);
            assert(seq![bits[pos as int]].last() == bits[pos as int]);
        }
        let p1 = pow2((k - 1) as nat) as int;
        lemma_pow2_unfold(k);
        lemma_pow2_pos((k - 1) as nat);
        // (2 acc + bv) * 2^(k-1) == acc * 2^k + bv * 2^(k-1)
        assert((2 * acc + bv) * p1 == acc * pow2(k) + bv * p1) by {
            lemma_mul_is_distributive_add(p1, 2 * acc as int, bv as int);
            lemma_mul_is_commutative(p1, 2 * acc as int + bv as int);
            lemma_mul_is_commutative(p1, 2 * acc as int);
            lemma_mul_is_commutative(p1, bv as int);
            assert(2 * acc * p1 == acc * (2 * p1)) by {
                vstd::arithmetic::mul::lemma_mul_is_associative(2, acc as int, p1);
                vstd::arithmetic::mul::lemma_mul_is_associative(acc as int, 2, p1);
                lemma_mul_is_commutative(acc as int, 2);
            }
        }
        assert(bits_val(sub) == bv * p1 + bits_val(sub1));
        // the new accumulator is small enough not to wrap
        assert(2 * acc + bv <= (2 * acc + bv) * p1) by {
            lemma_mul_inequality(1, p1, 2 * acc as int + bv as int);
            lemma_mul_is_commutative(2 * acc as int + bv as int, p1);
            vstd::arithmetic::mul::lemma_mul_basics(2 * acc as int + bv as int);
        }
        assert(bv * p1 >= 0) by {
            vstd::arithmetic::mul::lemma_mul_nonnegative(bv as int, p1);
        }
        let acc2: u32 = (2 * acc + bv) as u32;
        assert(vstd::wrapping::u32_specs::wrapping_add(
            vstd::wrapping::u32_specs::wrapping_mul(acc, 2),
            bv,
        ) == acc2) by {
            lemma_small_mod((acc * 2) as nat, 0x1_0000_0000);
            lemma_mul_is_commutative(acc as int, 2);
        }
        lemma_read_bits_exact(bits, pos + 1, (k - 1) as nat, acc2);
    }
}

/// Decoding one sample whose Rice code sits in the stream at `pos` recovers
/// the zigzag-inverted value and consumes exactly the code.
proof fn lemma_decode_sample_exact(bits: Seq<bool>, pos: nat, u: u32, k: nat)
    requires
        k <= 15,
        (u as nat) / pow2(k) <= 255,
        pos + rice_code(u, k).len() <= bits.len(),
        bits.subrange(pos as int, (pos + rice_code(u, k).len()) as int) == rice_code(u, k),
    ensures
        spec_decode_sample(bits, pos, k) == (
            zigzag_inv(u),
            (pos + rice_code(u, k).len()) as nat,
        ),
{
    let code = rice_code(u, k);
    let q = (u as nat) / pow2(k);
    let rem = (u as nat) % pow2(k);
    lemma_pow2_pos(k);
    lemma_val_bits_len(rem, k);
    assert(code.len() == q + 1 + k);
    assert forall|i: int| 0 <= i < q implies #[trigger] bits[pos + i] by {
        assert(code[i]);
    }
    assert(!bits[(pos + q) as int]) by {
        assert(!code[q as int]);
    }
    lemma_read_unary_exact(bits, pos, q, 0);
    let pos1 = (pos + q + 1) as nat;
    let sub = bits.subrange(pos1 as int, (pos1 + k) as int);
    assert(sub =~= val_bits(rem, k)) by {
        assert forall|i: int| 0 <= i < k implies sub[i] == val_bits(rem, k)[i] by {
            assert(code[q + 1 + i] == val_bits(rem, k)[i]);
            assert(bits[pos + q + 1 + i] == code[q + 1 + i]);
        }
    }
    lemma_mod_division_less_than_divisor(u as int, pow2(k) as int);
    lemma_bits_val_of_val_bits(rem, k);
    assert(0 * pow2(k) + bits_val(sub) < 0x1_0000_0000) by {
        vstd::arithmetic::mul::lemma_mul_basics(pow2(k) as int);
        lemma_pow2_strictly_increases(k, 32);
        lemma2_to64();
    }
    lemma_read_bits_exact(bits, pos1, k, 0);
    assert(spec_read_bits_val(bits, pos1, k) == ((rem as u32), (pos1 + k) as nat)) by {
        vstd::arithmetic::mul::lemma_mul_basics(pow2(k) as int);
    }
    assert(q * pow2(k) + rem == u as nat) by {
        lemma_fundamental_div_mod(u as int, pow2(k) as int);
        lemma_mul_is_commutative(q as int, pow2(k) as int);
    }
    lemma_small_mod(u as nat, 0x1_0000_0000);
    assert(pos < bits.len());
}

/// Decoding a whole Rice stream recovers the zigzag-inverted value sequence.
proof fn lemma_rice_decode_exact(bits: Seq<bool>, pos: nat, us: Seq<u32>, k: nat)
    requires
        k <= 15,
        forall|i: int| 0 <= i < us.len() ==> (#[trigger] us[i] as nat) / pow2(k) <= 255,
        pos + rice_stream(us, k).len() <= bits.len(),
        bits.subrange(pos as int, (pos + rice_stream(us, k).len()) as int) == rice_stream(us, k),
    ensures
        spec_rice_decode(bits, pos, k, us.len()) == us.map_values(|u: u32| zigzag_inv(u)),
    decreases us.len(),
{
    if us.len() == 0 {
        assert(spec_rice_decode(bits, pos, k, 0) =~= us.map_values(|u: u32| zigzag_inv(u)));
    } else {
        lemma_rice_stream_first(us, k);
        let code = rice_code(us[0], k);
        let rest = rice_stream(us.skip(1), k);
        let all = rice_stream(us, k);
        assert(all.len() == code.len() + rest.len());
        assert(bits.subrange(pos as int, (pos + code.len()) as int) =~= code) by {
            assert forall|i: int| 0 <= i < code.len() implies bits[pos + i] == code[i] by {
                assert(all[i] == code[i]);
                assert(bits.subrange(pos as int, (pos + all.len()) as int)[i] == all[i]);
            }
        }
        lemma_decode_sample_exact(bits, pos, us[0], k);
        let pos1 = (pos + code.len()) as nat;
        assert(bits.subrange(pos1 as int, (pos1 + rest.len()) as int) =~= rest) by {
            assert forall|i: int| 0 <= i < rest.len() implies bits[pos1 + i] == rest[i] by {
                assert(all[code.len() + i] == rest[i]);
                assert(bits.subrange(pos as int, (pos + all.len()) as int)[code.len() + i] == all[
                    code.len() + i
                ]);
            }
        }
        assert forall|i: int| 0 <= i < us.skip(1).len() implies (#[trigger] us.skip(1)[i] as nat)
            / pow2(k) <= 255 by {
            assert(us.skip(1)[i] == us[i + 1]);
        }
        lemma_rice_decode_exact(bits, pos1, us.skip(1), k);
        assert(spec_rice_decode(bits, pos, k, us.len()) =~= us.map_values(
            |u: u32| zigzag_inv(u),
        )) by {
            assert(us.skip(1).map_values(|u: u32| zigzag_inv(u)) =~= us.map_values(
                |u: u32| zigzag_inv(u),
            ).skip(1));
        }
    }
}

/// Rice round trip: a byte buffer that begins with the Rice codes of a
/// residual sequence decodes back to exactly that sequence, for any
/// parameter `k` up to 15, provided every zigzagged residual keeps its unary
/// quotient within the 255 cap. The bytes written by `encode_i32` are such a
/// buffer, so `decode_i32(encode_i32(r, k), k, r.len())` returns `r`.
pub proof fn lemma_rice_round_trip(rs: Seq<i32>, k: nat, bytes: Seq<u8>)
    requires
        k <= 15,
        forall|i: int| 0 <= i < rs.len() ==> (zigzag(#[trigger] rs[i]) as nat) / pow2(k) <= 255,
        rice_stream(zigzags(rs), k).len() <= bytes.len() * 8,
        bits_of_bytes(bytes).take(rice_stream(zigzags(rs), k).len() as int) == rice_stream(
            zigzags(rs),
            k,
        ),
    ensures
        spec_rice_decode(bits_of_bytes(bytes), 0, k, rs.len()) == rs,
{
    let stream = bits_of_bytes(bytes);
    let us = zigzags(rs);
    let l = rice_stream(us, k).len() as int;
    assert(stream.subrange(0, l) =~= stream.take(l));
    assert forall|i: int| 0 <= i < us.len() implies (#[trigger] us[i] as nat) / pow2(k)
        <= 255 by {
        assert(us[i] == zigzag(rs[i]));
    }
    lemma_rice_decode_exact(stream, 0, us, k);
    assert(us.map_values(|u: u32| zigzag_inv(u)) =~= rs) by {
        assert forall|i: int| 0 <= i < rs.len() implies us.map_values(|u: u32| zigzag_inv(u))[i]
            == rs[i] by {
            lemma_zigzag_inverse(rs[i]);
        }
    }
}

/// Every Rice code is at least one bit and at most `256 + k` bits long.
pub proof fn lemma_rice_stream_len(us: Seq<u32>, k: nat)
    requires
        k <= 15,
    ensures
        us.len() <= rice_stream(us, k).len() <= us.len() * 272,
    decreases us.len(),
{
    if us.len() > 0 {
        lemma_rice_stream_len(us.drop_last(), k);
        lemma_pow2_pos(k);
        lemma_val_bits_len((us.last() as nat) % pow2(k), k);
        assert(1 <= rice_code(us.last(), k).len() <= 271);
        assert((us.len() - 1) * 272 + 272 == us.len() * 272) by (nonlinear_arith)
            requires
                us.len() >= 1,
        ;
    } else {
        vstd::arithmetic::mul::lemma_mul_basics(272);
    }
}

} // verus!
