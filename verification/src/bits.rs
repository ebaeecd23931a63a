//! MSB-first bit writer and reader.
//!
//! A bit stream is modelled as a `Seq<bool>`. Byte `i` of a byte sequence
//! carries stream bits `8*i .. 8*i + 8`, most significant bit first, so bit
//! `j` of a byte `b` is `(b / 2^(7-j)) % 2`.

use vstd::prelude::*;
use vstd::arithmetic::power2::*;
use vstd::arithmetic::div_mod::*;
use vstd::arithmetic::mul::{
    lemma_mul_is_associative,
    lemma_mul_is_commutative,
    lemma_mul_basics,
    lemma_mul_strict_inequality,
    lemma_mul_inequality,
};

verus! {

/// Bit `j` (0 = most significant) of byte `b`.
pub open spec fn byte_bit(b: u8, j: nat) -> bool
    recommends
        j < 8,
{
    (b as nat / pow2((7 - j) as nat)) % 2 == 1
}

/// All bits of a byte sequence, MSB-first within each byte.
pub open spec fn bits_of_bytes(bytes: Seq<u8>) -> Seq<bool> {
    Seq::new(bytes.len() * 8, |i: int| byte_bit(bytes[i / 8], (i % 8) as nat))
}

/// The value of a bit string read as a big-endian binary number.
pub open spec fn bits_val(bs: Seq<bool>) -> nat
    decreases bs.len(),
{
    if bs.len() == 0 {
        0
    } else {
        2 * bits_val(bs.drop_last()) + (if bs.last() {
            1nat
        } else {
            0nat
        })
    }
}

/// The `k`-bit big-endian bit string of `v % 2^k`.
pub open spec fn val_bits(v: nat, k: nat) -> Seq<bool>
    decreases k,
{
    if k == 0 {
        Seq::empty()
    } else {
        val_bits(v / 2, (k - 1) as nat).push(v % 2 == 1)
    }
}

pub proof fn lemma_val_bits_len(v: nat, k: nat)
    ensures
        val_bits(v, k).len() == k,
    decreases k,
{
    if k > 0 {
        lemma_val_bits_len(v / 2, (k - 1) as nat);
    }
}

/// `pow2(e) == 2 * pow2(e - 1)` for `e > 0`.
pub proof fn lemma_pow2_unfold(e: nat)
    requires
        e > 0,
    ensures
        pow2(e) == 2 * pow2((e - 1) as nat),
{
    lemma_pow2_adds(1, (e - 1) as nat);
    lemma2_to64();
}



/// `bits_val` inverts `val_bits` on values in range.
pub proof fn lemma_bits_val_of_val_bits(v: nat, k: nat)
    requires
        v < pow2(k),
    ensures
        bits_val(val_bits(v, k)) == v,
    decreases k,
{
    if k == 0 {
        lemma2_to64();
    } else {
        lemma_pow2_unfold(k);
        lemma_bits_val_of_val_bits(v / 2, (k - 1) as nat);
        lemma_val_bits_len(v / 2, (k - 1) as nat);
        assert(val_bits(v, k).drop_last() =~= val_bits(v / 2, (k - 1) as nat));
        lemma_fundamental_div_mod(v as int, 2);
    }
}

/// Indexing into `val_bits(v, k)`: bit `j` is `(v / 2^(k-1-j)) % 2`.
pub proof fn lemma_val_bits_index(v: nat, k: nat, j: int)
    requires
        0 <= j < k,
    ensures
        val_bits(v, k).len() == k,
        val_bits(v, k)[j] == ((v / pow2((k - 1 - j) as nat)) % 2 == 1),
    decreases k,
{
    lemma_val_bits_len(v, k);
    if j == k - 1 {
        lemma2_to64();
        assert(v / 1 == v) by {
            lemma_div_basics_1(v as int);
        }
    } else {
        lemma_val_bits_index(v / 2, (k - 1) as nat, j);
        let e = (k - 2 - j) as nat;
        lemma_pow2_unfold((e + 1) as nat);
        lemma_pow2_pos(e);
        lemma_div_denominator(v as int, 2, pow2(e) as int);
    }
}

/// Scaling a value left by `m` zero bits appends `m` false bits to its string.
pub proof fn lemma_val_bits_scale(v: nat, k: nat, m: nat)
    ensures
        val_bits(v * pow2(m), k + m) == val_bits(v, k) + Seq::new(m, |i: int| false),
    decreases m,
{
    if m == 0 {
        lemma2_to64();
        lemma_mul_basics(v as int);
        assert(val_bits(v * pow2(0), k + 0) =~= val_bits(v, k) + Seq::new(0, |i: int| false));
    } else {
        lemma_pow2_unfold(m);
        let w = v * pow2((m - 1) as nat);
        assert(v * pow2(m) == 2 * w) by {
            lemma_mul_is_associative(2, v as int, pow2((m - 1) as nat) as int);
            lemma_mul_is_associative(v as int, 2, pow2((m - 1) as nat) as int);
            lemma_mul_is_commutative(v as int, 2);
        }
        lemma_fundamental_div_mod_converse(2 * w as int, 2, w as int, 0);
        lemma_val_bits_scale(v, k, (m - 1) as nat);
        lemma_val_bits_len(w, (k + m - 1) as nat);
        assert(val_bits(v * pow2(m), k + m) =~= val_bits(v, k) + Seq::new(m, |i: int| false));
    }
}

/// The bits of a pushed byte extend `bits_of_bytes` by that byte's bits.
pub proof fn lemma_bits_of_bytes_push(bytes: Seq<u8>, b: u8)
    ensures
        bits_of_bytes(bytes.push(b)) == bits_of_bytes(bytes) + val_bits(b as nat, 8),
{
    lemma_val_bits_len(b as nat, 8);
    let lhs = bits_of_bytes(bytes.push(b));
    let rhs = bits_of_bytes(bytes) + val_bits(b as nat, 8);
    assert forall|i: int| 0 <= i < lhs.len() implies #[trigger] lhs[i] == rhs[i] by {
        if i < bytes.len() * 8 {
            lemma_mod_division_less_than_divisor(i, 8);
            lemma_div_pos_is_pos(i, 8);
            if i / 8 >= bytes.len() {
                lemma_mul_inequality(bytes.len() as int, i / 8, 8);
                lemma_fundamental_div_mod(i, 8);
                assert(false);
            }
        } else {
            lemma_fundamental_div_mod_converse(i, 8, bytes.len() as int, i - bytes.len() * 8);
            lemma_val_bits_index(b as nat, 8, i - bytes.len() * 8);
        }
    }
    assert(lhs =~= rhs);
}


/// Computes `2^e` as a `u32`.
pub fn pow2_u32(e: u32) -> (r: u32)
    requires
        e < 32,
    ensures
        r == pow2(e as nat),
{
    let mut r: u32 = 1;
    let mut i: u32 = 0;
    proof {
        lemma2_to64();
    }
    while i < e
        invariant
            i <= e < 32,
            r == pow2(i as nat),
        decreases e - i,
    {
        proof {
            if (i as nat) < 31 {
                lemma_pow2_strictly_increases(i as nat, 31);
            }
            lemma2_to64();
            lemma_pow2_unfold((i + 1) as nat);
        }
        r = r * 2;
        i = i + 1;
    }
    r
}

/// Accumulates bits MSB-first and hands the finished bytes out, padding the
/// final partial byte with zero bits.
pub struct BitWriter {
    bytes: Vec<u8>,
    current_byte: u8,
    bit_pos: u8,
}

impl BitWriter {
    /// The bits written so far.
    pub closed spec fn bits(&self) -> Seq<bool> {
        bits_of_bytes(self.bytes@) + val_bits(self.current_byte as nat, self.bit_pos as nat)
    }

    pub closed spec fn wf(&self) -> bool {
        &&& self.bit_pos < 8
        &&& (self.current_byte as nat) < pow2(self.bit_pos as nat)
    }

    pub fn new() -> (w: BitWriter)
        ensures
            w.wf(),
            w.bits() == Seq::<bool>::empty(),
    {
        proof {
            lemma2_to64();
            assert(bits_of_bytes(Seq::<u8>::empty()) + val_bits(0, 0) =~= Seq::<bool>::empty());
        }
        BitWriter { bytes: Vec::new(), current_byte: 0, bit_pos: 0 }
    }

    /// Appends one bit; any nonzero word counts as a one bit.
    pub fn write_bit(&mut self, bit: u32)
        requires
            old(self).wf(),
        ensures
            final(self).wf(),
            final(self).bits() == old(self).bits().push(bit != 0),
    {
        proof {
            if (self.bit_pos as nat) < 7 {
                lemma_pow2_strictly_increases(self.bit_pos as nat, 7);
            }
            lemma2_to64();
        }
        let b: u8 = if bit != 0 {
            1
        } else {
            0
        };
        let newv: u8 = self.current_byte * 2 + b;
        proof {
            lemma_val_bits_len(self.current_byte as nat, self.bit_pos as nat);
            lemma_fundamental_div_mod_converse(
                newv as int,
                2,
                self.current_byte as int,
                b as int,
            );
            assert(val_bits(newv as nat, (self.bit_pos + 1) as nat) =~= val_bits(
                self.current_byte as nat,
                self.bit_pos as nat,
            ).push(bit != 0));
        }
        if self.bit_pos == 7 {
            proof {
                lemma_bits_of_bytes_push(self.bytes@, newv);
                lemma2_to64();
            }
            self.bytes.push(newv);
            self.current_byte = 0;
            self.bit_pos = 0;
            proof {
                assert(val_bits(0, 0) =~= Seq::<bool>::empty());
                assert(self.bits() =~= old(self).bits().push(bit != 0));
            }
        } else {
            proof {
                lemma_pow2_unfold((self.bit_pos + 1) as nat);
            }
            self.current_byte = newv;
            self.bit_pos = self.bit_pos + 1;
            proof {
                assert(self.bits() =~= old(self).bits().push(bit != 0));
            }
        }
    }

    /// Writes the low `num_bits` bits of `value`, most significant first.
    pub fn write_bits(&mut self, value: u32, num_bits: u8)
        requires
            old(self).wf(),
            num_bits <= 32,
        ensures
            final(self).wf(),
            final(self).bits() == old(self).bits() + val_bits(value as nat, num_bits as nat),
    {
        let ghost target = val_bits(value as nat, num_bits as nat);
        proof {
            lemma_val_bits_len(value as nat, num_bits as nat);
        }
        let mut j: u8 = 0;
        while j < num_bits
            invariant
                self.wf(),
                j <= num_bits <= 32,
                target.len() == num_bits,
                target == val_bits(value as nat, num_bits as nat),
                self.bits() == old(self).bits() + target.take(j as int),
            decreases num_bits - j,
        {
            let e: u32 = (num_bits - 1 - j) as u32;
            let p: u32 = pow2_u32(e);
            proof {
                lemma_pow2_pos(e as nat);
            }
            let bit: u32 = (value / p) % 2;
            proof {
                lemma_val_bits_index(value as nat, num_bits as nat, j as int);
                assert(target[j as int] == (bit == 1));
            }
            self.write_bit(bit);
            j = j + 1;
            proof {
                assert(target.take(j as int) =~= target.take(j - 1).push(target[j - 1]));
                assert(self.bits() =~= old(self).bits() + target.take(j as int));
            }
        }
        proof {
            assert(target.take(num_bits as int) =~= target);
        }
    }

    /// Flushes the final partial byte (zero-padded) and returns the bytes.
    pub fn into_bytes(self) -> (out: Vec<u8>)
        requires
            self.wf(),
        ensures
            self.bits().len() <= out@.len() * 8 < self.bits().len() + 8,
            bits_of_bytes(out@).take(self.bits().len() as int) == self.bits(),
            forall|i: int|
                self.bits().len() <= i < out@.len() * 8 ==> !#[trigger] bits_of_bytes(out@)[i],
    {
        let BitWriter { mut bytes, current_byte, bit_pos } = self;
        let ghost n0 = bytes@.len();
        let ghost pend = val_bits(current_byte as nat, bit_pos as nat);
        let ghost oldbits = bits_of_bytes(bytes@) + pend;
        proof {
            lemma_val_bits_len(current_byte as nat, bit_pos as nat);
        }
        if bit_pos > 0 {
            let e: u32 = (8 - bit_pos) as u32;
            let p: u32 = pow2_u32(e);
            proof {
                lemma_pow2_adds(bit_pos as nat, e as nat);
                lemma2_to64();
                lemma_mul_strict_inequality(
                    current_byte as int,
                    pow2(bit_pos as nat) as int,
                    pow2(e as nat) as int,
                );
            }
            let padded: u8 = ((current_byte as u32) * p) as u8;
            proof {
                lemma_val_bits_scale(current_byte as nat, bit_pos as nat, e as nat);
                lemma_bits_of_bytes_push(bytes@, padded);
            }
            bytes.push(padded);
            proof {
                assert(bits_of_bytes(bytes@) =~= oldbits + Seq::new(e as nat, |i: int| false));
                assert(bits_of_bytes(bytes@).take(oldbits.len() as int) =~= oldbits);
            }
        } else {
            proof {
                assert(oldbits =~= bits_of_bytes(bytes@));
                assert(bits_of_bytes(bytes@).take(oldbits.len() as int) =~= oldbits);
            }
        }
        bytes
    }

    /// Number of bytes `into_bytes` would return.
    pub fn byte_count(&self) -> (n: usize)
        requires
            self.wf(),
            self.bits().len() + 8 <= usize::MAX,
        ensures
            self.bits().len() <= n * 8 < self.bits().len() + 8,
    {
        proof {
            lemma_val_bits_len(self.current_byte as nat, self.bit_pos as nat);
        }
        if self.bit_pos > 0 {
            self.bytes.len() + 1
        } else {
            self.bytes.len()
        }
    }
}

/// Reads bits MSB-first out of a byte slice; reads past the end return zero.
pub struct BitReader<'a> {
    bytes: &'a [u8],
    byte_pos: usize,
    bit_pos: u8,
}

impl<'a> BitReader<'a> {
    /// The whole underlying bit stream.
    pub closed spec fn stream(&self) -> Seq<bool> {
        bits_of_bytes(self.bytes@)
    }

    /// The current position in the stream.
    pub closed spec fn pos(&self) -> nat {
        self.byte_pos as nat * 8 + self.bit_pos as nat
    }

    pub closed spec fn wf(&self) -> bool {
        &&& self.bit_pos < 8
        &&& (self.byte_pos < self.bytes@.len() || (self.byte_pos == self.bytes@.len()
            && self.bit_pos == 0))
    }

    pub fn new(bytes: &'a [u8]) -> (r: BitReader<'a>)
        ensures
            r.wf(),
            r.stream() == bits_of_bytes(bytes@),
            r.pos() == 0,
    {
        BitReader { bytes, byte_pos: 0, bit_pos: 0 }
    }

    /// True when every bit has been consumed.
    pub fn is_exhausted(&self) -> (r: bool)
        requires
            self.wf(),
        ensures
            r == (self.pos() >= self.stream().len()),
    {
        proof {
            if self.byte_pos < self.bytes@.len() {
                lemma_mul_strict_inequality(self.byte_pos as int, self.bytes@.len() as int, 8);
            }
        }
        self.byte_pos >= self.bytes.len()
    }

    /// Bytes not yet fully consumed, the byte under the cursor included.
    pub fn remaining_bytes(&self) -> (n: usize)
        requires
            self.wf(),
        ensures
            self.stream().len() - self.pos() <= n * 8 < self.stream().len() - self.pos() + 8,
    {
        if self.byte_pos >= self.bytes.len() {
            0
        } else {
            self.bytes.len() - self.byte_pos
        }
    }

    /// Reads one bit; returns 0 without advancing when exhausted.
    pub fn read_bit(&mut self) -> (bit: u32)
        requires
            old(self).wf(),
        ensures
            final(self).wf(),
            final(self).stream() == old(self).stream(),
            old(self).pos() < old(self).stream().len() ==> {
                &&& bit == (if old(self).stream()[old(self).pos() as int] {
                    1u32
                } else {
                    0u32
                })
                &&& final(self).pos() == old(self).pos() + 1
            },
            old(self).pos() >= old(self).stream().len() ==> bit == 0 && final(self).pos() == old(
                self,
            ).pos(),
            bit == 0 || bit == 1,
    {
        if self.byte_pos >= self.bytes.len() {
            return 0;
        }
        proof {
            lemma_mul_strict_inequality(self.byte_pos as int, self.bytes@.len() as int, 8);
        }
        let b: u8 = self.bytes[self.byte_pos];
        let e: u32 = (7 - self.bit_pos) as u32;
        let p: u32 = pow2_u32(e);
        proof {
            lemma_pow2_pos(e as nat);
        }
        let bit: u32 = ((b as u32) / p) % 2;
        proof {
            let i = self.pos() as int;
            lemma_fundamental_div_mod_converse(i, 8, self.byte_pos as int, self.bit_pos as int);
            assert(old(self).stream()[i] == byte_bit(b, self.bit_pos as nat));
        }
        if self.bit_pos == 7 {
            self.bit_pos = 0;
            self.byte_pos = self.byte_pos + 1;
        } else {
            self.bit_pos = self.bit_pos + 1;
        }
        bit
    }

    /// Reads `num_bits` bits MSB-first into the low bits of a word.
    pub fn read_bits(&mut self, num_bits: u8) -> (value: u32)
        requires
            old(self).wf(),
        ensures
            final(self).wf(),
            final(self).stream() == old(self).stream(),
            (value, final(self).pos()) == spec_read_bits_val(
                old(self).stream(),
                old(self).pos(),
                num_bits as nat,
            ),
    {
        let mut value: u32 = 0;
        let mut j: u8 = 0;
        while j < num_bits
            invariant
                self.wf(),
                j <= num_bits,
                self.stream() == old(self).stream(),
                spec_read_bits_val(old(self).stream(), old(self).pos(), num_bits as nat)
                    == spec_read_bits_acc(
                    self.stream(),
                    self.pos(),
                    (num_bits - j) as nat,
                    value,
                ),
            decreases num_bits - j,
        {
            let bit: u32 = self.read_bit();
            value = value.wrapping_mul(2).wrapping_add(bit);
            j = j + 1;
        }
        value
    }
}

/// Reading `k` bits starting at `pos`: MSB-first accumulation, wrapping at
/// 32 bits; reads past the end yield zero bits and do not advance.
pub open spec fn spec_read_bits_val(bits: Seq<bool>, pos: nat, k: nat) -> (u32, nat) {
    spec_read_bits_acc(bits, pos, k, 0)
}

pub open spec fn spec_read_bits_acc(bits: Seq<bool>, pos: nat, k: nat, acc: u32) -> (u32, nat)
    decreases k,
{
    if k == 0 {
        (acc, pos)
    } else if pos < bits.len() {
        let b: u32 = if bits[pos as int] {
            1
        } else {
            0
        };
        spec_read_bits_acc(
            bits,
            pos + 1,
            (k - 1) as nat,
            vstd::wrapping::u32_specs::wrapping_add(
                vstd::wrapping::u32_specs::wrapping_mul(acc, 2),
                b,
            ),
        )
    } else {
        spec_read_bits_acc(
            bits,
            pos,
            (k - 1) as nat,
            vstd::wrapping::u32_specs::wrapping_mul(acc, 2),
        )
    }
}

} // verus!
