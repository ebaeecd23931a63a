//! CRC-32 over the reflected polynomial `0xEDB88320`, initial value
//! `0xFFFFFFFF`, final complement: the checksum guarding the DATA chunk.

use vstd::prelude::*;

verus! {

/// One shift-and-conditionally-xor step of the bitwise CRC-32 computation.
pub open spec fn crc32_step(c: u32) -> u32 {
    if c & 1 == 1 {
        (c >> 1u32) ^ 0xedb8_8320u32
    } else {
        c >> 1u32
    }
}

/// `n` CRC bit steps applied in sequence.
pub open spec fn crc32_steps(c: u32, n: nat) -> u32
    decreases n,
{
    if n == 0 {
        c
    } else {
        crc32_steps(crc32_step(c), (n - 1) as nat)
    }
}

/// The CRC state after absorbing every byte of `bytes` into state `c`.
pub open spec fn crc32_fold(bytes: Seq<u8>, c: u32) -> u32
    decreases bytes.len(),
{
    if bytes.len() == 0 {
        c
    } else {
        crc32_fold(bytes.skip(1), crc32_steps(c ^ (bytes[0] as u32), 8))
    }
}

/// The CRC-32 of a byte sequence.
pub open spec fn spec_crc32(bytes: Seq<u8>) -> u32 {
    crc32_fold(bytes, 0xffff_ffffu32) ^ 0xffff_ffffu32
}

/// Computes the CRC-32 of a byte slice.
pub fn compute(data: &[u8]) -> (crc: u32)
    ensures
        crc == spec_crc32(data@),
{
    let mut c: u32 = 0xffff_ffff;
    let mut i: usize = 0;
    proof {
        assert(data@.skip(0) =~= data@);
    }
    while i < data.len()
        invariant
            i <= data@.len(),
            crc32_fold(data@.skip(i as int), c) == crc32_fold(data@, 0xffff_ffffu32),
        decreases data@.len() - i,
    {
        let ghost pre = data@.skip(i as int);
        let mut b: u32 = c ^ (data[i] as u32);
        let mut j: u8 = 0;
        while j < 8
            invariant
                j <= 8,
                crc32_steps(b, (8 - j) as nat) == crc32_steps(
                    c ^ (data@[i as int] as u32),
                    8,
                ),
                i < data@.len(),
                c == c,
        decreases 8 - j,
        {
            b = if b & 1 == 1 {
                (b >> 1u32) ^ 0xedb8_8320u32
            } else {
                b >> 1u32
            };
            j = j + 1;
        }
        c = b;
        i = i + 1;
        proof {
            assert(pre.skip(1) =~= data@.skip(i as int));
            assert(pre[0] == data@[i - 1]);
        }
    }
    proof {
        assert(data@.skip(data@.len() as int) =~= Seq::<u8>::empty());
    }
    c ^ 0xffff_ffff
}

} // verus!
