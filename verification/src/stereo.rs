//! Mid-side stereo coding: `mid = L + R`, `side = L - R`, decoded by
//! truncating halving, which is exact because `mid + side` and `mid - side`
//! are always even.

use vstd::prelude::*;
use vstd::arithmetic::div_mod::*;

verus! {

/// Truncating division by two (rounds toward zero).
pub open spec fn div2_trunc(d: int) -> int {
    if d >= 0 {
        d / 2
    } else {
        -((-d) / 2)
    }
}

/// The decoded left channel value for a mid/side pair.
pub open spec fn ms_left(m: i32, s: i32) -> int {
    div2_trunc(m + s)
}

/// The decoded right channel value for a mid/side pair.
pub open spec fn ms_right(m: i32, s: i32) -> int {
    div2_trunc(m - s)
}

/// Mid-side bijection: for any left/right pair in 16-bit range, encoding to
/// `(L + R, L - R)` and halving the sum and difference recovers the pair
/// exactly in integer arithmetic.
pub proof fn lemma_mid_side_bijection(l: i32, r: i32)
    requires
        -0x8000 <= l <= 0x7fff,
        -0x8000 <= r <= 0x7fff,
    ensures
        ms_left((l + r) as i32, (l - r) as i32) == l,
        ms_right((l + r) as i32, (l - r) as i32) == r,
{
    lemma_div2_exact(l as int);
    lemma_div2_exact(r as int);
}

proof fn lemma_div2_exact(x: int)
    ensures
        div2_trunc(2 * x) == x,
{
    if x >= 0 {
        lemma_div_by_multiple(x, 2);
    } else {
        lemma_div_by_multiple(-x, 2);
    }
}

/// Converts a left/right channel pair into mid/side, exactly, for samples
/// in 16-bit range.
pub fn to_mid_side(left: &Vec<i32>, right: &Vec<i32>) -> (out: (Vec<i32>, Vec<i32>))
    requires
        left@.len() == right@.len(),
        forall|i: int| 0 <= i < left@.len() ==> -0x8000 <= #[trigger] left@[i] <= 0x7fff,
        forall|i: int| 0 <= i < right@.len() ==> -0x8000 <= #[trigger] right@[i] <= 0x7fff,
    ensures
        out.0@.len() == left@.len(),
        out.1@.len() == left@.len(),
        forall|i: int|
            0 <= i < left@.len() ==> #[trigger] out.0@[i] == left@[i] + right@[i] && out.1@[i]
                == left@[i] - right@[i],
{
    let mut mid: Vec<i32> = Vec::new();
    let mut side: Vec<i32> = Vec::new();
    let mut i: usize = 0;
    while i < left.len()
        invariant
            i <= left@.len(),
            left@.len() == right@.len(),
            mid@.len() == i,
            side@.len() == i,
            forall|j: int| 0 <= j < left@.len() ==> -0x8000 <= #[trigger] left@[j] <= 0x7fff,
            forall|j: int| 0 <= j < right@.len() ==> -0x8000 <= #[trigger] right@[j] <= 0x7fff,
            forall|j: int|
                0 <= j < i ==> #[trigger] mid@[j] == left@[j] + right@[j] && side@[j] == left@[j]
                    - right@[j],
        decreases left@.len() - i,
    {
        mid.push(left[i] + right[i]);
        side.push(left[i] - right[i]);
        i = i + 1;
    }
    (mid, side)
}

/// Converts mid/side channels back to left/right by truncating halving.
pub fn decode_mid_side(mid: &Vec<i32>, side: &Vec<i32>) -> (out: (Vec<i32>, Vec<i32>))
    requires
        mid@.len() == side@.len(),
    ensures
        out.0@.len() == mid@.len(),
        out.1@.len() == mid@.len(),
        forall|i: int|
            0 <= i < mid@.len() ==> #[trigger] out.0@[i] == ms_left(mid@[i], side@[i])
                && out.1@[i] == ms_right(mid@[i], side@[i]),
{
    let mut left: Vec<i32> = Vec::new();
    let mut right: Vec<i32> = Vec::new();
    let mut i: usize = 0;
    while i < mid.len()
        invariant
            i <= mid@.len(),
            mid@.len() == side@.len(),
            left@.len() == i,
            right@.len() == i,
            forall|j: int|
                0 <= j < i ==> #[trigger] left@[j] == ms_left(mid@[j], side@[j]) && right@[j]
                    == ms_right(mid@[j], side@[j]),
        decreases mid@.len() - i,
    {
        let m: i64 = mid[i] as i64;
        let s: i64 = side[i] as i64;
        left.push(div2_trunc_i64(m + s));
        right.push(div2_trunc_i64(m - s));
        i = i + 1;
    }
    (left, right)
}

/// Truncating halving of a value made of the sum or difference of two `i32`.
fn div2_trunc_i64(d: i64) -> (r: i32)
    requires
        -0x1_0000_0000 <= d < 0x1_0000_0000,
    ensures
        r == div2_trunc(d as int),
{
    if d >= 0 {
        let h: u64 = (d as u64) / 2;
        proof {
            lemma_div_is_ordered(h as int, 0xffff_ffff, 2);
        }
        h as i32
    } else {
        let h: u64 = ((-d) as u64) / 2;
        proof {
            lemma_div_is_ordered(-d as int, 0x1_0000_0000, 2);
        }
        let v: i64 = -(h as i64);
        v as i32
    }
}

} // verus!
