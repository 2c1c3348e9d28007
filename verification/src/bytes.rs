//! Little-endian integer reads over a byte buffer.

use vstd::prelude::*;
use vstd::slice::slice_index_get;

verus! {

/// The unsigned 32-bit little-endian value stored at `s[i..i+4]`.
pub open spec fn le_u32_at(s: Seq<u8>, i: int) -> int
    recommends
        0 <= i,
        i + 4 <= s.len(),
{
    s[i] as int + s[i + 1] as int * 0x100 + s[i + 2] as int * 0x10000 + s[i + 3] as int
        * 0x1000000
}

/// The signed (two's complement) 32-bit little-endian value stored at `s[i..i+4]`.
pub open spec fn le_i32_at(s: Seq<u8>, i: int) -> int
    recommends
        0 <= i,
        i + 4 <= s.len(),
{
    if le_u32_at(s, i) < 0x8000_0000 {
        le_u32_at(s, i)
    } else {
        le_u32_at(s, i) - 0x1_0000_0000
    }
}

pub fn read_u32_le(input: &[u8], i: usize) -> (r: u32)
    requires
        i + 4 <= input@.len(),
    ensures
        r as int == le_u32_at(input@, i as int),
{
    let n: usize = input.len();
    assert(i + 4 <= n);
    let b0 = *slice_index_get(input, i);
    let b1 = *slice_index_get(input, i + 1);
    let b2 = *slice_index_get(input, i + 2);
    let b3 = *slice_index_get(input, i + 3);
    (b0 as u32) + (b1 as u32) * 0x100 + (b2 as u32) * 0x10000 + (b3 as u32) * 0x1000000
}

pub fn read_i32_le(input: &[u8], i: usize) -> (r: i32)
    requires
        i + 4 <= input@.len(),
    ensures
        r as int == le_i32_at(input@, i as int),
{
    let u = read_u32_le(input, i);
    proof {
        assert(u < 0x8000_0000u32 ==> (u as i32) as int == u as int) by (bit_vector);
        assert(u >= 0x8000_0000u32 ==> (u as i32) as int == u as int - 0x1_0000_0000) by (bit_vector);
    }
    #[verifier::truncate] (u as i32)
}

} // verus!
