use vstd::prelude::*;

verus! {

/// Number of one bits among the lowest `k` bits of `x`.
pub open spec fn ones_below(x: u64, k: nat) -> nat
    decreases k,
{
    if k == 0 {
        0
    } else {
        ones_below(x, (k - 1) as nat) + (((x >> ((k - 1) as u64)) & 1u64) as nat)
    }
}

/// Hamming distance of two 64-bit fingerprints: the number of bits in which
/// they differ.
pub open spec fn hamming(a: u64, b: u64) -> nat {
    ones_below(a ^ b, 64)
}

/// Counts the bits in which two fingerprints differ.
pub fn hamming_distance(a: u64, b: u64) -> (r: u32)
    ensures
        r as nat == hamming(a, b),
        r <= 64,
{
    let x: u64 = a ^ b;
    let mut c: u32 = 0;
    let mut k: u64 = 0;
    while k < 64
        invariant
            k <= 64,
            c as nat == ones_below(x, k as nat),
            c <= k,
        decreases 64 - k,
    {
        let bit: u64 = (x >> k) & 1u64;
        assert(bit <= 1) by (bit_vector)
            requires bit == (x >> k) & 1u64;
        c = c + bit as u32;
        k = k + 1;
    }
    c
}

} // verus!
