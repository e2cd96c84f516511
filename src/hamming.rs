//! Hamming distance between binary descriptors held as byte strings.
use vstd::prelude::*;

verus! {

/// Bit `i` (0 is the least significant) of byte `b`.
pub open spec fn bit_of(b: u8, i: nat) -> bool {
    (b >> (i as u8)) & 1u8 == 1u8
}

/// Number of positions below `n` at which the bits of `a` and `b` differ.
pub open spec fn byte_diff_upto(a: u8, b: u8, n: nat) -> nat
    decreases n,
{
    if n == 0 {
        0
    } else {
        byte_diff_upto(a, b, (n - 1) as nat) + if bit_of(a, (n - 1) as nat) != bit_of(
            b,
            (n - 1) as nat,
        ) {
            1nat
        } else {
            0nat
        }
    }
}

/// Number of differing bits between two bytes.
pub open spec fn byte_distance(a: u8, b: u8) -> nat {
    byte_diff_upto(a, b, 8)
}

/// Sum of the byte distances over the first `n` bytes.
pub open spec fn hamming_upto(a: Seq<u8>, b: Seq<u8>, n: nat) -> nat
    decreases n,
{
    if n == 0 {
        0
    } else {
        hamming_upto(a, b, (n - 1) as nat) + byte_distance(a[n - 1], b[n - 1])
    }
}

/// Number of differing bits between two byte strings of equal length.
pub open spec fn hamming(a: Seq<u8>, b: Seq<u8>) -> nat {
    hamming_upto(a, b, a.len())
}

proof fn lemma_byte_diff_bound(a: u8, b: u8, n: nat)
    ensures
        byte_diff_upto(a, b, n) <= n,
    decreases n,
{
    if n > 0 {
        lemma_byte_diff_bound(a, b, (n - 1) as nat);
    }
}

pub proof fn lemma_hamming_bound(a: Seq<u8>, b: Seq<u8>, n: nat)
    ensures
        hamming_upto(a, b, n) <= 8 * n,
    decreases n,
{
    if n > 0 {
        lemma_hamming_bound(a, b, (n - 1) as nat);
        lemma_byte_diff_bound(a[n - 1], b[n - 1], 8);
    }
}

/// A descriptor is at distance zero from itself.
pub proof fn lemma_hamming_self(a: Seq<u8>)
    ensures
        hamming(a, a) == 0,
{
    lemma_hamming_self_upto(a, a.len());
}

proof fn lemma_hamming_self_upto(a: Seq<u8>, n: nat)
    ensures
        hamming_upto(a, a, n) == 0,
    decreases n,
{
    if n > 0 {
        lemma_hamming_self_upto(a, (n - 1) as nat);
        lemma_byte_self(a[n - 1], 8);
    }
}

proof fn lemma_byte_self(x: u8, n: nat)
    ensures
        byte_diff_upto(x, x, n) == 0,
    decreases n,
{
    if n > 0 {
        lemma_byte_self(x, (n - 1) as nat);
    }
}

/// Number of differing bits between two bytes.
pub fn byte_distance_exec(a: u8, b: u8) -> (r: u32)
    ensures
        r == byte_distance(a, b),
{
    let mut r: u32 = 0;
    let mut i: u8 = 0;
    while i < 8
        invariant
            i <= 8,
            r == byte_diff_upto(a, b, i as nat),
            r <= i,
        decreases 8 - i,
    {
        proof {
            lemma_byte_diff_bound(a, b, (i + 1) as nat);
            assert(((a >> i) & 1u8 != (b >> i) & 1u8) == (((a >> i) & 1u8 == 1u8) != ((b >> i)
                & 1u8 == 1u8))) by (bit_vector);
        }
        if (a >> i) & 1u8 != (b >> i) & 1u8 {
            r = r + 1;
        }
        i = i + 1;
    }
    r
}

/// Number of differing bits between two byte strings of equal length.
pub fn hamming_distance(a: &[u8], b: &[u8]) -> (r: usize)
    requires
        a@.len() == b@.len(),
        a@.len() <= usize::MAX / 8,
    ensures
        r == hamming(a@, b@),
{
    let mut r: usize = 0;
    let mut i: usize = 0;
    while i < a.len()
        invariant
            a@.len() == b@.len(),
            a@.len() <= usize::MAX / 8,
            i <= a@.len(),
            r == hamming_upto(a@, b@, i as nat),
        decreases a@.len() - i,
    {
        proof {
            lemma_hamming_bound(a@, b@, (i + 1) as nat);
        }
        let d = byte_distance_exec(a[i], b[i]);
        r = r + d as usize;
        i = i + 1;
    }
    r
}

} // verus!
