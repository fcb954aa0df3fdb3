use vstd::arithmetic::power::pow;
use vstd::arithmetic::power2::{lemma2_to64, lemma_pow2, lemma_pow2_unfold, pow2};
use vstd::prelude::*;

verus! {

/// Number of significant bits of `x`: zero for zero, otherwise one more than
/// the index of the highest set bit.
pub open spec fn bit_len(x: nat) -> nat
    decreases x,
{
    if x == 0 {
        0
    } else {
        1 + bit_len(x / 2)
    }
}

/// A number below `2^k` has at most `k` significant bits.
pub proof fn lemma_bit_len_bound(x: nat, k: nat)
    requires
        x < pow2(k),
    ensures
        bit_len(x) <= k,
    decreases k,
{
    if x > 0 {
        if k == 0 {
            assert(pow2(0) == 1) by {
                lemma_pow2(0);
                reveal(pow);
            }
        } else {
            lemma_pow2_unfold(k);
            lemma_bit_len_bound(x / 2, (k - 1) as nat);
        }
    }
}

/// Bit length of `x`, the cost a key pays for the keys it cannot yet be told
/// apart from.
pub fn roughly_log_2(x: usize) -> (r: usize)
    ensures
        r as nat == bit_len(x as nat),
        r <= 64,
{
    proof {
        lemma2_to64();
        lemma_bit_len_bound(x as nat, 64);
    }
    let mut y: usize = x;
    let mut n: usize = 0;
    while y > 0
        invariant
            n + bit_len(y as nat) == bit_len(x as nat),
            bit_len(x as nat) <= 64,
        decreases y,
    {
        y = y / 2;
        n = n + 1;
    }
    n
}

} // verus!
