//! Small division facts shared by the word-indexed bitset and the paged
//! sparse array.

use vstd::prelude::*;

verus! {

/// Splitting an index `i` by a chunk size `d` into `i / d` and `i % d` is
/// exact, and the remainder stays below `d`.
pub proof fn lemma_split_index(i: int, d: int)
    requires
        0 <= i,
        0 < d,
    ensures
        i == d * (i / d) + i % d,
        0 <= i % d < d,
        0 <= i / d,
{
    vstd::arithmetic::div_mod::lemma_fundamental_div_mod(i, d);
    vstd::arithmetic::div_mod::lemma_mod_division_less_than_divisor(i, d);
    vstd::arithmetic::div_mod::lemma_div_pos_is_pos(i, d);
}

/// An index below `len` falls into one of the `(len + d - 1) / d` chunks of
/// size `d` that cover `0 .. len`.
pub proof fn lemma_index_chunk_bound(i: int, len: int, d: int)
    requires
        0 <= i < len,
        0 < d,
    ensures
        i / d < (len + d - 1) / d,
{
    lemma_split_index(i, d);
    vstd::arithmetic::div_mod::lemma_hoist_over_denominator(i, 1, d as nat);
    vstd::arithmetic::div_mod::lemma_div_is_ordered(i + d, len + d - 1, d);
}

/// Recomposing a chunk number and an offset is inverted exactly by
/// division and remainder.
pub proof fn lemma_chunk_recompose(p: int, o: int, d: int)
    requires
        0 <= p,
        0 <= o < d,
    ensures
        (p * d + o) / d == p,
        (p * d + o) % d == o,
{
    vstd::arithmetic::div_mod::lemma_fundamental_div_mod_converse(p * d + o, d, p, o);
}

} // verus!
