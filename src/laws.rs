use vstd::arithmetic::power2::lemma2_to64;
use vstd::prelude::*;

use crate::keep::{keep, lemma_keep_all, lemma_keep_at, lemma_keep_window};
use crate::matrix::{occurrences, same_symbol};
use crate::symbol::trunc;

verus! {

/// Counting occurrences of `c` over a prefix: none in the empty prefix, and
/// never fewer in a longer prefix.
pub proof fn lemma_rank_monotone(text: Seq<u64>, size: nat, c: u64, k1: int, k2: int)
    requires
        0 <= k1 <= k2 <= text.len(),
    ensures
        occurrences(text, size, c, 0) == 0,
        occurrences(text, size, c, k1) <= occurrences(text, size, c, k2),
{
    lemma_keep_window(text, k1, k2, same_symbol(c, size));
}

/// Two positions that hold `c`, with fewer occurrences of `c` before the
/// first than before the second, come in that order: selecting a later
/// occurrence gives a later position.
pub proof fn lemma_select_increasing(text: Seq<u64>, size: nat, c: u64, p1: int, p2: int)
    requires
        0 <= p1 < text.len(),
        0 <= p2 < text.len(),
        trunc(text[p1], size) == trunc(c, size),
        trunc(text[p2], size) == trunc(c, size),
        occurrences(text, size, c, p1) < occurrences(text, size, c, p2),
    ensures
        p1 < p2,
{
    if p2 < p1 {
        let q = same_symbol(c, size);
        assert(q(text[p2]));
        lemma_keep_at(text, p2, q);
        lemma_keep_window(text, p2 + 1, p1, q);
        assert(text.subrange(0, p2 + 1).len() == p2 + 1);
    }
}

/// A sequence with no elements holds no occurrence of any symbol, whatever
/// prefix length is asked for.
pub proof fn lemma_empty(text: Seq<u64>, size: nat, c: u64, k: nat)
    requires
        text.len() == 0,
    ensures
        occurrences(text, size, c, if k < text.len() { k as int } else { text.len() as int }) == 0,
{
}

/// With no bits kept every symbol is 0, so every position holds every symbol.
pub proof fn lemma_zero_width(text: Seq<u64>, c: u64)
    ensures
        forall|i: int| 0 <= i < text.len() ==> trunc(#[trigger] text[i], 0) == 0,
        occurrences(text, 0, c, text.len() as int) == text.len(),
{
    lemma2_to64();
    let all = text.subrange(0, text.len() as int);
    assert forall|i: int| 0 <= i < all.len() implies #[trigger] same_symbol(c, 0)(all[i]) by {
        assert(trunc(all[i], 0) == 0);
        assert(trunc(c, 0) == 0);
    }
    lemma_keep_all(all, same_symbol(c, 0));
}

} // verus!
