use std::marker::PhantomData;

use fid::BitVector;
use vstd::arithmetic::power2::pow2;
use vstd::prelude::*;

use crate::bitvec::{
    bits_of, bv_get, bv_new, bv_push, bv_rank, bv_select0, bv_select1, is_bit, rank_in,
};
use crate::keep::{
    keep, lemma_keep_add, lemma_keep_all, lemma_keep_at, lemma_keep_complement, lemma_keep_ext,
    lemma_keep_keep, lemma_keep_len, lemma_keep_map_len, lemma_keep_pred, lemma_keep_push,
    lemma_keep_split, lemma_keep_window,
};
use crate::symbol::{
    bit_at, bit_of, lemma_bit_range, lemma_top_full, lemma_top_le, lemma_top_step, lemma_top_zero,
    lemma_trunc_bound, top, trunc, Symbol,
};

verus! {

/// Values whose bit `j` is `b`.
pub open spec fn bit_is(j: nat, b: nat) -> spec_fn(u64) -> bool {
    |x: u64| bit_at(x, j) == b
}

/// Whether bit `j` of a value is set.
pub open spec fn bit_set(j: nat) -> spec_fn(u64) -> bool {
    |x: u64| bit_at(x, j) == 1
}

/// Values that agree with `c` on the highest `r` of the low `size` bits.
pub open spec fn same_top(c: u64, size: nat, r: nat) -> spec_fn(u64) -> bool {
    |x: u64| top(x, size, r) == top(c, size, r)
}

/// Values equal to `c` once both are cut to `size` bits.
pub open spec fn same_symbol(c: u64, size: nat) -> spec_fn(u64) -> bool {
    |x: u64| trunc(x, size) == trunc(c, size)
}

/// The sequence as row `r` holds it: `text` stably partitioned by bit
/// `size - 1`, then by bit `size - 2`, and so on for `r` passes, zeros first.
pub open spec fn level(text: Seq<u64>, size: nat, r: nat) -> Seq<u64>
    decreases r,
{
    if r == 0 {
        text
    } else {
        let prev = level(text, size, (r - 1) as nat);
        let j = (size - r) as nat;
        keep(prev, bit_is(j, 0)) + keep(prev, bit_is(j, 1))
    }
}

/// The bits of row `r`: bit `size - r - 1` of each element of its level.
pub open spec fn row_bits(text: Seq<u64>, size: nat, r: nat) -> Seq<bool> {
    level(text, size, r).map_values(bit_set((size - r - 1) as nat))
}

/// The number of zeros in row `r`, where the ones start in row `r + 1`.
pub open spec fn zeros_at(text: Seq<u64>, size: nat, r: nat) -> nat {
    keep(level(text, size, r), bit_is((size - r - 1) as nat, 0)).len()
}

/// The number of positions before `k` in `text` that hold `c`, both cut to
/// `size` bits.
pub open spec fn occurrences(text: Seq<u64>, size: nat, c: u64, k: int) -> nat {
    keep(text.subrange(0, k), same_symbol(c, size)).len()
}

proof fn lemma_bit_split(j: nat)
    ensures
        forall|x: u64| #[trigger] bit_is(j, 1)(x) == !bit_is(j, 0)(x),
{
    assert forall|x: u64| #[trigger] bit_is(j, 1)(x) == !bit_is(j, 0)(x) by {
        lemma_bit_range(x, j);
    }
}

/// Every level is a rearrangement of the whole sequence, so it has its length.
proof fn lemma_level_len(text: Seq<u64>, size: nat, r: nat)
    ensures
        level(text, size, r).len() == text.len(),
    decreases r,
{
    if r > 0 {
        let j = (size - r) as nat;
        lemma_level_len(text, size, (r - 1) as nat);
        lemma_bit_split(j);
        lemma_keep_complement(level(text, size, (r - 1) as nat), bit_is(j, 0), bit_is(j, 1));
    }
}

/// Agreeing with `c` on one more bit is agreeing on the previous ones and on
/// bit `size - r - 1`.
proof fn lemma_same_top_step(c: u64, size: nat, r: nat)
    requires
        r < size,
    ensures
        forall|x: u64| #[trigger]
            same_top(c, size, r + 1)(x) == (same_top(c, size, r)(x) && bit_is(
                (size - r - 1) as nat,
                bit_at(c, (size - r - 1) as nat),
            )(x)),
{
    lemma_top_step(c, size, r);
    assert forall|x: u64| #[trigger]
        same_top(c, size, r + 1)(x) == (same_top(c, size, r)(x) && bit_is(
            (size - r - 1) as nat,
            bit_at(c, (size - r - 1) as nat),
        )(x)) by {
        lemma_top_step(x, size, r);
    }
}

/// The rank of a row counts, in its level, the elements with the row's bit.
proof fn lemma_row_rank(text: Seq<u64>, size: nat, r: nat, i: int, b: bool)
    requires
        r < size,
        0 <= i <= text.len(),
    ensures
        row_bits(text, size, r).len() == text.len(),
        rank_in(row_bits(text, size, r), b, i) == keep(
            level(text, size, r).subrange(0, i),
            bit_is((size - r - 1) as nat, if b { 1 } else { 0 }),
        ).len(),
{
    let j = (size - r - 1) as nat;
    let lv = level(text, size, r);
    lemma_level_len(text, size, r);
    assert(row_bits(text, size, r).subrange(0, i) =~= lv.subrange(0, i).map_values(bit_set(j)));
    let nb: nat = if b { 1 } else { 0 };
    assert forall|x: u64| #[trigger] bit_is(j, nb)(x) == is_bit(b)(bit_set(j)(x)) by {
        lemma_bit_range(x, j);
    }
    lemma_keep_map_len(lv.subrange(0, i), bit_set(j), is_bit(b), bit_is(j, nb));
}

/// Where the elements of the window `[s, e)` of level `r` whose bit
/// `size - r - 1` is `nb` land in level `r + 1`.
proof fn lemma_window_next(text: Seq<u64>, size: nat, r: nat, s: int, e: int, nb: nat)
    requires
        r < size,
        0 <= s <= e <= text.len(),
        nb < 2,
    ensures
        ({
            let lv = level(text, size, r);
            let p = bit_is((size - r - 1) as nat, nb);
            let off = if nb == 0 { 0 } else { zeros_at(text, size, r) };
            let ks = keep(lv.subrange(0, s), p).len();
            let ke = keep(lv.subrange(0, e), p).len();
            &&& ks <= ke
            &&& off + ke <= text.len()
            &&& level(text, size, r + 1).subrange((off + ks) as int, (off + ke) as int) == keep(lv.subrange(s, e), p)
        }),
{
    let j = (size - r - 1) as nat;
    let lv = level(text, size, r);
    let p = bit_is(j, nb);
    lemma_level_len(text, size, r);
    lemma_bit_split(j);
    lemma_keep_complement(lv, bit_is(j, 0), bit_is(j, 1));
    lemma_keep_window(lv, s, e, p);
    let k0 = keep(lv, bit_is(j, 0));
    let k1 = keep(lv, bit_is(j, 1));
    assert((size - (r + 1)) as nat == j);
    assert(level(text, size, r + 1) == k0 + k1);
    let ks = keep(lv.subrange(0, s), p).len();
    let ke = keep(lv.subrange(0, e), p).len();
    if nb == 0 {
        assert((k0 + k1).subrange(ks as int, ke as int) =~= k0.subrange(ks as int, ke as int));
    } else {
        assert((k0 + k1).subrange((k0.len() + ks) as int, (k0.len() + ke) as int) =~= k1.subrange(
            ks as int,
            ke as int,
        ));
    }
}

/// Where the element at position `i` of level `r` lands in level `r + 1`.
proof fn lemma_follow(text: Seq<u64>, size: nat, r: nat, i: int)
    requires
        r < size,
        0 <= i < text.len(),
    ensures
        ({
            let lv = level(text, size, r);
            let j = (size - r - 1) as nat;
            let nb = bit_at(lv[i], j);
            let off = if nb == 0 { 0 } else { zeros_at(text, size, r) };
            let ki = keep(lv.subrange(0, i), bit_is(j, nb)).len();
            &&& nb < 2
            &&& off + ki < text.len()
            &&& level(text, size, r + 1)[(off + ki) as int] == lv[i]
        }),
{
    let j = (size - r - 1) as nat;
    let lv = level(text, size, r);
    lemma_level_len(text, size, r);
    let nb = bit_at(lv[i], j);
    lemma_bit_range(lv[i], j);
    lemma_bit_split(j);
    lemma_keep_complement(lv, bit_is(j, 0), bit_is(j, 1));
    lemma_keep_at(lv, i, bit_is(j, nb));
    assert((size - (r + 1)) as nat == j);
}

/// The elements of `text` that agree with `c` on the highest `r` of `size` bits.
pub open spec fn block(text: Seq<u64>, size: nat, c: u64, r: nat) -> Seq<u64> {
    keep(text, same_top(c, size, r))
}

/// The block of `c` at level `r` starts at `start`.
pub open spec fn block_at(text: Seq<u64>, size: nat, c: u64, r: nat, start: int) -> bool {
    &&& 0 <= start
    &&& start + block(text, size, c, r).len() <= text.len()
    &&& level(text, size, r).subrange(start, start + block(text, size, c, r).len()) == block(
        text,
        size,
        c,
        r,
    )
}

/// Where the block that starts at `start` in level `r` starts in level `r + 1`.
pub open spec fn next_start(text: Seq<u64>, size: nat, c: u64, r: nat, start: int) -> int {
    let j = (size - r - 1) as nat;
    let nb = bit_at(c, j);
    let off = if nb == 0 { 0 } else { zeros_at(text, size, r) };
    (off + keep(level(text, size, r).subrange(0, start), bit_is(j, nb)).len()) as int
}

/// The block at level `r + 1` keeps, of the block at level `r`, those with
/// the bit of `c` at `size - r - 1`.
proof fn lemma_block_next(text: Seq<u64>, size: nat, c: u64, r: nat)
    requires
        r < size,
    ensures
        block(text, size, c, r + 1) == keep(
            block(text, size, c, r),
            bit_is((size - r - 1) as nat, bit_at(c, (size - r - 1) as nat)),
        ),
        forall|x: u64| #[trigger]
            same_symbol(c, size)(x) ==> bit_is((size - r - 1) as nat, bit_at(c, (size - r - 1) as nat))(x),
{
    let j = (size - r - 1) as nat;
    lemma_same_top_step(c, size, r);
    lemma_keep_keep(text, same_top(c, size, r), bit_is(j, bit_at(c, j)), same_top(c, size, r + 1));
    assert forall|x: u64| #[trigger] same_symbol(c, size)(x) implies bit_is(j, bit_at(c, j))(x) by {
        assert(same_top(c, size, r + 1)(x));
    }
}

/// Before selecting in row `r`: the rank handed to select is in range.
proof fn lemma_ascend_arg(text: Seq<u64>, size: nat, c: u64, r: nat, s0: int, idx: int)
    requires
        r < size,
        block_at(text, size, c, r, s0),
        0 <= idx < block(text, size, c, r + 1).len(),
    ensures
        ({
            let j = (size - r - 1) as nat;
            let nb = bit_at(c, j);
            let a = keep(level(text, size, r).subrange(0, s0), bit_is(j, nb)).len();
            a + idx < rank_in(row_bits(text, size, r), nb == 1, text.len() as int)
        }),
{
    let j = (size - r - 1) as nat;
    let nb = bit_at(c, j);
    let p = bit_is(j, nb);
    let lv = level(text, size, r);
    let f = block(text, size, c, r);
    lemma_bit_range(c, j);
    lemma_block_next(text, size, c, r);
    lemma_level_len(text, size, r);
    lemma_row_rank(text, size, r, text.len() as int, nb == 1);
    assert(nb == (if nb == 1 { 1nat } else { 0nat }));
    lemma_keep_window(lv, s0, s0 + f.len(), p);
    assert(lv.subrange(0, text.len() as int) =~= lv);
}

/// After selecting in row `r`: the position found is that of the same
/// element within the block of level `r`.
proof fn lemma_ascend(
    text: Seq<u64>,
    size: nat,
    c: u64,
    r: nat,
    s0: int,
    idx: int,
    k: nat,
    pos: int,
)
    requires
        r < size,
        block_at(text, size, c, r, s0),
        0 <= idx < block(text, size, c, r + 1).len(),
        same_symbol(c, size)(block(text, size, c, r + 1)[idx]),
        keep(block(text, size, c, r + 1).subrange(0, idx), same_symbol(c, size)).len() == k,
        0 <= pos < text.len(),
        row_bits(text, size, r)[pos] == (bit_at(c, (size - r - 1) as nat) == 1),
        rank_in(row_bits(text, size, r), bit_at(c, (size - r - 1) as nat) == 1, pos) == keep(
            level(text, size, r).subrange(0, s0),
            bit_is((size - r - 1) as nat, bit_at(c, (size - r - 1) as nat)),
        ).len() + idx,
    ensures
        s0 <= pos < s0 + block(text, size, c, r).len(),
        same_symbol(c, size)(block(text, size, c, r)[pos - s0]),
        keep(block(text, size, c, r).subrange(0, pos - s0), same_symbol(c, size)).len() == k,
{
    let j = (size - r - 1) as nat;
    let nb = bit_at(c, j);
    let p = bit_is(j, nb);
    let q = same_symbol(c, size);
    let lv = level(text, size, r);
    let f = block(text, size, c, r);
    let g = block(text, size, c, r + 1);
    let e0 = s0 + f.len();
    let a = keep(lv.subrange(0, s0), p).len();
    lemma_bit_range(c, j);
    lemma_bit_range(lv[pos], j);
    lemma_block_next(text, size, c, r);
    lemma_level_len(text, size, r);
    lemma_row_rank(text, size, r, pos, nb == 1);
    assert(nb == (if nb == 1 { 1nat } else { 0nat }));
    assert(p(lv[pos]));
    lemma_keep_at(lv, pos, p);
    if pos < s0 {
        lemma_keep_window(lv, pos + 1, s0, p);
        assert(false);
    }
    if pos >= e0 {
        lemma_keep_window(lv, s0, e0, p);
        lemma_keep_window(lv, e0, pos, p);
        assert(false);
    }
    let i = pos - s0;
    assert(f[i] == lv[pos]);
    lemma_keep_window(lv, s0, pos, p);
    assert(lv.subrange(s0, pos) =~= f.subrange(0, i));
    lemma_keep_at(f, i, p);
    lemma_keep_split(f, i, p);
    assert(g.subrange(0, idx) =~= keep(f.subrange(0, i), p));
    assert forall|x: u64| #[trigger] q(x) == (p(x) && q(x)) by {}
    lemma_keep_keep(f.subrange(0, i), p, q, q);
}

/// Appends each element of `src` to `zeros` or `ones` by its bit `j`, and
/// the bit to `bv`.
fn route(src: &Vec<u64>, j: u64, bv: &mut BitVector, zeros: &mut Vec<u64>, ones: &mut Vec<u64>)
    requires
        j < 64,
        bits_of(*old(bv)).len() + src@.len() < u64::MAX,
    ensures
        bits_of(*final(bv)) == bits_of(*old(bv)) + src@.map_values(bit_set(j as nat)),
        final(zeros)@ == old(zeros)@ + keep(src@, bit_is(j as nat, 0)),
        final(ones)@ == old(ones)@ + keep(src@, bit_is(j as nat, 1)),
{
    let ghost bits0 = bits_of(*bv);
    let ghost zeros0 = zeros@;
    let ghost ones0 = ones@;
    let mut i: usize = 0;
    while i < src.len()
        invariant
            i <= src@.len(),
            j < 64,
            bits0.len() + src@.len() < u64::MAX,
            bits_of(*bv) == bits0 + src@.subrange(0, i as int).map_values(bit_set(j as nat)),
            zeros@ == zeros0 + keep(src@.subrange(0, i as int), bit_is(j as nat, 0)),
            ones@ == ones0 + keep(src@.subrange(0, i as int), bit_is(j as nat, 1)),
        decreases src@.len() - i,
    {
        let c = src[i];
        let bit = bit_of(c, j);
        proof {
            let pre = src@.subrange(0, i as int);
            assert(src@.subrange(0, i + 1) =~= pre.push(c));
            lemma_keep_push(pre, c, bit_is(j as nat, 0));
            lemma_keep_push(pre, c, bit_is(j as nat, 1));
            lemma_bit_range(c, j as nat);
            assert(pre.push(c).map_values(bit_set(j as nat)) =~= pre.map_values(
                bit_set(j as nat),
            ).push(bit));
        }
        if bit {
            ones.push(c);
        } else {
            zeros.push(c);
        }
        bv_push(bv, bit);
        proof {
            let pre = src@.subrange(0, i as int);
            assert(zeros@ =~= zeros0 + keep(pre.push(c), bit_is(j as nat, 0)));
            assert(ones@ =~= ones0 + keep(pre.push(c), bit_is(j as nat, 1)));
            assert(bits_of(*bv) =~= bits0 + pre.push(c).map_values(bit_set(j as nat)));
        }
        i += 1;
    }
    proof {
        assert(src@.subrange(0, src@.len() as int) =~= src@);
    }
}

/// A wavelet matrix over symbols of type `T`: one bit row per bit of the
/// symbol width, most significant first, with the number of zeros of each row.
pub struct WaveletMatrix<T> {
    rows: Vec<BitVector>,
    size: u64,
    len: u64,
    partitions: Vec<u64>,
    text: Ghost<Seq<u64>>,
    marker: PhantomData<T>,
}

impl<T> View for WaveletMatrix<T> {
    type V = Seq<u64>;

    /// The symbols the matrix was built from, as 64-bit values.
    closed spec fn view(&self) -> Seq<u64> {
        self.text@
    }
}

impl<T: Symbol> WaveletMatrix<T> {
    /// The number of low bits of each symbol that the matrix holds.
    pub closed spec fn bit_width(&self) -> nat {
        self.size as nat
    }

    /// Each row holds the bits of its level and each partition the number of
    /// zeros of its row.
    pub closed spec fn well_formed(&self) -> bool {
        let n = self.text@.len();
        let size = self.size as nat;
        &&& self.size <= 64
        &&& n < u64::MAX
        &&& self.len as nat == n
        &&& self.rows@.len() == size
        &&& self.partitions@.len() == size
        &&& forall|r: int|
            0 <= r < size ==> bits_of(#[trigger] self.rows@[r]) == row_bits(
                self.text@,
                size,
                r as nat,
            )
        &&& forall|r: int|
            0 <= r < size ==> #[trigger] self.partitions@[r] == zeros_at(
                self.text@,
                size,
                r as nat,
            )
        &&& forall|i: int| 0 <= i < n ==> (#[trigger] self.text@[i] as nat) < pow2(T::spec_width())
    }

    /// Builds the matrix of `text`, reading the low `size` bits of each symbol.
    pub fn new_with_size(text: &[T], size: u64) -> (r: Self)
        requires
            size <= 64,
            text@.len() < u64::MAX,
        ensures
            r.well_formed(),
            r@ == text@.map_values(|x: T| x.spec_value()),
            r.bit_width() == size,
    {
        let mut zeros: Vec<u64> = Vec::new();
        let mut i: usize = 0;
        while i < text.len()
            invariant
                i <= text@.len(),
                zeros@ == text@.subrange(0, i as int).map_values(|x: T| x.spec_value()),
                forall|q: int| 0 <= q < i ==> (#[trigger] zeros@[q] as nat) < pow2(T::spec_width()),
            decreases text@.len() - i,
        {
            let v = text[i].value();
            zeros.push(v);
            proof {
                assert(text@.subrange(0, i + 1).map_values(|x: T| x.spec_value())
                    =~= text@.subrange(0, i as int).map_values(|x: T| x.spec_value()).push(v));
            }
            i += 1;
        }
        proof {
            assert(text@.subrange(0, text@.len() as int) =~= text@);
        }
        let ghost seq = zeros@;
        let mut ones: Vec<u64> = Vec::new();
        let mut rows: Vec<BitVector> = Vec::new();
        let mut partitions: Vec<u64> = Vec::new();
        let mut r: u64 = 0;
        proof {
            assert(zeros@ + ones@ =~= seq);
        }
        while r < size
            invariant
                r <= size <= 64,
                seq.len() < u64::MAX,
                zeros@ + ones@ == level(seq, size as nat, r as nat),
                rows@.len() == r,
                partitions@.len() == r,
                forall|q: int|
                    0 <= q < r ==> bits_of(#[trigger] rows@[q]) == row_bits(seq, size as nat, q as nat),
                forall|q: int|
                    0 <= q < r ==> #[trigger] partitions@[q] == zeros_at(seq, size as nat, q as nat),
            decreases size - r,
        {
            let j = size - r - 1;
            let ghost lv = level(seq, size as nat, r as nat);
            proof {
                lemma_level_len(seq, size as nat, r as nat);
            }
            let mut bv = bv_new();
            let mut new_zeros: Vec<u64> = Vec::new();
            let mut new_ones: Vec<u64> = Vec::new();
            route(&zeros, j, &mut bv, &mut new_zeros, &mut new_ones);
            route(&ones, j, &mut bv, &mut new_zeros, &mut new_ones);
            proof {
                let f = bit_set(j as nat);
                lemma_keep_add(zeros@, ones@, bit_is(j as nat, 0));
                lemma_keep_add(zeros@, ones@, bit_is(j as nat, 1));
                assert(new_zeros@ =~= keep(lv, bit_is(j as nat, 0)));
                assert(new_ones@ =~= keep(lv, bit_is(j as nat, 1)));
                assert(bits_of(bv) =~= lv.map_values(f));
                assert((size - (r + 1)) as nat == j as nat);
                assert(new_zeros@ + new_ones@ == level(seq, size as nat, (r + 1) as nat));
                lemma_keep_len(lv, bit_is(j as nat, 0));
            }
            let z = new_zeros.len() as u64;
            zeros = new_zeros;
            ones = new_ones;
            rows.push(bv);
            partitions.push(z);
            r += 1;
        }
        WaveletMatrix {
            rows,
            size,
            len: text.len() as u64,
            partitions,
            text: Ghost(seq),
            marker: PhantomData,
        }
    }

    /// Builds the matrix of `text` over the full width of the symbol type.
    pub fn new(text: &[T]) -> (r: Self)
        requires
            text@.len() < u64::MAX,
        ensures
            r.well_formed(),
            r@ == text@.map_values(|x: T| x.spec_value()),
            r.bit_width() == T::spec_width(),
    {
        Self::new_with_size(text, T::width())
    }

    /// The number of low bits of each symbol that the matrix holds.
    pub fn width(&self) -> (r: u64)
        requires
            self.well_formed(),
        ensures
            r == self.bit_width(),
    {
        self.size
    }

    /// The bits of row `r`, most significant row first.
    pub fn row(&self, r: u64) -> (v: Vec<bool>)
        requires
            self.well_formed(),
            r < self.bit_width(),
        ensures
            v@ == row_bits(self@, self.bit_width(), r as nat),
    {
        let ghost bits = row_bits(self.text@, self.size as nat, r as nat);
        proof {
            lemma_level_len(self.text@, self.size as nat, r as nat);
        }
        let bv = &self.rows[r as usize];
        let mut v: Vec<bool> = Vec::new();
        let mut i: u64 = 0;
        while i < self.len
            invariant
                self.well_formed(),
                r < self.size,
                bits == bits_of(*bv),
                bits.len() == self.len,
                i <= self.len,
                v@ == bits.subrange(0, i as int),
            decreases self.len - i,
        {
            let b = bv_get(bv, i);
            v.push(b);
            proof {
                assert(bits.subrange(0, i + 1) =~= bits.subrange(0, i as int).push(b));
            }
            i += 1;
        }
        proof {
            assert(bits.subrange(0, self.len as int) =~= bits);
        }
        v
    }

    /// The number of symbols.
    pub fn len(&self) -> (r: u64)
        requires
            self.well_formed(),
        ensures
            r == self@.len(),
    {
        self.len
    }

    /// The symbol at position `k`, cut to the matrix's bit width.
    pub fn access(&self, k: u64) -> (r: T)
        requires
            self.well_formed(),
            k < self@.len(),
        ensures
            r.spec_value() == trunc(self@[k as int], self.bit_width()),
    {
        let ghost text = self.text@;
        let ghost size = self.size as nat;
        let ghost v = text[k as int];
        let mut i: u64 = k;
        let mut result: u64 = 0;
        let mut r: usize = 0;
        proof {
            lemma_top_zero(v, size);
        }
        while r < self.rows.len()
            invariant
                self.well_formed(),
                text == self.text@,
                size == self.size,
                r <= size,
                i < text.len(),
                level(text, size, r as nat)[i as int] == v,
                result == top(v, size, r as nat),
            decreases size - r,
        {
            let bv = &self.rows[r];
            proof {
                lemma_row_rank(text, size, r as nat, i as int, true);
                lemma_row_rank(text, size, r as nat, i as int, false);
                lemma_follow(text, size, r as nat, i as int);
                lemma_top_step(v, size, r as nat);
                lemma_top_le(v, size, (r + 1) as nat);
                assert((size - r - 1) as nat == (self.size - r - 1) as nat);
            }
            let b = bv_get(bv, i);
            if b {
                i = self.partitions[r] + bv_rank(bv, true, i);
                result = result * 2 + 1;
            } else {
                i = bv_rank(bv, false, i);
                result = result * 2;
            }
            r += 1;
        }
        proof {
            lemma_top_full(v, size);
            lemma_trunc_bound(v, size);
        }
        T::from_value(result)
    }

    /// The number of positions before `k` (at most the length) that hold `c`,
    /// both cut to the matrix's bit width.
    pub fn rank(&self, c: T, k: u64) -> (r: u64)
        requires
            self.well_formed(),
        ensures
            r == occurrences(
                self@,
                self.bit_width(),
                c.spec_value(),
                if k < self@.len() { k as int } else { self@.len() as int },
            ),
    {
        let ghost text = self.text@;
        let ghost size = self.size as nat;
        let cv = c.value();
        let end = if k < self.len { k } else { self.len };
        let ghost pre = text.subrange(0, end as int);
        let mut s: u64 = 0;
        let mut e: u64 = end;
        proof {
            assert forall|x: u64| #[trigger] same_top(cv, size, 0)(x) by {
                lemma_top_zero(x, size);
                lemma_top_zero(cv, size);
            }
            lemma_keep_all(pre, same_top(cv, size, 0));
            assert(text.subrange(0, end as int) == pre);
        }
        let mut r: usize = 0;
        while r < self.rows.len()
            invariant
                self.well_formed(),
                text == self.text@,
                size == self.size,
                r <= size,
                s <= e <= text.len(),
                level(text, size, r as nat).subrange(s as int, e as int) == keep(
                    pre,
                    same_top(cv, size, r as nat),
                ),
            decreases size - r,
        {
            let (s1, e1) = self.narrow(cv, r, s, e, Ghost(pre));
            s = s1;
            e = e1;
            r += 1;
        }
        proof {
            assert forall|x: u64| #[trigger] same_top(cv, size, size)(x) == same_symbol(cv, size)(x) by {
                lemma_top_full(x, size);
                lemma_top_full(cv, size);
            }
            lemma_keep_ext(pre, same_top(cv, size, size), same_symbol(cv, size));
            lemma_level_len(text, size, size);
        }
        e - s
    }

    /// The position of the occurrence of `c` that has `k` occurrences before
    /// it, both cut to the matrix's bit width; the length when `c` occurs `k`
    /// times or fewer.
    pub fn select(&self, c: T, k: u64) -> (r: u64)
        requires
            self.well_formed(),
        ensures
            k < occurrences(self@, self.bit_width(), c.spec_value(), self@.len() as int) ==> {
                &&& r < self@.len()
                &&& trunc(self@[r as int], self.bit_width()) == trunc(
                    c.spec_value(),
                    self.bit_width(),
                )
                &&& occurrences(self@, self.bit_width(), c.spec_value(), r as int) == k
            },
            k >= occurrences(self@, self.bit_width(), c.spec_value(), self@.len() as int) ==> r
                == self@.len(),
    {
        let ghost text = self.text@;
        let ghost size = self.size as nat;
        let cv = c.value();
        let (s, e, starts) = self.descend(cv);
        proof {
            assert forall|x: u64| #[trigger] same_top(cv, size, size)(x) == same_symbol(cv, size)(x) by {
                lemma_top_full(x, size);
                lemma_top_full(cv, size);
            }
            lemma_keep_ext(text, same_top(cv, size, size), same_symbol(cv, size));
            assert(text.subrange(0, text.len() as int) =~= text);
        }
        if k >= e - s {
            return self.len;
        }
        proof {
            let g = block(text, size, cv, size);
            assert forall|i: int| 0 <= i < g.len() implies #[trigger] same_symbol(cv, size)(g[i]) by {
                lemma_keep_pred(text, same_symbol(cv, size), i);
            }
            lemma_keep_all(g.subrange(0, k as int), same_symbol(cv, size));
        }
        let pos = self.ascend(cv, k, s + k, starts);
        pos
    }

    /// Walks down the rows with the bits of `cv`, recording where the block of
    /// the elements that agree with `cv` so far starts in each level.
    fn descend(&self, cv: u64) -> (res: (u64, u64, Ghost<Seq<int>>))
        requires
            self.well_formed(),
        ensures
            ({
                let (s, e, starts) = res;
                let text = self@;
                let size = self.size as nat;
                &&& s <= e <= text.len()
                &&& e - s == block(text, size, cv, size).len()
                &&& starts@.len() == size + 1
                &&& starts@[0] == 0
                &&& starts@[size as int] == s
                &&& forall|q: int|
                    0 <= q <= size ==> block_at(text, size, cv, q as nat, #[trigger] starts@[q])
                &&& forall|q: int|
                    0 <= q < size ==> #[trigger] starts@[q + 1] == next_start(
                        text,
                        size,
                        cv,
                        q as nat,
                        starts@[q],
                    )
            }),
    {
        let ghost text = self.text@;
        let ghost size = self.size as nat;
        let mut s: u64 = 0;
        let mut e: u64 = self.len;
        let ghost mut starts: Seq<int> = seq![0];
        proof {
            assert forall|x: u64| #[trigger] same_top(cv, size, 0)(x) by {
                lemma_top_zero(x, size);
                lemma_top_zero(cv, size);
            }
            lemma_keep_all(text, same_top(cv, size, 0));
            assert(text.subrange(0, text.len() as int) =~= text);
        }
        let mut r: usize = 0;
        while r < self.rows.len()
            invariant
                self.well_formed(),
                text == self.text@,
                size == self.size,
                r <= size,
                s <= e <= text.len(),
                level(text, size, r as nat).subrange(s as int, e as int) == block(
                    text,
                    size,
                    cv,
                    r as nat,
                ),
                starts.len() == r + 1,
                starts[0] == 0,
                starts[r as int] == s,
                forall|q: int|
                    0 <= q <= r ==> block_at(text, size, cv, q as nat, #[trigger] starts[q]),
                forall|q: int|
                    0 <= q < r ==> #[trigger] starts[q + 1] == next_start(
                        text,
                        size,
                        cv,
                        q as nat,
                        starts[q],
                    ),
            decreases size - r,
        {
            proof {
                lemma_level_len(text, size, r as nat);
            }
            let (s1, e1) = self.narrow(cv, r, s, e, Ghost(text));
            proof {
                lemma_level_len(text, size, (r + 1) as nat);
                starts = starts.push(s1 as int);
                assert(block_at(text, size, cv, (r + 1) as nat, starts[r + 1]));
            }
            s = s1;
            e = e1;
            r += 1;
        }
        proof {
            lemma_level_len(text, size, size);
        }
        (s, e, Ghost(starts))
    }

    /// Walks back up the rows from position `pos` of the lowest level, which
    /// holds an element equal to `cv` with `k` such elements before it in its
    /// block, to the position of that element in the sequence.
    #[verifier::rlimit(50)]
    fn ascend(&self, cv: u64, k: u64, pos: u64, Ghost(starts): Ghost<Seq<int>>) -> (r: u64)
        requires
            self.well_formed(),
            starts.len() == self.size + 1,
            starts[0] == 0,
            forall|q: int|
                0 <= q <= self.size ==> block_at(
                    self@,
                    self.size as nat,
                    cv,
                    q as nat,
                    #[trigger] starts[q],
                ),
            forall|q: int|
                0 <= q < self.size ==> #[trigger] starts[q + 1] == next_start(
                    self@,
                    self.size as nat,
                    cv,
                    q as nat,
                    starts[q],
                ),
            starts[self.size as int] <= pos < starts[self.size as int] + block(
                self@,
                self.size as nat,
                cv,
                self.size as nat,
            ).len(),
            same_symbol(cv, self.size as nat)(
                block(self@, self.size as nat, cv, self.size as nat)[pos - starts[self.size as int]],
            ),
            keep(
                block(self@, self.size as nat, cv, self.size as nat).subrange(
                    0,
                    pos - starts[self.size as int],
                ),
                same_symbol(cv, self.size as nat),
            ).len() == k,
        ensures
            r < self@.len(),
            same_symbol(cv, self.size as nat)(self@[r as int]),
            keep(self@.subrange(0, r as int), same_symbol(cv, self.size as nat)).len() == k,
    {
        let ghost text = self.text@;
        let ghost size = self.size as nat;
        let mut pos = pos;
        let mut r: usize = self.rows.len();
        while r > 0
            invariant
                self.well_formed(),
                text == self.text@,
                size == self.size,
                r <= size,
                starts.len() == size + 1,
                forall|q: int|
                    0 <= q <= size ==> block_at(text, size, cv, q as nat, #[trigger] starts[q]),
                forall|q: int|
                    0 <= q < size ==> #[trigger] starts[q + 1] == next_start(
                        text,
                        size,
                        cv,
                        q as nat,
                        starts[q],
                    ),
                starts[r as int] <= pos < starts[r as int] + block(text, size, cv, r as nat).len(),
                same_symbol(cv, size)(block(text, size, cv, r as nat)[pos - starts[r as int]]),
                keep(
                    block(text, size, cv, r as nat).subrange(0, pos - starts[r as int]),
                    same_symbol(cv, size),
                ).len() == k,
            decreases r,
        {
            let rr = r - 1;
            let j = self.size - rr as u64 - 1;
            let b = bit_of(cv, j);
            let bv = &self.rows[rr];
            let ghost s0 = starts[rr as int];
            let ghost idx = pos - starts[r as int];
            proof {
                assert(starts[rr + 1] == next_start(text, size, cv, rr as nat, s0));
                assert(block_at(text, size, cv, rr as nat, s0));
                lemma_ascend_arg(text, size, cv, rr as nat, s0, idx);
                lemma_row_rank(text, size, rr as nat, text.len() as int, b);
                lemma_bit_range(cv, j as nat);
            }
            if b {
                pos = bv_select1(bv, pos - self.partitions[rr]);
            } else {
                pos = bv_select0(bv, pos);
            }
            proof {
                lemma_ascend(text, size, cv, rr as nat, s0, idx, k as nat, pos as int);
            }
            r = rr;
        }
        proof {
            assert(block_at(text, size, cv, 0, starts[0]));
            assert forall|i: int| 0 <= i < text.len() implies #[trigger] same_top(cv, size, 0)(
                text[i],
            ) by {
                lemma_top_zero(text[i], size);
                lemma_top_zero(cv, size);
            }
            lemma_keep_all(text, same_top(cv, size, 0));
        }
        pos
    }

    /// One step of descent: from the window `[s, e)` of level `r` that holds
    /// the elements of `a` agreeing with `cv` on `r` bits, to the window of
    /// level `r + 1` that holds those agreeing on `r + 1` bits.
    fn narrow(&self, cv: u64, r: usize, s: u64, e: u64, Ghost(a): Ghost<Seq<u64>>) -> (res: (u64, u64))
        requires
            self.well_formed(),
            r < self.size,
            s <= e <= self@.len(),
            level(self@, self.size as nat, r as nat).subrange(s as int, e as int) == keep(
                a,
                same_top(cv, self.size as nat, r as nat),
            ),
        ensures
            res.0 <= res.1 <= self@.len(),
            level(self@, self.size as nat, (r + 1) as nat).subrange(res.0 as int, res.1 as int)
                == keep(a, same_top(cv, self.size as nat, (r + 1) as nat)),
            ({
                let j = (self.size - r - 1) as nat;
                let nb = bit_at(cv, j);
                let off = if nb == 0 { 0 } else { zeros_at(self@, self.size as nat, r as nat) };
                res.0 == off + keep(
                    level(self@, self.size as nat, r as nat).subrange(0, s as int),
                    bit_is(j, nb),
                ).len()
            }),
    {
        let ghost text = self.text@;
        let ghost size = self.size as nat;
        let j = self.size - r as u64 - 1;
        let b = bit_of(cv, j);
        let bv = &self.rows[r];
        let ghost nb = bit_at(cv, j as nat);
        proof {
            lemma_bit_range(cv, j as nat);
            lemma_row_rank(text, size, r as nat, s as int, b);
            lemma_row_rank(text, size, r as nat, e as int, b);
            lemma_window_next(text, size, r as nat, s as int, e as int, nb);
            lemma_same_top_step(cv, size, r as nat);
            lemma_keep_keep(a, same_top(cv, size, r as nat), bit_is(j as nat, nb), same_top(cv, size, (r + 1) as nat));
        }
        let s1 = bv_rank(bv, b, s);
        let e1 = bv_rank(bv, b, e);
        if b {
            let z = self.partitions[r];
            (s1 + z, e1 + z)
        } else {
            (s1, e1)
        }
    }
}

} // verus!
