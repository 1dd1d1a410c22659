use vstd::prelude::*;

verus! {

/// The elements of `s` that satisfy `p`, in their original order.
pub open spec fn keep<A>(s: Seq<A>, p: spec_fn(A) -> bool) -> Seq<A>
    decreases s.len(),
{
    if s.len() == 0 {
        Seq::empty()
    } else {
        let rest = keep(s.drop_last(), p);
        if p(s.last()) {
            rest.push(s.last())
        } else {
            rest
        }
    }
}

pub proof fn lemma_keep_push<A>(s: Seq<A>, x: A, p: spec_fn(A) -> bool)
    ensures
        keep(s.push(x), p) == (if p(x) { keep(s, p).push(x) } else { keep(s, p) }),
{
    assert(s.push(x).drop_last() =~= s);
}

pub proof fn lemma_keep_len<A>(s: Seq<A>, p: spec_fn(A) -> bool)
    ensures
        keep(s, p).len() <= s.len(),
    decreases s.len(),
{
    if s.len() > 0 {
        lemma_keep_len(s.drop_last(), p);
    }
}

pub proof fn lemma_keep_add<A>(a: Seq<A>, b: Seq<A>, p: spec_fn(A) -> bool)
    ensures
        keep(a + b, p) == keep(a, p) + keep(b, p),
    decreases b.len(),
{
    if b.len() == 0 {
        assert(a + b =~= a);
        assert(keep(a, p) + keep(b, p) =~= keep(a, p));
    } else {
        assert((a + b).drop_last() =~= a + b.drop_last());
        assert((a + b).last() == b.last());
        lemma_keep_add(a, b.drop_last(), p);
        assert(keep(a, p) + keep(b.drop_last(), p).push(b.last()) =~= (keep(a, p) + keep(
            b.drop_last(),
            p,
        )).push(b.last()));
    }
}

/// Keeping everything gives the sequence back.
pub proof fn lemma_keep_all<A>(s: Seq<A>, p: spec_fn(A) -> bool)
    requires
        forall|i: int| 0 <= i < s.len() ==> #[trigger] p(s[i]),
    ensures
        keep(s, p) == s,
    decreases s.len(),
{
    if s.len() > 0 {
        assert forall|i: int| 0 <= i < s.drop_last().len() implies #[trigger] p(
            s.drop_last()[i],
        ) by {
            assert(p(s[i]));
        }
        lemma_keep_all(s.drop_last(), p);
        assert(p(s[s.len() - 1]));
        assert(s.drop_last().push(s.last()) =~= s);
    }
}

/// Keeping by `p` and then by `q` is keeping by their conjunction `r`.
pub proof fn lemma_keep_keep<A>(
    s: Seq<A>,
    p: spec_fn(A) -> bool,
    q: spec_fn(A) -> bool,
    r: spec_fn(A) -> bool,
)
    requires
        forall|x: A| #[trigger] r(x) == (p(x) && q(x)),
    ensures
        keep(keep(s, p), q) == keep(s, r),
    decreases s.len(),
{
    if s.len() > 0 {
        lemma_keep_keep(s.drop_last(), p, q, r);
        let x = s.last();
        assert(r(x) == (p(x) && q(x)));
        if p(x) {
            lemma_keep_push(keep(s.drop_last(), p), x, q);
        }
    }
}

/// Two predicates that agree everywhere keep the same elements.
pub proof fn lemma_keep_ext<A>(s: Seq<A>, p: spec_fn(A) -> bool, q: spec_fn(A) -> bool)
    requires
        forall|x: A| #[trigger] p(x) == q(x),
    ensures
        keep(s, p) == keep(s, q),
{
    assert(p =~= q);
}

/// A predicate and its negation split the sequence between them.
pub proof fn lemma_keep_complement<A>(s: Seq<A>, p: spec_fn(A) -> bool, q: spec_fn(A) -> bool)
    requires
        forall|x: A| #[trigger] q(x) == !p(x),
    ensures
        keep(s, p).len() + keep(s, q).len() == s.len(),
    decreases s.len(),
{
    if s.len() > 0 {
        lemma_keep_complement(s.drop_last(), p, q);
        assert(q(s.last()) == !p(s.last()));
    }
}

/// Keeping splits over a cut of the sequence at `i`.
pub proof fn lemma_keep_split<A>(s: Seq<A>, i: int, p: spec_fn(A) -> bool)
    requires
        0 <= i <= s.len(),
    ensures
        keep(s, p) == keep(s.subrange(0, i), p) + keep(s.subrange(i, s.len() as int), p),
{
    assert(s =~= s.subrange(0, i) + s.subrange(i, s.len() as int));
    lemma_keep_add(s.subrange(0, i), s.subrange(i, s.len() as int), p);
}

/// What is kept from the window `[a, b)` is a window of what is kept from the whole.
pub proof fn lemma_keep_window<A>(s: Seq<A>, a: int, b: int, p: spec_fn(A) -> bool)
    requires
        0 <= a <= b <= s.len(),
    ensures
        keep(s.subrange(0, b), p).len() == keep(s.subrange(0, a), p).len() + keep(
            s.subrange(a, b),
            p,
        ).len(),
        keep(s.subrange(0, b), p).len() <= keep(s, p).len(),
        keep(s, p).subrange(
            keep(s.subrange(0, a), p).len() as int,
            keep(s.subrange(0, b), p).len() as int,
        ) == keep(s.subrange(a, b), p),
{
    assert(s.subrange(0, b) =~= s.subrange(0, a) + s.subrange(a, b));
    lemma_keep_add(s.subrange(0, a), s.subrange(a, b), p);
    lemma_keep_split(s, b, p);
    let ka = keep(s.subrange(0, a), p);
    let kw = keep(s.subrange(a, b), p);
    let kt = keep(s.subrange(b, s.len() as int), p);
    assert(keep(s, p) == ka + kw + kt);
    assert((ka + kw + kt).subrange(ka.len() as int, (ka.len() + kw.len()) as int) =~= kw);
}

/// An element that satisfies `p` sits in what is kept, right after what was
/// kept before it.
pub proof fn lemma_keep_at<A>(s: Seq<A>, i: int, p: spec_fn(A) -> bool)
    requires
        0 <= i < s.len(),
        p(s[i]),
    ensures
        keep(s.subrange(0, i + 1), p) == keep(s.subrange(0, i), p).push(s[i]),
        keep(s.subrange(0, i), p).len() < keep(s, p).len(),
        keep(s, p)[keep(s.subrange(0, i), p).len() as int] == s[i],
{
    assert(s.subrange(0, i + 1) =~= s.subrange(0, i).push(s[i]));
    lemma_keep_push(s.subrange(0, i), s[i], p);
    lemma_keep_split(s, i + 1, p);
}

/// Counting through a map is counting by the composed predicate.
pub proof fn lemma_keep_map_len<A, B>(
    s: Seq<A>,
    f: spec_fn(A) -> B,
    q: spec_fn(B) -> bool,
    p: spec_fn(A) -> bool,
)
    requires
        forall|x: A| #[trigger] p(x) == q(f(x)),
    ensures
        keep(s.map_values(f), q).len() == keep(s, p).len(),
    decreases s.len(),
{
    if s.len() > 0 {
        assert(s.map_values(f).drop_last() =~= s.drop_last().map_values(f));
        lemma_keep_map_len(s.drop_last(), f, q, p);
        assert(p(s.last()) == q(f(s.last())));
    }
}

/// Whatever is kept satisfies the predicate.
pub proof fn lemma_keep_pred<A>(s: Seq<A>, p: spec_fn(A) -> bool, i: int)
    requires
        0 <= i < keep(s, p).len(),
    ensures
        p(keep(s, p)[i]),
    decreases s.len(),
{
    let rest = keep(s.drop_last(), p);
    if i < rest.len() {
        lemma_keep_pred(s.drop_last(), p, i);
    }
}

} // verus!
