//! Finite sums over sequences, and the lemmas the statistics are built from.
//!
//! `sum_of(s, f)` is the sum of `f` over the elements of `s`.  The lemmas
//! cover the usual manipulations: peeling one element, splitting a
//! concatenation, pointwise rewriting, linearity, bounds, and invariance
//! under reordering (both multiset equality and an explicit index bijection).

use vstd::prelude::*;

verus! {

/// Sum of `f(x)` over all elements `x` of `s`, taken in sequence order.
pub open spec fn sum_of<A>(s: Seq<A>, f: spec_fn(A) -> int) -> int
    decreases s.len(),
{
    if s.len() == 0 {
        0
    } else {
        sum_of(s.drop_last(), f) + f(s.last())
    }
}

/// Appending one element adds its term.
pub proof fn lemma_sum_of_push<A>(s: Seq<A>, x: A, f: spec_fn(A) -> int)
    ensures
        sum_of(s.push(x), f) == sum_of(s, f) + f(x),
{
    assert(s.push(x).drop_last() =~= s);
}

/// One step of a prefix sum: the prefix of length `i + 1` adds the term of `s[i]`.
pub proof fn lemma_sum_of_take_step<A>(s: Seq<A>, i: int, f: spec_fn(A) -> int)
    requires
        0 <= i < s.len(),
    ensures
        sum_of(s.take(i + 1), f) == sum_of(s.take(i), f) + f(s[i]),
{
    assert(s.take(i + 1).drop_last() =~= s.take(i));
    assert(s.take(i + 1).last() == s[i]);
}

/// The full-length prefix is the whole sequence.
pub proof fn lemma_sum_of_take_all<A>(s: Seq<A>, f: spec_fn(A) -> int)
    ensures
        sum_of(s.take(s.len() as int), f) == sum_of(s, f),
{
    assert(s.take(s.len() as int) =~= s);
}

/// A sum over a concatenation splits into the two partial sums.
pub proof fn lemma_sum_of_concat<A>(a: Seq<A>, b: Seq<A>, f: spec_fn(A) -> int)
    ensures
        sum_of(a + b, f) == sum_of(a, f) + sum_of(b, f),
    decreases b.len(),
{
    if b.len() == 0 {
        assert(a + b =~= a);
    } else {
        lemma_sum_of_concat(a, b.drop_last(), f);
        assert((a + b).drop_last() =~= a + b.drop_last());
        assert((a + b).last() == b.last());
    }
}

/// A sequence splits at any position into prefix and suffix.
pub proof fn lemma_sum_of_split_at<A>(s: Seq<A>, i: int, f: spec_fn(A) -> int)
    requires
        0 <= i <= s.len(),
    ensures
        sum_of(s, f) == sum_of(s.take(i), f) + sum_of(s.skip(i), f),
{
    assert(s =~= s.take(i) + s.skip(i));
    lemma_sum_of_concat(s.take(i), s.skip(i), f);
}

/// Two functions that agree on the elements of `s` have the same sum.
pub proof fn lemma_sum_of_congruence<A>(s: Seq<A>, f: spec_fn(A) -> int, g: spec_fn(A) -> int)
    requires
        forall|i: int| 0 <= i < s.len() ==> f(#[trigger] s[i]) == g(s[i]),
    ensures
        sum_of(s, f) == sum_of(s, g),
    decreases s.len(),
{
    if s.len() > 0 {
        lemma_sum_of_congruence(s.drop_last(), f, g);
    }
}

/// Sums over two equally long sequences agree when the terms agree position by
/// position, whatever the element types are.
pub proof fn lemma_sum_of_parallel<A, B>(
    s: Seq<A>,
    t: Seq<B>,
    f: spec_fn(A) -> int,
    g: spec_fn(B) -> int,
)
    requires
        s.len() == t.len(),
        forall|i: int| 0 <= i < s.len() ==> f(#[trigger] s[i]) == g(t[i]),
    ensures
        sum_of(s, f) == sum_of(t, g),
    decreases s.len(),
{
    if s.len() > 0 {
        lemma_sum_of_parallel(s.drop_last(), t.drop_last(), f, g);
    }
}

/// Removing one element removes exactly its term.
pub proof fn lemma_sum_of_remove<A>(s: Seq<A>, i: int, f: spec_fn(A) -> int)
    requires
        0 <= i < s.len(),
    ensures
        sum_of(s.remove(i), f) == sum_of(s, f) - f(s[i]),
    decreases s.len(),
{
    if i == s.len() - 1 {
        assert(s.remove(i) =~= s.drop_last());
    } else {
        lemma_sum_of_remove(s.drop_last(), i, f);
        assert(s.remove(i).drop_last() =~= s.drop_last().remove(i));
        assert(s.remove(i).last() == s.last());
    }
}

/// Sums only depend on the multiset of elements, not on their order.
pub proof fn lemma_sum_of_multiset<A>(s: Seq<A>, t: Seq<A>, f: spec_fn(A) -> int)
    requires
        s.to_multiset() == t.to_multiset(),
    ensures
        sum_of(s, f) == sum_of(t, f),
    decreases s.len(),
{
    broadcast use vstd::seq_lib::group_to_multiset_ensures;

    assert(s.to_multiset().len() == s.len());
    assert(t.to_multiset().len() == t.len());
    if s.len() == 0 {
        assert(t.len() == 0);
    } else {
        let x = s.last();
        assert(s[s.len() - 1] == x);
        assert(s.contains(x));
        assert(s.to_multiset().count(x) > 0);
        assert(t.to_multiset().count(x) > 0);
        assert(t.contains(x));
        let j = choose|j: int| 0 <= j < t.len() && t[j] == x;
        lemma_sum_of_remove(t, j, f);
        assert(s.drop_last().push(x) =~= s);
        assert(s.drop_last().to_multiset().insert(x) == s.to_multiset());
        assert(s.drop_last().to_multiset() =~= s.to_multiset().remove(x));
        assert(t.remove(j).to_multiset() == t.to_multiset().remove(x));
        lemma_sum_of_multiset(s.drop_last(), t.remove(j), f);
    }
}

/// Linearity: a pointwise sum of two term functions sums to the sum of the sums.
pub proof fn lemma_sum_of_add<A>(
    s: Seq<A>,
    f: spec_fn(A) -> int,
    g: spec_fn(A) -> int,
    h: spec_fn(A) -> int,
)
    requires
        forall|i: int| 0 <= i < s.len() ==> h(#[trigger] s[i]) == f(s[i]) + g(s[i]),
    ensures
        sum_of(s, h) == sum_of(s, f) + sum_of(s, g),
    decreases s.len(),
{
    if s.len() > 0 {
        lemma_sum_of_add(s.drop_last(), f, g, h);
    }
}

/// Linearity: scaling every term by `c` scales the sum by `c`.
pub proof fn lemma_sum_of_scale<A>(s: Seq<A>, f: spec_fn(A) -> int, g: spec_fn(A) -> int, c: int)
    requires
        forall|i: int| 0 <= i < s.len() ==> g(#[trigger] s[i]) == c * f(s[i]),
    ensures
        sum_of(s, g) == c * sum_of(s, f),
    decreases s.len(),
{
    if s.len() > 0 {
        lemma_sum_of_scale(s.drop_last(), f, g, c);
        assert(c * (sum_of(s.drop_last(), f) + f(s.last())) == c * sum_of(s.drop_last(), f) + c
            * f(s.last())) by (nonlinear_arith);
    }
}

/// A constant term sums to `len` times the constant.
pub proof fn lemma_sum_of_const<A>(s: Seq<A>, f: spec_fn(A) -> int, c: int)
    requires
        forall|i: int| 0 <= i < s.len() ==> f(#[trigger] s[i]) == c,
    ensures
        sum_of(s, f) == s.len() * c,
    decreases s.len(),
{
    if s.len() > 0 {
        lemma_sum_of_const(s.drop_last(), f, c);
        assert((s.len() - 1) * c + c == s.len() * c) by (nonlinear_arith);
    }
}

/// A one-element sequence sums to its single term.
pub proof fn lemma_sum_of_singleton<A>(x: A, f: spec_fn(A) -> int)
    ensures
        sum_of(seq![x], f) == f(x),
{
    assert(seq![x].drop_last() =~= Seq::<A>::empty());
    assert(sum_of(Seq::<A>::empty(), f) == 0);
    assert(seq![x].last() == x);
}

/// `Σ (x − yᵢ) = len·x − Σ yᵢ`.
pub proof fn lemma_sum_of_minus_from(s: Seq<int>, x: int)
    ensures
        sum_of(s, |y: int| x - y) == s.len() * x - sum_of(s, |y: int| y),
    decreases s.len(),
{
    if s.len() > 0 {
        lemma_sum_of_minus_from(s.drop_last(), x);
        assert((s.len() - 1) * x + x == s.len() * x) by (nonlinear_arith);
    }
}

/// `Σ (yᵢ − x) = Σ yᵢ − len·x`.
pub proof fn lemma_sum_of_minus_to(s: Seq<int>, x: int)
    ensures
        sum_of(s, |y: int| y - x) == sum_of(s, |y: int| y) - s.len() * x,
    decreases s.len(),
{
    if s.len() > 0 {
        lemma_sum_of_minus_to(s.drop_last(), x);
        assert((s.len() - 1) * x + x == s.len() * x) by (nonlinear_arith);
    }
}

/// Termwise bounds give bounds on the whole sum.
pub proof fn lemma_sum_of_bounds<A>(s: Seq<A>, f: spec_fn(A) -> int, lo: int, hi: int)
    requires
        forall|i: int| 0 <= i < s.len() ==> lo <= f(#[trigger] s[i]) && f(s[i]) <= hi,
    ensures
        s.len() * lo <= sum_of(s, f) <= s.len() * hi,
    decreases s.len(),
{
    if s.len() == 0 {
    } else {
        lemma_sum_of_bounds(s.drop_last(), f, lo, hi);
        assert((s.len() - 1) * lo + lo == s.len() * lo) by (nonlinear_arith);
        assert((s.len() - 1) * hi + hi == s.len() * hi) by (nonlinear_arith);
    }
}

/// Some position of `ord` holds the index `p`.
pub open spec fn hits_index(ord: Seq<usize>, p: int) -> bool {
    exists|k: int| 0 <= k < ord.len() && (#[trigger] ord[k]) == p
}

/// A termwise magnitude bound gives a magnitude bound on the whole sum.
pub proof fn lemma_sum_of_abs_bound<A>(s: Seq<A>, f: spec_fn(A) -> int, c: int)
    requires
        0 <= c,
        forall|i: int| 0 <= i < s.len() ==> -c <= f(#[trigger] s[i]) && f(s[i]) <= c,
    ensures
        -(s.len() * c) <= sum_of(s, f) <= s.len() * c,
{
    lemma_sum_of_bounds(s, f, -c, c);
    assert(s.len() * (-c) == -(s.len() * c)) by (nonlinear_arith);
}

/// `ord` enumerates every position of `s` exactly once.
pub open spec fn is_index_bijection(ord: Seq<usize>, n: nat) -> bool {
    &&& ord.len() == n
    &&& forall|k: int| 0 <= k < ord.len() ==> (#[trigger] ord[k]) < n
    &&& forall|k1: int, k2: int|
        0 <= k1 < ord.len() && 0 <= k2 < ord.len() && k1 != k2 ==> #[trigger] ord[k1]
            != #[trigger] ord[k2]
    &&& forall|p: int| 0 <= p < n ==> #[trigger] hits_index(ord, p)
}

/// Reading `s` through an index bijection leaves every sum unchanged.
pub proof fn lemma_sum_of_reindex<A>(s: Seq<A>, ord: Seq<usize>, f: spec_fn(A) -> int)
    requires
        is_index_bijection(ord, s.len()),
    ensures
        sum_of(Seq::new(ord.len(), |k: int| s[ord[k] as int]), f) == sum_of(s, f),
    decreases s.len(),
{
    let w = Seq::new(ord.len(), |k: int| s[ord[k] as int]);
    if s.len() == 0 {
    } else {
        let n = s.len() as int;
        let j = ord[n - 1] as int;
        let ord2 = Seq::new((n - 1) as nat, |k: int| if ord[k] < ord[n - 1] { ord[k] } else { (ord[k] - 1) as usize });
        let s2 = s.remove(j);
        assert(is_index_bijection(ord2, s2.len())) by {
            assert forall|p: int| 0 <= p < s2.len() implies #[trigger] hits_index(ord2, p) by {
                let porig: int = if p < j { p } else { p + 1 };
                assert(hits_index(ord, porig));
                let k0 = choose|k: int| 0 <= k < ord.len() && (#[trigger] ord[k]) == porig;
                assert(k0 != n - 1);
                assert(ord2[k0] == p);
            }
        }
        lemma_sum_of_reindex(s2, ord2, f);
        let w2 = Seq::new(ord2.len(), |k: int| s2[ord2[k] as int]);
        assert(w.drop_last() =~= w2) by {
            assert forall|k: int| 0 <= k < w2.len() implies w.drop_last()[k] == w2[k] by {
                assert(ord[k] != ord[n - 1]);
                if ord[k] < ord[n - 1] {
                    assert(s2[ord2[k] as int] == s[ord[k] as int]);
                } else {
                    assert(s2[ord2[k] as int] == s[ord[k] as int]);
                }
            }
        }
        assert(w.last() == s[j]);
        lemma_sum_of_remove(s, j, f);
    }
}

} // verus!
