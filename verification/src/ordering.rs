//! Joint ordering of a sample pair: permute both vectors with the one
//! permutation that sorts the second vector ascending.
//!
//! The sort itself is rayon's parallel unstable sort on `(value, index)`
//! pairs; everything stated about the resulting permutation — that it is a
//! bijection on the positions, that the second vector comes out weakly
//! ascending, and that the statistics of the paired sample are unchanged —
//! is proved from the sort's multiset contract.

use vstd::prelude::*;

use rayon::slice::ParallelSliceMut;

use crate::model::dcov_sq_num;
use crate::model::frob;
use crate::model::ints;
use crate::model::is_sort_order;
use crate::model::lemma_dcov_sq_num_reindex;
use crate::model::non_decreasing;
use crate::model::reordered;
use crate::model::zipped;
use crate::sums::hits_index;
use crate::sums::is_index_bijection;

verus! {

/// Lexicographic order on `(value, original index)` pairs: what `Ord` of the
/// tuple compares by.
pub open spec fn pair_le(a: (i64, usize), b: (i64, usize)) -> bool {
    a.0 < b.0 || (a.0 == b.0 && a.1 <= b.1)
}

/// Relies on rayon's `ParallelSliceMut::par_sort_unstable`: it reorders the
/// elements of the slice — and does nothing else to them — into ascending
/// `Ord` order, which for `(i64, usize)` tuples is lexicographic order.
#[verifier::external_body]
fn par_sort_pairs(v: &mut Vec<(i64, usize)>)
    ensures
        final(v)@.to_multiset() == old(v)@.to_multiset(),
        final(v)@.len() == old(v)@.len(),
        forall|k1: int, k2: int|
            0 <= k1 <= k2 < final(v)@.len() ==> pair_le(
                #[trigger] final(v)@[k1],
                #[trigger] final(v)@[k2],
            ),
{
    v.par_sort_unstable();
}

/// Computes the permutation that sorts `keys` weakly ascending.
pub fn sort_perm(keys: &Vec<i64>) -> (ord: Vec<usize>)
    ensures
        is_sort_order(ord@, ints(keys@)),
{
    let n = keys.len();
    let mut pairs: Vec<(i64, usize)> = Vec::new();
    let mut i: usize = 0;
    while i < n
        invariant
            i <= n,
            n == keys@.len(),
            pairs@.len() == i,
            forall|k: int| 0 <= k < i ==> #[trigger] pairs@[k] == (keys@[k], k as usize),
        decreases n - i,
    {
        pairs.push((keys[i], i));
        i += 1;
    }
    let ghost orig = pairs@;
    par_sort_pairs(&mut pairs);
    let ghost sp = pairs@;
    proof {
        broadcast use vstd::seq_lib::group_to_multiset_ensures;

        assert(orig.no_duplicates());
        orig.lemma_multiset_has_no_duplicates();
        assert forall|x: (i64, usize)| sp.to_multiset().contains(x) implies sp.to_multiset().count(
            x,
        ) == 1 by {
            assert(orig.to_multiset().contains(x));
        }
        sp.lemma_multiset_has_no_duplicates_conv();
        assert forall|k: int| 0 <= k < sp.len() implies (#[trigger] sp[k]).1 < n && sp[k].0
            == keys@[sp[k].1 as int] by {
            assert(sp.contains(sp[k]));
            assert(sp.to_multiset().count(sp[k]) > 0);
            assert(orig.to_multiset().count(sp[k]) > 0);
            assert(orig.contains(sp[k]));
            let i0 = choose|i0: int| 0 <= i0 < orig.len() && orig[i0] == sp[k];
            assert(sp[k] == (keys@[i0], i0 as usize));
        }
    }
    let mut ord: Vec<usize> = Vec::new();
    let mut j: usize = 0;
    while j < pairs.len()
        invariant
            j <= pairs@.len(),
            ord@.len() == j,
            sp == pairs@,
            forall|k: int| 0 <= k < j ==> #[trigger] ord@[k] == sp[k].1,
        decreases pairs@.len() - j,
    {
        let p = pairs[j];
        ord.push(p.1);
        j += 1;
    }
    proof {
        broadcast use vstd::seq_lib::group_to_multiset_ensures;

        let s = ints(keys@);
        assert(sp.len() == n);
        assert forall|p: int| 0 <= p < n implies #[trigger] hits_index(ord@, p) by {
            assert(orig[p] == (keys@[p], p as usize));
            assert(orig.contains(orig[p]));
            assert(orig.to_multiset().count(orig[p]) > 0);
            assert(sp.to_multiset().count(orig[p]) > 0);
            assert(sp.contains(orig[p]));
            let k = choose|k: int| 0 <= k < sp.len() && sp[k] == orig[p];
            assert(ord@[k] == p);
        }
        assert forall|k1: int, k2: int|
            0 <= k1 < ord@.len() && 0 <= k2 < ord@.len() && k1 != k2 implies #[trigger] ord@[k1]
            != #[trigger] ord@[k2] by {
            if ord@[k1] == ord@[k2] {
                assert(sp[k1].0 == keys@[sp[k1].1 as int]);
                assert(sp[k2].0 == keys@[sp[k2].1 as int]);
                assert(sp[k1] == sp[k2]);
            }
        }
        assert(is_index_bijection(ord@, s.len()));
        assert forall|k1: int, k2: int| 0 <= k1 <= k2 < ord@.len() implies s[#[trigger] ord@[k1] as int]
            <= s[#[trigger] ord@[k2] as int] by {
            assert(pair_le(sp[k1], sp[k2]));
        }
    }
    ord
}

/// `v` read through `ord`: the vector whose `k`-th entry is `v[ord[k]]`.
pub fn gather(v: &Vec<i64>, ord: &Vec<usize>) -> (r: Vec<i64>)
    requires
        forall|k: int| 0 <= k < ord@.len() ==> (#[trigger] ord@[k]) < v@.len(),
    ensures
        r@ == reordered(v@, ord@),
{
    let mut r: Vec<i64> = Vec::new();
    let mut k: usize = 0;
    while k < ord.len()
        invariant
            k <= ord@.len(),
            r@.len() == k,
            forall|k2: int| 0 <= k2 < ord@.len() ==> (#[trigger] ord@[k2]) < v@.len(),
            forall|k2: int| 0 <= k2 < k ==> #[trigger] r@[k2] == v@[ord@[k2] as int],
        decreases ord@.len() - k,
    {
        r.push(v[ord[k]]);
        k += 1;
    }
    proof {
        assert(r@ =~= reordered(v@, ord@));
    }
    r
}

/// The result of ordering a sample pair with respect to its second vector.
pub struct Ordering {
    /// The first vector, reordered by the permutation that sorts the second.
    pub v1_per: Vec<i64>,
    /// The second vector, sorted weakly ascending.
    pub v2_ord: Vec<i64>,
    /// When requested, the permutation that would sort `v1_per` ascending.
    pub order_v1_per: Option<Vec<usize>>,
}

impl Ordering {
    /// Simultaneously permutes the two vectors so that `v2` becomes sorted,
    /// keeping the pairs `(v1[i], v2[i])` together; the paired-sample
    /// statistics are unchanged by the reordering.
    pub fn order_wrt_v2(v1: &Vec<i64>, v2: &Vec<i64>, store_order_v1: bool) -> (r: Ordering)
        requires
            v1@.len() == v2@.len(),
        ensures
            r.v1_per@.len() == v1@.len(),
            r.v2_ord@.len() == v1@.len(),
            non_decreasing(ints(r.v2_ord@)),
            exists|ord: Seq<usize>|
                #![trigger is_index_bijection(ord, v1@.len())]
                is_index_bijection(ord, v1@.len()) && r.v1_per@ == reordered(v1@, ord)
                    && r.v2_ord@ == reordered(v2@, ord),
            frob(zipped(ints(r.v1_per@), ints(r.v2_ord@))) == frob(zipped(ints(v1@), ints(v2@))),
            dcov_sq_num(zipped(ints(r.v1_per@), ints(r.v2_ord@))) == dcov_sq_num(
                zipped(ints(v1@), ints(v2@)),
            ),
            r.order_v1_per.is_some() <==> store_order_v1,
            store_order_v1 ==> is_sort_order(r.order_v1_per.unwrap()@, ints(r.v1_per@)),
    {
        let ord = sort_perm(v2);
        let v1_per = gather(v1, &ord);
        let v2_ord = gather(v2, &ord);
        proof {
            let s2 = ints(v2@);
            assert forall|i: int, j: int| 0 <= i <= j < ints(v2_ord@).len() implies ints(
                v2_ord@,
            )[i] <= ints(v2_ord@)[j] by {
                assert(s2[ord@[i] as int] <= s2[ord@[j] as int]);
            }
            let z = zipped(ints(v1@), ints(v2@));
            assert(zipped(ints(v1_per@), ints(v2_ord@)) =~= reordered(z, ord@));
            lemma_dcov_sq_num_reindex(z, ord@);
        }
        if store_order_v1 {
            let ord1 = sort_perm(&v1_per);
            Ordering { v1_per, v2_ord, order_v1_per: Some(ord1) }
        } else {
            Ordering { v1_per, v2_ord, order_v1_per: None }
        }
    }
}

/// Orders the pair with respect to `v2` and hands back just the two permuted
/// vectors.
pub fn order_wrt_v2_simple(v1: &Vec<i64>, v2: &Vec<i64>) -> (r: (Vec<i64>, Vec<i64>))
    requires
        v1@.len() == v2@.len(),
    ensures
        r.0@.len() == v1@.len(),
        r.1@.len() == v1@.len(),
        non_decreasing(ints(r.1@)),
        exists|ord: Seq<usize>|
            #![trigger is_index_bijection(ord, v1@.len())]
            is_index_bijection(ord, v1@.len()) && r.0@ == reordered(v1@, ord) && r.1@ == reordered(
                v2@,
                ord,
            ),
        frob(zipped(ints(r.0@), ints(r.1@))) == frob(zipped(ints(v1@), ints(v2@))),
        dcov_sq_num(zipped(ints(r.0@), ints(r.1@))) == dcov_sq_num(zipped(ints(v1@), ints(v2@))),
{
    let o = Ordering::order_wrt_v2(v1, v2, false);
    (o.v1_per, o.v2_ord)
}

} // verus!
