//! Sorting of `u64` sequences, used by the commit-index computation.

use vstd::prelude::*;
use vstd::multiset::Multiset;
use vstd::relations::{sorted_by, total_ordering};
use vstd::seq_lib::lemma_sorted_unique;
use vstd::seq_lib::lemma_multiset_commutative;

verus! {

broadcast use vstd::seq_lib::group_to_multiset_ensures, vstd::multiset::group_multiset_axioms;

/// The ascending order on `u64`.
pub open spec fn u64_leq() -> spec_fn(u64, u64) -> bool {
    |a: u64, b: u64| a <= b
}

/// The ascending sort of a sequence of `u64` values.
pub open spec fn sorted_u64(s: Seq<u64>) -> Seq<u64> {
    s.sort_by(u64_leq())
}

/// The ascending order on `u64` is a total order.
pub proof fn lemma_u64_leq_total()
    ensures
        total_ordering(u64_leq()),
{
}

proof fn lemma_insert_multiset(s: Seq<u64>, pos: int, x: u64)
    requires
        0 <= pos <= s.len(),
    ensures
        s.insert(pos, x).to_multiset() =~= s.to_multiset().insert(x),
{
    let a = s.subrange(0, pos);
    let b = s.subrange(pos, s.len() as int);
    assert(s =~= a + b);
    assert(s.insert(pos, x) =~= a + (seq![x] + b));
    lemma_multiset_commutative(a, seq![x] + b);
    lemma_multiset_commutative(seq![x], b);
    lemma_multiset_commutative(a, b);
    assert(seq![x].to_multiset() =~= Multiset::singleton(x)) by {
        assert(seq![x] =~= Seq::<u64>::empty().push(x));
    }
}

/// Returns the values of `v` in ascending order.
pub fn sort_ascending(v: &Vec<u64>) -> (r: Vec<u64>)
    ensures
        r@ == sorted_u64(v@),
        r@.len() == v@.len(),
{
    let mut out: Vec<u64> = Vec::new();
    let mut i: usize = 0;
    while i < v.len()
        invariant
            i <= v.len(),
            sorted_by(out@, u64_leq()),
            out@.to_multiset() == v@.subrange(0, i as int).to_multiset(),
        decreases v.len() - i,
    {
        let x = v[i];
        // find the first position holding a larger value
        let mut p: usize = 0;
        while p < out.len() && out[p] <= x
            invariant
                p <= out.len(),
                forall|k: int| 0 <= k < p ==> out@[k] <= x,
            decreases out.len() - p,
        {
            p = p + 1;
        }
        proof {
            lemma_insert_multiset(out@, p as int, x);
            assert(v@.subrange(0, i + 1) =~= v@.subrange(0, i as int).push(x));
        }
        let ghost old_out = out@;
        out.insert(p, x);
        assert(sorted_by(out@, u64_leq())) by {
            assert forall|a: int, b: int| 0 <= a < b < out@.len() implies #[trigger] (u64_leq())(out@[a], out@[b]) by {
                if b < p {
                    assert((u64_leq())(old_out[a], old_out[b]));
                } else if b == p {
                } else if a < p {
                    assert(out@[b] == old_out[b - 1]);
                    if p < old_out.len() {
                        assert((u64_leq())(old_out[p as int], old_out[b - 1]));
                    }
                } else if a == p {
                    assert(out@[b] == old_out[b - 1]);
                    assert((u64_leq())(old_out[p as int], old_out[b - 1]));
                } else {
                    assert((u64_leq())(old_out[a - 1], old_out[b - 1]));
                }
            }
        }
        i = i + 1;
    }
    proof {
        assert(v@.subrange(0, v@.len() as int) =~= v@);
        v@.lemma_sort_by_ensures(u64_leq());
        lemma_sorted_unique(out@, sorted_u64(v@), u64_leq());
        assert(out@.to_multiset().len() == v@.to_multiset().len());
    }
    out
}

} // verus!
