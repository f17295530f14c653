//! Sorting a vector by a total order on what its items stand for.

use vstd::prelude::*;
use vstd::relations::sorted_by;
use vstd::relations::total_ordering;

verus! {

broadcast use {vstd::seq_lib::group_to_multiset_ensures, vstd::multiset::group_multiset_axioms};

/// What the items of a sequence stand for.
pub open spec fn deep<T: DeepView>(s: Seq<T>) -> Seq<T::V> {
    Seq::new(s.len(), |i: int| s[i].deep_view())
}

/// Items with a total order on what they stand for.
pub trait Ranked: DeepView + Sized {
    /// `a` may stand before `b`.
    spec fn leq() -> spec_fn(Self::V, Self::V) -> bool;

    proof fn total()
        ensures
            total_ordering(Self::leq()),
    ;

    /// Whether this item may stand before the other.
    fn ranks(&self, other: &Self) -> (r: bool)
        ensures
            r == Self::leq()(self.deep_view(), other.deep_view()),
    ;
}

/// The same items, in order.
pub fn sort<T: Ranked>(items: Vec<T>) -> (out: Vec<T>)
    ensures
        deep(out@) == deep(items@).sort_by(T::leq()),
        out@.to_multiset() == items@.to_multiset(),
{
    let ghost all = items@;
    let mut rest = items;
    let mut out: Vec<T> = Vec::new();
    let ghost leq = T::leq();
    proof {
        T::total();
        assert(deep(rest@).to_multiset().add(deep(out@).to_multiset()) =~= deep(
            all,
        ).to_multiset());
        assert(rest@.to_multiset().add(out@.to_multiset()) =~= all.to_multiset());
    }
    while rest.len() > 0
        invariant
            leq == T::leq(),
            total_ordering(leq),
            sorted_by(deep(out@), leq),
            deep(rest@).to_multiset().add(deep(out@).to_multiset()) == deep(all).to_multiset(),
            rest@.to_multiset().add(out@.to_multiset()) == all.to_multiset(),
        decreases rest.len(),
    {
        let ghost rest0 = rest@;
        let ghost out0 = out@;
        if let Some(x) = rest.pop() {
            let mut k: usize = 0;
            while k < out.len() && out[k].ranks(&x)
                invariant
                    k <= out.len(),
                    leq == T::leq(),
                    forall|j: int| 0 <= j < k ==> leq(#[trigger] deep(out@)[j], x.deep_view()),
                decreases out.len() - k,
            {
                proof {
                    assert(deep(out@)[k as int] == out@[k as int].deep_view());
                }
                k = k + 1;
            }
            out.insert(k, x);
            proof {
                let d0 = deep(out0);
                let d = deep(out@);
                let v = x.deep_view();
                assert(d =~= d0.insert(k as int, v));
                if k < out0.len() {
                    assert(d0[k as int] == out0[k as int].deep_view());
                    assert(leq(v, d0[k as int]));
                }
                assert forall|i: int, j: int| 0 <= i < j < d.len() implies #[trigger] leq(
                    d[i],
                    d[j],
                ) by {
                    if j < k {
                        assert(leq(d0[i], d0[j]));
                    } else if i > k {
                        assert(leq(d0[i - 1], d0[j - 1]));
                    } else if j == k {
                        assert(leq(d0[i], v));
                    } else if i == k {
                        if j - 1 > k {
                            assert(leq(d0[k as int], d0[j - 1]));
                        }
                        assert(leq(v, d0[k as int]));
                        assert(leq(d0[k as int], d0[j - 1]));
                        assert(leq(v, d0[j - 1]));
                    } else {
                        assert(leq(d0[i], d0[j - 1]));
                    }
                }
                assert(sorted_by(d, leq));
                assert(deep(rest0) =~= deep(rest@).push(v));
                assert(rest0 =~= rest@.push(x));
                assert(deep(rest0).to_multiset() =~= deep(rest@).to_multiset().insert(v));
                assert(rest0.to_multiset() =~= rest@.to_multiset().insert(x));
                assert(d.to_multiset() =~= d0.to_multiset().insert(v)) by {
                    vstd::seq_lib::to_multiset_insert(d0, k as int, v);
                }
                assert(out@.to_multiset() =~= out0.to_multiset().insert(x)) by {
                    vstd::seq_lib::to_multiset_insert(out0, k as int, x);
                }
                assert(deep(rest@).to_multiset().add(d.to_multiset()) =~= deep(
                    rest0,
                ).to_multiset().add(d0.to_multiset()));
                assert(rest@.to_multiset().add(out@.to_multiset()) =~= rest0.to_multiset().add(
                    out0.to_multiset(),
                ));
            }
        }
    }
    proof {
        assert(deep(rest@) =~= Seq::empty());
        assert(deep(out@).to_multiset() =~= deep(all).to_multiset());
        assert(out@.to_multiset() =~= all.to_multiset());
        deep(all).lemma_sort_by_ensures(leq);
        vstd::seq_lib::lemma_sorted_unique(deep(out@), deep(all).sort_by(leq), leq);
    }
    out
}

} // verus!
