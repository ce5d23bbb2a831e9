//! Stable insertion sort over values that carry a total preorder.
use vstd::prelude::*;
use crate::text::Order;

verus! {

broadcast use vstd::seq_lib::group_to_multiset_ensures;

/// Values that can be put in order: `ranked` is a total preorder, and `compare` computes it.
pub trait Ranked: Sized {
    /// How `self` stands to `other`.
    spec fn ranked(self, other: Self) -> Order;

    /// Comparing the other way round gives the opposite outcome.
    proof fn lemma_ranked_flip(a: Self, b: Self)
        ensures
            a.ranked(b) == b.ranked(a).flip(),
    ;

    /// The order is transitive, and strictly so when one step is strict.
    proof fn lemma_ranked_transitive(a: Self, b: Self, c: Self)
        requires
            a.ranked(b) != Order::Greater,
            b.ranked(c) != Order::Greater,
        ensures
            a.ranked(c) != Order::Greater,
            (a.ranked(b) == Order::Less || b.ranked(c) == Order::Less) ==> a.ranked(c)
                == Order::Less,
    ;

    /// How `self` stands to `other`.
    fn compare(&self, other: &Self) -> (res: Order)
        ensures
            res == self.ranked(*other),
    ;
}

/// No element comes after one that should follow it.
pub open spec fn sorted_by_rank<T: Ranked>(s: Seq<T>) -> bool {
    forall|i: int, j: int| 0 <= i < j < s.len() ==> #[trigger] s[i].ranked(s[j]) != Order::Greater
}

/// Puts the values in order; values that compare equal keep their relative order.
pub fn sort_ranked<T: Ranked>(v: Vec<T>) -> (res: Vec<T>)
    ensures
        res@.to_multiset() == v@.to_multiset(),
        res.len() == v.len(),
        sorted_by_rank(res@),
{
    let ghost orig = v@;
    let mut rest = v;
    let mut out: Vec<T> = Vec::new();
    let ghost mut k: int = 0;
    assert(orig.take(0) =~= Seq::<T>::empty());
    assert(orig.skip(0) =~= orig);
    while rest.len() > 0
        invariant
            0 <= k <= orig.len(),
            rest@ == orig.skip(k),
            out@.to_multiset() == orig.take(k).to_multiset(),
            out.len() == k,
            sorted_by_rank(out@),
        decreases rest.len(),
    {
        let x = rest.remove(0);
        assert(x == orig[k]);
        let mut p: usize = 0;
        while p < out.len() && x.compare(&out[p]) != Order::Less
            invariant
                p <= out.len(),
                forall|m: int| 0 <= m < p ==> x.ranked(#[trigger] out@[m]) != Order::Less,
            decreases out.len() - p,
        {
            p = p + 1;
        }
        let ghost before = out@;
        proof {
            assert forall|m: int| 0 <= m < p implies #[trigger] before[m].ranked(x)
                != Order::Greater by {
                T::lemma_ranked_flip(before[m], x);
            }
            if p < before.len() {
                assert(x.ranked(before[p as int]) == Order::Less);
            }
        }
        out.insert(p, x);
        proof {
            let s = out@;
            assert(s == before.insert(p as int, x));
            assert forall|i: int, j: int| 0 <= i < j < s.len() implies #[trigger] s[i].ranked(s[j])
                != Order::Greater by {
                if j < p {
                    assert(s[i] == before[i] && s[j] == before[j]);
                } else if j == p {
                    assert(s[i] == before[i]);
                } else if i == p {
                    assert(s[j] == before[j - 1]);
                    if j - 1 > p {
                        assert(before[p as int].ranked(before[j - 1]) != Order::Greater);
                        T::lemma_ranked_transitive(x, before[p as int], before[j - 1]);
                    }
                } else if i < p {
                    assert(s[i] == before[i] && s[j] == before[j - 1]);
                } else {
                    assert(s[i] == before[i - 1] && s[j] == before[j - 1]);
                }
            }
            assert(orig.take(k + 1) =~= orig.take(k).push(orig[k]));
            k = k + 1;
            assert(rest@ =~= orig.skip(k));
        }
    }
    assert(orig.take(k) =~= orig);
    out
}

/// No two different values of `s` compare equal.
pub open spec fn strictly_ranked<T: Ranked>(s: Seq<T>) -> bool {
    forall|i: int, j: int| 0 <= i < s.len() && 0 <= j < s.len() && i != j ==> #[trigger] s[i].ranked(s[j]) != Order::Equal
}

/// When no two values compare equal, there is one sorted arrangement only.
pub proof fn lemma_sorted_unique<T: Ranked>(a: Seq<T>, b: Seq<T>, orig: Seq<T>)
    requires
        a.to_multiset() == orig.to_multiset(),
        b.to_multiset() == orig.to_multiset(),
        strictly_ranked(orig),
        sorted_by_rank(a),
        sorted_by_rank(b),
    ensures
        a == b,
    decreases a.len(),
{
    broadcast use vstd::seq_lib::group_to_multiset_ensures;

    vstd::seq_lib::to_multiset_len(a);
    vstd::seq_lib::to_multiset_len(b);
    vstd::seq_lib::to_multiset_len(orig);
    assert(a.len() == orig.len() && b.len() == orig.len());
    if a.len() == 0 {
        assert(a =~= b);
    } else {
        let x = a[0];
        let y = b[0];
        assert(a.to_multiset().count(x) > 0);
        assert(b.to_multiset().count(y) > 0);
        assert(b.contains(x));
        assert(a.contains(y));
        let i = choose|i: int| 0 <= i < a.len() && a[i] == y;
        let j = choose|j: int| 0 <= j < b.len() && b[j] == x;
        if i > 0 {
            assert(a[0].ranked(a[i]) != Order::Greater);
        } else {
            T::lemma_ranked_flip(x, x);
        }
        if j > 0 {
            assert(b[0].ranked(b[j]) != Order::Greater);
        } else {
            T::lemma_ranked_flip(y, y);
        }
        T::lemma_ranked_flip(x, y);
        assert(x.ranked(y) == Order::Equal);
        if x != y {
            assert(orig.contains(x));
            assert(orig.contains(y));
            let m = choose|m: int| 0 <= m < orig.len() && orig[m] == x;
            let n = choose|n: int| 0 <= n < orig.len() && orig[n] == y;
            assert(orig[m].ranked(orig[n]) != Order::Equal);
        }
        assert(x == y);
        let a1 = a.drop_first();
        let b1 = b.drop_first();
        assert(a.remove(0) =~= a1);
        assert(b.remove(0) =~= b1);
        let rest = orig.to_multiset().remove(x);
        assert(orig.contains(x));
        let m = choose|m: int| 0 <= m < orig.len() && orig[m] == x;
        let o1 = orig.remove(m);
        assert(o1.to_multiset() == rest);
        assert(a1.to_multiset() == rest);
        assert(b1.to_multiset() == rest);
        assert(strictly_ranked(o1)) by {
            assert forall|p: int, q: int| 0 <= p < o1.len() && 0 <= q < o1.len() && p != q implies #[trigger] o1[p].ranked(o1[q]) != Order::Equal by {
                let p2 = if p < m { p } else { p + 1 };
                let q2 = if q < m { q } else { q + 1 };
                assert(o1[p] == orig[p2] && o1[q] == orig[q2]);
            }
        }
        assert(sorted_by_rank(a1)) by {
            assert forall|p: int, q: int| 0 <= p < q < a1.len() implies #[trigger] a1[p].ranked(a1[q]) != Order::Greater by {
                assert(a1[p] == a[p + 1] && a1[q] == a[q + 1]);
            }
        }
        assert(sorted_by_rank(b1)) by {
            assert forall|p: int, q: int| 0 <= p < q < b1.len() implies #[trigger] b1[p].ranked(b1[q]) != Order::Greater by {
                assert(b1[p] == b[p + 1] && b1[q] == b[q + 1]);
            }
        }
        lemma_sorted_unique(a1, b1, o1);
        assert(a =~= b) by {
            assert forall|p: int| 0 <= p < a.len() implies a[p] == b[p] by {
                if p > 0 {
                    assert(a[p] == a1[p - 1] && b[p] == b1[p - 1]);
                }
            }
        }
    }
}

} // verus!
