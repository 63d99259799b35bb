//! Putting items in order, for anything with a strict weak order.

use crate::order::{lemma_path_order, path_lt};
use crate::path::PathName;
use vstd::prelude::*;
use vstd::multiset::Multiset;
use vstd::seq_lib::*;

verus! {

/// A strict weak order: what a sort needs to put items in line.
pub trait Ordered: Sized {
    /// `self` goes strictly before `other`.
    spec fn before(&self, other: &Self) -> bool;

    /// `before` is irreflexive and transitive, and so is not going before.
    proof fn lemma_order(a: &Self, b: &Self, c: &Self)
        ensures
            !a.before(a),
            a.before(b) && b.before(c) ==> a.before(c),
            !a.before(b) && !b.before(c) ==> !a.before(c),
    ;

    /// Whether `self` goes strictly before `other`.
    fn precedes(&self, other: &Self) -> (r: bool)
        ensures
            r == self.before(other),
    ;
}

/// No item of `s` goes before an item to its left.
pub open spec fn in_order<T: Ordered>(s: Seq<T>) -> bool {
    forall|i: int, j: int| 0 <= i < j < s.len() ==> !#[trigger] s[j].before(&s[i])
}

/// `perm` tells where each item of `r` came from among `n` items: no two
/// came from the same place, and of two items where the first does not go
/// strictly before the second, the first came first.
pub open spec fn arranges<T: Ordered>(r: Seq<T>, n: nat, perm: Seq<int>) -> bool {
    &&& perm.len() == r.len() == n
    &&& forall|k: int| 0 <= k < r.len() ==> 0 <= #[trigger] perm[k] < n
    &&& forall|a: int, b: int| 0 <= a < b < r.len() ==> #[trigger] perm[a] != #[trigger] perm[b]
    &&& forall|a: int, b: int| 0 <= a < b < r.len() && !r[a].before(&r[b]) ==> #[trigger] perm[a] < #[trigger] perm[b]
}

/// The items of `v`, put in order by insertion: items that neither goes
/// before the other keep their order.
pub fn sort_items<T: Ordered>(v: Vec<T>) -> (r: Vec<T>)
    ensures
        r@.to_multiset() == v@.to_multiset(),
        in_order(r@),
        exists|perm: Seq<int>| #[trigger] arranges(r@, v@.len(), perm) && forall|k: int| 0 <= k < r@.len() ==> r@[k] == v@[perm[k]],
{
    broadcast use group_to_multiset_ensures;

    let mut rest = v;
    let mut r: Vec<T> = Vec::new();
    let ghost all = rest@.to_multiset();
    let ghost mut perm: Seq<int> = Seq::empty();
    let ghost mut i: int = 0;
    assert(r@.to_multiset() =~= Multiset::<T>::empty());
    assert(rest@ =~= v@.skip(0));
    while rest.len() > 0
        invariant
            all == v@.to_multiset(),
            r@.to_multiset().add(rest@.to_multiset()) == all,
            in_order(r@),
            0 <= i <= v@.len(),
            rest@ == v@.skip(i),
            r@.len() == i,
            perm.len() == i,
            forall|k: int| 0 <= k < r@.len() ==> 0 <= #[trigger] perm[k] < i && r@[k] == v@[perm[k]],
            forall|a: int, b: int| 0 <= a < b < r@.len() ==> #[trigger] perm[a] != #[trigger] perm[b],
            forall|a: int, b: int| 0 <= a < b < r@.len() && !r@[a].before(&r@[b]) ==> #[trigger] perm[a] < #[trigger] perm[b],
        decreases rest.len(),
    {
        let ghost rest0 = rest@;
        let x = rest.remove(0);
        assert(rest@ == rest0.remove(0));
        assert(x == v@[i]) by {
            assert(rest0[0] == v@.skip(i)[0]);
        }
        assert(rest@ =~= v@.skip(i + 1));
        proof {
            to_multiset_remove(rest0, 0);
        }
        assert(rest@.to_multiset() == rest0.to_multiset().remove(x));
        let mut p = r.len();
        while p > 0 && x.precedes(&r[p - 1])
            invariant
                p <= r.len(),
                in_order(r@),
                forall|k: int| p <= k < r.len() ==> x.before(&r@[k]),
            decreases p,
        {
            p = p - 1;
        }
        let ghost old_r = r@;
        let ghost old_perm = perm;
        proof {
            assert forall|i: int| 0 <= i < p implies !x.before(&old_r[i]) by {
                T::lemma_order(&x, &old_r[p - 1], &old_r[i]);
            }
            assert forall|j: int| p <= j < old_r.len() implies !old_r[j].before(&x) by {
                T::lemma_order(&x, &old_r[j], &x);
            }
        }
        r.insert(p, x);
        proof {
            assert(r@ == old_r.insert(p as int, x));
            assert forall|i: int, j: int| 0 <= i < j < r@.len() implies !#[trigger] r@[j].before(&r@[i]) by {
                if j < p {
                    assert(r@[i] == old_r[i] && r@[j] == old_r[j]);
                } else if j == p {
                    assert(r@[i] == old_r[i]);
                } else if i == p {
                    assert(r@[j] == old_r[j - 1]);
                } else if i < p {
                    assert(r@[i] == old_r[i] && r@[j] == old_r[j - 1]);
                } else {
                    assert(r@[i] == old_r[i - 1] && r@[j] == old_r[j - 1]);
                }
            }
            perm = old_perm.insert(p as int, i);
            assert forall|k: int| 0 <= k < r@.len() implies 0 <= #[trigger] perm[k] < i + 1 && r@[k] == v@[perm[k]] by {
                if k < p {
                    assert(r@[k] == old_r[k] && perm[k] == old_perm[k]);
                } else if k > p {
                    assert(r@[k] == old_r[k - 1] && perm[k] == old_perm[k - 1]);
                }
            }
            assert forall|a: int, b: int| 0 <= a < b < r@.len() implies #[trigger] perm[a] != #[trigger] perm[b] by {
                if b < p {
                    assert(perm[a] == old_perm[a] && perm[b] == old_perm[b]);
                } else if b == p {
                    assert(perm[a] == old_perm[a]);
                } else if a == p {
                    assert(perm[b] == old_perm[b - 1]);
                } else if a < p {
                    assert(perm[a] == old_perm[a] && perm[b] == old_perm[b - 1]);
                } else {
                    assert(perm[a] == old_perm[a - 1] && perm[b] == old_perm[b - 1]);
                }
            }
            assert forall|a: int, b: int| 0 <= a < b < r@.len() && !r@[a].before(&r@[b]) implies #[trigger] perm[a] < #[trigger] perm[b] by {
                if b < p {
                    assert(perm[a] == old_perm[a] && perm[b] == old_perm[b]);
                    assert(r@[a] == old_r[a] && r@[b] == old_r[b]);
                } else if b == p {
                    assert(perm[a] == old_perm[a]);
                } else if a == p {
                    assert(r@[b] == old_r[b - 1]);
                    assert(x.before(&old_r[b - 1]));
                } else if a < p {
                    assert(perm[a] == old_perm[a] && perm[b] == old_perm[b - 1]);
                    assert(r@[a] == old_r[a] && r@[b] == old_r[b - 1]);
                } else {
                    assert(perm[a] == old_perm[a - 1] && perm[b] == old_perm[b - 1]);
                    assert(r@[a] == old_r[a - 1] && r@[b] == old_r[b - 1]);
                }
            }
            i = i + 1;
            to_multiset_insert(old_r, p as int, x);
            assert(r@.to_multiset() == old_r.to_multiset().insert(x));
            assert(rest0[0] == x);
            rest0.to_multiset_ensures();
            assert(rest0.to_multiset().contains(x));
            assert(r@.to_multiset().add(rest@.to_multiset()) =~= all);
        }
    }
    assert(rest@.to_multiset() =~= Multiset::<T>::empty());
    assert(r@.to_multiset() =~= all);
    assert(arranges(r@, v@.len(), perm));
    r
}

/// Two sequences with the same items still have the same items once each item
/// is mapped through `f`.
pub proof fn lemma_map_same_items<A, B>(a: Seq<A>, b: Seq<A>, f: spec_fn(A) -> B)
    requires
        a.to_multiset() == b.to_multiset(),
    ensures
        a.map_values(f).to_multiset() == b.map_values(f).to_multiset(),
    decreases a.len(),
{
    broadcast use group_to_multiset_ensures;

    to_multiset_len(a);
    to_multiset_len(b);
    if a.len() == 0 {
        assert(a.map_values(f) =~= b.map_values(f));
    } else {
        let x = a.last();
        assert(a.contains(x)) by {
            assert(a[a.len() - 1] == x);
        }
        to_multiset_contains(a, x);
        to_multiset_contains(b, x);
        let i = choose|i: int| 0 <= i < b.len() && b[i] == x;
        let a2 = a.drop_last();
        let b2 = b.remove(i);
        assert(a =~= a2.push(x));
        to_multiset_build(a2, x);
        to_multiset_remove(b, i);
        assert(a2.to_multiset() =~= a.to_multiset().remove(x));
        lemma_map_same_items(a2, b2, f);
        assert(a.map_values(f) =~= a2.map_values(f).push(f(x)));
        to_multiset_build(a2.map_values(f), f(x));
        assert(b =~= b2.insert(i, x));
        assert(b.map_values(f) =~= b2.map_values(f).insert(i, f(x)));
        to_multiset_insert(b2.map_values(f), i, f(x));
    }
}

impl Ordered for PathName {
    open spec fn before(&self, other: &Self) -> bool {
        path_lt(self@, other@)
    }

    proof fn lemma_order(a: &Self, b: &Self, c: &Self) {
        lemma_path_order(a@, b@, c@);
        lemma_path_order(a@, c@, b@);
        lemma_path_order(b@, a@, c@);
        lemma_path_order(b@, c@, a@);
    }

    fn precedes(&self, other: &Self) -> (r: bool) {
        self.less_than(other)
    }
}

} // verus!
