//! Ordered insertion and the insertion sort it defines, over an arbitrary
//! "comes no later than" relation.

use vstd::prelude::*;

verus! {

/// `x` placed into `s` after every leading element that comes no later than `x`.
pub open spec fn insert_in_order<A>(s: Seq<A>, x: A, le: spec_fn(A, A) -> bool) -> Seq<A>
    decreases s.len(),
{
    if s.len() == 0 {
        seq![x]
    } else if le(s[0], x) {
        seq![s[0]] + insert_in_order(s.drop_first(), x, le)
    } else {
        seq![x] + s
    }
}

/// Stable insertion sort of `s`: its elements are inserted one after the other,
/// each behind the elements already placed that come no later than it.
pub open spec fn sort_in_order<A>(s: Seq<A>, le: spec_fn(A, A) -> bool) -> Seq<A>
    decreases s.len(),
{
    if s.len() == 0 {
        s
    } else {
        insert_in_order(sort_in_order(s.drop_last(), le), s.last(), le)
    }
}

/// Every element comes no later than every element after it.
pub open spec fn in_order<A>(s: Seq<A>, le: spec_fn(A, A) -> bool) -> bool {
    forall|i: int, j: int| 0 <= i < j < s.len() ==> #[trigger] le(s[i], s[j])
}

/// `le` is a total preorder: any two elements compare, and it is transitive.
pub open spec fn total_preorder<A>(le: spec_fn(A, A) -> bool) -> bool {
    &&& forall|a: A, b: A| #[trigger] le(a, b) || #[trigger] le(b, a)
    &&& forall|a: A, b: A, c: A| #[trigger] le(a, b) && #[trigger] le(b, c) ==> le(a, c)
}

/// Inserting at the first position whose element does not come before `x`
/// is what `insert_in_order` does.
pub proof fn lemma_insert_position<A>(s: Seq<A>, x: A, le: spec_fn(A, A) -> bool, k: int)
    requires
        0 <= k <= s.len(),
        forall|i: int| 0 <= i < k ==> le(#[trigger] s[i], x),
        k < s.len() ==> !le(s[k], x),
    ensures
        insert_in_order(s, x, le) == s.insert(k, x),
    decreases k,
{
    if k == 0 {
        if s.len() == 0 {
            assert(s.insert(0, x) =~= seq![x]);
        } else {
            assert(s.insert(0, x) =~= seq![x] + s);
        }
    } else {
        let t = s.drop_first();
        assert forall|i: int| 0 <= i < k - 1 implies le(#[trigger] t[i], x) by {
            assert(t[i] == s[i + 1]);
        }
        lemma_insert_position(t, x, le, k - 1);
        assert(s.insert(k, x) =~= seq![s[0]] + t.insert(k - 1, x));
    }
}

/// Insertion keeps the elements and adds `x` once.
pub proof fn lemma_insert_in_order_multiset<A>(s: Seq<A>, x: A, le: spec_fn(A, A) -> bool)
    ensures
        insert_in_order(s, x, le).to_multiset() =~= s.to_multiset().insert(x),
    decreases s.len(),
{
    broadcast use vstd::seq_lib::group_to_multiset_ensures;

    if s.len() == 0 {
        assert(seq![x] =~= Seq::<A>::empty().push(x));
    } else if le(s[0], x) {
        let t = s.drop_first();
        lemma_insert_in_order_multiset(t, x, le);
        vstd::seq_lib::lemma_multiset_commutative(seq![s[0]], insert_in_order(t, x, le));
        vstd::seq_lib::lemma_multiset_commutative(seq![s[0]], t);
        assert(s =~= seq![s[0]] + t);
    } else {
        vstd::seq_lib::lemma_multiset_commutative(seq![x], s);
        assert(seq![x] =~= Seq::<A>::empty().push(x));
    }
}

/// Insertion into a sequence in order leaves it in order.
pub proof fn lemma_insert_in_order_sorted<A>(s: Seq<A>, x: A, le: spec_fn(A, A) -> bool)
    requires
        total_preorder(le),
        in_order(s, le),
    ensures
        in_order(insert_in_order(s, x, le), le),
        insert_in_order(s, x, le).len() == s.len() + 1,
        forall|i: int|
            0 <= i < insert_in_order(s, x, le).len() ==> (#[trigger] insert_in_order(s, x, le)[i]
                == x || s.contains(insert_in_order(s, x, le)[i])),
    decreases s.len(),
{
    let r = insert_in_order(s, x, le);
    if s.len() == 0 {
    } else if le(s[0], x) {
        let t = s.drop_first();
        assert(in_order(t, le)) by {
            assert forall|i: int, j: int| 0 <= i < j < t.len() implies #[trigger] le(t[i], t[j]) by {
                assert(le(s[i + 1], s[j + 1]));
            }
        }
        lemma_insert_in_order_sorted(t, x, le);
        let rt = insert_in_order(t, x, le);
        assert forall|i: int| 0 <= i < r.len() implies (#[trigger] r[i] == x || s.contains(r[i])) by {
            if i > 0 {
                assert(r[i] == rt[i - 1]);
                if rt[i - 1] != x {
                    let k = choose|k: int| 0 <= k < t.len() && t[k] == rt[i - 1];
                    assert(s[k + 1] == r[i]);
                }
            } else {
                assert(s[0] == r[0]);
            }
        }
        assert forall|i: int, j: int| 0 <= i < j < r.len() implies #[trigger] le(r[i], r[j]) by {
            if i == 0 {
                assert(r[0] == s[0]);
                assert(r[j] == rt[j - 1]);
                if rt[j - 1] == x {
                } else {
                    let k = choose|k: int| 0 <= k < t.len() && t[k] == rt[j - 1];
                    assert(le(s[0], s[k + 1]));
                }
            } else {
                assert(r[i] == rt[i - 1]);
                assert(r[j] == rt[j - 1]);
            }
        }
    } else {
        assert(le(x, s[0]));
        assert forall|i: int| 0 <= i < r.len() implies (#[trigger] r[i] == x || s.contains(r[i])) by {
            if i > 0 {
                assert(r[i] == s[i - 1]);
            }
        }
        assert forall|i: int, j: int| 0 <= i < j < r.len() implies #[trigger] le(r[i], r[j]) by {
            if i == 0 {
                assert(r[j] == s[j - 1]);
                if j - 1 > 0 {
                    assert(le(s[0], s[j - 1]));
                }
            } else {
                assert(r[i] == s[i - 1]);
                assert(r[j] == s[j - 1]);
            }
        }
    }
}

/// The insertion sort puts its input in order and keeps its elements, each
/// as often as it occurs.
pub proof fn lemma_sort_in_order<A>(s: Seq<A>, le: spec_fn(A, A) -> bool)
    requires
        total_preorder(le),
    ensures
        in_order(sort_in_order(s, le), le),
        sort_in_order(s, le).to_multiset() =~= s.to_multiset(),
        sort_in_order(s, le).len() == s.len(),
    decreases s.len(),
{
    broadcast use vstd::seq_lib::group_to_multiset_ensures;

    if s.len() > 0 {
        lemma_sort_in_order(s.drop_last(), le);
        lemma_insert_in_order_sorted(sort_in_order(s.drop_last(), le), s.last(), le);
        lemma_insert_in_order_multiset(sort_in_order(s.drop_last(), le), s.last(), le);
        assert(s =~= s.drop_last().push(s.last()));
    }
}

} // verus!
