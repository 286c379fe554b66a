//! Stable ordering of listed items: the order `slice::sort_by` gives, stated
//! as insertion of each item, in turn, after every earlier item it does not
//! sort strictly before.

use vstd::prelude::*;

verus! {

/// `x` inserted into `sorted` just after the last item it does not sort
/// strictly before.
pub open spec fn insert_by<T>(sorted: Seq<T>, x: T, before: spec_fn(T, T) -> bool) -> Seq<T>
    decreases sorted.len(),
{
    if sorted.len() == 0 {
        seq![x]
    } else if before(x, sorted.last()) {
        insert_by(sorted.drop_last(), x, before).push(sorted.last())
    } else {
        sorted.push(x)
    }
}

/// `s` stably sorted: items that sort strictly before others come first, and
/// items that tie keep their order.
pub open spec fn sort_by<T>(s: Seq<T>, before: spec_fn(T, T) -> bool) -> Seq<T>
    decreases s.len(),
{
    if s.len() == 0 {
        s
    } else {
        insert_by(sort_by(s.drop_last(), before), s.last(), before)
    }
}

/// Where `x` stops: after an item it does not sort before, or at the front.
pub proof fn lemma_insert_by_stop<T>(s: Seq<T>, x: T, before: spec_fn(T, T) -> bool, i: int)
    requires
        0 <= i <= s.len(),
        i == 0 || !before(x, s[i - 1]),
    ensures
        insert_by(s.take(i), x, before) == s.take(i).push(x),
{
    if i > 0 {
        assert(s.take(i).last() == s[i - 1]);
    } else {
        assert(s.take(0) =~= Seq::<T>::empty());
        assert(seq![x] =~= Seq::<T>::empty().push(x));
    }
}

/// The result of inserting at position `i`.
pub proof fn lemma_insert_by_split<T>(s: Seq<T>, x: T, before: spec_fn(T, T) -> bool, i: int)
    requires
        0 <= i <= s.len(),
        i == 0 || !before(x, s[i - 1]),
        forall|j: int| i <= j < s.len() ==> #[trigger] before(x, s[j]),
    ensures
        insert_by(s, x, before) == s.take(i).push(x) + s.skip(i),
    decreases s.len() - i,
{
    if i == s.len() {
        assert(s.take(i) =~= s);
        lemma_insert_by_stop(s, x, before, i);
        assert(s.skip(i) =~= Seq::<T>::empty());
        assert(s.take(i).push(x) + s.skip(i) =~= s.take(i).push(x));
    } else {
        let t = s.drop_last();
        assert(before(x, s[s.len() - 1]));
        assert(s.last() == s[s.len() - 1]);
        if i > 0 {
            assert(t[i - 1] == s[i - 1]);
        }
        assert forall|j: int| i <= j < t.len() implies #[trigger] before(x, t[j]) by {
            assert(t[j] == s[j]);
        }
        lemma_insert_by_split(t, x, before, i);
        assert(t.take(i) =~= s.take(i));
        assert(t.skip(i).push(s.last()) =~= s.skip(i));
        assert(insert_by(s, x, before) == insert_by(t, x, before).push(s.last()));
        assert(s.take(i).push(x) + s.skip(i) =~= (t.take(i).push(x) + t.skip(i)).push(s.last()));
    }
}

/// `before` is a strict weak order: no item sorts before one that sorts
/// before it, and "does not sort before" chains.
pub open spec fn is_order<T>(before: spec_fn(T, T) -> bool) -> bool {
    &&& forall|a: T, b: T| #[trigger] before(a, b) ==> !before(b, a)
    &&& forall|a: T, b: T, c: T| #![trigger before(a, b), before(b, c)] !before(a, b) && !before(b, c) ==> !before(a, c)
}

/// No item of `s` sorts strictly before an earlier one.
pub open spec fn ordered<T>(s: Seq<T>, before: spec_fn(T, T) -> bool) -> bool {
    forall|i: int, j: int| 0 <= i < j < s.len() ==> !before(#[trigger] s[j], #[trigger] s[i])
}

proof fn lemma_insert_by<T>(s: Seq<T>, x: T, before: spec_fn(T, T) -> bool)
    ensures
        insert_by(s, x, before).to_multiset() == s.to_multiset().insert(x),
        forall|i: int| 0 <= i < insert_by(s, x, before).len() ==> #[trigger] insert_by(s, x, before)[i] == x || s.contains(
            insert_by(s, x, before)[i],
        ),
        is_order(before) && ordered(s, before) ==> ordered(insert_by(s, x, before), before),
    decreases s.len(),
{
    broadcast use vstd::seq_lib::group_to_multiset_ensures;

    let r = insert_by(s, x, before);
    if s.len() == 0 {
        assert(r =~= Seq::<T>::empty().push(x));
    } else {
        let p = s.drop_last();
        let last = s.last();
        assert(s =~= p.push(last));
        lemma_insert_by(p, x, before);
        if before(x, last) {
            let q = insert_by(p, x, before);
            assert(r == q.push(last));
            assert forall|i: int| 0 <= i < r.len() implies #[trigger] r[i] == x || s.contains(r[i]) by {
                if i < q.len() {
                    assert(r[i] == q[i]);
                    if q[i] != x {
                        let k = choose|k: int| 0 <= k < p.len() && p[k] == q[i];
                        assert(s[k] == q[i]);
                    }
                } else {
                    assert(s[s.len() - 1] == r[i]);
                }
            }
            if is_order(before) && ordered(s, before) {
                assert(ordered(p, before)) by {
                    assert forall|i: int, j: int| 0 <= i < j < p.len() implies !before(#[trigger] p[j], #[trigger] p[i]) by {
                        assert(p[i] == s[i] && p[j] == s[j]);
                    }
                }
                assert forall|i: int, j: int| 0 <= i < j < r.len() implies !before(#[trigger] r[j], #[trigger] r[i]) by {
                    if j < q.len() {
                        assert(r[i] == q[i] && r[j] == q[j]);
                    } else {
                        assert(r[j] == last);
                        assert(r[i] == q[i]);
                        if q[i] == x {
                            assert(before(x, last));
                        } else {
                            let k = choose|k: int| 0 <= k < p.len() && p[k] == q[i];
                            assert(s[k] == q[i] && s[s.len() - 1] == last);
                        }
                    }
                }
            }
        } else {
            assert(r == s.push(x));
            assert forall|i: int| 0 <= i < r.len() implies #[trigger] r[i] == x || s.contains(r[i]) by {
                if i < s.len() {
                    assert(r[i] == s[i]);
                }
            }
            if is_order(before) && ordered(s, before) {
                assert forall|i: int, j: int| 0 <= i < j < r.len() implies !before(#[trigger] r[j], #[trigger] r[i]) by {
                    if j < s.len() {
                        assert(r[i] == s[i] && r[j] == s[j]);
                    } else {
                        assert(r[j] == x && r[i] == s[i]);
                        if i < s.len() - 1 {
                            assert(!before(s[s.len() - 1], s[i]));
                            assert(!before(x, last) && !before(last, s[i]) ==> !before(x, s[i]));
                        }
                    }
                }
            }
        }
    }
}

/// Sorting keeps every item (as a multiset) and leaves no item sorting
/// strictly before an earlier one.
pub proof fn law_sort_by<T>(s: Seq<T>, before: spec_fn(T, T) -> bool)
    requires
        is_order(before),
    ensures
        ordered(sort_by(s, before), before),
        sort_by(s, before).to_multiset() == s.to_multiset(),
    decreases s.len(),
{
    broadcast use vstd::seq_lib::group_to_multiset_ensures;

    if s.len() > 0 {
        law_sort_by(s.drop_last(), before);
        lemma_insert_by(sort_by(s.drop_last(), before), s.last(), before);
        assert(s =~= s.drop_last().push(s.last()));
    } else {
        assert(sort_by(s, before) == s);
    }
}

} // verus!
