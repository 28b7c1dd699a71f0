//! Stable insertion sort over an ordering that each element type provides.
use vstd::prelude::*;

verus! {

/// A total preorder on the values of a type, by which they are sorted.
pub trait SortKey: Sized {
    /// Whether `self` may stand before `other` in sorted order.
    spec fn key_le(&self, other: &Self) -> bool;

    proof fn lemma_key_total(a: &Self, b: &Self)
        ensures
            a.key_le(b) || b.key_le(a),
    ;

    proof fn lemma_key_trans(a: &Self, b: &Self, c: &Self)
        requires
            a.key_le(b),
            b.key_le(c),
        ensures
            a.key_le(c),
    ;
}

/// An ordering that executable code can test.
pub trait SortKeyExec: SortKey {
    fn exec_key_le(&self, other: &Self) -> (r: bool)
        ensures
            r == self.key_le(other),
    ;
}

/// `r` with `x` inserted after the last element that may stand before it.
pub open spec fn insert_sorted<T: SortKey>(r: Seq<T>, x: T) -> Seq<T>
    decreases r.len(),
{
    if r.len() == 0 {
        seq![x]
    } else if r.last().key_le(&x) {
        r.push(x)
    } else {
        insert_sorted(r.drop_last(), x).push(r.last())
    }
}

/// The stable sort of `s`: each element inserted, in order, after every
/// element already placed whose key is not greater than its own.
pub open spec fn stable_sort<T: SortKey>(s: Seq<T>) -> Seq<T>
    decreases s.len(),
{
    if s.len() == 0 {
        Seq::empty()
    } else {
        insert_sorted(stable_sort(s.drop_last()), s.last())
    }
}

/// Whether `s` is in non-decreasing key order.
pub open spec fn is_sorted<T: SortKey>(s: Seq<T>) -> bool {
    forall|i: int, j: int| 0 <= i < j < s.len() ==> #[trigger] s[i].key_le(&s[j])
}

proof fn lemma_insert_at<T: SortKey>(r: Seq<T>, x: T, p: int)
    requires
        0 <= p <= r.len(),
        p == 0 || r[p - 1].key_le(&x),
        forall|j: int| p <= j < r.len() ==> !(#[trigger] r[j]).key_le(&x),
    ensures
        insert_sorted(r, x) == r.take(p).push(x) + r.skip(p),
    decreases r.len(),
{
    if r.len() == p {
        assert(r.skip(p) =~= Seq::<T>::empty());
        assert(r.take(p) =~= r);
    } else {
        assert(!r.last().key_le(&x));
        lemma_insert_at(r.drop_last(), x, p);
        assert(r.drop_last().take(p) =~= r.take(p));
        assert(r.drop_last().skip(p).push(r.last()) =~= r.skip(p));
        assert(insert_sorted(r, x) =~= r.take(p).push(x) + r.skip(p));
    }
}

/// Inserts `x` into `r` after the last element whose key is not greater.
fn insert_stable<T: SortKeyExec>(r: &mut Vec<T>, x: T)
    ensures
        final(r)@ == insert_sorted(old(r)@, x),
{
    let mut p = r.len();
    while p > 0 && !r[p - 1].exec_key_le(&x)
        invariant
            p <= r.len(),
            forall|j: int| p <= j < r.len() ==> !(#[trigger] r@[j]).key_le(&x),
        decreases p,
    {
        p -= 1;
    }
    proof {
        lemma_insert_at(r@, x, p as int);
    }
    let ghost before = r@;
    r.insert(p, x);
    assert(r@ =~= before.take(p as int).push(x) + before.skip(p as int));
}

/// Sorts `v` stably by key.
pub fn sort_stable<T: SortKeyExec>(v: Vec<T>) -> (r: Vec<T>)
    ensures
        r@ == stable_sort(v@),
{
    let ghost orig = v@;
    let mut v = v;
    let mut r: Vec<T> = Vec::new();
    assert(orig.take(0) =~= Seq::<T>::empty());
    assert(orig.skip(0) =~= orig);
    while v.len() > 0
        invariant
            v.len() <= orig.len(),
            v@ == orig.skip(orig.len() - v.len()),
            r@ == stable_sort(orig.take(orig.len() - v.len())),
        decreases v.len(),
    {
        let ghost k = orig.len() - v.len();
        let x = v.remove(0);
        assert(x == orig[k]);
        assert(v@ =~= orig.skip(k + 1));
        assert(orig.take(k + 1).drop_last() =~= orig.take(k));
        insert_stable(&mut r, x);
    }
    assert(orig.take(orig.len() as int) =~= orig);
    r
}


proof fn lemma_insert_bounded<T: SortKey>(r: Seq<T>, x: T, y: T)
    requires
        forall|i: int| 0 <= i < r.len() ==> (#[trigger] r[i]).key_le(&y),
        x.key_le(&y),
    ensures
        forall|k: int|
            0 <= k < insert_sorted(r, x).len() ==> (#[trigger] insert_sorted(r, x)[k]).key_le(&y),
        insert_sorted(r, x).len() == r.len() + 1,
    decreases r.len(),
{
    if r.len() > 0 && !r.last().key_le(&x) {
        lemma_insert_bounded(r.drop_last(), x, y);
        let q = insert_sorted(r.drop_last(), x);
        assert forall|k: int| 0 <= k < q.push(r.last()).len() implies (#[trigger] q.push(
            r.last(),
        )[k]).key_le(&y) by {
            if k < q.len() {
                assert(q.push(r.last())[k] == q[k]);
            } else {
                assert(r.last() == r[r.len() - 1]);
            }
        }
    }
}

proof fn lemma_insert_sorted_sorted<T: SortKey>(r: Seq<T>, x: T)
    requires
        is_sorted(r),
    ensures
        is_sorted(insert_sorted(r, x)),
        insert_sorted(r, x).to_multiset() =~= r.to_multiset().insert(x),
    decreases r.len(),
{
    broadcast use vstd::seq_lib::group_to_multiset_ensures;

    if r.len() == 0 {
        assert(seq![x] =~= Seq::<T>::empty().push(x));
    } else if r.last().key_le(&x) {
        let q = r.push(x);
        assert forall|i: int, j: int| 0 <= i < j < q.len() implies #[trigger] q[i].key_le(
            &q[j],
        ) by {
            if j == r.len() {
                if i < r.len() - 1 {
                    assert(r[i].key_le(&r[r.len() - 1]));
                    T::lemma_key_trans(&r[i], &r[r.len() - 1], &x);
                }
            }
        }
    } else {
        let d = r.drop_last();
        let l = r.last();
        assert(is_sorted(d)) by {
            assert forall|i: int, j: int| 0 <= i < j < d.len() implies #[trigger] d[i].key_le(
                &d[j],
            ) by {
                assert(r[i].key_le(&r[j]));
            }
        }
        lemma_insert_sorted_sorted(d, x);
        T::lemma_key_total(&l, &x);
        assert forall|i: int| 0 <= i < d.len() implies (#[trigger] d[i]).key_le(&l) by {
            assert(r[i].key_le(&r[r.len() - 1]));
        }
        lemma_insert_bounded(d, x, l);
        let q = insert_sorted(d, x);
        assert forall|i: int, j: int| 0 <= i < j < q.push(l).len() implies #[trigger] q.push(
            l,
        )[i].key_le(&q.push(l)[j]) by {
            if j < q.len() {
                assert(q[i].key_le(&q[j]));
            } else {
                assert(q[i].key_le(&l));
            }
        }
        assert(r =~= d.push(l));
        assert(q.push(l).to_multiset() =~= q.to_multiset().insert(l));
        assert(d.push(l).to_multiset() =~= d.to_multiset().insert(l));
    }
}

/// Sorting orders the elements by key and keeps each of them, as many times as it occurs.
pub proof fn lemma_stable_sort_sorted<T: SortKey>(s: Seq<T>)
    ensures
        is_sorted(stable_sort(s)),
        stable_sort(s).to_multiset() =~= s.to_multiset(),
    decreases s.len(),
{
    broadcast use vstd::seq_lib::group_to_multiset_ensures;

    if s.len() > 0 {
        lemma_stable_sort_sorted(s.drop_last());
        lemma_insert_sorted_sorted(stable_sort(s.drop_last()), s.last());
        assert(s =~= s.drop_last().push(s.last()));
    }
}

/// Sorting values and sorting their views give the same order, where the views
/// order as the values do.
pub proof fn lemma_stable_sort_view<T: SortKey + View>(s: Seq<T>)
    where T::V: SortKey,
    requires
        forall|a: T, b: T| #[trigger] a.key_le(&b) == a@.key_le(&b@),
    ensures
        stable_sort(s).map_values(|x: T| x@) == stable_sort(s.map_values(|x: T| x@)),
    decreases s.len(),
{
    if s.len() > 0 {
        lemma_stable_sort_view(s.drop_last());
        assert(s.map_values(|x: T| x@).drop_last() =~= s.drop_last().map_values(|x: T| x@));
        lemma_insert_view(stable_sort(s.drop_last()), s.last());
    } else {
        assert(s.map_values(|x: T| x@) =~= Seq::<T::V>::empty());
    }
}

proof fn lemma_insert_view<T: SortKey + View>(r: Seq<T>, x: T)
    where T::V: SortKey,
    requires
        forall|a: T, b: T| #[trigger] a.key_le(&b) == a@.key_le(&b@),
    ensures
        insert_sorted(r, x).map_values(|y: T| y@) == insert_sorted(
            r.map_values(|y: T| y@),
            x@,
        ),
    decreases r.len(),
{
    let rv = r.map_values(|y: T| y@);
    if r.len() == 0 {
        assert(seq![x].map_values(|y: T| y@) =~= seq![x@]);
    } else {
        assert(rv.last() == r.last()@);
        assert(r.last().key_le(&x) == r.last()@.key_le(&x@));
        if r.last().key_le(&x) {
            assert(r.push(x).map_values(|y: T| y@) =~= rv.push(x@));
        } else {
            lemma_insert_view(r.drop_last(), x);
            assert(r.drop_last().map_values(|y: T| y@) =~= rv.drop_last());
            assert(insert_sorted(r.drop_last(), x).push(r.last()).map_values(|y: T| y@)
                =~= insert_sorted(r.drop_last(), x).map_values(|y: T| y@).push(r.last()@));
        }
    }
}


/// Whether `x` has the same key as `y`.
pub open spec fn same_key<T: SortKey>(x: T, y: T) -> bool {
    x.key_le(&y) && y.key_le(&x)
}

/// The test for having the same key as `y`.
pub open spec fn key_class<T: SortKey>(y: T) -> spec_fn(T) -> bool {
    |x: T| same_key(x, y)
}

proof fn lemma_insert_filter<T: SortKey>(r: Seq<T>, x: T, y: T)
    ensures
        insert_sorted(r, x).filter(key_class(y)) == r.push(x).filter(key_class(y)),
    decreases r.len(),
{
    reveal_with_fuel(Seq::<_>::filter, 2);
    if r.len() == 0 {
        assert(seq![x] =~= r.push(x));
    } else if !r.last().key_le(&x) {
        let d = r.drop_last();
        let l = r.last();
        lemma_insert_filter(d, x, y);
        let p = key_class(y);
        assert(insert_sorted(r, x).drop_last() =~= insert_sorted(d, x));
        assert(d.push(x).drop_last() =~= d);
        assert(r.push(x).drop_last() =~= r);
        assert(r.drop_last() =~= d);
        if p(l) && p(x) {
            T::lemma_key_trans(&l, &y, &x);
        }
        let dp = d.filter(p);
        assert(insert_sorted(r, x).filter(p) == if p(l) {
            insert_sorted(d, x).filter(p).push(l)
        } else {
            insert_sorted(d, x).filter(p)
        });
        assert(d.push(x).filter(p) == if p(x) {
            dp.push(x)
        } else {
            dp
        });
        assert(r.filter(p) == if p(l) {
            dp.push(l)
        } else {
            dp
        });
        assert(insert_sorted(r, x).filter(p) =~= r.push(x).filter(p));
    }
}

/// Sorting is stable: the elements that share any one key keep their order.
pub proof fn lemma_stable_sort_stable<T: SortKey>(s: Seq<T>, y: T)
    ensures
        stable_sort(s).filter(key_class(y)) == s.filter(key_class(y)),
    decreases s.len(),
{
    reveal_with_fuel(Seq::<_>::filter, 2);
    if s.len() > 0 {
        let d = s.drop_last();
        lemma_stable_sort_stable(d, y);
        lemma_insert_filter(stable_sort(d), s.last(), y);
        let sd = stable_sort(d);
        assert(sd.push(s.last()).drop_last() =~= sd);
        assert(d.push(s.last()) =~= s);
    }
}

} // verus!
