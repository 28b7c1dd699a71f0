//! Ranking of filter matches: best score first, equal scores in list order.
use vstd::prelude::*;
use crate::sort::{SortKey, SortKeyExec, insert_sorted, lemma_stable_sort_sorted, sort_stable, stable_sort};

verus! {

/// A process position with its match score; the best scores come first.
pub struct ScoredIndex {
    pub index: usize,
    pub score: i64,
}

impl SortKey for ScoredIndex {
    open spec fn key_le(&self, other: &Self) -> bool {
        self.score >= other.score
    }

    proof fn lemma_key_total(a: &Self, b: &Self) {
    }

    proof fn lemma_key_trans(a: &Self, b: &Self, c: &Self) {
    }
}

impl SortKeyExec for ScoredIndex {
    fn exec_key_le(&self, other: &Self) -> (r: bool) {
        self.score >= other.score
    }
}

/// The positions that have a score, with their scores, in position order.
pub open spec fn scored_matches(scores: Seq<Option<i64>>) -> Seq<ScoredIndex>
    decreases scores.len(),
{
    if scores.len() == 0 {
        Seq::empty()
    } else {
        let r = scored_matches(scores.drop_last());
        match scores.last() {
            Some(s) => r.push(ScoredIndex { index: (scores.len() - 1) as usize, score: s }),
            None => r,
        }
    }
}

/// The positions that have a score, best score first; equal scores keep position order.
pub open spec fn ranked(scores: Seq<Option<i64>>) -> Seq<usize> {
    stable_sort(scored_matches(scores)).map_values(|x: ScoredIndex| x.index)
}

proof fn lemma_scored_matches(scores: Seq<Option<i64>>)
    requires
        scores.len() <= usize::MAX,
    ensures
        forall|k: int|
            0 <= k < scored_matches(scores).len() ==> {
                &&& (#[trigger] scored_matches(scores)[k]).index < scores.len()
                &&& scores[scored_matches(scores)[k].index as int] == Some(scored_matches(scores)[k].score)
            },
        forall|k: int, l: int|
            0 <= k < l < scored_matches(scores).len() ==> (#[trigger] scored_matches(scores)[k]).index
                < (#[trigger] scored_matches(scores)[l]).index,
        forall|i: int|
            0 <= i < scores.len() && (#[trigger] scores[i]) is Some ==> exists|k: int|
                0 <= k < scored_matches(scores).len() && (#[trigger] scored_matches(scores)[k]).index == i,
        scored_matches(scores).len() <= scores.len(),
    decreases scores.len(),
{
    if scores.len() > 0 {
        let d = scores.drop_last();
        lemma_scored_matches(d);
        let r = scored_matches(d);
        assert forall|i: int| 0 <= i < scores.len() && (#[trigger] scores[i]) is Some implies exists|k: int|
            0 <= k < scored_matches(scores).len() && (#[trigger] scored_matches(scores)[k]).index == i by {
            if i < scores.len() - 1 {
                assert(d[i] == scores[i]);
                let k = choose|k: int| 0 <= k < r.len() && (#[trigger] r[k]).index == i;
                assert(scored_matches(scores)[k] == r[k]);
            } else {
                assert(scored_matches(scores)[r.len() as int].index == i);
            }
        }
        assert forall|k: int| 0 <= k < scored_matches(scores).len() implies {
            &&& (#[trigger] scored_matches(scores)[k]).index < scores.len()
            &&& scores[scored_matches(scores)[k].index as int] == Some(scored_matches(scores)[k].score)
        } by {
            if k < r.len() {
                assert(scored_matches(scores)[k] == r[k]);
                assert(d[r[k].index as int] == scores[r[k].index as int]);
            }
        }
    }
}

/// Whether `r` is in ranking order: higher scores first, equal scores in position order.
pub open spec fn in_rank_order(r: Seq<ScoredIndex>) -> bool {
    forall|k: int, l: int|
        0 <= k < l < r.len() ==> (#[trigger] r[k]).score > (#[trigger] r[l]).score || (r[k].score
            == r[l].score && r[k].index < r[l].index)
}

proof fn lemma_insert_members(r: Seq<ScoredIndex>, x: ScoredIndex)
    ensures
        insert_sorted(r, x).len() == r.len() + 1,
        forall|k: int|
            0 <= k < insert_sorted(r, x).len() ==> #[trigger] insert_sorted(r, x)[k] == x || r.contains(
                insert_sorted(r, x)[k],
            ),
    decreases r.len(),
{
    if r.len() > 0 && !r.last().key_le(&x) {
        let d = r.drop_last();
        lemma_insert_members(d, x);
        let q = insert_sorted(d, x);
        assert forall|k: int| 0 <= k < q.push(r.last()).len() implies #[trigger] q.push(r.last())[k] == x
            || r.contains(q.push(r.last())[k]) by {
            if k < q.len() {
                if q[k] != x {
                    let j = choose|j: int| 0 <= j < d.len() && d[j] == q[k];
                    assert(r[j] == q[k]);
                }
            } else {
                assert(r[r.len() - 1] == r.last());
            }
        }
    } else if r.len() > 0 {
        assert forall|k: int| 0 <= k < r.push(x).len() implies #[trigger] r.push(x)[k] == x || r.contains(
            r.push(x)[k],
        ) by {
            if k < r.len() {
                assert(r[k] == r.push(x)[k]);
            }
        }
    }
}

proof fn lemma_insert_rank_order(r: Seq<ScoredIndex>, x: ScoredIndex)
    requires
        in_rank_order(r),
        forall|k: int| 0 <= k < r.len() ==> (#[trigger] r[k]).index < x.index,
    ensures
        in_rank_order(insert_sorted(r, x)),
    decreases r.len(),
{
    lemma_insert_members(r, x);
    if r.len() == 0 {
    } else if r.last().key_le(&x) {
        let q = r.push(x);
        assert forall|k: int, l: int| 0 <= k < l < q.len() implies (#[trigger] q[k]).score > (
        #[trigger] q[l]).score || (q[k].score == q[l].score && q[k].index < q[l].index) by {
            if l == r.len() {
                if k < r.len() - 1 {
                    assert(r[k].score >= r[r.len() - 1].score);
                }
            } else {
                assert(q[k] == r[k] && q[l] == r[l]);
            }
        }
    } else {
        let d = r.drop_last();
        let l0 = r.last();
        lemma_insert_rank_order(d, x);
        lemma_insert_members(d, x);
        let q = insert_sorted(d, x);
        assert forall|k: int, l: int| 0 <= k < l < q.push(l0).len() implies (#[trigger] q.push(
            l0,
        )[k]).score > (#[trigger] q.push(l0)[l]).score || (q.push(l0)[k].score == q.push(l0)[l].score
            && q.push(l0)[k].index < q.push(l0)[l].index) by {
            if l < q.len() {
                assert(q.push(l0)[k] == q[k] && q.push(l0)[l] == q[l]);
            } else {
                if q[k] != x {
                    let j = choose|j: int| 0 <= j < d.len() && d[j] == q[k];
                    assert(r[j] == q[k]);
                    assert(r[r.len() - 1] == l0);
                }
            }
        }
    }
}

proof fn lemma_sort_rank_order(s: Seq<ScoredIndex>)
    requires
        forall|k: int, l: int| 0 <= k < l < s.len() ==> (#[trigger] s[k]).index < (#[trigger] s[l]).index,
    ensures
        in_rank_order(stable_sort(s)),
    decreases s.len(),
{
    broadcast use vstd::seq_lib::group_to_multiset_ensures;

    if s.len() > 0 {
        let d = s.drop_last();
        lemma_sort_rank_order(d);
        lemma_stable_sort_sorted(d);
        let sd = stable_sort(d);
        assert forall|k: int| 0 <= k < sd.len() implies (#[trigger] sd[k]).index < s.last().index by {
            assert(sd.to_multiset().count(sd[k]) > 0);
            assert(d.contains(sd[k]));
            let j = choose|j: int| 0 <= j < d.len() && d[j] == sd[k];
            assert(s[j] == d[j]);
            assert(s[s.len() - 1] == s.last());
        }
        lemma_insert_rank_order(sd, s.last());
    }
}

/// What the ranking of scores holds: exactly the positions that have a score,
/// each once, best score first.
pub proof fn lemma_ranked(scores: Seq<Option<i64>>)
    requires
        scores.len() <= usize::MAX,
    ensures
        forall|k: int| 0 <= k < ranked(scores).len() ==> (#[trigger] ranked(scores)[k]) < scores.len()
            && scores[ranked(scores)[k] as int] is Some,
        forall|i: int| 0 <= i < scores.len() && (#[trigger] scores[i]) is Some ==> ranked(scores).contains(i as usize),
        ranked(scores).no_duplicates(),
        ranked(scores).len() <= scores.len(),
        forall|k: int, l: int| 0 <= k < l < ranked(scores).len() ==>
            (#[trigger] scores[ranked(scores)[k] as int])->0 > (#[trigger] scores[ranked(scores)[l] as int])->0
            || (scores[ranked(scores)[k] as int] == scores[ranked(scores)[l] as int] && ranked(scores)[k] < ranked(scores)[l]),
{
    broadcast use vstd::seq_lib::group_to_multiset_ensures;
    let sm = scored_matches(scores);
    let st = stable_sort(sm);
    let rk = ranked(scores);
    lemma_scored_matches(scores);
    lemma_stable_sort_sorted(sm);
    assert(st.len() == st.to_multiset().len());
    assert(sm.len() == sm.to_multiset().len());
    assert forall|k: int| 0 <= k < st.len() implies sm.contains(#[trigger] st[k]) by {
        assert(st.to_multiset().count(st[k]) > 0);
    }
    assert forall|k: int| 0 <= k < rk.len() implies (#[trigger] rk[k]) < scores.len()
        && scores[rk[k] as int] == Some(st[k].score) by {
        assert(sm.contains(st[k]));
        let j = choose|j: int| 0 <= j < sm.len() && sm[j] == st[k];
        assert(sm[j].index < scores.len());
    }
    assert forall|i: int| 0 <= i < scores.len() && (#[trigger] scores[i]) is Some implies rk.contains(i as usize) by {
        let k = choose|k: int| 0 <= k < sm.len() && (#[trigger] sm[k]).index == i;
        assert(sm.contains(sm[k]));
        assert(st.to_multiset().count(sm[k]) > 0);
        assert(st.contains(sm[k]));
        let l = choose|l: int| 0 <= l < st.len() && st[l] == sm[k];
        assert(rk[l] == i as usize);
    }
    lemma_sort_rank_order(sm);
    assert forall|k: int, l: int| 0 <= k < l < rk.len() implies
        (#[trigger] scores[rk[k] as int])->0 > (#[trigger] scores[rk[l] as int])->0
        || (scores[rk[k] as int] == scores[rk[l] as int] && rk[k] < rk[l]) by {
        assert(st[k].score > st[l].score || (st[k].score == st[l].score && st[k].index < st[l].index));
    }
    assert(sm.no_duplicates()) by {
        assert forall|a: int, b: int| 0 <= a < sm.len() && 0 <= b < sm.len() && a != b implies sm[a] != sm[b] by {
            if a < b {
                assert(sm[a].index < sm[b].index);
            } else {
                assert(sm[b].index < sm[a].index);
            }
        }
    }
    sm.lemma_multiset_has_no_duplicates();
    st.lemma_multiset_has_no_duplicates_conv();
    assert forall|a: int, b: int| 0 <= a < rk.len() && 0 <= b < rk.len() && a != b implies rk[a] != rk[b] by {
        assert(sm.contains(st[a]));
        assert(sm.contains(st[b]));
        let ja = choose|j: int| 0 <= j < sm.len() && sm[j] == st[a];
        let jb = choose|j: int| 0 <= j < sm.len() && sm[j] == st[b];
        assert(st[a] != st[b]);
        if ja < jb {
            assert(sm[ja].index < sm[jb].index);
        } else if jb < ja {
            assert(sm[jb].index < sm[ja].index);
        }
    }
}

/// Orders the positions that have a score, best score first, equal scores in position order.
pub fn rank_matches(scores: &Vec<Option<i64>>) -> (r: Vec<usize>)
    ensures
        r@ == ranked(scores@),
{
    let mut found: Vec<ScoredIndex> = Vec::new();
    let mut i: usize = 0;
    assert(scores@.take(0) =~= Seq::<Option<i64>>::empty());
    while i < scores.len()
        invariant
            i <= scores.len(),
            found@ == scored_matches(scores@.take(i as int)),
        decreases scores.len() - i,
    {
        assert(scores@.take(i + 1).drop_last() =~= scores@.take(i as int));
        assert(scores@.take(i + 1).last() == scores@[i as int]);
        if let Some(s) = scores[i] {
            found.push(ScoredIndex { index: i, score: s });
        }
        i += 1;
    }
    assert(scores@.take(scores.len() as int) =~= scores@);
    let sorted = sort_stable(found);
    let mut r: Vec<usize> = Vec::new();
    let mut k: usize = 0;
    while k < sorted.len()
        invariant
            k <= sorted.len(),
            r@ == sorted@.take(k as int).map_values(|x: ScoredIndex| x.index),
        decreases sorted.len() - k,
    {
        r.push(sorted[k].index);
        k += 1;
        assert(r@ =~= sorted@.take(k as int).map_values(|x: ScoredIndex| x.index));
    }
    assert(sorted@.take(k as int) =~= sorted@);
    r
}

} // verus!
