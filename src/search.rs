//! Batched search: each stored batch is indexed, every query descriptor
//! looks up its nearest stored descriptors, each image collects one vote
//! per query descriptor that found it, and images are ranked by votes.
use vstd::prelude::*;
use crate::hamming::{hamming, lemma_hamming_bound};
use crate::index::{lemma_exact_row_first, nearest_of, neighbor_at, params_ok, shares_bucket, IndexError, LshIndex, LshParams, Neighbor};
use crate::store::{rows_view, DescriptorStore};

verus! {

/// An image and the number of query descriptors that voted for it.
#[derive(Debug, Clone, Copy, PartialEq, Eq, Structural)]
pub struct ScoredImage {
    pub id: u64,
    pub score: usize,
}

/// Parameters of a search.
#[derive(Debug, Clone, Copy, PartialEq, Eq, Structural)]
pub struct SearchParams {
    pub lsh: LshParams,
    /// Largest number of stored descriptors indexed at once.
    pub batch_size: usize,
    /// Neighbours looked up per query descriptor and batch.
    pub knn_k: usize,
    /// Largest number of ranked images returned.
    pub output_count: usize,
}

/// `a` ranks before `b`: more votes, then the smaller identifier.
pub open spec fn ranks_before(a: ScoredImage, b: ScoredImage) -> bool {
    a.score > b.score || (a.score == b.score && a.id < b.id)
}

pub open spec fn sorted_ranking(r: Seq<ScoredImage>) -> bool {
    forall|i: int, j: int| 0 <= i < j < r.len() ==> ranks_before(#[trigger] r[i], #[trigger] r[j])
}

/// Identifiers pairwise different.
pub open spec fn distinct_ids(items: Seq<ScoredImage>) -> bool {
    forall|i: int, j: int| 0 <= i < items.len() && 0 <= j < items.len() && i != j ==> items[i].id != items[j].id
}

/// `r` is the first `k` images of `items` that have at least one vote, in
/// rank order: each entry is such an item, and such an item left out ranks
/// after every entry of a full list.
pub open spec fn top_of(items: Seq<ScoredImage>, k: nat, r: Seq<ScoredImage>) -> bool {
    &&& sorted_ranking(r)
    &&& r.len() <= k
    &&& forall|i: int| 0 <= i < r.len() ==> items.contains(#[trigger] r[i]) && r[i].score > 0
    &&& forall|m: int| 0 <= m < items.len() && (#[trigger] items[m]).score > 0 ==> (r.contains(items[m]) || (r.len() == k
        && forall|i: int| 0 <= i < r.len() ==> ranks_before(r[i], items[m])))
}

/// Number of vote lists that hold image position `i`.
pub open spec fn vote_count(lists: Seq<Seq<usize>>, i: int) -> nat
    decreases lists.len(),
{
    if lists.len() == 0 {
        0
    } else {
        vote_count(lists.drop_last(), i) + if lists.last().contains(i as usize) {
            1nat
        } else {
            0nat
        }
    }
}

/// Each list names image positions below `n`, none twice.
pub open spec fn lists_ok(lists: Seq<Seq<usize>>, n: int) -> bool {
    forall|j: int| 0 <= j < lists.len() ==> positions_ok(#[trigger] lists[j], n)
}

pub open spec fn positions_ok(l: Seq<usize>, n: int) -> bool {
    &&& forall|e: int| 0 <= e < l.len() ==> (#[trigger] l[e]) < n
    &&& forall|e: int, f: int| 0 <= e < l.len() && 0 <= f < l.len() && e != f ==> l[e] != l[f]
}

pub open spec fn lists_view(lists: Seq<Vec<usize>>) -> Seq<Seq<usize>> {
    lists.map_values(|v: Vec<usize>| v@)
}

proof fn lemma_vote_bound(lists: Seq<Seq<usize>>, i: int)
    ensures
        vote_count(lists, i) <= lists.len(),
    decreases lists.len(),
{
    if lists.len() > 0 {
        lemma_vote_bound(lists.drop_last(), i);
    }
}

proof fn lemma_full_vote(lists: Seq<Seq<usize>>, i: int)
    requires
        forall|j: int| 0 <= j < lists.len() ==> (#[trigger] lists[j]).contains(i as usize),
    ensures
        vote_count(lists, i) == lists.len(),
    decreases lists.len(),
{
    if lists.len() > 0 {
        let d = lists.drop_last();
        assert forall|j: int| 0 <= j < d.len() implies (#[trigger] d[j]).contains(i as usize) by {
            assert(d[j] == lists[j]);
        }
        lemma_full_vote(d, i);
        assert(lists.last() == lists[lists.len() - 1]);
    }
}

/// Whether `v` holds `x`.
pub fn holds(v: &Vec<usize>, x: usize) -> (r: bool)
    ensures
        r == v@.contains(x),
{
    let mut i: usize = 0;
    while i < v.len()
        invariant
            i <= v@.len(),
            forall|j: int| 0 <= j < i ==> v@[j] != x,
        decreases v@.len() - i,
    {
        if v[i] == x {
            return true;
        }
        i = i + 1;
    }
    false
}

/// Votes per image position: entry `i` counts the lists that hold `i`.
pub fn tally(lists: &Vec<Vec<usize>>, n: usize) -> (scores: Vec<usize>)
    requires
        lists_ok(lists_view(lists@), n as int),
    ensures
        scores@.len() == n,
        forall|i: int| 0 <= i < n ==> (#[trigger] scores@[i]) == vote_count(lists_view(lists@), i),
{
    let ghost lv = lists_view(lists@);
    let mut scores: Vec<usize> = Vec::new();
    let mut i: usize = 0;
    while i < n
        invariant
            i <= n,
            scores@.len() == i,
            forall|x: int| 0 <= x < i ==> (#[trigger] scores@[x]) == 0,
        decreases n - i,
    {
        scores.push(0);
        i = i + 1;
    }
    let mut j: usize = 0;
    while j < lists.len()
        invariant
            lv == lists_view(lists@),
            lists_ok(lv, n as int),
            j <= lists@.len(),
            scores@.len() == n,
            forall|x: int| 0 <= x < n ==> (#[trigger] scores@[x]) == vote_count(lv.subrange(0, j as int), x),
        decreases lists@.len() - j,
    {
        let list = &lists[j];
        assert(lv[j as int] == list@);
        assert(positions_ok(lv[j as int], n as int));
        let ghost before = scores@;
        let total = lists.len();
        assert(j < total);
        let mut e: usize = 0;
        while e < list.len()
            invariant
                lv == lists_view(lists@),
                j < lists@.len(),
                (j as int) < usize::MAX,
                list@ == lv[j as int],
                positions_ok(list@, n as int),
                e <= list@.len(),
                scores@.len() == n,
                before.len() == n,
                forall|x: int| 0 <= x < n ==> (#[trigger] before[x]) == vote_count(lv.subrange(0, j as int), x),
                forall|x: int| 0 <= x < n ==> (#[trigger] scores@[x]) == before[x] + if list@.subrange(0, e as int).contains(x as usize) {
                    1int
                } else {
                    0int
                },
            decreases list@.len() - e,
        {
            let x = list[e];
            proof {
                lemma_vote_bound(lv.subrange(0, j as int), x as int);
                assert(!list@.subrange(0, e as int).contains(x)) by {
                    if list@.subrange(0, e as int).contains(x) {
                        let w = choose|w: int| 0 <= w < e && #[trigger] list@.subrange(0, e as int)[w] == x;
                        assert(list@[w] == list@[e as int]);
                    }
                }
                assert(scores@[x as int] == before[x as int]);
                assert(before[x as int] <= j);
                assert(lv.subrange(0, j as int).len() == j);
            }
            let ghost old_scores = scores@;
            scores.set(x, scores[x] + 1);
            proof {
                assert forall|y: int| 0 <= y < n implies (#[trigger] scores@[y]) == before[y] + if list@.subrange(0, e + 1).contains(y as usize) {
                    1int
                } else {
                    0int
                } by {
                    assert(list@.subrange(0, e + 1) =~= list@.subrange(0, e as int).push(x));
                    if y == x {
                        assert(list@.subrange(0, e + 1)[e as int] == x);
                    } else {
                        assert(scores@[y] == old_scores[y]);
                        if list@.subrange(0, e as int).contains(y as usize) {
                            let w = choose|w: int| 0 <= w < e && #[trigger] list@.subrange(0, e as int)[w] == y as usize;
                            assert(list@.subrange(0, e + 1)[w] == y as usize);
                        }
                        if list@.subrange(0, e + 1).contains(y as usize) {
                            let w = choose|w: int| 0 <= w < e + 1 && #[trigger] list@.subrange(0, e + 1)[w] == y as usize;
                            assert(list@.subrange(0, e as int)[w] == y as usize);
                        }
                    }
                }
            }
            e = e + 1;
        }
        proof {
            assert(list@.subrange(0, e as int) =~= list@);
            let s = lv.subrange(0, j + 1);
            assert(s.drop_last() =~= lv.subrange(0, j as int));
            assert(s.last() == list@);
        }
        j = j + 1;
    }
    proof {
        assert(lv.subrange(0, j as int) =~= lv);
    }
    scores
}

/// The first `k` images of `items` that have at least one vote, in rank
/// order.
pub fn rank(items: &Vec<ScoredImage>, k: usize) -> (r: Vec<ScoredImage>)
    requires
        distinct_ids(items@),
    ensures
        top_of(items@, k as nat, r@),
{
    let mut r: Vec<ScoredImage> = Vec::new();
    let ghost mut src: Seq<int> = Seq::empty();
    let mut m: usize = 0;
    while m < items.len()
        invariant
            distinct_ids(items@),
            m <= items@.len(),
            sorted_ranking(r@),
            r@.len() <= k,
            src.len() == r@.len(),
            forall|i: int| 0 <= i < r@.len() ==> 0 <= #[trigger] src[i] < m && r@[i] == items@[src[i]] && r@[i].score > 0,
            forall|mm: int| 0 <= mm < m && (#[trigger] items@[mm]).score > 0 ==> (r@.contains(items@[mm]) || (r@.len() == k
                && forall|i: int| 0 <= i < r@.len() ==> ranks_before(r@[i], items@[mm]))),
        decreases items@.len() - m,
    {
        let n = items[m];
        if n.score > 0 {
            proof {
                assert forall|i: int| 0 <= i < r@.len() implies r@[i].id != n.id by {
                    assert(src[i] != m);
                }
            }
            let mut p: usize = 0;
            while p < r.len() && !(n.score > r[p].score || (n.score == r[p].score && n.id < r[p].id))
                invariant
                    p <= r@.len(),
                    forall|i: int| 0 <= i < p ==> !ranks_before(n, #[trigger] r@[i]),
                decreases r@.len() - p,
            {
                p = p + 1;
            }
            let ghost old_r = r@;
            let ghost old_src = src;
            if p < k {
                r.insert(p, n);
                proof {
                    src = src.insert(p as int, m as int);
                    assert forall|i: int, j: int| 0 <= i < j < r@.len() implies ranks_before(#[trigger] r@[i], #[trigger] r@[j]) by {
                        if j < p {
                        } else if j == p {
                            assert(!ranks_before(n, old_r[i]));
                            assert(old_r[i].id != n.id);
                        } else if i < p {
                            assert(!ranks_before(n, old_r[i]));
                            assert(old_r[i].id != n.id);
                            assert(ranks_before(n, old_r[p as int]));
                            assert(p == j - 1 || ranks_before(old_r[p as int], old_r[j - 1]));
                        } else if i == p {
                            assert(ranks_before(n, old_r[p as int]));
                            assert(p == j - 1 || ranks_before(old_r[p as int], old_r[j - 1]));
                        } else {
                            assert(r@[i] == old_r[i - 1]);
                        }
                    }
                }
                let ghost mid_r = r@;
                if r.len() > k {
                    r.pop();
                    proof {
                        src = src.drop_last();
                    }
                }
                proof {
                    assert forall|i: int| 0 <= i < r@.len() implies 0 <= #[trigger] src[i] < m + 1 && r@[i] == items@[src[i]] && r@[i].score > 0 by {
                        if i < p {
                            assert(r@[i] == old_r[i] && src[i] == old_src[i]);
                        } else if i == p {
                        } else {
                            assert(r@[i] == old_r[i - 1] && src[i] == old_src[i - 1]);
                        }
                    }
                    assert forall|mm: int| 0 <= mm < m + 1 && (#[trigger] items@[mm]).score > 0 implies (r@.contains(items@[mm]) || (r@.len() == k
                        && forall|i: int| 0 <= i < r@.len() ==> ranks_before(r@[i], items@[mm]))) by {
                        let x = items@[mm];
                        if mm == m {
                            assert(r@[p as int] == x);
                        } else if old_r.contains(x) {
                            let w = choose|w: int| 0 <= w < old_r.len() && old_r[w] == x;
                            if w < p {
                                assert(r@[w] == x);
                            } else if w + 1 < r@.len() {
                                assert(r@[w + 1] == x);
                            } else {
                                assert(mid_r[w + 1] == x);
                                assert forall|i: int| 0 <= i < r@.len() implies ranks_before(r@[i], x) by {
                                    assert(r@[i] == mid_r[i]);
                                }
                            }
                        } else {
                            assert forall|i: int| 0 <= i < r@.len() implies ranks_before(r@[i], x) by {
                                assert(r@[i] == mid_r[i]);
                                if i < p {
                                    assert(mid_r[i] == old_r[i]);
                                } else if i == p {
                                    assert(ranks_before(n, old_r[p as int]));
                                } else {
                                    assert(mid_r[i] == old_r[i - 1]);
                                }
                            }
                        }
                    }
                }
            } else {
                proof {
                    assert forall|i: int| 0 <= i < r@.len() implies ranks_before(r@[i], n) by {
                        assert(!ranks_before(n, r@[i]));
                        assert(r@[i].id != n.id);
                    }
                }
            }
        }
        m = m + 1;
    }
    proof {
        assert forall|i: int| 0 <= i < r@.len() implies items@.contains(#[trigger] r@[i]) && r@[i].score > 0 by {
            let w = src[i];
            assert(items@[w] == r@[i]);
        }
    }
    r
}

/// Each stored image, in store order, with the votes that `lists` give it.
pub open spec fn ranking_items(store: &DescriptorStore, lists: Seq<Seq<usize>>) -> Seq<ScoredImage> {
    Seq::new(
        store.records@.len(),
        |i: int| ScoredImage { id: store.records@[i].id, score: vote_count(lists, i) as usize },
    )
}

/// Errors of a search.
#[derive(Debug, Clone, Copy, PartialEq, Eq, Structural)]
pub enum SearchError {
    /// The index parameters, the batch size or the store's descriptor
    /// length cannot make an index.
    IndexBuildFailure,
    /// A query descriptor does not have the store's descriptor length.
    InvalidImage,
}

/// Valid index parameters, a usable descriptor length and a positive batch
/// size.
pub open spec fn search_params_ok(store: &DescriptorStore, params: SearchParams) -> bool {
    &&& params_ok(params.lsh)
    &&& 1 <= store.desc_len <= usize::MAX / 8
    &&& params.batch_size >= 1
}

/// What a search needs: usable parameters, and query descriptors of the
/// store's length.
pub open spec fn search_ok(store: &DescriptorStore, query: Seq<Vec<u8>>, params: SearchParams) -> bool {
    &&& search_params_ok(store, params)
    &&& forall|j: int| 0 <= j < query.len() ==> (#[trigger] query[j])@.len() == store.desc_len
}

/// Some stored descriptor at offsets `lo..hi` equals `q`.
pub open spec fn stored_between(store: &DescriptorStore, q: Seq<u8>, lo: int, hi: int) -> bool {
    exists|l: int| lo <= l < hi && #[trigger] store.log@[l]@ == q
}

/// `list` names an image that holds a descriptor at distance zero from `q`.
pub open spec fn voted_exact(store: &DescriptorStore, q: Seq<u8>, list: Seq<usize>) -> bool {
    exists|ri: int, l: int| #[trigger] store.owns(ri, l) && list.contains(ri as usize) && hamming(q, store.log@[l]@) == 0
}

/// Every query descriptor equal to a stored one votes for an image that
/// holds a descriptor at distance zero from it.
pub open spec fn exact_votes(store: &DescriptorStore, query: Seq<Vec<u8>>, lists: Seq<Seq<usize>>, upto: int) -> bool {
    forall|j: int| 0 <= j < query.len() && stored_between(store, #[trigger] query[j]@, 0, upto)
        ==> voted_exact(store, query[j]@, lists[j])
}

/// The settings under which an exact copy is always found: at least one
/// neighbour per lookup, and a scan cap above the batch size.
pub open spec fn exact_recall(params: SearchParams) -> bool {
    params.knn_k >= 1 && params.lsh.table_count >= 1 && params.lsh.checks > params.batch_size
}

/// Stored descriptor `l` shares a probed bucket with `q`.
pub open spec fn hit_row(store: &DescriptorStore, q: Seq<u8>, lsh: LshParams, l: int) -> bool {
    shares_bucket(q, store.log@[l]@, lsh, store.desc_len * 8)
}

/// Image position `x` holds a descriptor that shares a probed bucket with `q`.
pub open spec fn owner_of_hit(store: &DescriptorStore, q: Seq<u8>, lsh: LshParams, x: int) -> bool {
    exists|l: int| #[trigger] store.owns(x, l) && hit_row(store, q, lsh, l)
}

/// Each vote of query descriptor `j` goes to an image holding a descriptor
/// that shares a probed bucket with it.
pub open spec fn votes_sound(store: &DescriptorStore, query: Seq<Vec<u8>>, lsh: LshParams, lists: Seq<Seq<usize>>) -> bool {
    forall|j: int, x: usize| 0 <= j < lists.len() && #[trigger] lists[j].contains(x) ==> owner_of_hit(store, query[j]@, lsh, x as int)
}

/// Some stored descriptor at offsets `lo..hi` shares a probed bucket with `q`.
pub open spec fn hit_between(store: &DescriptorStore, q: Seq<u8>, lsh: LshParams, lo: int, hi: int) -> bool {
    exists|l: int| lo <= l < hi && #[trigger] hit_row(store, q, lsh, l)
}

/// Every query descriptor that shares a probed bucket with a stored
/// descriptor below `upto` casts at least one vote.
pub open spec fn votes_live(store: &DescriptorStore, query: Seq<Vec<u8>>, lsh: LshParams, lists: Seq<Seq<usize>>, upto: int) -> bool {
    forall|j: int| 0 <= j < query.len() && hit_between(store, #[trigger] query[j]@, lsh, 0, upto) ==> lists[j].len() > 0
}

/// `b` holds at least what `a` holds, list by list.
pub open spec fn grows(a: Seq<Seq<usize>>, b: Seq<Seq<usize>>) -> bool {
    &&& a.len() == b.len()
    &&& forall|j: int, x: usize| 0 <= j < a.len() && #[trigger] a[j].contains(x) ==> b[j].contains(x)
}

/// Adds to list `q` the image of each neighbour in `found` that it does not
/// hold yet; returns, as a ghost value, the image of the first neighbour.
fn record_votes(
    store: &DescriptorStore,
    query: &Vec<Vec<u8>>,
    lsh: LshParams,
    found: &Vec<Neighbor>,
    lists: &mut Vec<Vec<usize>>,
    q: usize,
    start: usize,
    n: usize,
) -> (first_ri: Ghost<int>)
    requires
        store.wf(),
        q < old(lists)@.len(),
        old(lists)@.len() == query@.len(),
        votes_sound(store, query@, lsh, lists_view(old(lists)@)),
        forall|i: int| 0 <= i < found@.len() ==> hit_row(store, query@[q as int]@, lsh, (#[trigger] found@[i]).offset as int),
        lists_ok(lists_view(old(lists)@), store.records@.len() as int),
        start + n <= store.log@.len(),
        forall|i: int| 0 <= i < found@.len() ==> start <= (#[trigger] found@[i]).offset < start + n,
    ensures
        final(lists)@.len() == old(lists)@.len(),
        lists_ok(lists_view(final(lists)@), store.records@.len() as int),
        grows(lists_view(old(lists)@), lists_view(final(lists)@)),
        votes_sound(store, query@, lsh, lists_view(final(lists)@)),
        found@.len() >= 1 ==> lists_view(final(lists)@)[q as int].contains(first_ri@ as usize)
            && store.owns(first_ri@, found@[0].offset as int),
{
    let ghost lq = lists_view(lists@);
    let ghost mut first: int = 0;
    let nrec = store.records.len();
    let mut e: usize = 0;
    while e < found.len()
        invariant
            store.wf(),
            q < lists@.len(),
            lists@.len() == query@.len(),
            votes_sound(store, query@, lsh, lists_view(lists@)),
            forall|i: int| 0 <= i < found@.len() ==> hit_row(store, query@[q as int]@, lsh, (#[trigger] found@[i]).offset as int),
            nrec == store.records@.len(),
            lists@.len() == lq.len(),
            lists_ok(lists_view(lists@), nrec as int),
            start + n <= store.log@.len(),
            forall|i: int| 0 <= i < found@.len() ==> start <= (#[trigger] found@[i]).offset < start + n,
            grows(lq, lists_view(lists@)),
            e >= 1 ==> lists_view(lists@)[q as int].contains(first as usize) && store.owns(first, found@[0].offset as int),
        decreases found@.len() - e,
    {
        assert(found@[e as int].offset < store.log@.len());
        match store.record_index_of(found[e].offset) {
            Some(ri) => {
                proof {
                    if e == 0 {
                        first = ri as int;
                    }
                }
                if !holds(&lists[q], ri) {
                    let ghost old_l = lists@;
                    lists[q].push(ri);
                    proof {
                        assert forall|i: int| 0 <= i < lists@.len() implies positions_ok(#[trigger] lists_view(lists@)[i], nrec as int) by {
                            assert(lists_view(old_l)[i] == old_l[i]@);
                            assert(positions_ok(lists_view(old_l)[i], nrec as int));
                            if i != q {
                                assert(lists@[i] == old_l[i]);
                            } else {
                                assert(lists@[i]@ == old_l[i]@.push(ri));
                            }
                        }
                        assert forall|j: int, x: usize| 0 <= j < lq.len() && #[trigger] lq[j].contains(x)
                            implies lists_view(lists@)[j].contains(x) by {
                            assert(lists_view(old_l)[j].contains(x));
                            if j != q {
                                assert(lists@[j] == old_l[j]);
                            } else {
                                assert(lists@[j]@ == old_l[j]@.push(ri));
                                let w = choose|w: int| 0 <= w < old_l[j]@.len() && old_l[j]@[w] == x;
                                assert(lists@[j]@[w] == x);
                            }
                        }
                        assert(lists@[q as int]@ == old_l[q as int]@.push(ri));
                        assert(lists@[q as int]@[old_l[q as int]@.len() as int] == ri);
                        assert(store.owns(ri as int, found@[e as int].offset as int));
                        assert forall|j: int, x: usize| 0 <= j < lists@.len() && #[trigger] lists_view(lists@)[j].contains(x)
                            implies owner_of_hit(store, query@[j]@, lsh, x as int) by {
                            if j != q {
                                assert(lists@[j] == old_l[j]);
                                assert(lists_view(old_l)[j].contains(x));
                            } else if x != ri {
                                let w = choose|w: int| 0 <= w < lists@[j]@.len() && lists@[j]@[w] == x;
                                assert(old_l[j]@[w] == x);
                                assert(lists_view(old_l)[j].contains(x));
                            } else {
                                assert(hit_row(store, query@[q as int]@, lsh, found@[e as int].offset as int));
                            }
                        }
                        if e >= 1 {
                            assert(lists_view(old_l)[q as int].contains(first as usize));
                            let w = choose|w: int| 0 <= w < old_l[q as int]@.len() && old_l[q as int]@[w] == first as usize;
                            assert(lists@[q as int]@[w] == first as usize);
                        }
                    }
                } else {
                    assert(lists_view(lists@)[q as int] == lists@[q as int]@);
                }
            },
            None => {},
        }
        e = e + 1;
    }
    Ghost(first)
}

/// Ranks the stored images against query descriptors `query`. The store is
/// indexed batch by batch; every query descriptor looks up `knn_k`
/// neighbours per batch, and each image gets one vote from each query
/// descriptor that found one of its descriptors. At most `output_count`
/// images with at least one vote are returned, most votes first, equal
/// votes by ascending identifier.
#[verifier::rlimit(60)]
pub fn search(store: &DescriptorStore, query: &Vec<Vec<u8>>, params: SearchParams) -> (r: Result<Vec<ScoredImage>, SearchError>)
    requires
        store.wf(),
    ensures
        r is Ok <==> search_ok(store, query@, params),
        r == Err::<Vec<ScoredImage>, SearchError>(SearchError::IndexBuildFailure) <==> !search_params_ok(store, params),
        r == Err::<Vec<ScoredImage>, SearchError>(SearchError::InvalidImage) <==> search_params_ok(store, params) && !search_ok(store, query@, params),
        r matches Ok(v) ==> exists|lists: Seq<Seq<usize>>|
            lists.len() == query@.len() && lists_ok(lists, store.records@.len() as int)
            && top_of(ranking_items(store, lists), params.output_count as nat, v@)
            && votes_sound(store, query@, params.lsh, lists)
            && (params.knn_k >= 1 && params.lsh.checks >= 1 ==> votes_live(store, query@, params.lsh, lists, store.log@.len() as int))
            && (exact_recall(params) ==> exact_votes(store, query@, lists, store.log@.len() as int)),
{
    if params.lsh.key_size > crate::index::KEY_BITS || store.desc_len < 1 || store.desc_len > usize::MAX / 8
        || params.batch_size < 1 {
        return Err(SearchError::IndexBuildFailure);
    }
    let mut j: usize = 0;
    while j < query.len()
        invariant
            search_params_ok(store, params),
            j <= query@.len(),
            forall|i: int| 0 <= i < j ==> (#[trigger] query@[i])@.len() == store.desc_len,
        decreases query@.len() - j,
    {
        if query[j].len() != store.desc_len {
            return Err(SearchError::InvalidImage);
        }
        j = j + 1;
    }
    let nrec = store.records.len();
    let mut lists: Vec<Vec<usize>> = Vec::new();
    let mut j: usize = 0;
    while j < query.len()
        invariant
            j <= query@.len(),
            lists@.len() == j,
            lists_ok(lists_view(lists@), nrec as int),
            forall|i: int| 0 <= i < j ==> (#[trigger] lists@[i])@.len() == 0,
        decreases query@.len() - j,
    {
        let ghost old_l = lists@;
        lists.push(Vec::new());
        proof {
            assert forall|i: int| 0 <= i < lists@.len() implies positions_ok(#[trigger] lists_view(lists@)[i], nrec as int) by {
                if i < old_l.len() {
                    assert(lists_view(lists@)[i] == lists_view(old_l)[i]);
                }
            }
        }
        j = j + 1;
    }
    proof {
        assert forall|j: int, x: usize| 0 <= j < lists_view(lists@).len() && #[trigger] lists_view(lists@)[j].contains(x)
            implies owner_of_hit(store, query@[j]@, params.lsh, x as int) by {
            assert(lists@[j]@.len() == 0);
        }
    }
    let mut start: usize = 0;
    while start < store.log.len()
        invariant
            store.wf(),
            search_ok(store, query@, params),
            nrec == store.records@.len(),
            lists@.len() == query@.len(),
            lists_ok(lists_view(lists@), nrec as int),
            start <= store.log@.len(),
            exact_recall(params) ==> exact_votes(store, query@, lists_view(lists@), start as int),
            votes_sound(store, query@, params.lsh, lists_view(lists@)),
            params.knn_k >= 1 && params.lsh.checks >= 1 ==> votes_live(store, query@, params.lsh, lists_view(lists@), start as int),
        decreases store.log@.len() - start,
    {
        let b = store.batch_at(start, params.batch_size);
        let n = b.descriptors.len();
        proof {
            assert forall|l: int| 0 <= l < b.descriptors@.len() implies (#[trigger] b.descriptors@[l])@.len() == store.desc_len by {
                assert(rows_view(b.descriptors@)[l] == store.log_view()[start + l]);
                assert(store.log@[start + l]@.len() == store.desc_len);
            }
        }
        let ghost brows = b.descriptors@;
        let ix = match LshIndex::build(b.descriptors, start, store.desc_len, params.lsh) {
            Ok(ix) => ix,
            Err(_) => {
                return Err(SearchError::IndexBuildFailure);
            },
        };
        proof {
            assert forall|l: int| 0 <= l < n implies (#[trigger] ix.data@[l])@ == store.log@[start + l]@ by {
                assert(rows_view(brows)[l] == store.log_view()[start + l]);
            }
        }
        let mut q: usize = 0;
        while q < query.len()
            invariant
                store.wf(),
                search_ok(store, query@, params),
                ix.wf(),
                ix.base == start,
                ix.desc_len == store.desc_len,
                start + ix.data@.len() <= store.log@.len(),
                nrec == store.records@.len(),
                lists@.len() == query@.len(),
                lists_ok(lists_view(lists@), nrec as int),
                ix.data@.len() == n,
                n <= params.batch_size,
                ix.params == params.lsh,
                forall|l: int| 0 <= l < n ==> (#[trigger] ix.data@[l])@ == store.log@[start + l]@,
                q <= query@.len(),
                votes_sound(store, query@, params.lsh, lists_view(lists@)),
                params.knn_k >= 1 && params.lsh.checks >= 1 ==> forall|j: int| 0 <= j < query@.len() && (hit_between(store, #[trigger] query@[j]@, params.lsh, 0, start as int)
                    || (j < q && hit_between(store, query@[j]@, params.lsh, start as int, start + n)))
                    ==> lists_view(lists@)[j].len() > 0,
                exact_recall(params) ==> forall|j: int| 0 <= j < query@.len() && (stored_between(store, #[trigger] query@[j]@, 0, start as int)
                    || (j < q && stored_between(store, query@[j]@, start as int, start + n)))
                    ==> voted_exact(store, query@[j]@, lists_view(lists@)[j]),
            decreases query@.len() - q,
        {
            let found = ix.query(&query[q], params.knn_k);
            let ghost lq = lists_view(lists@);
            proof {
                assert forall|i: int| 0 <= i < found@.len() implies hit_row(store, query@[q as int]@, params.lsh, (#[trigger] found@[i]).offset as int) by {
                    let o = found@[i].offset as int;
                    assert(ix.is_hit(query@[q as int]@, o - start));
                    assert(ix.data@[o - start]@ == store.log@[o]@);
                }
            }
            let first_ri = record_votes(store, query, params.lsh, &found, &mut lists, q, start, n);
            proof {
                let lv2 = lists_view(lists@);
                if params.knn_k >= 1 && params.lsh.checks >= 1 {
                    assert forall|j: int| 0 <= j < query@.len() && (hit_between(store, #[trigger] query@[j]@, params.lsh, 0, start as int)
                        || (j < q + 1 && hit_between(store, query@[j]@, params.lsh, start as int, start + n)))
                        implies lv2[j].len() > 0 by {
                        if hit_between(store, query@[j]@, params.lsh, 0, start as int) || j < q {
                            assert(lq[j].len() > 0);
                            assert(lq[j].contains(lq[j][0]));
                            assert(lv2[j].contains(lq[j][0]));
                        } else {
                            let l = choose|l: int| start <= l < start + n && #[trigger] hit_row(store, query@[j]@, params.lsh, l);
                            let c = choose|c: Seq<usize>| ix.scanned(query@[q as int]@, c)
                                && nearest_of(query@[q as int]@, ix.data@, ix.base as int, c, params.knn_k as nat, found@);
                            assert(ix.data@[l - start]@ == store.log@[l]@);
                            assert(ix.is_hit(query@[q as int]@, l - start));
                            if c.len() < params.lsh.checks {
                                assert(c.contains((l - start) as usize));
                            }
                            assert(c.len() > 0);
                            let nb0 = neighbor_at(query@[q as int]@, ix.data@, ix.base as int, c[0] as int);
                            if found@.contains(nb0) {
                            } else {
                                assert(found@.len() == params.knn_k);
                            }
                            assert(found@.len() >= 1);
                        }
                    }
                }
                if exact_recall(params) {
                    assert forall|j: int| 0 <= j < query@.len() && (stored_between(store, #[trigger] query@[j]@, 0, start as int)
                        || (j < q + 1 && stored_between(store, query@[j]@, start as int, start + n)))
                        implies voted_exact(store, query@[j]@, lv2[j]) by {
                        if stored_between(store, query@[j]@, 0, start as int) || j < q {
                            assert(voted_exact(store, query@[j]@, lq[j]));
                            let (ri, l) = choose|ri: int, l: int| #[trigger] store.owns(ri, l) && lq[j].contains(ri as usize)
                                && hamming(query@[j]@, store.log@[l]@) == 0;
                            assert(lv2[j].contains(ri as usize));
                        } else {
                            let l = choose|l: int| start <= l < start + n && #[trigger] store.log@[l]@ == query@[j]@;
                            let c = choose|c: Seq<usize>| ix.scanned(query@[q as int]@, c)
                                && crate::index::nearest_of(query@[q as int]@, ix.data@, ix.base as int, c, params.knn_k as nat, found@);
                            assert(ix.data@[l - start]@ == query@[q as int]@);
                            lemma_exact_row_first(&ix, query@[q as int]@, l - start, params.knn_k as nat, c, found@);
                            let o = found@[0].offset as int;
                            assert(c.contains((o - start) as usize));
                            assert(found@[0] == neighbor_at(query@[q as int]@, ix.data@, start as int, o - start));
                            lemma_hamming_bound(query@[q as int]@, ix.data@[o - start]@, query@[q as int]@.len());
                            assert(ix.data@[o - start]@ == store.log@[o]@);
                            assert(hamming(query@[j]@, store.log@[o]@) == 0);
                            assert(store.owns(first_ri@, o));
                        }
                    }
                }
            }
            q = q + 1;
        }
        proof {
            if params.knn_k >= 1 && params.lsh.checks >= 1 {
                assert forall|j: int| 0 <= j < query@.len() && hit_between(store, #[trigger] query@[j]@, params.lsh, 0, start + n)
                    implies lists_view(lists@)[j].len() > 0 by {
                    let l = choose|l: int| 0 <= l < start + n && #[trigger] hit_row(store, query@[j]@, params.lsh, l);
                    if l < start {
                        assert(hit_between(store, query@[j]@, params.lsh, 0, start as int));
                    } else {
                        assert(hit_between(store, query@[j]@, params.lsh, start as int, start + n));
                    }
                }
            }
            if exact_recall(params) {
                assert forall|j: int| 0 <= j < query@.len() && stored_between(store, #[trigger] query@[j]@, 0, start + n)
                    implies voted_exact(store, query@[j]@, lists_view(lists@)[j]) by {
                    let l = choose|l: int| 0 <= l < start + n && #[trigger] store.log@[l]@ == query@[j]@;
                    if l < start {
                        assert(stored_between(store, query@[j]@, 0, start as int));
                    } else {
                        assert(stored_between(store, query@[j]@, start as int, start + n));
                    }
                }
            }
        }
        start = start + n;
    }
    let scores = tally(&lists, nrec);
    let ghost lv = lists_view(lists@);
    let mut items: Vec<ScoredImage> = Vec::new();
    let mut i: usize = 0;
    while i < nrec
        invariant
            store.wf(),
            nrec == store.records@.len(),
            scores@.len() == nrec,
            forall|x: int| 0 <= x < nrec ==> (#[trigger] scores@[x]) == vote_count(lv, x),
            i <= nrec,
            items@ == ranking_items(store, lv).subrange(0, i as int),
        decreases nrec - i,
    {
        items.push(ScoredImage { id: store.records[i].id, score: scores[i] });
        proof {
            assert(items@ =~= ranking_items(store, lv).subrange(0, i + 1));
        }
        i = i + 1;
    }
    proof {
        assert(items@ =~= ranking_items(store, lv));
    }
    let v = rank(&items, params.output_count);
    assert(lv.len() == query@.len());
    Ok(v)
}

/// An index rebuilt from the whole store, offsets counted from the start of
/// the log.
pub fn build_snapshot_index(store: &DescriptorStore, params: LshParams) -> (r: Result<LshIndex, IndexError>)
    requires
        store.wf(),
    ensures
        r is Ok <==> params_ok(params) && 1 <= store.desc_len <= usize::MAX / 8,
        r matches Ok(ix) ==> ix.wf() && snapshot_of(&ix, store) && ix.params == params && ix.desc_len == store.desc_len,
{
    let rows = store.copy_rows(0, store.log.len());
    proof {
        assert(store.log_view().subrange(0, store.log@.len() as int) =~= store.log_view());
        assert forall|l: int| 0 <= l < rows@.len() implies (#[trigger] rows@[l])@.len() == store.desc_len by {
            assert(rows_view(rows@)[l] == store.log_view()[l]);
        }
    }
    LshIndex::build(rows, 0, store.desc_len, params)
}

/// Replaces the published index by one built from the store as it is now.
/// A failed build leaves the published index as it was.
pub fn rebuild_index(published: &mut Option<LshIndex>, store: &DescriptorStore, params: LshParams) -> (r: Result<(), IndexError>)
    requires
        store.wf(),
    ensures
        r is Ok <==> params_ok(params) && 1 <= store.desc_len <= usize::MAX / 8,
        r is Err ==> *final(published) == *old(published),
        r is Ok ==> (*final(published) matches Some(ix) && ix.wf() && snapshot_of(&ix, store) && ix.params == params
            && ix.desc_len == store.desc_len),
{
    match build_snapshot_index(store, params) {
        Ok(ix) => {
            *published = Some(ix);
            Ok(())
        },
        Err(e) => Err(e),
    }
}

/// `ix` indexes exactly the descriptors of `store`, offsets counted from
/// the start of its log.
pub open spec fn snapshot_of(ix: &LshIndex, store: &DescriptorStore) -> bool {
    &&& ix.base == 0
    &&& rows_view(ix.data@) == store.log_view()
}

/// A query on an index rebuilt from a store only names descriptors that
/// belong to an image of that store.
pub proof fn lemma_index_consistent(store: &DescriptorStore, ix: &LshIndex, r: Seq<Neighbor>)
    requires
        store.wf(),
        snapshot_of(ix, store),
        forall|i: int| 0 <= i < r.len() ==> ix.base <= (#[trigger] r[i]).offset < ix.base + ix.data@.len(),
    ensures
        forall|i: int| 0 <= i < r.len() ==> store.offset_owned(#[trigger] r[i].offset as int),
{
    assert forall|i: int| 0 <= i < r.len() implies store.offset_owned(#[trigger] r[i].offset as int) by {
        assert(rows_view(ix.data@).len() == ix.data@.len());
        assert(store.log_view().len() == store.log@.len());
        store.lemma_offset_owned(r[i].offset as int);
    }
}

/// A stored image found by each query descriptor ranks first, with one vote
/// per query descriptor, unless another image with as many votes has a
/// smaller identifier.
pub proof fn lemma_self_match(store: &DescriptorStore, lists: Seq<Seq<usize>>, x: int, k: nat, v: Seq<ScoredImage>)
    requires
        store.wf(),
        lists_ok(lists, store.records@.len() as int),
        0 < lists.len() <= usize::MAX,
        0 <= x < store.records@.len(),
        forall|j: int| 0 <= j < lists.len() ==> (#[trigger] lists[j]).contains(x as usize),
        forall|y: int| 0 <= y < store.records@.len() && y != x && vote_count(lists, y) == lists.len()
            ==> store.records@[y].id > store.records@[x].id,
        k >= 1,
        top_of(ranking_items(store, lists), k, v),
    ensures
        v.len() >= 1,
        v[0] == (ScoredImage { id: store.records@[x].id, score: lists.len() as usize }),
{
    let items = ranking_items(store, lists);
    lemma_full_vote(lists, x);
    let target = items[x];
    assert(target == ScoredImage { id: store.records@[x].id, score: lists.len() as usize });
    // nothing in the ranking comes before the target
    assert forall|i: int| 0 <= i < v.len() implies !ranks_before(v[i], target) by {
        assert(items.contains(v[i]));
        let m = choose|m: int| 0 <= m < items.len() && items[m] == v[i];
        lemma_vote_bound(lists, m);
        if m != x && ranks_before(v[i], target) {
            assert(vote_count(lists, m) == lists.len());
        }
    }
    assert(items[x].score > 0);
    if !v.contains(target) {
        assert(v.len() == k);
        assert(ranks_before(v[0], target));
    }
    let w = choose|w: int| 0 <= w < v.len() && v[w] == target;
    if w > 0 {
        assert(ranks_before(v[0], v[w]));
    }
}

proof fn lemma_vote_is_owner(store: &DescriptorStore, query: Seq<Vec<u8>>, j: int, list: Seq<usize>, x: int)
    requires
        store.wf(),
        0 <= j < query.len(),
        voted_exact(store, query[j]@, list),
        forall|jj: int, l: int| 0 <= jj < query.len() && 0 <= l < store.log@.len() && #[trigger] hamming(query[jj]@, store.log@[l]@) == 0
            ==> store.owns(x, l),
    ensures
        list.contains(x as usize),
{
    let (ri, l) = choose|ri: int, l: int| #[trigger] store.owns(ri, l) && list.contains(ri as usize)
        && hamming(query[j]@, store.log@[l]@) == 0;
    store.lemma_end_monotone(ri, store.records@.len() - 1);
    assert(store.owns(x, l));
    store.lemma_owner_unique(ri, x, l);
}

/// Searching with the descriptors of a stored image ranks that image first,
/// with one vote per query descriptor, when an exact copy is always found,
/// no other image holds a copy of a query descriptor, and no other image
/// with as many votes has a smaller identifier.
pub proof fn lemma_search_self_match(
    store: &DescriptorStore,
    query: Seq<Vec<u8>>,
    params: SearchParams,
    lists: Seq<Seq<usize>>,
    v: Seq<ScoredImage>,
    x: int,
)
    requires
        store.wf(),
        exact_recall(params),
        params.output_count >= 1,
        0 < query.len() <= usize::MAX,
        0 <= x < store.records@.len(),
        lists.len() == query.len(),
        lists_ok(lists, store.records@.len() as int),
        top_of(ranking_items(store, lists), params.output_count as nat, v),
        exact_votes(store, query, lists, store.log@.len() as int),
        forall|j: int| 0 <= j < query.len() ==> stored_between(
            store,
            #[trigger] query[j]@,
            store.records@[x].start as int,
            store.records@[x].end as int,
        ),
        forall|j: int, l: int| 0 <= j < query.len() && 0 <= l < store.log@.len() && #[trigger] hamming(query[j]@, store.log@[l]@) == 0
            ==> store.owns(x, l),
        forall|y: int| 0 <= y < store.records@.len() && y != x && vote_count(lists, y) == lists.len()
            ==> store.records@[y].id > store.records@[x].id,
    ensures
        v.len() >= 1,
        v[0] == (ScoredImage { id: store.records@[x].id, score: query.len() as usize }),
{
    store.lemma_end_monotone(x, store.records@.len() - 1);
    assert forall|j: int| 0 <= j < lists.len() implies (#[trigger] lists[j]).contains(x as usize) by {
        let l0 = choose|l: int| store.records@[x].start <= l < store.records@[x].end && #[trigger] store.log@[l]@ == query[j]@;
        assert(stored_between(store, query[j]@, 0, store.log@.len() as int));
        lemma_vote_is_owner(store, query, j, lists[j], x);
    }
    lemma_self_match(store, lists, x, params.output_count as nat, v);
}

} // verus!
