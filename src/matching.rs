//! Direct matching between the descriptors of two images.
use vstd::prelude::*;
use crate::hamming::{hamming, lemma_hamming_bound};
use crate::index::{distinct_in, neighbor_at, precedes, rows_fit, select_nearest, Neighbor};

verus! {

/// Descriptor `query` of the first image is nearest to descriptor `train`
/// of the second.
#[derive(Debug, Clone, Copy, PartialEq, Eq, Structural)]
pub struct Match {
    pub query: usize,
    pub train: usize,
    pub distance: usize,
}

/// All rows of `a` and `b` have length `len`, and distances fit a `usize`.
pub open spec fn same_length(a: Seq<Vec<u8>>, b: Seq<Vec<u8>>, len: nat) -> bool {
    &&& len <= usize::MAX / 8
    &&& forall|i: int| 0 <= i < a.len() ==> (#[trigger] a[i])@.len() == len
    &&& forall|j: int| 0 <= j < b.len() ==> (#[trigger] b[j])@.len() == len
}

/// `m` pairs row `m.query` of `a` with its nearest row of `b`: no row of `b`
/// is closer, and among equally close rows it has the smallest index.
pub open spec fn is_nearest(a: Seq<Vec<u8>>, b: Seq<Vec<u8>>, m: Match) -> bool {
    &&& m.query < a.len()
    &&& m.train < b.len()
    &&& m.distance == hamming(a[m.query as int]@, b[m.train as int]@)
    &&& forall|j: int| 0 <= j < b.len() && j != m.train ==> precedes(
        Neighbor { offset: m.train, distance: m.distance },
        #[trigger] neighbor_at(a[m.query as int]@, b, 0, j),
    )
}

/// Some match in `r` is for row `i` of the first image.
pub open spec fn has_match(r: Seq<Match>, i: int) -> bool {
    exists|m: int| 0 <= m < r.len() && (#[trigger] r[m]).query == i
}

/// Some row of `b` is within `max_distance` bits of row `i` of `a`.
pub open spec fn has_close_row(a: Seq<Vec<u8>>, b: Seq<Vec<u8>>, i: int, max_distance: usize) -> bool {
    exists|j: int| 0 <= j < b.len() && hamming(a[i]@, (#[trigger] b[j])@) <= max_distance
}

/// The indices `0..n`.
fn all_rows(n: usize) -> (c: Vec<usize>)
    ensures
        c@.len() == n,
        forall|i: int| 0 <= i < n ==> #[trigger] c@[i] == i,
        distinct_in(c@, n as int),
{
    let mut c: Vec<usize> = Vec::new();
    let mut i: usize = 0;
    while i < n
        invariant
            i <= n,
            c@.len() == i,
            forall|x: int| 0 <= x < i ==> #[trigger] c@[x] == x,
        decreases n - i,
    {
        c.push(i);
        i = i + 1;
    }
    c
}

/// For each row of `a`, in order, its nearest row of `b`, kept when it is
/// within `max_distance` bits.
pub fn match_descriptors(a: &Vec<Vec<u8>>, b: &Vec<Vec<u8>>, len: usize, max_distance: usize) -> (r: Vec<Match>)
    requires
        same_length(a@, b@, len as nat),
    ensures
        forall|m: int| 0 <= m < r@.len() ==> is_nearest(a@, b@, #[trigger] r@[m]) && r@[m].distance <= max_distance,
        forall|m: int, n: int| 0 <= m < n < r@.len() ==> (#[trigger] r@[m]).query < (#[trigger] r@[n]).query,
        forall|i: int| 0 <= i < a@.len() && #[trigger] has_close_row(a@, b@, i, max_distance) ==> has_match(r@, i),
{
    let cands = all_rows(b.len());
    let mut r: Vec<Match> = Vec::new();
    let mut i: usize = 0;
    while i < a.len()
        invariant
            same_length(a@, b@, len as nat),
            cands@.len() == b@.len(),
            forall|x: int| 0 <= x < b@.len() ==> #[trigger] cands@[x] == x,
            distinct_in(cands@, b@.len() as int),
            i <= a@.len(),
            forall|m: int| 0 <= m < r@.len() ==> is_nearest(a@, b@, #[trigger] r@[m]) && r@[m].distance <= max_distance && r@[m].query < i,
            forall|m: int, n: int| 0 <= m < n < r@.len() ==> (#[trigger] r@[m]).query < (#[trigger] r@[n]).query,
            forall|x: int| 0 <= x < i && #[trigger] has_close_row(a@, b@, x, max_distance) ==> has_match(r@, x),
        decreases a@.len() - i,
    {
        let q = &a[i];
        let blen = b.len();
        proof {
            assert(q@.len() == len);
            assert(rows_fit(q@, b@, 0));
        }
        let nb = select_nearest(q, b, 0, &cands, 1);
        let ghost old_r = r@;
        if nb.len() == 1 && nb[0].distance <= max_distance {
            let train = nb[0].offset;
            let mt = Match { query: i, train, distance: nb[0].distance };
            proof {
                assert(cands@.contains((nb@[0].offset - 0) as usize));
                assert(nb@[0] == neighbor_at(q@, b@, 0, train as int));
                let w = choose|w: int| 0 <= w < cands@.len() && cands@[w] == train;
                assert(train < b@.len());
                lemma_hamming_bound(q@, b@[train as int]@, q@.len());
                assert(mt.distance == hamming(a@[i as int]@, b@[train as int]@));
                assert forall|j: int| 0 <= j < b@.len() && j != train implies precedes(
                    Neighbor { offset: train, distance: mt.distance },
                    #[trigger] neighbor_at(a@[i as int]@, b@, 0, j),
                ) by {
                    assert(cands@[j] == j);
                    if nb@.contains(neighbor_at(q@, b@, 0, cands@[j] as int)) {
                        assert(nb@[0] == neighbor_at(q@, b@, 0, j));
                    }
                }
            }
            r.push(mt);
            proof {
                assert(r@[old_r.len() as int] == mt);
                assert forall|m: int| 0 <= m < r@.len() implies is_nearest(a@, b@, #[trigger] r@[m]) && r@[m].distance <= max_distance && r@[m].query < i + 1 by {
                    if m < old_r.len() {
                        assert(r@[m] == old_r[m]);
                    }
                }
                assert forall|m: int, n: int| 0 <= m < n < r@.len() implies (#[trigger] r@[m]).query < (#[trigger] r@[n]).query by {
                    assert(r@[m] == old_r[m] || m == old_r.len());
                    if n < old_r.len() {
                        assert(r@[n] == old_r[n]);
                    }
                }
                assert forall|x: int| 0 <= x < i + 1 && #[trigger] has_close_row(a@, b@, x, max_distance) implies has_match(r@, x) by {
                    if x < i {
                        assert(has_match(old_r, x));
                        let m = choose|m: int| 0 <= m < old_r.len() && (#[trigger] old_r[m]).query == x;
                        assert(r@[m] == old_r[m]);
                    } else {
                        assert(r@[old_r.len() as int].query == x);
                    }
                }
            }
        } else {
            proof {
                assert forall|j: int| 0 <= j < b@.len() implies hamming(a@[i as int]@, (#[trigger] b@[j])@) > max_distance by {
                    assert(cands@[j] == j);
                    let nj = neighbor_at(q@, b@, 0, cands@[j] as int);
                    if nb@.contains(nj) {
                        let w = choose|w: int| 0 <= w < nb@.len() && nb@[w] == nj;
                    } else {
                        assert(precedes(nb@[0], nj));
                    }
                }
                assert(!has_close_row(a@, b@, i as int, max_distance));
            }
        }
        i = i + 1;
    }
    r
}

} // verus!
