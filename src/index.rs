//! Multi-probe locality-sensitive hash index over a snapshot of descriptors,
//! answering approximate k-nearest-neighbour queries by Hamming distance.
use vstd::prelude::*;
use crate::hamming::{bit_of, hamming, hamming_distance, lemma_hamming_self};
use vstd::set_lib::{lemma_int_range, lemma_len_subset, set_int_range};

verus! {

/// A descriptor found by a query: its global offset and its distance.
#[derive(Debug, Clone, Copy, PartialEq, Eq, Structural)]
pub struct Neighbor {
    pub offset: usize,
    pub distance: usize,
}

/// Shape of the hash tables and the cost bound of a query.
#[derive(Debug, Clone, Copy, PartialEq, Eq, Structural)]
pub struct LshParams {
    /// Number of independent hash tables.
    pub table_count: usize,
    /// Number of sampled bits that make a bucket key, at most `KEY_BITS`.
    pub key_size: usize,
    /// Number of extra buckets probed per table: the query's key with its
    /// last, second-to-last, ... bit flipped, one at a time.
    pub probe_level: usize,
    /// Largest number of candidates whose distance a query computes.
    pub checks: usize,
}

/// Errors of an index build; a failed build publishes nothing.
#[derive(Debug, Clone, Copy, PartialEq, Eq, Structural)]
pub enum IndexError {
    /// The parameters or the snapshot cannot make an index.
    IndexBuildFailure,
}


/// Width of a bucket key: a table samples at most this many bits.
pub const KEY_BITS: usize = 64;

/// `a` ranks before `b`: smaller distance, then smaller offset.
pub open spec fn precedes(a: Neighbor, b: Neighbor) -> bool {
    a.distance < b.distance || (a.distance == b.distance && a.offset < b.offset)
}

pub open spec fn sorted_neighbors(r: Seq<Neighbor>) -> bool {
    forall|i: int, j: int| 0 <= i < j < r.len() ==> precedes(#[trigger] r[i], #[trigger] r[j])
}

/// The neighbour that row `l` of `data` is to query `q`.
pub open spec fn neighbor_at(q: Seq<u8>, data: Seq<Vec<u8>>, base: int, l: int) -> Neighbor {
    Neighbor { offset: (base + l) as usize, distance: hamming(q, data[l]@) as usize }
}

/// Every row has the query's length, and offsets and distances fit a `usize`.
pub open spec fn rows_fit(q: Seq<u8>, data: Seq<Vec<u8>>, base: int) -> bool {
    &&& q.len() <= usize::MAX / 8
    &&& 0 <= base
    &&& base + data.len() <= usize::MAX
    &&& forall|l: int| 0 <= l < data.len() ==> (#[trigger] data[l])@.len() == q.len()
}

/// Row positions below `n`, none twice.
pub open spec fn distinct_in(c: Seq<usize>, n: int) -> bool {
    &&& forall|i: int| 0 <= i < c.len() ==> (#[trigger] c[i]) < n
    &&& forall|i: int, j: int| 0 <= i < c.len() && 0 <= j < c.len() && i != j ==> c[i] != c[j]
}

/// `r` is the `k` nearest neighbours among candidate rows `c`, in rank
/// order: each entry comes from a candidate, and a candidate left out ranks
/// after every entry of a full list.
pub open spec fn nearest_of(q: Seq<u8>, data: Seq<Vec<u8>>, base: int, c: Seq<usize>, k: nat, r: Seq<Neighbor>) -> bool {
    &&& sorted_neighbors(r)
    &&& r.len() <= k
    &&& forall|i: int| 0 <= i < r.len() ==> base <= (#[trigger] r[i]).offset && c.contains((r[i].offset - base) as usize) && r[i] == neighbor_at(q, data, base, r[i].offset - base)
    &&& forall|m: int| 0 <= m < c.len() ==> (r.contains(#[trigger] neighbor_at(q, data, base, c[m] as int)) || (r.len() == k
        && forall|i: int| 0 <= i < r.len() ==> precedes(r[i], neighbor_at(q, data, base, c[m] as int))))
}

/// Whether `a` ranks before `b`.
pub fn precedes_exec(a: Neighbor, b: Neighbor) -> (r: bool)
    ensures
        r == precedes(a, b),
{
    a.distance < b.distance || (a.distance == b.distance && a.offset < b.offset)
}

/// The `k` nearest neighbours of `q` among candidate rows `cands` of
/// `data`, whose row `l` has global offset `base + l`; ties in distance go
/// to the smaller offset.
pub fn select_nearest(q: &Vec<u8>, data: &Vec<Vec<u8>>, base: usize, cands: &Vec<usize>, k: usize) -> (r: Vec<Neighbor>)
    requires
        rows_fit(q@, data@, base as int),
        distinct_in(cands@, data@.len() as int),
    ensures
        nearest_of(q@, data@, base as int, cands@, k as nat, r@),
{
    let mut r: Vec<Neighbor> = Vec::new();
    let mut m: usize = 0;
    let ghost mut src: Seq<int> = Seq::empty();
    while m < cands.len()
        invariant
            rows_fit(q@, data@, base as int),
            distinct_in(cands@, data@.len() as int),
            m <= cands@.len(),
            sorted_neighbors(r@),
            r@.len() <= k,
            src.len() == r@.len(),
            forall|i: int| 0 <= i < r@.len() ==> 0 <= #[trigger] src[i] < m && r@[i] == neighbor_at(q@, data@, base as int, cands@[src[i]] as int),
            forall|mm: int| 0 <= mm < m ==> (r@.contains(#[trigger] neighbor_at(q@, data@, base as int, cands@[mm] as int)) || (r@.len() == k
                && forall|i: int| 0 <= i < r@.len() ==> precedes(r@[i], neighbor_at(q@, data@, base as int, cands@[mm] as int)))),
        decreases cands@.len() - m,
    {
        let l = cands[m];
        let d = hamming_distance(q.as_slice(), data[l].as_slice());
        let n = Neighbor { offset: base + l, distance: d };
        assert(n == neighbor_at(q@, data@, base as int, l as int));
        proof {
            // entries so far come from earlier candidates, so differ from n
            assert forall|i: int| 0 <= i < r@.len() implies r@[i].offset != n.offset by {
                assert(cands@[src[i]] != cands@[m as int]);
            }
        }
        let mut p: usize = 0;
        while p < r.len() && !precedes_exec(n, r[p])
            invariant
                p <= r@.len(),
                forall|i: int| 0 <= i < p ==> !precedes(n, #[trigger] r@[i]),
            decreases r@.len() - p,
        {
            p = p + 1;
        }
        let ghost old_r = r@;
        if p < k {
            r.insert(p, n);
            let ghost old_src = src;
            proof {
                src = src.insert(p as int, m as int);
                assert forall|i: int, j: int| 0 <= i < j < r@.len() implies precedes(#[trigger] r@[i], #[trigger] r@[j]) by {
                    if j < p {
                    } else if j == p {
                        assert(!precedes(n, old_r[i]));
                        assert(old_r[i].offset != n.offset);
                    } else if i < p {
                        assert(!precedes(n, old_r[i]));
                        assert(old_r[i].offset != n.offset);
                        assert(precedes(n, old_r[p as int]));
                        assert(p == j - 1 || precedes(old_r[p as int], old_r[j - 1]));
                    } else if i == p {
                        assert(precedes(n, old_r[p as int]));
                        assert(p == j - 1 || precedes(old_r[p as int], old_r[j - 1]));
                    } else {
                        assert(r@[i] == old_r[i - 1]);
                    }
                }
            }
            let ghost mid_r = r@;
            if r.len() > k {
                r.pop();
                proof {
                    src = src.drop_last();
                }
            }
            proof {
                assert forall|i: int| 0 <= i < r@.len() implies 0 <= #[trigger] src[i] < m + 1 && r@[i] == neighbor_at(q@, data@, base as int, cands@[src[i]] as int) by {
                    if i < p {
                        assert(r@[i] == old_r[i] && src[i] == old_src[i]);
                    } else if i == p {
                    } else {
                        assert(r@[i] == old_r[i - 1] && src[i] == old_src[i - 1]);
                    }
                }
                assert forall|mm: int| 0 <= mm < m + 1 implies (r@.contains(#[trigger] neighbor_at(q@, data@, base as int, cands@[mm] as int)) || (r@.len() == k
                    && forall|i: int| 0 <= i < r@.len() ==> precedes(r@[i], neighbor_at(q@, data@, base as int, cands@[mm] as int)))) by {
                    let x = neighbor_at(q@, data@, base as int, cands@[mm] as int);
                    if mm == m {
                        assert(r@[p as int] == x);
                    } else if old_r.contains(x) {
                        let w = choose|w: int| 0 <= w < old_r.len() && old_r[w] == x;
                        if w < p {
                            assert(r@[w] == x);
                        } else if w + 1 < r@.len() {
                            assert(r@[w + 1] == x);
                        } else {
                            // x was the last entry and was pushed out: it ranks after all others
                            assert(mid_r[w + 1] == x);
                            assert forall|i: int| 0 <= i < r@.len() implies precedes(r@[i], x) by {
                                assert(r@[i] == mid_r[i]);
                            }
                        }
                    } else {
                        assert forall|i: int| 0 <= i < r@.len() implies precedes(r@[i], x) by {
                            assert(r@[i] == mid_r[i]);
                            if i < p {
                                assert(mid_r[i] == old_r[i]);
                            } else if i == p {
                                assert(precedes(n, old_r[p as int]));
                            } else {
                                assert(mid_r[i] == old_r[i - 1]);
                            }
                        }
                    }
                }
            }
        } else {
            proof {
                assert forall|i: int| 0 <= i < r@.len() implies precedes(r@[i], n) by {
                    assert(!precedes(n, r@[i]));
                    assert(r@[i].offset != n.offset);
                }
            }
        }
        m = m + 1;
    }
    proof {
        assert forall|i: int| 0 <= i < r@.len() implies base <= (#[trigger] r@[i]).offset && cands@.contains((r@[i].offset - base) as usize) && r@[i] == neighbor_at(q@, data@, base as int, r@[i].offset - base) by {
            let w = src[i];
            assert(r@[i] == neighbor_at(q@, data@, base as int, cands@[w] as int));
            assert(cands@[w] < data@.len());
            assert(cands@[w] == r@[i].offset - base);
        }
        assert(sorted_neighbors(r@));
        assert(r@.len() <= k);
        assert(forall|mm: int| 0 <= mm < cands@.len() ==> (r@.contains(#[trigger] neighbor_at(q@, data@, base as int, cands@[mm] as int)) || (r@.len() == k
        && forall|i: int| 0 <= i < r@.len() ==> precedes(r@[i], neighbor_at(q@, data@, base as int, cands@[mm] as int)))));
    }
    r
}

/// Bit `p` of a descriptor, counting from the low bit of its first byte.
pub open spec fn desc_bit(d: Seq<u8>, p: int) -> u64 {
    if bit_of(d[p / 8], (p % 8) as nat) {
        1
    } else {
        0
    }
}

/// Key made of the bits of `d` at the first `n` positions of `pos`, the
/// first position giving the most significant key bit.
pub open spec fn key_upto(d: Seq<u8>, pos: Seq<usize>, n: nat) -> u64
    decreases n,
{
    if n == 0 {
        0
    } else {
        (key_upto(d, pos, (n - 1) as nat) << 1u64) | desc_bit(d, pos[n - 1] as int)
    }
}

/// Bucket of descriptor `d` in a table that samples positions `pos`.
pub open spec fn bucket_key(d: Seq<u8>, pos: Seq<usize>) -> u64 {
    key_upto(d, pos, pos.len())
}

/// Probe `pj` of a query whose own bucket is `qk`: the bucket itself, then
/// the key with bit `pj - 1` flipped.
pub open spec fn probe_key(qk: u64, pj: int) -> u64 {
    if pj == 0 {
        qk
    } else {
        qk ^ (1u64 << (pj - 1) as u64)
    }
}

/// Buckets probed per table: the query's own, and one more for each of the
/// first `probe_level` key bits flipped alone.
pub open spec fn probe_count(key_size: usize, probe_level: usize) -> int {
    1 + if probe_level < key_size { probe_level as int } else { key_size as int }
}

/// Bucket `b` is probed for a query whose own bucket is `qk`.
pub open spec fn probed(qk: u64, b: u64, key_size: usize, probe_level: usize) -> bool {
    exists|pj: int| 0 <= pj < probe_count(key_size, probe_level) && b == #[trigger] probe_key(qk, pj)
}

pub open spec fn params_ok(p: LshParams) -> bool {
    p.key_size <= KEY_BITS
}

/// Whether `desc_len`, `base` and `data` can make an index with `params`.
pub open spec fn build_ok(data: Seq<Vec<u8>>, base: usize, desc_len: usize, params: LshParams) -> bool {
    &&& params_ok(params)
    &&& 1 <= desc_len <= usize::MAX / 8
    &&& base + data.len() <= usize::MAX
    &&& forall|l: int| 0 <= l < data.len() ==> (#[trigger] data[l])@.len() == desc_len
}

/// Bit position sampled by table `t` at key bit `j`, for descriptors of
/// `nbits` bits.
pub open spec fn sample_position(t: int, j: int, nbits: int) -> int {
    (7 + 31 * (t % nbits) + 97 * j + 13 * (t % nbits) * j) % nbits
}

/// The positions sampled by table `t`.
pub open spec fn positions_for(t: int, key_size: usize, nbits: int) -> Seq<usize> {
    Seq::new(key_size as nat, |j: int| sample_position(t, j, nbits) as usize)
}

/// `q` and `d` share a probed bucket in some table of an index with
/// `params` over descriptors of `nbits` bits.
pub open spec fn shares_bucket(q: Seq<u8>, d: Seq<u8>, params: LshParams, nbits: int) -> bool {
    exists|t: int| 0 <= t < params.table_count && #[trigger] probed(
        bucket_key(q, positions_for(t, params.key_size, nbits)),
        bucket_key(d, positions_for(t, params.key_size, nbits)),
        params.key_size,
        params.probe_level,
    )
}

/// One hash table: bucket `keys[i]` lists rows `rows[i]`; only non-empty
/// buckets are stored.
#[derive(Debug)]
pub struct LshTable {
    pub keys: Vec<u64>,
    pub rows: Vec<Vec<usize>>,
}

/// Row `l` is listed in the bucket of its own key.
pub open spec fn filed(tb: &LshTable, data: Seq<Vec<u8>>, pos: Seq<usize>, l: int) -> bool {
    exists|i: int| 0 <= i < tb.keys@.len() && tb.keys@[i] == bucket_key(data[l]@, pos) && (#[trigger] tb.rows@[i])@.contains(
        l as usize,
    )
}

/// The buckets of `tb` have distinct keys, list rows below `n` under their
/// own key, and every row below `filed_upto` is listed.
pub open spec fn table_ok(tb: &LshTable, data: Seq<Vec<u8>>, pos: Seq<usize>, n: int, filed_upto: int) -> bool {
    &&& tb.keys@.len() == tb.rows@.len()
    &&& forall|i: int, j: int| 0 <= i < tb.keys@.len() && 0 <= j < tb.keys@.len() && i != j ==> tb.keys@[i] != tb.keys@[j]
    &&& forall|i: int, e: int| 0 <= i < tb.rows@.len() && 0 <= e < tb.rows@[i]@.len() ==> (#[trigger] tb.rows@[i]@[e]) < n
        && bucket_key(data[tb.rows@[i]@[e] as int]@, pos) == tb.keys@[i]
    &&& forall|l: int| 0 <= l < filed_upto ==> #[trigger] filed(tb, data, pos, l)
}

/// The rows of bucket `b` of `tb`, in order; empty if it has none.
pub open spec fn bucket_rows(tb: &LshTable, b: u64) -> Seq<usize> {
    if exists|i: int| 0 <= i < tb.keys@.len() && tb.keys@[i] == b {
        tb.rows@[choose|i: int| 0 <= i < tb.keys@.len() && tb.keys@[i] == b]@
    } else {
        Seq::empty()
    }
}

/// `s` from left to right, each row once, stopping at `cap` rows.
pub open spec fn keep_first(s: Seq<usize>, cap: nat) -> Seq<usize>
    decreases s.len(),
{
    if s.len() == 0 {
        Seq::empty()
    } else {
        let k = keep_first(s.drop_last(), cap);
        if !k.contains(s.last()) && k.len() < cap {
            k.push(s.last())
        } else {
            k
        }
    }
}

/// Every row in bucket `b` of `tb` is in `c`.
pub open spec fn covered(c: Seq<usize>, tb: &LshTable, b: u64) -> bool {
    forall|i: int, e: int| 0 <= i < tb.keys@.len() && tb.keys@[i] == b && 0 <= e < tb.rows@[i]@.len()
        ==> c.contains(#[trigger] tb.rows@[i]@[e])
}

/// Bucket of descriptor `d` in a table that samples positions `pos`.
pub fn bucket_of(d: &Vec<u8>, pos: &Vec<usize>) -> (k: u64)
    requires
        forall|j: int| 0 <= j < pos@.len() ==> (#[trigger] pos@[j]) < d@.len() * 8,
    ensures
        k == bucket_key(d@, pos@),
{
    let mut k: u64 = 0;
    let mut j: usize = 0;
    while j < pos.len()
        invariant
            j <= pos@.len(),
            forall|i: int| 0 <= i < pos@.len() ==> (#[trigger] pos@[i]) < d@.len() * 8,
            k == key_upto(d@, pos@, j as nat),
        decreases pos@.len() - j,
    {
        let p = pos[j];
        let sh = (p % 8) as u8;
        let bit: u64 = if (d[p / 8] >> sh) & 1u8 == 1u8 { 1 } else { 0 };
        k = (k << 1u64) | bit;
        j = j + 1;
    }
    k
}

/// Position of the bucket with key `b` in `tb`, if it has one.
pub fn find_bucket(tb: &LshTable, b: u64) -> (r: Option<usize>)
    requires
        tb.keys@.len() == tb.rows@.len(),
    ensures
        r matches Some(i) ==> i < tb.keys@.len() && tb.keys@[i as int] == b,
        r is None ==> forall|i: int| 0 <= i < tb.keys@.len() ==> tb.keys@[i] != b,
{
    let mut i: usize = 0;
    while i < tb.keys.len()
        invariant
            i <= tb.keys@.len(),
            forall|x: int| 0 <= x < i ==> tb.keys@[x] != b,
        decreases tb.keys@.len() - i,
    {
        if tb.keys[i] == b {
            return Some(i);
        }
        i = i + 1;
    }
    None
}

/// A multi-probe LSH index over a snapshot of descriptors; row `l` of the
/// snapshot has global offset `base + l`.
#[derive(Debug)]
pub struct LshIndex {
    pub params: LshParams,
    pub base: usize,
    pub desc_len: usize,
    pub data: Vec<Vec<u8>>,
    pub positions: Vec<Vec<usize>>,
    pub tables: Vec<LshTable>,
}

impl LshIndex {
    /// Table `t` samples `positions_for(t, ..)` and its buckets agree with
    /// the snapshot: each lists exactly the rows of its key.
    pub open spec fn wf(&self) -> bool {
        &&& build_ok(self.data@, self.base, self.desc_len, self.params)
        &&& self.positions@.len() == self.params.table_count
        &&& self.tables@.len() == self.params.table_count
        &&& forall|t: int| 0 <= t < self.positions@.len()
            ==> (#[trigger] self.positions@[t])@ == positions_for(t, self.params.key_size, self.desc_len * 8)
        &&& forall|t: int| 0 <= t < self.tables@.len()
            ==> table_ok(&#[trigger] self.tables@[t], self.data@, self.positions@[t]@, self.data@.len() as int, self.data@.len() as int)
    }

    /// Row `l` shares a probed bucket with query `q` in some table.
    pub open spec fn is_hit(&self, q: Seq<u8>, l: int) -> bool {
        shares_bucket(q, self.data@[l]@, self.params, self.desc_len * 8)
    }

    /// `c` is a set of candidate rows a query may scan: distinct hits, at
    /// most `checks` of them, and every hit unless `checks` was reached.
    pub open spec fn scanned(&self, q: Seq<u8>, c: Seq<usize>) -> bool {
        &&& self.sound_candidates(q, c)
        &&& c.len() < self.params.checks ==> forall|l: int| 0 <= l < self.data@.len() && #[trigger] self.is_hit(q, l)
            ==> c.contains(l as usize)
    }

    /// The rows of the first `pj` probed buckets of table `t`, in order.
    pub open spec fn probe_rows(&self, q: Seq<u8>, t: int, pj: nat) -> Seq<usize>
        decreases pj,
    {
        if pj == 0 {
            Seq::empty()
        } else {
            self.probe_rows(q, t, (pj - 1) as nat) + bucket_rows(
                &self.tables@[t],
                probe_key(bucket_key(q, self.positions@[t]@), pj - 1),
            )
        }
    }

    /// The rows of the probed buckets of the first `t` tables, in table,
    /// probe and bucket order.
    pub open spec fn scan_rows(&self, q: Seq<u8>, t: nat) -> Seq<usize>
        decreases t,
    {
        if t == 0 {
            Seq::empty()
        } else {
            self.scan_rows(q, (t - 1) as nat) + self.probe_rows(
                q,
                t - 1,
                probe_count(self.params.key_size, self.params.probe_level) as nat,
            )
        }
    }

    /// The candidates of query `q`: the probed rows in table, probe and
    /// bucket order, each once, up to `checks` of them.
    pub open spec fn candidate_rows(&self, q: Seq<u8>) -> Seq<usize> {
        keep_first(self.scan_rows(q, self.tables@.len()), self.params.checks as nat)
    }

    /// `c` holds distinct hits of `q`, at most `checks` of them.
    pub open spec fn sound_candidates(&self, q: Seq<u8>, c: Seq<usize>) -> bool {
        &&& distinct_in(c, self.data@.len() as int)
        &&& c.len() <= self.params.checks
        &&& forall|i: int| 0 <= i < c.len() ==> self.is_hit(q, #[trigger] c[i] as int)
    }

    /// Builds the index over `data`, whose row `l` has global offset
    /// `base + l`. The build fails, publishing nothing, when the key size
    /// exceeds the key width or a row does not have `desc_len` bytes.
    pub fn build(data: Vec<Vec<u8>>, base: usize, desc_len: usize, params: LshParams) -> (r: Result<LshIndex, IndexError>)
        ensures
            r is Ok <==> build_ok(data@, base, desc_len, params),
            r matches Ok(ix) ==> ix.wf() && ix.data@ == data@ && ix.base == base && ix.desc_len == desc_len && ix.params == params,
    {
        if params.key_size > KEY_BITS {
            return Err(IndexError::IndexBuildFailure);
        }
        if desc_len < 1 || desc_len > usize::MAX / 8 || data.len() > usize::MAX - base {
            return Err(IndexError::IndexBuildFailure);
        }
        let mut l: usize = 0;
        while l < data.len()
            invariant
                l <= data@.len(),
                forall|i: int| 0 <= i < l ==> (#[trigger] data@[i])@.len() == desc_len,
            decreases data@.len() - l,
        {
            if data[l].len() != desc_len {
                return Err(IndexError::IndexBuildFailure);
            }
            l = l + 1;
        }
        let nbits = desc_len * 8;
        let mut positions: Vec<Vec<usize>> = Vec::new();
        let mut tables: Vec<LshTable> = Vec::new();
        let mut t: usize = 0;
        while t < params.table_count
            invariant
                build_ok(data@, base, desc_len, params),
                nbits == desc_len * 8,
                t <= params.table_count,
                positions@.len() == t,
                tables@.len() == t,
                forall|u: int| 0 <= u < t ==> (#[trigger] positions@[u])@ == positions_for(u, params.key_size, nbits as int),
                forall|u: int| 0 <= u < t
                    ==> table_ok(&#[trigger] tables@[u], data@, positions@[u]@, data@.len() as int, data@.len() as int),
            decreases params.table_count - t,
        {
            let pos = Self::table_positions(t, params.key_size, nbits);
            let tb = Self::fill_table(&data, &pos, desc_len);
            let ghost old_p = positions@;
            let ghost old_t = tables@;
            positions.push(pos);
            tables.push(tb);
            proof {
                assert forall|u: int| 0 <= u < t + 1 implies (#[trigger] positions@[u])@ == positions_for(u, params.key_size, nbits as int) by {
                    if u < t {
                        assert(positions@[u] == old_p[u]);
                    }
                }
                assert forall|u: int| 0 <= u < t + 1
                    implies table_ok(&#[trigger] tables@[u], data@, positions@[u]@, data@.len() as int, data@.len() as int) by {
                    if u < t {
                        assert(tables@[u] == old_t[u] && positions@[u] == old_p[u]);
                    }
                }
            }
            t = t + 1;
        }
        Ok(LshIndex { params, base, desc_len, data, positions, tables })
    }

    /// Bit positions sampled by table `t`.
    fn table_positions(t: usize, key_size: usize, nbits: usize) -> (pos: Vec<usize>)
        requires
            key_size <= KEY_BITS,
            nbits >= 1,
        ensures
            pos@ == positions_for(t as int, key_size, nbits as int),
            forall|j: int| 0 <= j < key_size ==> (#[trigger] pos@[j]) < nbits,
    {
        let mut pos: Vec<usize> = Vec::new();
        let tm = t % nbits;
        let mut j: usize = 0;
        while j < key_size
            invariant
                key_size <= KEY_BITS,
                nbits >= 1,
                tm == t % nbits,
                j <= key_size,
                pos@.len() == j,
                forall|i: int| 0 <= i < j ==> (#[trigger] pos@[i]) == sample_position(t as int, i, nbits as int) as usize,
                forall|i: int| 0 <= i < j ==> (#[trigger] pos@[i]) < nbits,
            decreases key_size - j,
        {
            proof {
                assert(13 * (tm as int) * (j as int) <= 13 * (usize::MAX as int) * 64) by (nonlinear_arith)
                    requires tm <= usize::MAX, j < 64;
            }
            let v128: u128 = (7 + 31 * (tm as u128) + 97 * (j as u128) + 13 * (tm as u128) * (j as u128)) % (nbits as u128);
            let v = v128 as usize;
            pos.push(v);
            j = j + 1;
        }
        proof {
            assert(pos@ =~= positions_for(t as int, key_size, nbits as int));
        }
        pos
    }

    /// One table over `data`: rows grouped by their key under `pos`, in
    /// order of first appearance.
    fn fill_table(data: &Vec<Vec<u8>>, pos: &Vec<usize>, desc_len: usize) -> (tb: LshTable)
        requires
            forall|j: int| 0 <= j < pos@.len() ==> (#[trigger] pos@[j]) < desc_len * 8,
            forall|l: int| 0 <= l < data@.len() ==> (#[trigger] data@[l])@.len() == desc_len,
        ensures
            table_ok(&tb, data@, pos@, data@.len() as int, data@.len() as int),
    {
        let mut tb = LshTable { keys: Vec::new(), rows: Vec::new() };
        let mut l: usize = 0;
        while l < data.len()
            invariant
                forall|j: int| 0 <= j < pos@.len() ==> (#[trigger] pos@[j]) < desc_len * 8,
                forall|i: int| 0 <= i < data@.len() ==> (#[trigger] data@[i])@.len() == desc_len,
                l <= data@.len(),
                table_ok(&tb, data@, pos@, l as int, l as int),
            decreases data@.len() - l,
        {
            let key = bucket_of(&data[l], pos);
            let ghost old_tb = tb;
            match find_bucket(&tb, key) {
                Some(i) => {
                    tb.rows[i].push(l);
                    proof {
                        assert forall|a: int, e: int| 0 <= a < tb.rows@.len() && 0 <= e < tb.rows@[a]@.len()
                            implies (#[trigger] tb.rows@[a]@[e]) < l + 1 && bucket_key(data@[tb.rows@[a]@[e] as int]@, pos@) == tb.keys@[a] by {
                            if a != i {
                                assert(tb.rows@[a] == old_tb.rows@[a]);
                            } else {
                                assert(tb.rows@[a]@ == old_tb.rows@[a]@.push(l));
                                if e < old_tb.rows@[a]@.len() {
                                    assert(tb.rows@[a]@[e] == old_tb.rows@[a]@[e]);
                                }
                            }
                        }
                        assert forall|x: int| 0 <= x < l + 1 implies #[trigger] filed(&tb, data@, pos@, x) by {
                            if x == l {
                                assert(tb.rows@[i as int]@ == old_tb.rows@[i as int]@.push(l));
                                assert(tb.rows@[i as int]@[old_tb.rows@[i as int]@.len() as int] == l);
                            } else {
                                assert(filed(&old_tb, data@, pos@, x));
                                let a = choose|a: int| 0 <= a < old_tb.keys@.len() && old_tb.keys@[a] == bucket_key(data@[x]@, pos@)
                                    && (#[trigger] old_tb.rows@[a])@.contains(x as usize);
                                let w = choose|w: int| 0 <= w < old_tb.rows@[a]@.len() && old_tb.rows@[a]@[w] == x as usize;
                                if a == i {
                                    assert(tb.rows@[a]@ == old_tb.rows@[a]@.push(l));
                                    assert(tb.rows@[a]@[w] == x as usize);
                                } else {
                                    assert(tb.rows@[a] == old_tb.rows@[a]);
                                }
                            }
                        }
                    }
                },
                None => {
                    let mut fresh: Vec<usize> = Vec::new();
                    fresh.push(l);
                    tb.keys.push(key);
                    tb.rows.push(fresh);
                    proof {
                        let n = old_tb.keys@.len() as int;
                        assert(tb.rows@[n]@ == seq![l]);
                        assert forall|a: int, e: int| 0 <= a < tb.rows@.len() && 0 <= e < tb.rows@[a]@.len()
                            implies (#[trigger] tb.rows@[a]@[e]) < l + 1 && bucket_key(data@[tb.rows@[a]@[e] as int]@, pos@) == tb.keys@[a] by {
                            if a < n {
                                assert(tb.rows@[a] == old_tb.rows@[a]);
                            }
                        }
                        assert forall|x: int| 0 <= x < l + 1 implies #[trigger] filed(&tb, data@, pos@, x) by {
                            if x == l {
                                assert(tb.rows@[n]@[0] == l);
                            } else {
                                assert(filed(&old_tb, data@, pos@, x));
                                let a = choose|a: int| 0 <= a < old_tb.keys@.len() && old_tb.keys@[a] == bucket_key(data@[x]@, pos@)
                                    && (#[trigger] old_tb.rows@[a])@.contains(x as usize);
                                assert(tb.rows@[a] == old_tb.rows@[a]);
                            }
                        }
                    }
                },
            }
            l = l + 1;
        }
        tb
    }

    /// Rows sharing a probed bucket with `q`, each once, in table, probe and
    /// bucket order, stopping at `checks` of them.
    pub fn candidates(&self, q: &Vec<u8>) -> (c: Vec<usize>)
        requires
            self.wf(),
            q@.len() == self.desc_len,
        ensures
            self.scanned(q@, c@),
            c@ == self.candidate_rows(q@),
    {
        let mut c: Vec<usize> = Vec::new();
        let mut seen: Vec<bool> = Vec::new();
        let mut l: usize = 0;
        while l < self.data.len()
            invariant
                l <= self.data@.len(),
                seen@.len() == l,
                forall|x: int| 0 <= x < l ==> !(#[trigger] seen@[x]),
            decreases self.data@.len() - l,
        {
            seen.push(false);
            l = l + 1;
        }
        let ks = self.params.key_size;
        let nprobes: usize = 1 + if self.params.probe_level < ks { self.params.probe_level } else { ks };
        let mut t: usize = 0;
        while t < self.tables.len()
            invariant
                self.wf(),
                q@.len() == self.desc_len,
                ks == self.params.key_size,
                nprobes == probe_count(ks, self.params.probe_level),
                t <= self.tables@.len(),
                seen@.len() == self.data@.len(),
                self.sound_candidates(q@, c@),
                forall|i: int| 0 <= i < c@.len() ==> seen@[#[trigger] c@[i] as int],
                forall|x: int| 0 <= x < seen@.len() && #[trigger] seen@[x] ==> c@.contains(x as usize),
                c@.len() < self.params.checks ==> forall|u: int, pj: int| 0 <= u < t && 0 <= pj < nprobes
                    ==> #[trigger] covered(c@, &self.tables@[u], probe_key(bucket_key(q@, self.positions@[u]@), pj)),
                c@ == keep_first(self.scan_rows(q@, t as nat), self.params.checks as nat),
            decreases self.tables@.len() - t,
        {
            let pos = &self.positions[t];
            let tb = &self.tables[t];
            let qk = bucket_of(q, pos);
            let mut pi: usize = 0;
            assert(self.scan_rows(q@, t as nat) + self.probe_rows(q@, t as int, 0) =~= self.scan_rows(q@, t as nat));
            while pi < nprobes
                invariant
                    self.wf(),
                    q@.len() == self.desc_len,
                    ks == self.params.key_size,
                    nprobes == probe_count(ks, self.params.probe_level),
                    t < self.tables@.len(),
                    pos == self.positions@[t as int],
                    tb == self.tables@[t as int],
                    qk == bucket_key(q@, pos@),
                    pi <= nprobes,
                    seen@.len() == self.data@.len(),
                    self.sound_candidates(q@, c@),
                    forall|i: int| 0 <= i < c@.len() ==> seen@[#[trigger] c@[i] as int],
                    forall|x: int| 0 <= x < seen@.len() && #[trigger] seen@[x] ==> c@.contains(x as usize),
                    c@.len() < self.params.checks ==> forall|u: int, pj: int| 0 <= pj < nprobes && (0 <= u < t || (u == t && pj < pi))
                        ==> #[trigger] covered(c@, &self.tables@[u], probe_key(bucket_key(q@, self.positions@[u]@), pj)),
                    c@ == keep_first(self.scan_rows(q@, t as nat) + self.probe_rows(q@, t as int, pi as nat), self.params.checks as nat),
                decreases nprobes - pi,
            {
                let b: u64 = if pi == 0 { qk } else { qk ^ (1u64 << (pi - 1) as u64) };
                assert(b == probe_key(qk, pi as int));
                assert(tb.keys@.len() == tb.rows@.len());
                proof {
                    assert(self.probe_rows(q@, t as int, (pi + 1) as nat) == self.probe_rows(q@, t as int, pi as nat) + bucket_rows(tb, b));
                }
                match find_bucket(tb, b) {
                    None => {
                        proof {
                            assert(bucket_rows(tb, b) == Seq::<usize>::empty());
                            assert(self.probe_rows(q@, t as int, (pi + 1) as nat) =~= self.probe_rows(q@, t as int, pi as nat));
                            assert(covered(c@, &self.tables@[t as int], probe_key(bucket_key(q@, self.positions@[t as int]@), pi as int)));
                        }
                    },
                    Some(bi) => {
                        let bucket = &tb.rows[bi];
                        proof {
                            assert(table_ok(&self.tables@[t as int], self.data@, self.positions@[t as int]@, self.data@.len() as int, self.data@.len() as int));
                            let ci = choose|i: int| 0 <= i < tb.keys@.len() && tb.keys@[i] == b;
                            assert(ci == bi);
                            assert(bucket_rows(tb, b) == bucket@);
                            assert(self.scan_rows(q@, t as nat) + self.probe_rows(q@, t as int, pi as nat) + bucket@.subrange(0, 0)
                                =~= self.scan_rows(q@, t as nat) + self.probe_rows(q@, t as int, pi as nat));
                        }
                        let mut e: usize = 0;
                        while e < bucket.len()
                            invariant
                                self.wf(),
                                t < self.tables@.len(),
                                pos == self.positions@[t as int],
                                tb == self.tables@[t as int],
                                qk == bucket_key(q@, pos@),
                                b == probe_key(qk, pi as int),
                                bi < tb.keys@.len(),
                                tb.keys@[bi as int] == b,
                                bucket == tb.rows@[bi as int],
                                ks == self.params.key_size,
                                nprobes == probe_count(ks, self.params.probe_level),
                                pi < nprobes,
                                e <= bucket@.len(),
                                seen@.len() == self.data@.len(),
                                self.sound_candidates(q@, c@),
                                forall|i: int| 0 <= i < c@.len() ==> seen@[#[trigger] c@[i] as int],
                                forall|x: int| 0 <= x < seen@.len() && #[trigger] seen@[x] ==> c@.contains(x as usize),
                                c@.len() < self.params.checks ==> forall|u: int, pj: int| 0 <= pj < nprobes && (0 <= u < t || (u == t && pj < pi))
                                    ==> #[trigger] covered(c@, &self.tables@[u], probe_key(bucket_key(q@, self.positions@[u]@), pj)),
                                c@.len() < self.params.checks ==> forall|f: int| 0 <= f < e ==> c@.contains(#[trigger] bucket@[f]),
                                c@ == keep_first(self.scan_rows(q@, t as nat) + self.probe_rows(q@, t as int, pi as nat) + bucket@.subrange(0, e as int),
                                    self.params.checks as nat),
                            decreases bucket@.len() - e,
                        {
                            let r = bucket[e];
                            let ghost pre = self.scan_rows(q@, t as nat) + self.probe_rows(q@, t as int, pi as nat) + bucket@.subrange(0, e as int);
                            let ghost pre1 = self.scan_rows(q@, t as nat) + self.probe_rows(q@, t as int, pi as nat) + bucket@.subrange(0, e + 1);
                            proof {
                                assert(pre1.drop_last() =~= pre);
                                assert(pre1.last() == r);
                                assert(c@.contains(r) <==> seen@[r as int]) by {
                                    if c@.contains(r) {
                                        let w = choose|w: int| 0 <= w < c@.len() && c@[w] == r;
                                    }
                                }
                            }
                            assert(table_ok(&self.tables@[t as int], self.data@, self.positions@[t as int]@, self.data@.len() as int, self.data@.len() as int));
                            assert(tb.rows@[bi as int]@[e as int] == r);
                            if !seen[r] && c.len() < self.params.checks {
                                proof {
                                    assert(bucket_key(self.data@[r as int]@, pos@) == b);
                                    assert(self.positions@[t as int]@ == positions_for(t as int, ks, self.desc_len * 8));
                                    assert(probed(qk, b, ks, self.params.probe_level));
                                    assert(self.is_hit(q@, r as int));
                                }
                                let ghost old_c = c@;
                                let ghost old_seen = seen@;
                                seen.set(r, true);
                                c.push(r);
                                proof {
                                    assert(c@[old_c.len() as int] == r);
                                    assert forall|i: int| 0 <= i < c@.len() implies self.is_hit(q@, #[trigger] c@[i] as int) by {
                                        if i < old_c.len() {
                                            assert(c@[i] == old_c[i]);
                                        }
                                    }
                                    assert forall|i: int| 0 <= i < c@.len() implies seen@[#[trigger] c@[i] as int] by {
                                        if i < old_c.len() {
                                            assert(c@[i] == old_c[i]);
                                        }
                                    }
                                    assert forall|x: int| 0 <= x < seen@.len() && #[trigger] seen@[x] implies c@.contains(x as usize) by {
                                        if x != r {
                                            assert(old_seen[x]);
                                            assert(old_c.contains(x as usize));
                                            let w = choose|w: int| 0 <= w < old_c.len() && old_c[w] == x as usize;
                                            assert(c@[w] == x as usize);
                                        }
                                    }
                                    assert forall|i: int, j: int| 0 <= i < c@.len() && 0 <= j < c@.len() && i != j implies c@[i] != c@[j] by {
                                        if i == old_c.len() {
                                            assert(old_seen[old_c[j] as int]);
                                        } else if j == old_c.len() {
                                            assert(old_seen[old_c[i] as int]);
                                        } else {
                                            assert(c@[i] == old_c[i] && c@[j] == old_c[j]);
                                        }
                                    }
                                    if c@.len() < self.params.checks {
                                        assert forall|u: int, pj: int| 0 <= pj < nprobes && (0 <= u < t || (u == t && pj < pi))
                                            implies #[trigger] covered(c@, &self.tables@[u], probe_key(bucket_key(q@, self.positions@[u]@), pj)) by {
                                            let bb = probe_key(bucket_key(q@, self.positions@[u]@), pj);
                                            assert(covered(old_c, &self.tables@[u], bb));
                                            assert forall|a: int, f: int| 0 <= a < self.tables@[u].keys@.len() && self.tables@[u].keys@[a] == bb
                                                && 0 <= f < self.tables@[u].rows@[a]@.len()
                                                implies c@.contains(#[trigger] self.tables@[u].rows@[a]@[f]) by {
                                                let x = self.tables@[u].rows@[a]@[f];
                                                assert(old_c.contains(x));
                                                let w = choose|w: int| 0 <= w < old_c.len() && old_c[w] == x;
                                                assert(c@[w] == x);
                                            }
                                        }
                                        assert forall|f: int| 0 <= f < e + 1 implies c@.contains(#[trigger] bucket@[f]) by {
                                            if f < e {
                                                assert(old_c.contains(bucket@[f]));
                                                let w = choose|w: int| 0 <= w < old_c.len() && old_c[w] == bucket@[f];
                                                assert(c@[w] == bucket@[f]);
                                            }
                                        }
                                    }
                                }
                            } else {
                                proof {
                                    if c@.len() < self.params.checks {
                                        assert(seen@[r as int]);
                                        assert forall|f: int| 0 <= f < e + 1 implies c@.contains(#[trigger] bucket@[f]) by {
                                        }
                                    }
                                }
                            }
                            e = e + 1;
                        }
                        proof {
                            assert(bucket@.subrange(0, e as int) =~= bucket@);
                            assert(self.scan_rows(q@, t as nat) + self.probe_rows(q@, t as int, (pi + 1) as nat)
                                =~= self.scan_rows(q@, t as nat) + self.probe_rows(q@, t as int, pi as nat) + bucket@);
                            if c@.len() < self.params.checks {
                                assert(table_ok(&self.tables@[t as int], self.data@, self.positions@[t as int]@, self.data@.len() as int, self.data@.len() as int));
                                assert forall|a: int, f: int| 0 <= a < tb.keys@.len() && tb.keys@[a] == b && 0 <= f < tb.rows@[a]@.len()
                                    implies c@.contains(#[trigger] tb.rows@[a]@[f]) by {
                                    assert(a == bi);
                                }
                                assert(covered(c@, &self.tables@[t as int], probe_key(bucket_key(q@, self.positions@[t as int]@), pi as int)));
                            }
                        }
                    },
                }
                pi = pi + 1;
            }
            assert(self.scan_rows(q@, (t + 1) as nat) == self.scan_rows(q@, t as nat) + self.probe_rows(q@, t as int, nprobes as nat));
            t = t + 1;
        }
        proof {
            if c@.len() < self.params.checks {
                assert forall|x: int| 0 <= x < self.data@.len() && #[trigger] self.is_hit(q@, x) implies c@.contains(x as usize) by {
                    let nb = self.desc_len * 8;
                    let u = choose|u: int| 0 <= u < self.params.table_count && #[trigger] probed(
                        bucket_key(q@, positions_for(u, ks, nb)),
                        bucket_key(self.data@[x]@, positions_for(u, ks, nb)),
                        ks,
                        self.params.probe_level,
                    );
                    assert(self.positions@[u]@ == positions_for(u, ks, nb));
                    let qu = bucket_key(q@, self.positions@[u]@);
                    let ku = bucket_key(self.data@[x]@, self.positions@[u]@);
                    let pj = choose|pj: int| 0 <= pj < probe_count(ks, self.params.probe_level) && ku == #[trigger] probe_key(qu, pj);
                    assert(covered(c@, &self.tables@[u], ku));
                    assert(table_ok(&self.tables@[u], self.data@, self.positions@[u]@, self.data@.len() as int, self.data@.len() as int));
                    assert(filed(&self.tables@[u], self.data@, self.positions@[u]@, x));
                    let a = choose|a: int| 0 <= a < self.tables@[u].keys@.len() && self.tables@[u].keys@[a] == ku
                        && (#[trigger] self.tables@[u].rows@[a])@.contains(x as usize);
                    let w = choose|w: int| 0 <= w < self.tables@[u].rows@[a]@.len() && self.tables@[u].rows@[a]@[w] == x as usize;
                    assert(c@.contains(self.tables@[u].rows@[a]@[w]));
                }
            }
        }
        c
    }

    /// The `k` nearest rows to `q` among the candidates that the query
    /// scans, as global offsets with their distances, nearest first; equal
    /// distances go to the smaller offset.
    pub fn query(&self, q: &Vec<u8>, k: usize) -> (r: Vec<Neighbor>)
        requires
            self.wf(),
            q@.len() == self.desc_len,
        ensures
            self.scanned(q@, self.candidate_rows(q@)),
            nearest_of(q@, self.data@, self.base as int, self.candidate_rows(q@), k as nat, r@),
            forall|i: int| 0 <= i < r@.len() ==> self.base <= (#[trigger] r@[i]).offset < self.base + self.data@.len()
                && self.is_hit(q@, r@[i].offset - self.base),
    {
        let c = self.candidates(q);
        let r = select_nearest(q, &self.data, self.base, &c, k);
        proof {
            assert forall|i: int| 0 <= i < r@.len() implies self.base <= (#[trigger] r@[i]).offset < self.base + self.data@.len()
                && self.is_hit(q@, r@[i].offset - self.base) by {
                assert(c@.contains((r@[i].offset - self.base) as usize));
                let m = choose|m: int| 0 <= m < c@.len() && c@[m] == (r@[i].offset - self.base) as usize;
                assert(c@[m] < self.data@.len());
                assert(self.is_hit(q@, c@[m] as int));
            }
        }
        r
    }
}

proof fn lemma_distinct_len(c: Seq<usize>, n: int)
    requires
        distinct_in(c, n),
        n >= 0,
    ensures
        c.len() <= n,
{
    let ci = c.map_values(|x: usize| x as int);
    assert(ci.no_duplicates()) by {
        assert forall|i: int, j: int| 0 <= i < ci.len() && 0 <= j < ci.len() && i != j implies ci[i] != ci[j] by {
            assert(c[i] != c[j]);
        }
    }
    ci.unique_seq_to_set();
    lemma_int_range(0, n);
    assert(ci.to_set().subset_of(set_int_range(0, n))) by {
        assert forall|x: int| ci.to_set().contains(x) implies set_int_range(0, n).contains(x) by {
            let i = choose|i: int| 0 <= i < ci.len() && ci[i] == x;
            assert(c[i] < n);
        }
    }
    lemma_len_subset(ci.to_set(), set_int_range(0, n));
}

/// A query equal to a row of the index, on an index whose `checks` exceeds
/// its number of rows, finds a row at distance zero first.
pub proof fn lemma_exact_row_first(ix: &LshIndex, q: Seq<u8>, l: int, k: nat, c: Seq<usize>, r: Seq<Neighbor>)
    requires
        ix.wf(),
        0 <= l < ix.data@.len(),
        q == ix.data@[l]@,
        k >= 1,
        ix.params.table_count >= 1,
        ix.params.checks > ix.data@.len(),
        ix.scanned(q, c),
        nearest_of(q, ix.data@, ix.base as int, c, k, r),
    ensures
        r.len() >= 1,
        r[0].distance == 0,
{
    let p0 = positions_for(0, ix.params.key_size, ix.desc_len * 8);
    assert(probe_key(bucket_key(q, p0), 0) == bucket_key(q, p0));
    assert(probed(bucket_key(q, p0), bucket_key(ix.data@[l]@, p0), ix.params.key_size, ix.params.probe_level));
    assert(ix.is_hit(q, l));
    lemma_distinct_len(c, ix.data@.len() as int);
    assert(c.contains(l as usize));
    let m = choose|m: int| 0 <= m < c.len() && c[m] == l as usize;
    let nl = neighbor_at(q, ix.data@, ix.base as int, c[m] as int);
    lemma_hamming_self(q);
    assert(nl.distance == 0);
    if r.contains(nl) {
        let w = choose|w: int| 0 <= w < r.len() && r[w] == nl;
        if w > 0 {
            assert(precedes(r[0], r[w]));
        }
    } else {
        assert(precedes(r[0], nl));
    }
}

proof fn lemma_nearest_step(q: Seq<u8>, data: Seq<Vec<u8>>, base: int, c: Seq<usize>, k: nat, r1: Seq<Neighbor>, r2: Seq<Neighbor>, i: int)
    requires
        0 <= base,
        distinct_in(c, data.len() as int),
        nearest_of(q, data, base, c, k, r1),
        nearest_of(q, data, base, c, k, r2),
        0 <= i < r1.len(),
        i < r2.len(),
        forall|h: int| 0 <= h < i ==> r1[h] == r2[h],
    ensures
        r1[i] == r2[i],
{
    let a = r1[i];
    let b = r2[i];
    let ma = choose|m: int| 0 <= m < c.len() && c[m] == (a.offset - base) as usize;
    let mb = choose|m: int| 0 <= m < c.len() && c[m] == (b.offset - base) as usize;
    assert(a == neighbor_at(q, data, base, c[ma] as int));
    assert(b == neighbor_at(q, data, base, c[mb] as int));
    if a != b {
        if precedes(a, b) {
            if r2.contains(a) {
                let w = choose|w: int| 0 <= w < r2.len() && r2[w] == a;
                if w < i {
                    assert(r1[w] == a);
                    assert(precedes(r1[w], r1[i]));
                } else if w > i {
                    assert(precedes(r2[i], r2[w]));
                }
            } else {
                assert(precedes(r2[i], neighbor_at(q, data, base, c[ma] as int)));
            }
        } else {
            assert(a.offset != b.offset);
            assert(precedes(b, a));
            if r1.contains(b) {
                let w = choose|w: int| 0 <= w < r1.len() && r1[w] == b;
                if w < i {
                    assert(r2[w] == b);
                    assert(precedes(r2[w], r2[i]));
                } else if w > i {
                    assert(precedes(r1[i], r1[w]));
                }
            } else {
                assert(precedes(r1[i], neighbor_at(q, data, base, c[mb] as int)));
            }
        }
    }
}

proof fn lemma_nearest_prefix(q: Seq<u8>, data: Seq<Vec<u8>>, base: int, c: Seq<usize>, k: nat, r1: Seq<Neighbor>, r2: Seq<Neighbor>, i: int)
    requires
        0 <= base,
        distinct_in(c, data.len() as int),
        nearest_of(q, data, base, c, k, r1),
        nearest_of(q, data, base, c, k, r2),
        0 <= i <= r1.len(),
        i <= r2.len(),
    ensures
        forall|h: int| 0 <= h < i ==> r1[h] == r2[h],
    decreases i,
{
    if i > 0 {
        lemma_nearest_prefix(q, data, base, c, k, r1, r2, i - 1);
        lemma_nearest_step(q, data, base, c, k, r1, r2, i - 1);
    }
}

proof fn lemma_nearest_longer(q: Seq<u8>, data: Seq<Vec<u8>>, base: int, c: Seq<usize>, k: nat, r1: Seq<Neighbor>, r2: Seq<Neighbor>)
    requires
        0 <= base,
        distinct_in(c, data.len() as int),
        nearest_of(q, data, base, c, k, r1),
        nearest_of(q, data, base, c, k, r2),
    ensures
        r1.len() >= r2.len(),
{
    if r1.len() < r2.len() {
        lemma_nearest_prefix(q, data, base, c, k, r1, r2, r1.len() as int);
        let x = r2[r1.len() as int];
        let m = choose|m: int| 0 <= m < c.len() && c[m] == (x.offset - base) as usize;
        assert(x == neighbor_at(q, data, base, c[m] as int));
        if r1.contains(x) {
            let w = choose|w: int| 0 <= w < r1.len() && r1[w] == x;
            assert(r2[w] == x);
            assert(precedes(r2[w], r2[r1.len() as int]));
        }
    }
}

/// The `k` nearest neighbours among distinct candidates are one list, so
/// two queries with one descriptor on one index give the same result.
pub proof fn lemma_nearest_unique(q: Seq<u8>, data: Seq<Vec<u8>>, base: int, c: Seq<usize>, k: nat, r1: Seq<Neighbor>, r2: Seq<Neighbor>)
    requires
        0 <= base,
        distinct_in(c, data.len() as int),
        nearest_of(q, data, base, c, k, r1),
        nearest_of(q, data, base, c, k, r2),
    ensures
        r1 == r2,
{
    lemma_nearest_longer(q, data, base, c, k, r1, r2);
    lemma_nearest_longer(q, data, base, c, k, r2, r1);
    lemma_nearest_prefix(q, data, base, c, k, r1, r2, r1.len() as int);
    assert(r1 =~= r2);
}

/// A published index answers a repeated query with the same neighbours.
pub proof fn lemma_query_repeatable(ix: &LshIndex, q: Seq<u8>, k: nat, r1: Seq<Neighbor>, r2: Seq<Neighbor>)
    requires
        ix.wf(),
        nearest_of(q, ix.data@, ix.base as int, ix.candidate_rows(q), k, r1),
        nearest_of(q, ix.data@, ix.base as int, ix.candidate_rows(q), k, r2),
        ix.scanned(q, ix.candidate_rows(q)),
    ensures
        r1 == r2,
{
    lemma_nearest_unique(q, ix.data@, ix.base as int, ix.candidate_rows(q), k, r1, r2);
}

} // verus!
