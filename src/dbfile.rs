//! The database file: a header holding the descriptor length, then one
//! block per image, appended at the end and never rewritten. A block is the
//! image identifier, the length of its source and the source bytes, the
//! number of descriptors, then the descriptors. Integers are 8 bytes,
//! least significant first.
use vstd::prelude::*;
use crate::store::{rows_view, DescriptorStore};

verus! {

/// The file does not hold a well-formed database.
#[derive(Debug, Clone, Copy, PartialEq, Eq, Structural)]
pub enum LoadError {
    DatabaseCorrupt,
}

/// The 8 bytes of `x`, least significant first.
pub open spec fn le_u64(x: u64) -> Seq<u8> {
    seq![
        (x & 0xff) as u8,
        ((x >> 8u64) & 0xff) as u8,
        ((x >> 16u64) & 0xff) as u8,
        ((x >> 24u64) & 0xff) as u8,
        ((x >> 32u64) & 0xff) as u8,
        ((x >> 40u64) & 0xff) as u8,
        ((x >> 48u64) & 0xff) as u8,
        ((x >> 56u64) & 0xff) as u8,
    ]
}

/// The integer in the 8 bytes of `b` from `at`, least significant first.
pub open spec fn read_u64(b: Seq<u8>, at: int) -> u64 {
    (b[at] as u64) | ((b[at + 1] as u64) << 8u64) | ((b[at + 2] as u64) << 16u64) | ((b[at + 3] as u64) << 24u64) | ((b[at
        + 4] as u64) << 32u64) | ((b[at + 5] as u64) << 40u64) | ((b[at + 6] as u64) << 48u64) | ((b[at + 7] as u64) << 56u64)
}

/// The rows one after the other.
pub open spec fn concat_rows(rows: Seq<Seq<u8>>) -> Seq<u8>
    decreases rows.len(),
{
    if rows.len() == 0 {
        Seq::empty()
    } else {
        concat_rows(rows.drop_last()) + rows.last()
    }
}

/// The bytes of one image's block.
pub open spec fn block_bytes(id: u64, source: Seq<u8>, rows: Seq<Seq<u8>>) -> Seq<u8> {
    le_u64(id) + le_u64(source.len() as u64) + source + le_u64(rows.len() as u64) + concat_rows(rows)
}

/// The header of a database whose descriptors have `desc_len` bytes.
pub open spec fn header_bytes(desc_len: usize) -> Seq<u8> {
    le_u64(desc_len as u64)
}

/// Where the source of the block at `at` ends.
pub open spec fn source_end(b: Seq<u8>, at: int) -> int {
    at + 16 + read_u64(b, at + 8)
}

/// Where the block at `at` ends, with descriptors of `d` bytes.
pub open spec fn block_end(b: Seq<u8>, at: int, d: int) -> int {
    source_end(b, at) + 8 + read_u64(b, source_end(b, at)) * d
}

/// The block at `at` lies whole within `b`.
pub open spec fn block_whole(b: Seq<u8>, at: int, d: int) -> bool {
    &&& at + 16 <= b.len()
    &&& source_end(b, at) + 8 <= b.len()
    &&& block_end(b, at, d) <= b.len()
}

/// The block at `at`: identifier, source and descriptors.
pub open spec fn block_at(b: Seq<u8>, at: int, d: int) -> (u64, Seq<u8>, Seq<Seq<u8>>) {
    let s = source_end(b, at);
    (
        read_u64(b, at),
        b.subrange(at + 16, s),
        Seq::new(read_u64(b, s) as nat, |k: int| b.subrange(s + 8 + k * d, s + 8 + (k + 1) * d)),
    )
}

/// The blocks of `b` from `at` to its end, if it splits into whole blocks.
pub open spec fn parse_from(b: Seq<u8>, at: int, d: int) -> Option<Seq<(u64, Seq<u8>, Seq<Seq<u8>>)>>
    decreases b.len() - at,
{
    if at >= b.len() || d < 1 || at < 0 {
        if at == b.len() {
            Some(Seq::empty())
        } else {
            None
        }
    } else if !block_whole(b, at, d) {
        None
    } else {
        match parse_from(b, block_end(b, at, d), d) {
            Some(rest) => Some(seq![block_at(b, at, d)] + rest),
            None => None,
        }
    }
}

/// Identifiers pairwise different.
pub open spec fn distinct_block_ids(bl: Seq<(u64, Seq<u8>, Seq<Seq<u8>>)>) -> bool {
    forall|i: int, j: int| 0 <= i < bl.len() && 0 <= j < bl.len() && i != j ==> bl[i].0 != bl[j].0
}

/// `b` is a header for `desc_len` followed by whole blocks with distinct
/// identifiers.
pub open spec fn file_ok(b: Seq<u8>, desc_len: usize) -> bool {
    &&& b.len() >= 8
    &&& read_u64(b, 0) == desc_len as u64
    &&& parse_from(b, 8, desc_len as int) matches Some(bl) && distinct_block_ids(bl)
}

/// Appends the 8 bytes of `x`.
fn push_u64(v: &mut Vec<u8>, x: u64)
    ensures
        final(v)@ == old(v)@ + le_u64(x),
{
    v.push((x & 0xff) as u8);
    v.push(((x >> 8u64) & 0xff) as u8);
    v.push(((x >> 16u64) & 0xff) as u8);
    v.push(((x >> 24u64) & 0xff) as u8);
    v.push(((x >> 32u64) & 0xff) as u8);
    v.push(((x >> 40u64) & 0xff) as u8);
    v.push(((x >> 48u64) & 0xff) as u8);
    v.push(((x >> 56u64) & 0xff) as u8);
    assert(final(v)@ =~= old(v)@ + le_u64(x));
}

/// The header of a new database file.
pub fn encode_header(desc_len: usize) -> (b: Vec<u8>)
    ensures
        b@ == header_bytes(desc_len),
{
    let mut b: Vec<u8> = Vec::new();
    push_u64(&mut b, desc_len as u64);
    assert(b@ =~= header_bytes(desc_len));
    b
}

/// The block that stores image `id` with `source` and `rows`.
pub fn encode_block(id: u64, source: &Vec<u8>, rows: &Vec<Vec<u8>>) -> (b: Vec<u8>)
    ensures
        b@ == block_bytes(id, source@, rows_view(rows@)),
{
    let mut b: Vec<u8> = Vec::new();
    push_u64(&mut b, id);
    push_u64(&mut b, source.len() as u64);
    let mut i: usize = 0;
    let ghost pre = b@;
    while i < source.len()
        invariant
            i <= source@.len(),
            b@ == pre + source@.subrange(0, i as int),
        decreases source@.len() - i,
    {
        b.push(source[i]);
        assert(source@.subrange(0, i + 1) =~= source@.subrange(0, i as int).push(source@[i as int]));
        i = i + 1;
    }
    assert(source@.subrange(0, i as int) =~= source@);
    push_u64(&mut b, rows.len() as u64);
    let ghost pre2 = b@;
    let mut k: usize = 0;
    while k < rows.len()
        invariant
            k <= rows@.len(),
            b@ == pre2 + concat_rows(rows_view(rows@).subrange(0, k as int)),
        decreases rows@.len() - k,
    {
        let ghost before = b@;
        let row = &rows[k];
        let mut e: usize = 0;
        while e < row.len()
            invariant
                e <= row@.len(),
                b@ == before + row@.subrange(0, e as int),
            decreases row@.len() - e,
        {
            b.push(row[e]);
            assert(row@.subrange(0, e + 1) =~= row@.subrange(0, e as int).push(row@[e as int]));
            e = e + 1;
        }
        proof {
            assert(row@.subrange(0, e as int) =~= row@);
            let s = rows_view(rows@).subrange(0, k + 1);
            assert(s.drop_last() =~= rows_view(rows@).subrange(0, k as int));
            assert(s.last() == row@);
            assert(b@ =~= pre2 + concat_rows(s));
        }
        k = k + 1;
    }
    proof {
        assert(rows_view(rows@).subrange(0, k as int) =~= rows_view(rows@));
        assert(b@ =~= block_bytes(id, source@, rows_view(rows@)));
    }
    b
}

/// `done` followed by the blocks of `rest`, if any.
pub open spec fn prepend(done: Seq<(u64, Seq<u8>, Seq<Seq<u8>>)>, rest: Option<Seq<(u64, Seq<u8>, Seq<Seq<u8>>)>>) -> Option<
    Seq<(u64, Seq<u8>, Seq<Seq<u8>>)>,
> {
    match rest {
        Some(r) => Some(done + r),
        None => None,
    }
}

/// The records of `s` are the blocks `bl`, in order.
pub open spec fn holds_blocks(s: &DescriptorStore, bl: Seq<(u64, Seq<u8>, Seq<Seq<u8>>)>) -> bool {
    &&& s.records@.len() == bl.len()
    &&& forall|i: int| 0 <= i < bl.len() ==> (#[trigger] s.records@[i]).id == bl[i].0 && s.records@[i].source@ == bl[i].1
        && s.record_rows(i) == bl[i].2
}

/// The integer in the 8 bytes of `b` from `at`.
fn read_u64_at(b: &Vec<u8>, at: usize) -> (r: u64)
    requires
        at + 8 <= b@.len(),
    ensures
        r == read_u64(b@, at as int),
{
    let n = b.len();
    assert(at + 8 <= n);
    (b[at] as u64) | ((b[at + 1] as u64) << 8u64) | ((b[at + 2] as u64) << 16u64) | ((b[at + 3] as u64) << 24u64) | ((b[at
        + 4] as u64) << 32u64) | ((b[at + 5] as u64) << 40u64) | ((b[at + 6] as u64) << 48u64) | ((b[at + 7] as u64) << 56u64)
}

/// Copies `b[from..to]`.
fn copy_range(b: &Vec<u8>, from: usize, to: usize) -> (r: Vec<u8>)
    requires
        from <= to <= b@.len(),
    ensures
        r@ == b@.subrange(from as int, to as int),
{
    let mut r: Vec<u8> = Vec::new();
    let mut i: usize = from;
    while i < to
        invariant
            from <= i <= to <= b@.len(),
            r@ == b@.subrange(from as int, i as int),
        decreases to - i,
    {
        r.push(b[i]);
        assert(b@.subrange(from as int, i + 1) =~= b@.subrange(from as int, i as int).push(b@[i as int]));
        i = i + 1;
    }
    r
}

/// Reads a database file whose descriptors have `desc_len` bytes. It fails
/// exactly when the bytes are not a matching header followed by whole
/// blocks with distinct identifiers.
pub fn decode_store(bytes: &Vec<u8>, desc_len: usize) -> (r: Result<DescriptorStore, LoadError>)
    requires
        1 <= desc_len <= usize::MAX / 8,
    ensures
        r is Ok <==> file_ok(bytes@, desc_len),
        r matches Err(e) ==> e == LoadError::DatabaseCorrupt,
        r matches Ok(s) ==> s.wf() && s.desc_len == desc_len
            && (parse_from(bytes@, 8, desc_len as int) matches Some(bl) && holds_blocks(&s, bl)),
{
    let len = bytes.len();
    if len < 8 || read_u64_at(bytes, 0) != desc_len as u64 {
        return Err(LoadError::DatabaseCorrupt);
    }
    let ghost b = bytes@;
    let ghost d = desc_len as int;
    let mut s = DescriptorStore::new(desc_len);
    let ghost mut done: Seq<(u64, Seq<u8>, Seq<Seq<u8>>)> = Seq::empty();
    let mut at: usize = 8;
    while at < len
        invariant
            b == bytes@,
            d == desc_len as int,
            len == b.len(),
            1 <= desc_len <= usize::MAX / 8,
            8 <= at <= len,
            read_u64(b, 0) == desc_len as u64,
            s.wf(),
            s.desc_len == desc_len,
            s.log@.len() <= at,
            parse_from(b, 8, d) == prepend(done, parse_from(b, at as int, d)),
            holds_blocks(&s, done),
        decreases len - at,
    {
        if len - at < 16 {
            return Err(LoadError::DatabaseCorrupt);
        }
        let id = read_u64_at(bytes, at);
        let sl = read_u64_at(bytes, at + 8);
        let rem = len - (at + 16);
        if sl > rem as u64 {
            return Err(LoadError::DatabaseCorrupt);
        }
        let se = at + 16 + sl as usize;
        assert(se == source_end(b, at as int));
        if len - se < 8 {
            return Err(LoadError::DatabaseCorrupt);
        }
        let cnt = read_u64_at(bytes, se);
        let rem2 = len - (se + 8);
        if cnt > (rem2 / desc_len) as u64 {
            proof {
                assert((cnt as int) * d > rem2) by (nonlinear_arith)
                    requires cnt as int > rem2 as int / d, d >= 1, rem2 >= 0;
                assert(!block_whole(b, at as int, d));
            }
            return Err(LoadError::DatabaseCorrupt);
        }
        proof {
            assert((cnt as int) * d <= rem2) by (nonlinear_arith)
                requires cnt as int <= rem2 as int / d, d >= 1, rem2 >= 0;
        }
        let source = copy_range(bytes, at + 16, se);
        let mut rows: Vec<Vec<u8>> = Vec::new();
        let ghost base = se + 8;
        let mut p: usize = se + 8;
        let mut k: u64 = 0;
        while k < cnt
            invariant
                b == bytes@,
                len == b.len(),
                d == desc_len as int,
                1 <= desc_len,
                base + (cnt as int) * d <= len,
                k <= cnt,
                p == base + (k as int) * d,
                rows@.len() == k,
                forall|x: int| 0 <= x < k ==> (#[trigger] rows@[x])@ == b.subrange(base + x * d, base + (x + 1) * d),
            decreases cnt - k,
        {
            proof {
                assert((k as int) * d + d <= (cnt as int) * d) by (nonlinear_arith)
                    requires k < cnt, d >= 1;
                assert((k as int + 1) * d == (k as int) * d + d) by (nonlinear_arith);
            }
            let row = copy_range(bytes, p, p + desc_len);
            rows.push(row);
            p = p + desc_len;
            k = k + 1;
        }
        let ghost blk = block_at(b, at as int, d);
        proof {
            assert(block_whole(b, at as int, d));
            assert(block_end(b, at as int, d) == p);
            assert(rows_view(rows@) =~= blk.2);
            assert(source@ == blk.1);
            assert(parse_from(b, at as int, d) == prepend(seq![blk], parse_from(b, p as int, d)));
            assert forall|x: int| 0 <= x < rows@.len() implies (#[trigger] rows@[x])@.len() == s.desc_len by {
                assert((x + 1) * d == x * d + d && (x + 1) * d <= (cnt as int) * d && 0 <= x * d) by (nonlinear_arith)
                    requires 0 <= x < cnt, d >= 1;
            }
            assert((cnt as int) <= (cnt as int) * d) by (nonlinear_arith)
                requires d >= 1, cnt >= 0;
        }
        let ghost old_s = s;
        match s.append(id, source, rows) {
            Err(_) => {
                proof {
                    assert(old_s.has_image(id));
                    let i = choose|i: int| 0 <= i < old_s.records@.len() && (#[trigger] old_s.records@[i]).id == id;
                    match parse_from(b, p as int, d) {
                        Some(rest) => {
                            let full = done + (seq![blk] + rest);
                            assert(full[i] == done[i]);
                            assert(full[done.len() as int] == blk);
                            assert(!distinct_block_ids(full));
                        },
                        None => {},
                    }
                }
                return Err(LoadError::DatabaseCorrupt);
            },
            Ok(()) => {},
        }
        proof {
            let nd = done.push(blk);
            match parse_from(b, p as int, d) {
                Some(rest) => {
                    assert(done + (seq![blk] + rest) =~= nd + rest);
                },
                None => {},
            }
            assert forall|i: int| 0 <= i < nd.len() implies (#[trigger] s.records@[i]).id == nd[i].0 && s.records@[i].source@ == nd[i].1
                && s.record_rows(i) == nd[i].2 by {
                if i < done.len() {
                    assert(s.records@[i] == old_s.records@[i]);
                    if old_s.records@.len() > 0 {
                        old_s.lemma_end_monotone(i, old_s.records@.len() - 1);
                    }
                    assert(old_s.log_view().len() == old_s.log@.len());
                    assert(s.record_rows(i) =~= old_s.record_rows(i));
                } else {
                    assert(s.log_view().len() == s.log@.len());
                    assert(s.record_rows(i) =~= rows_view(rows@));
                }
            }
            done = nd;
        }
        at = p;
    }
    proof {
        assert(done + Seq::<(u64, Seq<u8>, Seq<Seq<u8>>)>::empty() =~= done);
        assert forall|i: int, j: int| 0 <= i < done.len() && 0 <= j < done.len() && i != j implies done[i].0 != done[j].0 by {
            assert(s.records@[i].id != s.records@[j].id);
        }
    }
    Ok(s)
}

/// Reading back the 8 bytes written for `x` gives `x`.
pub proof fn lemma_u64_round_trip(x: u64, pre: Seq<u8>, post: Seq<u8>)
    ensures
        read_u64(pre + le_u64(x) + post, pre.len() as int) == x,
{
    let b = pre + le_u64(x) + post;
    let at = pre.len() as int;
    assert(b[at] == (x & 0xff) as u8);
    assert(b[at + 1] == ((x >> 8u64) & 0xff) as u8);
    assert(b[at + 2] == ((x >> 16u64) & 0xff) as u8);
    assert(b[at + 3] == ((x >> 24u64) & 0xff) as u8);
    assert(b[at + 4] == ((x >> 32u64) & 0xff) as u8);
    assert(b[at + 5] == ((x >> 40u64) & 0xff) as u8);
    assert(b[at + 6] == ((x >> 48u64) & 0xff) as u8);
    assert(b[at + 7] == ((x >> 56u64) & 0xff) as u8);
    assert((((x & 0xff) as u8) as u64) | (((((x >> 8u64) & 0xff) as u8) as u64) << 8u64) | (((((x >> 16u64) & 0xff) as u8) as u64)
        << 16u64) | (((((x >> 24u64) & 0xff) as u8) as u64) << 24u64) | (((((x >> 32u64) & 0xff) as u8) as u64) << 32u64) | (((((x
        >> 40u64) & 0xff) as u8) as u64) << 40u64) | (((((x >> 48u64) & 0xff) as u8) as u64) << 48u64) | (((((x >> 56u64) & 0xff)
        as u8) as u64) << 56u64) == x) by (bit_vector);
}

proof fn lemma_concat_rows(rows: Seq<Seq<u8>>, d: int)
    requires
        d >= 1,
        forall|k: int| 0 <= k < rows.len() ==> (#[trigger] rows[k]).len() == d,
    ensures
        concat_rows(rows).len() == rows.len() * d,
        forall|k: int| 0 <= k < rows.len() ==> concat_rows(rows).subrange(k * d, (k + 1) * d) == #[trigger] rows[k],
    decreases rows.len(),
{
    if rows.len() > 0 {
        let init = rows.drop_last();
        assert forall|k: int| 0 <= k < init.len() implies (#[trigger] init[k]).len() == d by {
            assert(init[k] == rows[k]);
        }
        lemma_concat_rows(init, d);
        let n = rows.len() as int;
        assert((n - 1) * d + d == n * d) by (nonlinear_arith);
        assert forall|k: int| 0 <= k < rows.len() implies concat_rows(rows).subrange(k * d, (k + 1) * d) == #[trigger] rows[k] by {
            let all = concat_rows(rows);
            if k < n - 1 {
                assert((k + 1) * d <= (n - 1) * d && 0 <= k * d && k * d + d == (k + 1) * d) by (nonlinear_arith)
                    requires 0 <= k < n - 1, d >= 1;
                assert(init[k] == rows[k]);
                assert(all.subrange(k * d, (k + 1) * d) =~= concat_rows(init).subrange(k * d, (k + 1) * d));
            } else {
                assert(all.subrange(k * d, (k + 1) * d) =~= rows.last());
            }
        }
    }
}

/// A block reads back as the image it was written for: the block of image
/// `id`, placed anywhere in a file, parses to `id`, `source` and `rows`,
/// and ends where its bytes end.
#[verifier::spinoff_prover]
#[verifier::rlimit(100)]
pub proof fn lemma_block_round_trip(pre: Seq<u8>, id: u64, source: Seq<u8>, rows: Seq<Seq<u8>>, post: Seq<u8>, d: int)
    requires
        d >= 1,
        source.len() <= u64::MAX,
        rows.len() <= u64::MAX,
        forall|k: int| 0 <= k < rows.len() ==> (#[trigger] rows[k]).len() == d,
    ensures
        block_whole(pre + block_bytes(id, source, rows) + post, pre.len() as int, d),
        block_end(pre + block_bytes(id, source, rows) + post, pre.len() as int, d) == pre.len() + block_bytes(id, source, rows).len(),
        block_at(pre + block_bytes(id, source, rows) + post, pre.len() as int, d) == (id, source, rows),
{
    let at = pre.len() as int;
    let cr = concat_rows(rows);
    let b = pre + block_bytes(id, source, rows) + post;
    lemma_concat_rows(rows, d);
    let p1 = pre;
    let q1 = le_u64(source.len() as u64) + source + le_u64(rows.len() as u64) + cr + post;
    assert(b =~= p1 + le_u64(id) + q1);
    lemma_u64_round_trip(id, p1, q1);
    let p2 = pre + le_u64(id);
    let q2 = source + le_u64(rows.len() as u64) + cr + post;
    assert(b =~= p2 + le_u64(source.len() as u64) + q2);
    lemma_u64_round_trip(source.len() as u64, p2, q2);
    assert(source_end(b, at) == at + 16 + source.len());
    let p3 = pre + le_u64(id) + le_u64(source.len() as u64) + source;
    let q3 = cr + post;
    assert(b =~= p3 + le_u64(rows.len() as u64) + q3);
    lemma_u64_round_trip(rows.len() as u64, p3, q3);
    let se = at + 16 + source.len();
    assert(read_u64(b, se) == rows.len());
    assert(block_end(b, at, d) == se + 8 + cr.len());
    assert(b.len() == at + block_bytes(id, source, rows).len() + post.len());
    assert(block_bytes(id, source, rows).len() == 24 + source.len() + cr.len());
    assert(b.subrange(at + 16, se) =~= source);
    let base = se + 8;
    assert(p3.len() + 8 == base);
    assert forall|i: int| 0 <= i < cr.len() implies b[base + i] == #[trigger] cr[i] by {
        assert((p3 + le_u64(rows.len() as u64) + q3)[base + i] == q3[i]);
    }
    let got = block_at(b, at, d).2;
    assert forall|k: int| 0 <= k < rows.len() implies #[trigger] got[k] == rows[k] by {
        assert((k + 1) * d <= rows.len() * d && 0 <= k * d && (k + 1) * d == k * d + d) by (nonlinear_arith)
            requires 0 <= k < rows.len(), d >= 1;
        let lo = k * d;
        assert forall|i: int| 0 <= i < d implies #[trigger] b.subrange(base + lo, base + lo + d)[i] == cr.subrange(lo, lo + d)[i] by {
            assert(b[base + lo + i] == cr[lo + i]);
        }
        assert(b.subrange(base + lo, base + lo + d) =~= cr.subrange(lo, lo + d));
    }
    assert(got =~= rows);
}

/// The blocks of `bl`, one after the other.
pub open spec fn blocks_bytes(bl: Seq<(u64, Seq<u8>, Seq<Seq<u8>>)>) -> Seq<u8>
    decreases bl.len(),
{
    if bl.len() == 0 {
        Seq::empty()
    } else {
        block_bytes(bl[0].0, bl[0].1, bl[0].2) + blocks_bytes(bl.drop_first())
    }
}

/// Every block has descriptors of `d` bytes and lengths that fit 8 bytes.
pub open spec fn blocks_fit(bl: Seq<(u64, Seq<u8>, Seq<Seq<u8>>)>, d: int) -> bool {
    forall|i: int| 0 <= i < bl.len() ==> {
        &&& (#[trigger] bl[i]).1.len() <= u64::MAX
        &&& bl[i].2.len() <= u64::MAX
        &&& forall|k: int| 0 <= k < bl[i].2.len() ==> (#[trigger] bl[i].2[k]).len() == d
    }
}

proof fn lemma_blocks_parse(pre: Seq<u8>, bl: Seq<(u64, Seq<u8>, Seq<Seq<u8>>)>, d: int)
    requires
        d >= 1,
        blocks_fit(bl, d),
    ensures
        parse_from(pre + blocks_bytes(bl), pre.len() as int, d) == Some(bl),
    decreases bl.len(),
{
    let b = pre + blocks_bytes(bl);
    if bl.len() == 0 {
        assert(b =~= pre);
        assert(Seq::<(u64, Seq<u8>, Seq<Seq<u8>>)>::empty() =~= bl);
    } else {
        let x = bl[0];
        let tail = bl.drop_first();
        assert forall|i: int| 0 <= i < tail.len() implies {
            &&& (#[trigger] tail[i]).1.len() <= u64::MAX
            &&& tail[i].2.len() <= u64::MAX
            &&& forall|k: int| 0 <= k < tail[i].2.len() ==> (#[trigger] tail[i].2[k]).len() == d
        } by {
            assert(tail[i] == bl[i + 1]);
        }
        let blk = block_bytes(x.0, x.1, x.2);
        let rest = blocks_bytes(tail);
        assert(b =~= pre + blk + rest);
        assert(x.1.len() <= u64::MAX && x.2.len() <= u64::MAX);
        lemma_block_round_trip(pre, x.0, x.1, x.2, rest, d);
        lemma_blocks_parse(pre + blk, tail, d);
        assert(pre + blk + rest =~= (pre + blk) + rest);
        assert(seq![x] + tail =~= bl);
    }
}

/// A file written as a header followed by the blocks of images with
/// distinct identifiers reads back as exactly those images, in order.
#[verifier::spinoff_prover]
#[verifier::rlimit(100)]
pub proof fn lemma_file_round_trip(desc_len: usize, bl: Seq<(u64, Seq<u8>, Seq<Seq<u8>>)>)
    requires
        1 <= desc_len,
        blocks_fit(bl, desc_len as int),
        distinct_block_ids(bl),
    ensures
        file_ok(header_bytes(desc_len) + blocks_bytes(bl), desc_len),
        parse_from(header_bytes(desc_len) + blocks_bytes(bl), 8, desc_len as int) == Some(bl),
{
    let h = header_bytes(desc_len);
    let bb = blocks_bytes(bl);
    let e = Seq::<u8>::empty();
    lemma_u64_round_trip(desc_len as u64, e, bb);
    assert(e + le_u64(desc_len as u64) =~= h);
    assert(h.len() == 8);
    assert(read_u64(h + bb, 0) == desc_len as u64);
    lemma_blocks_parse(h, bl, desc_len as int);
}

} // verus!
