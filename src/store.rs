//! Append-only descriptor store: a flattened log of fixed-length descriptors
//! and, per image, a contiguous range of offsets into that log.
use vstd::prelude::*;

verus! {

/// Errors of the descriptor store.
#[derive(Debug, Clone, Copy, PartialEq, Eq, Structural)]
pub enum StoreError {
    /// The image identifier is already present.
    DuplicateImage,
    /// No image has the given identifier.
    NotFound,
    /// A descriptor's length differs from the store's descriptor length.
    DescriptorLength,
}

/// One ingested image: its identifier, where it came from, and the range
/// `start..end` of its descriptors in the log.
#[derive(Debug)]
pub struct ImageRecord {
    pub id: u64,
    /// The bytes of the path or content hash the image came from.
    pub source: Vec<u8>,
    pub start: usize,
    pub end: usize,
}

/// A contiguous run of the log, with the owning image of each descriptor.
#[derive(Debug)]
pub struct Batch {
    pub start: usize,
    pub descriptors: Vec<Vec<u8>>,
    pub owners: Vec<u64>,
}

/// The store: every descriptor has `desc_len` bytes; the records cover the
/// log in order, without gaps or overlaps, and their identifiers are unique.
#[derive(Debug)]
pub struct DescriptorStore {
    pub desc_len: usize,
    pub log: Vec<Vec<u8>>,
    pub records: Vec<ImageRecord>,
}

/// The byte strings held by a sequence of vectors.
pub open spec fn rows_view(rows: Seq<Vec<u8>>) -> Seq<Seq<u8>> {
    rows.map_values(|v: Vec<u8>| v@)
}

/// The descriptors of a sequence of batches, one batch after the other.
pub open spec fn batches_rows(bs: Seq<Batch>) -> Seq<Seq<u8>>
    decreases bs.len(),
{
    if bs.len() == 0 {
        Seq::empty()
    } else {
        batches_rows(bs.drop_last()) + rows_view(bs.last().descriptors@)
    }
}

/// The record that a store gains when an image is appended.
pub open spec fn new_record(old_len: usize, id: u64, source: Vec<u8>, count: nat) -> ImageRecord {
    ImageRecord { id, source, start: old_len, end: (old_len + count) as usize }
}

impl DescriptorStore {
    pub open spec fn log_view(&self) -> Seq<Seq<u8>> {
        rows_view(self.log@)
    }

    pub open spec fn records_end(&self) -> int {
        if self.records@.len() == 0 {
            0
        } else {
            self.records@.last().end as int
        }
    }

    pub open spec fn wf(&self) -> bool {
        &&& forall|i: int| 0 <= i < self.log@.len() ==> (#[trigger] self.log@[i])@.len() == self.desc_len
        &&& forall|i: int| 0 <= i < self.records@.len() ==> (#[trigger] self.records@[i]).start <= self.records@[i].end
        &&& self.records@.len() > 0 ==> self.records@[0].start == 0
        &&& forall|i: int| 0 < i < self.records@.len() ==> (#[trigger] self.records@[i]).start == self.records@[i - 1].end
        &&& self.records_end() == self.log@.len()
        &&& forall|i: int, j: int|
            0 <= i < self.records@.len() && 0 <= j < self.records@.len() && i != j
                ==> (#[trigger] self.records@[i]).id != (#[trigger] self.records@[j]).id
    }

    /// Some record carries identifier `id`.
    pub open spec fn has_image(&self, id: u64) -> bool {
        exists|i: int| 0 <= i < self.records@.len() && (#[trigger] self.records@[i]).id == id
    }

    /// Record `i` covers log offset `offset`.
    pub open spec fn owns(&self, i: int, offset: int) -> bool {
        &&& 0 <= i < self.records@.len()
        &&& self.records@[i].start <= offset < self.records@[i].end
    }

    /// Some record covers log offset `offset`.
    pub open spec fn offset_owned(&self, offset: int) -> bool {
        exists|i: int| #[trigger] self.owns(i, offset)
    }

    /// The descriptors of record `i`, in order.
    pub open spec fn record_rows(&self, i: int) -> Seq<Seq<u8>> {
        self.log_view().subrange(self.records@[i].start as int, self.records@[i].end as int)
    }

    /// `new` is `old` with image `id` appended, holding `rows`.
    pub open spec fn appended(old: &Self, new: &Self, id: u64, source: Vec<u8>, rows: Seq<Seq<u8>>) -> bool {
        &&& new.desc_len == old.desc_len
        &&& new.log_view() == old.log_view() + rows
        &&& new.records@ == old.records@.push(new_record(old.log@.len() as usize, id, source, rows.len()))
    }

    /// `bs` lists every descriptor of the store once, in order, in runs of
    /// at most `size`, each with the identifier of its owning image.
    pub open spec fn covers(&self, bs: Seq<Batch>, size: usize) -> bool {
        &&& batches_rows(bs) == self.log_view()
        &&& forall|k: int| 0 <= k < bs.len() ==> self.batch_ok(#[trigger] bs[k], size)
    }

    /// `b` holds between one and `size` consecutive descriptors of the log,
    /// each with its owner.
    pub open spec fn batch_ok(&self, b: Batch, size: usize) -> bool {
        &&& 0 < b.descriptors@.len() <= size
        &&& b.start + b.descriptors@.len() <= self.log@.len()
        &&& rows_view(b.descriptors@) == self.log_view().subrange(b.start as int, b.start + b.descriptors@.len())
        &&& b.owners@.len() == b.descriptors@.len()
        &&& forall|k: int| #![trigger b.owners@[k]] 0 <= k < b.owners@.len() ==> exists|i: int|
            self.owns(i, b.start + k) && (#[trigger] self.records@[i]).id == b.owners@[k]
    }

    /// An empty store whose descriptors have `desc_len` bytes.
    pub fn new(desc_len: usize) -> (s: Self)
        ensures
            s.wf(),
            s.desc_len == desc_len,
            s.log@.len() == 0,
            s.records@.len() == 0,
    {
        DescriptorStore { desc_len, log: Vec::new(), records: Vec::new() }
    }

    /// Number of stored images.
    pub fn image_count(&self) -> (r: usize)
        ensures
            r == self.records@.len(),
    {
        self.records.len()
    }

    /// Number of stored descriptors.
    pub fn descriptor_count(&self) -> (r: usize)
        ensures
            r == self.log@.len(),
    {
        self.log.len()
    }

    /// Whether an image with identifier `id` is stored.
    pub fn contains(&self, id: u64) -> (r: bool)
        ensures
            r == self.has_image(id),
    {
        let mut i: usize = 0;
        while i < self.records.len()
            invariant
                i <= self.records@.len(),
                forall|j: int| 0 <= j < i ==> (#[trigger] self.records@[j]).id != id,
            decreases self.records@.len() - i,
        {
            if self.records[i].id == id {
                return true;
            }
            i = i + 1;
        }
        false
    }

    /// Appends the descriptors of image `id` at the tail of the log, all or
    /// nothing: a known identifier or a descriptor of the wrong length
    /// leaves the store as it was.
    pub fn append(&mut self, id: u64, source: Vec<u8>, descriptors: Vec<Vec<u8>>) -> (r: Result<(), StoreError>)
        requires
            old(self).wf(),
            old(self).log@.len() + descriptors@.len() <= usize::MAX,
        ensures
            final(self).wf(),
            old(self).has_image(id) ==> r == Err::<(), StoreError>(StoreError::DuplicateImage),
            !old(self).has_image(id) && (exists|k: int| 0 <= k < descriptors@.len() && (#[trigger] descriptors@[k])@.len() != old(self).desc_len)
                ==> r == Err::<(), StoreError>(StoreError::DescriptorLength),
            r is Err ==> *final(self) == *old(self),
            r is Ok <==> (!old(self).has_image(id) && forall|k: int| 0 <= k < descriptors@.len() ==> (#[trigger] descriptors@[k])@.len() == old(self).desc_len),
            r is Ok ==> Self::appended(old(self), final(self), id, source, rows_view(descriptors@)),
    {
        if self.contains(id) {
            return Err(StoreError::DuplicateImage);
        }
        let mut k: usize = 0;
        while k < descriptors.len()
            invariant
                k <= descriptors@.len(),
                *self == *old(self),
                self.wf(),
                !old(self).has_image(id),
                forall|j: int| 0 <= j < k ==> (#[trigger] descriptors@[j])@.len() == self.desc_len,
            decreases descriptors@.len() - k,
        {
            if descriptors[k].len() != self.desc_len {
                return Err(StoreError::DescriptorLength);
            }
            k = k + 1;
        }
        let ghost old_self = *self;
        let ghost rows = rows_view(descriptors@);
        let start = self.log.len();
        let mut moved = descriptors;
        self.log.append(&mut moved);
        let end = self.log.len();
        self.records.push(ImageRecord { id, source, start, end });
        proof {
            assert(self.log_view() =~= old_self.log_view() + rows);
            assert forall|i: int, j: int|
                0 <= i < self.records@.len() && 0 <= j < self.records@.len() && i != j
                    implies (#[trigger] self.records@[i]).id != (#[trigger] self.records@[j]).id by {
                if i < old_self.records@.len() && j < old_self.records@.len() {
                } else if i < old_self.records@.len() {
                    assert(old_self.records@[i].id != id);
                } else {
                    assert(old_self.records@[j].id != id);
                }
            }
        }
        Ok(())
    }

    /// Position of the record of image `id`, if any.
    fn find(&self, id: u64) -> (r: Option<usize>)
        ensures
            r matches Some(i) ==> i < self.records@.len() && self.records@[i as int].id == id,
            r is None ==> !self.has_image(id),
    {
        let mut i: usize = 0;
        while i < self.records.len()
            invariant
                i <= self.records@.len(),
                forall|j: int| 0 <= j < i ==> (#[trigger] self.records@[j]).id != id,
            decreases self.records@.len() - i,
        {
            if self.records[i].id == id {
                return Some(i);
            }
            i = i + 1;
        }
        None
    }

    /// Copies the descriptors at offsets `start..end`.
    pub fn copy_rows(&self, start: usize, end: usize) -> (r: Vec<Vec<u8>>)
        requires
            start <= end <= self.log@.len(),
        ensures
            rows_view(r@) == self.log_view().subrange(start as int, end as int),
    {
        let mut r: Vec<Vec<u8>> = Vec::new();
        let mut k: usize = start;
        while k < end
            invariant
                start <= k <= end <= self.log@.len(),
                rows_view(r@) == self.log_view().subrange(start as int, k as int),
            decreases end - k,
        {
            let row = copy_bytes(&self.log[k]);
            proof {
                assert(rows_view(r@.push(row)) =~= rows_view(r@).push(row@));
                assert(self.log_view().subrange(start as int, k + 1) =~= self.log_view().subrange(
                    start as int,
                    k as int,
                ).push(self.log_view()[k as int]));
            }
            r.push(row);
            k = k + 1;
        }
        r
    }

    /// The descriptors of image `id`, in the order in which they were appended.
    pub fn get(&self, id: u64) -> (r: Result<Vec<Vec<u8>>, StoreError>)
        requires
            self.wf(),
        ensures
            r is Ok <==> self.has_image(id),
            r matches Err(e) ==> e == StoreError::NotFound,
            r matches Ok(d) ==> exists|i: int|
                0 <= i < self.records@.len() && (#[trigger] self.records@[i]).id == id && rows_view(d@) == self.record_rows(i),
    {
        match self.find(id) {
            None => Err(StoreError::NotFound),
            Some(i) => {
                proof {
                    assert(self.records@[i as int].end <= self.records_end()) by {
                        self.lemma_end_monotone(i as int, self.records@.len() - 1);
                    }
                }
                let d = self.copy_rows(self.records[i].start, self.records[i].end);
                Ok(d)
            },
        }
    }

    pub proof fn lemma_end_monotone(&self, i: int, j: int)
        requires
            self.wf(),
            0 <= i <= j < self.records@.len(),
        ensures
            self.records@[i].end <= self.records@[j].end,
        decreases j - i,
    {
        if i < j {
            self.lemma_end_monotone(i, j - 1);
            assert(self.records@[j].start == self.records@[j - 1].end);
        }
    }

    /// Position of the record covering log offset `offset`; `None` past the log.
    pub fn record_index_of(&self, offset: usize) -> (r: Option<usize>)
        requires
            self.wf(),
        ensures
            r is Some <==> offset < self.log@.len(),
            r matches Some(i) ==> self.owns(i as int, offset as int),
    {
        let mut i: usize = 0;
        while i < self.records.len()
            invariant
                self.wf(),
                i <= self.records@.len(),
                i > 0 ==> offset >= self.records@[i - 1].end,
                i > 0 ==> self.records@[i - 1].end <= self.log@.len(),
            decreases self.records@.len() - i,
        {
            proof {
                self.lemma_end_monotone(i as int, self.records@.len() - 1);
            }
            if offset < self.records[i].end {
                return Some(i);
            }
            i = i + 1;
        }
        None
    }

    /// Identifier of the image owning log offset `offset`; `None` past the log.
    pub fn owner_of(&self, offset: usize) -> (r: Option<u64>)
        requires
            self.wf(),
        ensures
            r is Some <==> offset < self.log@.len(),
            r matches Some(id) ==> exists|i: int| self.owns(i, offset as int) && (#[trigger] self.records@[i]).id == id,
    {
        match self.record_index_of(offset) {
            Some(i) => Some(self.records[i].id),
            None => None,
        }
    }

    /// At most one record covers an offset.
    pub proof fn lemma_owner_unique(&self, i: int, j: int, offset: int)
        requires
            self.wf(),
            self.owns(i, offset),
            self.owns(j, offset),
        ensures
            i == j,
    {
        if i < j {
            self.lemma_end_monotone(i, j - 1);
        } else if j < i {
            self.lemma_end_monotone(j, i - 1);
        }
    }

    /// Every offset of the log lies in some record.
    pub proof fn lemma_offset_owned(&self, offset: int)
        requires
            self.wf(),
            0 <= offset < self.log@.len(),
        ensures
            self.offset_owned(offset),
    {
        self.lemma_prefix_owned(self.records@.len() as int, offset);
    }

    proof fn lemma_prefix_owned(&self, n: int, offset: int)
        requires
            self.wf(),
            0 < n <= self.records@.len(),
            0 <= offset < self.records@[n - 1].end,
        ensures
            exists|i: int| #[trigger] self.owns(i, offset),
        decreases n,
    {
        if offset >= self.records@[n - 1].start {
            assert(self.owns(n - 1, offset));
        } else {
            self.lemma_prefix_owned(n - 1, offset);
        }
    }

    /// The batch of at most `size` descriptors that starts at offset `start`.
    pub fn batch_at(&self, start: usize, size: usize) -> (b: Batch)
        requires
            self.wf(),
            start < self.log@.len(),
            size >= 1,
        ensures
            b.start == start,
            b.descriptors@.len() == if start + size <= self.log@.len() { size as int } else { self.log@.len() - start },
            self.batch_ok(b, size),
    {
        let end = if size <= self.log.len() - start { start + size } else { self.log.len() };
        let descriptors = self.copy_rows(start, end);
        let mut owners: Vec<u64> = Vec::new();
        let mut k: usize = start;
        while k < end
            invariant
                self.wf(),
                start <= k <= end <= self.log@.len(),
                owners@.len() == k - start,
                forall|j: int| #![trigger owners@[j]] 0 <= j < owners@.len() ==> exists|i: int|
                    self.owns(i, start + j) && (#[trigger] self.records@[i]).id == owners@[j],
            decreases end - k,
        {
            let o = self.owner_of(k);
            match o {
                Some(id) => {
                    owners.push(id);
                },
                None => {},
            }
            k = k + 1;
        }
        proof {
            assert(rows_view(descriptors@).len() == end - start);
        }
        Batch { start, descriptors, owners }
    }

    /// Every descriptor of the store, once and in order, in batches of at
    /// most `size`.
    pub fn iterate_batches(&self, size: usize) -> (r: Vec<Batch>)
        requires
            self.wf(),
            size >= 1,
        ensures
            self.covers(r@, size),
    {
        let mut r: Vec<Batch> = Vec::new();
        let mut start: usize = 0;
        while start < self.log.len()
            invariant
                self.wf(),
                size >= 1,
                start <= self.log@.len(),
                batches_rows(r@) == self.log_view().subrange(0, start as int),
                forall|k: int| 0 <= k < r@.len() ==> self.batch_ok(#[trigger] r@[k], size),
            decreases self.log@.len() - start,
        {
            let b = self.batch_at(start, size);
            let n = b.descriptors.len();
            proof {
                let ghost old_r = r@;
                assert(old_r.push(b).drop_last() =~= old_r);
                assert(self.log_view().subrange(0, start + n) =~= self.log_view().subrange(0, start as int)
                    + self.log_view().subrange(start as int, start + n));
            }
            r.push(b);
            start = start + n;
        }
        proof {
            assert(self.log_view().subrange(0, start as int) =~= self.log_view());
        }
        r
    }
}

/// A copy of a byte string.
pub fn copy_bytes(v: &Vec<u8>) -> (r: Vec<u8>)
    ensures
        r@ == v@,
{
    let mut r: Vec<u8> = Vec::new();
    let mut k: usize = 0;
    while k < v.len()
        invariant
            k <= v@.len(),
            r@ == v@.subrange(0, k as int),
        decreases v@.len() - k,
    {
        r.push(v[k]);
        proof {
            assert(v@.subrange(0, k + 1) =~= v@.subrange(0, k as int).push(v@[k as int]));
        }
        k = k + 1;
    }
    proof {
        assert(v@.subrange(0, k as int) =~= v@);
    }
    r
}

/// What an append stores can be read back: after image `id` is appended
/// with `rows`, its record holds exactly `rows`, in order, and no other
/// record carries `id`.
pub proof fn lemma_round_trip(old: &DescriptorStore, new: &DescriptorStore, id: u64, source: Vec<u8>, rows: Seq<Seq<u8>>)
    requires
        old.wf(),
        new.wf(),
        DescriptorStore::appended(old, new, id, source, rows),
    ensures
        new.records@[old.records@.len() as int].id == id,
        new.record_rows(old.records@.len() as int) == rows,
        forall|i: int| 0 <= i < new.records@.len() && new.records@[i].id == id ==> i == old.records@.len(),
{
    let n = old.records@.len() as int;
    assert(new.records@[n] == new_record(old.log@.len() as usize, id, source, rows.len()));
    assert(old.log@.len() == old.log_view().len());
    assert(new.log@.len() == new.log_view().len());
    assert(new.records_end() == new.records@[n].end);
    assert(new.record_rows(n) =~= rows);
}

/// Batching does not change what is listed: two traversals in batches of
/// any sizes yield the same descriptors in the same order, those of the store.
pub proof fn lemma_batch_size_irrelevant(s: &DescriptorStore, a: Seq<Batch>, size_a: usize, b: Seq<Batch>, size_b: usize)
    requires
        s.covers(a, size_a),
        s.covers(b, size_b),
    ensures
        batches_rows(a) == batches_rows(b),
        batches_rows(a) == s.log_view(),
{
}

} // verus!
