use crate::checksum::{checksum, crc32c_of};
use crate::frame::{
    ends_match, frame, frames, is_torn_frame, lemma_frames_push, lemma_frames_split,
    lemma_scan_frames, lengths_fit, push_frame, scan, scan_image, Scan, HEADER_LEN,
};
use crate::le_bytes::{le_u64, lemma_le_u64_round_trip, read_u64_le, u64_le};
use vstd::prelude::*;
use vstd::slice::{slice_subrange, slice_to_vec};

verus! {

/// Why a store could not be opened or read.
#[derive(Debug, Clone, Copy, PartialEq, Eq, Structural)]
pub enum StoreError {
    /// A complete record whose checksum does not match, or segments that do not fit together.
    CorruptSegment,
    /// A stored checksum does not match the record read back.
    ChecksumMismatch,
    /// No record at the requested position.
    NotFound,
    /// The store cannot take another record: a position or a byte offset would overflow.
    Full,
}

/// The records of all segments, in order.
pub open spec fn joined(segs: Seq<Seq<Seq<u8>>>) -> Seq<Seq<u8>>
    decreases segs.len(),
{
    if segs.len() == 0 {
        Seq::empty()
    } else {
        joined(segs.drop_last()) + segs.last()
    }
}

pub proof fn lemma_joined_split(segs: Seq<Seq<Seq<u8>>>, k: int)
    requires
        0 <= k <= segs.len(),
    ensures
        joined(segs) == joined(segs.take(k)) + joined(segs.skip(k)),
    decreases segs.len(),
{
    if k == segs.len() {
        assert(segs.take(k) =~= segs);
        assert(segs.skip(k) =~= Seq::<Seq<Seq<u8>>>::empty());
        assert(joined(segs) + Seq::<Seq<u8>>::empty() =~= joined(segs));
    } else {
        let dl = segs.drop_last();
        lemma_joined_split(dl, k);
        assert(dl.take(k) =~= segs.take(k));
        assert(segs.skip(k).drop_last() =~= dl.skip(k));
        assert(joined(segs) =~= joined(segs.take(k)) + joined(segs.skip(k)));
    }
}

/// The record at position `i` of `joined(segs)` is slot `i - joined(segs.take(s)).len()` of
/// segment `s`, the segment where that difference first falls inside.
proof fn lemma_joined_locate(segs: Seq<Seq<Seq<u8>>>, s: int)
    requires
        0 <= s < segs.len(),
    ensures
        joined(segs.take(s + 1)) == joined(segs.take(s)) + segs[s],
        joined(segs) == joined(segs.take(s)) + segs[s] + joined(segs.skip(s + 1)),
{
    assert(segs.take(s + 1).drop_last() =~= segs.take(s));
    lemma_joined_split(segs, s + 1);
}

/// Where the frame of record `slot` lies in the image of a segment, and what it holds.
proof fn lemma_slot_frame(b: Seq<u8>, rs: Seq<Seq<u8>>, ends: Seq<usize>, slot: int)
    requires
        b == frames(rs),
        ends_match(ends, rs),
        lengths_fit(rs),
        0 <= slot < rs.len(),
    ensures
        ({
            let start: int = if slot == 0 { 0 } else { ends[slot - 1] as int };
            let end: int = ends[slot] as int;
            &&& start + HEADER_LEN <= end <= b.len()
            &&& le_u64(b.subrange(start + 8, start + 16)) == crc32c_of(rs[slot]) as u64
            &&& b.subrange(start + HEADER_LEN, end) == rs[slot]
        }),
{
    lemma_frames_split(rs, slot);
    if slot > 0 {
        assert(rs.take(slot) == rs.take(slot - 1 + 1));
    } else {
        assert(rs.take(0) =~= Seq::<Seq<u8>>::empty());
    }
    let start: int = if slot == 0 { 0 } else { ends[slot - 1] as int };
    let end: int = ends[slot] as int;
    assert(start == frames(rs.take(slot)).len());
    assert(b.subrange(start, end) =~= frame(rs[slot]));
    lemma_le_u64_round_trip(crc32c_of(rs[slot]) as u64);
    assert(b.subrange(start + 8, start + 16) =~= u64_le(crc32c_of(rs[slot]) as u64));
    assert(b.subrange(start + HEADER_LEN, end) =~= rs[slot]);
}

/// What a store holds: where its positions start, how large a segment grows before the
/// next one is started, and the records of each segment.
pub ghost struct StoreView {
    pub first_index: u64,
    pub segment_size: usize,
    pub segments: Seq<Seq<Seq<u8>>>,
}

impl StoreView {
    /// All records, in position order.
    pub open spec fn records(self) -> Seq<Seq<u8>> {
        joined(self.segments)
    }

    /// The active segment after the rotation that an append makes first.
    pub open spec fn rotates(self) -> bool {
        frames(self.segments.last()).len() >= self.segment_size && self.segments.last().len() > 0
    }

    /// An append of `n` payload bytes fits: the next position is representable, and a frame of
    /// that size fits after any active segment that has not yet reached the segment size.
    pub open spec fn has_room(self, n: nat) -> bool {
        &&& self.first_index + self.records().len() < u64::MAX
        &&& self.records().len() < usize::MAX
        &&& self.segment_size + HEADER_LEN + n <= usize::MAX
    }

    /// The store after appending `p`.
    pub open spec fn appended(self, p: Seq<u8>) -> StoreView {
        let segs = if self.rotates() {
            self.segments.push(seq![p])
        } else {
            self.segments.update(self.segments.len() - 1, self.segments.last().push(p))
        };
        StoreView { segments: segs, ..self }
    }
}

/// The segments that a scan of each image recovers.
pub open spec fn recovered(images: Seq<Seq<u8>>) -> Seq<Seq<Seq<u8>>> {
    if images.len() == 0 {
        seq![Seq::empty()]
    } else {
        images.map_values(|b: Seq<u8>| scan(b).records)
    }
}

/// Images open without error: no record fails its checksum, and only the last image may
/// end in a torn write.
pub open spec fn recoverable(images: Seq<Seq<u8>>) -> bool {
    &&& forall|s: int| 0 <= s < images.len() ==> !(#[trigger] scan(images[s])).corrupt
    &&& forall|s: int| 0 <= s < images.len() - 1 ==> (#[trigger] scan(images[s])).valid == images[s].len()
}

/// Physical storage of records: append-only segment images of checksummed frames, with an
/// index of where each frame ends. Positions count from `first_index`.
pub struct SegmentStore {
    first_index: u64,
    segment_size: usize,
    images: Vec<Vec<u8>>,
    ends: Vec<Vec<usize>>,
    segments: Ghost<Seq<Seq<Seq<u8>>>>,
}

impl View for SegmentStore {
    type V = StoreView;

    closed spec fn view(&self) -> StoreView {
        StoreView {
            first_index: self.first_index,
            segment_size: self.segment_size,
            segments: self.segments@,
        }
    }
}

impl SegmentStore {
    /// The internal invariant: each image holds the frames of its segment's records and the
    /// end index matches them.
    pub closed spec fn wf(&self) -> bool {
        &&& self.images@.len() == self.segments@.len()
        &&& self.ends@.len() == self.segments@.len()
        &&& self.segments@.len() >= 1
        &&& forall|s: int|
            0 <= s < self.segments@.len() ==> {
                &&& (#[trigger] self.images@[s])@ == frames(self.segments@[s])
                &&& ends_match(self.ends@[s]@, self.segments@[s])
                &&& lengths_fit(self.segments@[s])
            }
        &&& self.first_index + joined(self.segments@).len() <= u64::MAX
        &&& joined(self.segments@).len() <= usize::MAX
    }

    /// An empty store whose first record will take position `first_index`.
    pub fn new(first_index: u64, segment_size: usize) -> (r: SegmentStore)
        ensures
            r.wf(),
            r@ == (StoreView { first_index, segment_size, segments: seq![Seq::empty()] }),
    {
        let mut images: Vec<Vec<u8>> = Vec::new();
        images.push(Vec::new());
        let mut ends: Vec<Vec<usize>> = Vec::new();
        ends.push(Vec::new());
        let ghost segs = seq![Seq::<Seq<u8>>::empty()];
        let r = SegmentStore {
            first_index,
            segment_size,
            images,
            ends,
            segments: Ghost(segs),
        };
        proof {
            assert(segs.drop_last() =~= Seq::<Seq<Seq<u8>>>::empty());
            assert(joined(segs.drop_last()) =~= Seq::<Seq<u8>>::empty());
            assert(joined(segs) =~= Seq::<Seq<u8>>::empty());
            assert(r.images@[0]@ =~= frames(segs[0]));
        }
        r
    }

    /// Positions of all records are representable.
    pub proof fn lemma_bounds(&self)
        requires
            self.wf(),
        ensures
            self@.first_index + self@.records().len() <= u64::MAX,
            self@.segments.len() >= 1,
    {
    }

    /// Bytes after which the active segment is closed.
    pub fn segment_size(&self) -> (r: usize)
        ensures
            r == self@.segment_size,
    {
        self.segment_size
    }

    /// Position of the first record.
    pub fn first_index(&self) -> (r: u64)
        requires
            self.wf(),
        ensures
            r == self@.first_index,
    {
        self.first_index
    }

    /// Number of records held.
    pub fn len(&self) -> (r: usize)
        requires
            self.wf(),
        ensures
            r == self@.records().len(),
            self@.first_index + r <= u64::MAX,
    {
        let mut n: usize = 0;
        let mut s: usize = 0;
        while s < self.ends.len()
            invariant
                self.wf(),
                s <= self.ends@.len(),
                n == joined(self@.segments.take(s as int)).len(),
            decreases self.ends@.len() - s,
        {
            proof {
                lemma_joined_locate(self.segments@, s as int);
                lemma_joined_split(self.segments@, s as int + 1);
                assert(self.images@[s as int]@ == frames(self.segments@[s as int]));
            }
            n = n + self.ends[s].len();
            s = s + 1;
        }
        assert(self.segments@.take(s as int) =~= self.segments@);
        n
    }

    /// The segment and slot of record `i`, counted from the first record.
    fn locate(&self, i: usize) -> (r: (usize, usize))
        requires
            self.wf(),
            i < self@.records().len(),
        ensures
            r.0 < self.segments@.len(),
            r.1 < self.segments@[r.0 as int].len(),
            i == joined(self.segments@.take(r.0 as int)).len() + r.1,
    {
        let mut acc: usize = 0;
        let mut s: usize = 0;
        let nseg = self.ends.len();
        proof {
            lemma_joined_split(self.segments@, 0);
            assert(self.segments@.take(0) =~= Seq::<Seq<Seq<u8>>>::empty());
        }
        loop
            invariant
                self.wf(),
                i < self@.records().len(),
                s < self.ends@.len(),
                nseg == self.ends@.len(),
                acc == joined(self.segments@.take(s as int)).len(),
                acc <= i,
            decreases self.ends@.len() - s,
        {
            proof {
                lemma_joined_locate(self.segments@, s as int);
                assert(self.images@[s as int]@ == frames(self.segments@[s as int]));
            }
            let n = self.ends[s].len();
            if i - acc < n {
                return (s, i - acc);
            }
            proof {
                if s + 1 == self.ends@.len() {
                    assert(self.segments@.skip(s + 1) =~= Seq::<Seq<Seq<u8>>>::empty());
                    assert(joined(self.segments@.skip(s + 1)) =~= Seq::<Seq<u8>>::empty());
                    assert(joined(self.segments@).len() == acc + n);
                    assert(false);
                }
            }
            acc = acc + n;
            s = s + 1;
        }
    }

    /// The record at position `index`.
    pub fn read(&self, index: u64) -> (r: Result<Vec<u8>, StoreError>)
        requires
            self.wf(),
        ensures
            self@.first_index <= index < self@.first_index + self@.records().len() ==> (r
                matches Ok(v) && v@ == self@.records()[index - self@.first_index]),
            !(self@.first_index <= index < self@.first_index + self@.records().len()) ==> r
                == Err::<Vec<u8>, StoreError>(StoreError::NotFound),
    {
        let n = self.len();
        if index < self.first_index || index - self.first_index >= n as u64 {
            return Err(StoreError::NotFound);
        }
        let i = (index - self.first_index) as usize;
        let (s, slot) = self.locate(i);
        let image = self.images[s].as_slice();
        let ends = &self.ends[s];
        proof {
            assert(self.images@[s as int]@ == frames(self.segments@[s as int]));
            lemma_joined_locate(self.segments@, s as int);
            lemma_slot_frame(image@, self.segments@[s as int], ends@, slot as int);
        }
        let start: usize = if slot == 0 { 0 } else { ends[slot - 1] };
        let end = ends[slot];
        let stored = read_u64_le(image, start + 8);
        let payload = slice_subrange(image, start + HEADER_LEN, end);
        if stored != checksum(payload) as u64 {
            return Err(StoreError::ChecksumMismatch);
        }
        Ok(slice_to_vec(payload))
    }

    /// Appends `p` as the next record, starting a new segment first when the active one has
    /// reached the segment size. Fails, and changes nothing, when positions or byte offsets
    /// would no longer be representable.
    pub fn append(&mut self, p: &[u8]) -> (r: Result<u64, StoreError>)
        requires
            old(self).wf(),
        ensures
            final(self).wf(),
            old(self)@.has_room(p@.len()) ==> r == Ok::<u64, StoreError>(
                (old(self)@.first_index + old(self)@.records().len()) as u64,
            ) && final(self)@ == old(self)@.appended(p@),
            !old(self)@.has_room(p@.len()) ==> r == Err::<u64, StoreError>(StoreError::Full)
                && final(self)@ == old(self)@,
            final(self)@.records() == if old(self)@.has_room(p@.len()) {
                old(self)@.records().push(p@)
            } else {
                old(self)@.records()
            },
            final(self)@.first_index == old(self)@.first_index,
    {
        let n = self.len();
        let last = self.images.len() - 1;
        proof {
            assert(self.images@[last as int]@ == frames(self.segments@[last as int]));
        }
        let rotate = self.images[last].len() >= self.segment_size && self.ends[last].len() > 0;
        if self.first_index >= u64::MAX - n as u64 || n == usize::MAX || self.segment_size
            > usize::MAX - HEADER_LEN || p.len() > usize::MAX - HEADER_LEN - self.segment_size {
            return Err(StoreError::Full);
        }
        let ghost old_segs = self.segments@;
        if rotate {
            self.images.push(Vec::new());
            self.ends.push(Vec::new());
            self.segments = Ghost(self.segments@.push(Seq::empty()));
            proof {
                assert(self.segments@.drop_last() == old_segs);
                assert(joined(self.segments@) =~= joined(old_segs));
                assert(self.images@[self.images@.len() - 1]@ =~= frames(Seq::<Seq<u8>>::empty()));
            }
        }
        let ghost mid_segs = self.segments@;
        let k = self.images.len() - 1;
        proof {
            assert(self.images@[k as int]@ == frames(mid_segs[k as int]));
        }
        let mut image = self.images.pop().unwrap();
        let mut ends = self.ends.pop().unwrap();
        push_frame(&mut image, p);
        ends.push(image.len());
        self.images.push(image);
        self.ends.push(ends);
        let ghost seg = mid_segs[k as int];
        self.segments = Ghost(mid_segs.update(k as int, seg.push(p@)));
        proof {
            lemma_frames_push(seg, p@);
            let ns = seg.push(p@);
            assert(ns.take(ns.len() as int) =~= ns);
            assert forall|j: int| 0 <= j < ns.len() - 1 implies #[trigger] ns.take(j + 1)
                == seg.take(j + 1) by {
                assert(ns.take(j + 1) =~= seg.take(j + 1));
            }
            assert(self.segments@.drop_last() =~= mid_segs.drop_last());
            assert(joined(self.segments@) =~= joined(mid_segs).push(p@));
            assert forall|s: int| 0 <= s < self.segments@.len() implies {
                &&& (#[trigger] self.images@[s])@ == frames(self.segments@[s])
                &&& ends_match(self.ends@[s]@, self.segments@[s])
                &&& lengths_fit(self.segments@[s])
            } by {
                if s < k {
                    assert(self.images@[s] == old(self).images@[s]);
                }
            }
            if rotate {
                assert(self.segments@ =~= old_segs.push(seq![p@]));
            } else {
                assert(self.segments@ =~= old_segs.update(old_segs.len() - 1, old_segs.last().push(p@)));
            }
        }
        Ok(self.first_index + n as u64)
    }

    /// Discards every record from position `index` on; nothing when `index` is past the end,
    /// everything when it precedes the first position.
    pub fn truncate_from(&mut self, index: u64)
        requires
            old(self).wf(),
        ensures
            final(self).wf(),
            final(self)@.first_index == old(self)@.first_index,
            final(self)@.segment_size == old(self)@.segment_size,
            final(self)@.records() == old(self)@.records().take(kept_count(old(self)@, index) as int),
    {
        let n = self.len();
        let keep: usize = if index <= self.first_index {
            0
        } else if index - self.first_index >= n as u64 {
            n
        } else {
            (index - self.first_index) as usize
        };
        if keep == n {
            assert(self@.records().take(n as int) =~= self@.records());
            return;
        }
        let nseg = self.images.len();
        let (s, rem) = self.locate(keep);
        let ghost old_segs = self.segments@;
        let ghost rs = old_segs[s as int];
        proof {
            assert(self.images@[s as int]@ == frames(rs));
            lemma_joined_locate(old_segs, s as int);
            lemma_joined_split(old_segs, s as int);
        }
        let start: usize = if rem == 0 { 0 } else { self.ends[s][rem - 1] };
        self.images.truncate(s + 1);
        self.ends.truncate(s + 1);
        let mut image = self.images.pop().unwrap();
        let mut ends = self.ends.pop().unwrap();
        image.truncate(start);
        ends.truncate(rem);
        self.images.push(image);
        self.ends.push(ends);
        self.segments = Ghost(old_segs.take(s as int).push(rs.take(rem as int)));
        proof {
            lemma_frames_split(rs, rem as int);
            if rem > 0 {
                assert(rs.take(rem as int) == rs.take(rem - 1 + 1));
            } else {
                assert(rs.take(0) =~= Seq::<Seq<u8>>::empty());
            }
            let nr = rs.take(rem as int);
            assert forall|j: int| 0 <= j < nr.len() implies #[trigger] nr.take(j + 1) == rs.take(j + 1) by {
                assert(nr.take(j + 1) =~= rs.take(j + 1));
            }
            assert forall|q: int| 0 <= q < self.segments@.len() implies {
                &&& (#[trigger] self.images@[q])@ == frames(self.segments@[q])
                &&& ends_match(self.ends@[q]@, self.segments@[q])
                &&& lengths_fit(self.segments@[q])
            } by {
                if q < s {
                    assert(self.images@[q] == old(self).images@[q]);
                    assert(self.ends@[q] == old(self).ends@[q]);
                } else {
                    assert(self.images@[q]@ =~= frames(nr));
                }
            }
            assert(self.segments@.drop_last() =~= old_segs.take(s as int));
            assert(joined(self.segments@) =~= joined(old_segs).take(keep as int));
        }
    }

    /// Every record from position `from` on (from the first when `from` precedes it), each
    /// with its position, in order.
    pub fn iterate(&self, from: u64) -> (r: Vec<(u64, Vec<u8>)>)
        requires
            self.wf(),
        ensures
            r@.len() == self@.records().len() - kept_count(self@, from),
            forall|i: int|
                0 <= i < r@.len() ==> (#[trigger] r@[i]).0 == self@.first_index + kept_count(
                    self@,
                    from,
                ) + i && r@[i].1@ == self@.records()[kept_count(self@, from) + i],
    {
        let n = self.len();
        let start: usize = if from <= self.first_index {
            0
        } else if from - self.first_index >= n as u64 {
            n
        } else {
            (from - self.first_index) as usize
        };
        let mut out: Vec<(u64, Vec<u8>)> = Vec::new();
        let mut i: usize = start;
        while i < n
            invariant
                self.wf(),
                n == self@.records().len(),
                self@.first_index + n <= u64::MAX,
                start == kept_count(self@, from),
                start <= i <= n,
                out@.len() == i - start,
                forall|j: int|
                    0 <= j < out@.len() ==> (#[trigger] out@[j]).0 == self@.first_index + start + j
                        && out@[j].1@ == self@.records()[start + j],
            decreases n - i,
        {
            let index = self.first_index + i as u64;
            match self.read(index) {
                Ok(b) => out.push((index, b)),
                Err(_) => {
                    assert(false);
                },
            }
            i = i + 1;
        }
        out
    }

    /// A copy of each segment image, oldest first.
    pub fn images(&self) -> (r: Vec<Vec<u8>>)
        requires
            self.wf(),
        ensures
            r@.len() == self@.segments.len(),
            r@.len() >= 1,
            forall|s: int| 0 <= s < r@.len() ==> (#[trigger] r@[s])@ == frames(self@.segments[s]),
    {
        let mut r: Vec<Vec<u8>> = Vec::new();
        let mut s: usize = 0;
        while s < self.images.len()
            invariant
                self.wf(),
                s <= self.images@.len(),
                r@.len() == s,
                forall|q: int| 0 <= q < s ==> (#[trigger] r@[q])@ == frames(self@.segments[q]),
            decreases self.images@.len() - s,
        {
            proof {
                assert(self.images@[s as int]@ == frames(self.segments@[s as int]));
            }
            r.push(slice_to_vec(self.images[s].as_slice()));
            s = s + 1;
        }
        r
    }

    /// Opens a store from its segment images, oldest first. Each image is scanned once to
    /// rebuild the index; a torn write at the end of the last image is dropped.
    pub fn open(first_index: u64, images: &Vec<Vec<u8>>, segment_size: usize) -> (r: Result<
        SegmentStore,
        StoreError,
    >)
        ensures
            opens(first_index, images_of(images@)) ==> (r matches Ok(st) && st.wf() && st@ == (
            StoreView { first_index, segment_size, segments: recovered(images_of(images@)) })),
            !opens(first_index, images_of(images@)) ==> r == Err::<SegmentStore, StoreError>(
                StoreError::CorruptSegment,
            ),
    {
        let ghost imgs = images_of(images@);
        if images.len() == 0 {
            let st = SegmentStore::new(first_index, segment_size);
            proof {
                assert(imgs.len() == 0);
                assert(recovered(imgs) == seq![Seq::<Seq<u8>>::empty()]);
                assert(recovered(imgs).drop_last() =~= Seq::<Seq<Seq<u8>>>::empty());
                assert(joined(recovered(imgs).drop_last()) =~= Seq::<Seq<u8>>::empty());
                assert(joined(recovered(imgs)) =~= Seq::<Seq<u8>>::empty());
            }
            return Ok(st);
        }
        let mut new_images: Vec<Vec<u8>> = Vec::new();
        let mut new_ends: Vec<Vec<usize>> = Vec::new();
        let ghost mut segs: Seq<Seq<Seq<u8>>> = Seq::empty();
        let mut total: usize = 0;
        let mut s: usize = 0;
        let n = images.len();
        proof {
            assert(segs =~= recovered(imgs).take(0));
        }
        while s < n
            invariant
                n == images@.len(),
                n > 0,
                imgs == images_of(images@),
                s <= n,
                segs == recovered(imgs).take(s as int),
                new_images@.len() == s,
                new_ends@.len() == s,
                total == joined(segs).len(),
                first_index + total <= u64::MAX,
                forall|q: int| 0 <= q < s ==> !(#[trigger] scan(imgs[q])).corrupt,
                forall|q: int| 0 <= q < s && q < n - 1 ==> (#[trigger] scan(imgs[q])).valid == imgs[q].len(),
                forall|q: int|
                    0 <= q < s ==> {
                        &&& (#[trigger] new_images@[q])@ == frames(segs[q])
                        &&& ends_match(new_ends@[q]@, segs[q])
                        &&& lengths_fit(segs[q])
                    },
            decreases n - s,
        {
            let img = images[s].as_slice();
            assert(img@ == imgs[s as int]);
            let scanned = scan_image(img);
            let ghost rs = scan(imgs[s as int]).records;
            proof {
                assert(recovered(imgs)[s as int] == rs);
                assert(recovered(imgs).take(s + 1).drop_last() =~= segs);
                assert(recovered(imgs).take(s + 1).last() == rs);
                lemma_joined_split(recovered(imgs), s + 1);
            }
            if scanned.corrupt || (s + 1 < n && scanned.valid != img.len()) {
                return Err(StoreError::CorruptSegment);
            }
            let count = scanned.ends.len();
            if count > usize::MAX - total || first_index > u64::MAX - (total + count) as u64 {
                return Err(StoreError::CorruptSegment);
            }
            total = total + count;
            new_images.push(slice_to_vec(slice_subrange(img, 0, scanned.valid)));
            new_ends.push(scanned.ends);
            proof {
                segs = segs.push(rs);
                assert(segs =~= recovered(imgs).take(s + 1));
                assert(img@.subrange(0, scanned.valid as int) =~= img@.take(scanned.valid as int));
            }
            s = s + 1;
        }
        proof {
            assert(segs =~= recovered(imgs));
        }
        let st = SegmentStore {
            first_index,
            segment_size,
            images: new_images,
            ends: new_ends,
            segments: Ghost(segs),
        };
        assert(st.wf());
        Ok(st)
    }
} // impl

/// Reopening a store from its images gives back every record, segment by segment, also
/// when the last image ends in a torn write: a proper prefix of a frame that an interrupted
/// append left behind. The torn bytes yield no record.
pub proof fn lemma_reopen(st: &SegmentStore, images: Seq<Seq<u8>>, torn: Seq<u8>, p: Seq<u8>)
    requires
        st.wf(),
        images.len() == st@.segments.len(),
        forall|s: int|
            0 <= s < images.len() - 1 ==> #[trigger] images[s] == frames(st@.segments[s]),
        images.last() == frames(st@.segments.last()) + torn,
        p.len() <= u64::MAX,
        torn.len() == 0 || is_torn_frame(torn, p),
    ensures
        opens(st@.first_index, images),
        recovered(images) == st@.segments,
        joined(recovered(images)) == st@.records(),
{
    let segs = st.segments@;
    let last = images.len() - 1;
    assert forall|s: int| 0 <= s < images.len() implies #[trigger] scan(images[s]) == (Scan {
        records: segs[s],
        valid: frames(segs[s]).len(),
        corrupt: false,
    }) by {
        assert(st.images@[s]@ == frames(segs[s]));
        if s < last {
            assert(images[s] =~= frames(segs[s]) + Seq::<u8>::empty());
            lemma_scan_frames(segs[s], Seq::<u8>::empty(), p);
        } else {
            lemma_scan_frames(segs[s], torn, p);
        }
    }
    assert(recovered(images) =~= segs);
}

/// The contents of each image.
pub open spec fn images_of(v: Seq<Vec<u8>>) -> Seq<Seq<u8>> {
    v.map_values(|x: Vec<u8>| x@)
}

/// Images open as a store whose positions start at `first_index`: they are recoverable and
/// their records leave every position representable.
pub open spec fn opens(first_index: u64, images: Seq<Seq<u8>>) -> bool {
    &&& recoverable(images)
    &&& first_index + joined(recovered(images)).len() <= u64::MAX
    &&& joined(recovered(images)).len() <= usize::MAX
}

/// How many records a truncation at position `index` keeps.
pub open spec fn kept_count(v: StoreView, index: u64) -> nat {
    if index <= v.first_index {
        0
    } else if index - v.first_index >= v.records().len() {
        v.records().len()
    } else {
        (index - v.first_index) as nat
    }
}

} // verus!
