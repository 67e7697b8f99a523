use crate::frame::{frames, is_torn_frame};
use crate::le_bytes::{le_u64, lemma_le_u64_round_trip, push_u64_le, read_u64_le, u64_le};
use crate::segment::{joined, lemma_reopen, opens, recovered, SegmentStore, StoreError, StoreView};
use vstd::prelude::*;
use vstd::slice::{slice_subrange, slice_to_vec};

verus! {

/// A logical clock stamp that orders operations coming from different replicas.
#[derive(Debug, Clone, Copy, PartialEq, Eq, Structural)]
pub struct ClockTag {
    pub replica_id: u64,
    pub clock_id: u64,
    pub clock_value: u64,
}

/// One accepted mutating operation, as serialized by the caller, with its optional clock tag.
#[derive(Debug, Clone)]
pub struct OperationRecord {
    pub operation: Vec<u8>,
    pub clock_tag: Option<ClockTag>,
}

impl View for OperationRecord {
    type V = (Seq<u8>, Option<ClockTag>);

    open spec fn view(&self) -> (Seq<u8>, Option<ClockTag>) {
        (self.operation@, self.clock_tag)
    }
}

/// Why an operation log could not be opened, appended to or replayed.
#[derive(Debug, Clone, Copy, PartialEq, Eq, Structural)]
pub enum OpLogError {
    Store(StoreError),
    /// The record at this index does not hold an operation.
    Malformed(u64),
}

/// How an operation log is kept.
#[derive(Debug, Clone, Copy, PartialEq, Eq, Structural)]
pub struct LogOptions {
    /// Bytes after which the active segment is closed and a new one started.
    pub segment_size: usize,
    /// Whether each append is to be flushed to durable media before it is confirmed. The log
    /// holds its segments as byte images and does no I/O itself: the code that writes the
    /// images out reads this flag and syncs after every append when it is set.
    pub sync_each_append: bool,
}

/// Length of an encoded clock tag.
pub const TAG_LEN: usize = 24;

/// A record's bytes: a marker for the clock tag, the tag if there is one, then the operation.
pub open spec fn encode_op(op: Seq<u8>, tag: Option<ClockTag>) -> Seq<u8> {
    match tag {
        None => seq![0u8] + op,
        Some(t) => seq![1u8] + u64_le(t.replica_id) + u64_le(t.clock_id) + u64_le(t.clock_value)
            + op,
    }
}

/// The operation and clock tag that a record's bytes hold, if they hold one.
pub open spec fn decode_op(b: Seq<u8>) -> Option<(Seq<u8>, Option<ClockTag>)> {
    if b.len() >= 1 && b[0] == 0 {
        Some((b.subrange(1, b.len() as int), None))
    } else if b.len() >= 1 + TAG_LEN && b[0] == 1 {
        Some(
            (
                b.subrange(1 + TAG_LEN, b.len() as int),
                Some(
                    ClockTag {
                        replica_id: le_u64(b.subrange(1, 9)),
                        clock_id: le_u64(b.subrange(9, 17)),
                        clock_value: le_u64(b.subrange(17, 25)),
                    },
                ),
            ),
        )
    } else {
        None
    }
}

/// Every operation and tag decode back from their encoding.
pub proof fn lemma_op_round_trip(op: Seq<u8>, tag: Option<ClockTag>)
    ensures
        decode_op(encode_op(op, tag)) == Some((op, tag)),
{
    let b = encode_op(op, tag);
    match tag {
        None => {
            assert(b.subrange(1, b.len() as int) =~= op);
        },
        Some(t) => {
            lemma_le_u64_round_trip(t.replica_id);
            lemma_le_u64_round_trip(t.clock_id);
            lemma_le_u64_round_trip(t.clock_value);
            assert(b.subrange(1, 9) =~= u64_le(t.replica_id));
            assert(b.subrange(9, 17) =~= u64_le(t.clock_id));
            assert(b.subrange(17, 25) =~= u64_le(t.clock_value));
            assert(b.subrange(1 + TAG_LEN, b.len() as int) =~= op);
        },
    }
}

/// The indexed operations that a replay of `recs`, the first at index `first`, yields. A record
/// that does not decode ends the replay with nothing, or is passed over when `skip` holds.
pub open spec fn replay(first: u64, recs: Seq<Seq<u8>>, skip: bool) -> Option<
    Seq<(u64, (Seq<u8>, Option<ClockTag>))>,
>
    decreases recs.len(),
{
    if recs.len() == 0 {
        Some(Seq::empty())
    } else {
        match replay(first, recs.drop_last(), skip) {
            None => None,
            Some(es) => match decode_op(recs.last()) {
                Some(d) => Some(es.push(((first + recs.len() - 1) as u64, d))),
                None => if skip {
                    Some(es)
                } else {
                    None
                },
            },
        }
    }
}

/// Once a prefix of the records fails to replay, so do the records.
pub proof fn lemma_replay_fails_on(first: u64, recs: Seq<Seq<u8>>, k: int, skip: bool)
    requires
        0 <= k <= recs.len(),
        replay(first, recs.take(k), skip) is None,
    ensures
        replay(first, recs, skip) is None,
    decreases recs.len(),
{
    if k == recs.len() {
        assert(recs.take(k) =~= recs);
    } else {
        let dl = recs.drop_last();
        assert(dl.take(k) =~= recs.take(k));
        lemma_replay_fails_on(first, dl, k, skip);
    }
}

/// The operations `ops`, each at its index from `first` on.
pub open spec fn indexed(first: u64, ops: Seq<(Seq<u8>, Option<ClockTag>)>) -> Seq<
    (u64, (Seq<u8>, Option<ClockTag>)),
> {
    Seq::new(ops.len(), |i: int| ((first + i) as u64, ops[i]))
}

/// The records that hold `ops`, in order.
pub open spec fn encoded_ops(ops: Seq<(Seq<u8>, Option<ClockTag>)>) -> Seq<Seq<u8>> {
    ops.map_values(|o: (Seq<u8>, Option<ClockTag>)| encode_op(o.0, o.1))
}

pub proof fn lemma_replay_encoded(first: u64, ops: Seq<(Seq<u8>, Option<ClockTag>)>, skip: bool)
    requires
        first + ops.len() <= u64::MAX,
    ensures
        replay(first, encoded_ops(ops), skip) == Some(indexed(first, ops)),
    decreases ops.len(),
{
    if ops.len() == 0 {
        assert(indexed(first, ops) =~= Seq::empty());
    } else {
        let dl = ops.drop_last();
        lemma_replay_encoded(first, dl, skip);
        assert(encoded_ops(ops).drop_last() =~= encoded_ops(dl));
        lemma_op_round_trip(ops.last().0, ops.last().1);
        assert(indexed(first, ops) =~= indexed(first, dl).push(
            ((first + ops.len() - 1) as u64, ops.last()),
        ));
    }
}

fn encode_record(op: &[u8], tag: Option<ClockTag>) -> (r: Vec<u8>)
    ensures
        r@ == encode_op(op@, tag),
{
    let mut b: Vec<u8> = Vec::new();
    match tag {
        None => b.push(0u8),
        Some(t) => {
            b.push(1u8);
            push_u64_le(&mut b, t.replica_id);
            push_u64_le(&mut b, t.clock_id);
            push_u64_le(&mut b, t.clock_value);
        },
    }
    let mut i: usize = 0;
    let ghost head = b@;
    while i < op.len()
        invariant
            i <= op@.len(),
            b@ == head + op@.take(i as int),
        decreases op@.len() - i,
    {
        b.push(op[i]);
        assert(op@.take(i + 1) =~= op@.take(i as int).push(op@[i as int]));
        i = i + 1;
    }
    assert(op@.take(i as int) =~= op@);
    proof {
        match tag {
            None => assert(b@ =~= encode_op(op@, tag)),
            Some(t) => assert(b@ =~= encode_op(op@, tag)),
        }
    }
    b
}

fn decode_record(b: &[u8]) -> (r: Option<OperationRecord>)
    ensures
        r matches Some(rec) ==> decode_op(b@) == Some(rec@),
        r is None ==> decode_op(b@) is None,
{
    if b.len() >= 1 && b[0] == 0 {
        let op = slice_to_vec(slice_subrange(b, 1, b.len()));
        Some(OperationRecord { operation: op, clock_tag: None })
    } else if b.len() >= 1 + TAG_LEN && b[0] == 1 {
        let replica_id = read_u64_le(b, 1);
        let clock_id = read_u64_le(b, 9);
        let clock_value = read_u64_le(b, 17);
        let op = slice_to_vec(slice_subrange(b, 1 + TAG_LEN, b.len()));
        Some(
            OperationRecord {
                operation: op,
                clock_tag: Some(ClockTag { replica_id, clock_id, clock_value }),
            },
        )
    } else {
        None
    }
}

/// A per-collection log of mutating operations, one record each, in acceptance order.
pub struct OperationLog {
    store: SegmentStore,
    options: LogOptions,
}

impl View for OperationLog {
    type V = StoreView;

    closed spec fn view(&self) -> StoreView {
        self.store@
    }
}

impl OperationLog {
    pub closed spec fn wf(&self) -> bool {
        &&& self.store.wf()
        &&& self.store@.segment_size == self.options.segment_size
    }

    /// The options the log was opened with.
    pub closed spec fn options_spec(&self) -> LogOptions {
        self.options
    }

    /// Opens a log from its segment images (none for a new log); the first record takes
    /// index `first_index`.
    pub fn open(first_index: u64, images: &Vec<Vec<u8>>, options: LogOptions) -> (r: Result<
        OperationLog,
        OpLogError,
    >)
        ensures
            opens(first_index, crate::segment::images_of(images@)) ==> (r matches Ok(log) && log.wf()
                && log@.first_index == first_index && log@.records() == joined(
                recovered(crate::segment::images_of(images@)),
            ) && log.options_spec() == options),
            !opens(first_index, crate::segment::images_of(images@)) ==> r == Err::<
                OperationLog,
                OpLogError,
            >(OpLogError::Store(StoreError::CorruptSegment)),
    {
        match SegmentStore::open(first_index, images, options.segment_size) {
            Ok(store) => Ok(OperationLog { store, options }),
            Err(e) => Err(OpLogError::Store(e)),
        }
    }

    /// The options the log was opened with.
    pub fn options(&self) -> (r: LogOptions)
        ensures
            r == self.options_spec(),
    {
        self.options
    }

    /// Appends `operation` with its clock tag and returns the index it was given, one past
    /// the last.
    pub fn append(&mut self, operation: &[u8], clock_tag: Option<ClockTag>) -> (r: Result<
        u64,
        OpLogError,
    >)
        requires
            old(self).wf(),
        ensures
            final(self).wf(),
            final(self).options_spec() == old(self).options_spec(),
            old(self)@.has_room(encode_op(operation@, clock_tag).len()) ==> r == Ok::<
                u64,
                OpLogError,
            >((old(self)@.first_index + old(self)@.records().len()) as u64) && final(self)@
                == old(self)@.appended(encode_op(operation@, clock_tag)),
            !old(self)@.has_room(encode_op(operation@, clock_tag).len()) ==> r == Err::<
                u64,
                OpLogError,
            >(OpLogError::Store(StoreError::Full)) && final(self)@ == old(self)@,
            final(self)@.records() == if old(self)@.has_room(
                encode_op(operation@, clock_tag).len(),
            ) {
                old(self)@.records().push(encode_op(operation@, clock_tag))
            } else {
                old(self)@.records()
            },
    {
        let rec = encode_record(operation, clock_tag);
        match self.store.append(rec.as_slice()) {
            Ok(i) => Ok(i),
            Err(e) => Err(OpLogError::Store(e)),
        }
    }

    /// Index of the first record; none when the log is empty.
    pub fn first_index(&self) -> (r: Option<u64>)
        requires
            self.wf(),
        ensures
            r == if self@.records().len() == 0 {
                None
            } else {
                Some(self@.first_index)
            },
    {
        if self.store.len() == 0 {
            None
        } else {
            Some(self.store.first_index())
        }
    }

    /// Index of the last record; none when the log is empty.
    pub fn last_index(&self) -> (r: Option<u64>)
        requires
            self.wf(),
        ensures
            r == if self@.records().len() == 0 {
                None
            } else {
                Some((self@.first_index + self@.records().len() - 1) as u64)
            },
    {
        let n = self.store.len();
        if n == 0 {
            None
        } else {
            Some(self.store.first_index() + (n - 1) as u64)
        }
    }

    /// Every operation from the first retained index on, with its index. A record that does
    /// not decode fails the replay, or is passed over when `skip_invalid` holds.
    pub fn read_all(&self, skip_invalid: bool) -> (r: Result<
        Vec<(u64, OperationRecord)>,
        OpLogError,
    >)
        requires
            self.wf(),
        ensures
            r matches Ok(v) ==> replay(self@.first_index, self@.records(), skip_invalid) == Some(
                v@.map_values(|e: (u64, OperationRecord)| (e.0, e.1@)),
            ),
            r is Err ==> replay(self@.first_index, self@.records(), skip_invalid) is None,
    {
        let n = self.store.len();
        let first = self.store.first_index();
        let mut out: Vec<(u64, OperationRecord)> = Vec::new();
        let mut i: usize = 0;
        let ghost recs = self@.records();
        proof {
            assert(recs.take(0) =~= Seq::<Seq<u8>>::empty());
        }
        while i < n
            invariant
                self.wf(),
                n == recs.len(),
                recs == self@.records(),
                first == self@.first_index,
                first + n <= u64::MAX,
                i <= n,
                replay(first, recs.take(i as int), skip_invalid) == Some(
                    out@.map_values(|e: (u64, OperationRecord)| (e.0, e.1@)),
                ),
            decreases n - i,
        {
            let index = first + i as u64;
            let bytes = self.store.read(index);
            let ghost prev = out@.map_values(|e: (u64, OperationRecord)| (e.0, e.1@));
            proof {
                assert(recs.take(i + 1).drop_last() =~= recs.take(i as int));
                assert(recs.take(i + 1).last() == recs[i as int]);
            }
            match bytes {
                Ok(b) => {
                    match decode_record(b.as_slice()) {
                        Some(rec) => {
                            out.push((index, rec));
                            assert(out@.map_values(|e: (u64, OperationRecord)| (e.0, e.1@))
                                =~= prev.push((index, rec@)));
                        },
                        None => {
                            if !skip_invalid {
                                proof {
                                    lemma_replay_fails_on(first, recs, i + 1, skip_invalid);
                                }
                                return Err(OpLogError::Malformed(index));
                            }
                        },
                    }
                },
                Err(e) => {
                    return Err(OpLogError::Store(e));
                },
            }
            i = i + 1;
        }
        assert(recs.take(n as int) =~= recs);
        Ok(out)
    }

    /// Durability and order: a log whose records hold `ops`, reopened from its images (the
    /// last of them possibly ending in a torn write), replays exactly `ops`, in order, each at
    /// its index.
    pub proof fn lemma_reopen_replays(
        &self,
        ops: Seq<(Seq<u8>, Option<ClockTag>)>,
        images: Seq<Seq<u8>>,
        torn: Seq<u8>,
        p: Seq<u8>,
        skip: bool,
    )
        requires
            self.wf(),
            self@.records() == encoded_ops(ops),
            images.len() == self@.segments.len(),
            forall|s: int|
                0 <= s < images.len() - 1 ==> #[trigger] images[s] == frames(self@.segments[s]),
            images.last() == frames(self@.segments.last()) + torn,
            p.len() <= u64::MAX,
            torn.len() == 0 || is_torn_frame(torn, p),
        ensures
            opens(self@.first_index, images),
            replay(self@.first_index, joined(recovered(images)), skip) == Some(
                indexed(self@.first_index, ops),
            ),
    {
        lemma_reopen(&self.store, images, torn, p);
        self.store.lemma_bounds();
        lemma_replay_encoded(self@.first_index, ops, skip);
    }

    /// A copy of each segment image, oldest first.
    pub fn images(&self) -> (r: Vec<Vec<u8>>)
        requires
            self.wf(),
        ensures
            r@.len() == self@.segments.len(),
            r@.len() >= 1,
            forall|s: int| 0 <= s < r@.len() ==> (#[trigger] r@[s])@ == frames(self@.segments[s]),
    {
        self.store.images()
    }
}

} // verus!
