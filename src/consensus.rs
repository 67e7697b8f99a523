use crate::le_bytes::{le_u64, lemma_le_bytes_unique, lemma_le_u64_round_trip, push_u64_le, read_u64_le, u64_le};
use crate::frame::{frames, is_torn_frame, HEADER_LEN};
use crate::segment::{images_of, joined, opens, recovered, SegmentStore, StoreError, StoreView};
use vstd::prelude::*;
use vstd::slice::{slice_subrange, slice_to_vec};

verus! {

/// What a consensus entry carries.
#[derive(Debug, Clone, Copy, PartialEq, Eq, Structural)]
pub enum EntryType {
    Normal,
    ConfigChange,
}

/// A replicated-log entry: its position, the term it was proposed in, its type and its
/// opaque payload.
#[derive(Debug, Clone)]
pub struct ConsensusEntry {
    pub index: u64,
    pub term: u64,
    pub entry_type: EntryType,
    pub data: Vec<u8>,
}

/// An entry as a value.
pub ghost struct EntryView {
    pub index: u64,
    pub term: u64,
    pub entry_type: EntryType,
    pub data: Seq<u8>,
}

impl View for ConsensusEntry {
    type V = EntryView;

    open spec fn view(&self) -> EntryView {
        EntryView {
            index: self.index,
            term: self.term,
            entry_type: self.entry_type,
            data: self.data@,
        }
    }
}

/// The views of a sequence of entries.
pub open spec fn views(es: Seq<ConsensusEntry>) -> Seq<EntryView> {
    es.map_values(|e: ConsensusEntry| e@)
}

/// Why a consensus log operation failed.
#[derive(Debug, Clone, Copy, PartialEq, Eq, Structural)]
pub enum ConsensusError {
    Store(StoreError),
    /// The range or index asked for lies before the first retained entry.
    RangeOutOfBounds,
    /// The entries handed in break the log's rules: a gap, indices that do not increase by
    /// one, or a term that decreases.
    ContractViolation,
    /// A stored record does not hold an entry, or the stored entries do not form a log.
    Malformed,
}

pub open spec fn type_byte(t: EntryType) -> u8 {
    match t {
        EntryType::Normal => 0,
        EntryType::ConfigChange => 1,
    }
}

/// The record that holds an entry: index, term, type, then the payload.
pub open spec fn entry_bytes(e: EntryView) -> Seq<u8> {
    u64_le(e.index) + u64_le(e.term) + seq![type_byte(e.entry_type)] + e.data
}

/// The entry that a record holds, if it holds one.
pub open spec fn entry_of(b: Seq<u8>) -> Option<EntryView> {
    if b.len() >= 17 && (b[16] == 0 || b[16] == 1) {
        Some(
            EntryView {
                index: le_u64(b.subrange(0, 8)),
                term: le_u64(b.subrange(8, 16)),
                entry_type: if b[16] == 0 {
                    EntryType::Normal
                } else {
                    EntryType::ConfigChange
                },
                data: b.subrange(17, b.len() as int),
            },
        )
    } else {
        None
    }
}

pub proof fn lemma_entry_round_trip(e: EntryView)
    ensures
        entry_of(entry_bytes(e)) == Some(e),
{
    let b = entry_bytes(e);
    lemma_le_u64_round_trip(e.index);
    lemma_le_u64_round_trip(e.term);
    assert(b.subrange(0, 8) =~= u64_le(e.index));
    assert(b.subrange(8, 16) =~= u64_le(e.term));
    assert(b.subrange(17, b.len() as int) =~= e.data);
}

/// A record that holds an entry is that entry's encoding.
pub proof fn lemma_entry_bytes_of(b: Seq<u8>)
    requires
        entry_of(b) is Some,
    ensures
        entry_bytes(entry_of(b)->Some_0) == b,
{
    lemma_le_bytes_unique(b.subrange(0, 8));
    lemma_le_bytes_unique(b.subrange(8, 16));
    assert(entry_bytes(entry_of(b)->Some_0) =~= b);
}

fn encode_entry(e: &ConsensusEntry) -> (r: Vec<u8>)
    ensures
        r@ == entry_bytes(e@),
{
    let mut b: Vec<u8> = Vec::new();
    push_u64_le(&mut b, e.index);
    push_u64_le(&mut b, e.term);
    match e.entry_type {
        EntryType::Normal => b.push(0u8),
        EntryType::ConfigChange => b.push(1u8),
    }
    let ghost head = b@;
    let mut i: usize = 0;
    while i < e.data.len()
        invariant
            i <= e.data@.len(),
            b@ == head + e.data@.take(i as int),
        decreases e.data@.len() - i,
    {
        b.push(e.data[i]);
        assert(e.data@.take(i + 1) =~= e.data@.take(i as int).push(e.data@[i as int]));
        i = i + 1;
    }
    assert(e.data@.take(i as int) =~= e.data@);
    assert(b@ =~= entry_bytes(e@));
    b
}

fn decode_entry(b: &[u8]) -> (r: Option<ConsensusEntry>)
    ensures
        r matches Some(e) ==> entry_of(b@) == Some(e@),
        r is None ==> entry_of(b@) is None,
{
    if b.len() >= 17 && (b[16] == 0 || b[16] == 1) {
        let index = read_u64_le(b, 0);
        let term = read_u64_le(b, 8);
        let entry_type = if b[16] == 0 {
            EntryType::Normal
        } else {
            EntryType::ConfigChange
        };
        let data = slice_to_vec(slice_subrange(b, 17, b.len()));
        Some(ConsensusEntry { index, term, entry_type, data })
    } else {
        None
    }
}

/// A consensus log as a value: the index of its first retained slot and its entries.
pub ghost struct ConsensusView {
    pub offset: u64,
    pub entries: Seq<EntryView>,
}

/// Entries are contiguous from `offset` and their terms never decrease.
pub open spec fn valid_log(offset: u64, es: Seq<EntryView>) -> bool {
    &&& offset + es.len() <= u64::MAX
    &&& forall|i: int| 0 <= i < es.len() ==> (#[trigger] es[i]).index == offset + i
    &&& forall|i: int, j: int| 0 <= i <= j < es.len() ==> es[i].term <= es[j].term
}

/// Entries handed to one append: each index one past the one before, terms not decreasing.
pub open spec fn valid_batch(new: Seq<EntryView>) -> bool {
    &&& forall|i: int| 0 <= i < new.len() ==> (#[trigger] new[i]).index == new[0].index + i
    &&& forall|i: int, j: int| 0 <= i <= j < new.len() ==> new[i].term <= new[j].term
}

impl ConsensusView {
    pub open spec fn last_index(self) -> int {
        self.offset + self.entries.len() - 1
    }

    /// The entries kept when a batch starting at index `k` is written.
    pub open spec fn kept(self, k: u64) -> Seq<EntryView> {
        if self.entries.len() == 0 {
            Seq::empty()
        } else {
            self.entries.take(k - self.offset)
        }
    }

    /// `new` may be appended: it is a valid batch, it starts inside the log or right after
    /// it (anywhere when the log is empty), and its first term is not below the term of the
    /// entry it would follow.
    pub open spec fn accepts(self, new: Seq<EntryView>) -> bool {
        new.len() == 0 || {
            let k = new[0].index;
            &&& valid_batch(new)
            &&& self.entries.len() == 0 || self.offset <= k <= self.offset + self.entries.len()
            &&& self.kept(k).len() > 0 ==> self.kept(k).last().term <= new[0].term
            &&& new.last().index < u64::MAX
        }
    }

    /// The log after `new` is written: entries from `new[0].index` on are discarded, then
    /// `new` follows.
    pub open spec fn append(self, new: Seq<EntryView>) -> ConsensusView {
        if new.len() == 0 {
            self
        } else if self.entries.len() == 0 {
            ConsensusView { offset: new[0].index, entries: new }
        } else {
            ConsensusView { offset: self.offset, entries: self.kept(new[0].index) + new }
        }
    }

    /// The error that `append` meets with `new`, checked in this order.
    pub open spec fn append_error(self, new: Seq<EntryView>) -> ConsensusError {
        if self.entries.len() > 0 && new[0].index < self.offset {
            ConsensusError::RangeOutOfBounds
        } else {
            ConsensusError::ContractViolation
        }
    }
}

/// Bytes of an entry's record in front of its payload: index, term and type.
pub const ENTRY_HEADER_LEN: usize = 17;

/// The records of `new`, written after `kept_len` kept entries, fit the store: the positions
/// stay countable in memory, and each frame fits beside a segment of the store's segment size.
pub open spec fn batch_fits(segment_size: nat, kept_len: nat, new: Seq<EntryView>) -> bool {
    &&& kept_len + new.len() <= usize::MAX
    &&& segment_size + HEADER_LEN + ENTRY_HEADER_LEN <= usize::MAX
    &&& forall|j: int|
        0 <= j < new.len() ==> segment_size + HEADER_LEN + entry_bytes(#[trigger] new[j]).len()
            <= usize::MAX
}

fn batch_fits_exec(new: &Vec<ConsensusEntry>, kept_len: usize, size: usize) -> (r: bool)
    ensures
        r == batch_fits(size as nat, kept_len as nat, views(new@)),
{
    let ghost nv = views(new@);
    if new.len() > usize::MAX - kept_len || size > usize::MAX - HEADER_LEN - ENTRY_HEADER_LEN {
        return false;
    }
    let mut j: usize = 0;
    while j < new.len()
        invariant
            nv == views(new@),
            kept_len + nv.len() <= usize::MAX,
            size + HEADER_LEN + ENTRY_HEADER_LEN <= usize::MAX,
            j <= new@.len(),
            forall|q: int|
                0 <= q < j ==> size + HEADER_LEN + entry_bytes(#[trigger] nv[q]).len() <= usize::MAX,
        decreases new@.len() - j,
    {
        assert(nv[j as int] == new@[j as int]@);
        if new[j].data.len() > usize::MAX - HEADER_LEN - ENTRY_HEADER_LEN - size {
            assert(!(size + HEADER_LEN + entry_bytes(nv[j as int]).len() <= usize::MAX));
            return false;
        }
        j = j + 1;
    }
    true
}

impl ConsensusView {
    /// `new` fits the store beneath the log once the entries from `new[0].index` on are
    /// discarded; an empty batch always fits.
    pub open spec fn fits(self, store: StoreView, new: Seq<EntryView>) -> bool {
        new.len() == 0 || batch_fits(store.segment_size as nat, self.kept(new[0].index).len(), new)
    }
}

/// Whatever is appended, a valid log stays valid: indices contiguous, terms not decreasing.
pub proof fn lemma_append_keeps_log_valid(v: ConsensusView, new: Seq<EntryView>)
    requires
        valid_log(v.offset, v.entries),
        v.accepts(new),
    ensures
        valid_log(v.append(new).offset, v.append(new).entries),
{
    if new.len() > 0 {
        let k = new[0].index;
        if v.entries.len() > 0 {
            let kept = v.kept(k);
            let es = kept + new;
            assert forall|i: int, j: int| 0 <= i <= j < es.len() implies es[i].term
                <= es[j].term by {
                if i < kept.len() && j >= kept.len() {
                    assert(kept.last() == kept[kept.len() - 1]);
                    assert(es[i].term <= kept.last().term);
                    assert(new[0].term <= new[j - kept.len()].term);
                }
            }
        }
    }
}


/// Writing at an index the log already holds keeps the entries before it, and nothing after
/// the written batch survives: the last index becomes the batch's last index.
pub proof fn lemma_overwrite_truncates(v: ConsensusView, new: Seq<EntryView>)
    requires
        valid_log(v.offset, v.entries),
        v.accepts(new),
        new.len() > 0,
        v.entries.len() > 0,
        new[0].index <= v.last_index(),
    ensures
        v.append(new).offset == v.offset,
        v.append(new).entries.len() == new[0].index - v.offset + new.len(),
        v.append(new).last_index() == new.last().index,
        forall|i: int|
            0 <= i < new[0].index - v.offset ==> #[trigger] v.append(new).entries[i] == v.entries[i],
        forall|i: int|
            0 <= i < v.append(new).entries.len() ==> #[trigger] v.append(new).entries[i].index
                < new[0].index || v.append(new).entries[i] == new[i - (new[0].index - v.offset)],
{
    lemma_append_keeps_log_valid(v, new);
}

/// `range` holds exactly the log's entries with index in `[low, high)`, in index order.
pub proof fn lemma_range_exact(v: ConsensusView, low: u64, high: u64)
    requires
        valid_log(v.offset, v.entries),
        v.offset <= low,
    ensures
        forall|i: int|
            0 <= i < range(v, low, high).len() ==> low <= (#[trigger] range(v, low, high)[i]).index
                < high && range(v, low, high)[i] == v.entries[low - v.offset + i],
        forall|j: int|
            0 <= j < v.entries.len() && low <= (#[trigger] v.entries[j]).index < high ==> range(
                v,
                low,
                high,
            ).contains(v.entries[j]),
{
    let r = range(v, low, high);
    assert forall|j: int| 0 <= j < v.entries.len() && low <= (#[trigger] v.entries[j]).index
        < high implies r.contains(v.entries[j]) by {
        assert(r[j - (low - v.offset)] == v.entries[j]);
    }
}

/// A valid log stays valid when cut short.
proof fn lemma_valid_prefix(offset: u64, es: Seq<EntryView>, m: int)
    requires
        valid_log(offset, es),
        0 <= m <= es.len(),
    ensures
        valid_log(offset, es.take(m)),
{
}

/// The records that hold `es`.
pub open spec fn records_of(es: Seq<EntryView>) -> Seq<Seq<u8>> {
    es.map_values(|e: EntryView| entry_bytes(e))
}

/// The entries that records hold, when every one of them holds one.
pub open spec fn decode_all(recs: Seq<Seq<u8>>) -> Option<Seq<EntryView>> {
    if forall|i: int| 0 <= i < recs.len() ==> (#[trigger] entry_of(recs[i])) is Some {
        Some(recs.map_values(|b: Seq<u8>| entry_of(b)->Some_0))
    } else {
        None
    }
}

/// Images open as a consensus log: they open as a store, every record holds an entry, and
/// the entries form a valid log from `first_index` on.
pub open spec fn log_opens(first_index: u64, images: Seq<Seq<u8>>) -> bool {
    &&& opens(first_index, images)
    &&& decode_all(joined(recovered(images))) is Some
    &&& valid_log(first_index, decode_all(joined(recovered(images)))->Some_0)
}

/// Sum of the payload lengths of `es`.
pub open spec fn data_size(es: Seq<EntryView>) -> nat
    decreases es.len(),
{
    if es.len() == 0 {
        0
    } else {
        data_size(es.drop_last()) + es.last().data.len()
    }
}

/// The entries with index in `[low, high)` that the log holds; `low` is at least the offset.
pub open spec fn range(v: ConsensusView, low: u64, high: u64) -> Seq<EntryView> {
    if low >= high || low - v.offset >= v.entries.len() {
        Seq::empty()
    } else if high - v.offset >= v.entries.len() {
        v.entries.subrange(low - v.offset, v.entries.len() as int)
    } else {
        v.entries.subrange(low - v.offset, high - v.offset)
    }
}

/// `k` entries of `es` are what a byte budget admits: all of them, or the longest prefix
/// within the budget, and at least one.
pub open spec fn budget_count(es: Seq<EntryView>, max_bytes: Option<usize>, k: int) -> bool {
    match max_bytes {
        None => k == es.len(),
        Some(m) => {
            &&& 0 <= k <= es.len()
            &&& es.len() > 0 ==> k >= 1
            &&& k <= 1 || data_size(es.take(k)) <= m
            &&& k == es.len() || (k >= 1 && data_size(es.take(k + 1)) > m)
        },
    }
}

/// The Raft-style consensus log: entries stored one per record in a segment store, at
/// positions equal to their indices.
pub struct ConsensusLog {
    store: SegmentStore,
    entries: Ghost<Seq<EntryView>>,
}

impl View for ConsensusLog {
    type V = ConsensusView;

    closed spec fn view(&self) -> ConsensusView {
        ConsensusView { offset: self.store@.first_index, entries: self.entries@ }
    }
}

impl ConsensusLog {
    pub closed spec fn wf(&self) -> bool {
        &&& self.store.wf()
        &&& self.store@.records() == records_of(self.entries@)
        &&& valid_log(self.store@.first_index, self.entries@)
    }

    /// The store beneath the log.
    pub closed spec fn store_view(&self) -> StoreView {
        self.store@
    }

    /// Reopening the log from its images, the last possibly ending in a torn write, gives
    /// back the same entries from the same offset.
    pub proof fn lemma_reopen(&self, images: Seq<Seq<u8>>, torn: Seq<u8>, p: Seq<u8>)
        requires
            self.wf(),
            images.len() == self.store_view().segments.len(),
            forall|s: int|
                0 <= s < images.len() - 1 ==> #[trigger] images[s] == frames(
                    self.store_view().segments[s],
                ),
            images.last() == frames(self.store_view().segments.last()) + torn,
            p.len() <= u64::MAX,
            torn.len() == 0 || is_torn_frame(torn, p),
        ensures
            log_opens(self@.offset, images),
            decode_all(joined(recovered(images))) == Some(self@.entries),
    {
        crate::segment::lemma_reopen(&self.store, images, torn, p);
        let es = self.entries@;
        let recs = records_of(es);
        assert forall|i: int| 0 <= i < recs.len() implies (#[trigger] entry_of(recs[i])) == Some(
            es[i],
        ) by {
            lemma_entry_round_trip(es[i]);
        }
        assert(recs.map_values(|b: Seq<u8>| entry_of(b)->Some_0) =~= es);
    }

    /// The view holds a valid log.
    pub proof fn lemma_valid(&self)
        requires
            self.wf(),
        ensures
            valid_log(self@.offset, self@.entries),
    {
    }

    /// An empty log, whose first entry will take index 1 unless the first append says otherwise.
    pub fn new(segment_size: usize) -> (r: ConsensusLog)
        ensures
            r.wf(),
            r@ == (ConsensusView { offset: 1, entries: Seq::empty() }),
            r.store_view().segment_size == segment_size,
    {
        let store = SegmentStore::new(1, segment_size);
        let r = ConsensusLog { store, entries: Ghost(Seq::empty()) };
        assert(records_of(Seq::<EntryView>::empty()) =~= Seq::<Seq<u8>>::empty());
        assert(store@.segments.drop_last() =~= Seq::<Seq<Seq<u8>>>::empty());
        assert(joined(store@.segments.drop_last()) =~= Seq::<Seq<u8>>::empty());
        assert(store@.records() =~= Seq::<Seq<u8>>::empty());
        r
    }

    /// Opens a log from its segment images; its first entry is expected at `first_index`.
    /// A torn write at the end of the last image is dropped.
    pub fn open(first_index: u64, images: &Vec<Vec<u8>>, segment_size: usize) -> (r: Result<
        ConsensusLog,
        ConsensusError,
    >)
        ensures
            log_opens(first_index, images_of(images@)) ==> (r matches Ok(log) && log.wf()
                && log@ == (ConsensusView {
                offset: first_index,
                entries: decode_all(joined(recovered(images_of(images@))))->Some_0,
            })),
            !opens(first_index, images_of(images@)) ==> r == Err::<ConsensusLog, ConsensusError>(
                ConsensusError::Store(StoreError::CorruptSegment),
            ),
            opens(first_index, images_of(images@)) && !log_opens(first_index, images_of(images@))
                ==> r == Err::<ConsensusLog, ConsensusError>(ConsensusError::Malformed),
    {
        let store = match SegmentStore::open(first_index, images, segment_size) {
            Ok(st) => st,
            Err(e) => {
                return Err(ConsensusError::Store(e));
            },
        };
        let ghost recs = store@.records();
        let n = store.len();
        let mut i: usize = 0;
        let ghost mut es: Seq<EntryView> = Seq::empty();
        let mut last_term: u64 = 0;
        while i < n
            invariant
                store.wf(),
                recs == store@.records(),
                store@.first_index == first_index,
                opens(first_index, images_of(images@)),
                recs == joined(recovered(images_of(images@))),
                first_index + n <= u64::MAX,
                n == recs.len(),
                i <= n,
                es.len() == i,
                forall|j: int| 0 <= j < i ==> entry_of(#[trigger] recs[j]) == Some(es[j]),
                valid_log(first_index, es),
                i > 0 ==> last_term == es.last().term,
            decreases n - i,
        {
            let b = match store.read(first_index + i as u64) {
                Ok(b) => b,
                Err(e) => {
                    return Err(ConsensusError::Store(e));
                },
            };
            let e = match decode_entry(b.as_slice()) {
                Some(e) => e,
                None => {
                    assert(entry_of(recs[i as int]) is None);
                    return Err(ConsensusError::Malformed);
                },
            };
            if e.index != first_index + i as u64 || (i > 0 && e.term < last_term) {
                proof {
                    let all = decode_all(recs);
                    assert(entry_of(recs[i as int]) == Some(e@));
                    if i > 0 {
                        assert(entry_of(recs[i - 1]) == Some(es[i - 1]));
                    }
                    if all is Some {
                        assert(all->Some_0[i as int] == e@);
                        if i > 0 {
                            assert(all->Some_0[i - 1] == es[i - 1]);
                        }
                    }
                }
                return Err(ConsensusError::Malformed);
            }
            proof {
                let ne = es.push(e@);
                assert forall|a: int, c: int| 0 <= a <= c < ne.len() implies ne[a].term
                    <= ne[c].term by {
                    if c == i && a < c {
                        assert(ne[a].term <= es.last().term);
                    }
                }
                es = ne;
            }
            last_term = e.term;
            i = i + 1;
        }
        proof {
            assert(decode_all(recs) == Some(es)) by {
                assert(recs.map_values(|b: Seq<u8>| entry_of(b)->Some_0) =~= es);
            }
            assert(records_of(es) =~= recs) by {
                assert forall|j: int| 0 <= j < es.len() implies #[trigger] records_of(es)[j]
                    == recs[j] by {
                    lemma_entry_bytes_of(recs[j]);
                }
            }
        }
        Ok(ConsensusLog { store, entries: Ghost(es) })
    }

    /// The entry at position `i`.
    fn entry_at(&self, i: usize) -> (r: ConsensusEntry)
        requires
            self.wf(),
            i < self@.entries.len(),
        ensures
            r@ == self@.entries[i as int],
    {
        let ghost e = self.entries@[i as int];
        proof {
            lemma_entry_round_trip(e);
            assert(self.store@.records()[i as int] == entry_bytes(e));
        }
        let b = self.store.read(self.store.first_index() + i as u64);
        match b {
            Ok(b) => match decode_entry(b.as_slice()) {
                Some(entry) => entry,
                None => {
                    proof {
                        assert(false);
                    }
                    ConsensusEntry { index: 0, term: 0, entry_type: EntryType::Normal, data: Vec::new() }
                },
            },
            Err(_) => {
                proof {
                    assert(false);
                }
                ConsensusEntry { index: 0, term: 0, entry_type: EntryType::Normal, data: Vec::new() }
            },
        }
    }

    fn count(&self) -> (r: usize)
        requires
            self.wf(),
        ensures
            r == self@.entries.len(),
    {
        self.store.len()
    }

    /// The first entry; none when the log is empty.
    pub fn first_entry(&self) -> (r: Option<ConsensusEntry>)
        requires
            self.wf(),
        ensures
            self@.entries.len() == 0 ==> r is None,
            self@.entries.len() > 0 ==> (r matches Some(e) && e@ == self@.entries[0]),
    {
        if self.count() == 0 {
            None
        } else {
            Some(self.entry_at(0))
        }
    }

    /// The last entry; none when the log is empty.
    pub fn last_entry(&self) -> (r: Option<ConsensusEntry>)
        requires
            self.wf(),
        ensures
            self@.entries.len() == 0 ==> r is None,
            self@.entries.len() > 0 ==> (r matches Some(e) && e@ == self@.entries.last()),
    {
        let n = self.count();
        if n == 0 {
            None
        } else {
            Some(self.entry_at(n - 1))
        }
    }

    /// The index of the first retained slot, used to place a logical index in the store.
    pub fn index_offset(&self) -> (r: u64)
        requires
            self.wf(),
        ensures
            r == self@.offset,
    {
        self.store.first_index()
    }

    /// Checks `new` against the log and returns the error that `append_entries` meets, if any.
    fn check_batch(&self, new: &Vec<ConsensusEntry>) -> (r: Option<ConsensusError>)
        requires
            self.wf(),
            new@.len() > 0,
        ensures
            r is None <==> self@.accepts(views(new@)),
            r matches Some(e) ==> e == self@.append_error(views(new@)),
    {
        let ghost nv = views(new@);
        let n = self.count();
        let offset = self.store.first_index();
        let k = new[0].index;
        assert(nv[0] == new@[0]@);
        if n > 0 && k < offset {
            return Some(ConsensusError::RangeOutOfBounds);
        }
        if n > 0 && k - offset > n as u64 {
            return Some(ConsensusError::ContractViolation);
        }
        if n > 0 && k > offset {
            let prev = self.entry_at((k - offset - 1) as usize);
            proof {
                let kept = self@.kept(k);
                assert(kept.last() == self@.entries[k - offset - 1]);
            }
            if prev.term > new[0].term {
                return Some(ConsensusError::ContractViolation);
            }
        }
        let mut i: usize = 1;
        while i < new.len()
            invariant
                nv == views(new@),
                self@.append_error(nv) == ConsensusError::ContractViolation,
                1 <= i <= new@.len(),
                forall|j: int| 0 <= j < i ==> (#[trigger] nv[j]).index == nv[0].index + j,
                forall|a: int, b: int| 0 <= a <= b < i ==> nv[a].term <= nv[b].term,
            decreases new@.len() - i,
        {
            proof {
                assert(nv[i as int] == new@[i as int]@);
                assert(nv[i - 1] == new@[i - 1]@);
            }
            if new[i - 1].index == u64::MAX || new[i].index != new[i - 1].index + 1 || new[i].term
                < new[i - 1].term {
                return Some(ConsensusError::ContractViolation);
            }
            proof {
                assert forall|a: int, b: int| 0 <= a <= b < i + 1 implies nv[a].term
                    <= nv[b].term by {
                    if b == i && a < b {
                        assert(nv[a].term <= nv[i - 1].term);
                    }
                }
            }
            i = i + 1;
        }
        proof {
            assert(nv.last() == new@[new@.len() - 1]@);
        }
        if new[new.len() - 1].index == u64::MAX {
            return Some(ConsensusError::ContractViolation);
        }
        None
    }

    /// Appends `new` in order. Where an entry already exists at `new[0].index`, it and every
    /// later entry are discarded first. On a batch the log does not accept nothing changes;
    /// an accepted batch is written whole unless the store runs out of room.
    #[verifier::rlimit(40)]
    pub fn append_entries(&mut self, new: &Vec<ConsensusEntry>) -> (r: Result<(), ConsensusError>)
        requires
            old(self).wf(),
        ensures
            final(self).wf(),
            old(self)@.accepts(views(new@)) && old(self)@.fits(old(self).store_view(), views(new@))
                ==> r is Ok && final(self)@ == old(self)@.append(views(new@)),
            old(self)@.accepts(views(new@)) && !old(self)@.fits(old(self).store_view(), views(new@))
                ==> r == Err::<(), ConsensusError>(ConsensusError::Store(StoreError::Full))
                && final(self)@ == old(self)@,
            !old(self)@.accepts(views(new@)) ==> r == Err::<(), ConsensusError>(
                old(self)@.append_error(views(new@)),
            ) && final(self)@ == old(self)@,
    {
        if new.len() == 0 {
            return Ok(());
        }
        if let Some(e) = self.check_batch(new) {
            return Err(e);
        }
        let ghost nv = views(new@);
        let ghost target = self@.append(nv);
        proof {
            lemma_append_keeps_log_valid(self@, nv);
        }
        let k = new[0].index;
        let n = self.count();
        let kept_len: usize = if n == 0 { 0 } else { (k - self.store.first_index()) as usize };
        let size = self.store.segment_size();
        proof {
            assert(nv[0] == new@[0]@);
            if n > 0 {
                assert(self@.kept(k).len() == kept_len);
            }
        }
        if !batch_fits_exec(new, kept_len, size) {
            return Err(ConsensusError::Store(StoreError::Full));
        }
        if n == 0 {
            let size = self.store.segment_size();
            self.store = SegmentStore::new(k, size);
            proof {
                assert(self.store@.segments.drop_last() =~= Seq::<Seq<Seq<u8>>>::empty());
                assert(joined(self.store@.segments.drop_last()) =~= Seq::<Seq<u8>>::empty());
            }
        } else {
            self.store.truncate_from(k);
        }
        let ghost kept = old(self)@.kept(k);
        self.entries = Ghost(kept);
        proof {
            assert(self.store@.records() =~= records_of(kept));
            assert(target.entries =~= kept + nv);
            assert(target.entries.take(kept.len() as int) =~= kept);
            lemma_valid_prefix(target.offset, target.entries, kept.len() as int);
        }
        let mut i: usize = 0;
        while i < new.len()
            invariant
                nv == views(new@),
                self.wf(),
                target == old(self)@.append(nv),
                old(self)@.accepts(nv),
                batch_fits(old(self).store_view().segment_size as nat, kept.len(), nv),
                self.store@.segment_size == old(self).store_view().segment_size,
                self@.offset + kept.len() == nv[0].index,
                nv.len() > 0,
                target.entries == kept + nv,
                valid_log(target.offset, target.entries),
                self@.offset == target.offset,
                i <= new@.len(),
                self@.entries == target.entries.take(kept.len() + i),
            decreases new@.len() - i,
        {
            let bytes = encode_entry(&new[i]);
            proof {
                assert(nv[i as int] == new@[i as int]@);
                assert(nv[i as int].index <= nv.last().index);
            }
            match self.store.append(bytes.as_slice()) {
                Ok(_) => {},
                Err(e) => {
                    proof {
                        assert(false);
                    }
                    return Err(ConsensusError::Store(e));
                },
            }
            self.entries = Ghost(target.entries.take(kept.len() + i + 1));
            proof {
                assert(target.entries.take(kept.len() + i + 1) =~= target.entries.take(
                    kept.len() + i,
                ).push(nv[i as int]));
                assert(self.store@.records() =~= records_of(self.entries@));
                lemma_valid_prefix(target.offset, target.entries, kept.len() + i + 1);
            }
            i = i + 1;
        }
        proof {
            assert(target.entries.take(kept.len() + i) =~= target.entries);
        }
        Ok(())
    }

    /// The entries with index in `[low, high)`, in order: none when `low >= high` or the
    /// range lies past the log, an error when `low` precedes the first retained index. With a
    /// byte budget, the longest prefix whose payloads fit it, and never less than one entry.
    pub fn entries(&self, low: u64, high: u64, max_bytes: Option<usize>) -> (r: Result<
        Vec<ConsensusEntry>,
        ConsensusError,
    >)
        requires
            self.wf(),
        ensures
            low < high && low < self@.offset ==> r == Err::<Vec<ConsensusEntry>, ConsensusError>(
                ConsensusError::RangeOutOfBounds,
            ),
            !(low < high && low < self@.offset) ==> (r matches Ok(v) && exists|k: int|
                budget_count(range(self@, low, high), max_bytes, k) && views(v@) == range(
                    self@,
                    low,
                    high,
                ).take(k)),
    {
        let offset = self.store.first_index();
        let n = self.count();
        if low >= high {
            let v: Vec<ConsensusEntry> = Vec::new();
            assert(views(v@) =~= range(self@, low, high).take(0));
            return Ok(v);
        }
        if low < offset {
            return Err(ConsensusError::RangeOutOfBounds);
        }
        let ghost es = range(self@, low, high);
        let start: u64 = low - offset;
        let end: u64 = if high - offset >= n as u64 {
            n as u64
        } else {
            high - offset
        };
        let mut out: Vec<ConsensusEntry> = Vec::new();
        if start >= n as u64 {
            assert(views(out@) =~= es.take(0));
            return Ok(out);
        }
        let start = start as usize;
        let end = end as usize;
        assert(es =~= self@.entries.subrange(start as int, end as int));
        let mut i: usize = start;
        let mut total: usize = 0;
        assert(es.take(0) =~= Seq::<EntryView>::empty());
        while i < end
            invariant
                self.wf(),
                es == self@.entries.subrange(start as int, end as int),
                start < end <= self@.entries.len(),
                start <= i <= end,
                views(out@) == es.take(i - start),
                low < high,
                offset <= low,
                offset == self@.offset,
                es == range(self@, low, high),
                max_bytes is Some ==> total == data_size(es.take(i - start)),
                max_bytes matches Some(m) ==> (i > start + 1 ==> total <= m),
            decreases end - i,
        {
            let e = self.entry_at(i);
            let len = e.data.len();
            let ghost j = i - start;
            proof {
                assert(es.take(j + 1).drop_last() =~= es.take(j));
                assert(es.take(j + 1).last() == es[j]);
            }
            match max_bytes {
                Some(m) => {
                    if i > start && (total > m || len > m - total) {
                        proof {
                            assert(budget_count(es, max_bytes, j));
                        }
                        return Ok(out);
                    }
                    total = total + len;
                },
                None => {},
            }
            out.push(e);
            assert(views(out@) =~= es.take(j + 1));
            i = i + 1;
        }
        assert(es.take(end - start) =~= es);
        assert(budget_count(es, max_bytes, end - start));
        Ok(out)
    }

    /// A copy of each segment image, oldest first.
    pub fn images(&self) -> (r: Vec<Vec<u8>>)
        requires
            self.wf(),
        ensures
            r@.len() == self.store_view().segments.len(),
            r@.len() >= 1,
            forall|s: int|
                0 <= s < r@.len() ==> (#[trigger] r@[s])@ == frames(self.store_view().segments[s]),
    {
        self.store.images()
    }
} // impl

} // verus!
