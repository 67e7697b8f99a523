use crate::codec::{encode, op_bytes, ConsensusOperation, OpView};
use crate::consensus::{
    entry_bytes, valid_log,views, ConsensusEntry, ConsensusError, ConsensusLog, ConsensusView, EntryType, EntryView};
use crate::frame::HEADER_LEN;
use crate::segment::{StoreError, StoreView};
use vstd::prelude::*;
use vstd::slice::slice_to_vec;

verus! {

/// Index of the last entry, or 0 for an empty log.
pub open spec fn last_index_or_zero(v: ConsensusView) -> u64 {
    if v.entries.len() == 0 {
        0
    } else {
        v.entries.last().index
    }
}

/// Term of the last entry, but at least 1.
pub open spec fn filler_term(v: ConsensusView) -> u64 {
    if v.entries.len() == 0 || v.entries.last().term < 1 {
        1
    } else {
        v.entries.last().term
    }
}

/// The entries that fill the log from index `from` up to and including `to`: normal entries
/// of one term, each carrying `data`.
pub open spec fn filler(from: u64, to: u64, term: u64, data: Seq<u8>) -> Seq<EntryView> {
    Seq::new(
        (to - from + 1) as nat,
        |i: int| EntryView { index: (from + i) as u64, term, entry_type: EntryType::Normal, data },
    )
}

/// The entries that fill `v` up to `target`, each deleting the collection `name`.
pub open spec fn filler_for(v: ConsensusView, target: u64, name: Seq<u8>) -> Seq<EntryView> {
    filler(
        (last_index_or_zero(v) + 1) as u64,
        target,
        filler_term(v),
        op_bytes(OpView::DeleteCollection { name }),
    )
}

/// A filler batch fits whenever the log, the target, the segment size and the collection
/// name are all small enough to count in 32 bits; then `generate_filler` returns `Ok`.
pub proof fn lemma_filler_fits(v: ConsensusView, store: StoreView, target: u64, name: Seq<u8>)
    requires
        valid_log(v.offset, v.entries),
        last_index_or_zero(v) < target,
        v.entries.len() + target <= u32::MAX,
        store.segment_size + name.len() + 64 <= u32::MAX,
    ensures
        v.fits(store, filler_for(v, target, name)),
{
    let f = filler_for(v, target, name);
    let d = op_bytes(OpView::DeleteCollection { name });
    assert(d.len() == 10 + name.len());
    if v.entries.len() > 0 {
        assert(v.entries.last() == v.entries[v.entries.len() - 1]);
        assert(v.kept(f[0].index).len() <= v.entries.len());
    }
    assert forall|j: int| 0 <= j < f.len() implies store.segment_size + HEADER_LEN + entry_bytes(
        #[trigger] f[j],
    ).len() <= usize::MAX by {
        assert(f[j].data == d);
    }
}

/// Fills the log with entries that each delete the collection `name`, until the last index is
/// `target`. A log already at or past `target` is left as it is. The batch is written whole,
/// or, when it does not fit the store, not at all. The new entries follow the
/// last one, in its term (at least 1); on an empty log they start at index 1.
pub fn generate_filler(log: &mut ConsensusLog, target: u64, name: &Vec<u8>) -> (r: Result<
    (),
    ConsensusError,
>)
    requires
        old(log).wf(),
        target < u64::MAX,
    ensures
        final(log).wf(),
        last_index_or_zero(old(log)@) >= target ==> r is Ok && final(log)@ == old(log)@,
        last_index_or_zero(old(log)@) < target && old(log)@.fits(
            old(log).store_view(),
            filler_for(old(log)@, target, name@),
        ) ==> r is Ok && final(log)@ == old(log)@.append(filler_for(old(log)@, target, name@)),
        last_index_or_zero(old(log)@) < target && !old(log)@.fits(
            old(log).store_view(),
            filler_for(old(log)@, target, name@),
        ) ==> r == Err::<(), ConsensusError>(ConsensusError::Store(StoreError::Full))
            && final(log)@ == old(log)@,
{
    let (last_index, last_term) = match log.last_entry() {
        Some(e) => (e.index, e.term),
        None => (0, 0),
    };
    proof {
        log.lemma_valid();
    }
    if last_index >= target {
        return Ok(());
    }
    let term: u64 = if last_term < 1 { 1 } else { last_term };
    let data = encode(&ConsensusOperation::DeleteCollection { name: slice_to_vec(name.as_slice()) });
    let ghost d = op_bytes(OpView::DeleteCollection { name: name@ });
    let ghost want = filler((last_index + 1) as u64, target, term, d);
    let mut batch: Vec<ConsensusEntry> = Vec::new();
    let mut index: u64 = last_index + 1;
    while index <= target
        invariant
            last_index < index <= target + 1,
            target < u64::MAX,
            views(batch@) == want.take(index - last_index - 1),
            want == filler((last_index + 1) as u64, target, term, d),
            data@ == d,
        decreases target + 1 - index,
    {
        let copy = slice_to_vec(data.as_slice());
        let ghost before = views(batch@);
        let entry = ConsensusEntry { index, term, entry_type: EntryType::Normal, data: copy };
        let ghost j = index - last_index - 1;
        assert(want[j] == entry@);
        batch.push(entry);
        assert(views(batch@) =~= before.push(entry@));
        assert(want.take(j + 1) =~= want.take(j).push(want[j]));
        index = index + 1;
    }
    assert(want.take(index - last_index - 1) =~= want);
    proof {
        let v = log@;
        assert(want.len() > 0);
        assert(want[0].index == last_index + 1);
        if v.entries.len() > 0 {
            assert(v.kept((last_index + 1) as u64) =~= v.entries);
        }
        assert(v.accepts(want));
    }
    log.append_entries(&batch)
}

} // verus!
