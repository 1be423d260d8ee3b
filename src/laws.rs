//! Laws that relate the engine's operations.

use vstd::prelude::*;
use crate::engine::{lemma_replay_contains, put_all, record_key, replay, Engine};
use crate::log_key::pack_log_key;
use crate::record::{IndexKey, RecordView};

verus! {

/// In `put_all`, a record that no later record shares its key with decides
/// where that key points.
pub proof fn lemma_put_all_last(
    m: Map<IndexKey, u64>,
    recs: Seq<RecordView>,
    pk: int,
    seg: u16,
    start: int,
    j: int,
)
    requires
        0 <= j < recs.len(),
        record_key(recs[j], pk) is Some,
        forall|x: int| j < x < recs.len() ==> #[trigger] record_key(recs[x], pk) != record_key(recs[j], pk),
        forall|x: int| 0 <= x < recs.len() ==> #[trigger] record_key(recs[x], pk) is Some,
    ensures
        put_all(m, recs, pk, seg, start).contains_key(record_key(recs[j], pk)->Some_0),
        put_all(m, recs, pk, seg, start)[record_key(recs[j], pk)->Some_0] == pack_log_key(
            seg,
            (start + j) as u64,
        ),
    decreases recs.len(),
{
    let last = recs.len() - 1;
    if j < last {
        let d = recs.drop_last();
        assert(d[j] == recs[j]);
        assert forall|x: int| j < x < d.len() implies #[trigger] record_key(d[x], pk) != record_key(d[j], pk) by {
            assert(d[x] == recs[x]);
        }
        assert forall|x: int| 0 <= x < d.len() implies #[trigger] record_key(d[x], pk) is Some by {
            assert(d[x] == recs[x]);
        }
        lemma_put_all_last(m, d, pk, seg, start, j);
        assert(record_key(recs[last], pk) != record_key(recs[j], pk));
        assert(record_key(recs.last(), pk)->Some_0 != record_key(recs[j], pk)->Some_0);
    }
}

/// Last write wins: after a batch upsert, the key of a record that no later
/// record of the batch shares is found, through the primary index, at that
/// record's new row, and the row reads back the record as written.
pub proof fn lemma_last_write_wins(before: Engine, after: Engine, recs: Seq<RecordView>, j: int)
    requires
        after.upserted(&before, recs),
        0 <= j < recs.len(),
        forall|x: int|
            j < x < recs.len() ==> #[trigger] record_key(recs[x], before.pk_index()) != record_key(
                recs[j],
                before.pk_index(),
            ),
    ensures
        ({
            let a = before.active_num();
            let lk = pack_log_key(a as u16, (before.segment_rows(a) + j) as u64);
            let k = record_key(recs[j], before.pk_index())->Some_0;
            &&& after.lookup(before.spec_config().primary_key@, k) == seq![lk]
            &&& after.stored(lk) == Some(recs[j])
        }),
{
    let a = before.active_num();
    let pk = before.pk_index();
    assert(crate::engine::records_valid(before.spec_config().fields@, pk, recs));
    assert forall|x: int| 0 <= x < recs.len() implies #[trigger] record_key(recs[x], pk) is Some by {
        assert(crate::engine::record_valid(before.spec_config().fields@, recs[x]) && record_key(recs[x], pk) is Some);
    }
    lemma_put_all_last(before.primary_map(), recs, pk, a as u16, before.segment_rows(a), j);
}

/// After a delete-by, a find-by of the same value on the same field finds no
/// log key, hence no record: the delete left the value's index entry empty.
pub proof fn lemma_delete_then_find(after: Engine, field: Seq<char>, k: IndexKey)
    requires
        after.lookup(field, k) == Seq::<u64>::empty(),
    ensures
        after.tagged_lookup(field, seq![k]).len() == 0,
{
    let keys = seq![k];
    assert(keys.drop_last() =~= Seq::<IndexKey>::empty());
    assert(after.tagged_lookup(field, keys.drop_last()) =~= Seq::<(usize, u64)>::empty());
    assert(after.lookup(field, keys.last()).map_values(|lk: u64| ((keys.len() - 1) as usize, lk)).len() == 0);
}

/// Every written key is seen: an engine opened on a log, whose primary index
/// is the replay of the whole log, finds exactly one log key for each key
/// whose last row is a record rather than a tombstone.
pub proof fn lemma_opened_sees_written_keys(e: Engine, j: int)
    requires
        e.wf(),
        e.primary_map() == replay(Map::empty(), e.rows_after(1, 0), e.pk_index()),
        0 <= j < e.rows_after(1, 0).len(),
        !e.rows_after(1, 0)[j].1.tombstone,
        forall|x: int|
            0 <= x < e.rows_after(1, 0).len() ==> #[trigger] record_key(e.rows_after(1, 0)[x].1, e.pk_index()) is Some,
        forall|x: int|
            j < x < e.rows_after(1, 0).len() && #[trigger] record_key(e.rows_after(1, 0)[x].1, e.pk_index())
                == record_key(e.rows_after(1, 0)[j].1, e.pk_index()) ==> !e.rows_after(1, 0)[x].1.tombstone,
    ensures
        e.lookup(
            e.spec_config().primary_key@,
            record_key(e.rows_after(1, 0)[j].1, e.pk_index())->Some_0,
        ).len() == 1,
{
    lemma_replay_contains(Map::empty(), e.rows_after(1, 0), e.pk_index(), j);
}

/// Lookups follow index entries: two states whose index of `field` holds
/// the same entry for `w` find the same log keys for `w`. With the contract
/// of a delete-by, which keeps the entry of every other value, a find-by of a
/// value the delete did not name finds what it found before.
pub proof fn lemma_same_entry_same_lookup(a: Engine, b: Engine, field: Seq<char>, w: IndexKey)
    requires
        a.wf(),
        b.wf(),
        a.spec_config() == b.spec_config(),
        a.index_entry(field, w) == b.index_entry(field, w),
    ensures
        a.lookup(field, w).to_set() == b.lookup(field, w).to_set(),
{
    a.lemma_lookup_entry(field, w);
    b.lemma_lookup_entry(field, w);
}

} // verus!
