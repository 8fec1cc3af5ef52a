//! Last-writer-wins merging of records received from a peer.
//!
//! A record replaces the local one with the same id exactly when its
//! `(updated_at, source_device)` pair is greater, both compared as the bytes of
//! their stored text; the device breaks ties between equal timestamps.

use vstd::prelude::*;
use crate::model::{MergeSummary, Task, TimeEntry};
use crate::text::{bytes_equal, bytes_less, bytes_lt, lemma_bytes_lt_irreflexive,
    lemma_bytes_lt_total, lemma_bytes_lt_transitive};
use crate::time::{format_time, Timestamp};
use vstd::utf8::encode_utf8;

verus! {

/// The version of a record as it is compared: the bytes of its stored
/// `updated_at` text and of its source device.
pub type VersionKey = (Seq<u8>, Seq<u8>);

/// The version key of a stored `updated_at` text and source device.
pub open spec fn version_key(updated_at: Seq<char>, device: Seq<char>) -> VersionKey {
    (encode_utf8(updated_at), encode_utf8(device))
}

/// Lexicographic order on version keys: by time text, then by device.
pub open spec fn key_lt(a: VersionKey, b: VersionKey) -> bool {
    bytes_lt(a.0, b.0) || (a.0 == b.0 && bytes_lt(a.1, b.1))
}

/// Whether an incoming version replaces what the local store holds for its
/// id (`None` when it holds nothing).
pub open spec fn supersedes(local: Option<VersionKey>, incoming: VersionKey) -> bool {
    match local {
        None => true,
        Some(held) => key_lt(held, incoming),
    }
}

/// The version key of what the local store reports for a record.
pub open spec fn stored_key(local: Option<(String, String)>) -> Option<VersionKey> {
    match local {
        None => None,
        Some(pair) => Some(version_key(pair.0@, pair.1@)),
    }
}

/// The version key under which a record with this update time and device is
/// stored.
pub open spec fn incoming_key(updated_at: Timestamp, device: Seq<char>) -> VersionKey {
    version_key(updated_at.text(), device)
}

/// Whether an incoming record replaces the local one, given what the store
/// holds for its id (`(updated_at text, source device)`, or nothing).
pub fn is_newer(local: Option<(String, String)>, incoming_time: Timestamp, incoming_device: &str) -> (res: bool)
    ensures
        res == supersedes(stored_key(local), incoming_key(incoming_time, incoming_device@)),
{
    match local {
        None => true,
        Some(pair) => {
            let incoming_text = format_time(incoming_time);
            let it = incoming_text.as_str();
            let lt = pair.0.as_str();
            let ld = pair.1.as_str();
            if bytes_less(lt.as_bytes(), it.as_bytes()) {
                true
            } else if bytes_equal(lt.as_bytes(), it.as_bytes()) {
                bytes_less(ld.as_bytes(), incoming_device.as_bytes())
            } else {
                false
            }
        },
    }
}

/// A merge in progress: counts the incoming records that replace local ones.
pub struct MergeRun {
    pub summary: MergeSummary,
}

impl MergeRun {
    /// A merge that has applied nothing yet.
    pub fn new() -> (res: MergeRun)
        ensures
            res.summary.tasks_applied == 0,
            res.summary.entries_applied == 0,
    {
        MergeRun { summary: MergeSummary { tasks_applied: 0, entries_applied: 0 } }
    }

    /// Decides whether an incoming task replaces the local one (given what the
    /// store holds for its id) and counts it when it does.
    pub fn offer_task(&mut self, local: Option<(String, String)>, incoming: &Task) -> (apply: bool)
        requires
            old(self).summary.tasks_applied < usize::MAX,
        ensures
            apply == supersedes(stored_key(local), incoming_key(incoming.updated_at, incoming.source_device@)),
            final(self).summary.tasks_applied == old(self).summary.tasks_applied + if apply { 1int } else { 0int },
            final(self).summary.entries_applied == old(self).summary.entries_applied,
    {
        let apply = is_newer(local, incoming.updated_at, incoming.source_device.as_str());
        if apply {
            self.summary.tasks_applied = self.summary.tasks_applied + 1;
        }
        apply
    }

    /// Decides whether an incoming time entry replaces the local one (given
    /// what the store holds for its id) and counts it when it does.
    pub fn offer_entry(&mut self, local: Option<(String, String)>, incoming: &TimeEntry) -> (apply: bool)
        requires
            old(self).summary.entries_applied < usize::MAX,
        ensures
            apply == supersedes(stored_key(local), incoming_key(incoming.updated_at, incoming.source_device@)),
            final(self).summary.entries_applied == old(self).summary.entries_applied + if apply { 1int } else { 0int },
            final(self).summary.tasks_applied == old(self).summary.tasks_applied,
    {
        let apply = is_newer(local, incoming.updated_at, incoming.source_device.as_str());
        if apply {
            self.summary.entries_applied = self.summary.entries_applied + 1;
        }
        apply
    }

    /// The counts of the finished merge.
    pub fn finish(self) -> (res: MergeSummary)
        ensures
            res == self.summary,
    {
        self.summary
    }
}

// The model of a store's versions: for each record id, the version key it holds.

/// What the store holds for an id, if anything.
pub open spec fn held(table: Map<Seq<char>, VersionKey>, id: Seq<char>) -> Option<VersionKey> {
    if table.contains_key(id) {
        Some(table[id])
    } else {
        None
    }
}

/// The store after offering one record: written when it supersedes.
pub open spec fn merge_step(table: Map<Seq<char>, VersionKey>, id: Seq<char>, key: VersionKey) -> Map<Seq<char>, VersionKey> {
    if supersedes(held(table, id), key) {
        table.insert(id, key)
    } else {
        table
    }
}

/// The store after offering a batch of `(id, version)` records in order.
pub open spec fn merge_all(table: Map<Seq<char>, VersionKey>, batch: Seq<(Seq<char>, VersionKey)>) -> Map<Seq<char>, VersionKey>
    decreases batch.len(),
{
    if batch.len() == 0 {
        table
    } else {
        merge_all(merge_step(table, batch[0].0, batch[0].1), batch.drop_first())
    }
}

/// How many records of a batch are written when it is offered in order.
pub open spec fn applied_count(table: Map<Seq<char>, VersionKey>, batch: Seq<(Seq<char>, VersionKey)>) -> nat
    decreases batch.len(),
{
    if batch.len() == 0 {
        0
    } else {
        (if supersedes(held(table, batch[0].0), batch[0].1) { 1nat } else { 0nat })
            + applied_count(merge_step(table, batch[0].0, batch[0].1), batch.drop_first())
    }
}

/// The store holds a version of `id` that is at least `key`.
pub open spec fn covers(table: Map<Seq<char>, VersionKey>, id: Seq<char>, key: VersionKey) -> bool {
    table.contains_key(id) && !key_lt(table[id], key)
}

proof fn lemma_key_lt_transitive(a: VersionKey, b: VersionKey, c: VersionKey)
    requires
        key_lt(a, b),
        key_lt(b, c),
    ensures
        key_lt(a, c),
{
    if bytes_lt(a.0, b.0) && bytes_lt(b.0, c.0) {
        lemma_bytes_lt_transitive(a.0, b.0, c.0);
    } else if bytes_lt(a.0, b.0) {
    } else if bytes_lt(b.0, c.0) {
    } else {
        lemma_bytes_lt_transitive(a.1, b.1, c.1);
    }
}

proof fn lemma_key_lt_irreflexive(a: VersionKey)
    ensures
        !key_lt(a, a),
{
    lemma_bytes_lt_irreflexive(a.0);
    lemma_bytes_lt_irreflexive(a.1);
}

proof fn lemma_key_lt_total(a: VersionKey, b: VersionKey)
    requires
        a != b,
    ensures
        key_lt(a, b) || key_lt(b, a),
{
    if a.0 != b.0 {
        lemma_bytes_lt_total(a.0, b.0);
    } else {
        assert(a.1 != b.1);
        lemma_bytes_lt_total(a.1, b.1);
    }
}

proof fn lemma_step_keeps_cover(table: Map<Seq<char>, VersionKey>, id: Seq<char>, key: VersionKey, other: Seq<char>, k: VersionKey)
    requires
        covers(table, other, k),
    ensures
        covers(merge_step(table, id, key), other, k),
{
    if supersedes(held(table, id), key) && other == id {
        if key_lt(key, k) {
            lemma_key_lt_transitive(table[id], key, k);
        }
    }
}

proof fn lemma_step_covers_itself(table: Map<Seq<char>, VersionKey>, id: Seq<char>, key: VersionKey)
    ensures
        covers(merge_step(table, id, key), id, key),
{
    lemma_key_lt_irreflexive(key);
}

proof fn lemma_merge_keeps_cover(table: Map<Seq<char>, VersionKey>, batch: Seq<(Seq<char>, VersionKey)>, id: Seq<char>, k: VersionKey)
    requires
        covers(table, id, k),
    ensures
        covers(merge_all(table, batch), id, k),
    decreases batch.len(),
{
    if batch.len() > 0 {
        lemma_step_keeps_cover(table, batch[0].0, batch[0].1, id, k);
        lemma_merge_keeps_cover(merge_step(table, batch[0].0, batch[0].1), batch.drop_first(), id, k);
    }
}

/// After a batch is merged, the store holds for each record of the batch a
/// version at least as new as that record's: the greatest version wins.
pub proof fn lemma_merge_covers_batch(table: Map<Seq<char>, VersionKey>, batch: Seq<(Seq<char>, VersionKey)>)
    ensures
        forall|i: int| 0 <= i < batch.len() ==> covers(merge_all(table, batch), #[trigger] batch[i].0, batch[i].1),
    decreases batch.len(),
{
    if batch.len() > 0 {
        let next = merge_step(table, batch[0].0, batch[0].1);
        lemma_merge_covers_batch(next, batch.drop_first());
        lemma_step_covers_itself(table, batch[0].0, batch[0].1);
        lemma_merge_keeps_cover(next, batch.drop_first(), batch[0].0, batch[0].1);
        assert forall|i: int| 0 <= i < batch.len() implies covers(merge_all(table, batch), #[trigger] batch[i].0, batch[i].1) by {
            if i > 0 {
                assert(batch[i] == batch.drop_first()[i - 1]);
            }
        }
    }
}

proof fn lemma_covered_batch_changes_nothing(table: Map<Seq<char>, VersionKey>, batch: Seq<(Seq<char>, VersionKey)>)
    requires
        forall|i: int| 0 <= i < batch.len() ==> covers(table, #[trigger] batch[i].0, batch[i].1),
    ensures
        merge_all(table, batch) == table,
        applied_count(table, batch) == 0,
    decreases batch.len(),
{
    if batch.len() > 0 {
        assert(covers(table, batch[0].0, batch[0].1));
        assert(merge_step(table, batch[0].0, batch[0].1) == table);
        assert forall|i: int| 0 <= i < batch.drop_first().len() implies covers(table, #[trigger] batch.drop_first()[i].0, batch.drop_first()[i].1) by {
            assert(batch.drop_first()[i] == batch[i + 1]);
        }
        lemma_covered_batch_changes_nothing(table, batch.drop_first());
    }
}

/// Merging the same batch a second time writes nothing and leaves the store
/// as the first merge left it: repeating a sync makes no further changes.
pub proof fn lemma_merge_idempotent(table: Map<Seq<char>, VersionKey>, batch: Seq<(Seq<char>, VersionKey)>)
    ensures
        applied_count(merge_all(table, batch), batch) == 0,
        merge_all(merge_all(table, batch), batch) == merge_all(table, batch),
{
    lemma_merge_covers_batch(table, batch);
    lemma_covered_batch_changes_nothing(merge_all(table, batch), batch);
}

proof fn lemma_steps_commute(table: Map<Seq<char>, VersionKey>, i1: Seq<char>, k1: VersionKey, i2: Seq<char>, k2: VersionKey)
    ensures
        merge_step(merge_step(table, i1, k1), i2, k2) =~= merge_step(merge_step(table, i2, k2), i1, k1),
{
    if i1 == i2 {
        if k1 != k2 {
            lemma_key_lt_total(k1, k2);
        }
        if table.contains_key(i1) {
            let h = table[i1];
            if key_lt(h, k1) && key_lt(k1, k2) {
                lemma_key_lt_transitive(h, k1, k2);
            }
            if key_lt(h, k2) && key_lt(k2, k1) {
                lemma_key_lt_transitive(h, k2, k1);
            }
            if key_lt(k1, h) && key_lt(h, k2) {
                lemma_key_lt_transitive(k1, h, k2);
            }
            if key_lt(k2, h) && key_lt(h, k1) {
                lemma_key_lt_transitive(k2, h, k1);
            }
            if h != k1 {
                lemma_key_lt_total(h, k1);
            }
            if h != k2 {
                lemma_key_lt_total(h, k2);
            }
            if key_lt(k1, k2) {
                if key_lt(k2, k1) {
                    lemma_key_lt_transitive(k1, k2, k1);
                    lemma_key_lt_irreflexive(k1);
                }
            }
        } else {
            if key_lt(k1, k2) && key_lt(k2, k1) {
                lemma_key_lt_transitive(k1, k2, k1);
                lemma_key_lt_irreflexive(k1);
            }
        }
    }
}

proof fn lemma_step_commutes_with_merge(table: Map<Seq<char>, VersionKey>, id: Seq<char>, key: VersionKey, batch: Seq<(Seq<char>, VersionKey)>)
    ensures
        merge_step(merge_all(table, batch), id, key) == merge_all(merge_step(table, id, key), batch),
    decreases batch.len(),
{
    if batch.len() > 0 {
        let (i0, k0) = batch[0];
        lemma_step_commutes_with_merge(merge_step(table, i0, k0), id, key, batch.drop_first());
        lemma_steps_commute(table, i0, k0, id, key);
    }
}

/// Merging two batches gives the same store in either order: peers that
/// exchange their records converge, whoever syncs first.
pub proof fn lemma_merge_order_independent(
    table: Map<Seq<char>, VersionKey>,
    first: Seq<(Seq<char>, VersionKey)>,
    second: Seq<(Seq<char>, VersionKey)>,
)
    ensures
        merge_all(merge_all(table, first), second) == merge_all(merge_all(table, second), first),
    decreases first.len(),
{
    if first.len() > 0 {
        let (i0, k0) = first[0];
        let next = merge_step(table, i0, k0);
        lemma_merge_order_independent(next, first.drop_first(), second);
        lemma_step_commutes_with_merge(table, i0, k0, second);
    }
}

/// `batch` lists the records of a store: each entry is one of the store's
/// records with the version it holds, and every record of the store is among
/// them.
pub open spec fn lists(table: Map<Seq<char>, VersionKey>, batch: Seq<(Seq<char>, VersionKey)>) -> bool {
    &&& forall|i: int| 0 <= i < batch.len() ==>
            table.contains_key((#[trigger] batch[i]).0) && table[batch[i].0] == batch[i].1
    &&& forall|id: Seq<char>| #[trigger] table.contains_key(id) ==>
            exists|i: int| 0 <= i < batch.len() && (#[trigger] batch[i]).0 == id
}

/// Every version that `result` holds is the one that `a` or `b` holds for
/// that id.
pub open spec fn held_by_either(
    result: Map<Seq<char>, VersionKey>,
    a: Map<Seq<char>, VersionKey>,
    b: Map<Seq<char>, VersionKey>,
) -> bool {
    forall|id: Seq<char>| #[trigger] result.contains_key(id) ==>
        (a.contains_key(id) && result[id] == a[id]) || (b.contains_key(id) && result[id] == b[id])
}

proof fn lemma_merge_sources(
    table: Map<Seq<char>, VersionKey>,
    batch: Seq<(Seq<char>, VersionKey)>,
    other: Map<Seq<char>, VersionKey>,
)
    requires
        forall|i: int| 0 <= i < batch.len() ==>
            other.contains_key((#[trigger] batch[i]).0) && other[batch[i].0] == batch[i].1,
    ensures
        held_by_either(merge_all(table, batch), table, other),
    decreases batch.len(),
{
    if batch.len() > 0 {
        let next = merge_step(table, batch[0].0, batch[0].1);
        assert(other.contains_key(batch[0].0) && other[batch[0].0] == batch[0].1);
        assert forall|i: int| 0 <= i < batch.drop_first().len() implies
            other.contains_key((#[trigger] batch.drop_first()[i]).0) && other[batch.drop_first()[i].0] == batch.drop_first()[i].1 by {
            assert(batch.drop_first()[i] == batch[i + 1]);
        }
        lemma_merge_sources(next, batch.drop_first(), other);
        let result = merge_all(table, batch);
        assert forall|id: Seq<char>| #[trigger] result.contains_key(id) implies
            (table.contains_key(id) && result[id] == table[id]) || (other.contains_key(id) && result[id] == other[id]) by {
            if !(other.contains_key(id) && result[id] == other[id]) {
                assert(next.contains_key(id) && result[id] == next[id]);
            }
        }
    }
}

/// A store is what merging the list of its own records into an empty store
/// gives.
pub proof fn lemma_store_is_merge_of_its_records(store: Map<Seq<char>, VersionKey>, records: Seq<(Seq<char>, VersionKey)>)
    requires
        lists(store, records),
    ensures
        merge_all(Map::empty(), records) == store,
{
    let empty = Map::<Seq<char>, VersionKey>::empty();
    let built = merge_all(empty, records);
    lemma_merge_sources(empty, records, store);
    lemma_merge_covers_batch(empty, records);
    assert forall|id: Seq<char>| #[trigger] store.contains_key(id) implies built.contains_key(id) by {
        let i = choose|i: int| 0 <= i < records.len() && (#[trigger] records[i]).0 == id;
        assert(covers(built, records[i].0, records[i].1));
    }
    assert(built =~= store);
}

/// Two stores that merge each other's records converge: each ends with every
/// id that either held, at the greater of the two versions (every version it
/// holds is one of theirs and none of theirs is newer), and both end equal.
pub proof fn lemma_stores_converge(
    a: Map<Seq<char>, VersionKey>,
    b: Map<Seq<char>, VersionKey>,
    records_a: Seq<(Seq<char>, VersionKey)>,
    records_b: Seq<(Seq<char>, VersionKey)>,
)
    requires
        lists(a, records_a),
        lists(b, records_b),
    ensures
        merge_all(a, records_b) == merge_all(b, records_a),
        held_by_either(merge_all(a, records_b), a, b),
        forall|id: Seq<char>| #[trigger] a.contains_key(id) ==> covers(merge_all(a, records_b), id, a[id]),
        forall|id: Seq<char>| #[trigger] b.contains_key(id) ==> covers(merge_all(a, records_b), id, b[id]),
{
    let empty = Map::<Seq<char>, VersionKey>::empty();
    lemma_store_is_merge_of_its_records(a, records_a);
    lemma_store_is_merge_of_its_records(b, records_b);
    lemma_merge_order_independent(empty, records_a, records_b);
    let result = merge_all(a, records_b);
    lemma_merge_sources(a, records_b, b);
    lemma_merge_covers_batch(a, records_b);
    assert forall|id: Seq<char>| #[trigger] a.contains_key(id) implies covers(result, id, a[id]) by {
        lemma_key_lt_irreflexive(a[id]);
        lemma_merge_keeps_cover(a, records_b, id, a[id]);
    }
    assert forall|id: Seq<char>| #[trigger] b.contains_key(id) implies covers(result, id, b[id]) by {
        let i = choose|i: int| 0 <= i < records_b.len() && (#[trigger] records_b[i]).0 == id;
        assert(covers(result, records_b[i].0, records_b[i].1));
    }
}

} // verus!
