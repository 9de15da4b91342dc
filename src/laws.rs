//! Properties that hold across calls of the table's operations.

use vstd::prelude::*;

use crate::hasher::spec_hash_key;
use crate::slots::{
    count_occupied, entry_at, lemma_empty_slots_view, lemma_prefix_step, occupied, probe_index,
    slots_view, unique_keys, Slot,
};
use crate::table::{
    delete_result, grown_capacity, insert_result, spec_lookup, InsertError, InsertOutcome, Table,
};

verus! {

/// After a run of successful inserts into an empty table, every key looks
/// up to the value written last under it.
pub proof fn law_round_trip(tables: Seq<Table>, ops: Seq<(u32, u32)>, outcomes: Seq<InsertOutcome>)
    requires
        tables.len() == ops.len() + 1,
        outcomes.len() == ops.len(),
        tables[0]@ == Map::<u32, u32>::empty(),
        forall|i: int|
            0 <= i < ops.len() ==> insert_result(
                #[trigger] tables[i],
                tables[i + 1],
                ops[i].0,
                ops[i].1,
                Ok(outcomes[i]),
            ),
    ensures
        forall|i: int|
            0 <= i < ops.len() && (forall|j: int| i < j < ops.len() ==> ops[j].0 != ops[i].0)
                ==> spec_lookup(tables.last()@, #[trigger] ops[i].0) == Some(ops[i].1),
{
    lemma_round_trip_prefix(tables, ops, outcomes, ops.len() as int);
}

proof fn lemma_round_trip_prefix(
    tables: Seq<Table>,
    ops: Seq<(u32, u32)>,
    outcomes: Seq<InsertOutcome>,
    m: int,
)
    requires
        tables.len() == ops.len() + 1,
        outcomes.len() == ops.len(),
        forall|i: int|
            0 <= i < ops.len() ==> insert_result(
                #[trigger] tables[i],
                tables[i + 1],
                ops[i].0,
                ops[i].1,
                Ok(outcomes[i]),
            ),
        0 <= m <= ops.len(),
    ensures
        forall|i: int|
            0 <= i < m && (forall|j: int| i < j < m ==> ops[j].0 != ops[i].0) ==> spec_lookup(
                tables[m]@,
                #[trigger] ops[i].0,
            ) == Some(ops[i].1),
    decreases m,
{
    if m > 0 {
        lemma_round_trip_prefix(tables, ops, outcomes, m - 1);
        assert(insert_result(tables[m - 1], tables[m], ops[m - 1].0, ops[m - 1].1, Ok(outcomes[m - 1])));
        assert forall|i: int|
            0 <= i < m && (forall|j: int| i < j < m ==> ops[j].0 != ops[i].0) implies spec_lookup(
            tables[m]@,
            #[trigger] ops[i].0,
        ) == Some(ops[i].1) by {
            if i < m - 1 {
                assert(ops[m - 1].0 != ops[i].0);
                assert forall|j: int| i < j < m - 1 implies ops[j].0 != ops[i].0 by {}
            }
        }
    }
}

/// Inserting a key that is present, into a table whose capacity can grow as
/// far as the load factor asks, reports an update, stores the new value,
/// keeps every other mapping and keeps the number of entries.
pub proof fn law_overwrite(
    before: Table,
    after: Table,
    key: u32,
    value: u32,
    r: Result<InsertOutcome, InsertError>,
)
    requires
        before@.contains_key(key),
        grown_capacity(
            before.spec_len(),
            before.spec_capacity(),
            before.spec_load_num(),
            before.spec_load_den(),
        ) <= usize::MAX,
        insert_result(before, after, key, value, r),
    ensures
        r == Ok::<InsertOutcome, InsertError>(InsertOutcome::Updated),
        spec_lookup(after@, key) == Some(value),
        forall|k: u32| k != key ==> spec_lookup(#[trigger] after@, k) == spec_lookup(before@, k),
        after.spec_len() == before.spec_len(),
{
}

/// The number of entries of a well-formed table is the number of keys of
/// its map, whose domain is finite.
pub proof fn law_len_is_key_count(t: Table)
    requires
        t.wf(),
    ensures
        t@.dom().finite(),
        t.spec_len() == t@.len(),
{
    let s = t.slots_seq();
    lemma_prefix_key_count(s, s.len() as int);
    assert(s.subrange(0, s.len() as int) =~= s);
}

proof fn lemma_prefix_key_count(s: Seq<Slot>, i: int)
    requires
        unique_keys(s),
        0 <= i <= s.len(),
    ensures
        slots_view(s.subrange(0, i)).dom().finite(),
        slots_view(s.subrange(0, i)).len() == count_occupied(s.subrange(0, i)),
    decreases i,
{
    if i == 0 {
        lemma_empty_slots_view(s.subrange(0, 0));
    } else {
        lemma_prefix_key_count(s, i - 1);
        lemma_prefix_step(s, i - 1);
    }
}

/// After a delete that found its key, the key is absent and the table holds
/// one entry fewer.
pub proof fn law_delete_then_lookup(before: Table, after: Table, key: u32, removed: u32)
    requires
        before.wf(),
        delete_result(before, after, key, Some(removed)),
    ensures
        spec_lookup(after@, key) is None,
        after.spec_len() + 1 == before.spec_len(),
{
    assert(before@.contains_key(key));
}

/// In every well-formed table, which each operation keeps well-formed, each
/// entry sits `probe_distance` slots past the home slot of its key's hash,
/// and no key is stored twice.
pub proof fn law_slots_invariant(t: Table)
    requires
        t.wf(),
    ensures
        forall|i: int|
            #![trigger occupied(t.slots_seq(), i)]
            occupied(t.slots_seq(), i) ==> {
                let e = entry_at(t.slots_seq(), i);
                &&& e.hash == spec_hash_key(e.key)
                &&& i == (e.hash as nat % t.spec_capacity() + e.probe_distance as nat) % t.spec_capacity()
            },
        unique_keys(t.slots_seq()),
{
    assert forall|i: int| #![trigger occupied(t.slots_seq(), i)] occupied(t.slots_seq(), i) implies {
        let e = entry_at(t.slots_seq(), i);
        &&& e.hash == spec_hash_key(e.key)
        &&& i == (e.hash as nat % t.spec_capacity() + e.probe_distance as nat) % t.spec_capacity()
    } by {
        let e = entry_at(t.slots_seq(), i);
        assert(i == probe_index(e.hash, e.probe_distance as nat, t.spec_capacity()));
    }
}

/// A well-formed table, as every insert leaves it, holds at most
/// `capacity * load_num / load_den` entries.
pub proof fn law_load_bound(t: Table)
    requires
        t.wf(),
    ensures
        t.spec_len() * t.spec_load_den() <= t.spec_capacity() * t.spec_load_num(),
{
}

/// An insert that grows the table keeps every other mapping exactly.
pub proof fn law_grow_keeps_entries(
    before: Table,
    after: Table,
    key: u32,
    value: u32,
    outcome: InsertOutcome,
)
    requires
        insert_result(before, after, key, value, Ok(outcome)),
        after.spec_capacity() > before.spec_capacity(),
    ensures
        forall|k: u32|
            k != key ==> spec_lookup(#[trigger] after@, k) == spec_lookup(before@, k),
        spec_lookup(after@, key) == Some(value),
{
}

} // verus!
