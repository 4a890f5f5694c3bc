//! The map's laws: statements that relate several operations, proved over
//! the same state transitions the executable operations are specified by.

use crate::inner::sp_apply;
use crate::inner::sp_apply_ok;
use crate::inner::Operation;
use crate::slots::lemma_sp_clear;
use crate::slots::lemma_sp_insert;
use crate::slots::lemma_sp_remove;
use crate::slots::lemma_sp_replace;
use crate::slots::map_of;
use crate::slots::sp_clear;
use crate::slots::sp_insert;
use crate::slots::sp_remove;
use crate::slots::wf_state;
use crate::slots::MapState;
use crate::slots::SlotKey;
use vstd::prelude::*;

verus! {

/// The state reached by running a sequence of operations, in order, from an
/// initial container state: what the front buffer holds after the last of
/// them has completed its refresh.
pub open spec fn sp_run<V>(m0: MapState<V>, ops: Seq<Operation<V>>) -> MapState<V>
    decreases ops.len(),
{
    if ops.len() == 0 {
        m0
    } else {
        sp_apply(sp_run(m0, ops.drop_last()), ops.last()).0
    }
}

/// A completed write is observed by every read that follows it: the key it
/// wrote is present in the mapping readers see, and carries the written
/// value. Each write refreshes before returning, so the front buffer — the
/// mapping below — already reflects it when the write returns.
pub proof fn lemma_write_visible<V>(m: Map<SlotKey, V>, k: SlotKey, v: V)
    ensures
        m.insert(k, v).contains_key(k),
        m.insert(k, v)[k] == v,
{
}

/// A key stays valid until a removal targets it or the map is cleared: any
/// other operation keeps the key live, and keeps its value unless the
/// operation replaces that very key.
pub proof fn lemma_key_survives<V>(m: MapState<V>, op: Operation<V>, k: SlotKey)
    requires
        wf_state(m),
        map_of(m.slots).contains_key(k),
        sp_apply_ok(m, op),
        !(op matches Operation::Remove(k2) && k2 == k),
        !(op is Clear),
    ensures
        map_of(sp_apply(m, op).0.slots).contains_key(k),
        !(op matches Operation::Replace(k2, _) && k2 == k) ==> map_of(sp_apply(m, op).0.slots)[k]
            == map_of(m.slots)[k],
{
    match op {
        Operation::NoOp => {},
        Operation::Add(v) => {
            lemma_sp_insert(m, v);
        },
        Operation::Replace(k2, v) => {
            lemma_sp_replace(m, k2, v);
        },
        Operation::Remove(k2) => {
            lemma_sp_remove(m, k2);
        },
        Operation::Clear => {},
    }
}

/// No operation ever lowers a slot's generation counter, and slots are never
/// deallocated. Together with [`lemma_insert_key_new`] this is why a key is
/// unique over the life of the map: a later insertion into the same slot
/// carries a strictly larger generation, and retired slots are never reused.
pub proof fn lemma_generation_monotone<V>(m: MapState<V>, op: Operation<V>, i: int)
    requires
        wf_state(m),
        sp_apply_ok(m, op),
        0 <= i < m.slots.len(),
    ensures
        m.slots.len() <= sp_apply(m, op).0.slots.len(),
        m.slots[i].generation <= sp_apply(m, op).0.slots[i].generation,
{
    match op {
        Operation::NoOp => {},
        Operation::Add(v) => {},
        Operation::Replace(k, v) => {},
        Operation::Remove(k) => {},
        Operation::Clear => {},
    }
}

/// The key an insertion returns names the generation its slot now carries,
/// and that generation is strictly larger than anything the slot carried
/// before — or the slot itself is brand new.
pub proof fn lemma_insert_key_new<V>(m: MapState<V>, v: V)
    requires
        wf_state(m),
        m.slots.len() < usize::MAX,
    ensures
        ({
            let (m2, k) = sp_insert(m, v);
            &&& k.generation == m2.slots[k.index as int].generation
            &&& k.index < m.slots.len() ==> m.slots[k.index as int].generation < k.generation
            &&& k.index >= m.slots.len() ==> k.generation == 0 && m2.slots.len() == m.slots.len()
                + 1
        }),
{
    lemma_sp_insert(m, v);
}

/// An insertion followed by the removal of the returned key leaves both the
/// length and the whole mapping as they were.
pub proof fn lemma_insert_remove_len<V>(m: MapState<V>, v: V)
    requires
        wf_state(m),
        m.slots.len() < usize::MAX,
    ensures
        sp_remove(sp_insert(m, v).0, sp_insert(m, v).1).len == m.len,
        map_of(sp_remove(sp_insert(m, v).0, sp_insert(m, v).1).slots) == map_of(m.slots),
{
    let (m1, k) = sp_insert(m, v);
    lemma_sp_insert(m, v);
    lemma_sp_remove(m1, k);
    assert(map_of(m.slots).insert(k, v).remove(k) =~= map_of(m.slots));
}

/// Clearing an already cleared map changes nothing a reader can observe:
/// the mapping stays empty and the length stays zero.
pub proof fn lemma_clear_idempotent<V>(m: MapState<V>)
    requires
        wf_state(m),
    ensures
        map_of(sp_clear(sp_clear(m)).slots) == map_of(sp_clear(m).slots),
        sp_clear(sp_clear(m)).len == sp_clear(m).len,
        map_of(sp_clear(m).slots) == Map::<SlotKey, V>::empty(),
{
    lemma_sp_clear(m);
    lemma_sp_clear(sp_clear(m));
}

} // verus!
