//! One of the two buffers: a slot container plus a *ready* flag.
//!
//! A buffer that has never been through a refresh is not ready; readers treat
//! it as absent. The writer marks its buffer ready on every refresh, and the
//! flag never goes back to false.

use crate::slots::map_of;
use crate::slots::sp_clear;
use crate::slots::sp_insert;
use crate::slots::sp_remove;
use crate::slots::sp_replace;
use crate::slots::wf_state;
use crate::slots::MapState;
use crate::slots::SlotKey;
use crate::slots::SlotMap;
use vstd::prelude::*;

verus! {

/// The one operation a write stages between two buffer swaps.
#[derive(Clone, Copy, Debug)]
pub enum Operation<V> {
    /// Refresh without altering the data.
    NoOp,
    /// Replace the value under this key with this value.
    Replace(SlotKey, V),
    /// Add this value to the map.
    Add(V),
    /// Remove the value under this key from the map.
    Remove(SlotKey),
    /// Clear the map.
    Clear,
}

/// What an operation does to a slot-container state, and the key an addition
/// returns.
pub open spec fn sp_apply<V>(m: MapState<V>, op: Operation<V>) -> (MapState<V>, Option<SlotKey>) {
    match op {
        Operation::NoOp => (m, None),
        Operation::Add(v) => {
            let r = sp_insert(m, v);
            (r.0, Some(r.1))
        },
        Operation::Replace(k, v) => (sp_replace(m, k, v), None),
        Operation::Remove(k) => (sp_remove(m, k), None),
        Operation::Clear => (sp_clear(m), None),
    }
}

/// Whether an operation may be applied to a state: an addition needs room
/// for one more slot, and a replacement needs its key to be live. The other
/// operations apply to any state.
pub open spec fn sp_apply_ok<V>(m: MapState<V>, op: Operation<V>) -> bool {
    match op {
        Operation::Add(_) => m.slots.len() < usize::MAX,
        Operation::Replace(k, _) => map_of(m.slots).contains_key(k),
        _ => true,
    }
}

/// Whether an operation may be staged against a state so that both its
/// applications succeed: an addition must leave the slot count within the
/// machine limit, and a replacement needs its key to be live.
pub open spec fn sp_stage_ok<V>(m: MapState<V>, op: Operation<V>) -> bool {
    match op {
        Operation::Add(_) => m.slots.len() + 1 < usize::MAX,
        Operation::Replace(k, _) => map_of(m.slots).contains_key(k),
        _ => true,
    }
}

/// One buffer: a slot container and its ready flag.
pub struct Inner<V> {
    pub(crate) data: SlotMap<V>,
    pub(crate) ready: bool,
}

impl<V> Inner<V> {
    /// The state of the buffer's slot container.
    pub closed spec fn state(self) -> MapState<V> {
        self.data.state()
    }

    /// The mapping the buffer holds.
    pub open spec fn view_map(self) -> Map<SlotKey, V> {
        map_of(self.state().slots)
    }

    /// Whether the buffer has been through a refresh.
    pub closed spec fn spec_ready(self) -> bool {
        self.ready
    }

    /// Structural validity of the buffer's container.
    pub open spec fn wf(self) -> bool {
        wf_state(self.state())
    }

    /// A fresh buffer: empty and not yet refreshed.
    pub fn new() -> (r: Self)
        ensures
            r.wf(),
            r.state() == crate::slots::empty_state::<V>(),
            !r.spec_ready(),
    {
        Inner { data: SlotMap::new(), ready: false }
    }

    /// A buffer that already holds data and counts as refreshed; used when a
    /// map is created from an existing container.
    pub fn new_ready(data: SlotMap<V>) -> (r: Self)
        ensures
            r.state() == data.state(),
            r.spec_ready(),
    {
        Inner { data, ready: true }
    }

    /// Mark the buffer as having been refreshed.
    pub fn mark_ready(&mut self)
        ensures
            final(self).state() == old(self).state(),
            final(self).spec_ready(),
    {
        self.ready = true;
    }

    /// Whether the buffer has been through a refresh.
    pub fn is_ready(&self) -> (r: bool)
        ensures
            r == self.spec_ready(),
    {
        self.ready
    }
}

impl<V> Inner<V> {
    /// The number of live slots in the buffer.
    pub fn len(&self) -> (r: usize)
        ensures
            r == self.state().len,
    {
        self.data.len()
    }

    /// Whether the key matches a live slot of the buffer.
    pub fn contains_key(&self, k: SlotKey) -> (r: bool)
        ensures
            r == self.view_map().contains_key(k),
    {
        self.data.contains_key(k)
    }
}

impl<V: Copy> Inner<V> {
    /// Look up the value stored under the key, if the key still matches.
    pub fn get(&self, k: SlotKey) -> (r: Option<V>)
        requires
            self.wf(),
        ensures
            r == if self.view_map().contains_key(k) {
                Some(self.view_map()[k])
            } else {
                None::<V>
            },
    {
        self.data.get(k)
    }

    /// The key and value of every live slot, in slot order.
    pub fn entries(&self) -> (r: Vec<(SlotKey, V)>)
        requires
            self.wf(),
        ensures
            crate::slots::entries_to_map(r@) == self.view_map(),
            r@.len() == self.state().len,
            forall|i: int, j: int| 0 <= i < j < r@.len() ==> r@[i].0.index < r@[j].0.index,
            forall|i: int, j: int| 0 <= i < j < r@.len() ==> r@[i].0 != r@[j].0,
            forall|i: int| 0 <= i < r@.len() ==> (#[trigger] r@[i]).0.index < usize::MAX,
            forall|i: int| 0 <= i < r@.len() ==> (#[trigger] r@[i]).0.generation % 2 == 0,
            forall|i: int|
                0 <= i < r@.len() ==> self.view_map().contains_pair((#[trigger] r@[i]).0, r@[i].1),
    {
        self.data.entries()
    }

    /// Run one staged operation on this buffer. Both buffers receive every
    /// operation exactly once, in the same order; equal states stay equal,
    /// keys allocated included.
    pub fn apply(&mut self, op: &Operation<V>) -> (r: Option<SlotKey>)
        requires
            old(self).wf(),
            sp_apply_ok(old(self).state(), *op),
        ensures
            final(self).wf(),
            final(self).state() == sp_apply(old(self).state(), *op).0,
            r == sp_apply(old(self).state(), *op).1,
            final(self).spec_ready() == old(self).spec_ready(),
    {
        match op {
            Operation::NoOp => None,
            Operation::Add(v) => {
                let k = self.data.insert(*v);
                Some(k)
            },
            Operation::Replace(k, v) => {
                self.data.replace(*k, *v);
                None
            },
            Operation::Remove(k) => {
                let _ = self.data.remove_key(*k);
                None
            },
            Operation::Clear => {
                self.data.clear();
                None
            },
        }
    }
}

} // verus!
