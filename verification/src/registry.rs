//! The epoch registry: a dense table of the readers' published epochs.
//!
//! Readers insert themselves on creation and remove themselves on drop; the
//! writer walks the table during its quiescence scan. The table is the
//! `slab` crate's slab, held behind trusted declarations: what it contains is
//! named by [`slab_epochs`], and each method the registry uses carries the
//! contract the slab's source shows.

use vstd::prelude::*;

verus! {

#[verifier::external_type_specification]
#[verifier::external_body]
#[verifier::reject_recursive_types(T)]
pub struct ExSlab<T>(slab::Slab<T>);

/// What the registry slab holds: the published epoch stored under each
/// occupied key.
pub uninterp spec fn slab_epochs(s: slab::Slab<u64>) -> Map<usize, u64>;

/// Relies on slab::Slab::new: a fresh slab has no occupied entry.
#[verifier::external_body]
fn slab_new() -> (res: slab::Slab<u64>)
    ensures
        forall|k: usize| !slab_epochs(res).contains_key(k),
{
    slab::Slab::new()
}

/// Relies on slab::Slab::insert: the value is stored under a key that was
/// vacant, and that key is returned.
#[verifier::external_body]
fn slab_insert(s: &mut slab::Slab<u64>, v: u64) -> (k: usize)
    ensures
        !slab_epochs(*old(s)).contains_key(k),
        slab_epochs(*final(s)) == slab_epochs(*old(s)).insert(k, v),
{
    s.insert(v)
}

/// Relies on slab::Slab::remove: the value under an occupied key is taken
/// out and the key becomes vacant. It panics on a vacant key, so occupancy
/// is required.
#[verifier::external_body]
fn slab_remove(s: &mut slab::Slab<u64>, k: usize) -> (r: u64)
    requires
        slab_epochs(*old(s)).contains_key(k),
    ensures
        slab_epochs(*final(s)) == slab_epochs(*old(s)).remove(k),
        r == slab_epochs(*old(s))[k],
{
    s.remove(k)
}

/// Relies on slab::Slab::get_mut: it yields the entry under an occupied key,
/// which the contract requires; the entry is then overwritten.
#[verifier::external_body]
fn slab_set(s: &mut slab::Slab<u64>, k: usize, v: u64)
    requires
        slab_epochs(*old(s)).contains_key(k),
    ensures
        slab_epochs(*final(s)) == slab_epochs(*old(s)).insert(k, v),
{
    *s.get_mut(k).expect("occupied key") = v;
}

/// Relies on slab::Slab::get: it yields the value under an occupied key,
/// which the contract requires.
#[verifier::external_body]
fn slab_get(s: &slab::Slab<u64>, k: usize) -> (r: u64)
    requires
        slab_epochs(*s).contains_key(k),
    ensures
        r == slab_epochs(*s)[k],
{
    *s.get(k).expect("occupied key")
}

/// Relies on slab::Slab::iter: it visits every occupied entry exactly once,
/// keys in increasing order.
#[verifier::external_body]
fn slab_entries(s: &slab::Slab<u64>) -> (r: Vec<(usize, u64)>)
    ensures
        forall|i: int|
            0 <= i < r@.len() ==> slab_epochs(*s).contains_pair(
                (#[trigger] r@[i]).0,
                r@[i].1,
            ),
        forall|i: int, j: int| 0 <= i < j < r@.len() ==> r@[i].0 != r@[j].0,
        forall|k: usize|
            slab_epochs(*s).contains_key(k) ==> exists|i: int|
                0 <= i < r@.len() && (#[trigger] r@[i]).0 == k,
{
    s.iter().map(|(k, v)| (k, *v)).collect()
}

/// Relies on slab::Slab::capacity: every occupied key indexes the entry
/// buffer, whose length never exceeds its capacity.
#[verifier::external_body]
fn slab_capacity(s: &slab::Slab<u64>) -> (r: usize)
    ensures
        forall|k: usize| slab_epochs(*s).contains_key(k) ==> k < r,
{
    s.capacity()
}

/// The registry of reader epochs the writer scans for quiescence.
pub struct Registry {
    table: slab::Slab<u64>,
}

impl Registry {
    /// The epochs currently registered, by reader slot.
    pub closed spec fn epochs(self) -> Map<usize, u64> {
        slab_epochs(self.table)
    }

    /// An empty registry.
    pub fn new() -> (r: Self)
        ensures
            r.epochs() == Map::<usize, u64>::empty(),
    {
        Registry { table: slab_new() }
    }

    /// Register a new reader; its epoch starts at zero (never read). Returns
    /// the reader's slot, which was vacant.
    pub fn register(&mut self) -> (idx: usize)
        ensures
            !old(self).epochs().contains_key(idx),
            final(self).epochs() == old(self).epochs().insert(idx, 0),
    {
        slab_insert(&mut self.table, 0)
    }

    /// Remove a reader's slot; the slot may be reused by a later reader.
    pub fn deregister(&mut self, idx: usize)
        requires
            old(self).epochs().contains_key(idx),
        ensures
            final(self).epochs() == old(self).epochs().remove(idx),
    {
        let _ = slab_remove(&mut self.table, idx);
    }

    /// The epoch a reader last published.
    pub fn lookup(&self, idx: usize) -> (r: u64)
        requires
            self.epochs().contains_key(idx),
        ensures
            r == self.epochs()[idx],
    {
        slab_get(&self.table, idx)
    }

    /// Store the epoch a reader publishes.
    pub fn publish(&mut self, idx: usize, e: u64)
        requires
            old(self).epochs().contains_key(idx),
        ensures
            final(self).epochs() == old(self).epochs().insert(idx, e),
    {
        slab_set(&mut self.table, idx, e);
    }

    /// A snapshot of every registered reader's slot and epoch, each exactly
    /// once.
    pub fn observe(&self) -> (r: Vec<(usize, u64)>)
        ensures
            forall|i: int|
                0 <= i < r@.len() ==> self.epochs().contains_pair((#[trigger] r@[i]).0, r@[i].1),
            forall|i: int, j: int| 0 <= i < j < r@.len() ==> r@[i].0 != r@[j].0,
            forall|k: usize|
                self.epochs().contains_key(k) ==> exists|i: int|
                    0 <= i < r@.len() && (#[trigger] r@[i]).0 == k,
    {
        slab_entries(&self.table)
    }

    /// An upper bound on every registered reader's slot, used to size the
    /// writer's scratch table of recorded epochs.
    pub fn space(&self) -> (r: usize)
        ensures
            forall|k: usize| self.epochs().contains_key(k) ==> k < r,
    {
        slab_capacity(&self.table)
    }
}

} // verus!
