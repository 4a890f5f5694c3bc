//! The read surface: caller-facing keys and the whole-buffer read reference.

use crate::inner::Inner;
use crate::slots::entries_to_map;
use crate::slots::SlotKey;
use vstd::prelude::*;

verus! {

/// The caller-facing key: the internal slot key together with a
/// caller-supplied pointer value that rides along and is handed back on
/// lookup-free iteration.
#[derive(Clone, Copy, Debug)]
pub struct MapKey<P> {
    /// The auxiliary data the caller embedded in the key at insertion.
    pub pointer: P,
    /// The internal slot identifier.
    pub slot: SlotKey,
}

/// A reference into the read side of the map: while it lives, the map cannot
/// be written, because it borrows the buffer. Only handed out once the
/// buffer has been through a refresh.
pub struct MapReadRef<'rh, V> {
    pub(crate) inner: &'rh Inner<V>,
}

impl<'rh, V> View for MapReadRef<'rh, V> {
    type V = Map<SlotKey, V>;

    closed spec fn view(&self) -> Map<SlotKey, V> {
        self.inner.view_map()
    }
}

impl<'rh, V> MapReadRef<'rh, V> {
    /// Structural validity of the buffer read.
    pub closed spec fn wf(self) -> bool {
        self.inner.wf()
    }

    /// Wrap a borrow of the front buffer.
    pub(crate) fn new_ref(inner: &'rh Inner<V>) -> (r: Self)
        requires
            inner.wf(),
        ensures
            r.wf(),
            r@ == inner.view_map(),
            r.spec_len() == inner.state().len,
    {
        MapReadRef { inner }
    }

    /// The number of live slots in the buffer read.
    pub closed spec fn spec_len(self) -> nat {
        self.inner.state().len
    }

    /// Returns the number of live keys present in the map.
    pub fn len(&self) -> (r: usize)
        ensures
            r == self.spec_len(),
    {
        self.inner.len()
    }

    /// Returns true if the map holds no value.
    pub fn is_empty(&self) -> (r: bool)
        ensures
            r == (self.spec_len() == 0),
    {
        self.inner.len() == 0
    }

    /// Returns true if the map holds a value under the key.
    pub fn contains_key<P>(&self, key: &MapKey<P>) -> (r: bool)
        ensures
            r == self@.contains_key(key.slot),
    {
        self.inner.contains_key(key.slot)
    }
}

/// Whether some key of the mapping carries the value.
pub open spec fn value_of<V>(m: Map<SlotKey, V>, v: V) -> bool {
    exists|k: SlotKey| #[trigger] m.contains_pair(k, v)
}

impl<'rh, V: Copy> MapReadRef<'rh, V> {
    /// Returns the value under the key, if the key is live.
    pub fn get<P>(&self, key: &MapKey<P>) -> (r: Option<V>)
        requires
            self.wf(),
        ensures
            r == if self@.contains_key(key.slot) {
                Some(self@[key.slot])
            } else {
                None::<V>
            },
    {
        self.inner.get(key.slot)
    }

    /// Every slot key and value in the map, each binding exactly once, in
    /// slot order.
    pub fn iter_raw(&self) -> (r: Vec<(SlotKey, V)>)
        requires
            self.wf(),
        ensures
            entries_to_map(r@) == self@,
            r@.len() == self.spec_len(),
            forall|i: int, j: int| 0 <= i < j < r@.len() ==> r@[i].0 != r@[j].0,
            forall|i: int|
                0 <= i < r@.len() ==> self@.contains_pair((#[trigger] r@[i]).0, r@[i].1),
    {
        self.inner.entries()
    }

    /// Every value in the map, one for each live slot, in slot order.
    pub fn values(&self) -> (r: Vec<V>)
        requires
            self.wf(),
        ensures
            r@.len() == self.spec_len(),
            forall|i: int| 0 <= i < r@.len() ==> value_of(self@, #[trigger] r@[i]),
            forall|k: SlotKey| #[trigger]
                self@.contains_key(k) ==> exists|i: int| 0 <= i < r@.len() && r@[i] == self@[k],
    {
        let pairs = self.inner.entries();
        let mut r: Vec<V> = Vec::new();
        let n = pairs.len();
        let mut i: usize = 0;
        while i < n
            invariant
                n == pairs@.len(),
                i <= n,
                r@.len() == i,
                forall|q: int| 0 <= q < i ==> r@[q] == (#[trigger] pairs@[q]).1,
            decreases n - i,
        {
            r.push(pairs[i].1);
            i = i + 1;
        }
        proof {
            assert forall|i2: int| 0 <= i2 < r@.len() implies value_of(
                self@,
                #[trigger] r@[i2],
            ) by {
                assert(r@[i2] == pairs@[i2].1);
                assert(self@.contains_pair(pairs@[i2].0, r@[i2]));
            }
            assert forall|k: SlotKey| #[trigger] self@.contains_key(k) implies exists|q: int|
                0 <= q < r@.len() && r@[q] == self@[k] by {
                crate::slots::lemma_etm_distinct(pairs@);
                let q = choose|q: int| 0 <= q < pairs@.len() && (#[trigger] pairs@[q]).0 == k;
                assert(self@.contains_pair(pairs@[q].0, pairs@[q].1));
                assert(r@[q] == self@[k]);
            }
        }
        r
    }
}

} // verus!
