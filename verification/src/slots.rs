//! The slot container: a dense id-to-value store with stable keys.
//!
//! Each slot carries a generation counter. A slot is live exactly when its
//! generation is even; removing a value bumps the generation, so a key made
//! for an earlier occupancy of the slot no longer matches. Vacant slots are
//! kept on a free list and are reused by later insertions, except that a slot
//! whose generation counter would overflow is retired instead of reused, so a
//! returned key is never produced twice over the life of the map.

use vstd::prelude::*;

verus! {

/// The internal identifier a slot container hands out on insertion: the
/// position of the slot and the generation the slot had when the value was
/// stored. A key matches only while the slot still has that generation.
#[derive(Clone, Copy, PartialEq, Eq, Structural, Hash, Debug)]
pub struct SlotKey {
    /// Position of the slot in the container.
    pub index: usize,
    /// Generation of the slot at the time of insertion; always even.
    pub generation: u64,
}

/// One storage slot: a generation counter and, while the generation is even,
/// a value.
#[derive(Clone, Copy, Debug)]
pub struct Slot<V> {
    /// Even while the slot holds a value, odd while it is vacant.
    pub generation: u64,
    /// The stored value; `Some` exactly while the generation is even.
    pub value: Option<V>,
}

impl<V> Slot<V> {
    /// A slot holds a value exactly while its generation is even.
    pub open spec fn live(self) -> bool {
        self.generation % 2 == 0
    }

    /// Generation parity and value presence agree.
    pub open spec fn wf(self) -> bool {
        self.live() <==> self.value is Some
    }
}

/// The mathematical state of a slot container: the slot sequence, the free
/// list, and the count of live slots. Two containers with equal states behave
/// identically, key allocation included; the refresh protocol relies on that
/// to replay an operation on the second buffer.
#[verifier::ext_equal]
pub struct MapState<V> {
    /// All slots, in position order.
    pub slots: Seq<Slot<V>>,
    /// Positions of the vacant slots that may be reused, in the order they
    /// will be taken (last first).
    pub free: Seq<usize>,
    /// Number of live slots.
    pub len: nat,
}

/// The number of live slots in a slot sequence.
pub open spec fn live_count<V>(slots: Seq<Slot<V>>) -> nat
    decreases slots.len(),
{
    if slots.len() == 0 {
        0
    } else {
        live_count(slots.drop_last()) + if slots.last().live() {
            1nat
        } else {
            0nat
        }
    }
}

/// The mapping a slot sequence represents: a key is present exactly when its
/// index points at a live slot of that very generation.
pub open spec fn map_of<V>(slots: Seq<Slot<V>>) -> Map<SlotKey, V> {
    Map::new(
        |k: SlotKey|
            k.index < slots.len() && slots[k.index as int].live() && slots[k.index as int].generation
                == k.generation,
        |k: SlotKey| slots[k.index as int].value->0,
    )
}

/// Validity of a slot-container state: slots are well formed, the free list
/// holds exactly the vacant slots that can still be reused (without
/// duplicates), and the length is the live count.
pub open spec fn wf_state<V>(m: MapState<V>) -> bool {
    &&& forall|i: int| 0 <= i < m.slots.len() ==> (#[trigger] m.slots[i]).wf()
    &&& forall|j: int| 0 <= j < m.free.len() ==> (#[trigger] m.free[j]) < m.slots.len()
    &&& forall|j: int|
        0 <= j < m.free.len() ==> !m.slots[#[trigger] m.free[j] as int].live()
            && m.slots[m.free[j] as int].generation < u64::MAX
    &&& forall|j1: int, j2: int| 0 <= j1 < j2 < m.free.len() ==> m.free[j1] != m.free[j2]
    &&& forall|i: int|
        0 <= i < m.slots.len() && !(#[trigger] m.slots[i]).live() && m.slots[i].generation
            < u64::MAX ==> m.free.contains(i as usize)
    &&& m.len == live_count(m.slots)
    &&& m.slots.len() <= usize::MAX
}

/// The state of an empty slot container.
pub open spec fn empty_state<V>() -> MapState<V> {
    MapState { slots: Seq::empty(), free: Seq::empty(), len: 0 }
}

/// State transition of an insertion: reuse the last free slot if there is
/// one, bumping its generation to the next even number, and otherwise append
/// a fresh slot with generation zero. Returns the new state and the key.
pub open spec fn sp_insert<V>(m: MapState<V>, v: V) -> (MapState<V>, SlotKey) {
    if m.free.len() > 0 {
        let idx = m.free.last();
        let g = (m.slots[idx as int].generation + 1) as u64;
        let k = SlotKey { index: idx, generation: g };
        (
            MapState {
                slots: m.slots.update(idx as int, Slot { generation: g, value: Some(v) }),
                free: m.free.drop_last(),
                len: (m.len + 1) as nat,
            },
            k,
        )
    } else {
        let idx = m.slots.len() as usize;
        let k = SlotKey { index: idx, generation: 0 };
        (
            MapState {
                slots: m.slots.push(Slot { generation: 0, value: Some(v) }),
                free: m.free,
                len: (m.len + 1) as nat,
            },
            k,
        )
    }
}

/// Whether a key currently matches a live slot of the state.
pub open spec fn sp_contains<V>(m: MapState<V>, k: SlotKey) -> bool {
    map_of(m.slots).contains_key(k)
}

/// State transition of a removal: vacate the slot by bumping its generation
/// to the next odd number and put it back on the free list unless the counter
/// is exhausted. A key that does not match leaves the state unchanged.
pub open spec fn sp_remove<V>(m: MapState<V>, k: SlotKey) -> MapState<V> {
    if sp_contains(m, k) {
        let g = (m.slots[k.index as int].generation + 1) as u64;
        MapState {
            slots: m.slots.update(k.index as int, Slot { generation: g, value: None }),
            free: if g < u64::MAX {
                m.free.push(k.index)
            } else {
                m.free
            },
            len: (m.len - 1) as nat,
        }
    } else {
        m
    }
}

/// State transition of a replacement: overwrite the value of a live slot,
/// leaving generation, free list and length unchanged. A key that does not
/// match leaves the state unchanged.
pub open spec fn sp_replace<V>(m: MapState<V>, k: SlotKey, v: V) -> MapState<V> {
    if sp_contains(m, k) {
        MapState {
            slots: m.slots.update(
                k.index as int,
                Slot { generation: k.generation, value: Some(v) },
            ),
            free: m.free,
            len: m.len,
        }
    } else {
        m
    }
}

/// What clearing does to one slot: a live slot is vacated, a vacant one is
/// left alone.
pub open spec fn cleared_slot<V>(s: Slot<V>) -> Slot<V> {
    if s.live() {
        Slot { generation: (s.generation + 1) as u64, value: None }
    } else {
        s
    }
}

/// The positions, in ascending order, of the slots below `upto` that clearing
/// vacates and that can go back on the free list.
pub open spec fn freed_below<V>(slots: Seq<Slot<V>>, upto: int) -> Seq<usize>
    decreases upto,
{
    if upto <= 0 {
        Seq::empty()
    } else {
        let pre = freed_below(slots, upto - 1);
        if slots[upto - 1].live() && slots[upto - 1].generation + 1 < u64::MAX {
            pre.push((upto - 1) as usize)
        } else {
            pre
        }
    }
}

/// State transition of clearing: vacate every live slot and append the newly
/// vacated reusable positions to the free list.
pub open spec fn sp_clear<V>(m: MapState<V>) -> MapState<V> {
    MapState {
        slots: Seq::new(m.slots.len(), |i: int| cleared_slot(m.slots[i])),
        free: m.free + freed_below(m.slots, m.slots.len() as int),
        len: 0,
    }
}

/// A dense id-to-value store. Insertion returns a [`SlotKey`] that stays
/// valid until the value is removed or the map is cleared; keys of removed
/// values never match again. The operations that copy values out or duplicate
/// the container require `Copy` values: the refresh protocol installs the
/// same value into both buffers.
pub struct SlotMap<V> {
    slots: Vec<Slot<V>>,
    free: Vec<usize>,
    len: usize,
}

impl<V> View for SlotMap<V> {
    type V = Map<SlotKey, V>;

    open spec fn view(&self) -> Map<SlotKey, V> {
        map_of(self.state().slots)
    }
}

impl<V> SlotMap<V> {
    /// The full mathematical state; equal states allocate equal keys.
    pub closed spec fn state(self) -> MapState<V> {
        MapState { slots: self.slots@, free: self.free@, len: self.len as nat }
    }

    /// Structural validity of the container.
    pub open spec fn wf(self) -> bool {
        wf_state(self.state())
    }

    /// The number of live slots.
    pub open spec fn spec_len(self) -> nat {
        self.state().len
    }

    /// Create an empty slot container.
    pub fn new() -> (r: Self)
        ensures
            r.wf(),
            r.state() == empty_state::<V>(),
            r@ == Map::<SlotKey, V>::empty(),
    {
        let r = SlotMap { slots: Vec::new(), free: Vec::new(), len: 0 };
        proof {
            assert(r.state() =~= empty_state::<V>());
            assert(map_of(r.state().slots) =~= Map::<SlotKey, V>::empty());
        }
        r
    }

    /// The number of live slots in the container.
    pub fn len(&self) -> (r: usize)
        ensures
            r == self.spec_len(),
    {
        self.len
    }

    /// Whether the container holds no live slot.
    pub fn is_empty(&self) -> (r: bool)
        ensures
            r == (self.spec_len() == 0),
    {
        self.len == 0
    }

    /// Whether the given key currently matches a live slot.
    pub fn contains_key(&self, k: SlotKey) -> (r: bool)
        ensures
            r == self@.contains_key(k),
    {
        k.index < self.slots.len() && self.slots[k.index].generation == k.generation
            && self.slots[k.index].generation % 2 == 0
    }

    /// Insert a value and return the key under which it is stored. The key
    /// has never been returned by this container before.
    pub fn insert(&mut self, v: V) -> (k: SlotKey)
        requires
            old(self).wf(),
            old(self).state().slots.len() < usize::MAX,
        ensures
            final(self).wf(),
            final(self).state() == sp_insert(old(self).state(), v).0,
            k == sp_insert(old(self).state(), v).1,
            !old(self)@.contains_key(k),
            final(self)@ == old(self)@.insert(k, v),
            final(self).spec_len() == old(self).spec_len() + 1,
    {
        proof {
            lemma_sp_insert(self.state(), v);
            lemma_live_count_le(self.state().slots);
        }
        let k: SlotKey;
        if self.free.len() > 0 {
            let idx = self.free.pop().unwrap();
            let g = self.slots[idx].generation + 1;
            k = SlotKey { index: idx, generation: g };
            self.slots.set(idx, Slot { generation: g, value: Some(v) });
        } else {
            k = SlotKey { index: self.slots.len(), generation: 0 };
            self.slots.push(Slot { generation: 0, value: Some(v) });
        }
        self.len = self.len + 1;
        k
    }

    /// Vacate the slot the key matches, if any; the key never matches again.
    /// Returns whether a value was removed.
    pub fn remove_key(&mut self, k: SlotKey) -> (r: bool)
        requires
            old(self).wf(),
        ensures
            final(self).wf(),
            final(self).state() == sp_remove(old(self).state(), k),
            r == old(self)@.contains_key(k),
            final(self)@ == old(self)@.remove(k),
            final(self).spec_len() == old(self).spec_len() - (
            if old(self)@.contains_key(k) {
                1int
            } else {
                0int
            }),
    {
        proof {
            lemma_sp_remove(self.state(), k);
        }
        if k.index < self.slots.len() && self.slots[k.index].generation == k.generation
            && self.slots[k.index].generation % 2 == 0 {
            let g = self.slots[k.index].generation + 1;
            self.slots.set(k.index, Slot { generation: g, value: None });
            if g < u64::MAX {
                self.free.push(k.index);
            }
            self.len = self.len - 1;
            true
        } else {
            false
        }
    }

    /// Overwrite the value of the slot the key matches; generation, free list
    /// and length stay as they were.
    pub fn replace(&mut self, k: SlotKey, v: V)
        requires
            old(self).wf(),
            old(self)@.contains_key(k),
        ensures
            final(self).wf(),
            final(self).state() == sp_replace(old(self).state(), k, v),
            final(self)@ == old(self)@.insert(k, v),
            final(self).spec_len() == old(self).spec_len(),
    {
        proof {
            lemma_sp_replace(self.state(), k, v);
        }
        self.slots.set(k.index, Slot { generation: k.generation, value: Some(v) });
    }

    /// Vacate every live slot. Keys handed out earlier never match again.
    pub fn clear(&mut self)
        requires
            old(self).wf(),
        ensures
            final(self).wf(),
            final(self).state() == sp_clear(old(self).state()),
            final(self)@ == Map::<SlotKey, V>::empty(),
            final(self).spec_len() == 0,
    {
        proof {
            lemma_sp_clear(self.state());
        }
        let ghost m0 = self.state();
        let n = self.slots.len();
        let mut i: usize = 0;
        while i < n
            invariant
                n == m0.slots.len(),
                i <= n,
                self.len == m0.len,
                self.slots@.len() == n,
                forall|q: int| 0 <= q < i ==> self.slots@[q] == cleared_slot(m0.slots[q]),
                forall|q: int| i <= q < n ==> self.slots@[q] == m0.slots[q],
                self.free@ == m0.free + freed_below(m0.slots, i as int),
            decreases n - i,
        {
            let g = self.slots[i].generation;
            if g % 2 == 0 {
                self.slots.set(i, Slot { generation: g + 1, value: None });
                if g + 1 < u64::MAX {
                    self.free.push(i);
                }
            }
            i = i + 1;
        }
        self.len = 0;
        proof {
            assert(self.state().slots =~= sp_clear(m0).slots);
            assert(self.state() =~= sp_clear(m0));
        }
    }
}

impl<V: Copy> SlotMap<V> {
    /// Look up the value stored under the key, if the key still matches.
    pub fn get(&self, k: SlotKey) -> (r: Option<V>)
        requires
            self.wf(),
        ensures
            r == if self@.contains_key(k) {
                Some(self@[k])
            } else {
                None::<V>
            },
    {
        if k.index < self.slots.len() && self.slots[k.index].generation == k.generation
            && self.slots[k.index].generation % 2 == 0 {
            self.slots[k.index].value
        } else {
            None
        }
    }

    /// The key and value of every live slot, in slot order. The pairs are
    /// exactly the bindings of the mapping, each key once.
    pub fn entries(&self) -> (r: Vec<(SlotKey, V)>)
        requires
            self.wf(),
        ensures
            r@ == sp_entries(self.state().slots, self.state().slots.len() as int),
            entries_to_map(r@) == self@,
            r@.len() == self.spec_len(),
            forall|i: int, j: int| 0 <= i < j < r@.len() ==> r@[i].0.index < r@[j].0.index,
            forall|i: int, j: int| 0 <= i < j < r@.len() ==> r@[i].0 != r@[j].0,
            forall|i: int| 0 <= i < r@.len() ==> (#[trigger] r@[i]).0.index < usize::MAX,
            forall|i: int| 0 <= i < r@.len() ==> (#[trigger] r@[i]).0.generation % 2 == 0,
            forall|i: int| 0 <= i < r@.len() ==> self@.contains_pair((#[trigger] r@[i]).0, r@[i].1),
    {
        let ghost slots0 = self.state().slots;
        let n = self.slots.len();
        let mut r: Vec<(SlotKey, V)> = Vec::new();
        let mut i: usize = 0;
        while i < n
            invariant
                self.wf(),
                n == slots0.len(),
                slots0 == self.state().slots,
                i <= n,
                r@ == sp_entries(slots0, i as int),
            decreases n - i,
        {
            let g = self.slots[i].generation;
            if g % 2 == 0 {
                let v = match self.slots[i].value {
                    Some(v) => v,
                    None => vstd::pervasive::unreached(),
                };
                r.push((SlotKey { index: i, generation: g }, v));
            }
            i = i + 1;
        }
        proof {
            lemma_sp_entries_props(slots0, n as int);
            lemma_entries_to_map_of(slots0, n as int);
            lemma_sp_entries_len(slots0, n as int);
            assert(slots0.take(n as int) =~= slots0);
            assert(map_below(slots0, n as int) =~= map_of(slots0));
            assert forall|q: int| 0 <= q < r@.len() implies (#[trigger] r@[q]).0.index < usize::MAX
                && r@[q].0.generation % 2 == 0 by {
                assert(map_below(slots0, n as int).contains_pair(r@[q].0, r@[q].1));
                assert(slots0[r@[q].0.index as int].live());
            }
        }
        r
    }

    /// Build a container holding exactly the given bindings, under the given
    /// keys. The indices must be distinct and the generations even (live).
    pub fn from_entries(list: &Vec<(SlotKey, V)>) -> (r: Self)
        requires
            forall|i: int, j: int| 0 <= i < j < list@.len() ==> list@[i].0.index != list@[j].0.index,
            forall|i: int| 0 <= i < list@.len() ==> (#[trigger] list@[i]).0.generation % 2 == 0,
            forall|i: int| 0 <= i < list@.len() ==> (#[trigger] list@[i]).0.index < usize::MAX,
        ensures
            r.wf(),
            r@ == entries_to_map(list@),
            r.spec_len() == list@.len(),
            r.state().slots.len() <= usize::MAX,
    {
        let n = list.len();
        // the smallest slot count that covers every index
        let mut bound: usize = 0;
        let mut i: usize = 0;
        while i < n
            invariant
                n == list@.len(),
                i <= n,
                forall|q: int| 0 <= q < i ==> (#[trigger] list@[q]).0.index < bound,
                bound == 0 || exists|q: int| 0 <= q < i && (#[trigger] list@[q]).0.index + 1 == bound,
                forall|q: int| 0 <= q < n ==> (#[trigger] list@[q]).0.index < usize::MAX,
            decreases n - i,
        {
            let idx = list[i].0.index;
            if idx + 1 > bound {
                bound = idx + 1;
            }
            i = i + 1;
        }
        // vacant slots everywhere, then fill the listed positions
        let mut slots: Vec<Slot<V>> = Vec::new();
        let mut p: usize = 0;
        while p < bound
            invariant
                p <= bound,
                slots@.len() == p,
                forall|q: int|
                    0 <= q < p ==> (#[trigger] slots@[q]) == (Slot::<V> {
                        generation: 1,
                        value: None,
                    }),
            decreases bound - p,
        {
            slots.push(Slot { generation: 1, value: None });
            p = p + 1;
        }
        let mut j: usize = 0;
        while j < n
            invariant
                n == list@.len(),
                j <= n,
                slots@.len() == bound,
                forall|q: int, q2: int|
                    0 <= q < q2 < list@.len() ==> list@[q].0.index != list@[q2].0.index,
                forall|q: int| 0 <= q < n ==> (#[trigger] list@[q]).0.generation % 2 == 0,
                forall|q: int| 0 <= q < n ==> (#[trigger] list@[q]).0.index < bound,
                forall|q: int|
                    0 <= q < j ==> (#[trigger] slots@[list@[q].0.index as int]) == (Slot::<V> {
                        generation: list@[q].0.generation,
                        value: Some(list@[q].1),
                    }),
                forall|p2: int|
                    0 <= p2 < bound && (forall|q: int|
                        0 <= q < j ==> (#[trigger] list@[q]).0.index != p2) ==> slots@[p2] == (
                    Slot::<V> { generation: 1, value: None }),
            decreases n - j,
        {
            let k = list[j].0;
            let v = list[j].1;
            slots.set(k.index, Slot { generation: k.generation, value: Some(v) });
            j = j + 1;
        }
        // free list: the positions left vacant, and the live count
        let mut free: Vec<usize> = Vec::new();
        let mut count: usize = 0;
        let mut p2: usize = 0;
        while p2 < bound
            invariant
                p2 <= bound,
                slots@.len() == bound,
                count as nat == live_count(slots@.take(p2 as int)),
                count <= p2,
                forall|q: int| 0 <= q < free@.len() ==> (#[trigger] free@[q]) < p2,
                forall|q: int|
                    0 <= q < free@.len() ==> !slots@[#[trigger] free@[q] as int].live()
                        && slots@[free@[q] as int].generation < u64::MAX,
                forall|q: int, q2: int| 0 <= q < q2 < free@.len() ==> free@[q] < free@[q2],
                forall|i2: int|
                    0 <= i2 < p2 && !(#[trigger] slots@[i2]).live() && slots@[i2].generation
                        < u64::MAX ==> free@.contains(i2 as usize),
            decreases bound - p2,
        {
            proof {
                assert(slots@.take(p2 + 1).drop_last() =~= slots@.take(p2 as int));
                assert(slots@.take(p2 + 1).last() == slots@[p2 as int]);
            }
            let ghost free0 = free@;
            let g = slots[p2].generation;
            if g % 2 == 0 {
                count = count + 1;
            } else {
                if g < u64::MAX {
                    free.push(p2);
                }
            }
            proof {
                assert forall|i2: int|
                    0 <= i2 < p2 + 1 && !(#[trigger] slots@[i2]).live() && slots@[i2].generation
                        < u64::MAX implies free@.contains(i2 as usize) by {
                    if i2 < p2 {
                        let q = choose|q: int| 0 <= q < free0.len() && free0[q] == i2 as usize;
                        assert(free@[q] == i2 as usize);
                    } else {
                        assert(free@.last() == p2);
                    }
                }
            }
            p2 = p2 + 1;
        }
        let r = SlotMap { slots, free, len: count };
        proof {
            assert(r.state().slots.take(bound as int) =~= r.state().slots);
            assert forall|i2: int| 0 <= i2 < r.state().slots.len() implies (
            #[trigger] r.state().slots[i2]).wf() by {
                lemma_from_entries_slot(list@, r.state().slots, i2);
            }
            assert forall|i2: int|
                0 <= i2 < r.state().slots.len() && !(#[trigger] r.state().slots[i2]).live()
                    && r.state().slots[i2].generation < u64::MAX implies r.state().free.contains(
                i2 as usize,
            ) by {}
            lemma_etm_distinct(list@);
            lemma_from_entries_count(list@, r.state().slots);
            assert(map_of(r.state().slots) =~= entries_to_map(list@)) by {
                assert forall|k: SlotKey| #[trigger]
                    map_of(r.state().slots).contains_key(k) implies entries_to_map(
                    list@,
                ).contains_key(k) && entries_to_map(list@)[k] == map_of(r.state().slots)[k] by {
                    lemma_from_entries_slot(list@, r.state().slots, k.index as int);
                    let q = choose|q: int|
                        0 <= q < list@.len() && (#[trigger] list@[q]).0.index == k.index;
                    assert(list@[q].0 == k);
                    assert(entries_to_map(list@).contains_pair(list@[q].0, list@[q].1));
                }
                assert forall|k: SlotKey| #[trigger]
                    entries_to_map(list@).contains_key(k) implies map_of(
                    r.state().slots,
                ).contains_key(k) by {
                    let q = choose|q: int| 0 <= q < list@.len() && (#[trigger] list@[q]).0 == k;
                }
            }
        }
        r
    }

    /// A structurally equal copy of the container: same slots, same free
    /// list, so the copy allocates the very same keys.
    pub fn duplicate(&self) -> (r: Self)
        ensures
            r.state() == self.state(),
    {
        let mut slots: Vec<Slot<V>> = Vec::new();
        let mut i: usize = 0;
        let n = self.slots.len();
        while i < n
            invariant
                n == self.slots@.len(),
                i <= n,
                slots@ == self.slots@.take(i as int),
            decreases n - i,
        {
            proof {
                assert(self.slots@.take(i + 1) =~= self.slots@.take(i as int).push(
                    self.slots@[i as int],
                ));
            }
            slots.push(self.slots[i]);
            i = i + 1;
        }
        let mut free: Vec<usize> = Vec::new();
        let mut j: usize = 0;
        let fl = self.free.len();
        while j < fl
            invariant
                fl == self.free@.len(),
                j <= fl,
                free@ == self.free@.take(j as int),
            decreases fl - j,
        {
            proof {
                assert(self.free@.take(j + 1) =~= self.free@.take(j as int).push(
                    self.free@[j as int],
                ));
            }
            free.push(self.free[j]);
            j = j + 1;
        }
        let r = SlotMap { slots, free, len: self.len };
        proof {
            assert(r.state().slots =~= self.state().slots);
            assert(r.state().free =~= self.state().free);
            assert(r.state() =~= self.state());
        }
        r
    }
}

/// The key-value pairs of the live slots below `upto`, in slot order.
pub open spec fn sp_entries<V>(slots: Seq<Slot<V>>, upto: int) -> Seq<(SlotKey, V)>
    decreases upto,
{
    if upto <= 0 {
        Seq::empty()
    } else {
        let pre = sp_entries(slots, upto - 1);
        if slots[upto - 1].live() {
            pre.push(
                (
                    SlotKey {
                        index: (upto - 1) as usize,
                        generation: slots[upto - 1].generation,
                    },
                    slots[upto - 1].value->0,
                ),
            )
        } else {
            pre
        }
    }
}

/// The mapping a list of key-value pairs stands for, later pairs winning.
pub open spec fn entries_to_map<V>(s: Seq<(SlotKey, V)>) -> Map<SlotKey, V>
    decreases s.len(),
{
    if s.len() == 0 {
        Map::empty()
    } else {
        entries_to_map(s.drop_last()).insert(s.last().0, s.last().1)
    }
}

/// The part of a slot sequence's mapping whose keys index below `upto`.
pub open spec fn map_below<V>(slots: Seq<Slot<V>>, upto: int) -> Map<SlotKey, V> {
    Map::new(
        |k: SlotKey|
            k.index < upto && k.index < slots.len() && slots[k.index as int].live()
                && slots[k.index as int].generation == k.generation,
        |k: SlotKey| slots[k.index as int].value->0,
    )
}

/// Each entry's key carries its slot position, so the keys are distinct and
/// each pair is a binding of the mapping below the bound.
proof fn lemma_sp_entries_props<V>(slots: Seq<Slot<V>>, upto: int)
    requires
        upto <= slots.len(),
        slots.len() <= usize::MAX,
    ensures
        forall|i: int|
            0 <= i < sp_entries(slots, upto).len() ==> (#[trigger] sp_entries(slots, upto)[i]).0.index
                < upto,
        forall|i: int, j: int|
            0 <= i < j < sp_entries(slots, upto).len() ==> sp_entries(slots, upto)[i].0.index
                < sp_entries(slots, upto)[j].0.index,
        forall|i: int|
            0 <= i < sp_entries(slots, upto).len() ==> map_below(slots, upto).contains_pair(
                (#[trigger] sp_entries(slots, upto)[i]).0,
                sp_entries(slots, upto)[i].1,
            ),
    decreases upto,
{
    if upto > 0 {
        lemma_sp_entries_props(slots, upto - 1);
        let pre = sp_entries(slots, upto - 1);
        let cur = sp_entries(slots, upto);
        if slots[upto - 1].live() {
            let e = (
                SlotKey { index: (upto - 1) as usize, generation: slots[upto - 1].generation },
                slots[upto - 1].value->0,
            );
            assert(cur == pre.push(e));
            assert forall|i: int| 0 <= i < cur.len() implies (#[trigger] cur[i]).0.index < upto
                && map_below(slots, upto).contains_pair(cur[i].0, cur[i].1) by {
                if i < pre.len() {
                    assert(cur[i] == pre[i]);
                    assert(map_below(slots, upto - 1).contains_pair(pre[i].0, pre[i].1));
                    assert(map_below(slots, upto).contains_pair(pre[i].0, pre[i].1));
                } else {
                    assert(cur[i] == e);
                    assert(map_below(slots, upto).contains_pair(e.0, e.1));
                }
            }
            assert forall|i: int, j: int| 0 <= i < j < cur.len() implies cur[i].0.index
                < cur[j].0.index by {
                if j < pre.len() {
                    assert(cur[i] == pre[i] && cur[j] == pre[j]);
                } else {
                    assert(cur[i] == pre[i] && cur[j] == e);
                    assert(pre[i].0.index < upto - 1);
                }
            }
        } else {
            assert(cur == pre);
            assert forall|i: int| 0 <= i < cur.len() implies (#[trigger] cur[i]).0.index < upto
                && map_below(slots, upto).contains_pair(cur[i].0, cur[i].1) by {
                assert(cur[i] == pre[i]);
                assert(map_below(slots, upto - 1).contains_pair(pre[i].0, pre[i].1));
                assert(map_below(slots, upto).contains_pair(pre[i].0, pre[i].1));
            }
        }
    }
}

/// The entry list below a bound stands for exactly the mapping below it.
proof fn lemma_entries_to_map_of<V>(slots: Seq<Slot<V>>, upto: int)
    requires
        upto <= slots.len(),
        slots.len() <= usize::MAX,
    ensures
        entries_to_map(sp_entries(slots, upto)) == map_below(slots, upto),
    decreases upto,
{
    if upto <= 0 {
        assert(entries_to_map(sp_entries(slots, upto)) =~= map_below(slots, upto));
    } else {
        lemma_entries_to_map_of(slots, upto - 1);
        let pre = sp_entries(slots, upto - 1);
        let cur = sp_entries(slots, upto);
        if slots[upto - 1].live() {
            let e = (
                SlotKey { index: (upto - 1) as usize, generation: slots[upto - 1].generation },
                slots[upto - 1].value->0,
            );
            assert(cur == pre.push(e));
            assert(cur.drop_last() =~= pre);
            assert(cur.last() == e);
            assert(entries_to_map(cur) == entries_to_map(pre).insert(e.0, e.1));
            assert(entries_to_map(cur) =~= map_below(slots, upto)) by {
                assert forall|k: SlotKey| #[trigger]
                    map_below(slots, upto).contains_key(k) implies map_below(
                    slots,
                    upto - 1,
                ).insert(e.0, e.1).contains_key(k) && map_below(slots, upto - 1).insert(e.0, e.1)[k]
                    == map_below(slots, upto)[k] by {
                    if k.index < upto - 1 {
                        assert(map_below(slots, upto - 1).contains_key(k));
                    } else {
                        assert(k == e.0);
                    }
                }
            }
        } else {
            assert(cur == pre);
            assert(map_below(slots, upto) =~= map_below(slots, upto - 1)) by {
                assert forall|k: SlotKey| #[trigger]
                    map_below(slots, upto).contains_key(k) implies map_below(
                    slots,
                    upto - 1,
                ).contains_key(k) by {
                    assert(k.index != upto - 1);
                }
            }
        }
    }
}

/// There are as many entries below a bound as live slots below it.
proof fn lemma_sp_entries_len<V>(slots: Seq<Slot<V>>, upto: int)
    requires
        0 <= upto <= slots.len(),
    ensures
        sp_entries(slots, upto).len() == live_count(slots.take(upto)),
    decreases upto,
{
    if upto <= 0 {
        assert(slots.take(upto) =~= Seq::<Slot<V>>::empty());
    } else {
        lemma_sp_entries_len(slots, upto - 1);
        assert(slots.take(upto).drop_last() =~= slots.take(upto - 1));
        assert(slots.take(upto).last() == slots[upto - 1]);
    }
}

/// With distinct keys, the mapping a pair list stands for holds exactly
/// those pairs.
pub proof fn lemma_etm_distinct<V>(s: Seq<(SlotKey, V)>)
    requires
        forall|i: int, j: int| 0 <= i < j < s.len() ==> s[i].0 != s[j].0,
    ensures
        forall|i: int|
            0 <= i < s.len() ==> entries_to_map(s).contains_pair((#[trigger] s[i]).0, s[i].1),
        forall|k: SlotKey| #[trigger]
            entries_to_map(s).contains_key(k) ==> exists|i: int| 0 <= i < s.len() && (
            #[trigger] s[i]).0 == k,
    decreases s.len(),
{
    if s.len() > 0 {
        lemma_etm_distinct(s.drop_last());
        let pre = s.drop_last();
        assert forall|i: int| 0 <= i < s.len() implies entries_to_map(s).contains_pair(
            (#[trigger] s[i]).0,
            s[i].1,
        ) by {
            if i < s.len() - 1 {
                assert(pre[i] == s[i]);
                assert(entries_to_map(pre).contains_pair(s[i].0, s[i].1));
                assert(s[i].0 != s.last().0);
            }
        }
        assert forall|k: SlotKey| #[trigger] entries_to_map(s).contains_key(k) implies exists|i: int|
            0 <= i < s.len() && (#[trigger] s[i]).0 == k by {
            if k == s.last().0 {
                assert(s[s.len() - 1].0 == k);
            } else {
                assert(entries_to_map(pre).contains_key(k));
                let i = choose|i: int| 0 <= i < pre.len() && (#[trigger] pre[i]).0 == k;
                assert(s[i].0 == k);
            }
        }
    }
}

/// In a container rebuilt from a pair list, the slot at each position is
/// either the listed binding for that position or a pristine vacant slot.
proof fn lemma_from_entries_slot<V>(list: Seq<(SlotKey, V)>, slots: Seq<Slot<V>>, p: int)
    requires
        0 <= p < slots.len(),
        forall|q: int, q2: int| 0 <= q < q2 < list.len() ==> list[q].0.index != list[q2].0.index,
        forall|q: int| 0 <= q < list.len() ==> (#[trigger] list[q]).0.generation % 2 == 0,
        forall|q: int|
            0 <= q < list.len() ==> (#[trigger] slots[list[q].0.index as int]) == (Slot::<V> {
                generation: list[q].0.generation,
                value: Some(list[q].1),
            }),
        forall|p2: int|
            0 <= p2 < slots.len() && (forall|q: int|
                0 <= q < list.len() ==> (#[trigger] list[q]).0.index != p2) ==> slots[p2] == (
            Slot::<V> { generation: 1, value: None }),
    ensures
        slots[p].wf(),
        slots[p].live() ==> exists|q: int|
            0 <= q < list.len() && (#[trigger] list[q]).0.index == p,
{
    if exists|q: int| 0 <= q < list.len() && (#[trigger] list[q]).0.index == p {
        let q = choose|q: int| 0 <= q < list.len() && (#[trigger] list[q]).0.index == p;
        assert(slots[p] == (Slot::<V> {
            generation: list[q].0.generation,
            value: Some(list[q].1),
        }));
    } else {
        assert(slots[p] == (Slot::<V> { generation: 1, value: None }));
    }
}

/// A container rebuilt from a pair list has as many live slots as the list
/// has pairs.
proof fn lemma_from_entries_count<V>(list: Seq<(SlotKey, V)>, slots: Seq<Slot<V>>)
    requires
        slots.len() <= usize::MAX,
        forall|q: int, q2: int| 0 <= q < q2 < list.len() ==> list[q].0.index != list[q2].0.index,
        forall|q: int| 0 <= q < list.len() ==> (#[trigger] list[q]).0.generation % 2 == 0,
        forall|q: int| 0 <= q < list.len() ==> (#[trigger] list[q]).0.index < slots.len(),
        forall|q: int|
            0 <= q < list.len() ==> (#[trigger] slots[list[q].0.index as int]) == (Slot::<V> {
                generation: list[q].0.generation,
                value: Some(list[q].1),
            }),
        forall|p2: int|
            0 <= p2 < slots.len() && (forall|q: int|
                0 <= q < list.len() ==> (#[trigger] list[q]).0.index != p2) ==> slots[p2] == (
            Slot::<V> { generation: 1, value: None }),
    ensures
        live_count(slots) == list.len(),
{
    lemma_live_count_is_card(slots, slots.len() as int, list);
}

/// Counting live slots position by position matches counting the listed
/// indices below the bound.
proof fn lemma_live_count_is_card<V>(slots: Seq<Slot<V>>, upto: int, list: Seq<(SlotKey, V)>)
    requires
        slots.len() <= usize::MAX,
        0 <= upto <= slots.len(),
        forall|q: int, q2: int| 0 <= q < q2 < list.len() ==> list[q].0.index != list[q2].0.index,
        forall|q: int| 0 <= q < list.len() ==> (#[trigger] list[q]).0.generation % 2 == 0,
        forall|q: int| 0 <= q < list.len() ==> (#[trigger] list[q]).0.index < slots.len(),
        forall|q: int|
            0 <= q < list.len() ==> (#[trigger] slots[list[q].0.index as int]) == (Slot::<V> {
                generation: list[q].0.generation,
                value: Some(list[q].1),
            }),
        forall|p2: int|
            0 <= p2 < slots.len() && (forall|q: int|
                0 <= q < list.len() ==> (#[trigger] list[q]).0.index != p2) ==> slots[p2] == (
            Slot::<V> { generation: 1, value: None }),
        upto == slots.len(),
    ensures
        live_count(slots) == list.len(),
{
    let live_positions = Set::new(|p: int| 0 <= p < slots.len() && slots[p].live());
    let listed = Set::new(|p: int| exists|q: int| 0 <= q < list.len() && (#[trigger] list[q]).0.index == p);
    assert forall|p: int| live_positions.contains(p) implies listed.contains(p) by {
        lemma_from_entries_slot(list, slots, p);
    }
    assert forall|p: int| listed.contains(p) implies live_positions.contains(p) by {
        let q = choose|q: int| 0 <= q < list.len() && (#[trigger] list[q]).0.index == p;
        assert(slots[p] == (Slot::<V> {
            generation: list[q].0.generation,
            value: Some(list[q].1),
        }));
    }
    lemma_live_count_take(slots, slots.len() as int, list);
}

/// The live count of a prefix equals the number of listed indices below the
/// prefix bound.
proof fn lemma_live_count_take<V>(slots: Seq<Slot<V>>, upto: int, list: Seq<(SlotKey, V)>)
    requires
        slots.len() <= usize::MAX,
        0 <= upto <= slots.len(),
        forall|q: int, q2: int| 0 <= q < q2 < list.len() ==> list[q].0.index != list[q2].0.index,
        forall|q: int| 0 <= q < list.len() ==> (#[trigger] list[q]).0.generation % 2 == 0,
        forall|q: int| 0 <= q < list.len() ==> (#[trigger] list[q]).0.index < slots.len(),
        forall|q: int|
            0 <= q < list.len() ==> (#[trigger] slots[list[q].0.index as int]) == (Slot::<V> {
                generation: list[q].0.generation,
                value: Some(list[q].1),
            }),
        forall|p2: int|
            0 <= p2 < slots.len() && (forall|q: int|
                0 <= q < list.len() ==> (#[trigger] list[q]).0.index != p2) ==> slots[p2] == (
            Slot::<V> { generation: 1, value: None }),
        upto == slots.len(),
    ensures
        live_count(slots) == list.len(),
{
    lemma_sp_entries_len(slots, slots.len() as int);
    assert(slots.take(slots.len() as int) =~= slots);
    lemma_entries_bijection(slots, list);
}

/// The entry list read back from a rebuilt container and the list it was
/// built from have the same length: each injects into the other by index.
proof fn lemma_entries_bijection<V>(slots: Seq<Slot<V>>, list: Seq<(SlotKey, V)>)
    requires
        slots.len() <= usize::MAX,
        forall|q: int, q2: int| 0 <= q < q2 < list.len() ==> list[q].0.index != list[q2].0.index,
        forall|q: int| 0 <= q < list.len() ==> (#[trigger] list[q]).0.generation % 2 == 0,
        forall|q: int| 0 <= q < list.len() ==> (#[trigger] list[q]).0.index < slots.len(),
        forall|q: int|
            0 <= q < list.len() ==> (#[trigger] slots[list[q].0.index as int]) == (Slot::<V> {
                generation: list[q].0.generation,
                value: Some(list[q].1),
            }),
        forall|p2: int|
            0 <= p2 < slots.len() && (forall|q: int|
                0 <= q < list.len() ==> (#[trigger] list[q]).0.index != p2) ==> slots[p2] == (
            Slot::<V> { generation: 1, value: None }),
    ensures
        sp_entries(slots, slots.len() as int).len() == list.len(),
{
    let es = sp_entries(slots, slots.len() as int);
    lemma_sp_entries_props(slots, slots.len() as int);
    let fwd = Map::new(
        |i: int| 0 <= i < es.len(),
        |i: int| choose|q: int| 0 <= q < list.len() && (#[trigger] list[q]).0.index == es[i].0.index,
    );
    assert forall|i: int| 0 <= i < es.len() implies 0 <= fwd[i] < list.len() && list[fwd[i]].0.index
        == es[i].0.index by {
        assert(map_below(slots, slots.len() as int).contains_pair(es[i].0, es[i].1));
        assert(slots[es[i].0.index as int].live());
        lemma_from_entries_slot(list, slots, es[i].0.index as int);
        let q = choose|q: int| 0 <= q < list.len() && (#[trigger] list[q]).0.index == es[i].0.index;
        assert(fwd[i] == q);
    }
    // indices of es are strictly increasing, so fwd is injective; and every
    // listed index appears among the live slots, so fwd is onto
    assert forall|i: int, j: int| 0 <= i < j < es.len() implies fwd[i] != fwd[j] by {
        assert(es[i].0.index < es[j].0.index);
        assert(list[fwd[i]].0.index == es[i].0.index);
        assert(list[fwd[j]].0.index == es[j].0.index);
    }
    let bwd = Map::new(
        |q: int| 0 <= q < list.len(),
        |q: int|
            choose|i: int|
                0 <= i < es.len() && (#[trigger] es[i]).0.index == list[q].0.index,
    );
    assert forall|q: int| 0 <= q < list.len() implies 0 <= #[trigger] bwd[q] < es.len() && fwd[
        bwd[q]
    ] == q by {
        lemma_entries_cover(slots, slots.len() as int, list[q].0.index as int);
        let i = choose|i: int| 0 <= i < es.len() && (#[trigger] es[i]).0.index == list[q].0.index;
        assert(bwd[q] == i);
        assert(list[fwd[i]].0.index == es[i].0.index);
        assert(fwd[i] == q);
    }
    lemma_injective_surjective_card(es.len() as int, list.len() as int, fwd, bwd);
}

/// Every live slot below the bound appears in the entry list.
proof fn lemma_entries_cover<V>(slots: Seq<Slot<V>>, upto: int, p: int)
    requires
        0 <= p < upto <= slots.len(),
        slots.len() <= usize::MAX,
        slots[p].live(),
    ensures
        exists|i: int|
            0 <= i < sp_entries(slots, upto).len() && (#[trigger] sp_entries(slots, upto)[i]).0.index
                == p,
    decreases upto,
{
    let cur = sp_entries(slots, upto);
    let pre = sp_entries(slots, upto - 1);
    if p == upto - 1 {
        let e = (
            SlotKey { index: (upto - 1) as usize, generation: slots[upto - 1].generation },
            slots[upto - 1].value->0,
        );
        assert(cur == pre.push(e));
        assert(cur[cur.len() - 1] == e);
    } else {
        lemma_entries_cover(slots, upto - 1, p);
        let i = choose|i: int| 0 <= i < pre.len() && (#[trigger] pre[i]).0.index == p;
        if slots[upto - 1].live() {
            assert(cur[i] == pre[i]);
        } else {
            assert(cur == pre);
            assert(cur[i] == pre[i]);
        }
    }
}

/// A map from one finite range into another that is injective and onto
/// (witnessed by an inverse) forces the ranges to have equal size.
proof fn lemma_injective_surjective_card(n: int, m: int, fwd: Map<int, int>, bwd: Map<int, int>)
    requires
        0 <= n,
        0 <= m,
        forall|i: int| 0 <= i < n ==> 0 <= #[trigger] fwd[i] < m,
        forall|i: int, j: int| 0 <= i < j < n ==> fwd[i] != fwd[j],
        forall|q: int| 0 <= q < m ==> 0 <= #[trigger] bwd[q] < n && fwd[bwd[q]] == q,
    ensures
        n == m,
{
    let dom = vstd::set_lib::set_int_range(0, n);
    let rng = vstd::set_lib::set_int_range(0, m);
    let f = |i: int| fwd[i];
    vstd::set_lib::lemma_int_range(0, n);
    vstd::set_lib::lemma_int_range(0, m);
    assert(dom.len() == n);
    assert(rng.len() == m);
    assert(dom.map(f) =~= rng) by {
        assert forall|q: int| rng.contains(q) implies dom.map(f).contains(q) by {
            assert(dom.contains(bwd[q]) && f(bwd[q]) == q);
        }
        assert forall|q: int| dom.map(f).contains(q) implies rng.contains(q) by {
            let i = choose|i: int| dom.contains(i) && f(i) == q;
            assert(0 <= i < n && fwd[i] == q);
        }
    }
    lemma_injective_map_card(dom, f);
}

/// A live count of zero means no slot is live.
proof fn lemma_live_count_zero_iff<V>(s: Seq<Slot<V>>)
    ensures
        (live_count(s) == 0) <==> (forall|i: int| 0 <= i < s.len() ==> !(#[trigger] s[i]).live()),
    decreases s.len(),
{
    if s.len() > 0 {
        lemma_live_count_zero_iff(s.drop_last());
        if live_count(s) == 0 {
            assert forall|i: int| 0 <= i < s.len() implies !(#[trigger] s[i]).live() by {
                if i < s.len() - 1 {
                    assert(s.drop_last()[i] == s[i]);
                } else {
                    assert(s[i] == s.last());
                }
            }
        } else {
            if forall|i: int| 0 <= i < s.len() ==> !(#[trigger] s[i]).live() {
                assert forall|i: int|
                    0 <= i < s.drop_last().len() implies !(#[trigger] s.drop_last()[i]).live() by {
                    assert(s.drop_last()[i] == s[i]);
                }
                assert(!s.last().live());
            }
        }
    }
}

/// The reported length is zero exactly when the mapping is empty: an empty
/// map holds no binding, and a nonempty one has a live slot whose key is
/// present.
pub proof fn lemma_len_zero_iff_empty<V>(m: MapState<V>)
    requires
        wf_state(m),
    ensures
        (m.len == 0) <==> (map_of(m.slots) == Map::<SlotKey, V>::empty()),
{
    lemma_live_count_zero_iff(m.slots);
    if m.len == 0 {
        assert(map_of(m.slots) =~= Map::<SlotKey, V>::empty());
    } else {
        let i = choose|i: int| 0 <= i < m.slots.len() && (#[trigger] m.slots[i]).live();
        let k = SlotKey { index: i as usize, generation: m.slots[i].generation };
        assert(map_of(m.slots).contains_key(k));
    }
}

/// Reading the bindings out of a container and rebuilding a container from
/// them yields the same mapping: the serialization boundary loses nothing.
pub proof fn lemma_snapshot_round_trip<V>(m: MapState<V>)
    requires
        wf_state(m),
    ensures
        entries_to_map(sp_entries(m.slots, m.slots.len() as int)) == map_of(m.slots),
{
    lemma_entries_to_map_of(m.slots, m.slots.len() as int);
    assert(map_below(m.slots, m.slots.len() as int) =~= map_of(m.slots));
}

/// An injective function keeps the size of a finite set it maps.
proof fn lemma_injective_map_card(s: Set<int>, f: spec_fn(int) -> int)
    requires
        s.finite(),
        forall|a: int, b: int| s.contains(a) && s.contains(b) && a != b ==> f(a) != f(b),
    ensures
        s.map(f).len() == s.len(),
        s.map(f).finite(),
    decreases s.len(),
{
    if s.len() == 0 {
        assert(s =~= Set::empty());
        assert(s.map(f) =~= Set::empty());
    } else {
        let x = s.choose();
        lemma_injective_map_card(s.remove(x), f);
        assert(s.remove(x).map(f) =~= s.map(f).remove(f(x))) by {
            assert forall|y: int| s.map(f).remove(f(x)).contains(y) implies s.remove(x).map(
                f,
            ).contains(y) by {
                let a = choose|a: int| s.contains(a) && f(a) == y;
                assert(a != x);
                assert(s.remove(x).contains(a));
            }
            assert forall|y: int| s.remove(x).map(f).contains(y) implies s.map(f).remove(
                f(x),
            ).contains(y) by {
                let a = choose|a: int| s.remove(x).contains(a) && f(a) == y;
                assert(s.contains(a));
            }
        }
        assert(s.map(f).contains(f(x)));
        assert(s.map(f).remove(f(x)).len() == s.map(f).len() - 1);
    }
}


/// Live count of an updated sequence: the count changes by the liveness
/// difference of the replaced slot.
proof fn lemma_live_count_update<V>(s: Seq<Slot<V>>, i: int, x: Slot<V>)
    requires
        0 <= i < s.len(),
    ensures
        live_count(s.update(i, x)) == live_count(s) - (
        if s[i].live() {
            1int
        } else {
            0int
        }) + (
        if x.live() {
            1int
        } else {
            0int
        }),
    decreases s.len(),
{
    let s2 = s.update(i, x);
    if i == s.len() - 1 {
        assert(s2.drop_last() =~= s.drop_last());
    } else {
        assert(s2.drop_last() =~= s.drop_last().update(i, x));
        lemma_live_count_update(s.drop_last(), i, x);
    }
}

/// Live count of a sequence with one slot appended.
proof fn lemma_live_count_push<V>(s: Seq<Slot<V>>, x: Slot<V>)
    ensures
        live_count(s.push(x)) == live_count(s) + if x.live() {
            1int
        } else {
            0int
        },
{
    assert(s.push(x).drop_last() =~= s);
}

/// A sequence with no live slot has live count zero.
proof fn lemma_live_count_none<V>(s: Seq<Slot<V>>)
    requires
        forall|i: int| 0 <= i < s.len() ==> !(#[trigger] s[i]).live(),
    ensures
        live_count(s) == 0,
    decreases s.len(),
{
    if s.len() > 0 {
        lemma_live_count_none(s.drop_last());
    }
}

/// The live count never exceeds the number of slots.
proof fn lemma_live_count_le<V>(s: Seq<Slot<V>>)
    ensures
        live_count(s) <= s.len(),
    decreases s.len(),
{
    if s.len() > 0 {
        lemma_live_count_le(s.drop_last());
    }
}

/// What an insertion does, stated over the mapping: the returned key is
/// fresh, the mapping gains exactly that binding, validity is kept, and the
/// live count grows by one.
pub proof fn lemma_sp_insert<V>(m: MapState<V>, v: V)
    requires
        wf_state(m),
        m.slots.len() < usize::MAX,
    ensures
        wf_state(sp_insert(m, v).0),
        !map_of(m.slots).contains_key(sp_insert(m, v).1),
        map_of(sp_insert(m, v).0.slots) == map_of(m.slots).insert(sp_insert(m, v).1, v),
        sp_insert(m, v).0.len == m.len + 1,
        sp_insert(m, v).1.generation % 2 == 0,
{
    let (m2, k) = sp_insert(m, v);
    if m.free.len() > 0 {
        let idx = m.free.last();
        assert(m.free[m.free.len() - 1] == idx);
        assert(!m.slots[idx as int].live() && m.slots[idx as int].generation < u64::MAX);
        lemma_live_count_update(m.slots, idx as int, m2.slots[idx as int]);
        // the free list shrank by its last element; every other entry remains
        assert forall|i: int|
            0 <= i < m2.slots.len() && !(#[trigger] m2.slots[i]).live() && m2.slots[i].generation
                < u64::MAX implies m2.free.contains(i as usize) by {
            assert(m.slots[i] == m2.slots[i]);
            assert(m.free.contains(i as usize));
            let j = choose|j: int| 0 <= j < m.free.len() && m.free[j] == i as usize;
            assert(j != m.free.len() - 1);
            assert(m2.free[j] == i as usize);
        }
    } else {
        lemma_live_count_push(m.slots, m2.slots[m.slots.len() as int]);
    }
    assert(map_of(m2.slots) =~= map_of(m.slots).insert(k, v));
}

/// What a removal does, stated over the mapping: the binding of the key is
/// gone, nothing else changes, validity is kept, and the live count drops by
/// one when the key was present.
pub proof fn lemma_sp_remove<V>(m: MapState<V>, k: SlotKey)
    requires
        wf_state(m),
    ensures
        wf_state(sp_remove(m, k)),
        map_of(sp_remove(m, k).slots) == map_of(m.slots).remove(k),
        sp_remove(m, k).len == m.len - (
        if map_of(m.slots).contains_key(k) {
            1int
        } else {
            0int
        }),
{
    let m2 = sp_remove(m, k);
    if sp_contains(m, k) {
        let g = (m.slots[k.index as int].generation + 1) as u64;
        lemma_live_count_update(m.slots, k.index as int, m2.slots[k.index as int]);
        assert forall|j: int| 0 <= j < m2.free.len() implies (#[trigger] m2.free[j])
            < m2.slots.len() && !m2.slots[m2.free[j] as int].live()
            && m2.slots[m2.free[j] as int].generation < u64::MAX by {
            if j < m.free.len() {
                assert(m.free[j] != k.index);
            }
        }
        assert forall|j1: int, j2: int| 0 <= j1 < j2 < m2.free.len() implies m2.free[j1]
            != m2.free[j2] by {
            if j2 == m.free.len() {
                assert(m2.free[j1] == m.free[j1]);
                assert(m2.free[j2] == k.index);
                assert(!m.slots[m.free[j1] as int].live());
                assert(m.slots[k.index as int].live());
            }
        }
        assert forall|i: int|
            0 <= i < m2.slots.len() && !(#[trigger] m2.slots[i]).live() && m2.slots[i].generation
                < u64::MAX implies m2.free.contains(i as usize) by {
            if i == k.index {
                assert(g < u64::MAX);
                assert(m2.free[m.free.len() as int] == k.index);
            } else {
                assert(m.free.contains(i as usize));
                let j = choose|j: int| 0 <= j < m.free.len() && m.free[j] == i as usize;
                assert(m2.free[j] == i as usize);
            }
        }
    }
    assert(map_of(m2.slots) =~= map_of(m.slots).remove(k));
}

/// What a replacement does, stated over the mapping: the key now maps to the
/// new value, nothing else changes, validity and live count are kept.
pub proof fn lemma_sp_replace<V>(m: MapState<V>, k: SlotKey, v: V)
    requires
        wf_state(m),
        map_of(m.slots).contains_key(k),
    ensures
        wf_state(sp_replace(m, k, v)),
        map_of(sp_replace(m, k, v).slots) == map_of(m.slots).insert(k, v),
        sp_replace(m, k, v).len == m.len,
{
    let m2 = sp_replace(m, k, v);
    lemma_live_count_update(m.slots, k.index as int, m2.slots[k.index as int]);
    assert forall|j: int|
        0 <= j < m2.free.len() implies !m2.slots[#[trigger] m2.free[j] as int].live()
            && m2.slots[m2.free[j] as int].generation < u64::MAX by {
        assert(m.free[j] != k.index);
    }
    assert(map_of(m2.slots) =~= map_of(m.slots).insert(k, v));
}

/// Every position a clearing frees is a live slot below the bound, the
/// entries are strictly increasing (hence distinct), and every live slot
/// whose counter is not exhausted is among them.
proof fn lemma_freed_below_props<V>(slots: Seq<Slot<V>>, upto: int)
    requires
        upto <= slots.len(),
        slots.len() <= usize::MAX,
    ensures
        forall|j: int|
            0 <= j < freed_below(slots, upto).len() ==> (#[trigger] freed_below(slots, upto)[j])
                < upto && slots[freed_below(slots, upto)[j] as int].live()
                && slots[freed_below(slots, upto)[j] as int].generation + 1 < u64::MAX,
        forall|j1: int, j2: int|
            0 <= j1 < j2 < freed_below(slots, upto).len() ==> freed_below(slots, upto)[j1]
                < freed_below(slots, upto)[j2],
        forall|i: int|
            0 <= i < upto && (#[trigger] slots[i]).live() && slots[i].generation + 1 < u64::MAX
                ==> freed_below(slots, upto).contains(i as usize),
    decreases upto,
{
    if upto > 0 {
        lemma_freed_below_props(slots, upto - 1);
        let pre = freed_below(slots, upto - 1);
        let cur = freed_below(slots, upto);
        if slots[upto - 1].live() && slots[upto - 1].generation + 1 < u64::MAX {
            assert(cur == pre.push((upto - 1) as usize));
            assert forall|j: int| 0 <= j < cur.len() implies (#[trigger] cur[j]) < upto
                && slots[cur[j] as int].live() && slots[cur[j] as int].generation + 1
                < u64::MAX by {
                if j < pre.len() {
                    assert(cur[j] == pre[j]);
                } else {
                    assert(cur[j] == (upto - 1) as usize);
                }
            }
            assert forall|j1: int, j2: int| 0 <= j1 < j2 < cur.len() implies cur[j1]
                < cur[j2] by {
                if j2 == cur.len() - 1 {
                    assert(cur[j1] == pre[j1]);
                    assert(pre[j1] < upto - 1);
                    assert(cur[j2] == (upto - 1) as usize);
                } else {
                    assert(cur[j1] == pre[j1] && cur[j2] == pre[j2]);
                }
            }
        } else {
            assert(cur == pre);
        }
        assert forall|i: int|
            0 <= i < upto && (#[trigger] slots[i]).live() && slots[i].generation + 1
                < u64::MAX implies cur.contains(i as usize) by {
            if i < upto - 1 {
                let j = choose|j: int| 0 <= j < pre.len() && pre[j] == i as usize;
                assert(cur[j] == i as usize);
            } else {
                assert(cur.last() == i as usize);
            }
        }
    }
}

/// What clearing does, stated over the mapping: the mapping is empty, the
/// state stays valid, and the live count is zero.
pub proof fn lemma_sp_clear<V>(m: MapState<V>)
    requires
        wf_state(m),
    ensures
        wf_state(sp_clear(m)),
        map_of(sp_clear(m).slots) == Map::<SlotKey, V>::empty(),
        sp_clear(m).len == 0,
{
    let m2 = sp_clear(m);
    let freed = freed_below(m.slots, m.slots.len() as int);
    let fl = m.free.len() as int;
    lemma_freed_below_props(m.slots, m.slots.len() as int);
    assert forall|i: int| 0 <= i < m2.slots.len() implies !(#[trigger] m2.slots[i]).live() by {
        assert(m2.slots[i] == cleared_slot(m.slots[i]));
    }
    lemma_live_count_none(m2.slots);
    assert forall|i: int| 0 <= i < m2.slots.len() implies (#[trigger] m2.slots[i]).wf() by {
        assert(m2.slots[i] == cleared_slot(m.slots[i]));
    }
    assert forall|j: int| 0 <= j < m2.free.len() implies (#[trigger] m2.free[j]) < m2.slots.len()
        && !m2.slots[m2.free[j] as int].live() && m2.slots[m2.free[j] as int].generation
        < u64::MAX by {
        if j < fl {
            assert(m2.free[j] == m.free[j]);
            let idx = m.free[j] as int;
            assert(!m.slots[idx].live() && m.slots[idx].generation < u64::MAX);
            assert(m2.slots[idx] == cleared_slot(m.slots[idx]));
        } else {
            assert(m2.free[j] == freed[j - fl]);
            let idx = freed[j - fl] as int;
            assert(m.slots[idx].live());
            assert(m.slots[idx].generation + 1 < u64::MAX);
            assert(m2.slots[idx] == cleared_slot(m.slots[idx]));
        }
    }
    assert forall|j1: int, j2: int| 0 <= j1 < j2 < m2.free.len() implies m2.free[j1]
        != m2.free[j2] by {
        if j1 < fl && j2 >= fl {
            assert(m2.free[j1] == m.free[j1]);
            assert(m2.free[j2] == freed[j2 - fl]);
            assert(!m.slots[m.free[j1] as int].live());
            assert(m.slots[freed[j2 - fl] as int].live());
        } else if j1 >= fl {
            assert(m2.free[j1] == freed[j1 - fl]);
            assert(m2.free[j2] == freed[j2 - fl]);
            assert(freed[j1 - fl] < freed[j2 - fl]);
        } else {
            assert(m2.free[j1] == m.free[j1] && m2.free[j2] == m.free[j2]);
        }
    }
    assert forall|i: int|
        0 <= i < m2.slots.len() && !(#[trigger] m2.slots[i]).live() && m2.slots[i].generation
            < u64::MAX implies m2.free.contains(i as usize) by {
        assert(m2.slots[i] == cleared_slot(m.slots[i]));
        if m.slots[i].live() {
            assert(m2.slots[i].generation == m.slots[i].generation + 1);
            assert(freed.contains(i as usize));
            let j = choose|j: int| 0 <= j < freed.len() && freed[j] == i as usize;
            assert(m2.free[fl + j] == i as usize);
        } else {
            assert(m.free.contains(i as usize));
            let j = choose|j: int| 0 <= j < m.free.len() && m.free[j] == i as usize;
            assert(m2.free[j] == i as usize);
        }
    }
    assert(map_of(m2.slots) =~= Map::<SlotKey, V>::empty());
}

} // verus!
