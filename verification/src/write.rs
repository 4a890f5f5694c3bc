//! The writer and the refresh protocol.
//!
//! The writer owns the back buffer and the last staged operation; the front
//! buffer is what readers observe. Every write performs one refresh: wait for
//! quiescence, replay the previously staged operation on the back buffer
//! (bringing it level with the front), apply the new operation, swap the two
//! buffers, and record every reader's epoch for the next quiescence test.
//!
//! The synchronization invariant carried by [`WriteHandle::wf`] is the heart
//! of the design: at any moment the back buffer, after replaying the one
//! staged operation, is structurally identical to the front buffer — free
//! list and generations included — so the replay allocates the very same
//! keys, and no operation log is needed.

use crate::epoch::epoch_after_pin;
use crate::epoch::epoch_after_release;
use crate::epoch::reader_has_moved_on;
use crate::epoch::sp_count;
use crate::epoch::sp_moved_on;
use crate::epoch::sp_parked;
use crate::epoch::sp_pin;
use crate::epoch::PARKED_BIT;
use crate::inner::sp_apply;
use crate::inner::sp_apply_ok;
use crate::inner::sp_stage_ok;
use crate::inner::Inner;
use crate::inner::Operation;
use crate::read::MapKey;
use crate::read::MapReadRef;
use crate::registry::Registry;
use crate::slots::empty_state;
use crate::slots::entries_to_map;
use crate::slots::lemma_sp_clear;
use crate::slots::lemma_sp_insert;
use crate::slots::lemma_sp_remove;
use crate::slots::lemma_sp_replace;
use crate::slots::map_of;
use crate::slots::MapState;
use crate::slots::SlotKey;
use crate::slots::SlotMap;
use vstd::prelude::*;

verus! {

/// The writer half of the map, which in this sequential rendering also owns
/// the reader-visible front buffer, the epoch registry and the recorded
/// epochs. Reads go through `&self`; a read reference borrows the front
/// buffer, so the borrow checker plays the role the epoch pin plays in the
/// concurrent envelope.
pub struct WriteHandle<V> {
    back: Inner<V>,
    front: Option<Inner<V>>,
    last_op: Option<Operation<V>>,
    registry: Registry,
    last_epochs: Vec<u64>,
    issued: Ghost<Set<SlotKey>>,
    initial: Ghost<MapState<V>>,
    history: Ghost<Seq<Operation<V>>>,
}

impl<V> View for WriteHandle<V> {
    type V = Map<SlotKey, V>;

    /// The mapping readers observe: the front buffer's bindings, or nothing
    /// once the map is destroyed.
    closed spec fn view(&self) -> Map<SlotKey, V> {
        match self.front {
            Some(f) => f.view_map(),
            None => Map::empty(),
        }
    }
}

impl<V> WriteHandle<V> {
    /// Whether the writer has torn the map down; readers then see nothing.
    pub closed spec fn spec_destroyed(self) -> bool {
        self.front is None
    }

    /// Whether the front buffer has been through a refresh; before the first
    /// one, readers treat the map as absent.
    pub closed spec fn spec_refreshed(self) -> bool {
        match self.front {
            Some(f) => f.spec_ready(),
            None => false,
        }
    }

    /// The full state of the front buffer's container.
    pub closed spec fn front_state(self) -> MapState<V> {
        self.front->0.state()
    }

    /// The number of live slots in the front buffer.
    pub closed spec fn spec_len(self) -> nat {
        match self.front {
            Some(f) => f.state().len,
            None => 0,
        }
    }

    /// The number of slots the front buffer has ever allocated.
    pub closed spec fn spec_slots(self) -> nat {
        match self.front {
            Some(f) => f.state().slots.len(),
            None => 0,
        }
    }

    /// Every key an insertion has ever returned (or that the initial
    /// container carried). No insertion ever returns one of these again.
    pub closed spec fn issued_keys(self) -> Set<SlotKey> {
        self.issued@
    }

    /// The container state the map was created from: empty, or the data a
    /// populated map was built with.
    pub closed spec fn spec_initial(self) -> MapState<V> {
        self.initial@
    }

    /// Every operation whose refresh has completed, in order.
    pub closed spec fn spec_history(self) -> Seq<Operation<V>> {
        self.history@
    }

    /// The registered readers' published epochs.
    pub closed spec fn epochs(self) -> Map<usize, u64> {
        self.registry.epochs()
    }

    /// The epoch the writer recorded for a reader slot at the last refresh;
    /// a slot it has not recorded counts as zero.
    pub closed spec fn recorded_at(self, idx: usize) -> u64 {
        if idx < self.last_epochs@.len() {
            self.last_epochs@[idx as int]
        } else {
            0
        }
    }

    /// The writer's quiescence test over the whole registry: every reader
    /// has moved past the epoch recorded at the last swap. A write waits
    /// until this holds; in this sequential rendering it is required instead,
    /// since a write while it fails would wait forever.
    pub open spec fn quiescent(self) -> bool {
        forall|idx: usize| #[trigger]
            self.epochs().contains_key(idx) ==> sp_moved_on(
                self.recorded_at(idx),
                self.epochs()[idx],
            )
    }

    /// Every registered reader is parked or has never read. Tearing the map
    /// down waits for this; it is the quiescence test against epochs the
    /// writer has just recorded.
    pub open spec fn settled(self) -> bool {
        forall|idx: usize| #[trigger]
            self.epochs().contains_key(idx) ==> sp_parked(self.epochs()[idx]) || self.epochs()[idx]
                == 0
    }

    /// The writer's recorded epochs agree with every reader's current epoch;
    /// this holds right after each refresh.
    pub open spec fn observed_current(self) -> bool {
        forall|idx: usize| #[trigger]
            self.epochs().contains_key(idx) ==> self.recorded_at(idx) == self.epochs()[idx]
    }

    /// The synchronization invariant. With no operation staged the two
    /// buffers are structurally identical; with one staged, replaying it on
    /// the back buffer yields exactly the front buffer, and that replay is
    /// legal. A front buffer that has never been refreshed is pristine, and
    /// once the map is destroyed nothing remains staged.
    pub closed spec fn inv(self) -> bool {
        &&& self.back.wf()
        &&& match self.front {
            Some(f) => {
                &&& f.wf()
                &&& match self.last_op {
                    None => self.back.state() == f.state(),
                    Some(op) => {
                        &&& sp_apply(self.back.state(), op).0 == f.state()
                        &&& sp_apply_ok(self.back.state(), op)
                        &&& !(op is NoOp)
                    },
                }
                &&& (!f.spec_ready() ==> f.state() == empty_state::<V>())
                &&& forall|k: SlotKey| #[trigger]
                    self.issued@.contains(k) ==> k.index < f.state().slots.len() && k.generation
                        <= f.state().slots[k.index as int].generation
                &&& f.state() == crate::laws::sp_run(self.initial@, self.history@)
            },
            None => self.last_op is None,
        }
    }

    /// Structural validity of the whole handle.
    pub open spec fn wf(self) -> bool {
        self.inv()
    }

    /// The buffers and their observables are untouched.
    pub open spec fn same_buffers(self, other: Self) -> bool {
        &&& other@ == self@
        &&& other.spec_destroyed() == self.spec_destroyed()
        &&& other.spec_refreshed() == self.spec_refreshed()
        &&& other.spec_len() == self.spec_len()
        &&& other.spec_slots() == self.spec_slots()
    }

    /// The recorded epochs are untouched.
    pub open spec fn same_recorded(self, other: Self) -> bool {
        forall|idx: usize| other.recorded_at(idx) == self.recorded_at(idx)
    }

    /// What any read observes is the state reached by the completed
    /// operation history: the mapping readers see is exactly the initial
    /// container state with every completed operation applied, in order.
    /// Each write completes its refresh before returning, so there is never
    /// a partially applied suffix.
    pub proof fn lemma_view_is_history_state(self)
        requires
            self.wf(),
            !self.spec_destroyed(),
        ensures
            self@ == map_of(crate::laws::sp_run(self.spec_initial(), self.spec_history()).slots),
    {
    }

    /// Create an empty map: a ready back buffer, a pristine front buffer, no
    /// staged operation and no readers.
    pub fn new() -> (r: Self)
        ensures
            r.wf(),
            !r.spec_destroyed(),
            !r.spec_refreshed(),
            r@ == Map::<SlotKey, V>::empty(),
            r.spec_len() == 0,
            r.spec_slots() == 0,
            r.epochs() == Map::<usize, u64>::empty(),
            r.issued_keys() == Set::<SlotKey>::empty(),
            r.spec_initial() == empty_state::<V>(),
            r.spec_history() == Seq::<Operation<V>>::empty(),
    {
        let mut back = Inner::new();
        back.mark_ready();
        let front = Inner::new();
        let r = WriteHandle {
            back,
            front: Some(front),
            last_op: None,
            registry: Registry::new(),
            last_epochs: Vec::new(),
            issued: Ghost(Set::empty()),
            initial: Ghost(empty_state::<V>()),
            history: Ghost(Seq::empty()),
        };
        proof {
            assert(map_of(r.front_state().slots) =~= Map::<SlotKey, V>::empty());
        }
        r
    }

    /// Returns true if the writer has destroyed the map.
    pub fn is_destroyed(&self) -> (r: bool)
        ensures
            r == self.spec_destroyed(),
    {
        match &self.front {
            Some(_) => false,
            None => true,
        }
    }

    /// Returns the number of live keys readers observe: zero before the
    /// first refresh and after destruction, and the front buffer's live slot
    /// count otherwise.
    pub fn len(&self) -> (r: usize)
        requires
            self.wf(),
        ensures
            r == self.spec_len(),
    {
        match &self.front {
            Some(f) => f.len(),
            None => 0,
        }
    }

    /// Returns true if readers observe no value.
    pub fn is_empty(&self) -> (r: bool)
        requires
            self.wf(),
        ensures
            r == (self.spec_len() == 0),
    {
        self.len() == 0
    }

    /// Returns true if readers observe a value under the key.
    pub fn contains_key<P>(&self, key: &MapKey<P>) -> (r: bool)
        requires
            self.wf(),
        ensures
            r == self@.contains_key(key.slot),
    {
        match &self.front {
            Some(f) => f.contains_key(key.slot),
            None => false,
        }
    }

    /// Take out a reference to the read side of the map. While it lives, the
    /// map cannot be written. Absent if no refresh has happened yet or the
    /// map has been destroyed.
    pub fn read(&self) -> (r: Option<MapReadRef<'_, V>>)
        requires
            self.wf(),
        ensures
            r is Some <==> self.spec_refreshed(),
            r matches Some(g) ==> g.wf() && g@ == self@ && g.spec_len() == self.spec_len(),
    {
        match &self.front {
            Some(f) => {
                if f.is_ready() {
                    Some(MapReadRef::new_ref(f))
                } else {
                    None
                }
            },
            None => None,
        }
    }

    /// Register a reader with the epoch registry; its epoch starts at zero.
    pub fn register_reader(&mut self) -> (idx: usize)
        requires
            old(self).wf(),
        ensures
            final(self).wf(),
            !old(self).epochs().contains_key(idx),
            final(self).epochs() == old(self).epochs().insert(idx, 0),
            old(self).same_buffers(*final(self)),
            old(self).same_recorded(*final(self)),
    {
        self.registry.register()
    }

    /// Remove a reader from the epoch registry; the slot may be reused.
    pub fn deregister_reader(&mut self, idx: usize)
        requires
            old(self).wf(),
            old(self).epochs().contains_key(idx),
        ensures
            final(self).wf(),
            final(self).epochs() == old(self).epochs().remove(idx),
            old(self).same_buffers(*final(self)),
            old(self).same_recorded(*final(self)),
    {
        self.registry.deregister(idx);
    }

    /// A reader starts a read: it publishes the next read count with the
    /// parked bit clear, then checks the map. If the map is destroyed it
    /// parks again at once and pins nothing; the returned flag says whether
    /// the front buffer is pinned.
    pub fn enter_read(&mut self, idx: usize) -> (pinned: bool)
        requires
            old(self).wf(),
            old(self).epochs().contains_key(idx),
            sp_count(old(self).epochs()[idx]) + 1 < PARKED_BIT,
        ensures
            final(self).wf(),
            pinned == !old(self).spec_destroyed(),
            pinned ==> final(self).epochs() == old(self).epochs().insert(
                idx,
                sp_pin(old(self).epochs()[idx]),
            ) && !sp_parked(final(self).epochs()[idx]) && final(self).epochs()[idx] != 0,
            sp_count(final(self).epochs()[idx]) == sp_count(old(self).epochs()[idx]) + 1,
            !pinned ==> final(self).epochs() == old(self).epochs().insert(
                idx,
                sp_pin(old(self).epochs()[idx]) | PARKED_BIT,
            ) && sp_parked(final(self).epochs()[idx]),
            old(self).same_buffers(*final(self)),
            old(self).same_recorded(*final(self)),
    {
        let e = self.registry.lookup(idx);
        let pinned_epoch = epoch_after_pin(e);
        let destroyed = match &self.front {
            Some(_) => false,
            None => true,
        };
        if !destroyed {
            self.registry.publish(idx, pinned_epoch);
            true
        } else {
            let parked = epoch_after_release(pinned_epoch);
            self.registry.publish(idx, parked);
            false
        }
    }

    /// A reader finishes a read: it publishes its count with the parked bit
    /// set, releasing its pin on the front buffer.
    pub fn exit_read(&mut self, idx: usize)
        requires
            old(self).wf(),
            old(self).epochs().contains_key(idx),
            !sp_parked(old(self).epochs()[idx]),
        ensures
            final(self).wf(),
            final(self).epochs() == old(self).epochs().insert(
                idx,
                old(self).epochs()[idx] | PARKED_BIT,
            ),
            sp_parked(final(self).epochs()[idx]),
            sp_count(final(self).epochs()[idx]) == sp_count(old(self).epochs()[idx]),
            old(self).same_buffers(*final(self)),
            old(self).same_recorded(*final(self)),
    {
        let e = self.registry.lookup(idx);
        let parked = epoch_after_release(e);
        self.registry.publish(idx, parked);
    }
}

impl<V: Copy> WriteHandle<V> {
    /// Returns the value readers observe under the key: absent before the
    /// first refresh, after destruction, and for any key that is not live.
    pub fn get<P>(&self, key: &MapKey<P>) -> (r: Option<V>)
        requires
            self.wf(),
        ensures
            r == if self@.contains_key(key.slot) {
                Some(self@[key.slot])
            } else {
                None::<V>
            },
    {
        match &self.front {
            Some(f) => f.get(key.slot),
            None => None,
        }
    }

    /// The front buffer's bindings, for serialization: absent exactly while
    /// readers observe no map (no refresh yet, or destroyed).
    pub fn to_snapshot(&self) -> (r: Option<Vec<(SlotKey, V)>>)
        requires
            self.wf(),
        ensures
            r is Some <==> self.spec_refreshed(),
            r matches Some(list) ==> entries_to_map(list@) == self@ && list@.len()
                == self.spec_len() && (forall|i: int, j: int|
                0 <= i < j < list@.len() ==> list@[i].0.index < list@[j].0.index) && (forall|
                i: int,
                j: int,
            |
                0 <= i < j < list@.len() ==> list@[i].0 != list@[j].0) && (forall|i: int|
                0 <= i < list@.len() ==> (#[trigger] list@[i]).0.index < usize::MAX) && (forall|
                i: int,
            |
                0 <= i < list@.len() ==> (#[trigger] list@[i]).0.generation % 2 == 0),
    {
        match &self.front {
            Some(f) => {
                if f.is_ready() {
                    Some(f.entries())
                } else {
                    None
                }
            },
            None => None,
        }
    }

    /// Build a map already holding the given container's bindings, as if
    /// each had been inserted and refreshed: both buffers are populated and
    /// ready, and readers observe the data at once.
    pub fn new_with_data(data: SlotMap<V>) -> (r: Self)
        requires
            data.wf(),
        ensures
            r.wf(),
            !r.spec_destroyed(),
            r.spec_refreshed(),
            r@ == data@,
            r.spec_len() == data.spec_len(),
            r.spec_slots() == data.state().slots.len(),
            r.epochs() == Map::<usize, u64>::empty(),
            r.issued_keys() == data@.dom(),
            r.spec_initial() == data.state(),
            r.spec_history() == Seq::<Operation<V>>::empty(),
    {
        let ghost dom = data@.dom();
        let copy = data.duplicate();
        let back = Inner::new_ready(copy);
        let front = Inner::new_ready(data);
        let r = WriteHandle {
            back,
            front: Some(front),
            last_op: None,
            registry: Registry::new(),
            last_epochs: Vec::new(),
            issued: Ghost(dom),
            initial: Ghost(data.state()),
            history: Ghost(Seq::empty()),
        };
        proof {
            assert forall|k: SlotKey| #[trigger] r.issued@.contains(k) implies k.index
                < r.front_state().slots.len() && k.generation
                <= r.front_state().slots[k.index as int].generation by {
                assert(map_of(r.front_state().slots).contains_key(k));
            }
        }
        r
    }

    /// One full refresh with the given operation: quiescence check, replay
    /// of the staged operation, application of the new one, buffer swap, and
    /// epoch recording.
    fn refresh_with(&mut self, op: Operation<V>) -> (r: Option<SlotKey>)
        requires
            old(self).wf(),
            !old(self).spec_destroyed(),
            old(self).quiescent(),
            sp_stage_ok(old(self).front_state(), op),
        ensures
            final(self).wf(),
            !final(self).spec_destroyed(),
            final(self).spec_refreshed(),
            final(self).front_state() == sp_apply(old(self).front_state(), op).0,
            r == sp_apply(old(self).front_state(), op).1,
            final(self)@ == map_of(sp_apply(old(self).front_state(), op).0.slots),
            final(self).epochs() == old(self).epochs(),
            final(self).observed_current(),
            final(self).issued_keys() == old(self).issued_keys(),
            final(self).spec_initial() == old(self).spec_initial(),
            final(self).spec_history() == old(self).spec_history().push(op),
            op is NoOp ==> final(self).last_op is None,
    {
        let ghost pre = *self;
        // size the recorded-epoch table so every reader slot has a row
        let space = self.registry.space();
        while self.last_epochs.len() < space
            invariant
                self.back == pre.back,
                self.front == pre.front,
                self.last_op == pre.last_op,
                self.registry == pre.registry,
                self.issued == pre.issued,
                self.initial == pre.initial,
                self.history == pre.history,
                pre.last_epochs@.len() <= self.last_epochs@.len(),
                forall|idx: usize| self.recorded_at(idx) == pre.recorded_at(idx),
            decreases space - self.last_epochs.len(),
        {
            let ghost before = self.last_epochs@;
            self.last_epochs.push(0);
            proof {
                assert forall|idx: usize| self.recorded_at(idx) == pre.recorded_at(idx) by {
                    if (idx as int) < before.len() {
                        assert(self.last_epochs@[idx as int] == before[idx as int]);
                    }
                }
            }
        }
        let ghost sized = *self;
        proof {
            assert forall|idx: usize| #[trigger] self.epochs().contains_key(idx) implies sp_moved_on(
                self.recorded_at(idx),
                self.epochs()[idx],
            ) by {
                assert(self.epochs() == pre.epochs());
                assert(self.recorded_at(idx) == pre.recorded_at(idx));
            }
        }
        // quiescence scan: every reader has moved past its recorded epoch
        let eps = self.registry.observe();
        let n = eps.len();
        let mut all_moved = true;
        let mut i: usize = 0;
        while i < n
            invariant
                *self == sized,
                n == eps@.len(),
                i <= n,
                all_moved,
                forall|q: int|
                    0 <= q < n ==> self.epochs().contains_pair(
                        (#[trigger] eps@[q]).0,
                        eps@[q].1,
                    ),
                forall|idx: usize| #[trigger]
                    self.epochs().contains_key(idx) ==> sp_moved_on(
                        self.recorded_at(idx),
                        self.epochs()[idx],
                    ),
            decreases n - i,
        {
            let idx = eps[i].0;
            let e = eps[i].1;
            let last = if idx < self.last_epochs.len() {
                self.last_epochs[idx]
            } else {
                0
            };
            proof {
                assert(self.epochs().contains_pair(idx, e));
                assert(last == self.recorded_at(idx));
            }
            let moved = reader_has_moved_on(last, e);
            if !moved {
                all_moved = false;
            }
            i = i + 1;
        }
        // the staged operation is replayed on the back buffer, which brings
        // it level with the front; then the new operation is applied to it
        let prev = self.last_op;
        match prev {
            Some(op0) => {
                let _ = self.back.apply(&op0);
            },
            None => {},
        }
        proof {
            assert(self.back.state() == pre.front_state());
        }
        let r = self.back.apply(&op);
        self.back.mark_ready();
        self.last_op = match op {
            Operation::NoOp => None,
            _ => Some(op),
        };
        self.history = Ghost(self.history@.push(op));
        // the swap: the back buffer becomes visible, the old front retires
        let mut taken: Option<Inner<V>> = None;
        core::mem::swap(&mut taken, &mut self.front);
        let mut buf = match taken {
            Some(x) => x,
            None => vstd::pervasive::unreached(),
        };
        core::mem::swap(&mut self.back, &mut buf);
        self.front = Some(buf);
        // record every reader's epoch to seed the next quiescence test
        let ghost swapped = *self;
        let obs = self.registry.observe();
        let m = obs.len();
        let mut j: usize = 0;
        while j < m
            invariant
                self.back == swapped.back,
                self.front == swapped.front,
                self.last_op == swapped.last_op,
                self.registry == swapped.registry,
                self.issued == swapped.issued,
                self.initial == swapped.initial,
                self.history == swapped.history,
                m == obs@.len(),
                j <= m,
                self.last_epochs@.len() == swapped.last_epochs@.len(),
                forall|q: int|
                    0 <= q < m ==> self.epochs().contains_pair(
                        (#[trigger] obs@[q]).0,
                        obs@[q].1,
                    ),
                forall|q: int, q2: int| 0 <= q < q2 < m ==> obs@[q].0 != obs@[q2].0,
                forall|k: usize| #[trigger]
                    self.epochs().contains_key(k) ==> exists|q: int|
                        0 <= q < m && (#[trigger] obs@[q]).0 == k,
                forall|k: usize| #[trigger]
                    self.epochs().contains_key(k) ==> k < self.last_epochs@.len(),
                forall|q: int|
                    0 <= q < j ==> self.last_epochs@[(#[trigger] obs@[q]).0 as int] == obs@[q].1,
            decreases m - j,
        {
            let ghost before = self.last_epochs@;
            let idx = obs[j].0;
            let e = obs[j].1;
            proof {
                assert(self.epochs().contains_pair(idx, e));
            }
            self.last_epochs.set(idx, e);
            proof {
                assert forall|q: int|
                    0 <= q < j + 1 implies self.last_epochs@[(#[trigger] obs@[q]).0 as int]
                    == obs@[q].1 by {
                    if q < j {
                        assert(obs@[q].0 != idx);
                        assert(self.last_epochs@[obs@[q].0 as int] == before[obs@[q].0 as int]);
                    }
                }
            }
            j = j + 1;
        }
        proof {
            assert forall|idx: usize| #[trigger]
                final(self).epochs().contains_key(idx) implies final(self).recorded_at(idx)
                == final(self).epochs()[idx] by {
                let q = choose|q: int| 0 <= q < m && (#[trigger] obs@[q]).0 == idx;
                assert(self.last_epochs@[obs@[q].0 as int] == obs@[q].1);
            }
            // every key issued so far still names a slot whose generation
            // has not gone backwards: generations only grow
            assert(self.issued == pre.issued);
            // the front buffer now holds the state of the extended history
            assert(self.history@ == pre.history@.push(op));
            assert(crate::laws::sp_run(pre.initial@, self.history@) == sp_apply(
                crate::laws::sp_run(pre.initial@, pre.history@),
                op,
            ).0) by {
                assert(self.history@.drop_last() =~= pre.history@);
                assert(self.history@.last() == op);
            }
            assert forall|k: SlotKey| #[trigger] self.issued@.contains(k) implies k.index
                < self.front_state().slots.len() && k.generation
                <= self.front_state().slots[k.index as int].generation by {
                assert(pre.issued@.contains(k));
                assert(k.index < pre.front_state().slots.len());
                crate::laws::lemma_generation_monotone(pre.front_state(), op, k.index as int);
            }
        }
        r
    }

    /// Insert the value and return its key, paired with the caller-supplied
    /// pointer data. The key has never been returned by this map before, and
    /// the insertion is visible to reads that follow.
    pub fn insert<P>(&mut self, pointer: P, value: V) -> (k: MapKey<P>)
        requires
            old(self).wf(),
            !old(self).spec_destroyed(),
            old(self).quiescent(),
            old(self).spec_slots() + 1 < usize::MAX,
        ensures
            final(self).wf(),
            !final(self).spec_destroyed(),
            final(self).spec_refreshed(),
            k.pointer == pointer,
            k.slot.generation % 2 == 0,
            !old(self)@.contains_key(k.slot),
            final(self)@ == old(self)@.insert(k.slot, value),
            final(self).spec_len() == old(self).spec_len() + 1,
            final(self).spec_slots() <= old(self).spec_slots() + 1,
            final(self).epochs() == old(self).epochs(),
            final(self).observed_current(),
            !old(self).issued_keys().contains(k.slot),
            final(self).issued_keys() == old(self).issued_keys().insert(k.slot),
            final(self).spec_initial() == old(self).spec_initial(),
            final(self).spec_history() == old(self).spec_history().push(Operation::Add(value)),
    {
        proof {
            lemma_sp_insert(self.front_state(), value);
        }
        let r = self.refresh_with(Operation::Add(value));
        let slot = match r {
            Some(s) => s,
            None => vstd::pervasive::unreached(),
        };
        proof {
            let m = old(self).front_state();
            assert forall|k: SlotKey| old(self).issued@.contains(k) implies k != slot by {
                if m.free.len() > 0 {
                    if k.index == slot.index {
                        assert(k.generation <= m.slots[slot.index as int].generation);
                    }
                } else {
                    assert(k.index < m.slots.len());
                }
            }
        }
        self.issued = Ghost(self.issued@.insert(slot));
        MapKey { pointer, slot }
    }

    /// Replace the value under the key with the given value. The key must be
    /// live; presenting a stale key is a caller error.
    pub fn update<P>(&mut self, key: MapKey<P>, value: V)
        requires
            old(self).wf(),
            !old(self).spec_destroyed(),
            old(self).quiescent(),
            old(self)@.contains_key(key.slot),
        ensures
            final(self).wf(),
            !final(self).spec_destroyed(),
            final(self).spec_refreshed(),
            final(self)@ == old(self)@.insert(key.slot, value),
            final(self).spec_len() == old(self).spec_len(),
            final(self).spec_slots() == old(self).spec_slots(),
            final(self).epochs() == old(self).epochs(),
            final(self).observed_current(),
            final(self).issued_keys() == old(self).issued_keys(),
            final(self).spec_initial() == old(self).spec_initial(),
            final(self).spec_history() == old(self).spec_history().push(
                Operation::Replace(key.slot, value),
            ),
    {
        proof {
            lemma_sp_replace(self.front_state(), key.slot, value);
        }
        let _ = self.refresh_with(Operation::Replace(key.slot, value));
    }

    /// Remove the value under the key. The key must be live; presenting a
    /// stale key is a caller error. The key never matches again.
    pub fn remove<P>(&mut self, key: &MapKey<P>)
        requires
            old(self).wf(),
            !old(self).spec_destroyed(),
            old(self).quiescent(),
            old(self)@.contains_key(key.slot),
        ensures
            final(self).wf(),
            !final(self).spec_destroyed(),
            final(self).spec_refreshed(),
            final(self)@ == old(self)@.remove(key.slot),
            final(self).spec_len() == old(self).spec_len() - 1,
            final(self).spec_slots() == old(self).spec_slots(),
            final(self).epochs() == old(self).epochs(),
            final(self).observed_current(),
            final(self).issued_keys() == old(self).issued_keys(),
            final(self).spec_initial() == old(self).spec_initial(),
            final(self).spec_history() == old(self).spec_history().push(
                Operation::Remove(key.slot),
            ),
    {
        proof {
            lemma_sp_remove(self.front_state(), key.slot);
        }
        let _ = self.refresh_with(Operation::Remove(key.slot));
    }

    /// Remove every value. Every key handed out so far stops matching.
    pub fn clear(&mut self)
        requires
            old(self).wf(),
            !old(self).spec_destroyed(),
            old(self).quiescent(),
        ensures
            final(self).wf(),
            !final(self).spec_destroyed(),
            final(self).spec_refreshed(),
            final(self)@ == Map::<SlotKey, V>::empty(),
            final(self).spec_len() == 0,
            final(self).spec_slots() == old(self).spec_slots(),
            final(self).epochs() == old(self).epochs(),
            final(self).observed_current(),
            final(self).issued_keys() == old(self).issued_keys(),
            final(self).spec_initial() == old(self).spec_initial(),
            final(self).spec_history() == old(self).spec_history().push(Operation::Clear),
    {
        proof {
            lemma_sp_clear(self.front_state());
        }
        let _ = self.refresh_with(Operation::Clear);
    }

    /// Flush without mutating: one refresh with no operation. Afterwards the
    /// two buffers hold the same data and readers observe the same map as
    /// before.
    pub fn refresh(&mut self)
        requires
            old(self).wf(),
            !old(self).spec_destroyed(),
            old(self).quiescent(),
        ensures
            final(self).wf(),
            !final(self).spec_destroyed(),
            final(self).spec_refreshed(),
            final(self)@ == old(self)@,
            final(self).spec_len() == old(self).spec_len(),
            final(self).spec_slots() == old(self).spec_slots(),
            final(self).epochs() == old(self).epochs(),
            final(self).observed_current(),
            final(self).issued_keys() == old(self).issued_keys(),
            final(self).spec_initial() == old(self).spec_initial(),
            final(self).spec_history() == old(self).spec_history().push(Operation::NoOp),
    {
        let _ = self.refresh_with(Operation::NoOp);
    }

    /// Tear the map down: flush the staged operation out of both buffers,
    /// wait until every reader has let go, and retire the buffers. Readers
    /// observe absence from here on. Every registered reader must be parked
    /// or never have read; the teardown would otherwise wait forever.
    pub fn destroy(&mut self)
        requires
            old(self).wf(),
            !old(self).spec_destroyed(),
            old(self).settled(),
        ensures
            final(self).wf(),
            final(self).spec_destroyed(),
            final(self)@ == Map::<SlotKey, V>::empty(),
            final(self).spec_len() == 0,
            final(self).epochs() == old(self).epochs(),
    {
        proof {
            assert forall|idx: usize| #[trigger] self.epochs().contains_key(idx) implies sp_moved_on(
                self.recorded_at(idx),
                self.epochs()[idx],
            ) by {}
        }
        // flush the staged operation out of both buffers
        let _ = self.refresh_with(Operation::NoOp);
        // wait for every reader to depart: each epoch just recorded must be
        // parked or untouched
        let eps = self.registry.observe();
        let n = eps.len();
        let ghost flushed = *self;
        let mut i: usize = 0;
        while i < n
            invariant
                *self == flushed,
                n == eps@.len(),
                i <= n,
                forall|q: int|
                    0 <= q < n ==> self.epochs().contains_pair((#[trigger] eps@[q]).0, eps@[q].1),
                forall|idx: usize| #[trigger]
                    self.epochs().contains_key(idx) ==> sp_parked(self.epochs()[idx])
                        || self.epochs()[idx] == 0,
            decreases n - i,
        {
            let idx = eps[i].0;
            let e = eps[i].1;
            let last = if idx < self.last_epochs.len() {
                self.last_epochs[idx]
            } else {
                0
            };
            proof {
                assert(self.epochs().contains_pair(idx, e));
            }
            let moved = reader_has_moved_on(last, e);
            proof {
                assert(moved);
            }
            i = i + 1;
        }
        // retire both buffers: the cell goes empty, the duplicate data in the
        // writer's buffer is dropped without touching what readers held
        let mut taken: Option<Inner<V>> = None;
        core::mem::swap(&mut taken, &mut self.front);
        let _ = self.back.apply(&Operation::Clear);
    }
}

} // verus!
