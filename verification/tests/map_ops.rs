use ev_slotmap::MapKey;
use ev_slotmap::SlotKey;
use ev_slotmap::WriteHandle;

fn default_key() -> MapKey<()> {
    MapKey { pointer: (), slot: SlotKey { index: 0, generation: 0 } }
}

#[test]
fn it_works() {
    let x: usize = 42;

    let mut w: WriteHandle<usize> = WriteHandle::new();

    // the map is uninitialized, so all lookups should return None
    assert!(matches!(w.get(&default_key()), None));

    let key = w.insert((), x);

    assert!(matches!(w.get(&key), Some(_)));
    assert_eq!(w.contains_key(&key), true);

    let x: usize = 54;
    let y: usize = 69;

    w.update(key, x);

    let key2 = w.insert((), y);

    assert!(matches!(w.get(&key), Some(_)));
    assert_eq!(w.contains_key(&key), true);

    assert!(matches!(w.get(&key2), Some(_)));
    w.remove(&key);

    // but after the swap, the record is there!
    assert!(matches!(w.get(&key), None));
    assert_eq!(w.contains_key(&key), false);

    assert!(matches!(w.get(&key2), Some(_)));
    assert_eq!(w.contains_key(&key2), true);

    w.clear();

    assert!(matches!(w.get(&key), None));
    assert_eq!(w.contains_key(&key), false);

    assert!(matches!(w.get(&key2), None));
    assert_eq!(w.contains_key(&key2), false);
}

#[test]
fn read_after_drop() {
    let x: usize = 42;

    let mut w: WriteHandle<usize> = WriteHandle::new();

    // the map is uninitialized, so all lookups should return None
    assert!(matches!(w.get(&default_key()), None));

    let key = w.insert((), x);
    assert!(matches!(w.get(&key), Some(_)));

    // once the writer destroys the map, readers should see empty maps
    w.destroy();
    assert!(matches!(w.get(&key), None));
}

#[test]
fn values_observed_exactly() {
    let mut w: WriteHandle<usize> = WriteHandle::new();
    let k = w.insert((), 42);
    assert_eq!(w.get(&k), Some(42));
    w.update(k, 54);
    assert_eq!(w.get(&k), Some(54));
    let k2 = w.insert((), 69);
    assert_eq!(w.get(&k2), Some(69));
    assert_eq!(w.get(&k), Some(54));
    assert_eq!(w.len(), 2);
    w.remove(&k);
    assert_eq!(w.get(&k), None);
    assert_eq!(w.len(), 1);
}

#[test]
fn uninitialised_vs_destroyed() {
    let mut w: WriteHandle<usize> = WriteHandle::new();
    // immediately after creation: not destroyed, but no readable state yet
    assert_eq!(w.is_destroyed(), false);
    assert!(w.read().is_none());
    assert_eq!(w.len(), 0);
    assert!(w.is_empty());
    // after the first write there is a readable state
    let _k = w.insert((), 1);
    assert!(w.read().is_some());
    // after destruction: destroyed, and still nothing readable
    w.destroy();
    assert_eq!(w.is_destroyed(), true);
    assert!(w.read().is_none());
    assert_eq!(w.len(), 0);
}

#[test]
fn refresh_alone_changes_nothing() {
    let mut w: WriteHandle<usize> = WriteHandle::new();
    let k = w.insert((), 7);
    w.refresh();
    assert_eq!(w.get(&k), Some(7));
    assert_eq!(w.len(), 1);
    // a refresh on a fresh map makes the (empty) state readable
    let mut w2: WriteHandle<usize> = WriteHandle::new();
    assert!(w2.read().is_none());
    w2.refresh();
    let r = w2.read().expect("refreshed map must be readable");
    assert_eq!(r.len(), 0);
    assert!(r.is_empty());
}

#[test]
fn insert_remove_keeps_length() {
    let mut w: WriteHandle<usize> = WriteHandle::new();
    let a = w.insert((), 1);
    let b = w.insert((), 2);
    let before = w.len();
    let k = w.insert((), 3);
    w.remove(&k);
    assert_eq!(w.len(), before);
    // the earlier entries are untouched, across the refreshes both calls did
    assert_eq!(w.get(&a), Some(1));
    assert_eq!(w.get(&b), Some(2));
}

#[test]
fn clear_is_idempotent() {
    let mut w: WriteHandle<usize> = WriteHandle::new();
    let k = w.insert((), 5);
    let k2 = w.insert((), 6);
    w.clear();
    assert_eq!(w.len(), 0);
    assert_eq!(w.get(&k), None);
    assert_eq!(w.get(&k2), None);
    w.clear();
    assert_eq!(w.len(), 0);
    assert_eq!(w.get(&k), None);
    assert_eq!(w.get(&k2), None);
}

#[test]
fn stale_key_never_matches_again() {
    let mut w: WriteHandle<usize> = WriteHandle::new();
    let k = w.insert((), 11);
    w.remove(&k);
    // the slot is reused, but under a fresh generation: the old key is dead
    let k2 = w.insert((), 22);
    assert_eq!(k2.slot.index, k.slot.index);
    assert_ne!(k2.slot.generation, k.slot.generation);
    assert_eq!(w.get(&k), None);
    assert_eq!(w.get(&k2), Some(22));
}

#[test]
fn keys_are_unique() {
    let mut w: WriteHandle<usize> = WriteHandle::new();
    let mut keys: Vec<SlotKey> = Vec::new();
    for i in 0..100 {
        let k = w.insert((), i);
        keys.push(k.slot);
        if i % 3 == 0 {
            w.remove(&MapKey { pointer: (), slot: keys[keys.len() - 1] });
        }
    }
    for i in 0..keys.len() {
        for j in (i + 1)..keys.len() {
            assert_ne!(keys[i], keys[j]);
        }
    }
}

#[test]
fn sequential_consistency() {
    // one writer, repeated read-then-update rounds over a fixed key set
    let mut data = ev_slotmap::SlotMap::new();
    let mut keys: Vec<SlotKey> = Vec::new();
    let insertions = 100;
    for _ in 0..insertions {
        keys.push(data.insert(0usize));
    }
    let mut w: WriteHandle<usize> = WriteHandle::new_with_data(data);

    let writes = 100;
    for _ in 0..writes {
        for k in keys.iter() {
            let key = MapKey { pointer: (), slot: *k };
            let old_val = w.get(&key).unwrap();
            w.update(key, old_val + 1);
        }
    }
    for k in keys.iter() {
        let key = MapKey { pointer: (), slot: *k };
        assert_eq!(writes, w.get(&key).unwrap());
    }
}

#[test]
fn test_iter() {
    let mut w: WriteHandle<usize> = WriteHandle::new();

    let insertions = 10000;

    let mut keys = Vec::new();

    for i in 0..insertions {
        keys.push(Some(w.insert((), i)));
    }

    let read_ref = w.read().expect("Dude, where's my read ref");

    for v in read_ref.values() {
        let old = keys.get_mut(v).expect("Dude, where's my entry").take();
        assert!(old.is_some());
    }

    for key in keys {
        assert!(key.is_none());
    }
}

#[test]
fn read_ref_lookups() {
    let mut w: WriteHandle<usize> = WriteHandle::new();
    let k = w.insert((), 8);
    let k2 = w.insert((), 9);
    w.remove(&k2);
    let r = w.read().expect("refreshed map must be readable");
    assert_eq!(r.len(), 1);
    assert!(!r.is_empty());
    assert_eq!(r.get(&k), Some(8));
    assert_eq!(r.get(&k2), None);
    assert!(r.contains_key(&k));
    assert!(!r.contains_key(&k2));
    let pairs = r.iter_raw();
    assert_eq!(pairs.len(), 1);
    assert_eq!(pairs[0].0, k.slot);
    assert_eq!(pairs[0].1, 8);
}
