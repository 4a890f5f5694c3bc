use ev_slotmap::MapKey;
use ev_slotmap::SlotMap;
use ev_slotmap::WriteHandle;

#[test]
fn snapshot_round_trip() {
    let mut w: WriteHandle<usize> = WriteHandle::new();
    let a = w.insert((), 10);
    let b = w.insert((), 20);
    let c = w.insert((), 30);
    w.remove(&b);

    let list = w.to_snapshot().expect("refreshed map must serialize");
    assert_eq!(list.len(), 2);

    let rebuilt = SlotMap::from_entries(&list);
    let w2: WriteHandle<usize> = WriteHandle::new_with_data(rebuilt);

    // the rebuilt map holds the same bindings under the same keys
    assert_eq!(w2.len(), 2);
    assert_eq!(w2.get(&a), Some(10));
    assert_eq!(w2.get(&b), None);
    assert_eq!(w2.get(&c), Some(30));
}

#[test]
fn snapshot_absent_before_refresh_and_after_destroy() {
    let mut w: WriteHandle<usize> = WriteHandle::new();
    assert!(w.to_snapshot().is_none());
    let _ = w.insert((), 1);
    assert!(w.to_snapshot().is_some());
    w.destroy();
    assert!(w.to_snapshot().is_none());
}

#[test]
fn new_with_data_reads_at_once() {
    let mut data: SlotMap<usize> = SlotMap::new();
    let k = data.insert(5);
    let k2 = data.insert(6);
    let w: WriteHandle<usize> = WriteHandle::new_with_data(data);
    assert!(!w.is_destroyed());
    assert!(w.read().is_some());
    assert_eq!(w.len(), 2);
    assert_eq!(w.get(&MapKey { pointer: (), slot: k }), Some(5));
    assert_eq!(w.get(&MapKey { pointer: (), slot: k2 }), Some(6));
}

#[test]
fn snapshot_of_empty_map() {
    let mut w: WriteHandle<usize> = WriteHandle::new();
    w.refresh();
    let list = w.to_snapshot().expect("refreshed map must serialize");
    assert_eq!(list.len(), 0);
    let rebuilt: SlotMap<usize> = SlotMap::from_entries(&list);
    let w2: WriteHandle<usize> = WriteHandle::new_with_data(rebuilt);
    assert_eq!(w2.len(), 0);
    assert!(w2.is_empty());
}
