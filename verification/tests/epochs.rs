use ev_slotmap::epoch_after_pin;
use ev_slotmap::epoch_after_release;
use ev_slotmap::reader_has_moved_on;
use ev_slotmap::WriteHandle;
use ev_slotmap::PARKED_BIT;

#[test]
fn pin_and_release_shape() {
    // a reader that has never read publishes 1 on its first pin
    let first = epoch_after_pin(0);
    assert_eq!(first, 1);
    // releasing sets the parked bit and keeps the count
    let parked = epoch_after_release(first);
    assert_eq!(parked, 1 | PARKED_BIT);
    // the next pin clears the bit and bumps the count
    let second = epoch_after_pin(parked);
    assert_eq!(second, 2);
    assert_eq!(epoch_after_release(second), 2 | PARKED_BIT);
}

#[test]
fn moved_on_decision_table() {
    let reading: u64 = 5;
    let parked: u64 = 5 | PARKED_BIT;
    // a reader recorded mid-read that has not advanced blocks the writer
    assert!(!reader_has_moved_on(reading, reading));
    // one recorded mid-read that has since parked does not
    assert!(reader_has_moved_on(reading, parked));
    // one recorded mid-read that started a later read does not
    assert!(reader_has_moved_on(reading, 6));
    // one recorded parked is safe whatever it does now
    assert!(reader_has_moved_on(parked, reading));
    assert!(reader_has_moved_on(parked, parked));
    // a reader that never read is safe
    assert!(reader_has_moved_on(reading, 0));
    assert!(reader_has_moved_on(0, 0));
}

#[test]
fn reader_lifecycle() {
    let mut w: WriteHandle<usize> = WriteHandle::new();
    let r0 = w.register_reader();
    let r1 = w.register_reader();
    assert_ne!(r0, r1);
    let k = w.insert((), 3);
    // a read on a live map pins the front buffer
    assert!(w.enter_read(r0));
    assert_eq!(w.get(&k), Some(3));
    w.exit_read(r0);
    // writes go through once the reader has parked again
    w.update(k, 4);
    assert_eq!(w.get(&k), Some(4));
    w.deregister_reader(r1);
    // the registry reuses the vacated slot for the next reader
    let r2 = w.register_reader();
    assert_eq!(r2, r1);
    w.deregister_reader(r0);
    w.deregister_reader(r2);
}

#[test]
fn read_attempt_after_destroy_parks_at_once() {
    let mut w: WriteHandle<usize> = WriteHandle::new();
    let r0 = w.register_reader();
    let _ = w.insert((), 1);
    w.destroy();
    assert!(w.is_destroyed());
    // the pin finds no buffer: nothing is pinned and the epoch parks again
    assert!(!w.enter_read(r0));
}
