//! Per-reader epoch counters and the writer's quiescence test.
//!
//! Every reader owns one counter. The low bits count the reads the reader has
//! started; the most significant bit — the parked bit — is set while the
//! reader is between reads and therefore holds no reference into a buffer. A
//! reader publishes `count + 1` with the parked bit clear when it starts a
//! read and the same value with the parked bit set when it finishes.
//!
//! After swapping the buffers the writer records every reader's published
//! epoch. On the next swap it may touch the retired buffer only once each
//! reader has provably let go of it: the reader's recorded epoch was parked,
//! or its current epoch is parked, has changed, or is zero (a reader that
//! never read). [`reader_has_moved_on`] is that decision for one reader.

use vstd::prelude::*;

verus! {

/// The most significant bit of an epoch: set while the reader is parked.
pub const PARKED_BIT: u64 = 1u64 << 63u64;

/// Whether an epoch has the parked bit set.
pub open spec fn sp_parked(e: u64) -> bool {
    e & PARKED_BIT != 0
}

/// The read count an epoch carries: the epoch with the parked bit cleared.
pub open spec fn sp_count(e: u64) -> u64 {
    e & !PARKED_BIT
}

/// The writer's per-reader quiescence decision: the reader can hold no
/// reference into the buffer retired at the last swap if it was already
/// parked when the writer recorded `last`, or if its current epoch `now` has
/// changed since, is parked, or is zero (the reader has never read).
pub open spec fn sp_moved_on(last: u64, now: u64) -> bool {
    sp_parked(last) || now != last || sp_parked(now) || now == 0
}

/// The epoch value a reader publishes when it starts its next read.
pub open spec fn sp_pin(e: u64) -> u64 {
    (sp_count(e) + 1) as u64
}

/// The epoch a reader publishes when it starts its next read: the read count
/// grows by one and the parked bit is clear.
pub fn epoch_after_pin(e: u64) -> (r: u64)
    requires
        sp_count(e) + 1 < PARKED_BIT,
    ensures
        r == sp_pin(e),
        r == sp_count(e) + 1,
        !sp_parked(r),
        sp_count(r) == sp_count(e) + 1,
        r != 0,
{
    proof {
        assert((e & !(1u64 << 63u64)) < (1u64 << 63u64)) by (bit_vector);
        assert(forall|c: u64| c < (1u64 << 63u64) ==> c & (1u64 << 63u64) == 0) by (bit_vector);
        assert(forall|c: u64| c < (1u64 << 63u64) ==> c & !(1u64 << 63u64) == c) by (bit_vector);
    }
    (e & !PARKED_BIT) + 1
}

/// The epoch a reader publishes when it finishes a read: the same count with
/// the parked bit set.
pub fn epoch_after_release(e: u64) -> (r: u64)
    ensures
        r == (e | PARKED_BIT),
        sp_parked(r),
        sp_count(r) == sp_count(e),
{
    proof {
        assert((e | (1u64 << 63u64)) & (1u64 << 63u64) != 0) by (bit_vector);
        assert((e | (1u64 << 63u64)) & !(1u64 << 63u64) == e & !(1u64 << 63u64)) by (bit_vector);
    }
    e | PARKED_BIT
}

/// The writer's quiescence test for one reader, exactly [`sp_moved_on`]:
/// `last` is the epoch recorded after the previous swap, `now` the epoch the
/// reader publishes at present.
pub fn reader_has_moved_on(last: u64, now: u64) -> (r: bool)
    ensures
        r == sp_moved_on(last, now),
{
    (last & PARKED_BIT != 0) || (now != last) || (now & PARKED_BIT != 0) || (now == 0)
}

/// The epoch of a reader that has never read: count zero, not parked, with
/// plenty of room before the count could reach the parked bit.
pub proof fn lemma_epoch_zero()
    ensures
        sp_count(0) == 0,
        !sp_parked(0),
        1 < PARKED_BIT,
{
    assert(0u64 & !(1u64 << 63u64) == 0) by (bit_vector);
    assert(0u64 & (1u64 << 63u64) == 0) by (bit_vector);
    assert(1u64 < (1u64 << 63u64)) by (bit_vector);
}

/// A published epoch is never ambiguous: one that starts a read is a nonzero
/// count with the parked bit clear, and one that finishes a read has the
/// parked bit set. The writer can therefore always classify what it loads.
pub proof fn lemma_epoch_states(e: u64)
    requires
        sp_count(e) + 1 < PARKED_BIT,
    ensures
        !sp_parked((sp_count(e) + 1) as u64),
        (sp_count(e) + 1) as u64 != 0,
        sp_parked(e | PARKED_BIT),
{
    assert((e & !(1u64 << 63u64)) < (1u64 << 63u64)) by (bit_vector);
    assert(forall|c: u64| c < (1u64 << 63u64) ==> c & (1u64 << 63u64) == 0) by (bit_vector);
    assert((e | (1u64 << 63u64)) & (1u64 << 63u64) != 0) by (bit_vector);
}

/// The writer waits exactly for the readers it must wait for: a reader whose
/// recorded epoch was a read in progress and whose current epoch still shows
/// the same read keeps the writer from proceeding, and any reader that has
/// since parked, started a later read, or never read at all does not.
pub proof fn lemma_moved_on_exact(last: u64, now: u64)
    ensures
        !sp_parked(last) && now == last && !sp_parked(now) && now != 0 ==> !sp_moved_on(last, now),
        sp_parked(now) ==> sp_moved_on(last, now),
        now != last ==> sp_moved_on(last, now),
        now == 0 ==> sp_moved_on(last, now),
{
}

} // verus!
