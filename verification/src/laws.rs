//! Laws the ring obeys across several operations, stated over the
//! abstract queue `FrameRing::frames()` that the operations' contracts
//! are written in: `enqueue_frame` appends a frame to `frames()`, and
//! `dequeue_frame` returns `frames()[0]` and drops it.

use crate::ring::FrameRing;
use vstd::arithmetic::div_mod::{
    lemma_add_mod_noop, lemma_add_mod_noop_right, lemma_mod_add_multiples_vanish,
    lemma_mod_bound, lemma_small_mod,
};
use vstd::prelude::*;

verus! {

/// Round trip: on an empty well-formed ring, enqueuing a frame `f` that
/// fits the payload budget and then dequeuing immediately yields back
/// exactly `f`, and leaves the ring's contents empty as before. Here
/// `r1` is the ring after the enqueue (its `ensures` says `r1.frames()
/// == r0.frames().push(f)`); the dequeue that follows returns
/// `r1.frames()[0]` and leaves `r1.frames().subrange(1, ..)`.
pub proof fn lemma_round_trip(r0: FrameRing, r1: FrameRing, f: Seq<u8>)
    requires
        r0.wf(),
        f.len() <= r0.header.frame_size - 8,
        r0.frames().len() == 0,
        r1.frames() == r0.frames().push(f),
    ensures
        r1.frames().len() == 1,
        r1.frames()[0] == f,
        r1.frames().subrange(1, r1.frames().len() as int) == r0.frames(),
{
    assert(r1.frames().subrange(1, r1.frames().len() as int) =~= r0.frames());
}

/// FIFO order: after enqueuing `f1` and then `f2` with no dequeue in
/// between, `f1` stands immediately before `f2` in the queue, at the
/// positions the dequeues will reach in that order: the dequeue that
/// returns the frame at position `r0.frames().len()` yields `f1`, and
/// the next one yields `f2`. `r1` and `r2` are the rings after the
/// first and second enqueue.
pub proof fn lemma_fifo_order(r0: FrameRing, r1: FrameRing, r2: FrameRing, f1: Seq<u8>, f2: Seq<u8>)
    requires
        r0.wf(),
        r1.frames() == r0.frames().push(f1),
        r2.frames() == r1.frames().push(f2),
    ensures
        r2.frames().len() == r0.frames().len() + 2,
        r2.frames()[r0.frames().len() as int] == f1,
        r2.frames()[r0.frames().len() as int + 1] == f2,
{
}

/// The successor map on ring indices: the step a successful
/// `enqueue_frame` applies to `write_idx` and a successful
/// `dequeue_frame` applies to `read_idx` (their `ensures` say the index
/// becomes `(index + 1) % capacity`), iterated `n` times.
pub open spec fn advanced_idx(i: int, cap: int, n: nat) -> int
    decreases n,
{
    if n == 0 {
        i
    } else {
        advanced_idx((i + 1) % cap, cap, (n - 1) as nat)
    }
}

/// Shifting by any amount commutes with reduction modulo the capacity.
proof fn lemma_mod_shift_any(a: int, k: int, c: int)
    requires
        0 < c,
    ensures
        (a % c + k) % c == (a + k) % c,
{
    lemma_add_mod_noop_right(a % c, k, c);
    lemma_add_mod_noop(a, k, c);
}

/// Advancing an index `n` times lands on `(i + n) % cap`: the modulo
/// arithmetic of the ring agrees with stepping one slot at a time.
pub proof fn lemma_index_advances(i: int, cap: int, n: nat)
    requires
        0 < cap,
        0 <= i < cap,
    ensures
        advanced_idx(i, cap, n) == (i + n) % cap,
    decreases n,
{
    if n == 0 {
        lemma_small_mod(i as nat, cap as nat);
    } else {
        lemma_mod_bound(i + 1, cap);
        lemma_index_advances((i + 1) % cap, cap, (n - 1) as nat);
        lemma_mod_shift_any(i + 1, n - 1, cap);
    }
}

/// Wraparound: after exactly `cap` single steps — for instance `cap`
/// enqueue/dequeue cycles — an index returns to where it began, so a
/// further cycle proceeds exactly as the first did.
pub proof fn lemma_index_wraparound(i: int, cap: int)
    requires
        0 < cap,
        0 <= i < cap,
    ensures
        advanced_idx(i, cap, cap as nat) == i,
{
    lemma_index_advances(i, cap, cap as nat);
    lemma_mod_add_multiples_vanish(i, cap);
    lemma_small_mod(i as nat, cap as nat);
}

} // verus!
