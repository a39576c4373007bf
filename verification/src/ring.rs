//! The frame ring: header bookkeeping, slot layout, framing, growth.
//!
//! A ring is a fixed-size header (`SRing`) plus a flat byte region (the
//! frame store) divided into `capacity` slots of `frame_size` bytes each.
//! A slot holds one frame: an 8-byte little-endian length field followed
//! by that many payload bytes; the rest of the slot is stale. Frames are
//! enqueued at `write_idx` and dequeued at `read_idx`, both advancing
//! modulo `capacity`. The store is grown explicitly, never shrunk, and
//! never touched by more than one slot per operation.

use vstd::arithmetic::div_mod::{
    lemma_add_mod_noop, lemma_fundamental_div_mod, lemma_mod_bound, lemma_small_mod,
};
use vstd::arithmetic::mul::lemma_mul_inequality;
use vstd::bytes::{
    lemma_auto_spec_u64_to_from_le_bytes, spec_u64_from_le_bytes, spec_u64_to_le_bytes,
    u64_from_le_bytes, u64_to_le_bytes,
};
use vstd::prelude::*;

verus! {

/// Slot `s` of `n` allocated slots lies wholly inside a store of `n * f`
/// bytes.
proof fn lemma_slot_in_store(s: int, n: int, f: int)
    requires
        0 <= s < n,
        0 <= f,
    ensures
        0 <= s * f,
        s * f + f <= n * f,
{
    assert(0 <= s * f && s * f + f <= n * f) by (nonlinear_arith)
        requires
            0 <= s < n,
            0 <= f,
    ;
}

/// Distinct slots occupy disjoint byte ranges: the slot below ends before
/// the slot above begins.
proof fn lemma_slots_disjoint(s1: int, s2: int, f: int)
    requires
        0 <= s1 < s2,
        0 <= f,
    ensures
        s1 * f + f <= s2 * f,
{
    assert(s1 * f + f <= s2 * f) by (nonlinear_arith)
        requires
            0 <= s1 < s2,
            0 <= f,
    ;
}

/// Positions less than `cap` apart from each other map to distinct slots:
/// `(r + i) % cap` determines `i` among `0 <= i < cap`.
proof fn lemma_slot_position_injective(r: int, i: int, j: int, cap: int)
    requires
        0 <= r,
        0 <= i < cap,
        0 <= j < cap,
        (r + i) % cap == (r + j) % cap,
    ensures
        i == j,
{
    if i != j {
        lemma_fundamental_div_mod(r + i, cap);
        lemma_fundamental_div_mod(r + j, cap);
        let q1 = (r + i) / cap;
        let q2 = (r + j) / cap;
        assert(j - i == cap * q2 - cap * q1);
        assert(j - i == cap * (q2 - q1)) by (nonlinear_arith)
            requires
                j - i == cap * q2 - cap * q1,
        ;
        assert(false) by (nonlinear_arith)
            requires
                0 < cap,
                -cap < j - i < cap,
                i != j,
                j - i == cap * (q2 - q1),
        ;
    }
}

/// Shifting an index by less than the capacity commutes with reduction
/// modulo the capacity.
proof fn lemma_mod_shift(a: int, i: int, c: int)
    requires
        0 < c,
        0 <= a,
        0 <= i < c,
    ensures
        (a % c + i) % c == (a + i) % c,
{
    lemma_small_mod(i as nat, c as nat);
    lemma_add_mod_noop(a, i, c);
}

/// Advancing an index by one commutes with reduction modulo the capacity.
proof fn lemma_inc_mod(a: int, c: int)
    requires
        0 < c,
        0 <= a,
    ensures
        (a % c + 1) % c == (a + 1) % c,
{
    if c == 1 {
        lemma_mod_bound(a % c + 1, 1);
        lemma_mod_bound(a + 1, 1);
    } else {
        lemma_small_mod(1, c as nat);
        lemma_add_mod_noop(a, 1, c);
    }
}

/// Bytes of the length field that prefixes every stored frame.
pub const FRAME_LEN_FIELD_LEN: u64 = 8;

/// Per-slot byte budget, length field included. A full slot must fit the
/// bounded result channel of the host environment (1024 bytes).
pub const FRAME_LEN: u64 = 1024 - FRAME_LEN_FIELD_LEN;

/// Logical capacity of a ring created by `initialize_ring`.
pub const FRAMES_NUM: u64 = 512;

/// Every way an operation on the ring can fail. Each call either fully
/// succeeds or returns one of these with no state changed.
#[derive(Clone, Copy, Debug, PartialEq, Eq, Structural)]
pub enum SRingError {
    /// Requested growth exceeds the fixed logical capacity.
    SlotsFull,
    /// No free slot for `enqueue_frame`.
    RingFull,
    /// No frame for `dequeue_frame`.
    RingEmpty,
    /// A stored length field could not be read back as a fixed-width
    /// integer; has no legitimate cause in normal operation.
    InvalidConversion,
}

/// The ring header: fixed-size metadata mutated by every operation.
#[derive(Clone, Copy, Debug, PartialEq, Eq, Structural)]
pub struct SRing {
    /// Next slot to enqueue into; always below `capacity`.
    pub write_idx: u64,
    /// Next slot to dequeue from; always below `capacity`.
    pub read_idx: u64,
    /// Physically allocated slots; grows monotonically up to `capacity`.
    pub slots: u64,
    /// Live (enqueued, not yet dequeued) frames; at most `capacity`.
    pub count: u64,
    /// Fixed maximum number of frames the ring can ever hold.
    pub capacity: u64,
    /// Fixed per-slot byte budget, including the length field.
    pub frame_size: u64,
}

/// Copies `src` into `dst` at offset `at`, leaving every byte outside
/// `at .. at + src.len()` as it was.
fn write_bytes(dst: &mut Vec<u8>, at: usize, src: &[u8])
    requires
        at + src@.len() <= old(dst)@.len(),
        at + src@.len() <= usize::MAX,
    ensures
        final(dst)@.len() == old(dst)@.len(),
        forall|k: int| 0 <= k < at ==> final(dst)@[k] == old(dst)@[k],
        forall|k: int| 0 <= k < src@.len() ==> final(dst)@[at + k] == src@[k],
        forall|k: int|
            at + src@.len() <= k < old(dst)@.len() ==> final(dst)@[k] == old(dst)@[k],
{
    let mut j: usize = 0;
    while j < src.len()
        invariant
            j <= src@.len(),
            at + src@.len() <= old(dst)@.len(),
            at + src@.len() <= usize::MAX,
            dst@.len() == old(dst)@.len(),
            forall|k: int| 0 <= k < at ==> dst@[k] == old(dst)@[k],
            forall|k: int| 0 <= k < j ==> dst@[at + k] == src@[k],
            forall|k: int| at + j <= k < old(dst)@.len() ==> dst@[k] == old(dst)@[k],
        decreases src@.len() - j,
    {
        dst[at + j] = src[j];
        j = j + 1;
    }
}

/// Reads the `n` bytes of `src` that start at offset `at`.
fn read_bytes(src: &Vec<u8>, at: usize, n: usize) -> (out: Vec<u8>)
    requires
        at + n <= src@.len(),
        at + n <= usize::MAX,
    ensures
        out@ == src@.subrange(at as int, at + n),
{
    let mut out: Vec<u8> = Vec::new();
    let mut j: usize = 0;
    while j < n
        invariant
            j <= n,
            at + n <= src@.len(),
            at + n <= usize::MAX,
            out@ == src@.subrange(at as int, at + j),
        decreases n - j,
    {
        out.push(src[at + j]);
        proof {
            assert(out@ =~= src@.subrange(at as int, at + j + 1));
        }
        j = j + 1;
    }
    out
}

/// A frame ring: the header together with the byte region it accounts for.
pub struct FrameRing {
    /// The bookkeeping fields.
    pub header: SRing,
    /// The frame store: `header.slots` slots of `header.frame_size` bytes.
    pub store: Vec<u8>,
}

impl FrameRing {
    /// Byte offset of slot `s` inside the frame store.
    pub open spec fn slot_offset(self, s: int) -> int {
        s * self.header.frame_size
    }

    /// The length field stored at the front of slot `s`.
    pub open spec fn stored_len_at(self, s: int) -> u64 {
        spec_u64_from_le_bytes(
            self.store@.subrange(self.slot_offset(s), self.slot_offset(s) + 8),
        )
    }

    /// The payload stored in slot `s`: the `stored_len_at(s)` bytes after
    /// the length field.
    pub open spec fn frame_at(self, s: int) -> Seq<u8> {
        self.store@.subrange(
            self.slot_offset(s) + 8,
            self.slot_offset(s) + 8 + self.stored_len_at(s),
        )
    }

    /// Slot holding the `i`-th live frame, counted from the read side.
    pub open spec fn slot_of(self, i: int) -> int {
        (self.header.read_idx + i) % (self.header.capacity as int)
    }

    /// The abstract state of the ring: its live frames in FIFO order,
    /// oldest first.
    pub open spec fn frames(self) -> Seq<Seq<u8>> {
        Seq::new(self.header.count as nat, |i: int| self.frame_at(self.slot_of(i)))
    }

    /// Well-formedness: the invariant every operation preserves.
    pub open spec fn wf(self) -> bool {
        &&& 0 < self.header.capacity
        &&& FRAME_LEN_FIELD_LEN <= self.header.frame_size
        &&& self.header.capacity * self.header.frame_size <= usize::MAX
        &&& self.header.write_idx < self.header.capacity
        &&& self.header.read_idx < self.header.capacity
        &&& self.header.count <= self.header.capacity
        &&& self.header.slots <= self.header.capacity
        &&& self.header.write_idx
            == (self.header.read_idx + self.header.count) % (self.header.capacity as int)
        &&& self.store@.len() == self.header.slots * self.header.frame_size
        &&& forall|i: int|
            0 <= i < self.header.count ==> #[trigger] self.slot_of(i) < self.header.slots
        &&& forall|i: int|
            0 <= i < self.header.count
                ==> #[trigger] self.stored_len_at(self.slot_of(i))
                    <= self.header.frame_size - FRAME_LEN_FIELD_LEN
    }

    /// Creates an empty ring with the given geometry: all indices and
    /// counts zero, no slot yet allocated.
    pub fn initialize(capacity: u64, frame_size: u64) -> (r: FrameRing)
        requires
            0 < capacity,
            FRAME_LEN_FIELD_LEN <= frame_size,
            capacity * frame_size <= usize::MAX,
        ensures
            r.wf(),
            r.header == (SRing {
                write_idx: 0,
                read_idx: 0,
                slots: 0,
                count: 0,
                capacity,
                frame_size,
            }),
            r.frames() == Seq::<Seq<u8>>::empty(),
            r.store@ == Seq::<u8>::empty(),
    {
        let r = FrameRing {
            header: SRing {
                write_idx: 0,
                read_idx: 0,
                slots: 0,
                count: 0,
                capacity,
                frame_size,
            },
            store: Vec::new(),
        };
        proof {
            lemma_small_mod(0, capacity as nat);
            assert(r.frames() =~= Seq::<Seq<u8>>::empty());
            assert(r.header.slots * r.header.frame_size == 0) by (nonlinear_arith)
                requires
                    r.header.slots == 0,
            ;
        }
        r
    }

    /// Byte offset of slot `s` in the frame store; the one place that
    /// turns a slot index into an offset.
    fn slot_byte_offset(&self, s: u64) -> (off: usize)
        requires
            self.wf(),
            s < self.header.slots,
        ensures
            off == self.slot_offset(s as int),
            off + self.header.frame_size <= self.store@.len(),
    {
        proof {
            lemma_slot_in_store(s as int, self.header.slots as int, self.header.frame_size as int);
            lemma_mul_inequality(
                self.header.slots as int,
                self.header.capacity as int,
                self.header.frame_size as int,
            );
        }
        (s * self.header.frame_size) as usize
    }

    /// Grows the frame store so that at least `target` slots are
    /// physically allocated. Fails with `SlotsFull`, resizing nothing,
    /// exactly when `target` exceeds the fixed logical capacity; never
    /// shrinks the store, so repeated calls with increasing targets are
    /// safe. The live frames and the rest of the header are untouched.
    pub fn add_frame_space(&mut self, target: u64) -> (res: Result<(), SRingError>)
        requires
            old(self).wf(),
        ensures
            final(self).wf(),
            target > old(self).header.capacity ==> {
                &&& res == Err::<(), SRingError>(SRingError::SlotsFull)
                &&& *final(self) == *old(self)
            },
            target <= old(self).header.capacity ==> {
                &&& res == Ok::<(), SRingError>(())
                &&& final(self).header.slots == (if target > old(self).header.slots {
                    target
                } else {
                    old(self).header.slots
                })
                &&& final(self).header == (SRing {
                    slots: final(self).header.slots,
                    ..old(self).header
                })
                &&& final(self).frames() == old(self).frames()
                &&& final(self).store@.subrange(0, old(self).store@.len() as int)
                    == old(self).store@
            },
    {
        if self.header.capacity < target {
            return Err(SRingError::SlotsFull);
        }
        if target > self.header.slots {
            proof {
                lemma_mul_inequality(
                    self.header.slots as int,
                    target as int,
                    self.header.frame_size as int,
                );
                lemma_mul_inequality(
                    target as int,
                    self.header.capacity as int,
                    self.header.frame_size as int,
                );
            }
            let new_len = target * self.header.frame_size;
            self.store.resize(new_len as usize, 0u8);
            self.header.slots = target;
            proof {
                let pre = *old(self);
                assert(self.store@.subrange(0, pre.store@.len() as int) =~= pre.store@);
                assert forall|i: int| 0 <= i < self.header.count implies {
                    &&& #[trigger] self.slot_of(i) == pre.slot_of(i)
                    &&& self.stored_len_at(self.slot_of(i)) == pre.stored_len_at(pre.slot_of(i))
                    &&& self.frame_at(self.slot_of(i)) == pre.frame_at(pre.slot_of(i))
                } by {
                    let s = pre.slot_of(i);
                    lemma_slot_in_store(s, pre.header.slots as int, pre.header.frame_size as int);
                    assert(self.store@.subrange(pre.slot_offset(s), pre.slot_offset(s) + 8)
                        =~= pre.store@.subrange(pre.slot_offset(s), pre.slot_offset(s) + 8));
                    assert(self.store@.subrange(
                        pre.slot_offset(s) + 8,
                        pre.slot_offset(s) + 8 + pre.stored_len_at(s),
                    ) =~= pre.store@.subrange(
                        pre.slot_offset(s) + 8,
                        pre.slot_offset(s) + 8 + pre.stored_len_at(s),
                    ));
                }
                assert(self.frames() =~= pre.frames());
            }
        }
        Ok(())
    }

    /// Appends `frame` at the write side of the ring. Fails with
    /// `RingFull`, changing nothing, exactly when the ring already holds
    /// `capacity` live frames; otherwise writes the length-prefixed frame
    /// into the slot at `write_idx`, advances `write_idx` modulo
    /// `capacity` and increments `count`. The frame must respect the
    /// per-slot payload budget, and the slot written into must have been
    /// allocated by `add_frame_space` beforehand.
    pub fn enqueue_frame(&mut self, frame: Vec<u8>) -> (res: Result<(), SRingError>)
        requires
            old(self).wf(),
            frame@.len() <= old(self).header.frame_size - FRAME_LEN_FIELD_LEN,
            old(self).header.count < old(self).header.capacity
                ==> old(self).header.write_idx < old(self).header.slots,
        ensures
            final(self).wf(),
            old(self).header.count == old(self).header.capacity ==> {
                &&& res == Err::<(), SRingError>(SRingError::RingFull)
                &&& *final(self) == *old(self)
            },
            old(self).header.count < old(self).header.capacity ==> {
                &&& res == Ok::<(), SRingError>(())
                &&& final(self).frames() == old(self).frames().push(frame@)
                &&& final(self).header.count == old(self).header.count + 1
                &&& final(self).header.write_idx == (old(self).header.write_idx + 1) % (
                old(self).header.capacity as int)
                &&& final(self).header == (SRing {
                    write_idx: final(self).header.write_idx,
                    count: final(self).header.count,
                    ..old(self).header
                })
                &&& final(self).store@.len() == old(self).store@.len()
                &&& ({
                    // The byte-exact slot layout, and that nothing outside
                    // the one slot written is touched.
                    let at = old(self).slot_offset(old(self).header.write_idx as int);
                    &&& final(self).store@.subrange(at, at + 8) == spec_u64_to_le_bytes(
                        frame@.len() as u64,
                    )
                    &&& final(self).store@.subrange(at + 8, at + 8 + frame@.len()) == frame@
                    &&& forall|k: int|
                        0 <= k < old(self).store@.len() && !(at <= k < at + 8 + frame@.len())
                            ==> final(self).store@[k] == old(self).store@[k]
                })
            },
    {
        let ghost pre = *old(self);
        if self.header.count == self.header.capacity {
            return Err(SRingError::RingFull);
        }
        let w = self.header.write_idx;
        let off = self.slot_byte_offset(w);
        proof {
            lemma_mul_inequality(
                self.header.slots as int,
                self.header.capacity as int,
                self.header.frame_size as int,
            );
        }
        let len_bytes = u64_to_le_bytes(frame.len() as u64);
        write_bytes(&mut self.store, off, len_bytes.as_slice());
        write_bytes(&mut self.store, off + FRAME_LEN_FIELD_LEN as usize, frame.as_slice());
        self.header.write_idx = (w + 1) % self.header.capacity;
        self.header.count = self.header.count + 1;
        proof {
            let f = pre.header.frame_size as int;
            let c = pre.header.capacity as int;
            let r = pre.header.read_idx as int;
            let n = pre.header.count as int;
            let wi = pre.header.write_idx as int;
            let s2 = self.store@;
            lemma_auto_spec_u64_to_from_le_bytes();

            // The slot written holds the length field and then the payload.
            assert(s2.subrange(off as int, off + 8) =~= spec_u64_to_le_bytes(
                frame@.len() as u64,
            ));
            assert(self.stored_len_at(wi) == frame@.len());
            assert(self.frame_at(wi) =~= frame@);
            assert(s2.subrange(wi * f + 8, wi * f + 8 + frame@.len()) =~= frame@);
            assert forall|k: int|
                0 <= k < pre.store@.len() && !(wi * f <= k < wi * f + 8 + frame@.len()) implies s2[k]
                == pre.store@[k] by {}

            // Every other allocated slot kept every one of its bytes.
            assert forall|s: int|
                0 <= s < pre.header.slots && s != wi implies #[trigger] s2.subrange(
                s * f,
                s * f + f,
            ) == pre.store@.subrange(s * f, s * f + f) by {
                lemma_slot_in_store(s, pre.header.slots as int, f);
                lemma_slot_in_store(wi, pre.header.slots as int, f);
                if s < wi {
                    lemma_slots_disjoint(s, wi, f);
                } else {
                    lemma_slots_disjoint(wi, s, f);
                }
                assert(s2.subrange(s * f, s * f + f) =~= pre.store@.subrange(s * f, s * f + f));
            }

            // So the frames already live are exactly as they were.
            assert forall|i: int| 0 <= i < n implies {
                &&& #[trigger] self.slot_of(i) == pre.slot_of(i)
                &&& pre.slot_of(i) != wi
                &&& self.stored_len_at(pre.slot_of(i)) == pre.stored_len_at(pre.slot_of(i))
                &&& self.frame_at(pre.slot_of(i)) == pre.frame_at(pre.slot_of(i))
            } by {
                let s = pre.slot_of(i);
                assert(pre.slot_of(i) < pre.header.slots);
                assert(pre.stored_len_at(pre.slot_of(i)) <= f - 8);
                if s == wi {
                    lemma_slot_position_injective(r, i, n, c);
                    assert(false);
                }
                lemma_slot_in_store(s, pre.header.slots as int, f);
                assert(s2.subrange(s * f, s * f + f) == pre.store@.subrange(s * f, s * f + f));
                assert forall|k: int| s * f <= k < s * f + f implies s2[k] == pre.store@[k] by {
                    assert(s2.subrange(s * f, s * f + f)[k - s * f] == pre.store@.subrange(
                        s * f,
                        s * f + f,
                    )[k - s * f]);
                }
                assert(s2.subrange(s * f, s * f + 8) =~= pre.store@.subrange(s * f, s * f + 8));
                assert(self.stored_len_at(s) == pre.stored_len_at(s));
                assert(s2.subrange(s * f + 8, s * f + 8 + pre.stored_len_at(s)) =~= pre.store@
                    .subrange(s * f + 8, s * f + 8 + pre.stored_len_at(s)));
            }

            // The header advanced by one position.
            lemma_mod_bound(wi + 1, c);
            lemma_inc_mod(r + n, c);
            assert(self.header.write_idx == (r + (n + 1)) % c);

            // The new frame sits at the old write index, at the tail of
            // the queue.
            assert(self.slot_of(n) == wi);
            assert(self.frames() =~= pre.frames().push(frame@));
        }
        Ok(())
    }

    /// Removes and returns the oldest live frame. Fails with `RingEmpty`,
    /// changing nothing, exactly when the ring holds no frame; otherwise
    /// reads the length-prefixed frame in the slot at `read_idx`,
    /// advances `read_idx` modulo `capacity` and decrements `count`. The
    /// store bytes themselves are only read, never written. The
    /// defensive `InvalidConversion` arm is provably never taken: on a
    /// well-formed ring the length field can always be read back.
    pub fn dequeue_frame(&mut self) -> (res: Result<Vec<u8>, SRingError>)
        requires
            old(self).wf(),
        ensures
            final(self).wf(),
            old(self).header.count == 0 ==> {
                &&& res == Err::<Vec<u8>, SRingError>(SRingError::RingEmpty)
                &&& *final(self) == *old(self)
            },
            old(self).header.count > 0 ==> {
                &&& (res matches Ok(payload) && payload@ == old(self).frames()[0])
                &&& final(self).frames() == old(self).frames().subrange(
                    1,
                    old(self).header.count as int,
                )
                &&& final(self).header.count == old(self).header.count - 1
                &&& final(self).header.read_idx == (old(self).header.read_idx + 1) % (
                old(self).header.capacity as int)
                &&& final(self).header == (SRing {
                    read_idx: final(self).header.read_idx,
                    count: final(self).header.count,
                    ..old(self).header
                })
                &&& final(self).store@ == old(self).store@
            },
    {
        let ghost pre = *old(self);
        if self.header.count == 0 {
            return Err(SRingError::RingEmpty);
        }
        let r = self.header.read_idx;
        proof {
            let f = pre.header.frame_size as int;
            let c = pre.header.capacity as int;
            // The oldest frame's slot is the read index itself, so it is
            // allocated and its length field is in budget.
            lemma_small_mod(pre.header.read_idx as nat, pre.header.capacity as nat);
            assert(pre.slot_of(0) == r as int);
            assert(pre.slot_of(0) < pre.header.slots);
            assert(pre.stored_len_at(pre.slot_of(0)) <= f - 8);
            lemma_mul_inequality(pre.header.slots as int, c, f);
        }
        let off = self.slot_byte_offset(r);
        let len_bytes = read_bytes(&self.store, off, FRAME_LEN_FIELD_LEN as usize);
        if len_bytes.len() != FRAME_LEN_FIELD_LEN as usize {
            return Err(SRingError::InvalidConversion);
        }
        let flen = u64_from_le_bytes(len_bytes.as_slice());
        proof {
            assert(flen == pre.stored_len_at(r as int));
            assert(flen <= pre.header.frame_size - 8);
        }
        let payload = read_bytes(&self.store, off + FRAME_LEN_FIELD_LEN as usize, flen as usize);
        self.header.read_idx = (r + 1) % self.header.capacity;
        self.header.count = self.header.count - 1;
        proof {
            let f = pre.header.frame_size as int;
            let c = pre.header.capacity as int;
            let ri = pre.header.read_idx as int;
            let n = pre.header.count as int;
            lemma_mod_bound(ri + 1, c);
            assert(payload@ == pre.frame_at(pre.slot_of(0)));

            // Each remaining frame moves one position towards the front,
            // staying in the slot it occupied.
            assert forall|i: int| 0 <= i < n - 1 implies {
                &&& #[trigger] self.slot_of(i) == pre.slot_of(i + 1)
                &&& self.slot_of(i) < self.header.slots
                &&& self.stored_len_at(self.slot_of(i)) <= f - 8
            } by {
                lemma_mod_shift(ri + 1, i, c);
                assert(pre.slot_of(i + 1) < pre.header.slots);
                assert(pre.stored_len_at(pre.slot_of(i + 1)) <= f - 8);
            }

            // The write side is untouched: the invariant tying it to the
            // read side is re-established one step further on.
            lemma_mod_shift(ri + 1, n - 1, c);
            assert(self.header.write_idx == (self.header.read_idx + self.header.count) % c);

            assert(self.frames() =~= pre.frames().subrange(1, n));
        }
        Ok(payload)
    }

    /// Creates an empty ring with the default geometry: `FRAMES_NUM`
    /// slots of `FRAME_LEN` bytes each.
    pub fn initialize_ring() -> (r: FrameRing)
        ensures
            r.wf(),
            r.header == (SRing {
                write_idx: 0,
                read_idx: 0,
                slots: 0,
                count: 0,
                capacity: FRAMES_NUM,
                frame_size: FRAME_LEN,
            }),
            r.frames() == Seq::<Seq<u8>>::empty(),
            r.store@ == Seq::<u8>::empty(),
    {
        FrameRing::initialize(FRAMES_NUM, FRAME_LEN)
    }
}

} // verus!
