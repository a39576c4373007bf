use sring::ring::{FrameRing, SRingError, FRAMES_NUM, FRAME_LEN, FRAME_LEN_FIELD_LEN};

/// Builds a ring with the given geometry, fully grown.
fn grown_ring(capacity: u64, frame_size: u64) -> FrameRing {
    let mut r = FrameRing::initialize(capacity, frame_size);
    let res = r.add_frame_space(capacity);
    assert_eq!(res, Ok(()));
    r
}

#[test]
fn test_frame_ring() {
    let mut ring = FrameRing::initialize_ring();
    for i in 0..FRAMES_NUM {
        assert_eq!(ring.add_frame_space(i + 1), Ok(()));
    }

    let frame = vec![1u8; (FRAME_LEN - FRAME_LEN_FIELD_LEN) as usize];
    for _ in 0..FRAMES_NUM {
        assert_eq!(ring.enqueue_frame(frame.clone()), Ok(()));
    }
    for _ in 0..FRAMES_NUM {
        let res = ring.dequeue_frame().unwrap();
        assert!(&res == &vec![1u8; (FRAME_LEN - FRAME_LEN_FIELD_LEN) as usize]);
    }

    for _ in 0..FRAMES_NUM {
        assert_eq!(ring.enqueue_frame(frame.clone()), Ok(()));
    }
    for _ in 0..FRAMES_NUM {
        let res = ring.dequeue_frame().unwrap();
        assert!(&res == &vec![1u8; (FRAME_LEN - FRAME_LEN_FIELD_LEN) as usize]);
    }

    for _ in 0..FRAMES_NUM * 8 {
        assert_eq!(ring.enqueue_frame(frame.clone()), Ok(()));
        let res = ring.dequeue_frame().unwrap();
        assert!(&res == &vec![1u8; (FRAME_LEN - FRAME_LEN_FIELD_LEN) as usize]);
    }
}

#[test]
fn test_initialize_ring_header() {
    let r = FrameRing::initialize_ring();
    assert_eq!(r.header.write_idx, 0);
    assert_eq!(r.header.read_idx, 0);
    assert_eq!(r.header.count, 0);
    assert_eq!(r.header.slots, 0);
    assert_eq!(r.header.capacity, 512);
    assert_eq!(r.header.frame_size, 1016);
    assert_eq!(r.store.len(), 0);
}

#[test]
fn test_round_trip() {
    let mut r = grown_ring(4, 16);
    let frame = vec![10u8, 20, 30];
    assert_eq!(r.enqueue_frame(frame.clone()), Ok(()));
    assert_eq!(r.dequeue_frame(), Ok(frame));
}

#[test]
fn test_round_trip_empty_frame() {
    let mut r = grown_ring(4, 16);
    assert_eq!(r.enqueue_frame(Vec::new()), Ok(()));
    assert_eq!(r.dequeue_frame(), Ok(Vec::new()));
}

#[test]
fn test_fifo_order() {
    let mut r = grown_ring(4, 16);
    let f1 = vec![1u8, 1, 1];
    let f2 = vec![2u8, 2];
    assert_eq!(r.enqueue_frame(f1.clone()), Ok(()));
    assert_eq!(r.enqueue_frame(f2.clone()), Ok(()));
    assert_eq!(r.dequeue_frame(), Ok(f1));
    assert_eq!(r.dequeue_frame(), Ok(f2));
}

#[test]
fn test_capacity_boundary() {
    let mut r = grown_ring(4, 16);
    for i in 0..4u8 {
        assert_eq!(r.enqueue_frame(vec![i]), Ok(()));
    }
    assert_eq!(r.header.count, 4);
    let write_before = r.header.write_idx;
    assert_eq!(r.enqueue_frame(vec![9u8]), Err(SRingError::RingFull));
    assert_eq!(r.header.count, 4);
    assert_eq!(r.header.write_idx, write_before);
}

#[test]
fn test_empty_boundary() {
    let mut r = grown_ring(4, 16);
    assert_eq!(r.dequeue_frame(), Err(SRingError::RingEmpty));
    assert_eq!(r.header.write_idx, 0);
    assert_eq!(r.header.read_idx, 0);
    assert_eq!(r.header.count, 0);
}

#[test]
fn test_wraparound() {
    let mut r = grown_ring(4, 16);
    for i in 0..4u8 {
        assert_eq!(r.enqueue_frame(vec![i, i]), Ok(()));
        assert_eq!(r.dequeue_frame(), Ok(vec![i, i]));
    }
    assert_eq!(r.header.write_idx, 0);
    assert_eq!(r.header.read_idx, 0);
    assert_eq!(r.header.count, 0);
    assert_eq!(r.enqueue_frame(vec![5u8]), Ok(()));
    assert_eq!(r.dequeue_frame(), Ok(vec![5u8]));
    assert_eq!(r.header.write_idx, 1);
    assert_eq!(r.header.read_idx, 1);
}

#[test]
fn test_growth_gating() {
    let mut r = grown_ring(4, 16);
    assert_eq!(r.add_frame_space(5), Err(SRingError::SlotsFull));
    assert_eq!(r.header.slots, 4);
    assert_eq!(r.store.len(), 4 * 16);
}

#[test]
fn test_growth_is_monotonic() {
    let mut r = FrameRing::initialize(4, 16);
    assert_eq!(r.add_frame_space(2), Ok(()));
    assert_eq!(r.header.slots, 2);
    assert_eq!(r.store.len(), 2 * 16);
    assert_eq!(r.add_frame_space(4), Ok(()));
    assert_eq!(r.header.slots, 4);
    assert_eq!(r.store.len(), 4 * 16);
    // A smaller target never shrinks what is already allocated.
    assert_eq!(r.add_frame_space(3), Ok(()));
    assert_eq!(r.header.slots, 4);
    assert_eq!(r.store.len(), 4 * 16);
}

#[test]
fn test_persisted_slot_layout() {
    let mut r = grown_ring(4, 16);
    assert_eq!(r.enqueue_frame(vec![0xaa, 0xbb, 0xcc]), Ok(()));
    // Slot 0: 8-byte little-endian length field, then the payload bytes.
    assert_eq!(&r.store[0..8], &[3, 0, 0, 0, 0, 0, 0, 0]);
    assert_eq!(&r.store[8..11], &[0xaa, 0xbb, 0xcc]);
    // The second frame lands at byte offset frame_size.
    assert_eq!(r.enqueue_frame(vec![0xdd]), Ok(()));
    assert_eq!(&r.store[16..24], &[1, 0, 0, 0, 0, 0, 0, 0]);
    assert_eq!(r.store[24], 0xdd);
}

#[test]
fn test_concrete_scenario() {
    // capacity=4, frame_size=16: an 8-byte length field and an
    // 8-byte payload area per slot.
    let mut r = grown_ring(4, 16);
    let frame = vec![1u8, 2, 3, 4, 5, 6, 7, 8];
    for _ in 0..4 {
        assert_eq!(r.enqueue_frame(frame.clone()), Ok(()));
    }
    assert_eq!(r.header.count, 4);
    assert_eq!(r.enqueue_frame(frame.clone()), Err(SRingError::RingFull));
    for _ in 0..4 {
        assert_eq!(r.dequeue_frame(), Ok(frame.clone()));
    }
    assert_eq!(r.header.count, 0);
    assert_eq!(r.dequeue_frame(), Err(SRingError::RingEmpty));
    assert_eq!(r.header.write_idx, 0);
    assert_eq!(r.header.read_idx, 0);
}

#[test]
fn test_full_payload_budget() {
    // The largest frame a slot can hold: frame_size - 8 bytes.
    let mut r = grown_ring(2, 32);
    let frame: Vec<u8> = (0..24u8).collect();
    assert_eq!(r.enqueue_frame(frame.clone()), Ok(()));
    assert_eq!(r.dequeue_frame(), Ok(frame));
}

#[test]
fn test_interleaved_wraparound_contents() {
    // Mixed enqueues and dequeues across the wrap keep FIFO order.
    let mut r = grown_ring(3, 16);
    assert_eq!(r.enqueue_frame(vec![1u8]), Ok(()));
    assert_eq!(r.enqueue_frame(vec![2u8]), Ok(()));
    assert_eq!(r.dequeue_frame(), Ok(vec![1u8]));
    assert_eq!(r.enqueue_frame(vec![3u8]), Ok(()));
    assert_eq!(r.enqueue_frame(vec![4u8]), Ok(()));
    assert_eq!(r.header.count, 3);
    assert_eq!(r.dequeue_frame(), Ok(vec![2u8]));
    assert_eq!(r.dequeue_frame(), Ok(vec![3u8]));
    assert_eq!(r.dequeue_frame(), Ok(vec![4u8]));
    assert_eq!(r.dequeue_frame(), Err(SRingError::RingEmpty));
}
