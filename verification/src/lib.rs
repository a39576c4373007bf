//! A persisted, length-framed circular buffer ("frame ring").
//!
//! Variable-length binary frames are stored length-prefixed inside
//! fixed-size slots of a single contiguous byte region. One party
//! enqueues frames, another dequeues them in FIFO order; the backing
//! storage is grown deliberately, slot by slot, never implicitly.

pub mod laws;
pub mod ring;
