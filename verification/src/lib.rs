//! Sliding-window erasure coding for an append-only record log.
//!
//! Data records ("blobs") flow through a ring-shaped window addressed by
//! absolute sequence index. Every `NUM_CODED` consecutive records form a
//! group: `NUM_DATA` data blobs followed by `MAX_MISSING` parity blobs
//! computed by a Reed-Solomon code. As long as at most `MAX_MISSING`
//! records of a group are lost, the missing ones can be rebuilt from the
//! survivors.
//!
//! [`packet`] holds the blob model, [`codec`] the coding primitive, and
//! [`erasure`] the erasure layer itself: parity placement, group
//! encoding and recovery over the window.

pub mod codec;
pub mod erasure;
pub mod packet;
