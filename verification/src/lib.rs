//! Persistent storage backend for a small social-feed application.
//!
//! The crate is organised bottom-up:
//! - [`order`]: lexicographic order on byte strings, the key order of every store;
//! - [`codec`]: the length-prefixed binary record format and its round-trip proofs;
//! - [`entities`]: the user, post and comment records and their codecs;
//! - [`heap`]: a page-addressable byte heap partitioned into named regions;
//! - [`store`]: an ordered key-value store persisted into one region;
//! - [`storage`]: the context owning the heap and the four entity stores,
//!   and the restart path that re-attaches to existing pages;
//! - [`domain`]: the user/post/comment operations on top of the stores.

use vstd::prelude::*;

pub mod codec;
pub mod domain;
pub mod entities;
pub mod heap;
pub mod order;
pub mod storage;
pub mod store;

verus! {

/// Storage-layer faults, as distinct from domain outcomes: an oversized
/// record is rejected before it reaches a page, malformed page bytes are an
/// integrity fault, and a full heap stops the triggering operation.
#[derive(Clone, Copy, PartialEq, Eq, Structural, Debug)]
pub enum StoreError {
    RecordTooLarge,
    CorruptRecord,
    CapacityExhausted,
}

} // verus!
