//! Paged storage core for an embedded document store.
//!
//! Three layers, leaves first: [`serialization`] converts primitive and
//! composite values to and from a canonical little-endian byte form, fixed
//! width or length-prefixed, so a decoder needs no external framing;
//! [`block`] is the fixed-size 1024-byte page format with its sentinel
//! semantics; [`block_storage`] addresses pages by index or relative seek on
//! a pluggable backend and reconstructs a value's full byte stream by
//! following a block's forward-chain pointer across pages. [`collection`] is
//! the thin in-memory key/value facade beside the core.
pub mod serialization;
pub mod block;
pub mod block_storage;
pub mod collection;
