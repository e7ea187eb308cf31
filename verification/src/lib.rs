//! Core of a one-shot directory-to-object-storage synchronizer.
//!
//! The library holds the verified logic: deriving a canonical,
//! separator-normalized storage key from a file path and the root it is
//! relative to, tracking which keys were already handled, and the
//! traversal state machine that decides, path by path, what to do next.
//! Filesystem access and the network upload itself live outside, in the
//! program around the library, which feeds events into the state machine.

pub mod keys;
pub mod manifest;
pub mod resolve;
pub mod sync;
