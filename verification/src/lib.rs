//! Core of a local-first, peer-to-peer collaborative ASCII diagram editor.
//!
//! The library owns the conflict-free document store (shapes, z-order,
//! groups, layers), the binary codec that the store and the wire protocols
//! share, the per-connection sync engine, and the ephemeral presence
//! manager.  Rendering, terminal input and the network transport live in
//! the surrounding application; they talk to this crate through plain
//! values.

pub mod canvas;
pub mod codec;
pub mod crdt;
pub mod document;
pub mod layers;
pub mod presence;
pub mod recent_files;
pub mod undo;
pub mod shapes;
pub mod sync;
pub mod ticket;
