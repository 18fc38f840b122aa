//! Fidelity-preserving CBOR wrapper and collection types.
//!
//! Every type here implements [`wire::Codec`]: an executable encoder and
//! decoder together with the byte sequence the encoder writes and the value
//! the decoder reads, stated as spec functions. Primitive reads and writes go
//! through the minicbor engine (see `substrate`).
pub mod wire;
pub mod substrate;
pub mod primitives;
pub mod seqs;
pub mod collections;
pub mod wrappers;
pub mod config;
