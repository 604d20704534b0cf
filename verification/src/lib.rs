//! Codec for the legacy game-world region persistence format: a sector
//! addressed region container with a 1024-slot location table, a record
//! codec for compressed chunk payloads, and a bridge between the generic
//! tagged-value tree and the typed `Level` / `Section` world structures.
pub mod nbt;
pub mod region;
pub mod world;
pub mod zlib;
