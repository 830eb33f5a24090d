//! Reading Minecraft world data: the Anvil region container and the Named
//! Binary Tag (NBT) stream.
//!
//! The `anvil` module decodes a region file's directory of chunk locations
//! and hands out raw chunk payloads; the `nbt` module is a streaming pull
//! parser that surfaces an NBT document as a flat sequence of typed values
//! with synthetic terminators for compounds and lists. The `bytes` module
//! holds the big-endian primitive reads both formats are built on, and
//! `tree` gives the mathematical model of an NBT document together with the
//! proof that the parser emits exactly its pre-order traversal.

pub mod anvil;
pub mod bytes;
pub mod nbt;
pub mod tree;
