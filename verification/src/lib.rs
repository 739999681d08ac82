//! Hegel: a property-based testing engine.
//!
//! This crate holds the engine's self-contained logic with Verus contracts:
//! the Python-compatible regular-expression parser and the matcher and
//! character sets used when generating strings from it, the alphabets of
//! string schemas, the standalone value shrinkers and the ordering pass,
//! the choice tree that enumerates shrink attempts, the targeting
//! schedule, the recording side of the pretty printer, and the packet
//! framing and channel bookkeeping of the wire protocol.

pub mod native;
pub mod pretty;
pub mod protocol;
