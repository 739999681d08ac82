//! The native engine.

pub mod charutil;
pub mod optimiser;
pub mod re;
pub mod schema;
pub mod shrinker;
pub mod targeting;
pub mod test_runner;
pub mod unicodedata;
