//! The pseudo-random engine: the generic congruential engine, the concrete
//! 48-bit generator, and the seed-derivation layer built on them.
pub mod chunkrand;
pub mod jrand;
pub mod mcversion;
pub mod mth;
pub mod seeds;
