//! Verified integer core of the wave-coherence experiments: number theory for
//! musical intervals, the deterministic xorshift generator, character-level
//! datasets and batch sampling, row-major matrices and band selection (the
//! data movement of the models), the binary weight-dump format and the
//! choice and order of what the spectral analysis reads, and parameter
//! bookkeeping.
pub mod musical;
pub mod rng;
pub mod vocab;

pub mod text;
pub mod slices;
pub mod cpu_data;
pub mod corpus;
pub mod weights;
pub mod dump_format;
pub mod optimizer;
pub mod matrix;
pub mod bands;
pub mod modes;
pub mod budget;
