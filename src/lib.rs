//! Group Code Recording: a codec between 4-bit nibbles and 5-bit code words,
//! packing every 4 data bytes into 5 recorded bytes and back.

pub mod gcr;
pub mod model;
pub mod tables;

pub use gcr::GCR;
