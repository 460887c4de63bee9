//! Autotuning engine for operations with competing kernel implementations:
//! structural keys, an eligibility rule, a benchmark statistic, a tuning
//! cache with a checksum-validated persisted form, and the tuner that ties
//! them together; with the integer tensor model that candidates operate on.
pub mod bench;
pub mod cache;
pub mod codec;
pub mod key;
pub mod tensor;
pub mod tuner;
