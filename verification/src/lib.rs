//! An evolutionary fuzzer's core: byte-buffer mutations, coverage feedback
//! decoding and run statistics, each with its contract.

pub mod bytes;
pub mod exec;
pub mod decimal;
pub mod random;
pub mod mutate;
pub mod stat;
pub mod web;
pub mod conf;
pub mod fuzz;
pub mod seed;
