//! An execution and table-compilation engine for arithmetic on encrypted
//! registers: the register layout, the lookup-table compiler with its
//! masking transform, and the schedule that drives the evaluators.

pub mod bits;
pub mod ciphertext;
pub mod layout;
pub mod operations;
pub mod opmized_operations;
pub mod primitives;
pub mod processors;
pub mod programs;
pub mod utils;
