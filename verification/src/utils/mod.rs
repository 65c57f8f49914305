//! What an engine is configured with, and the polynomial routine of the
//! rotation.

pub mod parms;
pub mod tools;
