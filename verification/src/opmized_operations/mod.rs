//! The selection tree that stands in for table lookup where a table would
//! be too large: ordering relations on wide words, and the sign.

pub mod compare;
pub mod sign;
pub mod tree;
