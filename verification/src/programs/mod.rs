//! Ready-made programs: the operations each needs and its plan.

pub mod average;
pub mod bubble;
pub mod maximum;
pub mod squaresum;
