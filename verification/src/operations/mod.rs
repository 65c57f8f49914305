//! The table compiler, the operations it serves and the schedule.

pub mod cipher_lut;
pub mod lut_manager;
pub mod manager;
pub mod mask_chunk;
pub mod operand;
pub mod operation;
pub mod plain_lut;
pub mod readout;
