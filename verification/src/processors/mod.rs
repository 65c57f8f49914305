//! The bootstrapping of a chunk as far as it is arithmetic on words and
//! calls of the homomorphic primitives: the key whose first words are those
//! of another key, the keyswitching key between the two and the keyswitch,
//! the modulus switch that keeps the rounding bias low, the rotation of the
//! accumulators, and what the conversion to selector bits decides.

pub mod convert;
pub mod key_gen;
pub mod low_noise_ms;
pub mod lwe_stored_ksk;
pub mod lwe_storede_ks;
pub mod pbs;
pub mod rev_trace;
