//! Byte-coefficient polynomials: big integers as base-256 coefficient
//! sequences, with the hints and carry limbs that an arithmetic circuit needs
//! to check big-integer modular arithmetic.

pub mod arith;
pub mod carry;
pub mod convert;
pub mod digest;
pub mod digest_laws;
pub mod fermat;
pub mod keccak;
pub mod laws;
pub mod nondet;
pub mod pack;
pub mod poly;

pub use arith::{add_fixed, mul_fixed, sub_fixed};
pub use carry::{check_carry_chain, eval_constraint};
pub use convert::{
    dump, from_biguint, from_biguint_fixed, from_hex, to_biguint, BigNat, PolyError,
};
pub use digest::digest_elems;
pub use keccak::{batcher, BatchError, KeccakBatcher};
pub use nondet::{nondet_inv_fixed, nondet_quot_fixed, nondet_rem_fixed};
pub use pack::into_padded_u32s;
