//! A heap block that guards its bytes with redundant copies, Reed-Solomon
//! parity and AES-128-CTR encryption, together with the rules for laying
//! the block out, encoding it, checking it and repairing it.

pub mod bits;
pub mod block;
pub mod cipher;
pub mod codec;
pub mod ffi;
pub mod laws;
pub mod policies;
pub mod vote;
pub mod walk;
