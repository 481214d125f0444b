//! Verified model of content-addressed bit trees ("cells"), their read and
//! write cursors, the exact-width integer codec over them, and the value
//! model handed to and from a stack virtual machine.

pub mod bits;
pub mod bitstring;
pub mod cell;
pub mod codec;
pub mod error;
pub mod slice;
pub mod builder;
pub mod stack;
pub mod crypto;
pub mod vm;
pub mod dict;
