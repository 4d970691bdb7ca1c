//! Safe, verified helpers around the interpreter intrinsics of a smart-contract runtime:
//! the value types that cross the host boundary and the encoding of their bytes.

pub mod big_endian;
pub mod ext;
pub mod types;
