pub mod impls;
pub mod traits;

pub use traits::{BinaryDecode, BinaryEncode};
