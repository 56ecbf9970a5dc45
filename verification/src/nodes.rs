pub mod binaryop;
pub mod expr;
pub mod func;
pub mod value;
