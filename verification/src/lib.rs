pub mod errors;
pub mod frame;
pub mod header;
