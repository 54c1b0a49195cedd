pub mod coder;
pub mod range;
pub mod symbol_model;
pub mod encoder;
pub mod decoder;
pub mod lossless;
