pub mod tables;
pub mod writer;
pub mod quant;
pub mod encode;
