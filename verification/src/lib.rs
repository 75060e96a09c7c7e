pub mod lzo;
pub mod lzokay;
pub mod lzallright;

pub use crate::lzallright::LZOCompressor;
