pub mod ogg;
pub mod range;
pub mod toc;
pub mod celt;
