//! Reading the caption/icon layout of WinDev controls: the `..Style` blob
//! decoder (LZHUF) with its signature rules, and the bitmap helpers.
mod bytes;
pub mod bits;
pub mod huffman;
pub mod lzhuf;
pub mod style;
pub mod bmp;
pub mod steps;
pub mod flood;
pub mod layout;
pub mod layout3;

pub use bytes::{u16_le, u32_le, i32_le};
