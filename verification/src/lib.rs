//! A lossless image codec: raw packed pixels to a compact byte stream and back.

pub mod decoder;
pub mod encoder;
pub mod error;
pub mod info;
pub mod laws;
pub mod opcode;
pub mod pixel;

pub use crate::decoder::Decoder;
pub use crate::encoder::Encoder;
pub use crate::error::{DecodeError, DecodeFailure, EncodeError};
pub use crate::info::{Channels, Colorspace, Info};
pub use crate::pixel::{qoi_hash, Pixel};
