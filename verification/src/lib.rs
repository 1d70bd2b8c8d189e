//! A QR Code encoder: from text to the module matrix of a QR Code symbol,
//! with the bit-stream, Reed-Solomon and masking steps stated and proved.
#![allow(non_snake_case)]

pub mod bit_array;
pub mod gf256;
pub mod reed_solomon;
pub mod error;
pub mod version;
pub mod charset;
pub mod encoder;
pub mod byte_matrix;
pub mod matrix_util;
pub mod mask_util;
pub mod qr_code;
pub mod hints;
pub mod known_symbols;
pub mod eci_encoder_set;
pub mod minimal_encoder;
