//! Arithmetic coding for ternary data, with symbols in {-1, 0, +1}.
//!
//! A frequency table of the three symbols, a bit-level encoder and decoder
//! over a 32-bit interval, static or adaptive, and the proofs that decoding
//! an encoding gives the data back and that the encoding stays close to the
//! ideal code length of the data.

pub mod bits;
pub mod counts;
pub mod decoder;
pub mod encoder;
pub mod interval;
pub mod length;
pub mod roundtrip;
pub mod table;

pub use interval::{HALF, PRECISION, QUARTER, WHOLE};
pub use decoder::ArithmeticDecoder;
pub use encoder::ArithmeticEncoder;
pub use table::FrequencyTable;
