//! Binary BCH codes: construction of the code from a field degree and an
//! error-correction capability, computation of parity bits, and location of
//! bit errors in a received word.
//!
//! Every buffer of bits holds one bit per byte, in the least significant bit
//! of the byte, highest-order coefficient first. A position counts the bits
//! of the message and then those of the parity.
//!
//! The codec is [`BCH`]. What holds of its operations together is proved in
//! [`laws`]: a message with its parity bits is a codeword, and the parity
//! bits are the only ones that make it one; decoding finds the errors of
//! every word that differs from a codeword in no more bits than the
//! capability, gives up exactly on the words that differ from every
//! codeword in more, and never leads out of the code.
//!
//! The modules, from the ground up: [`bits`] and [`field`] for the
//! arithmetic of GF(2^m); [`poly`], [`algebra`] and [`product`] for
//! polynomials over it; [`generator`] and [`encoder`] for the code and its
//! parity bits; [`syndrome`], [`locator`], [`roots`] and [`decoder`] for
//! the location of errors; [`series`], [`massey`] and [`nearest`] for the
//! proof that the location is right.

pub mod bits;
pub mod field;
pub mod poly;
pub mod product;
pub mod series;
pub mod algebra;
pub mod generator;
pub mod encoder;
pub mod syndrome;
pub mod locator;
pub mod massey;
pub mod roots;
pub mod decoder;
pub mod nearest;
pub mod codec;
pub mod laws;

pub use codec::BCH;
pub use codec::UNCORRECTABLE;
