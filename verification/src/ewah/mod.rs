pub mod format;
mod marker;
mod builder;
mod encoder;
mod decoder;

pub use decoder::{DecodeError, Decoder, check_words, lemma_check_words, promised, lemma_decode_counts};
pub use encoder::Encoder;
mod bitmap;

pub use bitmap::{EwahBitmap, LengthMismatch, combined, complemented, ones};
