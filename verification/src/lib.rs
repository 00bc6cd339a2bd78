//! A subword tokenization engine: converts text to sequences of integer
//! token ids and back, under byte-pair-encoding, WordPiece, Unigram and
//! character-level models sharing one normalization / pre-tokenization /
//! post-processing pipeline.
//!
//! Encoding and decoding take `&self` and training and configuration take
//! `&mut self`, so the single-writer, multiple-reader discipline the
//! engine requires is exactly what the borrow rules enforce: read-only
//! calls may run concurrently on a shared instance, and no mutation can
//! overlap them.

pub mod bpe;
pub mod charlevel;
pub mod errors;
pub mod laws;
pub mod normalize;
pub mod postprocess;
pub mod pretokenize;
pub mod serialize;
pub mod tokenizer;
pub mod trie;
pub mod unigram;
pub mod variants;
pub mod vocab;
pub mod wordpiece;

pub use errors::TokenizerError;
pub use tokenizer::Encoding;
pub use tokenizer::Tokenizer;
pub use variants::BPETokenizer;
pub use variants::CharLevelTokenizer;
pub use variants::UnigramTokenizer;
pub use variants::WordPieceTokenizer;
