//! LZARI: a single-stream codec that joins a sliding-window dictionary
//! with adaptive arithmetic coding.
//!
//! [`LZARIContext::encode`] cuts its input into literals and copies with
//! the help of a search tree over a ring buffer ([`window`], [`tree`]) and
//! codes them with a range coder ([`coder`]) over an adaptive model of the
//! symbols and a fixed model of the match positions ([`model`]).
//! [`LZARIContext::decode`] reads the stream back. What a stream is, and
//! which text it stands for, is said once and for all in [`format`];
//! [`parse`] says which tokens the encoder chooses, and [`roundtrip`]
//! proves that decoding finds the text.

pub mod params;
pub mod bitstream;
pub mod model;
pub mod coder;
pub mod tree;
pub mod window;
pub mod format;
pub mod roundtrip;
pub mod parse;
pub mod codec;

pub use codec::LZARIContext;
