//! An incremental message-framing layer: a fixed-capacity buffered stream
//! decoder that turns a byte stream into a sequence of decoded items, driven
//! by a pluggable decoding strategy.

use vstd::prelude::*;

pub mod decoder;
pub mod service;

pub use decoder::ArraySplitDecoder;
pub use decoder::Decoder;
pub use decoder::Error;
pub use decoder::SplitDecoder;
pub use decoder::stream::Error as StreamError;

verus! {

/// The buffered stream decoder under its crate-root name.
pub type StreamDecoder<D> = crate::decoder::stream::Stream<D>;

} // verus!
