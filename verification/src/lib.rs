//! A self-delimiting, checksum-protected framing format for byte buffers.
//!
//! A frame is `header magic ++ checksum record ++ payload ++ trailer magic`.
//! The signer builds frames; the decoder validates one frame byte by byte;
//! the detector sweeps a buffer and reports every frame it finds.

pub mod base;
pub mod decoder;
pub mod detector;
pub mod frame;
pub mod hasher;
pub mod laws;
pub mod sign;
pub mod structs;

pub use base::{
    BufferSize, DecodedBuffer, RetrievalError, SignedBufferError, SignedBufferResult, SigningError,
};
pub use hasher::{FrameHasher, Sip24};
pub use decoder::SignedBufferDecoder;
pub use detector::SignedBufferDetector;
pub use sign::SignedBuffer;
pub use structs::BufferChecksum;
