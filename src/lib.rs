//! Low-level decoder for the Vorbis I audio codec: bit reading, Huffman
//! codes, setup-header parsing and the integer parts of packet decoding.
//!
//! Packets are read from a [`BitReader`] over their bytes. The header packets
//! build a [`DecoderBuilder`]; each audio packet is decoded by
//! [`decoder::decode_packet`] into a [`decoder::PacketPlan`]: floor envelopes
//! as inverse-dB table indices and residue vector writes. Turning a plan into
//! samples (vector values, channel decoupling, the inverse MDCT and the
//! overlap of windows) is floating-point work left to the caller, guided by
//! [`decoder::FrameState`] and [`window::Windows`].
pub mod bitstream;
pub mod codebook;
pub mod decoder;
pub mod error;
pub mod floor;
pub mod header;
pub mod huffman;
pub mod mapping;
pub mod mode;
pub mod residue;
pub mod util;
pub mod window;

pub use bitstream::BitReader;
pub use decoder::{DecoderBuilder, FrameState, PacketPlan};
pub use error::{Error, ErrorKind, ExpectEof, Result};
pub use header::{Bitrates, CommentTag, Comments, FrameKind, FrameLens, Header};
