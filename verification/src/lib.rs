//! A decoder for the FLAC (Free Lossless Audio Codec) bitstream format.
//!
//! The crate parses the metadata block chain, the audio frames with their
//! subframes, decodes the Rice-coded residuals, reconstructs the signal by
//! fixed or FIR linear prediction, and undoes the inter-channel
//! decorrelation.  Every parsing and reconstruction step carries a contract
//! stating exactly which bytes and bits produce which values.

pub mod bits;
pub mod chain;
pub mod error;
pub mod frame;
pub mod metadata;
pub mod metadata_parser;
pub mod stream;
pub mod subframe;
pub mod utility;

pub use chain::{get_cue_sheet, get_metadata, get_picture, get_stream_info, get_vorbis_comment,
    optional_eq};
pub use error::ErrorKind;
pub use metadata::Metadata;
pub use stream::Stream;
pub use utility::{crc16, crc8, extend_sign, power_of_two, to_u32, WriteExtension};
