//! A decoder for the QOI ("Quite OK Image") format.
//!
//! An image is a header of fourteen bytes followed by a stream of chunks.
//! [`parse_image_header`] reads the header, [`parse_image_content`] turns the
//! stream into a flat buffer of pixels, and [`QoiDecoder`] does both for an
//! image held in memory.

pub mod buffer;
pub mod chunks;
pub mod decoder;
pub mod error;
pub mod header;
pub mod input;
pub mod parser;
pub mod pixel;
pub mod state;

pub use chunks::{
    qoi_op_diff, qoi_op_end, qoi_op_index, qoi_op_luma, qoi_op_rgb, qoi_op_rgba, qoi_op_run,
};
pub use decoder::QoiDecoder;
pub use error::{DecoderError, ParserError};
pub use header::{Channels, Colorspace, Header};
pub use parser::{parse_image_content, parse_image_header};
pub use pixel::Pixel;
pub use state::ParserState;
