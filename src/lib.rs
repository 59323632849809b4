//! Encoder and decoder for the `v115` fumen tetromino-diagram format.
//!
//! `codec` writes a diagram, `decode` reads one back; `page` holds the rules that start
//! each page from the one before it. `round_trip` and `comment_block` prove that reading
//! gives back what was written.

pub mod base64;
pub mod codec;
pub mod comment_block;
pub mod decode;
pub mod escape;
pub mod page;
pub mod round_trip;
pub mod types;

pub use codec::Fumen;
pub use decode::DecodeFumenError;
pub use page::{fumen_field_delta, Page};
pub use types::{CellColor, Piece, PieceType, RotationState};
