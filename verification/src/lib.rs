//! Framework-independent HTTP/1 parsing and response framing.
//!
//! This crate owns no socket runtime. Adapters provide bytes and choose how
//! reads, writes, scheduling, and application dispatch happen.
//!
//! Contracts speak of byte sequences: a `&str` stands in them as its UTF-8
//! encoding, and every result is given by a spec function of the inputs.

pub mod bytes;
pub mod chunk;
pub mod error;
pub mod field;
pub mod frame;
pub mod head;
pub mod laws;
pub mod limits;
pub mod line;
pub mod method;
pub mod number;
pub mod position;
pub mod response;
pub mod scan;
pub mod status;
pub mod stream;
pub mod text;
pub mod upgrade;

pub use chunk::{ChunkDecoder, DecodedChunkedBody};
pub use error::{EncodeError, ParseError};
pub use frame::{encode_chunk, LAST_CHUNK};
pub use head::{interpret_scan, parse_request_head, BodyFraming, RequestHead};
pub use limits::{
    Limits, DEFAULT_MAX_BODY_BYTES, DEFAULT_MAX_CHUNKS, DEFAULT_MAX_HEADERS,
    DEFAULT_MAX_HEADER_BYTES, MAX_HEADER_CAPACITY,
};
pub use method::Method;
pub use position::{ByteRange, HeaderPosition, HeaderPositions};
pub use response::{encode_response_head, encode_response_head_prepared, PreparedHeaders};
pub use status::reason_phrase;
pub use stream::{StreamingChunk, StreamingChunkDecoder};
pub use upgrade::encode_upgrade_response;
