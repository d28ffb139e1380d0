//! yEnc binary-to-text encoding.
//!
//! The crate implements the yEnc transfer encoding: a byte-oriented scheme
//! that maps arbitrary binary data into printable octets, frames the result
//! with `=ybegin` / `=ypart` / `=yend` control lines, wraps the body into
//! lines of a configured width, and protects the payload with CRC-32
//! checksums.  Encoding and decoding are verified: the contracts tie both
//! directions to one mathematical model of the wire format, and the laws in
//! [`laws`] prove, among other things, that decoding inverts encoding.

pub mod consts;
pub mod crc;
pub mod decode;
pub mod encode;
pub mod error;
pub mod header;
pub mod laws;
pub mod lines;
pub mod numbers;
pub mod transform;

pub use decode::{decode, Decoder};
pub use encode::{encode, encode_part, Encoder, MultiPartInfo};
pub use error::YencError;
pub use header::{YencHeader, YencPart, YencTrailer};
