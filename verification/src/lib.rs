//! Request-side HTTP/1.1 parsing: locating the end of the header block in a
//! stream delivered in chunks, reading the request line, headers and query
//! string, deciding how much body to pull, and decoding form bodies.
//!
//! Text is modelled as a sequence of Unicode scalar values (`Seq<char>`), raw
//! stream data as a sequence of bytes (`Seq<u8>`), and every mapping from
//! names to values as a `Map<Seq<char>, Seq<char>>`.

pub mod error;
pub mod text;
pub mod split;
pub mod fields;
pub mod query;
pub mod multipart;
pub mod number;
pub mod scan;
pub mod request;
pub mod response;
