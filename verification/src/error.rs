//! The ways in which the input can fail to give a request.

use vstd::prelude::*;

verus! {

/// Why no request came of the input.
#[derive(Clone, Copy, Debug, PartialEq, Eq, Structural)]
pub enum HttpError {
    /// No request line, or a length header that states no length.
    Parse,
    /// The body is not valid UTF-8.
    Encoding,
    /// The stated length is over the limit. The caller owes the client a
    /// reply that says so.
    TooLarge,
}

} // verus!
