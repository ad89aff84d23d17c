use vstd::prelude::*;

verus! {

/// The error kinds a query or a resolve operation can end in.
///
/// All of these are fatal for the operation that raised them; the one
/// non-fatal condition of the pipeline (a row whose locator text is not a
/// parseable URI) is not an error at all: such a row is silently dropped
/// by the result builder.
#[derive(Clone, Copy, Debug, PartialEq, Eq, Structural)]
pub enum QueryError {
    /// A malformed binary frame: bad row tag, truncated buffer, or an
    /// arithmetic underflow while computing a field length.
    FormatError,
    /// A field of a decoded row is not valid UTF-8.
    EncodingError,
    /// The row or column shape does not match what the service advertised.
    ProtocolError,
    /// An identifier resolved to zero rows.
    NotFoundError,
}

} // verus!
