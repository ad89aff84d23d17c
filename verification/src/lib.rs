//! Codecs for a desktop-search launcher adapter.
//!
//! A desktop indexing service answers a free-text query with a compact,
//! length-prefixed binary table of rows; the launcher consumes a
//! line-oriented record format (label, NUL, metadata blocks, LF).  This
//! crate holds the two byte-exact codecs between them: the cursor/record
//! stream decoder and the output record encoder, together with the result
//! builder that sits between the two.

pub mod cursor;
pub mod error;
pub mod escape;
pub mod record;
pub mod results;

pub use cursor::decode_frames;
pub use cursor::decode_rows;
pub use cursor::decode_single_frame;
pub use error::QueryError;
pub use escape::escape_result;
pub use escape::sparql_escape;
pub use record::format_result;
pub use record::format_rofi_option;
pub use record::no_results_option;
pub use results::Locator;
pub use results::QueryResult;
pub use results::build_results;
pub use results::decode_resolve_reply;
pub use results::decode_search_reply;
