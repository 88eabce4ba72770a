//! A comma-separated-values document library with a verified
//! tokenizer/serializer pair.
//!
//! A `CSVRow` is an ordered sequence of text fields; a `CSVDocument` is a
//! header row plus an ordered sequence of content rows.  Parsing tracks
//! quoted regions so that commas and newlines inside quotes are data, and
//! serialization quotes and quote-doubles fields so that the output parses
//! back to the same document.

pub mod charclass;
pub mod csv_document;
pub mod csv_row;
pub mod doc_codec;
pub mod laws;
pub mod row_codec;
pub mod strutil;

pub use charclass::is_space_char;
pub use csv_document::CSVDocument;
pub use csv_row::CSVParseable;
pub use csv_row::CSVRow;
