//! A read-only decoder for a legacy row-store table format.
//!
//! A table is a pair of byte images: an index image that describes the
//! table's shape, and a data image that holds the records as a stream of
//! typed, variably framed blocks. The library decodes big-endian integers,
//! walks the index image to the field table, and scans the data image,
//! reassembling records that are split across chained blocks.
//!
//! Every function carries a contract over sequences of bytes, and the
//! contracts are machine-checked.

pub mod error;
pub mod bytes;
pub mod blocks;
pub mod scan;
pub mod table;
pub mod index;
pub mod laws;
