//! Field and sentence parsers for NMEA 0183 messages, written as functions on
//! bytes whose results are stated against the grammar of each sentence.
pub mod error;
pub mod scan;
pub mod number;
pub mod types;
pub mod fields;
pub mod gll;
pub mod rmc;
pub mod vtg;
pub mod txt;
pub mod zda;
pub mod framing;
pub mod streaming;
pub mod fieldwise;
pub mod float_laws;
