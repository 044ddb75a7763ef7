//! Streaming codecs for FASTA, MGF and MSP, the text formats of proteomics data exchange.
//!
//! Readers are fed one line at a time and hand out whole records; writers format a record
//! into text and keep it until it is flushed. Numeric fields are kept as the literal text
//! that was read, checked by `fast_float`, so that writing reproduces what was read.
pub mod text;
pub mod error;
pub mod number;
pub mod annotation;
pub mod header;
pub mod fasta;
pub mod mgf;
pub mod msp;
