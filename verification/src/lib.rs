//! Parsing and manipulation of FASTA-style flat-text sequence files.
//!
//! A file is a series of records: one description line beginning with the
//! `>` marker, followed by the record's sequence data lines. The crate
//! offers sequential streaming decode of all records, a byte-offset index
//! keyed by accession for random access into seekable sources, and a
//! durable JSON form of that index.

pub mod errors;
pub mod helpers;
pub mod index;
pub mod json;
pub mod map;
pub mod pieces;
pub mod read;
