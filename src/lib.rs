//! Parsing, validation and re-serialisation of FASTA multiple sequence
//! alignments.

pub mod fasta;
pub mod laws;
pub mod msa;

pub use fasta::FastaRead;
pub use msa::{Entry, NoDataError, ParseError, ProblemHeader, Sequence, MSA};
