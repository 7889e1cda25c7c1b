//! Identifier normalization for gene-expression exports.
//!
//! The library maps gene symbols appearing in delimited text matrices to
//! standardized HGNC identifiers.  A model-specific filter table selects the
//! Entrez IDs that matter for a chosen metabolic model, a nomenclature table
//! supplies symbol/HGNC/Entrez triples, and the line rewriter substitutes
//! identifiers while converting the field delimiter.  All parsing and
//! rewriting works on plain byte sequences; reading and writing files is left
//! to callers.

#![verifier::loop_isolation(false)]

pub mod error;
pub mod table;
pub mod filter;
pub mod mapping;
pub mod rewrite;
pub mod remote;
pub mod pipeline;
