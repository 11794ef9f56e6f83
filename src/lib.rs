//! Seed-filter-extend-refine protein similarity search.
//!
//! A query is cut into words (`alphabet`), looked up in an inverted index of
//! the targets (`index`, `spaced`), voted per target and diagonal (`vote`,
//! `filter`), extended without gaps along the best diagonal (`ungapped`,
//! `simd`), rescored with a gapped alignment of a window (`rescore`) and ranked
//! (`rank`, `pipeline`). Targets live in a flat store (`database`) read from
//! FASTA (`fasta`).

pub mod alphabet;
pub mod database;
pub mod index;
pub mod spaced;
pub mod ungapped;
pub mod simd;
pub mod rank;
pub mod vote;
pub mod filter;
pub mod rescore;
pub mod pipeline;
pub mod fasta;
pub mod metric;
