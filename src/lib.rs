//! Small sequence-analysis routines. The centre is a greedy overlap
//! assembler for DNA reads (`overlap`, `assembly`); around it stand counting
//! recurrences, base counts, word enumeration, monotone subsequences, motif
//! scanning, and intron splicing with codon translation.

pub mod assembly;
pub mod counting;
pub mod lexicon;
pub mod motif;
pub mod overlap;
pub mod splicing;
pub mod subsequence;
