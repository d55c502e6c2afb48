//! An akshara-aware, script-tiered byte-pair tokenizer for Nepali.
//!
//! Text is normalised, cut into script runs, segmented into aksharas by an
//! automaton, and matched greedily against a vocabulary that constrained
//! byte-pair training builds. Everything in this crate is verified; the calls
//! into `std` and into `unicode_normalization` that Verus cannot read are
//! collected in [`external`].

pub mod external;
pub mod text;
pub mod pair_map;
pub mod script;
pub mod sorting;
pub mod normalize;
pub mod folding;
pub mod akshara;
pub mod paradigm;
pub mod vocab;
pub mod corpus;
pub mod merge_queue;
pub mod trainer;
pub mod training;
pub mod selection;
pub mod writing;
pub mod encoding;
pub mod tokenizer;
pub mod roundtrip;
pub mod lossless;
pub mod inventory;
pub mod boundaries;
pub mod matching;
pub mod counting;
pub mod harvest;
pub mod pipeline;
pub mod tsv;
pub mod reading;
pub mod rooting;
pub mod metrics;
pub mod figures;
