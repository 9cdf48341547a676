//! Simulation of nucleotide sequence evolution along Newick trees.
pub mod text;
pub mod sequence;
pub mod mutator;
pub mod tree;
pub mod assemble;
