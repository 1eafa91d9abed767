//! A compact model of a genome-wide genealogy: ancestry intervals ("edges")
//! over half-open genomic ranges, a builder that produces a well-formed edge
//! set from lineage-splicing operations, sweep-line iterators that reconstruct
//! the sequence of local ancestry trees, and an MRCA query over a single tree.

pub mod node;
pub mod edge;
pub mod tree;
pub mod sweep;
pub mod treeseq;
pub mod treeseqbuilder;
