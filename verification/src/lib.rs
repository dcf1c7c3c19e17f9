//! Verified integer core of a genomic-relationship and breeding-value engine.
//!
//! Everything that such an engine decides on integers is decided here and proved: the
//! shape of a genotype matrix, which calls count, the counts behind every frequency,
//! whether a relationship matrix has a scale at all, what may cross into a native
//! kernel and what its answer means, and how sequences align. The floating-point
//! arithmetic that turns these into matrices and breeding values is left to the caller.

pub mod boundary;
pub mod error;
pub mod genotype;
pub mod grm;
pub mod matrix;
pub mod pairs;
pub mod pedigree;
pub mod population;
pub mod sequence;
pub mod text;
