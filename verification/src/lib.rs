//! Regular temperament utilities: the integer side of temperament finding.
//!
//! A regular temperament is a set of equal-temperament mappings, each a
//! vector of step counts, one per prime.  This crate holds everything
//! about them that can be said in exact integer arithmetic: the Hermite
//! normal form and the lattice theory behind it, keys and ranks,
//! unison vectors, periodicity blocks, ratios and names.
use vstd::prelude::*;

pub mod alternating;
pub mod determinant;
pub mod et_name;
pub mod et_search;
pub mod fokker;
pub mod hermite;
pub mod lattice;
pub mod limit;
pub mod minors;
pub mod name_laws;
pub mod names;
pub mod primes;
pub mod queue;
pub mod rank;
pub mod ratio;
pub mod rebuild;
pub mod reduction;
pub mod search;
pub mod shape;
pub mod temperament_class;
pub mod text;
pub mod uniqueness;
pub mod unison_search;
pub mod uv;
pub mod walk;
pub mod warts;

verus! {

/// Integer partial.
pub type Harmonic = u16;

/// Member of a mapping or of a ratio-space vector.
pub type Exponent = i32;

/// An equal temperament mapping: steps to each prime.
pub type ETMap = Vec<Exponent>;

/// A list of equal temperament mappings, the columns of a mapping matrix.
pub type Mapping = Vec<ETMap>;

} // verus!
