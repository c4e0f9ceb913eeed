//! K-mer encoding, presence detection and a genus-conditional k-mer
//! probability database for naive-Bayes style sequence classification.
use vstd::prelude::*;

pub mod database;
pub mod detect;
pub mod kmers;

verus! {

/// Errors reported by the library's entry points.
#[derive(Debug, Clone, Copy, PartialEq, Eq, Structural)]
pub enum KmerError {
    /// A window holds a byte that is not one of `A`, `C`, `G`, `T` (either case).
    InvalidBase,
    /// The arguments of a call are malformed: the sequence and label lists
    /// differ in length, the k-mer size is zero or so large that `4^k` does
    /// not fit in a `usize`, or the corpus is too large for its counts to
    /// fit in a `usize`.
    InvalidArgument,
}

} // verus!
