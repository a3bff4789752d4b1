//! Suffix array and Burrows-Wheeler transform construction (the divsufsort
//! algorithm), with suffix array checking and searching.
pub mod arr;
pub mod certify;
pub mod constants;
pub mod divsufsort;
pub mod heap;
pub mod lfmap;
pub mod pattern;
pub mod sssort;
pub mod suffix;
pub mod trsort;
pub mod utils;

pub use divsufsort::{divbwt, divsufsort};
pub use utils::{
    bw_transform, inverse_bw_transform, sa_search, sa_simplesearch, sufcheck, SufCheckError,
};

use vstd::prelude::*;

verus! {

/// Errors reported by the suffix array and BWT constructors.
#[derive(Debug, PartialEq, Eq, Structural)]
pub enum DivSufSortError {
    InvalidArgument,
    AllocationFailure,
}

impl DivSufSortError {
    /// A short description of the error.
    pub fn message(&self) -> (s: &'static str)
        ensures
            *self == DivSufSortError::InvalidArgument ==> s@ == "invalid argument"@,
            *self == DivSufSortError::AllocationFailure ==> s@ == "allocation failure"@,
    {
        match self {
            DivSufSortError::InvalidArgument => "invalid argument",
            DivSufSortError::AllocationFailure => "allocation failure",
        }
    }
}

} // verus!
