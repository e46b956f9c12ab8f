//! Seals the traits that no other crate may implement.
use vstd::prelude::*;

verus! {

/// Seals [`crate::header::HeaderField`]: the single-field slot types, and no
/// others.
pub trait HeaderField {

}

} // verus!
