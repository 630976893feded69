//! Data structures that every part of the database shares.
pub mod error;
pub mod expr;
pub mod field;
pub mod ids;
pub mod meaning;
pub mod order;
pub mod plan;
pub mod pretty;
pub mod record;
pub mod table;
pub mod text;
pub mod tuple;

use vstd::layout;
use vstd::prelude::*;

verus! {

/// Page size in bytes.
pub const PAGE_SIZE: usize = 4096;

/// Checks if the in-memory size of a value's type `V` fits within the size of
/// the target type `T`.
pub fn fits_in_type<T, V>(_value: &V) -> (r: bool)
    ensures
        r == (layout::size_of::<V>() <= layout::size_of::<T>()),
{
    std::mem::size_of::<V>() <= std::mem::size_of::<T>()
}

} // verus!
