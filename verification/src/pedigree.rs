//! Parents in a pedigree, as rows of the relationship matrix.

use vstd::prelude::*;

verus! {

/// The row that a parent's id names among `n` individuals, if it names one.
pub open spec fn parent_row_of(id: int, n: int) -> Option<usize> {
    if 0 <= id < n {
        Some(id as usize)
    } else {
        None
    }
}

/// The row of a parent in the relationship matrix of `n` individuals. A negative id
/// stands for an unknown parent, and an id that is no row of the matrix is taken for
/// unknown as well.
pub fn parent_row(id: i32, n: usize) -> (row: Option<usize>)
    ensures
        row == parent_row_of(id as int, n as int),
{
    if id < 0 {
        return None;
    }
    let at = id as usize;
    if at < n {
        Some(at)
    } else {
        None
    }
}

} // verus!
