//! Square matrices in flat row-major buffers.
//!
//! A relationship matrix is symmetric. It is built by computing the cells on and above
//! the diagonal and copying each of them to its mirror image, so that the two halves
//! agree cell for cell, whatever the cells hold.

use crate::genotype::{cell, lemma_cell_in_buffer, lemma_cell_injective};
use vstd::prelude::*;

verus! {

/// Every entry of the `n x n` matrix equals its mirror image.
pub open spec fn symmetric<T>(cells: Seq<T>, n: int) -> bool {
    forall|i: int, k: int|
        0 <= i < n && 0 <= k < n ==> #[trigger] cell(cells, n, i, k) == cell(cells, n, k, i)
}

/// The two matrices agree on and above the diagonal.
pub open spec fn same_upper<T>(a: Seq<T>, b: Seq<T>, n: int) -> bool {
    forall|i: int, k: int| 0 <= i <= k < n ==> #[trigger] cell(a, n, i, k) == cell(b, n, i, k)
}

/// Copies every cell above the diagonal of an `n x n` matrix to its mirror image below.
/// A buffer that is not `n x n` is left as it is, and `false` is returned.
#[verifier::rlimit(40)]
pub fn mirror_upper<T: Copy>(cells: &mut Vec<T>, n: usize) -> (done: bool)
    ensures
        done == (old(cells)@.len() == n * n),
        !done ==> final(cells)@ == old(cells)@,
        done ==> final(cells)@.len() == n * n,
        done ==> same_upper(final(cells)@, old(cells)@, n as int),
        done ==> symmetric(final(cells)@, n as int),
{
    let held = cells.len();
    match n.checked_mul(n) {
        Some(len) => {
            if held != len {
                return false;
            }
        },
        None => {
            return false;
        },
    }
    let ghost before = cells@;
    let mut i: usize = 0;
    while i < n
        invariant
            i <= n,
            before == old(cells)@,
            cells@.len() == n * n,
            n * n <= usize::MAX,
            same_upper(cells@, before, n as int),
            forall|a: int, b: int|
                0 <= a < i && a < b < n ==> #[trigger] cell(cells@, n as int, b, a) == cell(
                    before,
                    n as int,
                    a,
                    b,
                ),
        decreases n - i,
    {
        let mut k: usize = i + 1;
        while k < n
            invariant
                i < n,
                i < k <= n,
                before == old(cells)@,
                cells@.len() == n * n,
                n * n <= usize::MAX,
                same_upper(cells@, before, n as int),
                forall|a: int, b: int|
                    0 <= a < i && a < b < n ==> #[trigger] cell(cells@, n as int, b, a) == cell(
                        before,
                        n as int,
                        a,
                        b,
                    ),
                forall|b: int|
                    i < b < k ==> #[trigger] cell(cells@, n as int, b, i as int) == cell(
                        before,
                        n as int,
                        i as int,
                        b,
                    ),
            decreases n - k,
        {
            proof {
                lemma_cell_in_buffer(i as int, k as int, n as int, n as int);
                lemma_cell_in_buffer(k as int, i as int, n as int, n as int);
            }
            let ghost earlier = cells@;
            let value = cells[i * n + k];
            cells.set(k * n + i, value);
            proof {
                assert(value == cell(earlier, n as int, i as int, k as int));
                assert forall|a: int, b: int| 0 <= a < n && 0 <= b < n && !(a == k && b == i)
                    implies #[trigger] cell(cells@, n as int, a, b) == cell(
                    earlier,
                    n as int,
                    a,
                    b,
                ) by {
                    lemma_cell_in_buffer(a, b, n as int, n as int);
                    if a * n + b == k * n + i {
                        lemma_cell_injective(a, b, k as int, i as int, n as int);
                    }
                }
                assert(cell(cells@, n as int, k as int, i as int) == value);
            }
            k = k + 1;
        }
        i = i + 1;
    }
    proof {
        assert forall|a: int, b: int| 0 <= a < n && 0 <= b < n implies #[trigger] cell(
            cells@,
            n as int,
            a,
            b,
        ) == cell(cells@, n as int, b, a) by {
            if a < b {
                assert(cell(cells@, n as int, b, a) == cell(before, n as int, a, b));
                assert(cell(cells@, n as int, a, b) == cell(before, n as int, a, b));
            } else if b < a {
                assert(cell(cells@, n as int, a, b) == cell(before, n as int, b, a));
                assert(cell(cells@, n as int, b, a) == cell(before, n as int, b, a));
            }
        }
    }
    true
}

} // verus!
