//! The two decisions on either side of a call into a native numerical kernel.
//!
//! A kernel takes flat buffers with declared dimensions and answers with one integer.
//! Before the call, the lengths of all buffers are held against the dimensions, and the
//! sizes of the output buffers that the caller allocates are fixed; a mismatch is an
//! error and no call is made. After the call, the integer is read by the kernel's sign
//! conventions. Nothing here touches a buffer: the functions take lengths and codes.

use crate::error::ComputeError;
use crate::text::same_text;
use vstd::prelude::*;

verus! {

/// How a genomic relationship matrix is computed.
#[derive(Debug, Clone, Copy, PartialEq, Eq, Structural)]
pub enum GrmMethod {
    /// VanRaden's first method (2008).
    VanRaden1,
    /// VanRaden's second method (2008).
    VanRaden2,
}

impl GrmMethod {
    /// The method that a host names: `vanraden1` or `vanraden2`. Any other name is no
    /// method.
    pub fn from_name(name: &str) -> (method: Option<GrmMethod>)
        ensures
            name@ == "vanraden1"@ ==> method == Some(GrmMethod::VanRaden1),
            name@ == "vanraden2"@ ==> method == Some(GrmMethod::VanRaden2),
            name@ != "vanraden1"@ && name@ != "vanraden2"@ ==> method is None,
    {
        proof {
            reveal_strlit("vanraden1");
            reveal_strlit("vanraden2");
            assert("vanraden1"@[8] != "vanraden2"@[8]);
        }
        if same_text(name, "vanraden1") {
            Some(GrmMethod::VanRaden1)
        } else if same_text(name, "vanraden2") {
            Some(GrmMethod::VanRaden2)
        } else {
            None
        }
    }
}

/// Lengths of the two output buffers of a mixed-model solve.
#[derive(Debug, Clone, Copy, PartialEq, Eq, Structural)]
pub struct BlupBuffers {
    /// One fixed-effect estimate per column of the fixed-effects design matrix.
    pub beta: usize,
    /// One breeding value per column of the random-effects design matrix.
    pub breeding_values: usize,
}

/// The buffers of a mixed-model solve have the shapes `n`, `n x p`, `n x q` and `q x q`.
pub open spec fn blup_shapes_agree(
    phenotypes: int,
    fixed_effects: int,
    random_effects: int,
    a_inverse: int,
    n: int,
    p: int,
    q: int,
) -> bool {
    &&& phenotypes == n
    &&& fixed_effects == n * p
    &&& random_effects == n * q
    &&& a_inverse == q * q
}

/// The buffers of a genomic prediction have the shapes `n x m` and `n`, and the
/// heritability lies strictly between 0 and 1.
pub open spec fn gblup_shapes_agree(
    genotypes: int,
    phenotypes: int,
    heritability_in_range: bool,
    n: int,
    m: int,
) -> bool {
    &&& genotypes == n * m
    &&& phenotypes == n
    &&& heritability_in_range
}

/// The buffers of a linear system of dimension `rhs` have the shapes `rhs x rhs`, `rhs`
/// and `rhs`.
pub open spec fn solve_shapes_agree(coefficients: int, rhs: int, initial_guess: int) -> bool {
    &&& coefficients == rhs * rhs
    &&& initial_guess == rhs
}

/// Whether a buffer of `len` cells is a matrix of `rows` rows and `cols` columns. A
/// product that no `usize` holds is the length of no buffer.
fn is_matrix(len: usize, rows: usize, cols: usize) -> (ok: bool)
    ensures
        ok == (len == rows * cols),
{
    match rows.checked_mul(cols) {
        Some(cells) => cells == len,
        None => false,
    }
}

/// Admits a mixed-model solve (BLUP) and says how long its output buffers are.
pub fn check_blup(
    phenotypes: usize,
    fixed_effects: usize,
    random_effects: usize,
    a_inverse: usize,
    n: usize,
    p: usize,
    q: usize,
) -> (r: Result<BlupBuffers, ComputeError>)
    ensures
        blup_shapes_agree(
            phenotypes as int,
            fixed_effects as int,
            random_effects as int,
            a_inverse as int,
            n as int,
            p as int,
            q as int,
        ) ==> r == Ok::<BlupBuffers, ComputeError>(BlupBuffers { beta: p, breeding_values: q }),
        !blup_shapes_agree(
            phenotypes as int,
            fixed_effects as int,
            random_effects as int,
            a_inverse as int,
            n as int,
            p as int,
            q as int,
        ) ==> r == Err::<BlupBuffers, ComputeError>(ComputeError::InvalidDimensions),
{
    if phenotypes != n {
        return Err(ComputeError::InvalidDimensions);
    }
    if !is_matrix(fixed_effects, n, p) {
        return Err(ComputeError::InvalidDimensions);
    }
    if !is_matrix(random_effects, n, q) {
        return Err(ComputeError::InvalidDimensions);
    }
    if !is_matrix(a_inverse, q, q) {
        return Err(ComputeError::InvalidDimensions);
    }
    Ok(BlupBuffers { beta: p, breeding_values: q })
}

/// Admits a genomic prediction (GBLUP) and says how long its output buffer is: one
/// breeding value per individual. `heritability_in_range` says whether the heritability
/// lies strictly between 0 and 1; at 0 and at 1 the variance ratio is undefined.
pub fn check_gblup(
    genotypes: usize,
    phenotypes: usize,
    heritability_in_range: bool,
    n: usize,
    m: usize,
) -> (r: Result<usize, ComputeError>)
    ensures
        gblup_shapes_agree(
            genotypes as int,
            phenotypes as int,
            heritability_in_range,
            n as int,
            m as int,
        ) ==> r == Ok::<usize, ComputeError>(n),
        !gblup_shapes_agree(
            genotypes as int,
            phenotypes as int,
            heritability_in_range,
            n as int,
            m as int,
        ) ==> r == Err::<usize, ComputeError>(ComputeError::InvalidDimensions),
{
    if !is_matrix(genotypes, n, m) {
        return Err(ComputeError::InvalidDimensions);
    }
    if phenotypes != n {
        return Err(ComputeError::InvalidDimensions);
    }
    if !heritability_in_range {
        return Err(ComputeError::InvalidDimensions);
    }
    Ok(n)
}

/// Admits the computation of an `n x n` relationship matrix (additive by either method,
/// or dominance) from an `n x m` genotype matrix, and says how many cells the output has.
/// Where the genotypes have the declared shape but `n * n` cells cannot be addressed, no
/// output buffer can be had.
pub fn check_relationship(genotypes: usize, n: usize, m: usize) -> (r: Result<
    usize,
    ComputeError,
>)
    ensures
        genotypes != n * m ==> r == Err::<usize, ComputeError>(ComputeError::InvalidDimensions),
        genotypes == n * m && n * n > usize::MAX ==> r == Err::<usize, ComputeError>(
            ComputeError::AllocationError,
        ),
        genotypes == n * m && n * n <= usize::MAX ==> r == Ok::<usize, ComputeError>(
            (n * n) as usize,
        ),
{
    if !is_matrix(genotypes, n, m) {
        return Err(ComputeError::InvalidDimensions);
    }
    match n.checked_mul(n) {
        Some(cells) => Ok(cells),
        None => Err(ComputeError::AllocationError),
    }
}

/// Admits the computation of an epistatic relationship matrix from an `n x n`
/// relationship matrix, and says how many cells the output has.
pub fn check_epistatic(grm: usize, n: usize) -> (r: Result<usize, ComputeError>)
    ensures
        grm == n * n ==> r == Ok::<usize, ComputeError>(grm),
        grm != n * n ==> r == Err::<usize, ComputeError>(ComputeError::InvalidDimensions),
{
    if !is_matrix(grm, n, n) {
        return Err(ComputeError::InvalidDimensions);
    }
    Ok(grm)
}

/// Admits an iterative solve of a linear system whose dimension is the length of the
/// right-hand side, and returns that dimension. The solution buffer starts as a copy of
/// the initial guess.
pub fn check_solve(coefficients: usize, rhs: usize, initial_guess: usize) -> (r: Result<
    usize,
    ComputeError,
>)
    ensures
        solve_shapes_agree(coefficients as int, rhs as int, initial_guess as int) ==> r == Ok::<
            usize,
            ComputeError,
        >(rhs),
        !solve_shapes_agree(coefficients as int, rhs as int, initial_guess as int) ==> r == Err::<
            usize,
            ComputeError,
        >(ComputeError::InvalidDimensions),
{
    if !is_matrix(coefficients, rhs, rhs) {
        return Err(ComputeError::InvalidDimensions);
    }
    if initial_guess != rhs {
        return Err(ComputeError::InvalidDimensions);
    }
    Ok(rhs)
}

/// Reads the status of a mixed-model solve: 0 is success, -1 a singular matrix, and any
/// other code is unknown.
pub fn blup_status(status: i32) -> (r: Result<(), ComputeError>)
    ensures
        status == 0 ==> r == Ok::<(), ComputeError>(()),
        status == -1 ==> r == Err::<(), ComputeError>(ComputeError::MatrixInversionFailed),
        status != 0 && status != -1 ==> r == Err::<(), ComputeError>(
            ComputeError::Unknown(status),
        ),
{
    if status == 0 {
        Ok(())
    } else if status == -1 {
        Err(ComputeError::MatrixInversionFailed)
    } else {
        Err(ComputeError::Unknown(status))
    }
}

/// Reads the status of a genomic prediction: 0 is success, -1 a singular matrix, -2 a
/// failed solve, and any other code is unknown.
pub fn gblup_status(status: i32) -> (r: Result<(), ComputeError>)
    ensures
        status == 0 ==> r == Ok::<(), ComputeError>(()),
        status == -1 ==> r == Err::<(), ComputeError>(ComputeError::MatrixInversionFailed),
        status == -2 ==> r == Err::<(), ComputeError>(ComputeError::SolveFailure),
        status != 0 && status != -1 && status != -2 ==> r == Err::<(), ComputeError>(
            ComputeError::Unknown(status),
        ),
{
    if status == 0 {
        Ok(())
    } else if status == -1 {
        Err(ComputeError::MatrixInversionFailed)
    } else if status == -2 {
        Err(ComputeError::SolveFailure)
    } else {
        Err(ComputeError::Unknown(status))
    }
}

/// Reads the status of a relationship-matrix kernel: 0 is success, and any other code is
/// unknown and never taken for success.
pub fn matrix_status(status: i32) -> (r: Result<(), ComputeError>)
    ensures
        status == 0 ==> r == Ok::<(), ComputeError>(()),
        status != 0 ==> r == Err::<(), ComputeError>(ComputeError::Unknown(status)),
{
    if status == 0 {
        Ok(())
    } else {
        Err(ComputeError::Unknown(status))
    }
}

/// Reads what the conjugate-gradient solver returned. A count that is not negative is
/// the number of iterations after which the residual fell below the tolerance. -1 is
/// reserved for a solve that failed outright. Any other negative value says that the
/// budget ran out, and its magnitude is the number of iterations attempted.
pub fn pcg_outcome(iterations: i32) -> (r: Result<usize, ComputeError>)
    requires
        iterations > i32::MIN,
    ensures
        iterations >= 0 ==> r == Ok::<usize, ComputeError>(iterations as usize),
        iterations == -1 ==> r == Err::<usize, ComputeError>(ComputeError::SolveFailure),
        iterations < -1 ==> r == Err::<usize, ComputeError>(
            ComputeError::ConvergenceFailure { iterations: (-iterations) as i32 },
        ),
{
    if iterations >= 0 {
        Ok(iterations as usize)
    } else if iterations == -1 {
        Err(ComputeError::SolveFailure)
    } else {
        Err(ComputeError::ConvergenceFailure { iterations: -iterations })
    }
}

} // verus!
