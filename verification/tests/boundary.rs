use genomics_kernel::boundary::{
    blup_status, check_blup, check_epistatic, check_gblup, check_relationship, check_solve,
    gblup_status, matrix_status, pcg_outcome, BlupBuffers, GrmMethod,
};
use genomics_kernel::error::ComputeError;

#[test]
fn test_grm_dimensions() {
    let n = 10;
    let m = 100;
    let genotypes: Vec<f64> = (0..n * m).map(|i| (i % 3) as f64).collect();

    for method in [GrmMethod::VanRaden1, GrmMethod::VanRaden2] {
        assert!(method == GrmMethod::VanRaden1 || method == GrmMethod::VanRaden2);
        let result = check_relationship(genotypes.len(), n, m);
        assert!(result.is_ok());

        let cells = result.unwrap();
        assert_eq!(cells, n * n);
        assert_eq!(matrix_status(0), Ok(()));
    }
}

#[test]
fn test_invalid_dimensions() {
    let genotypes = vec![0.0; 50]; // Wrong size
    let result = check_relationship(genotypes.len(), 10, 100);
    assert!(matches!(result, Err(ComputeError::InvalidDimensions)));
}

#[test]
fn blup_shapes() {
    assert_eq!(check_blup(4, 8, 12, 9, 4, 2, 3), Ok(BlupBuffers { beta: 2, breeding_values: 3 }));
    assert_eq!(check_blup(5, 8, 12, 9, 4, 2, 3), Err(ComputeError::InvalidDimensions));
    assert_eq!(check_blup(4, 7, 12, 9, 4, 2, 3), Err(ComputeError::InvalidDimensions));
    assert_eq!(check_blup(4, 8, 11, 9, 4, 2, 3), Err(ComputeError::InvalidDimensions));
    assert_eq!(check_blup(4, 8, 12, 8, 4, 2, 3), Err(ComputeError::InvalidDimensions));
    assert_eq!(check_blup(0, 0, 0, 0, 0, 0, 0), Ok(BlupBuffers { beta: 0, breeding_values: 0 }));
    // a declared shape whose size overflows matches no buffer
    assert_eq!(
        check_blup(2, 0, 2, 1, 2, usize::MAX, 1),
        Err(ComputeError::InvalidDimensions)
    );
    assert_eq!(
        check_blup(0, 0, 0, 0, 0, 0, usize::MAX),
        Err(ComputeError::InvalidDimensions)
    );
}

#[test]
fn gblup_shapes_and_heritability() {
    assert_eq!(check_gblup(12, 4, true, 4, 3), Ok(4));
    assert_eq!(check_gblup(12, 4, false, 4, 3), Err(ComputeError::InvalidDimensions));
    assert_eq!(check_gblup(11, 4, true, 4, 3), Err(ComputeError::InvalidDimensions));
    assert_eq!(check_gblup(12, 3, true, 4, 3), Err(ComputeError::InvalidDimensions));
    assert_eq!(check_gblup(0, 2, true, 2, usize::MAX), Err(ComputeError::InvalidDimensions));
}

#[test]
fn relationship_shapes() {
    assert_eq!(check_relationship(6, 2, 3), Ok(4));
    assert_eq!(check_relationship(6, 3, 2), Ok(9));
    assert_eq!(check_relationship(0, 0, 7), Ok(0));
    assert_eq!(check_relationship(0, 5, 0), Ok(25));
    assert_eq!(check_relationship(7, 2, 3), Err(ComputeError::InvalidDimensions));
    assert_eq!(check_relationship(0, usize::MAX, 2), Err(ComputeError::InvalidDimensions));
    assert_eq!(check_relationship(0, usize::MAX, 0), Err(ComputeError::AllocationError));
}

#[test]
fn epistatic_shapes() {
    assert_eq!(check_epistatic(9, 3), Ok(9));
    assert_eq!(check_epistatic(0, 0), Ok(0));
    assert_eq!(check_epistatic(8, 3), Err(ComputeError::InvalidDimensions));
    assert_eq!(check_epistatic(1, usize::MAX), Err(ComputeError::InvalidDimensions));
}

#[test]
fn solve_shapes() {
    assert_eq!(check_solve(9, 3, 3), Ok(3));
    assert_eq!(check_solve(0, 0, 0), Ok(0));
    assert_eq!(check_solve(8, 3, 3), Err(ComputeError::InvalidDimensions));
    assert_eq!(check_solve(9, 3, 2), Err(ComputeError::InvalidDimensions));
    assert_eq!(check_solve(9, usize::MAX, usize::MAX), Err(ComputeError::InvalidDimensions));
}

#[test]
fn status_codes() {
    assert_eq!(blup_status(0), Ok(()));
    assert_eq!(blup_status(-1), Err(ComputeError::MatrixInversionFailed));
    assert_eq!(blup_status(-2), Err(ComputeError::Unknown(-2)));
    assert_eq!(blup_status(1), Err(ComputeError::Unknown(1)));

    assert_eq!(gblup_status(0), Ok(()));
    assert_eq!(gblup_status(-1), Err(ComputeError::MatrixInversionFailed));
    assert_eq!(gblup_status(-2), Err(ComputeError::SolveFailure));
    assert_eq!(gblup_status(-3), Err(ComputeError::Unknown(-3)));
    assert_eq!(gblup_status(i32::MIN), Err(ComputeError::Unknown(i32::MIN)));

    assert_eq!(matrix_status(0), Ok(()));
    assert_eq!(matrix_status(-1), Err(ComputeError::Unknown(-1)));
    assert_eq!(matrix_status(7), Err(ComputeError::Unknown(7)));
}

#[test]
fn conjugate_gradient_outcomes() {
    assert_eq!(pcg_outcome(0), Ok(0));
    assert_eq!(pcg_outcome(1), Ok(1));
    assert_eq!(pcg_outcome(i32::MAX), Ok(i32::MAX as usize));
    assert_eq!(pcg_outcome(-1), Err(ComputeError::SolveFailure));
    assert_eq!(pcg_outcome(-2), Err(ComputeError::ConvergenceFailure { iterations: 2 }));
    assert_eq!(pcg_outcome(-1000), Err(ComputeError::ConvergenceFailure { iterations: 1000 }));
    assert_eq!(
        pcg_outcome(i32::MIN + 1),
        Err(ComputeError::ConvergenceFailure { iterations: i32::MAX })
    );
}

#[test]
fn error_messages() {
    assert_eq!(ComputeError::MatrixInversionFailed.message(), "Matrix inversion failed");
    assert_eq!(ComputeError::SolveFailure.message(), "Linear system solve failed");
    assert_eq!(
        ComputeError::ConvergenceFailure { iterations: 250 }.message(),
        "Convergence not achieved after 250 iterations"
    );
    assert_eq!(
        ComputeError::ConvergenceFailure { iterations: 0 }.message(),
        "Convergence not achieved after 0 iterations"
    );
    assert_eq!(ComputeError::InvalidDimensions.message(), "Invalid input dimensions");
    assert_eq!(ComputeError::AllocationError.message(), "Memory allocation failed");
    assert_eq!(ComputeError::Unknown(-7).message(), "Unknown error (code: -7)");
    assert_eq!(ComputeError::Unknown(1000).message(), "Unknown error (code: 1000)");
    assert_eq!(ComputeError::Unknown(i32::MIN).message(), "Unknown error (code: -2147483648)");
    assert_eq!(ComputeError::Unknown(i32::MAX).message(), "Unknown error (code: 2147483647)");
    assert_eq!(ComputeError::Unknown(10).message(), "Unknown error (code: 10)");
    assert_eq!(ComputeError::Unknown(9).message(), "Unknown error (code: 9)");
}

#[test]
fn methods_by_name() {
    assert_eq!(GrmMethod::from_name("vanraden1"), Some(GrmMethod::VanRaden1));
    assert_eq!(GrmMethod::from_name("vanraden2"), Some(GrmMethod::VanRaden2));
    assert_eq!(GrmMethod::from_name("vanraden3"), None);
    assert_eq!(GrmMethod::from_name("VanRaden1"), None);
    assert_eq!(GrmMethod::from_name("vanraden"), None);
    assert_eq!(GrmMethod::from_name("vanraden11"), None);
    assert_eq!(GrmMethod::from_name(""), None);
}
