use genomics_kernel::pairs::{count_column_pair, count_pairs, count_row_pair, PairCounts};

fn table(cells: [usize; 9]) -> PairCounts {
    PairCounts {
        n00: cells[0],
        n01: cells[1],
        n02: cells[2],
        n10: cells[3],
        n11: cells[4],
        n12: cells[5],
        n20: cells[6],
        n21: cells[7],
        n22: cells[8],
    }
}

#[test]
fn joint_table_of_two_runs() {
    let first = vec![0_i32, 0, 0, 1, 1, 1, 2, 2, 2, -1, 1, 5];
    let second = vec![0_i32, 1, 2, 0, 1, 2, 0, 1, 2, 1, -1, 2];
    let counts = count_pairs(&first, &second).unwrap();
    assert_eq!(counts, table([1; 9]));
    assert_eq!(counts.valid(), 9);
    assert_eq!(counts.shared(), 2 + 2 + 5);
    assert_eq!(counts.difference(), 4 + 4);
    assert_eq!(counts.sum_first(), 9);
    assert_eq!(counts.sum_second(), 9);
    assert_eq!(counts.squares_first(), 15);
    assert_eq!(counts.squares_second(), 15);
    assert_eq!(counts.products(), 1 + 2 + 2 + 4);
}

#[test]
fn runs_of_different_length_are_rejected() {
    assert_eq!(count_pairs(&[0_u8, 1], &[0_u8]), None);
    assert_eq!(count_pairs(&[0_u8], &[0_u8, 1]), None);
    let empty: [u8; 0] = [];
    assert_eq!(count_pairs(&empty, &empty), Some(table([0; 9])));
}

#[test]
fn kinship_of_identical_homozygotes_is_one() {
    let a = vec![0_i32, 2, 0, 2];
    let counts = count_pairs(&a, &a).unwrap();
    let kinship = counts.shared() as f64 / (2.0 * counts.valid() as f64);
    assert_eq!(kinship, 1.0);
}

#[test]
fn kinship_counts_shared_alleles() {
    // pairs (0,2) (1,1) (2,2) (0,1) and one missing: 0 + 1 + 2 + 1 shared of 2 * 4
    let a = vec![0_i32, 1, 2, 0, -1];
    let b = vec![2_i32, 1, 2, 1, 0];
    let counts = count_pairs(&a, &b).unwrap();
    assert_eq!(counts.valid(), 4);
    assert_eq!(counts.shared(), 4);
    let kinship = counts.shared() as f64 / (2.0 * counts.valid() as f64);
    assert_eq!(kinship, 0.5);
    // allele sharing distance: 1 - shared' / total with shared' = total - difference / 2
    assert_eq!(counts.difference(), 3);
    let distance = 1.0 - (counts.valid() as f64 - counts.difference() as f64 / 2.0)
        / counts.valid() as f64;
    assert_eq!(distance, 0.375);
}

#[test]
fn the_table_of_swapped_runs_is_mirrored() {
    let a = vec![0_u8, 1, 2, 2, 1, 9, 0];
    let b = vec![1_u8, 1, 0, 1, 2, 0, 7];
    let ab = count_pairs(&a, &b).unwrap();
    let ba = count_pairs(&b, &a).unwrap();
    assert_eq!(ab.n01, ba.n10);
    assert_eq!(ab.n02, ba.n20);
    assert_eq!(ab.n12, ba.n21);
    assert_eq!(ab.n10, ba.n01);
    assert_eq!(ab.n20, ba.n02);
    assert_eq!(ab.n21, ba.n12);
    assert_eq!(ab.n11, ba.n11);
    assert_eq!(ab.shared(), ba.shared());
    assert_eq!(ab.difference(), ba.difference());
    assert_eq!(ab.sum_first(), ba.sum_second());
}

#[test]
fn rows_and_columns_of_a_matrix() {
    // 3 individuals, 4 markers
    let markers = vec![
        0_u8, 1, 2, 1, //
        0, 2, 2, 9, //
        1, 1, 0, 1,
    ];
    let rows = count_row_pair(&markers, 4, 3, 0, 1).unwrap();
    assert_eq!(rows, table([1, 0, 0, 0, 0, 1, 0, 0, 1]));
    assert_eq!(rows, count_pairs(&markers[0..4], &markers[4..8]).unwrap());
    let same = count_row_pair(&markers, 4, 3, 2, 2).unwrap();
    assert_eq!(same, table([1, 0, 0, 0, 3, 0, 0, 0, 0]));

    let columns = count_column_pair(&markers, 4, 3, 1, 2).unwrap();
    assert_eq!(columns, table([0, 0, 0, 1, 0, 1, 0, 0, 1]));
    let with_missing = count_column_pair(&markers, 4, 3, 0, 3).unwrap();
    assert_eq!(with_missing, table([0, 1, 0, 0, 1, 0, 0, 0, 0]));
}

#[test]
fn pairs_outside_the_matrix_are_rejected() {
    let markers = vec![0_u8, 1, 2, 1, 0, 2];
    assert!(count_row_pair(&markers, 3, 2, 0, 1).is_some());
    assert_eq!(count_row_pair(&markers, 3, 2, 0, 2), None);
    assert_eq!(count_row_pair(&markers, 3, 2, 2, 0), None);
    assert_eq!(count_row_pair(&markers, 2, 2, 0, 1), None);
    assert_eq!(count_row_pair(&markers, 0, 2, 0, 1), None);
    assert!(count_column_pair(&markers, 3, 2, 2, 0).is_some());
    assert_eq!(count_column_pair(&markers, 3, 2, 3, 0), None);
    assert_eq!(count_column_pair(&markers, 3, 2, 0, 3), None);
    assert_eq!(count_column_pair(&markers, 4, 2, 0, 1), None);
    assert_eq!(count_column_pair(&markers, usize::MAX, 2, 0, 1), None);
}

#[test]
fn linkage_moments_of_two_markers() {
    // the same marker twice: the moments of the first are those of the second
    let g = vec![0_i32, 1, 2, 1, 0];
    let counts = count_pairs(&g, &g).unwrap();
    assert_eq!(counts.valid(), 5);
    assert_eq!(counts.sum_first(), 4);
    assert_eq!(counts.squares_first(), 6);
    assert_eq!(counts.products(), 6);
    let n = counts.valid() as f64;
    let mean = counts.sum_first() as f64 / n;
    let var = counts.squares_first() as f64 / n - mean * mean;
    let cov = counts.products() as f64 / n - mean * mean;
    assert!((cov * cov / (var * var) - 1.0).abs() < 1e-12);
}
