use genomics_kernel::genotype::{
    count_calls, marker_counts, recode, GenotypeCode, GenotypeEncoding, MarkerCounts,
};
use genomics_kernel::matrix::mirror_upper;
use genomics_kernel::grm::{grm_cells, has_polymorphic, markers_used, plan_grm, GrmPlan};

/// Finishes a plan in single precision: frequencies from the counts, the centred matrix,
/// then `Z Zᵗ / scale`, markers summed in order.
fn g_matrix(markers: &[u8], n_markers: usize, n_individuals: usize) -> Vec<f32> {
    let (cells, counts) = match plan_grm(markers, n_markers, n_individuals) {
        GrmPlan::Empty => return Vec::new(),
        GrmPlan::Zero { cells } => return vec![0.0_f32; cells],
        GrmPlan::Scaled { cells, counts } => (cells, counts),
    };
    let mut freqs = vec![0.0_f32; n_markers];
    let mut scale = 0.0_f32;
    for j in 0..n_markers {
        if counts[j].valid() > 0 {
            freqs[j] = counts[j].dosage_sum() as f32 / (2.0 * counts[j].valid() as f32);
        }
        if counts[j].is_polymorphic() {
            scale += 2.0 * freqs[j] * (1.0 - freqs[j]);
        }
    }
    let mut levels = vec![0.0_f32; 3 * n_markers];
    for j in 0..n_markers {
        for d in 0..3_u8 {
            levels[3 * j + d as usize] = d as f32 - 2.0 * freqs[j];
        }
    }
    let z = recode(markers, n_markers, n_individuals, &levels, &vec![0.0_f32; n_markers]);
    let mut g = vec![0.0_f32; cells];
    for i in 0..n_individuals {
        for k in 0..n_individuals {
            let mut sum = 0.0_f32;
            for m in 0..n_markers {
                sum += z[i * n_markers + m] * z[k * n_markers + m];
            }
            g[i * n_individuals + k] = sum / scale;
        }
    }
    g
}

fn counts(hom_ref: usize, het: usize, hom_alt: usize) -> MarkerCounts {
    MarkerCounts { hom_ref, het, hom_alt }
}

#[test]
fn calculate_g_matrix_matches_expected() {
    let n_markers = 2;
    let n_individuals = 2;
    let markers = vec![
        0_u8, 2_u8, // individual 0
        1_u8, 1_u8, // individual 1
    ];

    let plan = plan_grm(&markers, n_markers, n_individuals);
    assert_eq!(
        plan,
        GrmPlan::Scaled { cells: 4, counts: vec![counts(1, 1, 0), counts(0, 1, 1)] }
    );

    let result = g_matrix(&markers, n_markers, n_individuals);
    assert_eq!(result.len(), n_individuals * n_individuals);

    let expected = vec![0.6666667_f32, -0.6666667_f32, -0.6666667_f32, 0.6666667_f32];
    for (value, exp) in result.iter().zip(expected.iter()) {
        assert!((value - exp).abs() < 1e-5);
    }
}

#[test]
fn calculate_g_matrix_empty_inputs() {
    let markers: [u8; 0] = [];
    assert_eq!(plan_grm(&markers, 0, 0), GrmPlan::Empty);
    let result = g_matrix(&markers, 0, 0);
    assert!(result.is_empty());
}

#[test]
fn calculate_g_matrix_fixed_markers_returns_zero_matrix() {
    let n_markers = 2;
    let n_individuals = 2;
    let markers = vec![
        0_u8, 0_u8, // individual 0
        0_u8, 0_u8, // individual 1
    ];

    assert_eq!(plan_grm(&markers, n_markers, n_individuals), GrmPlan::Zero { cells: 4 });
    let result = g_matrix(&markers, n_markers, n_individuals);
    assert_eq!(result, vec![0.0_f32; n_individuals * n_individuals]);
}

#[test]
fn calculate_g_matrix_invalid_length_returns_empty() {
    let markers = vec![0_u8, 1_u8, 2_u8];
    assert_eq!(plan_grm(&markers, 2, 2), GrmPlan::Empty);
    let result = g_matrix(&markers, 2, 2);
    assert!(result.is_empty());
}

#[test]
fn calculate_g_matrix_ignores_invalid_genotypes() {
    let n_markers = 2;
    let n_individuals = 2;
    let markers = vec![
        0_u8, 2_u8, // individual 0
        255_u8, 1_u8, // individual 1 (invalid genotype in marker 0)
    ];

    let plan = plan_grm(&markers, n_markers, n_individuals);
    assert_eq!(
        plan,
        GrmPlan::Scaled { cells: 4, counts: vec![counts(1, 0, 0), counts(0, 1, 1)] }
    );

    let result = g_matrix(&markers, n_markers, n_individuals);
    let expected = vec![0.6666667_f32, -0.6666667_f32, -0.6666667_f32, 0.6666667_f32];
    for (value, exp) in result.iter().zip(expected.iter()) {
        assert!((value - exp).abs() < 1e-5);
    }
}

#[test]
fn worked_example_counts_and_frequencies() {
    let markers = vec![0_u8, 2, 1, 1];
    let tallies = marker_counts(&markers, 2, 2);
    assert_eq!(tallies, vec![counts(1, 1, 0), counts(0, 1, 1)]);
    assert_eq!(tallies[0].valid(), 2);
    assert_eq!(tallies[0].dosage_sum(), 1);
    assert_eq!(tallies[1].valid(), 2);
    assert_eq!(tallies[1].dosage_sum(), 3);
    // frequencies 1/4 and 3/4, each contributing 2 * 3/16 to the scale
    let scale: f32 = tallies
        .iter()
        .map(|c| {
            let p = c.dosage_sum() as f32 / (2.0 * c.valid() as f32);
            2.0 * p * (1.0 - p)
        })
        .sum();
    assert!((scale - 0.75).abs() < 1e-6);
    assert_eq!(markers_used(&tallies), 2);
}

#[test]
fn relationship_matrix_is_symmetric() {
    let markers = vec![0_u8, 1, 2, 1, 1, 1, 0, 2, 2, 0, 1, 9, 1, 2, 0, 1];
    let g = g_matrix(&markers, 4, 4);
    assert_eq!(g.len(), 16);
    for i in 0..4 {
        for k in 0..4 {
            assert_eq!(g[i * 4 + k], g[k * 4 + i]);
        }
    }
}

#[test]
fn marker_counts_rejects_wrong_lengths() {
    let markers = vec![0_u8, 1, 2, 1, 0];
    assert!(marker_counts(&markers, 2, 2).is_empty());
    assert!(marker_counts(&markers, 3, 2).is_empty());
    assert!(marker_counts(&markers, 5, 0).is_empty());
    assert!(marker_counts(&markers, 0, 5).is_empty());
    assert!(marker_counts(&markers, usize::MAX, 2).is_empty());
    assert_eq!(marker_counts(&markers, 5, 1).len(), 5);
    assert_eq!(marker_counts(&markers, 1, 5), vec![counts(2, 2, 1)]);
}

#[test]
fn grm_cells_limits() {
    assert_eq!(grm_cells(6, 3, 2), Some(4));
    assert_eq!(grm_cells(6, 2, 3), Some(9));
    assert_eq!(grm_cells(5, 2, 3), None);
    assert_eq!(grm_cells(0, 0, 0), None);
    assert_eq!(grm_cells(0, 0, 3), None);
    assert_eq!(grm_cells(usize::MAX, 1, usize::MAX), None);
    assert_eq!(grm_cells(2, usize::MAX, 2), None);
}

#[test]
fn entirely_missing_markers_give_zero_matrix() {
    let markers = vec![3_u8, 255, 7, 3, 200, 9];
    assert_eq!(plan_grm(&markers, 2, 3), GrmPlan::Zero { cells: 9 });
    assert_eq!(g_matrix(&markers, 2, 3), vec![0.0_f32; 9]);
}

#[test]
fn markers_fixed_at_two_give_zero_matrix() {
    let markers = vec![2_u8, 0, 2, 0, 2, 0];
    assert_eq!(plan_grm(&markers, 2, 3), GrmPlan::Zero { cells: 9 });
}

#[test]
fn heterozygous_throughout_centres_to_zero() {
    // every call is 1: the frequency is one half, the scale is not zero, and every
    // centred entry is zero
    let markers = vec![1_u8, 1, 1, 1, 1, 1];
    let plan = plan_grm(&markers, 3, 2);
    assert_eq!(plan, GrmPlan::Scaled { cells: 4, counts: vec![counts(0, 2, 0); 3] });
    assert_eq!(g_matrix(&markers, 3, 2), vec![0.0_f32; 4]);
}

#[test]
fn missing_call_counts_as_omitted() {
    // marker column (0, 2, 1, 2) with the third call replaced by a sentinel...
    let with_sentinel = vec![0_u8, 2, 255, 2];
    // ...has the counts of the column without that call
    let omitted = vec![0_u8, 2, 2];
    assert_eq!(count_calls(&with_sentinel), count_calls(&omitted));
    assert_eq!(marker_counts(&with_sentinel, 1, 4), marker_counts(&omitted, 1, 3));
    // and differs from the fully valid column
    let full = vec![0_u8, 2, 1, 2];
    assert_eq!(count_calls(&full), counts(1, 1, 2));
    assert_eq!(count_calls(&with_sentinel), counts(1, 0, 2));
}

#[test]
fn signed_buffers_treat_negative_and_large_as_missing() {
    let markers = vec![0_i32, -1, 2, 3, 1, -9, 2, 1];
    assert_eq!(marker_counts(&markers, 2, 4), vec![counts(1, 1, 2), counts(0, 1, 0)]);
    assert_eq!((-1_i32).dosage(), None);
    assert_eq!(3_i32.dosage(), None);
    assert_eq!(2_i32.dosage(), Some(2));
    assert_eq!(3_u8.dosage(), None);
    assert_eq!(0_u8.dosage(), Some(0));
}

#[test]
fn polymorphism_by_counts() {
    assert!(!counts(0, 0, 0).is_polymorphic());
    assert!(!counts(5, 0, 0).is_polymorphic());
    assert!(!counts(0, 0, 5).is_polymorphic());
    assert!(counts(0, 5, 0).is_polymorphic());
    assert!(counts(1, 0, 1).is_polymorphic());
    assert!(counts(usize::MAX, usize::MAX, usize::MAX).is_polymorphic());
    assert_eq!(counts(usize::MAX, usize::MAX, usize::MAX).valid(), 3 * (usize::MAX as u128));
    assert_eq!(counts(1, 2, 3).dosage_sum(), 8);
    assert_eq!(counts(1, 2, 3).square_sum(), 14);
    assert!(!has_polymorphic(&vec![counts(1, 0, 0), counts(0, 0, 2)]));
    assert!(has_polymorphic(&vec![counts(1, 0, 0), counts(0, 1, 2)]));
    assert_eq!(markers_used(&vec![counts(1, 0, 0), counts(0, 1, 2), counts(1, 0, 1)]), 2);
    assert_eq!(markers_used(&Vec::new()), 0);
}

#[test]
fn worked_example_centred_matrix() {
    // frequencies 1/4 and 3/4: the calls (0, 1) of marker 0 centre to (-1/2, 1/2), the
    // calls (2, 1) of marker 1 to (1/2, -1/2)
    let markers = vec![0_u8, 2, 1, 1];
    let levels = vec![-0.5_f32, 0.5, 1.5, -1.5, -0.5, 0.5];
    let z = recode(&markers, 2, 2, &levels, &[0.0_f32, 0.0]);
    assert_eq!(z, vec![-0.5_f32, 0.5, 0.5, -0.5]);
}

#[test]
fn recode_gives_missing_calls_the_value_of_their_marker() {
    let markers = vec![0_i32, -1, 2, 7, 1, 1];
    let levels = vec![10, 11, 12, 20, 21, 22];
    let out = recode(&markers, 2, 3, &levels, &[-1, -2]);
    assert_eq!(out, vec![10, -2, 12, -2, 11, 21]);
}

#[test]
fn recode_rejects_buffers_that_do_not_fit() {
    let markers = vec![0_u8, 1, 2, 1];
    let levels = vec![0, 1, 2, 0, 1, 2];
    assert_eq!(recode(&markers, 2, 2, &levels, &[9, 9]).len(), 4);
    assert!(recode(&markers, 2, 2, &levels[0..5], &[9, 9]).is_empty());
    assert!(recode(&markers, 2, 2, &levels, &[9]).is_empty());
    assert!(recode(&markers, 3, 2, &levels, &[9, 9]).is_empty());
    assert!(recode(&markers[0..3], 2, 2, &levels, &[9, 9]).is_empty());
    assert!(recode(&markers, 0, 2, &levels[0..0], &levels[0..0]).is_empty());
}

#[test]
fn mirror_upper_makes_a_matrix_symmetric() {
    let mut cells = vec![1.0, 2.0, 3.0, 0.0, 4.0, 5.0, 0.0, 0.0, 6.0];
    assert!(mirror_upper(&mut cells, 3));
    assert_eq!(cells, vec![1.0, 2.0, 3.0, 2.0, 4.0, 5.0, 3.0, 5.0, 6.0]);
    let mut lower = vec![1, 0, 0, 2, 3, 0, 4, 5, 6];
    assert!(mirror_upper(&mut lower, 3));
    assert_eq!(lower, vec![1, 0, 0, 0, 3, 0, 0, 0, 6]);
    let mut one = vec![7];
    assert!(mirror_upper(&mut one, 1));
    assert_eq!(one, vec![7]);
    let mut none: Vec<u8> = Vec::new();
    assert!(mirror_upper(&mut none, 0));
}

#[test]
fn mirror_upper_leaves_other_buffers_alone() {
    let mut cells = vec![1, 2, 3, 4, 5];
    assert!(!mirror_upper(&mut cells, 2));
    assert_eq!(cells, vec![1, 2, 3, 4, 5]);
    assert!(!mirror_upper(&mut cells, 3));
    assert!(!mirror_upper(&mut cells, usize::MAX));
    assert_eq!(cells, vec![1, 2, 3, 4, 5]);
}

#[test]
fn encodings_are_distinct() {
    assert_ne!(GenotypeEncoding::Additive, GenotypeEncoding::Dominant);
    assert_ne!(GenotypeEncoding::Dominant, GenotypeEncoding::Recessive);
    assert_eq!(GenotypeEncoding::Additive, GenotypeEncoding::Additive);
}
