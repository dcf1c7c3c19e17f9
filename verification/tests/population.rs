use genomics_kernel::genotype::MarkerCounts;
use genomics_kernel::pedigree::parent_row;
use genomics_kernel::population::{populations_called, PopulationIndex};

fn counts(hom_ref: usize, het: usize, hom_alt: usize) -> MarkerCounts {
    MarkerCounts { hom_ref, het, hom_alt }
}

#[test]
fn index_holds_each_label_once_in_order() {
    let index = PopulationIndex::of(&[3, 1, 3, 2, 1, -5, 2, 3]);
    assert_eq!(index.labels(), vec![-5, 1, 2, 3]);
    assert_eq!(index.len(), 4);
    assert_eq!(index.position(-5), Some(0));
    assert_eq!(index.position(3), Some(3));
    assert_eq!(index.position(0), None);
    assert_eq!(index.position(4), None);
}

#[test]
fn index_of_nothing_is_empty() {
    let index = PopulationIndex::of(&[]);
    assert_eq!(index.len(), 0);
    assert!(index.labels().is_empty());
    assert_eq!(index.position(0), None);
}

#[test]
fn index_of_one_population() {
    let index = PopulationIndex::of(&[7, 7, 7]);
    assert_eq!(index.labels(), vec![7]);
    assert_eq!(index.len(), 1);
}

#[test]
fn index_with_extreme_labels() {
    let index = PopulationIndex::of(&[i32::MAX, 0, i32::MIN, 0]);
    assert_eq!(index.labels(), vec![i32::MIN, 0, i32::MAX]);
}

#[test]
fn marker_counts_within_populations() {
    // 5 samples, 2 markers
    let genotypes = vec![
        0_i32, 2, //
        1, 2, //
        2, -1, //
        1, 0, //
        -1, 1,
    ];
    let ids = vec![20, 10, 20, 10, 10];
    let index = PopulationIndex::of(&ids);
    assert_eq!(index.labels(), vec![10, 20]);
    let first = index.marker_counts(&genotypes, &ids, 2, 5, 0).unwrap();
    assert_eq!(first, vec![counts(0, 2, 0), counts(1, 0, 1)]);
    let second = index.marker_counts(&genotypes, &ids, 2, 5, 1).unwrap();
    assert_eq!(second, vec![counts(1, 1, 1), counts(0, 0, 1)]);
    assert_eq!(populations_called(&first), 2);
}

#[test]
fn samples_of_unlisted_populations_are_left_out() {
    let genotypes = vec![0_u8, 1, 2, 1];
    let index = PopulationIndex::of(&[1, 2]);
    let counts_of = index.marker_counts(&genotypes, &[1, 3, 2, 3], 1, 4, 0).unwrap();
    assert_eq!(counts_of, vec![counts(1, 0, 0), counts(0, 0, 1)]);
}

#[test]
fn marker_counts_reject_wrong_shapes() {
    let genotypes = vec![0_u8, 1, 2, 1];
    let ids = vec![1, 1, 2, 2];
    let index = PopulationIndex::of(&ids);
    assert!(index.marker_counts(&genotypes, &ids, 1, 4, 0).is_some());
    assert_eq!(index.marker_counts(&genotypes, &ids, 1, 4, 1), None);
    assert_eq!(index.marker_counts(&genotypes, &ids, 1, 3, 0), None);
    assert_eq!(index.marker_counts(&genotypes, &ids[0..3], 1, 4, 0), None);
    assert_eq!(index.marker_counts(&genotypes, &ids[0..2], 2, 2, 0).map(|c| c.len()), Some(2));
    assert_eq!(index.marker_counts(&genotypes, &ids, 0, 4, 0), None);
}

#[test]
fn populations_called_counts_those_with_valid_calls() {
    assert_eq!(populations_called(&vec![counts(0, 0, 0), counts(1, 0, 0), counts(0, 0, 0)]), 1);
    assert_eq!(populations_called(&vec![counts(0, 2, 0), counts(1, 0, 0)]), 2);
    assert_eq!(populations_called(&Vec::new()), 0);
}

#[test]
fn parents_known_and_unknown() {
    assert_eq!(parent_row(0, 3), Some(0));
    assert_eq!(parent_row(2, 3), Some(2));
    assert_eq!(parent_row(3, 3), None);
    assert_eq!(parent_row(-1, 3), None);
    assert_eq!(parent_row(i32::MIN, 3), None);
    assert_eq!(parent_row(i32::MAX, usize::MAX), Some(i32::MAX as usize));
    assert_eq!(parent_row(0, 0), None);
}
