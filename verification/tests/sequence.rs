use genomics_kernel::sequence::{
    alignment_fits, needleman_wunsch, search_motif, smith_waterman, AlignmentResult, MotifMatch,
};
use genomics_kernel::text::{chars_of, same_text};

fn aligned(score: i32, align1: &str, align2: &str) -> AlignmentResult {
    AlignmentResult { score, align1: align1.to_string(), align2: align2.to_string() }
}

fn found(start: usize, end: usize, text: &str) -> MotifMatch {
    MotifMatch { start, end, match_str: text.to_string() }
}

#[test]
fn global_alignment_of_classic_pair() {
    assert!(alignment_fits("GATTACA", "GCATGCU", 1, -1, -1));
    assert_eq!(
        needleman_wunsch("GATTACA", "GCATGCU", 1, -1, -1),
        aligned(0, "G-ATTACA", "GCA-TGCU")
    );
}

#[test]
fn global_alignment_of_equal_sequences() {
    assert_eq!(needleman_wunsch("ACGT", "ACGT", 2, -1, -2), aligned(8, "ACGT", "ACGT"));
}

#[test]
fn global_alignment_with_an_empty_sequence() {
    assert_eq!(needleman_wunsch("", "ACG", 1, -1, -2), aligned(-6, "---", "ACG"));
    assert_eq!(needleman_wunsch("ACG", "", 1, -1, -2), aligned(-6, "ACG", "---"));
    assert_eq!(needleman_wunsch("", "", 1, -1, -1), aligned(0, "", ""));
}

#[test]
fn global_alignment_places_gaps() {
    assert_eq!(
        needleman_wunsch("AGTACGCA", "TATGC", 1, -1, -2),
        aligned(-3, "AGTACGCA", "--TATGC-")
    );
    assert_eq!(needleman_wunsch("ACGT", "AGT", 1, -1, -1), aligned(2, "ACGT", "A-GT"));
    assert_eq!(needleman_wunsch("AAA", "TTT", 1, -1, -1), aligned(-3, "AAA", "TTT"));
}

#[test]
fn global_alignment_prefers_pairs_on_ties() {
    assert_eq!(needleman_wunsch("AB", "BA", 0, 0, 0), aligned(0, "AB", "BA"));
}

#[test]
fn global_alignment_with_rewarded_gaps() {
    assert_eq!(needleman_wunsch("AC", "CA", 1, -3, 1), aligned(4, "--AC", "CA--"));
}

#[test]
fn global_alignment_counts_characters_not_bytes() {
    assert_eq!(needleman_wunsch("héllo", "hello", 2, -1, -1), aligned(7, "héllo", "hello"));
    assert_eq!(chars_of("héllo"), vec!['h', 'é', 'l', 'l', 'o']);
}

#[test]
fn global_alignment_of_a_sequence_that_holds_a_dash() {
    assert_eq!(needleman_wunsch("A-C", "AC", 1, -1, -1), aligned(1, "A-C", "A-C"));
}

#[test]
fn local_alignment_of_classic_pair() {
    assert_eq!(
        smith_waterman("TGTTACGG", "GGTTGACTA", 3, -3, -2),
        aligned(13, "GTT-AC", "GTTGAC")
    );
}

#[test]
fn local_alignment_finds_common_core() {
    assert_eq!(smith_waterman("XXACGTXX", "YYACGTYY", 1, -1, -1), aligned(4, "ACGT", "ACGT"));
    assert_eq!(smith_waterman("ACGT", "ACGT", 2, -1, -2), aligned(8, "ACGT", "ACGT"));
    assert_eq!(
        smith_waterman("ACACACTA", "AGCACACA", 2, -1, -1),
        aligned(12, "A-CACACTA", "AGCACAC-A")
    );
}

#[test]
fn local_alignment_ends_at_first_best_cell() {
    // both copies of ACGT score 4; the first one read row by row is reported
    assert_eq!(smith_waterman("ACGTACGT", "ACGT", 1, -1, -1), aligned(4, "ACGT", "ACGT"));
}

#[test]
fn local_alignment_without_any_match() {
    assert_eq!(smith_waterman("AAA", "TTT", 1, -1, -1), aligned(0, "", ""));
    assert_eq!(smith_waterman("", "ACG", 1, -1, -2), aligned(0, "", ""));
    assert_eq!(smith_waterman("AB", "BA", 0, 0, 0), aligned(0, "", ""));
}

#[test]
fn local_alignment_with_rewarded_gaps() {
    assert_eq!(smith_waterman("AC", "CA", 1, -3, 1), aligned(3, "A-C", "-A-"));
    assert_eq!(smith_waterman("AAGA", "AA", 1, -1, 2), aligned(10, "A-AGA", "-A---"));
}

#[test]
fn alignment_fits_limits() {
    assert!(alignment_fits("ACGT", "ACGT", i32::MAX / 8, 0, 0));
    assert!(!alignment_fits("ACGT", "ACGT", i32::MAX / 8 + 1, 0, 0));
    assert!(!alignment_fits("ACGT", "ACGT", 0, i32::MIN, 0));
    assert!(!alignment_fits("A", "", 0, 0, i32::MIN));
    assert!(alignment_fits("A", "", 0, 0, -i32::MAX));
    assert!(alignment_fits("", "", i32::MIN, i32::MIN, i32::MIN));
    assert!(alignment_fits("ACGT", "ACGT", 0, 0, 0));
}

#[test]
fn motif_exact_matches() {
    assert_eq!(
        search_motif("ACGTACGTAC", "ACG"),
        vec![found(0, 3, "ACG"), found(4, 7, "ACG")]
    );
    assert_eq!(search_motif("ACGT", "ACGT"), vec![found(0, 4, "ACGT")]);
}

#[test]
fn motif_wildcards() {
    assert_eq!(search_motif("ACGTACGT", "A.G"), vec![found(0, 3, "ACG"), found(4, 7, "ACG")]);
    assert_eq!(
        search_motif("ACGTNNGT", "NNGT"),
        vec![found(0, 4, "ACGT"), found(4, 8, "NNGT")]
    );
    assert_eq!(search_motif("ACGT", "NNNN"), vec![found(0, 4, "ACGT")]);
    assert_eq!(search_motif("GATTACA", "T.A"), vec![found(2, 5, "TTA")]);
}

#[test]
fn motif_overlapping_matches() {
    assert_eq!(
        search_motif("AAAA", "AA"),
        vec![found(0, 2, "AA"), found(1, 3, "AA"), found(2, 4, "AA")]
    );
}

#[test]
fn motif_empty_or_too_long() {
    assert!(search_motif("ACGT", "").is_empty());
    assert!(search_motif("AC", "ACGT").is_empty());
    assert!(search_motif("", "A").is_empty());
    assert!(search_motif("", "").is_empty());
}

#[test]
fn motif_positions_count_characters() {
    assert_eq!(search_motif("añb", "ñ"), vec![found(1, 2, "ñ")]);
    assert_eq!(search_motif("ñab", "b"), vec![found(2, 3, "b")]);
}

#[test]
fn text_helpers() {
    assert_eq!(chars_of(""), Vec::<char>::new());
    assert!(same_text("ACGT", "ACGT"));
    assert!(!same_text("ACGT", "ACGA"));
    assert!(!same_text("ACGT", "ACG"));
    assert!(same_text("", ""));
}
