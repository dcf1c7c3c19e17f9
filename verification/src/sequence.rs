//! Pairwise sequence alignment by dynamic programming.
//!
//! An alignment is read column by column. Each column pairs a character of the first
//! sequence with one of the second, or sets one of them against a gap. The score of an
//! alignment is the sum over its columns: the match or mismatch score for a pair, the gap
//! penalty for a gap.

use crate::text::{chars_of, string_of_reversed, text_between};
use vstd::prelude::*;

verus! {

/// One column of an alignment.
#[derive(Clone, Copy, Debug, PartialEq, Eq, Structural)]
pub enum Step {
    /// A character of each sequence.
    Pair,
    /// A character of the first sequence against a gap.
    Delete,
    /// A gap against a character of the second sequence.
    Insert,
}

/// The result of an alignment: its score and the two rows, gaps written as `-`.
#[derive(Debug, Clone, PartialEq, Eq)]
pub struct AlignmentResult {
    pub score: i32,
    pub align1: String,
    pub align2: String,
}

/// The three numbers that score an alignment.
pub struct Scores {
    pub match_score: int,
    pub mismatch_score: int,
    pub gap_penalty: int,
}

pub open spec fn scores_of(match_score: i32, mismatch_score: i32, gap_penalty: i32) -> Scores {
    Scores {
        match_score: match_score as int,
        mismatch_score: mismatch_score as int,
        gap_penalty: gap_penalty as int,
    }
}

pub open spec fn abs(x: int) -> int {
    if x < 0 {
        -x
    } else {
        x
    }
}

pub open spec fn max2(a: int, b: int) -> int {
    if a >= b {
        a
    } else {
        b
    }
}

pub open spec fn max3(a: int, b: int, c: int) -> int {
    max2(max2(a, b), c)
}

/// The largest of the three scores in absolute value.
pub open spec fn magnitude(sc: Scores) -> int {
    max3(abs(sc.match_score), abs(sc.mismatch_score), abs(sc.gap_penalty))
}

/// Every score that an alignment of sequences of lengths `n` and `m` can reach fits an
/// `i32`.
pub open spec fn fits(n: int, m: int, sc: Scores) -> bool {
    &&& n + m <= i32::MAX
    &&& (n + m) * magnitude(sc) <= i32::MAX
}

/// The score of setting `a` against `b`.
pub open spec fn substitution(a: char, b: char, sc: Scores) -> int {
    if a == b {
        sc.match_score
    } else {
        sc.mismatch_score
    }
}

/// The steps align the first `i` characters of one sequence with the first `j` of the
/// other: they use up exactly those.
pub open spec fn aligns(steps: Seq<Step>, i: int, j: int) -> bool
    decreases steps.len(),
{
    if steps.len() == 0 {
        i == 0 && j == 0
    } else {
        match steps.last() {
            Step::Pair => i > 0 && j > 0 && aligns(steps.drop_last(), i - 1, j - 1),
            Step::Delete => i > 0 && j >= 0 && aligns(steps.drop_last(), i - 1, j),
            Step::Insert => i >= 0 && j > 0 && aligns(steps.drop_last(), i, j - 1),
        }
    }
}

/// The score of an alignment that ends at the prefixes of lengths `i` and `j`.
pub open spec fn alignment_score(
    steps: Seq<Step>,
    s1: Seq<char>,
    s2: Seq<char>,
    sc: Scores,
    i: int,
    j: int,
) -> int
    decreases steps.len(),
{
    if steps.len() == 0 {
        0
    } else {
        match steps.last() {
            Step::Pair => alignment_score(steps.drop_last(), s1, s2, sc, i - 1, j - 1)
                + substitution(s1[i - 1], s2[j - 1], sc),
            Step::Delete => alignment_score(steps.drop_last(), s1, s2, sc, i - 1, j)
                + sc.gap_penalty,
            Step::Insert => alignment_score(steps.drop_last(), s1, s2, sc, i, j - 1)
                + sc.gap_penalty,
        }
    }
}

/// The first row of an alignment that ends at position `i` of the first sequence.
pub open spec fn first_row(steps: Seq<Step>, s1: Seq<char>, i: int) -> Seq<char>
    decreases steps.len(),
{
    if steps.len() == 0 {
        Seq::empty()
    } else {
        match steps.last() {
            Step::Pair => first_row(steps.drop_last(), s1, i - 1).push(s1[i - 1]),
            Step::Delete => first_row(steps.drop_last(), s1, i - 1).push(s1[i - 1]),
            Step::Insert => first_row(steps.drop_last(), s1, i).push('-'),
        }
    }
}

/// The second row of an alignment that ends at position `j` of the second sequence.
pub open spec fn second_row(steps: Seq<Step>, s2: Seq<char>, j: int) -> Seq<char>
    decreases steps.len(),
{
    if steps.len() == 0 {
        Seq::empty()
    } else {
        match steps.last() {
            Step::Pair => second_row(steps.drop_last(), s2, j - 1).push(s2[j - 1]),
            Step::Delete => second_row(steps.drop_last(), s2, j).push('-'),
            Step::Insert => second_row(steps.drop_last(), s2, j - 1).push(s2[j - 1]),
        }
    }
}

/// The best score of a global alignment of the first `i` characters of `s1` with the
/// first `j` characters of `s2`.
pub open spec fn nw_score(s1: Seq<char>, s2: Seq<char>, sc: Scores, i: int, j: int) -> int
    decreases i + j,
{
    if i <= 0 {
        j * sc.gap_penalty
    } else if j <= 0 {
        i * sc.gap_penalty
    } else {
        max3(
            nw_score(s1, s2, sc, i - 1, j - 1) + substitution(s1[i - 1], s2[j - 1], sc),
            nw_score(s1, s2, sc, i - 1, j) + sc.gap_penalty,
            nw_score(s1, s2, sc, i, j - 1) + sc.gap_penalty,
        )
    }
}

/// The last column of the global alignment that is chosen among the best ones: a pair
/// where that is best, else a character of the first sequence against a gap where that
/// is best, else a gap against a character of the second.
pub open spec fn nw_last_step(s1: Seq<char>, s2: Seq<char>, sc: Scores, i: int, j: int) -> Step {
    if i > 0 && j > 0 && nw_score(s1, s2, sc, i, j) == nw_score(s1, s2, sc, i - 1, j - 1)
        + substitution(s1[i - 1], s2[j - 1], sc) {
        Step::Pair
    } else if i > 0 && nw_score(s1, s2, sc, i, j) == nw_score(s1, s2, sc, i - 1, j)
        + sc.gap_penalty {
        Step::Delete
    } else {
        Step::Insert
    }
}

/// The global alignment of the first `i` characters of `s1` with the first `j` of `s2`
/// that is chosen among the best ones.
pub open spec fn nw_alignment(s1: Seq<char>, s2: Seq<char>, sc: Scores, i: int, j: int) -> Seq<
    Step,
>
    decreases
            (if i > 0 {
                i
            } else {
                0
            }) + (if j > 0 {
                j
            } else {
                0
            }),
{
    if i <= 0 && j <= 0 {
        Seq::empty()
    } else {
        match nw_last_step(s1, s2, sc, i, j) {
            Step::Pair => nw_alignment(s1, s2, sc, i - 1, j - 1).push(Step::Pair),
            Step::Delete => nw_alignment(s1, s2, sc, i - 1, j).push(Step::Delete),
            Step::Insert => if j > 0 {
                nw_alignment(s1, s2, sc, i, j - 1).push(Step::Insert)
            } else {
                Seq::empty()
            },
        }
    }
}

proof fn lemma_scaled(k: int, v: int, b: int)
    requires
        0 <= k,
        -b <= v <= b,
    ensures
        -(k * b) <= k * v <= k * b,
{
    assert(-(k * b) <= k * v <= k * b) by (nonlinear_arith)
        requires
            0 <= k,
            -b <= v <= b,
    ;
}

proof fn lemma_next_multiple(k: int, b: int)
    ensures
        (k + 1) * b == k * b + b,
        (k - 1) * b == k * b - b,
{
    assert((k + 1) * b == k * b + b) by (nonlinear_arith);
    assert((k - 1) * b == k * b - b) by (nonlinear_arith);
}

proof fn lemma_multiple_monotone(k: int, l: int, b: int)
    requires
        0 <= k <= l,
        0 <= b,
    ensures
        k * b <= l * b,
{
    assert(k * b <= l * b) by (nonlinear_arith)
        requires
            0 <= k <= l,
            0 <= b,
    ;
}

/// No cell of the global score matrix exceeds, in absolute value, the largest score
/// times the number of characters aligned.
pub proof fn lemma_nw_bounded(s1: Seq<char>, s2: Seq<char>, sc: Scores, i: int, j: int)
    requires
        0 <= i,
        0 <= j,
    ensures
        -((i + j) * magnitude(sc)) <= nw_score(s1, s2, sc, i, j) <= (i + j) * magnitude(sc),
    decreases i + j,
{
    let b = magnitude(sc);
    if i <= 0 {
        lemma_scaled(j, sc.gap_penalty, b);
    } else if j <= 0 {
        lemma_scaled(i, sc.gap_penalty, b);
    } else {
        lemma_nw_bounded(s1, s2, sc, i - 1, j - 1);
        lemma_nw_bounded(s1, s2, sc, i - 1, j);
        lemma_nw_bounded(s1, s2, sc, i, j - 1);
        lemma_next_multiple(i + j - 1, b);
        lemma_next_multiple(i + j - 2, b);
    }
}

/// The border of the global score matrix grows by the gap penalty from cell to cell.
proof fn lemma_nw_border(s1: Seq<char>, s2: Seq<char>, sc: Scores, k: int)
    requires
        k > 0,
    ensures
        nw_score(s1, s2, sc, 0, k) == nw_score(s1, s2, sc, 0, k - 1) + sc.gap_penalty,
        nw_score(s1, s2, sc, k, 0) == nw_score(s1, s2, sc, k - 1, 0) + sc.gap_penalty,
        nw_score(s1, s2, sc, 0, 0) == 0,
{
    lemma_next_multiple(k, sc.gap_penalty);
}

/// The chosen global alignment uses up both prefixes and reaches the best score.
pub proof fn lemma_nw_alignment_reaches_score(
    s1: Seq<char>,
    s2: Seq<char>,
    sc: Scores,
    i: int,
    j: int,
)
    requires
        0 <= i,
        0 <= j,
    ensures
        aligns(nw_alignment(s1, s2, sc, i, j), i, j),
        alignment_score(nw_alignment(s1, s2, sc, i, j), s1, s2, sc, i, j) == nw_score(
            s1,
            s2,
            sc,
            i,
            j,
        ),
    decreases i + j,
{
    if i <= 0 && j <= 0 {
    } else {
        if i > 0 {
            lemma_nw_border(s1, s2, sc, i);
        }
        if j > 0 {
            lemma_nw_border(s1, s2, sc, j);
        }
        match nw_last_step(s1, s2, sc, i, j) {
            Step::Pair => {
                let rest = nw_alignment(s1, s2, sc, i - 1, j - 1);
                lemma_nw_alignment_reaches_score(s1, s2, sc, i - 1, j - 1);
                assert(rest.push(Step::Pair).drop_last() =~= rest);
            },
            Step::Delete => {
                let rest = nw_alignment(s1, s2, sc, i - 1, j);
                lemma_nw_alignment_reaches_score(s1, s2, sc, i - 1, j);
                assert(rest.push(Step::Delete).drop_last() =~= rest);
            },
            Step::Insert => {
                assert(j > 0);
                let rest = nw_alignment(s1, s2, sc, i, j - 1);
                lemma_nw_alignment_reaches_score(s1, s2, sc, i, j - 1);
                assert(rest.push(Step::Insert).drop_last() =~= rest);
            },
        }
    }
}

/// No global alignment of the two prefixes scores more than `nw_score`.
pub proof fn lemma_nw_score_is_best(
    steps: Seq<Step>,
    s1: Seq<char>,
    s2: Seq<char>,
    sc: Scores,
    i: int,
    j: int,
)
    requires
        aligns(steps, i, j),
    ensures
        0 <= i,
        0 <= j,
        alignment_score(steps, s1, s2, sc, i, j) <= nw_score(s1, s2, sc, i, j),
    decreases steps.len(),
{
    if steps.len() > 0 {
        let rest = steps.drop_last();
        match steps.last() {
            Step::Pair => {
                lemma_nw_score_is_best(rest, s1, s2, sc, i - 1, j - 1);
            },
            Step::Delete => {
                lemma_nw_score_is_best(rest, s1, s2, sc, i - 1, j);
                if j == 0 {
                    lemma_nw_border(s1, s2, sc, i);
                }
            },
            Step::Insert => {
                lemma_nw_score_is_best(rest, s1, s2, sc, i, j - 1);
                if i == 0 {
                    lemma_nw_border(s1, s2, sc, j);
                }
            },
        }
    }
}

fn abs_of(x: i32) -> (a: u128)
    ensures
        a == abs(x as int),
        a <= 0x8000_0000,
{
    let wide: i64 = x as i64;
    if wide < 0 {
        (-wide) as u128
    } else {
        wide as u128
    }
}

/// Whether every score that an alignment of the two sequences can reach fits an `i32`,
/// so that the alignment can be computed.
pub fn alignment_fits(
    seq1: &str,
    seq2: &str,
    match_score: i32,
    mismatch_score: i32,
    gap_penalty: i32,
) -> (ok: bool)
    ensures
        ok == fits(
            seq1@.len() as int,
            seq2@.len() as int,
            scores_of(match_score, mismatch_score, gap_penalty),
        ),
{
    let n = seq1.unicode_len();
    let m = seq2.unicode_len();
    let total: u128 = n as u128 + m as u128;
    if total > 0x7fff_ffff {
        return false;
    }
    let a = abs_of(match_score);
    let b = abs_of(mismatch_score);
    let c = abs_of(gap_penalty);
    let ab = if a >= b {
        a
    } else {
        b
    };
    let largest = if ab >= c {
        ab
    } else {
        c
    };
    assert(total * largest <= 0x7fff_ffff * 0x8000_0000) by (nonlinear_arith)
        requires
            0 <= total <= 0x7fff_ffff,
            0 <= largest <= 0x8000_0000,
    ;
    total * largest <= 0x7fff_ffff
}

fn largest_of(a: i32, b: i32, c: i32) -> (r: i32)
    ensures
        r == max3(a as int, b as int, c as int),
{
    let ab = if a >= b {
        a
    } else {
        b
    };
    if ab >= c {
        ab
    } else {
        c
    }
}

/// A cell of the global score matrix plus one more score still fits an `i32`.
proof fn lemma_nw_sum_fits(
    s1: Seq<char>,
    s2: Seq<char>,
    sc: Scores,
    n: int,
    m: int,
    i: int,
    j: int,
    v: int,
)
    requires
        fits(n, m, sc),
        0 <= i <= n,
        0 <= j <= m,
        i + j < n + m,
        abs(v) <= magnitude(sc),
    ensures
        i32::MIN < nw_score(s1, s2, sc, i, j) + v <= i32::MAX,
{
    let b = magnitude(sc);
    lemma_nw_bounded(s1, s2, sc, i, j);
    lemma_next_multiple(i + j, b);
    lemma_multiple_monotone(i + j + 1, n + m, b);
}

/// The matrix holds the global score of every pair of prefixes.
pub open spec fn is_nw_matrix(matrix: Seq<Vec<i32>>, s1: Seq<char>, s2: Seq<char>, sc: Scores) -> bool {
    &&& matrix.len() == s1.len() + 1
    &&& forall|i: int| 0 <= i <= s1.len() ==> (#[trigger] matrix[i])@.len() == s2.len() + 1
    &&& forall|i: int, j: int|
        0 <= i <= s1.len() && 0 <= j <= s2.len() ==> #[trigger] matrix[i]@[j] == nw_score(
            s1,
            s2,
            sc,
            i,
            j,
        )
}

#[verifier::rlimit(40)]
fn nw_matrix(
    s1: &Vec<char>,
    s2: &Vec<char>,
    match_score: i32,
    mismatch_score: i32,
    gap_penalty: i32,
) -> (matrix: Vec<Vec<i32>>)
    requires
        fits(
            s1@.len() as int,
            s2@.len() as int,
            scores_of(match_score, mismatch_score, gap_penalty),
        ),
    ensures
        is_nw_matrix(matrix@, s1@, s2@, scores_of(match_score, mismatch_score, gap_penalty)),
{
    let ghost sc = scores_of(match_score, mismatch_score, gap_penalty);
    let n = s1.len();
    let m = s2.len();
    let mut matrix: Vec<Vec<i32>> = Vec::new();
    let mut i: usize = 0;
    while i <= n
        invariant
            n == s1@.len(),
            m == s2@.len(),
            sc == scores_of(match_score, mismatch_score, gap_penalty),
            fits(n as int, m as int, sc),
            i <= n + 1,
            matrix@.len() == i,
            forall|a: int| 0 <= a < i ==> (#[trigger] matrix@[a])@.len() == m + 1,
            forall|a: int, b: int|
                0 <= a < i && 0 <= b <= m ==> #[trigger] matrix@[a]@[b] == nw_score(
                    s1@,
                    s2@,
                    sc,
                    a,
                    b,
                ),
        decreases n + 1 - i,
    {
        let mut row: Vec<i32> = Vec::new();
        let mut j: usize = 0;
        while j <= m
            invariant
                n == s1@.len(),
                m == s2@.len(),
                sc == scores_of(match_score, mismatch_score, gap_penalty),
                fits(n as int, m as int, sc),
                i <= n,
                j <= m + 1,
                matrix@.len() == i,
                row@.len() == j,
                forall|a: int| 0 <= a < i ==> (#[trigger] matrix@[a])@.len() == m + 1,
                forall|a: int, b: int|
                    0 <= a < i && 0 <= b <= m ==> #[trigger] matrix@[a]@[b] == nw_score(
                        s1@,
                        s2@,
                        sc,
                        a,
                        b,
                    ),
                forall|b: int| 0 <= b < j ==> #[trigger] row@[b] == nw_score(s1@, s2@, sc, i as int, b),
            decreases m + 1 - j,
        {
            let value: i32 = if i == 0 {
                if j == 0 {
                    0
                } else {
                    proof {
                        lemma_nw_border(s1@, s2@, sc, j as int);
                        lemma_nw_sum_fits(
                            s1@,
                            s2@,
                            sc,
                            n as int,
                            m as int,
                            0,
                            j - 1,
                            gap_penalty as int,
                        );
                    }
                    row[j - 1] + gap_penalty
                }
            } else if j == 0 {
                proof {
                    lemma_nw_border(s1@, s2@, sc, i as int);
                    lemma_nw_sum_fits(
                        s1@,
                        s2@,
                        sc,
                        n as int,
                        m as int,
                        i - 1,
                        0,
                        gap_penalty as int,
                    );
                    assert(matrix@[i - 1]@[0] == nw_score(s1@, s2@, sc, i - 1, 0));
                }
                matrix[i - 1][0] + gap_penalty
            } else {
                let pair = if s1[i - 1] == s2[j - 1] {
                    match_score
                } else {
                    mismatch_score
                };
                proof {
                    lemma_nw_sum_fits(s1@, s2@, sc, n as int, m as int, i - 1, j - 1, pair as int);
                    lemma_nw_sum_fits(
                        s1@,
                        s2@,
                        sc,
                        n as int,
                        m as int,
                        i - 1,
                        j as int,
                        gap_penalty as int,
                    );
                    lemma_nw_sum_fits(
                        s1@,
                        s2@,
                        sc,
                        n as int,
                        m as int,
                        i as int,
                        j - 1,
                        gap_penalty as int,
                    );
                    assert(matrix@[i - 1]@[j - 1] == nw_score(s1@, s2@, sc, i - 1, j - 1));
                    assert(matrix@[i - 1]@[j as int] == nw_score(s1@, s2@, sc, i - 1, j as int));
                }
                let diag = matrix[i - 1][j - 1] + pair;
                let up = matrix[i - 1][j] + gap_penalty;
                let left = row[j - 1] + gap_penalty;
                largest_of(diag, up, left)
            };
            row.push(value);
            j = j + 1;
        }
        matrix.push(row);
        i = i + 1;
    }
    matrix
}

/// Appending to the front part is prepending to the reversed back part.
proof fn lemma_push_reversed(front: Seq<char>, back: Seq<char>, c: char)
    ensures
        front.push(c) + back.reverse() == front + back.push(c).reverse(),
{
    assert(back.push(c).reverse() =~= seq![c] + back.reverse());
    assert(front.push(c) + back.reverse() =~= front + (seq![c] + back.reverse()));
}

/// Where the chosen global alignment of two prefixes comes from: the cell before its
/// last column.
pub open spec fn nw_before(s1: Seq<char>, s2: Seq<char>, sc: Scores, i: int, j: int) -> (int, int) {
    match nw_last_step(s1, s2, sc, i, j) {
        Step::Pair => (i - 1, j - 1),
        Step::Delete => (i - 1, j),
        Step::Insert => (i, j - 1),
    }
}

/// The rows of the chosen global alignment are the rows up to the cell before, with the
/// last column appended.
proof fn lemma_nw_rows_step(s1: Seq<char>, s2: Seq<char>, sc: Scores, i: int, j: int)
    requires
        0 <= i,
        0 <= j,
        i > 0 || j > 0,
    ensures
        nw_before(s1, s2, sc, i, j).0 >= 0,
        nw_before(s1, s2, sc, i, j).1 >= 0,
        first_row(nw_alignment(s1, s2, sc, i, j), s1, i) == first_row(
            nw_alignment(s1, s2, sc, nw_before(s1, s2, sc, i, j).0, nw_before(s1, s2, sc, i, j).1),
            s1,
            nw_before(s1, s2, sc, i, j).0,
        ).push(
            if nw_last_step(s1, s2, sc, i, j) == Step::Insert {
                '-'
            } else {
                s1[i - 1]
            },
        ),
        second_row(nw_alignment(s1, s2, sc, i, j), s2, j) == second_row(
            nw_alignment(s1, s2, sc, nw_before(s1, s2, sc, i, j).0, nw_before(s1, s2, sc, i, j).1),
            s2,
            nw_before(s1, s2, sc, i, j).1,
        ).push(
            if nw_last_step(s1, s2, sc, i, j) == Step::Delete {
                '-'
            } else {
                s2[j - 1]
            },
        ),
{
    if j == 0 {
        lemma_nw_border(s1, s2, sc, i);
    }
    let step = nw_last_step(s1, s2, sc, i, j);
    let before = nw_before(s1, s2, sc, i, j);
    let rest = nw_alignment(s1, s2, sc, before.0, before.1);
    assert(nw_alignment(s1, s2, sc, i, j) == rest.push(step));
    assert(rest.push(step).drop_last() =~= rest);
    assert(rest.push(step).last() == step);
}

/// Walks back from the last cell of the matrix and writes the two rows of the chosen
/// alignment, last column first.
#[verifier::rlimit(40)]
fn nw_traceback(
    s1: &Vec<char>,
    s2: &Vec<char>,
    matrix: &Vec<Vec<i32>>,
    match_score: i32,
    mismatch_score: i32,
    gap_penalty: i32,
) -> (rows: (Vec<char>, Vec<char>))
    requires
        fits(
            s1@.len() as int,
            s2@.len() as int,
            scores_of(match_score, mismatch_score, gap_penalty),
        ),
        is_nw_matrix(matrix@, s1@, s2@, scores_of(match_score, mismatch_score, gap_penalty)),
    ensures
        rows.0@.reverse() == first_row(
            nw_alignment(
                s1@,
                s2@,
                scores_of(match_score, mismatch_score, gap_penalty),
                s1@.len() as int,
                s2@.len() as int,
            ),
            s1@,
            s1@.len() as int,
        ),
        rows.1@.reverse() == second_row(
            nw_alignment(
                s1@,
                s2@,
                scores_of(match_score, mismatch_score, gap_penalty),
                s1@.len() as int,
                s2@.len() as int,
            ),
            s2@,
            s2@.len() as int,
        ),
{
    let ghost sc = scores_of(match_score, mismatch_score, gap_penalty);
    let n = s1.len();
    let m = s2.len();
    let ghost row1 = first_row(nw_alignment(s1@, s2@, sc, n as int, m as int), s1@, n as int);
    let ghost row2 = second_row(nw_alignment(s1@, s2@, sc, n as int, m as int), s2@, m as int);
    let mut a1: Vec<char> = Vec::new();
    let mut a2: Vec<char> = Vec::new();
    let mut i: usize = n;
    let mut j: usize = m;
    proof {
        assert(row1 + a1@.reverse() =~= row1);
        assert(row2 + a2@.reverse() =~= row2);
    }
    while i > 0 || j > 0
        invariant
            n == s1@.len(),
            m == s2@.len(),
            sc == scores_of(match_score, mismatch_score, gap_penalty),
            fits(n as int, m as int, sc),
            is_nw_matrix(matrix@, s1@, s2@, sc),
            i <= n,
            j <= m,
            row1 == first_row(nw_alignment(s1@, s2@, sc, i as int, j as int), s1@, i as int)
                + a1@.reverse(),
            row2 == second_row(nw_alignment(s1@, s2@, sc, i as int, j as int), s2@, j as int)
                + a2@.reverse(),
        decreases i + j,
    {
        let ghost old1 = a1@;
        let ghost old2 = a2@;
        let ghost oi = i as int;
        let ghost oj = j as int;
        let step = nw_step_at(s1, s2, matrix, i, j, match_score, mismatch_score, gap_penalty);
        proof {
            lemma_nw_rows_step(s1@, s2@, sc, oi, oj);
        }
        match step {
            Step::Pair => {
                a1.push(s1[i - 1]);
                a2.push(s2[j - 1]);
                i = i - 1;
                j = j - 1;
            },
            Step::Delete => {
                a1.push(s1[i - 1]);
                a2.push('-');
                i = i - 1;
            },
            Step::Insert => {
                a1.push('-');
                a2.push(s2[j - 1]);
                j = j - 1;
            },
        }
        proof {
            let rest = nw_alignment(s1@, s2@, sc, i as int, j as int);
            lemma_push_reversed(first_row(rest, s1@, i as int), old1, a1@.last());
            lemma_push_reversed(second_row(rest, s2@, j as int), old2, a2@.last());
            assert(a1@ == old1.push(a1@.last()));
            assert(a2@ == old2.push(a2@.last()));
        }
    }
    proof {
        assert(first_row(nw_alignment(s1@, s2@, sc, 0, 0), s1@, 0) + a1@.reverse() =~= a1@.reverse());
        assert(second_row(nw_alignment(s1@, s2@, sc, 0, 0), s2@, 0) + a2@.reverse()
            =~= a2@.reverse());
    }
    (a1, a2)
}

/// Reads off the matrix the last column of the chosen global alignment of two prefixes.
fn nw_step_at(
    s1: &Vec<char>,
    s2: &Vec<char>,
    matrix: &Vec<Vec<i32>>,
    i: usize,
    j: usize,
    match_score: i32,
    mismatch_score: i32,
    gap_penalty: i32,
) -> (step: Step)
    requires
        fits(
            s1@.len() as int,
            s2@.len() as int,
            scores_of(match_score, mismatch_score, gap_penalty),
        ),
        is_nw_matrix(matrix@, s1@, s2@, scores_of(match_score, mismatch_score, gap_penalty)),
        i <= s1@.len(),
        j <= s2@.len(),
        i > 0 || j > 0,
    ensures
        step == nw_last_step(
            s1@,
            s2@,
            scores_of(match_score, mismatch_score, gap_penalty),
            i as int,
            j as int,
        ),
        step == Step::Pair ==> i > 0 && j > 0,
        step == Step::Delete ==> i > 0,
        step == Step::Insert ==> j > 0,
{
    let ghost sc = scores_of(match_score, mismatch_score, gap_penalty);
    let ghost n = s1@.len() as int;
    let ghost m = s2@.len() as int;
    proof {
        assert(matrix@[i as int]@[j as int] == nw_score(s1@, s2@, sc, i as int, j as int));
        if j == 0 {
            lemma_nw_border(s1@, s2@, sc, i as int);
        }
    }
    let here = matrix[i][j];
    if i > 0 && j > 0 {
        let pair = if s1[i - 1] == s2[j - 1] {
            match_score
        } else {
            mismatch_score
        };
        proof {
            lemma_nw_sum_fits(s1@, s2@, sc, n, m, i - 1, j - 1, pair as int);
            assert(matrix@[i - 1]@[j - 1] == nw_score(s1@, s2@, sc, i - 1, j - 1));
        }
        if here == matrix[i - 1][j - 1] + pair {
            return Step::Pair;
        }
    }
    if i > 0 {
        proof {
            lemma_nw_sum_fits(s1@, s2@, sc, n, m, i - 1, j as int, gap_penalty as int);
            assert(matrix@[i - 1]@[j as int] == nw_score(s1@, s2@, sc, i - 1, j as int));
        }
        if here == matrix[i - 1][j] + gap_penalty {
            return Step::Delete;
        }
    }
    Step::Insert
}

/// Aligns two sequences end to end (Needleman-Wunsch).
///
/// The score is the best that a global alignment reaches. Among the alignments with that
/// score the rows show the one that, read from the end, takes a pair where a pair is
/// best, else a character of the first sequence against a gap, else a gap against a
/// character of the second.
pub fn needleman_wunsch(
    seq1: &str,
    seq2: &str,
    match_score: i32,
    mismatch_score: i32,
    gap_penalty: i32,
) -> (r: AlignmentResult)
    requires
        fits(
            seq1@.len() as int,
            seq2@.len() as int,
            scores_of(match_score, mismatch_score, gap_penalty),
        ),
    ensures
        r.score == nw_score(
            seq1@,
            seq2@,
            scores_of(match_score, mismatch_score, gap_penalty),
            seq1@.len() as int,
            seq2@.len() as int,
        ),
        r.align1@ == first_row(
            nw_alignment(
                seq1@,
                seq2@,
                scores_of(match_score, mismatch_score, gap_penalty),
                seq1@.len() as int,
                seq2@.len() as int,
            ),
            seq1@,
            seq1@.len() as int,
        ),
        r.align2@ == second_row(
            nw_alignment(
                seq1@,
                seq2@,
                scores_of(match_score, mismatch_score, gap_penalty),
                seq1@.len() as int,
                seq2@.len() as int,
            ),
            seq2@,
            seq2@.len() as int,
        ),
{
    let s1 = chars_of(seq1);
    let s2 = chars_of(seq2);
    let n = s1.len();
    let m = s2.len();
    let matrix = nw_matrix(&s1, &s2, match_score, mismatch_score, gap_penalty);
    let rows = nw_traceback(&s1, &s2, &matrix, match_score, mismatch_score, gap_penalty);
    let score = matrix[n][m];
    AlignmentResult {
        score,
        align1: string_of_reversed(&rows.0),
        align2: string_of_reversed(&rows.1),
    }
}

/// The best score of a local alignment that ends with the `i`-th character of `s1` set
/// against the `j`-th character of `s2`, or 0 where no such alignment scores more.
pub open spec fn sw_score(s1: Seq<char>, s2: Seq<char>, sc: Scores, i: int, j: int) -> int
    decreases i + j,
{
    if i <= 0 || j <= 0 {
        0
    } else {
        max2(
            max3(
                sw_score(s1, s2, sc, i - 1, j - 1) + substitution(s1[i - 1], s2[j - 1], sc),
                sw_score(s1, s2, sc, i - 1, j) + sc.gap_penalty,
                sw_score(s1, s2, sc, i, j - 1) + sc.gap_penalty,
            ),
            0,
        )
    }
}

/// The local alignment that ends at cell `(i, j)` and is chosen among the best ones: it
/// is followed back while the score is positive, by a pair where that explains the
/// score, else by a character of the first sequence against a gap, else by a gap
/// against a character of the second.
pub open spec fn sw_alignment(s1: Seq<char>, s2: Seq<char>, sc: Scores, i: int, j: int) -> Seq<
    Step,
>
    decreases i + j,
{
    if i <= 0 || j <= 0 || sw_score(s1, s2, sc, i, j) <= 0 {
        Seq::empty()
    } else if sw_score(s1, s2, sc, i, j) == sw_score(s1, s2, sc, i - 1, j - 1) + substitution(
        s1[i - 1],
        s2[j - 1],
        sc,
    ) {
        sw_alignment(s1, s2, sc, i - 1, j - 1).push(Step::Pair)
    } else if sw_score(s1, s2, sc, i, j) == sw_score(s1, s2, sc, i - 1, j) + sc.gap_penalty {
        sw_alignment(s1, s2, sc, i - 1, j).push(Step::Delete)
    } else {
        sw_alignment(s1, s2, sc, i, j - 1).push(Step::Insert)
    }
}

/// Cell `(i, j)` comes before cell `(k, l)` when the matrix is read row by row.
pub open spec fn precedes(i: int, j: int, k: int, l: int) -> bool {
    i < k || (i == k && j < l)
}

/// `(bi, bj)` is where the best local alignment of two sequences of lengths `n` and `m`
/// ends: the first cell, row by row, that holds the largest score of the matrix; or
/// `(0, 0)` where no cell holds a positive score.
pub open spec fn is_sw_end(
    s1: Seq<char>,
    s2: Seq<char>,
    sc: Scores,
    n: int,
    m: int,
    bi: int,
    bj: int,
) -> bool {
    &&& 0 <= bi <= n
    &&& 0 <= bj <= m
    &&& (bi == 0 || bj == 0) ==> bi == 0 && bj == 0
    &&& (bi > 0 && bj > 0) ==> sw_score(s1, s2, sc, bi, bj) > 0
    &&& forall|i: int, j: int|
        1 <= i <= n && 1 <= j <= m ==> #[trigger] sw_score(s1, s2, sc, i, j) <= sw_score(
            s1,
            s2,
            sc,
            bi,
            bj,
        )
    &&& forall|i: int, j: int|
        1 <= i <= n && 1 <= j <= m && precedes(i, j, bi, bj) ==> #[trigger] sw_score(
            s1,
            s2,
            sc,
            i,
            j,
        ) < sw_score(s1, s2, sc, bi, bj)
}

/// The steps fit before position `i` of the first sequence and position `j` of the
/// second: they form a local alignment that ends there.
pub open spec fn ends_at(steps: Seq<Step>, i: int, j: int) -> bool
    decreases steps.len(),
{
    if steps.len() == 0 {
        i >= 0 && j >= 0
    } else {
        match steps.last() {
            Step::Pair => i > 0 && j > 0 && ends_at(steps.drop_last(), i - 1, j - 1),
            Step::Delete => i > 0 && j >= 0 && ends_at(steps.drop_last(), i - 1, j),
            Step::Insert => i >= 0 && j > 0 && ends_at(steps.drop_last(), i, j - 1),
        }
    }
}

/// No cell of the local score matrix is negative, and none exceeds the largest score
/// times the number of characters before it.
pub proof fn lemma_sw_bounded(s1: Seq<char>, s2: Seq<char>, sc: Scores, i: int, j: int)
    requires
        0 <= i,
        0 <= j,
    ensures
        0 <= sw_score(s1, s2, sc, i, j) <= (i + j) * magnitude(sc),
    decreases i + j,
{
    let b = magnitude(sc);
    if i <= 0 || j <= 0 {
        assert(0 <= (i + j) * b) by (nonlinear_arith)
            requires
                0 <= i + j,
                0 <= b,
        ;
    } else {
        lemma_sw_bounded(s1, s2, sc, i - 1, j - 1);
        lemma_sw_bounded(s1, s2, sc, i - 1, j);
        lemma_sw_bounded(s1, s2, sc, i, j - 1);
        lemma_next_multiple(i + j - 1, b);
        lemma_next_multiple(i + j - 2, b);
    }
}

/// There is only one cell at which the best local alignment ends.
pub proof fn lemma_sw_end_unique(
    s1: Seq<char>,
    s2: Seq<char>,
    sc: Scores,
    n: int,
    m: int,
    bi: int,
    bj: int,
    ci: int,
    cj: int,
)
    requires
        is_sw_end(s1, s2, sc, n, m, bi, bj),
        is_sw_end(s1, s2, sc, n, m, ci, cj),
    ensures
        bi == ci,
        bj == cj,
{
    if bi > 0 && ci > 0 {
        if precedes(bi, bj, ci, cj) {
            assert(sw_score(s1, s2, sc, bi, bj) < sw_score(s1, s2, sc, ci, cj));
            assert(sw_score(s1, s2, sc, ci, cj) <= sw_score(s1, s2, sc, bi, bj));
        }
        if precedes(ci, cj, bi, bj) {
            assert(sw_score(s1, s2, sc, ci, cj) < sw_score(s1, s2, sc, bi, bj));
            assert(sw_score(s1, s2, sc, bi, bj) <= sw_score(s1, s2, sc, ci, cj));
        }
    } else if bi > 0 {
        assert(sw_score(s1, s2, sc, bi, bj) <= sw_score(s1, s2, sc, ci, cj));
    } else if ci > 0 {
        assert(sw_score(s1, s2, sc, ci, cj) <= sw_score(s1, s2, sc, bi, bj));
    }
}

/// The chosen local alignment ends at its cell and reaches the score of that cell.
pub proof fn lemma_sw_alignment_reaches_score(
    s1: Seq<char>,
    s2: Seq<char>,
    sc: Scores,
    i: int,
    j: int,
)
    requires
        0 <= i,
        0 <= j,
    ensures
        ends_at(sw_alignment(s1, s2, sc, i, j), i, j),
        alignment_score(sw_alignment(s1, s2, sc, i, j), s1, s2, sc, i, j) == sw_score(
            s1,
            s2,
            sc,
            i,
            j,
        ),
    decreases i + j,
{
    lemma_sw_bounded(s1, s2, sc, i, j);
    if i <= 0 || j <= 0 || sw_score(s1, s2, sc, i, j) <= 0 {
    } else if sw_score(s1, s2, sc, i, j) == sw_score(s1, s2, sc, i - 1, j - 1) + substitution(
        s1[i - 1],
        s2[j - 1],
        sc,
    ) {
        let rest = sw_alignment(s1, s2, sc, i - 1, j - 1);
        lemma_sw_alignment_reaches_score(s1, s2, sc, i - 1, j - 1);
        assert(rest.push(Step::Pair).drop_last() =~= rest);
    } else if sw_score(s1, s2, sc, i, j) == sw_score(s1, s2, sc, i - 1, j) + sc.gap_penalty {
        let rest = sw_alignment(s1, s2, sc, i - 1, j);
        lemma_sw_alignment_reaches_score(s1, s2, sc, i - 1, j);
        assert(rest.push(Step::Delete).drop_last() =~= rest);
    } else {
        let rest = sw_alignment(s1, s2, sc, i, j - 1);
        lemma_sw_alignment_reaches_score(s1, s2, sc, i, j - 1);
        assert(rest.push(Step::Insert).drop_last() =~= rest);
    }
}

/// Where a gap costs something or nothing, no local alignment that ends at a cell scores
/// more than the cell holds.
pub proof fn lemma_sw_score_is_best(
    steps: Seq<Step>,
    s1: Seq<char>,
    s2: Seq<char>,
    sc: Scores,
    i: int,
    j: int,
)
    requires
        ends_at(steps, i, j),
        sc.gap_penalty <= 0,
    ensures
        0 <= i,
        0 <= j,
        alignment_score(steps, s1, s2, sc, i, j) <= sw_score(s1, s2, sc, i, j),
    decreases steps.len(),
{
    if steps.len() > 0 {
        let rest = steps.drop_last();
        match steps.last() {
            Step::Pair => {
                lemma_sw_score_is_best(rest, s1, s2, sc, i - 1, j - 1);
            },
            Step::Delete => {
                lemma_sw_score_is_best(rest, s1, s2, sc, i - 1, j);
            },
            Step::Insert => {
                lemma_sw_score_is_best(rest, s1, s2, sc, i, j - 1);
            },
        }
    } else {
        lemma_sw_bounded(s1, s2, sc, i, j);
    }
}

/// A cell of the local score matrix plus one more score still fits an `i32`.
proof fn lemma_sw_sum_fits(
    s1: Seq<char>,
    s2: Seq<char>,
    sc: Scores,
    n: int,
    m: int,
    i: int,
    j: int,
    v: int,
)
    requires
        fits(n, m, sc),
        0 <= i <= n,
        0 <= j <= m,
        i + j < n + m,
        abs(v) <= magnitude(sc),
    ensures
        i32::MIN < sw_score(s1, s2, sc, i, j) + v <= i32::MAX,
{
    let b = magnitude(sc);
    lemma_sw_bounded(s1, s2, sc, i, j);
    lemma_next_multiple(i + j, b);
    lemma_multiple_monotone(i + j + 1, n + m, b);
}

/// The matrix holds the local score of every cell.
pub open spec fn is_sw_matrix(matrix: Seq<Vec<i32>>, s1: Seq<char>, s2: Seq<char>, sc: Scores) -> bool {
    &&& matrix.len() == s1.len() + 1
    &&& forall|i: int| 0 <= i <= s1.len() ==> (#[trigger] matrix[i])@.len() == s2.len() + 1
    &&& forall|i: int, j: int|
        0 <= i <= s1.len() && 0 <= j <= s2.len() ==> #[trigger] matrix[i]@[j] == sw_score(
            s1,
            s2,
            sc,
            i,
            j,
        )
}

/// The cells read so far, row by row up to but not including `(i, j)`, hold nothing
/// above `best`, which is what `(bi, bj)` holds, and nothing as large before `(bi, bj)`.
spec fn sw_scanned(
    s1: Seq<char>,
    s2: Seq<char>,
    sc: Scores,
    m: int,
    i: int,
    j: int,
    bi: int,
    bj: int,
    best: int,
) -> bool {
    &&& best == sw_score(s1, s2, sc, bi, bj)
    &&& 0 <= bi
    &&& 0 <= bj <= m
    &&& (bi == 0 || bj == 0) ==> bi == 0 && bj == 0
    &&& (bi > 0 && bj > 0) ==> best > 0 && precedes(bi, bj, i, j)
    &&& forall|a: int, b: int|
        1 <= a && 1 <= b <= m && precedes(a, b, i, j) ==> #[trigger] sw_score(s1, s2, sc, a, b)
            <= best
    &&& forall|a: int, b: int|
        1 <= a && 1 <= b <= m && precedes(a, b, i, j) && precedes(a, b, bi, bj)
            ==> #[trigger] sw_score(s1, s2, sc, a, b) < best
}

/// The local score matrix, together with the cell at which the best alignment ends and
/// the score of that cell.
#[verifier::rlimit(40)]
fn sw_matrix(
    s1: &Vec<char>,
    s2: &Vec<char>,
    match_score: i32,
    mismatch_score: i32,
    gap_penalty: i32,
) -> (out: (Vec<Vec<i32>>, usize, usize, i32))
    requires
        fits(
            s1@.len() as int,
            s2@.len() as int,
            scores_of(match_score, mismatch_score, gap_penalty),
        ),
    ensures
        is_sw_matrix(out.0@, s1@, s2@, scores_of(match_score, mismatch_score, gap_penalty)),
        is_sw_end(
            s1@,
            s2@,
            scores_of(match_score, mismatch_score, gap_penalty),
            s1@.len() as int,
            s2@.len() as int,
            out.1 as int,
            out.2 as int,
        ),
        out.3 == sw_score(
            s1@,
            s2@,
            scores_of(match_score, mismatch_score, gap_penalty),
            out.1 as int,
            out.2 as int,
        ),
{
    let ghost sc = scores_of(match_score, mismatch_score, gap_penalty);
    let n = s1.len();
    let m = s2.len();
    let mut matrix: Vec<Vec<i32>> = Vec::new();
    let mut best: i32 = 0;
    let mut bi: usize = 0;
    let mut bj: usize = 0;
    let mut i: usize = 0;
    while i <= n
        invariant
            n == s1@.len(),
            m == s2@.len(),
            sc == scores_of(match_score, mismatch_score, gap_penalty),
            fits(n as int, m as int, sc),
            i <= n + 1,
            bi <= n,
            matrix@.len() == i,
            forall|a: int| 0 <= a < i ==> (#[trigger] matrix@[a])@.len() == m + 1,
            forall|a: int, b: int|
                0 <= a < i && 0 <= b <= m ==> #[trigger] matrix@[a]@[b] == sw_score(
                    s1@,
                    s2@,
                    sc,
                    a,
                    b,
                ),
            sw_scanned(s1@, s2@, sc, m as int, i as int, 0, bi as int, bj as int, best as int),
        decreases n + 1 - i,
    {
        let mut row: Vec<i32> = Vec::new();
        let mut j: usize = 0;
        while j <= m
            invariant
                n == s1@.len(),
                m == s2@.len(),
                sc == scores_of(match_score, mismatch_score, gap_penalty),
                fits(n as int, m as int, sc),
                i <= n,
                bi <= n,
                j <= m + 1,
                matrix@.len() == i,
                row@.len() == j,
                forall|a: int| 0 <= a < i ==> (#[trigger] matrix@[a])@.len() == m + 1,
                forall|a: int, b: int|
                    0 <= a < i && 0 <= b <= m ==> #[trigger] matrix@[a]@[b] == sw_score(
                        s1@,
                        s2@,
                        sc,
                        a,
                        b,
                    ),
                forall|b: int|
                    0 <= b < j ==> #[trigger] row@[b] == sw_score(s1@, s2@, sc, i as int, b),
                sw_scanned(
                    s1@,
                    s2@,
                    sc,
                    m as int,
                    i as int,
                    j as int,
                    bi as int,
                    bj as int,
                    best as int,
                ),
            decreases m + 1 - j,
        {
            let value: i32 = if i == 0 || j == 0 {
                0
            } else {
                let pair = if s1[i - 1] == s2[j - 1] {
                    match_score
                } else {
                    mismatch_score
                };
                proof {
                    lemma_sw_sum_fits(s1@, s2@, sc, n as int, m as int, i - 1, j - 1, pair as int);
                    lemma_sw_sum_fits(
                        s1@,
                        s2@,
                        sc,
                        n as int,
                        m as int,
                        i - 1,
                        j as int,
                        gap_penalty as int,
                    );
                    lemma_sw_sum_fits(
                        s1@,
                        s2@,
                        sc,
                        n as int,
                        m as int,
                        i as int,
                        j - 1,
                        gap_penalty as int,
                    );
                    assert(matrix@[i - 1]@[j - 1] == sw_score(s1@, s2@, sc, i - 1, j - 1));
                    assert(matrix@[i - 1]@[j as int] == sw_score(s1@, s2@, sc, i - 1, j as int));
                }
                let diag = matrix[i - 1][j - 1] + pair;
                let up = matrix[i - 1][j] + gap_penalty;
                let left = row[j - 1] + gap_penalty;
                let reached = largest_of(diag, up, left);
                if reached >= 0 {
                    reached
                } else {
                    0
                }
            };
            if value > best {
                best = value;
                bi = i;
                bj = j;
            }
            row.push(value);
            j = j + 1;
        }
        matrix.push(row);
        i = i + 1;
    }
    (matrix, bi, bj, best)
}

/// The last column of the chosen local alignment that ends at a cell with a positive
/// score.
pub open spec fn sw_last_step(s1: Seq<char>, s2: Seq<char>, sc: Scores, i: int, j: int) -> Step {
    if sw_score(s1, s2, sc, i, j) == sw_score(s1, s2, sc, i - 1, j - 1) + substitution(
        s1[i - 1],
        s2[j - 1],
        sc,
    ) {
        Step::Pair
    } else if sw_score(s1, s2, sc, i, j) == sw_score(s1, s2, sc, i - 1, j) + sc.gap_penalty {
        Step::Delete
    } else {
        Step::Insert
    }
}

/// The rows of the chosen local alignment that ends at a cell with a positive score are
/// the rows up to the cell before, with the last column appended.
proof fn lemma_sw_rows_step(s1: Seq<char>, s2: Seq<char>, sc: Scores, i: int, j: int)
    requires
        0 < i,
        0 < j,
        sw_score(s1, s2, sc, i, j) > 0,
    ensures
        sw_last_step(s1, s2, sc, i, j) == Step::Pair ==> first_row(
            sw_alignment(s1, s2, sc, i, j),
            s1,
            i,
        ) == first_row(sw_alignment(s1, s2, sc, i - 1, j - 1), s1, i - 1).push(s1[i - 1])
            && second_row(sw_alignment(s1, s2, sc, i, j), s2, j) == second_row(
            sw_alignment(s1, s2, sc, i - 1, j - 1),
            s2,
            j - 1,
        ).push(s2[j - 1]),
        sw_last_step(s1, s2, sc, i, j) == Step::Delete ==> first_row(
            sw_alignment(s1, s2, sc, i, j),
            s1,
            i,
        ) == first_row(sw_alignment(s1, s2, sc, i - 1, j), s1, i - 1).push(s1[i - 1])
            && second_row(sw_alignment(s1, s2, sc, i, j), s2, j) == second_row(
            sw_alignment(s1, s2, sc, i - 1, j),
            s2,
            j,
        ).push('-'),
        sw_last_step(s1, s2, sc, i, j) == Step::Insert ==> first_row(
            sw_alignment(s1, s2, sc, i, j),
            s1,
            i,
        ) == first_row(sw_alignment(s1, s2, sc, i, j - 1), s1, i).push('-') && second_row(
            sw_alignment(s1, s2, sc, i, j),
            s2,
            j,
        ) == second_row(sw_alignment(s1, s2, sc, i, j - 1), s2, j - 1).push(s2[j - 1]),
{
    let step = sw_last_step(s1, s2, sc, i, j);
    let rest = match step {
        Step::Pair => sw_alignment(s1, s2, sc, i - 1, j - 1),
        Step::Delete => sw_alignment(s1, s2, sc, i - 1, j),
        Step::Insert => sw_alignment(s1, s2, sc, i, j - 1),
    };
    assert(sw_alignment(s1, s2, sc, i, j) == rest.push(step));
    assert(rest.push(step).drop_last() =~= rest);
    assert(rest.push(step).last() == step);
}

/// Reads off the matrix the last column of the chosen local alignment that ends at a
/// cell with a positive score.
fn sw_step_at(
    s1: &Vec<char>,
    s2: &Vec<char>,
    matrix: &Vec<Vec<i32>>,
    i: usize,
    j: usize,
    match_score: i32,
    mismatch_score: i32,
    gap_penalty: i32,
) -> (step: Step)
    requires
        fits(
            s1@.len() as int,
            s2@.len() as int,
            scores_of(match_score, mismatch_score, gap_penalty),
        ),
        is_sw_matrix(matrix@, s1@, s2@, scores_of(match_score, mismatch_score, gap_penalty)),
        0 < i <= s1@.len(),
        0 < j <= s2@.len(),
    ensures
        step == sw_last_step(
            s1@,
            s2@,
            scores_of(match_score, mismatch_score, gap_penalty),
            i as int,
            j as int,
        ),
{
    let ghost sc = scores_of(match_score, mismatch_score, gap_penalty);
    let ghost n = s1@.len() as int;
    let ghost m = s2@.len() as int;
    let pair = if s1[i - 1] == s2[j - 1] {
        match_score
    } else {
        mismatch_score
    };
    proof {
        lemma_sw_sum_fits(s1@, s2@, sc, n, m, i - 1, j - 1, pair as int);
        lemma_sw_sum_fits(s1@, s2@, sc, n, m, i - 1, j as int, gap_penalty as int);
        assert(matrix@[i as int]@[j as int] == sw_score(s1@, s2@, sc, i as int, j as int));
        assert(matrix@[i - 1]@[j - 1] == sw_score(s1@, s2@, sc, i - 1, j - 1));
        assert(matrix@[i - 1]@[j as int] == sw_score(s1@, s2@, sc, i - 1, j as int));
    }
    if matrix[i][j] == matrix[i - 1][j - 1] + pair {
        Step::Pair
    } else if matrix[i][j] == matrix[i - 1][j] + gap_penalty {
        Step::Delete
    } else {
        Step::Insert
    }
}

/// Whether the chosen local alignment that ends at a cell goes on before it: the cell
/// lies inside the matrix proper and holds a positive score.
fn sw_goes_on(matrix: &Vec<Vec<i32>>, i: usize, j: usize) -> (on: bool)
    requires
        i < matrix@.len(),
        j < matrix@[i as int]@.len(),
    ensures
        on == (i > 0 && j > 0 && matrix@[i as int]@[j as int] > 0),
{
    i > 0 && j > 0 && matrix[i][j] > 0
}

/// Walks back from the cell at which the best local alignment ends and writes the two
/// rows of the chosen alignment, last column first.
#[verifier::rlimit(40)]
fn sw_traceback(
    s1: &Vec<char>,
    s2: &Vec<char>,
    matrix: &Vec<Vec<i32>>,
    bi: usize,
    bj: usize,
    match_score: i32,
    mismatch_score: i32,
    gap_penalty: i32,
) -> (rows: (Vec<char>, Vec<char>))
    requires
        fits(
            s1@.len() as int,
            s2@.len() as int,
            scores_of(match_score, mismatch_score, gap_penalty),
        ),
        is_sw_matrix(matrix@, s1@, s2@, scores_of(match_score, mismatch_score, gap_penalty)),
        bi <= s1@.len(),
        bj <= s2@.len(),
    ensures
        rows.0@.reverse() == first_row(
            sw_alignment(
                s1@,
                s2@,
                scores_of(match_score, mismatch_score, gap_penalty),
                bi as int,
                bj as int,
            ),
            s1@,
            bi as int,
        ),
        rows.1@.reverse() == second_row(
            sw_alignment(
                s1@,
                s2@,
                scores_of(match_score, mismatch_score, gap_penalty),
                bi as int,
                bj as int,
            ),
            s2@,
            bj as int,
        ),
{
    let ghost sc = scores_of(match_score, mismatch_score, gap_penalty);
    let n = s1.len();
    let m = s2.len();
    let ghost row1 = first_row(sw_alignment(s1@, s2@, sc, bi as int, bj as int), s1@, bi as int);
    let ghost row2 = second_row(sw_alignment(s1@, s2@, sc, bi as int, bj as int), s2@, bj as int);
    let mut a1: Vec<char> = Vec::new();
    let mut a2: Vec<char> = Vec::new();
    let mut i: usize = bi;
    let mut j: usize = bj;
    proof {
        assert(row1 + a1@.reverse() =~= row1);
        assert(row2 + a2@.reverse() =~= row2);
    }
    while sw_goes_on(matrix, i, j)
        invariant
            n == s1@.len(),
            m == s2@.len(),
            sc == scores_of(match_score, mismatch_score, gap_penalty),
            fits(n as int, m as int, sc),
            is_sw_matrix(matrix@, s1@, s2@, sc),
            i <= n,
            j <= m,
            row1 == first_row(sw_alignment(s1@, s2@, sc, i as int, j as int), s1@, i as int)
                + a1@.reverse(),
            row2 == second_row(sw_alignment(s1@, s2@, sc, i as int, j as int), s2@, j as int)
                + a2@.reverse(),
        decreases i + j,
    {
        let ghost old1 = a1@;
        let ghost old2 = a2@;
        proof {
            assert(matrix@[i as int]@[j as int] == sw_score(s1@, s2@, sc, i as int, j as int));
            lemma_sw_rows_step(s1@, s2@, sc, i as int, j as int);
        }
        let step = sw_step_at(s1, s2, matrix, i, j, match_score, mismatch_score, gap_penalty);
        match step {
            Step::Pair => {
                a1.push(s1[i - 1]);
                a2.push(s2[j - 1]);
                i = i - 1;
                j = j - 1;
            },
            Step::Delete => {
                a1.push(s1[i - 1]);
                a2.push('-');
                i = i - 1;
            },
            Step::Insert => {
                a1.push('-');
                a2.push(s2[j - 1]);
                j = j - 1;
            },
        }
        proof {
            let rest = sw_alignment(s1@, s2@, sc, i as int, j as int);
            lemma_push_reversed(first_row(rest, s1@, i as int), old1, a1@.last());
            lemma_push_reversed(second_row(rest, s2@, j as int), old2, a2@.last());
            assert(a1@ == old1.push(a1@.last()));
            assert(a2@ == old2.push(a2@.last()));
        }
    }
    proof {
        let rest = sw_alignment(s1@, s2@, sc, i as int, j as int);
        assert(matrix@[i as int]@[j as int] == sw_score(s1@, s2@, sc, i as int, j as int));
        assert(rest =~= Seq::<Step>::empty());
        assert(first_row(rest, s1@, i as int) + a1@.reverse() =~= a1@.reverse());
        assert(second_row(rest, s2@, j as int) + a2@.reverse() =~= a2@.reverse());
    }
    (a1, a2)
}

/// `r` is the best local alignment of `s1` and `s2`, and `(bi, bj)` is the cell at which
/// it ends.
pub open spec fn is_sw_result(
    r: AlignmentResult,
    s1: Seq<char>,
    s2: Seq<char>,
    sc: Scores,
    bi: int,
    bj: int,
) -> bool {
    &&& is_sw_end(s1, s2, sc, s1.len() as int, s2.len() as int, bi, bj)
    &&& r.score == sw_score(s1, s2, sc, bi, bj)
    &&& r.align1@ == first_row(sw_alignment(s1, s2, sc, bi, bj), s1, bi)
    &&& r.align2@ == second_row(sw_alignment(s1, s2, sc, bi, bj), s2, bj)
}

/// Finds the best local alignment of two sequences (Smith-Waterman).
///
/// The score is the largest that the local score matrix holds. The alignment ends at the
/// first cell, row by row, that holds it, and is followed back from there while the
/// score is positive. Two sequences without a pair that scores give score 0 and empty
/// rows.
pub fn smith_waterman(
    seq1: &str,
    seq2: &str,
    match_score: i32,
    mismatch_score: i32,
    gap_penalty: i32,
) -> (r: AlignmentResult)
    requires
        fits(
            seq1@.len() as int,
            seq2@.len() as int,
            scores_of(match_score, mismatch_score, gap_penalty),
        ),
    ensures
        exists|bi: int, bj: int| #[trigger]
            is_sw_result(
                r,
                seq1@,
                seq2@,
                scores_of(match_score, mismatch_score, gap_penalty),
                bi,
                bj,
            ),
{
    let s1 = chars_of(seq1);
    let s2 = chars_of(seq2);
    let (matrix, bi, bj, best) = sw_matrix(&s1, &s2, match_score, mismatch_score, gap_penalty);
    let rows = sw_traceback(&s1, &s2, &matrix, bi, bj, match_score, mismatch_score, gap_penalty);
    let r = AlignmentResult {
        score: best,
        align1: string_of_reversed(&rows.0),
        align2: string_of_reversed(&rows.1),
    };
    proof {
        assert(is_sw_result(
            r,
            seq1@,
            seq2@,
            scores_of(match_score, mismatch_score, gap_penalty),
            bi as int,
            bj as int,
        ));
    }
    r
}

/// One place at which a motif was found: the characters from `start` up to, not
/// including, `end`.
#[derive(Debug, Clone, PartialEq, Eq)]
pub struct MotifMatch {
    pub start: usize,
    pub end: usize,
    pub match_str: String,
}

/// A motif character that stands for any character of the genome.
pub open spec fn is_wildcard(c: char) -> bool {
    c == '.' || c == 'N'
}

/// The motif lies on the genome at position `i`: it fits before the end, and each of its
/// characters is a wildcard or the character of the genome under it.
pub open spec fn matches_at(genome: Seq<char>, motif: Seq<char>, i: int) -> bool {
    &&& 0 <= i
    &&& i + motif.len() <= genome.len()
    &&& forall|j: int|
        0 <= j < motif.len() ==> is_wildcard(#[trigger] motif[j]) || motif[j] == genome[i + j]
}

/// The entry reports a place at which the motif lies, with the text found there.
pub open spec fn reports(found: MotifMatch, genome: Seq<char>, motif: Seq<char>) -> bool {
    &&& matches_at(genome, motif, found.start as int)
    &&& found.end == found.start + motif.len()
    &&& found.match_str@ == genome.subrange(found.start as int, found.end as int)
}

/// Whether the motif lies on the genome at position `i`.
fn lies_at(genome: &Vec<char>, motif: &Vec<char>, i: usize) -> (hit: bool)
    requires
        i + motif@.len() <= genome@.len(),
    ensures
        hit == matches_at(genome@, motif@, i as int),
{
    let genome_len = genome.len();
    let mut j: usize = 0;
    while j < motif.len()
        invariant
            j <= motif@.len(),
            genome_len == genome@.len(),
            i + motif@.len() <= genome_len,
            forall|k: int|
                0 <= k < j ==> is_wildcard(#[trigger] motif@[k]) || motif@[k] == genome@[i + k],
        decreases motif@.len() - j,
    {
        let mc = motif[j];
        let gc = genome[i + j];
        if mc != '.' && mc != 'N' && mc != gc {
            assert(!is_wildcard(motif@[j as int]));
            return false;
        }
        j = j + 1;
    }
    true
}

/// Finds every place at which the motif lies on the genome, from left to right. In the
/// motif, `.` and `N` stand for any character. Places are counted in characters. An
/// empty motif is found nowhere.
#[verifier::rlimit(40)]
pub fn search_motif(genome: &str, motif: &str) -> (found: Vec<MotifMatch>)
    ensures
        forall|k: int| 0 <= k < found@.len() ==> reports(#[trigger] found@[k], genome@, motif@),
        forall|k: int, l: int|
            0 <= k < l < found@.len() ==> (#[trigger] found@[k]).start < (
            #[trigger] found@[l]).start,
        forall|i: int|
            motif@.len() > 0 && #[trigger] matches_at(genome@, motif@, i) ==> exists|k: int|
                0 <= k < found@.len() && (#[trigger] found@[k]).start == i,
        motif@.len() == 0 ==> found@.len() == 0,
{
    let genome_chars = chars_of(genome);
    let motif_chars = chars_of(motif);
    let motif_len = motif_chars.len();
    let mut found: Vec<MotifMatch> = Vec::new();
    if motif_len == 0 || genome_chars.len() < motif_len {
        return found;
    }
    let genome_len = genome_chars.len();
    let last = genome_len - motif_len;
    let mut i: usize = 0;
    while i <= last
        invariant
            genome_chars@ == genome@,
            motif_chars@ == motif@,
            motif_len == motif@.len(),
            motif_len > 0,
            genome_len == genome@.len(),
            last + motif_len == genome_len,
            i <= last + 1,
            forall|k: int| 0 <= k < found@.len() ==> reports(#[trigger] found@[k], genome@, motif@),
            forall|k: int| 0 <= k < found@.len() ==> (#[trigger] found@[k]).start < i,
            forall|k: int, l: int|
                0 <= k < l < found@.len() ==> (#[trigger] found@[k]).start < (
                #[trigger] found@[l]).start,
            forall|p: int|
                0 <= p < i && #[trigger] matches_at(genome@, motif@, p) ==> exists|k: int|
                    0 <= k < found@.len() && (#[trigger] found@[k]).start == p,
        decreases last + 1 - i,
    {
        if lies_at(&genome_chars, &motif_chars, i) {
            let ghost before = found@;
            let entry = MotifMatch {
                start: i,
                end: i + motif_len,
                match_str: text_between(&genome_chars, i, i + motif_len),
            };
            found.push(entry);
            proof {
                assert forall|p: int|
                    0 <= p < i + 1 && #[trigger] matches_at(genome@, motif@, p) implies exists|
                    k: int,
                |
                    0 <= k < found@.len() && (#[trigger] found@[k]).start == p by {
                    if p < i {
                        let k = choose|k: int|
                            0 <= k < before.len() && (#[trigger] before[k]).start == p;
                        assert(found@[k].start == p);
                    } else {
                        assert(found@[found@.len() - 1].start == p);
                    }
                }
            }
        }
        i = i + 1;
    }
    found
}

} // verus!
