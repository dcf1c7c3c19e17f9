//! Joint counts of two runs of genotype calls: two individuals over the markers, or two
//! markers over the individuals.
//!
//! A position enters the counts when both calls are valid. Identity by state, allele
//! sharing distance and the moments that linkage disequilibrium is made of are all sums
//! over the nine cells of the joint table.

use crate::genotype::{cell, codes, column, dosage_of, lemma_cell_in_buffer, shape_ok, GenotypeCode};
use vstd::prelude::*;

verus! {

/// Row `i` of a row-major matrix of `n_markers` columns: the calls of one individual.
pub open spec fn row(cells: Seq<int>, n_markers: int, i: int) -> Seq<int> {
    Seq::new(n_markers as nat, |j: int| cell(cells, n_markers, i, j))
}

/// Among the first `n` positions, how often `xs` holds `a` where `ys` holds `b`.
pub open spec fn joint(xs: Seq<int>, ys: Seq<int>, n: int, a: int, b: int) -> nat
    decreases n,
{
    if n <= 0 {
        0
    } else {
        joint(xs, ys, n - 1, a, b) + if xs[n - 1] == a && ys[n - 1] == b {
            1nat
        } else {
            0nat
        }
    }
}

/// The positions at which both calls are valid, counted by the pair of dosages:
/// `n12` counts the positions where the first call is 1 and the second is 2.
#[derive(Clone, Copy, Debug, PartialEq, Eq, Structural)]
pub struct PairCounts {
    pub n00: usize,
    pub n01: usize,
    pub n02: usize,
    pub n10: usize,
    pub n11: usize,
    pub n12: usize,
    pub n20: usize,
    pub n21: usize,
    pub n22: usize,
}

impl PairCounts {
    /// These are the joint counts of the first `n` positions of `xs` and `ys`.
    pub open spec fn tallies_first(self, xs: Seq<int>, ys: Seq<int>, n: int) -> bool {
        &&& self.n00 == joint(xs, ys, n, 0, 0)
        &&& self.n01 == joint(xs, ys, n, 0, 1)
        &&& self.n02 == joint(xs, ys, n, 0, 2)
        &&& self.n10 == joint(xs, ys, n, 1, 0)
        &&& self.n11 == joint(xs, ys, n, 1, 1)
        &&& self.n12 == joint(xs, ys, n, 1, 2)
        &&& self.n20 == joint(xs, ys, n, 2, 0)
        &&& self.n21 == joint(xs, ys, n, 2, 1)
        &&& self.n22 == joint(xs, ys, n, 2, 2)
    }

    /// These are the joint counts of `xs` and `ys`, two runs of one length.
    pub open spec fn tallies(self, xs: Seq<int>, ys: Seq<int>) -> bool {
        xs.len() == ys.len() && self.tallies_first(xs, ys, xs.len() as int)
    }

    /// Number of positions at which both calls are valid.
    pub open spec fn valid_spec(self) -> int {
        self.n00 + self.n01 + self.n02 + self.n10 + self.n11 + self.n12 + self.n20 + self.n21
            + self.n22
    }

    /// Alleles shared by state, summed over the positions: 2 where both calls are the
    /// same homozygote, 0 where they are opposite homozygotes, 1 wherever a heterozygote
    /// takes part.
    pub open spec fn shared_spec(self) -> int {
        2 * (self.n00 + self.n22) + self.n01 + self.n10 + self.n11 + self.n12 + self.n21
    }

    /// Sum of the absolute differences of the two calls.
    pub open spec fn difference_spec(self) -> int {
        self.n01 + self.n10 + self.n12 + self.n21 + 2 * (self.n02 + self.n20)
    }

    /// Sum of the first calls.
    pub open spec fn sum_first_spec(self) -> int {
        self.n10 + self.n11 + self.n12 + 2 * (self.n20 + self.n21 + self.n22)
    }

    /// Sum of the second calls.
    pub open spec fn sum_second_spec(self) -> int {
        self.n01 + self.n11 + self.n21 + 2 * (self.n02 + self.n12 + self.n22)
    }

    /// Sum of the squares of the first calls.
    pub open spec fn squares_first_spec(self) -> int {
        self.n10 + self.n11 + self.n12 + 4 * (self.n20 + self.n21 + self.n22)
    }

    /// Sum of the squares of the second calls.
    pub open spec fn squares_second_spec(self) -> int {
        self.n01 + self.n11 + self.n21 + 4 * (self.n02 + self.n12 + self.n22)
    }

    /// Sum of the products of the two calls.
    pub open spec fn products_spec(self) -> int {
        self.n11 + 2 * (self.n12 + self.n21) + 4 * self.n22
    }

    /// Number of positions at which both calls are valid.
    pub fn valid(&self) -> (n: u128)
        ensures
            n == self.valid_spec(),
    {
        self.n00 as u128 + self.n01 as u128 + self.n02 as u128 + self.n10 as u128
            + self.n11 as u128 + self.n12 as u128 + self.n20 as u128 + self.n21 as u128
            + self.n22 as u128
    }

    /// Alleles shared by state, summed over the positions.
    pub fn shared(&self) -> (s: u128)
        ensures
            s == self.shared_spec(),
    {
        2 * (self.n00 as u128 + self.n22 as u128) + self.n01 as u128 + self.n10 as u128
            + self.n11 as u128 + self.n12 as u128 + self.n21 as u128
    }

    /// Sum of the absolute differences of the two calls.
    pub fn difference(&self) -> (s: u128)
        ensures
            s == self.difference_spec(),
    {
        self.n01 as u128 + self.n10 as u128 + self.n12 as u128 + self.n21 as u128 + 2 * (
        self.n02 as u128 + self.n20 as u128)
    }

    /// Sum of the first calls.
    pub fn sum_first(&self) -> (s: u128)
        ensures
            s == self.sum_first_spec(),
    {
        self.n10 as u128 + self.n11 as u128 + self.n12 as u128 + 2 * (self.n20 as u128
            + self.n21 as u128 + self.n22 as u128)
    }

    /// Sum of the second calls.
    pub fn sum_second(&self) -> (s: u128)
        ensures
            s == self.sum_second_spec(),
    {
        self.n01 as u128 + self.n11 as u128 + self.n21 as u128 + 2 * (self.n02 as u128
            + self.n12 as u128 + self.n22 as u128)
    }

    /// Sum of the squares of the first calls.
    pub fn squares_first(&self) -> (s: u128)
        ensures
            s == self.squares_first_spec(),
    {
        self.n10 as u128 + self.n11 as u128 + self.n12 as u128 + 4 * (self.n20 as u128
            + self.n21 as u128 + self.n22 as u128)
    }

    /// Sum of the squares of the second calls.
    pub fn squares_second(&self) -> (s: u128)
        ensures
            s == self.squares_second_spec(),
    {
        self.n01 as u128 + self.n11 as u128 + self.n21 as u128 + 4 * (self.n02 as u128
            + self.n12 as u128 + self.n22 as u128)
    }

    /// Sum of the products of the two calls.
    pub fn products(&self) -> (s: u128)
        ensures
            s == self.products_spec(),
    {
        self.n11 as u128 + 2 * (self.n12 as u128 + self.n21 as u128) + 4 * (self.n22 as u128)
    }
}

/// A joint count cannot exceed the number of positions counted.
pub proof fn lemma_joint_bounded(xs: Seq<int>, ys: Seq<int>, n: int, a: int, b: int)
    requires
        0 <= n,
    ensures
        joint(xs, ys, n, a, b) <= n,
    decreases n,
{
    if n > 0 {
        lemma_joint_bounded(xs, ys, n - 1, a, b);
    }
}

/// Joint counts do not depend on which of the two runs is named first: the table of
/// `(ys, xs)` is the table of `(xs, ys)` mirrored.
pub proof fn lemma_joint_symmetric(xs: Seq<int>, ys: Seq<int>, n: int, a: int, b: int)
    ensures
        joint(ys, xs, n, b, a) == joint(xs, ys, n, a, b),
    decreases n,
{
    if n > 0 {
        lemma_joint_symmetric(xs, ys, n - 1, a, b);
    }
}

/// What is read of a buffer at `base`, `base + stride`, `base + 2 * stride`, ..., `len`
/// cells in all.
spec fn strided(cells: Seq<int>, base: int, stride: int, len: int) -> Seq<int> {
    Seq::new(len as nat, |p: int| cells[base + p * stride])
}

proof fn lemma_stride_in_bounds(base: int, stride: int, len: int, p: int)
    requires
        0 <= p < len,
        0 <= base,
        0 <= stride,
    ensures
        0 <= p * stride,
        base + p * stride <= base + (len - 1) * stride,
{
    assert(0 <= p * stride && p * stride <= (len - 1) * stride) by (nonlinear_arith)
        requires
            0 <= p < len,
            0 <= stride,
    ;
}

/// Counts two strided runs of one buffer against each other.
#[verifier::rlimit(40)]
fn count_strided<T: GenotypeCode>(
    buf: &[T],
    base_x: usize,
    base_y: usize,
    stride: usize,
    len: usize,
) -> (c: PairCounts)
    requires
        len > 0 ==> base_x + (len - 1) * stride < buf@.len(),
        len > 0 ==> base_y + (len - 1) * stride < buf@.len(),
    ensures
        c.tallies(
            strided(codes(buf@), base_x as int, stride as int, len as int),
            strided(codes(buf@), base_y as int, stride as int, len as int),
        ),
{
    let ghost xs = strided(codes(buf@), base_x as int, stride as int, len as int);
    let ghost ys = strided(codes(buf@), base_y as int, stride as int, len as int);
    let total = buf.len();
    let mut c = PairCounts {
        n00: 0,
        n01: 0,
        n02: 0,
        n10: 0,
        n11: 0,
        n12: 0,
        n20: 0,
        n21: 0,
        n22: 0,
    };
    let mut p: usize = 0;
    while p < len
        invariant
            p <= len,
            total == buf@.len(),
            len > 0 ==> base_x + (len - 1) * stride < buf@.len(),
            len > 0 ==> base_y + (len - 1) * stride < buf@.len(),
            xs == strided(codes(buf@), base_x as int, stride as int, len as int),
            ys == strided(codes(buf@), base_y as int, stride as int, len as int),
            c.tallies_first(xs, ys, p as int),
        decreases len - p,
    {
        proof {
            lemma_stride_in_bounds(base_x as int, stride as int, len as int, p as int);
            lemma_stride_in_bounds(base_y as int, stride as int, len as int, p as int);
            lemma_joint_bounded(xs, ys, p as int, 0, 0);
            lemma_joint_bounded(xs, ys, p as int, 0, 1);
            lemma_joint_bounded(xs, ys, p as int, 0, 2);
            lemma_joint_bounded(xs, ys, p as int, 1, 0);
            lemma_joint_bounded(xs, ys, p as int, 1, 1);
            lemma_joint_bounded(xs, ys, p as int, 1, 2);
            lemma_joint_bounded(xs, ys, p as int, 2, 0);
            lemma_joint_bounded(xs, ys, p as int, 2, 1);
            lemma_joint_bounded(xs, ys, p as int, 2, 2);
        }
        let offset = p * stride;
        let dx = buf[base_x + offset].dosage();
        let dy = buf[base_y + offset].dosage();
        proof {
            assert(xs[p as int] == buf@[base_x + p * stride].code());
            assert(ys[p as int] == buf@[base_y + p * stride].code());
            assert(dx == dosage_of(xs[p as int]));
            assert(dy == dosage_of(ys[p as int]));
        }
        match (dx, dy) {
            (Some(0), Some(0)) => {
                c.n00 = c.n00 + 1;
            },
            (Some(0), Some(1)) => {
                c.n01 = c.n01 + 1;
            },
            (Some(0), Some(_)) => {
                c.n02 = c.n02 + 1;
            },
            (Some(1), Some(0)) => {
                c.n10 = c.n10 + 1;
            },
            (Some(1), Some(1)) => {
                c.n11 = c.n11 + 1;
            },
            (Some(1), Some(_)) => {
                c.n12 = c.n12 + 1;
            },
            (Some(_), Some(0)) => {
                c.n20 = c.n20 + 1;
            },
            (Some(_), Some(1)) => {
                c.n21 = c.n21 + 1;
            },
            (Some(_), Some(_)) => {
                c.n22 = c.n22 + 1;
            },
            _ => {},
        }
        p = p + 1;
    }
    c
}

/// The joint counts of the calls of individuals `i` and `k` over all markers, or `None`
/// where the buffer is not a matrix of the declared shape or an individual is not one of
/// its rows.
pub fn count_row_pair<T: GenotypeCode>(
    markers: &[T],
    n_markers: usize,
    n_individuals: usize,
    i: usize,
    k: usize,
) -> (r: Option<PairCounts>)
    ensures
        r is Some <==> shape_ok(markers@.len() as int, n_markers as int, n_individuals as int)
            && i < n_individuals && k < n_individuals,
        r is Some ==> r->0.tallies(
            row(codes(markers@), n_markers as int, i as int),
            row(codes(markers@), n_markers as int, k as int),
        ),
{
    if !crate::genotype::check_shape(markers.len(), n_markers, n_individuals) {
        return None;
    }
    if i >= n_individuals || k >= n_individuals {
        return None;
    }
    proof {
        lemma_cell_in_buffer(i as int, n_markers - 1, n_markers as int, n_individuals as int);
        lemma_cell_in_buffer(k as int, n_markers - 1, n_markers as int, n_individuals as int);
        lemma_cell_in_buffer(i as int, 0, n_markers as int, n_individuals as int);
        lemma_cell_in_buffer(k as int, 0, n_markers as int, n_individuals as int);
    }
    let c = count_strided(markers, i * n_markers, k * n_markers, 1, n_markers);
    proof {
        let cs = codes(markers@);
        assert(strided(cs, i * n_markers, 1, n_markers as int) =~= row(
            cs,
            n_markers as int,
            i as int,
        ));
        assert(strided(cs, k * n_markers, 1, n_markers as int) =~= row(
            cs,
            n_markers as int,
            k as int,
        ));
    }
    Some(c)
}

/// The joint counts of markers `j` and `l` over all individuals, or `None` where the
/// buffer is not a matrix of the declared shape or a marker is not one of its columns.
pub fn count_column_pair<T: GenotypeCode>(
    markers: &[T],
    n_markers: usize,
    n_individuals: usize,
    j: usize,
    l: usize,
) -> (r: Option<PairCounts>)
    ensures
        r is Some <==> shape_ok(markers@.len() as int, n_markers as int, n_individuals as int)
            && j < n_markers && l < n_markers,
        r is Some ==> r->0.tallies(
            column(codes(markers@), n_markers as int, n_individuals as int, j as int),
            column(codes(markers@), n_markers as int, n_individuals as int, l as int),
        ),
{
    if !crate::genotype::check_shape(markers.len(), n_markers, n_individuals) {
        return None;
    }
    if j >= n_markers || l >= n_markers {
        return None;
    }
    proof {
        lemma_cell_in_buffer(n_individuals - 1, j as int, n_markers as int, n_individuals as int);
        lemma_cell_in_buffer(n_individuals - 1, l as int, n_markers as int, n_individuals as int);
    }
    let c = count_strided(markers, j, l, n_markers, n_individuals);
    proof {
        let cs = codes(markers@);
        assert(strided(cs, j as int, n_markers as int, n_individuals as int) =~= column(
            cs,
            n_markers as int,
            n_individuals as int,
            j as int,
        ));
        assert(strided(cs, l as int, n_markers as int, n_individuals as int) =~= column(
            cs,
            n_markers as int,
            n_individuals as int,
            l as int,
        ));
    }
    Some(c)
}

/// The joint counts of two runs of calls, or `None` where they differ in length.
#[verifier::rlimit(40)]
pub fn count_pairs<T: GenotypeCode>(first: &[T], second: &[T]) -> (r: Option<PairCounts>)
    ensures
        r is Some <==> first@.len() == second@.len(),
        r is Some ==> r->0.tallies(codes(first@), codes(second@)),
{
    let len = first.len();
    if second.len() != len {
        return None;
    }
    let ghost xs = codes(first@);
    let ghost ys = codes(second@);
    let mut c = PairCounts {
        n00: 0,
        n01: 0,
        n02: 0,
        n10: 0,
        n11: 0,
        n12: 0,
        n20: 0,
        n21: 0,
        n22: 0,
    };
    let mut p: usize = 0;
    while p < len
        invariant
            p <= len,
            len == first@.len(),
            len == second@.len(),
            xs == codes(first@),
            ys == codes(second@),
            c.tallies_first(xs, ys, p as int),
        decreases len - p,
    {
        proof {
            lemma_joint_bounded(xs, ys, p as int, 0, 0);
            lemma_joint_bounded(xs, ys, p as int, 0, 1);
            lemma_joint_bounded(xs, ys, p as int, 0, 2);
            lemma_joint_bounded(xs, ys, p as int, 1, 0);
            lemma_joint_bounded(xs, ys, p as int, 1, 1);
            lemma_joint_bounded(xs, ys, p as int, 1, 2);
            lemma_joint_bounded(xs, ys, p as int, 2, 0);
            lemma_joint_bounded(xs, ys, p as int, 2, 1);
            lemma_joint_bounded(xs, ys, p as int, 2, 2);
        }
        let dx = first[p].dosage();
        let dy = second[p].dosage();
        match (dx, dy) {
            (Some(0), Some(0)) => {
                c.n00 = c.n00 + 1;
            },
            (Some(0), Some(1)) => {
                c.n01 = c.n01 + 1;
            },
            (Some(0), Some(_)) => {
                c.n02 = c.n02 + 1;
            },
            (Some(1), Some(0)) => {
                c.n10 = c.n10 + 1;
            },
            (Some(1), Some(1)) => {
                c.n11 = c.n11 + 1;
            },
            (Some(1), Some(_)) => {
                c.n12 = c.n12 + 1;
            },
            (Some(_), Some(0)) => {
                c.n20 = c.n20 + 1;
            },
            (Some(_), Some(1)) => {
                c.n21 = c.n21 + 1;
            },
            (Some(_), Some(_)) => {
                c.n22 = c.n22 + 1;
            },
            _ => {},
        }
        p = p + 1;
    }
    Some(c)
}

} // verus!
