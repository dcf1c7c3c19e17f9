//! What the genomic relationship matrix of a genotype matrix is made from.
//!
//! The matrix is `G = Z Zᵗ / scale`, where `Z` holds the centred calls and `scale` is the
//! sum of `2 p (1 - p)` over the polymorphic markers, `p` being a marker's allele
//! frequency. Everything that decides the outcome before the first floating-point
//! operation is settled here: whether the input is a matrix at all, how many cells the
//! result has, the counts that the frequencies are made of, and whether `scale` is zero.

use crate::genotype::{
    cell, centred_numerator, check_shape, codes, column, lemma_uniform_marker, marker_counts,
    occurrences, polymorphic, shape_ok, uniform, GenotypeCode, MarkerCounts,
};
use vstd::prelude::*;

verus! {

/// The buffer is a genotype matrix of the declared shape and the square matrix over its
/// individuals has an addressable number of cells.
pub open spec fn grm_shape_ok(len: int, n_markers: int, n_individuals: int) -> bool {
    &&& shape_ok(len, n_markers, n_individuals)
    &&& n_individuals * n_individuals <= usize::MAX
}

/// Some marker of the matrix is polymorphic, so that `scale` is not zero.
pub open spec fn any_polymorphic(cells: Seq<int>, n_markers: int, n_individuals: int) -> bool {
    exists|j: int|
        0 <= j < n_markers && polymorphic(#[trigger] column(cells, n_markers, n_individuals, j))
}

/// Number of polymorphic markers among the first `n` markers counted.
pub open spec fn polymorphic_among(counts: Seq<MarkerCounts>, n: int) -> nat
    decreases n,
{
    if n <= 0 {
        0
    } else {
        polymorphic_among(counts, n - 1) + if counts[n - 1].polymorphic_spec() {
            1nat
        } else {
            0nat
        }
    }
}

/// What the relationship matrix of an input is.
#[derive(Debug, Clone, PartialEq, Eq)]
pub enum GrmPlan {
    /// The input is no matrix of the declared shape: the result is empty.
    Empty,
    /// No marker is polymorphic: the result is the zero matrix of `cells` cells.
    Zero { cells: usize },
    /// The result has `cells` cells and is computed from the calls and these counts,
    /// one entry per marker.
    Scaled { cells: usize, counts: Vec<MarkerCounts> },
}

/// Number of cells of the relationship matrix, or `None` where the input has to be
/// rejected: a dimension is zero, the buffer length is not `n_markers * n_individuals`,
/// or `n_individuals * n_individuals` exceeds what can be addressed.
pub fn grm_cells(len: usize, n_markers: usize, n_individuals: usize) -> (cells: Option<usize>)
    ensures
        cells is Some <==> grm_shape_ok(len as int, n_markers as int, n_individuals as int),
        cells is Some ==> cells->0 == n_individuals * n_individuals,
{
    if !check_shape(len, n_markers, n_individuals) {
        return None;
    }
    n_individuals.checked_mul(n_individuals)
}

/// Whether any of the counted markers is polymorphic.
pub fn has_polymorphic(counts: &Vec<MarkerCounts>) -> (found: bool)
    ensures
        found == exists|j: int|
            0 <= j < counts@.len() && (#[trigger] counts@[j]).polymorphic_spec(),
{
    let mut j: usize = 0;
    while j < counts.len()
        invariant
            j <= counts@.len(),
            forall|k: int| 0 <= k < j ==> !(#[trigger] counts@[k]).polymorphic_spec(),
        decreases counts@.len() - j,
    {
        if counts[j].is_polymorphic() {
            return true;
        }
        j = j + 1;
    }
    false
}

/// Number of polymorphic markers: those that enter `scale`.
pub fn markers_used(counts: &Vec<MarkerCounts>) -> (used: usize)
    ensures
        used == polymorphic_among(counts@, counts@.len() as int),
{
    let mut used: usize = 0;
    let mut j: usize = 0;
    while j < counts.len()
        invariant
            j <= counts@.len(),
            used == polymorphic_among(counts@, j as int),
            used <= j,
        decreases counts@.len() - j,
    {
        if counts[j].is_polymorphic() {
            used = used + 1;
        }
        j = j + 1;
    }
    used
}

/// Decides what the relationship matrix of `markers` is.
///
/// A buffer whose length is not `n_individuals * n_markers` is rejected whole, never
/// truncated or padded; so is one with a zero dimension or with more individuals than a
/// square matrix can be addressed for. Calls outside 0, 1, 2 enter no count.
pub fn plan_grm<T: GenotypeCode>(markers: &[T], n_markers: usize, n_individuals: usize) -> (plan:
    GrmPlan)
    ensures
        plan is Empty <==> !grm_shape_ok(
            markers@.len() as int,
            n_markers as int,
            n_individuals as int,
        ),
        plan is Zero <==> grm_shape_ok(
            markers@.len() as int,
            n_markers as int,
            n_individuals as int,
        ) && !any_polymorphic(codes(markers@), n_markers as int, n_individuals as int),
        plan matches GrmPlan::Zero { cells } ==> cells == n_individuals * n_individuals,
        plan matches GrmPlan::Scaled { cells, counts } ==> {
            &&& cells == n_individuals * n_individuals
            &&& counts@.len() == n_markers
            &&& forall|j: int|
                0 <= j < n_markers ==> (#[trigger] counts@[j]).tallies(
                    column(codes(markers@), n_markers as int, n_individuals as int, j),
                )
        },
{
    let cells = match grm_cells(markers.len(), n_markers, n_individuals) {
        Some(cells) => cells,
        None => {
            return GrmPlan::Empty;
        },
    };
    let counts = marker_counts(markers, n_markers, n_individuals);
    let found = has_polymorphic(&counts);
    proof {
        let cs = codes(markers@);
        let nm = n_markers as int;
        let ni = n_individuals as int;
        if found {
            let j = choose|j: int| 0 <= j < counts@.len() && (#[trigger] counts@[j]).polymorphic_spec();
            assert(counts@[j].tallies(column(cs, nm, ni, j)));
            assert(polymorphic(column(cs, nm, ni, j)));
        } else {
            assert forall|j: int| 0 <= j < nm implies !polymorphic(
                #[trigger] column(cs, nm, ni, j),
            ) by {
                assert(counts@[j].tallies(column(cs, nm, ni, j)));
                assert(!counts@[j].polymorphic_spec());
            }
        }
    }
    if found {
        GrmPlan::Scaled { cells, counts }
    } else {
        GrmPlan::Zero { cells }
    }
}

/// A marker matrix in which every marker is uniform (one value for all individuals, or
/// no valid call at all) centres to the zero matrix: every entry of `Z` is zero, and so
/// is every entry of `Z Zᵗ`. Where moreover no marker is heterozygous throughout, no
/// marker is polymorphic and `scale` is zero.
pub proof fn lemma_uniform_markers(cells: Seq<int>, n_markers: int, n_individuals: int)
    requires
        cells.len() == n_markers * n_individuals,
        forall|j: int|
            0 <= j < n_markers ==> uniform(#[trigger] column(cells, n_markers, n_individuals, j)),
    ensures
        forall|i: int, j: int|
            0 <= i < n_individuals && 0 <= j < n_markers ==> centred_numerator(
                #[trigger] cell(cells, n_markers, i, j),
                column(cells, n_markers, n_individuals, j),
            ) == 0,
        (forall|j: int|
            0 <= j < n_markers ==> occurrences(
                #[trigger] column(cells, n_markers, n_individuals, j),
                1,
            ) == 0) ==> !any_polymorphic(cells, n_markers, n_individuals),
{
    assert forall|i: int, j: int| 0 <= i < n_individuals && 0 <= j < n_markers implies
        centred_numerator(
        #[trigger] cell(cells, n_markers, i, j),
        column(cells, n_markers, n_individuals, j),
    ) == 0 by {
        let col = column(cells, n_markers, n_individuals, j);
        lemma_uniform_marker(col);
        assert(col[i] == cell(cells, n_markers, i, j));
    }
    if forall|j: int|
        0 <= j < n_markers ==> occurrences(
            #[trigger] column(cells, n_markers, n_individuals, j),
            1,
        ) == 0 {
        assert forall|j: int| 0 <= j < n_markers implies !polymorphic(
            #[trigger] column(cells, n_markers, n_individuals, j),
        ) by {
            lemma_uniform_marker(column(cells, n_markers, n_individuals, j));
        }
    }
}

} // verus!
