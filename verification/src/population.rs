//! Populations: the labels that occur among the samples, and the counts of a marker
//! within each population.

use crate::genotype::{
    check_shape, codes, column, lemma_cell_in_buffer, lemma_occurrences_bounded, occurrences,
    shape_ok, GenotypeCode, MarkerCounts,
};
use vstd::prelude::*;

verus! {

/// Each entry is smaller than the next.
pub open spec fn strictly_increasing(labels: Seq<i32>) -> bool {
    forall|a: int, b: int| 0 <= a < b < labels.len() ==> labels[a] < labels[b]
}

/// The column as one population sees it: the calls of its own samples, and a missing
/// code in place of every other call.
pub open spec fn within_population(col: Seq<int>, ids: Seq<i32>, label: i32) -> Seq<int> {
    Seq::new(
        col.len(),
        |i: int|
            if ids[i] == label {
                col[i]
            } else {
                -1
            },
    )
}

/// Number of populations, among the first `n` counted, with at least one valid call.
pub open spec fn called_among(counts: Seq<MarkerCounts>, n: int) -> nat
    decreases n,
{
    if n <= 0 {
        0
    } else {
        called_among(counts, n - 1) + if counts[n - 1].valid_spec() > 0 {
            1nat
        } else {
            0nat
        }
    }
}

/// The population labels that occur among the samples, each once, in increasing order.
pub struct PopulationIndex {
    labels: Vec<i32>,
}

impl View for PopulationIndex {
    type V = Seq<i32>;

    closed spec fn view(&self) -> Seq<i32> {
        self.labels@
    }
}

impl PopulationIndex {
    #[verifier::type_invariant]
    spec fn well_formed(self) -> bool {
        strictly_increasing(self.labels@)
    }

    /// Collects the labels that occur in `ids`.
    #[verifier::rlimit(40)]
    pub fn of(ids: &[i32]) -> (index: PopulationIndex)
        ensures
            strictly_increasing(index@),
            forall|v: i32| index@.contains(v) <==> ids@.contains(v),
    {
        let mut labels: Vec<i32> = Vec::new();
        let mut i: usize = 0;
        while i < ids.len()
            invariant
                i <= ids@.len(),
                strictly_increasing(labels@),
                forall|v: i32| labels@.contains(v) <==> ids@.take(i as int).contains(v),
            decreases ids@.len() - i,
        {
            let id = ids[i];
            let ghost before = labels@;
            let mut at: usize = 0;
            while at < labels.len() && labels[at] < id
                invariant
                    at <= labels@.len(),
                    labels@ == before,
                    forall|k: int| 0 <= k < at ==> labels@[k] < id,
                decreases labels@.len() - at,
            {
                at = at + 1;
            }
            let present = at < labels.len() && labels[at] == id;
            if !present {
                labels.insert(at, id);
            }
            proof {
                let seen = ids@.take(i as int);
                let next = ids@.take(i + 1);
                assert(next =~= seen.push(id));
                assert forall|v: i32| labels@.contains(v) <==> next.contains(v) by {
                    if labels@.contains(v) {
                        let k = choose|k: int| 0 <= k < labels@.len() && labels@[k] == v;
                        if present {
                            assert(before.contains(v));
                            let p = choose|p: int| 0 <= p < seen.len() && seen[p] == v;
                            assert(next[p] == v);
                        } else if k == at {
                            assert(next[i as int] == v);
                        } else {
                            if k < at {
                                assert(before[k] == v);
                            } else {
                                assert(before[k - 1] == v);
                            }
                            assert(before.contains(v));
                            let p = choose|p: int| 0 <= p < seen.len() && seen[p] == v;
                            assert(next[p] == v);
                        }
                    }
                    if next.contains(v) {
                        let p = choose|p: int| 0 <= p < next.len() && next[p] == v;
                        if p == i {
                            assert(labels@[at as int] == v);
                        } else {
                            assert(seen[p] == v);
                            assert(before.contains(v));
                            let k = choose|k: int| 0 <= k < before.len() && before[k] == v;
                            if present || k < at {
                                assert(labels@[k] == v);
                            } else {
                                assert(labels@[k + 1] == v);
                            }
                        }
                    }
                }
            }
            i = i + 1;
        }
        proof {
            assert(ids@.take(ids@.len() as int) =~= ids@);
        }
        PopulationIndex { labels }
    }

    /// Number of populations.
    pub fn len(&self) -> (n: usize)
        ensures
            n == self@.len(),
    {
        self.labels.len()
    }

    /// The labels, in increasing order, so that none occurs twice.
    pub fn labels(&self) -> (labels: Vec<i32>)
        ensures
            labels@ == self@,
            strictly_increasing(self@),
    {
        proof {
            use_type_invariant(self);
        }
        let mut out: Vec<i32> = Vec::new();
        let mut k: usize = 0;
        while k < self.labels.len()
            invariant
                k <= self.labels@.len(),
                out@ == self.labels@.take(k as int),
            decreases self.labels@.len() - k,
        {
            out.push(self.labels[k]);
            proof {
                assert(self.labels@.take(k + 1) =~= self.labels@.take(k as int).push(
                    self.labels@[k as int],
                ));
            }
            k = k + 1;
        }
        proof {
            assert(self.labels@.take(self.labels@.len() as int) =~= self.labels@);
        }
        out
    }

    /// Where a label stands in the index, if it is one of its populations.
    pub fn position(&self, label: i32) -> (at: Option<usize>)
        ensures
            at matches Some(k) ==> k < self@.len() && self@[k as int] == label,
            at is None ==> !self@.contains(label),
    {
        let mut k: usize = 0;
        while k < self.labels.len()
            invariant
                k <= self.labels@.len(),
                forall|l: int| 0 <= l < k ==> self.labels@[l] != label,
            decreases self.labels@.len() - k,
        {
            if self.labels[k] == label {
                return Some(k);
            }
            k = k + 1;
        }
        None
    }

    /// The class counts of marker `j` within each population, in the order of the index;
    /// or `None` where the buffer is not a matrix of the declared shape, the samples do
    /// not each have a label, or the marker is not one of the columns. Samples whose
    /// label is not in the index enter no count.
    #[verifier::rlimit(40)]
    pub fn marker_counts<T: GenotypeCode>(
        &self,
        markers: &[T],
        population_ids: &[i32],
        n_markers: usize,
        n_samples: usize,
        j: usize,
    ) -> (r: Option<Vec<MarkerCounts>>)
        ensures
            r is Some <==> shape_ok(markers@.len() as int, n_markers as int, n_samples as int)
                && population_ids@.len() == n_samples && j < n_markers,
            r matches Some(counts) ==> {
                &&& counts@.len() == self@.len()
                &&& forall|k: int|
                    0 <= k < self@.len() ==> (#[trigger] counts@[k]).tallies(
                        within_population(
                            column(codes(markers@), n_markers as int, n_samples as int, j as int),
                            population_ids@,
                            self@[k],
                        ),
                    )
            },
    {
        if !check_shape(markers.len(), n_markers, n_samples) {
            return None;
        }
        if population_ids.len() != n_samples || j >= n_markers {
            return None;
        }
        proof {
            use_type_invariant(self);
        }
        let ghost col = column(codes(markers@), n_markers as int, n_samples as int, j as int);
        let ghost ids = population_ids@;
        let n_pops = self.labels.len();
        let mut counts: Vec<MarkerCounts> = Vec::new();
        let mut k: usize = 0;
        while k < n_pops
            invariant
                k <= n_pops,
                n_pops == self.labels@.len(),
                counts@.len() == k,
                col.len() == n_samples,
                forall|l: int|
                    0 <= l < k ==> (#[trigger] counts@[l]).tallies(
                        within_population(col, ids, self.labels@[l]).take(0),
                    ),
            decreases n_pops - k,
        {
            counts.push(MarkerCounts { hom_ref: 0, het: 0, hom_alt: 0 });
            proof {
                assert(within_population(col, ids, self.labels@[k as int]).take(0).len() == 0);
            }
            k = k + 1;
        }
        let mut i: usize = 0;
        while i < n_samples
            invariant
                i <= n_samples,
                j < n_markers,
                markers@.len() == n_markers * n_samples,
                n_markers * n_samples <= usize::MAX,
                ids == population_ids@,
                ids.len() == n_samples,
                col == column(codes(markers@), n_markers as int, n_samples as int, j as int),
                n_pops == self.labels@.len(),
                strictly_increasing(self.labels@),
                counts@.len() == n_pops,
                forall|l: int|
                    0 <= l < n_pops ==> (#[trigger] counts@[l]).tallies(
                        within_population(col, ids, self.labels@[l]).take(i as int),
                    ),
            decreases n_samples - i,
        {
            proof {
                lemma_cell_in_buffer(i as int, j as int, n_markers as int, n_samples as int);
            }
            let dosage = markers[i * n_markers + j].dosage();
            let at = self.position(population_ids[i]);
            let ghost before = counts@;
            match (dosage, at) {
                (Some(d), Some(p)) => {
                    let mut c = counts[p];
                    proof {
                        let seen = within_population(col, ids, self.labels@[p as int]).take(
                            i as int,
                        );
                        lemma_occurrences_bounded(seen, 0);
                        lemma_occurrences_bounded(seen, 1);
                        lemma_occurrences_bounded(seen, 2);
                    }
                    if d == 0 {
                        c.hom_ref = c.hom_ref + 1;
                    } else if d == 1 {
                        c.het = c.het + 1;
                    } else {
                        c.hom_alt = c.hom_alt + 1;
                    }
                    counts.set(p, c);
                },
                _ => {},
            }
            proof {
                assert forall|l: int| 0 <= l < n_pops implies (#[trigger] counts@[l]).tallies(
                    within_population(col, ids, self.labels@[l]).take(i + 1),
                ) by {
                    let whole = within_population(col, ids, self.labels@[l]);
                    let next = whole.take(i + 1);
                    assert(next.drop_last() =~= whole.take(i as int));
                    assert(before[l].tallies(whole.take(i as int)));
                    assert(col[i as int] == markers@[i * n_markers + j].code());
                    if self.labels@[l] == ids[i as int] {
                        assert(next.last() == col[i as int]);
                        assert(at is Some);
                        let p = at->0 as int;
                        if p != l {
                            if p < l {
                                assert(self.labels@[p] < self.labels@[l]);
                            } else {
                                assert(self.labels@[l] < self.labels@[p]);
                            }
                        }
                    } else {
                        assert(next.last() == -1);
                        if at is Some {
                            assert(at->0 != l);
                        }
                    }
                }
            }
            i = i + 1;
        }
        proof {
            assert forall|l: int| 0 <= l < n_pops implies (#[trigger] counts@[l]).tallies(
                within_population(col, ids, self.labels@[l]),
            ) by {
                let whole = within_population(col, ids, self.labels@[l]);
                assert(whole.take(n_samples as int) =~= whole);
            }
        }
        Some(counts)
    }
}

/// Number of populations with at least one valid call at the marker counted.
pub fn populations_called(counts: &Vec<MarkerCounts>) -> (called: usize)
    ensures
        called == called_among(counts@, counts@.len() as int),
{
    let mut called: usize = 0;
    let mut k: usize = 0;
    while k < counts.len()
        invariant
            k <= counts@.len(),
            called == called_among(counts@, k as int),
            called <= k,
        decreases counts@.len() - k,
    {
        if counts[k].valid() > 0 {
            called = called + 1;
        }
        k = k + 1;
    }
    called
}

} // verus!
