//! Genotype calls and the per-marker counts that every statistic starts from.
//!
//! A genotype matrix is a flat row-major buffer: one row per individual, one column per
//! marker. A call is valid when it is a diploid dosage (0, 1 or 2); every other code,
//! whatever sentinel it is, counts as missing and enters no count.

use vstd::prelude::*;

verus! {

/// How a single-locus genotype is turned into a regressor.
#[derive(Clone, Copy, Debug, PartialEq, Eq)]
pub enum GenotypeEncoding {
    /// 0, 1, 2
    Additive,
    /// 0, 1, 1
    Dominant,
    /// 0, 0, 1
    Recessive,
}

/// The dosage that a stored code stands for, if it is a valid call.
pub open spec fn dosage_of(code: int) -> Option<u8> {
    if 0 <= code <= 2 {
        Some(code as u8)
    } else {
        None
    }
}

/// A call is valid when it is one of the dosages 0, 1, 2.
pub open spec fn is_dosage(code: int) -> bool {
    0 <= code <= 2
}

/// An element type of a genotype buffer.
pub trait GenotypeCode: Sized {
    /// The integer that the stored code denotes.
    spec fn code(&self) -> int;

    /// The dosage of a valid call, `None` for a missing one.
    fn dosage(&self) -> (d: Option<u8>)
        ensures
            d == dosage_of(self.code()),
    ;
}

impl GenotypeCode for u8 {
    open spec fn code(&self) -> int {
        *self as int
    }

    fn dosage(&self) -> (d: Option<u8>) {
        if *self <= 2 {
            Some(*self)
        } else {
            None
        }
    }
}

impl GenotypeCode for i32 {
    open spec fn code(&self) -> int {
        *self as int
    }

    fn dosage(&self) -> (d: Option<u8>) {
        if 0 <= *self && *self <= 2 {
            Some(*self as u8)
        } else {
            None
        }
    }
}

/// The integers that a buffer holds.
pub open spec fn codes<T: GenotypeCode>(buf: Seq<T>) -> Seq<int> {
    Seq::new(buf.len(), |i: int| buf[i].code())
}

/// The cell of individual `i` at marker `j` in a row-major matrix of `n_markers` columns.
pub open spec fn cell<T>(cells: Seq<T>, n_markers: int, i: int, j: int) -> T {
    cells[i * n_markers + j]
}

/// Column `j` of a row-major matrix of `n_individuals` rows and `n_markers` columns.
pub open spec fn column(cells: Seq<int>, n_markers: int, n_individuals: int, j: int) -> Seq<int> {
    Seq::new(n_individuals as nat, |i: int| cell(cells, n_markers, i, j))
}

/// How often `v` occurs in `col`.
pub open spec fn occurrences(col: Seq<int>, v: int) -> nat
    decreases col.len(),
{
    if col.len() == 0 {
        0
    } else {
        occurrences(col.drop_last(), v) + if col.last() == v {
            1nat
        } else {
            0nat
        }
    }
}

/// Number of valid calls in a column.
pub open spec fn valid_count(col: Seq<int>) -> nat {
    occurrences(col, 0) + occurrences(col, 1) + occurrences(col, 2)
}

/// Sum of the valid calls in a column.
pub open spec fn dosage_sum(col: Seq<int>) -> nat {
    occurrences(col, 1) + 2 * occurrences(col, 2)
}

/// Sum of the squares of the valid calls in a column.
pub open spec fn square_sum(col: Seq<int>) -> nat {
    occurrences(col, 1) + 4 * occurrences(col, 2)
}

/// The allele frequency `dosage_sum / (2 * valid_count)` lies strictly between 0 and 1.
/// A column without a valid call has frequency 0 and is not polymorphic.
pub open spec fn polymorphic(col: Seq<int>) -> bool {
    0 < dosage_sum(col) < 2 * valid_count(col)
}

/// The valid calls of a marker, counted by genotype class.
#[derive(Clone, Copy, Debug, PartialEq, Eq, Structural)]
pub struct MarkerCounts {
    /// Calls with dosage 0.
    pub hom_ref: usize,
    /// Calls with dosage 1.
    pub het: usize,
    /// Calls with dosage 2.
    pub hom_alt: usize,
}

impl MarkerCounts {
    /// These are the class counts of `col`.
    pub open spec fn tallies(self, col: Seq<int>) -> bool {
        &&& self.hom_ref == occurrences(col, 0)
        &&& self.het == occurrences(col, 1)
        &&& self.hom_alt == occurrences(col, 2)
    }

    pub open spec fn valid_spec(self) -> int {
        self.hom_ref + self.het + self.hom_alt
    }

    pub open spec fn dosage_sum_spec(self) -> int {
        self.het + 2 * self.hom_alt
    }

    pub open spec fn square_sum_spec(self) -> int {
        self.het + 4 * self.hom_alt
    }

    pub open spec fn polymorphic_spec(self) -> bool {
        0 < self.dosage_sum_spec() < 2 * self.valid_spec()
    }

    /// Number of valid calls.
    pub fn valid(&self) -> (n: u128)
        ensures
            n == self.valid_spec(),
    {
        self.hom_ref as u128 + self.het as u128 + self.hom_alt as u128
    }

    /// Sum of the valid calls.
    pub fn dosage_sum(&self) -> (s: u128)
        ensures
            s == self.dosage_sum_spec(),
    {
        self.het as u128 + 2 * (self.hom_alt as u128)
    }

    /// Sum of the squares of the valid calls.
    pub fn square_sum(&self) -> (s: u128)
        ensures
            s == self.square_sum_spec(),
    {
        self.het as u128 + 4 * (self.hom_alt as u128)
    }

    /// Whether the marker's allele frequency lies strictly between 0 and 1.
    pub fn is_polymorphic(&self) -> (b: bool)
        ensures
            b == self.polymorphic_spec(),
    {
        self.het > 0 || (self.hom_ref > 0 && self.hom_alt > 0)
    }
}

/// A count cannot exceed the length of the column.
pub proof fn lemma_occurrences_bounded(col: Seq<int>, v: int)
    ensures
        occurrences(col, v) <= col.len(),
    decreases col.len(),
{
    if col.len() > 0 {
        lemma_occurrences_bounded(col.drop_last(), v);
    }
}

/// Counting in a concatenation is counting in both parts.
pub proof fn lemma_occurrences_concat(a: Seq<int>, b: Seq<int>, v: int)
    ensures
        occurrences(a + b, v) == occurrences(a, v) + occurrences(b, v),
    decreases b.len(),
{
    if b.len() == 0 {
        assert(a + b =~= a);
    } else {
        assert((a + b).drop_last() =~= a + b.drop_last());
        lemma_occurrences_concat(a, b.drop_last(), v);
    }
}

/// The centred entry of a call is `centred_numerator / valid_count`: the call minus twice
/// the marker's allele frequency for a valid call, zero for a missing one.
pub open spec fn centred_numerator(code: int, col: Seq<int>) -> int {
    if is_dosage(code) {
        code * valid_count(col) - dosage_sum(col)
    } else {
        0
    }
}

/// All valid calls of the column carry one and the same dosage. A column that repeats one
/// value for every individual is such a column, and so is one without a valid call.
pub open spec fn uniform(col: Seq<int>) -> bool {
    forall|i: int, k: int|
        0 <= i < col.len() && 0 <= k < col.len() && is_dosage(#[trigger] col[i]) && is_dosage(
            #[trigger] col[k],
        ) ==> col[i] == col[k]
}

/// A missing code in place of a call changes every count exactly as leaving the call out:
/// the two columns have the same class counts, hence the same number of valid calls, the
/// same sum and the same frequency.
pub proof fn lemma_missing_call_is_omitted(col: Seq<int>, k: int, missing: int)
    requires
        0 <= k < col.len(),
        !is_dosage(missing),
    ensures
        forall|v: int|
            is_dosage(v) ==> #[trigger] occurrences(col.update(k, missing), v) == occurrences(
                col.remove(k),
                v,
            ),
        valid_count(col.update(k, missing)) == valid_count(col.remove(k)),
        dosage_sum(col.update(k, missing)) == dosage_sum(col.remove(k)),
        square_sum(col.update(k, missing)) == square_sum(col.remove(k)),
        polymorphic(col.update(k, missing)) == polymorphic(col.remove(k)),
{
    let head = col.take(k);
    let tail = col.skip(k + 1);
    assert(col.update(k, missing) =~= head + seq![missing] + tail);
    assert(col.remove(k) =~= head + tail);
    assert forall|v: int| is_dosage(v) implies #[trigger] occurrences(col.update(k, missing), v)
        == occurrences(col.remove(k), v) by {
        lemma_occurrences_concat(head, seq![missing], v);
        lemma_occurrences_concat(head + seq![missing], tail, v);
        lemma_occurrences_concat(head, tail, v);
        assert(seq![missing].drop_last() =~= Seq::<int>::empty());
        assert(occurrences(seq![missing], v) == 0) by {
            reveal_with_fuel(occurrences, 2);
        }
    }
    assert(is_dosage(0) && is_dosage(1) && is_dosage(2));
}

/// In a uniform column the count of every dosage but the shared one is zero.
proof fn lemma_uniform_counts(col: Seq<int>, v: int, w: int)
    requires
        uniform(col),
        is_dosage(v),
        is_dosage(w),
        v != w,
        occurrences(col, v) > 0,
    ensures
        occurrences(col, w) == 0,
    decreases col.len(),
{
    if col.len() > 0 {
        let init = col.drop_last();
        assert forall|i: int, k: int|
            0 <= i < init.len() && 0 <= k < init.len() && is_dosage(#[trigger] init[i])
                && is_dosage(#[trigger] init[k]) implies init[i] == init[k] by {
            assert(init[i] == col[i] && init[k] == col[k]);
        }
        if occurrences(init, v) > 0 {
            lemma_uniform_counts(init, v, w);
            if col.last() == w {
                lemma_occurrence_witness(init, v);
                let i = choose|i: int| 0 <= i < init.len() && init[i] == v;
                assert(col[i] == v);
                assert(col[col.len() - 1] == w);
            }
        } else {
            assert(col.last() == v);
            if occurrences(init, w) > 0 {
                lemma_occurrence_witness(init, w);
                let i = choose|i: int| 0 <= i < init.len() && init[i] == w;
                assert(col[i] == w);
                assert(col[col.len() - 1] == v);
            }
        }
    }
}

/// A value that is counted occurs somewhere.
proof fn lemma_occurrence_witness(col: Seq<int>, v: int)
    requires
        occurrences(col, v) > 0,
    ensures
        exists|i: int| 0 <= i < col.len() && col[i] == v,
    decreases col.len(),
{
    if col.last() == v {
        assert(col[col.len() - 1] == v);
    } else {
        lemma_occurrence_witness(col.drop_last(), v);
        let i = choose|i: int| 0 <= i < col.drop_last().len() && col.drop_last()[i] == v;
        assert(col[i] == v);
    }
}

/// A value that occurs somewhere is counted.
proof fn lemma_occurs_counted(col: Seq<int>, i: int)
    requires
        0 <= i < col.len(),
    ensures
        occurrences(col, col[i]) > 0,
    decreases col.len(),
{
    if i < col.len() - 1 {
        lemma_occurs_counted(col.drop_last(), i);
    }
}

/// In a marker whose valid calls all carry one dosage, every call sits at the marker's
/// mean: each centred entry is zero. Where that dosage is 0 or 2, or where no call is
/// valid, the allele frequency is 0 or 1 and the marker is not polymorphic.
pub proof fn lemma_uniform_marker(col: Seq<int>)
    requires
        uniform(col),
    ensures
        forall|i: int| 0 <= i < col.len() ==> centred_numerator(#[trigger] col[i], col) == 0,
        occurrences(col, 1) == 0 ==> !polymorphic(col),
{
    assert forall|i: int| 0 <= i < col.len() implies centred_numerator(#[trigger] col[i], col)
        == 0 by {
        let c = col[i];
        if is_dosage(c) {
            lemma_occurs_counted(col, i);
            if c != 0 {
                lemma_uniform_counts(col, c, 0);
            }
            if c != 1 {
                lemma_uniform_counts(col, c, 1);
            }
            if c != 2 {
                lemma_uniform_counts(col, c, 2);
            }
            assert(c * valid_count(col) == dosage_sum(col)) by (nonlinear_arith)
                requires
                    valid_count(col) == occurrences(col, 0) + occurrences(col, 1) + occurrences(
                        col,
                        2,
                    ),
                    dosage_sum(col) == occurrences(col, 1) + 2 * occurrences(col, 2),
                    c == 0 || c == 1 || c == 2,
                    c != 0 ==> occurrences(col, 0) == 0,
                    c != 1 ==> occurrences(col, 1) == 0,
                    c != 2 ==> occurrences(col, 2) == 0,
            ;
        }
    }
    if occurrences(col, 1) == 0 && occurrences(col, 0) > 0 {
        lemma_uniform_counts(col, 0, 2);
    }
}

/// A cell of a row-major matrix lies inside its buffer.
pub proof fn lemma_cell_in_buffer(i: int, j: int, n_markers: int, n_individuals: int)
    requires
        0 <= i < n_individuals,
        0 <= j < n_markers,
    ensures
        0 <= i * n_markers + j < n_markers * n_individuals,
{
    assert(0 <= i * n_markers + j < n_markers * n_individuals) by (nonlinear_arith)
        requires
            0 <= i < n_individuals,
            0 <= j < n_markers,
    {
        assert((i + 1) * n_markers <= n_individuals * n_markers);
    }
}

/// Two cells of a row-major matrix share a place in the buffer only if they are the same
/// cell.
pub proof fn lemma_cell_injective(i: int, j: int, r: int, k: int, n_markers: int)
    requires
        0 <= j < n_markers,
        0 <= k < n_markers,
        i * n_markers + j == r * n_markers + k,
    ensures
        i == r,
        j == k,
{
    assert(i == r) by (nonlinear_arith)
        requires
            0 <= j < n_markers,
            0 <= k < n_markers,
            i * n_markers + j == r * n_markers + k,
    {
        if i < r {
            assert((i + 1) * n_markers <= r * n_markers);
        }
        if r < i {
            assert((r + 1) * n_markers <= i * n_markers);
        }
    }
}

/// A missing code in place of the call of individual `i` at marker `j` leaves every other
/// marker's column as it was, and gives marker `j` the counts of its column without that
/// individual: the call is left out of the number of valid calls, of the sum and of the
/// frequency, and of nothing else.
pub proof fn lemma_missing_call_in_matrix(
    cells: Seq<int>,
    n_markers: int,
    n_individuals: int,
    i: int,
    j: int,
    missing: int,
)
    requires
        cells.len() == n_markers * n_individuals,
        0 <= i < n_individuals,
        0 <= j < n_markers,
        !is_dosage(missing),
    ensures
        forall|k: int|
            0 <= k < n_markers && k != j ==> #[trigger] column(
                cells.update(i * n_markers + j, missing),
                n_markers,
                n_individuals,
                k,
            ) == column(cells, n_markers, n_individuals, k),
        column(cells.update(i * n_markers + j, missing), n_markers, n_individuals, j) == column(
            cells,
            n_markers,
            n_individuals,
            j,
        ).update(i, missing),
        valid_count(column(cells.update(i * n_markers + j, missing), n_markers, n_individuals, j))
            == valid_count(column(cells, n_markers, n_individuals, j).remove(i)),
        dosage_sum(column(cells.update(i * n_markers + j, missing), n_markers, n_individuals, j))
            == dosage_sum(column(cells, n_markers, n_individuals, j).remove(i)),
        polymorphic(column(cells.update(i * n_markers + j, missing), n_markers, n_individuals, j))
            == polymorphic(column(cells, n_markers, n_individuals, j).remove(i)),
{
    let changed = cells.update(i * n_markers + j, missing);
    lemma_cell_in_buffer(i, j, n_markers, n_individuals);
    assert forall|k: int| 0 <= k < n_markers && k != j implies #[trigger] column(
        changed,
        n_markers,
        n_individuals,
        k,
    ) == column(cells, n_markers, n_individuals, k) by {
        assert forall|r: int| 0 <= r < n_individuals implies cell(changed, n_markers, r, k)
            == cell(cells, n_markers, r, k) by {
            lemma_cell_in_buffer(r, k, n_markers, n_individuals);
            if r * n_markers + k == i * n_markers + j {
                lemma_cell_injective(i, j, r, k, n_markers);
            }
        }
        assert(column(changed, n_markers, n_individuals, k) =~= column(
            cells,
            n_markers,
            n_individuals,
            k,
        ));
    }
    let col = column(cells, n_markers, n_individuals, j);
    assert forall|r: int| 0 <= r < n_individuals implies cell(changed, n_markers, r, j)
        == col.update(i, missing)[r] by {
        lemma_cell_in_buffer(r, j, n_markers, n_individuals);
        if r * n_markers + j == i * n_markers + j {
            lemma_cell_injective(i, j, r, j, n_markers);
        }
    }
    assert(column(changed, n_markers, n_individuals, j) =~= col.update(i, missing));
    lemma_missing_call_is_omitted(col, i, missing);
}

/// Counts the calls of a contiguous run of calls, such as one marker's column.
pub fn count_calls<T: GenotypeCode>(calls: &[T]) -> (c: MarkerCounts)
    ensures
        c.tallies(codes(calls@)),
{
    let ghost col = codes(calls@);
    let mut c = MarkerCounts { hom_ref: 0, het: 0, hom_alt: 0 };
    let mut i: usize = 0;
    while i < calls.len()
        invariant
            i <= calls.len(),
            col == codes(calls@),
            c.tallies(col.take(i as int)),
        decreases calls.len() - i,
    {
        proof {
            let next = col.take(i + 1);
            assert(next.drop_last() =~= col.take(i as int));
            assert(next.last() == calls@[i as int].code());
            lemma_occurrences_bounded(col.take(i as int), 0);
            lemma_occurrences_bounded(col.take(i as int), 1);
            lemma_occurrences_bounded(col.take(i as int), 2);
        }
        match calls[i].dosage() {
            Some(0) => {
                c.hom_ref = c.hom_ref + 1;
            },
            Some(1) => {
                c.het = c.het + 1;
            },
            Some(_) => {
                c.hom_alt = c.hom_alt + 1;
            },
            None => {},
        }
        i = i + 1;
    }
    proof {
        assert(col.take(calls.len() as int) =~= col);
    }
    c
}

/// Counts the calls of marker `j` in a row-major matrix.
fn count_marker<T: GenotypeCode>(
    markers: &[T],
    n_markers: usize,
    n_individuals: usize,
    j: usize,
) -> (c: MarkerCounts)
    requires
        markers@.len() == n_markers * n_individuals,
        n_markers * n_individuals <= usize::MAX,
        j < n_markers,
    ensures
        c.tallies(column(codes(markers@), n_markers as int, n_individuals as int, j as int)),
{
    let ghost col = column(codes(markers@), n_markers as int, n_individuals as int, j as int);
    let mut c = MarkerCounts { hom_ref: 0, het: 0, hom_alt: 0 };
    let mut i: usize = 0;
    while i < n_individuals
        invariant
            i <= n_individuals,
            j < n_markers,
            markers@.len() == n_markers * n_individuals,
            n_markers * n_individuals <= usize::MAX,
            col == column(codes(markers@), n_markers as int, n_individuals as int, j as int),
            c.tallies(col.take(i as int)),
        decreases n_individuals - i,
    {
        proof {
            lemma_cell_in_buffer(i as int, j as int, n_markers as int, n_individuals as int);
            let next = col.take(i + 1);
            assert(next.drop_last() =~= col.take(i as int));
            assert(next.last() == markers@[i * n_markers + j].code());
            lemma_occurrences_bounded(col.take(i as int), 0);
            lemma_occurrences_bounded(col.take(i as int), 1);
            lemma_occurrences_bounded(col.take(i as int), 2);
        }
        match markers[i * n_markers + j].dosage() {
            Some(0) => {
                c.hom_ref = c.hom_ref + 1;
            },
            Some(1) => {
                c.het = c.het + 1;
            },
            Some(_) => {
                c.hom_alt = c.hom_alt + 1;
            },
            None => {},
        }
        i = i + 1;
    }
    proof {
        assert(col.take(n_individuals as int) =~= col);
    }
    c
}

/// A buffer of `len` cells is a matrix of `n_individuals` rows and `n_markers` columns,
/// neither of them zero.
pub open spec fn shape_ok(len: int, n_markers: int, n_individuals: int) -> bool {
    &&& n_markers > 0
    &&& n_individuals > 0
    &&& len == n_markers * n_individuals
}

/// Tests the shape of a genotype buffer. A product of the dimensions that no `usize`
/// holds cannot be the length of a buffer, so it fails the test like any other mismatch.
pub fn check_shape(len: usize, n_markers: usize, n_individuals: usize) -> (ok: bool)
    ensures
        ok == shape_ok(len as int, n_markers as int, n_individuals as int),
{
    if n_markers == 0 || n_individuals == 0 {
        return false;
    }
    match n_markers.checked_mul(n_individuals) {
        Some(cells) => cells == len,
        None => false,
    }
}

/// The class counts of every marker of a genotype matrix, or nothing at all when the
/// buffer is not a matrix of the declared shape.
pub fn marker_counts<T: GenotypeCode>(markers: &[T], n_markers: usize, n_individuals: usize) -> (counts:
    Vec<MarkerCounts>)
    ensures
        !shape_ok(markers@.len() as int, n_markers as int, n_individuals as int) ==> counts@.len()
            == 0,
        shape_ok(markers@.len() as int, n_markers as int, n_individuals as int) ==> counts@.len()
            == n_markers,
        forall|j: int|
            0 <= j < counts@.len() ==> (#[trigger] counts@[j]).tallies(
                column(codes(markers@), n_markers as int, n_individuals as int, j),
            ),
{
    let mut counts: Vec<MarkerCounts> = Vec::new();
    if !check_shape(markers.len(), n_markers, n_individuals) {
        return counts;
    }
    let mut j: usize = 0;
    while j < n_markers
        invariant
            j <= n_markers,
            markers@.len() == n_markers * n_individuals,
            n_markers * n_individuals <= usize::MAX,
            counts@.len() == j,
            forall|k: int|
                0 <= k < j ==> (#[trigger] counts@[k]).tallies(
                    column(codes(markers@), n_markers as int, n_individuals as int, k),
                ),
        decreases n_markers - j,
    {
        let c = count_marker(markers, n_markers, n_individuals, j);
        counts.push(c);
        j = j + 1;
    }
    counts
}

/// What a call becomes when each marker assigns a value of its own to each dosage and to
/// a missing call: `levels` holds three values per marker, for the dosages 0, 1 and 2,
/// and `missing` one per marker.
pub open spec fn recoded<T>(code: int, levels: Seq<T>, missing: Seq<T>, j: int) -> T {
    match dosage_of(code) {
        Some(d) => levels[3 * j + d],
        None => missing[j],
    }
}

/// The matrix and the two tables of values fit together.
pub open spec fn recode_ok(
    len: int,
    n_markers: int,
    n_individuals: int,
    levels: int,
    missing: int,
) -> bool {
    &&& shape_ok(len, n_markers, n_individuals)
    &&& levels == 3 * n_markers
    &&& missing == n_markers
}

/// Replaces every call by the value that its marker assigns to it. This is how a
/// genotype matrix is centred (a valid call becomes its deviation from the marker's
/// mean, a missing one becomes zero) or imputed (a valid call stays, a missing one
/// becomes the marker's mean): the result has the shape of the input, and a missing call
/// never receives the value of a dosage. Where the buffers do not fit together the
/// result is empty.
#[verifier::rlimit(40)]
pub fn recode<C: GenotypeCode, T: Copy>(
    markers: &[C],
    n_markers: usize,
    n_individuals: usize,
    levels: &[T],
    missing: &[T],
) -> (out: Vec<T>)
    ensures
        !recode_ok(
            markers@.len() as int,
            n_markers as int,
            n_individuals as int,
            levels@.len() as int,
            missing@.len() as int,
        ) ==> out@.len() == 0,
        recode_ok(
            markers@.len() as int,
            n_markers as int,
            n_individuals as int,
            levels@.len() as int,
            missing@.len() as int,
        ) ==> out@.len() == markers@.len(),
        recode_ok(
            markers@.len() as int,
            n_markers as int,
            n_individuals as int,
            levels@.len() as int,
            missing@.len() as int,
        ) ==> forall|i: int, j: int|
            0 <= i < n_individuals && 0 <= j < n_markers ==> #[trigger] cell(
                out@,
                n_markers as int,
                i,
                j,
            ) == recoded(cell(codes(markers@), n_markers as int, i, j), levels@, missing@, j),
{
    let mut out: Vec<T> = Vec::new();
    if !check_shape(markers.len(), n_markers, n_individuals) {
        return out;
    }
    if missing.len() != n_markers {
        return out;
    }
    let held = levels.len();
    match n_markers.checked_mul(3) {
        Some(wanted) => {
            if held != wanted {
                return out;
            }
        },
        None => {
            return out;
        },
    }
    let ghost cs = codes(markers@);
    let mut i: usize = 0;
    while i < n_individuals
        invariant
            i <= n_individuals,
            n_markers > 0,
            markers@.len() == n_markers * n_individuals,
            n_markers * n_individuals <= usize::MAX,
            levels@.len() == 3 * n_markers,
            3 * n_markers <= usize::MAX,
            missing@.len() == n_markers,
            cs == codes(markers@),
            out@.len() == i * n_markers,
            forall|a: int, b: int|
                0 <= a < i && 0 <= b < n_markers ==> #[trigger] cell(out@, n_markers as int, a, b)
                    == recoded(cell(cs, n_markers as int, a, b), levels@, missing@, b),
        decreases n_individuals - i,
    {
        let mut j: usize = 0;
        while j < n_markers
            invariant
                i < n_individuals,
                j <= n_markers,
                markers@.len() == n_markers * n_individuals,
                n_markers * n_individuals <= usize::MAX,
                levels@.len() == 3 * n_markers,
                3 * n_markers <= usize::MAX,
                missing@.len() == n_markers,
                cs == codes(markers@),
                out@.len() == i * n_markers + j,
                forall|a: int, b: int|
                    0 <= a < i && 0 <= b < n_markers ==> #[trigger] cell(
                        out@,
                        n_markers as int,
                        a,
                        b,
                    ) == recoded(cell(cs, n_markers as int, a, b), levels@, missing@, b),
                forall|b: int|
                    0 <= b < j ==> #[trigger] cell(out@, n_markers as int, i as int, b) == recoded(
                        cell(cs, n_markers as int, i as int, b),
                        levels@,
                        missing@,
                        b,
                    ),
            decreases n_markers - j,
        {
            proof {
                lemma_cell_in_buffer(i as int, j as int, n_markers as int, n_individuals as int);
            }
            let ghost earlier = out@;
            let value = match markers[i * n_markers + j].dosage() {
                Some(d) => levels[3 * j + d as usize],
                None => missing[j],
            };
            out.push(value);
            proof {
                assert(cs[i * n_markers + j] == markers@[i * n_markers + j].code());
                assert(value == recoded(
                    cell(cs, n_markers as int, i as int, j as int),
                    levels@,
                    missing@,
                    j as int,
                ));
                assert forall|a: int, b: int| 0 <= a < i && 0 <= b < n_markers implies #[trigger] cell(
                    out@,
                    n_markers as int,
                    a,
                    b,
                ) == cell(earlier, n_markers as int, a, b) by {
                    lemma_cell_in_buffer(a, b, n_markers as int, i as int);
                    assert(n_markers * i == i * n_markers) by (nonlinear_arith);
                }
                assert forall|b: int| 0 <= b < j implies #[trigger] cell(
                    out@,
                    n_markers as int,
                    i as int,
                    b,
                ) == cell(earlier, n_markers as int, i as int, b) by {}
                assert(cell(out@, n_markers as int, i as int, j as int) == value);
            }
            j = j + 1;
        }
        proof {
            assert(out@.len() == (i + 1) * n_markers) by (nonlinear_arith)
                requires
                    out@.len() == i * n_markers + n_markers,
            ;
        }
        i = i + 1;
    }
    proof {
        assert(out@.len() == n_markers * n_individuals) by (nonlinear_arith)
            requires
                out@.len() == n_individuals * n_markers,
        ;
    }
    out
}

} // verus!
