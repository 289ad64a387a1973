//! Compressed sparse matrices: an owning matrix and a read-only view of one.
//!
//! A matrix stores its nonzeros outer line by outer line (rows for CSR,
//! columns for CSC) in three arrays: `indptr` bounds the run of each line,
//! `indices` gives the inner position of each nonzero and `data` its value.
//! Contracts speak of the abstract model `CsModel`: the orientation, the
//! inner dimension and the sequence of outer lines, each a sequence of
//! `(inner index, value)` pairs.

use vstd::prelude::*;
use vstd::seq_lib::lemma_flatten_concat;
use crate::errors::SprsError;

verus! {

/// Whether the outer lines of a matrix are its rows or its columns.
#[derive(Clone, Copy, Debug, PartialEq, Eq, Structural)]
pub enum CompressedStorage {
    /// Compressed sparse rows: outer lines are rows.
    CSR,
    /// Compressed sparse columns: outer lines are columns.
    CSC,
}

impl CompressedStorage {
    /// The other orientation.
    pub fn other(&self) -> (r: CompressedStorage)
        ensures
            r == other_storage(*self),
    {
        match self {
            CompressedStorage::CSR => CompressedStorage::CSC,
            CompressedStorage::CSC => CompressedStorage::CSR,
        }
    }
}

/// The orientation that is not `s`.
pub open spec fn other_storage(s: CompressedStorage) -> CompressedStorage {
    match s {
        CompressedStorage::CSR => CompressedStorage::CSC,
        CompressedStorage::CSC => CompressedStorage::CSR,
    }
}

/// A line is valid when its inner indices are strictly increasing and below `inner`.
pub open spec fn line_ok<N>(line: Seq<(usize, N)>, inner: nat) -> bool {
    &&& forall|k: int| 0 <= k < line.len() ==> (#[trigger] line[k]).0 < inner
    &&& forall|k1: int, k2: int|
        0 <= k1 < k2 < line.len() ==> (#[trigger] line[k1]).0 < (#[trigger] line[k2]).0
}

/// The value stored at inner position `j` of a line, if any.
pub open spec fn entry<N>(line: Seq<(usize, N)>, j: int) -> Option<N> {
    if exists|k: int| 0 <= k < line.len() && line[k].0 == j {
        Some(line[choose|k: int| 0 <= k < line.len() && line[k].0 == j].1)
    } else {
        None
    }
}

/// The mathematical content of a compressed matrix.
pub struct CsModel<N> {
    pub storage: CompressedStorage,
    pub inner: nat,
    pub lines: Seq<Seq<(usize, N)>>,
}

impl<N> CsModel<N> {
    pub open spec fn outer(self) -> nat {
        self.lines.len()
    }

    /// The number of stored nonzeros.
    pub open spec fn nnz(self) -> nat {
        self.lines.flatten().len()
    }

    pub open spec fn wf(self) -> bool {
        forall|i: int| 0 <= i < self.lines.len() ==> line_ok(#[trigger] self.lines[i], self.inner)
    }

    pub open spec fn rows(self) -> nat {
        if self.storage == CompressedStorage::CSR {
            self.outer()
        } else {
            self.inner
        }
    }

    pub open spec fn cols(self) -> nat {
        if self.storage == CompressedStorage::CSR {
            self.inner
        } else {
            self.outer()
        }
    }

    /// The value at row `r` and column `c`, `None` where nothing is stored.
    pub open spec fn get(self, r: int, c: int) -> Option<N> {
        if self.storage == CompressedStorage::CSR {
            entry(self.lines[r], c)
        } else {
            entry(self.lines[c], r)
        }
    }
}

/// Outer line `i` as stored in the three arrays.
pub open spec fn line_of<N>(indptr: Seq<usize>, indices: Seq<usize>, data: Seq<N>, i: int) -> Seq<
    (usize, N),
> {
    Seq::new(
        (indptr[i + 1] - indptr[i]) as nat,
        |k: int| (indices[indptr[i] + k], data[indptr[i] + k]),
    )
}

pub open spec fn lines_of<N>(outer: nat, indptr: Seq<usize>, indices: Seq<usize>, data: Seq<N>) -> Seq<
    Seq<(usize, N)>,
> {
    Seq::new(outer, |i: int| line_of(indptr, indices, data, i))
}

/// The structural invariants of the three arrays.
pub open spec fn arrays_wf<N>(
    outer: nat,
    inner: nat,
    indptr: Seq<usize>,
    indices: Seq<usize>,
    data: Seq<N>,
) -> bool {
    &&& indptr.len() == outer + 1
    &&& indptr[0] == 0
    &&& indptr[outer as int] == indices.len()
    &&& data.len() == indices.len()
    &&& forall|i: int, j: int| 0 <= i <= j <= outer ==> indptr[i] <= indptr[j]
    &&& forall|i: int| 0 <= i < outer ==> line_ok(#[trigger] line_of(indptr, indices, data, i), inner)
}

/// Flattening the first `i` lines gives the first `indptr[i]` stored pairs.
proof fn lemma_prefix<N>(
    outer: nat,
    inner: nat,
    indptr: Seq<usize>,
    indices: Seq<usize>,
    data: Seq<N>,
    i: nat,
)
    requires
        arrays_wf(outer, inner, indptr, indices, data),
        i <= outer,
    ensures
        lines_of(outer, indptr, indices, data).take(i as int).flatten() == zip_line(
            indices,
            data,
        ).take(indptr[i as int] as int),
    decreases i,
{
    let ls = lines_of(outer, indptr, indices, data);
    let z = zip_line(indices, data);
    if i == 0 {
        assert(ls.take(0) =~= Seq::<Seq<(usize, N)>>::empty());
        assert(z.take(0) =~= Seq::<(usize, N)>::empty());
    } else {
        lemma_prefix(outer, inner, indptr, indices, data, (i - 1) as nat);
        let pre = ls.take(i - 1);
        assert(ls.take(i as int) =~= pre.push(ls[i - 1]));
        pre.lemma_flatten_push(ls[i - 1]);
        assert(indptr[i - 1] <= indptr[i as int] <= indptr[outer as int]);
        assert(z.take(indptr[i - 1] as int) + ls[i - 1] =~= z.take(indptr[i as int] as int));
    }
}

/// The number of nonzeros of the model is the length of `indices`.
pub proof fn lemma_nnz<N>(
    outer: nat,
    inner: nat,
    indptr: Seq<usize>,
    indices: Seq<usize>,
    data: Seq<N>,
)
    requires
        arrays_wf(outer, inner, indptr, indices, data),
    ensures
        lines_of(outer, indptr, indices, data).flatten() == zip_line(indices, data),
        lines_of(outer, indptr, indices, data).flatten().len() == indices.len(),
{
    lemma_prefix(outer, inner, indptr, indices, data, outer);
    assert(zip_line(indices, data).take(indices.len() as int) =~= zip_line(indices, data));
    assert(lines_of(outer, indptr, indices, data).take(outer as int) =~= lines_of(
        outer,
        indptr,
        indices,
        data,
    ));
}

/// An owning compressed sparse matrix.
#[derive(Clone, Debug, PartialEq)]
pub struct CsMatVec<N> {
    pub storage: CompressedStorage,
    pub outer: usize,
    pub inner: usize,
    pub indptr: Vec<usize>,
    pub indices: Vec<usize>,
    pub data: Vec<N>,
}

impl<N> View for CsMatVec<N> {
    type V = CsModel<N>;

    open spec fn view(&self) -> CsModel<N> {
        CsModel {
            storage: self.storage,
            inner: self.inner as nat,
            lines: lines_of(self.outer as nat, self.indptr@, self.indices@, self.data@),
        }
    }
}

impl<N: Copy> CsMatVec<N> {
    pub open spec fn wf(&self) -> bool {
        arrays_wf(
            self.outer as nat,
            self.inner as nat,
            self.indptr@,
            self.indices@,
            self.data@,
        )
    }

    pub open spec fn spec_indptr(&self) -> Seq<usize> {
        self.indptr@
    }

    pub open spec fn spec_indices(&self) -> Seq<usize> {
        self.indices@
    }

    pub open spec fn spec_data(&self) -> Seq<N> {
        self.data@
    }

    /// A matrix with no outer line and the given inner dimension.
    pub fn empty(storage: CompressedStorage, inner: usize) -> (r: Self)
        ensures
            r.wf(),
            r@.storage == storage,
            r@.inner == inner,
            r@.lines.len() == 0,
    {
        let mut indptr: Vec<usize> = Vec::new();
        indptr.push(0);
        let r = CsMatVec { storage, outer: 0, inner, indptr, indices: Vec::new(), data: Vec::new() };
        assert(r@.lines =~= Seq::<Seq<(usize, N)>>::empty());
        r
    }

    /// Room for `n` more outer lines; the content is unchanged.
    pub fn reserve_outer_dim_exact(&mut self, n: usize)
        ensures
            final(self)@ == old(self)@,
            final(self).spec_indptr() == old(self).spec_indptr(),
            final(self).spec_indices() == old(self).spec_indices(),
            final(self).spec_data() == old(self).spec_data(),
            final(self).wf() == old(self).wf(),
    {
        self.indptr.reserve(n);
    }

    /// Room for `n` more nonzeros; the content is unchanged.
    pub fn reserve_nnz_exact(&mut self, n: usize)
        ensures
            final(self)@ == old(self)@,
            final(self).spec_indptr() == old(self).spec_indptr(),
            final(self).spec_indices() == old(self).spec_indices(),
            final(self).spec_data() == old(self).spec_data(),
            final(self).wf() == old(self).wf(),
    {
        self.indices.reserve(n);
        self.data.reserve(n);
    }

    pub fn storage(&self) -> (r: CompressedStorage)
        ensures
            r == self@.storage,
    {
        self.storage
    }

    pub fn outer_dims(&self) -> (r: usize)
        ensures
            r == self@.outer(),
    {
        self.outer
    }

    pub fn inner_dims(&self) -> (r: usize)
        ensures
            r == self@.inner,
    {
        self.inner
    }

    pub fn nb_nonzero(&self) -> (r: usize)
        requires
            self.wf(),
        ensures
            r == self@.nnz(),
    {
        proof {
            lemma_nnz(
                self.outer as nat,
                self.inner as nat,
                self.indptr@,
                self.indices@,
                self.data@,
            );
        }
        self.indices.len()
    }

    /// Appends one outer line given as parallel index and value slices.
    #[verifier::spinoff_prover]
    pub fn append_outer(&mut self, idx: &[usize], vals: &[N])
        requires
            old(self).wf(),
            idx@.len() == vals@.len(),
            line_ok(zip_line(idx@, vals@), old(self)@.inner),
            old(self)@.outer() + 1 <= usize::MAX,
            old(self)@.nnz() + idx@.len() <= usize::MAX,
        ensures
            final(self).wf(),
            final(self)@ == (CsModel {
                lines: old(self)@.lines.push(zip_line(idx@, vals@)),
                ..old(self)@
            }),
    {
        proof {
            lemma_nnz(
                self.outer as nat,
                self.inner as nat,
                self.indptr@,
                self.indices@,
                self.data@,
            );
        }
        let ghost old_ind = self.indices@;
        let ghost old_dat = self.data@;
        let ghost old_ptr = self.indptr@;
        let ghost start = self.indices@.len();
        let mut k: usize = 0;
        while k < idx.len()
            invariant
                0 <= k <= idx@.len(),
                idx@.len() == vals@.len(),
                start + idx@.len() <= usize::MAX,
                self.indices@.len() == start + k,
                self.data@.len() == start + k,
                self.indices@.subrange(0, start as int) == old_ind,
                self.data@.subrange(0, start as int) == old_dat,
                forall|t: int| 0 <= t < k ==> self.indices@[start + t] == idx@[t],
                forall|t: int| 0 <= t < k ==> self.data@[start + t] == vals@[t],
                self.indptr@ == old_ptr,
                self.outer == old(self).outer,
                self.inner == old(self).inner,
                self.storage == old(self).storage,
                old_ind.len() == start,
                old_dat.len() == start,
            decreases idx@.len() - k,
        {
            self.indices.push(idx[k]);
            self.data.push(vals[k]);
            k = k + 1;
        }
        let n = self.indices.len();
        self.indptr.push(n);
        self.outer = self.outer + 1;
        proof {
            let outer = self.outer as nat;
            let ptr = self.indptr@;
            assert forall|i: int| 0 <= i < outer - 1 implies #[trigger] line_of(
                ptr,
                self.indices@,
                self.data@,
                i,
            ) == line_of(old_ptr, old_ind, old_dat, i) by {
                assert(old_ptr[i] <= old_ptr[i + 1] <= old_ptr[outer - 1]);
                assert(line_of(ptr, self.indices@, self.data@, i) =~= line_of(
                    old_ptr,
                    old_ind,
                    old_dat,
                    i,
                ));
            }
            assert(line_of(ptr, self.indices@, self.data@, outer - 1) =~= zip_line(idx@, vals@));
            assert forall|i: int, j: int| 0 <= i <= j <= outer implies ptr[i] <= ptr[j] by {
                if j == outer && i < outer {
                    assert(ptr[i] == old_ptr[i]);
                    assert(old_ptr[i] <= old_ptr[outer - 1]);
                }
            }
            assert forall|i: int| 0 <= i < outer implies line_ok(
                #[trigger] line_of(ptr, self.indices@, self.data@, i),
                self.inner as nat,
            ) by {
                if i < outer - 1 {
                    assert(line_of(ptr, self.indices@, self.data@, i) == line_of(
                        old_ptr,
                        old_ind,
                        old_dat,
                        i,
                    ));
                }
            }
            assert(self@.lines =~= old(self)@.lines.push(zip_line(idx@, vals@)));
        }
    }
}

/// A read-only view of a compressed matrix, borrowing its three arrays.
#[derive(Clone, Copy, Debug, PartialEq)]
pub struct CsMatView<'a, N> {
    pub storage: CompressedStorage,
    pub outer: usize,
    pub inner: usize,
    pub indptr: &'a [usize],
    pub indices: &'a [usize],
    pub data: &'a [N],
}

impl<'a, N> View for CsMatView<'a, N> {
    type V = CsModel<N>;

    open spec fn view(&self) -> CsModel<N> {
        CsModel {
            storage: self.storage,
            inner: self.inner as nat,
            lines: lines_of(self.outer as nat, self.indptr@, self.indices@, self.data@),
        }
    }
}

impl<N: Copy> CsMatVec<N> {
    /// A view of this matrix.
    pub fn borrowed(&self) -> (r: CsMatView<'_, N>)
        ensures
            r@ == self@,
            r.wf() == self.wf(),
    {
        CsMatView {
            storage: self.storage,
            outer: self.outer,
            inner: self.inner,
            indptr: self.indptr.as_slice(),
            indices: self.indices.as_slice(),
            data: self.data.as_slice(),
        }
    }
}

impl<'a, N: Copy> CsMatView<'a, N> {
    pub open spec fn wf(&self) -> bool {
        arrays_wf(
            self.outer as nat,
            self.inner as nat,
            self.indptr@,
            self.indices@,
            self.data@,
        )
    }

    pub fn storage(&self) -> (r: CompressedStorage)
        ensures
            r == self@.storage,
    {
        self.storage
    }

    pub fn is_csr(&self) -> (r: bool)
        ensures
            r == (self@.storage == CompressedStorage::CSR),
    {
        match self.storage {
            CompressedStorage::CSR => true,
            CompressedStorage::CSC => false,
        }
    }

    pub fn is_csc(&self) -> (r: bool)
        ensures
            r == (self@.storage == CompressedStorage::CSC),
    {
        match self.storage {
            CompressedStorage::CSR => false,
            CompressedStorage::CSC => true,
        }
    }

    pub fn outer_dims(&self) -> (r: usize)
        ensures
            r == self@.outer(),
    {
        self.outer
    }

    pub fn inner_dims(&self) -> (r: usize)
        ensures
            r == self@.inner,
    {
        self.inner
    }

    pub fn rows(&self) -> (r: usize)
        ensures
            r == self@.rows(),
    {
        match self.storage {
            CompressedStorage::CSR => self.outer,
            CompressedStorage::CSC => self.inner,
        }
    }

    pub fn cols(&self) -> (r: usize)
        ensures
            r == self@.cols(),
    {
        match self.storage {
            CompressedStorage::CSR => self.inner,
            CompressedStorage::CSC => self.outer,
        }
    }

    pub fn nb_nonzero(&self) -> (r: usize)
        requires
            self.wf(),
        ensures
            r == self@.nnz(),
    {
        proof {
            lemma_nnz(
                self.outer as nat,
                self.inner as nat,
                self.indptr@,
                self.indices@,
                self.data@,
            );
        }
        self.indices.len()
    }

    /// Outer line `i` as parallel index and value slices.
    pub fn outer_view(&self, i: usize) -> (r: (&'a [usize], &'a [N]))
        requires
            self.wf(),
            i < self@.outer(),
        ensures
            r.0@.len() == r.1@.len(),
            zip_line(r.0@, r.1@) == self@.lines[i as int],
    {
        proof {
            assert(self.indptr@[i as int] <= self.indptr@[i + 1] <= self.indptr@[self.outer as int]);
        }
        let lo = self.indptr[i];
        let hi = self.indptr[i + 1];
        let a = vstd::slice::slice_subrange(self.indices, lo, hi);
        let b = vstd::slice::slice_subrange(self.data, lo, hi);
        assert(zip_line(a@, b@) =~= self@.lines[i as int]);
        (a, b)
    }
}

/// Inner indices strictly increase along the line.
pub open spec fn sorted_line<N>(line: Seq<(usize, N)>) -> bool {
    forall|k1: int, k2: int|
        0 <= k1 < k2 < line.len() ==> (#[trigger] line[k1]).0 < (#[trigger] line[k2]).0
}

/// In a sorted line, the entry at the inner index of position `k` is the value there.
pub proof fn lemma_entry_at<N>(line: Seq<(usize, N)>, k: int)
    requires
        sorted_line(line),
        0 <= k < line.len(),
    ensures
        entry(line, line[k].0 as int) == Some(line[k].1),
{
    let j = line[k].0 as int;
    assert(0 <= k < line.len() && line[k].0 == j);
    let c = choose|c: int| 0 <= c < line.len() && line[c].0 == j;
    if c < k {
        assert(line[c].0 < line[k].0);
    } else if k < c {
        assert(line[k].0 < line[c].0);
    }
}

/// Pushing an entry whose index exceeds all others adds exactly that entry.
pub proof fn lemma_entry_push<N>(line: Seq<(usize, N)>, x: (usize, N), j: int)
    requires
        sorted_line(line.push(x)),
    ensures
        entry(line.push(x), j) == (if j == x.0 {
            Some(x.1)
        } else {
            entry(line, j)
        }),
{
    let p = line.push(x);
    assert(sorted_line(line)) by {
        assert forall|k1: int, k2: int| 0 <= k1 < k2 < line.len() implies (#[trigger] line[k1]).0
            < (#[trigger] line[k2]).0 by {
            assert(p[k1] == line[k1] && p[k2] == line[k2]);
        }
    }
    if j == x.0 {
        lemma_entry_at(p, line.len() as int);
    } else if exists|k: int| 0 <= k < line.len() && line[k].0 == j {
        let k = choose|k: int| 0 <= k < line.len() && line[k].0 == j;
        lemma_entry_at(line, k);
        lemma_entry_at(p, k);
    } else {
        assert forall|k: int| 0 <= k < p.len() implies p[k].0 != j by {
            if k < line.len() {
                assert(p[k] == line[k]);
            }
        }
    }
}

/// Column `j` of a set of lines: for each line holding inner index `j`, in
/// order, the pair of that line's position and the value.
pub open spec fn col_of<N>(lines: Seq<Seq<(usize, N)>>, j: int) -> Seq<(usize, N)>
    decreases lines.len(),
{
    if lines.len() == 0 {
        Seq::empty()
    } else {
        let rest = col_of(lines.drop_last(), j);
        match entry(lines.last(), j) {
            Some(v) => rest.push(((lines.len() - 1) as usize, v)),
            None => rest,
        }
    }
}

/// The lines of the same matrix stored in the other orientation.
pub open spec fn transposed_lines<N>(m: CsModel<N>) -> Seq<Seq<(usize, N)>> {
    Seq::new(m.inner, |j: int| col_of(m.lines, j))
}

/// The same matrix stored in the other orientation.
pub open spec fn transposed<N>(m: CsModel<N>) -> CsModel<N> {
    CsModel {
        storage: other_storage(m.storage),
        inner: m.outer(),
        lines: transposed_lines(m),
    }
}

/// Each pair of a column names a line below `lines.len()`, in increasing order.
pub proof fn lemma_col_ok<N>(lines: Seq<Seq<(usize, N)>>, j: int)
    requires
        lines.len() <= usize::MAX,
    ensures
        line_ok(col_of(lines, j), lines.len()),
    decreases lines.len(),
{
    if lines.len() > 0 {
        lemma_col_ok(lines.drop_last(), j);
    }
}

/// A column holds line `i` exactly where line `i` holds index `j`.
pub proof fn lemma_col_entry<N>(lines: Seq<Seq<(usize, N)>>, j: int, i: int)
    requires
        lines.len() <= usize::MAX,
        0 <= i < lines.len(),
    ensures
        entry(col_of(lines, j), i) == entry(lines[i], j),
    decreases lines.len(),
{
    let n = lines.len() - 1;
    let rest = col_of(lines.drop_last(), j);
    lemma_col_ok(lines.drop_last(), j);
    lemma_col_ok(lines, j);
    match entry(lines.last(), j) {
        Some(v) => {
            lemma_entry_push(rest, (n as usize, v), i);
        },
        None => {},
    }
    if i < n {
        lemma_col_entry(lines.drop_last(), j, i);
    } else {
        match entry(lines.last(), j) {
            Some(v) => {},
            None => {
                assert forall|k: int| 0 <= k < rest.len() implies rest[k].0 != i by {
                    assert(rest[k].0 < n);
                }
            },
        }
    }
}

/// Pointwise equal lengths give equal flattened lengths.
pub proof fn lemma_flatten_len_pointwise<A, B>(a: Seq<Seq<A>>, b: Seq<Seq<B>>)
    requires
        a.len() == b.len(),
        forall|i: int| 0 <= i < a.len() ==> (#[trigger] a[i]).len() == b[i].len(),
    ensures
        a.flatten().len() == b.flatten().len(),
    decreases a.len(),
{
    if a.len() > 0 {
        lemma_flatten_len_pointwise(a.drop_first(), b.drop_first());
    }
}

/// Replacing one sequence changes the flattened length by the difference.
pub proof fn lemma_flatten_len_update<A>(ss: Seq<Seq<A>>, j: int, y: Seq<A>)
    requires
        0 <= j < ss.len(),
    ensures
        ss.update(j, y).flatten().len() + ss[j].len() == ss.flatten().len() + y.len(),
{
    let a = ss.take(j);
    let b = ss.skip(j + 1);
    assert(ss =~= a + seq![ss[j]] + b);
    assert(ss.update(j, y) =~= a + seq![y] + b);
    lemma_flatten_concat(a + seq![ss[j]], b);
    lemma_flatten_concat(a, seq![ss[j]]);
    lemma_flatten_concat(a + seq![y], b);
    lemma_flatten_concat(a, seq![y]);
    seq![ss[j]].lemma_flatten_one_element();
    seq![y].lemma_flatten_one_element();
}

/// The first `k + 1` sequences flatten to the first `k` and sequence `k`,
/// and no prefix flattens to more than the whole.
pub proof fn lemma_flatten_prefix<A>(ss: Seq<Seq<A>>, k: int)
    requires
        0 <= k < ss.len(),
    ensures
        ss.take(k + 1).flatten().len() == ss.take(k).flatten().len() + ss[k].len(),
        ss.take(k + 1).flatten().len() <= ss.flatten().len(),
{
    assert(ss.take(k + 1) =~= ss.take(k).push(ss[k]));
    ss.take(k).lemma_flatten_push(ss[k]);
    assert(ss =~= ss.take(k + 1) + ss.skip(k + 1));
    lemma_flatten_concat(ss.take(k + 1), ss.skip(k + 1));
}

/// What a bucket holds after `t` entries of line `i`.
pub open spec fn partial_col<N>(lines: Seq<Seq<(usize, N)>>, i: int, t: int, j: int) -> Seq<
    (usize, N),
> {
    col_of(lines.take(i), j) + match entry(lines[i].take(t), j) {
        Some(v) => seq![(i as usize, v)],
        None => Seq::empty(),
    }
}

impl<'a, N: Copy> CsMatView<'a, N> {
    /// The same matrix stored in the other orientation, built by distributing
    /// every nonzero to the bucket of its inner index.
    #[verifier::spinoff_prover]
    pub fn to_other_storage(&self) -> (r: CsMatVec<N>)
        requires
            self.wf(),
        ensures
            r.wf(),
            r@ == transposed(self@),
    {
        let ghost lines = self@.lines;
        let ghost outer = self.outer as int;
        let ghost inner = self.inner as int;
        proof {
            lemma_nnz(outer as nat, inner as nat, self.indptr@, self.indices@, self.data@);
        }
        let mut bidx: Vec<Vec<usize>> = Vec::new();
        let mut bval: Vec<Vec<N>> = Vec::new();
        let mut j: usize = 0;
        while j < self.inner
            invariant
                0 <= j <= inner,
                inner == self.inner,
                bidx@.len() == j,
                bval@.len() == j,
                forall|q: int| 0 <= q < j ==> (#[trigger] bidx@[q])@.len() == 0,
                forall|q: int| 0 <= q < j ==> (#[trigger] bval@[q])@.len() == 0,
                bidx@.map_values(|v: Vec<usize>| v@).flatten().len() == 0,
            decreases inner - j,
        {
            let ghost before = bidx@.map_values(|v: Vec<usize>| v@);
            bidx.push(Vec::new());
            bval.push(Vec::new());
            proof {
                before.lemma_flatten_push(Seq::<usize>::empty());
                assert(bidx@.map_values(|v: Vec<usize>| v@) =~= before.push(Seq::<usize>::empty()));
            }
            j = j + 1;
        }
        proof {
            assert forall|q: int| 0 <= q < inner implies zip_line(
                (#[trigger] bidx@[q])@,
                bval@[q]@,
            ) == col_of(lines.take(0), q) by {
                assert(lines.take(0) =~= Seq::<Seq<(usize, N)>>::empty());
                assert(zip_line(bidx@[q]@, bval@[q]@) =~= Seq::<(usize, N)>::empty());
            }
        }
        let mut i: usize = 0;
        while i < self.outer
            invariant
                0 <= i <= outer,
                self.wf(),
                lines == self@.lines,
                outer == self.outer,
                inner == self.inner,
                bidx@.len() == inner,
                bval@.len() == inner,
                forall|q: int| 0 <= q < inner ==> (#[trigger] bidx@[q])@.len() == bval@[q]@.len(),
                forall|q: int|
                    0 <= q < inner ==> zip_line((#[trigger] bidx@[q])@, bval@[q]@) == col_of(
                        lines.take(i as int),
                        q,
                    ),
                bidx@.map_values(|v: Vec<usize>| v@).flatten().len() == self.indptr@[i as int],
            decreases outer - i,
        {
            proof {
                assert(self.indptr@[i as int] <= self.indptr@[i + 1] <= self.indptr@[outer]);
                assert forall|q: int| 0 <= q < inner implies zip_line(
                    (#[trigger] bidx@[q])@,
                    bval@[q]@,
                ) == partial_col(lines, i as int, 0, q) by {
                    assert(lines[i as int].take(0) =~= Seq::<(usize, N)>::empty());
                    assert(partial_col(lines, i as int, 0, q) =~= col_of(lines.take(i as int), q));
                }
            }
            let lo = self.indptr[i];
            let hi = self.indptr[i + 1];
            let mut p = lo;
            while p < hi
                invariant
                    lo <= p <= hi,
                    0 <= i < outer,
                    lo == self.indptr@[i as int],
                    hi == self.indptr@[i + 1],
                    hi <= self.indices@.len(),
                    self.wf(),
                    lines == self@.lines,
                    outer == self.outer,
                    inner == self.inner,
                    bidx@.len() == inner,
                    bval@.len() == inner,
                    forall|q: int|
                        0 <= q < inner ==> (#[trigger] bidx@[q])@.len() == bval@[q]@.len(),
                    forall|q: int|
                        0 <= q < inner ==> zip_line((#[trigger] bidx@[q])@, bval@[q]@)
                            == partial_col(lines, i as int, p - lo, q),
                    bidx@.map_values(|v: Vec<usize>| v@).flatten().len() == p,
                decreases hi - p,
            {
                let ghost t = p - lo;
                let ghost line = lines[i as int];
                let ghost x = line[t];
                let ghost bl = bidx@.map_values(|v: Vec<usize>| v@);
                let ghost bi = bidx@;
                let ghost bv = bval@;
                proof {
                    assert(line_ok(line_of(self.indptr@, self.indices@, self.data@, i as int), inner as nat));
                    assert(x == (self.indices@[p as int], self.data@[p as int]));
                    assert(line.take(t + 1) =~= line.take(t).push(x));
                    assert(sorted_line(line.take(t + 1)));
                }
                let jj = self.indices[p];
                let v = self.data[p];
                bidx[jj].push(i);
                bval[jj].push(v);
                proof {
                    assert(bidx@ == bi.update(jj as int, bidx@[jj as int]));
                    assert forall|q: int| 0 <= q < inner implies zip_line(
                        (#[trigger] bidx@[q])@,
                        bval@[q]@,
                    ) == partial_col(lines, i as int, t + 1, q) by {
                        lemma_entry_push(line.take(t), x, q);
                        if q == jj {
                            assert(entry(line.take(t), q) is None) by {
                                assert forall|k: int| 0 <= k < t implies line.take(t)[k].0 != q by {
                                    assert(line[k].0 < line[t].0);
                                }
                            }
                            assert(zip_line(bidx@[q]@, bval@[q]@) =~= zip_line(bi[q]@, bv[q]@).push(
                                (i, v),
                            ));
                            assert(partial_col(lines, i as int, t + 1, q) =~= col_of(
                                lines.take(i as int),
                                q,
                            ).push((i, v)));
                        } else {
                            assert(partial_col(lines, i as int, t + 1, q) == partial_col(
                                lines,
                                i as int,
                                t,
                                q,
                            ));
                        }
                    }
                    lemma_flatten_len_update(bl, jj as int, bl[jj as int].push(i));
                    assert(bidx@.map_values(|v: Vec<usize>| v@) =~= bl.update(
                        jj as int,
                        bl[jj as int].push(i),
                    ));
                }
                p = p + 1;
            }
            proof {
                let line = lines[i as int];
                assert(line.take(line.len() as int) =~= line);
                assert(lines.take(i + 1).drop_last() =~= lines.take(i as int));
                assert forall|q: int| 0 <= q < inner implies zip_line(
                    (#[trigger] bidx@[q])@,
                    bval@[q]@,
                ) == col_of(lines.take(i + 1), q) by {
                    assert(partial_col(lines, i as int, line.len() as int, q) =~= col_of(
                        lines.take(i + 1),
                        q,
                    ));
                }
            }
            i = i + 1;
        }
        let ghost tl = transposed_lines(self@);
        proof {
            assert(lines.take(outer) =~= lines);
            let bl = bidx@.map_values(|v: Vec<usize>| v@);
            assert forall|q: int| 0 <= q < inner implies (#[trigger] tl[q]).len() == bl[q].len() by {
                assert(tl[q] == zip_line(bidx@[q]@, bval@[q]@));
            }
            lemma_flatten_len_pointwise(tl, bl);
        }
        let mut res: CsMatVec<N> = CsMatVec::empty(self.storage.other(), self.outer);
        let mut j: usize = 0;
        while j < self.inner
            invariant
                0 <= j <= inner,
                inner == self.inner,
                outer == self.outer,
                lines == self@.lines,
                tl == transposed_lines(self@),
                tl.flatten().len() <= usize::MAX,
                bidx@.len() == inner,
                bval@.len() == inner,
                forall|q: int| 0 <= q < inner ==> (#[trigger] bidx@[q])@.len() == bval@[q]@.len(),
                forall|q: int|
                    0 <= q < inner ==> zip_line((#[trigger] bidx@[q])@, bval@[q]@) == tl[q],
                res.wf(),
                res@.storage == other_storage(self@.storage),
                res@.inner == outer,
                res@.lines == tl.take(j as int),
            decreases inner - j,
        {
            proof {
                lemma_col_ok(lines, j as int);
                lemma_flatten_prefix(tl, j as int);
                assert(res@.nnz() == tl.take(j as int).flatten().len());
                assert(zip_line(bidx@[j as int]@, bval@[j as int]@) == tl[j as int]);
            }
            res.append_outer(bidx[j].as_slice(), bval[j].as_slice());
            proof {
                assert(res@.lines =~= tl.take(j + 1));
            }
            j = j + 1;
        }
        proof {
            assert(tl.take(inner) =~= tl);
        }
        res
    }
}

impl<'a, N: Copy> CsMatView<'a, N> {
    /// An owning copy of the viewed matrix.
    pub fn to_owned(&self) -> (r: CsMatVec<N>)
        ensures
            r@ == self@,
            r.wf() == self.wf(),
            r.spec_indptr() == self.indptr@,
            r.spec_indices() == self.indices@,
            r.spec_data() == self.data@,
    {
        CsMatVec {
            storage: self.storage,
            outer: self.outer,
            inner: self.inner,
            indptr: vstd::slice::slice_to_vec(self.indptr),
            indices: vstd::slice::slice_to_vec(self.indices),
            data: vstd::slice::slice_to_vec(self.data),
        }
    }

    /// The same matrix stored by rows: a copy if it already is, else converted.
    pub fn to_csr(&self) -> (r: CsMatVec<N>)
        requires
            self.wf(),
        ensures
            r.wf(),
            r@.storage == CompressedStorage::CSR,
            r@ == (if self@.storage == CompressedStorage::CSR {
                self@
            } else {
                transposed(self@)
            }),
    {
        if self.is_csr() {
            self.to_owned()
        } else {
            self.to_other_storage()
        }
    }

    /// The same matrix stored by columns: a copy if it already is, else converted.
    pub fn to_csc(&self) -> (r: CsMatVec<N>)
        requires
            self.wf(),
        ensures
            r.wf(),
            r@.storage == CompressedStorage::CSC,
            r@ == (if self@.storage == CompressedStorage::CSC {
                self@
            } else {
                transposed(self@)
            }),
    {
        if self.is_csc() {
            self.to_owned()
        } else {
            self.to_other_storage()
        }
    }
}

/// Two sorted lines holding the same entries are the same line.
pub proof fn lemma_line_canonical<N>(a: Seq<(usize, N)>, b: Seq<(usize, N)>)
    requires
        sorted_line(a),
        sorted_line(b),
        forall|j: int| entry(a, j) == entry(b, j),
    ensures
        a == b,
    decreases a.len() + b.len(),
{
    if a.len() == 0 && b.len() == 0 {
        assert(a =~= b);
    } else if a.len() == 0 {
        lemma_entry_at(b, 0);
        assert(entry(a, b[0].0 as int) is None);
    } else if b.len() == 0 {
        lemma_entry_at(a, 0);
        assert(entry(b, a[0].0 as int) is None);
    } else {
        lemma_entry_at(a, 0);
        lemma_entry_at(b, 0);
        let ja = a[0].0 as int;
        let jb = b[0].0 as int;
        if ja < jb {
            assert forall|k: int| 0 <= k < b.len() implies b[k].0 != ja by {
                if k > 0 {
                    assert(b[0].0 < b[k].0);
                }
            }
        } else if jb < ja {
            assert forall|k: int| 0 <= k < a.len() implies a[k].0 != jb by {
                if k > 0 {
                    assert(a[0].0 < a[k].0);
                }
            }
        } else {
            let ta = a.drop_first();
            let tb = b.drop_first();
            assert forall|j: int| entry(ta, j) == entry(tb, j) by {
                if j == ja {
                    assert forall|k: int| 0 <= k < ta.len() implies ta[k].0 != j by {
                        assert(a[0].0 < a[k + 1].0);
                    }
                    assert forall|k: int| 0 <= k < tb.len() implies tb[k].0 != j by {
                        assert(b[0].0 < b[k + 1].0);
                    }
                } else {
                    assert(a =~= seq![a[0]] + ta);
                    assert(b =~= seq![b[0]] + tb);
                    if exists|k: int| 0 <= k < ta.len() && ta[k].0 == j {
                        let k = choose|k: int| 0 <= k < ta.len() && ta[k].0 == j;
                        lemma_entry_at(ta, k);
                        lemma_entry_at(a, k + 1);
                    } else {
                        assert forall|k: int| 0 <= k < a.len() implies a[k].0 != j by {
                            if k > 0 {
                                assert(a[k] == ta[k - 1]);
                            }
                        }
                    }
                    if exists|k: int| 0 <= k < tb.len() && tb[k].0 == j {
                        let k = choose|k: int| 0 <= k < tb.len() && tb[k].0 == j;
                        lemma_entry_at(tb, k);
                        lemma_entry_at(b, k + 1);
                    } else {
                        assert forall|k: int| 0 <= k < b.len() implies b[k].0 != j by {
                            if k > 0 {
                                assert(b[k] == tb[k - 1]);
                            }
                        }
                    }
                }
            }
            lemma_line_canonical(ta, tb);
            assert(a =~= seq![a[0]] + ta);
            assert(b =~= seq![b[0]] + tb);
        }
    }
}

/// Storing a matrix in the other orientation keeps it valid and keeps every
/// entry at its row and column.
pub proof fn lemma_transposed_same_matrix<N>(m: CsModel<N>)
    requires
        m.wf(),
        m.outer() <= usize::MAX,
    ensures
        transposed(m).wf(),
        transposed(m).outer() == m.inner,
        transposed(m).rows() == m.rows(),
        transposed(m).cols() == m.cols(),
        forall|r: int, c: int|
            0 <= r < m.rows() && 0 <= c < m.cols() ==> #[trigger] transposed(m).get(r, c) == m.get(
                r,
                c,
            ),
{
    let t = transposed(m);
    assert forall|j: int| 0 <= j < t.lines.len() implies line_ok(#[trigger] t.lines[j], t.inner) by {
        lemma_col_ok(m.lines, j);
    }
    assert forall|r: int, c: int| 0 <= r < m.rows() && 0 <= c < m.cols() implies #[trigger] t.get(
        r,
        c,
    ) == m.get(r, c) by {
        if m.storage == CompressedStorage::CSR {
            lemma_col_entry(m.lines, c, r);
        } else {
            lemma_col_entry(m.lines, r, c);
        }
    }
}

/// Converting a valid matrix to the other orientation and back gives it
/// back unchanged.
pub proof fn lemma_round_trip<N>(m: CsModel<N>)
    requires
        m.wf(),
        m.outer() <= usize::MAX,
        m.inner <= usize::MAX,
    ensures
        transposed(transposed(m)) == m,
{
    let t = transposed(m);
    let tt = transposed(t);
    lemma_transposed_same_matrix(m);
    lemma_transposed_same_matrix(t);
    assert forall|i: int| 0 <= i < m.outer() implies #[trigger] tt.lines[i] == m.lines[i] by {
        assert forall|j: int| entry(tt.lines[i], j) == entry(m.lines[i], j) by {
            if 0 <= j < m.inner {
                lemma_col_entry(t.lines, i, j);
                lemma_col_entry(m.lines, j, i);
            } else {
                assert forall|k: int| 0 <= k < tt.lines[i].len() implies tt.lines[i][k].0 != j by {
                    lemma_col_ok(t.lines, i);
                }
                assert forall|k: int| 0 <= k < m.lines[i].len() implies m.lines[i][k].0 != j by {}
            }
        }
        lemma_col_ok(t.lines, i);
        lemma_line_canonical(tt.lines[i], m.lines[i]);
    }
    assert(tt.lines =~= m.lines);
}

/// A valid matrix's three arrays are determined by its model.
pub proof fn lemma_model_determines_arrays<N: Copy>(a: CsMatVec<N>, b: CsMatVec<N>)
    requires
        a.wf(),
        b.wf(),
        a@ == b@,
    ensures
        a.spec_indptr() == b.spec_indptr(),
        a.spec_indices() == b.spec_indices(),
        a.spec_data() == b.spec_data(),
{
    lemma_nnz(a.outer as nat, a.inner as nat, a.indptr@, a.indices@, a.data@);
    lemma_nnz(b.outer as nat, b.inner as nat, b.indptr@, b.indices@, b.data@);
    let za = zip_line(a.indices@, a.data@);
    let zb = zip_line(b.indices@, b.data@);
    assert(a.outer == b.outer);
    assert(za == zb);
    assert(za.len() == a.indices@.len() && zb.len() == b.indices@.len());
    assert forall|k: int| 0 <= k < a.indices@.len() implies a.indices@[k] == b.indices@[k]
        && a.data@[k] == b.data@[k] by {
        assert(za[k] == zb[k]);
    }
    assert(a.indices@ =~= b.indices@);
    assert(a.data@.len() == b.data@.len());
    assert forall|k: int| 0 <= k < a.data@.len() implies a.data@[k] == b.data@[k] by {
        assert(za[k] == zb[k]);
    }
    assert(a.data@ =~= b.data@);
    assert forall|i: int| 0 <= i <= a.outer implies a.indptr@[i] == b.indptr@[i] by {
        lemma_prefix(a.outer as nat, a.inner as nat, a.indptr@, a.indices@, a.data@, i as nat);
        lemma_prefix(b.outer as nat, b.inner as nat, b.indptr@, b.indices@, b.data@, i as nat);
        assert(a@.lines.take(i) == b@.lines.take(i));
        assert(a.indptr@[i] <= a.indptr@[a.outer as int]);
        assert(b.indptr@[i] <= b.indptr@[b.outer as int]);
        assert(za.take(a.indptr@[i] as int).len() == a.indptr@[i]);
        assert(zb.take(b.indptr@[i] as int).len() == b.indptr@[i]);
    }
    assert(a.indptr@ =~= b.indptr@);
}

impl<N: Copy> CsMatVec<N> {
    /// A matrix of `rows` by `cols` from its three arrays, after checking that
    /// they satisfy the structural invariants.
    #[verifier::spinoff_prover]
    pub fn from_vecs(
        storage: CompressedStorage,
        rows: usize,
        cols: usize,
        indptr: Vec<usize>,
        indices: Vec<usize>,
        data: Vec<N>,
    ) -> (r: Result<Self, SprsError>)
        ensures
            ({
                let outer = if storage == CompressedStorage::CSR { rows } else { cols };
                let inner = if storage == CompressedStorage::CSR { cols } else { rows };
                match r {
                    Ok(m) => arrays_wf(outer as nat, inner as nat, indptr@, indices@, data@)
                        && m.wf() && m.storage == storage && m.outer == outer && m.inner == inner
                        && m.indptr@ == indptr@ && m.indices@ == indices@ && m.data@ == data@,
                    Err(e) => e == SprsError::BadStructure && !arrays_wf(
                        outer as nat,
                        inner as nat,
                        indptr@,
                        indices@,
                        data@,
                    ),
                }
            }),
    {
        let outer = match storage {
            CompressedStorage::CSR => rows,
            CompressedStorage::CSC => cols,
        };
        let inner = match storage {
            CompressedStorage::CSR => cols,
            CompressedStorage::CSC => rows,
        };
        if indptr.len() == 0 || indptr.len() - 1 != outer {
            return Err(SprsError::BadStructure);
        }
        if indptr[0] != 0 {
            return Err(SprsError::BadStructure);
        }
        if indptr[outer] != indices.len() {
            return Err(SprsError::BadStructure);
        }
        if data.len() != indices.len() {
            return Err(SprsError::BadStructure);
        }
        let mut i: usize = 0;
        while i < outer
            invariant
                0 <= i <= outer,
                outer == (if storage == CompressedStorage::CSR { rows } else { cols }),
                inner == (if storage == CompressedStorage::CSR { cols } else { rows }),
                indptr@.len() == outer + 1,
                indptr@[outer as int] == indices@.len(),
                data@.len() == indices@.len(),
                indptr@[0] == 0,
                forall|a: int, b: int| 0 <= a <= b <= i ==> indptr@[a] <= indptr@[b],
                forall|a: int|
                    0 <= a < i ==> line_ok(
                        #[trigger] line_of(indptr@, indices@, data@, a),
                        inner as nat,
                    ),
            decreases outer - i,
        {
            let lo = indptr[i];
            let hi = indptr[i + 1];
            if hi < lo || hi > indices.len() {
                return Err(SprsError::BadStructure);
            }
            let mut k = lo;
            while k < hi
                invariant
                    lo <= k <= hi <= indices@.len(),
                    outer == (if storage == CompressedStorage::CSR { rows } else { cols }),
                    inner == (if storage == CompressedStorage::CSR { cols } else { rows }),
                    i < outer,
                    indptr@.len() == outer + 1,
                    lo == indptr@[i as int],
                    hi == indptr@[i + 1],
                    forall|t: int| lo <= t < k ==> indices@[t] < inner,
                    forall|t1: int, t2: int| lo <= t1 < t2 < k ==> indices@[t1] < indices@[t2],
                decreases hi - k,
            {
                if indices[k] >= inner || (k > lo && indices[k - 1] >= indices[k]) {
                    proof {
                        let l = line_of(indptr@, indices@, data@, i as int);
                        if indices@[k as int] >= inner {
                            assert(l[k - lo].0 >= inner);
                        } else {
                            assert(l[k - lo - 1].0 >= l[k - lo].0);
                        }
                        assert(!line_ok(l, inner as nat));
                        assert(!arrays_wf(outer as nat, inner as nat, indptr@, indices@, data@)) by {
                            if arrays_wf(outer as nat, inner as nat, indptr@, indices@, data@) {
                                assert(line_ok(l, inner as nat));
                            }
                        }
                    }
                    return Err(SprsError::BadStructure);
                }
                k = k + 1;
            }
            proof {
                let l = line_of(indptr@, indices@, data@, i as int);
                assert forall|k1: int, k2: int| 0 <= k1 < k2 < l.len() implies (#[trigger] l[k1]).0
                    < (#[trigger] l[k2]).0 by {
                    assert(indices@[lo + k1] < indices@[lo + k2]);
                }
                assert forall|a: int, b: int| 0 <= a <= b <= i + 1 implies indptr@[a] <= indptr@[b] by {
                    if b == i + 1 && a <= i {
                        assert(indptr@[a] <= indptr@[i as int]);
                    }
                }
            }
            i = i + 1;
        }
        Ok(CsMatVec { storage, outer, inner, indptr, indices, data })
    }

    /// The transposed matrix, obtained without copying by reading the same
    /// arrays in the other orientation.
    pub fn transpose_into(self) -> (r: Self)
        ensures
            r.wf() == self.wf(),
            r@ == (CsModel { storage: other_storage(self@.storage), ..self@ }),
    {
        let storage = self.storage.other();
        CsMatVec { storage, ..self }
    }

    pub fn rows(&self) -> (r: usize)
        ensures
            r == self@.rows(),
    {
        match self.storage {
            CompressedStorage::CSR => self.outer,
            CompressedStorage::CSC => self.inner,
        }
    }

    pub fn cols(&self) -> (r: usize)
        ensures
            r == self@.cols(),
    {
        match self.storage {
            CompressedStorage::CSR => self.inner,
            CompressedStorage::CSC => self.outer,
        }
    }

    pub fn indptr(&self) -> (r: &[usize])
        ensures
            r@ == self.indptr@,
    {
        self.indptr.as_slice()
    }

    pub fn indices(&self) -> (r: &[usize])
        ensures
            r@ == self.indices@,
    {
        self.indices.as_slice()
    }

    pub fn data(&self) -> (r: &[N])
        ensures
            r@ == self.data@,
    {
        self.data.as_slice()
    }
}

/// Converting a valid matrix stored by rows to columns and back to rows
/// reproduces its offsets, indices and values exactly.
pub proof fn lemma_round_trip_arrays<N: Copy>(m: CsMatVec<N>, c: CsMatVec<N>, back: CsMatVec<N>)
    requires
        m.wf(),
        m@.storage == CompressedStorage::CSR,
        c.wf(),
        c@ == transposed(m@),
        back.wf(),
        back@ == transposed(c@),
    ensures
        back.spec_indptr() == m.spec_indptr(),
        back.spec_indices() == m.spec_indices(),
        back.spec_data() == m.spec_data(),
{
    assert(m@.wf()) by {
        assert forall|i: int| 0 <= i < m@.lines.len() implies line_ok(
            #[trigger] m@.lines[i],
            m@.inner,
        ) by {
            assert(m@.lines[i] == line_of(m.indptr@, m.indices@, m.data@, i));
        }
    }
    lemma_round_trip(m@);
    lemma_model_determines_arrays(back, m);
}

/// Pairs parallel index and value sequences into a line.
pub open spec fn zip_line<N>(idx: Seq<usize>, vals: Seq<N>) -> Seq<(usize, N)> {
    Seq::new(idx.len(), |k: int| (idx[k], vals[k]))
}

} // verus!
