//! Assembly of a sparse matrix from a grid of optional blocks.

use vstd::prelude::*;
use crate::construct::as_storage;
use crate::csmat::{
    entry, lemma_entry_at, lemma_flatten_prefix, lemma_transposed_same_matrix, line_of, line_ok,
    sorted_line,
    transposed, zip_line, CompressedStorage, CsMatVec, CsMatView, CsModel,
};
use vstd::seq_lib::lemma_flatten_concat;
use crate::errors::SprsError;

verus! {

/// The models of a grid of optional views.
pub open spec fn grid_models<'a, N>(mats: Seq<Vec<Option<CsMatView<'a, N>>>>) -> Seq<
    Seq<Option<CsModel<N>>>,
> {
    mats.map_values(
        |row: Vec<Option<CsMatView<'a, N>>>|
            row@.map_values(
                |c: Option<CsMatView<'a, N>>|
                    match c {
                        Some(v) => Some(v@),
                        None => None,
                    },
            ),
    )
}

pub open spec fn grid_empty<N>(g: Seq<Seq<Option<CsModel<N>>>>) -> bool {
    g.len() == 0
}

pub open spec fn grid_ragged<N>(g: Seq<Seq<Option<CsModel<N>>>>) -> bool {
    exists|r: int| 0 <= r < g.len() && (#[trigger] g[r]).len() != g[0].len()
}

/// Grid row `r` holds no block.
pub open spec fn none_in_row<N>(g: Seq<Seq<Option<CsModel<N>>>>, r: int) -> bool {
    forall|c: int| 0 <= c < g[0].len() ==> (#[trigger] g[r][c]) is None
}

/// Grid column `c` holds no block.
pub open spec fn none_in_col<N>(g: Seq<Seq<Option<CsModel<N>>>>, c: int) -> bool {
    forall|r: int| 0 <= r < g.len() ==> (#[trigger] g[r][c]) is None
}

/// Some grid row holds no block.
pub open spec fn row_absent<N>(g: Seq<Seq<Option<CsModel<N>>>>) -> bool {
    exists|r: int| 0 <= r < g.len() && #[trigger] none_in_row(g, r)
}

/// Some grid column holds no block.
pub open spec fn col_absent<N>(g: Seq<Seq<Option<CsModel<N>>>>) -> bool {
    exists|c: int| 0 <= c < g[0].len() && #[trigger] none_in_col(g, c)
}

/// Two blocks of one grid row differ in their number of rows.
pub open spec fn height_mismatch<N>(g: Seq<Seq<Option<CsModel<N>>>>) -> bool {
    exists|r: int, c1: int, c2: int|
        0 <= r < g.len() && 0 <= c1 < g[0].len() && 0 <= c2 < g[0].len() && (#[trigger] g[r][c1])
            is Some && (#[trigger] g[r][c2]) is Some && g[r][c1]->Some_0.rows() != g[r][c2]->Some_0.rows()
}

/// Two blocks of one grid column differ in their number of columns.
pub open spec fn width_mismatch<N>(g: Seq<Seq<Option<CsModel<N>>>>) -> bool {
    exists|r1: int, r2: int, c: int|
        0 <= r1 < g.len() && 0 <= r2 < g.len() && 0 <= c < g[0].len() && (#[trigger] g[r1][c])
            is Some && (#[trigger] g[r2][c]) is Some && g[r1][c]->Some_0.cols() != g[r2][c]->Some_0.cols()
}

/// The failure that a grid meets first, if any.
pub open spec fn grid_error<N>(g: Seq<Seq<Option<CsModel<N>>>>) -> Option<SprsError> {
    if grid_empty(g) {
        Some(SprsError::EmptyStackingList)
    } else if grid_ragged(g) {
        Some(SprsError::IncompatibleDimensions)
    } else if row_absent(g) || col_absent(g) {
        Some(SprsError::DimensionInference)
    } else if height_mismatch(g) || width_mismatch(g) {
        Some(SprsError::IncompatibleDimensions)
    } else {
        None
    }
}

/// The number of rows of grid row `r`, taken from one of its blocks.
pub open spec fn height<N>(g: Seq<Seq<Option<CsModel<N>>>>, r: int) -> nat {
    g[r][choose|c: int| 0 <= c < g[0].len() && (#[trigger] g[r][c]) is Some]->Some_0.rows()
}

/// The number of columns of grid column `c`, taken from one of its blocks.
pub open spec fn width<N>(g: Seq<Seq<Option<CsModel<N>>>>, c: int) -> nat {
    g[choose|r: int| 0 <= r < g.len() && (#[trigger] g[r][c]) is Some][c]->Some_0.cols()
}

/// The first column of the result that grid column `c` covers.
pub open spec fn col_off<N>(g: Seq<Seq<Option<CsModel<N>>>>, c: int) -> nat
    decreases c,
{
    if c <= 0 {
        0
    } else {
        col_off(g, c - 1) + width(g, c - 1)
    }
}

/// A line with every inner index moved by `off`.
pub open spec fn shift<N>(l: Seq<(usize, N)>, off: nat) -> Seq<(usize, N)> {
    l.map_values(|p: (usize, N)| ((p.0 + off) as usize, p.1))
}

/// Row `i` of grid row `r`, over the first `c` grid columns; an absent
/// block contributes nothing.
pub open spec fn grid_line<N>(g: Seq<Seq<Option<CsModel<N>>>>, r: int, i: int, c: int) -> Seq<
    (usize, N),
>
    decreases c,
{
    if c <= 0 {
        Seq::empty()
    } else {
        grid_line(g, r, i, c - 1) + match g[r][c - 1] {
            Some(b) => shift(as_storage(b, CompressedStorage::CSR).lines[i], col_off(g, c - 1)),
            None => Seq::empty(),
        }
    }
}

/// The rows of the result that grid row `r` gives.
pub open spec fn block_rows<N>(g: Seq<Seq<Option<CsModel<N>>>>, r: int) -> Seq<Seq<(usize, N)>> {
    Seq::new(height(g, r), |i: int| grid_line(g, r, i, g[0].len() as int))
}

/// The rows of the result over the first `r` grid rows.
pub open spec fn bmat_lines<N>(g: Seq<Seq<Option<CsModel<N>>>>, r: int) -> Seq<Seq<(usize, N)>>
    decreases r,
{
    if r <= 0 {
        Seq::empty()
    } else {
        bmat_lines(g, r - 1) + block_rows(g, r - 1)
    }
}

/// The assembled matrix of a valid grid, stored by rows.
pub open spec fn bmat_model<N>(g: Seq<Seq<Option<CsModel<N>>>>) -> CsModel<N> {
    CsModel {
        storage: CompressedStorage::CSR,
        inner: col_off(g, g[0].len() as int),
        lines: bmat_lines(g, g.len() as int),
    }
}

/// The assembled matrix of a valid grid fits in memory.
pub open spec fn bmat_fits<N>(g: Seq<Seq<Option<CsModel<N>>>>) -> bool {
    grid_error(g) is None ==> {
        &&& col_off(g, g[0].len() as int) <= usize::MAX
        &&& bmat_lines(g, g.len() as int).len() < usize::MAX
        &&& bmat_lines(g, g.len() as int).flatten().len() <= usize::MAX
    }
}

/// The failure that the grid meets first, if any.
#[verifier::spinoff_prover]
fn check_grid<'a, N: Copy>(mats: &[Vec<Option<CsMatView<'a, N>>>]) -> (r: Option<SprsError>)
    ensures
        r == grid_error(grid_models(mats@)),
{
    let ghost g = grid_models(mats@);
    if mats.len() == 0 {
        return Some(SprsError::EmptyStackingList);
    }
    let ncols = mats[0].len();
    let nrows = mats.len();
    let mut r: usize = 0;
    while r < nrows
        invariant
            0 <= r <= nrows,
            nrows == mats@.len(),
            ncols == g[0].len(),
            g == grid_models(mats@),
            nrows > 0,
            forall|t: int| 0 <= t < r ==> (#[trigger] g[t]).len() == ncols,
        decreases nrows - r,
    {
        if mats[r].len() != ncols {
            assert(g[r as int].len() != g[0].len());
            return Some(SprsError::IncompatibleDimensions);
        }
        r = r + 1;
    }
    assert(!grid_ragged(g));
    if ncols == 0 {
        // the first grid row has no cell, so no block to take its height from
        assert(none_in_row(g, 0));
        return Some(SprsError::DimensionInference);
    }
    let mut r: usize = 0;
    while r < nrows
        invariant
            0 <= r <= nrows,
            nrows == mats@.len(),
            ncols == g[0].len(),
            g == grid_models(mats@),
            nrows > 0,
            ncols > 0,
            forall|t: int| 0 <= t < nrows ==> (#[trigger] g[t]).len() == ncols,
            !grid_empty(g),
            !grid_ragged(g),
            forall|t: int| 0 <= t < r ==> !(#[trigger] none_in_row(g, t)),
        decreases nrows - r,
    {
        let mut any = false;
        let mut c: usize = 0;
        while c < ncols
            invariant
                0 <= c <= ncols,
                0 <= r < nrows,
                nrows == mats@.len(),
                ncols == g[0].len(),
                g == grid_models(mats@),
                nrows > 0,
                ncols > 0,
                forall|t: int| 0 <= t < nrows ==> (#[trigger] g[t]).len() == ncols,
                !grid_empty(g),
                !grid_ragged(g),
                any ==> exists|u: int| 0 <= u < c && (#[trigger] g[r as int][u]) is Some,
                !any ==> forall|u: int| 0 <= u < c ==> (#[trigger] g[r as int][u]) is None,
            decreases ncols - c,
        {
            assert(mats@[r as int]@.len() == ncols);
            if mats[r][c].is_some() {
                assert(g[r as int][c as int] is Some);
                any = true;
            }
            c = c + 1;
        }
        if !any {
            assert(none_in_row(g, r as int));
            return Some(SprsError::DimensionInference);
        }
        r = r + 1;
    }
    let mut c: usize = 0;
    while c < ncols
        invariant
            0 <= c <= ncols,
            nrows == mats@.len(),
            ncols == g[0].len(),
            g == grid_models(mats@),
            nrows > 0,
            ncols > 0,
            forall|t: int| 0 <= t < nrows ==> (#[trigger] g[t]).len() == ncols,
            !grid_empty(g),
            !grid_ragged(g),
            !row_absent(g),
            forall|t: int| 0 <= t < c ==> !(#[trigger] none_in_col(g, t)),
        decreases ncols - c,
    {
        let mut any = false;
        let mut r: usize = 0;
        while r < nrows
            invariant
                0 <= r <= nrows,
                0 <= c < ncols,
                nrows == mats@.len(),
                ncols == g[0].len(),
                g == grid_models(mats@),
                nrows > 0,
                ncols > 0,
                forall|t: int| 0 <= t < nrows ==> (#[trigger] g[t]).len() == ncols,
                !grid_empty(g),
                !grid_ragged(g),
                any ==> exists|u: int| 0 <= u < r && (#[trigger] g[u][c as int]) is Some,
                !any ==> forall|u: int| 0 <= u < r ==> (#[trigger] g[u][c as int]) is None,
            decreases nrows - r,
        {
            assert(mats@[r as int]@.len() == ncols);
            if mats[r][c].is_some() {
                assert(g[r as int][c as int] is Some);
                any = true;
            }
            r = r + 1;
        }
        if !any {
            assert(none_in_col(g, c as int));
            return Some(SprsError::DimensionInference);
        }
        c = c + 1;
    }
    let mut r: usize = 0;
    while r < nrows
        invariant
            0 <= r <= nrows,
            nrows == mats@.len(),
            ncols == g[0].len(),
            g == grid_models(mats@),
            nrows > 0,
            ncols > 0,
            forall|t: int| 0 <= t < nrows ==> (#[trigger] g[t]).len() == ncols,
            !grid_empty(g),
            !grid_ragged(g),
            !row_absent(g),
            !col_absent(g),
            forall|t: int, c1: int, c2: int|
                0 <= t < r && 0 <= c1 < ncols && 0 <= c2 < ncols && (#[trigger] g[t][c1]) is Some
                    && (#[trigger] g[t][c2]) is Some ==> g[t][c1]->Some_0.rows() == g[t][c2]->Some_0.rows(),
        decreases nrows - r,
    {
        let mut h: usize = 0;
        let mut found = false;
        let mut c: usize = 0;
        while c < ncols
            invariant
                0 <= c <= ncols,
                0 <= r < nrows,
                nrows == mats@.len(),
                ncols == g[0].len(),
                g == grid_models(mats@),
                nrows > 0,
                ncols > 0,
                forall|t: int| 0 <= t < nrows ==> (#[trigger] g[t]).len() == ncols,
                !grid_empty(g),
                !grid_ragged(g),
                !row_absent(g),
                !col_absent(g),
                found ==> exists|u: int| 0 <= u < ncols && (#[trigger] g[r as int][u]) is Some
                    && g[r as int][u]->Some_0.rows() == h,
                !found ==> forall|u: int| 0 <= u < c ==> (#[trigger] g[r as int][u]) is None,
                forall|u: int|
                    0 <= u < c && (#[trigger] g[r as int][u]) is Some ==> g[r as int][u]->Some_0.rows() == h,
            decreases ncols - c,
        {
            assert(mats@[r as int]@.len() == ncols);
            match mats[r][c] {
                Some(b) => {
                    let br = b.rows();
                    if !found {
                        h = br;
                        found = true;
                    } else if br != h {
                        let ghost u = choose|u: int| 0 <= u < ncols && (#[trigger] g[r as int][u]) is Some
                            && g[r as int][u]->Some_0.rows() == h;
                        assert(g[r as int][c as int] is Some);
                        assert(g[r as int][u] is Some);
                        assert(g[r as int][c as int]->Some_0.rows() == br);
                        assert(height_mismatch(g));
                        return Some(SprsError::IncompatibleDimensions);
                    }
                },
                None => {},
            }
            c = c + 1;
        }
        r = r + 1;
    }
    let mut c: usize = 0;
    while c < ncols
        invariant
            0 <= c <= ncols,
            nrows == mats@.len(),
            ncols == g[0].len(),
            g == grid_models(mats@),
            nrows > 0,
            ncols > 0,
            forall|t: int| 0 <= t < nrows ==> (#[trigger] g[t]).len() == ncols,
            !grid_empty(g),
            !grid_ragged(g),
            !row_absent(g),
            !col_absent(g),
            !height_mismatch(g),
            forall|t: int, r1: int, r2: int|
                0 <= t < c && 0 <= r1 < nrows && 0 <= r2 < nrows && (#[trigger] g[r1][t]) is Some
                    && (#[trigger] g[r2][t]) is Some ==> g[r1][t]->Some_0.cols() == g[r2][t]->Some_0.cols(),
        decreases ncols - c,
    {
        let mut w: usize = 0;
        let mut found = false;
        let mut r: usize = 0;
        while r < nrows
            invariant
                0 <= r <= nrows,
                0 <= c < ncols,
                nrows == mats@.len(),
                ncols == g[0].len(),
                g == grid_models(mats@),
                nrows > 0,
                ncols > 0,
                forall|t: int| 0 <= t < nrows ==> (#[trigger] g[t]).len() == ncols,
                !grid_empty(g),
                !grid_ragged(g),
                !row_absent(g),
                !col_absent(g),
                !height_mismatch(g),
                found ==> exists|u: int| 0 <= u < nrows && (#[trigger] g[u][c as int]) is Some
                    && g[u][c as int]->Some_0.cols() == w,
                !found ==> forall|u: int| 0 <= u < r ==> (#[trigger] g[u][c as int]) is None,
                forall|u: int|
                    0 <= u < r && (#[trigger] g[u][c as int]) is Some ==> g[u][c as int]->Some_0.cols() == w,
            decreases nrows - r,
        {
            assert(mats@[r as int]@.len() == ncols);
            match mats[r][c] {
                Some(b) => {
                    let bc = b.cols();
                    if !found {
                        w = bc;
                        found = true;
                    } else if bc != w {
                        let ghost u = choose|u: int| 0 <= u < nrows && (#[trigger] g[u][c as int]) is Some
                            && g[u][c as int]->Some_0.cols() == w;
                        assert(g[r as int][c as int] is Some);
                        assert(g[u][c as int] is Some);
                        assert(g[r as int][c as int]->Some_0.cols() == bc);
                        assert(width_mismatch(g));
                        return Some(SprsError::IncompatibleDimensions);
                    }
                },
                None => {},
            }
            r = r + 1;
        }
        c = c + 1;
    }
    None
}

proof fn lemma_col_off_mono<N>(g: Seq<Seq<Option<CsModel<N>>>>, c: int, d: int)
    requires
        0 <= c <= d,
    ensures
        col_off(g, c) <= col_off(g, d),
    decreases d,
{
    if c < d {
        lemma_col_off_mono(g, c, d - 1);
    }
}

proof fn lemma_bmat_prefix<N>(g: Seq<Seq<Option<CsModel<N>>>>, r: int, n: int)
    requires
        0 <= r <= n,
    ensures
        bmat_lines(g, r).len() <= bmat_lines(g, n).len(),
        bmat_lines(g, r).flatten().len() <= bmat_lines(g, n).flatten().len(),
    decreases n,
{
    if r < n {
        lemma_bmat_prefix(g, r, n - 1);
        lemma_flatten_concat(bmat_lines(g, n - 1), block_rows(g, n - 1));
    }
}

/// A line below `off` followed by a line below `w` moved by `off` is a line below `off + w`.
proof fn lemma_concat_shift_ok<N>(a: Seq<(usize, N)>, l: Seq<(usize, N)>, off: nat, w: nat)
    requires
        line_ok(a, off),
        line_ok(l, w),
        off + w <= usize::MAX,
    ensures
        line_ok(a + shift(l, off), off + w),
{
    let s = a + shift(l, off);
    assert forall|k1: int, k2: int| 0 <= k1 < k2 < s.len() implies (#[trigger] s[k1]).0 < (
    #[trigger] s[k2]).0 by {
        if k2 < a.len() {
        } else if k1 < a.len() {
            assert(s[k2] == shift(l, off)[k2 - a.len()]);
        } else {
            assert(l[k1 - a.len()].0 < l[k2 - a.len()].0);
        }
    }
    assert forall|k: int| 0 <= k < s.len() implies (#[trigger] s[k]).0 < off + w by {
        if k >= a.len() {
            assert(l[k - a.len()].0 < w);
        }
    }
}

/// Assembles a matrix from a grid of optional blocks, an absent block
/// standing for a block of zeros. The grid must have a row and be
/// rectangular; every grid row and every grid column must hold a block (a
/// row without cells holds none), and the blocks of a grid row must agree
/// on their number of rows, those of a grid column on their number of
/// columns. The result is stored by rows.
#[verifier::spinoff_prover]
pub fn bmat<'a, N: Copy>(mats: &[Vec<Option<CsMatView<'a, N>>>]) -> (res: Result<
    CsMatVec<N>,
    SprsError,
>)
    requires
        forall|r: int, c: int|
            0 <= r < mats@.len() && 0 <= c < mats@[r]@.len() && (#[trigger] mats@[r]@[c]) is Some
                ==> mats@[r]@[c]->Some_0.wf(),
        bmat_fits(grid_models(mats@)),
    ensures
        match grid_error(grid_models(mats@)) {
            Some(e) => res == Err::<CsMatVec<N>, SprsError>(e),
            None => res is Ok && res->Ok_0.wf() && res->Ok_0@ == bmat_model(grid_models(mats@)),
        },
{
    let ghost g = grid_models(mats@);
    match check_grid(mats) {
        Some(e) => {
            return Err(e);
        },
        None => {},
    }
    let nrows = mats.len();
    let ncols = mats[0].len();
    assert(forall|t: int| 0 <= t < nrows ==> (#[trigger] g[t]).len() == ncols);
    // the blocks, stored by rows
    let mut cb: Vec<Vec<Option<CsMatVec<N>>>> = Vec::new();
    let mut r: usize = 0;
    while r < nrows
        invariant
            0 <= r <= nrows,
            nrows == mats@.len(),
            ncols == g[0].len(),
            g == grid_models(mats@),
            grid_error(g) is None,
            forall|t: int| 0 <= t < nrows ==> (#[trigger] g[t]).len() == ncols,
            forall|r: int, c: int|
                0 <= r < mats@.len() && 0 <= c < mats@[r]@.len() && (#[trigger] mats@[r]@[c]) is Some
                    ==> mats@[r]@[c]->Some_0.wf(),
            cb@.len() == r,
            forall|t: int| 0 <= t < r ==> (#[trigger] cb@[t])@.len() == ncols,
            forall|t: int, c: int|
                0 <= t < r && 0 <= c < ncols ==> ((#[trigger] cb@[t]@[c]) is Some <==> g[t][c] is Some),
            forall|t: int, c: int|
                0 <= t < r && 0 <= c < ncols && (#[trigger] cb@[t]@[c]) is Some ==> cb@[t]@[c]->Some_0.wf()
                    && cb@[t]@[c]->Some_0@ == as_storage(g[t][c]->Some_0, CompressedStorage::CSR),
        decreases nrows - r,
    {
        let mut row: Vec<Option<CsMatVec<N>>> = Vec::new();
        let mut c: usize = 0;
        while c < ncols
            invariant
                0 <= c <= ncols,
                0 <= r < nrows,
                nrows == mats@.len(),
                ncols == g[0].len(),
                g == grid_models(mats@),
                forall|t: int| 0 <= t < nrows ==> (#[trigger] g[t]).len() == ncols,
                forall|r: int, c: int|
                    0 <= r < mats@.len() && 0 <= c < mats@[r]@.len() && (#[trigger] mats@[r]@[c]) is Some
                        ==> mats@[r]@[c]->Some_0.wf(),
                row@.len() == c,
                forall|u: int| 0 <= u < c ==> ((#[trigger] row@[u]) is Some <==> g[r as int][u] is Some),
                forall|u: int|
                    0 <= u < c && (#[trigger] row@[u]) is Some ==> row@[u]->Some_0.wf()
                        && row@[u]->Some_0@ == as_storage(g[r as int][u]->Some_0, CompressedStorage::CSR),
            decreases ncols - c,
        {
            assert(mats@[r as int]@.len() == ncols);
            match mats[r][c] {
                Some(b) => {
                    assert(mats@[r as int]@[c as int] is Some);
                    row.push(Some(b.to_csr()));
                },
                None => {
                    row.push(None);
                },
            }
            c = c + 1;
        }
        cb.push(row);
        r = r + 1;
    }
    // the heights of the grid rows
    let mut h: Vec<usize> = Vec::new();
    let mut r: usize = 0;
    while r < nrows
        invariant
            0 <= r <= nrows,
            nrows == mats@.len(),
            ncols == g[0].len(),
            g == grid_models(mats@),
            grid_error(g) is None,
            forall|t: int| 0 <= t < nrows ==> (#[trigger] g[t]).len() == ncols,
            h@.len() == r,
            forall|t: int| 0 <= t < r ==> (#[trigger] h@[t]) == height(g, t),
        decreases nrows - r,
    {
        assert(!none_in_row(g, r as int));
        let ghost c0 = choose|c: int| 0 <= c < ncols && (#[trigger] g[r as int][c]) is Some;
        let mut c: usize = 0;
        let mut found: Option<usize> = None;
        while c < ncols
            invariant
                0 <= c <= ncols,
                0 <= r < nrows,
                nrows == mats@.len(),
                ncols == g[0].len(),
                g == grid_models(mats@),
                grid_error(g) is None,
                forall|t: int| 0 <= t < nrows ==> (#[trigger] g[t]).len() == ncols,
                found is None ==> forall|u: int| 0 <= u < c ==> (#[trigger] g[r as int][u]) is None,
                found is Some ==> found->Some_0 == height(g, r as int),
            decreases ncols - c,
        {
            assert(mats@[r as int]@.len() == ncols);
            if found.is_none() {
                match mats[r][c] {
                    Some(b) => {
                        assert(g[r as int][c as int] is Some);
                        let ghost cc = choose|u: int| 0 <= u < ncols && (#[trigger] g[r as int][u]) is Some;
                        assert(g[r as int][c as int] is Some);
                        assert(g[r as int][cc] is Some);
                        assert(!height_mismatch(g));
                        found = Some(b.rows());
                    },
                    None => {},
                }
            }
            c = c + 1;
        }
        assert(g[r as int][c0] is Some);
        h.push(found.unwrap());
        r = r + 1;
    }
    // the first result column of each grid column
    let mut off: Vec<usize> = Vec::new();
    off.push(0);
    let mut c: usize = 0;
    proof {
        lemma_col_off_mono(g, 0, ncols as int);
    }
    while c < ncols
        invariant
            0 <= c <= ncols,
            nrows == mats@.len(),
            ncols == g[0].len(),
            g == grid_models(mats@),
            grid_error(g) is None,
            bmat_fits(g),
            forall|t: int| 0 <= t < nrows ==> (#[trigger] g[t]).len() == ncols,
            off@.len() == c + 1,
            forall|t: int| 0 <= t <= c ==> (#[trigger] off@[t]) == col_off(g, t),
        decreases ncols - c,
    {
        assert(!none_in_col(g, c as int));
        let ghost r0 = choose|r: int| 0 <= r < nrows && (#[trigger] g[r][c as int]) is Some;
        assert(g[r0][c as int] is Some);
        let mut r: usize = 0;
        let mut found: Option<usize> = None;
        while r < nrows
            invariant
                0 <= r <= nrows,
                0 <= c < ncols,
                nrows == mats@.len(),
                ncols == g[0].len(),
                g == grid_models(mats@),
                grid_error(g) is None,
                forall|t: int| 0 <= t < nrows ==> (#[trigger] g[t]).len() == ncols,
                found is None ==> forall|u: int| 0 <= u < r ==> (#[trigger] g[u][c as int]) is None,
                found is Some ==> found->Some_0 == width(g, c as int),
            decreases nrows - r,
        {
            assert(mats@[r as int]@.len() == ncols);
            if found.is_none() {
                match mats[r][c] {
                    Some(b) => {
                        assert(g[r as int][c as int] is Some);
                        let ghost rr = choose|u: int| 0 <= u < nrows && (#[trigger] g[u][c as int]) is Some;
                        assert(g[r as int][c as int] is Some);
                        assert(g[rr][c as int] is Some);
                        assert(!width_mismatch(g));
                        found = Some(b.cols());
                    },
                    None => {},
                }
            }
            r = r + 1;
        }
        assert(g[r0][c as int] is Some);
        let w = found.unwrap();
        proof {
            lemma_col_off_mono(g, c + 1, ncols as int);
        }
        let o = off[c] + w;
        off.push(o);
        c = c + 1;
    }
    let mut res: CsMatVec<N> = CsMatVec::empty(CompressedStorage::CSR, off[ncols]);
    let mut r: usize = 0;
    while r < nrows
        invariant
            0 <= r <= nrows,
            nrows == mats@.len(),
            ncols == g[0].len(),
            g == grid_models(mats@),
            grid_error(g) is None,
            bmat_fits(g),
            forall|t: int| 0 <= t < nrows ==> (#[trigger] g[t]).len() == ncols,
            cb@.len() == nrows,
            forall|t: int| 0 <= t < nrows ==> (#[trigger] cb@[t])@.len() == ncols,
            forall|t: int, c: int|
                0 <= t < nrows && 0 <= c < ncols ==> ((#[trigger] cb@[t]@[c]) is Some <==> g[t][c] is Some),
            forall|t: int, c: int|
                0 <= t < nrows && 0 <= c < ncols && (#[trigger] cb@[t]@[c]) is Some ==> cb@[t]@[c]->Some_0.wf()
                    && cb@[t]@[c]->Some_0@ == as_storage(g[t][c]->Some_0, CompressedStorage::CSR),
            h@.len() == nrows,
            forall|t: int| 0 <= t < nrows ==> (#[trigger] h@[t]) == height(g, t),
            off@.len() == ncols + 1,
            forall|t: int| 0 <= t <= ncols ==> (#[trigger] off@[t]) == col_off(g, t),
            res.wf(),
            res@.storage == CompressedStorage::CSR,
            res@.inner == col_off(g, ncols as int),
            res@.lines == bmat_lines(g, r as int),
        decreases nrows - r,
    {
        let ghost pre = res@.lines;
        let ghost br = block_rows(g, r as int);
        proof {
            lemma_bmat_prefix(g, r + 1, nrows as int);
            lemma_flatten_concat(pre, br);
        }
        let mut i: usize = 0;
        while i < h[r]
            invariant
                0 <= r < nrows,
                0 <= i <= h@[r as int],
                nrows == mats@.len(),
                ncols == g[0].len(),
                g == grid_models(mats@),
                grid_error(g) is None,
                bmat_fits(g),
                forall|t: int| 0 <= t < nrows ==> (#[trigger] g[t]).len() == ncols,
                cb@.len() == nrows,
                forall|t: int| 0 <= t < nrows ==> (#[trigger] cb@[t])@.len() == ncols,
                forall|t: int, c: int|
                    0 <= t < nrows && 0 <= c < ncols ==> ((#[trigger] cb@[t]@[c]) is Some <==> g[t][c] is Some),
                forall|t: int, c: int|
                    0 <= t < nrows && 0 <= c < ncols && (#[trigger] cb@[t]@[c]) is Some ==> cb@[t]@[c]->Some_0.wf()
                        && cb@[t]@[c]->Some_0@ == as_storage(g[t][c]->Some_0, CompressedStorage::CSR),
                h@.len() == nrows,
                forall|t: int| 0 <= t < nrows ==> (#[trigger] h@[t]) == height(g, t),
                off@.len() == ncols + 1,
                forall|t: int| 0 <= t <= ncols ==> (#[trigger] off@[t]) == col_off(g, t),
                res.wf(),
                res@.storage == CompressedStorage::CSR,
                res@.inner == col_off(g, ncols as int),
                pre == bmat_lines(g, r as int),
                br == block_rows(g, r as int),
                bmat_lines(g, r + 1) == pre + br,
                (pre + br).len() <= bmat_lines(g, nrows as int).len(),
                (pre + br).flatten().len() <= bmat_lines(g, nrows as int).flatten().len(),
                (pre + br).flatten().len() == pre.flatten().len() + br.flatten().len(),
                res@.lines == pre + br.take(i as int),
            decreases h@[r as int] - i,
        {
            let mut idx: Vec<usize> = Vec::new();
            let mut vals: Vec<N> = Vec::new();
            let mut c: usize = 0;
            proof {
                lemma_col_off_mono(g, 0, ncols as int);
            }
            while c < ncols
                invariant
                    0 <= r < nrows,
                    0 <= i < h@[r as int],
                    0 <= c <= ncols,
                    nrows == mats@.len(),
                    ncols == g[0].len(),
                    g == grid_models(mats@),
                    grid_error(g) is None,
                    bmat_fits(g),
                    forall|t: int| 0 <= t < nrows ==> (#[trigger] g[t]).len() == ncols,
                    cb@.len() == nrows,
                    forall|t: int| 0 <= t < nrows ==> (#[trigger] cb@[t])@.len() == ncols,
                    forall|t: int, c: int|
                        0 <= t < nrows && 0 <= c < ncols ==> ((#[trigger] cb@[t]@[c]) is Some <==> g[t][c] is Some),
                    forall|t: int, c: int|
                        0 <= t < nrows && 0 <= c < ncols && (#[trigger] cb@[t]@[c]) is Some ==> cb@[t]@[c]->Some_0.wf()
                            && cb@[t]@[c]->Some_0@ == as_storage(g[t][c]->Some_0, CompressedStorage::CSR),
                    h@.len() == nrows,
                    forall|t: int| 0 <= t < nrows ==> (#[trigger] h@[t]) == height(g, t),
                    off@.len() == ncols + 1,
                    forall|t: int| 0 <= t <= ncols ==> (#[trigger] off@[t]) == col_off(g, t),
                    idx@.len() == vals@.len(),
                    zip_line(idx@, vals@) == grid_line(g, r as int, i as int, c as int),
                    line_ok(zip_line(idx@, vals@), col_off(g, c as int)),
                decreases ncols - c,
            {
                let ghost before = zip_line(idx@, vals@);
                proof {
                    lemma_col_off_mono(g, c + 1, ncols as int);
                }
                match &cb[r][c] {
                    Some(b) => {
                        let ghost m = g[r as int][c as int]->Some_0;
                        proof {
                            assert(cb@[r as int]@[c as int] is Some);
                            assert(g[r as int][c as int] is Some);
                            assert(!height_mismatch(g));
                            assert(!width_mismatch(g));
                            let cc = choose|u: int| 0 <= u < ncols && (#[trigger] g[r as int][u]) is Some;
                            assert(g[r as int][cc] is Some);
                            let rr = choose|u: int| 0 <= u < nrows && (#[trigger] g[u][c as int]) is Some;
                            assert(g[rr][c as int] is Some);
                            assert(m.rows() == height(g, r as int));
                            assert(m.cols() == width(g, c as int));
                        }
                        proof {
                            let bm = b@;
                            assert(b.wf());
                            assert(bm == as_storage(m, CompressedStorage::CSR));
                            assert(bm.inner == m.cols());
                            assert(bm.lines.len() == m.rows());
                            assert(bm.lines[i as int] == line_of(b.indptr@, b.indices@, b.data@, i as int));
                            assert(line_ok(bm.lines[i as int], width(g, c as int)));
                        }
                        let bv = b.borrowed();
                        let (bi, bd) = bv.outer_view(i);
                        let ghost bl = b@.lines[i as int];
                        let ghost sh = shift(bl, col_off(g, c as int));
                        let o = off[c];
                        let mut k: usize = 0;
                        while k < bi.len()
                            invariant
                                0 <= k <= bi@.len(),
                                bi@.len() == bd@.len(),
                                zip_line(bi@, bd@) == bl,
                                line_ok(bl, width(g, c as int)),
                                o == col_off(g, c as int),
                                col_off(g, c as int) + width(g, c as int) <= usize::MAX,
                                sh == shift(bl, col_off(g, c as int)),
                                idx@.len() == vals@.len(),
                                zip_line(idx@, vals@) == before + sh.take(k as int),
                            decreases bi@.len() - k,
                        {
                            assert(bl[k as int].0 < width(g, c as int));
                            assert(bl[k as int] == (bi@[k as int], bd@[k as int]));
                            assert(sh[k as int] == ((bi@[k as int] + o) as usize, bd@[k as int]));
                            let ghost zb = zip_line(idx@, vals@);
                            idx.push(bi[k] + o);
                            vals.push(bd[k]);
                            proof {
                                assert(zip_line(idx@, vals@) =~= zb.push(sh[k as int]));
                                assert(sh.take(k + 1) =~= sh.take(k as int).push(sh[k as int]));
                                assert(zip_line(idx@, vals@) =~= before + sh.take(k + 1));
                            }
                            k = k + 1;
                        }
                        proof {
                            assert(sh.take(bi@.len() as int) =~= sh);
                            lemma_concat_shift_ok(before, bl, col_off(g, c as int), width(g, c as int));
                        }
                    },
                    None => {
                        proof {
                            assert(g[r as int][c as int] is None);
                            assert(line_ok(before, col_off(g, c + 1))) by {
                                assert forall|k: int| 0 <= k < before.len() implies (#[trigger] before[k]).0
                                    < col_off(g, c + 1) by {}
                            }
                            assert(grid_line(g, r as int, i as int, c + 1) =~= before);
                        }
                    },
                }
                c = c + 1;
            }
            proof {
                assert(br[i as int] == grid_line(g, r as int, i as int, ncols as int));
                lemma_flatten_prefix(br, i as int);
                assert(res@.nnz() == (pre + br.take(i as int)).flatten().len());
                lemma_flatten_concat(pre, br.take(i as int));
                lemma_flatten_concat(pre, br.take(i + 1));
            }
            res.append_outer(idx.as_slice(), vals.as_slice());
            proof {
                assert(br.take(i as int).push(br[i as int]) =~= br.take(i + 1));
                assert(res@.lines =~= pre + br.take(i + 1));
            }
            i = i + 1;
        }
        proof {
            assert(br.take(i as int) =~= br);
        }
        r = r + 1;
    }
    Ok(res)
}

/// The entry at `x` of two joined sorted lines, where one of them lacks `x`.
proof fn lemma_entry_concat<N>(a: Seq<(usize, N)>, b: Seq<(usize, N)>, x: int)
    requires
        sorted_line(a),
        sorted_line(b),
    ensures
        (forall|k: int| 0 <= k < a.len() ==> (#[trigger] a[k]).0 != x) ==> entry(a + b, x) == entry(
            b,
            x,
        ),
        (forall|k: int| 0 <= k < b.len() ==> (#[trigger] b[k]).0 != x) ==> entry(a + b, x) == entry(
            a,
            x,
        ),
{
    let s = a + b;
    if forall|k: int| 0 <= k < a.len() ==> (#[trigger] a[k]).0 != x {
        if exists|k: int| 0 <= k < b.len() && b[k].0 == x {
            let k = choose|k: int| 0 <= k < b.len() && b[k].0 == x;
            lemma_entry_at(b, k);
            assert(s[a.len() + k].0 == x);
            let c = choose|c: int| 0 <= c < s.len() && s[c].0 == x;
            if c < a.len() {
                assert(a[c].0 == x);
            } else {
                let d = c - a.len();
                assert(b[d].0 == x);
                if d < k {
                    assert(b[d].0 < b[k].0);
                } else if k < d {
                    assert(b[k].0 < b[d].0);
                }
            }
        } else {
            assert forall|c: int| 0 <= c < s.len() implies s[c].0 != x by {
                if c >= a.len() {
                    assert(s[c] == b[c - a.len()]);
                }
            }
        }
    }
    if forall|k: int| 0 <= k < b.len() ==> (#[trigger] b[k]).0 != x {
        if exists|k: int| 0 <= k < a.len() && a[k].0 == x {
            let k = choose|k: int| 0 <= k < a.len() && a[k].0 == x;
            lemma_entry_at(a, k);
            assert(s[k].0 == x);
            let c = choose|c: int| 0 <= c < s.len() && s[c].0 == x;
            if c >= a.len() {
                assert(b[c - a.len()].0 == x);
            } else {
                if c < k {
                    assert(a[c].0 < a[k].0);
                } else if k < c {
                    assert(a[k].0 < a[c].0);
                }
            }
        } else {
            assert forall|c: int| 0 <= c < s.len() implies s[c].0 != x by {
                if c < a.len() {
                    assert(s[c] == a[c]);
                } else {
                    assert(s[c] == b[c - a.len()]);
                }
            }
        }
    }
}

/// Moving a line by `off` moves its entries by `off`.
proof fn lemma_entry_shift<N>(l: Seq<(usize, N)>, off: nat, w: nat, j: int)
    requires
        line_ok(l, w),
        off + w <= usize::MAX,
    ensures
        entry(shift(l, off), off + j) == entry(l, j),
        line_ok(shift(l, off), off + w),
{
    let t = shift(l, off);
    assert(line_ok(t, off + w)) by {
        assert forall|k1: int, k2: int| 0 <= k1 < k2 < t.len() implies (#[trigger] t[k1]).0 < (
        #[trigger] t[k2]).0 by {
            assert(l[k1].0 < l[k2].0);
        }
        assert forall|k: int| 0 <= k < t.len() implies (#[trigger] t[k]).0 < off + w by {
            assert(l[k].0 < w);
        }
    }
    if exists|k: int| 0 <= k < l.len() && l[k].0 == j {
        let k = choose|k: int| 0 <= k < l.len() && l[k].0 == j;
        lemma_entry_at(l, k);
        lemma_entry_at(t, k);
    } else {
        assert forall|k: int| 0 <= k < t.len() implies t[k].0 != off + j by {
            assert(l[k].0 < w);
        }
    }
}

/// A block that a grid may hold: valid, with sizes that fit in memory.
pub open spec fn block_ok<N>(b: CsModel<N>) -> bool {
    b.wf() && b.outer() <= usize::MAX && b.inner <= usize::MAX
}

/// Every present block of the grid is valid.
pub open spec fn blocks_ok<N>(g: Seq<Seq<Option<CsModel<N>>>>) -> bool {
    forall|r: int, c: int|
        0 <= r < g.len() && 0 <= c < g[r].len() && (#[trigger] g[r][c]) is Some ==> block_ok(
            g[r][c]->Some_0,
        )
}

/// Row `i` of a present block, seen by rows, is a valid line as wide as the block.
proof fn lemma_block_line<N>(g: Seq<Seq<Option<CsModel<N>>>>, r: int, c: int, i: int)
    requires
        grid_error(g) is None,
        blocks_ok(g),
        0 <= r < g.len(),
        0 <= c < g[0].len(),
        g[r][c] is Some,
        0 <= i < height(g, r),
    ensures
        as_storage(g[r][c]->Some_0, CompressedStorage::CSR).lines.len() == height(g, r),
        line_ok(as_storage(g[r][c]->Some_0, CompressedStorage::CSR).lines[i], width(g, c)),
        forall|j: int|
            0 <= j < width(g, c) ==> entry(
                as_storage(g[r][c]->Some_0, CompressedStorage::CSR).lines[i],
                j,
            ) == #[trigger] g[r][c]->Some_0.get(i, j),
{
    let b = g[r][c]->Some_0;
    assert(g[r].len() == g[0].len());
    assert(block_ok(b));
    assert(!height_mismatch(g));
    assert(!width_mismatch(g));
    assert(!none_in_row(g, r));
    assert(!none_in_col(g, c));
    let cc = choose|u: int| 0 <= u < g[0].len() && (#[trigger] g[r][u]) is Some;
    assert(g[r][cc] is Some);
    let rr = choose|u: int| 0 <= u < g.len() && (#[trigger] g[u][c]) is Some;
    assert(g[rr][c] is Some);
    assert(b.rows() == height(g, r));
    assert(b.cols() == width(g, c));
    let bc = as_storage(b, CompressedStorage::CSR);
    if b.storage != CompressedStorage::CSR {
        lemma_transposed_same_matrix(b);
        assert(bc.storage == CompressedStorage::CSR);
        assert forall|j: int| 0 <= j < width(g, c) implies entry(bc.lines[i], j)
            == #[trigger] g[r][c]->Some_0.get(i, j) by {
            assert(transposed(b).get(i, j) == b.get(i, j));
        }
    }
}

/// Every pair of row `i` over the first `c` grid columns lies below `col_off(g, c)`,
/// in increasing order.
proof fn lemma_grid_line_ok<N>(g: Seq<Seq<Option<CsModel<N>>>>, r: int, i: int, c: int)
    requires
        grid_error(g) is None,
        col_off(g, g[0].len() as int) <= usize::MAX,
        blocks_ok(g),
        0 <= r < g.len(),
        0 <= c <= g[0].len(),
        0 <= i < height(g, r),
    ensures
        line_ok(grid_line(g, r, i, c), col_off(g, c)),
    decreases c,
{
    if c > 0 {
        lemma_grid_line_ok(g, r, i, c - 1);
        lemma_col_off_mono(g, c, g[0].len() as int);
        let a = grid_line(g, r, i, c - 1);
        match g[r][c - 1] {
            Some(b) => {
                lemma_block_line(g, r, c - 1, i);
                lemma_concat_shift_ok(
                    a,
                    as_storage(b, CompressedStorage::CSR).lines[i],
                    col_off(g, c - 1),
                    width(g, c - 1),
                );
            },
            None => {
                assert(grid_line(g, r, i, c) =~= a);
                assert forall|k: int| 0 <= k < a.len() implies (#[trigger] a[k]).0 < col_off(g, c) by {}
            },
        }
    }
}

/// Row `i` of grid row `r`, at column `col_off(g, c0) + j`, over the first
/// `c` grid columns (`c0 < c`), holds what block `(r, c0)` holds at `(i, j)`.
proof fn lemma_grid_line_entry<N>(
    g: Seq<Seq<Option<CsModel<N>>>>,
    r: int,
    i: int,
    c0: int,
    j: int,
    c: int,
)
    requires
        grid_error(g) is None,
        bmat_fits(g),
        blocks_ok(g),
        0 <= r < g.len(),
        0 <= c0 < c <= g[0].len(),
        0 <= i < height(g, r),
        0 <= j < width(g, c0),
    ensures
        entry(grid_line(g, r, i, c), col_off(g, c0) + j) == match g[r][c0] {
            Some(b) => b.get(i, j),
            None => None,
        },
    decreases c,
{
    let x = col_off(g, c0) + j;
    let a = grid_line(g, r, i, c - 1);
    lemma_grid_line_ok(g, r, i, c - 1);
    lemma_col_off_mono(g, c, g[0].len() as int);
    let part = match g[r][c - 1] {
        Some(b) => shift(as_storage(b, CompressedStorage::CSR).lines[i], col_off(g, c - 1)),
        None => Seq::empty(),
    };
    assert(grid_line(g, r, i, c) == a + part);
    match g[r][c - 1] {
        Some(b) => {
            lemma_block_line(g, r, c - 1, i);
            lemma_entry_shift(
                as_storage(b, CompressedStorage::CSR).lines[i],
                col_off(g, c - 1),
                width(g, c - 1),
                x - col_off(g, c - 1),
            );
        },
        None => {},
    }
    lemma_entry_concat(a, part, x);
    if c0 < c - 1 {
        lemma_col_off_mono(g, c0 + 1, c - 1);
        lemma_grid_line_entry(g, r, i, c0, j, c - 1);
        assert forall|k: int| 0 <= k < part.len() implies (#[trigger] part[k]).0 != x by {}
    } else {
        assert forall|k: int| 0 <= k < a.len() implies (#[trigger] a[k]).0 != x by {}
        match g[r][c0] {
            Some(b) => {
                lemma_block_line(g, r, c0, i);
            },
            None => {
                assert(part.len() == 0);
            },
        }
    }
}

/// Row `i` of grid row `r` stands at position `bmat_lines(g, r).len() + i`
/// of the assembled rows.
proof fn lemma_bmat_row<N>(g: Seq<Seq<Option<CsModel<N>>>>, r: int, i: int, n: int)
    requires
        0 <= r < n,
        0 <= i < height(g, r),
    ensures
        bmat_lines(g, r).len() + i < bmat_lines(g, n).len(),
        bmat_lines(g, n)[bmat_lines(g, r).len() + i] == block_rows(g, r)[i],
    decreases n,
{
    if r < n - 1 {
        lemma_bmat_row(g, r, i, n - 1);
    }
}

/// In the assembled matrix, the row of grid row `r` at local row `i` holds
/// at column `col_off(g, c) + j` what block `(r, c)` holds at `(i, j)`, and
/// nothing where that block is absent: absent blocks are blocks of zeros.
pub proof fn lemma_bmat_entries<N>(g: Seq<Seq<Option<CsModel<N>>>>, r: int, c: int, i: int, j: int)
    requires
        grid_error(g) is None,
        bmat_fits(g),
        blocks_ok(g),
        0 <= r < g.len(),
        0 <= c < g[0].len(),
        0 <= i < height(g, r),
        0 <= j < width(g, c),
    ensures
        bmat_model(g).get(bmat_lines(g, r).len() + i, col_off(g, c) + j) == match g[r][c] {
            Some(b) => b.get(i, j),
            None => None,
        },
{
    lemma_bmat_row(g, r, i, g.len() as int);
    lemma_grid_line_entry(g, r, i, c, j, g[0].len() as int);
}

/// A valid line below `w` has at most `w` entries.
proof fn lemma_line_len<N>(l: Seq<(usize, N)>, w: nat)
    requires
        line_ok(l, w),
    ensures
        l.len() <= w,
    decreases l.len(),
{
    if l.len() > 0 {
        let d = l.drop_last();
        assert(line_ok(d, l.last().0 as nat)) by {
            assert forall|k: int| 0 <= k < d.len() implies (#[trigger] d[k]).0 < l.last().0 by {
                assert(l[k].0 < l[l.len() - 1].0);
            }
            assert forall|k1: int, k2: int| 0 <= k1 < k2 < d.len() implies (#[trigger] d[k1]).0
                < (#[trigger] d[k2]).0 by {
                assert(l[k1].0 < l[k2].0);
            }
        }
        lemma_line_len(d, l.last().0 as nat);
    }
}

/// The grid with `a` on top left, `b` on bottom right and no other block.
pub open spec fn diagonal_grid<N>(a: CsModel<N>, b: CsModel<N>) -> Seq<Seq<Option<CsModel<N>>>> {
    seq![seq![Some(a), None], seq![None, Some(b)]]
}

/// Assembling a valid 2 by 2 block `a` and a valid 3 by 3 block `b` on the
/// diagonal succeeds with a 5 by 5 matrix that stores nothing in its top
/// right 2 by 3 block nor in its bottom left 3 by 2 block.
#[verifier::spinoff_prover]
pub proof fn lemma_bmat_diagonal<N>(a: CsModel<N>, b: CsModel<N>)
    requires
        block_ok(a),
        block_ok(b),
        a.rows() == 2,
        a.cols() == 2,
        b.rows() == 3,
        b.cols() == 3,
    ensures
        grid_error(diagonal_grid(a, b)) is None,
        bmat_fits(diagonal_grid(a, b)),
        bmat_model(diagonal_grid(a, b)).rows() == 5,
        bmat_model(diagonal_grid(a, b)).cols() == 5,
        forall|x: int, y: int|
            0 <= x < 2 && 2 <= y < 5 ==> #[trigger] bmat_model(diagonal_grid(a, b)).get(x, y) is None,
        forall|x: int, y: int|
            2 <= x < 5 && 0 <= y < 2 ==> #[trigger] bmat_model(diagonal_grid(a, b)).get(x, y) is None,
{
    let g = diagonal_grid(a, b);
    assert(g[0][0] is Some && g[1][1] is Some && g[0][1] is None && g[1][0] is None);
    assert(!grid_ragged(g)) by {
        assert forall|r: int| 0 <= r < g.len() implies (#[trigger] g[r]).len() == g[0].len() by {}
    }
    assert(!row_absent(g)) by {
        assert forall|r: int| 0 <= r < g.len() implies !#[trigger] none_in_row(g, r) by {
            assert(g[r][r] is Some);
        }
    }
    assert(!col_absent(g)) by {
        assert forall|c: int| 0 <= c < g[0].len() implies !#[trigger] none_in_col(g, c) by {
            assert(g[c][c] is Some);
        }
    }
    assert(!height_mismatch(g)) by {
        assert forall|r: int, c1: int, c2: int|
            0 <= r < g.len() && 0 <= c1 < g[0].len() && 0 <= c2 < g[0].len() && (#[trigger] g[r][c1])
                is Some && (#[trigger] g[r][c2]) is Some implies g[r][c1]->Some_0.rows()
            == g[r][c2]->Some_0.rows() by {
            assert(c1 == r && c2 == r);
        }
    }
    assert(!width_mismatch(g)) by {
        assert forall|r1: int, r2: int, c: int|
            0 <= r1 < g.len() && 0 <= r2 < g.len() && 0 <= c < g[0].len() && (#[trigger] g[r1][c])
                is Some && (#[trigger] g[r2][c]) is Some implies g[r1][c]->Some_0.cols()
            == g[r2][c]->Some_0.cols() by {
            assert(r1 == c && r2 == c);
        }
    }
    assert(grid_error(g) is None);
    let c0 = choose|c: int| 0 <= c < g[0].len() && (#[trigger] g[0][c]) is Some;
    let c1 = choose|c: int| 0 <= c < g[0].len() && (#[trigger] g[1][c]) is Some;
    let r0 = choose|r: int| 0 <= r < g.len() && (#[trigger] g[r][0]) is Some;
    let r1 = choose|r: int| 0 <= r < g.len() && (#[trigger] g[r][1]) is Some;
    assert(c0 == 0 && c1 == 1 && r0 == 0 && r1 == 1);
    assert(height(g, 0) == 2 && height(g, 1) == 3);
    assert(width(g, 0) == 2 && width(g, 1) == 3);
    assert(col_off(g, 0) == 0);
    assert(col_off(g, 1) == col_off(g, 0) + width(g, 0));
    assert(col_off(g, 2) == col_off(g, 1) + width(g, 1));
    assert(bmat_lines(g, 0).len() == 0);
    assert(bmat_lines(g, 1) == bmat_lines(g, 0) + block_rows(g, 0));
    assert(bmat_lines(g, 2) == bmat_lines(g, 1) + block_rows(g, 1));
    assert(bmat_lines(g, 1).len() == 2);
    assert(bmat_lines(g, 2).len() == 5);
    assert(blocks_ok(g)) by {
        assert forall|r: int, c: int|
            0 <= r < g.len() && 0 <= c < g[r].len() && (#[trigger] g[r][c]) is Some implies block_ok(
            g[r][c]->Some_0,
        ) by {
            assert(r == c);
        }
    }
    let ls = bmat_lines(g, 2);
    assert forall|x: int| 0 <= x < ls.len() implies (#[trigger] ls[x]).len() <= 5 by {
        let (r, i) = if x < 2 { (0int, x) } else { (1int, x - 2) };
        lemma_bmat_row(g, r, i, 2);
        lemma_grid_line_ok(g, r, i, 2);
        lemma_line_len(grid_line(g, r, i, 2), 5);
    }
    ls.lemma_flatten_length_le_mul(5);
    ls.lemma_flatten_and_flatten_alt_are_equivalent();
    assert(bmat_fits(g));
    assert forall|x: int, y: int| 0 <= x < 2 && 2 <= y < 5 implies #[trigger] bmat_model(g).get(
        x,
        y,
    ) is None by {
        lemma_bmat_entries(g, 0, 1, x, y - 2);
    }
    assert forall|x: int, y: int| 2 <= x < 5 && 0 <= y < 2 implies #[trigger] bmat_model(g).get(
        x,
        y,
    ) is None by {
        lemma_bmat_entries(g, 1, 0, x - 2, y);
    }
}

} // verus!
