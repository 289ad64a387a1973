//! High level construction of sparse matrices: by stacking, and by blocks.

use vstd::prelude::*;
use vstd::seq_lib::lemma_flatten_concat;
use crate::csmat::{transposed, CompressedStorage, CsMatVec, CsMatView, CsModel};
use crate::errors::SprsError;

verus! {

/// The models of a sequence of views.
pub open spec fn models<'a, N>(mats: Seq<CsMatView<'a, N>>) -> Seq<CsModel<N>> {
    mats.map_values(|m: CsMatView<'a, N>| m@)
}

/// The outer lines of each matrix in turn, in order.
pub open spec fn stack_lines<N>(ms: Seq<CsModel<N>>) -> Seq<Seq<(usize, N)>>
    decreases ms.len(),
{
    if ms.len() == 0 {
        Seq::empty()
    } else {
        stack_lines(ms.drop_last()) + ms.last().lines
    }
}

/// The sum of the outer dimensions.
pub open spec fn sum_outer<N>(ms: Seq<CsModel<N>>) -> nat
    decreases ms.len(),
{
    if ms.len() == 0 {
        0
    } else {
        sum_outer(ms.drop_last()) + ms.last().outer()
    }
}

/// The sum of the numbers of nonzeros.
pub open spec fn sum_nnz<N>(ms: Seq<CsModel<N>>) -> nat
    decreases ms.len(),
{
    if ms.len() == 0 {
        0
    } else {
        sum_nnz(ms.drop_last()) + ms.last().nnz()
    }
}

/// Some matrix has an inner dimension other than the first one's.
pub open spec fn inner_mismatch<N>(ms: Seq<CsModel<N>>) -> bool {
    exists|i: int| 0 <= i < ms.len() && (#[trigger] ms[i]).inner != ms[0].inner
}

/// Some matrix has an orientation other than the first one's.
pub open spec fn storage_mismatch<N>(ms: Seq<CsModel<N>>) -> bool {
    exists|i: int| 0 <= i < ms.len() && (#[trigger] ms[i]).storage != ms[0].storage
}

/// What stacking `ms` along the outer dimension gives: the error of the first
/// failed check, or the model of the stacked matrix.
pub open spec fn fast_stack_result<N>(ms: Seq<CsModel<N>>) -> Result<CsModel<N>, SprsError> {
    if ms.len() == 0 {
        Err(SprsError::EmptyStackingList)
    } else if inner_mismatch(ms) {
        Err(SprsError::IncompatibleDimensions)
    } else if storage_mismatch(ms) {
        Err(SprsError::IncompatibleStorages)
    } else {
        Ok(CsModel { storage: ms[0].storage, inner: ms[0].inner, lines: stack_lines(ms) })
    }
}

/// All checks of a stack pass: there is a matrix, and all share the first
/// one's inner dimension and orientation.
pub open spec fn stack_ok<N>(ms: Seq<CsModel<N>>) -> bool {
    ms.len() > 0 && !inner_mismatch(ms) && !storage_mismatch(ms)
}

/// The sizes of a stack fit in memory.
pub open spec fn stack_fits<N>(ms: Seq<CsModel<N>>) -> bool {
    sum_outer(ms) < usize::MAX && sum_nnz(ms) <= usize::MAX
}

/// The model of a result of construction.
pub open spec fn result_model<N>(r: Result<CsMatVec<N>, SprsError>) -> Result<
    CsModel<N>,
    SprsError,
> {
    match r {
        Ok(m) => Ok(m@),
        Err(e) => Err(e),
    }
}

pub open spec fn result_wf<N: Copy>(r: Result<CsMatVec<N>, SprsError>) -> bool {
    match r {
        Ok(m) => m.wf(),
        Err(_) => true,
    }
}

proof fn lemma_sum_prefix<N>(ms: Seq<CsModel<N>>, k: int)
    requires
        0 <= k <= ms.len(),
    ensures
        sum_outer(ms.take(k)) <= sum_outer(ms),
        sum_nnz(ms.take(k)) <= sum_nnz(ms),
    decreases ms.len(),
{
    if k == ms.len() {
        assert(ms.take(k) =~= ms);
    } else {
        lemma_sum_prefix(ms.drop_last(), k);
        assert(ms.drop_last().take(k) =~= ms.take(k));
    }
}

proof fn lemma_take_next<A>(s: Seq<A>, k: int)
    requires
        0 <= k < s.len(),
    ensures
        s.take(k + 1).drop_last() == s.take(k),
        s.take(k + 1).last() == s[k],
        s.take(k + 1).len() == k + 1,
{
    assert(s.take(k + 1).drop_last() =~= s.take(k));
}

/// The stacked lines number `sum_outer` and hold `sum_nnz` nonzeros.
pub proof fn lemma_stack_sizes<N>(ms: Seq<CsModel<N>>)
    ensures
        stack_lines(ms).len() == sum_outer(ms),
        stack_lines(ms).flatten().len() == sum_nnz(ms),
    decreases ms.len(),
{
    if ms.len() > 0 {
        lemma_stack_sizes(ms.drop_last());
        lemma_flatten_concat(stack_lines(ms.drop_last()), ms.last().lines);
    }
}

/// Stack the given matrices into a new one along their outer dimension
/// (vertically for CSR matrices, horizontally for CSC ones). All of them must
/// share the first one's inner dimension and orientation.
#[verifier::spinoff_prover]
pub fn same_storage_fast_stack<'a, N: Copy>(mats: &[CsMatView<'a, N>]) -> (r: Result<
    CsMatVec<N>,
    SprsError,
>)
    requires
        forall|i: int| 0 <= i < mats@.len() ==> (#[trigger] mats@[i]).wf(),
        stack_ok(models(mats@)) ==> stack_fits(models(mats@)),
    ensures
        result_model(r) == fast_stack_result(models(mats@)),
        result_wf(r),
        mats@.len() == 0 ==> r == Err::<CsMatVec<N>, SprsError>(SprsError::EmptyStackingList),
        mats@.len() > 0 && inner_mismatch(models(mats@)) ==> r == Err::<CsMatVec<N>, SprsError>(
            SprsError::IncompatibleDimensions,
        ),
        mats@.len() > 0 && !inner_mismatch(models(mats@)) && storage_mismatch(models(mats@)) ==> r
            == Err::<CsMatVec<N>, SprsError>(SprsError::IncompatibleStorages),
{
    let ghost ms = models(mats@);
    if mats.len() == 0 {
        return Err(SprsError::EmptyStackingList);
    }
    let inner_dim = mats[0].inner_dims();
    let mut k: usize = 0;
    while k < mats.len()
        invariant
            0 <= k <= mats@.len(),
            ms == models(mats@),
            inner_dim == ms[0].inner,
            forall|t: int| 0 <= t < k ==> (#[trigger] ms[t]).inner == inner_dim,
        decreases mats@.len() - k,
    {
        if mats[k].inner_dims() != inner_dim {
            assert(ms[k as int].inner != ms[0].inner);
            return Err(SprsError::IncompatibleDimensions);
        }
        k = k + 1;
    }
    let storage_type = mats[0].storage();
    let mut k: usize = 0;
    while k < mats.len()
        invariant
            0 <= k <= mats@.len(),
            ms == models(mats@),
            !inner_mismatch(ms),
            storage_type == ms[0].storage,
            forall|t: int| 0 <= t < k ==> (#[trigger] ms[t]).storage == storage_type,
        decreases mats@.len() - k,
    {
        if mats[k].storage() != storage_type {
            assert(ms[k as int].storage != ms[0].storage);
            return Err(SprsError::IncompatibleStorages);
        }
        k = k + 1;
    }

    assert(stack_ok(ms));
    let mut outer_dim: usize = 0;
    let mut nnz: usize = 0;
    let mut k: usize = 0;
    while k < mats.len()
        invariant
            0 <= k <= mats@.len(),
            ms == models(mats@),
            forall|i: int| 0 <= i < mats@.len() ==> (#[trigger] mats@[i]).wf(),
            stack_fits(ms),
            outer_dim == sum_outer(ms.take(k as int)),
            nnz == sum_nnz(ms.take(k as int)),
        decreases mats@.len() - k,
    {
        proof {
            lemma_take_next(ms, k as int);
            lemma_sum_prefix(ms, k + 1);
        }
        outer_dim = outer_dim + mats[k].outer_dims();
        nnz = nnz + mats[k].nb_nonzero();
        k = k + 1;
    }

    let mut res = CsMatVec::empty(storage_type, inner_dim);
    res.reserve_outer_dim_exact(outer_dim);
    res.reserve_nnz_exact(nnz);
    let mut m: usize = 0;
    while m < mats.len()
        invariant
            0 <= m <= mats@.len(),
            ms == models(mats@),
            forall|i: int| 0 <= i < mats@.len() ==> (#[trigger] mats@[i]).wf(),
            stack_fits(ms),
            res.wf(),
            res@.storage == storage_type,
            res@.inner == inner_dim,
            res@.lines == stack_lines(ms.take(m as int)),
            res@.nnz() == sum_nnz(ms.take(m as int)),
            ms.len() > 0,
            !inner_mismatch(ms),
            !storage_mismatch(ms),
            inner_dim == ms[0].inner,
            storage_type == ms[0].storage,
        decreases mats@.len() - m,
    {
        let mat = mats[m];
        assert(ms[m as int].inner == ms[0].inner);
        let ghost pre = res@.lines;
        proof {
            lemma_take_next(ms, m as int);
            lemma_sum_prefix(ms, m + 1);
            lemma_stack_sizes(ms.take(m as int));
        }
        let mut i: usize = 0;
        while i < mat.outer_dims()
            invariant
                0 <= i <= mat@.outer(),
                mat.wf(),
                mat@ == ms[m as int],
                0 <= m < ms.len(),
                ms.take(m + 1).drop_last() == ms.take(m as int),
                ms.take(m + 1).last() == ms[m as int],
                sum_outer(ms.take(m as int)) + mat@.outer() <= sum_outer(ms),
                sum_nnz(ms.take(m as int)) + mat@.nnz() <= sum_nnz(ms),
                pre.len() == sum_outer(ms.take(m as int)),
                stack_fits(ms),
                res.wf(),
                res@.storage == storage_type,
                res@.inner == inner_dim,
                inner_dim == mat@.inner,
                res@.lines == pre + mat@.lines.take(i as int),
                res@.nnz() == sum_nnz(ms.take(m as int)) + mat@.lines.take(i as int).flatten().len(),
            decreases mat@.outer() - i,
        {
            let (idx, vals) = mat.outer_view(i);
            proof {
                let ls = mat@.lines;
                lemma_take_next(ls, i as int);
                ls.take(i as int).lemma_flatten_push(ls[i as int]);
                lemma_flatten_concat(ls.take(i + 1), ls.skip(i + 1));
                assert(ls.take(i + 1) + ls.skip(i + 1) =~= ls);
                assert(ls.take(i as int).push(ls[i as int]) =~= ls.take(i + 1));
            }
            res.append_outer(idx, vals);
            proof {
                assert(res@.lines =~= pre + mat@.lines.take(i + 1));
                lemma_flatten_concat(pre, mat@.lines.take(i + 1));
                lemma_flatten_concat(pre, mat@.lines.take(i as int));
            }
            i = i + 1;
        }
        proof {
            assert(mat@.lines.take(i as int) =~= mat@.lines);
        }
        m = m + 1;
    }
    proof {
        assert(ms.take(ms.len() as int) =~= ms);
    }
    Ok(res)
}

/// A model stored in orientation `s`: itself, or its conversion.
pub open spec fn as_storage<N>(m: CsModel<N>, s: CompressedStorage) -> CsModel<N> {
    if m.storage == s {
        m
    } else {
        transposed(m)
    }
}

/// Each model stored in orientation `s`.
pub open spec fn converted<N>(ms: Seq<CsModel<N>>, s: CompressedStorage) -> Seq<CsModel<N>> {
    ms.map_values(|m: CsModel<N>| as_storage(m, s))
}

/// Stacks the matrices along the outer dimension of orientation `target`,
/// converting those stored otherwise first.
fn stack_as<'a, N: Copy>(mats: &[CsMatView<'a, N>], target: CompressedStorage) -> (r: Result<
    CsMatVec<N>,
    SprsError,
>)
    requires
        forall|i: int| 0 <= i < mats@.len() ==> (#[trigger] mats@[i]).wf(),
        stack_ok(converted(models(mats@), target)) ==> stack_fits(
            converted(models(mats@), target),
        ),
    ensures
        result_model(r) == fast_stack_result(converted(models(mats@), target)),
        result_wf(r),
{
    let ghost ms = models(mats@);
    let mut all_target = true;
    let mut k: usize = 0;
    while k < mats.len()
        invariant
            0 <= k <= mats@.len(),
            ms == models(mats@),
            all_target ==> forall|t: int| 0 <= t < k ==> (#[trigger] ms[t]).storage == target,
            !all_target ==> exists|t: int| 0 <= t < k && (#[trigger] ms[t]).storage != target,
        decreases mats@.len() - k,
    {
        if mats[k].storage() != target {
            assert(ms[k as int].storage != target);
            all_target = false;
        }
        k = k + 1;
    }
    if all_target {
        assert(converted(ms, target) =~= ms);
        return same_storage_fast_stack(mats);
    }
    let mut owned: Vec<CsMatVec<N>> = Vec::new();
    let mut k: usize = 0;
    while k < mats.len()
        invariant
            0 <= k <= mats@.len(),
            ms == models(mats@),
            forall|i: int| 0 <= i < mats@.len() ==> (#[trigger] mats@[i]).wf(),
            owned@.len() == k,
            forall|t: int| 0 <= t < k ==> (#[trigger] owned@[t]).wf(),
            forall|t: int| 0 <= t < k ==> (#[trigger] owned@[t])@ == as_storage(ms[t], target),
        decreases mats@.len() - k,
    {
        let c = match target {
            CompressedStorage::CSR => mats[k].to_csr(),
            CompressedStorage::CSC => mats[k].to_csc(),
        };
        owned.push(c);
        k = k + 1;
    }
    let mut views: Vec<CsMatView<'_, N>> = Vec::new();
    let mut k: usize = 0;
    while k < owned.len()
        invariant
            0 <= k <= owned@.len(),
            owned@.len() == mats@.len(),
            ms == models(mats@),
            forall|t: int| 0 <= t < owned@.len() ==> (#[trigger] owned@[t]).wf(),
            forall|t: int| 0 <= t < owned@.len() ==> (#[trigger] owned@[t])@ == as_storage(ms[t], target),
            views@.len() == k,
            forall|t: int| 0 <= t < k ==> (#[trigger] views@[t]).wf(),
            forall|t: int| 0 <= t < k ==> (#[trigger] views@[t])@ == as_storage(ms[t], target),
        decreases owned@.len() - k,
    {
        views.push(owned[k].borrowed());
        k = k + 1;
    }
    assert(models(views@) =~= converted(ms, target));
    same_storage_fast_stack(views.as_slice())
}

/// Stacks matrices vertically: the rows of the first, then those of the next,
/// and so on. The result is stored by rows; inputs stored by columns are
/// converted first.
pub fn vstack<'a, N: Copy>(mats: &[CsMatView<'a, N>]) -> (r: Result<CsMatVec<N>, SprsError>)
    requires
        forall|i: int| 0 <= i < mats@.len() ==> (#[trigger] mats@[i]).wf(),
        stack_ok(converted(models(mats@), CompressedStorage::CSR)) ==> stack_fits(
            converted(models(mats@), CompressedStorage::CSR),
        ),
    ensures
        result_model(r) == fast_stack_result(converted(models(mats@), CompressedStorage::CSR)),
        result_wf(r),
{
    stack_as(mats, CompressedStorage::CSR)
}

/// Stacks matrices horizontally: the columns of the first, then those of the
/// next, and so on. The result is stored by columns; inputs stored by rows
/// are converted first.
pub fn hstack<'a, N: Copy>(mats: &[CsMatView<'a, N>]) -> (r: Result<CsMatVec<N>, SprsError>)
    requires
        forall|i: int| 0 <= i < mats@.len() ==> (#[trigger] mats@[i]).wf(),
        stack_ok(converted(models(mats@), CompressedStorage::CSC)) ==> stack_fits(
            converted(models(mats@), CompressedStorage::CSC),
        ),
    ensures
        result_model(r) == fast_stack_result(converted(models(mats@), CompressedStorage::CSC)),
        result_wf(r),
{
    stack_as(mats, CompressedStorage::CSC)
}

/// Stacking a non-empty list of matrices stored by rows with one inner
/// dimension succeeds, with as many outer lines and as many nonzeros as the
/// inputs have together.
pub proof fn lemma_fast_stack_sizes<N>(ms: Seq<CsModel<N>>)
    requires
        ms.len() > 0,
        forall|i: int| 0 <= i < ms.len() ==> (#[trigger] ms[i]).storage == CompressedStorage::CSR,
        forall|i: int| 0 <= i < ms.len() ==> (#[trigger] ms[i]).inner == ms[0].inner,
    ensures
        fast_stack_result(ms) is Ok,
        fast_stack_result(ms)->Ok_0.outer() == sum_outer(ms),
        fast_stack_result(ms)->Ok_0.nnz() == sum_nnz(ms),
{
    lemma_stack_sizes(ms);
}

/// Stacking vertically a matrix stored by rows and one stored by columns
/// gives what stacking the first with the second converted to rows gives.
pub proof fn lemma_vstack_mixed<N>(a: CsModel<N>, b: CsModel<N>)
    requires
        a.storage == CompressedStorage::CSR,
        b.storage == CompressedStorage::CSC,
    ensures
        fast_stack_result(converted(seq![a, b], CompressedStorage::CSR)) == fast_stack_result(
            seq![a, transposed(b)],
        ),
{
    assert(converted(seq![a, b], CompressedStorage::CSR) =~= seq![a, transposed(b)]);
}

} // verus!
