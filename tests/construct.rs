use sprs::construct::{hstack, same_storage_fast_stack, vstack};
use sprs::csmat::{CompressedStorage, CsMatVec};
use sprs::errors::SprsError;

fn csr(rows: usize, cols: usize, indptr: Vec<usize>, indices: Vec<usize>, data: Vec<f64>) -> CsMatVec<f64> {
    CsMatVec::from_vecs(CompressedStorage::CSR, rows, cols, indptr, indices, data).unwrap()
}

fn mat1() -> CsMatVec<f64> {
    csr(5, 5, vec![0, 2, 4, 5, 6, 7], vec![2, 3, 3, 4, 2, 1, 3], vec![3., 4., 2., 5., 5., 8., 7.])
}

fn mat2() -> CsMatVec<f64> {
    csr(
        5,
        5,
        vec![0, 4, 6, 6, 8, 10],
        vec![0, 1, 2, 4, 0, 3, 2, 3, 1, 2],
        vec![6., 7., 3., 3., 8., 9., 2., 4., 4., 4.],
    )
}

fn mat3() -> CsMatVec<f64> {
    csr(5, 4, vec![0, 2, 4, 5, 6, 7], vec![2, 3, 2, 3, 2, 1, 3], vec![3., 4., 2., 5., 5., 8., 7.])
}

fn mat4() -> CsMatVec<f64> {
    CsMatVec::from_vecs(
        CompressedStorage::CSC,
        5,
        5,
        vec![0, 4, 6, 6, 8, 10],
        vec![0, 1, 2, 4, 0, 3, 2, 3, 1, 2],
        vec![6., 7., 3., 3., 8., 9., 2., 4., 4., 4.],
    )
    .unwrap()
}

fn mat1_vstack_mat2() -> CsMatVec<f64> {
    let indptr = vec![0, 2, 4, 5, 6, 7, 11, 13, 13, 15, 17];
    let indices = vec![2, 3, 3, 4, 2, 1, 3, 0, 1, 2, 4, 0, 3, 2, 3, 1, 2];
    let data = vec![3., 4., 2., 5., 5., 8., 7., 6., 7., 3., 3., 8., 9., 2., 4., 4., 4.];
    csr(10, 5, indptr, indices, data)
}

#[test]
fn same_storage_fast_stack_failures() {
    let res: Result<CsMatVec<f64>, _> = same_storage_fast_stack(&[]);
    assert_eq!(res, Err(SprsError::EmptyStackingList));
    let a = mat1();
    let c = mat3();
    let d = mat4();
    let res = same_storage_fast_stack(&[a.borrowed(), c.borrowed()]);
    assert_eq!(res, Err(SprsError::IncompatibleDimensions));
    let res = same_storage_fast_stack(&[a.borrowed(), d.borrowed()]);
    assert_eq!(res, Err(SprsError::IncompatibleStorages));
}

#[test]
fn same_storage_fast_stack_ok() {
    let a = mat1();
    let b = mat2();
    let res = same_storage_fast_stack(&[a.borrowed(), b.borrowed()]);
    let expected = mat1_vstack_mat2();
    assert_eq!(res, Ok(expected));
}

#[test]
fn vstack_trivial() {
    let a = mat1();
    let b = mat2();
    let res = vstack(&[a.borrowed(), b.borrowed()]);
    let expected = mat1_vstack_mat2();
    assert_eq!(res, Ok(expected));
}

#[test]
fn hstack_trivial() {
    let a = mat1().transpose_into();
    let b = mat2().transpose_into();
    let res = hstack(&[a.borrowed(), b.borrowed()]);
    let expected = mat1_vstack_mat2().transpose_into();
    assert_eq!(res, Ok(expected));
}

#[test]
fn vstack_with_conversion() {
    let a = mat1().borrowed().to_csc();
    let b = mat2();
    let res = vstack(&[a.borrowed(), b.borrowed()]);
    let expected = mat1_vstack_mat2();
    assert_eq!(res, Ok(expected));
}

#[test]
fn fast_stack_sums_outer_and_nonzeros() {
    let a = mat1();
    let b = mat2();
    let c = mat1();
    let res = same_storage_fast_stack(&[a.borrowed(), b.borrowed(), c.borrowed()]).unwrap();
    assert_eq!(res.outer_dims(), 15);
    assert_eq!(res.nb_nonzero(), 7 + 10 + 7);
    assert_eq!(res.inner_dims(), 5);
    assert_eq!(res.storage(), CompressedStorage::CSR);
}

#[test]
fn fast_stack_two_single_rows() {
    let a = csr(1, 3, vec![0, 1], vec![0], vec![3.0]);
    let b = csr(1, 3, vec![0, 1], vec![2], vec![4.0]);
    let res = same_storage_fast_stack(&[a.borrowed(), b.borrowed()]).unwrap();
    assert_eq!(res.rows(), 2);
    assert_eq!(res.cols(), 3);
    assert_eq!(res.storage(), CompressedStorage::CSR);
    assert_eq!(res.indptr(), &[0, 1, 2][..]);
    assert_eq!(res.indices(), &[0, 2][..]);
    assert_eq!(res.data(), &[3.0, 4.0][..]);
}

#[test]
fn fast_stack_empty_and_mismatched_width() {
    let res: Result<CsMatVec<f64>, _> = same_storage_fast_stack(&[]);
    assert_eq!(res, Err(SprsError::EmptyStackingList));
    let a = csr(2, 3, vec![0, 1, 1], vec![1], vec![1.0]);
    let b = csr(2, 4, vec![0, 0, 1], vec![3], vec![2.0]);
    let res = same_storage_fast_stack(&[a.borrowed(), b.borrowed()]);
    assert_eq!(res, Err(SprsError::IncompatibleDimensions));
}

#[test]
fn fast_stack_dimension_checked_before_storage() {
    let a = mat1();
    let c = mat3().transpose_into();
    let res = same_storage_fast_stack(&[a.borrowed(), c.borrowed()]);
    assert_eq!(res, Err(SprsError::IncompatibleDimensions));
}

#[test]
fn vstack_matches_explicit_conversion() {
    let a = mat1();
    let b = mat4();
    let b_csr = b.borrowed().to_csr();
    let res = vstack(&[a.borrowed(), b.borrowed()]);
    let expected = same_storage_fast_stack(&[a.borrowed(), b_csr.borrowed()]);
    assert_eq!(res, expected);
    assert!(res.is_ok());
}

#[test]
fn vstack_empty_list() {
    let res: Result<CsMatVec<f64>, _> = vstack(&[]);
    assert_eq!(res, Err(SprsError::EmptyStackingList));
    let res: Result<CsMatVec<f64>, _> = hstack(&[]);
    assert_eq!(res, Err(SprsError::EmptyStackingList));
}

#[test]
fn vstack_mismatched_columns() {
    let a = mat1();
    let c = mat3().borrowed().to_csc();
    let res = vstack(&[a.borrowed(), c.borrowed()]);
    assert_eq!(res, Err(SprsError::IncompatibleDimensions));
}

#[test]
fn hstack_with_conversion() {
    let a = mat1();
    let b = mat2();
    let res = hstack(&[a.borrowed(), b.borrowed()]).unwrap();
    assert_eq!(res.storage(), CompressedStorage::CSC);
    assert_eq!(res.rows(), 5);
    assert_eq!(res.cols(), 10);
    assert_eq!(res.nb_nonzero(), 17);
    let direct = hstack(&[a.borrowed().to_csc().borrowed(), b.borrowed().to_csc().borrowed()]).unwrap();
    assert_eq!(res, direct);
    // row 0 of the result: row 0 of a, then row 0 of b moved right by 5 columns
    let rows = res.borrowed().to_csr();
    let (idx, vals) = rows.borrowed().outer_view(0);
    assert_eq!(idx, &[2, 3, 5, 6, 7, 9][..]);
    assert_eq!(vals, &[3.0, 4.0, 6.0, 7.0, 3.0, 3.0][..]);
}

#[test]
fn to_csc_values() {
    let a = csr(2, 3, vec![0, 2, 3], vec![0, 2, 1], vec![1.0, 2.0, 3.0]);
    let c = a.borrowed().to_csc();
    assert_eq!(c.storage(), CompressedStorage::CSC);
    assert_eq!(c.rows(), 2);
    assert_eq!(c.cols(), 3);
    assert_eq!(c.indptr(), &[0, 1, 2, 3][..]);
    assert_eq!(c.indices(), &[0, 1, 0][..]);
    assert_eq!(c.data(), &[1.0, 3.0, 2.0][..]);
}

#[test]
fn round_trip_through_csc() {
    for m in [mat1(), mat2(), mat3()] {
        let back = m.borrowed().to_csc().borrowed().to_csr();
        assert_eq!(back, m);
    }
    let d = mat4();
    let back = d.borrowed().to_csr().borrowed().to_csc();
    assert_eq!(back, d);
}

#[test]
fn to_csr_of_csr_is_a_copy() {
    let a = mat1();
    assert_eq!(a.borrowed().to_csr(), a);
    assert_eq!(a.borrowed().to_owned(), a);
}

#[test]
fn from_vecs_rejects_bad_structure() {
    let unsorted = CsMatVec::from_vecs(CompressedStorage::CSR, 1, 3, vec![0, 2], vec![2, 1], vec![1.0, 2.0]);
    assert_eq!(unsorted, Err(SprsError::BadStructure));
    let out_of_range = CsMatVec::from_vecs(CompressedStorage::CSR, 1, 3, vec![0, 1], vec![3], vec![1.0]);
    assert_eq!(out_of_range, Err(SprsError::BadStructure));
    let decreasing = CsMatVec::from_vecs(CompressedStorage::CSR, 2, 3, vec![0, 1, 0], vec![0], vec![1.0]);
    assert_eq!(decreasing, Err(SprsError::BadStructure));
    let short_data = CsMatVec::<f64>::from_vecs(CompressedStorage::CSC, 3, 1, vec![0, 1], vec![0], vec![]);
    assert_eq!(short_data, Err(SprsError::BadStructure));
}

#[test]
fn append_outer_and_reserve() {
    let mut m: CsMatVec<f64> = CsMatVec::empty(CompressedStorage::CSR, 4);
    m.reserve_outer_dim_exact(2);
    m.reserve_nnz_exact(3);
    m.append_outer(&[0, 3], &[1.0, 2.0]);
    m.append_outer(&[], &[]);
    m.append_outer(&[2], &[5.0]);
    assert_eq!(m.outer_dims(), 3);
    assert_eq!(m.nb_nonzero(), 3);
    assert_eq!(m.indptr(), &[0, 2, 2, 3][..]);
    assert_eq!(m.indices(), &[0, 3, 2][..]);
    assert_eq!(m.data(), &[1.0, 2.0, 5.0][..]);
}

#[test]
fn view_accessors() {
    let d = mat4();
    let v = d.borrowed();
    assert!(v.is_csc());
    assert!(!v.is_csr());
    assert_eq!(v.rows(), 5);
    assert_eq!(v.cols(), 5);
    assert_eq!(v.nb_nonzero(), 10);
    let (idx, vals) = v.outer_view(3);
    assert_eq!(idx, &[2, 3][..]);
    assert_eq!(vals, &[2.0, 4.0][..]);
}
