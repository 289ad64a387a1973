use sprs::block::bmat;
use sprs::csmat::{CompressedStorage, CsMatVec, CsMatView};
use sprs::errors::SprsError;

fn csr(rows: usize, cols: usize, indptr: Vec<usize>, indices: Vec<usize>, data: Vec<f64>) -> CsMatVec<f64> {
    CsMatVec::from_vecs(CompressedStorage::CSR, rows, cols, indptr, indices, data).unwrap()
}

fn eye2() -> CsMatVec<f64> {
    csr(2, 2, vec![0, 1, 2], vec![0, 1], vec![1.0, 2.0])
}

fn full3() -> CsMatVec<f64> {
    csr(3, 3, vec![0, 2, 3, 4], vec![0, 2, 1, 0], vec![3.0, 4.0, 5.0, 6.0])
}

#[test]
fn bmat_block_diagonal() {
    let a = eye2();
    let b = full3();
    let grid = vec![vec![Some(a.borrowed()), None], vec![None, Some(b.borrowed())]];
    let res = bmat(&grid).unwrap();
    assert_eq!(res.storage(), CompressedStorage::CSR);
    assert_eq!(res.rows(), 5);
    assert_eq!(res.cols(), 5);
    assert_eq!(res.indptr(), &[0, 1, 2, 4, 5, 6][..]);
    assert_eq!(res.indices(), &[0, 1, 2, 4, 3, 2][..]);
    assert_eq!(res.data(), &[1.0, 2.0, 3.0, 4.0, 5.0, 6.0][..]);
    // no entry in the top-right 2x3 block nor in the bottom-left 3x2 block
    for row in 0..5 {
        let lo = res.indptr()[row];
        let hi = res.indptr()[row + 1];
        for &col in &res.indices()[lo..hi] {
            if row < 2 {
                assert!(col < 2);
            } else {
                assert!(col >= 2);
            }
        }
    }
}

#[test]
fn bmat_converts_column_blocks() {
    let a = eye2();
    let b = full3();
    let b_csc = b.borrowed().to_csc();
    let grid = vec![vec![Some(a.borrowed()), None], vec![None, Some(b_csc.borrowed())]];
    let with_csc = bmat(&grid).unwrap();
    let grid = vec![vec![Some(a.borrowed()), None], vec![None, Some(b.borrowed())]];
    let with_csr = bmat(&grid).unwrap();
    assert_eq!(with_csc, with_csr);
}

#[test]
fn bmat_side_by_side() {
    let a = eye2();
    let b = csr(2, 1, vec![0, 0, 1], vec![0], vec![7.0]);
    let grid: Vec<Vec<Option<CsMatView<f64>>>> = vec![vec![Some(a.borrowed()), Some(b.borrowed())]];
    let res = bmat(&grid).unwrap();
    assert_eq!(res.rows(), 2);
    assert_eq!(res.cols(), 3);
    assert_eq!(res.indptr(), &[0, 1, 3][..]);
    assert_eq!(res.indices(), &[0, 1, 2][..]);
    assert_eq!(res.data(), &[1.0, 2.0, 7.0][..]);
}

#[test]
fn bmat_empty_grid() {
    let grid: Vec<Vec<Option<CsMatView<f64>>>> = vec![];
    assert_eq!(bmat(&grid), Err(SprsError::EmptyStackingList));
}

#[test]
fn bmat_row_without_cells() {
    let grid: Vec<Vec<Option<CsMatView<f64>>>> = vec![vec![]];
    assert_eq!(bmat(&grid), Err(SprsError::DimensionInference));
    let grid: Vec<Vec<Option<CsMatView<f64>>>> = vec![vec![], vec![]];
    assert_eq!(bmat(&grid), Err(SprsError::DimensionInference));
}

#[test]
fn bmat_absent_row_or_column() {
    let a = eye2();
    let grid = vec![vec![Some(a.borrowed()), None], vec![None, None]];
    assert_eq!(bmat(&grid), Err(SprsError::DimensionInference));
    let grid = vec![vec![Some(a.borrowed()), None], vec![Some(a.borrowed()), None]];
    assert_eq!(bmat(&grid), Err(SprsError::DimensionInference));
}

#[test]
fn bmat_mismatched_blocks() {
    let a = eye2();
    let b = full3();
    let grid = vec![vec![Some(a.borrowed()), Some(b.borrowed())]];
    assert_eq!(bmat(&grid), Err(SprsError::IncompatibleDimensions));
    let grid = vec![vec![Some(a.borrowed())], vec![Some(b.borrowed())]];
    assert_eq!(bmat(&grid), Err(SprsError::IncompatibleDimensions));
    let grid = vec![vec![Some(a.borrowed()), None], vec![Some(a.borrowed())]];
    assert_eq!(bmat(&grid), Err(SprsError::IncompatibleDimensions));
}
