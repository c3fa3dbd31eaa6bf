//! The square table of pairwise distances, kept in an `ndarray` array.
use vstd::prelude::*;

verus! {

/// A table of distances with as many rows as columns, held in an
/// `ndarray::Array2<u16>`. Verus sees nothing of the array; contracts speak of
/// its entries through [`matrix_rows`].
#[verifier::external_body]
pub struct DistanceMatrix {
    cells: ndarray::Array2<u16>,
}

/// The entries of the table, row by row.
pub uninterp spec fn matrix_rows(m: DistanceMatrix) -> Seq<Seq<u16>>;

/// The array has `n` rows of `n` entries each.
pub open spec fn is_square(rows: Seq<Seq<u16>>, n: nat) -> bool {
    rows.len() == n && forall|i: int| 0 <= i < n ==> (#[trigger] rows[i]).len() == n
}

/// `ndarray::Array::zeros` with the shape `(n, n)`: an array of `n` rows of
/// `n` zeros. The call panics where the number of entries, or of the bytes
/// that hold them, does not fit in `isize`, so `n` is bounded.
#[verifier::external_body]
pub(crate) fn matrix_zeros(n: usize) -> (m: DistanceMatrix)
    requires
        2 * n * n <= isize::MAX,
    ensures
        is_square(matrix_rows(m), n as nat),
        forall|i: int, j: int| 0 <= i < n && 0 <= j < n ==> #[trigger] matrix_rows(m)[i][j] == 0,
{
    DistanceMatrix { cells: ndarray::Array2::<u16>::zeros((n, n)) }
}

/// Indexing an `ndarray` array with `[[i, j]]`: the entry in row `i`, column
/// `j`. Out of bounds it panics, so both must be in range.
#[verifier::external_body]
pub(crate) fn matrix_get(m: &DistanceMatrix, i: usize, j: usize) -> (r: u16)
    requires
        i < matrix_rows(*m).len(),
        j < matrix_rows(*m)[i as int].len(),
    ensures
        r == matrix_rows(*m)[i as int][j as int],
{
    m.cells[[i, j]]
}

/// Assigning through `[[i, j]]`: the entry in row `i`, column `j` becomes
/// `value` and no other entry changes. Out of bounds it panics.
#[verifier::external_body]
pub(crate) fn matrix_set(m: &mut DistanceMatrix, i: usize, j: usize, value: u16)
    requires
        i < matrix_rows(*old(m)).len(),
        j < matrix_rows(*old(m))[i as int].len(),
    ensures
        matrix_rows(*final(m)) == matrix_rows(*old(m)).update(
            i as int,
            matrix_rows(*old(m))[i as int].update(j as int, value),
        ),
{
    m.cells[[i, j]] = value;
}

/// The distance in row `i`, column `j` of the table.
pub fn distance(dist: &DistanceMatrix, i: usize, j: usize) -> (r: u16)
    requires
        i < matrix_rows(*dist).len(),
        j < matrix_rows(*dist)[i as int].len(),
    ensures
        r == matrix_rows(*dist)[i as int][j as int],
{
    matrix_get(dist, i, j)
}

} // verus!
