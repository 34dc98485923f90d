use vstd::prelude::*;

verus! {

/// All rows of `matrix` have the length of its first row.
pub open spec fn is_rectangular<T>(matrix: Seq<Vec<T>>) -> bool {
    forall|i: int| 0 <= i < matrix.len() ==> #[trigger] matrix[i]@.len() == matrix[0]@.len()
}

/// Swaps rows and columns: element `j` of row `i` becomes element `i` of row `j`.
/// An empty matrix, or one with empty rows, gives no rows.
pub fn transpose_vec<T: Copy>(matrix: Vec<Vec<T>>) -> (r: Vec<Vec<T>>)
    requires
        is_rectangular(matrix@),
    ensures
        matrix@.len() == 0 ==> r@.len() == 0,
        matrix@.len() > 0 ==> r@.len() == matrix@[0]@.len(),
        forall|j: int| 0 <= j < r@.len() ==> #[trigger] r@[j]@.len() == matrix@.len(),
        forall|i: int, j: int|
            0 <= i < matrix@.len() && 0 <= j < r@.len() ==> #[trigger] r@[j]@[i] == matrix@[i]@[j],
{
    if matrix.len() == 0 || matrix[0].len() == 0 {
        return Vec::new();
    }
    let col_count = matrix[0].len();
    let row_count = matrix.len();
    let mut transposed: Vec<Vec<T>> = Vec::new();
    let mut j: usize = 0;
    while j < col_count
        invariant
            j <= col_count,
            col_count == matrix@[0]@.len(),
            row_count == matrix@.len(),
            is_rectangular(matrix@),
            transposed@.len() == j,
            forall|k: int| 0 <= k < j ==> #[trigger] transposed@[k]@.len() == row_count,
            forall|i: int, k: int|
                0 <= i < row_count && 0 <= k < j ==> #[trigger] transposed@[k]@[i]
                    == matrix@[i]@[k],
        decreases col_count - j,
    {
        let mut column: Vec<T> = Vec::new();
        let mut i: usize = 0;
        while i < row_count
            invariant
                i <= row_count,
                j < col_count,
                col_count == matrix@[0]@.len(),
                row_count == matrix@.len(),
                is_rectangular(matrix@),
                column@.len() == i,
                forall|k: int| 0 <= k < i ==> #[trigger] column@[k] == matrix@[k]@[j as int],
            decreases row_count - i,
        {
            assert(matrix@[i as int]@.len() == col_count);
            column.push(matrix[i][j]);
            i = i + 1;
        }
        transposed.push(column);
        j = j + 1;
    }
    transposed
}

} // verus!
