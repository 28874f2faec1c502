//! The two-dimensional array that holds the board's cells, and the few
//! operations on it that the board uses.

use array2d::Array2D;
use vstd::prelude::*;

verus! {

#[verifier::external_type_specification]
#[verifier::external_body]
#[verifier::reject_recursive_types(T)]
pub struct ExArray2D<T>(Array2D<T>);

/// The contents of a two-dimensional array of characters, row by row.
pub uninterp spec fn grid_of(a: Array2D<char>) -> Seq<Seq<char>>;

/// Every row of `g` has `cols` cells.
pub open spec fn rectangular(g: Seq<Seq<char>>, cols: int) -> bool {
    forall|i: int| 0 <= i < g.len() ==> #[trigger] g[i].len() == cols
}

/// Column `j` of the grid `g`, top to bottom.
pub open spec fn column_of(g: Seq<Seq<char>>, j: int) -> Seq<char> {
    Seq::new(g.len(), |i: int| g[i][j])
}

/// Relies on `Array2D::filled_with`: an array of `rows` rows of `cols` cells,
/// each a copy of `x`.
#[verifier::external_body]
pub(crate) fn grid_filled(x: char, rows: usize, cols: usize) -> (r: Array2D<char>)
    requires
        rows * cols <= usize::MAX,
    ensures
        grid_of(r) == Seq::new(rows as nat, |i: int| Seq::new(cols as nat, |j: int| x)),
{
    Array2D::filled_with(x, rows, cols)
}

/// Relies on the `(row, column)` indexing of `Array2D`: the cell at that place.
#[verifier::external_body]
pub(crate) fn grid_get(a: &Array2D<char>, row: usize, col: usize) -> (r: char)
    requires
        row < grid_of(*a).len(),
        col < grid_of(*a)[row as int].len(),
    ensures
        r == grid_of(*a)[row as int][col as int],
{
    a[(row, col)]
}

/// Relies on the mutable `(row, column)` indexing of `Array2D`: writes one
/// cell and leaves the others.
#[verifier::external_body]
pub(crate) fn grid_set(a: &mut Array2D<char>, row: usize, col: usize, x: char)
    requires
        row < grid_of(*old(a)).len(),
        col < grid_of(*old(a))[row as int].len(),
    ensures
        grid_of(*final(a)) == grid_of(*old(a)).update(
            row as int,
            grid_of(*old(a))[row as int].update(col as int, x),
        ),
{
    a[(row, col)] = x;
}

/// Relies on the derived `Clone` of `Array2D`: an equal copy.
#[verifier::external_body]
pub(crate) fn grid_copy(a: &Array2D<char>) -> (r: Array2D<char>)
    ensures
        grid_of(r) == grid_of(*a),
{
    a.clone()
}

/// Relies on `Array2D::as_rows`: the rows, each as a vector. An array with
/// rows must have columns, since `as_rows` looks up the first cell of each row.
#[verifier::external_body]
pub(crate) fn grid_rows(a: &Array2D<char>) -> (r: Vec<Vec<char>>)
    requires
        grid_of(*a).len() > 0 ==> grid_of(*a)[0].len() > 0,
    ensures
        r@.len() == grid_of(*a).len(),
        forall|i: int| 0 <= i < r@.len() ==> (#[trigger] r@[i])@ == grid_of(*a)[i],
{
    a.as_rows()
}

/// Relies on `Array2D::as_columns`: the columns, each as a vector. The array
/// must have a row, so that its width is that of its rows.
#[verifier::external_body]
pub(crate) fn grid_columns(a: &Array2D<char>) -> (r: Vec<Vec<char>>)
    requires
        grid_of(*a).len() > 0,
        rectangular(grid_of(*a), grid_of(*a)[0].len() as int),
    ensures
        r@.len() == grid_of(*a)[0].len(),
        forall|j: int| 0 <= j < r@.len() ==> (#[trigger] r@[j])@ == column_of(grid_of(*a), j),
{
    a.as_columns()
}

} // verus!
