//! Row-major grids whose rows are computed in parallel.

use rayon::iter::{IntoParallelIterator, ParallelIterator};
use vstd::prelude::*;

verus! {

/// Maps a `rayon` parallel iterator over `0..rows` through `row` and collects
/// the results.
///
/// The claim is that `row` is called once for each index and that the results
/// are collected in the order of the indices.
#[verifier::external_body]
fn par_rows<T: Send, F: Fn(usize) -> T + Sync + Send>(rows: usize, row: F) -> (out: Vec<T>)
    requires
        forall|y: usize| y < rows ==> call_requires(row, (y,)),
    ensures
        out@.len() == rows,
        forall|y: usize| y < rows ==> call_ensures(row, (y,), #[trigger] out@[y as int]),
{
    (0..rows).into_par_iter().map(row).collect()
}

/// Where the cell at row `y` and column `x` stands in a row-major grid.
pub open spec fn place(width: int, y: int, x: int) -> int {
    y * width + x
}

/// Every place of a grid belongs to one row and one column.
pub proof fn place_has_cell(width: int, rows: int, i: int)
    requires
        0 <= width,
        0 <= i < rows * width,
    ensures
        0 < width,
        0 <= i / width < rows,
        0 <= i % width < width,
        i == place(width, i / width, i % width),
{
    assert(0 < width) by (nonlinear_arith)
        requires
            0 <= width,
            0 <= i < rows * width,
    ;
    vstd::arithmetic::div_mod::lemma_fundamental_div_mod(i, width);
    assert(0 <= i / width < rows) by (nonlinear_arith)
        requires
            0 < width,
            0 <= i < rows * width,
            i == width * (i / width) + i % width,
            0 <= i % width < width,
    ;
    assert((i / width) * width == width * (i / width)) by (nonlinear_arith);
}

/// Every row and column has its own place in a grid.
pub proof fn cell_has_place(width: int, rows: int, y: int, x: int)
    requires
        0 <= y < rows,
        0 <= x < width,
    ensures
        0 <= place(width, y, x) < rows * width,
        place(width, y, x) / width == y,
        place(width, y, x) % width == x,
{
    assert(0 <= y * width && y * width + width <= rows * width) by (nonlinear_arith)
        requires
            0 <= y < rows,
            0 < width,
    ;
    vstd::arithmetic::div_mod::lemma_fundamental_div_mod_converse(y * width + x, width, y, x);
}

/// Whether `out` is row `y` of the grid that `cell` computes.
pub open spec fn is_cell_row<T, F: Fn(usize, usize) -> T>(
    cell: &F,
    width: usize,
    y: usize,
    out: Seq<T>,
) -> bool {
    &&& out.len() == width
    &&& forall|x: usize| x < width ==> call_ensures(*cell, (y, x), #[trigger] out[x as int])
}

/// One row of a grid of cells.
fn cell_row<T, F: Fn(usize, usize) -> T>(cell: &F, width: usize, y: usize) -> (out: Vec<T>)
    requires
        forall|x: usize| x < width ==> call_requires(*cell, (y, x)),
    ensures
        is_cell_row(cell, width, y, out@),
{
    let mut out: Vec<T> = Vec::with_capacity(width);
    let mut x: usize = 0;
    while x < width
        invariant
            x <= width,
            forall|x: usize| x < width ==> call_requires(*cell, (y, x)),
            out@.len() == x,
            forall|k: usize| k < x ==> call_ensures(*cell, (y, k), #[trigger] out@[k as int]),
        decreases width - x,
    {
        out.push(cell(y, x));
        x += 1;
    }
    out
}

/// Computes a grid of `rows` rows of `width` cells each, the rows in
/// parallel. `cell` is given the row and the column.
pub fn par_cells<T: Copy + Send, F: Fn(usize, usize) -> T + Sync + Send>(
    rows: usize,
    width: usize,
    cell: F,
) -> (grid: Vec<T>)
    requires
        rows * width <= usize::MAX,
        forall|y: usize, x: usize| y < rows && x < width ==> call_requires(cell, (y, x)),
    ensures
        grid@.len() == rows * width,
        forall|i: int|
            0 <= i < rows * width ==> call_ensures(
                cell,
                ((i / width as int) as usize, (i % width as int) as usize),
                #[trigger] grid@[i],
            ),
{
    let row = |y: usize| -> (out: Vec<T>)
        requires
            y < rows,
        ensures
            is_cell_row(&cell, width, y, out@),
        { cell_row(&cell, width, y) };
    let lines: Vec<Vec<T>> = par_rows(rows, row);
    assert forall|y: usize| y < rows implies is_cell_row(
        &cell,
        width,
        y,
        #[trigger] lines@[y as int]@,
    ) by {
        assert(call_ensures(row, (y,), lines@[y as int]));
    }
    let mut grid: Vec<T> = Vec::with_capacity(rows * width);
    let mut y: usize = 0;
    assert(0 * width == 0) by (nonlinear_arith);
    while y < rows
        invariant
            y <= rows,
            lines@.len() == rows,
            forall|y: usize|
                y < rows ==> is_cell_row(&cell, width, y, #[trigger] lines@[y as int]@),
            grid@.len() == y * width,
            forall|i: int|
                0 <= i < y * width ==> call_ensures(
                    cell,
                    ((i / width as int) as usize, (i % width as int) as usize),
                    #[trigger] grid@[i],
                ),
        decreases rows - y,
    {
        let ghost before = grid@;
        let line: &Vec<T> = &lines[y];
        assert(line@ == lines@[y as int]@);
        let mut x: usize = 0;
        while x < width
            invariant
                x <= width,
                line@.len() == width,
                grid@ =~= before + line@.take(x as int),
            decreases width - x,
        {
            grid.push(line[x]);
            x += 1;
        }
        proof {
            assert((y + 1) * width == y * width + width) by (nonlinear_arith);
            assert forall|i: int| 0 <= i < (y + 1) * width implies call_ensures(
                cell,
                ((i / width as int) as usize, (i % width as int) as usize),
                #[trigger] grid@[i],
            ) by {
                if i < y * width {
                    assert(grid@[i] == before[i]);
                } else {
                    let x = (i - y * width) as usize;
                    cell_has_place(width as int, y + 1, y as int, x as int);
                    assert(grid@[i] == lines@[y as int]@[x as int]);
                }
            }
        }
        y += 1;
    }
    grid
}

} // verus!
