//! Rectangular tables stored row after row.
use vstd::prelude::*;

verus! {

/// A table of `rows` rows and `cols` columns, in row-major order.
pub struct Grid<T> {
    pub rows: usize,
    pub cols: usize,
    pub cells: Vec<T>,
}

impl<T> Grid<T> {
    /// The cells fill the table.
    pub open spec fn well_formed(self) -> bool {
        self.cells@.len() == self.rows * self.cols
    }

    /// The cell in row `b` and column `t`.
    pub open spec fn at(self, b: int, t: int) -> T {
        self.cells@[b * self.cols + t]
    }
}

pub proof fn lemma_cell_in_range(rows: int, cols: int, b: int, t: int)
    requires
        0 <= b < rows,
        0 <= t < cols,
    ensures
        0 <= b * cols + t < rows * cols,
{
    assert(b * cols + t < rows * cols) by (nonlinear_arith)
        requires
            0 <= b < rows,
            0 <= t < cols,
    ;
    assert(0 <= b * cols) by (nonlinear_arith)
        requires
            0 <= b,
            0 <= cols,
    ;
}

/// Each cell stands in a row and a column.
pub proof fn lemma_cell_has_place(rows: int, cols: int, k: int) -> (place: (int, int))
    requires
        0 <= rows,
        0 <= cols,
        0 <= k < rows * cols,
    ensures
        0 <= place.0 < rows,
        0 <= place.1 < cols,
        place.0 * cols + place.1 == k,
{
    assert(cols > 0) by (nonlinear_arith)
        requires
            0 <= cols,
            0 <= k < rows * cols,
    ;
    let b = k / cols;
    let t = k % cols;
    vstd::arithmetic::div_mod::lemma_fundamental_div_mod(k, cols);
    vstd::arithmetic::div_mod::lemma_mod_bound(k, cols);
    assert(b * cols + t == k) by (nonlinear_arith)
        requires
            k == cols * b + t,
    ;
    assert(0 <= b < rows) by (nonlinear_arith)
        requires
            b * cols + t == k,
            0 <= t < cols,
            0 <= k < rows * cols,
    ;
    (b, t)
}

proof fn lemma_row_end(cols: int, b: int)
    ensures
        b * cols + cols == (b + 1) * cols,
{
    assert(b * cols + cols == (b + 1) * cols) by (nonlinear_arith);
}

proof fn lemma_earlier_cell(cols: int, b: int, t: int, c: int, u: int)
    requires
        0 <= b <= c,
        0 <= t < cols,
        0 <= u,
        b == c ==> t < u,
    ensures
        0 <= b * cols + t < c * cols + u,
{
    assert(0 <= b * cols) by (nonlinear_arith)
        requires
            0 <= b,
            0 <= cols,
    ;
    if b < c {
        assert(b * cols + t < c * cols) by (nonlinear_arith)
            requires
                0 <= b < c,
                0 <= t < cols,
        ;
    }
}

/// The table whose cell in row `b` and column `t` is `f(b, t)`.
pub fn tabulate<T, F: Fn(usize, usize) -> T>(rows: usize, cols: usize, f: F) -> (g: Grid<T>)
    requires
        rows * cols <= usize::MAX,
        forall|b: usize, t: usize| b < rows && t < cols ==> call_requires(f, (b, t)),
    ensures
        g.well_formed(),
        g.rows == rows,
        g.cols == cols,
        forall|b: usize, t: usize|
            b < rows && t < cols ==> call_ensures(f, (b, t), #[trigger] g.at(b as int, t as int)),
{
    let mut g: Grid<T> = Grid { rows, cols, cells: Vec::new() };
    let mut b: usize = 0;
    while b < rows
        invariant
            g.rows == rows,
            g.cols == cols,
            b <= rows,
            g.cells@.len() == b * cols,
            forall|b: usize, t: usize| b < rows && t < cols ==> call_requires(f, (b, t)),
            forall|x: usize, t: usize|
                x < b && t < cols ==> call_ensures(f, (x, t), #[trigger] g.at(x as int, t as int)),
        decreases rows - b,
    {
        let mut t: usize = 0;
        while t < cols
            invariant
                g.rows == rows,
                g.cols == cols,
                b < rows,
                t <= cols,
                g.cells@.len() == b * cols + t,
                forall|b: usize, t: usize| b < rows && t < cols ==> call_requires(f, (b, t)),
                forall|x: usize, u: usize|
                    (x < b && u < cols) || (x == b && u < t) ==> call_ensures(
                        f,
                        (x, u),
                        #[trigger] g.at(x as int, u as int),
                    ),
            decreases cols - t,
        {
            let ghost had = g;
            let value = f(b, t);
            g.cells.push(value);
            proof {
                assert forall|x: usize, u: usize|
                    (x < b && u < cols) || (x == b && u < t + 1) implies call_ensures(
                    f,
                    (x, u),
                    #[trigger] g.at(x as int, u as int),
                ) by {
                    if x == b && u == t {
                        assert(g.at(x as int, u as int) == value);
                    } else {
                        lemma_earlier_cell(
                            cols as int,
                            x as int,
                            u as int,
                            b as int,
                            t as int,
                        );
                        assert(g.at(x as int, u as int) == had.at(x as int, u as int));
                    }
                }
            }
            t = t + 1;
        }
        proof {
            lemma_row_end(cols as int, b as int);
        }
        b = b + 1;
    }
    g
}

/// The cells of a grid stand row by row, so that each place has a cell of its own.
pub proof fn law_places_are_apart<T>(g: Grid<T>, b: int, t: int, c: int, u: int)
    requires
        g.well_formed(),
        0 <= b < g.rows && 0 <= t < g.cols,
        0 <= c < g.rows && 0 <= u < g.cols,
    ensures
        0 <= b * g.cols + t < g.cells@.len(),
        g.at(b, t) == g.cells@[b * g.cols + t],
        b * g.cols + t == c * g.cols + u ==> b == c && t == u,
{
    lemma_cell_in_range(g.rows as int, g.cols as int, b, t);
    let n = g.cols as int;
    if b < c {
        assert(b * n + n <= c * n) by (nonlinear_arith)
            requires
                b + 1 <= c,
                n >= 0,
        ;
    } else if c < b {
        assert(c * n + n <= b * n) by (nonlinear_arith)
            requires
                c + 1 <= b,
                n >= 0,
        ;
    }
}

} // verus!
