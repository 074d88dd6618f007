//! Row-major layout: `rows × cols` values flattened into one sequence.
use vstd::arithmetic::div_mod::{lemma_fundamental_div_mod, lemma_fundamental_div_mod_converse};
use vstd::arithmetic::mul::{lemma_mul_inequality, lemma_mul_is_distributive_add_other_way};
use vstd::prelude::*;

verus! {

/// The row-major sequence of `f(row, col)` over `rows × cols`.
pub open spec fn grid<A>(rows: int, cols: int, f: spec_fn(int, int) -> A) -> Seq<A> {
    Seq::new((rows * cols) as nat, |i: int| f(i / cols, i % cols))
}

/// Row `r` of a row-major sequence whose rows hold `cols` values each.
pub open spec fn row<A>(s: Seq<A>, cols: int, r: int) -> Seq<A> {
    s.subrange(r * cols, (r + 1) * cols)
}

/// Row `r` of `rows` lies inside `rows * cols`.
pub proof fn lemma_row_bounds(rows: int, cols: int, r: int)
    requires
        0 <= r < rows,
        0 <= cols,
    ensures
        0 <= r * cols,
        (r + 1) * cols == r * cols + cols,
        r * cols <= (r + 1) * cols <= rows * cols,
{
    lemma_mul_inequality(0, r, cols);
    lemma_mul_inequality(r, r + 1, cols);
    lemma_mul_inequality(r + 1, rows, cols);
    lemma_mul_is_distributive_add_other_way(cols, r, 1);
}

/// The flat index of `(r, c)` is in range and splits back into `r` and `c`.
pub proof fn lemma_flat_index(rows: int, cols: int, r: int, c: int)
    requires
        0 <= r < rows,
        0 <= c < cols,
    ensures
        0 <= r * cols + c < rows * cols,
        (r * cols + c) / cols == r,
        (r * cols + c) % cols == c,
{
    lemma_row_bounds(rows, cols, r);
    lemma_fundamental_div_mod_converse(r * cols + c, cols, r, c);
}

/// A flat index splits into a row and a column in range.
pub proof fn lemma_split_index(rows: int, cols: int, i: int)
    requires
        0 <= i < rows * cols,
        0 <= rows,
        0 <= cols,
    ensures
        cols > 0,
        0 <= i / cols < rows,
        0 <= i % cols < cols,
        (i / cols) * cols + i % cols == i,
{
    assert(cols > 0) by (nonlinear_arith)
        requires
            0 <= i < rows * cols,
            0 <= cols,
    ;
    lemma_fundamental_div_mod(i, cols);
    assert(0 <= i / cols < rows && (i / cols) * cols + i % cols == i && 0 <= i % cols < cols)
        by (nonlinear_arith)
        requires
            cols > 0,
            0 <= i < rows * cols,
            i == cols * (i / cols) + (i % cols),
            0 <= i % cols < cols,
    ;
}

/// The value of a grid at `(r, c)`.
pub proof fn lemma_grid_at<A>(rows: int, cols: int, f: spec_fn(int, int) -> A, r: int, c: int)
    requires
        0 <= r < rows,
        0 <= c < cols,
    ensures
        0 <= r * cols + c < rows * cols,
        grid(rows, cols, f)[r * cols + c] == f(r, c),
{
    lemma_flat_index(rows, cols, r, c);
}

/// A grid grows by appending one row.
pub proof fn lemma_grid_push<A>(rows: int, cols: int, f: spec_fn(int, int) -> A)
    requires
        0 <= rows,
        0 <= cols,
    ensures
        grid(rows + 1, cols, f) == grid(rows, cols, f) + Seq::new(
            cols as nat,
            |c: int| f(rows, c),
        ),
{
    lemma_row_bounds(rows + 1, cols, rows);
    let a = grid(rows + 1, cols, f);
    let last = Seq::new(cols as nat, |c: int| f(rows, c));
    assert forall|i: int| 0 <= i < a.len() implies #[trigger] a[i] == (grid(rows, cols, f)
        + last)[i] by {
        if i >= rows * cols {
            lemma_grid_at(rows + 1, cols, f, rows, i - rows * cols);
        }
    }
    assert(a =~= grid(rows, cols, f) + last);
}

/// The rows `f(0)`, …, `f(rows − 1)` of `cols` values each, one after another.
pub open spec fn stack<A>(rows: int, cols: int, f: spec_fn(int) -> Seq<A>) -> Seq<A> {
    grid(rows, cols, |r: int, c: int| f(r)[c])
}

/// A stack grows by appending a row.
pub proof fn lemma_stack_push<A>(rows: int, cols: int, f: spec_fn(int) -> Seq<A>)
    requires
        0 <= rows,
        0 <= cols,
        f(rows).len() == cols,
    ensures
        stack(rows + 1, cols, f) == stack(rows, cols, f) + f(rows),
{
    let g = |r: int, c: int| f(r)[c];
    lemma_grid_push(rows, cols, g);
    assert(Seq::new(cols as nat, |c: int| g(rows, c)) =~= f(rows));
}

/// The length of a stack.
pub proof fn lemma_stack_len<A>(rows: int, cols: int, f: spec_fn(int) -> Seq<A>)
    requires
        0 <= rows,
        0 <= cols,
    ensures
        stack(rows, cols, f).len() == rows * cols,
{
    assert(rows * cols >= 0) by (nonlinear_arith)
        requires
            0 <= rows,
            0 <= cols,
    ;
}

} // verus!
