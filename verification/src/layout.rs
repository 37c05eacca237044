use vstd::prelude::*;
use crate::scalar::Scalar;

verus! {

/// Whether a buffer of `len` elements holds a vector of `n` elements that
/// lie `inc` positions apart, the first at position 0.
pub open spec fn vector_fits(len: int, n: int, inc: int) -> bool {
    inc >= 1 && n >= 0 && (n == 0 || (n - 1) * inc < len)
}

/// Whether position `t` of a buffer is one of the first `n` elements of a
/// vector whose elements lie `inc` positions apart.
pub open spec fn on_stride(t: int, n: int, inc: int) -> bool {
    t >= 0 && inc >= 1 && t % inc == 0 && t / inc < n
}

/// Whether a buffer of `len` elements holds a column-major matrix of `rows`
/// by `cols` elements whose columns lie `ld` positions apart.
pub open spec fn matrix_fits(len: int, rows: int, cols: int, ld: int) -> bool {
    &&& rows >= 0
    &&& cols >= 0
    &&& ld >= 1
    &&& rows <= ld
    &&& (rows == 0 || cols == 0 || (cols - 1) * ld + rows <= len)
}

/// The row of position `t` in a column-major buffer with leading dimension `ld`.
pub open spec fn row_of(t: int, ld: int) -> int {
    t % ld
}

/// The column of position `t` in a column-major buffer with leading dimension `ld`.
pub open spec fn col_of(t: int, ld: int) -> int {
    t / ld
}

/// Whether position `t` lies in rows `r_lo..r_hi` and columns `c_lo..c_hi`.
pub open spec fn in_block(t: int, ld: int, r_lo: int, r_hi: int, c_lo: int, c_hi: int) -> bool {
    r_lo <= row_of(t, ld) < r_hi && c_lo <= col_of(t, ld) < c_hi
}

/// `acc` after the reduction steps `terms`, first to last: each step adds
/// the product of its pair to what the steps before it gave.
pub open spec fn accumulate<T: Scalar>(acc: T, terms: Seq<(T, T)>) -> T
    decreases terms.len(),
{
    if terms.len() == 0 {
        acc
    } else {
        accumulate(acc, terms.drop_last()).with_product(terms.last().0, terms.last().1)
    }
}

/// `acc` with the terms added to it one after the other, first to last.
pub open spec fn total<T: Scalar>(acc: T, terms: Seq<T>) -> T
    decreases terms.len(),
{
    if terms.len() == 0 {
        acc
    } else {
        total(acc, terms.drop_last()).sum(terms.last())
    }
}

/// One block of reduction steps after another is their concatenation.
pub proof fn lemma_accumulate_concat<T: Scalar>(acc: T, first: Seq<(T, T)>, second: Seq<(T, T)>)
    ensures
        accumulate(accumulate(acc, first), second) == accumulate(acc, first + second),
    decreases second.len(),
{
    if second.len() == 0 {
        assert(first + second =~= first);
    } else {
        lemma_accumulate_concat(acc, first, second.drop_last());
        assert((first + second).drop_last() =~= first + second.drop_last());
        assert((first + second).last() == second.last());
    }
}

/// One more step: the first `p + 1` steps add the product of `terms[p]`
/// to what the first `p` gave.
pub(crate) proof fn lemma_accumulate_step<T: Scalar>(acc: T, terms: Seq<(T, T)>, p: int)
    requires
        0 <= p < terms.len(),
    ensures
        accumulate(acc, terms.take(p + 1)) == accumulate(acc, terms.take(p)).with_product(
            terms[p].0,
            terms[p].1,
        ),
{
    assert(terms.take(p + 1).drop_last() =~= terms.take(p));
    assert(terms.take(p + 1).last() == terms[p]);
}

/// One more term: the first `p + 1` terms add `terms[p]` to the total of the first `p`.
pub(crate) proof fn lemma_total_step<T: Scalar>(acc: T, terms: Seq<T>, p: int)
    requires
        0 <= p < terms.len(),
    ensures
        total(acc, terms.take(p + 1)) == total(acc, terms.take(p)).sum(terms[p]),
{
    assert(terms.take(p + 1).drop_last() =~= terms.take(p));
    assert(terms.take(p + 1).last() == terms[p]);
}

/// The `i`-th element of a vector that fits lies inside the buffer, and
/// `on_stride` finds it again.
pub(crate) proof fn lemma_stride_index(i: int, n: int, inc: int, len: int)
    requires
        0 <= i < n,
        vector_fits(len, n, inc),
    ensures
        0 <= i * inc < len,
        i * inc <= (n - 1) * inc,
        (i * inc) % inc == 0,
        (i * inc) / inc == i,
{
    assert(0 <= i * inc <= (n - 1) * inc) by (nonlinear_arith)
        requires
            0 <= i <= n - 1,
            inc >= 1,
    ;
    vstd::arithmetic::div_mod::lemma_fundamental_div_mod_converse(i * inc, inc, i, 0);
}

/// A position on the stride is the position of the element that `on_stride` names.
pub(crate) proof fn lemma_stride_position(t: int, inc: int)
    requires
        t >= 0,
        inc >= 1,
        t % inc == 0,
    ensures
        t == (t / inc) * inc,
        t / inc >= 0,
{
    vstd::arithmetic::div_mod::lemma_fundamental_div_mod(t, inc);
    assert(inc * (t / inc) == (t / inc) * inc) by (nonlinear_arith);
    assert(t / inc >= 0) by (nonlinear_arith)
        requires
            t >= 0,
            inc >= 1,
    ;
}

/// The position of row `row`, column `col` and what `row_of` and `col_of` make of it.
pub(crate) proof fn lemma_cell(row: int, col: int, ld: int)
    requires
        0 <= row < ld,
        0 <= col,
    ensures
        row + col * ld >= 0,
        row_of(row + col * ld, ld) == row,
        col_of(row + col * ld, ld) == col,
{
    assert(col * ld >= 0) by (nonlinear_arith)
        requires
            col >= 0,
            ld > 0,
    ;
    assert(ld * col == col * ld) by (nonlinear_arith);
    vstd::arithmetic::div_mod::lemma_fundamental_div_mod_converse(row + col * ld, ld, col, row);
}

/// Every position is the cell of its row and its column.
pub(crate) proof fn lemma_cell_of_position(t: int, ld: int)
    requires
        t >= 0,
        ld >= 1,
    ensures
        t == row_of(t, ld) + col_of(t, ld) * ld,
        0 <= row_of(t, ld) < ld,
        0 <= col_of(t, ld),
{
    vstd::arithmetic::div_mod::lemma_fundamental_div_mod(t, ld);
    assert(ld * (t / ld) == (t / ld) * ld) by (nonlinear_arith);
    assert(t / ld >= 0) by (nonlinear_arith)
        requires
            t >= 0,
            ld >= 1,
    ;
    assert(0 <= t % ld < ld) by (nonlinear_arith)
        requires
            ld >= 1,
    ;
}

/// A product of two bounded factors is bounded by the product of the bounds.
pub(crate) proof fn lemma_product_bound(x: int, x_max: int, y: int, y_max: int)
    requires
        0 <= x <= x_max,
        0 <= y <= y_max,
    ensures
        0 <= x * y <= x_max * y_max,
{
    assert(0 <= x * y <= x_max * y_max) by (nonlinear_arith)
        requires
            0 <= x <= x_max,
            0 <= y <= y_max,
    ;
}

/// A tile seen from the buffer that starts at its first cell: position `t`
/// of the whole buffer lies in the tile of `height` rows and `width`
/// columns at row `i`, column `j` exactly when position `t - off` of the
/// rest lies in the tile at row 0, column 0, where `off` is the position of
/// the tile's first cell.
pub(crate) proof fn lemma_tile_position(t: int, off: int, i: int, j: int, ld: int, height: int, width: int)
    requires
        t >= 0,
        0 <= i,
        0 <= j,
        0 <= height,
        i + height <= ld,
        off == i + j * ld,
    ensures
        off >= 0,
        in_block(t, ld, i, i + height, j, j + width) <==> (t >= off && in_block(
            t - off,
            ld,
            0,
            height,
            0,
            width,
        )),
        in_block(t, ld, i, i + height, j, j + width) ==> row_of(t - off, ld) == row_of(t, ld) - i
            && col_of(t - off, ld) == col_of(t, ld) - j,
{
    assert(j * ld >= 0) by (nonlinear_arith)
        requires
            j >= 0,
            ld >= 0,
    ;
    if height > 0 {
        lemma_cell_of_position(t, ld);
        if in_block(t, ld, i, i + height, j, j + width) {
            let row = row_of(t, ld);
            let col = col_of(t, ld);
            assert(t - off == (row - i) + (col - j) * ld) by (nonlinear_arith)
                requires
                    t == row + col * ld,
                    off == i + j * ld,
            ;
            lemma_cell(row - i, col - j, ld);
        }
        if t >= off && in_block(t - off, ld, 0, height, 0, width) {
            lemma_cell_of_position(t - off, ld);
            let row = row_of(t - off, ld);
            let col = col_of(t - off, ld);
            assert(t == (i + row) + (j + col) * ld) by (nonlinear_arith)
                requires
                    t - off == row + col * ld,
                    off == i + j * ld,
            ;
            lemma_cell(i + row, j + col, ld);
        }
    }
}

/// The position of a cell of a strided operand, counted from the block
/// that starts at row `i`, step `p`.
pub(crate) proof fn lemma_shifted_cell(i: int, r: int, p: int, q: int, rs: int, cs: int)
    ensures
        (i + r) * rs + (p + q) * cs == (i * rs + p * cs) + (r * rs + q * cs),
{
    assert((i + r) * rs + (p + q) * cs == (i * rs + p * cs) + (r * rs + q * cs))
        by (nonlinear_arith);
}

/// A cell of a strided operand lies inside the buffer when the last cell does.
pub(crate) proof fn lemma_operand_cell(r: int, rows: int, q: int, steps: int, rs: int, cs: int)
    requires
        0 <= r < rows,
        0 <= q < steps,
        0 <= rs,
        0 <= cs,
    ensures
        0 <= r * rs <= (rows - 1) * rs,
        0 <= q * cs <= (steps - 1) * cs,
        0 <= r * rs + q * cs <= (rows - 1) * rs + (steps - 1) * cs,
{
    lemma_product_bound(r, rows - 1, rs, rs);
    lemma_product_bound(q, steps - 1, cs, cs);
}

} // verus!
