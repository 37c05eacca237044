use vstd::prelude::*;
use crate::layout::{accumulate, col_of, in_block, lemma_accumulate_concat, lemma_accumulate_step, lemma_cell, lemma_cell_of_position, lemma_product_bound, matrix_fits, row_of, vector_fits};
use crate::scalar::{is_left_identity, lemma_i64_one_is_identity, Scalar};

verus! {

/// Columns of the register tile, and width of a packed panel of B.
pub const TILE_COLS: usize = 4;

/// Rows of the register tile in single precision.
pub const S_TILE_ROWS: usize = 16;

/// Rows of the register tile in double precision.
pub const D_TILE_ROWS: usize = 8;

/// A packing buffer whose first `count` positions hold a panel of A of
/// `height` rows, scaled by `alpha`: position `r + height * p` holds
/// `alpha * a[r * rs + p * cs]`. The other positions are as in `dst`.
pub open spec fn packed_a<T: Scalar>(
    dst: Seq<T>,
    height: int,
    count: int,
    alpha: T,
    a: Seq<T>,
    rs: int,
    cs: int,
) -> Seq<T> {
    Seq::new(
        dst.len(),
        |t: int|
            if 0 <= t < count {
                alpha.product(a[(t % height) * rs + (t / height) * cs])
            } else {
                dst[t]
            },
    )
}

/// A packing buffer whose first `count` positions hold a panel of B of
/// four columns: position `4 * p + j` holds `b[p * rs + j * cs]`. The other
/// positions are as in `dst`.
pub open spec fn packed_b<T: Scalar>(dst: Seq<T>, count: int, b: Seq<T>, rs: int, cs: int) -> Seq<T> {
    Seq::new(
        dst.len(),
        |t: int|
            if 0 <= t < count {
                b[(t / 4) * rs + (t % 4) * cs]
            } else {
                dst[t]
            },
    )
}

/// The pairs whose products the tile kernel adds to the cell in row `row`
/// and column `col` of its tile, in the order of the reduction.
pub open spec fn tile_terms<T: Scalar>(
    a: Seq<T>,
    b: Seq<T>,
    height: int,
    k: int,
    row: int,
    col: int,
) -> Seq<(T, T)> {
    Seq::new(k as nat, |p: int| (b[4 * p + col], a[row + height * p]))
}

/// A column-major buffer in which every cell of rows `r_lo..r_hi` and
/// columns `c_lo..c_hi` was scaled by `beta` and then took the reduction
/// steps of that cell, one after the other. The other positions are as in `c`.
pub open spec fn block_update<T: Scalar>(
    c: Seq<T>,
    ld: int,
    r_lo: int,
    r_hi: int,
    c_lo: int,
    c_hi: int,
    beta: T,
    terms: spec_fn(int, int) -> Seq<(T, T)>,
) -> Seq<T> {
    Seq::new(
        c.len(),
        |t: int|
            if in_block(t, ld, r_lo, r_hi, c_lo, c_hi) {
                accumulate(c[t].product(beta), terms(row_of(t, ld), col_of(t, ld)))
            } else {
                c[t]
            },
    )
}

/// What the tile kernel leaves in `c`: the tile of `height` rows and four
/// columns at the start of `c` becomes `tile * beta + A * B`, from the two
/// packed panels. The cell in row `r` and column `j` is multiplied by
/// `beta` and then takes, for each step `p` in turn, the product of
/// `b[4 * p + j]` and `a[r + height * p]`.
pub open spec fn tile_update<T: Scalar>(
    c: Seq<T>,
    ldc: int,
    height: int,
    k: int,
    a: Seq<T>,
    b: Seq<T>,
    beta: T,
) -> Seq<T> {
    block_update(
        c,
        ldc,
        0,
        height,
        0,
        4,
        beta,
        |row: int, col: int| tile_terms(a, b, height, k, row, col),
    )
}

/// Packs a panel of A of `height` rows and `k` reduction steps, scaling
/// each element by `alpha`. The element in row `r` at step `p` is read at
/// `a[r * rs + p * cs]` and written to `packed[r + height * p]`.
pub fn pack_a_panel<T: Scalar>(
    height: usize,
    k: usize,
    alpha: T,
    a: &[T],
    rs: usize,
    cs: usize,
    packed: &mut [T],
)
    requires
        height >= 1,
        height * k <= old(packed)@.len(),
        k == 0 || (height - 1) * rs + (k - 1) * cs < a@.len(),
    ensures
        final(packed)@ == packed_a(
            old(packed)@,
            height as int,
            height * k,
            alpha,
            a@,
            rs as int,
            cs as int,
        ),
{
    let a_len: usize = a.len();
    let packed_len: usize = packed.len();
    let mut p: usize = 0;
    while p < k
        invariant
            p <= k,
            height >= 1,
            a_len == a@.len(),
            packed_len == old(packed)@.len(),
            height * k <= old(packed)@.len(),
            k == 0 || (height - 1) * rs + (k - 1) * cs < a@.len(),
            packed@ =~= packed_a(
                old(packed)@,
                height as int,
                height * p,
                alpha,
                a@,
                rs as int,
                cs as int,
            ),
        decreases k - p,
    {
        let mut r: usize = 0;
        while r < height
            invariant
                p < k,
                r <= height,
                height >= 1,
                a_len == a@.len(),
                packed_len == old(packed)@.len(),
                height * k <= old(packed)@.len(),
                (height - 1) * rs + (k - 1) * cs < a@.len(),
                packed@ =~= packed_a(
                    old(packed)@,
                    height as int,
                    height * p + r,
                    alpha,
                    a@,
                    rs as int,
                    cs as int,
                ),
            decreases height - r,
        {
            proof {
                lemma_product_bound(r as int, height - 1, rs as int, rs as int);
                lemma_product_bound(p as int, k - 1, cs as int, cs as int);
                lemma_product_bound(height as int, height as int, p as int, k - 1);
                assert(height * (k - 1) == height * k - height) by (nonlinear_arith);
                lemma_cell(r as int, p as int, height as int);
                assert(p * height == height * p) by (nonlinear_arith);
            }
            let src: usize = r * rs + p * cs;
            let dst: usize = height * p + r;
            let v: T = alpha.times(a[src]);
            packed[dst] = v;
            r += 1;
        }
        proof {
            assert(height * (p + 1) == height * p + height) by (nonlinear_arith);
        }
        p += 1;
    }
}

/// Packs a panel of B of four columns and `k` reduction steps. The element
/// at step `p` in column `j` is read at `b[p * rs + j * cs]` and written to
/// `packed[4 * p + j]`.
pub fn pack_b_panel<T: Scalar>(k: usize, b: &[T], rs: usize, cs: usize, packed: &mut [T])
    requires
        4 * k <= old(packed)@.len(),
        k == 0 || (k - 1) * rs + 3 * cs < b@.len(),
    ensures
        final(packed)@ == packed_b(old(packed)@, 4 * k, b@, rs as int, cs as int),
{
    let b_len: usize = b.len();
    let packed_len: usize = packed.len();
    let mut p: usize = 0;
    while p < k
        invariant
            p <= k,
            b_len == b@.len(),
            packed_len == old(packed)@.len(),
            4 * k <= old(packed)@.len(),
            k == 0 || (k - 1) * rs + 3 * cs < b@.len(),
            packed@ =~= packed_b(old(packed)@, 4 * p, b@, rs as int, cs as int),
        decreases k - p,
    {
        let mut j: usize = 0;
        while j < 4
            invariant
                p < k,
                j <= 4,
                b_len == b@.len(),
                packed_len == old(packed)@.len(),
                4 * k <= old(packed)@.len(),
                (k - 1) * rs + 3 * cs < b@.len(),
                packed@ =~= packed_b(old(packed)@, 4 * p + j, b@, rs as int, cs as int),
            decreases 4 - j,
        {
            proof {
                lemma_product_bound(p as int, k - 1, rs as int, rs as int);
                lemma_product_bound(j as int, 3, cs as int, cs as int);
            }
            let src: usize = p * rs + j * cs;
            let dst: usize = 4 * p + j;
            packed[dst] = b[src];
            j += 1;
        }
        p += 1;
    }
}

/// The tile kernel: with the packed panels `a` (`height` rows by `k` steps)
/// and `b` (`k` steps by four columns), the tile of `height` rows and four
/// columns at the start of `c` becomes `tile * beta + a * b`. Each cell is
/// scaled first and then takes its `k` products in the order of the
/// reduction. Nothing outside the tile is written.
pub fn packed_tile<T: Scalar>(
    height: usize,
    k: usize,
    a: &[T],
    b: &[T],
    beta: T,
    c: &mut [T],
    ldc: usize,
)
    requires
        height >= 1,
        height * k <= a@.len(),
        4 * k <= b@.len(),
        height <= ldc,
        3 * ldc + height <= old(c)@.len(),
    ensures
        final(c)@ == tile_update(old(c)@, ldc as int, height as int, k as int, a@, b@, beta),
{
    let a_len: usize = a.len();
    let b_len: usize = b.len();
    let c_len: usize = c.len();
    let mut i: usize = 0;
    while i < height
        invariant
            i <= height,
            1 <= height <= ldc,
            a_len == a@.len(),
            b_len == b@.len(),
            c_len == old(c)@.len(),
            height * k <= a_len,
            4 * k <= b_len,
            3 * ldc + height <= c_len,
            c@ =~= block_update(
                old(c)@,
                ldc as int,
                0,
                i as int,
                0,
                4,
                beta,
                |row: int, col: int| tile_terms(a@, b@, height as int, k as int, row, col),
            ),
        decreases height - i,
    {
        proof {
            lemma_cell(i as int, 0, ldc as int);
            lemma_cell(i as int, 1, ldc as int);
            lemma_cell(i as int, 2, ldc as int);
            lemma_cell(i as int, 3, ldc as int);
        }
        let t0: usize = i;
        let t1: usize = i + ldc;
        let t2: usize = i + 2 * ldc;
        let t3: usize = i + 3 * ldc;
        let ghost terms0 = tile_terms(a@, b@, height as int, k as int, i as int, 0);
        let ghost terms1 = tile_terms(a@, b@, height as int, k as int, i as int, 1);
        let ghost terms2 = tile_terms(a@, b@, height as int, k as int, i as int, 2);
        let ghost terms3 = tile_terms(a@, b@, height as int, k as int, i as int, 3);
        let ghost before = c@;
        let mut creg0: T = c[t0].times(beta);
        let mut creg1: T = c[t1].times(beta);
        let mut creg2: T = c[t2].times(beta);
        let mut creg3: T = c[t3].times(beta);
        proof {
            assert(terms0.take(0) =~= Seq::<(T, T)>::empty());
            assert(terms1.take(0) =~= Seq::<(T, T)>::empty());
            assert(terms2.take(0) =~= Seq::<(T, T)>::empty());
            assert(terms3.take(0) =~= Seq::<(T, T)>::empty());
        }
        let mut p: usize = 0;
        while p < k
            invariant
                p <= k,
                i < height,
                a_len == a@.len(),
                b_len == b@.len(),
                height * k <= a_len,
                4 * k <= b_len,
                terms0 == tile_terms(a@, b@, height as int, k as int, i as int, 0),
                terms1 == tile_terms(a@, b@, height as int, k as int, i as int, 1),
                terms2 == tile_terms(a@, b@, height as int, k as int, i as int, 2),
                terms3 == tile_terms(a@, b@, height as int, k as int, i as int, 3),
                creg0 == accumulate(old(c)@[t0 as int].product(beta), terms0.take(p as int)),
                creg1 == accumulate(old(c)@[t1 as int].product(beta), terms1.take(p as int)),
                creg2 == accumulate(old(c)@[t2 as int].product(beta), terms2.take(p as int)),
                creg3 == accumulate(old(c)@[t3 as int].product(beta), terms3.take(p as int)),
            decreases k - p,
        {
            proof {
                lemma_product_bound(height as int, height as int, p as int, k - 1);
                assert(height * (k - 1) == height * k - height) by (nonlinear_arith);
                lemma_accumulate_step(old(c)@[t0 as int].product(beta), terms0, p as int);
                lemma_accumulate_step(old(c)@[t1 as int].product(beta), terms1, p as int);
                lemma_accumulate_step(old(c)@[t2 as int].product(beta), terms2, p as int);
                lemma_accumulate_step(old(c)@[t3 as int].product(beta), terms3, p as int);
            }
            let areg: T = a[i + height * p];
            let breg0: T = b[4 * p];
            let breg1: T = b[4 * p + 1];
            let breg2: T = b[4 * p + 2];
            let breg3: T = b[4 * p + 3];
            creg0 = creg0.add_product(breg0, areg);
            creg1 = creg1.add_product(breg1, areg);
            creg2 = creg2.add_product(breg2, areg);
            creg3 = creg3.add_product(breg3, areg);
            p += 1;
        }
        proof {
            assert(terms0.take(k as int) =~= terms0);
            assert(terms1.take(k as int) =~= terms1);
            assert(terms2.take(k as int) =~= terms2);
            assert(terms3.take(k as int) =~= terms3);
        }
        c[t0] = creg0;
        c[t1] = creg1;
        c[t2] = creg2;
        c[t3] = creg3;
        proof {
            let next = block_update(
                old(c)@,
                ldc as int,
                0,
                i + 1,
                0,
                4,
                beta,
                |row: int, col: int| tile_terms(a@, b@, height as int, k as int, row, col),
            );
            assert forall|t: int| 0 <= t < c_len implies c@[t] == next[t] by {
                lemma_cell_of_position(t, ldc as int);
                let row = row_of(t, ldc as int);
                let col = col_of(t, ldc as int);
                if row == i && 0 <= col < 4 {
                    if col == 0 {
                        assert(t == t0);
                    } else if col == 1 {
                        assert(t == t1);
                    } else if col == 2 {
                        assert(t == t2);
                    } else {
                        assert(t == t3);
                    }
                } else {
                    assert(t != t0 && t != t1 && t != t2 && t != t3);
                    assert(c@[t] == before[t]);
                }
            }
            assert(c@ =~= next);
        }
        i += 1;
    }
}

/// Packs a panel of A of sixteen rows: `packed_a[r + 16 * p]` becomes
/// `alpha * a[r + p * lda]` for each of the `k` reduction steps `p`.
pub fn s_pack_a<T: Scalar>(k: usize, alpha: T, a: &[T], lda: usize, packed_a: &mut [T])
    requires
        16 * k <= old(packed_a)@.len(),
        k == 0 || (k - 1) * lda + 16 <= a@.len(),
    ensures
        final(packed_a)@ == self::packed_a(old(packed_a)@, 16, 16 * k, alpha, a@, 1, lda as int),
{
    pack_a_panel(S_TILE_ROWS, k, alpha, a, 1, lda, packed_a);
}

/// Packs a panel of A of eight rows: `packed_a[r + 8 * p]` becomes
/// `alpha * a[r + p * lda]` for each of the `k` reduction steps `p`.
pub fn d_pack_a<T: Scalar>(k: usize, alpha: T, a: &[T], lda: usize, packed_a: &mut [T])
    requires
        8 * k <= old(packed_a)@.len(),
        k == 0 || (k - 1) * lda + 8 <= a@.len(),
    ensures
        final(packed_a)@ == self::packed_a(old(packed_a)@, 8, 8 * k, alpha, a@, 1, lda as int),
{
    pack_a_panel(D_TILE_ROWS, k, alpha, a, 1, lda, packed_a);
}

/// The tile kernel for a tile of sixteen rows and four columns:
/// `c[r + j * ldc]` becomes `c[r + j * ldc] * beta` plus, for each step
/// `p` in turn, `b[4 * p + j] * a[r + 16 * p]`.
pub fn sgemm_16x4_packed<T: Scalar>(k: usize, a: &[T], b: &[T], beta: T, c: &mut [T], ldc: usize)
    requires
        16 * k <= a@.len(),
        4 * k <= b@.len(),
        16 <= ldc,
        3 * ldc + 16 <= old(c)@.len(),
    ensures
        final(c)@ == tile_update(old(c)@, ldc as int, 16, k as int, a@, b@, beta),
{
    packed_tile(S_TILE_ROWS, k, a, b, beta, c, ldc);
}

/// The tile kernel for a tile of eight rows and four columns:
/// `c[r + j * ldc]` becomes `c[r + j * ldc] * beta` plus, for each step
/// `p` in turn, `b[4 * p + j] * a[r + 8 * p]`.
pub fn dgemm_8x4_packed<T: Scalar>(k: usize, a: &[T], b: &[T], beta: T, c: &mut [T], ldc: usize)
    requires
        8 * k <= a@.len(),
        4 * k <= b@.len(),
        8 <= ldc,
        3 * ldc + 8 <= old(c)@.len(),
    ensures
        final(c)@ == tile_update(old(c)@, ldc as int, 8, k as int, a@, b@, beta),
{
    packed_tile(D_TILE_ROWS, k, a, b, beta, c, ldc);
}

/// The pairs whose products a combine adds to row `row` of `y`, one for
/// each of its `cols` columns: column `j` gives `a[row + j * lda]` and
/// `x[j * incx] * alpha`.
pub open spec fn combine_terms<T: Scalar>(
    alpha: T,
    a: Seq<T>,
    lda: int,
    x: Seq<T>,
    incx: int,
    row: int,
    cols: int,
) -> Seq<(T, T)> {
    Seq::new(cols as nat, |j: int| (a[row + j * lda], x[j * incx].product(alpha)))
}

/// What a combine of `cols` columns leaves in `y`: each of the first `m`
/// elements becomes `beta * y[i]` with the products of its row added, one
/// column after the other. The other elements are as in `y`.
pub open spec fn combine_result<T: Scalar>(
    y: Seq<T>,
    m: int,
    cols: int,
    alpha: T,
    a: Seq<T>,
    lda: int,
    x: Seq<T>,
    incx: int,
    beta: T,
) -> Seq<T> {
    Seq::new(
        y.len(),
        |i: int|
            if 0 <= i < m {
                accumulate(beta.product(y[i]), combine_terms(alpha, a, lda, x, incx, i, cols))
            } else {
                y[i]
            },
    )
}

/// The fused update of `y` with `cols` columns of a matrix, four at most,
/// in one sweep: `y := beta * y + alpha * A[:, 0..cols] * x[0..cols]`. The
/// scaled elements of `x` are formed once, before the sweep.
pub fn combine_panel<T: Scalar>(
    m: usize,
    cols: usize,
    alpha: T,
    a: &[T],
    lda: usize,
    x: &[T],
    incx: usize,
    beta: T,
    y: &mut [T],
)
    requires
        1 <= cols <= 4,
        (cols - 1) * incx < x@.len(),
        m <= old(y)@.len(),
        m == 0 || (cols - 1) * lda + m <= a@.len(),
    ensures
        final(y)@ == combine_result(
            old(y)@,
            m as int,
            cols as int,
            alpha,
            a@,
            lda as int,
            x@,
            incx as int,
            beta,
        ),
{
    let a_len: usize = a.len();
    let x_len: usize = x.len();
    let y_len: usize = y.len();
    let mut xregs: [T; 4] = [alpha; 4];
    let mut j: usize = 0;
    while j < cols
        invariant
            j <= cols <= 4,
            x_len == x@.len(),
            (cols - 1) * incx < x_len,
            forall|d: int| 0 <= d < j ==> #[trigger] xregs@[d] == x@[d * incx].product(alpha),
        decreases cols - j,
    {
        proof {
            lemma_product_bound(j as int, cols - 1, incx as int, incx as int);
        }
        xregs[j] = x[j * incx].times(alpha);
        j += 1;
    }
    let mut i: usize = 0;
    while i < m
        invariant
            i <= m,
            cols >= 1,
            a_len == a@.len(),
            y_len == old(y)@.len(),
            m <= y_len,
            m == 0 || (cols - 1) * lda + m <= a_len,
            cols <= 4,
            forall|d: int| 0 <= d < cols ==> #[trigger] xregs@[d] == x@[d * incx].product(alpha),
            y@ =~= combine_result(
                old(y)@,
                i as int,
                cols as int,
                alpha,
                a@,
                lda as int,
                x@,
                incx as int,
                beta,
            ),
        decreases m - i,
    {
        let ghost terms = combine_terms(alpha, a@, lda as int, x@, incx as int, i as int, cols as int);
        let ghost start = beta.product(old(y)@[i as int]);
        let mut acc: T = beta.times(y[i]);
        proof {
            assert(terms.take(0) =~= Seq::<(T, T)>::empty());
        }
        let mut d: usize = 0;
        while d < cols
            invariant
                d <= cols,
                i < m,
                a_len == a@.len(),
                (cols - 1) * lda + m <= a_len,
                cols <= 4,
                forall|e: int| 0 <= e < cols ==> #[trigger] xregs@[e] == x@[e * incx].product(alpha),
                terms == combine_terms(
                    alpha,
                    a@,
                    lda as int,
                    x@,
                    incx as int,
                    i as int,
                    cols as int,
                ),
                acc == accumulate(start, terms.take(d as int)),
            decreases cols - d,
        {
            proof {
                lemma_product_bound(d as int, cols - 1, lda as int, lda as int);
                lemma_accumulate_step(start, terms, d as int);
            }
            acc = acc.add_product(a[i + d * lda], xregs[d]);
            d += 1;
        }
        proof {
            assert(terms.take(cols as int) =~= terms);
        }
        y[i] = acc;
        i += 1;
    }
}

/// Four columns fused: `y[i]` becomes `beta * y[i] + a[i] * (x[0] * alpha)
/// + a[i + lda] * (x[incx] * alpha) + a[i + 2 * lda] * (x[2 * incx] * alpha)
/// + a[i + 3 * lda] * (x[3 * incx] * alpha)`, summed from the left, for
/// each `i < m`.
pub fn scombine_4<T: Scalar>(
    m: usize,
    alpha: T,
    a: &[T],
    lda: usize,
    x: &[T],
    incx: usize,
    beta: T,
    y: &mut [T],
)
    requires
        3 * incx < x@.len(),
        m <= old(y)@.len(),
        m == 0 || 3 * lda + m <= a@.len(),
    ensures
        final(y)@ == combine_result(
            old(y)@,
            m as int,
            4,
            alpha,
            a@,
            lda as int,
            x@,
            incx as int,
            beta,
        ),
{
    combine_panel(m, TILE_COLS, alpha, a, lda, x, incx, beta, y);
}

/// Four columns fused, as `scombine_4`.
pub fn dcombine_4<T: Scalar>(
    m: usize,
    alpha: T,
    a: &[T],
    lda: usize,
    x: &[T],
    incx: usize,
    beta: T,
    y: &mut [T],
)
    requires
        3 * incx < x@.len(),
        m <= old(y)@.len(),
        m == 0 || 3 * lda + m <= a@.len(),
    ensures
        final(y)@ == combine_result(
            old(y)@,
            m as int,
            4,
            alpha,
            a@,
            lda as int,
            x@,
            incx as int,
            beta,
        ),
{
    combine_panel(m, TILE_COLS, alpha, a, lda, x, incx, beta, y);
}

/// One column, for the columns that fill no group of four: `y[i]` becomes
/// `beta * y[i] + a[i] * (x[0] * alpha)` for each `i < m`.
pub fn scombine_1<T: Scalar>(m: usize, alpha: T, a: &[T], x: &[T], beta: T, y: &mut [T])
    requires
        1 <= x@.len(),
        m <= old(y)@.len(),
        m <= a@.len(),
    ensures
        final(y)@ == combine_result(old(y)@, m as int, 1, alpha, a@, 0, x@, 0, beta),
{
    combine_panel(m, 1, alpha, a, 0, x, 0, beta, y);
}

/// One column, as `scombine_1`.
pub fn dcombine_1<T: Scalar>(m: usize, alpha: T, a: &[T], x: &[T], beta: T, y: &mut [T])
    requires
        1 <= x@.len(),
        m <= old(y)@.len(),
        m <= a@.len(),
    ensures
        final(y)@ == combine_result(old(y)@, m as int, 1, alpha, a@, 0, x@, 0, beta),
{
    combine_panel(m, 1, alpha, a, 0, x, 0, beta, y);
}

/// Packing A is a function of the block and the scale factor alone: the
/// packed panel does not depend on what the buffer held before, so packing
/// the same block twice gives the same panel.
pub proof fn lemma_pack_a_is_deterministic<T: Scalar>(
    first: Seq<T>,
    second: Seq<T>,
    height: int,
    k: int,
    alpha: T,
    a: Seq<T>,
    rs: int,
    cs: int,
)
    requires
        0 <= height * k <= first.len(),
        height * k <= second.len(),
    ensures
        packed_a(first, height, height * k, alpha, a, rs, cs).subrange(0, height * k) == packed_a(
            second,
            height,
            height * k,
            alpha,
            a,
            rs,
            cs,
        ).subrange(0, height * k),
        first == second ==> packed_a(first, height, height * k, alpha, a, rs, cs) == packed_a(
            second,
            height,
            height * k,
            alpha,
            a,
            rs,
            cs,
        ),
{
    assert(packed_a(first, height, height * k, alpha, a, rs, cs).subrange(0, height * k)
        =~= packed_a(second, height, height * k, alpha, a, rs, cs).subrange(0, height * k));
}

/// Packing B is a function of the block alone: the packed panel does not
/// depend on what the buffer held before, so packing the same block twice
/// gives the same panel.
pub proof fn lemma_pack_b_is_deterministic<T: Scalar>(
    first: Seq<T>,
    second: Seq<T>,
    k: int,
    b: Seq<T>,
    rs: int,
    cs: int,
)
    requires
        0 <= 4 * k <= first.len(),
        4 * k <= second.len(),
    ensures
        packed_b(first, 4 * k, b, rs, cs).subrange(0, 4 * k) == packed_b(
            second,
            4 * k,
            b,
            rs,
            cs,
        ).subrange(0, 4 * k),
        first == second ==> packed_b(first, 4 * k, b, rs, cs) == packed_b(second, 4 * k, b, rs, cs),
{
    assert(packed_b(first, 4 * k, b, rs, cs).subrange(0, 4 * k) =~= packed_b(
        second,
        4 * k,
        b,
        rs,
        cs,
    ).subrange(0, 4 * k));
}

/// What `y` holds after the first `groups` groups of four columns went
/// through the four-column combine, each on the part of `a` and of `x`
/// that starts at its first column. The first group scales `y` by `beta`,
/// the later ones by one.
pub open spec fn group_sweep<T: Scalar>(
    y: Seq<T>,
    m: int,
    alpha: T,
    a: Seq<T>,
    lda: int,
    x: Seq<T>,
    incx: int,
    beta: T,
    groups: int,
) -> Seq<T>
    decreases groups,
{
    if groups <= 0 {
        y
    } else {
        let first_col = 4 * (groups - 1);
        combine_result(
            group_sweep(y, m, alpha, a, lda, x, incx, beta, groups - 1),
            m,
            4,
            alpha,
            a.skip(first_col * lda),
            lda,
            x.skip(first_col * incx),
            incx,
            if groups == 1 {
                beta
            } else {
                T::one_value()
            },
        )
    }
}

/// What `y` holds after all whole groups of four among `n` columns went
/// through the four-column combine and then the first `singles` of the
/// columns that are left went through the one-column combine. The first
/// combine of all scales `y` by `beta`, the later ones by one.
pub open spec fn column_sweep<T: Scalar>(
    y: Seq<T>,
    m: int,
    n: int,
    alpha: T,
    a: Seq<T>,
    lda: int,
    x: Seq<T>,
    incx: int,
    beta: T,
    singles: int,
) -> Seq<T>
    decreases singles,
{
    if singles <= 0 {
        group_sweep(y, m, alpha, a, lda, x, incx, beta, n / 4)
    } else {
        let col = 4 * (n / 4) + singles - 1;
        combine_result(
            column_sweep(y, m, n, alpha, a, lda, x, incx, beta, singles - 1),
            m,
            1,
            alpha,
            a.skip(col * lda),
            0,
            x.skip(col * incx),
            0,
            if col == 0 {
                beta
            } else {
                T::one_value()
            },
        )
    }
}

/// A combine of `more` columns, scaled by one and run on the columns from
/// `done` on, continues a combine of the first `done` columns: together
/// they are one combine of `done + more` columns. `stride` is the leading
/// dimension and `step` the increment that the second combine is given:
/// `lda` and `incx`, or 0 for both where it takes one column.
pub proof fn lemma_combine_continues<T: Scalar>(
    y: Seq<T>,
    m: int,
    done: int,
    more: int,
    alpha: T,
    a: Seq<T>,
    lda: int,
    stride: int,
    x: Seq<T>,
    incx: int,
    step: int,
    beta: T,
)
    requires
        is_left_identity(T::one_value()),
        1 <= done,
        1 <= more,
        0 <= m <= y.len(),
        matrix_fits(a.len() as int, m, done + more, lda),
        vector_fits(x.len() as int, done + more, incx),
        (stride == lda && step == incx) || (more == 1 && stride == 0 && step == 0),
    ensures
        combine_result(
            combine_result(y, m, done, alpha, a, lda, x, incx, beta),
            m,
            more,
            alpha,
            a.skip(done * lda),
            stride,
            x.skip(done * incx),
            step,
            T::one_value(),
        ) == combine_result(y, m, done + more, alpha, a, lda, x, incx, beta),
{
    let mid = combine_result(y, m, done, alpha, a, lda, x, incx, beta);
    let a_rest = a.skip(done * lda);
    let x_rest = x.skip(done * incx);
    let got = combine_result(mid, m, more, alpha, a_rest, stride, x_rest, step, T::one_value());
    let want = combine_result(y, m, done + more, alpha, a, lda, x, incx, beta);
    lemma_product_bound(done, done + more - 1, incx, incx);
    lemma_product_bound(done, done + more - 1, lda, lda);
    assert forall|i: int| 0 <= i < m implies got[i] == want[i] by {
        let first = combine_terms(alpha, a, lda, x, incx, i, done);
        let second = combine_terms(alpha, a_rest, stride, x_rest, step, i, more);
        let all = combine_terms(alpha, a, lda, x, incx, i, done + more);
        let start = beta.product(y[i]);
        assert(T::one_value().product(mid[i]) == mid[i]);
        lemma_accumulate_concat(start, first, second);
        assert forall|j: int| 0 <= j < done + more implies (first + second)[j] == all[j] by {
            if j >= done {
                let d = j - done;
                lemma_product_bound(j, done + more - 1, incx, incx);
                lemma_product_bound(j, done + more - 1, lda, lda);
                assert(d * stride == d * lda) by (nonlinear_arith)
                    requires
                        stride == lda || d == 0,
                ;
                assert(d * step == d * incx) by (nonlinear_arith)
                    requires
                        step == incx || d == 0,
                ;
                assert(done * lda + d * lda == j * lda) by (nonlinear_arith)
                    requires
                        j == done + d,
                ;
                assert(done * incx + d * incx == j * incx) by (nonlinear_arith)
                    requires
                        j == done + d,
                ;
                assert(a_rest[i + d * stride] == a[i + j * lda]);
                assert(x_rest[d * step] == x[j * incx]);
            }
        }
        assert(first + second =~= all);
    }
    assert(got =~= want);
}

/// The groups of four add up: after `groups` groups the sweep has done
/// what one combine of `4 * groups` columns does.
pub proof fn lemma_group_sweep_is_product<T: Scalar>(
    y: Seq<T>,
    m: int,
    alpha: T,
    a: Seq<T>,
    lda: int,
    x: Seq<T>,
    incx: int,
    beta: T,
    groups: int,
)
    requires
        is_left_identity(T::one_value()),
        1 <= groups,
        0 <= m <= y.len(),
        matrix_fits(a.len() as int, m, 4 * groups, lda),
        vector_fits(x.len() as int, 4 * groups, incx),
    ensures
        group_sweep(y, m, alpha, a, lda, x, incx, beta, groups) == combine_result(
            y,
            m,
            4 * groups,
            alpha,
            a,
            lda,
            x,
            incx,
            beta,
        ),
    decreases groups,
{
    if groups == 1 {
        assert(group_sweep(y, m, alpha, a, lda, x, incx, beta, 0) == y);
        assert((4 * (groups - 1)) * lda == 0) by (nonlinear_arith)
            requires
                groups == 1,
        ;
        assert((4 * (groups - 1)) * incx == 0) by (nonlinear_arith)
            requires
                groups == 1,
        ;
        assert(a.skip(0) =~= a);
        assert(x.skip(0) =~= x);
    } else {
        let done = 4 * (groups - 1);
        lemma_product_bound(done - 1, 4 * groups - 1, lda, lda);
        lemma_product_bound(done - 1, 4 * groups - 1, incx, incx);
        lemma_group_sweep_is_product(y, m, alpha, a, lda, x, incx, beta, groups - 1);
        lemma_combine_continues(y, m, done, 4, alpha, a, lda, lda, x, incx, incx, beta);
    }
}

/// The singles add up on top of the groups: after all whole groups of
/// `n` columns and `singles` further columns the sweep has done what one
/// combine of that many columns does.
pub proof fn lemma_column_sweep_is_product<T: Scalar>(
    y: Seq<T>,
    m: int,
    n: int,
    alpha: T,
    a: Seq<T>,
    lda: int,
    x: Seq<T>,
    incx: int,
    beta: T,
    singles: int,
)
    requires
        is_left_identity(T::one_value()),
        1 <= n,
        0 <= singles <= n % 4,
        1 <= 4 * (n / 4) + singles,
        0 <= m <= y.len(),
        matrix_fits(a.len() as int, m, n, lda),
        vector_fits(x.len() as int, n, incx),
    ensures
        column_sweep(y, m, n, alpha, a, lda, x, incx, beta, singles) == combine_result(
            y,
            m,
            4 * (n / 4) + singles,
            alpha,
            a,
            lda,
            x,
            incx,
            beta,
        ),
    decreases singles,
{
    let full = 4 * (n / 4);
    lemma_product_bound(full + singles - 1, n - 1, lda, lda);
    lemma_product_bound(full + singles - 1, n - 1, incx, incx);
    if singles == 0 {
        lemma_group_sweep_is_product(y, m, alpha, a, lda, x, incx, beta, n / 4);
    } else {
        let col = full + singles - 1;
        if col == 0 {
            assert(column_sweep(y, m, n, alpha, a, lda, x, incx, beta, 0) == y);
            assert(a.skip(0) =~= a);
            assert(x.skip(0) =~= x);
            let got = combine_result(y, m, 1, alpha, a, 0, x, 0, beta);
            let want = combine_result(y, m, 1, alpha, a, lda, x, incx, beta);
            assert forall|i: int| 0 <= i < m implies got[i] == want[i] by {
                assert(combine_terms(alpha, a, 0, x, 0, i, 1) =~= combine_terms(
                    alpha,
                    a,
                    lda,
                    x,
                    incx,
                    i,
                    1,
                ));
            }
            assert(got =~= want);
        } else {
            lemma_product_bound(col - 1, n - 1, lda, lda);
            lemma_product_bound(col - 1, n - 1, incx, incx);
            lemma_column_sweep_is_product(y, m, n, alpha, a, lda, x, incx, beta, singles - 1);
            lemma_combine_continues(y, m, col, 1, alpha, a, lda, 0, x, incx, 0, beta);
        }
    }
}

/// The two combines together give the matrix-vector product. For a
/// matrix of `m` rows and `n >= 1` columns, where multiplying by one
/// changes nothing: the four-column combine on each whole group of four
/// columns, then the one-column combine on each column that is left, the
/// first combine of all with `beta` and the later ones with one, leave in
/// `y` the product `beta * y + alpha * A * x`, each row summed over the
/// columns in order. This holds whether or not `n` is a multiple of four.
pub proof fn lemma_combines_give_matrix_vector_product<T: Scalar>(
    y: Seq<T>,
    m: int,
    n: int,
    alpha: T,
    a: Seq<T>,
    lda: int,
    x: Seq<T>,
    incx: int,
    beta: T,
)
    requires
        is_left_identity(T::one_value()),
        1 <= n,
        0 <= m <= y.len(),
        matrix_fits(a.len() as int, m, n, lda),
        vector_fits(x.len() as int, n, incx),
    ensures
        column_sweep(y, m, n, alpha, a, lda, x, incx, beta, n % 4) == combine_result(
            y,
            m,
            n,
            alpha,
            a,
            lda,
            x,
            incx,
            beta,
        ),
{
    lemma_column_sweep_is_product(y, m, n, alpha, a, lda, x, incx, beta, n % 4);
}

/// In the integers modulo 2^64 the two combines together give the
/// matrix-vector product for every matrix of at least one column.
pub proof fn lemma_integer_combines_give_matrix_vector_product(
    y: Seq<i64>,
    m: int,
    n: int,
    alpha: i64,
    a: Seq<i64>,
    lda: int,
    x: Seq<i64>,
    incx: int,
    beta: i64,
)
    requires
        1 <= n,
        0 <= m <= y.len(),
        matrix_fits(a.len() as int, m, n, lda),
        vector_fits(x.len() as int, n, incx),
    ensures
        column_sweep(y, m, n, alpha, a, lda, x, incx, beta, n % 4) == combine_result(
            y,
            m,
            n,
            alpha,
            a,
            lda,
            x,
            incx,
            beta,
        ),
{
    lemma_i64_one_is_identity();
    lemma_combines_give_matrix_vector_product(y, m, n, alpha, a, lda, x, incx, beta);
}

} // verus!
