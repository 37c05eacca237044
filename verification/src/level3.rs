use vstd::prelude::*;
use vstd::slice::slice_subrange;
use crate::generic::kernel::{block_update, pack_a_panel, pack_b_panel, packed_a, packed_b, sgemm_16x4_packed, tile_terms, tile_update};
use crate::layout::{accumulate, col_of, in_block, lemma_accumulate_concat, matrix_fits, lemma_accumulate_step, lemma_cell, lemma_cell_of_position, lemma_operand_cell, lemma_product_bound, lemma_shifted_cell, lemma_tile_position, row_of};
use crate::scalar::{is_right_identity, lemma_i64_one_is_identity, Scalar};

verus! {

/// Rows of C that one pass of the driver works on.
pub const MC: usize = 256;

/// Reduction steps that one pass of the driver works on.
pub const KC: usize = 128;

/// How far apart two rows of `op(X)` lie in the buffer of `X`.
pub open spec fn row_stride(trans: bool, ld: int) -> int {
    if trans {
        ld
    } else {
        1
    }
}

/// How far apart two columns of `op(X)` lie in the buffer of `X`.
pub open spec fn col_stride(trans: bool, ld: int) -> int {
    if trans {
        1
    } else {
        ld
    }
}

/// The element of `op(X)` in row `row` and column `col`, from the buffer of `X`.
pub open spec fn operand_cell<T: Scalar>(x: Seq<T>, trans: bool, ld: int, row: int, col: int) -> T {
    x[row * row_stride(trans, ld) + col * col_stride(trans, ld)]
}

/// Whether every cell of an operand of `rows` by `cols` elements, read with
/// the strides `rs` and `cs`, lies inside a buffer of `len` elements.
pub open spec fn operand_fits(len: int, rows: int, cols: int, rs: int, cs: int) -> bool {
    rows <= 0 || cols <= 0 || (rows - 1) * rs + (cols - 1) * cs < len
}

/// The pairs whose products the cell in row `row` and column `col` of C
/// takes for the reduction steps `lo..hi`, in that order: at step `p`
/// they are `op(B)(p, col)` and `alpha * op(A)(row, p)`.
pub open spec fn product_terms<T: Scalar>(
    alpha: T,
    a: Seq<T>,
    a_rs: int,
    a_cs: int,
    b: Seq<T>,
    b_rs: int,
    b_cs: int,
    row: int,
    col: int,
    lo: int,
    hi: int,
) -> Seq<(T, T)> {
    Seq::new(
        (hi - lo) as nat,
        |q: int| (b[(lo + q) * b_rs + col * b_cs], alpha.product(a[row * a_rs + (lo + q) * a_cs])),
    )
}

/// What `gemm_unpacked` leaves in `c`: every cell of rows `r_lo..r_hi` and
/// columns `c_lo..c_hi` is scaled by `beta` and then takes its products for
/// the reduction steps `p_lo..p_hi`.
pub open spec fn unpacked_update<T: Scalar>(
    c: Seq<T>,
    ldc: int,
    r_lo: int,
    r_hi: int,
    c_lo: int,
    c_hi: int,
    p_lo: int,
    p_hi: int,
    alpha: T,
    a: Seq<T>,
    a_rs: int,
    a_cs: int,
    b: Seq<T>,
    b_rs: int,
    b_cs: int,
    beta: T,
) -> Seq<T> {
    block_update(
        c,
        ldc,
        r_lo,
        r_hi,
        c_lo,
        c_hi,
        beta,
        |row: int, col: int| product_terms(alpha, a, a_rs, a_cs, b, b_rs, b_cs, row, col, p_lo, p_hi),
    )
}

/// The multiply for a block of any shape, cell by cell and straight from
/// the operands: the driver's path for the rows and columns that fill no
/// whole register tile. Every cell of rows `r_lo..r_hi` and columns
/// `c_lo..c_hi` of C is scaled by `beta` and then takes, for each
/// reduction step `p` of `p_lo..p_hi` in turn, the product
/// `b[p * b_rs + col * b_cs] * (alpha * a[row * a_rs + p * a_cs])`.
pub fn gemm_unpacked<T: Scalar>(
    r_lo: usize,
    r_hi: usize,
    c_lo: usize,
    c_hi: usize,
    p_lo: usize,
    p_hi: usize,
    alpha: T,
    a: &[T],
    a_rs: usize,
    a_cs: usize,
    b: &[T],
    b_rs: usize,
    b_cs: usize,
    beta: T,
    c: &mut [T],
    ldc: usize,
)
    requires
        r_lo <= r_hi <= ldc,
        c_lo <= c_hi,
        p_lo <= p_hi,
        (r_lo < r_hi && c_lo < c_hi) ==> (c_hi - 1) * ldc + r_hi <= old(c)@.len(),
        (r_lo < r_hi && c_lo < c_hi && p_lo < p_hi) ==> operand_fits(
            a@.len() as int,
            r_hi as int,
            p_hi as int,
            a_rs as int,
            a_cs as int,
        ) && operand_fits(b@.len() as int, p_hi as int, c_hi as int, b_rs as int, b_cs as int),
    ensures
        final(c)@ == unpacked_update(
            old(c)@,
            ldc as int,
            r_lo as int,
            r_hi as int,
            c_lo as int,
            c_hi as int,
            p_lo as int,
            p_hi as int,
            alpha,
            a@,
            a_rs as int,
            a_cs as int,
            b@,
            b_rs as int,
            b_cs as int,
            beta,
        ),
{
    let a_len: usize = a.len();
    let b_len: usize = b.len();
    let c_len: usize = c.len();
    if r_lo >= r_hi {
        assert(c@ =~= unpacked_update(
            old(c)@,
            ldc as int,
            r_lo as int,
            r_hi as int,
            c_lo as int,
            c_hi as int,
            p_lo as int,
            p_hi as int,
            alpha,
            a@,
            a_rs as int,
            a_cs as int,
            b@,
            b_rs as int,
            b_cs as int,
            beta,
        ));
        return ;
    }
    let mut j: usize = c_lo;
    while j < c_hi
        invariant
            c_lo <= j <= c_hi,
            r_lo < r_hi <= ldc,
            p_lo <= p_hi,
            a_len == a@.len(),
            b_len == b@.len(),
            c_len == old(c)@.len(),
            c_lo < c_hi ==> (c_hi - 1) * ldc + r_hi <= c_len,
            (c_lo < c_hi && p_lo < p_hi) ==> operand_fits(
                a_len as int,
                r_hi as int,
                p_hi as int,
                a_rs as int,
                a_cs as int,
            ) && operand_fits(b_len as int, p_hi as int, c_hi as int, b_rs as int, b_cs as int),
            c@ =~= unpacked_update(
                old(c)@,
                ldc as int,
                r_lo as int,
                r_hi as int,
                c_lo as int,
                j as int,
                p_lo as int,
                p_hi as int,
                alpha,
                a@,
                a_rs as int,
                a_cs as int,
                b@,
                b_rs as int,
                b_cs as int,
                beta,
            ),
        decreases c_hi - j,
    {
        let ghost column_start = c@;
        let mut i: usize = r_lo;
        while i < r_hi
            invariant
                c_lo <= j < c_hi,
                r_lo <= i <= r_hi,
                r_lo < r_hi <= ldc,
                p_lo <= p_hi,
                a_len == a@.len(),
                b_len == b@.len(),
                c_len == old(c)@.len(),
                c_len == column_start.len(),
                (c_hi - 1) * ldc + r_hi <= c_len,
                p_lo < p_hi ==> operand_fits(
                    a_len as int,
                    r_hi as int,
                    p_hi as int,
                    a_rs as int,
                    a_cs as int,
                ) && operand_fits(b_len as int, p_hi as int, c_hi as int, b_rs as int, b_cs as int),
                column_start =~= unpacked_update(
                    old(c)@,
                    ldc as int,
                    r_lo as int,
                    r_hi as int,
                    c_lo as int,
                    j as int,
                    p_lo as int,
                    p_hi as int,
                    alpha,
                    a@,
                    a_rs as int,
                    a_cs as int,
                    b@,
                    b_rs as int,
                    b_cs as int,
                    beta,
                ),
                c@ =~= unpacked_update(
                    column_start,
                    ldc as int,
                    r_lo as int,
                    i as int,
                    j as int,
                    j + 1,
                    p_lo as int,
                    p_hi as int,
                    alpha,
                    a@,
                    a_rs as int,
                    a_cs as int,
                    b@,
                    b_rs as int,
                    b_cs as int,
                    beta,
                ),
            decreases r_hi - i,
        {
            proof {
                lemma_cell(i as int, j as int, ldc as int);
                lemma_product_bound(j as int, c_hi - 1, ldc as int, ldc as int);
            }
            let t: usize = i + j * ldc;
            let ghost terms = product_terms(
                alpha,
                a@,
                a_rs as int,
                a_cs as int,
                b@,
                b_rs as int,
                b_cs as int,
                i as int,
                j as int,
                p_lo as int,
                p_hi as int,
            );
            let ghost start = old(c)@[t as int].product(beta);
            let ghost before = c@;
            let mut acc: T = c[t].times(beta);
            proof {
                assert(terms.take(0) =~= Seq::<(T, T)>::empty());
            }
            let mut p: usize = p_lo;
            while p < p_hi
                invariant
                    p_lo <= p <= p_hi,
                    i < r_hi,
                    j < c_hi,
                    a_len == a@.len(),
                    b_len == b@.len(),
                    p_lo < p_hi ==> operand_fits(
                        a_len as int,
                        r_hi as int,
                        p_hi as int,
                        a_rs as int,
                        a_cs as int,
                    ) && operand_fits(
                        b_len as int,
                        p_hi as int,
                        c_hi as int,
                        b_rs as int,
                        b_cs as int,
                    ),
                    terms == product_terms(
                        alpha,
                        a@,
                        a_rs as int,
                        a_cs as int,
                        b@,
                        b_rs as int,
                        b_cs as int,
                        i as int,
                        j as int,
                        p_lo as int,
                        p_hi as int,
                    ),
                    acc == accumulate(start, terms.take(p - p_lo)),
                decreases p_hi - p,
            {
                proof {
                    lemma_operand_cell(
                        i as int,
                        r_hi as int,
                        p as int,
                        p_hi as int,
                        a_rs as int,
                        a_cs as int,
                    );
                    lemma_operand_cell(
                        p as int,
                        p_hi as int,
                        j as int,
                        c_hi as int,
                        b_rs as int,
                        b_cs as int,
                    );
                    lemma_accumulate_step(start, terms, p - p_lo);
                }
                let areg: T = alpha.times(a[i * a_rs + p * a_cs]);
                let breg: T = b[p * b_rs + j * b_cs];
                acc = acc.add_product(breg, areg);
                p += 1;
            }
            proof {
                assert(terms.take(p_hi - p_lo) =~= terms);
            }
            c[t] = acc;
            proof {
                let next = unpacked_update(
                    column_start,
                    ldc as int,
                    r_lo as int,
                    i + 1,
                    j as int,
                    j + 1,
                    p_lo as int,
                    p_hi as int,
                    alpha,
                    a@,
                    a_rs as int,
                    a_cs as int,
                    b@,
                    b_rs as int,
                    b_cs as int,
                    beta,
                );
                assert forall|x: int| 0 <= x < c_len implies c@[x] == next[x] by {
                    lemma_cell_of_position(x, ldc as int);
                    if x != t {
                        assert(c@[x] == before[x]);
                    }
                }
                assert(c@ =~= next);
            }
            i += 1;
        }
        proof {
            let next = unpacked_update(
                old(c)@,
                ldc as int,
                r_lo as int,
                r_hi as int,
                c_lo as int,
                j + 1,
                p_lo as int,
                p_hi as int,
                alpha,
                a@,
                a_rs as int,
                a_cs as int,
                b@,
                b_rs as int,
                b_cs as int,
                beta,
            );
            assert forall|x: int| 0 <= x < c_len implies c@[x] == next[x] by {
                lemma_cell_of_position(x, ldc as int);
            }
            assert(c@ =~= next);
        }
        j += 1;
    }
}

/// A packed panel of A: `height` rows from row `i` on, the reduction steps
/// `k0..k0 + kb`, each element scaled by `alpha`. Row `r` at step `k0 + q`
/// stands at position `r + height * q`.
pub open spec fn a_panel<T: Scalar>(
    alpha: T,
    a: Seq<T>,
    a_rs: int,
    a_cs: int,
    i: int,
    k0: int,
    kb: int,
    height: int,
) -> Seq<T> {
    Seq::new(
        (height * kb) as nat,
        |x: int| alpha.product(a[(i + x % height) * a_rs + (k0 + x / height) * a_cs]),
    )
}

/// A packed panel of B: the reduction steps `k0..k0 + kb`, four columns
/// from column `j` on. Step `k0 + q` in column `j + d` stands at position
/// `4 * q + d`.
pub open spec fn b_panel<T: Scalar>(b: Seq<T>, b_rs: int, b_cs: int, k0: int, kb: int, j: int) -> Seq<T> {
    Seq::new((4 * kb) as nat, |x: int| b[(k0 + x / 4) * b_rs + (j + x % 4) * b_cs])
}

/// Whether the scratch buffer for A holds, as its `r`-th panel, the
/// sixteen rows from row `i0 + 16 * r` on.
pub open spec fn a_panel_ready<T: Scalar>(
    packed: Seq<T>,
    r: int,
    alpha: T,
    a: Seq<T>,
    a_rs: int,
    a_cs: int,
    i0: int,
    k0: int,
    kb: int,
) -> bool {
    &&& (16 * r) * kb + 16 * kb <= packed.len()
    &&& packed.subrange((16 * r) * kb, (16 * r) * kb + 16 * kb) == a_panel(
        alpha,
        a,
        a_rs,
        a_cs,
        i0 + 16 * r,
        k0,
        kb,
        16,
    )
}

/// Whether the scratch buffer for B holds, as its `s`-th panel, the four
/// columns from column `4 * s` on.
pub open spec fn b_panel_ready<T: Scalar>(
    packed: Seq<T>,
    s: int,
    b: Seq<T>,
    b_rs: int,
    b_cs: int,
    k0: int,
    kb: int,
) -> bool {
    &&& (4 * s) * kb + 4 * kb <= packed.len()
    &&& packed.subrange((4 * s) * kb, (4 * s) * kb + 4 * kb) == b_panel(
        b,
        b_rs,
        b_cs,
        k0,
        kb,
        4 * s,
    )
}

/// The tile kernel on two packed panels does to its tile what the
/// multiply asks for those sixteen rows and four columns.
proof fn lemma_tile_is_block<T: Scalar>(
    mid: Seq<T>,
    after: Seq<T>,
    off: int,
    row0: int,
    j: int,
    ldc: int,
    k0: int,
    kb: int,
    a_pan: Seq<T>,
    b_pan: Seq<T>,
    alpha: T,
    a: Seq<T>,
    a_rs: int,
    a_cs: int,
    b: Seq<T>,
    b_rs: int,
    b_cs: int,
    beta: T,
)
    requires
        0 <= row0,
        row0 + 16 <= ldc,
        0 <= j,
        0 <= kb,
        off == row0 + j * ldc,
        off <= mid.len(),
        after == mid.subrange(0, off) + tile_update(
            mid.subrange(off, mid.len() as int),
            ldc,
            16,
            kb,
            a_pan,
            b_pan,
            beta,
        ),
        a_pan == a_panel(alpha, a, a_rs, a_cs, row0, k0, kb, 16),
        b_pan == b_panel(b, b_rs, b_cs, k0, kb, j),
    ensures
        after == unpacked_update(
            mid,
            ldc,
            row0,
            row0 + 16,
            j,
            j + 4,
            k0,
            k0 + kb,
            alpha,
            a,
            a_rs,
            a_cs,
            b,
            b_rs,
            b_cs,
            beta,
        ),
{
    let target = unpacked_update(
        mid,
        ldc,
        row0,
        row0 + 16,
        j,
        j + 4,
        k0,
        k0 + kb,
        alpha,
        a,
        a_rs,
        a_cs,
        b,
        b_rs,
        b_cs,
        beta,
    );
    let rest = mid.subrange(off, mid.len() as int);
    assert(after.len() == mid.len());
    assert forall|t: int| 0 <= t < mid.len() implies after[t] == target[t] by {
        lemma_tile_position(t, off, row0, j, ldc, 16, 4);
        if in_block(t, ldc, row0, row0 + 16, j, j + 4) {
            let row = row_of(t, ldc);
            let col = col_of(t, ldc);
            let r = row - row0;
            let d = col - j;
            assert(rest[t - off] == mid[t]);
            let packed_terms = tile_terms(a_pan, b_pan, 16, kb, r, d);
            let terms = product_terms(alpha, a, a_rs, a_cs, b, b_rs, b_cs, row, col, k0, k0 + kb);
            assert forall|q: int| 0 <= q < kb implies packed_terms[q] == terms[q] by {
                assert(16 * q + r < 16 * kb);
                assert((r + 16 * q) % 16 == r);
                assert((r + 16 * q) / 16 == q);
                assert((4 * q + d) % 4 == d);
                assert((4 * q + d) / 4 == q);
            }
            assert(packed_terms =~= terms);
        }
    }
    assert(after =~= target);
}

/// What filling one panel of a scratch buffer leaves of the panels before it.
proof fn lemma_panel_kept<T: Scalar>(
    before: Seq<T>,
    after: Seq<T>,
    off: int,
    lo: int,
    hi: int,
)
    requires
        0 <= lo <= hi <= off <= before.len(),
        after.len() == before.len(),
        after.subrange(0, off) == before.subrange(0, off),
    ensures
        after.subrange(lo, hi) == before.subrange(lo, hi),
{
    assert forall|x: int| 0 <= x < hi - lo implies after.subrange(lo, hi)[x] == before.subrange(
        lo,
        hi,
    )[x] by {
        let y = lo + x;
        assert(after.subrange(0, off)[y] == after[y]);
        assert(before.subrange(0, off)[y] == before[y]);
        assert(after.subrange(lo, hi)[x] == after[y]);
        assert(before.subrange(lo, hi)[x] == before[y]);
    }
    assert(after.subrange(lo, hi) =~= before.subrange(lo, hi));
}

/// A panel of A packed from the buffer that starts at the panel's first
/// cell is the panel of the whole operand.
proof fn lemma_packed_a_is_panel<T: Scalar>(
    tail_before: Seq<T>,
    alpha: T,
    a: Seq<T>,
    a_rs: int,
    a_cs: int,
    i: int,
    k0: int,
    kb: int,
    src_off: int,
)
    requires
        0 <= kb,
        0 <= i,
        0 <= k0,
        0 <= a_rs,
        0 <= a_cs,
        16 * kb <= tail_before.len(),
        src_off == i * a_rs + k0 * a_cs,
        kb > 0 ==> (i + 15) * a_rs + (k0 + kb - 1) * a_cs < a.len(),
    ensures
        packed_a(
            tail_before,
            16,
            16 * kb,
            alpha,
            a.subrange(src_off, a.len() as int),
            a_rs,
            a_cs,
        ).subrange(0, 16 * kb) == a_panel(alpha, a, a_rs, a_cs, i, k0, kb, 16),
{
    let src = a.subrange(src_off, a.len() as int);
    let got = packed_a(tail_before, 16, 16 * kb, alpha, src, a_rs, a_cs).subrange(0, 16 * kb);
    let want = a_panel(alpha, a, a_rs, a_cs, i, k0, kb, 16);
    assert forall|x: int| 0 <= x < 16 * kb implies got[x] == want[x] by {
        let r = x % 16;
        let q = x / 16;
        lemma_shifted_cell(i, r, k0, q, a_rs, a_cs);
        lemma_operand_cell(i + r, i + 16, k0 + q, k0 + kb, a_rs, a_cs);
        lemma_operand_cell(r, 16, q, kb, a_rs, a_cs);
        lemma_operand_cell(i, i + 1, k0, k0 + 1, a_rs, a_cs);
    }
    assert(got =~= want);
}

/// A panel of B packed from the buffer that starts at the panel's first
/// cell is the panel of the whole operand.
proof fn lemma_packed_b_is_panel<T: Scalar>(
    tail_before: Seq<T>,
    b: Seq<T>,
    b_rs: int,
    b_cs: int,
    k0: int,
    kb: int,
    j: int,
    src_off: int,
)
    requires
        0 <= kb,
        0 <= j,
        0 <= k0,
        0 <= b_rs,
        0 <= b_cs,
        4 * kb <= tail_before.len(),
        src_off == k0 * b_rs + j * b_cs,
        kb > 0 ==> (k0 + kb - 1) * b_rs + (j + 3) * b_cs < b.len(),
    ensures
        packed_b(tail_before, 4 * kb, b.subrange(src_off, b.len() as int), b_rs, b_cs).subrange(
            0,
            4 * kb,
        ) == b_panel(b, b_rs, b_cs, k0, kb, j),
{
    let src = b.subrange(src_off, b.len() as int);
    let got = packed_b(tail_before, 4 * kb, src, b_rs, b_cs).subrange(0, 4 * kb);
    let want = b_panel(b, b_rs, b_cs, k0, kb, j);
    assert forall|x: int| 0 <= x < 4 * kb implies got[x] == want[x] by {
        let d = x % 4;
        let q = x / 4;
        lemma_shifted_cell(k0, q, j, d, b_rs, b_cs);
        lemma_operand_cell(k0 + q, k0 + kb, j + d, j + 4, b_rs, b_cs);
        lemma_operand_cell(q, kb, d, 4, b_rs, b_cs);
        lemma_operand_cell(k0, k0 + 1, j, j + 1, b_rs, b_cs);
    }
    assert(got =~= want);
}

/// One column panel of a pass: the cells of rows `i0..i0 + ib` and
/// columns `j..j + 4` of C take their products for the reduction steps
/// `k0..k0 + kb`. Whole tiles of sixteen rows go through the tile kernel,
/// on the packed panel of B and on the panels of A in the scratch buffer,
/// which are packed here when `pack_now` is set; the rows that are left go
/// straight from the operands.
fn column_panel<T: Scalar>(
    i0: usize,
    ib: usize,
    j: usize,
    k0: usize,
    kb: usize,
    alpha: T,
    a: &[T],
    a_rs: usize,
    a_cs: usize,
    b: &[T],
    b_rs: usize,
    b_cs: usize,
    beta: T,
    c: &mut [T],
    ldc: usize,
    scratch_a: &mut [T],
    panel_b: &[T],
    pack_now: bool,
)
    requires
        kb >= 1,
        ib >= 1,
        k0 + kb <= usize::MAX,
        j + 4 <= usize::MAX,
        i0 + ib <= ldc,
        (j + 3) * ldc + i0 + ib <= old(c)@.len(),
        (16 * (ib / 16)) * kb <= old(scratch_a)@.len(),
        operand_fits(a@.len() as int, i0 + ib, k0 + kb, a_rs as int, a_cs as int),
        operand_fits(b@.len() as int, k0 + kb, j + 4, b_rs as int, b_cs as int),
        panel_b@ == b_panel(b@, b_rs as int, b_cs as int, k0 as int, kb as int, j as int),
        !pack_now ==> forall|r: int|
            0 <= r < ib / 16 ==> #[trigger] a_panel_ready(
                old(scratch_a)@,
                r,
                alpha,
                a@,
                a_rs as int,
                a_cs as int,
                i0 as int,
                k0 as int,
                kb as int,
            ),
    ensures
        final(c)@ == unpacked_update(
            old(c)@,
            ldc as int,
            i0 as int,
            i0 + ib,
            j as int,
            j + 4,
            k0 as int,
            k0 + kb,
            alpha,
            a@,
            a_rs as int,
            a_cs as int,
            b@,
            b_rs as int,
            b_cs as int,
            beta,
        ),
        final(scratch_a)@.len() == old(scratch_a)@.len(),
        forall|r: int|
            0 <= r < ib / 16 ==> #[trigger] a_panel_ready(
                final(scratch_a)@,
                r,
                alpha,
                a@,
                a_rs as int,
                a_cs as int,
                i0 as int,
                k0 as int,
                kb as int,
            ),
{
    let panels: usize = ib / 16;
    let a_len: usize = a.len();
    let c_len: usize = c.len();
    let scratch_len: usize = scratch_a.len();
    let mut r: usize = 0;
    while r < panels
        invariant
            r <= panels,
            panels == ib / 16,
            kb >= 1,
            ib >= 1,
            k0 + kb <= usize::MAX,
            j + 4 <= usize::MAX,
            i0 + ib <= ldc,
            a_len == a@.len(),
            c_len == old(c)@.len(),
            scratch_len == old(scratch_a)@.len(),
            scratch_len == scratch_a@.len(),
            (j + 3) * ldc + i0 + ib <= c_len,
            (16 * panels) * kb <= scratch_len,
            operand_fits(a_len as int, i0 + ib, k0 + kb, a_rs as int, a_cs as int),
            panel_b@ == b_panel(b@, b_rs as int, b_cs as int, k0 as int, kb as int, j as int),
            c@ =~= unpacked_update(
                old(c)@,
                ldc as int,
                i0 as int,
                i0 + 16 * r,
                j as int,
                j + 4,
                k0 as int,
                k0 + kb,
                alpha,
                a@,
                a_rs as int,
                a_cs as int,
                b@,
                b_rs as int,
                b_cs as int,
                beta,
            ),
            forall|s: int|
                0 <= s < (if pack_now {
                    r
                } else {
                    panels
                }) ==> #[trigger] a_panel_ready(
                    scratch_a@,
                    s,
                    alpha,
                    a@,
                    a_rs as int,
                    a_cs as int,
                    i0 as int,
                    k0 as int,
                    kb as int,
                ),
        decreases panels - r,
    {
        proof {
            assert((16 * r) * kb + 16 * kb <= (16 * panels) * kb) by (nonlinear_arith)
                requires
                    0 <= r < panels,
                    kb >= 0,
            ;
            assert((16 * r) * kb >= 0) by (nonlinear_arith)
                requires
                    r >= 0,
                    kb >= 0,
            ;
            lemma_operand_cell(
                i0 + 16 * r + 15,
                i0 + ib,
                k0 + kb - 1,
                k0 + kb,
                a_rs as int,
                a_cs as int,
            );
            lemma_operand_cell(i0 + 16 * r, i0 + ib, k0 as int, k0 + kb, a_rs as int, a_cs as int);
            lemma_shifted_cell(i0 + 16 * r, 15, k0 as int, kb - 1, a_rs as int, a_cs as int);
            lemma_product_bound(j as int, j as int, ldc as int, ldc as int);
            assert((j + 3) * ldc == j * ldc + 3 * ldc) by (nonlinear_arith);
        }
        let row0: usize = i0 + 16 * r;
        let off_a: usize = 16 * r * kb;
        if pack_now {
            let ghost before = scratch_a@;
            let src_off: usize = row0 * a_rs + k0 * a_cs;
            let src: &[T] = slice_subrange(a, src_off, a_len);
            let (_head, tail) = scratch_a.split_at_mut(off_a);
            let ghost tail_before = tail@;
            pack_a_panel(16, kb, alpha, src, a_rs, a_cs, tail);
            proof {
                lemma_packed_a_is_panel(
                    tail_before,
                    alpha,
                    a@,
                    a_rs as int,
                    a_cs as int,
                    row0 as int,
                    k0 as int,
                    kb as int,
                    src_off as int,
                );
                let now = scratch_a@;
                assert(now.len() == before.len());
                assert(now.subrange(0, off_a as int) =~= before.subrange(0, off_a as int));
                assert(now.subrange(off_a as int, off_a + 16 * kb) =~= tail@.subrange(0, 16 * kb));
                assert forall|s: int| 0 <= s < r + 1 implies #[trigger] a_panel_ready(
                    now,
                    s,
                    alpha,
                    a@,
                    a_rs as int,
                    a_cs as int,
                    i0 as int,
                    k0 as int,
                    kb as int,
                ) by {
                    if s < r {
                        assert(a_panel_ready(
                            before,
                            s,
                            alpha,
                            a@,
                            a_rs as int,
                            a_cs as int,
                            i0 as int,
                            k0 as int,
                            kb as int,
                        ));
                        assert((16 * s) * kb + 16 * kb <= (16 * r) * kb) by (nonlinear_arith)
                            requires
                                0 <= s < r,
                                kb >= 0,
                        ;
                        assert((16 * s) * kb >= 0) by (nonlinear_arith)
                            requires
                                s >= 0,
                                kb >= 0,
                        ;
                        lemma_panel_kept(
                            before,
                            now,
                            off_a as int,
                            (16 * s) * kb,
                            (16 * s) * kb + 16 * kb,
                        );
                    }
                }
            }
        }
        proof {
            assert(a_panel_ready(
                scratch_a@,
                r as int,
                alpha,
                a@,
                a_rs as int,
                a_cs as int,
                i0 as int,
                k0 as int,
                kb as int,
            ));
        }
        let a_pan: &[T] = slice_subrange(scratch_a, off_a, off_a + 16 * kb);
        let off_c: usize = row0 + j * ldc;
        let ghost mid = c@;
        let (_c_head, c_tail) = c.split_at_mut(off_c);
        sgemm_16x4_packed(kb, a_pan, panel_b, beta, c_tail, ldc);
        proof {
            lemma_tile_is_block(
                mid,
                c@,
                off_c as int,
                row0 as int,
                j as int,
                ldc as int,
                k0 as int,
                kb as int,
                a_pan@,
                panel_b@,
                alpha,
                a@,
                a_rs as int,
                a_cs as int,
                b@,
                b_rs as int,
                b_cs as int,
                beta,
            );
            let next = unpacked_update(
                old(c)@,
                ldc as int,
                i0 as int,
                i0 + 16 * (r + 1),
                j as int,
                j + 4,
                k0 as int,
                k0 + kb,
                alpha,
                a@,
                a_rs as int,
                a_cs as int,
                b@,
                b_rs as int,
                b_cs as int,
                beta,
            );
            assert forall|x: int| 0 <= x < c_len implies c@[x] == next[x] by {
                lemma_cell_of_position(x, ldc as int);
            }
            assert(c@ =~= next);
        }
        r += 1;
    }
    let ghost mid = c@;
    gemm_unpacked(
        i0 + 16 * panels,
        i0 + ib,
        j,
        j + 4,
        k0,
        k0 + kb,
        alpha,
        a,
        a_rs,
        a_cs,
        b,
        b_rs,
        b_cs,
        beta,
        c,
        ldc,
    );
    proof {
        let next = unpacked_update(
            old(c)@,
            ldc as int,
            i0 as int,
            i0 + ib,
            j as int,
            j + 4,
            k0 as int,
            k0 + kb,
            alpha,
            a@,
            a_rs as int,
            a_cs as int,
            b@,
            b_rs as int,
            b_cs as int,
            beta,
        );
        assert forall|x: int| 0 <= x < c_len implies c@[x] == next[x] by {
            lemma_cell_of_position(x, ldc as int);
        }
        assert(c@ =~= next);
    }
}

/// One pass of the driver: the cells of rows `i0..i0 + ib` and all `n`
/// columns of C take their products for the reduction steps
/// `k0..k0 + kb`. The columns go in panels of four through `column_panel`;
/// the columns that are left go straight from the operands. The panels of
/// B are packed here when `first_time` is set and are found packed
/// otherwise; the panels of A are packed with the first column panel.
fn inner_kernel<T: Scalar>(
    i0: usize,
    ib: usize,
    n: usize,
    k0: usize,
    kb: usize,
    alpha: T,
    a: &[T],
    a_rs: usize,
    a_cs: usize,
    b: &[T],
    b_rs: usize,
    b_cs: usize,
    beta: T,
    c: &mut [T],
    ldc: usize,
    scratch_a: &mut [T],
    scratch_b: &mut [T],
    first_time: bool,
)
    requires
        kb >= 1,
        ib >= 1,
        n >= 1,
        k0 + kb <= usize::MAX,
        i0 + ib <= ldc,
        (n - 1) * ldc + i0 + ib <= old(c)@.len(),
        (16 * (ib / 16)) * kb <= old(scratch_a)@.len(),
        (4 * (n / 4)) * kb <= old(scratch_b)@.len(),
        operand_fits(a@.len() as int, i0 + ib, k0 + kb, a_rs as int, a_cs as int),
        operand_fits(b@.len() as int, k0 + kb, n as int, b_rs as int, b_cs as int),
        !first_time ==> forall|s: int|
            0 <= s < n / 4 ==> #[trigger] b_panel_ready(
                old(scratch_b)@,
                s,
                b@,
                b_rs as int,
                b_cs as int,
                k0 as int,
                kb as int,
            ),
    ensures
        final(c)@ == unpacked_update(
            old(c)@,
            ldc as int,
            i0 as int,
            i0 + ib,
            0,
            n as int,
            k0 as int,
            k0 + kb,
            alpha,
            a@,
            a_rs as int,
            a_cs as int,
            b@,
            b_rs as int,
            b_cs as int,
            beta,
        ),
        final(scratch_a)@.len() == old(scratch_a)@.len(),
        final(scratch_b)@.len() == old(scratch_b)@.len(),
        forall|s: int|
            0 <= s < n / 4 ==> #[trigger] b_panel_ready(
                final(scratch_b)@,
                s,
                b@,
                b_rs as int,
                b_cs as int,
                k0 as int,
                kb as int,
            ),
{
    let panels: usize = n / 4;
    let b_len: usize = b.len();
    let c_len: usize = c.len();
    let scratch_a_len: usize = scratch_a.len();
    let scratch_b_len: usize = scratch_b.len();
    let mut s: usize = 0;
    while s < panels
        invariant
            s <= panels,
            panels == n / 4,
            kb >= 1,
            ib >= 1,
            n >= 1,
            k0 + kb <= usize::MAX,
            i0 + ib <= ldc,
            b_len == b@.len(),
            c_len == old(c)@.len(),
            scratch_a_len == scratch_a@.len(),
            scratch_a_len == old(scratch_a)@.len(),
            scratch_b_len == scratch_b@.len(),
            scratch_b_len == old(scratch_b)@.len(),
            (n - 1) * ldc + i0 + ib <= c_len,
            (16 * (ib / 16)) * kb <= scratch_a_len,
            (4 * panels) * kb <= scratch_b_len,
            operand_fits(a@.len() as int, i0 + ib, k0 + kb, a_rs as int, a_cs as int),
            operand_fits(b_len as int, k0 + kb, n as int, b_rs as int, b_cs as int),
            c@ =~= unpacked_update(
                old(c)@,
                ldc as int,
                i0 as int,
                i0 + ib,
                0,
                4 * s,
                k0 as int,
                k0 + kb,
                alpha,
                a@,
                a_rs as int,
                a_cs as int,
                b@,
                b_rs as int,
                b_cs as int,
                beta,
            ),
            forall|u: int|
                0 <= u < (if first_time {
                    s
                } else {
                    panels
                }) ==> #[trigger] b_panel_ready(
                    scratch_b@,
                    u,
                    b@,
                    b_rs as int,
                    b_cs as int,
                    k0 as int,
                    kb as int,
                ),
            s > 0 ==> forall|r: int|
                0 <= r < ib / 16 ==> #[trigger] a_panel_ready(
                    scratch_a@,
                    r,
                    alpha,
                    a@,
                    a_rs as int,
                    a_cs as int,
                    i0 as int,
                    k0 as int,
                    kb as int,
                ),
        decreases panels - s,
    {
        proof {
            assert((4 * s) * kb + 4 * kb <= (4 * panels) * kb) by (nonlinear_arith)
                requires
                    0 <= s < panels,
                    kb >= 0,
            ;
            assert((4 * s) * kb >= 0) by (nonlinear_arith)
                requires
                    s >= 0,
                    kb >= 0,
            ;
            lemma_operand_cell(
                k0 + kb - 1,
                k0 + kb,
                4 * s + 3,
                n as int,
                b_rs as int,
                b_cs as int,
            );
            lemma_operand_cell(k0 as int, k0 + kb, 4 * s, n as int, b_rs as int, b_cs as int);
            lemma_shifted_cell(k0 as int, kb - 1, 4 * s, 3, b_rs as int, b_cs as int);
            lemma_product_bound(4 * s + 3, n - 1, ldc as int, ldc as int);
        }
        let j: usize = 4 * s;
        let off_b: usize = 4 * s * kb;
        if first_time {
            let ghost before = scratch_b@;
            let src_off: usize = k0 * b_rs + j * b_cs;
            let src: &[T] = slice_subrange(b, src_off, b_len);
            let (_head, tail) = scratch_b.split_at_mut(off_b);
            let ghost tail_before = tail@;
            pack_b_panel(kb, src, b_rs, b_cs, tail);
            proof {
                lemma_packed_b_is_panel(
                    tail_before,
                    b@,
                    b_rs as int,
                    b_cs as int,
                    k0 as int,
                    kb as int,
                    j as int,
                    src_off as int,
                );
                let now = scratch_b@;
                assert(now.len() == before.len());
                assert(now.subrange(0, off_b as int) =~= before.subrange(0, off_b as int));
                assert(now.subrange(off_b as int, off_b + 4 * kb) =~= tail@.subrange(0, 4 * kb));
                assert forall|u: int| 0 <= u < s + 1 implies #[trigger] b_panel_ready(
                    now,
                    u,
                    b@,
                    b_rs as int,
                    b_cs as int,
                    k0 as int,
                    kb as int,
                ) by {
                    if u < s {
                        assert(b_panel_ready(
                            before,
                            u,
                            b@,
                            b_rs as int,
                            b_cs as int,
                            k0 as int,
                            kb as int,
                        ));
                        assert((4 * u) * kb + 4 * kb <= (4 * s) * kb) by (nonlinear_arith)
                            requires
                                0 <= u < s,
                                kb >= 0,
                        ;
                        assert((4 * u) * kb >= 0) by (nonlinear_arith)
                            requires
                                u >= 0,
                                kb >= 0,
                        ;
                        lemma_panel_kept(
                            before,
                            now,
                            off_b as int,
                            (4 * u) * kb,
                            (4 * u) * kb + 4 * kb,
                        );
                    }
                }
            }
        }
        proof {
            assert(b_panel_ready(
                scratch_b@,
                s as int,
                b@,
                b_rs as int,
                b_cs as int,
                k0 as int,
                kb as int,
            ));
        }
        let panel_b: &[T] = slice_subrange(scratch_b, off_b, off_b + 4 * kb);
        column_panel(
            i0,
            ib,
            j,
            k0,
            kb,
            alpha,
            a,
            a_rs,
            a_cs,
            b,
            b_rs,
            b_cs,
            beta,
            c,
            ldc,
            scratch_a,
            panel_b,
            s == 0,
        );
        proof {
            let next = unpacked_update(
                old(c)@,
                ldc as int,
                i0 as int,
                i0 + ib,
                0,
                4 * (s + 1),
                k0 as int,
                k0 + kb,
                alpha,
                a@,
                a_rs as int,
                a_cs as int,
                b@,
                b_rs as int,
                b_cs as int,
                beta,
            );
            assert forall|x: int| 0 <= x < c_len implies c@[x] == next[x] by {
                lemma_cell_of_position(x, ldc as int);
            }
            assert(c@ =~= next);
        }
        s += 1;
    }
    gemm_unpacked(
        i0,
        i0 + ib,
        4 * panels,
        n,
        k0,
        k0 + kb,
        alpha,
        a,
        a_rs,
        a_cs,
        b,
        b_rs,
        b_cs,
        beta,
        c,
        ldc,
    );
    proof {
        let next = unpacked_update(
            old(c)@,
            ldc as int,
            i0 as int,
            i0 + ib,
            0,
            n as int,
            k0 as int,
            k0 + kb,
            alpha,
            a@,
            a_rs as int,
            a_cs as int,
            b@,
            b_rs as int,
            b_cs as int,
            beta,
        );
        assert forall|x: int| 0 <= x < c_len implies c@[x] == next[x] by {
            lemma_cell_of_position(x, ldc as int);
        }
        assert(c@ =~= next);
    }
}

/// What a cell of C holds after the first `blocks` passes over the
/// reduction: each pass scales the cell, the first by `beta` and the later
/// ones by one, and then adds the products of its `KC` reduction steps (or
/// of those that are left) in order.
pub open spec fn blocked_accumulate<T: Scalar>(
    c0: T,
    beta: T,
    terms: Seq<(T, T)>,
    blocks: int,
) -> T
    decreases blocks,
{
    if blocks <= 0 {
        c0
    } else {
        let before = blocked_accumulate(c0, beta, terms, blocks - 1);
        let factor = if blocks == 1 {
            beta
        } else {
            T::one_value()
        };
        let lo = (blocks - 1) * KC;
        let hi = if blocks * KC <= terms.len() {
            blocks * KC
        } else {
            terms.len() as int
        };
        accumulate(before.product(factor), terms.subrange(lo, hi))
    }
}

/// What the multiply leaves in a cell of C that held `c0` and takes the
/// products `terms`: with no product, `c0 * beta`; else the value after
/// all the passes that the products fill.
pub open spec fn gemm_value<T: Scalar>(c0: T, beta: T, terms: Seq<(T, T)>) -> T {
    if terms.len() == 0 {
        c0.product(beta)
    } else {
        blocked_accumulate(c0, beta, terms, (terms.len() + KC - 1) / (KC as int))
    }
}

/// The buffer of C in the course of the multiply: `blocks` passes over
/// the reduction are done for every row, and one more for the rows before
/// `i0`. Positions outside the `m` rows and `n` columns are as in `c`.
pub open spec fn gemm_progress<T: Scalar>(
    c: Seq<T>,
    ldc: int,
    m: int,
    n: int,
    k: int,
    alpha: T,
    a: Seq<T>,
    a_rs: int,
    a_cs: int,
    b: Seq<T>,
    b_rs: int,
    b_cs: int,
    beta: T,
    blocks: int,
    i0: int,
) -> Seq<T> {
    Seq::new(
        c.len(),
        |t: int|
            if in_block(t, ldc, 0, m, 0, n) {
                blocked_accumulate(
                    c[t],
                    beta,
                    product_terms(
                        alpha,
                        a,
                        a_rs,
                        a_cs,
                        b,
                        b_rs,
                        b_cs,
                        row_of(t, ldc),
                        col_of(t, ldc),
                        0,
                        k,
                    ),
                    if row_of(t, ldc) < i0 {
                        blocks + 1
                    } else {
                        blocks
                    },
                )
            } else {
                c[t]
            },
    )
}

/// What `sgemm` leaves in the buffer of C: the cell in row `i` and column
/// `j`, for `i < m` and `j < n`, holds `gemm_value` of what it held and of
/// its `k` products `op(B)(p, j) * (alpha * op(A)(i, p))`; every other
/// position is as it was.
pub open spec fn gemm_result<T: Scalar>(
    c: Seq<T>,
    ldc: int,
    transa: bool,
    transb: bool,
    m: int,
    n: int,
    k: int,
    alpha: T,
    a: Seq<T>,
    lda: int,
    b: Seq<T>,
    ldb: int,
    beta: T,
) -> Seq<T> {
    Seq::new(
        c.len(),
        |t: int|
            if in_block(t, ldc, 0, m, 0, n) {
                gemm_value(
                    c[t],
                    beta,
                    product_terms(
                        alpha,
                        a,
                        row_stride(transa, lda),
                        col_stride(transa, lda),
                        b,
                        row_stride(transb, ldb),
                        col_stride(transb, ldb),
                        row_of(t, ldc),
                        col_of(t, ldc),
                        0,
                        k,
                    ),
                )
            } else {
                c[t]
            },
    )
}

/// One pass adds to a cell what the next block of its products asks for.
proof fn lemma_pass_step<T: Scalar>(
    c0: T,
    beta: T,
    alpha: T,
    a: Seq<T>,
    a_rs: int,
    a_cs: int,
    b: Seq<T>,
    b_rs: int,
    b_cs: int,
    row: int,
    col: int,
    k: int,
    blocks: int,
    kb: int,
)
    requires
        blocks >= 0,
        kb >= 1,
        blocks * KC + kb <= k,
        kb == KC || blocks * KC + kb == k,
        kb <= KC,
    ensures
        blocked_accumulate(
            c0,
            beta,
            product_terms(alpha, a, a_rs, a_cs, b, b_rs, b_cs, row, col, 0, k),
            blocks + 1,
        ) == accumulate(
            blocked_accumulate(
                c0,
                beta,
                product_terms(alpha, a, a_rs, a_cs, b, b_rs, b_cs, row, col, 0, k),
                blocks,
            ).product(
                if blocks == 0 {
                    beta
                } else {
                    T::one_value()
                },
            ),
            product_terms(
                alpha,
                a,
                a_rs,
                a_cs,
                b,
                b_rs,
                b_cs,
                row,
                col,
                blocks * KC,
                blocks * KC + kb,
            ),
        ),
{
    let all = product_terms(alpha, a, a_rs, a_cs, b, b_rs, b_cs, row, col, 0, k);
    let part = product_terms(
        alpha,
        a,
        a_rs,
        a_cs,
        b,
        b_rs,
        b_cs,
        row,
        col,
        blocks * KC,
        blocks * KC + kb,
    );
    assert(all.subrange(blocks * KC, blocks * KC + kb) =~= part);
}

/// General matrix multiply, `C := alpha * op(A) * op(B) + beta * C`, on
/// column-major buffers, where `op(X)` is `X` or, with the flag set, its
/// transpose. `op(A)` has `m` rows and `k` columns, `op(B)` has `k` rows
/// and `n` columns, C has `m` rows and `n` columns.
///
/// The reduction is cut into blocks of `KC` steps and the rows into blocks
/// of `MC`; B is packed once for each block of the reduction, A once for
/// each block of rows in it, and both scratch buffers are allocated once.
/// Whole tiles of sixteen rows and four columns go through the tile
/// kernel, the rest through `gemm_unpacked`. With `k == 0` every cell of C
/// is scaled by `beta` and nothing else happens; with `m == 0` or `n == 0`
/// nothing is written.
pub fn sgemm<T: Scalar>(
    transa: bool,
    transb: bool,
    m: usize,
    n: usize,
    k: usize,
    alpha: T,
    a: &[T],
    lda: usize,
    b: &[T],
    ldb: usize,
    beta: T,
    c: &mut [T],
    ldc: usize,
)
    requires
        matrix_fits(
            a@.len() as int,
            if transa {
                k as int
            } else {
                m as int
            },
            if transa {
                m as int
            } else {
                k as int
            },
            lda as int,
        ),
        matrix_fits(
            b@.len() as int,
            if transb {
                n as int
            } else {
                k as int
            },
            if transb {
                k as int
            } else {
                n as int
            },
            ldb as int,
        ),
        matrix_fits(old(c)@.len() as int, m as int, n as int, ldc as int),
    ensures
        final(c)@ == gemm_result(
            old(c)@,
            ldc as int,
            transa,
            transb,
            m as int,
            n as int,
            k as int,
            alpha,
            a@,
            lda as int,
            b@,
            ldb as int,
            beta,
        ),
{
    let a_len: usize = a.len();
    let b_len: usize = b.len();
    let c_len: usize = c.len();
    let a_rs: usize = if transa {
        lda
    } else {
        1
    };
    let a_cs: usize = if transa {
        1
    } else {
        lda
    };
    let b_rs: usize = if transb {
        ldb
    } else {
        1
    };
    let b_cs: usize = if transb {
        1
    } else {
        ldb
    };
    if m == 0 || n == 0 {
        proof {
            assert forall|t: int| 0 <= t < c_len implies !in_block(
                t,
                ldc as int,
                0,
                m as int,
                0,
                n as int,
            ) by {
                lemma_cell_of_position(t, ldc as int);
            }
            assert(c@ =~= gemm_result(
                old(c)@,
                ldc as int,
                transa,
                transb,
                m as int,
                n as int,
                k as int,
                alpha,
                a@,
                lda as int,
                b@,
                ldb as int,
                beta,
            ));
        }
        return ;
    }
    if k == 0 {
        gemm_unpacked(0, m, 0, n, 0, 0, alpha, a, a_rs, a_cs, b, b_rs, b_cs, beta, c, ldc);
        proof {
            assert(c@ =~= gemm_result(
                old(c)@,
                ldc as int,
                transa,
                transb,
                m as int,
                n as int,
                k as int,
                alpha,
                a@,
                lda as int,
                b@,
                ldb as int,
                beta,
            ));
        }
        return ;
    }
    proof {
        lemma_product_bound(m - 1, m - 1, 1, 1);
        lemma_product_bound(k - 1, k - 1, 1, 1);
        lemma_product_bound(n - 1, n - 1, 1, 1);
        if transb {
            lemma_product_bound(k - 1, k - 1, n as int, ldb as int);
            assert((k - 1) * n + n == k * n) by (nonlinear_arith);
        } else {
            lemma_product_bound(n - 1, n - 1, k as int, ldb as int);
            assert((n - 1) * k + k == k * n) by (nonlinear_arith);
        }
        assert(k * n <= b_len);
    }
    let kc: usize = if k < KC {
        k
    } else {
        KC
    };
    let n4: usize = 4 * (n / 4);
    proof {
        lemma_product_bound(n4 as int, n as int, kc as int, k as int);
        assert(n * k == k * n) by (nonlinear_arith);
    }
    let mut scratch_a: Vec<T> = vec![T::zero(); MC * KC];
    let mut scratch_b: Vec<T> = vec![T::zero(); n4 * kc];
    let ghost mut blocks: int = 0;
    let mut k0: usize = 0;
    while k0 < k
        invariant
            m >= 1,
            n >= 1,
            k >= 1,
            k0 <= k,
            blocks >= 0,
            k0 == blocks * KC || k0 == k,
            k0 < k ==> k0 == blocks * KC,
            k0 == k ==> blocks == (k + KC - 1) / (KC as int),
            kc == (if k < KC {
                k
            } else {
                KC
            }),
            n4 == 4 * (n / 4),
            a_len == a@.len(),
            b_len == b@.len(),
            c_len == old(c)@.len(),
            scratch_a@.len() == MC * KC,
            scratch_b@.len() == n4 * kc,
            a_rs == row_stride(transa, lda as int),
            a_cs == col_stride(transa, lda as int),
            b_rs == row_stride(transb, ldb as int),
            b_cs == col_stride(transb, ldb as int),
            operand_fits(a_len as int, m as int, k as int, a_rs as int, a_cs as int),
            operand_fits(b_len as int, k as int, n as int, b_rs as int, b_cs as int),
            matrix_fits(c_len as int, m as int, n as int, ldc as int),
            c@ =~= gemm_progress(
                old(c)@,
                ldc as int,
                m as int,
                n as int,
                k as int,
                alpha,
                a@,
                a_rs as int,
                a_cs as int,
                b@,
                b_rs as int,
                b_cs as int,
                beta,
                blocks,
                0,
            ),
        decreases k - k0,
    {
        let kb: usize = if k - k0 < KC {
            k - k0
        } else {
            KC
        };
        let pass_beta: T = if k0 == 0 {
            beta
        } else {
            T::one()
        };
        let mut i0: usize = 0;
        while i0 < m
            invariant
                m >= 1,
                n >= 1,
                k >= 1,
                i0 <= m,
                k0 < k,
                blocks >= 0,
                k0 == blocks * KC,
                kb >= 1,
                kb <= KC,
                kb <= kc,
                k0 + kb <= k,
                kb == KC || k0 + kb == k,
                pass_beta == (if blocks == 0 {
                    beta
                } else {
                    T::one_value()
                }),
                n4 == 4 * (n / 4),
                a_len == a@.len(),
                b_len == b@.len(),
                c_len == old(c)@.len(),
                scratch_a@.len() == MC * KC,
                scratch_b@.len() == n4 * kc,
                operand_fits(a_len as int, m as int, k as int, a_rs as int, a_cs as int),
                operand_fits(b_len as int, k as int, n as int, b_rs as int, b_cs as int),
                matrix_fits(c_len as int, m as int, n as int, ldc as int),
                c@ =~= gemm_progress(
                    old(c)@,
                    ldc as int,
                    m as int,
                    n as int,
                    k as int,
                    alpha,
                    a@,
                    a_rs as int,
                    a_cs as int,
                    b@,
                    b_rs as int,
                    b_cs as int,
                    beta,
                    blocks,
                    i0 as int,
                ),
                i0 > 0 ==> forall|s: int|
                    0 <= s < n / 4 ==> #[trigger] b_panel_ready(
                        scratch_b@,
                        s,
                        b@,
                        b_rs as int,
                        b_cs as int,
                        k0 as int,
                        kb as int,
                    ),
            decreases m - i0,
        {
            let ib: usize = if m - i0 < MC {
                m - i0
            } else {
                MC
            };
            proof {
                lemma_product_bound(16 * (ib / 16), MC as int, kb as int, KC as int);
                lemma_product_bound(n4 as int, n4 as int, kb as int, kc as int);
                lemma_operand_cell(
                    i0 + ib - 1,
                    m as int,
                    k0 + kb - 1,
                    k as int,
                    a_rs as int,
                    a_cs as int,
                );
                lemma_operand_cell(
                    k0 + kb - 1,
                    k as int,
                    n - 1,
                    n as int,
                    b_rs as int,
                    b_cs as int,
                );
            }
            let ghost mid = c@;
            inner_kernel(
                i0,
                ib,
                n,
                k0,
                kb,
                alpha,
                a,
                a_rs,
                a_cs,
                b,
                b_rs,
                b_cs,
                pass_beta,
                c,
                ldc,
                scratch_a.as_mut_slice(),
                scratch_b.as_mut_slice(),
                i0 == 0,
            );
            proof {
                let next = gemm_progress(
                    old(c)@,
                    ldc as int,
                    m as int,
                    n as int,
                    k as int,
                    alpha,
                    a@,
                    a_rs as int,
                    a_cs as int,
                    b@,
                    b_rs as int,
                    b_cs as int,
                    beta,
                    blocks,
                    i0 + ib,
                );
                assert forall|t: int| 0 <= t < c_len implies c@[t] == next[t] by {
                    lemma_cell_of_position(t, ldc as int);
                    if in_block(t, ldc as int, i0 as int, i0 + ib, 0, n as int) {
                        lemma_pass_step(
                            old(c)@[t],
                            beta,
                            alpha,
                            a@,
                            a_rs as int,
                            a_cs as int,
                            b@,
                            b_rs as int,
                            b_cs as int,
                            row_of(t, ldc as int),
                            col_of(t, ldc as int),
                            k as int,
                            blocks,
                            kb as int,
                        );
                    }
                }
                assert(c@ =~= next);
            }
            i0 += ib;
        }
        proof {
            let next = gemm_progress(
                old(c)@,
                ldc as int,
                m as int,
                n as int,
                k as int,
                alpha,
                a@,
                a_rs as int,
                a_cs as int,
                b@,
                b_rs as int,
                b_cs as int,
                beta,
                blocks + 1,
                0,
            );
            assert forall|t: int| 0 <= t < c_len implies c@[t] == next[t] by {
                lemma_cell_of_position(t, ldc as int);
            }
            assert(c@ =~= next);
            blocks = blocks + 1;
        }
        k0 += kb;
    }
    proof {
        assert(c@ =~= gemm_result(
            old(c)@,
            ldc as int,
            transa,
            transb,
            m as int,
            n as int,
            k as int,
            alpha,
            a@,
            lda as int,
            b@,
            ldb as int,
            beta,
        ));
    }
}

/// Where multiplying by one changes nothing, the passes over the
/// reduction add up to one sum over the products that they covered.
pub proof fn lemma_blocks_add_up<T: Scalar>(c0: T, beta: T, terms: Seq<(T, T)>, blocks: int)
    requires
        is_right_identity(T::one_value()),
        blocks >= 1,
        (blocks - 1) * KC < terms.len(),
    ensures
        blocked_accumulate(c0, beta, terms, blocks) == accumulate(
            c0.product(beta),
            terms.take(
                if blocks * KC <= terms.len() {
                    blocks * KC
                } else {
                    terms.len() as int
                },
            ),
        ),
    decreases blocks,
{
    let lo = (blocks - 1) * KC;
    let hi = if blocks * KC <= terms.len() {
        blocks * KC
    } else {
        terms.len() as int
    };
    if blocks == 1 {
        assert(blocked_accumulate(c0, beta, terms, 0) == c0);
        assert(terms.subrange(0, hi) =~= terms.take(hi));
    } else {
        lemma_blocks_add_up(c0, beta, terms, blocks - 1);
        let before = blocked_accumulate(c0, beta, terms, blocks - 1);
        assert(before.product(T::one_value()) == before);
        lemma_accumulate_concat(c0.product(beta), terms.take(lo), terms.subrange(lo, hi));
        assert(terms.take(lo) + terms.subrange(lo, hi) =~= terms.take(hi));
    }
}

/// The blocked multiply agrees with the plain triple loop. Where
/// multiplying by one changes nothing, `sgemm` leaves in C what
/// `gemm_unpacked` leaves when it is run once over all `m` rows, `n`
/// columns and `k` reduction steps: each cell scaled by `beta`, then its
/// `k` products added in order. This holds for every shape, whether or not
/// it is a multiple of the tile and block sizes.
pub proof fn lemma_gemm_matches_triple_loop<T: Scalar>(
    c: Seq<T>,
    ldc: int,
    transa: bool,
    transb: bool,
    m: int,
    n: int,
    k: int,
    alpha: T,
    a: Seq<T>,
    lda: int,
    b: Seq<T>,
    ldb: int,
    beta: T,
)
    requires
        is_right_identity(T::one_value()),
        0 <= k,
    ensures
        gemm_result(c, ldc, transa, transb, m, n, k, alpha, a, lda, b, ldb, beta)
            == unpacked_update(
            c,
            ldc,
            0,
            m,
            0,
            n,
            0,
            k,
            alpha,
            a,
            row_stride(transa, lda),
            col_stride(transa, lda),
            b,
            row_stride(transb, ldb),
            col_stride(transb, ldb),
            beta,
        ),
{
    let blocked = gemm_result(c, ldc, transa, transb, m, n, k, alpha, a, lda, b, ldb, beta);
    let plain = unpacked_update(
        c,
        ldc,
        0,
        m,
        0,
        n,
        0,
        k,
        alpha,
        a,
        row_stride(transa, lda),
        col_stride(transa, lda),
        b,
        row_stride(transb, ldb),
        col_stride(transb, ldb),
        beta,
    );
    assert forall|t: int| 0 <= t < c.len() implies blocked[t] == plain[t] by {
        if in_block(t, ldc, 0, m, 0, n) {
            let terms = product_terms(
                alpha,
                a,
                row_stride(transa, lda),
                col_stride(transa, lda),
                b,
                row_stride(transb, ldb),
                col_stride(transb, ldb),
                row_of(t, ldc),
                col_of(t, ldc),
                0,
                k,
            );
            if k > 0 {
                lemma_blocks_add_up(c[t], beta, terms, (k + KC - 1) / (KC as int));
                assert(terms.take(k) =~= terms);
            }
        }
    }
    assert(blocked =~= plain);
}

/// With no row or no column the multiply writes nothing. With no
/// reduction step it scales every cell of C by `beta` and adds nothing,
/// so where multiplying by `beta` changes nothing it writes nothing new
/// either.
pub proof fn lemma_gemm_empty_dimension<T: Scalar>(
    c: Seq<T>,
    ldc: int,
    transa: bool,
    transb: bool,
    m: int,
    n: int,
    k: int,
    alpha: T,
    a: Seq<T>,
    lda: int,
    b: Seq<T>,
    ldb: int,
    beta: T,
)
    requires
        0 <= m <= ldc,
        0 <= n,
        0 <= k,
        1 <= ldc,
        m == 0 || n == 0 || k == 0,
    ensures
        (m == 0 || n == 0) ==> gemm_result(
            c,
            ldc,
            transa,
            transb,
            m,
            n,
            k,
            alpha,
            a,
            lda,
            b,
            ldb,
            beta,
        ) == c,
        k == 0 ==> forall|t: int|
            0 <= t < c.len() ==> #[trigger] gemm_result(
                c,
                ldc,
                transa,
                transb,
                m,
                n,
                k,
                alpha,
                a,
                lda,
                b,
                ldb,
                beta,
            )[t] == (if in_block(t, ldc, 0, m, 0, n) {
                c[t].product(beta)
            } else {
                c[t]
            }),
        (k == 0 && is_right_identity(beta)) ==> gemm_result(
            c,
            ldc,
            transa,
            transb,
            m,
            n,
            k,
            alpha,
            a,
            lda,
            b,
            ldb,
            beta,
        ) == c,
{
    let r = gemm_result(c, ldc, transa, transb, m, n, k, alpha, a, lda, b, ldb, beta);
    if m == 0 || n == 0 {
        assert forall|t: int| 0 <= t < c.len() implies r[t] == c[t] by {
            lemma_cell_of_position(t, ldc);
        }
        assert(r =~= c);
    }
    if k == 0 && is_right_identity(beta) {
        assert(r =~= c);
    }
}

/// The multiply has no hidden state: two runs on the same operands, the
/// same scalars and the same C leave the same C.
pub proof fn lemma_gemm_is_deterministic<T: Scalar>(
    c: Seq<T>,
    ldc: int,
    transa: bool,
    transb: bool,
    m: int,
    n: int,
    k: int,
    alpha: T,
    a: Seq<T>,
    lda: int,
    b: Seq<T>,
    ldb: int,
    beta: T,
    first: Seq<T>,
    second: Seq<T>,
)
    requires
        first == gemm_result(c, ldc, transa, transb, m, n, k, alpha, a, lda, b, ldb, beta),
        second == gemm_result(c, ldc, transa, transb, m, n, k, alpha, a, lda, b, ldb, beta),
    ensures
        first == second,
{
}

/// The multiply reads nothing but the cells of its operands: two runs
/// whose buffers for A and for B differ only outside the cells of
/// `op(A)` and `op(B)`, on the same C and with the same scalars, leave
/// the same C.
pub proof fn lemma_gemm_reads_only_its_operands<T: Scalar>(
    c: Seq<T>,
    ldc: int,
    transa: bool,
    transb: bool,
    m: int,
    n: int,
    k: int,
    alpha: T,
    a: Seq<T>,
    other_a: Seq<T>,
    lda: int,
    b: Seq<T>,
    other_b: Seq<T>,
    ldb: int,
    beta: T,
)
    requires
        1 <= ldc,
        0 <= m <= ldc,
        0 <= n,
        0 <= k,
        forall|i: int, p: int|
            0 <= i < m && 0 <= p < k ==> #[trigger] operand_cell(a, transa, lda, i, p)
                == operand_cell(other_a, transa, lda, i, p),
        forall|p: int, j: int|
            0 <= p < k && 0 <= j < n ==> #[trigger] operand_cell(b, transb, ldb, p, j)
                == operand_cell(other_b, transb, ldb, p, j),
    ensures
        gemm_result(c, ldc, transa, transb, m, n, k, alpha, a, lda, b, ldb, beta) == gemm_result(
            c,
            ldc,
            transa,
            transb,
            m,
            n,
            k,
            alpha,
            other_a,
            lda,
            other_b,
            ldb,
            beta,
        ),
{
    let a_rs = row_stride(transa, lda);
    let a_cs = col_stride(transa, lda);
    let b_rs = row_stride(transb, ldb);
    let b_cs = col_stride(transb, ldb);
    let first = gemm_result(c, ldc, transa, transb, m, n, k, alpha, a, lda, b, ldb, beta);
    let second = gemm_result(
        c,
        ldc,
        transa,
        transb,
        m,
        n,
        k,
        alpha,
        other_a,
        lda,
        other_b,
        ldb,
        beta,
    );
    assert forall|t: int| 0 <= t < c.len() implies first[t] == second[t] by {
        if in_block(t, ldc, 0, m, 0, n) {
            let row = row_of(t, ldc);
            let col = col_of(t, ldc);
            let terms = product_terms(alpha, a, a_rs, a_cs, b, b_rs, b_cs, row, col, 0, k);
            let other = product_terms(
                alpha,
                other_a,
                a_rs,
                a_cs,
                other_b,
                b_rs,
                b_cs,
                row,
                col,
                0,
                k,
            );
            assert forall|q: int| 0 <= q < k implies terms[q] == other[q] by {
                assert(operand_cell(a, transa, lda, row, q) == operand_cell(
                    other_a,
                    transa,
                    lda,
                    row,
                    q,
                ));
                assert(operand_cell(b, transb, ldb, q, col) == operand_cell(
                    other_b,
                    transb,
                    ldb,
                    q,
                    col,
                ));
            }
            assert(terms =~= other);
        }
    }
    assert(first =~= second);
}

/// In the integers modulo 2^64 the blocked multiply agrees with the plain
/// triple loop for every shape and all scalars.
pub proof fn lemma_integer_gemm_matches_triple_loop(
    c: Seq<i64>,
    ldc: int,
    transa: bool,
    transb: bool,
    m: int,
    n: int,
    k: int,
    alpha: i64,
    a: Seq<i64>,
    lda: int,
    b: Seq<i64>,
    ldb: int,
    beta: i64,
)
    requires
        0 <= k,
    ensures
        gemm_result(c, ldc, transa, transb, m, n, k, alpha, a, lda, b, ldb, beta)
            == unpacked_update(
            c,
            ldc,
            0,
            m,
            0,
            n,
            0,
            k,
            alpha,
            a,
            row_stride(transa, lda),
            col_stride(transa, lda),
            b,
            row_stride(transb, ldb),
            col_stride(transb, ldb),
            beta,
        ),
{
    lemma_i64_one_is_identity();
    lemma_gemm_matches_triple_loop(c, ldc, transa, transb, m, n, k, alpha, a, lda, b, ldb, beta);
}

} // verus!
