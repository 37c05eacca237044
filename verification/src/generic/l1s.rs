use vstd::prelude::*;
use crate::layout::{accumulate, lemma_accumulate_step, lemma_stride_index, lemma_stride_position, lemma_total_step, on_stride, total, vector_fits};
use crate::scalar::{Extended, Scalar};

verus! {

/// What `sscal` leaves in `x`: each of the `n` elements on the stride is
/// multiplied by `a`.
pub open spec fn scaled<T: Scalar>(x: Seq<T>, n: int, a: T, incx: int) -> Seq<T> {
    Seq::new(
        x.len(),
        |t: int|
            if on_stride(t, n, incx) {
                x[t].product(a)
            } else {
                x[t]
            },
    )
}

/// What `scopy` leaves in `y`: the `i`-th element of `y` is the `i`-th of `x`.
pub open spec fn copied<T: Scalar>(x: Seq<T>, incx: int, y: Seq<T>, incy: int, n: int) -> Seq<T> {
    Seq::new(
        y.len(),
        |t: int|
            if on_stride(t, n, incy) {
                x[(t / incy) * incx]
            } else {
                y[t]
            },
    )
}

/// What `saxpy` leaves in `y`: the `i`-th element of `y` has `a` times
/// the `i`-th of `x` added to it.
pub open spec fn axpy_result<T: Scalar>(
    a: T,
    x: Seq<T>,
    incx: int,
    y: Seq<T>,
    incy: int,
    n: int,
) -> Seq<T> {
    Seq::new(
        y.len(),
        |t: int|
            if on_stride(t, n, incy) {
                y[t].with_product(a, x[(t / incy) * incx])
            } else {
                y[t]
            },
    )
}

/// What `srot` leaves in `x`: the `i`-th element becomes `c * x_i + s * y_i`.
pub open spec fn rotated_x<T: Scalar>(
    x: Seq<T>,
    incx: int,
    y: Seq<T>,
    incy: int,
    n: int,
    c: T,
    s: T,
) -> Seq<T> {
    Seq::new(
        x.len(),
        |t: int|
            if on_stride(t, n, incx) {
                c.product(x[t]).sum(s.product(y[(t / incx) * incy]))
            } else {
                x[t]
            },
    )
}

/// What `srot` leaves in `y`: the `i`-th element becomes `c * y_i - s * x_i`.
pub open spec fn rotated_y<T: Scalar>(
    x: Seq<T>,
    incx: int,
    y: Seq<T>,
    incy: int,
    n: int,
    c: T,
    s: T,
) -> Seq<T> {
    Seq::new(
        y.len(),
        |t: int|
            if on_stride(t, n, incy) {
                c.product(y[t]).difference(s.product(x[(t / incy) * incx]))
            } else {
                y[t]
            },
    )
}

/// The pairs `x_i`, `y_i` of two vectors of `n` elements, in order.
pub open spec fn dot_terms<T: Scalar>(
    x: Seq<T>,
    incx: int,
    y: Seq<T>,
    incy: int,
    n: int,
) -> Seq<(T, T)> {
    Seq::new(n as nat, |i: int| (x[i * incx], y[i * incy]))
}

/// The magnitudes of the `n` elements of a vector, in order.
pub open spec fn magnitudes<T: Scalar>(x: Seq<T>, incx: int, n: int) -> Seq<T> {
    Seq::new(n as nat, |i: int| x[i * incx].magnitude())
}

/// The largest magnitude among the first `n` elements of a vector, or
/// zero where none exceeds zero, and the index of the first element that
/// has it (0 where none exceeds zero). An element takes the lead only
/// where its magnitude exceeds that of every element before it.
pub open spec fn leader<T: Scalar>(x: Seq<T>, incx: int, n: int) -> (T, int)
    decreases n,
{
    if n <= 0 {
        (T::zero_value(), 0)
    } else {
        let before = leader(x, incx, n - 1);
        let xi = x[(n - 1) * incx].magnitude();
        if xi.exceeds(before.0) {
            (xi, n - 1)
        } else {
            before
        }
    }
}

/// A position on the stride among the first `i + 1` elements is the
/// `i`-th element or one of the first `i`.
proof fn lemma_stride_grows(t: int, i: int, inc: int)
    requires
        0 <= i,
        1 <= inc,
        0 <= t,
    ensures
        on_stride(t, i + 1, inc) <==> (on_stride(t, i, inc) || t == i * inc),
        t == i * inc ==> t / inc == i,
{
    if t % inc == 0 {
        lemma_stride_position(t, inc);
    }
    lemma_stride_index(i, i + 1, inc, i * inc + 1);
}

/// Applies a plane rotation to the points `(x_i, y_i)`: `x_i` becomes
/// `c * x_i + s * y_i` and `y_i` becomes `c * y_i - s * x_i`, both from
/// the values before the call.
pub fn srot<T: Scalar>(n: usize, x: &mut [T], incx: usize, y: &mut [T], incy: usize, c: T, s: T)
    requires
        vector_fits(old(x)@.len() as int, n as int, incx as int),
        vector_fits(old(y)@.len() as int, n as int, incy as int),
    ensures
        final(x)@ == rotated_x(old(x)@, incx as int, old(y)@, incy as int, n as int, c, s),
        final(y)@ == rotated_y(old(x)@, incx as int, old(y)@, incy as int, n as int, c, s),
{
    let x_len: usize = x.len();
    let y_len: usize = y.len();
    let mut i: usize = 0;
    while i < n
        invariant
            i <= n,
            x_len == old(x)@.len(),
            y_len == old(y)@.len(),
            vector_fits(x_len as int, n as int, incx as int),
            vector_fits(y_len as int, n as int, incy as int),
            x@ =~= rotated_x(old(x)@, incx as int, old(y)@, incy as int, i as int, c, s),
            y@ =~= rotated_y(old(x)@, incx as int, old(y)@, incy as int, i as int, c, s),
        decreases n - i,
    {
        proof {
            lemma_stride_index(i as int, n as int, incx as int, x_len as int);
            lemma_stride_index(i as int, n as int, incy as int, y_len as int);
            assert forall|t: int| 0 <= t implies (on_stride(t, i + 1, incx as int) <==> (on_stride(
                t,
                i as int,
                incx as int,
            ) || t == i * incx)) && (on_stride(t, i + 1, incy as int) <==> (on_stride(
                t,
                i as int,
                incy as int,
            ) || t == i * incy)) by {
                lemma_stride_grows(t, i as int, incx as int);
                lemma_stride_grows(t, i as int, incy as int);
            }
        }
        let xi: T = x[i * incx];
        let yi: T = y[i * incy];
        x[i * incx] = c.times(xi).plus(s.times(yi));
        y[i * incy] = c.times(yi).minus(s.times(xi));
        i += 1;
    }
}

/// Exchanges the `n` elements of `x` with those of `y`.
pub fn sswap<T: Scalar>(n: usize, x: &mut [T], incx: usize, y: &mut [T], incy: usize)
    requires
        vector_fits(old(x)@.len() as int, n as int, incx as int),
        vector_fits(old(y)@.len() as int, n as int, incy as int),
    ensures
        final(x)@ == copied(old(y)@, incy as int, old(x)@, incx as int, n as int),
        final(y)@ == copied(old(x)@, incx as int, old(y)@, incy as int, n as int),
{
    let x_len: usize = x.len();
    let y_len: usize = y.len();
    let mut i: usize = 0;
    while i < n
        invariant
            i <= n,
            x_len == old(x)@.len(),
            y_len == old(y)@.len(),
            vector_fits(x_len as int, n as int, incx as int),
            vector_fits(y_len as int, n as int, incy as int),
            x@ =~= copied(old(y)@, incy as int, old(x)@, incx as int, i as int),
            y@ =~= copied(old(x)@, incx as int, old(y)@, incy as int, i as int),
        decreases n - i,
    {
        proof {
            lemma_stride_index(i as int, n as int, incx as int, x_len as int);
            lemma_stride_index(i as int, n as int, incy as int, y_len as int);
            assert forall|t: int| 0 <= t implies (on_stride(t, i + 1, incx as int) <==> (on_stride(
                t,
                i as int,
                incx as int,
            ) || t == i * incx)) && (on_stride(t, i + 1, incy as int) <==> (on_stride(
                t,
                i as int,
                incy as int,
            ) || t == i * incy)) by {
                lemma_stride_grows(t, i as int, incx as int);
                lemma_stride_grows(t, i as int, incy as int);
            }
        }
        let xi: T = x[i * incx];
        let yi: T = y[i * incy];
        x[i * incx] = yi;
        y[i * incy] = xi;
        i += 1;
    }
}

/// Multiplies each of the `n` elements of `x` by `a`.
pub fn sscal<T: Scalar>(n: usize, a: T, x: &mut [T], incx: usize)
    requires
        vector_fits(old(x)@.len() as int, n as int, incx as int),
    ensures
        final(x)@ == scaled(old(x)@, n as int, a, incx as int),
{
    let x_len: usize = x.len();
    let mut i: usize = 0;
    while i < n
        invariant
            i <= n,
            x_len == old(x)@.len(),
            vector_fits(x_len as int, n as int, incx as int),
            x@ =~= scaled(old(x)@, i as int, a, incx as int),
        decreases n - i,
    {
        proof {
            lemma_stride_index(i as int, n as int, incx as int, x_len as int);
            assert forall|t: int| 0 <= t implies (on_stride(t, i + 1, incx as int) <==> (on_stride(
                t,
                i as int,
                incx as int,
            ) || t == i * incx)) by {
                lemma_stride_grows(t, i as int, incx as int);
            }
        }
        let v: T = x[i * incx].times(a);
        x[i * incx] = v;
        i += 1;
    }
}

/// Copies the `n` elements of `x` to those of `y`.
pub fn scopy<T: Scalar>(n: usize, x: &[T], incx: usize, y: &mut [T], incy: usize)
    requires
        vector_fits(x@.len() as int, n as int, incx as int),
        vector_fits(old(y)@.len() as int, n as int, incy as int),
    ensures
        final(y)@ == copied(x@, incx as int, old(y)@, incy as int, n as int),
{
    let x_len: usize = x.len();
    let y_len: usize = y.len();
    let mut i: usize = 0;
    while i < n
        invariant
            i <= n,
            x_len == x@.len(),
            y_len == old(y)@.len(),
            vector_fits(x_len as int, n as int, incx as int),
            vector_fits(y_len as int, n as int, incy as int),
            y@ =~= copied(x@, incx as int, old(y)@, incy as int, i as int),
        decreases n - i,
    {
        proof {
            lemma_stride_index(i as int, n as int, incx as int, x_len as int);
            lemma_stride_index(i as int, n as int, incy as int, y_len as int);
            assert forall|t: int| 0 <= t implies (on_stride(t, i + 1, incy as int) <==> (on_stride(
                t,
                i as int,
                incy as int,
            ) || t == i * incy)) by {
                lemma_stride_grows(t, i as int, incy as int);
            }
        }
        y[i * incy] = x[i * incx];
        i += 1;
    }
}

/// Adds `a` times each element of `x` to the element of `y` with the same index.
pub fn saxpy<T: Scalar>(n: usize, a: T, x: &[T], incx: usize, y: &mut [T], incy: usize)
    requires
        vector_fits(x@.len() as int, n as int, incx as int),
        vector_fits(old(y)@.len() as int, n as int, incy as int),
    ensures
        final(y)@ == axpy_result(a, x@, incx as int, old(y)@, incy as int, n as int),
{
    let x_len: usize = x.len();
    let y_len: usize = y.len();
    let mut i: usize = 0;
    while i < n
        invariant
            i <= n,
            x_len == x@.len(),
            y_len == old(y)@.len(),
            vector_fits(x_len as int, n as int, incx as int),
            vector_fits(y_len as int, n as int, incy as int),
            y@ =~= axpy_result(a, x@, incx as int, old(y)@, incy as int, i as int),
        decreases n - i,
    {
        proof {
            lemma_stride_index(i as int, n as int, incx as int, x_len as int);
            lemma_stride_index(i as int, n as int, incy as int, y_len as int);
            assert forall|t: int| 0 <= t implies (on_stride(t, i + 1, incy as int) <==> (on_stride(
                t,
                i as int,
                incy as int,
            ) || t == i * incy)) by {
                lemma_stride_grows(t, i as int, incy as int);
            }
        }
        let v: T = y[i * incy].add_product(a, x[i * incx]);
        y[i * incy] = v;
        i += 1;
    }
}

/// The dot product: zero with the products `x_i * y_i` added to it in
/// order. For `n == 0` it is zero.
pub fn sdot<T: Scalar>(n: usize, x: &[T], incx: usize, y: &[T], incy: usize) -> (r: T)
    requires
        vector_fits(x@.len() as int, n as int, incx as int),
        vector_fits(y@.len() as int, n as int, incy as int),
    ensures
        r == accumulate(T::zero_value(), dot_terms(x@, incx as int, y@, incy as int, n as int)),
        n == 0 ==> r == T::zero_value(),
{
    let x_len: usize = x.len();
    let y_len: usize = y.len();
    let ghost terms = dot_terms(x@, incx as int, y@, incy as int, n as int);
    let mut acc: T = T::zero();
    proof {
        assert(terms.take(0) =~= Seq::<(T, T)>::empty());
    }
    let mut i: usize = 0;
    while i < n
        invariant
            i <= n,
            x_len == x@.len(),
            y_len == y@.len(),
            vector_fits(x_len as int, n as int, incx as int),
            vector_fits(y_len as int, n as int, incy as int),
            terms == dot_terms(x@, incx as int, y@, incy as int, n as int),
            acc == accumulate(T::zero_value(), terms.take(i as int)),
        decreases n - i,
    {
        proof {
            lemma_stride_index(i as int, n as int, incx as int, x_len as int);
            lemma_stride_index(i as int, n as int, incy as int, y_len as int);
            lemma_accumulate_step(T::zero_value(), terms, i as int);
        }
        acc = acc.add_product(x[i * incx], y[i * incy]);
        i += 1;
    }
    proof {
        assert(terms.take(n as int) =~= terms);
    }
    acc
}

/// The pairs `x_i`, `y_i` of two vectors of `n` elements, in order, both
/// widened.
pub open spec fn wide_dot_terms<T: Extended>(
    x: Seq<T>,
    incx: int,
    y: Seq<T>,
    incy: int,
    n: int,
) -> Seq<(T::Wide, T::Wide)> {
    Seq::new(n as nat, |i: int| (x[i * incx].widened(), y[i * incy].widened()))
}

/// The dot product with an offset, summed in the wider type: `b` is
/// widened, the products of the widened elements are added to it in
/// order, and the sum is brought back. For `n == 0` it is `b` widened and
/// brought back.
pub fn sdsdot<T: Extended>(n: usize, b: T, x: &[T], incx: usize, y: &[T], incy: usize) -> (r: T)
    requires
        vector_fits(x@.len() as int, n as int, incx as int),
        vector_fits(y@.len() as int, n as int, incy as int),
    ensures
        r == T::narrowed(
            accumulate(b.widened(), wide_dot_terms(x@, incx as int, y@, incy as int, n as int)),
        ),
{
    let x_len: usize = x.len();
    let y_len: usize = y.len();
    let ghost terms = wide_dot_terms(x@, incx as int, y@, incy as int, n as int);
    let mut acc: T::Wide = b.widen();
    proof {
        assert(terms.take(0) =~= Seq::<(T::Wide, T::Wide)>::empty());
    }
    let mut i: usize = 0;
    while i < n
        invariant
            i <= n,
            x_len == x@.len(),
            y_len == y@.len(),
            vector_fits(x_len as int, n as int, incx as int),
            vector_fits(y_len as int, n as int, incy as int),
            terms == wide_dot_terms(x@, incx as int, y@, incy as int, n as int),
            acc == accumulate(b.widened(), terms.take(i as int)),
        decreases n - i,
    {
        proof {
            lemma_stride_index(i as int, n as int, incx as int, x_len as int);
            lemma_stride_index(i as int, n as int, incy as int, y_len as int);
            lemma_accumulate_step(b.widened(), terms, i as int);
        }
        acc = acc.add_product(x[i * incx].widen(), y[i * incy].widen());
        i += 1;
    }
    proof {
        assert(terms.take(n as int) =~= terms);
    }
    T::narrow(acc)
}

/// The sum of the magnitudes: zero with the magnitude of each element
/// added to it in order.
pub fn sasum<T: Scalar>(n: usize, x: &[T], incx: usize) -> (r: T)
    requires
        vector_fits(x@.len() as int, n as int, incx as int),
    ensures
        r == total(T::zero_value(), magnitudes(x@, incx as int, n as int)),
{
    let x_len: usize = x.len();
    let ghost terms = magnitudes(x@, incx as int, n as int);
    let mut acc: T = T::zero();
    proof {
        assert(terms.take(0) =~= Seq::<T>::empty());
    }
    let mut i: usize = 0;
    while i < n
        invariant
            i <= n,
            x_len == x@.len(),
            vector_fits(x_len as int, n as int, incx as int),
            terms == magnitudes(x@, incx as int, n as int),
            acc == total(T::zero_value(), terms.take(i as int)),
        decreases n - i,
    {
        proof {
            lemma_stride_index(i as int, n as int, incx as int, x_len as int);
            lemma_total_step(T::zero_value(), terms, i as int);
        }
        acc = acc.plus(x[i * incx].abs());
        i += 1;
    }
    proof {
        assert(terms.take(n as int) =~= terms);
    }
    acc
}

/// The index of the first element of largest magnitude; 0 where no
/// magnitude exceeds zero, and for `n == 0`.
pub fn isamax<T: Scalar>(n: usize, x: &[T], incx: usize) -> (r: usize)
    requires
        vector_fits(x@.len() as int, n as int, incx as int),
    ensures
        r == leader(x@, incx as int, n as int).1,
        n == 0 ==> r == 0,
        n > 0 ==> r < n,
{
    let x_len: usize = x.len();
    let mut max: T = T::zero();
    let mut imax: usize = 0;
    let mut i: usize = 0;
    while i < n
        invariant
            i <= n,
            x_len == x@.len(),
            vector_fits(x_len as int, n as int, incx as int),
            (max, imax as int) == leader(x@, incx as int, i as int),
            i == 0 ==> imax == 0,
            i > 0 ==> imax < i,
        decreases n - i,
    {
        proof {
            lemma_stride_index(i as int, n as int, incx as int, x_len as int);
        }
        let xi: T = x[i * incx].abs();
        if xi.gt(max) {
            max = xi;
            imax = i;
        }
        i += 1;
    }
    imax
}

/// Where no element has a magnitude that exceeds zero, as in a vector of
/// zeros, the index of the maximum is 0 whatever the length.
pub proof fn lemma_leader_of_zeros_is_first<T: Scalar>(x: Seq<T>, incx: int, n: int)
    requires
        forall|i: int| 0 <= i < n ==> !(#[trigger] x[i * incx]).magnitude().exceeds(T::zero_value()),
    ensures
        leader(x, incx, n) == (T::zero_value(), 0int),
    decreases n,
{
    if n > 0 {
        lemma_leader_of_zeros_is_first(x, incx, n - 1);
        assert(!x[(n - 1) * incx].magnitude().exceeds(T::zero_value()));
    }
}

/// In the integers modulo 2^64 the index of the maximum of a vector of
/// zeros is 0 whatever the length.
pub proof fn lemma_leader_of_integer_zeros(x: Seq<i64>, incx: int, n: int)
    requires
        forall|i: int| 0 <= i < n ==> (#[trigger] x[i * incx]) == 0,
    ensures
        leader(x, incx, n).1 == 0,
{
    assert forall|i: int| 0 <= i < n implies !(#[trigger] x[i * incx]).magnitude().exceeds(
        i64::zero_value(),
    ) by {
        assert(x[i * incx] == 0);
    }
    lemma_leader_of_zeros_is_first(x, incx, n);
}

} // verus!
