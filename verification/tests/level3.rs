use blasoxide::{sgemm, Scalar};

#[derive(Clone, Copy, Debug, PartialEq)]
struct Single(f32);

impl Scalar for Single {
    fn zero_value() -> Self {
        Single(0.0)
    }

    fn one_value() -> Self {
        Single(1.0)
    }

    fn sum(self, rhs: Self) -> Self {
        Single(self.0 + rhs.0)
    }

    fn difference(self, rhs: Self) -> Self {
        Single(self.0 - rhs.0)
    }

    fn product(self, rhs: Self) -> Self {
        Single(self.0 * rhs.0)
    }

    fn with_product(self, left: Self, right: Self) -> Self {
        Single(self.0 + left.0 * right.0)
    }

    fn magnitude(self) -> Self {
        Single(self.0.abs())
    }

    fn exceeds(self, rhs: Self) -> bool {
        self.0 > rhs.0
    }

    fn zero() -> Self {
        Single(0.0)
    }

    fn one() -> Self {
        Single(1.0)
    }

    fn plus(self, rhs: Self) -> Self {
        Single(self.0 + rhs.0)
    }

    fn minus(self, rhs: Self) -> Self {
        Single(self.0 - rhs.0)
    }

    fn times(self, rhs: Self) -> Self {
        Single(self.0 * rhs.0)
    }

    fn add_product(self, left: Self, right: Self) -> Self {
        Single(self.0 + left.0 * right.0)
    }

    fn abs(self) -> Self {
        Single(self.0.abs())
    }

    fn gt(self, rhs: Self) -> bool {
        self.0 > rhs.0
    }
}

/// Single precision with the reduction step rounded once.
#[derive(Clone, Copy, Debug, PartialEq)]
struct Fused(f32);

impl Scalar for Fused {
    fn zero_value() -> Self {
        Fused(0.0)
    }

    fn one_value() -> Self {
        Fused(1.0)
    }

    fn sum(self, rhs: Self) -> Self {
        Fused(self.0 + rhs.0)
    }

    fn difference(self, rhs: Self) -> Self {
        Fused(self.0 - rhs.0)
    }

    fn product(self, rhs: Self) -> Self {
        Fused(self.0 * rhs.0)
    }

    fn with_product(self, left: Self, right: Self) -> Self {
        Fused(left.0.mul_add(right.0, self.0))
    }

    fn magnitude(self) -> Self {
        Fused(self.0.abs())
    }

    fn exceeds(self, rhs: Self) -> bool {
        self.0 > rhs.0
    }

    fn zero() -> Self {
        Fused(0.0)
    }

    fn one() -> Self {
        Fused(1.0)
    }

    fn plus(self, rhs: Self) -> Self {
        Fused(self.0 + rhs.0)
    }

    fn minus(self, rhs: Self) -> Self {
        Fused(self.0 - rhs.0)
    }

    fn times(self, rhs: Self) -> Self {
        Fused(self.0 * rhs.0)
    }

    fn add_product(self, left: Self, right: Self) -> Self {
        Fused(left.0.mul_add(right.0, self.0))
    }

    fn abs(self) -> Self {
        Fused(self.0.abs())
    }

    fn gt(self, rhs: Self) -> bool {
        self.0 > rhs.0
    }
}

fn sgemm_ref(
    m: usize,
    n: usize,
    k: usize,
    a: &[Single],
    lda: usize,
    b: &[Single],
    ldb: usize,
    c: &mut [Single],
    ldc: usize,
) {
    for j in 0..n {
        for i in 0..m {
            let mut ci = c[i + j * ldc].0;
            for p in 0..k {
                ci += a[i + p * lda].0 * b[p + j * ldb].0;
            }
            c[i + j * ldc] = Single(ci);
        }
    }
}

#[test]
fn test_sgemm() {
    const LEN: usize = 513;
    let mut a = vec![Single(0.5); LEN * LEN];
    let mut b = vec![Single(0.5); LEN * LEN];
    let mut c = vec![Single(0.0); LEN * LEN];
    let mut cref = vec![Single(0.0); LEN * LEN];

    for i in 0..LEN {
        for j in 0..LEN {
            a[i + j * LEN] = Single(i as f32);
            b[i + j * LEN] = Single(j as f32 + i as f32);
        }
    }

    sgemm(
        false,
        false,
        LEN,
        LEN,
        LEN,
        Single(1.0),
        &a,
        LEN,
        &b,
        LEN,
        Single(1.0),
        &mut c,
        LEN,
    );

    sgemm_ref(LEN, LEN, LEN, &a, LEN, &b, LEN, &mut cref, LEN);

    for i in 0..LEN {
        for j in 0..LEN {
            let (a, b) = (c[i + j * LEN].0, cref[i + j * LEN].0);
            assert!((a - b).abs() < 1000.0, "a!=b, a={}, b={}", a, b);
        }
    }
}

fn fill(len: usize, seed: i64) -> Vec<i64> {
    let mut v = Vec::with_capacity(len);
    let mut x = seed;
    for _ in 0..len {
        x = x.wrapping_mul(6364136223846793005).wrapping_add(1442695040888963407);
        v.push((x >> 40) % 1000);
    }
    v
}

fn at(trans: bool, x: &[i64], ld: usize, row: usize, col: usize) -> i64 {
    if trans {
        x[col + row * ld]
    } else {
        x[row + col * ld]
    }
}

fn exact_case(transa: bool, transb: bool, m: usize, n: usize, k: usize, pad: usize, alpha: i64, beta: i64) {
    let (a_rows, a_cols) = if transa { (k, m) } else { (m, k) };
    let (b_rows, b_cols) = if transb { (n, k) } else { (k, n) };
    let lda = a_rows.max(1) + pad;
    let ldb = b_rows.max(1) + pad;
    let ldc = m.max(1) + pad;
    let a = fill(lda * a_cols + 3, 11);
    let b = fill(ldb * b_cols + 3, 23);
    let c0 = fill(ldc * n + 3, 37);
    let mut c = c0.clone();
    sgemm(transa, transb, m, n, k, alpha, &a, lda, &b, ldb, beta, &mut c, ldc);
    let mut want = c0.clone();
    for j in 0..n {
        for i in 0..m {
            let mut acc = c0[i + j * ldc].wrapping_mul(beta);
            for p in 0..k {
                let term = at(transb, &b, ldb, p, j)
                    .wrapping_mul(alpha.wrapping_mul(at(transa, &a, lda, i, p)));
                acc = acc.wrapping_add(term);
            }
            want[i + j * ldc] = acc;
        }
    }
    assert_eq!(c, want, "m={} n={} k={} ta={} tb={}", m, n, k, transa, transb);
}

#[test]
fn sgemm_matches_triple_loop_on_tile_multiples() {
    exact_case(false, false, 16, 4, 8, 0, 1, 1);
    exact_case(false, false, 32, 8, 128, 0, 3, -2);
    exact_case(false, false, 256, 4, 128, 0, 2, 5);
    exact_case(false, false, 512, 12, 256, 0, -1, 7);
}

#[test]
fn sgemm_matches_triple_loop_off_the_tile_sizes() {
    exact_case(false, false, 1, 1, 1, 0, 2, 3);
    exact_case(false, false, 3, 5, 7, 2, 2, 3);
    exact_case(false, false, 15, 3, 127, 1, 4, 1);
    exact_case(false, false, 17, 5, 129, 0, 5, 2);
    exact_case(false, false, 257, 9, 130, 3, 6, -3);
    exact_case(false, false, 273, 7, 260, 0, -7, 4);
}

#[test]
fn sgemm_honours_the_transpose_flags() {
    exact_case(true, false, 33, 6, 20, 1, 2, 3);
    exact_case(false, true, 33, 6, 20, 1, 2, 3);
    exact_case(true, true, 33, 6, 20, 1, 2, 3);
    exact_case(true, true, 260, 5, 131, 0, -2, 9);
}

#[test]
fn sgemm_with_an_empty_dimension() {
    exact_case(false, false, 0, 5, 7, 0, 2, 3);
    exact_case(false, false, 5, 0, 7, 0, 2, 3);
    exact_case(false, false, 5, 7, 0, 0, 2, 3);
    let c0 = fill(40, 5);
    let mut c = c0.clone();
    sgemm(false, false, 5, 7, 0, 9i64, &[], 5, &[], 1, 1i64, &mut c, 5);
    assert_eq!(c, c0);
    let mut c = c0.clone();
    sgemm(false, false, 0, 7, 3, 9i64, &[], 1, &[0; 21], 3, 4i64, &mut c, 5);
    assert_eq!(c, c0);
}

#[test]
fn sgemm_leaves_the_padding_of_c_alone() {
    let a = fill(20 * 6, 1);
    let b = fill(6 * 5, 2);
    let c0 = fill(25 * 5, 3);
    let mut c = c0.clone();
    sgemm(false, false, 20, 5, 6, 1i64, &a, 20, &b, 6, 0i64, &mut c, 25);
    for j in 0..5 {
        for i in 20..25 {
            assert_eq!(c[i + j * 25], c0[i + j * 25]);
        }
    }
}

#[test]
fn sgemm_small_exact_value() {
    // [1 3; 2 4] * [5 7; 6 8] = [23 31; 34 46], times 2, plus 10 * ones.
    let a: Vec<i64> = vec![1, 2, 3, 4];
    let b: Vec<i64> = vec![5, 6, 7, 8];
    let mut c: Vec<i64> = vec![1, 1, 1, 1];
    sgemm(false, false, 2, 2, 2, 2i64, &a, 2, &b, 2, 10i64, &mut c, 2);
    assert_eq!(c, vec![56, 78, 72, 102]);
}

fn float_case(m: usize, n: usize, k: usize, alpha: f32, beta: f32) -> Vec<Single> {
    let lda = m.max(1) + 1;
    let ldb = k.max(1) + 2;
    let ldc = m.max(1);
    let a: Vec<Single> = (0..lda * k.max(1)).map(|t| Single((t % 7) as f32 * 0.25 - 0.5)).collect();
    let b: Vec<Single> = (0..ldb * n.max(1)).map(|t| Single((t % 5) as f32 * 0.5 - 1.0)).collect();
    let c0: Vec<Single> = (0..ldc * n.max(1)).map(|t| Single((t % 3) as f32)).collect();
    let mut c = c0.clone();
    sgemm(false, false, m, n, k, Single(alpha), &a, lda, &b, ldb, Single(beta), &mut c, ldc);
    for j in 0..n {
        for i in 0..m {
            let mut want = beta as f64 * c0[i + j * ldc].0 as f64;
            let mut size = want.abs();
            for p in 0..k {
                let term = alpha as f64 * a[i + p * lda].0 as f64 * b[p + j * ldb].0 as f64;
                want += term;
                size += term.abs();
            }
            let got = c[i + j * ldc].0 as f64;
            let tol = 1.0e-6 * (k as f64 + 2.0) * (size + 1.0);
            assert!((got - want).abs() <= tol, "m={} n={} k={} got={} want={}", m, n, k, got, want);
        }
    }
    c
}

#[test]
fn sgemm_in_single_precision_is_close_to_the_triple_loop() {
    for &(m, n, k) in [
        (16usize, 4usize, 128usize),
        (256, 8, 128),
        (272, 12, 256),
        (1, 1, 1),
        (7, 3, 5),
        (17, 5, 129),
        (257, 9, 131),
        (300, 6, 257),
    ]
    .iter()
    {
        float_case(m, n, k, 1.0, 1.0);
        float_case(m, n, k, 0.5, -2.0);
        float_case(m, n, k, 3.0, 0.0);
    }
}

#[test]
fn sgemm_with_unit_scalars_equals_the_triple_loop_bit_for_bit() {
    let (m, n, k) = (37usize, 11usize, 300usize);
    let a: Vec<Single> = (0..m * k).map(|t| Single(1.0 / (1.0 + (t % 13) as f32))).collect();
    let b: Vec<Single> = (0..k * n).map(|t| Single(1.0 / (3.0 + (t % 11) as f32))).collect();
    let c0: Vec<Single> = (0..m * n).map(|t| Single(0.1 * (t % 17) as f32)).collect();
    let mut c = c0.clone();
    let mut cref = c0.clone();
    sgemm(false, false, m, n, k, Single(1.0), &a, m, &b, k, Single(1.0), &mut c, m);
    sgemm_ref(m, n, k, &a, m, &b, k, &mut cref, m);
    for t in 0..m * n {
        assert_eq!(c[t].0.to_bits(), cref[t].0.to_bits());
    }
}

#[test]
fn sgemm_twice_gives_the_same_bits() {
    let first = float_case(273, 7, 260, 0.75, 1.25);
    let second = float_case(273, 7, 260, 0.75, 1.25);
    assert_eq!(first.len(), second.len());
    for t in 0..first.len() {
        assert_eq!(first[t].0.to_bits(), second[t].0.to_bits());
    }
}

#[test]
fn sgemm_with_no_reduction_step_only_scales() {
    let c0: Vec<Single> = (0..12).map(|t| Single(t as f32 + 0.5)).collect();
    let mut c = c0.clone();
    sgemm(false, false, 3, 4, 0, Single(9.0), &[], 3, &[], 1, Single(1.0), &mut c, 3);
    assert_eq!(c, c0);
    sgemm(false, false, 3, 4, 0, Single(9.0), &[], 3, &[], 1, Single(2.0), &mut c, 3);
    for t in 0..12 {
        assert_eq!(c[t].0, 2.0 * c0[t].0);
    }
    let mut c = c0.clone();
    sgemm(false, false, 0, 4, 5, Single(9.0), &[], 1, &[Single(1.0); 20], 5, Single(2.0), &mut c, 3);
    assert_eq!(c, c0);
    sgemm(false, false, 3, 0, 5, Single(9.0), &[Single(1.0); 15], 3, &[], 5, Single(2.0), &mut c, 3);
    assert_eq!(c, c0);
}

#[test]
fn sgemm_does_not_read_the_padding_of_its_operands() {
    let (m, n, k, lda, ldb) = (18usize, 5usize, 130usize, 21usize, 133usize);
    let mut a = fill(lda * k, 7);
    let mut b = fill(ldb * n, 9);
    let c0 = fill(m * n, 13);
    let mut first = c0.clone();
    sgemm(false, false, m, n, k, 3i64, &a, lda, &b, ldb, 2i64, &mut first, m);
    for p in 0..k {
        for i in m..lda {
            a[i + p * lda] = -1;
        }
    }
    for j in 0..n {
        for p in k..ldb {
            b[p + j * ldb] = -1;
        }
    }
    let mut second = c0.clone();
    sgemm(false, false, m, n, k, 3i64, &a, lda, &b, ldb, 2i64, &mut second, m);
    assert_eq!(first, second);
}

#[test]
fn sgemm_with_a_fused_step_stays_within_tolerance() {
    const LEN: usize = 513;
    let mut a = vec![Fused(0.5); LEN * LEN];
    let mut b = vec![Fused(0.5); LEN * LEN];
    let mut c = vec![Fused(0.0); LEN * LEN];
    let mut plain_a = vec![Single(0.5); LEN * LEN];
    let mut plain_b = vec![Single(0.5); LEN * LEN];
    let mut cref = vec![Single(0.0); LEN * LEN];

    for i in 0..LEN {
        for j in 0..LEN {
            a[i + j * LEN] = Fused(i as f32);
            b[i + j * LEN] = Fused(j as f32 + i as f32);
            plain_a[i + j * LEN] = Single(i as f32);
            plain_b[i + j * LEN] = Single(j as f32 + i as f32);
        }
    }

    sgemm(false, false, LEN, LEN, LEN, Fused(1.0), &a, LEN, &b, LEN, Fused(1.0), &mut c, LEN);
    sgemm_ref(LEN, LEN, LEN, &plain_a, LEN, &plain_b, LEN, &mut cref, LEN);

    for i in 0..LEN {
        for j in 0..LEN {
            let (a, b) = (c[i + j * LEN].0, cref[i + j * LEN].0);
            assert!((a - b).abs() < 1000.0, "a!=b, a={}, b={}", a, b);
        }
    }
}

#[test]
fn fused_and_plain_steps_differ_only_in_rounding() {
    // 1 + e squared is 1 + 2e + e^2; the e^2 survives only where the step rounds once.
    let e = f32::EPSILON;
    let a = vec![Single(1.0 + e)];
    let b = vec![Single(1.0 + e)];
    let mut c = vec![Single(-(1.0 + 2.0 * e))];
    sgemm(false, false, 1, 1, 1, Single(1.0), &a, 1, &b, 1, Single(1.0), &mut c, 1);
    assert_eq!(c[0].0, 0.0);
    let a = vec![Fused(1.0 + e)];
    let b = vec![Fused(1.0 + e)];
    let mut c = vec![Fused(-(1.0 + 2.0 * e))];
    sgemm(false, false, 1, 1, 1, Fused(1.0), &a, 1, &b, 1, Fused(1.0), &mut c, 1);
    assert_eq!(c[0].0, e * e);
}

#[test]
fn sgemm_over_every_tile_and_block_boundary() {
    let rows = [0usize, 1, 7, 8, 9, 15, 16, 17, 31, 32, 33, 255, 256, 257];
    let cols = [0usize, 1, 3, 4, 5, 7, 8, 9];
    let steps = [0usize, 1, 4, 16, 127, 128, 129, 256, 257];
    for &m in rows.iter() {
        for &n in cols.iter() {
            for &k in steps.iter() {
                exact_case(false, false, m, n, k, m % 3, 3, -2);
            }
        }
    }
    for &m in [15usize, 16, 17, 257].iter() {
        for &n in [3usize, 4, 5].iter() {
            for &k in [127usize, 128, 129].iter() {
                exact_case(true, false, m, n, k, 1, 2, 3);
                exact_case(false, true, m, n, k, 0, 2, 3);
                exact_case(true, true, m, n, k, 2, 2, 3);
            }
        }
    }
}
