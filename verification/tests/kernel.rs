use blasoxide::{
    combine_panel, d_pack_a, dcombine_1, dcombine_4, dgemm_8x4_packed, gemm_unpacked, pack_a_panel,
    pack_b_panel, packed_tile, s_pack_a, scombine_1, scombine_4, sgemm_16x4_packed, Scalar,
};

#[derive(Clone, Copy, Debug, PartialEq)]
struct Double(f64);

impl Scalar for Double {
    fn zero_value() -> Self {
        Double(0.0)
    }

    fn one_value() -> Self {
        Double(1.0)
    }

    fn sum(self, rhs: Self) -> Self {
        Double(self.0 + rhs.0)
    }

    fn difference(self, rhs: Self) -> Self {
        Double(self.0 - rhs.0)
    }

    fn product(self, rhs: Self) -> Self {
        Double(self.0 * rhs.0)
    }

    fn with_product(self, left: Self, right: Self) -> Self {
        Double(self.0 + left.0 * right.0)
    }

    fn magnitude(self) -> Self {
        Double(self.0.abs())
    }

    fn exceeds(self, rhs: Self) -> bool {
        self.0 > rhs.0
    }

    fn zero() -> Self {
        Double(0.0)
    }

    fn one() -> Self {
        Double(1.0)
    }

    fn plus(self, rhs: Self) -> Self {
        Double(self.0 + rhs.0)
    }

    fn minus(self, rhs: Self) -> Self {
        Double(self.0 - rhs.0)
    }

    fn times(self, rhs: Self) -> Self {
        Double(self.0 * rhs.0)
    }

    fn add_product(self, left: Self, right: Self) -> Self {
        Double(self.0 + left.0 * right.0)
    }

    fn abs(self) -> Self {
        Double(self.0.abs())
    }

    fn gt(self, rhs: Self) -> bool {
        self.0 > rhs.0
    }
}

fn ramp(len: usize, start: i64, step: i64) -> Vec<i64> {
    (0..len as i64).map(|i| start + step * i).collect()
}

#[test]
fn s_pack_a_lays_sixteen_rows_side_by_side() {
    let lda = 20;
    let k = 3;
    let a = ramp(lda * k, 1, 1);
    let mut packed = vec![-1i64; 16 * k + 2];
    s_pack_a(k, 2i64, &a, lda, &mut packed);
    for p in 0..k {
        for r in 0..16 {
            assert_eq!(packed[r + 16 * p], 2 * a[r + p * lda]);
        }
    }
    assert_eq!(packed[0], 2);
    assert_eq!(packed[16], 2 * 21);
    assert_eq!(packed[16 * k], -1);
    assert_eq!(packed[16 * k + 1], -1);
}

#[test]
fn d_pack_a_lays_eight_rows_side_by_side() {
    let lda = 9;
    let k = 4;
    let a = ramp(lda * k, 0, 3);
    let mut packed = vec![-1i64; 8 * k + 1];
    d_pack_a(k, -1i64, &a, lda, &mut packed);
    for p in 0..k {
        for r in 0..8 {
            assert_eq!(packed[r + 8 * p], -a[r + p * lda]);
        }
    }
    assert_eq!(packed[8 * k], -1);
}

#[test]
fn pack_a_with_no_reduction_step_writes_nothing() {
    let mut packed = vec![7i64; 5];
    s_pack_a(0, 2i64, &[], 16, &mut packed);
    assert_eq!(packed, vec![7i64; 5]);
    d_pack_a(0, 2i64, &[], 8, &mut packed);
    assert_eq!(packed, vec![7i64; 5]);
}

#[test]
fn pack_a_panel_reads_a_transposed_operand() {
    // A is stored as 3 steps by 2 rows; the panel has the 2 rows.
    let a: Vec<i64> = vec![1, 2, 3, 10, 20, 30];
    let mut packed = vec![0i64; 6];
    pack_a_panel(2, 3, 1i64, &a, 3, 1, &mut packed);
    assert_eq!(packed, vec![1, 10, 2, 20, 3, 30]);
}

#[test]
fn pack_b_panel_lays_four_columns_step_by_step() {
    let ldb = 5;
    let b = ramp(ldb * 4, 0, 1);
    let mut packed = vec![-1i64; 4 * 3 + 1];
    pack_b_panel(3, &b, 1, ldb, &mut packed);
    assert_eq!(packed, vec![0, 5, 10, 15, 1, 6, 11, 16, 2, 7, 12, 17, -1]);
}

#[test]
fn packing_twice_gives_the_same_panel() {
    let lda = 16;
    let k = 5;
    let a = ramp(lda * k, 3, 7);
    let mut first = vec![0i64; 16 * k];
    let mut second = vec![99i64; 16 * k];
    s_pack_a(k, 3i64, &a, lda, &mut first);
    s_pack_a(k, 3i64, &a, lda, &mut second);
    assert_eq!(first, second);
    s_pack_a(k, 3i64, &a, lda, &mut second);
    assert_eq!(first, second);

    let b = ramp(4 * k, 1, 2);
    let mut first = vec![0i64; 4 * k];
    let mut second = vec![5i64; 4 * k];
    pack_b_panel(k, &b, 1, k, &mut first);
    pack_b_panel(k, &b, 1, k, &mut second);
    assert_eq!(first, second);
}

fn tile_case(height: usize, k: usize, ldc: usize, beta: i64, run: fn(usize, &[i64], &[i64], i64, &mut [i64], usize)) {
    let a = ramp(height * k, 1, 1);
    let b = ramp(4 * k, -3, 2);
    let c0 = ramp(4 * ldc, 5, 1);
    let mut c = c0.clone();
    run(k, &a, &b, beta, &mut c, ldc);
    for j in 0..4 {
        for i in 0..ldc {
            let t = i + j * ldc;
            if i < height {
                let mut acc = c0[t] * beta;
                for p in 0..k {
                    acc += b[4 * p + j] * a[i + height * p];
                }
                assert_eq!(c[t], acc, "row {} column {}", i, j);
            } else {
                assert_eq!(c[t], c0[t]);
            }
        }
    }
}

#[test]
fn sgemm_16x4_packed_updates_its_tile_only() {
    tile_case(16, 1, 16, 1, sgemm_16x4_packed::<i64>);
    tile_case(16, 7, 19, 3, sgemm_16x4_packed::<i64>);
    tile_case(16, 0, 16, 4, sgemm_16x4_packed::<i64>);
}

#[test]
fn dgemm_8x4_packed_updates_its_tile_only() {
    tile_case(8, 1, 8, 1, dgemm_8x4_packed::<i64>);
    tile_case(8, 9, 13, -2, dgemm_8x4_packed::<i64>);
    tile_case(8, 0, 8, 4, dgemm_8x4_packed::<i64>);
}

#[test]
fn packed_tile_of_one_row() {
    let a: Vec<i64> = vec![2, 3];
    let b: Vec<i64> = vec![1, 10, 100, 1000, 2, 20, 200, 2000];
    let mut c: Vec<i64> = vec![1, 1, 1, 1];
    packed_tile(1, 2, &a, &b, 5i64, &mut c, 1);
    assert_eq!(c, vec![5 + 2 + 6, 5 + 20 + 60, 5 + 200 + 600, 5 + 2000 + 6000]);
}

#[test]
fn gemm_unpacked_works_on_its_block_only() {
    let a: Vec<i64> = ramp(12, 1, 1);
    let b: Vec<i64> = ramp(12, 2, 1);
    let c0: Vec<i64> = ramp(16, 0, 1);
    let mut c = c0.clone();
    // rows 1..3, columns 2..4, steps 1..3; A is 4 by 3, B is 3 by 4, C is 4 by 4.
    gemm_unpacked(1, 3, 2, 4, 1, 3, 2i64, &a, 1, 4, &b, 1, 3, 3i64, &mut c, 4);
    for j in 0..4 {
        for i in 0..4 {
            let t = i + j * 4;
            if (1..3).contains(&i) && (2..4).contains(&j) {
                let mut acc = c0[t] * 3;
                for p in 1..3 {
                    acc += b[p + j * 3] * (2 * a[i + p * 4]);
                }
                assert_eq!(c[t], acc);
            } else {
                assert_eq!(c[t], c0[t]);
            }
        }
    }
}

#[test]
fn scombine_4_exact_value() {
    let a: Vec<i64> = vec![1, 2, 0, 3, 4, 0, 5, 6, 0, 7, 8, 0];
    let x: Vec<i64> = vec![1, 0, 10, 0, 100, 0, 1000];
    let mut y: Vec<i64> = vec![1, 2, 9];
    scombine_4(2, 2i64, &a, 3, &x, 2, 3i64, &mut y);
    assert_eq!(y, vec![3 + 2 * (1 + 30 + 500 + 7000), 6 + 2 * (2 + 40 + 600 + 8000), 9]);
    let mut y: Vec<i64> = vec![1, 2, 9];
    dcombine_4(2, 2i64, &a, 3, &x, 2, 3i64, &mut y);
    assert_eq!(y, vec![3 + 2 * (1 + 30 + 500 + 7000), 6 + 2 * (2 + 40 + 600 + 8000), 9]);
}

#[test]
fn scombine_1_exact_value() {
    let a: Vec<i64> = vec![1, 2, 3];
    let x: Vec<i64> = vec![7];
    let mut y: Vec<i64> = vec![10, 20, 30];
    scombine_1(2, 3i64, &a, &x, 2i64, &mut y);
    assert_eq!(y, vec![20 + 21, 40 + 42, 30]);
    let mut y: Vec<i64> = vec![10, 20, 30];
    dcombine_1(2, 3i64, &a, &x, 2i64, &mut y);
    assert_eq!(y, vec![20 + 21, 40 + 42, 30]);
}

#[test]
fn combine_panel_of_three_columns() {
    let a: Vec<i64> = vec![1, 2, 3, 4, 5, 6];
    let x: Vec<i64> = vec![1, 10, 100];
    let mut y: Vec<i64> = vec![0, 0];
    combine_panel(2, 3, 1i64, &a, 2, &x, 1, 1i64, &mut y);
    assert_eq!(y, vec![531, 642]);
}

#[test]
fn combine_with_no_row_writes_nothing() {
    let x: Vec<i64> = vec![1, 2, 3, 4];
    let mut y: Vec<i64> = vec![5, 6];
    scombine_4(0, 2i64, &[], 1, &x, 1, 3i64, &mut y);
    assert_eq!(y, vec![5, 6]);
    scombine_1(0, 2i64, &[], &x, 3i64, &mut y);
    assert_eq!(y, vec![5, 6]);
}

fn sweep_i64(m: usize, n: usize, lda: usize, incx: usize, alpha: i64, beta: i64) {
    let a = ramp(lda * n + 1, -5, 3);
    let x = ramp(incx * n + 1, 2, -1);
    let y0 = ramp(m + 2, 1, 4);
    let mut y = y0.clone();
    let mut first = true;
    let mut j = 0;
    while j + 4 <= n {
        let b = if first { beta } else { 1 };
        scombine_4(m, alpha, &a[j * lda..], lda, &x[j * incx..], incx, b, &mut y);
        first = false;
        j += 4;
    }
    while j < n {
        let b = if first { beta } else { 1 };
        scombine_1(m, alpha, &a[j * lda..], &x[j * incx..], b, &mut y);
        first = false;
        j += 1;
    }
    for i in 0..m + 2 {
        if i < m {
            let mut acc = beta * y0[i];
            for c in 0..n {
                acc += a[i + c * lda] * (x[c * incx] * alpha);
            }
            assert_eq!(y[i], acc, "m={} n={} row {}", m, n, i);
        } else {
            assert_eq!(y[i], y0[i]);
        }
    }
}

#[test]
fn combines_together_give_the_matrix_vector_product() {
    for n in 1..=13 {
        sweep_i64(5, n, 7, 1, 3, 2);
        sweep_i64(6, n, 6, 3, -2, 5);
    }
    sweep_i64(251, 37, 260, 7, 7, 11);
}

#[test]
fn combines_reproduce_a_constant_matrix_vector_product() {
    for &n in [1usize, 3, 4, 5, 8, 251].iter() {
        for &incx in [1usize, 7, 11].iter() {
            let m = n;
            let lda = 260;
            let x = vec![Double(2.0); n * incx];
            let a = vec![Double(3.0); n * lda];
            let mut y = vec![Double(5.0); m];
            let mut first = true;
            let mut j = 0;
            while j + 4 <= n {
                let b = if first { Double(11.0) } else { Double(1.0) };
                dcombine_4(m, Double(7.0), &a[j * lda..], lda, &x[j * incx..], incx, b, &mut y);
                first = false;
                j += 4;
            }
            while j < n {
                let b = if first { Double(11.0) } else { Double(1.0) };
                dcombine_1(m, Double(7.0), &a[j * lda..], &x[j * incx..], b, &mut y);
                first = false;
                j += 1;
            }
            for yi in y {
                assert_eq!(yi.0, 5.0 * 11.0 + 7.0 * 3.0 * 2.0 * n as f64);
            }
        }
    }
}
