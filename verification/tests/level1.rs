use blasoxide::{isamax, sasum, saxpy, scopy, sdot, sdsdot, srot, sscal, sswap, Extended, Scalar};

#[derive(Clone, Copy, Debug, PartialEq)]
struct Single(f32);

#[derive(Clone, Copy, Debug, PartialEq)]
struct Double(f64);

impl Scalar for Single {
    fn zero_value() -> Self {
        Single(0.0)
    }

    fn one_value() -> Self {
        Single(1.0)
    }

    fn sum(self, rhs: Self) -> Self {
        Single(self.0 + rhs.0)
    }

    fn difference(self, rhs: Self) -> Self {
        Single(self.0 - rhs.0)
    }

    fn product(self, rhs: Self) -> Self {
        Single(self.0 * rhs.0)
    }

    fn with_product(self, left: Self, right: Self) -> Self {
        Single(self.0 + left.0 * right.0)
    }

    fn magnitude(self) -> Self {
        Single(self.0.abs())
    }

    fn exceeds(self, rhs: Self) -> bool {
        self.0 > rhs.0
    }

    fn zero() -> Self {
        Single(0.0)
    }

    fn one() -> Self {
        Single(1.0)
    }

    fn plus(self, rhs: Self) -> Self {
        Single(self.0 + rhs.0)
    }

    fn minus(self, rhs: Self) -> Self {
        Single(self.0 - rhs.0)
    }

    fn times(self, rhs: Self) -> Self {
        Single(self.0 * rhs.0)
    }

    fn add_product(self, left: Self, right: Self) -> Self {
        Single(self.0 + left.0 * right.0)
    }

    fn abs(self) -> Self {
        Single(self.0.abs())
    }

    fn gt(self, rhs: Self) -> bool {
        self.0 > rhs.0
    }
}

impl Scalar for Double {
    fn zero_value() -> Self {
        Double(0.0)
    }

    fn one_value() -> Self {
        Double(1.0)
    }

    fn sum(self, rhs: Self) -> Self {
        Double(self.0 + rhs.0)
    }

    fn difference(self, rhs: Self) -> Self {
        Double(self.0 - rhs.0)
    }

    fn product(self, rhs: Self) -> Self {
        Double(self.0 * rhs.0)
    }

    fn with_product(self, left: Self, right: Self) -> Self {
        Double(self.0 + left.0 * right.0)
    }

    fn magnitude(self) -> Self {
        Double(self.0.abs())
    }

    fn exceeds(self, rhs: Self) -> bool {
        self.0 > rhs.0
    }

    fn zero() -> Self {
        Double(0.0)
    }

    fn one() -> Self {
        Double(1.0)
    }

    fn plus(self, rhs: Self) -> Self {
        Double(self.0 + rhs.0)
    }

    fn minus(self, rhs: Self) -> Self {
        Double(self.0 - rhs.0)
    }

    fn times(self, rhs: Self) -> Self {
        Double(self.0 * rhs.0)
    }

    fn add_product(self, left: Self, right: Self) -> Self {
        Double(self.0 + left.0 * right.0)
    }

    fn abs(self) -> Self {
        Double(self.0.abs())
    }

    fn gt(self, rhs: Self) -> bool {
        self.0 > rhs.0
    }
}

impl Extended for Single {
    type Wide = Double;

    fn widened(self) -> Double {
        Double(f64::from(self.0))
    }

    fn narrowed(wide: Double) -> Self {
        Single(wide.0 as f32)
    }

    fn widen(self) -> Double {
        Double(f64::from(self.0))
    }

    fn narrow(wide: Double) -> Self {
        Single(wide.0 as f32)
    }
}

#[test]
fn sdot_of_two_empty_vectors_is_zero() {
    let x: Vec<Single> = Vec::new();
    let y: Vec<Single> = Vec::new();
    let r = sdot(0, &x, 1, &y, 1);
    assert_eq!(r.0, 0.0);
    assert!(r.0.is_sign_positive());
    let r = sdot(0, &[Single(3.0)], 5, &[Single(4.0)], 2);
    assert_eq!(r.0, 0.0);
    let xi: Vec<i64> = Vec::new();
    assert_eq!(sdot(0, &xi, 1, &xi, 1), 0);
}

#[test]
fn isamax_of_zeros_is_zero() {
    for n in 0..40 {
        let x = vec![Single(0.0); n];
        assert_eq!(isamax(n, &x, 1), 0);
        let x = vec![0i64; 3 * n];
        assert_eq!(isamax(n, &x, 3), 0);
    }
    let x = vec![Single(-0.0); 9];
    assert_eq!(isamax(9, &x, 1), 0);
}

#[test]
fn isamax_finds_the_first_largest_magnitude() {
    let x: Vec<i64> = vec![1, -7, 3, 7, -2];
    assert_eq!(isamax(5, &x, 1), 1);
    assert_eq!(isamax(1, &x, 1), 0);
    assert_eq!(isamax(3, &x, 2), 1);
    let x = vec![Single(0.5), Single(-0.25), Single(-4.0), Single(4.0)];
    assert_eq!(isamax(4, &x, 1), 2);
    assert_eq!(isamax(2, &x, 1), 0);
}

#[test]
fn sdot_exact_value_with_strides() {
    let x: Vec<i64> = vec![1, 99, 2, 99, 3];
    let y: Vec<i64> = vec![4, 0, 0, 5, 0, 0, 6];
    assert_eq!(sdot(3, &x, 2, &y, 3), 4 + 10 + 18);
    assert_eq!(sdot(1, &x, 2, &y, 3), 4);
    let x = vec![Single(1.5), Single(2.0)];
    let y = vec![Single(2.0), Single(0.25)];
    assert_eq!(sdot(2, &x, 1, &y, 1), Single(3.5));
}

#[test]
fn sdot_adds_in_order() {
    // (1e8 + 1) - 1e8 is 0 in single precision when summed left to right.
    let x = vec![Single(1.0e8), Single(1.0), Single(-1.0e8)];
    let y = vec![Single(1.0), Single(1.0), Single(1.0)];
    assert_eq!(sdot(3, &x, 1, &y, 1), Single(0.0));
    let x = vec![Single(1.0e8), Single(-1.0e8), Single(1.0)];
    assert_eq!(sdot(3, &x, 1, &y, 1), Single(1.0));
}

#[test]
fn sdsdot_sums_in_the_wider_type() {
    let x = vec![Single(1.0e8), Single(1.0), Single(-1.0e8)];
    let y = vec![Single(1.0), Single(1.0), Single(1.0)];
    assert_eq!(sdsdot(3, Single(0.5), &x, 1, &y, 1), Single(1.5));
    assert_eq!(sdsdot(0, Single(0.5), &x, 1, &y, 1), Single(0.5));
    // 65536 * 65536 wraps to 0 in thirty-two bits and not in sixty-four.
    let x: Vec<i32> = vec![65536, 3];
    let y: Vec<i32> = vec![65536, 5];
    assert_eq!(sdot(2, &x, 1, &y, 1), 15);
    assert_eq!(sdsdot(2, 7i32, &x, 1, &y, 1), 22);
    let x: Vec<i32> = vec![65536, 65536];
    let y: Vec<i32> = vec![32768, 32768];
    assert_eq!(sdsdot(2, 1i32, &x, 1, &y, 1), 1);
    assert_eq!(sdsdot(1, 1i32, &x, 1, &y, 1), i32::MIN + 1);
}

#[test]
fn sasum_exact_value() {
    let x: Vec<i64> = vec![1, -2, 3, -4, 5];
    assert_eq!(sasum(5, &x, 1), 15);
    assert_eq!(sasum(3, &x, 2), 9);
    assert_eq!(sasum(0, &x, 1), 0);
    let x = vec![Single(-1.5), Single(2.5)];
    assert_eq!(sasum(2, &x, 1), Single(4.0));
}

#[test]
fn sscal_touches_the_stride_only() {
    let mut x: Vec<i64> = vec![1, 2, 3, 4, 5, 6, 7];
    sscal(3, 10i64, &mut x, 3);
    assert_eq!(x, vec![10, 2, 3, 40, 5, 6, 70]);
    sscal(0, 10i64, &mut x, 1);
    assert_eq!(x, vec![10, 2, 3, 40, 5, 6, 70]);
    let mut x = vec![Single(1.5), Single(-2.0)];
    sscal(2, Single(2.0), &mut x, 1);
    assert_eq!(x, vec![Single(3.0), Single(-4.0)]);
}

#[test]
fn scopy_with_two_strides() {
    let x: Vec<i64> = vec![1, 2, 3, 4, 5];
    let mut y: Vec<i64> = vec![0; 7];
    scopy(3, &x, 2, &mut y, 3);
    assert_eq!(y, vec![1, 0, 0, 3, 0, 0, 5]);
    scopy(0, &x, 1, &mut y, 1);
    assert_eq!(y, vec![1, 0, 0, 3, 0, 0, 5]);
}

#[test]
fn saxpy_exact_value() {
    let x: Vec<i64> = vec![1, 2, 3];
    let mut y: Vec<i64> = vec![10, 0, 20, 0, 30];
    saxpy(3, 5i64, &x, 1, &mut y, 2);
    assert_eq!(y, vec![15, 0, 30, 0, 45]);
    let x = vec![Single(0.5)];
    let mut y = vec![Single(1.0)];
    saxpy(1, Single(4.0), &x, 1, &mut y, 1);
    assert_eq!(y, vec![Single(3.0)]);
}

#[test]
fn sswap_exchanges_the_elements_on_the_strides() {
    let mut x: Vec<i64> = vec![1, 2, 3, 4, 5];
    let mut y: Vec<i64> = vec![10, 20, 30];
    sswap(3, &mut x, 2, &mut y, 1);
    assert_eq!(x, vec![10, 2, 20, 4, 30]);
    assert_eq!(y, vec![1, 3, 5]);
    sswap(0, &mut x, 1, &mut y, 1);
    assert_eq!(x, vec![10, 2, 20, 4, 30]);
}

#[test]
fn srot_uses_the_values_before_the_call() {
    let mut x: Vec<i64> = vec![1, 2];
    let mut y: Vec<i64> = vec![10, 0, 20];
    srot(2, &mut x, 1, &mut y, 2, 3i64, 4i64);
    assert_eq!(x, vec![3 + 40, 6 + 80]);
    assert_eq!(y, vec![30 - 4, 0, 60 - 8]);
    let mut x = vec![Single(1.0)];
    let mut y = vec![Single(0.0)];
    srot(1, &mut x, 1, &mut y, 1, Single(0.0), Single(1.0));
    assert_eq!(x, vec![Single(0.0)]);
    assert_eq!(y, vec![Single(-1.0)]);
}
