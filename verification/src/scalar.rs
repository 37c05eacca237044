use vstd::prelude::*;

verus! {

/// The element type of vectors and matrices.
///
/// Every operation is a function of its operands alone: the executable
/// method returns exactly what the specification function beside it
/// names. No algebraic law (associativity, commutativity, identities) is
/// assumed, so a rounding arithmetic is as good an instance as an exact
/// one, and every kernel's contract fixes the order in which the
/// operations are applied.
///
/// The step of every reduction, `acc + left * right`, is an operation of
/// its own. An instance is free to round it once, as a fused multiply-add
/// does, or twice, as a multiplication followed by an addition does: the
/// kernels are the same for both.
pub trait Scalar: Copy {
    spec fn zero_value() -> Self;

    spec fn one_value() -> Self;

    spec fn sum(self, rhs: Self) -> Self;

    spec fn difference(self, rhs: Self) -> Self;

    spec fn product(self, rhs: Self) -> Self;

    /// `self + left * right`, as one step.
    spec fn with_product(self, left: Self, right: Self) -> Self;

    spec fn magnitude(self) -> Self;

    spec fn exceeds(self, rhs: Self) -> bool;

    fn zero() -> (r: Self)
        ensures
            r == Self::zero_value(),
    ;

    fn one() -> (r: Self)
        ensures
            r == Self::one_value(),
    ;

    fn plus(self, rhs: Self) -> (r: Self)
        ensures
            r == self.sum(rhs),
    ;

    fn minus(self, rhs: Self) -> (r: Self)
        ensures
            r == self.difference(rhs),
    ;

    fn times(self, rhs: Self) -> (r: Self)
        ensures
            r == self.product(rhs),
    ;

    fn add_product(self, left: Self, right: Self) -> (r: Self)
        ensures
            r == self.with_product(left, right),
    ;

    fn abs(self) -> (r: Self)
        ensures
            r == self.magnitude(),
    ;

    fn gt(self, rhs: Self) -> (r: bool)
        ensures
            r == self.exceeds(rhs),
    ;
}

/// A scalar with a wider companion in which a sum can be formed before
/// it is brought back: what an accumulation in extended precision needs.
pub trait Extended: Scalar {
    type Wide: Scalar;

    spec fn widened(self) -> Self::Wide;

    spec fn narrowed(wide: Self::Wide) -> Self;

    fn widen(self) -> (r: Self::Wide)
        ensures
            r == self.widened(),
    ;

    fn narrow(wide: Self::Wide) -> (r: Self)
        ensures
            r == Self::narrowed(wide),
    ;
}

/// Whether multiplying by `e` on the right leaves every value as it is.
pub open spec fn is_right_identity<T: Scalar>(e: T) -> bool {
    forall|x: T| #[trigger] x.product(e) == x
}

/// Whether multiplying by `e` on the left leaves every value as it is.
pub open spec fn is_left_identity<T: Scalar>(e: T) -> bool {
    forall|x: T| #[trigger] e.product(x) == x
}

/// The integers modulo 2^64, in two's complement: an exact instance.
impl Scalar for i64 {
    open spec fn zero_value() -> Self {
        0i64
    }

    open spec fn one_value() -> Self {
        1i64
    }

    open spec fn sum(self, rhs: Self) -> Self {
        vstd::wrapping::i64_specs::wrapping_add(self, rhs)
    }

    open spec fn difference(self, rhs: Self) -> Self {
        vstd::wrapping::i64_specs::wrapping_sub(self, rhs)
    }

    open spec fn product(self, rhs: Self) -> Self {
        vstd::wrapping::i64_specs::wrapping_mul(self, rhs)
    }

    open spec fn with_product(self, left: Self, right: Self) -> Self {
        vstd::wrapping::i64_specs::wrapping_add(
            self,
            vstd::wrapping::i64_specs::wrapping_mul(left, right),
        )
    }

    open spec fn magnitude(self) -> Self {
        if self < 0 {
            vstd::wrapping::i64_specs::wrapping_sub(0i64, self)
        } else {
            self
        }
    }

    open spec fn exceeds(self, rhs: Self) -> bool {
        self > rhs
    }

    fn zero() -> (r: Self) {
        0i64
    }

    fn one() -> (r: Self) {
        1i64
    }

    fn plus(self, rhs: Self) -> (r: Self) {
        self.wrapping_add(rhs)
    }

    fn minus(self, rhs: Self) -> (r: Self) {
        self.wrapping_sub(rhs)
    }

    fn times(self, rhs: Self) -> (r: Self) {
        self.wrapping_mul(rhs)
    }

    fn add_product(self, left: Self, right: Self) -> (r: Self) {
        self.wrapping_add(left.wrapping_mul(right))
    }

    fn abs(self) -> (r: Self) {
        if self < 0 {
            0i64.wrapping_sub(self)
        } else {
            self
        }
    }

    fn gt(self, rhs: Self) -> (r: bool) {
        self > rhs
    }
}

/// The integers modulo 2^32, in two's complement: an exact instance.
impl Scalar for i32 {
    open spec fn zero_value() -> Self {
        0i32
    }

    open spec fn one_value() -> Self {
        1i32
    }

    open spec fn sum(self, rhs: Self) -> Self {
        vstd::wrapping::i32_specs::wrapping_add(self, rhs)
    }

    open spec fn difference(self, rhs: Self) -> Self {
        vstd::wrapping::i32_specs::wrapping_sub(self, rhs)
    }

    open spec fn product(self, rhs: Self) -> Self {
        vstd::wrapping::i32_specs::wrapping_mul(self, rhs)
    }

    open spec fn with_product(self, left: Self, right: Self) -> Self {
        vstd::wrapping::i32_specs::wrapping_add(
            self,
            vstd::wrapping::i32_specs::wrapping_mul(left, right),
        )
    }

    open spec fn magnitude(self) -> Self {
        if self < 0 {
            vstd::wrapping::i32_specs::wrapping_sub(0i32, self)
        } else {
            self
        }
    }

    open spec fn exceeds(self, rhs: Self) -> bool {
        self > rhs
    }

    fn zero() -> (r: Self) {
        0i32
    }

    fn one() -> (r: Self) {
        1i32
    }

    fn plus(self, rhs: Self) -> (r: Self) {
        self.wrapping_add(rhs)
    }

    fn minus(self, rhs: Self) -> (r: Self) {
        self.wrapping_sub(rhs)
    }

    fn times(self, rhs: Self) -> (r: Self) {
        self.wrapping_mul(rhs)
    }

    fn add_product(self, left: Self, right: Self) -> (r: Self) {
        self.wrapping_add(left.wrapping_mul(right))
    }

    fn abs(self) -> (r: Self) {
        if self < 0 {
            0i32.wrapping_sub(self)
        } else {
            self
        }
    }

    fn gt(self, rhs: Self) -> (r: bool) {
        self > rhs
    }
}

/// Thirty-two bits widen to sixty-four without loss and come back by
/// dropping the upper half.
impl Extended for i32 {
    type Wide = i64;

    open spec fn widened(self) -> i64 {
        self as i64
    }

    open spec fn narrowed(wide: i64) -> Self {
        wide as i32
    }

    fn widen(self) -> (r: i64) {
        self as i64
    }

    fn narrow(wide: i64) -> (r: Self) {
        #[verifier::truncate]
        (wide as i32)
    }
}

/// In the integers modulo 2^64, one is an identity on both sides.
pub proof fn lemma_i64_one_is_identity()
    ensures
        is_right_identity::<i64>(1i64),
        is_left_identity::<i64>(1i64),
{
    assert forall|x: i64| #[trigger] x.product(1i64) == x by {
        assert(x * 1 == x) by (nonlinear_arith);
    }
    assert forall|x: i64| #[trigger] 1i64.product(x) == x by {
        assert(1 * x == x) by (nonlinear_arith);
    }
}

} // verus!
