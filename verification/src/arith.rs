//! The arithmetic of binary32 numbers, as supplied by callers.
//!
//! The library states its formulas over the five elementary operations and leaves the operations
//! themselves to whoever runs it. What is proved of a formula holds for every arithmetic that
//! gives one answer per question.
//!
//! Whoever wants to reason about results implements [`Arithmetic`] with spec functions of their
//! own. [`Operations`] takes five functions as they are: its spec functions name their answers,
//! and an answer is known to be one once the question has been asked.

use crate::number::Real;
use vstd::prelude::*;

verus! {

/// The function answers for all pairs of numbers, always in the same way.
pub open spec fn operation<F: Fn(Real, Real) -> Real>(f: F) -> bool {
    &&& forall|a: Real, b: Real| #[trigger] f.requires((a, b))
    &&& forall|a: Real, b: Real, x: Real, y: Real|
        #[trigger] f.ensures((a, b), x) && #[trigger] f.ensures((a, b), y) ==> x == y
}

/// The answer for the numbers `a` and `b`.
pub open spec fn operation_value<F: Fn(Real, Real) -> Real>(f: F, a: Real, b: Real) -> Real {
    choose|r: Real| #[trigger] f.ensures((a, b), r)
}

/// The elementary operations.
pub trait Arithmetic {
    /// The operations answer every question, always in the same way.
    spec fn ready(&self) -> bool;

    /// `a + b`.
    spec fn sum(&self, a: Real, b: Real) -> Real;

    /// `r` may be given as `a + b`.
    spec fn gives_sum(&self, a: Real, b: Real, r: Real) -> bool;

    /// `a - b`.
    spec fn difference(&self, a: Real, b: Real) -> Real;

    /// `r` may be given as `a - b`.
    spec fn gives_difference(&self, a: Real, b: Real, r: Real) -> bool;

    /// `a * b`.
    spec fn product(&self, a: Real, b: Real) -> Real;

    /// `r` may be given as `a * b`.
    spec fn gives_product(&self, a: Real, b: Real, r: Real) -> bool;

    /// `a / b`.
    spec fn quotient(&self, a: Real, b: Real) -> Real;

    /// `r` may be given as `a / b`.
    spec fn gives_quotient(&self, a: Real, b: Real, r: Real) -> bool;

    /// The square root of `a`.
    spec fn root(&self, a: Real) -> Real;

    /// `r` may be given as the square root of `a`.
    spec fn gives_root(&self, a: Real, r: Real) -> bool;

    /// Computes `a + b`.
    fn plus(&self, a: Real, b: Real) -> (r: Real)
        requires
            self.ready(),
        ensures
            r == self.sum(a, b),
            self.gives_sum(a, b, r),
    ;

    /// Computes `a - b`.
    fn minus(&self, a: Real, b: Real) -> (r: Real)
        requires
            self.ready(),
        ensures
            r == self.difference(a, b),
            self.gives_difference(a, b, r),
    ;

    /// Computes `a * b`.
    fn times(&self, a: Real, b: Real) -> (r: Real)
        requires
            self.ready(),
        ensures
            r == self.product(a, b),
            self.gives_product(a, b, r),
    ;

    /// Computes `a / b`.
    fn over(&self, a: Real, b: Real) -> (r: Real)
        requires
            self.ready(),
        ensures
            r == self.quotient(a, b),
            self.gives_quotient(a, b, r),
    ;

    /// Computes the square root of `a`.
    fn sqrt(&self, a: Real) -> (r: Real)
        requires
            self.ready(),
        ensures
            r == self.root(a),
            self.gives_root(a, r),
    ;
}

/// An arithmetic made of five functions.
pub struct Operations<P, M, T, Q, R> {
    pub plus: P,
    pub minus: M,
    pub times: T,
    pub over: Q,
    pub sqrt: R,
}

/// The function answers for all numbers, always in the same way.
pub open spec fn unary_operation<F: Fn(Real) -> Real>(f: F) -> bool {
    &&& forall|a: Real| #[trigger] f.requires((a,))
    &&& forall|a: Real, x: Real, y: Real|
        #[trigger] f.ensures((a,), x) && #[trigger] f.ensures((a,), y) ==> x == y
}

impl<
    P: Fn(Real, Real) -> Real,
    M: Fn(Real, Real) -> Real,
    T: Fn(Real, Real) -> Real,
    Q: Fn(Real, Real) -> Real,
    R: Fn(Real) -> Real,
> Operations<P, M, T, Q, R> {
    /// The arithmetic whose answers are those of the given functions.
    pub fn new(plus: P, minus: M, times: T, over: Q, sqrt: R) -> (r: Self)
        requires
            operation(plus),
            operation(minus),
            operation(times),
            operation(over),
            unary_operation(sqrt),
        ensures
            r == (Operations { plus, minus, times, over, sqrt }),
            r.ready(),
            forall|a: Real, b: Real, x: Real| #[trigger]
                r.gives_sum(a, b, x) <==> plus.ensures((a, b), x),
            forall|a: Real, b: Real, x: Real| #[trigger]
                r.gives_difference(a, b, x) <==> minus.ensures((a, b), x),
            forall|a: Real, b: Real, x: Real| #[trigger]
                r.gives_product(a, b, x) <==> times.ensures((a, b), x),
            forall|a: Real, b: Real, x: Real| #[trigger]
                r.gives_quotient(a, b, x) <==> over.ensures((a, b), x),
            forall|a: Real, x: Real| #[trigger] r.gives_root(a, x) <==> sqrt.ensures((a,), x),
    {
        Operations { plus, minus, times, over, sqrt }
    }
}

impl<
    P: Fn(Real, Real) -> Real,
    M: Fn(Real, Real) -> Real,
    T: Fn(Real, Real) -> Real,
    Q: Fn(Real, Real) -> Real,
    R: Fn(Real) -> Real,
> Arithmetic for Operations<P, M, T, Q, R> {
    open spec fn ready(&self) -> bool {
        &&& operation(self.plus)
        &&& operation(self.minus)
        &&& operation(self.times)
        &&& operation(self.over)
        &&& unary_operation(self.sqrt)
    }

    open spec fn sum(&self, a: Real, b: Real) -> Real {
        operation_value(self.plus, a, b)
    }

    open spec fn gives_sum(&self, a: Real, b: Real, r: Real) -> bool {
        self.plus.ensures((a, b), r)
    }

    open spec fn difference(&self, a: Real, b: Real) -> Real {
        operation_value(self.minus, a, b)
    }

    open spec fn gives_difference(&self, a: Real, b: Real, r: Real) -> bool {
        self.minus.ensures((a, b), r)
    }

    open spec fn product(&self, a: Real, b: Real) -> Real {
        operation_value(self.times, a, b)
    }

    open spec fn gives_product(&self, a: Real, b: Real, r: Real) -> bool {
        self.times.ensures((a, b), r)
    }

    open spec fn quotient(&self, a: Real, b: Real) -> Real {
        operation_value(self.over, a, b)
    }

    open spec fn gives_quotient(&self, a: Real, b: Real, r: Real) -> bool {
        self.over.ensures((a, b), r)
    }

    open spec fn root(&self, a: Real) -> Real {
        choose|r: Real| #[trigger] self.sqrt.ensures((a,), r)
    }

    open spec fn gives_root(&self, a: Real, r: Real) -> bool {
        self.sqrt.ensures((a,), r)
    }

    fn plus(&self, a: Real, b: Real) -> (r: Real) {
        (self.plus)(a, b)
    }

    fn minus(&self, a: Real, b: Real) -> (r: Real) {
        (self.minus)(a, b)
    }

    fn times(&self, a: Real, b: Real) -> (r: Real) {
        (self.times)(a, b)
    }

    fn over(&self, a: Real, b: Real) -> (r: Real) {
        (self.over)(a, b)
    }

    fn sqrt(&self, a: Real) -> (r: Real) {
        (self.sqrt)(a)
    }
}

} // verus!
