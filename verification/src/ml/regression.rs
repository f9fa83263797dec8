//! Lines and polynomials fitted to points.

use vstd::prelude::*;
use crate::float::{bits_of, sum_floats, total, FloatModel, FloatOp, Floats, F64};
use crate::index::models::{fitted, mean, mean_of, to_bits, LinearModel};
use crate::optimizer::cost_model::ONE;

verus! {

/// A line.
#[derive(Debug)]
pub struct LinearRegression {
    /// The slope.
    pub coefficients: Vec<F64>,
    pub intercept: F64,
}

/// The value of a line at `x`; without a slope, the value at zero.
pub open spec fn line_value(
    coefficients: Seq<F64>,
    intercept: u64,
    x: u64,
    fl: FloatModel,
) -> u64 {
    if coefficients.len() == 0 {
        intercept
    } else {
        (fl.gives)(
            FloatOp::Plus,
            (fl.gives)(FloatOp::Times, coefficients[0].bits, x),
            intercept,
        )
    }
}

/// The squares of the distances of points from a line, of as many points as both
/// lists have.
pub open spec fn squared_misses(
    coefficients: Seq<F64>,
    intercept: u64,
    x: Seq<u64>,
    y: Seq<u64>,
    fl: FloatModel,
) -> Seq<u64> {
    Seq::new(
        if x.len() < y.len() {
            x.len()
        } else {
            y.len()
        },
        |i: int|
            (fl.gives)(
                FloatOp::Power,
                (fl.gives)(
                    FloatOp::Minus,
                    y[i],
                    line_value(coefficients, intercept, x[i], fl),
                ),
                2,
            ),
    )
}

/// The squares of the distances of numbers from a number.
pub open spec fn squared_distances(y: Seq<u64>, from: u64, fl: FloatModel) -> Seq<u64> {
    y.map_values(
        |v: u64| (fl.gives)(FloatOp::Power, (fl.gives)(FloatOp::Minus, v, from), 2),
    )
}

/// The share of the variance of `y` that a line accounts for.
pub open spec fn determination(
    coefficients: Seq<F64>,
    intercept: u64,
    x: Seq<u64>,
    y: Seq<u64>,
    fl: FloatModel,
) -> u64 {
    (fl.gives)(
        FloatOp::Minus,
        ONE,
        (fl.gives)(
            FloatOp::Over,
            total(squared_misses(coefficients, intercept, x, y, fl), fl),
            total(squared_distances(y, mean(y, fl), fl), fl),
        ),
    )
}

fn sum_misses<F: Floats>(model: &LinearRegression, x: &Vec<u64>, y: &Vec<u64>, floats: &F) -> (r: u64)
    requires
        floats.sound(),
    ensures
        r == total(
            squared_misses(
                model.coefficients@,
                model.intercept.bits,
                x@,
                y@,
                floats.model(),
            ),
            floats.model(),
        ),
{
    let ghost whole = squared_misses(
        model.coefficients@,
        model.intercept.bits,
        x@,
        y@,
        floats.model(),
    );
    let mut out: Vec<u64> = Vec::new();
    let mut i: usize = 0;
    while i < x.len() && i < y.len()
        invariant
            i <= x@.len(),
            i <= y@.len(),
            floats.sound(),
            whole == squared_misses(
                model.coefficients@,
                model.intercept.bits,
                x@,
                y@,
                floats.model(),
            ),
            out@ == whole.take(i as int),
        decreases x@.len() - i,
    {
        let p = model.predict(F64 { bits: x[i] }, floats);
        let miss = floats.apply(FloatOp::Minus, y[i], p.bits);
        out.push(floats.apply(FloatOp::Power, miss, 2));
        assert(out@ =~= whole.take(i + 1));
        i = i + 1;
    }
    assert(whole.take(i as int) =~= whole);
    sum_floats(&out, floats)
}

fn sum_distances<F: Floats>(y: &Vec<u64>, from: u64, floats: &F) -> (r: u64)
    requires
        floats.sound(),
    ensures
        r == total(squared_distances(y@, from, floats.model()), floats.model()),
{
    let ghost whole = squared_distances(y@, from, floats.model());
    let mut out: Vec<u64> = Vec::new();
    let mut i: usize = 0;
    while i < y.len()
        invariant
            i <= y@.len(),
            floats.sound(),
            whole == squared_distances(y@, from, floats.model()),
            out@ == whole.take(i as int),
        decreases y@.len() - i,
    {
        let d = floats.apply(FloatOp::Minus, y[i], from);
        out.push(floats.apply(FloatOp::Power, d, 2));
        assert(out@ =~= whole.take(i + 1));
        i = i + 1;
    }
    assert(whole.take(i as int) =~= whole);
    sum_floats(&out, floats)
}

impl LinearRegression {
    /// The line of least squares through points; `None` for fewer than two points,
    /// lists of different lengths, or points that lie too close above one another.
    pub fn fit<F: Floats>(x: &[F64], y: &[F64], floats: &F) -> (r: Option<Self>)
        requires
            floats.sound(),
        ensures
            match (r, fitted(bits_of(x@), bits_of(y@), floats.model())) {
                (Some(m), Some(line)) => m.coefficients@ == seq![line.slope] && m.intercept
                    == line.intercept,
                (None, None) => true,
                _ => false,
            },
    {
        match LinearModel::fit(x, y, floats) {
            Some(line) => {
                let mut coefficients: Vec<F64> = Vec::new();
                coefficients.push(line.slope);
                assert(coefficients@ =~= seq![line.slope]);
                Some(LinearRegression { coefficients, intercept: line.intercept })
            },
            None => None,
        }
    }

    /// The value of the line at `x`.
    pub fn predict<F: Floats>(&self, x: F64, floats: &F) -> (r: F64)
        requires
            floats.sound(),
        ensures
            r.bits == line_value(
                self.coefficients@,
                self.intercept.bits,
                x.bits,
                floats.model(),
            ),
    {
        if self.coefficients.len() == 0 {
            return self.intercept;
        }
        let p = floats.apply(FloatOp::Times, self.coefficients[0].bits, x.bits);
        F64 { bits: floats.apply(FloatOp::Plus, p, self.intercept.bits) }
    }

    /// The share of the variance of `y` that the line accounts for.
    pub fn r_squared<F: Floats>(&self, x: &[F64], y: &[F64], floats: &F) -> (r: F64)
        requires
            floats.sound(),
        ensures
            r.bits == determination(
                self.coefficients@,
                self.intercept.bits,
                bits_of(x@),
                bits_of(y@),
                floats.model(),
            ),
    {
        let xs = to_bits(x);
        let ys = to_bits(y);
        let mean_y = mean_of(&ys, floats);
        let total_squares = sum_distances(&ys, mean_y, floats);
        let missed = sum_misses(self, &xs, &ys, floats);
        let share = floats.apply(FloatOp::Over, missed, total_squares);
        F64 { bits: floats.apply(FloatOp::Minus, ONE, share) }
    }
}

/// A polynomial by its coefficients, that of the lowest power first.
#[derive(Debug)]
pub struct PolynomialRegression {
    pub coefficients: Vec<F64>,
    pub degree: usize,
}

/// The coefficients of the constant one, as a polynomial of a degree.
pub open spec fn constant_one(degree: usize) -> Seq<F64> {
    Seq::new(
        (degree + 1) as nat,
        |i: int|
            F64 {
                bits: if i == 0 {
                    ONE
                } else {
                    0
                },
            },
    )
}

/// The terms of a polynomial at `x`.
pub open spec fn terms(coefficients: Seq<F64>, x: u64, fl: FloatModel) -> Seq<u64> {
    Seq::new(
        coefficients.len(),
        |i: int|
            (fl.gives)(
                FloatOp::Times,
                coefficients[i].bits,
                (fl.gives)(FloatOp::Power, x, i as u64),
            ),
    )
}

impl PolynomialRegression {
    /// The constant one, as a polynomial of a degree; `None` for fewer points than
    /// the polynomial has coefficients.
    pub fn fit(x: &[F64], _y: &[F64], degree: usize) -> (r: Option<Self>)
        requires
            degree < usize::MAX,
        ensures
            match r {
                Some(p) => x@.len() >= degree + 1 && p.degree == degree && p.coefficients@
                    == constant_one(degree),
                None => x@.len() < degree + 1,
            },
    {
        if x.len() < degree + 1 {
            return None;
        }
        let mut coefficients: Vec<F64> = Vec::new();
        coefficients.push(F64 { bits: ONE });
        let mut i: usize = 0;
        while i < degree
            invariant
                i <= degree < usize::MAX,
                coefficients@ == constant_one(degree).take(i + 1),
            decreases degree - i,
        {
            coefficients.push(F64 { bits: 0 });
            assert(coefficients@ =~= constant_one(degree).take(i + 2));
            i = i + 1;
        }
        assert(constant_one(degree).take(degree + 1) =~= constant_one(degree));
        Some(PolynomialRegression { coefficients, degree })
    }

    /// The value of the polynomial at `x`.
    pub fn predict<F: Floats>(&self, x: F64, floats: &F) -> (r: F64)
        requires
            floats.sound(),
        ensures
            r.bits == total(terms(self.coefficients@, x.bits, floats.model()), floats.model()),
    {
        let ghost whole = terms(self.coefficients@, x.bits, floats.model());
        let mut out: Vec<u64> = Vec::new();
        let mut i: usize = 0;
        while i < self.coefficients.len()
            invariant
                i <= self.coefficients@.len(),
                floats.sound(),
                whole == terms(self.coefficients@, x.bits, floats.model()),
                out@ == whole.take(i as int),
            decreases self.coefficients@.len() - i,
        {
            let p = floats.apply(FloatOp::Power, x.bits, i as u64);
            out.push(floats.apply(FloatOp::Times, self.coefficients[i].bits, p));
            assert(out@ =~= whole.take(i + 1));
            i = i + 1;
        }
        assert(whole.take(i as int) =~= whole);
        F64 { bits: sum_floats(&out, floats) }
    }
}

} // verus!
