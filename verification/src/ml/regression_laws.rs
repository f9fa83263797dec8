//! What fitted lines and polynomials promise.

use vstd::prelude::*;
use crate::float::{is_less, magnitude, total, FloatModel, FloatOp, F64};
use crate::index::models::{deviation_products, fitted, mean, predicted, LinearModel};
use crate::ml::regression::{
    constant_one, determination, line_value, squared_distances, squared_misses, terms,
};
use crate::optimizer::cost_model::ONE;

verus! {

/// A line has its intercept where the slope adds nothing, and there and one step on it
/// differs by its slope.
pub proof fn a_line_rises_by_its_slope(m: LinearModel, fl: FloatModel)
    requires
        (fl.gives)(FloatOp::Times, m.slope.bits, 0) == 0,
        (fl.gives)(FloatOp::Times, m.slope.bits, ONE) == m.slope.bits,
        (fl.gives)(FloatOp::Plus, 0, m.intercept.bits) == m.intercept.bits,
    ensures
        predicted(m, 0, fl) == m.intercept.bits,
        predicted(m, ONE, fl) == (fl.gives)(FloatOp::Plus, m.slope.bits, m.intercept.bits),
        line_value(seq![m.slope], m.intercept.bits, 0, fl) == m.intercept.bits,
        line_value(Seq::empty(), m.intercept.bits, ONE, fl) == m.intercept.bits,
{
}

/// The value of a fitted line is the same whether it is asked of the model or of the
/// regression.
pub proof fn both_lines_agree(m: LinearModel, x: u64, fl: FloatModel)
    ensures
        line_value(seq![m.slope], m.intercept.bits, x, fl) == predicted(m, x, fl),
{
}

/// A mean is the sum divided by the number.
pub proof fn a_mean_is_the_sum_over_the_number(v: Seq<u64>, fl: FloatModel)
    ensures
        mean(v, fl) == (fl.gives)(
            FloatOp::Over,
            total(v, fl),
            (fl.gives)(FloatOp::OfCount, v.len() as u64, 0),
        ),
{
}

/// There is a line through at least two points, as many across as up, that do not lie one
/// above the other.
pub proof fn a_line_needs_two_points(x: Seq<u64>, y: Seq<u64>, fl: FloatModel)
    ensures
        x.len() < 2 || x.len() != y.len() ==> fitted(x, y, fl) is None,
        x.len() >= 2 && x.len() == y.len() ==> ({
            let spread = total(deviation_products(x, mean(x, fl), x, mean(x, fl), fl), fl);
            fitted(x, y, fl) is None <==> is_less(magnitude(spread) as u64, 0x3ddb_7cdf_d9d7_bdbb)
        }),
{
}

/// A fitted line goes through the middle of its points, where the unit takes away what it
/// added.
pub proof fn a_fitted_line_goes_through_the_middle(x: Seq<u64>, y: Seq<u64>, fl: FloatModel)
    requires
        fitted(x, y, fl) is Some,
        forall|a: u64, b: u64|
            #![trigger (fl.gives)(FloatOp::Minus, a, b)]
            (fl.gives)(FloatOp::Plus, b, (fl.gives)(FloatOp::Minus, a, b)) == a,
    ensures
        predicted(fitted(x, y, fl)->0, mean(x, fl), fl) == mean(y, fl),
{
}

/// The slope of a line through points is that of their deviations from the middle: through
/// points that are as high as they are far it is one, where the unit gives one for a float
/// over itself.
pub proof fn points_on_the_diagonal_have_slope_one(x: Seq<u64>, fl: FloatModel)
    requires
        fitted(x, x, fl) is Some,
        forall|a: u64|
            #![trigger (fl.gives)(FloatOp::Over, a, a)]
            (fl.gives)(FloatOp::Over, a, a) == ONE,
    ensures
        fitted(x, x, fl)->0.slope.bits == ONE,
{
    let mx = mean(x, fl);
    let d = total(deviation_products(x, mx, x, mx, fl), fl);
    assert((fl.gives)(FloatOp::Over, d, d) == ONE);
}

/// The slope is the sum of the products of both deviations over that of the squares of the
/// first.
pub proof fn a_slope_divides_the_deviations(x: Seq<u64>, y: Seq<u64>, i: int, fl: FloatModel)
    requires
        fitted(x, y, fl) is Some,
        0 <= i < x.len(),
    ensures
        ({
            let both = deviation_products(x, mean(x, fl), y, mean(y, fl), fl);
            let own = deviation_products(x, mean(x, fl), x, mean(x, fl), fl);
            &&& both.len() == x.len() && own.len() == x.len()
            &&& both[i] == (fl.gives)(
                FloatOp::Times,
                (fl.gives)(FloatOp::Minus, x[i], mean(x, fl)),
                (fl.gives)(FloatOp::Minus, y[i], mean(y, fl)),
            )
            &&& fitted(x, y, fl)->0.slope.bits == (fl.gives)(
                FloatOp::Over,
                total(both, fl),
                total(own, fl),
            )
        }),
{
}

proof fn lemma_zeros(v: Seq<u64>, fl: FloatModel)
    requires
        forall|i: int| 0 <= i < v.len() ==> #[trigger] v[i] == 0,
        (fl.gives)(FloatOp::Plus, 0, 0) == 0,
    ensures
        total(v, fl) == 0,
    decreases v.len(),
{
    if v.len() > 1 {
        lemma_zeros(v.drop_last(), fl);
    }
}

/// A line that meets every point accounts for all of the variance.
pub proof fn a_line_through_all_points_accounts_for_all(
    coefficients: Seq<F64>,
    intercept: u64,
    x: Seq<u64>,
    y: Seq<u64>,
    fl: FloatModel,
)
    requires
        x.len() == y.len(),
        forall|i: int|
            0 <= i < x.len() ==> line_value(coefficients, intercept, #[trigger] x[i], fl) == y[i],
        forall|a: u64|
            #![trigger (fl.gives)(FloatOp::Minus, a, a)]
            (fl.gives)(FloatOp::Minus, a, a) == 0,
        (fl.gives)(FloatOp::Power, 0, 2) == 0,
        (fl.gives)(FloatOp::Plus, 0, 0) == 0,
        (fl.gives)(
            FloatOp::Over,
            0,
            total(squared_distances(y, mean(y, fl), fl), fl),
        ) == 0,
        (fl.gives)(FloatOp::Minus, ONE, 0) == ONE,
    ensures
        determination(coefficients, intercept, x, y, fl) == ONE,
{
    let misses = squared_misses(coefficients, intercept, x, y, fl);
    assert forall|i: int| 0 <= i < misses.len() implies #[trigger] misses[i] == 0 by {
        assert(line_value(coefficients, intercept, x[i], fl) == y[i]);
        assert((fl.gives)(FloatOp::Minus, y[i], y[i]) == 0);
    }
    lemma_zeros(misses, fl);
}

/// What a line leaves unexplained is the sum of the squares of its misses over that of the
/// squares of the distances from the mean.
pub proof fn misses_are_squared(
    coefficients: Seq<F64>,
    intercept: u64,
    x: Seq<u64>,
    y: Seq<u64>,
    i: int,
    fl: FloatModel,
)
    requires
        0 <= i < x.len(),
        x.len() == y.len(),
    ensures
        squared_misses(coefficients, intercept, x, y, fl).len() == x.len(),
        squared_misses(coefficients, intercept, x, y, fl)[i] == (fl.gives)(
            FloatOp::Power,
            (fl.gives)(
                FloatOp::Minus,
                y[i],
                line_value(coefficients, intercept, x[i], fl),
            ),
            2,
        ),
        squared_distances(y, mean(y, fl), fl).len() == y.len(),
        squared_distances(y, mean(y, fl), fl)[i] == (fl.gives)(
            FloatOp::Power,
            (fl.gives)(FloatOp::Minus, y[i], mean(y, fl)),
            2,
        ),
{
}

/// The terms of a polynomial are its coefficients times the powers of their places; the
/// constant one has one in the first place and zero in the others.
pub proof fn a_polynomial_is_the_sum_of_its_terms(
    coefficients: Seq<F64>,
    x: u64,
    degree: usize,
    i: int,
    fl: FloatModel,
)
    requires
        0 <= i < coefficients.len(),
        degree < usize::MAX,
    ensures
        terms(coefficients, x, fl).len() == coefficients.len(),
        terms(coefficients, x, fl)[i] == (fl.gives)(
            FloatOp::Times,
            coefficients[i].bits,
            (fl.gives)(FloatOp::Power, x, i as u64),
        ),
        constant_one(degree).len() == degree + 1,
        constant_one(degree)[0].bits == ONE,
        0 < i <= degree ==> constant_one(degree)[i].bits == 0,
{
}

} // verus!
