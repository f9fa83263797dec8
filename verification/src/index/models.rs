//! Lines fitted to points.

use vstd::prelude::*;
use crate::float::{
    bits_of, is_less, magnitude, sum_floats, total, FloatModel, FloatOp, Floats, F64,
};

verus! {

/// A line by its slope and its value at zero.
#[derive(Clone, Copy, Debug, PartialEq, Eq, Structural)]
pub struct LinearModel {
    pub slope: F64,
    pub intercept: F64,
}

/// The value of a line at `x`.
pub open spec fn predicted(m: LinearModel, x: u64, fl: FloatModel) -> u64 {
    (fl.gives)(
        FloatOp::Plus,
        (fl.gives)(FloatOp::Times, m.slope.bits, x),
        m.intercept.bits,
    )
}

/// The mean of numbers.
pub open spec fn mean(v: Seq<u64>, fl: FloatModel) -> u64 {
    (fl.gives)(FloatOp::Over, total(v, fl), (fl.gives)(FloatOp::OfCount, v.len() as u64, 0))
}

/// The products of the deviations from the two means, place by place.
pub open spec fn deviation_products(
    x: Seq<u64>,
    mean_x: u64,
    y: Seq<u64>,
    mean_y: u64,
    fl: FloatModel,
) -> Seq<u64> {
    Seq::new(
        x.len(),
        |i: int|
            (fl.gives)(
                FloatOp::Times,
                (fl.gives)(FloatOp::Minus, x[i], mean_x),
                (fl.gives)(FloatOp::Minus, y[i], mean_y),
            ),
    )
}

/// The magnitude of a float, as a float.
pub open spec fn absolute(x: u64) -> u64 {
    magnitude(x) as u64
}

/// Below this variance no line is fitted.
pub const LEAST_VARIANCE: u64 = 0x3ddb_7cdf_d9d7_bdbb;

/// The line of least squares through points; `None` for fewer than two points,
/// lists of different lengths, or points that lie too close above one another.
pub open spec fn fitted(x: Seq<u64>, y: Seq<u64>, fl: FloatModel) -> Option<LinearModel> {
    if x.len() < 2 || x.len() != y.len() {
        None
    } else {
        let mx = mean(x, fl);
        let my = mean(y, fl);
        let numerator = total(deviation_products(x, mx, y, my, fl), fl);
        let denominator = total(deviation_products(x, mx, x, mx, fl), fl);
        if is_less(absolute(denominator), LEAST_VARIANCE) {
            None
        } else {
            let slope = (fl.gives)(FloatOp::Over, numerator, denominator);
            Some(
                LinearModel {
                    slope: F64 { bits: slope },
                    intercept: F64 {
                        bits: (fl.gives)(
                            FloatOp::Minus,
                            my,
                            (fl.gives)(FloatOp::Times, slope, mx),
                        ),
                    },
                },
            )
        }
    }
}

/// The mean of numbers.
pub fn mean_of<F: Floats>(v: &Vec<u64>, floats: &F) -> (r: u64)
    requires
        floats.sound(),
    ensures
        r == mean(v@, floats.model()),
{
    let sum = sum_floats(v, floats);
    let n = floats.apply(FloatOp::OfCount, v.len() as u64, 0);
    floats.apply(FloatOp::Over, sum, n)
}

/// The sum of the products of the deviations from two means.
pub fn sum_deviations<F: Floats>(
    x: &Vec<u64>,
    mean_x: u64,
    y: &Vec<u64>,
    mean_y: u64,
    floats: &F,
) -> (r: u64)
    requires
        floats.sound(),
        x@.len() == y@.len(),
    ensures
        r == total(deviation_products(x@, mean_x, y@, mean_y, floats.model()), floats.model()),
{
    let ghost whole = deviation_products(x@, mean_x, y@, mean_y, floats.model());
    let mut out: Vec<u64> = Vec::new();
    let mut i: usize = 0;
    while i < x.len()
        invariant
            i <= x@.len(),
            floats.sound(),
            x@.len() == y@.len(),
            whole == deviation_products(x@, mean_x, y@, mean_y, floats.model()),
            out@ == whole.take(i as int),
        decreases x@.len() - i,
    {
        let dx = floats.apply(FloatOp::Minus, x[i], mean_x);
        let dy = floats.apply(FloatOp::Minus, y[i], mean_y);
        out.push(floats.apply(FloatOp::Times, dx, dy));
        assert(out@ == whole.take(i + 1));
        i = i + 1;
    }
    assert(whole.take(i as int) == whole);
    sum_floats(&out, floats)
}

/// The bits of floats.
pub fn to_bits(v: &[F64]) -> (r: Vec<u64>)
    ensures
        r@ == bits_of(v@),
{
    let mut out: Vec<u64> = Vec::new();
    let mut i: usize = 0;
    while i < v.len()
        invariant
            i <= v@.len(),
            out@ == bits_of(v@).take(i as int),
        decreases v@.len() - i,
    {
        out.push(v[i].bits);
        assert(out@ == bits_of(v@).take(i + 1));
        i = i + 1;
    }
    assert(bits_of(v@).take(i as int) == bits_of(v@));
    out
}

impl LinearModel {
    /// The line with this slope and value at zero.
    pub fn new(slope: F64, intercept: F64) -> (r: Self)
        ensures
            r == (LinearModel { slope, intercept }),
    {
        LinearModel { slope, intercept }
    }

    /// The value of the line at `x`.
    pub fn predict<F: Floats>(&self, x: F64, floats: &F) -> (r: F64)
        requires
            floats.sound(),
        ensures
            r.bits == predicted(*self, x.bits, floats.model()),
    {
        let p = floats.apply(FloatOp::Times, self.slope.bits, x.bits);
        F64 { bits: floats.apply(FloatOp::Plus, p, self.intercept.bits) }
    }

    /// The line of least squares through points.
    pub fn fit<F: Floats>(x: &[F64], y: &[F64], floats: &F) -> (r: Option<Self>)
        requires
            floats.sound(),
        ensures
            r == fitted(bits_of(x@), bits_of(y@), floats.model()),
    {
        if x.len() < 2 || x.len() != y.len() {
            return None;
        }
        let xs = to_bits(x);
        let ys = to_bits(y);
        let mx = mean_of(&xs, floats);
        let my = mean_of(&ys, floats);
        let numerator = sum_deviations(&xs, mx, &ys, my, floats);
        let denominator = sum_deviations(&xs, mx, &xs, mx, floats);
        let size = F64 {
            bits: if denominator >= 0x8000_0000_0000_0000 {
                denominator - 0x8000_0000_0000_0000
            } else {
                denominator
            },
        };
        if size.less(F64 { bits: LEAST_VARIANCE }) {
            return None;
        }
        let slope = floats.apply(FloatOp::Over, numerator, denominator);
        let rise = floats.apply(FloatOp::Times, slope, mx);
        let intercept = floats.apply(FloatOp::Minus, my, rise);
        Some(LinearModel { slope: F64 { bits: slope }, intercept: F64 { bits: intercept } })
    }
}

} // verus!
