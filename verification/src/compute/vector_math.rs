//! Arithmetic on lists of floats, place by place.

use vstd::prelude::*;
use crate::compute::simd_ops::shorter;
use crate::float::{is_equal, FloatModel, FloatOp, Floats, F64};

verus! {

/// Arithmetic on lists of floats.
pub struct VectorOps;

/// The results of an operation at each place, up to the end of the shorter
/// list.
pub open spec fn lanes(a: Seq<F64>, b: Seq<F64>, op: FloatOp, fl: FloatModel) -> Seq<F64> {
    Seq::new(
        shorter(a.len() as int, b.len() as int) as nat,
        |i: int| F64 { bits: (fl.gives)(op, a[i].bits, b[i].bits) },
    )
}

/// The product at place `i`.
pub open spec fn product(a: Seq<F64>, b: Seq<F64>, i: int, fl: FloatModel) -> u64 {
    (fl.gives)(FloatOp::Times, a[i].bits, b[i].bits)
}

/// The sum of the products at every fourth place, from `lane` on, over the
/// first `n` fours.
pub open spec fn lane_sum(a: Seq<F64>, b: Seq<F64>, lane: int, n: int, fl: FloatModel) -> u64
    decreases n,
{
    if n <= 0 {
        0
    } else {
        (fl.gives)(
            FloatOp::Plus,
            lane_sum(a, b, lane, n - 1, fl),
            product(a, b, (n - 1) * 4 + lane, fl),
        )
    }
}

/// `start` and the products at the places `from..to`, added one by one.
pub open spec fn tail_sum(
    a: Seq<F64>,
    b: Seq<F64>,
    start: u64,
    from: int,
    to: int,
    fl: FloatModel,
) -> u64
    decreases to - from,
{
    if from >= to {
        start
    } else {
        (fl.gives)(
            FloatOp::Plus,
            tail_sum(a, b, start, from, to - 1, fl),
            product(a, b, to - 1, fl),
        )
    }
}

/// The dot product: four sums over the full fours, added in pairs, and then
/// the rest.
pub open spec fn dot_product(a: Seq<F64>, b: Seq<F64>, fl: FloatModel) -> u64 {
    let n = shorter(a.len() as int, b.len() as int);
    let fours = n / 4;
    let head = (fl.gives)(
        FloatOp::Plus,
        (fl.gives)(
            FloatOp::Plus,
            lane_sum(a, b, 0, fours, fl),
            lane_sum(a, b, 1, fours, fl),
        ),
        (fl.gives)(
            FloatOp::Plus,
            lane_sum(a, b, 2, fours, fl),
            lane_sum(a, b, 3, fours, fl),
        ),
    );
    tail_sum(a, b, head, fours * 4, n, fl)
}

/// The length of a vector.
pub open spec fn vector_norm(v: Seq<F64>, fl: FloatModel) -> u64 {
    (fl.gives)(FloatOp::SquareRoot, dot_product(v, v, fl), 0)
}

/// The cosine of the angle between two vectors; zero where one has no length.
pub open spec fn cosine(a: Seq<F64>, b: Seq<F64>, fl: FloatModel) -> u64 {
    let x = vector_norm(a, fl);
    let y = vector_norm(b, fl);
    if is_equal(x, 0) || is_equal(y, 0) {
        0
    } else {
        (fl.gives)(FloatOp::Over, dot_product(a, b, fl), (fl.gives)(FloatOp::Times, x, y))
    }
}

impl VectorOps {
    fn each<F: Floats>(a: &[F64], b: &[F64], op: FloatOp, floats: &F) -> (r: Vec<F64>)
        requires
            floats.sound(),
        ensures
            r@ == lanes(a@, b@, op, floats.model()),
    {
        let n: usize = if a.len() < b.len() { a.len() } else { b.len() };
        let ghost whole = lanes(a@, b@, op, floats.model());
        let mut out: Vec<F64> = Vec::new();
        let mut i: usize = 0;
        while i < n
            invariant
                i <= n,
                floats.sound(),
                n == shorter(a@.len() as int, b@.len() as int),
                whole == lanes(a@, b@, op, floats.model()),
                out@ == whole.take(i as int),
            decreases n - i,
        {
            out.push(F64 { bits: floats.apply(op, a[i].bits, b[i].bits) });
            assert(out@ == whole.take(i + 1));
            i = i + 1;
        }
        assert(whole.take(n as int) == whole);
        out
    }

    /// The sums at each place.
    pub fn add<F: Floats>(a: &[F64], b: &[F64], floats: &F) -> (r: Vec<F64>)
        requires
            floats.sound(),
        ensures
            r@ == lanes(a@, b@, FloatOp::Plus, floats.model()),
    {
        Self::each(a, b, FloatOp::Plus, floats)
    }

    /// The products at each place.
    pub fn multiply<F: Floats>(a: &[F64], b: &[F64], floats: &F) -> (r: Vec<F64>)
        requires
            floats.sound(),
        ensures
            r@ == lanes(a@, b@, FloatOp::Times, floats.model()),
    {
        Self::each(a, b, FloatOp::Times, floats)
    }

    fn sum_lane<F: Floats>(a: &[F64], b: &[F64], lane: usize, fours: usize, floats: &F) -> (r: u64)
        requires
            floats.sound(),
            lane < 4,
            fours * 4 <= a@.len(),
            fours * 4 <= b@.len(),
        ensures
            r == lane_sum(a@, b@, lane as int, fours as int, floats.model()),
    {
        let len: usize = a.len();
        let mut acc: u64 = 0;
        let mut i: usize = 0;
        while i < fours
            invariant
                i <= fours,
                fours * 4 <= len,
                floats.sound(),
                lane < 4,
                fours * 4 <= a@.len(),
                fours * 4 <= b@.len(),
                acc == lane_sum(a@, b@, lane as int, i as int, floats.model()),
            decreases fours - i,
        {
            let at: usize = i * 4 + lane;
            let p = floats.apply(FloatOp::Times, a[at].bits, b[at].bits);
            acc = floats.apply(FloatOp::Plus, acc, p);
            i = i + 1;
        }
        acc
    }

    /// The dot product.
    pub fn dot<F: Floats>(a: &[F64], b: &[F64], floats: &F) -> (r: F64)
        requires
            floats.sound(),
        ensures
            r.bits == dot_product(a@, b@, floats.model()),
    {
        let n: usize = if a.len() < b.len() { a.len() } else { b.len() };
        let fours: usize = n / 4;
        let s0 = Self::sum_lane(a, b, 0, fours, floats);
        let s1 = Self::sum_lane(a, b, 1, fours, floats);
        let s2 = Self::sum_lane(a, b, 2, fours, floats);
        let s3 = Self::sum_lane(a, b, 3, fours, floats);
        let x = floats.apply(FloatOp::Plus, s0, s1);
        let y = floats.apply(FloatOp::Plus, s2, s3);
        let head = floats.apply(FloatOp::Plus, x, y);
        let mut acc: u64 = head;
        let mut i: usize = fours * 4;
        while i < n
            invariant
                fours * 4 <= i <= n,
                floats.sound(),
                n <= a@.len(),
                n <= b@.len(),
                acc == tail_sum(a@, b@, head, fours * 4, i as int, floats.model()),
            decreases n - i,
        {
            let p = floats.apply(FloatOp::Times, a[i].bits, b[i].bits);
            acc = floats.apply(FloatOp::Plus, acc, p);
            i = i + 1;
        }
        F64 { bits: acc }
    }

    /// The length of a vector.
    pub fn norm<F: Floats>(v: &[F64], floats: &F) -> (r: F64)
        requires
            floats.sound(),
        ensures
            r.bits == vector_norm(v@, floats.model()),
    {
        let d = Self::dot(v, v, floats);
        F64 { bits: floats.apply(FloatOp::SquareRoot, d.bits, 0) }
    }

    /// The cosine of the angle between two vectors; zero where one has no
    /// length.
    pub fn cosine_similarity<F: Floats>(a: &[F64], b: &[F64], floats: &F) -> (r: F64)
        requires
            floats.sound(),
        ensures
            r.bits == cosine(a@, b@, floats.model()),
    {
        let zero = F64 { bits: 0 };
        let d = Self::dot(a, b, floats);
        let x = Self::norm(a, floats);
        let y = Self::norm(b, floats);
        if x.same_number(zero) || y.same_number(zero) {
            zero
        } else {
            let xy = floats.apply(FloatOp::Times, x.bits, y.bits);
            F64 { bits: floats.apply(FloatOp::Over, d.bits, xy) }
        }
    }
}

} // verus!
