//! What the operations on vectors give.

use vstd::prelude::*;
use crate::compute::vector_math::{
    cosine, dot_product, lane_sum, lanes, product, tail_sum, vector_norm,
};
use crate::float::{is_equal, FloatModel, FloatOp, F64};
use crate::optimizer::cost_model::ONE;

verus! {

/// Vectors are added and multiplied place by place, as far as both go.
pub proof fn lanes_go_place_by_place(
    a: Seq<F64>,
    b: Seq<F64>,
    op: FloatOp,
    i: int,
    fl: FloatModel,
)
    ensures
        ({
            let r = lanes(a, b, op, fl);
            &&& r.len() <= a.len() && r.len() <= b.len()
            &&& r.len() == a.len() || r.len() == b.len()
            &&& 0 <= i < r.len() ==> r[i].bits == (fl.gives)(op, a[i].bits, b[i].bits)
        }),
{
}

spec fn plus(x: u64, y: u64, fl: FloatModel) -> u64 {
    (fl.gives)(FloatOp::Plus, x, y)
}

/// The unit adds floats whatever their order and grouping, and zero changes nothing.
pub open spec fn adds_in_any_order(fl: FloatModel) -> bool {
    let plus = |x: u64, y: u64| (fl.gives)(FloatOp::Plus, x, y);
    &&& forall|x: u64, y: u64| #[trigger] plus(x, y) == plus(y, x)
    &&& forall|x: u64, y: u64, z: u64| #[trigger] plus(plus(x, y), z) == plus(x, plus(y, z))
    &&& forall|x: u64| #[trigger] plus(0, x) == x
}

/// The sum of the products of the first `n` places, one after the other.
pub open spec fn sum_of_products(a: Seq<F64>, b: Seq<F64>, n: int, fl: FloatModel) -> u64
    decreases n,
{
    if n <= 0 {
        0
    } else {
        (fl.gives)(
            FloatOp::Plus,
            sum_of_products(a, b, n - 1, fl),
            (fl.gives)(FloatOp::Times, a[n - 1].bits, b[n - 1].bits),
        )
    }
}

proof fn lemma_plus(x: u64, y: u64, z: u64, fl: FloatModel)
    requires
        adds_in_any_order(fl),
    ensures
        plus(x, y, fl) == plus(y, x, fl),
        plus(plus(x, y, fl), z, fl) == plus(x, plus(y, z, fl), fl),
        plus(0, x, fl) == x,
{
    let p = |x: u64, y: u64| (fl.gives)(FloatOp::Plus, x, y);
    assert(p(x, y) == p(y, x));
    assert(p(p(x, y), z) == p(x, p(y, z)));
    assert(p(0, x) == x);
}

/// A sum of four with one more added to each is the four with the ones behind them.
proof fn lemma_four_more(
    x: u64,
    y: u64,
    z: u64,
    w: u64,
    a: u64,
    b: u64,
    c: u64,
    d: u64,
    fl: FloatModel,
)
    requires
        adds_in_any_order(fl),
    ensures
        plus(
            plus(plus(x, a, fl), plus(y, b, fl), fl),
            plus(plus(z, c, fl), plus(w, d, fl), fl),
            fl,
        ) == plus(
            plus(plus(plus(plus(plus(x, y, fl), plus(z, w, fl), fl), a, fl), b, fl), c, fl),
            d,
            fl,
        ),
{
    lemma_two_more(x, y, a, b, fl);
    lemma_two_more(z, w, c, d, fl);
    let xy = plus(x, y, fl);
    let zw = plus(z, w, fl);
    let ab = plus(a, b, fl);
    let cd = plus(c, d, fl);
    lemma_two_more(xy, zw, ab, cd, fl);
    let all = plus(xy, zw, fl);
    lemma_plus(all, a, b, fl);
    lemma_plus(plus(all, ab, fl), c, d, fl);
    lemma_plus(all, ab, cd, fl);
}

/// Two sums with one more added to each are the two with the ones behind them.
proof fn lemma_two_more(x: u64, y: u64, a: u64, b: u64, fl: FloatModel)
    requires
        adds_in_any_order(fl),
    ensures
        plus(plus(x, a, fl), plus(y, b, fl), fl) == plus(plus(x, y, fl), plus(a, b, fl), fl),
{
    lemma_plus(x, a, plus(y, b, fl), fl);
    lemma_plus(a, y, b, fl);
    lemma_plus(y, a, b, fl);
    lemma_plus(x, y, plus(a, b, fl), fl);
}

proof fn lemma_fours(a: Seq<F64>, b: Seq<F64>, n: int, fl: FloatModel)
    requires
        adds_in_any_order(fl),
        0 <= n,
    ensures
        plus(
            plus(lane_sum(a, b, 0, n, fl), lane_sum(a, b, 1, n, fl), fl),
            plus(lane_sum(a, b, 2, n, fl), lane_sum(a, b, 3, n, fl), fl),
            fl,
        ) == sum_of_products(a, b, n * 4, fl),
    decreases n,
{
    if n > 0 {
        lemma_fours(a, b, n - 1, fl);
        let m = (n - 1) * 4;
        lemma_four_more(
            lane_sum(a, b, 0, n - 1, fl),
            lane_sum(a, b, 1, n - 1, fl),
            lane_sum(a, b, 2, n - 1, fl),
            lane_sum(a, b, 3, n - 1, fl),
            product(a, b, m, fl),
            product(a, b, m + 1, fl),
            product(a, b, m + 2, fl),
            product(a, b, m + 3, fl),
            fl,
        );
        let s = sum_of_products(a, b, m, fl);
        assert(sum_of_products(a, b, m + 1, fl) == plus(s, product(a, b, m, fl), fl));
        assert(sum_of_products(a, b, m + 2, fl) == plus(
            sum_of_products(a, b, m + 1, fl),
            product(a, b, m + 1, fl),
            fl,
        ));
        assert(sum_of_products(a, b, m + 3, fl) == plus(
            sum_of_products(a, b, m + 2, fl),
            product(a, b, m + 2, fl),
            fl,
        ));
        assert(sum_of_products(a, b, m + 4, fl) == plus(
            sum_of_products(a, b, m + 3, fl),
            product(a, b, m + 3, fl),
            fl,
        ));
        assert(n * 4 == m + 4);
    } else {
        lemma_plus(0, 0, 0, fl);
    }
}

proof fn lemma_tail(a: Seq<F64>, b: Seq<F64>, from: int, to: int, fl: FloatModel)
    requires
        0 <= from <= to,
    ensures
        tail_sum(a, b, sum_of_products(a, b, from, fl), from, to, fl) == sum_of_products(
            a,
            b,
            to,
            fl,
        ),
    decreases to - from,
{
    if from < to {
        lemma_tail(a, b, from, to - 1, fl);
    }
}

/// Where the order of adding makes no difference, the dot product is the sum of the
/// products of the places, as far as both vectors go.
pub proof fn a_dot_product_sums_the_products(a: Seq<F64>, b: Seq<F64>, fl: FloatModel)
    requires
        adds_in_any_order(fl),
    ensures
        dot_product(a, b, fl) == sum_of_products(
            a,
            b,
            if a.len() < b.len() { a.len() as int } else { b.len() as int },
            fl,
        ),
{
    let n = if a.len() < b.len() { a.len() as int } else { b.len() as int };
    lemma_fours(a, b, n / 4, fl);
    lemma_tail(a, b, (n / 4) * 4, n, fl);
}

proof fn lemma_products_commute(a: Seq<F64>, b: Seq<F64>, n: int, fl: FloatModel)
    requires
        forall|x: u64, y: u64|
            #![trigger (fl.gives)(FloatOp::Times, x, y)]
            (fl.gives)(FloatOp::Times, x, y) == (fl.gives)(FloatOp::Times, y, x),
    ensures
        sum_of_products(a, b, n, fl) == sum_of_products(b, a, n, fl),
    decreases n,
{
    if n > 0 {
        lemma_products_commute(a, b, n - 1, fl);
    }
}

/// The norm of a vector is the root of its product with itself. The cosine of two vectors
/// is their product divided by that of their norms, zero where one of the norms is; it does
/// not depend on which vector comes first, and that of a vector with itself is one.
pub proof fn a_cosine_is_the_product_over_the_norms(a: Seq<F64>, b: Seq<F64>, fl: FloatModel)
    requires
        adds_in_any_order(fl),
        forall|x: u64, y: u64|
            #![trigger (fl.gives)(FloatOp::Times, x, y)]
            (fl.gives)(FloatOp::Times, x, y) == (fl.gives)(FloatOp::Times, y, x),
    ensures
        vector_norm(a, fl) == (fl.gives)(FloatOp::SquareRoot, dot_product(a, a, fl), 0),
        is_equal(vector_norm(a, fl), 0) || is_equal(vector_norm(b, fl), 0) ==> cosine(a, b, fl)
            == 0,
        cosine(a, b, fl) == cosine(b, a, fl),
        ({
            let d = dot_product(a, a, fl);
            let r = vector_norm(a, fl);
            !is_equal(r, 0) && (fl.gives)(FloatOp::Times, r, r) == d && (fl.gives)(
                FloatOp::Over,
                d,
                d,
            ) == ONE ==> cosine(a, a, fl) == ONE
        }),
{
    a_dot_product_sums_the_products(a, b, fl);
    a_dot_product_sums_the_products(b, a, fl);
    let n = if a.len() < b.len() { a.len() as int } else { b.len() as int };
    lemma_products_commute(a, b, n, fl);
}

} // verus!
