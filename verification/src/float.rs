//! Floats as bit patterns.
//!
//! Comparing two floats needs only their bits: the sign is the top bit, and
//! below it the bits order the magnitudes. Everything else that is done with
//! a float (reading it from text, printing it, arithmetic) is asked of a
//! [`FloatUnit`].

use vstd::prelude::*;

verus! {

/// A 64-bit float by its bit pattern.
#[derive(Clone, Copy, Debug, PartialEq, Eq, Structural)]
pub struct F64 {
    pub bits: u64,
}

pub open spec fn sign_bit() -> int {
    0x8000_0000_0000_0000
}

/// The bits of an infinite magnitude; every larger magnitude is not a number.
pub open spec fn infinite_magnitude() -> int {
    0x7ff0_0000_0000_0000
}

/// The bits below the sign.
pub open spec fn magnitude(bits: u64) -> int {
    if bits >= sign_bit() { bits - sign_bit() } else { bits as int }
}

pub open spec fn not_a_number(bits: u64) -> bool {
    magnitude(bits) > infinite_magnitude()
}

/// An integer that orders as the float does. The two zeros share one place.
pub open spec fn rank(bits: u64) -> int {
    if bits >= sign_bit() { -magnitude(bits) } else { magnitude(bits) }
}

/// An integer that orders all bit patterns: the two zeros are kept apart, and
/// what is not a number stands beyond the infinities, on the side of its sign.
pub open spec fn total_rank(bits: u64) -> int {
    if bits >= sign_bit() { -magnitude(bits) - 1 } else { magnitude(bits) }
}

/// How one value stands to another.
#[derive(Clone, Copy, Debug, PartialEq, Eq, Structural)]
pub enum Order {
    Less,
    Equal,
    Greater,
}

/// The order of two integers.
pub open spec fn int_order(a: int, b: int) -> Order {
    if a < b { Order::Less } else if a == b { Order::Equal } else { Order::Greater }
}

/// How two floats compare; `None` where either is not a number.
pub open spec fn float_order(a: u64, b: u64) -> Option<Order> {
    if not_a_number(a) || not_a_number(b) { None } else { Some(int_order(rank(a), rank(b))) }
}

impl Order {
    /// The opposite order.
    pub open spec fn flipped(self) -> Order {
        match self {
            Order::Less => Order::Greater,
            Order::Equal => Order::Equal,
            Order::Greater => Order::Less,
        }
    }

    /// The opposite order.
    pub fn reverse(self) -> (r: Order)
        ensures
            r == self.flipped(),
    {
        match self {
            Order::Less => Order::Greater,
            Order::Equal => Order::Equal,
            Order::Greater => Order::Less,
        }
    }
}

/// The order of two 64-bit integers.
pub fn order_integers(a: i64, b: i64) -> (r: Order)
    ensures
        r == int_order(a as int, b as int),
{
    if a < b { Order::Less } else if a == b { Order::Equal } else { Order::Greater }
}

impl F64 {
    fn magnitude_bits(self) -> (r: u64)
        ensures
            r == magnitude(self.bits),
            r <= 0x7fff_ffff_ffff_ffff,
    {
        if self.bits >= 0x8000_0000_0000_0000 {
            self.bits - 0x8000_0000_0000_0000
        } else {
            self.bits
        }
    }

    /// Whether this is not a number.
    pub fn is_nan(self) -> (r: bool)
        ensures
            r == not_a_number(self.bits),
    {
        self.magnitude_bits() > 0x7ff0_0000_0000_0000
    }

    /// How two floats compare; `None` where either is not a number.
    pub fn order(self, other: F64) -> (r: Option<Order>)
        ensures
            r == float_order(self.bits, other.bits),
    {
        if self.is_nan() || other.is_nan() {
            return None;
        }
        let a: i64 = self.magnitude_bits() as i64;
        let b: i64 = other.magnitude_bits() as i64;
        let x: i64 = if self.bits >= 0x8000_0000_0000_0000 { -a } else { a };
        let y: i64 = if other.bits >= 0x8000_0000_0000_0000 { -b } else { b };
        Some(order_integers(x, y))
    }

    /// How two bit patterns stand to each other in the total order.
    pub fn total_order(self, other: F64) -> (r: Order)
        ensures
            r == int_order(total_rank(self.bits), total_rank(other.bits)),
    {
        let a: i64 = self.magnitude_bits() as i64;
        let b: i64 = other.magnitude_bits() as i64;
        let x: i64 = if self.bits >= 0x8000_0000_0000_0000 { -a - 1 } else { a };
        let y: i64 = if other.bits >= 0x8000_0000_0000_0000 { -b - 1 } else { b };
        order_integers(x, y)
    }
}

/// `a` is less than `b`.
pub open spec fn is_less(a: u64, b: u64) -> bool {
    float_order(a, b) == Some(Order::Less)
}

/// `a` is less than `b` or equal to it.
pub open spec fn is_at_most(a: u64, b: u64) -> bool {
    float_order(a, b) == Some(Order::Less) || float_order(a, b) == Some(Order::Equal)
}

/// `a` and `b` are the same number.
pub open spec fn is_equal(a: u64, b: u64) -> bool {
    float_order(a, b) == Some(Order::Equal)
}

/// Neither infinite nor not a number.
pub open spec fn is_finite(a: u64) -> bool {
    magnitude(a) < infinite_magnitude()
}

/// The lesser of two floats; where one is not a number, the other.
pub open spec fn lesser(a: u64, b: u64) -> u64 {
    if not_a_number(a) {
        b
    } else if is_less(b, a) {
        b
    } else {
        a
    }
}

/// The greater of two floats; where one is not a number, the other.
pub open spec fn greater(a: u64, b: u64) -> u64 {
    if not_a_number(a) {
        b
    } else if is_less(a, b) {
        b
    } else {
        a
    }
}

/// The bits of positive infinity.
pub const INFINITY: u64 = 0x7ff0_0000_0000_0000;

/// The bits of negative infinity.
pub const NEGATIVE_INFINITY: u64 = 0xfff0_0000_0000_0000;

impl F64 {
    /// Whether this is less than `other`.
    pub fn less(self, other: F64) -> (r: bool)
        ensures
            r == is_less(self.bits, other.bits),
    {
        match self.order(other) {
            Some(Order::Less) => true,
            _ => false,
        }
    }

    /// Whether this is less than `other` or equal to it.
    pub fn at_most(self, other: F64) -> (r: bool)
        ensures
            r == is_at_most(self.bits, other.bits),
    {
        match self.order(other) {
            Some(Order::Less) => true,
            Some(Order::Equal) => true,
            _ => false,
        }
    }

    /// Whether this and `other` are the same number.
    pub fn same_number(self, other: F64) -> (r: bool)
        ensures
            r == is_equal(self.bits, other.bits),
    {
        match self.order(other) {
            Some(Order::Equal) => true,
            _ => false,
        }
    }

    /// Whether this is neither infinite nor not a number.
    pub fn finite(self) -> (r: bool)
        ensures
            r == is_finite(self.bits),
    {
        self.magnitude_bits() < 0x7ff0_0000_0000_0000
    }

    /// The lesser of two floats.
    pub fn min(self, other: F64) -> (r: F64)
        ensures
            r.bits == lesser(self.bits, other.bits),
    {
        if self.is_nan() || other.less(self) {
            other
        } else {
            self
        }
    }

    /// The greater of two floats.
    pub fn max(self, other: F64) -> (r: F64)
        ensures
            r.bits == greater(self.bits, other.bits),
    {
        if self.is_nan() || self.less(other) {
            other
        } else {
            self
        }
    }
}

/// The bits of a list of floats.
pub open spec fn bits_of(v: Seq<F64>) -> Seq<u64> {
    v.map_values(|x: F64| x.bits)
}

/// The sum of floats, added from the first to the last.
pub open spec fn total(v: Seq<u64>, fl: FloatModel) -> u64
    decreases v.len(),
{
    if v.len() == 0 {
        0
    } else if v.len() == 1 {
        v[0]
    } else {
        (fl.gives)(FloatOp::Plus, total(v.drop_last(), fl), v.last())
    }
}

/// The sum of floats, added from the first to the last.
pub fn sum_floats<F: Floats>(v: &Vec<u64>, floats: &F) -> (r: u64)
    requires
        floats.sound(),
    ensures
        r == total(v@, floats.model()),
{
    if v.len() == 0 {
        return 0;
    }
    let mut acc: u64 = v[0];
    let mut i: usize = 1;
    assert(v@.take(1) == seq![v@[0]]);
    while i < v.len()
        invariant
            1 <= i <= v@.len(),
            floats.sound(),
            acc == total(v@.take(i as int), floats.model()),
        decreases v@.len() - i,
    {
        assert(v@.take(i + 1).drop_last() == v@.take(i as int));
        acc = floats.apply(FloatOp::Plus, acc, v[i]);
        i = i + 1;
    }
    assert(v@.take(i as int) == v@);
    acc
}

/// In the total order only equal bit patterns are equal.
pub proof fn total_order_tells_patterns_apart(a: u64, b: u64)
    ensures
        total_rank(a) == total_rank(b) <==> a == b,
{
}

/// In the total order a lesser number comes first, the negative zero before the other,
/// and what is not a number beyond all that are, on the side of its sign.
pub proof fn total_order_extends_the_order(a: u64, b: u64)
    ensures
        is_less(a, b) ==> total_rank(a) < total_rank(b),
        total_rank(0x8000_0000_0000_0000) < total_rank(0),
        b > 0xfff0_0000_0000_0000 && !not_a_number(a) ==> total_rank(b) < total_rank(a),
        0x7ff0_0000_0000_0000 < b < 0x8000_0000_0000_0000 && !not_a_number(a) ==> total_rank(a)
            < total_rank(b),
{
}

/// Two floats without a sign compare as their patterns do, as integers. A sign turns the
/// order of two floats around, and a float with one is below a float without one, except
/// that the two zeros are one number. Patterns beyond infinity are no numbers, and compare
/// with nothing.
pub proof fn floats_compare_by_sign_and_magnitude(a: u64, b: u64)
    requires
        a < 0x8000_0000_0000_0000,
        b < 0x8000_0000_0000_0000,
    ensures
        ({
            let minus_a = (a + 0x8000_0000_0000_0000) as u64;
            let minus_b = (b + 0x8000_0000_0000_0000) as u64;
            let numbers = a <= 0x7ff0_0000_0000_0000 && b <= 0x7ff0_0000_0000_0000;
            &&& not_a_number(a) <==> a > 0x7ff0_0000_0000_0000
            &&& not_a_number(minus_a) <==> a > 0x7ff0_0000_0000_0000
            &&& is_finite(a) <==> a < 0x7ff0_0000_0000_0000
            &&& is_finite(minus_a) <==> a < 0x7ff0_0000_0000_0000
            &&& is_less(a, b) <==> numbers && a < b
            &&& is_less(minus_a, minus_b) <==> numbers && b < a
            &&& is_less(minus_a, b) <==> numbers && (a, b) != (0u64, 0u64)
            &&& !is_less(a, minus_b)
            &&& is_equal(a, b) <==> numbers && a == b
            &&& is_equal(minus_a, minus_b) <==> numbers && a == b
            &&& is_equal(minus_a, b) <==> numbers && a == 0 && b == 0
            &&& is_equal(a, minus_b) <==> numbers && a == 0 && b == 0
        }),
{
}

/// Of two numbers exactly one holds: the first is less, the second is less, or they are
/// equal. Being at most another is being less or equal.
pub proof fn floats_are_ordered(a: u64, b: u64)
    ensures
        (float_order(a, b) == Some(Order::Less)) <==> is_less(a, b),
        (float_order(a, b) == Some(Order::Equal)) <==> is_equal(a, b),
        (float_order(a, b) == Some(Order::Greater)) <==> is_less(b, a),
        float_order(a, b) is None <==> not_a_number(a) || not_a_number(b),
        is_at_most(a, b) <==> is_less(a, b) || is_equal(a, b),
        is_less(a, b) ==> !is_less(b, a) && !is_equal(a, b),
        is_equal(a, b) <==> is_equal(b, a),
        !not_a_number(a) ==> is_equal(a, a),
{
}

/// The lesser of two numbers is one of them, and at most either; the greater is one of
/// them, and at least either. Where only one of the two is a number, it is both.
pub proof fn the_lesser_and_the_greater_are_one_of_both(a: u64, b: u64)
    ensures
        !not_a_number(a) && !not_a_number(b) ==> {
            &&& lesser(a, b) == a || lesser(a, b) == b
            &&& is_at_most(lesser(a, b), a) && is_at_most(lesser(a, b), b)
            &&& greater(a, b) == a || greater(a, b) == b
            &&& is_at_most(a, greater(a, b)) && is_at_most(b, greater(a, b))
        },
        not_a_number(a) ==> lesser(a, b) == b && greater(a, b) == b,
        not_a_number(b) && !not_a_number(a) ==> lesser(a, b) == a && greater(a, b) == a,
{
}

/// The sum of one float is that float, and a float more is added to the sum of the rest.
pub proof fn a_sum_takes_in_one_float_more(v: Seq<u64>, x: u64, fl: FloatModel)
    ensures
        total(seq![x], fl) == x,
        v.len() > 0 ==> total(v.push(x), fl) == (fl.gives)(FloatOp::Plus, total(v, fl), x),
{
    assert(v.push(x).drop_last() =~= v);
}

/// An operation on floats. Operands and results are bit patterns, but for
/// `OfInteger`, whose first operand is a signed integer in two's complement,
/// `OfCount`, whose first operand is a count, `Power`, whose second operand is
/// one, and `ToCount`, whose result is one. The operations of one operand
/// ignore the second.
#[derive(Clone, Copy, Debug, PartialEq, Eq, Structural)]
pub enum FloatOp {
    Plus,
    Minus,
    Times,
    Over,
    SquareRoot,
    Ceiling,
    Power,
    OfInteger,
    OfCount,
    ToCount,
}

/// What a float unit answers, as functions.
pub struct FloatModel {
    /// The float that a text reads as.
    pub reads: spec_fn(Seq<char>) -> Option<u64>,
    /// The text that a float prints as.
    pub shows: spec_fn(u64) -> Seq<char>,
    /// The result of an operation.
    pub gives: spec_fn(FloatOp, u64, u64) -> u64,
}

/// The machine's floating point, handed in by the caller: how a text reads,
/// how a float prints, and what an operation gives.
pub struct FloatUnit<R, S, A> {
    pub read: R,
    pub show: S,
    pub compute: A,
}

/// Something that answers questions on floats, each always in the same way.
pub trait Floats {
    /// The answers can be relied on: every question has one, and only one.
    spec fn sound(&self) -> bool;

    /// The answers as functions.
    spec fn model(&self) -> FloatModel;

    /// The float that `s` reads as.
    fn read_float(&self, s: &str) -> (r: Option<F64>)
        requires
            self.sound(),
        ensures
            match r {
                Some(x) => (self.model().reads)(s@) == Some(x.bits),
                None => (self.model().reads)(s@) is None,
            },
    ;

    /// The text that `x` prints as.
    fn show_float(&self, x: F64) -> (r: String)
        requires
            self.sound(),
        ensures
            r@ == (self.model().shows)(x.bits),
    ;

    /// The result of an operation on two bit patterns.
    fn apply(&self, op: FloatOp, x: u64, y: u64) -> (r: u64)
        requires
            self.sound(),
        ensures
            r == (self.model().gives)(op, x, y),
            op == FloatOp::OfCount ==> !not_a_number(r),
    ;
}

impl<
    R: Fn(&str) -> Option<u64>,
    S: Fn(u64) -> String,
    A: Fn(FloatOp, u64, u64) -> u64,
> FloatUnit<R, S, A> {
    pub open spec fn may_read(&self, text: Seq<char>, r: Option<u64>) -> bool {
        exists|s: &str| s@ == text && #[trigger] self.read.ensures((s,), r)
    }

    pub open spec fn may_show(&self, x: u64, text: Seq<char>) -> bool {
        exists|s: String| s@ == text && #[trigger] self.show.ensures((x,), s)
    }
}

impl<
    R: Fn(&str) -> Option<u64>,
    S: Fn(u64) -> String,
    A: Fn(FloatOp, u64, u64) -> u64,
> Floats for FloatUnit<R, S, A> {
    /// Each of the three functions answers every question, and the same
    /// question always alike; a count is turned into a number.
    open spec fn sound(&self) -> bool {
        &&& forall|s: &str| #[trigger] self.read.requires((s,))
        &&& forall|s: &str, t: &str, a: Option<u64>, b: Option<u64>| #[trigger]
            self.read.ensures((s,), a) && #[trigger] self.read.ensures((t,), b) && s@ == t@ ==> a
                == b
        &&& forall|x: u64| #[trigger] self.show.requires((x,))
        &&& forall|x: u64, a: String, b: String| #[trigger]
            self.show.ensures((x,), a) && #[trigger] self.show.ensures((x,), b) ==> a@ == b@
        &&& forall|op: FloatOp, x: u64, y: u64| #[trigger] self.compute.requires((op, x, y))
        &&& forall|op: FloatOp, x: u64, y: u64, a: u64, b: u64| #[trigger]
            self.compute.ensures((op, x, y), a) && #[trigger] self.compute.ensures((op, x, y), b)
                ==> a == b
        &&& forall|x: u64, y: u64, a: u64| #[trigger]
            self.compute.ensures((FloatOp::OfCount, x, y), a) ==> !not_a_number(a)
    }

    open spec fn model(&self) -> FloatModel {
        FloatModel {
            reads: |text: Seq<char>| choose|r: Option<u64>| self.may_read(text, r),
            shows: |x: u64| choose|text: Seq<char>| self.may_show(x, text),
            gives: |op: FloatOp, x: u64, y: u64|
                choose|r: u64| self.compute.ensures((op, x, y), r),
        }
    }

    fn read_float(&self, s: &str) -> (r: Option<F64>) {
        let r = (self.read)(s);
        assert(self.read.ensures((s,), r));
        assert(self.may_read(s@, r));
        match r {
            Some(bits) => Some(F64 { bits }),
            None => None,
        }
    }

    fn show_float(&self, x: F64) -> (r: String) {
        let r = (self.show)(x.bits);
        assert(self.show.ensures((x.bits,), r));
        assert(self.may_show(x.bits, r@));
        r
    }

    fn apply(&self, op: FloatOp, x: u64, y: u64) -> (r: u64) {
        (self.compute)(op, x, y)
    }
}

} // verus!
