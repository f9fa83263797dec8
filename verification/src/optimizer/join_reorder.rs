//! In which order to join.
//!
//! A join can run once every table that its condition names has been joined.
//! Among the orders that respect this the cheapest is taken; where a condition
//! does not tell which tables it needs, the joins stay in the order in which
//! they were written.

use vstd::prelude::*;
use crate::execution::row_codec::tokens::{split_comparison, tokens_of};
use crate::float::{is_less, FloatModel, FloatOp, Floats, F64};
use crate::optimizer::cost_model::{
    operator_cost, unit_costs, CostModel, OperatorCost, OperatorType, ONE,
};
use crate::sql::parser::{join_models, JoinClause, JoinModel};
use crate::text::{chars_of, same, slice_text};

verus! {

/// What is known of the sizes of tables, as functions of the name by which a
/// query calls a table.
pub struct SizeModel {
    /// The number of rows of a table.
    pub rows: spec_fn(Seq<char>) -> usize,
    /// The number of different values of a column, where it is known.
    pub distinct: spec_fn(Seq<char>, Seq<char>) -> Option<usize>,
}

/// Something that knows the sizes of tables, and always answers alike.
pub trait TableSizes {
    /// The answers can be relied on: every question has one, and only one.
    spec fn steady(&self) -> bool;

    /// The answers as functions.
    spec fn sizes(&self) -> SizeModel;

    /// The number of rows of a table.
    fn row_count(&self, qualifier: &str) -> (r: usize)
        requires
            self.steady(),
        ensures
            r == (self.sizes().rows)(qualifier@),
    ;

    /// The number of different values of a column, where it is known.
    fn distinct_count(&self, qualifier: &str, column: &str) -> (r: Option<usize>)
        requires
            self.steady(),
        ensures
            r == (self.sizes().distinct)(qualifier@, column@),
    ;
}

/// The sizes of tables as two functions of the caller.
pub struct SizeUnit<R, D> {
    pub row_count_of: R,
    pub distinct_count_of: D,
}

impl<R: Fn(&str) -> usize, D: Fn(&str, &str) -> Option<usize>> SizeUnit<R, D> {
    pub open spec fn may_count(&self, q: Seq<char>, r: usize) -> bool {
        exists|s: &str| s@ == q && #[trigger] self.row_count_of.ensures((s,), r)
    }

    pub open spec fn may_tell_apart(&self, q: Seq<char>, c: Seq<char>, r: Option<usize>) -> bool {
        exists|s: &str, t: &str|
            s@ == q && t@ == c && #[trigger] self.distinct_count_of.ensures((s, t), r)
    }
}

impl<R: Fn(&str) -> usize, D: Fn(&str, &str) -> Option<usize>> TableSizes for SizeUnit<R, D> {
    open spec fn steady(&self) -> bool {
        &&& forall|s: &str| #[trigger] self.row_count_of.requires((s,))
        &&& forall|s: &str, t: &str, a: usize, b: usize| #[trigger]
            self.row_count_of.ensures((s,), a) && #[trigger] self.row_count_of.ensures((t,), b)
                && s@ == t@ ==> a == b
        &&& forall|s: &str, c: &str| #[trigger] self.distinct_count_of.requires((s, c))
        &&& forall|s: &str, c: &str, t: &str, d: &str, a: Option<usize>, b: Option<usize>|
            #[trigger] self.distinct_count_of.ensures((s, c), a)
                && #[trigger] self.distinct_count_of.ensures((t, d), b) && s@ == t@ && c@ == d@
                ==> a == b
    }

    open spec fn sizes(&self) -> SizeModel {
        SizeModel {
            rows: |q: Seq<char>| choose|r: usize| self.may_count(q, r),
            distinct: |q: Seq<char>, c: Seq<char>|
                choose|r: Option<usize>| self.may_tell_apart(q, c, r),
        }
    }

    fn row_count(&self, qualifier: &str) -> (r: usize) {
        let r: usize = (self.row_count_of)(qualifier);
        assert(self.row_count_of.ensures((qualifier,), r));
        assert(self.may_count(qualifier@, r));
        r
    }

    fn distinct_count(&self, qualifier: &str, column: &str) -> (r: Option<usize>) {
        let r = (self.distinct_count_of)(qualifier, column);
        assert(self.distinct_count_of.ensures((qualifier, column), r));
        assert(self.may_tell_apart(qualifier@, column@, r));
        r
    }
}

/// A join at its place in the order: which of the joins as written it is, and
/// how many rows it is expected to read and to yield.
#[derive(Clone, Copy, Debug, PartialEq, Eq, Structural)]
pub struct PlannedJoin {
    pub join_index: usize,
    pub left_rows: usize,
    pub right_rows: usize,
    pub output_rows: usize,
}

/// What the condition of a join says on its order.
#[derive(Debug)]
enum JoinShape {
    /// There is no condition: every pair of rows is joined.
    Cross,
    /// A column of the joined table is compared with a column of another, which
    /// must have been joined before.
    Compare {
        op: String,
        own_column: String,
        existing_qualifier: String,
        existing_column: String,
    },
    /// Anything else.
    Unresolvable,
}

/// What the condition of a join says on its order, as contracts speak of it.
pub enum ShapeModel {
    Cross,
    Compare {
        op: Seq<char>,
        own_column: Seq<char>,
        existing_qualifier: Seq<char>,
        existing_column: Seq<char>,
    },
    Unresolvable,
}

impl View for JoinShape {
    type V = ShapeModel;

    closed spec fn view(&self) -> ShapeModel {
        match *self {
            JoinShape::Cross => ShapeModel::Cross,
            JoinShape::Compare { op, own_column, existing_qualifier, existing_column } => {
                ShapeModel::Compare {
                    op: op@,
                    own_column: own_column@,
                    existing_qualifier: existing_qualifier@,
                    existing_column: existing_column@,
                }
            },
            JoinShape::Unresolvable => ShapeModel::Unresolvable,
        }
    }
}

/// The name by which a query calls a joined table.
pub open spec fn qualifier(j: JoinModel) -> Seq<char> {
    match j.alias {
        Some(a) => a,
        None => j.table,
    }
}

/// The place of the first dot at or after `i`; the length where there is none.
pub open spec fn first_dot(s: Seq<char>, i: int) -> int
    decreases s.len() - i,
{
    if i < 0 || i >= s.len() || s[i] == '.' {
        if i > s.len() {
            s.len() as int
        } else {
            i
        }
    } else {
        first_dot(s, i + 1)
    }
}

/// The two parts of a column that is written with its table.
pub open spec fn dotted(s: Seq<char>) -> Option<(Seq<char>, Seq<char>)> {
    let i = first_dot(s, 0);
    if i < s.len() {
        Some((s.take(i), s.skip(i + 1)))
    } else {
        None
    }
}

/// What the condition of a join says on its order.
pub open spec fn shape_of(own: Seq<char>, condition: Option<Seq<char>>) -> ShapeModel {
    match condition {
        None => ShapeModel::Cross,
        Some(text) => {
            let t = tokens_of(text);
            if t.len() != 3 {
                ShapeModel::Unresolvable
            } else {
                match (dotted(t[0]), dotted(t[2])) {
                    (Some(l), Some(r)) => if l.0 == own && r.0 != own {
                        ShapeModel::Compare {
                            op: t[1],
                            own_column: l.1,
                            existing_qualifier: r.0,
                            existing_column: r.1,
                        }
                    } else if l.0 != own && r.0 == own {
                        ShapeModel::Compare {
                            op: t[1],
                            own_column: r.1,
                            existing_qualifier: l.0,
                            existing_column: l.1,
                        }
                    } else {
                        ShapeModel::Unresolvable
                    },
                    _ => ShapeModel::Unresolvable,
                }
            }
        },
    }
}

/// What the conditions of some joins say on their order.
pub open spec fn shapes_of(joins: Seq<JoinModel>) -> Seq<ShapeModel> {
    joins.map_values(|j: JoinModel| shape_of(qualifier(j), j.condition))
}

/// What the order of joins is chosen by.
pub struct JoinProblem {
    pub from: Seq<char>,
    pub from_rows: usize,
    pub joins: Seq<JoinModel>,
    pub sizes: SizeModel,
    pub selectivity: u64,
    pub costs: CostModel,
    pub floats: FloatModel,
}

/// The rows that a join is expected to yield where a share of all pairs is kept.
pub open spec fn share_of_pairs(left: usize, right: usize, s: u64, fl: FloatModel) -> usize {
    (fl.gives)(
        FloatOp::ToCount,
        (fl.gives)(FloatOp::Times, all_pairs(left, right, fl), s),
        0,
    ) as usize
}

/// The number of pairs, as a float.
pub open spec fn all_pairs(left: usize, right: usize, fl: FloatModel) -> u64 {
    (fl.gives)(
        FloatOp::Times,
        (fl.gives)(FloatOp::OfCount, left as u64, 0),
        (fl.gives)(FloatOp::OfCount, right as u64, 0),
    )
}

/// The rows that a join on equal columns is expected to yield: with the numbers
/// of different values known, each value of the one side is taken to occur among
/// those of the other.
pub open spec fn equal_pairs(
    left: usize,
    right: usize,
    left_distinct: Option<usize>,
    right_distinct: Option<usize>,
    s: u64,
    fl: FloatModel,
) -> usize {
    match (left_distinct, right_distinct) {
        (Some(l), Some(r)) => if l > 0 && r > 0 {
            (fl.gives)(
                FloatOp::ToCount,
                (fl.gives)(
                    FloatOp::Over,
                    all_pairs(left, right, fl),
                    (fl.gives)(FloatOp::OfCount, larger(l, r) as u64, 0),
                ),
                0,
            ) as usize
        } else {
            share_of_pairs(left, right, s, fl)
        },
        _ => share_of_pairs(left, right, s, fl),
    }
}

/// The larger of two counts.
pub open spec fn larger(a: usize, b: usize) -> usize {
    if a < b { b } else { a }
}

/// A product, or the largest count where it is beyond it.
pub open spec fn capped_product(a: usize, b: usize) -> usize {
    if a * b > usize::MAX { usize::MAX } else { (a * b) as usize }
}

impl JoinProblem {
    /// What the condition of a join says on its order.
    pub open spec fn shape(self, i: int) -> ShapeModel {
        shapes_of(self.joins)[i]
    }

    /// The rows of the table that a join adds.
    pub open spec fn right_rows(self, i: int) -> usize {
        (self.sizes.rows)(qualifier(self.joins[i]))
    }

    /// The rows that a join yields, from `current` rows.
    pub open spec fn yielded(self, i: int, current: usize) -> usize {
        let right = self.right_rows(i);
        match self.shape(i) {
            ShapeModel::Cross => capped_product(current, right),
            ShapeModel::Compare { op, own_column, existing_qualifier, existing_column } => if op
                == "="@ {
                equal_pairs(
                    current,
                    right,
                    (self.sizes.distinct)(existing_qualifier, existing_column),
                    (self.sizes.distinct)(qualifier(self.joins[i]), own_column),
                    self.selectivity,
                    self.floats,
                )
            } else {
                share_of_pairs(current, right, self.selectivity, self.floats)
            },
            ShapeModel::Unresolvable => share_of_pairs(
                current,
                right,
                self.selectivity,
                self.floats,
            ),
        }
    }

    /// The rows after the first `n` joins of an order.
    pub open spec fn rows_after(self, order: Seq<usize>, n: int) -> usize
        decreases n,
    {
        if n <= 0 || n > order.len() {
            self.from_rows
        } else {
            self.yielded(order[n - 1] as int, self.rows_after(order, n - 1))
        }
    }

    /// The joins of an order.
    pub open spec fn plan(self, order: Seq<usize>) -> Seq<PlannedJoin> {
        Seq::new(
            order.len(),
            |k: int|
                PlannedJoin {
                    join_index: order[k],
                    left_rows: self.rows_after(order, k),
                    right_rows: self.right_rows(order[k] as int),
                    output_rows: self.rows_after(order, k + 1),
                },
        )
    }

    /// The cost of the first `n` joins of an order.
    pub open spec fn cost_after(self, order: Seq<usize>, n: int) -> u64
        decreases n,
    {
        if n <= 0 || n > order.len() {
            0
        } else {
            (self.floats.gives)(
                FloatOp::Plus,
                self.cost_after(order, n - 1),
                operator_cost(
                    self.costs,
                    larger(
                        self.rows_after(order, n - 1),
                        self.right_rows(order[n - 1] as int),
                    ),
                    self.rows_after(order, n),
                    self.floats,
                ),
            )
        }
    }

    /// The cost of an order.
    pub open spec fn cost(self, order: Seq<usize>) -> u64 {
        self.cost_after(order, order.len() as int)
    }

    /// Whether a table has been joined by the joins of `order`.
    pub open spec fn known(self, order: Seq<usize>, q: Seq<char>) -> bool {
        q == self.from || exists|k: int|
            0 <= k < order.len() && qualifier(#[trigger] self.joins[order[k] as int]) == q
    }

    /// Whether a join can run after those of `order`.
    pub open spec fn ready(self, order: Seq<usize>, i: int) -> bool {
        match self.shape(i) {
            ShapeModel::Cross => true,
            ShapeModel::Compare { existing_qualifier, .. } => self.known(order, existing_qualifier),
            ShapeModel::Unresolvable => false,
        }
    }

    /// The best of the orders that begin with `order`, and of `best`.
    pub open spec fn explored(self, order: Seq<usize>, best: Option<(u64, Seq<usize>)>) -> Option<
        (u64, Seq<usize>),
    >
        decreases self.joins.len() - order.len(), self.joins.len() + 1,
    {
        if order.len() >= self.joins.len() {
            match best {
                None => Some((self.cost(order), order)),
                Some(b) => if is_less(self.cost(order), b.0) {
                    Some((self.cost(order), order))
                } else {
                    best
                },
            }
        } else {
            self.tried(order, 0, best)
        }
    }

    /// The best of the orders that begin with `order` and go on with a join from
    /// `i` on, and of `best`.
    pub open spec fn tried(
        self,
        order: Seq<usize>,
        i: int,
        best: Option<(u64, Seq<usize>)>,
    ) -> Option<(u64, Seq<usize>)>
        decreases self.joins.len() - order.len(), self.joins.len() - i,
    {
        if i < 0 || i >= self.joins.len() || order.len() >= self.joins.len() {
            best
        } else if order.contains(i as usize) || !self.ready(order, i) {
            self.tried(order, i + 1, best)
        } else {
            self.tried(order, i + 1, self.explored(order.push(i as usize), best))
        }
    }

    /// The order as written.
    pub open spec fn as_written(self) -> Seq<usize> {
        Seq::new(self.joins.len(), |i: int| i as usize)
    }

    /// Whether the orders are searched: there are few joins, and every condition
    /// tells which table it needs.
    pub open spec fn searchable(self) -> bool {
        &&& self.joins.len() <= 8
        &&& forall|i: int|
            0 <= i < self.joins.len() ==> !((#[trigger] self.shape(i)) is Unresolvable)
    }

    /// The order that is taken.
    pub open spec fn chosen(self) -> Seq<usize> {
        if self.searchable() {
            match self.explored(Seq::empty(), None) {
                Some(b) => b.1,
                None => self.as_written(),
            }
        } else {
            self.as_written()
        }
    }

    /// Each join occurs at most once.
    pub open spec fn distinct_joins(self, order: Seq<usize>) -> bool {
        &&& forall|k: int| 0 <= k < order.len() ==> (#[trigger] order[k]) < self.joins.len()
        &&& forall|k: int, l: int|
            0 <= k < l < order.len() ==> #[trigger] order[k] != #[trigger] order[l]
    }

    /// Each join can run when its turn comes.
    pub open spec fn resolvable(self, order: Seq<usize>) -> bool {
        forall|k: int|
            0 <= k < order.len() ==> #[trigger] self.ready(order.take(k), order[k] as int)
    }

    /// All joins, each once and each when it can run.
    pub open spec fn valid(self, order: Seq<usize>) -> bool {
        &&& order.len() == self.joins.len()
        &&& self.distinct_joins(order)
        &&& self.resolvable(order)
    }
}

fn own_qualifier(join: &JoinClause) -> (r: String)
    ensures
        r@ == qualifier(join@),
{
    match &join.alias {
        Some(a) => a.clone(),
        None => join.table.clone(),
    }
}

fn split_dotted(s: &str) -> (r: Option<(String, String)>)
    ensures
        match r {
            Some(p) => dotted(s@) == Some((p.0@, p.1@)),
            None => dotted(s@) is None,
        },
{
    let v = chars_of(s);
    let mut i: usize = 0;
    while i < v.len() && v[i] != '.'
        invariant
            i <= v@.len(),
            v@ == s@,
            first_dot(s@, 0) == first_dot(s@, i as int),
        decreases v@.len() - i,
    {
        i = i + 1;
    }
    if i < v.len() {
        let before = slice_text(&v, 0, i);
        let after = slice_text(&v, i + 1, v.len());
        assert(before@ == s@.take(i as int));
        assert(after@ == s@.skip(i + 1));
        Some((before, after))
    } else {
        None
    }
}

fn resolve_shape(own: &str, condition: &Option<String>) -> (r: JoinShape)
    ensures
        r@ == shape_of(
            own@,
            match *condition {
                Some(c) => Some(c@),
                None => None,
            },
        ),
{
    match condition {
        None => JoinShape::Cross,
        Some(cond) => match split_comparison(cond.as_str()) {
            None => JoinShape::Unresolvable,
            Some((left, op, right)) => {
                match (split_dotted(left.as_str()), split_dotted(right.as_str())) {
                    (Some((lq, lc)), Some((rq, rc))) => {
                        let left_own = same(lq.as_str(), own);
                        let right_own = same(rq.as_str(), own);
                        if left_own && !right_own {
                            JoinShape::Compare {
                                op,
                                own_column: lc,
                                existing_qualifier: rq,
                                existing_column: rc,
                            }
                        } else if !left_own && right_own {
                            JoinShape::Compare {
                                op,
                                own_column: rc,
                                existing_qualifier: lq,
                                existing_column: lc,
                            }
                        } else {
                            JoinShape::Unresolvable
                        }
                    },
                    _ => JoinShape::Unresolvable,
                }
            },
        },
    }
}

/// What a search of the orders needs.
struct SearchContext<'a, S> {
    from: &'a str,
    from_rows: usize,
    joins: &'a [JoinClause],
    shapes: Vec<JoinShape>,
    sizes: &'a S,
    selectivity: F64,
}

impl<'a, S: TableSizes> SearchContext<'a, S> {
    spec fn problem(&self, costs: CostModel, floats: FloatModel) -> JoinProblem {
        JoinProblem {
            from: self.from@,
            from_rows: self.from_rows,
            joins: join_models(self.joins@),
            sizes: self.sizes.sizes(),
            selectivity: self.selectivity.bits,
            costs,
            floats,
        }
    }

    spec fn wf(&self) -> bool {
        &&& self.sizes.steady()
        &&& self.shapes@.len() == self.joins@.len()
        &&& forall|i: int|
            0 <= i < self.joins@.len() ==> (#[trigger] self.shapes@[i])@ == shapes_of(
                join_models(self.joins@),
            )[i]
    }
}

/// Where a search stands: the best order so far, with its cost.
spec fn best_model(b: Option<(F64, Vec<usize>)>) -> Option<(u64, Seq<usize>)> {
    match b {
        Some(p) => Some((p.0.bits, p.1@)),
        None => None,
    }
}

fn product_capped(a: usize, b: usize) -> (r: usize)
    ensures
        r == capped_product(a, b),
{
    match a.checked_mul(b) {
        Some(p) => p,
        None => usize::MAX,
    }
}

fn copy_order(order: &Vec<usize>) -> (r: Vec<usize>)
    ensures
        r@ == order@,
{
    let mut out: Vec<usize> = Vec::new();
    let mut i: usize = 0;
    while i < order.len()
        invariant
            i <= order@.len(),
            out@ == order@.take(i as int),
        decreases order@.len() - i,
    {
        out.push(order[i]);
        assert(order@.take(i + 1) == order@.take(i as int).push(order@[i as int]));
        i = i + 1;
    }
    assert(order@.take(i as int) == order@);
    out
}

/// Orders joins by what they are expected to cost.
#[derive(Clone, Copy, Debug)]
pub struct JoinOrderer {
    pub cost_model: CostModel,
}

impl JoinOrderer {
    /// An orderer in whose cost model every row costs one.
    pub fn new() -> (r: Self)
        ensures
            r.cost_model == unit_costs(),
    {
        JoinOrderer { cost_model: CostModel::new() }
    }

    /// The rows that a join is expected to yield where a fixed share of all
    /// pairs is kept.
    pub fn estimate_join_cardinality<F: Floats>(
        &self,
        left_rows: usize,
        right_rows: usize,
        join_selectivity: F64,
        floats: &F,
    ) -> (r: usize)
        requires
            floats.sound(),
        ensures
            r == share_of_pairs(left_rows, right_rows, join_selectivity.bits, floats.model()),
    {
        let l = floats.apply(FloatOp::OfCount, left_rows as u64, 0);
        let r = floats.apply(FloatOp::OfCount, right_rows as u64, 0);
        let pairs = floats.apply(FloatOp::Times, l, r);
        let kept = floats.apply(FloatOp::Times, pairs, join_selectivity.bits);
        floats.apply(FloatOp::ToCount, kept, 0) as usize
    }

    /// The rows that a join on equal columns is expected to yield: all pairs over
    /// the larger number of different values; where one of these is not known or
    /// zero, a fixed share of all pairs.
    pub fn estimate_join_cardinality_with_stats<F: Floats>(
        &self,
        left_rows: usize,
        right_rows: usize,
        left_distinct: Option<usize>,
        right_distinct: Option<usize>,
        default_selectivity: F64,
        floats: &F,
    ) -> (r: usize)
        requires
            floats.sound(),
        ensures
            r == equal_pairs(
                left_rows,
                right_rows,
                left_distinct,
                right_distinct,
                default_selectivity.bits,
                floats.model(),
            ),
    {
        if let (Some(l), Some(r)) = (left_distinct, right_distinct) {
            if l > 0 && r > 0 {
                let most: usize = if l < r { r } else { l };
                let a = floats.apply(FloatOp::OfCount, left_rows as u64, 0);
                let b = floats.apply(FloatOp::OfCount, right_rows as u64, 0);
                let pairs = floats.apply(FloatOp::Times, a, b);
                let d = floats.apply(FloatOp::OfCount, most as u64, 0);
                let kept = floats.apply(FloatOp::Over, pairs, d);
                return floats.apply(FloatOp::ToCount, kept, 0) as usize;
            }
        }
        self.estimate_join_cardinality(left_rows, right_rows, default_selectivity, floats)
    }

    /// The cheapest order in which the joins can run, with the rows that each is
    /// expected to read and to yield. Of two equally cheap orders the one is taken
    /// that is closer to the order as written. With more than eight joins, or with
    /// a condition that does not tell which table it needs, the joins stay in the
    /// order as written.
    pub fn find_optimal_order<S: TableSizes, F: Floats>(
        &self,
        from_qualifier: &str,
        from_rows: usize,
        joins: &[JoinClause],
        sizes: &S,
        default_join_selectivity: F64,
        floats: &F,
    ) -> (r: Vec<PlannedJoin>)
        requires
            sizes.steady(),
            floats.sound(),
        ensures
            ({
                let problem = JoinProblem {
                    from: from_qualifier@,
                    from_rows,
                    joins: join_models(joins@),
                    sizes: sizes.sizes(),
                    selectivity: default_join_selectivity.bits,
                    costs: self.cost_model,
                    floats: floats.model(),
                };
                r@ == problem.plan(problem.chosen())
            }),
    {
        let ghost models = join_models(joins@);
        let ghost expected = shapes_of(models);
        let mut shapes: Vec<JoinShape> = Vec::new();
        let mut source_order: Vec<usize> = Vec::new();
        let mut searchable = joins.len() <= 8;
        let mut i: usize = 0;
        while i < joins.len()
            invariant
                i <= joins@.len(),
                models == join_models(joins@),
                expected == shapes_of(models),
                shapes@.len() == i,
                source_order@.len() == i,
                forall|k: int| 0 <= k < i ==> (#[trigger] shapes@[k])@ == expected[k],
                forall|k: int| 0 <= k < i ==> #[trigger] source_order@[k] == k,
                searchable == (joins@.len() <= 8 && forall|k: int|
                    0 <= k < i ==> !((#[trigger] expected[k]) is Unresolvable)),
            decreases joins@.len() - i,
        {
            let q = own_qualifier(&joins[i]);
            let shape = resolve_shape(q.as_str(), &joins[i].condition);
            assert(models[i as int] == joins@[i as int]@);
            assert(shape@ == expected[i as int]);
            match &shape {
                JoinShape::Unresolvable => {
                    searchable = false;
                },
                _ => {},
            }
            shapes.push(shape);
            source_order.push(i);
            i = i + 1;
        }
        let ctx = SearchContext {
            from: from_qualifier,
            from_rows,
            joins,
            shapes,
            sizes,
            selectivity: default_join_selectivity,
        };
        let ghost p = ctx.problem(self.cost_model, floats.model());
        proof {
            assert(source_order@ == p.as_written());
            assert(p.distinct_joins(p.as_written()));
            if searchable {
                assert forall|k: int| 0 <= k < p.joins.len() implies !((#[trigger] p.shape(
                    k,
                )) is Unresolvable) by {
                    assert(p.shape(k) == expected[k]);
                }
            } else if p.searchable() {
                assert forall|k: int| 0 <= k < joins@.len() implies !((#[trigger] expected[k]) is Unresolvable) by {
                    assert(p.shape(k) == expected[k]);
                }
            }
            assert(searchable == p.searchable());
        }
        if searchable {
            let mut order: Vec<usize> = Vec::new();
            let mut best: Option<(F64, Vec<usize>)> = None;
            self.search_step(&ctx, &mut order, &mut best, floats);
            proof {
                assert(order@ == Seq::<usize>::empty());
            }
            match best {
                Some((_, chosen)) => {
                    proof {
                        lemma_explored_is_valid(p, Seq::empty(), None);
                    }
                    self.replay(&ctx, &chosen, floats).0
                },
                None => self.replay(&ctx, &source_order, floats).0,
            }
        } else {
            self.replay(&ctx, &source_order, floats).0
        }
    }

    fn is_known<S: TableSizes>(
        ctx: &SearchContext<S>,
        order: &Vec<usize>,
        q: &str,
        Ghost(p): Ghost<JoinProblem>,
    ) -> (r: bool)
        requires
            p.from == ctx.from@,
            p.joins == join_models(ctx.joins@),
            p.distinct_joins(order@),
        ensures
            r == p.known(order@, q@),
    {
        if same(ctx.from, q) {
            return true;
        }
        let mut k: usize = 0;
        while k < order.len()
            invariant
                k <= order@.len(),
                p.joins == join_models(ctx.joins@),
                p.distinct_joins(order@),
                forall|l: int|
                    0 <= l < k ==> qualifier(#[trigger] p.joins[order@[l] as int]) != q@,
            decreases order@.len() - k,
        {
            let i: usize = order[k];
            let own = own_qualifier(&ctx.joins[i]);
            assert(p.joins[order@[k as int] as int] == ctx.joins@[i as int]@);
            if same(own.as_str(), q) {
                return true;
            }
            k = k + 1;
        }
        false
    }

    /// Goes on with the search from `order`.
    fn search_step<S: TableSizes, F: Floats>(
        &self,
        ctx: &SearchContext<S>,
        order: &mut Vec<usize>,
        best: &mut Option<(F64, Vec<usize>)>,
        floats: &F,
    )
        requires
            ctx.wf(),
            floats.sound(),
            ctx.problem(self.cost_model, floats.model()).distinct_joins(old(order)@),
            old(order)@.len() <= ctx.joins@.len(),
        ensures
            final(order)@ == old(order)@,
            best_model(*final(best)) == ctx.problem(self.cost_model, floats.model()).explored(
                old(order)@,
                best_model(*old(best)),
            ),
        decreases ctx.joins@.len() - old(order)@.len(),
    {
        let ghost p = ctx.problem(self.cost_model, floats.model());
        let ghost start = order@;
        let ghost first = best_model(*best);
        if order.len() == ctx.joins.len() {
            let (_, cost) = self.replay(ctx, order, floats);
            let better = match best {
                None => true,
                Some(b) => cost.less(b.0),
            };
            if better {
                *best = Some((cost, copy_order(order)));
            }
            return;
        }
        let mut i: usize = 0;
        while i < ctx.joins.len()
            invariant
                i <= ctx.joins@.len(),
                ctx.wf(),
                floats.sound(),
                p == ctx.problem(self.cost_model, floats.model()),
                p.distinct_joins(start),
                start.len() < ctx.joins@.len(),
                start == old(order)@,
                first == best_model(*old(best)),
                order@ == start,
                p.explored(start, first) == p.tried(start, i as int, best_model(*best)),
            decreases ctx.joins@.len() - i,
        {
            let mut used = false;
            let mut k: usize = 0;
            while k < order.len() && !used
                invariant
                    k <= order@.len(),
                    used ==> order@.contains(i),
                    !used ==> forall|l: int| 0 <= l < k ==> #[trigger] order@[l] != i,
                decreases order@.len() - k + (if used { 0int } else { 1int }),
            {
                if order[k] == i {
                    assert(order@[k as int] == i);
                    used = true;
                } else {
                    k = k + 1;
                }
            }
            assert(used == start.contains(i));
            assert(p.shape(i as int) == ctx.shapes@[i as int]@);
            let ready = match &ctx.shapes[i] {
                JoinShape::Cross => true,
                JoinShape::Compare { existing_qualifier, .. } => Self::is_known(
                    ctx,
                    order,
                    existing_qualifier.as_str(),
                    Ghost(p),
                ),
                JoinShape::Unresolvable => false,
            };
            if !used && ready {
                order.push(i);
                assert(p.distinct_joins(order@));
                self.search_step(ctx, order, best, floats);
                order.pop();
                assert(order@ == start);
            }
            i = i + 1;
        }
    }

    /// Runs through an order: the joins, and their cost.
    fn replay<S: TableSizes, F: Floats>(
        &self,
        ctx: &SearchContext<S>,
        order: &Vec<usize>,
        floats: &F,
    ) -> (r: (Vec<PlannedJoin>, F64))
        requires
            ctx.wf(),
            floats.sound(),
            ctx.problem(self.cost_model, floats.model()).distinct_joins(order@),
        ensures
            r.0@ == ctx.problem(self.cost_model, floats.model()).plan(order@),
            r.1.bits == ctx.problem(self.cost_model, floats.model()).cost(order@),
    {
        let ghost p = ctx.problem(self.cost_model, floats.model());
        let mut current: usize = ctx.from_rows;
        let mut planned: Vec<PlannedJoin> = Vec::new();
        let mut total: u64 = 0;
        let mut k: usize = 0;
        while k < order.len()
            invariant
                k <= order@.len(),
                ctx.wf(),
                floats.sound(),
                p == ctx.problem(self.cost_model, floats.model()),
                p.distinct_joins(order@),
                current == p.rows_after(order@, k as int),
                total == p.cost_after(order@, k as int),
                planned@.len() == k,
                forall|l: int| 0 <= l < k ==> #[trigger] planned@[l] == p.plan(order@)[l],
            decreases order@.len() - k,
        {
            let idx: usize = order[k];
            let q = own_qualifier(&ctx.joins[idx]);
            assert(p.joins[idx as int] == ctx.joins@[idx as int]@);
            assert(p.shape(idx as int) == ctx.shapes@[idx as int]@);
            let right_rows: usize = ctx.sizes.row_count(q.as_str());
            let output_rows: usize = match &ctx.shapes[idx] {
                JoinShape::Cross => product_capped(current, right_rows),
                JoinShape::Compare { op, own_column, existing_qualifier, existing_column } => {
                    if same(op.as_str(), "=") {
                        let left_distinct = ctx.sizes.distinct_count(
                            existing_qualifier.as_str(),
                            existing_column.as_str(),
                        );
                        let right_distinct = ctx.sizes.distinct_count(
                            q.as_str(),
                            own_column.as_str(),
                        );
                        self.estimate_join_cardinality_with_stats(
                            current,
                            right_rows,
                            left_distinct,
                            right_distinct,
                            ctx.selectivity,
                            floats,
                        )
                    } else {
                        self.estimate_join_cardinality(
                            current,
                            right_rows,
                            ctx.selectivity,
                            floats,
                        )
                    }
                },
                JoinShape::Unresolvable => self.estimate_join_cardinality(
                    current,
                    right_rows,
                    ctx.selectivity,
                    floats,
                ),
            };
            let most: usize = if current < right_rows { right_rows } else { current };
            let op = OperatorCost::new(
                OperatorType::HashJoin,
                most,
                output_rows,
                F64 { bits: ONE },
            );
            let cost = self.cost_model.estimate_cost(&op, floats);
            total = floats.apply(FloatOp::Plus, total, cost.bits);
            planned.push(
                PlannedJoin { join_index: idx, left_rows: current, right_rows, output_rows },
            );
            current = output_rows;
            k = k + 1;
        }
        assert(planned@ == p.plan(order@));
        (planned, F64 { bits: total })
    }
}

impl Default for JoinOrderer {
    fn default() -> (r: Self)
        ensures
            r.cost_model == unit_costs(),
    {
        JoinOrderer::new()
    }
}

/// The best of some orders, if there is one, is valid and has the cost that is
/// noted with it.
spec fn sound_best(p: JoinProblem, best: Option<(u64, Seq<usize>)>) -> bool {
    match best {
        Some(b) => p.valid(b.1) && b.0 == p.cost(b.1),
        None => true,
    }
}

proof fn lemma_one_more(p: JoinProblem, order: Seq<usize>, i: int)
    requires
        p.distinct_joins(order),
        p.resolvable(order),
        p.joins.len() <= usize::MAX,
        0 <= i < p.joins.len(),
        !order.contains(i as usize),
        p.ready(order, i),
    ensures
        p.distinct_joins(order.push(i as usize)),
        p.resolvable(order.push(i as usize)),
{
    let longer = order.push(i as usize);
    assert forall|k: int| 0 <= k < longer.len() implies #[trigger] p.ready(
        longer.take(k),
        longer[k] as int,
    ) by {
        assert(longer.take(k) == order.take(k));
        if k == order.len() {
            assert(order.take(k) == order);
        }
    }
}

proof fn lemma_explored_is_valid(
    p: JoinProblem,
    order: Seq<usize>,
    best: Option<(u64, Seq<usize>)>,
)
    requires
        p.joins.len() <= usize::MAX,
        p.distinct_joins(order),
        p.resolvable(order),
        order.len() <= p.joins.len(),
        sound_best(p, best),
    ensures
        sound_best(p, p.explored(order, best)),
    decreases p.joins.len() - order.len(), p.joins.len() + 1,
{
    if order.len() < p.joins.len() {
        lemma_tried_is_valid(p, order, 0, best);
    }
}

proof fn lemma_tried_is_valid(
    p: JoinProblem,
    order: Seq<usize>,
    i: int,
    best: Option<(u64, Seq<usize>)>,
)
    requires
        p.joins.len() <= usize::MAX,
        p.distinct_joins(order),
        p.resolvable(order),
        order.len() < p.joins.len(),
        0 <= i <= p.joins.len(),
        sound_best(p, best),
    ensures
        sound_best(p, p.tried(order, i, best)),
    decreases p.joins.len() - order.len(), p.joins.len() - i,
{
    if i < p.joins.len() {
        if order.contains(i as usize) || !p.ready(order, i) {
            lemma_tried_is_valid(p, order, i + 1, best);
        } else {
            lemma_one_more(p, order, i);
            lemma_explored_is_valid(p, order.push(i as usize), best);
            lemma_tried_is_valid(p, order, i + 1, p.explored(order.push(i as usize), best));
        }
    }
}

/// There is a best order, and a cost is not less than its cost.
spec fn no_better(best: Option<(u64, Seq<usize>)>, cost: u64) -> bool {
    match best {
        Some(b) => !is_less(cost, b.0),
        None => false,
    }
}

proof fn lemma_explored_keeps(
    p: JoinProblem,
    order: Seq<usize>,
    best: Option<(u64, Seq<usize>)>,
    cost: u64,
)
    requires
        no_better(best, cost),
    ensures
        no_better(p.explored(order, best), cost),
    decreases p.joins.len() - order.len(), p.joins.len() + 1,
{
    if order.len() < p.joins.len() {
        lemma_tried_keeps(p, order, 0, best, cost);
    }
}

proof fn lemma_tried_keeps(
    p: JoinProblem,
    order: Seq<usize>,
    i: int,
    best: Option<(u64, Seq<usize>)>,
    cost: u64,
)
    requires
        no_better(best, cost),
    ensures
        no_better(p.tried(order, i, best), cost),
    decreases p.joins.len() - order.len(), p.joins.len() - i,
{
    if 0 <= i < p.joins.len() && order.len() < p.joins.len() {
        if order.contains(i as usize) || !p.ready(order, i) {
            lemma_tried_keeps(p, order, i + 1, best, cost);
        } else {
            lemma_explored_keeps(p, order.push(i as usize), best, cost);
            lemma_tried_keeps(p, order, i + 1, p.explored(order.push(i as usize), best), cost);
        }
    }
}

proof fn lemma_explored_covers(
    p: JoinProblem,
    order: Seq<usize>,
    best: Option<(u64, Seq<usize>)>,
    o: Seq<usize>,
)
    requires
        p.joins.len() <= usize::MAX,
        p.valid(o),
        order.len() <= o.len(),
        order == o.take(order.len() as int),
    ensures
        no_better(p.explored(order, best), p.cost(o)),
    decreases p.joins.len() - order.len(), p.joins.len() + 1,
{
    if order.len() < p.joins.len() {
        lemma_tried_covers(p, order, 0, best, o);
    } else {
        assert(order == o);
    }
}

proof fn lemma_tried_covers(
    p: JoinProblem,
    order: Seq<usize>,
    i: int,
    best: Option<(u64, Seq<usize>)>,
    o: Seq<usize>,
)
    requires
        p.joins.len() <= usize::MAX,
        p.valid(o),
        order.len() < o.len(),
        order == o.take(order.len() as int),
        0 <= i <= o[order.len() as int],
    ensures
        no_better(p.tried(order, i, best), p.cost(o)),
    decreases p.joins.len() - order.len(), p.joins.len() - i,
{
    let n = order.len() as int;
    if i < o[n] {
        if order.contains(i as usize) || !p.ready(order, i) {
            lemma_tried_covers(p, order, i + 1, best, o);
        } else {
            lemma_tried_covers(p, order, i + 1, p.explored(order.push(i as usize), best), o);
        }
    } else {
        assert(p.ready(o.take(n), o[n] as int));
        if order.contains(o[n]) {
            let k = choose|k: int| 0 <= k < order.len() && order[k] == o[n];
            assert(o[k] == o[n]);
            assert(false);
        }
        let longer = order.push(i as usize);
        assert(longer == o.take(longer.len() as int));
        lemma_explored_covers(p, longer, best, o);
        lemma_tried_keeps(p, order, i + 1, p.explored(longer, best), p.cost(o));
    }
}

/// The order that is taken holds every join, each once.
pub proof fn every_join_is_planned_once(p: JoinProblem)
    requires
        p.joins.len() <= usize::MAX,
    ensures
        p.chosen().len() == p.joins.len(),
        p.distinct_joins(p.chosen()),
{
    if p.searchable() {
        lemma_explored_is_valid(p, Seq::empty(), None);
    }
}

/// Where the orders are searched and the joins can run in some order at all, the
/// order that is taken is one in which they can, and no such order is cheaper. So
/// where the joins can run as written, they still can as planned.
pub proof fn the_cheapest_order_is_taken(p: JoinProblem, o: Seq<usize>)
    requires
        p.searchable(),
        p.valid(o),
    ensures
        p.valid(p.chosen()),
        !is_less(p.cost(o), p.cost(p.chosen())),
{
    lemma_explored_is_valid(p, Seq::empty(), None);
    assert(o.take(0) == Seq::<usize>::empty());
    lemma_explored_covers(p, Seq::empty(), None, o);
}

} // verus!
