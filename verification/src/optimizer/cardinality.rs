//! How the values of a column are distributed, and how many rows a comparison
//! with a literal will therefore keep.

use vstd::prelude::*;
use crate::execution::operators::{Datum, Value};
use crate::execution::row_codec::predicate::{widen, widened};
use crate::float::{is_equal, is_less, not_a_number, FloatModel, FloatOp, Floats, F64};
use crate::index::dynamic_pgm::{no_nan, sort_keys, sorted_keys, sorting_keeps_the_keys};
use crate::index::pgm::{below, built, rank_estimate, PGMIndex, PGMSegment};
use crate::optimizer::cost_model::ONE;
use crate::text::{less, same, texts};

verus! {

/// The distribution of a column.
pub enum ColumnDistribution {
    /// Numbers: a learned index over the values.
    Numeric { model: PGMIndex, total_rows: usize, distinct_count: usize },
    /// Anything else: only how many values differ.
    Categorical { total_rows: usize, distinct_count: usize },
}

/// A distribution as contracts speak of it.
pub enum Distribution {
    Numeric { segments: Seq<PGMSegment>, keys: Seq<F64>, total_rows: usize, distinct_count: usize },
    Categorical { total_rows: usize, distinct_count: usize },
}

impl View for ColumnDistribution {
    type V = Distribution;

    open spec fn view(&self) -> Distribution {
        match *self {
            ColumnDistribution::Numeric { model, total_rows, distinct_count } => {
                Distribution::Numeric {
                    segments: model.segments@,
                    keys: model.keys@,
                    total_rows,
                    distinct_count,
                }
            },
            ColumnDistribution::Categorical { total_rows, distinct_count } => {
                Distribution::Categorical { total_rows, distinct_count }
            },
        }
    }
}

/// The number of different numbers among the first `n` of sorted keys.
pub open spec fn distinct_numbers(keys: Seq<F64>, n: int) -> int
    decreases n,
{
    if n <= 0 || n > keys.len() {
        0
    } else if n == 1 || !is_equal(keys[n - 2].bits, keys[n - 1].bits) {
        distinct_numbers(keys, n - 1) + 1
    } else {
        distinct_numbers(keys, n - 1)
    }
}

/// The number of different texts among the first `n`.
pub open spec fn distinct_texts(v: Seq<Seq<char>>, n: int) -> int
    decreases n,
{
    if n <= 0 || n > v.len() {
        0
    } else if v.take(n - 1).contains(v[n - 1]) {
        distinct_texts(v, n - 1)
    } else {
        distinct_texts(v, n - 1) + 1
    }
}

/// A number that is not below one.
pub open spec fn at_least_one(n: int) -> int {
    if n < 1 { 1 } else { n }
}

/// A float brought between zero and one.
pub open spec fn unit_clamped(x: u64) -> u64 {
    if is_less(x, 0) {
        0
    } else if is_less(ONE, x) {
        ONE
    } else {
        x
    }
}

/// The share of rows with one of `distinct` values.
pub open spec fn one_of(distinct: usize, fl: FloatModel) -> u64 {
    (fl.gives)(FloatOp::Over, ONE, (fl.gives)(FloatOp::OfCount, distinct as u64, 0))
}

/// The share that `part` is of `whole`.
pub open spec fn share(part: int, whole: usize, fl: FloatModel) -> u64 {
    (fl.gives)(
        FloatOp::Over,
        (fl.gives)(FloatOp::OfCount, part as u64, 0),
        (fl.gives)(FloatOp::OfCount, whole as u64, 0),
    )
}

/// What is left of one.
pub open spec fn rest_of_one(x: u64, fl: FloatModel) -> u64 {
    (fl.gives)(FloatOp::Minus, ONE, x)
}

/// The share of `whole` rows that is left of those with a value, `present` in number,
/// without the first `part` of them.
pub open spec fn share_beyond(part: int, present: int, whole: usize, fl: FloatModel) -> u64 {
    if present == whole {
        rest_of_one(share(part, whole, fl), fl)
    } else {
        share(present - part, whole, fl)
    }
}

/// The share of `whole` rows that have a value, of which `present` do, but another than
/// one of `distinct`.
pub open spec fn share_of_others(
    distinct: usize,
    present: int,
    whole: usize,
    fl: FloatModel,
) -> u64 {
    if present == whole {
        rest_of_one(one_of(distinct, fl), fl)
    } else {
        (fl.gives)(FloatOp::Minus, share(present, whole, fl), one_of(distinct, fl))
    }
}

/// The number that a value stands for.
pub open spec fn number_of(d: Datum, fl: FloatModel) -> Option<u64> {
    match d {
        Datum::Integer(i) => Some(widened(i, fl)),
        Datum::Float(x) => Some(x),
        _ => None,
    }
}

/// Whether a value can be placed among those of a distribution: what is not a
/// number has no place among numbers.
pub open spec fn placeable(d: Distribution, value: Datum, fl: FloatModel) -> bool {
    d matches Distribution::Numeric { total_rows, .. } && total_rows > 0 ==> (number_of(
        value,
        fl,
    ) matches Some(x) ==> !not_a_number(x))
}

/// Whether an operator compares two values.
pub open spec fn is_comparison(op: Seq<char>) -> bool {
    op == "="@ || op == "!="@ || op == "<>"@ || op == "<="@ || op == ">"@ || op == "<"@ || op
        == ">="@
}

/// The share of rows that a comparison with a literal keeps, by a distribution: none
/// where the operator is unknown, or the literal is of another type than the column. A
/// row without a value is kept by none.
pub open spec fn selectivity(d: Distribution, op: Seq<char>, value: Datum, fl: FloatModel) -> Option<
    u64,
> {
    match d {
        Distribution::Numeric { segments, keys, total_rows, distinct_count } => {
            match number_of(value, fl) {
                None => None,
                Some(v) => if !is_comparison(op) {
                    None
                } else if total_rows == 0 {
                    Some(ONE)
                } else {
                    let n = keys.len() as int;
                    let at_most = rank_estimate(segments, keys, v, fl);
                    let under = below(keys, v, 0);
                    Some(
                        unit_clamped(
                            if op == "="@ {
                                one_of(distinct_count, fl)
                            } else if op == "<="@ {
                                share(at_most, total_rows, fl)
                            } else if op == ">"@ {
                                share_beyond(at_most, n, total_rows, fl)
                            } else if op == "<"@ {
                                share(under, total_rows, fl)
                            } else if op == ">="@ {
                                share_beyond(under, n, total_rows, fl)
                            } else {
                                share_of_others(distinct_count, n, total_rows, fl)
                            },
                        ),
                    )
                },
            }
        },
        Distribution::Categorical { distinct_count, .. } => {
            if !(value is Text || value is Boolean) {
                None
            } else if op == "="@ {
                Some(unit_clamped(one_of(distinct_count, fl)))
            } else if op == "!="@ || op == "<>"@ {
                Some(unit_clamped(rest_of_one(one_of(distinct_count, fl), fl)))
            } else {
                None
            }
        },
    }
}

/// The number of rows that a share of some rows is.
pub open spec fn scaled_rows(rows: usize, s: u64, fl: FloatModel) -> usize {
    (fl.gives)(
        FloatOp::ToCount,
        (fl.gives)(FloatOp::Times, (fl.gives)(FloatOp::OfCount, rows as u64, 0), s),
        0,
    ) as usize
}

fn compares(op: &str) -> (r: bool)
    ensures
        r == is_comparison(op@),
{
    same(op, "=") || same(op, "!=") || same(op, "<>") || same(op, "<=") || same(op, ">") || same(
        op,
        "<",
    ) || same(op, ">=")
}

fn clamp_unit(x: F64) -> (r: F64)
    ensures
        r.bits == unit_clamped(x.bits),
{
    let zero = F64 { bits: 0 };
    let one = F64 { bits: ONE };
    if x.less(zero) {
        zero
    } else if one.less(x) {
        one
    } else {
        x
    }
}

fn part_of_one<F: Floats>(distinct: usize, floats: &F) -> (r: u64)
    requires
        floats.sound(),
    ensures
        r == one_of(distinct, floats.model()),
{
    let n = floats.apply(FloatOp::OfCount, distinct as u64, 0);
    floats.apply(FloatOp::Over, ONE, n)
}

fn share_of<F: Floats>(part: usize, whole: usize, floats: &F) -> (r: u64)
    requires
        floats.sound(),
    ensures
        r == share(part as int, whole, floats.model()),
{
    let p = floats.apply(FloatOp::OfCount, part as u64, 0);
    let w = floats.apply(FloatOp::OfCount, whole as u64, 0);
    floats.apply(FloatOp::Over, p, w)
}

fn rest<F: Floats>(x: u64, floats: &F) -> (r: u64)
    requires
        floats.sound(),
    ensures
        r == rest_of_one(x, floats.model()),
{
    floats.apply(FloatOp::Minus, ONE, x)
}

fn beyond_of<F: Floats>(part: usize, present: usize, whole: usize, floats: &F) -> (r: u64)
    requires
        floats.sound(),
        part <= present,
    ensures
        r == share_beyond(part as int, present as int, whole, floats.model()),
{
    if present == whole {
        rest(share_of(part, whole, floats), floats)
    } else {
        share_of(present - part, whole, floats)
    }
}

fn others_of<F: Floats>(distinct: usize, present: usize, whole: usize, floats: &F) -> (r: u64)
    requires
        floats.sound(),
    ensures
        r == share_of_others(distinct, present as int, whole, floats.model()),
{
    let one = part_of_one(distinct, floats);
    if present == whole {
        rest(one, floats)
    } else {
        floats.apply(FloatOp::Minus, share_of(present, whole, floats), one)
    }
}

/// The number of rows that a share of some rows is.
pub fn scale_rows<F: Floats>(rows: usize, s: F64, floats: &F) -> (r: usize)
    requires
        floats.sound(),
    ensures
        r == scaled_rows(rows, s.bits, floats.model()),
{
    let n = floats.apply(FloatOp::OfCount, rows as u64, 0);
    let x = floats.apply(FloatOp::Times, n, s.bits);
    floats.apply(FloatOp::ToCount, x, 0) as usize
}

fn count_distinct(keys: &Vec<F64>) -> (r: usize)
    ensures
        r == distinct_numbers(keys@, keys@.len() as int),
        r <= keys@.len(),
{
    let mut count: usize = 0;
    let mut i: usize = 0;
    while i < keys.len()
        invariant
            i <= keys@.len(),
            count <= i,
            count == distinct_numbers(keys@, i as int),
        decreases keys@.len() - i,
    {
        if i == 0 || !keys[i - 1].same_number(keys[i]) {
            count = count + 1;
        }
        i = i + 1;
    }
    count
}

fn count_distinct_texts(values: &Vec<String>) -> (r: usize)
    ensures
        r == distinct_texts(texts(values@), values@.len() as int),
        r <= values@.len(),
{
    let ghost all = texts(values@);
    let mut count: usize = 0;
    let mut i: usize = 0;
    while i < values.len()
        invariant
            i <= values@.len(),
            all == texts(values@),
            count <= i,
            count == distinct_texts(all, i as int),
        decreases values@.len() - i,
    {
        let mut seen = false;
        let mut j: usize = 0;
        while j < i && !seen
            invariant
                j <= i < values@.len(),
                all == texts(values@),
                seen ==> all.take(i as int).contains(all[i as int]),
                !seen ==> forall|k: int| 0 <= k < j ==> #[trigger] all[k] != all[i as int],
            decreases i - j + (if seen { 0int } else { 1int }),
        {
            assert(all[j as int] == values@[j as int]@ && all[i as int] == values@[i as int]@);
            if same(values[j].as_str(), values[i].as_str()) {
                assert(all.take(i as int)[j as int] == all[i as int]);
                seen = true;
            } else {
                j = j + 1;
            }
        }
        proof {
            if all.take(i as int).contains(all[i as int]) && !seen {
                let k = choose|k: int|
                    0 <= k < all.take(i as int).len() && all.take(i as int)[k] == all[i as int];
                assert(all[k] == all[i as int]);
            }
        }
        if !seen {
            count = count + 1;
        }
        i = i + 1;
    }
    count
}

impl ColumnDistribution {
    /// The index over numbers is in order.
    pub open spec fn wf(&self) -> bool {
        self matches ColumnDistribution::Numeric { model, .. } ==> model.wf()
    }

    /// The distribution of the values of a column of numbers.
    pub fn build_numeric<F: Floats>(values: Vec<F64>, error_bound: usize, floats: &F) -> (r: Self)
        requires
            floats.sound(),
            no_nan(values@),
        ensures
            r.wf(),
            r@ == numeric_distribution(values@, error_bound, floats.model()),
    {
        let sorted = sort_keys(&values);
        proof {
            sorting_keeps_the_keys(values@);
        }
        let total_rows: usize = values.len();
        let n: usize = count_distinct(&sorted);
        let distinct_count: usize = if n < 1 { 1 } else { n };
        let model = PGMIndex::build(sorted, error_bound, floats);
        ColumnDistribution::Numeric { model, total_rows, distinct_count }
    }

    /// The distribution of the values of another column.
    pub fn build_categorical(values: Vec<String>) -> (r: Self)
        ensures
            r.wf(),
            r@ == categorical_distribution(texts(values@)),
    {
        let total_rows: usize = values.len();
        let n: usize = count_distinct_texts(&values);
        ColumnDistribution::Categorical {
            total_rows,
            distinct_count: if n < 1 {
                1
            } else {
                n
            },
        }
    }

    /// The share of rows that a comparison with a value keeps.
    pub fn estimate_selectivity<F: Floats>(&self, op: &str, value: &Value, floats: &F) -> (r: Option<
        F64,
    >)
        requires
            floats.sound(),
            self.wf(),
            placeable(self@, value@, floats.model()),
        ensures
            match r {
                Some(x) => selectivity(self@, op@, value@, floats.model()) == Some(x.bits),
                None => selectivity(self@, op@, value@, floats.model()) is None,
            },
    {
        match self {
            ColumnDistribution::Numeric { model, total_rows, distinct_count } => {
                let v = match value {
                    Value::Integer(i) => widen(*i, floats),
                    Value::Float(x) => *x,
                    _ => {
                        return None;
                    },
                };
                if !compares(op) {
                    return None;
                }
                if *total_rows == 0 {
                    return Some(F64 { bits: ONE });
                }
                let n: usize = model.keys.len();
                let part = if same(op, "=") {
                    part_of_one(*distinct_count, floats)
                } else if same(op, "<=") {
                    share_of(model.predicted_rank(v, floats), *total_rows, floats)
                } else if same(op, ">") {
                    beyond_of(model.predicted_rank(v, floats), n, *total_rows, floats)
                } else if same(op, "<") {
                    share_of(model.lower_bound(v), *total_rows, floats)
                } else if same(op, ">=") {
                    beyond_of(model.lower_bound(v), n, *total_rows, floats)
                } else {
                    others_of(*distinct_count, n, *total_rows, floats)
                };
                Some(clamp_unit(F64 { bits: part }))
            },
            ColumnDistribution::Categorical { distinct_count, .. } => {
                match value {
                    Value::String(_) | Value::Boolean(_) => {},
                    _ => {
                        return None;
                    },
                }
                if same(op, "=") {
                    Some(clamp_unit(F64 { bits: part_of_one(*distinct_count, floats) }))
                } else if same(op, "!=") || same(op, "<>") {
                    let one = part_of_one(*distinct_count, floats);
                    Some(clamp_unit(F64 { bits: rest(one, floats) }))
                } else {
                    None
                }
            },
        }
    }

    /// The number of rows that a comparison with a value keeps of
    /// `current_total_rows`.
    pub fn estimate_row_count<F: Floats>(
        &self,
        op: &str,
        value: &Value,
        current_total_rows: usize,
        floats: &F,
    ) -> (r: Option<usize>)
        requires
            floats.sound(),
            self.wf(),
            placeable(self@, value@, floats.model()),
        ensures
            r == match selectivity(self@, op@, value@, floats.model()) {
                Some(s) => Some(scaled_rows(current_total_rows, s, floats.model())),
                None => None,
            },
    {
        match self.estimate_selectivity(op, value, floats) {
            Some(s) => Some(scale_rows(current_total_rows, s, floats)),
            None => None,
        }
    }

    /// This distribution as that of a column of a table with `total_rows` rows, those
    /// without a value included.
    pub fn among(self, total_rows: usize) -> (r: Self)
        requires
            self.wf(),
        ensures
            r.wf(),
            r@ == among_rows(self@, total_rows),
    {
        match self {
            ColumnDistribution::Numeric { model, distinct_count, .. } => {
                ColumnDistribution::Numeric { model, total_rows, distinct_count }
            },
            ColumnDistribution::Categorical { distinct_count, .. } => {
                ColumnDistribution::Categorical { total_rows, distinct_count }
            },
        }
    }

    /// The number of rows that were looked at.
    pub fn total_rows(&self) -> (r: usize)
        ensures
            r == counted_rows(self@),
    {
        match self {
            ColumnDistribution::Numeric { total_rows, .. } => *total_rows,
            ColumnDistribution::Categorical { total_rows, .. } => *total_rows,
        }
    }

    /// The number of different values.
    pub fn distinct_count(&self) -> (r: usize)
        ensures
            r == different_values(self@),
    {
        match self {
            ColumnDistribution::Numeric { distinct_count, .. } => *distinct_count,
            ColumnDistribution::Categorical { distinct_count, .. } => *distinct_count,
        }
    }
}

/// What is known of the columns of tables: for a table's name and a column's,
/// the distribution of the values. Each pair of names occurs once.
pub struct ColumnStats {
    entries: Vec<(String, String, ColumnDistribution)>,
}

/// What is known of the columns of tables, as contracts speak of it.
pub type StatsModel = Seq<(Seq<char>, Seq<char>, Distribution)>;

impl View for ColumnStats {
    type V = StatsModel;

    closed spec fn view(&self) -> StatsModel {
        stat_models(self.entries@)
    }
}

spec fn stat_models(v: Seq<(String, String, ColumnDistribution)>) -> StatsModel {
    v.map_values(|e: (String, String, ColumnDistribution)| (e.0@, e.1@, e.2@))
}

/// What is known without the columns of a table, from the `i`-th on.
pub open spec fn without_table(stats: StatsModel, table: Seq<char>, i: int) -> StatsModel
    decreases stats.len() - i,
{
    if 0 <= i < stats.len() {
        let rest = without_table(stats, table, i + 1);
        if stats[i].0 == table {
            rest
        } else {
            seq![stats[i]] + rest
        }
    } else {
        Seq::empty()
    }
}

/// The place of a column among `stats`, at `from` or after it; the length where
/// it has none.
pub open spec fn stat_place(stats: StatsModel, table: Seq<char>, column: Seq<char>, from: int) -> int
    decreases stats.len() - from,
{
    if from < 0 || from >= stats.len() {
        stats.len() as int
    } else if stats[from].0 == table && stats[from].1 == column {
        from
    } else {
        stat_place(stats, table, column, from + 1)
    }
}

/// The distribution of a column, where it is known.
pub open spec fn stat_of(stats: StatsModel, table: Seq<char>, column: Seq<char>) -> Option<
    Distribution,
> {
    let i = stat_place(stats, table, column, 0);
    if i < stats.len() {
        Some(stats[i].2)
    } else {
        None
    }
}

/// The rows of a table, by the first of its columns at `from` or after it.
pub open spec fn table_rows(stats: StatsModel, table: Seq<char>, from: int) -> Option<usize>
    decreases stats.len() - from,
{
    if from < 0 || from >= stats.len() {
        None
    } else if stats[from].0 == table {
        Some(counted_rows(stats[from].2))
    } else {
        table_rows(stats, table, from + 1)
    }
}

/// What is known after a column has been looked at.
pub open spec fn with_stat(
    stats: StatsModel,
    table: Seq<char>,
    column: Seq<char>,
    d: Distribution,
) -> StatsModel {
    let i = stat_place(stats, table, column, 0);
    if i < stats.len() {
        stats.update(i, (table, column, d))
    } else {
        stats.push((table, column, d))
    }
}

impl ColumnStats {
    /// Every distribution is in order.
    pub closed spec fn wf(&self) -> bool {
        forall|i: int| 0 <= i < self.entries@.len() ==> (#[trigger] self.entries@[i]).2.wf()
    }

    /// Nothing is known.
    pub fn new() -> (r: Self)
        ensures
            r.wf(),
            r@ == StatsModel::empty(),
    {
        let r = ColumnStats { entries: Vec::new() };
        assert(r@ == StatsModel::empty());
        r
    }

    fn place(&self, table: &str, column: &str) -> (r: usize)
        ensures
            r == stat_place(self@, table@, column@, 0),
            r <= self.entries@.len(),
    {
        let mut i: usize = 0;
        while i < self.entries.len()
            invariant
                i <= self.entries@.len(),
                stat_place(self@, table@, column@, 0) == stat_place(
                    self@,
                    table@,
                    column@,
                    i as int,
                ),
            decreases self.entries@.len() - i,
        {
            let e = &self.entries[i];
            if same(e.0.as_str(), table) && same(e.1.as_str(), column) {
                return i;
            }
            i = i + 1;
        }
        i
    }

    /// The distribution of a column, where it is known.
    pub fn get(&self, table: &str, column: &str) -> (r: Option<&ColumnDistribution>)
        requires
            self.wf(),
        ensures
            match r {
                Some(d) => d.wf() && stat_of(self@, table@, column@) == Some(d@),
                None => stat_of(self@, table@, column@) is None,
            },
    {
        let i: usize = self.place(table, column);
        if i < self.entries.len() {
            Some(&self.entries[i].2)
        } else {
            None
        }
    }

    /// The rows of a table, where one of its columns is known.
    pub fn row_count(&self, table: &str) -> (r: Option<usize>)
        ensures
            r == table_rows(self@, table@, 0),
    {
        let mut i: usize = 0;
        while i < self.entries.len()
            invariant
                i <= self.entries@.len(),
                table_rows(self@, table@, 0) == table_rows(self@, table@, i as int),
            decreases self.entries@.len() - i,
        {
            let e = &self.entries[i];
            if same(e.0.as_str(), table) {
                return Some(e.2.total_rows());
            }
            i = i + 1;
        }
        None
    }

    /// Forgets the columns of a table.
    pub fn forget(&mut self, table: &str)
        requires
            old(self).wf(),
        ensures
            final(self).wf(),
            final(self)@ == without_table(old(self)@, table@, 0),
    {
        let ghost all = self@;
        let mut kept: Vec<(String, String, ColumnDistribution)> = Vec::new();
        let mut old_entries: Vec<(String, String, ColumnDistribution)> = Vec::new();
        std::mem::swap(&mut old_entries, &mut self.entries);
        let ghost given = old_entries@;
        let mut n: usize = old_entries.len();
        assert(without_table(all, table@, n as int) =~= Seq::empty());
        while n > 0
            invariant
                n == old_entries@.len(),
                n <= given.len(),
                old_entries@ == given.take(n as int),
                all == stat_models(given),
                self.entries@.len() == 0,
                forall|i: int| 0 <= i < given.len() ==> (#[trigger] given[i]).2.wf(),
                forall|i: int| 0 <= i < kept@.len() ==> (#[trigger] kept@[i]).2.wf(),
                stat_models(kept@).reverse() == without_table(all, table@, n as int),
            decreases n,
        {
            let e = old_entries.pop().unwrap();
            n = n - 1;
            assert(e == given[n as int]);
            assert(all[n as int] == (e.0@, e.1@, e.2@));
            if !same(e.0.as_str(), table) {
                let ghost before = stat_models(kept@);
                let ghost m = (e.0@, e.1@, e.2@);
                kept.push(e);
                assert(stat_models(kept@) =~= before.push(m));
                assert(before.push(m).reverse() =~= seq![m] + before.reverse());
            }
        }
        let ghost backwards = kept@;
        let mut out: Vec<(String, String, ColumnDistribution)> = Vec::new();
        let mut left: usize = kept.len();
        while left > 0
            invariant
                left == kept@.len(),
                left <= backwards.len(),
                kept@ == backwards.take(left as int),
                forall|i: int| 0 <= i < backwards.len() ==> (#[trigger] backwards[i]).2.wf(),
                forall|i: int| 0 <= i < out@.len() ==> (#[trigger] out@[i]).2.wf(),
                out@ == backwards.skip(left as int).reverse(),
            decreases left,
        {
            let e = kept.pop().unwrap();
            left = left - 1;
            let ghost before = out@;
            out.push(e);
            assert(backwards.skip(left as int).reverse() =~= before.push(e));
        }
        self.entries = out;
        assert(backwards.skip(0) =~= backwards);
        assert(stat_models(out@) =~= stat_models(backwards).reverse());
    }

    /// Notes the distribution of a column.
    pub fn record(&mut self, table: String, column: String, d: ColumnDistribution)
        requires
            old(self).wf(),
            d.wf(),
        ensures
            final(self).wf(),
            final(self)@ == with_stat(old(self)@, table@, column@, d@),
    {
        let ghost before = self@;
        let i: usize = self.place(table.as_str(), column.as_str());
        let ghost entry = (table@, column@, d@);
        if i < self.entries.len() {
            self.entries.set(i, (table, column, d));
            assert(self@ == before.update(i as int, entry));
        } else {
            self.entries.push((table, column, d));
            assert(self@ == before.push(entry));
        }
    }
}

/// What is noted of a column is found again, and what is known of another column
/// stays.
pub proof fn a_noted_column_is_found(
    stats: StatsModel,
    table: Seq<char>,
    column: Seq<char>,
    d: Distribution,
    other_table: Seq<char>,
    other_column: Seq<char>,
)
    ensures
        stat_of(with_stat(stats, table, column, d), table, column) == Some(d),
        (other_table, other_column) != (table, column) ==> stat_of(
            with_stat(stats, table, column, d),
            other_table,
            other_column,
        ) == stat_of(stats, other_table, other_column),
{
    lemma_stat_place(stats, table, column, 0);
    lemma_stat_place(stats, other_table, other_column, 0);
    let after = with_stat(stats, table, column, d);
    lemma_stat_place(after, table, column, 0);
    lemma_stat_place(after, other_table, other_column, 0);
    let i = stat_place(stats, table, column, 0);
    let j = stat_place(after, table, column, 0);
    assert(after[i].0 == table && after[i].1 == column);
    assert(j == i);
    if (other_table, other_column) != (table, column) {
        let a = stat_place(stats, other_table, other_column, 0);
        let b = stat_place(after, other_table, other_column, 0);
        if a < stats.len() {
            assert(after[a] == stats[a]);
            assert(b <= a);
            assert(stats[b] == after[b]);
        } else if b < after.len() {
            assert(after[b].0 == other_table && after[b].1 == other_column);
            assert(b != i);
            assert(stats[b] == after[b]);
        }
    }
}

pub(crate) proof fn lemma_stat_place(stats: StatsModel, table: Seq<char>, column: Seq<char>, from: int)
    requires
        0 <= from <= stats.len(),
    ensures
        ({
            let i = stat_place(stats, table, column, from);
            &&& from <= i <= stats.len()
            &&& i < stats.len() ==> stats[i].0 == table && stats[i].1 == column
            &&& forall|k: int|
                from <= k < i ==> (#[trigger] stats[k]).0 != table || stats[k].1 != column
        }),
    decreases stats.len() - from,
{
    if from < stats.len() && !(stats[from].0 == table && stats[from].1 == column) {
        lemma_stat_place(stats, table, column, from + 1);
    }
}

/// The distribution of some texts.
pub open spec fn categorical_distribution(values: Seq<Seq<char>>) -> Distribution {
    Distribution::Categorical {
        total_rows: values.len() as usize,
        distinct_count: at_least_one(distinct_texts(values, values.len() as int)) as usize,
    }
}

/// The distribution of some numbers.
pub open spec fn numeric_distribution(values: Seq<F64>, error_bound: usize, fl: FloatModel) -> Distribution {
    let keys = sorted_keys(values);
    Distribution::Numeric {
        segments: built(keys, error_bound, fl),
        keys,
        total_rows: values.len() as usize,
        distinct_count: at_least_one(distinct_numbers(keys, keys.len() as int)) as usize,
    }
}

/// A distribution as that of a column of a table with `rows` rows.
pub open spec fn among_rows(d: Distribution, rows: usize) -> Distribution {
    match d {
        Distribution::Numeric { segments, keys, distinct_count, .. } => Distribution::Numeric {
            segments,
            keys,
            total_rows: rows,
            distinct_count,
        },
        Distribution::Categorical { distinct_count, .. } => Distribution::Categorical {
            total_rows: rows,
            distinct_count,
        },
    }
}

/// The number of rows that were looked at.
pub open spec fn counted_rows(d: Distribution) -> usize {
    match d {
        Distribution::Numeric { total_rows, .. } => total_rows,
        Distribution::Categorical { total_rows, .. } => total_rows,
    }
}

/// The number of different values.
pub open spec fn different_values(d: Distribution) -> usize {
    match d {
        Distribution::Numeric { distinct_count, .. } => distinct_count,
        Distribution::Categorical { distinct_count, .. } => distinct_count,
    }
}

} // verus!
