//! What the estimates of a column's distribution say of the column.

use vstd::prelude::*;
use crate::compute::simd_ops::sorted_floats;
use crate::execution::operators::Datum;
use crate::float::{
    is_at_most, is_equal, is_less, not_a_number, rank, FloatModel, FloatOp,
    F64,
};
use crate::index::dynamic_pgm::{no_nan, sorted_keys, sorting_keeps_the_keys};
use crate::index::pgm::{
    below, below_place, begun_place, home, predicted_place, rank_estimate, segment_of, spans,
    tiled, PGMSegment,
};
use crate::optimizer::cardinality::{
    among_rows, categorical_distribution, counted_rows, different_values, distinct_numbers,
    distinct_texts, lemma_stat_place, number_of, numeric_distribution, one_of, scaled_rows,
    selectivity, stat_of, stat_place, table_rows, unit_clamped, without_table, Distribution,
    StatsModel,
};
use crate::optimizer::cost_model::ONE;

verus! {

/// One count divided by another, as the unit divides floats.
pub open spec fn quotient(a: u64, n: u64, fl: FloatModel) -> u64 {
    (fl.gives)(
        FloatOp::Over,
        (fl.gives)(FloatOp::OfCount, a, 0),
        (fl.gives)(FloatOp::OfCount, n, 0),
    )
}

/// What is left of one.
pub open spec fn remainder(x: u64, fl: FloatModel) -> u64 {
    (fl.gives)(FloatOp::Minus, ONE, x)
}

/// The unit divides counts in their order, from zero for none up to one for all, and takes
/// floats from one in the opposite order.
pub open spec fn divides_in_order(fl: FloatModel) -> bool {
    &&& (fl.gives)(FloatOp::OfCount, 1, 0) == ONE
    &&& forall|a: u64, b: u64, n: u64|
        #![trigger quotient(a, n, fl), quotient(b, n, fl)]
        a <= b && 0 < n ==> is_at_most(quotient(a, n, fl), quotient(b, n, fl))
    &&& forall|n: u64| 0 < n ==> #[trigger] quotient(n, n, fl) == ONE
    &&& forall|n: u64| 0 < n ==> #[trigger] quotient(0, n, fl) == 0
    &&& forall|x: u64, y: u64|
        #![trigger remainder(x, fl), remainder(y, fl)]
        is_at_most(x, y) ==> is_at_most(remainder(y, fl), remainder(x, fl))
    &&& remainder(0, fl) == ONE
    &&& remainder(ONE, fl) == 0
}

proof fn lemma_quotient(a: u64, n: u64, fl: FloatModel)
    requires
        divides_in_order(fl),
        a <= n,
        0 < n,
    ensures
        is_at_most(0, quotient(a, n, fl)),
        is_at_most(quotient(a, n, fl), ONE),
        is_at_most(0, remainder(quotient(a, n, fl), fl)),
        is_at_most(remainder(quotient(a, n, fl), fl), ONE),
{
    assert(quotient(0, n, fl) == 0 && quotient(n, n, fl) == ONE);
    assert(is_at_most(quotient(0, n, fl), quotient(a, n, fl)));
    assert(is_at_most(quotient(a, n, fl), quotient(n, n, fl)));
    let q = quotient(a, n, fl);
    assert(is_at_most(remainder(ONE, fl), remainder(q, fl)));
    assert(is_at_most(remainder(q, fl), remainder(0, fl)));
}

proof fn lemma_signs()
    ensures
        seq!['='].len() == 1 && seq!['<'].len() == 1 && seq!['>'].len() == 1,
        seq!['<', '='].len() == 2 && seq!['>', '='].len() == 2,
        seq!['!', '='].len() == 2 && seq!['<', '>'].len() == 2,
        "="@ == seq!['='],
        "!="@ == seq!['!', '='],
        "<>"@ == seq!['<', '>'],
        "<"@ == seq!['<'],
        "<="@ == seq!['<', '='],
        ">"@ == seq!['>'],
        ">="@ == seq!['>', '='],
        seq!['='] != seq!['<'],
        seq!['='] != seq!['>'],
        seq!['<'] != seq!['>'],
        seq!['<', '='] != seq!['>', '='],
        seq!['<', '='] != seq!['<', '>'],
        seq!['<', '='] != seq!['!', '='],
        seq!['>', '='] != seq!['<', '>'],
        seq!['>', '='] != seq!['!', '='],
{
    reveal_strlit("=");
    reveal_strlit("!=");
    reveal_strlit("<>");
    reveal_strlit("<");
    reveal_strlit("<=");
    reveal_strlit(">");
    reveal_strlit(">=");
    assert("="@ =~= seq!['=']);
    assert("!="@ =~= seq!['!', '=']);
    assert("<>"@ =~= seq!['<', '>']);
    assert("<"@ =~= seq!['<']);
    assert("<="@ =~= seq!['<', '=']);
    assert(">"@ =~= seq!['>']);
    assert(">="@ =~= seq!['>', '=']);
    assert(seq!['='][0] == '=' && seq!['<'][0] == '<' && seq!['>'][0] == '>');
    assert(seq!['<', '='][0] == '<' && seq!['<', '='][1] == '=');
    assert(seq!['>', '='][0] == '>' && seq!['!', '='][0] == '!' && seq!['<', '>'][0] == '<');
    assert(seq!['<', '>'][1] == '>');
}

/// The number of keys that are less than a number.
pub open spec fn count_less(keys: Seq<F64>, v: u64) -> nat {
    keys.filter(|k: F64| is_less(k.bits, v)).len()
}

/// The number of keys that are at most a number.
pub open spec fn count_at_most(keys: Seq<F64>, v: u64) -> nat {
    keys.filter(|k: F64| is_at_most(k.bits, v)).len()
}

proof fn lemma_count_below(keys: Seq<F64>, v: u64)
    requires
        sorted_floats(keys),
        !not_a_number(v),
    ensures
        below(keys, v, 0) == count_less(keys, v),
{
    let b = below(keys, v, 0);
    below_place(keys, v, 0);
    let p = |k: F64| is_less(k.bits, v);
    let low = keys.take(b);
    let high = keys.skip(b);
    assert(keys =~= low + high);
    Seq::filter_distributes_over_add(low, high, p);
    assert forall|i: int| 0 <= i < low.len() implies p(#[trigger] low[i]) by {
        assert(low[i] == keys[i]);
    }
    assert forall|i: int| 0 <= i < high.len() implies !p(#[trigger] high[i]) by {
        assert(high[i] == keys[b + i]);
        assert(rank(keys[b].bits) <= rank(keys[b + i].bits));
    }
    lemma_all_kept(low, p);
    lemma_none_kept(high, p);
}

proof fn lemma_all_kept(s: Seq<F64>, p: spec_fn(F64) -> bool)
    requires
        forall|i: int| 0 <= i < s.len() ==> p(#[trigger] s[i]),
    ensures
        s.filter(p).len() == s.len(),
    decreases s.len(),
{
    reveal(Seq::filter);
    if s.len() > 0 {
        assert forall|i: int| 0 <= i < s.drop_last().len() implies p(
            #[trigger] s.drop_last()[i],
        ) by {
            assert(s.drop_last()[i] == s[i]);
        }
        lemma_all_kept(s.drop_last(), p);
        assert(p(s[s.len() - 1]));
    }
}

proof fn lemma_none_kept(s: Seq<F64>, p: spec_fn(F64) -> bool)
    requires
        forall|i: int| 0 <= i < s.len() ==> !p(#[trigger] s[i]),
    ensures
        s.filter(p).len() == 0,
    decreases s.len(),
{
    reveal(Seq::filter);
    if s.len() > 0 {
        assert forall|i: int| 0 <= i < s.drop_last().len() implies !p(
            #[trigger] s.drop_last()[i],
        ) by {
            assert(s.drop_last()[i] == s[i]);
        }
        lemma_none_kept(s.drop_last(), p);
        assert(!p(s[s.len() - 1]));
    }
}

/// Where the rank of a value is predicted exactly, the estimate for `<=` is the share of
/// the rows whose number is at most the value, and that for `>` the share of the others
/// that have a number; the same holds of `<` and `>=` for every value. Without nulls the
/// share of the others is what is left of one.
pub proof fn shares_count_the_numbers(
    segments: Seq<PGMSegment>,
    keys: Seq<F64>,
    total_rows: usize,
    distinct_count: usize,
    value: Datum,
    v: u64,
    fl: FloatModel,
)
    requires
        divides_in_order(fl),
        sorted_floats(keys),
        keys.len() <= total_rows,
        0 < total_rows,
        number_of(value, fl) == Some(v),
        !not_a_number(v),
        rank_estimate(segments, keys, v, fl) == count_at_most(keys, v),
    ensures
        ({
            let d = Distribution::Numeric { segments, keys, total_rows, distinct_count };
            let n = total_rows as u64;
            let under = count_less(keys, v);
            let at_most = count_at_most(keys, v);
            let says = |op: Seq<char>| selectivity(d, op, value, fl);
            &&& says(seq!['<', '=']) == Some(quotient(at_most as u64, n, fl))
            &&& says(seq!['<']) == Some(quotient(under as u64, n, fl))
            &&& keys.len() == total_rows ==> says(seq!['>']) == Some(
                remainder(quotient(at_most as u64, n, fl), fl),
            ) && says(seq!['>', '=']) == Some(remainder(quotient(under as u64, n, fl), fl))
            &&& keys.len() < total_rows ==> says(seq!['>']) == Some(
                quotient((keys.len() - at_most) as u64, n, fl),
            ) && says(seq!['>', '=']) == Some(quotient((keys.len() - under) as u64, n, fl))
        }),
{
    lemma_signs();
    lemma_count_below(keys, v);
    let n = total_rows as u64;
    let under = count_less(keys, v);
    let at_most = count_at_most(keys, v);
    keys.lemma_filter_len(|k: F64| is_less(k.bits, v));
    keys.lemma_filter_len(|k: F64| is_at_most(k.bits, v));
    lemma_quotient(under as u64, n, fl);
    lemma_quotient(at_most as u64, n, fl);
    lemma_quotient((keys.len() - under) as u64, n, fl);
    lemma_quotient((keys.len() - at_most) as u64, n, fl);
    let d = Distribution::Numeric { segments, keys, total_rows, distinct_count };
    assert(selectivity(d, seq!['<', '='], value, fl) == Some(quotient(at_most as u64, n, fl)));
    let less = seq!['<'];
    assert(less != "="@ && less != "<="@ && less != ">"@ && less == "<"@);
    assert(below(keys, v, 0) == under);
    assert(selectivity(d, less, value, fl) == Some(quotient(under as u64, n, fl)));
    if keys.len() == total_rows {
        assert(selectivity(d, seq!['>'], value, fl) == Some(
            remainder(quotient(at_most as u64, n, fl), fl),
        ));
        assert(selectivity(d, seq!['>', '='], value, fl) == Some(
            remainder(quotient(under as u64, n, fl), fl),
        ));
    } else {
        assert(selectivity(d, seq!['>'], value, fl) == Some(
            quotient((keys.len() - at_most) as u64, n, fl),
        ));
        assert(selectivity(d, seq!['>', '='], value, fl) == Some(
            quotient((keys.len() - under) as u64, n, fl),
        ));
    }
}

/// The predictions of each segment go up with the value.
pub open spec fn predict_in_order(segments: Seq<PGMSegment>, fl: FloatModel) -> bool {
    forall|k: int, v: u64, w: u64|
        #![trigger predicted_place(segments[k], v, fl), predicted_place(segments[k], w, fl)]
        0 <= k < segments.len() && is_at_most(v, w) ==> predicted_place(segments[k], v, fl)
            <= predicted_place(segments[k], w, fl)
}

proof fn lemma_segment_spans(
    segments: Seq<PGMSegment>,
    keys: Seq<F64>,
    v: u64,
)
    requires
        sorted_floats(keys),
        tiled(segments, keys, keys.len() as int),
        keys.len() > 0,
        is_at_most(keys[0].bits, v),
    ensures
        segments.len() > 0,
        0 <= home(segments, v) < segments.len(),
        is_at_most(segments[home(segments, v)].start_key.bits, v),
        home(segments, v) + 1 < segments.len() ==> !is_at_most(
            segments[home(segments, v) + 1].start_key.bits,
            v,
        ),
        match segment_of(segments, v) {
            Some(k) => k == home(segments, v),
            None => !is_at_most(v, segments[home(segments, v)].end_key.bits),
        },
{
    assert(segments.len() > 0);
    begun_place(segments, v, 0);
    assert(segments[0].start_pos == 0 && segments[0].start_key == keys[0]);
    let h = home(segments, v);
    if h + 1 < segments.len() {
        assert(!spans(segments[h + 1], v));
    }
}

proof fn lemma_starts_in_order(segments: Seq<PGMSegment>, keys: Seq<F64>, next: int, a: int, b: int)
    requires
        tiled(segments, keys, next),
        0 <= a < b < segments.len(),
    ensures
        segments[a].end_pos < segments[b].start_pos,
    decreases b - a,
{
    let c = b - 1;
    assert(segments[b].start_pos == segments[c].end_pos + 1);
    if a < c {
        lemma_starts_in_order(segments, keys, next, a, c);
        assert(segments[c].start_pos <= segments[c].end_pos);
    }
}

proof fn lemma_rank_goes_up(
    segments: Seq<PGMSegment>,
    keys: Seq<F64>,
    v: u64,
    w: u64,
    fl: FloatModel,
)
    requires
        sorted_floats(keys),
        tiled(segments, keys, keys.len() as int),
        predict_in_order(segments, fl),
        is_at_most(v, w),
    ensures
        0 <= rank_estimate(segments, keys, v, fl) <= rank_estimate(segments, keys, w, fl)
            <= keys.len(),
{
    if keys.len() > 0 {
        let n = keys.len() as int;
        assert(rank(keys[0].bits) <= rank(keys[n - 1].bits));
        assert(!not_a_number(keys[0].bits) && !not_a_number(keys[n - 1].bits));
        let inside = |x: u64| !is_less(x, keys[0].bits) && !is_at_most(keys[n - 1].bits, x);
        if inside(v) {
            lemma_segment_spans(segments, keys, v);
        }
        if inside(w) {
            lemma_segment_spans(segments, keys, w);
        }
        if inside(v) && inside(w) {
            let a = home(segments, v);
            let b = home(segments, w);
            if a == b {
                assert(predicted_place(segments[a], v, fl) <= predicted_place(segments[a], w, fl));
            } else if a < b {
                lemma_starts_in_order(segments, keys, n, a, b);
            } else {
                lemma_starts_in_order(segments, keys, n, b, a);
                lemma_starts_in_order_of_next(segments, keys, n, b, a);
                assert(rank(segments[b + 1].start_key.bits) <= rank(segments[a].start_key.bits));
            }
        }
    }
}

proof fn lemma_starts_in_order_of_next(
    segments: Seq<PGMSegment>,
    keys: Seq<F64>,
    next: int,
    b: int,
    a: int,
)
    requires
        sorted_floats(keys),
        tiled(segments, keys, next),
        0 <= b < a < segments.len(),
    ensures
        rank(segments[b + 1].start_key.bits) <= rank(segments[a].start_key.bits),
{
    if b + 1 < a {
        lemma_starts_in_order(segments, keys, next, b + 1, a);
    }
    let i = segments[b + 1].start_pos as int;
    let j = segments[a].start_pos as int;
    assert(i <= j);
    assert(rank(keys[i].bits) <= rank(keys[j].bits));
}

/// A greater value never has a lesser share for `<=` and `<`, nor a greater one for `>` and
/// `>=`.
pub proof fn a_greater_value_keeps_no_fewer_rows(
    segments: Seq<PGMSegment>,
    keys: Seq<F64>,
    total_rows: usize,
    distinct_count: usize,
    a: Datum,
    b: Datum,
    v: u64,
    w: u64,
    fl: FloatModel,
)
    requires
        divides_in_order(fl),
        sorted_floats(keys),
        tiled(segments, keys, keys.len() as int),
        predict_in_order(segments, fl),
        keys.len() <= total_rows,
        0 < total_rows,
        number_of(a, fl) == Some(v),
        number_of(b, fl) == Some(w),
        is_at_most(v, w),
    ensures
        ({
            let d = Distribution::Numeric { segments, keys, total_rows, distinct_count };
            let at = |op: Seq<char>| selectivity(d, op, a, fl);
            let later = |op: Seq<char>| selectivity(d, op, b, fl);
            let up = |op: Seq<char>|
                at(op) is Some && later(op) is Some && is_at_most(at(op)->0, later(op)->0);
            let down = |op: Seq<char>|
                at(op) is Some && later(op) is Some && is_at_most(later(op)->0, at(op)->0);
            &&& up(seq!['<', '='])
            &&& up(seq!['<'])
            &&& down(seq!['>'])
            &&& down(seq!['>', '='])
        }),
{
    lemma_signs();
    lemma_rank_goes_up(segments, keys, v, w, fl);
    below_place(keys, v, 0);
    below_place(keys, w, 0);
    let n = total_rows as u64;
    let r = rank_estimate(segments, keys, v, fl);
    let s = rank_estimate(segments, keys, w, fl);
    let x = below(keys, v, 0);
    let y = below(keys, w, 0);
    if y < x {
        assert(is_less(keys[y].bits, v));
    }
    assert(x <= y);
    let m = keys.len() as int;
    lemma_quotient(r as u64, n, fl);
    lemma_quotient(s as u64, n, fl);
    lemma_quotient(x as u64, n, fl);
    lemma_quotient(y as u64, n, fl);
    lemma_quotient((m - r) as u64, n, fl);
    lemma_quotient((m - s) as u64, n, fl);
    lemma_quotient((m - x) as u64, n, fl);
    lemma_quotient((m - y) as u64, n, fl);
    assert(is_at_most(quotient(r as u64, n, fl), quotient(s as u64, n, fl)));
    assert(is_at_most(quotient(x as u64, n, fl), quotient(y as u64, n, fl)));
    assert(is_at_most(quotient((m - s) as u64, n, fl), quotient((m - r) as u64, n, fl)));
    assert(is_at_most(quotient((m - y) as u64, n, fl), quotient((m - x) as u64, n, fl)));
    assert(is_at_most(
        remainder(quotient(s as u64, n, fl), fl),
        remainder(quotient(r as u64, n, fl), fl),
    ));
    assert(is_at_most(
        remainder(quotient(y as u64, n, fl), fl),
        remainder(quotient(x as u64, n, fl), fl),
    ));
}

/// Of a column without nulls, a value above every number has the share one for `<=` and
/// `<` and none for `>` and `>=`; a value below every number the other way round.
pub proof fn beyond_all_numbers_it_is_all_or_nothing(
    segments: Seq<PGMSegment>,
    keys: Seq<F64>,
    total_rows: usize,
    distinct_count: usize,
    value: Datum,
    v: u64,
    fl: FloatModel,
)
    requires
        divides_in_order(fl),
        sorted_floats(keys),
        keys.len() == total_rows,
        0 < total_rows,
        number_of(value, fl) == Some(v),
    ensures
        ({
            let d = Distribution::Numeric { segments, keys, total_rows, distinct_count };
            let says = |op: Seq<char>| selectivity(d, op, value, fl);
            &&& is_less(keys.last().bits, v) ==> says(seq!['<', '=']) == Some(ONE) && says(
                seq!['<'],
            ) == Some(ONE) && says(seq!['>']) == Some(0u64) && says(seq!['>', '=']) == Some(0u64)
            &&& is_less(v, keys[0].bits) ==> says(seq!['<', '=']) == Some(0u64) && says(seq!['<'])
                == Some(0u64) && says(seq!['>']) == Some(ONE) && says(seq!['>', '=']) == Some(ONE)
        }),
{
    lemma_signs();
    let n = total_rows as u64;
    assert(quotient(n, n, fl) == ONE && quotient(0, n, fl) == 0);
    assert(rank(keys[0].bits) <= rank(keys.last().bits));
    below_place(keys, v, 0);
    let b = below(keys, v, 0);
    if is_less(keys.last().bits, v) {
        if b < keys.len() {
            assert(rank(keys[b].bits) <= rank(keys.last().bits));
        }
    } else if is_less(v, keys[0].bits) {
        if b > 0 {
            assert(is_less(keys[0].bits, v));
        }
    }
}

/// One of so many different values has that part of the rows, and the others have what is
/// left, whether the values are numbers or texts; of a column with nulls, what is left of
/// the rows that have a number. There is no estimate for a text among numbers, nor for a
/// number among texts.
pub proof fn one_value_has_an_equal_part(
    segments: Seq<PGMSegment>,
    keys: Seq<F64>,
    total_rows: usize,
    distinct_count: usize,
    value: Datum,
    op: Seq<char>,
    fl: FloatModel,
)
    requires
        divides_in_order(fl),
        0 < distinct_count,
        0 < total_rows,
    ensures
        ({
            let d = Distribution::Numeric { segments, keys, total_rows, distinct_count };
            let c = Distribution::Categorical { total_rows, distinct_count };
            let part = quotient(1, distinct_count as u64, fl);
            let differs = op == seq!['!', '='] || op == seq!['<', '>'];
            &&& number_of(value, fl) is Some && op == seq!['='] ==> selectivity(d, op, value, fl)
                == Some(part)
            &&& number_of(value, fl) is Some && differs && keys.len() == total_rows ==> selectivity(
                d,
                op,
                value,
                fl,
            ) == Some(remainder(part, fl))
            &&& value is Text && op == seq!['='] ==> selectivity(c, op, value, fl) == Some(part)
            &&& value is Text && differs ==> selectivity(c, op, value, fl) == Some(
                remainder(part, fl),
            )
            &&& value is Text || value is Null ==> selectivity(d, op, value, fl) is None
            &&& value is Integer || value is Float || value is Null ==> selectivity(
                c,
                op,
                value,
                fl,
            ) is None
        }),
{
    lemma_signs();
    let m = distinct_count as u64;
    lemma_quotient(1, m, fl);
    let part = quotient(1, m, fl);
    let d = Distribution::Numeric { segments, keys, total_rows, distinct_count };
    let c = Distribution::Categorical { total_rows, distinct_count };
    let differs = op == seq!['!', '='] || op == seq!['<', '>'];
    assert(one_of(distinct_count, fl) == part);
    assert(unit_clamped(part) == part);
    assert(unit_clamped(remainder(part, fl)) == remainder(part, fl));
    if number_of(value, fl) is Some && op == seq!['='] {
        assert(selectivity(d, op, value, fl) == Some(part));
    }
    if number_of(value, fl) is Some && differs && keys.len() == total_rows {
        assert(op.len() == 2);
        assert(op != "="@ && op != "<"@ && op != ">"@ && op != "<="@ && op != ">="@);
        assert(selectivity(d, op, value, fl) == Some(remainder(part, fl)));
    }
    if value is Text && op == seq!['='] {
        assert(selectivity(c, op, value, fl) == Some(part));
    }
    if value is Text && differs {
        assert(selectivity(c, op, value, fl) == Some(remainder(part, fl)));
    }
}

/// Scaling keeps all of the rows for the share one, and none for the share zero.
pub proof fn a_share_scales_the_rows(rows: usize, fl: FloatModel)
    requires
        ({
            let n = (fl.gives)(FloatOp::OfCount, rows as u64, 0);
            &&& (fl.gives)(FloatOp::Times, n, ONE) == n
            &&& (fl.gives)(FloatOp::Times, n, 0) == 0
            &&& (fl.gives)(FloatOp::ToCount, n, 0) == rows
            &&& (fl.gives)(FloatOp::ToCount, 0, 0) == 0
        }),
    ensures
        scaled_rows(rows, ONE, fl) == rows,
        scaled_rows(rows, 0, fl) == 0,
{
}

/// Rows are scaled by multiplying their number with the share: a share of which the unit
/// makes more than of another gives no fewer rows.
pub proof fn a_greater_share_gives_no_fewer_rows(rows: usize, s: u64, t: u64, fl: FloatModel)
    requires
        usize::MAX == u64::MAX,
        ({
            let n = (fl.gives)(FloatOp::OfCount, rows as u64, 0);
            (fl.gives)(FloatOp::ToCount, (fl.gives)(FloatOp::Times, n, s), 0) <= (fl.gives)(
                FloatOp::ToCount,
                (fl.gives)(FloatOp::Times, n, t),
                0,
            )
        }),
    ensures
        scaled_rows(rows, s, fl) <= scaled_rows(rows, t, fl),
{
}

/// The number of different values grows by one with a number that is not among those
/// before it, and by none with one that is; for numbers in their order.
pub proof fn different_numbers_are_counted_once(keys: Seq<F64>, x: F64)
    requires
        sorted_floats(keys.push(x)),
    ensures
        ({
            let n = keys.len() as int;
            let before = distinct_numbers(keys, n);
            let after = distinct_numbers(keys.push(x), n + 1);
            if exists|i: int| 0 <= i < n && is_equal((#[trigger] keys[i]).bits, x.bits) {
                after == before
            } else {
                after == before + 1
            }
        }),
{
    let n = keys.len() as int;
    let more = keys.push(x);
    lemma_distinct_of_more(keys, x, n);
    if n > 0 {
        assert(more[n - 1] == keys[n - 1] && more[n] == x);
        if exists|i: int| 0 <= i < n && is_equal((#[trigger] keys[i]).bits, x.bits) {
            let i = choose|i: int| 0 <= i < n && is_equal((#[trigger] keys[i]).bits, x.bits);
            assert(more[i] == keys[i]);
            assert(rank(more[i].bits) <= rank(more[n - 1].bits));
            assert(rank(more[n - 1].bits) <= rank(more[n].bits));
            assert(!not_a_number(more[n - 1].bits));
        }
    }
}

proof fn lemma_distinct_of_more(keys: Seq<F64>, x: F64, n: int)
    requires
        0 <= n <= keys.len(),
    ensures
        distinct_numbers(keys.push(x), n) == distinct_numbers(keys, n),
    decreases n,
{
    if n > 0 {
        lemma_distinct_of_more(keys, x, n - 1);
        assert(keys.push(x)[n - 1] == keys[n - 1]);
        if n > 1 {
            assert(keys.push(x)[n - 2] == keys[n - 2]);
        }
    }
}

/// The number of different texts grows by one with a text that is not among those before
/// it, and by none with one that is.
pub proof fn different_texts_are_counted_once(v: Seq<Seq<char>>, t: Seq<char>)
    ensures
        ({
            let n = v.len() as int;
            let before = distinct_texts(v, n);
            let after = distinct_texts(v.push(t), n + 1);
            if v.contains(t) {
                after == before
            } else {
                after == before + 1
            }
        }),
{
    let n = v.len() as int;
    lemma_texts_of_more(v, t, n);
    assert(v.push(t).take(n) =~= v);
}

proof fn lemma_texts_of_more(v: Seq<Seq<char>>, t: Seq<char>, n: int)
    requires
        0 <= n <= v.len(),
    ensures
        distinct_texts(v.push(t), n) == distinct_texts(v, n),
    decreases n,
{
    if n > 0 {
        lemma_texts_of_more(v, t, n - 1);
        assert(v.push(t)[n - 1] == v[n - 1]);
        assert(v.push(t).take(n - 1) =~= v.take(n - 1));
    }
}

/// A distribution counts every value that it was made of, keeps the numbers in their order,
/// and never says that there is no value at all. As that of more rows it counts those.
pub proof fn a_distribution_counts_its_values(
    values: Seq<F64>,
    texts: Seq<Seq<char>>,
    error_bound: usize,
    rows: usize,
    fl: FloatModel,
)
    requires
        no_nan(values),
        values.len() <= usize::MAX,
        texts.len() <= usize::MAX,
    ensures
        ({
            let d = numeric_distribution(values, error_bound, fl);
            let c = categorical_distribution(texts);
            &&& counted_rows(d) == values.len()
            &&& counted_rows(c) == texts.len()
            &&& d matches Distribution::Numeric { keys, .. } && sorted_floats(keys)
                && keys.to_multiset() == values.to_multiset()
            &&& counted_rows(among_rows(d, rows)) == rows
            &&& counted_rows(among_rows(c, rows)) == rows
            &&& different_values(among_rows(d, rows)) == different_values(d)
            &&& different_values(among_rows(c, rows)) == different_values(c)
            &&& different_values(d) >= 1 && different_values(c) >= 1
            &&& texts.len() > 0 ==> different_values(c) == distinct_texts(
                texts,
                texts.len() as int,
            )
            &&& values.len() > 0 ==> different_values(d) == distinct_numbers(
                sorted_keys(values),
                values.len() as int,
            )
        }),
{
    sorting_keeps_the_keys(values);
    let keys = sorted_keys(values);
    lemma_distinct_bounds(keys, keys.len() as int);
    lemma_text_bounds(texts, texts.len() as int);
}

proof fn lemma_distinct_bounds(keys: Seq<F64>, n: int)
    requires
        0 <= n <= keys.len(),
    ensures
        0 <= distinct_numbers(keys, n) <= n,
        n > 0 ==> distinct_numbers(keys, n) >= 1,
    decreases n,
{
    if n > 0 {
        lemma_distinct_bounds(keys, n - 1);
    }
}

proof fn lemma_text_bounds(v: Seq<Seq<char>>, n: int)
    requires
        0 <= n <= v.len(),
    ensures
        0 <= distinct_texts(v, n) <= n,
        n > 0 ==> distinct_texts(v, n) >= 1,
    decreases n,
{
    if n > 0 {
        lemma_text_bounds(v, n - 1);
        if n == 1 {
            assert(v.take(0) =~= Seq::empty());
        }
    }
}

/// After a table is forgotten nothing is known of its columns, and what is known of the
/// columns of another table stays.
pub proof fn a_forgotten_table_is_unknown(
    stats: StatsModel,
    table: Seq<char>,
    other: Seq<char>,
    column: Seq<char>,
)
    ensures
        ({
            let left = without_table(stats, table, 0);
            &&& stat_of(left, table, column) is None
            &&& table_rows(left, table, 0) is None
            &&& other != table ==> stat_of(left, other, column) == stat_of(stats, other, column)
        }),
{
    lemma_without(stats, table, 0);
    let left = without_table(stats, table, 0);
    lemma_stat_place(left, table, column, 0);
    lemma_no_rows(left, table, 0);
    if other != table {
        lemma_kept_stat(stats, table, other, column, 0);
    }
}

proof fn lemma_no_rows(stats: StatsModel, table: Seq<char>, from: int)
    requires
        0 <= from <= stats.len(),
        forall|k: int| 0 <= k < stats.len() ==> (#[trigger] stats[k]).0 != table,
    ensures
        table_rows(stats, table, from) is None,
    decreases stats.len() - from,
{
    if from < stats.len() {
        lemma_no_rows(stats, table, from + 1);
    }
}

proof fn lemma_without(stats: StatsModel, table: Seq<char>, i: int)
    requires
        0 <= i <= stats.len(),
    ensures
        forall|k: int|
            0 <= k < without_table(stats, table, i).len() ==> (#[trigger] without_table(
                stats,
                table,
                i,
            )[k]).0 != table,
    decreases stats.len() - i,
{
    if i < stats.len() {
        lemma_without(stats, table, i + 1);
        let rest = without_table(stats, table, i + 1);
        let all = without_table(stats, table, i);
        if stats[i].0 != table {
            assert forall|k: int| 0 <= k < all.len() implies (#[trigger] all[k]).0 != table by {
                if k > 0 {
                    assert(all[k] == rest[k - 1]);
                }
            }
        }
    }
}

proof fn lemma_kept_stat(
    stats: StatsModel,
    table: Seq<char>,
    other: Seq<char>,
    column: Seq<char>,
    i: int,
)
    requires
        0 <= i <= stats.len(),
        other != table,
    ensures
        ({
            let left = without_table(stats, table, i);
            let a = stat_place(left, other, column, 0);
            let b = stat_place(stats, other, column, i);
            &&& a < left.len() <==> b < stats.len()
            &&& a < left.len() ==> left[a] == stats[b]
        }),
    decreases stats.len() - i,
{
    if i < stats.len() {
        lemma_kept_stat(stats, table, other, column, i + 1);
        let rest = without_table(stats, table, i + 1);
        let left = without_table(stats, table, i);
        lemma_stat_place(rest, other, column, 0);
        lemma_stat_place(stats, other, column, i + 1);
        if stats[i].0 != table {
            assert(left == seq![stats[i]] + rest);
            lemma_shifted(stats[i], rest, other, column, 0);
            assert(left[0] == stats[i]);
        }
    }
}

proof fn lemma_shifted(
    first: (Seq<char>, Seq<char>, Distribution),
    rest: StatsModel,
    table: Seq<char>,
    column: Seq<char>,
    from: int,
)
    requires
        0 <= from <= rest.len(),
    ensures
        stat_place(seq![first] + rest, table, column, from + 1) == stat_place(
            rest,
            table,
            column,
            from,
        ) + 1,
    decreases rest.len() - from,
{
    if from < rest.len() {
        assert((seq![first] + rest)[from + 1] == rest[from]);
        lemma_shifted(first, rest, table, column, from + 1);
    }
}

} // verus!
