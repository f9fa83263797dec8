//! What sorting promises: the same rows, in order, with ties left as they
//! came.

use vstd::prelude::*;
use crate::execution::operators::Datum;
use crate::execution::row_codec::ordering::{
    insert_place, lemma_insert_place, row_order, sort_order, sorted_rows, Place,
};
use crate::float::{not_a_number, FloatModel, Order};
use crate::text::{text_less, text_order_is_total, text_order_is_transitive};

verus! {

/// Two values that sorting can tell apart: one is null, or both are of the
/// same kind and neither is a float that is not a number.
pub open spec fn comparable(a: Datum, b: Datum) -> bool {
    match (a, b) {
        (Datum::Null, Datum::Float(y)) => !not_a_number(y),
        (Datum::Float(x), Datum::Null) => !not_a_number(x),
        (Datum::Null, _) => true,
        (_, Datum::Null) => true,
        (Datum::Integer(_), Datum::Integer(_)) => true,
        (Datum::Float(x), Datum::Float(y)) => !not_a_number(x) && !not_a_number(y),
        (Datum::Text(_), Datum::Text(_)) => true,
        (Datum::Boolean(_), Datum::Boolean(_)) => true,
        _ => false,
    }
}

/// Every key finds comparable values in every two of the rows.
pub open spec fn sortable(input: Seq<Seq<Datum>>, keys: Seq<Place>) -> bool {
    forall|a: int, b: int, k: int|
        0 <= a < input.len() && 0 <= b < input.len() && 0 <= k < keys.len() ==> comparable(
            (#[trigger] input[a])[(#[trigger] keys[k]).index],
            (#[trigger] input[b])[keys[k].index],
        )
}

/// `x` is not after `y`, and `y` is not after `z`.
spec fn chain(xy: Order, yz: Order) -> bool {
    xy != Order::Greater && yz != Order::Greater
}

proof fn lemma_value_flip(a: Datum, b: Datum, fl: FloatModel)
    ensures
        sort_order(b, a, fl) == sort_order(a, b, fl).flipped(),
{
    if let (Datum::Text(x), Datum::Text(y)) = (a, b) {
        text_order_is_total(x, y);
        text_order_is_total(y, x);
    }
}

proof fn lemma_value_chain(a: Datum, b: Datum, c: Datum, fl: FloatModel)
    requires
        comparable(a, b),
        comparable(b, c),
        comparable(a, c),
        chain(sort_order(a, b, fl), sort_order(b, c, fl)),
    ensures
        sort_order(a, c, fl) != Order::Greater,
        sort_order(a, c, fl) == Order::Equal ==> sort_order(a, b, fl) == Order::Equal
            && sort_order(b, c, fl) == Order::Equal,
{
    match (a, b, c) {
        (Datum::Text(x), Datum::Text(y), Datum::Text(z)) => {
            text_order_is_total(x, y);
            text_order_is_total(y, z);
            text_order_is_total(x, z);
            if text_less(x, y) && text_less(y, z) {
                text_order_is_transitive(x, y, z);
            }
        },
        _ => {},
    }
}

/// The rows compare by every key from place `i` on.
spec fn comparable_rows(a: Seq<Datum>, b: Seq<Datum>, keys: Seq<Place>) -> bool {
    forall|k: int|
        0 <= k < keys.len() ==> comparable(
            a[(#[trigger] keys[k]).index],
            b[keys[k].index],
        ) && comparable(b[keys[k].index], a[keys[k].index])
}

proof fn lemma_row_flip(
    a: Seq<Datum>,
    b: Seq<Datum>,
    keys: Seq<Place>,
    i: int,
    fl: FloatModel,
)
    requires
        0 <= i,
    ensures
        row_order(b, a, keys, i, fl) == row_order(a, b, keys, i, fl).flipped(),
    decreases keys.len() - i,
{
    if i < keys.len() {
        let k = keys[i];
        lemma_value_flip(a[k.index], b[k.index], fl);
        lemma_row_flip(a, b, keys, i + 1, fl);
    }
}

proof fn lemma_row_chain(
    a: Seq<Datum>,
    b: Seq<Datum>,
    c: Seq<Datum>,
    keys: Seq<Place>,
    i: int,
    fl: FloatModel,
)
    requires
        0 <= i,
        comparable_rows(a, b, keys),
        comparable_rows(b, c, keys),
        comparable_rows(a, c, keys),
        chain(row_order(a, b, keys, i, fl), row_order(b, c, keys, i, fl)),
    ensures
        row_order(a, c, keys, i, fl) != Order::Greater,
        row_order(a, c, keys, i, fl) == Order::Equal ==> row_order(a, b, keys, i, fl)
            == Order::Equal && row_order(b, c, keys, i, fl) == Order::Equal,
    decreases keys.len() - i,
{
    if i < keys.len() {
        let k = keys[i];
        let (x, y, z) = (a[k.index], b[k.index], c[k.index]);
        lemma_value_flip(x, y, fl);
        lemma_value_flip(y, z, fl);
        lemma_value_flip(x, z, fl);
        if k.ascending {
            lemma_value_chain(x, y, z, fl);
            if sort_order(x, y, fl) == Order::Equal && sort_order(y, z, fl) == Order::Equal {
                lemma_value_chain(z, y, x, fl);
            }
        } else {
            lemma_value_chain(z, y, x, fl);
            if sort_order(x, y, fl) == Order::Equal && sort_order(y, z, fl) == Order::Equal {
                lemma_value_chain(x, y, z, fl);
            }
        }
        if sort_order(x, y, fl) == Order::Equal && sort_order(y, z, fl) == Order::Equal {
            lemma_row_chain(a, b, c, keys, i + 1, fl);
        }
    }
}

/// Sorting neither loses nor invents a row: the result holds each row as often
/// as the input does.
pub proof fn sorting_keeps_the_rows(
    input: Seq<Seq<Datum>>,
    n: int,
    keys: Seq<Place>,
    fl: FloatModel,
)
    requires
        0 <= n <= input.len(),
    ensures
        sorted_rows(input, n, keys, fl).to_multiset() == input.take(n).to_multiset(),
        sorted_rows(input, n, keys, fl).len() == n,
    decreases n,
{
    broadcast use vstd::seq_lib::group_to_multiset_ensures;

    if n > 0 {
        sorting_keeps_the_rows(input, n - 1, keys, fl);
        let before = sorted_rows(input, n - 1, keys, fl);
        lemma_insert_place(before, input[n - 1], before.len() as int, keys, fl);
        vstd::seq_lib::to_multiset_insert(
            before,
            insert_place(before, input[n - 1], before.len() as int, keys, fl),
            input[n - 1],
        );
        assert(input.take(n) == input.take(n - 1).push(input[n - 1]));
        vstd::seq_lib::to_multiset_build(input.take(n - 1), input[n - 1]);
    } else {
        assert(input.take(0) == Seq::<Seq<Datum>>::empty());
    }
}

/// Every row of the result is a row of the input.
proof fn lemma_rows_come_from_input(
    input: Seq<Seq<Datum>>,
    n: int,
    keys: Seq<Place>,
    fl: FloatModel,
    i: int,
)
    requires
        0 <= n <= input.len(),
        0 <= i < sorted_rows(input, n, keys, fl).len(),
    ensures
        exists|j: int| 0 <= j < n && #[trigger] input[j] == sorted_rows(input, n, keys, fl)[i],
    decreases n,
{
    if n > 0 {
        let before = sorted_rows(input, n - 1, keys, fl);
        let p = insert_place(before, input[n - 1], before.len() as int, keys, fl);
        lemma_insert_place(before, input[n - 1], before.len() as int, keys, fl);
        if i == p {
            assert(input[n - 1] == sorted_rows(input, n, keys, fl)[i]);
        } else {
            let k = if i < p { i } else { i - 1 };
            lemma_rows_come_from_input(input, n - 1, keys, fl, k);
            let j = choose|j: int| 0 <= j < n - 1 && #[trigger] input[j] == before[k];
            assert(input[j] == sorted_rows(input, n, keys, fl)[i]);
        }
    }
}

proof fn lemma_comparable_in(input: Seq<Seq<Datum>>, keys: Seq<Place>, a: int, b: int)
    requires
        sortable(input, keys),
        0 <= a < input.len(),
        0 <= b < input.len(),
    ensures
        comparable_rows(input[a], input[b], keys),
{
    assert forall|k: int| 0 <= k < keys.len() implies comparable(
        input[a][(#[trigger] keys[k]).index],
        input[b][keys[k].index],
    ) && comparable(input[b][keys[k].index], input[a][keys[k].index]) by {
        assert(comparable(input[a][keys[k].index], input[b][keys[k].index]));
        assert(comparable(input[b][keys[k].index], input[a][keys[k].index]));
    }
}

/// The result of sorting is in order: no row stands before one that the keys
/// put ahead of it.
pub proof fn sorting_puts_in_order(
    input: Seq<Seq<Datum>>,
    n: int,
    keys: Seq<Place>,
    fl: FloatModel,
)
    requires
        0 <= n <= input.len(),
        sortable(input, keys),
    ensures
        forall|i: int, j: int|
            0 <= i < j < sorted_rows(input, n, keys, fl).len() ==> row_order(
                #[trigger] sorted_rows(input, n, keys, fl)[i],
                #[trigger] sorted_rows(input, n, keys, fl)[j],
                keys,
                0,
                fl,
            ) != Order::Greater,
    decreases n,
{
    if n > 0 {
        sorting_puts_in_order(input, n - 1, keys, fl);
        let before = sorted_rows(input, n - 1, keys, fl);
        let row = input[n - 1];
        let p = insert_place(before, row, before.len() as int, keys, fl);
        lemma_insert_place(before, row, before.len() as int, keys, fl);
        let after = sorted_rows(input, n, keys, fl);
        assert(after == before.insert(p, row));
        assert forall|i: int, j: int| 0 <= i < j < after.len() implies row_order(
            #[trigger] after[i],
            #[trigger] after[j],
            keys,
            0,
            fl,
        ) != Order::Greater by {
            if i == p {
                assert(after[j] == before[j - 1]);
                assert(row_order(row, before[j - 1], keys, 0, fl) == Order::Less);
            } else if j == p {
                lemma_rows_come_from_input(input, n - 1, keys, fl, i);
                lemma_rows_come_from_input(input, n - 1, keys, fl, p - 1);
                let a = choose|a: int| 0 <= a < n - 1 && #[trigger] input[a] == before[i];
                let b = choose|b: int| 0 <= b < n - 1 && #[trigger] input[b] == before[p - 1];
                lemma_comparable_in(input, keys, a, b);
                lemma_comparable_in(input, keys, b, n - 1);
                lemma_comparable_in(input, keys, a, n - 1);
                lemma_row_flip(row, before[p - 1], keys, 0, fl);
                if i < p - 1 {
                    lemma_row_chain(before[i], before[p - 1], row, keys, 0, fl);
                }
            } else {
                let x = if i < p { i } else { i - 1 };
                let y = if j < p { j } else { j - 1 };
                assert(after[i] == before[x] && after[j] == before[y]);
            }
        }
    }
}

/// No row stands next to one that the keys put ahead of it, also among rows of which
/// some cannot be compared.
pub proof fn neighbours_are_in_order(
    input: Seq<Seq<Datum>>,
    n: int,
    keys: Seq<Place>,
    fl: FloatModel,
)
    requires
        0 <= n <= input.len(),
    ensures
        forall|i: int, j: int|
            0 <= i && i + 1 == j && j < sorted_rows(input, n, keys, fl).len() ==> row_order(
                #[trigger] sorted_rows(input, n, keys, fl)[i],
                #[trigger] sorted_rows(input, n, keys, fl)[j],
                keys,
                0,
                fl,
            ) != Order::Greater,
    decreases n,
{
    if n > 0 {
        neighbours_are_in_order(input, n - 1, keys, fl);
        let before = sorted_rows(input, n - 1, keys, fl);
        let row = input[n - 1];
        let p = insert_place(before, row, before.len() as int, keys, fl);
        lemma_insert_place(before, row, before.len() as int, keys, fl);
        let after = sorted_rows(input, n, keys, fl);
        assert(after == before.insert(p, row));
        assert forall|i: int, j: int|
            0 <= i && i + 1 == j && j < after.len() implies row_order(
            #[trigger] after[i],
            #[trigger] after[j],
            keys,
            0,
            fl,
        ) != Order::Greater by {
            if i == p {
                assert(after[j] == before[p]);
            } else if j == p {
                assert(after[i] == before[p - 1]);
                lemma_row_flip(row, before[p - 1], keys, 0, fl);
            } else {
                let x = if i < p { i } else { i - 1 };
                let y = if j < p { j } else { j - 1 };
                assert(after[i] == before[x] && after[j] == before[y]);
            }
        }
    }
}

/// The rows that the keys do not tell apart from `row`.
pub open spec fn ties(
    s: Seq<Seq<Datum>>,
    row: Seq<Datum>,
    keys: Seq<Place>,
    fl: FloatModel,
) -> Seq<Seq<Datum>> {
    s.filter(|r: Seq<Datum>| row_order(r, row, keys, 0, fl) == Order::Equal)
}

proof fn lemma_filter_none(s: Seq<Seq<Datum>>, pred: spec_fn(Seq<Datum>) -> bool)
    requires
        forall|i: int| 0 <= i < s.len() ==> !pred(#[trigger] s[i]),
    ensures
        s.filter(pred) == Seq::<Seq<Datum>>::empty(),
    decreases s.len(),
{
    reveal(Seq::filter);
    if s.len() > 0 {
        lemma_filter_none(s.drop_last(), pred);
    }
}

/// Sorting is stable: rows that the keys do not tell apart stand in the result
/// in the order in which they came.
pub proof fn sorting_is_stable(
    input: Seq<Seq<Datum>>,
    n: int,
    m: int,
    keys: Seq<Place>,
    fl: FloatModel,
)
    requires
        0 <= n <= input.len(),
        0 <= m < input.len(),
        sortable(input, keys),
    ensures
        ties(sorted_rows(input, n, keys, fl), input[m], keys, fl) == ties(
            input.take(n),
            input[m],
            keys,
            fl,
        ),
    decreases n,
{
    reveal(Seq::filter);
    let pred = |r: Seq<Datum>| row_order(r, input[m], keys, 0, fl) == Order::Equal;
    if n > 0 {
        sorting_is_stable(input, n - 1, m, keys, fl);
        let before = sorted_rows(input, n - 1, keys, fl);
        let row = input[n - 1];
        let p = insert_place(before, row, before.len() as int, keys, fl);
        lemma_insert_place(before, row, before.len() as int, keys, fl);
        let front = before.take(p);
        let back = before.skip(p);
        assert(before == front + back);
        assert(sorted_rows(input, n, keys, fl) == front + seq![row] + back);
        Seq::filter_distributes_over_add(front, back, pred);
        Seq::filter_distributes_over_add(front + seq![row], back, pred);
        Seq::filter_distributes_over_add(front, seq![row], pred);
        Seq::filter_distributes_over_add(input.take(n - 1), seq![row], pred);
        assert(input.take(n) == input.take(n - 1) + seq![row]);
        if pred(row) {
            assert forall|i: int| 0 <= i < back.len() implies !pred(#[trigger] back[i]) by {
                assert(back[i] == before[p + i]);
                assert(row_order(row, before[p + i], keys, 0, fl) == Order::Less);
                lemma_rows_come_from_input(input, n - 1, keys, fl, p + i);
                let b = choose|b: int| 0 <= b < n - 1 && #[trigger] input[b] == before[p + i];
                lemma_comparable_in(input, keys, n - 1, b);
                lemma_comparable_in(input, keys, b, m);
                lemma_comparable_in(input, keys, m, b);
                lemma_comparable_in(input, keys, n - 1, m);
                lemma_comparable_in(input, keys, m, n - 1);
                lemma_comparable_in(input, keys, b, n - 1);
                if pred(back[i]) {
                    lemma_row_flip(row, input[m], keys, 0, fl);
                    lemma_row_chain(back[i], input[m], row, keys, 0, fl);
                    lemma_row_flip(row, back[i], keys, 0, fl);
                }
            }
            lemma_filter_none(back, pred);
            assert(front.filter(pred) + back.filter(pred) == front.filter(pred));
            assert(front.filter(pred) + seq![row].filter(pred) + back.filter(pred) == front.filter(
                pred,
            ) + back.filter(pred) + seq![row].filter(pred));
        } else {
            let one = seq![row];
            lemma_filter_none(one, pred);
            assert(front.filter(pred) + one.filter(pred) + back.filter(pred) == front.filter(pred)
                + back.filter(pred));
            assert(input.take(n - 1).filter(pred) + one.filter(pred) == input.take(n - 1).filter(
                pred,
            ));
        }
    } else {
        assert(input.take(0) == Seq::<Seq<Datum>>::empty());
    }
}

} // verus!
