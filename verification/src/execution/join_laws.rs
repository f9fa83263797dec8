//! What joins promise.

use vstd::prelude::*;
use vstd::multiset::Multiset;
use crate::execution::join::{
    by_left, by_right, condition_matcher, key_matcher, keys_match, left_matches, lone_lefts,
    lone_rights, nulls, right_matches, unmatched, with_lefts, with_rights, Matcher,
};
use crate::execution::catalog::SchemaModel;
use crate::execution::join_schema::{
    all_reach, equality_keys, joined_on, keys_of_one_kind, loop_joined,
};
use crate::execution::operators::Datum;
use crate::execution::relation::RelationModel;
use crate::execution::row_codec::predicate::{predicate_of, Comparison, Expr, Operand};
use crate::execution::row_codec::predicate_laws::three_tokens_are_one_comparison;
use crate::execution::row_codec::tokens::tokens_of;
use crate::execution::secondary_index::variant_rank;
use crate::float::{is_equal, not_a_number, FloatModel};
use crate::sql::parser::JoinKind;
use crate::text::text_order_is_total;

verus! {

proof fn lemma_add_multisets(a: Seq<Seq<Datum>>, b: Seq<Seq<Datum>>)
    ensures
        (a + b).to_multiset() == a.to_multiset().add(b.to_multiset()),
{
    vstd::seq_lib::lemma_multiset_commutative(a, b);
}

proof fn lemma_push_multiset(a: Seq<Seq<Datum>>, x: Seq<Datum>)
    ensures
        a.push(x).to_multiset() == a.to_multiset().insert(x),
{
    vstd::seq_lib::to_multiset_build(a, x);
}

proof fn lemma_with_rights_prefix(
    left: Seq<Datum>,
    r: Seq<Seq<Datum>>,
    m: Matcher,
    n: int,
    k: int,
)
    requires
        0 <= k <= n <= r.len(),
    ensures
        with_rights(left, r.take(n), m, k) == with_rights(left, r, m, k),
    decreases k,
{
    if k > 0 {
        lemma_with_rights_prefix(left, r, m, n, k - 1);
        assert(r.take(n)[k - 1] == r[k - 1]);
    }
}

/// One more right row adds the rows that the left rows make with it.
proof fn lemma_one_more_right(
    l: Seq<Seq<Datum>>,
    r: Seq<Seq<Datum>>,
    m: Matcher,
    n: int,
    k: int,
)
    requires
        0 < n <= r.len(),
        0 <= k <= l.len(),
    ensures
        by_left(l, r.take(n), m, k).to_multiset() == by_left(
            l,
            r.take(n - 1),
            m,
            k,
        ).to_multiset().add(with_lefts(l, r[n - 1], m, k).to_multiset()),
    decreases k,
{
    broadcast use vstd::multiset::group_multiset_axioms;
    broadcast use vstd::multiset::group_multiset_properties;

    let longer = r.take(n);
    let shorter = r.take(n - 1);
    if k > 0 {
        lemma_one_more_right(l, r, m, n, k - 1);
        let row = l[k - 1];
        lemma_with_rights_prefix(row, r, m, n, n - 1);
        lemma_with_rights_prefix(row, r, m, n - 1, n - 1);
        let a = by_left(l, longer, m, k - 1);
        let b = by_left(l, shorter, m, k - 1);
        let c = with_lefts(l, r[n - 1], m, k - 1);
        let d = with_rights(row, shorter, m, n - 1);
        let e = with_rights(row, longer, m, n);
        assert(longer[n - 1] == r[n - 1]);
        lemma_add_multisets(a, e);
        lemma_add_multisets(b, d);
        if m(row, r[n - 1]) {
            lemma_push_multiset(d, row + r[n - 1]);
            lemma_push_multiset(c, row + r[n - 1]);
        }
        assert(by_left(l, longer, m, k).to_multiset() =~= by_left(
            l,
            shorter,
            m,
            k,
        ).to_multiset().add(with_lefts(l, r[n - 1], m, k).to_multiset()));
    } else {
        assert(Multiset::<Seq<Datum>>::empty().add(Multiset::empty()) =~= Multiset::<
            Seq<Datum>,
        >::empty());
        Seq::<Seq<Datum>>::empty().to_multiset_ensures();
        assert(Seq::<Seq<Datum>>::empty().to_multiset() =~= Multiset::empty());
    }
}

proof fn lemma_no_rights(l: Seq<Seq<Datum>>, m: Matcher, k: int)
    requires
        0 <= k <= l.len(),
    ensures
        by_left(l, Seq::empty(), m, k) == Seq::<Seq<Datum>>::empty(),
    decreases k,
{
    if k > 0 {
        lemma_no_rights(l, m, k - 1);
    }
}

/// It does not matter for the rows of a join which side is walked first: both
/// ways yield each joined row equally often.
pub proof fn either_side_first(l: Seq<Seq<Datum>>, r: Seq<Seq<Datum>>, m: Matcher, n: int)
    requires
        0 <= n <= r.len(),
    ensures
        by_right(l, r, m, n).to_multiset() == by_left(
            l,
            r.take(n),
            m,
            l.len() as int,
        ).to_multiset(),
    decreases n,
{
    if n > 0 {
        either_side_first(l, r, m, n - 1);
        lemma_one_more_right(l, r, m, n, l.len() as int);
        lemma_add_multisets(
            by_right(l, r, m, n - 1),
            with_lefts(l, r[n - 1], m, l.len() as int),
        );
    } else {
        assert(r.take(0) == Seq::<Seq<Datum>>::empty());
        lemma_no_rights(l, m, l.len() as int);
    }
}

/// A null key matches nothing, not even another null.
pub proof fn null_keys_match_nothing(a: Datum, b: Datum)
    requires
        a is Null || b is Null,
    ensures
        !keys_match(a, b),
{
}

/// Values whose equality is the same to a hash table and to a comparison: they are of one
/// kind, and of two floats none is not a number, and they are not the two zeros.
pub open spec fn hashes_faithfully(a: Datum, b: Datum) -> bool {
    match (a, b) {
        (Datum::Float(x), Datum::Float(y)) => !not_a_number(x) && !not_a_number(y) && (is_equal(
            x,
            y,
        ) ==> x == y),
        _ => a is Null || b is Null || variant_rank(a) == variant_rank(b),
    }
}

/// For two rows whose keys hash faithfully, hashing and comparing agree: the keys match
/// exactly where the condition that they are equal is true, whichever of them it names
/// first.
pub proof fn hashing_agrees_with_comparing(
    left: Seq<Datum>,
    right: Seq<Datum>,
    left_cols: int,
    left_key: int,
    right_key: int,
    fl: FloatModel,
)
    requires
        0 <= left_key < left_cols,
        left_key < left.len(),
        0 <= right_key < right.len(),
        hashes_faithfully(left[left_key], right[right_key]),
    ensures
        ({
            let far = left_cols + right_key;
            let e = Expr::Comparison(left_key, Comparison::Equal, Operand::Column(far));
            let f = Expr::Comparison(far, Comparison::Equal, Operand::Column(left_key));
            let m = key_matcher(left_key, right_key)(left, right);
            &&& m == condition_matcher(Some(e), left_cols, fl)(left, right)
            &&& m == condition_matcher(Some(f), left_cols, fl)(left, right)
        }),
{
    let a = left[left_key];
    let b = right[right_key];
    if let (Datum::Text(x), Datum::Text(y)) = (a, b) {
        text_order_is_total(x, y);
        text_order_is_total(y, x);
    }
}

/// Whether two matchers say the same of every left row with every right row.
pub open spec fn match_alike(l: Seq<Seq<Datum>>, r: Seq<Seq<Datum>>, m: Matcher, o: Matcher) -> bool {
    forall|i: int, j: int|
        0 <= i < l.len() && 0 <= j < r.len() ==> m(#[trigger] l[i], #[trigger] r[j]) == o(
            l[i],
            r[j],
        )
}

proof fn lemma_alike_rights(
    l: Seq<Seq<Datum>>,
    r: Seq<Seq<Datum>>,
    m: Matcher,
    o: Matcher,
    i: int,
    n: int,
)
    requires
        match_alike(l, r, m, o),
        0 <= i < l.len(),
        n <= r.len(),
    ensures
        with_rights(l[i], r, m, n) == with_rights(l[i], r, o, n),
        left_matches(l[i], r, m) == left_matches(l[i], r, o),
    decreases n,
{
    if n > 0 {
        lemma_alike_rights(l, r, m, o, i, n - 1);
        assert(m(l[i], r[n - 1]) == o(l[i], r[n - 1]));
    }
}

proof fn lemma_alike_lefts(
    l: Seq<Seq<Datum>>,
    r: Seq<Seq<Datum>>,
    m: Matcher,
    o: Matcher,
    j: int,
)
    requires
        match_alike(l, r, m, o),
        0 <= j < r.len(),
    ensures
        right_matches(l, r[j], m) == right_matches(l, r[j], o),
{
    assert forall|i: int| 0 <= i < l.len() implies m(#[trigger] l[i], r[j]) == o(l[i], r[j]) by {}
}

proof fn lemma_alike_joins(
    l: Seq<Seq<Datum>>,
    r: Seq<Seq<Datum>>,
    m: Matcher,
    o: Matcher,
    left_cols: int,
    right_cols: int,
    n: int,
    k: int,
)
    requires
        match_alike(l, r, m, o),
        n <= l.len(),
        k <= r.len(),
    ensures
        by_left(l, r, m, n) == by_left(l, r, o, n),
        lone_lefts(l, r, m, right_cols, n) == lone_lefts(l, r, o, right_cols, n),
        lone_rights(l, r, m, left_cols, k) == lone_rights(l, r, o, left_cols, k),
    decreases n, k,
{
    if n > 0 {
        lemma_alike_joins(l, r, m, o, left_cols, right_cols, n - 1, k);
        lemma_alike_rights(l, r, m, o, n - 1, r.len() as int);
    } else if k > 0 {
        lemma_alike_joins(l, r, m, o, left_cols, right_cols, n, k - 1);
        lemma_alike_lefts(l, r, m, o, k - 1);
    }
}

/// Whether all keys of two sides that are floats hash faithfully.
pub open spec fn floats_hash_faithfully(
    l: Seq<Seq<Datum>>,
    left_key: int,
    r: Seq<Seq<Datum>>,
    right_key: int,
) -> bool {
    forall|i: int, j: int|
        0 <= i < l.len() && 0 <= j < r.len() && (#[trigger] l[i])[left_key] is Float && (
        #[trigger] r[j])[right_key] is Float ==> hashes_faithfully(l[i][left_key], r[j][right_key])
}

/// Hashing changes no join: a join on an equality has the rows of the join that compares
/// every left row with every right row, each as often. A float key is looked up by its
/// bits, so of two floats none is to be not a number, and they are not to be the two
/// zeros.
pub proof fn hashing_changes_no_join(
    condition: Seq<char>,
    left: RelationModel,
    right: RelationModel,
    merged: SchemaModel,
    kind: JoinKind,
    left_key: int,
    right_key: int,
    fl: FloatModel,
)
    requires
        tokens_of(condition).len() == 3,
        predicate_of(condition, merged, fl) is Some,
        match (merged.position(tokens_of(condition)[0]), merged.position(tokens_of(condition)[2])) {
            (Some(a), Some(b)) => 0 <= a && 0 <= b && equality_keys(
                tokens_of(condition)[1],
                a,
                b,
                left.schema.columns.len() as int,
            ) == Some((left_key, right_key)),
            _ => false,
        },
        all_reach(left.rows, left_key),
        all_reach(right.rows, right_key),
        floats_hash_faithfully(left.rows, left_key, right.rows, right_key),
    ensures
        match (
            joined_on(Some(condition), left, right, merged, kind, fl),
            loop_joined(Some(condition), left, right, merged, kind, fl),
        ) {
            (Ok(x), Ok(y)) => x.rows.to_multiset() == y.rows.to_multiset(),
            _ => false,
        },
{
    let t = tokens_of(condition);
    let e = predicate_of(condition, merged, fl)->0;
    let l = left.rows;
    let r = right.rows;
    let left_cols = left.schema.columns.len() as int;
    let right_cols = right.schema.columns.len() as int;
    let m = key_matcher(left_key, right_key);
    let o = condition_matcher(Some(e), left_cols, fl);
    if keys_of_one_kind(l, left_key, r, right_key) {
        three_tokens_are_one_comparison(condition, merged, fl);
        assert forall|i: int, j: int| 0 <= i < l.len() && 0 <= j < r.len() implies m(
            #[trigger] l[i],
            #[trigger] r[j],
        ) == o(l[i], r[j]) by {
            assert(l[i][left_key] is Null || r[j][right_key] is Null || variant_rank(l[i][left_key])
                == variant_rank(r[j][right_key]));
            hashing_agrees_with_comparing(l[i], r[j], left_cols, left_key, right_key, fl);
        }
        lemma_alike_joins(
            l,
            r,
            m,
            o,
            left_cols,
            right_cols,
            l.len() as int,
            r.len() as int,
        );
        either_side_first(l, r, m, r.len() as int);
        assert(r.take(r.len() as int) =~= r);
        let rest = unmatched(kind, l, r, m, left_cols, right_cols);
        lemma_add_multisets(by_right(l, r, m, r.len() as int), rest);
        lemma_add_multisets(by_left(l, r, m, l.len() as int), rest);
    }
}

/// The joined rows of a left row are the pairs it matches.
proof fn lemma_pair_is_joined(
    left: Seq<Datum>,
    r: Seq<Seq<Datum>>,
    m: Matcher,
    n: int,
    j: int,
)
    requires
        0 <= j < n <= r.len(),
        m(left, r[j]),
    ensures
        with_rights(left, r, m, n).contains(left + r[j]),
    decreases n,
{
    let before = with_rights(left, r, m, n - 1);
    let after = with_rights(left, r, m, n);
    if j == n - 1 {
        assert(after[before.len() as int] == left + r[j]);
    } else {
        lemma_pair_is_joined(left, r, m, n - 1, j);
        let k = choose|k: int| 0 <= k < before.len() && before[k] == left + r[j];
        assert(after[k] == left + r[j]);
    }
}

/// A left outer join keeps every left row: with a right row that it matches,
/// or, where it matches none, with nulls.
pub proof fn left_rows_survive(
    l: Seq<Seq<Datum>>,
    r: Seq<Seq<Datum>>,
    m: Matcher,
    cols: int,
    n: int,
    i: int,
)
    requires
        0 <= i < n <= l.len(),
    ensures
        left_matches(l[i], r, m) ==> exists|j: int|
            0 <= j < r.len() && m(l[i], #[trigger] r[j]) && by_left(l, r, m, n).contains(l[i] + r[j]),
        !left_matches(l[i], r, m) ==> lone_lefts(l, r, m, cols, n).contains(l[i] + nulls(cols)),
    decreases n,
{
    if i < n - 1 {
        left_rows_survive(l, r, m, cols, n - 1, i);
        if left_matches(l[i], r, m) {
            let before = by_left(l, r, m, n - 1);
            let after = by_left(l, r, m, n);
            let j = choose|j: int|
                0 <= j < r.len() && m(l[i], #[trigger] r[j]) && before.contains(l[i] + r[j]);
            let k = choose|k: int| 0 <= k < before.len() && before[k] == l[i] + r[j];
            assert(after[k] == l[i] + r[j]);
        } else {
            let before = lone_lefts(l, r, m, cols, n - 1);
            let after = lone_lefts(l, r, m, cols, n);
            let k = choose|k: int| 0 <= k < before.len() && before[k] == l[i] + nulls(cols);
            assert(after[k] == l[i] + nulls(cols));
        }
    } else if left_matches(l[i], r, m) {
        let j = choose|j: int| 0 <= j < r.len() && m(l[i], #[trigger] r[j]);
        lemma_pair_is_joined(l[i], r, m, r.len() as int, j);
        let own = with_rights(l[i], r, m, r.len() as int);
        let before = by_left(l, r, m, n - 1);
        let after = by_left(l, r, m, n);
        let k = choose|k: int| 0 <= k < own.len() && own[k] == l[i] + r[j];
        assert(after[before.len() + k] == l[i] + r[j]);
    } else {
        let before = lone_lefts(l, r, m, cols, n - 1);
        let after = lone_lefts(l, r, m, cols, n);
        assert(after[before.len() as int] == l[i] + nulls(cols));
    }
}

proof fn lemma_pair_by_left(
    l: Seq<Seq<Datum>>,
    r: Seq<Seq<Datum>>,
    m: Matcher,
    n: int,
    i: int,
    j: int,
)
    requires
        0 <= i < n <= l.len(),
        0 <= j < r.len(),
        m(l[i], r[j]),
    ensures
        by_left(l, r, m, n).contains(l[i] + r[j]),
    decreases n,
{
    let before = by_left(l, r, m, n - 1);
    let after = by_left(l, r, m, n);
    if i < n - 1 {
        lemma_pair_by_left(l, r, m, n - 1, i, j);
        let k = choose|k: int| 0 <= k < before.len() && before[k] == l[i] + r[j];
        assert(after[k] == l[i] + r[j]);
    } else {
        lemma_pair_is_joined(l[i], r, m, r.len() as int, j);
        let own = with_rights(l[i], r, m, r.len() as int);
        let k = choose|k: int| 0 <= k < own.len() && own[k] == l[i] + r[j];
        assert(after[before.len() + k] == l[i] + r[j]);
    }
}

/// A right outer join keeps every right row: with a left row that it matches, or,
/// where it matches none, with nulls.
pub proof fn right_rows_survive(
    l: Seq<Seq<Datum>>,
    r: Seq<Seq<Datum>>,
    m: Matcher,
    cols: int,
    n: int,
    j: int,
)
    requires
        0 <= j < n <= r.len(),
    ensures
        right_matches(l, r[j], m) ==> exists|i: int|
            0 <= i < l.len() && m(#[trigger] l[i], r[j]) && by_left(
                l,
                r,
                m,
                l.len() as int,
            ).contains(l[i] + r[j]),
        !right_matches(l, r[j], m) ==> lone_rights(l, r, m, cols, n).contains(
            nulls(cols) + r[j],
        ),
    decreases n,
{
    if right_matches(l, r[j], m) {
        let i = choose|i: int| 0 <= i < l.len() && m(#[trigger] l[i], r[j]);
        lemma_pair_by_left(l, r, m, l.len() as int, i, j);
    } else {
        let before = lone_rights(l, r, m, cols, n - 1);
        let after = lone_rights(l, r, m, cols, n);
        if j < n - 1 {
            right_rows_survive(l, r, m, cols, n - 1, j);
            let k = choose|k: int| 0 <= k < before.len() && before[k] == nulls(cols) + r[j];
            assert(after[k] == nulls(cols) + r[j]);
        } else {
            assert(after[before.len() as int] == nulls(cols) + r[j]);
        }
    }
}

} // verus!
