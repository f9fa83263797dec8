//! How the words of a predicate and of an `ORDER BY` clause are put together.

use vstd::prelude::*;
use crate::execution::catalog::SchemaModel;
use crate::execution::operators::Datum;
use crate::execution::row_codec::ordering::{
    order_by_body, order_by_keys, parts_from, sort_key, sort_keys_from, words_from, SortKey,
};
use crate::execution::row_codec::predicate::{
    is_keyword, keeps, read_and, read_and_rest, read_atom, read_comparison, read_or,
    read_or_rest, Expr,
};
use crate::execution::row_codec::predicate_laws::judged;
use crate::execution::row_codec::tokens::tokens_of;
use crate::float::FloatModel;
use crate::text::{case_is_that_of_letters, is_space, same_but_for_case};

verus! {

/// The words of a predicate are the words of a comparison.
pub open spec fn is_comparison(t: Seq<Seq<char>>, schema: SchemaModel, fl: FloatModel) -> bool {
    t.len() == 3 && t[0] != "("@ && read_comparison(t[0], t[1], t[2], 3, schema, fl) is Some
}

/// Whether the comparison of these words keeps a row.
pub open spec fn holds(
    t: Seq<Seq<char>>,
    schema: SchemaModel,
    row: Seq<Datum>,
    fl: FloatModel,
) -> Option<bool> {
    match read_comparison(t[0], t[1], t[2], 3, schema, fl) {
        Some((e, _)) => keeps(e, row, fl),
        None => None,
    }
}

proof fn lemma_keywords()
    ensures
        !same_but_for_case("OR"@, "AND"@),
        !same_but_for_case("AND"@, "OR"@),
        !same_but_for_case(")"@, "AND"@),
        !same_but_for_case(")"@, "OR"@),
        same_but_for_case("AND"@, "AND"@),
        same_but_for_case("OR"@, "OR"@),
        "("@ != ")"@,
{
    reveal_strlit("AND");
    reveal_strlit("OR");
    reveal_strlit("(");
    reveal_strlit(")");
    case_is_that_of_letters("OR"@, "AND"@);
    case_is_that_of_letters("AND"@, "OR"@);
    case_is_that_of_letters(")"@, "AND"@);
    case_is_that_of_letters(")"@, "OR"@);
    assert("("@[0] != ")"@[0]);
}

/// The comparison that three words make.
spec fn made(t: Seq<Seq<char>>, schema: SchemaModel, fl: FloatModel) -> Expr {
    match read_comparison(t[0], t[1], t[2], 3, schema, fl) {
        Some((e, _)) => e,
        None => arbitrary(),
    }
}

proof fn lemma_atom(
    t: Seq<Seq<char>>,
    at: int,
    x: Seq<Seq<char>>,
    schema: SchemaModel,
    fl: FloatModel,
)
    requires
        is_comparison(x, schema, fl),
        0 <= at,
        at + 3 <= t.len(),
        t[at] == x[0],
        t[at + 1] == x[1],
        t[at + 2] == x[2],
    ensures
        read_atom(t, at, schema, fl) == Some((made(x, schema, fl), at + 3)),
{
}

proof fn lemma_connectives(e: Expr, f: Expr, row: Seq<Datum>, fl: FloatModel, a: bool, b: bool)
    requires
        keeps(e, row, fl) == Some(a),
        keeps(f, row, fl) == Some(b),
    ensures
        keeps(Expr::And(Box::new(e), Box::new(f)), row, fl) == Some(a && b),
        keeps(Expr::Or(Box::new(e), Box::new(f)), row, fl) == Some(a || b),
{
}

/// `AND` binds before `OR`: with the two in a predicate, the comparisons around `AND` are
/// taken together, whichever of the words comes first.
pub proof fn and_binds_before_or(
    text: Seq<char>,
    x: Seq<Seq<char>>,
    y: Seq<Seq<char>>,
    z: Seq<Seq<char>>,
    schema: SchemaModel,
    row: Seq<Datum>,
    fl: FloatModel,
    a: bool,
    b: bool,
    c: bool,
)
    requires
        is_comparison(x, schema, fl),
        is_comparison(y, schema, fl),
        is_comparison(z, schema, fl),
        holds(x, schema, row, fl) == Some(a),
        holds(y, schema, row, fl) == Some(b),
        holds(z, schema, row, fl) == Some(c),
    ensures
        tokens_of(text) == x + seq!["OR"@] + y + seq!["AND"@] + z ==> judged(
            text,
            schema,
            row,
            fl,
        ) == Some(a || (b && c)),
        tokens_of(text) == x + seq!["AND"@] + y + seq!["OR"@] + z ==> judged(
            text,
            schema,
            row,
            fl,
        ) == Some((a && b) || c),
{
    lemma_keywords();
    let e = made(x, schema, fl);
    let f = made(y, schema, fl);
    let g = made(z, schema, fl);
    let t = tokens_of(text);
    if t == x + seq!["OR"@] + y + seq!["AND"@] + z {
        lemma_atom(t, 0, x, schema, fl);
        lemma_atom(t, 4, y, schema, fl);
        lemma_atom(t, 8, z, schema, fl);
        assert(t.len() == 11 && t[3] == "OR"@ && t[7] == "AND"@);
        assert(!is_keyword(t, 3, "AND"@) && is_keyword(t, 3, "OR"@));
        assert(is_keyword(t, 7, "AND"@));
        let both = Expr::And(Box::new(f), Box::new(g));
        lemma_connectives(f, g, row, fl, b, c);
        lemma_connectives(e, both, row, fl, a, b && c);
        let whole = Expr::Or(Box::new(e), Box::new(both));
        assert(read_and_rest(e, t, 3, schema, fl) == Some((e, 3int)));
        assert(read_and(t, 0, schema, fl) == Some((e, 3int)));
        assert(read_and_rest(both, t, 11, schema, fl) == Some((both, 11int)));
        assert(read_and_rest(f, t, 7, schema, fl) == Some((both, 11int)));
        assert(read_and(t, 4, schema, fl) == Some((both, 11int)));
        assert(read_or_rest(whole, t, 11, schema, fl) == Some((whole, 11int)));
        assert(read_or_rest(e, t, 3, schema, fl) == Some((whole, 11int)));
        assert(read_or(t, 0, schema, fl) == Some((whole, 11int)));
    }
    if t == x + seq!["AND"@] + y + seq!["OR"@] + z {
        lemma_atom(t, 0, x, schema, fl);
        lemma_atom(t, 4, y, schema, fl);
        lemma_atom(t, 8, z, schema, fl);
        assert(t.len() == 11 && t[3] == "AND"@ && t[7] == "OR"@);
        assert(is_keyword(t, 3, "AND"@));
        assert(!is_keyword(t, 7, "AND"@) && is_keyword(t, 7, "OR"@));
        let both = Expr::And(Box::new(e), Box::new(f));
        lemma_connectives(e, f, row, fl, a, b);
        lemma_connectives(both, g, row, fl, a && b, c);
        let whole = Expr::Or(Box::new(both), Box::new(g));
        assert(read_and_rest(both, t, 7, schema, fl) == Some((both, 7int)));
        assert(read_and_rest(e, t, 3, schema, fl) == Some((both, 7int)));
        assert(read_and(t, 0, schema, fl) == Some((both, 7int)));
        assert(read_and_rest(g, t, 11, schema, fl) == Some((g, 11int)));
        assert(read_and(t, 8, schema, fl) == Some((g, 11int)));
        assert(read_or_rest(whole, t, 11, schema, fl) == Some((whole, 11int)));
        assert(read_or_rest(both, t, 7, schema, fl) == Some((whole, 11int)));
        assert(read_or(t, 0, schema, fl) == Some((whole, 11int)));
    }
}

/// What stands in parentheses is taken together first.
pub proof fn parentheses_bind_first(
    text: Seq<char>,
    x: Seq<Seq<char>>,
    y: Seq<Seq<char>>,
    z: Seq<Seq<char>>,
    schema: SchemaModel,
    row: Seq<Datum>,
    fl: FloatModel,
    a: bool,
    b: bool,
    c: bool,
)
    requires
        is_comparison(x, schema, fl),
        is_comparison(y, schema, fl),
        is_comparison(z, schema, fl),
        holds(x, schema, row, fl) == Some(a),
        holds(y, schema, row, fl) == Some(b),
        holds(z, schema, row, fl) == Some(c),
        tokens_of(text) == seq!["("@] + x + seq!["OR"@] + y + seq![")"@] + seq!["AND"@] + z,
    ensures
        judged(text, schema, row, fl) == Some((a || b) && c),
{
    lemma_keywords();
    let e = made(x, schema, fl);
    let f = made(y, schema, fl);
    let g = made(z, schema, fl);
    let t = tokens_of(text);
    lemma_atom(t, 1, x, schema, fl);
    lemma_atom(t, 5, y, schema, fl);
    lemma_atom(t, 10, z, schema, fl);
    assert(t.len() == 13 && t[0] == "("@ && t[4] == "OR"@ && t[8] == ")"@ && t[9] == "AND"@);
    let either = Expr::Or(Box::new(e), Box::new(f));
    lemma_connectives(e, f, row, fl, a, b);
    lemma_connectives(either, g, row, fl, a || b, c);
    let whole = Expr::And(Box::new(either), Box::new(g));
    assert(!is_keyword(t, 4, "AND"@) && is_keyword(t, 4, "OR"@));
    assert(!is_keyword(t, 8, "AND"@) && !is_keyword(t, 8, "OR"@));
    assert(read_and_rest(e, t, 4, schema, fl) == Some((e, 4int)));
    assert(read_and(t, 1, schema, fl) == Some((e, 4int)));
    assert(read_and_rest(f, t, 8, schema, fl) == Some((f, 8int)));
    assert(read_and(t, 5, schema, fl) == Some((f, 8int)));
    assert(read_or_rest(either, t, 8, schema, fl) == Some((either, 8int)));
    assert(read_or_rest(e, t, 4, schema, fl) == Some((either, 8int)));
    assert(read_or(t, 1, schema, fl) == Some((either, 8int)));
    assert(read_atom(t, 0, schema, fl) == Some((either, 9int)));
    assert(is_keyword(t, 9, "AND"@));
    assert(read_and_rest(whole, t, 13, schema, fl) == Some((whole, 13int)));
    assert(read_and_rest(either, t, 9, schema, fl) == Some((whole, 13int)));
    assert(read_and(t, 0, schema, fl) == Some((whole, 13int)));
    assert(read_or_rest(whole, t, 13, schema, fl) == Some((whole, 13int)));
    assert(read_or(t, 0, schema, fl) == Some((whole, 13int)));
}

// ---- sort keys ---------------------------------------------------------------------

/// A text without white space.
pub open spec fn is_word(w: Seq<char>) -> bool {
    w.len() > 0 && forall|i: int| 0 <= i < w.len() ==> !is_space(#[trigger] w[i])
}

proof fn lemma_word_to_the_end(s: Seq<char>, i: int, current: Seq<char>)
    requires
        0 <= i <= s.len(),
        forall|k: int| i <= k < s.len() ==> !is_space(#[trigger] s[k]),
        current.len() > 0 || i < s.len(),
    ensures
        words_from(s, i, current) == seq![current + s.skip(i)],
    decreases s.len() - i,
{
    if i < s.len() {
        lemma_word_to_the_end(s, i + 1, current.push(s[i]));
        assert(current.push(s[i]) + s.skip(i + 1) =~= current + s.skip(i));
    } else {
        assert(current + s.skip(i) =~= current);
    }
}

proof fn lemma_word_before_space(s: Seq<char>, i: int, j: int, current: Seq<char>)
    requires
        0 <= i <= j < s.len(),
        forall|k: int| i <= k < j ==> !is_space(#[trigger] s[k]),
        is_space(s[j]),
        current.len() > 0 || i < j,
    ensures
        words_from(s, i, current) == seq![current + s.subrange(i, j)] + words_from(
            s,
            j + 1,
            Seq::empty(),
        ),
    decreases j - i,
{
    if i < j {
        lemma_word_before_space(s, i + 1, j, current.push(s[i]));
        assert(current.push(s[i]) + s.subrange(i + 1, j) =~= current + s.subrange(i, j));
    } else {
        assert(current + s.subrange(i, j) =~= current);
    }
}

/// A sort key is a column that is sorted upwards, and downwards where `DESC` follows it, in
/// any case.
pub proof fn a_sort_key_goes_down_where_it_says_so(w: Seq<char>, d: Seq<char>)
    requires
        is_word(w),
        is_word(d),
    ensures
        sort_key(w) == Some(SortKey { column: w, ascending: true }),
        sort_key(w + seq![' '] + d) == Some(
            SortKey { column: w, ascending: !same_but_for_case(d, seq!['D', 'E', 'S', 'C']) },
        ),
{
    reveal_strlit("DESC");
    assert("DESC"@ =~= seq!['D', 'E', 'S', 'C']);
    let none = Seq::<char>::empty();
    lemma_word_to_the_end(w, 0, none);
    assert(none + w.skip(0) =~= w);
    let s = w + seq![' '] + d;
    let n = w.len() as int;
    assert forall|k: int| 0 <= k < n implies !is_space(#[trigger] s[k]) by {
        assert(s[k] == w[k]);
    }
    assert forall|k: int| n + 1 <= k < s.len() implies !is_space(#[trigger] s[k]) by {
        assert(s[k] == d[k - n - 1]);
    }
    lemma_word_before_space(s, 0, n, none);
    lemma_word_to_the_end(s, n + 1, none);
    assert(none + s.subrange(0, n) =~= w);
    assert(none + s.skip(n + 1) =~= d);
    let words = words_from(s, 0, none);
    assert(words =~= seq![w, d]);
    assert(words[1] == d);
}

proof fn lemma_last_part(s: Seq<char>, i: int, sep: char, current: Seq<char>)
    requires
        0 <= i <= s.len(),
        forall|k: int| i <= k < s.len() ==> #[trigger] s[k] != sep,
    ensures
        parts_from(s, i, sep, current) == seq![current + s.skip(i)],
    decreases s.len() - i,
{
    if i < s.len() {
        lemma_last_part(s, i + 1, sep, current.push(s[i]));
        assert(current.push(s[i]) + s.skip(i + 1) =~= current + s.skip(i));
    } else {
        assert(current + s.skip(i) =~= current);
    }
}

proof fn lemma_first_part(s: Seq<char>, i: int, j: int, sep: char, current: Seq<char>)
    requires
        0 <= i <= j < s.len(),
        forall|k: int| i <= k < j ==> #[trigger] s[k] != sep,
        s[j] == sep,
    ensures
        parts_from(s, i, sep, current) == seq![current + s.subrange(i, j)] + parts_from(
            s,
            j + 1,
            sep,
            Seq::empty(),
        ),
    decreases j - i,
{
    if i < j {
        lemma_first_part(s, i + 1, j, sep, current.push(s[i]));
        assert(current.push(s[i]) + s.subrange(i + 1, j) =~= current + s.subrange(i, j));
    } else {
        assert(current + s.subrange(i, j) =~= current);
    }
}

/// The sort keys of a clause are those between its commas, the first of them first.
pub proof fn sort_keys_stand_between_commas(raw: Seq<char>, a: Seq<char>, b: Seq<char>)
    requires
        !a.contains(','),
        !b.contains(','),
        sort_key(a) is Some,
        sort_key(b) is Some,
    ensures
        order_by_body(raw) == a ==> order_by_keys(raw) == seq![sort_key(a)->0],
        order_by_body(raw) == a + seq![','] + b ==> order_by_keys(raw) == seq![
            sort_key(a)->0,
            sort_key(b)->0,
        ],
{
    let none = Seq::<char>::empty();
    assert forall|k: int| 0 <= k < a.len() implies #[trigger] a[k] != ',' by {
        assert(a.contains(a[k]));
    }
    lemma_last_part(a, 0, ',', none);
    assert(none + a.skip(0) =~= a);
    reveal_with_fuel(sort_keys_from, 4);
    assert(sort_keys_from(seq![a], 0) =~= seq![sort_key(a)->0]);
    let s = a + seq![','] + b;
    let n = a.len() as int;
    assert forall|k: int| 0 <= k < n implies #[trigger] s[k] != ',' by {
        assert(s[k] == a[k]);
    }
    assert forall|k: int| n + 1 <= k < s.len() implies #[trigger] s[k] != ',' by {
        assert(s[k] == b[k - n - 1]);
        assert(b.contains(b[k - n - 1]));
    }
    lemma_first_part(s, 0, n, ',', none);
    lemma_last_part(s, n + 1, ',', none);
    assert(none + s.subrange(0, n) =~= a);
    assert(none + s.skip(n + 1) =~= b);
    let parts = parts_from(s, 0, ',', none);
    assert(parts =~= seq![a, b]);
    assert(sort_keys_from(seq![a, b], 0) =~= seq![sort_key(a)->0, sort_key(b)->0]);
}

} // verus!
