//! What `AND` and `OR` make of the texts of two comparisons.

use vstd::prelude::*;
use crate::execution::catalog::SchemaModel;
use crate::execution::operators::Datum;
use crate::execution::row_codec::predicate::{
    is_keyword, keeps, predicate_of, read_and, read_and_rest, read_atom, read_comparison, read_or,
    read_or_rest, Expr,
};
use crate::execution::row_codec::tokens::{flushed, tokens_from, tokens_of};
use crate::float::FloatModel;
use crate::text::{ascii_upper, is_space, same_but_for_case};

verus! {

/// Whether a quote is open at the end of a text, from place `i` on.
pub open spec fn left_open(s: Seq<char>, i: int, quoted: bool) -> bool
    decreases s.len() - i,
{
    if i < 0 || i >= s.len() {
        quoted
    } else {
        left_open(s, i + 1, if s[i] == '\'' { !quoted } else { quoted })
    }
}

proof fn lemma_tokens_behind(
    front: Seq<char>,
    back: Seq<char>,
    j: int,
    current: Seq<char>,
    quoted: bool,
)
    requires
        0 <= j <= back.len(),
    ensures
        tokens_from(front + back, front.len() + j, current, quoted) == tokens_from(
            back,
            j,
            current,
            quoted,
        ),
    decreases back.len() - j,
{
    if j < back.len() {
        let c = back[j];
        assert((front + back)[front.len() + j] == c);
        lemma_tokens_behind(front, back, j + 1, Seq::empty(), false);
        lemma_tokens_behind(front, back, j + 1, current.push(c), quoted);
        lemma_tokens_behind(front, back, j + 1, current.push(c), true);
    }
}

proof fn lemma_tokens_joined(
    front: Seq<char>,
    back: Seq<char>,
    i: int,
    current: Seq<char>,
    quoted: bool,
)
    requires
        0 <= i <= front.len(),
        !left_open(front, i, quoted),
    ensures
        tokens_from(front + seq![' '] + back, i, current, quoted) == tokens_from(
            front,
            i,
            current,
            quoted,
        ) + tokens_of(back),
    decreases front.len() - i,
{
    let none = Seq::<char>::empty();
    let head = front + seq![' '];
    let all = head + back;
    let rest = tokens_of(back);
    if i == front.len() {
        assert(all[i] == ' ');
        assert(is_space(' '));
        lemma_tokens_behind(head, back, 0, none, false);
        assert(tokens_from(all, i + 1, none, false) == rest);
    } else {
        let c = front[i];
        assert(all[i] == c);
        if c == '\'' {
            if quoted {
                lemma_tokens_joined(front, back, i + 1, none, false);
                assert(seq![current.push('\'')] + (tokens_from(front, i + 1, none, false) + rest)
                    =~= seq![current.push('\'')] + tokens_from(front, i + 1, none, false) + rest);
            } else {
                lemma_tokens_joined(front, back, i + 1, current.push('\''), true);
            }
        } else if quoted {
            lemma_tokens_joined(front, back, i + 1, current.push(c), true);
        } else if c == '(' || c == ')' {
            lemma_tokens_joined(front, back, i + 1, none, false);
            let f = flushed(current) + seq![seq![c]];
            assert(f + (tokens_from(front, i + 1, none, false) + rest) =~= f + tokens_from(
                front,
                i + 1,
                none,
                false,
            ) + rest);
        } else if is_space(c) {
            lemma_tokens_joined(front, back, i + 1, none, false);
            assert(flushed(current) + (tokens_from(front, i + 1, none, false) + rest) =~= flushed(
                current,
            ) + tokens_from(front, i + 1, none, false) + rest);
        } else {
            lemma_tokens_joined(front, back, i + 1, current.push(c), false);
        }
    }
}

/// A text whose quotes are closed keeps its tokens when another follows it after a blank.
pub proof fn closed_texts_keep_their_tokens(front: Seq<char>, back: Seq<char>)
    requires
        !left_open(front, 0, false),
    ensures
        tokens_of(front + seq![' '] + back) == tokens_of(front) + tokens_of(back),
{
    lemma_tokens_joined(front, back, 0, Seq::empty(), false);
}

proof fn lemma_tokens_of_keywords()
    ensures
        tokens_of("AND"@) == seq!["AND"@],
        tokens_of("OR"@) == seq!["OR"@],
        !left_open("AND"@, 0, false),
        !left_open("OR"@, 0, false),
        !same_but_for_case("OR"@, "AND"@),
        same_but_for_case("AND"@, "AND"@),
        same_but_for_case("OR"@, "OR"@),
{
    reveal_strlit("AND");
    reveal_strlit("OR");
    reveal_with_fuel(tokens_from, 4);
    reveal_with_fuel(left_open, 4);
    let none = Seq::<char>::empty();
    assert(none.push('A').push('N').push('D') =~= "AND"@);
    assert(none.push('O').push('R') =~= "OR"@);
    let a = "OR"@.map_values(|c: char| ascii_upper(c));
    let b = "AND"@.map_values(|c: char| ascii_upper(c));
    assert(a.len() != b.len());
}

/// Whether a text is three tokens that do not begin with a parenthesis, and its quotes
/// are closed.
pub open spec fn is_one_comparison(s: Seq<char>) -> bool {
    tokens_of(s).len() == 3 && tokens_of(s)[0] != "("@ && !left_open(s, 0, false)
}

/// The texts of two predicates with a word between them.
pub open spec fn connected(p: Seq<char>, word: Seq<char>, q: Seq<char>) -> Seq<char> {
    p + seq![' '] + word + seq![' '] + q
}

proof fn lemma_connected_tokens(p: Seq<char>, word: Seq<char>, q: Seq<char>)
    requires
        !left_open(p, 0, false),
        !left_open(word, 0, false),
        tokens_of(word) == seq![word],
    ensures
        tokens_of(connected(p, word, q)) == tokens_of(p) + seq![word] + tokens_of(q),
{
    let tail = word + seq![' '] + q;
    assert(connected(p, word, q) =~= p + seq![' '] + tail);
    closed_texts_keep_their_tokens(p, tail);
    closed_texts_keep_their_tokens(word, q);
    assert(tokens_of(p) + (seq![word] + tokens_of(q)) =~= tokens_of(p) + seq![word] + tokens_of(q));
}

proof fn lemma_alone(p: Seq<char>, schema: SchemaModel, fl: FloatModel)
    requires
        tokens_of(p).len() == 3,
        tokens_of(p)[0] != "("@,
    ensures
        predicate_of(p, schema, fl) == match read_comparison(
            tokens_of(p)[0],
            tokens_of(p)[1],
            tokens_of(p)[2],
            3,
            schema,
            fl,
        ) {
            Some((e, _)) => Some(e),
            None => None,
        },
{
    let t = tokens_of(p);
    let a = read_comparison(t[0], t[1], t[2], 3, schema, fl);
    assert(read_atom(t, 0, schema, fl) == a);
    if let Some((e, _)) = a {
        assert(!is_keyword(t, 3, "AND"@));
        assert(!is_keyword(t, 3, "OR"@));
        assert(read_and_rest(e, t, 3, schema, fl) == Some((e, 3int)));
        assert(read_and(t, 0, schema, fl) == Some((e, 3int)));
        assert(read_or_rest(e, t, 3, schema, fl) == Some((e, 3int)));
    }
}

/// A predicate of three tokens is the comparison that they make.
pub proof fn three_tokens_are_one_comparison(p: Seq<char>, schema: SchemaModel, fl: FloatModel)
    requires
        tokens_of(p).len() == 3,
    ensures
        predicate_of(p, schema, fl) matches Some(e) ==> read_comparison(
            tokens_of(p)[0],
            tokens_of(p)[1],
            tokens_of(p)[2],
            3,
            schema,
            fl,
        ) == Some((e, 3int)),
{
    let t = tokens_of(p);
    if t[0] == "("@ {
        assert(read_atom(t, 3, schema, fl) is None);
        assert(read_and(t, 3, schema, fl) is None);
        assert(read_or(t, 3, schema, fl) is None);
        assert(read_atom(t, 2, schema, fl) is None);
        assert(read_and(t, 2, schema, fl) is None);
        assert(read_or(t, 2, schema, fl) is None);
        assert(read_atom(t, 1, schema, fl) is None);
        assert(read_and(t, 1, schema, fl) is None);
        assert(read_or(t, 1, schema, fl) is None);
        assert(read_atom(t, 0, schema, fl) is None);
        assert(read_and(t, 0, schema, fl) is None);
        assert(read_or(t, 0, schema, fl) is None);
    } else {
        lemma_alone(p, schema, fl);
    }
}

proof fn lemma_both(p: Seq<char>, q: Seq<char>, schema: SchemaModel, fl: FloatModel)
    requires
        is_one_comparison(p),
        is_one_comparison(q),
    ensures
        predicate_of(connected(p, "AND"@, q), schema, fl) == match (
            predicate_of(p, schema, fl),
            predicate_of(q, schema, fl),
        ) {
            (Some(a), Some(b)) => Some(Expr::And(Box::new(a), Box::new(b))),
            _ => None,
        },
        predicate_of(connected(p, "OR"@, q), schema, fl) == match (
            predicate_of(p, schema, fl),
            predicate_of(q, schema, fl),
        ) {
            (Some(a), Some(b)) => Some(Expr::Or(Box::new(a), Box::new(b))),
            _ => None,
        },
{
    lemma_tokens_of_keywords();
    lemma_alone(p, schema, fl);
    lemma_alone(q, schema, fl);
    let x = tokens_of(p);
    let y = tokens_of(q);
    lemma_connected_tokens(p, "AND"@, q);
    lemma_connected_tokens(p, "OR"@, q);
    let t = x + seq!["AND"@] + y;
    let u = x + seq!["OR"@] + y;
    assert(t.len() == 7 && u.len() == 7);
    assert(t[0] == x[0] && t[1] == x[1] && t[2] == x[2] && t[3] == "AND"@);
    assert(t[4] == y[0] && t[5] == y[1] && t[6] == y[2]);
    assert(u[0] == x[0] && u[1] == x[1] && u[2] == x[2] && u[3] == "OR"@);
    assert(u[4] == y[0] && u[5] == y[1] && u[6] == y[2]);
    let first = read_comparison(x[0], x[1], x[2], 3, schema, fl);
    let second = read_comparison(y[0], y[1], y[2], 7, schema, fl);
    assert(read_atom(t, 0, schema, fl) == first);
    assert(read_atom(t, 4, schema, fl) == second);
    assert(read_atom(u, 0, schema, fl) == first);
    assert(read_atom(u, 4, schema, fl) == second);
    if let Some((a, _)) = first {
        assert(is_keyword(t, 3, "AND"@));
        assert(!is_keyword(u, 3, "AND"@));
        assert(is_keyword(u, 3, "OR"@));
        assert(read_and_rest(a, u, 3, schema, fl) == Some((a, 3int)));
        assert(read_and(u, 0, schema, fl) == Some((a, 3int)));
        if let Some((b, _)) = second {
            let both = Expr::And(Box::new(a), Box::new(b));
            assert(!is_keyword(t, 7, "AND"@) && !is_keyword(t, 7, "OR"@));
            assert(read_and_rest(both, t, 7, schema, fl) == Some((both, 7int)));
            assert(read_and_rest(a, t, 3, schema, fl) == Some((both, 7int)));
            assert(read_and(t, 0, schema, fl) == Some((both, 7int)));
            assert(read_or_rest(both, t, 7, schema, fl) == Some((both, 7int)));
            assert(read_or(t, 0, schema, fl) == Some((both, 7int)));
            let either = Expr::Or(Box::new(a), Box::new(b));
            assert(!is_keyword(u, 7, "AND"@) && !is_keyword(u, 7, "OR"@));
            assert(read_and_rest(b, u, 7, schema, fl) == Some((b, 7int)));
            assert(read_and(u, 4, schema, fl) == Some((b, 7int)));
            assert(read_or_rest(either, u, 7, schema, fl) == Some((either, 7int)));
            assert(read_or_rest(a, u, 3, schema, fl) == Some((either, 7int)));
            assert(read_or(u, 0, schema, fl) == Some((either, 7int)));
        } else {
            assert(read_and_rest(a, t, 3, schema, fl) is None);
            assert(read_and(t, 0, schema, fl) is None);
            assert(read_or(t, 0, schema, fl) is None);
            assert(read_and(u, 4, schema, fl) is None);
            assert(read_or_rest(a, u, 3, schema, fl) is None);
            assert(read_or(u, 0, schema, fl) is None);
        }
    } else {
        assert(read_and(t, 0, schema, fl) is None);
        assert(read_and(u, 0, schema, fl) is None);
    }
}

/// Whether the predicate that a text is keeps a row; none where the text is not a
/// predicate or cannot be evaluated.
pub open spec fn judged(
    text: Seq<char>,
    schema: SchemaModel,
    row: Seq<Datum>,
    fl: FloatModel,
) -> Option<bool> {
    match predicate_of(text, schema, fl) {
        Some(e) => keeps(e, row, fl),
        None => None,
    }
}

/// Two comparisons with `AND` or `OR` between them keep a row whichever stands first:
/// with `AND` where both do, with `OR` where one does. Where one of them cannot be
/// evaluated, neither can the whole.
pub proof fn the_order_of_comparisons_is_free(
    p: Seq<char>,
    q: Seq<char>,
    schema: SchemaModel,
    row: Seq<Datum>,
    fl: FloatModel,
)
    requires
        is_one_comparison(p),
        is_one_comparison(q),
    ensures
        ({
            let a = judged(p, schema, row, fl);
            let b = judged(q, schema, row, fl);
            let and = judged(connected(p, "AND"@, q), schema, row, fl);
            let or = judged(connected(p, "OR"@, q), schema, row, fl);
            &&& and == judged(connected(q, "AND"@, p), schema, row, fl)
            &&& or == judged(connected(q, "OR"@, p), schema, row, fl)
            &&& and == match (a, b) {
                (Some(x), Some(y)) => Some(x && y),
                _ => None,
            }
            &&& or == match (a, b) {
                (Some(x), Some(y)) => Some(x || y),
                _ => None,
            }
        }),
{
    lemma_both(p, q, schema, fl);
    lemma_both(q, p, schema, fl);
}

} // verus!
