//! How literals and words are read.

use vstd::prelude::*;
use std::cmp::Ordering;
use crate::execution::catalog::DataType;
use crate::execution::operators::Datum;
use crate::execution::row_codec::literals::{
    boolean_reading, literal_reading, shaped_reading, value_reading,
};
use crate::execution::row_codec::ordering::std_order;
use crate::execution::row_codec::tokens::{tokens_from, tokens_of};
use crate::float::{FloatModel, Order};
use crate::text::{integer_reading, is_space, quoted, same_but_for_case, trimmed, without_quotes};

verus! {

/// The word for null is read as null in every column, in any case.
pub proof fn null_is_read_in_every_column(raw: Seq<char>, ty: DataType, fl: FloatModel)
    requires
        same_but_for_case(trimmed(raw), seq!['N', 'U', 'L', 'L']),
    ensures
        literal_reading(raw, ty, fl) == Some(Datum::Null),
{
    reveal_strlit("NULL");
    assert("NULL"@ =~= seq!['N', 'U', 'L', 'L']);
}

/// A literal of a column of integers or times is the integer that it reads as, one of a
/// column of floats the unit's float, one of a column of truth values the one that its word
/// says, and one of a column of texts what stands between its quotes. What cannot be read so
/// is no literal of the column.
pub proof fn literals_are_read_by_their_type(raw: Seq<char>, fl: FloatModel)
    requires
        !same_but_for_case(trimmed(raw), seq!['N', 'U', 'L', 'L']),
    ensures
        ({
            let s = trimmed(raw);
            &&& match integer_reading(s) {
                Some(n) => literal_reading(raw, DataType::Integer, fl) == Some(Datum::Integer(n))
                    && literal_reading(raw, DataType::Timestamp, fl) == Some(Datum::Integer(n)),
                None => literal_reading(raw, DataType::Integer, fl) is None && literal_reading(
                    raw,
                    DataType::Timestamp,
                    fl,
                ) is None,
            }
            &&& match (fl.reads)(s) {
                Some(x) => literal_reading(raw, DataType::Float, fl) == Some(Datum::Float(x)),
                None => literal_reading(raw, DataType::Float, fl) is None,
            }
            &&& (literal_reading(raw, DataType::Boolean, fl) == Some(Datum::Boolean(true)))
                <==> s == seq!['t', 'r', 'u', 'e']
            &&& (literal_reading(raw, DataType::Boolean, fl) == Some(Datum::Boolean(false)))
                <==> s == seq!['f', 'a', 'l', 's', 'e']
            &&& match quoted(s) {
                Some(t) => literal_reading(raw, DataType::String, fl) == Some(Datum::Text(t)),
                None => literal_reading(raw, DataType::String, fl) is None,
            }
        }),
{
    reveal_strlit("NULL");
    reveal_strlit("true");
    reveal_strlit("false");
    assert("NULL"@ =~= seq!['N', 'U', 'L', 'L']);
    assert("true"@ =~= seq!['t', 'r', 'u', 'e']);
    assert("false"@ =~= seq!['f', 'a', 'l', 's', 'e']);
    assert("true"@.len() != "false"@.len());
}

/// In a predicate a literal is read as its column's type asks, and is null where it cannot
/// be read so; a text may stand without quotes.
pub proof fn compared_literals_are_read_by_their_type(raw: Seq<char>, ty: DataType, fl: FloatModel)
    ensures
        ({
            let s = trimmed(raw);
            match ty {
                DataType::String => value_reading(raw, ty, fl) == Datum::Text(
                    match quoted(s) {
                        Some(t) => t,
                        None => s,
                    },
                ),
                _ => !same_but_for_case(s, seq!['N', 'U', 'L', 'L']) ==> value_reading(raw, ty, fl)
                    == match literal_reading(raw, ty, fl) {
                    Some(d) => d,
                    None => Datum::Null,
                },
            }
        }),
{
    reveal_strlit("NULL");
    assert("NULL"@ =~= seq!['N', 'U', 'L', 'L']);
}

/// Without a column to go by, a literal in quotes is a text, then one that reads as an
/// integer an integer, then one that reads as a float a float, and the words for truth
/// values are truth values.
pub proof fn literals_are_read_by_their_shape(raw: Seq<char>, fl: FloatModel)
    ensures
        ({
            let s = trimmed(raw);
            match (quoted(s), integer_reading(s), (fl.reads)(s), boolean_reading(s)) {
                (Some(t), _, _, _) => shaped_reading(raw, fl) == Some(Datum::Text(t)),
                (None, Some(n), _, _) => shaped_reading(raw, fl) == Some(Datum::Integer(n)),
                (None, None, Some(x), _) => shaped_reading(raw, fl) == Some(Datum::Float(x)),
                (None, None, None, Some(b)) => shaped_reading(raw, fl) == Some(Datum::Boolean(b)),
                (None, None, None, None) => shaped_reading(raw, fl) is None,
            }
        }),
{
}

/// What stands between two quotes is the quoted text, whatever it holds.
pub proof fn quotes_hold_a_text(t: Seq<char>)
    ensures
        quoted(seq!['\''] + t + seq!['\'']) == Some(t),
        without_quotes(seq!['\''] + t + seq!['\'']) == t,
        t.len() == 0 || t[0] != '\'' || t.len() < 2 || t.last() != '\'' ==> quoted(t) is None
            && without_quotes(t) == t,
{
    let s = seq!['\''] + t + seq!['\''];
    assert(s.subrange(1, s.len() - 1) =~= t);
}

// ---- words --------------------------------------------------------------------------

/// A character that a word may hold: no white space, no quote and no parenthesis.
pub open spec fn is_plain(c: char) -> bool {
    !is_space(c) && c != '\'' && c != '(' && c != ')'
}

/// A text of such characters.
pub open spec fn is_plain_word(w: Seq<char>) -> bool {
    w.len() > 0 && forall|i: int| 0 <= i < w.len() ==> is_plain(#[trigger] w[i])
}

proof fn lemma_plain(s: Seq<char>, i: int, current: Seq<char>)
    requires
        0 <= i <= s.len(),
        forall|k: int| i <= k < s.len() ==> is_plain(#[trigger] s[k]),
        current.len() > 0 || i < s.len(),
    ensures
        tokens_from(s, i, current, false) == seq![current + s.skip(i)],
    decreases s.len() - i,
{
    if i < s.len() {
        lemma_plain(s, i + 1, current.push(s[i]));
        assert(current.push(s[i]) + s.skip(i + 1) =~= current + s.skip(i));
    } else {
        assert(current + s.skip(i) =~= current);
    }
}

/// A word is one token.
pub proof fn a_word_is_one_token(w: Seq<char>)
    requires
        is_plain_word(w),
    ensures
        tokens_of(w) == seq![w],
{
    lemma_plain(w, 0, Seq::empty());
    assert(Seq::<char>::empty() + w.skip(0) =~= w);
}

proof fn lemma_quoted(s: Seq<char>, i: int, current: Seq<char>)
    requires
        0 <= i < s.len(),
        s.last() == '\'',
        forall|k: int| i <= k < s.len() - 1 ==> #[trigger] s[k] != '\'',
    ensures
        tokens_from(s, i, current, true) == seq![current + s.skip(i)],
    decreases s.len() - i,
{
    if i < s.len() - 1 {
        lemma_quoted(s, i + 1, current.push(s[i]));
        assert(current.push(s[i]) + s.skip(i + 1) =~= current + s.skip(i));
    } else {
        assert(tokens_from(s, i + 1, Seq::empty(), false) =~= Seq::empty());
        assert(current + s.skip(i) =~= current.push('\''));
        assert(tokens_from(s, i, current, true) =~= seq![current + s.skip(i)]);
    }
}

/// A quoted text is one token with its quotes, whatever stands between them.
pub proof fn a_quoted_text_is_one_token(t: Seq<char>)
    requires
        !t.contains('\''),
    ensures
        tokens_of(seq!['\''] + t + seq!['\'']) == seq![seq!['\''] + t + seq!['\'']],
{
    let s = seq!['\''] + t + seq!['\''];
    assert forall|k: int| 1 <= k < s.len() - 1 implies #[trigger] s[k] != '\'' by {
        assert(s[k] == t[k - 1]);
        assert(t.contains(t[k - 1]));
    }
    let none = Seq::<char>::empty();
    lemma_quoted(s, 1, none.push('\''));
    assert(none.push('\'') + s.skip(1) =~= s);
}

/// A parenthesis is a token of its own.
pub proof fn a_parenthesis_is_a_token(w: Seq<char>)
    requires
        is_plain_word(w),
    ensures
        tokens_of(seq!['('] + w) == seq![seq!['('], w],
{
    let s = seq!['('] + w;
    assert forall|k: int| 1 <= k < s.len() implies is_plain(#[trigger] s[k]) by {
        assert(s[k] == w[k - 1]);
    }
    let none = Seq::<char>::empty();
    lemma_plain(s, 1, none);
    assert(none + s.skip(1) =~= w);
    assert(tokens_of(s) =~= seq![seq!['('], w]);
}

/// The three orders keep their names.
pub proof fn orders_keep_their_names(o: Order)
    ensures
        (std_order(o) == Ordering::Less) <==> o == Order::Less,
        (std_order(o) == Ordering::Equal) <==> o == Order::Equal,
        (std_order(o) == Ordering::Greater) <==> o == Order::Greater,
        (o.flipped() == Order::Less) <==> o == Order::Greater,
        (o.flipped() == Order::Greater) <==> o == Order::Less,
        (o.flipped() == Order::Equal) <==> o == Order::Equal,
{
}

} // verus!
