//! Placeholders of prepared statements: `?`, bound in the order of visiting,
//! and `$N`, bound to the parameter of that number.

use vstd::prelude::*;
use vstd::string::StringExecFns;
use crate::error::{DatabaseError, Fault};
use crate::execution::operators::{data, Datum, Value};
use crate::execution::row_codec::literals::{literal_repr, literal_text};
use crate::execution::row_codec::tokens::{tokenize_expr, tokens_keep_the_text, tokens_of};
use crate::float::{FloatModel, Floats};
use crate::text::{
    all_digits, chars_of, decimal, digits, join4, join5, number, push_char, read_digits, same,
    texts, unsigned_to_text,
};

verus! {

/// A placeholder token.
#[derive(Clone, Copy, Debug, PartialEq, Eq, Structural)]
pub enum PlaceholderKind {
    Positional,
    Indexed(usize),
}

/// The placeholder that a token is: `?`, or `$` and the digits of a number
/// from one on.
pub open spec fn placeholder(token: Seq<char>) -> Option<PlaceholderKind> {
    if token == "?"@ {
        Some(PlaceholderKind::Positional)
    } else if token.len() > 1 && token[0] == '$' && all_digits(token.skip(1)) && 1 <= number(
        token.skip(1),
    ) <= usize::MAX {
        Some(PlaceholderKind::Indexed(number(token.skip(1)) as usize))
    } else {
        None
    }
}

/// The placeholder that a token is.
pub fn placeholder_kind(token: &str) -> (r: Option<PlaceholderKind>)
    ensures
        r == placeholder(token@),
{
    if same(token, "?") {
        return Some(PlaceholderKind::Positional);
    }
    let chars = chars_of(token);
    if chars.len() == 0 || chars[0] != '$' {
        return None;
    }
    match read_digits(&chars, 1, usize::MAX as u64) {
        Some(n) => if n >= 1 {
            Some(PlaceholderKind::Indexed(n as usize))
        } else {
            None
        },
        None => None,
    }
}

/// What a scan has counted: the `?` so far and the largest `$N` so far.
pub struct Counts {
    pub positional: int,
    pub indexed: int,
}

/// The counts after one more token.
pub open spec fn counted(token: Seq<char>, c: Counts) -> Counts {
    match placeholder(token) {
        Some(PlaceholderKind::Positional) => Counts { positional: c.positional + 1, ..c },
        Some(PlaceholderKind::Indexed(n)) => Counts {
            indexed: if n > c.indexed { n as int } else { c.indexed },
            ..c
        },
        None => c,
    }
}

/// Both styles of placeholder have been seen.
pub open spec fn mixed(c: Counts) -> bool {
    c.positional > 0 && c.indexed > 0
}

/// The counts after the tokens from place `i` on, or after the first token by
/// which the styles are mixed.
pub open spec fn scanned(tokens: Seq<Seq<char>>, i: int, c: Counts) -> Counts
    decreases tokens.len() - i,
{
    if i < 0 || i >= tokens.len() {
        c
    } else {
        let next = counted(tokens[i], c);
        if mixed(next) { next } else { scanned(tokens, i + 1, next) }
    }
}

/// The text of the error for mixed styles.
pub open spec fn mixed_styles() -> Fault {
    Fault::Execution("cannot mix ? and $N placeholders in the same prepared statement"@)
}

/// Counts the placeholders of one field of a statement, on top of what was
/// counted in the fields before it.
pub fn scan_placeholders(field: &str, positional_count: &mut usize, max_indexed: &mut usize) -> (r:
    Result<(), DatabaseError>)
    requires
        *old(positional_count) + field@.len() <= usize::MAX,
    ensures
        ({
            let before = Counts {
                positional: *old(positional_count) as int,
                indexed: *old(max_indexed) as int,
            };
            let after = scanned(tokens_of(field@), 0, before);
            &&& *final(positional_count) == after.positional
            &&& *final(max_indexed) == after.indexed
            &&& match r {
                Ok(_) => tokens_of(field@).len() == 0 || !mixed(after),
                Err(e) => tokens_of(field@).len() > 0 && mixed(after) && e@ == mixed_styles(),
            }
        }),
{
    let tokens = tokenize_expr(field);
    let ghost all = tokens_of(field@);
    let ghost before = Counts {
        positional: *old(positional_count) as int,
        indexed: *old(max_indexed) as int,
    };
    proof {
        tokens_keep_the_text(field@);
        assert(texts(tokens@).len() == tokens@.len());
    }
    let mut i: usize = 0;
    while i < tokens.len()
        invariant
            i <= tokens@.len(),
            texts(tokens@) == all,
            all.len() == tokens@.len() <= field@.len(),
            *positional_count <= *old(positional_count) + i,
            *old(positional_count) + field@.len() <= usize::MAX,
            scanned(all, 0, before) == scanned(
                all,
                i as int,
                Counts { positional: *positional_count as int, indexed: *max_indexed as int },
            ),
            i > 0 ==> !mixed(
                Counts { positional: *positional_count as int, indexed: *max_indexed as int },
            ),
            all == tokens_of(field@),
            before == (Counts {
                positional: *old(positional_count) as int,
                indexed: *old(max_indexed) as int,
            }),
        decreases tokens@.len() - i,
    {
        assert(all[i as int] == tokens@[i as int]@);
        match placeholder_kind(tokens[i].as_str()) {
            Some(PlaceholderKind::Positional) => {
                *positional_count = *positional_count + 1;
            },
            Some(PlaceholderKind::Indexed(n)) => {
                if n > *max_indexed {
                    *max_indexed = n;
                }
            },
            None => {},
        }
        if *positional_count > 0 && *max_indexed > 0 {
            return Err(
                DatabaseError::ExecutionError(
                    "cannot mix ? and $N placeholders in the same prepared statement".to_owned(),
                ),
            );
        }
        i = i + 1;
    }
    Ok(())
}

/// What a substitution yields: the new text, or the fault, and the number of
/// the next `?`.
pub struct Substitution {
    pub text: Result<Seq<char>, Fault>,
    pub next: int,
}

/// The fault of a `?` without a parameter.
pub open spec fn too_few(next: int, given: int) -> Fault {
    Fault::Execution(
        "prepared statement expects at least "@ + decimal(next + 1) + " parameter(s), got "@
            + decimal(given),
    )
}

/// The fault of a `$N` without a parameter.
pub open spec fn out_of_range(n: int, given: int) -> Fault {
    Fault::Execution(
        "prepared statement references $"@ + decimal(n) + " but only "@ + decimal(given)
            + " parameter(s) were given"@,
    )
}

/// One token with its parameter put in: a placeholder becomes the literal of
/// its parameter, any other token stays.
pub open spec fn substituted(
    token: Seq<char>,
    params: Seq<Datum>,
    next: int,
    fl: FloatModel,
) -> Substitution {
    match placeholder(token) {
        Some(PlaceholderKind::Positional) => if next < params.len() {
            Substitution { text: Ok(literal_text(params[next], fl)), next: next + 1 }
        } else {
            Substitution { text: Err(too_few(next, params.len() as int)), next }
        },
        Some(PlaceholderKind::Indexed(n)) => if n <= params.len() {
            Substitution { text: Ok(literal_text(params[n - 1], fl)), next }
        } else {
            Substitution { text: Err(out_of_range(n as int, params.len() as int)), next }
        },
        None => Substitution { text: Ok(token), next },
    }
}

/// A text result as its model.
pub open spec fn text_result(r: Result<String, DatabaseError>) -> Result<Seq<char>, Fault> {
    match r {
        Ok(s) => Ok(s@),
        Err(e) => Err(e@),
    }
}

/// Puts the parameter of a placeholder in its place; any other token stays as
/// it is.
pub fn substitute_token<F: Floats>(
    token: &str,
    params: &[Value],
    next_positional: &mut usize,
    floats: &F,
) -> (r: Result<String, DatabaseError>)
    requires
        floats.sound(),
    ensures
        ({
            let s = substituted(
                token@,
                data(params@),
                *old(next_positional) as int,
                floats.model(),
            );
            text_result(r) == s.text && *final(next_positional) == s.next
        }),
{
    match placeholder_kind(token) {
        Some(PlaceholderKind::Positional) => {
            let next: usize = *next_positional;
            if next >= params.len() {
                let wanted = unsigned_plus_one(next as u64);
                let given = unsigned_to_text(params.len() as u64);
                return Err(
                    DatabaseError::ExecutionError(
                        join4(
                            "prepared statement expects at least ",
                            wanted.as_str(),
                            " parameter(s), got ",
                            given.as_str(),
                        ),
                    ),
                );
            }
            *next_positional = next + 1;
            Ok(literal_repr(&params[next], floats))
        },
        Some(PlaceholderKind::Indexed(n)) => {
            if n > params.len() {
                let wanted = unsigned_to_text(n as u64);
                let given = unsigned_to_text(params.len() as u64);
                return Err(
                    DatabaseError::ExecutionError(
                        join5(
                            "prepared statement references $",
                            wanted.as_str(),
                            " but only ",
                            given.as_str(),
                            " parameter(s) were given",
                        ),
                    ),
                );
            }
            Ok(literal_repr(&params[n - 1], floats))
        },
        None => Ok(token.to_owned()),
    }
}

/// `n + 1` in decimal.
fn unsigned_plus_one(n: u64) -> (r: String)
    ensures
        r@ == decimal(n + 1),
{
    if n < u64::MAX {
        unsigned_to_text(n + 1)
    } else {
        let mut r = unsigned_to_text(1844674407370955161u64);
        push_char(&mut r, '6');
        proof {
            reveal_with_fuel(digits, 2);
            assert(decimal(18446744073709551616int) == decimal(1844674407370955161int).push('6'));
        }
        r
    }
}

/// Texts with a blank between each two.
pub open spec fn spaced(parts: Seq<Seq<char>>) -> Seq<char>
    decreases parts.len(),
{
    if parts.len() == 0 {
        Seq::empty()
    } else if parts.len() == 1 {
        parts[0]
    } else {
        spaced(parts.drop_last()) + " "@ + parts.last()
    }
}

/// The tokens from place `i` on with their parameters put in, after `done`.
pub open spec fn substituted_from(
    tokens: Seq<Seq<char>>,
    i: int,
    done: Seq<Seq<char>>,
    params: Seq<Datum>,
    next: int,
    fl: FloatModel,
) -> Substitution
    decreases tokens.len() - i,
{
    if i < 0 || i >= tokens.len() {
        Substitution { text: Ok(spaced(done)), next }
    } else {
        let s = substituted(tokens[i], params, next, fl);
        match s.text {
            Ok(t) => substituted_from(tokens, i + 1, done.push(t), params, s.next, fl),
            Err(_) => s,
        }
    }
}

/// A field with its parameters put in: token by token, with a blank between
/// each two.
pub open spec fn field_substituted(
    field: Seq<char>,
    params: Seq<Datum>,
    next: int,
    fl: FloatModel,
) -> Substitution {
    substituted_from(tokens_of(field), 0, Seq::empty(), params, next, fl)
}

/// Puts the parameters of a field's placeholders in their places.
pub fn substitute_placeholders<F: Floats>(
    field: &str,
    params: &[Value],
    next_positional: &mut usize,
    floats: &F,
) -> (r: Result<String, DatabaseError>)
    requires
        floats.sound(),
    ensures
        ({
            let s = field_substituted(
                field@,
                data(params@),
                *old(next_positional) as int,
                floats.model(),
            );
            text_result(r) == s.text && *final(next_positional) == s.next
        }),
{
    let tokens = tokenize_expr(field);
    let ghost all = tokens_of(field@);
    let ghost fl = floats.model();
    let ghost ps = data(params@);
    let ghost mut done: Seq<Seq<char>> = Seq::empty();
    let mut out = String::new();
    let mut i: usize = 0;
    while i < tokens.len()
        invariant
            i <= tokens@.len(),
            texts(tokens@) == all,
            floats.sound(),
            fl == floats.model(),
            ps == data(params@),
            done.len() == i,
            out@ == spaced(done),
            substituted_from(
                all,
                0,
                Seq::empty(),
                ps,
                *old(next_positional) as int,
                fl,
            ) == substituted_from(all, i as int, done, ps, *next_positional as int, fl),
            all == tokens_of(field@),
        decreases tokens@.len() - i,
    {
        assert(all[i as int] == tokens@[i as int]@);
        match substitute_token(tokens[i].as_str(), params, next_positional, floats) {
            Ok(t) => {
                if i > 0 {
                    out.append(" ");
                }
                out.append(t.as_str());
                proof {
                    let longer = done.push(t@);
                    assert(longer.drop_last() == done);
                    assert(Seq::<char>::empty() + t@ == t@);
                    done = longer;
                }
            },
            Err(e) => {
                return Err(e);
            },
        }
        i = i + 1;
    }
    assert(texts(tokens@).len() == tokens@.len());
    Ok(out)
}

proof fn lemma_scan_grows(tokens: Seq<Seq<char>>, i: int, c: Counts)
    ensures
        scanned(tokens, i, c).positional >= c.positional,
        scanned(tokens, i, c).indexed >= c.indexed,
    decreases tokens.len() - i,
{
    if 0 <= i < tokens.len() {
        let next = counted(tokens[i], c);
        if !mixed(next) {
            lemma_scan_grows(tokens, i + 1, next);
        }
    }
}

/// A field never asks for more than a scan has counted in it: where the scan
/// accepts the field and there are as many parameters as it counted, every
/// placeholder finds its parameter, and the number of the next `?` grows by
/// the `?` that were counted.
pub proof fn enough_parameters(
    tokens: Seq<Seq<char>>,
    i: int,
    done: Seq<Seq<char>>,
    params: Seq<Datum>,
    c: Counts,
    fl: FloatModel,
)
    requires
        0 <= i <= tokens.len(),
        !mixed(scanned(tokens, i, c)),
        0 <= c.positional,
        0 <= c.indexed,
        scanned(tokens, i, c).positional <= params.len(),
        scanned(tokens, i, c).indexed <= params.len(),
    ensures
        ({
            let s = substituted_from(tokens, i, done, params, c.positional, fl);
            s.text is Ok && s.next == scanned(tokens, i, c).positional
        }),
    decreases tokens.len() - i,
{
    if i < tokens.len() {
        let next = counted(tokens[i], c);
        if !mixed(next) {
            lemma_scan_grows(tokens, i + 1, next);
            let s = substituted(tokens[i], params, c.positional, fl);
            enough_parameters(tokens, i + 1, done.push(s.text->Ok_0), params, next, fl);
        }
    }
}

} // verus!
