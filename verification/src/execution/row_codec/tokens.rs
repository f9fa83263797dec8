//! Cutting an expression into tokens.

use vstd::prelude::*;
use crate::text::{chars_of, is_space, push_char, texts, white_space};

verus! {

/// The token that `current` makes, if it is not empty.
pub open spec fn flushed(current: Seq<char>) -> Seq<Seq<char>> {
    if current.len() == 0 { Seq::empty() } else { seq![current] }
}

/// The tokens of `s` from place `i` on, where `current` has been read of a
/// token and `quoted` says whether a quote is open. White space ends a token;
/// a parenthesis is a token of its own; between quotes every character counts,
/// and the closing quote ends the token.
pub open spec fn tokens_from(
    s: Seq<char>,
    i: int,
    current: Seq<char>,
    quoted: bool,
) -> Seq<Seq<char>>
    decreases s.len() - i,
{
    if i < 0 || i >= s.len() {
        flushed(current)
    } else if s[i] == '\'' {
        if quoted {
            seq![current.push('\'')] + tokens_from(s, i + 1, Seq::empty(), false)
        } else {
            tokens_from(s, i + 1, current.push('\''), true)
        }
    } else if quoted {
        tokens_from(s, i + 1, current.push(s[i]), true)
    } else if s[i] == '(' || s[i] == ')' {
        flushed(current) + seq![seq![s[i]]] + tokens_from(s, i + 1, Seq::empty(), false)
    } else if is_space(s[i]) {
        flushed(current) + tokens_from(s, i + 1, Seq::empty(), false)
    } else {
        tokens_from(s, i + 1, current.push(s[i]), false)
    }
}

/// The tokens of an expression.
pub open spec fn tokens_of(s: Seq<char>) -> Seq<Seq<char>> {
    tokens_from(s, 0, Seq::empty(), false)
}

/// The characters of `s` from place `i` on that belong to some token: all but
/// the white space outside quotes.
pub open spec fn kept_from(s: Seq<char>, i: int, quoted: bool) -> Seq<char>
    decreases s.len() - i,
{
    if i < 0 || i >= s.len() {
        Seq::empty()
    } else if s[i] == '\'' {
        seq![s[i]] + kept_from(s, i + 1, !quoted)
    } else if !quoted && is_space(s[i]) {
        kept_from(s, i + 1, quoted)
    } else {
        seq![s[i]] + kept_from(s, i + 1, quoted)
    }
}

/// The tokens of a list, one after the other.
pub open spec fn glued(tokens: Seq<Seq<char>>) -> Seq<char>
    decreases tokens.len(),
{
    if tokens.len() == 0 { Seq::empty() } else { tokens[0] + glued(tokens.skip(1)) }
}

proof fn lemma_glued_cons(t: Seq<char>, rest: Seq<Seq<char>>)
    ensures
        glued(seq![t] + rest) == t + glued(rest),
{
    assert((seq![t] + rest).skip(1) == rest);
}

proof fn lemma_glued_flushed(t: Seq<char>, rest: Seq<Seq<char>>)
    ensures
        glued(flushed(t) + rest) == t + glued(rest),
{
    if t.len() == 0 {
        assert(flushed(t) + rest == rest);
        assert(t + glued(rest) == glued(rest));
    } else {
        lemma_glued_cons(t, rest);
    }
}

proof fn lemma_tokens_from(s: Seq<char>, i: int, current: Seq<char>, quoted: bool)
    requires
        0 <= i <= s.len(),
    ensures
        glued(tokens_from(s, i, current, quoted)) == current + kept_from(s, i, quoted),
        forall|k: int|
            0 <= k < tokens_from(s, i, current, quoted).len() ==> (#[trigger] tokens_from(
                s,
                i,
                current,
                quoted,
            )[k]).len() > 0,
        tokens_from(s, i, current, quoted).len() <= s.len() - i + flushed(current).len(),
    decreases s.len() - i,
{
    reveal_with_fuel(glued, 2);
    let none = Seq::<char>::empty();
    if i >= s.len() {
        assert(flushed(current) + Seq::<Seq<char>>::empty() == flushed(current));
        lemma_glued_flushed(current, Seq::empty());
    } else if s[i] == '\'' {
        if quoted {
            let rest = tokens_from(s, i + 1, none, false);
            lemma_tokens_from(s, i + 1, none, false);
            lemma_glued_cons(current.push('\''), rest);
            assert(none + kept_from(s, i + 1, false) == kept_from(s, i + 1, false));
            assert(current.push('\'') + kept_from(s, i + 1, false) == current + (seq![s[i]]
                + kept_from(s, i + 1, false)));
        } else {
            lemma_tokens_from(s, i + 1, current.push('\''), true);
            assert(current.push('\'') + kept_from(s, i + 1, true) == current + (seq![s[i]]
                + kept_from(s, i + 1, true)));
        }
    } else if quoted {
        lemma_tokens_from(s, i + 1, current.push(s[i]), true);
        assert(current.push(s[i]) + kept_from(s, i + 1, true) == current + (seq![s[i]]
            + kept_from(s, i + 1, true)));
    } else if s[i] == '(' || s[i] == ')' {
        let rest = tokens_from(s, i + 1, none, false);
        lemma_tokens_from(s, i + 1, none, false);
        assert(flushed(current) + seq![seq![s[i]]] + rest == flushed(current) + (seq![seq![s[i]]]
            + rest));
        lemma_glued_flushed(current, seq![seq![s[i]]] + rest);
        lemma_glued_cons(seq![s[i]], rest);
        assert(none + kept_from(s, i + 1, false) == kept_from(s, i + 1, false));
    } else if is_space(s[i]) {
        let rest = tokens_from(s, i + 1, none, false);
        lemma_tokens_from(s, i + 1, none, false);
        lemma_glued_flushed(current, rest);
        assert(none + kept_from(s, i + 1, false) == kept_from(s, i + 1, false));
    } else {
        lemma_tokens_from(s, i + 1, current.push(s[i]), false);
        assert(current.push(s[i]) + kept_from(s, i + 1, false) == current + (seq![s[i]]
            + kept_from(s, i + 1, false)));
    }
}

/// No token is empty, there are no more tokens than characters, and one after
/// the other the tokens are the expression without the white space that
/// stands outside quotes.
pub proof fn tokens_keep_the_text(s: Seq<char>)
    ensures
        glued(tokens_of(s)) == kept_from(s, 0, false),
        forall|k: int| 0 <= k < tokens_of(s).len() ==> (#[trigger] tokens_of(s)[k]).len() > 0,
        tokens_of(s).len() <= s.len(),
{
    lemma_tokens_from(s, 0, Seq::empty(), false);
    assert(Seq::<char>::empty() + kept_from(s, 0, false) == kept_from(s, 0, false));
}

/// Adds a token to a list.
fn push_token(out: &mut Vec<String>, token: String)
    ensures
        texts(final(out)@) == texts(old(out)@) + seq![token@],
{
    out.push(token);
    assert(texts(out@) == texts(old(out)@) + seq![token@]);
}

/// The tokens of an expression: words between white space, with a quoted text
/// kept whole and each parenthesis on its own.
pub fn tokenize_expr(predicate: &str) -> (r: Vec<String>)
    ensures
        texts(r@) == tokens_of(predicate@),
{
    let chars = chars_of(predicate);
    let mut out: Vec<String> = Vec::new();
    let mut current = String::new();
    let mut quoted = false;
    let mut i: usize = 0;
    assert(texts(out@) == Seq::<Seq<char>>::empty());
    assert(texts(out@) + tokens_of(predicate@) == tokens_of(predicate@));
    while i < chars.len()
        invariant
            i <= chars@.len(),
            chars@ == predicate@,
            texts(out@) + tokens_from(predicate@, i as int, current@, quoted) == tokens_of(
                predicate@,
            ),
        decreases chars@.len() - i,
    {
        let c = chars[i];
        let ghost before = texts(out@);
        let ghost word = current@;
        if c == '\'' {
            push_char(&mut current, c);
            if quoted {
                push_token(&mut out, current);
                current = String::new();
                proof {
                    let rest = tokens_from(predicate@, i + 1, Seq::empty(), false);
                    assert(before + (seq![word.push('\'')] + rest) == before + seq![
                        word.push('\''),
                    ] + rest);
                }
            }
            quoted = !quoted;
        } else if quoted {
            push_char(&mut current, c);
        } else if c == '(' || c == ')' {
            if current.as_str().is_empty() {
            } else {
                push_token(&mut out, current);
                current = String::new();
            }
            let mut own = String::new();
            push_char(&mut own, c);
            push_token(&mut out, own);
            proof {
                let rest = tokens_from(predicate@, i + 1, Seq::empty(), false);
                assert(own@ == seq![c]);
                assert(before + flushed(word) + seq![seq![c]] + rest == before + (flushed(word)
                    + seq![seq![c]] + rest));
                assert(current@ == Seq::<char>::empty());
                assert(before + flushed(word) == if word.len() == 0 { before } else {
                    before + seq![word]
                });
            }
        } else if white_space(c) {
            if current.as_str().is_empty() {
            } else {
                push_token(&mut out, current);
                current = String::new();
            }
            proof {
                let rest = tokens_from(predicate@, i + 1, Seq::empty(), false);
                assert(before + (flushed(word) + rest) == before + flushed(word) + rest);
                assert(current@ == Seq::<char>::empty());
                assert(before + flushed(word) == if word.len() == 0 { before } else {
                    before + seq![word]
                });
            }
        } else {
            push_char(&mut current, c);
        }
        i = i + 1;
    }
    if current.as_str().is_empty() {
        assert(texts(out@) + flushed(current@) == texts(out@));
    } else {
        push_token(&mut out, current);
    }
    out
}

/// The three tokens of a single comparison; `None` for anything that is not
/// made of three tokens.
pub fn split_comparison(predicate: &str) -> (r: Option<(String, String, String)>)
    ensures
        match r {
            Some(t) => tokens_of(predicate@) == seq![t.0@, t.1@, t.2@],
            None => tokens_of(predicate@).len() != 3,
        },
{
    let tokens = tokenize_expr(predicate);
    if tokens.len() != 3 {
        assert(texts(tokens@).len() != 3);
        return None;
    }
    let t = (tokens[0].clone(), tokens[1].clone(), tokens[2].clone());
    assert(texts(tokens@) == seq![t.0@, t.1@, t.2@]);
    Some(t)
}

} // verus!
