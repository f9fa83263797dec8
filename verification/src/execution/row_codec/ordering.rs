//! Sort keys, the order of rows under them, and sorting.

use vstd::prelude::*;
use std::cmp::Ordering;
use crate::execution::operators::{rows, Datum, Tuple, Value};
use crate::execution::row_codec::predicate::{datum_order, order_values};
use crate::float::{FloatModel, Floats, Order};
use crate::text::{
    chars_of, eq_ignore_case, is_space, push_char, same_but_for_case, slice_text, texts, trim,
    trimmed, white_space,
};

verus! {

// ---- the ORDER BY clause ------------------------------------------------------

/// The parts of `s` from place `i` on, cut at every `sep`, where `current` has
/// been read of a part.
pub open spec fn parts_from(s: Seq<char>, i: int, sep: char, current: Seq<char>) -> Seq<Seq<char>>
    decreases s.len() - i,
{
    if i < 0 || i >= s.len() {
        seq![current]
    } else if s[i] == sep {
        seq![current] + parts_from(s, i + 1, sep, Seq::empty())
    } else {
        parts_from(s, i + 1, sep, current.push(s[i]))
    }
}

/// The words of `s` from place `i` on, cut at white space, where `current` has
/// been read of a word.
pub open spec fn words_from(s: Seq<char>, i: int, current: Seq<char>) -> Seq<Seq<char>>
    decreases s.len() - i,
{
    let word = if current.len() == 0 { Seq::empty() } else { seq![current] };
    if i < 0 || i >= s.len() {
        word
    } else if is_space(s[i]) {
        word + words_from(s, i + 1, Seq::empty())
    } else {
        words_from(s, i + 1, current.push(s[i]))
    }
}

/// Cuts a text at every `sep`.
pub fn split_parts(s: &str, sep: char) -> (r: Vec<String>)
    ensures
        texts(r@) == parts_from(s@, 0, sep, Seq::empty()),
{
    let chars = chars_of(s);
    let ghost whole = parts_from(s@, 0, sep, Seq::empty());
    let mut out: Vec<String> = Vec::new();
    let mut current = String::new();
    let mut i: usize = 0;
    assert(texts(out@) + whole == whole);
    while i < chars.len()
        invariant
            i <= chars@.len(),
            chars@ == s@,
            texts(out@) + parts_from(s@, i as int, sep, current@) == whole,
        decreases chars@.len() - i,
    {
        let c = chars[i];
        if c == sep {
            let ghost before = texts(out@);
            let ghost part = current@;
            out.push(current);
            current = String::new();
            proof {
                let rest = parts_from(s@, i + 1, sep, Seq::empty());
                assert(texts(out@) == before + seq![part]);
                assert(before + (seq![part] + rest) == before + seq![part] + rest);
                assert(current@ == Seq::<char>::empty());
            }
        } else {
            push_char(&mut current, c);
        }
        i = i + 1;
    }
    let ghost before = texts(out@);
    let ghost part = current@;
    out.push(current);
    assert(texts(out@) == before + seq![part]);
    out
}

/// Cuts a text into its words.
pub fn split_words(s: &str) -> (r: Vec<String>)
    ensures
        texts(r@) == words_from(s@, 0, Seq::empty()),
{
    let chars = chars_of(s);
    let ghost whole = words_from(s@, 0, Seq::empty());
    let mut out: Vec<String> = Vec::new();
    let mut current = String::new();
    let mut i: usize = 0;
    assert(texts(out@) + whole == whole);
    while i < chars.len()
        invariant
            i <= chars@.len(),
            chars@ == s@,
            texts(out@) + words_from(s@, i as int, current@) == whole,
        decreases chars@.len() - i,
    {
        let c = chars[i];
        if white_space(c) {
            let ghost before = texts(out@);
            let ghost word = current@;
            if current.as_str().is_empty() {
                proof {
                    let rest = words_from(s@, i + 1, Seq::empty());
                    assert(Seq::<Seq<char>>::empty() + rest == rest);
                    assert(current@ == Seq::<char>::empty());
                }
            } else {
                out.push(current);
                current = String::new();
                proof {
                    let rest = words_from(s@, i + 1, Seq::empty());
                    assert(texts(out@) == before + seq![word]);
                    assert(before + (seq![word] + rest) == before + seq![word] + rest);
                    assert(current@ == Seq::<char>::empty());
                }
            }
        } else {
            push_char(&mut current, c);
        }
        i = i + 1;
    }
    let ghost before = texts(out@);
    let ghost word = current@;
    if current.as_str().is_empty() {
        assert(before + Seq::<Seq<char>>::empty() == before);
    } else {
        out.push(current);
        assert(texts(out@) == before + seq![word]);
    }
    out
}

/// A sort key as contracts speak of it: a column's name, and whether small
/// values come first.
pub struct SortKey {
    pub column: Seq<char>,
    pub ascending: bool,
}

/// Whether one of the words from place `i` on is `DESC`.
pub open spec fn says_descending(words: Seq<Seq<char>>, i: int) -> bool {
    exists|k: int| i <= k < words.len() && same_but_for_case(#[trigger] words[k], "DESC"@)
}

/// The sort key that a part of the clause is; `None` where it has no word.
pub open spec fn sort_key(part: Seq<char>) -> Option<SortKey> {
    let words = words_from(part, 0, Seq::empty());
    if words.len() == 0 {
        None
    } else {
        Some(SortKey { column: words[0], ascending: !says_descending(words, 1) })
    }
}

/// The sort keys of the parts from place `i` on.
pub open spec fn sort_keys_from(parts: Seq<Seq<char>>, i: int) -> Seq<SortKey>
    decreases parts.len() - i,
{
    if i < 0 || i >= parts.len() {
        Seq::empty()
    } else {
        match sort_key(parts[i]) {
            Some(k) => seq![k] + sort_keys_from(parts, i + 1),
            None => sort_keys_from(parts, i + 1),
        }
    }
}

/// The clause without the words `ORDER BY` at its start and without white
/// space at its ends.
pub open spec fn order_by_body(raw: Seq<char>) -> Seq<char> {
    let word = "ORDER BY"@;
    if raw.len() >= word.len() && raw.take(word.len() as int) == word {
        trimmed(raw.skip(word.len() as int))
    } else {
        trimmed(raw)
    }
}

/// The sort keys of an `ORDER BY` clause, the most important first.
pub open spec fn order_by_keys(raw: Seq<char>) -> Seq<SortKey> {
    sort_keys_from(parts_from(order_by_body(raw), 0, ',', Seq::empty()), 0)
}

/// A list of sort keys as its model.
pub open spec fn key_models(v: Seq<(String, bool)>) -> Seq<SortKey> {
    v.map_values(|k: (String, bool)| SortKey { column: k.0@, ascending: k.1 })
}

fn strip_order_by(raw: &str) -> (r: String)
    ensures
        r@ == order_by_body(raw@),
{
    let chars = chars_of(raw);
    let word = chars_of("ORDER BY");
    let n: usize = word.len();
    if chars.len() >= n {
        let mut i: usize = 0;
        while i < n && chars[i] == word[i]
            invariant
                i <= n <= chars@.len(),
                n == word@.len(),
                forall|k: int| 0 <= k < i ==> chars@[k] == word@[k],
            decreases n - i,
        {
            i = i + 1;
        }
        if i == n {
            let rest = slice_text(&chars, n, chars.len());
            assert(raw@.take(n as int) == word@);
            assert(rest@ == raw@.skip(n as int));
            return trim(rest.as_str());
        }
        assert(raw@.take(n as int)[i as int] != word@[i as int]);
    }
    trim(raw)
}

fn read_sort_key(part: &str) -> (r: Option<(String, bool)>)
    ensures
        match r {
            Some(k) => sort_key(part@) == Some(SortKey { column: k.0@, ascending: k.1 }),
            None => sort_key(part@) is None,
        },
{
    let words = split_words(part);
    let ghost all = texts(words@);
    assert(all.len() == words@.len());
    if words.len() == 0 {
        return None;
    }
    let mut i: usize = 1;
    let mut ascending = true;
    while i < words.len()
        invariant
            1 <= i <= words@.len(),
            all == texts(words@),
            ascending == !exists|k: int|
                1 <= k < i && same_but_for_case(#[trigger] all[k], "DESC"@),
        decreases words@.len() - i,
    {
        assert(all[i as int] == words@[i as int]@);
        if eq_ignore_case(words[i].as_str(), "DESC") {
            ascending = false;
        }
        i = i + 1;
    }
    Some((words[0].clone(), ascending))
}

/// The sort keys of an `ORDER BY` clause, the most important first, each with
/// whether small values come first.
pub fn parse_order_by(raw: &str) -> (r: Vec<(String, bool)>)
    ensures
        key_models(r@) == order_by_keys(raw@),
{
    let body = strip_order_by(raw);
    let parts = split_parts(body.as_str(), ',');
    let ghost all = texts(parts@);
    let mut out: Vec<(String, bool)> = Vec::new();
    let mut i: usize = 0;
    assert(key_models(out@) + sort_keys_from(all, 0) == sort_keys_from(all, 0));
    while i < parts.len()
        invariant
            i <= parts@.len(),
            all == texts(parts@),
            key_models(out@) + sort_keys_from(all, i as int) == sort_keys_from(all, 0),
        decreases parts@.len() - i,
    {
        assert(all[i as int] == parts@[i as int]@);
        match read_sort_key(parts[i].as_str()) {
            Some(k) => {
                let ghost before = key_models(out@);
                let ghost key = SortKey { column: k.0@, ascending: k.1 };
                out.push(k);
                proof {
                    let rest = sort_keys_from(all, i + 1);
                    assert(key_models(out@) == before + seq![key]);
                    assert(before + (seq![key] + rest) == before + seq![key] + rest);
                }
            },
            None => {},
        }
        i = i + 1;
    }
    assert(key_models(out@) + Seq::<SortKey>::empty() == key_models(out@));
    out
}

// ---- the order of values and rows -------------------------------------------------

/// The order of two values for sorting: null comes first, and what cannot be
/// compared counts as equal.
pub open spec fn sort_order(a: Datum, b: Datum, fl: FloatModel) -> Order {
    match (a, b) {
        (Datum::Null, Datum::Null) => Order::Equal,
        (Datum::Null, _) => Order::Less,
        (_, Datum::Null) => Order::Greater,
        _ => match datum_order(a, b, fl) {
            Some(o) => o,
            None => Order::Equal,
        },
    }
}

/// The order of two values for sorting.
pub fn sort_order_of<F: Floats>(a: &Value, b: &Value, floats: &F) -> (r: Order)
    requires
        floats.sound(),
    ensures
        r == sort_order(a@, b@, floats.model()),
{
    match (a, b) {
        (Value::Null, Value::Null) => Order::Equal,
        (Value::Null, _) => Order::Less,
        (_, Value::Null) => Order::Greater,
        _ => match order_values(a, b, floats) {
            Some(o) => o,
            None => Order::Equal,
        },
    }
}

/// An order by the standard library's name for it.
pub open spec fn std_order(o: Order) -> Ordering {
    match o {
        Order::Less => Ordering::Less,
        Order::Equal => Ordering::Equal,
        Order::Greater => Ordering::Greater,
    }
}

/// The order of two values for sorting, in the standard library's terms.
pub fn compare_for_sort<F: Floats>(a: &Value, b: &Value, floats: &F) -> (r: Ordering)
    requires
        floats.sound(),
    ensures
        r == std_order(sort_order(a@, b@, floats.model())),
{
    match sort_order_of(a, b, floats) {
        Order::Less => Ordering::Less,
        Order::Equal => Ordering::Equal,
        Order::Greater => Ordering::Greater,
    }
}

/// A sort key resolved to a place in the row.
pub struct Place {
    pub index: int,
    pub ascending: bool,
}

/// Resolved sort keys as their model.
pub open spec fn places(v: Seq<(usize, bool)>) -> Seq<Place> {
    v.map_values(|k: (usize, bool)| Place { index: k.0 as int, ascending: k.1 })
}

/// The order of two rows under the keys from place `i` on: the first key on
/// which they differ decides.
pub open spec fn row_order(
    a: Seq<Datum>,
    b: Seq<Datum>,
    keys: Seq<Place>,
    i: int,
    fl: FloatModel,
) -> Order
    decreases keys.len() - i,
{
    if i < 0 || i >= keys.len() {
        Order::Equal
    } else {
        let o = sort_order(a[keys[i].index], b[keys[i].index], fl);
        let o = if keys[i].ascending { o } else { o.flipped() };
        if o == Order::Equal { row_order(a, b, keys, i + 1, fl) } else { o }
    }
}

/// Every key is a place of the row.
pub open spec fn covers(row: Seq<Datum>, keys: Seq<Place>) -> bool {
    forall|i: int| 0 <= i < keys.len() ==> 0 <= (#[trigger] keys[i]).index < row.len()
}

/// The order of two rows under resolved keys.
pub fn order_rows<F: Floats>(a: &Tuple, b: &Tuple, keys: &Vec<(usize, bool)>, floats: &F) -> (r:
    Order)
    requires
        floats.sound(),
        covers(a@, places(keys@)),
        covers(b@, places(keys@)),
    ensures
        r == row_order(a@, b@, places(keys@), 0, floats.model()),
{
    let ghost ks = places(keys@);
    let mut i: usize = 0;
    while i < keys.len()
        invariant
            i <= keys@.len(),
            floats.sound(),
            ks == places(keys@),
            covers(a@, ks),
            covers(b@, ks),
            row_order(a@, b@, ks, 0, floats.model()) == row_order(
                a@,
                b@,
                ks,
                i as int,
                floats.model(),
            ),
        decreases keys@.len() - i,
    {
        let (index, ascending) = keys[i];
        proof {
            assert(ks[i as int].index == index);
            assert(index < a@.len() && index < b@.len());
        }
        let o = sort_order_of(&a.values[index], &b.values[index], floats);
        let o = if ascending { o } else { o.reverse() };
        if o != Order::Equal {
            return o;
        }
        i = i + 1;
    }
    Order::Equal
}

// ---- sorting ------------------------------------------------------------------

/// The number of rows of `sorted`, up to `n`, behind which `row` goes: those
/// at the end that come after it are passed over.
pub open spec fn insert_place(
    sorted: Seq<Seq<Datum>>,
    row: Seq<Datum>,
    n: int,
    keys: Seq<Place>,
    fl: FloatModel,
) -> int
    decreases n,
{
    if n <= 0 || n > sorted.len() {
        0
    } else if row_order(row, sorted[n - 1], keys, 0, fl) == Order::Less {
        insert_place(sorted, row, n - 1, keys, fl)
    } else {
        n
    }
}

/// `sorted` with `row` put in its place, behind the rows that equal it.
pub open spec fn with_row(
    sorted: Seq<Seq<Datum>>,
    row: Seq<Datum>,
    keys: Seq<Place>,
    fl: FloatModel,
) -> Seq<Seq<Datum>> {
    sorted.insert(insert_place(sorted, row, sorted.len() as int, keys, fl), row)
}

/// The first `n` rows in order.
pub open spec fn sorted_rows(
    input: Seq<Seq<Datum>>,
    n: int,
    keys: Seq<Place>,
    fl: FloatModel,
) -> Seq<Seq<Datum>>
    decreases n,
{
    if n <= 0 || n > input.len() {
        Seq::empty()
    } else {
        with_row(sorted_rows(input, n - 1, keys, fl), input[n - 1], keys, fl)
    }
}

pub proof fn lemma_insert_place(
    sorted: Seq<Seq<Datum>>,
    row: Seq<Datum>,
    n: int,
    keys: Seq<Place>,
    fl: FloatModel,
)
    requires
        0 <= n <= sorted.len(),
    ensures
        0 <= insert_place(sorted, row, n, keys, fl) <= n,
        forall|k: int|
            insert_place(sorted, row, n, keys, fl) <= k < n ==> row_order(
                row,
                #[trigger] sorted[k],
                keys,
                0,
                fl,
            ) == Order::Less,
        insert_place(sorted, row, n, keys, fl) > 0 ==> row_order(
            row,
            sorted[insert_place(sorted, row, n, keys, fl) - 1],
            keys,
            0,
            fl,
        ) != Order::Less,
    decreases n,
{
    if n > 0 && row_order(row, sorted[n - 1], keys, 0, fl) == Order::Less {
        lemma_insert_place(sorted, row, n - 1, keys, fl);
    }
}

/// Sorts rows under resolved keys. Rows that the keys do not tell apart stay
/// in the order in which they came.
pub fn sort_rows<F: Floats>(input: Vec<Tuple>, keys: &Vec<(usize, bool)>, floats: &F) -> (r: Vec<
    Tuple,
>)
    requires
        floats.sound(),
        forall|i: int| 0 <= i < input@.len() ==> covers((#[trigger] input@[i])@, places(keys@)),
    ensures
        rows(r@) == sorted_rows(
            rows(input@),
            input@.len() as int,
            places(keys@),
            floats.model(),
        ),
{
    let ghost ks = places(keys@);
    let ghost fl = floats.model();
    let ghost all = rows(input@);
    let ghost source = input@;
    let mut out: Vec<Tuple> = Vec::new();
    let mut i: usize = 0;
    assert(rows(out@) == Seq::<Seq<Datum>>::empty());
    while i < input.len()
        invariant
            i <= input@.len(),
            input@ == source,
            floats.sound(),
            ks == places(keys@),
            fl == floats.model(),
            all == rows(source),
            forall|k: int| 0 <= k < source.len() ==> covers((#[trigger] source[k])@, ks),
            forall|k: int| 0 <= k < out@.len() ==> covers((#[trigger] out@[k])@, ks),
            rows(out@) == sorted_rows(all, i as int, ks, fl),
        decreases input@.len() - i,
    {
        let ghost before = rows(out@);
        let ghost old_out = out@;
        let ghost row = all[i as int];
        assert(row == source[i as int]@);
        let mut p: usize = out.len();
        while p > 0 && order_rows(&input[i], &out[p - 1], keys, floats) == Order::Less
            invariant
                p <= out@.len(),
                i < input@.len(),
                input@ == source,
                floats.sound(),
                ks == places(keys@),
                fl == floats.model(),
                before == rows(out@),
                row == source[i as int]@,
                covers(row, ks),
                forall|k: int| 0 <= k < out@.len() ==> covers((#[trigger] out@[k])@, ks),
                insert_place(before, row, before.len() as int, ks, fl) == insert_place(
                    before,
                    row,
                    p as int,
                    ks,
                    fl,
                ),
            decreases p,
        {
            p = p - 1;
        }
        out.insert(p, input[i].clone());
        proof {
            assert(rows(out@) == before.insert(p as int, row));
            assert forall|k: int| 0 <= k < out@.len() implies covers((#[trigger] out@[k])@, ks) by {
                if k < p {
                    assert(out@[k] == old_out[k]);
                } else if k > p {
                    assert(out@[k] == old_out[k - 1]);
                } else {
                    assert(rows(out@)[k] == row);
                    assert(rows(out@)[k] == out@[k]@);
                }
            }
        }
        i = i + 1;
    }
    out
}

} // verus!
