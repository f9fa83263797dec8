//! Joining two relations.

use vstd::prelude::*;
use std::collections::HashMap;
use crate::execution::operators::{concat_rows, data, rows, Datum, Tuple, Value};
use crate::execution::relation::{as_ints, same_value};
use crate::execution::row_codec::predicate::{evaluated_split, CompiledPredicate, Expr, Tri};
use crate::float::{FloatModel, Floats};
use crate::sql::parser::JoinKind;
use crate::text::chars_of;

verus! {

// ---- what a join yields --------------------------------------------------------

/// Whether a left row and a right row match.
pub type Matcher = spec_fn(Seq<Datum>, Seq<Datum>) -> bool;

/// The rows that `left` makes with the first `n` right rows that match it.
pub open spec fn with_rights(left: Seq<Datum>, r: Seq<Seq<Datum>>, m: Matcher, n: int) -> Seq<
    Seq<Datum>,
>
    decreases n,
{
    if n <= 0 || n > r.len() {
        Seq::empty()
    } else {
        let before = with_rights(left, r, m, n - 1);
        if m(left, r[n - 1]) { before.push(left + r[n - 1]) } else { before }
    }
}

/// The rows that the first `n` left rows that match it make with `right`.
pub open spec fn with_lefts(l: Seq<Seq<Datum>>, right: Seq<Datum>, m: Matcher, n: int) -> Seq<
    Seq<Datum>,
>
    decreases n,
{
    if n <= 0 || n > l.len() {
        Seq::empty()
    } else {
        let before = with_lefts(l, right, m, n - 1);
        if m(l[n - 1], right) { before.push(l[n - 1] + right) } else { before }
    }
}

/// The matches of the first `n` left rows, one left row after the other.
pub open spec fn by_left(l: Seq<Seq<Datum>>, r: Seq<Seq<Datum>>, m: Matcher, n: int) -> Seq<
    Seq<Datum>,
>
    decreases n,
{
    if n <= 0 || n > l.len() {
        Seq::empty()
    } else {
        by_left(l, r, m, n - 1) + with_rights(l[n - 1], r, m, r.len() as int)
    }
}

/// The matches of the first `n` right rows, one right row after the other.
pub open spec fn by_right(l: Seq<Seq<Datum>>, r: Seq<Seq<Datum>>, m: Matcher, n: int) -> Seq<
    Seq<Datum>,
>
    decreases n,
{
    if n <= 0 || n > r.len() {
        Seq::empty()
    } else {
        by_right(l, r, m, n - 1) + with_lefts(l, r[n - 1], m, l.len() as int)
    }
}

/// Some right row matches `left`.
pub open spec fn left_matches(left: Seq<Datum>, r: Seq<Seq<Datum>>, m: Matcher) -> bool {
    exists|j: int| 0 <= j < r.len() && m(left, #[trigger] r[j])
}

/// Some left row matches `right`.
pub open spec fn right_matches(l: Seq<Seq<Datum>>, right: Seq<Datum>, m: Matcher) -> bool {
    exists|i: int| 0 <= i < l.len() && m(#[trigger] l[i], right)
}

/// `n` nulls.
pub open spec fn nulls(n: int) -> Seq<Datum> {
    Seq::new(n as nat, |i: int| Datum::Null)
}

/// The unmatched among the first `n` left rows, each with `cols` nulls behind
/// it.
pub open spec fn lone_lefts(
    l: Seq<Seq<Datum>>,
    r: Seq<Seq<Datum>>,
    m: Matcher,
    cols: int,
    n: int,
) -> Seq<Seq<Datum>>
    decreases n,
{
    if n <= 0 || n > l.len() {
        Seq::empty()
    } else {
        let before = lone_lefts(l, r, m, cols, n - 1);
        if left_matches(l[n - 1], r, m) { before } else { before.push(l[n - 1] + nulls(cols)) }
    }
}

/// The unmatched among the first `n` right rows, each with `cols` nulls before
/// it.
pub open spec fn lone_rights(
    l: Seq<Seq<Datum>>,
    r: Seq<Seq<Datum>>,
    m: Matcher,
    cols: int,
    n: int,
) -> Seq<Seq<Datum>>
    decreases n,
{
    if n <= 0 || n > r.len() {
        Seq::empty()
    } else {
        let before = lone_rights(l, r, m, cols, n - 1);
        if right_matches(l, r[n - 1], m) { before } else { before.push(nulls(cols) + r[n - 1]) }
    }
}

/// The unmatched rows that a join keeps.
pub open spec fn unmatched(
    kind: JoinKind,
    l: Seq<Seq<Datum>>,
    r: Seq<Seq<Datum>>,
    m: Matcher,
    left_cols: int,
    right_cols: int,
) -> Seq<Seq<Datum>> {
    (if kind == JoinKind::Left || kind == JoinKind::FullOuter {
        lone_lefts(l, r, m, right_cols, l.len() as int)
    } else {
        Seq::empty()
    }) + (if kind == JoinKind::Right || kind == JoinKind::FullOuter {
        lone_rights(l, r, m, left_cols, r.len() as int)
    } else {
        Seq::empty()
    })
}

// ---- unmatched rows --------------------------------------------------------------

/// `n` nulls.
fn null_values(n: usize) -> (r: Vec<Value>)
    ensures
        data(r@) == nulls(n as int),
{
    let mut out: Vec<Value> = Vec::new();
    let mut i: usize = 0;
    while i < n
        invariant
            i <= n,
            out@.len() == i,
            forall|k: int| 0 <= k < i ==> #[trigger] out@[k] == Value::Null,
        decreases n - i,
    {
        out.push(Value::Null);
        i = i + 1;
    }
    assert(data(out@) == nulls(n as int));
    out
}

/// Adds the unmatched rows that a join of this kind keeps.
fn append_unmatched(
    merged: &mut Vec<Tuple>,
    kind: JoinKind,
    left: &[Tuple],
    left_matched: &Vec<bool>,
    right: &[Tuple],
    right_matched: &Vec<bool>,
    left_cols: usize,
    right_cols: usize,
    Ghost(m): Ghost<Matcher>,
)
    requires
        left_matched@.len() == left@.len(),
        right_matched@.len() == right@.len(),
        forall|i: int|
            0 <= i < left@.len() ==> #[trigger] left_matched@[i] == left_matches(
                left@[i]@,
                rows(right@),
                m,
            ),
        forall|i: int|
            0 <= i < right@.len() ==> #[trigger] right_matched@[i] == right_matches(
                rows(left@),
                right@[i]@,
                m,
            ),
    ensures
        rows(final(merged)@) == rows(old(merged)@) + unmatched(
            kind,
            rows(left@),
            rows(right@),
            m,
            left_cols as int,
            right_cols as int,
        ),
{
    let ghost l = rows(left@);
    let ghost r = rows(right@);
    let ghost start = rows(merged@);
    assert(start + Seq::<Seq<Datum>>::empty() == start);
    if kind == JoinKind::Left || kind == JoinKind::FullOuter {
        let pad = Tuple { values: null_values(right_cols) };
        let mut i: usize = 0;
        while i < left.len()
            invariant
                i <= left@.len(),
                l == rows(left@),
                r == rows(right@),
                pad@ == nulls(right_cols as int),
                left_matched@.len() == left@.len(),
                forall|k: int|
                    0 <= k < left@.len() ==> #[trigger] left_matched@[k] == left_matches(
                        left@[k]@,
                        r,
                        m,
                    ),
                rows(merged@) == start + lone_lefts(l, r, m, right_cols as int, i as int),
            decreases left@.len() - i,
        {
            assert(l[i as int] == left@[i as int]@);
            if !left_matched[i] {
                let ghost before = rows(merged@);
                merged.push(concat_rows(&left[i], &pad));
                proof {
                    assert(rows(merged@) == before.push(l[i as int] + nulls(right_cols as int)));
                    assert(rows(merged@) == start + lone_lefts(
                        l,
                        r,
                        m,
                        right_cols as int,
                        i + 1,
                    ));
                }
            }
            i = i + 1;
        }
    }
    let ghost middle = rows(merged@);
    assert(middle + Seq::<Seq<Datum>>::empty() == middle);
    if kind == JoinKind::Right || kind == JoinKind::FullOuter {
        let pad = Tuple { values: null_values(left_cols) };
        let mut i: usize = 0;
        while i < right.len()
            invariant
                i <= right@.len(),
                l == rows(left@),
                r == rows(right@),
                pad@ == nulls(left_cols as int),
                right_matched@.len() == right@.len(),
                forall|k: int|
                    0 <= k < right@.len() ==> #[trigger] right_matched@[k] == right_matches(
                        l,
                        right@[k]@,
                        m,
                    ),
                rows(merged@) == middle + lone_rights(l, r, m, left_cols as int, i as int),
            decreases right@.len() - i,
        {
            assert(r[i as int] == right@[i as int]@);
            if !right_matched[i] {
                let ghost before = rows(merged@);
                merged.push(concat_rows(&pad, &right[i]));
                proof {
                    assert(rows(merged@) == before.push(nulls(left_cols as int) + r[i as int]));
                    assert(rows(merged@) == middle + lone_rights(
                        l,
                        r,
                        m,
                        left_cols as int,
                        i + 1,
                    ));
                }
            }
            i = i + 1;
        }
    }
    proof {
        let lefts = if kind == JoinKind::Left || kind == JoinKind::FullOuter {
            lone_lefts(l, r, m, right_cols as int, l.len() as int)
        } else {
            Seq::empty()
        };
        let rights = if kind == JoinKind::Right || kind == JoinKind::FullOuter {
            lone_rights(l, r, m, left_cols as int, r.len() as int)
        } else {
            Seq::empty()
        };
        assert(middle == start + lefts);
        assert(rows(merged@) == middle + rights);
        assert(start + lefts + rights == start + (lefts + rights));
    }
}

// ---- nested loop -----------------------------------------------------------------

/// A condition over the columns of both sides as a matcher, where a left row
/// counts `left_cols` places; without a condition, every two rows match.
pub open spec fn condition_matcher(e: Option<Expr>, left_cols: int, fl: FloatModel) -> Matcher {
    |a: Seq<Datum>, b: Seq<Datum>|
        match e {
            Some(x) => evaluated_split(x, a, left_cols, b, fl) == Some(Tri::True),
            None => true,
        }
}

pub open spec fn compiled_model(p: Option<CompiledPredicate>) -> Option<Expr> {
    match p {
        Some(x) => Some(x.model()),
        None => None,
    }
}

/// Joins by trying every left row with every right row.
pub fn nested_loop_join<F: Floats>(
    left: &[Tuple],
    right: &[Tuple],
    condition: &Option<CompiledPredicate>,
    kind: JoinKind,
    left_cols: usize,
    right_cols: usize,
    floats: &F,
) -> (r: Vec<Tuple>)
    requires
        floats.sound(),
    ensures
        ({
            let m = condition_matcher(
                compiled_model(*condition),
                left_cols as int,
                floats.model(),
            );
            let l = rows(left@);
            let rr = rows(right@);
            rows(r@) == by_left(l, rr, m, l.len() as int) + unmatched(
                kind,
                l,
                rr,
                m,
                left_cols as int,
                right_cols as int,
            )
        }),
{
    let ghost m = condition_matcher(
                compiled_model(*condition),
                left_cols as int,
                floats.model(),
            );
    let ghost l = rows(left@);
    let ghost rr = rows(right@);
    let mut left_matched: Vec<bool> = Vec::new();
    let mut right_matched: Vec<bool> = Vec::new();
    let mut k: usize = 0;
    while k < right.len()
        invariant
            k <= right@.len(),
            right_matched@.len() == k,
            forall|x: int| 0 <= x < k ==> #[trigger] right_matched@[x] == false,
        decreases right@.len() - k,
    {
        right_matched.push(false);
        k = k + 1;
    }
    let mut merged: Vec<Tuple> = Vec::new();
    let mut i: usize = 0;
    assert(rows(merged@) == Seq::<Seq<Datum>>::empty());
    proof {
        assert forall|x: int| 0 <= x < right@.len() implies #[trigger] right_matched@[x]
            == right_matches(l.take(0), right@[x]@, m) by {}
    }
    while i < left.len()
        invariant
            i <= left@.len(),
            floats.sound(),
            m == condition_matcher(
                compiled_model(*condition),
                left_cols as int,
                floats.model(),
            ),
            l == rows(left@),
            rr == rows(right@),
            left_matched@.len() == i,
            right_matched@.len() == right@.len(),
            forall|x: int|
                0 <= x < i ==> #[trigger] left_matched@[x] == left_matches(left@[x]@, rr, m),
            forall|x: int|
                0 <= x < right@.len() ==> #[trigger] right_matched@[x] == right_matches(
                    l.take(i as int),
                    right@[x]@,
                    m,
                ),
            rows(merged@) == by_left(l, rr, m, i as int),
        decreases left@.len() - i,
    {
        let ghost start = rows(merged@);
        let ghost row = l[i as int];
        assert(row == left@[i as int]@);
        let ghost marks = right_matched@;
        let mut found = false;
        let mut j: usize = 0;
        assert(start + Seq::<Seq<Datum>>::empty() == start);
        while j < right.len()
            invariant
                i < left@.len(),
                j <= right@.len(),
                floats.sound(),
                m == condition_matcher(
                compiled_model(*condition),
                left_cols as int,
                floats.model(),
            ),
                l == rows(left@),
                rr == rows(right@),
                row == left@[i as int]@,
                right_matched@.len() == right@.len(),
                marks.len() == right@.len(),
                forall|x: int|
                    0 <= x < j ==> #[trigger] right_matched@[x] == (marks[x] || m(row, rr[x])),
                forall|x: int|
                    j <= x < right@.len() ==> #[trigger] right_matched@[x] == marks[x],
                found == exists|x: int| 0 <= x < j && m(row, #[trigger] rr[x]),
                rows(merged@) == start + with_rights(row, rr, m, j as int),
            decreases right@.len() - j,
        {
            assert(rr[j as int] == right@[j as int]@);
            let keep = match condition {
                Some(p) => match p.eval_split(&left[i], left_cols, &right[j], floats) {
                    Some(b) => b,
                    None => false,
                },
                None => true,
            };
            assert(keep == m(row, rr[j as int]));
            if keep {
                found = true;
                right_matched.set(j, true);
                let ghost before = rows(merged@);
                merged.push(concat_rows(&left[i], &right[j]));
                proof {
                    assert(rows(merged@) == before.push(row + rr[j as int]));
                    assert(rows(merged@) == start + with_rights(row, rr, m, j + 1));
                }
            }
            j = j + 1;
        }
        left_matched.push(found);
        proof {
            let ghost longer = l.take(i + 1);
            assert forall|x: int| 0 <= x < right@.len() implies #[trigger] right_matched@[x]
                == right_matches(longer, right@[x]@, m) by {
                assert(rr[x] == right@[x]@);
                let shorter = l.take(i as int);
                if marks[x] {
                    let y = choose|y: int| 0 <= y < shorter.len() && m(#[trigger] shorter[y], rr[x]);
                    assert(longer[y] == shorter[y]);
                }
                if m(row, rr[x]) {
                    assert(longer[i as int] == row);
                }
                if right_matches(longer, rr[x], m) {
                    let y = choose|y: int| 0 <= y < longer.len() && m(#[trigger] longer[y], rr[x]);
                    if y < i {
                        assert(shorter[y] == longer[y]);
                    }
                }
            }
        }
        i = i + 1;
    }
    proof {
        assert(l.take(i as int) == l);
    }
    append_unmatched(
        &mut merged,
        kind,
        left,
        &left_matched,
        right,
        &right_matched,
        left_cols,
        right_cols,
        Ghost(m),
    );
    merged
}

// ---- hash join --------------------------------------------------------------------

/// Whether two join keys match: null matches nothing, floats match when their
/// bits are equal.
pub open spec fn keys_match(a: Datum, b: Datum) -> bool {
    a !is Null && a == b
}

/// The equality of two columns, one of each side, as a matcher.
pub open spec fn key_matcher(left_key: int, right_key: int) -> Matcher {
    |a: Seq<Datum>, b: Seq<Datum>| keys_match(a[left_key], b[right_key])
}

/// A number that equal texts share.
pub open spec fn text_code(s: Seq<char>, n: int) -> u64
    decreases n,
{
    if n <= 0 || n > s.len() {
        0
    } else {
        ((text_code(s, n - 1) * 31 + s[n - 1] as int) % 0x1_0000_0000_0000_0000) as u64
    }
}

/// A number that equal values share.
pub open spec fn bucket_code(d: Datum) -> u64 {
    match d {
        Datum::Integer(i) => i as u64,
        Datum::Float(x) => x,
        Datum::Text(s) => text_code(s, s.len() as int),
        Datum::Boolean(b) => if b { 1 } else { 0 },
        Datum::Null => 0,
    }
}

fn char_code(c: char) -> (r: u32)
    ensures
        r == c as int,
{
    c as u32
}

fn code_of(v: &Value) -> (r: u64)
    ensures
        r == bucket_code(v@),
{
    match v {
        Value::Integer(i) => *i as u64,
        Value::Float(x) => x.bits,
        Value::String(s) => {
            let chars = chars_of(s.as_str());
            let mut acc: u64 = 0;
            let mut i: usize = 0;
            while i < chars.len()
                invariant
                    i <= chars@.len(),
                    chars@ == s@,
                    acc == text_code(s@, i as int),
                decreases chars@.len() - i,
            {
                let c = chars[i];
                let n: u32 = char_code(c);
                let wide: u128 = acc as u128 * 31 + n as u128;
                assert(wide == text_code(s@, i as int) * 31 + s@[i as int] as int);
                acc = (wide % 0x1_0000_0000_0000_0000) as u64;
                i = i + 1;
            }
            acc
        },
        Value::Boolean(b) => if *b { 1 } else { 0 },
        Value::Null => 0,
    }
}

/// The places, among the first `n` rows, whose key is not null and has this
/// code.
pub open spec fn bucket(build: Seq<Seq<Datum>>, key: int, code: u64, n: int) -> Seq<int>
    decreases n,
{
    if n <= 0 || n > build.len() {
        Seq::empty()
    } else {
        let before = bucket(build, key, code, n - 1);
        if build[n - 1][key] !is Null && bucket_code(build[n - 1][key]) == code {
            before.push(n - 1)
        } else {
            before
        }
    }
}

/// The rows of `build` at places of a list that match `probe`, joined to it.
spec fn picked_matches(
    build: Seq<Seq<Datum>>,
    build_key: int,
    at: Seq<int>,
    probe: Seq<Datum>,
    probe_key: int,
    swapped: bool,
) -> Seq<Seq<Datum>>
    decreases at.len(),
{
    if at.len() == 0 {
        Seq::empty()
    } else {
        let before = picked_matches(build, build_key, at.drop_last(), probe, probe_key, swapped);
        let b = build[at.last()];
        if keys_match(b[build_key], probe[probe_key]) {
            before.push(if swapped { probe + b } else { b + probe })
        } else {
            before
        }
    }
}

/// The rows that `probe` makes with the first `n` rows of `build` that match.
spec fn probe_matches(
    build: Seq<Seq<Datum>>,
    build_key: int,
    n: int,
    probe: Seq<Datum>,
    probe_key: int,
    swapped: bool,
) -> Seq<Seq<Datum>>
    decreases n,
{
    if n <= 0 || n > build.len() {
        Seq::empty()
    } else {
        let before = probe_matches(build, build_key, n - 1, probe, probe_key, swapped);
        let b = build[n - 1];
        if keys_match(b[build_key], probe[probe_key]) {
            before.push(if swapped { probe + b } else { b + probe })
        } else {
            before
        }
    }
}

/// The matches of the first `n` rows of `probe`.
spec fn all_matches(
    build: Seq<Seq<Datum>>,
    build_key: int,
    probe: Seq<Seq<Datum>>,
    probe_key: int,
    swapped: bool,
    n: int,
) -> Seq<Seq<Datum>>
    decreases n,
{
    if n <= 0 || n > probe.len() {
        Seq::empty()
    } else {
        all_matches(build, build_key, probe, probe_key, swapped, n - 1) + probe_matches(
            build,
            build_key,
            build.len() as int,
            probe[n - 1],
            probe_key,
            swapped,
        )
    }
}

proof fn lemma_bucket_holds_matches(
    build: Seq<Seq<Datum>>,
    build_key: int,
    n: int,
    probe: Seq<Datum>,
    probe_key: int,
    swapped: bool,
)
    requires
        0 <= n <= build.len(),
        probe[probe_key] !is Null,
    ensures
        picked_matches(
            build,
            build_key,
            bucket(build, build_key, bucket_code(probe[probe_key]), n),
            probe,
            probe_key,
            swapped,
        ) == probe_matches(build, build_key, n, probe, probe_key, swapped),
    decreases n,
{
    if n > 0 {
        lemma_bucket_holds_matches(build, build_key, n - 1, probe, probe_key, swapped);
        let code = bucket_code(probe[probe_key]);
        let before = bucket(build, build_key, code, n - 1);
        assert(before.push(n - 1).drop_last() == before);
    }
}

proof fn lemma_bucket_places(build: Seq<Seq<Datum>>, key: int, code: u64, n: int)
    requires
        0 <= n <= build.len(),
    ensures
        forall|k: int|
            0 <= k < bucket(build, key, code, n).len() ==> 0 <= #[trigger] bucket(
                build,
                key,
                code,
                n,
            )[k] < n,
        forall|i: int|
            0 <= i < n && (#[trigger] build[i])[key] !is Null && bucket_code(build[i][key]) == code
                ==> bucket(build, key, code, n).contains(i),
    decreases n,
{
    if n > 0 {
        lemma_bucket_places(build, key, code, n - 1);
        let before = bucket(build, key, code, n - 1);
        let after = bucket(build, key, code, n);
        assert forall|i: int|
            0 <= i < n && (#[trigger] build[i])[key] !is Null && bucket_code(build[i][key])
                == code implies after.contains(i) by {
            if i < n - 1 {
                assert(before.contains(i));
                let k = choose|k: int| 0 <= k < before.len() && before[k] == i;
                assert(after[k] == i);
            } else {
                assert(after[before.len() as int] == i);
            }
        }
    }
}

proof fn lemma_probe_is_with_lefts(
    l: Seq<Seq<Datum>>,
    lk: int,
    n: int,
    right: Seq<Datum>,
    rk: int,
)
    requires
        0 <= n <= l.len(),
    ensures
        probe_matches(l, lk, n, right, rk, false) == with_lefts(l, right, key_matcher(lk, rk), n),
    decreases n,
{
    if n > 0 {
        lemma_probe_is_with_lefts(l, lk, n - 1, right, rk);
    }
}

proof fn lemma_probe_is_with_rights(
    r: Seq<Seq<Datum>>,
    rk: int,
    n: int,
    left: Seq<Datum>,
    lk: int,
)
    requires
        0 <= n <= r.len(),
    ensures
        probe_matches(r, rk, n, left, lk, true) == with_rights(left, r, key_matcher(lk, rk), n),
    decreases n,
{
    if n > 0 {
        lemma_probe_is_with_rights(r, rk, n - 1, left, lk);
    }
}

proof fn lemma_all_is_by_right(
    l: Seq<Seq<Datum>>,
    lk: int,
    r: Seq<Seq<Datum>>,
    rk: int,
    n: int,
)
    requires
        0 <= n <= r.len(),
    ensures
        all_matches(l, lk, r, rk, false, n) == by_right(l, r, key_matcher(lk, rk), n),
    decreases n,
{
    if n > 0 {
        lemma_all_is_by_right(l, lk, r, rk, n - 1);
        lemma_probe_is_with_lefts(l, lk, l.len() as int, r[n - 1], rk);
    }
}

proof fn lemma_all_is_by_left(
    l: Seq<Seq<Datum>>,
    lk: int,
    r: Seq<Seq<Datum>>,
    rk: int,
    n: int,
)
    requires
        0 <= n <= l.len(),
    ensures
        all_matches(r, rk, l, lk, true, n) == by_left(l, r, key_matcher(lk, rk), n),
    decreases n,
{
    if n > 0 {
        lemma_all_is_by_left(l, lk, r, rk, n - 1);
        lemma_probe_is_with_rights(r, rk, r.len() as int, l[n - 1], lk);
    }
}

/// The table holds every bucket of the first `n` rows.
spec fn holds_buckets(
    table: Map<u64, Vec<usize>>,
    build: Seq<Seq<Datum>>,
    key: int,
    n: int,
) -> bool {
    forall|code: u64|
        #![trigger bucket(build, key, code, n)]
        bucket(build, key, code, n) == (if table.contains_key(code) {
            as_ints(table[code]@)
        } else {
            Seq::empty()
        })
}

fn build_table(build: &[Tuple], key: usize) -> (r: HashMap<u64, Vec<usize>>)
    requires
        forall|i: int| 0 <= i < build@.len() ==> key < (#[trigger] build@[i])@.len(),
    ensures
        holds_buckets(r@, rows(build@), key as int, build@.len() as int),
{
    broadcast use vstd::std_specs::hash::group_hash_axioms;

    let ghost all = rows(build@);
    let mut table: HashMap<u64, Vec<usize>> = HashMap::new();
    let mut i: usize = 0;
    while i < build.len()
        invariant
            i <= build@.len(),
            all == rows(build@),
            forall|k: int| 0 <= k < build@.len() ==> key < (#[trigger] build@[k])@.len(),
            holds_buckets(table@, all, key as int, i as int),
        decreases build@.len() - i,
    {
        let ghost before = table@;
        assert(all[i as int] == build@[i as int]@);
        assert(key < build@[i as int]@.len());
        let v = &build[i].values[key];
        let null = match v {
            Value::Null => true,
            _ => false,
        };
        if !null {
            let code = code_of(v);
            let ghost old_bucket = bucket(all, key as int, code, i as int);
            let mut places: Vec<usize> = match table.remove(&code) {
                Some(p) => p,
                None => Vec::new(),
            };
            assert(as_ints(places@) == old_bucket);
            places.push(i);
            proof {
                assert(as_ints(places@) == old_bucket.push(i as int));
            }
            table.insert(code, places);
            proof {
                assert forall|c: u64|
                    #![trigger bucket(all, key as int, c, i + 1)]
                    bucket(all, key as int, c, i + 1) == (if table@.contains_key(c) {
                        as_ints(table@[c]@)
                    } else {
                        Seq::empty()
                    }) by {
                    let earlier = bucket(all, key as int, c, i as int);
                    assert(earlier == (if before.contains_key(c) {
                        as_ints(before[c]@)
                    } else {
                        Seq::empty()
                    }));
                }
            }
        } else {
            proof {
                assert forall|c: u64|
                    #![trigger bucket(all, key as int, c, i + 1)]
                    bucket(all, key as int, c, i + 1) == (if table@.contains_key(c) {
                        as_ints(table@[c]@)
                    } else {
                        Seq::empty()
                    }) by {
                    let earlier = bucket(all, key as int, c, i as int);
                    assert(earlier == (if before.contains_key(c) {
                        as_ints(before[c]@)
                    } else {
                        Seq::empty()
                    }));
                }
            }
        }
        i = i + 1;
    }
    table
}


/// Whether probe row `p` and build row `b` match.
spec fn hits(b: Seq<Datum>, build_key: int, p: Seq<Datum>, probe_key: int) -> bool {
    keys_match(b[build_key], p[probe_key])
}

/// Some of the first `n` probe rows matches `b`.
spec fn hit_by(
    b: Seq<Datum>,
    build_key: int,
    probe: Seq<Seq<Datum>>,
    probe_key: int,
    n: int,
) -> bool {
    exists|q: int| 0 <= q < n && hits(b, build_key, #[trigger] probe[q], probe_key)
}

/// Some build row matches `p`.
spec fn finds(build: Seq<Seq<Datum>>, build_key: int, p: Seq<Datum>, probe_key: int) -> bool {
    exists|b: int| 0 <= b < build.len() && hits(#[trigger] build[b], build_key, p, probe_key)
}

/// Puts one side in a hash table by its key and looks the other side's keys
/// up in it. `swapped` says that `build` is the right side of the join.
fn hash_join_build_probe(
    build: &[Tuple],
    build_key: usize,
    probe: &[Tuple],
    probe_key: usize,
    swapped: bool,
    kind: JoinKind,
    left_cols: usize,
    right_cols: usize,
) -> (r: Vec<Tuple>)
    requires
        forall|i: int| 0 <= i < build@.len() ==> build_key < (#[trigger] build@[i])@.len(),
        forall|i: int| 0 <= i < probe@.len() ==> probe_key < (#[trigger] probe@[i])@.len(),
    ensures
        ({
            let b = rows(build@);
            let p = rows(probe@);
            let (l, rr, m) = if swapped {
                (p, b, key_matcher(probe_key as int, build_key as int))
            } else {
                (b, p, key_matcher(build_key as int, probe_key as int))
            };
            rows(r@) == all_matches(
                b,
                build_key as int,
                p,
                probe_key as int,
                swapped,
                p.len() as int,
            ) + unmatched(kind, l, rr, m, left_cols as int, right_cols as int)
        }),
{
    broadcast use vstd::std_specs::hash::group_hash_axioms;

    let ghost b = rows(build@);
    let ghost p = rows(probe@);
    let ghost bk = build_key as int;
    let ghost pk = probe_key as int;
    let table = build_table(build, build_key);
    let mut build_matched: Vec<bool> = Vec::new();
    let mut probe_matched: Vec<bool> = Vec::new();
    let mut k: usize = 0;
    while k < build.len()
        invariant
            k <= build@.len(),
            build_matched@.len() == k,
            forall|x: int| 0 <= x < k ==> #[trigger] build_matched@[x] == false,
        decreases build@.len() - k,
    {
        build_matched.push(false);
        k = k + 1;
    }
    let mut merged: Vec<Tuple> = Vec::new();
    let mut i: usize = 0;
    assert(rows(merged@) == Seq::<Seq<Datum>>::empty());
    while i < probe.len()
        invariant
            i <= probe@.len(),
            b == rows(build@),
            p == rows(probe@),
            bk == build_key,
            pk == probe_key,
            forall|x: int| 0 <= x < build@.len() ==> build_key < (#[trigger] build@[x])@.len(),
            forall|x: int| 0 <= x < probe@.len() ==> probe_key < (#[trigger] probe@[x])@.len(),
            holds_buckets(table@, b, bk, b.len() as int),
            build_matched@.len() == build@.len(),
            probe_matched@.len() == i,
            forall|x: int|
                0 <= x < build@.len() ==> #[trigger] build_matched@[x] == hit_by(
                    b[x],
                    bk,
                    p,
                    pk,
                    i as int,
                ),
            forall|x: int|
                0 <= x < i ==> #[trigger] probe_matched@[x] == finds(b, bk, p[x], pk),
            rows(merged@) == all_matches(b, bk, p, pk, swapped, i as int),
        decreases probe@.len() - i,
    {
        let ghost row = p[i as int];
        assert(row == probe@[i as int]@);
        assert(probe_key < probe@[i as int]@.len());
        let ghost start = rows(merged@);
        let ghost marks = build_matched@;
        let v = &probe[i].values[probe_key];
        assert(v@ == row[pk]);
        let null = match v {
            Value::Null => true,
            _ => false,
        };
        let mut found = false;
        if !null {
            let code = code_of(v);
            proof {
                lemma_bucket_holds_matches(b, bk, b.len() as int, row, pk, swapped);
                lemma_bucket_places(b, bk, code, b.len() as int);
            }
            let ghost full = bucket(b, bk, code, b.len() as int);
            match table.get(&code) {
                Some(places) => {
                    assert(as_ints(places@) == full);
                    let mut j: usize = 0;
                    assert(full.take(0) == Seq::<int>::empty());
                    assert(start + Seq::<Seq<Datum>>::empty() == start);
                    while j < places.len()
                        invariant
                            i < probe@.len(),
                            j <= places@.len(),
                            b == rows(build@),
                            bk == build_key,
                            pk == probe_key,
                            row == probe@[i as int]@,
                            pk < row.len(),
                            v@ == row[pk],
                            row[pk] !is Null,
                            as_ints(places@) == full,
                            forall|x: int|
                                0 <= x < full.len() ==> 0 <= #[trigger] full[x] < b.len(),
                            forall|x: int|
                                0 <= x < build@.len() ==> build_key < (#[trigger] build@[x])@.len(),
                            build_matched@.len() == build@.len(),
                            marks.len() == build@.len(),
                            forall|x: int|
                                0 <= x < build@.len() ==> #[trigger] build_matched@[x] == (marks[x]
                                    || (full.take(j as int).contains(x) && hits(b[x], bk, row, pk))),
                            found == exists|x: int|
                                0 <= x < j && hits(b[#[trigger] full[x]], bk, row, pk),
                            rows(merged@) == start + picked_matches(
                                b,
                                bk,
                                full.take(j as int),
                                row,
                                pk,
                                swapped,
                            ),
                        decreases places@.len() - j,
                    {
                        let bi = places[j];
                        proof {
                            assert(full[j as int] == bi);
                            assert(b[bi as int] == build@[bi as int]@);
                            assert(full.take(j + 1).drop_last() == full.take(j as int));
                            assert(full.take(j + 1).last() == bi);
                        }
                        let ghost previous = build_matched@;
                        let ghost shorter = full.take(j as int);
                        let ghost longer = full.take(j + 1);
                        if same_value(&build[bi].values[build_key], v) {
                            assert(hits(b[bi as int], bk, row, pk));
                            found = true;
                            build_matched.set(bi, true);
                            let ghost before = rows(merged@);
                            let joined = if swapped {
                                concat_rows(&probe[i], &build[bi])
                            } else {
                                concat_rows(&build[bi], &probe[i])
                            };
                            merged.push(joined);
                            proof {
                                assert(rows(merged@) == before.push(joined@));
                                assert(rows(merged@) == start + picked_matches(
                                    b,
                                    bk,
                                    longer,
                                    row,
                                    pk,
                                    swapped,
                                ));
                            }
                        }
                        proof {
                            assert forall|x: int| 0 <= x < build@.len() implies #[trigger]
                                build_matched@[x] == (marks[x] || (longer.contains(x) && hits(
                                b[x],
                                bk,
                                row,
                                pk,
                            ))) by {
                                assert(previous[x] == (marks[x] || (shorter.contains(x) && hits(
                                    b[x],
                                    bk,
                                    row,
                                    pk,
                                ))));
                                if shorter.contains(x) {
                                    let y = choose|y: int|
                                        0 <= y < shorter.len() && shorter[y] == x;
                                    assert(longer[y] == x);
                                }
                                if longer.contains(x) && x != bi {
                                    let y = choose|y: int| 0 <= y < longer.len() && longer[y] == x;
                                    assert(shorter[y] == x);
                                }
                                assert(longer[j as int] == bi);
                            }
                        }
                        j = j + 1;
                    }
                    assert(full.take(j as int) == full);
                },
                None => {
                    assert(full == Seq::<int>::empty());
                    assert(start + Seq::<Seq<Datum>>::empty() == start);
                },
            }
            proof {
                assert forall|x: int| 0 <= x < build@.len() implies #[trigger] build_matched@[x]
                    == (marks[x] || hits(b[x], bk, row, pk)) by {
                    if hits(b[x], bk, row, pk) {
                        assert(b[x][bk] !is Null && bucket_code(b[x][bk]) == code);
                        assert(full.contains(x));
                    }
                }
                if found {
                    let x = choose|x: int|
                        0 <= x < full.len() && hits(b[#[trigger] full[x]], bk, row, pk);
                    assert(hits(b[full[x]], bk, row, pk));
                }
                if finds(b, bk, row, pk) {
                    let y = choose|y: int|
                        0 <= y < b.len() && hits(#[trigger] b[y], bk, row, pk);
                    assert(b[y][bk] !is Null && bucket_code(b[y][bk]) == code);
                    assert(full.contains(y));
                    let z = choose|z: int| 0 <= z < full.len() && full[z] == y;
                    assert(hits(b[full[z]], bk, row, pk));
                }
                assert(found == finds(b, bk, row, pk));
            }
        } else {
            proof {
                lemma_null_probe(b, bk, b.len() as int, row, pk, swapped);
                assert(start + Seq::<Seq<Datum>>::empty() == start);
            }
        }
        probe_matched.push(found);
        proof {
            assert(rows(merged@) == all_matches(b, bk, p, pk, swapped, i + 1));
            assert forall|x: int| 0 <= x < build@.len() implies #[trigger] build_matched@[x]
                == hit_by(b[x], bk, p, pk, i + 1) by {
                assert(marks[x] == hit_by(b[x], bk, p, pk, i as int));
                if marks[x] {
                    let q = choose|q: int| 0 <= q < i && hits(b[x], bk, #[trigger] p[q], pk);
                    assert(hits(b[x], bk, p[q], pk));
                }
                if hits(b[x], bk, row, pk) {
                    assert(hits(b[x], bk, p[i as int], pk));
                }
            }
        }
        i = i + 1;
    }
    let ghost (l, rr, m) = if swapped {
        (p, b, key_matcher(pk, bk))
    } else {
        (b, p, key_matcher(bk, pk))
    };
    if swapped {
        proof {
            assert forall|x: int| 0 <= x < probe@.len() implies #[trigger] probe_matched@[x]
                == left_matches(probe@[x]@, rr, m) by {
                assert(p[x] == probe@[x]@);
                lemma_finds(b, bk, p[x], pk, m, true);
            }
            assert forall|x: int| 0 <= x < build@.len() implies #[trigger] build_matched@[x]
                == right_matches(l, build@[x]@, m) by {
                assert(b[x] == build@[x]@);
                lemma_hit_by(b[x], bk, p, pk, m, true);
            }
        }
        append_unmatched(
            &mut merged,
            kind,
            probe,
            &probe_matched,
            build,
            &build_matched,
            left_cols,
            right_cols,
            Ghost(m),
        );
    } else {
        proof {
            assert forall|x: int| 0 <= x < build@.len() implies #[trigger] build_matched@[x]
                == left_matches(build@[x]@, rr, m) by {
                assert(b[x] == build@[x]@);
                lemma_hit_by(b[x], bk, p, pk, m, false);
            }
            assert forall|x: int| 0 <= x < probe@.len() implies #[trigger] probe_matched@[x]
                == right_matches(l, probe@[x]@, m) by {
                assert(p[x] == probe@[x]@);
                lemma_finds(b, bk, p[x], pk, m, false);
            }
        }
        append_unmatched(
            &mut merged,
            kind,
            build,
            &build_matched,
            probe,
            &probe_matched,
            left_cols,
            right_cols,
            Ghost(m),
        );
    }
    merged
}

proof fn lemma_null_probe(
    build: Seq<Seq<Datum>>,
    bk: int,
    n: int,
    row: Seq<Datum>,
    pk: int,
    swapped: bool,
)
    requires
        0 <= n <= build.len(),
        row[pk] is Null,
    ensures
        probe_matches(build, bk, n, row, pk, swapped) == Seq::<Seq<Datum>>::empty(),
        !finds(build, bk, row, pk),
    decreases n,
{
    if n > 0 {
        lemma_null_probe(build, bk, n - 1, row, pk, swapped);
    }
}

proof fn lemma_finds(
    b: Seq<Seq<Datum>>,
    bk: int,
    row: Seq<Datum>,
    pk: int,
    m: Matcher,
    swapped: bool,
)
    requires
        m == (if swapped { key_matcher(pk, bk) } else { key_matcher(bk, pk) }),
    ensures
        swapped ==> finds(b, bk, row, pk) == left_matches(row, b, m),
        !swapped ==> finds(b, bk, row, pk) == right_matches(b, row, m),
{
    if finds(b, bk, row, pk) {
        let x = choose|x: int| 0 <= x < b.len() && hits(#[trigger] b[x], bk, row, pk);
        if swapped {
            assert(m(row, b[x]));
        } else {
            assert(m(b[x], row));
        }
    }
    if swapped && left_matches(row, b, m) {
        let x = choose|x: int| 0 <= x < b.len() && m(row, #[trigger] b[x]);
        assert(hits(b[x], bk, row, pk));
    }
    if !swapped && right_matches(b, row, m) {
        let x = choose|x: int| 0 <= x < b.len() && m(#[trigger] b[x], row);
        assert(hits(b[x], bk, row, pk));
    }
}

proof fn lemma_hit_by(
    row: Seq<Datum>,
    bk: int,
    p: Seq<Seq<Datum>>,
    pk: int,
    m: Matcher,
    swapped: bool,
)
    requires
        m == (if swapped { key_matcher(pk, bk) } else { key_matcher(bk, pk) }),
    ensures
        swapped ==> hit_by(row, bk, p, pk, p.len() as int) == right_matches(p, row, m),
        !swapped ==> hit_by(row, bk, p, pk, p.len() as int) == left_matches(row, p, m),
{
    if hit_by(row, bk, p, pk, p.len() as int) {
        let q = choose|q: int| 0 <= q < p.len() && hits(row, bk, #[trigger] p[q], pk);
        if swapped {
            assert(m(p[q], row));
        } else {
            assert(m(row, p[q]));
        }
    }
    if swapped && right_matches(p, row, m) {
        let q = choose|q: int| 0 <= q < p.len() && m(#[trigger] p[q], row);
        assert(hits(row, bk, p[q], pk));
    }
    if !swapped && left_matches(row, p, m) {
        let q = choose|q: int| 0 <= q < p.len() && m(row, #[trigger] p[q]);
        assert(hits(row, bk, p[q], pk));
    }
}

/// The rows of an equality join: the matches, one row of the larger side after
/// the other (of the right side where both are of one size), and the
/// unmatched rows behind them.
pub open spec fn hash_joined(
    l: Seq<Seq<Datum>>,
    left_key: int,
    r: Seq<Seq<Datum>>,
    right_key: int,
    kind: JoinKind,
    left_cols: int,
    right_cols: int,
) -> Seq<Seq<Datum>> {
    let m = key_matcher(left_key, right_key);
    (if l.len() <= r.len() {
        by_right(l, r, m, r.len() as int)
    } else {
        by_left(l, r, m, l.len() as int)
    }) + unmatched(kind, l, r, m, left_cols, right_cols)
}

/// Joins on the equality of two columns, one of each side, by putting the
/// smaller side in a hash table.
pub fn hash_join(
    left: &[Tuple],
    left_key: usize,
    right: &[Tuple],
    right_key: usize,
    kind: JoinKind,
    left_cols: usize,
    right_cols: usize,
) -> (r: Vec<Tuple>)
    requires
        forall|i: int| 0 <= i < left@.len() ==> left_key < (#[trigger] left@[i])@.len(),
        forall|i: int| 0 <= i < right@.len() ==> right_key < (#[trigger] right@[i])@.len(),
    ensures
        rows(r@) == hash_joined(
            rows(left@),
            left_key as int,
            rows(right@),
            right_key as int,
            kind,
            left_cols as int,
            right_cols as int,
        ),
{
    let ghost l = rows(left@);
    let ghost r = rows(right@);
    if left.len() <= right.len() {
        proof {
            lemma_all_is_by_right(l, left_key as int, r, right_key as int, r.len() as int);
        }
        hash_join_build_probe(
            left,
            left_key,
            right,
            right_key,
            false,
            kind,
            left_cols,
            right_cols,
        )
    } else {
        proof {
            lemma_all_is_by_left(l, left_key as int, r, right_key as int, l.len() as int);
        }
        hash_join_build_probe(
            right,
            right_key,
            left,
            left_key,
            true,
            kind,
            left_cols,
            right_cols,
        )
    }
}

} // verus!
