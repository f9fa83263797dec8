//! Text as the engine handles it: sequences of characters, with the few
//! readings and renderings that statements and rows need.

use vstd::prelude::*;
use vstd::string::StringExecFns;

verus! {

/// The characters of a list of strings.
pub open spec fn texts(v: Seq<String>) -> Seq<Seq<char>> {
    v.map_values(|s: String| s@)
}

/// Calls `String::push`: the character is appended at the end.
#[verifier::external_body]
pub(crate) fn push_char(s: &mut String, c: char)
    ensures
        final(s)@ == old(s)@.push(c),
{
    s.push(c)
}

/// Whether two texts are the same.
pub fn same(a: &str, b: &str) -> (r: bool)
    ensures
        r == (a@ == b@),
{
    a.len() == b.len() && a.to_owned() == b.to_owned()
}

/// The characters of `s`, one after the other.
pub fn chars_of(s: &str) -> (r: Vec<char>)
    ensures
        r@ == s@,
{
    let mut out: Vec<char> = Vec::new();
    for c in it: s.chars()
        invariant
            out@ == it.seq().take(it.index()),
            it.seq() == s@,
    {
        out.push(c);
    }
    assert(s@.take(s@.len() as int) == s@);
    out
}

/// The string made of the characters `from..to` of `v`.
pub fn slice_text(v: &Vec<char>, from: usize, to: usize) -> (r: String)
    requires
        from <= to <= v@.len(),
    ensures
        r@ == v@.subrange(from as int, to as int),
{
    let mut out = String::new();
    let mut i: usize = from;
    while i < to
        invariant
            from <= i <= to <= v@.len(),
            out@ == v@.subrange(from as int, i as int),
        decreases to - i,
    {
        push_char(&mut out, v[i]);
        assert(v@.subrange(from as int, i as int).push(v@[i as int]) == v@.subrange(
            from as int,
            i + 1,
        ));
        i = i + 1;
    }
    out
}

/// `a` followed by `b`.
pub fn join2(a: &str, b: &str) -> (r: String)
    ensures
        r@ == a@ + b@,
{
    let mut out = a.to_owned();
    out.append(b);
    out
}

/// `a`, `b` and `c`, one after the other.
pub fn join3(a: &str, b: &str, c: &str) -> (r: String)
    ensures
        r@ == a@ + b@ + c@,
{
    let mut out = a.to_owned();
    out.append(b);
    out.append(c);
    out
}

/// Four texts, one after the other.
pub fn join4(a: &str, b: &str, c: &str, d: &str) -> (r: String)
    ensures
        r@ == a@ + b@ + c@ + d@,
{
    let mut out = a.to_owned();
    out.append(b);
    out.append(c);
    out.append(d);
    out
}

/// Five texts, one after the other.
pub fn join5(a: &str, b: &str, c: &str, d: &str, e: &str) -> (r: String)
    ensures
        r@ == a@ + b@ + c@ + d@ + e@,
{
    let mut out = a.to_owned();
    out.append(b);
    out.append(c);
    out.append(d);
    out.append(e);
    out
}

// ---- decimal numbers ----------------------------------------------------

pub open spec fn digit_char(d: int) -> char {
    if d == 0 { '0' } else if d == 1 { '1' } else if d == 2 { '2' } else if d == 3 { '3' }
    else if d == 4 { '4' } else if d == 5 { '5' } else if d == 6 { '6' } else if d == 7 { '7' }
    else if d == 8 { '8' } else { '9' }
}

pub open spec fn is_digit(c: char) -> bool {
    '0' <= c <= '9'
}

pub open spec fn digit_value(c: char) -> int {
    c as int - '0' as int
}

/// The decimal digits of `n`, most significant first, without leading zeros.
pub open spec fn digits(n: nat) -> Seq<char>
    decreases n,
{
    if n < 10 {
        seq![digit_char(n as int)]
    } else {
        digits(n / 10).push(digit_char((n % 10) as int))
    }
}

/// `n` in decimal, with a minus sign where it is negative.
pub open spec fn decimal(n: int) -> Seq<char> {
    if n < 0 {
        seq!['-'] + digits((-n) as nat)
    } else {
        digits(n as nat)
    }
}

/// The number that a sequence of digits denotes.
pub open spec fn number(s: Seq<char>) -> nat
    decreases s.len(),
{
    if s.len() == 0 {
        0
    } else {
        (number(s.drop_last()) * 10 + digit_value(s.last())) as nat
    }
}

pub open spec fn all_digits(s: Seq<char>) -> bool {
    forall|i: int| 0 <= i < s.len() ==> is_digit(#[trigger] s[i])
}

fn digit_of(d: u8) -> (r: char)
    requires
        d < 10,
    ensures
        r == digit_char(d as int),
{
    if d == 0 { '0' } else if d == 1 { '1' } else if d == 2 { '2' } else if d == 3 { '3' }
    else if d == 4 { '4' } else if d == 5 { '5' } else if d == 6 { '6' } else if d == 7 { '7' }
    else if d == 8 { '8' } else { '9' }
}

/// `n` in decimal.
pub fn unsigned_to_text(n: u64) -> (r: String)
    ensures
        r@ == decimal(n as int),
    decreases n,
{
    if n < 10 {
        let mut out = String::new();
        push_char(&mut out, digit_of(n as u8));
        assert(out@ == seq![digit_char(n as int)]);
        out
    } else {
        let mut out = unsigned_to_text(n / 10);
        push_char(&mut out, digit_of((n % 10) as u8));
        out
    }
}

/// `n` in decimal, with its sign.
pub fn signed_to_text(n: i64) -> (r: String)
    ensures
        r@ == decimal(n as int),
{
    if n >= 0 {
        unsigned_to_text(n as u64)
    } else if n == i64::MIN {
        let r = join2("-", unsigned_to_text(9223372036854775808u64).as_str());
        proof {
            reveal_strlit("-");
            assert("-"@ == seq!['-']);
        }
        r
    } else {
        let r = join2("-", unsigned_to_text((-n) as u64).as_str());
        proof {
            reveal_strlit("-");
            assert("-"@ == seq!['-']);
        }
        r
    }
}

/// What `s` reads as when it must be an unsigned number of at most `max`:
/// an optional plus sign and at least one digit, nothing else.
pub open spec fn unsigned_reading(s: Seq<char>, max: int) -> Option<int> {
    let body = if s.len() > 0 && s[0] == '+' { s.skip(1) } else { s };
    if body.len() > 0 && all_digits(body) && number(body) <= max {
        Some(number(body) as int)
    } else {
        None
    }
}

/// What `s` reads as when it must be a signed 64-bit number: an optional sign
/// and at least one digit, nothing else.
pub open spec fn integer_reading(s: Seq<char>) -> Option<i64> {
    if s.len() > 0 && s[0] == '-' {
        let body = s.skip(1);
        if body.len() > 0 && all_digits(body) && -(number(body) as int) >= i64::MIN {
            Some((-(number(body) as int)) as i64)
        } else {
            None
        }
    } else {
        match unsigned_reading(s, i64::MAX as int) {
            Some(n) => Some(n as i64),
            None => None,
        }
    }
}

proof fn lemma_number_grows(s: Seq<char>, k: int)
    requires
        0 <= k <= s.len(),
        all_digits(s),
    ensures
        number(s.take(k)) <= number(s),
    decreases s.len() - k,
{
    if k == s.len() {
        assert(s.take(k) == s);
    } else {
        lemma_number_grows(s, k + 1);
        assert(s.take(k + 1).drop_last() == s.take(k));
        assert(s.take(k + 1).last() == s[k]);
    }
}

/// Reads the digits `v[from..]` as a number of at most `max`.
pub fn read_digits(v: &Vec<char>, from: usize, max: u64) -> (r: Option<u64>)
    requires
        from <= v@.len(),
    ensures
        ({
            let body = v@.skip(from as int);
            match r {
                Some(n) => body.len() > 0 && all_digits(body) && number(body) == n && n <= max,
                None => !(body.len() > 0 && all_digits(body) && number(body) <= max),
            }
        }),
{
    let ghost body = v@.skip(from as int);
    if from == v.len() {
        return None;
    }
    let mut acc: u64 = 0;
    let mut i: usize = from;
    while i < v.len()
        invariant
            from <= i <= v@.len(),
            body == v@.skip(from as int),
            acc <= max,
            acc == number(body.take(i - from)),
            all_digits(body.take(i - from)),
        decreases v@.len() - i,
    {
        let c = v[i];
        proof {
            assert(body[i - from] == c);
            assert(body.take(i - from + 1).drop_last() == body.take(i - from));
            assert(body.take(i - from + 1).last() == c);
        }
        if c < '0' || c > '9' {
            return None;
        }
        let d: u64 = (c as u32 - '0' as u32) as u64;
        if d > max || acc > (max - d) / 10 {
            proof {
                if all_digits(body) {
                    lemma_number_grows(body, i - from + 1);
                }
            }
            return None;
        }
        acc = acc * 10 + d;
        i = i + 1;
    }
    proof {
        assert(body.take(i - from) == body);
    }
    Some(acc)
}

/// Reads an unsigned number of at most `max`.
pub fn parse_unsigned(s: &str, max: u64) -> (r: Option<u64>)
    ensures
        match r {
            Some(n) => unsigned_reading(s@, max as int) == Some(n as int),
            None => unsigned_reading(s@, max as int) is None,
        },
{
    let v = chars_of(s);
    if v.len() > 0 && v[0] == '+' {
        read_digits(&v, 1, max)
    } else {
        proof {
            assert(v@.skip(0) == v@);
        }
        read_digits(&v, 0, max)
    }
}

/// Reads a signed 64-bit number.
pub fn parse_integer(s: &str) -> (r: Option<i64>)
    ensures
        r == integer_reading(s@),
{
    let v = chars_of(s);
    if v.len() > 0 && v[0] == '-' {
        match read_digits(&v, 1, 9223372036854775808u64) {
            Some(n) => if n == 9223372036854775808u64 {
                Some(i64::MIN)
            } else {
                Some(-(n as i64))
            },
            None => None,
        }
    } else {
        match parse_unsigned(s, i64::MAX as u64) {
            Some(n) => Some(n as i64),
            None => None,
        }
    }
}


pub proof fn lemma_digits_read_back(n: nat)
    ensures
        digits(n).len() > 0,
        all_digits(digits(n)),
        number(digits(n)) == n,
    decreases n,
{
    reveal_with_fuel(number, 2);
    if n < 10 {
        assert(digits(n).drop_last() == Seq::<char>::empty());
    } else {
        lemma_digits_read_back(n / 10);
        let front = digits(n / 10);
        assert(digits(n).drop_last() == front);
        assert forall|i: int| 0 <= i < digits(n).len() implies is_digit(
            #[trigger] digits(n)[i],
        ) by {
            if i < front.len() {
                assert(digits(n)[i] == front[i]);
            }
        }
    }
}

/// A number that was written in decimal reads back as itself.
pub proof fn decimal_reads_back(n: i64)
    ensures
        integer_reading(decimal(n as int)) == Some(n),
{
    let s = decimal(n as int);
    if n < 0 {
        lemma_digits_read_back((-(n as int)) as nat);
        assert(s.skip(1) == digits((-(n as int)) as nat));
    } else {
        lemma_digits_read_back(n as nat);
        assert(is_digit(s[0]));
    }
}

// ---- character classes and case ----------------------------------------

/// Unicode's White_Space property.
pub open spec fn is_space(c: char) -> bool {
    let n = c as int;
    ||| 9 <= n <= 13
    ||| n == 32
    ||| n == 0x85
    ||| n == 0xa0
    ||| n == 0x1680
    ||| 0x2000 <= n <= 0x200a
    ||| n == 0x2028
    ||| n == 0x2029
    ||| n == 0x202f
    ||| n == 0x205f
    ||| n == 0x3000
}

/// Whether `c` is white space.
pub fn white_space(c: char) -> (r: bool)
    ensures
        r == is_space(c),
{
    let n: u32 = c as u32;
    (9 <= n && n <= 13) || n == 32 || n == 0x85 || n == 0xa0 || n == 0x1680 || (0x2000 <= n && n
        <= 0x200a) || n == 0x2028 || n == 0x2029 || n == 0x202f || n == 0x205f || n == 0x3000
}

pub open spec fn is_ascii_letter(c: char) -> bool {
    'a' <= c <= 'z' || 'A' <= c <= 'Z'
}

/// What `char::is_alphabetic` says of a character.
pub uninterp spec fn alphabetic(c: char) -> bool;

/// What `char::is_alphanumeric` says of a character.
pub uninterp spec fn alphanumeric(c: char) -> bool;

/// What `str::to_uppercase` makes of a text.
pub uninterp spec fn uppercase(s: Seq<char>) -> Seq<char>;

/// Calls `char::is_alphabetic`. Below U+0080 the alphabetic characters are
/// the letters `a` to `z` and `A` to `Z`.
#[verifier::external_body]
pub(crate) fn is_alphabetic(c: char) -> (r: bool)
    ensures
        r == alphabetic(c),
        (c as int) < 128 ==> r == is_ascii_letter(c),
{
    c.is_alphabetic()
}

/// Calls `char::is_alphanumeric`. Below U+0080 the alphanumeric characters
/// are the letters `a` to `z` and `A` to `Z` and the digits `0` to `9`.
#[verifier::external_body]
pub(crate) fn is_alphanumeric(c: char) -> (r: bool)
    ensures
        r == alphanumeric(c),
        (c as int) < 128 ==> r == (is_ascii_letter(c) || is_digit(c)),
{
    c.is_alphanumeric()
}

/// `a` to `z` become `A` to `Z`; every other character stays.
pub open spec fn ascii_upper(c: char) -> char {
    if 'a' <= c <= 'z' { (c as int - 32) as char } else { c }
}

pub open spec fn is_ascii_text(s: Seq<char>) -> bool {
    forall|i: int| 0 <= i < s.len() ==> (#[trigger] s[i] as int) < 128
}

/// Calls `str::to_uppercase`. A text of characters below U+0080 is changed
/// letter by letter.
#[verifier::external_body]
pub(crate) fn to_uppercase(s: &str) -> (r: String)
    ensures
        r@ == uppercase(s@),
        is_ascii_text(s@) ==> r@ == s@.map_values(|c: char| ascii_upper(c)),
{
    s.to_uppercase()
}

fn upper_char(c: char) -> (r: char)
    ensures
        r == ascii_upper(c),
{
    if 'a' <= c && c <= 'z' {
        (c as u8 - 32) as char
    } else {
        c
    }
}

/// Equal but for the case of the letters `a` to `z`.
pub open spec fn same_but_for_case(a: Seq<char>, b: Seq<char>) -> bool {
    a.map_values(|c: char| ascii_upper(c)) == b.map_values(|c: char| ascii_upper(c))
}

/// Whether two texts are equal but for the case of ASCII letters.
pub fn eq_ignore_case(a: &str, b: &str) -> (r: bool)
    ensures
        r == same_but_for_case(a@, b@),
{
    let x = chars_of(a);
    let y = chars_of(b);
    let ghost xs = a@.map_values(|c: char| ascii_upper(c));
    let ghost ys = b@.map_values(|c: char| ascii_upper(c));
    if x.len() != y.len() {
        assert(xs.len() != ys.len());
        return false;
    }
    let mut i: usize = 0;
    while i < x.len()
        invariant
            i <= x@.len(),
            x@.len() == y@.len(),
            x@ == a@,
            y@ == b@,
            xs == a@.map_values(|c: char| ascii_upper(c)),
            ys == b@.map_values(|c: char| ascii_upper(c)),
            forall|k: int| 0 <= k < i ==> xs[k] == ys[k],
        decreases x@.len() - i,
    {
        if upper_char(x[i]) != upper_char(y[i]) {
            assert(xs[i as int] != ys[i as int]);
            return false;
        }
        i = i + 1;
    }
    assert(xs == ys);
    true
}

// ---- trimming and quotes -------------------------------------------------

/// `s` without the white space at its start.
pub open spec fn trim_start(s: Seq<char>) -> Seq<char>
    decreases s.len(),
{
    if s.len() > 0 && is_space(s[0]) { trim_start(s.skip(1)) } else { s }
}

/// `s` without the white space at its end.
pub open spec fn trim_end(s: Seq<char>) -> Seq<char>
    decreases s.len(),
{
    if s.len() > 0 && is_space(s.last()) { trim_end(s.drop_last()) } else { s }
}

/// `s` without the white space at both ends.
pub open spec fn trimmed(s: Seq<char>) -> Seq<char> {
    trim_end(trim_start(s))
}

/// The characters of `v` in `from..to` without white space at both ends.
pub fn trim_range(v: &Vec<char>, from: usize, to: usize) -> (r: (usize, usize))
    requires
        from <= to <= v@.len(),
    ensures
        from <= r.0 <= r.1 <= to,
        v@.subrange(r.0 as int, r.1 as int) == trimmed(v@.subrange(from as int, to as int)),
{
    let ghost whole = v@.subrange(from as int, to as int);
    let mut a: usize = from;
    while a < to && white_space(v[a])
        invariant
            from <= a <= to <= v@.len(),
            whole == v@.subrange(from as int, to as int),
            trim_start(whole) == trim_start(v@.subrange(a as int, to as int)),
        decreases to - a,
    {
        assert(v@.subrange(a as int, to as int).skip(1) == v@.subrange(a + 1, to as int));
        a = a + 1;
    }
    assert(trim_start(whole) == v@.subrange(a as int, to as int));
    let mut b: usize = to;
    while b > a && white_space(v[b - 1])
        invariant
            from <= a <= b <= to <= v@.len(),
            trim_end(trim_start(whole)) == trim_end(v@.subrange(a as int, b as int)),
        decreases b - a,
    {
        assert(v@.subrange(a as int, b as int).drop_last() == v@.subrange(a as int, b - 1));
        b = b - 1;
    }
    (a, b)
}

/// `s` without the white space at both ends.
pub fn trim(s: &str) -> (r: String)
    ensures
        r@ == trimmed(s@),
{
    let v = chars_of(s);
    let (a, b) = trim_range(&v, 0, v.len());
    assert(v@.subrange(0, v@.len() as int) == v@);
    slice_text(&v, a, b)
}

/// What stands between a quote at the start of `s` and another at its end.
pub open spec fn quoted(s: Seq<char>) -> Option<Seq<char>> {
    if s.len() >= 2 && s[0] == '\'' && s.last() == '\'' {
        Some(s.subrange(1, s.len() - 1))
    } else {
        None
    }
}

/// The contents of a quoted text; `None` where `s` is not one.
pub fn unquote(s: &str) -> (r: Option<String>)
    ensures
        match r {
            Some(t) => quoted(s@) == Some(t@),
            None => quoted(s@) is None,
        },
{
    let v = chars_of(s);
    if v.len() >= 2 && v[0] == '\'' && v[v.len() - 1] == '\'' {
        Some(slice_text(&v, 1, v.len() - 1))
    } else {
        None
    }
}

/// `s` without its surrounding quotes, or `s` itself where it has none.
pub open spec fn without_quotes(s: Seq<char>) -> Seq<char> {
    match quoted(s) {
        Some(t) => t,
        None => s,
    }
}

/// `s` without its surrounding quotes, or `s` itself where it has none.
pub fn strip_quotes(s: &str) -> (r: String)
    ensures
        r@ == without_quotes(s@),
{
    match unquote(s) {
        Some(t) => t,
        None => s.to_owned(),
    }
}

/// Whether `part` stands in `s` at place `i`.
pub open spec fn stands_at(s: Seq<char>, part: Seq<char>, i: int) -> bool {
    0 <= i && i + part.len() <= s.len() && s.subrange(i, i + part.len()) == part
}

/// Whether `part` stands somewhere in `s`.
pub open spec fn has_part(s: Seq<char>, part: Seq<char>) -> bool {
    exists|i: int| stands_at(s, part, i)
}

/// Whether `part` stands somewhere in `s`.
pub fn contains(s: &str, part: &str) -> (r: bool)
    ensures
        r == has_part(s@, part@),
{
    let v = chars_of(s);
    let p = chars_of(part);
    let mut i: usize = 0;
    while i <= v.len() && p.len() <= v.len() - i
        invariant
            i <= v@.len() + 1,
            v@ == s@,
            p@ == part@,
            forall|k: int| 0 <= k < i ==> !stands_at(s@, part@, k),
        decreases v@.len() + 1 - i,
    {
        let mut k: usize = 0;
        while k < p.len() && v[i + k] == p[k]
            invariant
                k <= p@.len(),
                i + p.len() <= v.len(),
                forall|l: int| 0 <= l < k ==> v@[i + l] == #[trigger] p@[l],
            decreases p@.len() - k,
        {
            k = k + 1;
        }
        if k == p.len() {
            assert(v@.subrange(i as int, i + p@.len()) =~= p@);
            assert(stands_at(s@, part@, i as int));
            return true;
        }
        assert(!stands_at(s@, part@, i as int)) by {
            if stands_at(s@, part@, i as int) {
                assert(s@.subrange(i as int, i + part@.len())[k as int] == part@[k as int]);
            }
        }
        i = i + 1;
    }
    false
}

/// A copy of some texts.
pub fn copy_texts(v: &Vec<String>) -> (r: Vec<String>)
    ensures
        texts(r@) == texts(v@),
{
    let mut out: Vec<String> = Vec::new();
    let mut i: usize = 0;
    while i < v.len()
        invariant
            i <= v@.len(),
            out@.len() == i,
            forall|k: int| 0 <= k < i ==> (#[trigger] out@[k])@ == v@[k]@,
        decreases v@.len() - i,
    {
        out.push(v[i].clone());
        i = i + 1;
    }
    assert(texts(out@) == texts(v@));
    out
}

// ---- order ---------------------------------------------------------------

/// Whether `a` comes before `b` in dictionary order of their characters.
pub open spec fn text_less(a: Seq<char>, b: Seq<char>) -> bool
    decreases a.len(),
{
    if b.len() == 0 {
        false
    } else if a.len() == 0 {
        true
    } else if a[0] != b[0] {
        a[0] < b[0]
    } else {
        text_less(a.skip(1), b.skip(1))
    }
}

/// Whether `a` comes before `b` in dictionary order.
pub fn less(a: &str, b: &str) -> (r: bool)
    ensures
        r == text_less(a@, b@),
{
    let x = chars_of(a);
    let y = chars_of(b);
    let mut i: usize = 0;
    proof {
        assert(x@.skip(0) == x@);
        assert(y@.skip(0) == y@);
    }
    loop
        invariant
            i <= x@.len(),
            i <= y@.len(),
            text_less(a@, b@) == text_less(x@.skip(i as int), y@.skip(i as int)),
        decreases x@.len() - i,
    {
        if i == y.len() {
            return false;
        }
        if i == x.len() {
            return true;
        }
        if x[i] != y[i] {
            return x[i] < y[i];
        }
        proof {
            assert(x@.skip(i as int).skip(1) == x@.skip(i + 1));
            assert(y@.skip(i as int).skip(1) == y@.skip(i + 1));
        }
        i = i + 1;
    }
}

/// Dictionary order is a strict total order: exactly one of `a` before `b`,
/// `b` before `a` and `a` equal to `b` holds.
pub proof fn text_order_is_total(a: Seq<char>, b: Seq<char>)
    ensures
        text_less(a, b) ==> !text_less(b, a) && a != b,
        text_less(a, b) || text_less(b, a) || a == b,
        a == b ==> !text_less(a, b),
    decreases a.len(),
{
    if a.len() > 0 && b.len() > 0 {
        text_order_is_total(a.skip(1), b.skip(1));
        if a[0] == b[0] && a.skip(1) == b.skip(1) {
            assert(a == seq![a[0]] + a.skip(1));
            assert(b == seq![b[0]] + b.skip(1));
        }
    } else if a.len() == 0 && b.len() == 0 {
        assert(a == b);
    }
}

/// Two texts that agree up to a place compare by the characters there. A text that is the
/// beginning of a longer one comes before it.
pub proof fn texts_compare_at_their_first_difference(a: Seq<char>, b: Seq<char>, k: int)
    requires
        0 <= k <= a.len(),
        k <= b.len(),
        forall|i: int| 0 <= i < k ==> a[i] == b[i],
    ensures
        k < a.len() && k < b.len() && a[k] != b[k] ==> (text_less(a, b) <==> (a[k] as int) < (
        b[k] as int)),
        k == a.len() ==> (text_less(a, b) <==> a.len() < b.len()),
        k == b.len() ==> !text_less(a, b),
    decreases k,
{
    if k > 0 {
        assert forall|i: int| 0 <= i < k - 1 implies a.skip(1)[i] == b.skip(1)[i] by {
            assert(a.skip(1)[i] == a[i + 1] && b.skip(1)[i] == b[i + 1]);
        }
        texts_compare_at_their_first_difference(a.skip(1), b.skip(1), k - 1);
    }
}

/// Texts are the same but for case where each character is, or the two are one letter
/// from `a` to `z` in its small and its capital form.
pub proof fn case_is_that_of_letters(a: Seq<char>, b: Seq<char>)
    ensures
        same_but_for_case(a, b) <==> a.len() == b.len() && forall|i: int|
            0 <= i < a.len() ==> {
                let x = #[trigger] a[i] as int;
                let y = b[i] as int;
                x == y || (97 <= x <= 122 && y == x - 32) || (97 <= y <= 122 && x == y - 32)
            },
{
    let u = a.map_values(|c: char| ascii_upper(c));
    let v = b.map_values(|c: char| ascii_upper(c));
    if u == v {
        assert(u.len() == v.len());
        assert forall|i: int| 0 <= i < a.len() implies {
            let x = #[trigger] a[i] as int;
            let y = b[i] as int;
            x == y || (97 <= x <= 122 && y == x - 32) || (97 <= y <= 122 && x == y - 32)
        } by {
            assert(u[i] == v[i]);
        }
    }
    if a.len() == b.len() && forall|i: int|
        0 <= i < a.len() ==> {
            let x = #[trigger] a[i] as int;
            let y = b[i] as int;
            x == y || (97 <= x <= 122 && y == x - 32) || (97 <= y <= 122 && x == y - 32)
        } {
        assert forall|i: int| 0 <= i < u.len() implies u[i] == v[i] by {
            let x = a[i] as int;
        }
        assert(u =~= v);
    }
}

/// One more digit makes a number ten times as great and adds the digit.
pub proof fn digits_count_by_tens(s: Seq<char>, c: char)
    ensures
        number(Seq::empty()) == 0,
        is_digit(c) <==> 48 <= (c as int) <= 57,
        is_digit(c) ==> number(s.push(c)) == number(s) * 10 + (c as int - 48),
{
    assert(s.push(c).drop_last() =~= s);
}

/// Digits read as their number, with a minus before them as its negative; a text with
/// anything else in it reads as none.
pub proof fn integers_read_as_their_digits(s: Seq<char>)
    ensures
        s.len() > 0 && all_digits(s) ==> {
            &&& number(s) <= i64::MAX ==> integer_reading(s) == Some(number(s) as i64)
            &&& number(s) > i64::MAX ==> integer_reading(s) is None
            &&& number(s) <= i64::MAX ==> integer_reading(seq!['-'] + s) == Some(
                (-(number(s) as int)) as i64,
            )
            &&& number(s) <= i64::MAX ==> integer_reading(seq!['+'] + s) == Some(number(s) as i64)
        },
        integer_reading(s) is Some ==> exists|k: int|
            0 <= k <= 1 && k < s.len() && #[trigger] all_digits(s.skip(k)) && (k == 1 ==> s[0] == '-'
                || s[0] == '+'),
{
    assert((seq!['-'] + s).skip(1) =~= s);
    assert((seq!['+'] + s).skip(1) =~= s);
    assert(s.skip(0) =~= s);
    if integer_reading(s) is Some {
        if s[0] == '-' || s[0] == '+' {
            assert(all_digits(s.skip(1)));
        } else {
            assert(all_digits(s.skip(0)));
        }
    }
}

/// Trimming cuts white space off both ends, and leaves none there.
pub proof fn trimming_cuts_only_space(s: Seq<char>)
    ensures
        exists|a: int, b: int|
            0 <= a <= b <= s.len() && trimmed(s) == #[trigger] s.subrange(a, b) && (forall|i: int|
                0 <= i < a || b <= i < s.len() ==> is_space(#[trigger] s[i])),
        trimmed(s).len() > 0 ==> !is_space(trimmed(s)[0]) && !is_space(trimmed(s).last()),
{
    let a = lemma_trim_start(s);
    let t = trim_start(s);
    let b = lemma_trim_end(t);
    assert(t.take(b) =~= s.subrange(a, a + b));
    assert forall|i: int| 0 <= i < a || a + b <= i < s.len() implies is_space(
        #[trigger] s[i],
    ) by {
        if i >= a + b {
            assert(t[i - a] == s[i]);
        }
    }
    if trimmed(s).len() > 0 {
        assert(trimmed(s)[0] == t[0]);
    }
}

proof fn lemma_trim_start(s: Seq<char>) -> (a: int)
    ensures
        0 <= a <= s.len(),
        trim_start(s) == s.skip(a),
        forall|i: int| 0 <= i < a ==> is_space(#[trigger] s[i]),
        trim_start(s).len() > 0 ==> !is_space(trim_start(s)[0]),
    decreases s.len(),
{
    if s.len() > 0 && is_space(s[0]) {
        let b = lemma_trim_start(s.skip(1));
        assert(s.skip(1).skip(b) =~= s.skip(b + 1));
        assert forall|i: int| 0 <= i < b + 1 implies is_space(#[trigger] s[i]) by {
            if i > 0 {
                assert(s.skip(1)[i - 1] == s[i]);
            }
        }
        b + 1
    } else {
        assert(s.skip(0) =~= s);
        0
    }
}

proof fn lemma_trim_end(s: Seq<char>) -> (b: int)
    ensures
        0 <= b <= s.len(),
        trim_end(s) == s.take(b),
        forall|i: int| b <= i < s.len() ==> is_space(#[trigger] s[i]),
        trim_end(s).len() > 0 ==> !is_space(trim_end(s).last()),
    decreases s.len(),
{
    if s.len() > 0 && is_space(s.last()) {
        let b = lemma_trim_end(s.drop_last());
        assert(s.drop_last().take(b) =~= s.take(b));
        assert forall|i: int| b <= i < s.len() implies is_space(#[trigger] s[i]) by {
            if i < s.len() - 1 {
                assert(s.drop_last()[i] == s[i]);
            }
        }
        b
    } else {
        assert(s.take(s.len() as int) =~= s);
        s.len() as int
    }
}

/// Dictionary order is transitive.
pub proof fn text_order_is_transitive(a: Seq<char>, b: Seq<char>, c: Seq<char>)
    requires
        text_less(a, b),
        text_less(b, c),
    ensures
        text_less(a, c),
    decreases a.len(),
{
    if a.len() > 0 && a[0] == b[0] && b[0] == c[0] {
        text_order_is_transitive(a.skip(1), b.skip(1), c.skip(1));
    }
}

} // verus!
