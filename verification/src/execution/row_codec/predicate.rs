//! Boolean expressions over comparisons.
//!
//! ```text
//! or_expr  := and_expr ("OR" and_expr)*
//! and_expr := atom ("AND" atom)*
//! atom     := "(" or_expr ")" | <token> <op> <token>
//! ```

use vstd::prelude::*;
use crate::execution::catalog::{SchemaModel, TableSchema};
use crate::execution::operators::{data, Datum, Tuple, Value};
use crate::execution::row_codec::literals::{parse_value, value_reading};
use crate::execution::row_codec::tokens::{tokenize_expr, tokens_of};
use crate::float::{float_order, int_order, order_integers, FloatModel, FloatOp, Floats, Order, F64};
use crate::text::{
    eq_ignore_case, less, same, same_but_for_case, text_less, text_order_is_total, texts,
};

verus! {

// ---- truth values ----------------------------------------------------------

/// A truth value of SQL. A comparison with null is neither true nor false.
#[derive(Clone, Copy, Debug, PartialEq, Eq, Structural)]
pub enum Tri {
    True,
    False,
    Unknown,
}

impl Tri {
    /// False where either is false, true where both are true, else unknown.
    pub open spec fn conjunction(self, other: Tri) -> Tri {
        if self == Tri::False || other == Tri::False {
            Tri::False
        } else if self == Tri::True && other == Tri::True {
            Tri::True
        } else {
            Tri::Unknown
        }
    }

    /// True where either is true, false where both are false, else unknown.
    pub open spec fn disjunction(self, other: Tri) -> Tri {
        if self == Tri::True || other == Tri::True {
            Tri::True
        } else if self == Tri::False && other == Tri::False {
            Tri::False
        } else {
            Tri::Unknown
        }
    }

    /// SQL's `AND`.
    pub fn and(self, other: Tri) -> (r: Tri)
        ensures
            r == self.conjunction(other),
    {
        match (self, other) {
            (Tri::False, _) => Tri::False,
            (_, Tri::False) => Tri::False,
            (Tri::True, Tri::True) => Tri::True,
            _ => Tri::Unknown,
        }
    }

    /// SQL's `OR`.
    pub fn or(self, other: Tri) -> (r: Tri)
        ensures
            r == self.disjunction(other),
    {
        match (self, other) {
            (Tri::True, _) => Tri::True,
            (_, Tri::True) => Tri::True,
            (Tri::False, Tri::False) => Tri::False,
            _ => Tri::Unknown,
        }
    }

    /// Whether a row is kept: only a true predicate keeps it.
    pub fn is_true(self) -> (r: bool)
        ensures
            r == (self == Tri::True),
    {
        match self {
            Tri::True => true,
            _ => false,
        }
    }
}

fn tri_of(b: bool) -> (r: Tri)
    ensures
        r == truth(b),
{
    if b { Tri::True } else { Tri::False }
}

pub open spec fn truth(b: bool) -> Tri {
    if b { Tri::True } else { Tri::False }
}

// ---- comparisons -----------------------------------------------------------

/// A comparison operator.
#[derive(Clone, Copy, Debug, PartialEq, Eq, Structural)]
pub enum Comparison {
    Equal,
    NotEqual,
    Less,
    AtMost,
    Greater,
    AtLeast,
}

/// The operator that a token names.
pub open spec fn comparison(token: Seq<char>) -> Option<Comparison> {
    if token == "="@ {
        Some(Comparison::Equal)
    } else if token == "!="@ || token == "<>"@ {
        Some(Comparison::NotEqual)
    } else if token == "<"@ {
        Some(Comparison::Less)
    } else if token == "<="@ {
        Some(Comparison::AtMost)
    } else if token == ">"@ {
        Some(Comparison::Greater)
    } else if token == ">="@ {
        Some(Comparison::AtLeast)
    } else {
        None
    }
}

/// The operator that a token names.
pub fn comparison_op(token: &str) -> (r: Option<Comparison>)
    ensures
        r == comparison(token@),
{
    if same(token, "=") {
        Some(Comparison::Equal)
    } else if same(token, "!=") || same(token, "<>") {
        Some(Comparison::NotEqual)
    } else if same(token, "<") {
        Some(Comparison::Less)
    } else if same(token, "<=") {
        Some(Comparison::AtMost)
    } else if same(token, ">") {
        Some(Comparison::Greater)
    } else if same(token, ">=") {
        Some(Comparison::AtLeast)
    } else {
        None
    }
}

/// The float nearest to an integer, as the float unit has it.
pub open spec fn widened(i: i64, fl: FloatModel) -> u64 {
    (fl.gives)(FloatOp::OfInteger, i as u64, 0)
}

/// The float nearest to an integer.
pub fn widen<F: Floats>(i: i64, floats: &F) -> (r: F64)
    requires
        floats.sound(),
    ensures
        r.bits == widened(i, floats.model()),
{
    F64 { bits: floats.apply(FloatOp::OfInteger, i as u64, 0) }
}

pub open spec fn text_order(a: Seq<char>, b: Seq<char>) -> Order {
    if text_less(a, b) {
        Order::Less
    } else if a == b {
        Order::Equal
    } else {
        Order::Greater
    }
}

/// The order of two texts.
pub fn order_texts(a: &str, b: &str) -> (r: Order)
    ensures
        r == text_order(a@, b@),
{
    proof {
        text_order_is_total(a@, b@);
    }
    if less(a, b) {
        Order::Less
    } else if same(a, b) {
        Order::Equal
    } else {
        Order::Greater
    }
}

pub open spec fn boolean_order(a: bool, b: bool) -> Order {
    if a == b {
        Order::Equal
    } else if b {
        Order::Less
    } else {
        Order::Greater
    }
}

/// How two values stand to each other; `None` where they cannot be compared:
/// they are of different kinds, one is null, or a float is not a number. An
/// integer meets a float as the nearest float.
pub open spec fn datum_order(a: Datum, b: Datum, fl: FloatModel) -> Option<Order> {
    match (a, b) {
        (Datum::Integer(x), Datum::Integer(y)) => Some(int_order(x as int, y as int)),
        (Datum::Float(x), Datum::Float(y)) => float_order(x, y),
        (Datum::Integer(x), Datum::Float(y)) => float_order(widened(x, fl), y),
        (Datum::Float(x), Datum::Integer(y)) => float_order(x, widened(y, fl)),
        (Datum::Text(x), Datum::Text(y)) => Some(text_order(x, y)),
        (Datum::Boolean(x), Datum::Boolean(y)) => Some(boolean_order(x, y)),
        _ => None,
    }
}

/// The order of two truth values: false comes first.
pub fn order_booleans(a: bool, b: bool) -> (r: Order)
    ensures
        r == boolean_order(a, b),
{
    if a == b {
        Order::Equal
    } else if b {
        Order::Less
    } else {
        Order::Greater
    }
}

/// How two values stand to each other.
pub fn order_values<F: Floats>(a: &Value, b: &Value, floats: &F) -> (r: Option<Order>)
    requires
        floats.sound(),
    ensures
        r == datum_order(a@, b@, floats.model()),
{
    match (a, b) {
        (Value::Integer(x), Value::Integer(y)) => Some(order_integers(*x, *y)),
        (Value::Float(x), Value::Float(y)) => x.order(*y),
        (Value::Integer(x), Value::Float(y)) => widen(*x, floats).order(*y),
        (Value::Float(x), Value::Integer(y)) => x.order(widen(*y, floats)),
        (Value::String(x), Value::String(y)) => Some(order_texts(x.as_str(), y.as_str())),
        (Value::Boolean(x), Value::Boolean(y)) => Some(order_booleans(*x, *y)),
        _ => None,
    }
}

/// Whether an order satisfies an operator.
pub open spec fn satisfied(op: Comparison, o: Order) -> bool {
    match op {
        Comparison::Equal => o == Order::Equal,
        Comparison::NotEqual => o != Order::Equal,
        Comparison::Less => o == Order::Less,
        Comparison::AtMost => o != Order::Greater,
        Comparison::Greater => o == Order::Greater,
        Comparison::AtLeast => o != Order::Less,
    }
}

/// What a comparison says of two values: unknown where either is null, `None`
/// where they cannot be compared.
pub open spec fn compared(a: Datum, op: Comparison, b: Datum, fl: FloatModel) -> Option<Tri> {
    if a is Null || b is Null {
        Some(Tri::Unknown)
    } else {
        match datum_order(a, b, fl) {
            Some(o) => Some(truth(satisfied(op, o))),
            None => None,
        }
    }
}

/// What a comparison says of two values.
pub fn compare<F: Floats>(value: &Value, op: Comparison, literal: &Value, floats: &F) -> (r: Option<
    Tri,
>)
    requires
        floats.sound(),
    ensures
        r == compared(value@, op, literal@, floats.model()),
{
    let null = match (value, literal) {
        (Value::Null, _) => true,
        (_, Value::Null) => true,
        _ => false,
    };
    if null {
        return Some(Tri::Unknown);
    }
    match order_values(value, literal, floats) {
        None => None,
        Some(o) => Some(
            match op {
                Comparison::Equal => tri_of(o == Order::Equal),
                Comparison::NotEqual => tri_of(o != Order::Equal),
                Comparison::Less => tri_of(o == Order::Less),
                Comparison::AtMost => tri_of(o != Order::Greater),
                Comparison::Greater => tri_of(o == Order::Greater),
                Comparison::AtLeast => tri_of(o != Order::Less),
            },
        ),
    }
}

// ---- expressions -------------------------------------------------------------

/// The right side of a comparison: a column, or a literal already read.
#[derive(Debug)]
pub enum ComparisonOperand {
    Column(usize),
    Literal(Value),
}

/// A predicate whose columns are resolved to places in a row.
#[derive(Debug)]
pub enum BoolExpr {
    Comparison { left: usize, op: Comparison, right: ComparisonOperand },
    And(Box<BoolExpr>, Box<BoolExpr>),
    Or(Box<BoolExpr>, Box<BoolExpr>),
}

/// The right side of a comparison as contracts speak of it.
pub enum Operand {
    Column(int),
    Literal(Datum),
}

/// A predicate as contracts speak of it.
pub enum Expr {
    Comparison(int, Comparison, Operand),
    And(Box<Expr>, Box<Expr>),
    Or(Box<Expr>, Box<Expr>),
}

impl View for ComparisonOperand {
    type V = Operand;

    open spec fn view(&self) -> Operand {
        match *self {
            ComparisonOperand::Column(i) => Operand::Column(i as int),
            ComparisonOperand::Literal(v) => Operand::Literal(v@),
        }
    }
}

/// A predicate as its model.
pub open spec fn expr_model(e: BoolExpr) -> Expr
    decreases e,
{
    match e {
        BoolExpr::Comparison { left, op, right } => Expr::Comparison(left as int, op, right@),
        BoolExpr::And(l, r) => Expr::And(Box::new(expr_model(*l)), Box::new(expr_model(*r))),
        BoolExpr::Or(l, r) => Expr::Or(Box::new(expr_model(*l)), Box::new(expr_model(*r))),
    }
}

/// The value at a place of a row.
pub open spec fn value_at(row: Seq<Datum>, i: int) -> Option<Datum> {
    if 0 <= i < row.len() { Some(row[i]) } else { None }
}

/// What a predicate says of a row; `None` where some comparison in it cannot
/// be made.
pub open spec fn evaluated(e: Expr, row: Seq<Datum>, fl: FloatModel) -> Option<Tri>
    decreases e,
{
    match e {
        Expr::Comparison(left, op, right) => {
            let b = match right {
                Operand::Column(i) => value_at(row, i),
                Operand::Literal(d) => Some(d),
            };
            match (value_at(row, left), b) {
                (Some(x), Some(y)) => compared(x, op, y, fl),
                _ => None,
            }
        },
        Expr::And(l, r) => match (evaluated(*l, row, fl), evaluated(*r, row, fl)) {
            (Some(x), Some(y)) => Some(x.conjunction(y)),
            _ => None,
        },
        Expr::Or(l, r) => match (evaluated(*l, row, fl), evaluated(*r, row, fl)) {
            (Some(x), Some(y)) => Some(x.disjunction(y)),
            _ => None,
        },
    }
}

/// Whether a predicate keeps a row; `None` where it cannot be evaluated.
pub open spec fn keeps(e: Expr, row: Seq<Datum>, fl: FloatModel) -> Option<bool> {
    match evaluated(e, row, fl) {
        Some(t) => Some(t == Tri::True),
        None => None,
    }
}

fn eval_bool_expr<F: Floats>(e: &BoolExpr, row: &Vec<Value>, floats: &F) -> (r: Option<Tri>)
    requires
        floats.sound(),
    ensures
        r == evaluated(expr_model(*e), data(row@), floats.model()),
    decreases e,
{
    match e {
        BoolExpr::Comparison { left, op, right } => {
            if *left >= row.len() {
                return None;
            }
            match right {
                ComparisonOperand::Column(i) => if *i < row.len() {
                    compare(&row[*left], *op, &row[*i], floats)
                } else {
                    None
                },
                ComparisonOperand::Literal(v) => compare(&row[*left], *op, v, floats),
            }
        },
        BoolExpr::And(l, r) => match (
            eval_bool_expr(l, row, floats),
            eval_bool_expr(r, row, floats),
        ) {
            (Some(x), Some(y)) => Some(x.and(y)),
            _ => None,
        },
        BoolExpr::Or(l, r) => match (
            eval_bool_expr(l, row, floats),
            eval_bool_expr(r, row, floats),
        ) {
            (Some(x), Some(y)) => Some(x.or(y)),
            _ => None,
        },
    }
}

/// The value at place `i` of a row that stands in two parts, the first of
/// which counts `left_len` places.
pub open spec fn split_at(left: Seq<Datum>, left_len: int, right: Seq<Datum>, i: int) -> Option<
    Datum,
> {
    if i < left_len { value_at(left, i) } else { value_at(right, i - left_len) }
}

/// What a predicate says of a row that stands in two parts.
pub open spec fn evaluated_split(
    e: Expr,
    left: Seq<Datum>,
    left_len: int,
    right: Seq<Datum>,
    fl: FloatModel,
) -> Option<Tri>
    decreases e,
{
    match e {
        Expr::Comparison(l, op, r) => {
            let b = match r {
                Operand::Column(i) => split_at(left, left_len, right, i),
                Operand::Literal(d) => Some(d),
            };
            match (split_at(left, left_len, right, l), b) {
                (Some(x), Some(y)) => compared(x, op, y, fl),
                _ => None,
            }
        },
        Expr::And(l, r) => match (
            evaluated_split(*l, left, left_len, right, fl),
            evaluated_split(*r, left, left_len, right, fl),
        ) {
            (Some(x), Some(y)) => Some(x.conjunction(y)),
            _ => None,
        },
        Expr::Or(l, r) => match (
            evaluated_split(*l, left, left_len, right, fl),
            evaluated_split(*r, left, left_len, right, fl),
        ) {
            (Some(x), Some(y)) => Some(x.disjunction(y)),
            _ => None,
        },
    }
}

/// A row in two parts is judged as the row that the parts make together.
pub proof fn split_evaluation_agrees(
    e: Expr,
    left: Seq<Datum>,
    right: Seq<Datum>,
    fl: FloatModel,
)
    ensures
        evaluated_split(e, left, left.len() as int, right, fl) == evaluated(e, left + right, fl),
    decreases e,
{
    match e {
        Expr::Comparison(_, _, _) => {},
        Expr::And(l, r) => {
            split_evaluation_agrees(*l, left, right, fl);
            split_evaluation_agrees(*r, left, right, fl);
        },
        Expr::Or(l, r) => {
            split_evaluation_agrees(*l, left, right, fl);
            split_evaluation_agrees(*r, left, right, fl);
        },
    }
}

fn split_value<'a>(i: usize, left: &'a Tuple, left_len: usize, right: &'a Tuple) -> (r: Option<
    &'a Value,
>)
    ensures
        match r {
            Some(v) => split_at(left@, left_len as int, right@, i as int) == Some(v@),
            None => split_at(left@, left_len as int, right@, i as int) is None,
        },
{
    if i < left_len {
        if i < left.values.len() {
            Some(&left.values[i])
        } else {
            None
        }
    } else if i - left_len < right.values.len() {
        Some(&right.values[i - left_len])
    } else {
        None
    }
}

fn eval_bool_expr_split<F: Floats>(
    e: &BoolExpr,
    left: &Tuple,
    left_len: usize,
    right: &Tuple,
    floats: &F,
) -> (r: Option<Tri>)
    requires
        floats.sound(),
    ensures
        r == evaluated_split(expr_model(*e), left@, left_len as int, right@, floats.model()),
    decreases e,
{
    match e {
        BoolExpr::Comparison { left: l, op, right: r } => {
            let a = match split_value(*l, left, left_len, right) {
                Some(v) => v,
                None => {
                    return None;
                },
            };
            match r {
                ComparisonOperand::Column(i) => match split_value(*i, left, left_len, right) {
                    Some(b) => compare(a, *op, b, floats),
                    None => None,
                },
                ComparisonOperand::Literal(v) => compare(a, *op, v, floats),
            }
        },
        BoolExpr::And(l, r) => match (
            eval_bool_expr_split(l, left, left_len, right, floats),
            eval_bool_expr_split(r, left, left_len, right, floats),
        ) {
            (Some(x), Some(y)) => Some(x.and(y)),
            _ => None,
        },
        BoolExpr::Or(l, r) => match (
            eval_bool_expr_split(l, left, left_len, right, floats),
            eval_bool_expr_split(r, left, left_len, right, floats),
        ) {
            (Some(x), Some(y)) => Some(x.or(y)),
            _ => None,
        },
    }
}

// ---- the grammar ---------------------------------------------------------------

/// An expression read from the tokens, and the place after it.
pub type Parsed = Option<(Expr, int)>;

pub open spec fn is_keyword(tokens: Seq<Seq<char>>, pos: int, word: Seq<char>) -> bool {
    0 <= pos < tokens.len() && same_but_for_case(tokens[pos], word)
}

/// One comparison, or an expression in parentheses.
pub open spec fn read_atom(
    tokens: Seq<Seq<char>>,
    pos: int,
    schema: SchemaModel,
    fl: FloatModel,
) -> Parsed
    decreases tokens.len() - pos, 0int,
{
    if pos < 0 || pos >= tokens.len() {
        None
    } else if tokens[pos] == "("@ {
        match read_or(tokens, pos + 1, schema, fl) {
            Some((e, p)) => if p < tokens.len() && tokens[p] == ")"@ {
                Some((e, p + 1))
            } else {
                None
            },
            None => None,
        }
    } else if pos + 3 > tokens.len() {
        None
    } else {
        read_comparison(tokens[pos], tokens[pos + 1], tokens[pos + 2], pos + 3, schema, fl)
    }
}

/// The comparison that three tokens make. The first must name a column; the
/// last names a column, or is read as a literal of the first one's type.
pub open spec fn read_comparison(
    left: Seq<char>,
    op: Seq<char>,
    right: Seq<char>,
    after: int,
    schema: SchemaModel,
    fl: FloatModel,
) -> Parsed {
    match (comparison(op), schema.position(left)) {
        (Some(o), Some(l)) => {
            let operand = match schema.position(right) {
                Some(r) => Operand::Column(r),
                None => Operand::Literal(value_reading(right, schema.columns[l].data_type, fl)),
            };
            Some((Expr::Comparison(l, o, operand), after))
        },
        _ => None,
    }
}

/// Atoms joined by `AND`.
pub open spec fn read_and(
    tokens: Seq<Seq<char>>,
    pos: int,
    schema: SchemaModel,
    fl: FloatModel,
) -> Parsed
    decreases tokens.len() - pos, 1int,
{
    match read_atom(tokens, pos, schema, fl) {
        Some((e, p)) => if pos < p <= tokens.len() {
            read_and_rest(e, tokens, p, schema, fl)
        } else {
            None
        },
        None => None,
    }
}

/// The further atoms of a conjunction that begins with `left`.
pub open spec fn read_and_rest(
    left: Expr,
    tokens: Seq<Seq<char>>,
    pos: int,
    schema: SchemaModel,
    fl: FloatModel,
) -> Parsed
    decreases tokens.len() - pos, 1int,
{
    if is_keyword(tokens, pos, "AND"@) {
        match read_atom(tokens, pos + 1, schema, fl) {
            Some((e, p)) => if pos < p <= tokens.len() {
                read_and_rest(Expr::And(Box::new(left), Box::new(e)), tokens, p, schema, fl)
            } else {
                None
            },
            None => None,
        }
    } else {
        Some((left, pos))
    }
}

/// Conjunctions joined by `OR`.
pub open spec fn read_or(
    tokens: Seq<Seq<char>>,
    pos: int,
    schema: SchemaModel,
    fl: FloatModel,
) -> Parsed
    decreases tokens.len() - pos, 2int,
{
    match read_and(tokens, pos, schema, fl) {
        Some((e, p)) => if pos < p <= tokens.len() {
            read_or_rest(e, tokens, p, schema, fl)
        } else {
            None
        },
        None => None,
    }
}

/// The further conjunctions of a disjunction that begins with `left`.
pub open spec fn read_or_rest(
    left: Expr,
    tokens: Seq<Seq<char>>,
    pos: int,
    schema: SchemaModel,
    fl: FloatModel,
) -> Parsed
    decreases tokens.len() - pos, 2int,
{
    if is_keyword(tokens, pos, "OR"@) {
        match read_and(tokens, pos + 1, schema, fl) {
            Some((e, p)) => if pos < p <= tokens.len() {
                read_or_rest(Expr::Or(Box::new(left), Box::new(e)), tokens, p, schema, fl)
            } else {
                None
            },
            None => None,
        }
    } else {
        Some((left, pos))
    }
}

/// The predicate that a text is: one expression, with no token left over.
pub open spec fn predicate_of(text: Seq<char>, schema: SchemaModel, fl: FloatModel) -> Option<
    Expr,
> {
    let tokens = tokens_of(text);
    match read_or(tokens, 0, schema, fl) {
        Some((e, p)) => if p == tokens.len() { Some(e) } else { None },
        None => None,
    }
}

/// A parser over the tokens of a predicate.
struct ExprParser<'a> {
    tokens: &'a Vec<String>,
    schema: &'a TableSchema,
}

/// What a parser function returns, as its model.
spec fn parsed(r: Option<(BoolExpr, usize)>) -> Parsed {
    match r {
        Some((e, p)) => Some((expr_model(e), p as int)),
        None => None,
    }
}

impl<'a> ExprParser<'a> {
    spec fn all(&self) -> Seq<Seq<char>> {
        texts(self.tokens@)
    }

    fn peek_is(&self, pos: usize, token: &str) -> (r: bool)
        ensures
            r == (pos < self.all().len() && self.all()[pos as int] == token@),
    {
        pos < self.tokens.len() && same(self.tokens[pos].as_str(), token)
    }

    fn peek_keyword(&self, pos: usize, word: &str) -> (r: bool)
        ensures
            r == is_keyword(self.all(), pos as int, word@),
            r ==> pos < self.tokens.len(),
    {
        pos < self.tokens.len() && eq_ignore_case(self.tokens[pos].as_str(), word)
    }

    fn parse_atom<F: Floats>(&self, pos: usize, floats: &F) -> (r: Option<(BoolExpr, usize)>)
        requires
            floats.sound(),
        ensures
            parsed(r) == read_atom(self.all(), pos as int, self.schema@, floats.model()),
            r matches Some((_, p)) ==> pos < p <= self.tokens@.len(),
        decreases self.tokens@.len() - pos, 0int,
    {
        if pos >= self.tokens.len() {
            return None;
        }
        if self.peek_is(pos, "(") {
            return match self.parse_or(pos + 1, floats) {
                Some((e, p)) => if self.peek_is(p, ")") {
                    Some((e, p + 1))
                } else {
                    None
                },
                None => None,
            };
        }
        if self.tokens.len() - pos < 3 {
            return None;
        }
        let op = match comparison_op(self.tokens[pos + 1].as_str()) {
            Some(op) => op,
            None => {
                return None;
            },
        };
        let left = match self.schema.position(self.tokens[pos].as_str()) {
            Some(i) => i,
            None => {
                return None;
            },
        };
        let right = match self.schema.position(self.tokens[pos + 2].as_str()) {
            Some(i) => ComparisonOperand::Column(i),
            None => ComparisonOperand::Literal(
                parse_value(
                    self.tokens[pos + 2].as_str(),
                    self.schema.columns[left].data_type,
                    floats,
                ),
            ),
        };
        Some((BoolExpr::Comparison { left, op, right }, pos + 3))
    }

    fn parse_and<F: Floats>(&self, pos: usize, floats: &F) -> (r: Option<(BoolExpr, usize)>)
        requires
            floats.sound(),
        ensures
            parsed(r) == read_and(self.all(), pos as int, self.schema@, floats.model()),
            r matches Some((_, p)) ==> pos < p <= self.tokens@.len(),
        decreases self.tokens@.len() - pos, 1int,
    {
        let (first, after) = match self.parse_atom(pos, floats) {
            Some(x) => x,
            None => {
                return None;
            },
        };
        let mut left = first;
        let mut at: usize = after;
        while self.peek_keyword(at, "AND")
            invariant
                floats.sound(),
                pos < at <= self.tokens@.len(),
                read_and(self.all(), pos as int, self.schema@, floats.model()) == read_and_rest(
                    expr_model(left),
                    self.all(),
                    at as int,
                    self.schema@,
                    floats.model(),
                ),
            decreases self.tokens@.len() - at,
        {
            match self.parse_atom(at + 1, floats) {
                Some((right, p)) => {
                    left = BoolExpr::And(Box::new(left), Box::new(right));
                    at = p;
                },
                None => {
                    return None;
                },
            }
        }
        Some((left, at))
    }

    fn parse_or<F: Floats>(&self, pos: usize, floats: &F) -> (r: Option<(BoolExpr, usize)>)
        requires
            floats.sound(),
        ensures
            parsed(r) == read_or(self.all(), pos as int, self.schema@, floats.model()),
            r matches Some((_, p)) ==> pos < p <= self.tokens@.len(),
        decreases self.tokens@.len() - pos, 2int,
    {
        let (first, after) = match self.parse_and(pos, floats) {
            Some(x) => x,
            None => {
                return None;
            },
        };
        let mut left = first;
        let mut at: usize = after;
        while self.peek_keyword(at, "OR")
            invariant
                floats.sound(),
                pos < at <= self.tokens@.len(),
                read_or(self.all(), pos as int, self.schema@, floats.model()) == read_or_rest(
                    expr_model(left),
                    self.all(),
                    at as int,
                    self.schema@,
                    floats.model(),
                ),
            decreases self.tokens@.len() - at,
        {
            match self.parse_and(at + 1, floats) {
                Some((right, p)) => {
                    left = BoolExpr::Or(Box::new(left), Box::new(right));
                    at = p;
                },
                None => {
                    return None;
                },
            }
        }
        Some((left, at))
    }
}

/// A predicate read once, to be evaluated against many rows.
#[derive(Debug)]
pub struct CompiledPredicate {
    expr: BoolExpr,
}

impl CompiledPredicate {
    /// The predicate as contracts speak of it.
    pub closed spec fn model(&self) -> Expr {
        expr_model(self.expr)
    }

    /// Reads a predicate over the columns of `schema`; `None` where the text
    /// is not one.
    pub fn compile<F: Floats>(predicate: &str, schema: &TableSchema, floats: &F) -> (r: Option<
        CompiledPredicate,
    >)
        requires
            floats.sound(),
        ensures
            match r {
                Some(p) => predicate_of(predicate@, schema@, floats.model()) == Some(p.model()),
                None => predicate_of(predicate@, schema@, floats.model()) is None,
            },
    {
        let tokens = tokenize_expr(predicate);
        let parser = ExprParser { tokens: &tokens, schema };
        match parser.parse_or(0, floats) {
            Some((expr, p)) => if p == tokens.len() {
                Some(CompiledPredicate { expr })
            } else {
                None
            },
            None => None,
        }
    }

    /// The comparison of a column with a literal.
    pub fn of_comparison(column: usize, op: Comparison, literal: Value) -> (r: Self)
        ensures
            r.model() == Expr::Comparison(column as int, op, Operand::Literal(literal@)),
    {
        CompiledPredicate {
            expr: BoolExpr::Comparison {
                left: column,
                op,
                right: ComparisonOperand::Literal(literal),
            },
        }
    }

    /// Whether the predicate keeps a row; `None` where it cannot be evaluated.
    pub fn eval<F: Floats>(&self, tuple: &Tuple, floats: &F) -> (r: Option<bool>)
        requires
            floats.sound(),
        ensures
            r == keeps(self.model(), tuple@, floats.model()),
    {
        match eval_bool_expr(&self.expr, &tuple.values, floats) {
            Some(t) => Some(t.is_true()),
            None => None,
        }
    }

    /// Whether the predicate keeps the row that `left` and `right` make
    /// together, where `left` counts `left_len` places.
    pub fn eval_split<F: Floats>(
        &self,
        left: &Tuple,
        left_len: usize,
        right: &Tuple,
        floats: &F,
    ) -> (r: Option<bool>)
        requires
            floats.sound(),
        ensures
            match evaluated_split(self.model(), left@, left_len as int, right@, floats.model()) {
                Some(t) => r == Some(t == Tri::True),
                None => r is None,
            },
            left@.len() == left_len ==> r == keeps(self.model(), left@ + right@, floats.model()),
    {
        proof {
            if left@.len() == left_len {
                split_evaluation_agrees(self.model(), left@, right@, floats.model());
            }
        }
        match eval_bool_expr_split(&self.expr, left, left_len, right, floats) {
            Some(t) => Some(t.is_true()),
            None => None,
        }
    }
}

/// Whether the predicate that `predicate` is keeps a row; `None` where the
/// text is not a predicate or cannot be evaluated.
pub fn evaluate_predicate<F: Floats>(
    predicate: &str,
    schema: &TableSchema,
    tuple: &Tuple,
    floats: &F,
) -> (r: Option<bool>)
    requires
        floats.sound(),
    ensures
        r == (match predicate_of(predicate@, schema@, floats.model()) {
            Some(e) => keeps(e, tuple@, floats.model()),
            None => None,
        }),
{
    match CompiledPredicate::compile(predicate, schema, floats) {
        Some(p) => p.eval(tuple, floats),
        None => None,
    }
}

/// A comparison with null is unknown whatever the operator, so it keeps no
/// row.
pub proof fn null_comparisons_keep_nothing(
    left: int,
    op: Comparison,
    right: Operand,
    row: Seq<Datum>,
    fl: FloatModel,
)
    requires
        value_at(row, left) == Some(Datum::Null),
        right matches Operand::Column(i) ==> value_at(row, i) is Some,
    ensures
        evaluated(Expr::Comparison(left, op, right), row, fl) == Some(Tri::Unknown),
        keeps(Expr::Comparison(left, op, right), row, fl) == Some(false),
{
}

} // verus!
