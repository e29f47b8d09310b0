//! The query tree: comparison operators, literal values and expressions.
use vstd::prelude::*;

verus! {

/// A comparison operator of a `Compare` expression.
#[derive(Debug, Clone, Copy, PartialEq, Eq, Structural)]
pub enum CompareOp {
    Eq,
    Ne,
    Gt,
    Lt,
    Ge,
    Le,
}

/// A calendar date, ordered by year, then month, then day.
#[derive(Debug, Clone, Copy, PartialEq, Eq, Structural, PartialOrd, Ord)]
pub struct Date {
    pub year: i32,
    pub month: u8,
    pub day: u8,
}

impl Date {
    pub fn new(year: i32, month: u8, day: u8) -> (r: Self)
        ensures
            r.year == year,
            r.month == month,
            r.day == day,
    {
        Date { year, month, day }
    }
}

/// An exact decimal number: `mantissa / 10^scale`, with at most 18 digits
/// after the point and a mantissa that fits an `i64`. A query literal outside
/// that range is refused as an invalid number, and a document number outside
/// it is not numeric, so numeric comparisons against it are false.
#[derive(Debug, Clone, Copy, PartialEq, Eq, Structural)]
pub struct Number {
    pub mantissa: i64,
    pub scale: u32,
}

/// The largest scale a `Number` may carry.
pub const MAX_SCALE: u32 = 18;

impl Number {
    pub open spec fn wf(self) -> bool {
        self.scale <= MAX_SCALE
    }
}

/// A literal on the right-hand side of a comparison.
#[derive(Debug, Clone, PartialEq)]
pub enum Value {
    String(String),
    Number(Number),
    Bool(bool),
    Date(Date),
}

impl Value {
    pub open spec fn wf(self) -> bool {
        match self {
            Value::Number(n) => n.wf(),
            _ => true,
        }
    }
}

/// A query expression.
#[derive(Debug, PartialEq)]
pub enum Expr {
    Compare { field: String, op: CompareOp, value: Value },
    Contains { field: String, value: Value },
    And(Box<Expr>, Box<Expr>),
    Or(Box<Expr>, Box<Expr>),
}

impl Expr {
    /// Every number in the tree is well formed.
    pub open spec fn wf(self) -> bool
        decreases self,
    {
        match self {
            Expr::Compare { value, .. } => value.wf(),
            Expr::Contains { value, .. } => value.wf(),
            Expr::And(l, r) => l.wf() && r.wf(),
            Expr::Or(l, r) => l.wf() && r.wf(),
        }
    }
}

/// The mathematical content of a literal: text as characters.
pub enum LitView {
    Text(Seq<char>),
    Num(Number),
    Flag(bool),
    Day(Date),
}

/// The mathematical content of an expression tree.
pub enum Tree {
    Compare(Seq<char>, CompareOp, LitView),
    Contains(Seq<char>, LitView),
    And(Box<Tree>, Box<Tree>),
    Or(Box<Tree>, Box<Tree>),
}

impl Value {
    pub open spec fn lit(self) -> LitView {
        match self {
            Value::String(s) => LitView::Text(s@),
            Value::Number(n) => LitView::Num(n),
            Value::Bool(b) => LitView::Flag(b),
            Value::Date(d) => LitView::Day(d),
        }
    }
}

impl Expr {
    pub open spec fn tree(self) -> Tree
        decreases self,
    {
        match self {
            Expr::Compare { field, op, value } => Tree::Compare(field@, op, value.lit()),
            Expr::Contains { field, value } => Tree::Contains(field@, value.lit()),
            Expr::And(l, r) => Tree::And(Box::new(l.tree()), Box::new(r.tree())),
            Expr::Or(l, r) => Tree::Or(Box::new(l.tree()), Box::new(r.tree())),
        }
    }
}

/// Sign of the comparison of two dates: negative, zero or positive.
pub open spec fn date_cmp(a: Date, b: Date) -> int {
    if a.year != b.year {
        if a.year < b.year { -1 } else { 1 }
    } else if a.month != b.month {
        if a.month < b.month { -1 } else { 1 }
    } else if a.day != b.day {
        if a.day < b.day { -1 } else { 1 }
    } else {
        0
    }
}

/// Whether an ordering result `c` (negative, zero, positive) satisfies `op`.
pub open spec fn op_holds(op: CompareOp, c: int) -> bool {
    match op {
        CompareOp::Eq => c == 0,
        CompareOp::Ne => c != 0,
        CompareOp::Gt => c > 0,
        CompareOp::Lt => c < 0,
        CompareOp::Ge => c >= 0,
        CompareOp::Le => c <= 0,
    }
}

pub open spec fn pow10(n: nat) -> nat
    decreases n,
{
    if n == 0 { 1 } else { 10 * pow10((n - 1) as nat) }
}

/// `a - b` scaled by `10^(a.scale + b.scale)`: an integer with the sign of `a - b`.
pub open spec fn number_diff(a: Number, b: Number) -> int {
    a.mantissa * pow10(b.scale as nat) - b.mantissa * pow10(a.scale as nat)
}

/// `|a - b| < 2^-52`, the machine epsilon of a double.
pub open spec fn number_near(a: Number, b: Number) -> bool {
    let d = number_diff(a, b);
    let m = if d < 0 { -d } else { d };
    m * 0x10_0000_0000_0000 < pow10((a.scale + b.scale) as nat)
}

/// How `a op b` comes out for numbers: equality within epsilon, order exact.
pub open spec fn number_holds(op: CompareOp, a: Number, b: Number) -> bool {
    match op {
        CompareOp::Eq => number_near(a, b),
        CompareOp::Ne => !number_near(a, b),
        _ => op_holds(op, number_diff(a, b)),
    }
}

} // verus!
