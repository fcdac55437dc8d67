//! Source coordinates, spans and the plain records around the token stream.
use vstd::prelude::*;

verus! {

/// A character cell in line-split source text.
#[derive(Debug, Clone, Copy, PartialEq, Eq, Structural)]
pub struct Point {
    pub row: usize,
    pub col: usize,
}

/// Lexicographic order on points: by row, and within a row by column.
pub open spec fn point_le(a: Point, b: Point) -> bool {
    a.row < b.row || (a.row == b.row && a.col <= b.col)
}

impl Point {
    pub fn increment_col(&mut self)
        requires
            old(self).col < usize::MAX,
        ensures
            final(self).row == old(self).row,
            final(self).col == old(self).col + 1,
    {
        self.col = self.col + 1;
    }

    pub fn increment_row(&mut self)
        requires
            old(self).row < usize::MAX,
        ensures
            final(self).row == old(self).row + 1,
            final(self).col == 0,
    {
        self.col = 0;
        self.row = self.row + 1;
    }

    pub fn as_tuple(&self) -> (r: (usize, usize))
        ensures
            r == (self.row, self.col),
    {
        (self.row, self.col)
    }

    /// Whether `self` comes no later than `other`.
    pub fn le(&self, other: &Point) -> (r: bool)
        ensures
            r == point_le(*self, *other),
    {
        self.row < other.row || (self.row == other.row && self.col <= other.col)
    }
}

/// A named source range from `start` up to `stop`.
#[derive(Debug, Clone)]
pub struct Span {
    pub name: String,
    pub start: Point,
    pub stop: Point,
}

impl Span {
    /// The span covering both `self` and `other`: the earlier start and the
    /// later stop, under the name of `self`.
    pub fn join(&self, other: &Span) -> (r: Span)
        ensures
            r.name@ == self.name@,
            r.start == (if point_le(self.start, other.start) { self.start } else { other.start }),
            r.stop == (if point_le(other.stop, self.stop) { self.stop } else { other.stop }),
    {
        let start = if self.start.le(&other.start) {
            self.start
        } else {
            other.start
        };
        let stop = if other.stop.le(&self.stop) {
            self.stop
        } else {
            other.stop
        };
        Span { name: self.name.clone(), start, stop }
    }
}

/// A payload together with the span it was read from.
#[derive(Debug, Clone)]
pub struct SpanData<T> {
    pub span: Span,
    pub value: T,
}

pub enum TypeExpression {
    Identifier(String),
}

pub enum BinaryOperator {
    Plus,
    Minus,
    Times,
    Divide,
    Modulo,
    Equals,
    NotEquals,
    LT,
    LTE,
    GT,
    GTE,
}

pub enum UnaryOperator {
    Negative,
    Not,
}

pub struct Unary {
    pub operator: UnaryOperator,
    pub target: Box<Expression>,
}

pub struct Binary {
    pub operator: BinaryOperator,
    pub lhs: Box<Expression>,
    pub rhs: Box<Expression>,
}

pub struct Block {
    pub body: Vec<SpanData<Statement>>,
    pub value: Option<Box<Expression>>,
}

pub struct If {
    pub condition: Box<Expression>,
    pub then_branch: Option<Block>,
    pub otherwise: Option<Block>,
}

pub enum Expression {
    /// A decimal numeral, as written.
    Number(String),
    String(String),
    Identifier(String),
    Unary(Unary),
    Binary(Binary),
}

/// A value with an optional type annotation.
pub struct Typed<T> {
    pub type_expr: Option<TypeExpression>,
    pub value: T,
}

pub enum Visibility {
    Public,
    Private,
}

impl Visibility {
    pub fn is_public(&self) -> (r: bool)
        ensures
            r == (*self is Public),
    {
        match self {
            Visibility::Public => true,
            _ => false,
        }
    }
}

pub struct Declaration {
    pub visibility: Visibility,
    pub name: Typed<String>,
    pub value: SpanData<Expression>,
}

pub struct Function {
    pub visibility: Visibility,
    pub name: String,
    pub args: Vec<Typed<String>>,
    pub body: Block,
}

pub enum Statement {
    Declaration(Declaration),
    Function(Function),
    Expression(SpanData<Expression>),
}

pub enum ParseError {
    EOF,
    Custom(String),
}

impl ParseError {
    pub fn custom(msg: &str) -> (r: ParseError)
        ensures
            r matches ParseError::Custom(m) && m@ == msg@,
    {
        ParseError::Custom(String::from_str(msg))
    }
}

} // verus!
