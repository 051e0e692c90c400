//! The syntax tree that the analyzer reads.
//!
//! The nodes that occur in parsed and in analyzed expressions alike are generic
//! in the type `E` of their subexpressions.
use vstd::prelude::*;

use crate::error;
use crate::error::{AnalysisError, AnalysisErrorView, Outcome};
use crate::number::DegreeType;

verus! {

/// An operator between two expressions.
#[derive(Debug, Clone, Copy, PartialEq, Eq, Structural)]
pub enum BinaryOperator {
    Add,
    Sub,
    Mul,
    Div,
    Mod,
    Pow,
    BinaryAnd,
    BinaryXor,
    BinaryOr,
    ShiftLeft,
    ShiftRight,
    LogicalOr,
    LogicalAnd,
    Less,
    LessEqual,
    Equal,
    NotEqual,
    GreaterEqual,
    Greater,
}

/// An operator in front of an expression.
#[derive(Debug, Clone, Copy, PartialEq, Eq, Structural)]
pub enum UnaryOperator {
    Plus,
    Minus,
    LogicalNot,
}

/// `[e1, e2, ..]` in an expression.
#[derive(Debug)]
pub struct ArrayLiteral<E> {
    pub items: Vec<E>,
}

/// `|p1, p2, ..| body`.
#[derive(Debug)]
pub struct LambdaExpression<E> {
    pub params: Vec<String>,
    pub body: Box<E>,
}

/// `id(e1, e2, ..)`.
#[derive(Debug)]
pub struct FunctionCall<E> {
    pub id: String,
    pub arguments: Vec<E>,
}

/// What an arm of a match applies to.
#[derive(Debug)]
pub enum MatchPattern<E> {
    CatchAll,
    Pattern(E),
}

/// `pattern => value`.
#[derive(Debug)]
pub struct MatchArm<E> {
    pub pattern: MatchPattern<E>,
    pub value: E,
}

/// `selector { e1, e2, .. }`, one side of a lookup.
#[derive(Debug)]
pub struct SelectedExpressions<E> {
    pub selector: Option<E>,
    pub expressions: Vec<E>,
}

/// A name with an optional namespace in front and an optional array index
/// behind.
#[derive(Debug)]
pub struct NamespacedPolynomialReference<T> {
    /// Where this is absent the name belongs to the namespace around it.
    pub namespace: Option<String>,
    pub name: String,
    pub index: Option<Box<Expression<T>>>,
}

/// A polynomial reference that may be shifted to the next row.
#[derive(Debug)]
pub struct ShiftedPolynomialReference<T> {
    pub is_next: bool,
    pub pol: NamespacedPolynomialReference<T>,
}

/// An expression as it was written.
#[derive(Debug)]
pub enum Expression<T> {
    /// A constant that is known by its name alone, such as `%N`.
    Constant(String),
    Reference(ShiftedPolynomialReference<T>),
    PublicReference(String),
    Number(T),
    String(String),
    Tuple(Vec<Expression<T>>),
    ArrayLiteral(ArrayLiteral<Expression<T>>),
    LambdaExpression(LambdaExpression<Expression<T>>),
    BinaryOperation(Box<Expression<T>>, BinaryOperator, Box<Expression<T>>),
    UnaryOperation(UnaryOperator, Box<Expression<T>>),
    FunctionCall(FunctionCall<Expression<T>>),
    MatchExpression(Box<Expression<T>>, Vec<MatchArm<Expression<T>>>),
    FreeInput(Box<Expression<T>>),
}

/// A declared polynomial, as an array where a size is given.
#[derive(Debug)]
pub struct PolynomialName<T> {
    pub name: String,
    pub array_size: Option<Expression<T>>,
}

/// The right hand side of the definition of a fixed column.
#[derive(Debug)]
pub enum ArrayExpression<T> {
    /// `[e1, e2, ..]`.
    Value(Vec<Expression<T>>),
    /// `[e1, e2, ..]*`.
    RepeatedValue(Vec<Expression<T>>),
    /// `a + b`.
    Concat(Box<ArrayExpression<T>>, Box<ArrayExpression<T>>),
}

/// How the values of a column are given.
#[derive(Debug)]
pub enum FunctionDefinition<T> {
    /// An array literal.
    Array(ArrayExpression<T>),
    /// A function of the row.
    Mapping(Vec<String>, Expression<T>),
    /// A prover query.
    Query(Vec<String>, Expression<T>),
    /// An expression over other columns.
    Expression(Expression<T>),
}

/// A file, with its macros expanded and the files that it names read in.
#[derive(Debug)]
pub struct PilFile<T> {
    /// The canonical path, by which a file is recognised.
    pub path: String,
    /// The last part of the path, if it has one.
    pub file_name: Option<String>,
    /// The text that offsets of the statements refer to.
    pub contents: String,
    pub statements: Vec<PilStatement<T>>,
}

/// A statement. The number in front is its offset in the text.
#[derive(Debug)]
pub enum PilStatement<T> {
    Include(usize, PilFile<T>),
    /// Name and degree.
    Namespace(usize, String, Expression<T>),
    PolynomialDefinition(usize, String, Expression<T>),
    PublicDeclaration(usize, String, NamespacedPolynomialReference<T>, Expression<T>),
    PolynomialConstantDeclaration(usize, Vec<PolynomialName<T>>),
    PolynomialConstantDefinition(usize, String, FunctionDefinition<T>),
    PolynomialCommitDeclaration(usize, Vec<PolynomialName<T>>, Option<FunctionDefinition<T>>),
    PolynomialIdentity(usize, Expression<T>),
    PlookupIdentity(
        usize,
        SelectedExpressions<Expression<T>>,
        SelectedExpressions<Expression<T>>,
    ),
    PermutationIdentity(
        usize,
        SelectedExpressions<Expression<T>>,
        SelectedExpressions<Expression<T>>,
    ),
    ConnectIdentity(usize, Vec<Expression<T>>, Vec<Expression<T>>),
    ConstantDefinition(usize, String, Expression<T>),
    MacroDefinition(usize, String, Vec<String>, Vec<PilStatement<T>>, Option<Expression<T>>),
    FunctionCall(usize, String, Vec<Expression<T>>),
    LetStatement(usize, String, Option<Expression<T>>),
}

impl<T> NamespacedPolynomialReference<T> {
    pub fn namespace(&self) -> (result: &Option<String>)
        ensures
            *result == self.namespace,
    {
        &self.namespace
    }

    pub fn name(&self) -> (result: &String)
        ensures
            *result == self.name,
    {
        &self.name
    }

    pub fn index(&self) -> (result: &Option<Box<Expression<T>>>)
        ensures
            *result == self.index,
    {
        &self.index
    }
}

impl<T> ShiftedPolynomialReference<T> {
    pub fn shift(&self) -> (result: bool)
        ensures
            result == self.is_next,
    {
        self.is_next
    }

    /// The reference without the shift.
    pub fn namespaced(&self) -> (result: &NamespacedPolynomialReference<T>)
        ensures
            *result == self.pol,
    {
        &self.pol
    }
}

impl<T> ArrayExpression<T> {
    /// The number of rows in the parts that do not repeat.
    pub open spec fn constant_length(self) -> nat
        decreases self,
    {
        match self {
            ArrayExpression::Value(items) => items@.len(),
            ArrayExpression::RepeatedValue(_) => 0,
            ArrayExpression::Concat(left, right) => left.constant_length()
                + right.constant_length(),
        }
    }

    /// The number of parts that repeat.
    pub open spec fn repetitions(self) -> nat
        decreases self,
    {
        match self {
            ArrayExpression::Value(_) => 0,
            ArrayExpression::RepeatedValue(_) => 1,
            ArrayExpression::Concat(left, right) => left.repetitions() + right.repetitions(),
        }
    }

    /// The number of rows that are left of `degree` for the part that repeats.
    pub open spec fn solution(self, degree: DegreeType) -> Outcome<DegreeType> {
        if self.repetitions() > 1 {
            Err(AnalysisErrorView::RepeatedMoreThanOnce)
        } else if self.constant_length() > degree {
            Err(AnalysisErrorView::ArrayTooLarge)
        } else {
            Ok((degree - self.constant_length()) as DegreeType)
        }
    }

    /// The number of rows in the parts that do not repeat, if it is at most
    /// `limit`.
    fn constant_length_within(&self, limit: DegreeType) -> (result: Option<DegreeType>)
        ensures
            match result {
                Some(length) => length == self.constant_length() && length <= limit,
                None => self.constant_length() > limit,
            },
        decreases self,
    {
        match self {
            ArrayExpression::Value(items) => {
                let length: u64 = items.len() as u64;
                if length <= limit {
                    Some(length)
                } else {
                    None
                }
            },
            ArrayExpression::RepeatedValue(_) => Some(0),
            ArrayExpression::Concat(left, right) => match left.constant_length_within(limit) {
                None => None,
                Some(l) => match right.constant_length_within(limit - l) {
                    None => None,
                    Some(r) => Some(l + r),
                },
            },
        }
    }

    /// The number of parts that repeat, or two if there are more.
    fn repetitions_up_to_two(&self) -> (result: u8)
        ensures
            result == if self.repetitions() > 2 {
                2
            } else {
                self.repetitions()
            },
        decreases self,
    {
        match self {
            ArrayExpression::Value(_) => 0,
            ArrayExpression::RepeatedValue(_) => 1,
            ArrayExpression::Concat(left, right) => {
                let both: u8 = left.repetitions_up_to_two() + right.repetitions_up_to_two();
                if both > 2 {
                    2
                } else {
                    both
                }
            },
        }
    }

    /// Solves for the number of rows of the part that repeats.
    pub fn solve(&self, degree: DegreeType) -> (result: Result<DegreeType, AnalysisError>)
        ensures
            error::agrees_exactly(result, self.solution(degree)),
    {
        if self.repetitions_up_to_two() > 1 {
            return Err(AnalysisError::RepeatedMoreThanOnce);
        }
        match self.constant_length_within(degree) {
            None => Err(AnalysisError::ArrayTooLarge),
            Some(length) => Ok(degree - length),
        }
    }
}

} // verus!
