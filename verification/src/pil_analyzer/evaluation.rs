//! Evaluation of constant expressions.
use vstd::prelude::*;

use crate::error;
use crate::error::{AnalysisError, AnalysisErrorView, Outcome};
use crate::number::{DegreeType, FieldElement};
use crate::parsed::{BinaryOperator, Expression, UnaryOperator};
use crate::pil_analyzer::PILAnalyzer;

verus! {

/// What `e` evaluates to with the given constants: a number, or `None` where the
/// form of `e` is not that of a constant.
///
/// The right operand counts only where the left one is a number.
pub open spec fn evaluate<T: FieldElement>(
    constants: Map<Seq<char>, T>,
    e: Expression<T>,
) -> Outcome<Option<T>>
    decreases e,
{
    match e {
        Expression::Constant(name) => if constants.contains_key(name@) {
            Ok(Some(constants[name@]))
        } else {
            Err(AnalysisErrorView::ConstantNotFound(name@))
        },
        Expression::Reference(reference) => if !reference.is_next && reference.pol.namespace is None
            && constants.contains_key(reference.pol.name@) {
            Ok(Some(constants[reference.pol.name@]))
        } else {
            Ok(None)
        },
        Expression::Number(n) => Ok(Some(n)),
        Expression::BinaryOperation(left, op, right) => match evaluate(constants, *left) {
            Err(error) => Err(error),
            Ok(None) => Ok(None),
            Ok(Some(l)) => match evaluate(constants, *right) {
                Err(error) => Err(error),
                Ok(None) => Ok(None),
                Ok(Some(r)) => match T::binary_operation(l, op, r) {
                    None => Err(AnalysisErrorView::UndefinedOperation),
                    Some(value) => Ok(Some(value)),
                },
            },
        },
        Expression::UnaryOperation(op, value) => match evaluate(constants, *value) {
            Err(error) => Err(error),
            Ok(None) => Ok(None),
            Ok(Some(v)) => Ok(Some(T::unary_operation(op, v))),
        },
        Expression::FreeInput(_) => Err(AnalysisErrorView::FreeInput),
        _ => Ok(None),
    }
}

/// The number that `e` has to be.
pub open spec fn evaluate_number<T: FieldElement>(
    constants: Map<Seq<char>, T>,
    e: Expression<T>,
) -> Outcome<T> {
    match evaluate(constants, e) {
        Err(error) => Err(error),
        Ok(None) => Err(AnalysisErrorView::NotConstant),
        Ok(Some(value)) => Ok(value),
    }
}

/// The degree, length or index that `e` has to be.
pub open spec fn evaluate_degree<T: FieldElement>(
    constants: Map<Seq<char>, T>,
    e: Expression<T>,
) -> Outcome<DegreeType> {
    match evaluate_number(constants, e) {
        Err(error) => Err(error),
        Ok(value) => match value.degree() {
            None => Err(AnalysisErrorView::DegreeTooLarge),
            Some(degree) => Ok(degree),
        },
    }
}

/// What `left op right` evaluates to.
pub open spec fn evaluate_binary<T: FieldElement>(
    constants: Map<Seq<char>, T>,
    left: Expression<T>,
    op: BinaryOperator,
    right: Expression<T>,
) -> Outcome<Option<T>> {
    evaluate(constants, Expression::BinaryOperation(Box::new(left), op, Box::new(right)))
}

/// What `op value` evaluates to.
pub open spec fn evaluate_unary<T: FieldElement>(
    constants: Map<Seq<char>, T>,
    op: UnaryOperator,
    value: Expression<T>,
) -> Outcome<Option<T>> {
    evaluate(constants, Expression::UnaryOperation(op, Box::new(value)))
}

impl<T: FieldElement> PILAnalyzer<T> {
    /// Evaluates `e` where it is a constant expression.
    pub fn evaluate_expression(&self, e: &Expression<T>) -> (result: Result<
        Option<T>,
        AnalysisError,
    >)
        requires
            self.wf(),
        ensures
            error::agrees_exactly(result, evaluate(self@.constants, *e)),
        decreases *e, 1nat,
    {
        match e {
            Expression::Constant(name) => match self.constants.get(name.as_str()) {
                Some(value) => Ok(Some(*value)),
                None => Err(AnalysisError::ConstantNotFound(name.clone())),
            },
            Expression::Reference(reference) => {
                if !reference.shift() && reference.namespaced().namespace().is_none() {
                    match self.constants.get(reference.namespaced().name().as_str()) {
                        Some(value) => Ok(Some(*value)),
                        None => Ok(None),
                    }
                } else {
                    Ok(None)
                }
            },
            Expression::PublicReference(_) => Ok(None),
            Expression::Number(n) => Ok(Some(*n)),
            Expression::String(_) => Ok(None),
            Expression::Tuple(_) => Ok(None),
            Expression::ArrayLiteral(_) => Ok(None),
            Expression::LambdaExpression(_) => Ok(None),
            Expression::BinaryOperation(left, op, right) => self.evaluate_binary_operation(
                left,
                *op,
                right,
            ),
            Expression::UnaryOperation(op, value) => self.evaluate_unary_operation(*op, value),
            Expression::FunctionCall(_) => Ok(None),
            Expression::FreeInput(_) => Err(AnalysisError::FreeInput),
            Expression::MatchExpression(_, _) => Ok(None),
        }
    }

    fn evaluate_binary_operation(
        &self,
        left: &Expression<T>,
        op: BinaryOperator,
        right: &Expression<T>,
    ) -> (result: Result<Option<T>, AnalysisError>)
        requires
            self.wf(),
        ensures
            error::agrees_exactly(result, evaluate_binary(self@.constants, *left, op, *right)),
        decreases Expression::BinaryOperation(Box::new(*left), op, Box::new(*right)), 0nat,
    {
        let l = match self.evaluate_expression(left) {
            Err(error) => return Err(error),
            Ok(None) => return Ok(None),
            Ok(Some(value)) => value,
        };
        let r = match self.evaluate_expression(right) {
            Err(error) => return Err(error),
            Ok(None) => return Ok(None),
            Ok(Some(value)) => value,
        };
        match T::evaluate_binary_operation(l, op, r) {
            None => Err(AnalysisError::UndefinedOperation),
            Some(value) => Ok(Some(value)),
        }
    }

    fn evaluate_unary_operation(&self, op: UnaryOperator, value: &Expression<T>) -> (result: Result<
        Option<T>,
        AnalysisError,
    >)
        requires
            self.wf(),
        ensures
            error::agrees_exactly(result, evaluate_unary(self@.constants, op, *value)),
        decreases Expression::UnaryOperation(op, Box::new(*value)), 0nat,
    {
        match self.evaluate_expression(value) {
            Err(error) => Err(error),
            Ok(None) => Ok(None),
            Ok(Some(v)) => Ok(Some(T::evaluate_unary_operation(op, v))),
        }
    }

    /// Evaluates `e`, which has to be a number.
    pub(crate) fn evaluate_to_number(&self, e: &Expression<T>) -> (result: Result<T, AnalysisError>)
        requires
            self.wf(),
        ensures
            error::agrees_exactly(result, evaluate_number(self@.constants, *e)),
    {
        match self.evaluate_expression(e) {
            Err(error) => Err(error),
            Ok(None) => Err(AnalysisError::NotConstant),
            Ok(Some(value)) => Ok(value),
        }
    }

    /// Evaluates `e`, which has to be a degree, a length or an index.
    pub(crate) fn evaluate_to_degree(&self, e: &Expression<T>) -> (result: Result<
        DegreeType,
        AnalysisError,
    >)
        requires
            self.wf(),
        ensures
            error::agrees_exactly(result, evaluate_degree(self@.constants, *e)),
    {
        match self.evaluate_to_number(e) {
            Err(error) => Err(error),
            Ok(value) => match value.to_degree() {
                None => Err(AnalysisError::DegreeTooLarge),
                Some(degree) => Ok(degree),
            },
        }
    }
}

} // verus!
