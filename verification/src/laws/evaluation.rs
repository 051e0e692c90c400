//! What constant expressions evaluate to.
use vstd::prelude::*;

use crate::error::AnalysisErrorView;
use crate::number::FieldElement;
use crate::parsed::{
    ArrayLiteral, BinaryOperator, Expression, FunctionCall, LambdaExpression, MatchArm,
    ShiftedPolynomialReference, UnaryOperator,
};
use crate::pil_analyzer::evaluation;

verus! {

/// A number evaluates to itself, and the name of a constant to its value, which
/// has to be known.
pub proof fn lemma_numbers_and_constants<T: FieldElement>(
    constants: Map<Seq<char>, T>,
    n: T,
    name: String,
)
    ensures
        evaluation::evaluate(constants, Expression::Number(n)) matches Ok(v) && v == Some(n),
        constants.contains_key(name@) ==> (evaluation::evaluate(
            constants,
            Expression::Constant(name),
        ) matches Ok(v) && v == Some(constants[name@])),
        !constants.contains_key(name@) ==> (evaluation::evaluate(
            constants,
            Expression::Constant(name),
        ) matches Err(error) && error == AnalysisErrorView::ConstantNotFound(name@)),
{
}

/// A bare reference that is not shifted evaluates to the constant of its name, if
/// there is one. No other reference is a number.
pub proof fn lemma_references<T: FieldElement>(
    constants: Map<Seq<char>, T>,
    reference: ShiftedPolynomialReference<T>,
)
    ensures
        ({
            let name = reference.pol.name@;
            let known = !reference.is_next && reference.pol.namespace is None
                && constants.contains_key(name);
            let result = evaluation::evaluate(constants, Expression::Reference(reference));
            &&& known ==> (result matches Ok(v) && v == Some(constants[name]))
            &&& !known ==> (result matches Ok(v) && v is None)
        }),
{
}

/// An operation is a number exactly if its operands are and it has a result on
/// them, which is its value. The right operand counts only if the left one is a
/// number.
pub proof fn lemma_operations<T: FieldElement>(
    constants: Map<Seq<char>, T>,
    left: Box<Expression<T>>,
    op: BinaryOperator,
    right: Box<Expression<T>>,
    sign: UnaryOperator,
)
    ensures
        ({
            let l = evaluation::evaluate(constants, *left);
            let r = evaluation::evaluate(constants, *right);
            let binary = evaluation::evaluate(
                constants,
                Expression::BinaryOperation(left, op, right),
            );
            let unary = evaluation::evaluate(constants, Expression::UnaryOperation(sign, left));
            &&& evaluation::evaluate_binary(constants, *left, op, *right) == binary
            &&& evaluation::evaluate_unary(constants, sign, *left) == unary
            &&& l matches Err(error) ==> (binary matches Err(e) && e == error)
            &&& l matches Err(error) ==> (unary matches Err(e) && e == error)
            &&& l matches Ok(None) ==> (binary matches Ok(v) && v is None)
            &&& l matches Ok(None) ==> (unary matches Ok(v) && v is None)
            &&& l matches Ok(Some(a)) ==> (unary matches Ok(v) && v == Some(
                T::unary_operation(sign, a),
            ))
            &&& l matches Ok(Some(a)) ==> {
                &&& r matches Err(error) ==> (binary matches Err(e) && e == error)
                &&& r matches Ok(None) ==> (binary matches Ok(v) && v is None)
                &&& r matches Ok(Some(b)) ==> match T::binary_operation(a, op, b) {
                    Some(c) => binary matches Ok(v) && v == Some(c),
                    None => binary matches Err(e) && e == AnalysisErrorView::UndefinedOperation,
                }
            }
        }),
{
}

/// No other form is a number, whatever is in it, and free inputs are rejected.
pub proof fn lemma_other_forms<T: FieldElement>(
    constants: Map<Seq<char>, T>,
    name: String,
    items: Vec<Expression<T>>,
    array: ArrayLiteral<Expression<T>>,
    function: LambdaExpression<Expression<T>>,
    call: FunctionCall<Expression<T>>,
    e: Box<Expression<T>>,
    arms: Vec<MatchArm<Expression<T>>>,
)
    ensures
        evaluation::evaluate(constants, Expression::PublicReference(name)) matches Ok(v) && v
            is None,
        evaluation::evaluate(constants, Expression::String(name)) matches Ok(v) && v is None,
        evaluation::evaluate(constants, Expression::Tuple(items)) matches Ok(v) && v is None,
        evaluation::evaluate(constants, Expression::ArrayLiteral(array)) matches Ok(v) && v is None,
        evaluation::evaluate(constants, Expression::LambdaExpression(function)) matches Ok(v) && v
            is None,
        evaluation::evaluate(constants, Expression::FunctionCall(call)) matches Ok(v) && v is None,
        evaluation::evaluate(constants, Expression::MatchExpression(e, arms)) matches Ok(v) && v
            is None,
        evaluation::evaluate(constants, Expression::FreeInput(e)) matches Err(error) && error
            == AnalysisErrorView::FreeInput,
{
}

/// Where a number is needed it is the value of the expression, which has to be
/// one, and where a degree is needed it is that number, which has to fit.
pub proof fn lemma_needed_numbers<T: FieldElement>(
    constants: Map<Seq<char>, T>,
    e: Expression<T>,
)
    ensures
        ({
            let value = evaluation::evaluate(constants, e);
            let n = evaluation::evaluate_number(constants, e);
            let degree = evaluation::evaluate_degree(constants, e);
            &&& value matches Ok(Some(v)) ==> {
                &&& n matches Ok(found) && found == v
                &&& match v.degree() {
                    Some(d) => degree matches Ok(found) && found == d,
                    None => degree matches Err(error) && error == AnalysisErrorView::DegreeTooLarge,
                }
            }
            &&& value matches Ok(None) ==> {
                &&& n matches Err(error) && error == AnalysisErrorView::NotConstant
                &&& degree matches Err(error) && error == AnalysisErrorView::NotConstant
            }
            &&& value matches Err(error) ==> {
                &&& n matches Err(e) && e == error
                &&& degree matches Err(e) && e == error
            }
        }),
{
}

} // verus!
