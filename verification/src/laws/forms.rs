//! What becomes of each form of expression.
use vstd::prelude::*;

use crate::analyzed;
use crate::analyzed::{ExpressionView, MatchArmView, ReferenceView};
use crate::error::{AnalysisErrorView, Outcome};
use crate::laws::names;
use crate::number::FieldElement;
use crate::parsed::{
    ArrayLiteral, BinaryOperator, Expression, FunctionCall, LambdaExpression, MatchArm,
    MatchPattern, NamespacedPolynomialReference, SelectedExpressions, ShiftedPolynomialReference,
    UnaryOperator,
};
use crate::pil_analyzer::evaluation;
use crate::pil_analyzer::expressions;
use crate::pil_analyzer::expressions::Scope;
use crate::pil_analyzer::{AnalyzerView, PILAnalyzer};

verus! {

/// What a name means depends on the constants, the namespace and the local
/// variables. Outside of functions there are no local variables.
pub proof fn lemma_scopes<T: FieldElement>(
    s: AnalyzerView<T>,
    analyzer: PILAnalyzer<T>,
    locals: Map<Seq<char>, u64>,
)
    ensures
        s.scope().constants == s.constants,
        s.scope().namespace == s.namespace,
        s.scope().locals == Map::<Seq<char>, u64>::empty(),
        analyzer.scope(locals).constants == analyzer@.constants,
        analyzer.scope(locals).namespace == analyzer@.namespace,
        analyzer.scope(locals).locals == locals,
{
}

/// A bare name is absolute if it starts with a percent sign or is that of a
/// constant. Any other is preceded by the namespace around it and a dot. A name
/// behind a namespace is preceded by that namespace and a dot, and must not start
/// with a percent sign.
pub proof fn lemma_absolute_names<T>(scope: Scope<T>, namespace: Option<String>, name: Seq<char>)
    ensures
        name.len() > 0 && name[0] == '%' || scope.constants.contains_key(name)
            ==> expressions::absolute_name(scope, name) == name,
        !(name.len() > 0 && name[0] == '%' || scope.constants.contains_key(name))
            ==> expressions::absolute_name(scope, name) == scope.namespace + seq!['.'] + name,
        namespace is None ==> (expressions::absolute_reference(
            scope,
            namespace,
            name,
        ) matches Ok(absolute) && absolute == expressions::absolute_name(scope, name)),
        namespace matches Some(explicit) && name.len() > 0 && name[0] == '%' ==> (
        expressions::absolute_reference(scope, namespace, name) matches Err(error) && error
            == AnalysisErrorView::NamespacedConstant(name)),
        namespace matches Some(explicit) && !(name.len() > 0 && name[0] == '%') ==> (
        expressions::absolute_reference(scope, namespace, name) matches Ok(absolute) && absolute
            == namespace->Some_0@ + seq!['.'] + name),
{
}

/// A reference that is no local variable keeps its shift, has the value of its
/// index as its index, and has no id yet. It is accepted exactly if its index, if
/// it has one, is a number that fits, and its name has a meaning. The error of the
/// index comes first.
pub proof fn lemma_column_reference<T: FieldElement>(
    scope: Scope<T>,
    poly: ShiftedPolynomialReference<T>,
)
    requires
        poly.pol.namespace is Some || !scope.locals.contains_key(poly.pol.name@),
    ensures
        ({
            let name = expressions::absolute_reference(scope, poly.pol.namespace, poly.pol.name@);
            let result = expressions::process(scope, Expression::Reference(poly));
            &&& result is Ok <==> name is Ok && (poly.pol.index matches Some(index)
                ==> evaluation::evaluate_degree(scope.constants, *index) is Ok)
            &&& result matches Ok(e) ==> {
                &&& e matches ExpressionView::Reference(ReferenceView::Poly(reference))
                &&& reference.name == name->Ok_0
                &&& reference.next == poly.is_next
                &&& reference.poly_id is None
                &&& reference.index is Some <==> poly.pol.index is Some
                &&& poly.pol.index matches Some(index) ==> evaluation::evaluate_degree(
                    scope.constants,
                    *index,
                ) matches Ok(value) && reference.index == Some(value)
            }
            &&& poly.pol.index matches Some(index) ==> (evaluation::evaluate_degree(
                scope.constants,
                *index,
            ) matches Err(error) ==> result matches Err(e) && e == error)
            &&& (poly.pol.index matches Some(index) ==> evaluation::evaluate_degree(
                scope.constants,
                *index,
            ) is Ok) ==> (name matches Err(error) ==> result matches Err(e) && e == error)
        }),
{
}

/// A shift changes nothing of a reference but the shift, whether it has an index or
/// not.
pub proof fn lemma_shift_alone<T: FieldElement>(
    scope: Scope<T>,
    pol: NamespacedPolynomialReference<T>,
)
    requires
        pol.namespace is Some || !scope.locals.contains_key(pol.name@),
    ensures
        ({
            let here = expressions::process(
                scope,
                Expression::Reference(ShiftedPolynomialReference { is_next: false, pol }),
            );
            let next = expressions::process(
                scope,
                Expression::Reference(ShiftedPolynomialReference { is_next: true, pol }),
            );
            match here {
                Ok(e) => {
                    &&& e matches ExpressionView::Reference(ReferenceView::Poly(a))
                    &&& next matches Ok(f)
                    &&& f matches ExpressionView::Reference(ReferenceView::Poly(b))
                    &&& !a.next
                    &&& b.next
                    &&& a.name == b.name
                    &&& a.index == b.index
                    &&& a.poly_id == b.poly_id
                },
                Err(error) => next matches Err(e) && e == error,
            }
        }),
{
}

/// A reference to a column as such, without an expression around it, is the same
/// as in an expression outside of functions.
pub proof fn lemma_references_agree<T: FieldElement>(
    scope: Scope<T>,
    poly: ShiftedPolynomialReference<T>,
)
    requires
        scope.locals == Map::<Seq<char>, u64>::empty(),
    ensures
        ({
            let shifted = expressions::process_shifted_reference(scope, poly);
            let plain = expressions::process_namespaced_reference(scope, poly.pol);
            let e = expressions::process(scope, Expression::Reference(poly));
            &&& e matches Ok(v) ==> shifted matches Ok(r) && v == ExpressionView::<
                T,
            >::Reference(ReferenceView::Poly(r))
            &&& e matches Err(error) ==> shifted matches Err(other) && other == error
            &&& shifted matches Ok(r) ==> plain matches Ok(p) && !p.next && p.name == r.name
                && p.index == r.index && p.poly_id == r.poly_id
            &&& shifted matches Err(error) ==> plain matches Err(other) && other == error
        }),
{
}

/// A bare name of a local variable is that variable, by its position. It can be
/// neither shifted nor indexed.
pub proof fn lemma_variable_reference<T: FieldElement>(
    scope: Scope<T>,
    poly: ShiftedPolynomialReference<T>,
)
    requires
        poly.pol.namespace is None,
        scope.locals.contains_key(poly.pol.name@),
    ensures
        ({
            let name = poly.pol.name@;
            let result = expressions::process(scope, Expression::Reference(poly));
            &&& result is Ok <==> !poly.is_next && poly.pol.index is None
            &&& result matches Ok(e) ==> e == ExpressionView::<T>::Reference(
                ReferenceView::LocalVar(scope.locals[name], name),
            )
            &&& poly.is_next ==> (result matches Err(error) && error
                == AnalysisErrorView::ShiftedLocalVariable(name))
            &&& !poly.is_next && poly.pol.index is Some ==> (result matches Err(error) && error
                == AnalysisErrorView::IndexedLocalVariable(name))
        }),
{
}

/// Names of constants and publics, numbers and strings stay what they are. Free
/// inputs have no meaning.
pub proof fn lemma_leaves<T: FieldElement>(
    scope: Scope<T>,
    name: String,
    n: T,
    e: Box<Expression<T>>,
)
    ensures
        expressions::process(scope, Expression::Constant(name)) matches Ok(v) && v
            == ExpressionView::<T>::Constant(name@),
        expressions::process(scope, Expression::PublicReference(name)) matches Ok(v) && v
            == ExpressionView::<T>::PublicReference(name@),
        expressions::process(scope, Expression::String(name)) matches Ok(v) && v
            == ExpressionView::<T>::String(name@),
        expressions::process(scope, Expression::Number(n)) matches Ok(v) && v
            == ExpressionView::Number(n),
        expressions::process(scope, Expression::FreeInput(e)) matches Err(error) && error
            == AnalysisErrorView::FreeInput,
{
}

/// An operation is the same operation on what becomes of its operands. It is
/// accepted exactly if they are, and the first error among them is its error.
pub proof fn lemma_operations<T: FieldElement>(
    scope: Scope<T>,
    left: Box<Expression<T>>,
    op: BinaryOperator,
    right: Box<Expression<T>>,
    sign: UnaryOperator,
)
    ensures
        ({
            let l = expressions::process(scope, *left);
            let r = expressions::process(scope, *right);
            let binary = expressions::process(scope, Expression::BinaryOperation(left, op, right));
            let unary = expressions::process(scope, Expression::UnaryOperation(sign, left));
            &&& binary is Ok <==> l is Ok && r is Ok
            &&& binary matches Ok(e) ==> e == ExpressionView::<T>::BinaryOperation(
                Box::new(l->Ok_0),
                op,
                Box::new(r->Ok_0),
            )
            &&& l matches Err(error) ==> binary matches Err(e) && e == error
            &&& l is Ok ==> (r matches Err(error) ==> binary matches Err(e) && e == error)
            &&& unary is Ok <==> l is Ok
            &&& unary matches Ok(e) ==> e == ExpressionView::<T>::UnaryOperation(
                sign,
                Box::new(l->Ok_0),
            )
            &&& l matches Err(error) ==> unary matches Err(e) && e == error
        }),
{
}

/// `done` is what becomes of `items`: it has what becomes of each of them in its
/// place, or the error of the first that is rejected.
pub open spec fn each_processed<T: FieldElement>(
    scope: Scope<T>,
    items: Seq<Expression<T>>,
    done: Outcome<Seq<ExpressionView<T>>>,
) -> bool {
    match done {
        Ok(views) => {
            &&& views.len() == items.len()
            &&& forall|i: int|
                0 <= i < items.len() ==> (expressions::process(
                    scope,
                    #[trigger] items[i],
                ) matches Ok(e) && e == views[i])
        },
        Err(error) => exists|i: int|
            #![trigger items[i]]
            {
                &&& 0 <= i < items.len()
                &&& expressions::process(scope, items[i]) matches Err(e) && e == error
                &&& forall|j: int|
                    0 <= j < i ==> expressions::process(scope, #[trigger] items[j]) is Ok
            },
    }
}

/// Of a list of expressions each is processed on its own and stays in its place.
pub proof fn lemma_lists<T: FieldElement>(scope: Scope<T>, items: Seq<Expression<T>>)
    ensures
        each_processed(scope, items, expressions::process_all(scope, items)),
    decreases items.len(),
{
    if items.len() > 0 {
        let front = items.drop_last();
        lemma_lists(scope, front);
        let done = expressions::process_all(scope, items);
        let before = expressions::process_all(scope, front);
        match before {
            Err(error) => {
                let i = choose|i: int|
                    #![trigger front[i]]
                    {
                        &&& 0 <= i < front.len()
                        &&& expressions::process(scope, front[i]) matches Err(e) && e == error
                        &&& forall|j: int|
                            0 <= j < i ==> expressions::process(scope, #[trigger] front[j]) is Ok
                    };
                assert(items[i] == front[i]);
                assert forall|j: int| 0 <= j < i implies expressions::process(
                    scope,
                    #[trigger] items[j],
                ) is Ok by {
                    assert(items[j] == front[j]);
                }
            },
            Ok(views) => {
                assert forall|j: int| 0 <= j < front.len() implies (expressions::process(
                    scope,
                    #[trigger] items[j],
                ) matches Ok(e) && e == views[j]) by {
                    assert(items[j] == front[j]);
                }
                assert(items[items.len() - 1] == items.last());
            },
        }
    }
}

/// Tuples, arrays and calls keep their form, and each of their items is processed
/// on its own and stays in its place. A function is called by its absolute name.
pub proof fn lemma_collections<T: FieldElement>(
    scope: Scope<T>,
    items: Vec<Expression<T>>,
    id: String,
)
    ensures
        ({
            let tuple = expressions::process(scope, Expression::Tuple(items));
            let array = expressions::process(
                scope,
                Expression::ArrayLiteral(ArrayLiteral { items }),
            );
            let call = expressions::process(
                scope,
                Expression::FunctionCall(FunctionCall { id, arguments: items }),
            );
            &&& tuple matches Ok(e) ==> {
                &&& e matches ExpressionView::Tuple(views)
                &&& each_processed(scope, items@, Ok(views))
            }
            &&& tuple matches Err(error) ==> each_processed(scope, items@, Err(error))
            &&& array matches Ok(e) ==> {
                &&& e matches ExpressionView::ArrayLiteral(views)
                &&& each_processed(scope, items@, Ok(views))
            }
            &&& array matches Err(error) ==> each_processed(scope, items@, Err(error))
            &&& call matches Ok(e) ==> {
                &&& e matches ExpressionView::FunctionCall(name, views)
                &&& name == expressions::absolute_name(scope, id@)
                &&& each_processed(scope, items@, Ok(views))
            }
            &&& call matches Err(error) ==> each_processed(scope, items@, Err(error))
        }),
{
    lemma_lists(scope, items@);
}

/// The arm becomes an arm whose pattern and value are what becomes of its own.
pub open spec fn arm_processed<T: FieldElement>(
    scope: Scope<T>,
    arm: MatchArm<Expression<T>>,
    done: MatchArmView<T>,
) -> bool {
    &&& expressions::process(scope, arm.value) matches Ok(e) && e == done.value
    &&& match arm.pattern {
        MatchPattern::CatchAll => done.pattern is None,
        MatchPattern::Pattern(p) => expressions::process(scope, p) matches Ok(e) && done.pattern
            == Some(e),
    }
}

/// The pattern and the value of the arm are accepted.
pub open spec fn arm_accepted<T: FieldElement>(
    scope: Scope<T>,
    arm: MatchArm<Expression<T>>,
) -> bool {
    &&& expressions::process(scope, arm.value) is Ok
    &&& arm.pattern matches MatchPattern::Pattern(p) ==> expressions::process(scope, p) is Ok
}

/// The error of the arm is that of its pattern or, where that has none, of its
/// value.
pub open spec fn arm_rejected<T: FieldElement>(
    scope: Scope<T>,
    arm: MatchArm<Expression<T>>,
    error: AnalysisErrorView,
) -> bool {
    let in_value = expressions::process(scope, arm.value) matches Err(e) && e == error;
    match arm.pattern {
        MatchPattern::CatchAll => in_value,
        MatchPattern::Pattern(p) => match expressions::process(scope, p) {
            Err(e) => e == error,
            Ok(_) => in_value,
        },
    }
}

proof fn lemma_arms<T: FieldElement>(scope: Scope<T>, arms: Seq<MatchArm<Expression<T>>>)
    ensures
        expressions::process_arms(scope, arms) matches Ok(views) ==> {
            &&& views.len() == arms.len()
            &&& forall|i: int|
                0 <= i < arms.len() ==> arm_processed(scope, #[trigger] arms[i], views[i])
        },
        expressions::process_arms(scope, arms) matches Err(error) ==> exists|i: int|
            #![trigger arms[i]]
            {
                &&& 0 <= i < arms.len()
                &&& arm_rejected(scope, arms[i], error)
                &&& forall|j: int|
                    0 <= j < i ==> arm_accepted(scope, #[trigger] arms[j])
            },
    decreases arms.len(),
{
    if arms.len() > 0 {
        let front = arms.drop_last();
        let last = arms.last();
        lemma_arms(scope, front);
        assert(arms[arms.len() - 1] == last);
        let expected = expressions::process_arm(scope, last);
        match expressions::process_arms(scope, front) {
            Err(error) => {
                let i = choose|i: int|
                    #![trigger front[i]]
                    {
                        &&& 0 <= i < front.len()
                        &&& arm_rejected(scope, front[i], error)
                        &&& forall|j: int|
                            0 <= j < i ==> arm_accepted(scope, #[trigger] front[j])
                    };
                assert(arms[i] == front[i]);
                assert forall|j: int| 0 <= j < i implies arm_accepted(
                    scope,
                    #[trigger] arms[j],
                ) by {
                    assert(arms[j] == front[j]);
                }
            },
            Ok(views) => {
                assert forall|j: int| 0 <= j < front.len() implies arm_processed(
                    scope,
                    #[trigger] arms[j],
                    views[j],
                ) by {
                    assert(arms[j] == front[j]);
                }
                match expected {
                    Ok(done) => {
                        assert(arm_processed(scope, last, done));
                    },
                    Err(error) => {
                        assert(arm_rejected(scope, last, error));
                        assert forall|j: int| 0 <= j < arms.len() - 1 implies arm_accepted(
                            scope,
                            #[trigger] arms[j],
                        ) by {
                            assert(arm_processed(scope, arms[j], views[j]));
                        }
                    },
                }
            },
        }
    }
}

/// A match is a match on what becomes of its scrutinee, and each of its arms is
/// processed on its own and stays in its place. The first error, from left to
/// right, is its error.
pub proof fn lemma_matches<T: FieldElement>(
    scope: Scope<T>,
    scrutinee: Box<Expression<T>>,
    arms: Vec<MatchArm<Expression<T>>>,
)
    ensures
        ({
            let on = expressions::process(scope, *scrutinee);
            let result = expressions::process(scope, Expression::MatchExpression(scrutinee, arms));
            &&& on matches Err(error) ==> result matches Err(e) && e == error
            &&& result matches Ok(e) ==> {
                &&& e matches ExpressionView::MatchExpression(s, views)
                &&& on matches Ok(v) && v == *s
                &&& views.len() == arms@.len()
                &&& forall|i: int|
                    0 <= i < arms@.len() ==> arm_processed(scope, #[trigger] arms@[i], views[i])
            }
            &&& on is Ok ==> (result matches Err(error) ==> exists|i: int|
                #![trigger arms@[i]]
                {
                    &&& 0 <= i < arms@.len()
                    &&& arm_rejected(scope, arms@[i], error)
                    &&& forall|j: int|
                        0 <= j < i ==> arm_accepted(scope, #[trigger] arms@[j])
                })
        }),
{
    lemma_arms(scope, arms@);
}

/// The local variables inside a function with the given parameters. A parameter
/// is known by its position, where of several with one name the last counts. What
/// is known around the function and is not hidden moves behind the parameters.
pub open spec fn locals_inside(
    around: Map<Seq<char>, u64>,
    params: Seq<String>,
    inside: Map<Seq<char>, u64>,
) -> bool {
    &&& forall|i: int|
        0 <= i < params.len() ==> {
            let name = (#[trigger] params[i])@;
            &&& inside.contains_key(name)
            &&& i <= inside[name] < params.len()
            &&& params[inside[name] as int]@ == name
        }
    &&& forall|name: Seq<char>|
        (forall|i: int| 0 <= i < params.len() ==> (#[trigger] params[i])@ != name) ==> {
            &&& #[trigger] inside.contains_key(name) <==> around.contains_key(name)
            &&& around.contains_key(name) ==> inside[name] == around[name] + params.len()
        }
}

proof fn lemma_bound(around: Map<Seq<char>, u64>, params: Vec<String>)
    ensures
        expressions::bind_parameters(
            around,
            analyzed::strings_view(params@),
        ) matches Ok(inside) ==> locals_inside(around, params@, inside),
        expressions::bind_parameters(around, analyzed::strings_view(params@)) matches Err(
            error,
        ) ==> error == AnalysisErrorView::TooManyLocalVariables,
        expressions::bind_parameters(around, analyzed::strings_view(params@)) is Err <==> (
        exists|name: Seq<char>| #[trigger]
            around.contains_key(name) && around[name] + params@.len() > u64::MAX),
{
    let strings = analyzed::strings_view(params@);
    assert(params.len() == params@.len());
    if exists|name: Seq<char>| #[trigger]
        around.contains_key(name) && around[name] + params@.len() > u64::MAX {
        let name = choose|name: Seq<char>| #[trigger]
            around.contains_key(name) && around[name] + params@.len() > u64::MAX;
        assert(around[name] + strings.len() > u64::MAX);
    }
    if let Ok(inside) = expressions::bind_parameters(around, strings) {
        assert forall|i: int| 0 <= i < params@.len() implies {
            let name = (#[trigger] params@[i])@;
            &&& inside.contains_key(name)
            &&& i <= inside[name] < params@.len()
            &&& params@[inside[name] as int]@ == name
        } by {
            let name = params@[i]@;
            assert(strings[i] == name);
            assert(strings.contains(name));
            names::lemma_bound_variables(around, strings, name);
            assert(strings[inside[name] as int] == params@[inside[name] as int]@);
            if inside[name] < i {
                assert(strings[i] != name);
            }
        }
        assert forall|name: Seq<char>|
            (forall|i: int| 0 <= i < params@.len() ==> (#[trigger] params@[i])@ != name) implies {
            &&& #[trigger] inside.contains_key(name) <==> around.contains_key(name)
            &&& around.contains_key(name) ==> inside[name] == around[name] + params@.len()
        } by {
            if strings.contains(name) {
                let i = choose|i: int| 0 <= i < strings.len() && strings[i] == name;
                assert(params@[i]@ == name);
            }
            names::lemma_bound_variables(around, strings, name);
        }
    }
}

/// There is only one way to know the local variables inside a function.
proof fn lemma_locals_unique(
    around: Map<Seq<char>, u64>,
    params: Seq<String>,
    a: Map<Seq<char>, u64>,
    b: Map<Seq<char>, u64>,
)
    requires
        locals_inside(around, params, a),
        locals_inside(around, params, b),
    ensures
        a == b,
{
    assert forall|name: Seq<char>|
        (a.contains_key(name) <==> b.contains_key(name)) && (a.contains_key(name) ==> a[name]
            == b[name]) by {
        if exists|i: int| 0 <= i < params.len() && (#[trigger] params[i])@ == name {
            let i = choose|i: int| 0 <= i < params.len() && (#[trigger] params[i])@ == name;
            let at_a = a[params[i]@] as int;
            let at_b = b[params[i]@] as int;
            assert(params[at_a]@ == name);
            assert(params[at_b]@ == name);
            assert(at_a <= a[params[at_b]@]);
            assert(at_b <= a[params[at_b]@]);
            assert(at_a <= b[params[at_a]@]);
        } else {
            assert(forall|i: int| 0 <= i < params.len() ==> (#[trigger] params[i])@ != name);
            assert(a.contains_key(name) <==> around.contains_key(name));
            assert(b.contains_key(name) <==> around.contains_key(name));
        }
    }
    assert(a =~= b);
}

/// A function keeps its parameters, and its body is processed where the local
/// variables are those inside the function.
pub proof fn lemma_functions<T: FieldElement>(
    scope: Scope<T>,
    function: LambdaExpression<Expression<T>>,
    inside: Map<Seq<char>, u64>,
)
    requires
        locals_inside(scope.locals, function.params@, inside),
    ensures
        ({
            let body = expressions::process(
                Scope { constants: scope.constants, namespace: scope.namespace, locals: inside },
                *function.body,
            );
            let result = expressions::process(scope, Expression::LambdaExpression(function));
            let direct = expressions::process_body(
                scope,
                analyzed::strings_view(function.params@),
                *function.body,
            );
            let too_many = exists|name: Seq<char>| #[trigger]
                scope.locals.contains_key(name) && scope.locals[name] + function.params@.len()
                    > u64::MAX;
            &&& !too_many ==> {
                &&& direct == body
                &&& result is Ok <==> body is Ok
                &&& body matches Err(error) ==> result matches Err(e) && e == error
                &&& result matches Ok(e) ==> {
                    &&& e matches ExpressionView::LambdaExpression(params, b)
                    &&& body matches Ok(v) && v == *b
                    &&& params.len() == function.params@.len()
                    &&& forall|i: int|
                        0 <= i < params.len() ==> #[trigger] params[i] == function.params@[i]@
                }
            }
        }),
{
    lemma_bound(scope.locals, function.params);
    let strings = analyzed::strings_view(function.params@);
    if let Ok(found) = expressions::bind_parameters(scope.locals, strings) {
        lemma_locals_unique(scope.locals, function.params@, found, inside);
        assert(expressions::process_body(scope, strings, *function.body) == expressions::process(
            Scope { locals: inside, ..scope },
            *function.body,
        ));
    }
}

/// A function is rejected, whatever its body, if the position of a local variable
/// around it does not fit once it is moved behind the parameters.
pub proof fn lemma_too_many_variables<T: FieldElement>(
    scope: Scope<T>,
    function: LambdaExpression<Expression<T>>,
    name: Seq<char>,
)
    requires
        scope.locals.contains_key(name),
        scope.locals[name] + function.params@.len() > u64::MAX,
    ensures
        expressions::process(scope, Expression::LambdaExpression(function)) matches Err(error)
            && error == AnalysisErrorView::TooManyLocalVariables,
        expressions::process_body(
            scope,
            analyzed::strings_view(function.params@),
            *function.body,
        ) matches Err(error) && error == AnalysisErrorView::TooManyLocalVariables,
{
    lemma_bound(scope.locals, function.params);
}

/// Inside a function there are such local variables, if their positions fit.
pub proof fn lemma_locals_inside_exist(around: Map<Seq<char>, u64>, params: Vec<String>)
    requires
        forall|name: Seq<char>| #[trigger]
            around.contains_key(name) ==> around[name] + params@.len() <= u64::MAX,
    ensures
        exists|inside: Map<Seq<char>, u64>| locals_inside(around, params@, inside),
{
    lemma_bound(around, params);
}

/// Each side of a lookup has a selector exactly if it was written with one, which
/// is what becomes of that one, and its expressions are processed each on its own
/// and stay in their places. The first error, from left to right, is its error.
pub proof fn lemma_sides<T: FieldElement>(
    scope: Scope<T>,
    selected: SelectedExpressions<Expression<T>>,
)
    ensures
        ({
            let result = expressions::process_selected(scope, selected);
            &&& result matches Ok(side) ==> {
                &&& side.selector is Some <==> selected.selector is Some
                &&& selected.selector matches Some(e) ==> expressions::process(
                    scope,
                    e,
                ) matches Ok(v) && side.selector == Some(v)
                &&& each_processed(scope, selected.expressions@, Ok(side.expressions))
            }
            &&& result matches Err(error) ==> {
                ||| selected.selector matches Some(e) && expressions::process(
                    scope,
                    e,
                ) matches Err(first) && first == error
                ||| {
                    &&& selected.selector matches Some(e) ==> expressions::process(scope, e) is Ok
                    &&& each_processed(scope, selected.expressions@, Err(error))
                }
            }
        }),
{
    lemma_lists(scope, selected.expressions@);
}

} // verus!
