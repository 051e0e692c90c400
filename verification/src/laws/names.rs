//! What names mean.
use vstd::prelude::*;

use crate::analyzed;
use crate::analyzed::{PolyID, ReferenceView, SourceRefView, SymbolKind};
use crate::error::AnalysisErrorView;
use crate::laws::states;
use crate::number::FieldElement;
use crate::parsed::{
    Expression, FunctionDefinition, MatchArm, MatchPattern, ShiftedPolynomialReference,
};
use crate::pil_analyzer::AnalyzerView;
use crate::pil_analyzer::evaluation;
use crate::pil_analyzer::expressions;
use crate::pil_analyzer::expressions::Scope;
use crate::pil_analyzer::resolution;
use crate::pil_analyzer::statements;

verus! {

/// A constant has the same absolute name in every namespace: its own.
pub proof fn lemma_constants_not_namespaced<T>(scope: Scope<T>, name: Seq<char>)
    requires
        scope.constants.contains_key(name) || expressions::is_percent_name(name),
    ensures
        expressions::absolute_name(scope, name) == name,
{
}

/// A name with a namespace in front means in every scope what the bare name means
/// inside that namespace, as long as the bare name is not that of a constant.
pub proof fn lemma_qualified_name<T>(
    scope: Scope<T>,
    inside: Scope<T>,
    namespace: String,
    name: Seq<char>,
)
    requires
        inside.namespace == namespace@,
        !inside.constants.contains_key(name),
        !expressions::is_percent_name(name),
    ensures
        expressions::absolute_reference(scope, Some(namespace), name) == Ok::<
            Seq<char>,
            AnalysisErrorView,
        >(expressions::absolute_name(inside, name)),
{
}

/// Two names of a namespace have different absolute names.
pub proof fn lemma_absolute_names_apart(namespace: Seq<char>, a: Seq<char>, b: Seq<char>)
    requires
        a != b,
    ensures
        expressions::in_namespace(namespace, a) != expressions::in_namespace(namespace, b),
{
    let front = namespace.len() + 1;
    let x = expressions::in_namespace(namespace, a);
    let y = expressions::in_namespace(namespace, b);
    assert(x.skip(front as int) =~= a);
    assert(y.skip(front as int) =~= b);
}

/// Names without dots have different absolute names in different namespaces.
pub proof fn lemma_namespaces_apart(
    left: Seq<char>,
    a: Seq<char>,
    right: Seq<char>,
    b: Seq<char>,
)
    requires
        left != right,
        !a.contains('.'),
        !b.contains('.'),
    ensures
        expressions::in_namespace(left, a) != expressions::in_namespace(right, b),
{
    let x = expressions::in_namespace(left, a);
    let y = expressions::in_namespace(right, b);
    if x == y {
        assert(x.len() == left.len() + 1 + a.len());
        assert(y.len() == right.len() + 1 + b.len());
        assert(x.skip(left.len() as int + 1) =~= a);
        assert(y.skip(right.len() as int + 1) =~= b);
        assert(x[left.len() as int] == '.');
        assert(y[right.len() as int] == '.');
        if left.len() < right.len() {
            let i = right.len() - left.len() - 1;
            assert(a[i] == x[right.len() as int]);
            assert(a.contains('.'));
        } else if left.len() > right.len() {
            let i = left.len() - right.len() - 1;
            assert(b[i] == y[left.len() as int]);
            assert(b.contains('.'));
        } else {
            assert(x.take(left.len() as int) =~= left);
            assert(y.take(right.len() as int) =~= right);
        }
    }
}

/// A local variable hides every column and constant of its name. A namespace in
/// front brings them back: local variables do not matter then.
pub proof fn lemma_local_variables_first<T: FieldElement>(
    scope: Scope<T>,
    poly: ShiftedPolynomialReference<T>,
)
    requires
        scope.locals.contains_key(poly.pol.name@),
    ensures
        poly.pol.namespace is None && !poly.is_next && poly.pol.index is None
            ==> expressions::process_reference(scope, poly) == Ok::<
            ReferenceView,
            AnalysisErrorView,
        >(ReferenceView::LocalVar(scope.locals[poly.pol.name@], poly.pol.name@)),
        poly.pol.namespace is Some ==> expressions::process_reference(scope, poly)
            == expressions::process_reference(Scope { locals: Map::empty(), ..scope }, poly),
{
}

/// A parameter is known inside its function by its position. Of several
/// parameters with one name the last counts. Every other name keeps its meaning.
proof fn lemma_shadowed(outer: Map<Seq<char>, u64>, params: Seq<Seq<char>>, name: Seq<char>)
    requires
        params.len() <= u64::MAX,
    ensures
        params.contains(name) ==> {
            let position = expressions::shadowed(outer, params)[name];
            &&& expressions::shadowed(outer, params).contains_key(name)
            &&& position < params.len()
            &&& params[position as int] == name
            &&& forall|later: int|
                position < later < params.len() ==> #[trigger] params[later] != name
        },
        !params.contains(name) ==> {
            &&& expressions::shadowed(outer, params).contains_key(name) <==> outer.contains_key(
                name,
            )
            &&& outer.contains_key(name) ==> expressions::shadowed(outer, params)[name]
                == outer[name]
        },
    decreases params.len(),
{
    if params.len() > 0 {
        let front = params.drop_last();
        lemma_shadowed(outer, front, name);
        if name == params.last() {
            assert(params[params.len() - 1] == name);
        } else {
            if params.contains(name) {
                let i = choose|i: int| 0 <= i < params.len() && params[i] == name;
                assert(front[i] == name);
                let position = expressions::shadowed(outer, front)[name];
                assert(params[position as int] == front[position as int]);
                assert forall|later: int| position < later < params.len() implies name
                    != #[trigger] params[later] by {
                    if later < front.len() {
                        assert(params[later] == front[later]);
                    }
                }
            }
            if front.contains(name) {
                let i = choose|i: int| 0 <= i < front.len() && front[i] == name;
                assert(params[i] == name);
            }
        }
    }
}

/// Inside a function its parameters are known by their positions, where of
/// several with one name the last counts. The variables around it that are not
/// hidden by a parameter move behind the parameters.
pub proof fn lemma_bound_variables(
    locals: Map<Seq<char>, u64>,
    params: Seq<Seq<char>>,
    name: Seq<char>,
)
    requires
        params.len() <= u64::MAX,
    ensures
        expressions::bind_parameters(locals, params) matches Ok(inner) ==> {
            &&& inner.contains_key(name) <==> params.contains(name) || locals.contains_key(name)
            &&& params.contains(name) ==> {
                &&& inner[name] < params.len()
                &&& params[inner[name] as int] == name
                &&& forall|later: int|
                    inner[name] < later < params.len() ==> #[trigger] params[later] != name
            }
            &&& !params.contains(name) && locals.contains_key(name) ==> inner[name] == locals[name]
                + params.len()
        },
{
    let moved = locals.map_values(|position: u64| (position + params.len()) as u64);
    lemma_shadowed(moved, params, name);
    if expressions::bind_parameters(locals, params) is Ok && locals.contains_key(name) {
        assert(locals[name] + params.len() <= u64::MAX);
    }
}

/// The positions of different variables are different inside a function if they
/// are so around it.
pub proof fn lemma_positions_apart(
    locals: Map<Seq<char>, u64>,
    params: Seq<Seq<char>>,
    a: Seq<char>,
    b: Seq<char>,
)
    requires
        params.len() <= u64::MAX,
        locals.is_injective(),
        a != b,
    ensures
        expressions::bind_parameters(locals, params) matches Ok(inner) ==> inner.contains_key(a)
            && inner.contains_key(b) ==> inner[a] != inner[b],
{
    lemma_bound_variables(locals, params, a);
    lemma_bound_variables(locals, params, b);
}

/// A constant expression keeps its value when more constants are defined.
pub proof fn lemma_value_stays<T: FieldElement>(
    constants: Map<Seq<char>, T>,
    more: Map<Seq<char>, T>,
    e: Expression<T>,
)
    requires
        states::kept(constants, more),
        evaluation::evaluate(constants, e) matches Ok(value) && value is Some,
    ensures
        evaluation::evaluate(more, e) == evaluation::evaluate(constants, e),
    decreases e,
{
    match e {
        Expression::BinaryOperation(left, _, right) => {
            lemma_value_stays(constants, more, *left);
            lemma_value_stays(constants, more, *right);
        },
        Expression::UnaryOperation(_, value) => {
            lemma_value_stays(constants, more, *value);
        },
        Expression::Constant(name) => {
            assert(constants.contains_key(name@));
        },
        Expression::Reference(reference) => {
            assert(constants.contains_key(reference.pol.name@));
        },
        _ => {},
    }
}

/// A constant has the value of its definition from there on, whatever is handled
/// later.
pub proof fn lemma_constant_is_found<T: FieldElement>(
    s: AnalyzerView<T>,
    later: AnalyzerView<T>,
    name: String,
    value: T,
)
    requires
        statements::define_constant(s, name@, value) matches Ok(t) && states::extends(t, later),
    ensures
        evaluation::evaluate(later.constants, Expression::Constant(name)) == Ok::<
            Option<T>,
            AnalysisErrorView,
        >(Some(value)),
{
    let t = statements::define_constant(s, name@, value)->Ok_0;
    assert(t.constants.contains_key(name@));
}

/// A column that is defined can be referred to from there on, whatever is handled
/// later: under its name inside the namespace and under its absolute name
/// elsewhere, and what is found has the id that it was given.
pub proof fn lemma_column_is_found<T: FieldElement>(
    s: AnalyzerView<T>,
    later: AnalyzerView<T>,
    source: SourceRefView,
    name: Seq<char>,
    array_size: Option<Expression<T>>,
    kind: SymbolKind,
    value: Option<FunctionDefinition<T>>,
)
    requires
        statements::define(s, source, name, array_size, kind, value) matches Ok(t)
            && states::extends(t, later),
        kind is Poly,
    ensures
        resolution::column_id(
            resolution::names_of(later),
            expressions::absolute_name(s.scope(), name),
        ) == Ok::<PolyID, AnalysisErrorView>(
            PolyID { id: s.symbol_counters.next_id(kind), ptype: kind->Poly_0 },
        ),
{
    let t = statements::define(s, source, name, array_size, kind, value)->Ok_0;
    let absolute = expressions::absolute_name(s.scope(), name);
    assert(t.definitions.contains_key(absolute));
}

/// No name in `e` depends on the namespace around it: every reference has a
/// namespace in front, or is to a constant or a local variable, and so are the
/// functions that are called.
pub open spec fn qualified<T>(
    constants: Set<Seq<char>>,
    locals: Set<Seq<char>>,
    e: Expression<T>,
) -> bool
    decreases e,
{
    match e {
        Expression::Reference(poly) => {
            ||| poly.pol.namespace is Some
            ||| constants.contains(poly.pol.name@)
            ||| locals.contains(poly.pol.name@)
        },
        Expression::Tuple(items) => all_qualified(constants, locals, items@),
        Expression::ArrayLiteral(array) => all_qualified(constants, locals, array.items@),
        Expression::LambdaExpression(lambda) => qualified(
            constants,
            locals.union(analyzed::strings_view(lambda.params@).to_set()),
            *lambda.body,
        ),
        Expression::BinaryOperation(left, _, right) => {
            &&& qualified(constants, locals, *left)
            &&& qualified(constants, locals, *right)
        },
        Expression::UnaryOperation(_, value) => qualified(constants, locals, *value),
        Expression::FunctionCall(call) => {
            &&& constants.contains(call.id@)
            &&& all_qualified(constants, locals, call.arguments@)
        },
        Expression::MatchExpression(scrutinee, arms) => {
            &&& qualified(constants, locals, *scrutinee)
            &&& arms_qualified(constants, locals, arms@)
        },
        _ => true,
    }
}

pub open spec fn all_qualified<T>(
    constants: Set<Seq<char>>,
    locals: Set<Seq<char>>,
    items: Seq<Expression<T>>,
) -> bool
    decreases items,
{
    forall|i: int| 0 <= i < items.len() ==> qualified(constants, locals, #[trigger] items[i])
}

pub open spec fn arm_qualified<T>(
    constants: Set<Seq<char>>,
    locals: Set<Seq<char>>,
    arm: MatchArm<Expression<T>>,
) -> bool
    decreases arm,
{
    &&& arm.pattern matches MatchPattern::Pattern(e) ==> qualified(constants, locals, e)
    &&& qualified(constants, locals, arm.value)
}

pub open spec fn arms_qualified<T>(
    constants: Set<Seq<char>>,
    locals: Set<Seq<char>>,
    arms: Seq<MatchArm<Expression<T>>>,
) -> bool
    decreases arms,
{
    forall|i: int| 0 <= i < arms.len() ==> arm_qualified(constants, locals, #[trigger] arms[i])
}

proof fn lemma_shadowed_names(outer: Map<Seq<char>, u64>, params: Seq<Seq<char>>)
    ensures
        expressions::shadowed(outer, params).dom() == outer.dom().union(params.to_set()),
    decreases params.len(),
{
    if params.len() > 0 {
        let front = params.drop_last();
        lemma_shadowed_names(outer, front);
        assert forall|name: Seq<char>| #[trigger]
            params.contains(name) <==> front.contains(name) || name == params.last() by {
            if params.contains(name) {
                let i = choose|i: int| 0 <= i < params.len() && params[i] == name;
                if i < front.len() {
                    assert(front[i] == name);
                }
            }
            if front.contains(name) {
                let i = choose|i: int| 0 <= i < front.len() && front[i] == name;
                assert(params[i] == name);
            }
            assert(params[params.len() - 1] == params.last());
        }
    }
    assert(expressions::shadowed(outer, params).dom() =~= outer.dom().union(params.to_set()));
}

/// An expression in which no name depends on the namespace around it has the same
/// meaning in every namespace.
pub proof fn lemma_qualified_expression<T: FieldElement>(
    a: Scope<T>,
    b: Scope<T>,
    e: Expression<T>,
)
    requires
        a.constants == b.constants,
        a.locals == b.locals,
        qualified(a.constants.dom(), a.locals.dom(), e),
    ensures
        expressions::process(a, e) == expressions::process(b, e),
    decreases e, 0nat,
{
    match e {
        Expression::Tuple(items) => {
            lemma_all_qualified(a, b, items@);
        },
        Expression::ArrayLiteral(array) => {
            lemma_all_qualified(a, b, array.items@);
        },
        Expression::LambdaExpression(lambda) => {
            let params = analyzed::strings_view(lambda.params@);
            lemma_qualified_body(a, b, params, *lambda.body);
        },
        Expression::BinaryOperation(left, _, right) => {
            lemma_qualified_expression(a, b, *left);
            lemma_qualified_expression(a, b, *right);
        },
        Expression::UnaryOperation(_, value) => {
            lemma_qualified_expression(a, b, *value);
        },
        Expression::FunctionCall(call) => {
            lemma_all_qualified(a, b, call.arguments@);
        },
        Expression::MatchExpression(scrutinee, arms) => {
            lemma_qualified_expression(a, b, *scrutinee);
            lemma_arms_qualified(a, b, arms@);
        },
        _ => {},
    }
}

proof fn lemma_qualified_body<T: FieldElement>(
    a: Scope<T>,
    b: Scope<T>,
    params: Seq<Seq<char>>,
    body: Expression<T>,
)
    requires
        a.constants == b.constants,
        a.locals == b.locals,
        qualified(a.constants.dom(), a.locals.dom().union(params.to_set()), body),
    ensures
        expressions::process_body(a, params, body) == expressions::process_body(b, params, body),
    decreases body, 1nat,
{
    if let Ok(locals) = expressions::bind_parameters(a.locals, params) {
        let moved = a.locals.map_values(|position: u64| (position + params.len()) as u64);
        lemma_shadowed_names(moved, params);
        assert(moved.dom() =~= a.locals.dom());
        lemma_qualified_expression(Scope { locals, ..a }, Scope { locals, ..b }, body);
    }
}

proof fn lemma_all_qualified<T: FieldElement>(
    a: Scope<T>,
    b: Scope<T>,
    items: Seq<Expression<T>>,
)
    requires
        a.constants == b.constants,
        a.locals == b.locals,
        all_qualified(a.constants.dom(), a.locals.dom(), items),
    ensures
        expressions::process_all(a, items) == expressions::process_all(b, items),
    decreases items, 0nat,
{
    if items.len() > 0 {
        assert(items[items.len() - 1] == items.last());
        lemma_all_qualified(a, b, items.drop_last());
        lemma_qualified_expression(a, b, items.last());
    }
}

proof fn lemma_arms_qualified<T: FieldElement>(
    a: Scope<T>,
    b: Scope<T>,
    arms: Seq<MatchArm<Expression<T>>>,
)
    requires
        a.constants == b.constants,
        a.locals == b.locals,
        arms_qualified(a.constants.dom(), a.locals.dom(), arms),
    ensures
        expressions::process_arms(a, arms) == expressions::process_arms(b, arms),
    decreases arms, 0nat,
{
    if arms.len() > 0 {
        let last = arms.last();
        assert(arms[arms.len() - 1] == last);
        assert(arm_qualified(a.constants.dom(), a.locals.dom(), last));
        lemma_arms_qualified(a, b, arms.drop_last());
        if let MatchPattern::Pattern(pattern) = last.pattern {
            lemma_qualified_expression(a, b, pattern);
        }
        lemma_qualified_expression(a, b, last.value);
        assert(expressions::process_arm(a, last) == expressions::process_arm(b, last));
    }
}

} // verus!
