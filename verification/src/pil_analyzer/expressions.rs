//! From parsed to analyzed expressions.
use vstd::prelude::*;

use crate::analyzed;
use crate::analyzed::{
    Expression, ExpressionView, MatchArmView, PolynomialReference, PolynomialReferenceView,
    Reference, ReferenceView, SelectedExpressionsView,
};
use crate::error;
use crate::error::{AnalysisError, AnalysisErrorView, Outcome};
use crate::name_map::NameMap;
use crate::number::FieldElement;
use crate::parsed;
use crate::parsed::{
    ArrayLiteral, FunctionCall, LambdaExpression, MatchArm, MatchPattern,
    NamespacedPolynomialReference, SelectedExpressions, ShiftedPolynomialReference,
};
use crate::pil_analyzer::PILAnalyzer;
use crate::pil_analyzer::evaluation;

verus! {

/// What the meaning of a name depends on.
#[verifier::ext_equal]
pub struct Scope<T> {
    pub constants: Map<Seq<char>, T>,
    pub namespace: Seq<char>,
    /// The parameters of the functions around, by their positions.
    pub locals: Map<Seq<char>, u64>,
}

/// The name stands for a constant of the language, such as `%N`.
pub open spec fn is_percent_name(name: Seq<char>) -> bool {
    name.len() > 0 && name[0] == '%'
}

/// The name `name` in `namespace`.
pub open spec fn in_namespace(namespace: Seq<char>, name: Seq<char>) -> Seq<char> {
    namespace + seq!['.'] + name
}

/// The absolute name of `name` where it stands without a namespace. Constants
/// are not namespaced.
pub open spec fn absolute_name<T>(scope: Scope<T>, name: Seq<char>) -> Seq<char> {
    if is_percent_name(name) || scope.constants.contains_key(name) {
        name
    } else {
        in_namespace(scope.namespace, name)
    }
}

/// The absolute name of `name` behind an optional namespace.
pub open spec fn absolute_reference<T>(
    scope: Scope<T>,
    namespace: Option<String>,
    name: Seq<char>,
) -> Outcome<Seq<char>> {
    match namespace {
        None => Ok(absolute_name(scope, name)),
        Some(explicit) => if is_percent_name(name) {
            Err(AnalysisErrorView::NamespacedConstant(name))
        } else {
            Ok(in_namespace(explicit@, name))
        },
    }
}

/// The reference that `poly` is, with no shift.
pub open spec fn process_namespaced_reference<T: FieldElement>(
    scope: Scope<T>,
    poly: NamespacedPolynomialReference<T>,
) -> Outcome<PolynomialReferenceView> {
    let index = match poly.index {
        None => Ok(None),
        Some(e) => match evaluation::evaluate_degree(scope.constants, *e) {
            Err(error) => Err(error),
            Ok(degree) => Ok(Some(degree)),
        },
    };
    match index {
        Err(error) => Err(error),
        Ok(index) => match absolute_reference(scope, poly.namespace, poly.name@) {
            Err(error) => Err(error),
            Ok(name) => Ok(PolynomialReferenceView { name, poly_id: None, index, next: false }),
        },
    }
}

/// The reference that `poly` is.
pub open spec fn process_shifted_reference<T: FieldElement>(
    scope: Scope<T>,
    poly: ShiftedPolynomialReference<T>,
) -> Outcome<PolynomialReferenceView> {
    match process_namespaced_reference(scope, poly.pol) {
        Err(error) => Err(error),
        Ok(reference) => Ok(PolynomialReferenceView { next: poly.is_next, ..reference }),
    }
}

/// What the name `poly` refers to: a local variable, if there is one of that
/// name and no namespace is given, or else a polynomial.
pub open spec fn process_reference<T: FieldElement>(
    scope: Scope<T>,
    poly: ShiftedPolynomialReference<T>,
) -> Outcome<ReferenceView> {
    let name = poly.pol.name@;
    if poly.pol.namespace is None && scope.locals.contains_key(name) {
        if poly.is_next {
            Err(AnalysisErrorView::ShiftedLocalVariable(name))
        } else if poly.pol.index is Some {
            Err(AnalysisErrorView::IndexedLocalVariable(name))
        } else {
            Ok(ReferenceView::LocalVar(scope.locals[name], name))
        }
    } else {
        match process_shifted_reference(scope, poly) {
            Err(error) => Err(error),
            Ok(reference) => Ok(ReferenceView::Poly(reference)),
        }
    }
}

/// `outer` with the parameters of a function on top, each at its position. A
/// parameter shadows what came before it under the same name.
pub open spec fn shadowed(outer: Map<Seq<char>, u64>, params: Seq<Seq<char>>) -> Map<Seq<char>, u64>
    decreases params.len(),
{
    if params.len() == 0 {
        outer
    } else {
        shadowed(outer, params.drop_last()).insert(params.last(), (params.len() - 1) as u64)
    }
}

/// The local variables inside a function with the given parameters: the
/// variables around it move behind the parameters.
pub open spec fn bind_parameters(
    locals: Map<Seq<char>, u64>,
    params: Seq<Seq<char>>,
) -> Outcome<Map<Seq<char>, u64>> {
    if exists|name: Seq<char>|
        #![trigger locals[name]]
        locals.contains_key(name) && locals[name] + params.len() > u64::MAX {
        Err(AnalysisErrorView::TooManyLocalVariables)
    } else {
        Ok(shadowed(locals.map_values(|position: u64| (position + params.len()) as u64), params))
    }
}

/// The analyzed form of `e`.
pub open spec fn process<T: FieldElement>(scope: Scope<T>, e: parsed::Expression<T>) -> Outcome<
    ExpressionView<T>,
>
    decreases e, 0nat,
{
    match e {
        parsed::Expression::Constant(name) => Ok(ExpressionView::Constant(name@)),
        parsed::Expression::Reference(poly) => match process_reference(scope, poly) {
            Err(error) => Err(error),
            Ok(reference) => Ok(ExpressionView::Reference(reference)),
        },
        parsed::Expression::PublicReference(name) => Ok(ExpressionView::PublicReference(name@)),
        parsed::Expression::Number(n) => Ok(ExpressionView::Number(n)),
        parsed::Expression::String(s) => Ok(ExpressionView::String(s@)),
        parsed::Expression::Tuple(items) => match process_all(scope, items@) {
            Err(error) => Err(error),
            Ok(items) => Ok(ExpressionView::Tuple(items)),
        },
        parsed::Expression::ArrayLiteral(array) => match process_all(scope, array.items@) {
            Err(error) => Err(error),
            Ok(items) => Ok(ExpressionView::ArrayLiteral(items)),
        },
        parsed::Expression::LambdaExpression(lambda) => {
            let params = analyzed::strings_view(lambda.params@);
            match process_body(scope, params, *lambda.body) {
                Err(error) => Err(error),
                Ok(body) => Ok(ExpressionView::LambdaExpression(params, Box::new(body))),
            }
        },
        parsed::Expression::BinaryOperation(left, op, right) => match process(scope, *left) {
            Err(error) => Err(error),
            Ok(l) => match process(scope, *right) {
                Err(error) => Err(error),
                Ok(r) => Ok(ExpressionView::BinaryOperation(Box::new(l), op, Box::new(r))),
            },
        },
        parsed::Expression::UnaryOperation(op, value) => match process(scope, *value) {
            Err(error) => Err(error),
            Ok(v) => Ok(ExpressionView::UnaryOperation(op, Box::new(v))),
        },
        parsed::Expression::FunctionCall(call) => match process_all(scope, call.arguments@) {
            Err(error) => Err(error),
            Ok(arguments) => Ok(
                ExpressionView::FunctionCall(absolute_name(scope, call.id@), arguments),
            ),
        },
        parsed::Expression::MatchExpression(scrutinee, arms) => match process(scope, *scrutinee) {
            Err(error) => Err(error),
            Ok(s) => match process_arms(scope, arms@) {
                Err(error) => Err(error),
                Ok(a) => Ok(ExpressionView::MatchExpression(Box::new(s), a)),
            },
        },
        parsed::Expression::FreeInput(_) => Err(AnalysisErrorView::FreeInput),
    }
}

/// The analyzed form of the body of a function.
pub open spec fn process_body<T: FieldElement>(
    scope: Scope<T>,
    params: Seq<Seq<char>>,
    body: parsed::Expression<T>,
) -> Outcome<ExpressionView<T>>
    decreases body, 1nat,
{
    match bind_parameters(scope.locals, params) {
        Err(error) => Err(error),
        Ok(locals) => process(Scope { locals, ..scope }, body),
    }
}

/// The analyzed forms of the expressions, or the first error among them.
pub open spec fn process_all<T: FieldElement>(
    scope: Scope<T>,
    items: Seq<parsed::Expression<T>>,
) -> Outcome<Seq<ExpressionView<T>>>
    decreases items, 0nat,
{
    if items.len() == 0 {
        Ok(Seq::empty())
    } else {
        match process_all(scope, items.drop_last()) {
            Err(error) => Err(error),
            Ok(front) => match process(scope, items.last()) {
                Err(error) => Err(error),
                Ok(last) => Ok(front.push(last)),
            },
        }
    }
}

/// The analyzed form of an arm.
pub open spec fn process_arm<T: FieldElement>(
    scope: Scope<T>,
    arm: MatchArm<parsed::Expression<T>>,
) -> Outcome<MatchArmView<T>>
    decreases arm, 0nat,
{
    let pattern = match arm.pattern {
        MatchPattern::CatchAll => Ok(None),
        MatchPattern::Pattern(e) => match process(scope, e) {
            Err(error) => Err(error),
            Ok(p) => Ok(Some(p)),
        },
    };
    match pattern {
        Err(error) => Err(error),
        Ok(pattern) => match process(scope, arm.value) {
            Err(error) => Err(error),
            Ok(value) => Ok(MatchArmView { pattern, value }),
        },
    }
}

/// The analyzed forms of the arms, or the first error among them.
pub open spec fn process_arms<T: FieldElement>(
    scope: Scope<T>,
    arms: Seq<MatchArm<parsed::Expression<T>>>,
) -> Outcome<Seq<MatchArmView<T>>>
    decreases arms, 0nat,
{
    if arms.len() == 0 {
        Ok(Seq::empty())
    } else {
        match process_arms(scope, arms.drop_last()) {
            Err(error) => Err(error),
            Ok(front) => match process_arm(scope, arms.last()) {
                Err(error) => Err(error),
                Ok(last) => Ok(front.push(last)),
            },
        }
    }
}

/// The analyzed form of one side of a lookup.
pub open spec fn process_selected<T: FieldElement>(
    scope: Scope<T>,
    selected: SelectedExpressions<parsed::Expression<T>>,
) -> Outcome<SelectedExpressionsView<T>> {
    let selector = match selected.selector {
        None => Ok(None),
        Some(e) => match process(scope, e) {
            Err(error) => Err(error),
            Ok(s) => Ok(Some(s)),
        },
    };
    match selector {
        Err(error) => Err(error),
        Ok(selector) => match process_all(scope, selected.expressions@) {
            Err(error) => Err(error),
            Ok(expressions) => Ok(SelectedExpressionsView { selector, expressions }),
        },
    }
}

/// An error in a front part is the error of the whole.
proof fn lemma_process_all_error<T: FieldElement>(
    scope: Scope<T>,
    items: Seq<parsed::Expression<T>>,
    end: int,
)
    requires
        0 <= end <= items.len(),
        process_all(scope, items.take(end)) is Err,
    ensures
        process_all(scope, items) == process_all(scope, items.take(end)),
    decreases items.len(),
{
    if end == items.len() {
        assert(items.take(end) == items);
    } else {
        assert(items.drop_last().take(end) == items.take(end));
        lemma_process_all_error(scope, items.drop_last(), end);
    }
}

/// An error in a front part is the error of the whole.
proof fn lemma_process_arms_error<T: FieldElement>(
    scope: Scope<T>,
    arms: Seq<MatchArm<parsed::Expression<T>>>,
    end: int,
)
    requires
        0 <= end <= arms.len(),
        process_arms(scope, arms.take(end)) is Err,
    ensures
        process_arms(scope, arms) == process_arms(scope, arms.take(end)),
    decreases arms.len(),
{
    if end == arms.len() {
        assert(arms.take(end) == arms);
    } else {
        assert(arms.drop_last().take(end) == arms.take(end));
        lemma_process_arms_error(scope, arms.drop_last(), end);
    }
}

fn starts_with_percent(name: &str) -> (result: bool)
    ensures
        result == is_percent_name(name@),
{
    !name.is_empty() && name.get_char(0) == '%'
}

fn join_namespace(namespace: &String, name: &str) -> (result: String)
    ensures
        result@ == in_namespace(namespace@, name@),
{
    proof {
        reveal_strlit(".");
    }
    let mut result = namespace.clone();
    result.append(".");
    result.append(name);
    assert(result@ =~= in_namespace(namespace@, name@));
    result
}

/// The local variables inside a function with the given parameters.
fn bind(locals: &NameMap<u64>, params: &Vec<String>) -> (result: Result<
    NameMap<u64>,
    AnalysisError,
>)
    requires
        locals.wf(),
    ensures
        result matches Ok(inner) ==> inner.wf(),
        error::agrees(result, bind_parameters(locals@, analyzed::strings_view(params@))),
{
    let count: u64 = params.len() as u64;
    let ghost names = locals.names();
    let ghost shift = |position: u64| (position + count) as u64;
    proof {
        locals.lemma_names();
    }
    let mut inner: NameMap<u64> = NameMap::new();
    let outer: usize = locals.len();
    let mut i: usize = 0;
    while i < outer
        invariant
            locals.wf(),
            inner.wf(),
            names == locals.names(),
            outer == names.len(),
            names.no_duplicates(),
            i <= outer,
            count == params@.len(),
            shift == (|position: u64| (position + count) as u64),
            inner.names() == names.take(i as int),
            forall|k: int|
                0 <= k < i ==> {
                    &&& inner@.contains_key(#[trigger] names[k])
                    &&& locals@[names[k]] + count <= u64::MAX
                    &&& inner@[names[k]] == shift(locals@[names[k]])
                },
        decreases outer - i,
    {
        let position = *locals.value_at(i);
        match position.checked_add(count) {
            None => {
                proof {
                    let name = names[i as int];
                    locals.lemma_names();
                    assert(names.to_set().contains(name));
                    assert(locals@.contains_key(name) && locals@[name] + count > u64::MAX);
                }
                return Err(AnalysisError::TooManyLocalVariables);
            },
            Some(moved) => {
                let ghost before = inner@;
                let name = locals.name_at(i);
                assert(!inner@.contains_key(name@)) by {
                    inner.lemma_names();
                    if inner@.contains_key(name@) {
                        assert(inner.names().to_set().contains(name@));
                        let k = choose|k: int| 0 <= k < i && names.take(i as int)[k] == name@;
                        assert(names[k] == names[i as int]);
                    }
                }
                inner.insert(name.clone(), moved);
                assert(names.take(i + 1) =~= names.take(i as int).push(names[i as int]));
            },
        }
        i = i + 1;
    }
    proof {
        locals.lemma_names();
        inner.lemma_names();
        assert(names.take(i as int) =~= names);
        assert(inner@ =~= locals@.map_values(shift)) by {
            assert forall|name: Seq<char>| #[trigger] locals@.contains_key(name) implies inner@[name]
                == shift(locals@[name]) by {
                assert(names.to_set().contains(name));
                let k = choose|k: int| 0 <= k < names.len() && names[k] == name;
                assert(inner@[names[k]] == shift(locals@[names[k]]));
            }
        }
        assert forall|name: Seq<char>| locals@.contains_key(name) implies #[trigger] locals@[name]
            + count <= u64::MAX by {
            assert(names.to_set().contains(name));
            let k = choose|k: int| 0 <= k < names.len() && names[k] == name;
            assert(locals@[names[k]] + count <= u64::MAX);
        }
    }
    let ghost base = inner@;
    let ghost all = analyzed::strings_view(params@);
    let mut j: usize = 0;
    assert(all.take(0) =~= Seq::empty());
    while j < params.len()
        invariant
            inner.wf(),
            j <= params@.len(),
            all == analyzed::strings_view(params@),
            inner@ == shadowed(base, all.take(j as int)),
        decreases params@.len() - j,
    {
        assert(all.take(j + 1).drop_last() =~= all.take(j as int));
        inner.insert(params[j].clone(), j as u64);
        j = j + 1;
    }
    assert(all.take(j as int) =~= all);
    assert(locals@.map_values(shift) =~= locals@.map_values(
        |position: u64| (position + all.len()) as u64,
    ));
    Ok(inner)
}

impl<T: FieldElement> PILAnalyzer<T> {
    /// What the meaning of a name depends on, inside functions with the given
    /// local variables.
    pub open spec fn scope(&self, locals: Map<Seq<char>, u64>) -> Scope<T> {
        Scope { constants: self@.constants, namespace: self@.namespace, locals }
    }

    /// The absolute name of `name` where it stands without a namespace.
    pub fn namespaced(&self, name: &str) -> (result: String)
        requires
            self.wf(),
        ensures
            result@ == absolute_name(self.scope(Map::empty()), name@),
    {
        if starts_with_percent(name) || self.constants.contains_key(name) {
            name.to_owned()
        } else {
            join_namespace(&self.namespace, name)
        }
    }

    /// The absolute name of `name` behind an optional namespace.
    pub fn namespaced_ref(&self, namespace: &Option<String>, name: &str) -> (result: Result<
        String,
        AnalysisError,
    >)
        requires
            self.wf(),
        ensures
            error::agrees(result, absolute_reference(self.scope(Map::empty()), *namespace, name@)),
    {
        match namespace {
            None => Ok(self.namespaced(name)),
            Some(explicit) => if starts_with_percent(name) {
                Err(AnalysisError::NamespacedConstant(name.to_owned()))
            } else {
                Ok(join_namespace(explicit, name))
            },
        }
    }

    /// The reference that `poly` is, with no shift.
    pub fn process_namespaced_polynomial_reference(
        &self,
        poly: &NamespacedPolynomialReference<T>,
    ) -> (result: Result<PolynomialReference, AnalysisError>)
        requires
            self.wf(),
        ensures
            error::agrees(result, process_namespaced_reference(self.scope(Map::empty()), *poly)),
            result matches Ok(reference) ==> {
                &&& !reference.next
                &&& reference.poly_id is None
                &&& reference.index is Some <==> poly.index is Some
            },
    {
        let index = match poly.index() {
            None => None,
            Some(e) => match self.evaluate_to_degree(e) {
                Err(error) => return Err(error),
                Ok(degree) => Some(degree),
            },
        };
        match self.namespaced_ref(poly.namespace(), poly.name().as_str()) {
            Err(error) => Err(error),
            Ok(name) => Ok(PolynomialReference { name, poly_id: None, index, next: false }),
        }
    }

    /// The reference that `poly` is.
    pub fn process_shifted_polynomial_reference(&self, poly: &ShiftedPolynomialReference<T>) -> (result:
        Result<PolynomialReference, AnalysisError>)
        requires
            self.wf(),
        ensures
            error::agrees(result, process_shifted_reference(self.scope(Map::empty()), *poly)),
            result matches Ok(reference) ==> {
                &&& reference.next == poly.is_next
                &&& reference.poly_id is None
                &&& reference.index is Some <==> poly.pol.index is Some
            },
    {
        match self.process_namespaced_polynomial_reference(poly.namespaced()) {
            Err(error) => Err(error),
            Ok(reference) => Ok(PolynomialReference { next: poly.shift(), ..reference }),
        }
    }

    /// What a name refers to.
    fn process_name(&self, locals: &NameMap<u64>, poly: &ShiftedPolynomialReference<T>) -> (result:
        Result<Reference, AnalysisError>)
        requires
            self.wf(),
            locals.wf(),
        ensures
            error::agrees(result, process_reference(self.scope(locals@), *poly)),
    {
        let name = poly.namespaced().name();
        if poly.namespaced().namespace().is_none() {
            match locals.get(name.as_str()) {
                Some(id) => {
                    return if poly.shift() {
                        Err(AnalysisError::ShiftedLocalVariable(name.clone()))
                    } else if poly.namespaced().index().is_some() {
                        Err(AnalysisError::IndexedLocalVariable(name.clone()))
                    } else {
                        Ok(Reference::LocalVar(*id, name.clone()))
                    };
                },
                None => {},
            }
        }
        match self.process_shifted_polynomial_reference(poly) {
            Err(error) => Err(error),
            Ok(reference) => Ok(Reference::Poly(reference)),
        }
    }

    /// The analyzed form of `e` inside functions with the given local variables.
    pub fn process_expression(&self, locals: &NameMap<u64>, e: &parsed::Expression<T>) -> (result:
        Result<Expression<T>, AnalysisError>)
        requires
            self.wf(),
            locals.wf(),
        ensures
            error::agrees(result, process(self.scope(locals@), *e)),
        decreases *e, 0nat,
    {
        match e {
            parsed::Expression::Constant(name) => Ok(Expression::Constant(name.clone())),
            parsed::Expression::Reference(poly) => match self.process_name(locals, poly) {
                Err(error) => Err(error),
                Ok(reference) => Ok(Expression::Reference(reference)),
            },
            parsed::Expression::PublicReference(name) => Ok(
                Expression::PublicReference(name.clone()),
            ),
            parsed::Expression::Number(n) => Ok(Expression::Number(*n)),
            parsed::Expression::String(s) => Ok(Expression::String(s.clone())),
            parsed::Expression::Tuple(items) => match self.process_expressions(locals, items) {
                Err(error) => Err(error),
                Ok(items) => Ok(Expression::Tuple(items)),
            },
            parsed::Expression::ArrayLiteral(array) => match self.process_expressions(
                locals,
                &array.items,
            ) {
                Err(error) => Err(error),
                Ok(items) => Ok(Expression::ArrayLiteral(ArrayLiteral { items })),
            },
            parsed::Expression::LambdaExpression(lambda) => match self.process_function(
                locals,
                &lambda.params,
                &lambda.body,
            ) {
                Err(error) => Err(error),
                Ok(body) => Ok(
                    Expression::LambdaExpression(
                        LambdaExpression {
                            params: analyzed::clone_strings(&lambda.params),
                            body: Box::new(body),
                        },
                    ),
                ),
            },
            parsed::Expression::BinaryOperation(left, op, right) => {
                let l = match self.process_expression(locals, left) {
                    Err(error) => return Err(error),
                    Ok(l) => l,
                };
                match self.process_expression(locals, right) {
                    Err(error) => Err(error),
                    Ok(r) => Ok(Expression::BinaryOperation(Box::new(l), *op, Box::new(r))),
                }
            },
            parsed::Expression::UnaryOperation(op, value) => match self.process_expression(
                locals,
                value,
            ) {
                Err(error) => Err(error),
                Ok(v) => Ok(Expression::UnaryOperation(*op, Box::new(v))),
            },
            parsed::Expression::FunctionCall(call) => {
                let id = self.namespaced(call.id.as_str());
                match self.process_expressions(locals, &call.arguments) {
                    Err(error) => Err(error),
                    Ok(arguments) => Ok(Expression::FunctionCall(FunctionCall { id, arguments })),
                }
            },
            parsed::Expression::MatchExpression(scrutinee, arms) => {
                let s = match self.process_expression(locals, scrutinee) {
                    Err(error) => return Err(error),
                    Ok(s) => s,
                };
                match self.process_match_arms(locals, arms) {
                    Err(error) => Err(error),
                    Ok(a) => Ok(Expression::MatchExpression(Box::new(s), a)),
                }
            },
            parsed::Expression::FreeInput(_) => Err(AnalysisError::FreeInput),
        }
    }

    /// The analyzed form of the body of a function with the given parameters.
    pub fn process_function(
        &self,
        locals: &NameMap<u64>,
        params: &Vec<String>,
        body: &parsed::Expression<T>,
    ) -> (result: Result<Expression<T>, AnalysisError>)
        requires
            self.wf(),
            locals.wf(),
        ensures
            error::agrees(
                result,
                process_body(self.scope(locals@), analyzed::strings_view(params@), *body),
            ),
        decreases *body, 1nat,
    {
        match bind(locals, params) {
            Err(error) => Err(error),
            Ok(inner) => self.process_expression(&inner, body),
        }
    }

    /// The analyzed forms of the expressions.
    pub fn process_expressions(&self, locals: &NameMap<u64>, items: &Vec<parsed::Expression<T>>) -> (result:
        Result<Vec<Expression<T>>, AnalysisError>)
        requires
            self.wf(),
            locals.wf(),
        ensures
            match result {
                Ok(done) => process_all(self.scope(locals@), items@) == Ok::<
                    Seq<ExpressionView<T>>,
                    AnalysisErrorView,
                >(analyzed::expressions_view(done@)),
                Err(error) => process_all(self.scope(locals@), items@) == Err::<
                    Seq<ExpressionView<T>>,
                    AnalysisErrorView,
                >(error@),
            },
        decreases items, 0nat,
    {
        let ghost scope = self.scope(locals@);
        let mut done: Vec<Expression<T>> = Vec::new();
        let mut i: usize = 0;
        assert(items@.take(0).len() == 0);
        assert(analyzed::expressions_view(done@) =~= Seq::empty());
        while i < items.len()
            invariant
                self.wf(),
                locals.wf(),
                scope == self.scope(locals@),
                i <= items@.len(),
                process_all(scope, items@.take(i as int)) == Ok::<
                    Seq<ExpressionView<T>>,
                    AnalysisErrorView,
                >(analyzed::expressions_view(done@)),
            decreases items@.len() - i,
        {
            let ghost before = done@;
            assert(items@.take(i + 1).drop_last() =~= items@.take(i as int));
            match self.process_expression(locals, &items[i]) {
                Err(error) => {
                    proof {
                        lemma_process_all_error(scope, items@, i + 1);
                    }
                    return Err(error);
                },
                Ok(e) => {
                    done.push(e);
                    assert(analyzed::expressions_view(done@) =~= analyzed::expressions_view(
                        before,
                    ).push(e@));
                },
            }
            i = i + 1;
        }
        assert(items@.take(i as int) =~= items@);
        Ok(done)
    }

    /// The analyzed forms of the arms of a match.
    fn process_match_arms(
        &self,
        locals: &NameMap<u64>,
        arms: &Vec<MatchArm<parsed::Expression<T>>>,
    ) -> (result: Result<Vec<MatchArm<Expression<T>>>, AnalysisError>)
        requires
            self.wf(),
            locals.wf(),
        ensures
            match result {
                Ok(done) => process_arms(self.scope(locals@), arms@) == Ok::<
                    Seq<MatchArmView<T>>,
                    AnalysisErrorView,
                >(analyzed::arms_view(done@)),
                Err(error) => process_arms(self.scope(locals@), arms@) == Err::<
                    Seq<MatchArmView<T>>,
                    AnalysisErrorView,
                >(error@),
            },
        decreases arms, 0nat,
    {
        let ghost scope = self.scope(locals@);
        let mut done: Vec<MatchArm<Expression<T>>> = Vec::new();
        let mut i: usize = 0;
        assert(arms@.take(0).len() == 0);
        assert(analyzed::arms_view(done@) =~= Seq::empty());
        while i < arms.len()
            invariant
                self.wf(),
                locals.wf(),
                scope == self.scope(locals@),
                i <= arms@.len(),
                done@.len() == i,
                process_arms(scope, arms@.take(i as int)) == Ok::<
                    Seq<MatchArmView<T>>,
                    AnalysisErrorView,
                >(analyzed::arms_view(done@)),
            decreases arms@.len() - i,
        {
            let ghost before = done@;
            let arm = &arms[i];
            let ghost expected = process_arm(scope, *arm);
            assert(arms@.take(i + 1).drop_last() =~= arms@.take(i as int));
            assert(arms@.take(i + 1).last() == *arm);
            let pattern = match &arm.pattern {
                MatchPattern::CatchAll => MatchPattern::CatchAll,
                MatchPattern::Pattern(e) => match self.process_expression(locals, e) {
                    Err(error) => {
                        proof {
                            lemma_process_arms_error(scope, arms@, i + 1);
                        }
                        return Err(error);
                    },
                    Ok(p) => MatchPattern::Pattern(p),
                },
            };
            match self.process_expression(locals, &arm.value) {
                Err(error) => {
                    proof {
                        lemma_process_arms_error(scope, arms@, i + 1);
                    }
                    return Err(error);
                },
                Ok(value) => {
                    done.push(MatchArm { pattern, value });
                    assert(analyzed::arms_view(done@) =~= analyzed::arms_view(before).push(
                        analyzed::arm_view(done@[i as int]),
                    ));
                },
            }
            i = i + 1;
        }
        assert(arms@.take(i as int) =~= arms@);
        Ok(done)
    }

    /// The analyzed form of one side of a lookup.
    pub fn process_selected_expression(
        &self,
        selected: &SelectedExpressions<parsed::Expression<T>>,
    ) -> (result: Result<SelectedExpressions<Expression<T>>, AnalysisError>)
        requires
            self.wf(),
        ensures
            error::agrees(result, process_selected(self.scope(Map::empty()), *selected)),
    {
        let locals: NameMap<u64> = NameMap::new();
        let selector = match &selected.selector {
            None => None,
            Some(e) => match self.process_expression(&locals, e) {
                Err(error) => return Err(error),
                Ok(s) => Some(s),
            },
        };
        match self.process_expressions(&locals, &selected.expressions) {
            Err(error) => Err(error),
            Ok(expressions) => Ok(SelectedExpressions { selector, expressions }),
        }
    }
}

} // verus!
