//! What definitions define.
use vstd::prelude::*;

use crate::analyzed;
use crate::analyzed::{
    FunctionValueDefinitionView, IdentityKind, PolynomialType, ReferenceView, RepeatedArrayView,
    SourceRefView, StatementIdentifierView, SymbolKind,
};
use crate::error::AnalysisErrorView;
use crate::laws::forms;
use crate::number::{DegreeType, FieldElement};
use crate::parsed::{
    ArrayExpression, Expression, FunctionDefinition, LambdaExpression, PolynomialName,
    ShiftedPolynomialReference,
};
use crate::pil_analyzer;
use crate::pil_analyzer::arrays;
use crate::pil_analyzer::evaluation;
use crate::pil_analyzer::expressions;
use crate::pil_analyzer::handlers;
use crate::pil_analyzer::handlers::DefinitionPart;
use crate::pil_analyzer::statements;
use crate::pil_analyzer::{AnalyzerView, IdentityCounters, SymbolCounters};

verus! {

/// Each kind of symbols and each kind of identities has a counter of its own, and
/// to set one leaves the others as they are.
pub proof fn lemma_counters(symbols: SymbolCounters, identities: IdentityCounters, next: u64)
    ensures
        symbols.next_id(SymbolKind::Poly(PolynomialType::Committed)) == symbols.committed,
        symbols.next_id(SymbolKind::Poly(PolynomialType::Constant)) == symbols.constant,
        symbols.next_id(SymbolKind::Poly(PolynomialType::Intermediate)) == symbols.intermediate,
        symbols.next_id(SymbolKind::Other()) == symbols.other,
        identities.next_id(IdentityKind::Polynomial) == identities.polynomial,
        identities.next_id(IdentityKind::Plookup) == identities.plookup,
        identities.next_id(IdentityKind::Permutation) == identities.permutation,
        identities.next_id(IdentityKind::Connect) == identities.connect,
        forall|kind: SymbolKind, other: SymbolKind| #[trigger]
            symbols.with_next_id(kind, next).next_id(other) == if other == kind {
                next
            } else {
                symbols.next_id(other)
            },
        forall|kind: IdentityKind, other: IdentityKind| #[trigger]
            identities.with_next_id(kind, next).next_id(other) == if other == kind {
                next
            } else {
                identities.next_id(other)
            },
{
}

/// The analyzer starts with nothing, in the namespace `Global`.
pub proof fn lemma_start<T>()
    ensures
        ({
            let s = pil_analyzer::initial::<T>();
            &&& s.namespace == "Global"@
            &&& s.polynomial_degree == 0
            &&& s.constants == Map::<Seq<char>, T>::empty()
            &&& s.definitions.dom() == Set::<Seq<char>>::empty()
            &&& s.public_declarations.dom() == Set::<Seq<char>>::empty()
            &&& s.identities.len() == 0
            &&& s.source_order.len() == 0
            &&& s.included_files == Set::<Seq<char>>::empty()
            &&& s.line_starts.len() == 0
            &&& s.current_file is None
            &&& forall|kind: SymbolKind| #[trigger] s.symbol_counters.next_id(kind) == 0
            &&& forall|kind: IdentityKind| #[trigger]
                s.identity_counter.next_id(kind) == 0
        }),
{
    let s = pil_analyzer::initial::<T>();
    assert(s.definitions.dom() =~= Set::<Seq<char>>::empty());
    assert(s.public_declarations.dom() =~= Set::<Seq<char>>::empty());
}

/// Nothing but the definitions, the order and the symbol counters differs.
pub open spec fn same_but_definitions<T>(s: AnalyzerView<T>, t: AnalyzerView<T>) -> bool {
    &&& t.namespace == s.namespace
    &&& t.polynomial_degree == s.polynomial_degree
    &&& t.constants == s.constants
    &&& t.public_declarations == s.public_declarations
    &&& t.identities == s.identities
    &&& t.included_files == s.included_files
    &&& t.line_starts == s.line_starts
    &&& t.current_file == s.current_file
    &&& t.identity_counter == s.identity_counter
}

/// A definition stands under its absolute name. It has the next id of its kind,
/// the degree of the namespace, and as its length the value of the array size, if
/// one was given. The next id of its kind rises by that length, or by one where
/// there is none. It has a value exactly if one was given. All else stays as it
/// was.
pub proof fn lemma_defined<T: FieldElement>(
    s: AnalyzerView<T>,
    source: SourceRefView,
    name: Seq<char>,
    array_size: Option<Expression<T>>,
    kind: SymbolKind,
    value: Option<FunctionDefinition<T>>,
)
    ensures
        statements::define(s, source, name, array_size, kind, value) matches Ok(t) ==> {
            let absolute = expressions::absolute_name(s.scope(), name);
            let symbol = t.definitions[absolute].0;
            let processed = t.definitions[absolute].1;
            &&& !s.definitions.contains_key(absolute)
            &&& t.definitions.dom() == s.definitions.dom().insert(absolute)
            &&& forall|other: Seq<char>| #[trigger]
                s.definitions.contains_key(other) ==> t.definitions[other] == s.definitions[other]
            &&& symbol.id == s.symbol_counters.next_id(kind)
            &&& symbol.source == source
            &&& symbol.absolute_name == absolute
            &&& symbol.degree == s.polynomial_degree
            &&& symbol.kind == kind
            &&& symbol.length is Some <==> array_size is Some
            &&& array_size matches Some(size) ==> {
                &&& evaluation::evaluate_degree(s.constants, size) matches Ok(length)
                &&& symbol.length == Some(length)
                &&& t.symbol_counters.next_id(kind) == s.symbol_counters.next_id(kind) + length
            }
            &&& array_size is None ==> t.symbol_counters.next_id(kind)
                == s.symbol_counters.next_id(kind) + 1
            &&& forall|other: SymbolKind|
                other != kind ==> #[trigger] t.symbol_counters.next_id(other)
                    == s.symbol_counters.next_id(other)
            &&& processed is Some <==> value is Some
            &&& value matches Some(v) ==> (statements::process_value(s, kind, v) matches Ok(p)
                && processed == Some(p))
            &&& t.source_order.len() == s.source_order.len() + 1
            &&& t.source_order.last() == StatementIdentifierView::Definition(absolute)
            &&& t.source_order.drop_last() == s.source_order
            &&& same_but_definitions(s, t)
        },
{
    if let Ok(t) = statements::define(s, source, name, array_size, kind, value) {
        assert(t.definitions.dom() =~= s.definitions.dom().insert(
            expressions::absolute_name(s.scope(), name),
        ));
        assert(t.source_order.drop_last() =~= s.source_order);
    }
}

/// A definition is rejected exactly if its array size is no degree, if it has both
/// a size and a value, if the ids run out, if its value is rejected or if its name
/// is taken, and the first of these is the error.
pub proof fn lemma_definition_rejected<T: FieldElement>(
    s: AnalyzerView<T>,
    source: SourceRefView,
    name: Seq<char>,
    array_size: Option<Expression<T>>,
    kind: SymbolKind,
    value: Option<FunctionDefinition<T>>,
)
    ensures
        ({
            let result = statements::define(s, source, name, array_size, kind, value);
            let absolute = expressions::absolute_name(s.scope(), name);
            let size = match array_size {
                None => Ok(1u64),
                Some(e) => evaluation::evaluate_degree(s.constants, e),
            };
            let processed: Option<AnalysisErrorView> = match value {
                None => None,
                Some(v) => match statements::process_value(s, kind, v) {
                    Ok(_) => None,
                    Err(error) => Some(error),
                },
            };
            match size {
                Err(error) => result matches Err(e) && e == error,
                Ok(taken) => if array_size is Some && value is Some {
                    result matches Err(e) && e == AnalysisErrorView::ArraySizeWithValue
                } else if s.symbol_counters.next_id(kind) + taken > u64::MAX {
                    result matches Err(e) && e == AnalysisErrorView::TooManySymbols
                } else if processed is Some {
                    result matches Err(e) && Some(e) == processed
                } else if s.definitions.contains_key(absolute) {
                    result matches Err(e) && e == AnalysisErrorView::AlreadyDefined(absolute)
                } else {
                    result is Ok
                },
            }
        }),
{
}

/// A function of the row and a prover query with the same parameters and body get
/// the same body, and it is the body of the function with these parameters in an
/// expression. A function of the row defines fixed columns, a query witness
/// columns.
pub proof fn lemma_functions_of_columns<T: FieldElement>(
    s: AnalyzerView<T>,
    kind: SymbolKind,
    params: Vec<String>,
    body: Expression<T>,
)
    ensures
        ({
            let function = expressions::process(
                s.scope(),
                Expression::LambdaExpression(LambdaExpression { params, body: Box::new(body) }),
            );
            let mapping = statements::process_value(
                s,
                kind,
                FunctionDefinition::Mapping(params, body),
            );
            let query = statements::process_value(s, kind, FunctionDefinition::Query(params, body));
            &&& kind == SymbolKind::Poly(PolynomialType::Constant) ==> {
                &&& function matches Ok(f) ==> mapping matches Ok(v) && v
                    == FunctionValueDefinitionView::Mapping(*f->LambdaExpression_1)
                &&& function matches Err(error) ==> mapping matches Err(e) && e == error
            }
            &&& kind == SymbolKind::Poly(PolynomialType::Committed) ==> {
                &&& function matches Ok(f) ==> query matches Ok(v) && v
                    == FunctionValueDefinitionView::Query(*f->LambdaExpression_1)
                &&& function matches Err(error) ==> query matches Err(e) && e == error
            }
            &&& kind != SymbolKind::Poly(PolynomialType::Constant) ==> (mapping matches Err(e) && e
                == AnalysisErrorView::DefinitionKindMismatch)
            &&& kind != SymbolKind::Poly(PolynomialType::Committed) ==> (query matches Err(e) && e
                == AnalysisErrorView::DefinitionKindMismatch)
        }),
{
}

/// The body of a function of the row, or of a prover query, is processed where the
/// parameters are the only local variables. The parameter at each position is the
/// local variable of that number, where of several with one name the last counts.
pub proof fn lemma_parameters_of_columns<T: FieldElement>(
    s: AnalyzerView<T>,
    params: Vec<String>,
    body: Expression<T>,
    inside: Map<Seq<char>, u64>,
    k: int,
    parameter: ShiftedPolynomialReference<T>,
)
    requires
        forms::locals_inside(Map::empty(), params@, inside),
        0 <= k < params@.len(),
        forall|i: int| k < i < params@.len() ==> (#[trigger] params@[i])@ != params@[k]@,
        parameter.pol.namespace is None,
        parameter.pol.name@ == params@[k]@,
        parameter.pol.index is None,
        !parameter.is_next,
    ensures
        ({
            let scope = expressions::Scope {
                constants: s.constants,
                namespace: s.namespace,
                locals: inside,
            };
            let mapping = statements::process_value(
                s,
                SymbolKind::Poly(PolynomialType::Constant),
                FunctionDefinition::Mapping(params, body),
            );
            let query = statements::process_value(
                s,
                SymbolKind::Poly(PolynomialType::Committed),
                FunctionDefinition::Query(params, body),
            );
            &&& match expressions::process(scope, body) {
                Ok(e) => {
                    &&& mapping matches Ok(v) && v == FunctionValueDefinitionView::Mapping(e)
                    &&& query matches Ok(v) && v == FunctionValueDefinitionView::Query(e)
                },
                Err(error) => {
                    &&& mapping matches Err(e) && e == error
                    &&& query matches Err(e) && e == error
                },
            }
            &&& expressions::process(scope, Expression::Reference(parameter)) matches Ok(e)
            &&& e == analyzed::ExpressionView::<T>::Reference(
                ReferenceView::LocalVar(k as u64, params@[k]@),
            )
        }),
{
    let function = LambdaExpression { params, body: Box::new(body) };
    assert(params.len() == params@.len());
    forms::lemma_functions(s.scope(), function, inside);
    assert(params@[inside[params@[k]@] as int]@ == params@[k]@);
}

/// The value of an intermediate polynomial, or of what is no column, is what
/// becomes of the expression. Witness and fixed columns have no such value.
pub proof fn lemma_expression_values<T: FieldElement>(
    s: AnalyzerView<T>,
    kind: SymbolKind,
    e: Expression<T>,
)
    ensures
        ({
            let processed = expressions::process(s.scope(), e);
            let value = statements::process_value(s, kind, FunctionDefinition::Expression(e));
            if kind == SymbolKind::Poly(PolynomialType::Intermediate) || kind
                == SymbolKind::Other() {
                &&& processed matches Ok(p) ==> value matches Ok(v) && v
                    == FunctionValueDefinitionView::Expression(p)
                &&& processed matches Err(error) ==> value matches Err(found) && found == error
            } else {
                value matches Err(found) && found == AnalysisErrorView::DefinitionKindMismatch
            }
        }),
{
}

/// The value of a column that is given by an array are the parts of the array,
/// which have as many rows as the degree says.
pub proof fn lemma_array_values<T: FieldElement>(
    s: AnalyzerView<T>,
    kind: SymbolKind,
    array: ArrayExpression<T>,
)
    ensures
        ({
            let value = statements::process_value(s, kind, FunctionDefinition::Array(array));
            let degree = s.polynomial_degree;
            let left = degree - array.constant_length();
            let parts = arrays::process_array(s.scope(), array, left as DegreeType);
            if array.repetitions() > 1 {
                value matches Err(e) && e == AnalysisErrorView::RepeatedMoreThanOnce
            } else if left < 0 {
                value matches Err(e) && e == AnalysisErrorView::ArrayTooLarge
            } else if parts is Err {
                value matches Err(e) && parts matches Err(error) && e == error
            } else if rows(parts->Ok_0) != degree {
                value matches Err(e) && e == AnalysisErrorView::ArraySizeMismatch
            } else {
                value matches Ok(v) && v == FunctionValueDefinitionView::Array(parts->Ok_0)
            }
        }),
{
    let left = s.polynomial_degree - array.constant_length();
    if left >= 0 {
        if let Ok(parts) = arrays::process_array(s.scope(), array, left as DegreeType) {
            lemma_rows(parts);
        }
    }
}

/// The number of rows in all parts together.
pub open spec fn rows<T>(parts: Seq<RepeatedArrayView<T>>) -> int {
    parts.fold_left(0, |sum: int, part: RepeatedArrayView<T>| sum + part.size)
}

proof fn lemma_rows<T>(parts: Seq<RepeatedArrayView<T>>)
    ensures
        rows(parts) == arrays::total_size(parts),
    decreases parts.len(),
{
    if parts.len() > 0 {
        lemma_rows(parts.drop_last());
    }
}

/// How long the parts are that do not repeat and how many repeat adds up over the
/// parts of an array.
pub proof fn lemma_array_lengths<T>(
    items: Vec<Expression<T>>,
    left: Box<ArrayExpression<T>>,
    right: Box<ArrayExpression<T>>,
)
    ensures
        ArrayExpression::Value(items).constant_length() == items@.len(),
        ArrayExpression::Value(items).repetitions() == 0,
        ArrayExpression::RepeatedValue(items).constant_length() == 0,
        ArrayExpression::RepeatedValue(items).repetitions() == 1,
        ArrayExpression::Concat(left, right).constant_length() == left.constant_length()
            + right.constant_length(),
        ArrayExpression::Concat(left, right).repetitions() == left.repetitions()
            + right.repetitions(),
{
}

/// The rows that are left for the part that repeats are those of the degree
/// without those of the other parts.
pub proof fn lemma_array_solution<T>(array: ArrayExpression<T>, degree: DegreeType)
    ensures
        array.solution(degree) matches Ok(size) ==> array.repetitions() <= 1 && size
            + array.constant_length() == degree,
        array.repetitions() <= 1 && array.constant_length() <= degree ==> array.solution(degree)
            is Ok,
        array.repetitions() > 1 ==> (array.solution(degree) matches Err(e) && e
            == AnalysisErrorView::RepeatedMoreThanOnce),
        array.repetitions() <= 1 && array.constant_length() > degree ==> (array.solution(
            degree,
        ) matches Err(e) && e == AnalysisErrorView::ArrayTooLarge),
{
}

/// A list of values is one part with a row for each. A list that repeats is one
/// part with the given number of rows, or none if there are no rows. In each, the
/// values are processed each on its own and stay in their places. The parts of
/// two arrays one after the other are the parts of the one and those of the other.
pub proof fn lemma_array_parts<T: FieldElement>(
    scope: expressions::Scope<T>,
    items: Vec<Expression<T>>,
    left: Box<ArrayExpression<T>>,
    right: Box<ArrayExpression<T>>,
    size: DegreeType,
)
    ensures
        ({
            let once = arrays::process_array(scope, ArrayExpression::Value(items), size);
            let again = arrays::process_array(scope, ArrayExpression::RepeatedValue(items), size);
            &&& once matches Ok(parts) ==> {
                &&& parts.len() == 1
                &&& parts[0].size == items@.len()
                &&& forms::each_processed(scope, items@, Ok(parts[0].pattern))
            }
            &&& once matches Err(error) ==> forms::each_processed(scope, items@, Err(error))
            &&& size == 0 ==> (again matches Ok(parts) && parts.len() == 0)
            &&& size > 0 ==> {
                &&& again matches Ok(parts) ==> {
                    &&& parts.len() == 1
                    &&& parts[0].size == size
                    &&& items@.len() > 0
                    &&& forms::each_processed(scope, items@, Ok(parts[0].pattern))
                }
                &&& items@.len() == 0 ==> (again matches Err(error) && error
                    == AnalysisErrorView::EmptyPattern)
                &&& items@.len() > 0 ==> (again matches Err(error) ==> forms::each_processed(
                    scope,
                    items@,
                    Err(error),
                ))
            }
        }),
        ({
            let l = arrays::process_array(scope, *left, size);
            let r = arrays::process_array(scope, *right, size);
            let both = arrays::process_array(scope, ArrayExpression::Concat(left, right), size);
            &&& both is Ok <==> l is Ok && r is Ok
            &&& both matches Ok(parts) ==> parts == l->Ok_0 + r->Ok_0
            &&& l matches Err(error) ==> (both matches Err(e) && e == error)
            &&& l is Ok ==> (r matches Err(error) ==> both matches Err(e) && e == error)
        }),
{
    forms::lemma_lists(scope, items@);
    assert(items.len() == items@.len());
}

/// Rows can be filled by a pattern that has values, and no rows by any.
pub proof fn lemma_patterns<T>(pattern: Seq<analyzed::ExpressionView<T>>, size: DegreeType)
    ensures
        pattern.len() > 0 || size == 0 ==> (analyzed::repeated_array(pattern, size) matches Ok(part)
            && part.pattern == pattern && part.size == size),
        pattern.len() == 0 && size > 0 ==> (analyzed::repeated_array(pattern, size) matches Err(
            error,
        ) && error == AnalysisErrorView::EmptyPattern),
{
}

/// Declaring no polynomial changes nothing. Declaring one is defining it without a
/// value.
pub proof fn lemma_declared<T: FieldElement>(
    s: AnalyzerView<T>,
    source: SourceRefView,
    polynomial: PolynomialName<T>,
    polynomial_type: PolynomialType,
)
    ensures
        statements::declare(s, source, Seq::<PolynomialName<T>>::empty(), polynomial_type).0 == s,
        statements::declare(s, source, Seq::<PolynomialName<T>>::empty(), polynomial_type).1 is Ok,
        ({
            let defined = statements::define(
                s,
                source,
                polynomial.name@,
                polynomial.array_size,
                SymbolKind::Poly(polynomial_type),
                None,
            );
            let (t, outcome) = statements::declare(s, source, seq![polynomial], polynomial_type);
            &&& defined matches Ok(expected) ==> t == expected && outcome is Ok
            &&& defined matches Err(error) ==> t == s && (outcome matches Err(e) && e == error)
        }),
{
    let one = seq![polynomial];
    assert(one.drop_last() =~= Seq::<PolynomialName<T>>::empty());
    assert(statements::declare(s, source, one.drop_last(), polynomial_type) == (
        s,
        Ok::<(), AnalysisErrorView>(()),
    ));
}

/// A part of a definition is that definition.
pub proof fn lemma_definition_parts<'a, T>(
    array: &'a ArrayExpression<T>,
    params: &'a Vec<String>,
    e: &'a Expression<T>,
)
    ensures
        DefinitionPart::Array(array).definition() == FunctionDefinition::Array(*array),
        DefinitionPart::Mapping(params, e).definition() == FunctionDefinition::Mapping(*params, *e),
        DefinitionPart::Query(params, e).definition() == FunctionDefinition::Query(*params, *e),
        DefinitionPart::Expression(e).definition() == FunctionDefinition::Expression(*e),
        handlers::definition_of(Some(DefinitionPart::Array(array))) == Some(
            FunctionDefinition::Array(*array),
        ),
        handlers::definition_of(Some(DefinitionPart::Mapping(params, e))) == Some(
            FunctionDefinition::Mapping(*params, *e),
        ),
        handlers::definition_of(Some(DefinitionPart::Query(params, e))) == Some(
            FunctionDefinition::Query(*params, *e),
        ),
        handlers::definition_of(Some(DefinitionPart::Expression(e))) == Some(
            FunctionDefinition::Expression(*e),
        ),
        handlers::definition_of(None::<DefinitionPart<'a, T>>) is None,
        handlers::expression_of(Some(e)) == Some(*e),
        handlers::expression_of(None::<&'a Expression<T>>) is None,
{
}

} // verus!
