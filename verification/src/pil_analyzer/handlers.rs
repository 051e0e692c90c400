//! The handling of statements.
use vstd::prelude::*;

use crate::analyzed;
use crate::analyzed::{
    FunctionValueDefinition, Identity, IdentityKind, PolynomialType, PublicDeclaration, SourceRef,
    SourceRefView, StatementIdentifier, Symbol, SymbolKind,
};
use crate::error;
use crate::error::{AnalysisError, AnalysisErrorView, Outcome};
use crate::laws::states;
use crate::lines;
use crate::name_map::NameMap;
use crate::number::{DegreeType, FieldElement};
use crate::parsed::{
    ArrayExpression, Expression, FunctionDefinition, NamespacedPolynomialReference, PilStatement,
    PolynomialName, SelectedExpressions,
};
use crate::pil_analyzer;
use crate::pil_analyzer::statements;
use crate::pil_analyzer::statements::IdentityBody;
use crate::pil_analyzer::{AnalyzerView, PILAnalyzer};

verus! {

/// A [`FunctionDefinition`] whose parts belong to a statement.
pub enum DefinitionPart<'a, T> {
    Array(&'a ArrayExpression<T>),
    Mapping(&'a Vec<String>, &'a Expression<T>),
    Query(&'a Vec<String>, &'a Expression<T>),
    Expression(&'a Expression<T>),
}

impl<'a, T> DefinitionPart<'a, T> {
    /// The definition that this is part of.
    pub open spec fn definition(self) -> FunctionDefinition<T> {
        match self {
            DefinitionPart::Array(array) => FunctionDefinition::Array(*array),
            DefinitionPart::Mapping(params, body) => FunctionDefinition::Mapping(*params, *body),
            DefinitionPart::Query(params, body) => FunctionDefinition::Query(*params, *body),
            DefinitionPart::Expression(e) => FunctionDefinition::Expression(*e),
        }
    }

    pub(crate) fn of(definition: &'a FunctionDefinition<T>) -> (part: DefinitionPart<'a, T>)
        ensures
            part.definition() == *definition,
    {
        match definition {
            FunctionDefinition::Array(array) => DefinitionPart::Array(array),
            FunctionDefinition::Mapping(params, body) => DefinitionPart::Mapping(params, body),
            FunctionDefinition::Query(params, body) => DefinitionPart::Query(params, body),
            FunctionDefinition::Expression(e) => DefinitionPart::Expression(e),
        }
    }
}

pub open spec fn definition_of<'a, T>(part: Option<DefinitionPart<'a, T>>) -> Option<
    FunctionDefinition<T>,
> {
    match part {
        None => None,
        Some(p) => Some(p.definition()),
    }
}

pub open spec fn expression_of<'a, T>(e: Option<&'a Expression<T>>) -> Option<Expression<T>> {
    match e {
        None => None,
        Some(e) => Some(*e),
    }
}

/// The analyzer went from `before` to `after`, or stayed where it was, as
/// `expected` says.
pub open spec fn settled<T, R>(
    before: AnalyzerView<T>,
    after: AnalyzerView<T>,
    result: Result<R, AnalysisError>,
    expected: Outcome<AnalyzerView<T>>,
) -> bool {
    match result {
        Ok(_) => expected == Ok::<AnalyzerView<T>, AnalysisErrorView>(after),
        Err(error) => after == before && expected == Err::<AnalyzerView<T>, AnalysisErrorView>(
            error@,
        ),
    }
}

/// The analyzer went to `after` as `expected` says.
pub open spec fn moved<T>(
    after: AnalyzerView<T>,
    result: Result<(), AnalysisError>,
    expected: (AnalyzerView<T>, Outcome<()>),
) -> bool {
    after == expected.0 && error::agrees_exactly(result, expected.1)
}

impl<T: FieldElement> PILAnalyzer<T> {
    /// The place of an offset into the current file.
    pub fn to_source_ref(&self, start: usize) -> (result: Result<SourceRef, AnalysisError>)
        requires
            self.wf(),
        ensures
            error::agrees(result, statements::source_ref(self@, start)),
    {
        match &self.current_file {
            None => Err(AnalysisError::NoFileName),
            Some(file) => {
                let line = lines::offset_to_line(start, &self.line_starts);
                Ok(SourceRef { line, file: file.clone() })
            },
        }
    }

    /// The value of a definition of a symbol of `kind`.
    fn process_definition(&self, kind: SymbolKind, value: &DefinitionPart<'_, T>) -> (result: Result<
        FunctionValueDefinition<T>,
        AnalysisError,
    >)
        requires
            self.wf(),
        ensures
            error::agrees(result, statements::process_value(self@, kind, value.definition())),
    {
        assert(self.scope(Map::empty()) == self@.scope());
        let locals: NameMap<u64> = NameMap::new();
        match value {
            DefinitionPart::Expression(e) => {
                if !(kind == SymbolKind::Other() || kind == SymbolKind::Poly(
                    PolynomialType::Intermediate,
                )) {
                    return Err(AnalysisError::DefinitionKindMismatch);
                }
                match self.process_expression(&locals, e) {
                    Err(error) => Err(error),
                    Ok(e) => Ok(FunctionValueDefinition::Expression(e)),
                }
            },
            DefinitionPart::Mapping(params, body) => {
                if kind != SymbolKind::Poly(PolynomialType::Constant) {
                    return Err(AnalysisError::DefinitionKindMismatch);
                }
                match self.process_function(&locals, params, body) {
                    Err(error) => Err(error),
                    Ok(e) => Ok(FunctionValueDefinition::Mapping(e)),
                }
            },
            DefinitionPart::Query(params, body) => {
                if kind != SymbolKind::Poly(PolynomialType::Committed) {
                    return Err(AnalysisError::DefinitionKindMismatch);
                }
                match self.process_function(&locals, params, body) {
                    Err(error) => Err(error),
                    Ok(e) => Ok(FunctionValueDefinition::Query(e)),
                }
            },
            DefinitionPart::Array(array) => match self.process_column_values(
                array,
                self.polynomial_degree,
            ) {
                Err(error) => Err(error),
                Ok(parts) => Ok(FunctionValueDefinition::Array(parts)),
            },
        }
    }

    /// Defines a symbol and returns its id.
    pub fn handle_polynomial_definition(
        &mut self,
        source: SourceRef,
        name: &String,
        array_size: Option<&Expression<T>>,
        symbol_kind: SymbolKind,
        value: Option<DefinitionPart<'_, T>>,
    ) -> (result: Result<u64, AnalysisError>)
        requires
            old(self).wf(),
        ensures
            final(self).wf(),
            settled(
                old(self)@,
                final(self)@,
                result,
                statements::define(
                    old(self)@,
                    source@,
                    name@,
                    expression_of(array_size),
                    symbol_kind,
                    definition_of(value),
                ),
            ),
            result matches Ok(id) ==> id == old(self)@.symbol_counters.next_id(symbol_kind),
            states::orderly(old(self)@) ==> states::orderly(final(self)@),
    {
        let length: Option<DegreeType> = match array_size {
            None => None,
            Some(e) => match self.evaluate_to_degree(e) {
                Err(error) => return Err(error),
                Ok(length) => Some(length),
            },
        };
        if length.is_some() && value.is_some() {
            return Err(AnalysisError::ArraySizeWithValue);
        }
        let id = self.symbol_counters.get(symbol_kind);
        let taken: DegreeType = match length {
            None => 1,
            Some(n) => n,
        };
        let next = match id.checked_add(taken) {
            None => return Err(AnalysisError::TooManySymbols),
            Some(next) => next,
        };
        assert(self.scope(Map::empty()) == self@.scope());
        let absolute_name = self.namespaced(name.as_str());
        let processed = match &value {
            None => None,
            Some(part) => match self.process_definition(symbol_kind, part) {
                Err(error) => return Err(error),
                Ok(v) => Some(v),
            },
        };
        if self.definitions.contains_key(absolute_name.as_str()) {
            return Err(AnalysisError::AlreadyDefined(absolute_name));
        }
        let symbol = Symbol {
            id,
            source,
            absolute_name: absolute_name.clone(),
            degree: self.polynomial_degree,
            kind: symbol_kind,
            length,
        };
        let ghost expected = statements::with_definition(
            self@,
            source@,
            absolute_name@,
            length,
            symbol_kind,
            analyzed::value_view(processed),
        );
        self.symbol_counters.set(symbol_kind, next);
        self.definitions.insert(absolute_name.clone(), (symbol, processed));
        self.source_order.push(StatementIdentifier::Definition(absolute_name));
        assert(self@.definitions =~= expected.definitions);
        assert(self@.source_order =~= expected.source_order);
        assert(self@ =~= expected);
        proof {
            if states::orderly(old(self)@) {
                states::lemma_define_consistent(
                    old(self)@,
                    source@,
                    name@,
                    expression_of(array_size),
                    symbol_kind,
                    definition_of(value),
                );
            }
        }
        Ok(id)
    }

    /// Defines polynomials without values.
    pub fn handle_polynomial_declarations(
        &mut self,
        source: SourceRef,
        polynomials: &Vec<PolynomialName<T>>,
        polynomial_type: PolynomialType,
    ) -> (result: Result<(), AnalysisError>)
        requires
            old(self).wf(),
        ensures
            final(self).wf(),
            moved(
                final(self)@,
                result,
                statements::declare(old(self)@, source@, polynomials@, polynomial_type),
            ),
    {
        let ghost start = self@;
        let mut i: usize = 0;
        assert(polynomials@.take(0).len() == 0);
        while i < polynomials.len()
            invariant
                self.wf(),
                start == old(self)@,
                i <= polynomials@.len(),
                statements::declare(
                    start,
                    source@,
                    polynomials@.take(i as int),
                    polynomial_type,
                ) == (self@, Ok::<(), AnalysisErrorView>(())),
            decreases polynomials@.len() - i,
        {
            let polynomial = &polynomials[i];
            assert(polynomials@.take(i + 1).drop_last() =~= polynomials@.take(i as int));
            assert(polynomials@.take(i + 1).last() == *polynomial);
            let array_size = match &polynomial.array_size {
                None => None,
                Some(e) => Some(e),
            };
            match self.handle_polynomial_definition(
                source.clone(),
                &polynomial.name,
                array_size,
                SymbolKind::Poly(polynomial_type),
                None,
            ) {
                Err(error) => {
                    proof {
                        lemma_declare_error(start, source@, polynomials@, polynomial_type, i + 1);
                    }
                    return Err(error);
                },
                Ok(_) => {},
            }
            i = i + 1;
        }
        assert(polynomials@.take(i as int) =~= polynomials@);
        Ok(())
    }

    /// Declares a public value.
    pub fn handle_public_declaration(
        &mut self,
        source: SourceRef,
        name: &String,
        poly: &NamespacedPolynomialReference<T>,
        index: &Expression<T>,
    ) -> (result: Result<(), AnalysisError>)
        requires
            old(self).wf(),
        ensures
            final(self).wf(),
            settled(
                old(self)@,
                final(self)@,
                result,
                statements::declare_public(old(self)@, source@, name@, *poly, *index),
            ),
    {
        assert(self.scope(Map::empty()) == self@.scope());
        let polynomial = match self.process_namespaced_polynomial_reference(poly) {
            Err(error) => return Err(error),
            Ok(polynomial) => polynomial,
        };
        let row = match self.evaluate_to_degree(index) {
            Err(error) => return Err(error),
            Ok(row) => row,
        };
        let id: u64 = self.public_declarations.len() as u64;
        assert(self@.public_declarations.dom() =~= self.public_declarations@.dom());
        let declaration = PublicDeclaration {
            id,
            source,
            name: name.clone(),
            polynomial,
            index: row,
        };
        self.public_declarations.insert(name.clone(), declaration);
        self.source_order.push(StatementIdentifier::PublicDeclaration(name.clone()));
        proof {
            let expected = statements::declare_public(
                old(self)@,
                source@,
                name@,
                *poly,
                *index,
            )->Ok_0;
            assert(self@.public_declarations =~= expected.public_declarations);
            assert(self@.source_order =~= expected.source_order);
            assert(self@ =~= expected);
        }
        Ok(())
    }

    /// Gives a constant its value.
    pub fn handle_constant_definition(&mut self, name: &String, value: T) -> (result: Result<
        (),
        AnalysisError,
    >)
        requires
            old(self).wf(),
        ensures
            final(self).wf(),
            settled(
                old(self)@,
                final(self)@,
                result,
                statements::define_constant(old(self)@, name@, value),
            ),
    {
        if self.constants.contains_key(name.as_str()) {
            return Err(AnalysisError::ConstantDefinedTwice(name.clone()));
        }
        self.constants.insert(name.clone(), value);
        assert(self@ =~= statements::define_constant(old(self)@, name@, value)->Ok_0);
        Ok(())
    }

    /// Opens a namespace.
    pub fn handle_namespace(&mut self, name: &String, degree: &Expression<T>) -> (result: Result<
        (),
        AnalysisError,
    >)
        requires
            old(self).wf(),
        ensures
            final(self).wf(),
            settled(
                old(self)@,
                final(self)@,
                result,
                statements::open_namespace(old(self)@, name@, *degree),
            ),
    {
        match self.evaluate_to_degree(degree) {
            Err(error) => Err(error),
            Ok(polynomial_degree) => {
                self.polynomial_degree = polynomial_degree;
                self.namespace = name.clone();
                assert(self@ =~= statements::open_namespace(old(self)@, name@, *degree)->Ok_0);
                Ok(())
            },
        }
    }

    /// Defines what `let` introduces.
    pub fn handle_generic_definition(
        &mut self,
        start: usize,
        name: &String,
        value: &Option<Expression<T>>,
    ) -> (result: Result<(), AnalysisError>)
        requires
            old(self).wf(),
        ensures
            final(self).wf(),
            settled(
                old(self)@,
                final(self)@,
                result,
                statements::define_generic(old(self)@, start, name@, *value),
            ),
    {
        match value {
            None => {
                // No value provided: treat it as a witness column.
                self.define_at_offset(
                    start,
                    name,
                    None,
                    SymbolKind::Poly(PolynomialType::Committed),
                    None,
                )
            },
            Some(e) => {
                if let Expression::LambdaExpression(lambda) = e {
                    if lambda.params.len() == 1 {
                        // A function of a single parameter: treat it as a fixed column.
                        return self.define_at_offset(
                            start,
                            name,
                            None,
                            SymbolKind::Poly(PolynomialType::Constant),
                            Some(DefinitionPart::Mapping(&lambda.params, &lambda.body)),
                        );
                    }
                }
                match self.evaluate_expression(e) {
                    Err(error) => Err(error),
                    // The value is a number: treat it as a constant.
                    Ok(Some(constant)) => self.handle_constant_definition(name, constant),
                    // Otherwise it is no column.
                    Ok(None) => self.define_at_offset(
                        start,
                        name,
                        None,
                        SymbolKind::Other(),
                        Some(DefinitionPart::Expression(e)),
                    ),
                }
            },
        }
    }

    /// Defines a symbol at the place of `start`.
    pub(crate) fn define_at_offset(
        &mut self,
        start: usize,
        name: &String,
        array_size: Option<&Expression<T>>,
        symbol_kind: SymbolKind,
        value: Option<DefinitionPart<'_, T>>,
    ) -> (result: Result<(), AnalysisError>)
        requires
            old(self).wf(),
        ensures
            final(self).wf(),
            settled(
                old(self)@,
                final(self)@,
                result,
                statements::define_at(
                    old(self)@,
                    start,
                    name@,
                    expression_of(array_size),
                    symbol_kind,
                    definition_of(value),
                ),
            ),
    {
        match self.to_source_ref(start) {
            Err(error) => Err(error),
            Ok(source) => match self.handle_polynomial_definition(
                source,
                name,
                array_size,
                symbol_kind,
                value,
            ) {
                Err(error) => Err(error),
                Ok(_) => Ok(()),
            },
        }
    }

    /// What the identity that `statement` is states: its offset, its kind and
    /// its two sides.
    fn process_identity(&self, statement: &PilStatement<T>) -> (result: Result<
        (
            usize,
            IdentityKind,
            SelectedExpressions<analyzed::Expression<T>>,
            SelectedExpressions<analyzed::Expression<T>>,
        ),
        AnalysisError,
    >)
        requires
            self.wf(),
        ensures
            match result {
                Ok((start, kind, left, right)) => statements::identity_body(self@, *statement) == Ok::<
                    IdentityBody<T>,
                    AnalysisErrorView,
                >(IdentityBody { start, kind, left: left@, right: right@ }),
                Err(error) => statements::identity_body(self@, *statement) == Err::<
                    IdentityBody<T>,
                    AnalysisErrorView,
                >(error@),
            },
    {
        assert(self.scope(Map::empty()) == self@.scope());
        let locals: NameMap<u64> = NameMap::new();
        match statement {
            PilStatement::PolynomialIdentity(start, e) => match self.process_expression(
                &locals,
                e,
            ) {
                Err(error) => Err(error),
                Ok(e) => {
                    let left = SelectedExpressions { selector: Some(e), expressions: Vec::new() };
                    let right = SelectedExpressions { selector: None, expressions: Vec::new() };
                    assert(left@.expressions =~= Seq::empty());
                    assert(right@.expressions =~= Seq::empty());
                    Ok((*start, IdentityKind::Polynomial, left, right))
                },
            },
            PilStatement::PlookupIdentity(start, key, haystack) => {
                let left = match self.process_selected_expression(key) {
                    Err(error) => return Err(error),
                    Ok(left) => left,
                };
                match self.process_selected_expression(haystack) {
                    Err(error) => Err(error),
                    Ok(right) => Ok((*start, IdentityKind::Plookup, left, right)),
                }
            },
            PilStatement::PermutationIdentity(start, left, right) => {
                let left = match self.process_selected_expression(left) {
                    Err(error) => return Err(error),
                    Ok(left) => left,
                };
                match self.process_selected_expression(right) {
                    Err(error) => Err(error),
                    Ok(right) => Ok((*start, IdentityKind::Permutation, left, right)),
                }
            },
            PilStatement::ConnectIdentity(start, left, right) => {
                let left = match self.process_expressions(&locals, left) {
                    Err(error) => return Err(error),
                    Ok(left) => left,
                };
                match self.process_expressions(&locals, right) {
                    Err(error) => Err(error),
                    Ok(right) => Ok(
                        (
                            *start,
                            IdentityKind::Connect,
                            SelectedExpressions { selector: None, expressions: left },
                            SelectedExpressions { selector: None, expressions: right },
                        ),
                    ),
                }
            },
            _ => Err(AnalysisError::NotAnIdentity),
        }
    }

    /// Adds the identity that `statement` is.
    pub fn handle_identity_statement(&mut self, statement: &PilStatement<T>) -> (result: Result<
        (),
        AnalysisError,
    >)
        requires
            old(self).wf(),
        ensures
            final(self).wf(),
            settled(
                old(self)@,
                final(self)@,
                result,
                statements::add_identity(old(self)@, *statement),
            ),
            states::orderly(old(self)@) ==> states::stays_consistent(old(self)@, final(self)@),
    {
        let (start, kind, left, right) = match self.process_identity(statement) {
            Err(error) => return Err(error),
            Ok(parts) => parts,
        };
        let source = match self.to_source_ref(start) {
            Err(error) => return Err(error),
            Ok(source) => source,
        };
        let ghost expected = statements::with_identity(
            self@,
            source@,
            IdentityBody { start, kind, left: left@, right: right@ },
        );
        let next = self.identity_counter.get(kind);
        let position: usize = self.identities.len();
        self.identities.push(Identity { id: next, kind, source, left, right });
        assert(self@.identities =~= expected.identities);
        proof {
            assert(self@.identities.drop_last() =~= old(self)@.identities);
            // There are no more identities than can be counted, so the ids do not run out.
            assert(self.identities.len() == self@.identities.len());
            assert(pil_analyzer::count_kind(old(self)@.identities, kind) == next);
            pil_analyzer::lemma_count_kind_bound(self@.identities, kind);
        }
        let id = self.identity_counter.dispense_id(kind);
        assert(id == next);
        self.source_order.push(StatementIdentifier::Identity(position));
        assert(self@.source_order =~= expected.source_order);
        assert(self@ =~= expected);
        assert forall|other: IdentityKind|
            self.identity_counter.next_id(other) == #[trigger] pil_analyzer::count_kind(
                self@.identities,
                other,
            ) by {
            assert(self@.identities.drop_last() =~= old(self)@.identities);
            assert(old(self).identity_counter.next_id(other) == pil_analyzer::count_kind(
                old(self)@.identities,
                other,
            ));
        }
        proof {
            if states::orderly(old(self)@) {
                self.lemma_statements_counted();
                states::lemma_add_identity_consistent(old(self)@, *statement);
            }
        }
        Ok(())
    }
}

/// An error in a front part is the error of the whole.
proof fn lemma_declare_error<T: FieldElement>(
    s: AnalyzerView<T>,
    source: SourceRefView,
    polynomials: Seq<PolynomialName<T>>,
    polynomial_type: PolynomialType,
    end: int,
)
    requires
        0 <= end <= polynomials.len(),
        statements::declare(s, source, polynomials.take(end), polynomial_type).1 is Err,
    ensures
        statements::declare(s, source, polynomials, polynomial_type) == statements::declare(
            s,
            source,
            polynomials.take(end),
            polynomial_type,
        ),
    decreases polynomials.len(),
{
    if end == polynomials.len() {
        assert(polynomials.take(end) =~= polynomials);
    } else {
        assert(polynomials.drop_last().take(end) =~= polynomials.take(end));
        lemma_declare_error(s, source, polynomials.drop_last(), polynomial_type, end);
    }
}

} // verus!
