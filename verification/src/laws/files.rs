//! Where a program stands does not matter: a file and a text of its own that hold
//! the same statements are the same program, but for the name of the file in its
//! places.
use vstd::prelude::*;

use crate::analyzed::{
    AnalyzedView, DefinitionView, ExpressionView, FunctionValueDefinitionView, IdentityView,
    MatchArmView, PolynomialType, PublicDeclarationView, ReferenceView, RepeatedArrayView,
    SelectedExpressionsView, SourceRefView, SymbolKind, SymbolView,
};
use crate::error::{AnalysisErrorView, Outcome};
use crate::laws::programs;
use crate::lines;
use crate::number::FieldElement;
use crate::parsed::{
    Expression, FunctionDefinition, NamespacedPolynomialReference, PilFile, PilStatement,
    PolynomialName,
};
use crate::pil_analyzer;
use crate::pil_analyzer::AnalyzerView;
use crate::pil_analyzer::resolution;
use crate::pil_analyzer::resolution::Names;
use crate::pil_analyzer::statements;

verus! {

/// The place in the file `file`.
pub open spec fn source_in(source: SourceRefView, file: Seq<char>) -> SourceRefView {
    SourceRefView { file, ..source }
}

/// The definition with its place in the file `file`.
pub open spec fn definition_in<T>(
    definition: DefinitionView<T>,
    file: Seq<char>,
) -> DefinitionView<T> {
    (SymbolView { source: source_in(definition.0.source, file), ..definition.0 }, definition.1)
}

pub open spec fn declaration_in(
    declaration: PublicDeclarationView,
    file: Seq<char>,
) -> PublicDeclarationView {
    PublicDeclarationView { source: source_in(declaration.source, file), ..declaration }
}

pub open spec fn identity_in<T>(identity: IdentityView<T>, file: Seq<char>) -> IdentityView<T> {
    IdentityView { source: source_in(identity.source, file), ..identity }
}

pub open spec fn definitions_in<T>(
    definitions: Map<Seq<char>, DefinitionView<T>>,
    file: Seq<char>,
) -> Map<Seq<char>, DefinitionView<T>> {
    definitions.map_values(|definition: DefinitionView<T>| definition_in(definition, file))
}

pub open spec fn declarations_in(
    declarations: Map<Seq<char>, PublicDeclarationView>,
    file: Seq<char>,
) -> Map<Seq<char>, PublicDeclarationView> {
    declarations.map_values(|declaration: PublicDeclarationView| declaration_in(declaration, file))
}

pub open spec fn identities_in<T>(identities: Seq<IdentityView<T>>, file: Seq<char>) -> Seq<
    IdentityView<T>,
> {
    identities.map_values(|identity: IdentityView<T>| identity_in(identity, file))
}

/// The program with all its places in the file `file`.
pub open spec fn program_in<T>(program: AnalyzedView<T>, file: Seq<char>) -> AnalyzedView<T> {
    AnalyzedView {
        definitions: definitions_in(program.definitions, file),
        public_declarations: declarations_in(program.public_declarations, file),
        identities: identities_in(program.identities, file),
        ..program
    }
}

/// The state of an analyzer that is in the file `file` and has all places there.
pub open spec fn state_in<T>(
    s: AnalyzerView<T>,
    file: Seq<char>,
    included_files: Set<Seq<char>>,
) -> AnalyzerView<T> {
    AnalyzerView {
        definitions: definitions_in(s.definitions, file),
        public_declarations: declarations_in(s.public_declarations, file),
        identities: identities_in(s.identities, file),
        current_file: Some(file),
        included_files,
        ..s
    }
}

/// `other` is `result`, its state in the file `file`.
spec fn same_outcome<T>(
    result: Outcome<AnalyzerView<T>>,
    other: Outcome<AnalyzerView<T>>,
    file: Seq<char>,
    included_files: Set<Seq<char>>,
) -> bool {
    match result {
        Err(error) => other == Err::<AnalyzerView<T>, AnalysisErrorView>(error),
        Ok(t) => t.current_file is Some && other == Ok::<AnalyzerView<T>, AnalysisErrorView>(
            state_in(t, file, included_files),
        ),
    }
}

/// `other` is `result`, its state in the file `file`.
spec fn same_step<T>(
    result: (AnalyzerView<T>, Outcome<()>),
    other: (AnalyzerView<T>, Outcome<()>),
    file: Seq<char>,
    included_files: Set<Seq<char>>,
) -> bool {
    &&& result.0.current_file is Some
    &&& other.0 == state_in(result.0, file, included_files)
    &&& other.1 == result.1
}

proof fn lemma_define_in<T: FieldElement>(
    s: AnalyzerView<T>,
    source: SourceRefView,
    name: Seq<char>,
    array_size: Option<Expression<T>>,
    kind: SymbolKind,
    value: Option<FunctionDefinition<T>>,
    file: Seq<char>,
    included_files: Set<Seq<char>>,
)
    requires
        s.current_file is Some,
    ensures
        same_outcome(
            statements::define(s, source, name, array_size, kind, value),
            statements::define(
                state_in(s, file, included_files),
                source_in(source, file),
                name,
                array_size,
                kind,
                value,
            ),
            file,
            included_files,
        ),
{
    let moved = state_in(s, file, included_files);
    assert(moved.scope() == s.scope());
    let result = statements::define(s, source, name, array_size, kind, value);
    let other = statements::define(
        moved,
        source_in(source, file),
        name,
        array_size,
        kind,
        value,
    );
    if let Ok(t) = result {
        let u = other->Ok_0;
        assert(u.definitions =~= definitions_in(t.definitions, file));
        assert(u =~= state_in(t, file, included_files));
    }
}

proof fn lemma_declare_in<T: FieldElement>(
    s: AnalyzerView<T>,
    source: SourceRefView,
    polynomials: Seq<PolynomialName<T>>,
    polynomial_type: PolynomialType,
    file: Seq<char>,
    included_files: Set<Seq<char>>,
)
    requires
        s.current_file is Some,
    ensures
        same_step(
            statements::declare(s, source, polynomials, polynomial_type),
            statements::declare(
                state_in(s, file, included_files),
                source_in(source, file),
                polynomials,
                polynomial_type,
            ),
            file,
            included_files,
        ),
    decreases polynomials.len(),
{
    if polynomials.len() > 0 {
        lemma_declare_in(
            s,
            source,
            polynomials.drop_last(),
            polynomial_type,
            file,
            included_files,
        );
        let front = statements::declare(s, source, polynomials.drop_last(), polynomial_type).0;
        let last = polynomials.last();
        lemma_define_in(
            front,
            source,
            last.name@,
            last.array_size,
            SymbolKind::Poly(polynomial_type),
            None,
            file,
            included_files,
        );
    }
}

proof fn lemma_declare_public_in<T: FieldElement>(
    s: AnalyzerView<T>,
    source: SourceRefView,
    name: Seq<char>,
    poly: NamespacedPolynomialReference<T>,
    index: Expression<T>,
    file: Seq<char>,
    included_files: Set<Seq<char>>,
)
    requires
        s.current_file is Some,
    ensures
        same_outcome(
            statements::declare_public(s, source, name, poly, index),
            statements::declare_public(
                state_in(s, file, included_files),
                source_in(source, file),
                name,
                poly,
                index,
            ),
            file,
            included_files,
        ),
{
    let moved = state_in(s, file, included_files);
    assert(moved.scope() == s.scope());
    assert(moved.public_declarations.dom() =~= s.public_declarations.dom());
    if let Ok(t) = statements::declare_public(s, source, name, poly, index) {
        let u = statements::declare_public(
            moved,
            source_in(source, file),
            name,
            poly,
            index,
        )->Ok_0;
        assert(u.public_declarations =~= declarations_in(t.public_declarations, file));
        assert(u =~= state_in(t, file, included_files));
    }
}

proof fn lemma_add_identity_in<T: FieldElement>(
    s: AnalyzerView<T>,
    statement: PilStatement<T>,
    file: Seq<char>,
    included_files: Set<Seq<char>>,
)
    requires
        s.current_file is Some,
    ensures
        same_outcome(
            statements::add_identity(s, statement),
            statements::add_identity(state_in(s, file, included_files), statement),
            file,
            included_files,
        ),
{
    let moved = state_in(s, file, included_files);
    assert(moved.scope() == s.scope());
    assert(statements::identity_body(moved, statement) == statements::identity_body(s, statement));
    if let Ok(t) = statements::add_identity(s, statement) {
        let u = statements::add_identity(moved, statement)->Ok_0;
        assert(u.identities =~= identities_in(t.identities, file));
        assert(u =~= state_in(t, file, included_files));
    }
}

proof fn lemma_define_generic_in<T: FieldElement>(
    s: AnalyzerView<T>,
    start: usize,
    name: Seq<char>,
    value: Option<Expression<T>>,
    file: Seq<char>,
    included_files: Set<Seq<char>>,
)
    requires
        s.current_file is Some,
    ensures
        same_outcome(
            statements::define_generic(s, start, name, value),
            statements::define_generic(state_in(s, file, included_files), start, name, value),
            file,
            included_files,
        ),
{
    let source = statements::source_ref(s, start)->Ok_0;
    match value {
        None => {
            let kind = SymbolKind::Poly(PolynomialType::Committed);
            lemma_define_in(s, source, name, None, kind, None, file, included_files);
        },
        Some(e) => {
            if e is LambdaExpression && e->LambdaExpression_0.params@.len() == 1 {
                let kind = SymbolKind::Poly(PolynomialType::Constant);
                let mapping = FunctionDefinition::Mapping(
                    e->LambdaExpression_0.params,
                    *e->LambdaExpression_0.body,
                );
                lemma_define_in(s, source, name, None, kind, Some(mapping), file, included_files);
            } else {
                let kind = SymbolKind::Other();
                let definition = FunctionDefinition::Expression(e);
                lemma_define_in(
                    s,
                    source,
                    name,
                    None,
                    kind,
                    Some(definition),
                    file,
                    included_files,
                );
            }
        },
    }
}

/// A statement that names no file does the same in every file.
proof fn lemma_statement_in<T: FieldElement>(
    s: AnalyzerView<T>,
    statement: PilStatement<T>,
    file: Seq<char>,
    included_files: Set<Seq<char>>,
)
    requires
        s.current_file is Some,
        !(statement is Include),
    ensures
        same_step(
            statements::handle(s, statement),
            statements::handle(state_in(s, file, included_files), statement),
            file,
            included_files,
        ),
{
    let moved = state_in(s, file, included_files);
    match statement {
        PilStatement::Include(_, _) => {},
        PilStatement::PolynomialDefinition(start, name, e) => {
            lemma_define_in(
                s,
                statements::source_ref(s, start)->Ok_0,
                name@,
                None,
                SymbolKind::Poly(PolynomialType::Intermediate),
                Some(FunctionDefinition::Expression(e)),
                file,
                included_files,
            );
        },
        PilStatement::PublicDeclaration(start, name, polynomial, index) => {
            lemma_declare_public_in(
                s,
                statements::source_ref(s, start)->Ok_0,
                name@,
                polynomial,
                index,
                file,
                included_files,
            );
        },
        PilStatement::PolynomialConstantDeclaration(start, polynomials) => {
            lemma_declare_in(
                s,
                statements::source_ref(s, start)->Ok_0,
                polynomials@,
                PolynomialType::Constant,
                file,
                included_files,
            );
        },
        PilStatement::PolynomialConstantDefinition(start, name, value) => {
            lemma_define_in(
                s,
                statements::source_ref(s, start)->Ok_0,
                name@,
                None,
                SymbolKind::Poly(PolynomialType::Constant),
                Some(value),
                file,
                included_files,
            );
        },
        PilStatement::PolynomialCommitDeclaration(start, polynomials, None) => {
            lemma_declare_in(
                s,
                statements::source_ref(s, start)->Ok_0,
                polynomials@,
                PolynomialType::Committed,
                file,
                included_files,
            );
        },
        PilStatement::PolynomialCommitDeclaration(start, polynomials, Some(value)) => {
            lemma_define_in(
                s,
                statements::source_ref(s, start)->Ok_0,
                polynomials@[0].name@,
                polynomials@[0].array_size,
                SymbolKind::Poly(PolynomialType::Committed),
                Some(value),
                file,
                included_files,
            );
        },
        PilStatement::LetStatement(start, name, value) => {
            lemma_define_generic_in(s, start, name@, value, file, included_files);
        },
        PilStatement::Namespace(_, _, _) => {},
        PilStatement::ConstantDefinition(_, _, _) => {},
        PilStatement::MacroDefinition(_, _, _, _, _) => {},
        _ => {
            lemma_add_identity_in(s, statement, file, included_files);
        },
    }
}

/// The statements name no files.
pub open spec fn names_no_files<T>(statements: Seq<PilStatement<T>>) -> bool {
    forall|i: int| 0 <= i < statements.len() ==> !((#[trigger] statements[i]) is Include)
}

proof fn lemma_statements_in<T: FieldElement>(
    s: AnalyzerView<T>,
    statements: Seq<PilStatement<T>>,
    file: Seq<char>,
    included_files: Set<Seq<char>>,
)
    requires
        s.current_file is Some,
        names_no_files(statements),
    ensures
        same_step(
            statements::handle_all(s, statements),
            statements::handle_all(state_in(s, file, included_files), statements),
            file,
            included_files,
        ),
    decreases statements.len(),
{
    if statements.len() > 0 {
        assert(statements[statements.len() - 1] == statements.last());
        lemma_statements_in(s, statements.drop_last(), file, included_files);
        let front = statements::handle_all(s, statements.drop_last()).0;
        lemma_statement_in(front, statements.last(), file, included_files);
    }
}

/// Names that mean the same lead to the same ids and the same errors.
proof fn lemma_resolve_same<T>(a: Names<T>, b: Names<T>, e: ExpressionView<T>)
    requires
        programs::same_names(a, b),
    ensures
        resolution::resolve(b, e) == resolution::resolve(a, e),
        resolution::first_error(b, e) == resolution::first_error(a, e),
    decreases e,
{
    match e {
        ExpressionView::Reference(ReferenceView::Poly(reference)) => {
            assert(resolution::column_id(a, reference.name) == resolution::column_id(
                b,
                reference.name,
            ));
        },
        ExpressionView::Tuple(items) => {
            lemma_resolve_all_same(a, b, items);
        },
        ExpressionView::ArrayLiteral(items) => {
            lemma_resolve_all_same(a, b, items);
        },
        ExpressionView::LambdaExpression(_, body) => {
            lemma_resolve_same(a, b, *body);
        },
        ExpressionView::BinaryOperation(left, _, right) => {
            lemma_resolve_same(a, b, *left);
            lemma_resolve_same(a, b, *right);
        },
        ExpressionView::UnaryOperation(_, value) => {
            lemma_resolve_same(a, b, *value);
        },
        ExpressionView::FunctionCall(_, arguments) => {
            lemma_resolve_all_same(a, b, arguments);
        },
        ExpressionView::MatchExpression(scrutinee, arms) => {
            lemma_resolve_same(a, b, *scrutinee);
            lemma_resolve_arms_same(a, b, arms);
        },
        _ => {},
    }
}

proof fn lemma_resolve_all_same<T>(a: Names<T>, b: Names<T>, items: Seq<ExpressionView<T>>)
    requires
        programs::same_names(a, b),
    ensures
        resolution::resolve_all(b, items) == resolution::resolve_all(a, items),
        resolution::first_error_in(b, items) == resolution::first_error_in(a, items),
    decreases items,
{
    assert forall|i: int| 0 <= i < items.len() implies resolution::resolve(b, #[trigger] items[i])
        == resolution::resolve(a, items[i]) by {
        lemma_resolve_same(a, b, items[i]);
    }
    assert(resolution::resolve_all(b, items) =~= resolution::resolve_all(a, items));
    if items.len() > 0 {
        lemma_resolve_all_same(a, b, items.drop_last());
        lemma_resolve_same(a, b, items.last());
    }
}

proof fn lemma_resolve_arm_same<T>(a: Names<T>, b: Names<T>, arm: MatchArmView<T>)
    requires
        programs::same_names(a, b),
    ensures
        resolution::resolve_arm(b, arm) == resolution::resolve_arm(a, arm),
        resolution::first_error_in_arm(b, arm) == resolution::first_error_in_arm(a, arm),
    decreases arm,
{
    if let Some(pattern) = arm.pattern {
        lemma_resolve_same(a, b, pattern);
    }
    lemma_resolve_same(a, b, arm.value);
}

proof fn lemma_resolve_arms_same<T>(a: Names<T>, b: Names<T>, arms: Seq<MatchArmView<T>>)
    requires
        programs::same_names(a, b),
    ensures
        resolution::resolve_arms(b, arms) == resolution::resolve_arms(a, arms),
        resolution::first_error_in_arms(b, arms) == resolution::first_error_in_arms(a, arms),
    decreases arms,
{
    assert forall|i: int| 0 <= i < arms.len() implies resolution::resolve_arm(b, #[trigger] arms[i])
        == resolution::resolve_arm(a, arms[i]) by {
        lemma_resolve_arm_same(a, b, arms[i]);
    }
    assert(resolution::resolve_arms(b, arms) =~= resolution::resolve_arms(a, arms));
    if arms.len() > 0 {
        lemma_resolve_arms_same(a, b, arms.drop_last());
        lemma_resolve_arm_same(a, b, arms.last());
    }
}

proof fn lemma_parts_same<T>(a: Names<T>, b: Names<T>, parts: Seq<RepeatedArrayView<T>>)
    requires
        programs::same_names(a, b),
    ensures
        parts.map_values(|part: RepeatedArrayView<T>| resolution::resolve_part(b, part))
            == parts.map_values(|part: RepeatedArrayView<T>| resolution::resolve_part(a, part)),
        resolution::first_error_in_parts(b, parts) == resolution::first_error_in_parts(a, parts),
    decreases parts.len(),
{
    assert forall|i: int| 0 <= i < parts.len() implies resolution::resolve_part(
        b,
        #[trigger] parts[i],
    ) == resolution::resolve_part(a, parts[i]) by {
        lemma_resolve_all_same(a, b, parts[i].pattern);
    }
    assert(parts.map_values(|part: RepeatedArrayView<T>| resolution::resolve_part(b, part))
        =~= parts.map_values(|part: RepeatedArrayView<T>| resolution::resolve_part(a, part)));
    if parts.len() > 0 {
        lemma_parts_same(a, b, parts.drop_last());
        lemma_resolve_all_same(a, b, parts.last().pattern);
    }
}

proof fn lemma_value_same<T>(a: Names<T>, b: Names<T>, value: FunctionValueDefinitionView<T>)
    requires
        programs::same_names(a, b),
    ensures
        resolution::resolve_value(b, value) == resolution::resolve_value(a, value),
        resolution::first_error_in_value(b, value) == resolution::first_error_in_value(a, value),
{
    match value {
        FunctionValueDefinitionView::Mapping(e) => {
            lemma_resolve_same(a, b, e);
        },
        FunctionValueDefinitionView::Array(parts) => {
            lemma_parts_same(a, b, parts);
        },
        FunctionValueDefinitionView::Query(e) => {
            lemma_resolve_same(a, b, e);
        },
        FunctionValueDefinitionView::Expression(e) => {
            lemma_resolve_same(a, b, e);
        },
    }
}

proof fn lemma_selected_same<T>(a: Names<T>, b: Names<T>, selected: SelectedExpressionsView<T>)
    requires
        programs::same_names(a, b),
    ensures
        resolution::resolve_selected(b, selected) == resolution::resolve_selected(a, selected),
        resolution::first_error_in_selected(b, selected) == resolution::first_error_in_selected(
            a,
            selected,
        ),
{
    if let Some(e) = selected.selector {
        lemma_resolve_same(a, b, e);
    }
    lemma_resolve_all_same(a, b, selected.expressions);
}

/// Both states hold the same, but for the file of the places.
spec fn alike<T>(s: AnalyzerView<T>, t: AnalyzerView<T>, file: Seq<char>) -> bool {
    &&& t.constants == s.constants
    &&& t.definitions == definitions_in(s.definitions, file)
    &&& t.public_declarations == declarations_in(s.public_declarations, file)
    &&& t.identities == identities_in(s.identities, file)
    &&& t.source_order == s.source_order
}

proof fn lemma_names_alike<T>(s: AnalyzerView<T>, t: AnalyzerView<T>, file: Seq<char>)
    requires
        alike(s, t, file),
    ensures
        programs::same_names(resolution::names_of(s), resolution::names_of(t)),
{
    let a = resolution::names_of(s);
    let b = resolution::names_of(t);
    assert forall|name: Seq<char>|
        resolution::column_id(a, name) == #[trigger] resolution::column_id(b, name) by {
        assert(a.definitions.contains_key(name) <==> b.definitions.contains_key(name));
        if a.definitions.contains_key(name) {
            assert(b.definitions[name] == definition_in(a.definitions[name], file));
        }
    }
}

proof fn lemma_errors_alike<T>(s: AnalyzerView<T>, t: AnalyzerView<T>, file: Seq<char>)
    requires
        alike(s, t, file),
    ensures
        ({
            let a = resolution::names_of(s);
            let b = resolution::names_of(t);
            &&& t.definitions.dom() == s.definitions.dom()
            &&& t.public_declarations.dom() == s.public_declarations.dom()
            &&& t.identities.len() == s.identities.len()
            &&& forall|name: Seq<char>| #[trigger]
                s.definitions.contains_key(name) ==> resolution::first_error_in_definition(
                    b,
                    t.definitions[name],
                ) == resolution::first_error_in_definition(a, s.definitions[name])
            &&& forall|i: int|
                0 <= i < s.identities.len() ==> resolution::first_error_in_identity(
                    b,
                    #[trigger] t.identities[i],
                ) == resolution::first_error_in_identity(a, s.identities[i])
            &&& forall|name: Seq<char>| #[trigger]
                s.public_declarations.contains_key(name) ==> resolution::first_error_in_declaration(
                    b,
                    t.public_declarations[name],
                ) == resolution::first_error_in_declaration(a, s.public_declarations[name])
        }),
{
    let a = resolution::names_of(s);
    let b = resolution::names_of(t);
    lemma_names_alike(s, t, file);
    assert(t.definitions.dom() =~= s.definitions.dom());
    assert(t.public_declarations.dom() =~= s.public_declarations.dom());
    assert forall|name: Seq<char>| #[trigger]
        s.definitions.contains_key(name) implies resolution::first_error_in_definition(
        b,
        t.definitions[name],
    ) == resolution::first_error_in_definition(a, s.definitions[name]) by {
        assert(t.definitions[name] == definition_in(s.definitions[name], file));
        if let Some(value) = s.definitions[name].1 {
            lemma_value_same(a, b, value);
        }
    }
    assert forall|i: int| 0 <= i < s.identities.len() implies resolution::first_error_in_identity(
        b,
        #[trigger] t.identities[i],
    ) == resolution::first_error_in_identity(a, s.identities[i]) by {
        assert(t.identities[i] == identity_in(s.identities[i], file));
        lemma_selected_same(a, b, s.identities[i].left);
        lemma_selected_same(a, b, s.identities[i].right);
    }
    assert forall|name: Seq<char>| #[trigger]
        s.public_declarations.contains_key(name) implies resolution::first_error_in_declaration(
        b,
        t.public_declarations[name],
    ) == resolution::first_error_in_declaration(a, s.public_declarations[name]) by {
        assert(t.public_declarations[name] == declaration_in(s.public_declarations[name], file));
        let reference = s.public_declarations[name].polynomial;
        assert(resolution::column_id(a, reference.name) == resolution::column_id(
            b,
            reference.name,
        ));
    }
}

proof fn lemma_resolved_alike<T>(s: AnalyzerView<T>, t: AnalyzerView<T>, file: Seq<char>)
    requires
        alike(s, t, file),
    ensures
        resolution::all_resolved(t) <==> resolution::all_resolved(s),
        forall|error: AnalysisErrorView|
            resolution::is_error_of(t, error) <==> #[trigger] resolution::is_error_of(s, error),
{
    lemma_errors_alike(s, t, file);
    assert forall|name: Seq<char>| #[trigger]
        t.definitions.contains_key(name) <==> s.definitions.contains_key(name) by {}
    assert forall|name: Seq<char>| #[trigger]
        t.public_declarations.contains_key(name) <==> s.public_declarations.contains_key(name) by {}
    if resolution::expressions_resolved(s) {
        assert forall|name: Seq<char>| #[trigger]
            t.definitions.contains_key(name) implies resolution::first_error_in_definition(
            resolution::names_of(t),
            t.definitions[name],
        ) is None by {
            assert(s.definitions.contains_key(name));
        }
        assert forall|i: int|
            0 <= i < t.identities.len() implies resolution::first_error_in_identity(
            resolution::names_of(t),
            #[trigger] t.identities[i],
        ) is None by {
            assert(resolution::first_error_in_identity(
                resolution::names_of(s),
                s.identities[i],
            ) is None);
        }
        assert(resolution::expressions_resolved(t));
    }
    if resolution::expressions_resolved(t) {
        assert forall|name: Seq<char>| #[trigger]
            s.definitions.contains_key(name) implies resolution::first_error_in_definition(
            resolution::names_of(s),
            s.definitions[name],
        ) is None by {
            assert(t.definitions.contains_key(name));
        }
        assert forall|i: int|
            0 <= i < s.identities.len() implies resolution::first_error_in_identity(
            resolution::names_of(s),
            #[trigger] s.identities[i],
        ) is None by {
            assert(resolution::first_error_in_identity(
                resolution::names_of(t),
                t.identities[i],
            ) is None);
        }
        assert(resolution::expressions_resolved(s));
    }
    assert forall|error: AnalysisErrorView|
        resolution::is_error_of(t, error) <==> #[trigger] resolution::is_error_of(s, error) by {
        lemma_error_alike(s, t, file, error);
    }
}

proof fn lemma_error_alike<T>(
    s: AnalyzerView<T>,
    t: AnalyzerView<T>,
    file: Seq<char>,
    error: AnalysisErrorView,
)
    requires
        alike(s, t, file),
        resolution::expressions_resolved(t) <==> resolution::expressions_resolved(s),
    ensures
        resolution::is_error_of(t, error) <==> resolution::is_error_of(s, error),
{
    let a = resolution::names_of(s);
    let b = resolution::names_of(t);
    lemma_errors_alike(s, t, file);
    if resolution::is_error_of(s, error) {
        if exists|name: Seq<char>| #[trigger]
            s.definitions.contains_key(name) && resolution::first_error_in_definition(
                a,
                s.definitions[name],
            ) == Some(error) {
            let name = choose|name: Seq<char>| #[trigger]
                s.definitions.contains_key(name) && resolution::first_error_in_definition(
                    a,
                    s.definitions[name],
                ) == Some(error);
            assert(t.definitions.contains_key(name));
        } else if exists|i: int|
            0 <= i < s.identities.len() && resolution::first_error_in_identity(
                a,
                #[trigger] s.identities[i],
            ) == Some(error) {
            let i = choose|i: int|
                0 <= i < s.identities.len() && resolution::first_error_in_identity(
                    a,
                    #[trigger] s.identities[i],
                ) == Some(error);
            assert(resolution::first_error_in_identity(b, t.identities[i]) == Some(error));
        } else {
            let name = choose|name: Seq<char>| #[trigger]
                s.public_declarations.contains_key(name) && resolution::first_error_in_declaration(
                    a,
                    s.public_declarations[name],
                ) == Some(error);
            assert(t.public_declarations.contains_key(name));
        }
    }
    if resolution::is_error_of(t, error) {
        if exists|name: Seq<char>| #[trigger]
            t.definitions.contains_key(name) && resolution::first_error_in_definition(
                b,
                t.definitions[name],
            ) == Some(error) {
            let name = choose|name: Seq<char>| #[trigger]
                t.definitions.contains_key(name) && resolution::first_error_in_definition(
                    b,
                    t.definitions[name],
                ) == Some(error);
            assert(s.definitions.contains_key(name));
        } else if exists|i: int|
            0 <= i < t.identities.len() && resolution::first_error_in_identity(
                b,
                #[trigger] t.identities[i],
            ) == Some(error) {
            let i = choose|i: int|
                0 <= i < t.identities.len() && resolution::first_error_in_identity(
                    b,
                    #[trigger] t.identities[i],
                ) == Some(error);
            assert(resolution::first_error_in_identity(a, s.identities[i]) == Some(error));
        } else {
            let name = choose|name: Seq<char>| #[trigger]
                t.public_declarations.contains_key(name) && resolution::first_error_in_declaration(
                    b,
                    t.public_declarations[name],
                ) == Some(error);
            assert(s.public_declarations.contains_key(name));
        }
    }
}

proof fn lemma_programs_alike<T>(s: AnalyzerView<T>, t: AnalyzerView<T>, file: Seq<char>)
    requires
        alike(s, t, file),
    ensures
        resolution::resolve_program(t) == program_in(resolution::resolve_program(s), file),
{
    let a = resolution::names_of(s);
    let b = resolution::names_of(t);
    let found = resolution::resolve_program(t);
    let expected = program_in(resolution::resolve_program(s), file);
    lemma_names_alike(s, t, file);
    assert forall|name: Seq<char>| #[trigger]
        s.definitions.contains_key(name) implies found.definitions[name]
        == expected.definitions[name] by {
        assert(t.definitions[name] == definition_in(s.definitions[name], file));
        if let Some(value) = s.definitions[name].1 {
            lemma_value_same(a, b, value);
        }
    }
    assert(found.definitions =~= expected.definitions);
    assert forall|name: Seq<char>| #[trigger]
        s.public_declarations.contains_key(name) implies found.public_declarations[name]
        == expected.public_declarations[name] by {
        assert(t.public_declarations[name] == declaration_in(s.public_declarations[name], file));
        let reference = s.public_declarations[name].polynomial;
        assert(resolution::column_id(a, reference.name) == resolution::column_id(
            b,
            reference.name,
        ));
    }
    assert(found.public_declarations =~= expected.public_declarations);
    assert forall|i: int| 0 <= i < s.identities.len() implies #[trigger] found.identities[i]
        == expected.identities[i] by {
        assert(t.identities[i] == identity_in(s.identities[i], file));
        lemma_selected_same(a, b, s.identities[i].left);
        lemma_selected_same(a, b, s.identities[i].right);
    }
    assert(found.identities =~= expected.identities);
    assert(found =~= expected);
}

/// A file that names no others is analyzed like a text of its own: it is accepted
/// if the text is, it fails with the errors with which the text fails, and the
/// program is that of the text with all places in the file.
pub proof fn lemma_file_like_text<T: FieldElement>(file: PilFile<T>, name: Seq<char>)
    requires
        pil_analyzer::file_view(file.file_name) == Some(name),
        names_no_files(file.statements@),
    ensures
        ({
            let start = pil_analyzer::initial::<T>();
            let of_text = statements::handle_contents(
                start,
                Some("input"@),
                file.contents@,
                file.statements@,
            );
            let of_file = statements::handle_file(start, file);
            &&& of_file.1 == of_text.1
            &&& of_text.1 is Ok ==> {
                &&& resolution::all_resolved(of_file.0) <==> resolution::all_resolved(of_text.0)
                &&& forall|error: AnalysisErrorView|
                    resolution::is_error_of(of_file.0, error) <==> #[trigger]
                    resolution::is_error_of(of_text.0, error)
                &&& resolution::resolve_program(of_file.0) == program_in(
                    resolution::resolve_program(of_text.0),
                    name,
                )
            }
        }),
{
    let start = pil_analyzer::initial::<T>();
    let of_text = statements::handle_contents(
        start,
        Some("input"@),
        file.contents@,
        file.statements@,
    );
    let of_file = statements::handle_file(start, file);
    let line_starts = lines::line_starts(vstd::utf8::encode_utf8(file.contents@));
    let included_files = start.included_files.insert(file.path@);
    let in_text = AnalyzerView { current_file: Some("input"@), line_starts, ..start };
    let in_file = AnalyzerView { current_file: Some(name), line_starts, included_files, ..start };
    assert(in_file =~= state_in(in_text, name, included_files)) by {
        assert(definitions_in(start.definitions, name) =~= start.definitions);
        assert(declarations_in(start.public_declarations, name) =~= start.public_declarations);
        assert(identities_in(start.identities, name) =~= start.identities);
    }
    lemma_statements_in(in_text, file.statements@, name, included_files);
    if let Ok(unit) = of_text.1 {
        assert(unit == ());
        assert(alike(of_text.0, of_file.0, name));
        lemma_resolved_alike(of_text.0, of_file.0, name);
        lemma_programs_alike(of_text.0, of_file.0, name);
    }
}

} // verus!
