//! What each statement does.
use vstd::prelude::*;

use crate::analyzed;
use crate::analyzed::{
    IdentityKind, IdentityView, PolynomialType, SelectedExpressionsView, SourceRefView,
    StatementIdentifierView, SymbolKind,
};
use crate::error;
use crate::error::{AnalysisError, AnalysisErrorView, Outcome};
use crate::laws::forms;
use crate::lines;
use crate::number::FieldElement;
use crate::parsed::{
    Expression, FunctionDefinition, NamespacedPolynomialReference, PilFile, PilStatement,
    PolynomialName, SelectedExpressions,
};
use crate::pil_analyzer::evaluation;
use crate::pil_analyzer::expressions;
use crate::pil_analyzer::files;
use crate::pil_analyzer::handlers;
use crate::pil_analyzer::resolution;
use crate::pil_analyzer::statements;
use crate::pil_analyzer::AnalyzerView;

verus! {

/// The statement is rejected with `error` and changes nothing.
pub open spec fn rejected<T>(
    s: AnalyzerView<T>,
    step: (AnalyzerView<T>, Outcome<()>),
    error: AnalysisErrorView,
) -> bool {
    &&& step.0 == s
    &&& step.1 matches Err(e)
    &&& e == error
}

/// The step is that to the new state, or else the rejection with the error.
pub open spec fn step_to<T>(
    s: AnalyzerView<T>,
    step: (AnalyzerView<T>, Outcome<()>),
    next: Outcome<AnalyzerView<T>>,
) -> bool {
    match next {
        Ok(t) => step.0 == t && step.1 is Ok,
        Err(error) => rejected(s, step, error),
    }
}

/// A place is in the current file, on the line that is one more than the number of
/// lines that end before the offset. Without a file there are no places.
pub proof fn lemma_places<T>(s: AnalyzerView<T>, start: usize)
    ensures
        s.current_file is None ==> (statements::source_ref(s, start) matches Err(error) && error
            == AnalysisErrorView::NoFileName),
        s.current_file matches Some(file) ==> (statements::source_ref(s, start) matches Ok(place)
            && place.file == file && place.line == lines::line_of(
            s.line_starts,
            start as int,
        ) as usize),
{
}

/// A constant gets the value of its expression, once. Nothing else changes.
pub proof fn lemma_constant<T: FieldElement>(
    s: AnalyzerView<T>,
    start: usize,
    name: String,
    e: Expression<T>,
)
    ensures
        ({
            let value = evaluation::evaluate_number(s.constants, e);
            let step = statements::handle(s, PilStatement::ConstantDefinition(start, name, e));
            &&& value matches Err(error) ==> rejected(s, step, error)
            &&& value matches Ok(v) ==> {
                &&& s.constants.contains_key(name@) ==> rejected(
                    s,
                    step,
                    AnalysisErrorView::ConstantDefinedTwice(name@),
                )
                &&& !s.constants.contains_key(name@) ==> {
                    &&& step.1 is Ok
                    &&& step.0 == AnalyzerView {
                        constants: s.constants.insert(name@, v),
                        ..s
                    }
                }
            }
        }),
{
}

/// A constant is defined by its value, once. Nothing else changes.
pub proof fn lemma_constant_value<T>(s: AnalyzerView<T>, name: Seq<char>, value: T)
    ensures
        s.constants.contains_key(name) ==> (statements::define_constant(s, name, value) matches Err(
            error,
        ) && error == AnalysisErrorView::ConstantDefinedTwice(name)),
        !s.constants.contains_key(name) ==> (statements::define_constant(s, name, value) matches Ok(
            t,
        ) && t == (AnalyzerView { constants: s.constants.insert(name, value), ..s })),
{
}

/// A namespace is opened with its name and its degree. Nothing else changes.
pub proof fn lemma_namespace<T: FieldElement>(
    s: AnalyzerView<T>,
    start: usize,
    name: String,
    degree: Expression<T>,
)
    ensures
        ({
            let value = evaluation::evaluate_degree(s.constants, degree);
            let opened = statements::open_namespace(s, name@, degree);
            let step = statements::handle(s, PilStatement::Namespace(start, name, degree));
            &&& step_to(s, step, opened)
            &&& value matches Err(error) ==> rejected(s, step, error)
            &&& value matches Ok(polynomial_degree) ==> {
                &&& step.1 is Ok
                &&& step.0 == AnalyzerView { namespace: name@, polynomial_degree, ..s }
            }
        }),
{
}

/// A public declaration stands under its name, in place of an earlier one, and
/// names the column and the row as they were written. Its id is the number of
/// names that were declared before. Nothing else changes.
pub proof fn lemma_public<T: FieldElement>(
    s: AnalyzerView<T>,
    start: usize,
    name: String,
    poly: NamespacedPolynomialReference<T>,
    index: Expression<T>,
)
    requires
        s.public_declarations.dom().finite(),
        s.public_declarations.len() <= u64::MAX,
    ensures
        ({
            let place = statements::source_ref(s, start);
            let column = expressions::process_namespaced_reference(s.scope(), poly);
            let row = evaluation::evaluate_degree(s.constants, index);
            let step = statements::handle(
                s,
                PilStatement::PublicDeclaration(start, name, poly, index),
            );
            &&& place matches Err(error) ==> rejected(s, step, error)
            &&& place matches Ok(source) ==> {
                let declared = statements::declare_public(s, source, name@, poly, index);
                &&& step_to(s, step, declared)
                &&& column matches Err(error) ==> rejected(s, step, error)
                &&& column is Ok ==> (row matches Err(error) ==> rejected(s, step, error))
                &&& column is Ok && row is Ok ==> {
                    let t = step.0;
                    let declaration = t.public_declarations[name@];
                    &&& step.1 is Ok
                    &&& t.public_declarations == s.public_declarations.insert(name@, declaration)
                    &&& declaration.id == s.public_declarations.len()
                    &&& declaration.source == source
                    &&& declaration.name == name@
                    &&& declaration.polynomial == column->Ok_0
                    &&& declaration.index == row->Ok_0
                    &&& t.source_order == s.source_order.push(
                        StatementIdentifierView::PublicDeclaration(name@),
                    )
                    &&& t == AnalyzerView {
                        public_declarations: t.public_declarations,
                        source_order: t.source_order,
                        ..s
                    }
                }
            }
        }),
{
}

/// One more identity has come in: the one with the given parts. It has the next id
/// of its kind, and the source order has its position. Nothing else changes.
pub open spec fn identity_added<T>(
    s: AnalyzerView<T>,
    t: AnalyzerView<T>,
    kind: IdentityKind,
    source: SourceRefView,
    left: SelectedExpressionsView<T>,
    right: SelectedExpressionsView<T>,
) -> bool {
    let id = s.identity_counter.next_id(kind);
    &&& t.identities == s.identities.push(IdentityView { id, kind, source, left, right })
    &&& t.source_order == s.source_order.push(
        StatementIdentifierView::Identity(s.identities.len() as int),
    )
    &&& id < u64::MAX ==> t.identity_counter.next_id(kind) == id + 1
    &&& forall|other: IdentityKind|
        other != kind ==> #[trigger] t.identity_counter.next_id(other)
            == s.identity_counter.next_id(other)
    &&& t == AnalyzerView {
        identities: t.identities,
        source_order: t.source_order,
        identity_counter: t.identity_counter,
        ..s
    }
}

/// A polynomial identity has its expression as the selector of the left side, and
/// nothing else.
pub proof fn lemma_polynomial_identity<T: FieldElement>(
    s: AnalyzerView<T>,
    start: usize,
    e: Expression<T>,
)
    ensures
        ({
            let statement = PilStatement::PolynomialIdentity(start, e);
            let step = statements::handle(s, statement);
            let processed = expressions::process(s.scope(), e);
            let place = statements::source_ref(s, start);
            &&& step_to(s, step, statements::add_identity(s, statement))
            &&& processed matches Err(error) ==> rejected(s, step, error)
            &&& processed is Ok ==> (place matches Err(error) ==> rejected(s, step, error))
            &&& processed is Ok && place is Ok ==> {
                &&& step.1 is Ok
                &&& identity_added(
                    s,
                    step.0,
                    IdentityKind::Polynomial,
                    place->Ok_0,
                    SelectedExpressionsView {
                        selector: Some(processed->Ok_0),
                        expressions: Seq::empty(),
                    },
                    SelectedExpressionsView { selector: None, expressions: Seq::empty() },
                )
            }
        }),
{
}

/// What a statement with two sides does: each side of the identity is what becomes
/// of that side of the statement alone.
pub open spec fn two_sides_added<T: FieldElement>(
    s: AnalyzerView<T>,
    step: (AnalyzerView<T>, Outcome<()>),
    kind: IdentityKind,
    start: usize,
    left: SelectedExpressions<Expression<T>>,
    right: SelectedExpressions<Expression<T>>,
) -> bool {
    let l = expressions::process_selected(s.scope(), left);
    let r = expressions::process_selected(s.scope(), right);
    let place = statements::source_ref(s, start);
    &&& l matches Err(error) ==> rejected(s, step, error)
    &&& l is Ok ==> (r matches Err(error) ==> rejected(s, step, error))
    &&& l is Ok && r is Ok ==> (place matches Err(error) ==> rejected(s, step, error))
    &&& l is Ok && r is Ok && place is Ok ==> {
        &&& step.1 is Ok
        &&& identity_added(s, step.0, kind, place->Ok_0, l->Ok_0, r->Ok_0)
    }
}

/// A lookup and a permutation have the two sides that were written, each with its
/// own selector.
pub proof fn lemma_two_sides<T: FieldElement>(
    s: AnalyzerView<T>,
    start: usize,
    left: SelectedExpressions<Expression<T>>,
    right: SelectedExpressions<Expression<T>>,
)
    ensures
        two_sides_added(
            s,
            statements::handle(s, PilStatement::PlookupIdentity(start, left, right)),
            IdentityKind::Plookup,
            start,
            left,
            right,
        ),
        two_sides_added(
            s,
            statements::handle(s, PilStatement::PermutationIdentity(start, left, right)),
            IdentityKind::Permutation,
            start,
            left,
            right,
        ),
        step_to(
            s,
            statements::handle(s, PilStatement::PlookupIdentity(start, left, right)),
            statements::add_identity(s, PilStatement::PlookupIdentity(start, left, right)),
        ),
        step_to(
            s,
            statements::handle(s, PilStatement::PermutationIdentity(start, left, right)),
            statements::add_identity(s, PilStatement::PermutationIdentity(start, left, right)),
        ),
{
}

/// In an accepted lookup or permutation a side has a selector exactly if that side
/// of the statement has one, which is what becomes of it, and the expressions of a
/// side are those of that side of the statement, each in its place.
pub proof fn lemma_selectors<T: FieldElement>(
    s: AnalyzerView<T>,
    statement: PilStatement<T>,
    start: usize,
    left: SelectedExpressions<Expression<T>>,
    right: SelectedExpressions<Expression<T>>,
)
    requires
        statement == PilStatement::PlookupIdentity(start, left, right) || statement
            == PilStatement::PermutationIdentity(start, left, right),
        statements::handle(s, statement).1 is Ok,
    ensures
        ({
            let identity = statements::handle(s, statement).0.identities.last();
            &&& identity.left.selector is Some <==> left.selector is Some
            &&& identity.right.selector is Some <==> right.selector is Some
            &&& left.selector matches Some(e) ==> (expressions::process(s.scope(), e) matches Ok(v)
                && identity.left.selector == Some(v))
            &&& right.selector matches Some(e) ==> (expressions::process(s.scope(), e) matches Ok(v)
                && identity.right.selector == Some(v))
            &&& identity.left.expressions.len() == left.expressions@.len()
            &&& identity.right.expressions.len() == right.expressions@.len()
            &&& forall|i: int|
                0 <= i < left.expressions@.len() ==> (expressions::process(
                    s.scope(),
                    #[trigger] left.expressions@[i],
                ) matches Ok(v) && v == identity.left.expressions[i])
            &&& forall|i: int|
                0 <= i < right.expressions@.len() ==> (expressions::process(
                    s.scope(),
                    #[trigger] right.expressions@[i],
                ) matches Ok(v) && v == identity.right.expressions[i])
        }),
{
    lemma_two_sides(s, start, left, right);
    forms::lemma_sides(s.scope(), left);
    forms::lemma_sides(s.scope(), right);
}

/// What becomes of one side of an accepted lookup or permutation does not depend on
/// the other side, nor on which of the two it is.
pub proof fn lemma_sides_apart<T: FieldElement>(
    s: AnalyzerView<T>,
    start: usize,
    side: SelectedExpressions<Expression<T>>,
    a: SelectedExpressions<Expression<T>>,
    b: SelectedExpressions<Expression<T>>,
)
    requires
        statements::handle(s, PilStatement::PlookupIdentity(start, side, a)).1 is Ok,
        statements::handle(s, PilStatement::PermutationIdentity(start, side, b)).1 is Ok,
    ensures
        ({
            let lookup = statements::handle(s, PilStatement::PlookupIdentity(start, side, a));
            let permutation = statements::handle(
                s,
                PilStatement::PermutationIdentity(start, side, b),
            );
            let turned = statements::handle(s, PilStatement::PermutationIdentity(start, b, side));
            &&& lookup.0.identities.last().left == permutation.0.identities.last().left
            &&& turned.1 is Ok
            &&& turned.0.identities.last().right == permutation.0.identities.last().left
            &&& turned.0.identities.last().left == permutation.0.identities.last().right
        }),
{
    lemma_two_sides(s, start, side, a);
    lemma_two_sides(s, start, side, b);
    lemma_two_sides(s, start, b, side);
}

/// A connection has the expressions of its two sides, each in its place, and no
/// selectors.
pub proof fn lemma_connection<T: FieldElement>(
    s: AnalyzerView<T>,
    start: usize,
    left: Vec<Expression<T>>,
    right: Vec<Expression<T>>,
)
    ensures
        ({
            let statement = PilStatement::ConnectIdentity(start, left, right);
            let step = statements::handle(s, statement);
            let place = statements::source_ref(s, start);
            &&& step_to(s, step, statements::add_identity(s, statement))
            &&& step.1 is Ok ==> {
                let identity = step.0.identities.last();
                &&& place is Ok
                &&& identity_added(
                    s,
                    step.0,
                    IdentityKind::Connect,
                    place->Ok_0,
                    identity.left,
                    identity.right,
                )
                &&& identity.left.selector is None
                &&& identity.right.selector is None
                &&& forms::each_processed(s.scope(), left@, Ok(identity.left.expressions))
                &&& forms::each_processed(s.scope(), right@, Ok(identity.right.expressions))
            }
            &&& step.1 matches Err(error) ==> {
                &&& step.0 == s
                &&& {
                    ||| forms::each_processed(s.scope(), left@, Err(error))
                    ||| accepted(s, left@) && forms::each_processed(s.scope(), right@, Err(error))
                    ||| accepted(s, left@) && accepted(s, right@) && place == Err::<
                        SourceRefView,
                        AnalysisErrorView,
                    >(error)
                }
            }
        }),
{
    forms::lemma_lists(s.scope(), left@);
    forms::lemma_lists(s.scope(), right@);
}

/// Each of the expressions is accepted.
pub open spec fn accepted<T: FieldElement>(
    s: AnalyzerView<T>,
    items: Seq<Expression<T>>,
) -> bool {
    forall|i: int|
        0 <= i < items.len() ==> expressions::process(s.scope(), #[trigger] items[i]) is Ok
}

/// Macros and calls are no statements that can be handled, and only the four kinds
/// of identities are identities.
pub proof fn lemma_no_statements<T: FieldElement>(
    s: AnalyzerView<T>,
    start: usize,
    name: String,
    params: Vec<String>,
    statements: Vec<PilStatement<T>>,
    e: Option<Expression<T>>,
    items: Vec<Expression<T>>,
    statement: PilStatement<T>,
)
    ensures
        rejected(
            s,
            statements::handle(
                s,
                PilStatement::MacroDefinition(start, name, params, statements, e),
            ),
            AnalysisErrorView::MacroNotExpanded,
        ),
        rejected(
            s,
            statements::handle(s, PilStatement::FunctionCall(start, name, items)),
            AnalysisErrorView::NotAnIdentity,
        ),
        !(statement is PolynomialIdentity || statement is PlookupIdentity || statement
            is PermutationIdentity || statement is ConnectIdentity) ==> (statements::add_identity(
            s,
            statement,
        ) matches Err(error) && error == AnalysisErrorView::NotAnIdentity),
{
}

/// An intermediate polynomial is defined by its expression, a fixed column by what
/// was given, and a witness column by what was given if it is one column alone.
/// Each is defined at the place of its statement.
pub proof fn lemma_definitions<T: FieldElement>(
    s: AnalyzerView<T>,
    start: usize,
    name: String,
    e: Expression<T>,
    value: FunctionDefinition<T>,
    polynomials: Vec<PolynomialName<T>>,
)
    ensures
        ({
            let intermediate = statements::handle(
                s,
                PilStatement::PolynomialDefinition(start, name, e),
            );
            let fixed = statements::handle(
                s,
                PilStatement::PolynomialConstantDefinition(start, name, value),
            );
            let witness = statements::handle(
                s,
                PilStatement::PolynomialCommitDeclaration(start, polynomials, Some(value)),
            );
            &&& polynomials@.len() != 1 ==> rejected(
                s,
                witness,
                AnalysisErrorView::NotOnePolynomial,
            )
            &&& match statements::source_ref(s, start) {
                Err(error) => {
                    &&& rejected(s, intermediate, error)
                    &&& rejected(s, fixed, error)
                    &&& polynomials@.len() == 1 ==> rejected(s, witness, error)
                },
                Ok(source) => {
                    &&& step_to(
                        s,
                        intermediate,
                        statements::define(
                            s,
                            source,
                            name@,
                            None,
                            SymbolKind::Poly(PolynomialType::Intermediate),
                            Some(FunctionDefinition::Expression(e)),
                        ),
                    )
                    &&& step_to(
                        s,
                        fixed,
                        statements::define(
                            s,
                            source,
                            name@,
                            None,
                            SymbolKind::Poly(PolynomialType::Constant),
                            Some(value),
                        ),
                    )
                    &&& polynomials@.len() == 1 ==> step_to(
                        s,
                        witness,
                        statements::define(
                            s,
                            source,
                            polynomials@[0].name@,
                            polynomials@[0].array_size,
                            SymbolKind::Poly(PolynomialType::Committed),
                            Some(value),
                        ),
                    )
                },
            }
        }),
{
}

/// Fixed and witness columns are declared at the place of their statement.
pub proof fn lemma_declarations<T: FieldElement>(
    s: AnalyzerView<T>,
    start: usize,
    polynomials: Vec<PolynomialName<T>>,
)
    ensures
        ({
            let fixed = statements::handle(
                s,
                PilStatement::PolynomialConstantDeclaration(start, polynomials),
            );
            let witness = statements::handle(
                s,
                PilStatement::PolynomialCommitDeclaration(start, polynomials, None),
            );
            match statements::source_ref(s, start) {
                Err(error) => rejected(s, fixed, error) && rejected(s, witness, error),
                Ok(source) => {
                    &&& fixed == statements::declare(
                        s,
                        source,
                        polynomials@,
                        PolynomialType::Constant,
                    )
                    &&& witness == statements::declare(
                        s,
                        source,
                        polynomials@,
                        PolynomialType::Committed,
                    )
                },
            }
        }),
{
}

/// `let` without a value defines a witness column, with a function of one
/// parameter a fixed column, with what is a number a constant, and with anything
/// else what is no column.
pub proof fn lemma_let<T: FieldElement>(
    s: AnalyzerView<T>,
    start: usize,
    name: String,
    value: Option<Expression<T>>,
)
    ensures
        ({
            let step = statements::handle(s, PilStatement::LetStatement(start, name, value));
            let place = statements::source_ref(s, start);
            &&& step_to(s, step, statements::define_generic(s, start, name@, value))
            &&& match value {
                None => match place {
                    Err(error) => rejected(s, step, error),
                    Ok(source) => step_to(
                        s,
                        step,
                        statements::define(
                            s,
                            source,
                            name@,
                            None,
                            SymbolKind::Poly(PolynomialType::Committed),
                            None,
                        ),
                    ),
                },
                Some(e) => {
                    let one_parameter = e matches Expression::LambdaExpression(function)
                        && function.params@.len() == 1;
                    &&& one_parameter ==> match place {
                        Err(error) => rejected(s, step, error),
                        Ok(source) => step_to(
                            s,
                            step,
                            statements::define(
                                s,
                                source,
                                name@,
                                None,
                                SymbolKind::Poly(PolynomialType::Constant),
                                Some(
                                    FunctionDefinition::Mapping(
                                        e->LambdaExpression_0.params,
                                        *e->LambdaExpression_0.body,
                                    ),
                                ),
                            ),
                        ),
                    }
                    &&& !one_parameter ==> match evaluation::evaluate(s.constants, e) {
                        Err(error) => rejected(s, step, error),
                        Ok(Some(v)) => step_to(
                            s,
                            step,
                            statements::define_constant(s, name@, v),
                        ),
                        Ok(None) => match place {
                            Err(error) => rejected(s, step, error),
                            Ok(source) => step_to(
                                s,
                                step,
                                statements::define(
                                    s,
                                    source,
                                    name@,
                                    None,
                                    SymbolKind::Other(),
                                    Some(FunctionDefinition::Expression(e)),
                                ),
                            ),
                        },
                    }
                },
            }
        }),
{
}

/// No statements change nothing. One statement does what it does, and those after
/// a rejected one do not count.
pub proof fn lemma_lists_of_statements<T: FieldElement>(
    s: AnalyzerView<T>,
    statements: Seq<PilStatement<T>>,
    statement: PilStatement<T>,
)
    ensures
        statements::handle_all(s, Seq::<PilStatement<T>>::empty()).0 == s,
        statements::handle_all(s, Seq::<PilStatement<T>>::empty()).1 is Ok,
        statements::handle_all(s, statements.push(statement)) == if statements::handle_all(
            s,
            statements,
        ).1 is Ok {
            statements::handle(statements::handle_all(s, statements).0, statement)
        } else {
            statements::handle_all(s, statements)
        },
{
    assert(statements.push(statement).drop_last() =~= statements);
}

/// The statements of a text are handled in its file, with its lines. Afterwards the
/// file and the lines around it are the current ones again.
pub proof fn lemma_text<T: FieldElement>(
    s: AnalyzerView<T>,
    file_name: Option<Seq<char>>,
    contents: Seq<char>,
    statements: Seq<PilStatement<T>>,
)
    ensures
        ({
            let inside = statements::handle_all(
                AnalyzerView {
                    current_file: file_name,
                    line_starts: lines::line_starts(vstd::utf8::encode_utf8(contents)),
                    ..s
                },
                statements,
            );
            let result = statements::handle_contents(s, file_name, contents, statements);
            &&& result.1 is Ok <==> inside.1 is Ok
            &&& inside.1 is Ok ==> result.0 == AnalyzerView {
                current_file: s.current_file,
                line_starts: s.line_starts,
                ..inside.0
            }
            &&& inside.1 is Err ==> result == inside
        }),
{
}

/// A file that was handled before is passed over. Any other is noted and its text
/// is handled. A statement that names a file does the same.
pub proof fn lemma_file<T: FieldElement>(s: AnalyzerView<T>, start: usize, file: PilFile<T>)
    ensures
        statements::handle(s, PilStatement::Include(start, file)) == statements::handle_file(
            s,
            file,
        ),
        s.included_files.contains(file.path@) ==> {
            &&& statements::handle_file(s, file).0 == s
            &&& statements::handle_file(s, file).1 is Ok
        },
        !s.included_files.contains(file.path@) ==> statements::handle_file(s, file)
            == statements::handle_contents(
            AnalyzerView { included_files: s.included_files.insert(file.path@), ..s },
            match file.file_name {
                None => None,
                Some(name) => Some(name@),
            },
            file.contents@,
            file.statements@,
        ),
{
}

/// What the outcomes of the executable functions mean.
pub proof fn lemma_outcomes<T, X: View>(
    s: AnalyzerView<T>,
    t: AnalyzerView<T>,
    done: Result<(), AnalysisError>,
    next: Outcome<AnalyzerView<T>>,
    step: (AnalyzerView<T>, Outcome<()>),
    found: Result<X, AnalysisError>,
    viewed: Outcome<X::V>,
    exact: Outcome<X>,
)
    ensures
        handlers::settled(s, t, done, next) <==> match done {
            Ok(_) => next matches Ok(u) && u == t,
            Err(error) => t == s && (next matches Err(e) && e == error@),
        },
        handlers::moved(t, done, step) <==> t == step.0 && match done {
            Ok(_) => step.1 is Ok,
            Err(error) => step.1 matches Err(e) && e == error@,
        },
        error::agrees(found, viewed) <==> match found {
            Ok(x) => viewed matches Ok(v) && v == x@,
            Err(error) => viewed matches Err(e) && e == error@,
        },
        error::agrees_exactly(found, exact) <==> match found {
            Ok(x) => exact matches Ok(v) && v == x,
            Err(error) => exact matches Err(e) && e == error@,
        },
{
    if let Ok(unit) = step.1 {
        assert(unit == ());
    }
    if let Ok(unit) = done {
        assert(unit == ());
    }
}

/// A program comes of an analysis exactly if all its statements are accepted and
/// all its references can be resolved.
pub proof fn lemma_finished<T>(
    last: (AnalyzerView<T>, Outcome<()>),
    result: Result<analyzed::Analyzed<T>, AnalysisError>,
)
    requires
        files::finished(last, result),
    ensures
        result matches Ok(program) ==> {
            &&& last.1 is Ok
            &&& resolution::all_resolved(last.0)
            &&& program.wf()
            &&& program@ == resolution::resolve_program(last.0)
        },
        result matches Err(error) ==> {
            ||| last.1 matches Err(e) && e == error@
            ||| last.1 is Ok && resolution::is_error_of(last.0, error@)
        },
{
}

} // verus!
