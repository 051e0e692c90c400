//! What every statement keeps, and what every state of the analyzer is like.
use vstd::prelude::*;

use crate::analyzed::{
    FunctionValueDefinitionView, IdentityKind, PolynomialType, SourceRefView,
    StatementIdentifierView, SymbolKind, SymbolView,
};
use crate::error::AnalysisErrorView;
use crate::lines;
use crate::number::{DegreeType, FieldElement};
use crate::parsed::{
    Expression, FunctionDefinition, LambdaExpression, NamespacedPolynomialReference, PilFile,
    PilStatement, PolynomialName,
};
use crate::pil_analyzer;
use crate::pil_analyzer::AnalyzerView;
use crate::pil_analyzer::arrays;
use crate::pil_analyzer::evaluation;
use crate::pil_analyzer::expressions;
use crate::pil_analyzer::statements;
use crate::pil_analyzer::statements::IdentityBody;

verus! {

/// The larger map has what the smaller has.
pub open spec fn kept<V>(smaller: Map<Seq<char>, V>, larger: Map<Seq<char>, V>) -> bool {
    forall|name: Seq<char>| #[trigger]
        smaller.contains_key(name) ==> larger.contains_key(name) && larger[name] == smaller[name]
}

/// Whatever `s` knows, `t` knows: no constant, definition, identity or statement
/// is lost or changed, and no id of a symbol is given back. A public declaration
/// may be replaced by another of the same name.
pub open spec fn extends<T>(s: AnalyzerView<T>, t: AnalyzerView<T>) -> bool {
    &&& kept(s.constants, t.constants)
    &&& kept(s.definitions, t.definitions)
    &&& s.public_declarations.dom().subset_of(t.public_declarations.dom())
    &&& s.identities.is_prefix_of(t.identities)
    &&& s.source_order.is_prefix_of(t.source_order)
    &&& s.included_files.subset_of(t.included_files)
    &&& forall|kind: SymbolKind|
        s.symbol_counters.next_id(kind) <= #[trigger] t.symbol_counters.next_id(kind)
}

proof fn lemma_extends_trans<T>(s: AnalyzerView<T>, t: AnalyzerView<T>, u: AnalyzerView<T>)
    requires
        extends(s, t),
        extends(t, u),
    ensures
        extends(s, u),
{
    assert(s.identities =~= u.identities.take(s.identities.len() as int));
    assert(s.source_order =~= u.source_order.take(s.source_order.len() as int));
    assert forall|kind: SymbolKind|
        s.symbol_counters.next_id(kind) <= #[trigger] u.symbol_counters.next_id(kind) by {
        assert(s.symbol_counters.next_id(kind) <= t.symbol_counters.next_id(kind));
    }
}

proof fn lemma_define_extends<T: FieldElement>(
    s: AnalyzerView<T>,
    source: SourceRefView,
    name: Seq<char>,
    array_size: Option<Expression<T>>,
    kind: SymbolKind,
    value: Option<FunctionDefinition<T>>,
)
    ensures
        statements::define(s, source, name, array_size, kind, value) matches Ok(t) ==> extends(
            s,
            t,
        ),
{
    if let Ok(t) = statements::define(s, source, name, array_size, kind, value) {
        assert(s.source_order =~= t.source_order.take(s.source_order.len() as int));
        assert(s.identities =~= t.identities.take(s.identities.len() as int));
    }
}

proof fn lemma_declare_extends<T: FieldElement>(
    s: AnalyzerView<T>,
    source: SourceRefView,
    polynomials: Seq<PolynomialName<T>>,
    polynomial_type: PolynomialType,
)
    ensures
        extends(s, statements::declare(s, source, polynomials, polynomial_type).0),
    decreases polynomials.len(),
{
    if polynomials.len() == 0 {
        assert(s.source_order =~= s.source_order.take(s.source_order.len() as int));
        assert(s.identities =~= s.identities.take(s.identities.len() as int));
    } else {
        lemma_declare_extends(s, source, polynomials.drop_last(), polynomial_type);
        let front = statements::declare(s, source, polynomials.drop_last(), polynomial_type).0;
        let last = polynomials.last();
        lemma_define_extends(
            front,
            source,
            last.name@,
            last.array_size,
            SymbolKind::Poly(polynomial_type),
            None,
        );
        let t = statements::declare(s, source, polynomials, polynomial_type).0;
        if t != front {
            lemma_extends_trans(s, front, t);
        }
    }
}

/// A statement takes nothing back, whether it is accepted or not.
pub proof fn lemma_statement_extends<T: FieldElement>(
    s: AnalyzerView<T>,
    statement: PilStatement<T>,
)
    ensures
        extends(s, statements::handle(s, statement).0),
    decreases statement, 0nat,
{
    let t = statements::handle(s, statement).0;
    assert(s.source_order =~= s.source_order.take(s.source_order.len() as int));
    assert(s.identities =~= s.identities.take(s.identities.len() as int));
    match statement {
        PilStatement::Include(_, file) => {
            lemma_file_extends(s, file);
        },
        PilStatement::PolynomialConstantDeclaration(start, polynomials) => {
            if let Ok(source) = statements::source_ref(s, start) {
                lemma_declare_extends(s, source, polynomials@, PolynomialType::Constant);
            }
        },
        PilStatement::PolynomialCommitDeclaration(start, polynomials, None) => {
            if let Ok(source) = statements::source_ref(s, start) {
                lemma_declare_extends(s, source, polynomials@, PolynomialType::Committed);
            }
        },
        _ => {
            if t.source_order.len() > s.source_order.len() {
                assert(s.source_order =~= t.source_order.take(s.source_order.len() as int));
                assert(s.identities =~= t.identities.take(s.identities.len() as int));
            }
        },
    }
}

/// Statements take nothing back.
pub proof fn lemma_statements_extend<T: FieldElement>(
    s: AnalyzerView<T>,
    statements: Seq<PilStatement<T>>,
)
    ensures
        extends(s, statements::handle_all(s, statements).0),
    decreases statements, 0nat,
{
    if statements.len() == 0 {
        assert(s.source_order =~= s.source_order.take(s.source_order.len() as int));
        assert(s.identities =~= s.identities.take(s.identities.len() as int));
    } else {
        let (front, outcome) = statements::handle_all(s, statements.drop_last());
        lemma_statements_extend(s, statements.drop_last());
        if outcome is Ok {
            lemma_statement_extends(front, statements.last());
            lemma_extends_trans(s, front, statements::handle(front, statements.last()).0);
        }
    }
}

/// A file takes nothing back.
pub proof fn lemma_file_extends<T: FieldElement>(s: AnalyzerView<T>, file: PilFile<T>)
    ensures
        extends(s, statements::handle_file(s, file).0),
    decreases file, 0nat,
{
    if s.included_files.contains(file.path@) {
        assert(s.source_order =~= s.source_order.take(s.source_order.len() as int));
        assert(s.identities =~= s.identities.take(s.identities.len() as int));
    } else {
        let entered = AnalyzerView {
            included_files: s.included_files.insert(file.path@),
            current_file: pil_analyzer::file_view(file.file_name),
            line_starts: lines::line_starts(vstd::utf8::encode_utf8(file.contents@)),
            ..s
        };
        lemma_statements_extend(entered, file.statements@);
        assert(extends(s, statements::handle_all(entered, file.statements@).0));
    }
}

/// A file that was handled, with whatever outcome, is not handled again: the
/// second time changes nothing.
pub proof fn lemma_file_once<T: FieldElement>(s: AnalyzerView<T>, file: PilFile<T>)
    ensures
        statements::handle_file(statements::handle_file(s, file).0, file) == (
            statements::handle_file(s, file).0,
            Ok::<(), AnalysisErrorView>(()),
        ),
{
    if !s.included_files.contains(file.path@) {
        let entered = AnalyzerView {
            included_files: s.included_files.insert(file.path@),
            current_file: pil_analyzer::file_view(file.file_name),
            line_starts: lines::line_starts(vstd::utf8::encode_utf8(file.contents@)),
            ..s
        };
        lemma_statements_extend(entered, file.statements@);
        assert(entered.included_files.contains(file.path@));
    }
}

/// A statement that is accepted leaves the analyzer in the file where it was.
pub proof fn lemma_statement_keeps_file<T: FieldElement>(
    s: AnalyzerView<T>,
    statement: PilStatement<T>,
)
    ensures
        statements::handle(s, statement).1 is Ok ==> {
            &&& statements::handle(s, statement).0.current_file == s.current_file
            &&& statements::handle(s, statement).0.line_starts == s.line_starts
        },
{
    match statement {
        PilStatement::PolynomialConstantDeclaration(start, polynomials) => {
            if let Ok(source) = statements::source_ref(s, start) {
                lemma_declare_keeps_file(s, source, polynomials@, PolynomialType::Constant);
            }
        },
        PilStatement::PolynomialCommitDeclaration(start, polynomials, None) => {
            if let Ok(source) = statements::source_ref(s, start) {
                lemma_declare_keeps_file(s, source, polynomials@, PolynomialType::Committed);
            }
        },
        PilStatement::Include(_, file) => {
            assert(statements::handle(s, statement) == statements::handle_file(s, file));
        },
        _ => {},
    }
}

proof fn lemma_declare_keeps_file<T: FieldElement>(
    s: AnalyzerView<T>,
    source: SourceRefView,
    polynomials: Seq<PolynomialName<T>>,
    polynomial_type: PolynomialType,
)
    ensures
        ({
            let t = statements::declare(s, source, polynomials, polynomial_type).0;
            t.current_file == s.current_file && t.line_starts == s.line_starts
        }),
    decreases polynomials.len(),
{
    if polynomials.len() > 0 {
        lemma_declare_keeps_file(s, source, polynomials.drop_last(), polynomial_type);
    }
}

/// Handling statements in two parts is handling them in one go.
pub proof fn lemma_statements_in_parts<T: FieldElement>(
    s: AnalyzerView<T>,
    front: Seq<PilStatement<T>>,
    back: Seq<PilStatement<T>>,
)
    ensures
        statements::handle_all(s, front + back) == if statements::handle_all(s, front).1 is Ok {
            statements::handle_all(statements::handle_all(s, front).0, back)
        } else {
            statements::handle_all(s, front)
        },
    decreases back.len(),
{
    if back.len() == 0 {
        assert(front + back =~= front);
        if let Ok(unit) = statements::handle_all(s, front).1 {
            assert(unit == ());
        }
    } else {
        assert((front + back).drop_last() =~= front + back.drop_last());
        assert((front + back).last() == back.last());
        lemma_statements_in_parts(s, front, back.drop_last());
    }
}

/// Declaring polynomials in two parts is declaring them in one go.
pub proof fn lemma_declarations_in_parts<T: FieldElement>(
    s: AnalyzerView<T>,
    source: SourceRefView,
    front: Seq<PolynomialName<T>>,
    back: Seq<PolynomialName<T>>,
    polynomial_type: PolynomialType,
)
    ensures
        ({
            let first = statements::declare(s, source, front, polynomial_type);
            statements::declare(s, source, front + back, polynomial_type) == if first.1 is Ok {
                statements::declare(first.0, source, back, polynomial_type)
            } else {
                first
            }
        }),
    decreases back.len(),
{
    if back.len() == 0 {
        assert(front + back =~= front);
        if let Ok(unit) = statements::declare(s, source, front, polynomial_type).1 {
            assert(unit == ());
        }
    } else {
        assert((front + back).drop_last() =~= front + back.drop_last());
        assert((front + back).last() == back.last());
        lemma_declarations_in_parts(s, source, front, back.drop_last(), polynomial_type);
    }
}

/// `let` without a value declares a witness column.
pub proof fn lemma_let_without_value<T: FieldElement>(
    s: AnalyzerView<T>,
    start: usize,
    name: String,
    polynomials: Vec<PolynomialName<T>>,
)
    requires
        polynomials@.len() == 1,
        polynomials@[0].name == name,
        polynomials@[0].array_size is None,
    ensures
        statements::handle(s, PilStatement::LetStatement(start, name, None))
            == statements::handle(
            s,
            PilStatement::PolynomialCommitDeclaration(start, polynomials, None),
        ),
{
    if let Ok(source) = statements::source_ref(s, start) {
        let front = statements::declare(
            s,
            source,
            polynomials@.drop_last(),
            PolynomialType::Committed,
        );
        assert(front == (s, Ok::<(), AnalysisErrorView>(())));
    }
}

/// `let` with a function of one parameter defines a fixed column.
pub proof fn lemma_let_function<T: FieldElement>(
    s: AnalyzerView<T>,
    start: usize,
    name: String,
    function: LambdaExpression<Expression<T>>,
)
    requires
        function.params@.len() == 1,
    ensures
        statements::handle(
            s,
            PilStatement::LetStatement(start, name, Some(Expression::LambdaExpression(function))),
        ) == statements::handle(
            s,
            PilStatement::PolynomialConstantDefinition(
                start,
                name,
                FunctionDefinition::Mapping(function.params, *function.body),
            ),
        ),
{
}

/// `let` with a number defines a constant.
pub proof fn lemma_let_number<T: FieldElement>(
    s: AnalyzerView<T>,
    start: usize,
    name: String,
    e: Expression<T>,
)
    requires
        evaluation::evaluate(s.constants, e) matches Ok(value) && value is Some,
    ensures
        statements::handle(s, PilStatement::LetStatement(start, name, Some(e)))
            == statements::handle(s, PilStatement::ConstantDefinition(start, name, e)),
{
}

/// The form of the value fits the symbol: intermediate polynomials have
/// expressions, arrays have no value, a column that is given by an array has as
/// many rows as its degree says.
pub open spec fn value_fits<T>(
    symbol: SymbolView,
    value: Option<FunctionValueDefinitionView<T>>,
) -> bool {
    match value {
        None => symbol.kind == SymbolKind::Poly(PolynomialType::Committed) || symbol.kind
            == SymbolKind::Poly(PolynomialType::Constant),
        Some(v) => symbol.length is None && match v {
            FunctionValueDefinitionView::Expression(_) => symbol.kind == SymbolKind::Other()
                || symbol.kind == SymbolKind::Poly(PolynomialType::Intermediate),
            FunctionValueDefinitionView::Mapping(_) => symbol.kind == SymbolKind::Poly(
                PolynomialType::Constant,
            ),
            FunctionValueDefinitionView::Query(_) => symbol.kind == SymbolKind::Poly(
                PolynomialType::Committed,
            ),
            FunctionValueDefinitionView::Array(parts) => {
                &&& symbol.kind == SymbolKind::Poly(PolynomialType::Constant) || symbol.kind
                    == SymbolKind::Poly(PolynomialType::Committed)
                &&& arrays::total_size(parts) == symbol.degree
            },
        },
    }
}

/// The ids of the two symbols do not overlap.
pub open spec fn ids_apart(a: SymbolView, b: SymbolView) -> bool {
    a.kind == b.kind ==> {
        ||| a.id + statements::ids_taken(a.length) <= b.id
        ||| b.id + statements::ids_taken(b.length) <= a.id
    }
}

/// The id is one of those of the symbol.
pub open spec fn has_id(symbol: SymbolView, kind: SymbolKind, id: u64) -> bool {
    symbol.kind == kind && symbol.id <= id < symbol.id + statements::ids_taken(symbol.length)
}

/// The id is that of a definition of the kind.
pub open spec fn id_in_use<T>(s: AnalyzerView<T>, kind: SymbolKind, id: u64) -> bool {
    exists|name: Seq<char>| #[trigger]
        s.definitions.contains_key(name) && has_id(s.definitions[name].0, kind, id)
}

/// Every definition stands under its absolute name, and the ids of the symbols of
/// a kind are those below the next id of the kind: they do not overlap and leave
/// no gaps.
pub open spec fn definitions_consistent<T>(s: AnalyzerView<T>) -> bool {
    &&& forall|name: Seq<char>| #[trigger]
        s.definitions.contains_key(name) ==> {
            let symbol = s.definitions[name].0;
            &&& symbol.absolute_name == name
            &&& symbol.id + statements::ids_taken(symbol.length) <= s.symbol_counters.next_id(
                symbol.kind,
            )
        }
    &&& forall|a: Seq<char>, b: Seq<char>|
        s.definitions.contains_key(a) && s.definitions.contains_key(b) && a != b ==> #[trigger]
        ids_apart(s.definitions[a].0, s.definitions[b].0)
    &&& forall|kind: SymbolKind, id: u64|
        id < s.symbol_counters.next_id(kind) ==> #[trigger] id_in_use(s, kind, id)
}

/// Every definition has a value that fits its symbol.
pub open spec fn values_consistent<T>(s: AnalyzerView<T>) -> bool {
    forall|name: Seq<char>| #[trigger]
        s.definitions.contains_key(name) ==> value_fits(
            s.definitions[name].0,
            s.definitions[name].1,
        )
}

/// How many identities are among the statements.
pub open spec fn count_identities(order: Seq<StatementIdentifierView>) -> nat
    decreases order.len(),
{
    if order.len() == 0 {
        0
    } else {
        count_identities(order.drop_last()) + if order.last() is Identity {
            1nat
        } else {
            0nat
        }
    }
}

/// The source order lists each definition exactly once, every public declaration,
/// and the identities in the order of their list.
pub open spec fn order_consistent<T>(s: AnalyzerView<T>) -> bool {
    &&& forall|name: Seq<char>| #[trigger]
        s.definitions.contains_key(name) <==> s.source_order.contains(
            StatementIdentifierView::Definition(name),
        )
    &&& forall|i: int, j: int|
        0 <= i < j < s.source_order.len() && #[trigger] s.source_order[i] is Definition
            ==> s.source_order[i] != #[trigger] s.source_order[j]
    &&& forall|name: Seq<char>| #[trigger]
        s.public_declarations.contains_key(name) <==> s.source_order.contains(
            StatementIdentifierView::PublicDeclaration(name),
        )
    &&& forall|i: int|
        0 <= i < s.source_order.len() && (#[trigger] s.source_order[i]) is Identity
            ==> s.source_order[i]->Identity_0 == count_identities(s.source_order.take(i))
    &&& count_identities(s.source_order) == s.identities.len()
}

/// The identities of each kind are numbered from zero in the order of the list.
pub open spec fn identities_consistent<T>(s: AnalyzerView<T>) -> bool {
    &&& forall|i: int|
        0 <= i < s.identities.len() ==> (#[trigger] s.identities[i]).id == pil_analyzer::count_kind(
            s.identities.take(i),
            s.identities[i].kind,
        )
    &&& forall|kind: IdentityKind|
        s.identity_counter.next_id(kind) == #[trigger] pil_analyzer::count_kind(s.identities, kind)
}

/// No name is declared public twice.
pub open spec fn declared_once(order: Seq<StatementIdentifierView>) -> bool {
    forall|i: int, j: int|
        0 <= i < j < order.len() && #[trigger] order[i] is PublicDeclaration ==> order[i]
            != #[trigger] order[j]
}

/// Every public declaration stands under its name. As long as none is declared
/// twice, their ids are different and below their number.
pub open spec fn publics_consistent<T>(s: AnalyzerView<T>) -> bool {
    &&& s.public_declarations.dom().finite()
    &&& s.public_declarations.len() <= s.source_order.len()
    &&& forall|name: Seq<char>| #[trigger]
        s.public_declarations.contains_key(name) ==> {
            &&& s.public_declarations[name].name == name
            &&& declared_once(s.source_order) ==> s.public_declarations[name].id
                < s.public_declarations.len()
        }
    &&& declared_once(s.source_order) ==> forall|a: Seq<char>, b: Seq<char>| #[trigger]
        s.public_declarations.contains_key(a) && #[trigger] s.public_declarations.contains_key(b)
            && a != b ==> s.public_declarations[a].id != s.public_declarations[b].id
}

/// Names, ids and the source order fit together.
pub open spec fn orderly<T>(s: AnalyzerView<T>) -> bool {
    &&& definitions_consistent(s)
    &&& order_consistent(s)
    &&& identities_consistent(s)
    &&& publics_consistent(s)
}

/// What holds of the analyzer between any two statements: it is orderly, and
/// values fit their symbols.
pub open spec fn consistent<T>(s: AnalyzerView<T>) -> bool {
    orderly(s) && values_consistent(s)
}

/// The step from `s` to `t` ends in an orderly state, and in a consistent one if
/// it starts in one.
pub open spec fn stays_consistent<T>(s: AnalyzerView<T>, t: AnalyzerView<T>) -> bool {
    &&& orderly(t)
    &&& consistent(s) ==> consistent(t)
}

/// The analyzer starts out consistent.
pub proof fn lemma_initial_consistent<T>()
    ensures
        consistent(pil_analyzer::initial::<T>()),
{
}

proof fn lemma_push_contains(
    order: Seq<StatementIdentifierView>,
    entry: StatementIdentifierView,
    other: StatementIdentifierView,
)
    ensures
        order.push(entry).contains(other) <==> order.contains(other) || other == entry,
{
    let longer = order.push(entry);
    if order.contains(other) {
        let i = choose|i: int| 0 <= i < order.len() && order[i] == other;
        assert(longer[i] == other);
    }
    if other == entry {
        assert(longer[order.len() as int] == other);
    }
    if longer.contains(other) {
        let i = choose|i: int| 0 <= i < longer.len() && longer[i] == other;
        if i < order.len() {
            assert(order[i] == other);
        }
    }
}

proof fn lemma_with_definition_consistent<T>(
    s: AnalyzerView<T>,
    source: SourceRefView,
    name: Seq<char>,
    length: Option<DegreeType>,
    kind: SymbolKind,
    value: Option<FunctionValueDefinitionView<T>>,
)
    requires
        orderly(s),
        !s.definitions.contains_key(name),
        s.symbol_counters.next_id(kind) + statements::ids_taken(length) <= u64::MAX,
    ensures
        ({
            let t = statements::with_definition(s, source, name, length, kind, value);
            &&& orderly(t)
            &&& consistent(s) && value_fits(t.definitions[name].0, value) ==> consistent(t)
        }),
{
    let t = statements::with_definition(s, source, name, length, kind, value);
    lemma_no_gaps(s, source, name, length, kind, value);
    let entry = StatementIdentifierView::Definition(name);
    assert forall|a: Seq<char>, b: Seq<char>|
        t.definitions.contains_key(a) && t.definitions.contains_key(b) && a != b implies #[trigger]
    ids_apart(t.definitions[a].0, t.definitions[b].0) by {
        if a != name && b != name {
            assert(ids_apart(s.definitions[a].0, s.definitions[b].0));
        } else if a == name {
            assert(s.definitions.contains_key(b));
        } else {
            assert(s.definitions.contains_key(a));
        }
    }
    assert forall|other: Seq<char>| #[trigger] t.definitions.contains_key(other) implies {
        let symbol = t.definitions[other].0;
        &&& symbol.absolute_name == other
        &&& symbol.id + statements::ids_taken(symbol.length) <= t.symbol_counters.next_id(
            symbol.kind,
        )
    } by {
        if other != name {
            assert(s.definitions.contains_key(other));
        }
    }
    lemma_order_push(s.source_order, entry);
    lemma_publics_kept(s, t, entry);
    assert forall|other: Seq<char>| #[trigger]
        t.definitions.contains_key(other) <==> t.source_order.contains(
            StatementIdentifierView::Definition(other),
        ) by {
        lemma_push_contains(s.source_order, entry, StatementIdentifierView::Definition(other));
        assert(s.definitions.contains_key(other) <==> s.source_order.contains(
            StatementIdentifierView::Definition(other),
        ));
    }
    assert forall|other: Seq<char>| #[trigger]
        t.public_declarations.contains_key(other) <==> t.source_order.contains(
            StatementIdentifierView::PublicDeclaration(other),
        ) by {
        lemma_push_contains(
            s.source_order,
            entry,
            StatementIdentifierView::PublicDeclaration(other),
        );
        assert(s.public_declarations.contains_key(other) <==> s.source_order.contains(
            StatementIdentifierView::PublicDeclaration(other),
        ));
    }
    assert(!s.source_order.contains(entry)) by {
        assert(!s.definitions.contains_key(name));
    }
    assert forall|i: int, j: int|
        0 <= i < j < t.source_order.len() && #[trigger] t.source_order[i] is Definition implies
    t.source_order[i] != #[trigger] t.source_order[j] by {
        assert(t.source_order[i] == s.source_order[i]);
        if j < s.source_order.len() {
            assert(t.source_order[j] == s.source_order[j]);
        } else {
            assert(s.source_order.contains(s.source_order[i]));
        }
    }
}

/// The ids of one more symbol follow those before it.
proof fn lemma_no_gaps<T>(
    s: AnalyzerView<T>,
    source: SourceRefView,
    name: Seq<char>,
    length: Option<DegreeType>,
    kind: SymbolKind,
    value: Option<FunctionValueDefinitionView<T>>,
)
    requires
        definitions_consistent(s),
        !s.definitions.contains_key(name),
        s.symbol_counters.next_id(kind) + statements::ids_taken(length) <= u64::MAX,
    ensures
        ({
            let t = statements::with_definition(s, source, name, length, kind, value);
            forall|k: SymbolKind, id: u64|
                id < t.symbol_counters.next_id(k) ==> #[trigger] id_in_use(t, k, id)
        }),
{
    let t = statements::with_definition(s, source, name, length, kind, value);
    assert forall|k: SymbolKind, id: u64|
        id < t.symbol_counters.next_id(k) implies #[trigger] id_in_use(t, k, id) by {
        if id < s.symbol_counters.next_id(k) {
            assert(id_in_use(s, k, id));
            let other = choose|other: Seq<char>| #[trigger]
                s.definitions.contains_key(other) && has_id(s.definitions[other].0, k, id);
            assert(t.definitions.contains_key(other));
            assert(t.definitions[other] == s.definitions[other]);
        } else {
            assert(t.definitions.contains_key(name));
            assert(has_id(t.definitions[name].0, k, id));
        }
    }
}

/// The same definitions have the same ids.
proof fn lemma_ids_elsewhere<T>(s: AnalyzerView<T>, t: AnalyzerView<T>)
    requires
        definitions_consistent(s),
        t.definitions == s.definitions,
        t.symbol_counters == s.symbol_counters,
    ensures
        definitions_consistent(t),
{
    assert forall|a: Seq<char>, b: Seq<char>|
        t.definitions.contains_key(a) && t.definitions.contains_key(b) && a != b implies #[trigger]
    ids_apart(t.definitions[a].0, t.definitions[b].0) by {
        assert(ids_apart(s.definitions[a].0, s.definitions[b].0));
    }
    assert forall|kind: SymbolKind, id: u64|
        id < t.symbol_counters.next_id(kind) implies #[trigger] id_in_use(t, kind, id) by {
        assert(id_in_use(s, kind, id));
        let name = choose|name: Seq<char>| #[trigger]
            s.definitions.contains_key(name) && has_id(s.definitions[name].0, kind, id);
        assert(t.definitions.contains_key(name));
    }
}

/// One more entry that declares nothing public keeps the public declarations as
/// they are.
proof fn lemma_publics_kept<T>(
    s: AnalyzerView<T>,
    t: AnalyzerView<T>,
    entry: StatementIdentifierView,
)
    requires
        publics_consistent(s),
        !(entry is PublicDeclaration),
        t.source_order == s.source_order.push(entry),
        t.public_declarations == s.public_declarations,
    ensures
        publics_consistent(t),
{
    if declared_once(t.source_order) {
        assert forall|i: int, j: int|
            0 <= i < j < s.source_order.len()
                && #[trigger] s.source_order[i] is PublicDeclaration implies s.source_order[i]
            != #[trigger] s.source_order[j] by {
            assert(t.source_order[i] == s.source_order[i]);
            assert(t.source_order[j] == s.source_order[j]);
        }
    }
}

/// There are at most as many identities among the statements as there are
/// statements.
proof fn lemma_count_identities_bound(order: Seq<StatementIdentifierView>)
    ensures
        count_identities(order) <= order.len(),
    decreases order.len(),
{
    if order.len() > 0 {
        lemma_count_identities_bound(order.drop_last());
    }
}

/// One more entry keeps the count of identities before each of the others.
proof fn lemma_order_push(order: Seq<StatementIdentifierView>, entry: StatementIdentifierView)
    ensures
        count_identities(order.push(entry)) == count_identities(order) + if entry is Identity {
            1nat
        } else {
            0nat
        },
        forall|i: int|
            0 <= i <= order.len() ==> #[trigger] order.push(entry).take(i) == order.take(i),
{
    assert(order.push(entry).drop_last() =~= order);
    assert forall|i: int| 0 <= i <= order.len() implies #[trigger] order.push(entry).take(i)
        == order.take(i) by {
        assert(order.push(entry).take(i) =~= order.take(i));
    }
}

proof fn lemma_with_identity_consistent<T>(
    s: AnalyzerView<T>,
    source: SourceRefView,
    body: IdentityBody<T>,
)
    requires
        orderly(s),
        s.identity_counter.next_id(body.kind) < u64::MAX,
    ensures
        stays_consistent(s, statements::with_identity(s, source, body)),
{
    let t = statements::with_identity(s, source, body);
    lemma_ids_elsewhere(s, t);
    let entry = StatementIdentifierView::Identity(s.identities.len() as int);
    lemma_order_push(s.source_order, entry);
    lemma_order_entry(s, t, entry);
    lemma_publics_kept(s, t, entry);
    assert(t.identities.drop_last() =~= s.identities);
    assert forall|i: int| 0 <= i < t.identities.len() implies (#[trigger] t.identities[i]).id
        == pil_analyzer::count_kind(t.identities.take(i), t.identities[i].kind) by {
        assert(t.identities.take(i) =~= s.identities.take(i));
        if i < s.identities.len() {
            assert(t.identities[i] == s.identities[i]);
        } else {
            assert(s.identities.take(i) =~= s.identities);
            assert(s.identity_counter.next_id(body.kind) == pil_analyzer::count_kind(
                s.identities,
                body.kind,
            ));
        }
    }
    assert forall|kind: IdentityKind|
        t.identity_counter.next_id(kind) == #[trigger] pil_analyzer::count_kind(
            t.identities,
            kind,
        ) by {
        assert(s.identity_counter.next_id(kind) == pil_analyzer::count_kind(s.identities, kind));
    }
}

/// The definitions and declarations of an order with one more entry, which is of
/// neither kind.
proof fn lemma_order_entry<T>(
    s: AnalyzerView<T>,
    t: AnalyzerView<T>,
    entry: StatementIdentifierView,
)
    requires
        orderly(s),
        entry is Identity,
        t.source_order == s.source_order.push(entry),
        t.definitions == s.definitions,
        t.public_declarations == s.public_declarations,
    ensures
        forall|name: Seq<char>| #[trigger]
            t.definitions.contains_key(name) <==> t.source_order.contains(
                StatementIdentifierView::Definition(name),
            ),
        forall|name: Seq<char>| #[trigger]
            t.public_declarations.contains_key(name) <==> t.source_order.contains(
                StatementIdentifierView::PublicDeclaration(name),
            ),
        forall|i: int, j: int|
            0 <= i < j < t.source_order.len() && #[trigger] t.source_order[i] is Definition
                ==> t.source_order[i] != #[trigger] t.source_order[j],
{
    assert forall|name: Seq<char>| #[trigger]
        t.definitions.contains_key(name) <==> t.source_order.contains(
            StatementIdentifierView::Definition(name),
        ) by {
        lemma_push_contains(s.source_order, entry, StatementIdentifierView::Definition(name));
        assert(s.definitions.contains_key(name) <==> s.source_order.contains(
            StatementIdentifierView::Definition(name),
        ));
    }
    assert forall|name: Seq<char>| #[trigger]
        t.public_declarations.contains_key(name) <==> t.source_order.contains(
            StatementIdentifierView::PublicDeclaration(name),
        ) by {
        lemma_push_contains(
            s.source_order,
            entry,
            StatementIdentifierView::PublicDeclaration(name),
        );
        assert(s.public_declarations.contains_key(name) <==> s.source_order.contains(
            StatementIdentifierView::PublicDeclaration(name),
        ));
    }
    assert forall|i: int, j: int|
        0 <= i < j < t.source_order.len() && #[trigger] t.source_order[i] is Definition implies
    t.source_order[i] != #[trigger] t.source_order[j] by {
        assert(t.source_order[i] == s.source_order[i]);
        if j < s.source_order.len() {
            assert(t.source_order[j] == s.source_order[j]);
        }
    }
}

/// One more public declaration has the number of those before it as its id.
proof fn lemma_publics_grow<T>(s: AnalyzerView<T>, t: AnalyzerView<T>, name: Seq<char>)
    requires
        orderly(s),
        s.source_order.len() < u64::MAX,
        t.source_order == s.source_order.push(StatementIdentifierView::PublicDeclaration(name)),
        t.public_declarations == s.public_declarations.insert(name, t.public_declarations[name]),
        t.public_declarations[name].name == name,
        t.public_declarations[name].id == s.public_declarations.len(),
    ensures
        publics_consistent(t),
{
    let entry = StatementIdentifierView::PublicDeclaration(name);
    assert(t.public_declarations.dom() =~= s.public_declarations.dom().insert(name));
    if declared_once(t.source_order) {
        assert forall|i: int, j: int|
            0 <= i < j < s.source_order.len()
                && #[trigger] s.source_order[i] is PublicDeclaration implies s.source_order[i]
            != #[trigger] s.source_order[j] by {
            assert(t.source_order[i] == s.source_order[i]);
            assert(t.source_order[j] == s.source_order[j]);
        }
        assert(!s.public_declarations.contains_key(name)) by {
            if s.public_declarations.contains_key(name) {
                assert(s.source_order.contains(entry));
                let i = choose|i: int| 0 <= i < s.source_order.len() && s.source_order[i] == entry;
                assert(t.source_order[i] == entry);
                assert(t.source_order[s.source_order.len() as int] == entry);
            }
        }
        assert forall|a: Seq<char>, b: Seq<char>| #[trigger]
            t.public_declarations.contains_key(a) && #[trigger] t.public_declarations.contains_key(
                b,
            ) && a != b implies t.public_declarations[a].id != t.public_declarations[b].id by {
            if a != name {
                assert(s.public_declarations.contains_key(a));
            }
            if b != name {
                assert(s.public_declarations.contains_key(b));
            }
        }
    }
    assert forall|other: Seq<char>| #[trigger]
        t.public_declarations.contains_key(other) implies t.public_declarations[other].name == other
        && (declared_once(t.source_order) ==> t.public_declarations[other].id
        < t.public_declarations.len()) by {
        if other != name {
            assert(s.public_declarations.contains_key(other));
        }
    }
}

proof fn lemma_declare_public_consistent<T: FieldElement>(
    s: AnalyzerView<T>,
    source: SourceRefView,
    name: Seq<char>,
    poly: NamespacedPolynomialReference<T>,
    index: Expression<T>,
)
    requires
        orderly(s),
        s.source_order.len() < u64::MAX,
    ensures
        statements::declare_public(s, source, name, poly, index) matches Ok(t) ==> stays_consistent(
            s,
            t,
        ),
{
    if let Ok(t) = statements::declare_public(s, source, name, poly, index) {
        let entry = StatementIdentifierView::PublicDeclaration(name);
        lemma_order_push(s.source_order, entry);
        lemma_publics_grow(s, t, name);
        assert forall|other: Seq<char>| #[trigger]
            t.definitions.contains_key(other) <==> t.source_order.contains(
                StatementIdentifierView::Definition(other),
            ) by {
            lemma_push_contains(s.source_order, entry, StatementIdentifierView::Definition(other));
            assert(s.definitions.contains_key(other) <==> s.source_order.contains(
                StatementIdentifierView::Definition(other),
            ));
        }
        assert forall|other: Seq<char>| #[trigger]
            t.public_declarations.contains_key(other) <==> t.source_order.contains(
                StatementIdentifierView::PublicDeclaration(other),
            ) by {
            lemma_push_contains(
                s.source_order,
                entry,
                StatementIdentifierView::PublicDeclaration(other),
            );
            assert(s.public_declarations.contains_key(other) <==> s.source_order.contains(
                StatementIdentifierView::PublicDeclaration(other),
            ));
        }
        assert forall|i: int, j: int|
            0 <= i < j < t.source_order.len() && #[trigger] t.source_order[i] is Definition implies
        t.source_order[i] != #[trigger] t.source_order[j] by {
            assert(t.source_order[i] == s.source_order[i]);
            if j < s.source_order.len() {
                assert(t.source_order[j] == s.source_order[j]);
            }
        }
        lemma_ids_elsewhere(s, t);
    }
}

/// What a definition may be: without a value it is a witness or fixed column, and
/// an array defines one of these.
pub open spec fn ordinary<T>(kind: SymbolKind, value: Option<FunctionDefinition<T>>) -> bool {
    let column = kind == SymbolKind::Poly(PolynomialType::Committed) || kind == SymbolKind::Poly(
        PolynomialType::Constant,
    );
    match value {
        None => column,
        Some(FunctionDefinition::Array(_)) => column,
        Some(_) => true,
    }
}

/// A definition leaves an orderly state orderly, and a consistent one consistent
/// if it is an ordinary one.
pub proof fn lemma_define_consistent<T: FieldElement>(
    s: AnalyzerView<T>,
    source: SourceRefView,
    name: Seq<char>,
    array_size: Option<Expression<T>>,
    kind: SymbolKind,
    value: Option<FunctionDefinition<T>>,
)
    requires
        orderly(s),
    ensures
        statements::define(s, source, name, array_size, kind, value) matches Ok(t) ==> {
            &&& orderly(t)
            &&& ordinary(kind, value) ==> stays_consistent(s, t)
        },
{
    if let Ok(t) = statements::define(s, source, name, array_size, kind, value) {
        let length = statements::array_length(s, array_size)->Ok_0;
        let absolute = expressions::absolute_name(s.scope(), name);
        let v = match value {
            None => None,
            Some(v) => Some(statements::process_value(s, kind, v)->Ok_0),
        };
        assert(t == statements::with_definition(s, source, absolute, length, kind, v));
        lemma_with_definition_consistent(s, source, absolute, length, kind, v);
    }
}

proof fn lemma_declare_consistent<T: FieldElement>(
    s: AnalyzerView<T>,
    source: SourceRefView,
    polynomials: Seq<PolynomialName<T>>,
    polynomial_type: PolynomialType,
)
    requires
        orderly(s),
        polynomial_type != PolynomialType::Intermediate,
    ensures
        stays_consistent(s, statements::declare(s, source, polynomials, polynomial_type).0),
    decreases polynomials.len(),
{
    if polynomials.len() > 0 {
        lemma_declare_consistent(s, source, polynomials.drop_last(), polynomial_type);
        let front = statements::declare(s, source, polynomials.drop_last(), polynomial_type).0;
        let last = polynomials.last();
        lemma_define_consistent(
            front,
            source,
            last.name@,
            last.array_size,
            SymbolKind::Poly(polynomial_type),
            None,
        );
    }
}

/// An identity leaves an orderly state orderly and a consistent one consistent, as
/// long as the statements can be counted.
pub proof fn lemma_add_identity_consistent<T: FieldElement>(
    s: AnalyzerView<T>,
    statement: PilStatement<T>,
)
    requires
        orderly(s),
    ensures
        statements::add_identity(s, statement) matches Ok(t) ==> t.source_order.len() <= u64::MAX
            ==> stays_consistent(s, t),
{
    if let Ok(t) = statements::add_identity(s, statement) {
        if t.source_order.len() <= u64::MAX {
            lemma_count_identities_bound(s.source_order);
            let body = statements::identity_body(s, statement)->Ok_0;
            let source = statements::source_ref(s, body.start)->Ok_0;
            assert(t == statements::with_identity(s, source, body));
            pil_analyzer::lemma_count_kind_bound(s.identities, body.kind);
            assert(s.identity_counter.next_id(body.kind) == pil_analyzer::count_kind(
                s.identities,
                body.kind,
            ));
            lemma_with_identity_consistent(s, source, body);
        }
    }
}

/// A change of what a consistent state does not speak of keeps it consistent.
proof fn lemma_elsewhere_consistent<T>(s: AnalyzerView<T>, t: AnalyzerView<T>)
    requires
        orderly(s),
        t.definitions == s.definitions,
        t.public_declarations == s.public_declarations,
        t.identities == s.identities,
        t.source_order == s.source_order,
        t.symbol_counters == s.symbol_counters,
        t.identity_counter == s.identity_counter,
    ensures
        stays_consistent(s, t),
{
    lemma_ids_elsewhere(s, t);
}

/// What `let` defines keeps the state consistent.
proof fn lemma_define_generic_consistent<T: FieldElement>(
    s: AnalyzerView<T>,
    start: usize,
    name: Seq<char>,
    value: Option<Expression<T>>,
)
    requires
        orderly(s),
    ensures
        statements::define_generic(s, start, name, value) matches Ok(t) ==> stays_consistent(s, t),
{
    match value {
        None => {
            if let Ok(source) = statements::source_ref(s, start) {
                lemma_define_consistent(
                    s,
                    source,
                    name,
                    None,
                    SymbolKind::Poly(PolynomialType::Committed),
                    None,
                );
            }
        },
        Some(e) => {
            if e is LambdaExpression && e->LambdaExpression_0.params@.len() == 1 {
                if let Ok(source) = statements::source_ref(s, start) {
                    lemma_define_consistent(
                        s,
                        source,
                        name,
                        None,
                        SymbolKind::Poly(PolynomialType::Constant),
                        Some(
                            FunctionDefinition::Mapping(
                                e->LambdaExpression_0.params,
                                *e->LambdaExpression_0.body,
                            ),
                        ),
                    );
                }
            } else {
                match evaluation::evaluate(s.constants, e) {
                    Err(_) => {},
                    Ok(Some(constant)) => {
                        if let Ok(t) = statements::define_constant(s, name, constant) {
                            lemma_elsewhere_consistent(s, t);
                        }
                    },
                    Ok(None) => {
                        if let Ok(source) = statements::source_ref(s, start) {
                            lemma_define_consistent(
                                s,
                                source,
                                name,
                                None,
                                SymbolKind::Other(),
                                Some(FunctionDefinition::Expression(e)),
                            );
                        }
                    },
                }
            }
        },
    }
}

/// A statement leaves an orderly state orderly and a consistent one consistent, whether
/// it is accepted or not, as long as the statements can be counted.
pub proof fn lemma_statement_consistent<T: FieldElement>(
    s: AnalyzerView<T>,
    statement: PilStatement<T>,
)
    requires
        orderly(s),
        statements::handle(s, statement).0.source_order.len() <= u64::MAX,
    ensures
        stays_consistent(s, statements::handle(s, statement).0),
    decreases statement, 0nat,
{
    let t = statements::handle(s, statement).0;
    match statement {
        PilStatement::Include(_, file) => {
            lemma_file_consistent(s, file);
        },
        PilStatement::Namespace(_, name, degree) => {
            lemma_elsewhere_consistent(s, t);
        },
        PilStatement::PolynomialDefinition(start, name, e) => {
            if let Ok(source) = statements::source_ref(s, start) {
                lemma_define_consistent(
                    s,
                    source,
                    name@,
                    None,
                    SymbolKind::Poly(PolynomialType::Intermediate),
                    Some(FunctionDefinition::Expression(e)),
                );
            }
        },
        PilStatement::PublicDeclaration(start, name, polynomial, index) => {
            if let Ok(source) = statements::source_ref(s, start) {
                if t.source_order.len() > s.source_order.len() {
                    lemma_declare_public_consistent(s, source, name@, polynomial, index);
                }
            }
        },
        PilStatement::PolynomialConstantDeclaration(start, polynomials) => {
            if let Ok(source) = statements::source_ref(s, start) {
                lemma_declare_consistent(s, source, polynomials@, PolynomialType::Constant);
            }
        },
        PilStatement::PolynomialConstantDefinition(start, name, value) => {
            if let Ok(source) = statements::source_ref(s, start) {
                lemma_define_consistent(
                    s,
                    source,
                    name@,
                    None,
                    SymbolKind::Poly(PolynomialType::Constant),
                    Some(value),
                );
            }
        },
        PilStatement::PolynomialCommitDeclaration(start, polynomials, None) => {
            if let Ok(source) = statements::source_ref(s, start) {
                lemma_declare_consistent(s, source, polynomials@, PolynomialType::Committed);
            }
        },
        PilStatement::PolynomialCommitDeclaration(start, polynomials, Some(value)) => {
            if let Ok(source) = statements::source_ref(s, start) {
                lemma_define_consistent(
                    s,
                    source,
                    polynomials@[0].name@,
                    polynomials@[0].array_size,
                    SymbolKind::Poly(PolynomialType::Committed),
                    Some(value),
                );
            }
        },
        PilStatement::ConstantDefinition(_, name, e) => {
            lemma_elsewhere_consistent(s, t);
        },
        PilStatement::LetStatement(start, name, value) => {
            lemma_define_generic_consistent(s, start, name@, value);
        },
        PilStatement::MacroDefinition(_, _, _, _, _) => {},
        _ => {
            lemma_add_identity_consistent(s, statement);
        },
    }
}

/// Statements leave an orderly state orderly and a consistent one consistent,
/// whether they are accepted or not, as long as the statements can be counted.
pub proof fn lemma_statements_consistent<T: FieldElement>(
    s: AnalyzerView<T>,
    statements: Seq<PilStatement<T>>,
)
    requires
        orderly(s),
        statements::handle_all(s, statements).0.source_order.len() <= u64::MAX,
    ensures
        stays_consistent(s, statements::handle_all(s, statements).0),
    decreases statements, 0nat,
{
    if statements.len() > 0 {
        let (front, outcome) = statements::handle_all(s, statements.drop_last());
        if outcome is Ok {
            lemma_statement_extends(front, statements.last());
            assert(front.source_order.len() <= u64::MAX);
            lemma_statements_consistent(s, statements.drop_last());
            lemma_statement_consistent(front, statements.last());
        } else {
            lemma_statements_consistent(s, statements.drop_last());
        }
    }
}

/// A text leaves an orderly state orderly and a consistent one consistent, whether
/// it is accepted or not, as long as the statements can be counted.
pub proof fn lemma_contents_consistent<T: FieldElement>(
    s: AnalyzerView<T>,
    file_name: Option<Seq<char>>,
    contents: Seq<char>,
    statements: Seq<PilStatement<T>>,
)
    requires
        orderly(s),
        statements::handle_contents(s, file_name, contents, statements).0.source_order.len()
            <= u64::MAX,
    ensures
        stays_consistent(s, statements::handle_contents(s, file_name, contents, statements).0),
    decreases statements, 1nat,
{
    let entered = AnalyzerView {
        current_file: file_name,
        line_starts: lines::line_starts(vstd::utf8::encode_utf8(contents)),
        ..s
    };
    lemma_elsewhere_consistent(s, entered);
    let left = statements::handle_all(entered, statements).0;
    let t = statements::handle_contents(s, file_name, contents, statements).0;
    assert(left.source_order == t.source_order);
    lemma_statements_consistent(entered, statements);
    lemma_elsewhere_consistent(left, t);
}

/// A file leaves an orderly state orderly and a consistent one consistent, whether
/// it is accepted or not, as long as the statements can be counted.
pub proof fn lemma_file_consistent<T: FieldElement>(s: AnalyzerView<T>, file: PilFile<T>)
    requires
        orderly(s),
        statements::handle_file(s, file).0.source_order.len() <= u64::MAX,
    ensures
        stays_consistent(s, statements::handle_file(s, file).0),
    decreases file, 0nat,
{
    if !s.included_files.contains(file.path@) {
        let noted = AnalyzerView { included_files: s.included_files.insert(file.path@), ..s };
        lemma_elsewhere_consistent(s, noted);
        lemma_contents_consistent(
            noted,
            pil_analyzer::file_view(file.file_name),
            file.contents@,
            file.statements@,
        );
    }
}

} // verus!
