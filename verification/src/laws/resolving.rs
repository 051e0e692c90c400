//! What becomes of references when the columns of a program get their ids.
use vstd::prelude::*;

use crate::analyzed::{
    DefinitionView, ExpressionView, FunctionValueDefinitionView, IdentityView, MatchArmView, PolyID,
    PolynomialReferenceView, PublicDeclarationView, ReferenceView, RepeatedArrayView,
    SelectedExpressionsView, SymbolKind,
};
use crate::error::AnalysisErrorView;
use crate::pil_analyzer::AnalyzerView;
use crate::pil_analyzer::resolution;
use crate::pil_analyzer::resolution::Names;

verus! {

/// A column has the id and the type of its symbol. What is not defined is no
/// column, and neither is what is defined as something else.
pub proof fn lemma_columns<T>(names: Names<T>, name: Seq<char>, id: PolyID)
    ensures
        resolution::column_id(names, name) matches Ok(found) ==> {
            found == id <==> {
                &&& names.definitions.contains_key(name)
                &&& names.definitions[name].0.id == id.id
                &&& names.definitions[name].0.kind == SymbolKind::Poly(id.ptype)
            }
        },
        resolution::column_id(names, name) is Ok <==> names.definitions.contains_key(name)
            && names.definitions[name].0.kind is Poly,
        !names.definitions.contains_key(name) ==> (resolution::column_id(names, name) matches Err(
            error,
        ) && error == AnalysisErrorView::ColumnNotFound(name)),
        names.definitions.contains_key(name) && names.definitions[name].0.kind is Other ==> (
        resolution::column_id(names, name) matches Err(error) && error
            == AnalysisErrorView::NotAColumn(name)),
{
}

/// `done` is the reference with the id of its column, and else the same.
pub open spec fn column_found<T>(
    names: Names<T>,
    reference: PolynomialReferenceView,
    done: PolynomialReferenceView,
) -> bool {
    &&& done.name == reference.name
    &&& done.index == reference.index
    &&& done.next == reference.next
    &&& done.poly_id is Some
    &&& Ok::<PolyID, AnalysisErrorView>(done.poly_id->Some_0) == resolution::column_id(
        names,
        reference.name,
    )
}

/// A reference to a constant stays as it is. Any other gets the id of its column,
/// and is an error if it has none.
pub proof fn lemma_references<T>(names: Names<T>, reference: PolynomialReferenceView)
    ensures
        ({
            let e = ExpressionView::<T>::Reference(ReferenceView::Poly(reference));
            &&& names.constants.contains_key(reference.name) ==> {
                &&& resolution::resolve(names, e) == e
                &&& resolution::first_error(names, e) is None
            }
            &&& !names.constants.contains_key(reference.name) ==> match resolution::column_id(
                names,
                reference.name,
            ) {
                Ok(_) => {
                    &&& resolution::first_error(names, e) is None
                    &&& resolution::resolve(names, e) matches ExpressionView::Reference(
                        ReferenceView::Poly(done),
                    )
                    &&& column_found(names, reference, done)
                },
                Err(error) => resolution::first_error(names, e) == Some(error),
            }
        }),
{
}

/// What has no parts and refers to no column stays as it is.
pub proof fn lemma_leaves<T>(names: Names<T>, e: ExpressionView<T>)
    requires
        e is Constant || e is PublicReference || e is Number || e is String || (e matches
            ExpressionView::Reference(reference) && reference is LocalVar),
    ensures
        resolution::resolve(names, e) == e,
        resolution::first_error(names, e) is None,
{
}

/// The expressions of `done` are those of `items`, each in its place and resolved.
pub open spec fn each_resolved<T>(
    names: Names<T>,
    items: Seq<ExpressionView<T>>,
    done: Seq<ExpressionView<T>>,
) -> bool {
    &&& done.len() == items.len()
    &&& forall|i: int|
        0 <= i < items.len() ==> #[trigger] done[i] == resolution::resolve(names, items[i])
}

/// `error` is that of the first expression that has one, if any has one.
pub open spec fn first_of<T>(
    names: Names<T>,
    items: Seq<ExpressionView<T>>,
    error: Option<AnalysisErrorView>,
) -> bool {
    match error {
        None => forall|i: int|
            0 <= i < items.len() ==> resolution::first_error(names, #[trigger] items[i]) is None,
        Some(_) => exists|k: int|
            {
                &&& 0 <= k < items.len()
                &&& resolution::first_error(names, #[trigger] items[k]) == error
                &&& forall|i: int|
                    0 <= i < k ==> resolution::first_error(names, #[trigger] items[i]) is None
            },
    }
}

/// A list is resolved item by item, and has the error of its first item that has
/// one.
pub proof fn lemma_lists<T>(names: Names<T>, items: Seq<ExpressionView<T>>)
    ensures
        each_resolved(names, items, resolution::resolve_all(names, items)),
        first_of(names, items, resolution::first_error_in(names, items)),
    decreases items.len(),
{
    if items.len() > 0 {
        let front = items.drop_last();
        lemma_lists(names, front);
        assert forall|i: int| 0 <= i < front.len() implies front[i] == #[trigger] items[i] by {}
        match resolution::first_error_in(names, front) {
            Some(error) => {
                let k = choose|k: int|
                    {
                        &&& 0 <= k < front.len()
                        &&& resolution::first_error(names, #[trigger] front[k]) == Some(error)
                        &&& forall|i: int|
                            0 <= i < k ==> resolution::first_error(names, #[trigger] front[i])
                                is None
                    };
                assert(items[k] == front[k]);
                assert forall|i: int| 0 <= i < k implies resolution::first_error(
                    names,
                    #[trigger] items[i],
                ) is None by {
                    assert(front[i] == items[i]);
                }
            },
            None => {
                assert forall|i: int| 0 <= i < front.len() implies resolution::first_error(
                    names,
                    #[trigger] items[i],
                ) is None by {
                    assert(front[i] == items[i]);
                }
                assert(items.last() == items[items.len() - 1]);
            },
        }
    }
}

/// Tuples, arrays and calls are resolved in their parts, each in its place.
pub proof fn lemma_collections<T>(
    names: Names<T>,
    items: Seq<ExpressionView<T>>,
    name: Seq<char>,
)
    ensures
        ({
            let tuple = ExpressionView::Tuple(items);
            let array = ExpressionView::ArrayLiteral(items);
            let call = ExpressionView::FunctionCall(name, items);
            &&& resolution::resolve(names, tuple) matches ExpressionView::Tuple(a)
            &&& each_resolved(names, items, a)
            &&& resolution::resolve(names, array) matches ExpressionView::ArrayLiteral(b)
            &&& each_resolved(names, items, b)
            &&& resolution::resolve(names, call) matches ExpressionView::FunctionCall(same, c)
            &&& same == name
            &&& each_resolved(names, items, c)
            &&& first_of(names, items, resolution::first_error(names, tuple))
            &&& first_of(names, items, resolution::first_error(names, array))
            &&& first_of(names, items, resolution::first_error(names, call))
        }),
{
    lemma_lists(names, items);
}

/// The first of two errors.
pub open spec fn first_of_two(
    a: Option<AnalysisErrorView>,
    b: Option<AnalysisErrorView>,
) -> Option<AnalysisErrorView> {
    if a is Some {
        a
    } else {
        b
    }
}

/// Operations and functions are resolved in their operands or their body. They keep
/// the operator or the parameters, and the order of the operands.
pub proof fn lemma_operations<T>(names: Names<T>, e: ExpressionView<T>)
    ensures
        e matches ExpressionView::BinaryOperation(left, op, right) ==> {
            &&& resolution::resolve(names, e) matches ExpressionView::BinaryOperation(l, same, r)
            &&& same == op
            &&& *l == resolution::resolve(names, *left)
            &&& *r == resolution::resolve(names, *right)
            &&& resolution::first_error(names, e) == first_of_two(
                resolution::first_error(names, *left),
                resolution::first_error(names, *right),
            )
        },
        e matches ExpressionView::UnaryOperation(op, value) ==> {
            &&& resolution::resolve(names, e) matches ExpressionView::UnaryOperation(same, v)
            &&& same == op
            &&& *v == resolution::resolve(names, *value)
            &&& resolution::first_error(names, e) == resolution::first_error(names, *value)
        },
        e matches ExpressionView::LambdaExpression(params, body) ==> {
            &&& resolution::resolve(names, e) matches ExpressionView::LambdaExpression(same, b)
            &&& same == params
            &&& *b == resolution::resolve(names, *body)
            &&& resolution::first_error(names, e) == resolution::first_error(names, *body)
        },
{
}

/// The error of the pattern of the arm, or else that of its value.
pub open spec fn error_of_arm<T>(names: Names<T>, arm: MatchArmView<T>) -> Option<
    AnalysisErrorView,
> {
    match arm.pattern {
        None => resolution::first_error(names, arm.value),
        Some(e) => first_of_two(
            resolution::first_error(names, e),
            resolution::first_error(names, arm.value),
        ),
    }
}

/// `done` is the arm with its pattern and its value resolved.
pub open spec fn arm_resolved<T>(
    names: Names<T>,
    arm: MatchArmView<T>,
    done: MatchArmView<T>,
) -> bool {
    &&& done.pattern is Some <==> arm.pattern is Some
    &&& arm.pattern matches Some(e) ==> done.pattern == Some(resolution::resolve(names, e))
    &&& done.value == resolution::resolve(names, arm.value)
}

/// `error` is that of the first arm that has one, if any has one.
pub open spec fn first_of_arms<T>(
    names: Names<T>,
    arms: Seq<MatchArmView<T>>,
    error: Option<AnalysisErrorView>,
) -> bool {
    match error {
        None => forall|i: int|
            0 <= i < arms.len() ==> error_of_arm(names, #[trigger] arms[i]) is None,
        Some(_) => exists|k: int|
            {
                &&& 0 <= k < arms.len()
                &&& error_of_arm(names, #[trigger] arms[k]) == error
                &&& forall|i: int| 0 <= i < k ==> error_of_arm(names, #[trigger] arms[i]) is None
            },
    }
}

proof fn lemma_arms<T>(names: Names<T>, arms: Seq<MatchArmView<T>>)
    ensures
        first_of_arms(names, arms, resolution::first_error_in_arms(names, arms)),
    decreases arms.len(),
{
    assert forall|arm: MatchArmView<T>| #[trigger]
        resolution::first_error_in_arm(names, arm) == error_of_arm(names, arm) by {}
    if arms.len() > 0 {
        let front = arms.drop_last();
        lemma_arms(names, front);
        assert(arms.last() == arms[arms.len() - 1]);
        match resolution::first_error_in_arms(names, front) {
            Some(error) => {
                let k = choose|k: int|
                    {
                        &&& 0 <= k < front.len()
                        &&& error_of_arm(names, #[trigger] front[k]) == Some(error)
                        &&& forall|i: int|
                            0 <= i < k ==> error_of_arm(names, #[trigger] front[i]) is None
                    };
                assert(arms[k] == front[k]);
                assert forall|i: int| 0 <= i < k implies error_of_arm(
                    names,
                    #[trigger] arms[i],
                ) is None by {
                    assert(front[i] == arms[i]);
                }
            },
            None => {
                assert forall|i: int| 0 <= i < front.len() implies error_of_arm(
                    names,
                    #[trigger] arms[i],
                ) is None by {
                    assert(front[i] == arms[i]);
                }
                assert(resolution::first_error_in_arm(names, arms.last()) == error_of_arm(
                    names,
                    arms[arms.len() - 1],
                ));
            },
        }
    }
}

/// A match is resolved in its parts, each in its place.
pub proof fn lemma_matches<T>(
    names: Names<T>,
    scrutinee: ExpressionView<T>,
    arms: Seq<MatchArmView<T>>,
)
    ensures
        ({
            let e = ExpressionView::MatchExpression(Box::new(scrutinee), arms);
            let error = resolution::first_error(names, e);
            &&& resolution::resolve(names, e) matches ExpressionView::MatchExpression(s, done)
            &&& *s == resolution::resolve(names, scrutinee)
            &&& done.len() == arms.len()
            &&& forall|i: int|
                0 <= i < arms.len() ==> arm_resolved(names, arms[i], #[trigger] done[i])
            &&& resolution::first_error(names, scrutinee) is Some ==> error
                == resolution::first_error(names, scrutinee)
            &&& resolution::first_error(names, scrutinee) is None ==> first_of_arms(
                names,
                arms,
                error,
            )
        }),
{
    lemma_arms(names, arms);
    let done = resolution::resolve_arms(names, arms);
    assert forall|i: int| 0 <= i < arms.len() implies arm_resolved(
        names,
        arms[i],
        #[trigger] done[i],
    ) by {
        assert(done[i] == resolution::resolve_arm(names, arms[i]));
    }
}

/// `error` is that of the first part that has one, if any has one.
pub open spec fn first_of_parts<T>(
    names: Names<T>,
    parts: Seq<RepeatedArrayView<T>>,
    error: Option<AnalysisErrorView>,
) -> bool {
    match error {
        None => forall|i: int|
            0 <= i < parts.len() ==> first_of(names, (#[trigger] parts[i]).pattern, None),
        Some(_) => exists|k: int|
            {
                &&& 0 <= k < parts.len()
                &&& first_of(names, (#[trigger] parts[k]).pattern, error)
                &&& forall|i: int|
                    0 <= i < k ==> first_of(names, (#[trigger] parts[i]).pattern, None)
            },
    }
}

proof fn lemma_parts<T>(names: Names<T>, parts: Seq<RepeatedArrayView<T>>)
    ensures
        first_of_parts(names, parts, resolution::first_error_in_parts(names, parts)),
    decreases parts.len(),
{
    if parts.len() > 0 {
        let front = parts.drop_last();
        lemma_parts(names, front);
        assert(parts.last() == parts[parts.len() - 1]);
        lemma_lists(names, parts.last().pattern);
        match resolution::first_error_in_parts(names, front) {
            Some(error) => {
                let k = choose|k: int|
                    {
                        &&& 0 <= k < front.len()
                        &&& first_of(names, (#[trigger] front[k]).pattern, Some(error))
                        &&& forall|i: int|
                            0 <= i < k ==> first_of(names, (#[trigger] front[i]).pattern, None)
                    };
                assert(parts[k] == front[k]);
                assert forall|i: int| 0 <= i < k implies first_of(
                    names,
                    (#[trigger] parts[i]).pattern,
                    None,
                ) by {
                    assert(front[i] == parts[i]);
                }
            },
            None => {
                assert forall|i: int| 0 <= i < front.len() implies first_of(
                    names,
                    (#[trigger] parts[i]).pattern,
                    None,
                ) by {
                    assert(front[i] == parts[i]);
                }
            },
        }
    }
}

/// The value of a symbol keeps its form. Its expression is resolved, and of an array
/// each expression of each part, which keeps its size.
pub proof fn lemma_values<T>(names: Names<T>, value: FunctionValueDefinitionView<T>)
    ensures
        ({
            let done = resolution::resolve_value(names, value);
            let error = resolution::first_error_in_value(names, value);
            match value {
                FunctionValueDefinitionView::Mapping(e) => {
                    &&& done matches FunctionValueDefinitionView::Mapping(r)
                    &&& r == resolution::resolve(names, e)
                    &&& error == resolution::first_error(names, e)
                },
                FunctionValueDefinitionView::Query(e) => {
                    &&& done matches FunctionValueDefinitionView::Query(r)
                    &&& r == resolution::resolve(names, e)
                    &&& error == resolution::first_error(names, e)
                },
                FunctionValueDefinitionView::Expression(e) => {
                    &&& done matches FunctionValueDefinitionView::Expression(r)
                    &&& r == resolution::resolve(names, e)
                    &&& error == resolution::first_error(names, e)
                },
                FunctionValueDefinitionView::Array(parts) => {
                    &&& done matches FunctionValueDefinitionView::Array(r)
                    &&& r.len() == parts.len()
                    &&& forall|i: int|
                        0 <= i < parts.len() ==> {
                            &&& (#[trigger] r[i]).size == parts[i].size
                            &&& each_resolved(names, parts[i].pattern, r[i].pattern)
                        }
                    &&& first_of_parts(names, parts, error)
                },
            }
        }),
{
    if let FunctionValueDefinitionView::Array(parts) = value {
        lemma_parts(names, parts);
        let done = resolution::resolve_value(names, value)->Array_0;
        assert forall|i: int| 0 <= i < parts.len() implies (#[trigger] done[i]).size
            == parts[i].size && each_resolved(names, parts[i].pattern, done[i].pattern) by {
            lemma_lists(names, parts[i].pattern);
            assert(done[i] == resolution::resolve_part(names, parts[i]));
        }
    }
}

/// A definition keeps its symbol, and has a value exactly if it had one.
pub proof fn lemma_definitions<T>(names: Names<T>, definition: DefinitionView<T>)
    ensures
        ({
            let done = resolution::resolve_definition(names, definition);
            let error = resolution::first_error_in_definition(names, definition);
            &&& done.0 == definition.0
            &&& done.1 is Some <==> definition.1 is Some
            &&& definition.1 is None ==> error is None
            &&& definition.1 matches Some(value) ==> done.1 == Some(
                resolution::resolve_value(names, value),
            ) && error == resolution::first_error_in_value(names, value)
        }),
{
}

/// Of one side of an identity the selector and each expression is resolved, each in
/// its place.
pub open spec fn side_resolved<T>(
    names: Names<T>,
    selected: SelectedExpressionsView<T>,
    done: SelectedExpressionsView<T>,
) -> bool {
    &&& done.selector is Some <==> selected.selector is Some
    &&& selected.selector matches Some(e) ==> done.selector == Some(resolution::resolve(names, e))
    &&& each_resolved(names, selected.expressions, done.expressions)
}

/// `error` is the first one of the selector or of an expression, if there is one.
pub open spec fn first_of_side<T>(
    names: Names<T>,
    selected: SelectedExpressionsView<T>,
    error: Option<AnalysisErrorView>,
) -> bool {
    match selected.selector {
        None => first_of(names, selected.expressions, error),
        Some(e) => if resolution::first_error(names, e) is Some {
            error == resolution::first_error(names, e)
        } else {
            first_of(names, selected.expressions, error)
        },
    }
}

/// An identity is resolved on both sides and keeps all else.
pub proof fn lemma_identities<T>(names: Names<T>, identity: IdentityView<T>)
    ensures
        ({
            let done = resolution::resolve_identity(names, identity);
            let on_left = resolution::first_error_in_selected(names, identity.left);
            let on_right = resolution::first_error_in_selected(names, identity.right);
            &&& done.id == identity.id
            &&& done.kind == identity.kind
            &&& done.source == identity.source
            &&& side_resolved(names, identity.left, done.left)
            &&& side_resolved(names, identity.right, done.right)
            &&& first_of_side(names, identity.left, on_left)
            &&& first_of_side(names, identity.right, on_right)
            &&& resolution::first_error_in_identity(names, identity) == first_of_two(
                on_left,
                on_right,
            )
        }),
{
    lemma_lists(names, identity.left.expressions);
    lemma_lists(names, identity.right.expressions);
}

/// A public declaration keeps all but the id of its column, which it needs even
/// where a constant has the name.
pub proof fn lemma_declarations<T>(names: Names<T>, declaration: PublicDeclarationView)
    ensures
        ({
            let done = resolution::resolve_declaration(names, declaration);
            let found = resolution::column_id(names, declaration.polynomial.name);
            &&& done.id == declaration.id
            &&& done.source == declaration.source
            &&& done.name == declaration.name
            &&& done.index == declaration.index
            &&& found is Ok ==> column_found(names, declaration.polynomial, done.polynomial)
            &&& match found {
                Ok(_) => resolution::first_error_in_declaration(names, declaration) is None,
                Err(error) => resolution::first_error_in_declaration(names, declaration) == Some(
                    error,
                ),
            }
        }),
{
}

/// The names of a program are those of its constants and definitions.
pub proof fn lemma_names<T>(s: AnalyzerView<T>)
    ensures
        resolution::names_of(s).constants == s.constants,
        resolution::names_of(s).definitions == s.definitions,
{
}

/// The program has the constants and the source order as they are, and each
/// definition, public declaration and identity resolved where it stands.
pub proof fn lemma_programs<T>(s: AnalyzerView<T>)
    ensures
        ({
            let names = resolution::names_of(s);
            let program = resolution::resolve_program(s);
            &&& program.constants == s.constants
            &&& program.source_order == s.source_order
            &&& forall|name: Seq<char>|
                #![trigger program.definitions.contains_key(name)]
                #![trigger s.definitions.contains_key(name)]
                {
                    &&& program.definitions.contains_key(name) <==> s.definitions.contains_key(name)
                    &&& s.definitions.contains_key(name) ==> program.definitions[name]
                        == resolution::resolve_definition(names, s.definitions[name])
                }
            &&& forall|name: Seq<char>|
                #![trigger program.public_declarations.contains_key(name)]
                #![trigger s.public_declarations.contains_key(name)]
                {
                    &&& program.public_declarations.contains_key(name)
                        <==> s.public_declarations.contains_key(name)
                    &&& s.public_declarations.contains_key(name)
                        ==> program.public_declarations[name] == resolution::resolve_declaration(
                        names,
                        s.public_declarations[name],
                    )
                }
            &&& program.identities.len() == s.identities.len()
            &&& forall|i: int|
                0 <= i < s.identities.len() ==> #[trigger] program.identities[i]
                    == resolution::resolve_identity(names, s.identities[i])
        }),
{
}

/// All is resolved exactly if no definition, no identity and no public declaration
/// has an error. An error that is reported is the first one of one of these, and
/// that of a public declaration only if nothing else has one.
pub proof fn lemma_errors<T>(s: AnalyzerView<T>, error: AnalysisErrorView)
    ensures
        ({
            let names = resolution::names_of(s);
            let definitions = forall|name: Seq<char>| #[trigger]
                s.definitions.contains_key(name) ==> resolution::first_error_in_definition(
                    names,
                    s.definitions[name],
                ) is None;
            let identities = forall|i: int|
                0 <= i < s.identities.len() ==> resolution::first_error_in_identity(
                    names,
                    #[trigger] s.identities[i],
                ) is None;
            let declarations = forall|name: Seq<char>| #[trigger]
                s.public_declarations.contains_key(name) ==> resolution::first_error_in_declaration(
                    names,
                    s.public_declarations[name],
                ) is None;
            &&& resolution::expressions_resolved(s) <==> definitions && identities
            &&& resolution::all_resolved(s) <==> definitions && identities && declarations
            &&& resolution::is_error_of(s, error) ==> {
                ||| exists|name: Seq<char>| #[trigger]
                    s.definitions.contains_key(name) && resolution::first_error_in_definition(
                        names,
                        s.definitions[name],
                    ) == Some(error)
                ||| exists|i: int|
                    0 <= i < s.identities.len() && resolution::first_error_in_identity(
                        names,
                        #[trigger] s.identities[i],
                    ) == Some(error)
                ||| definitions && identities && exists|name: Seq<char>| #[trigger]
                    s.public_declarations.contains_key(name)
                        && resolution::first_error_in_declaration(
                        names,
                        s.public_declarations[name],
                    ) == Some(error)
            }
            &&& resolution::all_resolved(s) ==> !resolution::is_error_of(s, error)
        }),
{
}

} // verus!
