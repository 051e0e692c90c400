//! From array expressions to the rows of a column.
use vstd::prelude::*;

use crate::analyzed;
use crate::analyzed::{RepeatedArray, RepeatedArrayView};
use crate::error::{AnalysisError, AnalysisErrorView, Outcome};
use crate::name_map::NameMap;
use crate::number::{DegreeType, FieldElement};
use crate::parsed::{ArrayExpression, Expression};
use crate::pil_analyzer::PILAnalyzer;
use crate::pil_analyzer::expressions;
use crate::pil_analyzer::expressions::Scope;

verus! {

/// The parts of the array, where the part that repeats has `size` rows. A part
/// that has no rows to fill is left out.
pub open spec fn process_array<T: FieldElement>(
    scope: Scope<T>,
    array: ArrayExpression<T>,
    size: DegreeType,
) -> Outcome<Seq<RepeatedArrayView<T>>>
    decreases array,
{
    match array {
        ArrayExpression::Value(items) => match expressions::process_all(scope, items@) {
            Err(error) => Err(error),
            Ok(values) => match analyzed::repeated_array(values, values.len() as DegreeType) {
                Err(error) => Err(error),
                Ok(part) => Ok(seq![part]),
            },
        },
        ArrayExpression::RepeatedValue(items) => if size == 0 {
            Ok(Seq::empty())
        } else {
            match expressions::process_all(scope, items@) {
                Err(error) => Err(error),
                Ok(values) => match analyzed::repeated_array(values, size) {
                    Err(error) => Err(error),
                    Ok(part) => Ok(seq![part]),
                },
            }
        },
        ArrayExpression::Concat(left, right) => match process_array(scope, *left, size) {
            Err(error) => Err(error),
            Ok(l) => match process_array(scope, *right, size) {
                Err(error) => Err(error),
                Ok(r) => Ok(l + r),
            },
        },
    }
}

/// The number of rows in all parts together.
pub open spec fn total_size<T>(parts: Seq<RepeatedArrayView<T>>) -> nat
    decreases parts.len(),
{
    if parts.len() == 0 {
        0
    } else {
        total_size(parts.drop_last()) + parts.last().size as nat
    }
}

/// The parts of a column of `degree` rows.
pub open spec fn process_column<T: FieldElement>(
    scope: Scope<T>,
    array: ArrayExpression<T>,
    degree: DegreeType,
) -> Outcome<Seq<RepeatedArrayView<T>>> {
    match array.solution(degree) {
        Err(error) => Err(error),
        Ok(size) => match process_array(scope, array, size) {
            Err(error) => Err(error),
            Ok(parts) => if total_size(parts) != degree {
                Err(AnalysisErrorView::ArraySizeMismatch)
            } else {
                Ok(parts)
            },
        },
    }
}

proof fn lemma_total_size_add<T>(left: Seq<RepeatedArrayView<T>>, right: Seq<RepeatedArrayView<T>>)
    ensures
        total_size(left + right) == total_size(left) + total_size(right),
    decreases right.len(),
{
    if right.len() == 0 {
        assert(left + right =~= left);
    } else {
        assert((left + right).drop_last() =~= left + right.drop_last());
        lemma_total_size_add(left, right.drop_last());
    }
}

proof fn lemma_total_size_front<T>(parts: Seq<RepeatedArrayView<T>>, end: int)
    requires
        0 <= end <= parts.len(),
    ensures
        total_size(parts.take(end)) <= total_size(parts),
{
    assert(parts.take(end) + parts.skip(end) =~= parts);
    lemma_total_size_add(parts.take(end), parts.skip(end));
}

proof fn lemma_process_all_len<T: FieldElement>(
    scope: Scope<T>,
    items: Seq<Expression<T>>,
)
    ensures
        expressions::process_all(scope, items) matches Ok(values) ==> values.len() == items.len(),
    decreases items.len(),
{
    if items.len() > 0 {
        lemma_process_all_len(scope, items.drop_last());
    }
}

/// The rows of the parts are those that do not repeat, and `size` for each part
/// that repeats.
pub proof fn lemma_array_size<T: FieldElement>(
    scope: Scope<T>,
    array: ArrayExpression<T>,
    size: DegreeType,
)
    requires
        array.constant_length() <= DegreeType::MAX,
    ensures
        process_array(scope, array, size) matches Ok(parts) ==> total_size(parts)
            == array.constant_length() + array.repetitions() * size,
    decreases array,
{
    match array {
        ArrayExpression::Value(items) => {
            lemma_process_all_len(scope, items@);
            assert(array.repetitions() * size == 0) by (nonlinear_arith)
                requires
                    array.repetitions() == 0,
            ;
            if let Ok(parts) = process_array(scope, array, size) {
                assert(total_size(parts.drop_last()) == 0);
            }
        },
        ArrayExpression::RepeatedValue(items) => {
            assert(array.repetitions() * size == size) by (nonlinear_arith)
                requires
                    array.repetitions() == 1,
            ;
            if let Ok(parts) = process_array(scope, array, size) {
                if parts.len() > 0 {
                    assert(total_size(parts.drop_last()) == 0);
                }
            }
        },
        ArrayExpression::Concat(left, right) => {
            lemma_array_size(scope, *left, size);
            lemma_array_size(scope, *right, size);
            assert((left.repetitions() + right.repetitions()) * size == left.repetitions() * size
                + right.repetitions() * size) by (nonlinear_arith);
            if let Ok(l) = process_array(scope, *left, size) {
                if let Ok(r) = process_array(scope, *right, size) {
                    lemma_total_size_add(l, r);
                }
            }
        },
    }
}

/// An array expression that fits the degree and has a part that repeats never
/// misses the degree: the one that repeats takes up what is left.
pub proof fn lemma_repetition_fills<T: FieldElement>(
    scope: Scope<T>,
    array: ArrayExpression<T>,
    degree: DegreeType,
)
    ensures
        array.solution(degree) matches Ok(size) ==> (process_array(scope, array, size) matches Ok(
            parts,
        ) ==> {
            &&& total_size(parts) <= degree
            &&& array.repetitions() == 1 ==> process_column(scope, array, degree) == Ok::<
                Seq<RepeatedArrayView<T>>,
                AnalysisErrorView,
            >(parts)
        }),
{
    if let Ok(size) = array.solution(degree) {
        lemma_array_size(scope, array, size);
        assert(array.repetitions() == 0 || array.repetitions() == 1);
        assert(0 * size == 0 && 1 * size == size) by (nonlinear_arith);
    }
}

impl<T: FieldElement> PILAnalyzer<T> {
    /// The parts of the array, where the part that repeats has `size` rows.
    pub fn process_array_expression(&self, array: &ArrayExpression<T>, size: DegreeType) -> (result:
        Result<Vec<RepeatedArray<T>>, AnalysisError>)
        requires
            self.wf(),
        ensures
            match result {
                Ok(parts) => process_array(self.scope(Map::empty()), *array, size) == Ok::<
                    Seq<RepeatedArrayView<T>>,
                    AnalysisErrorView,
                >(analyzed::arrays_view(parts@)),
                Err(error) => process_array(self.scope(Map::empty()), *array, size) == Err::<
                    Seq<RepeatedArrayView<T>>,
                    AnalysisErrorView,
                >(error@),
            },
        decreases array,
    {
        let ghost scope = self.scope(Map::empty());
        let locals: NameMap<u64> = NameMap::new();
        match array {
            ArrayExpression::Value(items) => match self.process_expressions(&locals, items) {
                Err(error) => Err(error),
                Ok(values) => {
                    let length: DegreeType = values.len() as DegreeType;
                    match RepeatedArray::new(values, length) {
                        Err(error) => Err(error),
                        Ok(part) => {
                            let parts = vec![part];
                            assert(analyzed::arrays_view(parts@) =~= seq![part@]);
                            Ok(parts)
                        },
                    }
                },
            },
            ArrayExpression::RepeatedValue(items) => {
                if size == 0 {
                    let parts: Vec<RepeatedArray<T>> = Vec::new();
                    assert(analyzed::arrays_view(parts@) =~= Seq::empty());
                    Ok(parts)
                } else {
                    match self.process_expressions(&locals, items) {
                        Err(error) => Err(error),
                        Ok(values) => match RepeatedArray::new(values, size) {
                            Err(error) => Err(error),
                            Ok(part) => {
                                let parts = vec![part];
                                assert(analyzed::arrays_view(parts@) =~= seq![part@]);
                                Ok(parts)
                            },
                        },
                    }
                }
            },
            ArrayExpression::Concat(left, right) => {
                let mut l = match self.process_array_expression(left, size) {
                    Err(error) => return Err(error),
                    Ok(l) => l,
                };
                match self.process_array_expression(right, size) {
                    Err(error) => Err(error),
                    Ok(mut r) => {
                        let ghost front = l@;
                        let ghost back = r@;
                        l.append(&mut r);
                        assert(analyzed::arrays_view(l@) =~= analyzed::arrays_view(front)
                            + analyzed::arrays_view(back));
                        Ok(l)
                    },
                }
            },
        }
    }

    /// The parts of a column of `degree` rows.
    pub(crate) fn process_column_values(&self, array: &ArrayExpression<T>, degree: DegreeType) -> (result:
        Result<Vec<RepeatedArray<T>>, AnalysisError>)
        requires
            self.wf(),
        ensures
            match result {
                Ok(parts) => process_column(self.scope(Map::empty()), *array, degree) == Ok::<
                    Seq<RepeatedArrayView<T>>,
                    AnalysisErrorView,
                >(analyzed::arrays_view(parts@)),
                Err(error) => process_column(self.scope(Map::empty()), *array, degree) == Err::<
                    Seq<RepeatedArrayView<T>>,
                    AnalysisErrorView,
                >(error@),
            },
    {
        let size = match array.solve(degree) {
            Err(error) => return Err(error),
            Ok(size) => size,
        };
        let parts = match self.process_array_expression(array, size) {
            Err(error) => return Err(error),
            Ok(parts) => parts,
        };
        let ghost all = analyzed::arrays_view(parts@);
        proof {
            lemma_repetition_fills(self.scope(Map::empty()), *array, degree);
        }
        let mut total: DegreeType = 0;
        let mut i: usize = 0;
        assert(all.take(0).len() == 0);
        while i < parts.len()
            invariant
                i <= parts@.len(),
                all == analyzed::arrays_view(parts@),
                total_size(all) <= degree,
                total == total_size(all.take(i as int)),
            decreases parts@.len() - i,
        {
            proof {
                assert(all.take(i + 1).drop_last() =~= all.take(i as int));
                lemma_total_size_front(all, i + 1);
            }
            total = total + parts[i].size();
            i = i + 1;
        }
        assert(all.take(i as int) =~= all);
        if total != degree {
            Err(AnalysisError::ArraySizeMismatch)
        } else {
            Ok(parts)
        }
    }
}

} // verus!
