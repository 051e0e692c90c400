//! What lines are.
use vstd::prelude::*;

use crate::lines;
use crate::pil_analyzer::AnalyzerView;
use crate::pil_analyzer::statements;

verus! {

/// A line starts at the beginning and after each newline, and nowhere else. The
/// starts stand in their order.
pub proof fn lemma_starts(source: Seq<u8>, offset: usize)
    requires
        source.len() <= usize::MAX,
    ensures
        lines::line_starts(source).contains(offset) <==> offset == 0 || (offset <= source.len()
            && source[offset - 1] == '\n' as u8),
        lines::rising(lines::line_starts(source)),
        lines::rising(lines::line_starts(source)) <==> forall|i: int, j: int|
            #![trigger lines::line_starts(source)[i], lines::line_starts(source)[j]]
            0 <= i < j < lines::line_starts(source).len() ==> lines::line_starts(source)[i]
                < lines::line_starts(source)[j],
    decreases source.len(),
{
    let starts = lines::line_starts(source);
    if source.len() > 0 {
        let shorter = source.drop_last();
        let before = lines::line_starts(shorter);
        lemma_starts(shorter, offset);
        lines::lemma_line_starts_bounds(shorter);
        if source.last() == lines::NEWLINE {
            assert(starts == before.push(source.len() as usize));
            assert(starts[before.len() as int] == source.len());
            if before.contains(offset) {
                let i = choose|i: int| 0 <= i < before.len() && before[i] == offset;
                assert(starts[i] == offset);
            }
            if starts.contains(offset) && offset != source.len() {
                let i = choose|i: int| 0 <= i < starts.len() && starts[i] == offset;
                assert(before[i] == offset);
            }
        }
    } else {
        assert(starts[0] == 0);
    }
}

/// The number of a line is the number of lines that start up to the offset.
pub proof fn lemma_numbers(starts: Seq<usize>, offset: int)
    requires
        lines::rising(starts),
    ensures
        lines::line_of(starts, offset) <= starts.len(),
        forall|i: int|
            0 <= i < starts.len() ==> (#[trigger] starts[i] <= offset <==> i < lines::line_of(
                starts,
                offset,
            )),
    decreases starts.len(),
{
    if starts.len() > 0 && starts.last() > offset {
        let front = starts.drop_last();
        lemma_numbers(front, offset);
        assert forall|i: int| 0 <= i < starts.len() implies (#[trigger] starts[i] <= offset <==> i
            < lines::line_of(starts, offset)) by {
            if i < front.len() {
                assert(front[i] == starts[i]);
            }
        }
    }
}

/// A newline counts as one, anything else as none, and a text has the newlines of
/// its parts.
pub proof fn lemma_newlines(a: Seq<u8>, b: Seq<u8>, byte: u8)
    ensures
        lines::newlines(Seq::empty()) == 0,
        lines::newlines(seq![byte]) == if byte == '\n' as u8 {
            1nat
        } else {
            0nat
        },
        lines::newlines(a + b) == lines::newlines(a) + lines::newlines(b),
    decreases b.len(),
{
    assert(seq![byte].drop_last() =~= Seq::empty());
    assert(lines::newlines(seq![byte].drop_last()) == 0);
    if b.len() == 0 {
        assert(a + b =~= a);
    } else {
        lemma_newlines(a, b.drop_last(), byte);
        assert((a + b).drop_last() =~= a + b.drop_last());
        assert((a + b).last() == b.last());
    }
}

/// What lies behind the end of a text is on its last line.
pub proof fn lemma_behind_the_end(source: Seq<u8>, offset: int)
    requires
        source.len() <= usize::MAX,
        offset >= source.len(),
    ensures
        lines::line_of(lines::line_starts(source), offset) == 1 + lines::newlines(source),
{
    let starts = lines::line_starts(source);
    lines::lemma_line_counts_newlines(source, source.len() as int);
    assert(source.take(source.len() as int) =~= source);
    lemma_starts(source, 0);
    lines::lemma_line_starts_bounds(source);
    lemma_numbers(starts, source.len() as int);
    lemma_numbers(starts, offset);
    assert(starts.contains(0));
    let last = starts.len() - 1;
    assert(starts[last] <= source.len());
    assert(starts[last] <= offset);
}

/// The line of a statement is one more than the number of newlines before it.
pub proof fn lemma_place<T>(s: AnalyzerView<T>, source: Seq<u8>, start: usize)
    requires
        start <= source.len() < usize::MAX,
        s.line_starts == lines::line_starts(source),
        s.current_file is Some,
    ensures
        statements::source_ref(s, start) matches Ok(place) && place.line == 1 + lines::newlines(
            source.take(start as int),
        ) && Some(place.file) == s.current_file,
{
    lines::lemma_line_counts_newlines(source, start as int);
    lemma_newlines_bound(source.take(start as int));
}

proof fn lemma_newlines_bound(source: Seq<u8>)
    ensures
        lines::newlines(source) <= source.len(),
    decreases source.len(),
{
    if source.len() > 0 {
        lemma_newlines_bound(source.drop_last());
    }
}

} // verus!
