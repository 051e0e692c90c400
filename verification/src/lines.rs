//! Line numbers of offsets into a source text.
use vstd::prelude::*;

verus! {

/// The byte that ends a line.
pub const NEWLINE: u8 = 10;

/// The offsets at which the lines of `source` start: zero, and the offset after
/// each newline.
pub open spec fn line_starts(source: Seq<u8>) -> Seq<usize>
    decreases source.len(),
{
    if source.len() == 0 {
        seq![0usize]
    } else if source.last() == NEWLINE {
        line_starts(source.drop_last()).push(source.len() as usize)
    } else {
        line_starts(source.drop_last())
    }
}

/// The number of the last line that starts at or before `offset`, where the
/// first line has the number one. Zero if there is no such line.
pub open spec fn line_of(starts: Seq<usize>, offset: int) -> nat
    decreases starts.len(),
{
    if starts.len() == 0 {
        0
    } else if starts.last() <= offset {
        starts.len()
    } else {
        line_of(starts.drop_last(), offset)
    }
}

/// How many newlines `source` has.
pub open spec fn newlines(source: Seq<u8>) -> nat
    decreases source.len(),
{
    if source.len() == 0 {
        0
    } else {
        newlines(source.drop_last()) + if source.last() == NEWLINE {
            1nat
        } else {
            0nat
        }
    }
}

/// The offsets rise strictly.
pub open spec fn rising(starts: Seq<usize>) -> bool {
    forall|i: int, j: int| 0 <= i < j < starts.len() ==> starts[i] < starts[j]
}

/// There is one line more than newlines, the first one starts at zero, and the
/// starts rise up to the end at most.
pub proof fn lemma_line_starts_bounds(source: Seq<u8>)
    requires
        source.len() <= usize::MAX,
    ensures
        rising(line_starts(source)),
        line_starts(source).len() == 1 + newlines(source),
        line_starts(source)[0] == 0,
        forall|i: int|
            0 <= i < line_starts(source).len() ==> line_starts(source)[i] <= source.len(),
    decreases source.len(),
{
    if source.len() > 0 {
        lemma_line_starts_bounds(source.drop_last());
    }
}

/// The offset `offset` into `source` lies on the line whose number is one more
/// than the number of newlines before it.
pub proof fn lemma_line_counts_newlines(source: Seq<u8>, offset: int)
    requires
        0 <= offset <= source.len() <= usize::MAX,
    ensures
        line_of(line_starts(source), offset) == 1 + newlines(source.take(offset)),
    decreases source.len(),
{
    lemma_line_starts_bounds(source);
    if source.len() == offset {
        assert(source.take(offset) == source);
    } else {
        let shorter = source.drop_last();
        lemma_line_counts_newlines(shorter, offset);
        assert(shorter.take(offset) == source.take(offset));
        if source.last() == NEWLINE {
            assert(line_starts(source).drop_last() == line_starts(shorter));
        }
    }
}

/// A position in a rising sequence that parts the starts up to `offset` from
/// those after it is the line number.
proof fn lemma_line_of_position(starts: Seq<usize>, offset: int, position: int)
    requires
        0 <= position <= starts.len(),
        position > 0 ==> starts[position - 1] <= offset,
        forall|i: int| position <= i < starts.len() ==> starts[i] > offset,
    ensures
        line_of(starts, offset) == position,
    decreases starts.len(),
{
    if starts.len() > position {
        lemma_line_of_position(starts.drop_last(), offset, position);
    }
}

/// The offsets at which the lines of `source` start.
pub fn compute_line_starts(source: &str) -> (starts: Vec<usize>)
    ensures
        starts@ == line_starts(vstd::utf8::encode_utf8(source@)),
        rising(starts@),
{
    let bytes = source.as_bytes();
    let end: usize = bytes.len();
    let mut starts: Vec<usize> = Vec::new();
    starts.push(0);
    let mut i: usize = 0;
    assert(bytes@.take(0).len() == 0);
    while i < end
        invariant
            i <= end,
            end == bytes@.len(),
            starts@ == line_starts(bytes@.take(i as int)),
        decreases end - i,
    {
        assert(bytes@.take(i + 1).drop_last() == bytes@.take(i as int));
        if bytes[i] == NEWLINE {
            starts.push(i + 1);
        }
        i = i + 1;
    }
    assert(bytes@.take(i as int) == bytes@);
    proof {
        lemma_line_starts_bounds(bytes@);
    }
    starts
}

/// The number of the line on which `offset` lies.
pub fn offset_to_line(offset: usize, starts: &Vec<usize>) -> (line: usize)
    requires
        rising(starts@),
    ensures
        line == line_of(starts@, offset as int),
{
    let mut low: usize = 0;
    let mut high: usize = starts.len();
    while low < high
        invariant
            low <= high <= starts@.len(),
            rising(starts@),
            low > 0 ==> starts@[low - 1] <= offset,
            forall|i: int| high <= i < starts@.len() ==> starts@[i] > offset,
        decreases high - low,
    {
        let middle: usize = low + (high - low) / 2;
        if starts[middle] <= offset {
            low = middle + 1;
        } else {
            high = middle;
        }
    }
    proof {
        lemma_line_of_position(starts@, offset as int, low as int);
    }
    low
}

} // verus!
