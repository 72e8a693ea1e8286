//! Byte ranges of a shared text buffer.

use vstd::prelude::*;

verus! {

/// A contiguous byte range of a text buffer: where it starts and how long it is.
#[derive(Clone, Copy, Debug, PartialEq, Eq, Structural)]
pub struct Span {
    pub start: usize,
    pub len: usize,
}

impl Span {
    /// The offset one past the last byte of the range.
    pub open spec fn end(self) -> int {
        self.start + self.len
    }
}

/// The sum of the first `n` lengths.
pub open spec fn prefix_total(lengths: Seq<usize>, n: int) -> int
    decreases n,
{
    if n <= 0 || n > lengths.len() {
        0
    } else {
        prefix_total(lengths, n - 1) + lengths[n - 1]
    }
}

/// The sum of all lengths.
pub open spec fn total(lengths: Seq<usize>) -> int {
    prefix_total(lengths, lengths.len() as int)
}

/// The lengths of the spans, in order.
pub open spec fn lengths_of(spans: Seq<Span>) -> Seq<usize> {
    Seq::new(spans.len(), |i: int| spans[i].len)
}

/// Left to right and without overlap: no span starts before its predecessor ends.
pub open spec fn is_ordered(spans: Seq<Span>) -> bool {
    forall|i: int| 0 < i < spans.len() ==> spans[i - 1].end() <= (#[trigger] spans[i]).start
}

/// The spans cover `0..extent` from left to right with neither gap nor
/// overlap: the first starts at offset 0, each ends where the next starts, and
/// the last ends at `extent`.
pub open spec fn is_tiling(spans: Seq<Span>, extent: int) -> bool {
    &&& spans.len() == 0 ==> extent == 0
    &&& spans.len() > 0 ==> spans[0].start == 0 && spans.last().end() == extent
    &&& forall|i: int| 0 < i < spans.len() ==> spans[i - 1].end() == (#[trigger] spans[i]).start
}

/// The spans follow one another from offset 0 without gap or overlap, and
/// none of them is empty.
pub open spec fn is_segmentation(spans: Seq<Span>) -> bool {
    &&& is_tiling(spans, total(lengths_of(spans)))
    &&& forall|i: int| 0 <= i < spans.len() ==> (#[trigger] spans[i]).len > 0
}

/// Prefix sums grow with the prefix.
pub proof fn lemma_prefix_total_monotonic(lengths: Seq<usize>, m: int, n: int)
    requires
        0 <= m <= n <= lengths.len(),
    ensures
        0 <= prefix_total(lengths, m) <= prefix_total(lengths, n),
    decreases n,
{
    if m < n {
        lemma_prefix_total_monotonic(lengths, m, n - 1);
    } else if n > 0 {
        lemma_prefix_total_monotonic(lengths, m - 1, n - 1);
    }
}

proof fn lemma_tiling_offset_at(spans: Seq<Span>, extent: int, i: int)
    requires
        is_tiling(spans, extent),
        0 <= i < spans.len(),
    ensures
        spans[i].start == prefix_total(lengths_of(spans), i),
        spans[i].end() == prefix_total(lengths_of(spans), i + 1),
    decreases i,
{
    if i > 0 {
        lemma_tiling_offset_at(spans, extent, i - 1);
    }
}

/// In a tiling every span starts after as many bytes as the spans before it
/// are long, and the extent is what all lengths add up to. A tiling is
/// ordered and stays within its extent.
pub proof fn lemma_tiling_offsets(spans: Seq<Span>, extent: int)
    requires
        is_tiling(spans, extent),
    ensures
        forall|i: int|
            0 <= i < spans.len() ==> (#[trigger] spans[i]).start == prefix_total(
                lengths_of(spans),
                i,
            ),
        extent == total(lengths_of(spans)),
        is_ordered(spans),
        forall|i: int| 0 <= i < spans.len() ==> (#[trigger] spans[i]).end() <= extent,
{
    let lengths = lengths_of(spans);
    assert forall|i: int| 0 <= i < spans.len() implies (#[trigger] spans[i]).start == prefix_total(
        lengths,
        i,
    ) && spans[i].end() <= total(lengths) by {
        lemma_tiling_offset_at(spans, extent, i);
        lemma_prefix_total_monotonic(lengths, i + 1, lengths.len() as int);
    }
    if spans.len() > 0 {
        lemma_tiling_offset_at(spans, extent, spans.len() - 1);
    }
}

/// Where every span is at least one byte long, the start offsets of a tiling
/// increase strictly.
pub proof fn lemma_tiling_starts_increase(spans: Seq<Span>, extent: int, i: int, j: int)
    requires
        is_tiling(spans, extent),
        forall|k: int| 0 <= k < spans.len() ==> (#[trigger] spans[k]).len > 0,
        0 <= i < j < spans.len(),
    ensures
        spans[i].start < spans[j].start,
        spans[i].end() <= spans[j].start,
{
    let lengths = lengths_of(spans);
    lemma_tiling_offset_at(spans, extent, i);
    lemma_tiling_offset_at(spans, extent, j);
    lemma_prefix_total_monotonic(lengths, i + 1, j);
}

/// Spans of the given lengths laid end to end from offset 0.
pub open spec fn tiling_of(lengths: Seq<usize>) -> Seq<Span> {
    Seq::new(
        lengths.len(),
        |i: int| Span { start: prefix_total(lengths, i) as usize, len: lengths[i] },
    )
}

/// Spans laid end to end tile what their lengths add up to, where that is an
/// offset.
pub proof fn lemma_tiling_of_tiles(lengths: Seq<usize>)
    requires
        total(lengths) <= usize::MAX,
    ensures
        lengths_of(tiling_of(lengths)) == lengths,
        is_tiling(tiling_of(lengths), total(lengths)),
{
    let spans = tiling_of(lengths);
    assert(lengths_of(spans) =~= lengths);
    assert forall|i: int| 0 <= i < spans.len() implies (#[trigger] spans[i]).start == prefix_total(
        lengths,
        i,
    ) && spans[i].end() == prefix_total(lengths, i + 1) by {
        lemma_prefix_total_monotonic(lengths, i, lengths.len() as int);
    }
    assert forall|i: int| 0 < i < spans.len() implies spans[i - 1].end() == (
    #[trigger] spans[i]).start by {
        assert(spans[i - 1].end() == prefix_total(lengths, i));
    }
}

/// Lays spans of the given lengths end to end, starting at offset 0. There is
/// no such tiling where the lengths add up to more than an offset can hold.
pub fn tile(lengths: &Vec<usize>) -> (tiling: Option<Vec<Span>>)
    ensures
        tiling is Some <==> total(lengths@) <= usize::MAX,
        tiling matches Some(spans) ==> {
            &&& spans@ == tiling_of(lengths@)
            &&& lengths_of(spans@) == lengths@
            &&& is_tiling(spans@, total(lengths@))
        },
{
    let mut spans: Vec<Span> = Vec::new();
    let mut offset: usize = 0;
    let mut i: usize = 0;
    while i < lengths.len()
        invariant
            i <= lengths.len(),
            spans.len() == i,
            offset == prefix_total(lengths@, i as int),
            forall|k: int| 0 <= k < i ==> (#[trigger] spans[k]).len == lengths[k],
            forall|k: int| 0 <= k < i ==> (#[trigger] spans[k]).start == prefix_total(lengths@, k),
        decreases lengths.len() - i,
    {
        let len: usize = lengths[i];
        proof {
            lemma_prefix_total_monotonic(lengths@, i + 1, lengths.len() as int);
        }
        spans.push(Span { start: offset, len });
        match offset.checked_add(len) {
            Some(next) => {
                offset = next;
            },
            None => {
                return None;
            },
        }
        i = i + 1;
    }
    proof {
        lemma_tiling_of_tiles(lengths@);
        assert(spans@ =~= tiling_of(lengths@));
    }
    Some(spans)
}

} // verus!
