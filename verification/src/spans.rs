//! Spans: half-open ranges of byte offsets into a source text.

use crate::text::{can_slice, sliceable};
use std::ops::Range;
use vstd::prelude::*;
use vstd::relations::{sorted_by, total_ordering};
use vstd::seq_lib::{lemma_sorted_unique, to_multiset_insert};
use vstd::string::*;

verus! {

/// Every span can be cut out of a text with the given encoding.
pub open spec fn spans_fit(bytes: Seq<u8>, spans: Seq<Range<usize>>) -> bool {
    forall|i: int|
        0 <= i < spans.len() ==> sliceable(
            bytes,
            (#[trigger] spans[i]).start as int,
            spans[i].end as int,
        )
}

/// The spans run from left to right without overlapping: each one ends
/// before the next one starts.
pub open spec fn spans_ordered(spans: Seq<Range<usize>>) -> bool {
    forall|i: int, j: int|
        0 <= i < j < spans.len() ==> (#[trigger] spans[i]).end <= (#[trigger] spans[j]).start
}

/// Two spans share no byte, and neither lies inside the other.
pub open spec fn disjoint(a: Range<usize>, b: Range<usize>) -> bool {
    a.end <= b.start || b.end <= a.start
}

/// The order in which spans are sorted: by start offset, and by end offset
/// where two spans start together.
pub open spec fn span_le(a: Range<usize>, b: Range<usize>) -> bool {
    a.start < b.start || (a.start == b.start && a.end <= b.end)
}

/// [`span_le`] as a relation.
pub open spec fn span_order() -> spec_fn(Range<usize>, Range<usize>) -> bool {
    |a: Range<usize>, b: Range<usize>| span_le(a, b)
}

/// Spans are totally ordered by start and end.
pub proof fn lemma_span_order_total()
    ensures
        total_ordering(span_order()),
{
    let leq = span_order();
    assert forall|x: Range<usize>, y: Range<usize>| #[trigger]
        leq(x, y) && #[trigger] leq(y, x) implies x == y by {}
}

/// Spans in order are pairwise disjoint.
pub proof fn lemma_ordered_disjoint(spans: Seq<Range<usize>>, i: int, j: int)
    requires
        spans_ordered(spans),
        0 <= i < spans.len(),
        0 <= j < spans.len(),
        i != j,
    ensures
        disjoint(spans[i], spans[j]),
{
}

/// Spans that are sorted and of which each ends before its right neighbour
/// starts are in order, given that none of them is inverted.
pub proof fn lemma_neighbours_ordered(spans: Seq<Range<usize>>)
    requires
        forall|i: int| 0 <= i < spans.len() ==> (#[trigger] spans[i]).start <= spans[i].end,
        forall|i: int|
            0 <= i < spans.len() - 1 ==> (#[trigger] spans[i]).end <= spans[i + 1].start,
    ensures
        spans_ordered(spans),
    decreases spans.len(),
{
    if spans.len() > 1 {
        let front = spans.drop_last();
        assert forall|i: int| 0 <= i < front.len() - 1 implies (#[trigger] front[i]).end
            <= front[i + 1].start by {
            assert(spans[i].end <= spans[i + 1].start);
        }
        lemma_neighbours_ordered(front);
        let n = spans.len() - 1;
        assert forall|i: int, j: int| 0 <= i < j < spans.len() implies (#[trigger] spans[i]).end
            <= (#[trigger] spans[j]).start by {
            if j < n {
                assert(front[i].end <= front[j].start);
            } else if i < n - 1 {
                assert(front[i].end <= front[n - 1].start);
                assert(spans[n - 1].end <= spans[n - 1 + 1].start);
            } else {
                assert(spans[i].end <= spans[i + 1].start);
            }
        }
    }
}

/// Spans that stand in order are sorted: sorting leaves them as they are.
pub proof fn lemma_ordered_sorted(spans: Seq<Range<usize>>)
    requires
        spans_ordered(spans),
        forall|i: int| 0 <= i < spans.len() ==> (#[trigger] spans[i]).start <= spans[i].end,
    ensures
        spans.sort_by(span_order()) == spans,
{
    let leq = span_order();
    assert forall|i: int, j: int| 0 <= i < j < spans.len() implies #[trigger] leq(
        spans[i],
        spans[j],
    ) by {
        assert(spans[i].end <= spans[j].start);
    }
    lemma_span_order_total();
    spans.lemma_sort_by_ensures(leq);
    lemma_sorted_unique(spans, spans.sort_by(leq), leq);
}

/// Sorts spans by start offset (and by end offset where two start together).
pub fn sort_spans(spans: &Vec<Range<usize>>) -> (sorted: Vec<Range<usize>>)
    ensures
        sorted@ == spans@.sort_by(span_order()),
        sorted@.to_multiset() == spans@.to_multiset(),
        sorted_by(sorted@, span_order()),
        sorted.len() == spans.len(),
{
    let mut sorted: Vec<Range<usize>> = Vec::new();
    let mut i: usize = 0;
    proof {
        assert(spans@.take(0) =~= Seq::<Range<usize>>::empty());
    }
    while i < spans.len()
        invariant
            0 <= i <= spans.len(),
            sorted.len() == i,
            sorted_by(sorted@, span_order()),
            sorted@.to_multiset() == spans@.take(i as int).to_multiset(),
        decreases spans.len() - i,
    {
        let start = spans[i].start;
        let end = spans[i].end;
        let mut at: usize = sorted.len();
        while at > 0 && (start < sorted[at - 1].start || (start == sorted[at - 1].start && end
            < sorted[at - 1].end))
            invariant
                0 <= at <= sorted.len(),
                start == spans[i as int].start,
                end == spans[i as int].end,
                forall|k: int| at <= k < sorted.len() ==> span_le(spans[i as int], #[trigger] sorted[k]),
            decreases at,
        {
            at = at - 1;
        }
        let ghost before = sorted@;
        sorted.insert(at, start..end);
        proof {
            let item = spans[i as int];
            assert(sorted@ == before.insert(at as int, item));
            before.insert_ensures(at as int, item);
            to_multiset_insert(before, at as int, item);
            assert(spans@.take(i + 1) =~= spans@.take(i as int).push(item));
            vstd::seq_lib::to_multiset_build(spans@.take(i as int), item);
            assert forall|a: int, b: int| 0 <= a < b < sorted.len() implies #[trigger] span_order()(
                sorted[a],
                sorted[b],
            ) by {
                let leq = span_order();
                if b < at {
                    assert(leq(before[a], before[b]));
                } else if b == at {
                    if at > 0 {
                        assert(span_le(before[at - 1], item));
                        if a < at - 1 {
                            assert(leq(before[a], before[at - 1]));
                        }
                    }
                } else if a < at {
                    assert(leq(before[a], before[b - 1]));
                } else if a == at {
                    assert(span_le(item, before[b - 1]));
                } else {
                    assert(leq(before[a - 1], before[b - 1]));
                }
            }
        }
        i = i + 1;
    }
    proof {
        assert(spans@.take(i as int) =~= spans@);
        lemma_span_order_total();
        spans@.lemma_sort_by_ensures(span_order());
        lemma_sorted_unique(sorted@, spans@.sort_by(span_order()), span_order());
    }
    sorted
}

/// Decides whether the spans can be cut out of `content` and are in order.
pub fn spans_valid(content: &str, spans: &Vec<Range<usize>>) -> (ok: bool)
    ensures
        ok == (spans_fit(content.spec_bytes(), spans@) && spans_ordered(spans@)),
{
    let mut i: usize = 0;
    while i < spans.len()
        invariant
            0 <= i <= spans.len(),
            spans_fit(content.spec_bytes(), spans@.take(i as int)),
            spans_ordered(spans@.take(i as int)),
        decreases spans.len() - i,
    {
        if !can_slice(content, spans[i].start, spans[i].end) {
            return false;
        }
        if i > 0 && spans[i - 1].end > spans[i].start {
            return false;
        }
        proof {
            let done = spans@.take(i + 1);
            assert forall|k: int| 0 <= k < done.len() implies sliceable(
                content.spec_bytes(),
                (#[trigger] done[k]).start as int,
                done[k].end as int,
            ) by {
                if k < i {
                    assert(done[k] == spans@.take(i as int)[k]);
                }
            }
            assert forall|a: int, b: int| 0 <= a < b < done.len() implies (#[trigger] done[a]).end
                <= (#[trigger] done[b]).start by {
                if b < i {
                    assert(spans@.take(i as int)[a].end <= spans@.take(i as int)[b].start);
                } else if a < i - 1 {
                    assert(spans@.take(i as int)[a].end <= spans@.take(i as int)[i - 1].start);
                    assert(sliceable(
                        content.spec_bytes(),
                        spans@.take(i as int)[i - 1].start as int,
                        spans@.take(i as int)[i - 1].end as int,
                    ));
                }
            }
        }
        i = i + 1;
    }
    proof {
        assert(spans@.take(i as int) =~= spans@);
    }
    true
}

} // verus!
