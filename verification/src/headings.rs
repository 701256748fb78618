//! The title of a Markdown document: its first top-level heading of level 1.

use crate::links::{block_query_captures, capture_blocks};
use crate::text::{can_slice, slice, sliceable};
use vstd::prelude::*;
use vstd::string::*;
use vstd::utf8::*;

verus! {

/// The query that finds the text of the level-1 headings at the top nesting
/// level of a document. A heading with a leading marker opens a section at
/// the top of the document. An underlined heading opens none: it stands in
/// the section that is open where it comes, below up to six headings of
/// falling rank. A heading inside a quote or a list stands below no such
/// chain of sections.
pub const TITLES: &'static str =
    "[(document (section (atx_heading (atx_h1_marker) (inline) @title))) (document (section (setext_heading (paragraph (inline) @title) (setext_h1_underline)))) (document (section (section (setext_heading (paragraph (inline) @title) (setext_h1_underline))))) (document (section (section (section (setext_heading (paragraph (inline) @title) (setext_h1_underline)))))) (document (section (section (section (section (setext_heading (paragraph (inline) @title) (setext_h1_underline))))))) (document (section (section (section (section (section (setext_heading (paragraph (inline) @title) (setext_h1_underline)))))))) (document (section (section (section (section (section (section (setext_heading (paragraph (inline) @title) (setext_h1_underline)))))))))]";

/// The index of the capture that starts first in the document, and of the
/// first such capture where several start together.
pub open spec fn earliest(captures: Seq<(Seq<char>, usize, usize)>) -> int
    decreases captures.len(),
{
    if captures.len() <= 1 {
        0
    } else {
        let before = earliest(captures.drop_last());
        if captures.last().1 < captures[before].1 {
            captures.len() - 1
        } else {
            before
        }
    }
}

/// Where the title of a document stands: the text of the level-1 heading
/// that comes first in the document, whichever way it is written. `None`
/// where the document has no such heading or was not parsed.
pub open spec fn title_span(text: Seq<char>) -> Option<(usize, usize)> {
    match block_query_captures(text, TITLES@) {
        Some(captures) if captures.len() > 0 => {
            let first = captures[earliest(captures)];
            if sliceable(encode_utf8(text), first.1 as int, first.2 as int) {
                Some((first.1, first.2))
            } else {
                None
            }
        },
        _ => None,
    }
}

/// The earliest capture is one of the captures, and none starts before it.
pub proof fn lemma_earliest(captures: Seq<(Seq<char>, usize, usize)>)
    requires
        captures.len() > 0,
    ensures
        0 <= earliest(captures) < captures.len(),
        forall|i: int|
            0 <= i < captures.len() ==> captures[earliest(captures)].1 <= (#[trigger] captures[i]).1,
    decreases captures.len(),
{
    if captures.len() > 1 {
        let front = captures.drop_last();
        lemma_earliest(front);
        assert forall|i: int| 0 <= i < captures.len() implies captures[earliest(captures)].1 <= (
        #[trigger] captures[i]).1 by {
            if i < front.len() {
                assert(front[i] == captures[i]);
            }
        }
    }
}

/// The title of a document: the raw text of its first level-1 heading at the
/// top nesting level, in document order. Headings of lower rank, and
/// headings inside quotes or lists, are passed over, wherever they stand.
pub fn get_title(input: &str) -> (title: Option<&str>)
    ensures
        match title_span(input@) {
            Some((start, end)) => title matches Some(text) && text@ == decode_utf8(
                input.spec_bytes().subrange(start as int, end as int),
            ),
            None => title is None,
        },
{
    let captures = match capture_blocks(input, TITLES) {
        Some(captures) => captures,
        None => {
            return None;
        },
    };
    if captures.len() == 0 {
        return None;
    }
    let ghost all = captures.deep_view();
    let mut first: usize = 0;
    let mut i: usize = 1;
    proof {
        assert(all.take(1).len() == 1);
    }
    while i < captures.len()
        invariant
            1 <= i <= captures.len(),
            all == captures.deep_view(),
            first == earliest(all.take(i as int)),
            0 <= first < i,
        decreases captures.len() - i,
    {
        proof {
            assert(all.take(i + 1).drop_last() =~= all.take(i as int));
            assert(all.take(i + 1).last() == all[i as int]);
            assert(all.take(i + 1)[first as int] == all[first as int]);
            assert(all[i as int].1 == captures[i as int].1);
            assert(all[first as int].1 == captures[first as int].1);
        }
        if captures[i].1 < captures[first].1 {
            first = i;
        }
        i = i + 1;
    }
    proof {
        assert(all.take(i as int) =~= all);
        assert(all[first as int].1 == captures[first as int].1);
        assert(all[first as int].2 == captures[first as int].2);
    }
    let start = captures[first].1;
    let end = captures[first].2;
    if can_slice(input, start, end) {
        Some(slice(input, start, end))
    } else {
        None
    }
}

} // verus!
