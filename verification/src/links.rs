//! Locating the link destinations of a Markdown document, and rewriting them.

use crate::rewrite::{
    all_kept, apply_replacements, lemma_all_kept_encoded, lemma_spliced_all_kept,
    replacement_bytes, spliced,
};
use crate::rules::{decide, first_match, Rule};
use crate::spans::{
    disjoint, lemma_neighbours_ordered, lemma_ordered_disjoint, lemma_ordered_sorted,
    lemma_span_order_total, sort_spans, span_order, spans_fit, spans_ordered,
};
use crate::text::{can_slice, lemma_encode_injective, slice, sliceable, trim, trimmed};
use std::borrow::Cow;
use std::ops::Range;
use tree_sitter::{Query, QueryCursor, StreamingIterator};
use tree_sitter_md::MarkdownParser;
use vstd::prelude::*;
use vstd::string::*;
use vstd::utf8::*;

verus! {

/// The query that finds the destinations of link reference definitions in
/// the block structure of a document.
pub const BLOCK_LINKS: &'static str = "(link_destination) @link";

/// The query that finds the destinations of inline links, and the autolinks,
/// in the inline content of a document.
pub const INLINE_LINKS: &'static str = "[(link_destination) (uri_autolink)] @link";

/// The kind of node that an autolink is parsed to; it spans the angle
/// brackets too.
pub const AUTOLINK: &'static str = "uri_autolink";

/// What the block grammar of tree-sitter-md captures in a text for a query:
/// of each captured node its kind and the byte offsets where it starts and
/// ends. `None` where the text was not parsed or the query is not one.
pub uninterp spec fn block_query_captures(text: Seq<char>, query: Seq<char>) -> Option<
    Seq<(Seq<char>, usize, usize)>,
>;

/// What the inline grammar of tree-sitter-md captures for a query, over all
/// stretches of inline content of a text in the order of the document.
pub uninterp spec fn inline_query_captures(text: Seq<char>, query: Seq<char>) -> Option<
    Seq<(Seq<char>, usize, usize)>,
>;

/// Parses `input` with `tree_sitter_md::MarkdownParser::parse` and runs
/// `query` with `tree_sitter::QueryCursor::matches` over the block tree. The
/// captured nodes come back in the order of the matches, each as its kind and
/// byte range; nothing more is claimed than that the same text and query give
/// the same captures.
#[verifier::external_body]
pub(crate) fn capture_blocks(input: &str, query: &str) -> (found: Option<
    Vec<(String, usize, usize)>,
>)
    ensures
        found.deep_view() == block_query_captures(input@, query@),
{
    let tree = MarkdownParser::default().parse(input.as_bytes(), None)?;
    let query = Query::new(&tree_sitter_md::LANGUAGE.into(), query).ok()?;
    let mut cursor = QueryCursor::new();
    let mut found = Vec::new();
    let mut matches = cursor.matches(&query, tree.block_tree().root_node(), input.as_bytes());
    while let Some(m) = matches.next() {
        for c in m.captures() {
            found.push((c.node.kind().to_string(), c.node.start_byte(), c.node.end_byte()));
        }
    }
    Some(found)
}

/// As [`capture_blocks`], with the query run over each inline tree of the
/// parsed document in turn.
#[verifier::external_body]
pub(crate) fn capture_inlines(input: &str, query: &str) -> (found: Option<
    Vec<(String, usize, usize)>,
>)
    ensures
        found.deep_view() == inline_query_captures(input@, query@),
{
    let tree = MarkdownParser::default().parse(input.as_bytes(), None)?;
    let query = Query::new(&tree_sitter_md::INLINE_LANGUAGE.into(), query).ok()?;
    let mut cursor = QueryCursor::new();
    let mut found = Vec::new();
    for inline in tree.inline_trees() {
        let mut matches = cursor.matches(&query, inline.root_node(), input.as_bytes());
        while let Some(m) = matches.next() {
            for c in m.captures() {
                found.push((c.node.kind().to_string(), c.node.start_byte(), c.node.end_byte()));
            }
        }
    }
    Some(found)
}

/// Why the link destinations of a document could not be located.
#[derive(Debug, Clone, Copy, PartialEq, Eq, Structural)]
pub enum LinkError {
    /// The parser gave no syntax tree for the document.
    Unparsed,
    /// A located construct does not hold a destination that can be cut out of
    /// the document.
    Malformed,
    /// Two located destinations overlap.
    Overlapping,
}

/// The link constructs that the parser finds in a text: those of the block
/// structure first, then those of the inline content.
pub open spec fn link_captures(text: Seq<char>) -> Option<Seq<(Seq<char>, usize, usize)>> {
    match (
        block_query_captures(text, BLOCK_LINKS@),
        inline_query_captures(text, INLINE_LINKS@),
    ) {
        (Some(blocks), Some(inlines)) => Some(blocks + inlines),
        _ => None,
    }
}

/// The destination inside a captured construct: the construct itself, but
/// for an autolink, which loses its angle brackets.
pub open spec fn destination(capture: (Seq<char>, usize, usize)) -> Range<usize> {
    if capture.0 == AUTOLINK@ {
        ((capture.1 + 1) as usize)..((capture.2 - 1) as usize)
    } else {
        (capture.1)..(capture.2)
    }
}

/// A captured construct holds a destination that can be cut out of the text:
/// an autolink has room for its two brackets, and the destination is in
/// bounds and ends between characters.
pub open spec fn well_formed(bytes: Seq<u8>, capture: (Seq<char>, usize, usize)) -> bool {
    &&& capture.0 == AUTOLINK@ ==> capture.1 + 2 <= capture.2
    &&& sliceable(bytes, destination(capture).start as int, destination(capture).end as int)
}

/// The destinations of the captured constructs, in the order of the captures.
pub open spec fn destinations(captures: Seq<(Seq<char>, usize, usize)>) -> Seq<Range<usize>> {
    captures.map_values(|c: (Seq<char>, usize, usize)| destination(c))
}

/// Puts located destinations in order, from left to right. `None` where
/// they cannot be put in order: sorted, one reaches into the next.
pub fn arrange_spans(content: &str, found: &Vec<Range<usize>>) -> (arranged: Option<
    Vec<Range<usize>>,
>)
    requires
        spans_fit(content.spec_bytes(), found@),
    ensures
        match arranged {
            Some(sorted) => {
                &&& sorted@ == found@.sort_by(span_order())
                &&& sorted.len() == found.len()
                &&& spans_ordered(sorted@)
                &&& spans_fit(content.spec_bytes(), sorted@)
            },
            None => !spans_ordered(found@.sort_by(span_order())),
        },
{
    let ghost bytes = content.spec_bytes();
    let sorted = sort_spans(found);
    proof {
        lemma_span_order_total();
        found@.lemma_sort_by_ensures(span_order());
        assert forall|k: int| 0 <= k < sorted.len() implies sliceable(
            bytes,
            (#[trigger] sorted[k]).start as int,
            sorted[k].end as int,
        ) by {
            assert(sorted@.contains(sorted[k]));
            assert(found@.contains(sorted[k]));
            let at = choose|at: int| 0 <= at < found.len() && found[at] == sorted[k];
            assert(sliceable(bytes, found[at].start as int, found[at].end as int));
        }
    }
    let mut k: usize = 1;
    while k < sorted.len()
        invariant
            1 <= k,
            spans_fit(bytes, sorted@),
            sorted@ == found@.sort_by(span_order()),
            sorted.len() == found.len(),
            forall|j: int|
                0 <= j < k - 1 && j < sorted.len() - 1 ==> (#[trigger] sorted[j]).end <= sorted[j
                    + 1].start,
        decreases sorted.len() - k,
    {
        if sorted[k - 1].end > sorted[k].start {
            proof {
                assert(!(sorted[k - 1].end <= sorted[k as int].start));
            }
            return None;
        }
        k = k + 1;
    }
    proof {
        lemma_neighbours_ordered(sorted@);
    }
    Some(sorted)
}

/// Why the link destinations of a text cannot be located, if they cannot:
/// the parser gave no captures, or a capture holds no destination that can be
/// cut out, or the destinations, sorted, reach into one another.
pub open spec fn scan_fault(text: Seq<char>) -> Option<LinkError> {
    match link_captures(text) {
        None => Some(LinkError::Unparsed),
        Some(captures) => {
            if exists|i: int|
                0 <= i < captures.len() && !well_formed(encode_utf8(text), #[trigger] captures[i]) {
                Some(LinkError::Malformed)
            } else if !spans_ordered(destinations(captures).sort_by(span_order())) {
                Some(LinkError::Overlapping)
            } else {
                None
            }
        },
    }
}

/// The link destinations of a text, from left to right.
pub open spec fn link_spans(text: Seq<char>) -> Seq<Range<usize>> {
    destinations(link_captures(text).unwrap()).sort_by(span_order())
}

/// Locates the link destinations of a Markdown document: of inline links,
/// of autolinks (without their angle brackets) and of link reference
/// definitions. The spans come sorted from left to right; they can be cut
/// out of the document and do not overlap.
pub fn get_links(input: &str) -> (located: Result<Vec<Range<usize>>, LinkError>)
    ensures
        match located {
            Ok(spans) => {
                &&& scan_fault(input@) is None
                &&& spans@ == link_spans(input@)
                &&& spans_fit(input.spec_bytes(), spans@)
                &&& spans_ordered(spans@)
            },
            Err(fault) => scan_fault(input@) == Some(fault),
        },
{
    let mut captures = match capture_blocks(input, BLOCK_LINKS) {
        Some(blocks) => blocks,
        None => {
            return Err(LinkError::Unparsed);
        },
    };
    let mut inlines = match capture_inlines(input, INLINE_LINKS) {
        Some(inlines) => inlines,
        None => {
            return Err(LinkError::Unparsed);
        },
    };
    let ghost blocks = captures.deep_view();
    let ghost rest = inlines.deep_view();
    captures.append(&mut inlines);
    let ghost all = link_captures(input@).unwrap();
    let ghost bytes = input.spec_bytes();
    proof {
        assert(captures.deep_view() =~= blocks + rest);
    }
    let autolink = String::from_str(AUTOLINK);
    let mut found: Vec<Range<usize>> = Vec::new();
    let mut i: usize = 0;
    while i < captures.len()
        invariant
            0 <= i <= captures.len(),
            link_captures(input@) == Some(all),
            all == captures.deep_view(),
            bytes == input.spec_bytes(),
            autolink@ == AUTOLINK@,
            found@ == destinations(all.take(i as int)),
            forall|k: int| 0 <= k < i ==> well_formed(bytes, #[trigger] all[k]),
            spans_fit(bytes, found@),
        decreases captures.len() - i,
    {
        let start = captures[i].1;
        let end = captures[i].2;
        proof {
            assert(all[i as int] == (captures[i as int].0@, start, end));
        }
        let span = if captures[i].0 == autolink {
            if end < 2 || start > end - 2 {
                proof {
                    assert(!well_formed(bytes, all[i as int]));
                }
                return Err(LinkError::Malformed);
            }
            (start + 1)..(end - 1)
        } else {
            start..end
        };
        assert(span == destination(all[i as int]));
        if !can_slice(input, span.start, span.end) {
            proof {
                assert(!well_formed(bytes, all[i as int]));
            }
            return Err(LinkError::Malformed);
        }
        found.push(span);
        proof {
            assert(all.take(i + 1) =~= all.take(i as int).push(all[i as int]));
            assert(destinations(all.take(i + 1)) =~= destinations(all.take(i as int)).push(
                destination(all[i as int]),
            ));
        }
        i = i + 1;
    }
    proof {
        assert(all.take(i as int) =~= all);
    }
    match arrange_spans(input, &found) {
        Some(sorted) => Ok(sorted),
        None => Err(LinkError::Overlapping),
    }
}

/// The destinations that are located in a text can be cut out of it, stand
/// from left to right, and no two of them overlap.
pub proof fn lemma_located_spans(text: Seq<char>)
    requires
        scan_fault(text) is None,
    ensures
        spans_fit(encode_utf8(text), link_spans(text)),
        spans_ordered(link_spans(text)),
        forall|i: int, j: int|
            0 <= i < link_spans(text).len() && 0 <= j < link_spans(text).len() && i != j
                ==> disjoint(#[trigger] link_spans(text)[i], #[trigger] link_spans(text)[j]),
{
    let bytes = encode_utf8(text);
    let captures = link_captures(text).unwrap();
    let found = destinations(captures);
    let sorted = link_spans(text);
    lemma_span_order_total();
    found.lemma_sort_by_ensures(span_order());
    assert forall|k: int| 0 <= k < sorted.len() implies sliceable(
        bytes,
        (#[trigger] sorted[k]).start as int,
        sorted[k].end as int,
    ) by {
        assert(sorted.contains(sorted[k]));
        assert(found.contains(sorted[k]));
        let at = choose|at: int| 0 <= at < found.len() && found[at] == sorted[k];
        assert(well_formed(bytes, captures[at]));
    }
    assert forall|i: int, j: int|
        0 <= i < sorted.len() && 0 <= j < sorted.len() && i != j implies disjoint(
        #[trigger] sorted[i],
        #[trigger] sorted[j],
    ) by {
        lemma_ordered_disjoint(sorted, i, j);
    }
}

/// The text of a link destination as a replacement policy sees it: the
/// bytes of the span, decoded, without the whitespace around them.
pub open spec fn link_text(bytes: Seq<u8>, span: Range<usize>) -> Seq<char> {
    trimmed(decode_utf8(bytes.subrange(span.start as int, span.end as int)))
}

/// `outcome` is an answer that the policy can give for a link with this text.
pub open spec fn may_decide<E, F: Fn(&str) -> Result<Option<String>, E>>(
    replacement: F,
    text: Seq<char>,
    outcome: Result<Option<String>, E>,
) -> bool {
    exists|link: &str| link@ == text && #[trigger] call_ensures(replacement, (link,), outcome)
}

/// The answers that a policy can give, as a relation between the text of a
/// link and an answer.
pub open spec fn answers_of<E, F: Fn(&str) -> Result<Option<String>, E>>(
    replacement: F,
) -> spec_fn(Seq<char>, Result<Option<String>, E>) -> bool {
    |text: Seq<char>, outcome: Result<Option<String>, E>| may_decide(replacement, text, outcome)
}

/// Each decision is a possible answer for the span it belongs to.
pub open spec fn decided<E>(
    answers: spec_fn(Seq<char>, Result<Option<String>, E>) -> bool,
    bytes: Seq<u8>,
    spans: Seq<Range<usize>>,
    decisions: Seq<Option<String>>,
) -> bool {
    &&& decisions.len() <= spans.len()
    &&& forall|k: int|
        0 <= k < decisions.len() ==> answers(
            link_text(bytes, spans[k]),
            Ok(#[trigger] decisions[k]),
        )
}

/// Why a document could not be rewritten.
#[derive(Debug)]
pub enum RewriteError<E> {
    /// The link destinations could not be located.
    Locate(LinkError),
    /// The replacement policy failed on a link, with this error.
    Policy(E),
}

/// Asks the policy for its decision on each span in turn, handing it the
/// trimmed text of the span. The first error of the policy ends the pass.
pub fn decide_links<E, F: Fn(&str) -> Result<Option<String>, E>>(
    content: &str,
    spans: &Vec<Range<usize>>,
    replacement: &F,
) -> (r: Result<Vec<Option<String>>, E>)
    requires
        spans_fit(content.spec_bytes(), spans@),
        forall|link: &str| call_requires(*replacement, (link,)),
    ensures
        match r {
            Ok(decisions) => decisions.len() == spans.len() && decided(
                answers_of(*replacement),
                content.spec_bytes(),
                spans@,
                decisions@,
            ),
            Err(error) => exists|earlier: Seq<Option<String>>|
                #![auto]
                earlier.len() < spans.len() && decided(
                    answers_of(*replacement),
                    content.spec_bytes(),
                    spans@,
                    earlier,
                ) && may_decide(
                    *replacement,
                    link_text(content.spec_bytes(), spans[earlier.len() as int]),
                    Err(error),
                ),
        },
{
    let mut decisions: Vec<Option<String>> = Vec::new();
    let mut i: usize = 0;
    while i < spans.len()
        invariant
            0 <= i <= spans.len(),
            decisions.len() == i,
            spans_fit(content.spec_bytes(), spans@),
            forall|link: &str| call_requires(*replacement, (link,)),
            decided(answers_of(*replacement), content.spec_bytes(), spans@, decisions@),
        decreases spans.len() - i,
    {
        let link = trim(slice(content, spans[i].start, spans[i].end));
        let ghost before = decisions@;
        match replacement(link) {
            Ok(decision) => {
                decisions.push(decision);
                proof {
                    assert forall|k: int| 0 <= k < decisions.len() implies answers_of(
                        *replacement,
                    )(link_text(content.spec_bytes(), spans[k]), Ok(#[trigger] decisions[k])) by {
                        if k < i {
                            assert(decisions[k] == before[k]);
                        }
                    }
                }
            },
            Err(error) => {
                proof {
                    assert(may_decide(
                        *replacement,
                        link_text(content.spec_bytes(), spans[before.len() as int]),
                        Err(error),
                    ));
                }
                return Err(error);
            },
        }
        i = i + 1;
    }
    Ok(decisions)
}

/// The policy has no answer but to leave a link as it is.
pub open spec fn keeps_all<E, F: Fn(&str) -> Result<Option<String>, E>>(replacement: F) -> bool {
    forall|link: &str, outcome: Result<Option<String>, E>| #[trigger]
        call_ensures(replacement, (link,), outcome) ==> outcome == Ok::<Option<String>, E>(None)
}

/// What rewriting the given spans of a document with a policy may give: the
/// document spliced with one decision of the policy per span, or the error
/// of the policy on the first span where it failed.
pub open spec fn rewrites_to<E>(
    answers: spec_fn(Seq<char>, Result<Option<String>, E>) -> bool,
    bytes: Seq<u8>,
    spans: Seq<Range<usize>>,
    result: Result<Cow<'_, str>, E>,
) -> bool {
    match result {
        Ok(text) => exists|decisions: Seq<Option<String>>|
            #![auto]
            {
                &&& decisions.len() == spans.len()
                &&& decided(answers, bytes, spans, decisions)
                &&& encode_utf8(text@) == spliced(bytes, spans, replacement_bytes(decisions))
                &&& (text is Borrowed) == all_kept(decisions)
            },
        Err(error) => exists|earlier: Seq<Option<String>>|
            #![auto]
            {
                &&& earlier.len() < spans.len()
                &&& decided(answers, bytes, spans, earlier)
                &&& answers(link_text(bytes, spans[earlier.len() as int]), Err(error))
            },
    }
}

/// Rewrites the given spans of `content`. The spans may come in any order;
/// they are sorted by where they start, and have to fit the document and not
/// to overlap. The policy is asked about them from left to right: each span
/// whose trimmed text it answers with a new text is replaced by it, and
/// every byte outside those spans stays. Where the policy replaces nothing
/// the document is handed back as it is, borrowed. An error of the policy
/// ends the pass and is returned; no text is produced then.
pub fn replace_links_at<'a, E, F: Fn(&str) -> Result<Option<String>, E>>(
    content: &'a str,
    spans: &Vec<Range<usize>>,
    replacement: &F,
) -> (r: Result<Cow<'a, str>, E>)
    requires
        spans_fit(content.spec_bytes(), spans@),
        spans_ordered(spans@.sort_by(span_order())),
        forall|link: &str| call_requires(*replacement, (link,)),
    ensures
        rewrites_to(
            answers_of(*replacement),
            content.spec_bytes(),
            spans@.sort_by(span_order()),
            r,
        ),
        r matches Ok(Cow::Borrowed(same)) ==> same@ == content@,
        spans.len() == 0 || keeps_all(*replacement) ==> r matches Ok(Cow::Borrowed(_)),
{
    let sorted = match arrange_spans(content, spans) {
        Some(sorted) => sorted,
        None => unreached(),
    };
    match decide_links(content, &sorted, replacement) {
        Ok(decisions) => {
            let text = apply_replacements(content, &sorted, &decisions);
            proof {
                if keeps_all(*replacement) {
                    assert forall|k: int| 0 <= k < decisions.len() implies (
                    #[trigger] decisions[k]) is None by {
                        assert(answers_of(*replacement)(
                            link_text(content.spec_bytes(), sorted[k]),
                            Ok(decisions[k]),
                        ));
                    }
                }
            }
            Ok(text)
        },
        Err(error) => Err(error),
    }
}

/// What rewriting the links of a document with a policy may give.
pub open spec fn rewritten<E>(
    answers: spec_fn(Seq<char>, Result<Option<String>, E>) -> bool,
    content: Seq<char>,
    result: Result<Cow<'_, str>, RewriteError<E>>,
) -> bool {
    match result {
        Ok(text) => scan_fault(content) is None && rewrites_to(
            answers,
            encode_utf8(content),
            link_spans(content),
            Ok::<Cow<'_, str>, E>(text),
        ),
        Err(RewriteError::Locate(fault)) => scan_fault(content) == Some(fault),
        Err(RewriteError::Policy(error)) => scan_fault(content) is None && rewrites_to(
            answers,
            encode_utf8(content),
            link_spans(content),
            Err::<Cow<'_, str>, E>(error),
        ),
    }
}

/// Rewrites the link destinations of a Markdown document. The destinations
/// are located, and the policy is asked about each from left to right; see
/// [`replace_links_at`]. A document without links, and one of which the policy
/// keeps every link, comes back unchanged and borrowed.
pub fn replace_links<'a, E, F: Fn(&str) -> Result<Option<String>, E>>(
    content: &'a str,
    replacement: F,
) -> (r: Result<Cow<'a, str>, RewriteError<E>>)
    requires
        forall|link: &str| call_requires(replacement, (link,)),
    ensures
        rewritten(answers_of(replacement), content@, r),
        r matches Ok(Cow::Borrowed(same)) ==> same@ == content@,
        scan_fault(content@) is None && (link_spans(content@).len() == 0 || keeps_all(replacement))
            ==> r matches Ok(Cow::Borrowed(_)),
{
    match get_links(content) {
        Ok(spans) => match {
            proof {
                lemma_ordered_sorted(spans@);
            }
            replace_links_at(content, &spans, &replacement)
        } {
            Ok(text) => Ok(text),
            Err(error) => Err(RewriteError::Policy(error)),
        },
        Err(fault) => Err(RewriteError::Locate(fault)),
    }
}

/// The replacements that a table of rules gives for the spans of a
/// document, encoded: for each span the answer of the first rule that matches
/// the span's trimmed text.
pub open spec fn table_replacements(
    rules: Seq<Rule>,
    bytes: Seq<u8>,
    spans: Seq<Range<usize>>,
) -> Seq<Option<Seq<u8>>> {
    Seq::new(
        spans.len(),
        |k: int|
            match first_match(rules, link_text(bytes, spans[k])) {
                Some(text) => Some(encode_utf8(text)),
                None => None,
            },
    )
}

/// Rewrites the link destinations of a Markdown document by a table of
/// rules: each destination that a rule matches is replaced by the answer of
/// the first such rule, and everything else in the document stays byte for
/// byte. Where no rule matches any link the document comes back borrowed.
pub fn regexreplace_links<'a>(content: &'a str, replacements: &[Rule]) -> (r: Result<
    Cow<'a, str>,
    LinkError,
>)
    ensures
        match r {
            Ok(text) => {
                let news = table_replacements(
                    replacements@,
                    encode_utf8(content@),
                    link_spans(content@),
                );
                &&& scan_fault(content@) is None
                &&& encode_utf8(text@) == spliced(encode_utf8(content@), link_spans(content@), news)
                &&& (text is Borrowed) == all_kept(news)
                &&& text matches Cow::Borrowed(same) ==> same@ == content@
            },
            Err(fault) => scan_fault(content@) == Some(fault),
        },
{
    let policy = |link: &str| -> (answer: Result<Option<String>, ()>)
        ensures
            answer matches Ok(decision) && decision.deep_view() == first_match(
                replacements@,
                link@,
            ),
        { Ok(decide(replacements, link)) };
    let ghost bytes = encode_utf8(content@);
    let ghost spans = link_spans(content@);
    let ghost news = table_replacements(replacements@, bytes, spans);
    match replace_links(content, policy) {
        Ok(text) => {
            proof {
                let decisions = choose|decisions: Seq<Option<String>>|
                    #![auto]
                    {
                        &&& decisions.len() == spans.len()
                        &&& decided(answers_of(policy), bytes, spans, decisions)
                        &&& encode_utf8(text@) == spliced(
                            bytes,
                            spans,
                            replacement_bytes(decisions),
                        )
                        &&& (text is Borrowed) == all_kept(decisions)
                    };
                assert forall|k: int| 0 <= k < spans.len() implies #[trigger] replacement_bytes(
                    decisions,
                )[k] == news[k] && (decisions[k] is None) == (news[k] is None) by {
                    assert(answers_of(policy)(link_text(bytes, spans[k]), Ok(decisions[k])));
                }
                assert(replacement_bytes(decisions) =~= news);
                lemma_all_kept_encoded(decisions);
            }
            Ok(text)
        },
        Err(RewriteError::Locate(fault)) => Err(fault),
        Err(RewriteError::Policy(error)) => {
            proof {
                let earlier = choose|earlier: Seq<Option<String>>|
                    #![auto]
                    {
                        &&& earlier.len() < spans.len()
                        &&& decided(answers_of(policy), bytes, spans, earlier)
                        &&& answers_of(policy)(
                            link_text(bytes, spans[earlier.len() as int]),
                            Err(error),
                        )
                    };
                assert(may_decide(
                    policy,
                    link_text(bytes, spans[earlier.len() as int]),
                    Err(error),
                ));
            }
            unreached()
        },
    }
}

/// The answers of a policy that has one answer for each link.
pub open spec fn answers_exactly<E>(
    answer: spec_fn(Seq<char>) -> Result<Option<Seq<char>>, E>,
) -> spec_fn(Seq<char>, Result<Option<String>, E>) -> bool {
    |text: Seq<char>, outcome: Result<Option<String>, E>|
        match outcome {
            Ok(Some(new)) => answer(text) == Ok::<Option<Seq<char>>, E>(Some(new@)),
            Ok(None) => answer(text) == Ok::<Option<Seq<char>>, E>(None),
            Err(error) => answer(text) == Err::<Option<Seq<char>>, E>(error),
        }
}

/// `after` is what rewriting the links of `content` gives where the policy
/// answers every link: the document spliced with one answer per link.
pub open spec fn rewrite_gives<E>(
    answers: spec_fn(Seq<char>, Result<Option<String>, E>) -> bool,
    content: Seq<char>,
    after: Seq<char>,
) -> bool {
    &&& scan_fault(content) is None
    &&& exists|decisions: Seq<Option<String>>|
        #![auto]
        {
            &&& decisions.len() == link_spans(content).len()
            &&& decided(answers, encode_utf8(content), link_spans(content), decisions)
            &&& encode_utf8(after) == spliced(
                encode_utf8(content),
                link_spans(content),
                replacement_bytes(decisions),
            )
        }
}

/// A document without links, and one whose links are all kept, is rewritten
/// to itself.
pub proof fn lemma_rewritten_unchanged<E>(
    answers: spec_fn(Seq<char>, Result<Option<String>, E>) -> bool,
    content: Seq<char>,
    after: Seq<char>,
)
    requires
        rewrite_gives(answers, content, after),
        link_spans(content).len() == 0 || forall|text: Seq<char>, outcome: Result<Option<String>, E>|
            #[trigger] answers(text, outcome) ==> outcome == Ok::<Option<String>, E>(None),
    ensures
        after == content,
{
    let bytes = encode_utf8(content);
    let spans = link_spans(content);
    let decisions = choose|decisions: Seq<Option<String>>|
        #![auto]
        {
            &&& decisions.len() == spans.len()
            &&& decided(answers, bytes, spans, decisions)
            &&& encode_utf8(after) == spliced(bytes, spans, replacement_bytes(decisions))
        };
    assert forall|k: int| 0 <= k < decisions.len() implies (#[trigger] replacement_bytes(
        decisions,
    )[k]) is None by {
        assert(answers(link_text(bytes, spans[k]), Ok(decisions[k])));
    }
    lemma_spliced_all_kept(bytes, spans, replacement_bytes(decisions));
    lemma_encode_injective(after, content);
}

/// What can be rewritten with some answers can be rewritten with any
/// answers that include them.
pub proof fn lemma_rewritten_weaken<E>(
    narrow: spec_fn(Seq<char>, Result<Option<String>, E>) -> bool,
    wide: spec_fn(Seq<char>, Result<Option<String>, E>) -> bool,
    content: Seq<char>,
    result: Result<Cow<'_, str>, RewriteError<E>>,
)
    requires
        forall|text: Seq<char>, outcome: Result<Option<String>, E>| #[trigger]
            narrow(text, outcome) ==> wide(text, outcome),
        rewritten(narrow, content, result),
    ensures
        rewritten(wide, content, result),
{
    let bytes = encode_utf8(content);
    let spans = link_spans(content);
    match result {
        Ok(text) => {
            let decisions = choose|decisions: Seq<Option<String>>|
                #![auto]
                {
                    &&& decisions.len() == spans.len()
                    &&& decided(narrow, bytes, spans, decisions)
                    &&& encode_utf8(text@) == spliced(bytes, spans, replacement_bytes(decisions))
                    &&& (text is Borrowed) == all_kept(decisions)
                };
            assert(decided(wide, bytes, spans, decisions)) by {
                assert forall|k: int| 0 <= k < decisions.len() implies wide(
                    link_text(bytes, spans[k]),
                    Ok(#[trigger] decisions[k]),
                ) by {
                    assert(narrow(link_text(bytes, spans[k]), Ok(decisions[k])));
                }
            }
        },
        Err(RewriteError::Locate(_)) => {},
        Err(RewriteError::Policy(error)) => {
            let earlier = choose|earlier: Seq<Option<String>>|
                #![auto]
                {
                    &&& earlier.len() < spans.len()
                    &&& decided(narrow, bytes, spans, earlier)
                    &&& narrow(link_text(bytes, spans[earlier.len() as int]), Err(error))
                };
            assert(decided(wide, bytes, spans, earlier)) by {
                assert forall|k: int| 0 <= k < earlier.len() implies wide(
                    link_text(bytes, spans[k]),
                    Ok(#[trigger] earlier[k]),
                ) by {
                    assert(narrow(link_text(bytes, spans[k]), Ok(earlier[k])));
                }
            }
            assert(wide(link_text(bytes, spans[earlier.len() as int]), Err(error)));
        },
    }
}

} // verus!
