//! Links and titles from the syntax tree of a Markdown document: the link
//! constructs are nodes of the tree, and the destination of each is found
//! in the node's own text by the pattern of its kind.

use crate::links::{arrange_spans, link_text, table_replacements, LinkError};
use crate::rewrite::{
    all_kept, apply_replacements, lemma_all_kept_encoded, replacement_bytes, spliced,
};
use crate::rules::{
    capture_group, compile, compiles, decide, first_match, regex_group, Compiled, Rule,
};
use crate::spans::{span_order, spans_fit, spans_ordered};
use crate::text::{can_slice, slice, sliceable, trim};
use std::borrow::Cow;
use std::ops::Range;
use vstd::prelude::*;
use vstd::string::*;
use vstd::utf8::*;

verus! {

#[verifier::external_type_specification]
#[verifier::external_body]
pub struct ExMdastNode(markdown::mdast::Node);

/// What a node of the tree is, as far as links and titles go.
#[derive(Debug, Clone, Copy, PartialEq, Eq)]
pub enum NodeKind {
    /// An inline link or an autolink.
    Link,
    /// A link reference definition.
    Definition,
    /// A heading, with its rank.
    Heading(u8),
    /// Anything else.
    Other,
}

/// A node of the syntax tree: its kind, the bytes of the document that it
/// spans where the parser says so, and the nodes it holds.
#[derive(Debug)]
pub struct MdNode {
    pub kind: NodeKind,
    pub position: Option<(usize, usize)>,
    pub children: Vec<MdNode>,
}

/// `markdown::to_mdast` with the default options; `None` where it reports
/// an error.
#[verifier::external_body]
fn parse(content: &str) -> Option<markdown::mdast::Node> {
    markdown::to_mdast(content, &markdown::ParseOptions::default()).ok()
}

/// One node of `markdown::mdast` as a node of this library, and so each of
/// its children: the variant becomes the kind, and the offsets of the
/// position are kept.
#[verifier::external_body]
fn convert(node: &markdown::mdast::Node) -> MdNode {
    MdNode {
        kind: match node {
            markdown::mdast::Node::Link(_) => NodeKind::Link,
            markdown::mdast::Node::Definition(_) => NodeKind::Definition,
            markdown::mdast::Node::Heading(heading) => NodeKind::Heading(heading.depth),
            _ => NodeKind::Other,
        },
        position: node.position().map(|place| (place.start.offset, place.end.offset)),
        children: node.children().map(|below| below.iter().map(convert).collect()).unwrap_or_default(),
    }
}

/// Parses a Markdown document to its syntax tree. Nothing is known of the
/// tree but what the functions that take it find in it.
pub fn to_mdast(content: &str) -> (tree: Option<MdNode>) {
    match parse(content) {
        Some(node) => Some(convert(&node)),
        None => None,
    }
}

/// The pattern of an inline link: `[text](destination)`. Angle brackets
/// around the destination, and the whitespace outside them, are no part of
/// it.
pub const INLINE_LINK: &'static str = r"(?s)^\[.*\]\((?:\s*<)?(.*?)(?:>\s*)?\)$";

/// The pattern of an autolink: `<destination>`.
pub const AUTOLINK: &'static str = r"(?s)^<(.*)>$";

/// The pattern of a link reference definition: `[label]: destination`.
pub const LINK_LABEL: &'static str = r"(?s)^\[.*\]:\s*(.*)$";

/// The three patterns are regular expressions.
pub open spec fn patterns_compile() -> bool {
    compiles(INLINE_LINK@) && compiles(AUTOLINK@) && compiles(LINK_LABEL@)
}

/// The patterns by which the destination is found in a construct of a kind,
/// in the order in which they are tried.
pub open spec fn patterns_for(kind: NodeKind) -> Seq<Seq<char>> {
    match kind {
        NodeKind::Link => seq![INLINE_LINK@, AUTOLINK@],
        NodeKind::Definition => seq![LINK_LABEL@],
        _ => Seq::empty(),
    }
}

/// Where the first pattern that matches a text has its first group: `None`
/// where no pattern matches.
pub open spec fn group_in(patterns: Seq<Seq<char>>, text: Seq<char>) -> Option<
    Option<(usize, usize)>,
>
    decreases patterns.len(),
{
    if patterns.len() == 0 {
        None
    } else {
        match regex_group(patterns.first(), text, 1) {
            Some(group) => Some(group),
            None => group_in(patterns.drop_first(), text),
        }
    }
}

/// The destination of a link construct that spans `start..end`: where the
/// group of its pattern lies, counted from the start of the document. `None`
/// where the construct cannot be cut out of the document, does not match the
/// pattern of its kind, or holds the group where it cannot be cut out.
pub open spec fn destination_in(bytes: Seq<u8>, kind: NodeKind, start: usize, end: usize) -> Option<
    Range<usize>,
> {
    if !sliceable(bytes, start as int, end as int) {
        None
    } else {
        match group_in(patterns_for(kind), decode_utf8(bytes.subrange(start as int, end as int))) {
            Some(Some((from, to))) => if from <= to <= end - start && sliceable(
                bytes,
                start + from,
                start + to,
            ) {
                Some(((start + from) as usize)..((start + to) as usize))
            } else {
                None
            },
            _ => None,
        }
    }
}

/// The destination that a node itself holds: none for a node that is no
/// link construct. The error is a link construct without a position or
/// without a destination.
pub open spec fn own_link(bytes: Seq<u8>, node: MdNode) -> Result<Seq<Range<usize>>, ()> {
    match node.kind {
        NodeKind::Link | NodeKind::Definition => match node.position {
            Some((start, end)) => match destination_in(bytes, node.kind, start, end) {
                Some(span) => Ok(seq![span]),
                None => Err(()),
            },
            None => Err(()),
        },
        _ => Ok(Seq::empty()),
    }
}

/// The destinations in a node and below it: its own first, then those of
/// its children in their order. `None` where a link construct among them
/// holds no destination.
pub open spec fn links_of(bytes: Seq<u8>, node: MdNode) -> Option<Seq<Range<usize>>>
    decreases node, 0nat,
{
    match own_link(bytes, node) {
        Err(_) => None,
        Ok(own) => match links_in(bytes, node.children@, node.children@.len()) {
            None => None,
            Some(below) => Some(own + below),
        },
    }
}

/// The destinations in the first `count` nodes of a list.
pub open spec fn links_in(bytes: Seq<u8>, nodes: Seq<MdNode>, count: nat) -> Option<
    Seq<Range<usize>>,
>
    decreases nodes, count,
{
    if count == 0 || count > nodes.len() {
        Some(Seq::empty())
    } else {
        match links_in(bytes, nodes, (count - 1) as nat) {
            None => None,
            Some(before) => match links_of(bytes, nodes[count - 1]) {
                None => None,
                Some(found) => Some(before + found),
            },
        }
    }
}

/// A fault among the first nodes of a list is a fault of the list.
pub proof fn lemma_links_in_fault(bytes: Seq<u8>, nodes: Seq<MdNode>, count: nat)
    requires
        count <= nodes.len(),
        links_in(bytes, nodes, count) is None,
    ensures
        links_in(bytes, nodes, nodes.len()) is None,
    decreases nodes.len() - count,
{
    if count < nodes.len() {
        lemma_links_in_fault(bytes, nodes, count + 1);
    }
}

/// The three patterns, compiled.
pub struct Patterns {
    inline_link: Compiled,
    autolink: Compiled,
    link_label: Compiled,
}

impl Patterns {
    #[verifier::type_invariant]
    spec fn holds_the_patterns(&self) -> bool {
        &&& self.inline_link.source() == INLINE_LINK@
        &&& self.autolink.source() == AUTOLINK@
        &&& self.link_label.source() == LINK_LABEL@
    }

    /// Compiles the three patterns.
    pub fn new() -> (patterns: Option<Patterns>)
        ensures
            patterns is Some == patterns_compile(),
    {
        let inline_link = match compile(INLINE_LINK) {
            Ok(compiled) => compiled,
            Err(_) => {
                return None;
            },
        };
        let autolink = match compile(AUTOLINK) {
            Ok(compiled) => compiled,
            Err(_) => {
                return None;
            },
        };
        let link_label = match compile(LINK_LABEL) {
            Ok(compiled) => compiled,
            Err(_) => {
                return None;
            },
        };
        Some(Patterns { inline_link, autolink, link_label })
    }

    /// The destination of a link construct of a kind that spans
    /// `start..end`; see [`destination_in`].
    pub fn destination(&self, content: &str, kind: NodeKind, start: usize, end: usize) -> (found:
        Option<Range<usize>>)
        ensures
            found == destination_in(content.spec_bytes(), kind, start, end),
    {
        proof {
            use_type_invariant(self);
            reveal_with_fuel(group_in, 3);
        }
        if !can_slice(content, start, end) {
            return None;
        }
        let text = slice(content, start, end);
        let group = match kind {
            NodeKind::Link => {
                proof {
                    let tried = patterns_for(kind);
                    assert(tried.first() == INLINE_LINK@);
                    assert(tried.drop_first() =~= seq![AUTOLINK@]);
                    assert(tried.drop_first().first() == AUTOLINK@);
                    assert(tried.drop_first().drop_first() =~= Seq::<Seq<char>>::empty());
                }
                match capture_group(&self.inline_link, text, 1) {
                    Some(group) => Some(group),
                    None => capture_group(&self.autolink, text, 1),
                }
            },
            NodeKind::Definition => {
                proof {
                    let tried = patterns_for(kind);
                    assert(tried.first() == LINK_LABEL@);
                    assert(tried.drop_first() =~= Seq::<Seq<char>>::empty());
                }
                capture_group(&self.link_label, text, 1)
            },
            _ => None,
        };
        match group {
            Some(Some((from, to))) => {
                if from <= to && to <= end - start && can_slice(content, start + from, start + to) {
                    Some((start + from)..(start + to))
                } else {
                    None
                }
            },
            _ => None,
        }
    }

    /// Gathers the destinations in a node and below it; see [`links_of`].
    /// `false` where a link construct holds no destination.
    pub fn collect(&self, content: &str, node: &MdNode, found: &mut Vec<Range<usize>>) -> (whole:
        bool)
        requires
            spans_fit(content.spec_bytes(), old(found)@),
        ensures
            match links_of(content.spec_bytes(), *node) {
                Some(added) => whole && final(found)@ == old(found)@ + added,
                None => !whole,
            },
            spans_fit(content.spec_bytes(), final(found)@),
        decreases node,
    {
        let ghost bytes = content.spec_bytes();
        let ghost before = found@;
        match node.kind {
            NodeKind::Link | NodeKind::Definition => {
                let span = match node.position {
                    Some((start, end)) => match self.destination(content, node.kind, start, end) {
                        Some(span) => span,
                        None => {
                            return false;
                        },
                    },
                    None => {
                        return false;
                    },
                };
                found.push(span);
                proof {
                    assert(found@ =~= before + seq![span]);
                }
            },
            _ => {
                proof {
                    assert(found@ =~= before + Seq::<Range<usize>>::empty());
                }
            },
        }
        let ghost own = own_link(bytes, *node)->Ok_0;
        let mut i: usize = 0;
        proof {
            assert(found@ =~= before + own + Seq::<Range<usize>>::empty());
        }
        while i < node.children.len()
            invariant
                0 <= i <= node.children.len(),
                bytes == content.spec_bytes(),
                own_link(bytes, *node) == Ok::<Seq<Range<usize>>, ()>(own),
                links_in(bytes, node.children@, i as nat) matches Some(below) && found@ == before
                    + own + below,
                spans_fit(bytes, found@),
            decreases node.children.len() - i,
        {
            let ghost so_far = found@;
            let ghost below = links_in(bytes, node.children@, i as nat)->0;
            if !self.collect(content, &node.children[i], found) {
                proof {
                    assert(node.children@[i + 1 - 1] == node.children[i as int]);
                    lemma_links_in_fault(bytes, node.children@, i as nat + 1);
                }
                return false;
            }
            proof {
                let added = links_of(bytes, node.children[i as int])->0;
                assert(node.children@[i + 1 - 1] == node.children[i as int]);
                assert(found@ =~= before + own + (below + added));
            }
            i = i + 1;
        }
        proof {
            let below = links_in(bytes, node.children@, node.children@.len())->0;
            assert(found@ =~= before + (own + below));
        }
        true
    }
}

/// Where the first of the nodes that is a heading of rank 1 with a position
/// stands, or the number of nodes where none is.
pub open spec fn first_title(nodes: Seq<MdNode>) -> int
    decreases nodes.len(),
{
    if nodes.len() == 0 {
        0
    } else if nodes.first().kind == NodeKind::Heading(1) && nodes.first().position is Some {
        0
    } else {
        1 + first_title(nodes.drop_first())
    }
}

/// The title that a tree gives a document: the text of the first heading of
/// rank 1 among the children of the root, from where the first node of the
/// heading's text starts to where the last one ends. Markers before and
/// behind the text, and the line that underlines it, are no part of it. A
/// heading without text gives the empty title. `None` where no child is such
/// a heading, or the text has no place that can be cut out of the document.
pub open spec fn tree_title(bytes: Seq<u8>, root: MdNode) -> Option<Seq<char>> {
    let at = first_title(root.children@);
    if at < root.children@.len() {
        let parts = root.children@[at].children@;
        if parts.len() == 0 {
            Some(Seq::empty())
        } else {
            match (parts.first().position, parts.last().position) {
                (Some((start, _)), Some((_, end))) => if sliceable(bytes, start as int, end as int) {
                    Some(decode_utf8(bytes.subrange(start as int, end as int)))
                } else {
                    None
                },
                _ => None,
            }
        }
    } else {
        None
    }
}

/// The title of a document, taken from its syntax tree; see [`tree_title`].
/// Only the children of the root are looked at, in their order: a heading
/// inside a quote or a list is no title.
pub fn get_title<'a>(node: &MdNode, content: &'a str) -> (title: Option<&'a str>)
    ensures
        match title {
            Some(text) => tree_title(content.spec_bytes(), *node) == Some(text@),
            None => tree_title(content.spec_bytes(), *node) is None,
        },
{
    let ghost nodes = node.children@;
    let mut at: usize = 0;
    proof {
        assert(nodes.skip(0) =~= nodes);
    }
    while at < node.children.len() && !(is_title(&node.children[at]))
        invariant
            0 <= at <= node.children.len(),
            nodes == node.children@,
            first_title(nodes) == at + first_title(nodes.skip(at as int)),
        decreases node.children.len() - at,
    {
        proof {
            assert(nodes.skip(at as int).first() == nodes[at as int]);
            assert(nodes.skip(at as int).drop_first() =~= nodes.skip(at + 1));
        }
        at = at + 1;
    }
    proof {
        if at < node.children.len() {
            assert(nodes.skip(at as int).first() == nodes[at as int]);
        }
        assert(first_title(nodes) == at);
    }
    if at >= node.children.len() {
        return None;
    }
    let parts = &node.children[at].children;
    if parts.len() == 0 {
        proof {
            encode_utf8_valid_utf8(content@);
            is_char_boundary_start_end_of_seq(content.spec_bytes());
            assert(decode_utf8(content.spec_bytes().subrange(0, 0)) =~= Seq::<char>::empty()) by {
                assert(content.spec_bytes().subrange(0, 0) =~= Seq::<u8>::empty());
            }
        }
        return Some(slice(content, 0, 0));
    }
    match (parts[0].position, parts[parts.len() - 1].position) {
        (Some((start, _)), Some((_, end))) => {
            if can_slice(content, start, end) {
                Some(slice(content, start, end))
            } else {
                None
            }
        },
        _ => None,
    }
}

/// Whether a node is a heading of rank 1 with a position.
pub fn is_title(node: &MdNode) -> (title: bool)
    ensures
        title == (node.kind == NodeKind::Heading(1) && node.position is Some),
{
    match node.kind {
        NodeKind::Heading(rank) => rank == 1 && node.position.is_some(),
        _ => false,
    }
}

/// Why the destinations below a node cannot be located, if they cannot.
pub open spec fn tree_fault(bytes: Seq<u8>, node: MdNode) -> Option<LinkError> {
    if !patterns_compile() {
        Some(LinkError::Unparsed)
    } else {
        match links_of(bytes, node) {
            None => Some(LinkError::Malformed),
            Some(found) => if spans_ordered(found.sort_by(span_order())) {
                None
            } else {
                Some(LinkError::Overlapping)
            },
        }
    }
}

/// The destinations below a node, from left to right.
pub open spec fn tree_spans(bytes: Seq<u8>, node: MdNode) -> Seq<Range<usize>> {
    links_of(bytes, node).unwrap().sort_by(span_order())
}

/// Every link construct in the node and below it holds a destination: it
/// has a position, its text matches the pattern of its kind, and what the
/// pattern holds as the destination can be cut out of the document.
pub open spec fn links_match(bytes: Seq<u8>, node: MdNode) -> bool {
    links_of(bytes, node) is Some
}

/// Whether the tree is one of this document, as far as its link constructs
/// tell; see [`links_match`]. Without the three patterns nothing can be
/// told, and the answer is no.
pub fn has_matching_links(content: &str, node: &MdNode) -> (matching: bool)
    ensures
        matching == (patterns_compile() && links_match(content.spec_bytes(), *node)),
{
    match Patterns::new() {
        Some(patterns) => {
            let mut found: Vec<Range<usize>> = Vec::new();
            patterns.collect(content, node, &mut found)
        },
        None => false,
    }
}

/// Locates the link destinations in the tree where the tree is one of this
/// document, as [`get_links`] does; `None` where it is not.
pub fn try_get_links(content: &str, node: &MdNode) -> (located: Option<
    Result<Vec<Range<usize>>, LinkError>,
>)
    ensures
        located is Some == (patterns_compile() && links_match(content.spec_bytes(), *node)),
        match located {
            Some(Ok(spans)) => {
                &&& tree_fault(content.spec_bytes(), *node) is None
                &&& spans@ == tree_spans(content.spec_bytes(), *node)
                &&& spans_fit(content.spec_bytes(), spans@)
                &&& spans_ordered(spans@)
            },
            Some(Err(fault)) => tree_fault(content.spec_bytes(), *node) == Some(fault),
            None => true,
        },
{
    if has_matching_links(content, node) {
        Some(get_links(content, node))
    } else {
        None
    }
}

/// Rewrites the links of the tree by a table of rules where the tree is one
/// of this document, as [`replace_links`] does; `None` where it is not.
pub fn try_replace_links<'a>(content: &'a str, ast: &MdNode, replacements: &[Rule]) -> (r: Option<
    Result<Cow<'a, str>, LinkError>,
>)
    ensures
        r is Some == (patterns_compile() && links_match(content.spec_bytes(), *ast)),
        match r {
            Some(Ok(text)) => {
                let bytes = content.spec_bytes();
                let news = table_replacements(replacements@, bytes, tree_spans(bytes, *ast));
                &&& tree_fault(bytes, *ast) is None
                &&& encode_utf8(text@) == spliced(bytes, tree_spans(bytes, *ast), news)
                &&& (text is Borrowed) == all_kept(news)
                &&& text matches Cow::Borrowed(same) ==> same@ == content@
            },
            Some(Err(fault)) => tree_fault(content.spec_bytes(), *ast) == Some(fault),
            None => true,
        },
{
    if has_matching_links(content, ast) {
        Some(replace_links(content, ast, replacements))
    } else {
        None
    }
}

/// Locates the link destinations of a document in its syntax tree: in each
/// link, autolink and definition node, the part of the node's text that the
/// pattern of its kind holds as the destination. The spans come sorted from
/// left to right; they can be cut out of the document and do not overlap.
/// The tree has to be one of this document: a link construct whose text
/// does not match the pattern of its kind is no input of this function, and
/// [`has_matching_links`] tells whether there is one.
pub fn get_links(content: &str, node: &MdNode) -> (located: Result<Vec<Range<usize>>, LinkError>)
    requires
        links_match(content.spec_bytes(), *node),
    ensures
        match located {
            Ok(spans) => {
                &&& tree_fault(content.spec_bytes(), *node) is None
                &&& spans@ == tree_spans(content.spec_bytes(), *node)
                &&& spans_fit(content.spec_bytes(), spans@)
                &&& spans_ordered(spans@)
            },
            Err(fault) => tree_fault(content.spec_bytes(), *node) == Some(fault),
        },
{
    let patterns = match Patterns::new() {
        Some(patterns) => patterns,
        None => {
            return Err(LinkError::Unparsed);
        },
    };
    let mut found: Vec<Range<usize>> = Vec::new();
    if !patterns.collect(content, node, &mut found) {
        return Err(LinkError::Malformed);
    }
    proof {
        let added = links_of(content.spec_bytes(), *node)->0;
        assert(Seq::<Range<usize>>::empty() + added =~= added);
    }
    match arrange_spans(content, &found) {
        Some(sorted) => Ok(sorted),
        None => Err(LinkError::Overlapping),
    }
}

/// Rewrites the link destinations that a syntax tree holds by a table of
/// rules: each destination that a rule matches is replaced by the answer of
/// the first such rule, and everything else in the document stays byte for
/// byte. Where no rule matches any link the document comes back borrowed.
/// The tree has to be one of this document, as for [`get_links`].
pub fn replace_links<'a>(content: &'a str, ast: &MdNode, replacements: &[Rule]) -> (r: Result<
    Cow<'a, str>,
    LinkError,
>)
    requires
        links_match(content.spec_bytes(), *ast),
    ensures
        match r {
            Ok(text) => {
                let bytes = content.spec_bytes();
                let news = table_replacements(replacements@, bytes, tree_spans(bytes, *ast));
                &&& tree_fault(bytes, *ast) is None
                &&& encode_utf8(text@) == spliced(bytes, tree_spans(bytes, *ast), news)
                &&& (text is Borrowed) == all_kept(news)
                &&& text matches Cow::Borrowed(same) ==> same@ == content@
            },
            Err(fault) => tree_fault(content.spec_bytes(), *ast) == Some(fault),
        },
{
    let spans = match get_links(content, ast) {
        Ok(spans) => spans,
        Err(fault) => {
            return Err(fault);
        },
    };
    let ghost bytes = content.spec_bytes();
    let ghost news = table_replacements(replacements@, bytes, spans@);
    let mut decisions: Vec<Option<String>> = Vec::new();
    let mut i: usize = 0;
    while i < spans.len()
        invariant
            0 <= i <= spans.len(),
            bytes == content.spec_bytes(),
            news == table_replacements(replacements@, bytes, spans@),
            spans_fit(bytes, spans@),
            decisions.len() == i,
            forall|k: int|
                0 <= k < i ==> #[trigger] replacement_bytes(decisions@)[k] == news[k] && (
                decisions[k] is None) == (news[k] is None),
        decreases spans.len() - i,
    {
        let link = trim(slice(content, spans[i].start, spans[i].end));
        let ghost before = decisions@;
        let decision = decide(replacements, link);
        let ghost shown = decision.deep_view();
        decisions.push(decision);
        proof {
            assert(link@ == link_text(bytes, spans[i as int]));
            assert(shown == first_match(replacements@, link_text(bytes, spans[i as int])));
            assert forall|k: int| 0 <= k < i + 1 implies #[trigger] replacement_bytes(
                decisions@,
            )[k] == news[k] && (decisions[k] is None) == (news[k] is None) by {
                if k < i {
                    assert(decisions[k] == before[k]);
                    assert(replacement_bytes(before)[k] == news[k]);
                } else {
                    assert(decisions[k].deep_view() == shown);
                }
            }
        }
        i = i + 1;
    }
    let text = apply_replacements(content, &spans, &decisions);
    proof {
        assert(replacement_bytes(decisions@) =~= news);
        lemma_all_kept_encoded(decisions@);
    }
    Ok(text)
}

} // verus!
