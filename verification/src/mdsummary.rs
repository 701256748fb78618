//! The summary of a directory of Markdown files: a tree of titled nodes,
//! sorted by title and written out as a nested list.

use crate::headings::{get_title, title_span};
use crate::paths::{
    chars_of, extension, extension_of, file_name, file_name_of, same_chars, stem, stem_of,
    text_of,
};
use vstd::prelude::*;
use vstd::string::*;
use vstd::utf8::*;

verus! {

/// One entry of the summary: a file, or a directory with what it holds.
#[derive(Debug)]
pub struct SummaryNode {
    pub title: String,
    pub path: Option<String>,
    pub sub_nodes: Vec<SummaryNode>,
}

/// A node as plain values.
pub struct NodeView {
    pub title: Seq<char>,
    pub path: Option<Seq<char>>,
    pub sub_nodes: Seq<NodeView>,
}

/// A node seen as plain values, and so each node below it.
pub open spec fn node_view(node: SummaryNode) -> NodeView
    decreases node,
{
    NodeView {
        title: node.title@,
        path: match node.path {
            Some(path) => Some(path@),
            None => None,
        },
        sub_nodes: views(node.sub_nodes@),
    }
}

/// The nodes of a list as plain values.
pub open spec fn views(nodes: Seq<SummaryNode>) -> Seq<NodeView>
    decreases nodes,
{
    Seq::new(
        nodes.len(),
        |i: int|
            if 0 <= i < nodes.len() {
                node_view(nodes[i])
            } else {
                arbitrary()
            },
    )
}

impl View for SummaryNode {
    type V = NodeView;

    open spec fn view(&self) -> NodeView {
        node_view(*self)
    }
}

/// The order of titles: character by character, by code point; a title
/// comes before every longer title that starts with it.
pub open spec fn text_le(a: Seq<char>, b: Seq<char>) -> bool
    decreases a.len(),
{
    if a.len() == 0 {
        true
    } else if b.len() == 0 {
        false
    } else if a.first() != b.first() {
        (a.first() as u32) < (b.first() as u32)
    } else {
        text_le(a.drop_first(), b.drop_first())
    }
}

/// Compares two titles; see [`text_le`].
pub fn title_le(a: &str, b: &str) -> (le: bool)
    ensures
        le == text_le(a@, b@),
{
    let a = chars_of(a);
    let b = chars_of(b);
    let mut i: usize = 0;
    proof {
        assert(a@.skip(0) =~= a@);
        assert(b@.skip(0) =~= b@);
    }
    while i < a.len() && i < b.len() && a[i] == b[i]
        invariant
            0 <= i <= a.len(),
            i <= b.len(),
            text_le(a@, b@) == text_le(a@.skip(i as int), b@.skip(i as int)),
        decreases a.len() - i,
    {
        proof {
            assert(a@.skip(i as int).drop_first() =~= a@.skip(i + 1));
            assert(b@.skip(i as int).drop_first() =~= b@.skip(i + 1));
        }
        i = i + 1;
    }
    if i >= a.len() {
        true
    } else if i >= b.len() {
        false
    } else {
        (a[i] as u32) < (b[i] as u32)
    }
}

/// A sorted list with one more node, put before the first node whose title
/// does not come before its own.
pub open spec fn inserted(node: NodeView, sorted: Seq<NodeView>) -> Seq<NodeView>
    decreases sorted.len(),
{
    if sorted.len() == 0 {
        seq![node]
    } else if text_le(node.title, sorted.first().title) {
        seq![node] + sorted
    } else {
        seq![sorted.first()] + inserted(node, sorted.drop_first())
    }
}

/// The nodes in the order of their titles; nodes with the same title keep
/// the order they had.
pub open spec fn sorted_by_title(nodes: Seq<NodeView>) -> Seq<NodeView>
    decreases nodes.len(),
{
    if nodes.len() == 0 {
        Seq::empty()
    } else {
        inserted(nodes.first(), sorted_by_title(nodes.drop_first()))
    }
}

/// A node with the nodes below it sorted by title, at every depth.
pub open spec fn sorted_tree(node: NodeView) -> NodeView
    decreases node,
{
    NodeView {
        title: node.title,
        path: node.path,
        sub_nodes: sorted_by_title(sorted_each(node.sub_nodes)),
    }
}

/// Each node of a list sorted within.
pub open spec fn sorted_each(nodes: Seq<NodeView>) -> Seq<NodeView>
    decreases nodes,
{
    Seq::new(
        nodes.len(),
        |i: int|
            if 0 <= i < nodes.len() {
                sorted_tree(nodes[i])
            } else {
                arbitrary()
            },
    )
}

/// Each node of a list sorted within, and the list sorted by title.
pub open spec fn sorted_forest(nodes: Seq<NodeView>) -> Seq<NodeView> {
    sorted_by_title(sorted_each(nodes))
}

/// Of two titles one comes before the other, or they are the same.
pub proof fn lemma_text_le_total(a: Seq<char>, b: Seq<char>)
    ensures
        text_le(a, b) || text_le(b, a),
    decreases a.len(),
{
    if a.len() > 0 && b.len() > 0 {
        if a.first() == b.first() {
            lemma_text_le_total(a.drop_first(), b.drop_first());
        } else {
            char_u32_cast(a.first(), a.first() as u32);
            char_u32_cast(b.first(), b.first() as u32);
        }
    }
}

/// The order of titles is transitive.
pub proof fn lemma_text_le_transitive(a: Seq<char>, b: Seq<char>, c: Seq<char>)
    requires
        text_le(a, b),
        text_le(b, c),
    ensures
        text_le(a, c),
    decreases a.len(),
{
    if a.len() > 0 && b.len() > 0 && c.len() > 0 && a.first() == b.first() && b.first()
        == c.first() {
        lemma_text_le_transitive(a.drop_first(), b.drop_first(), c.drop_first());
    }
}

/// The titles stand in order: none comes before the title of a node to its
/// left.
pub open spec fn ordered_by_title(nodes: Seq<NodeView>) -> bool {
    forall|i: int, j: int|
        0 <= i < j < nodes.len() ==> text_le((#[trigger] nodes[i]).title, (#[trigger] nodes[j]).title)
}

/// Putting a node into an ordered list keeps the list ordered, and adds the
/// node and nothing else.
pub proof fn lemma_inserted(node: NodeView, sorted: Seq<NodeView>)
    requires
        ordered_by_title(sorted),
    ensures
        ordered_by_title(inserted(node, sorted)),
        inserted(node, sorted).to_multiset() == sorted.to_multiset().insert(node),
        inserted(node, sorted).len() == sorted.len() + 1,
    decreases sorted.len(),
{
    broadcast use vstd::seq_lib::group_to_multiset_ensures;

    let after = inserted(node, sorted);
    if sorted.len() == 0 {
        assert(after =~= Seq::<NodeView>::empty().push(node));
    } else if text_le(node.title, sorted.first().title) {
        assert(after =~= sorted.insert(0, node));
        vstd::seq_lib::to_multiset_insert(sorted, 0, node);
        assert forall|i: int, j: int| 0 <= i < j < after.len() implies text_le(
            (#[trigger] after[i]).title,
            (#[trigger] after[j]).title,
        ) by {
            if i == 0 {
                if j > 1 {
                    assert(text_le(sorted[0].title, sorted[j - 1].title));
                    lemma_text_le_transitive(node.title, sorted[0].title, sorted[j - 1].title);
                }
            } else {
                assert(text_le(sorted[i - 1].title, sorted[j - 1].title));
            }
        }
    } else {
        let first = sorted.first();
        let rest = sorted.drop_first();
        assert forall|i: int, j: int| 0 <= i < j < rest.len() implies text_le(
            (#[trigger] rest[i]).title,
            (#[trigger] rest[j]).title,
        ) by {
            assert(text_le(sorted[i + 1].title, sorted[j + 1].title));
        }
        lemma_inserted(node, rest);
        let below = inserted(node, rest);
        assert(after =~= below.insert(0, first));
        vstd::seq_lib::to_multiset_insert(below, 0, first);
        assert(sorted =~= rest.insert(0, first));
        vstd::seq_lib::to_multiset_insert(rest, 0, first);
        assert(after.to_multiset() =~= sorted.to_multiset().insert(node));
        lemma_text_le_total(node.title, first.title);
        assert forall|i: int, j: int| 0 <= i < j < after.len() implies text_le(
            (#[trigger] after[i]).title,
            (#[trigger] after[j]).title,
        ) by {
            if i == 0 {
                let other = below[j - 1];
                assert(below.contains(other));
                assert(below.to_multiset().count(other) > 0);
                if other != node {
                    assert(rest.to_multiset().count(other) > 0);
                    assert(rest.contains(other));
                    let at = choose|at: int| 0 <= at < rest.len() && rest[at] == other;
                    assert(text_le(sorted[0].title, sorted[at + 1].title));
                }
            } else {
                assert(text_le(below[i - 1].title, below[j - 1].title));
            }
        }
    }
}

/// Sorting by title puts the titles in order, and keeps the nodes: each
/// node is in the sorted list as often as it was in the list.
pub proof fn lemma_sorted_by_title(nodes: Seq<NodeView>)
    ensures
        ordered_by_title(sorted_by_title(nodes)),
        sorted_by_title(nodes).to_multiset() == nodes.to_multiset(),
        sorted_by_title(nodes).len() == nodes.len(),
    decreases nodes.len(),
{
    broadcast use vstd::seq_lib::group_to_multiset_ensures;

    if nodes.len() == 0 {
        assert(sorted_by_title(nodes) =~= nodes);
    } else {
        let rest = nodes.drop_first();
        lemma_sorted_by_title(rest);
        lemma_inserted(nodes.first(), sorted_by_title(rest));
        assert(nodes =~= rest.insert(0, nodes.first()));
        vstd::seq_lib::to_multiset_insert(rest, 0, nodes.first());
    }
}

/// Where a node is put into a sorted list: behind the nodes whose titles
/// come strictly before its own, and before the next one.
pub proof fn lemma_inserted_at(node: NodeView, sorted: Seq<NodeView>, at: int)
    requires
        0 <= at <= sorted.len(),
        forall|j: int| 0 <= j < at ==> !text_le(node.title, (#[trigger] sorted[j]).title),
        at < sorted.len() ==> text_le(node.title, sorted[at].title),
    ensures
        inserted(node, sorted) == sorted.insert(at, node),
    decreases sorted.len(),
{
    if sorted.len() == 0 {
        assert(sorted.insert(at, node) =~= seq![node]);
    } else if at == 0 {
        assert(sorted.insert(0, node) =~= seq![node] + sorted);
    } else {
        let rest = sorted.drop_first();
        assert(!text_le(node.title, sorted[0].title));
        assert forall|j: int| 0 <= j < at - 1 implies !text_le(
            node.title,
            (#[trigger] rest[j]).title,
        ) by {
            assert(rest[j] == sorted[j + 1]);
        }
        lemma_inserted_at(node, rest, at - 1);
        assert(sorted.insert(at, node) =~= seq![sorted.first()] + rest.insert(at - 1, node));
    }
}

/// A node whose list of nodes below has been sorted is the sorted node.
pub proof fn lemma_sorted_node(before: SummaryNode, after: SummaryNode)
    requires
        after.title == before.title,
        after.path == before.path,
        views(after.sub_nodes@) == sorted_forest(views(before.sub_nodes@)),
    ensures
        after@ == sorted_tree(before@),
{
}

/// Sorts a list of nodes by title, and the nodes below each node likewise.
/// Nodes with the same title keep their order.
pub fn sort_nodes(nodes: Vec<SummaryNode>) -> (sorted: Vec<SummaryNode>)
    ensures
        views(sorted@) == sorted_forest(views(nodes@)),
    decreases nodes,
{
    let ghost all = views(nodes@);
    let ghost inner = sorted_each(all);
    let mut rest = nodes;
    let mut sorted: Vec<SummaryNode> = Vec::new();
    proof {
        assert(nodes@.take(nodes.len() as int) =~= nodes@);
        assert(inner.skip(inner.len() as int) =~= Seq::<NodeView>::empty());
        assert(views(sorted@) =~= Seq::<NodeView>::empty());
    }
    while rest.len() > 0
        invariant
            rest.len() <= nodes.len(),
            rest@ == nodes@.take(rest.len() as int),
            all == views(nodes@),
            inner == sorted_each(all),
            views(sorted@) == sorted_by_title(inner.skip(rest.len() as int)),
        decreases rest.len(),
    {
        let node = rest.pop().unwrap();
        let ghost popped = node;
        proof {
            assert(node == nodes@[rest.len() as int]);
            assert(decreases_to!(nodes => nodes@[rest.len() as int]));
        }
        let SummaryNode { title, path, sub_nodes } = node;
        let below = sort_nodes(sub_nodes);
        let node = SummaryNode { title, path, sub_nodes: below };
        proof {
            lemma_sorted_node(popped, node);
            assert(node@ == inner[rest.len() as int]);
        }
        let ghost before = views(sorted@);
        let mut at: usize = 0;
        while at < sorted.len() && !title_le(node.title.as_str(), sorted[at].title.as_str())
            invariant
                0 <= at <= sorted.len(),
                before == views(sorted@),
                forall|j: int| 0 <= j < at ==> !text_le(node@.title, (#[trigger] before[j]).title),
            decreases sorted.len() - at,
        {
            at = at + 1;
        }
        proof {
            lemma_inserted_at(node@, before, at as int);
        }
        sorted.insert(at, node);
        proof {
            assert(views(sorted@) =~= before.insert(at as int, node@));
            let tail = inner.skip(rest.len() as int);
            assert(tail.drop_first() =~= inner.skip(rest.len() + 1));
            assert(tail.first() == node@);
        }
    }
    proof {
        assert(inner.skip(0) =~= inner);
    }
    sorted
}

/// What the file system holds at an entry of a directory, symbolic links
/// followed.
#[derive(Debug)]
pub enum Content {
    /// A file, with its text where it was read.
    File(Option<String>),
    /// A directory, with its entries.
    Directory(Vec<Entry>),
    /// Anything else.
    Other,
}

/// One entry of a directory.
#[derive(Debug)]
pub struct Entry {
    /// The name under which the directory lists the entry.
    pub name: String,
    /// The path of the entry: the directory's path and the name.
    pub path: String,
    /// The path at which the entry's content lies: that of the entry, or
    /// where its symbolic links lead.
    pub real_path: String,
    pub content: Content,
}

/// Why a directory has no summary.
#[derive(Debug, Clone, Copy, PartialEq, Eq, Structural)]
pub enum SummaryError {
    /// A directory holds more than one index file.
    TwoIndexes,
    /// A file has no level-1 heading, and its path no name to stand in.
    Untitled,
    /// The text of a Markdown file is needed and was not read.
    Unread,
}

/// The names by which a file is the index of its directory.
pub open spec fn is_index(name: Seq<char>) -> bool {
    name == "README.md"@ || name == "index.md"@
}

/// A file that becomes a node: one with the extension `md` that is not the
/// summary itself.
pub open spec fn is_page(name: Seq<char>) -> bool {
    extension_of(name) == Some("md"@) && name != "SUMMARY.md"@
}

/// The title of a Markdown file: the text of its first level-1 heading, or
/// without one the name of the file, less its extension.
pub open spec fn title_of(path: Seq<char>, text: Seq<char>) -> Option<Seq<char>> {
    match title_span(text) {
        Some((start, end)) => Some(decode_utf8(encode_utf8(text).subrange(start as int, end as int))),
        None => match file_name(path) {
            Some(name) => Some(stem_of(name)),
            None => None,
        },
    }
}

/// What has been gathered of a directory: its title, its index file, and
/// the nodes of its other entries.
pub struct Gathered {
    pub title: Seq<char>,
    pub index: Option<Seq<char>>,
    pub nodes: Seq<NodeView>,
}

/// What the first `count` entries of a directory give, taken in order, or
/// the first error among them. An index file gives the directory its title
/// and its path, and a second one is an error; any other entry adds its
/// node, if it has one.
pub open spec fn gathered(entries: Seq<Entry>, count: nat, default_title: Seq<char>) -> Result<
    Gathered,
    SummaryError,
>
    decreases entries, count,
{
    if count == 0 || count > entries.len() {
        Ok(Gathered { title: default_title, index: None, nodes: Seq::empty() })
    } else {
        match gathered(entries, (count - 1) as nat, default_title) {
            Err(error) => Err(error),
            Ok(so_far) => {
                let entry = entries[count - 1];
                if is_index(entry.name@) {
                    if so_far.index is Some {
                        Err(SummaryError::TwoIndexes)
                    } else {
                        match entry.content {
                            Content::File(Some(text)) => match title_of(entry.path@, text@) {
                                Some(title) => Ok(
                                    Gathered {
                                        title,
                                        index: Some(entry.path@),
                                        nodes: so_far.nodes,
                                    },
                                ),
                                None => Err(SummaryError::Untitled),
                            },
                            _ => Err(SummaryError::Unread),
                        }
                    }
                } else {
                    match node_of_entry(entry) {
                        Err(error) => Err(error),
                        Ok(Some(node)) => Ok(
                            Gathered {
                                title: so_far.title,
                                index: so_far.index,
                                nodes: so_far.nodes.push(node),
                            },
                        ),
                        Ok(None) => Ok(so_far),
                    }
                }
            },
        }
    }
}

/// The node of a directory with these entries. A directory without an
/// index file and without a node below it has none.
pub open spec fn node_of_dir(entries: Seq<Entry>, default_title: Seq<char>) -> Result<
    Option<NodeView>,
    SummaryError,
>
    decreases entries, entries.len() + 1,
{
    match gathered(entries, entries.len(), default_title) {
        Err(error) => Err(error),
        Ok(all) => if all.nodes.len() == 0 && all.index is None {
            Ok(None)
        } else {
            Ok(Some(NodeView { title: all.title, path: all.index, sub_nodes: all.nodes }))
        },
    }
}

/// The node of one entry: that of a directory, titled by its name unless
/// its index says otherwise; a leaf for a page; and none for anything else.
pub open spec fn node_of_entry(entry: Entry) -> Result<Option<NodeView>, SummaryError>
    decreases entry, 0nat,
{
    match entry.content {
        Content::Directory(entries) => node_of_dir(entries@, entry.name@),
        Content::File(text) => if is_page(entry.name@) {
            match text {
                Some(text) => match title_of(entry.real_path@, text@) {
                    Some(title) => Ok(
                        Some(
                            NodeView {
                                title,
                                path: Some(entry.path@),
                                sub_nodes: Seq::empty(),
                            },
                        ),
                    ),
                    None => Err(SummaryError::Untitled),
                },
                None => Err(SummaryError::Unread),
            }
        } else {
            Ok(None)
        },
        Content::Other => Ok(None),
    }
}

/// One of the first `count` entries is named as an index file.
pub open spec fn index_among(entries: Seq<Entry>, count: nat) -> bool
    decreases count,
{
    if count == 0 || count > entries.len() {
        false
    } else {
        index_among(entries, (count - 1) as nat) || is_index(entries[count - 1].name@)
    }
}

/// The nodes of the first `count` entries at the top of a summary, or the
/// first error among them. The summary has no node of its own that an index
/// file could title: an index file at the top is a page like any other. A
/// second one is an error all the same, as in every directory.
pub open spec fn top_nodes(entries: Seq<Entry>, count: nat) -> Result<Seq<NodeView>, SummaryError>
    decreases count,
{
    if count == 0 || count > entries.len() {
        Ok(Seq::empty())
    } else {
        match top_nodes(entries, (count - 1) as nat) {
            Err(error) => Err(error),
            Ok(nodes) => if is_index(entries[count - 1].name@) && index_among(
                entries,
                (count - 1) as nat,
            ) {
                Err(SummaryError::TwoIndexes)
            } else {
                match node_of_entry(entries[count - 1]) {
                    Err(error) => Err(error),
                    Ok(Some(node)) => Ok(nodes.push(node)),
                    Ok(None) => Ok(nodes),
                }
            },
        }
    }
}

/// An error among the first entries of a directory is the error of the
/// directory.
pub proof fn lemma_gathered_error(entries: Seq<Entry>, count: nat, default_title: Seq<char>)
    requires
        count <= entries.len(),
        gathered(entries, count, default_title) is Err,
    ensures
        node_of_dir(entries, default_title) == Err::<Option<NodeView>, SummaryError>(
            gathered(entries, count, default_title)->Err_0,
        ),
    decreases entries.len() - count,
{
    if count < entries.len() {
        lemma_gathered_error(entries, count + 1, default_title);
    }
}

/// An index file among the first entries is one among more of them.
pub proof fn lemma_index_among(entries: Seq<Entry>, at: int, count: nat)
    requires
        0 <= at < count <= entries.len(),
        is_index(entries[at].name@),
    ensures
        index_among(entries, count),
    decreases count,
{
    if count > at + 1 {
        lemma_index_among(entries, at, (count - 1) as nat);
    }
}

/// A directory at the top with two index files has no summary: gathering
/// its entries ends in an error, that of the second index at the latest.
pub proof fn lemma_two_indexes_at_the_top(entries: Seq<Entry>, first: int, second: int)
    requires
        0 <= first < second < entries.len(),
        is_index(entries[first].name@),
        is_index(entries[second].name@),
    ensures
        top_nodes(entries, entries.len()) is Err,
{
    lemma_index_among(entries, first, second as nat);
    assert(top_nodes(entries, (second + 1) as nat) is Err) by {
        assert(entries[second + 1 - 1] == entries[second]);
    }
    lemma_top_nodes_error(entries, (second + 1) as nat);
}

/// An error among the first entries at the top is the error of the summary.
pub proof fn lemma_top_nodes_error(entries: Seq<Entry>, count: nat)
    requires
        count <= entries.len(),
        top_nodes(entries, count) is Err,
    ensures
        top_nodes(entries, entries.len()) == top_nodes(entries, count),
    decreases entries.len() - count,
{
    if count < entries.len() {
        lemma_top_nodes_error(entries, count + 1);
    }
}

/// A directory with two index files has no node: gathering its entries
/// ends in an error, that of the second index at the latest.
pub proof fn lemma_two_indexes(entries: Seq<Entry>, first: int, second: int, default_title: Seq<char>)
    requires
        0 <= first < second < entries.len(),
        is_index(entries[first].name@),
        is_index(entries[second].name@),
    ensures
        node_of_dir(entries, default_title) is Err,
{
    lemma_index_stays(entries, first, second as nat, default_title);
    let up_to = gathered(entries, second as nat, default_title);
    assert(gathered(entries, (second + 1) as nat, default_title) is Err) by {
        assert(entries[second + 1 - 1] == entries[second]);
    }
    lemma_gathered_error(entries, (second + 1) as nat, default_title);
}

/// Behind an index file the directory has its index, as long as gathering
/// goes well.
pub proof fn lemma_index_stays(entries: Seq<Entry>, first: int, count: nat, default_title: Seq<char>)
    requires
        0 <= first < count <= entries.len(),
        is_index(entries[first].name@),
    ensures
        gathered(entries, count, default_title) matches Ok(so_far) ==> so_far.index is Some,
    decreases count,
{
    if count > first + 1 {
        lemma_index_stays(entries, first, (count - 1) as nat, default_title);
    }
}

/// Whether a file with this name is the index of its directory.
pub fn wants_index(name: &str) -> (index: bool)
    ensures
        index == is_index(name@),
{
    let chars = chars_of(name);
    same_chars(&chars, &chars_of("README.md")) || same_chars(&chars, &chars_of("index.md"))
}

/// Whether a file with this name becomes a node of its own.
pub fn wants_page(name: &str) -> (page: bool)
    ensures
        page == is_page(name@),
{
    let chars = chars_of(name);
    if same_chars(&chars, &chars_of("SUMMARY.md")) {
        return false;
    }
    match extension(&chars) {
        Some(found) => same_chars(&found, &chars_of("md")),
        None => false,
    }
}

/// Whether the text of a file with this name is needed for a summary.
pub fn wants_text(name: &str) -> (wanted: bool)
    ensures
        wanted == (is_index(name@) || is_page(name@)),
{
    wants_index(name) || wants_page(name)
}

/// The title of a Markdown file with this path and text; see [`title_of`].
pub fn title_from_md_file(path: &str, text: &str) -> (title: Result<String, SummaryError>)
    ensures
        match title {
            Ok(title) => title_of(path@, text@) == Some(title@),
            Err(error) => error == SummaryError::Untitled && title_of(path@, text@) is None,
        },
{
    match get_title(text) {
        Some(title) => Ok(String::from_str(title)),
        None => match file_name_of(path) {
            Some(name) => Ok(text_of(&stem(&chars_of(name.as_str())))),
            None => Err(SummaryError::Untitled),
        },
    }
}

/// The indentation of one level of the list.
pub const INDENT: &'static str = "  ";

/// The heading that a summary starts with, and the empty line behind it.
pub const HEADING: &'static str = "# Summary\n\n";

/// The indentation of a list item at a depth: two spaces for each level.
pub open spec fn indent(depth: nat) -> Seq<char>
    decreases depth,
{
    if depth == 0 {
        Seq::empty()
    } else {
        indent((depth - 1) as nat) + INDENT@
    }
}

/// The list item of one node behind its indentation: its title as the text
/// of a link to its path, or to nothing where it has no path.
pub open spec fn item_line(node: NodeView, pad: Seq<char>) -> Seq<char> {
    pad + "- ["@ + node.title + "]("@ + match node.path {
        Some(path) => path,
        None => Seq::empty(),
    } + ")\n"@
}

/// A node written out: its own list item, then the nodes below it in their
/// order, each one level deeper.
pub open spec fn rendered_node(node: NodeView, pad: Seq<char>) -> Seq<char>
    decreases node, 0nat,
{
    item_line(node, pad) + rendered_nodes(node.sub_nodes, node.sub_nodes.len(), pad + INDENT@)
}

/// The first `count` nodes of a list written out one after the other.
pub open spec fn rendered_nodes(nodes: Seq<NodeView>, count: nat, pad: Seq<char>) -> Seq<char>
    decreases nodes, count,
{
    if count == 0 || count > nodes.len() {
        Seq::empty()
    } else {
        rendered_nodes(nodes, (count - 1) as nat, pad) + rendered_node(nodes[count - 1], pad)
    }
}

/// A summary written out: the heading, then the nodes as a nested list.
pub open spec fn rendered_summary(nodes: Seq<NodeView>) -> Seq<char> {
    HEADING@ + rendered_nodes(nodes, nodes.len(), Seq::empty())
}

/// The title of the node that a route leads to. A route is an index into
/// the list, then an index into the nodes below the node there, and so on.
/// A route that leaves the tree leads to no node.
pub open spec fn title_at(nodes: Seq<NodeView>, route: Seq<int>) -> Option<Seq<char>>
    decreases route.len(),
{
    if route.len() == 0 || !(0 <= route[0] < nodes.len()) {
        None
    } else if route.len() == 1 {
        Some(nodes[route[0]].title)
    } else {
        title_at(nodes[route[0]].sub_nodes, route.drop_first())
    }
}

/// The nodes with another title for the node that the route leads to, and
/// everything else as it was.
pub open spec fn retitled(nodes: Seq<NodeView>, route: Seq<int>, title: Seq<char>) -> Seq<NodeView>
    decreases route.len(),
{
    if route.len() == 0 || !(0 <= route[0] < nodes.len()) {
        nodes
    } else {
        let node = nodes[route[0]];
        nodes.update(
            route[0],
            if route.len() == 1 {
                NodeView { title, path: node.path, sub_nodes: node.sub_nodes }
            } else {
                NodeView {
                    title: node.title,
                    path: node.path,
                    sub_nodes: retitled(node.sub_nodes, route.drop_first(), title),
                }
            },
        )
    }
}

/// Two texts that start alike and are the same are the same behind the
/// start.
pub proof fn lemma_same_behind<T>(start: Seq<T>, a: Seq<T>, b: Seq<T>)
    requires
        start + a == start + b,
    ensures
        a == b,
{
    assert((start + a).subrange(start.len() as int, (start + a).len() as int) =~= a);
    assert((start + b).subrange(start.len() as int, (start + b).len() as int) =~= b);
}

/// Two texts that end alike and are the same are the same before the end.
pub proof fn lemma_same_before<T>(a: Seq<T>, b: Seq<T>, end: Seq<T>)
    requires
        a + end == b + end,
    ensures
        a == b,
{
    assert((a + end).len() == a.len() + end.len());
    assert((b + end).len() == b.len() + end.len());
    assert((a + end).subrange(0, a.len() as int) =~= a);
    assert((b + end).subrange(0, b.len() as int) =~= b);
}

/// The list items of two nodes with the same path are the same only where
/// the titles are.
pub proof fn lemma_item_line_title(a: NodeView, b: NodeView, pad: Seq<char>)
    requires
        a.path == b.path,
        item_line(a, pad) == item_line(b, pad),
    ensures
        a.title == b.title,
{
    let start = pad + "- ["@;
    let end = "]("@ + match a.path {
        Some(path) => path,
        None => Seq::empty(),
    } + ")\n"@;
    assert(item_line(a, pad) =~= start + (a.title + end));
    assert(item_line(b, pad) =~= start + (b.title + end));
    lemma_same_behind(start, a.title + end, b.title + end);
    lemma_same_before(a.title, b.title, end);
}

/// What is written of the first nodes of a list depends on those nodes only.
pub proof fn lemma_rendered_nodes_alike(
    a: Seq<NodeView>,
    b: Seq<NodeView>,
    count: nat,
    pad: Seq<char>,
)
    requires
        count <= a.len(),
        count <= b.len(),
        forall|k: int| 0 <= k < count ==> a[k] == b[k],
    ensures
        rendered_nodes(a, count, pad) == rendered_nodes(b, count, pad),
    decreases count,
{
    if count > 0 {
        lemma_rendered_nodes_alike(a, b, (count - 1) as nat, pad);
    }
}

/// A list in which one node is written differently is written differently.
pub proof fn lemma_rendered_nodes_differ(
    nodes: Seq<NodeView>,
    at: int,
    other: NodeView,
    count: nat,
    pad: Seq<char>,
)
    requires
        0 <= at < count <= nodes.len(),
        rendered_node(other, pad) != rendered_node(nodes[at], pad),
    ensures
        rendered_nodes(nodes.update(at, other), count, pad) != rendered_nodes(nodes, count, pad),
    decreases count,
{
    let changed = nodes.update(at, other);
    if count - 1 == at {
        lemma_rendered_nodes_alike(changed, nodes, at as nat, pad);
        let before = rendered_nodes(nodes, at as nat, pad);
        if rendered_nodes(changed, count, pad) == rendered_nodes(nodes, count, pad) {
            lemma_same_behind(before, rendered_node(other, pad), rendered_node(nodes[at], pad));
        }
    } else {
        lemma_rendered_nodes_differ(nodes, at, other, (count - 1) as nat, pad);
        let last = rendered_node(nodes[count - 1], pad);
        if rendered_nodes(changed, count, pad) == rendered_nodes(nodes, count, pad) {
            lemma_same_before(
                rendered_nodes(changed, (count - 1) as nat, pad),
                rendered_nodes(nodes, (count - 1) as nat, pad),
                last,
            );
        }
    }
}

/// A list of nodes in which one node has another title is written
/// differently, whatever the depth at which the node stands.
pub proof fn lemma_retitled_nodes_differ(
    nodes: Seq<NodeView>,
    route: Seq<int>,
    title: Seq<char>,
    pad: Seq<char>,
)
    requires
        title_at(nodes, route) matches Some(old) && old != title,
    ensures
        retitled(nodes, route, title).len() == nodes.len(),
        rendered_nodes(retitled(nodes, route, title), nodes.len(), pad) != rendered_nodes(
            nodes,
            nodes.len(),
            pad,
        ),
    decreases route.len(),
{
    let at = route[0];
    let node = nodes[at];
    let other = retitled(nodes, route, title)[at];
    if route.len() == 1 {
        let below = rendered_nodes(node.sub_nodes, node.sub_nodes.len(), pad + INDENT@);
        if rendered_node(other, pad) == rendered_node(node, pad) {
            lemma_same_before(item_line(other, pad), item_line(node, pad), below);
            lemma_item_line_title(other, node, pad);
        }
    } else {
        lemma_retitled_nodes_differ(node.sub_nodes, route.drop_first(), title, pad + INDENT@);
        if rendered_node(other, pad) == rendered_node(node, pad) {
            lemma_same_behind(
                item_line(node, pad),
                rendered_nodes(other.sub_nodes, other.sub_nodes.len(), pad + INDENT@),
                rendered_nodes(node.sub_nodes, node.sub_nodes.len(), pad + INDENT@),
            );
        }
    }
    lemma_rendered_nodes_differ(nodes, at, other, nodes.len(), pad);
}

/// Two summaries that differ in the title of one node, and in nothing else,
/// are written out differently: held against the file of the one, the other
/// does not pass.
pub proof fn lemma_retitled_summary_differs(
    nodes: Seq<NodeView>,
    route: Seq<int>,
    title: Seq<char>,
)
    requires
        title_at(nodes, route) matches Some(old) && old != title,
    ensures
        rendered_summary(retitled(nodes, route, title)) != rendered_summary(nodes),
{
    lemma_retitled_nodes_differ(nodes, route, title, Seq::empty());
    if rendered_summary(retitled(nodes, route, title)) == rendered_summary(nodes) {
        lemma_same_behind(
            HEADING@,
            rendered_nodes(retitled(nodes, route, title), nodes.len(), Seq::empty()),
            rendered_nodes(nodes, nodes.len(), Seq::empty()),
        );
    }
}

impl SummaryNode {
    /// The node of a directory with these entries, titled `default_title`
    /// unless its index file says otherwise; see [`node_of_dir`].
    pub fn from_dir(entries: &Vec<Entry>, default_title: String) -> (node: Result<
        Option<SummaryNode>,
        SummaryError,
    >)
        ensures
            match node {
                Ok(Some(node)) => node_of_dir(entries@, default_title@) == Ok::<
                    Option<NodeView>,
                    SummaryError,
                >(Some(node@)),
                Ok(None) => node_of_dir(entries@, default_title@) == Ok::<
                    Option<NodeView>,
                    SummaryError,
                >(None),
                Err(error) => node_of_dir(entries@, default_title@) == Err::<
                    Option<NodeView>,
                    SummaryError,
                >(error),
            },
        decreases entries, entries.len() + 1,
    {
        let ghost default = default_title@;
        let mut title = default_title;
        let mut index_path: Option<String> = None;
        let mut sub_nodes: Vec<SummaryNode> = Vec::new();
        let mut i: usize = 0;
        proof {
            assert(views(sub_nodes@) =~= Seq::<NodeView>::empty());
        }
        while i < entries.len()
            invariant
                0 <= i <= entries.len(),
                default == default_title@,
                gathered(entries@, i as nat, default) == Ok::<Gathered, SummaryError>(
                    Gathered {
                        title: title@,
                        index: index_path.deep_view(),
                        nodes: views(sub_nodes@),
                    },
                ),
            decreases entries.len() - i,
        {
            let entry = &entries[i];
            let ghost before = views(sub_nodes@);
            proof {
                assert(entries@[i + 1 - 1] == *entry);
            }
            if wants_index(entry.name.as_str()) {
                if index_path.is_some() {
                    proof {
                        lemma_gathered_error(entries@, i as nat + 1, default);
                    }
                    return Err(SummaryError::TwoIndexes);
                }
                match &entry.content {
                    Content::File(Some(text)) => {
                        match title_from_md_file(entry.path.as_str(), text.as_str()) {
                            Ok(found) => {
                                title = found;
                                index_path = Some(entry.path.clone());
                            },
                            Err(error) => {
                                proof {
                                    lemma_gathered_error(entries@, i as nat + 1, default);
                                }
                                return Err(error);
                            },
                        }
                    },
                    _ => {
                        proof {
                            lemma_gathered_error(entries@, i as nat + 1, default);
                        }
                        return Err(SummaryError::Unread);
                    },
                }
            } else {
                match SummaryNode::from_entry(entry) {
                    Ok(Some(node)) => {
                        sub_nodes.push(node);
                        proof {
                            assert(views(sub_nodes@) =~= before.push(node@));
                        }
                    },
                    Ok(None) => {},
                    Err(error) => {
                        proof {
                            lemma_gathered_error(entries@, i as nat + 1, default);
                        }
                        return Err(error);
                    },
                }
            }
            i = i + 1;
        }
        if sub_nodes.len() == 0 && index_path.is_none() {
            Ok(None)
        } else {
            let node = SummaryNode { title, path: index_path, sub_nodes };
            Ok(Some(node))
        }
    }

    /// The node of one entry of a directory; see [`node_of_entry`].
    pub fn from_entry(entry: &Entry) -> (node: Result<Option<SummaryNode>, SummaryError>)
        ensures
            match node {
                Ok(Some(node)) => node_of_entry(*entry) == Ok::<Option<NodeView>, SummaryError>(
                    Some(node@),
                ),
                Ok(None) => node_of_entry(*entry) == Ok::<Option<NodeView>, SummaryError>(None),
                Err(error) => node_of_entry(*entry) == Err::<Option<NodeView>, SummaryError>(error),
            },
        decreases entry, 0nat,
    {
        match &entry.content {
            Content::Directory(entries) => SummaryNode::from_dir(entries, entry.name.clone()),
            Content::File(text) => {
                if !wants_page(entry.name.as_str()) {
                    return Ok(None);
                }
                match text {
                    Some(text) => match title_from_md_file(
                        entry.real_path.as_str(),
                        text.as_str(),
                    ) {
                        Ok(title) => {
                            let node = SummaryNode {
                                title,
                                path: Some(entry.path.clone()),
                                sub_nodes: Vec::new(),
                            };
                            proof {
                                assert(views(node.sub_nodes@) =~= Seq::<NodeView>::empty());
                            }
                            Ok(Some(node))
                        },
                        Err(error) => Err(error),
                    },
                    None => Err(SummaryError::Unread),
                }
            },
            Content::Other => Ok(None),
        }
    }

    /// Sorts the nodes below this one by title, at every depth.
    pub fn sort(&mut self)
        ensures
            final(self)@ == sorted_tree(old(self)@),
    {
        let ghost before = *self;
        let mut below: Vec<SummaryNode> = Vec::new();
        std::mem::swap(&mut below, &mut self.sub_nodes);
        self.sub_nodes = sort_nodes(below);
        proof {
            lemma_sorted_node(before, *self);
        }
    }

    /// Writes the node behind `pad`, and the nodes below it one level
    /// deeper each.
    pub fn render_behind(&self, pad: &str, out: &mut String)
        ensures
            final(out)@ == old(out)@ + rendered_node(self@, pad@),
        decreases self,
    {
        let ghost start = out@;
        out.append(pad);
        out.append("- [");
        out.append(self.title.as_str());
        out.append("](");
        match &self.path {
            Some(path) => {
                out.append(path.as_str());
            },
            None => {
                proof {
                    assert(out@ + Seq::<char>::empty() =~= out@);
                }
            },
        }
        out.append(")\n");
        proof {
            assert(out@ =~= start + item_line(self@, pad@));
        }
        let mut deeper = String::from_str(pad);
        deeper.append(INDENT);
        let mut i: usize = 0;
        proof {
            assert(out@ + Seq::<char>::empty() =~= out@);
        }
        while i < self.sub_nodes.len()
            invariant
                0 <= i <= self.sub_nodes.len(),
                deeper@ == pad@ + INDENT@,
                out@ == start + item_line(self@, pad@) + rendered_nodes(
                    self@.sub_nodes,
                    i as nat,
                    deeper@,
                ),
            decreases self.sub_nodes.len() - i,
        {
            let ghost before = out@;
            self.sub_nodes[i].render_behind(deeper.as_str(), out);
            proof {
                assert(self@.sub_nodes[i as int] == self.sub_nodes[i as int]@);
                assert(out@ =~= start + item_line(self@, pad@) + (rendered_nodes(
                    self@.sub_nodes,
                    i as nat,
                    deeper@,
                ) + rendered_node(self@.sub_nodes[i as int], deeper@)));
            }
            i = i + 1;
        }
        proof {
            assert(out@ =~= start + (item_line(self@, pad@) + rendered_nodes(
                self@.sub_nodes,
                self@.sub_nodes.len(),
                deeper@,
            )));
        }
    }

    /// Writes the node as a list item at a depth, and below it the nodes it
    /// holds: one item per node, two spaces of indentation per level.
    pub fn render_to_md(&self, depth: usize, out: &mut String)
        ensures
            final(out)@ == old(out)@ + rendered_node(self@, indent(depth as nat)),
    {
        let mut pad = String::new();
        let mut level: usize = 0;
        while level < depth
            invariant
                0 <= level <= depth,
                pad@ == indent(level as nat),
            decreases depth - level,
        {
            pad.append(INDENT);
            level = level + 1;
        }
        self.render_behind(pad.as_str(), out);
    }
}

/// The summary of a directory: the nodes at its top.
#[derive(Debug)]
pub struct Summary(pub Vec<SummaryNode>);

impl Summary {
    /// The nodes at the top of the summary, as plain values.
    pub open spec fn view(&self) -> Seq<NodeView> {
        views(self.0@)
    }

    /// The summary of a directory with these entries: the nodes of its
    /// entries in their order; see [`top_nodes`]. An index file at the top
    /// is a page of its own; two of them are an error, as in every directory.
    pub fn from_dir(entries: &Vec<Entry>) -> (summary: Result<Summary, SummaryError>)
        ensures
            match summary {
                Ok(summary) => top_nodes(entries@, entries@.len()) == Ok::<
                    Seq<NodeView>,
                    SummaryError,
                >(summary@),
                Err(error) => top_nodes(entries@, entries@.len()) == Err::<
                    Seq<NodeView>,
                    SummaryError,
                >(error),
            },
    {
        let mut nodes: Vec<SummaryNode> = Vec::new();
        let mut index_seen = false;
        let mut i: usize = 0;
        proof {
            assert(views(nodes@) =~= Seq::<NodeView>::empty());
        }
        while i < entries.len()
            invariant
                0 <= i <= entries.len(),
                top_nodes(entries@, i as nat) == Ok::<Seq<NodeView>, SummaryError>(views(nodes@)),
                index_seen == index_among(entries@, i as nat),
            decreases entries.len() - i,
        {
            let ghost before = views(nodes@);
            proof {
                assert(entries@[i + 1 - 1] == entries[i as int]);
            }
            if wants_index(entries[i].name.as_str()) {
                if index_seen {
                    proof {
                        lemma_top_nodes_error(entries@, i as nat + 1);
                    }
                    return Err(SummaryError::TwoIndexes);
                }
                index_seen = true;
            }
            match SummaryNode::from_entry(&entries[i]) {
                Ok(Some(node)) => {
                    nodes.push(node);
                    proof {
                        assert(views(nodes@) =~= before.push(node@));
                    }
                },
                Ok(None) => {},
                Err(error) => {
                    proof {
                        lemma_top_nodes_error(entries@, i as nat + 1);
                    }
                    return Err(error);
                },
            }
            i = i + 1;
        }
        Ok(Summary(nodes))
    }

    /// Sorts the nodes by title, at every depth.
    pub fn sort(self) -> (sorted: Summary)
        ensures
            sorted@ == sorted_forest(self@),
    {
        Summary(sort_nodes(self.0))
    }

    /// Writes the summary out: a heading, then one list item per node.
    pub fn render_to_md(&self) -> (out: String)
        ensures
            out@ == rendered_summary(self@),
    {
        let mut out = String::from_str(HEADING);
        let pad = String::new();
        let mut i: usize = 0;
        proof {
            assert(out@ + Seq::<char>::empty() =~= out@);
        }
        while i < self.0.len()
            invariant
                0 <= i <= self.0.len(),
                pad@ == Seq::<char>::empty(),
                out@ == HEADING@ + rendered_nodes(self@, i as nat, Seq::empty()),
            decreases self.0.len() - i,
        {
            self.0[i].render_behind(pad.as_str(), &mut out);
            proof {
                assert(self@[i as int] == self.0[i as int]@);
                assert(out@ =~= HEADING@ + (rendered_nodes(self@, i as nat, Seq::empty())
                    + rendered_node(self@[i as int], Seq::empty())));
            }
            i = i + 1;
        }
        out
    }
}

/// The report of `prettydiff::text::diff_lines` on two texts, as it is
/// displayed: the lines of both, with those marked that only one of them has.
pub uninterp spec fn line_diff(old: Seq<char>, new: Seq<char>) -> Seq<char>;

/// `prettydiff::text::diff_lines`, and the text that its result displays.
#[verifier::external_body]
fn diff_lines(old: &str, new: &str) -> (report: String)
    ensures
        report@ == line_diff(old@, new@),
{
    prettydiff::text::diff_lines(old, new).to_string()
}

/// Holds a freshly written summary against the one on disk. They have to be
/// the same, character for character; where they are not, the error is the
/// line by line report of what differs. Nothing is written.
pub fn check_summary(new_summary: &str, current_summary: &str) -> (checked: Result<(), String>)
    ensures
        match checked {
            Ok(_) => new_summary@ == current_summary@,
            Err(report) => new_summary@ != current_summary@ && report@ == line_diff(
                current_summary@,
                new_summary@,
            ),
        },
{
    if same_chars(&chars_of(new_summary), &chars_of(current_summary)) {
        Ok(())
    } else {
        Err(diff_lines(current_summary, new_summary))
    }
}

} // verus!
