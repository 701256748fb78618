use std::borrow::Cow;

use mdutils::links::{replace_links_at, LinkError};
use mdutils::md_utils::{
    get_links, get_title, has_matching_links, replace_links, to_mdast, try_get_links,
    try_replace_links, MdNode, NodeKind, Patterns,
};
use mdutils::rules::Rule;

#[test]
fn md_utils_replace_links_check() {
    let input = "[foo](bar.md) <https://bbc.co.uk>\n\n[bar]: ./foo.md\n";
    let expected = "[foo](https://hugom.uk) <https://hugom.uk>\n\n[bar]: https://hugom.uk\n";

    let ast = to_mdast(input).unwrap();
    let replacements = [Rule::new(".*", "https://hugom.uk").unwrap()];
    let actual = replace_links(input, &ast, &replacements).unwrap();

    assert_eq!(actual, expected);
}

#[test]
fn tree_and_grammar_locate_the_same_destinations() {
    let input = "[foo](bar.md) <https://bbc.co.uk>\n\n[bar]: ./foo.md\n\n> [q]( <in quote.md> )\n";
    let ast = to_mdast(input).unwrap();
    let spans = get_links(input, &ast).unwrap();
    assert_eq!(&input[spans[0].clone()], "bar.md");
    assert_eq!(&input[spans[1].clone()], "https://bbc.co.uk");
    assert_eq!(&input[spans[2].clone()], "./foo.md");
    assert_eq!(input[spans[3].clone()].trim(), "in quote.md");
    assert_eq!(spans.len(), 4);
    for pair in spans.windows(2) {
        assert!(pair[0].end <= pair[1].start);
    }
}

#[test]
fn links_in_code_are_no_links() {
    let input = "`[foo](bar.md)`\n\n    [a](b.md)\n\n```\n<https://bbc.co.uk>\n```\n";
    let ast = to_mdast(input).unwrap();
    assert!(get_links(input, &ast).unwrap().is_empty());
    assert!(mdutils::links::get_links(input).unwrap().is_empty());
    let rules = [Rule::new(".*", "x").unwrap()];
    assert!(matches!(replace_links(input, &ast, &rules), Ok(Cow::Borrowed(_))));
}

#[test]
fn empty_destination_is_located_and_never_replaced() {
    let input = "[foo]()\n";
    let ast = to_mdast(input).unwrap();
    let spans = get_links(input, &ast).unwrap();
    assert_eq!(spans, vec![6..6]);
    let rules = [Rule::new(".*", "x").unwrap()];
    assert_eq!(replace_links(input, &ast, &rules).unwrap(), input);
}

#[test]
fn spans_of_the_tree_with_a_policy_of_ones_own() {
    let input = "[foo](bar.md) and [baz](  qux.md  )\n";
    let ast = to_mdast(input).unwrap();
    let spans = get_links(input, &ast).unwrap();
    let policy = |link: &str| -> Result<Option<String>, ()> {
        Ok(if link == "qux.md" { Some("new.md".to_string()) } else { None })
    };
    let text = replace_links_at(input, &spans, &policy).unwrap();
    assert_eq!(text, "[foo](bar.md) and [baz](new.md)\n");
}

#[test]
fn tree_of_another_document_is_told_apart() {
    let input = "no link at all";
    let tree = MdNode {
        kind: NodeKind::Other,
        position: Some((0, 14)),
        children: vec![MdNode { kind: NodeKind::Link, position: Some((0, 7)), children: vec![] }],
    };
    assert!(!has_matching_links(input, &tree));
    assert_eq!(try_get_links(input, &tree), None);
    let rules = [Rule::new(".*", "x").unwrap()];
    assert!(try_replace_links(input, &tree, &rules).is_none());
    let without_position = MdNode { kind: NodeKind::Definition, position: None, children: vec![] };
    assert!(!has_matching_links(input, &without_position));
    let out_of_bounds = MdNode { kind: NodeKind::Link, position: Some((3, 99)), children: vec![] };
    assert!(!has_matching_links(input, &out_of_bounds));
}

#[test]
fn tree_of_the_document_is_taken() {
    let input = "[foo](bar.md) <https://bbc.co.uk>\n\n[bar]: ./foo.md\n";
    let ast = to_mdast(input).unwrap();
    assert!(has_matching_links(input, &ast));
    assert_eq!(try_get_links(input, &ast), Some(get_links(input, &ast)));
    let rules = [Rule::new(".*", "https://hugom.uk").unwrap()];
    let text = try_replace_links(input, &ast, &rules).unwrap().unwrap();
    assert_eq!(text, "[foo](https://hugom.uk) <https://hugom.uk>\n\n[bar]: https://hugom.uk\n");
    let other = to_mdast("text [a](b) text\n").unwrap();
    assert!(!has_matching_links(input, &other));
}

#[test]
fn overlapping_link_nodes_are_an_error() {
    let input = "[a](b.md)";
    let link = || MdNode { kind: NodeKind::Link, position: Some((0, 9)), children: vec![] };
    let tree = MdNode { kind: NodeKind::Other, position: None, children: vec![link(), link()] };
    assert_eq!(get_links(input, &tree), Err(LinkError::Overlapping));
}

#[test]
fn destination_by_the_pattern_of_the_kind() {
    let patterns = Patterns::new().unwrap();
    let input = "[a]( <b c.md> ) <d.md> [e]:   f.md";
    assert_eq!(patterns.destination(input, NodeKind::Link, 0, 15), Some(6..12));
    assert_eq!(patterns.destination(input, NodeKind::Link, 16, 22), Some(17..21));
    assert_eq!(patterns.destination(input, NodeKind::Definition, 23, 34), Some(30..34));
    assert_eq!(patterns.destination(input, NodeKind::Definition, 0, 15), None);
    assert_eq!(patterns.destination(input, NodeKind::Other, 0, 15), None);
    assert_eq!(patterns.destination(input, NodeKind::Link, 15, 3), None);
}

#[test]
fn title_from_the_tree() {
    let input = "## second\n\n# First  \n\ntext\n\n# Later\n";
    let ast = to_mdast(input).unwrap();
    assert_eq!(get_title(&ast, input), Some("First"));

    let input = "> # quoted\n\ntext\n";
    let ast = to_mdast(input).unwrap();
    assert_eq!(get_title(&ast, input), None);

    let input = "Underlined\n==========\n\n# Marked\n";
    let ast = to_mdast(input).unwrap();
    assert_eq!(get_title(&ast, input), Some("Underlined"));

    let input = "# Marked `x` #  \n\nUnderlined\n===\n";
    let ast = to_mdast(input).unwrap();
    assert_eq!(get_title(&ast, input), Some("Marked `x`"));

    let input = "Two\nlines\n=====\n";
    let ast = to_mdast(input).unwrap();
    assert_eq!(get_title(&ast, input), Some("Two\nlines"));

    let input = "#\n\n# Later\n";
    let ast = to_mdast(input).unwrap();
    assert_eq!(get_title(&ast, input), Some(""));
}
