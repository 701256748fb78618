use std::borrow::Cow;

use mdutils::links::{get_links, regexreplace_links, replace_links, LinkError, RewriteError};
use mdutils::rules::Rule;

#[test]
fn links_replace_links_check() {
    let input = "[foo](bar.md) <https://bbc.co.uk>\n\n[bar]: ./foo.md\n";
    let expected = "[foo](https://hugom.uk) <https://hugom.uk>\n\n[bar]: https://hugom.uk\n";

    let replacements = [Rule::new(".*", "https://hugom.uk").unwrap()];
    let actual = regexreplace_links(input, &replacements).unwrap();

    assert_eq!(actual, expected);
}

#[test]
fn get_links_finds_the_three_kinds_in_order() {
    let input = "[foo](bar.md) <https://bbc.co.uk>\n\n[bar]: ./foo.md\n";
    let spans = get_links(input).unwrap();
    assert_eq!(spans, vec![6..12, 15..32, 42..50]);
    assert_eq!(&input[6..12], "bar.md");
    assert_eq!(&input[15..32], "https://bbc.co.uk");
    assert_eq!(&input[42..50], "./foo.md");
}

#[test]
fn document_without_links_comes_back_borrowed() {
    let input = "# Title\n\nNo links here, only `[code](span.md)`.\n";
    let policy = |_: &str| -> Result<Option<String>, ()> { Ok(Some("changed".to_string())) };
    let actual = replace_links(input, policy).unwrap();
    assert!(matches!(actual, Cow::Borrowed(_)));
    assert_eq!(actual, input);
}

#[test]
fn policy_that_keeps_every_link_changes_nothing() {
    let input = "[foo](bar.md) <https://bbc.co.uk>\n\n[bar]: ./foo.md\n";
    let policy = |_: &str| -> Result<Option<String>, ()> { Ok(None) };
    let actual = replace_links(input, policy).unwrap();
    assert!(matches!(actual, Cow::Borrowed(_)));
    assert_eq!(actual, input);
}

#[test]
fn policy_error_ends_the_rewrite() {
    let input = "[foo](bar.md) <https://bbc.co.uk>\n";
    let policy = |link: &str| -> Result<Option<String>, String> {
        if link == "bar.md" {
            Ok(Some("x".to_string()))
        } else {
            Err(format!("no rule for {link}"))
        }
    };
    match replace_links(input, policy) {
        Err(RewriteError::Policy(message)) => assert_eq!(message, "no rule for https://bbc.co.uk"),
        _ => panic!("the policy's error was expected"),
    }
}

#[test]
fn link_error_variants_are_distinct() {
    assert_ne!(LinkError::Unparsed, LinkError::Malformed);
    assert_ne!(LinkError::Malformed, LinkError::Overlapping);
}

#[test]
fn located_spans_lie_in_the_document_and_do_not_overlap() {
    let input = "# T\n\n[a](x.md \"title\") and <https://bbc.co.uk>, ![img](pic.png)\n\n\
                 > quoted [b](<y z.md>)\n\n- item [c][ref]\n\n[ref]: ./foo.md 'Foo'\n[other]: <bar baz.md>\n";
    let spans = get_links(input).unwrap();
    assert!(spans.len() >= 5);
    for span in &spans {
        assert!(span.start <= span.end && span.end <= input.len());
        assert!(input.is_char_boundary(span.start) && input.is_char_boundary(span.end));
    }
    for pair in spans.windows(2) {
        assert!(pair[0].end <= pair[1].start);
    }
    let found: Vec<&str> = spans.iter().map(|span| &input[span.clone()]).collect();
    assert!(found.contains(&"x.md"));
    assert!(found.contains(&"https://bbc.co.uk"));
    assert!(found.contains(&"./foo.md"));
}
