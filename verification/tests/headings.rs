use mdutils::headings::get_title;

#[test]
fn title_is_the_first_level_one_heading_in_document_order() {
    let input = "Underlined\n==========\n\ntext\n\n# Marked\n";
    assert_eq!(get_title(input), Some("Underlined"));
    let input = "# Marked\n\ntext\n\nUnderlined\n==========\n";
    assert_eq!(get_title(input), Some("Marked"));
}

#[test]
fn headings_of_lower_rank_are_passed_over() {
    let input = "## second\n\nalso second\n-----------\n\n### third\n\n# first\n";
    assert_eq!(get_title(input), Some("first"));
}

#[test]
fn nested_headings_are_no_title() {
    let input = "> # quoted\n\n- # listed\n\n# top\n";
    assert_eq!(get_title(input), Some("top"));
}

#[test]
fn document_without_level_one_heading_has_no_title() {
    assert_eq!(get_title("## only second\n\ntext\n"), None);
    assert_eq!(get_title(""), None);
}

#[test]
fn headings_replace_links_check() {
    let input = "
## hello there

not atx style :(
----------------

not another one!
===========

## sanity returns
# why at the bottom?";
    let actual = get_title(&input);
    assert_eq!(actual, Some("not another one!"));

    let without_the_underlined = input.replace("===========", "-----------");
    assert_eq!(get_title(&without_the_underlined), Some("why at the bottom?"));
}

#[test]
fn underlined_title_below_headings_of_lower_rank() {
    assert_eq!(get_title("## B\n\n### C\n\nD\n===\n\n# E\n"), Some("D"));
    assert_eq!(get_title("## B\n### C\n#### D\n##### E\n###### F\n\nG\n===\n\n# H\n"), Some("G"));
    assert_eq!(get_title("text\n\n## B\n\nD\n===\n"), Some("D"));
    assert_eq!(get_title("# A\n\n## B\n\nD\n===\n"), Some("A"));
}

#[test]
fn underlined_heading_in_a_quoted_or_listed_section_is_no_title() {
    assert_eq!(get_title("> ## B\n>\n> D\n> ===\n\n# top\n"), Some("top"));
    assert_eq!(get_title("- ## B\n\n  D\n  ===\n\ntext\n"), None);
    assert_eq!(get_title("> Q\n> ===\n\n- L\n  ===\n\ntext\n"), None);
}
