use std::borrow::Cow;

use mdutils::config::{lookup, read_rules, ConfigError, Value};
use mdutils::links::RewriteError;
use mdutils::regexreplace::{RegexReplace, RunError};
use mdutils::replace;
use mdutils::rules::{decide, PatternError, Rule};

fn text(value: &str) -> Value {
    Value::Text(value.to_string())
}

fn rule(regex: &str, replacement: &str) -> Value {
    Value::Table(vec![
        ("regex".to_string(), text(regex)),
        ("replacement".to_string(), text(replacement)),
    ])
}

fn table(key: &str, rules: Vec<Value>) -> Vec<(String, Value)> {
    vec![(key.to_string(), Value::Array(rules))]
}

#[test]
fn preprocessor_preprocessor_run() {
    let config = table("link_replacements", vec![rule(".*", "https://hugom.uk")]);
    let chapters = vec!["[foo](bar.md) <https://bbc.co.uk>\n".to_string()];

    let actual = RegexReplace::new().run(Some(&config), chapters).unwrap();

    let expected = vec!["[foo](https://hugom.uk) <https://hugom.uk>\n".to_string()];
    assert_eq!(actual, expected);
}

#[test]
fn replace_preprocessor_run() {
    let config = table("link_replacements", vec![rule(".*", "https://hugom.uk")]);
    let chapters = vec![replace::Chapter {
        content: "[foo](bar.md) <https://bbc.co.uk>\n".to_string(),
        path: Some("chapter_1.md".to_string()),
    }];

    let actual = replace::RegexReplace::new().run(Some(&config), "/path/to/book", &chapters).unwrap();

    assert_eq!(actual, vec!["[foo](https://hugom.uk) <https://hugom.uk>\n".to_string()]);
}

#[test]
fn preprocessor_without_configuration_changes_nothing() {
    let chapters = vec!["[foo](bar.md)\n".to_string(), "text".to_string()];
    assert_eq!(RegexReplace::new().run(None, chapters.clone()), Ok(chapters));
    let book = vec![replace::Chapter { content: "[foo](bar.md)\n".to_string(), path: None }];
    assert_eq!(
        replace::RegexReplace::new().run(None, "/book", &book),
        Ok(vec!["[foo](bar.md)\n".to_string()])
    );
}

#[test]
fn preprocessor_names_and_renderers() {
    assert_eq!(RegexReplace::new().name(), "regexreplace");
    assert_eq!(replace::RegexReplace::new().name(), "replace");
    assert!(RegexReplace::new().supports_renderer("html"));
    assert!(replace::RegexReplace::new().supports_renderer("anything"));
}

#[test]
fn table_without_the_key_holds_no_rules() {
    let config = table("other", vec![rule(".*", "x")]);
    let rules = RegexReplace::new().get_replacements(&config, "link_replacements").unwrap();
    assert!(rules.is_empty());
    assert!(lookup(&config, "other").is_some());
    assert!(lookup(&config, "link_replacements").is_none());
}

#[test]
fn rules_have_to_be_an_array_of_tables_of_texts() {
    let not_array = vec![("link_replacements".to_string(), text("x"))];
    assert_eq!(read_rules(&not_array, "link_replacements").err(), Some(ConfigError::NotRules));
    let not_tables = table("link_replacements", vec![text("x")]);
    assert_eq!(read_rules(&not_tables, "link_replacements").err(), Some(ConfigError::NotRules));
    let no_replacement = table(
        "link_replacements",
        vec![Value::Table(vec![("regex".to_string(), text("x"))])],
    );
    assert_eq!(read_rules(&no_replacement, "link_replacements").err(), Some(ConfigError::NotRules));
    let not_text = table(
        "link_replacements",
        vec![Value::Table(vec![
            ("regex".to_string(), text("x")),
            ("replacement".to_string(), Value::Other),
        ])],
    );
    assert_eq!(read_rules(&not_text, "link_replacements").err(), Some(ConfigError::NotRules));
}

#[test]
fn bad_pattern_is_reported() {
    let config = table("link_replacements", vec![rule("a", "b"), rule("(", "x")]);
    match read_rules(&config, "link_replacements") {
        Err(ConfigError::Pattern(PatternError::Syntax(message))) => assert!(!message.is_empty()),
        _ => panic!("a syntax error was expected"),
    }
    let run = RegexReplace::new().run(Some(&config), vec!["text".to_string()]);
    assert!(matches!(run, Err(RunError::Config(ConfigError::Pattern(_)))));
}

#[test]
fn first_matching_rule_decides() {
    let rules = vec![
        Rule::new(r"(.*)\.md", "$1.html").unwrap(),
        Rule::new(r".*", "other").unwrap(),
    ];
    assert_eq!(decide(&rules, "a/b.md"), Some("a/b.html".to_string()));
    assert_eq!(decide(&rules, "a/b.txt"), Some("other".to_string()));
    assert_eq!(decide(&rules[..1], "a/b.txt"), None);
}

#[test]
fn rule_matches_the_whole_destination_or_nothing() {
    let rule = Rule::new("bar", "baz").unwrap();
    assert_eq!(rule.apply("bar"), Some("baz".to_string()));
    assert_eq!(rule.apply("bar.md"), None);
    assert_eq!(rule.apply("foo/bar"), None);
    let alternatives = Rule::new("a|ab", "x").unwrap();
    assert_eq!(alternatives.apply("ab"), Some("x".to_string()));
}

#[test]
fn rule_that_changes_nothing_still_decides() {
    let rules = vec![Rule::new("same", "same").unwrap(), Rule::new(".*", "other").unwrap()];
    assert_eq!(decide(&rules, "same"), Some("same".to_string()));
}

#[test]
fn no_rule_matches_an_empty_destination() {
    let rules = vec![Rule::new(".*", "x").unwrap()];
    assert_eq!(decide(&rules, ""), None);
    assert_eq!(decide(&[], "a"), None);
}

#[test]
fn every_regular_expression_is_a_pattern() {
    assert!(matches!(Rule::new("a)|(b", "x"), Err(PatternError::Syntax(_))));
    assert!(Rule::new("(?i)readme", "x").unwrap().apply("README").is_some());
    let commented = Rule::new("(?x)a # c", "x").unwrap();
    assert_eq!(commented.apply("a"), Some("x".to_string()));
    assert_eq!(commented.apply("ab"), None);
    assert_eq!(commented.apply("a\n"), None);
    let choice = Rule::new("(?x) a | ab # either", "$0!").unwrap();
    assert_eq!(choice.apply("ab"), Some("ab!".to_string()));
    assert_eq!(choice.apply("abc"), None);
}

#[test]
fn rules_are_read_from_patterns_that_end_in_a_comment() {
    let config = table("link_replacements", vec![rule("(?x)bar\\.md # the page", "baz.md"), rule(".*", "other")]);
    let rules = read_rules(&config, "link_replacements").unwrap();
    assert_eq!(rules.len(), 2);
    assert_eq!(decide(&rules, "bar.md"), Some("baz.md".to_string()));
    assert_eq!(decide(&rules, "bar.mdx"), Some("other".to_string()));
}

#[test]
fn local_link_is_matched_by_its_path_from_the_root() {
    let preprocessor = replace::RegexReplace::new();
    let chapter = replace::Chapter {
        content: "[a](../other/page.md) [b](https://bbc.co.uk) [c](page.md)\n".to_string(),
        path: Some("guide/chapter_1.md".to_string()),
    };
    let local = vec![Rule::new(r"other/(.*)\.md", "/o/$1.html").unwrap()];
    let rules = vec![Rule::new(r"https://.*", "https://hugom.uk").unwrap()];
    let text = preprocessor.rewrite_chapter(&chapter, "/book", &local, &rules).unwrap();
    assert_eq!(
        text,
        Some("[a](/o/page.html) [b](https://hugom.uk) [c](page.md)\n".to_string())
    );
}

#[test]
fn link_decided_by_the_local_rules_before_the_others() {
    let local = vec![Rule::new(r"guide/page\.md", "local").unwrap()];
    let rules = vec![Rule::new(r".*", "general").unwrap()];
    assert_eq!(
        replace::decide_link("page.md", &local, &rules, Some("/book/guide"), "/book"),
        Ok(Some("local".to_string()))
    );
    assert_eq!(
        replace::decide_link("page.md", &local, &rules, None, "/book"),
        Ok(Some("general".to_string()))
    );
    assert_eq!(
        replace::decide_link("https://x.org/guide/page.md", &local, &rules, Some("/book/guide"), "/book"),
        Ok(Some("general".to_string()))
    );
    assert_eq!(replace::push("/book/guide", "page.md"), "/book/guide/page.md");
    assert_eq!(replace::push("/book/guide", "/abs.md"), "/abs.md");
}

#[test]
fn link_that_leaves_no_relative_path_is_an_error() {
    let preprocessor = replace::RegexReplace::new();
    let chapter = replace::Chapter {
        content: "[a](page.md)\n".to_string(),
        path: Some("chapter_1.md".to_string()),
    };
    let outcome = preprocessor.rewrite_chapter(&chapter, "relative/book", &vec![], &vec![]);
    assert!(matches!(outcome, Ok(None)));
    let outcome = replace::decide_link("/abs.md", &[], &[], Some("book"), "book");
    assert_eq!(outcome, Err(replace::NotInBook));
    let chapter = replace::Chapter {
        content: "[a](/abs.md)\n".to_string(),
        path: Some("chapter_1.md".to_string()),
    };
    let outcome = preprocessor.rewrite_chapter(&chapter, "book", &vec![], &vec![]);
    assert!(matches!(outcome, Err(RewriteError::Policy(replace::NotInBook))));
    let run = preprocessor.run(Some(&vec![]), "book", &vec![chapter]);
    assert_eq!(run, Err(replace::RunError::NotInBook(0)));
}

#[test]
fn cow_is_borrowed_only_without_a_replacement() {
    let rules = vec![Rule::new("nothing", "x").unwrap()];
    let text = mdutils::links::regexreplace_links("[a](b.md)\n", &rules).unwrap();
    assert!(matches!(text, Cow::Borrowed(_)));
    let rules = vec![Rule::new("b.md", "b.md").unwrap()];
    let text = mdutils::links::regexreplace_links("[a](b.md)\n", &rules).unwrap();
    assert!(matches!(text, Cow::Owned(_)));
    assert_eq!(text, "[a](b.md)\n");
}

#[test]
fn pattern_that_compiles_too_large_is_reported() {
    assert!(matches!(Rule::new(r"(?:\pL{1000}){1000}", "x"), Err(PatternError::TooBig(_))));
}

#[test]
fn local_link_is_normalised_before_the_local_rules_see_it() {
    let path = vec![Rule::new("(.*)", "<$1>").unwrap()];
    let seen = |link: &str| replace::decide_link(link, &path, &[], Some("/book/d"), "/book");
    assert_eq!(seen("a/../../b/./c"), Ok(Some("<b/c>".to_string())));
    assert_eq!(seen("x.md"), Ok(Some("<d/x.md>".to_string())));
    assert_eq!(seen("../../up.md"), Ok(Some("<../up.md>".to_string())));
    assert_eq!(seen("../../../../up/../x"), Ok(Some("<../../../x>".to_string())));
    assert_eq!(seen("./"), Ok(Some("<d>".to_string())));
    assert_eq!(seen(".."), Ok(None));
}
