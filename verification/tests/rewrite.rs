use std::borrow::Cow;

use mdutils::links::{decide_links, get_links, replace_links, replace_links_at};
use mdutils::paths::chars_of;
use mdutils::rewrite::apply_replacements;
use mdutils::spans::{sort_spans, spans_valid};
use mdutils::text::{can_slice, slice};

#[test]
fn replacements_are_spliced_in_and_the_rest_is_kept() {
    let content = "0123456789";
    let spans = vec![1..3, 3..3, 5..8];
    let decisions = vec![Some("ab".to_string()), Some("|".to_string()), Some(String::new())];
    assert_eq!(apply_replacements(content, &spans, &decisions), "0ab|3489");
}

#[test]
fn span_without_a_replacement_is_kept() {
    let content = "0123456789";
    let spans = vec![1..3, 4..6, 7..10];
    let decisions = vec![None, Some("long replacement".to_string()), None];
    let text = apply_replacements(content, &spans, &decisions);
    assert_eq!(text, "0123long replacement6789");
    assert!(matches!(text, Cow::Owned(_)));
}

#[test]
fn nothing_replaced_hands_the_document_back() {
    let content = "0123456789";
    let text = apply_replacements(content, &vec![1..3, 4..6], &vec![None, None]);
    assert!(matches!(text, Cow::Borrowed(_)));
    assert_eq!(text, content);
    let text = apply_replacements(content, &vec![], &vec![]);
    assert!(matches!(text, Cow::Borrowed(_)));
}

#[test]
fn replacement_equal_to_the_span_still_builds_a_new_text() {
    let content = "0123456789";
    let text = apply_replacements(content, &vec![1..3], &vec![Some("12".to_string())]);
    assert!(matches!(text, Cow::Owned(_)));
    assert_eq!(text, content);
}

#[test]
fn text_of_more_than_one_byte_per_character_is_cut_between_characters() {
    let content = "é[ü](ö.md)ß";
    assert!(can_slice(content, 0, 2));
    assert!(!can_slice(content, 0, 1));
    assert!(!can_slice(content, 1, 2));
    assert!(!can_slice(content, 2, 1));
    assert!(!can_slice(content, 0, content.len() + 1));
    assert!(can_slice(content, content.len(), content.len()));
    assert_eq!(slice(content, 0, 2), "é");
    let spans = get_links(content).unwrap();
    assert_eq!(spans, vec![7..12]);
    assert_eq!(slice(content, 7, 12), "ö.md");
    let text = apply_replacements(content, &spans, &vec![Some("ä".to_string())]);
    assert_eq!(text, "é[ü](ä)ß");
    assert_eq!(chars_of("aé"), vec!['a', 'é']);
}

#[test]
fn spans_are_sorted_by_start_and_end() {
    let sorted = sort_spans(&vec![5..8, 5..5, 0..2, 3..5, 0..1]);
    assert_eq!(sorted, vec![0..1, 0..2, 3..5, 5..5, 5..8]);
    assert!(sort_spans(&vec![]).is_empty());
}

#[test]
fn spans_have_to_fit_and_to_stand_in_order() {
    let content = "0123456789";
    assert!(spans_valid(content, &vec![0..2, 2..2, 2..5, 9..10]));
    assert!(spans_valid(content, &vec![]));
    assert!(!spans_valid(content, &vec![0..3, 2..5]));
    assert!(!spans_valid(content, &vec![2..5, 0..1]));
    assert!(!spans_valid(content, &vec![0..11]));
    assert!(!spans_valid(content, &vec![3..2]));
    assert!(!spans_valid("é", &vec![0..1]));
}

#[test]
fn policy_sees_the_destination_without_the_whitespace_around_it() {
    let content = "x  \t a b \n y";
    let seen = std::cell::RefCell::new(Vec::new());
    let policy = |link: &str| -> Result<Option<String>, ()> {
        seen.borrow_mut().push(link.to_string());
        Ok(None)
    };
    let decisions = decide_links(content, &vec![1..11, 0..1, 3..3], &policy).unwrap();
    assert_eq!(decisions, vec![None, None, None]);
    assert_eq!(*seen.borrow(), vec!["a b".to_string(), "x".to_string(), String::new()]);
}

#[test]
fn policy_is_asked_from_left_to_right_and_stops_at_its_first_error() {
    let content = "[a](1.md) [b](2.md) [c](3.md)\n";
    let seen = std::cell::RefCell::new(Vec::new());
    let policy = |link: &str| -> Result<Option<String>, String> {
        seen.borrow_mut().push(link.to_string());
        if link == "2.md" {
            Err("second".to_string())
        } else {
            Ok(Some("x".to_string()))
        }
    };
    assert!(replace_links(content, policy).is_err());
    assert_eq!(*seen.borrow(), vec!["1.md".to_string(), "2.md".to_string()]);
}

#[test]
fn given_spans_are_rewritten_by_a_policy() {
    let content = "one two three";
    let policy = |word: &str| -> Result<Option<String>, ()> {
        Ok(if word == "two" { Some("2".to_string()) } else { None })
    };
    let text = replace_links_at(content, &vec![0..3, 4..7, 8..13], &policy).unwrap();
    assert_eq!(text, "one 2 three");
}

#[test]
fn whitespace_of_every_script_is_taken_off_the_destination() {
    let content = "\u{a0}\u{2003}a\u{3000}\u{85}";
    let policy = |link: &str| -> Result<Option<String>, ()> {
        Ok(if link == "a" { Some("b".to_string()) } else { None })
    };
    let decisions = decide_links(content, &vec![0..content.len()], &policy).unwrap();
    assert_eq!(decisions, vec![Some("b".to_string())]);
    let kept = "\u{200b}a";
    let decisions = decide_links(kept, &vec![0..kept.len()], &policy).unwrap();
    assert_eq!(decisions, vec![None]);
}

#[test]
fn spans_out_of_order_are_sorted_before_the_rewrite() {
    let content = "one two three";
    let seen = std::cell::RefCell::new(Vec::new());
    let policy = |word: &str| -> Result<Option<String>, ()> {
        seen.borrow_mut().push(word.to_string());
        Ok(Some(word.to_uppercase()))
    };
    let text = replace_links_at(content, &vec![8..13, 0..3, 4..7], &policy).unwrap();
    assert_eq!(text, "ONE TWO THREE");
    assert_eq!(*seen.borrow(), vec!["one".to_string(), "two".to_string(), "three".to_string()]);
}
