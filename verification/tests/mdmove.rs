use std::borrow::Cow;

use mdutils::links::RewriteError;
use mdutils::mdmove::{
    change_file, get_move_list, has_markdown_extension, relink, resolve_link, rewrite_link,
    MoveError, MoveList, PathError,
};

fn moves_of(pairs: &[(&str, &str)]) -> MoveList {
    let mut moves = MoveList::new();
    for (from, to) in pairs {
        moves.insert(from.to_string(), to.to_string());
    }
    moves
}

#[test]
fn moved_directory_carries_its_files_along() {
    let moves = moves_of(&[("/root/a", "/root/b")]);
    assert_eq!(
        moves.get_path_after_move("/root/a/x/y.md"),
        Some("/root/b/x/y.md".to_string())
    );
    assert_eq!(moves.get_path_after_move("/root/a"), Some("/root/b".to_string()));
    assert_eq!(moves.get_path_after_move("/root/ab/y.md"), None);
    assert_eq!(moves.get_path_after_move("root/a/y.md"), None);
}

#[test]
fn a_source_is_recorded_once() {
    let moves = moves_of(&[("/a", "/b"), ("/c", "/d"), ("/a", "/e")]);
    assert_eq!(moves.len(), 2);
    assert_eq!(moves.get(0), ("/a", "/e"));
    assert_eq!(moves.get(1), ("/c", "/d"));
}

#[test]
fn link_into_a_moved_directory_from_a_moved_file() {
    let moves = moves_of(&[
        ("/root/a/doc.md", "/root/b/doc.md"),
        ("/root/sibling", "/root/c/sibling"),
    ]);
    let on_disk = |_: &str| true;
    let answer = rewrite_link(
        "../sibling/file.md#frag",
        "/root/a",
        "/root/b",
        "/root",
        &moves,
        &on_disk,
    );
    assert_eq!(answer, Ok(Some("../c/sibling/file.md#frag".to_string())));
}

#[test]
fn link_from_a_moved_file_to_a_file_that_stays() {
    let moves = moves_of(&[
        ("/root/a/doc.md", "/root/b/doc.md"),
        ("/root/a/sibling", "/root/c/sibling"),
    ]);
    let on_disk = |_: &str| true;
    let answer = rewrite_link(
        "../sibling/file.md#frag",
        "/root/a",
        "/root/b",
        "/root",
        &moves,
        &on_disk,
    );
    assert_eq!(answer, Ok(Some("../sibling/file.md#frag".to_string())));
    let answer = rewrite_link("sibling/file.md#frag", "/root/a", "/root/b", "/root", &moves, &on_disk);
    assert_eq!(answer, Ok(Some("../c/sibling/file.md#frag".to_string())));
}

#[test]
fn links_that_point_at_no_file_are_kept() {
    let moves = moves_of(&[("/root/a", "/root/b")]);
    let on_disk = |_: &str| true;
    for link in ["#section", "", "https://bbc.co.uk", "http://example.org/a#b"] {
        assert_eq!(rewrite_link(link, "/root/a", "/root/b", "/root", &moves, &on_disk), Ok(None));
    }
}

#[test]
fn link_to_a_missing_file_is_kept() {
    let moves = moves_of(&[("/root/a", "/root/b")]);
    let on_disk = |path: &str| path != "/root/a/gone.md";
    assert_eq!(rewrite_link("gone.md", "/root/a", "/root/b", "/root", &moves, &on_disk), Ok(None));
    assert_eq!(
        rewrite_link("here.md", "/root/a", "/root/b", "/root", &moves, &on_disk),
        Ok(Some("here.md".to_string()))
    );
}

#[test]
fn link_from_the_root_stays_from_the_root() {
    let moves = moves_of(&[("/root/a", "/root/b")]);
    let on_disk = |_: &str| true;
    assert_eq!(
        rewrite_link("/a/x.md#top", "/root/c", "/root/c", "/root", &moves, &on_disk),
        Ok(Some("/b/x.md#top".to_string()))
    );
    let away = moves_of(&[("/root/a", "/elsewhere/a")]);
    assert_eq!(
        rewrite_link("/a/x.md", "/root/c", "/root/c", "/root", &away, &on_disk),
        Err(PathError::OutsideRoot)
    );
}

#[test]
fn resolve_then_relink() {
    let link_to = resolve_link("./x/../y.md#f", "/root/a", "/root").unwrap();
    assert_eq!(link_to.target, "/root/a/y.md");
    assert!(!link_to.rooted);
    assert_eq!(link_to.fragment, Some("f".to_string()));
    let moves = moves_of(&[("/root/a/y.md", "/root/z/y.md")]);
    assert_eq!(relink(&link_to, &moves, "/root/a", "/root"), Ok("../z/y.md#f".to_string()));
    assert_eq!(relink(&link_to, &moves, "relative/dir", "/root"), Ok("/root/z/y.md#f".to_string()));
    let relative = resolve_link("y.md", "a", "/root").unwrap();
    assert_eq!(relink(&relative, &MoveList::new(), "/root/a", "/root"), Err(PathError::NoRelativePath));
}

#[test]
fn only_markdown_files_are_changed() {
    assert!(has_markdown_extension("/a/b.md"));
    assert!(has_markdown_extension("notes.markdown"));
    assert!(!has_markdown_extension("/a/b.txt"));
    assert!(!has_markdown_extension("/a/.md"));
    assert!(!has_markdown_extension("/a/md"));
    let moves = moves_of(&[("/root/a", "/root/b")]);
    let on_disk = |_: &str| true;
    let change = change_file("/root/c/pic.png", "[x](../a/y.md)", &moves, "/root", &on_disk);
    assert!(matches!(change, Ok(None)));
}

#[test]
fn change_file_rewrites_links_into_moved_files() {
    let moves = moves_of(&[("/root/a", "/root/b")]);
    let on_disk = |_: &str| true;
    let content = "See [x](../a/y.md#top) and <https://bbc.co.uk>.\n";
    let change = change_file("/root/c/doc.md", content, &moves, "/root", &on_disk).unwrap();
    let (place, text) = change.unwrap();
    assert_eq!(place, "/root/c/doc.md");
    assert!(matches!(text, Cow::Owned(_)));
    assert_eq!(text, "See [x](../b/y.md#top) and <https://bbc.co.uk>.\n");
}

#[test]
fn change_file_of_a_moved_file() {
    let moves = moves_of(&[("/root/a/doc.md", "/root/b/deep/doc.md")]);
    let on_disk = |_: &str| true;
    let content = "[x](y.md)\n";
    let (place, text) = change_file("/root/a/doc.md", content, &moves, "/root", &on_disk)
        .unwrap()
        .unwrap();
    assert_eq!(place, "/root/b/deep/doc.md");
    assert_eq!(text, "[x](../../a/y.md)\n");
}

#[test]
fn change_file_without_links_changes_nothing() {
    let moves = moves_of(&[("/root/a", "/root/b")]);
    let on_disk = |_: &str| true;
    let change = change_file("/root/c/doc.md", "no links\n", &moves, "/root", &on_disk);
    assert!(matches!(change, Ok(None)));
    let change = change_file("doc.md", "no links\n", &MoveList::new(), "/root", &on_disk);
    assert!(matches!(change, Ok(None)));
    let change = change_file("/", "no links\n", &MoveList::new(), "/root", &on_disk);
    assert!(matches!(change, Ok(None)));
}

#[test]
fn change_file_passes_the_policy_error_on() {
    let away = moves_of(&[("/root/a", "/elsewhere/a")]);
    let on_disk = |_: &str| true;
    let change = change_file("/root/c/doc.md", "[x](/a/y.md)\n", &away, "/root", &on_disk);
    assert!(matches!(change, Err(RewriteError::Policy(PathError::OutsideRoot))));
}

#[test]
fn one_source_is_renamed_or_put_into_the_destination() {
    let plan = get_move_list(vec!["/root/a.md".to_string()], "/root/b.md".to_string(), false, false)
        .unwrap();
    assert_eq!(plan.len(), 1);
    assert_eq!(plan.get(0), ("/root/a.md", "/root/b.md"));
    let plan = get_move_list(vec!["/root/a.md".to_string()], "/root/dir".to_string(), true, true)
        .unwrap();
    assert_eq!(plan.get(0), ("/root/a.md", "/root/dir/a.md"));
}

#[test]
fn several_sources_go_into_a_directory() {
    let sources = vec!["/root/a.md".to_string(), "/root/x/b.md".to_string()];
    let plan = get_move_list(sources.clone(), "/root/dir/".to_string(), true, true).unwrap();
    assert_eq!(plan.len(), 2);
    assert_eq!(plan.get(0), ("/root/a.md", "/root/dir/a.md"));
    assert_eq!(plan.get(1), ("/root/x/b.md", "/root/dir/b.md"));
    let plan = get_move_list(sources, "/root/file".to_string(), true, false);
    assert!(matches!(plan, Err(MoveError::NotADirectory)));
}

#[test]
fn a_source_without_a_name_cannot_be_moved() {
    let plan = get_move_list(vec!["/".to_string()], "/root/dir".to_string(), true, true);
    assert!(matches!(plan, Err(MoveError::NoFileName)));
    let sources = vec!["/root/a.md".to_string(), "/root/..".to_string()];
    let plan = get_move_list(sources, "/root/dir".to_string(), true, true);
    assert!(matches!(plan, Err(MoveError::NoFileName)));
}

#[test]
fn list_from_pairs_keeps_the_last_move_of_a_source() {
    let pairs = vec![
        ("/a".to_string(), "/b".to_string()),
        ("/c".to_string(), "/d".to_string()),
        ("/a".to_string(), "/e".to_string()),
    ];
    let moves = MoveList::from_iter(pairs);
    assert_eq!(moves.len(), 2);
    assert_eq!(moves.get(0), ("/a", "/e"));
    assert_eq!(moves.get_path_after_move("/a/x"), Some("/e/x".to_string()));
    assert_eq!(MoveList::default().len(), 0);
}

#[test]
fn file_moved_to_the_root_itself_lies_in_no_directory() {
    let moves = moves_of(&[("/a/x.md", "/")]);
    let on_disk = |_: &str| true;
    let change = change_file("/a/x.md", "[a](b.md)\n", &moves, "/", &on_disk);
    assert!(matches!(change, Err(RewriteError::Policy(PathError::NoDirectory))));
}
