use mdutils::paths::{
    chars_of, extension, file_name_of, normalize_path, parent_of, place_in, split_names,
    starts_at_root, stem,
};

#[test]
fn normalize_path_drops_dots_and_resolves_parents() {
    assert_eq!(normalize_path("/a/./b/../c"), "/a/c");
    assert_eq!(normalize_path("a//b/"), "a/b");
    assert_eq!(normalize_path("./a"), "a");
}

#[test]
fn normalize_path_never_climbs_above_its_base() {
    assert_eq!(normalize_path("/.."), "/");
    assert_eq!(normalize_path("../a"), "a");
    assert_eq!(normalize_path("a/../.."), "");
    assert_eq!(normalize_path(""), "");
    assert_eq!(normalize_path("/"), "/");
}

#[test]
fn normalizing_twice_changes_nothing_more() {
    for path in ["/a/./b/../c", "a//b/", "../../x", "/", "", "./.", "/a/b/../../../c/"] {
        let once = normalize_path(path);
        assert_eq!(normalize_path(&once), once);
    }
}

#[test]
fn names_of_a_path() {
    let names = split_names(&chars_of("/a//bc/./../d/"));
    let names: Vec<String> = names.iter().map(|name| name.iter().collect()).collect();
    assert_eq!(names, vec!["a", "bc", ".", "..", "d"]);
    assert!(starts_at_root(&chars_of("/a")));
    assert!(!starts_at_root(&chars_of("a/")));
    assert!(!starts_at_root(&chars_of("")));
}

#[test]
fn directory_and_file_name_of_a_path() {
    assert_eq!(parent_of("/a/b.md"), Some("/a".to_string()));
    assert_eq!(parent_of("/a"), Some("/".to_string()));
    assert_eq!(parent_of("a"), Some(String::new()));
    assert_eq!(parent_of("/"), None);
    assert_eq!(parent_of(""), None);
    assert_eq!(file_name_of("/a/b.md"), Some("b.md".to_string()));
    assert_eq!(file_name_of("/a/b/"), Some("b".to_string()));
    assert_eq!(file_name_of("/a/.."), None);
    assert_eq!(file_name_of("/a/."), None);
    assert_eq!(file_name_of("/"), None);
    assert_eq!(place_in("/a/", "b.md"), "/a/b.md");
    assert_eq!(place_in("a", "b.md"), "a/b.md");
    assert_eq!(place_in("", "b.md"), "b.md");
}

#[test]
fn extension_and_stem_of_a_file_name() {
    let of = |name: &str| extension(&chars_of(name)).map(|found| found.iter().collect::<String>());
    assert_eq!(of("a.md"), Some("md".to_string()));
    assert_eq!(of("a.b.md"), Some("md".to_string()));
    assert_eq!(of("a."), Some(String::new()));
    assert_eq!(of(".md"), None);
    assert_eq!(of("md"), None);
    assert_eq!(of(""), None);
    let stem_of = |name: &str| stem(&chars_of(name)).iter().collect::<String>();
    assert_eq!(stem_of("a.md"), "a");
    assert_eq!(stem_of("a.b.md"), "a.b");
    assert_eq!(stem_of(".md"), ".md");
    assert_eq!(stem_of("md"), "md");
}
