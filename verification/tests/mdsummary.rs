use mdutils::mdsummary::{
    check_summary, title_from_md_file, title_le, wants_text, Content, Entry, SummaryNode, Summary,
    SummaryError,
};

fn file(dir: &str, name: &str, text: &str) -> Entry {
    Entry {
        name: name.to_string(),
        path: format!("{dir}/{name}"),
        real_path: format!("{dir}/{name}"),
        content: Content::File(Some(text.to_string())),
    }
}

fn dir(parent: &str, name: &str, entries: Vec<Entry>) -> Entry {
    Entry {
        name: name.to_string(),
        path: format!("{parent}/{name}"),
        real_path: format!("{parent}/{name}"),
        content: Content::Directory(entries),
    }
}

fn leaf(title: &str, path: &str) -> SummaryNode {
    SummaryNode { title: title.to_string(), path: Some(path.to_string()), sub_nodes: Vec::new() }
}

fn book() -> Vec<Entry> {
    vec![
        file(".", "zebra.md", "# Zebra\n"),
        dir(
            ".",
            "guide",
            vec![
                file("./guide", "setup.md", "no heading here\n"),
                file("./guide", "README.md", "Guide\n=====\n"),
                file("./guide", "intro.md", "## not this\n\n# Intro\n"),
                file("./guide", "notes.txt", "ignored"),
            ],
        ),
        dir(".", "assets", vec![file("./assets", "logo.png", ""), dir("./assets", "deep", vec![])]),
        file(".", "SUMMARY.md", "# Summary\n"),
        file(".", "apple.md", "# Apple\n"),
    ]
}

#[test]
fn summary_of_a_directory_tree() {
    let summary = Summary::from_dir(&book()).unwrap();
    let nodes = &summary.0;
    assert_eq!(nodes.len(), 3);
    assert_eq!(nodes[0].title, "Zebra");
    assert_eq!(nodes[0].path.as_deref(), Some("./zebra.md"));
    assert_eq!(nodes[1].title, "Guide");
    assert_eq!(nodes[1].path.as_deref(), Some("./guide/README.md"));
    assert_eq!(nodes[1].sub_nodes.len(), 2);
    assert_eq!(nodes[1].sub_nodes[0].title, "setup");
    assert_eq!(nodes[1].sub_nodes[1].title, "Intro");
    assert_eq!(nodes[2].title, "Apple");
}

#[test]
fn sorted_summary_is_rendered_as_a_nested_list() {
    let rendered = Summary::from_dir(&book()).unwrap().sort().render_to_md();
    let expected = "# Summary\n\n\
                    - [Apple](./apple.md)\n\
                    - [Guide](./guide/README.md)\n\
                    \x20 - [Intro](./guide/intro.md)\n\
                    \x20 - [setup](./guide/setup.md)\n\
                    - [Zebra](./zebra.md)\n";
    assert_eq!(rendered, expected);
}

#[test]
fn directory_without_index_is_titled_by_its_name_and_has_no_path() {
    let entries = vec![dir(".", "plain", vec![file("./plain", "a.md", "# A\n")])];
    let rendered = Summary::from_dir(&entries).unwrap().render_to_md();
    assert_eq!(rendered, "# Summary\n\n- [plain]()\n  - [A](./plain/a.md)\n");
}

#[test]
fn directory_without_markdown_gives_no_node() {
    let entries = vec![dir(".", "assets", vec![file("./assets", "x.png", "")])];
    assert_eq!(SummaryNode::from_dir(&entries, "top".to_string()).unwrap().map(|n| n.title), None);
    assert_eq!(Summary::from_dir(&entries).unwrap().render_to_md(), "# Summary\n\n");
}

#[test]
fn two_indexes_in_one_directory_are_an_error() {
    let entries = vec![
        file("./d", "README.md", "# One\n"),
        file("./d", "a.md", "# A\n"),
        file("./d", "index.md", "# Two\n"),
    ];
    assert_eq!(SummaryNode::from_dir(&entries, "d".to_string()).err(), Some(SummaryError::TwoIndexes));
    let top = vec![dir(".", "d", entries)];
    assert_eq!(Summary::from_dir(&top).err(), Some(SummaryError::TwoIndexes));
}

#[test]
fn unread_page_is_an_error() {
    let mut page = file(".", "a.md", "");
    page.content = Content::File(None);
    assert_eq!(Summary::from_dir(&vec![page]).err(), Some(SummaryError::Unread));
    let mut other = file(".", "a.txt", "");
    other.content = Content::File(None);
    assert!(Summary::from_dir(&vec![other]).unwrap().0.is_empty());
}

#[test]
fn linked_page_is_titled_by_where_the_link_leads() {
    let mut page = file(".", "alias.md", "no heading\n");
    page.real_path = "/elsewhere/real.md".to_string();
    let summary = Summary::from_dir(&vec![page]).unwrap();
    assert_eq!(summary.0[0].title, "real");
    assert_eq!(summary.0[0].path.as_deref(), Some("./alias.md"));
}

#[test]
fn title_falls_back_to_the_file_name() {
    assert_eq!(title_from_md_file("/a/b.md", "# Heading\n"), Ok("Heading".to_string()));
    assert_eq!(title_from_md_file("/a/b.md", "text\n"), Ok("b".to_string()));
    assert_eq!(title_from_md_file("/a/b.c.md", "text\n"), Ok("b.c".to_string()));
    assert_eq!(title_from_md_file("/a/.hidden", "text\n"), Ok(".hidden".to_string()));
    assert_eq!(title_from_md_file("/a/..", "text\n"), Err(SummaryError::Untitled));
}

#[test]
fn which_files_are_read() {
    assert!(wants_text("README.md"));
    assert!(wants_text("index.md"));
    assert!(wants_text("chapter.md"));
    assert!(!wants_text("SUMMARY.md"));
    assert!(!wants_text("chapter.markdown"));
    assert!(!wants_text("md"));
}

#[test]
fn titles_are_ordered_by_code_point() {
    assert!(title_le("", "a"));
    assert!(title_le("a", "a"));
    assert!(title_le("a", "ab"));
    assert!(!title_le("ab", "a"));
    assert!(title_le("B", "a"));
    assert!(!title_le("b", "a"));
    assert!(title_le("z", "é"));
}

#[test]
fn sort_is_stable_and_reaches_every_depth() {
    let mut node = SummaryNode {
        title: "top".to_string(),
        path: None,
        sub_nodes: vec![
            SummaryNode {
                title: "b".to_string(),
                path: None,
                sub_nodes: vec![leaf("y", "1"), leaf("x", "2")],
            },
            leaf("a", "first"),
            leaf("a", "second"),
        ],
    };
    node.sort();
    let mut out = String::new();
    node.render_to_md(1, &mut out);
    assert_eq!(
        out,
        "  - [top]()\n    - [a](first)\n    - [a](second)\n    - [b]()\n      - [x](2)\n      - [y](1)\n"
    );
}

#[test]
fn summary_that_matches_the_file_passes_and_a_changed_title_fails() {
    let summary = Summary::from_dir(&book()).unwrap().sort();
    let on_disk = summary.render_to_md();
    assert_eq!(check_summary(&summary.render_to_md(), &on_disk), Ok(()));

    let mut entries = book();
    entries[0] = file(".", "zebra.md", "# Zebu\n");
    let changed = Summary::from_dir(&entries).unwrap().sort().render_to_md();
    let report = check_summary(&changed, &on_disk).unwrap_err();
    assert!(!report.is_empty());
    assert!(report.contains("Zebu"));
    assert!(report.contains("Zebra"));
}

#[test]
fn two_indexes_at_the_top_are_an_error() {
    let top = vec![
        file(".", "README.md", "# One\n"),
        file(".", "a.md", "# A\n"),
        file(".", "index.md", "# Two\n"),
    ];
    assert_eq!(Summary::from_dir(&top).err(), Some(SummaryError::TwoIndexes));
    let both = vec![file(".", "index.md", "# Two\n"), file(".", "README.md", "# One\n")];
    assert_eq!(Summary::from_dir(&both).err(), Some(SummaryError::TwoIndexes));
    let twice = vec![file(".", "README.md", "# One\n"), file("./x", "README.md", "# One\n")];
    assert_eq!(Summary::from_dir(&twice).err(), Some(SummaryError::TwoIndexes));
}

#[test]
fn one_index_at_the_top_is_a_page() {
    let top = vec![file(".", "a.md", "# A\n"), file(".", "README.md", "# Start\n")];
    let rendered = Summary::from_dir(&top).unwrap().sort().render_to_md();
    assert_eq!(rendered, "# Summary\n\n- [A](./a.md)\n- [Start](./README.md)\n");
}
