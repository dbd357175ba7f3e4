use changelog::github::{link_kind, Commit, Issue, LinkKind};
use changelog::{
    conjunction, Amount, Bump, Changelog, ChangelogError, MarkdownToken, Node, ParseError, Repo,
    Scope, SemVer, SemVerError,
};

const DOC: &str = "# Changelog

All notable changes.

Keep a Changelog.

## [Unreleased]

- Nothing yet!

## [1.1.0] - 2020-01-01

### Added

- Y

[unreleased]: https://github.com/o/r/compare/v1.1.0...HEAD
[1.1.0]: https://github.com/o/r/releases/tag/v1.1.0";

fn item(text: &str) -> Node {
    Node::from_token(MarkdownToken::ListItem(text.to_string(), 0))
}

fn list(items: Vec<Node>) -> Node {
    Node::new(Some(MarkdownToken::UnorderedList), items)
}

#[test]
fn lex_classifies_lines_and_groups() {
    let tokens = MarkdownToken::lex("# T\n\nSome text\nmore\n\n## [A]\n\n  - x\n- y\n\n[a]: b: c").unwrap();
    assert_eq!(
        tokens,
        vec![
            MarkdownToken::H1("T".to_string()),
            MarkdownToken::Paragraph("Some text\nmore".to_string()),
            MarkdownToken::H2("[A]".to_string()),
            MarkdownToken::ListItem("x".to_string(), 2),
            MarkdownToken::ListItem("y".to_string(), 0),
            MarkdownToken::Reference("a".to_string(), "b: c".to_string()),
        ]
    );
}

#[test]
fn lex_rejects_a_reference_without_separator() {
    assert_eq!(MarkdownToken::lex("[a] b"), Err(ParseError::MalformedReference));
    assert!(Node::from_str("# T\n\n[nothing]").is_err());
}

#[test]
fn lex_of_empty_text_is_empty() {
    assert_eq!(MarkdownToken::lex("").unwrap(), vec![]);
    assert_eq!(Node::from_str("").unwrap().to_string(), "");
}

#[test]
fn render_round_trips_a_document() {
    let node = Node::from_str(DOC).unwrap();
    assert_eq!(node.to_string(), DOC);
    let c = Changelog::parse(DOC).unwrap();
    assert_eq!(c.to_string(), DOC);
}

#[test]
fn render_of_tokens() {
    assert_eq!(MarkdownToken::H2("x".to_string()).to_string(), "## x\n");
    assert_eq!(MarkdownToken::ListItem("x".to_string(), 3).to_string(), "   - x");
    assert_eq!(MarkdownToken::Reference("a".to_string(), "u".to_string()).to_string(), "[a]: u");
    assert_eq!(MarkdownToken::BlankLine.to_string(), "");
}

#[test]
fn builder_nests_by_level_and_stops_at_references() {
    let node = Node::from_str("# T\n\n## A\n\n### B\n\n- i\n\n## C\n\n[r]: u").unwrap();
    assert_eq!(node.children.len(), 2);
    let title = &node.children[0];
    assert_eq!(title.children.len(), 2);
    assert_eq!(title.children[0].children[0].children[0], list(vec![item("i")]));
    assert_eq!(
        node.children[1],
        Node::from_token(MarkdownToken::Reference("r".to_string(), "u".to_string()))
    );
}

#[test]
fn an_empty_heading_does_not_swallow_the_next_one() {
    let node = Node::from_str("# T\n\n## A\n\n## B").unwrap();
    assert_eq!(node.children[0].children.len(), 2);
}

#[test]
fn find_and_filter_go_in_pre_order() {
    let node = Node::from_str(DOC).unwrap();
    let refs = node.filter_nodes(&changelog::Matcher::AnyReference);
    assert_eq!(refs.len(), 2);
    let h3 = node.find_node(&changelog::Matcher::AnyHeading3).unwrap();
    assert_eq!(h3.data, Some(MarkdownToken::H3("Added".to_string())));
    assert!(node.find_node(&changelog::Matcher::Heading3("Fixed".to_string())).is_none());
}

#[test]
fn rename_heading_changes_only_headings() {
    let mut h = Node::from_token(MarkdownToken::H2("a".to_string()));
    h.rename_heading("b");
    assert_eq!(h.data, Some(MarkdownToken::H2("b".to_string())));
    let mut p = Node::from_token(MarkdownToken::Paragraph("a".to_string()));
    p.rename_heading("b");
    assert_eq!(p.data, Some(MarkdownToken::Paragraph("a".to_string())));
}

#[test]
fn add_child_at_places_the_child() {
    let mut n = Node::empty();
    n.add_child(item("a"));
    n.add_child(item("c"));
    n.add_child_at(1, item("b"));
    assert_eq!(n.children, vec![item("a"), item("b"), item("c")]);
}

#[test]
fn adding_items_accumulates_in_call_order() {
    let mut c = Changelog::parse(DOC).unwrap();
    for text in ["one", "two", "three"] {
        c.add_list_item_to_section("Fixed", text, None).unwrap();
    }
    let section = c.get_contents_of_section(&Some("unreleased".to_string())).unwrap();
    let expected = Node::new(
        None,
        vec![Node::new(
            Some(MarkdownToken::H3("Fixed".to_string())),
            vec![list(vec![item("one"), item("two"), item("three")])],
        )],
    );
    assert_eq!(section, expected);
}

#[test]
fn end_to_end_add_removes_the_placeholder() {
    let mut c = Changelog::parse("# Changelog\n\nText.\n\n## [Unreleased]\n\n- Nothing yet!").unwrap();
    c.add_list_item_to_section("Added", "Support X", None).unwrap();
    let section = c.get_contents_of_section(&Some("unreleased".to_string())).unwrap();
    let expected = Node::new(
        None,
        vec![Node::new(
            Some(MarkdownToken::H3("Added".to_string())),
            vec![list(vec![item("Support X")])],
        )],
    );
    assert_eq!(section, expected);
    assert_eq!(
        c.to_string(),
        "# Changelog\n\nText.\n\n## [Unreleased]\n\n### Added\n\n- Support X\n"
    );
}

#[test]
fn category_names_compare_without_case() {
    let mut c = Changelog::parse(DOC).unwrap();
    c.add_list_item_to_section("added", "a", None).unwrap();
    c.add_list_item_to_section("ADDED", "b", None).unwrap();
    let section = c.get_contents_of_section(&Some("unreleased".to_string())).unwrap();
    assert_eq!(section.children.len(), 1);
    assert_eq!(section.children[0].children[0].children.len(), 2);
}

#[test]
fn adding_creates_a_missing_unreleased_section() {
    let mut c = Changelog::parse("# Changelog\n\nText.\n\nMore.\n\n## [1.0.0] - 2020-01-01\n\n- a").unwrap();
    c.add_list_item_to_section("Added", "b", None).unwrap();
    assert_eq!(
        c.to_string(),
        "# Changelog\n\nText.\n\nMore.\n\n## [Unreleased]\n\n### Added\n\n- b\n\n## [1.0.0] - 2020-01-01\n\n- a\n"
    );
}

#[test]
fn adding_without_a_title_is_a_structural_error() {
    let mut c = Changelog::parse("Just text").unwrap();
    assert_eq!(
        c.add_list_item_to_section("Added", "x", None),
        Err(ChangelogError::MalformedTitle)
    );
    assert_eq!(c.to_string(), "Just text\n");
}

#[test]
fn scoped_unreleased_heading() {
    let c = Changelog::parse(DOC).unwrap();
    let scope = Scope { name: "pkg".to_string(), is_root: false };
    assert_eq!(c.unreleased_heading(Some(&scope)), "[Unreleased - pkg]");
    assert_eq!(c.unreleased_heading(None), "[Unreleased]");
}

#[test]
fn resolver_skips_an_empty_unreleased_section() {
    let c = Changelog::parse(DOC).unwrap();
    let next = c.get_contents_of_section(&None).unwrap();
    let latest = c.get_contents_of_section(&Some("latest".to_string())).unwrap();
    assert_eq!(next, latest);
    assert_eq!(next.to_string(), "### Added\n\n- Y\n");
}

#[test]
fn resolver_prefers_a_filled_unreleased_section() {
    let mut c = Changelog::parse(DOC).unwrap();
    c.add_list_item_to_section("Added", "Z", None).unwrap();
    let next = c.get_contents_of_section(&None).unwrap();
    assert_eq!(next.to_string(), "### Added\n\n- Z\n");
}

#[test]
fn resolver_finds_scoped_versions_and_misses() {
    let c = Changelog::parse("# T\n\nd\n\n## [pkg@v2.0.0] - 2021-01-01\n\n- a").unwrap();
    let scope = Scope { name: "pkg".to_string(), is_root: false };
    let found = c.get_contents_of_section_scope(Some(&"2.0.0".to_string()), Some(&scope));
    assert_eq!(found.unwrap().to_string(), "- a\n");
    assert!(c.get_contents_of_section(&Some("9.9.9".to_string())).is_none());
}

#[test]
fn release_rewrites_the_references() {
    let mut c = Changelog::parse(DOC).unwrap();
    let v = SemVer::from_str("1.2.0").unwrap();
    c.release_on(&v, "2024-05-01", None).unwrap();
    assert_eq!(
        c.to_string(),
        "# Changelog

All notable changes.

Keep a Changelog.

## [Unreleased]

- Nothing yet!

## [1.2.0] - 2024-05-01

- Nothing yet!

## [1.1.0] - 2020-01-01

### Added

- Y

[unreleased]: https://github.com/o/r/compare/v1.2.0...HEAD
[1.2.0]: https://github.com/o/r/compare/v1.1.0...v1.2.0
[1.1.0]: https://github.com/o/r/releases/tag/v1.1.0"
    );
}

#[test]
fn release_for_a_scope() {
    let doc = "# T\n\nd\n\ne\n\n## [Unreleased - pkg]\n\n- a\n\n[unreleased - pkg]: https://x/compare/pkg@v1.0.0...HEAD\n[1.0.0]: https://x/t";
    let mut c = Changelog::parse(doc).unwrap();
    let scope = Scope { name: "pkg".to_string(), is_root: false };
    let v = SemVer::new(1, 1, 0, None);
    c.release_on(&v, "D", Some(&scope)).unwrap();
    assert_eq!(
        c.to_string(),
        "# T\n\nd\n\ne\n\n## [Unreleased - pkg]\n\n- Nothing yet!\n\n## [pkg@v1.1.0] - D\n\n- a\n\n[unreleased - pkg]: https://x/compare/pkg@v1.1.0...HEAD\n[1.1.0]: https://x/compare/pkg@v1.0.0...pkg@v1.1.0\n[1.0.0]: https://x/t"
    );
}

#[test]
fn release_without_a_prior_version_fails_and_changes_nothing() {
    let doc = "# T\n\nd\n\n## [Unreleased]\n\n- a\n\n[unreleased]: https://x/compare/HEAD";
    let mut c = Changelog::parse(doc).unwrap();
    let v = SemVer::new(1, 0, 0, None);
    assert_eq!(c.release_on(&v, "D", None), Err(ChangelogError::MissingVersion));
    assert_eq!(c.to_string(), doc);
}

#[test]
fn release_with_todays_date() {
    let mut c = Changelog::parse(DOC).unwrap();
    let v = SemVer::new(1, 2, 0, None);
    c.release(&v, None).unwrap();
    let text = c.to_string();
    assert!(text.contains("## [1.2.0] - "));
    assert!(text.contains("[unreleased]: https://github.com/o/r/compare/v1.2.0...HEAD"));
}

#[test]
fn list_takes_the_amount() {
    let c = Changelog::parse(DOC).unwrap();
    assert_eq!(c.list(Amount::Value(1)), "- unreleased      https://github.com/o/r/compare/v1.1.0...HEAD");
    assert_eq!(c.list(Amount::Value(0)), "There are no releases yet.");
    let empty = Changelog::parse("# T").unwrap();
    assert_eq!(empty.list(Amount::All), "There are no releases yet.");
}

#[test]
fn amount_parses() {
    assert_eq!(Amount::from_str("all"), Ok(Amount::All));
    assert_eq!(Amount::from_str("12"), Ok(Amount::Value(12)));
    assert_eq!(Amount::from_str("x"), Err("Invalid amount".to_string()));
}

#[test]
fn semver_bump_laws() {
    let v = SemVer::from_str("1.4.7-beta.1").unwrap();
    assert_eq!(v.bump(Bump::Major).to_string(), "2.0.0");
    assert_eq!(v.bump(Bump::Minor).to_string(), "1.5.0");
    assert_eq!(v.bump(Bump::Patch).to_string(), "1.4.8");
    assert_eq!(v.to_string(), "1.4.7-beta.1");
}

#[test]
fn semver_parse_errors() {
    assert_eq!(SemVer::from_str("1").unwrap_err(), SemVerError::MissingMinor);
    assert_eq!(SemVer::from_str("1.2").unwrap_err(), SemVerError::MissingPatch);
    assert_eq!(SemVer::from_str("1.x.3").unwrap_err(), SemVerError::NonNumeric);
    assert_eq!(SemVer::from_str("99999999999999999999.0.0").unwrap_err(), SemVerError::NonNumeric);
    let v = SemVer::from_str("10.20.30").unwrap();
    assert_eq!((v.major, v.minor, v.patch), (10, 20, 30));
}

#[test]
fn semver_change_to() {
    let mut v = SemVer::new(1, 4, 7, None);
    assert_eq!(v.change_to("minor").unwrap().to_string(), "1.5.0");
    assert_eq!(v.to_string(), "1.5.0");
    assert_eq!(v.change_to("infer").unwrap().to_string(), "1.5.0");
    assert_eq!(v.change_to("3.0.0-rc").unwrap().to_string(), "3.0.0-rc");
    assert!(v.change_to("nope").is_err());
    assert_eq!(v.to_string(), "3.0.0-rc");
}

#[test]
fn conjunction_forms() {
    let none: Vec<String> = vec![];
    assert_eq!(conjunction(&none), "");
    assert_eq!(conjunction(&["a".to_string()]), "a");
    assert_eq!(conjunction(&["a".to_string(), "b".to_string()]), "a and b");
    assert_eq!(conjunction(&["a".to_string(), "b".to_string(), "c".to_string()]), "a, b and c");
}

#[test]
fn repo_from_remote_urls() {
    let r = Repo::from_remote_url("git@github.com:owner/name.git").unwrap();
    assert_eq!((r.org.as_str(), r.repo.as_str()), ("owner", "name"));
    let r = Repo::from_remote_url("https://github.com/owner/name").unwrap();
    assert_eq!((r.org.as_str(), r.repo.as_str()), ("", ""));
    assert!(Repo::from_remote_url("nothing").is_none());
    let r = Repo::new("a".to_string(), "b".to_string());
    assert_eq!(r.org, "a");
}

#[test]
fn replace_text_replaces_every_occurrence() {
    assert_eq!(changelog::changelog::replace_text("aXbXc", "X", "yy"), "ayybyyc");
    assert_eq!(changelog::changelog::replace_text("aaa", "aa", "b"), "ba");
}

#[test]
fn typed_lines_drop_blank_and_comment_lines() {
    let text = "\n  first entry  \n\n# a comment\n\tsecond\n   \n";
    assert_eq!(changelog::typed_lines(text), vec!["first entry".to_string(), "second".to_string()]);
    assert!(changelog::typed_lines("  \n # only comments\n").is_empty());
}

#[test]
fn find_node_mut_edits_in_place() {
    let mut node = Node::from_str(DOC).unwrap();
    match node.find_node_mut(&changelog::Matcher::Heading2("[1.1.0] - 2020-01-01".to_string())) {
        Some(section) => section.rename_heading("[1.1.1] - 2020-02-02"),
        None => panic!("the section should be found"),
    }
    assert!(node.to_string().contains("## [1.1.1] - 2020-02-02\n"));
    assert!(node.find_node_mut(&changelog::Matcher::Heading3("Removed".to_string())).is_none());
}

#[test]
fn flatten_adds_a_blank_line_after_each_list() {
    let node = Node::from_str("## A\n\n- x\n- y\n\nText").unwrap();
    assert_eq!(
        node.flatten(),
        vec![
            MarkdownToken::H2("A".to_string()),
            MarkdownToken::ListItem("x".to_string(), 0),
            MarkdownToken::ListItem("y".to_string(), 0),
            MarkdownToken::BlankLine,
            MarkdownToken::Paragraph("Text".to_string()),
        ]
    );
}

#[test]
fn github_paths_come_apart() {
    let url = changelog::GitHubURL::from_path("/owner/name/issues/12").unwrap();
    assert_eq!((url.repo.org.as_str(), url.repo.repo.as_str()), ("owner", "name"));
    assert_eq!(url.get("issue"), Some("12".to_string()));
    assert_eq!(url.number("issue"), Some(12));
    assert!(changelog::GitHubURL::from_path("/owner").is_none());
    let url = changelog::GitHubURL::from_str("https://github.com/o/r/pull/7").unwrap();
    assert_eq!(url.number("pull"), Some(7));
    assert!(changelog::GitHubURL::from_str("not a url").is_err());
}

#[test]
fn links_are_told_apart() {
    assert_eq!(link_kind("https://github.com/o/r/pull/1"), LinkKind::PullRequest);
    assert_eq!(link_kind("https://github.com/o/r/issues/1"), LinkKind::Issue);
    assert_eq!(link_kind("https://github.com/o/r/discussions/1"), LinkKind::Discussion);
    assert_eq!(link_kind("https://github.com/o/r/commit/abc"), LinkKind::Commit);
    assert_eq!(link_kind("abc123"), LinkKind::Commit);
}

#[test]
fn link_records_render_as_markdown() {
    let issue = Issue { number: 12, title: "Fix it".to_string(), repo: Repo::new("o".to_string(), "r".to_string()) };
    assert_eq!(issue.to_string(), "Fix it ([#12](https://github.com/o/r/issues/12))");
    let commit = Commit {
        hash: "abcdef123".to_string(),
        short_hash: "abcdef1".to_string(),
        title: "Do it".to_string(),
        repo: Repo::new("o".to_string(), "r".to_string()),
    };
    assert_eq!(
        changelog::GitHubInfo::Commit(commit).to_string(),
        "Do it ([abcdef1](https://github.com/o/r/commit/abcdef123))"
    );
}
