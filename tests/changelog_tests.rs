use changelog::{Amount, Changelog, MarkdownToken, Node};

const CHANGELOG: &str = "# Changelog

All notable changes to this project will be documented in this file.

The format is based on [Keep a Changelog](https://keepachangelog.com/en/1.0.0/), and this project adheres to [Semantic Versioning](https://semver.org/spec/v2.0.0.html).

## [Unreleased]

- Nothing yet!

## [0.1.0] - 2021-08-24

### Added

- Everything!

[unreleased]: https://github.com/RobinMalfait/changelog/compare/v0.1.0...HEAD
[0.1.0]: https://github.com/RobinMalfait/changelog/releases/tag/v0.1.0
";

fn load() -> Changelog {
    Changelog::parse(CHANGELOG).unwrap()
}

#[test]
fn it_should_find_the_latest_version() {
    let c = load();

    let latest_version = c.find_latest_version();
    assert_eq!(latest_version.as_deref(), Some("0.1.0"));
}

#[test]
fn it_should_get_the_contents_of_a_section() {
    let c = load();

    let unreleased_section = c.get_contents_of_section(&Some("unreleased".to_string()));
    assert!(unreleased_section.is_some());

    let unreleased_section = unreleased_section.unwrap();
    assert_eq!(unreleased_section, Node::from_str("- Nothing yet!").unwrap());

    let first_release = c.get_contents_of_section(&Some("0.1.0".to_string()));
    assert!(first_release.is_some());

    let first_release = first_release.unwrap();
    assert_eq!(first_release, Node::from_str("### Added\n- Everything!").unwrap());
}

#[test]
fn it_should_generate_a_list_of_releases() {
    let c = load();

    assert_eq!(
        c.list(Amount::All),
        vec![
            "- unreleased      https://github.com/RobinMalfait/changelog/compare/v0.1.0...HEAD",
            "- 0.1.0           https://github.com/RobinMalfait/changelog/releases/tag/v0.1.0",
        ]
        .join("\n")
    );
}

#[test]
fn it_should_be_possible_to_add_something_to_a_section() {
    let mut c = load();

    let unreleased_section = c.get_contents_of_section(&Some("unreleased".to_string()));
    assert!(unreleased_section.is_some());
    let unreleased_section = unreleased_section.unwrap();

    assert_eq!(
        unreleased_section,
        Node {
            data: None,
            children: vec![Node {
                data: Some(MarkdownToken::UnorderedList,),
                children: vec![Node {
                    data: Some(MarkdownToken::ListItem("Nothing yet!".to_string(), 0)),
                    children: vec![],
                }],
            }],
        }
    );

    c.add_list_item_to_section("Added", "Something new", None).unwrap();

    let unreleased_section = c.get_contents_of_section(&Some("unreleased".to_string()));
    assert!(unreleased_section.is_some());
    let unreleased_section = unreleased_section.unwrap();

    assert_eq!(
        unreleased_section,
        Node {
            data: None,
            children: vec![Node {
                data: Some(MarkdownToken::H3("Added".to_string())),
                children: vec![Node {
                    data: Some(MarkdownToken::UnorderedList),
                    children: vec![Node {
                        data: Some(MarkdownToken::ListItem("Something new".to_string(), 0)),
                        children: vec![],
                    }],
                }],
            }],
        }
    );

    c.add_list_item_to_section("Added", "Something newer", None).unwrap();

    let unreleased_section = c.get_contents_of_section(&Some("unreleased".to_string()));
    assert!(unreleased_section.is_some());
    let unreleased_section = unreleased_section.unwrap();

    assert_eq!(
        unreleased_section,
        Node {
            data: None,
            children: vec![Node {
                data: Some(MarkdownToken::H3("Added".to_string())),
                children: vec![Node {
                    data: Some(MarkdownToken::UnorderedList),
                    children: vec![
                        Node {
                            data: Some(MarkdownToken::ListItem("Something new".to_string(), 0)),
                            children: vec![],
                        },
                        Node {
                            data: Some(MarkdownToken::ListItem("Something newer".to_string(), 0)),
                            children: vec![],
                        }
                    ],
                }],
            }],
        }
    );
}
