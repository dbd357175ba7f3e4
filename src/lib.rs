pub mod text;
pub mod markdown;
pub mod semver;
pub mod changelog;
pub mod list_format;
pub mod repo;
pub mod entry;
pub mod github;

pub use crate::changelog::{Amount, Changelog, ChangelogError, Scope};
pub use crate::entry::typed_lines;
pub use crate::github::{GitHubInfo, GitHubURL};
pub use crate::list_format::conjunction;
pub use crate::markdown::ast::{Matcher, Node};
pub use crate::markdown::tokens::{MarkdownToken, ParseError};
pub use crate::repo::Repo;
pub use crate::semver::{Bump, SemVer, SemVerError};
