//! A static site generator's core: metadata directives, the page tree and
//! its canonical order, and the per-directory aggregation of articles.

pub mod aggregate;
pub mod article;
pub mod directive;
pub mod render;
pub mod text;
pub mod tree;

pub use aggregate::{aggregate, finish_directory, ArticleArtifact, ArticleSummary, DirectoryArtifacts, IndexArtifact};
pub use article::Article;
pub use directive::{extract, parse_tags, DirectiveError, Metadata};
pub use render::{article_node, build_article};
pub use tree::{sort_nodes, PageNode};
