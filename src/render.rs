//! Turning a markdown document into an article node.

use vstd::prelude::*;
use crate::article::{assemble_article, assembled, has_md_suffix, Article};
use crate::directive::DirectiveError;
use crate::tree::PageNode;

verus! {

/// The HTML that the markdown renderer makes of a document.
pub uninterp spec fn rendered_html(md: Seq<char>) -> Seq<char>;

/// Relies on `comrak::markdown_to_html`, with strikethrough, footnotes,
/// autolinks, tables, description lists, `---` front matter and raw HTML
/// enabled: its output is a function of the markdown text alone.
#[verifier::external_body]
fn render_markdown(md: &str) -> (r: String)
    ensures
        r@ == rendered_html(md@),
{
    let mut options = comrak::ComrakOptions::default();
    options.extension.strikethrough = true;
    options.extension.footnotes = true;
    options.extension.autolink = true;
    options.extension.table = true;
    options.extension.description_lists = true;
    options.extension.front_matter_delimiter = Some("---".to_string());
    options.render.unsafe_ = true;
    comrak::markdown_to_html(md, &options)
}

/// Renders document `raw`, the file `file_name` in directory `dir`, and
/// assembles its article.
pub fn build_article(
    dir: &str,
    file_name: &str,
    raw: &str,
    fs_created_at: i64,
    fs_modified_at: i64,
) -> (r: Result<Article, DirectiveError>)
    requires
        has_md_suffix(file_name@),
    ensures
        match r {
            Ok(a) => assembled(dir@, file_name@, raw@, rendered_html(raw@), fs_created_at, fs_modified_at)
                == Some(a@),
            Err(_) => assembled(
                dir@,
                file_name@,
                raw@,
                rendered_html(raw@),
                fs_created_at,
                fs_modified_at,
            ) is None,
        },
{
    let html = render_markdown(raw);
    assemble_article(dir, file_name, raw, html.as_str(), fs_created_at, fs_modified_at)
}

/// The tree node of document `raw`, the file `file_name` in directory `dir`:
/// an article whose path is its url.
pub fn article_node(
    dir: &str,
    file_name: &str,
    raw: &str,
    fs_created_at: i64,
    fs_modified_at: i64,
) -> (r: Result<PageNode, DirectiveError>)
    requires
        has_md_suffix(file_name@),
    ensures
        match r {
            Ok(PageNode::Article(path, a)) => {
                &&& path@ == a.url@
                &&& assembled(
                    dir@,
                    file_name@,
                    raw@,
                    rendered_html(raw@),
                    fs_created_at,
                    fs_modified_at,
                ) == Some(a@)
            },
            Ok(PageNode::IndexPage(_, _)) => false,
            Err(_) => assembled(
                dir@,
                file_name@,
                raw@,
                rendered_html(raw@),
                fs_created_at,
                fs_modified_at,
            ) is None,
        },
{
    match build_article(dir, file_name, raw, fs_created_at, fs_modified_at) {
        Ok(a) => Ok(PageNode::Article(a.url.clone(), a)),
        Err(e) => Err(e),
    }
}

} // verus!
