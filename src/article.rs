//! A rendered document with its metadata.

use vstd::prelude::*;
use crate::directive::{extract, extracted, DirectiveError};
use crate::text::{join, join_path, replace_all, replaced, strings_view, substring};

verus! {

/// One rendered document. `url` is its site-relative path without extension.
#[derive(Debug, PartialEq, Eq)]
pub struct Article {
    pub url: String,
    pub title: String,
    pub body: String,
    pub created_at: i64,
    pub modified_at: i64,
    pub tags: Vec<String>,
}

pub struct ArticleModel {
    pub url: Seq<char>,
    pub title: Seq<char>,
    pub body: Seq<char>,
    pub created_at: i64,
    pub modified_at: i64,
    pub tags: Seq<Seq<char>>,
}

impl View for Article {
    type V = ArticleModel;

    open spec fn view(&self) -> ArticleModel {
        ArticleModel {
            url: self.url@,
            title: self.title@,
            body: self.body@,
            created_at: self.created_at,
            modified_at: self.modified_at,
            tags: strings_view(self.tags@),
        }
    }
}

/// A copy of a list of strings.
pub fn copy_strings(v: &Vec<String>) -> (r: Vec<String>)
    ensures
        strings_view(r@) == strings_view(v@),
{
    let mut out: Vec<String> = Vec::new();
    let mut i: usize = 0;
    while i < v.len()
        invariant
            i <= v.len(),
            strings_view(out@) == strings_view(v@.take(i as int)),
        decreases v.len() - i,
    {
        let s = v[i].clone();
        proof {
            assert(strings_view(out@.push(s)) =~= strings_view(out@).push(s@));
            assert(v@.take(i + 1) =~= v@.take(i as int).push(v@[i as int]));
            assert(strings_view(v@.take(i + 1)) =~= strings_view(v@.take(i as int)).push(
                v@[i as int]@,
            ));
        }
        out.push(s);
        i = i + 1;
    }
    assert(v@.take(v.len() as int) =~= v@);
    out
}

impl Article {
    /// A field-by-field copy of this article.
    pub fn duplicate(&self) -> (r: Article)
        ensures
            r@ == self@,
    {
        Article {
            url: self.url.clone(),
            title: self.title.clone(),
            body: self.body.clone(),
            created_at: self.created_at,
            modified_at: self.modified_at,
            tags: copy_strings(&self.tags),
        }
    }
}


pub open spec fn has_md_suffix(name: Seq<char>) -> bool {
    name.len() >= 3 && name.skip(name.len() - 3) == ".md"@
}

/// A file name without its `.md` suffix.
pub open spec fn stem(name: Seq<char>) -> Seq<char> {
    name.take(name.len() - 3)
}

/// Rendered HTML with every outbound link sent through the redirector.
pub open spec fn with_outbound_links(html: Seq<char>) -> Seq<char> {
    replaced(html, "href=\"http"@, "href=\"https://href.li/?http"@)
}

/// The article of file `file_name` in directory `dir`, with text `raw`
/// rendered as `html`; `None` where a timestamp directive is not an integer.
pub open spec fn assembled(
    dir: Seq<char>,
    file_name: Seq<char>,
    raw: Seq<char>,
    html: Seq<char>,
    created_at: i64,
    modified_at: i64,
) -> Option<ArticleModel> {
    match extracted(raw, stem(file_name), created_at, modified_at) {
        Some(m) => Some(
            ArticleModel {
                url: join_path(dir, stem(file_name)),
                title: m.title,
                body: with_outbound_links(html),
                created_at: m.created_at,
                modified_at: m.modified_at,
                tags: m.tags,
            },
        ),
        None => None,
    }
}

/// Rewrites each `href="http` of rendered HTML to go through the redirector.
pub fn outbound_links(html: &str) -> (r: String)
    ensures
        r@ == with_outbound_links(html@),
{
    proof {
        reveal_strlit("href=\"http");
    }
    replace_all(html, "href=\"http", "href=\"https://href.li/?http")
}

/// Assembles the article of file `file_name` in directory `dir` from its text
/// `raw` and the HTML `html` rendered from it, with the filesystem timestamps
/// as fallbacks.
pub fn assemble_article(
    dir: &str,
    file_name: &str,
    raw: &str,
    html: &str,
    fs_created_at: i64,
    fs_modified_at: i64,
) -> (r: Result<Article, DirectiveError>)
    requires
        has_md_suffix(file_name@),
    ensures
        match r {
            Ok(a) => assembled(dir@, file_name@, raw@, html@, fs_created_at, fs_modified_at) == Some(
                a@,
            ),
            Err(_) => assembled(dir@, file_name@, raw@, html@, fs_created_at, fs_modified_at) is None,
        },
{
    let n = file_name.unicode_len();
    let name = substring(file_name, 0, n - 3);
    match extract(raw, name.as_str(), fs_created_at, fs_modified_at) {
        Ok(m) => {
            let a = Article {
                url: join(dir, name.as_str()),
                title: m.title,
                body: outbound_links(html),
                created_at: m.created_at,
                modified_at: m.modified_at,
                tags: m.tags,
            };
            Ok(a)
        },
        Err(e) => Err(e),
    }
}

} // verus!
