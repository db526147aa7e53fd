use ssg::aggregate::{aggregate, finish_directory};
use ssg::article::{assemble_article, outbound_links, Article};
use ssg::render::{article_node, build_article};
use ssg::text::{join, trimmed};
use ssg::tree::PageNode;

fn article(path: &str, created_at: i64) -> PageNode {
    PageNode::Article(
        path.to_string(),
        Article {
            url: path.to_string(),
            title: format!("title of {}", path),
            body: format!("<p>{}</p>", path),
            created_at,
            modified_at: created_at + 1,
            tags: vec!["t".to_string()],
        },
    )
}

#[test]
fn prev_and_next_link_neighbours_by_time() {
    let (_, out) = finish_directory(
        "blog".to_string(),
        vec![article("blog/b", 20), article("blog/c", 30), article("blog/a", 10)],
    );
    let arts = &out.articles;
    assert_eq!(arts.len(), 3);
    assert_eq!(arts[0].article.url, "blog/c");
    assert_eq!(arts[0].next_path, "");
    assert_eq!(arts[0].prev_path, "blog/b");
    assert_eq!(arts[1].article.url, "blog/b");
    assert_eq!(arts[1].next_path, "blog/c");
    assert_eq!(arts[1].prev_path, "blog/a");
    assert_eq!(arts[2].article.url, "blog/a");
    assert_eq!(arts[2].next_path, "blog/b");
    assert_eq!(arts[2].prev_path, "");
    assert_eq!(arts[2].location, "blog/a.json");
}

#[test]
fn artifact_carries_whole_article() {
    let (_, out) = finish_directory("".to_string(), vec![article("x", 7)]);
    let a = &out.articles[0].article;
    assert_eq!(a.title, "title of x");
    assert_eq!(a.body, "<p>x</p>");
    assert_eq!(a.created_at, 7);
    assert_eq!(a.modified_at, 8);
    assert_eq!(a.tags, vec!["t"]);
}

#[test]
fn index_lists_summaries_newest_first() {
    let children = vec![article("a", 1), article("b", 2)];
    let out = aggregate("", &children);
    assert_eq!(out.index.location, "index.json");
    let s = &out.index.articles;
    assert_eq!(s.len(), 2);
    assert_eq!(s[0].path, "b");
    assert_eq!(s[0].title, "title of b");
    assert_eq!(s[0].created_at, 2);
    assert_eq!(s[0].modified_at, 3);
    assert_eq!(s[1].path, "a");
}

#[test]
fn index_lists_every_subdirectory() {
    let children = vec![
        PageNode::IndexPage("docs/empty".to_string(), vec![]),
        PageNode::IndexPage("docs/full".to_string(), vec![article("docs/full/p", 1)]),
        article("docs/readme", 3),
    ];
    let (node, out) = finish_directory("docs".to_string(), children);
    assert_eq!(out.index.location, "docs/index.json");
    assert_eq!(out.index.indexes, vec!["docs/full/index.json", "docs/empty/index.json"]);
    assert_eq!(out.index.articles.len(), 1);
    match node {
        PageNode::IndexPage(p, kids) => {
            assert_eq!(p, "docs");
            let order: Vec<String> = kids.iter().map(|k| k.path_str().clone()).collect();
            assert_eq!(order, vec!["docs/readme", "docs/empty", "docs/full"]);
        }
        PageNode::Article(_, _) => panic!("expected an index page"),
    }
}

#[test]
fn empty_directory_publishes_empty_index() {
    let out = aggregate("void", &vec![]);
    assert!(out.articles.is_empty());
    assert!(out.index.articles.is_empty());
    assert!(out.index.indexes.is_empty());
    assert_eq!(out.index.location, "void/index.json");
}

#[test]
fn small_tree_end_to_end() {
    let b = match article_node("sub", "b.md", "hello", 5, 6) {
        Ok(n) => n,
        Err(_) => panic!("b.md should build"),
    };
    let (sub, sub_out) = finish_directory("sub".to_string(), vec![b]);
    assert_eq!(sub_out.articles[0].location, "sub/b.json");
    assert_eq!(sub_out.index.location, "sub/index.json");
    let a = match article_node("", "a.md", "ssg-tags: #x", 1, 2) {
        Ok(n) => n,
        Err(_) => panic!("a.md should build"),
    };
    let (_, root) = finish_directory("".to_string(), vec![sub, a]);
    assert_eq!(root.index.location, "index.json");
    assert_eq!(root.index.indexes, vec!["sub/index.json"]);
    assert_eq!(root.index.articles.len(), 1);
    assert_eq!(root.index.articles[0].path, "a");
    assert_eq!(root.index.articles[0].title, "a");
    assert_eq!(root.articles[0].location, "a.json");
    assert_eq!(root.articles[0].article.tags, vec!["x"]);
    assert_eq!(root.articles[0].article.created_at, 1);
    assert_eq!(root.articles[0].article.modified_at, 2);
}

#[test]
fn article_url_and_title_come_from_the_file() {
    let a = match assemble_article("notes/2020", "first.md", "text", "<p>text</p>", 3, 4) {
        Ok(a) => a,
        Err(_) => panic!("should build"),
    };
    assert_eq!(a.url, "notes/2020/first");
    assert_eq!(a.title, "first");
    assert_eq!(a.body, "<p>text</p>");
    assert_eq!(a.created_at, 3);
    assert_eq!(a.modified_at, 4);
}

#[test]
fn invalid_timestamp_fails_the_article() {
    assert!(assemble_article("", "x.md", "ssg-created-at: soon", "", 0, 0).is_err());
    assert!(article_node("", "x.md", "ssg-modified-at: 1.5", 0, 0).is_err());
}

#[test]
fn outbound_links_go_through_redirector() {
    assert_eq!(
        outbound_links("<a href=\"http://a.org\">a</a> <a href=\"/local\">b</a> <a href=\"https://b.org\">"),
        "<a href=\"https://href.li/?http://a.org\">a</a> <a href=\"/local\">b</a> <a href=\"https://href.li/?https://b.org\">"
    );
}

#[test]
fn rendering_produces_html_with_rewritten_links() {
    let a = match build_article("", "post.md", "ssg-title: Post\n\n# Hi\n\n[l](http://x.org)\n", 0, 0) {
        Ok(a) => a,
        Err(_) => panic!("should build"),
    };
    assert_eq!(a.title, "Post");
    assert!(a.body.contains("<h1>Hi</h1>"));
    assert!(a.body.contains("href=\"https://href.li/?http://x.org\""));
    assert!(!a.body.contains("# Hi"));
}

#[test]
fn rendering_keeps_raw_html_and_strikethrough() {
    let a = match build_article("", "p.md", "<div>raw</div>\n\n~~gone~~\n", 0, 0) {
        Ok(a) => a,
        Err(_) => panic!("should build"),
    };
    assert!(a.body.contains("<div>raw</div>"));
    assert!(a.body.contains("<del>gone</del>"));
}

#[test]
fn paths_join_with_slash() {
    assert_eq!(join("", "a"), "a");
    assert_eq!(join("x/y", "a"), "x/y/a");
}

#[test]
fn trimming_removes_unicode_whitespace() {
    assert_eq!(trimmed("\u{3000} a b \t\n"), "a b");
    assert_eq!(trimmed("   "), "");
}
