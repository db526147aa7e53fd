use ssg::article::Article;
use ssg::tree::{sort_nodes, PageNode};
use std::cmp::Ordering;

fn article(path: &str, created_at: i64) -> PageNode {
    PageNode::Article(
        path.to_string(),
        Article {
            url: path.to_string(),
            title: path.to_string(),
            body: String::new(),
            created_at,
            modified_at: created_at,
            tags: vec![],
        },
    )
}

fn index(path: &str) -> PageNode {
    PageNode::IndexPage(path.to_string(), vec![])
}

fn paths(v: &[PageNode]) -> Vec<String> {
    v.iter().map(|n| n.path_str().clone()).collect()
}

#[test]
fn older_article_sorts_first_whatever_the_path() {
    let a = article("z", 1);
    let b = article("a", 2);
    assert_eq!(a.cmp(&b), Ordering::Less);
    assert_eq!(b.cmp(&a), Ordering::Greater);
}

#[test]
fn same_time_articles_sort_by_path() {
    let a = article("alpha", 5);
    let b = article("beta", 5);
    assert_eq!(a.cmp(&b), Ordering::Less);
    assert_eq!(b.cmp(&a), Ordering::Greater);
    assert_eq!(a.cmp(&article("alpha", 5)), Ordering::Equal);
}

#[test]
fn article_sorts_before_index_page() {
    let a = article("zzz", 100);
    let i = index("aaa");
    assert_eq!(a.cmp(&i), Ordering::Less);
    assert_eq!(i.cmp(&a), Ordering::Greater);
    assert_eq!(a.partial_cmp(&i), Some(Ordering::Less));
}

#[test]
fn equal_paths_of_article_and_index_are_unordered() {
    let a = article("x", 1);
    let i = index("x");
    assert_eq!(a.partial_cmp(&i), None);
    assert_eq!(i.partial_cmp(&a), None);
    assert_eq!(a.cmp(&i), Ordering::Equal);
}

#[test]
fn index_pages_sort_by_path() {
    assert_eq!(index("a").cmp(&index("b")), Ordering::Less);
    assert_eq!(index("b").partial_cmp(&index("a")), Some(Ordering::Greater));
    assert_eq!(index("a").partial_cmp(&index("a")), None);
    assert_eq!(index("a").cmp(&index("a")), Ordering::Equal);
    assert_eq!(index("ab").cmp(&index("a")), Ordering::Greater);
}

#[test]
fn sort_puts_articles_by_time_then_indexes_by_path() {
    let mut v = vec![index("d2"), article("b", 30), index("d1"), article("a", 10), article("c", 10)];
    sort_nodes(&mut v);
    assert_eq!(paths(&v), vec!["a", "c", "b", "d1", "d2"]);
}

#[test]
fn sorting_twice_changes_nothing() {
    let mut v = vec![article("b", 2), index("x"), article("a", 2), article("c", 1)];
    sort_nodes(&mut v);
    let once = paths(&v);
    sort_nodes(&mut v);
    assert_eq!(paths(&v), once);
    assert_eq!(once, vec!["c", "a", "b", "x"]);
}

#[test]
fn sorting_empty_list() {
    let mut v: Vec<PageNode> = vec![];
    sort_nodes(&mut v);
    assert!(v.is_empty());
}
