//! What one directory publishes: an artifact per article, with links to its
//! chronological neighbours, and an index of its articles and subdirectories.
//!
//! Listings run in display order, the reverse of the canonical order: the
//! newest article first.

use vstd::prelude::*;
use crate::article::{Article, ArticleModel};
use crate::text::{join, join_path, strings_view};
use crate::tree::{
    is_sorted, lemma_sorted_nodes, lemma_sorted_pairwise, node_cmp, paths_distinct, sort_nodes,
    sorted_nodes, PageNode,
};
use std::cmp::Ordering;

verus! {

/// The article nodes of `s`, in reverse order.
pub open spec fn display_articles(s: Seq<PageNode>) -> Seq<PageNode>
    decreases s.len(),
{
    if s.len() == 0 {
        Seq::empty()
    } else if s.last() is Article {
        seq![s.last()] + display_articles(s.drop_last())
    } else {
        display_articles(s.drop_last())
    }
}

/// The index page nodes of `s`, in reverse order.
pub open spec fn display_indexes(s: Seq<PageNode>) -> Seq<PageNode>
    decreases s.len(),
{
    if s.len() == 0 {
        Seq::empty()
    } else if s.last() is IndexPage {
        seq![s.last()] + display_indexes(s.drop_last())
    } else {
        display_indexes(s.drop_last())
    }
}

/// Where the index of directory `dir` is written.
pub open spec fn index_location(dir: Seq<char>) -> Seq<char> {
    join_path(dir, "index.json"@)
}

/// The path of the `i`-th of `a`, or the empty path where there is none.
pub open spec fn path_or_empty(a: Seq<PageNode>, i: int) -> Seq<char> {
    if 0 <= i < a.len() {
        a[i].path()
    } else {
        Seq::empty()
    }
}

/// One article as published: where it goes, the article, and the paths of
/// the next older (`prev_path`) and next newer (`next_path`) article.
pub struct ArticleArtifact {
    pub location: String,
    pub article: Article,
    pub prev_path: String,
    pub next_path: String,
}

/// An article as an index lists it: without its body.
pub struct ArticleSummary {
    pub created_at: i64,
    pub modified_at: i64,
    pub title: String,
    pub path: String,
}

/// A directory's index: its articles and the indexes of its subdirectories.
pub struct IndexArtifact {
    pub location: String,
    pub articles: Vec<ArticleSummary>,
    pub indexes: Vec<String>,
}

/// Everything that one directory publishes.
pub struct DirectoryArtifacts {
    pub articles: Vec<ArticleArtifact>,
    pub index: IndexArtifact,
}

/// The artifact `r` publishes the `i`-th article of `a`, in display order.
pub open spec fn publishes(r: ArticleArtifact, a: Seq<PageNode>, i: int) -> bool {
    &&& a[i] is Article
    &&& r.location@ == a[i].path() + ".json"@
    &&& r.article@ == a[i]->Article_1@
    &&& r.next_path@ == path_or_empty(a, i - 1)
    &&& r.prev_path@ == path_or_empty(a, i + 1)
}

/// The summary `r` lists the `i`-th article of `a`.
pub open spec fn summarizes(r: ArticleSummary, a: Seq<PageNode>, i: int) -> bool {
    &&& a[i] is Article
    &&& r.created_at == a[i]->Article_1.created_at
    &&& r.modified_at == a[i]->Article_1.modified_at
    &&& r.title@ == a[i]->Article_1.title@
    &&& r.path@ == a[i].path()
}

/// The index locations of the subdirectories in `s`, in display order.
pub open spec fn index_links(s: Seq<PageNode>) -> Seq<Seq<char>> {
    display_indexes(s).map_values(|n: PageNode| index_location(n.path()))
}

/// `r` is what directory `dir` with children `children`, in canonical order,
/// publishes: an artifact per article and a summary per article, both in
/// display order, and the index locations of its subdirectories.
pub open spec fn publishes_directory(r: DirectoryArtifacts, dir: Seq<char>, children: Seq<PageNode>) -> bool {
    &&& r.articles.len() == display_articles(children).len()
    &&& forall|i: int|
        0 <= i < r.articles.len() ==> publishes(
            #[trigger] r.articles@[i],
            display_articles(children),
            i,
        )
    &&& r.index.location@ == index_location(dir)
    &&& r.index.articles.len() == display_articles(children).len()
    &&& forall|i: int|
        0 <= i < r.index.articles.len() ==> summarizes(
            #[trigger] r.index.articles@[i],
            display_articles(children),
            i,
        )
    &&& strings_view(r.index.indexes@) == index_links(children)
}

proof fn lemma_display_step(s: Seq<PageNode>, i: int)
    requires
        0 < i <= s.len(),
    ensures
        display_articles(s.take(i)) == (if s[i - 1] is Article {
            seq![s[i - 1]]
        } else {
            Seq::empty()
        }) + display_articles(s.take(i - 1)),
        display_indexes(s.take(i)) == (if s[i - 1] is IndexPage {
            seq![s[i - 1]]
        } else {
            Seq::empty()
        }) + display_indexes(s.take(i - 1)),
{
    assert(s.take(i).drop_last() =~= s.take(i - 1));
    assert(Seq::<PageNode>::empty() + display_articles(s.take(i - 1)) =~= display_articles(
        s.take(i - 1),
    ));
    assert(Seq::<PageNode>::empty() + display_indexes(s.take(i - 1)) =~= display_indexes(
        s.take(i - 1),
    ));
}

/// The positions in `children` of its articles and of its index pages, each
/// in display order.
fn display_positions(children: &Vec<PageNode>) -> (r: (Vec<usize>, Vec<usize>))
    ensures
        r.0@.len() == display_articles(children@).len(),
        forall|i: int|
            0 <= i < r.0@.len() ==> #[trigger] r.0@[i] < children.len() && children@[r.0@[i] as int]
                == display_articles(children@)[i],
        r.1@.len() == display_indexes(children@).len(),
        forall|i: int|
            0 <= i < r.1@.len() ==> #[trigger] r.1@[i] < children.len() && children@[r.1@[i] as int]
                == display_indexes(children@)[i],
{
    let mut arts: Vec<usize> = Vec::new();
    let mut idxs: Vec<usize> = Vec::new();
    let mut i = children.len();
    assert(children@.take(children.len() as int) =~= children@);
    while i > 0
        invariant
            i <= children.len(),
            arts@.len() + display_articles(children@.take(i as int)).len() == display_articles(
                children@,
            ).len(),
            forall|j: int|
                0 <= j < arts@.len() ==> #[trigger] arts@[j] < children.len() && children@[arts@[j] as int]
                    == display_articles(children@)[j],
            forall|j: int|
                0 <= j < display_articles(children@.take(i as int)).len() ==> display_articles(
                    children@,
                )[arts@.len() + j] == #[trigger] display_articles(children@.take(i as int))[j],
            idxs@.len() + display_indexes(children@.take(i as int)).len() == display_indexes(
                children@,
            ).len(),
            forall|j: int|
                0 <= j < idxs@.len() ==> #[trigger] idxs@[j] < children.len() && children@[idxs@[j] as int]
                    == display_indexes(children@)[j],
            forall|j: int|
                0 <= j < display_indexes(children@.take(i as int)).len() ==> display_indexes(
                    children@,
                )[idxs@.len() + j] == #[trigger] display_indexes(children@.take(i as int))[j],
        decreases i,
    {
        proof {
            lemma_display_step(children@, i as int);
        }
        let is_article = match &children[i - 1] {
            PageNode::Article(_, _) => true,
            PageNode::IndexPage(_, _) => false,
        };
        if is_article {
            let ghost before = display_articles(children@.take(i as int));
            assert(before[0] == children@[i - 1]);
            assert forall|j: int|
                0 <= j < display_articles(children@.take(i - 1)).len() implies display_articles(
                children@,
            )[arts@.len() + 1 + j] == #[trigger] display_articles(children@.take(i - 1))[j] by {
                assert(before[j + 1] == display_articles(children@.take(i - 1))[j]);
            }
            arts.push(i - 1);
        } else {
            let ghost before = display_indexes(children@.take(i as int));
            assert(before[0] == children@[i - 1]);
            assert forall|j: int|
                0 <= j < display_indexes(children@.take(i - 1)).len() implies display_indexes(
                children@,
            )[idxs@.len() + 1 + j] == #[trigger] display_indexes(children@.take(i - 1))[j] by {
                assert(before[j + 1] == display_indexes(children@.take(i - 1))[j]);
            }
            idxs.push(i - 1);
        }
        i = i - 1;
    }
    (arts, idxs)
}


/// The path of the node at position `p`, or the empty path without one.
fn neighbour_path(children: &Vec<PageNode>, pos: &Vec<usize>, i: usize, exists: bool) -> (r: String)
    requires
        exists ==> i < pos.len(),
        forall|j: int| 0 <= j < pos.len() ==> #[trigger] pos@[j] < children.len(),
    ensures
        exists ==> r@ == children@[pos@[i as int] as int].path(),
        !exists ==> r@ == Seq::<char>::empty(),
{
    if exists {
        children[pos[i]].path_str().clone()
    } else {
        String::new()
    }
}

/// What directory `current` publishes, given its children in canonical
/// order: an artifact per article, linked to the next newer and next older
/// article, and an index listing the articles and the subdirectories'
/// indexes, newest first.
pub fn aggregate(current: &str, children: &Vec<PageNode>) -> (r: DirectoryArtifacts)
    ensures
        publishes_directory(r, current@, children@),
{
    let ghost arts = display_articles(children@);
    let (apos, ipos) = display_positions(children);
    let n = apos.len();
    let mut published: Vec<ArticleArtifact> = Vec::new();
    let mut summaries: Vec<ArticleSummary> = Vec::new();
    let mut k: usize = 0;
    while k < n
        invariant
            n == apos.len() == arts.len(),
            arts == display_articles(children@),
            forall|i: int|
                0 <= i < apos@.len() ==> #[trigger] apos@[i] < children.len() && children@[apos@[i] as int]
                    == arts[i],
            k <= n,
            published.len() == k,
            summaries.len() == k,
            forall|i: int| 0 <= i < k ==> publishes(#[trigger] published@[i], arts, i),
            forall|i: int| 0 <= i < k ==> summarizes(#[trigger] summaries@[i], arts, i),
        decreases n - k,
    {
        let next_path = neighbour_path(children, &apos, if k > 0 { k - 1 } else { 0 }, k > 0);
        let prev_path = neighbour_path(children, &apos, k + 1, k + 1 < n);
        let node = &children[apos[k]];
        assert(*node == arts[k as int]);
        match node {
            PageNode::Article(path, a) => {
                let mut location = path.clone();
                location.append(".json");
                let artifact = ArticleArtifact {
                    location,
                    article: a.duplicate(),
                    prev_path,
                    next_path,
                };
                let summary = ArticleSummary {
                    created_at: a.created_at,
                    modified_at: a.modified_at,
                    title: a.title.clone(),
                    path: path.clone(),
                };
                published.push(artifact);
                summaries.push(summary);
            },
            PageNode::IndexPage(_, _) => {
                assert(false) by {
                    lemma_display_articles_are_articles(children@, k as int);
                }
            },
        }
        k = k + 1;
    }
    let mut links: Vec<String> = Vec::new();
    let mut m: usize = 0;
    while m < ipos.len()
        invariant
            forall|i: int|
                0 <= i < ipos@.len() ==> #[trigger] ipos@[i] < children.len() && children@[ipos@[i] as int]
                    == display_indexes(children@)[i],
            ipos@.len() == display_indexes(children@).len(),
            m <= ipos.len(),
            strings_view(links@) == index_links(children@).take(m as int),
        decreases ipos.len() - m,
    {
        let link = join(children[ipos[m]].path_str().as_str(), "index.json");
        proof {
            assert(strings_view(links@.push(link)) =~= strings_view(links@).push(link@));
            assert(index_links(children@).take(m + 1) =~= index_links(children@).take(m as int).push(
                index_links(children@)[m as int],
            ));
        }
        links.push(link);
        m = m + 1;
    }
    assert(index_links(children@).take(m as int) =~= index_links(children@));
    DirectoryArtifacts {
        articles: published,
        index: IndexArtifact { location: join(current, "index.json"), articles: summaries, indexes: links },
    }
}

proof fn lemma_display_articles_are_articles(s: Seq<PageNode>, i: int)
    requires
        0 <= i < display_articles(s).len(),
    ensures
        display_articles(s)[i] is Article,
    decreases s.len(),
{
    if s.len() > 0 {
        if s.last() is Article {
            if i > 0 {
                lemma_display_articles_are_articles(s.drop_last(), i - 1);
            }
        } else {
            lemma_display_articles_are_articles(s.drop_last(), i);
        }
    }
}


/// Finishes directory `current` once its children are built: sorts them in
/// canonical order, works out what the directory publishes, and returns its
/// index page node with the sorted children.
pub fn finish_directory(current: String, children: Vec<PageNode>) -> (r: (PageNode, DirectoryArtifacts))
    ensures
        r.0 is IndexPage,
        r.0->IndexPage_0@ == current@,
        r.0->IndexPage_1@ == sorted_nodes(children@),
        is_sorted(r.0->IndexPage_1@),
        r.0->IndexPage_1@.to_multiset() == children@.to_multiset(),
        publishes_directory(r.1, current@, sorted_nodes(children@)),
{
    proof {
        lemma_sorted_nodes(children@);
    }
    let mut sorted = children;
    sort_nodes(&mut sorted);
    let artifacts = aggregate(current.as_str(), &sorted);
    (PageNode::IndexPage(current, sorted), artifacts)
}

/// A directory's index lists exactly the index locations of its
/// subdirectories.
pub proof fn lemma_index_links_are_subdirectories(children: Seq<PageNode>, link: Seq<char>)
    ensures
        index_links(children).contains(link) <==> exists|i: int|
            0 <= i < children.len() && children[i] is IndexPage && link == index_location(
                #[trigger] children[i].path(),
            ),
    decreases children.len(),
{
    if children.len() > 0 {
        let t = children.drop_last();
        lemma_index_links_are_subdirectories(t, link);
        let last = children.last();
        let here: Seq<Seq<char>> = if last is IndexPage {
            seq![index_location(last.path())]
        } else {
            Seq::empty()
        };
        assert(index_links(children) =~= here + index_links(t));
        let all = index_links(children);
        if all.contains(link) {
            let j = choose|j: int| 0 <= j < all.len() && all[j] == link;
            if j < here.len() {
                assert(children[children.len() - 1] == last);
            } else {
                assert(index_links(t)[j - here.len()] == link);
                assert(index_links(t).contains(link));
                let i = choose|i: int|
                    0 <= i < t.len() && t[i] is IndexPage && link == index_location(
                        #[trigger] t[i].path(),
                    );
                assert(children[i] == t[i]);
            }
        }
        if exists|i: int|
            0 <= i < children.len() && children[i] is IndexPage && link == index_location(
                #[trigger] children[i].path(),
            ) {
            let i = choose|i: int|
                0 <= i < children.len() && children[i] is IndexPage && link == index_location(
                    #[trigger] children[i].path(),
                );
            if i < t.len() {
                assert(children[i] == t[i]);
                assert(index_links(t).contains(link));
                let j = choose|j: int| 0 <= j < index_links(t).len() && index_links(t)[j] == link;
                assert(all[j + here.len()] == link);
            } else {
                assert(all[0] == link);
            }
        }
    } else {
        assert(index_links(children) =~= Seq::<Seq<char>>::empty());
    }
}


proof fn lemma_display_position(s: Seq<PageNode>, i: int) -> (p: int)
    requires
        0 <= i < display_articles(s).len(),
    ensures
        0 <= p < s.len(),
        s[p] == display_articles(s)[i],
    decreases s.len(),
{
    let t = s.drop_last();
    if s.last() is Article {
        if i == 0 {
            (s.len() - 1) as int
        } else {
            let q = lemma_display_position(t, i - 1);
            assert(s[q] == t[q]);
            q
        }
    } else {
        let q = lemma_display_position(t, i);
        assert(s[q] == t[q]);
        q
    }
}

proof fn lemma_display_positions_ordered(s: Seq<PageNode>, i: int, j: int) -> (pq: (int, int))
    requires
        0 <= i < j < display_articles(s).len(),
    ensures
        0 <= pq.1 < pq.0 < s.len(),
        s[pq.0] == display_articles(s)[i],
        s[pq.1] == display_articles(s)[j],
    decreases s.len(),
{
    let t = s.drop_last();
    if s.last() is Article {
        if i == 0 {
            let q = lemma_display_position(t, j - 1);
            assert(s[q] == t[q]);
            ((s.len() - 1) as int, q)
        } else {
            let (p, q) = lemma_display_positions_ordered(t, i - 1, j - 1);
            assert(s[p] == t[p] && s[q] == t[q]);
            (p, q)
        }
    } else {
        let (p, q) = lemma_display_positions_ordered(t, i, j);
        assert(s[p] == t[p] && s[q] == t[q]);
        (p, q)
    }
}

/// In a directory whose children are sorted and have distinct paths, the
/// articles run newest first: each one listed later precedes, in canonical
/// order, each one listed earlier. So an artifact's `next_path` names a newer
/// article and its `prev_path` an older one.
pub proof fn lemma_display_newest_first(s: Seq<PageNode>, i: int, j: int)
    requires
        is_sorted(s),
        paths_distinct(s),
        0 <= i < j < display_articles(s).len(),
    ensures
        node_cmp(display_articles(s)[j], display_articles(s)[i]) == Ordering::Less,
{
    let (p, q) = lemma_display_positions_ordered(s, i, j);
    lemma_sorted_pairwise(s, q, p);
}

} // verus!
