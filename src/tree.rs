//! The page tree and its canonical order.
//!
//! Siblings are ordered as follows: two index pages by path; an article
//! before an index page whose path differs; two articles by creation time,
//! then by path. Paths compare character by character.

use vstd::prelude::*;
use std::cmp::Ordering;
use crate::article::Article;
use crate::text::{chars_of, same_chars};

verus! {

/// A node of the page tree: a directory with its children, or a document.
#[derive(Debug)]
pub enum PageNode {
    IndexPage(String, Vec<PageNode>),
    Article(String, Article),
}

/// The lexicographic order of two character sequences.
pub open spec fn lex_cmp(a: Seq<char>, b: Seq<char>) -> Ordering
    decreases a.len(),
{
    if a.len() == 0 {
        if b.len() == 0 {
            Ordering::Equal
        } else {
            Ordering::Less
        }
    } else if b.len() == 0 {
        Ordering::Greater
    } else if a[0] < b[0] {
        Ordering::Less
    } else if a[0] > b[0] {
        Ordering::Greater
    } else {
        lex_cmp(a.drop_first(), b.drop_first())
    }
}

pub open spec fn int_cmp(a: i64, b: i64) -> Ordering {
    if a < b {
        Ordering::Less
    } else if a > b {
        Ordering::Greater
    } else {
        Ordering::Equal
    }
}

pub open spec fn reverse_ordering(o: Ordering) -> Ordering {
    match o {
        Ordering::Less => Ordering::Greater,
        Ordering::Equal => Ordering::Equal,
        Ordering::Greater => Ordering::Less,
    }
}

impl PageNode {
    pub open spec fn path(&self) -> Seq<char> {
        match self {
            PageNode::IndexPage(p, _) => p@,
            PageNode::Article(p, _) => p@,
        }
    }

    /// The node's path: its directory, or its article's url.
    pub fn path_str(&self) -> (r: &String)
        ensures
            r@ == self.path(),
    {
        match self {
            PageNode::IndexPage(p, _) => p,
            PageNode::Article(p, _) => p,
        }
    }
}

/// The order of two nodes, where one is defined: `None` for two index pages
/// with equal paths, and for an index page and an article with equal paths.
#[verifier::opaque]
pub open spec fn node_partial_cmp(a: PageNode, b: PageNode) -> Option<Ordering> {
    match (a, b) {
        (PageNode::IndexPage(pa, _), PageNode::IndexPage(pb, _)) => {
            if lex_cmp(pa@, pb@) == Ordering::Equal {
                None
            } else {
                Some(lex_cmp(pa@, pb@))
            }
        },
        (PageNode::IndexPage(pa, _), PageNode::Article(pb, _)) => {
            if pa@ == pb@ {
                None
            } else {
                Some(Ordering::Greater)
            }
        },
        (PageNode::Article(pa, _), PageNode::IndexPage(pb, _)) => {
            if pa@ == pb@ {
                None
            } else {
                Some(Ordering::Less)
            }
        },
        (PageNode::Article(pa, a1), PageNode::Article(pb, a2)) => {
            if a1.created_at == a2.created_at {
                Some(lex_cmp(pa@, pb@))
            } else {
                Some(int_cmp(a1.created_at, a2.created_at))
            }
        },
    }
}

/// The canonical order of two sibling nodes; undefined pairs count as equal.
pub open spec fn node_cmp(a: PageNode, b: PageNode) -> Ordering {
    match node_partial_cmp(a, b) {
        Some(o) => o,
        None => Ordering::Equal,
    }
}

proof fn lemma_lex_step(a: Seq<char>, b: Seq<char>, i: int)
    requires
        0 <= i < a.len(),
        i < b.len(),
        a[i] == b[i],
    ensures
        lex_cmp(a.skip(i), b.skip(i)) == lex_cmp(a.skip(i + 1), b.skip(i + 1)),
{
    assert(a.skip(i).drop_first() =~= a.skip(i + 1));
    assert(b.skip(i).drop_first() =~= b.skip(i + 1));
}

/// Lexicographic comparison of two strings, character by character.
pub fn compare_paths(a: &str, b: &str) -> (r: Ordering)
    ensures
        r == lex_cmp(a@, b@),
{
    let x = chars_of(a);
    let y = chars_of(b);
    let mut i: usize = 0;
    assert(x@.skip(0) =~= x@);
    assert(y@.skip(0) =~= y@);
    while i < x.len() && i < y.len() && x[i] == y[i]
        invariant
            x@ == a@,
            y@ == b@,
            i <= x.len(),
            i <= y.len(),
            lex_cmp(a@, b@) == lex_cmp(x@.skip(i as int), y@.skip(i as int)),
        decreases x.len() - i,
    {
        proof {
            lemma_lex_step(x@, y@, i as int);
        }
        i = i + 1;
    }
    assert(x@.skip(i as int).len() == x.len() - i);
    assert(y@.skip(i as int).len() == y.len() - i);
    if i == x.len() {
        if i == y.len() {
            Ordering::Equal
        } else {
            Ordering::Less
        }
    } else if i == y.len() {
        Ordering::Greater
    } else {
        assert(x@.skip(i as int)[0] == x@[i as int]);
        assert(y@.skip(i as int)[0] == y@[i as int]);
        if x[i] < y[i] {
            Ordering::Less
        } else {
            Ordering::Greater
        }
    }
}

fn compare_times(a: i64, b: i64) -> (r: Ordering)
    ensures
        r == int_cmp(a, b),
{
    if a < b {
        Ordering::Less
    } else if a > b {
        Ordering::Greater
    } else {
        Ordering::Equal
    }
}

impl PageNode {
    /// The canonical order of `self` and `other`, where it is defined.
    pub fn partial_cmp(&self, other: &PageNode) -> (r: Option<Ordering>)
        ensures
            r == node_partial_cmp(*self, *other),
    {
        reveal(node_partial_cmp);
        match (self, other) {
            (PageNode::IndexPage(pa, _), PageNode::IndexPage(pb, _)) => {
                let o = compare_paths(pa.as_str(), pb.as_str());
                match o {
                    Ordering::Equal => None,
                    _ => Some(o),
                }
            },
            (PageNode::IndexPage(pa, _), PageNode::Article(pb, _)) => {
                if same_chars(pa.as_str(), pb.as_str()) {
                    None
                } else {
                    Some(Ordering::Greater)
                }
            },
            (PageNode::Article(pa, _), PageNode::IndexPage(pb, _)) => {
                if same_chars(pa.as_str(), pb.as_str()) {
                    None
                } else {
                    Some(Ordering::Less)
                }
            },
            (PageNode::Article(pa, a1), PageNode::Article(pb, a2)) => {
                if a1.created_at == a2.created_at {
                    Some(compare_paths(pa.as_str(), pb.as_str()))
                } else {
                    Some(compare_times(a1.created_at, a2.created_at))
                }
            },
        }
    }

    /// The canonical order of `self` and `other`; undefined pairs count as equal.
    pub fn cmp(&self, other: &PageNode) -> (r: Ordering)
        ensures
            r == node_cmp(*self, *other),
    {
        match self.partial_cmp(other) {
            None => Ordering::Equal,
            Some(o) => o,
        }
    }

    /// Whether `self` comes after `other` in the canonical order.
    pub fn follows(&self, other: &PageNode) -> (r: bool)
        ensures
            r == (node_cmp(*self, *other) == Ordering::Greater),
    {
        match self.cmp(other) {
            Ordering::Greater => true,
            _ => false,
        }
    }
}


/// `s`, already in order, with `x` inserted after every element that does
/// not follow it.
pub open spec fn insert_node(s: Seq<PageNode>, x: PageNode) -> Seq<PageNode>
    decreases s.len(),
{
    if s.len() == 0 {
        seq![x]
    } else if node_cmp(s.last(), x) == Ordering::Greater {
        insert_node(s.drop_last(), x).push(s.last())
    } else {
        s.push(x)
    }
}

/// `s` sorted by the canonical order; nodes that compare equal keep their
/// relative order.
pub open spec fn sorted_nodes(s: Seq<PageNode>) -> Seq<PageNode>
    decreases s.len(),
{
    if s.len() == 0 {
        s
    } else {
        insert_node(sorted_nodes(s.drop_last()), s.last())
    }
}

/// The node at `i` in `s` is not followed by one that precedes it.
pub open spec fn in_order_at(s: Seq<PageNode>, i: int) -> bool {
    node_cmp(s[i], s[i + 1]) != Ordering::Greater
}

/// No node of `s` is followed by one that precedes it.
pub open spec fn is_sorted(s: Seq<PageNode>) -> bool {
    forall|i: int| 0 <= i < s.len() - 1 ==> #[trigger] in_order_at(s, i)
}

proof fn lemma_insert_at(s: Seq<PageNode>, x: PageNode, j: int)
    requires
        0 <= j <= s.len(),
        forall|i: int| j <= i < s.len() ==> node_cmp(#[trigger] s[i], x) == Ordering::Greater,
        j == 0 || node_cmp(s[j - 1], x) != Ordering::Greater,
    ensures
        insert_node(s, x) == s.take(j).push(x) + s.skip(j),
    decreases s.len(),
{
    if s.len() == j {
        assert(s.take(j) =~= s);
        assert(s.take(j).push(x) + s.skip(j) =~= s.push(x));
    } else {
        let t = s.drop_last();
        assert forall|i: int| j <= i < t.len() implies node_cmp(#[trigger] t[i], x)
            == Ordering::Greater by {
            assert(t[i] == s[i]);
        }
        if j > 0 {
            assert(t[j - 1] == s[j - 1]);
        }
        lemma_insert_at(t, x, j);
        assert(s.take(j).push(x) + s.skip(j) =~= (t.take(j).push(x) + t.skip(j)).push(s.last()));
    }
}

proof fn lemma_lex_antisym(a: Seq<char>, b: Seq<char>)
    ensures
        lex_cmp(b, a) == reverse_ordering(lex_cmp(a, b)),
    decreases a.len(),
{
    if a.len() > 0 && b.len() > 0 && a[0] == b[0] {
        lemma_lex_antisym(a.drop_first(), b.drop_first());
    }
}

proof fn lemma_lex_equal(a: Seq<char>, b: Seq<char>)
    ensures
        (lex_cmp(a, b) == Ordering::Equal) == (a == b),
    decreases a.len(),
{
    if a.len() > 0 && b.len() > 0 && a[0] == b[0] {
        lemma_lex_equal(a.drop_first(), b.drop_first());
        if a.drop_first() == b.drop_first() {
            assert forall|i: int| 0 <= i < a.len() implies a[i] == b[i] by {
                if i > 0 {
                    assert(a[i] == a.drop_first()[i - 1]);
                    assert(b[i] == b.drop_first()[i - 1]);
                }
            }
            assert(a =~= b);
        }
    } else if a.len() == 0 && b.len() == 0 {
        assert(a =~= b);
    } else if a.len() > 0 && b.len() > 0 {
        assert(a[0] != b[0]);
    }
}

/// Swapping the two nodes reverses their order.
pub proof fn lemma_node_cmp_antisym(a: PageNode, b: PageNode)
    ensures
        node_cmp(b, a) == reverse_ordering(node_cmp(a, b)),
{
    reveal(node_partial_cmp);
    lemma_lex_antisym(a.path(), b.path());
    lemma_lex_equal(a.path(), b.path());
}

proof fn lemma_insert_shape(s: Seq<PageNode>, x: PageNode)
    ensures
        insert_node(s, x).len() == s.len() + 1,
        insert_node(s, x).last() == x || (s.len() > 0 && insert_node(s, x).last() == s.last()),
    decreases s.len(),
{
    if s.len() > 0 {
        lemma_insert_shape(s.drop_last(), x);
    }
}

proof fn lemma_insert_multiset(s: Seq<PageNode>, x: PageNode)
    ensures
        insert_node(s, x).to_multiset() == s.to_multiset().insert(x),
    decreases s.len(),
{
    broadcast use vstd::seq_lib::group_to_multiset_ensures;

    if s.len() > 0 {
        let t = s.drop_last();
        lemma_insert_multiset(t, x);
        assert(s =~= t.push(s.last()));
        if node_cmp(s.last(), x) == Ordering::Greater {
            assert(insert_node(s, x).to_multiset() =~= s.to_multiset().insert(x));
        }
    } else {
        assert(seq![x] =~= Seq::<PageNode>::empty().push(x));
    }
}

proof fn lemma_sorted_len(s: Seq<PageNode>)
    ensures
        sorted_nodes(s).len() == s.len(),
    decreases s.len(),
{
    if s.len() > 0 {
        lemma_sorted_len(s.drop_last());
        lemma_insert_shape(sorted_nodes(s.drop_last()), s.last());
    }
}

proof fn lemma_insert_sorted(s: Seq<PageNode>, x: PageNode)
    requires
        is_sorted(s),
    ensures
        is_sorted(insert_node(s, x)),
    decreases s.len(),
{
    if s.len() > 0 {
        let t = s.drop_last();
        if node_cmp(s.last(), x) == Ordering::Greater {
            assert(is_sorted(t)) by {
                assert forall|i: int| 0 <= i < t.len() - 1 implies #[trigger] in_order_at(t, i) by {
                    assert(in_order_at(s, i));
                    assert(s[i] == t[i] && s[i + 1] == t[i + 1]);
                }
            }
            lemma_insert_sorted(t, x);
            lemma_insert_shape(t, x);
            lemma_node_cmp_antisym(s.last(), x);
            let r = insert_node(t, x);
            assert(r.last() == x || (t.len() > 0 && r.last() == t.last()));
            if t.len() > 0 && r.last() == t.last() {
                assert(s[s.len() - 2] == t.last());
            }
            assert forall|i: int| 0 <= i < r.push(s.last()).len() - 1 implies #[trigger] in_order_at(
                r.push(s.last()),
                i,
            ) by {
                if i < r.len() - 1 {
                    assert(in_order_at(r, i));
                    assert(r.push(s.last())[i] == r[i] && r.push(s.last())[i + 1] == r[i + 1]);
                } else {
                    assert(r.push(s.last())[i] == r.last());
                    assert(r.push(s.last())[i + 1] == s.last());
                    if r.last() != x {
                        assert(in_order_at(s, s.len() - 2));
                    }
                }
            }
        } else {
            assert forall|i: int| 0 <= i < s.push(x).len() - 1 implies #[trigger] in_order_at(
                s.push(x),
                i,
            ) by {
                if i < s.len() - 1 {
                    assert(in_order_at(s, i));
                    assert(s.push(x)[i] == s[i] && s.push(x)[i + 1] == s[i + 1]);
                }
            }
        }
    }
}

/// Sorting yields a sorted arrangement of the same nodes.
pub proof fn lemma_sorted_nodes(s: Seq<PageNode>)
    ensures
        is_sorted(sorted_nodes(s)),
        sorted_nodes(s).to_multiset() == s.to_multiset(),
    decreases s.len(),
{
    if s.len() > 0 {
        let t = s.drop_last();
        lemma_sorted_nodes(t);
        lemma_insert_sorted(sorted_nodes(t), s.last());
        lemma_insert_multiset(sorted_nodes(t), s.last());
        assert(s =~= t.push(s.last()));
        t.to_multiset_ensures();
    }
}

/// A list that is already sorted is left as it is.
pub proof fn lemma_sorted_unchanged(s: Seq<PageNode>)
    requires
        is_sorted(s),
    ensures
        sorted_nodes(s) == s,
    decreases s.len(),
{
    if s.len() > 0 {
        let t = s.drop_last();
        assert(is_sorted(t)) by {
            assert forall|i: int| 0 <= i < t.len() - 1 implies #[trigger] in_order_at(t, i) by {
                assert(in_order_at(s, i));
                assert(s[i] == t[i] && s[i + 1] == t[i + 1]);
            }
        }
        lemma_sorted_unchanged(t);
        if t.len() > 0 {
            assert(t.last() == s[s.len() - 2]);
            assert(in_order_at(s, s.len() - 2));
        }
        assert(t.push(s.last()) =~= s);
    }
}

/// Sorting is idempotent: sorting a sorted list changes nothing.
pub proof fn lemma_sort_idempotent(s: Seq<PageNode>)
    ensures
        sorted_nodes(sorted_nodes(s)) == sorted_nodes(s),
{
    lemma_sorted_nodes(s);
    lemma_sorted_unchanged(sorted_nodes(s));
}

/// Sorts sibling nodes by the canonical order, keeping the relative order of
/// nodes that compare equal.
pub fn sort_nodes(v: &mut Vec<PageNode>)
    ensures
        final(v)@ == sorted_nodes(old(v)@),
        is_sorted(final(v)@),
        final(v)@.to_multiset() == old(v)@.to_multiset(),
{
    let ghost orig = v@;
    let n = v.len();
    let mut k: usize = 0;
    assert(orig.take(0) =~= Seq::<PageNode>::empty());
    assert(orig.skip(0) =~= orig);
    assert(v@ =~= sorted_nodes(orig.take(0)) + orig.skip(0));
    while k < n
        invariant
            k <= n == orig.len(),
            v@ == sorted_nodes(orig.take(k as int)) + orig.skip(k as int),
        decreases n - k,
    {
        let ghost s = sorted_nodes(orig.take(k as int));
        proof {
            lemma_sorted_len(orig.take(k as int));
            assert(v@[k as int] == orig[k as int]);
        }
        let x = v.remove(k);
        assert(v@ =~= s + orig.skip(k + 1));
        let mut j: usize = k;
        while j > 0 && v[j - 1].follows(&x)
            invariant
                j <= k < n,
                v@ == s + orig.skip(k + 1),
                s.len() == k,
                x == orig[k as int],
                forall|i: int| j <= i < k ==> node_cmp(#[trigger] s[i], x) == Ordering::Greater,
            decreases j,
        {
            j = j - 1;
        }
        proof {
            if j > 0 {
                assert(v@[j - 1] == s[j - 1]);
            }
            lemma_insert_at(s, x, j as int);
            assert(orig.take(k + 1).drop_last() =~= orig.take(k as int));
        }
        v.insert(j, x);
        assert(v@ =~= insert_node(s, x) + orig.skip(k + 1));
        k = k + 1;
    }
    assert(orig.take(n as int) =~= orig);
    assert(v@ =~= sorted_nodes(orig));
    proof {
        lemma_sorted_nodes(orig);
    }
}


proof fn lemma_lex_trans(a: Seq<char>, b: Seq<char>, c: Seq<char>)
    requires
        lex_cmp(a, b) == Ordering::Less,
        lex_cmp(b, c) == Ordering::Less,
    ensures
        lex_cmp(a, c) == Ordering::Less,
    decreases a.len(),
{
    if a.len() > 0 && b.len() > 0 && c.len() > 0 && a[0] == b[0] && b[0] == c[0] {
        lemma_lex_trans(a.drop_first(), b.drop_first(), c.drop_first());
    }
}

/// No two nodes of `s` share a path.
pub open spec fn paths_distinct(s: Seq<PageNode>) -> bool {
    forall|i: int, j: int| 0 <= i < j < s.len() ==> s[i].path() != s[j].path()
}

/// Between nodes with different paths the canonical order is strict and
/// transitive.
pub proof fn lemma_node_cmp_trans(a: PageNode, b: PageNode, c: PageNode)
    requires
        a.path() != b.path(),
        b.path() != c.path(),
        a.path() != c.path(),
        node_cmp(a, b) != Ordering::Greater,
        node_cmp(b, c) != Ordering::Greater,
    ensures
        node_cmp(a, b) == Ordering::Less,
        node_cmp(a, c) == Ordering::Less,
{
    reveal(node_partial_cmp);
    lemma_lex_equal(a.path(), b.path());
    lemma_lex_equal(b.path(), c.path());
    lemma_lex_equal(a.path(), c.path());
    if node_cmp(a, b) == Ordering::Less && node_cmp(b, c) == Ordering::Less {
        match (a, b, c) {
            (PageNode::Article(_, x), PageNode::Article(_, y), PageNode::Article(_, z)) => {
                if x.created_at == y.created_at && y.created_at == z.created_at {
                    lemma_lex_trans(a.path(), b.path(), c.path());
                }
            },
            (PageNode::IndexPage(_, _), PageNode::IndexPage(_, _), PageNode::IndexPage(_, _)) => {
                lemma_lex_trans(a.path(), b.path(), c.path());
            },
            _ => {},
        }
    }
}

/// In a sorted list whose paths are distinct, every node precedes every
/// later one.
pub proof fn lemma_sorted_pairwise(s: Seq<PageNode>, i: int, j: int)
    requires
        is_sorted(s),
        paths_distinct(s),
        0 <= i < j < s.len(),
    ensures
        node_cmp(s[i], s[j]) == Ordering::Less,
    decreases j - i,
{
    assert(in_order_at(s, j - 1));
    if j == i + 1 {
        reveal(node_partial_cmp);
        lemma_lex_equal(s[i].path(), s[j].path());
    } else {
        lemma_sorted_pairwise(s, i, j - 1);
        lemma_node_cmp_trans(s[i], s[j - 1], s[j]);
    }
}

/// Of two articles with different creation times, the older one comes first,
/// whatever their paths.
pub proof fn lemma_older_article_first(pa: String, a1: Article, pb: String, a2: Article)
    requires
        a1.created_at < a2.created_at,
    ensures
        node_cmp(PageNode::Article(pa, a1), PageNode::Article(pb, a2)) == Ordering::Less,
        node_cmp(PageNode::Article(pb, a2), PageNode::Article(pa, a1)) == Ordering::Greater,
{
    reveal(node_partial_cmp);
}

/// Two articles created at the same time are ordered by path.
pub proof fn lemma_same_time_by_path(pa: String, a1: Article, pb: String, a2: Article)
    requires
        a1.created_at == a2.created_at,
    ensures
        node_cmp(PageNode::Article(pa, a1), PageNode::Article(pb, a2)) == lex_cmp(pa@, pb@),
{
    reveal(node_partial_cmp);
}

/// An article comes before an index page whose path differs from its own.
pub proof fn lemma_article_before_index(pa: String, a: Article, pb: String, c: Vec<PageNode>)
    requires
        pa@ != pb@,
    ensures
        node_cmp(PageNode::Article(pa, a), PageNode::IndexPage(pb, c)) == Ordering::Less,
        node_cmp(PageNode::IndexPage(pb, c), PageNode::Article(pa, a)) == Ordering::Greater,
{
    reveal(node_partial_cmp);
}

} // verus!
