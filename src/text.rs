//! Character-level helpers shared by the parsers: whitespace, trimming,
//! path joining and plain substring replacement.

use vstd::prelude::*;

verus! {

broadcast use vstd::string::group_string_axioms;

/// The characters that `char::is_whitespace` accepts (Unicode `White_Space`).
pub open spec fn is_ws(c: char) -> bool {
    c == '\t' || c == '\n' || c == '\u{0B}' || c == '\u{0C}' || c == '\r' || c == ' '
        || c == '\u{85}' || c == '\u{A0}' || c == '\u{1680}' || ('\u{2000}' <= c
        && c <= '\u{200A}') || c == '\u{2028}' || c == '\u{2029}' || c == '\u{202F}'
        || c == '\u{205F}' || c == '\u{3000}'
}

/// The character sequences of a list of strings.
pub open spec fn strings_view(v: Seq<String>) -> Seq<Seq<char>> {
    v.map_values(|s: String| s@)
}

/// `s` without its leading whitespace.
pub open spec fn trim_start(s: Seq<char>) -> Seq<char>
    decreases s.len(),
{
    if s.len() > 0 && is_ws(s[0]) {
        trim_start(s.drop_first())
    } else {
        s
    }
}

/// `s` without its trailing whitespace.
pub open spec fn trim_end(s: Seq<char>) -> Seq<char>
    decreases s.len(),
{
    if s.len() > 0 && is_ws(s.last()) {
        trim_end(s.drop_last())
    } else {
        s
    }
}

/// `s` without surrounding whitespace.
pub open spec fn trim(s: Seq<char>) -> Seq<char> {
    trim_end(trim_start(s))
}

pub fn is_whitespace(c: char) -> (r: bool)
    ensures
        r == is_ws(c),
{
    c == '\t' || c == '\n' || c == '\u{0B}' || c == '\u{0C}' || c == '\r' || c == ' '
        || c == '\u{85}' || c == '\u{A0}' || c == '\u{1680}' || ('\u{2000}' <= c
        && c <= '\u{200A}') || c == '\u{2028}' || c == '\u{2029}' || c == '\u{202F}'
        || c == '\u{205F}' || c == '\u{3000}'
}

/// The characters of `s`, one per element.
pub fn chars_of(s: &str) -> (r: Vec<char>)
    ensures
        r@ == s@,
{
    let mut v: Vec<char> = Vec::new();
    for c in it: s.chars()
        invariant
            it.seq() == s@,
            v@ == it.seq().take(it.index() as int),
    {
        v.push(c);
    }
    v
}


proof fn lemma_trim_start_step(v: Seq<char>, lo: int, hi: int)
    requires
        0 <= lo < hi <= v.len(),
        is_ws(v[lo]),
    ensures
        trim_start(v.subrange(lo, hi)) == trim_start(v.subrange(lo + 1, hi)),
{
    assert(v.subrange(lo, hi).drop_first() =~= v.subrange(lo + 1, hi));
}

proof fn lemma_trim_end_step(v: Seq<char>, lo: int, hi: int)
    requires
        0 <= lo < hi <= v.len(),
        is_ws(v[hi - 1]),
    ensures
        trim_end(v.subrange(lo, hi)) == trim_end(v.subrange(lo, hi - 1)),
{
    assert(v.subrange(lo, hi).drop_last() =~= v.subrange(lo, hi - 1));
}

/// The bounds of `v[from..to]` once surrounding whitespace is removed.
pub fn trim_bounds(v: &Vec<char>, from: usize, to: usize) -> (r: (usize, usize))
    requires
        from <= to <= v.len(),
    ensures
        from <= r.0 <= r.1 <= to,
        v@.subrange(r.0 as int, r.1 as int) == trim(v@.subrange(from as int, to as int)),
{
    let mut lo = from;
    while lo < to && is_whitespace(v[lo])
        invariant
            from <= lo <= to <= v.len(),
            trim_start(v@.subrange(from as int, to as int)) == trim_start(
                v@.subrange(lo as int, to as int),
            ),
        decreases to - lo,
    {
        proof {
            lemma_trim_start_step(v@, lo as int, to as int);
        }
        lo = lo + 1;
    }
    assert(trim_start(v@.subrange(lo as int, to as int)) == v@.subrange(lo as int, to as int));
    let mut hi = to;
    while hi > lo && is_whitespace(v[hi - 1])
        invariant
            from <= lo <= hi <= to <= v.len(),
            trim_end(v@.subrange(lo as int, to as int)) == trim_end(
                v@.subrange(lo as int, hi as int),
            ),
        decreases hi - lo,
    {
        proof {
            lemma_trim_end_step(v@, lo as int, hi as int);
        }
        hi = hi - 1;
    }
    (lo, hi)
}

/// A new string holding the characters `from..to` of `s`.
pub fn substring(s: &str, from: usize, to: usize) -> (r: String)
    requires
        from <= to <= s@.len(),
    ensures
        r@ == s@.subrange(from as int, to as int),
{
    String::from_str(s.substring_char(from, to))
}

/// `s` without surrounding whitespace, as a new string.
pub fn trimmed(s: &str) -> (r: String)
    ensures
        r@ == trim(s@),
{
    let v = chars_of(s);
    let (lo, hi) = trim_bounds(&v, 0, v.len());
    assert(v@.subrange(0, v@.len() as int) =~= v@);
    substring(s, lo, hi)
}


/// Whether two strings hold the same characters.
pub fn same_chars(a: &str, b: &str) -> (r: bool)
    ensures
        r == (a@ == b@),
{
    let x = chars_of(a);
    let y = chars_of(b);
    if x.len() != y.len() {
        return false;
    }
    let mut i: usize = 0;
    while i < x.len()
        invariant
            x@ == a@,
            y@ == b@,
            x.len() == y.len(),
            i <= x.len(),
            forall|j: int| 0 <= j < i ==> x@[j] == y@[j],
        decreases x.len() - i,
    {
        if x[i] != y[i] {
            return false;
        }
        i = i + 1;
    }
    assert(x@ =~= y@);
    true
}


/// `s` with every match of `from`, taken from the left and without overlap,
/// replaced by `to`.
pub open spec fn replaced(s: Seq<char>, from: Seq<char>, to: Seq<char>) -> Seq<char>
    decreases s.len(),
{
    if s.len() == 0 || from.len() == 0 {
        s
    } else if from.len() <= s.len() && s.take(from.len() as int) == from {
        to + replaced(s.skip(from.len() as int), from, to)
    } else {
        seq![s[0]] + replaced(s.drop_first(), from, to)
    }
}

/// Relies on `str::replace`: it replaces every match of `from`, scanning from
/// the left, without overlap, by `to`.
#[verifier::external_body]
pub(crate) fn replace_all(s: &str, from: &str, to: &str) -> (r: String)
    requires
        from@.len() > 0,
    ensures
        r@ == replaced(s@, from@, to@),
{
    s.replace(from, to)
}

/// The path `name` inside directory `dir`; the empty directory is the root.
pub open spec fn join_path(dir: Seq<char>, name: Seq<char>) -> Seq<char> {
    if dir.len() == 0 {
        name
    } else {
        dir + "/"@ + name
    }
}

/// Joins a directory and a name with `/`, as a relative path.
pub fn join(dir: &str, name: &str) -> (r: String)
    ensures
        r@ == join_path(dir@, name@),
{
    if dir.unicode_len() == 0 {
        String::from_str(name)
    } else {
        let mut r = String::from_str(dir);
        r.append("/");
        r.append(name);
        r
    }
}

} // verus!
