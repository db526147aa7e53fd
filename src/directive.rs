//! In-document metadata directives: lines holding `ssg-<key>: <value>`.
//!
//! A line holds at most one directive: the first `ssg-` in it that is
//! followed by a key (ASCII letters, digits, `_` or `-`), a colon, and at
//! least one more character on that line. The value is the rest of the line
//! after the colon, trimmed. Directives apply in the order of the text, so a
//! later one overwrites what an earlier one set.

use vstd::prelude::*;
use crate::text::{chars_of, same_chars, strings_view, substring, trim, trim_bounds};

verus! {

/// A directive as it stands in the text: its key and its trimmed value.
pub type DirectiveModel = (Seq<char>, Seq<char>);

pub open spec fn is_key_char(c: char) -> bool {
    ('a' <= c && c <= 'z') || ('A' <= c && c <= 'Z') || ('0' <= c && c <= '9') || c == '_'
        || c == '-'
}

/// The end of the run of key characters of `t` that starts at `i`, not past `end`.
pub open spec fn key_run_end(t: Seq<char>, i: int, end: int) -> int
    decreases end - i,
{
    if 0 <= i < end && end <= t.len() && is_key_char(t[i]) {
        key_run_end(t, i + 1, end)
    } else {
        i
    }
}

/// The directive whose `ssg-` starts at `p`, in the line of `t` that ends at `end`.
pub open spec fn directive_at(t: Seq<char>, p: int, end: int) -> Option<DirectiveModel> {
    let k = p + 4;
    if 0 <= p && k <= end && end <= t.len() && t.subrange(p, k) == seq!['s', 's', 'g', '-'] {
        let e = key_run_end(t, k, end);
        if k < e && e + 1 < end && t[e] == ':' {
            Some((t.subrange(k, e), trim(t.subrange(e + 1, end))))
        } else {
            None
        }
    } else {
        None
    }
}

/// The first directive that starts at `p` or later, in the line that ends at `end`.
pub open spec fn first_directive(t: Seq<char>, p: int, end: int) -> Option<DirectiveModel>
    decreases end - p,
{
    if p >= end {
        None
    } else if directive_at(t, p, end) is Some {
        directive_at(t, p, end)
    } else {
        first_directive(t, p + 1, end)
    }
}

/// The index of the first newline at or after `i`, or the length of `t`.
pub open spec fn line_end(t: Seq<char>, i: int) -> int
    decreases t.len() - i,
{
    if i < 0 || i >= t.len() {
        t.len() as int
    } else if t[i] == '\n' {
        i
    } else {
        line_end(t, i + 1)
    }
}

/// The directives of the lines of `t` from the line that starts at `i` on, in order.
pub open spec fn directives_from(t: Seq<char>, i: int) -> Seq<DirectiveModel>
    decreases t.len() - i,
{
    let e = line_end(t, i);
    let here = match first_directive(t, i, e) {
        Some(d) => seq![d],
        None => Seq::empty(),
    };
    if i <= e < t.len() {
        here + directives_from(t, e + 1)
    } else {
        here
    }
}

/// The directives of a document, in the order they occur.
pub open spec fn directives(t: Seq<char>) -> Seq<DirectiveModel> {
    directives_from(t, 0)
}

proof fn lemma_line_end(t: Seq<char>, i: int)
    requires
        0 <= i <= t.len(),
    ensures
        i <= line_end(t, i) <= t.len(),
        line_end(t, i) < t.len() ==> t[line_end(t, i)] == '\n',
    decreases t.len() - i,
{
    if i < t.len() && t[i] != '\n' {
        lemma_line_end(t, i + 1);
    }
}

proof fn lemma_key_run_end(t: Seq<char>, i: int, end: int)
    requires
        0 <= i <= end <= t.len(),
    ensures
        i <= key_run_end(t, i, end) <= end,
    decreases end - i,
{
    if i < end && is_key_char(t[i]) {
        lemma_key_run_end(t, i + 1, end);
    }
}

fn is_key_character(c: char) -> (r: bool)
    ensures
        r == is_key_char(c),
{
    ('a' <= c && c <= 'z') || ('A' <= c && c <= 'Z') || ('0' <= c && c <= '9') || c == '_'
        || c == '-'
}

/// The index of the first newline of `v` at or after `i`, or its length.
fn find_line_end(v: &Vec<char>, i: usize) -> (r: usize)
    requires
        i <= v.len(),
    ensures
        r == line_end(v@, i as int),
{
    let mut j = i;
    while j < v.len() && v[j] != '\n'
        invariant
            i <= j <= v.len(),
            line_end(v@, i as int) == line_end(v@, j as int),
        decreases v.len() - j,
    {
        j = j + 1;
    }
    j
}

/// The directive whose `ssg-` starts at `p`, as the positions of its key and
/// of its trimmed value.
fn directive_at_exec(v: &Vec<char>, p: usize, end: usize) -> (r: Option<(usize, usize, usize, usize)>)
    requires
        p < end <= v.len(),
    ensures
        match r {
            Some((k0, k1, v0, v1)) => {
                &&& k0 <= k1 <= v0 <= v1 <= end
                &&& directive_at(v@, p as int, end as int) == Some(
                    (v@.subrange(k0 as int, k1 as int), v@.subrange(v0 as int, v1 as int)),
                )
            },
            None => directive_at(v@, p as int, end as int) is None,
        },
{
    if end - p < 4 {
        return None;
    }
    let k = p + 4;
    if !(v[p] == 's' && v[p + 1] == 's' && v[p + 2] == 'g' && v[p + 3] == '-') {
        assert(v@.subrange(p as int, k as int)[1] == v@[p + 1]);
        assert(v@.subrange(p as int, k as int)[2] == v@[p + 2]);
        assert(v@.subrange(p as int, k as int)[3] == v@[p + 3]);
        assert(v@.subrange(p as int, k as int) != seq!['s', 's', 'g', '-']);
        return None;
    }
    assert(v@.subrange(p as int, k as int) =~= seq!['s', 's', 'g', '-']);
    let mut e = k;
    while e < end && is_key_character(v[e])
        invariant
            k <= e <= end <= v.len(),
            key_run_end(v@, k as int, end as int) == key_run_end(v@, e as int, end as int),
        decreases end - e,
    {
        e = e + 1;
    }
    if k < e && e < end - 1 && v[e] == ':' {
        let (lo, hi) = trim_bounds(v, e + 1, end);
        Some((k, e, lo, hi))
    } else {
        None
    }
}

/// The first directive in the line `start..end` of `v`, as positions.
fn first_directive_exec(v: &Vec<char>, start: usize, end: usize) -> (r: Option<(usize, usize, usize, usize)>)
    requires
        start <= end <= v.len(),
    ensures
        match r {
            Some((k0, k1, v0, v1)) => {
                &&& k0 <= k1 <= v0 <= v1 <= end
                &&& first_directive(v@, start as int, end as int) == Some(
                    (v@.subrange(k0 as int, k1 as int), v@.subrange(v0 as int, v1 as int)),
                )
            },
            None => first_directive(v@, start as int, end as int) is None,
        },
{
    let mut p = start;
    while p < end
        invariant
            start <= p <= end <= v.len(),
            first_directive(v@, start as int, end as int) == first_directive(
                v@,
                p as int,
                end as int,
            ),
        decreases end - p,
    {
        let d = directive_at_exec(v, p, end);
        if d.is_some() {
            return d;
        }
        p = p + 1;
    }
    None
}


/// The end of a tag's text in `v` that starts at `i`: the next `#` or `,`.
pub open spec fn tag_text_end(v: Seq<char>, i: int) -> int
    decreases v.len() - i,
{
    if 0 <= i < v.len() && v[i] != '#' && v[i] != ',' {
        tag_text_end(v, i + 1)
    } else {
        i
    }
}

/// The tags of `v` from position `i` on: each `#` followed by text up to the
/// next `#` or `,` gives one tag, that text trimmed.
pub open spec fn tags_from(v: Seq<char>, i: int) -> Seq<Seq<char>>
    decreases v.len() - i,
{
    if i < 0 || i >= v.len() {
        Seq::empty()
    } else if v[i] == '#' {
        let e = tag_text_end(v, i + 1);
        if i + 1 < e <= v.len() {
            seq![trim(v.subrange(i + 1, e))] + tags_from(v, e)
        } else {
            tags_from(v, i + 1)
        }
    } else {
        tags_from(v, i + 1)
    }
}

/// The tags listed in the value of a `tags` directive, in order.
pub open spec fn tags_of(v: Seq<char>) -> Seq<Seq<char>> {
    tags_from(v, 0)
}

proof fn lemma_tag_text_end(v: Seq<char>, i: int)
    requires
        0 <= i <= v.len(),
    ensures
        i <= tag_text_end(v, i) <= v.len(),
    decreases v.len() - i,
{
    if i < v.len() && v[i] != '#' && v[i] != ',' {
        lemma_tag_text_end(v, i + 1);
    }
}

/// Parses the value of a `tags` directive: `#a, #b #c` gives `a`, `b`, `c`.
pub fn parse_tags(value: &str) -> (r: Vec<String>)
    ensures
        strings_view(r@) == tags_of(value@),
{
    let v = chars_of(value);
    let mut out: Vec<String> = Vec::new();
    let mut i: usize = 0;
    while i < v.len()
        invariant
            v@ == value@,
            i <= v.len(),
            strings_view(out@) + tags_from(v@, i as int) == tags_of(v@),
        decreases v.len() - i,
    {
        if v[i] == '#' {
            let mut e = i + 1;
            while e < v.len() && v[e] != '#' && v[e] != ','
                invariant
                    i < e <= v.len(),
                    tag_text_end(v@, (i + 1) as int) == tag_text_end(v@, e as int),
                decreases v.len() - e,
            {
                e = e + 1;
            }
            if i + 1 < e {
                let (lo, hi) = trim_bounds(&v, i + 1, e);
                let tag = substring(value, lo, hi);
                proof {
                    let old_out = strings_view(out@);
                    assert(strings_view(out@.push(tag)) =~= old_out.push(tag@));
                    assert(seq![tag@] + tags_from(v@, e as int) == tags_from(v@, i as int));
                    assert(old_out.push(tag@) + tags_from(v@, e as int) =~= old_out + (seq![tag@]
                        + tags_from(v@, e as int)));
                }
                out.push(tag);
                i = e;
            } else {
                i = i + 1;
            }
        } else {
            i = i + 1;
        }
    }
    assert(strings_view(out@) =~= strings_view(out@) + tags_from(v@, i as int));
    out
}


pub open spec fn is_digit(c: char) -> bool {
    '0' <= c && c <= '9'
}

/// The value of a sequence of decimal digits.
pub open spec fn digits_value(s: Seq<char>) -> int
    decreases s.len(),
{
    if s.len() == 0 {
        0
    } else {
        10 * digits_value(s.drop_last()) + (s.last() as int - '0' as int)
    }
}

pub open spec fn all_digits(s: Seq<char>) -> bool {
    s.len() > 0 && forall|i: int| 0 <= i < s.len() ==> is_digit(s[i])
}

/// The integer that `s` writes in decimal: an optional sign, then digits.
pub open spec fn parsed_int(s: Seq<char>) -> Option<int> {
    if s.len() > 0 && (s[0] == '-' || s[0] == '+') {
        if all_digits(s.drop_first()) {
            Some(
                if s[0] == '-' {
                    -digits_value(s.drop_first())
                } else {
                    digits_value(s.drop_first())
                },
            )
        } else {
            None
        }
    } else if all_digits(s) {
        Some(digits_value(s))
    } else {
        None
    }
}

/// The `i64` that `s` writes in decimal, where it fits.
pub open spec fn parsed_i64(s: Seq<char>) -> Option<i64> {
    match parsed_int(s) {
        Some(n) => if i64::MIN <= n <= i64::MAX {
            Some(n as i64)
        } else {
            None
        },
        None => None,
    }
}

proof fn lemma_digits_step(v: Seq<char>, from: int, i: int)
    requires
        0 <= from <= i < v.len(),
    ensures
        digits_value(v.subrange(from, i + 1)) == 10 * digits_value(v.subrange(from, i)) + (v[i] as int
            - '0' as int),
{
    assert(v.subrange(from, i + 1).drop_last() =~= v.subrange(from, i));
}

proof fn lemma_digits_nonneg(s: Seq<char>)
    requires
        forall|i: int| 0 <= i < s.len() ==> is_digit(s[i]),
    ensures
        digits_value(s) >= 0,
    decreases s.len(),
{
    if s.len() > 0 {
        lemma_digits_nonneg(s.drop_last());
    }
}

/// Parses a decimal `i64`: an optional `+` or `-`, then one or more digits,
/// as `str::parse::<i64>` accepts them.
pub fn parse_i64(s: &str) -> (r: Option<i64>)
    ensures
        r == parsed_i64(s@),
{
    let v = chars_of(s);
    let n = v.len();
    if n == 0 {
        return None;
    }
    let neg = v[0] == '-';
    let start: usize = if v[0] == '-' || v[0] == '+' {
        1
    } else {
        0
    };
    if start == n {
        return None;
    }
    let ghost digits = v@.subrange(start as int, n as int);
    proof {
        if start == 1 {
            assert(s@.drop_first() =~= digits);
        } else {
            assert(s@ =~= digits);
        }
    }
    let limit: u128 = 0x8000_0000_0000_0000;
    let mut acc: u128 = 0;
    let mut big = false;
    let mut i = start;
    assert(v@.subrange(start as int, start as int) =~= Seq::<char>::empty());
    while i < n
        invariant
            v@ == s@,
            start <= i <= n == v.len(),
            n > 0,
            start <= 1,
            digits == v@.subrange(start as int, n as int),
            neg == (v@[0] == '-'),
            start == 1 ==> (v@[0] == '-' || v@[0] == '+') && s@.drop_first() == digits,
            start == 0 ==> !(v@[0] == '-' || v@[0] == '+') && s@ == digits,
            acc <= limit,
            limit == 0x8000_0000_0000_0000u128,
            forall|j: int| start <= j < i ==> is_digit(v@[j]),
            !big ==> acc == digits_value(v@.subrange(start as int, i as int)),
            big ==> digits_value(v@.subrange(start as int, i as int)) > limit,
        decreases n - i,
    {
        let c = v[i];
        if !('0' <= c && c <= '9') {
            assert(digits[i - start] == v@[i as int]);
            assert(!is_digit(digits[i - start]));
            assert(!all_digits(digits));
            return None;
        }
        let dv = (c as u32 - '0' as u32) as u128;
        proof {
            lemma_digits_step(v@, start as int, i as int);
            lemma_digits_nonneg(v@.subrange(start as int, i as int));
        }
        if !big {
            let next = acc * 10 + dv;
            if next > limit {
                big = true;
            } else {
                acc = next;
            }
        }
        i = i + 1;
    }
    assert(digits =~= v@.subrange(start as int, i as int));
    if big {
        None
    } else if neg {
        Some((0 - (acc as i128)) as i64)
    } else if acc < limit {
        Some(acc as i64)
    } else {
        None
    }
}

/// Extracted metadata of a document.
pub struct Metadata {
    pub title: String,
    pub tags: Vec<String>,
    pub created_at: i64,
    pub modified_at: i64,
}

pub struct MetadataModel {
    pub title: Seq<char>,
    pub tags: Seq<Seq<char>>,
    pub created_at: i64,
    pub modified_at: i64,
}

impl View for Metadata {
    type V = MetadataModel;

    open spec fn view(&self) -> MetadataModel {
        MetadataModel {
            title: self.title@,
            tags: strings_view(self.tags@),
            created_at: self.created_at,
            modified_at: self.modified_at,
        }
    }
}

/// A directive's timestamp value that is not an integer.
pub enum DirectiveError {
    InvalidTimestamp(String),
}

/// The effect of one directive on the metadata; `None` where a timestamp
/// value is not an integer.
pub open spec fn apply_directive(m: MetadataModel, d: DirectiveModel) -> Option<MetadataModel> {
    let key = d.0;
    let value = d.1;
    if key == "tags"@ {
        Some(MetadataModel { tags: tags_of(value), ..m })
    } else if key == "title"@ {
        Some(MetadataModel { title: value, ..m })
    } else if key == "created-at"@ {
        match parsed_i64(value) {
            Some(n) => Some(MetadataModel { created_at: n, modified_at: n, ..m }),
            None => None,
        }
    } else if key == "modified-at"@ {
        match parsed_i64(value) {
            Some(n) => Some(MetadataModel { modified_at: n, ..m }),
            None => None,
        }
    } else {
        Some(m)
    }
}

/// The directives `ds` applied in order to `m`, stopping at the first failure.
pub open spec fn apply_all(ds: Seq<DirectiveModel>, m: MetadataModel) -> Option<MetadataModel>
    decreases ds.len(),
{
    if ds.len() == 0 {
        Some(m)
    } else {
        match apply_directive(m, ds[0]) {
            Some(m2) => apply_all(ds.drop_first(), m2),
            None => None,
        }
    }
}

/// The metadata before any directive: the fallbacks.
pub open spec fn defaults(fallback_title: Seq<char>, created_at: i64, modified_at: i64) -> MetadataModel {
    MetadataModel {
        title: fallback_title,
        tags: Seq::empty(),
        created_at,
        modified_at,
    }
}

/// The metadata of document `raw`: its directives applied to the fallbacks.
pub open spec fn extracted(
    raw: Seq<char>,
    fallback_title: Seq<char>,
    created_at: i64,
    modified_at: i64,
) -> Option<MetadataModel> {
    apply_all(directives(raw), defaults(fallback_title, created_at, modified_at))
}

fn apply_directive_exec(meta: &mut Metadata, key: &str, value: &str) -> (ok: bool)
    ensures
        ok == apply_directive(old(meta)@, (key@, value@)) is Some,
        ok ==> apply_directive(old(meta)@, (key@, value@)) == Some(final(meta)@),
{
    if same_chars(key, "tags") {
        meta.tags = parse_tags(value);
        true
    } else if same_chars(key, "title") {
        meta.title = String::from_str(value);
        true
    } else if same_chars(key, "created-at") {
        match parse_i64(value) {
            Some(n) => {
                meta.created_at = n;
                meta.modified_at = n;
                true
            },
            None => false,
        }
    } else if same_chars(key, "modified-at") {
        match parse_i64(value) {
            Some(n) => {
                meta.modified_at = n;
                true
            },
            None => false,
        }
    } else {
        true
    }
}

proof fn lemma_apply_prefix(d: DirectiveModel, rest: Seq<DirectiveModel>, m: MetadataModel)
    ensures
        apply_all(seq![d] + rest, m) == match apply_directive(m, d) {
            Some(m2) => apply_all(rest, m2),
            None => None,
        },
        apply_all(Seq::<DirectiveModel>::empty() + rest, m) == apply_all(rest, m),
{
    assert((seq![d] + rest).drop_first() =~= rest);
    assert(Seq::<DirectiveModel>::empty() + rest =~= rest);
}

/// Extracts a document's metadata: its directives applied in order to the
/// fallback title and filesystem timestamps. Fails exactly where a
/// `created-at` or `modified-at` value is not an integer.
pub fn extract(raw: &str, fallback_title: &str, fs_created_at: i64, fs_modified_at: i64) -> (r:
    Result<Metadata, DirectiveError>)
    ensures
        match r {
            Ok(m) => extracted(raw@, fallback_title@, fs_created_at, fs_modified_at) == Some(m@),
            Err(_) => extracted(raw@, fallback_title@, fs_created_at, fs_modified_at) is None,
        },
{
    let v = chars_of(raw);
    let mut meta = Metadata {
        title: String::from_str(fallback_title),
        tags: Vec::new(),
        created_at: fs_created_at,
        modified_at: fs_modified_at,
    };
    assert(strings_view(meta.tags@) =~= Seq::<Seq<char>>::empty());
    assert(meta@ == defaults(fallback_title@, fs_created_at, fs_modified_at));
    let ghost target = extracted(raw@, fallback_title@, fs_created_at, fs_modified_at);
    let mut i: usize = 0;
    let mut done = false;
    while !done
        invariant
            v@ == raw@,
            i <= v.len(),
            target == extracted(raw@, fallback_title@, fs_created_at, fs_modified_at),
            done ==> target == Some(meta@),
            !done ==> target == apply_all(directives_from(v@, i as int), meta@),
        decreases v.len() - i + (if done { 0int } else { 1int }),
    {
        let e = find_line_end(&v, i);
        proof {
            lemma_line_end(v@, i as int);
        }
        let ghost rest = if e < v.len() {
            directives_from(v@, e + 1)
        } else {
            Seq::empty()
        };
        proof {
            assert(directives_from(v@, i as int) == match first_directive(v@, i as int, e as int) {
                Some(d) => seq![d],
                None => Seq::empty(),
            } + rest) by {
                if e >= v.len() {
                    let here = match first_directive(v@, i as int, e as int) {
                        Some(d) => seq![d],
                        None => Seq::<DirectiveModel>::empty(),
                    };
                    assert(here + rest =~= here);
                }
            }
        }
        match first_directive_exec(&v, i, e) {
            Some((k0, k1, v0, v1)) => {
                let key = substring(raw, k0, k1);
                let value = substring(raw, v0, v1);
                proof {
                    lemma_apply_prefix((key@, value@), rest, meta@);
                }
                if !apply_directive_exec(&mut meta, key.as_str(), value.as_str()) {
                    return Err(DirectiveError::InvalidTimestamp(value));
                }
            },
            None => {
                proof {
                    lemma_apply_prefix((Seq::empty(), Seq::empty()), rest, meta@);
                }
            },
        }
        if e < v.len() {
            i = e + 1;
        } else {
            done = true;
            assert(apply_all(Seq::<DirectiveModel>::empty(), meta@) == Some(meta@));
        }
    }
    Ok(meta)
}


/// The value of the last directive of `ds` whose key is in `keys`.
pub open spec fn last_value(ds: Seq<DirectiveModel>, keys: Set<Seq<char>>) -> Option<Seq<char>>
    decreases ds.len(),
{
    if ds.len() == 0 {
        None
    } else {
        match last_value(ds.drop_first(), keys) {
            Some(v) => Some(v),
            None => if keys.contains(ds[0].0) {
                Some(ds[0].1)
            } else {
                None
            },
        }
    }
}

/// Later directives win. Where every timestamp value parses, the title is the
/// value of the last `title` directive, the tags those of the last `tags`
/// directive, `created_at` the value of the last `created-at` directive, and
/// `modified_at` the value of whichever of `created-at` and `modified-at`
/// comes last; each keeps its value in `m` where no such directive exists.
pub proof fn lemma_last_directive_wins(ds: Seq<DirectiveModel>, m: MetadataModel)
    requires
        apply_all(ds, m) is Some,
    ensures
        apply_all(ds, m)->0.title == match last_value(ds, set!["title"@]) {
            Some(v) => v,
            None => m.title,
        },
        apply_all(ds, m)->0.tags == match last_value(ds, set!["tags"@]) {
            Some(v) => tags_of(v),
            None => m.tags,
        },
        Some(apply_all(ds, m)->0.created_at) == match last_value(ds, set!["created-at"@]) {
            Some(v) => parsed_i64(v),
            None => Some(m.created_at),
        },
        Some(apply_all(ds, m)->0.modified_at) == match last_value(
            ds,
            set!["created-at"@, "modified-at"@],
        ) {
            Some(v) => parsed_i64(v),
            None => Some(m.modified_at),
        },
    decreases ds.len(),
{
    reveal_strlit("title");
    reveal_strlit("tags");
    reveal_strlit("created-at");
    reveal_strlit("modified-at");
    if ds.len() > 0 {
        let m2 = apply_directive(m, ds[0])->0;
        lemma_last_directive_wins(ds.drop_first(), m2);
        assert("title"@ != "tags"@ && "title"@.len() != "created-at"@.len() && "title"@.len()
            != "modified-at"@.len() && "tags"@.len() != "created-at"@.len() && "tags"@.len()
            != "modified-at"@.len() && "created-at"@.len() != "modified-at"@.len()) by {
            assert("title"@[1] != "tags"@[1]);
        }
    }
}

} // verus!
