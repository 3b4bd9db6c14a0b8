//! Parsing one note: the frontmatter between `---` lines, the week tags and
//! plain tags in it, and the `[[wiki links]]` of the body.
//!
//! A note looks like
//! ```text
//! ---
//! id: abalone
//! aliases: []
//! tags:
//!   - modified/2026-W02
//! ---
//! # abalone
//! [[oyster]]
//! ```
use std::path::PathBuf;

use vstd::prelude::*;

use crate::text::{
    chars_of, copy_range, insert_unique_str, string_of, strictly_sorted_strs, trim, trim_bounds, trim_end,
    trim_end_bounds,
};
use crate::week::{parse_weeks, scan_weeks, strictly_sorted_weeks, Week};

verus! {

/// `std::path::PathBuf`, carried through unchanged (the library never looks inside).
#[verifier::external_type_specification]
#[verifier::external_body]
pub struct ExPathBuf(PathBuf);

// ------------------------------------------------------------------ frontmatter

/// `s` with one leading byte-order mark removed.
pub open spec fn strip_bom(s: Seq<char>) -> Seq<char> {
    if s.len() > 0 && s[0] == '\u{feff}' {
        s.drop_first()
    } else {
        s
    }
}

/// Length of the opening `---\n` or `---\r\n` line at the start of `t`, or 0.
pub open spec fn open_len(t: Seq<char>) -> int {
    if t.len() >= 4 && t.take(4) == seq!['-', '-', '-', '\n'] {
        4
    } else if t.len() >= 5 && t.take(5) == seq!['-', '-', '-', '\r', '\n'] {
        5
    } else {
        0
    }
}

/// Index of the first `'\n'` at or after `i`, or `s.len()`.
pub open spec fn next_nl(s: Seq<char>, i: int) -> int
    decreases s.len() - i,
{
    if i < 0 || i >= s.len() {
        s.len() as int
    } else if s[i] == '\n' {
        i
    } else {
        next_nl(s, i + 1)
    }
}

pub proof fn lemma_next_nl(s: Seq<char>, i: int)
    requires
        0 <= i <= s.len(),
    ensures
        i <= next_nl(s, i) <= s.len(),
        forall|k: int| i <= k < next_nl(s, i) ==> #[trigger] s[k] != '\n',
        next_nl(s, i) < s.len() ==> s[next_nl(s, i)] == '\n',
    decreases s.len() - i,
{
    if i < s.len() && s[i] != '\n' {
        lemma_next_nl(s, i + 1);
    }
}

/// End of the line starting at `i`, its `'\n'` included (`split_inclusive`).
pub open spec fn line_end(s: Seq<char>, i: int) -> int {
    if next_nl(s, i) < s.len() {
        next_nl(s, i) + 1
    } else {
        s.len() as int
    }
}

/// Start of the first line at or after `i` (lines starting at line starts)
/// that reads `---` once trailing whitespace is dropped.
pub open spec fn find_close(s: Seq<char>, i: int) -> Option<int>
    decreases s.len() - i,
{
    if i < 0 || i >= s.len() {
        None
    } else {
        proof {
            lemma_next_nl(s, i);
        }
        if trim_end(s.subrange(i, line_end(s, i))) == seq!['-', '-', '-'] {
            Some(i)
        } else {
            find_close(s, line_end(s, i))
        }
    }
}

/// `(frontmatter, body)` of a note. A note without a frontmatter block (no
/// opening `---` line, or no closing one) has an empty frontmatter and its
/// whole text, without a byte-order mark, as body.
pub open spec fn frontmatter_split(text: Seq<char>) -> (Seq<char>, Seq<char>) {
    let t = strip_bom(text);
    let o = open_len(t);
    if o == 0 {
        (seq![], t)
    } else {
        let rest = t.skip(o);
        match find_close(rest, 0) {
            Some(c) => (rest.take(c), rest.skip(line_end(rest, c))),
            None => (seq![], t),
        }
    }
}

fn is_dashes_line(s: &Vec<char>, lo: usize, hi: usize) -> (r: bool)
    requires
        lo <= hi <= s.len(),
    ensures
        r == (trim_end(s@.subrange(lo as int, hi as int)) == seq!['-', '-', '-']),
{
    let e = trim_end_bounds(s, lo, hi);
    if e - lo == 3 && s[lo] == '-' && s[lo + 1] == '-' && s[lo + 2] == '-' {
        assert(s@.subrange(lo as int, e as int) =~= seq!['-', '-', '-']);
        true
    } else {
        proof {
            if s@.subrange(lo as int, e as int) == seq!['-', '-', '-'] {
                assert(s@.subrange(lo as int, e as int).len() == 3);
                assert(s@.subrange(lo as int, e as int)[0] == s@[lo as int]);
                assert(s@.subrange(lo as int, e as int)[1] == s@[lo + 1]);
                assert(s@.subrange(lo as int, e as int)[2] == s@[lo + 2]);
            }
        }
        false
    }
}

/// Index of the first `'\n'` at or after `i`.
pub(crate) fn find_nl(s: &Vec<char>, i: usize) -> (r: usize)
    requires
        i <= s.len(),
    ensures
        r == next_nl(s@, i as int),
{
    let mut k = i;
    while k < s.len() && s[k] != '\n'
        invariant
            i <= k <= s.len(),
            next_nl(s@, k as int) == next_nl(s@, i as int),
        decreases s.len() - k,
    {
        k = k + 1;
    }
    k
}

/// `p` starts a line of `s`.
pub open spec fn line_start(s: Seq<char>, p: int) -> bool {
    p == 0 || (0 < p <= s.len() && s[p - 1] == '\n')
}

/// The scan for a closing line, started at a line start `i`, passes over
/// no line that reads `---`, and stops at a line start.
proof fn lemma_no_dashes_before_close(s: Seq<char>, i: int, c: int)
    requires
        0 <= i <= s.len(),
        line_start(s, i),
        find_close(s, i) == Some(c),
    ensures
        i <= c < s.len(),
        line_start(s, c),
        trim_end(s.subrange(c, line_end(s, c))) == seq!['-', '-', '-'],
        forall|p: int|
            i <= p < c && line_start(s, p) ==> #[trigger] trim_end(s.subrange(p, line_end(s, p)))
                != seq!['-', '-', '-'],
    decreases s.len() - i,
{
    lemma_next_nl(s, i);
    if trim_end(s.subrange(i, line_end(s, i))) != seq!['-', '-', '-'] {
        let j = line_end(s, i);
        assert(next_nl(s, i) < s.len()) by {
            if next_nl(s, i) >= s.len() {
                assert(find_close(s, j) is None);
            }
        }
        lemma_no_dashes_before_close(s, j, c);
        assert forall|p: int| i <= p < c && line_start(s, p) implies #[trigger] trim_end(
            s.subrange(p, line_end(s, p)),
        ) != seq!['-', '-', '-'] by {
            if i < p < j {
                assert(s[p - 1] != '\n');
            }
        }
    }
}

/// Within the first `c` characters of `s`, where `c` starts a line, a line
/// reads the same in `s` and in `s.take(c)`.
proof fn lemma_line_in_prefix(s: Seq<char>, c: int, p: int)
    requires
        0 <= p < c <= s.len(),
        s[c - 1] == '\n',
    ensures
        trim_end(s.take(c).subrange(p, next_nl(s.take(c), p))) == trim_end(s.subrange(p, line_end(s, p))),
{
    let f = s.take(c);
    lemma_next_nl(s, p);
    lemma_next_nl(f, p);
    let a = next_nl(s, p);
    let b = next_nl(f, p);
    assert(a < c) by {
        if a >= c {
            assert(s[c - 1] != '\n');
        }
    }
    assert(a == b) by {
        if b < a {
            assert(f[b] == s[b]);
        }
        if a < b {
            assert(f[a] == s[a]);
        }
    }
    let line = f.subrange(p, b);
    assert(s.subrange(p, line_end(s, p)) =~= line.push('\n'));
    assert(line.push('\n').drop_last() =~= line);
}

/// A frontmatter ends at its first closing line: the text (without a
/// byte-order mark) is the opening `---` line, the frontmatter, one closing
/// line that reads `---`, and the body; and no line of the frontmatter
/// reads `---`, so a `---` line further down (a rule in the body) stays in
/// the body.
pub proof fn lemma_frontmatter_stops_at_first_closing(text: Seq<char>)
    ensures
        ({
            let t = strip_bom(text);
            let (front, body) = frontmatter_split(text);
            body.len() < t.len() ==> {
                &&& forall|p: int|
                    0 <= p < front.len() && line_start(front, p) ==> #[trigger] trim_end(
                        front.subrange(p, next_nl(front, p)),
                    ) != seq!['-', '-', '-']
                &&& {
                    let o = open_len(t);
                    let cs = o + front.len();
                    let ce = t.len() - body.len();
                    &&& t.take(o) == seq!['-', '-', '-', '\n'] || t.take(o) == seq!['-', '-', '-', '\r', '\n']
                    &&& o <= cs < ce <= t.len()
                    &&& t.subrange(o, cs) == front
                    &&& t.skip(ce) == body
                    &&& trim_end(t.subrange(cs, ce)) == seq!['-', '-', '-']
                    &&& forall|m: int| cs <= m < ce - 1 ==> #[trigger] t[m] != '\n'
                }
            }
        }),
{
    let t = strip_bom(text);
    let o = open_len(t);
    let (front, body) = frontmatter_split(text);
    if o != 0 {
        let rest = t.skip(o);
        if let Some(c) = find_close(rest, 0) {
            lemma_no_dashes_before_close(rest, 0, c);
            let le = line_end(rest, c);
            lemma_next_nl(rest, c);
            assert(front == rest.take(c));
            assert(body == rest.skip(le));
            assert forall|p: int| 0 <= p < front.len() && line_start(front, p) implies #[trigger] trim_end(
                front.subrange(p, next_nl(front, p)),
            ) != seq!['-', '-', '-'] by {
                assert(rest[c - 1] == '\n');
                lemma_line_in_prefix(rest, c, p);
                assert(line_start(rest, p));
            }
            let cs = o + front.len();
            let ce = t.len() - body.len();
            assert(ce == o + le);
            assert(t.subrange(cs, ce) =~= rest.subrange(c, le));
            assert(t.subrange(o, cs) =~= front);
            assert(t.skip(ce) =~= body);
            assert forall|m: int| cs <= m < ce - 1 implies #[trigger] t[m] != '\n' by {
                assert(t[m] == rest[m - o]);
            }
        }
    }
}

/// Splits a note's text into its frontmatter and its body.
pub fn split_frontmatter(text: &Vec<char>) -> (out: (Vec<char>, Vec<char>))
    ensures
        (out.0@, out.1@) == frontmatter_split(text@),
{
    let start: usize = if text.len() > 0 && text[0] == '\u{feff}' {
        1
    } else {
        0
    };
    let ghost t = strip_bom(text@);
    assert(t =~= text@.skip(start as int));
    let n = text.len();
    let o: usize = if n - start >= 4 && text[start] == '-' && text[start + 1] == '-' && text[start
        + 2] == '-' && text[start + 3] == '\n' {
        assert(t.take(4) =~= seq!['-', '-', '-', '\n']);
        4
    } else if n - start >= 5 && text[start] == '-' && text[start + 1] == '-' && text[start + 2]
        == '-' && text[start + 3] == '\r' && text[start + 4] == '\n' {
        assert(t.take(5) =~= seq!['-', '-', '-', '\r', '\n']);
        proof {
            if t.len() >= 4 && t.take(4) == seq!['-', '-', '-', '\n'] {
                assert(t.take(4)[3] == t[3]);
            }
        }
        5
    } else {
        proof {
            if t.len() >= 4 && t.take(4) == seq!['-', '-', '-', '\n'] {
                assert(t.take(4)[0] == t[0]);
                assert(t.take(4)[1] == t[1]);
                assert(t.take(4)[2] == t[2]);
                assert(t.take(4)[3] == t[3]);
            }
            if t.len() >= 5 && t.take(5) == seq!['-', '-', '-', '\r', '\n'] {
                assert(t.take(5)[0] == t[0]);
                assert(t.take(5)[1] == t[1]);
                assert(t.take(5)[2] == t[2]);
                assert(t.take(5)[3] == t[3]);
                assert(t.take(5)[4] == t[4]);
            }
        }
        0
    };
    if o == 0 {
        return (Vec::new(), copy_range(text, start, n));
    }
    let base = start + o;
    let ghost rest = t.skip(o as int);
    assert(rest =~= text@.subrange(base as int, n as int));
    // walk the lines of `rest`, which begins at `base` in `text`
    let mut i = base;
    while i < n
        invariant
            base <= i <= n,
            n == text.len(),
            rest == text@.subrange(base as int, n as int),
            find_close(rest, 0) == find_close(rest, i - base),
            t == strip_bom(text@),
            t == text@.skip(start as int),
            open_len(t) == o as int,
            o > 0,
            base == start + o,
            rest == t.skip(o as int),
        decreases n - i,
    {
        let k = find_nl(text, i);
        let e = if k < n {
            k + 1
        } else {
            n
        };
        proof {
            lemma_next_nl(text@, i as int);
            lemma_next_nl(rest, i - base);
            assert forall|m: int| i - base <= m < rest.len() implies #[trigger] rest[m] == text@[m
                + base] by {}
            lemma_next_nl_shift(text@, base as int, i as int);
            assert(rest.subrange(i - base, line_end(rest, i - base)) =~= text@.subrange(
                i as int,
                e as int,
            ));
        }
        if is_dashes_line(text, i, e) {
            assert(find_close(rest, i - base) == Some(i - base));
            let front = copy_range(text, base, i);
            let body = copy_range(text, e, n);
            assert(front@ =~= rest.take(i - base));
            assert(body@ =~= rest.skip(line_end(rest, i - base)));
            return (front, body);
        }
        i = e;
    }
    (Vec::new(), copy_range(text, start, n))
}

/// Line ends do not depend on what precedes the line.
proof fn lemma_next_nl_shift(s: Seq<char>, base: int, i: int)
    requires
        0 <= base <= i <= s.len(),
    ensures
        next_nl(s.subrange(base, s.len() as int), i - base) == next_nl(s, i) - base,
    decreases s.len() - i,
{
    if i < s.len() && s[i] != '\n' {
        lemma_next_nl_shift(s, base, i + 1);
    }
}

// ------------------------------------------------------------------ tags

pub open spec fn is_quote(c: char) -> bool {
    c == '"' || c == '\''
}

/// `s.trim_matches(['"', '\''])`.
pub open spec fn strip_quotes_start(s: Seq<char>) -> Seq<char>
    decreases s.len(),
{
    if s.len() > 0 && is_quote(s[0]) {
        strip_quotes_start(s.drop_first())
    } else {
        s
    }
}

pub open spec fn strip_quotes_end(s: Seq<char>) -> Seq<char>
    decreases s.len(),
{
    if s.len() > 0 && is_quote(s.last()) {
        strip_quotes_end(s.drop_last())
    } else {
        s
    }
}

pub open spec fn strip_quotes(s: Seq<char>) -> Seq<char> {
    strip_quotes_end(strip_quotes_start(s))
}

/// The value of a list item once blanks and quotes around it are removed.
pub open spec fn clean_value(s: Seq<char>) -> Seq<char> {
    trim(strip_quotes(trim(s)))
}

pub open spec fn has_prefix(s: Seq<char>, p: Seq<char>) -> bool {
    s.len() >= p.len() && s.take(p.len() as int) == p
}

pub open spec fn modified_prefix() -> Seq<char> {
    seq!['m', 'o', 'd', 'i', 'f', 'i', 'e', 'd', '/']
}

/// The tag a frontmatter line contributes: a `- item` line whose item is not
/// empty and not a `modified/...` time tag.
pub open spec fn line_tag(line: Seq<char>) -> Seq<Seq<char>> {
    let t = trim(line);
    if has_prefix(t, seq!['-', ' ']) {
        let tag = clean_value(t.skip(2));
        if tag.len() > 0 && !has_prefix(tag, modified_prefix()) {
            seq![tag]
        } else {
            seq![]
        }
    } else {
        seq![]
    }
}

/// The tags of the lines of `s` from position `i` on (`str::lines`).
pub open spec fn tags_from(s: Seq<char>, i: int) -> Seq<Seq<char>>
    decreases s.len() + 1 - i,
{
    if i < 0 || i >= s.len() {
        seq![]
    } else {
        proof {
            lemma_next_nl(s, i);
        }
        line_tag(s.subrange(i, next_nl(s, i))) + tags_from(s, next_nl(s, i) + 1)
    }
}

pub(crate) fn strip_quotes_bounds(s: &Vec<char>, lo: usize, hi: usize) -> (r: (usize, usize))
    requires
        lo <= hi <= s.len(),
    ensures
        lo <= r.0 <= r.1 <= hi,
        s@.subrange(r.0 as int, r.1 as int) == strip_quotes(s@.subrange(lo as int, hi as int)),
{
    let mut i = lo;
    while i < hi && (s[i] == '"' || s[i] == '\'')
        invariant
            lo <= i <= hi <= s.len(),
            strip_quotes_start(s@.subrange(lo as int, hi as int)) == strip_quotes_start(
                s@.subrange(i as int, hi as int),
            ),
        decreases hi - i,
    {
        assert(s@.subrange(i as int, hi as int).drop_first() =~= s@.subrange(
            i + 1,
            hi as int,
        ));
        i = i + 1;
    }
    let mut j = hi;
    while j > i && (s[j - 1] == '"' || s[j - 1] == '\'')
        invariant
            lo <= i <= j <= hi <= s.len(),
            strip_quotes_end(s@.subrange(i as int, hi as int)) == strip_quotes_end(
                s@.subrange(i as int, j as int),
            ),
        decreases j - i,
    {
        assert(s@.subrange(i as int, j as int).drop_last() =~= s@.subrange(i as int, j - 1));
        j = j - 1;
    }
    (i, j)
}

fn has_modified_prefix(s: &Vec<char>, lo: usize, hi: usize) -> (r: bool)
    requires
        lo <= hi <= s.len(),
    ensures
        r == has_prefix(s@.subrange(lo as int, hi as int), modified_prefix()),
{
    let p = ['m', 'o', 'd', 'i', 'f', 'i', 'e', 'd', '/'];
    let ghost t = s@.subrange(lo as int, hi as int);
    assert(p@ =~= modified_prefix());
    if hi - lo < 9 {
        return false;
    }
    let mut k = 0usize;
    while k < 9
        invariant
            lo + 9 <= hi <= s.len(),
            k <= 9,
            t == s@.subrange(lo as int, hi as int),
            p@ == modified_prefix(),
            forall|m: int| 0 <= m < k ==> t[m] == p@[m],
        decreases 9 - k,
    {
        if s[lo + k] != p[k] {
            proof {
                if has_prefix(t, modified_prefix()) {
                    assert(t.take(9)[k as int] == t[k as int]);
                }
            }
            return false;
        }
        k = k + 1;
    }
    assert(t.take(9) =~= modified_prefix());
    true
}

/// The tag on the line `s[lo..hi]`, if it has one.
fn line_tag_exec(s: &Vec<char>, lo: usize, hi: usize) -> (r: Option<Vec<char>>)
    requires
        lo <= hi <= s.len(),
    ensures
        r is None ==> line_tag(s@.subrange(lo as int, hi as int)) == Seq::<Seq<char>>::empty(),
        r matches Some(v) ==> line_tag(s@.subrange(lo as int, hi as int)) == seq![v@],
{
    let ghost line = s@.subrange(lo as int, hi as int);
    let (a, b) = trim_bounds(s, lo, hi);
    let ghost t = trim(line);
    assert(t == s@.subrange(a as int, b as int));
    if b - a >= 2 && s[a] == '-' && s[a + 1] == ' ' {
        assert(t.take(2) =~= seq!['-', ' ']);
        assert(t.skip(2) =~= s@.subrange(a + 2, b as int));
        let (c, d) = trim_bounds(s, a + 2, b);
        let (e, f) = strip_quotes_bounds(s, c, d);
        let (g, h) = trim_bounds(s, e, f);
        let ghost tag = clean_value(t.skip(2));
        assert(tag == s@.subrange(g as int, h as int));
        if h > g && !has_modified_prefix(s, g, h) {
            let v = copy_range(s, g, h);
            Some(v)
        } else {
            None
        }
    } else {
        proof {
            if has_prefix(t, seq!['-', ' ']) {
                assert(t.take(2)[0] == t[0]);
                assert(t.take(2)[1] == t[1]);
            }
        }
        None
    }
}

/// The strings with the characters of each vector.
pub fn to_strings(v: Vec<Vec<char>>) -> (out: Vec<String>)
    ensures
        out@.map_values(|e: String| e@) == v@.map_values(|e: Vec<char>| e@),
{
    let mut out: Vec<String> = Vec::new();
    let mut i = 0usize;
    while i < v.len()
        invariant
            i <= v.len(),
            out.len() == i,
            forall|k: int| 0 <= k < i ==> (#[trigger] out@[k])@ == v@[k]@,
        decreases v.len() - i,
    {
        let s = string_of(v[i].as_slice());
        out.push(s);
        i = i + 1;
    }
    assert(out@.map_values(|e: String| e@) =~= v@.map_values(|e: Vec<char>| e@));
    out
}

proof fn lemma_concat_to_set<A>(a: Seq<A>, b: Seq<A>)
    ensures
        (a + b).to_set() == a.to_set().union(b.to_set()),
{
    assert forall|e: A| (a + b).to_set().contains(e) <==> a.to_set().union(b.to_set()).contains(e) by {
        if (a + b).to_set().contains(e) {
            let k = choose|k: int| 0 <= k < (a + b).len() && (a + b)[k] == e;
            if k < a.len() {
                assert(a[k] == e);
            } else {
                assert(b[k - a.len()] == e);
            }
        }
        if a.to_set().contains(e) {
            let k = choose|k: int| 0 <= k < a.len() && a[k] == e;
            assert((a + b)[k] == e);
        }
        if b.to_set().contains(e) {
            let k = choose|k: int| 0 <= k < b.len() && b[k] == e;
            assert((a + b)[k + a.len()] == e);
        }
    }
    assert((a + b).to_set() =~= a.to_set().union(b.to_set()));
}

/// The plain tags of a frontmatter: every `- item` line except `modified/...`
/// ones, with blanks and quotes around the item removed; sorted, each once.
pub fn parse_tags(front: &Vec<char>) -> (out: Vec<String>)
    ensures
        strictly_sorted_strs(out@.map_values(|e: String| e@)),
        out@.map_values(|e: String| e@).to_set() == tags_from(front@, 0).to_set(),
{
    let mut acc: Vec<Vec<char>> = Vec::new();
    let n = front.len();
    let mut i = 0usize;
    while i < n
        invariant
            i <= n,
            n == front.len(),
            strictly_sorted_strs(acc@.map_values(|e: Vec<char>| e@)),
            acc@.map_values(|e: Vec<char>| e@).to_set().union(tags_from(front@, i as int).to_set())
                == tags_from(front@, 0).to_set(),
        decreases n - i,
    {
        let k = find_nl(front, i);
        proof {
            lemma_next_nl(front@, i as int);
            lemma_concat_to_set(
                line_tag(front@.subrange(i as int, k as int)),
                tags_from(front@, k + 1),
            );
        }
        let ghost before = acc@.map_values(|e: Vec<char>| e@).to_set();
        match line_tag_exec(front, i, k) {
            Some(tag) => {
                let ghost tv = tag@;
                insert_unique_str(&mut acc, tag);
                assert(seq![tv].to_set() =~= Set::<Seq<char>>::empty().insert(tv)) by {
                    assert(seq![tv][0] == tv);
                }
            },
            None => {
                assert(Seq::<Seq<char>>::empty().to_set() =~= Set::<Seq<char>>::empty());
            },
        }
        if k < n {
            i = k + 1;
        } else {
            i = n;
            assert(tags_from(front@, k + 1) =~= Seq::<Seq<char>>::empty());
        }
        assert(acc@.map_values(|e: Vec<char>| e@).to_set().union(
            tags_from(front@, i as int).to_set(),
        ) =~= tags_from(front@, 0).to_set());
    }
    assert(tags_from(front@, i as int).to_set() =~= Set::<Seq<char>>::empty());
    assert(acc@.map_values(|e: Vec<char>| e@).to_set().union(Set::<Seq<char>>::empty())
        =~= acc@.map_values(|e: Vec<char>| e@).to_set());
    to_strings(acc)
}

// ------------------------------------------------------------------ links

/// First index `k >= i` with `s[k] == a` and `s[k + 1] == b`, or `s.len()`.
pub open spec fn find_pair(s: Seq<char>, a: char, b: char, i: int) -> int
    decreases s.len() - i,
{
    if i < 0 || i + 1 >= s.len() {
        s.len() as int
    } else if s[i] == a && s[i + 1] == b {
        i
    } else {
        find_pair(s, a, b, i + 1)
    }
}

pub proof fn lemma_find_pair(s: Seq<char>, a: char, b: char, i: int)
    requires
        0 <= i,
    ensures
        i <= find_pair(s, a, b, i) || find_pair(s, a, b, i) == s.len(),
        find_pair(s, a, b, i) <= s.len(),
        find_pair(s, a, b, i) < s.len() ==> find_pair(s, a, b, i) + 1 < s.len(),
    decreases s.len() - i,
{
    if i + 1 < s.len() && !(s[i] == a && s[i + 1] == b) {
        lemma_find_pair(s, a, b, i + 1);
    }
}

/// Index of the first `'|'` or `'#'` at or after `i`, or `s.len()`.
pub open spec fn sep_from(s: Seq<char>, i: int) -> int
    decreases s.len() - i,
{
    if i < 0 || i >= s.len() {
        s.len() as int
    } else if s[i] == '|' || s[i] == '#' {
        i
    } else {
        sep_from(s, i + 1)
    }
}

/// The target of a link `[[target|alias]]` / `[[target#section]]`.
pub open spec fn link_target(inner: Seq<char>) -> Seq<char> {
    trim(inner.take(sep_from(inner, 0)))
}

pub open spec fn link_ok(t: Seq<char>) -> bool {
    t.len() > 0 && !t.contains('\n')
}

/// The link targets of `s` from position `p` on: each `[[` is matched with
/// the next `]]`; scanning resumes after that `]]`.
pub open spec fn links_from(s: Seq<char>, p: int) -> Seq<Seq<char>>
    decreases s.len() + 2 - p,
{
    if p < 0 {
        seq![]
    } else {
        let a = find_pair(s, '[', '[', p);
        if a >= s.len() {
            seq![]
        } else {
            let b = find_pair(s, ']', ']', a + 2);
            proof {
                lemma_find_pair(s, '[', '[', p);
                lemma_find_pair(s, ']', ']', a + 2);
            }
            if b >= s.len() {
                seq![]
            } else {
                let t = link_target(s.subrange(a + 2, b));
                (if link_ok(t) {
                    seq![t]
                } else {
                    seq![]
                }) + links_from(s, b + 2)
            }
        }
    }
}

fn find_pair_exec(s: &Vec<char>, a: char, b: char, i: usize) -> (r: usize)
    requires
        i <= s.len(),
    ensures
        r == find_pair(s@, a, b, i as int),
{
    let n = s.len();
    let mut k = i;
    while k < n && k + 1 < n && !(s[k] == a && s[k + 1] == b)
        invariant
            i <= k <= n,
            n == s.len(),
            find_pair(s@, a, b, k as int) == find_pair(s@, a, b, i as int),
        decreases n - k,
    {
        k = k + 1;
    }
    if k < n && k + 1 < n {
        k
    } else {
        n
    }
}

/// The link target inside `s[lo..hi]`, if it is a usable one.
fn link_target_exec(s: &Vec<char>, lo: usize, hi: usize) -> (r: Option<Vec<char>>)
    requires
        lo <= hi <= s.len(),
    ensures
        r is None ==> !link_ok(link_target(s@.subrange(lo as int, hi as int))),
        r matches Some(v) ==> link_ok(link_target(s@.subrange(lo as int, hi as int))) && v@
            == link_target(s@.subrange(lo as int, hi as int)),
{
    let ghost inner = s@.subrange(lo as int, hi as int);
    let mut k = lo;
    while k < hi && s[k] != '|' && s[k] != '#'
        invariant
            lo <= k <= hi <= s.len(),
            inner == s@.subrange(lo as int, hi as int),
            sep_from(inner, k - lo) == sep_from(inner, 0),
        decreases hi - k,
    {
        k = k + 1;
    }
    assert(inner.take(sep_from(inner, 0)) =~= s@.subrange(lo as int, k as int));
    let (a, b) = trim_bounds(s, lo, k);
    let ghost t = link_target(inner);
    assert(t == s@.subrange(a as int, b as int));
    if a == b {
        return None;
    }
    let mut m = a;
    while m < b
        invariant
            a <= m <= b <= s.len(),
            t == s@.subrange(a as int, b as int),
            inner == s@.subrange(lo as int, hi as int),
            t == link_target(inner),
            forall|x: int| a <= x < m ==> s@[x] != '\n',
        decreases b - m,
    {
        if s[m] == '\n' {
            assert(t[m - a] == '\n');
            assert(t.contains('\n'));
            return None;
        }
        m = m + 1;
    }
    assert(!t.contains('\n')) by {
        if t.contains('\n') {
            let x = choose|x: int| 0 <= x < t.len() && t[x] == '\n';
            assert(s@[x + a] == '\n');
        }
    }
    Some(copy_range(s, a, b))
}

/// The targets of the `[[target]]`, `[[target|alias]]` and
/// `[[target#section]]` links of a body; sorted, each once.
pub fn parse_links(body: &Vec<char>) -> (out: Vec<String>)
    ensures
        strictly_sorted_strs(out@.map_values(|e: String| e@)),
        out@.map_values(|e: String| e@).to_set() == links_from(body@, 0).to_set(),
{
    let mut acc: Vec<Vec<char>> = Vec::new();
    let n = body.len();
    let mut p = 0usize;
    while p <= n
        invariant
            p <= n + 2,
            n == body.len(),
            strictly_sorted_strs(acc@.map_values(|e: Vec<char>| e@)),
            acc@.map_values(|e: Vec<char>| e@).to_set().union(links_from(body@, p as int).to_set())
                == links_from(body@, 0).to_set(),
        ensures
            strictly_sorted_strs(acc@.map_values(|e: Vec<char>| e@)),
            acc@.map_values(|e: Vec<char>| e@).to_set().union(links_from(body@, p as int).to_set())
                == links_from(body@, 0).to_set(),
            links_from(body@, p as int) =~= Seq::<Seq<char>>::empty(),
        decreases n + 2 - p,
    {
        let a = find_pair_exec(body, '[', '[', p);
        proof {
            lemma_find_pair(body@, '[', '[', p as int);
        }
        if a >= n {
            assert(links_from(body@, p as int) =~= Seq::<Seq<char>>::empty());
            break;
        }
        let b = find_pair_exec(body, ']', ']', a + 2);
        proof {
            lemma_find_pair(body@, ']', ']', a + 2);
        }
        if b >= n {
            assert(links_from(body@, p as int) =~= Seq::<Seq<char>>::empty());
            break;
        }
        let ghost here = links_from(body@, p as int);
        let ghost next = links_from(body@, b + 2);
        match link_target_exec(body, a + 2, b) {
            Some(t) => {
                let ghost tv = t@;
                assert(here == seq![tv] + next);
                proof {
                    lemma_concat_to_set(seq![tv], next);
                }
                assert(seq![tv].to_set() =~= Set::<Seq<char>>::empty().insert(tv)) by {
                    assert(seq![tv][0] == tv);
                }
                insert_unique_str(&mut acc, t);
            },
            None => {
                assert(here =~= next);
            },
        }
        p = b + 2;
        assert(acc@.map_values(|e: Vec<char>| e@).to_set().union(
            links_from(body@, p as int).to_set(),
        ) =~= links_from(body@, 0).to_set());
    }
    assert(links_from(body@, p as int).to_set() =~= Set::<Seq<char>>::empty());
    assert(acc@.map_values(|e: Vec<char>| e@).to_set().union(Set::<Seq<char>>::empty())
        =~= acc@.map_values(|e: Vec<char>| e@).to_set());
    to_strings(acc)
}

// ------------------------------------------------------------------ one note

/// What one note contributes to the graph.
pub struct Parsed {
    pub name: String,
    pub path: PathBuf,
    /// Week tags of the frontmatter, in time order, each once.
    pub weeks: Vec<Week>,
    /// Plain tags of the frontmatter, sorted, each once.
    pub tags: Vec<String>,
    /// Link targets of the body, sorted, each once.
    pub links: Vec<String>,
}

/// The week tags of a note's text.
pub open spec fn note_weeks(text: Seq<char>) -> Seq<Week> {
    scan_weeks(frontmatter_split(text).0, 0)
}

/// The plain tags of a note's text.
pub open spec fn note_tags(text: Seq<char>) -> Seq<Seq<char>> {
    tags_from(frontmatter_split(text).0, 0)
}

/// The link targets of a note's text.
pub open spec fn note_links(text: Seq<char>) -> Seq<Seq<char>> {
    links_from(frontmatter_split(text).1, 0)
}

/// A parsed note is well formed when its lists are sorted without repeats.
pub open spec fn parsed_wf(p: Parsed) -> bool {
    &&& strictly_sorted_weeks(p.weeks@)
    &&& strictly_sorted_strs(p.tags@.map_values(|e: String| e@))
    &&& strictly_sorted_strs(p.links@.map_values(|e: String| e@))
}

/// Parses the text of the note called `name`.
pub fn parse_one(name: String, path: PathBuf, text: &str) -> (p: Parsed)
    ensures
        parsed_wf(p),
        p.name == name,
        p.path == path,
        p.weeks@.to_set() == note_weeks(text@).to_set(),
        p.tags@.map_values(|e: String| e@).to_set() == note_tags(text@).to_set(),
        p.links@.map_values(|e: String| e@).to_set() == note_links(text@).to_set(),
{
    let cs = chars_of(text);
    let (front, body) = split_frontmatter(&cs);
    Parsed {
        name,
        path,
        weeks: parse_weeks(&front),
        tags: parse_tags(&front),
        links: parse_links(&body),
    }
}

// ------------------------------------------------------------------ files

/// Whether a file extension marks a note: `md` in any ASCII case.
pub fn is_note_extension(ext: &str) -> (r: bool)
    ensures
        r == (ext@.len() == 2 && (ext@[0] == 'm' || ext@[0] == 'M') && (ext@[1] == 'd' || ext@[1] == 'D')),
{
    let cs = chars_of(ext);
    cs.len() == 2 && (cs[0] == 'm' || cs[0] == 'M') && (cs[1] == 'd' || cs[1] == 'D')
}

} // verus!
