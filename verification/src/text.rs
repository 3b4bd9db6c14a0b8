//! Character-level text helpers shared by the note parsers.
//!
//! Text is handled as a sequence of Unicode scalar values (`Seq<char>`),
//! which is exactly the view that vstd gives to `&str` and `String`.
use vstd::prelude::*;

verus! {

// ------------------------------------------------------------------ conversion

/// The characters of a string slice, in order.
pub fn chars_of(s: &str) -> (out: Vec<char>)
    ensures
        out@ == s@,
{
    let mut out: Vec<char> = Vec::new();
    for c in it: s.chars()
        invariant
            out@ == it.seq().take(it.index() as int),
            it.seq() == s@,
    {
        out.push(c);
    }
    assert(out@ =~= s@);
    out
}

/// Builds a `String` holding exactly the given characters
/// (std's `FromIterator<char>` for `String`).
#[verifier::external_body]
pub(crate) fn string_of(cs: &[char]) -> (out: String)
    ensures
        out@ == cs@,
{
    cs.iter().collect()
}

/// What std's `str::to_lowercase` returns for a string with these characters.
pub uninterp spec fn lowercase(s: Seq<char>) -> Seq<char>;

/// std's `str::to_lowercase`: the Unicode lower-case mapping of every character.
/// Its result is named by `lowercase` and not spelled out here.
#[verifier::external_body]
pub(crate) fn to_lowercase(s: &str) -> (out: String)
    ensures
        out@ == lowercase(s@),
{
    s.to_lowercase()
}

/// The characters `s[lo..hi]` as a new vector.
pub fn copy_range(s: &Vec<char>, lo: usize, hi: usize) -> (out: Vec<char>)
    requires
        lo <= hi <= s.len(),
    ensures
        out@ == s@.subrange(lo as int, hi as int),
{
    let mut out: Vec<char> = Vec::new();
    let mut i = lo;
    while i < hi
        invariant
            lo <= i <= hi <= s.len(),
            out@ == s@.subrange(lo as int, i as int),
        decreases hi - i,
    {
        out.push(s[i]);
        i = i + 1;
        assert(out@ =~= s@.subrange(lo as int, i as int));
    }
    out
}

/// Element-wise equality of two character vectors.
pub fn chars_eq(a: &Vec<char>, b: &Vec<char>) -> (r: bool)
    ensures
        r == (a@ == b@),
{
    if a.len() != b.len() {
        return false;
    }
    let mut i = 0usize;
    while i < a.len()
        invariant
            a.len() == b.len(),
            i <= a.len(),
            forall|k: int| 0 <= k < i ==> a@[k] == b@[k],
        decreases a.len() - i,
    {
        if a[i] != b[i] {
            return false;
        }
        i = i + 1;
    }
    assert(a@ =~= b@);
    true
}

// ------------------------------------------------------------------ whitespace

/// Unicode `White_Space`, the set that std's `char::is_whitespace` tests.
pub open spec fn is_ws(c: char) -> bool {
    ||| ('\u{9}' <= c && c <= '\u{d}')
    ||| c == ' '
    ||| c == '\u{85}'
    ||| c == '\u{a0}'
    ||| c == '\u{1680}'
    ||| ('\u{2000}' <= c && c <= '\u{200a}')
    ||| c == '\u{2028}'
    ||| c == '\u{2029}'
    ||| c == '\u{202f}'
    ||| c == '\u{205f}'
    ||| c == '\u{3000}'
}

/// `char::is_whitespace`.
pub fn is_whitespace(c: char) -> (r: bool)
    ensures
        r == is_ws(c),
{
    ('\u{9}' <= c && c <= '\u{d}') || c == ' ' || c == '\u{85}' || c == '\u{a0}' || c
        == '\u{1680}' || ('\u{2000}' <= c && c <= '\u{200a}') || c == '\u{2028}' || c
        == '\u{2029}' || c == '\u{202f}' || c == '\u{205f}' || c == '\u{3000}'
}

/// `s` without its leading whitespace (`str::trim_start`).
pub open spec fn trim_start(s: Seq<char>) -> Seq<char>
    decreases s.len(),
{
    if s.len() > 0 && is_ws(s[0]) {
        trim_start(s.drop_first())
    } else {
        s
    }
}

/// `s` without its trailing whitespace (`str::trim_end`).
pub open spec fn trim_end(s: Seq<char>) -> Seq<char>
    decreases s.len(),
{
    if s.len() > 0 && is_ws(s.last()) {
        trim_end(s.drop_last())
    } else {
        s
    }
}

/// `s` without leading and trailing whitespace (`str::trim`).
pub open spec fn trim(s: Seq<char>) -> Seq<char> {
    trim_end(trim_start(s))
}

/// Bounds of `s[lo..hi]` once its leading whitespace is skipped.
pub fn trim_start_bounds(s: &Vec<char>, lo: usize, hi: usize) -> (r: usize)
    requires
        lo <= hi <= s.len(),
    ensures
        lo <= r <= hi,
        s@.subrange(r as int, hi as int) == trim_start(s@.subrange(lo as int, hi as int)),
{
    let mut i = lo;
    while i < hi && is_whitespace(s[i])
        invariant
            lo <= i <= hi <= s.len(),
            trim_start(s@.subrange(lo as int, hi as int)) == trim_start(
                s@.subrange(i as int, hi as int),
            ),
        decreases hi - i,
    {
        assert(s@.subrange(i as int, hi as int).drop_first() =~= s@.subrange(
            i + 1,
            hi as int,
        ));
        i = i + 1;
    }
    i
}

/// Bounds of `s[lo..hi]` once its trailing whitespace is dropped.
pub fn trim_end_bounds(s: &Vec<char>, lo: usize, hi: usize) -> (r: usize)
    requires
        lo <= hi <= s.len(),
    ensures
        lo <= r <= hi,
        s@.subrange(lo as int, r as int) == trim_end(s@.subrange(lo as int, hi as int)),
{
    let mut j = hi;
    while j > lo && is_whitespace(s[j - 1])
        invariant
            lo <= j <= hi <= s.len(),
            trim_end(s@.subrange(lo as int, hi as int)) == trim_end(
                s@.subrange(lo as int, j as int),
            ),
        decreases j - lo,
    {
        assert(s@.subrange(lo as int, j as int).drop_last() =~= s@.subrange(
            lo as int,
            j - 1,
        ));
        j = j - 1;
    }
    j
}

/// Bounds of `s[lo..hi].trim()`.
pub fn trim_bounds(s: &Vec<char>, lo: usize, hi: usize) -> (r: (usize, usize))
    requires
        lo <= hi <= s.len(),
    ensures
        lo <= r.0 <= r.1 <= hi,
        s@.subrange(r.0 as int, r.1 as int) == trim(s@.subrange(lo as int, hi as int)),
{
    let a = trim_start_bounds(s, lo, hi);
    let b = trim_end_bounds(s, a, hi);
    (a, b)
}

// ------------------------------------------------------------------ ordering

/// Lexicographic order on character sequences, by code point. This is the
/// order of `String`'s `Ord` (UTF-8 byte order agrees with code point order).
pub open spec fn str_lt(a: Seq<char>, b: Seq<char>) -> bool
    decreases a.len(),
{
    if a.len() == 0 {
        b.len() > 0
    } else if b.len() == 0 {
        false
    } else if a[0] != b[0] {
        a[0] < b[0]
    } else {
        str_lt(a.drop_first(), b.drop_first())
    }
}

pub proof fn lemma_str_lt_irreflexive(a: Seq<char>)
    ensures
        !str_lt(a, a),
    decreases a.len(),
{
    if a.len() > 0 {
        lemma_str_lt_irreflexive(a.drop_first());
    }
}

pub proof fn lemma_str_lt_transitive(a: Seq<char>, b: Seq<char>, c: Seq<char>)
    requires
        str_lt(a, b),
        str_lt(b, c),
    ensures
        str_lt(a, c),
    decreases a.len(),
{
    if a.len() > 0 && b.len() > 0 && c.len() > 0 {
        if a[0] == b[0] && b[0] == c[0] {
            lemma_str_lt_transitive(a.drop_first(), b.drop_first(), c.drop_first());
        }
    }
}

pub proof fn lemma_str_lt_total(a: Seq<char>, b: Seq<char>)
    ensures
        str_lt(a, b) || str_lt(b, a) || a == b,
    decreases a.len(),
{
    if a.len() > 0 && b.len() > 0 {
        if a[0] == b[0] {
            lemma_str_lt_total(a.drop_first(), b.drop_first());
            if a.drop_first() == b.drop_first() {
                assert(a =~= seq![a[0]] + a.drop_first());
                assert(b =~= seq![b[0]] + b.drop_first());
            }
        }
    } else if a.len() == 0 && b.len() == 0 {
        assert(a =~= b);
    }
}

/// `a < b` for the strings with these characters.
pub fn chars_lt(a: &Vec<char>, b: &Vec<char>) -> (r: bool)
    ensures
        r == str_lt(a@, b@),
{
    let mut i = 0usize;
    assert(a@.skip(0) =~= a@);
    assert(b@.skip(0) =~= b@);
    while i < a.len() && i < b.len() && a[i] == b[i]
        invariant
            i <= a.len(),
            i <= b.len(),
            str_lt(a@, b@) == str_lt(a@.skip(i as int), b@.skip(i as int)),
        decreases a.len() - i,
    {
        assert(a@.skip(i as int).drop_first() =~= a@.skip(i + 1));
        assert(b@.skip(i as int).drop_first() =~= b@.skip(i + 1));
        i = i + 1;
    }
    if i == a.len() {
        i < b.len()
    } else if i == b.len() {
        false
    } else {
        a[i] < b[i]
    }
}

/// A sequence of strings in strictly increasing order (so each occurs once).
pub open spec fn strictly_sorted_strs(v: Seq<Seq<char>>) -> bool {
    forall|i: int, j: int| 0 <= i < j < v.len() ==> str_lt(#[trigger] v[i], #[trigger] v[j])
}

/// Adds `x` to a strictly sorted list of strings unless it is already there.
pub fn insert_unique_str(v: &mut Vec<Vec<char>>, x: Vec<char>)
    requires
        strictly_sorted_strs(old(v)@.map_values(|e: Vec<char>| e@)),
    ensures
        strictly_sorted_strs(final(v)@.map_values(|e: Vec<char>| e@)),
        final(v)@.map_values(|e: Vec<char>| e@).to_set() == old(v)@.map_values(
            |e: Vec<char>| e@,
        ).to_set().insert(x@),
{
    let ghost old_v = v@.map_values(|e: Vec<char>| e@);
    let mut k = 0usize;
    while k < v.len() && chars_lt(&v[k], &x)
        invariant
            k <= v.len(),
            v@.map_values(|e: Vec<char>| e@) == old_v,
            strictly_sorted_strs(old_v),
            forall|i: int| 0 <= i < k ==> str_lt(#[trigger] old_v[i], x@),
        decreases v.len() - k,
    {
        k = k + 1;
    }
    if k < v.len() && chars_eq(&v[k], &x) {
        assert forall|e: Seq<char>| old_v.to_set().insert(x@).contains(e) implies old_v.to_set().contains(e) by {
            if e == x@ {
                assert(old_v[k as int] == x@);
            }
        }
        assert(old_v.to_set().insert(x@) =~= old_v.to_set());
        return;
    }
    proof {
        if k < v.len() {
            lemma_str_lt_total(old_v[k as int], x@);
        }
    }
    let ghost xv = x@;
    v.insert(k, x);
    let ghost new_v = v@.map_values(|e: Vec<char>| e@);
    assert(new_v =~= old_v.insert(k as int, xv));
    assert forall|j: int| k < j < new_v.len() implies str_lt(xv, #[trigger] new_v[j]) by {
        assert(new_v[j] == old_v[j - 1]);
        if j - 1 > k {
            lemma_str_lt_transitive(xv, old_v[k as int], old_v[j - 1]);
        }
    }
    assert forall|i: int, j: int| 0 <= i < j < new_v.len() implies str_lt(
        #[trigger] new_v[i],
        #[trigger] new_v[j],
    ) by {
        if i < k && j == k {
        } else if i < k && j > k {
            lemma_str_lt_transitive(new_v[i], xv, new_v[j]);
        } else if i == k && j > k {
        } else if i < k && j < k {
        } else {
            assert(new_v[i] == old_v[i - 1]);
        }
    }
    assert forall|e: Seq<char>| new_v.to_set().contains(e) <==> old_v.to_set().insert(xv).contains(e) by {
        if old_v.to_set().contains(e) && e != xv {
            let i = choose|i: int| 0 <= i < old_v.len() && old_v[i] == e;
            if i < k {
                assert(new_v[i] == e);
            } else {
                assert(new_v[i + 1] == e);
            }
        }
        if e == xv {
            assert(new_v[k as int] == e);
        }
        if new_v.to_set().contains(e) {
            let i = choose|i: int| 0 <= i < new_v.len() && new_v[i] == e;
            if i < k {
                assert(old_v[i] == e);
            } else if i > k {
                assert(old_v[i - 1] == e);
            }
        }
    }
    assert(new_v.to_set() =~= old_v.to_set().insert(xv));
}

} // verus!
