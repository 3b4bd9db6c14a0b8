//! The reading map: one note per book read, each filed under its author,
//! each author under a country, each country at a point on the globe.
//!
//! A book's note looks like
//! ```text
//! ---
//! author: Albert Camus
//! country: France
//! region: Algiers          # optional, a label only
//! rating: 5                # optional, 1-5
//! lat: 36.75               # optional, overrides the country's point
//! lon: 3.06
//! date: 2026-W20           # week tags, as in the word notes
//! ---
//! Some thoughts on the book.
//! ```
//!
//! Positions are kept in millionths of a degree: latitude north-positive,
//! longitude east-positive.
use std::path::PathBuf;

use vstd::prelude::*;

use crate::note::{clean_value, find_nl, has_prefix, lemma_next_nl, next_nl, split_frontmatter, frontmatter_split, strip_quotes_bounds};
use crate::text::{chars_eq, chars_of, copy_range, lowercase, string_of, to_lowercase, trim, trim_bounds, trim_start, trim_start_bounds};
use crate::graph::{index_in, lemma_map_insert, lemma_take_contains, week_indices};
use crate::order::{insert_unique, key_sorted};
use crate::view::ascending;
use vstd::hash_map::StringHashMap;
use crate::week::{dec_value, digit_val, digits_end, is_digit, lemma_digits_end, parse_weeks, scan_weeks, strictly_sorted_weeks, Week};

verus! {

// ------------------------------------------------------------------ fields

/// The value a frontmatter line gives `key`: the trimmed line starts with
/// `key`, then blanks and a `:`; the value is what follows, without blanks
/// and quotes around it, and must not be empty.
pub open spec fn line_field(line: Seq<char>, key: Seq<char>) -> Option<Seq<char>> {
    let t = trim(line);
    if has_prefix(t, key) {
        let rest = trim_start(t.skip(key.len() as int));
        if rest.len() > 0 && rest[0] == ':' {
            let v = clean_value(rest.skip(1));
            if v.len() > 0 {
                Some(v)
            } else {
                None
            }
        } else {
            None
        }
    } else {
        None
    }
}

/// The value of the first line from position `i` on that gives `key` one.
pub open spec fn field_from(s: Seq<char>, key: Seq<char>, i: int) -> Option<Seq<char>>
    decreases s.len() + 1 - i,
{
    if i < 0 || i >= s.len() {
        None
    } else {
        proof {
            lemma_next_nl(s, i);
        }
        match line_field(s.subrange(i, next_nl(s, i)), key) {
            Some(v) => Some(v),
            None => field_from(s, key, next_nl(s, i) + 1),
        }
    }
}

/// The value of `key` in a frontmatter.
pub open spec fn field_value(front: Seq<char>, key: Seq<char>) -> Option<Seq<char>> {
    field_from(front, key, 0)
}

/// The value `s[lo..hi]` gives `key`, as bounds.
fn line_field_bounds(s: &Vec<char>, lo: usize, hi: usize, key: &Vec<char>) -> (r: Option<(usize, usize)>)
    requires
        lo <= hi <= s.len(),
    ensures
        match r {
            Some((a, b)) => a <= b <= s.len() && line_field(s@.subrange(lo as int, hi as int), key@)
                == Some(s@.subrange(a as int, b as int)),
            None => line_field(s@.subrange(lo as int, hi as int), key@) is None,
        },
{
    let ghost line = s@.subrange(lo as int, hi as int);
    let (a, b) = trim_bounds(s, lo, hi);
    let ghost t = trim(line);
    assert(t == s@.subrange(a as int, b as int));
    if b - a < key.len() {
        assert(!has_prefix(t, key@));
        return None;
    }
    let mut k = 0usize;
    while k < key.len()
        invariant
            lo <= hi <= s.len(),
            a <= b <= s.len(),
            key.len() <= b - a,
            k <= key.len(),
            t == s@.subrange(a as int, b as int),
            t == trim(s@.subrange(lo as int, hi as int)),
            forall|m: int| 0 <= m < k ==> t[m] == key@[m],
        decreases key.len() - k,
    {
        if s[a + k] != key[k] {
            proof {
                if has_prefix(t, key@) {
                    assert(t.take(key.len() as int)[k as int] == t[k as int]);
                }
            }
            return None;
        }
        k = k + 1;
    }
    assert(t.take(key.len() as int) =~= key@);
    let c = a + key.len();
    assert(t.skip(key.len() as int) =~= s@.subrange(c as int, b as int));
    let d = trim_start_bounds(s, c, b);
    let ghost rest = trim_start(t.skip(key.len() as int));
    assert(rest == s@.subrange(d as int, b as int));
    if d < b && s[d] == ':' {
        assert(rest.skip(1) =~= s@.subrange(d + 1, b as int));
        let (e, f) = trim_bounds(s, d + 1, b);
        let (g, h) = strip_quotes_bounds(s, e, f);
        let (x, y) = trim_bounds(s, g, h);
        assert(clean_value(rest.skip(1)) == s@.subrange(x as int, y as int));
        if y > x {
            Some((x, y))
        } else {
            None
        }
    } else {
        None
    }
}

/// The value of `key` in a frontmatter: the first line reading
/// `key: value` (blanks around it allowed, quotes around the value removed)
/// with a value that is not empty.
pub fn field(front: &Vec<char>, key: &str) -> (r: Option<String>)
    ensures
        match r {
            Some(v) => field_value(front@, key@) == Some(v@),
            None => field_value(front@, key@) is None,
        },
{
    let kc = chars_of(key);
    let n = front.len();
    let mut i = 0usize;
    while i < n
        invariant
            i <= n,
            n == front.len(),
            kc@ == key@,
            field_value(front@, key@) == field_from(front@, key@, i as int),
        decreases n - i,
    {
        let k = find_nl(front, i);
        proof {
            lemma_next_nl(front@, i as int);
        }
        match line_field_bounds(front, i, k, &kc) {
            Some((a, b)) => {
                let v = string_of(copy_range(front, a, b).as_slice());
                return Some(v);
            },
            None => {},
        }
        if k < n {
            i = k + 1;
        } else {
            i = n;
            assert(field_from(front@, key@, k + 1) is None);
        }
    }
    None
}

/// A string's aggregation key: trimmed and lower-cased.
pub open spec fn norm(s: Seq<char>) -> Seq<char> {
    lowercase(trim(s))
}

/// A name without blanks around it, in lower case, so that `France` and
/// ` france` file under one key.
pub fn normalize(s: &str) -> (out: String)
    ensures
        out@ == norm(s@),
{
    let c = chars_of(s);
    let (a, b) = trim_bounds(&c, 0, c.len());
    assert(c@.subrange(0, c.len() as int) =~= s@);
    let t = string_of(copy_range(&c, a, b).as_slice());
    to_lowercase(t.as_str())
}

// ------------------------------------------------------------------ numbers

pub open spec fn all_digits(s: Seq<char>) -> bool {
    forall|i: int| 0 <= i < s.len() ==> #[trigger] is_digit(s[i])
}

/// A rating: digits, with an optional `+` before them, worth at most 255
/// (what parsing a `u8` accepts).
pub open spec fn rating_value(s: Seq<char>) -> Option<u8> {
    let d = if s.len() > 0 && s[0] == '+' {
        s.drop_first()
    } else {
        s
    };
    if d.len() > 0 && all_digits(d) && dec_value(d) <= 255 {
        Some(dec_value(d) as u8)
    } else {
        None
    }
}

proof fn lemma_dec_value_grows(d: Seq<char>, k: int)
    requires
        0 <= k <= d.len(),
        all_digits(d),
    ensures
        dec_value(d.take(k)) <= dec_value(d),
    decreases d.len() - k,
{
    if k < d.len() {
        lemma_dec_value_grows(d, k + 1);
        assert(d.take(k + 1).drop_last() =~= d.take(k));
    } else {
        assert(d.take(k) =~= d);
    }
}

pub fn parse_rating(s: &Vec<char>) -> (r: Option<u8>)
    ensures
        r == rating_value(s@),
{
    let start: usize = if s.len() > 0 && s[0] == '+' {
        1
    } else {
        0
    };
    let ghost d = s@.skip(start as int);
    assert(d =~= if s@.len() > 0 && s@[0] == '+' {
        s@.drop_first()
    } else {
        s@
    });
    if start == s.len() {
        return None;
    }
    let mut v: u32 = 0;
    let mut k = start;
    while k < s.len()
        invariant
            start <= k <= s.len(),
            d == s@.skip(start as int),
            d == (if s@.len() > 0 && s@[0] == '+' {
                s@.drop_first()
            } else {
                s@
            }),
            v <= 255,
            all_digits(d.take(k - start)),
            v == dec_value(d.take(k - start)),
        decreases s.len() - k,
    {
        let c = s[k];
        assert(d[k - start] == c);
        if !('0' <= c && c <= '9') {
            proof {
                assert(!is_digit(d[k - start]));
                assert(!all_digits(d));
            }
            return None;
        }
        assert(d.take(k + 1 - start).drop_last() =~= d.take(k - start));
        assert(d.take(k + 1 - start).last() == c);
        let nv = v * 10 + ((c as u32) - ('0' as u32));
        assert(nv == dec_value(d.take(k + 1 - start)));
        if nv > 255 {
            proof {
                if all_digits(d) {
                    lemma_dec_value_grows(d, k + 1 - start);
                }
            }
            return None;
        }
        v = nv;
        k = k + 1;
    }
    assert(d.take(k - start) =~= d);
    Some(v as u8)
}

pub open spec fn pow10(n: nat) -> nat
    decreases n,
{
    if n == 0 {
        1
    } else {
        10 * pow10((n - 1) as nat)
    }
}

/// Length of a leading `+` or `-`.
pub open spec fn sign_len(s: Seq<char>) -> int {
    if s.len() > 0 && (s[0] == '-' || s[0] == '+') {
        1
    } else {
        0
    }
}

/// Where the digits before the point end.
pub open spec fn whole_end(s: Seq<char>) -> int {
    digits_end(s, sign_len(s))
}

/// Where the digits after the point start (there is no point when this is
/// `whole_end`).
pub open spec fn frac_start(s: Seq<char>) -> int {
    if whole_end(s) < s.len() && s[whole_end(s)] == '.' {
        whole_end(s) + 1
    } else {
        whole_end(s)
    }
}

/// Where the digits after the point end.
pub open spec fn frac_end(s: Seq<char>) -> int {
    digits_end(s, frac_start(s))
}

/// Where the exponent's digits start: after the `e` and its sign.
pub open spec fn exp_start(s: Seq<char>) -> int {
    let j = frac_end(s) + 1;
    if j < s.len() && (s[j] == '-' || s[j] == '+') {
        j + 1
    } else {
        j
    }
}

/// The digits end the text, or are followed by `e` or `E`, an optional
/// sign and one or more digits that end it.
pub open spec fn exponent_ok(s: Seq<char>) -> bool {
    frac_end(s) == s.len() || ((s[frac_end(s)] == 'e' || s[frac_end(s)] == 'E') && exp_start(s)
        < s.len() && digits_end(s, exp_start(s)) == s.len())
}

/// A number as a floating-point parser reads it: an optional sign, digits
/// with an optional point among or after them (at least one digit in all),
/// and an optional exponent.
pub open spec fn number_shape(s: Seq<char>) -> bool {
    (whole_end(s) - sign_len(s)) + (frac_end(s) - frac_start(s)) >= 1 && exponent_ok(s)
}

/// All the digits of the number, without the point.
pub open spec fn mantissa(s: Seq<char>) -> Seq<char> {
    s.subrange(sign_len(s), whole_end(s)) + s.subrange(frac_start(s), frac_end(s))
}

/// The exponent's value (0 without one).
pub open spec fn exponent(s: Seq<char>) -> int {
    if frac_end(s) == s.len() {
        0
    } else if s[frac_end(s) + 1] == '-' {
        -dec_value(s.subrange(exp_start(s), s.len() as int))
    } else {
        dec_value(s.subrange(exp_start(s), s.len() as int)) as int
    }
}

/// The power of ten that turns the mantissa into millionths.
pub open spec fn shift(s: Seq<char>) -> int {
    exponent(s) - (frac_end(s) - frac_start(s)) + 6
}

/// The digits `d` times ten to the `k`, rounded to a whole number with
/// halves going up: the digits before the point, plus one when the first
/// digit dropped is 5 or more.
pub open spec fn scaled_round(d: Seq<char>, k: int) -> nat {
    if k >= 0 {
        dec_value(d) * pow10(k as nat)
    } else {
        let t = d.len() + k;
        (if t > 0 {
            dec_value(d.take(t))
        } else {
            0nat
        }) + (if 0 <= t < d.len() && '5' <= d[t] {
            1nat
        } else {
            0nat
        })
    }
}

/// Degrees written as a number, in millionths, rounded to the nearest
/// millionth (halves away from zero); `None` when the text is no number or
/// the value does not fit an `i64`.
pub open spec fn degrees_value(s: Seq<char>) -> Option<i64> {
    let m = scaled_round(mantissa(s), shift(s));
    if number_shape(s) && m <= i64::MAX {
        Some((if s.len() > 0 && s[0] == '-' {
            -m
        } else {
            m as int
        }) as i64)
    } else {
        None
    }
}

/// A bound above any exponent whose size matters here.
pub open spec fn exp_cap() -> nat {
    0x40_0000_0000_0000_0000
}

pub open spec fn capped_at(x: nat, c: nat) -> nat {
    if x < c {
        x
    } else {
        c
    }
}

proof fn lemma_dec_value_prefix(a: Seq<char>, b: Seq<char>)
    ensures
        dec_value(a + b) >= dec_value(a),
    decreases b.len(),
{
    if b.len() == 0 {
        assert(a + b =~= a);
    } else {
        assert((a + b).drop_last() =~= a + b.drop_last());
        lemma_dec_value_prefix(a, b.drop_last());
    }
}

proof fn lemma_pow10_mono(a: nat, b: nat)
    requires
        a <= b,
    ensures
        pow10(a) <= pow10(b),
        pow10(a) >= 1,
    decreases b,
{
    if a < b {
        lemma_pow10_mono(a, (b - 1) as nat);
    } else if a > 0 {
        lemma_pow10_mono((a - 1) as nat, (a - 1) as nat);
    }
}

/// The digits `s[lo..hi]` are digits.
proof fn lemma_run_digits(s: Seq<char>, lo: int, hi: int)
    requires
        0 <= lo <= hi <= s.len(),
        forall|k: int| lo <= k < hi ==> is_digit(#[trigger] s[k]),
    ensures
        all_digits(s.subrange(lo, hi)),
{
    assert forall|i: int| 0 <= i < hi - lo implies #[trigger] is_digit(s.subrange(lo, hi)[i]) by {
        assert(s.subrange(lo, hi)[i] == s[lo + i]);
    }
}

/// Where the run of digits from `j` ends.
fn run_end(s: &Vec<char>, j: usize) -> (e: usize)
    requires
        j <= s.len(),
    ensures
        e as int == digits_end(s@, j as int),
        j <= e <= s.len(),
{
    let mut e = j;
    while e < s.len() && '0' <= s[e] && s[e] <= '9'
        invariant
            j <= e <= s.len(),
            digits_end(s@, e as int) == digits_end(s@, j as int),
        decreases s.len() - e,
    {
        e = e + 1;
    }
    e
}

/// The value of the digits `p` followed by `s[lo..hi]`, given `v`, the
/// value of `p`; `None` when it passes `i64::MAX`.
fn extend_value(s: &Vec<char>, lo: usize, hi: usize, v: u64, Ghost(p): Ghost<Seq<char>>) -> (r: Option<u64>)
    requires
        lo <= hi <= s.len(),
        all_digits(s@.subrange(lo as int, hi as int)),
        v == dec_value(p),
        v <= i64::MAX,
    ensures
        match r {
            Some(x) => x == dec_value(p + s@.subrange(lo as int, hi as int)) && x <= i64::MAX,
            None => dec_value(p + s@.subrange(lo as int, hi as int)) > i64::MAX,
        },
{
    let mut v = v;
    let mut k = lo;
    assert(p + s@.subrange(lo as int, lo as int) =~= p);
    while k < hi
        invariant
            lo <= k <= hi <= s.len(),
            all_digits(s@.subrange(lo as int, hi as int)),
            v == dec_value(p + s@.subrange(lo as int, k as int)),
            v <= i64::MAX,
        decreases hi - k,
    {
        let ghost q = p + s@.subrange(lo as int, k + 1);
        assert(q.drop_last() =~= p + s@.subrange(lo as int, k as int));
        assert(q.last() == s@[k as int]);
        assert(is_digit(s@.subrange(lo as int, hi as int)[k - lo]));
        let d = ((s[k] as u32) - ('0' as u32)) as u64;
        assert(dec_value(q) == v * 10 + d);
        if v > (0x7fff_ffff_ffff_ffffu64 - d) / 10 {
            proof {
                assert(v * 10 + d > 0x7fff_ffff_ffff_ffff) by (nonlinear_arith)
                    requires
                        v > (0x7fff_ffff_ffff_ffff - d) / 10,
                        d <= 9,
                ;
                lemma_dec_value_prefix(q, s@.subrange(k + 1, hi as int));
                assert(q + s@.subrange(k + 1, hi as int) =~= p + s@.subrange(lo as int, hi as int));
            }
            return None;
        }
        assert(v * 10 + d <= 0x7fff_ffff_ffff_ffff) by (nonlinear_arith)
            requires
                v <= (0x7fff_ffff_ffff_ffff - d) / 10,
                d <= 9,
        ;
        v = v * 10 + d;
        k = k + 1;
    }
    Some(v)
}

/// The value of the digits `s[lo..hi]`, capped at `exp_cap()`.
fn capped_digits(s: &Vec<char>, lo: usize, hi: usize) -> (r: u128)
    requires
        lo <= hi <= s.len(),
        all_digits(s@.subrange(lo as int, hi as int)),
    ensures
        r == capped_at(dec_value(s@.subrange(lo as int, hi as int)), exp_cap()),
{
    let cap: u128 = 0x40_0000_0000_0000_0000;
    let mut v: u128 = 0;
    let mut k = lo;
    assert(s@.subrange(lo as int, lo as int) =~= Seq::<char>::empty());
    while k < hi
        invariant
            lo <= k <= hi <= s.len(),
            cap == exp_cap(),
            all_digits(s@.subrange(lo as int, hi as int)),
            v == capped_at(dec_value(s@.subrange(lo as int, k as int)), exp_cap()),
        decreases hi - k,
    {
        let ghost q = s@.subrange(lo as int, k + 1);
        assert(q.drop_last() =~= s@.subrange(lo as int, k as int));
        assert(q.last() == s@[k as int]);
        assert(is_digit(s@.subrange(lo as int, hi as int)[k - lo]));
        let d = ((s[k] as u32) - ('0' as u32)) as u128;
        if v < cap {
            let nv = v * 10 + d;
            v = if nv < cap {
                nv
            } else {
                cap
            };
        }
        k = k + 1;
    }
    v
}

/// Numbers above `i64::MAX` stay above it when scaled up.
proof fn lemma_scaled_big(d: Seq<char>, k: int)
    requires
        k >= 0,
        dec_value(d) > i64::MAX,
    ensures
        scaled_round(d, k) > i64::MAX,
{
    lemma_pow10_mono(0, k as nat);
    let x = dec_value(d);
    let y = pow10(k as nat);
    assert(x * y >= x) by (nonlinear_arith)
        requires
            y >= 1,
    ;
}

/// `x` times ten to the `k` only grows with `k`.
proof fn lemma_scaled_mono(x: nat, a: nat, b: nat)
    requires
        a <= b,
    ensures
        x * pow10(a) <= x * pow10(b),
{
    lemma_pow10_mono(a, b);
    let pa = pow10(a);
    let pb = pow10(b);
    assert(x * pa <= x * pb) by (nonlinear_arith)
        requires
            pa <= pb,
    ;
}

/// `d` (the digits `s[sl..we]` then `s[fs..fe]`) times ten to the `big_k`,
/// for `big_k` at least `k >= 0` and equal to it when `k` is small; `None`
/// when it passes `i64::MAX`.
fn scale_up(
    s: &Vec<char>,
    sl: usize,
    we: usize,
    fs: usize,
    fe: usize,
    k: i128,
    Ghost(d): Ghost<Seq<char>>,
    Ghost(big_k): Ghost<int>,
) -> (r: Option<u64>)
    requires
        sl <= we <= fs <= fe <= s.len(),
        forall|j: int| sl <= j < we ==> is_digit(#[trigger] s@[j]),
        forall|j: int| fs <= j < fe ==> is_digit(#[trigger] s@[j]),
        d == s@.subrange(sl as int, we as int) + s@.subrange(fs as int, fe as int),
        0 <= k <= big_k,
        k <= 18 ==> big_k == k,
    ensures
        match r {
            Some(x) => x == scaled_round(d, big_k) && x <= i64::MAX,
            None => scaled_round(d, big_k) > i64::MAX,
        },
{
    let ghost wd = s@.subrange(sl as int, we as int);
    proof {
        lemma_run_digits(s@, sl as int, we as int);
        lemma_run_digits(s@, fs as int, fe as int);
        assert(Seq::<char>::empty() + wd =~= wd);
        assert(dec_value(Seq::<char>::empty()) == 0);
    }
    let v1 = match extend_value(s, sl, we, 0, Ghost(Seq::<char>::empty())) {
        Some(x) => x,
        None => {
            proof {
                lemma_dec_value_prefix(wd, s@.subrange(fs as int, fe as int));
                lemma_scaled_big(d, big_k);
            }
            return None;
        },
    };
    let v = match extend_value(s, fs, fe, v1, Ghost(wd)) {
        Some(x) => x,
        None => {
            proof {
                lemma_scaled_big(d, big_k);
            }
            return None;
        },
    };
    assert(v == dec_value(d));
    if v == 0 {
        assert(scaled_round(d, big_k) == 0 * pow10(big_k as nat));
        return Some(0);
    }
    if k > 18 {
        proof {
            reveal_with_fuel(pow10, 20);
            lemma_scaled_mono(v as nat, 19, big_k as nat);
            assert(v * pow10(19) >= pow10(19)) by (nonlinear_arith)
                requires
                    v >= 1,
            ;
        }
        return None;
    }
    let kk = k as u32;
    let mut m: u32 = 0;
    let mut x = v;
    proof {
        assert(pow10(0) == 1);
        assert(x * pow10(0) == x);
    }
    while m < kk
        invariant
            m <= kk <= 18,
            kk == big_k,
            x == dec_value(d) * pow10(m as nat),
            x <= i64::MAX,
        decreases kk - m,
    {
        proof {
            let dv = dec_value(d);
            let pm = pow10(m as nat);
            assert(dv * pow10((m + 1) as nat) == (dv * pm) * 10) by (nonlinear_arith)
                requires
                    pow10((m + 1) as nat) == 10 * pm,
            ;
        }
        if x > 0x7fff_ffff_ffff_ffffu64 / 10 {
            proof {
                lemma_scaled_mono(dec_value(d), (m + 1) as nat, kk as nat);
                assert(x * 10 > 0x7fff_ffff_ffff_ffff);
            }
            return None;
        }
        x = x * 10;
        m = m + 1;
    }
    Some(x)
}

/// `d` (the digits `s[sl..we]` then `s[fs..fe]`) times ten to the
/// `big_k <= k < 0`, rounded with halves up, where `big_k == k` whenever
/// `d.len() + k >= 0`; `None` when it passes `i64::MAX`.
fn scale_down(
    s: &Vec<char>,
    sl: usize,
    we: usize,
    fs: usize,
    fe: usize,
    k: i128,
    Ghost(d): Ghost<Seq<char>>,
    Ghost(big_k): Ghost<int>,
) -> (r: Option<u64>)
    requires
        sl <= we <= fs <= fe <= s.len(),
        forall|j: int| sl <= j < we ==> is_digit(#[trigger] s@[j]),
        forall|j: int| fs <= j < fe ==> is_digit(#[trigger] s@[j]),
        d == s@.subrange(sl as int, we as int) + s@.subrange(fs as int, fe as int),
        big_k <= k < 0,
        d.len() + k >= 0 ==> big_k == k,
    ensures
        match r {
            Some(x) => x == scaled_round(d, big_k) && x <= i64::MAX,
            None => scaled_round(d, big_k) > i64::MAX,
        },
{
    let ghost wd = s@.subrange(sl as int, we as int);
    let wl = we - sl;
    let l = wl + (fe - fs);
    assert(d.len() == l);
    let t: i128 = (l as i128) + k;
    if t < 0 {
        return Some(0);
    }
    let tu = t as usize;
    assert(tu < l);
    let ghost pre = d.take(tu as int);
    proof {
        assert(Seq::<char>::empty() + wd =~= wd);
        assert(dec_value(Seq::<char>::empty()) == 0);
        lemma_run_digits(s@, sl as int, we as int);
    }
    let i = if tu <= wl {
        proof {
            lemma_run_digits(s@, sl as int, (sl + tu) as int);
            assert(pre =~= Seq::<char>::empty() + s@.subrange(sl as int, (sl + tu) as int));
        }
        extend_value(s, sl, sl + tu, 0, Ghost(Seq::<char>::empty()))
    } else {
        proof {
            lemma_run_digits(s@, fs as int, (fs + tu - wl) as int);
            assert(pre =~= wd + s@.subrange(fs as int, (fs + tu - wl) as int));
        }
        match extend_value(s, sl, we, 0, Ghost(Seq::<char>::empty())) {
            Some(v1) => extend_value(s, fs, fs + (tu - wl), v1, Ghost(wd)),
            None => {
                proof {
                    lemma_dec_value_prefix(wd, s@.subrange(fs as int, (fs + tu - wl) as int));
                }
                None
            },
        }
    };
    proof {
        if tu == 0 {
            assert(pre =~= Seq::<char>::empty());
        }
    }
    let i = match i {
        Some(x) => x,
        None => {
            return None;
        },
    };
    let c = if tu < wl {
        s[sl + tu]
    } else {
        s[fs + (tu - wl)]
    };
    assert(c == d[tu as int]);
    if '5' <= c {
        if i == 0x7fff_ffff_ffff_ffffu64 {
            return None;
        }
        Some(i + 1)
    } else {
        Some(i)
    }
}

/// The number's size in millionths (see `degrees_value`), or `None` when it
/// passes `i64::MAX`. The exponent's size `ex` comes capped, as `ev`.
fn scaled_value(
    s: &Vec<char>,
    sl: usize,
    we: usize,
    fs: usize,
    fe: usize,
    e_neg: bool,
    ev: u128,
    Ghost(ex): Ghost<nat>,
) -> (r: Option<u64>)
    requires
        sl == sign_len(s@),
        we == whole_end(s@),
        fs == frac_start(s@),
        fe == frac_end(s@),
        sl <= we <= fs <= fe <= s.len(),
        forall|k: int| sl <= k < we ==> is_digit(#[trigger] s@[k]),
        forall|k: int| fs <= k < fe ==> is_digit(#[trigger] s@[k]),
        ev == capped_at(ex, exp_cap()),
        exponent(s@) == (if e_neg {
            -ex
        } else {
            ex as int
        }),
    ensures
        match r {
            Some(x) => x == scaled_round(mantissa(s@), shift(s@)) && x <= i64::MAX,
            None => scaled_round(mantissa(s@), shift(s@)) > i64::MAX,
        },
{
    let ghost d = mantissa(s@);
    let ghost big_k = shift(s@);
    let fl = fe - fs;
    let k: i128 = (if e_neg {
        -(ev as i128)
    } else {
        ev as i128
    }) - (fl as i128) + 6;
    assert(big_k == exponent(s@) - fl + 6);
    assert(d.len() == (we - sl) + fl);
    if k >= 0 {
        scale_up(s, sl, we, fs, fe, k, Ghost(d), Ghost(big_k))
    } else {
        proof {
            if ex >= exp_cap() {
                assert(e_neg);
            }
        }
        scale_down(s, sl, we, fs, fe, k, Ghost(d), Ghost(big_k))
    }
}

/// Parses degrees written as a number (see `degrees_value`).
pub fn parse_degrees(s: &Vec<char>) -> (r: Option<i64>)
    ensures
        r == degrees_value(s@),
{
    let n = s.len();
    let neg = n > 0 && s[0] == '-';
    let sl: usize = if n > 0 && (s[0] == '-' || s[0] == '+') {
        1
    } else {
        0
    };
    let we = run_end(s, sl);
    let fs = if we < n && s[we] == '.' {
        we + 1
    } else {
        we
    };
    let fe = run_end(s, fs);
    proof {
        lemma_digits_end(s@, sl as int);
        lemma_digits_end(s@, fs as int);
    }
    if (we - sl) + (fe - fs) == 0 {
        return None;
    }
    let mut e_neg = false;
    let mut ev: u128 = 0;
    let ghost mut ex: nat = 0;
    if fe < n {
        if !(s[fe] == 'e' || s[fe] == 'E') {
            return None;
        }
        let mut es = fe + 1;
        if es < n && (s[es] == '-' || s[es] == '+') {
            e_neg = s[es] == '-';
            es = es + 1;
        }
        if es >= n {
            return None;
        }
        let ee = run_end(s, es);
        if ee != n {
            return None;
        }
        proof {
            lemma_digits_end(s@, es as int);
            lemma_run_digits(s@, es as int, n as int);
            ex = dec_value(s@.subrange(es as int, n as int));
        }
        ev = capped_digits(s, es, n);
    }
    match scaled_value(s, sl, we, fs, fe, e_neg, ev, Ghost(ex)) {
        None => None,
        Some(m) => if neg {
            Some(-(m as i64))
        } else {
            Some(m as i64)
        },
    }
}

// ------------------------------------------------------------------ countries

/// A country's point, in millionths of a degree, by its lower-case name in
/// English or Chinese; the common literary countries are known.
pub open spec fn anchor_of(k: Seq<char>) -> Option<(i64, i64)> {
    if k == "france"@ || k == "法国"@ {
        Some((46_600_000i64, 2_400_000i64))
    } else if k == "united kingdom"@ || k == "uk"@ || k == "britain"@ || k == "england"@ || k == "英国"@ || k == "英格兰"@ {
        Some((52_500_000i64, -1_500_000i64))
    } else if k == "ireland"@ || k == "爱尔兰"@ {
        Some((53_300_000i64, -7_700_000i64))
    } else if k == "germany"@ || k == "德国"@ {
        Some((51_200_000i64, 10_400_000i64))
    } else if k == "russia"@ || k == "russian"@ || k == "俄罗斯"@ || k == "俄国"@ || k == "苏联"@ {
        Some((58_000_000i64, 40_000_000i64))
    } else if k == "united states"@ || k == "usa"@ || k == "us"@ || k == "america"@ || k == "美国"@ {
        Some((39_000_000i64, -98_000_000i64))
    } else if k == "japan"@ || k == "日本"@ {
        Some((36_200_000i64, 138_300_000i64))
    } else if k == "china"@ || k == "中国"@ {
        Some((35_900_000i64, 104_200_000i64))
    } else if k == "italy"@ || k == "意大利"@ {
        Some((42_800_000i64, 12_600_000i64))
    } else if k == "spain"@ || k == "西班牙"@ {
        Some((40_200_000i64, -3_700_000i64))
    } else if k == "portugal"@ || k == "葡萄牙"@ {
        Some((39_600_000i64, -8_000_000i64))
    } else if k == "greece"@ || k == "希腊"@ {
        Some((39_100_000i64, 22_000_000i64))
    } else if k == "austria"@ || k == "奥地利"@ {
        Some((47_600_000i64, 14_100_000i64))
    } else if k == "switzerland"@ || k == "瑞士"@ {
        Some((46_800_000i64, 8_200_000i64))
    } else if k == "czech"@ || k == "czechia"@ || k == "捷克"@ {
        Some((49_800_000i64, 15_500_000i64))
    } else if k == "poland"@ || k == "波兰"@ {
        Some((52_100_000i64, 19_400_000i64))
    } else if k == "norway"@ || k == "挪威"@ {
        Some((60_500_000i64, 8_500_000i64))
    } else if k == "sweden"@ || k == "瑞典"@ {
        Some((60_100_000i64, 15_600_000i64))
    } else if k == "denmark"@ || k == "丹麦"@ {
        Some((56_000_000i64, 9_500_000i64))
    } else if k == "finland"@ || k == "芬兰"@ {
        Some((64_000_000i64, 26_000_000i64))
    } else if k == "iceland"@ || k == "冰岛"@ {
        Some((64_900_000i64, -19_000_000i64))
    } else if k == "netherlands"@ || k == "holland"@ || k == "荷兰"@ {
        Some((52_100_000i64, 5_300_000i64))
    } else if k == "belgium"@ || k == "比利时"@ {
        Some((50_600_000i64, 4_500_000i64))
    } else if k == "india"@ || k == "印度"@ {
        Some((22_000_000i64, 79_000_000i64))
    } else if k == "turkey"@ || k == "türkiye"@ || k == "土耳其"@ {
        Some((39_000_000i64, 35_200_000i64))
    } else if k == "iran"@ || k == "persia"@ || k == "伊朗"@ || k == "波斯"@ {
        Some((32_400_000i64, 53_700_000i64))
    } else if k == "israel"@ || k == "以色列"@ {
        Some((31_500_000i64, 34_900_000i64))
    } else if k == "egypt"@ || k == "埃及"@ {
        Some((26_800_000i64, 30_800_000i64))
    } else if k == "nigeria"@ || k == "尼日利亚"@ {
        Some((9_100_000i64, 8_700_000i64))
    } else if k == "south africa"@ || k == "南非"@ {
        Some((-30_600_000i64, 24_000_000i64))
    } else if k == "kenya"@ || k == "肯尼亚"@ {
        Some((0i64, 37_900_000i64))
    } else if k == "brazil"@ || k == "巴西"@ {
        Some((-14_200_000i64, -51_900_000i64))
    } else if k == "argentina"@ || k == "阿根廷"@ {
        Some((-38_400_000i64, -63_600_000i64))
    } else if k == "colombia"@ || k == "哥伦比亚"@ {
        Some((4_600_000i64, -74_300_000i64))
    } else if k == "chile"@ || k == "智利"@ {
        Some((-35_700_000i64, -71_500_000i64))
    } else if k == "peru"@ || k == "秘鲁"@ {
        Some((-9_200_000i64, -75_000_000i64))
    } else if k == "mexico"@ || k == "墨西哥"@ {
        Some((23_600_000i64, -102_500_000i64))
    } else if k == "canada"@ || k == "加拿大"@ {
        Some((56_100_000i64, -106_300_000i64))
    } else if k == "australia"@ || k == "澳大利亚"@ {
        Some((-25_300_000i64, 133_800_000i64))
    } else if k == "new zealand"@ || k == "新西兰"@ {
        Some((-41_000_000i64, 174_000_000i64))
    } else if k == "korea"@ || k == "south korea"@ || k == "韩国"@ || k == "南韩"@ {
        Some((36_500_000i64, 127_800_000i64))
    } else if k == "vietnam"@ || k == "越南"@ {
        Some((14_100_000i64, 108_300_000i64))
    } else if k == "indonesia"@ || k == "印度尼西亚"@ || k == "印尼"@ {
        Some((-2_500_000i64, 118_000_000i64))
    } else if k == "hungary"@ || k == "匈牙利"@ {
        Some((47_200_000i64, 19_500_000i64))
    } else if k == "romania"@ || k == "罗马尼亚"@ {
        Some((45_900_000i64, 25_000_000i64))
    } else if k == "ukraine"@ || k == "乌克兰"@ {
        Some((48_400_000i64, 31_200_000i64))
    } else if k == "scotland"@ || k == "苏格兰"@ {
        Some((56_500_000i64, -4_200_000i64))
    } else {
        None
    }
}

/// Whether the characters `c` spell `lit`.
fn same(c: &Vec<char>, lit: &str) -> (r: bool)
    ensures
        r == (c@ == lit@),
{
    let l = chars_of(lit);
    if c.len() != l.len() {
        return false;
    }
    let mut k = 0usize;
    while k < c.len()
        invariant
            c.len() == l.len(),
            l@ == lit@,
            k <= c.len(),
            forall|m: int| 0 <= m < k ==> c@[m] == l@[m],
        decreases c.len() - k,
    {
        if c[k] != l[k] {
            assert(c@[k as int] != l@[k as int]);
            return false;
        }
        k = k + 1;
    }
    assert(c@ =~= l@);
    true
}

/// The point of a country (or region) by name, ignoring case and blanks
/// around it; only countries are known, finer places are given in a note's
/// frontmatter.
pub fn country_coord(name: &str) -> (r: Option<(i64, i64)>)
    ensures
        r == anchor_of(norm(name@)),
        r matches Some((lat, lon)) ==> -90_000_000 <= lat <= 90_000_000 && -180_000_000 <= lon
            <= 180_000_000,
{
    let n = normalize(name);
    let c = chars_of(n.as_str());
    if same(&c, "france") || same(&c, "法国") {
        Some((46_600_000, 2_400_000))
    } else if same(&c, "united kingdom") || same(&c, "uk") || same(&c, "britain") || same(&c, "england") || same(&c, "英国") || same(&c, "英格兰") {
        Some((52_500_000, -1_500_000))
    } else if same(&c, "ireland") || same(&c, "爱尔兰") {
        Some((53_300_000, -7_700_000))
    } else if same(&c, "germany") || same(&c, "德国") {
        Some((51_200_000, 10_400_000))
    } else if same(&c, "russia") || same(&c, "russian") || same(&c, "俄罗斯") || same(&c, "俄国") || same(&c, "苏联") {
        Some((58_000_000, 40_000_000))
    } else if same(&c, "united states") || same(&c, "usa") || same(&c, "us") || same(&c, "america") || same(&c, "美国") {
        Some((39_000_000, -98_000_000))
    } else if same(&c, "japan") || same(&c, "日本") {
        Some((36_200_000, 138_300_000))
    } else if same(&c, "china") || same(&c, "中国") {
        Some((35_900_000, 104_200_000))
    } else if same(&c, "italy") || same(&c, "意大利") {
        Some((42_800_000, 12_600_000))
    } else if same(&c, "spain") || same(&c, "西班牙") {
        Some((40_200_000, -3_700_000))
    } else if same(&c, "portugal") || same(&c, "葡萄牙") {
        Some((39_600_000, -8_000_000))
    } else if same(&c, "greece") || same(&c, "希腊") {
        Some((39_100_000, 22_000_000))
    } else if same(&c, "austria") || same(&c, "奥地利") {
        Some((47_600_000, 14_100_000))
    } else if same(&c, "switzerland") || same(&c, "瑞士") {
        Some((46_800_000, 8_200_000))
    } else if same(&c, "czech") || same(&c, "czechia") || same(&c, "捷克") {
        Some((49_800_000, 15_500_000))
    } else if same(&c, "poland") || same(&c, "波兰") {
        Some((52_100_000, 19_400_000))
    } else if same(&c, "norway") || same(&c, "挪威") {
        Some((60_500_000, 8_500_000))
    } else if same(&c, "sweden") || same(&c, "瑞典") {
        Some((60_100_000, 15_600_000))
    } else if same(&c, "denmark") || same(&c, "丹麦") {
        Some((56_000_000, 9_500_000))
    } else if same(&c, "finland") || same(&c, "芬兰") {
        Some((64_000_000, 26_000_000))
    } else if same(&c, "iceland") || same(&c, "冰岛") {
        Some((64_900_000, -19_000_000))
    } else if same(&c, "netherlands") || same(&c, "holland") || same(&c, "荷兰") {
        Some((52_100_000, 5_300_000))
    } else if same(&c, "belgium") || same(&c, "比利时") {
        Some((50_600_000, 4_500_000))
    } else if same(&c, "india") || same(&c, "印度") {
        Some((22_000_000, 79_000_000))
    } else if same(&c, "turkey") || same(&c, "türkiye") || same(&c, "土耳其") {
        Some((39_000_000, 35_200_000))
    } else if same(&c, "iran") || same(&c, "persia") || same(&c, "伊朗") || same(&c, "波斯") {
        Some((32_400_000, 53_700_000))
    } else if same(&c, "israel") || same(&c, "以色列") {
        Some((31_500_000, 34_900_000))
    } else if same(&c, "egypt") || same(&c, "埃及") {
        Some((26_800_000, 30_800_000))
    } else if same(&c, "nigeria") || same(&c, "尼日利亚") {
        Some((9_100_000, 8_700_000))
    } else if same(&c, "south africa") || same(&c, "南非") {
        Some((-30_600_000, 24_000_000))
    } else if same(&c, "kenya") || same(&c, "肯尼亚") {
        Some((0, 37_900_000))
    } else if same(&c, "brazil") || same(&c, "巴西") {
        Some((-14_200_000, -51_900_000))
    } else if same(&c, "argentina") || same(&c, "阿根廷") {
        Some((-38_400_000, -63_600_000))
    } else if same(&c, "colombia") || same(&c, "哥伦比亚") {
        Some((4_600_000, -74_300_000))
    } else if same(&c, "chile") || same(&c, "智利") {
        Some((-35_700_000, -71_500_000))
    } else if same(&c, "peru") || same(&c, "秘鲁") {
        Some((-9_200_000, -75_000_000))
    } else if same(&c, "mexico") || same(&c, "墨西哥") {
        Some((23_600_000, -102_500_000))
    } else if same(&c, "canada") || same(&c, "加拿大") {
        Some((56_100_000, -106_300_000))
    } else if same(&c, "australia") || same(&c, "澳大利亚") {
        Some((-25_300_000, 133_800_000))
    } else if same(&c, "new zealand") || same(&c, "新西兰") {
        Some((-41_000_000, 174_000_000))
    } else if same(&c, "korea") || same(&c, "south korea") || same(&c, "韩国") || same(&c, "南韩") {
        Some((36_500_000, 127_800_000))
    } else if same(&c, "vietnam") || same(&c, "越南") {
        Some((14_100_000, 108_300_000))
    } else if same(&c, "indonesia") || same(&c, "印度尼西亚") || same(&c, "印尼") {
        Some((-2_500_000, 118_000_000))
    } else if same(&c, "hungary") || same(&c, "匈牙利") {
        Some((47_200_000, 19_500_000))
    } else if same(&c, "romania") || same(&c, "罗马尼亚") {
        Some((45_900_000, 25_000_000))
    } else if same(&c, "ukraine") || same(&c, "乌克兰") {
        Some((48_400_000, 31_200_000))
    } else if same(&c, "scotland") || same(&c, "苏格兰") {
        Some((56_500_000, -4_200_000))
    } else {
        None
    }
}

// ------------------------------------------------------------------ books

/// A book as its note gives it, before it is filed.
pub struct RawBook {
    pub title: String,
    pub path: PathBuf,
    pub author: String,
    pub country: String,
    pub region: Option<String>,
    pub rating: Option<u8>,
    /// The note's own point (`lat`, `lon`), if it gives both.
    pub coord: Option<(i64, i64)>,
    pub weeks: Vec<Week>,
}

/// The value of `key` in a frontmatter, or `fallback`.
pub open spec fn field_or(front: Seq<char>, key: Seq<char>, fallback: Seq<char>) -> Seq<char> {
    match field_value(front, key) {
        Some(v) => v,
        None => fallback,
    }
}

/// The point a frontmatter gives with `lat` and `lon`, when both read as
/// degrees.
pub open spec fn own_point(front: Seq<char>) -> Option<(i64, i64)> {
    match (field_value(front, "lat"@), field_value(front, "lon"@)) {
        (Some(a), Some(b)) => match (degrees_value(a), degrees_value(b)) {
            (Some(x), Some(y)) => Some((x, y)),
            _ => None,
        },
        _ => None,
    }
}

/// The value of `key` in a frontmatter, read by `read`.
fn read_field(front: &Vec<char>, key: &str) -> (r: Option<Vec<char>>)
    ensures
        match r {
            Some(v) => field_value(front@, key@) == Some(v@),
            None => field_value(front@, key@) is None,
        },
{
    match field(front, key) {
        Some(v) => Some(chars_of(v.as_str())),
        None => None,
    }
}

/// Reads one book's note: the title from the frontmatter (else the file
/// name given), author, country, region, rating, the note's own point and
/// its week tags.
pub fn parse_book(title: String, path: PathBuf, text: &str) -> (r: RawBook)
    ensures
        ({
            let front = frontmatter_split(text@).0;
            &&& r.title@ == field_or(front, "title"@, title@)
            &&& r.path == path
            &&& r.author@ == field_or(front, "author"@, seq![])
            &&& r.country@ == field_or(front, "country"@, seq![])
            &&& match r.region {
                Some(v) => field_value(front, "region"@) == Some(v@),
                None => field_value(front, "region"@) is None,
            }
            &&& r.rating == match field_value(front, "rating"@) {
                Some(v) => rating_value(v),
                None => None,
            }
            &&& r.coord == own_point(front)
            &&& strictly_sorted_weeks(r.weeks@)
            &&& r.weeks@.to_set() == scan_weeks(front, 0).to_set()
        }),
{
    let cs = chars_of(text);
    let (front, _body) = split_frontmatter(&cs);
    let lat = match read_field(&front, "lat") {
        Some(v) => parse_degrees(&v),
        None => None,
    };
    let lon = match read_field(&front, "lon") {
        Some(v) => parse_degrees(&v),
        None => None,
    };
    let coord = match (lat, lon) {
        (Some(a), Some(b)) => Some((a, b)),
        _ => None,
    };
    let title = match field(&front, "title") {
        Some(t) => t,
        None => title,
    };
    let author = match field(&front, "author") {
        Some(a) => a,
        None => String::new(),
    };
    let country = match field(&front, "country") {
        Some(c) => c,
        None => String::new(),
    };
    let rating = match read_field(&front, "rating") {
        Some(v) => parse_rating(&v),
        None => None,
    };
    RawBook {
        title,
        path,
        author,
        country,
        region: field(&front, "region"),
        rating,
        coord,
        weeks: parse_weeks(&front),
    }
}

/// A point on the globe a country stands at, with its authors.
pub struct Country {
    pub name: String,
    /// Latitude, north-positive, in millionths of a degree.
    pub lat: i64,
    /// Longitude, east-positive, in millionths of a degree.
    pub lon: i64,
    /// Indices into `ReadingMap::authors`, ascending.
    pub authors: Vec<u32>,
}

/// An author, filed under one country, with the books read.
pub struct Author {
    pub name: String,
    pub country: u32,
    /// Indices into `ReadingMap::books`, ascending.
    pub books: Vec<u32>,
}

/// A book read.
pub struct Book {
    pub title: String,
    pub author: u32,
    pub path: PathBuf,
    /// Rating 1-5, when given.
    pub rating: Option<u8>,
    /// A city or province, for display.
    pub region: Option<String>,
    /// The weeks of the book, as ascending indices into `ReadingMap::weeks`.
    pub weeks: Vec<u16>,
}

impl Book {
    /// The most recent week of the book (an index).
    pub fn last_week(&self) -> (r: Option<u16>)
        ensures
            self.weeks.len() == 0 ==> r is None,
            self.weeks.len() > 0 ==> r == Some(self.weeks@.last()),
    {
        if self.weeks.len() == 0 {
            None
        } else {
            Some(self.weeks[self.weeks.len() - 1])
        }
    }
}

pub struct ReadingMap {
    pub countries: Vec<Country>,
    pub authors: Vec<Author>,
    pub books: Vec<Book>,
    /// Every week of the library, ascending.
    pub weeks: Vec<Week>,
    /// Books with a country that has no known point and no point of their
    /// own, a hint at misspelt countries.
    pub unplaced: usize,
}

impl ReadingMap {
    /// The empty map.
    pub fn empty() -> (m: ReadingMap)
        ensures
            m.countries.len() == 0,
            m.authors.len() == 0,
            m.books.len() == 0,
            m.weeks.len() == 0,
            m.unplaced == 0,
    {
        ReadingMap { countries: Vec::new(), authors: Vec::new(), books: Vec::new(), weeks: Vec::new(), unplaced: 0 }
    }
}

impl Default for ReadingMap {
    fn default() -> (m: ReadingMap)
        ensures
            m.countries.len() == 0,
            m.authors.len() == 0,
            m.books.len() == 0,
            m.weeks.len() == 0,
            m.unplaced == 0,
    {
        ReadingMap::empty()
    }
}

// ------------------------------------------------------------------ filing

/// The point a raw book is placed at: its own, else its country's.
pub open spec fn anchor(r: RawBook) -> Option<(i64, i64)> {
    match r.coord {
        Some(c) => Some(c),
        None => anchor_of(norm(r.country@)),
    }
}

/// Positions, among the first `n` raw books, of those that have a place.
pub open spec fn placed_upto(rs: Seq<RawBook>, n: int) -> Seq<int>
    decreases n,
{
    if n <= 0 {
        seq![]
    } else if anchor(rs[n - 1]) is Some {
        placed_upto(rs, n - 1).push(n - 1)
    } else {
        placed_upto(rs, n - 1)
    }
}

/// Positions of the raw books that have a place; the map holds them in this
/// order.
pub open spec fn placed(rs: Seq<RawBook>) -> Seq<int> {
    placed_upto(rs, rs.len() as int)
}

/// Every week of the raw books.
pub open spec fn raw_week_set(rs: Seq<RawBook>) -> Set<Week> {
    Set::new(|w: Week| exists|i: int| 0 <= i < rs.len() && rs[i].weeks@.contains(w))
}

/// The country a filed book is under (through its author).
pub open spec fn book_country(authors: Seq<Author>, books: Seq<Book>, k: int) -> int {
    authors[books[k].author as int].country as int
}

/// Book `k` is the first book under country `c`.
pub open spec fn opens_country(authors: Seq<Author>, books: Seq<Book>, c: int, k: int) -> bool {
    &&& 0 <= k < books.len()
    &&& book_country(authors, books, k) == c
    &&& forall|j: int| 0 <= j < k ==> book_country(authors, books, j) != c
}

/// Book `k` is the first book by author `a`.
pub open spec fn opens_author(books: Seq<Book>, a: int, k: int) -> bool {
    &&& 0 <= k < books.len()
    &&& books[k].author == a
    &&& forall|j: int| 0 <= j < k ==> books[j].author != a
}

/// Book `k` of the map is the raw book `r`, filed.
pub open spec fn book_from(countries: Seq<Country>, authors: Seq<Author>, books: Seq<Book>, weeks: Seq<Week>, k: int, r: RawBook) -> bool {
    let b = books[k];
    &&& b.title == r.title
    &&& b.path == r.path
    &&& b.rating == r.rating
    &&& b.region == r.region
    &&& key_sorted(b.weeks@)
    &&& b.weeks@.to_set() == r.weeks@.to_set().map(|w: Week| index_in(weeks, w) as u16)
    &&& b.author < authors.len()
    &&& authors[b.author as int].country < countries.len()
    &&& norm(countries[book_country(authors, books, k)].name@) == norm(r.country@)
    &&& norm(authors[b.author as int].name@) == norm(r.author@)
}

/// Country `c` starts with raw book `r`: its name and point are `r`'s.
pub open spec fn country_from(c: Country, r: RawBook) -> bool {
    c.name == r.country && anchor(r) == Some((c.lat, c.lon))
}

/// Each country's authors and each author's books, ascending and complete.
pub open spec fn member_lists(countries: Seq<Country>, authors: Seq<Author>, books: Seq<Book>) -> bool {
    &&& forall|c: int| 0 <= c < countries.len() ==> {
        &&& ascending(#[trigger] countries[c].authors@)
        &&& forall|a: u32| countries[c].authors@.contains(a) <==> (a < authors.len() && authors[a as int].country == c)
    }
    &&& forall|a: int| 0 <= a < authors.len() ==> {
        &&& ascending(#[trigger] authors[a].books@)
        &&& forall|k: u32| authors[a].books@.contains(k) <==> (k < books.len() && books[k as int].author == a)
    }
}

/// Country `c` has a first book, and starts with it.
pub open spec fn country_opened(cs: Seq<Country>, aus: Seq<Author>, bs: Seq<Book>, rs: Seq<RawBook>, c: int) -> bool {
    exists|k: int| #[trigger] opens_country(aus, bs, c, k) && country_from(cs[c], rs[placed(rs)[k]])
}

/// Author `a` has a first book, and takes the name written in it.
pub open spec fn author_opened(aus: Seq<Author>, bs: Seq<Book>, rs: Seq<RawBook>, a: int) -> bool {
    exists|k: int| #[trigger] opens_author(bs, a, k) && aus[a].name == rs[placed(rs)[k]].author
}

/// `m` files the raw books `rs`: the books with a place in order, the rest
/// counted as unplaced; one country per country name (compared trimmed and
/// in lower case), one author per author name in a country, each started
/// by its first book and numbered in the order they start; and the lists
/// of authors and books under them.
pub open spec fn filed(m: ReadingMap, rs: Seq<RawBook>) -> bool {
    let src = placed(rs);
    let cs = m.countries@;
    let aus = m.authors@;
    let bs = m.books@;
    &&& bs.len() == src.len()
    &&& m.unplaced == rs.len() - src.len()
    &&& key_sorted(m.weeks@)
    &&& m.weeks@.to_set() == raw_week_set(rs)
    &&& forall|k: int| 0 <= k < bs.len() ==> #[trigger] book_from(cs, aus, bs, m.weeks@, k, rs[src[k]])
    &&& forall|c1: int, c2: int| 0 <= c1 < c2 < cs.len() ==> norm(#[trigger] cs[c1].name@) != norm(#[trigger] cs[c2].name@)
    &&& forall|c: int| 0 <= c < cs.len() ==> #[trigger] country_opened(cs, aus, bs, rs, c)
    &&& forall|c1: int, c2: int, k1: int, k2: int|
        c1 < c2 && #[trigger] opens_country(aus, bs, c1, k1) && #[trigger] opens_country(aus, bs, c2, k2) ==> k1 < k2
    &&& forall|a1: int, a2: int| 0 <= a1 < a2 < aus.len() ==> !(#[trigger] aus[a1].country == #[trigger] aus[a2].country
        && norm(aus[a1].name@) == norm(aus[a2].name@))
    &&& forall|a: int| 0 <= a < aus.len() ==> #[trigger] author_opened(aus, bs, rs, a)
    &&& forall|a1: int, a2: int, k1: int, k2: int|
        a1 < a2 && #[trigger] opens_author(bs, a1, k1) && #[trigger] opens_author(bs, a2, k2) ==> k1 < k2
    &&& member_lists(cs, aus, bs)
}

/// Every week of the raw books, ascending.
fn collect_book_weeks(raws: &Vec<RawBook>) -> (out: Vec<Week>)
    ensures
        key_sorted(out@),
        out@.to_set() == raw_week_set(raws@),
{
    let mut out: Vec<Week> = Vec::new();
    let mut i = 0usize;
    while i < raws.len()
        invariant
            i <= raws.len(),
            key_sorted(out@),
            out@.to_set() == Set::new(|w: Week| exists|j: int| 0 <= j < i && raws@[j].weeks@.contains(w)),
        decreases raws.len() - i,
    {
        let ws = &raws[i].weeks;
        let mut k = 0usize;
        while k < ws.len()
            invariant
                i < raws.len(),
                k <= ws.len(),
                ws == &raws@[i as int].weeks,
                key_sorted(out@),
                out@.to_set() == Set::new(
                    |w: Week| (exists|j: int| 0 <= j < i && raws@[j].weeks@.contains(w)) || ws@.take(k as int).contains(w),
                ),
            decreases ws.len() - k,
        {
            insert_unique(&mut out, ws[k]);
            k = k + 1;
            assert(out@.to_set() =~= Set::new(
                |w: Week| (exists|j: int| 0 <= j < i && raws@[j].weeks@.contains(w)) || ws@.take(k as int).contains(w),
            )) by {
                lemma_take_contains(ws@, k as int);
            }
        }
        i = i + 1;
        assert(out@.to_set() =~= Set::new(|w: Week| exists|j: int| 0 <= j < i && raws@[j].weeks@.contains(w))) by {
            assert(ws@.take(ws.len() as int) =~= ws@);
        }
    }
    assert(out@.to_set() =~= raw_week_set(raws@));
    out
}

/// The map while it is being filled, with what is needed to look things up
/// in it.
struct Shelf {
    countries: Vec<Country>,
    authors: Vec<Author>,
    books: Vec<Book>,
    /// Normalised country name -> country index.
    country_of: StringHashMap<u32>,
    /// The normalised name of each author.
    author_keys: Vec<Vec<char>>,
    /// The first book of each country and of each author.
    country_start: Ghost<Seq<int>>,
    author_start: Ghost<Seq<int>>,
}

/// The shelf files the raw books at positions `src` of `rs`.
spec fn shelf_ok(sh: Shelf, rs: Seq<RawBook>, src: Seq<int>, weeks: Seq<Week>) -> bool {
    let cs = sh.countries@;
    let aus = sh.authors@;
    let bs = sh.books@;
    let cst = sh.country_start@;
    let ast = sh.author_start@;
    &&& bs.len() == src.len()
    &&& forall|k: int| 0 <= k < src.len() ==> 0 <= #[trigger] src[k] < rs.len()
    &&& forall|k: int| 0 <= k < bs.len() ==> #[trigger] book_from(cs, aus, bs, weeks, k, rs[src[k]])
    &&& forall|c1: int, c2: int| 0 <= c1 < c2 < cs.len() ==> norm(#[trigger] cs[c1].name@) != norm(#[trigger] cs[c2].name@)
    &&& cst.len() == cs.len()
    &&& forall|c: int| 0 <= c < cs.len() ==> #[trigger] opens_country(aus, bs, c, cst[c]) && country_from(cs[c], rs[src[cst[c]]])
    &&& forall|c1: int, c2: int| 0 <= c1 < c2 < cs.len() ==> #[trigger] cst[c1] < #[trigger] cst[c2]
    &&& forall|a1: int, a2: int| 0 <= a1 < a2 < aus.len() ==> !(#[trigger] aus[a1].country == #[trigger] aus[a2].country
        && norm(aus[a1].name@) == norm(aus[a2].name@))
    &&& ast.len() == aus.len()
    &&& forall|a: int| 0 <= a < aus.len() ==> #[trigger] opens_author(bs, a, ast[a]) && aus[a].name == rs[src[ast[a]]].author
    &&& forall|a1: int, a2: int| 0 <= a1 < a2 < aus.len() ==> #[trigger] ast[a1] < #[trigger] ast[a2]
    &&& forall|a: int| 0 <= a < aus.len() ==> (#[trigger] aus[a]).country < cs.len()
    &&& member_lists(cs, aus, bs)
    &&& sh.author_keys.len() == aus.len()
    &&& forall|a: int| 0 <= a < aus.len() ==> (#[trigger] sh.author_keys@[a])@ == norm(aus[a].name@)
    &&& forall|key: Seq<char>| #[trigger] sh.country_of@.contains_key(key) ==> {
        &&& sh.country_of@[key] < cs.len()
        &&& norm(cs[sh.country_of@[key] as int].name@) == key
    }
    &&& forall|c: int| 0 <= c < cs.len() ==> #[trigger] sh.country_of@.contains_key(norm(cs[c].name@))
}

/// Puts the shelf's invariant together from its parts.
proof fn lemma_shelf_ok_intro(sh: Shelf, rs: Seq<RawBook>, src: Seq<int>, weeks: Seq<Week>)
    requires
        sh.books@.len() == src.len(),
        forall|k: int| 0 <= k < src.len() ==> 0 <= #[trigger] src[k] < rs.len(),
        forall|k: int| 0 <= k < sh.books@.len() ==> #[trigger] book_from(sh.countries@, sh.authors@, sh.books@, weeks, k, rs[src[k]]),
        forall|c1: int, c2: int| 0 <= c1 < c2 < sh.countries@.len() ==> norm(#[trigger] sh.countries@[c1].name@) != norm(#[trigger] sh.countries@[c2].name@),
        sh.country_start@.len() == sh.countries@.len(),
        forall|c: int| 0 <= c < sh.countries@.len() ==> #[trigger] opens_country(sh.authors@, sh.books@, c, sh.country_start@[c]) && country_from(sh.countries@[c], rs[src[sh.country_start@[c]]]),
        forall|c1: int, c2: int| 0 <= c1 < c2 < sh.countries@.len() ==> #[trigger] sh.country_start@[c1] < #[trigger] sh.country_start@[c2],
        forall|a1: int, a2: int| 0 <= a1 < a2 < sh.authors@.len() ==> !(#[trigger] sh.authors@[a1].country == #[trigger] sh.authors@[a2].country
            && norm(sh.authors@[a1].name@) == norm(sh.authors@[a2].name@)),
        sh.author_start@.len() == sh.authors@.len(),
        forall|a: int| 0 <= a < sh.authors@.len() ==> #[trigger] opens_author(sh.books@, a, sh.author_start@[a]) && sh.authors@[a].name == rs[src[sh.author_start@[a]]].author,
        forall|a1: int, a2: int| 0 <= a1 < a2 < sh.authors@.len() ==> #[trigger] sh.author_start@[a1] < #[trigger] sh.author_start@[a2],
        forall|a: int| 0 <= a < sh.authors@.len() ==> (#[trigger] sh.authors@[a]).country < sh.countries@.len(),
        member_lists(sh.countries@, sh.authors@, sh.books@),
        sh.author_keys.len() == sh.authors@.len(),
        forall|a: int| 0 <= a < sh.authors@.len() ==> (#[trigger] sh.author_keys@[a])@ == norm(sh.authors@[a].name@),
        forall|key: Seq<char>| #[trigger] sh.country_of@.contains_key(key) ==> {
            &&& sh.country_of@[key] < sh.countries@.len()
            &&& norm(sh.countries@[sh.country_of@[key] as int].name@) == key
        },
        forall|c: int| 0 <= c < sh.countries@.len() ==> #[trigger] sh.country_of@.contains_key(norm(sh.countries@[c].name@)),
    ensures
        shelf_ok(sh, rs, src, weeks),
{
}

impl Shelf {
    fn new() -> (sh: Shelf)
        ensures
            forall|rs: Seq<RawBook>, weeks: Seq<Week>| shelf_ok(sh, rs, seq![], weeks),
    {
        Shelf {
            countries: Vec::new(),
            authors: Vec::new(),
            books: Vec::new(),
            country_of: StringHashMap::new(),
            author_keys: Vec::new(),
            country_start: Ghost(Seq::empty()),
            author_start: Ghost(Seq::empty()),
        }
    }

    /// Files the raw book `raw` (number `i` of `rs`), placed at `(lat, lon)`.
    #[verifier::rlimit(100)]
    #[verifier::spinoff_prover]
    fn add_book(&mut self, raw: RawBook, lat: i64, lon: i64, weeks: &Vec<Week>, Ghost(rs): Ghost<Seq<RawBook>>, Ghost(src): Ghost<Seq<int>>, Ghost(i): Ghost<int>)
        requires
            shelf_ok(*old(self), rs, src, weeks@),
            0 <= i < rs.len() < u32::MAX,
            raw == rs[i],
            anchor(raw) == Some((lat, lon)),
            src.len() <= i,
            key_sorted(weeks@),
            forall|k: int| 0 <= k < raw.weeks.len() ==> weeks@.contains(#[trigger] raw.weeks@[k]),
        ensures
            shelf_ok(*final(self), rs, src.push(i), weeks@),
    {
        let ghost r = raw;
        let ghost cs0 = self.countries@;
        let ghost aus0 = self.authors@;
        let ghost bs0 = self.books@;
        let ghost keys0 = self.author_keys@;
        let ghost map0 = self.country_of@;
        proof {
            assert forall|c: int| 0 <= c < self.country_start@.len() implies 0 <= #[trigger] self.country_start@[c] < bs0.len() by {
                assert(opens_country(aus0, bs0, c, self.country_start@[c]));
            }
            assert forall|a: int| 0 <= a < self.author_start@.len() implies 0 <= #[trigger] self.author_start@[a] < bs0.len() by {
                assert(opens_author(bs0, a, self.author_start@[a]));
            }
            lemma_increasing_len(self.country_start@, bs0.len() as int);
            lemma_increasing_len(self.author_start@, bs0.len() as int);
        }
        let k_new = self.books.len();
        let key = normalize(raw.country.as_str());
        // the country
        let found_c = match self.country_of.get(key.as_str()) {
            Some(c) => Some(*c),
            None => None,
        };
        let ci: u32 = match found_c {
            Some(c) => c,
            None => {
                let c = self.countries.len() as u32;
                self.countries.push(Country { name: raw.country, lat, lon, authors: Vec::new() });
                self.country_of.insert(key, c);
                c
            },
        };
        let ghost cs1 = self.countries@;
        proof {
            assert forall|x: int| 0 <= x < self.countries@[ci as int].authors.len() implies
                (#[trigger] self.countries@[ci as int].authors@[x]) < self.authors.len() by {
                if found_c is Some {
                    assert(cs0[ci as int].authors@.contains(cs0[ci as int].authors@[x]));
                }
            }
        }
        // the author
        let akey = chars_of(normalize(raw.author.as_str()).as_str());
        let mut found_a: Option<u32> = None;
        let mut j = 0usize;
        while j < self.countries[ci as usize].authors.len() && found_a.is_none()
            invariant
                self.countries@ == cs1,
                self.authors@ == aus0,
                self.author_keys@ == keys0,
                ci < cs1.len(),
                j <= cs1[ci as int].authors.len(),
                keys0.len() == aus0.len(),
                forall|x: int| 0 <= x < cs1[ci as int].authors.len() ==> (#[trigger] cs1[ci as int].authors@[x]) < aus0.len(),
                match found_a {
                    Some(a) => a < aus0.len() && cs1[ci as int].authors@.contains(a) && keys0[a as int]@ == akey@,
                    None => forall|x: int| 0 <= x < j ==> keys0[#[trigger] cs1[ci as int].authors@[x] as int]@ != akey@,
                },
            decreases cs1[ci as int].authors.len() - j,
        {
            let a = self.countries[ci as usize].authors[j];
            if chars_eq(&self.author_keys[a as usize], &akey) {
                found_a = Some(a);
                assert(cs1[ci as int].authors@[j as int] == a);
            }
            j = j + 1;
        }
        let ghost keys_new = akey@;
        let ai: u32 = match found_a {
            Some(a) => a,
            None => {
                let a = self.authors.len() as u32;
                self.authors.push(Author { name: raw.author, country: ci, books: Vec::new() });
                self.author_keys.push(akey);
                self.countries[ci as usize].authors.push(a);
                a
            },
        };
        let ghost aus1 = self.authors@;
        let ghost cs2 = self.countries@;
        // the book
        let wi = week_indices(weeks, &raw.weeks);
        self.books.push(Book { title: raw.title, author: ai, path: raw.path, rating: raw.rating, region: raw.region, weeks: wi });
        self.authors[ai as usize].books.push(k_new as u32);
        proof {
            if found_c is None {
                self.country_start@ = self.country_start@.push(k_new as int);
            }
            if found_a is None {
                self.author_start@ = self.author_start@.push(k_new as int);
            }
        }
        proof {
            let cs = self.countries@;
            let aus = self.authors@;
            let bs = self.books@;
            let cst = self.country_start@;
            let ast = self.author_start@;
            let src2 = src.push(i);
            // what the new book is filed under
            assert(cs.len() == cs0.len() + if found_c is None { 1int } else { 0int });
            assert(aus.len() == aus0.len() + if found_a is None { 1int } else { 0int });
            assert(ci < cs.len() && ai < aus.len());
            assert(norm(cs[ci as int].name@) == key@) by {
                if found_c is Some {
                    assert(map0.contains_key(key@));
                }
            }
            assert(aus[ai as int].country == ci);
            assert(norm(aus[ai as int].name@) == akey@) by {
                if found_a is Some {
                    assert(keys0[ai as int]@ == norm(aus0[ai as int].name@));
                    assert(cs0[ci as int].authors@.contains(ai));
                }
            }
            // nothing filed before changes
            assert forall|a: int| 0 <= a < aus0.len() implies (#[trigger] aus[a]).country == aus0[a].country
                && aus[a].name == aus0[a].name by {
            }
            assert forall|c: int| 0 <= c < cs0.len() implies (#[trigger] cs[c]).name == cs0[c].name
                && cs[c].lat == cs0[c].lat && cs[c].lon == cs0[c].lon by {
            }
            assert forall|k: int| 0 <= k < bs0.len() implies #[trigger] bs[k] == bs0[k] by {
            }
            assert forall|k: int| 0 <= k < bs0.len() implies #[trigger] book_country(aus, bs, k) == book_country(aus0, bs0, k) by {
                assert(book_from(cs0, aus0, bs0, weeks@, k, rs[src[k]]));
            }
            assert(book_country(aus, bs, k_new as int) == ci);
            // books
            assert forall|k: int| 0 <= k < bs.len() implies #[trigger] book_from(cs, aus, bs, weeks@, k, rs[src2[k]]) by {
                if k < bs0.len() {
                    assert(book_from(cs0, aus0, bs0, weeks@, k, rs[src[k]]));
                    assert(src2[k] == src[k]);
                } else {
                    assert(src2[k] == i);
                }
            }
            // countries
            assert forall|c1: int, c2: int| 0 <= c1 < c2 < cs.len() implies norm(#[trigger] cs[c1].name@) != norm(#[trigger] cs[c2].name@) by {
                if c2 >= cs0.len() {
                    assert(!map0.contains_key(key@));
                    assert(map0.contains_key(norm(cs0[c1].name@)));
                }
            }
            assert forall|c: int| 0 <= c < cs.len() implies #[trigger] opens_country(aus, bs, c, cst[c]) && country_from(cs[c], rs[src2[cst[c]]]) by {
                if c < cs0.len() {
                    assert(opens_country(aus0, bs0, c, cst[c]));
                    assert(src2[cst[c]] == src[cst[c]]);
                } else {
                    assert(cst[c] == k_new);
                    assert forall|j: int| 0 <= j < k_new implies book_country(aus, bs, j) != c by {
                        assert(book_from(cs0, aus0, bs0, weeks@, j, rs[src[j]]));
                    }
                }
            }
            // authors
            assert forall|a1: int, a2: int| 0 <= a1 < a2 < aus.len() implies !(#[trigger] aus[a1].country == #[trigger] aus[a2].country
                && norm(aus[a1].name@) == norm(aus[a2].name@)) by {
                if a2 >= aus0.len() && aus[a1].country == aus[a2].country {
                    assert(cs0[ci as int].authors@.contains(a1 as u32));
                    let x = choose|x: int| 0 <= x < cs0[ci as int].authors.len() && cs0[ci as int].authors@[x] == a1 as u32;
                    assert(keys0[cs1[ci as int].authors@[x] as int]@ != akey@);
                }
            }
            assert forall|a: int| 0 <= a < aus.len() implies #[trigger] opens_author(bs, a, ast[a]) && aus[a].name == rs[src2[ast[a]]].author by {
                if a < aus0.len() {
                    assert(opens_author(bs0, a, ast[a]));
                    assert(src2[ast[a]] == src[ast[a]]);
                } else {
                    assert(ast[a] == k_new);
                    assert forall|j: int| 0 <= j < k_new implies bs[j].author != a by {
                        assert(book_from(cs0, aus0, bs0, weeks@, j, rs[src[j]]));
                    }
                }
            }
            assert forall|a: int| 0 <= a < aus.len() implies (#[trigger] aus[a]).country < cs.len() by {
            }
            // member lists
            assert forall|c: int| 0 <= c < cs.len() implies {
                &&& ascending(#[trigger] cs[c].authors@)
                &&& forall|a: u32| cs[c].authors@.contains(a) <==> (a < aus.len() && aus[a as int].country == c)
            } by {
                if c < cs0.len() {
                    assert(ascending(cs0[c].authors@));
                }
                if c == ci && found_a is None {
                    assert(cs[c].authors@ == cs1[c].authors@.push(ai));
                    assert forall|a: u32| cs[c].authors@.contains(a) <==> (a < aus.len() && aus[a as int].country == c) by {
                        if cs1[c].authors@.contains(a) {
                            let x = choose|x: int| 0 <= x < cs1[c].authors.len() && cs1[c].authors@[x] == a;
                            assert(cs[c].authors@[x] == a);
                        }
                        if a == ai {
                            assert(cs[c].authors@[cs[c].authors.len() - 1] == a);
                        }
                        if cs[c].authors@.contains(a) && a != ai {
                            let x = choose|x: int| 0 <= x < cs[c].authors.len() && cs[c].authors@[x] == a;
                            assert(cs1[c].authors@[x] == a);
                        }
                    }
                    assert forall|x: int, y: int| 0 <= x < y < cs[c].authors.len() implies cs[c].authors@[x] < cs[c].authors@[y] by {
                        if y == cs[c].authors.len() - 1 {
                            assert(cs1[c].authors@.contains(cs[c].authors@[x]));
                        }
                    }
                }
            }
            assert forall|a: int| 0 <= a < aus.len() implies {
                &&& ascending(#[trigger] aus[a].books@)
                &&& forall|k: u32| aus[a].books@.contains(k) <==> (k < bs.len() && bs[k as int].author == a)
            } by {
                let before = if a < aus0.len() { aus0[a].books@ } else { Seq::<u32>::empty() };
                assert forall|k: u32| #[trigger] before.contains(k) <==> (k < bs0.len() && bs0[k as int].author == a) by {
                    if a < aus0.len() {
                        assert(ascending(aus0[a].books@));
                    } else if k < bs0.len() {
                        assert(book_from(cs0, aus0, bs0, weeks@, k as int, rs[src[k as int]]));
                    }
                }
                if a == ai {
                    assert(aus[a].books@ == before.push(k_new as u32));
                    assert forall|k: u32| aus[a].books@.contains(k) <==> (k < bs.len() && bs[k as int].author == a) by {
                        if before.contains(k) {
                            let x = choose|x: int| 0 <= x < before.len() && before[x] == k;
                            assert(aus[a].books@[x] == k);
                        }
                        if k == k_new {
                            assert(aus[a].books@[aus[a].books.len() - 1] == k);
                        }
                        if aus[a].books@.contains(k) && k != k_new {
                            let x = choose|x: int| 0 <= x < aus[a].books.len() && aus[a].books@[x] == k;
                            assert(before[x] == k);
                        }
                        if k < bs0.len() {
                            assert(bs[k as int] == bs0[k as int]);
                        }
                    }
                    assert forall|x: int, y: int| 0 <= x < y < aus[a].books.len() implies aus[a].books@[x] < aus[a].books@[y] by {
                        if y == aus[a].books.len() - 1 {
                            assert(before.contains(aus[a].books@[x]));
                        }
                    }
                } else {
                    assert(aus[a].books@ == aus0[a].books@);
                }
            }
            assert(member_lists(cs, aus, bs));
            // the lookup tables
            assert forall|a: int| 0 <= a < aus.len() implies (#[trigger] self.author_keys@[a])@ == norm(aus[a].name@) by {
            }
            assert forall|k: Seq<char>| #[trigger] self.country_of@.contains_key(k) implies {
                &&& self.country_of@[k] < cs.len()
                &&& norm(cs[self.country_of@[k] as int].name@) == k
            } by {
                if k != key@ || found_c is Some {
                    assert(map0.contains_key(k));
                }
            }
            assert forall|c: int| 0 <= c < cs.len() implies #[trigger] self.country_of@.contains_key(norm(cs[c].name@)) by {
                if c < cs0.len() {
                    assert(map0.contains_key(norm(cs0[c].name@)));
                }
            }
            lemma_shelf_ok_intro(*self, rs, src2, weeks@);
        }
    }
}

/// Files the raw books: every book with a place (its own point, else its
/// country's) goes under its author and country, created on first sight;
/// A book can be put on the map only with an author and a country.
pub open spec fn fileable(r: RawBook) -> bool {
    r.author@.len() > 0 && r.country@.len() > 0
}

/// The books that name both an author and a country, in their order.
pub fn fileable_books(raws: Vec<RawBook>) -> (out: Vec<RawBook>)
    ensures
        out@ == raws@.filter(|r: RawBook| fileable(r)),
{
    let ghost rs = raws@;
    let ghost f = |r: RawBook| fileable(r);
    let n = raws.len();
    let mut raws = raws;
    let mut rev: Vec<RawBook> = Vec::new();
    while raws.len() > 0
        invariant
            raws.len() + rev.len() == n,
            n == rs.len(),
            raws@ == rs.take(raws.len() as int),
            forall|j: int| 0 <= j < rev.len() ==> #[trigger] rev@[j] == rs[n - 1 - j],
        decreases raws.len(),
    {
        let ghost before = raws@;
        let r = raws.pop().unwrap();
        assert(r == rs[raws.len() as int]) by {
            assert(before[raws.len() as int] == rs.take(raws.len() + 1)[raws.len() as int]);
        }
        assert(raws@ =~= rs.take(raws.len() as int));
        rev.push(r);
    }
    let mut out: Vec<RawBook> = Vec::new();
    let mut i = 0usize;
    proof {
        reveal(Seq::filter);
        assert(rs.take(0) =~= Seq::<RawBook>::empty());
    }
    while rev.len() > 0
        invariant
            rev.len() + i == n,
            n == rs.len(),
            f == (|r: RawBook| fileable(r)),
            forall|j: int| 0 <= j < rev.len() ==> #[trigger] rev@[j] == rs[n - 1 - j],
            out@ == rs.take(i as int).filter(f),
        decreases rev.len(),
    {
        let raw = rev.pop().unwrap();
        assert(raw == rs[i as int]);
        let keep = raw.author.as_str().unicode_len() > 0 && raw.country.as_str().unicode_len() > 0;
        proof {
            reveal(Seq::filter);
            assert(rs.take(i + 1).drop_last() =~= rs.take(i as int));
            assert(rs.take(i + 1).last() == raw);
        }
        if keep {
            out.push(raw);
        }
        i = i + 1;
    }
    assert(rs.take(n as int) =~= rs);
    out
}

/// the others are counted as unplaced.
pub fn build(raws: Vec<RawBook>) -> (m: ReadingMap)
    requires
        raws.len() < u32::MAX,
    ensures
        filed(m, raws@),
{
    let ghost rs = raws@;
    let weeks = collect_book_weeks(&raws);
    let n = raws.len();
    let mut raws = raws;
    let mut rev: Vec<RawBook> = Vec::new();
    while raws.len() > 0
        invariant
            raws.len() + rev.len() == n,
            n == rs.len(),
            raws@ == rs.take(raws.len() as int),
            forall|j: int| 0 <= j < rev.len() ==> #[trigger] rev@[j] == rs[n - 1 - j],
        decreases raws.len(),
    {
        let ghost before = raws@;
        let r = raws.pop().unwrap();
        assert(r == rs[raws.len() as int]) by {
            assert(before[raws.len() as int] == rs.take(raws.len() + 1)[raws.len() as int]);
        }
        assert(raws@ =~= rs.take(raws.len() as int));
        rev.push(r);
    }
    let mut sh = Shelf::new();
    let mut unplaced = 0usize;
    let mut i = 0usize;
    while rev.len() > 0
        invariant
            rev.len() + i == n,
            n == rs.len() < u32::MAX,
            forall|j: int| 0 <= j < rev.len() ==> #[trigger] rev@[j] == rs[n - 1 - j],
            key_sorted(weeks@),
            weeks@.to_set() == raw_week_set(rs),
            shelf_ok(sh, rs, placed_upto(rs, i as int), weeks@),
            placed_upto(rs, i as int).len() <= i,
            forall|k: int| 0 <= k < placed_upto(rs, i as int).len() ==> #[trigger] placed_upto(rs, i as int)[k] < i,
            unplaced == i - placed_upto(rs, i as int).len(),
        decreases rev.len(),
    {
        let raw = rev.pop().unwrap();
        assert(raw == rs[i as int]);
        let coord = match raw.coord {
            Some(c) => Some(c),
            None => country_coord(raw.country.as_str()),
        };
        assert(coord == anchor(raw));
        let ghost src = placed_upto(rs, i as int);
        match coord {
            None => {
                unplaced = unplaced + 1;
            },
            Some((lat, lon)) => {
                proof {
                    assert forall|k: int| 0 <= k < raw.weeks.len() implies weeks@.contains(#[trigger] raw.weeks@[k]) by {
                        assert(raw_week_set(rs).contains(raw.weeks@[k])) by {
                            assert(rs[i as int].weeks@.contains(raw.weeks@[k]));
                        }
                        assert(weeks@.to_set().contains(raw.weeks@[k]));
                    }
                }
                sh.add_book(raw, lat, lon, &weeks, Ghost(rs), Ghost(src), Ghost(i as int));
            },
        }
        i = i + 1;
        assert(placed_upto(rs, i as int) == if anchor(rs[i - 1]) is Some {
            src.push(i - 1)
        } else {
            src
        });
    }
    let m = ReadingMap { countries: sh.countries, authors: sh.authors, books: sh.books, weeks, unplaced };
    proof {
        lemma_shelf_filed(sh, m, rs, weeks@);
    }
    m
}

proof fn lemma_shelf_filed(sh: Shelf, m: ReadingMap, rs: Seq<RawBook>, weeks: Seq<Week>)
    requires
        shelf_ok(sh, rs, placed(rs), weeks),
        m.countries@ == sh.countries@,
        m.authors@ == sh.authors@,
        m.books@ == sh.books@,
        m.weeks@ == weeks,
        key_sorted(weeks),
        weeks.to_set() == raw_week_set(rs),
        m.unplaced == rs.len() - placed(rs).len(),
    ensures
        filed(m, rs),
{
    assert forall|c: int| 0 <= c < m.countries@.len() implies #[trigger] country_opened(m.countries@, m.authors@, m.books@, rs, c) by {
        let k = sh.country_start@[c];
        assert(opens_country(m.authors@, m.books@, c, k));
        assert(country_from(m.countries@[c], rs[placed(rs)[k]]));
    }
    assert forall|c1: int, c2: int, k1: int, k2: int|
        c1 < c2 && #[trigger] opens_country(m.authors@, m.books@, c1, k1) && #[trigger] opens_country(m.authors@, m.books@, c2, k2)
        implies k1 < k2 by {
        let cst = sh.country_start@;
        assert(book_from(m.countries@, m.authors@, m.books@, weeks, k2, rs[placed(rs)[k2]]));
        assert(book_from(m.countries@, m.authors@, m.books@, weeks, k1, rs[placed(rs)[k1]]));
        assert(opens_country(m.authors@, m.books@, c1, cst[c1]));
        assert(opens_country(m.authors@, m.books@, c2, cst[c2]));
        assert(k1 == cst[c1]) by {
            if k1 < cst[c1] {
            } else if cst[c1] < k1 {
            }
        }
        assert(k2 == cst[c2]) by {
            if k2 < cst[c2] {
            } else if cst[c2] < k2 {
            }
        }
    }
    assert forall|a: int| 0 <= a < m.authors@.len() implies #[trigger] author_opened(m.authors@, m.books@, rs, a) by {
        let k = sh.author_start@[a];
        assert(opens_author(m.books@, a, k));
    }
    assert forall|a1: int, a2: int, k1: int, k2: int|
        a1 < a2 && #[trigger] opens_author(m.books@, a1, k1) && #[trigger] opens_author(m.books@, a2, k2) implies k1 < k2 by {
        let ast = sh.author_start@;
        assert(book_from(m.countries@, m.authors@, m.books@, weeks, k2, rs[placed(rs)[k2]]));
        assert(book_from(m.countries@, m.authors@, m.books@, weeks, k1, rs[placed(rs)[k1]]));
        assert(opens_author(m.books@, a1, ast[a1]));
        assert(opens_author(m.books@, a2, ast[a2]));
        assert(k1 == ast[a1]) by {
            if k1 < ast[a1] {
            } else if ast[a1] < k1 {
            }
        }
        assert(k2 == ast[a2]) by {
            if k2 < ast[a2] {
            } else if ast[a2] < k2 {
            }
        }
    }
}

/// A strictly increasing list of positions below `n` is no longer than `n`.
proof fn lemma_increasing_len(v: Seq<int>, n: int)
    requires
        0 <= n,
        forall|a: int, b: int| 0 <= a < b < v.len() ==> #[trigger] v[a] < #[trigger] v[b],
        forall|a: int| 0 <= a < v.len() ==> 0 <= #[trigger] v[a] < n,
    ensures
        v.len() <= n,
    decreases v.len(),
{
    if v.len() > 0 {
        let w = v.drop_last();
        assert forall|a: int| 0 <= a < w.len() implies 0 <= #[trigger] w[a] < v[v.len() - 1] by {
            assert(w[a] == v[a]);
        }
        assert forall|a: int, b: int| 0 <= a < b < w.len() implies #[trigger] w[a] < #[trigger] w[b] by {
            assert(w[a] == v[a] && w[b] == v[b]);
        }
        lemma_increasing_len(w, v[v.len() - 1]);
        assert(v[v.len() - 1] < n);
    }
}

// ------------------------------------------------------------------ laws

/// Books whose countries read the same, ignoring case and blanks around
/// them (`France`, ` france`), are filed under one country.
pub proof fn lemma_same_country(m: ReadingMap, rs: Seq<RawBook>, k1: int, k2: int)
    requires
        filed(m, rs),
        0 <= k1 < m.books.len(),
        0 <= k2 < m.books.len(),
        norm(rs[placed(rs)[k1]].country@) == norm(rs[placed(rs)[k2]].country@),
    ensures
        book_country(m.authors@, m.books@, k1) == book_country(m.authors@, m.books@, k2),
{
    let src = placed(rs);
    assert(book_from(m.countries@, m.authors@, m.books@, m.weeks@, k1, rs[src[k1]]));
    assert(book_from(m.countries@, m.authors@, m.books@, m.weeks@, k2, rs[src[k2]]));
    let c1 = book_country(m.authors@, m.books@, k1);
    let c2 = book_country(m.authors@, m.books@, k2);
    if c1 < c2 {
        assert(norm(m.countries@[c1].name@) != norm(m.countries@[c2].name@));
    } else if c2 < c1 {
        assert(norm(m.countries@[c2].name@) != norm(m.countries@[c1].name@));
    }
}

/// Within one country, books whose authors read the same, ignoring case and
/// blanks around them, are filed under one author.
pub proof fn lemma_same_author(m: ReadingMap, rs: Seq<RawBook>, k1: int, k2: int)
    requires
        filed(m, rs),
        0 <= k1 < m.books.len(),
        0 <= k2 < m.books.len(),
        norm(rs[placed(rs)[k1]].country@) == norm(rs[placed(rs)[k2]].country@),
        norm(rs[placed(rs)[k1]].author@) == norm(rs[placed(rs)[k2]].author@),
    ensures
        m.books@[k1].author == m.books@[k2].author,
{
    let src = placed(rs);
    lemma_same_country(m, rs, k1, k2);
    assert(book_from(m.countries@, m.authors@, m.books@, m.weeks@, k1, rs[src[k1]]));
    assert(book_from(m.countries@, m.authors@, m.books@, m.weeks@, k2, rs[src[k2]]));
    let a1 = m.books@[k1].author as int;
    let a2 = m.books@[k2].author as int;
    if a1 < a2 {
        assert(!(m.authors@[a1].country == m.authors@[a2].country && norm(m.authors@[a1].name@) == norm(m.authors@[a2].name@)));
    } else if a2 < a1 {
        assert(!(m.authors@[a2].country == m.authors@[a1].country && norm(m.authors@[a2].name@) == norm(m.authors@[a1].name@)));
    }
}

/// The countries the globe knows, as written in lower case, with their
/// points in millionths of a degree: each name of a country leads to the
/// same point.
pub open spec fn country_table() -> Seq<(Seq<char>, (i64, i64))> {
    seq![
        ("france"@, (46_600_000i64, 2_400_000i64)),
        ("法国"@, (46_600_000i64, 2_400_000i64)),
        ("united kingdom"@, (52_500_000i64, -1_500_000i64)),
        ("uk"@, (52_500_000i64, -1_500_000i64)),
        ("britain"@, (52_500_000i64, -1_500_000i64)),
        ("england"@, (52_500_000i64, -1_500_000i64)),
        ("英国"@, (52_500_000i64, -1_500_000i64)),
        ("英格兰"@, (52_500_000i64, -1_500_000i64)),
        ("ireland"@, (53_300_000i64, -7_700_000i64)),
        ("爱尔兰"@, (53_300_000i64, -7_700_000i64)),
        ("germany"@, (51_200_000i64, 10_400_000i64)),
        ("德国"@, (51_200_000i64, 10_400_000i64)),
        ("russia"@, (58_000_000i64, 40_000_000i64)),
        ("russian"@, (58_000_000i64, 40_000_000i64)),
        ("俄罗斯"@, (58_000_000i64, 40_000_000i64)),
        ("俄国"@, (58_000_000i64, 40_000_000i64)),
        ("苏联"@, (58_000_000i64, 40_000_000i64)),
        ("united states"@, (39_000_000i64, -98_000_000i64)),
        ("usa"@, (39_000_000i64, -98_000_000i64)),
        ("us"@, (39_000_000i64, -98_000_000i64)),
        ("america"@, (39_000_000i64, -98_000_000i64)),
        ("美国"@, (39_000_000i64, -98_000_000i64)),
        ("japan"@, (36_200_000i64, 138_300_000i64)),
        ("日本"@, (36_200_000i64, 138_300_000i64)),
        ("china"@, (35_900_000i64, 104_200_000i64)),
        ("中国"@, (35_900_000i64, 104_200_000i64)),
        ("italy"@, (42_800_000i64, 12_600_000i64)),
        ("意大利"@, (42_800_000i64, 12_600_000i64)),
        ("spain"@, (40_200_000i64, -3_700_000i64)),
        ("西班牙"@, (40_200_000i64, -3_700_000i64)),
        ("portugal"@, (39_600_000i64, -8_000_000i64)),
        ("葡萄牙"@, (39_600_000i64, -8_000_000i64)),
        ("greece"@, (39_100_000i64, 22_000_000i64)),
        ("希腊"@, (39_100_000i64, 22_000_000i64)),
        ("austria"@, (47_600_000i64, 14_100_000i64)),
        ("奥地利"@, (47_600_000i64, 14_100_000i64)),
        ("switzerland"@, (46_800_000i64, 8_200_000i64)),
        ("瑞士"@, (46_800_000i64, 8_200_000i64)),
        ("czech"@, (49_800_000i64, 15_500_000i64)),
        ("czechia"@, (49_800_000i64, 15_500_000i64)),
        ("捷克"@, (49_800_000i64, 15_500_000i64)),
        ("poland"@, (52_100_000i64, 19_400_000i64)),
        ("波兰"@, (52_100_000i64, 19_400_000i64)),
        ("norway"@, (60_500_000i64, 8_500_000i64)),
        ("挪威"@, (60_500_000i64, 8_500_000i64)),
        ("sweden"@, (60_100_000i64, 15_600_000i64)),
        ("瑞典"@, (60_100_000i64, 15_600_000i64)),
        ("denmark"@, (56_000_000i64, 9_500_000i64)),
        ("丹麦"@, (56_000_000i64, 9_500_000i64)),
        ("finland"@, (64_000_000i64, 26_000_000i64)),
        ("芬兰"@, (64_000_000i64, 26_000_000i64)),
        ("iceland"@, (64_900_000i64, -19_000_000i64)),
        ("冰岛"@, (64_900_000i64, -19_000_000i64)),
        ("netherlands"@, (52_100_000i64, 5_300_000i64)),
        ("holland"@, (52_100_000i64, 5_300_000i64)),
        ("荷兰"@, (52_100_000i64, 5_300_000i64)),
        ("belgium"@, (50_600_000i64, 4_500_000i64)),
        ("比利时"@, (50_600_000i64, 4_500_000i64)),
        ("india"@, (22_000_000i64, 79_000_000i64)),
        ("印度"@, (22_000_000i64, 79_000_000i64)),
        ("turkey"@, (39_000_000i64, 35_200_000i64)),
        ("türkiye"@, (39_000_000i64, 35_200_000i64)),
        ("土耳其"@, (39_000_000i64, 35_200_000i64)),
        ("iran"@, (32_400_000i64, 53_700_000i64)),
        ("persia"@, (32_400_000i64, 53_700_000i64)),
        ("伊朗"@, (32_400_000i64, 53_700_000i64)),
        ("波斯"@, (32_400_000i64, 53_700_000i64)),
        ("israel"@, (31_500_000i64, 34_900_000i64)),
        ("以色列"@, (31_500_000i64, 34_900_000i64)),
        ("egypt"@, (26_800_000i64, 30_800_000i64)),
        ("埃及"@, (26_800_000i64, 30_800_000i64)),
        ("nigeria"@, (9_100_000i64, 8_700_000i64)),
        ("尼日利亚"@, (9_100_000i64, 8_700_000i64)),
        ("south africa"@, (-30_600_000i64, 24_000_000i64)),
        ("南非"@, (-30_600_000i64, 24_000_000i64)),
        ("kenya"@, (0i64, 37_900_000i64)),
        ("肯尼亚"@, (0i64, 37_900_000i64)),
        ("brazil"@, (-14_200_000i64, -51_900_000i64)),
        ("巴西"@, (-14_200_000i64, -51_900_000i64)),
        ("argentina"@, (-38_400_000i64, -63_600_000i64)),
        ("阿根廷"@, (-38_400_000i64, -63_600_000i64)),
        ("colombia"@, (4_600_000i64, -74_300_000i64)),
        ("哥伦比亚"@, (4_600_000i64, -74_300_000i64)),
        ("chile"@, (-35_700_000i64, -71_500_000i64)),
        ("智利"@, (-35_700_000i64, -71_500_000i64)),
        ("peru"@, (-9_200_000i64, -75_000_000i64)),
        ("秘鲁"@, (-9_200_000i64, -75_000_000i64)),
        ("mexico"@, (23_600_000i64, -102_500_000i64)),
        ("墨西哥"@, (23_600_000i64, -102_500_000i64)),
        ("canada"@, (56_100_000i64, -106_300_000i64)),
        ("加拿大"@, (56_100_000i64, -106_300_000i64)),
        ("australia"@, (-25_300_000i64, 133_800_000i64)),
        ("澳大利亚"@, (-25_300_000i64, 133_800_000i64)),
        ("new zealand"@, (-41_000_000i64, 174_000_000i64)),
        ("新西兰"@, (-41_000_000i64, 174_000_000i64)),
        ("korea"@, (36_500_000i64, 127_800_000i64)),
        ("south korea"@, (36_500_000i64, 127_800_000i64)),
        ("韩国"@, (36_500_000i64, 127_800_000i64)),
        ("南韩"@, (36_500_000i64, 127_800_000i64)),
        ("vietnam"@, (14_100_000i64, 108_300_000i64)),
        ("越南"@, (14_100_000i64, 108_300_000i64)),
        ("indonesia"@, (-2_500_000i64, 118_000_000i64)),
        ("印度尼西亚"@, (-2_500_000i64, 118_000_000i64)),
        ("印尼"@, (-2_500_000i64, 118_000_000i64)),
        ("hungary"@, (47_200_000i64, 19_500_000i64)),
        ("匈牙利"@, (47_200_000i64, 19_500_000i64)),
        ("romania"@, (45_900_000i64, 25_000_000i64)),
        ("罗马尼亚"@, (45_900_000i64, 25_000_000i64)),
        ("ukraine"@, (48_400_000i64, 31_200_000i64)),
        ("乌克兰"@, (48_400_000i64, 31_200_000i64)),
        ("scotland"@, (56_500_000i64, -4_200_000i64)),
        ("苏格兰"@, (56_500_000i64, -4_200_000i64)),
    ]
}

/// Every country of the table is found by its name, at its point.
#[verifier::rlimit(100)]
#[verifier::spinoff_prover]
pub proof fn lemma_country_table_known()
    ensures
        forall|k: int| 0 <= k < country_table().len() ==> anchor_of(#[trigger] country_table()[k].0)
            == Some(country_table()[k].1),
{
    reveal_strlit("france");
    reveal_strlit("法国");
    reveal_strlit("united kingdom");
    reveal_strlit("uk");
    reveal_strlit("britain");
    reveal_strlit("england");
    reveal_strlit("英国");
    reveal_strlit("英格兰");
    reveal_strlit("ireland");
    reveal_strlit("爱尔兰");
    reveal_strlit("germany");
    reveal_strlit("德国");
    reveal_strlit("russia");
    reveal_strlit("russian");
    reveal_strlit("俄罗斯");
    reveal_strlit("俄国");
    reveal_strlit("苏联");
    reveal_strlit("united states");
    reveal_strlit("usa");
    reveal_strlit("us");
    reveal_strlit("america");
    reveal_strlit("美国");
    reveal_strlit("japan");
    reveal_strlit("日本");
    reveal_strlit("china");
    reveal_strlit("中国");
    reveal_strlit("italy");
    reveal_strlit("意大利");
    reveal_strlit("spain");
    reveal_strlit("西班牙");
    reveal_strlit("portugal");
    reveal_strlit("葡萄牙");
    reveal_strlit("greece");
    reveal_strlit("希腊");
    reveal_strlit("austria");
    reveal_strlit("奥地利");
    reveal_strlit("switzerland");
    reveal_strlit("瑞士");
    reveal_strlit("czech");
    reveal_strlit("czechia");
    reveal_strlit("捷克");
    reveal_strlit("poland");
    reveal_strlit("波兰");
    reveal_strlit("norway");
    reveal_strlit("挪威");
    reveal_strlit("sweden");
    reveal_strlit("瑞典");
    reveal_strlit("denmark");
    reveal_strlit("丹麦");
    reveal_strlit("finland");
    reveal_strlit("芬兰");
    reveal_strlit("iceland");
    reveal_strlit("冰岛");
    reveal_strlit("netherlands");
    reveal_strlit("holland");
    reveal_strlit("荷兰");
    reveal_strlit("belgium");
    reveal_strlit("比利时");
    reveal_strlit("india");
    reveal_strlit("印度");
    reveal_strlit("turkey");
    reveal_strlit("türkiye");
    reveal_strlit("土耳其");
    reveal_strlit("iran");
    reveal_strlit("persia");
    reveal_strlit("伊朗");
    reveal_strlit("波斯");
    reveal_strlit("israel");
    reveal_strlit("以色列");
    reveal_strlit("egypt");
    reveal_strlit("埃及");
    reveal_strlit("nigeria");
    reveal_strlit("尼日利亚");
    reveal_strlit("south africa");
    reveal_strlit("南非");
    reveal_strlit("kenya");
    reveal_strlit("肯尼亚");
    reveal_strlit("brazil");
    reveal_strlit("巴西");
    reveal_strlit("argentina");
    reveal_strlit("阿根廷");
    reveal_strlit("colombia");
    reveal_strlit("哥伦比亚");
    reveal_strlit("chile");
    reveal_strlit("智利");
    reveal_strlit("peru");
    reveal_strlit("秘鲁");
    reveal_strlit("mexico");
    reveal_strlit("墨西哥");
    reveal_strlit("canada");
    reveal_strlit("加拿大");
    reveal_strlit("australia");
    reveal_strlit("澳大利亚");
    reveal_strlit("new zealand");
    reveal_strlit("新西兰");
    reveal_strlit("korea");
    reveal_strlit("south korea");
    reveal_strlit("韩国");
    reveal_strlit("南韩");
    reveal_strlit("vietnam");
    reveal_strlit("越南");
    reveal_strlit("indonesia");
    reveal_strlit("印度尼西亚");
    reveal_strlit("印尼");
    reveal_strlit("hungary");
    reveal_strlit("匈牙利");
    reveal_strlit("romania");
    reveal_strlit("罗马尼亚");
    reveal_strlit("ukraine");
    reveal_strlit("乌克兰");
    reveal_strlit("scotland");
    reveal_strlit("苏格兰");
    assert("france"@.len() == 6 && "france"@[0] == 'f' && "france"@[1] == 'r' && "france"@[2] == 'a' && "france"@[3] == 'n' && "france"@[4] == 'c' && "france"@[5] == 'e');
    assert("法国"@.len() == 2 && "法国"@[0] == '法' && "法国"@[1] == '国');
    assert("united kingdom"@.len() == 14 && "united kingdom"@[0] == 'u' && "united kingdom"@[1] == 'n' && "united kingdom"@[2] == 'i' && "united kingdom"@[3] == 't' && "united kingdom"@[4] == 'e' && "united kingdom"@[5] == 'd' && "united kingdom"@[6] == ' ' && "united kingdom"@[7] == 'k' && "united kingdom"@[8] == 'i' && "united kingdom"@[9] == 'n' && "united kingdom"@[10] == 'g' && "united kingdom"@[11] == 'd' && "united kingdom"@[12] == 'o' && "united kingdom"@[13] == 'm');
    assert("uk"@.len() == 2 && "uk"@[0] == 'u' && "uk"@[1] == 'k');
    assert("britain"@.len() == 7 && "britain"@[0] == 'b' && "britain"@[1] == 'r' && "britain"@[2] == 'i' && "britain"@[3] == 't' && "britain"@[4] == 'a' && "britain"@[5] == 'i' && "britain"@[6] == 'n');
    assert("england"@.len() == 7 && "england"@[0] == 'e' && "england"@[1] == 'n' && "england"@[2] == 'g' && "england"@[3] == 'l' && "england"@[4] == 'a' && "england"@[5] == 'n' && "england"@[6] == 'd');
    assert("英国"@.len() == 2 && "英国"@[0] == '英' && "英国"@[1] == '国');
    assert("英格兰"@.len() == 3 && "英格兰"@[0] == '英' && "英格兰"@[1] == '格' && "英格兰"@[2] == '兰');
    assert("ireland"@.len() == 7 && "ireland"@[0] == 'i' && "ireland"@[1] == 'r' && "ireland"@[2] == 'e' && "ireland"@[3] == 'l' && "ireland"@[4] == 'a' && "ireland"@[5] == 'n' && "ireland"@[6] == 'd');
    assert("爱尔兰"@.len() == 3 && "爱尔兰"@[0] == '爱' && "爱尔兰"@[1] == '尔' && "爱尔兰"@[2] == '兰');
    assert("germany"@.len() == 7 && "germany"@[0] == 'g' && "germany"@[1] == 'e' && "germany"@[2] == 'r' && "germany"@[3] == 'm' && "germany"@[4] == 'a' && "germany"@[5] == 'n' && "germany"@[6] == 'y');
    assert("德国"@.len() == 2 && "德国"@[0] == '德' && "德国"@[1] == '国');
    assert("russia"@.len() == 6 && "russia"@[0] == 'r' && "russia"@[1] == 'u' && "russia"@[2] == 's' && "russia"@[3] == 's' && "russia"@[4] == 'i' && "russia"@[5] == 'a');
    assert("russian"@.len() == 7 && "russian"@[0] == 'r' && "russian"@[1] == 'u' && "russian"@[2] == 's' && "russian"@[3] == 's' && "russian"@[4] == 'i' && "russian"@[5] == 'a' && "russian"@[6] == 'n');
    assert("俄罗斯"@.len() == 3 && "俄罗斯"@[0] == '俄' && "俄罗斯"@[1] == '罗' && "俄罗斯"@[2] == '斯');
    assert("俄国"@.len() == 2 && "俄国"@[0] == '俄' && "俄国"@[1] == '国');
    assert("苏联"@.len() == 2 && "苏联"@[0] == '苏' && "苏联"@[1] == '联');
    assert("united states"@.len() == 13 && "united states"@[0] == 'u' && "united states"@[1] == 'n' && "united states"@[2] == 'i' && "united states"@[3] == 't' && "united states"@[4] == 'e' && "united states"@[5] == 'd' && "united states"@[6] == ' ' && "united states"@[7] == 's' && "united states"@[8] == 't' && "united states"@[9] == 'a' && "united states"@[10] == 't' && "united states"@[11] == 'e' && "united states"@[12] == 's');
    assert("usa"@.len() == 3 && "usa"@[0] == 'u' && "usa"@[1] == 's' && "usa"@[2] == 'a');
    assert("us"@.len() == 2 && "us"@[0] == 'u' && "us"@[1] == 's');
    assert("america"@.len() == 7 && "america"@[0] == 'a' && "america"@[1] == 'm' && "america"@[2] == 'e' && "america"@[3] == 'r' && "america"@[4] == 'i' && "america"@[5] == 'c' && "america"@[6] == 'a');
    assert("美国"@.len() == 2 && "美国"@[0] == '美' && "美国"@[1] == '国');
    assert("japan"@.len() == 5 && "japan"@[0] == 'j' && "japan"@[1] == 'a' && "japan"@[2] == 'p' && "japan"@[3] == 'a' && "japan"@[4] == 'n');
    assert("日本"@.len() == 2 && "日本"@[0] == '日' && "日本"@[1] == '本');
    assert("china"@.len() == 5 && "china"@[0] == 'c' && "china"@[1] == 'h' && "china"@[2] == 'i' && "china"@[3] == 'n' && "china"@[4] == 'a');
    assert("中国"@.len() == 2 && "中国"@[0] == '中' && "中国"@[1] == '国');
    assert("italy"@.len() == 5 && "italy"@[0] == 'i' && "italy"@[1] == 't' && "italy"@[2] == 'a' && "italy"@[3] == 'l' && "italy"@[4] == 'y');
    assert("意大利"@.len() == 3 && "意大利"@[0] == '意' && "意大利"@[1] == '大' && "意大利"@[2] == '利');
    assert("spain"@.len() == 5 && "spain"@[0] == 's' && "spain"@[1] == 'p' && "spain"@[2] == 'a' && "spain"@[3] == 'i' && "spain"@[4] == 'n');
    assert("西班牙"@.len() == 3 && "西班牙"@[0] == '西' && "西班牙"@[1] == '班' && "西班牙"@[2] == '牙');
    assert("portugal"@.len() == 8 && "portugal"@[0] == 'p' && "portugal"@[1] == 'o' && "portugal"@[2] == 'r' && "portugal"@[3] == 't' && "portugal"@[4] == 'u' && "portugal"@[5] == 'g' && "portugal"@[6] == 'a' && "portugal"@[7] == 'l');
    assert("葡萄牙"@.len() == 3 && "葡萄牙"@[0] == '葡' && "葡萄牙"@[1] == '萄' && "葡萄牙"@[2] == '牙');
    assert("greece"@.len() == 6 && "greece"@[0] == 'g' && "greece"@[1] == 'r' && "greece"@[2] == 'e' && "greece"@[3] == 'e' && "greece"@[4] == 'c' && "greece"@[5] == 'e');
    assert("希腊"@.len() == 2 && "希腊"@[0] == '希' && "希腊"@[1] == '腊');
    assert("austria"@.len() == 7 && "austria"@[0] == 'a' && "austria"@[1] == 'u' && "austria"@[2] == 's' && "austria"@[3] == 't' && "austria"@[4] == 'r' && "austria"@[5] == 'i' && "austria"@[6] == 'a');
    assert("奥地利"@.len() == 3 && "奥地利"@[0] == '奥' && "奥地利"@[1] == '地' && "奥地利"@[2] == '利');
    assert("switzerland"@.len() == 11 && "switzerland"@[0] == 's' && "switzerland"@[1] == 'w' && "switzerland"@[2] == 'i' && "switzerland"@[3] == 't' && "switzerland"@[4] == 'z' && "switzerland"@[5] == 'e' && "switzerland"@[6] == 'r' && "switzerland"@[7] == 'l' && "switzerland"@[8] == 'a' && "switzerland"@[9] == 'n' && "switzerland"@[10] == 'd');
    assert("瑞士"@.len() == 2 && "瑞士"@[0] == '瑞' && "瑞士"@[1] == '士');
    assert("czech"@.len() == 5 && "czech"@[0] == 'c' && "czech"@[1] == 'z' && "czech"@[2] == 'e' && "czech"@[3] == 'c' && "czech"@[4] == 'h');
    assert("czechia"@.len() == 7 && "czechia"@[0] == 'c' && "czechia"@[1] == 'z' && "czechia"@[2] == 'e' && "czechia"@[3] == 'c' && "czechia"@[4] == 'h' && "czechia"@[5] == 'i' && "czechia"@[6] == 'a');
    assert("捷克"@.len() == 2 && "捷克"@[0] == '捷' && "捷克"@[1] == '克');
    assert("poland"@.len() == 6 && "poland"@[0] == 'p' && "poland"@[1] == 'o' && "poland"@[2] == 'l' && "poland"@[3] == 'a' && "poland"@[4] == 'n' && "poland"@[5] == 'd');
    assert("波兰"@.len() == 2 && "波兰"@[0] == '波' && "波兰"@[1] == '兰');
    assert("norway"@.len() == 6 && "norway"@[0] == 'n' && "norway"@[1] == 'o' && "norway"@[2] == 'r' && "norway"@[3] == 'w' && "norway"@[4] == 'a' && "norway"@[5] == 'y');
    assert("挪威"@.len() == 2 && "挪威"@[0] == '挪' && "挪威"@[1] == '威');
    assert("sweden"@.len() == 6 && "sweden"@[0] == 's' && "sweden"@[1] == 'w' && "sweden"@[2] == 'e' && "sweden"@[3] == 'd' && "sweden"@[4] == 'e' && "sweden"@[5] == 'n');
    assert("瑞典"@.len() == 2 && "瑞典"@[0] == '瑞' && "瑞典"@[1] == '典');
    assert("denmark"@.len() == 7 && "denmark"@[0] == 'd' && "denmark"@[1] == 'e' && "denmark"@[2] == 'n' && "denmark"@[3] == 'm' && "denmark"@[4] == 'a' && "denmark"@[5] == 'r' && "denmark"@[6] == 'k');
    assert("丹麦"@.len() == 2 && "丹麦"@[0] == '丹' && "丹麦"@[1] == '麦');
    assert("finland"@.len() == 7 && "finland"@[0] == 'f' && "finland"@[1] == 'i' && "finland"@[2] == 'n' && "finland"@[3] == 'l' && "finland"@[4] == 'a' && "finland"@[5] == 'n' && "finland"@[6] == 'd');
    assert("芬兰"@.len() == 2 && "芬兰"@[0] == '芬' && "芬兰"@[1] == '兰');
    assert("iceland"@.len() == 7 && "iceland"@[0] == 'i' && "iceland"@[1] == 'c' && "iceland"@[2] == 'e' && "iceland"@[3] == 'l' && "iceland"@[4] == 'a' && "iceland"@[5] == 'n' && "iceland"@[6] == 'd');
    assert("冰岛"@.len() == 2 && "冰岛"@[0] == '冰' && "冰岛"@[1] == '岛');
    assert("netherlands"@.len() == 11 && "netherlands"@[0] == 'n' && "netherlands"@[1] == 'e' && "netherlands"@[2] == 't' && "netherlands"@[3] == 'h' && "netherlands"@[4] == 'e' && "netherlands"@[5] == 'r' && "netherlands"@[6] == 'l' && "netherlands"@[7] == 'a' && "netherlands"@[8] == 'n' && "netherlands"@[9] == 'd' && "netherlands"@[10] == 's');
    assert("holland"@.len() == 7 && "holland"@[0] == 'h' && "holland"@[1] == 'o' && "holland"@[2] == 'l' && "holland"@[3] == 'l' && "holland"@[4] == 'a' && "holland"@[5] == 'n' && "holland"@[6] == 'd');
    assert("荷兰"@.len() == 2 && "荷兰"@[0] == '荷' && "荷兰"@[1] == '兰');
    assert("belgium"@.len() == 7 && "belgium"@[0] == 'b' && "belgium"@[1] == 'e' && "belgium"@[2] == 'l' && "belgium"@[3] == 'g' && "belgium"@[4] == 'i' && "belgium"@[5] == 'u' && "belgium"@[6] == 'm');
    assert("比利时"@.len() == 3 && "比利时"@[0] == '比' && "比利时"@[1] == '利' && "比利时"@[2] == '时');
    assert("india"@.len() == 5 && "india"@[0] == 'i' && "india"@[1] == 'n' && "india"@[2] == 'd' && "india"@[3] == 'i' && "india"@[4] == 'a');
    assert("印度"@.len() == 2 && "印度"@[0] == '印' && "印度"@[1] == '度');
    assert("turkey"@.len() == 6 && "turkey"@[0] == 't' && "turkey"@[1] == 'u' && "turkey"@[2] == 'r' && "turkey"@[3] == 'k' && "turkey"@[4] == 'e' && "turkey"@[5] == 'y');
    assert("türkiye"@.len() == 7 && "türkiye"@[0] == 't' && "türkiye"@[1] == 'ü' && "türkiye"@[2] == 'r' && "türkiye"@[3] == 'k' && "türkiye"@[4] == 'i' && "türkiye"@[5] == 'y' && "türkiye"@[6] == 'e');
    assert("土耳其"@.len() == 3 && "土耳其"@[0] == '土' && "土耳其"@[1] == '耳' && "土耳其"@[2] == '其');
    assert("iran"@.len() == 4 && "iran"@[0] == 'i' && "iran"@[1] == 'r' && "iran"@[2] == 'a' && "iran"@[3] == 'n');
    assert("persia"@.len() == 6 && "persia"@[0] == 'p' && "persia"@[1] == 'e' && "persia"@[2] == 'r' && "persia"@[3] == 's' && "persia"@[4] == 'i' && "persia"@[5] == 'a');
    assert("伊朗"@.len() == 2 && "伊朗"@[0] == '伊' && "伊朗"@[1] == '朗');
    assert("波斯"@.len() == 2 && "波斯"@[0] == '波' && "波斯"@[1] == '斯');
    assert("israel"@.len() == 6 && "israel"@[0] == 'i' && "israel"@[1] == 's' && "israel"@[2] == 'r' && "israel"@[3] == 'a' && "israel"@[4] == 'e' && "israel"@[5] == 'l');
    assert("以色列"@.len() == 3 && "以色列"@[0] == '以' && "以色列"@[1] == '色' && "以色列"@[2] == '列');
    assert("egypt"@.len() == 5 && "egypt"@[0] == 'e' && "egypt"@[1] == 'g' && "egypt"@[2] == 'y' && "egypt"@[3] == 'p' && "egypt"@[4] == 't');
    assert("埃及"@.len() == 2 && "埃及"@[0] == '埃' && "埃及"@[1] == '及');
    assert("nigeria"@.len() == 7 && "nigeria"@[0] == 'n' && "nigeria"@[1] == 'i' && "nigeria"@[2] == 'g' && "nigeria"@[3] == 'e' && "nigeria"@[4] == 'r' && "nigeria"@[5] == 'i' && "nigeria"@[6] == 'a');
    assert("尼日利亚"@.len() == 4 && "尼日利亚"@[0] == '尼' && "尼日利亚"@[1] == '日' && "尼日利亚"@[2] == '利' && "尼日利亚"@[3] == '亚');
    assert("south africa"@.len() == 12 && "south africa"@[0] == 's' && "south africa"@[1] == 'o' && "south africa"@[2] == 'u' && "south africa"@[3] == 't' && "south africa"@[4] == 'h' && "south africa"@[5] == ' ' && "south africa"@[6] == 'a' && "south africa"@[7] == 'f' && "south africa"@[8] == 'r' && "south africa"@[9] == 'i' && "south africa"@[10] == 'c' && "south africa"@[11] == 'a');
    assert("南非"@.len() == 2 && "南非"@[0] == '南' && "南非"@[1] == '非');
    assert("kenya"@.len() == 5 && "kenya"@[0] == 'k' && "kenya"@[1] == 'e' && "kenya"@[2] == 'n' && "kenya"@[3] == 'y' && "kenya"@[4] == 'a');
    assert("肯尼亚"@.len() == 3 && "肯尼亚"@[0] == '肯' && "肯尼亚"@[1] == '尼' && "肯尼亚"@[2] == '亚');
    assert("brazil"@.len() == 6 && "brazil"@[0] == 'b' && "brazil"@[1] == 'r' && "brazil"@[2] == 'a' && "brazil"@[3] == 'z' && "brazil"@[4] == 'i' && "brazil"@[5] == 'l');
    assert("巴西"@.len() == 2 && "巴西"@[0] == '巴' && "巴西"@[1] == '西');
    assert("argentina"@.len() == 9 && "argentina"@[0] == 'a' && "argentina"@[1] == 'r' && "argentina"@[2] == 'g' && "argentina"@[3] == 'e' && "argentina"@[4] == 'n' && "argentina"@[5] == 't' && "argentina"@[6] == 'i' && "argentina"@[7] == 'n' && "argentina"@[8] == 'a');
    assert("阿根廷"@.len() == 3 && "阿根廷"@[0] == '阿' && "阿根廷"@[1] == '根' && "阿根廷"@[2] == '廷');
    assert("colombia"@.len() == 8 && "colombia"@[0] == 'c' && "colombia"@[1] == 'o' && "colombia"@[2] == 'l' && "colombia"@[3] == 'o' && "colombia"@[4] == 'm' && "colombia"@[5] == 'b' && "colombia"@[6] == 'i' && "colombia"@[7] == 'a');
    assert("哥伦比亚"@.len() == 4 && "哥伦比亚"@[0] == '哥' && "哥伦比亚"@[1] == '伦' && "哥伦比亚"@[2] == '比' && "哥伦比亚"@[3] == '亚');
    assert("chile"@.len() == 5 && "chile"@[0] == 'c' && "chile"@[1] == 'h' && "chile"@[2] == 'i' && "chile"@[3] == 'l' && "chile"@[4] == 'e');
    assert("智利"@.len() == 2 && "智利"@[0] == '智' && "智利"@[1] == '利');
    assert("peru"@.len() == 4 && "peru"@[0] == 'p' && "peru"@[1] == 'e' && "peru"@[2] == 'r' && "peru"@[3] == 'u');
    assert("秘鲁"@.len() == 2 && "秘鲁"@[0] == '秘' && "秘鲁"@[1] == '鲁');
    assert("mexico"@.len() == 6 && "mexico"@[0] == 'm' && "mexico"@[1] == 'e' && "mexico"@[2] == 'x' && "mexico"@[3] == 'i' && "mexico"@[4] == 'c' && "mexico"@[5] == 'o');
    assert("墨西哥"@.len() == 3 && "墨西哥"@[0] == '墨' && "墨西哥"@[1] == '西' && "墨西哥"@[2] == '哥');
    assert("canada"@.len() == 6 && "canada"@[0] == 'c' && "canada"@[1] == 'a' && "canada"@[2] == 'n' && "canada"@[3] == 'a' && "canada"@[4] == 'd' && "canada"@[5] == 'a');
    assert("加拿大"@.len() == 3 && "加拿大"@[0] == '加' && "加拿大"@[1] == '拿' && "加拿大"@[2] == '大');
    assert("australia"@.len() == 9 && "australia"@[0] == 'a' && "australia"@[1] == 'u' && "australia"@[2] == 's' && "australia"@[3] == 't' && "australia"@[4] == 'r' && "australia"@[5] == 'a' && "australia"@[6] == 'l' && "australia"@[7] == 'i' && "australia"@[8] == 'a');
    assert("澳大利亚"@.len() == 4 && "澳大利亚"@[0] == '澳' && "澳大利亚"@[1] == '大' && "澳大利亚"@[2] == '利' && "澳大利亚"@[3] == '亚');
    assert("new zealand"@.len() == 11 && "new zealand"@[0] == 'n' && "new zealand"@[1] == 'e' && "new zealand"@[2] == 'w' && "new zealand"@[3] == ' ' && "new zealand"@[4] == 'z' && "new zealand"@[5] == 'e' && "new zealand"@[6] == 'a' && "new zealand"@[7] == 'l' && "new zealand"@[8] == 'a' && "new zealand"@[9] == 'n' && "new zealand"@[10] == 'd');
    assert("新西兰"@.len() == 3 && "新西兰"@[0] == '新' && "新西兰"@[1] == '西' && "新西兰"@[2] == '兰');
    assert("korea"@.len() == 5 && "korea"@[0] == 'k' && "korea"@[1] == 'o' && "korea"@[2] == 'r' && "korea"@[3] == 'e' && "korea"@[4] == 'a');
    assert("south korea"@.len() == 11 && "south korea"@[0] == 's' && "south korea"@[1] == 'o' && "south korea"@[2] == 'u' && "south korea"@[3] == 't' && "south korea"@[4] == 'h' && "south korea"@[5] == ' ' && "south korea"@[6] == 'k' && "south korea"@[7] == 'o' && "south korea"@[8] == 'r' && "south korea"@[9] == 'e' && "south korea"@[10] == 'a');
    assert("韩国"@.len() == 2 && "韩国"@[0] == '韩' && "韩国"@[1] == '国');
    assert("南韩"@.len() == 2 && "南韩"@[0] == '南' && "南韩"@[1] == '韩');
    assert("vietnam"@.len() == 7 && "vietnam"@[0] == 'v' && "vietnam"@[1] == 'i' && "vietnam"@[2] == 'e' && "vietnam"@[3] == 't' && "vietnam"@[4] == 'n' && "vietnam"@[5] == 'a' && "vietnam"@[6] == 'm');
    assert("越南"@.len() == 2 && "越南"@[0] == '越' && "越南"@[1] == '南');
    assert("indonesia"@.len() == 9 && "indonesia"@[0] == 'i' && "indonesia"@[1] == 'n' && "indonesia"@[2] == 'd' && "indonesia"@[3] == 'o' && "indonesia"@[4] == 'n' && "indonesia"@[5] == 'e' && "indonesia"@[6] == 's' && "indonesia"@[7] == 'i' && "indonesia"@[8] == 'a');
    assert("印度尼西亚"@.len() == 5 && "印度尼西亚"@[0] == '印' && "印度尼西亚"@[1] == '度' && "印度尼西亚"@[2] == '尼' && "印度尼西亚"@[3] == '西' && "印度尼西亚"@[4] == '亚');
    assert("印尼"@.len() == 2 && "印尼"@[0] == '印' && "印尼"@[1] == '尼');
    assert("hungary"@.len() == 7 && "hungary"@[0] == 'h' && "hungary"@[1] == 'u' && "hungary"@[2] == 'n' && "hungary"@[3] == 'g' && "hungary"@[4] == 'a' && "hungary"@[5] == 'r' && "hungary"@[6] == 'y');
    assert("匈牙利"@.len() == 3 && "匈牙利"@[0] == '匈' && "匈牙利"@[1] == '牙' && "匈牙利"@[2] == '利');
    assert("romania"@.len() == 7 && "romania"@[0] == 'r' && "romania"@[1] == 'o' && "romania"@[2] == 'm' && "romania"@[3] == 'a' && "romania"@[4] == 'n' && "romania"@[5] == 'i' && "romania"@[6] == 'a');
    assert("罗马尼亚"@.len() == 4 && "罗马尼亚"@[0] == '罗' && "罗马尼亚"@[1] == '马' && "罗马尼亚"@[2] == '尼' && "罗马尼亚"@[3] == '亚');
    assert("ukraine"@.len() == 7 && "ukraine"@[0] == 'u' && "ukraine"@[1] == 'k' && "ukraine"@[2] == 'r' && "ukraine"@[3] == 'a' && "ukraine"@[4] == 'i' && "ukraine"@[5] == 'n' && "ukraine"@[6] == 'e');
    assert("乌克兰"@.len() == 3 && "乌克兰"@[0] == '乌' && "乌克兰"@[1] == '克' && "乌克兰"@[2] == '兰');
    assert("scotland"@.len() == 8 && "scotland"@[0] == 's' && "scotland"@[1] == 'c' && "scotland"@[2] == 'o' && "scotland"@[3] == 't' && "scotland"@[4] == 'l' && "scotland"@[5] == 'a' && "scotland"@[6] == 'n' && "scotland"@[7] == 'd');
    assert("苏格兰"@.len() == 3 && "苏格兰"@[0] == '苏' && "苏格兰"@[1] == '格' && "苏格兰"@[2] == '兰');
    assert(anchor_of("france"@) == Some((46_600_000i64, 2_400_000i64)));
    assert(anchor_of("法国"@) == Some((46_600_000i64, 2_400_000i64)));
    assert(anchor_of("united kingdom"@) == Some((52_500_000i64, -1_500_000i64)));
    assert(anchor_of("uk"@) == Some((52_500_000i64, -1_500_000i64)));
    assert(anchor_of("britain"@) == Some((52_500_000i64, -1_500_000i64)));
    assert(anchor_of("england"@) == Some((52_500_000i64, -1_500_000i64)));
    assert(anchor_of("英国"@) == Some((52_500_000i64, -1_500_000i64)));
    assert(anchor_of("英格兰"@) == Some((52_500_000i64, -1_500_000i64)));
    assert(anchor_of("ireland"@) == Some((53_300_000i64, -7_700_000i64)));
    assert(anchor_of("爱尔兰"@) == Some((53_300_000i64, -7_700_000i64)));
    assert(anchor_of("germany"@) == Some((51_200_000i64, 10_400_000i64)));
    assert(anchor_of("德国"@) == Some((51_200_000i64, 10_400_000i64)));
    assert(anchor_of("russia"@) == Some((58_000_000i64, 40_000_000i64)));
    assert(anchor_of("russian"@) == Some((58_000_000i64, 40_000_000i64)));
    assert(anchor_of("俄罗斯"@) == Some((58_000_000i64, 40_000_000i64)));
    assert(anchor_of("俄国"@) == Some((58_000_000i64, 40_000_000i64)));
    assert(anchor_of("苏联"@) == Some((58_000_000i64, 40_000_000i64)));
    assert(anchor_of("united states"@) == Some((39_000_000i64, -98_000_000i64)));
    assert(anchor_of("usa"@) == Some((39_000_000i64, -98_000_000i64)));
    assert(anchor_of("us"@) == Some((39_000_000i64, -98_000_000i64)));
    assert(anchor_of("america"@) == Some((39_000_000i64, -98_000_000i64)));
    assert(anchor_of("美国"@) == Some((39_000_000i64, -98_000_000i64)));
    assert(anchor_of("japan"@) == Some((36_200_000i64, 138_300_000i64)));
    assert(anchor_of("日本"@) == Some((36_200_000i64, 138_300_000i64)));
    assert(anchor_of("china"@) == Some((35_900_000i64, 104_200_000i64)));
    assert(anchor_of("中国"@) == Some((35_900_000i64, 104_200_000i64)));
    assert(anchor_of("italy"@) == Some((42_800_000i64, 12_600_000i64)));
    assert(anchor_of("意大利"@) == Some((42_800_000i64, 12_600_000i64)));
    assert(anchor_of("spain"@) == Some((40_200_000i64, -3_700_000i64)));
    assert(anchor_of("西班牙"@) == Some((40_200_000i64, -3_700_000i64)));
    assert(anchor_of("portugal"@) == Some((39_600_000i64, -8_000_000i64)));
    assert(anchor_of("葡萄牙"@) == Some((39_600_000i64, -8_000_000i64)));
    assert(anchor_of("greece"@) == Some((39_100_000i64, 22_000_000i64)));
    assert(anchor_of("希腊"@) == Some((39_100_000i64, 22_000_000i64)));
    assert(anchor_of("austria"@) == Some((47_600_000i64, 14_100_000i64)));
    assert(anchor_of("奥地利"@) == Some((47_600_000i64, 14_100_000i64)));
    assert(anchor_of("switzerland"@) == Some((46_800_000i64, 8_200_000i64)));
    assert(anchor_of("瑞士"@) == Some((46_800_000i64, 8_200_000i64)));
    assert(anchor_of("czech"@) == Some((49_800_000i64, 15_500_000i64)));
    assert(anchor_of("czechia"@) == Some((49_800_000i64, 15_500_000i64)));
    assert(anchor_of("捷克"@) == Some((49_800_000i64, 15_500_000i64)));
    assert(anchor_of("poland"@) == Some((52_100_000i64, 19_400_000i64)));
    assert(anchor_of("波兰"@) == Some((52_100_000i64, 19_400_000i64)));
    assert(anchor_of("norway"@) == Some((60_500_000i64, 8_500_000i64)));
    assert(anchor_of("挪威"@) == Some((60_500_000i64, 8_500_000i64)));
    assert(anchor_of("sweden"@) == Some((60_100_000i64, 15_600_000i64)));
    assert(anchor_of("瑞典"@) == Some((60_100_000i64, 15_600_000i64)));
    assert(anchor_of("denmark"@) == Some((56_000_000i64, 9_500_000i64)));
    assert(anchor_of("丹麦"@) == Some((56_000_000i64, 9_500_000i64)));
    assert(anchor_of("finland"@) == Some((64_000_000i64, 26_000_000i64)));
    assert(anchor_of("芬兰"@) == Some((64_000_000i64, 26_000_000i64)));
    assert(anchor_of("iceland"@) == Some((64_900_000i64, -19_000_000i64)));
    assert(anchor_of("冰岛"@) == Some((64_900_000i64, -19_000_000i64)));
    assert(anchor_of("netherlands"@) == Some((52_100_000i64, 5_300_000i64)));
    assert(anchor_of("holland"@) == Some((52_100_000i64, 5_300_000i64)));
    assert(anchor_of("荷兰"@) == Some((52_100_000i64, 5_300_000i64)));
    assert(anchor_of("belgium"@) == Some((50_600_000i64, 4_500_000i64)));
    assert(anchor_of("比利时"@) == Some((50_600_000i64, 4_500_000i64)));
    assert(anchor_of("india"@) == Some((22_000_000i64, 79_000_000i64)));
    assert(anchor_of("印度"@) == Some((22_000_000i64, 79_000_000i64)));
    assert(anchor_of("turkey"@) == Some((39_000_000i64, 35_200_000i64)));
    assert(anchor_of("türkiye"@) == Some((39_000_000i64, 35_200_000i64)));
    assert(anchor_of("土耳其"@) == Some((39_000_000i64, 35_200_000i64)));
    assert(anchor_of("iran"@) == Some((32_400_000i64, 53_700_000i64)));
    assert(anchor_of("persia"@) == Some((32_400_000i64, 53_700_000i64)));
    assert(anchor_of("伊朗"@) == Some((32_400_000i64, 53_700_000i64)));
    assert(anchor_of("波斯"@) == Some((32_400_000i64, 53_700_000i64)));
    assert(anchor_of("israel"@) == Some((31_500_000i64, 34_900_000i64)));
    assert(anchor_of("以色列"@) == Some((31_500_000i64, 34_900_000i64)));
    assert(anchor_of("egypt"@) == Some((26_800_000i64, 30_800_000i64)));
    assert(anchor_of("埃及"@) == Some((26_800_000i64, 30_800_000i64)));
    assert(anchor_of("nigeria"@) == Some((9_100_000i64, 8_700_000i64)));
    assert(anchor_of("尼日利亚"@) == Some((9_100_000i64, 8_700_000i64)));
    assert(anchor_of("south africa"@) == Some((-30_600_000i64, 24_000_000i64)));
    assert(anchor_of("南非"@) == Some((-30_600_000i64, 24_000_000i64)));
    assert(anchor_of("kenya"@) == Some((0i64, 37_900_000i64)));
    assert(anchor_of("肯尼亚"@) == Some((0i64, 37_900_000i64)));
    assert(anchor_of("brazil"@) == Some((-14_200_000i64, -51_900_000i64)));
    assert(anchor_of("巴西"@) == Some((-14_200_000i64, -51_900_000i64)));
    assert(anchor_of("argentina"@) == Some((-38_400_000i64, -63_600_000i64)));
    assert(anchor_of("阿根廷"@) == Some((-38_400_000i64, -63_600_000i64)));
    assert(anchor_of("colombia"@) == Some((4_600_000i64, -74_300_000i64)));
    assert(anchor_of("哥伦比亚"@) == Some((4_600_000i64, -74_300_000i64)));
    assert(anchor_of("chile"@) == Some((-35_700_000i64, -71_500_000i64)));
    assert(anchor_of("智利"@) == Some((-35_700_000i64, -71_500_000i64)));
    assert(anchor_of("peru"@) == Some((-9_200_000i64, -75_000_000i64)));
    assert(anchor_of("秘鲁"@) == Some((-9_200_000i64, -75_000_000i64)));
    assert(anchor_of("mexico"@) == Some((23_600_000i64, -102_500_000i64)));
    assert(anchor_of("墨西哥"@) == Some((23_600_000i64, -102_500_000i64)));
    assert(anchor_of("canada"@) == Some((56_100_000i64, -106_300_000i64)));
    assert(anchor_of("加拿大"@) == Some((56_100_000i64, -106_300_000i64)));
    assert(anchor_of("australia"@) == Some((-25_300_000i64, 133_800_000i64)));
    assert(anchor_of("澳大利亚"@) == Some((-25_300_000i64, 133_800_000i64)));
    assert(anchor_of("new zealand"@) == Some((-41_000_000i64, 174_000_000i64)));
    assert(anchor_of("新西兰"@) == Some((-41_000_000i64, 174_000_000i64)));
    assert(anchor_of("korea"@) == Some((36_500_000i64, 127_800_000i64)));
    assert(anchor_of("south korea"@) == Some((36_500_000i64, 127_800_000i64)));
    assert(anchor_of("韩国"@) == Some((36_500_000i64, 127_800_000i64)));
    assert(anchor_of("南韩"@) == Some((36_500_000i64, 127_800_000i64)));
    assert(anchor_of("vietnam"@) == Some((14_100_000i64, 108_300_000i64)));
    assert(anchor_of("越南"@) == Some((14_100_000i64, 108_300_000i64)));
    assert(anchor_of("indonesia"@) == Some((-2_500_000i64, 118_000_000i64)));
    assert(anchor_of("印度尼西亚"@) == Some((-2_500_000i64, 118_000_000i64)));
    assert(anchor_of("印尼"@) == Some((-2_500_000i64, 118_000_000i64)));
    assert(anchor_of("hungary"@) == Some((47_200_000i64, 19_500_000i64)));
    assert(anchor_of("匈牙利"@) == Some((47_200_000i64, 19_500_000i64)));
    assert(anchor_of("romania"@) == Some((45_900_000i64, 25_000_000i64)));
    assert(anchor_of("罗马尼亚"@) == Some((45_900_000i64, 25_000_000i64)));
    assert(anchor_of("ukraine"@) == Some((48_400_000i64, 31_200_000i64)));
    assert(anchor_of("乌克兰"@) == Some((48_400_000i64, 31_200_000i64)));
    assert(anchor_of("scotland"@) == Some((56_500_000i64, -4_200_000i64)));
    assert(anchor_of("苏格兰"@) == Some((56_500_000i64, -4_200_000i64)));
    let t = country_table();
    assert forall|k: int| 0 <= k < t.len() implies anchor_of(#[trigger] t[k].0) == Some(t[k].1) by {
        if k == 0 {
            assert(t[k] == ("france"@, (46_600_000i64, 2_400_000i64)));
        } else if k == 1 {
            assert(t[k] == ("法国"@, (46_600_000i64, 2_400_000i64)));
        } else if k == 2 {
            assert(t[k] == ("united kingdom"@, (52_500_000i64, -1_500_000i64)));
        } else if k == 3 {
            assert(t[k] == ("uk"@, (52_500_000i64, -1_500_000i64)));
        } else if k == 4 {
            assert(t[k] == ("britain"@, (52_500_000i64, -1_500_000i64)));
        } else if k == 5 {
            assert(t[k] == ("england"@, (52_500_000i64, -1_500_000i64)));
        } else if k == 6 {
            assert(t[k] == ("英国"@, (52_500_000i64, -1_500_000i64)));
        } else if k == 7 {
            assert(t[k] == ("英格兰"@, (52_500_000i64, -1_500_000i64)));
        } else if k == 8 {
            assert(t[k] == ("ireland"@, (53_300_000i64, -7_700_000i64)));
        } else if k == 9 {
            assert(t[k] == ("爱尔兰"@, (53_300_000i64, -7_700_000i64)));
        } else if k == 10 {
            assert(t[k] == ("germany"@, (51_200_000i64, 10_400_000i64)));
        } else if k == 11 {
            assert(t[k] == ("德国"@, (51_200_000i64, 10_400_000i64)));
        } else if k == 12 {
            assert(t[k] == ("russia"@, (58_000_000i64, 40_000_000i64)));
        } else if k == 13 {
            assert(t[k] == ("russian"@, (58_000_000i64, 40_000_000i64)));
        } else if k == 14 {
            assert(t[k] == ("俄罗斯"@, (58_000_000i64, 40_000_000i64)));
        } else if k == 15 {
            assert(t[k] == ("俄国"@, (58_000_000i64, 40_000_000i64)));
        } else if k == 16 {
            assert(t[k] == ("苏联"@, (58_000_000i64, 40_000_000i64)));
        } else if k == 17 {
            assert(t[k] == ("united states"@, (39_000_000i64, -98_000_000i64)));
        } else if k == 18 {
            assert(t[k] == ("usa"@, (39_000_000i64, -98_000_000i64)));
        } else if k == 19 {
            assert(t[k] == ("us"@, (39_000_000i64, -98_000_000i64)));
        } else if k == 20 {
            assert(t[k] == ("america"@, (39_000_000i64, -98_000_000i64)));
        } else if k == 21 {
            assert(t[k] == ("美国"@, (39_000_000i64, -98_000_000i64)));
        } else if k == 22 {
            assert(t[k] == ("japan"@, (36_200_000i64, 138_300_000i64)));
        } else if k == 23 {
            assert(t[k] == ("日本"@, (36_200_000i64, 138_300_000i64)));
        } else if k == 24 {
            assert(t[k] == ("china"@, (35_900_000i64, 104_200_000i64)));
        } else if k == 25 {
            assert(t[k] == ("中国"@, (35_900_000i64, 104_200_000i64)));
        } else if k == 26 {
            assert(t[k] == ("italy"@, (42_800_000i64, 12_600_000i64)));
        } else if k == 27 {
            assert(t[k] == ("意大利"@, (42_800_000i64, 12_600_000i64)));
        } else if k == 28 {
            assert(t[k] == ("spain"@, (40_200_000i64, -3_700_000i64)));
        } else if k == 29 {
            assert(t[k] == ("西班牙"@, (40_200_000i64, -3_700_000i64)));
        } else if k == 30 {
            assert(t[k] == ("portugal"@, (39_600_000i64, -8_000_000i64)));
        } else if k == 31 {
            assert(t[k] == ("葡萄牙"@, (39_600_000i64, -8_000_000i64)));
        } else if k == 32 {
            assert(t[k] == ("greece"@, (39_100_000i64, 22_000_000i64)));
        } else if k == 33 {
            assert(t[k] == ("希腊"@, (39_100_000i64, 22_000_000i64)));
        } else if k == 34 {
            assert(t[k] == ("austria"@, (47_600_000i64, 14_100_000i64)));
        } else if k == 35 {
            assert(t[k] == ("奥地利"@, (47_600_000i64, 14_100_000i64)));
        } else if k == 36 {
            assert(t[k] == ("switzerland"@, (46_800_000i64, 8_200_000i64)));
        } else if k == 37 {
            assert(t[k] == ("瑞士"@, (46_800_000i64, 8_200_000i64)));
        } else if k == 38 {
            assert(t[k] == ("czech"@, (49_800_000i64, 15_500_000i64)));
        } else if k == 39 {
            assert(t[k] == ("czechia"@, (49_800_000i64, 15_500_000i64)));
        } else if k == 40 {
            assert(t[k] == ("捷克"@, (49_800_000i64, 15_500_000i64)));
        } else if k == 41 {
            assert(t[k] == ("poland"@, (52_100_000i64, 19_400_000i64)));
        } else if k == 42 {
            assert(t[k] == ("波兰"@, (52_100_000i64, 19_400_000i64)));
        } else if k == 43 {
            assert(t[k] == ("norway"@, (60_500_000i64, 8_500_000i64)));
        } else if k == 44 {
            assert(t[k] == ("挪威"@, (60_500_000i64, 8_500_000i64)));
        } else if k == 45 {
            assert(t[k] == ("sweden"@, (60_100_000i64, 15_600_000i64)));
        } else if k == 46 {
            assert(t[k] == ("瑞典"@, (60_100_000i64, 15_600_000i64)));
        } else if k == 47 {
            assert(t[k] == ("denmark"@, (56_000_000i64, 9_500_000i64)));
        } else if k == 48 {
            assert(t[k] == ("丹麦"@, (56_000_000i64, 9_500_000i64)));
        } else if k == 49 {
            assert(t[k] == ("finland"@, (64_000_000i64, 26_000_000i64)));
        } else if k == 50 {
            assert(t[k] == ("芬兰"@, (64_000_000i64, 26_000_000i64)));
        } else if k == 51 {
            assert(t[k] == ("iceland"@, (64_900_000i64, -19_000_000i64)));
        } else if k == 52 {
            assert(t[k] == ("冰岛"@, (64_900_000i64, -19_000_000i64)));
        } else if k == 53 {
            assert(t[k] == ("netherlands"@, (52_100_000i64, 5_300_000i64)));
        } else if k == 54 {
            assert(t[k] == ("holland"@, (52_100_000i64, 5_300_000i64)));
        } else if k == 55 {
            assert(t[k] == ("荷兰"@, (52_100_000i64, 5_300_000i64)));
        } else if k == 56 {
            assert(t[k] == ("belgium"@, (50_600_000i64, 4_500_000i64)));
        } else if k == 57 {
            assert(t[k] == ("比利时"@, (50_600_000i64, 4_500_000i64)));
        } else if k == 58 {
            assert(t[k] == ("india"@, (22_000_000i64, 79_000_000i64)));
        } else if k == 59 {
            assert(t[k] == ("印度"@, (22_000_000i64, 79_000_000i64)));
        } else if k == 60 {
            assert(t[k] == ("turkey"@, (39_000_000i64, 35_200_000i64)));
        } else if k == 61 {
            assert(t[k] == ("türkiye"@, (39_000_000i64, 35_200_000i64)));
        } else if k == 62 {
            assert(t[k] == ("土耳其"@, (39_000_000i64, 35_200_000i64)));
        } else if k == 63 {
            assert(t[k] == ("iran"@, (32_400_000i64, 53_700_000i64)));
        } else if k == 64 {
            assert(t[k] == ("persia"@, (32_400_000i64, 53_700_000i64)));
        } else if k == 65 {
            assert(t[k] == ("伊朗"@, (32_400_000i64, 53_700_000i64)));
        } else if k == 66 {
            assert(t[k] == ("波斯"@, (32_400_000i64, 53_700_000i64)));
        } else if k == 67 {
            assert(t[k] == ("israel"@, (31_500_000i64, 34_900_000i64)));
        } else if k == 68 {
            assert(t[k] == ("以色列"@, (31_500_000i64, 34_900_000i64)));
        } else if k == 69 {
            assert(t[k] == ("egypt"@, (26_800_000i64, 30_800_000i64)));
        } else if k == 70 {
            assert(t[k] == ("埃及"@, (26_800_000i64, 30_800_000i64)));
        } else if k == 71 {
            assert(t[k] == ("nigeria"@, (9_100_000i64, 8_700_000i64)));
        } else if k == 72 {
            assert(t[k] == ("尼日利亚"@, (9_100_000i64, 8_700_000i64)));
        } else if k == 73 {
            assert(t[k] == ("south africa"@, (-30_600_000i64, 24_000_000i64)));
        } else if k == 74 {
            assert(t[k] == ("南非"@, (-30_600_000i64, 24_000_000i64)));
        } else if k == 75 {
            assert(t[k] == ("kenya"@, (0i64, 37_900_000i64)));
        } else if k == 76 {
            assert(t[k] == ("肯尼亚"@, (0i64, 37_900_000i64)));
        } else if k == 77 {
            assert(t[k] == ("brazil"@, (-14_200_000i64, -51_900_000i64)));
        } else if k == 78 {
            assert(t[k] == ("巴西"@, (-14_200_000i64, -51_900_000i64)));
        } else if k == 79 {
            assert(t[k] == ("argentina"@, (-38_400_000i64, -63_600_000i64)));
        } else if k == 80 {
            assert(t[k] == ("阿根廷"@, (-38_400_000i64, -63_600_000i64)));
        } else if k == 81 {
            assert(t[k] == ("colombia"@, (4_600_000i64, -74_300_000i64)));
        } else if k == 82 {
            assert(t[k] == ("哥伦比亚"@, (4_600_000i64, -74_300_000i64)));
        } else if k == 83 {
            assert(t[k] == ("chile"@, (-35_700_000i64, -71_500_000i64)));
        } else if k == 84 {
            assert(t[k] == ("智利"@, (-35_700_000i64, -71_500_000i64)));
        } else if k == 85 {
            assert(t[k] == ("peru"@, (-9_200_000i64, -75_000_000i64)));
        } else if k == 86 {
            assert(t[k] == ("秘鲁"@, (-9_200_000i64, -75_000_000i64)));
        } else if k == 87 {
            assert(t[k] == ("mexico"@, (23_600_000i64, -102_500_000i64)));
        } else if k == 88 {
            assert(t[k] == ("墨西哥"@, (23_600_000i64, -102_500_000i64)));
        } else if k == 89 {
            assert(t[k] == ("canada"@, (56_100_000i64, -106_300_000i64)));
        } else if k == 90 {
            assert(t[k] == ("加拿大"@, (56_100_000i64, -106_300_000i64)));
        } else if k == 91 {
            assert(t[k] == ("australia"@, (-25_300_000i64, 133_800_000i64)));
        } else if k == 92 {
            assert(t[k] == ("澳大利亚"@, (-25_300_000i64, 133_800_000i64)));
        } else if k == 93 {
            assert(t[k] == ("new zealand"@, (-41_000_000i64, 174_000_000i64)));
        } else if k == 94 {
            assert(t[k] == ("新西兰"@, (-41_000_000i64, 174_000_000i64)));
        } else if k == 95 {
            assert(t[k] == ("korea"@, (36_500_000i64, 127_800_000i64)));
        } else if k == 96 {
            assert(t[k] == ("south korea"@, (36_500_000i64, 127_800_000i64)));
        } else if k == 97 {
            assert(t[k] == ("韩国"@, (36_500_000i64, 127_800_000i64)));
        } else if k == 98 {
            assert(t[k] == ("南韩"@, (36_500_000i64, 127_800_000i64)));
        } else if k == 99 {
            assert(t[k] == ("vietnam"@, (14_100_000i64, 108_300_000i64)));
        } else if k == 100 {
            assert(t[k] == ("越南"@, (14_100_000i64, 108_300_000i64)));
        } else if k == 101 {
            assert(t[k] == ("indonesia"@, (-2_500_000i64, 118_000_000i64)));
        } else if k == 102 {
            assert(t[k] == ("印度尼西亚"@, (-2_500_000i64, 118_000_000i64)));
        } else if k == 103 {
            assert(t[k] == ("印尼"@, (-2_500_000i64, 118_000_000i64)));
        } else if k == 104 {
            assert(t[k] == ("hungary"@, (47_200_000i64, 19_500_000i64)));
        } else if k == 105 {
            assert(t[k] == ("匈牙利"@, (47_200_000i64, 19_500_000i64)));
        } else if k == 106 {
            assert(t[k] == ("romania"@, (45_900_000i64, 25_000_000i64)));
        } else if k == 107 {
            assert(t[k] == ("罗马尼亚"@, (45_900_000i64, 25_000_000i64)));
        } else if k == 108 {
            assert(t[k] == ("ukraine"@, (48_400_000i64, 31_200_000i64)));
        } else if k == 109 {
            assert(t[k] == ("乌克兰"@, (48_400_000i64, 31_200_000i64)));
        } else if k == 110 {
            assert(t[k] == ("scotland"@, (56_500_000i64, -4_200_000i64)));
        } else if k == 111 {
            assert(t[k] == ("苏格兰"@, (56_500_000i64, -4_200_000i64)));
        }
    }
}

} // verus!
