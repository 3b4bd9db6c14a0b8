//! ISO week tags such as `2026-W02`, and how they are found in a note's
//! frontmatter.
use vstd::prelude::*;

use crate::text::string_of;

verus! {

/// An ISO week tag, e.g. 2026-W02. Ordering by `(year, week)` is time order.
#[derive(Clone, Copy, PartialEq, Eq, Structural, PartialOrd, Ord, Hash, Debug)]
pub struct Week {
    pub year: u16,
    pub week: u8,
}

/// Time order of weeks: by year, then by week number.
pub open spec fn week_lt(a: Week, b: Week) -> bool {
    a.year < b.year || (a.year == b.year && a.week < b.week)
}

/// A sequence of weeks in strictly increasing time order.
pub open spec fn strictly_sorted_weeks(v: Seq<Week>) -> bool {
    forall|i: int, j: int| 0 <= i < j < v.len() ==> week_lt(#[trigger] v[i], #[trigger] v[j])
}

pub fn week_less(a: &Week, b: &Week) -> (r: bool)
    ensures
        r == week_lt(*a, *b),
{
    a.year < b.year || (a.year == b.year && a.week < b.week)
}

// ------------------------------------------------------------------ label

/// ASCII digit character for `d < 10`.
pub open spec fn digit_char(d: nat) -> char {
    ('0' as u32 + d) as char
}

/// Decimal digits of `n`, without leading zeros ("0" for zero).
pub open spec fn dec_digits(n: nat) -> Seq<char>
    decreases n,
{
    if n < 10 {
        seq![digit_char(n)]
    } else {
        dec_digits(n / 10).push(digit_char(n % 10))
    }
}

/// `format!("{}-W{:02}", year, week)`.
pub open spec fn week_label(w: Week) -> Seq<char> {
    dec_digits(w.year as nat) + seq!['-', 'W'] + if w.week < 10 {
        seq!['0', digit_char(w.week as nat)]
    } else {
        dec_digits(w.week as nat)
    }
}

fn push_digit(out: &mut Vec<char>, d: u32)
    requires
        d < 10,
    ensures
        final(out)@ == old(out)@.push(digit_char(d as nat)),
{
    let c: char = match d {
        0 => '0',
        1 => '1',
        2 => '2',
        3 => '3',
        4 => '4',
        5 => '5',
        6 => '6',
        7 => '7',
        8 => '8',
        _ => '9',
    };
    out.push(c);
}

/// Appends the decimal digits of `n`.
fn push_decimal(out: &mut Vec<char>, n: u32)
    ensures
        final(out)@ == old(out)@ + dec_digits(n as nat),
    decreases n,
{
    if n < 10 {
        push_digit(out, n);
        assert(dec_digits(n as nat) =~= seq![digit_char(n as nat)]);
    } else {
        push_decimal(out, n / 10);
        push_digit(out, n % 10);
        assert(dec_digits(n as nat) =~= dec_digits((n / 10) as nat).push(
            digit_char((n % 10) as nat),
        ));
    }
}

impl Week {
    /// The tag text, e.g. `2026-W02`: the year in decimal, `-W`, and the
    /// week number padded to two digits.
    pub fn label(&self) -> (out: String)
        ensures
            out@ == week_label(*self),
    {
        let mut cs: Vec<char> = Vec::new();
        push_decimal(&mut cs, self.year as u32);
        cs.push('-');
        cs.push('W');
        if self.week < 10 {
            cs.push('0');
            push_digit(&mut cs, self.week as u32);
        } else {
            push_decimal(&mut cs, self.week as u32);
        }
        assert(cs@ =~= week_label(*self));
        string_of(cs.as_slice())
    }
}

// ------------------------------------------------------------------ sorted sets

/// Adds `w` to a strictly sorted list of weeks unless it is already there.
pub fn insert_unique_week(v: &mut Vec<Week>, w: Week)
    requires
        strictly_sorted_weeks(old(v)@),
    ensures
        strictly_sorted_weeks(final(v)@),
        final(v)@.to_set() == old(v)@.to_set().insert(w),
{
    let ghost old_v = v@;
    let mut k = 0usize;
    while k < v.len() && week_less(&v[k], &w)
        invariant
            k <= v.len(),
            v@ == old_v,
            strictly_sorted_weeks(old_v),
            forall|i: int| 0 <= i < k ==> week_lt(#[trigger] old_v[i], w),
        decreases v.len() - k,
    {
        k = k + 1;
    }
    if k < v.len() && v[k] == w {
        assert(old_v.to_set().insert(w) =~= old_v.to_set()) by {
            assert(old_v[k as int] == w);
        }
        return;
    }
    v.insert(k, w);
    assert(v@ =~= old_v.insert(k as int, w));
    assert forall|e: Week| v@.to_set().contains(e) <==> old_v.to_set().insert(w).contains(e) by {
        if old_v.to_set().contains(e) && e != w {
            let i = choose|i: int| 0 <= i < old_v.len() && old_v[i] == e;
            if i < k {
                assert(v@[i] == e);
            } else {
                assert(v@[i + 1] == e);
            }
        }
        if e == w {
            assert(v@[k as int] == e);
        }
        if v@.to_set().contains(e) {
            let i = choose|i: int| 0 <= i < v@.len() && v@[i] == e;
            if i < k {
                assert(old_v[i] == e);
            } else if i > k {
                assert(old_v[i - 1] == e);
            }
        }
    }
    assert(v@.to_set() =~= old_v.to_set().insert(w));
}

// ------------------------------------------------------------------ scanning

pub open spec fn is_digit(c: char) -> bool {
    '0' <= c && c <= '9'
}

pub open spec fn digit_val(c: char) -> nat {
    (c as u32 - '0' as u32) as nat
}

/// The value of a run of decimal digits (empty run: 0).
pub open spec fn dec_value(d: Seq<char>) -> nat
    decreases d.len(),
{
    if d.len() == 0 {
        0
    } else {
        dec_value(d.drop_last()) * 10 + digit_val(d.last())
    }
}

/// The end of the run of digits that starts at `j`.
pub open spec fn digits_end(s: Seq<char>, j: int) -> int
    decreases s.len() - j,
{
    if 0 <= j < s.len() && is_digit(s[j]) {
        digits_end(s, j + 1)
    } else {
        j
    }
}

pub proof fn lemma_digits_end(s: Seq<char>, j: int)
    requires
        0 <= j <= s.len(),
    ensures
        j <= digits_end(s, j) <= s.len(),
        forall|k: int| j <= k < digits_end(s, j) ==> is_digit(#[trigger] s[k]),
        digits_end(s, j) < s.len() ==> !is_digit(s[digits_end(s, j)]),
    decreases s.len() - j,
{
    if j < s.len() && is_digit(s[j]) {
        lemma_digits_end(s, j + 1);
    }
}

/// Whether a week tag `YYYY-Www` or `YYYY-W#` (the `W` in either case)
/// starts at `i`; a one-digit week may end the text.
pub open spec fn week_tag_at(s: Seq<char>, i: int) -> bool {
    &&& 0 <= i
    &&& i + 7 <= s.len()
    &&& is_digit(s[i])
    &&& is_digit(s[i + 1])
    &&& is_digit(s[i + 2])
    &&& is_digit(s[i + 3])
    &&& s[i + 4] == '-'
    &&& (s[i + 5] == 'W' || s[i + 5] == 'w')
    &&& is_digit(s[i + 6])
}

pub open spec fn tag_year(s: Seq<char>, i: int) -> nat {
    dec_value(s.subrange(i, i + 4))
}

pub open spec fn tag_week(s: Seq<char>, i: int) -> nat {
    dec_value(s.subrange(i + 6, digits_end(s, i + 6)))
}

/// A tag is kept when its year is after 1900 and its week is 1 to 53.
pub open spec fn tag_ok(s: Seq<char>, i: int) -> bool {
    tag_year(s, i) > 1900 && 1 <= tag_week(s, i) <= 53
}

/// The week tags found scanning `s` from `i`: after a tag the scan resumes
/// where its week digits end; elsewhere it moves on one character.
pub open spec fn scan_weeks(s: Seq<char>, i: int) -> Seq<Week>
    decreases s.len() - i,
{
    if i < 0 || i + 7 > s.len() {
        seq![]
    } else if week_tag_at(s, i) {
        let j = digits_end(s, i + 6);
        proof {
            lemma_digits_end(s, i + 6);
        }
        let here = if tag_ok(s, i) {
            seq![Week { year: tag_year(s, i) as u16, week: tag_week(s, i) as u8 }]
        } else {
            seq![]
        };
        here + scan_weeks(s, j)
    } else {
        scan_weeks(s, i + 1)
    }
}

/// `min(dec_value(d), 100)`, the week value as far as validity goes.
pub open spec fn capped(n: nat) -> nat {
    if n <= 99 {
        n
    } else {
        100
    }
}

/// Value of the digit run `s[lo..hi]`, capped at 100.
fn capped_value(s: &Vec<char>, lo: usize, hi: usize) -> (r: u32)
    requires
        lo <= hi <= s.len(),
        forall|k: int| lo <= k < hi ==> is_digit(#[trigger] s@[k]),
    ensures
        r == capped(dec_value(s@.subrange(lo as int, hi as int))),
{
    let mut v: u32 = 0;
    let mut k = lo;
    assert(s@.subrange(lo as int, lo as int) =~= Seq::<char>::empty());
    while k < hi
        invariant
            lo <= k <= hi <= s.len(),
            forall|m: int| lo <= m < hi ==> is_digit(#[trigger] s@[m]),
            v == capped(dec_value(s@.subrange(lo as int, k as int))),
        decreases hi - k,
    {
        let c = s[k];
        assert(is_digit(s@[k as int]));
        let d = (c as u32) - ('0' as u32);
        assert(s@.subrange(lo as int, k + 1).drop_last() =~= s@.subrange(lo as int, k as int));
        if v < 100 {
            let nv = v * 10 + d;
            v = if nv <= 99 {
                nv
            } else {
                100
            };
        }
        k = k + 1;
    }
    v
}

/// All `YYYY-Www` week tags of a frontmatter (any prefix, such as
/// `modified/`), in time order, each once.
pub fn parse_weeks(front: &Vec<char>) -> (out: Vec<Week>)
    ensures
        strictly_sorted_weeks(out@),
        out@.to_set() == scan_weeks(front@, 0).to_set(),
{
    let mut out: Vec<Week> = Vec::new();
    let mut i = 0usize;
    let n = front.len();
    while i <= n && n - i >= 7
        invariant
            i <= n,
            n == front.len(),
            strictly_sorted_weeks(out@),
            out@.to_set().union(scan_weeks(front@, i as int).to_set()) == scan_weeks(
                front@,
                0,
            ).to_set(),
        decreases n - i,
    {
        let s = front;
        if is_ascii_digit(s[i]) && is_ascii_digit(s[i + 1]) && is_ascii_digit(s[i + 2])
            && is_ascii_digit(s[i + 3]) && s[i + 4] == '-' && (s[i + 5] == 'W' || s[i + 5]
            == 'w') && is_ascii_digit(s[i + 6]) {
            let mut j = i + 6;
            while j < n && is_ascii_digit(s[j])
                invariant
                    n == s.len(),
                    i + 6 <= j <= n,
                    digits_end(s@, j as int) == digits_end(s@, i + 6),
                decreases n - j,
            {
                j = j + 1;
            }
            proof {
                lemma_digits_end(s@, i + 6);
            }
            let year = four_digit_value(s, i);
            let week = capped_value(s, i + 6, j);
            let ghost rest = scan_weeks(front@, j as int);
            if year > 1900 && 1 <= week && week <= 53 {
                let w = Week { year: year as u16, week: week as u8 };
                insert_unique_week(&mut out, w);
                assert(scan_weeks(front@, i as int) == seq![w] + rest);
                assert((seq![w] + rest).to_set() =~= rest.to_set().insert(w)) by {
                    assert forall|e: Week| (seq![w] + rest).to_set().contains(e) implies rest.to_set().insert(w).contains(e) by {
                        let k = choose|k: int| 0 <= k < (seq![w] + rest).len() && (seq![w] + rest)[k] == e;
                        if k > 0 {
                            assert(rest[k - 1] == e);
                        }
                    }
                    assert forall|e: Week| rest.to_set().contains(e) implies (seq![w] + rest).to_set().contains(e) by {
                        let k = choose|k: int| 0 <= k < rest.len() && rest[k] == e;
                        assert((seq![w] + rest)[k + 1] == e);
                    }
                    assert((seq![w] + rest)[0] == w);
                }
            } else {
                assert(scan_weeks(front@, i as int) =~= rest);
            }
            i = j;
            continue;
        }
        assert(!week_tag_at(front@, i as int));
        i = i + 1;
    }
    assert(scan_weeks(front@, i as int) =~= Seq::<Week>::empty());
    assert(out@.to_set().union(Set::<Week>::empty()) =~= out@.to_set());
    out
}

fn is_ascii_digit(c: char) -> (r: bool)
    ensures
        r == is_digit(c),
{
    '0' <= c && c <= '9'
}

/// The value of the four digits at `s[i..i + 4]`.
fn four_digit_value(s: &Vec<char>, i: usize) -> (r: u32)
    requires
        i + 4 <= s.len(),
        is_digit(s@[i as int]),
        is_digit(s@[i + 1]),
        is_digit(s@[i + 2]),
        is_digit(s@[i + 3]),
    ensures
        r == dec_value(s@.subrange(i as int, i + 4)),
        r <= 9999,
{
    let d0 = (s[i] as u32) - ('0' as u32);
    let d1 = (s[i + 1] as u32) - ('0' as u32);
    let d2 = (s[i + 2] as u32) - ('0' as u32);
    let d3 = (s[i + 3] as u32) - ('0' as u32);
    let ghost t = s@.subrange(i as int, i + 4);
    assert(t.drop_last() =~= s@.subrange(i as int, i + 3));
    assert(t.drop_last().drop_last() =~= s@.subrange(i as int, i + 2));
    assert(t.drop_last().drop_last().drop_last() =~= s@.subrange(i as int, i + 1));
    assert(t.drop_last().drop_last().drop_last().drop_last() =~= Seq::<char>::empty());
    reveal_with_fuel(dec_value, 5);
    d0 * 1000 + d1 * 100 + d2 * 10 + d3
}

// ------------------------------------------------------------------ round trip

proof fn lemma_digit_char(d: nat)
    requires
        d < 10,
    ensures
        is_digit(digit_char(d)),
        digit_val(digit_char(d)) == d,
{
}

/// The decimal digits of `n` are digits and read back as `n`.
proof fn lemma_dec_digits(n: nat)
    ensures
        forall|i: int| 0 <= i < dec_digits(n).len() ==> is_digit(#[trigger] dec_digits(n)[i]),
        dec_value(dec_digits(n)) == n,
        n < 10 ==> dec_digits(n).len() == 1,
        10 <= n < 100 ==> dec_digits(n).len() == 2,
        100 <= n < 1000 ==> dec_digits(n).len() == 3,
        1000 <= n < 10000 ==> dec_digits(n).len() == 4,
    decreases n,
{
    if n < 10 {
        lemma_digit_char(n);
        assert(dec_digits(n).drop_last() =~= Seq::<char>::empty());
        assert(dec_value(Seq::<char>::empty()) == 0);
        assert(dec_value(dec_digits(n)) == dec_value(dec_digits(n).drop_last()) * 10 + digit_val(digit_char(n)));
    } else {
        lemma_dec_digits(n / 10);
        lemma_digit_char(n % 10);
        let s = dec_digits(n);
        assert(s.drop_last() =~= dec_digits(n / 10));
        assert(s.last() == digit_char(n % 10));
        assert((n / 10) * 10 + n % 10 == n) by (nonlinear_arith);
        assert(dec_value(s) == dec_value(s.drop_last()) * 10 + digit_val(s.last()));
        assert forall|i: int| 0 <= i < s.len() implies is_digit(#[trigger] s[i]) by {
            if i < s.len() - 1 {
                assert(s[i] == dec_digits(n / 10)[i]);
            }
        }
    }
}

/// Reading a week's label back gives the week: the label of a week with a
/// four-digit year after 1900 and a week number from 1 to 53 holds exactly
/// that one week tag.
pub proof fn lemma_label_reads_back(w: Week)
    requires
        1901 <= w.year <= 9999,
        1 <= w.week <= 53,
    ensures
        scan_weeks(week_label(w), 0) == seq![w],
{
    let s = week_label(w);
    let y = dec_digits(w.year as nat);
    lemma_dec_digits(w.year as nat);
    let wk = if w.week < 10 {
        seq!['0', digit_char(w.week as nat)]
    } else {
        dec_digits(w.week as nat)
    };
    lemma_dec_digits(w.week as nat);
    assert(s == y + seq!['-', 'W'] + wk);
    assert(s.len() == 8);
    assert(s.subrange(0, 4) =~= y);
    assert(s.subrange(6, 8) =~= wk);
    assert(is_digit(s[0]) && is_digit(s[1]) && is_digit(s[2]) && is_digit(s[3])) by {
        assert(s[0] == y[0] && s[1] == y[1] && s[2] == y[2] && s[3] == y[3]);
    }
    assert(s[4] == '-' && s[5] == 'W');
    assert(is_digit(s[6]) && is_digit(s[7])) by {
        assert(s[6] == wk[0] && s[7] == wk[1]);
    }
    assert(week_tag_at(s, 0));
    assert(digits_end(s, 8) == 8);
    assert(digits_end(s, 7) == 8);
    assert(digits_end(s, 6) == 8);
    assert(dec_value(wk) == w.week) by {
        if w.week < 10 {
            lemma_digit_char(w.week as nat);
            assert(wk.drop_last() =~= seq!['0']);
            assert(wk.last() == digit_char(w.week as nat));
            assert(seq!['0'].drop_last() =~= Seq::<char>::empty());
            assert(digit_val('0') == 0);
            assert(dec_value(Seq::<char>::empty()) == 0);
            assert(dec_value(seq!['0']) == dec_value(seq!['0'].drop_last()) * 10 + digit_val('0'));
            assert(dec_value(seq!['0']) == 0);
        }
    }
    assert(tag_year(s, 0) == w.year);
    assert(tag_week(s, 0) == w.week);
    assert(scan_weeks(s, 8) =~= Seq::<Week>::empty());
    assert(scan_weeks(s, 0) =~= seq![Week { year: w.year, week: w.week }] + scan_weeks(s, 8));
}

} // verus!
