//! What the atlas shows: the week range, the words picked by the filters, and
//! the links among them.
use vstd::prelude::*;

use crate::components::{count_where, lemma_count_where_set};
use vstd::set_lib::{lemma_int_range, lemma_len_subset, set_int_range};
use crate::graph::{graph_wf, Graph};
use crate::order::{insert_unique, key_sorted, Keyed};
use crate::text::{chars_of, copy_range, lowercase, string_of, to_lowercase, trim, trim_bounds};
use crate::week::Week;

verus! {

// ------------------------------------------------------------------ week range

/// A week's place on a time line that gives every year 53 week slots.
pub open spec fn ordinal(w: Week) -> int {
    w.year as int * 53 + w.week as int
}

pub open spec fn abs(x: int) -> int {
    if x < 0 {
        -x
    } else {
        x
    }
}

/// `p` splits `v` into the weeks before `t` and the weeks not before it.
pub open spec fn splits_at(v: Seq<Week>, t: Week, p: int) -> bool {
    &&& 0 <= p <= v.len()
    &&& forall|i: int| 0 <= i < p ==> (#[trigger] v[i]).key() < t.key()
    &&& forall|i: int| p <= i < v.len() ==> t.key() <= (#[trigger] v[i]).key()
}

/// Where `t` would be inserted into the sorted weeks `v`.
pub open spec fn insertion_point(v: Seq<Week>, t: Week) -> int {
    choose|p: int| splits_at(v, t, p)
}

/// The index in the sorted weeks `v` (not empty) that stands for `t`: its
/// own index when `v` holds it, else the nearer neighbour on the 53-slot
/// time line (the earlier one on a tie), or the end it falls beyond.
pub open spec fn nearest_week(v: Seq<Week>, t: Week) -> int {
    let p = insertion_point(v, t);
    if p < v.len() && v[p] == t {
        p
    } else if p == 0 {
        0
    } else if p == v.len() {
        v.len() - 1
    } else if abs(ordinal(t) - ordinal(v[p - 1])) <= abs(ordinal(v[p]) - ordinal(t)) {
        p - 1
    } else {
        p
    }
}

/// The last four weeks of a list of `n` weeks, as an index range.
pub open spec fn recent_range(n: int) -> (usize, usize) {
    let last = if n > 0 {
        n - 1
    } else {
        0
    };
    ((if last >= 3 {
        last - 3
    } else {
        0
    }) as usize, last as usize)
}

/// The new range `remap_week_range` gives.
pub open spec fn remapped(old_weeks: Seq<Week>, lo: int, hi: int, new_weeks: Seq<Week>) -> (usize, usize) {
    if new_weeks.len() == 0 {
        (0, 0)
    } else if !(0 <= lo < old_weeks.len() && 0 <= hi < old_weeks.len()) {
        recent_range(new_weeks.len() as int)
    } else {
        let a = nearest_week(new_weeks, old_weeks[lo]);
        let b = nearest_week(new_weeks, old_weeks[hi]);
        if a <= b {
            (a as usize, b as usize)
        } else {
            (b as usize, a as usize)
        }
    }
}

proof fn lemma_split_unique(v: Seq<Week>, t: Week, p: int, q: int)
    requires
        splits_at(v, t, p),
        splits_at(v, t, q),
    ensures
        p == q,
{
    if p < q {
        assert(v[p].key() < t.key());
    } else if q < p {
        assert(v[q].key() < t.key());
    }
}

/// First position in the sorted weeks `v` whose week is not before `t`.
fn lower_bound(v: &[Week], t: &Week) -> (p: usize)
    requires
        key_sorted(v@),
    ensures
        p as int == insertion_point(v@, *t),
        splits_at(v@, *t, p as int),
{
    let mut lo = 0usize;
    let mut hi = v.len();
    while lo < hi
        invariant
            lo <= hi <= v.len(),
            key_sorted(v@),
            forall|i: int| 0 <= i < lo ==> (#[trigger] v@[i]).key() < t.key(),
            forall|i: int| hi <= i < v.len() ==> t.key() <= (#[trigger] v@[i]).key(),
        decreases hi - lo,
    {
        let mid = lo + (hi - lo) / 2;
        if v[mid].less(t) {
            proof {
                assert forall|i: int| 0 <= i < mid + 1 implies (#[trigger] v@[i]).key() < t.key() by {
                    if i < mid {
                        assert(v@[i].key() < v@[mid as int].key());
                    }
                }
            }
            lo = mid + 1;
        } else {
            proof {
                assert forall|i: int| mid <= i < v.len() implies t.key() <= (#[trigger] v@[i]).key() by {
                    if i > mid {
                        assert(v@[mid as int].key() < v@[i].key());
                    }
                }
            }
            hi = mid;
        }
    }
    proof {
        assert(splits_at(v@, *t, lo as int));
        lemma_split_unique(v@, *t, lo as int, insertion_point(v@, *t));
    }
    lo
}

fn ordinal_of(w: &Week) -> (r: i32)
    ensures
        r == ordinal(*w),
{
    w.year as i32 * 53 + w.week as i32
}

fn abs_diff(a: i32, b: i32) -> (r: i32)
    requires
        -0x4000_0000 < a < 0x4000_0000,
        -0x4000_0000 < b < 0x4000_0000,
    ensures
        r == abs(a - b),
{
    let d = a - b;
    if d < 0 {
        -d
    } else {
        d
    }
}

/// The index that stands for `t` in the sorted, non-empty weeks `v`.
fn nearest(v: &[Week], t: &Week) -> (r: usize)
    requires
        key_sorted(v@),
        v.len() > 0,
    ensures
        r as int == nearest_week(v@, *t),
        r < v.len(),
{
    let p = lower_bound(v, t);
    if p < v.len() && !v[p].less(t) && !t.less(&v[p]) {
        proof {
            Week::lemma_key_injective(v@[p as int], *t);
        }
        p
    } else if p == 0 {
        proof {
            if p < v.len() && v@[p as int] == *t {
                assert(false);
            }
        }
        0
    } else if p == v.len() {
        v.len() - 1
    } else {
        proof {
            if v@[p as int] == *t {
                assert(false);
            }
        }
        let target = ordinal_of(t);
        let before = abs_diff(target, ordinal_of(&v[p - 1]));
        let after = abs_diff(ordinal_of(&v[p]), target);
        if before <= after {
            p - 1
        } else {
            p
        }
    }
}

/// After a reload the week list may have changed, so a selected index range
/// is carried over by its week labels: each end goes to the same week in
/// the new list, or to the nearest one there. Without a valid old range the
/// last four weeks are taken.
pub fn remap_week_range(old_weeks: &[Week], old_lo: usize, old_hi: usize, new_weeks: &[Week]) -> (r: (
    usize,
    usize,
))
    requires
        key_sorted(new_weeks@),
    ensures
        r == remapped(old_weeks@, old_lo as int, old_hi as int, new_weeks@),
        new_weeks.len() > 0 ==> r.0 <= r.1 < new_weeks.len(),
{
    if new_weeks.len() == 0 {
        return (0, 0);
    }
    if old_lo >= old_weeks.len() || old_hi >= old_weeks.len() {
        let last = new_weeks.len() - 1;
        return (last.saturating_sub(3), last);
    }
    let lo = nearest(new_weeks, &old_weeks[old_lo]);
    let hi = nearest(new_weeks, &old_weeks[old_hi]);
    if lo <= hi {
        (lo, hi)
    } else {
        (hi, lo)
    }
}

// ------------------------------------------------------------------ selection

/// The filters that pick the words on screen.
pub struct Scope {
    /// First and last selected week, as indices into `Graph::weeks`.
    pub week_lo: usize,
    pub week_hi: usize,
    /// How many links out from the picked words to follow.
    pub hops: usize,
    /// Leave out words with no link to another shown word.
    pub hide_isolated: bool,
    /// When set, start from this one word instead of the week range.
    pub focus: Option<u32>,
}

/// The node was edited in a week with index in `lo..=hi`.
pub open spec fn edited_within(weeks: Seq<u16>, lo: u16, hi: u16) -> bool {
    exists|k: int| 0 <= k < weeks.len() && lo <= #[trigger] weeks[k] <= hi
}

/// The words the selection starts from.
pub open spec fn seeds(g: Graph, s: Scope) -> Set<int> {
    match s.focus {
        Some(f) => set![f as int],
        None => Set::new(
            |v: int|
                0 <= v < g.nodes.len() && edited_within(
                    g.nodes@[v].weeks@,
                    s.week_lo as u16,
                    s.week_hi as u16,
                ),
        ),
    }
}

/// `v` is a neighbour of a member of `r`.
pub open spec fn next_to(adj: Seq<Seq<u32>>, r: Set<int>, v: int) -> bool {
    exists|u: int, k: int|
        r.contains(u) && 0 <= u < adj.len() && 0 <= k < adj[u].len() && #[trigger] adj[u][k] as int == v
}

/// Everything at most `d` links away from `start`.
pub open spec fn reach(adj: Seq<Seq<u32>>, start: Set<int>, d: nat) -> Set<int>
    decreases d,
{
    if d == 0 {
        start
    } else {
        let r = reach(adj, start, (d - 1) as nat);
        r.union(Set::new(|v: int| next_to(adj, r, v)))
    }
}

/// The words reached from the seeds within `hops` links.
pub open spec fn reached(g: Graph, s: Scope) -> Set<int> {
    reach(g.adjacency(), seeds(g, s), s.hops as nat)
}

/// Whether word `v` is on screen under the filters `s`.
pub open spec fn shown(g: Graph, s: Scope, v: int) -> bool {
    &&& reached(g, s).contains(v)
    &&& s.hide_isolated ==> exists|k: int|
        0 <= k < g.nodes@[v].neighbors.len() && reached(g, s).contains(
            #[trigger] g.nodes@[v].neighbors@[k] as int,
        )
}

/// Strictly increasing.
pub open spec fn ascending(v: Seq<u32>) -> bool {
    forall|i: int, j: int| 0 <= i < j < v.len() ==> v[i] < v[j]
}

/// The scope can be applied to the graph without an index going out of it.
pub open spec fn scope_fits(g: Graph, s: Scope) -> bool {
    match s.focus {
        Some(f) => f < g.nodes.len() || (s.hops == 0 && !s.hide_isolated),
        None => true,
    }
}

proof fn lemma_reach_grows(adj: Seq<Seq<u32>>, start: Set<int>, d: nat, e: nat)
    requires
        d <= e,
    ensures
        reach(adj, start, d).subset_of(reach(adj, start, e)),
    decreases e,
{
    if d < e {
        lemma_reach_grows(adj, start, d, (e - 1) as nat);
    }
}

/// Once no member of `reach(d)` has a neighbour outside it, the reach stops
/// growing.
proof fn lemma_reach_closed(adj: Seq<Seq<u32>>, start: Set<int>, d: nat, e: nat)
    requires
        d <= e,
        forall|v: int| next_to(adj, reach(adj, start, d), v) ==> reach(adj, start, d).contains(v),
    ensures
        reach(adj, start, e) == reach(adj, start, d),
    decreases e,
{
    if d < e {
        lemma_reach_closed(adj, start, d, (e - 1) as nat);
        let r = reach(adj, start, (e - 1) as nat);
        assert(reach(adj, start, e) =~= r);
    }
}

/// The words on screen, ascending: the words edited in the selected weeks
/// (or the focused word), everything within `hops` links of them, and, when
/// isolated words are hidden, only those linked to another shown word.
pub fn compute_selection(g: &Graph, s: &Scope) -> (out: Vec<u32>)
    requires
        graph_wf(*g),
        scope_fits(*g, *s),
    ensures
        ascending(out@),
        forall|v: int| 0 <= v < g.nodes.len() ==> (out@.contains(v as u32) <==> shown(*g, *s, v)),
        match s.focus {
            Some(f) => f >= g.nodes.len() ==> out@ == seq![f],
            None => forall|k: int| 0 <= k < out.len() ==> out@[k] < g.nodes.len(),
        },
        forall|k: int| 0 <= k < out.len() ==> out@[k] < g.nodes.len() || s.focus == Some(out@[k]),
{
    let n = g.nodes.len();
    let ghost adj = g.adjacency();
    let ghost start = seeds(*g, *s);
    let mut seen: Vec<bool> = Vec::new();
    let mut i = 0usize;
    while i < n
        invariant
            i <= n,
            seen.len() == i,
            forall|v: int| 0 <= v < i ==> !(#[trigger] seen@[v]),
        decreases n - i,
    {
        seen.push(false);
        i = i + 1;
    }
    let mut frontier: Vec<u32> = Vec::new();
    match s.focus {
        Some(f) => {
            if f as usize >= n {
                let out = vec![f];
                assert(out@ == seq![f]);
                return out;
            }
            seen.set(f as usize, true);
            frontier.push(f);
            assert(frontier@[0] == f);
            assert(frontier@.contains(f));
        },
        None => {
            let lo = s.week_lo as u16;
            let hi = s.week_hi as u16;
            let mut v = 0usize;
            while v < n
                invariant
                    v <= n,
                    n == g.nodes.len(),
                    n < u32::MAX,
                    seen.len() == n,
                    s.focus is None,
                    lo == s.week_lo as u16,
                    hi == s.week_hi as u16,
                    start == seeds(*g, *s),
                    forall|u: int| 0 <= u < n ==> (#[trigger] seen@[u] <==> (u < v && start.contains(u))),
                    forall|k: int| 0 <= k < frontier.len() ==> (#[trigger] frontier@[k]) < v && seen@[frontier@[k] as int],
                    forall|u: int| 0 <= u < v && seen@[u] ==> frontier@.contains(u as u32),
                decreases n - v,
            {
                let ws = &g.nodes[v].weeks;
                let mut hit = false;
                let mut k = 0usize;
                while k < ws.len()
                    invariant
                        k <= ws.len(),
                        hit <==> exists|m: int| 0 <= m < k && lo <= #[trigger] ws@[m] <= hi,
                    decreases ws.len() - k,
                {
                    if ws[k] >= lo && ws[k] <= hi {
                        hit = true;
                    }
                    k = k + 1;
                }
                assert(hit <==> start.contains(v as int));
                let ghost fr0 = frontier@;
                let ghost sn0 = seen@;
                if hit {
                    seen.set(v, true);
                    frontier.push(v as u32);
                    assert(frontier@[frontier.len() - 1] == v as u32);
                }
                v = v + 1;
                proof {
                    assert forall|u: int| 0 <= u < v && seen@[u] implies frontier@.contains(u as u32) by {
                        if u < v - 1 {
                            assert(fr0.contains(u as u32));
                            let k = choose|k: int| 0 <= k < fr0.len() && fr0[k] == u as u32;
                            assert(frontier@[k] == u as u32);
                        } else {
                            assert(frontier@[frontier.len() - 1] == u as u32);
                        }
                    }
                    assert forall|k: int| 0 <= k < frontier.len() implies (#[trigger] frontier@[k]) < v && seen@[frontier@[k] as int] by {
                        if k < fr0.len() {
                            assert(frontier@[k] == fr0[k]);
                            let x = fr0[k] as int;
                            assert(x < v - 1 && sn0[x]);
                            assert(seen@[x] == sn0[x]);
                            assert(seen@[frontier@[k] as int]);
                        } else {
                            assert(hit && frontier@[k] == (v - 1) as u32);
                            assert(seen@[v - 1]);
                            assert(seen@[frontier@[k] as int]);
                        }
                    }
                }
            }
        },
    }
    assert forall|u: int| 0 <= u < n implies (#[trigger] seen@[u] <==> reach(adj, start, 0).contains(u)) by {
    }
    let mut d = 0usize;
    while d < s.hops && frontier.len() > 0
        invariant
            n == g.nodes.len(),
            graph_wf(*g),
            adj == g.adjacency(),
            start == seeds(*g, *s),
            seen.len() == n,
            d <= s.hops,
            start.subset_of(Set::new(|u: int| 0 <= u < n)),
            forall|u: int| 0 <= u < n ==> (#[trigger] seen@[u] <==> reach(adj, start, d as nat).contains(u)),
            reach(adj, start, d as nat).subset_of(Set::new(|u: int| 0 <= u < n)),
            forall|k: int| 0 <= k < frontier.len() ==> (#[trigger] frontier@[k]) < n && seen@[frontier@[k] as int],
            forall|u: int, k: int|
                0 <= u < n && seen@[u] && !frontier@.contains(u as u32) && 0 <= k < adj[u].len()
                    ==> seen@[#[trigger] adj[u][k] as int],
        decreases s.hops - d,
    {
        let ghost r = reach(adj, start, d as nat);
        let ghost seen0 = seen@;
        let mut next: Vec<u32> = Vec::new();
        let mut j = 0usize;
        while j < frontier.len()
            invariant
                n == g.nodes.len(),
                graph_wf(*g),
                adj == g.adjacency(),
                seen.len() == n,
                j <= frontier.len(),
                forall|k: int| 0 <= k < frontier.len() ==> (#[trigger] frontier@[k]) < n && seen0[frontier@[k] as int],
                forall|u: int| 0 <= u < n ==> (#[trigger] seen0[u] <==> r.contains(u)),
                forall|u: int| 0 <= u < n ==> (#[trigger] seen@[u] <==> (seen0[u] || (exists|x: int, k: int|
                    0 <= x < j && 0 <= k < adj[frontier@[x] as int].len() && #[trigger] adj[frontier@[x] as int][k] as int == u))),
                forall|k: int| 0 <= k < next.len() ==> (#[trigger] next@[k]) < n && seen@[next@[k] as int] && !seen0[next@[k] as int],
                forall|u: int| 0 <= u < n && seen@[u] && !seen0[u] ==> next@.contains(u as u32),
            decreases frontier.len() - j,
        {
            let cur = frontier[j];
            let nbs = &g.nodes[cur as usize].neighbors;
            assert(nbs@ == adj[cur as int]);
            let mut k = 0usize;
            while k < nbs.len()
                invariant
                    n == g.nodes.len(),
                    graph_wf(*g),
                    adj == g.adjacency(),
                    seen.len() == n,
                    j < frontier.len(),
                    cur == frontier@[j as int],
                    cur < n,
                    nbs@ == adj[cur as int],
                    k <= nbs.len(),
                    forall|u: int| 0 <= u < n ==> (#[trigger] seen0[u] <==> r.contains(u)),
                    forall|u: int| 0 <= u < n ==> (#[trigger] seen@[u] <==> (seen0[u] || (exists|x: int, m: int|
                        0 <= x < j && 0 <= m < adj[frontier@[x] as int].len() && #[trigger] adj[frontier@[x] as int][m] as int == u)
                        || (exists|m: int| 0 <= m < k && #[trigger] nbs@[m] as int == u))),
                    forall|m: int| 0 <= m < next.len() ==> (#[trigger] next@[m]) < n && seen@[next@[m] as int] && !seen0[next@[m] as int],
                    forall|u: int| 0 <= u < n && seen@[u] && !seen0[u] ==> next@.contains(u as u32),
                decreases nbs.len() - k,
            {
                let nb = nbs[k];
                assert(nb < n) by {
                    assert(g.nodes@[cur as int].neighbors@[k as int] < g.nodes.len());
                }
                let ghost nx0 = next@;
                if !seen[nb as usize] {
                    seen.set(nb as usize, true);
                    next.push(nb);
                    assert(next@[next.len() - 1] == nb);
                }
                k = k + 1;
                assert forall|u: int| 0 <= u < n && seen@[u] && !seen0[u] implies next@.contains(u as u32) by {
                    if nx0.contains(u as u32) {
                        let x = choose|x: int| 0 <= x < nx0.len() && nx0[x] == u as u32;
                        assert(next@[x] == u as u32);
                    } else {
                        assert(next@[next.len() - 1] == u as u32);
                    }
                }
                assert forall|m: int| 0 <= m < next.len() implies (#[trigger] next@[m]) < n && seen@[next@[m] as int] && !seen0[next@[m] as int] by {
                    if m < nx0.len() {
                        assert(next@[m] == nx0[m]);
                    }
                }
                assert forall|u: int| 0 <= u < n implies (#[trigger] seen@[u] <==> (seen0[u] || (exists|x: int, m: int|
                        0 <= x < j && 0 <= m < adj[frontier@[x] as int].len() && #[trigger] adj[frontier@[x] as int][m] as int == u)
                        || (exists|m: int| 0 <= m < k && #[trigger] nbs@[m] as int == u))) by {
                    if u == nb as int {
                        assert(nbs@[k - 1] as int == u);
                    }
                }
            }
            j = j + 1;
            assert forall|u: int| 0 <= u < n implies (#[trigger] seen@[u] <==> (seen0[u] || (exists|x: int, k: int|
                0 <= x < j && 0 <= k < adj[frontier@[x] as int].len() && #[trigger] adj[frontier@[x] as int][k] as int == u))) by {
                if exists|m: int| 0 <= m < nbs.len() && #[trigger] nbs@[m] as int == u {
                    let m = choose|m: int| 0 <= m < nbs.len() && #[trigger] nbs@[m] as int == u;
                    assert(adj[frontier@[j - 1] as int][m] as int == u);
                }
                if exists|x: int, m: int| 0 <= x < j && 0 <= m < adj[frontier@[x] as int].len() && #[trigger] adj[frontier@[x] as int][m] as int == u {
                    let (x, m) = choose|x: int, m: int| 0 <= x < j && 0 <= m < adj[frontier@[x] as int].len() && #[trigger] adj[frontier@[x] as int][m] as int == u;
                    if x == j - 1 {
                        assert(nbs@[m] as int == u);
                    }
                }
            }
        }
        proof {
            let r1 = reach(adj, start, (d + 1) as nat);
            assert(r1 == r.union(Set::new(|v: int| next_to(adj, r, v))));
            assert forall|u: int| 0 <= u < n implies (#[trigger] seen@[u] <==> r1.contains(u)) by {
                if seen@[u] && !seen0[u] {
                    let (x, m) = choose|x: int, m: int| 0 <= x < frontier.len() && 0 <= m < adj[frontier@[x] as int].len()
                        && #[trigger] adj[frontier@[x] as int][m] as int == u;
                    assert(r.contains(frontier@[x] as int));
                    assert(next_to(adj, r, u));
                }
                if r1.contains(u) && !r.contains(u) {
                    assert(next_to(adj, r, u));
                    let (w, m) = choose|w: int, m: int| r.contains(w) && 0 <= w < adj.len() && 0 <= m < adj[w].len() && #[trigger] adj[w][m] as int == u;
                    assert(seen0[w]);
                    if frontier@.contains(w as u32) {
                        let x = choose|x: int| 0 <= x < frontier.len() && frontier@[x] == w as u32;
                        assert(adj[frontier@[x] as int][m] as int == u);
                    } else {
                        assert(seen0[adj[w][m] as int]);
                    }
                }
            }
            assert forall|v: int| r1.contains(v) implies 0 <= v < n by {
                if !r.contains(v) {
                    let (w, m) = choose|w: int, m: int| r.contains(w) && 0 <= w < adj.len() && 0 <= m < adj[w].len() && #[trigger] adj[w][m] as int == v;
                    assert(g.nodes@[w].neighbors@[m] < g.nodes.len());
                }
            }
            assert forall|u: int, k: int|
                0 <= u < n && seen@[u] && !next@.contains(u as u32) && 0 <= k < adj[u].len()
                    implies seen@[#[trigger] adj[u][k] as int] by {
                assert(seen0[u]);
                assert(r1.contains(adj[u][k] as int)) by {
                    assert(r.contains(u));
                    assert(next_to(adj, r, adj[u][k] as int));
                }
                assert(adj[u][k] < n) by {
                    assert(g.nodes@[u].neighbors@[k] < g.nodes.len());
                }
            }
        }
        frontier = next;
        d = d + 1;
    }
    proof {
        if d < s.hops {
            let r = reach(adj, start, d as nat);
            assert forall|v: int| next_to(adj, r, v) implies r.contains(v) by {
                let (w, m) = choose|w: int, m: int| r.contains(w) && 0 <= w < adj.len() && 0 <= m < adj[w].len() && #[trigger] adj[w][m] as int == v;
                assert(seen@[w]);
                assert(adj[w][m] < n) by {
                    assert(g.nodes@[w].neighbors@[m] < g.nodes.len());
                }
                assert(seen@[adj[w][m] as int]);
            }
            lemma_reach_closed(adj, start, d as nat, s.hops as nat);
        }
    }
    // `seen` now marks exactly the reached words
    let mut ids: Vec<u32> = Vec::new();
    let mut v = 0usize;
    while v < n
        invariant
            v <= n,
            n == g.nodes.len(),
            graph_wf(*g),
            seen.len() == n,
            forall|u: int| 0 <= u < n ==> (#[trigger] seen@[u] <==> reached(*g, *s).contains(u)),
            ascending(ids@),
            forall|k: int| 0 <= k < ids.len() ==> (#[trigger] ids@[k]) < v,
            forall|u: int| 0 <= u < v ==> (ids@.contains(u as u32) <==> #[trigger] shown(*g, *s, u)),
        decreases n - v,
    {
        let keep = if !seen[v] {
            false
        } else if !s.hide_isolated {
            true
        } else {
            let nbs = &g.nodes[v].neighbors;
            let mut linked = false;
            let mut k = 0usize;
            while k < nbs.len()
                invariant
                    k <= nbs.len(),
                    n == g.nodes.len(),
                    graph_wf(*g),
                    v < n,
                    nbs == &g.nodes@[v as int].neighbors,
                    seen.len() == n,
                    forall|u: int| 0 <= u < n ==> (#[trigger] seen@[u] <==> reached(*g, *s).contains(u)),
                    linked <==> exists|m: int| 0 <= m < k && reached(*g, *s).contains(#[trigger] nbs@[m] as int),
                decreases nbs.len() - k,
            {
                let nb = nbs[k];
                assert(nb < n) by {
                    assert(g.nodes@[v as int].neighbors@[k as int] < g.nodes.len());
                }
                if seen[nb as usize] {
                    linked = true;
                }
                k = k + 1;
            }
            linked
        };
        assert(keep <==> shown(*g, *s, v as int));
        let ghost before = ids@;
        if keep {
            ids.push(v as u32);
        }
        v = v + 1;
        assert forall|u: int| 0 <= u < v implies (ids@.contains(u as u32) <==> #[trigger] shown(*g, *s, u)) by {
            if u < v - 1 {
                if ids@.contains(u as u32) {
                    let k = choose|k: int| 0 <= k < ids.len() && ids@[k] == u as u32;
                    if k < before.len() {
                        assert(before[k] == u as u32);
                    }
                }
                if before.contains(u as u32) {
                    let k = choose|k: int| 0 <= k < before.len() && before[k] == u as u32;
                    assert(ids@[k] == u as u32);
                }
            } else if keep {
                assert(ids@[ids.len() - 1] == u as u32);
            } else {
                if ids@.contains(u as u32) {
                    let k = choose|k: int| 0 <= k < ids.len() && ids@[k] == u as u32;
                    assert(before[k] < u);
                }
            }
        }
    }
    ids
}

/// How many words in the selected weeks are hidden for having no link at all
/// (none while isolated words are shown or a word is focused).
pub open spec fn isolated_in(g: Graph, s: Scope) -> nat {
    if !s.hide_isolated || s.focus is Some {
        0
    } else {
        count_where(
            |i: int|
                g.nodes@[i].neighbors.len() == 0 && edited_within(
                    g.nodes@[i].weeks@,
                    s.week_lo as u16,
                    s.week_hi as u16,
                ),
            g.nodes.len() as int,
        )
    }
}

/// The words hidden for having no links are the words the week range picks
/// that have no neighbour: while isolated words are hidden (and no word is
/// focused) the count is the number of such words, so never more than the
/// words the range picks; otherwise it is zero.
pub proof fn lemma_isolated_are_unlinked_seeds(g: Graph, s: Scope)
    ensures
        !s.hide_isolated || s.focus is Some ==> isolated_in(g, s) == 0,
        s.hide_isolated && s.focus is None ==> {
            &&& seeds(g, s).finite()
            &&& isolated_in(g, s) == Set::new(
                |v: int| seeds(g, s).contains(v) && g.nodes@[v].neighbors.len() == 0,
            ).len()
            &&& isolated_in(g, s) <= seeds(g, s).len()
        },
{
    if s.hide_isolated && s.focus is None {
        let n = g.nodes.len() as int;
        let f = |i: int|
            g.nodes@[i].neighbors.len() == 0 && edited_within(
                g.nodes@[i].weeks@,
                s.week_lo as u16,
                s.week_hi as u16,
            );
        lemma_count_where_set(f, n);
        let hidden = Set::new(|v: int| seeds(g, s).contains(v) && g.nodes@[v].neighbors.len() == 0);
        assert(hidden =~= Set::new(|x: int| 0 <= x < n && f(x)));
        lemma_int_range(0, n);
        assert(seeds(g, s).subset_of(set_int_range(0, n)));
        vstd::set_lib::lemma_set_subset_finite(set_int_range(0, n), seeds(g, s));
        assert(hidden.subset_of(seeds(g, s)));
        lemma_len_subset(hidden, seeds(g, s));
    }
}

pub fn isolated_count(g: &Graph, s: &Scope) -> (r: usize)
    ensures
        r == isolated_in(*g, *s),
{
    if !s.hide_isolated || s.focus.is_some() {
        return 0;
    }
    let lo = s.week_lo as u16;
    let hi = s.week_hi as u16;
    let ghost f = |i: int|
        g.nodes@[i].neighbors.len() == 0 && edited_within(g.nodes@[i].weeks@, lo, hi);
    let mut count = 0usize;
    let mut i = 0usize;
    while i < g.nodes.len()
        invariant
            i <= g.nodes.len(),
            f == (|i: int|
                g.nodes@[i].neighbors.len() == 0 && edited_within(g.nodes@[i].weeks@, lo, hi)),
            count == count_where(f, i as int),
            count <= i,
        decreases g.nodes.len() - i,
    {
        let node = &g.nodes[i];
        let mut hit = false;
        if node.neighbors.len() == 0 {
            let mut k = 0usize;
            while k < node.weeks.len()
                invariant
                    k <= node.weeks.len(),
                    hit <==> exists|m: int| 0 <= m < k && lo <= #[trigger] node.weeks@[m] <= hi,
                decreases node.weeks.len() - k,
            {
                if node.weeks[k] >= lo && node.weeks[k] <= hi {
                    hit = true;
                }
                k = k + 1;
            }
        }
        assert(hit == f(i as int));
        if hit {
            count = count + 1;
        }
        i = i + 1;
    }
    count
}

/// An ascending list of values below `n` is no longer than `n`.
proof fn lemma_ascending_len(v: Seq<u32>, n: int)
    requires
        ascending(v),
        0 <= n,
        forall|k: int| 0 <= k < v.len() ==> v[k] < n,
    ensures
        v.len() <= n,
{
    assert forall|k: int| 0 <= k < v.len() implies v[k] >= k by {
        lemma_ascending_at_least(v, k);
    }
    if v.len() > 0 {
        assert(v[v.len() - 1] >= v.len() - 1);
        assert(v[v.len() - 1] < n);
    }
}

proof fn lemma_ascending_at_least(v: Seq<u32>, k: int)
    requires
        ascending(v),
        0 <= k < v.len(),
    ensures
        v[k] >= k,
    decreases k,
{
    if k > 0 {
        lemma_ascending_at_least(v, k - 1);
        assert(v[k - 1] < v[k]);
    }
}

/// Position of `x` in an ascending list, if it is there.
fn find_sorted(v: &Vec<u32>, x: u32) -> (r: Option<usize>)
    requires
        ascending(v@),
    ensures
        match r {
            Some(j) => j < v.len() && v@[j as int] == x,
            None => !v@.contains(x),
        },
{
    let mut lo = 0usize;
    let mut hi = v.len();
    while lo < hi
        invariant
            lo <= hi <= v.len(),
            ascending(v@),
            forall|i: int| 0 <= i < lo ==> v@[i] < x,
            forall|i: int| hi <= i < v.len() ==> x < v@[i],
        decreases hi - lo,
    {
        let mid = lo + (hi - lo) / 2;
        if v[mid] < x {
            lo = mid + 1;
        } else if x < v[mid] {
            hi = mid;
        } else {
            return Some(mid);
        }
    }
    None
}

/// The links among the shown words `ids`, as pairs of positions in `ids`,
/// lower word first, sorted, each once.
pub open spec fn local_edge_set(g: Graph, ids: Seq<u32>) -> Set<(u32, u32)> {
    Set::new(
        |e: (u32, u32)|
            e.0 < ids.len() && e.1 < ids.len() && ids[e.0 as int] < ids[e.1 as int]
                && g.nodes@[ids[e.0 as int] as int].neighbors@.contains(ids[e.1 as int]),
    )
}

/// The links among the words `ids` (ascending), numbered by position in `ids`.
pub fn local_edges(g: &Graph, ids: &Vec<u32>) -> (out: Vec<(u32, u32)>)
    requires
        graph_wf(*g),
        ascending(ids@),
        forall|k: int| 0 <= k < ids.len() ==> ids@[k] < g.nodes.len(),
    ensures
        key_sorted(out@),
        out@.to_set() == local_edge_set(*g, ids@),
{
    proof {
        lemma_ascending_len(ids@, g.nodes.len() as int);
    }
    let mut out: Vec<(u32, u32)> = Vec::new();
    let mut i = 0usize;
    while i < ids.len()
        invariant
            i <= ids.len() <= g.nodes.len() < u32::MAX,
            graph_wf(*g),
            ascending(ids@),
            forall|k: int| 0 <= k < ids.len() ==> ids@[k] < g.nodes.len(),
            key_sorted(out@),
            out@.to_set() == local_edge_set(*g, ids@).filter(|e: (u32, u32)| e.0 < i),
        decreases ids.len() - i,
    {
        let a = ids[i];
        let nbs = &g.nodes[a as usize].neighbors;
        let mut k = 0usize;
        while k < nbs.len()
            invariant
                i < ids.len() <= g.nodes.len() < u32::MAX,
                graph_wf(*g),
                ascending(ids@),
                a == ids@[i as int],
                nbs == &g.nodes@[a as int].neighbors,
                k <= nbs.len(),
                key_sorted(out@),
                out@.to_set() == local_edge_set(*g, ids@).filter(|e: (u32, u32)| e.0 < i)
                    .union(local_edge_set(*g, ids@).filter(
                    |e: (u32, u32)| e.0 == i && nbs@.take(k as int).contains(ids@[e.1 as int]),
                )),
            decreases nbs.len() - k,
        {
            let b = nbs[k];
            let ghost before = out@.to_set();
            if a < b {
                match find_sorted(ids, b) {
                    Some(j) => {
                        insert_unique(&mut out, (i as u32, j as u32));
                    },
                    None => {},
                }
            }
            k = k + 1;
            proof {
                crate::graph::lemma_take_contains(nbs@, k as int);
                let all = local_edge_set(*g, ids@);
                assert forall|e: (u32, u32)| out@.to_set().contains(e) <==> (all.filter(|e: (u32, u32)| e.0 < i)
                    .union(all.filter(
                    |e: (u32, u32)| e.0 == i && nbs@.take(k as int).contains(ids@[e.1 as int]),
                ))).contains(e) by {
                    if all.contains(e) && e.0 == i && ids@[e.1 as int] == b {
                        assert(g.nodes@[a as int].neighbors@.contains(b));
                        if !ids@.contains(b) {
                            assert(ids@[e.1 as int] == b);
                        }
                    }
                    if e == (i as u32, j_of(ids@, b)) && a < b && ids@.contains(b) {
                        assert(nbs@[k - 1] == b);
                        assert(nbs@.contains(b));
                    }
                }
                assert(out@.to_set() =~= all.filter(|e: (u32, u32)| e.0 < i)
                    .union(all.filter(
                    |e: (u32, u32)| e.0 == i && nbs@.take(k as int).contains(ids@[e.1 as int]),
                )));
            }
        }
        i = i + 1;
        proof {
            let all = local_edge_set(*g, ids@);
            assert(nbs@.take(nbs.len() as int) =~= nbs@);
            assert(out@.to_set() =~= all.filter(|e: (u32, u32)| e.0 < i));
        }
    }
    proof {
        let all = local_edge_set(*g, ids@);
        assert(out@.to_set() =~= all);
    }
    out
}

/// The position of `x` in an ascending list that holds it.
spec fn j_of(v: Seq<u32>, x: u32) -> u32 {
    (choose|j: int| 0 <= j < v.len() && v[j] == x) as u32
}

// ------------------------------------------------------------------ search

/// `h` holds `n` as a contiguous run.
pub open spec fn holds_run(h: Seq<char>, n: Seq<char>) -> bool {
    exists|i: int| 0 <= i && i + n.len() <= h.len() && #[trigger] h.subrange(i, i + n.len()) == n
}

/// The first word from `i` on whose lower-cased name holds `key`.
pub open spec fn first_holding(g: Graph, key: Seq<char>, i: int) -> Option<u32>
    decreases g.nodes.len() - i,
{
    if i < 0 || i >= g.nodes.len() {
        None
    } else if holds_run(lowercase(g.nodes@[i].name@), key) {
        Some(i as u32)
    } else {
        first_holding(g, key, i + 1)
    }
}

/// The word a search for `q` lands on: the word with that name (ignoring
/// case and surrounding blanks), else the first word whose name contains it.
pub open spec fn search_target(g: Graph, q: Seq<char>) -> Option<u32> {
    let key = lowercase(trim(q));
    if key.len() == 0 {
        None
    } else if g.name_map().dom().contains(lowercase(key)) {
        Some(g.name_map()[lowercase(key)])
    } else {
        first_holding(g, key, 0)
    }
}

/// The scan for a word holding `key`, started at `i`, lands on a word at or
/// before any word from `i` on whose lower-cased name holds the key, and on
/// a word whose lower-cased name holds it, with none before it from `i` on.
proof fn lemma_first_holding_from(g: Graph, key: Seq<char>, i: int, w: int)
    requires
        0 <= i <= w < g.nodes.len() < u32::MAX,
        holds_run(lowercase(g.nodes@[w].name@), key),
    ensures
        first_holding(g, key, i) matches Some(j) && i <= j <= w && holds_run(
            lowercase(g.nodes@[j as int].name@),
            key,
        ) && forall|m: int| i <= m < j ==> !holds_run(lowercase(#[trigger] g.nodes@[m].name@), key),
    decreases w - i,
{
    if !holds_run(lowercase(g.nodes@[i].name@), key) {
        lemma_first_holding_from(g, key, i + 1, w);
        assert(first_holding(g, key, i) == first_holding(g, key, i + 1));
    } else {
        assert(first_holding(g, key, i) == Some(i as u32));
    }
}

/// A search lands on a word whenever some word matches it: when no name
/// equals the query (trimmed, ignoring case), it lands on the first word
/// whose lower-cased name contains the trimmed, lower-cased query, at or
/// before any word `w` whose name does, and never comes back empty.
pub proof fn lemma_search_finds_first_holder(g: Graph, q: Seq<char>, w: int)
    requires
        graph_wf(g),
        0 <= w < g.nodes.len(),
        lowercase(trim(q)).len() > 0,
        holds_run(lowercase(g.nodes@[w].name@), lowercase(trim(q))),
    ensures
        search_target(g, q) is Some,
        !g.name_map().dom().contains(lowercase(lowercase(trim(q)))) ==> (search_target(g, q) matches Some(j)
            && j <= w && holds_run(lowercase(g.nodes@[j as int].name@), lowercase(trim(q))) && forall|m: int|
            0 <= m < j ==> !holds_run(lowercase(#[trigger] g.nodes@[m].name@), lowercase(trim(q)))),
{
    lemma_first_holding_from(g, lowercase(trim(q)), 0, w);
}

/// `n` occurs in `h` at position `i`.
fn run_at(h: &Vec<char>, n: &Vec<char>, i: usize) -> (r: bool)
    requires
        i + n.len() <= h.len(),
    ensures
        r == (h@.subrange(i as int, i + n.len()) == n@),
{
    let mut k = 0usize;
    while k < n.len()
        invariant
            k <= n.len(),
            i + n.len() <= h.len(),
            forall|m: int| 0 <= m < k ==> h@[i + m] == n@[m],
        decreases n.len() - k,
    {
        if h[i + k] != n[k] {
            assert(h@.subrange(i as int, i + n.len())[k as int] != n@[k as int]);
            return false;
        }
        k = k + 1;
    }
    assert(h@.subrange(i as int, i + n.len()) =~= n@);
    true
}

/// Whether `h` holds `n` as a contiguous run.
fn has_run(h: &Vec<char>, n: &Vec<char>) -> (r: bool)
    ensures
        r == holds_run(h@, n@),
{
    if n.len() > h.len() {
        return false;
    }
    let last = h.len() - n.len();
    let mut i = 0usize;
    loop
        invariant
            last == h.len() - n.len(),
            i <= last,
            forall|j: int| 0 <= j < i ==> #[trigger] h@.subrange(j, j + n.len()) != n@,
        decreases last - i,
    {
        if run_at(h, n, i) {
            return true;
        }
        if i == last {
            return false;
        }
        i = i + 1;
    }
}

/// The form a search query is matched in: trimmed and lower-cased.
pub fn search_key(query: &str) -> (out: String)
    ensures
        out@ == lowercase(trim(query@)),
{
    let qc = chars_of(query);
    let (a, b) = trim_bounds(&qc, 0, qc.len());
    assert(qc@.subrange(0, qc.len() as int) =~= query@);
    let trimmed = string_of(copy_range(&qc, a, b).as_slice());
    to_lowercase(trimmed.as_str())
}

/// Whether a word is marked as matching the search key `key` (see
/// `search_key`): the key is not empty and the lower-cased name holds it.
pub fn name_holds(name: &str, key: &str) -> (r: bool)
    ensures
        r == (key@.len() > 0 && holds_run(lowercase(name@), key@)),
{
    let kc = chars_of(key);
    if kc.len() == 0 {
        return false;
    }
    let lower = to_lowercase(name);
    let nc = chars_of(lower.as_str());
    has_run(&nc, &kc)
}

/// The word a search for `query` lands on.
pub fn search_hit(g: &Graph, query: &str) -> (r: Option<u32>)
    requires
        graph_wf(*g),
    ensures
        r == search_target(*g, query@),
{
    let qc = chars_of(query);
    let (a, b) = trim_bounds(&qc, 0, qc.len());
    assert(qc@.subrange(0, qc.len() as int) =~= query@);
    let trimmed = string_of(copy_range(&qc, a, b).as_slice());
    let key = to_lowercase(trimmed.as_str());
    let kc = chars_of(key.as_str());
    assert(key@ == lowercase(trim(query@)));
    if kc.len() == 0 {
        return None;
    }
    match g.find(key.as_str()) {
        Some(id) => {
            return Some(id);
        },
        None => {},
    }
    let mut i = 0usize;
    while i < g.nodes.len()
        invariant
            i <= g.nodes.len() < u32::MAX,
            kc@ == key@,
            search_target(*g, query@) == first_holding(*g, key@, 0),
            first_holding(*g, key@, 0) == first_holding(*g, key@, i as int),
        decreases g.nodes.len() - i,
    {
        let name = to_lowercase(g.nodes[i].name.as_str());
        let nc = chars_of(name.as_str());
        assert(nc@ == lowercase(g.nodes@[i as int].name@));
        if has_run(&nc, &kc) {
            assert(first_holding(*g, key@, i as int) == Some(i as u32));
            return Some(i as u32);
        }
        assert(first_holding(*g, key@, i as int) == first_holding(*g, key@, i + 1));
        i = i + 1;
    }
    None
}

// ------------------------------------------------------------------ small rules

/// The week range shown at start: the last four weeks of `n_weeks`.
pub fn initial_week_range(n_weeks: usize) -> (r: (usize, usize))
    ensures
        r == recent_range(n_weeks as int),
{
    let last = n_weeks.saturating_sub(1);
    (last.saturating_sub(3), last)
}

/// The last `span` weeks of `n_weeks` (the quick-pick buttons).
pub fn last_weeks(n_weeks: usize, span: usize) -> (r: (usize, usize))
    requires
        n_weeks > 0,
        span >= 1,
    ensures
        r.1 == n_weeks - 1,
        r.0 == (if n_weeks >= span {
            n_weeks - span
        } else {
            0
        }),
{
    let max = n_weeks - 1;
    (max.saturating_sub(span - 1), max)
}

/// After a slider moves, the range's start never passes its end: a start
/// beyond the end pulls the end along.
pub fn keep_ordered(lo: usize, hi: usize) -> (r: (usize, usize))
    ensures
        r == (if lo > hi {
            (lo, lo)
        } else {
            (lo, hi)
        }),
{
    if lo > hi {
        (lo, lo)
    } else {
        (lo, hi)
    }
}

/// How many colours the word clusters cycle through.
pub const CLUSTER_COLORS: usize = 6;

/// Which cluster colour a component gets.
pub fn cluster_slot(component: u32) -> (r: usize)
    ensures
        r == component as int % CLUSTER_COLORS as int,
        r < CLUSTER_COLORS,
{
    component as usize % CLUSTER_COLORS
}

// ------------------------------------------------------------------ laws

/// In sorted weeks that hold `t`, the week standing for `t` is `t` itself.
proof fn lemma_nearest_present(v: Seq<Week>, t: Week, x: int)
    requires
        key_sorted(v),
        0 <= x < v.len(),
        v[x] == t,
    ensures
        nearest_week(v, t) == x,
{
    assert(splits_at(v, t, x)) by {
        assert forall|i: int| 0 <= i < x implies (#[trigger] v[i]).key() < t.key() by {
            assert(v[i].key() < v[x].key());
        }
        assert forall|i: int| x <= i < v.len() implies t.key() <= (#[trigger] v[i]).key() by {
            if i > x {
                assert(v[x].key() < v[i].key());
            }
        }
    }
    let p = insertion_point(v, t);
    lemma_split_unique(v, t, p, x);
}

/// A reload keeps the selected weeks: when both ends of the old range are
/// still among the new weeks, the new range starts and ends at the same
/// weeks.
pub proof fn lemma_remap_keeps_weeks(old_weeks: Seq<Week>, lo: int, hi: int, new_weeks: Seq<Week>)
    requires
        key_sorted(old_weeks),
        key_sorted(new_weeks),
        0 <= lo <= hi < old_weeks.len(),
        new_weeks.len() <= usize::MAX,
        new_weeks.contains(old_weeks[lo]),
        new_weeks.contains(old_weeks[hi]),
    ensures
        ({
            let r = remapped(old_weeks, lo, hi, new_weeks);
            new_weeks[r.0 as int] == old_weeks[lo] && new_weeks[r.1 as int] == old_weeks[hi]
        }),
{
    let a = choose|x: int| 0 <= x < new_weeks.len() && new_weeks[x] == old_weeks[lo];
    let b = choose|x: int| 0 <= x < new_weeks.len() && new_weeks[x] == old_weeks[hi];
    lemma_nearest_present(new_weeks, old_weeks[lo], a);
    lemma_nearest_present(new_weeks, old_weeks[hi], b);
    if lo < hi {
        assert(old_weeks[lo].key() < old_weeks[hi].key());
        if b < a {
            assert(new_weeks[b].key() < new_weeks[a].key());
        }
    }
}

/// Following more links never drops a word: everything reached within `d`
/// links is reached within `e >= d` links.
pub proof fn lemma_more_hops_reach_more(g: Graph, s: Scope, e: usize)
    requires
        s.hops <= e,
    ensures
        reached(g, s).subset_of(reached(g, Scope { hops: e, ..s })),
{
    lemma_reach_grows(g.adjacency(), seeds(g, s), s.hops as nat, e as nat);
    assert(seeds(g, Scope { hops: e, ..s }) == seeds(g, s));
}

/// While isolated words are hidden, a word without any link is never shown.
pub proof fn lemma_unlinked_hidden(g: Graph, s: Scope, v: int)
    requires
        s.hide_isolated,
        0 <= v < g.nodes.len(),
        g.nodes@[v].neighbors.len() == 0,
    ensures
        !shown(g, s, v),
{
}

} // verus!
