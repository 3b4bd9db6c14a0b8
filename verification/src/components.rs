//! Connected components of an undirected graph given by neighbour lists,
//! numbered by size (largest first).
use vstd::prelude::*;
use vstd::relations::injective_on;
use vstd::set_lib::{lemma_int_range, lemma_len_subset, lemma_map_size, lemma_subset_equality, set_int_range};

verus! {

/// Neighbour lists of an undirected graph on nodes `0..adj.len()`.
pub open spec fn adj_wf(adj: Seq<Seq<u32>>) -> bool {
    &&& adj.len() <= u32::MAX
    &&& forall|u: int, k: int|
        0 <= u < adj.len() && 0 <= k < adj[u].len() ==> (#[trigger] adj[u][k]) < adj.len()
    &&& forall|u: u32, v: u32|
        u < adj.len() && v < adj.len() ==> (#[trigger] adj[u as int].contains(v)
            <==> #[trigger] adj[v as int].contains(u))
}

/// `p` is a walk: consecutive nodes are neighbours.
pub open spec fn is_walk(adj: Seq<Seq<u32>>, p: Seq<u32>) -> bool {
    &&& p.len() >= 1
    &&& forall|i: int| 0 <= i < p.len() ==> (#[trigger] p[i]) < adj.len()
    &&& forall|i: int| 0 <= i < p.len() - 1 ==> adj[p[i] as int].contains(#[trigger] p[i + 1])
}

/// `u` and `v` are joined by a walk.
pub open spec fn connected(adj: Seq<Seq<u32>>, u: int, v: int) -> bool {
    exists|p: Seq<u32>| is_walk(adj, p) && p[0] == u && p.last() == v
}

pub proof fn lemma_connected_refl(adj: Seq<Seq<u32>>, u: int)
    requires
        0 <= u < adj.len(),
        adj.len() <= u32::MAX,
    ensures
        connected(adj, u, u),
{
    let p = seq![u as u32];
    assert(is_walk(adj, p));
    assert(p[0] == u && p.last() == u);
}

pub proof fn lemma_connected_step(adj: Seq<Seq<u32>>, u: int, v: int, w: int)
    requires
        adj_wf(adj),
        connected(adj, u, v),
        0 <= v < adj.len(),
        adj[v].contains(w as u32),
        0 <= w < adj.len(),
    ensures
        connected(adj, u, w),
{
    let p = choose|p: Seq<u32>| is_walk(adj, p) && p[0] == u && p.last() == v;
    let q = p.push(w as u32);
    assert(is_walk(adj, q)) by {
        assert forall|i: int| 0 <= i < q.len() - 1 implies adj[q[i] as int].contains(
            #[trigger] q[i + 1],
        ) by {
            if i < p.len() - 1 {
                assert(q[i] == p[i] && q[i + 1] == p[i + 1]);
            }
        }
    }
    assert(q[0] == u && q.last() == w);
}

pub proof fn lemma_connected_symm(adj: Seq<Seq<u32>>, u: int, v: int)
    requires
        adj_wf(adj),
        connected(adj, u, v),
    ensures
        connected(adj, v, u),
{
    let p = choose|p: Seq<u32>| is_walk(adj, p) && p[0] == u && p.last() == v;
    let q = p.reverse();
    assert(is_walk(adj, q)) by {
        assert forall|i: int| 0 <= i < q.len() - 1 implies adj[q[i] as int].contains(
            #[trigger] q[i + 1],
        ) by {
            let a = p[p.len() - 1 - i];
            let b = p[p.len() - 2 - i];
            assert(q[i] == a && q[i + 1] == b);
            assert(adj[b as int].contains(p[p.len() - 2 - i + 1]));
            assert(adj[b as int].contains(a));
        }
    }
    assert(q[0] == v && q.last() == u);
}

pub proof fn lemma_connected_trans(adj: Seq<Seq<u32>>, u: int, v: int, w: int)
    requires
        adj_wf(adj),
        connected(adj, u, v),
        connected(adj, v, w),
    ensures
        connected(adj, u, w),
{
    let p = choose|p: Seq<u32>| is_walk(adj, p) && p[0] == u && p.last() == v;
    let r = choose|r: Seq<u32>| is_walk(adj, r) && r[0] == v && r.last() == w;
    let q = p + r.drop_first();
    assert(is_walk(adj, q)) by {
        assert forall|i: int| 0 <= i < q.len() implies (#[trigger] q[i]) < adj.len() by {
            if i >= p.len() {
                assert(q[i] == r[i - p.len() + 1]);
            }
        }
        assert forall|i: int| 0 <= i < q.len() - 1 implies adj[q[i] as int].contains(
            #[trigger] q[i + 1],
        ) by {
            if i < p.len() - 1 {
                assert(q[i] == p[i] && q[i + 1] == p[i + 1]);
            } else if i == p.len() - 1 {
                assert(q[i] == r[0]);
                assert(q[i + 1] == r[1]);
            } else {
                assert(q[i] == r[i - p.len() + 1]);
                assert(q[i + 1] == r[i - p.len() + 2]);
            }
        }
    }
    if r.len() == 1 {
        assert(q =~= p);
    } else {
        assert(q.last() == r.last());
    }
}

/// Labels are closed: every labelled node's neighbours carry its label.
pub open spec fn closed_labels(adj: Seq<Seq<u32>>, lab: Seq<u32>, unset: u32) -> bool {
    forall|u: int, k: int|
        0 <= u < adj.len() && lab[u] != unset && 0 <= k < adj[u].len() ==> lab[(
        #[trigger] adj[u][k]) as int] == lab[u]
}

/// Along a walk through closed labels, the label does not change.
pub proof fn lemma_closed_walk(adj: Seq<Seq<u32>>, lab: Seq<u32>, unset: u32, p: Seq<u32>)
    requires
        lab.len() == adj.len(),
        is_walk(adj, p),
        closed_labels(adj, lab, unset),
        lab[p[0] as int] != unset,
    ensures
        lab[p.last() as int] == lab[p[0] as int],
    decreases p.len(),
{
    if p.len() > 1 {
        let q = p.drop_last();
        assert(is_walk(adj, q)) by {
            assert forall|i: int| 0 <= i < q.len() - 1 implies adj[q[i] as int].contains(
                #[trigger] q[i + 1],
            ) by {
                assert(q[i] == p[i] && q[i + 1] == p[i + 1]);
            }
        }
        lemma_closed_walk(adj, lab, unset, q);
        let a = p[p.len() - 2];
        assert(adj[a as int].contains(p[p.len() - 2 + 1]));
        let k = choose|k: int| 0 <= k < adj[a as int].len() && adj[a as int][k] == p.last();
        assert(lab[adj[a as int][k] as int] == lab[a as int]);
    }
}

/// Number of entries of `lab[..i]` equal to `x`.
pub open spec fn count_eq(lab: Seq<u32>, x: u32, i: int) -> nat
    decreases i,
{
    if i <= 0 {
        0
    } else {
        count_eq(lab, x, i - 1) + if lab[i - 1] == x {
            1nat
        } else {
            0nat
        }
    }
}

proof fn lemma_count_update(lab: Seq<u32>, x: u32, j: int, v: u32, i: int)
    requires
        0 <= j < lab.len(),
        0 <= i <= lab.len(),
        lab[j] == x,
        v != x,
    ensures
        count_eq(lab.update(j, v), x, i) + (if j < i {
            1nat
        } else {
            0nat
        }) == count_eq(lab, x, i),
    decreases i,
{
    if i > 0 {
        lemma_count_update(lab, x, j, v, i - 1);
    }
}

proof fn lemma_count_le(lab: Seq<u32>, x: u32, i: int)
    requires
        0 <= i <= lab.len(),
    ensures
        count_eq(lab, x, i) <= i,
    decreases i,
{
    if i > 0 {
        lemma_count_le(lab, x, i - 1);
    }
}

/// `grp` lists, once each, exactly the nodes labelled `j`, starting at `s`.
pub open spec fn group_of(grp: Seq<u32>, lab: Seq<u32>, j: int, s: u32) -> bool {
    &&& grp.no_duplicates()
    &&& grp.len() > 0
    &&& grp[0] == s
    &&& forall|u: u32| #[trigger] grp.contains(u) <==> (u < lab.len() && lab[u as int] == j)
}

/// Relabelling a node that is not labelled `j`, to something other than `j`,
/// keeps the group of `j`.
proof fn lemma_group_relabel(grp: Seq<u32>, lab: Seq<u32>, j: int, s: u32, x: int, v: u32)
    requires
        group_of(grp, lab, j, s),
        0 <= x < lab.len(),
        lab[x] != j,
        v != j,
    ensures
        group_of(grp, lab.update(x, v), j, s),
{
    let lab2 = lab.update(x, v);
    assert forall|u: u32| #[trigger] grp.contains(u) <==> (u < lab2.len() && lab2[u as int] == j) by {
        if u < lab.len() && u as int != x {
            assert(lab2[u as int] == lab[u as int]);
        }
    }
}

/// The nodes labelled `id`.
pub open spec fn marked_set(lab: Seq<u32>, id: u32) -> Set<u32> {
    Set::new(|u: u32| u < lab.len() && lab[u as int] == id)
}

/// One node's neighbours `nbs` looked at in order: each not yet `marked` is
/// marked and pushed on the `stack`.
pub open spec fn push_unmarked(nbs: Seq<u32>, marked: Set<u32>, stack: Seq<u32>) -> (Set<u32>, Seq<u32>)
    decreases nbs.len(),
{
    if nbs.len() == 0 {
        (marked, stack)
    } else if marked.contains(nbs[0]) {
        push_unmarked(nbs.drop_first(), marked, stack)
    } else {
        push_unmarked(nbs.drop_first(), marked.insert(nbs[0]), stack.push(nbs[0]))
    }
}

/// A depth-first walk, at most `fuel` steps: take the node on top of the
/// stack, list it, and push its unmarked neighbours; done when the stack is
/// empty. The result is the nodes listed.
pub open spec fn dfs_run(g: Seq<Seq<u32>>, marked: Set<u32>, stack: Seq<u32>, listed: Seq<u32>, fuel: nat) -> Seq<u32>
    decreases fuel,
{
    if fuel == 0 || stack.len() == 0 {
        listed
    } else {
        let cur = stack.last();
        let next = push_unmarked(g[cur as int], marked, stack.drop_last());
        dfs_run(g, next.0, next.1, listed.push(cur), (fuel - 1) as nat)
    }
}

/// The nodes of `start`'s component in depth-first order from `start`:
/// each node's unmarked neighbours are pushed in list order, and the last
/// pushed is visited first.
pub open spec fn dfs_order(g: Seq<Seq<u32>>, start: int) -> Seq<u32> {
    dfs_run(g, set![start as u32], seq![start as u32], seq![], (g.len() + 1) as nat)
}

/// Labels every node with the number of its component, numbered in the
/// order of their smallest nodes. Returns the labels, how many there are,
/// the smallest node of each, and the nodes of each in depth-first order
/// (the smallest first).
fn label_components(adj: &Vec<Vec<u32>>) -> (out: (Vec<u32>, u32, Vec<u32>, Vec<Vec<u32>>))
    requires
        adj_wf(adj@.map_values(|e: Vec<u32>| e@)),
        adj.len() < u32::MAX,
    ensures
        ({
            let g = adj@.map_values(|e: Vec<u32>| e@);
            let (lab, count, starts, groups) = (out.0@, out.1, out.2@, out.3@);
            &&& lab.len() == adj.len()
            &&& groups.len() == count
            &&& forall|j: int| 0 <= j < count ==> group_of(#[trigger] groups[j]@, lab, j, starts[j])
            &&& forall|j: int| 0 <= j < count ==> #[trigger] groups[j]@ == dfs_order(g, starts[j] as int)
            &&& starts.len() == count
            &&& closed_labels(g, lab, u32::MAX)
            &&& forall|u: int| 0 <= u < lab.len() ==> #[trigger] lab[u] < count
            &&& forall|u: int| 0 <= u < lab.len() ==> connected(g, starts[#[trigger] lab[u] as int] as int, u)
            &&& forall|u: int| 0 <= u < lab.len() ==> starts[#[trigger] lab[u] as int] <= u
            &&& forall|j: int| 0 <= j < count ==> (#[trigger] starts[j]) < lab.len() && lab[starts[j] as int] == j
            &&& forall|a: int, b: int| 0 <= a < b < count ==> #[trigger] starts[a] < #[trigger] starts[b]
        }),
{
    let ghost g = adj@.map_values(|e: Vec<u32>| e@);
    let n = adj.len();
    let unset = u32::MAX;
    let mut lab: Vec<u32> = vec![unset; n];
    let mut next: u32 = 0;
    let ghost mut starts: Seq<u32> = seq![];
    let mut st: Vec<u32> = Vec::new();
    let mut groups: Vec<Vec<u32>> = Vec::new();
    let mut stack: Vec<u32> = Vec::new();
    let mut start = 0usize;
    while start < n
        invariant
            g == adj@.map_values(|e: Vec<u32>| e@),
            unset == u32::MAX,
            adj_wf(g),
            n == adj.len() < u32::MAX,
            start <= n,
            lab.len() == n,
            next as int == starts.len(),
            st@ == starts,
            groups.len() == next,
            forall|j: int| 0 <= j < next ==> group_of(#[trigger] groups@[j]@, lab@, j, starts[j]),
            forall|j: int| 0 <= j < next ==> #[trigger] groups@[j]@ == dfs_order(g, starts[j] as int),
            next <= start,
            stack.len() == 0,
            closed_labels(g, lab@, unset),
            forall|u: int| 0 <= u < n ==> (#[trigger] lab@[u] == unset || lab@[u] < next),
            forall|u: int| 0 <= u < start ==> #[trigger] lab@[u] != unset,
            forall|u: int| 0 <= u < n && #[trigger] lab@[u] != unset ==> connected(g, starts[lab@[u] as int] as int, u),
            forall|u: int| 0 <= u < n && #[trigger] lab@[u] != unset ==> starts[lab@[u] as int] <= u,
            forall|j: int| 0 <= j < next ==> (#[trigger] starts[j]) < start && lab@[starts[j] as int] == j,
            forall|a: int, b: int| 0 <= a < b < next ==> #[trigger] starts[a] < #[trigger] starts[b],
        decreases n - start,
    {
        if lab[start] != unset {
            start = start + 1;
            continue;
        }
        let id = next;
        next = next + 1;
        proof {
            starts = starts.push(start as u32);
            lemma_connected_refl(g, start as int);
        }
        st.push(start as u32);
        let ghost before_set = lab@;
        lab.set(start, id);
        stack.push(start as u32);
        let mut members: Vec<u32> = Vec::new();
        proof {
            assert(lab@ == before_set.update(start as int, id));
            assert(marked_set(lab@, id) =~= set![start as u32]) by {
                assert forall|u: u32| marked_set(lab@, id).contains(u) implies u == start as u32 by {
                    if u as int != start as int {
                        assert(lab@[u as int] == before_set[u as int]);
                    }
                }
            }
            assert(stack@ =~= seq![start as u32]);
            assert(members@ =~= Seq::<u32>::empty());
            lemma_count_le(lab@, unset, n as int);
            assert forall|j: int| 0 <= j < id implies group_of(#[trigger] groups@[j]@, lab@, j, starts[j]) by {
                lemma_group_relabel(groups@[j]@, before_set, j, starts[j], start as int, id);
            }
            assert forall|u: u32| #[trigger] members@.contains(u) <==> (u < n && lab@[u as int] == id
                && !stack@.contains(u)) by {
                if u < n && lab@[u as int] == id {
                    if u as int != start as int {
                        assert(before_set[u as int] == id);
                    }
                    assert(stack@[0] == u);
                }
            }
            assert(lab@[start as int] == id);
            assert forall|u: int| 0 <= u <= start implies #[trigger] lab@[u] != unset by {
                if u < start {
                    assert(before_set[u] != unset);
                    assert(lab@[u] == before_set[u]);
                } else {
                    assert(u == start);
                    assert(id < unset);
                    assert(lab@[u] == id);
                }
            }
            assert forall|u: int, k: int|
                0 <= u < n && lab@[u] != unset && !stack@.contains(u as u32) && 0 <= k < g[u].len()
                    implies lab@[(#[trigger] g[u][k]) as int] == lab@[u] by {
                if u != start {
                    assert(before_set[u] != unset);
                    assert(before_set[g[u][k] as int] == before_set[u]);
                    if g[u][k] == start {
                        assert(false);
                    }
                } else {
                    assert(stack@[0] == start as u32);
                }
            }
        }
        while stack.len() > 0
            invariant
                g == adj@.map_values(|e: Vec<u32>| e@),
                unset == u32::MAX,
                adj_wf(g),
                n == adj.len() < u32::MAX,
                start < n,
                lab.len() == n,
                next as int == starts.len(),
                st@ == starts,
                id + 1 == next,
                next <= start + 1,
                starts[id as int] == start,
                groups.len() == id,
                forall|j: int| 0 <= j < id ==> group_of(#[trigger] groups@[j]@, lab@, j, starts[j]),
                members@.no_duplicates(),
                forall|u: u32| #[trigger] members@.contains(u) <==> (u < n && lab@[u as int] == id
                    && !stack@.contains(u)),
                (members.len() == 0 && stack@ == seq![start as u32]) || (members.len() > 0
                    && members@[0] == start),
                forall|j: int| 0 <= j < id ==> #[trigger] groups@[j]@ == dfs_order(g, starts[j] as int),
                dfs_run(g, marked_set(lab@, id), stack@, members@, (n + 1 - members.len()) as nat)
                    == dfs_order(g, start as int),
                members.len() + stack.len() + count_eq(lab@, unset, n as int) <= n + 1,
                stack@.no_duplicates(),
                forall|k: int| 0 <= k < stack.len() ==> (#[trigger] stack@[k]) < n && lab@[stack@[k] as int] == id,
                forall|u: int, k: int|
                    0 <= u < n && lab@[u] != unset && !stack@.contains(u as u32) && 0 <= k < g[u].len()
                        ==> lab@[(#[trigger] g[u][k]) as int] == lab@[u],
                forall|u: int| 0 <= u < n ==> (#[trigger] lab@[u] == unset || lab@[u] < next),
                forall|u: int| 0 <= u <= start ==> #[trigger] lab@[u] != unset,
                forall|u: int| 0 <= u < n && #[trigger] lab@[u] != unset ==> connected(g, starts[lab@[u] as int] as int, u),
                forall|u: int| 0 <= u < n && #[trigger] lab@[u] != unset ==> starts[lab@[u] as int] <= u,
                forall|j: int| 0 <= j < next ==> (#[trigger] starts[j]) <= start && lab@[starts[j] as int] == j,
                forall|a: int, b: int| 0 <= a < b < next ==> #[trigger] starts[a] < #[trigger] starts[b],
            decreases 2 * count_eq(lab@, unset, n as int) + stack.len(),
        {
            let ghost m0 = 2 * count_eq(lab@, unset, n as int) + stack.len();
            let ghost sb = stack@;
            let ghost mb = members@;
            let cur = stack.pop().unwrap();
            members.push(cur);
            let ghost m_start = marked_set(lab@, id);
            let ghost s_start = stack@;
            proof {
                assert(s_start =~= sb.drop_last());
                assert(dfs_run(g, m_start, sb, mb, (n + 1 - mb.len()) as nat) == dfs_run(
                    g,
                    push_unmarked(g[cur as int], m_start, s_start).0,
                    push_unmarked(g[cur as int], m_start, s_start).1,
                    members@,
                    (n + 1 - members.len()) as nat,
                ));
                assert(g[cur as int].skip(0) =~= g[cur as int]);
                assert(members@ == mb.push(cur));
                assert(sb.contains(cur)) by {
                    assert(sb[sb.len() - 1] == cur);
                }
                assert(!mb.contains(cur));
                assert(members@.no_duplicates()) by {
                    assert forall|a: int, b: int| 0 <= a < b < members.len() implies members@[a]
                        != members@[b] by {
                        if b == members.len() - 1 {
                            assert(mb.contains(mb[a]));
                        } else {
                            assert(members@[a] == mb[a] && members@[b] == mb[b]);
                        }
                    }
                }
                if mb.len() == 0 {
                    assert(cur == start);
                } else {
                    assert(members@[0] == mb[0]);
                }
                assert(stack@ =~= sb.drop_last());
                assert(cur == sb[sb.len() - 1]);
                assert forall|u: int, m: int|
                    0 <= u < n && u != cur && lab@[u] != unset && !stack@.contains(u as u32) && 0 <= m < g[u].len()
                        implies lab@[(#[trigger] g[u][m]) as int] == lab@[u] by {
                    assert(!sb.contains(u as u32)) by {
                        if sb.contains(u as u32) {
                            let x = choose|x: int| 0 <= x < sb.len() && sb[x] == u as u32;
                            if x < sb.len() - 1 {
                                assert(stack@[x] == u as u32);
                            }
                        }
                    }
                }
                assert(stack@.no_duplicates()) by {
                    assert forall|a: int, b: int| 0 <= a < b < stack.len() implies stack@[a] != stack@[b] by {
                        assert(stack@[a] == sb[a] && stack@[b] == sb[b]);
                    }
                }
                assert(!stack@.contains(cur)) by {
                    if stack@.contains(cur) {
                        let x = choose|x: int| 0 <= x < stack.len() && stack@[x] == cur;
                        assert(sb[x] == sb[sb.len() - 1]);
                    }
                }
                assert forall|u: u32| #[trigger] members@.contains(u) <==> (u < n && lab@[u as int] == id
                    && !stack@.contains(u)) by {
                    if u != cur {
                        assert(members@.contains(u) <==> mb.contains(u)) by {
                            if members@.contains(u) {
                                let x = choose|x: int| 0 <= x < members.len() && members@[x] == u;
                                assert(mb[x] == u);
                            }
                            if mb.contains(u) {
                                let x = choose|x: int| 0 <= x < mb.len() && mb[x] == u;
                                assert(members@[x] == u);
                            }
                        }
                        assert(stack@.contains(u) <==> sb.contains(u)) by {
                            if stack@.contains(u) {
                                let x = choose|x: int| 0 <= x < stack.len() && stack@[x] == u;
                                assert(sb[x] == u);
                            }
                            if sb.contains(u) {
                                let x = choose|x: int| 0 <= x < sb.len() && sb[x] == u;
                                assert(stack@[x] == u);
                            }
                        }
                    } else {
                        assert(members@[members.len() - 1] == cur);
                    }
                }
            }
            let nb_list = &adj[cur as usize];
            let mut k = 0usize;
            while k < nb_list.len()
                invariant
                    g == adj@.map_values(|e: Vec<u32>| e@),
                    unset == u32::MAX,
                    adj_wf(g),
                    n == adj.len() < u32::MAX,
                    start < n,
                    lab.len() == n,
                    next as int == starts.len(),
                    st@ == starts,
                    id + 1 == next,
                    starts[id as int] == start,
                    cur < n,
                    lab@[cur as int] == id,
                    nb_list == &adj@[cur as int],
                    k <= nb_list.len(),
                    groups.len() == id,
                    forall|j: int| 0 <= j < id ==> group_of(#[trigger] groups@[j]@, lab@, j, starts[j]),
                    members@.no_duplicates(),
                    forall|u: u32| #[trigger] members@.contains(u) <==> (u < n && lab@[u as int] == id
                        && !stack@.contains(u)),
                    members.len() > 0 && members@[0] == start,
                    forall|j: int| 0 <= j < id ==> #[trigger] groups@[j]@ == dfs_order(g, starts[j] as int),
                    push_unmarked(g[cur as int].skip(k as int), marked_set(lab@, id), stack@)
                        == push_unmarked(g[cur as int], m_start, s_start),
                    dfs_run(
                        g,
                        push_unmarked(g[cur as int], m_start, s_start).0,
                        push_unmarked(g[cur as int], m_start, s_start).1,
                        members@,
                        (n + 1 - members.len()) as nat,
                    ) == dfs_order(g, start as int),
                    members.len() + stack.len() + count_eq(lab@, unset, n as int) <= n + 1,
                    stack@.no_duplicates(),
                    !stack@.contains(cur),
                    2 * count_eq(lab@, unset, n as int) + stack.len() < m0,
                    forall|m: int| 0 <= m < stack.len() ==> (#[trigger] stack@[m]) < n && lab@[stack@[m] as int] == id,
                    forall|m: int| 0 <= m < k ==> lab@[(#[trigger] g[cur as int][m]) as int] == id,
                    forall|u: int, m: int|
                        0 <= u < n && u != cur && lab@[u] != unset && !stack@.contains(u as u32) && 0 <= m < g[u].len()
                            ==> lab@[(#[trigger] g[u][m]) as int] == lab@[u],
                    forall|u: int| 0 <= u < n ==> (#[trigger] lab@[u] == unset || lab@[u] < next),
                    forall|u: int| 0 <= u <= start ==> #[trigger] lab@[u] != unset,
                    forall|u: int| 0 <= u < n && #[trigger] lab@[u] != unset ==> connected(g, starts[lab@[u] as int] as int, u),
                    forall|u: int| 0 <= u < n && #[trigger] lab@[u] != unset ==> starts[lab@[u] as int] <= u,
                    forall|j: int| 0 <= j < next ==> (#[trigger] starts[j]) <= start && lab@[starts[j] as int] == j,
                    forall|a: int, b: int| 0 <= a < b < next ==> #[trigger] starts[a] < #[trigger] starts[b],
                decreases nb_list.len() - k,
            {
                let nb = nb_list[k];
                assert(nb == g[cur as int][k as int]);
                let ghost lab_before = lab@;
                let ghost stack_before = stack@;
                if lab[nb as usize] == unset {
                    proof {
                        lemma_connected_step(g, start as int, cur as int, nb as int);
                        lemma_count_update(lab@, unset, nb as int, id, n as int);
                    }
                    lab.set(nb as usize, id);
                    stack.push(nb);
                    proof {
                        assert(stack@ =~= stack_before.push(nb));
                        assert(lab@ == lab_before.update(nb as int, id));
                        assert forall|j: int| 0 <= j < id implies group_of(#[trigger] groups@[j]@, lab@, j, starts[j]) by {
                            lemma_group_relabel(groups@[j]@, lab_before, j, starts[j], nb as int, id);
                        }
                        assert forall|u: u32| #[trigger] members@.contains(u) <==> (u < n && lab@[u as int] == id
                            && !stack@.contains(u)) by {
                            if u != nb {
                                assert(lab@[u as int] == lab_before[u as int] || u >= n);
                                assert(stack@.contains(u) <==> stack_before.contains(u)) by {
                                    if stack@.contains(u) {
                                        let x = choose|x: int| 0 <= x < stack.len() && stack@[x] == u;
                                        assert(stack_before[x] == u);
                                    }
                                    if stack_before.contains(u) {
                                        let x = choose|x: int| 0 <= x < stack_before.len() && stack_before[x] == u;
                                        assert(stack@[x] == u);
                                    }
                                }
                            } else {
                                assert(stack@[stack.len() - 1] == nb);
                            }
                        }
                        assert(stack@.no_duplicates()) by {
                            assert forall|a: int, b: int| 0 <= a < b < stack.len() implies stack@[a] != stack@[b] by {
                                if b == stack.len() - 1 {
                                    assert(lab_before[stack_before[a] as int] == id);
                                }
                            }
                        }
                        assert forall|u: int, m: int|
                            0 <= u < n && u != cur && lab@[u] != unset && !stack@.contains(u as u32) && 0 <= m < g[u].len()
                                implies lab@[(#[trigger] g[u][m]) as int] == lab@[u] by {
                            assert(u != nb) by {
                                if u == nb {
                                    assert(stack@[stack.len() - 1] == nb);
                                }
                            }
                            assert(!stack_before.contains(u as u32)) by {
                                if stack_before.contains(u as u32) {
                                    let x = choose|x: int| 0 <= x < stack_before.len() && stack_before[x] == u as u32;
                                    assert(stack@[x] == u as u32);
                                }
                            }
                            assert(lab_before[g[u][m] as int] == lab_before[u]);
                            if g[u][m] == nb {
                                assert(false);
                            }
                        }
                    }
                } else if lab[nb as usize] != id {
                    proof {
                        // nb belongs to an earlier, closed component: cur would carry its label
                        let j = lab@[nb as int];
                        assert(g[cur as int].contains(nb));
                        assert(g[nb as int].contains(cur));
                        let m = choose|m: int| 0 <= m < g[nb as int].len() && g[nb as int][m] == cur;
                        assert(!stack@.contains(nb)) by {
                            if stack@.contains(nb) {
                                let x = choose|x: int| 0 <= x < stack.len() && stack@[x] == nb;
                            }
                        }
                        assert(lab@[g[nb as int][m] as int] == lab@[nb as int]);
                    }
                }
                proof {
                    let t = g[cur as int].skip(k as int);
                    assert(t[0] == nb);
                    assert(t.drop_first() =~= g[cur as int].skip(k + 1));
                    if lab_before[nb as int] == unset {
                        assert(marked_set(lab@, id) =~= marked_set(lab_before, id).insert(nb));
                        assert(!marked_set(lab_before, id).contains(nb));
                    } else {
                        assert(marked_set(lab_before, id).contains(nb));
                    }
                }
                k = k + 1;
            }
            proof {
                assert(g[cur as int].skip(k as int) =~= Seq::<u32>::empty());
            }
        }
        let ghost gb = groups@;
        proof {
            assert(stack@ == Seq::<u32>::empty());
            assert forall|u: u32| #[trigger] members@.contains(u) <==> (u < n && lab@[u as int] == id) by {
                assert(!stack@.contains(u));
            }
            assert(group_of(members@, lab@, id as int, starts[id as int]));
        }
        proof {
            assert(members@ == dfs_order(g, start as int));
        }
        groups.push(members);
        proof {
            assert forall|j: int| 0 <= j < next implies group_of(#[trigger] groups@[j]@, lab@, j, starts[j]) by {
                if j < id {
                    assert(groups@[j] == gb[j]);
                }
            }
            assert forall|j: int| 0 <= j < next implies #[trigger] groups@[j]@ == dfs_order(g, starts[j] as int) by {
                if j < id {
                    assert(groups@[j] == gb[j]);
                }
            }
        }
        start = start + 1;
    }
    (lab, next, st, groups)
}

/// Number of `w < i` with `f(w)`.
pub open spec fn count_where(f: spec_fn(int) -> bool, i: int) -> nat
    decreases i,
{
    if i <= 0 {
        0
    } else {
        count_where(f, i - 1) + if f(i - 1) {
            1nat
        } else {
            0nat
        }
    }
}

pub proof fn lemma_count_where_ext(f: spec_fn(int) -> bool, h: spec_fn(int) -> bool, i: int)
    requires
        forall|w: int| 0 <= w < i ==> #[trigger] f(w) == h(w),
    ensures
        count_where(f, i) == count_where(h, i),
    decreases i,
{
    if i > 0 {
        lemma_count_where_ext(f, h, i - 1);
    }
}

pub proof fn lemma_count_where_le(f: spec_fn(int) -> bool, i: int)
    requires
        0 <= i,
    ensures
        count_where(f, i) <= i,
    decreases i,
{
    if i > 0 {
        lemma_count_where_le(f, i - 1);
    }
}

/// Number of nodes joined to `u` (itself included).
pub open spec fn comp_size(g: Seq<Seq<u32>>, u: int) -> nat {
    count_where(|w: int| connected(g, u, w), g.len() as int)
}

/// The smallest node at or after `i` joined to `u`, or `g.len()`.
pub open spec fn leader_from(g: Seq<Seq<u32>>, u: int, i: int) -> int
    decreases g.len() - i,
{
    if i < 0 || i >= g.len() {
        g.len() as int
    } else if connected(g, u, i) {
        i
    } else {
        leader_from(g, u, i + 1)
    }
}

/// The smallest node of `u`'s component.
pub open spec fn leader(g: Seq<Seq<u32>>, u: int) -> int {
    leader_from(g, u, 0)
}

/// Component order: larger components first, ties by smallest node.
pub open spec fn comes_before(g: Seq<Seq<u32>>, w: int, u: int) -> bool {
    comp_size(g, w) > comp_size(g, u) || (comp_size(g, w) == comp_size(g, u) && leader(g, w)
        < leader(g, u))
}

/// The number of `u`'s component: how many components come before it.
pub open spec fn component_rank(g: Seq<Seq<u32>>, u: int) -> nat {
    count_where(|w: int| leader(g, w) == w && comes_before(g, w, u), g.len() as int)
}

proof fn lemma_leader_from(g: Seq<Seq<u32>>, u: int, i: int, s: int)
    requires
        0 <= i <= s < g.len(),
        connected(g, u, s),
        forall|w: int| i <= w < s ==> !connected(g, u, w),
    ensures
        leader_from(g, u, i) == s,
    decreases s - i,
{
    if i < s {
        lemma_leader_from(g, u, i + 1, s);
    }
}

/// Numbers every node by its connected component: components are ranked by
/// size, largest first, ties broken by their smallest node.
pub fn component_numbers(adj: &Vec<Vec<u32>>) -> (out: Vec<u32>)
    requires
        adj_wf(adj@.map_values(|e: Vec<u32>| e@)),
        adj.len() < u32::MAX,
    ensures
        out.len() == adj.len(),
        forall|u: int| 0 <= u < adj.len() ==> (#[trigger] out@[u]) == component_rank(
            adj@.map_values(|e: Vec<u32>| e@),
            u,
        ),
        forall|u: int, v: int|
            0 <= u < adj.len() && 0 <= v < adj.len() ==> (#[trigger] out@[u] == #[trigger] out@[v]
                <==> connected(adj@.map_values(|e: Vec<u32>| e@), u, v)),
{
    let (out, _lab, _st, _groups) = rank_components(adj);
    out
}

/// The component numbers of `component_numbers`, together with the labels,
/// smallest nodes and member lists of `label_components`.
fn rank_components(adj: &Vec<Vec<u32>>) -> (res: (Vec<u32>, Vec<u32>, Vec<u32>, Vec<Vec<u32>>))
    requires
        adj_wf(adj@.map_values(|e: Vec<u32>| e@)),
        adj.len() < u32::MAX,
    ensures
        ({
            let g = adj@.map_values(|e: Vec<u32>| e@);
            let (out, lab, starts, groups) = (res.0@, res.1@, res.2@, res.3@);
            &&& out.len() == adj.len()
            &&& forall|u: int| 0 <= u < adj.len() ==> (#[trigger] out[u]) == component_rank(g, u)
            &&& forall|u: int, v: int|
                0 <= u < adj.len() && 0 <= v < adj.len() ==> (#[trigger] out[u] == #[trigger] out[v]
                    <==> connected(g, u, v))
            &&& lab.len() == adj.len()
            &&& groups.len() == starts.len()
            &&& forall|u: int| 0 <= u < lab.len() ==> #[trigger] lab[u] < starts.len()
            &&& forall|u: int| 0 <= u < lab.len() ==> starts[#[trigger] lab[u] as int] <= u
            &&& forall|u: int, v: int| 0 <= u < lab.len() && 0 <= v < lab.len() ==> (#[trigger] lab[u]
                == #[trigger] lab[v] <==> connected(g, u, v))
            &&& forall|j: int| 0 <= j < starts.len() ==> (#[trigger] starts[j]) < lab.len() && lab[starts[j] as int] == j
            &&& forall|j: int| 0 <= j < starts.len() ==> group_of(#[trigger] groups[j]@, lab, j, starts[j])
            &&& forall|j: int| 0 <= j < starts.len() ==> #[trigger] groups[j]@ == dfs_order(g, starts[j] as int)
        }),
{
    let ghost g = adj@.map_values(|e: Vec<u32>| e@);
    let n = adj.len();
    let (lab, count, st, groups) = label_components(adj);
    let ghost starts = st@;
    let ghost l = lab@;
    // same label <==> connected
    proof {
        assert forall|u: int, v: int| 0 <= u < n && 0 <= v < n implies (#[trigger] l[u] == #[trigger] l[v]
            <==> connected(g, u, v)) by {
            if l[u] == l[v] {
                let s = starts[l[u] as int] as int;
                assert(connected(g, s, u));
                assert(connected(g, s, v));
                lemma_connected_symm(g, s, u);
                lemma_connected_trans(g, u, s, v);
            }
            if connected(g, u, v) {
                let p = choose|p: Seq<u32>| is_walk(g, p) && p[0] == u && p.last() == v;
                lemma_closed_walk(g, l, u32::MAX, p);
            }
        }
        // leaders are the starts
        assert forall|u: int| 0 <= u < n implies leader(g, u) == starts[#[trigger] l[u] as int] by {
            let s = starts[l[u] as int] as int;
            assert(l[s] == l[u]);
            assert(connected(g, u, s));
            assert forall|w: int| 0 <= w < s implies !connected(g, u, w) by {
                if connected(g, u, w) {
                    assert(l[w] == l[u]);
                    assert(starts[l[w] as int] <= w);
                }
            }
            lemma_leader_from(g, u, 0, s);
        }
    }
    // component sizes
    let mut cnt: Vec<u32> = vec![0u32; count as usize];
    let mut w = 0usize;
    while w < n
        invariant
            w <= n,
            n == lab.len(),
            n < u32::MAX,
            cnt.len() == count,
            l == lab@,
            forall|x: int| 0 <= x < n ==> #[trigger] l[x] < count,
            forall|c: int| 0 <= c < count ==> #[trigger] cnt@[c] == count_eq(l, c as u32, w as int),
        decreases n - w,
    {
        let c = lab[w] as usize;
        proof {
            lemma_count_le(l, l[w as int], w as int);
        }
        cnt.set(c, cnt[c] + 1);
        w = w + 1;
    }
    // rank of each component
    let mut rank: Vec<u32> = Vec::new();
    let mut c = 0u32;
    while c < count
        invariant
            c <= count,
            n == lab.len(),
            n < u32::MAX,
            cnt.len() == count,
            st.len() == count,
            rank.len() == c,
            l == lab@,
            forall|c2: int| 0 <= c2 < count ==> #[trigger] cnt@[c2] == count_eq(l, c2 as u32, n as int),
            forall|x: int| 0 <= x < n ==> #[trigger] l[x] < count,
            forall|k: int| 0 <= k < c ==> #[trigger] rank@[k] == count_where(
                |x: int| st@[l[x] as int] == x && (cnt@[l[x] as int] > cnt@[k] || (cnt@[l[x] as int]
                    == cnt@[k] && l[x] < k)),
                n as int,
            ),
        decreases count - c,
    {
        let ghost f = |x: int| st@[l[x] as int] == x && (cnt@[l[x] as int] > cnt@[c as int] || (
        cnt@[l[x] as int] == cnt@[c as int] && l[x] < c));
        let mut r: u32 = 0;
        let mut x = 0usize;
        while x < n
            invariant
                x <= n,
                n == lab.len(),
                n < u32::MAX,
                c < count,
                cnt.len() == count,
                st.len() == count,
                l == lab@,
                forall|y: int| 0 <= y < n ==> #[trigger] l[y] < count,
                f == (|x: int| st@[l[x] as int] == x && (cnt@[l[x] as int] > cnt@[c as int] || (
                cnt@[l[x] as int] == cnt@[c as int] && l[x] < c))),
                r == count_where(f, x as int),
            decreases n - x,
        {
            proof {
                lemma_count_where_le(f, x as int);
            }
            let lx = lab[x] as usize;
            if st[lx] as usize == x && (cnt[lx] > cnt[c as usize] || (cnt[lx] == cnt[c as usize]
                && (lx as u32) < c)) {
                r = r + 1;
            }
            x = x + 1;
        }
        rank.push(r);
        c = c + 1;
    }
    let mut out: Vec<u32> = Vec::new();
    let mut u = 0usize;
    while u < n
        invariant
            u <= n,
            n == lab.len(),
            out.len() == u,
            rank.len() == count,
            l == lab@,
            forall|c2: int| 0 <= c2 < count ==> #[trigger] cnt@[c2] == count_eq(l, c2 as u32, n as int),
            forall|x: int| 0 <= x < n ==> #[trigger] l[x] < count,
            forall|x: int| 0 <= x < u ==> #[trigger] out@[x] == rank@[l[x] as int],
        decreases n - u,
    {
        out.push(rank[lab[u] as usize]);
        u = u + 1;
    }
    proof {
        assert forall|u: int| 0 <= u < n implies (#[trigger] out@[u]) == component_rank(g, u) by {
            let k = l[u] as int;
            let f = |x: int| st@[l[x] as int] == x && (cnt@[l[x] as int] > cnt@[k] || (cnt@[l[x] as int]
                == cnt@[k] && l[x] < k));
            let h = |w: int| leader(g, w) == w && comes_before(g, w, u);
            assert forall|x: int| 0 <= x < n implies #[trigger] f(x) == h(x) by {
                // sizes agree
                lemma_size_is_count(g, l, x);
                lemma_size_is_count(g, l, u);
                assert(comp_size(g, x) == cnt@[l[x] as int]);
                assert(comp_size(g, u) == cnt@[k]);
                // smallest nodes agree with label order
                assert(leader(g, x) == starts[l[x] as int]);
                assert(leader(g, u) == starts[k]);
                if l[x] < k {
                    assert(starts[l[x] as int] < starts[k]);
                } else if l[x] > k {
                    assert(starts[k] < starts[l[x] as int]);
                }
            }
            lemma_count_where_ext(f, h, n as int);
        }
        assert forall|u: int, v: int| 0 <= u < n && 0 <= v < n implies (#[trigger] out@[u] == #[trigger] out@[v]
            <==> connected(g, u, v)) by {
            assert(l[u] == l[v] <==> connected(g, u, v));
            if l[u] != l[v] {
                let a = l[u] as int;
                let b = l[v] as int;
                if cnt@[a] > cnt@[b] || (cnt@[a] == cnt@[b] && a < b) {
                    lemma_rank_strict(st@, l, cnt@, a, b, n as int);
                } else {
                    lemma_rank_strict(st@, l, cnt@, b, a, n as int);
                }
            }
        }
    }
    (out, lab, st, groups)
}

/// A component that comes before another has a smaller rank.
proof fn lemma_rank_strict(st: Seq<u32>, l: Seq<u32>, cnt: Seq<u32>, a: int, b: int, n: int)
    requires
        0 <= a < st.len(),
        0 <= b < st.len(),
        cnt.len() == st.len(),
        l.len() == n,
        forall|x: int| 0 <= x < n ==> #[trigger] l[x] < st.len(),
        st[a] < n,
        l[st[a] as int] == a,
        cnt[a] > cnt[b] || (cnt[a] == cnt[b] && a < b),
    ensures
        count_where(
            |x: int| st[l[x] as int] == x && (cnt[l[x] as int] > cnt[a] || (cnt[l[x] as int] == cnt[a]
                && l[x] < a)),
            n,
        ) < count_where(
            |x: int| st[l[x] as int] == x && (cnt[l[x] as int] > cnt[b] || (cnt[l[x] as int] == cnt[b]
                && l[x] < b)),
            n,
        ),
{
    let f = |x: int| st[l[x] as int] == x && (cnt[l[x] as int] > cnt[a] || (cnt[l[x] as int] == cnt[a]
        && l[x] < a));
    let h = |x: int| st[l[x] as int] == x && (cnt[l[x] as int] > cnt[b] || (cnt[l[x] as int] == cnt[b]
        && l[x] < b));
    let x0 = st[a] as int;
    assert(h(x0));
    assert(!f(x0));
    lemma_count_where_strict(f, h, n, x0);
}

/// Component sizes as counts of equal labels, when labels match connectivity.
proof fn lemma_size_is_count(g: Seq<Seq<u32>>, l: Seq<u32>, x: int)
    requires
        l.len() == g.len(),
        0 <= x < g.len(),
        forall|u: int, v: int| 0 <= u < g.len() && 0 <= v < g.len() ==> (#[trigger] l[u] == #[trigger] l[v]
            <==> connected(g, u, v)),
    ensures
        comp_size(g, x) == count_eq(l, l[x], g.len() as int),
{
    let n = g.len() as int;
    let f = |w: int| connected(g, x, w);
    let h = |y: int| l[y] == l[x];
    assert forall|y: int| 0 <= y < n implies #[trigger] f(y) == h(y) by {
        assert(l[x] == l[y] <==> connected(g, x, y));
    }
    lemma_count_where_ext(f, h, n);
    lemma_count_eq_as_where(l, l[x], n);
    let c = l[x];
    assert(h =~= (|y: int| l[y] == c));
    assert(f =~= (|w: int| connected(g, x, w)));
}

proof fn lemma_count_where_strict(f: spec_fn(int) -> bool, h: spec_fn(int) -> bool, i: int, x0: int)
    requires
        0 <= x0 < i,
        forall|x: int| 0 <= x < i && #[trigger] f(x) ==> h(x),
        h(x0),
        !f(x0),
    ensures
        count_where(f, i) < count_where(h, i),
    decreases i,
{
    lemma_count_where_mono(f, h, i - 1);
    if x0 < i - 1 {
        lemma_count_where_strict(f, h, i - 1, x0);
    }
}

proof fn lemma_count_where_mono(f: spec_fn(int) -> bool, h: spec_fn(int) -> bool, i: int)
    requires
        forall|x: int| 0 <= x < i && #[trigger] f(x) ==> h(x),
    ensures
        count_where(f, i) <= count_where(h, i),
    decreases i,
{
    if i > 0 {
        lemma_count_where_mono(f, h, i - 1);
    }
}

proof fn lemma_count_eq_as_where(l: Seq<u32>, c: u32, i: int)
    requires
        0 <= i <= l.len(),
    ensures
        count_eq(l, c, i) == count_where(|y: int| l[y] == c, i),
    decreases i,
{
    if i > 0 {
        lemma_count_eq_as_where(l, c, i - 1);
    }
}

/// `count_where` is the size of the set it counts.
pub proof fn lemma_count_where_set(f: spec_fn(int) -> bool, n: int)
    requires
        0 <= n,
    ensures
        Set::new(|x: int| 0 <= x < n && f(x)).finite(),
        count_where(f, n) == Set::new(|x: int| 0 <= x < n && f(x)).len(),
    decreases n,
{
    let s1 = Set::new(|x: int| 0 <= x < n && f(x));
    if n == 0 {
        assert(s1 =~= Set::<int>::empty());
    } else {
        lemma_count_where_set(f, n - 1);
        let s0 = Set::new(|x: int| 0 <= x < n - 1 && f(x));
        if f(n - 1) {
            assert(s1 =~= s0.insert(n - 1));
            assert(!s0.contains(n - 1));
        } else {
            assert(s1 =~= s0);
        }
    }
}

/// Some label's smallest node has number `r`.
spec fn numbered(comps: Seq<u32>, starts: Seq<u32>, r: int) -> bool {
    exists|j: int| 0 <= j < starts.len() && comps[#[trigger] starts[j] as int] == r
}

/// Given labels that match connectivity, each label's smallest node has a
/// component number below the number of labels, and every number below it
/// belongs to some label.
proof fn lemma_numbers_onto(g: Seq<Seq<u32>>, comps: Seq<u32>, lab: Seq<u32>, starts: Seq<u32>)
    requires
        adj_wf(g),
        comps.len() == g.len(),
        lab.len() == g.len(),
        forall|u: int| 0 <= u < g.len() ==> (#[trigger] comps[u]) == component_rank(g, u),
        forall|u: int, v: int| 0 <= u < g.len() && 0 <= v < g.len() ==> (#[trigger] comps[u]
            == #[trigger] comps[v] <==> connected(g, u, v)),
        forall|u: int, v: int| 0 <= u < g.len() && 0 <= v < g.len() ==> (#[trigger] lab[u]
            == #[trigger] lab[v] <==> connected(g, u, v)),
        forall|u: int| 0 <= u < g.len() ==> #[trigger] lab[u] < starts.len(),
        forall|j: int| 0 <= j < starts.len() ==> (#[trigger] starts[j]) < g.len() && lab[starts[j] as int] == j,
    ensures
        forall|j: int| 0 <= j < starts.len() ==> comps[#[trigger] starts[j] as int] < starts.len(),
        forall|r: int| 0 <= r < starts.len() ==> #[trigger] numbered(comps, starts, r),
{
    let n = g.len() as int;
    let count = starts.len() as int;
    lemma_int_range(0, count);
    let all = set_int_range(0, count);
    // each smallest node's number is below the number of labels
    assert forall|c: int| 0 <= c < count implies comps[#[trigger] starts[c] as int] < count by {
        let u = starts[c] as int;
        let f = |w: int| leader(g, w) == w && comes_before(g, w, u);
        lemma_count_where_set(f, n);
        let s = Set::new(|x: int| 0 <= x < n && f(x));
        let h = |w: int| lab[w] as int;
        let t = all.remove(c);
        assert(injective_on(h, s)) by {
            assert forall|w1: int, w2: int| s.contains(w1) && s.contains(w2) && #[trigger] h(w1)
                == #[trigger] h(w2) implies w1 == w2 by {
                assert(lab[w1] == lab[w2]);
                lemma_same_component(g, w1, w2);
            }
        }
        lemma_map_size(s, s.map(h), h);
        assert(s.map(h).subset_of(t)) by {
            assert forall|j: int| #[trigger] s.map(h).contains(j) implies t.contains(j) by {
                let w = choose|w: int| s.contains(w) && j == h(w);
                if lab[w] as int == c {
                    assert(lab[w] == lab[u]);
                    lemma_same_component(g, w, u);
                }
            }
        }
        lemma_len_subset(s.map(h), t);
        assert(comps[u] == count_where(f, n));
    }
    // numbers of different labels differ, so they fill 0..count
    let f = |c: int| comps[starts[c] as int] as int;
    assert(injective_on(f, all)) by {
        assert forall|a: int, b: int| all.contains(a) && all.contains(b) && #[trigger] f(a) == #[trigger] f(b)
            implies a == b by {
            let ua = starts[a] as int;
            let ub = starts[b] as int;
            assert(comps[ua] == comps[ub]);
            assert(lab[ua] == lab[ub]);
        }
    }
    lemma_map_size(all, all.map(f), f);
    assert(all.map(f).subset_of(all)) by {
        assert forall|r: int| #[trigger] all.map(f).contains(r) implies all.contains(r) by {
            let c = choose|c: int| all.contains(c) && r == f(c);
            assert(comps[starts[c] as int] < count);
        }
    }
    lemma_subset_equality(all.map(f), all);
    assert forall|r: int| 0 <= r < count implies #[trigger] numbered(comps, starts, r) by {
        assert(all.contains(r));
        assert(all.map(f).contains(r));
        let c = choose|c: int| all.contains(c) && r == f(c);
        assert(comps[starts[c] as int] == r);
    }
}

/// The nodes of each component, numbered as `component_numbers` numbers
/// them (largest component first); also the number of every node. There is
/// one group per component; each lists its nodes once, in depth-first order
/// from its smallest node.
pub fn component_groups(adj: &Vec<Vec<u32>>) -> (out: (Vec<u32>, Vec<Vec<u32>>))
    requires
        adj_wf(adj@.map_values(|e: Vec<u32>| e@)),
        adj.len() < u32::MAX,
    ensures
        out.0.len() == adj.len(),
        forall|u: int| 0 <= u < adj.len() ==> (#[trigger] out.0@[u]) == component_rank(
            adj@.map_values(|e: Vec<u32>| e@),
            u,
        ),
        forall|u: int| 0 <= u < adj.len() ==> (#[trigger] out.0@[u]) < out.1.len(),
        forall|r: int| #![trigger out.1@[r]] 0 <= r < out.1.len() ==> {
            &&& out.1@[r].len() > 0
            &&& out.1@[r]@.no_duplicates()
            &&& forall|u: u32| #[trigger] out.1@[r]@.contains(u) <==> (u < adj.len() && out.0@[u as int] == r)
            &&& forall|i: int| 0 <= i < out.1@[r].len() ==> out.1@[r]@[0] <= #[trigger] out.1@[r]@[i]
            &&& out.1@[r]@ == dfs_order(adj@.map_values(|e: Vec<u32>| e@), out.1@[r]@[0] as int)
        },
{
    let ghost g = adj@.map_values(|e: Vec<u32>| e@);
    let (comps, lab, st, groups) = rank_components(adj);
    let n = adj.len();
    let ghost l = lab@;
    let ghost starts = st@;
    let ghost g0 = groups@;
    let count = st.len();
    proof {
        lemma_numbers_onto(g, comps@, l, starts);
        assert forall|u: int| 0 <= u < n implies (#[trigger] comps@[u]) < count by {
            let j = l[u] as int;
            assert(l[starts[j] as int] == l[u]);
            assert(comps@[starts[j] as int] == comps@[u]);
        }
    }
    let mut out: Vec<Vec<u32>> = Vec::new();
    let mut r = 0usize;
    while r < count
        invariant
            r <= count,
            out.len() == r,
        decreases count - r,
    {
        out.push(Vec::new());
        r = r + 1;
    }
    // each list goes to the slot of its component's number
    let mut groups = groups;
    while groups.len() > 0
        invariant
            groups.len() <= count,
            count == st.len(),
            g0.len() == count,
            starts == st@,
            comps.len() == n,
            n == adj.len(),
            l.len() == n,
            out.len() == count,
            forall|j: int| 0 <= j < count ==> comps@[#[trigger] starts[j] as int] < count,
            forall|j: int| 0 <= j < count ==> (#[trigger] starts[j]) < n && l[starts[j] as int] == j,
            forall|u: int, v: int| 0 <= u < n && 0 <= v < n ==> (#[trigger] l[u] == #[trigger] l[v]
                <==> comps@[u] == comps@[v]),
            forall|j: int| 0 <= j < groups.len() ==> #[trigger] groups@[j] == g0[j],
            forall|j: int| groups.len() <= j < count ==> (#[trigger] out@[comps@[starts[j] as int] as int])@
                == g0[j]@,
        decreases groups.len(),
    {
        let j = groups.len() - 1;
        let grp = groups.pop().unwrap();
        let s = st[j] as usize;
        let r = comps[s] as usize;
        out.set(r, grp);
        proof {
            assert(grp == g0[j as int]);
            assert forall|j2: int| groups.len() <= j2 < count implies (#[trigger] out@[comps@[
                starts[j2] as int] as int])@ == g0[j2]@ by {
                if j2 != j {
                    assert(l[starts[j2] as int] != l[starts[j as int] as int]);
                    assert(comps@[starts[j2] as int] != r);
                }
            }
        }
    }
    proof {
        assert forall|r: int| #![trigger out@[r]] 0 <= r < out.len() implies {
            &&& out@[r].len() > 0
            &&& out@[r]@.no_duplicates()
            &&& forall|u: u32| #[trigger] out@[r]@.contains(u) <==> (u < adj.len() && comps@[u as int] == r)
            &&& forall|i: int| 0 <= i < out@[r].len() ==> out@[r]@[0] <= #[trigger] out@[r]@[i]
            &&& out@[r]@ == dfs_order(g, out@[r]@[0] as int)
        } by {
            assert(numbered(comps@, starts, r));
            let j = choose|j: int| 0 <= j < count && comps@[#[trigger] starts[j] as int] == r;
            assert(out@[r]@ == g0[j]@);
            assert(group_of(g0[j]@, l, j, starts[j]));
            assert(g0[j]@ == dfs_order(g, starts[j] as int));
            assert forall|u: u32| #[trigger] out@[r]@.contains(u) <==> (u < adj.len() && comps@[u as int]
                == r) by {
                if u < n {
                    assert(l[u as int] == l[starts[j] as int] <==> comps@[u as int] == comps@[
                        starts[j] as int]);
                }
            }
            assert forall|i: int| 0 <= i < out@[r].len() implies out@[r]@[0] <= #[trigger] out@[r]@[i] by {
                let w = out@[r]@[i];
                assert(g0[j]@.contains(w));
                assert(l[w as int] == j);
            }
        }
    }
    (comps, out)
}

// ------------------------------------------------------------------ laws

/// Where the search for `u`'s leader from `i` ends.
proof fn lemma_leader_from_range(g: Seq<Seq<u32>>, u: int, i: int)
    requires
        0 <= i <= g.len(),
        0 <= u < g.len(),
        i <= u,
        adj_wf(g),
    ensures
        i <= leader_from(g, u, i) <= u,
        connected(g, u, leader_from(g, u, i)),
        forall|w: int| i <= w < leader_from(g, u, i) ==> !connected(g, u, w),
    decreases g.len() - i,
{
    if i < u && !connected(g, u, i) {
        lemma_leader_from_range(g, u, i + 1);
    } else if i == u && !connected(g, u, i) {
        lemma_connected_refl(g, u);
    }
}

/// The leader of `u`'s component is in it, and is its smallest node.
proof fn lemma_leader(g: Seq<Seq<u32>>, u: int)
    requires
        adj_wf(g),
        0 <= u < g.len(),
    ensures
        0 <= leader(g, u) <= u,
        connected(g, u, leader(g, u)),
        forall|w: int| 0 <= w < leader(g, u) ==> !connected(g, u, w),
{
    lemma_leader_from_range(g, u, 0);
}

/// Joined nodes have the same leader and the same component size.
proof fn lemma_same_component(g: Seq<Seq<u32>>, u: int, v: int)
    requires
        adj_wf(g),
        0 <= u < g.len(),
        0 <= v < g.len(),
        connected(g, u, v),
    ensures
        leader(g, u) == leader(g, v),
        comp_size(g, u) == comp_size(g, v),
{
    lemma_leader(g, u);
    lemma_leader(g, v);
    lemma_connected_symm(g, u, v);
    let lu = leader(g, u);
    let lv = leader(g, v);
    lemma_connected_trans(g, v, u, lu);
    lemma_connected_trans(g, u, v, lv);
    assert forall|w: int| 0 <= w < g.len() implies #[trigger] connected(g, u, w) == connected(g, v, w) by {
        if connected(g, u, w) {
            lemma_connected_trans(g, v, u, w);
        }
        if connected(g, v, w) {
            lemma_connected_trans(g, u, v, w);
        }
    }
    lemma_count_where_ext(|w: int| connected(g, u, w), |w: int| connected(g, v, w), g.len() as int);
}

/// Components are numbered largest first: a node in a larger component
/// gets a smaller number, so number 0 is a largest component.
pub proof fn lemma_larger_first(g: Seq<Seq<u32>>, u: int, v: int)
    requires
        adj_wf(g),
        0 <= u < g.len(),
        0 <= v < g.len(),
        comp_size(g, u) > comp_size(g, v),
    ensures
        component_rank(g, u) < component_rank(g, v),
{
    let n = g.len() as int;
    let f = |w: int| leader(g, w) == w && comes_before(g, w, u);
    let h = |w: int| leader(g, w) == w && comes_before(g, w, v);
    assert forall|w: int| 0 <= w < n && #[trigger] f(w) implies h(w) by {
    }
    lemma_leader(g, u);
    let x0 = leader(g, u);
    lemma_connected_symm(g, u, x0);
    lemma_same_component(g, u, x0);
    assert(h(x0));
    assert(!f(x0));
    lemma_count_where_strict(f, h, n, x0);
}

} // verus!
