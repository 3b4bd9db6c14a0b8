//! The word graph: one node per note, an undirected edge per resolved link.
use std::path::PathBuf;

use vstd::hash_map::StringHashMap;
use vstd::prelude::*;

use crate::components::{adj_wf, component_numbers, component_rank, count_where};
use crate::note::{to_strings, Parsed};
use crate::order::{insert_unique, key_sorted, position_of, Keyed};
use crate::text::{
    chars_lt, chars_of, insert_unique_str, lowercase, str_lt, strictly_sorted_strs, to_lowercase,
    lemma_str_lt_irreflexive, lemma_str_lt_total, lemma_str_lt_transitive,
};
use crate::week::Week;

verus! {

/// One word (one note).
pub struct Node {
    pub name: String,
    pub path: PathBuf,
    /// Every week the word was edited in, as sorted indices into `Graph::weeks`.
    pub weeks: Vec<u16>,
    /// The note's tags (without `modified/*`), as sorted indices into `Graph::tags`.
    pub tags: Vec<u16>,
    /// Undirected neighbours (global node indices), each once.
    pub neighbors: Vec<u32>,
    /// Connected component number, used to colour the node.
    pub component: u32,
}

impl Node {
    pub fn degree(&self) -> (r: usize)
        ensures
            r == self.neighbors.len(),
    {
        self.neighbors.len()
    }

    /// The most recent week the word was edited in (an index).
    pub fn last_week(&self) -> (r: Option<u16>)
        ensures
            self.weeks.len() == 0 ==> r is None,
            self.weeks.len() > 0 ==> r == Some(self.weeks@.last()),
    {
        if self.weeks.len() == 0 {
            None
        } else {
            Some(self.weeks[self.weeks.len() - 1])
        }
    }
}

pub struct Graph {
    pub nodes: Vec<Node>,
    pub edges: Vec<(u32, u32)>,
    /// Every week that occurs in the library, ascending.
    pub weeks: Vec<Week>,
    /// Every tag of the library (without `modified/*`), ascending, each once.
    pub tags: Vec<String>,
    /// Lower-cased name -> node index, for resolving links (links ignore case).
    pub by_name: StringHashMap<u32>,
    /// Links that point to no note, a hint at typos in the data.
    pub dangling_links: usize,
}

// ------------------------------------------------------------------ specification

/// Name index of the first `n` notes: lower-cased name -> first note with it.
pub open spec fn name_index_upto(ps: Seq<Parsed>, n: int) -> Map<Seq<char>, u32>
    decreases n,
{
    if n <= 0 {
        Map::empty()
    } else {
        let m = name_index_upto(ps, n - 1);
        let k = lowercase(ps[n - 1].name@);
        if m.dom().contains(k) {
            m
        } else {
            m.insert(k, (n - 1) as u32)
        }
    }
}

pub open spec fn name_index(ps: Seq<Parsed>) -> Map<Seq<char>, u32> {
    name_index_upto(ps, ps.len() as int)
}

/// The note a link text names, if any (case-insensitively, first note wins).
pub open spec fn resolve(ps: Seq<Parsed>, link: Seq<char>) -> Option<u32> {
    if name_index(ps).dom().contains(lowercase(link)) {
        Some(name_index(ps)[lowercase(link)])
    } else {
        None
    }
}

/// The undirected edge, smaller index first, that a link of note `i` makes.
pub open spec fn link_edge(ps: Seq<Parsed>, i: int, link: Seq<char>) -> Option<(u32, u32)> {
    match resolve(ps, link) {
        Some(b) => if b as int != i {
            if i < b {
                Some((i as u32, b))
            } else {
                Some((b, i as u32))
            }
        } else {
            None
        },
        None => None,
    }
}

/// All edges made by the links of notes `(i, k)` before `(n, m)`.
pub open spec fn edges_before(ps: Seq<Parsed>, n: int, m: int) -> Set<(u32, u32)> {
    Set::new(
        |e: (u32, u32)|
            exists|i: int, k: int|
                0 <= i < ps.len() && 0 <= k < ps[i].links.len() && (i < n || (i == n && k < m))
                    && link_edge(ps, i, ps[i].links@[k]@) == Some(e),
    )
}

/// The edges of the graph of notes `ps`.
pub open spec fn edge_set(ps: Seq<Parsed>) -> Set<(u32, u32)> {
    edges_before(ps, ps.len() as int, 0)
}

/// Links of note `i` among its first `k` that name no note.
pub open spec fn dangling_in(ps: Seq<Parsed>, i: int, k: int) -> nat
    decreases k,
{
    if k <= 0 {
        0
    } else {
        dangling_in(ps, i, k - 1) + if resolve(ps, ps[i].links@[k - 1]@) is None {
            1nat
        } else {
            0nat
        }
    }
}

/// Links of the first `n` notes that name no note.
pub open spec fn dangling_upto(ps: Seq<Parsed>, n: int) -> nat
    decreases n,
{
    if n <= 0 {
        0
    } else {
        dangling_upto(ps, n - 1) + dangling_in(ps, n - 1, ps[n - 1].links.len() as int)
    }
}

/// Total number of links of the first `n` notes.
pub open spec fn links_upto(ps: Seq<Parsed>, n: int) -> nat
    decreases n,
{
    if n <= 0 {
        0
    } else {
        links_upto(ps, n - 1) + ps[n - 1].links@.len()
    }
}

/// Every week that occurs in some note.
pub open spec fn week_set(ps: Seq<Parsed>) -> Set<Week> {
    Set::new(|w: Week| exists|i: int| 0 <= i < ps.len() && ps[i].weeks@.contains(w))
}

/// Every tag that occurs in some note.
pub open spec fn tag_set(ps: Seq<Parsed>) -> Set<Seq<char>> {
    Set::new(
        |t: Seq<char>|
            exists|i: int, k: int| 0 <= i < ps.len() && 0 <= k < ps[i].tags.len() && ps[i].tags@[k]@ == t,
    )
}

/// Position of `x` in a sequence that holds it once.
pub open spec fn index_in<T>(v: Seq<T>, x: T) -> int {
    choose|k: int| 0 <= k < v.len() && v[k] == x
}

/// The other ends of the edges at `x` among the first `n` edges, in edge order.
pub open spec fn nbrs_upto(edges: Seq<(u32, u32)>, n: int, x: u32) -> Seq<u32>
    decreases n,
{
    if n <= 0 {
        seq![]
    } else {
        let e = edges[n - 1];
        let before = nbrs_upto(edges, n - 1, x);
        if e.0 == x {
            before.push(e.1)
        } else if e.1 == x {
            before.push(e.0)
        } else {
            before
        }
    }
}

impl Graph {
    /// The lower-cased name -> node index table of the graph.
    pub closed spec fn name_map(&self) -> Map<Seq<char>, u32> {
        self.by_name@
    }
}


proof fn lemma_name_index_bound(ps: Seq<Parsed>, n: int)
    requires
        0 <= n <= ps.len() <= u32::MAX,
    ensures
        forall|k: Seq<char>| #[trigger] name_index_upto(ps, n).dom().contains(k) ==> name_index_upto(ps, n)[k] < n,
    decreases n,
{
    if n > 0 {
        lemma_name_index_bound(ps, n - 1);
        let m = name_index_upto(ps, n - 1);
        let key = lowercase(ps[n - 1].name@);
        assert forall|k: Seq<char>| #[trigger] name_index_upto(ps, n).dom().contains(k) implies name_index_upto(ps, n)[k] < n by {
            if !m.dom().contains(key) && k == key {
                assert(name_index_upto(ps, n)[k] == (n - 1) as u32);
            } else {
                assert(m.dom().contains(k));
            }
        }
    }
}

proof fn lemma_nbrs_contains(edges: Seq<(u32, u32)>, k: int, x: u32, y: u32)
    requires
        0 <= k <= edges.len(),
    ensures
        nbrs_upto(edges, k, x).contains(y) <==> exists|j: int| 0 <= j < k && (#[trigger] edges[j] == (x, y) || edges[j] == (y, x)),
    decreases k,
{
    if k > 0 {
        lemma_nbrs_contains(edges, k - 1, x, y);
        let e = edges[k - 1];
        let before = nbrs_upto(edges, k - 1, x);
        if e.0 == x {
            assert(before.push(e.1).contains(y) <==> (before.contains(y) || e.1 == y)) by {
                if before.push(e.1).contains(y) {
                    let i = choose|i: int| 0 <= i < before.len() + 1 && before.push(e.1)[i] == y;
                    if i < before.len() {
                        assert(before[i] == y);
                    }
                }
                if before.contains(y) {
                    let i = choose|i: int| 0 <= i < before.len() && before[i] == y;
                    assert(before.push(e.1)[i] == y);
                }
                assert(before.push(e.1)[before.len() as int] == e.1);
            }
        } else if e.1 == x {
            assert(before.push(e.0).contains(y) <==> (before.contains(y) || e.0 == y)) by {
                if before.push(e.0).contains(y) {
                    let i = choose|i: int| 0 <= i < before.len() + 1 && before.push(e.0)[i] == y;
                    if i < before.len() {
                        assert(before[i] == y);
                    }
                }
                if before.contains(y) {
                    let i = choose|i: int| 0 <= i < before.len() && before[i] == y;
                    assert(before.push(e.0)[i] == y);
                }
                assert(before.push(e.0)[before.len() as int] == e.0);
            }
        }
        if exists|j: int| 0 <= j < k && (#[trigger] edges[j] == (x, y) || edges[j] == (y, x)) {
            let j = choose|j: int| 0 <= j < k && (#[trigger] edges[j] == (x, y) || edges[j] == (y, x));
            if j < k - 1 {
                assert(0 <= j < k - 1 && (edges[j] == (x, y) || edges[j] == (y, x)));
            }
        }
        if exists|j: int| 0 <= j < k - 1 && (#[trigger] edges[j] == (x, y) || edges[j] == (y, x)) {
            let j = choose|j: int| 0 <= j < k - 1 && (#[trigger] edges[j] == (x, y) || edges[j] == (y, x));
            assert(0 <= j < k && (edges[j] == (x, y) || edges[j] == (y, x)));
        }
    }
}

/// Over edges listed once each, lower end first, every node's neighbours
/// are listed once each.
proof fn lemma_nbrs_no_dup(edges: Seq<(u32, u32)>, k: int, x: u32)
    requires
        0 <= k <= edges.len(),
        key_sorted(edges),
        forall|j: int| 0 <= j < edges.len() ==> (#[trigger] edges[j]).0 < edges[j].1,
    ensures
        nbrs_upto(edges, k, x).no_duplicates(),
    decreases k,
{
    if k > 0 {
        lemma_nbrs_no_dup(edges, k - 1, x);
        let e = edges[k - 1];
        let before = nbrs_upto(edges, k - 1, x);
        let y = if e.0 == x {
            e.1
        } else {
            e.0
        };
        if e.0 == x || e.1 == x {
            lemma_nbrs_contains(edges, k - 1, x, y);
            if before.contains(y) {
                let j = choose|j: int| 0 <= j < k - 1 && (#[trigger] edges[j] == (x, y) || edges[j] == (y, x));
                assert(edges[j].key() < edges[k - 1].key());
                assert(edges[j].0 < edges[j].1);
            }
            let after = before.push(y);
            assert forall|a: int, b: int| 0 <= a < b < after.len() implies after[a] != after[b] by {
                if b == after.len() - 1 {
                    assert(before.contains(after[a]));
                } else {
                    assert(after[a] == before[a] && after[b] == before[b]);
                }
            }
        }
    }
}

/// The graph that `Graph::from_notes` builds from the notes `ps`.
pub open spec fn graph_of(g: Graph, ps: Seq<Parsed>) -> bool {
    &&& g.nodes.len() == ps.len()
    &&& key_sorted(g.weeks@)
    &&& g.weeks@.to_set() == week_set(ps)
    &&& strictly_sorted_strs(g.tags@.map_values(|e: String| e@))
    &&& g.tags@.map_values(|e: String| e@).to_set() == tag_set(ps)
    &&& key_sorted(g.edges@)
    &&& g.edges@.to_set() == edge_set(ps)
    &&& g.dangling_links == dangling_upto(ps, ps.len() as int)
    &&& g.name_map() == name_index(ps)
    &&& forall|i: int| 0 <= i < ps.len() ==> {
        let node = #[trigger] g.nodes@[i];
        &&& node.name == ps[i].name
        &&& node.path == ps[i].path
        &&& key_sorted(node.weeks@)
        &&& node.weeks@.to_set() == ps[i].weeks@.to_set().map(|w: Week| index_in(g.weeks@, w) as u16)
        &&& key_sorted(node.tags@)
        &&& node.tags@.to_set() == ps[i].tags@.map_values(|e: String| e@).to_set().map(
            |t: Seq<char>| index_in(g.tags@.map_values(|e: String| e@), t) as u16,
        )
        &&& node.neighbors@ == nbrs_upto(g.edges@, g.edges.len() as int, i as u32)
        &&& node.component == component_rank(g.adjacency(), i)
    }
}

/// The word a name finds: the one filed under its lower-case form.
pub open spec fn lookup(g: Graph, name: Seq<char>) -> Option<u32> {
    if g.name_map().dom().contains(lowercase(name)) {
        Some(g.name_map()[lowercase(name)])
    } else {
        None
    }
}

/// A graph whose node references stay inside it.
pub open spec fn graph_wf(g: Graph) -> bool {
    &&& g.nodes.len() < u32::MAX
    &&& forall|i: int, k: int|
        0 <= i < g.nodes.len() && 0 <= k < g.nodes@[i].neighbors.len() ==> (
        #[trigger] g.nodes@[i].neighbors@[k]) < g.nodes.len()
    &&& forall|i: int, k: int|
        0 <= i < g.nodes.len() && 0 <= k < g.nodes@[i].weeks.len() ==> (
        #[trigger] g.nodes@[i].weeks@[k]) < g.weeks.len()
    &&& forall|i: int| 0 <= i < g.nodes.len() ==> (#[trigger] g.nodes@[i].neighbors@).no_duplicates()
}

impl Graph {
    /// The neighbour lists of the graph.
    pub open spec fn adjacency(self) -> Seq<Seq<u32>> {
        self.nodes@.map_values(|n: Node| n.neighbors@)
    }

    /// Looks a word up by name, ignoring case.
    pub fn find(&self, name: &str) -> (r: Option<u32>)
        ensures
            r == lookup(*self, name@),
    {
        let key = to_lowercase(name);
        match self.by_name.get(key.as_str()) {
            Some(i) => Some(*i),
            None => None,
        }
    }

    /// The empty graph.
    pub fn empty() -> (g: Graph)
        ensures
            g.nodes.len() == 0,
            g.edges.len() == 0,
            g.weeks.len() == 0,
            g.tags.len() == 0,
            g.dangling_links == 0,
            g.name_map() == Map::<Seq<char>, u32>::empty(),
    {
        Graph {
            nodes: Vec::new(),
            edges: Vec::new(),
            weeks: Vec::new(),
            tags: Vec::new(),
            by_name: StringHashMap::new(),
            dangling_links: 0,
        }
    }

    /// Builds the graph of the parsed notes: nodes in the given order, the
    /// library's weeks and tags, an edge for every link that names another
    /// note (case-insensitively; the first note of a name wins), the count
    /// of links that name no note, and component numbers.
    pub fn from_notes(parsed: Vec<Parsed>) -> (g: Graph)
        requires
            parsed.len() < u32::MAX,
            links_upto(parsed@, parsed.len() as int) <= usize::MAX,
        ensures
            graph_of(g, parsed@),
            graph_wf(g),
    {
        let ghost ps = parsed@;
        let n = parsed.len();
        let by_name = build_name_index(&parsed);
        let weeks = collect_weeks(&parsed);
        let tag_chars = collect_tags(&parsed);
        let (edges, dangling) = collect_edges(&parsed, &by_name);
        proof {
            lemma_name_index_bound(ps, n as int);
            assert forall|k: int| 0 <= k < edges.len() implies (#[trigger] edges@[k]).0 < edges@[k].1 < n by {
                assert(edges@.to_set().contains(edges@[k]));
                let e = edges@[k];
                let (i, m) = choose|i: int, m: int|
                    0 <= i < ps.len() && 0 <= m < ps[i].links.len() && (i < n || (i == n && m < 0))
                        && link_edge(ps, i, ps[i].links@[m]@) == Some(e);
            }
        }
        let nbrs = neighbor_lists(n, &edges);
        let ghost adj = nbrs@.map_values(|e: Vec<u32>| e@);
        proof {
            assert(adj_wf(adj)) by {
                assert forall|u: int, k: int| 0 <= u < adj.len() && 0 <= k < adj[u].len() implies (#[trigger] adj[u][k]) < adj.len() by {
                    lemma_nbrs_contains(edges@, edges.len() as int, u as u32, adj[u][k]);
                    assert(adj[u].contains(adj[u][k]));
                    let j = choose|j: int| 0 <= j < edges.len() && (#[trigger] edges@[j] == (u as u32, adj[u][k]) || edges@[j] == (adj[u][k], u as u32));
                }
                assert forall|u: u32, v: u32| u < adj.len() && v < adj.len() implies (#[trigger] adj[u as int].contains(v)
                    <==> #[trigger] adj[v as int].contains(u)) by {
                    lemma_nbrs_contains(edges@, edges.len() as int, u, v);
                    lemma_nbrs_contains(edges@, edges.len() as int, v, u);
                }
            }
        }
        let comps = component_numbers(&nbrs);
        // the notes are consumed from the back, then put back in order
        let mut nbrs = nbrs;
        let mut rest = parsed;
        let mut rev: Vec<Node> = Vec::new();
        while rest.len() > 0
            invariant
                rest@ == ps.take(rest.len() as int),
                nbrs.len() == rest.len(),
                forall|j: int| 0 <= j < nbrs.len() ==> (#[trigger] nbrs@[j])@ == adj[j],
                rest.len() + rev.len() == n,
                n == ps.len(),
                adj.len() == n,
                key_sorted(weeks@),
                weeks@.to_set() == week_set(ps),
                strictly_sorted_strs(tag_chars@.map_values(|e: Vec<char>| e@)),
                tag_chars@.map_values(|e: Vec<char>| e@).to_set() == tag_set(ps),
                comps.len() == n,
                forall|j: int| 0 <= j < rev.len() ==> {
                    let node = #[trigger] rev@[j];
                    let src = n - 1 - j;
                    &&& node.name == ps[src].name
                    &&& node.path == ps[src].path
                    &&& key_sorted(node.weeks@)
                    &&& node.weeks@.to_set() == ps[src].weeks@.to_set().map(|w: Week| index_in(weeks@, w) as u16)
                    &&& key_sorted(node.tags@)
                    &&& node.tags@.to_set() == ps[src].tags@.map_values(|e: String| e@).to_set().map(
                        |t: Seq<char>| index_in(tag_chars@.map_values(|e: Vec<char>| e@), t) as u16,
                    )
                    &&& node.neighbors@ == adj[src]
                    &&& node.component == comps@[src]
                },
            decreases rest.len(),
        {
            let ghost before = rest@;
            let p = rest.pop().unwrap();
            let own = nbrs.pop().unwrap();
            let src = rest.len();
            assert(p == ps[src as int]) by {
                assert(before[src as int] == ps.take(src + 1)[src as int]);
            }
            assert(rest@ =~= ps.take(src as int));
            proof {
                assert forall|k: int| 0 <= k < p.weeks.len() implies weeks@.contains(#[trigger] p.weeks@[k]) by {
                    assert(ps[src as int].weeks@.contains(p.weeks@[k]));
                    assert(week_set(ps).contains(p.weeks@[k]));
                    assert(weeks@.to_set().contains(p.weeks@[k]));
                }
                assert forall|k: int| 0 <= k < p.tags.len() implies tag_chars@.map_values(|e: Vec<char>| e@).contains(
                    (#[trigger] p.tags@[k])@) by {
                    assert(ps[src as int].tags@[k]@ == p.tags@[k]@);
                    assert(tag_set(ps).contains(p.tags@[k]@));
                    assert(tag_chars@.map_values(|e: Vec<char>| e@).to_set().contains(p.tags@[k]@));
                }
            }
            let wi = week_indices(&weeks, &p.weeks);
            let ti = tag_indices(&tag_chars, &p.tags);
            let component = comps[src];
            rev.push(Node { name: p.name, path: p.path, weeks: wi, tags: ti, neighbors: own, component });
        }
        let mut nodes: Vec<Node> = Vec::new();
        while rev.len() > 0
            invariant
                rev.len() + nodes.len() == n,
                n == ps.len(),
                adj.len() == n,
                comps.len() == n,
                forall|j: int| 0 <= j < rev.len() ==> {
                    let node = #[trigger] rev@[j];
                    let src = n - 1 - j;
                    &&& node.name == ps[src].name
                    &&& node.path == ps[src].path
                    &&& key_sorted(node.weeks@)
                    &&& node.weeks@.to_set() == ps[src].weeks@.to_set().map(|w: Week| index_in(weeks@, w) as u16)
                    &&& key_sorted(node.tags@)
                    &&& node.tags@.to_set() == ps[src].tags@.map_values(|e: String| e@).to_set().map(
                        |t: Seq<char>| index_in(tag_chars@.map_values(|e: Vec<char>| e@), t) as u16,
                    )
                    &&& node.neighbors@ == adj[src]
                    &&& node.component == comps@[src]
                },
                forall|i: int| 0 <= i < nodes.len() ==> {
                    let node = #[trigger] nodes@[i];
                    &&& node.name == ps[i].name
                    &&& node.path == ps[i].path
                    &&& key_sorted(node.weeks@)
                    &&& node.weeks@.to_set() == ps[i].weeks@.to_set().map(|w: Week| index_in(weeks@, w) as u16)
                    &&& key_sorted(node.tags@)
                    &&& node.tags@.to_set() == ps[i].tags@.map_values(|e: String| e@).to_set().map(
                        |t: Seq<char>| index_in(tag_chars@.map_values(|e: Vec<char>| e@), t) as u16,
                    )
                    &&& node.neighbors@ == adj[i]
                    &&& node.component == comps@[i]
                },
            decreases rev.len(),
        {
            let node = rev.pop().unwrap();
            nodes.push(node);
        }
        let tags = to_strings(tag_chars);
        let g = Graph { nodes, edges, weeks, tags, by_name, dangling_links: dangling };
        proof {
            assert(g.adjacency() =~= adj);
            assert forall|i: int, k: int|
                0 <= i < g.nodes.len() && 0 <= k < g.nodes@[i].weeks.len() implies (
                #[trigger] g.nodes@[i].weeks@[k]) < g.weeks.len() by {
                let x = g.nodes@[i].weeks@[k];
                assert(g.nodes@[i].weeks@.to_set().contains(x));
                let w = choose|w: Week| ps[i].weeks@.to_set().contains(w) && index_in(g.weeks@, w) as u16 == x;
                assert(week_set(ps).contains(w));
                assert(g.weeks@.to_set().contains(w));
                let q = index_in(g.weeks@, w);
                assert(0 <= q < g.weeks.len());
            }
            assert forall|i: int, k: int|
                0 <= i < g.nodes.len() && 0 <= k < g.nodes@[i].neighbors.len() implies (
                #[trigger] g.nodes@[i].neighbors@[k]) < g.nodes.len() by {
                assert(adj[i][k] < adj.len());
            }
            assert forall|i: int| 0 <= i < g.nodes.len() implies (#[trigger] g.nodes@[i].neighbors@).no_duplicates() by {
                lemma_nbrs_no_dup(g.edges@, g.edges.len() as int, i as u32);
            }
        }
        g
    }
}

impl Default for Graph {
    /// The empty graph (what is shown when the library cannot be read).
    fn default() -> (g: Graph)
        ensures
            g.nodes.len() == 0,
            g.edges.len() == 0,
            g.weeks.len() == 0,
            g.tags.len() == 0,
            g.dangling_links == 0,
            g.name_map() == Map::<Seq<char>, u32>::empty(),
    {
        Graph::empty()
    }
}

// ------------------------------------------------------------------ building

fn build_name_index(ps: &Vec<Parsed>) -> (m: StringHashMap<u32>)
    requires
        ps.len() <= u32::MAX,
    ensures
        m@ == name_index(ps@),
{
    let mut m: StringHashMap<u32> = StringHashMap::new();
    let mut i = 0usize;
    while i < ps.len()
        invariant
            i <= ps.len() <= u32::MAX,
            m@ == name_index_upto(ps@, i as int),
        decreases ps.len() - i,
    {
        let key = to_lowercase(ps[i].name.as_str());
        if !m.contains_key(key.as_str()) {
            m.insert(key, i as u32);
        }
        i = i + 1;
    }
    m
}

fn collect_weeks(ps: &Vec<Parsed>) -> (out: Vec<Week>)
    ensures
        key_sorted(out@),
        out@.to_set() == week_set(ps@),
{
    let mut out: Vec<Week> = Vec::new();
    let mut i = 0usize;
    while i < ps.len()
        invariant
            i <= ps.len(),
            key_sorted(out@),
            out@.to_set() == Set::new(
                |w: Week| exists|j: int| 0 <= j < i && ps@[j].weeks@.contains(w),
            ),
        decreases ps.len() - i,
    {
        let ws = &ps[i].weeks;
        let mut k = 0usize;
        while k < ws.len()
            invariant
                i < ps.len(),
                k <= ws.len(),
                ws == &ps@[i as int].weeks,
                key_sorted(out@),
                out@.to_set() == Set::new(
                    |w: Week|
                        (exists|j: int| 0 <= j < i && ps@[j].weeks@.contains(w)) || ws@.take(
                            k as int,
                        ).contains(w),
                ),
            decreases ws.len() - k,
        {
            insert_unique(&mut out, ws[k]);
            k = k + 1;
            assert(out@.to_set() =~= Set::new(
                |w: Week|
                    (exists|j: int| 0 <= j < i && ps@[j].weeks@.contains(w)) || ws@.take(
                        k as int,
                    ).contains(w),
            )) by {
                lemma_take_contains(ws@, k as int);
            }
        }
        i = i + 1;
        assert(out@.to_set() =~= Set::new(
            |w: Week| exists|j: int| 0 <= j < i && ps@[j].weeks@.contains(w),
        )) by {
            assert(ws@.take(ws.len() as int) =~= ws@);
        }
    }
    assert(out@.to_set() =~= week_set(ps@));
    out
}


/// Tags of the notes before `n`.
pub open spec fn tags_before(ps: Seq<Parsed>, n: int) -> Set<Seq<char>> {
    Set::new(
        |t: Seq<char>|
            exists|j: int, m: int|
                0 <= j < n && j < ps.len() && 0 <= m < ps[j].tags.len() && (#[trigger] ps[j].tags@[m])@ == t,
    )
}

fn collect_tags(ps: &Vec<Parsed>) -> (out: Vec<Vec<char>>)
    ensures
        strictly_sorted_strs(out@.map_values(|e: Vec<char>| e@)),
        out@.map_values(|e: Vec<char>| e@).to_set() == tag_set(ps@),
{
    let mut out: Vec<Vec<char>> = Vec::new();
    let mut i = 0usize;
    assert(out@.map_values(|e: Vec<char>| e@).to_set() =~= tags_before(ps@, 0));
    while i < ps.len()
        invariant
            i <= ps.len(),
            strictly_sorted_strs(out@.map_values(|e: Vec<char>| e@)),
            out@.map_values(|e: Vec<char>| e@).to_set() == tags_before(ps@, i as int),
        decreases ps.len() - i,
    {
        let ts = &ps[i].tags;
        let ghost tv = ts@.map_values(|e: String| e@);
        let mut k = 0usize;
        assert(tags_before(ps@, i as int).union(tv.take(0).to_set()) =~= tags_before(ps@, i as int));
        while k < ts.len()
            invariant
                i < ps.len(),
                k <= ts.len(),
                ts == &ps@[i as int].tags,
                tv == ts@.map_values(|e: String| e@),
                strictly_sorted_strs(out@.map_values(|e: Vec<char>| e@)),
                out@.map_values(|e: Vec<char>| e@).to_set() == tags_before(ps@, i as int).union(
                    tv.take(k as int).to_set(),
                ),
            decreases ts.len() - k,
        {
            let cs = chars_of(ts[k].as_str());
            insert_unique_str(&mut out, cs);
            k = k + 1;
            proof {
                lemma_take_contains(tv, k as int);
                assert(tv.take(k as int).to_set() =~= tv.take(k - 1).to_set().insert(tv[k - 1]));
            }
            assert(out@.map_values(|e: Vec<char>| e@).to_set() =~= tags_before(ps@, i as int).union(
                tv.take(k as int).to_set(),
            ));
        }
        assert(tv.take(ts.len() as int) =~= tv);
        i = i + 1;
        assert forall|t: Seq<char>| tags_before(ps@, i as int).contains(t) <==> (tags_before(
            ps@,
            i - 1,
        ).contains(t) || tv.to_set().contains(t)) by {
            if tags_before(ps@, i as int).contains(t) {
                let (j, m) = choose|j: int, m: int|
                    0 <= j < i && j < ps@.len() && 0 <= m < ps@[j].tags.len() && (
                    #[trigger] ps@[j].tags@[m])@ == t;
                if j == i - 1 {
                    assert(tv[m] == t);
                }
            }
            if tv.to_set().contains(t) {
                let m = choose|m: int| 0 <= m < tv.len() && tv[m] == t;
                assert(ps@[i - 1].tags@[m]@ == t);
            }
        }
        assert(out@.map_values(|e: Vec<char>| e@).to_set() =~= tags_before(ps@, i as int));
    }
    assert(tags_before(ps@, i as int) =~= tag_set(ps@));
    out
}

/// Position of `x` in a strictly sorted list of strings that holds it.
fn position_of_str(v: &Vec<Vec<char>>, x: &Vec<char>) -> (r: usize)
    requires
        strictly_sorted_strs(v@.map_values(|e: Vec<char>| e@)),
        v@.map_values(|e: Vec<char>| e@).contains(x@),
    ensures
        r < v.len(),
        v@[r as int]@ == x@,
{
    let ghost sv = v@.map_values(|e: Vec<char>| e@);
    let mut lo = 0usize;
    let mut hi = v.len();
    while lo < hi
        invariant
            lo <= hi <= v.len(),
            sv == v@.map_values(|e: Vec<char>| e@),
            strictly_sorted_strs(sv),
            sv.contains(x@),
            forall|i: int| 0 <= i < sv.len() && sv[i] == x@ ==> lo <= i < hi,
        decreases hi - lo,
    {
        let mid = lo + (hi - lo) / 2;
        if chars_lt(&v[mid], x) {
            proof {
                assert forall|i: int| 0 <= i < sv.len() && sv[i] == x@ implies mid < i by {
                    if i < mid {
                        lemma_str_lt_transitive(sv[i], sv[mid as int], x@);
                        lemma_str_lt_irreflexive(x@);
                    } else if i == mid {
                        lemma_str_lt_irreflexive(x@);
                    }
                }
            }
            lo = mid + 1;
        } else if chars_lt(x, &v[mid]) {
            proof {
                assert forall|i: int| 0 <= i < sv.len() && sv[i] == x@ implies i < mid by {
                    if i > mid {
                        lemma_str_lt_transitive(x@, sv[mid as int], sv[i]);
                        lemma_str_lt_irreflexive(x@);
                    } else if i == mid {
                        lemma_str_lt_irreflexive(x@);
                    }
                }
            }
            hi = mid;
        } else {
            proof {
                lemma_str_lt_total(sv[mid as int], x@);
            }
            return mid;
        }
    }
    proof {
        let i = choose|i: int| 0 <= i < sv.len() && sv[i] == x@;
        assert(lo <= i < hi);
    }
    0
}

/// Indices (as `u16`) into `global` of the weeks of one note.
pub(crate) fn week_indices(global: &Vec<Week>, ws: &Vec<Week>) -> (out: Vec<u16>)
    requires
        key_sorted(global@),
        forall|k: int| 0 <= k < ws.len() ==> global@.contains(#[trigger] ws@[k]),
    ensures
        key_sorted(out@),
        out@.to_set() == ws@.to_set().map(|w: Week| index_in(global@, w) as u16),
{
    let mut out: Vec<u16> = Vec::new();
    let mut k = 0usize;
    while k < ws.len()
        invariant
            k <= ws.len(),
            key_sorted(global@),
            forall|m: int| 0 <= m < ws.len() ==> global@.contains(#[trigger] ws@[m]),
            key_sorted(out@),
            out@.to_set() == ws@.take(k as int).to_set().map(
                |w: Week| index_in(global@, w) as u16,
            ),
        decreases ws.len() - k,
    {
        let p = position_of(global, &ws[k]);
        proof {
            unique_index(global@, p as int);
        }
        insert_unique(&mut out, p as u16);
        k = k + 1;
        proof {
            lemma_take_contains(ws@, k as int);
            assert(ws@.take(k as int).to_set() =~= ws@.take(k - 1).to_set().insert(ws@[k - 1]));
            lemma_map_insert(ws@.take(k - 1).to_set(), ws@[k - 1], |w: Week| index_in(global@, w) as u16);
            assert(out@.to_set() =~= ws@.take(k as int).to_set().map(
                |w: Week| index_in(global@, w) as u16,
            ));
        }
    }
    assert(ws@.take(ws.len() as int) =~= ws@);
    out
}

/// In a key-sorted sequence, the element at `p` sits at `index_in` of itself.
proof fn unique_index<T: Keyed>(v: Seq<T>, p: int)
    requires
        key_sorted(v),
        0 <= p < v.len(),
    ensures
        index_in(v, v[p]) == p,
{
    let q = index_in(v, v[p]);
    assert(0 <= q < v.len() && v[q] == v[p]);
    if q < p {
        assert(v[q].key() < v[p].key());
    } else if q > p {
        assert(v[p].key() < v[q].key());
    }
}

/// Indices (as `u16`) into `global` of the tags of one note.
fn tag_indices(global: &Vec<Vec<char>>, ts: &Vec<String>) -> (out: Vec<u16>)
    requires
        strictly_sorted_strs(global@.map_values(|e: Vec<char>| e@)),
        forall|k: int| 0 <= k < ts.len() ==> global@.map_values(|e: Vec<char>| e@).contains(
            (#[trigger] ts@[k])@,
        ),
    ensures
        key_sorted(out@),
        out@.to_set() == ts@.map_values(|e: String| e@).to_set().map(
            |t: Seq<char>| index_in(global@.map_values(|e: Vec<char>| e@), t) as u16,
        ),
{
    let ghost gv = global@.map_values(|e: Vec<char>| e@);
    let ghost tv = ts@.map_values(|e: String| e@);
    let mut out: Vec<u16> = Vec::new();
    let mut k = 0usize;
    while k < ts.len()
        invariant
            k <= ts.len(),
            gv == global@.map_values(|e: Vec<char>| e@),
            tv == ts@.map_values(|e: String| e@),
            strictly_sorted_strs(gv),
            forall|m: int| 0 <= m < ts.len() ==> gv.contains((#[trigger] ts@[m])@),
            key_sorted(out@),
            out@.to_set() == tv.take(k as int).to_set().map(|t: Seq<char>| index_in(gv, t) as u16),
        decreases ts.len() - k,
    {
        let cs = chars_of(ts[k].as_str());
        let p = position_of_str(global, &cs);
        proof {
            let q = index_in(gv, gv[p as int]);
            assert(0 <= q < gv.len() && gv[q] == gv[p as int]);
            if q < p {
                assert(str_lt(gv[q], gv[p as int]));
                lemma_str_lt_irreflexive(gv[q]);
            } else if q > p {
                assert(str_lt(gv[p as int], gv[q]));
                lemma_str_lt_irreflexive(gv[q]);
            }
        }
        insert_unique(&mut out, p as u16);
        k = k + 1;
        proof {
            lemma_take_contains(tv, k as int);
            assert(tv.take(k as int).to_set() =~= tv.take(k - 1).to_set().insert(tv[k - 1]));
            lemma_map_insert(tv.take(k - 1).to_set(), tv[k - 1], |t: Seq<char>| index_in(gv, t) as u16);
            assert(out@.to_set() =~= tv.take(k as int).to_set().map(
                |t: Seq<char>| index_in(gv, t) as u16,
            ));
        }
    }
    assert(tv.take(ts.len() as int) =~= tv);
    out
}


proof fn lemma_dangling_bounds(ps: Seq<Parsed>, i: int, k: int)
    requires
        0 <= i < ps.len(),
        0 <= k <= ps[i].links.len(),
    ensures
        dangling_in(ps, i, k) <= k,
    decreases k,
{
    if k > 0 {
        lemma_dangling_bounds(ps, i, k - 1);
    }
}

proof fn lemma_dangling_upto_bound(ps: Seq<Parsed>, n: int)
    requires
        0 <= n <= ps.len(),
    ensures
        dangling_upto(ps, n) <= links_upto(ps, n),
    decreases n,
{
    if n > 0 {
        lemma_dangling_upto_bound(ps, n - 1);
        lemma_dangling_bounds(ps, n - 1, ps[n - 1].links.len() as int);
    }
}

proof fn lemma_links_upto_mono(ps: Seq<Parsed>, a: int, b: int)
    requires
        0 <= a <= b <= ps.len(),
    ensures
        links_upto(ps, a) <= links_upto(ps, b),
    decreases b,
{
    if a < b {
        lemma_links_upto_mono(ps, a, b - 1);
    }
}

/// Edges (sorted, each once) and the number of dangling links.
fn collect_edges(ps: &Vec<Parsed>, by_name: &StringHashMap<u32>) -> (out: (Vec<(u32, u32)>, usize))
    requires
        ps.len() <= u32::MAX,
        by_name@ == name_index(ps@),
        links_upto(ps@, ps.len() as int) <= usize::MAX,
    ensures
        key_sorted(out.0@),
        out.0@.to_set() == edge_set(ps@),
        out.1 == dangling_upto(ps@, ps.len() as int),
{
    let mut edges: Vec<(u32, u32)> = Vec::new();
    let mut dangling: usize = 0;
    let mut i = 0usize;
    assert(edges@.to_set() =~= edges_before(ps@, 0, 0));
    while i < ps.len()
        invariant
            i <= ps.len() <= u32::MAX,
            by_name@ == name_index(ps@),
            links_upto(ps@, ps.len() as int) <= usize::MAX,
            key_sorted(edges@),
            edges@.to_set() == edges_before(ps@, i as int, 0),
            dangling == dangling_upto(ps@, i as int),
        decreases ps.len() - i,
    {
        let links = &ps[i].links;
        let a = i as u32;
        let mut k = 0usize;
        proof {
            lemma_dangling_upto_bound(ps@, i as int);
            lemma_links_upto_mono(ps@, i + 1, ps.len() as int);
        }
        while k < links.len()
            invariant
                i < ps.len() <= u32::MAX,
                a == i,
                k <= links.len(),
                links == &ps@[i as int].links,
                by_name@ == name_index(ps@),
                links_upto(ps@, i + 1) <= usize::MAX,
                dangling_upto(ps@, i as int) <= links_upto(ps@, i as int),
                key_sorted(edges@),
                edges@.to_set() == edges_before(ps@, i as int, k as int),
                dangling == dangling_upto(ps@, i as int) + dangling_in(ps@, i as int, k as int),
            decreases links.len() - k,
        {
            let ghost l = links@[k as int]@;
            let key = to_lowercase(links[k].as_str());
            proof {
                lemma_dangling_bounds(ps@, i as int, k as int);
            }
            match by_name.get(key.as_str()) {
                Some(b) => {
                    let b = *b;
                    if b != a {
                        let e = if a < b {
                            (a, b)
                        } else {
                            (b, a)
                        };
                        assert(link_edge(ps@, i as int, l) == Some(e));
                        insert_unique(&mut edges, e);
                    }
                },
                None => {
                    dangling = dangling + 1;
                },
            }
            k = k + 1;
            assert(edges@.to_set() =~= edges_before(ps@, i as int, k as int)) by {
                assert forall|e: (u32, u32)| edges_before(ps@, i as int, k as int).contains(e) <==> (
                edges_before(ps@, i as int, k - 1).contains(e) || link_edge(ps@, i as int, l)
                    == Some(e)) by {
                    if edges_before(ps@, i as int, k as int).contains(e) {
                        let (x, y) = choose|x: int, y: int|
                            0 <= x < ps@.len() && 0 <= y < ps@[x].links.len() && (x < i || (x
                                == i && y < k)) && link_edge(ps@, x, ps@[x].links@[y]@) == Some(e);
                        if !(x == i && y == k - 1) {
                            assert(edges_before(ps@, i as int, k - 1).contains(e));
                        }
                    }
                }
            }
        }
        i = i + 1;
        assert(edges@.to_set() =~= edges_before(ps@, i as int, 0)) by {
            assert forall|e: (u32, u32)| edges_before(ps@, i as int, 0).contains(e)
                <==> edges_before(ps@, i - 1, links.len() as int).contains(e) by {
                if edges_before(ps@, i as int, 0).contains(e) {
                    let (x, y) = choose|x: int, y: int|
                        0 <= x < ps@.len() && 0 <= y < ps@[x].links.len() && (x < i || (x == i
                            && y < 0)) && link_edge(ps@, x, ps@[x].links@[y]@) == Some(e);
                    assert(edges_before(ps@, i - 1, links.len() as int).contains(e));
                }
                if edges_before(ps@, i - 1, links.len() as int).contains(e) {
                    let (x, y) = choose|x: int, y: int|
                        0 <= x < ps@.len() && 0 <= y < ps@[x].links.len() && (x < i - 1 || (x
                            == i - 1 && y < links.len())) && link_edge(ps@, x, ps@[x].links@[y]@)
                            == Some(e);
                    assert(edges_before(ps@, i as int, 0).contains(e));
                }
            }
        }
    }
    (edges, dangling)
}

/// The lower-case form of word `v`'s name, by which neighbours are listed.
pub open spec fn name_key(g: Graph, v: u32) -> Seq<char> {
    lowercase(g.nodes@[v as int].name@)
}

/// The neighbours of word `u` ordered by the lower-case form of their
/// names; neighbours whose names read the same stay in their order.
pub fn neighbors_by_name(g: &Graph, u: usize) -> (out: Vec<u32>)
    requires
        graph_wf(*g),
        u < g.nodes.len(),
    ensures
        out.len() == g.nodes@[u as int].neighbors.len(),
        out@.no_duplicates(),
        forall|v: u32| #[trigger] out@.contains(v) <==> g.nodes@[u as int].neighbors@.contains(v),
        forall|a: int, b: int|
            0 <= a < b < out.len() ==> !str_lt(name_key(*g, #[trigger] out@[b]), name_key(*g, #[trigger] out@[a])),
        forall|a: int, b: int|
            0 <= a < b < out.len() && name_key(*g, #[trigger] out@[a]) == name_key(*g, #[trigger] out@[b])
                ==> exists|i: int, j: int|
                0 <= i < j < g.nodes@[u as int].neighbors.len() && #[trigger] g.nodes@[u as int].neighbors@[i]
                    == out@[a] && #[trigger] g.nodes@[u as int].neighbors@[j] == out@[b],
{
    let nbrs = &g.nodes[u].neighbors;
    let ghost ns = nbrs@;
    let mut out: Vec<u32> = Vec::new();
    let mut keys: Vec<Vec<char>> = Vec::new();
    let ghost mut ps: Seq<int> = seq![];
    let mut i = 0usize;
    while i < nbrs.len()
        invariant
            ns == nbrs@,
            ns == g.nodes@[u as int].neighbors@,
            graph_wf(*g),
            u < g.nodes.len(),
            i <= ns.len(),
            out.len() == i,
            keys.len() == i,
            ps.len() == i,
            out@.no_duplicates(),
            forall|a: int| 0 <= a < i ==> 0 <= #[trigger] ps[a] < i && ns[ps[a]] == out@[a],
            forall|j: int| 0 <= j < i ==> #[trigger] out@.contains(ns[j]),
            forall|a: int| 0 <= a < i ==> (#[trigger] keys@[a])@ == name_key(*g, out@[a]),
            forall|a: int, b: int|
                0 <= a < b < i ==> !str_lt(name_key(*g, #[trigger] out@[b]), name_key(*g, #[trigger] out@[a])),
            forall|a: int, b: int|
                0 <= a < b < i && name_key(*g, #[trigger] out@[a]) == name_key(*g, #[trigger] out@[b]) ==> ps[a] < ps[b],
        decreases ns.len() - i,
    {
        let v = nbrs[i];
        assert(v < g.nodes.len());
        let lk = to_lowercase(g.nodes[v as usize].name.as_str());
        let kv = chars_of(lk.as_str());
        assert(kv@ == name_key(*g, v));
        let mut p = 0usize;
        while p < keys.len() && !chars_lt(&kv, &keys[p])
            invariant
                p <= keys.len(),
                keys.len() == out.len(),
                kv@ == name_key(*g, v),
                forall|a: int| 0 <= a < keys.len() ==> (#[trigger] keys@[a])@ == name_key(*g, out@[a]),
                forall|q: int| 0 <= q < p ==> !str_lt(kv@, name_key(*g, #[trigger] out@[q])),
            decreases keys.len() - p,
        {
            p = p + 1;
        }
        let ghost ov = out@;
        let ghost ok = keys@;
        let ghost op = ps;
        proof {
            assert forall|q: int| p <= q < i implies str_lt(kv@, name_key(*g, #[trigger] ov[q])) by {
                let kp = name_key(*g, ov[p as int]);
                let kq = name_key(*g, ov[q]);
                assert(str_lt(kv@, kp));
                if q > p {
                    assert(!str_lt(kq, kp));
                    lemma_str_lt_total(kp, kq);
                    if kp != kq {
                        lemma_str_lt_transitive(kv@, kp, kq);
                    }
                }
            }
            assert(!ov.contains(v)) by {
                if ov.contains(v) {
                    let a = choose|a: int| 0 <= a < ov.len() && ov[a] == v;
                    assert(ns[op[a]] == ns[i as int]);
                }
            }
        }
        out.insert(p, v);
        keys.insert(p, kv);
        proof {
            ps = op.insert(p as int, i as int);
            ov.insert_ensures(p as int, v);
            ok.insert_ensures(p as int, kv);
            op.insert_ensures(p as int, i as int);
            assert forall|a: int| 0 <= a < i + 1 implies 0 <= #[trigger] ps[a] < i + 1 && ns[ps[a]] == out@[a] by {
                if a > p {
                    assert(ps[a] == op[a - 1] && out@[a] == ov[a - 1]);
                }
            }
            assert forall|a: int| 0 <= a < i + 1 implies (#[trigger] keys@[a])@ == name_key(*g, out@[a]) by {
                if a > p {
                    assert(keys@[a] == ok[a - 1] && out@[a] == ov[a - 1]);
                }
            }
            assert forall|j: int| 0 <= j < i + 1 implies #[trigger] out@.contains(ns[j]) by {
                if j < i {
                    assert(ov.contains(ns[j]));
                    let a = choose|a: int| 0 <= a < ov.len() && ov[a] == ns[j];
                    if a < p {
                        assert(out@[a] == ns[j]);
                    } else {
                        assert(out@[a + 1] == ns[j]);
                    }
                } else {
                    assert(out@[p as int] == ns[j]);
                }
            }
            assert(out@.no_duplicates()) by {
                assert forall|a: int, b: int| 0 <= a < b < out.len() implies out@[a] != out@[b] by {
                    if a == p {
                        assert(ov.contains(out@[b])) by {
                            assert(out@[b] == ov[b - 1]);
                        }
                    } else if b == p {
                        assert(ov.contains(out@[a])) by {
                            assert(out@[a] == ov[a]);
                        }
                    } else {
                        let oa = if a < p { a } else { a - 1 };
                        let ob = if b < p { b } else { b - 1 };
                        assert(out@[a] == ov[oa] && out@[b] == ov[ob]);
                    }
                }
            }
            assert forall|a: int, b: int| 0 <= a < b < i + 1 implies !str_lt(
                name_key(*g, #[trigger] out@[b]),
                name_key(*g, #[trigger] out@[a]),
            ) && (name_key(*g, out@[a]) == name_key(*g, out@[b]) ==> ps[a] < ps[b]) by {
                let oa = if a < p { a } else { a - 1 };
                let ob = if b < p { b } else { b - 1 };
                if a == p {
                    assert(out@[b] == ov[ob]);
                    assert(str_lt(kv@, name_key(*g, ov[ob])));
                    let kb = name_key(*g, ov[ob]);
                    if str_lt(kb, kv@) {
                        lemma_str_lt_transitive(kb, kv@, kb);
                        lemma_str_lt_irreflexive(kb);
                    }
                    lemma_str_lt_irreflexive(kv@);
                } else if b == p {
                    assert(out@[a] == ov[oa]);
                    assert(!str_lt(kv@, name_key(*g, ov[oa])));
                    assert(op[oa] < i);
                } else {
                    assert(out@[a] == ov[oa] && out@[b] == ov[ob]);
                    assert(ps[a] == op[oa] && ps[b] == op[ob]);
                }
            }
        }
        i = i + 1;
    }
    proof {
        assert forall|v: u32| #[trigger] out@.contains(v) <==> ns.contains(v) by {
            if out@.contains(v) {
                let a = choose|a: int| 0 <= a < out.len() && out@[a] == v;
                assert(ns[ps[a]] == v);
            }
            if ns.contains(v) {
                let j = choose|j: int| 0 <= j < ns.len() && ns[j] == v;
                assert(out@.contains(ns[j]));
            }
        }
        assert forall|a: int, b: int|
            0 <= a < b < out.len() && name_key(*g, #[trigger] out@[a]) == name_key(*g, #[trigger] out@[b])
                implies exists|i: int, j: int|
                0 <= i < j < ns.len() && #[trigger] ns[i] == out@[a] && #[trigger] ns[j] == out@[b] by {
            assert(ps[a] < ps[b]);
            assert(ns[ps[a]] == out@[a] && ns[ps[b]] == out@[b]);
        }
    }
    out
}

/// For each node `x < n`, the other ends of its edges, in edge order.
pub fn neighbor_lists(n: usize, edges: &Vec<(u32, u32)>) -> (out: Vec<Vec<u32>>)
    requires
        n <= u32::MAX,
        forall|k: int| 0 <= k < edges.len() ==> (#[trigger] edges@[k]).0 < edges@[k].1 < n,
    ensures
        out.len() == n,
        forall|x: int| 0 <= x < n ==> (#[trigger] out@[x])@ == nbrs_upto(edges@, edges.len() as int, x as u32),
{
    let mut out: Vec<Vec<u32>> = Vec::new();
    let mut x = 0usize;
    while x < n
        invariant
            x <= n,
            out.len() == x,
            forall|y: int| 0 <= y < x ==> (#[trigger] out@[y])@ == Seq::<u32>::empty(),
        decreases n - x,
    {
        out.push(Vec::new());
        x = x + 1;
    }
    let mut k = 0usize;
    while k < edges.len()
        invariant
            k <= edges.len(),
            out.len() == n,
            n <= u32::MAX,
            forall|m: int| 0 <= m < edges.len() ==> (#[trigger] edges@[m]).0 < edges@[m].1 < n,
            forall|y: int| 0 <= y < n ==> (#[trigger] out@[y])@ == nbrs_upto(edges@, k as int, y as u32),
        decreases edges.len() - k,
    {
        let (a, b) = edges[k];
        let ghost before = out@;
        out[a as usize].push(b);
        out[b as usize].push(a);
        k = k + 1;
        assert forall|y: int| 0 <= y < n implies (#[trigger] out@[y])@ == nbrs_upto(edges@, k as int, y as u32) by {
            assert(edges@[k - 1] == (a, b));
            if y != a && y != b {
                assert(out@[y] == before[y]);
            } else if y == a {
                assert(out@[y]@ == before[y]@.push(b));
            } else {
                assert(out@[y]@ == before[y]@.push(a));
            }
        }
    }
    out
}

pub proof fn lemma_map_insert<A, B>(s: Set<A>, x: A, f: spec_fn(A) -> B)
    ensures
        s.insert(x).map(f) == s.map(f).insert(f(x)),
{
    assert forall|y: B| #[trigger] s.insert(x).map(f).contains(y) <==> s.map(f).insert(f(x)).contains(y) by {
        if s.insert(x).map(f).contains(y) {
            let a = choose|a: A| s.insert(x).contains(a) && f(a) == y;
            if a != x {
                assert(s.contains(a));
            }
        }
        if s.map(f).contains(y) {
            let a = choose|a: A| s.contains(a) && f(a) == y;
            assert(s.insert(x).contains(a));
        }
        if y == f(x) {
            assert(s.insert(x).contains(x));
        }
    }
    assert(s.insert(x).map(f) =~= s.map(f).insert(f(x)));
}

pub proof fn lemma_take_contains<T>(s: Seq<T>, k: int)
    requires
        0 < k <= s.len(),
    ensures
        forall|w: T| #[trigger] s.take(k).contains(w) <==> (s.take(k - 1).contains(w) || w == s[k - 1]),
{
    assert(s.take(k) =~= s.take(k - 1).push(s[k - 1]));
    assert forall|w: T| #[trigger] s.take(k).contains(w) <==> (s.take(k - 1).contains(w) || w == s[k - 1]) by {
        let t = s.take(k - 1);
        if s.take(k).contains(w) {
            let x = choose|x: int| 0 <= x < k && #[trigger] s.take(k)[x] == w;
            if x < k - 1 {
                assert(t[x] == w);
            }
        }
        if t.contains(w) {
            let x = choose|x: int| 0 <= x < k - 1 && #[trigger] t[x] == w;
            assert(s.take(k)[x] == w);
        }
        if w == s[k - 1] {
            assert(s.take(k)[k - 1] == w);
        }
    }
}

// ------------------------------------------------------------------ statistics

/// Number of words edited in the week with index `w`.
pub open spec fn words_in_week(g: Graph, w: u16) -> nat {
    count_where(|i: int| g.nodes@[i].weeks@.contains(w), g.nodes.len() as int)
}

/// How many words were edited in each week of the library.
pub fn week_counts(g: &Graph) -> (out: Vec<usize>)
    ensures
        out.len() == g.weeks.len(),
        forall|w: int| 0 <= w < out.len() ==> #[trigger] out@[w] == words_in_week(*g, w as u16),
{
    let mut out: Vec<usize> = Vec::new();
    let mut w = 0usize;
    while w < g.weeks.len()
        invariant
            w <= g.weeks.len(),
            out.len() == w,
            forall|x: int| 0 <= x < w ==> #[trigger] out@[x] == words_in_week(*g, x as u16),
        decreases g.weeks.len() - w,
    {
        let wk = w as u16;
        let ghost f = |i: int| g.nodes@[i].weeks@.contains(wk);
        let mut count = 0usize;
        let mut i = 0usize;
        while i < g.nodes.len()
            invariant
                i <= g.nodes.len(),
                f == (|i: int| g.nodes@[i].weeks@.contains(wk)),
                count == count_where(f, i as int),
                count <= i,
            decreases g.nodes.len() - i,
        {
            let ws = &g.nodes[i].weeks;
            let mut hit = false;
            let mut k = 0usize;
            while k < ws.len()
                invariant
                    k <= ws.len(),
                    hit <==> exists|m: int| 0 <= m < k && #[trigger] ws@[m] == wk,
                decreases ws.len() - k,
            {
                if ws[k] == wk {
                    hit = true;
                }
                k = k + 1;
            }
            assert(hit == f(i as int));
            if hit {
                count = count + 1;
            }
            i = i + 1;
        }
        out.push(count);
        w = w + 1;
    }
    out
}

/// Number of words with component number `c`.
pub open spec fn words_in_component(g: Graph, c: u32) -> nat {
    count_where(|i: int| g.nodes@[i].component == c, g.nodes.len() as int)
}

/// The component numbers that occur.
pub open spec fn component_set(g: Graph) -> Set<u32> {
    Set::new(|c: u32| exists|i: int| 0 <= i < g.nodes.len() && #[trigger] g.nodes@[i].component == c)
}

/// Each component number that occurs, ascending, with its number of words.
pub fn component_counts(g: &Graph) -> (out: Vec<(u32, usize)>)
    ensures
        forall|a: int, b: int| 0 <= a < b < out.len() ==> (#[trigger] out@[a]).0 < (#[trigger] out@[b]).0,
        out@.map_values(|e: (u32, usize)| e.0).to_set() == component_set(*g),
        forall|k: int| 0 <= k < out.len() ==> #[trigger] out@[k].1 == words_in_component(*g, out@[k].0),
{
    let mut numbers: Vec<u32> = Vec::new();
    let mut i = 0usize;
    while i < g.nodes.len()
        invariant
            i <= g.nodes.len(),
            key_sorted(numbers@),
            numbers@.to_set() == Set::new(|c: u32| exists|j: int| 0 <= j < i && #[trigger] g.nodes@[j].component == c),
        decreases g.nodes.len() - i,
    {
        insert_unique(&mut numbers, g.nodes[i].component);
        i = i + 1;
        assert(numbers@.to_set() =~= Set::new(|c: u32| exists|j: int| 0 <= j < i && #[trigger] g.nodes@[j].component == c)) by {
            assert forall|c: u32| #[trigger] numbers@.to_set().contains(c) implies (exists|j: int| 0 <= j < i && #[trigger] g.nodes@[j].component == c) by {
                if c == g.nodes@[i - 1].component {
                    assert(g.nodes@[i - 1].component == c);
                }
            }
        }
    }
    let mut out: Vec<(u32, usize)> = Vec::new();
    let mut k = 0usize;
    while k < numbers.len()
        invariant
            k <= numbers.len(),
            out.len() == k,
            forall|x: int| 0 <= x < k ==> (#[trigger] out@[x]).0 == numbers@[x] && out@[x].1 == words_in_component(*g, numbers@[x]),
        decreases numbers.len() - k,
    {
        let c = numbers[k];
        let ghost f = |i: int| g.nodes@[i].component == c;
        let mut count = 0usize;
        let mut i = 0usize;
        while i < g.nodes.len()
            invariant
                i <= g.nodes.len(),
                f == (|i: int| g.nodes@[i].component == c),
                count == count_where(f, i as int),
                count <= i,
            decreases g.nodes.len() - i,
        {
            if g.nodes[i].component == c {
                count = count + 1;
            }
            i = i + 1;
        }
        out.push((c, count));
        k = k + 1;
    }
    assert(out@.map_values(|e: (u32, usize)| e.0) =~= numbers@);
    assert(numbers@.to_set() =~= component_set(*g));
    out
}

/// The values, largest first (insertion sort).
pub fn sorted_desc(v: Vec<usize>) -> (out: Vec<usize>)
    ensures
        forall|a: int, b: int| 0 <= a < b < out.len() ==> #[trigger] out@[a] >= #[trigger] out@[b],
        out@.to_multiset() == v@.to_multiset(),
{
    let mut out: Vec<usize> = Vec::new();
    let mut i = 0usize;
    proof {
        assert(v@.take(0) =~= Seq::<usize>::empty());
        assert(out@ =~= Seq::<usize>::empty());
    }
    while i < v.len()
        invariant
            i <= v.len(),
            forall|a: int, b: int| 0 <= a < b < out.len() ==> #[trigger] out@[a] >= #[trigger] out@[b],
            out@.to_multiset() == v@.take(i as int).to_multiset(),
        decreases v.len() - i,
    {
        let x = v[i];
        let mut k = 0usize;
        while k < out.len() && out[k] >= x
            invariant
                k <= out.len(),
                forall|a: int| 0 <= a < k ==> #[trigger] out@[a] >= x,
            decreases out.len() - k,
        {
            k = k + 1;
        }
        let ghost before = out@;
        out.insert(k, x);
        assert(out@ == before.insert(k as int, x));
        assert forall|a: int, b: int| 0 <= a < b < out.len() implies #[trigger] out@[a] >= #[trigger] out@[b] by {
            if b < k {
                assert(out@[a] == before[a] && out@[b] == before[b]);
            } else if b == k {
                assert(out@[a] == before[a]);
            } else if a == k {
                assert(out@[b] == before[b - 1]);
                if k < before.len() {
                    assert(before[k as int] < x);
                    if b - 1 > k {
                        assert(before[k as int] >= before[b - 1]);
                    }
                }
            } else if a < k {
                assert(out@[a] == before[a] && out@[b] == before[b - 1]);
                assert(before[a] >= x);
                if k < before.len() {
                    assert(before[k as int] < x);
                }
            } else {
                assert(out@[a] == before[a - 1] && out@[b] == before[b - 1]);
            }
        }
        assert(v@.take(i + 1) == v@.take(i as int).push(x));
        proof {
            vstd::seq_lib::to_multiset_insert(before, k as int, x);
            vstd::seq_lib::to_multiset_build(v@.take(i as int), x);
        }
        i = i + 1;
    }
    assert(v@.take(v.len() as int) == v@);
    out
}

// ------------------------------------------------------------------ laws

/// What the name index of the first `n` notes holds: each lower-case name
/// of those notes, filed under the first note that has it.
proof fn lemma_name_index_first(ps: Seq<Parsed>, n: int, i: int)
    requires
        0 <= i < n <= ps.len() <= u32::MAX,
    ensures
        name_index_upto(ps, n).dom().contains(lowercase(ps[i].name@)),
        ({
            let j = name_index_upto(ps, n)[lowercase(ps[i].name@)] as int;
            &&& 0 <= j <= i
            &&& lowercase(ps[j].name@) == lowercase(ps[i].name@)
            &&& forall|m: int| 0 <= m < j ==> lowercase(#[trigger] ps[m].name@) != lowercase(ps[i].name@)
        }),
    decreases n,
{
    let key = lowercase(ps[i].name@);
    let prev = name_index_upto(ps, n - 1);
    if i < n - 1 {
        lemma_name_index_first(ps, n - 1, i);
    } else {
        // i == n - 1
        if prev.dom().contains(key) {
            lemma_name_index_holds(ps, n - 1, key);
        } else {
            assert forall|m: int| 0 <= m < i implies lowercase(#[trigger] ps[m].name@) != key by {
                if lowercase(ps[m].name@) == key {
                    lemma_name_index_first(ps, n - 1, m);
                }
            }
        }
    }
}

/// A name in the index of the first `n` notes names its note, the first
/// with that name.
proof fn lemma_name_index_holds(ps: Seq<Parsed>, n: int, key: Seq<char>)
    requires
        0 <= n <= ps.len() <= u32::MAX,
        name_index_upto(ps, n).dom().contains(key),
    ensures
        ({
            let j = name_index_upto(ps, n)[key] as int;
            &&& 0 <= j < n
            &&& lowercase(ps[j].name@) == key
            &&& forall|m: int| 0 <= m < j ==> lowercase(#[trigger] ps[m].name@) != key
        }),
    decreases n,
{
    if n > 0 {
        let prev = name_index_upto(ps, n - 1);
        if prev.dom().contains(key) {
            lemma_name_index_holds(ps, n - 1, key);
        } else {
            assert forall|m: int| 0 <= m < n - 1 implies lowercase(#[trigger] ps[m].name@) != key by {
                if lowercase(ps[m].name@) == key {
                    lemma_name_index_first(ps, n - 1, m);
                }
            }
        }
    }
}

/// Every word is found by its own name; when several notes share a name
/// (ignoring case), the name finds the first of them.
pub proof fn lemma_find_by_name(g: Graph, ps: Seq<Parsed>, i: int)
    requires
        graph_of(g, ps),
        graph_wf(g),
        0 <= i < ps.len(),
    ensures
        lookup(g, ps[i].name@) is Some,
        ({
            let j = lookup(g, ps[i].name@)->0 as int;
            &&& j <= i
            &&& lowercase(ps[j].name@) == lowercase(ps[i].name@)
            &&& forall|m: int| 0 <= m < j ==> lowercase(#[trigger] ps[m].name@) != lowercase(ps[i].name@)
        }),
{
    lemma_name_index_first(ps, ps.len() as int, i);
}

/// Case does not matter when looking a word up: names with the same
/// lower-case form find the same word.
pub proof fn lemma_find_ignores_case(g: Graph, a: Seq<char>, b: Seq<char>)
    requires
        lowercase(a) == lowercase(b),
    ensures
        lookup(g, a) == lookup(g, b),
{
}

/// A link from one note to another joins the two words both ways.
pub proof fn lemma_link_joins(g: Graph, ps: Seq<Parsed>, i: int, k: int)
    requires
        graph_of(g, ps),
        graph_wf(g),
        0 <= i < ps.len(),
        0 <= k < ps[i].links.len(),
        resolve(ps, ps[i].links@[k]@) is Some,
        resolve(ps, ps[i].links@[k]@)->0 != i,
    ensures
        ({
            let b = resolve(ps, ps[i].links@[k]@)->0;
            &&& g.nodes@[i].neighbors@.contains(b)
            &&& g.nodes@[b as int].neighbors@.contains(i as u32)
        }),
{
    let link = ps[i].links@[k]@;
    let b = resolve(ps, link)->0;
    lemma_name_index_bound(ps, ps.len() as int);
    let e = link_edge(ps, i, link)->0;
    assert(edge_set(ps).contains(e));
    assert(g.edges@.to_set().contains(e));
    let j = choose|j: int| 0 <= j < g.edges.len() && g.edges@[j] == e;
    lemma_nbrs_contains(g.edges@, g.edges.len() as int, i as u32, b);
    lemma_nbrs_contains(g.edges@, g.edges.len() as int, b, i as u32);
    assert(g.nodes@[i].neighbors@ == nbrs_upto(g.edges@, g.edges.len() as int, i as u32));
    assert(g.nodes@[b as int].neighbors@ == nbrs_upto(g.edges@, g.edges.len() as int, b));
}

/// Links are undirected: `v` is a neighbour of `u` exactly when `u` is a
/// neighbour of `v`.
pub proof fn lemma_neighbors_symmetric(g: Graph, ps: Seq<Parsed>, u: int, v: int)
    requires
        graph_of(g, ps),
        graph_wf(g),
        0 <= u < ps.len(),
        0 <= v < ps.len(),
    ensures
        g.nodes@[u].neighbors@.contains(v as u32) <==> g.nodes@[v].neighbors@.contains(u as u32),
{
    lemma_nbrs_contains(g.edges@, g.edges.len() as int, u as u32, v as u32);
    lemma_nbrs_contains(g.edges@, g.edges.len() as int, v as u32, u as u32);
    assert(g.nodes@[u].neighbors@ == nbrs_upto(g.edges@, g.edges.len() as int, u as u32));
    assert(g.nodes@[v].neighbors@ == nbrs_upto(g.edges@, g.edges.len() as int, v as u32));
}

/// The number of neighbours of the first `k` words, added up.
pub open spec fn degree_sum(g: Graph, k: int) -> int
    decreases k,
{
    if k <= 0 {
        0
    } else {
        degree_sum(g, k - 1) + g.nodes@[k - 1].neighbors.len()
    }
}

/// The neighbour counts of nodes `0..m` from the first `n` edges, added up.
spec fn nbrs_count_sum(edges: Seq<(u32, u32)>, n: int, m: int) -> int
    decreases m,
{
    if m <= 0 {
        0
    } else {
        nbrs_count_sum(edges, n, m - 1) + nbrs_upto(edges, n, (m - 1) as u32).len()
    }
}

/// One more edge `(a, b)`, `a != b`, adds one neighbour each to `a` and `b`.
proof fn lemma_count_sum_step(edges: Seq<(u32, u32)>, n: int, m: int)
    requires
        0 < n <= edges.len(),
        0 <= m <= u32::MAX + 1,
        edges[n - 1].0 != edges[n - 1].1,
    ensures
        nbrs_count_sum(edges, n, m) == nbrs_count_sum(edges, n - 1, m) + (if edges[n - 1].0 < m {
            1int
        } else {
            0int
        }) + (if edges[n - 1].1 < m {
            1int
        } else {
            0int
        }),
    decreases m,
{
    if m > 0 {
        lemma_count_sum_step(edges, n, m - 1);
    }
}

/// Edges between two different nodes below `m` give every node below `m`
/// neighbours that add up to twice their number.
proof fn lemma_count_sum_edges(edges: Seq<(u32, u32)>, n: int, m: int)
    requires
        0 <= n <= edges.len(),
        0 <= m <= u32::MAX + 1,
        forall|j: int| 0 <= j < n ==> (#[trigger] edges[j]).0 < edges[j].1 < m,
    ensures
        nbrs_count_sum(edges, n, m) == 2 * n,
    decreases n,
{
    if n == 0 {
        lemma_count_sum_zero(edges, m);
    } else {
        lemma_count_sum_edges(edges, n - 1, m);
        assert(edges[n - 1].0 < edges[n - 1].1 < m);
        lemma_count_sum_step(edges, n, m);
    }
}

proof fn lemma_count_sum_zero(edges: Seq<(u32, u32)>, m: int)
    ensures
        nbrs_count_sum(edges, 0, m) == 0,
    decreases m,
{
    if m > 0 {
        lemma_count_sum_zero(edges, m - 1);
    }
}

/// Each word's neighbours counted, the sum is the edges' count.
proof fn lemma_degree_sum_is_count_sum(g: Graph, ps: Seq<Parsed>, k: int)
    requires
        graph_of(g, ps),
        0 <= k <= g.nodes.len(),
    ensures
        degree_sum(g, k) == nbrs_count_sum(g.edges@, g.edges.len() as int, k),
    decreases k,
{
    if k > 0 {
        lemma_degree_sum_is_count_sum(g, ps, k - 1);
        assert(g.nodes@[k - 1].neighbors@ == nbrs_upto(g.edges@, g.edges.len() as int, (k - 1) as u32));
    }
}

/// Every link joins two words: the words' neighbour counts add up to twice
/// the number of edges.
pub proof fn lemma_degree_sum(g: Graph, ps: Seq<Parsed>)
    requires
        graph_of(g, ps),
        graph_wf(g),
    ensures
        degree_sum(g, g.nodes.len() as int) == 2 * g.edges.len(),
{
    lemma_name_index_bound(ps, ps.len() as int);
    assert forall|j: int| 0 <= j < g.edges.len() implies (#[trigger] g.edges@[j]).0 < g.edges@[j].1
        < g.nodes.len() by {
        let e = g.edges@[j];
        assert(g.edges@.to_set().contains(e));
        assert(edge_set(ps).contains(e));
        let (i, k) = choose|i: int, k: int|
            0 <= i < ps.len() && 0 <= k < ps[i].links.len() && (i < ps.len() || (i == ps.len() && k < 0))
                && link_edge(ps, i, ps[i].links@[k]@) == Some(e);
        let b = resolve(ps, ps[i].links@[k]@)->0;
        assert(name_index(ps).dom().contains(lowercase(ps[i].links@[k]@)));
    }
    lemma_count_sum_edges(g.edges@, g.edges.len() as int, g.nodes.len() as int);
    lemma_degree_sum_is_count_sum(g, ps, g.nodes.len() as int);
}

/// A word's week and tag indices lead back to the note's own weeks and tags:
/// the library's weeks at the word's week indices are exactly the weeks the
/// note names, and likewise for tags. (Indices are 16-bit, so this holds
/// while the library has at most 65536 weeks and 65536 tags.)
pub proof fn lemma_indices_lead_back(g: Graph, ps: Seq<Parsed>, i: int)
    requires
        graph_of(g, ps),
        graph_wf(g),
        0 <= i < ps.len(),
        g.weeks.len() <= 0x10000,
        g.tags.len() <= 0x10000,
    ensures
        g.nodes@[i].weeks@.map_values(|w: u16| g.weeks@[w as int]).to_set() == ps[i].weeks@.to_set(),
        g.nodes@[i].tags@.map_values(|t: u16| g.tags@[t as int]@).to_set() == ps[i].tags@.map_values(
            |e: String| e@,
        ).to_set(),
{
    let node = g.nodes@[i];
    let gw = g.weeks@;
    let gt = g.tags@.map_values(|e: String| e@);
    let fw = |w: Week| index_in(gw, w) as u16;
    let ft = |t: Seq<char>| index_in(gt, t) as u16;
    let pt = ps[i].tags@.map_values(|e: String| e@);
    assert(node.weeks@.to_set() == ps[i].weeks@.to_set().map(fw));
    assert(node.tags@.to_set() == pt.to_set().map(ft));
    // weeks
    let lw = node.weeks@.map_values(|w: u16| gw[w as int]);
    let lt = node.tags@.map_values(|t: u16| g.tags@[t as int]@);
    assert forall|x: Week| #[trigger] lw.to_set().contains(x) <==> ps[i].weeks@.to_set().contains(x) by {
        let lhs = lw;
        if lhs.to_set().contains(x) {
            let a = choose|a: int| 0 <= a < lhs.len() && lhs[a] == x;
            let w = node.weeks@[a];
            assert(node.weeks@.to_set().contains(w));
            let y = choose|y: Week| ps[i].weeks@.to_set().contains(y) && w == fw(y);
            assert(week_set(ps).contains(y));
            assert(gw.to_set().contains(y));
            let k = index_in(gw, y);
            assert(0 <= k < gw.len() && gw[k] == y);
            assert(w as int == k);
        }
        if ps[i].weeks@.to_set().contains(x) {
            assert(week_set(ps).contains(x));
            assert(gw.to_set().contains(x));
            let k = index_in(gw, x);
            assert(0 <= k < gw.len() && gw[k] == x);
            assert(ps[i].weeks@.to_set().map(fw).contains(fw(x)));
            assert(node.weeks@.to_set().contains(k as u16));
            let a = choose|a: int| 0 <= a < node.weeks.len() && node.weeks@[a] == k as u16;
            assert(lhs[a] == x);
        }
    }
    // tags
    assert forall|x: Seq<char>| #[trigger] lt.to_set().contains(x) <==> pt.to_set().contains(x) by {
        let lhs = lt;
        if lhs.to_set().contains(x) {
            let a = choose|a: int| 0 <= a < lhs.len() && lhs[a] == x;
            let w = node.tags@[a];
            assert(node.tags@.to_set().contains(w));
            let y = choose|y: Seq<char>| pt.to_set().contains(y) && w == ft(y);
            let b = choose|b: int| 0 <= b < pt.len() && pt[b] == y;
            assert(tag_set(ps).contains(y)) by {
                assert(ps[i].tags@[b]@ == y);
            }
            assert(gt.to_set().contains(y));
            let k = index_in(gt, y);
            assert(0 <= k < gt.len() && gt[k] == y);
            assert(w as int == k);
        }
        if pt.to_set().contains(x) {
            let b = choose|b: int| 0 <= b < pt.len() && pt[b] == x;
            assert(tag_set(ps).contains(x)) by {
                assert(ps[i].tags@[b]@ == x);
            }
            assert(gt.to_set().contains(x));
            let k = index_in(gt, x);
            assert(0 <= k < gt.len() && gt[k] == x);
            assert(pt.to_set().map(ft).contains(ft(x)));
            assert(node.tags@.to_set().contains(k as u16));
            let a = choose|a: int| 0 <= a < node.tags.len() && node.tags@[a] == k as u16;
            assert(lhs[a] == x);
        }
    }
    assert(lw.to_set() =~= ps[i].weeks@.to_set());
    assert(lt.to_set() =~= pt.to_set());
}

} // verus!
