//! The arrangement catalog and the graph walks that feed it: breadth-first
//! rings around a focus node, and longest-path layers over directed
//! relations, with every node of a cycle sent to one overflow layer.

use vstd::prelude::*;

use crate::text::{holds_string, index_of, str_eq, views};

verus! {

/// One arrangement this site offers, and how it is described in the picker.
#[derive(Clone, Copy, Debug)]
pub struct ArrangementSpec {
    pub id: &'static str,
    pub display_name: &'static str,
    pub description: &'static str,
}

/// Every arrangement the site knows about, offered or not, in picker order.
pub open spec fn catalog_entries() -> Seq<ArrangementSpec> {
    seq![
        ArrangementSpec {
            id: "graph_layout:radial",
            display_name: "Radial",
            description: "Neighborhood rings around the selected node.",
        },
        ArrangementSpec {
            id: "graph_layout:stack",
            display_name: "Stack",
            description: "Directed relations arranged into readable topology layers.",
        },
        ArrangementSpec {
            id: "graph_layout:grid",
            display_name: "Grid",
            description: "Row-major grid with configurable traversal.",
        },
        ArrangementSpec {
            id: "graph_layout:phyllotaxis",
            display_name: "Spiral",
            description: "Fibonacci-family spiral placement. Golden angle by default; configurable for other arm counts.",
        },
        ArrangementSpec {
            id: "graph_layout:timeline",
            display_name: "Timeline",
            description: "Repositories grouped by their last public push date.",
        },
        ArrangementSpec {
            id: "graph_layout:kanban",
            display_name: "Columns",
            description: "Repositories grouped by public project status.",
        },
        ArrangementSpec {
            id: "graph_layout:penrose",
            display_name: "Penrose",
            description: "Aperiodic tiling (P2 kite-dart or P3 rhombus) via Robinson subdivision.",
        },
        ArrangementSpec {
            id: "graph_layout:lsystem",
            display_name: "Fractal",
            description: "Turtle-walked Lindenmayer grammar (Hilbert, Koch, or Dragon).",
        },
        ArrangementSpec {
            id: "graph_layout:semantic_embedding",
            display_name: "Semantic Embedding",
            description: "Places nodes at host-precomputed 2D embeddings (UMAP / t-SNE / PCA supplied by the host's ML pipeline).",
        },
    ]
}

/// The catalog entry with the given id, the first one in catalog order.
pub open spec fn catalog_lookup(entries: Seq<ArrangementSpec>, id: Seq<char>) -> Option<ArrangementSpec>
    decreases entries.len(),
{
    if entries.len() == 0 {
        None
    } else if entries[0].id@ == id {
        Some(entries[0])
    } else {
        catalog_lookup(entries.drop_first(), id)
    }
}

/// Every arrangement the site knows about, offered or not.
pub fn catalog() -> (entries: Vec<ArrangementSpec>)
    ensures
        entries@ == catalog_entries(),
{
    let entries = vec![
        ArrangementSpec {
            id: "graph_layout:radial",
            display_name: "Radial",
            description: "Neighborhood rings around the selected node.",
        },
        ArrangementSpec {
            id: "graph_layout:stack",
            display_name: "Stack",
            description: "Directed relations arranged into readable topology layers.",
        },
        ArrangementSpec {
            id: "graph_layout:grid",
            display_name: "Grid",
            description: "Row-major grid with configurable traversal.",
        },
        ArrangementSpec {
            id: "graph_layout:phyllotaxis",
            display_name: "Spiral",
            description: "Fibonacci-family spiral placement. Golden angle by default; configurable for other arm counts.",
        },
        ArrangementSpec {
            id: "graph_layout:timeline",
            display_name: "Timeline",
            description: "Repositories grouped by their last public push date.",
        },
        ArrangementSpec {
            id: "graph_layout:kanban",
            display_name: "Columns",
            description: "Repositories grouped by public project status.",
        },
        ArrangementSpec {
            id: "graph_layout:penrose",
            display_name: "Penrose",
            description: "Aperiodic tiling (P2 kite-dart or P3 rhombus) via Robinson subdivision.",
        },
        ArrangementSpec {
            id: "graph_layout:lsystem",
            display_name: "Fractal",
            description: "Turtle-walked Lindenmayer grammar (Hilbert, Koch, or Dragon).",
        },
        ArrangementSpec {
            id: "graph_layout:semantic_embedding",
            display_name: "Semantic Embedding",
            description: "Places nodes at host-precomputed 2D embeddings (UMAP / t-SNE / PCA supplied by the host's ML pipeline).",
        },
    ];
    assert(entries@ =~= catalog_entries());
    entries
}

/// The arrangements the repository graph offers, in the order it offers them.
pub fn arrangement_order() -> (order: Vec<&'static str>)
    ensures
        order@ == seq![
            "graph_layout:radial",
            "graph_layout:stack",
            "graph_layout:grid",
            "graph_layout:phyllotaxis",
            "graph_layout:timeline",
            "graph_layout:kanban",
            "graph_layout:penrose",
            "graph_layout:lsystem",
        ],
{
    let order = vec![
        "graph_layout:radial",
        "graph_layout:stack",
        "graph_layout:grid",
        "graph_layout:phyllotaxis",
        "graph_layout:timeline",
        "graph_layout:kanban",
        "graph_layout:penrose",
        "graph_layout:lsystem",
    ];
    assert(order@ =~= seq![
        "graph_layout:radial",
        "graph_layout:stack",
        "graph_layout:grid",
        "graph_layout:phyllotaxis",
        "graph_layout:timeline",
        "graph_layout:kanban",
        "graph_layout:penrose",
        "graph_layout:lsystem",
    ]);
    order
}

/// The catalog entry for an arrangement id.
pub fn spec(id: &str) -> (found: Option<ArrangementSpec>)
    ensures
        found == catalog_lookup(catalog_entries(), id@),
{
    let entries = catalog();
    assert(entries@.subrange(0, entries.len() as int) =~= entries@);
    let mut i: usize = 0;
    while i < entries.len()
        invariant
            i <= entries.len(),
            entries@ == catalog_entries(),
            catalog_lookup(catalog_entries(), id@) == catalog_lookup(entries@.subrange(i as int, entries.len() as int), id@),
        decreases entries.len() - i,
    {
        let ghost rest = entries@.subrange(i as int, entries.len() as int);
        assert(rest.drop_first() =~= entries@.subrange(i + 1, entries.len() as int));
        assert(rest[0] == entries@[i as int]);
        if str_eq(entries[i].id, id) {
            return Some(entries[i]);
        }
        i = i + 1;
    }
    None
}

/// The edges as pairs of character sequences.
pub open spec fn edge_views(edges: Seq<(String, String)>) -> Seq<(Seq<char>, Seq<char>)> {
    edges.map_values(|e: (String, String)| (e.0@, e.1@))
}

/// No name occurs twice.
pub open spec fn distinct(names: Seq<Seq<char>>) -> bool {
    forall|i: int, j: int| 0 <= i < names.len() && 0 <= j < names.len() && i != j ==> names[i] != names[j]
}

/// Nodes `i` and `j` are distinct known nodes joined by some edge, in either
/// direction.
pub open spec fn linked(nodes: Seq<Seq<char>>, edges: Seq<(Seq<char>, Seq<char>)>, i: int, j: int) -> bool {
    &&& 0 <= i < nodes.len()
    &&& 0 <= j < nodes.len()
    &&& i != j
    &&& exists|k: int|
        0 <= k < edges.len() && #[trigger] joins(edges[k], nodes[i], nodes[j])
}

/// Edge `e` joins `a` and `b`, in either direction.
pub open spec fn joins(e: (Seq<char>, Seq<char>), a: Seq<char>, b: Seq<char>) -> bool {
    (e.0 == a && e.1 == b) || (e.0 == b && e.1 == a)
}

/// `p` is a walk from `f` to `v` along linked nodes.
pub open spec fn walk_to(
    nodes: Seq<Seq<char>>,
    edges: Seq<(Seq<char>, Seq<char>)>,
    p: Seq<int>,
    f: int,
    v: int,
) -> bool {
    &&& p.len() >= 1
    &&& p[0] == f
    &&& p[p.len() - 1] == v
    &&& forall|i: int| 0 <= i < p.len() - 1 ==> #[trigger] linked(nodes, edges, p[i], p[i + 1])
}

/// Node `v` is at most `k` undirected hops from node `f`.
pub open spec fn within_hops(
    nodes: Seq<Seq<char>>,
    edges: Seq<(Seq<char>, Seq<char>)>,
    f: int,
    v: int,
    k: nat,
) -> bool {
    exists|p: Seq<int>| #[trigger] walk_to(nodes, edges, p, f, v) && p.len() <= k + 1
}

/// `rings` gives each node its exact hop count from `f`, and nothing to a
/// node that no walk from `f` reaches.
pub open spec fn exact_rings(
    nodes: Seq<Seq<char>>,
    edges: Seq<(Seq<char>, Seq<char>)>,
    f: int,
    rings: Seq<Option<u32>>,
) -> bool {
    &&& rings.len() == nodes.len()
    &&& forall|v: int|
        0 <= v < nodes.len() ==> match #[trigger] rings[v] {
            Some(d) => within_hops(nodes, edges, f, v, d as nat) && forall|k: nat|
                k < d ==> !#[trigger] within_hops(nodes, edges, f, v, k),
            None => forall|k: nat| !#[trigger] within_hops(nodes, edges, f, v, k),
        }
}

/// Undirected adjacency lists over the known nodes, self-edges left out.
fn adjacency(node_ids: &Vec<String>, edges: &Vec<(String, String)>) -> (adj: Vec<Vec<usize>>)
    requires
        distinct(views(node_ids@)),
    ensures
        adj.len() == node_ids.len(),
        forall|i: int, j: usize|
            0 <= i < node_ids.len() ==> (#[trigger] adj@[i]@.contains(j) <==> linked(
                views(node_ids@),
                edge_views(edges@),
                i,
                j as int,
            )),
        forall|i: int, m: int|
            0 <= i < adj.len() && 0 <= m < adj@[i].len() ==> #[trigger] adj@[i]@[m] < node_ids.len(),
{
    let ghost nodes = views(node_ids@);
    let ghost ev = edge_views(edges@);
    let n = node_ids.len();
    let mut adj: Vec<Vec<usize>> = Vec::new();
    let mut i: usize = 0;
    while i < n
        invariant
            i <= n,
            n == node_ids.len(),
            adj.len() == i,
            forall|a: int| 0 <= a < i ==> (#[trigger] adj@[a]).len() == 0,
        decreases n - i,
    {
        adj.push(Vec::new());
        i = i + 1;
    }
    let mut k: usize = 0;
    while k < edges.len()
        invariant
            n == node_ids.len(),
            nodes == views(node_ids@),
            ev == edge_views(edges@),
            distinct(nodes),
            k <= edges.len(),
            adj.len() == n,
            forall|a: int, m: int|
                0 <= a < adj.len() && 0 <= m < adj@[a].len() ==> #[trigger] adj@[a]@[m] < n,
            forall|a: int, b: usize|
                0 <= a < n ==> (#[trigger] adj@[a]@.contains(b) <==> (b < n && a != b
                    && exists|q: int| 0 <= q < k && #[trigger] joins(ev[q], nodes[a], nodes[b as int]))),
        decreases edges.len() - k,
    {
        let s = index_of(node_ids, edges[k].0.as_str());
        let t = index_of(node_ids, edges[k].1.as_str());
        let ghost old_adj = adj@;
        assert(ev[k as int] == (edges@[k as int].0@, edges@[k as int].1@));
        match (s, t) {
            (Some(s), Some(t)) => {
                assert(nodes[s as int] == node_ids@[s as int]@);
                assert(nodes[t as int] == node_ids@[t as int]@);
                if s != t {
                    let mut row_s = adj[s].clone();
                    assert(row_s@ =~= old_adj[s as int]@);
                    row_s.push(t);
                    adj.set(s, row_s);
                    let ghost mid_adj = adj@;
                    let mut row_t = adj[t].clone();
                    assert(row_t@ =~= mid_adj[t as int]@);
                    row_t.push(s);
                    adj.set(t, row_t);
                    assert forall|a: int, b: usize|
                        0 <= a < n implies (#[trigger] adj@[a]@.contains(b) <==> (b < n && a != b
                        && exists|q: int|
                        0 <= q < k + 1 && #[trigger] joins(ev[q], nodes[a], nodes[b as int]))) by {
                        if b < n && joins(ev[k as int], nodes[a], nodes[b as int]) {
                            if a == s as int {
                                assert(nodes[b as int] == nodes[t as int] || nodes[b as int] == nodes[s as int]);
                            } else if a == t as int {
                                assert(nodes[b as int] == nodes[t as int] || nodes[b as int] == nodes[s as int]);
                            } else {
                                assert(nodes[a] == nodes[t as int] || nodes[a] == nodes[s as int]);
                            }
                        }
                        if adj@[a]@.contains(b) && !old_adj[a]@.contains(b) {
                            if a == s as int && b == t {
                                assert(joins(ev[k as int], nodes[a], nodes[b as int]));
                            } else if a == t as int && b == s {
                                assert(joins(ev[k as int], nodes[a], nodes[b as int]));
                            } else {
                                if a == s as int {
                                    assert(adj@[a]@ =~= old_adj[a]@.push(t));
                                } else if a == t as int {
                                    assert(adj@[a]@ =~= old_adj[a]@.push(s));
                                } else {
                                    assert(adj@[a] == old_adj[a]);
                                }
                            }
                        }
                        if old_adj[a]@.contains(b) {
                            let m = choose|m: int| 0 <= m < old_adj[a]@.len() && old_adj[a]@[m] == b;
                            if a == s as int {
                                assert(adj@[a]@ =~= old_adj[a]@.push(t));
                            } else if a == t as int {
                                assert(adj@[a]@ =~= old_adj[a]@.push(s));
                            }
                            assert(adj@[a]@[m] == b);
                        }
                        if b < n && a != b && joins(ev[k as int], nodes[a], nodes[b as int]) {
                            if a == s as int {
                                assert(adj@[a]@ =~= old_adj[a]@.push(t));
                                assert(adj@[a]@[adj@[a]@.len() - 1] == t);
                            } else if a == t as int {
                                assert(adj@[a]@ =~= old_adj[a]@.push(s));
                                assert(adj@[a]@[adj@[a]@.len() - 1] == s);
                            }
                        }
                        if exists|q: int| 0 <= q < k && #[trigger] joins(ev[q], nodes[a], nodes[b as int]) {
                            let q = choose|q: int| 0 <= q < k && #[trigger] joins(ev[q], nodes[a], nodes[b as int]);
                            assert(0 <= q < k + 1 && joins(ev[q], nodes[a], nodes[b as int]));
                        }
                        if exists|q: int| 0 <= q < k + 1 && #[trigger] joins(ev[q], nodes[a], nodes[b as int]) {
                            let q = choose|q: int| 0 <= q < k + 1 && #[trigger] joins(ev[q], nodes[a], nodes[b as int]);
                            if q < k {
                                assert(0 <= q < k && joins(ev[q], nodes[a], nodes[b as int]));
                            }
                        }
                    }
                } else {
                    assert forall|a: int, b: usize|
                        0 <= a < n implies (#[trigger] adj@[a]@.contains(b) <==> (b < n && a != b
                        && exists|q: int|
                        0 <= q < k + 1 && #[trigger] joins(ev[q], nodes[a], nodes[b as int]))) by {
                        if b < n && a != b && joins(ev[k as int], nodes[a], nodes[b as int]) {
                            assert(nodes[a] == nodes[s as int]);
                            assert(nodes[b as int] == nodes[s as int]);
                        }
                        if exists|q: int| 0 <= q < k && #[trigger] joins(ev[q], nodes[a], nodes[b as int]) {
                            let q = choose|q: int| 0 <= q < k && #[trigger] joins(ev[q], nodes[a], nodes[b as int]);
                            assert(0 <= q < k + 1 && joins(ev[q], nodes[a], nodes[b as int]));
                        }
                        if exists|q: int| 0 <= q < k + 1 && #[trigger] joins(ev[q], nodes[a], nodes[b as int]) {
                            let q = choose|q: int| 0 <= q < k + 1 && #[trigger] joins(ev[q], nodes[a], nodes[b as int]);
                            if q < k {
                                assert(0 <= q < k && joins(ev[q], nodes[a], nodes[b as int]));
                            }
                        }
                    }
                }
            },
            _ => {
                assert forall|a: int, b: usize|
                    0 <= a < n implies (#[trigger] adj@[a]@.contains(b) <==> (b < n && a != b
                    && exists|q: int|
                    0 <= q < k + 1 && #[trigger] joins(ev[q], nodes[a], nodes[b as int]))) by {
                    if b < n && a != b && joins(ev[k as int], nodes[a], nodes[b as int]) {
                        assert(nodes[a] == node_ids@[a]@);
                        assert(nodes[b as int] == node_ids@[b as int]@);
                    }
                    if exists|q: int| 0 <= q < k && #[trigger] joins(ev[q], nodes[a], nodes[b as int]) {
                        let q = choose|q: int| 0 <= q < k && #[trigger] joins(ev[q], nodes[a], nodes[b as int]);
                        assert(0 <= q < k + 1 && joins(ev[q], nodes[a], nodes[b as int]));
                    }
                    if exists|q: int| 0 <= q < k + 1 && #[trigger] joins(ev[q], nodes[a], nodes[b as int]) {
                        let q = choose|q: int| 0 <= q < k + 1 && #[trigger] joins(ev[q], nodes[a], nodes[b as int]);
                        if q < k {
                            assert(0 <= q < k && joins(ev[q], nodes[a], nodes[b as int]));
                        }
                    }
                }
            },
        }
        k = k + 1;
    }
    adj
}

/// The number of unset entries.
pub open spec fn count_none(s: Seq<Option<u32>>) -> nat
    decreases s.len(),
{
    if s.len() == 0 {
        0
    } else {
        count_none(s.drop_last()) + if s.last() is None { 1nat } else { 0nat }
    }
}

proof fn lemma_count_none_bound(s: Seq<Option<u32>>)
    ensures
        count_none(s) <= s.len(),
    decreases s.len(),
{
    if s.len() > 0 {
        lemma_count_none_bound(s.drop_last());
    }
}

proof fn lemma_count_none_all(s: Seq<Option<u32>>)
    requires
        forall|i: int| 0 <= i < s.len() ==> s[i] is None,
    ensures
        count_none(s) == s.len(),
    decreases s.len(),
{
    if s.len() > 0 {
        lemma_count_none_all(s.drop_last());
    }
}

proof fn lemma_count_none_set(s: Seq<Option<u32>>, i: int, x: u32)
    requires
        0 <= i < s.len(),
        s[i] is None,
    ensures
        count_none(s.update(i, Some(x))) + 1 == count_none(s),
    decreases s.len(),
{
    let t = s.update(i, Some(x));
    if i == s.len() - 1 {
        assert(t.drop_last() =~= s.drop_last());
    } else {
        assert(t.drop_last() =~= s.drop_last().update(i, Some(x)));
        lemma_count_none_set(s.drop_last(), i, x);
    }
}

/// A walk of `k + 1` hops extends one of `k` hops.
proof fn lemma_within_step(
    nodes: Seq<Seq<char>>,
    edges: Seq<(Seq<char>, Seq<char>)>,
    f: int,
    u: int,
    v: int,
    k: nat,
)
    requires
        within_hops(nodes, edges, f, u, k),
        linked(nodes, edges, u, v),
    ensures
        within_hops(nodes, edges, f, v, k + 1),
{
    let p = choose|p: Seq<int>| #[trigger] walk_to(nodes, edges, p, f, u) && p.len() <= k + 1;
    let q = p.push(v);
    assert forall|i: int| 0 <= i < q.len() - 1 implies #[trigger] linked(nodes, edges, q[i], q[i + 1]) by {
        if i < p.len() - 1 {
            assert(q[i] == p[i] && q[i + 1] == p[i + 1]);
        }
    }
    assert(walk_to(nodes, edges, q, f, v));
}

/// The start is within zero hops of itself.
proof fn lemma_within_zero(nodes: Seq<Seq<char>>, edges: Seq<(Seq<char>, Seq<char>)>, f: int)
    ensures
        within_hops(nodes, edges, f, f, 0),
{
    let p = seq![f];
    assert(walk_to(nodes, edges, p, f, f));
}

/// Breadth-first ring index from `focus`; the focus is ring zero.
///
/// The result is aligned with `node_ids`: a node that no walk from the focus
/// reaches gets `None`, so "outside the neighborhood" stays distinct from
/// "on a distant ring". When the focus is not a known node every entry is
/// `None`.
pub fn radial_rings(node_ids: &Vec<String>, edges: &Vec<(String, String)>, focus: &str) -> (rings:
    Vec<Option<u32>>)
    requires
        distinct(views(node_ids@)),
        node_ids.len() < u32::MAX,
    ensures
        rings.len() == node_ids.len(),
        forall|f: int|
            0 <= f < node_ids.len() && #[trigger] node_ids@[f]@ == focus@ ==> exact_rings(
                views(node_ids@),
                edge_views(edges@),
                f,
                rings@,
            ),
        (forall|f: int| 0 <= f < node_ids.len() ==> #[trigger] node_ids@[f]@ != focus@) ==> forall|
            v: int,
        |
            0 <= v < rings.len() ==> #[trigger] rings@[v] is None,
{
    let ghost nodes = views(node_ids@);
    let ghost ev = edge_views(edges@);
    let n = node_ids.len();
    let mut dist: Vec<Option<u32>> = Vec::new();
    let mut i: usize = 0;
    while i < n
        invariant
            i <= n,
            n == node_ids.len(),
            dist.len() == i,
            forall|a: int| 0 <= a < i ==> (#[trigger] dist@[a]) is None,
        decreases n - i,
    {
        dist.push(None);
        i = i + 1;
    }
    let f = match index_of(node_ids, focus) {
        Some(f) => f,
        None => {
            return dist;
        },
    };
    assert(nodes[f as int] == node_ids@[f as int]@);
    let adj = adjacency(node_ids, edges);
    proof {
        lemma_count_none_all(dist@);
        lemma_count_none_set(dist@, f as int, 0);
    }
    dist.set(f, Some(0));
    let mut queue: Vec<usize> = Vec::new();
    queue.push(f);
    let mut head: usize = 0;
    proof {
        lemma_within_zero(nodes, ev, f as int);
    }
    while head < queue.len()
        invariant
            n == node_ids.len(),
            n < u32::MAX,
            nodes == views(node_ids@),
            ev == edge_views(edges@),
            f < n,
            adj.len() == n,
            forall|a: int, b: usize|
                0 <= a < n ==> (#[trigger] adj@[a]@.contains(b) <==> linked(nodes, ev, a, b as int)),
            forall|a: int, m: int|
                0 <= a < adj.len() && 0 <= m < adj@[a].len() ==> #[trigger] adj@[a]@[m] < n,
            dist.len() == n,
            head <= queue.len(),
            queue.len() + count_none(dist@) == n,
            queue.len() >= 1,
            queue@[0] == f,
            dist@[f as int] == Some(0u32),
            forall|j: int| 0 <= j < queue.len() ==> (#[trigger] queue@[j]) < n,
            forall|j: int|
                0 <= j < queue.len() ==> ((#[trigger] dist@[queue@[j] as int]) is Some && dist@[queue@[j] as int]->0 <= j),
            forall|v: int|
                0 <= v < n && (#[trigger] dist@[v]) is Some ==> exists|j: int|
                    0 <= j < queue.len() && #[trigger] queue@[j] == v,
            forall|a: int, b: int|
                0 <= a <= b < queue.len() ==> (#[trigger] dist@[queue@[a] as int])->0 <= (
                #[trigger] dist@[queue@[b] as int])->0,
            head < queue.len() ==> dist@[queue@[queue.len() - 1] as int]->0 <= dist@[queue@[head as int] as int]->0 + 1,
            forall|j: int, v: int|
                0 <= j < head && #[trigger] linked(nodes, ev, queue@[j] as int, v) ==> ((#[trigger] dist@[v]) is Some && dist@[v]->0 <= dist@[queue@[j] as int]->0 + 1),
            forall|v: int|
                0 <= v < n ==> match #[trigger] dist@[v] {
                    Some(d) => within_hops(nodes, ev, f as int, v, d as nat),
                    None => true,
                },
        decreases n - head + count_none(dist@),
    {
        let u = queue[head];
        let d = match dist[u] {
            Some(d) => d,
            None => {
                assert(false);
                0
            },
        };
        assert(d <= head);
        let ghost head0 = head;
        let ghost qlen0 = queue.len();
        head = head + 1;
        let row = &adj[u];
        let mut m: usize = 0;
        while m < row.len()
            invariant
                n == node_ids.len(),
                n < u32::MAX,
                nodes == views(node_ids@),
                ev == edge_views(edges@),
                f < n,
                adj.len() == n,
                u < n,
                row == adj@[u as int],
                forall|a: int, b: usize|
                    0 <= a < n ==> (#[trigger] adj@[a]@.contains(b) <==> linked(nodes, ev, a, b as int)),
                forall|a: int, mm: int|
                    0 <= a < adj.len() && 0 <= mm < adj@[a].len() ==> #[trigger] adj@[a]@[mm] < n,
                m <= row.len(),
                dist.len() == n,
                head == head0 + 1,
                head <= queue.len(),
                qlen0 <= queue.len(),
                queue@[head0 as int] == u,
                dist@[u as int] == Some(d),
                d <= head0,
                queue.len() + count_none(dist@) == n,
                queue@[0] == f,
                dist@[f as int] == Some(0u32),
                forall|j: int| 0 <= j < queue.len() ==> (#[trigger] queue@[j]) < n,
                forall|j: int|
                    0 <= j < queue.len() ==> ((#[trigger] dist@[queue@[j] as int]) is Some && dist@[queue@[j] as int]->0 <= j),
                forall|v: int|
                    0 <= v < n && (#[trigger] dist@[v]) is Some ==> exists|j: int|
                        0 <= j < queue.len() && #[trigger] queue@[j] == v,
                forall|a: int, b: int|
                    0 <= a <= b < queue.len() ==> (#[trigger] dist@[queue@[a] as int])->0 <= (
                    #[trigger] dist@[queue@[b] as int])->0,
                dist@[queue@[queue.len() - 1] as int]->0 <= d + 1,
                forall|j: int, v: int|
                    0 <= j < head0 && #[trigger] linked(nodes, ev, queue@[j] as int, v) ==> ((#[trigger] dist@[v]) is Some && dist@[v]->0 <= dist@[queue@[j] as int]->0 + 1),
                forall|mm: int|
                    0 <= mm < m ==> ((#[trigger] dist@[row@[mm] as int]) is Some && dist@[row@[mm] as int]->0 <= d
                        + 1),
                forall|v: int|
                    0 <= v < n ==> match #[trigger] dist@[v] {
                        Some(dd) => within_hops(nodes, ev, f as int, v, dd as nat),
                        None => true,
                    },
            decreases row.len() - m,
        {
            let v = row[m];
            assert(adj@[u as int]@.contains(v));
            assert(linked(nodes, ev, u as int, v as int));
            match dist[v] {
                Some(_) => {
                    let ghost j = choose|j: int| 0 <= j < queue.len() && #[trigger] queue@[j] == v;
                    assert(dist@[queue@[j] as int]->0 <= dist@[queue@[queue.len() - 1] as int]->0);
                },
                None => {
                    proof {
                        lemma_count_none_set(dist@, v as int, (d + 1) as u32);
                        lemma_within_step(nodes, ev, f as int, u as int, v as int, d as nat);
                        lemma_count_none_bound(dist@.update(v as int, Some((d + 1) as u32)));
                    }
                    let ghost old_q = queue@;
                    let ghost old_dist = dist@;
                    assert(old_dist[old_q[queue.len() - 1] as int]->0 <= d + 1);
                    dist.set(v, Some(d + 1));
                    queue.push(v);
                    assert forall|a: int, b: int|
                        0 <= a <= b < queue.len() implies (#[trigger] dist@[queue@[a] as int])->0 <= (
                        #[trigger] dist@[queue@[b] as int])->0 by {
                        if b == queue.len() - 1 {
                            if a < b {
                                assert(old_dist[old_q[a] as int]->0 <= old_dist[old_q[old_q.len() - 1] as int]->0);
                            }
                        } else {
                            assert(old_q[a] != v && old_q[b] != v);
                        }
                    }
                    assert forall|vv: int|
                        0 <= vv < n && (#[trigger] dist@[vv]) is Some implies exists|j: int|
                            0 <= j < queue.len() && #[trigger] queue@[j] == vv by {
                        if vv == v as int {
                            assert(queue@[queue.len() - 1] == vv);
                        } else {
                            assert(old_dist[vv] is Some);
                            let j = choose|j: int| 0 <= j < old_q.len() && #[trigger] old_q[j] == vv;
                            assert(queue@[j] == vv);
                        }
                    }
                    assert forall|j: int|
                        0 <= j < queue.len() implies ((#[trigger] dist@[queue@[j] as int]) is Some && dist@[queue@[j] as int]->0 <= j) by {
                        if j < old_q.len() {
                            assert(old_q[j] != v);
                        }
                    }
                    assert forall|j: int, vv: int|
                        0 <= j < head0 && #[trigger] linked(nodes, ev, queue@[j] as int, vv) implies ((#[trigger] dist@[vv]) is Some && dist@[vv]->0 <= dist@[queue@[j] as int]->0 + 1) by {
                        assert(old_q[j] == queue@[j]);
                        assert(old_dist[vv] is Some);
                        assert(old_q[j] != v);
                    }
                },
            }
            m = m + 1;
        }
        assert forall|j: int, v: int|
            0 <= j < head && #[trigger] linked(nodes, ev, queue@[j] as int, v) implies ((#[trigger] dist@[v]) is Some && dist@[v]->0 <= dist@[queue@[j] as int]->0 + 1) by {
            if j == head0 {
                assert(v < n);
                assert(adj@[u as int]@.contains(v as usize));
                let mm = choose|mm: int| 0 <= mm < row@.len() && row@[mm] == v as usize;
                assert(dist@[row@[mm] as int] matches Some(dd) && dd <= d + 1);
            }
        }
        if head < queue.len() {
            assert(dist@[queue@[head0 as int] as int]->0 <= dist@[queue@[head as int] as int]->0);
        }
        proof {
            lemma_count_none_bound(dist@);
        }
    }
    proof {
        lemma_rings_complete(nodes, ev, f as int, dist@, queue@);
        assert forall|g: int|
            0 <= g < node_ids.len() && #[trigger] node_ids@[g]@ == focus@ implies exact_rings(
                views(node_ids@),
                edge_views(edges@),
                g,
                dist@,
            ) by {
            assert(nodes[g] == node_ids@[g]@);
        }
    }
    dist
}

/// Once every queued node has been expanded, every node within `k` hops
/// carries a ring of at most `k`; with soundness this makes each ring exact.
proof fn lemma_rings_complete(
    nodes: Seq<Seq<char>>,
    ev: Seq<(Seq<char>, Seq<char>)>,
    f: int,
    dist: Seq<Option<u32>>,
    queue: Seq<usize>,
)
    requires
        dist.len() == nodes.len(),
        0 <= f < nodes.len(),
        dist[f] == Some(0u32),
        forall|v: int|
            0 <= v < nodes.len() && (#[trigger] dist[v]) is Some ==> exists|j: int|
                0 <= j < queue.len() && #[trigger] queue[j] == v,
        forall|j: int, v: int|
            0 <= j < queue.len() && #[trigger] linked(nodes, ev, queue[j] as int, v) ==> ((#[trigger] dist[v]) is Some && dist[v]->0 <= dist[queue[j] as int]->0 + 1),
        forall|v: int|
            0 <= v < nodes.len() ==> match #[trigger] dist[v] {
                Some(d) => within_hops(nodes, ev, f, v, d as nat),
                None => true,
            },
    ensures
        exact_rings(nodes, ev, f, dist),
{
    assert forall|v: int, k: nat|
        0 <= v < nodes.len() && #[trigger] within_hops(nodes, ev, f, v, k) implies (dist[v] matches Some(
        d) && d <= k) by {
        lemma_reach_bounded(nodes, ev, f, dist, queue, v, k);
    }
    assert forall|v: int| 0 <= v < nodes.len() implies match #[trigger] dist[v] {
        Some(d) => within_hops(nodes, ev, f, v, d as nat) && forall|k: nat|
            k < d ==> !#[trigger] within_hops(nodes, ev, f, v, k),
        None => forall|k: nat| !#[trigger] within_hops(nodes, ev, f, v, k),
    } by {
        match dist[v] {
            Some(d) => {
                assert forall|k: nat| k < d implies !#[trigger] within_hops(nodes, ev, f, v, k) by {
                    if within_hops(nodes, ev, f, v, k) {
                        lemma_reach_bounded(nodes, ev, f, dist, queue, v, k);
                    }
                }
            },
            None => {
                assert forall|k: nat| !#[trigger] within_hops(nodes, ev, f, v, k) by {
                    if within_hops(nodes, ev, f, v, k) {
                        lemma_reach_bounded(nodes, ev, f, dist, queue, v, k);
                    }
                }
            },
        }
    }
}

proof fn lemma_reach_bounded(
    nodes: Seq<Seq<char>>,
    ev: Seq<(Seq<char>, Seq<char>)>,
    f: int,
    dist: Seq<Option<u32>>,
    queue: Seq<usize>,
    v: int,
    k: nat,
)
    requires
        dist.len() == nodes.len(),
        0 <= f < nodes.len(),
        dist[f] == Some(0u32),
        forall|w: int|
            0 <= w < nodes.len() && (#[trigger] dist[w]) is Some ==> exists|j: int|
                0 <= j < queue.len() && #[trigger] queue[j] == w,
        forall|j: int, w: int|
            0 <= j < queue.len() && #[trigger] linked(nodes, ev, queue[j] as int, w) ==> ((#[trigger] dist[w]) is Some && dist[w]->0 <= dist[queue[j] as int]->0 + 1),
        within_hops(nodes, ev, f, v, k),
    ensures
        dist[v] matches Some(d) && d <= k,
    decreases k,
{
    let p = choose|p: Seq<int>| #[trigger] walk_to(nodes, ev, p, f, v) && p.len() <= k + 1;
    if p.len() == 1 {
        assert(v == f);
    } else {
        let u = p[p.len() - 2];
        let q = p.drop_last();
        assert forall|i: int| 0 <= i < q.len() - 1 implies #[trigger] linked(nodes, ev, q[i], q[i + 1]) by {
            assert(q[i] == p[i] && q[i + 1] == p[i + 1]);
        }
        assert(walk_to(nodes, ev, q, f, u));
        assert(linked(nodes, ev, p[p.len() - 2], p[p.len() - 2 + 1]));
        lemma_reach_bounded(nodes, ev, f, dist, queue, u, (k - 1) as nat);
        let j = choose|j: int| 0 <= j < queue.len() && #[trigger] queue[j] == u;
        assert(linked(nodes, ev, queue[j] as int, v));
    }
}

/// Edge `e` leads from `a` to `b`.
pub open spec fn directs(e: (Seq<char>, Seq<char>), a: Seq<char>, b: Seq<char>) -> bool {
    e.0 == a && e.1 == b
}

/// Some edge leads from known node `i` to known node `j`; a self-edge counts.
pub open spec fn arc(nodes: Seq<Seq<char>>, edges: Seq<(Seq<char>, Seq<char>)>, i: int, j: int) -> bool {
    &&& 0 <= i < nodes.len()
    &&& 0 <= j < nodes.len()
    &&& exists|k: int| 0 <= k < edges.len() && #[trigger] directs(edges[k], nodes[i], nodes[j])
}

/// Whether `x` occurs in `row`.
fn row_contains(row: &Vec<usize>, x: usize) -> (r: bool)
    ensures
        r == row@.contains(x),
{
    let mut i: usize = 0;
    while i < row.len()
        invariant
            i <= row.len(),
            forall|j: int| 0 <= j < i ==> row@[j] != x,
        decreases row.len() - i,
    {
        if row[i] == x {
            return true;
        }
        i = i + 1;
    }
    false
}

/// Directed successor lists over the known nodes, each without repeats: a
/// repeated edge is one dependency.
fn successors(node_ids: &Vec<String>, edges: &Vec<(String, String)>) -> (out: Vec<Vec<usize>>)
    requires
        distinct(views(node_ids@)),
    ensures
        out.len() == node_ids.len(),
        forall|i: int, j: usize|
            0 <= i < node_ids.len() ==> (#[trigger] out@[i]@.contains(j) <==> arc(
                views(node_ids@),
                edge_views(edges@),
                i,
                j as int,
            )),
        forall|i: int| 0 <= i < out.len() ==> (#[trigger] out@[i]@).no_duplicates(),
        forall|i: int, m: int|
            0 <= i < out.len() && 0 <= m < out@[i].len() ==> #[trigger] out@[i]@[m] < node_ids.len(),
{
    let ghost nodes = views(node_ids@);
    let ghost ev = edge_views(edges@);
    let n = node_ids.len();
    let mut out: Vec<Vec<usize>> = Vec::new();
    let mut i: usize = 0;
    while i < n
        invariant
            i <= n,
            n == node_ids.len(),
            out.len() == i,
            forall|a: int| 0 <= a < i ==> (#[trigger] out@[a]).len() == 0,
        decreases n - i,
    {
        out.push(Vec::new());
        i = i + 1;
    }
    let mut k: usize = 0;
    while k < edges.len()
        invariant
            n == node_ids.len(),
            nodes == views(node_ids@),
            ev == edge_views(edges@),
            distinct(nodes),
            k <= edges.len(),
            out.len() == n,
            forall|a: int| 0 <= a < out.len() ==> (#[trigger] out@[a]@).no_duplicates(),
            forall|a: int, m: int|
                0 <= a < out.len() && 0 <= m < out@[a].len() ==> #[trigger] out@[a]@[m] < n,
            forall|a: int, b: usize|
                0 <= a < n ==> (#[trigger] out@[a]@.contains(b) <==> (b < n && exists|q: int|
                    0 <= q < k && #[trigger] directs(ev[q], nodes[a], nodes[b as int]))),
        decreases edges.len() - k,
    {
        let s = index_of(node_ids, edges[k].0.as_str());
        let t = index_of(node_ids, edges[k].1.as_str());
        let ghost old_out = out@;
        assert(ev[k as int] == (edges@[k as int].0@, edges@[k as int].1@));
        match (s, t) {
            (Some(s), Some(t)) => {
                assert(nodes[s as int] == node_ids@[s as int]@);
                assert(nodes[t as int] == node_ids@[t as int]@);
                if !row_contains(&out[s], t) {
                    let mut row = out[s].clone();
                    assert(row@ =~= old_out[s as int]@);
                    row.push(t);
                    out.set(s, row);
                    assert forall|a: int| 0 <= a < out.len() implies (#[trigger] out@[a]@).no_duplicates() by {
                        if a == s as int {
                            assert(out@[a]@ =~= old_out[a]@.push(t));
                        }
                    }
                }
                assert forall|a: int, b: usize|
                    0 <= a < n implies (#[trigger] out@[a]@.contains(b) <==> (b < n && exists|q: int|
                    0 <= q < k + 1 && #[trigger] directs(ev[q], nodes[a], nodes[b as int]))) by {
                    if b < n && directs(ev[k as int], nodes[a], nodes[b as int]) {
                        assert(nodes[a] == nodes[s as int]);
                        assert(nodes[b as int] == nodes[t as int]);
                        assert(a == s as int && b == t);
                        if old_out[a]@.contains(b) {
                        } else {
                            assert(out@[a]@ =~= old_out[a]@.push(t));
                            assert(out@[a]@[out@[a]@.len() - 1] == t);
                        }
                    }
                    if out@[a]@.contains(b) && !old_out[a]@.contains(b) {
                        if a == s as int {
                            assert(out@[a]@ =~= old_out[a]@.push(t));
                            assert(b == t);
                            assert(directs(ev[k as int], nodes[a], nodes[b as int]));
                        } else {
                            assert(out@[a] == old_out[a]);
                        }
                    }
                    if old_out[a]@.contains(b) {
                        let m = choose|m: int| 0 <= m < old_out[a]@.len() && old_out[a]@[m] == b;
                        if a == s as int && out@[a]@ != old_out[a]@ {
                            assert(out@[a]@ =~= old_out[a]@.push(t));
                        }
                        assert(out@[a]@[m] == b);
                    }
                    if exists|q: int| 0 <= q < k && #[trigger] directs(ev[q], nodes[a], nodes[b as int]) {
                        let q = choose|q: int| 0 <= q < k && #[trigger] directs(ev[q], nodes[a], nodes[b as int]);
                        assert(0 <= q < k + 1 && directs(ev[q], nodes[a], nodes[b as int]));
                    }
                    if exists|q: int| 0 <= q < k + 1 && #[trigger] directs(ev[q], nodes[a], nodes[b as int]) {
                        let q = choose|q: int| 0 <= q < k + 1 && #[trigger] directs(ev[q], nodes[a], nodes[b as int]);
                        if q < k {
                            assert(0 <= q < k && directs(ev[q], nodes[a], nodes[b as int]));
                        }
                    }
                }
            },
            _ => {
                assert forall|a: int, b: usize|
                    0 <= a < n implies (#[trigger] out@[a]@.contains(b) <==> (b < n && exists|q: int|
                    0 <= q < k + 1 && #[trigger] directs(ev[q], nodes[a], nodes[b as int]))) by {
                    if b < n && directs(ev[k as int], nodes[a], nodes[b as int]) {
                        assert(nodes[a] == node_ids@[a]@);
                        assert(nodes[b as int] == node_ids@[b as int]@);
                    }
                    if exists|q: int| 0 <= q < k && #[trigger] directs(ev[q], nodes[a], nodes[b as int]) {
                        let q = choose|q: int| 0 <= q < k && #[trigger] directs(ev[q], nodes[a], nodes[b as int]);
                        assert(0 <= q < k + 1 && directs(ev[q], nodes[a], nodes[b as int]));
                    }
                    if exists|q: int| 0 <= q < k + 1 && #[trigger] directs(ev[q], nodes[a], nodes[b as int]) {
                        let q = choose|q: int| 0 <= q < k + 1 && #[trigger] directs(ev[q], nodes[a], nodes[b as int]);
                        if q < k {
                            assert(0 <= q < k && directs(ev[q], nodes[a], nodes[b as int]));
                        }
                    }
                }
            },
        }
        k = k + 1;
    }
    out
}

/// `p` is a chain of directed edges that ends at `v`.
pub open spec fn chain_to(nodes: Seq<Seq<char>>, edges: Seq<(Seq<char>, Seq<char>)>, p: Seq<int>, v: int) -> bool {
    &&& p.len() >= 1
    &&& 0 <= p[0] < nodes.len()
    &&& p[p.len() - 1] == v
    &&& forall|i: int| 0 <= i < p.len() - 1 ==> #[trigger] arc(nodes, edges, p[i], p[i + 1])
}

/// No cycle reaches `v`: the chains that end at `v` have bounded length.
pub open spec fn settled(nodes: Seq<Seq<char>>, edges: Seq<(Seq<char>, Seq<char>)>, v: int) -> bool {
    exists|k: nat| #[trigger] chains_at_most(nodes, edges, v, k)
}

/// Every chain that ends at `v` has at most `k` nodes.
pub open spec fn chains_at_most(nodes: Seq<Seq<char>>, edges: Seq<(Seq<char>, Seq<char>)>, v: int, k: nat) -> bool {
    forall|p: Seq<int>| #[trigger] chain_to(nodes, edges, p, v) ==> p.len() <= k
}

/// The longest chain that ends at `v` has exactly `d` edges.
pub open spec fn longest_chain(nodes: Seq<Seq<char>>, edges: Seq<(Seq<char>, Seq<char>)>, v: int, d: int) -> bool {
    &&& exists|p: Seq<int>| #[trigger] chain_to(nodes, edges, p, v) && p.len() == d + 1
    &&& forall|p: Seq<int>| #[trigger] chain_to(nodes, edges, p, v) ==> p.len() <= d + 1
}

/// One past the deepest layer among the settled direct predecessors of `v`
/// below index `m`, or zero when there are none.
pub open spec fn fed_depth(
    nodes: Seq<Seq<char>>,
    edges: Seq<(Seq<char>, Seq<char>)>,
    layers: Seq<i64>,
    v: int,
    m: int,
) -> int
    decreases m,
{
    if m <= 0 {
        0
    } else {
        let prev = fed_depth(nodes, edges, layers, v, m - 1);
        if arc(nodes, edges, m - 1, v) && settled(nodes, edges, m - 1) && layers[m - 1] + 1 > prev {
            layers[m - 1] + 1
        } else {
            prev
        }
    }
}

/// The deepest `fed_depth` over the nodes below index `m`, or zero.
pub open spec fn overflow_upto(
    nodes: Seq<Seq<char>>,
    edges: Seq<(Seq<char>, Seq<char>)>,
    layers: Seq<i64>,
    m: int,
) -> int
    decreases m,
{
    if m <= 0 {
        0
    } else {
        let prev = overflow_upto(nodes, edges, layers, m - 1);
        let here = fed_depth(nodes, edges, layers, m - 1, nodes.len() as int);
        if here > prev {
            here
        } else {
            prev
        }
    }
}

/// The number of unprocessed predecessors of `v` among the nodes below `m`.
pub open spec fn in_count(out: Seq<Vec<usize>>, popped: Seq<bool>, v: usize, m: int) -> nat
    decreases m,
{
    if m <= 0 {
        0
    } else {
        in_count(out, popped, v, m - 1) + if out[m - 1]@.contains(v) && !popped[m - 1] {
            1nat
        } else {
            0nat
        }
    }
}

/// One past the deepest processed predecessor of `v` below `m`, or zero.
pub open spec fn pdepth(out: Seq<Vec<usize>>, popped: Seq<bool>, depth: Seq<i64>, v: usize, m: int) -> int
    decreases m,
{
    if m <= 0 {
        0
    } else {
        let prev = pdepth(out, popped, depth, v, m - 1);
        if out[m - 1]@.contains(v) && popped[m - 1] && depth[m - 1] + 1 > prev {
            depth[m - 1] + 1
        } else {
            prev
        }
    }
}

/// The number of positive entries.
pub open spec fn count_pos(s: Seq<usize>) -> nat
    decreases s.len(),
{
    if s.len() == 0 {
        0
    } else {
        count_pos(s.drop_last()) + if s.last() > 0 { 1nat } else { 0nat }
    }
}

/// The largest entry, or zero.
pub open spec fn max_upto(s: Seq<i64>, m: int) -> int
    decreases m,
{
    if m <= 0 {
        0
    } else {
        let prev = max_upto(s, m - 1);
        if s[m - 1] > prev {
            s[m - 1] as int
        } else {
            prev
        }
    }
}

proof fn lemma_count_pos_bound(s: Seq<usize>)
    ensures
        count_pos(s) <= s.len(),
    decreases s.len(),
{
    if s.len() > 0 {
        lemma_count_pos_bound(s.drop_last());
    }
}

proof fn lemma_count_pos_set(s: Seq<usize>, i: int, x: usize)
    requires
        0 <= i < s.len(),
        s[i] > 0,
    ensures
        count_pos(s.update(i, x)) + (if x > 0 { 0int } else { 1int }) == count_pos(s),
    decreases s.len(),
{
    let t = s.update(i, x);
    if i == s.len() - 1 {
        assert(t.drop_last() =~= s.drop_last());
    } else {
        assert(t.drop_last() =~= s.drop_last().update(i, x));
        lemma_count_pos_set(s.drop_last(), i, x);
    }
}

proof fn lemma_in_count_bound(out: Seq<Vec<usize>>, popped: Seq<bool>, v: usize, m: int)
    ensures
        in_count(out, popped, v, m) <= if m > 0 { m } else { 0 },
    decreases m,
{
    if m > 0 {
        lemma_in_count_bound(out, popped, v, m - 1);
    }
}

proof fn lemma_in_count_pop(out: Seq<Vec<usize>>, popped: Seq<bool>, w: int, v: usize, m: int)
    requires
        0 <= w < popped.len(),
        !popped[w],
        m <= popped.len(),
    ensures
        in_count(out, popped.update(w, true), v, m) + (if w < m && out[w]@.contains(v) { 1int } else { 0int })
            == in_count(out, popped, v, m),
    decreases m,
{
    if m > 0 {
        lemma_in_count_pop(out, popped, w, v, m - 1);
    }
}

proof fn lemma_in_count_zero(out: Seq<Vec<usize>>, popped: Seq<bool>, v: usize, m: int)
    ensures
        in_count(out, popped, v, m) == 0 ==> forall|u: int|
            0 <= u < m && #[trigger] out[u]@.contains(v) ==> popped[u],
        in_count(out, popped, v, m) > 0 ==> exists|u: int|
            0 <= u < m && #[trigger] out[u]@.contains(v) && !popped[u],
    decreases m,
{
    if m > 0 {
        lemma_in_count_zero(out, popped, v, m - 1);
        if in_count(out, popped, v, m) > 0 && in_count(out, popped, v, m - 1) == 0 {
            assert(out[m - 1]@.contains(v) && !popped[m - 1]);
        }
    }
}

proof fn lemma_pdepth_pop(out: Seq<Vec<usize>>, popped: Seq<bool>, depth: Seq<i64>, w: int, v: usize, m: int)
    requires
        0 <= w < popped.len(),
        !popped[w],
        m <= popped.len(),
    ensures
        pdepth(out, popped.update(w, true), depth, v, m) == if w < m && out[w]@.contains(v) && depth[w] + 1
            > pdepth(out, popped, depth, v, m) {
            depth[w] + 1
        } else {
            pdepth(out, popped, depth, v, m)
        },
    decreases m,
{
    if m > 0 {
        lemma_pdepth_pop(out, popped, depth, w, v, m - 1);
    }
}

proof fn lemma_pdepth_frame(out: Seq<Vec<usize>>, popped: Seq<bool>, depth: Seq<i64>, w: int, x: i64, v: usize, m: int)
    requires
        0 <= w < popped.len(),
        !popped[w],
        m <= popped.len(),
        depth.len() == popped.len(),
    ensures
        pdepth(out, popped, depth.update(w, x), v, m) == pdepth(out, popped, depth, v, m),
    decreases m,
{
    if m > 0 {
        lemma_pdepth_frame(out, popped, depth, w, x, v, m - 1);
    }
}

proof fn lemma_pdepth_none(out: Seq<Vec<usize>>, popped: Seq<bool>, depth: Seq<i64>, v: usize, m: int)
    requires
        forall|u: int| 0 <= u < m ==> !#[trigger] popped[u],
    ensures
        pdepth(out, popped, depth, v, m) == 0,
    decreases m,
{
    if m > 0 {
        lemma_pdepth_none(out, popped, depth, v, m - 1);
    }
}

proof fn lemma_pdepth_bounds(out: Seq<Vec<usize>>, popped: Seq<bool>, depth: Seq<i64>, v: usize, m: int)
    ensures
        pdepth(out, popped, depth, v, m) >= 0,
        forall|u: int|
            0 <= u < m && #[trigger] out[u]@.contains(v) && popped[u] ==> depth[u] + 1 <= pdepth(
                out,
                popped,
                depth,
                v,
                m,
            ),
        pdepth(out, popped, depth, v, m) == 0 || exists|u: int|
            0 <= u < m && #[trigger] out[u]@.contains(v) && popped[u] && depth[u] + 1 == pdepth(
                out,
                popped,
                depth,
                v,
                m,
            ),
    decreases m,
{
    if m > 0 {
        lemma_pdepth_bounds(out, popped, depth, v, m - 1);
        let prev = pdepth(out, popped, depth, v, m - 1);
        if pdepth(out, popped, depth, v, m) != prev {
            assert(out[m - 1]@.contains(v) && popped[m - 1]);
        } else if prev != 0 {
            let u = choose|u: int|
                0 <= u < m - 1 && #[trigger] out[u]@.contains(v) && popped[u] && depth[u] + 1 == prev;
            assert(0 <= u < m && out[u]@.contains(v) && popped[u] && depth[u] + 1 == prev);
        }
    }
}

proof fn lemma_max_upto(s: Seq<i64>, m: int)
    requires
        m <= s.len(),
    ensures
        max_upto(s, m) >= 0,
        forall|v: int| 0 <= v < m ==> #[trigger] s[v] <= max_upto(s, m),
    decreases m,
{
    if m > 0 {
        lemma_max_upto(s, m - 1);
    }
}

/// A node whose every unprocessed node has an unprocessed predecessor lies
/// at the end of arbitrarily long chains.
proof fn lemma_unbounded(
    nodes: Seq<Seq<char>>,
    ev: Seq<(Seq<char>, Seq<char>)>,
    out: Seq<Vec<usize>>,
    popped: Seq<bool>,
    v: usize,
    k: nat,
)
    requires
        nodes.len() <= usize::MAX,
        out.len() == nodes.len(),
        popped.len() == nodes.len(),
        forall|i: int, j: usize|
            0 <= i < nodes.len() ==> (#[trigger] out[i]@.contains(j) <==> arc(nodes, ev, i, j as int)),
        forall|x: usize|
            x < nodes.len() && !#[trigger] popped[x as int] ==> exists|u: int|
                0 <= u < nodes.len() && #[trigger] out[u]@.contains(x) && !popped[u],
        v < nodes.len(),
        !popped[v as int],
    ensures
        exists|p: Seq<int>| #[trigger] chain_to(nodes, ev, p, v as int) && p.len() == k + 1,
    decreases k,
{
    if k == 0 {
        let p = seq![v as int];
        assert(chain_to(nodes, ev, p, v as int));
    } else {
        let u = choose|u: int| 0 <= u < nodes.len() && #[trigger] out[u]@.contains(v) && !popped[u];
        lemma_unbounded(nodes, ev, out, popped, u as usize, (k - 1) as nat);
        let p = choose|p: Seq<int>| #[trigger] chain_to(nodes, ev, p, u) && p.len() == k;
        let q = p.push(v as int);
        assert(arc(nodes, ev, u, v as int));
        assert forall|i: int| 0 <= i < q.len() - 1 implies #[trigger] arc(nodes, ev, q[i], q[i + 1]) by {
            if i < p.len() - 1 {
                assert(q[i] == p[i] && q[i + 1] == p[i + 1]);
            }
        }
        assert(chain_to(nodes, ev, q, v as int));
    }
}

/// A processed node's depth is the length of the longest chain that ends at it.
proof fn lemma_longest(
    nodes: Seq<Seq<char>>,
    ev: Seq<(Seq<char>, Seq<char>)>,
    out: Seq<Vec<usize>>,
    popped: Seq<bool>,
    depth: Seq<i64>,
    queue: Seq<usize>,
    j: int,
)
    requires
        out.len() == nodes.len(),
        popped.len() == nodes.len(),
        depth.len() == nodes.len(),
        forall|i: int, b: usize|
            0 <= i < nodes.len() ==> (#[trigger] out[i]@.contains(b) <==> arc(nodes, ev, i, b as int)),
        forall|i: int| 0 <= i < queue.len() ==> (#[trigger] queue[i]) < nodes.len(),
        forall|i: int| 0 <= i < queue.len() ==> #[trigger] popped[queue[i] as int],
        forall|i: int, u: int|
            0 <= i < queue.len() && 0 <= u < nodes.len() && #[trigger] out[u]@.contains(queue[i])
                ==> exists|i2: int| 0 <= i2 < i && #[trigger] queue[i2] == u,
        forall|x: int| 0 <= x < nodes.len() ==> #[trigger] depth[x] == pdepth(out, popped, depth, x as usize, nodes.len() as int),
        0 <= j < queue.len(),
    ensures
        longest_chain(nodes, ev, queue[j] as int, depth[queue[j] as int] as int),
    decreases j,
{
    let n = nodes.len() as int;
    let v = queue[j];
    assert(depth[v as int] == pdepth(out, popped, depth, v, n));
    lemma_pdepth_bounds(out, popped, depth, v, n);
    // Every chain ends within the bound.
    assert forall|p: Seq<int>| #[trigger] chain_to(nodes, ev, p, v as int) implies p.len() <= depth[v as int] + 1 by {
        if p.len() > 1 {
            let u = p[p.len() - 2];
            assert(arc(nodes, ev, p[p.len() - 2], p[p.len() - 2 + 1]));
            assert(out[u]@.contains(v));
            let i2 = choose|i2: int| 0 <= i2 < j && #[trigger] queue[i2] == u;
            lemma_longest(nodes, ev, out, popped, depth, queue, i2);
            let q = p.drop_last();
            assert forall|i: int| 0 <= i < q.len() - 1 implies #[trigger] arc(nodes, ev, q[i], q[i + 1]) by {
                assert(q[i] == p[i] && q[i + 1] == p[i + 1]);
            }
            assert(chain_to(nodes, ev, q, u));
            assert(popped[queue[i2] as int]);
        }
    }
    // The bound is reached.
    if depth[v as int] == 0 {
        let p = seq![v as int];
        assert(chain_to(nodes, ev, p, v as int));
    } else {
        let u = choose|u: int|
            0 <= u < n && #[trigger] out[u]@.contains(v) && popped[u] && depth[u] + 1 == pdepth(out, popped, depth, v, n);
        let i2 = choose|i2: int| 0 <= i2 < j && #[trigger] queue[i2] == u;
        lemma_longest(nodes, ev, out, popped, depth, queue, i2);
        let p = choose|p: Seq<int>| #[trigger] chain_to(nodes, ev, p, u) && p.len() == depth[u] + 1;
        let q = p.push(v as int);
        assert(arc(nodes, ev, u, v as int));
        assert forall|i: int| 0 <= i < q.len() - 1 implies #[trigger] arc(nodes, ev, q[i], q[i + 1]) by {
            if i < p.len() - 1 {
                assert(q[i] == p[i] && q[i + 1] == p[i + 1]);
            }
        }
        assert(chain_to(nodes, ev, q, v as int));
    }
}

proof fn lemma_fed_depth(
    nodes: Seq<Seq<char>>,
    ev: Seq<(Seq<char>, Seq<char>)>,
    out: Seq<Vec<usize>>,
    popped: Seq<bool>,
    depth: Seq<i64>,
    layers: Seq<i64>,
    v: usize,
    m: int,
)
    requires
        out.len() == nodes.len(),
        popped.len() == nodes.len(),
        m <= nodes.len(),
        forall|i: int, b: usize|
            0 <= i < nodes.len() ==> (#[trigger] out[i]@.contains(b) <==> arc(nodes, ev, i, b as int)),
        forall|x: int| 0 <= x < nodes.len() ==> (#[trigger] popped[x] <==> settled(nodes, ev, x)),
        forall|x: int| 0 <= x < nodes.len() && #[trigger] popped[x] ==> layers[x] == depth[x],
    ensures
        pdepth(out, popped, depth, v, m) == fed_depth(nodes, ev, layers, v as int, m),
    decreases m,
{
    if m > 0 {
        lemma_fed_depth(nodes, ev, out, popped, depth, layers, v, m - 1);
        assert(out[m - 1]@.contains(v) <==> arc(nodes, ev, m - 1, v as int));
        assert(popped[m - 1] <==> settled(nodes, ev, m - 1));
    }
}

proof fn lemma_overflow(
    nodes: Seq<Seq<char>>,
    ev: Seq<(Seq<char>, Seq<char>)>,
    depth: Seq<i64>,
    layers: Seq<i64>,
    m: int,
)
    requires
        m <= nodes.len(),
        depth.len() == nodes.len(),
        forall|x: int| 0 <= x < nodes.len() ==> #[trigger] depth[x] == fed_depth(nodes, ev, layers, x, nodes.len() as int),
    ensures
        max_upto(depth, m) == overflow_upto(nodes, ev, layers, m),
    decreases m,
{
    if m > 0 {
        lemma_overflow(nodes, ev, depth, layers, m - 1);
        assert(depth[m - 1] == fed_depth(nodes, ev, layers, m - 1, nodes.len() as int));
    }
}

/// Topological layer per node: the length of the longest chain of directed
/// relations that ends at it, by Kahn's algorithm over the edges between
/// known nodes. A repeated edge is one dependency.
///
/// A node that a cycle reaches has no topological layer at all. Every such
/// node goes to one shared overflow layer, one past the deepest depth the
/// walk assigned, rather than being dropped: a repository in a dependency
/// cycle is still a repository the reader wants to see. The result is
/// aligned with `node_ids`.
pub fn stack_layers(node_ids: &Vec<String>, edges: &Vec<(String, String)>) -> (layers: Vec<i64>)
    requires
        distinct(views(node_ids@)),
        node_ids.len() < i64::MAX,
    ensures
        layers.len() == node_ids.len(),
        forall|v: int|
            0 <= v < node_ids.len() && settled(views(node_ids@), edge_views(edges@), v) ==> longest_chain(
                views(node_ids@),
                edge_views(edges@),
                v,
                #[trigger] layers@[v] as int,
            ),
        forall|v: int|
            0 <= v < node_ids.len() && !settled(views(node_ids@), edge_views(edges@), v) ==> #[trigger] layers@[v]
                == 1 + overflow_upto(views(node_ids@), edge_views(edges@), layers@, node_ids.len() as int),
        stacked(views(node_ids@), edge_views(edges@), layers@),
{
    let ghost nodes = views(node_ids@);
    let ghost ev = edge_views(edges@);
    let n = node_ids.len();
    let out = successors(node_ids, edges);

    let mut indeg: Vec<usize> = Vec::new();
    let mut popped: Vec<bool> = Vec::new();
    let mut depth: Vec<i64> = Vec::new();
    let mut i: usize = 0;
    while i < n
        invariant
            i <= n,
            indeg.len() == i,
            popped.len() == i,
            depth.len() == i,
            forall|a: int| 0 <= a < i ==> #[trigger] indeg@[a] == 0,
            forall|a: int| 0 <= a < i ==> !#[trigger] popped@[a],
            forall|a: int| 0 <= a < i ==> #[trigger] depth@[a] == 0,
        decreases n - i,
    {
        indeg.push(0);
        popped.push(false);
        depth.push(0);
        i = i + 1;
    }

    // Count each node's distinct predecessors.
    let mut u: usize = 0;
    while u < n
        invariant
            n == node_ids.len(),
            out.len() == n,
            forall|a: int| 0 <= a < out.len() ==> (#[trigger] out@[a]@).no_duplicates(),
            forall|a: int, m: int|
                0 <= a < out.len() && 0 <= m < out@[a].len() ==> #[trigger] out@[a]@[m] < n,
            u <= n,
            indeg.len() == n,
            popped.len() == n,
            forall|a: int| 0 <= a < n ==> !#[trigger] popped@[a],
            forall|x: usize| x < n ==> #[trigger] indeg@[x as int] == in_count(out@, popped@, x, u as int),
        decreases n - u,
    {
        let row = &out[u];
        let mut m: usize = 0;
        while m < row.len()
            invariant
                n == node_ids.len(),
                out.len() == n,
                row == out@[u as int],
                row@.no_duplicates(),
                forall|mm: int| 0 <= mm < row.len() ==> #[trigger] row@[mm] < n,
                u < n,
                m <= row.len(),
                indeg.len() == n,
                popped.len() == n,
                forall|a: int| 0 <= a < n ==> !#[trigger] popped@[a],
                forall|x: usize|
                    x < n ==> #[trigger] indeg@[x as int] == in_count(out@, popped@, x, u as int) + if row@.subrange(
                        0,
                        m as int,
                    ).contains(x) {
                        1nat
                    } else {
                        0nat
                    },
            decreases row.len() - m,
        {
            let v = row[m];
            proof {
                lemma_in_count_bound(out@, popped@, v, u as int);
                assert(!row@.subrange(0, m as int).contains(v));
            }
            let ghost before = indeg@;
            indeg.set(v, indeg[v] + 1);
            assert forall|x: usize|
                x < n implies #[trigger] indeg@[x as int] == in_count(out@, popped@, x, u as int) + if row@.subrange(
                    0,
                    m + 1,
                ).contains(x) {
                    1nat
                } else {
                    0nat
                } by {
                assert(row@.subrange(0, m + 1) =~= row@.subrange(0, m as int).push(v));
                lemma_push_contains(row@.subrange(0, m as int), v, x);
                if x != v {
                    assert(indeg@[x as int] == before[x as int]);
                }
            }
            m = m + 1;
        }
        assert(row@.subrange(0, row.len() as int) =~= row@);
        u = u + 1;
    }

    // Queue the nodes without predecessors.
    let mut queue: Vec<usize> = Vec::new();
    let mut v: usize = 0;
    while v < n
        invariant
            v <= n,
            indeg.len() == n,
            queue.len() <= v,
            forall|j: int| 0 <= j < queue.len() ==> (#[trigger] queue@[j]) < v,
            forall|a: int, b: int| 0 <= a < b < queue.len() ==> queue@[a] < queue@[b],
            forall|j: int| 0 <= j < queue.len() ==> #[trigger] indeg@[queue@[j] as int] == 0,
            forall|x: int|
                0 <= x < v && #[trigger] indeg@[x] == 0 ==> exists|j: int| 0 <= j < queue.len() && #[trigger] queue@[j] == x,
        decreases n - v,
    {
        let ghost q_before = queue@;
        if indeg[v] == 0 {
            queue.push(v);
            assert(queue@[queue.len() - 1] == v);
        }
        assert forall|x: int|
            0 <= x < v + 1 && #[trigger] indeg@[x] == 0 implies exists|j: int| 0 <= j < queue.len() && #[trigger] queue@[j] == x by {
            if x < v {
                let j = choose|j: int| 0 <= j < q_before.len() && #[trigger] q_before[j] == x;
                assert(queue@[j] == x);
            } else {
                assert(queue@[queue.len() - 1] == x);
            }
        }
        v = v + 1;
    }
    proof {
        lemma_count_pos_bound(indeg@);
        assert forall|x: usize| x < n implies #[trigger] indeg@[x as int] == in_count(out@, popped@, x, n as int) by {}
        lemma_queue_count(indeg@, queue@);
        assert forall|x: usize| x < n implies #[trigger] depth@[x as int] == pdepth(out@, popped@, depth@, x, n as int) by {
            lemma_pdepth_none(out@, popped@, depth@, x, n as int);
        }
        assert forall|j: int, w: int|
            0 <= j < queue.len() && 0 <= w < n && #[trigger] out@[w]@.contains(queue@[j]) implies exists|j2: int|
                0 <= j2 < j && #[trigger] queue@[j2] == w by {
            lemma_in_count_zero(out@, popped@, queue@[j], n as int);
            assert(indeg@[queue@[j] as int] == in_count(out@, popped@, queue@[j], n as int));
        }
    }

    // Kahn's walk: settle a node once all of its predecessors are settled.
    let mut head: usize = 0;
    while head < queue.len()
        invariant
            n == node_ids.len(),
            n < i64::MAX,
            nodes == views(node_ids@),
            ev == edge_views(edges@),
            out.len() == n,
            forall|a: int, b: usize|
                0 <= a < n ==> (#[trigger] out@[a]@.contains(b) <==> arc(nodes, ev, a, b as int)),
            forall|a: int| 0 <= a < out.len() ==> (#[trigger] out@[a]@).no_duplicates(),
            forall|a: int, m: int|
                0 <= a < out.len() && 0 <= m < out@[a].len() ==> #[trigger] out@[a]@[m] < n,
            indeg.len() == n,
            popped.len() == n,
            depth.len() == n,
            head <= queue.len(),
            queue.len() + count_pos(indeg@) == n,
            forall|j: int| 0 <= j < queue.len() ==> (#[trigger] queue@[j]) < n,
            forall|a: int, b: int| 0 <= a < b < queue.len() ==> queue@[a] != queue@[b],
            forall|j: int| 0 <= j < queue.len() ==> #[trigger] indeg@[queue@[j] as int] == 0,
            forall|x: int|
                0 <= x < n && #[trigger] indeg@[x] == 0 ==> exists|j: int| 0 <= j < queue.len() && #[trigger] queue@[j] == x,
            forall|x: int|
                0 <= x < n ==> (#[trigger] popped@[x] <==> exists|j: int| 0 <= j < head && #[trigger] queue@[j] == x),
            forall|x: usize| x < n ==> #[trigger] indeg@[x as int] == in_count(out@, popped@, x, n as int),
            forall|x: usize| x < n ==> #[trigger] depth@[x as int] == pdepth(out@, popped@, depth@, x, n as int),
            forall|j: int, w: int|
                0 <= j < queue.len() && 0 <= w < n && #[trigger] out@[w]@.contains(queue@[j]) ==> exists|j2: int|
                    0 <= j2 < j && #[trigger] queue@[j2] == w,
            forall|x: int| 0 <= x < n ==> 0 <= #[trigger] depth@[x] <= head,
        decreases n - head + count_pos(indeg@),
    {
        let w = queue[head];
        let ghost p_old = popped@;
        let ghost head0 = head;
        let ghost qlen0 = queue.len();
        proof {
            assert(!popped@[w as int]) by {
                if popped@[w as int] {
                    let j = choose|j: int| 0 <= j < head && #[trigger] queue@[j] == w;
                    assert(queue@[j] != queue@[head as int]);
                }
            }
            assert forall|x: usize| x < n implies #[trigger] in_count(out@, popped@.update(w as int, true), x, n as int)
                + (if out@[w as int]@.contains(x) { 1int } else { 0int }) == in_count(out@, popped@, x, n as int) by {
                lemma_in_count_pop(out@, popped@, w as int, x, n as int);
            }
            assert forall|x: usize| x < n && !out@[w as int]@.contains(x) implies #[trigger] pdepth(out@, popped@.update(w as int, true), depth@, x, n as int)
                == pdepth(out@, popped@, depth@, x, n as int) by {
                lemma_pdepth_pop(out@, popped@, depth@, w as int, x, n as int);
            }
            assert forall|x: usize| x < n implies !(#[trigger] out@[w as int]@.subrange(0, 0)).contains(x) by {}
        }
        popped.set(w, true);
        head = head + 1;
        let dw = depth[w];
        let row = &out[w];
        let mut m: usize = 0;
        while m < row.len()
            invariant
                n == node_ids.len(),
                n < i64::MAX,
                nodes == views(node_ids@),
                ev == edge_views(edges@),
                out.len() == n,
                forall|a: int, b: usize|
                    0 <= a < n ==> (#[trigger] out@[a]@.contains(b) <==> arc(nodes, ev, a, b as int)),
                forall|a: int| 0 <= a < out.len() ==> (#[trigger] out@[a]@).no_duplicates(),
                forall|a: int, mm: int|
                    0 <= a < out.len() && 0 <= mm < out@[a].len() ==> #[trigger] out@[a]@[mm] < n,
                w < n,
                row == out@[w as int],
                m <= row.len(),
                indeg.len() == n,
                popped.len() == n,
                depth.len() == n,
                head == head0 + 1,
                head <= queue.len(),
                qlen0 <= queue.len(),
                queue@[head0 as int] == w,
                p_old.len() == n,
                !p_old[w as int],
                popped@ == p_old.update(w as int, true),
                dw == depth@[w as int],
                0 <= dw <= head0,
                queue.len() + count_pos(indeg@) == n,
                forall|j: int| 0 <= j < queue.len() ==> (#[trigger] queue@[j]) < n,
                forall|a: int, b: int| 0 <= a < b < queue.len() ==> queue@[a] != queue@[b],
                forall|j: int| 0 <= j < queue.len() ==> #[trigger] indeg@[queue@[j] as int] == 0,
                forall|x: int|
                    0 <= x < n && #[trigger] indeg@[x] == 0 ==> exists|j: int| 0 <= j < queue.len() && #[trigger] queue@[j] == x,
                forall|x: int|
                    0 <= x < n ==> (#[trigger] popped@[x] <==> exists|j: int| 0 <= j < head && #[trigger] queue@[j] == x),
                forall|x: usize|
                    x < n ==> #[trigger] indeg@[x as int] == in_count(out@, popped@, x, n as int) + if row@.contains(x)
                        && !row@.subrange(0, m as int).contains(x) {
                        1nat
                    } else {
                        0nat
                    },
                forall|x: usize|
                    x < n ==> #[trigger] depth@[x as int] == if row@.contains(x) && !row@.subrange(0, m as int).contains(x) {
                        pdepth(out@, p_old, depth@, x, n as int)
                    } else {
                        pdepth(out@, popped@, depth@, x, n as int)
                    },
                forall|j: int, u2: int|
                    0 <= j < queue.len() && 0 <= u2 < n && #[trigger] out@[u2]@.contains(queue@[j]) ==> exists|j2: int|
                        0 <= j2 < j && #[trigger] queue@[j2] == u2,
                forall|x: int| 0 <= x < n ==> 0 <= #[trigger] depth@[x] <= head,
            decreases row.len() - m,
        {
            let x = row[m];
            let ghost old_indeg = indeg@;
            let ghost old_depth = depth@;
            proof {
                assert(row@.contains(x));
                assert(!row@.subrange(0, m as int).contains(x));
                assert(indeg@[x as int] >= 1);
                // x is unprocessed: it still has w's edge counted against it.
                assert(!popped@[x as int]) by {
                    if popped@[x as int] {
                        let j = choose|j: int| 0 <= j < head && #[trigger] queue@[j] == x as int;
                        assert(indeg@[queue@[j] as int] == 0);
                    }
                }
                assert(x != w);
                lemma_pdepth_pop(out@, p_old, depth@, w as int, x, n as int);
            }
            let dx = depth[x];
            let nd = if dx > dw + 1 { dx } else { dw + 1 };
            depth.set(x, nd);
            let nx = indeg[x] - 1;
            proof {
                lemma_count_pos_set(indeg@, x as int, nx);
            }
            indeg.set(x, nx);
            if nx == 0 {
                proof {
                    lemma_in_count_zero(out@, popped@, x, n as int);
                    assert forall|j: int| 0 <= j < queue.len() implies queue@[j] != x by {
                        if queue@[j] == x {
                            assert(old_indeg[queue@[j] as int] == 0);
                        }
                    }
                }
                let ghost q_before = queue@;
                queue.push(x);
                proof {
                    assert forall|j: int, u2: int|
                        0 <= j < queue.len() && 0 <= u2 < n && #[trigger] out@[u2]@.contains(queue@[j]) implies exists|j2: int|
                            0 <= j2 < j && #[trigger] queue@[j2] == u2 by {
                        if j == queue.len() - 1 {
                            assert(popped@[u2]);
                            let j2 = choose|j2: int| 0 <= j2 < head && #[trigger] q_before[j2] == u2;
                            assert(queue@[j2] == u2);
                        } else {
                            assert(q_before[j] == queue@[j]);
                            let j2 = choose|j2: int| 0 <= j2 < j && #[trigger] q_before[j2] == u2;
                            assert(queue@[j2] == u2);
                        }
                    }
                    assert forall|xx: int|
                        0 <= xx < n && #[trigger] indeg@[xx] == 0 implies exists|j: int| 0 <= j < queue.len() && #[trigger] queue@[j] == xx by {
                        if xx == x as int {
                            assert(queue@[queue.len() - 1] == xx);
                        } else {
                            assert(old_indeg[xx] == 0);
                            let j = choose|j: int| 0 <= j < q_before.len() && #[trigger] q_before[j] == xx;
                            assert(queue@[j] == xx);
                        }
                    }
                    assert forall|xx: int|
                        0 <= xx < n implies (#[trigger] popped@[xx] <==> exists|j: int| 0 <= j < head && #[trigger] queue@[j] == xx) by {
                        if popped@[xx] {
                            let j = choose|j: int| 0 <= j < head && #[trigger] q_before[j] == xx;
                            assert(queue@[j] == xx);
                        }
                        if exists|j: int| 0 <= j < head && #[trigger] queue@[j] == xx {
                            let j = choose|j: int| 0 <= j < head && #[trigger] queue@[j] == xx;
                            assert(q_before[j] == xx);
                        }
                    }
                    assert forall|j: int| 0 <= j < queue.len() implies #[trigger] indeg@[queue@[j] as int] == 0 by {
                        if j < q_before.len() {
                            assert(q_before[j] == queue@[j]);
                        }
                    }
                }
            }
            proof {
                assert forall|xx: usize|
                    xx < n implies #[trigger] indeg@[xx as int] == in_count(out@, popped@, xx, n as int) + if row@.contains(xx)
                        && !row@.subrange(0, m + 1).contains(xx) {
                        1nat
                    } else {
                        0nat
                    } by {
                    assert(row@.subrange(0, m + 1) =~= row@.subrange(0, m as int).push(x));
                    lemma_push_contains(row@.subrange(0, m as int), x, xx);
                    if xx != x {
                        assert(indeg@[xx as int] == old_indeg[xx as int]);
                    }
                }
                assert forall|xx: usize|
                    xx < n implies #[trigger] depth@[xx as int] == if row@.contains(xx) && !row@.subrange(0, m + 1).contains(xx) {
                        pdepth(out@, p_old, depth@, xx, n as int)
                    } else {
                        pdepth(out@, popped@, depth@, xx, n as int)
                    } by {
                    assert(row@.subrange(0, m + 1) =~= row@.subrange(0, m as int).push(x));
                    lemma_push_contains(row@.subrange(0, m as int), x, xx);
                    assert(!popped@[x as int]);
                    assert(!p_old[x as int]);
                    lemma_pdepth_frame(out@, popped@, old_depth, x as int, nd, xx, n as int);
                    lemma_pdepth_frame(out@, p_old, old_depth, x as int, nd, xx, n as int);
                    assert(depth@ == old_depth.update(x as int, nd));
                }
                assert forall|xx: int| 0 <= xx < n implies 0 <= #[trigger] depth@[xx] <= head by {
                    if xx != x as int {
                        assert(depth@[xx] == old_depth[xx]);
                    }
                }
            }
            m = m + 1;
        }
        proof {
            assert(row@.subrange(0, row.len() as int) =~= row@);
            assert forall|x: usize| x < n implies #[trigger] depth@[x as int] == pdepth(out@, popped@, depth@, x, n as int) by {
                assert(!(row@.contains(x) && !row@.subrange(0, row.len() as int).contains(x)));
            }
            lemma_count_pos_bound(indeg@);
            assert forall|x: usize| x < n implies #[trigger] indeg@[x as int] == in_count(out@, popped@, x, n as int) by {
                assert(!(row@.contains(x) && !row@.subrange(0, row.len() as int).contains(x)));
            }
        }
    }

    // Everything left unsettled has an unsettled predecessor.
    proof {
        assert forall|x: usize|
            x < n && !#[trigger] popped@[x as int] implies exists|u2: int|
                0 <= u2 < n && #[trigger] out@[u2]@.contains(x) && !popped@[u2] by {
            if indeg@[x as int] == 0 {
                let j = choose|j: int| 0 <= j < queue.len() && #[trigger] queue@[j] == x as int;
                assert(popped@[x as int]);
            }
            lemma_in_count_zero(out@, popped@, x, n as int);
        }
        assert forall|x: int| 0 <= x < n implies (#[trigger] popped@[x] <==> settled(nodes, ev, x)) by {
            if popped@[x] {
                let j = choose|j: int| 0 <= j < head && #[trigger] queue@[j] == x;
                assert forall|jj: int| 0 <= jj < queue.len() implies #[trigger] popped@[queue@[jj] as int] by {}
                lemma_longest(nodes, ev, out@, popped@, depth@, queue@, j);
                assert(chains_at_most(nodes, ev, x, (depth@[x] + 1) as nat));
            } else {
                if settled(nodes, ev, x) {
                    let k = choose|k: nat| #[trigger] chains_at_most(nodes, ev, x, k);
                    lemma_unbounded(nodes, ev, out@, popped@, x as usize, k);
                    let p = choose|p: Seq<int>| #[trigger] chain_to(nodes, ev, p, x) && p.len() == k + 1;
                }
            }
        }
    }

    // One overflow layer past the deepest depth assigned.
    let mut deepest: i64 = 0;
    let mut v: usize = 0;
    while v < n
        invariant
            v <= n,
            depth.len() == n,
            n < i64::MAX,
            forall|x: int| 0 <= x < n ==> 0 <= #[trigger] depth@[x] <= n,
            deepest == max_upto(depth@, v as int),
            0 <= deepest <= n,
        decreases n - v,
    {
        if depth[v] > deepest {
            deepest = depth[v];
        }
        v = v + 1;
    }
    let overflow = deepest + 1;

    let mut layers: Vec<i64> = Vec::new();
    let mut v: usize = 0;
    while v < n
        invariant
            v <= n,
            depth.len() == n,
            popped.len() == n,
            layers.len() == v,
            forall|x: int|
                0 <= x < v ==> #[trigger] layers@[x] == if popped@[x] { depth@[x] } else { overflow },
        decreases n - v,
    {
        if popped[v] {
            layers.push(depth[v]);
        } else {
            layers.push(overflow);
        }
        v = v + 1;
    }

    proof {
        assert forall|x: int| 0 <= x < n && #[trigger] popped@[x] implies layers@[x] == depth@[x] by {}
        assert forall|x: int| 0 <= x < n implies #[trigger] depth@[x] == fed_depth(nodes, ev, layers@, x, n as int) by {
            assert(depth@[x] == pdepth(out@, popped@, depth@, x as usize, n as int));
            lemma_fed_depth(nodes, ev, out@, popped@, depth@, layers@, x as usize, n as int);
        }
        lemma_overflow(nodes, ev, depth@, layers@, n as int);
        assert forall|x: int|
            0 <= x < n && settled(nodes, ev, x) implies longest_chain(nodes, ev, x, #[trigger] layers@[x] as int) by {
            assert(popped@[x]);
            let j = choose|j: int| 0 <= j < head && #[trigger] queue@[j] == x;
            assert forall|jj: int| 0 <= jj < queue.len() implies #[trigger] popped@[queue@[jj] as int] by {}
            lemma_longest(nodes, ev, out@, popped@, depth@, queue@, j);
        }
    }
    layers
}

proof fn lemma_push_contains(s: Seq<usize>, a: usize, b: usize)
    ensures
        s.push(a).contains(b) == (s.contains(b) || a == b),
{
    if s.contains(b) {
        let i = choose|i: int| 0 <= i < s.len() && s[i] == b;
        assert(s.push(a)[i] == b);
    }
    if a == b {
        assert(s.push(a)[s.len() as int] == b);
    }
    if s.push(a).contains(b) {
        let i = choose|i: int| 0 <= i < s.push(a).len() && s.push(a)[i] == b;
        if i < s.len() {
            assert(s[i] == b);
        }
    }
}

/// The initial queue holds exactly the nodes without predecessors, so the
/// queued and the positive counts partition the nodes.
proof fn lemma_queue_count(indeg: Seq<usize>, queue: Seq<usize>)
    requires
        forall|j: int| 0 <= j < queue.len() ==> (#[trigger] queue[j]) < indeg.len(),
        forall|a: int, b: int| 0 <= a < b < queue.len() ==> queue[a] < queue[b],
        forall|j: int| 0 <= j < queue.len() ==> #[trigger] indeg[queue[j] as int] == 0,
        forall|x: int|
            0 <= x < indeg.len() && #[trigger] indeg[x] == 0 ==> exists|j: int| 0 <= j < queue.len() && #[trigger] queue[j] == x,
    ensures
        queue.len() + count_pos(indeg) == indeg.len(),
    decreases indeg.len(),
{
    if indeg.len() == 0 {
        if queue.len() > 0 {
            assert(queue[0] < indeg.len());
        }
    } else {
        let last = indeg.len() - 1;
        let s = indeg.drop_last();
        if indeg[last] == 0 {
            let j = choose|j: int| 0 <= j < queue.len() && #[trigger] queue[j] == last;
            assert(j == queue.len() - 1) by {
                if j < queue.len() - 1 {
                    assert(queue[j] < queue[queue.len() - 1]);
                }
            }
            let q = queue.drop_last();
            assert forall|x: int|
                0 <= x < s.len() && #[trigger] s[x] == 0 implies exists|jj: int| 0 <= jj < q.len() && #[trigger] q[jj] == x by {
                assert(indeg[x] == 0);
                let jj = choose|jj: int| 0 <= jj < queue.len() && #[trigger] queue[jj] == x;
                assert(jj != queue.len() - 1);
                assert(q[jj] == x);
            }
            assert forall|jj: int| 0 <= jj < q.len() implies (#[trigger] q[jj]) < s.len() by {
                assert(queue[jj] < queue[queue.len() - 1]);
            }
            assert forall|jj: int| 0 <= jj < q.len() implies #[trigger] s[q[jj] as int] == 0 by {
                assert(q[jj] == queue[jj]);
            }
            lemma_queue_count(s, q);
            assert(indeg.drop_last() == s);
        } else {
            assert forall|jj: int| 0 <= jj < queue.len() implies (#[trigger] queue[jj]) < s.len() by {
                assert(queue[jj] != last);
            }
            assert forall|jj: int| 0 <= jj < queue.len() implies #[trigger] s[queue[jj] as int] == 0 by {}
            assert forall|x: int|
                0 <= x < s.len() && #[trigger] s[x] == 0 implies exists|jj: int| 0 <= jj < queue.len() && #[trigger] queue[jj] == x by {
                assert(indeg[x] == 0);
            }
            lemma_queue_count(s, queue);
            assert(indeg.drop_last() == s);
        }
    }
}


/// Law: the focus is on ring zero, and a ring never jumps by more than one
/// across an edge: a node linked to a node on ring `d` is itself on a ring
/// no further out than `d + 1`.
pub proof fn law_rings_grow_by_one_hop(
    nodes: Seq<Seq<char>>,
    edges: Seq<(Seq<char>, Seq<char>)>,
    f: int,
    rings: Seq<Option<u32>>,
    u: int,
    v: int,
)
    requires
        0 <= f < nodes.len(),
        exact_rings(nodes, edges, f, rings),
        linked(nodes, edges, u, v),
        rings[u] is Some,
    ensures
        rings[f] == Some(0u32),
        rings[v] is Some,
        rings[v]->0 <= rings[u]->0 + 1,
{
    let d = rings[u]->0;
    let walk0 = seq![f];
    assert(walk_to(nodes, edges, walk0, f, f));
    assert(within_hops(nodes, edges, f, f, 0));
    match rings[f] {
        Some(x) => {
            if x > 0 {
                assert(!within_hops(nodes, edges, f, f, 0));
            }
        },
        None => {
            assert(!within_hops(nodes, edges, f, f, 0));
        },
    }
    assert(within_hops(nodes, edges, f, u, d as nat));
    let p = choose|p: Seq<int>| #[trigger] walk_to(nodes, edges, p, f, u) && p.len() <= d + 1;
    let q = p.push(v);
    assert forall|i: int| 0 <= i < q.len() - 1 implies #[trigger] linked(nodes, edges, q[i], q[i + 1]) by {
        if i < p.len() - 1 {
            assert(q[i] == p[i] && q[i + 1] == p[i + 1]);
            assert(linked(nodes, edges, p[i], p[i + 1]));
        } else {
            assert(q[i] == u && q[i + 1] == v);
        }
    }
    assert(walk_to(nodes, edges, q, f, v));
    assert(within_hops(nodes, edges, f, v, (d + 1) as nat));
    match rings[v] {
        Some(e) => {
            if e > d + 1 {
                assert(!within_hops(nodes, edges, f, v, (d + 1) as nat));
            }
        },
        None => {
            assert(!within_hops(nodes, edges, f, v, (d + 1) as nat));
        },
    }
}

/// Law: layers follow the dependencies: when both ends of an edge have
/// settled layers, the dependency's layer is strictly below the dependent's.
pub proof fn law_layers_follow_dependencies(
    nodes: Seq<Seq<char>>,
    edges: Seq<(Seq<char>, Seq<char>)>,
    u: int,
    v: int,
    du: int,
    dv: int,
)
    requires
        arc(nodes, edges, u, v),
        longest_chain(nodes, edges, u, du),
        longest_chain(nodes, edges, v, dv),
    ensures
        du < dv,
{
    let p = choose|p: Seq<int>| #[trigger] chain_to(nodes, edges, p, u) && p.len() == du + 1;
    let q = p.push(v);
    assert forall|i: int| 0 <= i < q.len() - 1 implies #[trigger] arc(nodes, edges, q[i], q[i + 1]) by {
        if i < p.len() - 1 {
            assert(q[i] == p[i] && q[i + 1] == p[i + 1]);
            assert(arc(nodes, edges, p[i], p[i + 1]));
        } else {
            assert(q[i] == u && q[i + 1] == v);
        }
    }
    assert(q[0] == p[0]);
    assert(chain_to(nodes, edges, q, v));
}

/// `layers` is what stacking gives: each settled node on its longest chain,
/// every other node on the shared overflow layer.
pub open spec fn stacked(nodes: Seq<Seq<char>>, edges: Seq<(Seq<char>, Seq<char>)>, layers: Seq<i64>) -> bool {
    &&& layers.len() == nodes.len()
    &&& forall|v: int| 0 <= v < nodes.len() && settled(nodes, edges, v) ==> longest_chain(nodes, edges, v, #[trigger] layers[v] as int)
    &&& forall|v: int| 0 <= v < nodes.len() && !settled(nodes, edges, v) ==> #[trigger] layers[v] == 1 + overflow_upto(
        nodes,
        edges,
        layers,
        nodes.len() as int,
    )
}

proof fn lemma_fed_depth_above(
    nodes: Seq<Seq<char>>,
    edges: Seq<(Seq<char>, Seq<char>)>,
    layers: Seq<i64>,
    v: int,
    u: int,
    m: int,
)
    requires
        0 <= u < m,
        arc(nodes, edges, u, v),
        settled(nodes, edges, u),
    ensures
        fed_depth(nodes, edges, layers, v, m) >= layers[u] + 1,
    decreases m,
{
    if u < m - 1 {
        lemma_fed_depth_above(nodes, edges, layers, v, u, m - 1);
    }
}

proof fn lemma_overflow_above(nodes: Seq<Seq<char>>, edges: Seq<(Seq<char>, Seq<char>)>, layers: Seq<i64>, v: int, m: int)
    requires
        0 <= v < m,
    ensures
        overflow_upto(nodes, edges, layers, m) >= fed_depth(nodes, edges, layers, v, nodes.len() as int),
    decreases m,
{
    if v < m - 1 {
        lemma_overflow_above(nodes, edges, layers, v, m - 1);
    }
}

proof fn lemma_fed_depth_nonneg(nodes: Seq<Seq<char>>, edges: Seq<(Seq<char>, Seq<char>)>, layers: Seq<i64>, v: int, m: int)
    ensures
        fed_depth(nodes, edges, layers, v, m) >= 0,
    decreases m,
{
    if m > 0 {
        lemma_fed_depth_nonneg(nodes, edges, layers, v, m - 1);
    }
}

/// Law: a cycle lands in one overflow layer past the deepest real one:
/// every node that no topological order reaches sits strictly above every
/// settled node.
pub proof fn law_overflow_layer_is_past_the_deepest(
    nodes: Seq<Seq<char>>,
    edges: Seq<(Seq<char>, Seq<char>)>,
    layers: Seq<i64>,
    u: int,
    v: int,
)
    requires
        stacked(nodes, edges, layers),
        0 <= u < nodes.len(),
        0 <= v < nodes.len(),
        settled(nodes, edges, u),
        !settled(nodes, edges, v),
    ensures
        layers[u] < layers[v],
{
    let n = nodes.len() as int;
    assert(longest_chain(nodes, edges, u, layers[u] as int));
    assert(layers[v] == 1 + overflow_upto(nodes, edges, layers, n));
    lemma_overflow_above(nodes, edges, layers, u, n);
    lemma_fed_depth_nonneg(nodes, edges, layers, u, n);
    let p = choose|p: Seq<int>| #[trigger] chain_to(nodes, edges, p, u) && p.len() == layers[u] + 1;
    if p.len() >= 2 {
        let w = p[p.len() - 2];
        let pw = p.drop_last();
        let i0 = p.len() - 2;
        assert(arc(nodes, edges, p[i0], p[i0 + 1]));
        assert(p[i0 + 1] == u);
        assert forall|i: int| 0 <= i < pw.len() - 1 implies #[trigger] arc(nodes, edges, pw[i], pw[i + 1]) by {
            assert(pw[i] == p[i] && pw[i + 1] == p[i + 1]);
            assert(arc(nodes, edges, p[i], p[i + 1]));
        }
        assert(chain_to(nodes, edges, pw, w));
        let k = choose|k: nat| #[trigger] chains_at_most(nodes, edges, u, k);
        assert forall|c: Seq<int>| #[trigger] chain_to(nodes, edges, c, w) implies c.len() <= k by {
            let cu = c.push(u);
            assert forall|i: int| 0 <= i < cu.len() - 1 implies #[trigger] arc(nodes, edges, cu[i], cu[i + 1]) by {
                if i < c.len() - 1 {
                    assert(cu[i] == c[i] && cu[i + 1] == c[i + 1]);
                    assert(arc(nodes, edges, c[i], c[i + 1]));
                } else {
                    assert(cu[i] == w && cu[i + 1] == u);
                }
            }
            assert(cu[0] == c[0]);
            assert(chain_to(nodes, edges, cu, u));
        }
        assert(chains_at_most(nodes, edges, w, k));
        assert(settled(nodes, edges, w));
        assert(0 <= w < n);
        assert(longest_chain(nodes, edges, w, layers[w] as int));
        assert(pw.len() <= layers[w] + 1);
        lemma_fed_depth_above(nodes, edges, layers, u, w, n);
    }
}


/// `e1` and `e2` relate the same known nodes: an edge from one known node to
/// another is in the first list exactly when it is in the second, however
/// often and in whatever order, and whatever edges name unknown nodes.
pub open spec fn same_arcs(nodes: Seq<Seq<char>>, e1: Seq<(Seq<char>, Seq<char>)>, e2: Seq<(Seq<char>, Seq<char>)>) -> bool {
    forall|i: int, j: int|
        #![trigger arc(nodes, e1, i, j)]
        #![trigger arc(nodes, e2, i, j)]
        arc(nodes, e1, i, j) <==> arc(nodes, e2, i, j)
}

proof fn lemma_same_chains(
    nodes: Seq<Seq<char>>,
    e1: Seq<(Seq<char>, Seq<char>)>,
    e2: Seq<(Seq<char>, Seq<char>)>,
    p: Seq<int>,
    v: int,
)
    requires
        same_arcs(nodes, e1, e2),
    ensures
        chain_to(nodes, e1, p, v) <==> chain_to(nodes, e2, p, v),
{
    if chain_to(nodes, e1, p, v) {
        assert forall|i: int| 0 <= i < p.len() - 1 implies #[trigger] arc(nodes, e2, p[i], p[i + 1]) by {
            assert(arc(nodes, e1, p[i], p[i + 1]));
        }
    }
    if chain_to(nodes, e2, p, v) {
        assert forall|i: int| 0 <= i < p.len() - 1 implies #[trigger] arc(nodes, e1, p[i], p[i + 1]) by {
            assert(arc(nodes, e2, p[i], p[i + 1]));
        }
    }
}

proof fn lemma_same_settled(
    nodes: Seq<Seq<char>>,
    e1: Seq<(Seq<char>, Seq<char>)>,
    e2: Seq<(Seq<char>, Seq<char>)>,
    v: int,
)
    requires
        same_arcs(nodes, e1, e2),
    ensures
        settled(nodes, e1, v) <==> settled(nodes, e2, v),
{
    if settled(nodes, e1, v) {
        let k = choose|k: nat| #[trigger] chains_at_most(nodes, e1, v, k);
        assert forall|p: Seq<int>| #[trigger] chain_to(nodes, e2, p, v) implies p.len() <= k by {
            lemma_same_chains(nodes, e1, e2, p, v);
        }
        assert(chains_at_most(nodes, e2, v, k));
    }
    if settled(nodes, e2, v) {
        let k = choose|k: nat| #[trigger] chains_at_most(nodes, e2, v, k);
        assert forall|p: Seq<int>| #[trigger] chain_to(nodes, e1, p, v) implies p.len() <= k by {
            lemma_same_chains(nodes, e1, e2, p, v);
        }
        assert(chains_at_most(nodes, e1, v, k));
    }
}

proof fn lemma_same_longest(
    nodes: Seq<Seq<char>>,
    e1: Seq<(Seq<char>, Seq<char>)>,
    e2: Seq<(Seq<char>, Seq<char>)>,
    v: int,
    d1: int,
    d2: int,
)
    requires
        same_arcs(nodes, e1, e2),
        longest_chain(nodes, e1, v, d1),
        longest_chain(nodes, e2, v, d2),
    ensures
        d1 == d2,
{
    let p1 = choose|p: Seq<int>| #[trigger] chain_to(nodes, e1, p, v) && p.len() == d1 + 1;
    let p2 = choose|p: Seq<int>| #[trigger] chain_to(nodes, e2, p, v) && p.len() == d2 + 1;
    lemma_same_chains(nodes, e1, e2, p1, v);
    lemma_same_chains(nodes, e1, e2, p2, v);
    assert(p1.len() <= d2 + 1);
    assert(p2.len() <= d1 + 1);
}

proof fn lemma_same_fed_depth(
    nodes: Seq<Seq<char>>,
    e1: Seq<(Seq<char>, Seq<char>)>,
    e2: Seq<(Seq<char>, Seq<char>)>,
    l1: Seq<i64>,
    l2: Seq<i64>,
    v: int,
    m: int,
)
    requires
        same_arcs(nodes, e1, e2),
        m <= nodes.len(),
        forall|u: int| 0 <= u < nodes.len() && settled(nodes, e1, u) ==> #[trigger] l1[u] == l2[u],
    ensures
        fed_depth(nodes, e1, l1, v, m) == fed_depth(nodes, e2, l2, v, m),
    decreases m,
{
    if m > 0 {
        lemma_same_fed_depth(nodes, e1, e2, l1, l2, v, m - 1);
        lemma_same_settled(nodes, e1, e2, m - 1);
        assert(arc(nodes, e1, m - 1, v) == arc(nodes, e2, m - 1, v));
        if settled(nodes, e1, m - 1) {
            assert(l1[m - 1] == l2[m - 1]);
        }
    }
}

proof fn lemma_same_overflow(
    nodes: Seq<Seq<char>>,
    e1: Seq<(Seq<char>, Seq<char>)>,
    e2: Seq<(Seq<char>, Seq<char>)>,
    l1: Seq<i64>,
    l2: Seq<i64>,
    m: int,
)
    requires
        same_arcs(nodes, e1, e2),
        m <= nodes.len(),
        forall|u: int| 0 <= u < nodes.len() && settled(nodes, e1, u) ==> #[trigger] l1[u] == l2[u],
    ensures
        overflow_upto(nodes, e1, l1, m) == overflow_upto(nodes, e2, l2, m),
    decreases m,
{
    if m > 0 {
        lemma_same_overflow(nodes, e1, e2, l1, l2, m - 1);
        lemma_same_fed_depth(nodes, e1, e2, l1, l2, m - 1, nodes.len() as int);
    }
}

/// Law: stacking depends only on which known nodes the edges relate. Two
/// edge lists that relate the same known nodes (one with edges repeated,
/// reordered, or naming unknown nodes) give the same layers.
pub proof fn law_layers_depend_only_on_the_edge_set(
    nodes: Seq<Seq<char>>,
    e1: Seq<(Seq<char>, Seq<char>)>,
    e2: Seq<(Seq<char>, Seq<char>)>,
    l1: Seq<i64>,
    l2: Seq<i64>,
)
    requires
        same_arcs(nodes, e1, e2),
        stacked(nodes, e1, l1),
        stacked(nodes, e2, l2),
    ensures
        l1 == l2,
{
    let n = nodes.len() as int;
    assert forall|u: int| 0 <= u < n && settled(nodes, e1, u) implies #[trigger] l1[u] == l2[u] by {
        lemma_same_settled(nodes, e1, e2, u);
        lemma_same_longest(nodes, e1, e2, u, l1[u] as int, l2[u] as int);
    }
    lemma_same_overflow(nodes, e1, e2, l1, l2, n);
    assert forall|u: int| 0 <= u < n implies l1[u] == l2[u] by {
        lemma_same_settled(nodes, e1, e2, u);
    }
    assert(l1 =~= l2);
}

/// Every edge of `e1` between known nodes also occurs in `e2`, and every edge
/// of `e2` between known nodes also occurs in `e1`: `e2` is `e1` with edges
/// repeated, reordered, dropped where repeated, or added where they name a
/// node that is not in `nodes`.
pub open spec fn same_known_edges(nodes: Seq<Seq<char>>, e1: Seq<(Seq<char>, Seq<char>)>, e2: Seq<(Seq<char>, Seq<char>)>) -> bool {
    &&& forall|k: int| 0 <= k < e1.len() && nodes.contains((#[trigger] e1[k]).0) && nodes.contains(e1[k].1) ==> e2.contains(e1[k])
    &&& forall|k: int| 0 <= k < e2.len() && nodes.contains((#[trigger] e2[k]).0) && nodes.contains(e2[k].1) ==> e1.contains(e2[k])
}

proof fn lemma_arc_carries(nodes: Seq<Seq<char>>, e1: Seq<(Seq<char>, Seq<char>)>, e2: Seq<(Seq<char>, Seq<char>)>, i: int, j: int)
    requires
        forall|k: int| 0 <= k < e1.len() && nodes.contains((#[trigger] e1[k]).0) && nodes.contains(e1[k].1) ==> e2.contains(e1[k]),
        arc(nodes, e1, i, j),
    ensures
        arc(nodes, e2, i, j),
{
    let k = choose|k: int| 0 <= k < e1.len() && #[trigger] directs(e1[k], nodes[i], nodes[j]);
    assert(nodes.contains(e1[k].0) && nodes.contains(e1[k].1)) by {
        assert(nodes[i] == e1[k].0 && nodes[j] == e1[k].1);
    }
    assert(e2.contains(e1[k]));
    let k2 = choose|k2: int| 0 <= k2 < e2.len() && e2[k2] == e1[k];
    assert(directs(e2[k2], nodes[i], nodes[j]));
}

/// Law: stacking ignores how the edges are listed. Two edge lists with the
/// same edges between known nodes (one of them with edges repeated, in
/// another order, or with extra edges naming unknown nodes) give the same
/// layers: `stack_layers` ensures `stacked`, so its results on the two lists
/// are equal.
pub proof fn law_stack_layers_ignore_repeated_reordered_and_foreign_edges(
    nodes: Seq<Seq<char>>,
    e1: Seq<(Seq<char>, Seq<char>)>,
    e2: Seq<(Seq<char>, Seq<char>)>,
    l1: Seq<i64>,
    l2: Seq<i64>,
)
    requires
        same_known_edges(nodes, e1, e2),
        stacked(nodes, e1, l1),
        stacked(nodes, e2, l2),
    ensures
        l1 == l2,
{
    assert forall|i: int, j: int|
        #![trigger arc(nodes, e1, i, j)]
        #![trigger arc(nodes, e2, i, j)]
        arc(nodes, e1, i, j) <==> arc(nodes, e2, i, j) by {
        if arc(nodes, e1, i, j) {
            lemma_arc_carries(nodes, e1, e2, i, j);
        }
        if arc(nodes, e2, i, j) {
            lemma_arc_carries(nodes, e2, e1, i, j);
        }
    }
    law_layers_depend_only_on_the_edge_set(nodes, e1, e2, l1, l2);
}

/// Edge `e` joins two distinct known nodes, one of them node `v`.
pub open spec fn incident(nodes: Seq<Seq<char>>, e: (Seq<char>, Seq<char>), v: int) -> bool {
    &&& nodes.contains(e.0)
    &&& nodes.contains(e.1)
    &&& e.0 != e.1
    &&& (e.0 == nodes[v] || e.1 == nodes[v])
}

/// How many of the first `m` edges are incident to node `v`: its undirected
/// degree, every listed edge counted.
pub open spec fn degree_upto(nodes: Seq<Seq<char>>, edges: Seq<(Seq<char>, Seq<char>)>, v: int, m: int) -> nat
    decreases m,
{
    if m <= 0 {
        0
    } else {
        degree_upto(nodes, edges, v, m - 1) + if incident(nodes, edges[m - 1], v) {
            1nat
        } else {
            0nat
        }
    }
}

/// The angular weight of each node for a weighted ring: its undirected
/// degree plus one, so that a node with no relation keeps the width of an
/// undisclosed slot. The result is aligned with `node_ids`.
pub fn degree_weights(node_ids: &Vec<String>, edges: &Vec<(String, String)>) -> (weights: Vec<u64>)
    requires
        edges@.len() < u64::MAX,
    ensures
        weights@.len() == node_ids@.len(),
        forall|v: int|
            0 <= v < node_ids@.len() ==> #[trigger] weights@[v] == degree_upto(
                views(node_ids@),
                edge_views(edges@),
                v,
                edges@.len() as int,
            ) + 1,
{
    let ghost nodes = views(node_ids@);
    let ghost ev = edge_views(edges@);
    let mut weights: Vec<u64> = Vec::new();
    let mut v: usize = 0;
    while v < node_ids.len()
        invariant
            v <= node_ids@.len(),
            nodes == views(node_ids@),
            ev == edge_views(edges@),
            edges@.len() < u64::MAX,
            weights@.len() == v,
            forall|a: int| 0 <= a < v ==> #[trigger] weights@[a] == degree_upto(nodes, ev, a, edges@.len() as int) + 1,
        decreases node_ids@.len() - v,
    {
        let id = node_ids[v].as_str();
        let mut degree: u64 = 0;
        let mut k: usize = 0;
        while k < edges.len()
            invariant
                v < node_ids@.len(),
                k <= edges@.len(),
                edges@.len() < u64::MAX,
                nodes == views(node_ids@),
                ev == edge_views(edges@),
                id@ == nodes[v as int],
                degree == degree_upto(nodes, ev, v as int, k as int),
                degree <= k,
            decreases edges@.len() - k,
        {
            let (a, b) = (&edges[k].0, &edges[k].1);
            proof {
                assert(ev[k as int] == (edges@[k as int].0@, edges@[k as int].1@));
            }
            if holds_string(node_ids, a.as_str()) && holds_string(node_ids, b.as_str()) && !str_eq(a.as_str(), b.as_str())
                && (str_eq(a.as_str(), id) || str_eq(b.as_str(), id)) {
                degree = degree + 1;
            }
            k = k + 1;
        }
        weights.push(degree + 1);
        v = v + 1;
    }
    weights
}

} // verus!
