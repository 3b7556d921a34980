//! Readings of the public repository graph: the checks a graph must pass
//! before anything is placed, the node a view centres on, a focus and its
//! neighbours, and the change marks between two revisions of the graph.

use vstd::prelude::*;

use crate::firmware_catalog::{hex_text, lower_hex, sha256, sha256_digest};
use crate::public_text::opt_text;
use crate::text::{blank_free, cat2, cat3, joined, sort_texts, str_eq, text_order, views};

verus! {

/// The schema every repository graph names.
pub const GRAPH_INPUT_SCHEMA: &'static str = "mer3ly.repo-graph/v1";

/// The repository a view centres on when it can.
pub const PREFERRED_FOCUS_REPOSITORY: &'static str = "mere";

/// A repository graph as a host hands it over.
#[derive(Debug)]
pub struct GraphInput {
    pub schema: String,
    pub focus: Option<String>,
    pub nodes: Vec<GraphNodeInput>,
    pub edges: Vec<GraphEdge>,
}

/// One repository of the graph.
#[derive(Debug)]
pub struct GraphNodeInput {
    pub id: String,
    pub name: String,
    pub class: String,
    pub status: String,
    pub pushed_at: String,
    pub change: Option<String>,
    pub summary: Option<String>,
}

/// One relation of the graph.
#[derive(Debug)]
pub struct GraphEdge {
    pub id: String,
    pub source: String,
    pub target: String,
    pub kind: String,
    pub provenance: String,
    pub change: Option<String>,
}

/// A copy of an optional string.
fn copy_opt(o: &Option<String>) -> (r: Option<String>)
    ensures
        r == *o,
{
    match o {
        Some(s) => Some(s.clone()),
        None => None,
    }
}

impl Clone for GraphNodeInput {
    fn clone(&self) -> (r: Self)
        ensures
            r == *self,
    {
        GraphNodeInput {
            id: self.id.clone(),
            name: self.name.clone(),
            class: self.class.clone(),
            status: self.status.clone(),
            pushed_at: self.pushed_at.clone(),
            change: copy_opt(&self.change),
            summary: copy_opt(&self.summary),
        }
    }
}

impl Clone for GraphEdge {
    fn clone(&self) -> (r: Self)
        ensures
            r == *self,
    {
        GraphEdge {
            id: self.id.clone(),
            source: self.source.clone(),
            target: self.target.clone(),
            kind: self.kind.clone(),
            provenance: self.provenance.clone(),
            change: copy_opt(&self.change),
        }
    }
}

/// The ids of the nodes, in order.
pub open spec fn node_ids(ns: Seq<GraphNodeInput>) -> Seq<Seq<char>> {
    ns.map_values(|n: GraphNodeInput| n.id@)
}

/// The ids of the edges, in order.
pub open spec fn edge_ids(es: Seq<GraphEdge>) -> Seq<Seq<char>> {
    es.map_values(|e: GraphEdge| e.id@)
}

/// A node lacks one of its texts.
pub open spec fn node_incomplete(n: GraphNodeInput) -> bool {
    n.id@.len() == 0 || n.name@.len() == 0 || n.class@.len() == 0 || n.status@.len() == 0 || n.pushed_at@.len() == 0
}

/// An earlier node carries the same id as node `i`.
pub open spec fn node_repeats(ns: Seq<GraphNodeInput>, i: int) -> bool {
    exists|j: int| 0 <= j < i && (#[trigger] ns[j]).id@ == ns[i].id@
}

/// Node `i` is incomplete or repeats an id.
pub open spec fn node_bad(ns: Seq<GraphNodeInput>, i: int) -> bool {
    node_incomplete(ns[i]) || node_repeats(ns, i)
}

/// Node `i` is the first bad node.
pub open spec fn first_bad_node(ns: Seq<GraphNodeInput>, i: int) -> bool {
    &&& 0 <= i < ns.len()
    &&& node_bad(ns, i)
    &&& forall|j: int| 0 <= j < i ==> !#[trigger] node_bad(ns, j)
}

/// An earlier edge carries the same id as edge `i`.
pub open spec fn edge_repeats(es: Seq<GraphEdge>, i: int) -> bool {
    exists|j: int| 0 <= j < i && (#[trigger] es[j]).id@ == es[i].id@
}

/// Edge `i` names a node the graph lacks.
pub open spec fn edge_dangles(es: Seq<GraphEdge>, ids: Seq<Seq<char>>, i: int) -> bool {
    !ids.contains(es[i].source@) || !ids.contains(es[i].target@)
}

/// Edge `i` repeats an id or dangles.
pub open spec fn edge_bad(es: Seq<GraphEdge>, ids: Seq<Seq<char>>, i: int) -> bool {
    edge_repeats(es, i) || edge_dangles(es, ids, i)
}

/// Edge `i` is the first bad edge.
pub open spec fn first_bad_edge(es: Seq<GraphEdge>, ids: Seq<Seq<char>>, i: int) -> bool {
    &&& 0 <= i < es.len()
    &&& edge_bad(es, ids, i)
    &&& forall|j: int| 0 <= j < i ==> !#[trigger] edge_bad(es, ids, j)
}

/// Why the graph cannot be read, if it cannot: its schema, an empty node
/// list, the first incomplete or repeated node, a focus outside the graph,
/// or the first repeated or dangling edge, in that order.
pub open spec fn graph_problem(g: GraphInput) -> Option<Seq<char>> {
    let ns = g.nodes@;
    let es = g.edges@;
    let ids = node_ids(ns);
    if g.schema@ != GRAPH_INPUT_SCHEMA@ {
        Some("unsupported graph schema "@ + g.schema@)
    } else if ns.len() == 0 {
        Some("repository graph has no nodes"@)
    } else if exists|i: int| #[trigger] first_bad_node(ns, i) {
        let i = choose|i: int| #[trigger] first_bad_node(ns, i);
        if node_incomplete(ns[i]) {
            Some("repository graph contains an incomplete node"@)
        } else {
            Some("duplicate repository graph node "@ + ns[i].id@)
        }
    } else if g.focus is Some && !ids.contains(g.focus->0@) {
        Some("repository graph focus "@ + g.focus->0@ + " is not a graph node"@)
    } else if exists|i: int| #[trigger] first_bad_edge(es, ids, i) {
        let i = choose|i: int| #[trigger] first_bad_edge(es, ids, i);
        if edge_repeats(es, i) {
            Some("duplicate repository graph edge "@ + es[i].id@)
        } else {
            Some("repository graph edge "@ + es[i].id@ + " has an unknown endpoint"@)
        }
    } else {
        None
    }
}

/// Whether an earlier item of `v` is the text `x`.
fn seen_before(v: &Vec<String>, x: &str) -> (r: bool)
    ensures
        r == views(v@).contains(x@),
{
    crate::text::holds_string(v, x)
}

/// Checks that the graph can be read: its schema, its nodes, its focus and
/// its edges.
pub fn validate(input: &GraphInput) -> (r: Result<(), String>)
    ensures
        match r {
            Ok(()) => graph_problem(*input) is None,
            Err(e) => graph_problem(*input) == Some(e@),
        },
{
    let ghost ns = input.nodes@;
    let ghost es = input.edges@;
    if !str_eq(input.schema.as_str(), GRAPH_INPUT_SCHEMA) {
        return Err(cat2("unsupported graph schema ", input.schema.as_str()));
    }
    if input.nodes.len() == 0 {
        return Err(String::from_str("repository graph has no nodes"));
    }
    let mut ids: Vec<String> = Vec::new();
    let mut i: usize = 0;
    while i < input.nodes.len()
        invariant
            ns == input.nodes@,
            es == input.edges@,
            input.schema@ == GRAPH_INPUT_SCHEMA@,
            ns.len() > 0,
            i <= ns.len(),
            views(ids@) == node_ids(ns).take(i as int),
            forall|j: int| 0 <= j < i ==> !#[trigger] node_bad(ns, j),
        decreases ns.len() - i,
    {
        let n = &input.nodes[i];
        let incomplete = blank_free(n.id.as_str()) || blank_free(n.name.as_str()) || blank_free(n.class.as_str())
            || blank_free(n.status.as_str()) || blank_free(n.pushed_at.as_str());
        if incomplete {
            proof {
                assert(first_bad_node(ns, i as int));
                let c = choose|c: int| #[trigger] first_bad_node(ns, c);
                if c < i {
                    assert(!node_bad(ns, c));
                } else if c > i {
                    assert(!node_bad(ns, i as int));
                }
            }
            return Err(String::from_str("repository graph contains an incomplete node"));
        }
        if seen_before(&ids, n.id.as_str()) {
            proof {
                let k = choose|k: int| 0 <= k < views(ids@).len() && views(ids@)[k] == n.id@;
                assert(node_ids(ns).take(i as int)[k] == ns[k].id@);
                assert(node_repeats(ns, i as int));
                assert(first_bad_node(ns, i as int));
                let c = choose|c: int| #[trigger] first_bad_node(ns, c);
                if c < i {
                    assert(!node_bad(ns, c));
                } else if c > i {
                    assert(!node_bad(ns, i as int));
                }
            }
            return Err(cat2("duplicate repository graph node ", n.id.as_str()));
        }
        proof {
            assert forall|j: int| 0 <= j < i implies (#[trigger] ns[j]).id@ != ns[i as int].id@ by {
                assert(views(ids@)[j] == node_ids(ns)[j]);
            }
            assert(!node_bad(ns, i as int));
        }
        let ghost prior = ids@;
        ids.push(n.id.clone());
        proof {
            crate::text::lemma_views_push(prior, ids@.last());
            assert(views(ids@) =~= node_ids(ns).take(i + 1));
        }
        i = i + 1;
    }
    proof {
        assert(node_ids(ns).take(ns.len() as int) =~= node_ids(ns));
        assert forall|c: int| !#[trigger] first_bad_node(ns, c) by {}
    }
    match &input.focus {
        Some(f) => {
            if !seen_before(&ids, f.as_str()) {
                return Err(cat3("repository graph focus ", f.as_str(), " is not a graph node"));
            }
        },
        None => {},
    }
    let mut edge_seen: Vec<String> = Vec::new();
    let mut k: usize = 0;
    while k < input.edges.len()
        invariant
            es == input.edges@,
            ns == input.nodes@,
            input.schema@ == GRAPH_INPUT_SCHEMA@,
            ns.len() > 0,
            forall|c: int| !#[trigger] first_bad_node(ns, c),
            input.focus is Some ==> node_ids(ns).contains(input.focus->0@),
            views(ids@) == node_ids(ns),
            k <= es.len(),
            views(edge_seen@) == edge_ids(es).take(k as int),
            forall|j: int| 0 <= j < k ==> !#[trigger] edge_bad(es, node_ids(ns), j),
        decreases es.len() - k,
    {
        let e = &input.edges[k];
        if seen_before(&edge_seen, e.id.as_str()) {
            proof {
                let q = choose|q: int| 0 <= q < views(edge_seen@).len() && views(edge_seen@)[q] == e.id@;
                assert(edge_ids(es).take(k as int)[q] == es[q].id@);
                assert(edge_repeats(es, k as int));
                assert(first_bad_edge(es, node_ids(ns), k as int));
                let c = choose|c: int| #[trigger] first_bad_edge(es, node_ids(ns), c);
                if c < k {
                    assert(!edge_bad(es, node_ids(ns), c));
                } else if c > k {
                    assert(!edge_bad(es, node_ids(ns), k as int));
                }
            }
            return Err(cat2("duplicate repository graph edge ", e.id.as_str()));
        }
        proof {
            assert forall|j: int| 0 <= j < k implies (#[trigger] es[j]).id@ != es[k as int].id@ by {
                assert(views(edge_seen@)[j] == edge_ids(es)[j]);
            }
            assert(!edge_repeats(es, k as int));
        }
        if !seen_before(&ids, e.source.as_str()) || !seen_before(&ids, e.target.as_str()) {
            proof {
                assert(first_bad_edge(es, node_ids(ns), k as int));
                let c = choose|c: int| #[trigger] first_bad_edge(es, node_ids(ns), c);
                if c < k {
                    assert(!edge_bad(es, node_ids(ns), c));
                } else if c > k {
                    assert(!edge_bad(es, node_ids(ns), k as int));
                }
            }
            return Err(cat3("repository graph edge ", e.id.as_str(), " has an unknown endpoint"));
        }
        let ghost prior = edge_seen@;
        edge_seen.push(e.id.clone());
        proof {
            crate::text::lemma_views_push(prior, edge_seen@.last());
            assert(views(edge_seen@) =~= edge_ids(es).take(k + 1));
        }
        k = k + 1;
    }
    proof {
        assert forall|c: int| !#[trigger] first_bad_edge(es, node_ids(ns), c) by {}
    }
    Ok(())
}

/// The node a view centres on: the graph's own focus, else the preferred
/// repository where the graph holds it, else the first node.
pub open spec fn focal(g: GraphInput) -> Seq<char> {
    match g.focus {
        Some(f) => f@,
        None => if node_ids(g.nodes@).contains(PREFERRED_FOCUS_REPOSITORY@) {
            PREFERRED_FOCUS_REPOSITORY@
        } else {
            g.nodes@[0].id@
        },
    }
}

/// The node a view centres on.
pub fn focal_node(input: &GraphInput) -> (r: &str)
    requires
        input.focus is Some || input.nodes@.len() > 0,
    ensures
        r@ == focal(*input),
{
    match &input.focus {
        Some(f) => f.as_str(),
        None => {
            let mut i: usize = 0;
            while i < input.nodes.len()
                invariant
                    input.focus is None,
                    i <= input.nodes@.len(),
                    forall|j: int| 0 <= j < i ==> (#[trigger] input.nodes@[j]).id@ != PREFERRED_FOCUS_REPOSITORY@,
                decreases input.nodes.len() - i,
            {
                if str_eq(input.nodes[i].id.as_str(), PREFERRED_FOCUS_REPOSITORY) {
                    proof {
                        assert(node_ids(input.nodes@)[i as int] == PREFERRED_FOCUS_REPOSITORY@);
                    }
                    return input.nodes[i].id.as_str();
                }
                i = i + 1;
            }
            proof {
                assert forall|j: int| 0 <= j < node_ids(input.nodes@).len() implies node_ids(input.nodes@)[j]
                    != PREFERRED_FOCUS_REPOSITORY@ by {
                    assert(node_ids(input.nodes@)[j] == input.nodes@[j].id@);
                }
            }
            input.nodes[0].id.as_str()
        },
    }
}

/// The node `x` is the focus or shares an edge with it.
pub open spec fn in_neighbourhood(es: Seq<GraphEdge>, focus: Seq<char>, x: Seq<char>) -> bool {
    ||| x == focus
    ||| exists|i: int|
        0 <= i < es.len() && (((#[trigger] es[i]).source@ == focus && es[i].target@ == x) || (es[i].target@ == focus
            && es[i].source@ == x))
}

/// The test for a node of the neighbourhood.
pub open spec fn near_node(es: Seq<GraphEdge>, focus: Seq<char>) -> spec_fn(GraphNodeInput) -> bool {
    |n: GraphNodeInput| in_neighbourhood(es, focus, n.id@)
}

/// The test for an edge inside the neighbourhood.
pub open spec fn near_edge(es: Seq<GraphEdge>, focus: Seq<char>) -> spec_fn(GraphEdge) -> bool {
    |e: GraphEdge| in_neighbourhood(es, focus, e.source@) && in_neighbourhood(es, focus, e.target@)
}

/// The focus's neighbours, the focus included.
fn neighbourhood(es: &Vec<GraphEdge>, focus: &str) -> (r: Vec<String>)
    ensures
        forall|x: Seq<char>| #[trigger] views(r@).contains(x) <==> in_neighbourhood(es@, focus@, x),
{
    let mut ids: Vec<String> = Vec::new();
    ids.push(String::from_str(focus));
    proof {
        assert(views(ids@) =~= seq![focus@]);
        assert forall|x: Seq<char>| #[trigger] views(ids@).contains(x) <==> x == focus@ by {
            if x == focus@ {
                assert(views(ids@)[0] == x);
            }
        }
    }
    let mut i: usize = 0;
    while i < es.len()
        invariant
            i <= es@.len(),
            forall|x: Seq<char>|
                #[trigger] views(ids@).contains(x) <==> (x == focus@ || exists|j: int|
                    0 <= j < i && (((#[trigger] es@[j]).source@ == focus@ && es@[j].target@ == x) || (es@[j].target@
                        == focus@ && es@[j].source@ == x))),
        decreases es.len() - i,
    {
        let e = &es[i];
        let ghost before = views(ids@);
        if str_eq(e.source.as_str(), focus) {
            let ghost prior = ids@;
            ids.push(e.target.clone());
            proof {
                crate::text::lemma_views_push(prior, ids@.last());
            }
        }
        let ghost mid = views(ids@);
        if str_eq(e.target.as_str(), focus) {
            let ghost prior = ids@;
            ids.push(e.source.clone());
            proof {
                crate::text::lemma_views_push(prior, ids@.last());
            }
        }
        proof {
            assert forall|x: Seq<char>|
                #[trigger] views(ids@).contains(x) <==> (x == focus@ || exists|j: int|
                    0 <= j < i + 1 && (((#[trigger] es@[j]).source@ == focus@ && es@[j].target@ == x) || (es@[j].target@
                        == focus@ && es@[j].source@ == x))) by {
                if views(ids@).contains(x) && !before.contains(x) {
                    assert(es@[i as int].source@ == focus@ && es@[i as int].target@ == x || es@[i as int].target@ == focus@
                        && es@[i as int].source@ == x);
                }
                if before.contains(x) {
                    let k = choose|k: int| 0 <= k < before.len() && before[k] == x;
                    assert(views(ids@)[k] == x);
                }
                if (exists|j: int|
                    0 <= j < i + 1 && (((#[trigger] es@[j]).source@ == focus@ && es@[j].target@ == x) || (es@[j].target@
                        == focus@ && es@[j].source@ == x))) && !(exists|j: int|
                    0 <= j < i && (((#[trigger] es@[j]).source@ == focus@ && es@[j].target@ == x) || (es@[j].target@
                        == focus@ && es@[j].source@ == x))) && x != focus@ {
                    if es@[i as int].source@ == focus@ && es@[i as int].target@ == x {
                        assert(mid[mid.len() - 1] == x || views(ids@).contains(x));
                        assert(mid.len() > before.len());
                        assert(views(ids@)[mid.len() - 1] == x);
                    } else {
                        assert(views(ids@)[views(ids@).len() - 1] == x);
                    }
                }
            }
        }
        i = i + 1;
    }
    ids
}

/// The focus and its neighbours, with only the edges among them.
pub fn focus_and_neighbors(current: &GraphInput, focus: &str) -> (r: GraphInput)
    ensures
        r.schema@ == current.schema@,
        r.focus matches Some(f) && f@ == focus@,
        r.nodes@ == current.nodes@.filter(near_node(current.edges@, focus@)),
        r.edges@ == current.edges@.filter(near_edge(current.edges@, focus@)),
{
    let ids = neighbourhood(&current.edges, focus);
    let ghost pn = near_node(current.edges@, focus@);
    let ghost pe = near_edge(current.edges@, focus@);
    let mut nodes: Vec<GraphNodeInput> = Vec::new();
    let mut i: usize = 0;
    while i < current.nodes.len()
        invariant
            i <= current.nodes@.len(),
            pn == near_node(current.edges@, focus@),
            forall|x: Seq<char>| #[trigger] views(ids@).contains(x) <==> in_neighbourhood(current.edges@, focus@, x),
            nodes@ == current.nodes@.take(i as int).filter(pn),
        decreases current.nodes.len() - i,
    {
        proof {
            crate::text::lemma_filter_take_step(current.nodes@, pn, i as int);
        }
        if crate::text::holds_string(&ids, current.nodes[i].id.as_str()) {
            nodes.push(current.nodes[i].clone());
        }
        i = i + 1;
    }
    let mut edges: Vec<GraphEdge> = Vec::new();
    let mut k: usize = 0;
    while k < current.edges.len()
        invariant
            k <= current.edges@.len(),
            pe == near_edge(current.edges@, focus@),
            forall|x: Seq<char>| #[trigger] views(ids@).contains(x) <==> in_neighbourhood(current.edges@, focus@, x),
            edges@ == current.edges@.take(k as int).filter(pe),
        decreases current.edges.len() - k,
    {
        proof {
            crate::text::lemma_filter_take_step(current.edges@, pe, k as int);
        }
        let e = &current.edges[k];
        if crate::text::holds_string(&ids, e.source.as_str()) && crate::text::holds_string(&ids, e.target.as_str()) {
            edges.push(e.clone());
        }
        k = k + 1;
    }
    proof {
        assert(current.nodes@.take(current.nodes@.len() as int) =~= current.nodes@);
        assert(current.edges@.take(current.edges@.len() as int) =~= current.edges@);
    }
    GraphInput { schema: current.schema.clone(), focus: Some(String::from_str(focus)), nodes, edges }
}

/// An identifier read as words: underscores and hyphens become spaces.
pub open spec fn humanized(value: Seq<char>) -> Seq<char> {
    value.map_values(|c: char| if c == '_' || c == '-' { ' ' } else { c })
}

/// An identifier read as words.
pub fn humanize_identifier(value: &str) -> (r: String)
    ensures
        r@ == humanized(value@),
{
    let cs = crate::text::chars_of(value);
    let mut out: Vec<char> = Vec::new();
    let mut i: usize = 0;
    while i < cs.len()
        invariant
            i <= cs@.len(),
            cs@ == value@,
            out@ =~= humanized(value@).take(i as int),
        decreases cs.len() - i,
    {
        let c = cs[i];
        if c == '_' || c == '-' {
            out.push(' ');
        } else {
            out.push(c);
        }
        i = i + 1;
    }
    proof {
        assert(humanized(value@).take(cs@.len() as int) =~= humanized(value@));
    }
    crate::text::string_of(&out)
}

/// The signature of an edge, as the change marks compare edges.
pub open spec fn edge_signature(e: GraphEdge) -> Seq<char> {
    e.id@ + ":"@ + e.source@ + ":"@ + e.target@ + ":"@ + e.kind@ + ":"@ + e.provenance@
}

/// The signatures of the edges at `id`, in edge order, once for each end of
/// an edge that touches it.
pub open spec fn incident(es: Seq<GraphEdge>, id: Seq<char>) -> Seq<Seq<char>>
    decreases es.len(),
{
    if es.len() == 0 {
        Seq::empty()
    } else {
        let rest = incident(es.drop_last(), id);
        let e = es.last();
        let with_source = if e.source@ == id {
            rest.push(edge_signature(e))
        } else {
            rest
        };
        if e.target@ == id {
            with_source.push(edge_signature(e))
        } else {
            with_source
        }
    }
}

/// The edges at `id` as one text: their signatures sorted and joined by
/// `|`; empty where no edge touches the node. Every signature holds a `:`,
/// so the text is empty exactly where no edge touches the node.
pub open spec fn incident_text(es: Seq<GraphEdge>, id: Seq<char>) -> Seq<char> {
    joined(incident(es, id).sort_by(text_order()), "|"@)
}

/// The signature of one edge.
fn edge_signature_of(e: &GraphEdge) -> (r: String)
    ensures
        r@ == edge_signature(*e),
{
    let head = crate::text::cat5(e.id.as_str(), ":", e.source.as_str(), ":", e.target.as_str());
    let out = crate::text::cat5(head.as_str(), ":", e.kind.as_str(), ":", e.provenance.as_str());
    proof {
        assert(out@ =~= edge_signature(*e));
    }
    out
}

/// The edges at `id` as one text.
fn incident_text_of(es: &Vec<GraphEdge>, id: &str) -> (r: String)
    ensures
        r@ == incident_text(es@, id@),
{
    let mut sigs: Vec<String> = Vec::new();
    let mut i: usize = 0;
    while i < es.len()
        invariant
            i <= es@.len(),
            views(sigs@) == incident(es@.take(i as int), id@),
        decreases es.len() - i,
    {
        let e = &es[i];
        proof {
            assert(es@.take(i + 1).drop_last() =~= es@.take(i as int));
            assert(es@.take(i + 1).last() == es@[i as int]);
        }
        if str_eq(e.source.as_str(), id) {
            let ghost prior = sigs@;
            sigs.push(edge_signature_of(e));
            proof {
                crate::text::lemma_views_push(prior, sigs@.last());
            }
        }
        if str_eq(e.target.as_str(), id) {
            let ghost prior = sigs@;
            sigs.push(edge_signature_of(e));
            proof {
                crate::text::lemma_views_push(prior, sigs@.last());
            }
        }
        i = i + 1;
    }
    proof {
        assert(es@.take(es@.len() as int) =~= es@);
    }
    sort_texts(&mut sigs);
    crate::text::join(&sigs, "|")
}

/// The last node carrying the id.
pub open spec fn last_with_id(ns: Seq<GraphNodeInput>, id: Seq<char>) -> Option<GraphNodeInput>
    decreases ns.len(),
{
    if ns.len() == 0 {
        None
    } else if ns.last().id@ == id {
        Some(ns.last())
    } else {
        last_with_id(ns.drop_last(), id)
    }
}

/// The last node carrying the id.
fn last_with_id_of<'a>(ns: &'a Vec<GraphNodeInput>, id: &str) -> (r: Option<&'a GraphNodeInput>)
    ensures
        match r {
            Some(n) => last_with_id(ns@, id@) == Some(*n),
            None => last_with_id(ns@, id@) is None,
        },
{
    let mut found: Option<&GraphNodeInput> = None;
    let mut i: usize = 0;
    while i < ns.len()
        invariant
            i <= ns@.len(),
            match found {
                Some(n) => last_with_id(ns@.take(i as int), id@) == Some(*n),
                None => last_with_id(ns@.take(i as int), id@) is None,
            },
        decreases ns.len() - i,
    {
        proof {
            assert(ns@.take(i + 1).drop_last() =~= ns@.take(i as int));
            assert(ns@.take(i + 1).last() == ns@[i as int]);
        }
        if str_eq(ns[i].id.as_str(), id) {
            found = Some(&ns[i]);
        }
        i = i + 1;
    }
    proof {
        assert(ns@.take(ns@.len() as int) =~= ns@);
    }
    found
}

/// Two revisions of a node agree on name, class, status and last push.
pub open spec fn same_signature(a: GraphNodeInput, b: GraphNodeInput) -> bool {
    a.name@ == b.name@ && a.class@ == b.class@ && a.status@ == b.status@ && a.pushed_at@ == b.pushed_at@
}

/// The change mark of a current node against the previous revision: added
/// where the previous revision lacks it, stable where neither it nor the
/// edges at it changed, updated otherwise.
pub open spec fn node_change(n: GraphNodeInput, prev_nodes: Seq<GraphNodeInput>, prev_edges: Seq<GraphEdge>, edges: Seq<GraphEdge>) -> Seq<char> {
    match last_with_id(prev_nodes, n.id@) {
        None => "added"@,
        Some(q) => if same_signature(q, n) && incident_text(prev_edges, n.id@) == incident_text(edges, n.id@) {
            "stable"@
        } else {
            "updated"@
        },
    }
}

/// The summary of a node present in the checkpoint.
pub open spec fn present_summary(n: GraphNodeInput) -> Seq<char> {
    match n.summary {
        Some(s) => s@,
        None => n.name@ + " is a "@ + humanized(n.class@) + " in the selected public checkpoint."@,
    }
}

/// The summary of a node absent from the checkpoint.
pub open spec fn absent_summary(n: GraphNodeInput) -> Seq<char> {
    match n.summary {
        Some(s) => s@,
        None => n.name@ + " is absent from the selected public checkpoint."@,
    }
}

/// `out` is `n` with the change mark and summary given.
pub open spec fn marked_node(out: GraphNodeInput, n: GraphNodeInput, change: Seq<char>, summary: Seq<char>) -> bool {
    &&& out.id == n.id
    &&& out.name == n.name
    &&& out.class == n.class
    &&& out.status == n.status
    &&& out.pushed_at == n.pushed_at
    &&& opt_text(out.change) == Some(change)
    &&& opt_text(out.summary) == Some(summary)
}

/// `out` is `e` marked removed.
pub open spec fn removed_edge(out: GraphEdge, e: GraphEdge) -> bool {
    &&& out.id == e.id
    &&& out.source == e.source
    &&& out.target == e.target
    &&& out.kind == e.kind
    &&& out.provenance == e.provenance
    &&& opt_text(out.change) == Some("removed"@)
}

/// The test for a previous node the current revision lacks.
pub open spec fn vanished(ids: Seq<Seq<char>>) -> spec_fn(GraphNodeInput) -> bool {
    |n: GraphNodeInput| !ids.contains(n.id@)
}

/// The test for a previous edge the current revision lacks, both of whose
/// ends are shown.
pub open spec fn lost_edge(current_edges: Seq<Seq<char>>, shown: Seq<Seq<char>>) -> spec_fn(GraphEdge) -> bool {
    |e: GraphEdge| !current_edges.contains(e.id@) && shown.contains(e.source@) && shown.contains(e.target@)
}

/// The previous nodes the current revision lacks.
pub open spec fn removed_nodes(prev_nodes: Seq<GraphNodeInput>, current: GraphInput) -> Seq<GraphNodeInput> {
    prev_nodes.filter(vanished(node_ids(current.nodes@)))
}

/// The ids the diff shows: the current nodes, then the removed ones.
pub open spec fn shown_ids(prev_nodes: Seq<GraphNodeInput>, current: GraphInput) -> Seq<Seq<char>> {
    node_ids(current.nodes@) + node_ids(removed_nodes(prev_nodes, current))
}

/// The previous edges the diff shows as removed.
pub open spec fn removed_edges(prev_nodes: Seq<GraphNodeInput>, prev_edges: Seq<GraphEdge>, current: GraphInput) -> Seq<GraphEdge> {
    prev_edges.filter(lost_edge(edge_ids(current.edges@), shown_ids(prev_nodes, current)))
}

/// The focus of the diff: the current focus where the diff shows it, else
/// the first node shown.
pub open spec fn diff_focus(prev_nodes: Seq<GraphNodeInput>, current: GraphInput) -> Option<Seq<char>> {
    let shown = shown_ids(prev_nodes, current);
    if current.focus is Some && shown.contains(current.focus->0@) {
        Some(current.focus->0@)
    } else if shown.len() > 0 {
        Some(shown[0])
    } else {
        None
    }
}

/// `r` is the diff of `current` against a previous revision with the given
/// nodes and edges: every current node with its change mark, then every
/// vanished node marked removed; every current edge, then every vanished
/// edge between shown nodes marked removed.
pub open spec fn is_diff(r: GraphInput, prev_nodes: Seq<GraphNodeInput>, prev_edges: Seq<GraphEdge>, current: GraphInput) -> bool {
    let cn = current.nodes@;
    let ce = current.edges@;
    let gone = removed_nodes(prev_nodes, current);
    let lost = removed_edges(prev_nodes, prev_edges, current);
    &&& r.schema == current.schema
    &&& r.nodes@.len() == cn.len() + gone.len()
    &&& forall|i: int|
        0 <= i < cn.len() ==> marked_node(
            #[trigger] r.nodes@[i],
            cn[i],
            node_change(cn[i], prev_nodes, prev_edges, ce),
            present_summary(cn[i]),
        )
    &&& forall|k: int|
        0 <= k < gone.len() ==> marked_node(#[trigger] r.nodes@[cn.len() + k], gone[k], "removed"@, absent_summary(gone[k]))
    &&& r.edges@.len() == ce.len() + lost.len()
    &&& forall|i: int| 0 <= i < ce.len() ==> #[trigger] r.edges@[i] == ce[i]
    &&& forall|k: int| 0 <= k < lost.len() ==> removed_edge(#[trigger] r.edges@[ce.len() + k], lost[k])
    &&& opt_text(r.focus) == diff_focus(prev_nodes, current)
}

/// The summary a present node shows.
fn present_summary_of(n: &GraphNodeInput) -> (r: String)
    ensures
        r@ == present_summary(*n),
{
    match &n.summary {
        Some(s) => s.clone(),
        None => {
            let words = humanize_identifier(n.class.as_str());
            crate::text::cat4(n.name.as_str(), " is a ", words.as_str(), " in the selected public checkpoint.")
        },
    }
}

/// The change mark of a current node.
fn node_change_of(n: &GraphNodeInput, prev_nodes: &Vec<GraphNodeInput>, prev_edges: &Vec<GraphEdge>, edges: &Vec<GraphEdge>) -> (r: String)
    ensures
        r@ == node_change(*n, prev_nodes@, prev_edges@, edges@),
{
    match last_with_id_of(prev_nodes, n.id.as_str()) {
        None => String::from_str("added"),
        Some(q) => {
            let same = str_eq(q.name.as_str(), n.name.as_str()) && str_eq(q.class.as_str(), n.class.as_str()) && str_eq(
                q.status.as_str(),
                n.status.as_str(),
            ) && str_eq(q.pushed_at.as_str(), n.pushed_at.as_str());
            let stable = same && {
                let before = incident_text_of(prev_edges, n.id.as_str());
                let after = incident_text_of(edges, n.id.as_str());
                str_eq(before.as_str(), after.as_str())
            };
            if stable {
                String::from_str("stable")
            } else {
                String::from_str("updated")
            }
        },
    }
}

/// Marks every node and edge of the current revision against the previous
/// one, and adds what the previous revision had and the current lacks.
pub fn diff_graphs(previous: Option<&GraphInput>, current: &GraphInput) -> (r: GraphInput)
    ensures
        match previous {
            Some(p) => is_diff(r, p.nodes@, p.edges@, *current),
            None => is_diff(r, Seq::empty(), Seq::empty(), *current),
        },
{
    let no_nodes: Vec<GraphNodeInput> = Vec::new();
    let no_edges: Vec<GraphEdge> = Vec::new();
    let (pn, pe) = match previous {
        Some(p) => (&p.nodes, &p.edges),
        None => (&no_nodes, &no_edges),
    };
    let cn = &current.nodes;
    let ce = &current.edges;
    let mut nodes: Vec<GraphNodeInput> = Vec::new();
    let mut current_ids: Vec<String> = Vec::new();
    let mut i: usize = 0;
    while i < cn.len()
        invariant
            i <= cn@.len(),
            cn == &current.nodes,
            ce == &current.edges,
            nodes@.len() == i,
            views(current_ids@) == node_ids(cn@).take(i as int),
            forall|j: int|
                0 <= j < i ==> marked_node(
                    #[trigger] nodes@[j],
                    cn@[j],
                    node_change(cn@[j], pn@, pe@, ce@),
                    present_summary(cn@[j]),
                ),
        decreases cn.len() - i,
    {
        let n = &cn[i];
        let change = node_change_of(n, pn, pe, ce);
        let summary = present_summary_of(n);
        nodes.push(
            GraphNodeInput {
                id: n.id.clone(),
                name: n.name.clone(),
                class: n.class.clone(),
                status: n.status.clone(),
                pushed_at: n.pushed_at.clone(),
                change: Some(change),
                summary: Some(summary),
            },
        );
        let ghost prior = current_ids@;
        current_ids.push(n.id.clone());
        proof {
            crate::text::lemma_views_push(prior, current_ids@.last());
            assert(views(current_ids@) =~= node_ids(cn@).take(i + 1));
        }
        i = i + 1;
    }
    proof {
        assert(node_ids(cn@).take(cn@.len() as int) =~= node_ids(cn@));
    }
    let ghost gone = removed_nodes(pn@, *current);
    let ghost pv = vanished(node_ids(cn@));
    let mut shown: Vec<String> = current_ids.clone();
    let mut k: usize = 0;
    while k < pn.len()
        invariant
            k <= pn@.len(),
            cn == &current.nodes,
            views(current_ids@) == node_ids(cn@),
            pv == vanished(node_ids(cn@)),
            gone == pn@.filter(pv),
            nodes@.len() == cn@.len() + pn@.take(k as int).filter(pv).len(),
            views(shown@) == node_ids(cn@) + node_ids(pn@.take(k as int).filter(pv)),
            forall|j: int|
                0 <= j < cn@.len() ==> marked_node(
                    #[trigger] nodes@[j],
                    cn@[j],
                    node_change(cn@[j], pn@, pe@, ce@),
                    present_summary(cn@[j]),
                ),
            forall|q: int|
                0 <= q < pn@.take(k as int).filter(pv).len() ==> marked_node(
                    #[trigger] nodes@[cn@.len() + q],
                    pn@.take(k as int).filter(pv)[q],
                    "removed"@,
                    absent_summary(pn@.take(k as int).filter(pv)[q]),
                ),
        decreases pn.len() - k,
    {
        proof {
            crate::text::lemma_filter_take_step(pn@, pv, k as int);
        }
        let n = &pn[k];
        if !crate::text::holds_string(&current_ids, n.id.as_str()) {
            let summary = match &n.summary {
                Some(s) => s.clone(),
                None => cat2(n.name.as_str(), " is absent from the selected public checkpoint."),
            };
            let ghost before = nodes@;
            nodes.push(
                GraphNodeInput {
                    id: n.id.clone(),
                    name: n.name.clone(),
                    class: n.class.clone(),
                    status: n.status.clone(),
                    pushed_at: n.pushed_at.clone(),
                    change: Some(String::from_str("removed")),
                    summary: Some(summary),
                },
            );
            let ghost prior = shown@;
            shown.push(n.id.clone());
            proof {
                crate::text::lemma_views_push(prior, shown@.last());
                let f = pn@.take(k + 1).filter(pv);
                assert(f == pn@.take(k as int).filter(pv).push(pn@[k as int]));
                assert(node_ids(f) =~= node_ids(pn@.take(k as int).filter(pv)).push(n.id@));
                assert(views(shown@) =~= node_ids(cn@) + node_ids(f));
                assert forall|j: int| 0 <= j < cn@.len() implies marked_node(
                    #[trigger] nodes@[j],
                    cn@[j],
                    node_change(cn@[j], pn@, pe@, ce@),
                    present_summary(cn@[j]),
                ) by {
                    assert(nodes@[j] == before[j]);
                }
                assert forall|q: int| 0 <= q < f.len() implies marked_node(
                    #[trigger] nodes@[cn@.len() + q],
                    f[q],
                    "removed"@,
                    absent_summary(f[q]),
                ) by {
                    if q < f.len() - 1 {
                        assert(nodes@[cn@.len() + q] == before[cn@.len() + q]);
                    }
                }
            }
        }
        k = k + 1;
    }
    proof {
        assert(pn@.take(pn@.len() as int) =~= pn@);
    }
    let ghost shown_view = shown_ids(pn@, *current);
    let mut edges: Vec<GraphEdge> = Vec::new();
    let mut current_edge_ids: Vec<String> = Vec::new();
    let mut e: usize = 0;
    while e < ce.len()
        invariant
            e <= ce@.len(),
            ce == &current.edges,
            edges@ == ce@.take(e as int),
            views(current_edge_ids@) == edge_ids(ce@).take(e as int),
        decreases ce.len() - e,
    {
        edges.push(ce[e].clone());
        let ghost prior = current_edge_ids@;
        current_edge_ids.push(ce[e].id.clone());
        proof {
            crate::text::lemma_views_push(prior, current_edge_ids@.last());
            assert(views(current_edge_ids@) =~= edge_ids(ce@).take(e + 1));
            assert(edges@ =~= ce@.take(e + 1));
        }
        e = e + 1;
    }
    proof {
        assert(ce@.take(ce@.len() as int) =~= ce@);
        assert(edge_ids(ce@).take(ce@.len() as int) =~= edge_ids(ce@));
    }
    let ghost pl = lost_edge(edge_ids(ce@), shown_view);
    let mut m: usize = 0;
    while m < pe.len()
        invariant
            m <= pe@.len(),
            ce == &current.edges,
            views(current_edge_ids@) == edge_ids(ce@),
            views(shown@) == shown_view,
            pl == lost_edge(edge_ids(ce@), shown_view),
            edges@.len() == ce@.len() + pe@.take(m as int).filter(pl).len(),
            forall|j: int| 0 <= j < ce@.len() ==> #[trigger] edges@[j] == ce@[j],
            forall|q: int|
                0 <= q < pe@.take(m as int).filter(pl).len() ==> removed_edge(
                    #[trigger] edges@[ce@.len() + q],
                    pe@.take(m as int).filter(pl)[q],
                ),
        decreases pe.len() - m,
    {
        proof {
            crate::text::lemma_filter_take_step(pe@, pl, m as int);
        }
        let x = &pe[m];
        if !crate::text::holds_string(&current_edge_ids, x.id.as_str()) && crate::text::holds_string(&shown, x.source.as_str())
            && crate::text::holds_string(&shown, x.target.as_str()) {
            let ghost before = edges@;
            edges.push(
                GraphEdge {
                    id: x.id.clone(),
                    source: x.source.clone(),
                    target: x.target.clone(),
                    kind: x.kind.clone(),
                    provenance: x.provenance.clone(),
                    change: Some(String::from_str("removed")),
                },
            );
            proof {
                let f = pe@.take(m + 1).filter(pl);
                assert(f == pe@.take(m as int).filter(pl).push(pe@[m as int]));
                assert forall|j: int| 0 <= j < ce@.len() implies #[trigger] edges@[j] == ce@[j] by {
                    assert(edges@[j] == before[j]);
                }
                assert forall|q: int| 0 <= q < f.len() implies removed_edge(#[trigger] edges@[ce@.len() + q], f[q]) by {
                    if q < f.len() - 1 {
                        assert(edges@[ce@.len() + q] == before[ce@.len() + q]);
                    }
                }
            }
        }
        m = m + 1;
    }
    proof {
        assert(pe@.take(pe@.len() as int) =~= pe@);
    }
    let focus = match &current.focus {
        Some(f) => {
            if crate::text::holds_string(&shown, f.as_str()) {
                Some(f.clone())
            } else if shown.len() > 0 {
                Some(shown[0].clone())
            } else {
                None
            }
        },
        None => {
            if shown.len() > 0 {
                Some(shown[0].clone())
            } else {
                None
            }
        },
    };
    proof {
        if shown@.len() > 0 {
            assert(views(shown@)[0] == shown@[0]@);
        }
    }
    GraphInput { schema: current.schema.clone(), focus, nodes, edges }
}

/// The change mark a current node carries after decoration: its own mark
/// where it has one, else the diff's mark for the last current node with its
/// id.
pub open spec fn decorated_change(n: GraphNodeInput, current: GraphInput, prev_nodes: Seq<GraphNodeInput>, prev_edges: Seq<GraphEdge>) -> Seq<char> {
    match n.change {
        Some(c) => c@,
        None => node_change(last_with_id(current.nodes@, n.id@)->0, prev_nodes, prev_edges, current.edges@),
    }
}

/// `r` is `current` with every node given a change mark and a summary.
pub open spec fn is_decorated(r: GraphInput, current: GraphInput, prev_nodes: Seq<GraphNodeInput>, prev_edges: Seq<GraphEdge>) -> bool {
    let cn = current.nodes@;
    &&& r.schema == current.schema
    &&& r.focus == current.focus
    &&& r.edges == current.edges
    &&& r.nodes@.len() == cn.len()
    &&& forall|i: int|
        0 <= i < cn.len() ==> marked_node(
            #[trigger] r.nodes@[i],
            cn[i],
            decorated_change(cn[i], current, prev_nodes, prev_edges),
            present_summary(cn[i]),
        )
}

/// Gives every current node a change mark against the previous revision,
/// keeping any mark it already carries, and a summary where it has none.
pub fn decorate_current(current: GraphInput, previous: Option<&GraphInput>) -> (r: GraphInput)
    ensures
        match previous {
            Some(p) => is_decorated(r, current, p.nodes@, p.edges@),
            None => is_decorated(r, current, Seq::empty(), Seq::empty()),
        },
{
    let no_nodes: Vec<GraphNodeInput> = Vec::new();
    let no_edges: Vec<GraphEdge> = Vec::new();
    let (pn, pe) = match previous {
        Some(p) => (&p.nodes, &p.edges),
        None => (&no_nodes, &no_edges),
    };
    let mut nodes: Vec<GraphNodeInput> = Vec::new();
    let mut i: usize = 0;
    while i < current.nodes.len()
        invariant
            i <= current.nodes@.len(),
            nodes@.len() == i,
            forall|j: int|
                0 <= j < i ==> marked_node(
                    #[trigger] nodes@[j],
                    current.nodes@[j],
                    decorated_change(current.nodes@[j], current, pn@, pe@),
                    present_summary(current.nodes@[j]),
                ),
        decreases current.nodes.len() - i,
    {
        let n = &current.nodes[i];
        let change = match &n.change {
            Some(c) => c.clone(),
            None => {
                let q = last_with_id_of(&current.nodes, n.id.as_str());
                proof {
                    lemma_last_with_id_found(current.nodes@, i as int);
                }
                match q {
                    Some(q) => node_change_of(q, pn, pe, &current.edges),
                    None => String::from_str("stable"),
                }
            },
        };
        let summary = present_summary_of(n);
        nodes.push(
            GraphNodeInput {
                id: n.id.clone(),
                name: n.name.clone(),
                class: n.class.clone(),
                status: n.status.clone(),
                pushed_at: n.pushed_at.clone(),
                change: Some(change),
                summary: Some(summary),
            },
        );
        i = i + 1;
    }
    GraphInput { schema: current.schema, focus: current.focus, nodes, edges: current.edges }
}

/// A node's own id always finds a node.
proof fn lemma_last_with_id_found(ns: Seq<GraphNodeInput>, i: int)
    requires
        0 <= i < ns.len(),
    ensures
        last_with_id(ns, ns[i].id@) is Some,
    decreases ns.len(),
{
    if ns.last().id@ != ns[i].id@ {
        assert(i < ns.len() - 1);
        assert(ns.drop_last()[i] == ns[i]);
        lemma_last_with_id_found(ns.drop_last(), i);
    }
}

/// Which nodes a graph reading keeps, as the reading registry describes the
/// reading.
#[derive(Clone, Copy, Debug, PartialEq, Eq, Structural)]
pub enum ActorScope {
    All,
    AdjacentRevision,
    FocusAndNeighbors,
}

/// A request to read the graph one way.
pub struct ReadingRequest {
    pub reading: String,
    pub current: GraphInput,
    pub previous: Option<GraphInput>,
    pub focus: Option<String>,
}

/// The nodes of the previous revision, if there is one.
pub open spec fn previous_nodes(p: Option<GraphInput>) -> Seq<GraphNodeInput> {
    match p {
        Some(g) => g.nodes@,
        None => Seq::empty(),
    }
}

/// The edges of the previous revision, if there is one.
pub open spec fn previous_edges(p: Option<GraphInput>) -> Seq<GraphEdge> {
    match p {
        Some(g) => g.edges@,
        None => Seq::empty(),
    }
}

/// Why the request cannot be read, if it cannot: the current graph, the
/// previous graph, or a reading the registry does not know.
pub open spec fn reading_problem(req: ReadingRequest, scope: Option<ActorScope>) -> Option<Seq<char>> {
    if graph_problem(req.current) is Some {
        graph_problem(req.current)
    } else if req.previous is Some && graph_problem(req.previous->0) is Some {
        graph_problem(req.previous->0)
    } else if scope is None {
        Some("unknown graph reading "@ + req.reading@)
    } else {
        None
    }
}

/// Some node of the current graph already carries a change mark.
pub open spec fn authored_changes(g: GraphInput) -> bool {
    exists|i: int| 0 <= i < g.nodes@.len() && (#[trigger] g.nodes@[i]).change is Some
}

/// The node a neighbourhood reading centres on: the requested focus where
/// the graph holds it, else the graph's own focus, else its focal node.
pub open spec fn reading_focus(req_focus: Option<String>, d: GraphInput) -> Seq<char> {
    if req_focus is Some && node_ids(d.nodes@).contains(req_focus->0@) {
        req_focus->0@
    } else {
        focal(d)
    }
}

/// `g` is what the reading of the scope makes of the decorated graph `d`.
pub open spec fn reading_of(g: GraphInput, d: GraphInput, req: ReadingRequest, scope: ActorScope) -> bool {
    let pn = previous_nodes(req.previous);
    let pe = previous_edges(req.previous);
    match scope {
        ActorScope::All => g == d,
        ActorScope::AdjacentRevision => if req.previous is None && authored_changes(req.current) {
            g == d
        } else {
            is_diff(g, pn, pe, d)
        },
        ActorScope::FocusAndNeighbors => {
            let f = reading_focus(req.focus, d);
            &&& g.schema@ == d.schema@
            &&& opt_text(g.focus) == Some(f)
            &&& g.nodes@ == d.nodes@.filter(near_node(d.edges@, f))
            &&& g.edges@ == d.edges@.filter(near_edge(d.edges@, f))
        },
    }
}

/// Whether some node already carries a change mark.
fn any_authored(g: &GraphInput) -> (r: bool)
    ensures
        r == authored_changes(*g),
{
    let mut i: usize = 0;
    while i < g.nodes.len()
        invariant
            i <= g.nodes@.len(),
            forall|j: int| 0 <= j < i ==> (#[trigger] g.nodes@[j]).change is None,
        decreases g.nodes.len() - i,
    {
        if g.nodes[i].change.is_some() {
            assert(g.nodes@[i as int].change is Some);
            return true;
        }
        i = i + 1;
    }
    false
}

/// Reads the graph the way the request asks: validates both revisions,
/// decorates the current one, and keeps what the reading's scope keeps.
/// `scope` is what the reading registry resolves the request's reading to.
pub fn project_reading_request(request: ReadingRequest, scope: Option<ActorScope>) -> (r: Result<GraphInput, String>)
    ensures
        match r {
            Err(e) => reading_problem(request, scope) == Some(e@),
            Ok(g) => reading_problem(request, scope) is None && exists|d: GraphInput|
                is_decorated(d, request.current, previous_nodes(request.previous), previous_edges(request.previous))
                    && #[trigger] reading_of(g, d, request, scope->0),
        },
{
    let ghost req = request;
    match validate(&request.current) {
        Err(e) => return Err(e),
        Ok(()) => {},
    }
    match &request.previous {
        Some(p) => match validate(p) {
            Err(e) => return Err(e),
            Ok(()) => {},
        },
        None => {},
    }
    let scope = match scope {
        Some(s) => s,
        None => return Err(cat2("unknown graph reading ", request.reading.as_str())),
    };
    let authored = any_authored(&request.current);
    let ReadingRequest { reading, current, previous, focus } = request;
    let decorated = decorate_current(current, previous.as_ref());
    let ghost d = decorated;
    proof {
        assert(is_decorated(d, req.current, previous_nodes(req.previous), previous_edges(req.previous)));
    }
    let projection = match scope {
        ActorScope::All => decorated,
        ActorScope::AdjacentRevision => {
            if previous.is_none() && authored {
                decorated
            } else {
                diff_graphs(previous.as_ref(), &decorated)
            }
        },
        ActorScope::FocusAndNeighbors => {
            let chosen: &str = match &focus {
                Some(f) => {
                    let mut held = false;
                    let mut i: usize = 0;
                    while i < decorated.nodes.len()
                        invariant
                            i <= decorated.nodes@.len(),
                            held == node_ids(decorated.nodes@).take(i as int).contains(f@),
                        decreases decorated.nodes.len() - i,
                    {
                        proof {
                            assert(node_ids(decorated.nodes@).take(i + 1) =~= node_ids(decorated.nodes@).take(i as int).push(
                                decorated.nodes@[i as int].id@,
                            ));
                        }
                        let ghost before = node_ids(decorated.nodes@).take(i as int);
                        let ghost after = node_ids(decorated.nodes@).take(i + 1);
                        if str_eq(decorated.nodes[i].id.as_str(), f.as_str()) {
                            held = true;
                            proof {
                                assert(after[i as int] == f@);
                            }
                        } else {
                            proof {
                                if after.contains(f@) {
                                    let k = choose|k: int| 0 <= k < after.len() && after[k] == f@;
                                    assert(k < i);
                                    assert(before[k] == f@);
                                }
                                if before.contains(f@) {
                                    let k = choose|k: int| 0 <= k < before.len() && before[k] == f@;
                                    assert(after[k] == f@);
                                }
                            }
                        }
                        i = i + 1;
                    }
                    proof {
                        assert(node_ids(decorated.nodes@).take(decorated.nodes@.len() as int) =~= node_ids(decorated.nodes@));
                    }
                    if held {
                        f.as_str()
                    } else {
                        focal_node(&decorated)
                    }
                },
                None => focal_node(&decorated),
            };
            focus_and_neighbors(&decorated, chosen)
        },
    };
    proof {
        assert(reading_of(projection, d, req, scope));
    }
    Ok(projection)
}

/// Under distinct ids, the last node with a node's id is that node.
proof fn lemma_last_with_own_id(ns: Seq<GraphNodeInput>, i: int)
    requires
        0 <= i < ns.len(),
        forall|a: int, b: int| 0 <= a < b < ns.len() ==> (#[trigger] ns[a]).id@ != (#[trigger] ns[b]).id@,
    ensures
        last_with_id(ns, ns[i].id@) == Some(ns[i]),
    decreases ns.len(),
{
    if i < ns.len() - 1 {
        assert(ns[i].id@ != ns[ns.len() - 1].id@);
        assert(ns.drop_last()[i] == ns[i]);
        lemma_last_with_own_id(ns.drop_last(), i);
    }
}

/// A filter that keeps nothing of a sequence leaves it empty.
proof fn lemma_filter_keeps_none<A>(s: Seq<A>, p: spec_fn(A) -> bool)
    requires
        forall|i: int| 0 <= i < s.len() ==> !p(#[trigger] s[i]),
    ensures
        s.filter(p).len() == 0,
{
    if s.filter(p).len() > 0 {
        s.lemma_filter_pred(p, 0);
        assert(s.filter(p).contains(s.filter(p)[0]));
        s.lemma_filter_contains_rev(p, s.filter(p)[0]);
        let k = choose|k: int| 0 <= k < s.len() && s[k] == s.filter(p)[0];
        assert(!p(s[k]));
    }
}

/// A revision of the graph read against itself changes nothing: where its
/// node ids are distinct, every node is marked stable and nothing is shown
/// as removed.
pub proof fn law_a_revision_against_itself_is_stable(g: GraphInput)
    requires
        forall|a: int, b: int| 0 <= a < b < g.nodes@.len() ==> (#[trigger] g.nodes@[a]).id@ != (#[trigger] g.nodes@[b]).id@,
    ensures
        forall|i: int| 0 <= i < g.nodes@.len() ==> node_change(#[trigger] g.nodes@[i], g.nodes@, g.edges@, g.edges@) == "stable"@,
        removed_nodes(g.nodes@, g).len() == 0,
        removed_edges(g.nodes@, g.edges@, g).len() == 0,
{
    assert forall|i: int| 0 <= i < g.nodes@.len() implies node_change(#[trigger] g.nodes@[i], g.nodes@, g.edges@, g.edges@)
        == "stable"@ by {
        lemma_last_with_own_id(g.nodes@, i);
    }
    assert forall|i: int| 0 <= i < g.nodes@.len() implies !vanished(node_ids(g.nodes@))(#[trigger] g.nodes@[i]) by {
        assert(node_ids(g.nodes@)[i] == g.nodes@[i].id@);
    }
    lemma_filter_keeps_none(g.nodes@, vanished(node_ids(g.nodes@)));
    let shown = shown_ids(g.nodes@, g);
    assert forall|i: int| 0 <= i < g.edges@.len() implies !lost_edge(edge_ids(g.edges@), shown)(#[trigger] g.edges@[i]) by {
        assert(edge_ids(g.edges@)[i] == g.edges@[i].id@);
    }
    lemma_filter_keeps_none(g.edges@, lost_edge(edge_ids(g.edges@), shown));
}

/// The number the bytes spell, most significant byte first.
pub open spec fn big_endian(bytes: Seq<u8>) -> nat
    decreases bytes.len(),
{
    if bytes.len() == 0 {
        0
    } else {
        big_endian(bytes.drop_last()) * 256 + bytes.last() as nat
    }
}

/// `256` to the power `n`.
pub open spec fn pow256(n: nat) -> nat
    decreases n,
{
    if n == 0 {
        1
    } else {
        pow256((n - 1) as nat) * 256
    }
}

/// A number of `n` bytes is below `256^n`.
proof fn lemma_big_endian_bound(bytes: Seq<u8>)
    ensures
        big_endian(bytes) < pow256(bytes.len()),
    decreases bytes.len(),
{
    if bytes.len() > 0 {
        lemma_big_endian_bound(bytes.drop_last());
    }
}

/// The identity of a graph authority from its canonical serialization: the
/// hexadecimal SHA-256 digest, and the generation that the digest's first
/// eight bytes spell, most significant first.
pub fn authority_identity(canonical: &[u8]) -> (r: (String, u64))
    ensures
        r.0@ == hex_text(sha256_digest(canonical@)),
        r.1 == big_endian(sha256_digest(canonical@).take(8)),
{
    let digest = sha256(canonical);
    let mut generation: u64 = 0;
    let mut i: usize = 0;
    proof {
        reveal_with_fuel(pow256, 9);
        assert(pow256(8) == 0x1_0000_0000_0000_0000);
    }
    while i < 8
        invariant
            i <= 8,
            digest@.len() == 32,
            generation == big_endian(digest@.take(i as int)),
            pow256(8) == 0x1_0000_0000_0000_0000,
        decreases 8 - i,
    {
        proof {
            lemma_big_endian_bound(digest@.take(i as int));
            assert(digest@.take(i + 1).drop_last() =~= digest@.take(i as int));
            assert(pow256((i + 1) as nat) <= pow256(8)) by {
                lemma_pow256_monotone((i + 1) as nat, 8);
            }
        }
        generation = generation * 256 + digest[i] as u64;
        i = i + 1;
    }
    (lower_hex(digest.as_slice()), generation)
}

/// Powers of 256 grow with the exponent.
proof fn lemma_pow256_monotone(a: nat, b: nat)
    requires
        a <= b,
    ensures
        pow256(a) <= pow256(b),
    decreases b - a,
{
    if a < b {
        lemma_pow256_monotone(a, (b - 1) as nat);
    }
}

/// No character of `s` is `|`.
pub open spec fn no_bar(s: Seq<char>) -> bool {
    forall|k: int| 0 <= k < s.len() ==> s[k] != '|'
}

/// Every part is non-empty and holds no `|`.
pub open spec fn plain_parts(parts: Seq<Seq<char>>) -> bool {
    forall|i: int| 0 <= i < parts.len() ==> (#[trigger] parts[i]).len() > 0 && no_bar(parts[i])
}

proof fn lemma_joined_shape(parts: Seq<Seq<char>>)
    requires
        plain_parts(parts),
    ensures
        parts.len() == 0 ==> joined(parts, "|"@).len() == 0,
        parts.len() >= 1 ==> joined(parts, "|"@).len() > 0,
        parts.len() == 1 ==> joined(parts, "|"@) == parts[0],
        parts.len() >= 2 ==> {
            let j = joined(parts.drop_last(), "|"@);
            &&& joined(parts, "|"@) == j + "|"@ + parts.last()
            &&& joined(parts, "|"@)[j.len() as int] == '|'
        },
{
    reveal_strlit("|");
    if parts.len() >= 2 {
        assert(parts.last() == parts[parts.len() - 1]);
    }
}

/// Joining non-empty parts free of `|` with `|` loses nothing: equal texts
/// come from equal lists.
proof fn lemma_joined_injective(a: Seq<Seq<char>>, b: Seq<Seq<char>>)
    requires
        plain_parts(a),
        plain_parts(b),
        joined(a, "|"@) == joined(b, "|"@),
    ensures
        a == b,
    decreases a.len(),
{
    reveal_strlit("|");
    lemma_joined_shape(a);
    lemma_joined_shape(b);
    let t = joined(a, "|"@);
    if a.len() == 0 {
        assert(b.len() == 0);
        assert(a =~= b);
    } else if a.len() == 1 {
        assert(no_bar(a[0]));
        if b.len() >= 2 {
            let jb = joined(b.drop_last(), "|"@);
            assert(t[jb.len() as int] == '|');
        }
        assert(b.len() == 1);
        assert(a =~= b);
    } else {
        let ja = joined(a.drop_last(), "|"@);
        assert(t[ja.len() as int] == '|');
        if b.len() == 1 {
            assert(no_bar(b[0]));
        }
        assert(b.len() >= 2);
        let jb = joined(b.drop_last(), "|"@);
        let la = a.last();
        let lb = b.last();
        assert(la == a[a.len() - 1] && lb == b[b.len() - 1]);
        let n = t.len() as int;
        assert(t[jb.len() as int] == '|');
        if la.len() < lb.len() {
            let j = lb.len() - la.len() - 1;
            assert(t[n - lb.len() + j] == lb[j]);
            assert(n - lb.len() + j == ja.len());
        } else if lb.len() < la.len() {
            let j = la.len() - lb.len() - 1;
            assert(t[n - la.len() + j] == la[j]);
            assert(n - la.len() + j == jb.len());
        }
        assert(la.len() == lb.len());
        assert(la =~= t.subrange(n - la.len(), n));
        assert(lb =~= t.subrange(n - lb.len(), n));
        assert(ja =~= t.subrange(0, n - la.len() - 1));
        assert(jb =~= t.subrange(0, n - lb.len() - 1));
        assert(plain_parts(a.drop_last()));
        assert(plain_parts(b.drop_last()));
        lemma_joined_injective(a.drop_last(), b.drop_last());
        assert(a =~= a.drop_last().push(la));
        assert(b =~= b.drop_last().push(lb));
    }
}

/// The signature of every edge at `id` is among the signatures at `id`.
proof fn lemma_incident_holds(es: Seq<GraphEdge>, id: Seq<char>, k: int)
    requires
        0 <= k < es.len(),
        es[k].source@ == id || es[k].target@ == id,
    ensures
        incident(es, id).contains(edge_signature(es[k])),
    decreases es.len(),
{
    let rest = incident(es.drop_last(), id);
    if k == es.len() - 1 {
        let e = es.last();
        let with_source = if e.source@ == id { rest.push(edge_signature(e)) } else { rest };
        let full = incident(es, id);
        if e.target@ == id {
            assert(full[full.len() - 1] == edge_signature(e));
        } else {
            assert(full[full.len() - 1] == edge_signature(e));
        }
    } else {
        lemma_incident_holds(es.drop_last(), id, k);
        assert(es.drop_last()[k] == es[k]);
        let j = choose|j: int| 0 <= j < rest.len() && rest[j] == edge_signature(es[k]);
        assert(incident(es, id)[j] == rest[j]);
    }
}

/// Every signature at `id` is the signature of an edge of `es`.
proof fn lemma_incident_from(es: Seq<GraphEdge>, id: Seq<char>, j: int)
    requires
        0 <= j < incident(es, id).len(),
    ensures
        exists|k: int| 0 <= k < es.len() && #[trigger] edge_signature(es[k]) == incident(es, id)[j],
    decreases es.len(),
{
    let rest = incident(es.drop_last(), id);
    let e = es.last();
    assert(e == es[es.len() - 1]);
    if j < rest.len() {
        assert(incident(es, id)[j] == rest[j]);
        lemma_incident_from(es.drop_last(), id, j);
        let k = choose|k: int| 0 <= k < es.drop_last().len() && #[trigger] edge_signature(es.drop_last()[k]) == rest[j];
        assert(es.drop_last()[k] == es[k]);
    } else {
        assert(incident(es, id)[j] == edge_signature(e));
    }
}

/// No edge signature holds a `|`.
pub open spec fn signatures_plain(es: Seq<GraphEdge>) -> bool {
    forall|k: int| 0 <= k < es.len() ==> no_bar(#[trigger] edge_signature(es[k]))
}

proof fn lemma_incident_plain(es: Seq<GraphEdge>, id: Seq<char>)
    requires
        signatures_plain(es),
    ensures
        plain_parts(incident(es, id)),
        plain_parts(incident(es, id).sort_by(text_order())),
{
    reveal_strlit(":");
    let inc = incident(es, id);
    assert forall|j: int| 0 <= j < inc.len() implies (#[trigger] inc[j]).len() > 0 && no_bar(inc[j]) by {
        lemma_incident_from(es, id, j);
        let k = choose|k: int| 0 <= k < es.len() && #[trigger] edge_signature(es[k]) == inc[j];
        assert(no_bar(edge_signature(es[k])));
    }
    crate::text::lemma_text_order_total();
    inc.lemma_sort_by_ensures(text_order());
    let srt = inc.sort_by(text_order());
    assert forall|j: int| 0 <= j < srt.len() implies (#[trigger] srt[j]).len() > 0 && no_bar(srt[j]) by {
        assert(srt.contains(srt[j]));
        vstd::seq_lib::to_multiset_contains(srt, srt[j]);
        vstd::seq_lib::to_multiset_contains(inc, srt[j]);
        assert(inc.contains(srt[j]));
    }
}

/// Law: a change at an edge marks both of its ends. A node that was in the
/// previous revision is marked `updated` whenever an edge having it as
/// source or as target is in one revision and no edge with the same id,
/// ends, kind and provenance is in the other. (Edge fields are assumed free
/// of `|`, the separator the comparison joins signatures with.)
pub proof fn law_an_edge_change_marks_its_ends_updated(
    n: GraphNodeInput,
    prev_nodes: Seq<GraphNodeInput>,
    prev_edges: Seq<GraphEdge>,
    edges: Seq<GraphEdge>,
    e: GraphEdge,
)
    requires
        last_with_id(prev_nodes, n.id@) is Some,
        e.source@ == n.id@ || e.target@ == n.id@,
        signatures_plain(prev_edges),
        signatures_plain(edges),
        (prev_edges.contains(e) && forall|k: int| 0 <= k < edges.len() ==> #[trigger] edge_signature(edges[k]) != edge_signature(e))
            || (edges.contains(e) && forall|k: int| 0 <= k < prev_edges.len() ==> #[trigger] edge_signature(prev_edges[k]) != edge_signature(e)),
    ensures
        node_change(n, prev_nodes, prev_edges, edges) == "updated"@,
{
    let id = n.id@;
    let a = incident(prev_edges, id);
    let b = incident(edges, id);
    if incident_text(prev_edges, id) == incident_text(edges, id) {
        lemma_incident_plain(prev_edges, id);
        lemma_incident_plain(edges, id);
        lemma_joined_injective(a.sort_by(text_order()), b.sort_by(text_order()));
        crate::text::lemma_text_order_total();
        a.lemma_sort_by_ensures(text_order());
        b.lemma_sort_by_ensures(text_order());
        let s = edge_signature(e);
        let (from, to, other) = if prev_edges.contains(e) { (prev_edges, a, b) } else { (edges, b, a) };
        let k = choose|k: int| 0 <= k < from.len() && from[k] == e;
        lemma_incident_holds(from, id, k);
        vstd::seq_lib::to_multiset_contains(to, s);
        vstd::seq_lib::to_multiset_contains(to.sort_by(text_order()), s);
        vstd::seq_lib::to_multiset_contains(other.sort_by(text_order()), s);
        vstd::seq_lib::to_multiset_contains(other, s);
        assert(other.contains(s));
        let j = choose|j: int| 0 <= j < other.len() && other[j] == s;
        if prev_edges.contains(e) {
            lemma_incident_from(edges, id, j);
        } else {
            lemma_incident_from(prev_edges, id, j);
        }
        assert(false);
    }
}

/// Law: on a decorated revision, a node present in the previous revision
/// and not already marked is marked `updated` whenever an edge at it (as
/// source or as target) is in one revision and not in the other.
pub proof fn law_decorated_edge_change_marks_its_ends_updated(
    r: GraphInput,
    current: GraphInput,
    prev_nodes: Seq<GraphNodeInput>,
    prev_edges: Seq<GraphEdge>,
    i: int,
    e: GraphEdge,
)
    requires
        is_decorated(r, current, prev_nodes, prev_edges),
        0 <= i < current.nodes@.len(),
        current.nodes@[i].change is None,
        last_with_id(prev_nodes, current.nodes@[i].id@) is Some,
        e.source@ == current.nodes@[i].id@ || e.target@ == current.nodes@[i].id@,
        signatures_plain(prev_edges),
        signatures_plain(current.edges@),
        (prev_edges.contains(e) && forall|k: int|
            0 <= k < current.edges@.len() ==> #[trigger] edge_signature(current.edges@[k]) != edge_signature(e)) || (
        current.edges@.contains(e) && forall|k: int|
            0 <= k < prev_edges.len() ==> #[trigger] edge_signature(prev_edges[k]) != edge_signature(e)),
    ensures
        opt_text(r.nodes@[i].change) == Some("updated"@),
{
    let cn = current.nodes@;
    let id = cn[i].id@;
    lemma_last_with_id_found(cn, i);
    lemma_last_with_id_carries_id(cn, id);
    let q = last_with_id(cn, id)->0;
    assert(q.id@ == id);
    law_an_edge_change_marks_its_ends_updated(q, prev_nodes, prev_edges, current.edges@, e);
    assert(marked_node(r.nodes@[i], cn[i], decorated_change(cn[i], current, prev_nodes, prev_edges), present_summary(cn[i])));
}

proof fn lemma_last_with_id_carries_id(ns: Seq<GraphNodeInput>, id: Seq<char>)
    ensures
        last_with_id(ns, id) matches Some(q) ==> q.id@ == id,
    decreases ns.len(),
{
    if ns.len() > 0 && ns.last().id@ != id {
        lemma_last_with_id_carries_id(ns.drop_last(), id);
    }
}

} // verus!
