//! Public repository-graph snapshots sourced from immutable Git authority
//! checkpoints. The graph is the reduced public shape of the authority; a
//! history is the ordered list of commits that carried it. Reading Git is
//! left to the caller: this module decides what the outputs of Git mean.

use vstd::prelude::*;

use crate::repositories::{
    PublicMetadataCache, PublicRepositoryMetadata, RelationKind, RelationManifest, RelationProvenance, RelationRecord,
    RepositoryClass, RepositoryManifest, RepositoryRecord, RepositoryStatus, live_relations, live_schema,
    metadata_ids, reconcile_live_github_repositories, reconciled, relation_ids, repository_ids,
};
use crate::text::{
    cat2, cat3, chars_of, distinct_upto, has_prefix, holds_string, lemma_filter_take_step, lines, remember, starts_with,
    str_eq, text_between, text_less, text_lt, lemma_text_lt_trans, lemma_text_lt_total, text_lines, trim, trim_git_suffixes, trimmed, views, without_git_suffixes,
};

verus! {

pub const REPOSITORY_GRAPH_SCHEMA: &'static str = "mer3ly.repo-graph/v1";

pub const GIT_HISTORY_SCHEMA: &'static str = "mer3ly.repository-git-history/v1";

pub const HISTORICAL_TIMELINE_SCHEMA: &'static str = "mer3ly.repository-history-source/v1";

/// The reduced, public graph shape shared by the current authority projection
/// and an immutable historical checkpoint.
#[derive(Debug, PartialEq, Eq)]
pub struct RepositoryGraph {
    pub schema: String,
    pub nodes: Vec<RepositoryGraphNode>,
    pub edges: Vec<RepositoryGraphEdge>,
}

#[derive(Debug, PartialEq, Eq)]
pub struct RepositoryGraphNode {
    pub id: String,
    pub name: String,
    pub class: RepositoryClass,
    pub status: RepositoryStatus,
    pub pushed_at: String,
}

#[derive(Debug, PartialEq, Eq)]
pub struct RepositoryGraphEdge {
    pub id: String,
    pub source: String,
    pub target: String,
    pub kind: RelationKind,
    pub provenance: RelationProvenance,
}

impl Clone for RepositoryGraphNode {
    fn clone(&self) -> (r: Self)
        ensures
            r == *self,
    {
        RepositoryGraphNode {
            id: self.id.clone(),
            name: self.name.clone(),
            class: self.class,
            status: self.status,
            pushed_at: self.pushed_at.clone(),
        }
    }
}

impl Clone for RepositoryGraphEdge {
    fn clone(&self) -> (r: Self)
        ensures
            r == *self,
    {
        RepositoryGraphEdge {
            id: self.id.clone(),
            source: self.source.clone(),
            target: self.target.clone(),
            kind: self.kind,
            provenance: self.provenance,
        }
    }
}

/// Two graphs hold the same schema, nodes and edges.
pub open spec fn same_graph(a: RepositoryGraph, b: RepositoryGraph) -> bool {
    a.schema@ == b.schema@ && a.nodes@ == b.nodes@ && a.edges@ == b.edges@
}

impl Clone for RepositoryGraph {
    fn clone(&self) -> (r: Self)
        ensures
            same_graph(r, *self),
    {
        let nodes = self.nodes.clone();
        let edges = self.edges.clone();
        assert(nodes@ =~= self.nodes@);
        assert(edges@ =~= self.edges@);
        RepositoryGraph { schema: self.schema.clone(), nodes, edges }
    }
}

pub open spec fn node_ids(ns: Seq<RepositoryGraphNode>) -> Seq<Seq<char>> {
    ns.map_values(|n: RepositoryGraphNode| n.id@)
}

pub open spec fn edge_ids(es: Seq<RepositoryGraphEdge>) -> Seq<Seq<char>> {
    es.map_values(|e: RepositoryGraphEdge| e.id@)
}

/// Distinct and complete nodes, and distinct relations whose two ends are
/// nodes.
pub open spec fn parts_valid(ns: Seq<RepositoryGraphNode>, es: Seq<RepositoryGraphEdge>) -> bool {
    &&& distinct_upto(node_ids(ns), ns.len() as int)
    &&& forall|i: int| 0 <= i < ns.len() ==> (#[trigger] ns[i]).id@.len() > 0 && ns[i].name@.len() > 0 && ns[i].pushed_at@.len() > 0
    &&& distinct_upto(edge_ids(es), es.len() as int)
    &&& forall|j: int| 0 <= j < es.len() ==> (#[trigger] es[j]).id@.len() > 0 && node_ids(ns).contains(es[j].source@)
        && node_ids(ns).contains(es[j].target@)
}

/// Distinct nodes, each with an id, a name and a push time.
pub open spec fn graph_nodes_valid(ns: Seq<RepositoryGraphNode>) -> bool {
    &&& distinct_upto(node_ids(ns), ns.len() as int)
    &&& forall|i: int| 0 <= i < ns.len() ==> (#[trigger] ns[i]).id@.len() > 0 && ns[i].name@.len() > 0 && ns[i].pushed_at@.len() > 0
}

/// What `validate` reports of a graph that is not well formed: a wrong
/// schema first, then invalid nodes, else invalid relations.
pub open spec fn graph_error(g: RepositoryGraph) -> Seq<char> {
    if g.schema@ != REPOSITORY_GRAPH_SCHEMA@ {
        "repository graph schema mismatch"@
    } else if !graph_nodes_valid(g.nodes@) {
        "repository graph has invalid nodes"@
    } else {
        "repository graph has invalid relations"@
    }
}

/// A well-formed graph: the schema, and valid nodes and relations.
pub open spec fn graph_valid(g: RepositoryGraph) -> bool {
    g.schema@ == REPOSITORY_GRAPH_SCHEMA@ && parts_valid(g.nodes@, g.edges@)
}

/// The public repositories, in roster order.
pub open spec fn public_repositories(rs: Seq<RepositoryRecord>) -> Seq<RepositoryRecord> {
    rs.filter(|r: RepositoryRecord| r.public)
}

/// Entry `k` of the metadata has the given id.
pub open spec fn meta_with_id(ms: Seq<PublicRepositoryMetadata>, id: Seq<char>, k: int) -> bool {
    0 <= k < ms.len() && ms[k].id@ == id
}

/// `n` is the graph node of repository `r`, with `m` its metadata.
pub open spec fn node_of(n: RepositoryGraphNode, r: RepositoryRecord, m: PublicRepositoryMetadata) -> bool {
    &&& n.id@ == r.id@
    &&& n.name@ == r.name@
    &&& n.class == r.class
    &&& n.status == r.status
    &&& n.pushed_at@ == m.pushed_at@
}

/// `e` is the graph edge of relation `r`.
pub open spec fn edge_of(e: RepositoryGraphEdge, r: RelationRecord) -> bool {
    &&& e.id@ == r.id@
    &&& e.source@ == r.source@
    &&& e.target@ == r.target@
    &&& e.kind == r.kind
    &&& e.provenance == r.provenance
}

/// The reconciled roster and relations project to a valid graph: metadata
/// ids are distinct; public repositories are distinct, each has metadata
/// under its id with the same slug, a name and a push time; relations are
/// distinct, named, and join two public repositories.
pub open spec fn graph_inputs_ok(rr: Seq<RepositoryRecord>, rl: Seq<RelationRecord>, ms: Seq<PublicRepositoryMetadata>) -> bool {
    let pubs = public_repositories(rr);
    &&& distinct_upto(metadata_ids(ms), ms.len() as int)
    &&& distinct_upto(repository_ids(pubs), pubs.len() as int)
    &&& forall|i: int| 0 <= i < pubs.len() ==> exists|k: int| #[trigger] meta_with_id(ms, (#[trigger] pubs[i]).id@, k)
    &&& forall|i: int, k: int| 0 <= i < pubs.len() && #[trigger] meta_with_id(ms, (#[trigger] pubs[i]).id@, k) ==> ms[k].github_slug@
        == pubs[i].github_slug@ && ms[k].pushed_at@.len() > 0
    &&& forall|i: int| 0 <= i < pubs.len() ==> (#[trigger] pubs[i]).id@.len() > 0 && pubs[i].name@.len() > 0
    &&& distinct_upto(relation_ids(rl), rl.len() as int)
    &&& forall|j: int| 0 <= j < rl.len() ==> (#[trigger] rl[j]).id@.len() > 0 && repository_ids(pubs).contains(rl[j].source@)
        && repository_ids(pubs).contains(rl[j].target@)
}

/// `g` is the graph of the reconciled roster and relations.
pub open spec fn graph_from(g: RepositoryGraph, rr: Seq<RepositoryRecord>, rl: Seq<RelationRecord>, ms: Seq<PublicRepositoryMetadata>) -> bool {
    let pubs = public_repositories(rr);
    &&& g.schema@ == REPOSITORY_GRAPH_SCHEMA@
    &&& g.nodes@.len() == pubs.len()
    &&& forall|i: int, k: int| 0 <= i < pubs.len() && #[trigger] meta_with_id(ms, (#[trigger] pubs[i]).id@, k) ==> node_of(
        g.nodes@[i],
        pubs[i],
        ms[k],
    )
    &&& g.edges@.len() == rl.len()
    &&& forall|j: int| 0 <= j < rl.len() ==> edge_of(#[trigger] g.edges@[j], rl[j])
}

/// `rr` and `rl` are what reconciling the authority with the metadata gives.
pub open spec fn reconcile_outcome(
    rr: Seq<RepositoryRecord>,
    rl: Seq<RelationRecord>,
    repositories: RepositoryManifest,
    relations: RelationManifest,
    metadata: PublicMetadataCache,
) -> bool {
    &&& metadata.schema@ != live_schema() ==> rr == repositories.repository@ && rl == relations.relation@
    &&& metadata.schema@ == live_schema() ==> reconciled(rr, repositories.repository@, metadata.repository@) && rl == live_relations(
        relations.relation@,
        rr,
    )
}

/// The first metadata record with the given id, if any.
fn metadata_for<'a>(ms: &'a Vec<PublicRepositoryMetadata>, id: &str) -> (r: Option<&'a PublicRepositoryMetadata>)
    ensures
        match r {
            Some(m) => exists|k: int| #[trigger] meta_with_id(ms@, id@, k) && *m == ms@[k],
            None => forall|k: int| !#[trigger] meta_with_id(ms@, id@, k),
        },
{
    let mut i: usize = 0;
    while i < ms.len()
        invariant
            i <= ms@.len(),
            forall|k: int| 0 <= k < i ==> !#[trigger] meta_with_id(ms@, id@, k),
        decreases ms@.len() - i,
    {
        if str_eq(ms[i].id.as_str(), id) {
            assert(meta_with_id(ms@, id@, i as int));
            return Some(&ms[i]);
        }
        i = i + 1;
    }
    None
}

/// The public repositories before position `i` are the first ones of all
/// public repositories.
proof fn lemma_public_prefix(rr: Seq<RepositoryRecord>, i: int)
    requires
        0 <= i <= rr.len(),
    ensures
        public_repositories(rr) == public_repositories(rr.take(i)) + public_repositories(rr.skip(i)),
{
    assert(rr =~= rr.take(i) + rr.skip(i));
    Seq::filter_distributes_over_add(rr.take(i), rr.skip(i), |r: RepositoryRecord| r.public);
}

impl RepositoryGraph {
    /// Projects just the public graph fields from the authority inputs,
    /// reconciled with the live roster: one node per public repository, with
    /// its push time from the metadata, and one edge per remaining relation.
    pub fn from_parts(
        repositories: &RepositoryManifest,
        relations: &RelationManifest,
        metadata: &PublicMetadataCache,
    ) -> (r: Result<RepositoryGraph, String>)
        ensures
            r is Ok ==> exists|rr: Seq<RepositoryRecord>, rl: Seq<RelationRecord>| #[trigger] reconcile_outcome(
                rr,
                rl,
                *repositories,
                *relations,
                *metadata,
            ) && graph_inputs_ok(rr, rl, metadata.repository@) && graph_from(r->Ok_0, rr, rl, metadata.repository@),
            r matches Ok(g) ==> graph_valid(g),
            r is Err ==> exists|rr: Seq<RepositoryRecord>, rl: Seq<RelationRecord>| #[trigger] reconcile_outcome(
                rr,
                rl,
                *repositories,
                *relations,
                *metadata,
            ) && !graph_inputs_ok(rr, rl, metadata.repository@),
    {
        let (rm, lm) = reconcile_live_github_repositories(repositories, relations, metadata);
        let rr = &rm.repository;
        let rl = &lm.relation;
        let ms = &metadata.repository;
        assert(reconcile_outcome(rr@, rl@, *repositories, *relations, *metadata));
        let ghost pubs = public_repositories(rr@);
        let ghost mids = metadata_ids(ms@);
        let mut seen_meta: Vec<String> = Vec::new();
        let mut m: usize = 0;
        while m < ms.len()
            invariant
                m <= ms@.len(),
                mids == metadata_ids(ms@),
                ms == metadata.repository,
                reconcile_outcome(rr@, rl@, *repositories, *relations, *metadata),
                distinct_upto(mids, m as int),
                forall|y: Seq<char>| #[trigger] views(seen_meta@).contains(y) <==> exists|j: int| 0 <= j < m && mids[j] == y,
            decreases ms@.len() - m,
        {
            assert(mids[m as int] == ms@[m as int].id@);
            if remember(&mut seen_meta, ms[m].id.as_str()) {
                assert(!distinct_upto(mids, ms@.len() as int));
                assert(!graph_inputs_ok(rr@, rl@, ms@));
                return Err(cat2("duplicate public metadata record ", ms[m].id.as_str()));
            }
            proof {
                assert forall|y: Seq<char>| #[trigger] views(seen_meta@).contains(y) <==> exists|j: int| 0 <= j < m + 1 && mids[j] == y by {
                    if y == mids[m as int] {
                        assert(exists|j: int| 0 <= j < m + 1 && mids[j] == y);
                    }
                }
            }
            m = m + 1;
        }
        let ghost is_public = |r: RepositoryRecord| r.public;
        let mut ids: Vec<String> = Vec::new();
        let mut nodes: Vec<RepositoryGraphNode> = Vec::new();
        let mut i: usize = 0;
        while i < rr.len()
            invariant
                i <= rr@.len(),
                pubs == public_repositories(rr@),
                ms == metadata.repository,
                reconcile_outcome(rr@, rl@, *repositories, *relations, *metadata),
                is_public == (|r: RepositoryRecord| r.public),
                distinct_upto(metadata_ids(ms@), ms@.len() as int),
                views(ids@) == repository_ids(public_repositories(rr@.take(i as int))),
                nodes@.len() == public_repositories(rr@.take(i as int)).len(),
                distinct_upto(views(ids@), ids@.len() as int),
                forall|a: int, k: int| 0 <= a < nodes@.len() && #[trigger] meta_with_id(
                    ms@,
                    (#[trigger] public_repositories(rr@.take(i as int))[a]).id@,
                    k,
                ) ==> node_of(nodes@[a], public_repositories(rr@.take(i as int))[a], ms@[k]),
                forall|a: int| 0 <= a < nodes@.len() ==> exists|k: int| #[trigger] meta_with_id(
                    ms@,
                    (#[trigger] public_repositories(rr@.take(i as int))[a]).id@,
                    k,
                ),
                forall|a: int, k: int| 0 <= a < nodes@.len() && #[trigger] meta_with_id(
                    ms@,
                    (#[trigger] public_repositories(rr@.take(i as int))[a]).id@,
                    k,
                ) ==> ms@[k].github_slug@ == public_repositories(rr@.take(i as int))[a].github_slug@,
            decreases rr@.len() - i,
        {
            proof {
                lemma_filter_take_step(rr@, is_public, i as int);
                lemma_public_prefix(rr@, i as int);
                lemma_public_prefix(rr@, i + 1);
            }
            let r = &rr[i];
            if r.public {
                let ghost before_ids = ids@;
                let ghost prefix = public_repositories(rr@.take(i as int));
                let ghost next = public_repositories(rr@.take(i + 1));
                assert(next == prefix.push(*r));
                let dup = holds_string(&ids, r.id.as_str());
                if dup {
                    proof {
                        let j = choose|j: int| 0 <= j < views(before_ids).len() && views(before_ids)[j] == r.id@;
                        assert(repository_ids(prefix)[j] == r.id@);
                        assert(pubs[j] == prefix[j]);
                        assert(pubs[prefix.len() as int] == *r);
                        assert(repository_ids(pubs)[j] == repository_ids(pubs)[prefix.len() as int]);
                        assert(!graph_inputs_ok(rr@, rl@, ms@));
                    }
                    return Err(cat2("duplicate public repository ", r.id.as_str()));
                }
                ids.push(r.id.clone());
                proof {
                    crate::text::lemma_views_push(before_ids, r.id);
                }
                let found = metadata_for(ms, r.id.as_str());
                match found {
                    None => {
                        proof {
                            assert(pubs[prefix.len() as int] == *r);
                            assert(!graph_inputs_ok(rr@, rl@, ms@));
                        }
                        return Err(cat3("public repository ", r.id.as_str(), " is missing metadata"));
                    },
                    Some(meta) => {
                        if !str_eq(meta.github_slug.as_str(), r.github_slug.as_str()) {
                            proof {
                                assert(pubs[prefix.len() as int] == *r);
                                let k0 = choose|k0: int| meta_with_id(ms@, r.id@, k0) && *meta == ms@[k0];
                                assert(meta_with_id(ms@, pubs[prefix.len() as int].id@, k0));
                                assert(!graph_inputs_ok(rr@, rl@, ms@));
                            }
                            return Err(cat3("public repository ", r.id.as_str(), " has mismatched metadata slug"));
                        }
                        nodes.push(
                            RepositoryGraphNode {
                                id: r.id.clone(),
                                name: r.name.clone(),
                                class: r.class,
                                status: r.status,
                                pushed_at: meta.pushed_at.clone(),
                            },
                        );
                        proof {
                            assert(views(ids@) =~= repository_ids(next));
                            assert forall|a: int, b: int| 0 <= a < b < ids@.len() implies views(ids@)[a] != views(ids@)[b] by {
                                if b == ids@.len() - 1 {
                                    assert(views(before_ids)[a] == views(ids@)[a]);
                                    assert(views(before_ids).contains(views(before_ids)[a]));
                                } else {
                                    assert(views(before_ids)[a] == views(ids@)[a]);
                                    assert(views(before_ids)[b] == views(ids@)[b]);
                                }
                            }
                            assert forall|a: int, k: int| 0 <= a < nodes@.len() && #[trigger] meta_with_id(ms@, (#[trigger] next[a]).id@, k)
                                implies node_of(nodes@[a], next[a], ms@[k]) by {
                                if a == nodes@.len() - 1 {
                                    let k0 = choose|k0: int| meta_with_id(ms@, r.id@, k0) && *meta == ms@[k0];
                                    if k != k0 {
                                        assert(metadata_ids(ms@)[k] == metadata_ids(ms@)[k0]);
                                    }
                                } else {
                                    assert(next[a] == prefix[a]);
                                }
                            }
                            assert forall|a: int, k: int| 0 <= a < nodes@.len() && #[trigger] meta_with_id(ms@, (#[trigger] next[a]).id@, k)
                                implies ms@[k].github_slug@ == next[a].github_slug@ by {
                                if a == nodes@.len() - 1 {
                                    let k0 = choose|k0: int| meta_with_id(ms@, r.id@, k0) && *meta == ms@[k0];
                                    if k != k0 {
                                        assert(metadata_ids(ms@)[k] == metadata_ids(ms@)[k0]);
                                    }
                                } else {
                                    assert(next[a] == prefix[a]);
                                }
                            }
                            assert forall|a: int| 0 <= a < nodes@.len() implies exists|k: int| #[trigger] meta_with_id(ms@, (#[trigger] next[a]).id@, k) by {
                                if a < nodes@.len() - 1 {
                                    assert(next[a] == prefix[a]);
                                }
                            }
                        }
                    },
                }
            } else {
                proof {
                    assert(public_repositories(rr@.take(i + 1)) == public_repositories(rr@.take(i as int)));
                }
            }
            i = i + 1;
        }
        proof {
            assert(rr@.take(rr@.len() as int) =~= rr@);
        }
        let mut edge_seen: Vec<String> = Vec::new();
        let mut edges: Vec<RepositoryGraphEdge> = Vec::new();
        let ghost rids = relation_ids(rl@);
        let mut j: usize = 0;
        while j < rl.len()
            invariant
                j <= rl@.len(),
                rids == relation_ids(rl@),
                pubs == public_repositories(rr@),
                ms == metadata.repository,
                reconcile_outcome(rr@, rl@, *repositories, *relations, *metadata),
                views(ids@) == repository_ids(pubs),
                distinct_upto(rids, j as int),
                edges@.len() == j,
                forall|b: int| 0 <= b < j ==> edge_of(#[trigger] edges@[b], rl@[b]),
                forall|b: int| 0 <= b < j ==> repository_ids(pubs).contains((#[trigger] rl@[b]).source@) && repository_ids(pubs).contains(
                    rl@[b].target@,
                ),
                forall|y: Seq<char>| #[trigger] views(edge_seen@).contains(y) <==> exists|b: int| 0 <= b < j && rids[b] == y,
            decreases rl@.len() - j,
        {
            let rel = &rl[j];
            assert(rids[j as int] == rel.id@);
            if remember(&mut edge_seen, rel.id.as_str()) {
                assert(!distinct_upto(rids, rl@.len() as int));
                assert(!graph_inputs_ok(rr@, rl@, ms@));
                return Err(cat2("duplicate public relation ", rel.id.as_str()));
            }
            if !holds_string(&ids, rel.source.as_str()) || !holds_string(&ids, rel.target.as_str()) {
                assert(rl@[j as int] == *rel);
                assert(!(repository_ids(pubs).contains(rl@[j as int].source@) && repository_ids(pubs).contains(rl@[j as int].target@)));
                assert(!graph_inputs_ok(rr@, rl@, ms@));
                return Err(cat3("public relation ", rel.id.as_str(), " has an endpoint outside the graph"));
            }
            edges.push(
                RepositoryGraphEdge {
                    id: rel.id.clone(),
                    source: rel.source.clone(),
                    target: rel.target.clone(),
                    kind: rel.kind,
                    provenance: rel.provenance,
                },
            );
            proof {
                assert forall|y: Seq<char>| #[trigger] views(edge_seen@).contains(y) <==> exists|b: int| 0 <= b < j + 1 && rids[b] == y by {
                    if y == rids[j as int] {
                        assert(exists|b: int| 0 <= b < j + 1 && rids[b] == y);
                    }
                }
            }
            j = j + 1;
        }
        let graph = RepositoryGraph { schema: String::from_str(REPOSITORY_GRAPH_SCHEMA), nodes, edges };
        proof {
            assert(graph_from(graph, rr@, rl@, ms@));
            assert(node_ids(graph.nodes@) =~= repository_ids(pubs));
            assert(edge_ids(graph.edges@) =~= rids);
        }
        match graph.validate() {
            Ok(()) => {
                proof {
                    assert forall|a: int| 0 <= a < pubs.len() implies (#[trigger] pubs[a]).id@.len() > 0 && pubs[a].name@.len() > 0 by {
                        assert(graph.nodes@[a].id@.len() > 0);
                        let k = choose|k: int| meta_with_id(ms@, pubs[a].id@, k);
                        assert(node_of(graph.nodes@[a], pubs[a], ms@[k]));
                    }
                    assert forall|a: int, k: int| 0 <= a < pubs.len() && #[trigger] meta_with_id(ms@, (#[trigger] pubs[a]).id@, k)
                        implies ms@[k].github_slug@ == pubs[a].github_slug@ && ms@[k].pushed_at@.len() > 0 by {
                        assert(node_of(graph.nodes@[a], pubs[a], ms@[k]));
                        assert(graph.nodes@[a].pushed_at@.len() > 0);
                    }
                    assert forall|b: int| 0 <= b < rl@.len() implies (#[trigger] rl@[b]).id@.len() > 0 by {
                        assert(edge_of(graph.edges@[b], rl@[b]));
                        assert(graph.edges@[b].id@.len() > 0);
                    }
                }
                Ok(graph)
            },
            Err(e) => {
                proof {
                    if graph_inputs_ok(rr@, rl@, ms@) {
                        assert forall|a: int| 0 <= a < graph.nodes@.len() implies (#[trigger] graph.nodes@[a]).id@.len() > 0
                            && graph.nodes@[a].name@.len() > 0 && graph.nodes@[a].pushed_at@.len() > 0 by {
                            let k = choose|k: int| meta_with_id(ms@, pubs[a].id@, k);
                            assert(node_of(graph.nodes@[a], pubs[a], ms@[k]));
                        }
                        assert forall|b: int| 0 <= b < graph.edges@.len() implies (#[trigger] graph.edges@[b]).id@.len() > 0
                            && node_ids(graph.nodes@).contains(graph.edges@[b].source@) && node_ids(graph.nodes@).contains(
                            graph.edges@[b].target@,
                        ) by {
                            assert(edge_of(graph.edges@[b], rl@[b]));
                        }
                        assert(graph_valid(graph));
                    }
                }
                Err(e)
            },
        }
    }

    /// Checks the graph's schema, nodes and relations. The result is `Ok`
    /// exactly when the graph is well formed; otherwise it names the first
    /// of the three that is wrong.
    pub fn validate(&self) -> (r: Result<(), String>)
        ensures
            r is Ok <==> graph_valid(*self),
            r matches Err(e) ==> e@ == graph_error(*self),
    {
        if !str_eq(self.schema.as_str(), REPOSITORY_GRAPH_SCHEMA) {
            return Err(String::from_str("repository graph schema mismatch"));
        }
        let ns = &self.nodes;
        let es = &self.edges;
        let ghost nids = node_ids(ns@);
        let mut ids: Vec<String> = Vec::new();
        let mut bad_nodes = false;
        let mut i: usize = 0;
        while i < ns.len()
            invariant
                i <= ns@.len(),
                nids == node_ids(ns@),
                views(ids@) == nids.take(i as int),
                bad_nodes == !(distinct_upto(nids, i as int) && forall|a: int| 0 <= a < i ==> (#[trigger] ns@[a]).id@.len() > 0
                    && ns@[a].name@.len() > 0 && ns@[a].pushed_at@.len() > 0),
            decreases ns@.len() - i,
        {
            let n = &ns[i];
            let dup = holds_string(&ids, n.id.as_str());
            let ghost before = ids@;
            ids.push(n.id.clone());
            proof {
                crate::text::lemma_views_push(before, n.id);
                assert(views(ids@) =~= nids.take(i + 1));
                assert(nids[i as int] == n.id@);
                if dup {
                    let a = choose|a: int| 0 <= a < views(before).len() && views(before)[a] == n.id@;
                    assert(nids[a] == nids[i as int]);
                }
                assert(distinct_upto(nids, i + 1) == (distinct_upto(nids, i as int) && !dup)) by {
                    if !dup {
                        assert forall|a: int| 0 <= a < i implies nids[a] != nids[i as int] by {
                            assert(views(before)[a] == nids[a]);
                        }
                    }
                }
            }
            if dup || blank_text(n.id.as_str()) || blank_text(n.name.as_str()) || blank_text(n.pushed_at.as_str()) {
                bad_nodes = true;
            }
            i = i + 1;
        }
        assert(nids.take(ns@.len() as int) =~= nids);
        if bad_nodes {
            return Err(String::from_str("repository graph has invalid nodes"));
        }
        let ghost eids = edge_ids(es@);
        let mut seen: Vec<String> = Vec::new();
        let mut bad_edges = false;
        let mut j: usize = 0;
        while j < es.len()
            invariant
                j <= es@.len(),
                eids == edge_ids(es@),
                nids == node_ids(ns@),
                views(ids@) == nids,
                views(seen@) == eids.take(j as int),
                bad_edges == !(distinct_upto(eids, j as int) && forall|b: int| 0 <= b < j ==> (#[trigger] es@[b]).id@.len() > 0
                    && nids.contains(es@[b].source@) && nids.contains(es@[b].target@)),
            decreases es@.len() - j,
        {
            let e = &es[j];
            let dup = holds_string(&seen, e.id.as_str());
            let ghost before = seen@;
            seen.push(e.id.clone());
            proof {
                crate::text::lemma_views_push(before, e.id);
                assert(views(seen@) =~= eids.take(j + 1));
                assert(eids[j as int] == e.id@);
                if dup {
                    let a = choose|a: int| 0 <= a < views(before).len() && views(before)[a] == e.id@;
                    assert(eids[a] == eids[j as int]);
                }
                assert(distinct_upto(eids, j + 1) == (distinct_upto(eids, j as int) && !dup)) by {
                    if !dup {
                        assert forall|a: int| 0 <= a < j implies eids[a] != eids[j as int] by {
                            assert(views(before)[a] == eids[a]);
                        }
                    }
                }
            }
            if dup || blank_text(e.id.as_str()) || !holds_string(&ids, e.source.as_str()) || !holds_string(&ids, e.target.as_str()) {
                bad_edges = true;
            }
            j = j + 1;
        }
        assert(eids.take(es@.len() as int) =~= eids);
        if bad_edges {
            return Err(String::from_str("repository graph has invalid relations"));
        }
        Ok(())
    }
}

/// Whether `s` is the empty string.
fn blank_text(s: &str) -> (r: bool)
    ensures
        r == (s@.len() == 0),
{
    s.is_empty()
}


/// An immutable source cursor. Source and commit identity are the cursor, not
/// a mutable branch name or wall-clock timestamp.
#[derive(Debug, PartialEq, Eq)]
pub struct GitAuthorityCursor {
    /// The public repository whose immutable Git object supplied this snapshot.
    pub source: String,
    pub commit: String,
    pub committed_at: String,
}

impl Clone for GitAuthorityCursor {
    fn clone(&self) -> (r: Self)
        ensures
            r == *self,
    {
        GitAuthorityCursor { source: self.source.clone(), commit: self.commit.clone(), committed_at: self.committed_at.clone() }
    }
}

/// Two cursors name the same checkpoint, field for field.
pub open spec fn same_cursor(a: GitAuthorityCursor, b: GitAuthorityCursor) -> bool {
    a.source@ == b.source@ && a.commit@ == b.commit@ && a.committed_at@ == b.committed_at@
}

/// Whether two cursors are equal, field for field.
pub fn cursor_eq(a: &GitAuthorityCursor, b: &GitAuthorityCursor) -> (r: bool)
    ensures
        r == same_cursor(*a, *b),
{
    str_eq(a.source.as_str(), b.source.as_str()) && str_eq(a.commit.as_str(), b.commit.as_str()) && str_eq(
        a.committed_at.as_str(),
        b.committed_at.as_str(),
    )
}

/// Ordered source cursors available from one authority repository; there is
/// always at least one.
#[derive(Debug)]
pub struct GitAuthorityHistory {
    checkpoints: Vec<GitAuthorityCursor>,
}

impl Clone for GitAuthorityHistory {
    fn clone(&self) -> (r: Self)
        ensures
            r.cursors() == self.cursors(),
    {
        proof {
            use_type_invariant(self);
        }
        let checkpoints = self.checkpoints.clone();
        assert(checkpoints@ =~= self.checkpoints@);
        GitAuthorityHistory { checkpoints }
    }
}

impl GitAuthorityHistory {
    #[verifier::type_invariant]
    spec fn has_checkpoints(self) -> bool {
        self.checkpoints@.len() > 0
    }

    /// The checkpoints, oldest first.
    pub closed spec fn cursors(self) -> Seq<GitAuthorityCursor> {
        self.checkpoints@
    }

    /// A history of the given checkpoints, oldest first; there must be at
    /// least one.
    pub fn from_checkpoints(checkpoints: Vec<GitAuthorityCursor>) -> (r: Result<GitAuthorityHistory, String>)
        ensures
            r is Ok <==> checkpoints@.len() > 0,
            r matches Ok(h) ==> h.cursors() == checkpoints@,
            r matches Err(e) ==> e@ == "Git authority history has no committed checkpoints"@,
    {
        if checkpoints.len() == 0 {
            return Err(String::from_str("Git authority history has no committed checkpoints"));
        }
        Ok(GitAuthorityHistory { checkpoints })
    }

    /// The checkpoints, oldest first.
    pub fn checkpoints(&self) -> (r: &[GitAuthorityCursor])
        ensures
            r@ == self.cursors(),
    {
        self.checkpoints.as_slice()
    }

    /// The first immutable source checkpoint available to this history.
    pub fn earliest_cursor(&self) -> (r: &GitAuthorityCursor)
        ensures
            self.cursors().len() > 0,
            *r == self.cursors()[0],
    {
        proof {
            use_type_invariant(self);
        }
        &self.checkpoints[0]
    }

    /// The newest checkpoint: the live authority.
    pub fn live_cursor(&self) -> (r: &GitAuthorityCursor)
        ensures
            self.cursors().len() > 0,
            *r == self.cursors().last(),
    {
        proof {
            use_type_invariant(self);
        }
        &self.checkpoints[self.checkpoints.len() - 1]
    }

    /// Stable, evenly distributed immutable cursors for a compact scrubber.
    /// No point gives nothing and one point gives the live cursor; otherwise
    /// as many points as asked for, at most one per checkpoint, with point
    /// `k` at checkpoint `k * (n - 1) / (points - 1)`, so that the earliest
    /// and the live cursor are both included.
    pub fn cursor_ticks(&self, max_points: usize) -> (r: Vec<&GitAuthorityCursor>)
        ensures
            self.cursors().len() > 0,
            max_points == 0 ==> r@.len() == 0,
            max_points >= 1 && (max_points == 1 || self.cursors().len() == 1) ==> r@.len() == 1 && *r@[0] == self.cursors().last(),
            max_points >= 2 && self.cursors().len() >= 2 ==> {
                let n = self.cursors().len() as int;
                let points = if max_points < n { max_points as int } else { n };
                &&& r@.len() == points
                &&& forall|k: int| 0 <= k < points ==> *(#[trigger] r@[k]) == self.cursors()[k * (n - 1) / (points - 1)]
                &&& *r@[0] == self.cursors()[0]
                &&& *r@[points - 1] == self.cursors().last()
            },
            r@.len() == tick_count(self.cursors().len() as int, max_points as int),
            forall|k: int| 0 <= k < r@.len() ==> *(#[trigger] r@[k]) == tick_at(self.cursors(), max_points as int, k),
    {
        proof {
            use_type_invariant(self);
        }
        let mut r: Vec<&GitAuthorityCursor> = Vec::new();
        if max_points == 0 {
            return r;
        }
        let n = self.checkpoints.len();
        let final_index = n - 1;
        if max_points == 1 || final_index == 0 {
            r.push(&self.checkpoints[final_index]);
            return r;
        }
        let points = if max_points < n { max_points } else { n };
        let denominator = points - 1;
        let mut index: usize = 0;
        while index < points
            invariant
                index <= points,
                2 <= points <= n,
                n == self.checkpoints@.len(),
                final_index == n - 1,
                denominator == points - 1,
                r@.len() == index,
                forall|k: int| 0 <= k < index ==> *(#[trigger] r@[k]) == self.checkpoints@[k * (n - 1) / (points - 1)],
            decreases points - index,
        {
            proof {
                assert((index as int) * (final_index as int) <= 0xffff_ffff_ffff_ffffint * 0xffff_ffff_ffff_ffffint) by (nonlinear_arith)
                    requires
                        0 <= index <= 0xffff_ffff_ffff_ffffint,
                        0 <= final_index <= 0xffff_ffff_ffff_ffffint,
                ;
            }
            let product: u128 = (index as u128) * (final_index as u128);
            let position: u128 = product / (denominator as u128);
            proof {
                assert(product == index * final_index) by (nonlinear_arith)
                    requires
                        product == (index as u128) * (final_index as u128),
                        index <= n,
                        final_index < n,
                ;
                assert(index * final_index <= denominator * final_index) by (nonlinear_arith)
                    requires
                        index <= denominator,
                ;
                assert((index * final_index) / (denominator as int) <= final_index) by (nonlinear_arith)
                    requires
                        index * final_index <= denominator * final_index,
                        denominator > 0,
                ;
            }
            let at = position as usize;
            r.push(&self.checkpoints[at]);
            index = index + 1;
        }
        proof {
            assert((points - 1) * (n - 1) / (points - 1) == n - 1) by (nonlinear_arith)
                requires
                    points >= 2,
            ;
            assert(0 * (n - 1) / (points - 1) == 0) by (nonlinear_arith)
                requires
                    points >= 2,
            ;
        }
        r
    }

    /// Whether the cursor is one of this history's checkpoints. A foreign
    /// cursor is refused before any Git object is read.
    pub fn check_cursor(&self, cursor: &GitAuthorityCursor) -> (r: Result<(), String>)
        ensures
            r is Ok <==> exists|k: int| 0 <= k < self.cursors().len() && same_cursor(#[trigger] self.cursors()[k], *cursor),
            r matches Err(e) ==> e@ == "Git checkpoint does not belong to this authority history"@,
    {
        let mut i: usize = 0;
        while i < self.checkpoints.len()
            invariant
                i <= self.checkpoints@.len(),
                forall|k: int| 0 <= k < i ==> !same_cursor(#[trigger] self.checkpoints@[k], *cursor),
            decreases self.checkpoints@.len() - i,
        {
            if cursor_eq(&self.checkpoints[i], cursor) {
                assert(same_cursor(self.cursors()[i as int], *cursor));
                return Ok(());
            }
            i = i + 1;
        }
        Err(String::from_str("Git checkpoint does not belong to this authority history"))
    }

    /// The reduced graph of exactly this committed source tree, from the
    /// authority files read at the cursor's commit. The cursor must be one of
    /// this history's checkpoints.
    pub fn snapshot_at(
        &self,
        cursor: &GitAuthorityCursor,
        repositories: &RepositoryManifest,
        relations: &RelationManifest,
        metadata: &PublicMetadataCache,
    ) -> (r: Result<HistoricalRepositoryGraph, String>)
        ensures
            !(exists|k: int| 0 <= k < self.cursors().len() && same_cursor(#[trigger] self.cursors()[k], *cursor)) ==> r is Err
                && r->Err_0@ == "Git checkpoint does not belong to this authority history"@,
            r matches Ok(h) ==> h.schema@ == GIT_HISTORY_SCHEMA@ && h.cursor == *cursor && exists|rr: Seq<RepositoryRecord>, rl: Seq<RelationRecord>|
                #[trigger] reconcile_outcome(rr, rl, *repositories, *relations, *metadata) && graph_inputs_ok(
                rr,
                rl,
                metadata.repository@,
            ) && graph_from(h.graph, rr, rl, metadata.repository@),
            (exists|k: int| 0 <= k < self.cursors().len() && same_cursor(#[trigger] self.cursors()[k], *cursor)) && r is Err
                ==> exists|rr: Seq<RepositoryRecord>, rl: Seq<RelationRecord>| #[trigger] reconcile_outcome(
                rr,
                rl,
                *repositories,
                *relations,
                *metadata,
            ) && !graph_inputs_ok(rr, rl, metadata.repository@),
    {
        match self.check_cursor(cursor) {
            Ok(()) => {},
            Err(e) => {
                return Err(e);
            },
        }
        match RepositoryGraph::from_parts(repositories, relations, metadata) {
            Ok(graph) => Ok(HistoricalRepositoryGraph { schema: String::from_str(GIT_HISTORY_SCHEMA), cursor: cursor.clone(), graph }),
            Err(e) => Err(e),
        }
    }

    /// The sampled projection for a static artifact: the cursors of
    /// `cursor_ticks(max_points)`, in order, each paired with the outcome of
    /// reading the authority at it (`reads[k]` is the read at the `k`-th
    /// tick). A tick whose read failed is kept as an explicit unavailable
    /// checkpoint with the reason, never dropped.
    pub fn sampled_projection(
        &self,
        max_points: usize,
        reads: Vec<Result<HistoricalRepositoryGraph, String>>,
    ) -> (r: GitAuthorityHistoryProjection)
        requires
            reads@.len() == tick_count(self.cursors().len() as int, max_points as int),
            forall|k: int| 0 <= k < reads@.len() && (#[trigger] reads@[k]) is Ok ==> reads@[k]->Ok_0.cursor == tick_at(
                self.cursors(),
                max_points as int,
                k,
            ),
        ensures
            sampled_result(self.cursors(), max_points as int, reads@, r),
    {
        let ticks = self.cursor_ticks(max_points);
        let mut out: Vec<GitAuthorityCheckpointProjection> = Vec::new();
        let mut rest = reads;
        let ghost all = rest@;
        let mut k: usize = 0;
        let n = rest.len();
        while rest.len() > 0
            invariant
                all.len() == n,
                n == ticks@.len(),
                ticks@.len() == tick_count(self.cursors().len() as int, max_points as int),
                forall|j: int| 0 <= j < ticks@.len() ==> *(#[trigger] ticks@[j]) == tick_at(self.cursors(), max_points as int, j),
                forall|j: int| 0 <= j < all.len() && (#[trigger] all[j]) is Ok ==> all[j]->Ok_0.cursor == tick_at(
                    self.cursors(),
                    max_points as int,
                    j,
                ),
                k + rest@.len() == n,
                rest@ == all.subrange(k as int, n as int),
                out@.len() == k,
                forall|j: int| 0 <= j < k ==> sampled_at(#[trigger] out@[j], tick_at(self.cursors(), max_points as int, j), all[j]),
                forall|j: int| 0 <= j < k ==> cursor_of(#[trigger] out@[j]) == tick_at(self.cursors(), max_points as int, j),
            decreases rest@.len(),
        {
            let outcome = rest.remove(0);
            proof {
                assert(all[k as int] == outcome);
            }
            let item = match outcome {
                Ok(snapshot) => GitAuthorityCheckpointProjection::Available { cursor: snapshot.cursor, graph: snapshot.graph },
                Err(reason) => GitAuthorityCheckpointProjection::Unavailable { cursor: ticks[k].clone(), reason },
            };
            out.push(item);
            proof {
                assert(rest@ =~= all.subrange(k + 1, n as int));
            }
            k = k + 1;
        }
        GitAuthorityHistoryProjection { schema: String::from_str(GIT_HISTORY_SCHEMA), checkpoints: out }
    }
}

/// `p` is the sampled projection of a history with these checkpoints: one
/// checkpoint per tick of `cursor_ticks(max_points)`, in order, at the tick's
/// cursor, carrying the read at that tick.
pub open spec fn sampled_result(
    cursors: Seq<GitAuthorityCursor>,
    max_points: int,
    reads: Seq<Result<HistoricalRepositoryGraph, String>>,
    p: GitAuthorityHistoryProjection,
) -> bool {
    &&& p.schema@ == GIT_HISTORY_SCHEMA@
    &&& p.checkpoints@.len() == tick_count(cursors.len() as int, max_points)
    &&& forall|k: int| 0 <= k < p.checkpoints@.len() ==> sampled_at(#[trigger] p.checkpoints@[k], tick_at(cursors, max_points, k), reads[k])
    &&& forall|k: int| 0 <= k < p.checkpoints@.len() ==> cursor_of(#[trigger] p.checkpoints@[k]) == tick_at(cursors, max_points, k)
}

/// Law: sampling keeps every tick. Given the cursors `cursor_ticks(max_points)`
/// gives (`ticks`) and the reads at them, the sampled projection has one
/// checkpoint per tick; the `k`-th is at the `k`-th tick; it is available
/// exactly when the read there succeeded, and otherwise keeps the tick with
/// the reason; and when any point is asked for, the last one is the live
/// cursor.
pub proof fn law_sampled_projection_keeps_every_tick(
    h: GitAuthorityHistory,
    max_points: usize,
    ticks: Seq<GitAuthorityCursor>,
    reads: Seq<Result<HistoricalRepositoryGraph, String>>,
    p: GitAuthorityHistoryProjection,
)
    requires
        h.cursors().len() > 0,
        ticks.len() == tick_count(h.cursors().len() as int, max_points as int),
        forall|k: int| 0 <= k < ticks.len() ==> #[trigger] ticks[k] == tick_at(h.cursors(), max_points as int, k),
        sampled_result(h.cursors(), max_points as int, reads, p),
    ensures
        p.schema@ == GIT_HISTORY_SCHEMA@,
        p.checkpoints@.len() == ticks.len(),
        forall|k: int| 0 <= k < ticks.len() ==> cursor_of(#[trigger] p.checkpoints@[k]) == ticks[k],
        forall|k: int| 0 <= k < ticks.len() ==> ((#[trigger] p.checkpoints@[k]) is Available <==> reads[k] is Ok),
        forall|k: int|
            0 <= k < ticks.len() && (#[trigger] reads[k]) is Err ==> p.checkpoints@[k]
                == (GitAuthorityCheckpointProjection::Unavailable { cursor: ticks[k], reason: reads[k]->Err_0 }),
        max_points >= 1 ==> p.checkpoints@.len() >= 1 && cursor_of(p.checkpoints@.last()) == h.cursors().last(),
{
    assert forall|k: int| 0 <= k < ticks.len() implies ((#[trigger] p.checkpoints@[k]) is Available <==> reads[k] is Ok) by {
        assert(sampled_at(p.checkpoints@[k], tick_at(h.cursors(), max_points as int, k), reads[k]));
    }
    assert forall|k: int| 0 <= k < ticks.len() && (#[trigger] reads[k]) is Err implies p.checkpoints@[k]
        == (GitAuthorityCheckpointProjection::Unavailable { cursor: ticks[k], reason: reads[k]->Err_0 }) by {
        assert(sampled_at(p.checkpoints@[k], tick_at(h.cursors(), max_points as int, k), reads[k]));
        assert(ticks[k] == tick_at(h.cursors(), max_points as int, k));
    }
    if max_points >= 1 {
        let n = h.cursors().len() as int;
        let points = tick_count(n, max_points as int);
        assert(cursor_of(p.checkpoints@[points - 1]) == tick_at(h.cursors(), max_points as int, points - 1));
        if !(max_points == 1 || n <= 1) {
            assert((points - 1) * (n - 1) / (points - 1) == n - 1) by (nonlinear_arith)
                requires
                    points >= 2,
            ;
        }
    }
}

/// How many cursors `cursor_ticks` gives for `n` checkpoints and at most
/// `max_points` points.
pub open spec fn tick_count(n: int, max_points: int) -> int {
    if max_points <= 0 {
        0
    } else if max_points == 1 || n <= 1 {
        1
    } else if max_points < n {
        max_points
    } else {
        n
    }
}

/// The `k`-th cursor that `cursor_ticks` gives: the live cursor alone, or
/// checkpoint `k * (n - 1) / (points - 1)`.
pub open spec fn tick_at(cursors: Seq<GitAuthorityCursor>, max_points: int, k: int) -> GitAuthorityCursor {
    let n = cursors.len() as int;
    if max_points == 1 || n <= 1 {
        cursors.last()
    } else {
        let points = tick_count(n, max_points);
        cursors[k * (n - 1) / (points - 1)]
    }
}

/// `c` is what the tick cursor `tick` projects to with the outcome of reading
/// the authority at it: the snapshot's graph at the snapshot's cursor, or the
/// reason at the tick.
pub open spec fn sampled_at(
    c: GitAuthorityCheckpointProjection,
    tick: GitAuthorityCursor,
    read: Result<HistoricalRepositoryGraph, String>,
) -> bool {
    match read {
        Ok(h) => c == GitAuthorityCheckpointProjection::Available { cursor: h.cursor, graph: h.graph },
        Err(reason) => c == GitAuthorityCheckpointProjection::Unavailable { cursor: tick, reason },
    }
}

/// The public artifact record for one Git authority checkpoint.
#[derive(Debug, PartialEq, Eq)]
pub struct HistoricalRepositoryGraph {
    pub schema: String,
    pub cursor: GitAuthorityCursor,
    pub graph: RepositoryGraph,
}

/// A sampled, public history payload for a static artifact. Checkpoints whose
/// authority files predate this graph are retained as explicit unavailability,
/// never projected as an empty graph.
#[derive(Debug, PartialEq, Eq)]
pub struct GitAuthorityHistoryProjection {
    pub schema: String,
    pub checkpoints: Vec<GitAuthorityCheckpointProjection>,
}

#[derive(Debug, PartialEq, Eq)]
pub enum GitAuthorityCheckpointProjection {
    Available { cursor: GitAuthorityCursor, graph: RepositoryGraph },
    Unavailable { cursor: GitAuthorityCursor, reason: String },
}

/// The cursor of a projected checkpoint.
pub open spec fn cursor_of(c: GitAuthorityCheckpointProjection) -> GitAuthorityCursor {
    match c {
        GitAuthorityCheckpointProjection::Available { cursor, .. } => cursor,
        GitAuthorityCheckpointProjection::Unavailable { cursor, .. } => cursor,
    }
}

/// The cursor of a projected checkpoint.
pub fn checkpoint_cursor(checkpoint: &GitAuthorityCheckpointProjection) -> (r: &GitAuthorityCursor)
    ensures
        *r == cursor_of(*checkpoint),
{
    match checkpoint {
        GitAuthorityCheckpointProjection::Available { cursor, .. } => cursor,
        GitAuthorityCheckpointProjection::Unavailable { cursor, .. } => cursor,
    }
}


/// The public source an origin URL names: trimmed, without trailing `.git`,
/// and without a GitHub `https://github.com/` or `git@github.com:` prefix.
pub open spec fn repo_source(remote: Seq<char>) -> Seq<char> {
    let r = without_git_suffixes(trimmed(remote));
    if has_prefix(r, "https://github.com/"@) {
        r.subrange(19, r.len() as int)
    } else if has_prefix(r, "git@github.com:"@) {
        r.subrange(15, r.len() as int)
    } else {
        r
    }
}

/// The public source named by the output of `git remote get-url origin`.
pub fn git_repository_source(remote: &str) -> (r: Result<String, String>)
    ensures
        r is Ok <==> repo_source(remote@).len() > 0,
        r matches Ok(source) ==> source@ == repo_source(remote@),
        r matches Err(e) ==> e@ == "Git authority origin is empty"@,
{
    let trimmed_remote = trim(remote);
    let bare = trim_git_suffixes(trimmed_remote.as_str());
    let cs = chars_of(bare.as_str());
    proof {
        reveal_strlit("https://github.com/");
        reveal_strlit("git@github.com:");
    }
    let source = if starts_with(bare.as_str(), "https://github.com/") {
        text_between(&cs, 19, cs.len())
    } else if starts_with(bare.as_str(), "git@github.com:") {
        text_between(&cs, 15, cs.len())
    } else {
        text_between(&cs, 0, cs.len())
    };
    proof {
        assert(cs@ =~= cs@.subrange(0, cs@.len() as int));
    }
    if blank_text(source.as_str()) {
        return Err(String::from_str("Git authority origin is empty"));
    }
    Ok(source)
}

/// Position `t` holds the first tab of the line.
pub open spec fn first_tab(l: Seq<char>, t: int) -> bool {
    0 <= t < l.len() && l[t] == '\t' && forall|u: int| 0 <= u < t ==> l[u] != '\t'
}

/// A line of `git log --format=%H%x09%cI`: a commit, a tab, a timestamp,
/// neither of them empty.
pub open spec fn log_line_ok(l: Seq<char>) -> bool {
    exists|t: int| #[trigger] first_tab(l, t) && t > 0 && t + 1 < l.len()
}

/// `c` is the checkpoint of the log line `l` in the repository `source`.
pub open spec fn cursor_from_line(c: GitAuthorityCursor, source: Seq<char>, l: Seq<char>) -> bool {
    &&& c.source@ == source
    &&& forall|t: int| #[trigger] first_tab(l, t) ==> c.commit@ == l.subrange(0, t) && c.committed_at@ == l.subrange(t + 1, l.len() as int)
}

/// The position of the first tab of `cs`, if any.
fn find_tab(cs: &Vec<char>) -> (r: Option<usize>)
    ensures
        match r {
            Some(t) => first_tab(cs@, t as int),
            None => !cs@.contains('\t'),
        },
{
    let mut i: usize = 0;
    while i < cs.len()
        invariant
            i <= cs@.len(),
            forall|u: int| 0 <= u < i ==> cs@[u] != '\t',
        decreases cs@.len() - i,
    {
        if cs[i] == '\t' {
            return Some(i);
        }
        i = i + 1;
    }
    None
}

impl GitAuthorityHistory {
    /// The committed checkpoints, oldest first, from the outputs of
    /// `git remote get-url origin` and `git log --reverse --format=%H%x09%cI`.
    pub fn discover(remote: &str, log: &str) -> (r: Result<GitAuthorityHistory, String>)
        ensures
            r is Ok <==> repo_source(remote@).len() > 0 && text_lines(log@).len() > 0 && forall|i: int|
                0 <= i < text_lines(log@).len() ==> log_line_ok(#[trigger] text_lines(log@)[i]),
            r matches Ok(h) ==> h.cursors().len() == text_lines(log@).len() && forall|i: int|
                0 <= i < text_lines(log@).len() ==> cursor_from_line(#[trigger] h.cursors()[i], repo_source(remote@), text_lines(log@)[i]),
    {
        let source = match git_repository_source(remote) {
            Ok(s) => s,
            Err(e) => {
                return Err(e);
            },
        };
        let ls = lines(log);
        let ghost tl = text_lines(log@);
        let mut checkpoints: Vec<GitAuthorityCursor> = Vec::new();
        let mut i: usize = 0;
        while i < ls.len()
            invariant
                i <= ls@.len(),
                views(ls@) == tl,
                tl == text_lines(log@),
                source@ == repo_source(remote@),
                checkpoints@.len() == i,
                forall|k: int| 0 <= k < i ==> log_line_ok(#[trigger] tl[k]),
                forall|k: int| 0 <= k < i ==> cursor_from_line(#[trigger] checkpoints@[k], source@, tl[k]),
            decreases ls@.len() - i,
        {
            let cs = chars_of(ls[i].as_str());
            assert(tl[i as int] == cs@);
            match find_tab(&cs) {
                None => {
                    proof {
                        assert forall|t: int| !#[trigger] first_tab(cs@, t) by {
                            if first_tab(cs@, t) {
                                assert(cs@.contains(cs@[t]));
                            }
                        }
                        assert(!log_line_ok(tl[i as int]));
                    }
                    return Err(String::from_str("Git checkpoint is missing its timestamp"));
                },
                Some(t) => {
                    proof {
                        assert forall|u: int| #[trigger] first_tab(cs@, u) implies u == t by {
                            if u < t {
                                assert(cs@[u] != '\t');
                            } else if u > t {
                                assert(cs@[t as int] != '\t');
                            }
                        }
                    }
                    if t == 0 || t + 1 >= cs.len() {
                        assert(!log_line_ok(tl[i as int]));
                        return Err(String::from_str("Git checkpoint is incomplete"));
                    }
                    let commit = text_between(&cs, 0, t);
                    let committed_at = text_between(&cs, t + 1, cs.len());
                    checkpoints.push(GitAuthorityCursor { source: source.clone(), commit, committed_at });
                },
            }
            i = i + 1;
        }
        if checkpoints.len() == 0 {
            return Err(String::from_str("Git authority history has no committed checkpoints"));
        }
        Ok(GitAuthorityHistory { checkpoints })
    }
}

/// The reduced archive of older public checkpoints that came from other
/// repositories, as checked in beside the authority.
#[derive(Debug)]
pub struct HistoricalAuthorityManifest {
    pub schema: String,
    pub checkpoint: Vec<HistoricalAuthorityCheckpoint>,
}

#[derive(Debug)]
pub struct HistoricalAuthorityCheckpoint {
    pub source: String,
    pub commit: String,
    pub committed_at: String,
    pub nodes: Vec<RepositoryGraphNode>,
    pub edges: Vec<RepositoryGraphEdge>,
}

/// `c` is the projection of the archived checkpoint `a`.
pub open spec fn archived_as(c: GitAuthorityCheckpointProjection, a: HistoricalAuthorityCheckpoint) -> bool {
    &&& c is Available
    &&& cursor_of(c).source == a.source
    &&& cursor_of(c).commit == a.commit
    &&& cursor_of(c).committed_at == a.committed_at
    &&& c->Available_graph.schema@ == REPOSITORY_GRAPH_SCHEMA@
    &&& c->Available_graph.nodes == a.nodes
    &&& c->Available_graph.edges == a.edges
}

impl HistoricalAuthorityManifest {
    /// The archive declares its schema and holds at least one checkpoint.
    pub fn validate_header(&self) -> (r: Result<(), String>)
        ensures
            r is Ok <==> self.schema@ == HISTORICAL_TIMELINE_SCHEMA@ && self.checkpoint@.len() > 0,
            r matches Err(e) ==> e@ == "historical repository authority has an invalid schema or no checkpoints"@,
    {
        if !str_eq(self.schema.as_str(), HISTORICAL_TIMELINE_SCHEMA) || self.checkpoint.len() == 0 {
            return Err(String::from_str("historical repository authority has an invalid schema or no checkpoints"));
        }
        Ok(())
    }

    /// Each archived checkpoint as an available projected checkpoint, in
    /// order; every carried graph must be valid.
    pub fn project(self) -> (r: Result<Vec<GitAuthorityCheckpointProjection>, String>)
        ensures
            r is Ok <==> forall|k: int| 0 <= k < self.checkpoint@.len() ==> parts_valid(
                (#[trigger] self.checkpoint@[k]).nodes@,
                self.checkpoint@[k].edges@,
            ),
            r matches Ok(v) ==> v@.len() == self.checkpoint@.len() && forall|k: int| 0 <= k < v@.len() ==> archived_as(
                #[trigger] v@[k],
                self.checkpoint@[k],
            ),
    {
        let ghost all = self.checkpoint@;
        let mut rest = self.checkpoint;
        let n = rest.len();
        let mut out: Vec<GitAuthorityCheckpointProjection> = Vec::new();
        let mut k: usize = 0;
        while rest.len() > 0
            invariant
                all.len() == n,
                all == self.checkpoint@,
                k + rest@.len() == n,
                rest@ == all.subrange(k as int, n as int),
                out@.len() == k,
                forall|j: int| 0 <= j < k ==> archived_as(#[trigger] out@[j], all[j]),
                forall|j: int| 0 <= j < k ==> parts_valid((#[trigger] all[j]).nodes@, all[j].edges@),
            decreases rest@.len(),
        {
            let a = rest.remove(0);
            assert(all[k as int] == a);
            let graph = RepositoryGraph { schema: String::from_str(REPOSITORY_GRAPH_SCHEMA), nodes: a.nodes, edges: a.edges };
            match graph.validate() {
                Ok(()) => {},
                Err(e) => {
                    assert(!parts_valid(all[k as int].nodes@, all[k as int].edges@));
                    return Err(e);
                },
            }
            out.push(
                GitAuthorityCheckpointProjection::Available {
                    cursor: GitAuthorityCursor { source: a.source, commit: a.commit, committed_at: a.committed_at },
                    graph,
                },
            );
            proof {
                assert(rest@ =~= all.subrange(k + 1, n as int));
            }
            k = k + 1;
        }
        Ok(out)
    }
}


/// `a` sorts before `b`: by commit time, then source, then commit.
pub open spec fn cursor_lt(a: GitAuthorityCursor, b: GitAuthorityCursor) -> bool {
    ||| text_lt(a.committed_at@, b.committed_at@)
    ||| a.committed_at@ == b.committed_at@ && text_lt(a.source@, b.source@)
    ||| a.committed_at@ == b.committed_at@ && a.source@ == b.source@ && text_lt(a.commit@, b.commit@)
}

proof fn lemma_cursor_lt_trans(a: GitAuthorityCursor, b: GitAuthorityCursor, c: GitAuthorityCursor)
    requires
        cursor_lt(a, b),
        cursor_lt(b, c),
    ensures
        cursor_lt(a, c),
{
    if text_lt(a.committed_at@, b.committed_at@) && text_lt(b.committed_at@, c.committed_at@) {
        lemma_text_lt_trans(a.committed_at@, b.committed_at@, c.committed_at@);
    }
    if text_lt(a.source@, b.source@) && text_lt(b.source@, c.source@) {
        lemma_text_lt_trans(a.source@, b.source@, c.source@);
    }
    if text_lt(a.commit@, b.commit@) && text_lt(b.commit@, c.commit@) {
        lemma_text_lt_trans(a.commit@, b.commit@, c.commit@);
    }
}

/// Two cursors sort as equals: the same time, source and commit.
pub open spec fn same_key(a: GitAuthorityCursor, b: GitAuthorityCursor) -> bool {
    a.committed_at@ == b.committed_at@ && a.source@ == b.source@ && a.commit@ == b.commit@
}

proof fn lemma_cursor_lt_irreflexive(a: GitAuthorityCursor)
    ensures
        !cursor_lt(a, a),
{
    lemma_text_lt_total(a.committed_at@, a.committed_at@);
    lemma_text_lt_total(a.source@, a.source@);
    lemma_text_lt_total(a.commit@, a.commit@);
}

/// Whether `a` sorts before `b`.
fn cursor_before(a: &GitAuthorityCursor, b: &GitAuthorityCursor) -> (r: bool)
    ensures
        r == cursor_lt(*a, *b),
{
    if text_less(a.committed_at.as_str(), b.committed_at.as_str()) {
        return true;
    }
    if !str_eq(a.committed_at.as_str(), b.committed_at.as_str()) {
        return false;
    }
    if text_less(a.source.as_str(), b.source.as_str()) {
        return true;
    }
    if !str_eq(a.source.as_str(), b.source.as_str()) {
        return false;
    }
    text_less(a.commit.as_str(), b.commit.as_str())
}

/// Two checkpoints carry the same cursor and the same graph or reason.
pub open spec fn same_checkpoint(a: GitAuthorityCheckpointProjection, b: GitAuthorityCheckpointProjection) -> bool {
    match a {
        GitAuthorityCheckpointProjection::Available { cursor, graph } => b is Available && b->Available_cursor == cursor
            && same_graph(b->Available_graph, graph),
        GitAuthorityCheckpointProjection::Unavailable { cursor, reason } => b is Unavailable && b->Unavailable_cursor
            == cursor && b->reason@ == reason@,
    }
}

/// A sampled checkpoint, with the live one carrying the current graph.
pub open spec fn with_current(
    c: GitAuthorityCheckpointProjection,
    live: GitAuthorityCursor,
    current: RepositoryGraph,
) -> GitAuthorityCheckpointProjection {
    if c is Available && same_cursor(cursor_of(c), live) {
        GitAuthorityCheckpointProjection::Available { cursor: live, graph: current }
    } else {
        c
    }
}

/// The archived checkpoints followed by the sampled ones, the live one
/// carrying the current graph.
pub open spec fn merged_history(
    archived: Seq<GitAuthorityCheckpointProjection>,
    live: GitAuthorityCursor,
    sampled: Seq<GitAuthorityCheckpointProjection>,
    current: RepositoryGraph,
) -> Seq<GitAuthorityCheckpointProjection> {
    archived + sampled.map_values(|c: GitAuthorityCheckpointProjection| with_current(c, live, current))
}

/// A cursor names its source, commit and time.
pub open spec fn cursor_complete(c: GitAuthorityCursor) -> bool {
    c.source@.len() > 0 && c.commit@.len() > 0 && c.committed_at@.len() > 0
}

/// Two cursors name the same commit of the same source.
pub open spec fn same_identity(a: GitAuthorityCursor, b: GitAuthorityCursor) -> bool {
    a.source@ == b.source@ && a.commit@ == b.commit@
}

/// One checkpoint has a complete cursor and, when available, a valid graph.
pub open spec fn checkpoint_ok(c: GitAuthorityCheckpointProjection) -> bool {
    cursor_complete(cursor_of(c)) && (c is Available ==> graph_valid(c->Available_graph))
}

/// Every checkpoint is well formed and no source commit appears twice.
pub open spec fn history_ok(cs: Seq<GitAuthorityCheckpointProjection>) -> bool {
    &&& forall|i: int| 0 <= i < cs.len() ==> checkpoint_ok(#[trigger] cs[i])
    &&& forall|i: int, j: int| 0 <= i < j < cs.len() ==> !same_identity(cursor_of(#[trigger] cs[i]), cursor_of(#[trigger] cs[j]))
}

/// `s` is `m` rearranged by the permutation `idx` into cursor order, with
/// checkpoints that sort as equals kept in their order in `m`.
pub open spec fn sorted_arrangement(
    s: Seq<GitAuthorityCheckpointProjection>,
    m: Seq<GitAuthorityCheckpointProjection>,
    idx: Seq<int>,
) -> bool {
    &&& is_permutation(idx, m.len() as int)
    &&& s.len() == m.len()
    &&& forall|k: int| 0 <= k < s.len() ==> same_checkpoint(#[trigger] s[k], m[idx[k]])
    &&& forall|k: int, l: int| 0 <= k < l < s.len() ==> !cursor_lt(cursor_of(#[trigger] s[l]), cursor_of(#[trigger] s[k]))
    &&& forall|k: int, l: int|
        0 <= k < l < s.len() && same_key(cursor_of(#[trigger] s[k]), cursor_of(#[trigger] s[l])) ==> idx[k] < idx[l]
}

/// Checkpoint `c` of `s` is the first one a scan in order refuses, and
/// `e` is what the scan says of it: an incomplete cursor first, then a
/// source commit already seen, else the checkpoint's graph is invalid and
/// its own error is reported.
pub open spec fn history_problem(s: Seq<GitAuthorityCheckpointProjection>, c: int, e: Seq<char>) -> bool {
    &&& 0 <= c < s.len()
    &&& forall|k: int| 0 <= k < c ==> checkpoint_ok(#[trigger] s[k])
    &&& forall|k: int, l: int| 0 <= k < l < c ==> !same_identity(cursor_of(#[trigger] s[k]), cursor_of(#[trigger] s[l]))
    &&& if !cursor_complete(cursor_of(s[c])) {
        e == "repository history has an incomplete source cursor"@
    } else if exists|k: int| 0 <= k < c && same_identity(cursor_of(#[trigger] s[k]), cursor_of(s[c])) {
        e == "repository history repeats a source commit"@
    } else {
        s[c] is Available && !graph_valid(s[c]->Available_graph) && e == graph_error(s[c]->Available_graph)
    }
}

/// A scan of `s` in order refuses some checkpoint with `e`.
pub open spec fn history_refused(s: Seq<GitAuthorityCheckpointProjection>, e: Seq<char>) -> bool {
    exists|c: int| #[trigger] history_problem(s, c, e)
}

/// Position `a` occurs among the first `n` entries of `idx`.
pub open spec fn listed(idx: Seq<int>, n: int, a: int) -> bool {
    exists|k: int| 0 <= k < n && #[trigger] idx[k] == a
}

/// `idx` lists every position `0..n` exactly once.
pub open spec fn is_permutation(idx: Seq<int>, n: int) -> bool {
    &&& idx.len() == n
    &&& forall|k: int| 0 <= k < n ==> 0 <= #[trigger] idx[k] < n
    &&& forall|k: int, l: int| 0 <= k < l < n ==> #[trigger] idx[k] != #[trigger] idx[l]
    &&& forall|a: int| 0 <= a < n ==> #[trigger] listed(idx, n, a)
}

proof fn lemma_same_checkpoint(a: GitAuthorityCheckpointProjection, b: GitAuthorityCheckpointProjection)
    requires
        same_checkpoint(a, b),
    ensures
        cursor_of(a) == cursor_of(b),
        checkpoint_ok(a) == checkpoint_ok(b),
{
}

proof fn lemma_history_same(xs: Seq<GitAuthorityCheckpointProjection>, ys: Seq<GitAuthorityCheckpointProjection>)
    requires
        xs.len() == ys.len(),
        forall|k: int| 0 <= k < xs.len() ==> same_checkpoint(#[trigger] xs[k], ys[k]),
    ensures
        history_ok(xs) == history_ok(ys),
{
    assert forall|k: int| 0 <= k < xs.len() implies cursor_of(#[trigger] xs[k]) == cursor_of(ys[k]) && checkpoint_ok(xs[k])
        == checkpoint_ok(ys[k]) by {
        lemma_same_checkpoint(xs[k], ys[k]);
    }
    if history_ok(xs) {
        assert forall|i: int| 0 <= i < ys.len() implies checkpoint_ok(#[trigger] ys[i]) by {
            assert(checkpoint_ok(xs[i]));
        }
        assert forall|i: int, j: int| 0 <= i < j < ys.len() implies !same_identity(cursor_of(#[trigger] ys[i]), cursor_of(#[trigger] ys[j])) by {
            assert(!same_identity(cursor_of(xs[i]), cursor_of(xs[j])));
        }
    }
    if history_ok(ys) {
        assert forall|i: int| 0 <= i < xs.len() implies checkpoint_ok(#[trigger] xs[i]) by {
            assert(checkpoint_ok(ys[i]));
        }
        assert forall|i: int, j: int| 0 <= i < j < xs.len() implies !same_identity(cursor_of(#[trigger] xs[i]), cursor_of(#[trigger] xs[j])) by {
            assert(!same_identity(cursor_of(ys[i]), cursor_of(ys[j])));
        }
    }
}

proof fn lemma_history_permuted(out: Seq<GitAuthorityCheckpointProjection>, m: Seq<GitAuthorityCheckpointProjection>, idx: Seq<int>)
    requires
        is_permutation(idx, m.len() as int),
        out.len() == m.len(),
        forall|k: int| 0 <= k < out.len() ==> #[trigger] out[k] == m[idx[k]],
    ensures
        history_ok(out) == history_ok(m),
{
    let n = m.len() as int;
    if history_ok(m) {
        assert forall|i: int| 0 <= i < n implies checkpoint_ok(#[trigger] out[i]) by {
            assert(out[i] == m[idx[i]]);
            assert(0 <= idx[i] < n);
        }
        assert forall|i: int, j: int| 0 <= i < j < n implies !same_identity(cursor_of(#[trigger] out[i]), cursor_of(#[trigger] out[j])) by {
            assert(out[i] == m[idx[i]] && out[j] == m[idx[j]]);
            assert(idx[i] != idx[j]);
            assert(0 <= idx[i] < n && 0 <= idx[j] < n);
            if idx[i] < idx[j] {
                assert(!same_identity(cursor_of(m[idx[i]]), cursor_of(m[idx[j]])));
            } else {
                assert(!same_identity(cursor_of(m[idx[j]]), cursor_of(m[idx[i]])));
            }
        }
    }
    if history_ok(out) {
        assert forall|a: int| 0 <= a < n implies checkpoint_ok(#[trigger] m[a]) by {
            assert(listed(idx, n, a));
            let k = choose|k: int| 0 <= k < n && idx[k] == a;
            assert(out[k] == m[a]);
        }
        assert forall|a: int, b: int| 0 <= a < b < n implies !same_identity(cursor_of(#[trigger] m[a]), cursor_of(#[trigger] m[b])) by {
            assert(listed(idx, n, a) && listed(idx, n, b));
            let ka = choose|k: int| 0 <= k < n && idx[k] == a;
            let kb = choose|k: int| 0 <= k < n && idx[k] == b;
            assert(out[ka] == m[a] && out[kb] == m[b]);
            if ka < kb {
                assert(!same_identity(cursor_of(out[ka]), cursor_of(out[kb])));
            } else {
                assert(!same_identity(cursor_of(out[kb]), cursor_of(out[ka])));
            }
        }
    }
}

/// Whether an earlier checkpoint of `cs` names the same source commit as
/// checkpoint `i`.
fn identity_repeated(cs: &Vec<GitAuthorityCheckpointProjection>, i: usize) -> (r: bool)
    requires
        i < cs@.len(),
    ensures
        r == exists|k: int| 0 <= k < i && same_identity(cursor_of(#[trigger] cs@[k]), cursor_of(cs@[i as int])),
{
    let c = checkpoint_cursor(&cs[i]);
    let mut k: usize = 0;
    while k < i
        invariant
            k <= i < cs@.len(),
            *c == cursor_of(cs@[i as int]),
            forall|j: int| 0 <= j < k ==> !same_identity(cursor_of(#[trigger] cs@[j]), cursor_of(cs@[i as int])),
        decreases i - k,
    {
        let d = checkpoint_cursor(&cs[k]);
        if str_eq(d.source.as_str(), c.source.as_str()) && str_eq(d.commit.as_str(), c.commit.as_str()) {
            return true;
        }
        k = k + 1;
    }
    false
}

/// Builds the public timeline: the archived checkpoints of other public
/// repositories, then the authority's own sampled checkpoints with the live
/// one carrying the freshly validated current graph; sorted by commit time,
/// source and commit; and accepted only when every cursor is complete, no
/// source commit appears twice and every carried graph is valid. A refusal
/// reports the first checkpoint, in that order, that breaks one of these.
#[verifier::spinoff_prover]
pub fn public_history_projection(
    archived: Vec<GitAuthorityCheckpointProjection>,
    live_cursor: &GitAuthorityCursor,
    sampled: GitAuthorityHistoryProjection,
    current: RepositoryGraph,
) -> (r: Result<GitAuthorityHistoryProjection, String>)
    ensures
        r is Ok <==> history_ok(merged_history(archived@, *live_cursor, sampled.checkpoints@, current)),
        r matches Ok(p) ==> {
            let m = merged_history(archived@, *live_cursor, sampled.checkpoints@, current);
            &&& p.schema@ == GIT_HISTORY_SCHEMA@
            &&& p.checkpoints@.len() == m.len()
            &&& exists|idx: Seq<int>| #[trigger] sorted_arrangement(p.checkpoints@, m, idx)
            &&& forall|k: int, l: int| 0 <= k < l < m.len() ==> !cursor_lt(
                cursor_of(#[trigger] p.checkpoints@[l]),
                cursor_of(#[trigger] p.checkpoints@[k]),
            )
        },
        r matches Err(e) ==> exists|s: Seq<GitAuthorityCheckpointProjection>, idx: Seq<int>|
            #[trigger] sorted_arrangement(s, merged_history(archived@, *live_cursor, sampled.checkpoints@, current), idx)
                && history_refused(s, e@),
{
    let ghost spec_m = merged_history(archived@, *live_cursor, sampled.checkpoints@, current);
    let ghost a_len: int = archived@.len() as int;
    let mut merged: Vec<GitAuthorityCheckpointProjection> = Vec::new();
    let mut rest = archived;
    let ghost arch = rest@;
    while rest.len() > 0
        invariant
            merged@.len() + rest@.len() == a_len,
            arch.len() == a_len,
            rest@ == arch.subrange(merged@.len() as int, a_len as int),
            forall|k: int| 0 <= k < merged@.len() ==> #[trigger] merged@[k] == arch[k],
        decreases rest@.len(),
    {
        let ghost k: int = merged@.len() as int;
        let item = rest.remove(0);
        assert(item == arch[k]);
        merged.push(item);
        assert(rest@ =~= arch.subrange(k + 1, a_len as int));
    }
    let ghost samp = sampled.checkpoints@;
    let s_n = sampled.checkpoints.len();
    let mut more = sampled.checkpoints;
    let ghost s_len: int = s_n as int;
    let mut j: usize = 0;
    while more.len() > 0
        invariant
            j + more@.len() == s_len,
            s_len <= usize::MAX,
            a_len >= 0,
            samp.len() == s_len,
            more@ == samp.subrange(j as int, s_len as int),
            merged@.len() == a_len + j,
            forall|k: int| 0 <= k < a_len ==> #[trigger] merged@[k] == arch[k],
            forall|k: int| 0 <= k < j ==> same_checkpoint(
                #[trigger] merged@[a_len + k],
                with_current(samp[k], *live_cursor, current),
            ),
        decreases more@.len(),
    {
        let item = more.remove(0);
        assert(item == samp[j as int]);
        let ghost old_merged = merged@;
        let is_live = match &item {
            GitAuthorityCheckpointProjection::Available { cursor, .. } => cursor_eq(cursor, live_cursor),
            GitAuthorityCheckpointProjection::Unavailable { .. } => false,
        };
        let pushed = if is_live {
            GitAuthorityCheckpointProjection::Available { cursor: live_cursor.clone(), graph: current.clone() }
        } else {
            item
        };
        merged.push(pushed);
        proof {
            assert(merged@ == old_merged.push(pushed));
            assert(more@ =~= samp.subrange(j + 1, s_len as int));
            let w = with_current(samp[j as int], *live_cursor, current);
            assert(same_checkpoint(merged@[a_len + j], w));
            assert forall|k: int| 0 <= k < j + 1 implies same_checkpoint(
                #[trigger] merged@[a_len + k],
                with_current(samp[k], *live_cursor, current),
            ) by {
                if k < j {
                    assert(merged@[a_len + k] == old_merged[a_len + k]);
                }
            }
        }
        j = j + 1;
    }
    proof {
        assert(spec_m.len() == merged@.len());
        assert forall|k: int| 0 <= k < merged@.len() implies same_checkpoint(#[trigger] merged@[k], spec_m[k]) by {
            if k < a_len {
                assert(spec_m[k] == arch[k]);
                assert(merged@[k] == arch[k]);
            } else {
                assert(spec_m[k] == with_current(samp[k - a_len], *live_cursor, current));
                assert(merged@[a_len + (k - a_len)] == merged@[k]);
            }
        }
    }
    let ghost m = merged@;
    let n = merged.len();
    let mut pool = merged;
    let mut out: Vec<GitAuthorityCheckpointProjection> = Vec::new();
    let ghost mut idx: Seq<int> = Seq::empty();
    let mut i: usize = 0;
    while pool.len() > 0
        invariant
            i + pool@.len() == n,
            m.len() == n,
            pool@ == m.subrange(i as int, n as int),
            out@.len() == i,
            idx.len() == i,
            forall|k: int| 0 <= k < i ==> 0 <= #[trigger] idx[k] < i,
            forall|k: int, l: int| 0 <= k < l < i ==> #[trigger] idx[k] != #[trigger] idx[l],
            forall|a: int| 0 <= a < i ==> #[trigger] listed(idx, i as int, a),
            forall|k: int| 0 <= k < i ==> #[trigger] out@[k] == m[idx[k]],
            forall|k: int, l: int| 0 <= k < l < i ==> !cursor_lt(cursor_of(#[trigger] out@[l]), cursor_of(#[trigger] out@[k])),
            forall|k: int, l: int|
                0 <= k < l < i && same_key(cursor_of(#[trigger] out@[k]), cursor_of(#[trigger] out@[l])) ==> idx[k] < idx[l],
        decreases pool@.len(),
    {
        let item = pool.remove(0);
        assert(item == m[i as int]);
        let mut p: usize = 0;
        while p < out.len() && !cursor_before(checkpoint_cursor(&item), checkpoint_cursor(&out[p]))
            invariant
                p <= out@.len(),
                forall|k: int| 0 <= k < p ==> !cursor_lt(cursor_of(item), cursor_of(#[trigger] out@[k])),
            decreases out@.len() - p,
        {
            p = p + 1;
        }
        let ghost before = out@;
        let ghost old_idx = idx;
        out.insert(p, item);
        proof {
            idx = old_idx.insert(p as int, i as int);
            assert(out@ == before.insert(p as int, item));
            assert forall|k: int| 0 <= k < i + 1 implies 0 <= #[trigger] idx[k] < i + 1 by {
                if k < p {
                    assert(idx[k] == old_idx[k]);
                } else if k > p {
                    assert(idx[k] == old_idx[k - 1]);
                }
            }
            assert forall|k: int, l: int| 0 <= k < l < i + 1 implies #[trigger] idx[k] != #[trigger] idx[l] by {
                if k < p && l < p {
                    assert(idx[k] == old_idx[k] && idx[l] == old_idx[l]);
                } else if k < p && l == p {
                    assert(idx[k] == old_idx[k]);
                } else if k < p && l > p {
                    assert(idx[k] == old_idx[k] && idx[l] == old_idx[l - 1]);
                } else if k == p {
                    assert(idx[l] == old_idx[l - 1]);
                } else {
                    assert(idx[k] == old_idx[k - 1] && idx[l] == old_idx[l - 1]);
                }
            }
            assert forall|a: int| 0 <= a < i + 1 implies #[trigger] listed(idx, i + 1, a) by {
                if a == i {
                    assert(idx[p as int] == a);
                } else {
                    assert(listed(old_idx, i as int, a));
                    let k0 = choose|k: int| 0 <= k < i && #[trigger] old_idx[k] == a;
                    if k0 < p {
                        assert(idx[k0] == a);
                    } else {
                        assert(idx[k0 + 1] == a);
                    }
                }
            }
            assert forall|k: int| 0 <= k < i + 1 implies #[trigger] out@[k] == m[idx[k]] by {
                if k < p {
                    assert(out@[k] == before[k] && idx[k] == old_idx[k]);
                } else if k > p {
                    assert(out@[k] == before[k - 1] && idx[k] == old_idx[k - 1]);
                }
            }
            assert forall|k: int, l: int| 0 <= k < l < i + 1 implies !cursor_lt(cursor_of(#[trigger] out@[l]), cursor_of(#[trigger] out@[k])) by {
                if l < p {
                    assert(out@[k] == before[k] && out@[l] == before[l]);
                } else if l == p {
                    assert(out@[k] == before[k]);
                } else if k < p {
                    assert(out@[k] == before[k] && out@[l] == before[l - 1]);
                    assert(!cursor_lt(cursor_of(before[l - 1]), cursor_of(before[k])));
                } else if k == p {
                    assert(out@[l] == before[l - 1]);
                    assert(out@[k] == item);
                    assert(cursor_lt(cursor_of(item), cursor_of(before[p as int])));
                    if cursor_lt(cursor_of(before[l - 1]), cursor_of(item)) {
                        lemma_cursor_lt_trans(cursor_of(before[l - 1]), cursor_of(item), cursor_of(before[p as int]));
                        if l - 1 > p {
                            assert(!cursor_lt(cursor_of(before[l - 1]), cursor_of(before[p as int])));
                        } else {
                            lemma_cursor_lt_irreflexive(cursor_of(before[p as int]));
                        }
                    }
                } else {
                    assert(out@[k] == before[k - 1] && out@[l] == before[l - 1]);
                }
            }
            assert forall|k: int, l: int|
                0 <= k < l < i + 1 && same_key(cursor_of(#[trigger] out@[k]), cursor_of(#[trigger] out@[l])) implies idx[k] < idx[l] by {
                if l < p {
                    assert(out@[k] == before[k] && out@[l] == before[l]);
                    assert(idx[k] == old_idx[k] && idx[l] == old_idx[l]);
                } else if l == p {
                    assert(idx[k] == old_idx[k]);
                } else if k < p {
                    assert(out@[k] == before[k] && out@[l] == before[l - 1]);
                    assert(idx[k] == old_idx[k] && idx[l] == old_idx[l - 1]);
                } else if k == p {
                    assert(out@[l] == before[l - 1]);
                    assert(out@[k] == item);
                    assert(cursor_lt(cursor_of(item), cursor_of(before[p as int])));
                    if l - 1 > p {
                        assert(!cursor_lt(cursor_of(before[l - 1]), cursor_of(before[p as int])));
                    } else {
                        lemma_cursor_lt_irreflexive(cursor_of(before[p as int]));
                    }
                    assert(false);
                } else {
                    assert(out@[k] == before[k - 1] && out@[l] == before[l - 1]);
                    assert(idx[k] == old_idx[k - 1] && idx[l] == old_idx[l - 1]);
                }
            }
            assert(pool@ =~= m.subrange(i + 1, n as int));
        }
        i = i + 1;
    }
    proof {
        lemma_history_permuted(out@, m, idx);
        lemma_history_same(m, spec_m);
        assert forall|k: int| 0 <= k < out@.len() implies same_checkpoint(#[trigger] out@[k], spec_m[idx[k]]) by {
            assert(out@[k] == m[idx[k]]);
            assert(0 <= idx[k] < m.len());
            assert(same_checkpoint(m[idx[k]], spec_m[idx[k]]));
        }
        assert(sorted_arrangement(out@, spec_m, idx));
    }
    let mut c: usize = 0;
    while c < out.len()
        invariant
            sorted_arrangement(out@, spec_m, idx),
            c <= out@.len(),
            history_ok(out@) == history_ok(spec_m),
            spec_m == merged_history(archived@, *live_cursor, sampled.checkpoints@, current),
            forall|k: int| 0 <= k < c ==> checkpoint_ok(#[trigger] out@[k]),
            forall|k: int, l: int| 0 <= k < l < c ==> !same_identity(cursor_of(#[trigger] out@[k]), cursor_of(#[trigger] out@[l])),
        decreases out@.len() - c,
    {
        let cursor = checkpoint_cursor(&out[c]);
        if blank_text(cursor.source.as_str()) || blank_text(cursor.commit.as_str()) || blank_text(cursor.committed_at.as_str()) {
            let msg = String::from_str("repository history has an incomplete source cursor");
            proof {
                assert(!checkpoint_ok(out@[c as int]));
                assert(!history_ok(out@));
                assert(history_problem(out@, c as int, msg@));
                assert(sorted_arrangement(out@, merged_history(archived@, *live_cursor, sampled.checkpoints@, current), idx));
            }
            return Err(msg);
        }
        if identity_repeated(&out, c) {
            let msg = String::from_str("repository history repeats a source commit");
            proof {
                let k = choose|k: int| 0 <= k < c && same_identity(cursor_of(#[trigger] out@[k]), cursor_of(out@[c as int]));
                assert(!history_ok(out@));
                assert(history_problem(out@, c as int, msg@));
                assert(sorted_arrangement(out@, merged_history(archived@, *live_cursor, sampled.checkpoints@, current), idx));
            }
            return Err(msg);
        }
        match &out[c] {
            GitAuthorityCheckpointProjection::Available { graph, .. } => {
                match graph.validate() {
                    Ok(()) => {},
                    Err(e) => {
                        proof {
                            assert(!checkpoint_ok(out@[c as int]));
                            assert(!history_ok(out@));
                            assert(history_problem(out@, c as int, e@));
                            assert(sorted_arrangement(out@, merged_history(archived@, *live_cursor, sampled.checkpoints@, current), idx));
                        }
                        return Err(e);
                    },
                }
            },
            GitAuthorityCheckpointProjection::Unavailable { .. } => {},
        }
        c = c + 1;
    }
    proof {
        assert(is_permutation(idx, m.len() as int));
        assert forall|k: int| 0 <= k < m.len() implies same_checkpoint(#[trigger] out@[k], spec_m[idx[k]]) by {
            assert(out@[k] == m[idx[k]]);
            assert(0 <= idx[k] < m.len());
            assert(same_checkpoint(m[idx[k]], spec_m[idx[k]]));
        }
    }
    Ok(GitAuthorityHistoryProjection { schema: String::from_str(GIT_HISTORY_SCHEMA), checkpoints: out })
}

/// Some checkpoint of the timeline `p` is `c`, graph and all.
pub open spec fn in_timeline(p: Seq<GitAuthorityCheckpointProjection>, c: GitAuthorityCheckpointProjection) -> bool {
    exists|j: int| 0 <= j < p.len() && #[trigger] same_checkpoint(p[j], c)
}

/// Law: the public timeline keeps every checkpoint as it was read. Every
/// archived checkpoint, every unavailable sampled one, and every available
/// sampled one not at the live cursor is in the timeline with its own graph;
/// the sampled checkpoint at the live cursor is there with the current graph
/// in place of the one read from Git. This holds of any arrangement the
/// projection may return (`public_history_projection` ensures one).
pub proof fn law_the_timeline_keeps_each_checkpoint_with_its_own_graph(
    archived: Seq<GitAuthorityCheckpointProjection>,
    live: GitAuthorityCursor,
    sampled: Seq<GitAuthorityCheckpointProjection>,
    current: RepositoryGraph,
    p: Seq<GitAuthorityCheckpointProjection>,
)
    requires
        exists|idx: Seq<int>| #[trigger] sorted_arrangement(p, merged_history(archived, live, sampled, current), idx),
    ensures
        forall|k: int| 0 <= k < archived.len() ==> in_timeline(p, #[trigger] archived[k]),
        forall|k: int|
            0 <= k < sampled.len() && !(sampled[k] is Available && same_cursor(cursor_of(sampled[k]), live)) ==> in_timeline(
                p,
                #[trigger] sampled[k],
            ),
        forall|k: int|
            0 <= k < sampled.len() && (#[trigger] sampled[k]) is Available && same_cursor(cursor_of(sampled[k]), live)
                ==> in_timeline(p, GitAuthorityCheckpointProjection::Available { cursor: live, graph: current }),
{
    let m = merged_history(archived, live, sampled, current);
    let idx = choose|idx: Seq<int>| #[trigger] sorted_arrangement(p, m, idx);
    let n = m.len() as int;
    assert forall|a: int| 0 <= a < n implies in_timeline(p, #[trigger] m[a]) by {
        assert(listed(idx, n, a));
        let j = choose|j: int| 0 <= j < n && #[trigger] idx[j] == a;
        assert(same_checkpoint(p[j], m[idx[j]]));
    }
    assert forall|k: int| 0 <= k < archived.len() implies in_timeline(p, #[trigger] archived[k]) by {
        assert(m[k] == archived[k]);
        assert(in_timeline(p, m[k]));
    }
    assert forall|k: int|
        0 <= k < sampled.len() && !(sampled[k] is Available && same_cursor(cursor_of(sampled[k]), live)) implies in_timeline(
        p,
        #[trigger] sampled[k],
    ) by {
        assert(m[archived.len() + k] == with_current(sampled[k], live, current));
        assert(in_timeline(p, m[archived.len() + k]));
    }
    assert forall|k: int|
        0 <= k < sampled.len() && (#[trigger] sampled[k]) is Available && same_cursor(cursor_of(sampled[k]), live) implies in_timeline(
        p,
        GitAuthorityCheckpointProjection::Available { cursor: live, graph: current },
    ) by {
        assert(m[archived.len() + k] == with_current(sampled[k], live, current));
        assert(in_timeline(p, m[archived.len() + k]));
    }
}

} // verus!
