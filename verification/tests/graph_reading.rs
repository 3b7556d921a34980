use mer3ly_site::graph_reading::{
    ActorScope, GraphEdge, GraphInput, GraphNodeInput, ReadingRequest, decorate_current, diff_graphs, focal_node,
    focus_and_neighbors, humanize_identifier, project_reading_request, validate,
};
use mer3ly_site::page_text::{
    activity_label, class_count, format_date, format_timestamp, receipt_host_label,
};
use mer3ly_site::repositories::{RepositoryClass, RepositoryRecord, RepositoryStatus};

fn node(id: &str, name: &str, class: &str, status: &str, pushed_at: &str) -> GraphNodeInput {
    GraphNodeInput {
        id: id.to_owned(),
        name: name.to_owned(),
        class: class.to_owned(),
        status: status.to_owned(),
        pushed_at: pushed_at.to_owned(),
        change: None,
        summary: None,
    }
}

fn edge(id: &str, source: &str, target: &str, kind: &str, provenance: &str) -> GraphEdge {
    GraphEdge {
        id: id.to_owned(),
        source: source.to_owned(),
        target: target.to_owned(),
        kind: kind.to_owned(),
        provenance: provenance.to_owned(),
        change: None,
    }
}

fn sample() -> GraphInput {
    GraphInput {
        schema: "mer3ly.repo-graph/v1".to_owned(),
        focus: None,
        nodes: vec![
            node("mere", "Mere", "platform", "active", "2026-07-30T05:44:23Z"),
            node("genet", "Genet", "platform", "active", "2026-07-30T05:44:24Z"),
            node("turnstone", "Turnstone", "product", "prototype", "2026-07-31T05:07:42Z"),
        ],
        edges: vec![
            edge("mere-depends-on-genet", "mere", "genet", "depends_on", "derived"),
            edge("turnstone-hosts-mere", "turnstone", "mere", "host_for", "curated"),
        ],
    }
}

#[test]
fn the_sample_graph_is_readable() {
    assert_eq!(validate(&sample()), Ok(()));
}

#[test]
fn an_edge_to_a_missing_node_is_refused() {
    let mut graph = sample();
    graph.edges[0].target = "missing".to_owned();
    let error = validate(&graph).expect_err("unknown endpoint should fail");
    assert_eq!(error, "repository graph edge mere-depends-on-genet has an unknown endpoint");
}

#[test]
fn each_graph_problem_has_its_message() {
    let mut wrong_schema = sample();
    wrong_schema.schema = "other".to_owned();
    assert_eq!(validate(&wrong_schema), Err("unsupported graph schema other".to_owned()));
    let mut empty = sample();
    empty.nodes.clear();
    assert_eq!(validate(&empty), Err("repository graph has no nodes".to_owned()));
    let mut incomplete = sample();
    incomplete.nodes[1].pushed_at = String::new();
    assert_eq!(validate(&incomplete), Err("repository graph contains an incomplete node".to_owned()));
    let mut duplicate = sample();
    duplicate.nodes[2].id = "mere".to_owned();
    assert_eq!(validate(&duplicate), Err("duplicate repository graph node mere".to_owned()));
    let mut stray_focus = sample();
    stray_focus.focus = Some("elsewhere".to_owned());
    assert_eq!(validate(&stray_focus), Err("repository graph focus elsewhere is not a graph node".to_owned()));
    let mut repeated_edge = sample();
    repeated_edge.edges[1].id = "mere-depends-on-genet".to_owned();
    assert_eq!(validate(&repeated_edge), Err("duplicate repository graph edge mere-depends-on-genet".to_owned()));
}

#[test]
fn the_focus_prefers_mere_then_the_first_node() {
    assert_eq!(focal_node(&sample()), "mere");
    let archived = GraphInput {
        schema: "mer3ly.repo-graph/v1".to_owned(),
        focus: None,
        nodes: vec![node("graphshell", "Graphshell", "product", "archived", "2026-02-21T13:32:51-05:00")],
        edges: vec![],
    };
    assert_eq!(focal_node(&archived), "graphshell");
    let mut focused = sample();
    focused.focus = Some("turnstone".to_owned());
    assert_eq!(focal_node(&focused), "turnstone");
}

#[test]
fn neighbours_keep_the_focus_and_the_edges_among_them() {
    let around_genet = focus_and_neighbors(&sample(), "genet");
    assert_eq!(around_genet.focus, Some("genet".to_owned()));
    let ids: Vec<&str> = around_genet.nodes.iter().map(|n| n.id.as_str()).collect();
    assert_eq!(ids, vec!["mere", "genet"]);
    assert_eq!(around_genet.edges.len(), 1);
    assert_eq!(around_genet.edges[0].id, "mere-depends-on-genet");
    let around_mere = focus_and_neighbors(&sample(), "mere");
    assert_eq!(around_mere.nodes.len(), 3);
    assert_eq!(around_mere.edges.len(), 2);
}

#[test]
fn a_diff_marks_added_updated_stable_and_removed() {
    let previous = sample();
    let mut current = sample();
    current.nodes.remove(2);
    current.edges.remove(1);
    current.nodes[1].status = "archived".to_owned();
    current.nodes.push(node("retinue", "Retinue", "platform", "active", "2026-08-01T00:00:00Z"));
    let diff = diff_graphs(Some(&previous), &current);
    let marks: Vec<(&str, &str)> = diff
        .nodes
        .iter()
        .map(|n| (n.id.as_str(), n.change.as_deref().unwrap_or("")))
        .collect();
    assert_eq!(
        marks,
        vec![("mere", "updated"), ("genet", "updated"), ("retinue", "added"), ("turnstone", "removed")]
    );
    assert_eq!(
        diff.nodes[3].summary.as_deref(),
        Some("Turnstone is absent from the selected public checkpoint.")
    );
    assert_eq!(diff.edges.len(), 2);
    assert_eq!(diff.edges[1].id, "turnstone-hosts-mere");
    assert_eq!(diff.edges[1].change.as_deref(), Some("removed"));
    assert_eq!(diff.focus.as_deref(), Some("mere"));
}

#[test]
fn a_revision_against_itself_is_stable() {
    let diff = diff_graphs(Some(&sample()), &sample());
    assert!(diff.nodes.iter().all(|n| n.change.as_deref() == Some("stable")));
    assert_eq!(diff.nodes.len(), 3);
    assert_eq!(diff.edges.len(), 2);
}

#[test]
fn without_a_previous_revision_everything_is_added() {
    let diff = diff_graphs(None, &sample());
    assert!(diff.nodes.iter().all(|n| n.change.as_deref() == Some("added")));
    assert_eq!(diff.nodes[0].summary.as_deref(), Some("Mere is a platform in the selected public checkpoint."));
}

#[test]
fn decoration_keeps_authored_marks_and_summaries() {
    let mut current = sample();
    current.nodes[0].change = Some("updated".to_owned());
    current.nodes[1].summary = Some("Genet renders.".to_owned());
    let decorated = decorate_current(current, Some(&sample()));
    assert_eq!(decorated.nodes[0].change.as_deref(), Some("updated"));
    assert_eq!(decorated.nodes[1].change.as_deref(), Some("stable"));
    assert_eq!(decorated.nodes[1].summary.as_deref(), Some("Genet renders."));
    assert_eq!(
        decorated.nodes[2].summary.as_deref(),
        Some("Turnstone is a product in the selected public checkpoint.")
    );
}

fn request(focus: Option<&str>) -> ReadingRequest {
    ReadingRequest {
        reading: "graph_reading:neighbors".to_owned(),
        current: sample(),
        previous: None,
        focus: focus.map(str::to_owned),
    }
}

#[test]
fn a_neighbourhood_reading_uses_the_requested_focus() {
    let reading = project_reading_request(request(Some("genet")), Some(ActorScope::FocusAndNeighbors)).expect("reading");
    assert_eq!(reading.focus.as_deref(), Some("genet"));
    assert_eq!(reading.nodes.len(), 2);
    let fallback = project_reading_request(request(Some("nowhere")), Some(ActorScope::FocusAndNeighbors)).expect("reading");
    assert_eq!(fallback.focus.as_deref(), Some("mere"));
    assert_eq!(fallback.nodes.len(), 3);
}

#[test]
fn a_reading_the_registry_lacks_is_refused() {
    let error = project_reading_request(request(None), None).expect_err("unknown reading");
    assert_eq!(error, "unknown graph reading graph_reading:neighbors");
}

#[test]
fn a_changes_reading_without_a_previous_revision_marks_everything_added() {
    let reading = project_reading_request(request(None), Some(ActorScope::AdjacentRevision)).expect("reading");
    assert!(reading.nodes.iter().all(|n| n.change.as_deref() == Some("added")));
    let all = project_reading_request(request(None), Some(ActorScope::All)).expect("reading");
    assert!(all.nodes.iter().all(|n| n.change.as_deref() == Some("added")));
}

#[test]
fn identifiers_read_as_words() {
    assert_eq!(humanize_identifier("maintained_fork-x"), "maintained fork x");
}

#[test]
fn page_labels_and_dates() {
    assert_eq!(receipt_host_label("macos-aarch64"), "Apple-silicon macOS");
    assert_eq!(receipt_host_label("plan9"), "unrecognized host");
    assert_eq!(activity_label("WatchEvent"), "received a star");
    assert_eq!(activity_label("GollumEvent"), "recorded public activity");
    assert_eq!(format_date("2026-09-05T12:00:00Z"), "2026-09-05");
    assert_eq!(format_date("short"), "short");
    assert_eq!(format_date("ééééé1"), "ééééé");
    assert_eq!(format_date("éééé1é"), "éééé1é");
    assert_eq!(format_timestamp("2026-09-05T12:00:00Z"), "2026-09-05 12:00 UTC");
}

#[test]
fn class_counts_skip_private_repositories() {
    let record = |id: &str, class: RepositoryClass, public: bool| RepositoryRecord {
        id: id.to_owned(),
        github_slug: format!("merely-made/{id}"),
        name: id.to_owned(),
        summary: String::new(),
        class,
        status: RepositoryStatus::Active,
        license: "MIT".to_owned(),
        homepage: String::new(),
        public,
    };
    let repositories = vec![
        record("mere", RepositoryClass::Platform, true),
        record("genet", RepositoryClass::Platform, false),
        record("turnstone", RepositoryClass::Product, true),
    ];
    assert_eq!(class_count(&repositories, RepositoryClass::Platform), 1);
    assert_eq!(class_count(&repositories, RepositoryClass::Product), 1);
    assert_eq!(class_count(&repositories, RepositoryClass::Tool), 0);
}
