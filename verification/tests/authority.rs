use mer3ly_site::repositories::{
    Authority, MigrationBatch, MigrationClass, MigrationDisposition, MigrationManifest, MigrationRecord,
    PublicMetadataCache, PublicOrganizationEvent, PublicRepositoryMetadata, RelationKind, RelationManifest,
    RelationProvenance, RelationRecord, RepositoryClass, RepositoryManifest, RepositoryRecord, RepositoryStatus,
    UnresolvedProduct, Visibility, reconcile_live_github_repositories, repository_fallback_from_github,
};
use mer3ly_site::repository_history::{
    GitAuthorityCheckpointProjection, GitAuthorityCursor, GitAuthorityHistory, HistoricalAuthorityCheckpoint,
    HistoricalAuthorityManifest, RepositoryGraph, RepositoryGraphEdge, RepositoryGraphNode, GIT_HISTORY_SCHEMA,
    git_repository_source, public_history_projection,
};

fn repository(id: &str, class: RepositoryClass) -> RepositoryRecord {
    RepositoryRecord {
        id: id.to_owned(),
        github_slug: format!("merely-made/{id}"),
        name: id.to_owned(),
        summary: format!("The {id} repository."),
        class,
        status: RepositoryStatus::Active,
        license: "MIT".to_owned(),
        homepage: format!("https://github.com/merely-made/{id}"),
        public: true,
    }
}

fn relation(id: &str, source: &str, target: &str) -> RelationRecord {
    RelationRecord {
        id: id.to_owned(),
        source: source.to_owned(),
        target: target.to_owned(),
        kind: RelationKind::DependsOn,
        provenance: RelationProvenance::Curated,
        evidence: "Cargo manifest dependency.".to_owned(),
        verified_on: "2026-09-05".to_owned(),
    }
}

fn migration(id: &str, locator: Option<&str>) -> MigrationRecord {
    MigrationRecord {
        id: id.to_owned(),
        current_slug: format!("merely-made/{id}"),
        target_slug: Some(format!("merely-made/{id}")),
        classification: MigrationClass::Platform,
        batch: MigrationBatch::Platform,
        disposition: MigrationDisposition::AlreadyInOrg,
        visibility: Visibility::Public,
        default_branch: "main".to_owned(),
        head: "bd71ee1886a4dea397854aa3084341b44c76b55f".to_owned(),
        license_status: "MIT".to_owned(),
        provenance_status: "reviewed".to_owned(),
        sensitive_information_status: "reviewed".to_owned(),
        public_scope: None,
        publication_gate_status: None,
        history_remediation: None,
        pages_status: "none".to_owned(),
        packages_status: "none".to_owned(),
        actions_workflows: 1,
        old_owner_files: Some(0),
        old_owner_manifests: Some(0),
        local_locator: locator.map(str::to_owned),
        source_aliases: vec![format!("mark-ik/{id}")],
    }
}

/// A small authority written out in the test: the site's committed authority
/// files are not in this tree, so the tests named after them check this one.
fn authority() -> Authority {
    Authority {
        repositories: RepositoryManifest {
            repository: vec![
                repository("mere", RepositoryClass::Foundation),
                repository("graphshell", RepositoryClass::Product),
                repository("retinue", RepositoryClass::Platform),
            ],
        },
        relations: RelationManifest {
            relation: vec![
                relation("graphshell-uses-mere", "graphshell", "mere"),
                relation("retinue-uses-mere", "retinue", "mere"),
            ],
        },
        migration: MigrationManifest {
            inventory_receipt: "docs/receipts/org-transfer/2026-09-05_p6_platform_topology.md".to_owned(),
            publication_gate_receipt: None,
            fork_review_receipt: None,
            migration: vec![
                migration("mere", Some("mere")),
                migration("graphshell", Some("apps/graphshell")),
                migration("retinue", None),
            ],
            unresolved_product: vec![UnresolvedProduct {
                name: "Radio enclosure".to_owned(),
                state: "open".to_owned(),
                evidence: "No checked print yet.".to_owned(),
            }],
        },
    }
}

fn live(id: &str) -> PublicRepositoryMetadata {
    PublicRepositoryMetadata {
        id: id.to_owned(),
        github_slug: format!("merely-made/{id}"),
        name: id.to_owned(),
        description: format!("The {id} repository."),
        homepage: None,
        license: Some("MIT".to_owned()),
        updated_at: "2026-09-01T00:00:00Z".to_owned(),
        pushed_at: "2026-09-01T00:00:00Z".to_owned(),
        primary_language: Some("Rust".to_owned()),
        stargazer_count: 1,
        archived: false,
        fork: false,
        topics: vec!["rust".to_owned()],
    }
}

/// The public metadata cache that goes with `authority()`, in place of the
/// committed cache file, which is not in this tree.
fn metadata() -> PublicMetadataCache {
    PublicMetadataCache {
        schema: "mer3ly.github-organization/v2".to_owned(),
        organization: "merely-made".to_owned(),
        generated_at_utc: "2026-09-05T12:00:00Z".to_owned(),
        repository: vec![live("mere"), live("graphshell"), live("retinue")],
        event: vec![PublicOrganizationEvent {
            id: "event-1".to_owned(),
            kind: "PushEvent".to_owned(),
            repository: "merely-made/mere".to_owned(),
            created_at: "2026-09-04T10:00:00Z".to_owned(),
        }],
    }
}

// Checks the written-out authority of `authority()`; see there.
#[test]
fn committed_authority_is_valid() {
    let authority = authority();
    if let Err(errors) = authority.validate() {
        panic!("authority validation failed:\n{}", errors.join("\n"));
    }
}

#[test]
fn inventory_targets_never_contain_absolute_paths() {
    let authority = authority();
    for target in authority.inventory_targets() {
        if let Some(locator) = target.local_locator {
            assert!(!locator.contains(':'));
            assert!(!locator.contains('\\'));
            assert!(!locator.starts_with('/'));
        }
    }
}

#[test]
fn live_github_roster_adds_fallbacks_and_removes_stale_relations() {
    let authority = authority();
    let mut metadata = metadata();
    metadata.repository.retain(|repository| repository.id != "mere");
    metadata.repository.push(PublicRepositoryMetadata {
        id: "new-public-tool".to_owned(),
        github_slug: "merely-made/new-public-tool".to_owned(),
        name: "new-public-tool".to_owned(),
        description: "A newly discovered public tool.".to_owned(),
        homepage: None,
        license: Some("mit".to_owned()),
        updated_at: "2026-08-11T00:00:00Z".to_owned(),
        pushed_at: "2026-08-11T00:00:00Z".to_owned(),
        primary_language: Some("Rust".to_owned()),
        stargazer_count: 0,
        archived: false,
        fork: false,
        topics: Vec::new(),
    });

    let reconciled = authority.with_live_github_repositories(&metadata);
    let ids = reconciled
        .repositories
        .repository
        .iter()
        .map(|repository| repository.id.as_str())
        .collect::<Vec<_>>();
    assert!(!ids.contains(&"mere"));
    assert!(ids.contains(&"new-public-tool"));
    let discovered = reconciled
        .repositories
        .repository
        .iter()
        .find(|repository| repository.id == "new-public-tool")
        .expect("new GitHub repository gets a fallback profile");
    assert_eq!(discovered.class, RepositoryClass::Tool);
    assert_eq!(discovered.summary, "A newly discovered public tool.");
    assert!(reconciled.relations.relation.iter().all(|relation| {
        ids.contains(&relation.source.as_str()) && ids.contains(&relation.target.as_str())
    }));
}

// Checks the written-out cache of `metadata()`; see there.
#[test]
fn the_committed_metadata_agrees_with_the_authority() {
    let authority = authority();
    assert!(metadata().validate(&authority).is_ok());
    let mut stale = metadata();
    stale.schema = "mer3ly.github-organization/v1".to_owned();
    let errors = stale.validate(&authority).expect_err("old schema is refused");
    assert!(errors.iter().any(|error| error.contains("unexpected public metadata schema")));
}

#[test]
fn authority_errors_are_reported_sorted() {
    let mut authority = authority();
    authority.repositories.repository[0].homepage = "http://example.com".to_owned();
    authority.relations.relation[0].verified_on = "yesterday".to_owned();
    authority.migration.migration[1].local_locator = Some("C:\\work".to_owned());
    let errors = authority.validate().expect_err("three violations");
    assert!(errors.iter().any(|e| e == "repository mere homepage must use https: http://example.com"));
    assert!(errors.iter().any(|e| e == "relation graphshell-uses-mere verified_on is not YYYY-MM-DD: yesterday"));
    assert!(errors
        .iter()
        .any(|e| e == "migration graphshell local_locator must be workspace-relative and slash-separated"));
    let mut sorted = errors.clone();
    sorted.sort();
    assert_eq!(errors, sorted);
}

#[test]
fn a_schema_other_than_the_live_roster_leaves_the_authority_alone() {
    let authority = authority();
    let mut metadata = metadata();
    metadata.schema = "mer3ly.github-organization/v1".to_owned();
    metadata.repository.clear();
    let (repositories, relations) =
        reconcile_live_github_repositories(&authority.repositories, &authority.relations, &metadata);
    assert_eq!(repositories.repository.len(), 3);
    assert_eq!(relations.relation.len(), 2);
}

#[test]
fn a_fallback_profile_fills_in_what_github_left_out() {
    let mut fork = live("old-fork");
    fork.description = String::new();
    fork.license = None;
    fork.fork = true;
    fork.archived = true;
    let profile = repository_fallback_from_github(&fork);
    assert_eq!(profile.summary, "A public repository in the Merely GitHub organization.");
    assert_eq!(profile.class, RepositoryClass::MaintainedFork);
    assert_eq!(profile.status, RepositoryStatus::Archived);
    assert_eq!(profile.license, "NOASSERTION");
    assert_eq!(profile.homepage, "https://github.com/merely-made/old-fork");
    assert!(profile.public);
}

fn cursor(source: &str, commit: &str, committed_at: &str) -> GitAuthorityCursor {
    GitAuthorityCursor {
        source: source.to_owned(),
        commit: commit.to_owned(),
        committed_at: committed_at.to_owned(),
    }
}

fn history() -> GitAuthorityHistory {
    GitAuthorityHistory::discover(
        "https://github.com/merely-made/mer3ly.net.git\n",
        "c0ffee01\t2026-07-01T09:00:00+00:00\nc0ffee02\t2026-08-01T09:00:00+00:00\nc0ffee03\t2026-09-01T09:00:00+00:00\n",
    )
    .expect("fixture history")
}

#[test]
fn a_cursor_from_another_history_is_rejected_before_git_is_invoked() {
    let history = history();
    let authority = authority();
    let foreign = cursor("other/repository", "not-a-commit", "1970-01-01T00:00:00Z");
    assert!(history.check_cursor(&foreign).is_err());
    assert!(history
        .snapshot_at(&foreign, &authority.repositories, &authority.relations, &metadata())
        .is_err());
}

#[test]
fn cursor_ticks_include_earliest_and_live_without_needing_timestamps() {
    let history = GitAuthorityHistory::from_checkpoints(
        (0..5)
            .map(|index| GitAuthorityCursor {
                source: "fixture/history".to_owned(),
                commit: format!("commit-{index}"),
                committed_at: format!("not-used-for-order-{index}"),
            })
            .collect(),
    )
    .expect("five checkpoints");

    assert!(history.cursor_ticks(0).is_empty());
    assert_eq!(history.cursor_ticks(1), vec![history.live_cursor()]);
    assert_eq!(history.cursor_ticks(3)[0], history.earliest_cursor());
    assert_eq!(history.cursor_ticks(3)[1].commit, "commit-2");
    assert_eq!(history.cursor_ticks(3)[2], history.live_cursor());
    assert_eq!(history.cursor_ticks(9).len(), 5);
}

#[test]
fn sampled_projection_marks_unavailable_authority_without_erasing_it() {
    let history = history();
    let authority = authority();
    let reads = history
        .cursor_ticks(2)
        .into_iter()
        .map(|tick| {
            if tick == history.live_cursor() {
                history.snapshot_at(tick, &authority.repositories, &authority.relations, &metadata())
            } else {
                Err("could not read Git authority checkpoint file".to_owned())
            }
        })
        .collect::<Vec<_>>();
    let projection = history.sampled_projection(2, reads);

    assert_eq!(projection.schema, GIT_HISTORY_SCHEMA);
    assert_eq!(projection.checkpoints.len(), 2);
    assert!(matches!(
        projection.checkpoints.first(),
        Some(GitAuthorityCheckpointProjection::Unavailable { .. })
    ));
    assert!(matches!(
        projection.checkpoints.last(),
        Some(GitAuthorityCheckpointProjection::Available { cursor, .. })
            if cursor == history.live_cursor()
    ));
}

fn node(id: &str) -> RepositoryGraphNode {
    RepositoryGraphNode {
        id: id.to_owned(),
        name: id.to_owned(),
        class: RepositoryClass::Product,
        status: RepositoryStatus::Active,
        pushed_at: "2025-01-01T00:00:00Z".to_owned(),
    }
}

fn edge(id: &str, source: &str, target: &str) -> RepositoryGraphEdge {
    RepositoryGraphEdge {
        id: id.to_owned(),
        source: source.to_owned(),
        target: target.to_owned(),
        kind: RelationKind::DependsOn,
        provenance: RelationProvenance::Curated,
    }
}

fn archived_checkpoint(source: &str, commit: &str, committed_at: &str, ids: &[&str]) -> HistoricalAuthorityCheckpoint {
    let edges = if ids.len() >= 2 { vec![edge(&format!("{commit}-edge"), ids[1], ids[0])] } else { Vec::new() };
    HistoricalAuthorityCheckpoint {
        source: source.to_owned(),
        commit: commit.to_owned(),
        committed_at: committed_at.to_owned(),
        nodes: ids.iter().map(|id| node(id)).collect(),
        edges,
    }
}

#[test]
fn public_projection_keeps_archived_lineage_and_fresh_live_authority() {
    let archive = HistoricalAuthorityManifest {
        schema: "mer3ly.repository-history-source/v1".to_owned(),
        checkpoint: vec![
            archived_checkpoint("merely-made/mere", "a1", "2025-01-01T00:00:00Z", &["mere", "graphshell"]),
            archived_checkpoint("merely-made/mere", "a2", "2025-03-01T00:00:00Z", &["mere", "graphshell", "webrender-wgpu"]),
            archived_checkpoint("merely-made/graphshell", "a3", "2025-05-01T00:00:00Z", &["graphshell", "webrender-wgpu"]),
            archived_checkpoint("merely-made/mer3ly.net", "a4", "2025-07-01T00:00:00Z", &["mere", "webrender-wgpu"]),
            archived_checkpoint("merely-made/mer3ly.net", "a5", "2025-09-01T00:00:00Z", &["mere", "retinue"]),
        ],
    };
    archive.validate_header().expect("archive header");
    let archived = archive.project().expect("archived graphs are valid");

    let authority = authority();
    let data = metadata();
    let current = RepositoryGraph::from_parts(&authority.repositories, &authority.relations, &data)
        .expect("current authority projects a public graph");
    let history = history();
    let reads = history
        .cursor_ticks(24)
        .into_iter()
        .map(|tick| history.snapshot_at(tick, &authority.repositories, &authority.relations, &data))
        .collect::<Vec<_>>();
    let sampled = history.sampled_projection(24, reads);
    let live = history.live_cursor().clone();
    let projection =
        public_history_projection(archived, &live, sampled, current.clone()).expect("public history authority projects");
    let available = projection
        .checkpoints
        .iter()
        .filter_map(|checkpoint| match checkpoint {
            GitAuthorityCheckpointProjection::Available { cursor, graph } => Some((cursor, graph)),
            GitAuthorityCheckpointProjection::Unavailable { .. } => None,
        })
        .collect::<Vec<_>>();

    assert!(available.len() >= 6, "timeline retains public source eras");
    assert_eq!(available[0].0.source, "merely-made/mere");
    assert!(available[0].1.nodes.iter().any(|node| node.id == "graphshell"));
    assert!(available
        .iter()
        .any(|(_, graph)| graph.nodes.iter().any(|node| node.id == "webrender-wgpu")));
    let graphshell_position = available
        .iter()
        .position(|(_, graph)| graph.nodes.iter().any(|node| node.id == "graphshell"))
        .expect("archived Graphshell source checkpoint");
    assert!(available
        .iter()
        .skip(graphshell_position + 1)
        .any(|(_, graph)| !graph.nodes.iter().any(|node| node.id == "graphshell")));
    assert_eq!(available.last().expect("live checkpoint").1, &current);
}

#[test]
fn a_repeated_source_commit_is_refused() {
    let archive = HistoricalAuthorityManifest {
        schema: "mer3ly.repository-history-source/v1".to_owned(),
        checkpoint: vec![
            archived_checkpoint("merely-made/mere", "a1", "2025-01-01T00:00:00Z", &["mere"]),
            archived_checkpoint("merely-made/mere", "a1", "2025-02-01T00:00:00Z", &["mere"]),
        ],
    };
    let archived = archive.project().expect("valid graphs");
    let history = history();
    let live = history.live_cursor().clone();
    let sampled = history.sampled_projection(0, Vec::new());
    let error = public_history_projection(archived, &live, sampled, node_graph()).expect_err("repeat is refused");
    assert_eq!(error, "repository history repeats a source commit");
}

fn node_graph() -> RepositoryGraph {
    RepositoryGraph { schema: "mer3ly.repo-graph/v1".to_owned(), nodes: vec![node("mere")], edges: Vec::new() }
}

#[test]
fn an_incomplete_cursor_is_refused() {
    let archive = HistoricalAuthorityManifest {
        schema: "mer3ly.repository-history-source/v1".to_owned(),
        checkpoint: vec![archived_checkpoint("", "a1", "2025-01-01T00:00:00Z", &["mere"])],
    };
    let archived = archive.project().expect("valid graphs");
    let history = history();
    let live = history.live_cursor().clone();
    let error = public_history_projection(archived, &live, history.sampled_projection(0, Vec::new()), node_graph())
        .expect_err("empty source is refused");
    assert_eq!(error, "repository history has an incomplete source cursor");
}

#[test]
fn an_archive_without_checkpoints_is_refused() {
    let archive = HistoricalAuthorityManifest { schema: "mer3ly.repository-history-source/v1".to_owned(), checkpoint: Vec::new() };
    assert_eq!(
        archive.validate_header().expect_err("empty archive"),
        "historical repository authority has an invalid schema or no checkpoints"
    );
}

#[test]
fn an_archived_graph_with_a_dangling_edge_is_refused() {
    let mut checkpoint = archived_checkpoint("merely-made/mere", "a1", "2025-01-01T00:00:00Z", &["mere"]);
    checkpoint.edges.push(edge("dangling", "mere", "nowhere"));
    let archive = HistoricalAuthorityManifest { schema: "mer3ly.repository-history-source/v1".to_owned(), checkpoint: vec![checkpoint] };
    assert_eq!(archive.project().expect_err("dangling edge"), "repository graph has invalid relations");
}

#[test]
fn git_origins_name_their_public_source() {
    assert_eq!(git_repository_source("  https://github.com/merely-made/mere.git.git\n").unwrap(), "merely-made/mere");
    assert_eq!(git_repository_source("git@github.com:merely-made/retinue.git").unwrap(), "merely-made/retinue");
    assert_eq!(git_repository_source("ssh://example.org/x").unwrap(), "ssh://example.org/x");
    assert_eq!(git_repository_source(" .git ").unwrap_err(), "Git authority origin is empty");
}

#[test]
fn git_log_lines_become_checkpoints() {
    let history = history();
    assert_eq!(history.checkpoints().len(), 3);
    assert_eq!(history.earliest_cursor().commit, "c0ffee01");
    assert_eq!(history.live_cursor().committed_at, "2026-09-01T09:00:00+00:00");
    assert_eq!(history.live_cursor().source, "merely-made/mer3ly.net");
    assert_eq!(
        GitAuthorityHistory::discover("https://github.com/merely-made/x", "abc").unwrap_err(),
        "Git checkpoint is missing its timestamp"
    );
    assert_eq!(
        GitAuthorityHistory::discover("https://github.com/merely-made/x", "\t2026").unwrap_err(),
        "Git checkpoint is incomplete"
    );
    assert_eq!(
        GitAuthorityHistory::discover("https://github.com/merely-made/x", "").unwrap_err(),
        "Git authority history has no committed checkpoints"
    );
}

#[test]
fn the_current_graph_carries_push_times_and_relations() {
    let authority = authority();
    let graph = RepositoryGraph::from_parts(&authority.repositories, &authority.relations, &metadata()).expect("graph");
    assert_eq!(graph.schema, "mer3ly.repo-graph/v1");
    assert_eq!(graph.nodes.len(), 3);
    assert_eq!(graph.nodes[0].pushed_at, "2026-09-01T00:00:00Z");
    assert_eq!(graph.edges.len(), 2);
    assert!(graph.validate().is_ok());
    let mut missing = metadata();
    missing.repository.push(live("mere"));
    assert_eq!(
        RepositoryGraph::from_parts(&authority.repositories, &authority.relations, &missing).unwrap_err(),
        "duplicate public metadata record mere"
    );
}

#[test]
fn authority_errors_are_exactly_the_broken_rules() {
    let mut authority = authority();
    authority.repositories.repository[0].homepage = "http://example.com".to_owned();
    authority.relations.relation[0].verified_on = "yesterday".to_owned();
    let errors = authority.validate().expect_err("two violations");
    assert_eq!(
        errors,
        vec![
            "relation graphshell-uses-mere verified_on is not YYYY-MM-DD: yesterday".to_owned(),
            "repository mere homepage must use https: http://example.com".to_owned(),
        ]
    );
}

#[test]
fn a_malformed_timestamp_names_its_leading_date() {
    let authority = authority();
    let mut cache = metadata();
    cache.repository[0].updated_at = "20x6-09-01T00:00:00Z".to_owned();
    cache.repository[1].pushed_at = "2026".to_owned();
    let errors = cache.validate(&authority).expect_err("two bad timestamps");
    assert_eq!(
        errors,
        vec![
            "public metadata graphshell pushed_at is not a UTC timestamp: 2026".to_owned(),
            "public metadata mere updated_at is not YYYY-MM-DD: 20x6-09-01".to_owned(),
        ]
    );
}

#[test]
fn sampled_checkpoints_follow_the_ticks_in_order() {
    let history = GitAuthorityHistory::from_checkpoints(
        (0..5).map(|index| cursor("fixture/history", &format!("commit-{index}"), &format!("2026-0{}-01", index + 1))).collect(),
    )
    .expect("fixture history");
    let ticks: Vec<GitAuthorityCursor> = history.cursor_ticks(3).into_iter().cloned().collect();
    let reads = ticks.iter().map(|_| Err("authority files predate the graph".to_owned())).collect();
    let projection = history.sampled_projection(3, reads);
    let cursors: Vec<&GitAuthorityCursor> = projection
        .checkpoints
        .iter()
        .map(|checkpoint| match checkpoint {
            GitAuthorityCheckpointProjection::Available { cursor, .. } => cursor,
            GitAuthorityCheckpointProjection::Unavailable { cursor, .. } => cursor,
        })
        .collect();
    assert_eq!(cursors, ticks.iter().collect::<Vec<_>>());
    assert_eq!(cursors[1].commit, "commit-2");
    assert!(projection
        .checkpoints
        .iter()
        .all(|checkpoint| matches!(checkpoint, GitAuthorityCheckpointProjection::Unavailable { reason, .. } if reason == "authority files predate the graph")));
}

fn unavailable(source: &str, commit: &str, committed_at: &str) -> GitAuthorityCheckpointProjection {
    GitAuthorityCheckpointProjection::Unavailable {
        cursor: cursor(source, commit, committed_at),
        reason: "archived without a graph".to_owned(),
    }
}

#[test]
fn the_earliest_refused_checkpoint_decides_the_error() {
    let history = history();
    let live = history.live_cursor().clone();
    let repeat_first = vec![
        unavailable("", "z1", "2025-06-01T00:00:00Z"),
        unavailable("merely-made/mere", "a1", "2025-01-01T00:00:00Z"),
        unavailable("merely-made/mere", "a1", "2025-02-01T00:00:00Z"),
    ];
    assert_eq!(
        public_history_projection(repeat_first, &live, history.sampled_projection(0, Vec::new()), node_graph())
            .expect_err("refused"),
        "repository history repeats a source commit"
    );
    let incomplete_first = vec![
        unavailable("", "z1", "2024-06-01T00:00:00Z"),
        unavailable("merely-made/mere", "a1", "2025-01-01T00:00:00Z"),
        unavailable("merely-made/mere", "a1", "2025-02-01T00:00:00Z"),
    ];
    assert_eq!(
        public_history_projection(incomplete_first, &live, history.sampled_projection(0, Vec::new()), node_graph())
            .expect_err("refused"),
        "repository history has an incomplete source cursor"
    );
}

#[test]
fn an_invalid_archived_graph_reports_its_own_error() {
    let history = history();
    let live = history.live_cursor().clone();
    let mut graph = node_graph();
    graph.schema = "mer3ly.repo-graph/v0".to_owned();
    let archived = vec![
        GitAuthorityCheckpointProjection::Available {
            cursor: cursor("merely-made/mere", "a1", "2025-01-01T00:00:00Z"),
            graph,
        },
        unavailable("", "z1", "2025-06-01T00:00:00Z"),
    ];
    assert_eq!(
        public_history_projection(archived, &live, history.sampled_projection(0, Vec::new()), node_graph())
            .expect_err("refused"),
        "repository graph schema mismatch"
    );
}

#[test]
fn checkpoints_that_sort_as_equals_keep_their_order() {
    let history = history();
    let live = history.live_cursor().clone();
    let broken = || {
        let mut graph = node_graph();
        graph.schema = "mer3ly.repo-graph/v0".to_owned();
        GitAuthorityCheckpointProjection::Available { cursor: cursor("merely-made/mere", "a1", "2025-01-01T00:00:00Z"), graph }
    };
    let twin = || unavailable("merely-made/mere", "a1", "2025-01-01T00:00:00Z");
    assert_eq!(
        public_history_projection(vec![broken(), twin()], &live, history.sampled_projection(0, Vec::new()), node_graph())
            .expect_err("refused"),
        "repository graph schema mismatch"
    );
    assert_eq!(
        public_history_projection(vec![twin(), broken()], &live, history.sampled_projection(0, Vec::new()), node_graph())
            .expect_err("refused"),
        "repository history repeats a source commit"
    );
}
