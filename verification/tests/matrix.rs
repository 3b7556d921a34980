use sha2::{Digest, Sha256};
use mer3ly_site::matrix::{
    MatrixAxisHeading, MatrixAxisIdentity, matrix_generation, MatrixAxisInput, MatrixCellKind, MatrixEdge, MatrixInstanceDelta, MatrixSource, check_carried_sections,
    check_instance_deltas, check_matrix_axes, check_matrix_shelfmark_projection, check_spatial_arrangement, matrix_cells,
};

fn axis(dataset: &str, reading: &str, focus: Option<&str>, sources: usize) -> MatrixAxisHeading {
    MatrixAxisHeading {
        dataset: dataset.to_owned(),
        record: "authority/repositories.toml".to_owned(),
        reading: reading.to_owned(),
        focus: focus.map(str::to_owned),
        sources,
    }
}

#[test]
fn matrix_axes_are_checked_before_anything_is_drawn() {
    assert!(check_matrix_axes(&axis("mer3ly", "neighbors", Some("mere"), 2), &axis("mer3ly", "graph", None, 3)).is_ok());
    assert!(check_matrix_axes(&axis("mer3ly", "graph", Some("mere"), 2), &axis("mer3ly", "graph", None, 3)).is_ok());
    assert_eq!(
        check_matrix_axes(&axis("  ", "graph", None, 0), &axis("mer3ly", "graph", None, 0)).unwrap_err(),
        "a Matrix axis needs a dataset and authority record"
    );
    assert_eq!(
        check_matrix_axes(&axis("mer3ly", "graph", None, 0), &axis("mer3ly", "graph", None, 0)).unwrap_err(),
        "Matrix axes must be independently produced readings"
    );
    assert_eq!(
        check_matrix_axes(&axis("mer3ly", "graph", None, 2), &axis("mer3ly", "neighbors", None, 0)).unwrap_err(),
        "Matrix axes must each produce at least one source"
    );
}

fn source(id: &str, name: &str) -> MatrixSource {
    MatrixSource { id: id.to_owned(), name: name.to_owned() }
}

fn relation(id: &str, from: &str, to: &str) -> MatrixEdge {
    MatrixEdge { id: id.to_owned(), source: from.to_owned(), target: to.to_owned(), provenance: "curated".to_owned() }
}

#[test]
fn matrix_cells_name_relations_identities_and_absences() {
    let rows = MatrixAxisInput {
        dataset: "mer3ly".to_owned(),
        sources: vec![source("mere", "Mere"), source("graphshell", "Graphshell")],
        edges: vec![relation("r1", "mere", "graphshell"), relation("r2", "mere", "graphshell")],
    };
    let columns = MatrixAxisInput {
        dataset: "mer3ly".to_owned(),
        sources: vec![source("graphshell", "Graphshell"), source("retinue", "Retinue"), source("mere", "Mere")],
        edges: vec![relation("r2", "mere", "graphshell"), relation("r0", "mere", "graphshell")],
    };
    let cells = matrix_cells(&rows, &columns);
    assert_eq!(cells.len(), 6);

    let relation_cell = &cells[0];
    assert_eq!((relation_cell.row.as_str(), relation_cell.column.as_str()), ("mere", "graphshell"));
    assert_eq!(relation_cell.kind, MatrixCellKind::Relation);
    assert_eq!(relation_cell.value, "relation");
    assert_eq!(relation_cell.description, "3 relations from Mere to Graphshell");
    assert_eq!(relation_cell.source_adapter, "mer3ly.repository-relation/v1");
    assert_eq!(relation_cell.source_id, "r0+r1+r2");
    assert_eq!(relation_cell.contributors.len(), 3);

    let absence = &cells[1];
    assert_eq!(absence.kind, MatrixCellKind::Absence);
    assert_eq!(absence.value, "no relation");
    assert_eq!(absence.description, "No direct relation from Mere to Retinue");
    assert_eq!(absence.source_id, "absence:mere:retinue");
    assert_eq!(absence.contributors.len(), 2);
    assert_eq!(absence.contributors[0].provenance, "axis input");

    let identity = &cells[2];
    assert_eq!(identity.kind, MatrixCellKind::IdentityMatch);
    assert_eq!(identity.value, "same source");
    assert_eq!(identity.description, "Mere is present in both readings");
    assert_eq!(identity.source_id, "identity:mere");
    assert_eq!(identity.source_adapter, "mer3ly.matrix-derivation/v1");
    assert_eq!(identity.contributors.len(), 1);

    assert_eq!(cells[3].kind, MatrixCellKind::IdentityMatch);
    assert_eq!((cells[3].row.as_str(), cells[3].column.as_str()), ("graphshell", "graphshell"));
}

#[test]
fn one_relation_is_not_counted_as_plural() {
    let rows = MatrixAxisInput {
        dataset: "rows".to_owned(),
        sources: vec![source("a", "A")],
        edges: vec![relation("only", "a", "b")],
    };
    let columns = MatrixAxisInput { dataset: "columns".to_owned(), sources: vec![source("b", "B")], edges: Vec::new() };
    let cells = matrix_cells(&rows, &columns);
    assert_eq!(cells[0].description, "1 relation from A to B");
    assert_eq!(cells[0].source_id, "only");
}

#[test]
fn a_carried_section_may_not_shadow_an_owned_one() {
    let carried = vec!["other.reader".to_owned(), "props".to_owned()];
    assert!(check_carried_sections(&carried).is_ok());
    let shadowing = vec!["other.reader".to_owned(), "placement".to_owned(), "selection".to_owned()];
    assert_eq!(
        check_carried_sections(&shadowing).unwrap_err(),
        "carried section placement shadows a target-owned delta"
    );
}

#[test]
fn a_matrix_shelfmark_names_the_matrix_and_an_offered_arrangement() {
    assert!(check_matrix_shelfmark_projection("matrix").is_ok());
    assert_eq!(check_matrix_shelfmark_projection("deck").unwrap_err(), "shelfmark projection deck is not Matrix");
    assert!(check_spatial_arrangement(Some("graph_layout:grid")).is_ok());
    assert_eq!(
        check_spatial_arrangement(Some("graph_layout:unknown")).unwrap_err(),
        "spatial Shelfmark input has no offered arrangement"
    );
    assert!(check_spatial_arrangement(None).is_err());
}

#[test]
fn instance_deltas_must_resolve_to_matrix_sources() {
    let ids = vec!["mere".to_owned(), "graphshell".to_owned()];
    let delta = |view: &str, facet: &str, source: &str| MatrixInstanceDelta {
        view: view.to_owned(),
        facet: facet.to_owned(),
        source_id: source.to_owned(),
    };
    assert!(check_instance_deltas(&vec![delta("matrix", "cell", "mere")], &ids).is_ok());
    for bad in [delta(" ", "cell", "mere"), delta("matrix", "", "mere"), delta("matrix", "cell", "retinue")] {
        assert_eq!(
            check_instance_deltas(&vec![bad], &ids).unwrap_err(),
            "instance-scoped authored state does not resolve"
        );
    }
}

#[test]
fn the_matrix_generation_is_the_digest_prefix_of_its_identity() {
    let rows = MatrixAxisIdentity {
        dataset: "mer3ly".to_owned(),
        authority_sha256: "ab12".to_owned(),
        reading: "neighbors".to_owned(),
        focus: Some("mere".to_owned()),
    };
    let columns = MatrixAxisIdentity {
        dataset: "mer3ly".to_owned(),
        authority_sha256: "ab12".to_owned(),
        reading: "graph".to_owned(),
        focus: None,
    };
    let material = serde_json::to_vec(&("mer3ly", "ab12", "neighbors", Some("mere"), "mer3ly", "ab12", "graph", None::<&str>))
        .expect("strings serialize");
    assert_eq!(
        String::from_utf8(material.clone()).expect("utf-8"),
        "[\"mer3ly\",\"ab12\",\"neighbors\",\"mere\",\"mer3ly\",\"ab12\",\"graph\",null]"
    );
    let digest = Sha256::digest(&material);
    let expected = u64::from_be_bytes(digest[..8].try_into().expect("eight bytes"));
    assert_eq!(matrix_generation(&rows, &columns), expected);
    let mut other = columns;
    other.focus = Some("graphshell".to_owned());
    assert_ne!(matrix_generation(&rows, &other), expected);
}

#[test]
fn the_matrix_identity_escapes_as_serde_json_does() {
    let rows = MatrixAxisIdentity {
        dataset: "mer\"3\\ly\u{1}é\t\u{8}\u{c}\n\r/".to_owned(),
        authority_sha256: "ab12".to_owned(),
        reading: "neighbors".to_owned(),
        focus: None,
    };
    let columns = MatrixAxisIdentity {
        dataset: "d".to_owned(),
        authority_sha256: "".to_owned(),
        reading: "graph".to_owned(),
        focus: Some("\u{1f}".to_owned()),
    };
    let written = "[\"mer\\\"3\\\\ly\\u0001é\\t\\b\\f\\n\\r/\",\"ab12\",\"neighbors\",null,\"d\",\"\",\"graph\",\"\\u001f\"]";
    let digest = Sha256::digest(written.as_bytes());
    let expected = u64::from_be_bytes(digest[..8].try_into().expect("eight bytes"));
    assert_eq!(matrix_generation(&rows, &columns), expected);
}
