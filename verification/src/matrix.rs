//! The plain-value rules of the two-reading matrix and of its shelfmarks:
//! the checks on its axes, the table of cells with the relations behind each
//! one, and the checks a shelfmark must pass before it is resolved.

use vstd::prelude::*;

use crate::arrangement::{catalog_entries, catalog_lookup, spec};
use crate::firmware_catalog::sha256_digest;
use crate::graph_reading::{authority_identity, big_endian};
use crate::public_text::opt_text;
use crate::text::{
    cat2, cat3, decimal, decimal_text, join, joined, lemma_text_lt_total, lemma_text_lt_trans, str_eq, text_less,
    text_lt, trim, trimmed, views,
};

verus! {

/// The adapter of a source that is a repository relation.
pub const MATRIX_RELATION_ADAPTER: &'static str = "mer3ly.repository-relation/v1";

/// The adapter of a source that the matrix derives itself.
pub const MATRIX_DERIVATION_ADAPTER: &'static str = "mer3ly.matrix-derivation/v1";

/// The adapter of a source that is a repository of the projected graph.
pub const PROJECTION_ADAPTER: &'static str = "mer3ly.repository-graph/v1";

/// What stands behind one matrix cell: the dataset that supplied it, the
/// source (its adapter and id) and where it came from.
pub struct MatrixContributor {
    pub authority: String,
    pub adapter: String,
    pub source_id: String,
    pub provenance: String,
}

/// A contributor as plain text: authority, adapter, source id, provenance.
pub type ContributorView = (Seq<char>, Seq<char>, Seq<char>, Seq<char>);

pub open spec fn contributor_view(c: MatrixContributor) -> ContributorView {
    (c.authority@, c.adapter@, c.source_id@, c.provenance@)
}

pub open spec fn contributor_views(cs: Seq<MatrixContributor>) -> Seq<ContributorView> {
    cs.map_values(|c: MatrixContributor| contributor_view(c))
}

/// The key a contributor is filed under: its authority and source id.
pub open spec fn contributor_key(c: ContributorView) -> Seq<char> {
    c.0 + ":"@ + c.2
}

/// Entry `k` is the first of `cs` filed under its key.
pub open spec fn first_with_key(cs: Seq<ContributorView>, k: int) -> bool {
    &&& 0 <= k < cs.len()
    &&& forall|j: int| 0 <= j < k ==> contributor_key(#[trigger] cs[j]) != contributor_key(cs[k])
}

/// Some entry of `out` is filed under `key`.
pub open spec fn key_filed(out: Seq<ContributorView>, key: Seq<char>) -> bool {
    exists|a: int| 0 <= a < out.len() && #[trigger] contributor_key(out[a]) == key
}

/// `c` is the first entry of `cs` under its key, among the first `n`.
pub open spec fn first_entry(cs: Seq<ContributorView>, n: int, c: ContributorView) -> bool {
    exists|k: int| 0 <= k < n && #[trigger] first_with_key(cs, k) && cs[k] == c
}

/// `out` is `cs` filed by key: one entry per key, the first one filed under
/// it, in ascending key order.
pub open spec fn filed_by_key(cs: Seq<ContributorView>, out: Seq<ContributorView>) -> bool {
    &&& forall|a: int, b: int| 0 <= a < b < out.len() ==> text_lt(contributor_key(#[trigger] out[a]), contributor_key(#[trigger] out[b]))
    &&& forall|a: int| 0 <= a < out.len() ==> #[trigger] first_entry(cs, cs.len() as int, out[a])
    &&& forall|k: int| 0 <= k < cs.len() ==> #[trigger] key_filed(out, contributor_key(cs[k]))
}

fn key_of(c: &MatrixContributor) -> (r: String)
    ensures
        r@ == contributor_key(contributor_view(*c)),
{
    cat3(c.authority.as_str(), ":", c.source_id.as_str())
}

/// Files the contributors by key, keeping the first under each key, in
/// ascending key order.
fn file_by_key(cands: Vec<MatrixContributor>) -> (out: Vec<MatrixContributor>)
    ensures
        filed_by_key(contributor_views(cands@), contributor_views(out@)),
{
    let ghost cs = contributor_views(cands@);
    let n = cands.len();
    let mut rest = cands;
    let ghost all = rest@;
    let mut out: Vec<MatrixContributor> = Vec::new();
    let mut j: usize = 0;
    while rest.len() > 0
        invariant
            cs == contributor_views(all),
            all.len() == n,
            j + rest@.len() == n,
            rest@ == all.subrange(j as int, n as int),
            forall|a: int, b: int|
                0 <= a < b < out@.len() ==> text_lt(
                    contributor_key(#[trigger] contributor_views(out@)[a]),
                    contributor_key(#[trigger] contributor_views(out@)[b]),
                ),
            forall|a: int| 0 <= a < out@.len() ==> #[trigger] first_entry(cs, j as int, contributor_views(out@)[a]),
            forall|k: int| 0 <= k < j ==> #[trigger] key_filed(contributor_views(out@), contributor_key(cs[k])),
        decreases rest@.len(),
    {
        let c = rest.remove(0);
        proof {
            assert(all[j as int] == c);
            assert(cs[j as int] == contributor_view(c));
            assert(rest@ =~= all.subrange(j + 1, n as int));
        }
        let kc = key_of(&c);
        let ghost ov = contributor_views(out@);
        let mut p: usize = 0;
        let mut same = false;
        while p < out.len()
            invariant
                p <= out@.len(),
                ov == contributor_views(out@),
                kc@ == contributor_key(cs[j as int]),
                forall|a: int| 0 <= a < p ==> text_lt(contributor_key(#[trigger] ov[a]), kc@),
                same ==> p < out@.len() && contributor_key(ov[p as int]) == kc@,
            ensures
                p <= out@.len(),
                ov == contributor_views(out@),
                forall|a: int| 0 <= a < p ==> text_lt(contributor_key(#[trigger] ov[a]), kc@),
                same ==> p < out@.len() && contributor_key(ov[p as int]) == kc@,
                !same && p < out@.len() ==> !text_lt(contributor_key(ov[p as int]), kc@) && contributor_key(ov[p as int]) != kc@,
            decreases out@.len() - p,
        {
            let ko = key_of(&out[p]);
            assert(ov[p as int] == contributor_view(out@[p as int]));
            if str_eq(ko.as_str(), kc.as_str()) {
                same = true;
                break;
            }
            if !text_less(ko.as_str(), kc.as_str()) {
                break;
            }
            p = p + 1;
        }
        if same {
            proof {
                assert forall|a: int| 0 <= a < out@.len() implies #[trigger] first_entry(cs, j + 1, contributor_views(out@)[a]) by {
                    assert(first_entry(cs, j as int, ov[a]));
                    let k = choose|k: int| 0 <= k < j && #[trigger] first_with_key(cs, k) && cs[k] == ov[a];
                }
                assert forall|k: int| 0 <= k < j + 1 implies #[trigger] key_filed(contributor_views(out@), contributor_key(cs[k])) by {
                    if k == j {
                        assert(contributor_key(ov[p as int]) == contributor_key(cs[k]));
                    }
                }
            }
        } else {
            let ghost kcv = kc@;
            proof {
                if p < out@.len() {
                    assert(!text_lt(contributor_key(ov[p as int]), kcv));
                    assert(contributor_key(ov[p as int]) != kcv);
                    lemma_text_lt_total(contributor_key(ov[p as int]), kcv);
                    assert(text_lt(kcv, contributor_key(ov[p as int])));
                }
                // no entry of `out` has the key of `c`
                assert forall|a: int| 0 <= a < ov.len() implies contributor_key(#[trigger] ov[a]) != kcv by {
                    if a < p {
                        lemma_text_lt_total(contributor_key(ov[a]), kcv);
                    } else if a == p {
                    } else {
                        assert(text_lt(contributor_key(ov[p as int]), contributor_key(ov[a])));
                        lemma_text_lt_trans(kcv, contributor_key(ov[p as int]), contributor_key(ov[a]));
                        lemma_text_lt_total(kcv, contributor_key(ov[a]));
                    }
                }
                assert(first_with_key(cs, j as int)) by {
                    assert forall|k: int| 0 <= k < j implies contributor_key(#[trigger] cs[k]) != contributor_key(cs[j as int]) by {
                        assert(key_filed(ov, contributor_key(cs[k])));
                        let a = choose|a: int| 0 <= a < ov.len() && #[trigger] contributor_key(ov[a]) == contributor_key(cs[k]);
                        assert(contributor_key(ov[a]) != kcv);
                    }
                }
            }
            let ghost before = out@;
            out.insert(p, c);
            proof {
                let nv = contributor_views(out@);
                assert(nv =~= ov.insert(p as int, contributor_view(c)));
                assert forall|a: int, b: int| 0 <= a < b < nv.len() implies text_lt(
                    contributor_key(#[trigger] nv[a]),
                    contributor_key(#[trigger] nv[b]),
                ) by {
                    if b < p {
                        assert(nv[a] == ov[a] && nv[b] == ov[b]);
                    } else if b == p {
                        assert(nv[a] == ov[a]);
                    } else if a < p {
                        assert(nv[a] == ov[a] && nv[b] == ov[b - 1]);
                        if b - 1 > a {
                            assert(text_lt(contributor_key(ov[a]), contributor_key(ov[b - 1])));
                        }
                    } else if a == p {
                        assert(nv[b] == ov[b - 1]);
                        if b - 1 > p {
                            assert(text_lt(contributor_key(ov[p as int]), contributor_key(ov[b - 1])));
                            lemma_text_lt_trans(kcv, contributor_key(ov[p as int]), contributor_key(ov[b - 1]));
                        }
                    } else {
                        assert(nv[a] == ov[a - 1] && nv[b] == ov[b - 1]);
                    }
                }
                assert forall|a: int| 0 <= a < nv.len() implies #[trigger] first_entry(cs, j + 1, nv[a]) by {
                    if a < p {
                        assert(nv[a] == ov[a]);
                        assert(first_entry(cs, j as int, ov[a]));
                        let k = choose|k: int| 0 <= k < j && #[trigger] first_with_key(cs, k) && cs[k] == ov[a];
                    } else if a == p {
                        assert(nv[a] == cs[j as int]);
                    } else {
                        assert(nv[a] == ov[a - 1]);
                        assert(first_entry(cs, j as int, ov[a - 1]));
                        let k = choose|k: int| 0 <= k < j && #[trigger] first_with_key(cs, k) && cs[k] == ov[a - 1];
                    }
                }
                assert forall|k: int| 0 <= k < j + 1 implies #[trigger] key_filed(nv, contributor_key(cs[k])) by {
                    if k == j {
                        assert(contributor_key(nv[p as int]) == contributor_key(cs[k]));
                    } else {
                        assert(key_filed(ov, contributor_key(cs[k])));
                        let a = choose|a: int| 0 <= a < ov.len() && #[trigger] contributor_key(ov[a]) == contributor_key(cs[k]);
                        if a < p {
                            assert(nv[a] == ov[a]);
                        } else {
                            assert(nv[a + 1] == ov[a]);
                        }
                    }
                }
            }
        }
        j = j + 1;
    }
    out
}

/// One source on a matrix axis: a repository of that axis's reading.
pub struct MatrixSource {
    pub id: String,
    pub name: String,
}

/// One relation of an axis's current graph.
pub struct MatrixEdge {
    pub id: String,
    pub source: String,
    pub target: String,
    pub provenance: String,
}

/// One axis as the cell table reads it: the dataset it cites, the sources
/// its reading produced, in order, and the relations of its current graph.
pub struct MatrixAxisInput {
    pub dataset: String,
    pub sources: Vec<MatrixSource>,
    pub edges: Vec<MatrixEdge>,
}

#[derive(Clone, Copy, Debug, PartialEq, Eq, Structural)]
pub enum MatrixCellKind {
    Relation,
    IdentityMatch,
    Absence,
}

/// One cell of the matrix: its row and column sources, what it shows, and
/// the source and contributors that stand behind it.
pub struct MatrixCellRecord {
    pub row: String,
    pub column: String,
    pub kind: MatrixCellKind,
    pub value: String,
    pub description: String,
    pub source_adapter: String,
    pub source_id: String,
    pub contributors: Vec<MatrixContributor>,
}

/// The relations of `edges` from `row` to `column`, in order, as
/// contributors of `dataset`.
pub open spec fn edge_contributors(dataset: Seq<char>, edges: Seq<MatrixEdge>, row: Seq<char>, column: Seq<char>) -> Seq<
    ContributorView,
>
    decreases edges.len(),
{
    if edges.len() == 0 {
        Seq::empty()
    } else {
        let e = edges.last();
        edge_contributors(dataset, edges.drop_last(), row, column) + if e.source@ == row && e.target@ == column {
            seq![(dataset, MATRIX_RELATION_ADAPTER@, e.id@, e.provenance@)]
        } else {
            Seq::empty()
        }
    }
}

/// Every relation from the row source to the column source, the row axis's
/// first, then the column axis's.
pub open spec fn relation_candidates(rows: MatrixAxisInput, columns: MatrixAxisInput, row: Seq<char>, column: Seq<char>) -> Seq<
    ContributorView,
> {
    edge_contributors(rows.dataset@, rows.edges@, row, column) + edge_contributors(columns.dataset@, columns.edges@, row, column)
}

/// Where no relation joins the two sources, the two axis inputs stand
/// behind the cell.
pub open spec fn axis_candidates(rows: MatrixAxisInput, columns: MatrixAxisInput, row: Seq<char>, column: Seq<char>) -> Seq<
    ContributorView,
> {
    seq![(rows.dataset@, PROJECTION_ADAPTER@, row, "axis input"@), (columns.dataset@, PROJECTION_ADAPTER@, column, "axis input"@)]
}

/// The source ids of the contributors, in order.
pub open spec fn contributor_ids(cs: Seq<ContributorView>) -> Seq<Seq<char>> {
    cs.map_values(|c: ContributorView| c.2)
}

/// The cell at row `r` and column `c`: a relation cell where relations join
/// the two sources (the distinct relations, counted and joined with `+` in
/// key order); otherwise an identity cell where both are the same source,
/// else an absence cell.
pub open spec fn matrix_cell(cell: MatrixCellRecord, rows: MatrixAxisInput, columns: MatrixAxisInput, r: int, c: int) -> bool {
    let row = rows.sources@[r];
    let column = columns.sources@[c];
    let relations = relation_candidates(rows, columns, row.id@, column.id@);
    let contributors = contributor_views(cell.contributors@);
    &&& cell.row@ == row.id@
    &&& cell.column@ == column.id@
    &&& if relations.len() > 0 {
        let n = contributors.len();
        &&& filed_by_key(relations, contributors)
        &&& cell.kind == MatrixCellKind::Relation
        &&& cell.value@ == "relation"@
        &&& cell.description@ == decimal_text(n) + " relation"@ + (if n == 1 { ""@ } else { "s"@ }) + " from "@ + row.name@
            + " to "@ + column.name@
        &&& cell.source_adapter@ == MATRIX_RELATION_ADAPTER@
        &&& cell.source_id@ == joined(contributor_ids(contributors), "+"@)
    } else {
        &&& filed_by_key(axis_candidates(rows, columns, row.id@, column.id@), contributors)
        &&& cell.source_adapter@ == MATRIX_DERIVATION_ADAPTER@
        &&& if row.id@ == column.id@ {
            &&& cell.kind == MatrixCellKind::IdentityMatch
            &&& cell.value@ == "same source"@
            &&& cell.description@ == row.name@ + " is present in both readings"@
            &&& cell.source_id@ == "identity:"@ + row.id@
        } else {
            &&& cell.kind == MatrixCellKind::Absence
            &&& cell.value@ == "no relation"@
            &&& cell.description@ == "No direct relation from "@ + row.name@ + " to "@ + column.name@
            &&& cell.source_id@ == "absence:"@ + row.id@ + ":"@ + column.id@
        }
    }
}

fn push_edge_contributors(
    out: &mut Vec<MatrixContributor>,
    dataset: &str,
    edges: &Vec<MatrixEdge>,
    row: &str,
    column: &str,
)
    ensures
        contributor_views(final(out)@) == contributor_views(old(out)@) + edge_contributors(dataset@, edges@, row@, column@),
{
    let ghost start = contributor_views(out@);
    let mut i: usize = 0;
    while i < edges.len()
        invariant
            i <= edges@.len(),
            contributor_views(out@) == start + edge_contributors(dataset@, edges@.take(i as int), row@, column@),
        decreases edges@.len() - i,
    {
        let e = &edges[i];
        proof {
            assert(edges@.take(i + 1).drop_last() =~= edges@.take(i as int));
            assert(edges@.take(i + 1).last() == edges@[i as int]);
        }
        let ghost prior = contributor_views(out@);
        if str_eq(e.source.as_str(), row) && str_eq(e.target.as_str(), column) {
            out.push(
                MatrixContributor {
                    authority: String::from_str(dataset),
                    adapter: String::from_str(MATRIX_RELATION_ADAPTER),
                    source_id: e.id.clone(),
                    provenance: e.provenance.clone(),
                },
            );
            proof {
                assert(contributor_views(out@) =~= prior.push(contributor_views(out@).last()));
            }
        }
        proof {
            assert(contributor_views(out@) =~= start + edge_contributors(dataset@, edges@.take(i + 1), row@, column@));
        }
        i = i + 1;
    }
    proof {
        assert(edges@.take(edges@.len() as int) =~= edges@);
    }
}

fn contributor_id_list(cs: &Vec<MatrixContributor>) -> (r: Vec<String>)
    ensures
        views(r@) == contributor_ids(contributor_views(cs@)),
{
    let mut r: Vec<String> = Vec::new();
    let mut i: usize = 0;
    while i < cs.len()
        invariant
            i <= cs@.len(),
            views(r@) == contributor_ids(contributor_views(cs@)).take(i as int),
        decreases cs@.len() - i,
    {
        let ghost before = r@;
        let id = cs[i].source_id.clone();
        r.push(id);
        proof {
            crate::text::lemma_views_push(before, id);
            assert(contributor_views(cs@)[i as int] == contributor_view(cs@[i as int]));
            assert(views(r@) =~= contributor_ids(contributor_views(cs@)).take(i + 1));
        }
        i = i + 1;
    }
    proof {
        assert(contributor_ids(contributor_views(cs@)).take(cs@.len() as int) =~= contributor_ids(contributor_views(cs@)));
    }
    r
}

/// The cell at row `r` and column `c` of the matrix.
pub fn matrix_cell_at(rows: &MatrixAxisInput, columns: &MatrixAxisInput, r: usize, c: usize) -> (cell: MatrixCellRecord)
    requires
        r < rows.sources@.len(),
        c < columns.sources@.len(),
    ensures
        matrix_cell(cell, *rows, *columns, r as int, c as int),
{
    let row = &rows.sources[r];
    let column = &columns.sources[c];
    let mut relations: Vec<MatrixContributor> = Vec::new();
    push_edge_contributors(&mut relations, rows.dataset.as_str(), &rows.edges, row.id.as_str(), column.id.as_str());
    push_edge_contributors(&mut relations, columns.dataset.as_str(), &columns.edges, row.id.as_str(), column.id.as_str());
    proof {
        assert(contributor_views(relations@) =~= relation_candidates(*rows, *columns, row.id@, column.id@));
    }
    if relations.len() > 0 {
        let contributors = file_by_key(relations);
        let ids = contributor_id_list(&contributors);
        let count = decimal(contributors.len() as u64);
        let plural = if contributors.len() == 1 { "" } else { "s" };
        let description = cat2(
            cat2(cat3(count.as_str(), " relation", plural).as_str(), " from ").as_str(),
            cat3(row.name.as_str(), " to ", column.name.as_str()).as_str(),
        );
        proof {
            reveal_strlit("");
            reveal_strlit("s");
            assert(description@ =~= decimal_text(contributors@.len() as nat) + " relation"@ + (if contributors@.len() == 1 {
                ""@
            } else {
                "s"@
            }) + " from "@ + row.name@ + " to "@ + column.name@);
        }
        MatrixCellRecord {
            row: row.id.clone(),
            column: column.id.clone(),
            kind: MatrixCellKind::Relation,
            value: String::from_str("relation"),
            description,
            source_adapter: String::from_str(MATRIX_RELATION_ADAPTER),
            source_id: join(&ids, "+"),
            contributors,
        }
    } else {
        let mut axes: Vec<MatrixContributor> = Vec::new();
        axes.push(
            MatrixContributor {
                authority: rows.dataset.clone(),
                adapter: String::from_str(PROJECTION_ADAPTER),
                source_id: row.id.clone(),
                provenance: String::from_str("axis input"),
            },
        );
        axes.push(
            MatrixContributor {
                authority: columns.dataset.clone(),
                adapter: String::from_str(PROJECTION_ADAPTER),
                source_id: column.id.clone(),
                provenance: String::from_str("axis input"),
            },
        );
        proof {
            assert(contributor_views(axes@) =~= axis_candidates(*rows, *columns, row.id@, column.id@));
        }
        let contributors = file_by_key(axes);
        if str_eq(row.id.as_str(), column.id.as_str()) {
            MatrixCellRecord {
                row: row.id.clone(),
                column: column.id.clone(),
                kind: MatrixCellKind::IdentityMatch,
                value: String::from_str("same source"),
                description: cat2(row.name.as_str(), " is present in both readings"),
                source_adapter: String::from_str(MATRIX_DERIVATION_ADAPTER),
                source_id: cat2("identity:", row.id.as_str()),
                contributors,
            }
        } else {
            let description = cat2(cat3("No direct relation from ", row.name.as_str(), " to ").as_str(), column.name.as_str());
            let source_id = cat2(cat3("absence:", row.id.as_str(), ":").as_str(), column.id.as_str());
            MatrixCellRecord {
                row: row.id.clone(),
                column: column.id.clone(),
                kind: MatrixCellKind::Absence,
                value: String::from_str("no relation"),
                description,
                source_adapter: String::from_str(MATRIX_DERIVATION_ADAPTER),
                source_id,
                contributors,
            }
        }
    }
}

/// The cells of the matrix, row by row: the cell at row `k / columns` and
/// column `k % columns` is entry `k`.
pub fn matrix_cells(rows: &MatrixAxisInput, columns: &MatrixAxisInput) -> (cells: Vec<MatrixCellRecord>)
    requires
        rows.sources@.len() * columns.sources@.len() <= usize::MAX,
    ensures
        cells@.len() == rows.sources@.len() * columns.sources@.len(),
        forall|k: int|
            0 <= k < cells@.len() ==> matrix_cell(
                #[trigger] cells@[k],
                *rows,
                *columns,
                k / columns.sources@.len() as int,
                k % columns.sources@.len() as int,
            ),
{
    let nr = rows.sources.len();
    let nc = columns.sources.len();
    let mut cells: Vec<MatrixCellRecord> = Vec::new();
    let mut r: usize = 0;
    while r < nr
        invariant
            r <= nr,
            nr == rows.sources@.len(),
            nc == columns.sources@.len(),
            nr * nc <= usize::MAX,
            cells@.len() == r * nc,
            forall|k: int| 0 <= k < cells@.len() ==> matrix_cell(#[trigger] cells@[k], *rows, *columns, k / nc as int, k % nc as int),
        decreases nr - r,
    {
        let mut c: usize = 0;
        while c < nc
            invariant
                r < nr,
                c <= nc,
                nr == rows.sources@.len(),
                nc == columns.sources@.len(),
                nr * nc <= usize::MAX,
                cells@.len() == r * nc + c,
                forall|k: int| 0 <= k < cells@.len() ==> matrix_cell(#[trigger] cells@[k], *rows, *columns, k / nc as int, k % nc as int),
            decreases nc - c,
        {
            proof {
                vstd::arithmetic::div_mod::lemma_fundamental_div_mod_converse((r * nc + c) as int, nc as int, r as int, c as int);
                assert(r * nc + c < nr * nc) by (nonlinear_arith)
                    requires
                        r < nr,
                        c < nc,
                ;
            }
            let cell = matrix_cell_at(rows, columns, r, c);
            cells.push(cell);
            c = c + 1;
        }
        proof {
            assert((r + 1) * nc == r * nc + nc) by (nonlinear_arith);
        }
        r = r + 1;
    }
    cells
}

/// The identity of one axis of a two-reading matrix: the dataset it reads,
/// its authority record, the reading and the focus, and how many sources
/// its projection produced.
pub struct MatrixAxisHeading {
    pub dataset: String,
    pub record: String,
    pub reading: String,
    pub focus: Option<String>,
    pub sources: usize,
}

/// An axis names both its dataset and its authority record.
pub open spec fn matrix_axis_named(a: MatrixAxisHeading) -> bool {
    crate::text::trimmed(a.dataset@).len() > 0 && crate::text::trimmed(a.record@).len() > 0
}

/// The two axes are the same reading of the same dataset with the same focus.
pub open spec fn matrix_axes_same(rows: MatrixAxisHeading, columns: MatrixAxisHeading) -> bool {
    &&& rows.reading@ == columns.reading@
    &&& rows.dataset@ == columns.dataset@
    &&& opt_text(rows.focus) == opt_text(columns.focus)
}

/// Whether two optional texts are equal.
fn opt_str_eq(a: &Option<String>, b: &Option<String>) -> (r: bool)
    ensures
        r == (opt_text(*a) == opt_text(*b)),
{
    match (a, b) {
        (Some(x), Some(y)) => str_eq(x.as_str(), y.as_str()),
        (None, None) => true,
        _ => false,
    }
}

/// Whether the axis names both its dataset and its authority record.
fn axis_named(axis: &MatrixAxisHeading) -> (r: bool)
    ensures
        r == matrix_axis_named(*axis),
{
    let dataset = crate::text::trim(axis.dataset.as_str());
    let record = crate::text::trim(axis.record.as_str());
    proof {
        reveal_strlit("");
        assert(dataset@.len() == 0 ==> dataset@ =~= ""@);
        assert(record@.len() == 0 ==> record@ =~= ""@);
    }
    !str_eq(dataset.as_str(), "") && !str_eq(record.as_str(), "")
}

/// The checks a two-reading matrix makes of its axes before anything is
/// drawn, in order: each axis names a dataset and an authority record; the
/// axes are independently produced readings; each axis produced a source.
pub fn check_matrix_axes(rows: &MatrixAxisHeading, columns: &MatrixAxisHeading) -> (r: Result<(), String>)
    ensures
        r is Ok <==> matrix_axis_named(*rows) && matrix_axis_named(*columns) && !matrix_axes_same(*rows, *columns)
            && rows.sources > 0 && columns.sources > 0,
        r matches Err(e) ==> e@ == if !matrix_axis_named(*rows) || !matrix_axis_named(*columns) {
            "a Matrix axis needs a dataset and authority record"@
        } else if matrix_axes_same(*rows, *columns) {
            "Matrix axes must be independently produced readings"@
        } else {
            "Matrix axes must each produce at least one source"@
        },
{
    if !axis_named(rows) || !axis_named(columns) {
        return Err(String::from_str("a Matrix axis needs a dataset and authority record"));
    }
    if str_eq(rows.reading.as_str(), columns.reading.as_str()) && str_eq(rows.dataset.as_str(), columns.dataset.as_str())
        && opt_str_eq(&rows.focus, &columns.focus) {
        return Err(String::from_str("Matrix axes must be independently produced readings"));
    }
    if rows.sources == 0 || columns.sources == 0 {
        return Err(String::from_str("Matrix axes must each produce at least one source"));
    }
    Ok(())
}

/// The delta sections a composed matrix shelfmark owns itself.
pub open spec fn target_owned_sections() -> Seq<Seq<char>> {
    seq![
        "selection"@,
        "mer3ly.instances"@,
        "placement"@,
        "mer3ly.motion"@,
        "mer3ly.backdrop"@,
        "mer3ly.facets"@,
        "mer3ly.camera"@,
    ]
}

fn is_target_owned(section: &str) -> (r: bool)
    ensures
        r == target_owned_sections().contains(section@),
{
    let owned: [&str; 7] = ["selection", "mer3ly.instances", "placement", "mer3ly.motion", "mer3ly.backdrop", "mer3ly.facets", "mer3ly.camera"];
    let mut i: usize = 0;
    while i < 7
        invariant
            i <= 7,
            forall|j: int| 0 <= j < 7 ==> (#[trigger] owned@[j])@ == target_owned_sections()[j],
            forall|j: int| 0 <= j < i ==> target_owned_sections()[j] != section@,
        decreases 7 - i,
    {
        if str_eq(owned[i], section) {
            assert(target_owned_sections()[i as int] == section@);
            return true;
        }
        i = i + 1;
    }
    false
}

/// Checks the delta sections a composed shelfmark carries over from the
/// shelfmark it came from, in the carried map's order: none may shadow a
/// section the composed shelfmark owns. The first one that does is named.
pub fn check_carried_sections(carried: &Vec<String>) -> (r: Result<(), String>)
    ensures
        r is Ok <==> forall|k: int| 0 <= k < carried@.len() ==> !target_owned_sections().contains(#[trigger] carried@[k]@),
        r matches Err(e) ==> exists|k: int|
            0 <= k < carried@.len() && target_owned_sections().contains(#[trigger] carried@[k]@) && (forall|j: int|
                0 <= j < k ==> !target_owned_sections().contains(#[trigger] carried@[j]@)) && e@ == "carried section "@
                + carried@[k]@ + " shadows a target-owned delta"@,
{
    let mut k: usize = 0;
    while k < carried.len()
        invariant
            k <= carried@.len(),
            forall|j: int| 0 <= j < k ==> !target_owned_sections().contains(#[trigger] carried@[j]@),
        decreases carried@.len() - k,
    {
        if is_target_owned(carried[k].as_str()) {
            return Err(cat3("carried section ", carried[k].as_str(), " shadows a target-owned delta"));
        }
        k = k + 1;
    }
    Ok(())
}

/// Checks that a shelfmark to be resolved as a matrix names the matrix
/// projection.
pub fn check_matrix_shelfmark_projection(projection: &str) -> (r: Result<(), String>)
    ensures
        r is Ok <==> projection@ == "matrix"@,
        r matches Err(e) ==> e@ == "shelfmark projection "@ + projection@ + " is not Matrix"@,
{
    if str_eq(projection, "matrix") {
        Ok(())
    } else {
        Err(cat3("shelfmark projection ", projection, " is not Matrix"))
    }
}

/// Checks that the spatial input of a matrix shelfmark names an
/// arrangement the site offers.
pub fn check_spatial_arrangement(arrangement: Option<&str>) -> (r: Result<(), String>)
    ensures
        r is Ok <==> (arrangement matches Some(a) && catalog_lookup(catalog_entries(), a@) is Some),
        r matches Err(e) ==> e@ == "spatial Shelfmark input has no offered arrangement"@,
{
    match arrangement {
        Some(a) => {
            if spec(a).is_some() {
                return Ok(());
            }
        },
        None => {},
    }
    Err(String::from_str("spatial Shelfmark input has no offered arrangement"))
}

/// An instance-scoped delta: the view and facet it belongs to and the
/// source of the instance.
pub struct MatrixInstanceDelta {
    pub view: String,
    pub facet: String,
    pub source_id: String,
}

/// The delta names a view and a facet and one of the given sources.
pub open spec fn instance_delta_resolves(d: MatrixInstanceDelta, source_ids: Seq<Seq<char>>) -> bool {
    trimmed(d.view@).len() > 0 && trimmed(d.facet@).len() > 0 && source_ids.contains(d.source_id@)
}

fn holds_id(ids: &Vec<String>, id: &str) -> (r: bool)
    ensures
        r == views(ids@).contains(id@),
{
    let mut i: usize = 0;
    while i < ids.len()
        invariant
            i <= ids@.len(),
            forall|j: int| 0 <= j < i ==> (#[trigger] views(ids@)[j]) != id@,
        decreases ids@.len() - i,
    {
        if str_eq(ids[i].as_str(), id) {
            assert(views(ids@)[i as int] == id@);
            return true;
        }
        i = i + 1;
    }
    false
}

/// Checks that every instance-scoped delta of a matrix shelfmark resolves to
/// one of the matrix's sources.
pub fn check_instance_deltas(deltas: &Vec<MatrixInstanceDelta>, source_ids: &Vec<String>) -> (r: Result<(), String>)
    ensures
        r is Ok <==> forall|k: int| 0 <= k < deltas@.len() ==> instance_delta_resolves(#[trigger] deltas@[k], views(source_ids@)),
        r matches Err(e) ==> e@ == "instance-scoped authored state does not resolve"@,
{
    let mut k: usize = 0;
    while k < deltas.len()
        invariant
            k <= deltas@.len(),
            forall|j: int| 0 <= j < k ==> instance_delta_resolves(#[trigger] deltas@[j], views(source_ids@)),
        decreases deltas@.len() - k,
    {
        let d = &deltas[k];
        let view = trim(d.view.as_str());
        let facet = trim(d.facet.as_str());
        proof {
            reveal_strlit("");
            assert(view@.len() == 0 ==> view@ =~= ""@);
            assert(facet@.len() == 0 ==> facet@ =~= ""@);
        }
        if str_eq(view.as_str(), "") || str_eq(facet.as_str(), "") || !holds_id(source_ids, d.source_id.as_str()) {
            assert(!instance_delta_resolves(deltas@[k as int], views(source_ids@)));
            return Err(String::from_str("instance-scoped authored state does not resolve"));
        }
        k = k + 1;
    }
    Ok(())
}

/// A lower-case hexadecimal digit.
pub open spec fn hex_digit_lower(n: int) -> char {
    if n < 10 {
        ((48 + n) as u32) as char
    } else {
        ((87 + n) as u32) as char
    }
}

/// How serde_json writes one character inside a string: the quote and the
/// backslash escaped, the five control characters with a short escape as
/// such, every other control character as `\u00` and two lower-case hex
/// digits, and every other character as itself.
pub open spec fn json_char(c: char) -> Seq<char> {
    if c == '"' {
        "\\\""@
    } else if c == '\\' {
        "\\\\"@
    } else if c == '\u{8}' {
        "\\b"@
    } else if c == '\t' {
        "\\t"@
    } else if c == '\n' {
        "\\n"@
    } else if c == '\u{c}' {
        "\\f"@
    } else if c == '\r' {
        "\\r"@
    } else if (c as u32) < 0x20 {
        "\\u00"@ + seq![hex_digit_lower((c as u32) as int / 16), hex_digit_lower((c as u32) as int % 16)]
    } else {
        seq![c]
    }
}

/// The escaped characters of a JSON string.
pub open spec fn json_escaped(s: Seq<char>) -> Seq<char>
    decreases s.len(),
{
    if s.len() == 0 {
        Seq::empty()
    } else {
        json_escaped(s.drop_last()) + json_char(s.last())
    }
}

/// How serde_json writes a string or, for nothing, `null`.
pub open spec fn json_item(v: Option<Seq<char>>) -> Seq<char> {
    match v {
        Some(s) => "\""@ + json_escaped(s) + "\""@,
        None => "null"@,
    }
}

/// The JSON text of the eight-tuple that identifies a matrix: each axis's
/// dataset, authority digest, reading and focus, rows first, as an array.
pub open spec fn matrix_identity_text(
    rows_dataset: Seq<char>,
    rows_sha256: Seq<char>,
    rows_reading: Seq<char>,
    rows_focus: Option<Seq<char>>,
    columns_dataset: Seq<char>,
    columns_sha256: Seq<char>,
    columns_reading: Seq<char>,
    columns_focus: Option<Seq<char>>,
) -> Seq<char> {
    "["@ + json_item(Some(rows_dataset)) + ","@ + json_item(Some(rows_sha256)) + ","@ + json_item(Some(rows_reading)) + ","@
        + json_item(rows_focus) + ","@ + json_item(Some(columns_dataset)) + ","@ + json_item(Some(columns_sha256)) + ","@
        + json_item(Some(columns_reading)) + ","@ + json_item(columns_focus) + "]"@
}

/// The UTF-8 bytes of that JSON text.
pub open spec fn matrix_identity_json(
    rows_dataset: Seq<char>,
    rows_sha256: Seq<char>,
    rows_reading: Seq<char>,
    rows_focus: Option<Seq<char>>,
    columns_dataset: Seq<char>,
    columns_sha256: Seq<char>,
    columns_reading: Seq<char>,
    columns_focus: Option<Seq<char>>,
) -> Seq<u8> {
    vstd::utf8::encode_utf8(
        matrix_identity_text(
            rows_dataset,
            rows_sha256,
            rows_reading,
            rows_focus,
            columns_dataset,
            columns_sha256,
            columns_reading,
            columns_focus,
        ),
    )
}

/// `serde_json::to_vec` of the identifying eight-tuple of strings and
/// optional strings: the UTF-8 bytes of the JSON array that
/// `matrix_identity_text` spells out, compact, with serde_json's string
/// escaping. The
/// serializer fails only where a value's `Serialize` impl fails or a map has
/// a non-string key, and strings, optional strings and tuples do neither, so
/// the bytes are always there.
#[verifier::external_body]
fn matrix_identity_bytes(
    rows_dataset: &str,
    rows_sha256: &str,
    rows_reading: &str,
    rows_focus: Option<&str>,
    columns_dataset: &str,
    columns_sha256: &str,
    columns_reading: &str,
    columns_focus: Option<&str>,
) -> (r: Option<Vec<u8>>)
    ensures
        r is Some,
        r matches Some(b) ==> b@ == matrix_identity_json(
            rows_dataset@,
            rows_sha256@,
            rows_reading@,
            opt_str(rows_focus),
            columns_dataset@,
            columns_sha256@,
            columns_reading@,
            opt_str(columns_focus),
        ),
{
    serde_json::to_vec(
        &(rows_dataset, rows_sha256, rows_reading, rows_focus, columns_dataset, columns_sha256, columns_reading, columns_focus),
    ).ok()
}

/// An optional text as plain text.
pub open spec fn opt_str(s: Option<&str>) -> Option<Seq<char>> {
    match s {
        Some(x) => Some(x@),
        None => None,
    }
}

fn as_opt_str(s: &Option<String>) -> (r: Option<&str>)
    ensures
        opt_str(r) == opt_text(*s),
{
    match s {
        Some(x) => Some(x.as_str()),
        None => None,
    }
}

/// One axis's identity: its dataset, the digest of its authority, its
/// reading and its focus.
pub struct MatrixAxisIdentity {
    pub dataset: String,
    pub authority_sha256: String,
    pub reading: String,
    pub focus: Option<String>,
}

/// The generation of a matrix: the first eight bytes, most significant
/// first, of the SHA-256 digest of its identifying JSON.
pub fn matrix_generation(rows: &MatrixAxisIdentity, columns: &MatrixAxisIdentity) -> (r: u64)
    ensures
        r == big_endian(
            sha256_digest(
                matrix_identity_json(
                    rows.dataset@,
                    rows.authority_sha256@,
                    rows.reading@,
                    opt_text(rows.focus),
                    columns.dataset@,
                    columns.authority_sha256@,
                    columns.reading@,
                    opt_text(columns.focus),
                ),
            ).take(8),
        ),
{
    let material = matrix_identity_bytes(
        rows.dataset.as_str(),
        rows.authority_sha256.as_str(),
        rows.reading.as_str(),
        as_opt_str(&rows.focus),
        columns.dataset.as_str(),
        columns.authority_sha256.as_str(),
        columns.reading.as_str(),
        as_opt_str(&columns.focus),
    );
    match material {
        Some(bytes) => {
            let (_, generation) = authority_identity(bytes.as_slice());
            generation
        },
        None => {
            proof {
                assert(false);
            }
            0
        },
    }
}

} // verus!
