//! Export of the note graph: live notes that are not folders, wikilink
//! edges between live notes, and one edge per pair of such notes sharing a
//! tag.
use vstd::prelude::*;
use crate::links::{is_leaf_live, is_live, leaf_live};
use crate::model::{EdgeType, GraphData, GraphEdge, GraphNode, NoteData, Wikilink};
use crate::model::copy_opt;
use crate::store::{Database, keep, lemma_keep_from};

verus! {

/// Note `id` exists, is not in the trash and is not a folder.
pub open spec fn is_leaf_live_id(notes: Seq<NoteData>, id: u128) -> bool {
    exists|i: int| 0 <= i < notes.len() && #[trigger] notes[i].id == id && is_leaf_live(notes[i])
}

/// Links whose two ends are live notes that are not folders, that is,
/// nodes of the graph.
pub open spec fn both_live(notes: Seq<NoteData>) -> spec_fn(Wikilink) -> bool {
    |w: Wikilink| is_leaf_live_id(notes, w.source) && is_leaf_live_id(notes, w.target)
}

/// Notes `x` and `y` carry a common tag.
pub open spec fn share_tag(db: Database, x: u128, y: u128) -> bool {
    exists|i: int, j: int|
        0 <= i < db.note_tags@.len() && 0 <= j < db.note_tags@.len() && #[trigger] db.note_tags@[i].note_id == x
            && #[trigger] db.note_tags@[j].note_id == y && db.note_tags@[i].tag_id == db.note_tags@[j].tag_id
}

/// `e` is a tag edge of the exported graph: a pair in id order of live
/// non-folder notes that share a tag.
pub open spec fn tag_edge_ok(db: Database, e: GraphEdge) -> bool {
    &&& e.edge_type == EdgeType::Tag
    &&& e.source < e.target
    &&& is_leaf_live_id(db.notes@, e.source) && is_leaf_live_id(db.notes@, e.target)
    &&& share_tag(db, e.source, e.target)
}

/// `g` is the graph of `db`.
pub open spec fn graph_exported(db: Database, g: GraphData) -> bool {
    let nodes = keep(db.notes@, leaf_live());
    let links = keep(db.wikilinks@, both_live(db.notes@));
    let m = links.len();
    &&& g.nodes@.len() == nodes.len()
    &&& forall|k: int|
        0 <= k < g.nodes@.len() ==> (#[trigger] g.nodes@[k]).id == nodes[k].id && g.nodes@[k].title == nodes[k].title
            && g.nodes@[k].emoji == nodes[k].emoji
    &&& m <= g.edges@.len()
    &&& forall|k: int|
        0 <= k < m ==> #[trigger] g.edges@[k] == (GraphEdge {
            source: links[k].source,
            target: links[k].target,
            edge_type: EdgeType::Wikilink,
        })
    &&& forall|k: int| m <= k < g.edges@.len() ==> tag_edge_ok(db, #[trigger] g.edges@[k])
    &&& forall|a: int, b: int| m <= a < b < g.edges@.len() ==> g.edges@[a] != g.edges@[b]
    &&& forall|x: u128, y: u128|
        x < y && is_leaf_live_id(db.notes@, x) && is_leaf_live_id(db.notes@, y) && #[trigger] share_tag(db, x, y)
            ==> exists|k: int|
            m <= k < g.edges@.len() && #[trigger] g.edges@[k] == (GraphEdge { source: x, target: y, edge_type: EdgeType::Tag })
}

fn live_flags(db: &Database, id: u128) -> (r: (bool, bool))
    requires
        db.wf(),
    ensures
        r.0 == is_live(db.notes@, id),
        r.1 == is_leaf_live_id(db.notes@, id),
{
    match db.find_note(id) {
        None => (false, false),
        Some(i) => {
            let n = &db.notes[i];
            proof {
                if is_live(db.notes@, id) {
                    let x = choose|x: int| 0 <= x < db.notes@.len() && #[trigger] db.notes@[x].id == id && !db.notes@[x].is_trashed;
                    assert(x == i);
                }
                if is_leaf_live_id(db.notes@, id) {
                    let x = choose|x: int| 0 <= x < db.notes@.len() && #[trigger] db.notes@[x].id == id && is_leaf_live(db.notes@[x]);
                    assert(x == i);
                }
            }
            (!n.is_trashed, !n.is_trashed && !n.is_folder)
        },
    }
}

/// Appends `e` unless `edges` holds it already.
fn push_unique(edges: &mut Vec<GraphEdge>, e: GraphEdge)
    requires
        forall|x: int, y: int| 0 <= x < y < old(edges)@.len() ==> old(edges)@[x] != old(edges)@[y],
    ensures
        final(edges)@ == old(edges)@ || final(edges)@ == old(edges)@.push(e),
        forall|x: int, y: int| 0 <= x < y < final(edges)@.len() ==> final(edges)@[x] != final(edges)@[y],
        exists|k: int| 0 <= k < final(edges)@.len() && final(edges)@[k] == e,
{
    let mut q: usize = 0;
    while q < edges.len()
        invariant
            edges@ == old(edges)@,
            forall|x: int, y: int| 0 <= x < y < edges@.len() ==> edges@[x] != edges@[y],
            q <= edges@.len(),
            forall|k: int| 0 <= k < q ==> edges@[k] != e,
        decreases edges@.len() - q,
    {
        if edges[q] == e {
            return;
        }
        q = q + 1;
    }
    let ghost before = edges@;
    edges.push(e);
    assert(edges@[before.len() as int] == e);
    assert forall|x: int, y: int| 0 <= x < y < edges@.len() implies edges@[x] != edges@[y] by {
        if y == before.len() {
            assert(edges@[x] == before[x]);
        }
    }
}

/// The graph of the live notes that are not folders.
pub fn get_graph_data(db: &Database) -> (g: GraphData)
    requires
        db.wf(),
    ensures
        graph_exported(*db, g),
{
    let ghost nodes_k = keep(db.notes@, leaf_live());
    let mut nodes: Vec<GraphNode> = Vec::new();
    let mut i: usize = 0;
    while i < db.notes.len()
        invariant
            i <= db.notes@.len(),
            nodes@.len() == keep(db.notes@.subrange(0, i as int), leaf_live()).len(),
            forall|k: int|
                0 <= k < nodes@.len() ==> (#[trigger] nodes@[k]).id == keep(db.notes@.subrange(0, i as int), leaf_live())[k].id
                    && nodes@[k].title == keep(db.notes@.subrange(0, i as int), leaf_live())[k].title && nodes@[k].emoji
                    == keep(db.notes@.subrange(0, i as int), leaf_live())[k].emoji,
        decreases db.notes@.len() - i,
    {
        let ghost prev = keep(db.notes@.subrange(0, i as int), leaf_live());
        let ghost prev_n = nodes@;
        proof {
            let s = db.notes@.subrange(0, i + 1);
            assert(s.drop_last() =~= db.notes@.subrange(0, i as int));
        }
        if !db.notes[i].is_trashed && !db.notes[i].is_folder {
            nodes.push(GraphNode {
                id: db.notes[i].id,
                title: db.notes[i].title.clone(),
                emoji: copy_opt(&db.notes[i].emoji),
            });
            proof {
                let cur = keep(db.notes@.subrange(0, i + 1), leaf_live());
                assert(cur == prev.push(db.notes@[i as int]));
                assert forall|k: int| 0 <= k < nodes@.len() implies (#[trigger] nodes@[k]).id == cur[k].id && nodes@[k].title
                    == cur[k].title && nodes@[k].emoji == cur[k].emoji by {
                    if k < prev.len() {
                        assert(nodes@[k] == prev_n[k]);
                    }
                }
            }
        }
        i = i + 1;
    }
    assert(db.notes@.subrange(0, db.notes@.len() as int) =~= db.notes@);
    let ghost p = both_live(db.notes@);
    let mut edges: Vec<GraphEdge> = Vec::new();
    let mut j: usize = 0;
    while j < db.wikilinks.len()
        invariant
            db.wf(),
            p == both_live(db.notes@),
            j <= db.wikilinks@.len(),
            edges@.len() == keep(db.wikilinks@.subrange(0, j as int), p).len(),
            forall|k: int|
                0 <= k < edges@.len() ==> #[trigger] edges@[k] == (GraphEdge {
                    source: keep(db.wikilinks@.subrange(0, j as int), p)[k].source,
                    target: keep(db.wikilinks@.subrange(0, j as int), p)[k].target,
                    edge_type: EdgeType::Wikilink,
                }),
        decreases db.wikilinks@.len() - j,
    {
        let w = db.wikilinks[j];
        let ghost prev = keep(db.wikilinks@.subrange(0, j as int), p);
        let ghost prev_e = edges@;
        proof {
            let s = db.wikilinks@.subrange(0, j + 1);
            assert(s.drop_last() =~= db.wikilinks@.subrange(0, j as int));
        }
        let (_, ls) = live_flags(db, w.source);
        let (_, lt) = live_flags(db, w.target);
        if ls && lt {
            edges.push(GraphEdge { source: w.source, target: w.target, edge_type: EdgeType::Wikilink });
            proof {
                let cur = keep(db.wikilinks@.subrange(0, j + 1), p);
                assert(cur == prev.push(w));
                assert forall|k: int| 0 <= k < edges@.len() implies #[trigger] edges@[k] == (GraphEdge {
                    source: cur[k].source,
                    target: cur[k].target,
                    edge_type: EdgeType::Wikilink,
                }) by {
                    if k < prev.len() {
                        assert(edges@[k] == prev_e[k]);
                    }
                }
            }
        }
        j = j + 1;
    }
    assert(db.wikilinks@.subrange(0, db.wikilinks@.len() as int) =~= db.wikilinks@);
    let mut tag_edges: Vec<GraphEdge> = Vec::new();
    let ghost rows = db.note_tags@;
    let mut a: usize = 0;
    while a < db.note_tags.len()
        invariant
            db.wf(),
            rows == db.note_tags@,
            a <= rows.len(),
            forall|k: int| 0 <= k < tag_edges@.len() ==> tag_edge_ok(*db, #[trigger] tag_edges@[k]),
            forall|x: int, y: int| 0 <= x < y < tag_edges@.len() ==> tag_edges@[x] != tag_edges@[y],
            forall|x: int, y: int|
                0 <= x < a && 0 <= y < rows.len() && rows[x].tag_id == rows[y].tag_id && rows[x].note_id < rows[y].note_id
                    && is_leaf_live_id(db.notes@, rows[x].note_id) && is_leaf_live_id(db.notes@, rows[y].note_id) ==> exists|
                    k: int,
                |
                    0 <= k < tag_edges@.len() && #[trigger] tag_edges@[k] == (GraphEdge {
                        source: rows[x].note_id,
                        target: rows[y].note_id,
                        edge_type: EdgeType::Tag,
                    }),
        decreases rows.len() - a,
    {
        let ra = db.note_tags[a];
        let (_, la) = live_flags(db, ra.note_id);
        let mut b: usize = 0;
        while b < db.note_tags.len()
            invariant
                db.wf(),
                rows == db.note_tags@,
                ra == rows[a as int],
                la == is_leaf_live_id(db.notes@, ra.note_id),
                    a < rows.len(),
                b <= rows.len(),
                forall|k: int| 0 <= k < tag_edges@.len() ==> tag_edge_ok(*db, #[trigger] tag_edges@[k]),
                forall|x: int, y: int| 0 <= x < y < tag_edges@.len() ==> tag_edges@[x] != tag_edges@[y],
                forall|x: int, y: int|
                    ((0 <= x < a && 0 <= y < rows.len()) || (x == a && 0 <= y < b)) && rows[x].tag_id == rows[y].tag_id
                        && rows[x].note_id < rows[y].note_id && is_leaf_live_id(db.notes@, rows[x].note_id)
                        && is_leaf_live_id(db.notes@, rows[y].note_id) ==> exists|k: int|
                        0 <= k < tag_edges@.len() && #[trigger] tag_edges@[k] == (GraphEdge {
                            source: rows[x].note_id,
                            target: rows[y].note_id,
                            edge_type: EdgeType::Tag,
                        }),
            decreases rows.len() - b,
        {
            let rb = db.note_tags[b];
            if la && ra.tag_id == rb.tag_id && ra.note_id < rb.note_id {
                let (_, lb) = live_flags(db, rb.note_id);
                if lb {
                    let e = GraphEdge { source: ra.note_id, target: rb.note_id, edge_type: EdgeType::Tag };
                    let ghost before = tag_edges@;
                    proof {
                        assert(share_tag(*db, e.source, e.target)) by {
                            assert(rows[a as int].note_id == e.source && rows[b as int].note_id == e.target);
                        }
                        assert(tag_edge_ok(*db, e));
                    }
                    push_unique(&mut tag_edges, e);
                    proof {
                        assert forall|k: int| 0 <= k < tag_edges@.len() implies tag_edge_ok(*db, #[trigger] tag_edges@[k]) by {
                            if k < before.len() {
                                assert(tag_edges@[k] == before[k]);
                            }
                        }
                        assert forall|x: int, y: int|
                            ((0 <= x < a && 0 <= y < rows.len()) || (x == a && 0 <= y < b + 1)) && rows[x].tag_id == rows[y].tag_id
                                && rows[x].note_id < rows[y].note_id && is_leaf_live_id(db.notes@, rows[x].note_id)
                                && is_leaf_live_id(db.notes@, rows[y].note_id) implies exists|k: int|
                                0 <= k < tag_edges@.len() && #[trigger] tag_edges@[k] == (GraphEdge {
                                    source: rows[x].note_id,
                                    target: rows[y].note_id,
                                    edge_type: EdgeType::Tag,
                                }) by {
                            if !(x == a && y == b) {
                                let k = choose|k: int|
                                    0 <= k < before.len() && #[trigger] before[k] == (GraphEdge {
                                        source: rows[x].note_id,
                                        target: rows[y].note_id,
                                        edge_type: EdgeType::Tag,
                                    });
                                assert(tag_edges@[k] == before[k]);
                            }
                        }
                    }
                }
            }
            b = b + 1;
        }
        a = a + 1;
    }
    let ghost wl = edges@;
    let ghost te = tag_edges@;
    edges.append(&mut tag_edges);
    assert(edges@ == wl + te);
    let g = GraphData { nodes, edges };
    let ghost m: int = wl.len() as int;
    proof {
        assert forall|x: u128, y: u128|
            x < y && is_leaf_live_id(db.notes@, x) && is_leaf_live_id(db.notes@, y) && #[trigger] share_tag(*db, x, y)
                implies exists|k: int|
                m <= k < g.edges@.len() && #[trigger] g.edges@[k] == (GraphEdge { source: x, target: y, edge_type: EdgeType::Tag }) by {
            let (i, j) = choose|i: int, j: int|
                0 <= i < rows.len() && 0 <= j < rows.len() && #[trigger] rows[i].note_id == x && #[trigger] rows[j].note_id == y
                    && rows[i].tag_id == rows[j].tag_id;
            assert(rows[i].note_id < rows[j].note_id);
            let k = choose|k: int| 0 <= k < te.len() && #[trigger] te[k] == (GraphEdge { source: x, target: y, edge_type: EdgeType::Tag });
            assert(g.edges@[m + k] == te[k]);
        }
        assert forall|k: int| m <= k < g.edges@.len() implies tag_edge_ok(*db, #[trigger] g.edges@[k]) by {
            assert(g.edges@[k] == te[k - m]);
        }
        assert forall|a: int, b: int| m <= a < b < g.edges@.len() implies g.edges@[a] != g.edges@[b] by {
            assert(g.edges@[a] == te[a - m] && g.edges@[b] == te[b - m]);
        }
        assert forall|k: int| 0 <= k < m implies #[trigger] g.edges@[k] == wl[k] by {}
    }
    g
}

/// The exported graph has no folder and no trashed note among its nodes,
/// every edge joins two such notes, and no two tag edges join the same two
/// notes, in either direction.
pub proof fn lemma_graph_shape(db: Database, g: GraphData)
    requires
        db.wf(),
        graph_exported(db, g),
    ensures
        forall|k: int, i: int|
            0 <= k < g.nodes@.len() && 0 <= i < db.notes@.len() && db.notes@[i].id == (#[trigger] g.nodes@[k]).id
                ==> !(#[trigger] db.notes@[i]).is_folder && !db.notes@[i].is_trashed,
        forall|a: int, b: int|
            0 <= a < b < g.edges@.len() && g.edges@[a].edge_type == EdgeType::Tag && g.edges@[b].edge_type == EdgeType::Tag
                ==> !(g.edges@[a].source == g.edges@[b].source && g.edges@[a].target == g.edges@[b].target) && !(
            g.edges@[a].source == g.edges@[b].target && g.edges@[a].target == g.edges@[b].source),
        forall|k: int|
            0 <= k < g.edges@.len() ==> is_leaf_live_id(db.notes@, (#[trigger] g.edges@[k]).source) && is_leaf_live_id(
                db.notes@,
                g.edges@[k].target,
            ),
{
    let nodes = keep(db.notes@, leaf_live());
    let links = keep(db.wikilinks@, both_live(db.notes@));
    let m = links.len();
    lemma_keep_from(db.notes@, leaf_live());
    assert forall|k: int, i: int|
        0 <= k < g.nodes@.len() && 0 <= i < db.notes@.len() && db.notes@[i].id == (#[trigger] g.nodes@[k]).id
            implies !(#[trigger] db.notes@[i]).is_folder && !db.notes@[i].is_trashed by {
        assert(leaf_live()(nodes[k]));
        let j = choose|j: int| 0 <= j < db.notes@.len() && db.notes@[j] == nodes[k];
        if i != j {
            assert(db.notes@[i].id != db.notes@[j].id);
        }
    }
    assert forall|a: int, b: int|
        0 <= a < b < g.edges@.len() && g.edges@[a].edge_type == EdgeType::Tag && g.edges@[b].edge_type == EdgeType::Tag
            implies !(g.edges@[a].source == g.edges@[b].source && g.edges@[a].target == g.edges@[b].target) && !(
        g.edges@[a].source == g.edges@[b].target && g.edges@[a].target == g.edges@[b].source) by {
        if a < m {
            assert(g.edges@[a] == (GraphEdge { source: links[a].source, target: links[a].target, edge_type: EdgeType::Wikilink }));
        }
        if b < m {
            assert(g.edges@[b] == (GraphEdge { source: links[b].source, target: links[b].target, edge_type: EdgeType::Wikilink }));
        }
        assert(tag_edge_ok(db, g.edges@[a]) && tag_edge_ok(db, g.edges@[b]));
        assert(g.edges@[a] != g.edges@[b]);
    }
    lemma_keep_from(db.wikilinks@, both_live(db.notes@));
    assert forall|k: int| 0 <= k < g.edges@.len() implies is_leaf_live_id(db.notes@, (#[trigger] g.edges@[k]).source)
        && is_leaf_live_id(db.notes@, g.edges@[k].target) by {
        if k < m {
            assert(g.edges@[k] == (GraphEdge { source: links[k].source, target: links[k].target, edge_type: EdgeType::Wikilink }));
            assert(both_live(db.notes@)(links[k]));
        } else {
            assert(tag_edge_ok(db, g.edges@[k]));
        }
    }
}

} // verus!
