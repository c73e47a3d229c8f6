//! Which restrictions go into which tile, and what they become there.
use vstd::prelude::*;
use vstd::utf8::encode_utf8;

use crate::lowmem_tile::{
    all_resolved, at_tile, cross_of, intra_of, local_of, places_at, resolved_of, tile_plan,
    EdgeIndexModel, EdgeMetaRow, ResolvedModel, RestrictionRow,
};
use crate::tile_network_laws::nodes_of;
use crate::tile_writer::{
    clipped, id_number, lemma_id_number_injective, place_index, CrossOut, ElementId, LmEdge,
    LmIntraTile, NodeTables,
};

verus! {

/// What an index holds once the edges were taken in one after the other.
pub open spec fn indexed(edges: Seq<EdgeMetaRow>) -> EdgeIndexModel
    decreases edges.len(),
{
    if edges.len() == 0 {
        EdgeIndexModel {
            from_edge: Map::empty(),
            to_edge: Map::empty(),
            stable_id: Map::empty(),
            tiles: Set::empty(),
        }
    } else {
        indexed(edges.drop_last()).with_edge(edges.last())
    }
}

/// Whether edge `i` is the last one of parent `parent` that ends at `node`.
pub open spec fn last_ending(
    edges: Seq<EdgeMetaRow>,
    parent: ElementId,
    node: ElementId,
    i: int,
) -> bool {
    &&& 0 <= i < edges.len()
    &&& edges[i].parent_id == parent && edges[i].end_id == node
    &&& forall|j: int|
        i < j < edges.len() ==> !((#[trigger] edges[j]).parent_id == parent && edges[j].end_id
            == node)
}

/// Whether edge `i` is the last one of parent `parent` that starts at `node`.
pub open spec fn last_starting(
    edges: Seq<EdgeMetaRow>,
    parent: ElementId,
    node: ElementId,
    i: int,
) -> bool {
    &&& 0 <= i < edges.len()
    &&& edges[i].parent_id == parent && edges[i].start_id == node
    &&& forall|j: int|
        i < j < edges.len() ==> !((#[trigger] edges[j]).parent_id == parent && edges[j].start_id
            == node)
}

/// Whether edge `i` is the last one with a number.
pub open spec fn last_numbered(edges: Seq<EdgeMetaRow>, idx: u32, i: int) -> bool {
    &&& 0 <= i < edges.len()
    &&& edges[i].edge_idx == idx
    &&& forall|j: int| i < j < edges.len() ==> (#[trigger] edges[j]).edge_idx != idx
}

/// Whether the numbers of edges are numbers.
pub open spec fn numbers_fit(edges: Seq<EdgeMetaRow>) -> bool {
    forall|i: int| 0 <= i < edges.len() ==> 0 <= (#[trigger] edges[i]).edge_idx <= u32::MAX
}

proof fn lemma_ending(edges: Seq<EdgeMetaRow>, parent: ElementId, node: ElementId)
    requires
        numbers_fit(edges),
    ensures
        ({
            let m = indexed(edges).from_edge;
            let k = (id_number(parent@), id_number(node@));
            &&& m.contains_key(k) <==> exists|i: int| last_ending(edges, parent, node, i)
            &&& m.contains_key(k) ==> exists|i: int|
                #[trigger] last_ending(edges, parent, node, i) && m[k] == edges[i].edge_idx
        }),
    decreases edges.len(),
{
    let m = indexed(edges).from_edge;
    let k = (id_number(parent@), id_number(node@));
    if edges.len() > 0 {
        let rest = edges.drop_last();
        let last = edges.last();
        let n = edges.len() - 1;
        assert(numbers_fit(rest)) by {
            assert forall|i: int| 0 <= i < rest.len() implies 0 <= (#[trigger] rest[i]).edge_idx
                <= u32::MAX by {
                assert(rest[i] == edges[i]);
            }
        }
        lemma_ending(rest, parent, node);
        assert(edges[n] == last);
        if id_number(last.parent_id@) == k.0 && id_number(last.end_id@) == k.1 {
            lemma_id_number_injective(last.parent_id, parent);
            lemma_id_number_injective(last.end_id, node);
            assert(last_ending(edges, parent, node, n));
        } else {
            assert(!(last.parent_id == parent && last.end_id == node));
            if exists|i: int| last_ending(rest, parent, node, i) {
                let i = choose|i: int|
                    #[trigger] last_ending(rest, parent, node, i) && indexed(rest).from_edge[k]
                        == rest[i].edge_idx;
                assert(rest[i] == edges[i]);
                assert forall|j: int| i < j < edges.len() implies !((
                #[trigger] edges[j]).parent_id == parent && edges[j].end_id == node) by {
                    if j < n {
                        assert(edges[j] == rest[j]);
                    }
                }
                assert(last_ending(edges, parent, node, i));
            }
            if exists|i: int| last_ending(edges, parent, node, i) {
                let i = choose|i: int| last_ending(edges, parent, node, i);
                assert(rest[i] == edges[i]);
                assert forall|j: int| i < j < rest.len() implies !((
                #[trigger] rest[j]).parent_id == parent && rest[j].end_id == node) by {
                    assert(edges[j] == rest[j]);
                }
                assert(last_ending(rest, parent, node, i));
            }
        }
    }
}

proof fn lemma_starting(edges: Seq<EdgeMetaRow>, parent: ElementId, node: ElementId)
    requires
        numbers_fit(edges),
    ensures
        ({
            let m = indexed(edges).to_edge;
            let k = (id_number(parent@), id_number(node@));
            &&& m.contains_key(k) <==> exists|i: int| last_starting(edges, parent, node, i)
            &&& m.contains_key(k) ==> exists|i: int|
                #[trigger] last_starting(edges, parent, node, i) && m[k] == edges[i].edge_idx
        }),
    decreases edges.len(),
{
    let m = indexed(edges).to_edge;
    let k = (id_number(parent@), id_number(node@));
    if edges.len() > 0 {
        let rest = edges.drop_last();
        let last = edges.last();
        let n = edges.len() - 1;
        assert(numbers_fit(rest)) by {
            assert forall|i: int| 0 <= i < rest.len() implies 0 <= (#[trigger] rest[i]).edge_idx
                <= u32::MAX by {
                assert(rest[i] == edges[i]);
            }
        }
        lemma_starting(rest, parent, node);
        assert(edges[n] == last);
        if id_number(last.parent_id@) == k.0 && id_number(last.start_id@) == k.1 {
            lemma_id_number_injective(last.parent_id, parent);
            lemma_id_number_injective(last.start_id, node);
            assert(last_starting(edges, parent, node, n));
        } else {
            assert(!(last.parent_id == parent && last.start_id == node));
            if exists|i: int| last_starting(rest, parent, node, i) {
                let i = choose|i: int|
                    #[trigger] last_starting(rest, parent, node, i) && indexed(rest).to_edge[k]
                        == rest[i].edge_idx;
                assert(rest[i] == edges[i]);
                assert forall|j: int| i < j < edges.len() implies !((
                #[trigger] edges[j]).parent_id == parent && edges[j].start_id == node) by {
                    if j < n {
                        assert(edges[j] == rest[j]);
                    }
                }
                assert(last_starting(edges, parent, node, i));
            }
            if exists|i: int| last_starting(edges, parent, node, i) {
                let i = choose|i: int| last_starting(edges, parent, node, i);
                assert(rest[i] == edges[i]);
                assert forall|j: int| i < j < rest.len() implies !((
                #[trigger] rest[j]).parent_id == parent && rest[j].start_id == node) by {
                    assert(edges[j] == rest[j]);
                }
                assert(last_starting(rest, parent, node, i));
            }
        }
    }
}

proof fn lemma_numbered(edges: Seq<EdgeMetaRow>, k: int)
    requires
        numbers_fit(edges),
        0 <= k < edges.len(),
    ensures
        ({
            let idx = edges[k].edge_idx as u32;
            let m = indexed(edges).stable_id;
            &&& m.contains_key(idx)
            &&& exists|i: int|
                #[trigger] last_numbered(edges, idx, i) && m[idx] == edges[i].stable_id@
        }),
    decreases edges.len(),
{
    let idx = edges[k].edge_idx as u32;
    let rest = edges.drop_last();
    let n = edges.len() - 1;
    assert(edges[n] == edges.last());
    if edges.last().edge_idx == idx {
        assert(last_numbered(edges, idx, n));
    } else {
        assert(numbers_fit(rest)) by {
            assert forall|i: int| 0 <= i < rest.len() implies 0 <= (#[trigger] rest[i]).edge_idx
                <= u32::MAX by {
                assert(rest[i] == edges[i]);
            }
        }
        lemma_numbered(rest, k);
        let i = choose|i: int|
            #[trigger] last_numbered(rest, idx, i) && indexed(rest).stable_id[idx]
                == rest[i].stable_id@;
        assert(rest[i] == edges[i]);
        assert forall|j: int| i < j < edges.len() implies (#[trigger] edges[j]).edge_idx != idx by {
            if j < n {
                assert(edges[j] == rest[j]);
            }
        }
        assert(last_numbered(edges, idx, i));
    }
}

/// Whether `name` is the stable id of the last edge with a number.
pub open spec fn names_edge(edges: Seq<EdgeMetaRow>, idx: u32, name: Seq<char>) -> bool {
    exists|i: int| #[trigger] last_numbered(edges, idx, i) && name == edges[i].stable_id@
}

/// Whether a restriction was resolved to its edges: the last edge of its first parent that
/// ends at its node, and the last edge of its second parent that starts there, under their
/// numbers and stable ids, in the tile of its node.
pub open spec fn speaks_of(
    edges: Seq<EdgeMetaRow>,
    to_tile: Map<u128, (u32, u32)>,
    row: RestrictionRow,
    r: ResolvedModel,
) -> bool {
    &&& r.via_id == row.via_id
    &&& 0 <= row.flags <= u8::MAX ==> r.flags == row.flags
    &&& to_tile.contains_key(id_number(row.via_id@))
    &&& r.via_tile == to_tile[id_number(row.via_id@)]
    &&& exists|i: int|
        #[trigger] last_ending(edges, row.from_id, row.via_id, i) && r.from_edge_idx
            == edges[i].edge_idx
    &&& exists|i: int|
        #[trigger] last_starting(edges, row.to_id, row.via_id, i) && r.to_edge_idx
            == edges[i].edge_idx
    &&& names_edge(edges, r.from_edge_idx, r.from_stable_id)
    &&& names_edge(edges, r.to_edge_idx, r.to_stable_id)
}

/// A restriction is resolved to the edges that it speaks of. It is not resolved only where
/// no edge of its first parent ends at its node, or none of its second starts there, or the
/// tile of the node is not known.
pub proof fn law_restrictions_resolve_to_their_edges(
    edges: Seq<EdgeMetaRow>,
    to_tile: Map<u128, (u32, u32)>,
    row: RestrictionRow,
)
    requires
        numbers_fit(edges),
    ensures
        (match resolved_of(indexed(edges), to_tile, row) {
            Some(r) => speaks_of(edges, to_tile, row, r),
            None => {
                ||| !to_tile.contains_key(id_number(row.via_id@))
                ||| forall|i: int|
                    0 <= i < edges.len() ==> !((#[trigger] edges[i]).parent_id == row.from_id
                        && edges[i].end_id == row.via_id)
                ||| forall|i: int|
                    0 <= i < edges.len() ==> !((#[trigger] edges[i]).parent_id == row.to_id
                        && edges[i].start_id == row.via_id)
            },
        }),
{
    lemma_ending(edges, row.from_id, row.via_id);
    lemma_starting(edges, row.to_id, row.via_id);
    match resolved_of(indexed(edges), to_tile, row) {
        Some(r) => {
            let i = choose|i: int|
                #[trigger] last_ending(edges, row.from_id, row.via_id, i) && r.from_edge_idx
                    == edges[i].edge_idx;
            let j = choose|j: int|
                #[trigger] last_starting(edges, row.to_id, row.via_id, j) && r.to_edge_idx
                    == edges[j].edge_idx;
            lemma_numbered(edges, i);
            lemma_numbered(edges, j);
            assert(edges[i].edge_idx as u32 == r.from_edge_idx);
            assert(edges[j].edge_idx as u32 == r.to_edge_idx);
            assert(names_edge(edges, r.from_edge_idx, r.from_stable_id));
            assert(names_edge(edges, r.to_edge_idx, r.to_stable_id));
        },
        None => {
            if exists|i: int|
                0 <= i < edges.len() && (#[trigger] edges[i]).parent_id == row.from_id
                    && edges[i].end_id == row.via_id {
                let i = choose|i: int|
                    0 <= i < edges.len() && (#[trigger] edges[i]).parent_id == row.from_id
                        && edges[i].end_id == row.via_id;
                lemma_some_last_ending(edges, row.from_id, row.via_id, i);
            }
            if exists|i: int|
                0 <= i < edges.len() && (#[trigger] edges[i]).parent_id == row.to_id
                    && edges[i].start_id == row.via_id {
                let i = choose|i: int|
                    0 <= i < edges.len() && (#[trigger] edges[i]).parent_id == row.to_id
                        && edges[i].start_id == row.via_id;
                lemma_some_last_starting(edges, row.to_id, row.via_id, i);
            }
        },
    }
}

proof fn lemma_some_last_ending(
    edges: Seq<EdgeMetaRow>,
    parent: ElementId,
    node: ElementId,
    i: int,
)
    requires
        0 <= i < edges.len(),
        edges[i].parent_id == parent && edges[i].end_id == node,
    ensures
        exists|j: int| last_ending(edges, parent, node, j),
    decreases edges.len() - i,
{
    if !last_ending(edges, parent, node, i) {
        let j = choose|j: int|
            i < j < edges.len() && (#[trigger] edges[j]).parent_id == parent && edges[j].end_id
                == node;
        lemma_some_last_ending(edges, parent, node, j);
    }
}

proof fn lemma_some_last_starting(
    edges: Seq<EdgeMetaRow>,
    parent: ElementId,
    node: ElementId,
    i: int,
)
    requires
        0 <= i < edges.len(),
        edges[i].parent_id == parent && edges[i].start_id == node,
    ensures
        exists|j: int| last_starting(edges, parent, node, j),
    decreases edges.len() - i,
{
    if !last_starting(edges, parent, node, i) {
        let j = choose|j: int|
            i < j < edges.len() && (#[trigger] edges[j]).parent_id == parent && edges[j].start_id
                == node;
        lemma_some_last_starting(edges, parent, node, j);
    }
}

/// Each restriction is resolved for itself: those of two lists, one after the other, are
/// resolved as those of the first and then those of the second, and one alone gives what it
/// is resolved to, or nothing.
pub proof fn law_restrictions_resolve_one_by_one(
    x: EdgeIndexModel,
    to_tile: Map<u128, (u32, u32)>,
    a: Seq<RestrictionRow>,
    b: Seq<RestrictionRow>,
    row: RestrictionRow,
)
    ensures
        all_resolved(x, to_tile, a + b) == all_resolved(x, to_tile, a) + all_resolved(
            x,
            to_tile,
            b,
        ),
        (match resolved_of(x, to_tile, row) {
            Some(r) => all_resolved(x, to_tile, seq![row]) == seq![r],
            None => all_resolved(x, to_tile, seq![row]).len() == 0,
        }),
    decreases b.len(),
{
    let one = seq![row];
    assert(one.drop_last() =~= Seq::empty());
    reveal_with_fuel(all_resolved, 2);
    if b.len() > 0 {
        law_restrictions_resolve_one_by_one(x, to_tile, a, b.drop_last(), row);
        assert((a + b).drop_last() =~= a + b.drop_last());
        assert(all_resolved(x, to_tile, a + b) =~= all_resolved(x, to_tile, a) + all_resolved(
            x,
            to_tile,
            b,
        ));
    } else {
        assert(a + b =~= a);
        assert(all_resolved(x, to_tile, a) + all_resolved(x, to_tile, b) =~= all_resolved(
            x,
            to_tile,
            a,
        ));
    }
}

proof fn lemma_places_below(v: Seq<ResolvedModel>, x: u32, y: u32)
    requires
        v.len() <= usize::MAX,
    ensures
        forall|i: int|
            0 <= i < places_at(v, x, y).len() ==> #[trigger] places_at(v, x, y)[i] < v.len(),
    decreases v.len(),
{
    if v.len() > 0 {
        let rest = places_at(v.drop_last(), x, y);
        lemma_places_below(v.drop_last(), x, y);
        assert forall|i: int|
            0 <= i < places_at(v, x, y).len() implies #[trigger] places_at(v, x, y)[i]
            < v.len() by {
            if i < rest.len() {
                assert(places_at(v, x, y)[i] == rest[i]);
            }
        }
    }
}

/// A tile is given the restrictions whose node lies in it, all of them and in their order.
pub proof fn law_tiles_get_the_restrictions_of_their_nodes(v: Seq<ResolvedModel>, x: u32, y: u32)
    requires
        v.len() <= usize::MAX,
    ensures
        at_tile(v, x, y) == v.filter(|r: ResolvedModel| r.via_tile == (x, y)),
    decreases v.len(),
{
    reveal(Seq::filter);
    let here = |r: ResolvedModel| r.via_tile == (x, y);
    if v.len() > 0 {
        let rest = v.drop_last();
        law_tiles_get_the_restrictions_of_their_nodes(rest, x, y);
        lemma_places_below(rest, x, y);
        let before = at_tile(rest, x, y);
        let after = at_tile(v, x, y);
        let p = places_at(rest, x, y);
        let q = places_at(v, x, y);
        assert forall|i: int| 0 <= i < before.len() implies after[i] == before[i] by {
            assert(q[i] == p[i]);
            assert(p[i] < rest.len());
        }
        if v.last().via_tile == (x, y) {
            assert(after =~= before.push(v.last()));
        } else {
            assert(after =~= before);
        }
    } else {
        assert(at_tile(v, x, y) =~= v.filter(here));
    }
}

/// Whether `k` is the place of the last edge with a number.
pub open spec fn is_local(edges: Seq<LmEdge>, idx: u32, k: u32) -> bool {
    &&& k < edges.len()
    &&& edges[k as int].edge_idx == idx
    &&& forall|j: int| k < j < edges.len() ==> (#[trigger] edges[j]).edge_idx != idx
}

proof fn lemma_local(edges: Seq<LmEdge>, idx: u32)
    requires
        edges.len() < 0x1_0000_0000,
    ensures
        (match local_of(edges, idx) {
            Some(k) => is_local(edges, idx, k),
            None => forall|j: int| 0 <= j < edges.len() ==> (#[trigger] edges[j]).edge_idx != idx,
        }),
    decreases edges.len(),
{
    if edges.len() > 0 {
        let rest = edges.drop_last();
        lemma_local(rest, idx);
        let n = edges.len() - 1;
        assert(edges[n] == edges.last());
        if edges.last().edge_idx != idx {
            match local_of(rest, idx) {
                Some(k) => {
                    assert(rest[k as int] == edges[k as int]);
                    assert forall|j: int| k < j < edges.len() implies (
                    #[trigger] edges[j]).edge_idx != idx by {
                        if j < n {
                            assert(rest[j] == edges[j]);
                        }
                    }
                },
                None => {
                    assert forall|j: int| 0 <= j < edges.len() implies (
                    #[trigger] edges[j]).edge_idx != idx by {
                        if j < n {
                            assert(rest[j] == edges[j]);
                        }
                    }
                },
            }
        }
    }
}

/// Whether an edge with this number is among some edges.
pub open spec fn has_edge(edges: Seq<LmEdge>, idx: u32) -> bool {
    exists|j: int| 0 <= j < edges.len() && (#[trigger] edges[j]).edge_idx == idx
}

/// Whether a restriction within a tile says what the resolved one says, in places of the
/// tile's edges and nodes.
pub open spec fn says_locally(
    edges: Seq<LmEdge>,
    order: Seq<ElementId>,
    r: ResolvedModel,
    i: LmIntraTile,
) -> bool {
    &&& is_local(edges, r.from_edge_idx, i.from_seg)
    &&& is_local(edges, r.to_edge_idx, i.to_seg)
    &&& i.via_node < order.len()
    &&& order[i.via_node as int] == r.via_id
    &&& i.flags == r.flags
}

/// Whether a restriction across tiles says what the resolved one says, by stable ids.
pub open spec fn says_by_name(order: Seq<ElementId>, r: ResolvedModel, c: CrossOut) -> bool {
    &&& c.from == encode_utf8(r.from_stable_id)
    &&& c.to == encode_utf8(r.to_stable_id)
    &&& c.via < order.len()
    &&& order[c.via as int] == r.via_id
    &&& c.flags == r.flags
}

proof fn lemma_place_of(order: Seq<ElementId>, id: ElementId)
    requires
        order.no_duplicates(),
        order.len() < 0x1_0000_0000,
    ensures
        place_index(order).contains_key(id_number(id@)) <==> order.contains(id),
        order.contains(id) ==> {
            let k = place_index(order)[id_number(id@)];
            k < order.len() && order[k as int] == id
        },
    decreases order.len(),
{
    if order.len() > 0 {
        let rest = order.drop_last();
        let last = order.last();
        lemma_place_of(rest, id);
        assert(order[order.len() - 1] == last);
        if id_number(last@) == id_number(id@) {
            lemma_id_number_injective(last, id);
        } else {
            if rest.contains(id) {
                let k = choose|k: int| 0 <= k < rest.len() && rest[k] == id;
                assert(order[k] == id);
            }
            if order.contains(id) {
                let k = choose|k: int| 0 <= k < order.len() && order[k] == id;
                assert(k < rest.len());
                assert(rest[k] == id);
            }
        }
    }
}

/// What one restriction becomes in a tile that lists its nodes in this order. Where the
/// tile has its node and both of its edges, it is one between two edges of the tile; where
/// the tile has its node but not both edges, it is one by stable ids; and otherwise the tile
/// has nothing of it.
pub proof fn law_restrictions_enter_the_tile(
    edges: Seq<LmEdge>,
    order: Seq<ElementId>,
    r: ResolvedModel,
)
    requires
        edges.len() < 0x1_0000_0000,
        order.len() < 0x1_0000_0000,
        order.no_duplicates(),
    ensures
        ({
            let intra = intra_of(edges, place_index(order), seq![r]);
            let cross = cross_of(edges, place_index(order), seq![r]);
            let both = has_edge(edges, r.from_edge_idx) && has_edge(edges, r.to_edge_idx);
            &&& intra.len() == if order.contains(r.via_id) && both {
                1nat
            } else {
                0
            }
            &&& cross.len() == if order.contains(r.via_id) && !both {
                1nat
            } else {
                0
            }
            &&& intra.len() == 1 ==> says_locally(edges, order, r, intra[0])
            &&& cross.len() == 1 ==> says_by_name(order, r, cross[0])
        }),
{
    let one = seq![r];
    assert(one.drop_last() =~= Seq::empty());
    reveal_with_fuel(intra_of, 2);
    reveal_with_fuel(cross_of, 2);
    lemma_local(edges, r.from_edge_idx);
    lemma_local(edges, r.to_edge_idx);
    lemma_place_of(order, r.via_id);
    assert(has_edge(edges, r.from_edge_idx) <==> local_of(edges, r.from_edge_idx) is Some) by {
        if let Some(k) = local_of(edges, r.from_edge_idx) {
            assert(edges[k as int].edge_idx == r.from_edge_idx);
        }
    }
    assert(has_edge(edges, r.to_edge_idx) <==> local_of(edges, r.to_edge_idx) is Some) by {
        if let Some(k) = local_of(edges, r.to_edge_idx) {
            assert(edges[k as int].edge_idx == r.to_edge_idx);
        }
    }
}

/// Each restriction enters a tile for itself: what two lists, one after the other, become is
/// what the first becomes and then what the second does.
pub proof fn law_restrictions_enter_one_by_one(
    edges: Seq<LmEdge>,
    places: Map<u128, u32>,
    a: Seq<ResolvedModel>,
    b: Seq<ResolvedModel>,
)
    ensures
        intra_of(edges, places, a + b) == intra_of(edges, places, a) + intra_of(edges, places, b),
        cross_of(edges, places, a + b) == cross_of(edges, places, a) + cross_of(edges, places, b),
    decreases b.len(),
{
    if b.len() > 0 {
        law_restrictions_enter_one_by_one(edges, places, a, b.drop_last());
        assert((a + b).drop_last() =~= a + b.drop_last());
        assert(intra_of(edges, places, a + b) =~= intra_of(edges, places, a) + intra_of(
            edges,
            places,
            b,
        ));
        assert(cross_of(edges, places, a + b) =~= cross_of(edges, places, a) + cross_of(
            edges,
            places,
            b,
        ));
    } else {
        assert(a + b =~= a);
        assert(intra_of(edges, places, a) + intra_of(edges, places, b) =~= intra_of(
            edges,
            places,
            a,
        ));
        assert(cross_of(edges, places, a) + cross_of(edges, places, b) =~= cross_of(
            edges,
            places,
            a,
        ));
    }
}

/// The payload of a tile holds its edges, its nodes in the order in which the edges name
/// them, and what the restrictions of its nodes become there.
pub proof fn law_tiles_hold_what_is_theirs(
    edges: Seq<LmEdge>,
    t: NodeTables,
    x: u32,
    y: u32,
    resolved: Seq<ResolvedModel>,
)
    requires
        resolved.len() <= usize::MAX,
    ensures
        ({
            let plan = tile_plan(edges, t, x, y, resolved);
            let order = nodes_of(edges);
            let here = resolved.filter(|r: ResolvedModel| r.via_tile == (x, y));
            &&& plan.segs.len() == edges.len()
            &&& plan.nodes.len() == order.len()
            &&& plan.intra == intra_of(edges, place_index(order), here)
            &&& plan.cross == cross_of(edges, place_index(order), here)
            &&& forall|i: int|
                0 <= i < edges.len() ==> (#[trigger] plan.segs[i]).geom == edges[i].geom@
                    && plan.segs[i].length_cm == edges[i].length_cm && plan.segs[i].id
                    == encode_utf8(edges[i].stable_id@)
            &&& forall|j: int|
                0 <= j < order.len() ==> {
                    let n = #[trigger] plan.nodes[j];
                    let k = id_number(order[j]@);
                    &&& t.lookup@.contains_key(k) ==> (n.lon, n.lat) == t.lookup@[k]
                    &&& t.stable_id@.contains_key(k) ==> n.id == encode_utf8(t.stable_id@[k]@)
                    &&& n.is_boundary <==> !(t.to_tile@.contains_key(k) && t.to_tile@[k] == (x, y))
                }
        }),
{
    law_tiles_get_the_restrictions_of_their_nodes(resolved, x, y);
}

/// The tiles that an index counts are those that hold an edge.
pub proof fn law_tiles_with_edges_are_counted(edges: Seq<EdgeMetaRow>, t: u64)
    requires
        forall|i: int| 0 <= i < edges.len() ==> 0 <= (#[trigger] edges[i]).tile_id,
    ensures
        indexed(edges).tiles.contains(t) <==> exists|i: int|
            0 <= i < edges.len() && (#[trigger] edges[i]).tile_id == t,
    decreases edges.len(),
{
    if edges.len() > 0 {
        let rest = edges.drop_last();
        assert forall|i: int| 0 <= i < rest.len() implies 0 <= (#[trigger] rest[i]).tile_id by {
            assert(rest[i] == edges[i]);
        }
        law_tiles_with_edges_are_counted(rest, t);
        let n = edges.len() - 1;
        assert(0 <= edges[n].tile_id);
        if indexed(rest).tiles.contains(t) {
            let i = choose|i: int| 0 <= i < rest.len() && (#[trigger] rest[i]).tile_id == t;
            assert(edges[i].tile_id == t);
        }
        if exists|i: int| 0 <= i < edges.len() && (#[trigger] edges[i]).tile_id == t {
            let i = choose|i: int| 0 <= i < edges.len() && (#[trigger] edges[i]).tile_id == t;
            if i < n {
                assert(rest[i].tile_id == t);
            }
        }
    }
}

/// Of an id a tile holds as much, from its start, as a length in one byte can tell of.
pub proof fn law_ids_are_cut_where_they_are_too_long(id: Seq<u8>, start: Seq<u8>)
    ensures
        clipped(id).is_prefix_of(id),
        clipped(id).len() < 256,
        start.is_prefix_of(id) && start.len() < 256 ==> start.len() <= clipped(id).len(),
        id.len() < 256 ==> clipped(id) == id,
{
}

} // verus!
