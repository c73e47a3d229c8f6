//! The junctions and roads that a click on the map may mean.
use vstd::prelude::*;

use crate::graph::{Graph, GraphModel, NodeId, SegmentId};
use crate::oracle::{answer, lemma_answer, settled};
use crate::waypoint::{
    near_by, projections_by, Place, Projecting, Projection, WAYPOINT_SNAP_RADIUS_UM,
};

verus! {

/// A junction and a place.
#[derive(Debug, Clone, Copy, PartialEq, Eq, Structural)]
pub struct NodeAndPlace {
    pub node: NodeId,
    pub place: Place,
}

/// Two places.
#[derive(Debug, Clone, Copy, PartialEq, Eq, Structural)]
pub struct TwoPlaces {
    pub a: Place,
    pub b: Place,
}

/// A place that a click may mean: a junction (`kind` is `"node"`) or a point of a road
/// (`kind` is `"segment"`).
#[derive(Debug)]
pub struct NearbyAnchor {
    pub kind: &'static str,
    pub node_id: Option<NodeId>,
    pub segment_id: Option<SegmentId>,
    /// The distance from the click, in micrometres.
    pub distance_um: u64,
    pub point: Place,
    pub frc: Option<u8>,
    pub fow: Option<u8>,
    pub stable_id: Option<String>,
}

/// What a `NearbyAnchor` holds.
#[verifier::ext_equal]
pub struct AnchorModel {
    pub kind: Seq<char>,
    pub node_id: Option<NodeId>,
    pub segment_id: Option<SegmentId>,
    pub distance_um: u64,
    pub point: Place,
    pub frc: Option<u8>,
    pub fow: Option<u8>,
    pub stable_id: Option<Seq<char>>,
}

impl View for NearbyAnchor {
    type V = AnchorModel;

    open spec fn view(&self) -> AnchorModel {
        AnchorModel {
            kind: self.kind@,
            node_id: self.node_id,
            segment_id: self.segment_id,
            distance_um: self.distance_um,
            point: self.point,
            frc: self.frc,
            fow: self.fow,
            stable_id: match self.stable_id {
                Some(s) => Some(s@),
                None => None,
            },
        }
    }
}

/// What each anchor of a list holds.
pub open spec fn models(v: Seq<NearbyAnchor>) -> Seq<AnchorModel> {
    Seq::new(v.len(), |i: int| v[i]@)
}

/// The distances of nodes from places.
pub open spec fn distances_by<D: Fn(NodeAndPlace) -> Option<u64>>(distance: D) -> spec_fn(
    NodeAndPlace,
) -> Option<u64> {
    |q: NodeAndPlace| answer(distance, q)
}

/// Which places are close together.
pub open spec fn closeness_by<C: Fn(TwoPlaces) -> bool>(close: C) -> spec_fn(TwoPlaces) -> bool {
    |q: TwoPlaces| answer(close, q)
}

/// `sorted` with `x` put behind all that are no farther than it.
pub open spec fn placed(sorted: Seq<AnchorModel>, x: AnchorModel) -> Seq<AnchorModel>
    decreases sorted.len(),
{
    if sorted.len() == 0 || sorted.last().distance_um <= x.distance_um {
        sorted.push(x)
    } else {
        placed(sorted.drop_last(), x).push(sorted.last())
    }
}

/// The anchors by distance, nearest first. Those at one distance stay in their order.
pub open spec fn nearest_first(v: Seq<AnchorModel>) -> Seq<AnchorModel>
    decreases v.len(),
{
    if v.len() == 0 {
        v
    } else {
        placed(nearest_first(v.drop_last()), v.last())
    }
}

/// The anchor at a node.
pub open spec fn node_anchor(g: GraphModel, n: NodeId, distance_um: u64) -> AnchorModel {
    AnchorModel {
        kind: "node"@,
        node_id: Some(n),
        segment_id: None,
        distance_um,
        point: Place { lon: g.nodes[n.0].lon, lat: g.nodes[n.0].lat },
        frc: None,
        fow: None,
        stable_id: None,
    }
}

/// The anchor at a point of a segment.
pub open spec fn segment_anchor(g: GraphModel, id: SegmentId, p: Projection) -> AnchorModel {
    AnchorModel {
        kind: "segment"@,
        node_id: None,
        segment_id: Some(id),
        distance_um: p.distance_um,
        point: p.point,
        frc: Some(g.segments[id.0].frc),
        fow: Some(g.segments[id.0].fow),
        stable_id: Some(g.segments[id.0].stable_id),
    }
}

/// The nodes seen so far, and the anchors among them.
#[verifier::ext_equal]
pub struct Gathered {
    pub seen: Set<u32>,
    pub list: Seq<AnchorModel>,
}

/// What is gathered with another node: an anchor if it is new, is within reach and is in
/// the graph.
pub open spec fn gathering(
    g: GraphModel,
    place: Place,
    so_far: Gathered,
    n: NodeId,
    distance: spec_fn(NodeAndPlace) -> Option<u64>,
) -> Gathered {
    if so_far.seen.contains(n.0) {
        so_far
    } else {
        let seen = so_far.seen.insert(n.0);
        match distance(NodeAndPlace { node: n, place }) {
            Some(d) => if d <= WAYPOINT_SNAP_RADIUS_UM && g.nodes.contains_key(n.0) {
                Gathered { seen, list: so_far.list.push(node_anchor(g, n, d)) }
            } else {
                Gathered { seen, list: so_far.list }
            },
            None => Gathered { seen, list: so_far.list },
        }
    }
}

/// What is gathered from the ends of the first `n` segments of a list.
pub open spec fn gathered(
    g: GraphModel,
    place: Place,
    around: Seq<(SegmentId, u64)>,
    n: int,
    distance: spec_fn(NodeAndPlace) -> Option<u64>,
) -> Gathered
    decreases n,
{
    if n <= 0 {
        Gathered { seen: Set::empty(), list: Seq::empty() }
    } else {
        let so_far = gathered(g, place, around, n - 1, distance);
        let id = around[n - 1].0.0;
        if g.segments.contains_key(id) {
            let s = g.segments[id];
            gathering(
                g,
                place,
                gathering(g, place, so_far, s.start_node, distance),
                s.end_node,
                distance,
            )
        } else {
            so_far
        }
    }
}

/// The anchors on the first `n` segments of a list.
pub open spec fn segment_anchors(
    g: GraphModel,
    place: Place,
    around: Seq<(SegmentId, u64)>,
    n: int,
    project: spec_fn(Projecting) -> Option<Projection>,
) -> Seq<AnchorModel>
    decreases n,
{
    if n <= 0 {
        Seq::empty()
    } else {
        let head = segment_anchors(g, place, around, n - 1, project);
        let id = around[n - 1].0;
        if g.segments.contains_key(id.0) {
            match project(Projecting { place, segment: id }) {
                Some(p) => head.push(segment_anchor(g, id, p)),
                None => head,
            }
        } else {
            head
        }
    }
}

/// Whether one of the anchors is close to a point.
pub open spec fn has_close(
    list: Seq<AnchorModel>,
    point: Place,
    close: spec_fn(TwoPlaces) -> bool,
) -> bool {
    exists|i: int|
        0 <= i < list.len() && close(TwoPlaces { a: (#[trigger] list[i]).point, b: point })
}

/// `list` with those of the first `n` candidates that are close to nothing listed before
/// them.
pub open spec fn with_apart(
    list: Seq<AnchorModel>,
    more: Seq<AnchorModel>,
    n: int,
    close: spec_fn(TwoPlaces) -> bool,
) -> Seq<AnchorModel>
    decreases n,
{
    if n <= 0 {
        list
    } else {
        let so_far = with_apart(list, more, n - 1, close);
        if has_close(so_far, more[n - 1].point, close) {
            so_far
        } else {
            so_far.push(more[n - 1])
        }
    }
}

/// The anchors near a place: the junctions, nearest first, and behind them the points of
/// roads that are close to nothing listed before them, nearest first.
pub open spec fn anchors_at(
    g: GraphModel,
    place: Place,
    near: spec_fn(Place) -> Seq<(SegmentId, u64)>,
    distance: spec_fn(NodeAndPlace) -> Option<u64>,
    project: spec_fn(Projecting) -> Option<Projection>,
    close: spec_fn(TwoPlaces) -> bool,
) -> Seq<AnchorModel> {
    let around = near(place);
    let n = around.len() as int;
    let on_roads = nearest_first(segment_anchors(g, place, around, n, project));
    with_apart(
        nearest_first(gathered(g, place, around, n, distance).list),
        on_roads,
        on_roads.len() as int,
        close,
    )
}

proof fn lemma_placed(sorted: Seq<AnchorModel>, x: AnchorModel, p: int)
    requires
        0 <= p <= sorted.len(),
        p > 0 ==> sorted[p - 1].distance_um <= x.distance_um,
        forall|j: int| p <= j < sorted.len() ==> (#[trigger] sorted[j]).distance_um > x.distance_um,
    ensures
        placed(sorted, x) == sorted.insert(p, x),
    decreases sorted.len(),
{
    if p == sorted.len() {
        assert(sorted.insert(p, x) =~= sorted.push(x));
    } else {
        let head = sorted.drop_last();
        assert(sorted.last() == sorted[sorted.len() - 1]);
        lemma_placed(head, x, p);
        assert(sorted.insert(p, x) =~= head.insert(p, x).push(sorted.last()));
    }
}

proof fn lemma_models_remove(v: Seq<NearbyAnchor>, i: int)
    requires
        0 <= i < v.len(),
    ensures
        models(v.remove(i)) == models(v).remove(i),
{
    assert(models(v.remove(i)) =~= models(v).remove(i));
}

/// Sort by distance, nearest first. Those at one distance stay in their order.
fn sort_by_distance(v: &mut Vec<NearbyAnchor>)
    ensures
        models(final(v)@) == nearest_first(models(old(v)@)),
{
    let ghost all = models(v@);
    let n: usize = v.len();
    let mut i: usize = 0;
    assert(models(v@) =~= nearest_first(all.take(0)) + all.skip(0));
    while i < n
        invariant
            i <= n,
            n == v@.len(),
            n == all.len(),
            nearest_first(all.take(i as int)).len() == i,
            models(v@) == nearest_first(all.take(i as int)) + all.skip(i as int),
        decreases n - i,
    {
        let ghost sorted = nearest_first(all.take(i as int));
        let ghost before = v@;
        let x: NearbyAnchor = v.remove(i);
        let mut p: usize = i;
        proof {
            lemma_models_remove(before, i as int);
            assert(models(before)[i as int] == all[i as int]);
            assert(models(v@) =~= sorted + all.skip(i + 1));
        }
        while p > 0 && v[p - 1].distance_um > x.distance_um
            invariant
                p <= i,
                i < n,
                v@.len() == n - 1,
                n == all.len(),
                sorted.len() == i,
                models(v@) == sorted + all.skip(i + 1),
                forall|j: int|
                    p <= j < sorted.len() ==> (#[trigger] sorted[j]).distance_um > x.distance_um,
            decreases p,
        {
            assert(models(v@)[p - 1] == sorted[p - 1]);
            p -= 1;
        }
        proof {
            if p > 0 {
                assert(models(v@)[p - 1] == sorted[p - 1]);
            }
            lemma_placed(sorted, x@, p as int);
            assert(all.take(i + 1).drop_last() =~= all.take(i as int));
        }
        let ghost rest = v@;
        v.insert(p, x);
        proof {
            assert(models(v@) =~= models(rest).insert(p as int, x@));
            assert(models(v@) =~= nearest_first(all.take(i + 1)) + all.skip(i + 1));
        }
        i += 1;
    }
    assert(all.take(n as int) =~= all);
    assert(all.skip(n as int) =~= Seq::empty());
    assert(nearest_first(all) + Seq::empty() =~= nearest_first(all));
}

fn gather<D: Fn(NodeAndPlace) -> Option<u64>>(
    graph: &Graph,
    place: Place,
    seen: &mut std::collections::HashSet<u32>,
    list: &mut Vec<NearbyAnchor>,
    n: NodeId,
    distance: &D,
)
    requires
        forall|q: NodeAndPlace| call_requires(*distance, (q,)),
    ensures
        settled(*distance) ==> (Gathered { seen: final(seen)@, list: models(final(list)@) })
            == gathering(
            graph@,
            place,
            (Gathered { seen: old(seen)@, list: models(old(list)@) }),
            n,
            distances_by(*distance),
        ),
{
    broadcast use vstd::std_specs::hash::group_hash_axioms;

    if seen.contains(&n.0) {
        return;
    }
    seen.insert(n.0);
    let q = NodeAndPlace { node: n, place };
    let d: Option<u64> = distance(q);
    proof {
        lemma_answer(*distance, q, d);
    }
    match d {
        Some(d) => {
            if d > WAYPOINT_SNAP_RADIUS_UM {
                return;
            }
            match graph.node(n) {
                Some(node) => {
                    let ghost before = list@;
                    let a = NearbyAnchor {
                        kind: "node",
                        node_id: Some(n),
                        segment_id: None,
                        distance_um: d,
                        point: Place { lon: node.lon, lat: node.lat },
                        frc: None,
                        fow: None,
                        stable_id: None,
                    };
                    assert(a@ =~= node_anchor(graph@, n, d));
                    list.push(a);
                    assert(models(list@) =~= models(before).push(a@));
                },
                None => {},
            }
        },
        None => {},
    }
}

fn find_close<C: Fn(TwoPlaces) -> bool>(
    list: &Vec<NearbyAnchor>,
    point: Place,
    close: &C,
) -> (r: bool)
    requires
        forall|q: TwoPlaces| call_requires(*close, (q,)),
    ensures
        settled(*close) ==> r == has_close(models(list@), point, closeness_by(*close)),
{
    let mut i: usize = 0;
    while i < list.len()
        invariant
            i <= list@.len(),
            forall|q: TwoPlaces| call_requires(*close, (q,)),
            settled(*close) ==> forall|j: int|
                0 <= j < i ==> !closeness_by(*close)(
                    TwoPlaces { a: (#[trigger] models(list@)[j]).point, b: point },
                ),
        decreases list@.len() - i,
    {
        let q = TwoPlaces { a: list[i].point, b: point };
        let c: bool = close(q);
        proof {
            lemma_answer(*close, q, c);
            assert(models(list@)[i as int].point == q.a);
        }
        if c {
            return true;
        }
        i += 1;
    }
    false
}

/// The junctions that a click at `place` may mean, nearest first, and behind them the
/// points of roads, nearest first.
///
/// Junctions within the snap radius come in once each. A point of a road is left out
/// where it is close to a junction, or to a nearer point of a road, that is listed: the
/// end of a road, or the same road in the other direction.
///
/// `near` tells the segments near a place, `distance` how far a node is from a place,
/// `project` the nearest point of a segment, and `close` whether two places are too
/// close together to be told apart.
pub fn nearby_anchors<
    N: Fn(Place) -> Vec<(SegmentId, u64)>,
    D: Fn(NodeAndPlace) -> Option<u64>,
    J: Fn(Projecting) -> Option<Projection>,
    C: Fn(TwoPlaces) -> bool,
>(graph: &Graph, place: Place, near: &N, distance: &D, project: &J, close: &C) -> (r: Vec<
    NearbyAnchor,
>)
    requires
        forall|p: Place| call_requires(*near, (p,)),
        forall|q: NodeAndPlace| call_requires(*distance, (q,)),
        forall|q: Projecting| call_requires(*project, (q,)),
        forall|q: TwoPlaces| call_requires(*close, (q,)),
    ensures
        settled(*near) && settled(*distance) && settled(*project) && settled(*close) ==> models(r@)
            == anchors_at(
            graph@,
            place,
            near_by(*near),
            distances_by(*distance),
            projections_by(*project),
            closeness_by(*close),
        ),
{
    let around: Vec<(SegmentId, u64)> = near(place);
    proof {
        lemma_answer(*near, place, around);
    }
    let n: usize = around.len();
    let mut seen: std::collections::HashSet<u32> = std::collections::HashSet::new();
    let mut list: Vec<NearbyAnchor> = Vec::new();
    let mut on_roads: Vec<NearbyAnchor> = Vec::new();
    assert(models(list@) =~= Seq::empty());
    let mut i: usize = 0;
    broadcast use vstd::std_specs::hash::group_hash_axioms;

    while i < n
        invariant
            i <= n,
            n == around@.len(),
            forall|q: NodeAndPlace| call_requires(*distance, (q,)),
            forall|q: Projecting| call_requires(*project, (q,)),
            settled(*distance) ==> (Gathered { seen: seen@, list: models(list@) }) == gathered(
                graph@,
                place,
                around@,
                i as int,
                distances_by(*distance),
            ),
            settled(*project) ==> models(on_roads@) == segment_anchors(
                graph@,
                place,
                around@,
                i as int,
                projections_by(*project),
            ),
        decreases n - i,
    {
        let id: SegmentId = around[i].0;
        match graph.segment(id) {
            Some(s) => {
                gather(graph, place, &mut seen, &mut list, s.start_node, distance);
                gather(graph, place, &mut seen, &mut list, s.end_node, distance);
                let q = Projecting { place, segment: id };
                let p: Option<Projection> = project(q);
                proof {
                    lemma_answer(*project, q, p);
                }
                match p {
                    Some(p) => {
                        let ghost before = on_roads@;
                        let a = NearbyAnchor {
                            kind: "segment",
                            node_id: None,
                            segment_id: Some(id),
                            distance_um: p.distance_um,
                            point: p.point,
                            frc: Some(s.frc),
                            fow: Some(s.fow),
                            stable_id: Some(s.stable_id.clone()),
                        };
                        assert(a@ =~= segment_anchor(graph@, id, p));
                        on_roads.push(a);
                        assert(models(on_roads@) =~= models(before).push(a@));
                    },
                    None => {},
                }
            },
            None => {},
        }
        i += 1;
    }
    sort_by_distance(&mut list);
    sort_by_distance(&mut on_roads);
    let ghost nodes = models(list@);
    let ghost roads = models(on_roads@);
    let ghost mut k: int = 0;
    assert(roads.skip(0) =~= roads);
    while on_roads.len() > 0
        invariant
            0 <= k <= roads.len(),
            models(on_roads@) == roads.skip(k),
            forall|q: TwoPlaces| call_requires(*close, (q,)),
            settled(*close) ==> models(list@) == with_apart(
                nodes,
                roads,
                k,
                closeness_by(*close),
            ),
        decreases on_roads@.len(),
    {
        let ghost before = on_roads@;
        let c: NearbyAnchor = on_roads.remove(0);
        proof {
            lemma_models_remove(before, 0);
            assert(models(before)[0] == roads[k]);
            assert(models(on_roads@) =~= roads.skip(k + 1));
            k = k + 1;
        }
        if !find_close(&list, c.point, close) {
            let ghost listed = list@;
            let ghost m = c@;
            list.push(c);
            assert(models(list@) =~= models(listed).push(m));
        }
    }
    assert(models(on_roads@).len() == 0);
    list
}

/// Those of the anchors that are at a distance.
pub open spec fn at_distance(v: Seq<AnchorModel>, d: u64) -> Seq<AnchorModel>
    decreases v.len(),
{
    if v.len() == 0 {
        v
    } else if v.last().distance_um == d {
        at_distance(v.drop_last(), d).push(v.last())
    } else {
        at_distance(v.drop_last(), d)
    }
}

/// Whether no anchor is nearer than the one before it.
pub open spec fn by_distance(v: Seq<AnchorModel>) -> bool {
    forall|i: int, j: int|
        0 <= i <= j < v.len() ==> (#[trigger] v[i]).distance_um <= (#[trigger] v[j]).distance_um
}

proof fn lemma_placed_sorts(sorted: Seq<AnchorModel>, x: AnchorModel)
    requires
        by_distance(sorted),
    ensures
        by_distance(placed(sorted, x)),
        placed(sorted, x).len() == sorted.len() + 1,
        forall|i: int|
            0 <= i < placed(sorted, x).len() ==> (#[trigger] placed(sorted, x)[i]) == x
                || exists|j: int| 0 <= j < sorted.len() && sorted[j] == placed(sorted, x)[i],
        placed(sorted, x).to_multiset() == sorted.to_multiset().insert(x),
    decreases sorted.len(),
{
    broadcast use vstd::seq_lib::group_to_multiset_ensures;

    if sorted.len() == 0 || sorted.last().distance_um <= x.distance_um {
    } else {
        let head = sorted.drop_last();
        lemma_placed_sorts(head, x);
        let r = placed(sorted, x);
        assert forall|i: int| 0 <= i < r.len() implies (#[trigger] r[i]) == x || exists|j: int|
            0 <= j < sorted.len() && sorted[j] == r[i] by {
            if i < r.len() - 1 {
                assert(r[i] == placed(head, x)[i]);
                if r[i] != x {
                    let j = choose|j: int| 0 <= j < head.len() && head[j] == placed(head, x)[i];
                    assert(sorted[j] == r[i]);
                }
            } else {
                assert(sorted[sorted.len() - 1] == r[i]);
            }
        }
        assert(sorted =~= head.push(sorted.last()));
        assert forall|i: int, j: int| 0 <= i <= j < r.len() implies (#[trigger] r[i]).distance_um
            <= (#[trigger] r[j]).distance_um by {
            if i < r.len() - 1 {
                assert(r[i] == placed(head, x)[i]);
            }
            if j < r.len() - 1 {
                assert(r[j] == placed(head, x)[j]);
            }
        }
        assert(r.to_multiset() =~= sorted.to_multiset().insert(x));
    }
}

proof fn lemma_placed_keeps_order(sorted: Seq<AnchorModel>, x: AnchorModel, d: u64)
    requires
        by_distance(sorted),
    ensures
        at_distance(placed(sorted, x), d) == at_distance(sorted.push(x), d),
    decreases sorted.len(),
{
    assert(sorted.push(x).drop_last() =~= sorted);
    if sorted.len() == 0 || sorted.last().distance_um <= x.distance_um {
    } else {
        let head = sorted.drop_last();
        lemma_placed_keeps_order(head, x, d);
        let r = placed(sorted, x);
        assert(r.drop_last() =~= placed(head, x));
        assert(head.push(x).drop_last() =~= head);
        reveal_with_fuel(at_distance, 3);
    }
}

/// Sorting puts the nearest first, keeps every anchor as often as it was there, and keeps
/// the order of those at one distance.
pub proof fn law_sorting_is_stable(v: Seq<AnchorModel>, d: u64)
    ensures
        by_distance(nearest_first(v)),
        nearest_first(v).to_multiset() == v.to_multiset(),
        at_distance(nearest_first(v), d) == at_distance(v, d),
    decreases v.len(),
{
    broadcast use vstd::seq_lib::group_to_multiset_ensures;

    if v.len() > 0 {
        let head = v.drop_last();
        let sorted = nearest_first(head);
        law_sorting_is_stable(head, d);
        lemma_placed_sorts(sorted, v.last());
        lemma_placed_keeps_order(sorted, v.last(), d);
        assert(sorted.push(v.last()).drop_last() =~= sorted);
        assert(v =~= head.push(v.last()));
        assert(nearest_first(v).to_multiset() =~= v.to_multiset());
    }
}

/// No road is listed that is close to an anchor listed before it, and the anchors
/// gathered first all stay.
pub proof fn law_listed_roads_are_apart(
    list: Seq<AnchorModel>,
    more: Seq<AnchorModel>,
    n: int,
    close: spec_fn(TwoPlaces) -> bool,
)
    requires
        n <= more.len(),
    ensures
        ({
            let r = with_apart(list, more, n, close);
            &&& list.len() <= r.len()
            &&& r.take(list.len() as int) == list
            &&& forall|i: int, j: int|
                0 <= i < j < r.len() && list.len() <= j ==> !close(
                    TwoPlaces { a: (#[trigger] r[i]).point, b: (#[trigger] r[j]).point },
                )
        }),
    decreases n,
{
    if n <= 0 {
        assert(list.take(list.len() as int) =~= list);
    } else {
        law_listed_roads_are_apart(list, more, n - 1, close);
        let so_far = with_apart(list, more, n - 1, close);
        let r = with_apart(list, more, n, close);
        assert(r.take(list.len() as int) =~= so_far.take(list.len() as int));
        assert forall|i: int, j: int|
            0 <= i < j < r.len() && list.len() <= j implies !close(
            TwoPlaces { a: (#[trigger] r[i]).point, b: (#[trigger] r[j]).point },
        ) by {
            assert(r[i] == so_far[i]);
            if j < so_far.len() {
                assert(r[j] == so_far[j]);
            }
        }
    }
}

/// Each junction is gathered once, and is in the graph and within reach.
pub proof fn law_junctions_are_listed_once(
    g: GraphModel,
    place: Place,
    around: Seq<(SegmentId, u64)>,
    n: int,
    distance: spec_fn(NodeAndPlace) -> Option<u64>,
)
    ensures
        listed_once(g, gathered(g, place, around, n, distance)),
    decreases n,
{
    if n > 0 {
        law_junctions_are_listed_once(g, place, around, n - 1, distance);
    }
}

/// Whether the anchors are distinct junctions of the graph within reach, all of them
/// seen.
pub open spec fn listed_once(g: GraphModel, so_far: Gathered) -> bool {
    &&& forall|i: int|
        0 <= i < so_far.list.len() ==> (#[trigger] so_far.list[i]).node_id is Some
            && so_far.seen.contains(so_far.list[i].node_id->Some_0.0) && g.nodes.contains_key(
            so_far.list[i].node_id->Some_0.0,
        ) && so_far.list[i].distance_um <= WAYPOINT_SNAP_RADIUS_UM
    &&& forall|i: int, j: int|
        0 <= i < j < so_far.list.len() ==> (#[trigger] so_far.list[i]).node_id != (
        #[trigger] so_far.list[j]).node_id
}

proof fn lemma_sorting_keeps_members(v: Seq<AnchorModel>)
    ensures
        nearest_first(v).len() == v.len(),
        forall|i: int|
            0 <= i < v.len() ==> exists|j: int|
                0 <= j < v.len() && v[j] == #[trigger] nearest_first(v)[i],
    decreases v.len(),
{
    if v.len() > 0 {
        let head = v.drop_last();
        let sorted = nearest_first(head);
        lemma_sorting_keeps_members(head);
        law_sorting_is_stable(head, 0);
        lemma_placed_sorts(sorted, v.last());
        let r = nearest_first(v);
        assert forall|i: int| 0 <= i < v.len() implies exists|j: int|
            0 <= j < v.len() && v[j] == #[trigger] r[i] by {
            if r[i] == v.last() {
                assert(v[v.len() - 1] == r[i]);
            } else {
                let k = choose|k: int| 0 <= k < sorted.len() && sorted[k] == r[i];
                let j = choose|j: int| 0 <= j < head.len() && head[j] == sorted[k];
                assert(v[j] == r[i]);
            }
        }
    }
}

proof fn lemma_anchors_are_of_their_kind(
    g: GraphModel,
    place: Place,
    around: Seq<(SegmentId, u64)>,
    n: int,
    distance: spec_fn(NodeAndPlace) -> Option<u64>,
    project: spec_fn(Projecting) -> Option<Projection>,
)
    ensures
        forall|i: int|
            0 <= i < gathered(g, place, around, n, distance).list.len() ==> (
            #[trigger] gathered(g, place, around, n, distance).list[i]).kind == "node"@,
        forall|i: int|
            0 <= i < segment_anchors(g, place, around, n, project).len() ==> (
            #[trigger] segment_anchors(g, place, around, n, project)[i]).kind == "segment"@,
    decreases n,
{
    if n > 0 {
        lemma_anchors_are_of_their_kind(g, place, around, n - 1, distance, project);
    }
}

proof fn lemma_added_stay_sorted(
    list: Seq<AnchorModel>,
    more: Seq<AnchorModel>,
    n: int,
    close: spec_fn(TwoPlaces) -> bool,
)
    requires
        n <= more.len(),
        by_distance(more),
    ensures
        ({
            let r = with_apart(list, more, n, close);
            &&& list.len() <= r.len()
            &&& by_distance(r.skip(list.len() as int))
            &&& forall|i: int|
                list.len() <= i < r.len() ==> exists|j: int|
                    0 <= j < n && more[j] == #[trigger] r[i]
        }),
    decreases n,
{
    if n > 0 {
        lemma_added_stay_sorted(list, more, n - 1, close);
        let so_far = with_apart(list, more, n - 1, close);
        let r = with_apart(list, more, n, close);
        let k = list.len() as int;
        assert forall|i: int| k <= i < r.len() implies exists|j: int|
            0 <= j < n && more[j] == #[trigger] r[i] by {
            if i < so_far.len() {
                assert(r[i] == so_far[i]);
                let j = choose|j: int| 0 <= j < n - 1 && more[j] == so_far[i];
                assert(more[j] == r[i]);
            } else {
                assert(more[n - 1] == r[i]);
            }
        }
        let tail = r.skip(k);
        assert forall|i: int, j: int| 0 <= i <= j < tail.len() implies (
        #[trigger] tail[i]).distance_um <= (#[trigger] tail[j]).distance_um by {
            if j + k < so_far.len() {
                assert(tail[i] == so_far.skip(k)[i] && tail[j] == so_far.skip(k)[j]);
            } else {
                assert(tail[j] == more[n - 1]);
                let m = choose|m: int| 0 <= m < n && more[m] == r[i + k];
                assert(more[m] == tail[i]);
            }
        }
    }
}

/// The anchors near a place are junctions first and points of roads behind them, each of
/// the two nearest first. No junction is listed twice, each is in the graph and within
/// reach, and no point of a road is close to an anchor listed before it.
pub proof fn law_junctions_come_first_and_nearest_first(
    g: GraphModel,
    place: Place,
    near: spec_fn(Place) -> Seq<(SegmentId, u64)>,
    distance: spec_fn(NodeAndPlace) -> Option<u64>,
    project: spec_fn(Projecting) -> Option<Projection>,
    close: spec_fn(TwoPlaces) -> bool,
)
    ensures
        ({
            let around = near(place);
            let k = gathered(g, place, around, around.len() as int, distance).list.len() as int;
            let r = anchors_at(g, place, near, distance, project, close);
            &&& k <= r.len()
            &&& forall|i: int| 0 <= i < k ==> (#[trigger] r[i]).kind == "node"@
            &&& forall|i: int| k <= i < r.len() ==> (#[trigger] r[i]).kind == "segment"@
            &&& by_distance(r.take(k))
            &&& by_distance(r.skip(k))
            &&& forall|i: int|
                0 <= i < k ==> (#[trigger] r[i]).node_id is Some && g.nodes.contains_key(
                    r[i].node_id->Some_0.0,
                ) && r[i].distance_um <= WAYPOINT_SNAP_RADIUS_UM
            &&& forall|i: int, j: int|
                0 <= i < j < k ==> (#[trigger] r[i]).node_id != (#[trigger] r[j]).node_id
            &&& forall|i: int, j: int|
                0 <= i < j < r.len() && k <= j ==> !close(
                    TwoPlaces { a: (#[trigger] r[i]).point, b: (#[trigger] r[j]).point },
                )
        }),
{
    let around = near(place);
    let n = around.len() as int;
    let nodes = gathered(g, place, around, n, distance).list;
    let roads = segment_anchors(g, place, around, n, project);
    let listed = nearest_first(nodes);
    let on_roads = nearest_first(roads);
    let r = anchors_at(g, place, near, distance, project, close);
    law_sorting_is_stable(nodes, 0);
    law_sorting_is_stable(roads, 0);
    law_junctions_are_listed_once(g, place, around, n, distance);
    lemma_sorting_keeps_members(nodes);
    lemma_sorting_keeps_members(roads);
    lemma_anchors_are_of_their_kind(g, place, around, n, distance, project);
    law_listed_roads_are_apart(listed, on_roads, on_roads.len() as int, close);
    lemma_added_stay_sorted(listed, on_roads, on_roads.len() as int, close);
    let k = nodes.len() as int;
    assert(forall|i: int| 0 <= i < k ==> #[trigger] r[i] == r.take(k)[i]);
    assert forall|i: int| 0 <= i < k implies (#[trigger] r[i]).kind == "node"@
        && r[i].node_id is Some && g.nodes.contains_key(r[i].node_id->Some_0.0) && r[i].distance_um
        <= WAYPOINT_SNAP_RADIUS_UM by {
        assert(r[i] == listed[i]);
        let j = choose|j: int| 0 <= j < nodes.len() && nodes[j] == listed[i];
    }
    assert forall|i: int| k <= i < r.len() implies (#[trigger] r[i]).kind == "segment"@ by {
        let j = choose|j: int| 0 <= j < on_roads.len() && on_roads[j] == r[i];
        let m = choose|m: int| 0 <= m < roads.len() && roads[m] == on_roads[j];
    }
    lemma_sorting_keeps_distinct(nodes);
    assert forall|i: int, j: int| 0 <= i < j < k implies (#[trigger] r[i]).node_id != (
    #[trigger] r[j]).node_id by {
        assert(r[i] == listed[i] && r[j] == listed[j]);
    }
}

proof fn lemma_sorting_keeps_distinct(v: Seq<AnchorModel>)
    requires
        forall|i: int, j: int|
            0 <= i < j < v.len() ==> (#[trigger] v[i]).node_id != (#[trigger] v[j]).node_id,
    ensures
        forall|i: int, j: int|
            0 <= i < j < v.len() ==> (#[trigger] nearest_first(v)[i]).node_id != (
            #[trigger] nearest_first(v)[j]).node_id,
    decreases v.len(),
{
    if v.len() > 0 {
        let head = v.drop_last();
        let sorted = nearest_first(head);
        lemma_sorting_keeps_distinct(head);
        lemma_sorting_keeps_members(head);
        assert forall|i: int| 0 <= i < sorted.len() implies (#[trigger] sorted[i]).node_id
            != v.last().node_id by {
            let j = choose|j: int| 0 <= j < head.len() && head[j] == sorted[i];
            assert(v[j] == head[j]);
            assert(v[v.len() - 1] == v.last());
        }
        lemma_placed_keeps_distinct(sorted, v.last());
        lemma_sorting_keeps_members(v);
    }
}

proof fn lemma_placed_keeps_distinct(sorted: Seq<AnchorModel>, x: AnchorModel)
    requires
        forall|i: int, j: int|
            0 <= i < j < sorted.len() ==> (#[trigger] sorted[i]).node_id != (
            #[trigger] sorted[j]).node_id,
        forall|i: int| 0 <= i < sorted.len() ==> (#[trigger] sorted[i]).node_id != x.node_id,
    ensures
        placed(sorted, x).len() == sorted.len() + 1,
        forall|i: int|
            0 <= i <= sorted.len() ==> (#[trigger] placed(sorted, x)[i]).node_id == x.node_id
                || exists|j: int|
                0 <= j < sorted.len() && sorted[j].node_id == placed(sorted, x)[i].node_id,
        forall|i: int, j: int|
            0 <= i < j <= sorted.len() ==> (#[trigger] placed(sorted, x)[i]).node_id != (
            #[trigger] placed(sorted, x)[j]).node_id,
    decreases sorted.len(),
{
    let r = placed(sorted, x);
    if sorted.len() == 0 || sorted.last().distance_um <= x.distance_um {
        assert forall|i: int| 0 <= i <= sorted.len() implies (#[trigger] r[i]).node_id == x.node_id
            || exists|j: int| 0 <= j < sorted.len() && sorted[j].node_id == r[i].node_id by {
            if i < sorted.len() {
                assert(sorted[i].node_id == r[i].node_id);
            }
        }
    } else {
        let head = sorted.drop_last();
        lemma_placed_keeps_distinct(head, x);
        assert(sorted[sorted.len() - 1] == sorted.last());
        assert forall|i: int| 0 <= i <= sorted.len() implies (#[trigger] r[i]).node_id == x.node_id
            || exists|j: int| 0 <= j < sorted.len() && sorted[j].node_id == r[i].node_id by {
            if i < sorted.len() {
                assert(r[i] == placed(head, x)[i]);
                if r[i].node_id != x.node_id {
                    let j = choose|j: int|
                        0 <= j < head.len() && head[j].node_id == placed(head, x)[i].node_id;
                    assert(sorted[j].node_id == r[i].node_id);
                }
            } else {
                assert(sorted[sorted.len() - 1].node_id == r[i].node_id);
            }
        }
        assert forall|i: int, j: int| 0 <= i < j <= sorted.len() implies (#[trigger] r[i]).node_id
            != (#[trigger] r[j]).node_id by {
            assert(r[i] == placed(head, x)[i]);
            if j < sorted.len() {
                assert(r[j] == placed(head, x)[j]);
            } else {
                assert(r[j] == sorted.last());
                if r[i].node_id != x.node_id {
                    let m = choose|m: int|
                        0 <= m < head.len() && head[m].node_id == placed(head, x)[i].node_id;
                    assert(sorted[m] == head[m]);
                }
            }
        }
    }
}

/// Whether node `n` is an end of one of the segments around a place.
pub open spec fn is_around(g: GraphModel, around: Seq<(SegmentId, u64)>, n: NodeId) -> bool {
    exists|i: int|
        {
            &&& 0 <= i < around.len()
            &&& g.segments.contains_key((#[trigger] around[i]).0.0)
            &&& g.segments[around[i].0.0].start_node == n || g.segments[around[i].0.0].end_node == n
        }
}

/// Whether node `n` is known and within 50 metres of a place.
pub open spec fn is_in_reach(
    g: GraphModel,
    place: Place,
    n: NodeId,
    distance: spec_fn(NodeAndPlace) -> Option<u64>,
) -> bool {
    &&& g.nodes.contains_key(n.0)
    &&& distance(NodeAndPlace { node: n, place }) matches Some(d) && d <= 50_000_000
}

/// Whether an anchor is a junction around a place, as far as it is and where it is.
pub open spec fn is_junction(
    g: GraphModel,
    place: Place,
    around: Seq<(SegmentId, u64)>,
    distance: spec_fn(NodeAndPlace) -> Option<u64>,
    a: AnchorModel,
) -> bool {
    &&& a.kind == "node"@
    &&& a.node_id matches Some(n) && {
        &&& is_around(g, around, n)
        &&& is_in_reach(g, place, n, distance)
        &&& distance(NodeAndPlace { node: n, place }) == Some(a.distance_um)
        &&& a.point.lon == g.nodes[n.0].lon
        &&& a.point.lat == g.nodes[n.0].lat
    }
    &&& a.segment_id is None && a.frc is None && a.fow is None && a.stable_id is None
}

/// Whether an anchor is the point of segment `id` that a place is projected to, with what
/// the network knows of the segment.
pub open spec fn is_point_of(
    g: GraphModel,
    place: Place,
    id: SegmentId,
    project: spec_fn(Projecting) -> Option<Projection>,
    a: AnchorModel,
) -> bool {
    &&& g.segments.contains_key(id.0)
    &&& a.kind == "segment"@
    &&& a.segment_id == Some(id)
    &&& a.node_id is None
    &&& project(Projecting { place, segment: id }) matches Some(p) && a.distance_um
        == p.distance_um && a.point == p.point
    &&& a.frc == Some(g.segments[id.0].frc)
    &&& a.fow == Some(g.segments[id.0].fow)
    &&& a.stable_id == Some(g.segments[id.0].stable_id)
}

/// Whether an anchor is a point of one of the segments around a place.
pub open spec fn is_on_road(
    g: GraphModel,
    place: Place,
    around: Seq<(SegmentId, u64)>,
    project: spec_fn(Projecting) -> Option<Projection>,
    a: AnchorModel,
) -> bool {
    exists|i: int|
        0 <= i < around.len() && is_point_of(g, place, (#[trigger] around[i]).0, project, a)
}

/// What is known of the junctions gathered from the first segments around a place.
spec fn gathered_right(
    g: GraphModel,
    place: Place,
    around: Seq<(SegmentId, u64)>,
    distance: spec_fn(NodeAndPlace) -> Option<u64>,
    got: Gathered,
) -> bool {
    &&& forall|i: int|
        0 <= i < got.list.len() ==> is_junction(
            g,
            place,
            around,
            distance,
            #[trigger] got.list[i],
        )
    &&& forall|n: NodeId| #[trigger]
        got.seen.contains(n.0) && is_in_reach(g, place, n, distance) ==> lists_node(got.list, n)
}

/// Whether a node is among some anchors.
pub open spec fn lists_node(v: Seq<AnchorModel>, n: NodeId) -> bool {
    exists|i: int| 0 <= i < v.len() && (#[trigger] v[i]).node_id == Some(n)
}

proof fn lemma_gathering(
    g: GraphModel,
    place: Place,
    around: Seq<(SegmentId, u64)>,
    distance: spec_fn(NodeAndPlace) -> Option<u64>,
    got: Gathered,
    n: NodeId,
)
    requires
        gathered_right(g, place, around, distance, got),
        is_around(g, around, n),
    ensures
        gathered_right(g, place, around, distance, gathering(g, place, got, n, distance)),
        gathering(g, place, got, n, distance).seen == got.seen.insert(n.0),
{
    let more = gathering(g, place, got, n, distance);
    assert(more.seen =~= got.seen.insert(n.0));
    assert forall|i: int| 0 <= i < more.list.len() implies is_junction(
        g,
        place,
        around,
        distance,
        #[trigger] more.list[i],
    ) by {
        if i < got.list.len() {
            assert(more.list[i] == got.list[i]);
        }
    }
    assert forall|m: NodeId| #[trigger]
        more.seen.contains(m.0) && is_in_reach(g, place, m, distance) implies lists_node(
        more.list,
        m,
    ) by {
        if got.seen.contains(m.0) {
            let i = choose|i: int|
                0 <= i < got.list.len() && (#[trigger] got.list[i]).node_id == Some(m);
            assert(more.list[i].node_id == Some(m));
        } else {
            assert(m.0 == n.0);
            assert(m == n);
            assert(more.list[more.list.len() - 1].node_id == Some(m));
        }
    }
}

proof fn lemma_gathered(
    g: GraphModel,
    place: Place,
    around: Seq<(SegmentId, u64)>,
    n: int,
    distance: spec_fn(NodeAndPlace) -> Option<u64>,
)
    requires
        0 <= n <= around.len(),
    ensures
        gathered_right(g, place, around, distance, gathered(g, place, around, n, distance)),
        forall|i: int|
            0 <= i < n && g.segments.contains_key((#[trigger] around[i]).0.0) ==> gathered(
                g,
                place,
                around,
                n,
                distance,
            ).seen.contains(g.segments[around[i].0.0].start_node.0) && gathered(
                g,
                place,
                around,
                n,
                distance,
            ).seen.contains(g.segments[around[i].0.0].end_node.0),
    decreases n,
{
    if n > 0 {
        lemma_gathered(g, place, around, n - 1, distance);
        let so_far = gathered(g, place, around, n - 1, distance);
        let id = around[n - 1].0.0;
        if g.segments.contains_key(id) {
            let s = g.segments[id];
            assert(is_around(g, around, s.start_node));
            assert(is_around(g, around, s.end_node));
            lemma_gathering(g, place, around, distance, so_far, s.start_node);
            let one = gathering(g, place, so_far, s.start_node, distance);
            lemma_gathering(g, place, around, distance, one, s.end_node);
        }
    }
}

proof fn lemma_on_roads(
    g: GraphModel,
    place: Place,
    around: Seq<(SegmentId, u64)>,
    n: int,
    project: spec_fn(Projecting) -> Option<Projection>,
)
    requires
        0 <= n <= around.len(),
    ensures
        ({
            let v = segment_anchors(g, place, around, n, project);
            &&& forall|i: int|
                0 <= i < v.len() ==> is_on_road(g, place, around, project, #[trigger] v[i])
            &&& forall|i: int|
                0 <= i < n && g.segments.contains_key((#[trigger] around[i]).0.0) && project(
                    Projecting { place, segment: around[i].0 },
                ) is Some ==> lists_road(g, place, around[i].0, project, v)
        }),
    decreases n,
{
    if n > 0 {
        lemma_on_roads(g, place, around, n - 1, project);
        let before = segment_anchors(g, place, around, n - 1, project);
        let v = segment_anchors(g, place, around, n, project);
        let id = around[n - 1].0;
        assert forall|i: int| 0 <= i < v.len() implies is_on_road(
            g,
            place,
            around,
            project,
            #[trigger] v[i],
        ) by {
            if i < before.len() {
                assert(v[i] == before[i]);
            } else {
                assert(is_point_of(g, place, around[n - 1].0, project, v[i]));
            }
        }
        assert forall|i: int|
            0 <= i < n && g.segments.contains_key((#[trigger] around[i]).0.0) && project(
                Projecting { place, segment: around[i].0 },
            ) is Some implies lists_road(g, place, around[i].0, project, v) by {
            if i < n - 1 {
                let j = choose|j: int|
                    0 <= j < before.len() && is_point_of(
                        g,
                        place,
                        around[i].0,
                        project,
                        #[trigger] before[j],
                    );
                assert(v[j] == before[j]);
            } else {
                assert(is_point_of(g, place, id, project, v[v.len() - 1]));
            }
        }
    }
}

/// Whether a point of segment `id` is among some anchors.
pub open spec fn lists_road(
    g: GraphModel,
    place: Place,
    id: SegmentId,
    project: spec_fn(Projecting) -> Option<Projection>,
    v: Seq<AnchorModel>,
) -> bool {
    exists|i: int| 0 <= i < v.len() && is_point_of(g, place, id, project, #[trigger] v[i])
}

proof fn lemma_sorting_keeps_all(v: Seq<AnchorModel>, i: int)
    requires
        0 <= i < v.len(),
    ensures
        exists|j: int| 0 <= j < v.len() && #[trigger] nearest_first(v)[j] == v[i],
{
    broadcast use vstd::seq_lib::group_to_multiset_ensures;

    law_sorting_is_stable(v, 0);
    lemma_sorting_keeps_members(v);
    assert(v.contains(v[i]));
    assert(v.to_multiset().contains(v[i]));
    assert(nearest_first(v).to_multiset().contains(v[i]));
    assert(nearest_first(v).contains(v[i]));
}

proof fn lemma_apart_or_close(
    list: Seq<AnchorModel>,
    more: Seq<AnchorModel>,
    n: int,
    close: spec_fn(TwoPlaces) -> bool,
    k: int,
)
    requires
        0 <= k < n <= more.len(),
    ensures
        ({
            let r = with_apart(list, more, n, close);
            r.contains(more[k]) || has_close(r, more[k].point, close)
        }),
    decreases n,
{
    let so_far = with_apart(list, more, n - 1, close);
    let r = with_apart(list, more, n, close);
    if k < n - 1 {
        lemma_apart_or_close(list, more, n - 1, close, k);
        if so_far.contains(more[k]) {
            let i = choose|i: int| 0 <= i < so_far.len() && so_far[i] == more[k];
            assert(r[i] == more[k]);
        } else {
            let i = choose|i: int|
                0 <= i < so_far.len() && close(
                    TwoPlaces { a: (#[trigger] so_far[i]).point, b: more[k].point },
                );
            assert(r[i] == so_far[i]);
        }
    } else if !has_close(so_far, more[k].point, close) {
        assert(r[r.len() - 1] == more[k]);
    }
}

/// The anchors near a place are what is near it. Each is a junction at an end of a road
/// around the place, known and within 50 metres, or the point of such a road that the place
/// is projected to, with the distance, place and attributes of that junction or road. Every
/// such junction is listed, and every such road too, unless an anchor close to its point is.
pub proof fn law_anchors_are_what_is_near(
    g: GraphModel,
    place: Place,
    near: spec_fn(Place) -> Seq<(SegmentId, u64)>,
    distance: spec_fn(NodeAndPlace) -> Option<u64>,
    project: spec_fn(Projecting) -> Option<Projection>,
    close: spec_fn(TwoPlaces) -> bool,
)
    ensures
        ({
            let around = near(place);
            let r = anchors_at(g, place, near, distance, project, close);
            &&& forall|i: int|
                0 <= i < r.len() ==> is_junction(g, place, around, distance, #[trigger] r[i])
                    || is_on_road(g, place, around, project, r[i])
            &&& forall|n: NodeId| #[trigger]
                is_around(g, around, n) && is_in_reach(g, place, n, distance) ==> lists_node(r, n)
            &&& forall|i: int|
                0 <= i < around.len() && g.segments.contains_key((#[trigger] around[i]).0.0)
                    && project(Projecting { place, segment: around[i].0 }) is Some ==> lists_road(
                    g,
                    place,
                    around[i].0,
                    project,
                    r,
                ) || has_close(
                    r,
                    project(Projecting { place, segment: around[i].0 })->Some_0.point,
                    close,
                )
        }),
{
    let around = near(place);
    let n = around.len() as int;
    let got = gathered(g, place, around, n, distance);
    let nodes = got.list;
    let roads = segment_anchors(g, place, around, n, project);
    let listed = nearest_first(nodes);
    let on_roads = nearest_first(roads);
    let m = on_roads.len() as int;
    let r = anchors_at(g, place, near, distance, project, close);
    lemma_gathered(g, place, around, n, distance);
    lemma_on_roads(g, place, around, n, project);
    lemma_sorting_keeps_members(nodes);
    lemma_sorting_keeps_members(roads);
    law_sorting_is_stable(roads, 0);
    law_listed_roads_are_apart(listed, on_roads, m, close);
    lemma_added_stay_sorted(listed, on_roads, m, close);
    let k = listed.len() as int;
    assert forall|i: int| 0 <= i < r.len() implies is_junction(
        g,
        place,
        around,
        distance,
        #[trigger] r[i],
    ) || is_on_road(g, place, around, project, r[i]) by {
        if i < k {
            assert(r[i] == r.take(k)[i]);
            assert(r[i] == listed[i]);
            let j = choose|j: int| 0 <= j < nodes.len() && nodes[j] == listed[i];
            assert(is_junction(g, place, around, distance, nodes[j]));
        } else {
            let j = choose|j: int| 0 <= j < m && on_roads[j] == r[i];
            let h = choose|h: int| 0 <= h < roads.len() && roads[h] == on_roads[j];
            assert(is_on_road(g, place, around, project, roads[h]));
        }
    }
    assert forall|x: NodeId| #[trigger]
        is_around(g, around, x) && is_in_reach(g, place, x, distance) implies lists_node(r, x) by {
        let i = choose|i: int|
            {
                &&& 0 <= i < around.len()
                &&& g.segments.contains_key((#[trigger] around[i]).0.0)
                &&& g.segments[around[i].0.0].start_node == x || g.segments[around[i].0.0].end_node
                    == x
            };
        assert(got.seen.contains(x.0));
        let j = choose|j: int| 0 <= j < nodes.len() && (#[trigger] nodes[j]).node_id == Some(x);
        lemma_sorting_keeps_all(nodes, j);
        let h = choose|h: int| 0 <= h < nodes.len() && #[trigger] listed[h] == nodes[j];
        assert(r.take(k)[h] == r[h]);
        assert(r[h].node_id == Some(x));
    }
    assert forall|i: int|
        0 <= i < around.len() && g.segments.contains_key((#[trigger] around[i]).0.0) && project(
            Projecting { place, segment: around[i].0 },
        ) is Some implies lists_road(g, place, around[i].0, project, r) || has_close(
        r,
        project(Projecting { place, segment: around[i].0 })->Some_0.point,
        close,
    ) by {
        let j = choose|j: int|
            0 <= j < roads.len() && is_point_of(
                g,
                place,
                around[i].0,
                project,
                #[trigger] roads[j],
            );
        lemma_sorting_keeps_all(roads, j);
        let h = choose|h: int| 0 <= h < roads.len() && #[trigger] on_roads[h] == roads[j];
        lemma_apart_or_close(listed, on_roads, m, close, h);
        if r.contains(on_roads[h]) {
            let q = choose|q: int| 0 <= q < r.len() && r[q] == on_roads[h];
            assert(is_point_of(g, place, around[i].0, project, r[q]));
        }
    }
}

} // verus!
