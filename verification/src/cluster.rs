//! Growing clusters of triangles over a mesh: taking triangles out of the mesh's
//! connectivity tables and keeping track of each cluster's border.

use crate::fold::{
    map_get, map_insert, map_keys, map_remove, set_contains, set_elements, set_insert,
    set_new, set_remove, EdgeMap, EdgeSet, TriSet,
};
use crate::mesh::{edge_table, generate_data_structures, sorted_tri, tri_count, TempMesh};
use crate::topology::{count3, new_edge, new_tri, spec_edge, spec_tri, Edge, Triangle};
use std::collections::HashMap;
use std::collections::HashSet;
use vstd::prelude::*;

verus! {

/// The entry of an edge once the triangle with opposite corner `opp` is gone: the slot
/// holding `opp` (the first, if both do) becomes `u32::MAX` and the entry is put in
/// ascending order; the flag tells whether the entry is left with no corner at all.
pub open spec fn cleared(v: [u32; 2], opp: u32) -> ([u32; 2], bool) {
    if v[0] == opp {
        (spec_edge(u32::MAX, v[1]), v[1] == u32::MAX)
    } else if v[1] == opp {
        (spec_edge(v[0], u32::MAX), v[0] == u32::MAX)
    } else {
        (spec_edge(v[0], v[1]), false)
    }
}

/// Clears the slot of `opp` in the entry of `key`, if the table has that edge.
pub open spec fn clear_entry(m: Map<Edge, [u32; 2]>, key: Edge, opp: u32) -> (
    Map<Edge, [u32; 2]>,
    bool,
) {
    if m.contains_key(key) {
        (m.insert(key, cleared(m[key], opp).0), cleared(m[key], opp).1)
    } else {
        (m, false)
    }
}

/// The border of the current cluster and the edge table once edge `e` of a removed
/// triangle has been dealt with: an edge left with no triangle leaves the table, and
/// leaves the border too unless it lies on the border of the clusters made so far; any
/// other edge joins the border.
pub open spec fn settle(
    cur: Set<Edge>,
    m: Map<Edge, [u32; 2]>,
    overall: Set<Edge>,
    e: Edge,
    gone: bool,
) -> (Set<Edge>, Map<Edge, [u32; 2]>) {
    if gone {
        (
            if !overall.contains(e) {
                cur.remove(e)
            } else {
                cur.insert(e)
            },
            m.remove(e),
        )
    } else {
        (cur.insert(e), m)
    }
}

/// The edge table and the current border after removing triangle `t`, whose edges
/// `(0,1)`, `(0,2)`, `(1,2)` lose the opposite corners `t[2]`, `t[1]`, `t[0]`.
pub open spec fn after_removal(
    t: Triangle,
    m: Map<Edge, [u32; 2]>,
    overall: Set<Edge>,
    cur: Set<Edge>,
) -> (Set<Edge>, Map<Edge, [u32; 2]>) {
    let e0 = spec_edge(t[0], t[1]);
    let e1 = spec_edge(t[0], t[2]);
    let e2 = spec_edge(t[1], t[2]);
    let (m1, g0) = clear_entry(m, e0, t[2]);
    let (m2, g1) = clear_entry(m1, e1, t[1]);
    let (m3, g2) = clear_entry(m2, e2, t[0]);
    let (c1, n1) = settle(cur, m3, overall, e0, g0);
    let (c2, n2) = settle(c1, n1, overall, e1, g1);
    settle(c2, n2, overall, e2, g2)
}

fn clear_slot(edges: &mut EdgeMap<[u32; 2]>, key: &Edge, opp: u32) -> (gone: bool)
    ensures
        (final(edges)@, gone) == clear_entry(old(edges)@, *key, opp),
{
    match map_get(edges, key) {
        Some(v) => {
            let mut value = v;
            let mut gone = false;
            if value[0] == opp {
                value[0] = u32::MAX;
                if value[1] == u32::MAX {
                    gone = true;
                }
            } else if value[1] == opp {
                value[1] = u32::MAX;
                if value[0] == u32::MAX {
                    gone = true;
                }
            }
            map_insert(edges, *key, new_edge(value[0], value[1]));
            gone
        },
        None => false,
    }
}

fn settle_edge(
    edges: &mut EdgeMap<[u32; 2]>,
    overall_cluster_cut: &EdgeSet,
    cur_cut: &mut EdgeSet,
    e: Edge,
    gone: bool,
)
    ensures
        (final(cur_cut)@, final(edges)@) == settle(
            old(cur_cut)@,
            old(edges)@,
            overall_cluster_cut@,
            e,
            gone,
        ),
{
    if gone {
        if !set_contains(overall_cluster_cut, &e) {
            set_remove(cur_cut, &e);
        } else {
            set_insert(cur_cut, e);
        }
        map_remove(edges, &e);
    } else {
        set_insert(cur_cut, e);
    }
}

/// Takes triangle `tri` out of the mesh: out of the triangle set, out of the entries of
/// its three edges in the edge table, and onto the border `cur_cut` of the cluster being
/// grown (see `after_removal`).
pub fn remove_tri(
    tri: &Triangle,
    tris: &mut TriSet,
    edges: &mut EdgeMap<[u32; 2]>,
    overall_cluster_cut: &mut EdgeSet,
    cur_cut: &mut EdgeSet,
)
    ensures
        final(tris)@ == old(tris)@.remove(*tri),
        final(overall_cluster_cut)@ == old(overall_cluster_cut)@,
        (final(cur_cut)@, final(edges)@) == after_removal(
            *tri,
            old(edges)@,
            old(overall_cluster_cut)@,
            old(cur_cut)@,
        ),
{
    set_remove(tris, tri);
    let edge0 = new_edge(tri[0], tri[1]);
    let edge1 = new_edge(tri[0], tri[2]);
    let edge2 = new_edge(tri[1], tri[2]);
    let remove0 = clear_slot(edges, &edge0, tri[2]);
    let remove1 = clear_slot(edges, &edge1, tri[1]);
    let remove2 = clear_slot(edges, &edge2, tri[0]);
    settle_edge(edges, overall_cluster_cut, cur_cut, edge0, remove0);
    settle_edge(edges, overall_cluster_cut, cur_cut, edge1, remove1);
    settle_edge(edges, overall_cluster_cut, cur_cut, edge2, remove2);
}

/// Triangle position `i` is recorded at all three corners of `tri`.
pub open spec fn recorded_at_corners(
    vertex_map: Map<u32, HashSet<usize>>,
    tri: Triangle,
    i: usize,
) -> bool {
    &&& vertex_map[tri[0]]@.contains(i)
    &&& vertex_map[tri[1]]@.contains(i)
    &&& vertex_map[tri[2]]@.contains(i)
}

/// The table has entries for all three corners of `tri`.
pub open spec fn corners_recorded(vertex_map: Map<u32, HashSet<usize>>, tri: Triangle) -> bool {
    vertex_map.contains_key(tri[0]) && vertex_map.contains_key(tri[1]) && vertex_map.contains_key(tri[2])
}

/// Looks up, through the vertex-to-triangles table, a triangle of the mesh with the
/// corners of `tri`, and returns it as the mesh's triangle list holds it; `None` where a
/// corner has no entry or no triangle has all three corners. The table is searched in
/// the order in which the hash set of `tri[0]` yields its triangles.
pub fn find_order_accurate_tri(
    vertex_map: &HashMap<u32, HashSet<usize>>,
    tri_list: &Vec<Triangle>,
    tri: &Triangle,
) -> (r: Option<Triangle>)
    requires
        forall|i: usize| corners_recorded(vertex_map@, *tri) && #[trigger] recorded_at_corners(vertex_map@, *tri, i) ==> i < tri_list@.len(),
    ensures
        r is Some <==> corners_recorded(vertex_map@, *tri) && exists|i: usize| #[trigger] recorded_at_corners(vertex_map@, *tri, i),
        r matches Some(t) ==> exists|i: usize| #[trigger] recorded_at_corners(vertex_map@, *tri, i) && t == tri_list@[i as int],
{
    let s0 = match vertex_map.get(&tri[0]) {
        Some(s) => s,
        None => return None,
    };
    let s1 = match vertex_map.get(&tri[1]) {
        Some(s) => s,
        None => return None,
    };
    let s2 = match vertex_map.get(&tri[2]) {
        Some(s) => s,
        None => return None,
    };
    for i in it: s0.iter()
        invariant
            corners_recorded(vertex_map@, *tri),
            s0@ == vertex_map@[tri[0]]@,
            s1@ == vertex_map@[tri[1]]@,
            s2@ == vertex_map@[tri[2]]@,
            forall|i: usize| #[trigger] recorded_at_corners(vertex_map@, *tri, i) ==> i < tri_list@.len(),
            forall|k: int| 0 <= k < it.index() ==> !recorded_at_corners(vertex_map@, *tri, *it.seq()[k]),
            it.seq().unref().to_set() == s0@,
        ensures
            forall|w: usize| #[trigger] s0@.contains(w) ==> !recorded_at_corners(vertex_map@, *tri, w),
    {
        assert(it.seq().unref()[it.index() as int] == *i);
        assert(s0@.contains(*i));
        if s1.contains(i) && s2.contains(i) {
            assert(recorded_at_corners(vertex_map@, *tri, *i));
            return Some(tri_list[*i]);
        }
    }
    proof {
        assert forall|w: usize| !#[trigger] recorded_at_corners(vertex_map@, *tri, w) by {
            if recorded_at_corners(vertex_map@, *tri, w) {
                assert(s0@.contains(w));
            }
        }
    }
    None
}

/// Finds, through the vertex-to-triangles table, a triangle of the mesh with the corners
/// of `tri` and returns it as the mesh's triangle list holds it. The table is searched
/// in the order in which the hash set of `tri[0]` yields its triangles.
pub fn get_order_accurate_tri(
    vertex_map: &HashMap<u32, HashSet<usize>>,
    tri_list: &Vec<Triangle>,
    tri: &Triangle,
) -> (r: Triangle)
    requires
        corners_recorded(vertex_map@, *tri),
        exists|i: usize| recorded_at_corners(vertex_map@, *tri, i),
        forall|i: usize| recorded_at_corners(vertex_map@, *tri, i) ==> i < tri_list@.len(),
    ensures
        exists|i: usize| recorded_at_corners(vertex_map@, *tri, i) && r == tri_list@[i as int],
{
    find_order_accurate_tri(vertex_map, tri_list, tri).unwrap()
}

/// The edges of the table with a triangle on one side only: the mesh's outline.
pub open spec fn outline(m: Map<Edge, [u32; 2]>) -> Set<Edge> {
    m.dom().filter(|e: Edge| m[e][0] == u32::MAX || m[e][1] == u32::MAX)
}

/// The edges of the table that have a triangle on one side only.
pub fn boundary_edges(edges: &EdgeMap<[u32; 2]>) -> (r: EdgeSet)
    ensures
        r@ == outline(edges@),
{
    let keys = map_keys(edges);
    let mut r: EdgeSet = set_new();
    let mut i: usize = 0;
    while i < keys.len()
        invariant
            0 <= i <= keys@.len(),
            keys@.to_set() == edges@.dom(),
            r@ == outline(edges@).intersect(keys@.take(i as int).to_set()),
        decreases keys@.len() - i,
    {
        let key = keys[i];
        proof {
            assert(keys@.to_set().contains(key));
            keys@.take(i as int).lemma_push_to_set_commute(key);
            assert(keys@.take(i + 1) =~= keys@.take(i as int).push(key));
        }
        let v = map_get(edges, &key).unwrap();
        if v[0] == u32::MAX || v[1] == u32::MAX {
            set_insert(&mut r, key);
        }
        assert(r@ =~= outline(edges@).intersect(keys@.take(i + 1).to_set()));
        i += 1;
    }
    assert(keys@.take(keys@.len() as int) =~= keys@);
    assert(r@ =~= outline(edges@));
    r
}

/// The number of edges two borders share.
pub fn shared_count(a: &EdgeSet, b: &EdgeSet) -> (r: usize)
    ensures
        r == a@.intersect(b@).len(),
{
    let order = set_elements(a);
    let mut count: usize = 0;
    assert(order@.take(0).to_set().intersect(b@) =~= Set::<Edge>::empty());
    let mut i: usize = 0;
    while i < order.len()
        invariant
            0 <= i <= order@.len(),
            order@.to_set() == a@,
            order@.no_duplicates(),
            count <= i,
            count == order@.take(i as int).to_set().intersect(b@).len(),
        decreases order@.len() - i,
    {
        let x = order[i];
        let ghost before = order@.take(i as int).to_set();
        proof {
            order@.take(i as int).lemma_push_to_set_commute(x);
            assert(order@.take(i + 1) =~= order@.take(i as int).push(x));
            assert(!before.contains(x)) by {
                if before.contains(x) {
                    let k = choose|k: int| 0 <= k < i && order@.take(i as int)[k] == x;
                    assert(order@[k] == order@[i as int]);
                }
            }
            if b@.contains(x) {
                assert(before.insert(x).intersect(b@) =~= before.intersect(b@).insert(x));
            } else {
                assert(before.insert(x).intersect(b@) =~= before.intersect(b@));
            }
        }
        if set_contains(b, &x) {
            count += 1;
        }
        i += 1;
    }
    assert(order@.take(order@.len() as int) =~= order@);
    count
}

/// `x` comes before `y` among a cluster's neighbours: more shared edges first, then
/// the lower cluster number.
pub open spec fn ranks_before(x: (u32, i32), y: (u32, i32)) -> bool {
    x.1 > y.1 || (x.1 == y.1 && x.0 < y.0)
}

fn rank_before(x: (u32, i32), y: (u32, i32)) -> (r: bool)
    ensures
        r == ranks_before(x, y),
{
    x.1 > y.1 || (x.1 == y.1 && x.0 < y.0)
}

/// The list runs in rank order.
pub open spec fn in_rank_order(s: Seq<(u32, i32)>) -> bool {
    forall|i: int, j: int| 0 <= i < j < s.len() ==> ranks_before(s[i], s[j])
}

fn insert_by_rank(v: &mut Vec<(u32, i32)>, x: (u32, i32))
    requires
        in_rank_order(old(v)@),
        forall|i: int| 0 <= i < old(v)@.len() ==> old(v)@[i].0 != x.0,
    ensures
        in_rank_order(final(v)@),
        final(v)@.to_set() == old(v)@.to_set().insert(x),
        final(v)@.len() == old(v)@.len() + 1,
{
    let mut p: usize = 0;
    while p < v.len() && rank_before(v[p], x)
        invariant
            0 <= p <= v@.len(),
            forall|i: int| 0 <= i < p ==> ranks_before(v@[i], x),
        decreases v@.len() - p,
    {
        p += 1;
    }
    let ghost before = v@;
    v.insert(p, x);
    assert(v@ =~= before.take(p as int).push(x) + before.skip(p as int));
    assert forall|i: int, j: int| 0 <= i < j < v@.len() implies ranks_before(v@[i], v@[j]) by {
        if j < p {
        } else if j == p {
        } else if i < p {
            assert(v@[j] == before[j - 1]);
            assert(!ranks_before(before[p as int], x));
            assert(before[p as int].0 != x.0);
            assert(j - 1 == p || ranks_before(before[p as int], before[j - 1]));
        } else if i == p {
            assert(v@[j] == before[j - 1]);
            assert(!ranks_before(before[p as int], x));
            assert(before[p as int].0 != x.0);
            assert(j - 1 == p || ranks_before(before[p as int], before[j - 1]));
        } else {
            assert(v@[j] == before[j - 1]);
            assert(v@[i] == before[i - 1]);
        }
    }
    assert forall|y: (u32, i32)| #[trigger] v@.to_set().contains(y) <==> before.to_set().insert(x).contains(y) by {
        if v@.to_set().contains(y) {
            let k = choose|k: int| 0 <= k < v@.len() && v@[k] == y;
            if k < p {
                assert(before[k] == y);
            } else if k > p {
                assert(before[k - 1] == y);
            }
        }
        if before.to_set().contains(y) {
            let k = choose|k: int| 0 <= k < before.len() && before[k] == y;
            if k < p {
                assert(v@[k] == y);
            } else {
                assert(v@[k + 1] == y);
            }
        }
        if y == x {
            assert(v@[p as int] == x);
        }
    }
    assert(v@.to_set() =~= before.to_set().insert(x));
}

/// The neighbours of cluster `id` among `cuts`: every other cluster whose border shares
/// edges with that of `id`, with the number of edges shared.
pub open spec fn neighbour_pairs(cuts: Seq<Set<Edge>>, id: int) -> Set<(u32, i32)> {
    Set::new(
        |p: (u32, i32)|
            0 <= p.0 < cuts.len() && p.0 != id && cuts[id].intersect(cuts[p.0 as int]).len() > 0
                && p.1 == cuts[id].intersect(cuts[p.0 as int]).len() as i32,
    )
}

/// A cluster of triangles and its border.
pub struct TempCluster {
    /// The cluster's triangles.
    pub mesh: TempMesh,
    /// The cluster's border: the edges of its triangles that it shares with no other of
    /// its triangles, as met while the cluster grew.
    pub cut: EdgeSet,
}

/// A cluster's place among its neighbours at one level of detail.
#[derive(Debug)]
pub struct SharedEdges {
    pub id: u32,
    pub lod: u32,
    /// Each neighbouring cluster with the number of border edges shared with it.
    pub connections: Vec<(u32, i32)>,
}

/// The views of the clusters' borders.
pub open spec fn cut_views(clusters: Seq<TempCluster>) -> Seq<Set<Edge>> {
    clusters.map_values(|c: TempCluster| c.cut@)
}

/// For each cluster, the clusters whose borders share edges with its own, with the
/// number of edges shared, most shared first and then by cluster number.
pub fn shared_edges(cuts: &Vec<TempCluster>) -> (r: HashMap<u32, Vec<(u32, i32)>>)
    requires
        cuts@.len() <= u32::MAX,
    ensures
        forall|id: u32| #[trigger] r@.contains_key(id) <==> id < cuts@.len(),
        forall|id: u32|
            #[trigger] r@.contains_key(id) ==> {
                &&& in_rank_order(r@[id]@)
                &&& r@[id]@.no_duplicates()
                &&& r@[id]@.to_set() == neighbour_pairs(cut_views(cuts@), id as int)
            },
{
    let k = cuts.len();
    let mut shared: HashMap<u32, Vec<(u32, i32)>> = HashMap::new();
    let mut id: usize = 0;
    while id < k
        invariant
            k == cuts@.len(),
            k <= u32::MAX,
            0 <= id <= k,
            forall|x: u32| #[trigger] shared@.contains_key(x) <==> x < id,
            forall|x: u32|
                #[trigger] shared@.contains_key(x) ==> {
                    &&& in_rank_order(shared@[x]@)
                    &&& shared@[x]@.no_duplicates()
                    &&& shared@[x]@.to_set() == neighbour_pairs(cut_views(cuts@), x as int)
                },
        decreases k - id,
    {
        let mut connections: Vec<(u32, i32)> = Vec::new();
        let mut j: usize = 0;
        while j < k
            invariant
                k == cuts@.len(),
                k <= u32::MAX,
                0 <= id < k,
                0 <= j <= k,
                in_rank_order(connections@),
                connections@.len() <= j,
                forall|i: int| 0 <= i < connections@.len() ==> #[trigger] connections@[i].0 < j,
                connections@.to_set() == neighbour_pairs(cut_views(cuts@), id as int).filter(|p: (u32, i32)| p.0 < j),
            decreases k - j,
        {
            if id != j {
                let count = shared_count(&cuts[id].cut, &cuts[j].cut);
                if count > 0 {
                    let pair = (j as u32, #[verifier::truncate] (count as i32));
                    let ghost before = connections@;
                    insert_by_rank(&mut connections, pair);
                    proof {
                        assert forall|i: int| 0 <= i < connections@.len() implies #[trigger] connections@[i].0 < j + 1 by {
                            assert(connections@.to_set().contains(connections@[i]));
                            if connections@[i] != pair {
                                assert(before.to_set().contains(connections@[i]));
                                let q = choose|q: int| 0 <= q < before.len() && before[q] == connections@[i];
                            }
                        }
                    }
                }
            }
            proof {
                let ns = neighbour_pairs(cut_views(cuts@), id as int);
                assert(cut_views(cuts@)[id as int] == cuts@[id as int].cut@);
                assert(cut_views(cuts@)[j as int] == cuts@[j as int].cut@);
                assert(connections@.to_set() =~= ns.filter(|p: (u32, i32)| p.0 < j + 1));
            }
            j += 1;
        }
        proof {
            assert(neighbour_pairs(cut_views(cuts@), id as int).filter(|p: (u32, i32)| p.0 < k) =~= neighbour_pairs(cut_views(cuts@), id as int));
            assert forall|a: int, b: int| 0 <= a < b < connections@.len() implies connections@[a] != connections@[b] by {
                assert(ranks_before(connections@[a], connections@[b]));
            }
        }
        shared.insert(id as u32, connections);
        id += 1;
    }
    shared
}

/// Where splitting a mesh into clusters stops.
#[derive(Debug, Clone, Copy, PartialEq, Eq)]
pub enum SplitError {
    /// The mesh has no triangle to start from.
    EmptyMesh,
    /// The triangle chosen to start a cluster is not (or no longer) in the mesh.
    SeedMissing,
    /// The two sides of a border edge cannot be ordered by distance from the cluster's
    /// start: they lie equally far, or a distance is not a number.
    Equidistant,
    /// A border edge chosen to start the next cluster has no triangle on either side.
    OpenSeedEdge,
    /// No triangle of the mesh has the corners of a triangle taken into a cluster.
    TriangleNotFound,
}

/// Distance keys at or above this value count as out of reach; it is the bit pattern
/// of the largest finite single-precision number.
pub const OUT_OF_REACH: u32 = 0x7f7f_ffff;

/// The key the distance function answers for vertex `v` and start triangle `t`.
pub open spec fn answer<F: Fn(u32, Triangle) -> u32>(f: F, v: u32, t: Triangle) -> u32 {
    choose|r: u32| call_ensures(f, (v, t), r)
}

/// The distance function answers the same for the same question.
pub open spec fn deterministic<F: Fn(u32, Triangle) -> u32>(f: F) -> bool {
    forall|v: u32, t: Triangle, r1: u32, r2: u32|
        #[trigger] call_ensures(f, (v, t), r1) && #[trigger] call_ensures(f, (v, t), r2) ==> r1 == r2
}

/// The distance function can be asked anything.
pub open spec fn total<F: Fn(u32, Triangle) -> u32>(f: F) -> bool {
    forall|v: u32, t: Triangle| #[trigger] call_requires(f, (v, t))
}

/// The key of one side of an edge entry: zero where the side is empty.
pub open spec fn side_key<F: Fn(u32, Triangle) -> u32>(f: F, v: u32, t: Triangle) -> u32 {
    if v == u32::MAX {
        0
    } else {
        answer(f, v, t)
    }
}

/// The bit pattern of positive infinity: keys above it are NaNs, which order with
/// nothing.
pub const INFINITY_KEY: u32 = 0x7f80_0000;

/// The two sides of the entry cannot be told apart: they are not both zero, and they
/// have the same key or one of them is a NaN.
pub open spec fn is_tie<F: Fn(u32, Triangle) -> u32>(f: F, e: [u32; 2], t: Triangle) -> bool {
    let (d0, d1) = (side_key(f, e[0], t), side_key(f, e[1], t));
    !(d0 == 0 && d1 == 0) && (d0 == d1 || d0 > INFINITY_KEY || d1 > INFINITY_KEY)
}

/// The farther side of the entry and its key, where the sides differ and are not both
/// zero.
pub open spec fn far_side<F: Fn(u32, Triangle) -> u32>(f: F, e: [u32; 2], t: Triangle) -> Option<(u32, u32)> {
    let (d0, d1) = (side_key(f, e[0], t), side_key(f, e[1], t));
    if d0 == 0 && d1 == 0 {
        None
    } else if d0 > d1 {
        Some((e[0], d0))
    } else if d1 > d0 {
        Some((e[1], d1))
    } else {
        None
    }
}

/// The border edge `key` offers a triangle, through its farther side, whose key is in
/// reach.
pub open spec fn offers<F: Fn(u32, Triangle) -> u32>(
    f: F,
    cut: Set<Edge>,
    edges: Map<Edge, [u32; 2]>,
    t: Triangle,
    key: Edge,
) -> bool {
    cut.contains(key) && edges.contains_key(key) && far_side(f, edges[key], t) is Some
        && far_side(f, edges[key], t).unwrap().1 < OUT_OF_REACH
}

fn side_distance<F: Fn(u32, Triangle) -> u32>(distance: &F, v: u32, seed: Triangle) -> (d: u32)
    requires
        total(*distance),
        deterministic(*distance),
    ensures
        d == side_key(*distance, v, seed),
{
    if v != u32::MAX {
        let d = distance(v, seed);
        proof {
            let a = answer(*distance, v, seed);
            assert(call_ensures(*distance, (v, seed), a));
        }
        d
    } else {
        0
    }
}

/// The triangle that grows the cluster next: across the border edges, on each edge's
/// farther side, the one whose key is smallest and in reach (`None` if there is none).
/// Where both sides of a border edge have the same non-zero key, the growth stops.
pub fn closest_triangle<F: Fn(u32, Triangle) -> u32>(
    cur_cut: &EdgeSet,
    edges: &EdgeMap<[u32; 2]>,
    distance: &F,
    seed: Triangle,
) -> (r: Result<Option<Triangle>, SplitError>)
    requires
        total(*distance),
        deterministic(*distance),
    ensures
        r is Err <==> exists|key: Edge|
            cur_cut@.contains(key) && edges@.contains_key(key) && #[trigger] is_tie(*distance, edges@[key], seed),
        r is Err ==> r == Err::<Option<Triangle>, SplitError>(SplitError::Equidistant),
        r == Ok::<Option<Triangle>, SplitError>(None) ==> forall|key: Edge| !#[trigger] offers(*distance, cur_cut@, edges@, seed, key),
        r matches Ok(Some(t)) ==> exists|key: Edge| {
            &&& #[trigger] offers(*distance, cur_cut@, edges@, seed, key)
            &&& t == spec_tri(key[0], key[1], far_side(*distance, edges@[key], seed).unwrap().0)
            &&& forall|k2: Edge| #[trigger] offers(*distance, cur_cut@, edges@, seed, k2) ==> far_side(*distance, edges@[key], seed).unwrap().1
                <= far_side(*distance, edges@[k2], seed).unwrap().1
        },
{
    let order = set_elements(cur_cut);
    let ghost cut = cur_cut@;
    let ghost m = edges@;
    let ghost f = *distance;
    let mut lowest_d: u32 = OUT_OF_REACH;
    let mut lowest_t: Triangle = [0, 0, 0];
    let ghost mut lowest_key: Edge = [0, 0];
    let mut i: usize = 0;
    while i < order.len()
        invariant
            0 <= i <= order@.len(),
            order@.to_set() == cut,
            cut == cur_cut@,
            m == edges@,
            f == *distance,
            total(f),
            deterministic(f),
            lowest_d <= OUT_OF_REACH,
            forall|k: int| 0 <= k < i ==> !(m.contains_key(#[trigger] order@[k]) && is_tie(f, m[order@[k]], seed)),
            forall|k: int| 0 <= k < i && offers(f, cut, m, seed, #[trigger] order@[k]) ==> lowest_d <= far_side(f, m[order@[k]], seed).unwrap().1,
            lowest_d < OUT_OF_REACH ==> {
                &&& offers(f, cut, m, seed, lowest_key)
                &&& far_side(f, m[lowest_key], seed).unwrap().1 == lowest_d
                &&& lowest_t == [lowest_key[0], lowest_key[1], far_side(f, m[lowest_key], seed).unwrap().0]
            },
        decreases order@.len() - i,
    {
        let key = order[i];
        proof {
            assert(cut.contains(key));
        }
        match map_get(edges, &key) {
            Some(value) => {
                let d0 = side_distance(distance, value[0], seed);
                let d1 = side_distance(distance, value[1], seed);
                if !(d0 == 0 && d1 == 0) {
                    if d0 > INFINITY_KEY || d1 > INFINITY_KEY {
                        proof {
                            assert(is_tie(f, m[key], seed));
                        }
                        return Err(SplitError::Equidistant);
                    }
                    if d0 > d1 {
                        if d0 < lowest_d {
                            lowest_d = d0;
                            lowest_t = [key[0], key[1], value[0]];
                            proof {
                                lowest_key = key;
                            }
                        }
                    } else if d1 > d0 {
                        if d1 < lowest_d {
                            lowest_d = d1;
                            lowest_t = [key[0], key[1], value[1]];
                            proof {
                                lowest_key = key;
                            }
                        }
                    } else {
                        proof {
                            assert(is_tie(f, m[key], seed));
                        }
                        return Err(SplitError::Equidistant);
                    }
                }
            },
            None => {},
        }
        i += 1;
    }
    proof {
        assert forall|key: Edge| cur_cut@.contains(key) && edges@.contains_key(key) implies !#[trigger] is_tie(*distance, edges@[key], seed) by {
            assert(order@.to_set().contains(key));
            let k = choose|k: int| 0 <= k < order@.len() && order@[k] == key;
        }
        assert forall|k2: Edge| #[trigger] offers(*distance, cur_cut@, edges@, seed, k2) implies lowest_d <= far_side(*distance, edges@[k2], seed).unwrap().1 by {
            assert(order@.to_set().contains(k2));
            let k = choose|k: int| 0 <= k < order@.len() && order@[k] == k2;
        }
    }
    if lowest_d == OUT_OF_REACH {
        Ok(None)
    } else {
        Ok(Some(new_tri(lowest_t[0], lowest_t[1], lowest_t[2])))
    }
}

/// The corner across a border edge from which the next cluster starts: the first side
/// of the entry, or the second where the first is empty.
pub open spec fn seed_corner(entry: [u32; 2]) -> u32 {
    if entry[0] == u32::MAX {
        entry[1]
    } else {
        entry[0]
    }
}

/// The triangle across border edge `e` that the next cluster would start from.
pub open spec fn seed_across(e: Edge, entry: [u32; 2]) -> Triangle {
    spec_tri(e[0], e[1], seed_corner(entry))
}

/// Starting across `e` is ideal: another edge of that triangle is on the border too.
pub open spec fn ideal_seed(overall: Set<Edge>, e: Edge, entry: [u32; 2]) -> bool {
    overall.contains(spec_edge(e[0], seed_corner(entry))) || overall.contains(
        spec_edge(e[1], seed_corner(entry)),
    )
}

/// Both sides of the entry are empty.
pub open spec fn open_entry(entry: [u32; 2]) -> bool {
    entry[0] == u32::MAX && entry[1] == u32::MAX
}

/// `t` is a triangle the next cluster may start from, given the border `overall` of the
/// clusters made so far, the edge table `m` and the previous seed: across a border edge
/// that still has a triangle beside it, preferring one whose triangle has a second edge
/// on the border; where no border edge has a triangle beside it, the previous seed.
pub open spec fn next_seed_choice(overall: Set<Edge>, m: Map<Edge, [u32; 2]>, seed: Triangle, t: Triangle) -> bool {
    ||| (t == seed && forall|e: Edge| overall.contains(e) ==> !#[trigger] m.contains_key(e))
    ||| exists|e: Edge| {
        &&& overall.contains(e) && #[trigger] m.contains_key(e)
        &&& !open_entry(m[e])
        &&& t == seed_across(e, m[e])
        &&& !ideal_seed(overall, e, m[e]) ==> forall|e2: Edge|
            overall.contains(e2) && #[trigger] m.contains_key(e2) ==> !ideal_seed(overall, e2, m[e2]) && !open_entry(m[e2])
    }
}

/// Chooses the triangle from which the next cluster starts: across an edge of the border
/// of the clusters made so far, preferring one whose triangle has a second edge on that
/// border. The border is walked in the order in which its hash set yields it; the walk
/// stops at an ideal edge, and otherwise the last edge walked decides. Where no border
/// edge still has a triangle next to it, `seed` stays.
pub fn next_seed(overall: &EdgeSet, edges: &EdgeMap<[u32; 2]>, seed: Triangle) -> (r: Result<Triangle, SplitError>)
    ensures
        r is Err ==> r == Err::<Triangle, SplitError>(SplitError::OpenSeedEdge) && exists|e: Edge|
            overall@.contains(e) && edges@.contains_key(e) && #[trigger] open_entry(edges@[e]),
        r matches Ok(t) ==> next_seed_choice(overall@, edges@, seed, t),
{
    let order = set_elements(overall);
    let mut chosen = seed;
    let ghost mut from: Option<Edge> = None;
    let mut i: usize = 0;
    while i < order.len()
        invariant
            0 <= i <= order@.len(),
            order@.to_set() == overall@,
            forall|k: int| 0 <= k < i && edges@.contains_key(#[trigger] order@[k]) ==> !open_entry(edges@[order@[k]]) && !ideal_seed(overall@, order@[k], edges@[order@[k]]),
            from is None ==> chosen == seed && forall|k: int| 0 <= k < i ==> !edges@.contains_key(#[trigger] order@[k]),
            from matches Some(e) ==> overall@.contains(e) && edges@.contains_key(e) && !open_entry(edges@[e]) && chosen == seed_across(e, edges@[e]),
        decreases order@.len() - i,
    {
        let edge = order[i];
        proof {
            assert(overall@.contains(edge));
        }
        match map_get(edges, &edge) {
            Some(verts) => {
                let vert = if verts[0] == u32::MAX {
                    if verts[1] == u32::MAX {
                        assert(open_entry(edges@[edge]));
                        return Err(SplitError::OpenSeedEdge);
                    }
                    verts[1]
                } else {
                    verts[0]
                };
                chosen = new_tri(edge[0], edge[1], vert);
                proof {
                    from = Some(edge);
                }
                let edge0 = new_edge(edge[0], vert);
                let edge1 = new_edge(edge[1], vert);
                if set_contains(overall, &edge0) || set_contains(overall, &edge1) {
                    return Ok(chosen);
                }
            },
            None => {},
        }
        i += 1;
    }
    proof {
        assert forall|e2: Edge| overall@.contains(e2) && #[trigger] edges@.contains_key(e2) implies !ideal_seed(overall@, e2, edges@[e2]) && !open_entry(edges@[e2]) by {
            assert(order@.to_set().contains(e2));
            let k = choose|k: int| 0 <= k < order@.len() && order@[k] == e2;
        }
        if from is None {
            assert forall|e: Edge| overall@.contains(e) implies !#[trigger] edges@.contains_key(e) by {
                assert(order@.to_set().contains(e));
                let k = choose|k: int| 0 <= k < order@.len() && order@[k] == e;
            }
        }
    }
    Ok(chosen)
}

/// The edges on exactly one of the two borders.
pub open spec fn sym_diff(a: Set<Edge>, b: Set<Edge>) -> Set<Edge> {
    Set::new(|e: Edge| a.contains(e) != b.contains(e))
}

/// Adds a finished cluster's border to the border of all clusters made so far: edges on
/// both leave, edges on one stay.
fn merge_border(overall: &mut EdgeSet, cur: &EdgeSet)
    ensures
        final(overall)@ == sym_diff(old(overall)@, cur@),
{
    let order = set_elements(cur);
    let mut i: usize = 0;
    assert(sym_diff(overall@, order@.take(0).to_set()) =~= overall@);
    while i < order.len()
        invariant
            0 <= i <= order@.len(),
            order@.to_set() == cur@,
            order@.no_duplicates(),
            overall@ == sym_diff(old(overall)@, order@.take(i as int).to_set()),
        decreases order@.len() - i,
    {
        let edge = order[i];
        let ghost before = order@.take(i as int).to_set();
        proof {
            order@.take(i as int).lemma_push_to_set_commute(edge);
            assert(order@.take(i + 1) =~= order@.take(i as int).push(edge));
            assert(!before.contains(edge)) by {
                if before.contains(edge) {
                    let k = choose|k: int| 0 <= k < i && order@.take(i as int)[k] == edge;
                    assert(order@[k] == order@[i as int]);
                }
            }
        }
        if !set_insert(overall, edge) {
            set_remove(overall, &edge);
        }
        assert(overall@ =~= sym_diff(old(overall)@, order@.take(i + 1).to_set()));
        i += 1;
    }
    assert(order@.take(order@.len() as int) =~= order@);
}

/// The triple at position `j` of an index list.
pub open spec fn triple(c: Seq<u32>, j: int) -> Triangle {
    [c[3 * j], c[3 * j + 1], c[3 * j + 2]]
}

/// `x` is a triangle of the mesh, corners ascending.
pub open spec fn is_mesh_triangle(indices: Seq<u32>, x: Triangle) -> bool {
    exists|t: int| 0 <= t < tri_count(indices) && x == sorted_tri(indices, t)
}

/// Every triangle of the index list has three different corners.
pub open spec fn proper_triangles(indices: Seq<u32>) -> bool {
    forall|t: int|
        0 <= t < tri_count(indices) ==> #[trigger] crate::mesh::corner(indices, t, 0) != crate::mesh::corner(indices, t, 1)
            && crate::mesh::corner(indices, t, 1) != crate::mesh::corner(indices, t, 2)
            && crate::mesh::corner(indices, t, 0) != crate::mesh::corner(indices, t, 2)
}

/// Some triangle of the index list `c` is `x`.
pub open spec fn lists_triangle(c: Seq<u32>, x: Triangle) -> bool {
    exists|j: int| 0 <= j < c.len() / 3 && #[trigger] triple(c, j) == x
}

/// Some cluster holds the triangle `x`.
pub open spec fn in_some_cluster(clusters: Seq<TempCluster>, x: Triangle) -> bool {
    exists|c: int| 0 <= c < clusters.len() && #[trigger] lists_triangle(clusters[c].mesh.indices@, x)
}

/// In a mesh whose triangles have three different corners, the only triangle that has
/// all three corners of a mesh triangle `x` is `x` itself (corners ascending).
proof fn lemma_corners_pin_triangle(indices: Seq<u32>, x: Triangle, t: int, i: int)
    requires
        proper_triangles(indices),
        0 <= t < tri_count(indices),
        0 <= i < tri_count(indices),
        x == sorted_tri(indices, t),
        crate::mesh::has_corner(indices, i, x[0]),
        crate::mesh::has_corner(indices, i, x[1]),
        crate::mesh::has_corner(indices, i, x[2]),
    ensures
        sorted_tri(indices, i) == x,
{
    let (a, b, c) = (crate::mesh::corner(indices, t, 0), crate::mesh::corner(indices, t, 1), crate::mesh::corner(indices, t, 2));
    let (p, q, r) = (crate::mesh::corner(indices, i, 0), crate::mesh::corner(indices, i, 1), crate::mesh::corner(indices, i, 2));
    crate::topology::lemma_spec_tri_sorted(a, b, c);
    crate::topology::lemma_spec_tri_sorted(p, q, r);
    let pqr: Triangle = [p, q, r];
    let abc: Triangle = [a, b, c];
    let xs: Triangle = [x[0], x[1], x[2]];
    assert(xs =~= x);
    assert(count3(a, x) == 1 && count3(b, x) == 1 && count3(c, x) == 1);
    assert(x[0] != x[1] && x[1] != x[2] && x[0] != x[2]);
    assert forall|y: u32| #[trigger] count3(y, pqr) == count3(y, x) by {
        assert(count3(y, pqr) <= 1);
        assert(count3(y, x) == count3(y, abc));
    }
    assert(crate::topology::is_sorted_corners(x, x[0], x[1], x[2]));
    assert forall|y: u32| #[trigger] count3(y, sorted_tri(indices, i)) == count3(y, xs) by {
        assert(count3(y, sorted_tri(indices, i)) == count3(y, pqr));
    }
    crate::topology::lemma_sorted_corners_unique(sorted_tri(indices, i), x, x[0], x[1], x[2]);
}

/// The triangle that the vertex table finds for a mesh triangle `x` (all three corners
/// recorded at position `i`) is `x` itself, where the mesh's triangles have three
/// different corners.
proof fn lemma_found_is_sought(
    indices: Seq<u32>,
    vertex_map: Map<u32, HashSet<usize>>,
    tri_list: Seq<Triangle>,
    x: Triangle,
    i: usize,
)
    requires
        proper_triangles(indices),
        forall|v: u32| #[trigger] vertex_map.contains_key(v) ==> vertex_map[v]@ == crate::mesh::triangles_at(indices, tri_count(indices), v),
        tri_list == Seq::new(tri_count(indices) as nat, |t: int| sorted_tri(indices, t)),
        corners_recorded(vertex_map, x),
        recorded_at_corners(vertex_map, x, i),
        i < tri_count(indices),
        is_mesh_triangle(indices, x),
    ensures
        tri_list[i as int] == x,
{
    let n = tri_count(indices);
    let t0 = choose|t0: int| 0 <= t0 < n && x == sorted_tri(indices, t0);
    assert(crate::mesh::triangles_at(indices, n, x[0]).contains(i));
    assert(crate::mesh::triangles_at(indices, n, x[1]).contains(i));
    assert(crate::mesh::triangles_at(indices, n, x[2]).contains(i));
    lemma_corners_pin_triangle(indices, x, t0, i as int);
}

/// No two triangles of the index list have the same corners.
pub open spec fn distinct_triangles(indices: Seq<u32>) -> bool {
    forall|t1: int, t2: int|
        0 <= t1 < tri_count(indices) && 0 <= t2 < tri_count(indices) && t1 != t2 ==> #[trigger] sorted_tri(indices, t1)
            != #[trigger] sorted_tri(indices, t2)
}

/// The first `k` triangles of the index list, corners ascending.
pub open spec fn first_triangles(indices: Seq<u32>, k: int) -> Set<Triangle> {
    Set::new(|x: Triangle| exists|t: int| 0 <= t < k && #[trigger] sorted_tri(indices, t) == x)
}

/// The edge table agrees with the triangle set `tris`: its edges are ascending, each
/// corner it holds opposite an edge makes with that edge a triangle of `tris`, and no
/// entry holds the same corner twice.
pub open spec fn faithful_table(m: Map<Edge, [u32; 2]>, tris: Set<Triangle>) -> bool {
    forall|key: Edge|
        #[trigger] m.contains_key(key) ==> {
            &&& key[0] <= key[1]
            &&& m[key][0] != u32::MAX ==> tris.contains(spec_tri(key[0], key[1], m[key][0]))
            &&& m[key][1] != u32::MAX ==> tris.contains(spec_tri(key[0], key[1], m[key][1]))
            &&& m[key][0] == m[key][1] ==> m[key][0] == u32::MAX
        }
}

/// Reporting the three edges of a new triangle `spec_tri(a, b, c)` keeps the table
/// faithful, the triangle joining the set.
proof fn lemma_report_keeps_faithful(m: Map<Edge, [u32; 2]>, s: Set<Triangle>, a: u32, b: u32, c: u32)
    requires
        faithful_table(m, s),
        a != b && b != c && a != c,
        !s.contains(spec_tri(a, b, c)),
    ensures
        faithful_table(
            crate::mesh::edge_entry_update(
                crate::mesh::edge_entry_update(crate::mesh::edge_entry_update(m, spec_edge(a, b), c), spec_edge(a, c), b),
                spec_edge(b, c),
                a,
            ),
            s.insert(spec_tri(a, b, c)),
        ),
{
    let x = spec_tri(a, b, c);
    crate::topology::law_tri_permutation_invariant(a, b, c);
    let (ab, ac, bc) = (spec_edge(a, b), spec_edge(a, c), spec_edge(b, c));
    assert(ab != ac && ab != bc && ac != bc);
    assert(spec_tri(ab[0], ab[1], c) == x);
    assert(spec_tri(ac[0], ac[1], b) == x);
    assert(spec_tri(bc[0], bc[1], a) == x);
    let m1 = crate::mesh::edge_entry_update(m, ab, c);
    let m2 = crate::mesh::edge_entry_update(m1, ac, b);
    let m3 = crate::mesh::edge_entry_update(m2, bc, a);
    let s2 = s.insert(x);
    assert forall|key: Edge| #[trigger] m3.contains_key(key) implies {
        &&& key[0] <= key[1]
        &&& m3[key][0] != u32::MAX ==> s2.contains(spec_tri(key[0], key[1], m3[key][0]))
        &&& m3[key][1] != u32::MAX ==> s2.contains(spec_tri(key[0], key[1], m3[key][1]))
        &&& m3[key][0] == m3[key][1] ==> m3[key][0] == u32::MAX
    } by {
        if key != ab && key != ac && key != bc {
            assert(m3[key] == m[key]);
        } else if m.contains_key(key) {
            let v = m[key][0];
            assert(v != u32::MAX ==> s.contains(spec_tri(key[0], key[1], v)));
        }
    }
}

/// The edge table of the first `k` triangles is faithful to them, where the triangles
/// have three different corners each and no two have the same corners.
proof fn lemma_edge_table_faithful(indices: Seq<u32>, k: int)
    requires
        proper_triangles(indices),
        distinct_triangles(indices),
        0 <= k <= tri_count(indices),
    ensures
        faithful_table(edge_table(indices, k), first_triangles(indices, k)),
    decreases k,
{
    if k == 0 {
        assert(edge_table(indices, 0) =~= Map::<Edge, [u32; 2]>::empty());
    } else {
        lemma_edge_table_faithful(indices, k - 1);
        let (a, b, c) = (crate::mesh::corner(indices, k - 1, 0), crate::mesh::corner(indices, k - 1, 1), crate::mesh::corner(indices, k - 1, 2));
        let s = first_triangles(indices, k - 1);
        let x = sorted_tri(indices, k - 1);
        assert(x == spec_tri(a, b, c));
        if s.contains(x) {
            let t = choose|t: int| 0 <= t < k - 1 && #[trigger] sorted_tri(indices, t) == x;
            assert(sorted_tri(indices, t) != sorted_tri(indices, k - 1));
        }
        lemma_report_keeps_faithful(edge_table(indices, k - 1), s, a, b, c);
        assert forall|y: Triangle| #[trigger] first_triangles(indices, k).contains(y) == s.insert(x).contains(y) by {
            if first_triangles(indices, k).contains(y) && y != x {
                let t = choose|t: int| 0 <= t < k && #[trigger] sorted_tri(indices, t) == y;
                assert(t < k - 1);
            }
        }
        assert(first_triangles(indices, k) =~= s.insert(x));
    }
}

/// An ascending edge `key` and corner `s` that make the ascending triangle `t` of three
/// different corners are one of its edges with the corner opposite it.
proof fn lemma_edge_of_triangle(key: Edge, s: u32, t: Triangle)
    requires
        key[0] <= key[1],
        t[0] < t[1] < t[2],
        spec_tri(key[0], key[1], s) == t,
    ensures
        (key == [t[0], t[1]] && s == t[2]) || (key == [t[0], t[2]] && s == t[1]) || (key == [t[1], t[2]] && s == t[0]),
{
    if key[1] <= s {
        assert(key =~= [t[0], t[1]]);
    } else if s < key[0] {
        assert(key =~= [t[1], t[2]]);
    } else {
        assert(key =~= [t[0], t[2]]);
    }
}

/// Taking the ascending triangle `t` of three different corners out of the table keeps it
/// faithful to the triangle set without `t`.
proof fn lemma_removal_keeps_faithful(
    t: Triangle,
    m: Map<Edge, [u32; 2]>,
    overall: Set<Edge>,
    cur: Set<Edge>,
    tris: Set<Triangle>,
)
    requires
        faithful_table(m, tris),
        t[0] < t[1] < t[2],
    ensures
        faithful_table(after_removal(t, m, overall, cur).1, tris.remove(t)),
{
    let e0 = spec_edge(t[0], t[1]);
    let e1 = spec_edge(t[0], t[2]);
    let e2 = spec_edge(t[1], t[2]);
    assert(e0 =~= [t[0], t[1]] && e1 =~= [t[0], t[2]] && e2 =~= [t[1], t[2]]);
    let (m1, g0) = clear_entry(m, e0, t[2]);
    let (m2, g1) = clear_entry(m1, e1, t[1]);
    let (m3, g2) = clear_entry(m2, e2, t[0]);
    let r = tris.remove(t);
    assert forall|key: Edge| #[trigger] m3.contains_key(key) implies {
        &&& key[0] <= key[1]
        &&& m3[key][0] != u32::MAX ==> r.contains(spec_tri(key[0], key[1], m3[key][0]))
        &&& m3[key][1] != u32::MAX ==> r.contains(spec_tri(key[0], key[1], m3[key][1]))
        &&& m3[key][0] == m3[key][1] ==> m3[key][0] == u32::MAX
    } by {
        assert(m.contains_key(key));
        let opp = if key == e0 {
            t[2]
        } else if key == e1 {
            t[1]
        } else {
            t[0]
        };
        if key != e0 && key != e1 && key != e2 {
            assert(m3[key] == m[key]);
        } else {
            assert(m3[key] == cleared(m[key], opp).0);
        }
        if m3[key][0] != u32::MAX && spec_tri(key[0], key[1], m3[key][0]) == t {
            lemma_edge_of_triangle(key, m3[key][0], t);
        }
        if m3[key][1] != u32::MAX && spec_tri(key[0], key[1], m3[key][1]) == t {
            lemma_edge_of_triangle(key, m3[key][1], t);
        }
    }
    let (c1, n1) = settle(cur, m3, overall, e0, g0);
    let (c2, n2) = settle(c1, n1, overall, e1, g1);
    assert(faithful_table(n1, r));
    assert(faithful_table(n2, r));
}

/// The farther side of an entry is one of its corners, never the empty mark.
proof fn lemma_far_side_is_a_corner<F: Fn(u32, Triangle) -> u32>(f: F, e: [u32; 2], t: Triangle)
    requires
        far_side(f, e, t) is Some,
    ensures
        far_side(f, e, t).unwrap().0 != u32::MAX,
        far_side(f, e, t).unwrap().0 == e[0] || far_side(f, e, t).unwrap().0 == e[1],
{
}

/// A triangle of a mesh whose triangles have three different corners has its corners
/// strictly ascending.
proof fn lemma_mesh_triangle_strict(indices: Seq<u32>, x: Triangle)
    requires
        proper_triangles(indices),
        is_mesh_triangle(indices, x),
    ensures
        x[0] < x[1] < x[2],
{
    let t = choose|t: int| 0 <= t < tri_count(indices) && x == sorted_tri(indices, t);
    let (a, b, c) = (crate::mesh::corner(indices, t, 0), crate::mesh::corner(indices, t, 1), crate::mesh::corner(indices, t, 2));
    let abc: Triangle = [a, b, c];
    crate::topology::lemma_spec_tri_sorted(a, b, c);
    assert(count3(x[0], x) == count3(x[0], abc));
    assert(count3(x[1], x) == count3(x[1], abc));
}

/// One state of a growing cluster: the edge table and the cluster's border after a
/// triangle was taken, and that triangle.
pub type GrowthStep = (Map<Edge, [u32; 2]>, Set<Edge>, Triangle);

/// `t` is the nearest triangle that the border `cut` offers (see `offers`): the farther
/// side of some offering edge, whose key is no larger than that of any other offer.
pub open spec fn nearest_offer<F: Fn(u32, Triangle) -> u32>(
    f: F,
    cut: Set<Edge>,
    m: Map<Edge, [u32; 2]>,
    seed: Triangle,
    t: Triangle,
) -> bool {
    exists|key: Edge| {
        &&& #[trigger] offers(f, cut, m, seed, key)
        &&& t == spec_tri(key[0], key[1], far_side(f, m[key], seed).unwrap().0)
        &&& forall|k2: Edge| #[trigger] offers(f, cut, m, seed, k2) ==> far_side(f, m[key], seed).unwrap().1
            <= far_side(f, m[k2], seed).unwrap().1
    }
}

/// No edge of the border offers a triangle.
pub open spec fn no_offer<F: Fn(u32, Triangle) -> u32>(f: F, cut: Set<Edge>, m: Map<Edge, [u32; 2]>, seed: Triangle) -> bool {
    forall|key: Edge| !#[trigger] offers(f, cut, m, seed, key)
}

/// Step `j` of growth `g` took the nearest offer of the state before it.
pub open spec fn grew_at<F: Fn(u32, Triangle) -> u32>(f: F, overall: Set<Edge>, g: Seq<GrowthStep>, j: int) -> bool {
    &&& nearest_offer(f, g[j - 1].1, g[j - 1].0, g[0].2, g[j].2)
    &&& (g[j].1, g[j].0) == after_removal(g[j].2, g[j - 1].0, overall, g[j - 1].1)
}

/// A cluster grown greedily from table `start` beside the border `overall` of the
/// clusters before it: its seed `g[0].2` is taken first, then each step takes the nearest
/// triangle the border offers, and growth ends with `max` triangles or where the border
/// offers none.
pub open spec fn grown_greedily<F: Fn(u32, Triangle) -> u32>(
    f: F,
    max: int,
    start: Map<Edge, [u32; 2]>,
    overall: Set<Edge>,
    g: Seq<GrowthStep>,
) -> bool {
    &&& growing(f, max, start, overall, g)
    &&& g.len() == max || no_offer(f, g.last().1, g.last().0, g[0].2)
}

/// A cluster part-way through growing from table `start` beside the border `overall`:
/// its seed `g[0].2` was taken first and each later step took the nearest triangle the
/// border offered, with no more than `max` triangles so far.
pub open spec fn growing<F: Fn(u32, Triangle) -> u32>(
    f: F,
    max: int,
    start: Map<Edge, [u32; 2]>,
    overall: Set<Edge>,
    g: Seq<GrowthStep>,
) -> bool {
    &&& 1 <= g.len() <= max
    &&& (g[0].1, g[0].0) == after_removal(g[0].2, start, overall, Set::<Edge>::empty())
    &&& forall|j: int| 1 <= j < g.len() ==> #[trigger] grew_at(f, overall, g, j)
}

/// The seed of cluster `c` follows the rule: the first starts across some edge of the
/// mesh's table (the corner its entry lists first); each later one is what `next_seed`
/// chooses from the border and table the clusters before it left and the previous seed.
pub open spec fn seed_follows(
    indices: Seq<u32>,
    growth: Seq<Seq<GrowthStep>>,
    overalls: Seq<Set<Edge>>,
    c: int,
    seed: Triangle,
) -> bool {
    if c == 0 {
        exists|key: Edge|
            #[trigger] edge_table(indices, tri_count(indices)).contains_key(key) && seed == spec_tri(
                key[0],
                key[1],
                edge_table(indices, tri_count(indices))[key][0],
            )
    } else {
        next_seed_choice(overalls[c], start_table(indices, growth, c), growth[c - 1][0].2, seed)
    }
}

/// The edge table from which cluster `c` starts: the mesh's, or the one the cluster
/// before it left.
pub open spec fn start_table(indices: Seq<u32>, growth: Seq<Seq<GrowthStep>>, c: int) -> Map<Edge, [u32; 2]> {
    if c == 0 {
        edge_table(indices, tri_count(indices))
    } else {
        growth[c - 1].last().0
    }
}

/// Cluster `c` of the run: grown greedily, from a seed that is a triangle of the mesh,
/// from where the cluster before it left the table and the border, holding the triangles it took (as the mesh lists them, where no
/// two triangles have the same corners and each has three different corners) and its
/// final border.
pub open spec fn cluster_run<F: Fn(u32, Triangle) -> u32>(
    indices: Seq<u32>,
    f: F,
    max: int,
    clusters: Seq<TempCluster>,
    growth: Seq<Seq<GrowthStep>>,
    overalls: Seq<Set<Edge>>,
    c: int,
) -> bool {
    &&& grown_greedily(f, max, start_table(indices, growth, c), overalls[c], growth[c])
    &&& is_mesh_triangle(indices, growth[c][0].2)
    &&& seed_follows(indices, growth, overalls, c, growth[c][0].2)
    &&& overalls[c + 1] == sym_diff(overalls[c], growth[c].last().1)
    &&& clusters[c].cut@ == growth[c].last().1
    &&& clusters[c].mesh.indices@.len() == 3 * growth[c].len()
    &&& proper_triangles(indices) && distinct_triangles(indices) ==> forall|j: int|
        0 <= j < growth[c].len() ==> #[trigger] triple(clusters[c].mesh.indices@, j) == growth[c][j].2
}

/// The clusters came from a greedy run: `growth[c]` records how cluster `c` grew and
/// `overalls[c]` the border of the clusters before it.
pub open spec fn greedy_run<F: Fn(u32, Triangle) -> u32>(
    indices: Seq<u32>,
    f: F,
    max: int,
    clusters: Seq<TempCluster>,
    growth: Seq<Seq<GrowthStep>>,
    overalls: Seq<Set<Edge>>,
) -> bool {
    &&& growth.len() == clusters.len()
    &&& overalls.len() == clusters.len() + 1
    &&& overalls[0] == Set::<Edge>::empty()
    &&& forall|c: int| 0 <= c < clusters.len() ==> #[trigger] cluster_run(indices, f, max, clusters, growth, overalls, c)
}

/// A greedy run made some clusters and then got stuck: no edge of their border still
/// has a triangle beside it in the table, yet some triangle of the mesh is in no cluster
/// (so the mesh falls apart into pieces that share no edge).
pub open spec fn stuck_run<F: Fn(u32, Triangle) -> u32>(indices: Seq<u32>, f: F, max: int) -> bool {
    exists|clusters: Seq<TempCluster>, g: Seq<Seq<GrowthStep>>, o: Seq<Set<Edge>>| {
        &&& #[trigger] greedy_run(indices, f, max, clusters, g, o)
        &&& clusters.len() >= 1
        &&& forall|e: Edge| o.last().contains(e) ==> !start_table(indices, g, clusters.len() as int).contains_key(e)
        &&& exists|t: int| 0 <= t < tri_count(indices) && !in_some_cluster(clusters, #[trigger] sorted_tri(indices, t))
    }
}

/// A greedy run made some clusters and the next one, grown greedily from a seed that
/// follows the rule and still short of `max` triangles, reached a state whose border
/// holds an edge whose two sides cannot be ordered from that seed in the current table
/// (see `is_tie`): where `closest_triangle` stops.
pub open spec fn tie_reached<F: Fn(u32, Triangle) -> u32>(indices: Seq<u32>, f: F, max: int) -> bool {
    exists|clusters: Seq<TempCluster>, gr: Seq<Seq<GrowthStep>>, o: Seq<Set<Edge>>, g: Seq<GrowthStep>| {
        &&& #[trigger] greedy_run(indices, f, max, clusters, gr, o)
        &&& #[trigger] growing(f, max, start_table(indices, gr, clusters.len() as int), o.last(), g)
        &&& g.len() < max
        &&& is_mesh_triangle(indices, g[0].2)
        &&& seed_follows(indices, gr, o, clusters.len() as int, g[0].2)
        &&& exists|key: Edge|
            g.last().1.contains(key) && g.last().0.contains_key(key) && #[trigger] is_tie(f, g.last().0[key], g[0].2)
    }
}

/// A recorded run with a tie on the border of the growing cluster witnesses `tie_reached`.
proof fn lemma_tie_witness<F: Fn(u32, Triangle) -> u32>(
    indices: Seq<u32>,
    f: F,
    max: int,
    clusters: Seq<TempCluster>,
    growth: Seq<Seq<GrowthStep>>,
    overalls: Seq<Set<Edge>>,
    g: Seq<GrowthStep>,
    key: Edge,
)
    requires
        greedy_run(indices, f, max, clusters, growth, overalls),
        growing(f, max, start_table(indices, growth, clusters.len() as int), overalls.last(), g),
        g.len() < max,
        is_mesh_triangle(indices, g[0].2),
        seed_follows(indices, growth, overalls, clusters.len() as int, g[0].2),
        g.last().1.contains(key),
        g.last().0.contains_key(key),
        is_tie(f, g.last().0[key], g[0].2),
    ensures
        tie_reached(indices, f, max),
{
}

/// A recorded run that got stuck witnesses `stuck_run`.
proof fn lemma_stuck_witness<F: Fn(u32, Triangle) -> u32>(
    indices: Seq<u32>,
    f: F,
    max: int,
    clusters: Seq<TempCluster>,
    growth: Seq<Seq<GrowthStep>>,
    overalls: Seq<Set<Edge>>,
    t: int,
)
    requires
        greedy_run(indices, f, max, clusters, growth, overalls),
        clusters.len() >= 1,
        forall|e: Edge| overalls.last().contains(e) ==> !start_table(indices, growth, clusters.len() as int).contains_key(e),
        0 <= t < tri_count(indices),
        !in_some_cluster(clusters, sorted_tri(indices, t)),
    ensures
        stuck_run(indices, f, max),
{
}

/// A recorded greedy run witnesses that the clusters came from one.
proof fn lemma_run_witness<F: Fn(u32, Triangle) -> u32>(
    indices: Seq<u32>,
    f: F,
    max: int,
    clusters: Seq<TempCluster>,
    growth: Seq<Seq<GrowthStep>>,
    overalls: Seq<Set<Edge>>,
)
    requires
        greedy_run(indices, f, max, clusters, growth, overalls),
    ensures
        grown_by_greedy_run(indices, f, max, clusters),
{
}

/// The clusters came from a greedy run (see `greedy_run`): some record of growth
/// steps and borders bears them out.
pub open spec fn grown_by_greedy_run<F: Fn(u32, Triangle) -> u32>(
    indices: Seq<u32>,
    f: F,
    max: int,
    clusters: Seq<TempCluster>,
) -> bool {
    exists|g: Seq<Seq<GrowthStep>>, o: Seq<Set<Edge>>| #[trigger] greedy_run(indices, f, max, clusters, g, o)
}

/// Every entry of the table is in ascending order.
pub open spec fn sorted_entries(m: Map<Edge, [u32; 2]>) -> bool {
    forall|key: Edge| #[trigger] m.contains_key(key) ==> m[key][0] <= m[key][1]
}

/// Side `x` of an entry is empty or one of the sides `w` started with.
pub open spec fn side_from(x: u32, w: [u32; 2]) -> bool {
    x == u32::MAX || x == w[0] || x == w[1]
}

/// The table came from `init` by emptying sides: each entry is ascending, belongs to an
/// edge of `init`, and is either that edge's first entry or has an empty side, its other
/// side one of the first entry's.
pub open spec fn traced_table(m: Map<Edge, [u32; 2]>, init: Map<Edge, [u32; 2]>) -> bool {
    forall|key: Edge|
        #[trigger] m.contains_key(key) ==> {
            &&& init.contains_key(key)
            &&& m[key][0] <= m[key][1]
            &&& m[key] == init[key] || ((m[key][0] == u32::MAX || m[key][1] == u32::MAX) && side_from(m[key][0], init[key])
                && side_from(m[key][1], init[key]))
        }
}

/// The entries of the edge table are ascending.
proof fn lemma_edge_table_sorted(indices: Seq<u32>, k: int)
    requires
        0 <= k <= tri_count(indices),
    ensures
        sorted_entries(edge_table(indices, k)),
    decreases k,
{
    if k > 0 {
        lemma_edge_table_sorted(indices, k - 1);
    }
}

/// Emptying one side of an entry keeps the table traced back to `init`.
proof fn lemma_clear_keeps_traced(m: Map<Edge, [u32; 2]>, key: Edge, opp: u32, init: Map<Edge, [u32; 2]>)
    requires
        traced_table(m, init),
    ensures
        traced_table(clear_entry(m, key, opp).0, init),
{
    let r = clear_entry(m, key, opp).0;
    assert forall|k: Edge| #[trigger] r.contains_key(k) implies {
        &&& init.contains_key(k)
        &&& r[k][0] <= r[k][1]
        &&& r[k] == init[k] || ((r[k][0] == u32::MAX || r[k][1] == u32::MAX) && side_from(r[k][0], init[k])
            && side_from(r[k][1], init[k]))
    } by {
        if k == key {
            let v = m[key];
            if v[0] != opp && v[1] != opp {
                assert(r[k] =~= v);
            }
        }
    }
}

/// Taking a triangle out keeps the table traced back to `init`.
proof fn lemma_removal_keeps_traced(
    t: Triangle,
    m: Map<Edge, [u32; 2]>,
    overall: Set<Edge>,
    cur: Set<Edge>,
    init: Map<Edge, [u32; 2]>,
)
    requires
        traced_table(m, init),
    ensures
        traced_table(after_removal(t, m, overall, cur).1, init),
{
    let e0 = spec_edge(t[0], t[1]);
    let e1 = spec_edge(t[0], t[2]);
    let e2 = spec_edge(t[1], t[2]);
    let (m1, g0) = clear_entry(m, e0, t[2]);
    let (m2, g1) = clear_entry(m1, e1, t[1]);
    let (m3, g2) = clear_entry(m2, e2, t[0]);
    lemma_clear_keeps_traced(m, e0, t[2], init);
    lemma_clear_keeps_traced(m1, e1, t[1], init);
    lemma_clear_keeps_traced(m2, e2, t[0], init);
    let (c1, n1) = settle(cur, m3, overall, e0, g0);
    let (c2, n2) = settle(c1, n1, overall, e1, g1);
    assert(traced_table(n1, init));
    assert(traced_table(n2, init));
}

/// An entry traced back to `init` that cannot be ordered came from a first entry that
/// cannot be ordered either.
proof fn lemma_tie_traced<F: Fn(u32, Triangle) -> u32>(f: F, m: Map<Edge, [u32; 2]>, init: Map<Edge, [u32; 2]>, key: Edge, t: Triangle)
    requires
        traced_table(m, init),
        m.contains_key(key),
        is_tie(f, m[key], t),
    ensures
        init.contains_key(key),
        is_tie(f, init[key], t),
{
}

/// The edge table of a single triangle with corners `a`, `b`, `c`.
pub open spec fn single_table(a: u32, b: u32, c: u32) -> Map<Edge, [u32; 2]> {
    crate::mesh::edge_entry_update(
        crate::mesh::edge_entry_update(
            crate::mesh::edge_entry_update(Map::<Edge, [u32; 2]>::empty(), spec_edge(a, b), c),
            spec_edge(a, c),
            b,
        ),
        spec_edge(b, c),
        a,
    )
}

/// In the table of a single triangle of three different corners, each edge lies
/// opposite the remaining corner, and the triangle across any edge is the triangle itself.
proof fn lemma_single_table_seed(a: u32, b: u32, c: u32, key: Edge)
    requires
        a != b && b != c && a != c,
        single_table(a, b, c).contains_key(key),
    ensures
        spec_tri(key[0], key[1], single_table(a, b, c)[key][0]) == spec_tri(a, b, c),
{
    crate::topology::law_tri_permutation_invariant(a, b, c);
    assert(spec_edge(a, b) != spec_edge(a, c) && spec_edge(a, b) != spec_edge(b, c) && spec_edge(a, c) != spec_edge(b, c));
}

/// Taking the single triangle out of its own table empties the table.
proof fn lemma_single_table_clears(a: u32, b: u32, c: u32, overall: Set<Edge>)
    requires
        a != b && b != c && a != c,
    ensures
        after_removal(spec_tri(a, b, c), single_table(a, b, c), overall, Set::<Edge>::empty()).1.dom() == Set::<Edge>::empty(),
{
    let x = spec_tri(a, b, c);
    let m = single_table(a, b, c);
    let (ab, ac, bc) = (spec_edge(a, b), spec_edge(a, c), spec_edge(b, c));
    assert(ab != ac && ab != bc && ac != bc);
    let e0 = spec_edge(x[0], x[1]);
    let e1 = spec_edge(x[0], x[2]);
    let e2 = spec_edge(x[1], x[2]);
    assert(m.dom() =~= set![ab, ac, bc]);
    assert(m[ab] == [c, u32::MAX] && m[ac] == [b, u32::MAX] && m[bc] == [a, u32::MAX]);
    assert((e0 == ab && x[2] == c) || (e0 == ac && x[2] == b) || (e0 == bc && x[2] == a));
    assert((e1 == ab && x[1] == c) || (e1 == ac && x[1] == b) || (e1 == bc && x[1] == a));
    assert((e2 == ab && x[0] == c) || (e2 == ac && x[0] == b) || (e2 == bc && x[0] == a));
    assert(e0 != e1 && e0 != e2 && e1 != e2);
    let (m1, g0) = clear_entry(m, e0, x[2]);
    let (m2, g1) = clear_entry(m1, e1, x[1]);
    let (m3, g2) = clear_entry(m2, e2, x[0]);
    assert(g0 && g1 && g2);
    let (c1, n1) = settle(Set::<Edge>::empty(), m3, overall, e0, g0);
    let (c2, n2) = settle(c1, n1, overall, e1, g1);
    let (c3, n3) = settle(c2, n2, overall, e2, g2);
    assert(n3.dom() =~= Set::<Edge>::empty());
}

/// A triangle of the mesh is recorded, at all three of its corners, in the
/// vertex-to-triangles table.
proof fn lemma_mesh_triangle_recorded(indices: Seq<u32>, vertex_map: Map<u32, HashSet<usize>>, x: Triangle)
    requires
        forall|v: u32| #[trigger] vertex_map.contains_key(v) <==> crate::mesh::used_vertex(indices, tri_count(indices), v),
        forall|v: u32| #[trigger] vertex_map.contains_key(v) ==> vertex_map[v]@ == crate::mesh::triangles_at(indices, tri_count(indices), v),
        is_mesh_triangle(indices, x),
        tri_count(indices) <= u32::MAX,
    ensures
        corners_recorded(vertex_map, x),
        exists|i: usize| #[trigger] recorded_at_corners(vertex_map, x, i),
{
    let n = tri_count(indices);
    let t = choose|t: int| 0 <= t < n && x == sorted_tri(indices, t);
    let (a, b, c) = (crate::mesh::corner(indices, t, 0), crate::mesh::corner(indices, t, 1), crate::mesh::corner(indices, t, 2));
    let abc: Triangle = [a, b, c];
    crate::topology::lemma_spec_tri_sorted(a, b, c);
    assert(count3(x[0], x) == count3(x[0], abc));
    assert(count3(x[1], x) == count3(x[1], abc));
    assert(count3(x[2], x) == count3(x[2], abc));
    assert(crate::mesh::has_corner(indices, t, x[0]));
    assert(crate::mesh::has_corner(indices, t, x[1]));
    assert(crate::mesh::has_corner(indices, t, x[2]));
    assert(crate::mesh::used_vertex(indices, n, x[0]));
    assert(crate::mesh::used_vertex(indices, n, x[1]));
    assert(crate::mesh::used_vertex(indices, n, x[2]));
    assert(vertex_map.contains_key(x[0]) && vertex_map.contains_key(x[1]) && vertex_map.contains_key(x[2]));
    assert(crate::mesh::triangles_at(indices, n, x[0]).contains(t as usize));
    assert(crate::mesh::triangles_at(indices, n, x[1]).contains(t as usize));
    assert(crate::mesh::triangles_at(indices, n, x[2]).contains(t as usize));
    assert(recorded_at_corners(vertex_map, x, t as usize));
}

/// No corner of a triangle of the index list is `u32::MAX`, the mark of an empty side.
pub open spec fn no_max_corner(indices: Seq<u32>) -> bool {
    forall|t: int, k: int| 0 <= t < tri_count(indices) && 0 <= k < 3 ==> #[trigger] crate::mesh::corner(indices, t, k) != u32::MAX
}

/// Every entry of the table has a corner on at least one side.
pub open spec fn closed_table(m: Map<Edge, [u32; 2]>) -> bool {
    forall|key: Edge| #[trigger] m.contains_key(key) ==> !open_entry(m[key])
}

/// The edge table of a mesh none of whose corners is `u32::MAX` has no empty entry.
proof fn lemma_edge_table_closed(indices: Seq<u32>, k: int)
    requires
        no_max_corner(indices),
        0 <= k <= tri_count(indices),
    ensures
        closed_table(edge_table(indices, k)),
    decreases k,
{
    if k > 0 {
        lemma_edge_table_closed(indices, k - 1);
        assert(crate::mesh::corner(indices, k - 1, 0) != u32::MAX);
        assert(crate::mesh::corner(indices, k - 1, 1) != u32::MAX);
        assert(crate::mesh::corner(indices, k - 1, 2) != u32::MAX);
    }
}

/// Taking a triangle of three different corners out of the table leaves no empty entry
/// behind: an entry that loses its last corner leaves the table.
proof fn lemma_removal_keeps_closed(t: Triangle, m: Map<Edge, [u32; 2]>, overall: Set<Edge>, cur: Set<Edge>)
    requires
        closed_table(m),
        t[0] != t[1] && t[1] != t[2] && t[0] != t[2],
    ensures
        closed_table(after_removal(t, m, overall, cur).1),
{
    let e0 = spec_edge(t[0], t[1]);
    let e1 = spec_edge(t[0], t[2]);
    let e2 = spec_edge(t[1], t[2]);
    assert(e0 != e1 && e0 != e2 && e1 != e2);
    let (m1, g0) = clear_entry(m, e0, t[2]);
    let (m2, g1) = clear_entry(m1, e1, t[1]);
    let (m3, g2) = clear_entry(m2, e2, t[0]);
    let (c1, n1) = settle(cur, m3, overall, e0, g0);
    let (c2, n2) = settle(c1, n1, overall, e1, g1);
    let (c3, n3) = settle(c2, n2, overall, e2, g2);
    assert forall|key: Edge| #[trigger] n3.contains_key(key) implies !open_entry(n3[key]) by {
        assert(m.contains_key(key));
        if key == e0 {
            assert(m3[key] == cleared(m[key], t[2]).0);
        } else if key == e1 {
            assert(m3[key] == cleared(m[key], t[1]).0);
        } else if key == e2 {
            assert(m3[key] == cleared(m[key], t[0]).0);
        } else {
            assert(m3[key] == m[key]);
        }
    }
}

/// Appending a value that a sequence lacks keeps it free of repeats.
proof fn lemma_push_fresh(s: Seq<Triangle>, x: Triangle)
    requires
        s.no_duplicates(),
        !s.contains(x),
    ensures
        s.push(x).no_duplicates(),
{
    assert forall|i: int, j: int| 0 <= i < j < s.push(x).len() implies s.push(x)[i] != s.push(x)[j] by {
        if j == s.len() {
            assert(s.contains(s[i]));
        }
    }
}

/// The triangles of an index list, three indices each, in order.
pub open spec fn triangles_of(c: Seq<u32>) -> Seq<Triangle> {
    Seq::new((c.len() / 3) as nat, |j: int| triple(c, j))
}

/// The triangles of all the clusters, cluster after cluster.
pub open spec fn cluster_triangles(clusters: Seq<TempCluster>) -> Seq<Triangle>
    decreases clusters.len(),
{
    if clusters.len() == 0 {
        Seq::empty()
    } else {
        cluster_triangles(clusters.drop_last()) + triangles_of(clusters.last().mesh.indices@)
    }
}

/// A triangle is among the clusters' triangles exactly when some cluster lists it.
proof fn lemma_cluster_triangles_contains(clusters: Seq<TempCluster>, x: Triangle)
    ensures
        cluster_triangles(clusters).contains(x) <==> in_some_cluster(clusters, x),
    decreases clusters.len(),
{
    if clusters.len() > 0 {
        let init = clusters.drop_last();
        let last = clusters.last().mesh.indices@;
        lemma_cluster_triangles_contains(init, x);
        let ct = cluster_triangles(init) + triangles_of(last);
        assert(cluster_triangles(clusters) == ct);
        if ct.contains(x) {
            let i = choose|i: int| 0 <= i < ct.len() && ct[i] == x;
            if i < cluster_triangles(init).len() {
                assert(cluster_triangles(init).contains(x));
                let c = choose|c: int| 0 <= c < init.len() && #[trigger] lists_triangle(init[c].mesh.indices@, x);
                assert(clusters[c] == init[c]);
            } else {
                let j = i - cluster_triangles(init).len();
                assert(triple(last, j) == x);
                assert(lists_triangle(clusters[clusters.len() - 1].mesh.indices@, x));
            }
        }
        if in_some_cluster(clusters, x) {
            let c = choose|c: int| 0 <= c < clusters.len() && #[trigger] lists_triangle(clusters[c].mesh.indices@, x);
            if c < init.len() {
                assert(init[c] == clusters[c]);
                assert(lists_triangle(init[c].mesh.indices@, x));
                assert(in_some_cluster(init, x));
                let i = choose|i: int| 0 <= i < cluster_triangles(init).len() && cluster_triangles(init)[i] == x;
                assert(ct[i] == x);
            } else {
                let j = choose|j: int| 0 <= j < last.len() / 3 && #[trigger] triple(last, j) == x;
                assert(ct[cluster_triangles(init).len() + j] == x);
            }
        }
    }
}

/// The index list holds between one and `max` triangles, each a triangle of the mesh
/// (corners ascending, as the mesh's triangle list holds them).
pub open spec fn made_of_mesh_triangles(indices: Seq<u32>, c: Seq<u32>, max: int) -> bool {
    &&& c.len() % 3 == 0
    &&& 3 <= c.len() <= 3 * max
    &&& forall|j: int| 0 <= j < c.len() / 3 ==> #[trigger] is_mesh_triangle(indices, triple(c, j))
}

/// Splits a mesh, given by its index list, into clusters of at most `tris_in_cluster`
/// triangles each.
///
/// A cluster starts from a seed triangle and grows, one triangle at a time, across its
/// border onto the triangle whose outlying corner is nearest the seed by `distance`
/// (see `closest_triangle`); the next cluster starts across the border of the clusters
/// made so far (see `next_seed`). Hands back, for each cluster, the clusters whose
/// borders share edges with it (see `shared_edges`), the clusters, and the mesh's
/// outline.
///
/// Where every triangle has three different corners, a finished split puts every
/// triangle of the mesh into a cluster; where moreover no two triangles have the same
/// corners, no triangle lands in two clusters or twice in one, so the clusters
/// partition the mesh.
///
/// Every finished split is a greedy run (see `greedy_run`): each cluster grows from its
/// seed onto the nearest triangle its border offers until it holds `tris_in_cluster`
/// triangles or its border offers none. A mesh of one triangle with three different
/// corners always splits. The split fails with `Equidistant` only where such a run,
/// growing a cluster with room left, meets an edge of that cluster's border whose two
/// sides cannot be ordered from its seed (see `tie_reached`), and, on
/// such meshes as above, with `SeedMissing` only where the run got stuck with triangles
/// left that its border does not reach (see `stuck_run`).
#[verifier::spinoff_prover]
#[verifier::rlimit(60)]
pub fn split_mesh<F: Fn(u32, Triangle) -> u32>(
    indices: &Vec<u32>,
    tris_in_cluster: usize,
    distance: &F,
) -> (r: Result<(HashMap<u32, Vec<(u32, i32)>>, Vec<TempCluster>, EdgeSet), SplitError>)
    requires
        tris_in_cluster >= 1,
        tri_count(indices@) <= u32::MAX,
        total(*distance),
        deterministic(*distance),
    ensures
        r == Err::<(HashMap<u32, Vec<(u32, i32)>>, Vec<TempCluster>, EdgeSet), SplitError>(SplitError::EmptyMesh) <==> tri_count(indices@) == 0,
        proper_triangles(indices@) && distinct_triangles(indices@) ==> r != Err::<(HashMap<u32, Vec<(u32, i32)>>, Vec<TempCluster>, EdgeSet), SplitError>(SplitError::TriangleNotFound),
        proper_triangles(indices@) && distinct_triangles(indices@) && no_max_corner(indices@) ==> r != Err::<(HashMap<u32, Vec<(u32, i32)>>, Vec<TempCluster>, EdgeSet), SplitError>(SplitError::OpenSeedEdge),
        tri_count(indices@) == 1 && proper_triangles(indices@) ==> r is Ok,
        r == Err::<(HashMap<u32, Vec<(u32, i32)>>, Vec<TempCluster>, EdgeSet), SplitError>(SplitError::Equidistant) ==> tie_reached(indices@, *distance, tris_in_cluster as int),
        proper_triangles(indices@) && distinct_triangles(indices@) && no_max_corner(indices@) && r == Err::<(HashMap<u32, Vec<(u32, i32)>>, Vec<TempCluster>, EdgeSet), SplitError>(SplitError::SeedMissing) ==> stuck_run(indices@, *distance, tris_in_cluster as int),
        r matches Ok((_, clusters, _)) ==> grown_by_greedy_run(indices@, *distance, tris_in_cluster as int, clusters@),
        r matches Ok((shared, clusters, mesh_edge)) ==> {
            &&& mesh_edge@ == outline(edge_table(indices@, tri_count(indices@)))
            &&& forall|c: int| 0 <= c < clusters@.len() ==> made_of_mesh_triangles(indices@, #[trigger] clusters@[c].mesh.indices@, tris_in_cluster as int)
            &&& proper_triangles(indices@) ==> cluster_triangles(clusters@).to_set() == crate::mesh::triangle_set(indices@)
            &&& proper_triangles(indices@) && distinct_triangles(indices@) ==> cluster_triangles(clusters@).no_duplicates()
            &&& forall|id: u32| #[trigger] shared@.contains_key(id) <==> id < clusters@.len()
            &&& forall|id: u32|
                #[trigger] shared@.contains_key(id) ==> {
                    &&& in_rank_order(shared@[id]@)
                    &&& shared@[id]@.no_duplicates()
                    &&& shared@[id]@.to_set() == neighbour_pairs(cut_views(clusters@), id as int)
                }
        },
{
    let ghost n = tri_count(indices@);
    let (edges0, tris0, _vertices, tables) = generate_data_structures(indices);
    let (vertex_map, tri_list) = tables;
    let mesh_edge = boundary_edges(&edges0);
    let mut edges = edges0;
    let mut tris = tris0;
    let mut clusters: Vec<TempCluster> = Vec::new();
    let mut overall: EdgeSet = set_new();
    proof {
        tri_list@.lemma_cardinality_of_set();
        assert forall|v: u32, i: usize| vertex_map@.contains_key(v) && #[trigger] vertex_map@[v]@.contains(i) implies i < tri_list@.len() by {
            assert(vertex_map@[v]@ == crate::mesh::triangles_at(indices@, n, v));
        }
        assert forall|x: Triangle| #[trigger] tris@.contains(x) implies is_mesh_triangle(indices@, x) by {
            let k = choose|k: int| 0 <= k < tri_list@.len() && tri_list@[k] == x;
            assert(x == sorted_tri(indices@, k));
        }
        assert forall|t: int| 0 <= t < n implies tris@.contains(#[trigger] sorted_tri(indices@, t)) by {
            assert(tri_list@[t] == sorted_tri(indices@, t));
        }
        if proper_triangles(indices@) && distinct_triangles(indices@) {
            lemma_edge_table_faithful(indices@, n);
            assert forall|x: Triangle| #[trigger] tris@.contains(x) == first_triangles(indices@, n).contains(x) by {
                if tris@.contains(x) {
                    let k = choose|k: int| 0 <= k < tri_list@.len() && tri_list@[k] == x;
                    assert(sorted_tri(indices@, k) == x);
                }
                if first_triangles(indices@, n).contains(x) {
                    let k = choose|k: int| 0 <= k < n && #[trigger] sorted_tri(indices@, k) == x;
                    assert(tri_list@[k] == x);
                }
            }
            assert(tris@ =~= first_triangles(indices@, n));
        }
        if proper_triangles(indices@) && distinct_triangles(indices@) && no_max_corner(indices@) {
            lemma_edge_table_closed(indices@, n);
        }
        assert(cluster_triangles(clusters@) =~= Seq::<Triangle>::empty());
        lemma_edge_table_sorted(indices@, n);
        if tri_count(indices@) == 1 && proper_triangles(indices@) {
            assert(distinct_triangles(indices@));
        }
    }
    let keys = map_keys(&edges);
    if keys.len() == 0 {
        proof {
            if n > 0 {
                let a = crate::mesh::corner(indices@, 0, 0);
                let b = crate::mesh::corner(indices@, 0, 1);
                lemma_first_edge_recorded(indices@, n);
                assert(keys@.to_set().contains(spec_edge(a, b)));
            }
        }
        return Err(SplitError::EmptyMesh);
    }
    proof {
        assert(keys@.to_set().contains(keys@[0]));
        if n == 0 {
            assert(edge_table(indices@, 0) =~= Map::<Edge, [u32; 2]>::empty());
        }
    }
    let first = keys[0];
    let entry = map_get(&edges, &first).unwrap();
    let mut seed = new_tri(first[0], first[1], entry[0]);
    let ghost mut growth: Seq<Seq<GrowthStep>> = Seq::empty();
    let ghost mut overalls: Seq<Set<Edge>> = seq![Set::<Edge>::empty()];
    proof {
        assert(keys@.to_set().contains(first));
        assert(edge_table(indices@, n).contains_key(first));
        assert(seed_follows(indices@, growth, overalls, 0, seed));
        if tri_count(indices@) == 1 && proper_triangles(indices@) {
            let (a, b, c) = (crate::mesh::corner(indices@, 0, 0), crate::mesh::corner(indices@, 0, 1), crate::mesh::corner(indices@, 0, 2));
            assert(a != b && b != c && a != c);
            assert(edge_table(indices@, 0) =~= Map::<Edge, [u32; 2]>::empty());
            assert(edges@ == single_table(a, b, c));
            lemma_single_table_seed(a, b, c, first);
            assert(tri_list@[0] == sorted_tri(indices@, 0));
            assert(tris@.contains(seed));
        }
        if proper_triangles(indices@) && distinct_triangles(indices@) && no_max_corner(indices@) {
            assert(edges@.contains_key(first));
            assert(entry[0] != u32::MAX);
            assert(tris@.contains(seed));
        }
    }
    while !tris.is_empty()
        invariant
            tris_in_cluster >= 1,
            n == tri_count(indices@),
            n >= 1,
            n <= u32::MAX,
            total(*distance),
            deterministic(*distance),
            tri_list@.len() == n,
            tri_list@ == Seq::new(n as nat, |t: int| sorted_tri(indices@, t)),
            forall|v: u32, i: usize| vertex_map@.contains_key(v) && #[trigger] vertex_map@[v]@.contains(i) ==> i < tri_list@.len(),
            tris@.finite(),
            clusters@.len() + tris@.len() <= n,
            mesh_edge@ == outline(edge_table(indices@, n)),
            forall|v: u32| #[trigger] vertex_map@.contains_key(v) ==> vertex_map@[v]@ == crate::mesh::triangles_at(indices@, n, v),
            forall|x: Triangle| #[trigger] tris@.contains(x) ==> is_mesh_triangle(indices@, x),
            proper_triangles(indices@) ==> forall|t: int|
                0 <= t < n ==> tris@.contains(#[trigger] sorted_tri(indices@, t)) || in_some_cluster(clusters@, sorted_tri(indices@, t)),
            proper_triangles(indices@) && distinct_triangles(indices@) ==> faithful_table(edges@, tris@),
            proper_triangles(indices@) && distinct_triangles(indices@) && no_max_corner(indices@) ==> closed_table(edges@),
            forall|v: u32| #[trigger] vertex_map@.contains_key(v) <==> crate::mesh::used_vertex(indices@, n, v),
            proper_triangles(indices@) && distinct_triangles(indices@) ==> cluster_triangles(clusters@).no_duplicates(),
            proper_triangles(indices@) && distinct_triangles(indices@) ==> forall|x: Triangle| #[trigger] cluster_triangles(clusters@).contains(x) ==> !tris@.contains(x),
            forall|c: int| 0 <= c < clusters@.len() ==> made_of_mesh_triangles(indices@, #[trigger] clusters@[c].mesh.indices@, tris_in_cluster as int),
            traced_table(edges@, edge_table(indices@, n)),
            tri_count(indices@) == 1 && proper_triangles(indices@) ==> distinct_triangles(indices@),
            tri_count(indices@) == 1 && proper_triangles(indices@) ==> (tris@.contains(seed) && clusters@.len() == 0) || (tris@ == Set::<Triangle>::empty()
                && edges@.dom() == Set::<Edge>::empty()),
            greedy_run(indices@, *distance, tris_in_cluster as int, clusters@, growth, overalls),
            overall@ == overalls.last(),
            edges@ == start_table(indices@, growth, clusters@.len() as int),
            seed_follows(indices@, growth, overalls, clusters@.len() as int, seed),
            proper_triangles(indices@) && distinct_triangles(indices@) && no_max_corner(indices@) ==> tris@.contains(seed) || (clusters@.len() >= 1 && forall|e: Edge|
                #[trigger] overall@.contains(e) ==> !edges@.contains_key(e)),
        decreases tris@.len(),
    {
        let ghost len_before = tris@.len();
        let ghost tris_before = tris@;
        if !set_remove(&mut tris, &seed) {
            proof {
                if tri_count(indices@) == 1 && proper_triangles(indices@) {
                    assert(!tris_before.is_empty());
                }
                if proper_triangles(indices@) && distinct_triangles(indices@) && no_max_corner(indices@) {
                    assert(!tris_before.is_empty());
                    let x = tris_before.choose();
                    assert(tris_before.contains(x));
                    let t = choose|t: int| 0 <= t < n && x == sorted_tri(indices@, t);
                    lemma_cluster_triangles_contains(clusters@, x);
                    lemma_stuck_witness(indices@, *distance, tris_in_cluster as int, clusters@, growth, overalls, t);
                }
            }
            return Err(SplitError::SeedMissing);
        }
        let ghost bound = tris@.len();
        assert(bound == len_before - 1);
        let tri = seed;
        let mut cur_cluster_idxs: Vec<u32> = Vec::new();
        let first_tri = match find_order_accurate_tri(&vertex_map, &tri_list, &tri) {
            Some(t) => t,
            None => {
                proof {
                    lemma_mesh_triangle_recorded(indices@, vertex_map@, tri);
                }
                return Err(SplitError::TriangleNotFound);
            },
        };
        cur_cluster_idxs.push(first_tri[0]);
        cur_cluster_idxs.push(first_tri[1]);
        cur_cluster_idxs.push(first_tri[2]);
        proof {
            let i = choose|i: usize| #[trigger] recorded_at_corners(vertex_map@, tri, i) && first_tri == tri_list@[i as int];
            assert(triple(cur_cluster_idxs@, 0) =~= sorted_tri(indices@, i as int));
            assert(is_mesh_triangle(indices@, triple(cur_cluster_idxs@, 0)));
            if proper_triangles(indices@) {
                lemma_found_is_sought(indices@, vertex_map@, tri_list@, tri, i);
                assert(triple(cur_cluster_idxs@, 0) == tri);
                assert(lists_triangle(cur_cluster_idxs@, tri));
            }
        }
        let mut cur_cut: EdgeSet = set_new();
        let ghost edges_b = edges@;
        let ghost overall_b = overall@;
        let ghost cur_b = cur_cut@;
        remove_tri(&tri, &mut tris, &mut edges, &mut overall, &mut cur_cut);
        let ghost mut g: Seq<GrowthStep> = seq![(edges@, cur_cut@, tri)];
        proof {
            lemma_removal_keeps_traced(tri, edges_b, overall_b, cur_b, edge_table(indices@, n));
            if proper_triangles(indices@) && distinct_triangles(indices@) {
                lemma_mesh_triangle_strict(indices@, tri);
                lemma_removal_keeps_faithful(tri, edges_b, overall_b, cur_b, tris_before);
                if no_max_corner(indices@) {
                    lemma_removal_keeps_closed(tri, edges_b, overall_b, cur_b);
                }
                assert(tris@ =~= tris_before.remove(tri));
                if tri_count(indices@) == 1 && proper_triangles(indices@) {
                    assert forall|x: Triangle| !#[trigger] tris@.contains(x) by {
                        if tris@.contains(x) {
                            assert(tris_before.contains(x));
                            assert(x == sorted_tri(indices@, 0));
                            assert(tri == sorted_tri(indices@, 0));
                        }
                    }
                    assert(tris@ =~= Set::<Triangle>::empty());
                    let (a, b, c) = (crate::mesh::corner(indices@, 0, 0), crate::mesh::corner(indices@, 0, 1), crate::mesh::corner(indices@, 0, 2));
                    assert(a != b && b != c && a != c);
                    assert(edge_table(indices@, 0) =~= Map::<Edge, [u32; 2]>::empty());
                    assert(edges_b == single_table(a, b, c));
                    assert(tri == spec_tri(a, b, c));
                    assert(cur_b == Set::<Edge>::empty());
                    lemma_single_table_clears(a, b, c, overall_b);
                    assert(edges@.dom() =~= Set::<Edge>::empty());
                }
                let ct = cluster_triangles(clusters@);
                assert(triangles_of(cur_cluster_idxs@) =~= seq![tri]);
                assert(ct + triangles_of(cur_cluster_idxs@) =~= ct.push(tri));
                lemma_push_fresh(ct, tri);
                assert forall|x: Triangle| #[trigger] ct.push(tri).contains(x) implies !tris@.contains(x) by {
                    let i = choose|i: int| 0 <= i < ct.push(tri).len() && ct.push(tri)[i] == x;
                    if i < ct.len() {
                        assert(ct.contains(x));
                    }
                }
            }
            if proper_triangles(indices@) {
                assert forall|t: int| 0 <= t < n implies tris@.contains(#[trigger] sorted_tri(indices@, t))
                    || in_some_cluster(clusters@, sorted_tri(indices@, t))
                    || lists_triangle(cur_cluster_idxs@, sorted_tri(indices@, t)) by {
                    assert(tris_before.contains(sorted_tri(indices@, t)) || in_some_cluster(clusters@, sorted_tri(indices@, t)));
                }
            }
        }
        assert(cur_cluster_idxs@.len() / 3 == 1);
        let mut step: usize = 0;
        while step < tris_in_cluster - 1
            invariant
                tris_in_cluster >= 1,
                step <= tris_in_cluster - 1,
                n == tri_count(indices@),
                n >= 1,
                n <= u32::MAX,
                total(*distance),
                deterministic(*distance),
                tri_list@ == Seq::new(n as nat, |t: int| sorted_tri(indices@, t)),
                forall|v: u32, i: usize| vertex_map@.contains_key(v) && #[trigger] vertex_map@[v]@.contains(i) ==> i < tri_list@.len(),
                tris@.finite(),
                tris@.len() <= bound,
                cur_cluster_idxs@.len() == 3 * (step + 1),
                cur_cluster_idxs@.len() / 3 == step + 1,
                forall|j: int|
                    0 <= j < step + 1 ==> #[trigger] is_mesh_triangle(indices@, triple(cur_cluster_idxs@, j)),
                forall|v: u32| #[trigger] vertex_map@.contains_key(v) ==> vertex_map@[v]@ == crate::mesh::triangles_at(indices@, n, v),
                forall|x: Triangle| #[trigger] tris@.contains(x) ==> is_mesh_triangle(indices@, x),
                proper_triangles(indices@) ==> forall|t: int|
                    0 <= t < n ==> tris@.contains(#[trigger] sorted_tri(indices@, t)) || in_some_cluster(clusters@, sorted_tri(indices@, t))
                        || lists_triangle(cur_cluster_idxs@, sorted_tri(indices@, t)),
                proper_triangles(indices@) && distinct_triangles(indices@) ==> faithful_table(edges@, tris@),
                proper_triangles(indices@) && distinct_triangles(indices@) && no_max_corner(indices@) ==> closed_table(edges@),
                traced_table(edges@, edge_table(indices@, n)),
                is_mesh_triangle(indices@, seed),
                tri_count(indices@) == 1 && proper_triangles(indices@) ==> distinct_triangles(indices@),
                tri_count(indices@) == 1 && proper_triangles(indices@) ==> tris@ == Set::<Triangle>::empty() && edges@.dom() == Set::<Edge>::empty(),
                g.len() == step + 1,
                g[0].2 == seed,
                (g[0].1, g[0].0) == after_removal(seed, start_table(indices@, growth, clusters@.len() as int), overall@, Set::<Edge>::empty()),
                forall|j: int| 1 <= j < g.len() ==> #[trigger] grew_at(*distance, overall@, g, j),
                edges@ == g.last().0,
                cur_cut@ == g.last().1,
                cur_cluster_idxs@.len() == 3 * g.len(),
                g.len() <= tris_in_cluster,
                greedy_run(indices@, *distance, tris_in_cluster as int, clusters@, growth, overalls),
                overall@ == overalls.last(),
                seed_follows(indices@, growth, overalls, clusters@.len() as int, seed),
                proper_triangles(indices@) && distinct_triangles(indices@) ==> forall|j: int| 0 <= j < g.len() ==> #[trigger] triple(cur_cluster_idxs@, j) == g[j].2,
                forall|v: u32| #[trigger] vertex_map@.contains_key(v) <==> crate::mesh::used_vertex(indices@, n, v),
                proper_triangles(indices@) && distinct_triangles(indices@) ==> (cluster_triangles(clusters@) + triangles_of(cur_cluster_idxs@)).no_duplicates(),
                proper_triangles(indices@) && distinct_triangles(indices@) ==> forall|x: Triangle|
                    #[trigger] (cluster_triangles(clusters@) + triangles_of(cur_cluster_idxs@)).contains(x) ==> !tris@.contains(x),
            ensures
                forall|v: u32| #[trigger] vertex_map@.contains_key(v) ==> vertex_map@[v]@ == crate::mesh::triangles_at(indices@, n, v),
                forall|x: Triangle| #[trigger] tris@.contains(x) ==> is_mesh_triangle(indices@, x),
                proper_triangles(indices@) ==> forall|t: int|
                    0 <= t < n ==> tris@.contains(#[trigger] sorted_tri(indices@, t)) || in_some_cluster(clusters@, sorted_tri(indices@, t))
                        || lists_triangle(cur_cluster_idxs@, sorted_tri(indices@, t)),
                proper_triangles(indices@) && distinct_triangles(indices@) ==> faithful_table(edges@, tris@),
                proper_triangles(indices@) && distinct_triangles(indices@) && no_max_corner(indices@) ==> closed_table(edges@),
                traced_table(edges@, edge_table(indices@, n)),
                is_mesh_triangle(indices@, seed),
                tri_count(indices@) == 1 && proper_triangles(indices@) ==> distinct_triangles(indices@),
                tri_count(indices@) == 1 && proper_triangles(indices@) ==> tris@ == Set::<Triangle>::empty() && edges@.dom() == Set::<Edge>::empty(),
                g.len() == step + 1,
                g[0].2 == seed,
                (g[0].1, g[0].0) == after_removal(seed, start_table(indices@, growth, clusters@.len() as int), overall@, Set::<Edge>::empty()),
                forall|j: int| 1 <= j < g.len() ==> #[trigger] grew_at(*distance, overall@, g, j),
                edges@ == g.last().0,
                cur_cut@ == g.last().1,
                cur_cluster_idxs@.len() == 3 * g.len(),
                g.len() <= tris_in_cluster,
                greedy_run(indices@, *distance, tris_in_cluster as int, clusters@, growth, overalls),
                overall@ == overalls.last(),
                seed_follows(indices@, growth, overalls, clusters@.len() as int, seed),
                proper_triangles(indices@) && distinct_triangles(indices@) ==> forall|j: int| 0 <= j < g.len() ==> #[trigger] triple(cur_cluster_idxs@, j) == g[j].2,
                g.len() == tris_in_cluster || no_offer(*distance, cur_cut@, edges@, seed),
                forall|v: u32| #[trigger] vertex_map@.contains_key(v) <==> crate::mesh::used_vertex(indices@, n, v),
                proper_triangles(indices@) && distinct_triangles(indices@) ==> (cluster_triangles(clusters@) + triangles_of(cur_cluster_idxs@)).no_duplicates(),
                proper_triangles(indices@) && distinct_triangles(indices@) ==> forall|x: Triangle|
                    #[trigger] (cluster_triangles(clusters@) + triangles_of(cur_cluster_idxs@)).contains(x) ==> !tris@.contains(x),
                tris@.finite(),
                tris@.len() <= bound,
                cur_cluster_idxs@.len() % 3 == 0,
                3 <= cur_cluster_idxs@.len() <= 3 * tris_in_cluster,
                forall|j: int|
                    0 <= j < cur_cluster_idxs@.len() / 3 ==> #[trigger] is_mesh_triangle(indices@, triple(cur_cluster_idxs@, j)),
            decreases tris_in_cluster - 1 - step,
        {
            let next = match closest_triangle(&cur_cut, &edges, distance, seed) {
                Ok(Some(t)) => t,
                Ok(None) => {
                    assert forall|j: int|
                        0 <= j < cur_cluster_idxs@.len() / 3 implies #[trigger] is_mesh_triangle(indices@, triple(cur_cluster_idxs@, j)) by {
                        assert(j < step + 1);
                    }
                    break;
                },
                Err(e) => {
                    proof {
                        let key = choose|key: Edge|
                            cur_cut@.contains(key) && edges@.contains_key(key) && #[trigger] is_tie(*distance, edges@[key], seed);
                        lemma_tie_traced(*distance, edges@, edge_table(indices@, n), key, seed);
                        lemma_tie_witness(indices@, *distance, tris_in_cluster as int, clusters@, growth, overalls, g, key);
                        if tri_count(indices@) == 1 && proper_triangles(indices@) {
                            assert(edges@.dom().contains(key));
                        }
                    }
                    return Err(e);
                },
            };
            let ghost tris_b = tris@;
            let ghost edges_b = edges@;
            let ghost overall_b = overall@;
            let ghost cur_b = cur_cut@;
            proof {
                lemma_removal_keeps_traced(next, edges_b, overall_b, cur_b, edge_table(indices@, n));
                if proper_triangles(indices@) && distinct_triangles(indices@) {
                    let key = choose|key: Edge| {
                        &&& #[trigger] offers(*distance, cur_cut@, edges@, seed, key)
                        &&& next == spec_tri(key[0], key[1], far_side(*distance, edges@[key], seed).unwrap().0)
                        &&& forall|k2: Edge| #[trigger] offers(*distance, cur_cut@, edges@, seed, k2) ==> far_side(*distance, edges@[key], seed).unwrap().1
                            <= far_side(*distance, edges@[k2], seed).unwrap().1
                    };
                    lemma_far_side_is_a_corner(*distance, edges@[key], seed);
                    if tri_count(indices@) == 1 && proper_triangles(indices@) {
                        assert(edges@.dom().contains(key));
                    }
                    assert(tris_b.contains(next));
                    lemma_mesh_triangle_strict(indices@, next);
                    lemma_removal_keeps_faithful(next, edges_b, overall_b, cur_b, tris_b);
                    if no_max_corner(indices@) {
                    lemma_removal_keeps_closed(next, edges_b, overall_b, cur_b);
                }
                }
            }
            remove_tri(&next, &mut tris, &mut edges, &mut overall, &mut cur_cut);
            let found = match find_order_accurate_tri(&vertex_map, &tri_list, &next) {
                Some(t) => t,
                None => {
                    proof {
                        if proper_triangles(indices@) && distinct_triangles(indices@) {
                            lemma_mesh_triangle_recorded(indices@, vertex_map@, next);
                        }
                    }
                    return Err(SplitError::TriangleNotFound);
                },
            };
            let ghost before = cur_cluster_idxs@;
            cur_cluster_idxs.push(found[0]);
            cur_cluster_idxs.push(found[1]);
            cur_cluster_idxs.push(found[2]);
            set_remove(&mut tris, &next);
            proof {
                let gb = g;
                g = g.push((edges@, cur_cut@, next));
                assert forall|j: int| 1 <= j < g.len() implies #[trigger] grew_at(*distance, overall@, g, j) by {
                    assert(g[0] == gb[0]);
                    if j < gb.len() {
                        assert(g[j] == gb[j] && g[j - 1] == gb[j - 1]);
                        assert(grew_at(*distance, overall@, gb, j));
                    } else {
                        assert(g[j - 1] == gb.last());
                    }
                }
            }
            proof {
                let len = cur_cluster_idxs@.len() as int;
                let st = step as int;
                assert(len / 3 == st + 2) by (nonlinear_arith)
                    requires
                        len == 3 * (st + 2),
                ;
                let i = choose|i: usize| #[trigger] recorded_at_corners(vertex_map@, next, i) && found == tri_list@[i as int];
                assert forall|j: int|
                    0 <= j < step + 2 implies #[trigger] is_mesh_triangle(indices@, triple(cur_cluster_idxs@, j)) by {
                    if j < step + 1 {
                        assert(triple(cur_cluster_idxs@, j) == triple(before, j));
                    } else {
                        assert(triple(cur_cluster_idxs@, j) =~= sorted_tri(indices@, i as int));
                        assert(is_mesh_triangle(indices@, triple(cur_cluster_idxs@, j)));
                    }
                }
                if proper_triangles(indices@) && distinct_triangles(indices@) {
                    assert(tris@ =~= tris_b.remove(next));
                    if tri_count(indices@) == 1 && proper_triangles(indices@) {
                        assert(tris@ =~= Set::<Triangle>::empty());
                    }
                    let ct = cluster_triangles(clusters@);
                    assert(triangles_of(cur_cluster_idxs@) =~= triangles_of(before).push(next));
                    assert(ct + triangles_of(cur_cluster_idxs@) =~= (ct + triangles_of(before)).push(next));
                    lemma_push_fresh(ct + triangles_of(before), next);
                    let sb = ct + triangles_of(before);
                    assert forall|x: Triangle| #[trigger] sb.push(next).contains(x) implies !tris@.contains(x) by {
                        let i = choose|i: int| 0 <= i < sb.push(next).len() && sb.push(next)[i] == x;
                        if i < sb.len() {
                            assert(sb.contains(x));
                        }
                    }
                }
                if proper_triangles(indices@) {
                    if tris_b.contains(next) {
                        lemma_found_is_sought(indices@, vertex_map@, tri_list@, next, i);
                        assert(triple(cur_cluster_idxs@, st + 1) =~= next);
                        assert(lists_triangle(cur_cluster_idxs@, next));
                    }
                    if distinct_triangles(indices@) {
                        assert forall|j: int| 0 <= j < g.len() implies #[trigger] triple(cur_cluster_idxs@, j) == g[j].2 by {
                            if j < st + 1 {
                                assert(triple(cur_cluster_idxs@, j) == triple(before, j));
                                assert(g[j] == g.drop_last()[j]);
                            }
                        }
                    }
                    assert forall|t: int| 0 <= t < n implies tris@.contains(#[trigger] sorted_tri(indices@, t))
                        || in_some_cluster(clusters@, sorted_tri(indices@, t))
                        || lists_triangle(cur_cluster_idxs@, sorted_tri(indices@, t)) by {
                        let x = sorted_tri(indices@, t);
                        if !tris@.contains(x) && !in_some_cluster(clusters@, x) {
                            if tris_b.contains(x) {
                                assert(x == next);
                                assert(triple(cur_cluster_idxs@, st + 1) =~= next);
                            } else {
                                assert(lists_triangle(before, x));
                                let j = choose|j: int| 0 <= j < before.len() / 3 && #[trigger] triple(before, j) == x;
                                assert(triple(cur_cluster_idxs@, j) == triple(before, j));
                            }
                        }
                    }
                }
            }
            step += 1;
            assert forall|j: int|
                0 <= j < cur_cluster_idxs@.len() / 3 implies #[trigger] is_mesh_triangle(indices@, triple(cur_cluster_idxs@, j)) by {
                assert(j < step + 1);
            }
        }
        let ghost overall_pre = overall@;
        let ghost cut_final = cur_cut@;
        merge_border(&mut overall, &cur_cut);
        let ghost cur_final = cur_cluster_idxs@;
        let cluster = TempCluster { mesh: TempMesh { indices: cur_cluster_idxs }, cut: cur_cut };
        let ghost clusters_before = clusters@;
        clusters.push(cluster);
        proof {
            let gr_b = growth;
            let ov_b = overalls;
            growth = growth.push(g);
            overalls = overalls.push(overall@);
            let k = clusters_before.len() as int;
            assert(growth[k] == g);
            assert(start_table(indices@, growth, k) == start_table(indices@, gr_b, k));
            assert(overalls[k] == overall_pre);
            assert(overalls[k + 1] == overall@);
            assert(clusters@[k].cut@ == cut_final);
            assert(clusters@[k].mesh.indices@ == cur_final);
            if k > 0 {
                assert(growth[k - 1] == gr_b[k - 1]);
            }
            assert(seed_follows(indices@, growth, overalls, k, g[0].2));
            assert(cluster_run(indices@, *distance, tris_in_cluster as int, clusters@, growth, overalls, k));
            assert forall|c: int| 0 <= c < clusters@.len() implies #[trigger] cluster_run(
                indices@,
                *distance,
                tris_in_cluster as int,
                clusters@,
                growth,
                overalls,
                c,
            ) by {
                if c < k {
                    assert(growth[c] == gr_b[c]);
                    assert(start_table(indices@, growth, c) == start_table(indices@, gr_b, c));
                    assert(overalls[c] == ov_b[c] && overalls[c + 1] == ov_b[c + 1]);
                    assert(clusters@[c] == clusters_before[c]);
                    assert(cluster_run(indices@, *distance, tris_in_cluster as int, clusters_before, gr_b, ov_b, c));
                    if c > 0 {
                        assert(growth[c - 1] == gr_b[c - 1]);
                    }
                    assert(seed_follows(indices@, growth, overalls, c, growth[c][0].2));
                }
            }
            assert(edges@ == start_table(indices@, growth, clusters@.len() as int));
            assert(clusters@.drop_last() =~= clusters_before);
            assert(cluster_triangles(clusters@) == cluster_triangles(clusters_before) + triangles_of(cur_final));
            if proper_triangles(indices@) {
                assert forall|t: int| 0 <= t < n implies tris@.contains(#[trigger] sorted_tri(indices@, t))
                    || in_some_cluster(clusters@, sorted_tri(indices@, t)) by {
                    let x = sorted_tri(indices@, t);
                    if in_some_cluster(clusters_before, x) {
                        let c = choose|c: int| 0 <= c < clusters_before.len() && #[trigger] lists_triangle(clusters_before[c].mesh.indices@, x);
                        assert(clusters@[c] == clusters_before[c]);
                    } else if !tris@.contains(x) {
                        assert(clusters@[clusters_before.len() as int].mesh.indices@ == cur_final);
                        assert(lists_triangle(clusters@[clusters_before.len() as int].mesh.indices@, x));
                    }
                }
            }
        }
        let ghost seed_old = seed;
        seed = match next_seed(&overall, &edges, seed) {
            Ok(t) => t,
            Err(e) => {
                proof {
                    let bad = choose|bad: Edge| overall@.contains(bad) && edges@.contains_key(bad) && #[trigger] open_entry(edges@[bad]);
                    if proper_triangles(indices@) && distinct_triangles(indices@) && no_max_corner(indices@) {
                        assert(!open_entry(edges@[bad]));
                    }
                    if tri_count(indices@) == 1 && proper_triangles(indices@) {
                        assert(edges@.dom().contains(bad));
                    }
                }
                return Err(e);
            },
        };
        proof {
            assert(growth[clusters@.len() - 1] == g);
            assert(seed_follows(indices@, growth, overalls, clusters@.len() as int, seed));
            if proper_triangles(indices@) && distinct_triangles(indices@) && no_max_corner(indices@) && !tris@.contains(seed) {
                if !(seed == seed_old && forall|e: Edge| overall@.contains(e) ==> !#[trigger] edges@.contains_key(e)) {
                    let e = choose|e: Edge| {
                        &&& overall@.contains(e) && #[trigger] edges@.contains_key(e)
                        &&& !open_entry(edges@[e])
                        &&& seed == seed_across(e, edges@[e])
                        &&& !ideal_seed(overall@, e, edges@[e]) ==> forall|e2: Edge|
                            overall@.contains(e2) && #[trigger] edges@.contains_key(e2) ==> !ideal_seed(overall@, e2, edges@[e2]) && !open_entry(edges@[e2])
                    };
                    assert(seed_corner(edges@[e]) != u32::MAX);
                }
            }
        }
    }
    proof {
        assert(greedy_run(indices@, *distance, tris_in_cluster as int, clusters@, growth, overalls));
        if proper_triangles(indices@) {
            assert forall|t: int| 0 <= t < n implies in_some_cluster(clusters@, #[trigger] sorted_tri(indices@, t)) by {
                assert(!tris@.contains(sorted_tri(indices@, t)));
            }
            let ct = cluster_triangles(clusters@);
            assert forall|x: Triangle| #[trigger] ct.to_set().contains(x) == crate::mesh::triangle_set(indices@).contains(x) by {
                lemma_cluster_triangles_contains(clusters@, x);
                if ct.contains(x) {
                    let c = choose|c: int| 0 <= c < clusters@.len() && #[trigger] lists_triangle(clusters@[c].mesh.indices@, x);
                    let j = choose|j: int| 0 <= j < clusters@[c].mesh.indices@.len() / 3 && #[trigger] triple(clusters@[c].mesh.indices@, j) == x;
                    assert(made_of_mesh_triangles(indices@, clusters@[c].mesh.indices@, tris_in_cluster as int));
                    assert(is_mesh_triangle(indices@, x));
                }
                if crate::mesh::triangle_set(indices@).contains(x) {
                    let t = choose|t: int| 0 <= t < n && #[trigger] sorted_tri(indices@, t) == x;
                    assert(in_some_cluster(clusters@, sorted_tri(indices@, t)));
                }
            }
            assert(ct.to_set() =~= crate::mesh::triangle_set(indices@));
        }
    }
    let shared = shared_edges(&clusters);
    proof {
        lemma_run_witness(indices@, *distance, tris_in_cluster as int, clusters@, growth, overalls);
    }
    assert(grown_by_greedy_run(indices@, *distance, tris_in_cluster as int, clusters@));
    Ok((shared, clusters, mesh_edge))
}

/// The edge between the first two corners of the first triangle is in the edge table.
proof fn lemma_first_edge_recorded(indices: Seq<u32>, n: int)
    requires
        n >= 1,
    ensures
        edge_table(indices, n).contains_key(spec_edge(crate::mesh::corner(indices, 0, 0), crate::mesh::corner(indices, 0, 1))),
    decreases n,
{
    if n > 1 {
        lemma_first_edge_recorded(indices, n - 1);
    }
}

/// Sharing is mutual: cluster `a` lists cluster `b` with some number of shared edges
/// exactly when `b` lists `a` with the same number.
pub proof fn law_shared_edges_symmetric(cuts: Seq<Set<Edge>>, a: u32, b: u32, count: i32)
    requires
        a < cuts.len(),
        b < cuts.len(),
    ensures
        neighbour_pairs(cuts, a as int).contains((b, count)) == neighbour_pairs(cuts, b as int).contains((a, count)),
{
    assert(cuts[a as int].intersect(cuts[b as int]) =~= cuts[b as int].intersect(cuts[a as int]));
}

/// A split that puts every triangle of the mesh into a cluster, none twice, hands back
/// as many triangles in all as the mesh has, where no two triangles of the mesh have the
/// same corners.
pub proof fn law_split_counts_every_triangle_once(indices: Seq<u32>, clusters: Seq<TempCluster>)
    requires
        distinct_triangles(indices),
        cluster_triangles(clusters).to_set() == crate::mesh::triangle_set(indices),
        cluster_triangles(clusters).no_duplicates(),
    ensures
        cluster_triangles(clusters).len() == tri_count(indices),
{
    let n = tri_count(indices);
    let all = Seq::new(n as nat, |t: int| sorted_tri(indices, t));
    assert forall|i: int, j: int| 0 <= i < j < all.len() implies all[i] != all[j] by {
        assert(sorted_tri(indices, i) != sorted_tri(indices, j));
    }
    assert(all.no_duplicates());
    assert forall|x: Triangle| #[trigger] all.to_set().contains(x) == crate::mesh::triangle_set(indices).contains(x) by {
        if all.contains(x) {
            let i = choose|i: int| 0 <= i < all.len() && all[i] == x;
            assert(sorted_tri(indices, i) == x);
        }
        if crate::mesh::triangle_set(indices).contains(x) {
            let t = choose|t: int| 0 <= t < n && #[trigger] sorted_tri(indices, t) == x;
            assert(all[t] == x);
        }
    }
    assert(all.to_set() =~= crate::mesh::triangle_set(indices));
    all.unique_seq_to_set();
    cluster_triangles(clusters).unique_seq_to_set();
}

} // verus!
