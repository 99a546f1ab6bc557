//! The connectivity of a triangle mesh given by its index list: which triangles touch
//! which vertices, which vertices neighbour each other, and what lies across each edge.

use crate::fold::{map_get, map_insert, map_new, set_elements, set_insert, set_new, EdgeMap, EdgeSet, TriSet};
use crate::topology::{new_edge, new_tri, spec_edge, spec_tri, Edge, Triangle};
use std::collections::HashMap;
use std::collections::HashSet;
use vstd::prelude::*;

verus! {

/// A mesh given by its index list alone; the positions are kept elsewhere.
pub struct TempMesh {
    pub indices: Vec<u32>,
}

/// The values of `s` rise strictly from each position to the next.
pub open spec fn strictly_ascending(s: Seq<u32>) -> bool {
    forall|i: int, j: int| 0 <= i < j < s.len() ==> s[i] < s[j]
}

/// Puts `x` into the strictly ascending list `v` unless it is there already.
pub fn insert_sorted(v: &mut Vec<u32>, x: u32)
    requires
        strictly_ascending(old(v)@),
    ensures
        strictly_ascending(final(v)@),
        final(v)@.to_set() == old(v)@.to_set().insert(x),
{
    let mut p: usize = 0;
    while p < v.len() && v[p] < x
        invariant
            0 <= p <= v@.len(),
            forall|i: int| 0 <= i < p ==> v@[i] < x,
        decreases v@.len() - p,
    {
        p += 1;
    }
    if p < v.len() && v[p] == x {
        assert(v@.to_set().insert(x) =~= v@.to_set());
        return ;
    }
    let ghost before = v@;
    v.insert(p, x);
    assert(v@ =~= before.take(p as int).push(x) + before.skip(p as int));
    assert forall|i: int, j: int| 0 <= i < j < v@.len() implies v@[i] < v@[j] by {
        if j < p {
        } else if j == p {
        } else if i < p {
            assert(v@[j] == before[j - 1]);
            assert(before[p as int] > x);
        } else if i == p {
            assert(v@[j] == before[j - 1]);
            assert(before[p as int] > x);
            assert(j - 1 == p || before[p as int] < before[j - 1]);
        } else {
            assert(v@[j] == before[j - 1]);
            assert(v@[i] == before[i - 1]);
        }
    }
    assert forall|y: u32| #[trigger] v@.to_set().contains(y) <==> before.to_set().insert(x).contains(y) by {
        if v@.to_set().contains(y) {
            let k = choose|k: int| 0 <= k < v@.len() && v@[k] == y;
            if k < p {
                assert(before[k] == y);
            } else if k > p {
                assert(before[k - 1] == y);
            }
        }
        if before.to_set().contains(y) {
            let k = choose|k: int| 0 <= k < before.len() && before[k] == y;
            if k < p {
                assert(v@[k] == y);
            } else {
                assert(v@[k + 1] == y);
            }
        }
        if y == x {
            assert(v@[p as int] == x);
        }
    }
    assert(v@.to_set() =~= before.to_set().insert(x));
}

/// `m2` agrees with `m1` on every key other than `k`.
pub open spec fn same_except<V>(m1: Map<u32, V>, m2: Map<u32, V>, k: u32) -> bool {
    forall|j: u32|
        j != k ==> (#[trigger] m2.contains_key(j) == m1.contains_key(j) && (m1.contains_key(j)
            ==> m2[j] == m1[j]))
}

/// The triangles recorded for vertex `v` (none if `v` has no entry).
pub open spec fn recorded_triangles(m: Map<u32, HashSet<usize>>, v: u32) -> Set<usize> {
    if m.contains_key(v) {
        m[v]@
    } else {
        Set::empty()
    }
}

/// The neighbours recorded for vertex `v` (none if `v` has no entry).
pub open spec fn recorded_neighbours(m: Map<u32, Vec<u32>>, v: u32) -> Seq<u32> {
    if m.contains_key(v) {
        m[v]@
    } else {
        Seq::empty()
    }
}

/// Records that triangle `t` touches vertex `v`.
fn add_triangle_of_vertex(m: &mut HashMap<u32, HashSet<usize>>, v: u32, t: usize)
    ensures
        final(m)@.contains_key(v),
        final(m)@[v]@ == recorded_triangles(old(m)@, v).insert(t),
        same_except(old(m)@, final(m)@, v),
{
    let mut set = match m.remove(&v) {
        Some(s) => s,
        None => HashSet::new(),
    };
    set.insert(t);
    m.insert(v, set);
}

/// Records that `w` neighbours `v`, keeping the neighbour list ascending and free of
/// repeats.
fn add_neighbour(m: &mut HashMap<u32, Vec<u32>>, v: u32, w: u32)
    requires
        strictly_ascending(recorded_neighbours(old(m)@, v)),
    ensures
        final(m)@.contains_key(v),
        strictly_ascending(final(m)@[v]@),
        final(m)@[v]@.to_set() == recorded_neighbours(old(m)@, v).to_set().insert(w),
        same_except(old(m)@, final(m)@, v),
{
    let mut list = match m.remove(&v) {
        Some(l) => l,
        None => Vec::new(),
    };
    insert_sorted(&mut list, w);
    m.insert(v, list);
}

/// The entry of an edge after one more triangle with the opposite corner `opp` has
/// been found on it: the first sighting stores `[opp, u32::MAX]`; a later one stores
/// `opp` with the first value stored before, ascending.
pub open spec fn edge_entry_update(m: Map<Edge, [u32; 2]>, key: Edge, opp: u32) -> Map<
    Edge,
    [u32; 2],
> {
    if m.contains_key(key) {
        m.insert(key, spec_edge(opp, m[key][0]))
    } else {
        m.insert(key, [opp, u32::MAX])
    }
}

fn update_edge_entry(m: &mut EdgeMap<[u32; 2]>, key: Edge, opp: u32)
    ensures
        final(m)@ == edge_entry_update(old(m)@, key, opp),
{
    let old_value = map_insert(m, key, [opp, u32::MAX]);
    if let Some(v) = old_value {
        map_insert(m, key, new_edge(opp, v[0]));
    }
}

/// Records that the triangle at position `t` touches each of its corners `a`, `b`, `c`.
fn add_triangle_corners(m: &mut HashMap<u32, HashSet<usize>>, a: u32, b: u32, c: u32, t: usize)
    ensures
        forall|v: u32| #[trigger]
            final(m)@.contains_key(v) <==> (old(m)@.contains_key(v) || v == a || v == b || v == c),
        forall|v: u32| #[trigger]
            recorded_triangles(final(m)@, v) == (if v == a || v == b || v == c {
                recorded_triangles(old(m)@, v).insert(t)
            } else {
                recorded_triangles(old(m)@, v)
            }),
{
    let ghost m0 = m@;
    add_triangle_of_vertex(m, a, t);
    let ghost m1 = m@;
    add_triangle_of_vertex(m, b, t);
    let ghost m2 = m@;
    add_triangle_of_vertex(m, c, t);
    assert forall|v: u32| #[trigger]
        recorded_triangles(m@, v) == (if v == a || v == b || v == c {
            recorded_triangles(m0, v).insert(t)
        } else {
            recorded_triangles(m0, v)
        }) by {
        if v == a || v == b || v == c {
            assert(recorded_triangles(m@, v) =~= recorded_triangles(m0, v).insert(t));
        }
    }
}

/// Corners `a`, `b`, `c` of one triangle: some corner is `v` and another is `w`.
pub open spec fn meet3(a: u32, b: u32, c: u32, v: u32, w: u32) -> bool {
    (a == v && (b == w || c == w)) || (b == v && (a == w || c == w)) || (c == v && (a == w || b
        == w))
}

/// The neighbour lists of every vertex are ascending and free of repeats.
pub open spec fn neighbour_lists_ascending(m: Map<u32, Vec<u32>>) -> bool {
    forall|v: u32| #[trigger] m.contains_key(v) ==> strictly_ascending(m[v]@)
}

/// Records the neighbour relations within the triangle with corners `a`, `b`, `c`.
fn add_triangle_neighbours(m: &mut HashMap<u32, Vec<u32>>, a: u32, b: u32, c: u32)
    requires
        neighbour_lists_ascending(old(m)@),
    ensures
        neighbour_lists_ascending(final(m)@),
        forall|v: u32| #[trigger]
            final(m)@.contains_key(v) <==> (old(m)@.contains_key(v) || v == a || v == b || v == c),
        forall|v: u32| #[trigger]
            recorded_neighbours(final(m)@, v).to_set() == recorded_neighbours(old(m)@, v).to_set().union(
                Set::new(|w: u32| meet3(a, b, c, v, w)),
            ),
{
    let ghost m0 = m@;
    add_neighbour(m, a, b);
    let ghost m1 = m@;
    add_neighbour(m, a, c);
    let ghost m2 = m@;
    add_neighbour(m, b, a);
    let ghost m3 = m@;
    add_neighbour(m, b, c);
    let ghost m4 = m@;
    add_neighbour(m, c, a);
    let ghost m5 = m@;
    add_neighbour(m, c, b);
    assert forall|v: u32| #[trigger]
        recorded_neighbours(m@, v).to_set() == recorded_neighbours(m0, v).to_set().union(
            Set::new(|w: u32| meet3(a, b, c, v, w)),
        ) by {
        assert(recorded_neighbours(m@, v).to_set() =~= recorded_neighbours(m0, v).to_set().union(
            Set::new(|w: u32| meet3(a, b, c, v, w)),
        ));
    }
}

/// Corner `k` of triangle `t` of the index list.
pub open spec fn corner(indices: Seq<u32>, t: int, k: int) -> u32 {
    indices[3 * t + k]
}

/// The number of whole triangles in the index list (trailing indices are ignored).
pub open spec fn tri_count(indices: Seq<u32>) -> int {
    indices.len() as int / 3
}

/// Triangle `t` of the index list with its corners in ascending order.
pub open spec fn sorted_tri(indices: Seq<u32>, t: int) -> Triangle {
    spec_tri(corner(indices, t, 0), corner(indices, t, 1), corner(indices, t, 2))
}

/// The triangles of an index list (three indices each), corners ascending.
pub open spec fn triangle_set(s: Seq<u32>) -> Set<Triangle> {
    Set::new(|x: Triangle| exists|t: int| 0 <= t < tri_count(s) && #[trigger] sorted_tri(s, t) == x)
}

/// Triangle `t` has `v` among its corners.
pub open spec fn has_corner(indices: Seq<u32>, t: int, v: u32) -> bool {
    corner(indices, t, 0) == v || corner(indices, t, 1) == v || corner(indices, t, 2) == v
}

/// Some corner of triangle `t` is `v` and another corner of it is `w`.
pub open spec fn corners_meet(indices: Seq<u32>, t: int, v: u32, w: u32) -> bool {
    let (a, b, c) = (corner(indices, t, 0), corner(indices, t, 1), corner(indices, t, 2));
    (a == v && (b == w || c == w)) || (b == v && (a == w || c == w)) || (c == v && (a == w || b
        == w))
}

/// `v` is a corner of one of the first `n` triangles.
pub open spec fn used_vertex(indices: Seq<u32>, n: int, v: u32) -> bool {
    exists|t: int| 0 <= t < n && #[trigger] has_corner(indices, t, v)
}

/// The positions among the first `n` triangles of those that have `v` as a corner.
pub open spec fn triangles_at(indices: Seq<u32>, n: int, v: u32) -> Set<usize> {
    Set::new(|t: usize| t < n && has_corner(indices, t as int, v))
}

/// The vertices that share one of the first `n` triangles with `v`, at another corner.
pub open spec fn neighbours(indices: Seq<u32>, n: int, v: u32) -> Set<u32> {
    Set::new(|w: u32| exists|t: int| 0 <= t < n && #[trigger] corners_meet(indices, t, v, w))
}

/// The edge table after the first `n` triangles: each triangle in turn reports its
/// edges `(0,1)`, `(0,2)` and `(1,2)` together with the corner opposite each.
pub open spec fn edge_table(indices: Seq<u32>, n: int) -> Map<Edge, [u32; 2]>
    decreases n,
{
    if n <= 0 {
        Map::empty()
    } else {
        let m = edge_table(indices, n - 1);
        let (a, b, c) = (corner(indices, n - 1, 0), corner(indices, n - 1, 1), corner(indices, n - 1, 2));
        edge_entry_update(
            edge_entry_update(edge_entry_update(m, spec_edge(a, b), c), spec_edge(a, c), b),
            spec_edge(b, c),
            a,
        )
    }
}

/// The connectivity tables of the first `n` triangles, as `generate_data_structures`
/// builds them.
pub open spec fn tables_match(
    indices: Seq<u32>,
    n: int,
    edges: Map<Edge, [u32; 2]>,
    tris: Set<Triangle>,
    vertices: Map<u32, Vec<u32>>,
    vertex_map: Map<u32, HashSet<usize>>,
    tri_list: Seq<Triangle>,
) -> bool {
    &&& edges == edge_table(indices, n)
    &&& tri_list == Seq::new(n as nat, |t: int| sorted_tri(indices, t))
    &&& tris == tri_list.to_set()
    &&& forall|v: u32| #[trigger] vertex_map.contains_key(v) <==> used_vertex(indices, n, v)
    &&& forall|v: u32| #[trigger]
        vertex_map.contains_key(v) ==> vertex_map[v]@ == triangles_at(indices, n, v)
    &&& forall|v: u32| #[trigger] vertices.contains_key(v) <==> used_vertex(indices, n, v)
    &&& forall|v: u32| #[trigger]
        vertices.contains_key(v) ==> strictly_ascending(vertices[v]@) && vertices[v]@.to_set()
            == neighbours(indices, n, v)
}

/// Builds the connectivity tables of a mesh from its index list, three indices per
/// triangle:
/// - for each edge, the corners opposite it (`u32::MAX` where only one triangle has
///   been seen on it),
/// - the set of triangles, corners ascending,
/// - for each vertex, its neighbours, ascending and without repeats,
/// - for each vertex, the positions of the triangles that touch it, and the list of
///   triangles in mesh order, corners ascending.
pub fn generate_data_structures(indices: &Vec<u32>) -> (r: (
    EdgeMap<[u32; 2]>,
    TriSet,
    HashMap<u32, Vec<u32>>,
    (HashMap<u32, HashSet<usize>>, Vec<Triangle>),
))
    ensures
        tables_match(
            indices@,
            tri_count(indices@),
            r.0@,
            r.1@,
            r.2@,
            r.3.0@,
            r.3.1@,
        ),
        r.1@ == triangle_set(indices@),
{
    let count = indices.len() / 3;
    let mut edges: EdgeMap<[u32; 2]> = map_new();
    let mut tris: TriSet = set_new();
    let mut vertices: HashMap<u32, Vec<u32>> = HashMap::new();
    let mut vertex_map: HashMap<u32, HashSet<usize>> = HashMap::new();
    let mut tri_list: Vec<Triangle> = Vec::new();
    proof {
        assert(tri_list@ =~= Seq::new(0, |t: int| sorted_tri(indices@, t)));
        assert(tris@ =~= tri_list@.to_set());
        assert(edges@ =~= edge_table(indices@, 0));
    }
    let mut idx: usize = 0;
    let mut t: usize = 0;
    while t < count
        invariant
            count == tri_count(indices@),
            0 <= t <= count,
            idx == 3 * t,
            tables_match(indices@, t as int, edges@, tris@, vertices@, vertex_map@, tri_list@),
        decreases count - t,
    {
        assert(idx + 2 < indices.len());
        let idx0 = indices[idx];
        let idx1 = indices[idx + 1];
        let idx2 = indices[idx + 2];
        let ghost ind = indices@;
        let ghost n = t as int;
        assert(idx0 == corner(ind, n, 0) && idx1 == corner(ind, n, 1) && idx2 == corner(ind, n, 2));

        let tri_idx = tri_list.len();
        let ghost old_list = tri_list@;
        tri_list.push(new_tri(idx0, idx1, idx2));
        let ghost old_vm = vertex_map@;
        add_triangle_corners(&mut vertex_map, idx0, idx1, idx2, tri_idx);

        update_edge_entry(&mut edges, new_edge(idx0, idx1), idx2);
        update_edge_entry(&mut edges, new_edge(idx0, idx2), idx1);
        update_edge_entry(&mut edges, new_edge(idx1, idx2), idx0);

        let ghost old_vs = vertices@;
        add_triangle_neighbours(&mut vertices, idx0, idx1, idx2);
        let ghost old_tris = tris@;
        set_insert(&mut tris, new_tri(idx0, idx1, idx2));

        proof {
            let new_t = spec_tri(idx0, idx1, idx2);
            assert(tri_list@ =~= Seq::new((n + 1) as nat, |i: int| sorted_tri(ind, i)));
            assert(tris@ =~= tri_list@.to_set()) by {
                assert forall|x: Triangle| tri_list@.to_set().contains(x) <==> #[trigger] old_tris.insert(new_t).contains(x) by {
                    if tri_list@.to_set().contains(x) {
                        let k = choose|k: int| 0 <= k < tri_list@.len() && tri_list@[k] == x;
                        if k < n {
                            assert(old_list[k] == x);
                        }
                    }
                    if old_list.to_set().contains(x) {
                        let k = choose|k: int| 0 <= k < old_list.len() && old_list[k] == x;
                        assert(tri_list@[k] == x);
                    }
                    if x == new_t {
                        assert(tri_list@[n] == x);
                    }
                }
            }
            assert forall|v: u32| #[trigger] used_vertex(ind, n + 1, v) <==> (used_vertex(ind, n, v) || has_corner(ind, n, v)) by {
                if used_vertex(ind, n + 1, v) {
                    let k = choose|k: int| 0 <= k < n + 1 && #[trigger] has_corner(ind, k, v);
                    if k < n {
                        assert(used_vertex(ind, n, v));
                    }
                }
                if used_vertex(ind, n, v) {
                    let k = choose|k: int| 0 <= k < n && #[trigger] has_corner(ind, k, v);
                    assert(0 <= k < n + 1 && has_corner(ind, k, v));
                }
                if has_corner(ind, n, v) {
                    assert(0 <= n < n + 1 && has_corner(ind, n, v));
                }
            }
            assert forall|v: u32| #[trigger] vertex_map@.contains_key(v) <==> used_vertex(ind, n + 1, v) by {}
            assert forall|v: u32| #[trigger] vertex_map@.contains_key(v) implies vertex_map@[v]@ == triangles_at(ind, n + 1, v) by {
                assert(recorded_triangles(vertex_map@, v) == vertex_map@[v]@);
                if !old_vm.contains_key(v) {
                    assert(triangles_at(ind, n, v) =~= Set::<usize>::empty()) by {
                        assert forall|k: usize| !triangles_at(ind, n, v).contains(k) by {
                            if k < n && has_corner(ind, k as int, v) {
                                assert(used_vertex(ind, n, v));
                            }
                        }
                    }
                }
                assert(recorded_triangles(old_vm, v) == triangles_at(ind, n, v));
                assert(vertex_map@[v]@ =~= triangles_at(ind, n + 1, v));
            }
            assert forall|v: u32| #[trigger] vertices@.contains_key(v) implies strictly_ascending(vertices@[v]@) && vertices@[v]@.to_set() == neighbours(ind, n + 1, v) by {
                assert(recorded_neighbours(vertices@, v) == vertices@[v]@);
                if !old_vs.contains_key(v) {
                    assert(neighbours(ind, n, v) =~= Set::<u32>::empty()) by {
                        assert forall|w: u32| !neighbours(ind, n, v).contains(w) by {
                            if neighbours(ind, n, v).contains(w) {
                                let k = choose|k: int| 0 <= k < n && #[trigger] corners_meet(ind, k, v, w);
                                assert(has_corner(ind, k, v));
                                assert(used_vertex(ind, n, v));
                            }
                        }
                    }
                    assert(recorded_neighbours(old_vs, v).to_set() =~= Set::<u32>::empty());
                }
                assert(recorded_neighbours(old_vs, v).to_set() == neighbours(ind, n, v));
                assert forall|w: u32| #[trigger] neighbours(ind, n + 1, v).contains(w) <==> (neighbours(ind, n, v).contains(w) || meet3(idx0, idx1, idx2, v, w)) by {
                    if neighbours(ind, n + 1, v).contains(w) {
                        let k = choose|k: int| 0 <= k < n + 1 && #[trigger] corners_meet(ind, k, v, w);
                        if k < n {
                            assert(neighbours(ind, n, v).contains(w));
                        }
                    }
                    if neighbours(ind, n, v).contains(w) {
                        let k = choose|k: int| 0 <= k < n && #[trigger] corners_meet(ind, k, v, w);
                        assert(0 <= k < n + 1 && corners_meet(ind, k, v, w));
                    }
                    if meet3(idx0, idx1, idx2, v, w) {
                        assert(corners_meet(ind, n, v, w));
                    }
                }
                assert(vertices@[v]@.to_set() =~= neighbours(ind, n + 1, v));
            }
            assert forall|v: u32| #[trigger] vertices@.contains_key(v) <==> used_vertex(ind, n + 1, v) by {}
        }
        idx += 3;
        t += 1;
    }
    proof {
        let ghost n = tri_count(indices@);
        assert forall|x: Triangle| #[trigger] tris@.contains(x) == triangle_set(indices@).contains(x) by {
            if tri_list@.to_set().contains(x) {
                let k = choose|k: int| 0 <= k < tri_list@.len() && tri_list@[k] == x;
                assert(sorted_tri(indices@, k) == x);
            }
            if triangle_set(indices@).contains(x) {
                let k = choose|k: int| 0 <= k < n && #[trigger] sorted_tri(indices@, k) == x;
                assert(tri_list@[k] == x);
            }
        }
        assert(tris@ =~= triangle_set(indices@));
    }
    (edges, tris, vertices, (vertex_map, tri_list))
}

/// The values of `s` in the order of their first appearance, each once.
pub open spec fn first_appearances(s: Seq<u32>) -> Seq<u32>
    decreases s.len(),
{
    if s.len() == 0 {
        Seq::empty()
    } else {
        let d = first_appearances(s.drop_last());
        if d.contains(s.last()) {
            d
        } else {
            d.push(s.last())
        }
    }
}

/// The position of `v` in `d` (meaningful when `d` holds `v` once).
pub open spec fn position_of(d: Seq<u32>, v: u32) -> int {
    choose|j: int| 0 <= j < d.len() && d[j] == v
}

proof fn lemma_first_appearances(s: Seq<u32>)
    ensures
        first_appearances(s).no_duplicates(),
        forall|v: u32| #[trigger] first_appearances(s).contains(v) <==> s.contains(v),
    decreases s.len(),
{
    if s.len() > 0 {
        let p = s.drop_last();
        lemma_first_appearances(p);
        let d = first_appearances(p);
        assert forall|v: u32| #[trigger] s.contains(v) <==> (p.contains(v) || v == s.last()) by {
            if s.contains(v) {
                let k = choose|k: int| 0 <= k < s.len() && s[k] == v;
                if k < s.len() - 1 {
                    assert(p[k] == v);
                }
            }
            if p.contains(v) {
                let k = choose|k: int| 0 <= k < p.len() && p[k] == v;
                assert(s[k] == v);
            }
            if v == s.last() {
                assert(s[s.len() - 1] == v);
            }
        }
        if !d.contains(s.last()) {
            let e = d.push(s.last());
            assert forall|v: u32| #[trigger] e.contains(v) <==> (d.contains(v) || v == s.last()) by {
                if e.contains(v) {
                    let k = choose|k: int| 0 <= k < e.len() && e[k] == v;
                    if k < d.len() {
                        assert(d[k] == v);
                    }
                }
                if d.contains(v) {
                    let k = choose|k: int| 0 <= k < d.len() && d[k] == v;
                    assert(e[k] == v);
                }
                if v == s.last() {
                    assert(e[d.len() as int] == v);
                }
            }
        }
    }
}

/// `p` is the beginning of `q`.
pub open spec fn is_prefix(p: Seq<u32>, q: Seq<u32>) -> bool {
    p.len() <= q.len() && forall|k: int| 0 <= k < p.len() ==> #[trigger] p[k] == q[k]
}

proof fn lemma_first_appearances_prefix(s: Seq<u32>, j: int)
    requires
        0 <= j <= s.len(),
    ensures
        is_prefix(first_appearances(s.take(j)), first_appearances(s)),
    decreases s.len(),
{
    if j == s.len() {
        assert(s.take(j) =~= s);
    } else {
        lemma_first_appearances_prefix(s.drop_last(), j);
        assert(s.drop_last().take(j) =~= s.take(j));
    }
}

proof fn lemma_position_in_prefix(p: Seq<u32>, q: Seq<u32>, v: u32)
    requires
        is_prefix(p, q),
        q.no_duplicates(),
        p.contains(v),
    ensures
        position_of(p, v) == position_of(q, v),
        0 <= position_of(p, v) < p.len(),
        p[position_of(p, v)] == v,
{
    let j = position_of(p, v);
    assert(q[j] == v);
    let j2 = position_of(q, v);
}

/// The renumbered index list: each index replaced by the position of its vertex among
/// the vertices in order of first appearance.
pub open spec fn renumbered(indices: Seq<u32>) -> Seq<u32> {
    Seq::new(indices.len(), |i: int| position_of(first_appearances(indices), indices[i]) as u32)
}

/// The positions of the vertices in order of first appearance, three values each.
pub open spec fn gathered<T>(indices: Seq<u32>, positions: Seq<T>) -> Seq<T> {
    let d = first_appearances(indices);
    Seq::new(3 * d.len(), |p: int| positions[3 * d[p / 3] + p % 3])
}

/// Every index names a vertex whose three position values are present.
pub open spec fn positions_cover<T>(indices: Seq<u32>, positions: Seq<T>) -> bool {
    forall|i: int| 0 <= i < indices.len() ==> 3 * (#[trigger] indices[i]) + 2 < positions.len()
}

/// Renumbers the vertices in order of first appearance; also hands back the table
/// from each old vertex number to its new one.
fn renumber<T: Copy>(indices: &Vec<u32>, positions: &Vec<T>) -> (r: (Vec<u32>, Vec<T>, HashMap<u32, u32>))
    requires
        positions_cover(indices@, positions@),
        first_appearances(indices@).len() <= u32::MAX,
    ensures
        r.0@ == renumbered(indices@),
        r.1@ == gathered(indices@, positions@),
        forall|v: u32| #[trigger] r.2@.contains_key(v) <==> indices@.contains(v),
        forall|v: u32| #[trigger] r.2@.contains_key(v) ==> r.2@[v] as int == position_of(first_appearances(indices@), v),
{
    let mut mesh_positions: Vec<T> = Vec::new();
    let mut mesh_indices: Vec<u32> = Vec::new();
    let mut existing: HashMap<u32, u32> = HashMap::new();
    let mut idx: u32 = 0;
    let mut i: usize = 0;
    let plen = positions.len();
    while i < indices.len()
        invariant
            plen == positions@.len(),
            positions_cover(indices@, positions@),
            first_appearances(indices@).len() <= u32::MAX,
            0 <= i <= indices@.len(),
            idx as int == first_appearances(indices@.take(i as int)).len(),
            idx <= i,
            forall|v: u32| #[trigger] existing@.contains_key(v) <==> first_appearances(indices@.take(i as int)).contains(v),
            forall|v: u32| #[trigger] existing@.contains_key(v) ==> existing@[v] as int == position_of(first_appearances(indices@.take(i as int)), v),
            mesh_indices@ == renumbered(indices@).take(i as int),
            mesh_positions@ == gathered(indices@.take(i as int), positions@),
        decreases indices@.len() - i,
    {
        let v = indices[i];
        let ghost whole = first_appearances(indices@);
        let ghost d = first_appearances(indices@.take(i as int));
        let ghost d2 = first_appearances(indices@.take(i + 1));
        proof {
            assert(indices@.take(i + 1).drop_last() =~= indices@.take(i as int));
            assert(indices@.take(i + 1).last() == v);
            lemma_first_appearances(indices@);
            lemma_first_appearances(indices@.take(i as int));
            lemma_first_appearances(indices@.take(i + 1));
            lemma_first_appearances_prefix(indices@, i + 1);
            lemma_first_appearances_prefix(indices@, i as int);
            assert(d2.contains(v));
            lemma_position_in_prefix(d2, whole, v);
            assert(3 * v + 2 < positions@.len());
        }
        match existing.get(&v) {
            Some(value) => {
                proof {
                    assert(d2 == d);
                    lemma_position_in_prefix(d, whole, v);
                }
                mesh_indices.push(*value);
                proof {
                    assert(mesh_indices@ =~= renumbered(indices@).take(i + 1));
                    assert(gathered(indices@.take(i + 1), positions@) =~= gathered(indices@.take(i as int), positions@));
                }
            },
            None => {
                proof {
                    assert(d2 == d.push(v));
                    assert(d2[d.len() as int] == v);
                    lemma_position_in_prefix(d2, whole, v);
                    assert(position_of(d2, v) == d.len()) by {
                        let pj = position_of(d2, v);
                        if pj < d.len() {
                            assert(d[pj] == v);
                            assert(d.contains(v));
                        }
                    }
                }
                existing.insert(v, idx);
                mesh_indices.push(idx);
                let base = 3 * (v as usize);
                mesh_positions.push(positions[base]);
                mesh_positions.push(positions[base + 1]);
                mesh_positions.push(positions[base + 2]);
                idx += 1;
                proof {
                    assert(mesh_indices@ =~= renumbered(indices@).take(i + 1));
                    assert(mesh_positions@ =~= gathered(indices@.take(i + 1), positions@));
                    assert forall|w: u32| #[trigger] existing@.contains_key(w) implies existing@[w] as int == position_of(d2, w) by {
                        if w != v {
                            lemma_position_in_prefix(d, d2, w);
                        }
                    }
                }
            },
        }
        i += 1;
    }
    assert(indices@.take(indices@.len() as int) =~= indices@);
    assert(mesh_indices@ =~= renumbered(indices@));
    proof {
        lemma_first_appearances(indices@);
    }
    (mesh_indices, mesh_positions, existing)
}

/// Renumbers a mesh so that it lists only the vertices its index list uses, in the
/// order of their first appearance, with their positions (three values per vertex).
pub fn simplify_indices_positions<T: Copy>(indices: &Vec<u32>, positions: &Vec<T>) -> (r: (Vec<u32>, Vec<T>))
    requires
        positions_cover(indices@, positions@),
        first_appearances(indices@).len() <= u32::MAX,
    ensures
        r.0@ == renumbered(indices@),
        r.1@ == gathered(indices@, positions@),
{
    let (mesh_indices, mesh_positions, _existing) = renumber(indices, positions);
    (mesh_indices, mesh_positions)
}

/// The new number of vertex `v` after renumbering.
pub open spec fn new_number(indices: Seq<u32>, v: u32) -> u32 {
    position_of(first_appearances(indices), v) as u32
}

/// Edge `e` with both ends renumbered, ascending.
pub open spec fn remap_edge(indices: Seq<u32>, e: Edge) -> Edge {
    spec_edge(new_number(indices, e[0]), new_number(indices, e[1]))
}

/// Like `simplify_indices_positions`, and carries a set of edges over to the new
/// vertex numbers. Every edge of the set must join vertices the index list uses.
pub fn simplify_indices_positions_cut<T: Copy>(
    indices: &Vec<u32>,
    positions: &Vec<T>,
    cut: &EdgeSet,
) -> (r: (Vec<u32>, Vec<T>, EdgeSet))
    requires
        positions_cover(indices@, positions@),
        first_appearances(indices@).len() <= u32::MAX,
        forall|e: Edge| #[trigger] cut@.contains(e) ==> indices@.contains(e[0]) && indices@.contains(e[1]),
    ensures
        r.0@ == renumbered(indices@),
        r.1@ == gathered(indices@, positions@),
        r.2@ == cut@.map(|e: Edge| remap_edge(indices@, e)),
{
    let (mesh_indices, mesh_positions, existing) = renumber(indices, positions);
    let mut mesh_cut: EdgeSet = set_new();
    let order = set_elements(cut);
    let mut i: usize = 0;
    while i < order.len()
        invariant
            0 <= i <= order@.len(),
            order@.to_set() == cut@,
            forall|e: Edge| #[trigger] cut@.contains(e) ==> indices@.contains(e[0]) && indices@.contains(e[1]),
            forall|v: u32| #[trigger] existing@.contains_key(v) <==> indices@.contains(v),
            forall|v: u32| #[trigger] existing@.contains_key(v) ==> existing@[v] == new_number(indices@, v),
            mesh_cut@ == order@.take(i as int).to_set().map(|e: Edge| remap_edge(indices@, e)),
        decreases order@.len() - i,
    {
        let edge = order[i];
        proof {
            assert(order@.to_set().contains(edge));
        }
        let a = *existing.get(&edge[0]).unwrap();
        let b = *existing.get(&edge[1]).unwrap();
        let ghost before_cut = mesh_cut@;
        set_insert(&mut mesh_cut, new_edge(a, b));
        proof {
            assert(order@.take(i + 1) =~= order@.take(i as int).push(edge));
            order@.take(i as int).lemma_push_to_set_commute(edge);
            assert(order@.take(i + 1).to_set() =~= order@.take(i as int).to_set().insert(edge));
            assert(a == new_number(indices@, edge[0]));
            assert(b == new_number(indices@, edge[1]));
            let f = |e: Edge| remap_edge(indices@, e);
            assert(f(edge) == spec_edge(a, b));
            assert(mesh_cut@ =~= order@.take(i + 1).to_set().map(f)) by {
                let old_set = order@.take(i as int).to_set();
                assert(before_cut == old_set.map(f));
                assert(mesh_cut@ == before_cut.insert(f(edge)));
                assert forall|x: Edge| #[trigger] mesh_cut@.contains(x) <==> old_set.insert(edge).map(f).contains(x) by {
                    if x == f(edge) {
                        assert(old_set.insert(edge).contains(edge));
                    }
                    if old_set.map(f).contains(x) {
                        let y = choose|y: Edge| old_set.contains(y) && f(y) == x;
                        assert(old_set.insert(edge).contains(y));
                    }
                    if old_set.insert(edge).map(f).contains(x) {
                        let y = choose|y: Edge| old_set.insert(edge).contains(y) && f(y) == x;
                        if y != edge {
                            assert(old_set.map(f).contains(x));
                        }
                    }
                }
            }
        }
        i += 1;
    }
    assert(order@.take(order@.len() as int) =~= order@);
    (mesh_indices, mesh_positions, mesh_cut)
}

/// Renumbering keeps the shape: each index of the new list points at new position
/// values equal to those the old index pointed at, and uses only the new vertices.
pub proof fn law_renumbering_keeps_geometry<T>(indices: Seq<u32>, positions: Seq<T>, i: int, c: int)
    requires
        positions_cover(indices, positions),
        first_appearances(indices).len() <= u32::MAX,
        0 <= i < indices.len(),
        0 <= c < 3,
    ensures
        renumbered(indices)[i] < first_appearances(indices).len(),
        gathered(indices, positions)[3 * renumbered(indices)[i] + c] == positions[3 * indices[i] + c],
{
    let d = first_appearances(indices);
    lemma_first_appearances(indices);
    assert(indices.contains(indices[i]));
    assert(d.contains(indices[i]));
    let j = position_of(d, indices[i]);
    assert(0 <= j < d.len() && d[j] == indices[i]);
    assert(d.len() <= indices.len()) by {
        lemma_first_appearances_len(indices);
    }
    assert(renumbered(indices)[i] == j);
    let p = 3 * j + c;
    assert(p / 3 == j && p % 3 == c) by (nonlinear_arith)
        requires
            p == 3 * j + c,
            0 <= c < 3,
            0 <= j,
    ;
}

proof fn lemma_first_appearances_len(s: Seq<u32>)
    ensures
        first_appearances(s).len() <= s.len(),
    decreases s.len(),
{
    if s.len() > 0 {
        lemma_first_appearances_len(s.drop_last());
    }
}

/// Being neighbours is mutual: `w` is a neighbour of `v` exactly when `v` is one of `w`.
pub proof fn law_neighbours_symmetric(indices: Seq<u32>, n: int, v: u32, w: u32)
    ensures
        neighbours(indices, n, v).contains(w) == neighbours(indices, n, w).contains(v),
{
    if neighbours(indices, n, v).contains(w) {
        let t = choose|t: int| 0 <= t < n && #[trigger] corners_meet(indices, t, v, w);
        assert(corners_meet(indices, t, w, v));
    }
    if neighbours(indices, n, w).contains(v) {
        let t = choose|t: int| 0 <= t < n && #[trigger] corners_meet(indices, t, w, v);
        assert(corners_meet(indices, t, v, w));
    }
}

/// Edge `k` of triangle `t` (`(0,1)`, `(0,2)`, `(1,2)`) with the corner opposite it.
pub open spec fn edge_slot(indices: Seq<u32>, t: int, k: int) -> (Edge, u32) {
    let (a, b, c) = (corner(indices, t, 0), corner(indices, t, 1), corner(indices, t, 2));
    if k == 0 {
        (spec_edge(a, b), c)
    } else if k == 1 {
        (spec_edge(a, c), b)
    } else {
        (spec_edge(b, c), a)
    }
}

/// Among the first `n` triangles, one has edge `e` with `o` opposite it.
pub open spec fn opposite_on(indices: Seq<u32>, n: int, e: Edge, o: u32) -> bool {
    exists|t: int, k: int| 0 <= t < n && 0 <= k < 3 && #[trigger] edge_slot(indices, t, k) == (e, o)
}

/// Among the first `n` triangles, one has edge `e`.
pub open spec fn edge_seen(indices: Seq<u32>, n: int, e: Edge) -> bool {
    exists|t: int, k: int| 0 <= t < n && 0 <= k < 3 && #[trigger] edge_slot(indices, t, k).0 == e
}

proof fn lemma_update_keeps_sides(m: Map<Edge, [u32; 2]>, key: Edge, opp: u32, indices: Seq<u32>, n: int, t: int, k: int)
    requires
        0 <= t < n,
        0 <= k < 3,
        edge_slot(indices, t, k) == (key, opp),
        forall|e: Edge| #[trigger] m.contains_key(e) ==> edge_seen(indices, n, e) && opposite_on(indices, n, e, m[e][0])
            && (m[e][1] == u32::MAX || opposite_on(indices, n, e, m[e][1])),
    ensures
        forall|e: Edge| #[trigger] edge_entry_update(m, key, opp).contains_key(e) ==> edge_seen(indices, n, e) && opposite_on(indices, n, e, edge_entry_update(m, key, opp)[e][0])
            && (edge_entry_update(m, key, opp)[e][1] == u32::MAX || opposite_on(indices, n, e, edge_entry_update(m, key, opp)[e][1])),
{
    assert(opposite_on(indices, n, key, opp));
    assert(edge_slot(indices, t, k).0 == key);
    assert(edge_seen(indices, n, key));
}

/// The edge table lists exactly the edges of the triangles, and each side of an entry is
/// a corner opposite that edge in one of them (the second side may be `u32::MAX`).
pub proof fn law_edge_table_entries(indices: Seq<u32>, n: int)
    requires
        0 <= n,
    ensures
        forall|e: Edge| #[trigger] edge_table(indices, n).contains_key(e) <==> edge_seen(indices, n, e),
        forall|e: Edge| #[trigger] edge_table(indices, n).contains_key(e) ==> opposite_on(indices, n, e, edge_table(indices, n)[e][0])
            && (edge_table(indices, n)[e][1] == u32::MAX || opposite_on(indices, n, e, edge_table(indices, n)[e][1])),
    decreases n,
{
    if n > 0 {
        law_edge_table_entries(indices, n - 1);
        let m = edge_table(indices, n - 1);
        let t = n - 1;
        assert forall|e: Edge| #[trigger] m.contains_key(e) implies edge_seen(indices, n, e) && opposite_on(indices, n, e, m[e][0])
            && (m[e][1] == u32::MAX || opposite_on(indices, n, e, m[e][1])) by {
            let (t1, k1) = choose|t1: int, k1: int| 0 <= t1 < n - 1 && 0 <= k1 < 3 && #[trigger] edge_slot(indices, t1, k1) == (e, m[e][0]);
            assert(edge_slot(indices, t1, k1).0 == e);
            if m[e][1] != u32::MAX {
                let (t2, k2) = choose|t2: int, k2: int| 0 <= t2 < n - 1 && 0 <= k2 < 3 && #[trigger] edge_slot(indices, t2, k2) == (e, m[e][1]);
            }
        }
        let s0 = edge_slot(indices, t, 0);
        let s1 = edge_slot(indices, t, 1);
        let s2 = edge_slot(indices, t, 2);
        lemma_update_keeps_sides(m, s0.0, s0.1, indices, n, t, 0);
        let m1 = edge_entry_update(m, s0.0, s0.1);
        lemma_update_keeps_sides(m1, s1.0, s1.1, indices, n, t, 1);
        let m2 = edge_entry_update(m1, s1.0, s1.1);
        lemma_update_keeps_sides(m2, s2.0, s2.1, indices, n, t, 2);
        assert forall|e: Edge| edge_seen(indices, n, e) implies #[trigger] edge_table(indices, n).contains_key(e) by {
            let (t1, k1) = choose|t1: int, k1: int| 0 <= t1 < n && 0 <= k1 < 3 && #[trigger] edge_slot(indices, t1, k1).0 == e;
            if t1 < n - 1 {
                assert(edge_seen(indices, n - 1, e));
            }
        }
        assert forall|e: Edge| #[trigger] edge_table(indices, n).contains_key(e) implies edge_seen(indices, n, e) by {}
    }
}

/// The numbers `0, 1, ..., k - 1` in order.
pub open spec fn first_numbers(k: nat) -> Seq<u32> {
    Seq::new(k, |j: int| j as u32)
}

/// A renumbered index list meets its vertices in the order `0, 1, 2, ...`.
proof fn lemma_renumbered_appearances(s: Seq<u32>)
    requires
        first_appearances(s).len() <= u32::MAX,
    ensures
        first_appearances(renumbered(s)) == first_numbers(first_appearances(s).len()),
    decreases s.len(),
{
    if s.len() > 0 {
        let sp = s.drop_last();
        let n = s.len() as int;
        assert(s.take(n - 1) =~= sp);
        lemma_first_appearances_prefix(s, n - 1);
        lemma_first_appearances(s);
        lemma_first_appearances(sp);
        let whole = first_appearances(s);
        let d = first_appearances(sp);
        lemma_renumbered_appearances(sp);
        let r = renumbered(s);
        assert forall|i: int| 0 <= i < n - 1 implies #[trigger] r.drop_last()[i] == renumbered(sp)[i] by {
            assert(sp.contains(sp[i]));
            lemma_position_in_prefix(d, whole, s[i]);
        }
        assert(r.drop_last() =~= renumbered(sp));
        let v = s.last();
        let k = d.len() as int;
        if d.contains(v) {
            lemma_position_in_prefix(d, whole, v);
            assert(whole == d);
            assert(first_numbers(k as nat).contains(r.last())) by {
                assert(first_numbers(k as nat)[position_of(d, v)] == r.last());
            }
        } else {
            assert(whole == d.push(v));
            assert(position_of(whole, v) == k) by {
                let pj = position_of(whole, v);
                assert(whole[k] == v);
                if pj < k {
                    assert(d[pj] == v);
                    assert(d.contains(v));
                }
            }
            assert(!first_numbers(k as nat).contains(r.last())) by {
                if first_numbers(k as nat).contains(r.last()) {
                    let ks = first_numbers(k as nat);
                    let j = choose|j: int| 0 <= j < ks.len() && #[trigger] ks[j] == r.last();
                }
            }
            assert(first_numbers(k as nat).push(r.last()) =~= first_numbers((k + 1) as nat));
        }
    } else {
        assert(first_appearances(renumbered(s)) =~= first_numbers(0));
    }
}

/// Renumbering a renumbered mesh changes nothing: a compacted mesh is already in normal
/// form, and may be renumbered again (its positions cover it and it has as many
/// vertices).
pub proof fn law_renumbering_idempotent<T>(indices: Seq<u32>, positions: Seq<T>)
    requires
        positions_cover(indices, positions),
        first_appearances(indices).len() <= u32::MAX,
    ensures
        positions_cover(renumbered(indices), gathered(indices, positions)),
        first_appearances(renumbered(indices)).len() <= u32::MAX,
        renumbered(renumbered(indices)) == renumbered(indices),
        gathered(renumbered(indices), gathered(indices, positions)) == gathered(indices, positions),
{
    let d = first_appearances(indices);
    let k = d.len();
    let r = renumbered(indices);
    let g = gathered(indices, positions);
    lemma_renumbered_appearances(indices);
    lemma_first_appearances(indices);
    let ids = first_numbers(k);
    assert forall|i: int| 0 <= i < r.len() implies (#[trigger] r[i]) < k by {
        assert(indices.contains(indices[i]));
        assert(d.contains(indices[i]));
        let j = position_of(d, indices[i]);
        assert(0 <= j < k && d[j] == indices[i]);
    }
    assert forall|i: int| 0 <= i < r.len() implies 3 * (#[trigger] r[i]) + 2 < g.len() by {
        assert(r[i] < k);
    }
    assert forall|x: u32| x < k implies #[trigger] position_of(ids, x) == x as int by {
        assert(ids[x as int] == x);
        let j = position_of(ids, x);
    }
    assert forall|i: int| 0 <= i < r.len() implies #[trigger] renumbered(r)[i] == r[i] by {
        assert(r[i] < k);
        assert(position_of(ids, r[i]) == r[i] as int);
    }
    assert(renumbered(r) =~= r);
    assert forall|p: int| 0 <= p < g.len() implies #[trigger] gathered(r, g)[p] == g[p] by {
        let q = p / 3;
        assert(3 * q + p % 3 == p && 0 <= q < k) by (nonlinear_arith)
            requires
                0 <= p < 3 * k,
                q == p / 3,
        ;
        assert(ids[q] == q as u32);
    }
    assert(gathered(r, g) =~= g);
}

/// Vertices `v` and `w` sit at two different corners of triangle `x`.
pub open spec fn meet_in(x: Triangle, v: u32, w: u32) -> bool {
    (x[0] == v && (x[1] == w || x[2] == w)) || (x[1] == v && (x[0] == w || x[2] == w)) || (x[2] == v && (x[0] == w
        || x[1] == w))
}

/// Sorting a triangle's corners keeps which vertices share it.
proof fn lemma_meet_sorted(s: Seq<u32>, t: int, v: u32, w: u32)
    ensures
        corners_meet(s, t, v, w) == meet_in(sorted_tri(s, t), v, w),
        has_corner(s, t, v) == (sorted_tri(s, t)[0] == v || sorted_tri(s, t)[1] == v || sorted_tri(s, t)[2] == v),
{
}

/// The neighbours of `v` are read off the triangle set.
proof fn lemma_neighbours_from_set(s: Seq<u32>, v: u32)
    ensures
        forall|w: u32| #[trigger] neighbours(s, tri_count(s), v).contains(w) <==> exists|x: Triangle|
            triangle_set(s).contains(x) && #[trigger] meet_in(x, v, w),
        used_vertex(s, tri_count(s), v) <==> exists|x: Triangle|
            #[trigger] triangle_set(s).contains(x) && (x[0] == v || x[1] == v || x[2] == v),
{
    let n = tri_count(s);
    assert forall|w: u32| #[trigger] neighbours(s, n, v).contains(w) <==> exists|x: Triangle|
        triangle_set(s).contains(x) && #[trigger] meet_in(x, v, w) by {
        if neighbours(s, n, v).contains(w) {
            let t = choose|t: int| 0 <= t < n && #[trigger] corners_meet(s, t, v, w);
            lemma_meet_sorted(s, t, v, w);
            assert(triangle_set(s).contains(sorted_tri(s, t)));
        }
        if exists|x: Triangle| triangle_set(s).contains(x) && #[trigger] meet_in(x, v, w) {
            let x = choose|x: Triangle| triangle_set(s).contains(x) && #[trigger] meet_in(x, v, w);
            let t = choose|t: int| 0 <= t < n && #[trigger] sorted_tri(s, t) == x;
            lemma_meet_sorted(s, t, v, w);
        }
    }
    if used_vertex(s, n, v) {
        let t = choose|t: int| 0 <= t < n && #[trigger] has_corner(s, t, v);
        lemma_meet_sorted(s, t, v, v);
        assert(triangle_set(s).contains(sorted_tri(s, t)));
    }
    if exists|x: Triangle| #[trigger] triangle_set(s).contains(x) && (x[0] == v || x[1] == v || x[2] == v) {
        let x = choose|x: Triangle| #[trigger] triangle_set(s).contains(x) && (x[0] == v || x[1] == v || x[2] == v);
        let t = choose|t: int| 0 <= t < n && #[trigger] sorted_tri(s, t) == x;
        lemma_meet_sorted(s, t, v, v);
        assert(has_corner(s, t, v));
    }
}

/// Two strictly ascending lists of the same values are the same list.
proof fn lemma_ascending_unique(a: Seq<u32>, b: Seq<u32>)
    requires
        strictly_ascending(a),
        strictly_ascending(b),
        a.to_set() == b.to_set(),
    ensures
        a == b,
    decreases a.len() + b.len(),
{
    if a.len() > 0 && b.len() > 0 {
        assert(a.to_set().contains(a[0]));
        assert(b.to_set().contains(b[0]));
        assert(a[0] == b[0]) by {
            let i = choose|i: int| 0 <= i < a.len() && a[i] == b[0];
            let j = choose|j: int| 0 <= j < b.len() && b[j] == a[0];
            if a[0] != b[0] {
                assert(i > 0 && j > 0);
            }
        }
        let (a1, b1) = (a.drop_first(), b.drop_first());
        assert forall|x: u32| #[trigger] a1.to_set().contains(x) == b1.to_set().contains(x) by {
            if a1.contains(x) {
                let i = choose|i: int| 0 <= i < a1.len() && a1[i] == x;
                assert(a[i + 1] == x && x != a[0]);
                assert(a.to_set().contains(x));
                let j = choose|j: int| 0 <= j < b.len() && b[j] == x;
                assert(j > 0);
                assert(b1[j - 1] == x);
            }
            if b1.contains(x) {
                let j = choose|j: int| 0 <= j < b1.len() && b1[j] == x;
                assert(b[j + 1] == x && x != b[0]);
                assert(b.to_set().contains(x));
                let i = choose|i: int| 0 <= i < a.len() && a[i] == x;
                assert(i > 0);
                assert(a1[i - 1] == x);
            }
        }
        assert(a1.to_set() =~= b1.to_set());
        lemma_ascending_unique(a1, b1);
        assert(a =~= seq![a[0]] + a1);
        assert(b =~= seq![b[0]] + b1);
    } else if a.len() > 0 {
        assert(a.to_set().contains(a[0]));
    } else if b.len() > 0 {
        assert(b.to_set().contains(b[0]));
    } else {
        assert(a =~= b);
    }
}

/// The triangle set and the neighbour lists do not depend on the order of the triangles
/// or of their corners: two index lists with the same triangles (corners ascending) give
/// the same triangle set, the same used vertices and the same neighbours, so
/// `generate_data_structures` builds the same neighbour lists from both.
pub proof fn law_tables_ignore_order_and_winding(s1: Seq<u32>, s2: Seq<u32>)
    requires
        triangle_set(s1) == triangle_set(s2),
    ensures
        forall|v: u32| #[trigger] used_vertex(s1, tri_count(s1), v) == used_vertex(s2, tri_count(s2), v),
        forall|v: u32| #[trigger] neighbours(s1, tri_count(s1), v) == neighbours(s2, tri_count(s2), v),
        forall|l1: Seq<u32>, l2: Seq<u32>, v: u32|
            #![trigger l1.to_set(), l2.to_set(), neighbours(s1, tri_count(s1), v)]
            strictly_ascending(l1) && strictly_ascending(l2) && l1.to_set() == neighbours(s1, tri_count(s1), v)
                && l2.to_set() == neighbours(s2, tri_count(s2), v) ==> l1 == l2,
{
    assert forall|v: u32| #[trigger] neighbours(s1, tri_count(s1), v) == neighbours(s2, tri_count(s2), v) by {
        lemma_neighbours_from_set(s1, v);
        lemma_neighbours_from_set(s2, v);
        assert(neighbours(s1, tri_count(s1), v) =~= neighbours(s2, tri_count(s2), v));
    }
    assert forall|v: u32| #[trigger] used_vertex(s1, tri_count(s1), v) == used_vertex(s2, tri_count(s2), v) by {
        lemma_neighbours_from_set(s1, v);
        lemma_neighbours_from_set(s2, v);
    }
    assert forall|l1: Seq<u32>, l2: Seq<u32>, v: u32|
        #![trigger l1.to_set(), l2.to_set(), neighbours(s1, tri_count(s1), v)]
        strictly_ascending(l1) && strictly_ascending(l2) && l1.to_set() == neighbours(s1, tri_count(s1), v)
            && l2.to_set() == neighbours(s2, tri_count(s2), v) implies l1 == l2 by {
        lemma_ascending_unique(l1, l2);
    }
}

/// The corner of the ascending triangle `x` opposite its edge `e`, if `e` is an edge of it.
pub open spec fn opp_of(x: Triangle, e: Edge) -> Option<u32> {
    if e == [x[0], x[1]] {
        Some(x[2])
    } else if e == [x[0], x[2]] {
        Some(x[1])
    } else if e == [x[1], x[2]] {
        Some(x[0])
    } else {
        None
    }
}

/// The corners opposite edge `e` in the first `k` triangles that have it, in order.
pub open spec fn opposites(s: Seq<u32>, k: int, e: Edge) -> Seq<u32>
    decreases k,
{
    if k <= 0 {
        Seq::empty()
    } else {
        let prev = opposites(s, k - 1, e);
        match opp_of(sorted_tri(s, k - 1), e) {
            Some(c) => prev.push(c),
            None => prev,
        }
    }
}

/// The entry an edge table keeps for an edge with the opposite corners `o` (one or two).
pub open spec fn entry_of(o: Seq<u32>) -> [u32; 2] {
    if o.len() == 1 {
        [o[0], u32::MAX]
    } else {
        spec_edge(o[1], o[0])
    }
}

/// For a triangle of three different corners, the edge reported with each opposite
/// corner is the edge of its sorted form with that corner opposite.
proof fn lemma_opp_of_sorted(a: u32, b: u32, c: u32, e: Edge)
    requires
        a != b && b != c && a != c,
    ensures
        opp_of(spec_tri(a, b, c), e) == if e == spec_edge(a, b) {
            Some(c)
        } else if e == spec_edge(a, c) {
            Some(b)
        } else if e == spec_edge(b, c) {
            Some(a)
        } else {
            None::<u32>
        },
{
    let x = spec_tri(a, b, c);
    assert(spec_edge(a, b) == [x[0], x[1]] || spec_edge(a, b) == [x[0], x[2]] || spec_edge(a, b) == [x[1], x[2]]);
    if e == [x[0], x[1]] {
        assert(e =~= [x[0], x[1]]);
    }
    assert(spec_edge(a, b) =~= spec_edge(a, b));
}

/// With at most two triangles on each edge, the edge table holds, for each edge of a
/// triangle, the one or two corners opposite it (ascending, `u32::MAX` after a single one).
proof fn lemma_edge_table_closed_form(s: Seq<u32>, k: int)
    requires
        crate::cluster::proper_triangles(s),
        0 <= k <= tri_count(s),
        forall|e: Edge| #[trigger] opposites(s, k, e).len() <= 2,
    ensures
        forall|e: Edge| #[trigger] edge_table(s, k).contains_key(e) <==> opposites(s, k, e).len() > 0,
        forall|e: Edge| #[trigger] edge_table(s, k).contains_key(e) ==> edge_table(s, k)[e] == entry_of(opposites(s, k, e)),
    decreases k,
{
    if k > 0 {
        assert forall|e: Edge| #[trigger] opposites(s, k - 1, e).len() <= 2 by {
            assert(opposites(s, k, e).len() <= 2);
        }
        lemma_edge_table_closed_form(s, k - 1);
        let (a, b, c) = (corner(s, k - 1, 0), corner(s, k - 1, 1), corner(s, k - 1, 2));
        assert(a != b && b != c && a != c);
        let m = edge_table(s, k - 1);
        let (ab, ac, bc) = (spec_edge(a, b), spec_edge(a, c), spec_edge(b, c));
        assert(ab != ac && ab != bc && ac != bc);
        assert forall|e: Edge| #[trigger] edge_table(s, k).contains_key(e) <==> opposites(s, k, e).len() > 0 by {
            lemma_opp_of_sorted(a, b, c, e);
        }
        assert forall|e: Edge| #[trigger] edge_table(s, k).contains_key(e) implies edge_table(s, k)[e] == entry_of(opposites(s, k, e)) by {
            lemma_opp_of_sorted(a, b, c, e);
            let o = opposites(s, k - 1, e);
            if e == ab || e == ac || e == bc {
                assert(opposites(s, k, e).len() == o.len() + 1);
                if o.len() == 1 {
                    assert(m.contains_key(e));
                }
            }
        }
    }
}

/// The first `k` triangles of the index list, in order, corners ascending.
pub open spec fn triangles_upto(s: Seq<u32>, k: int) -> Seq<Triangle> {
    Seq::new(k as nat, |t: int| sorted_tri(s, t))
}

/// How often `c` occurs in a list of one or two corners.
proof fn lemma_short_counts(o: Seq<u32>, c: u32)
    requires
        1 <= o.len() <= 2,
    ensures
        o.to_multiset().count(c) == (if o[0] == c { 1nat } else { 0nat }) + (if o.len() == 2 && o[1] == c {
            1nat
        } else {
            0nat
        }),
{
    broadcast use vstd::seq_lib::to_multiset_build;
    broadcast use vstd::multiset::group_multiset_axioms;

    let z = Seq::<u32>::empty();
    assert(z.to_multiset().count(c) == 0) by {
        broadcast use vstd::seq_lib::group_to_multiset_ensures;

        assert(!z.contains(c));
    }
    if o.len() == 1 {
        assert(o =~= z.push(o[0]));
    } else {
        assert(o =~= z.push(o[0]).push(o[1]));
    }
}

/// For triangles with three different corners, corner `c` lies opposite edge `e` once for
/// each time the triangle made of `e` and `c` occurs among them.
proof fn lemma_opposite_counts(s: Seq<u32>, k: int, e: Edge, c: u32)
    requires
        crate::cluster::proper_triangles(s),
        0 <= k <= tri_count(s),
    ensures
        opposites(s, k, e).to_multiset().count(c) == if e[0] < e[1] {
            triangles_upto(s, k).to_multiset().count(spec_tri(e[0], e[1], c))
        } else {
            0
        },
    decreases k,
{
    broadcast use vstd::seq_lib::to_multiset_build;
    broadcast use vstd::multiset::group_multiset_axioms;

    if k == 0 {
        assert(opposites(s, k, e) =~= Seq::<u32>::empty());
        assert(triangles_upto(s, k) =~= Seq::<Triangle>::empty());
        broadcast use vstd::seq_lib::group_to_multiset_ensures;

        assert(!Seq::<u32>::empty().contains(c));
        assert(!Seq::<Triangle>::empty().contains(spec_tri(e[0], e[1], c)));
    } else {
        lemma_opposite_counts(s, k - 1, e, c);
        let x = sorted_tri(s, k - 1);
        let (a, b, d) = (corner(s, k - 1, 0), corner(s, k - 1, 1), corner(s, k - 1, 2));
        crate::topology::lemma_spec_tri_sorted(a, b, d);
        assert(a != b && b != d && a != d);
        assert(x[0] < x[1] < x[2]);
        assert(triangles_upto(s, k) =~= triangles_upto(s, k - 1).push(x));
        let goal = spec_tri(e[0], e[1], c);
        if e[0] < e[1] {
            crate::topology::lemma_spec_tri_sorted(e[0], e[1], c);
            assert((opp_of(x, e) == Some(c)) == (x == goal)) by {
                if opp_of(x, e) == Some(c) {
                    assert(goal =~= x);
                }
                if x == goal {
                    if c < e[0] {
                        assert(e =~= [x[1], x[2]]);
                    } else if c < e[1] {
                        assert(e =~= [x[0], x[2]]);
                    } else {
                        assert(e =~= [x[0], x[1]]);
                    }
                }
            }
        }
        match opp_of(x, e) {
            Some(c2) => {
                assert(opposites(s, k, e) == opposites(s, k - 1, e).push(c2));
            },
            None => {
                assert(opposites(s, k, e) == opposites(s, k - 1, e));
            },
        }
    }
}

/// The edge table does not depend on the order of the triangles or of their corners:
/// two index lists that hold the same triangles (corners ascending) the same number of
/// times, each triangle with three different corners and at most two triangles on each
/// edge, give the same edge table.
pub proof fn law_edge_table_ignores_order_and_winding(s1: Seq<u32>, s2: Seq<u32>)
    requires
        triangles_upto(s1, tri_count(s1)).to_multiset() == triangles_upto(s2, tri_count(s2)).to_multiset(),
        crate::cluster::proper_triangles(s1),
        crate::cluster::proper_triangles(s2),
        forall|e: Edge| #[trigger] opposites(s1, tri_count(s1), e).len() <= 2,
        forall|e: Edge| #[trigger] opposites(s2, tri_count(s2), e).len() <= 2,
    ensures
        edge_table(s1, tri_count(s1)) == edge_table(s2, tri_count(s2)),
{
    broadcast use vstd::seq_lib::to_multiset_len;

    let (n1, n2) = (tri_count(s1), tri_count(s2));
    lemma_edge_table_closed_form(s1, n1);
    lemma_edge_table_closed_form(s2, n2);
    assert forall|e: Edge| #[trigger] edge_table(s1, n1).contains_key(e) == edge_table(s2, n2).contains_key(e) && (
    edge_table(s1, n1).contains_key(e) ==> edge_table(s1, n1)[e] == edge_table(s2, n2)[e]) by {
        let (o1, o2) = (opposites(s1, n1, e), opposites(s2, n2, e));
        assert forall|c: u32| #[trigger] o1.to_multiset().count(c) == o2.to_multiset().count(c) by {
            lemma_opposite_counts(s1, n1, e, c);
            lemma_opposite_counts(s2, n2, e, c);
        }
        assert(o1.to_multiset() =~= o2.to_multiset());
        assert(o1.len() == o1.to_multiset().len() && o2.len() == o2.to_multiset().len());
        assert(o1.len() == o2.len());
        assert(o1.len() <= 2);
        if o1.len() > 0 {
            lemma_short_counts(o1, o1[0]);
            lemma_short_counts(o2, o1[0]);
            if o1.len() == 1 {
                assert(o2[0] == o1[0]);
            } else {
                lemma_short_counts(o1, o1[1]);
                lemma_short_counts(o2, o1[1]);
                lemma_short_counts(o1, o2[0]);
                lemma_short_counts(o2, o2[0]);
                crate::topology::law_edge_symmetric(o1[1], o1[0]);
                assert(entry_of(o1) == entry_of(o2));
            }
        }
    }
    assert(edge_table(s1, n1) =~= edge_table(s2, n2));
}

} // verus!
