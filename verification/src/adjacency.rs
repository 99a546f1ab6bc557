//! Triangles of a mesh linked to their neighbours, and the border edge sets of
//! groups of triangles.

use crate::fold::{map_get, map_insert, map_new, set_contains, set_elements, set_insert, set_remove, EdgeMap, EdgeSet};
use crate::topology::Edge;
use vstd::prelude::*;

verus! {

/// A triangle of a mesh as the clustering works on it.
#[derive(Clone, Copy)]
pub struct TriangleNode {
    /// The position of the triangle in the mesh's index list (its corners are
    /// `indices[3 * idx ..= 3 * idx + 2]`).
    pub idx: usize,
    /// The cluster that owns the triangle, `usize::MAX` while none does.
    pub owned_by: usize,
    /// For each corner `k`, the triangle across the edge that starts at corner `k`
    /// (`idxs[k]` to `idxs[(k + 1) % 3]`), `usize::MAX` where there is none.
    pub connections: [usize; 3],
    /// The corners, in winding order.
    pub idxs: [u32; 3],
}

/// The edge with its direction reversed.
pub open spec fn reversed(e: Edge) -> Edge {
    [e[1], e[0]]
}

/// Adds the edge if it is absent, removes it if it is present.
pub open spec fn toggle(s: Set<Edge>, e: Edge) -> Set<Edge> {
    if s.contains(e) {
        s.remove(e)
    } else {
        s.insert(e)
    }
}

/// The three edges of a triangle as seen from the neighbouring side: each of the
/// triangle's directed edges, reversed.
pub open spec fn outer_edges(t: [u32; 3]) -> (Edge, Edge, Edge) {
    ([t[1], t[0]], [t[2], t[1]], [t[0], t[2]])
}

/// The border set after toggling the three outer edges of a triangle in turn.
pub open spec fn with_triangle(s: Set<Edge>, t: [u32; 3]) -> Set<Edge> {
    let (a, b, c) = outer_edges(t);
    toggle(toggle(toggle(s, a), b), c)
}

/// Toggles the triangle's three edges, reversed, in the border set: an edge that the
/// set already holds is shared with the triangle and leaves the set; any other joins it.
pub fn insert(e0: &mut EdgeSet, tri: &TriangleNode)
    ensures
        final(e0)@ == with_triangle(old(e0)@, tri.idxs),
{
    let edges: [Edge; 3] = [
        [tri.idxs[1], tri.idxs[0]],
        [tri.idxs[2], tri.idxs[1]],
        [tri.idxs[0], tri.idxs[2]],
    ];
    let mut i: usize = 0;
    while i < 3
        invariant
            0 <= i <= 3,
            edges@ == seq![outer_edges(tri.idxs).0, outer_edges(tri.idxs).1, outer_edges(tri.idxs).2],
            i == 0 ==> e0@ == old(e0)@,
            i == 1 ==> e0@ == toggle(old(e0)@, edges[0]),
            i == 2 ==> e0@ == toggle(toggle(old(e0)@, edges[0]), edges[1]),
            i == 3 ==> e0@ == with_triangle(old(e0)@, tri.idxs),
        decreases 3 - i,
    {
        let edge = edges[i];
        if set_contains(e0, &edge) {
            set_remove(e0, &edge);
        } else {
            set_insert(e0, edge);
        }
        i += 1;
    }
}

/// One step of merging a border into another: where the other side of `e` is in the
/// set the two borders meet there and it leaves; otherwise `e` joins.
pub open spec fn merge_step(s: Set<Edge>, e: Edge) -> Set<Edge> {
    if s.contains(reversed(e)) {
        s.remove(reversed(e))
    } else {
        s.insert(e)
    }
}

/// Merging the edges of `order` into `s`, one after the other.
pub open spec fn merge_all(s: Set<Edge>, order: Seq<Edge>) -> Set<Edge>
    decreases order.len(),
{
    if order.len() == 0 {
        s
    } else {
        merge_step(merge_all(s, order.drop_last()), order.last())
    }
}

/// Merges the border `other` into `e0`: each edge of `other` whose reverse `e0` holds
/// cancels that reverse; every other edge of `other` is added. The edges of `other` are
/// taken in the order in which the hash table yields them.
pub fn intersect(e0: &mut EdgeSet, other: &EdgeSet)
    ensures
        exists|order: Seq<Edge>|
            order.to_set() == other@ && order.no_duplicates() && final(e0)@ == merge_all(
                old(e0)@,
                order,
            ),
{
    let order = set_elements(other);
    let mut i: usize = 0;
    while i < order.len()
        invariant
            0 <= i <= order@.len(),
            e0@ == merge_all(old(e0)@, order@.take(i as int)),
        decreases order.len() - i,
    {
        let edge = order[i];
        let key: Edge = [edge[1], edge[0]];
        proof {
            assert(order@.take(i + 1).drop_last() =~= order@.take(i as int));
        }
        if set_contains(e0, &key) {
            set_remove(e0, &key);
        } else {
            set_insert(e0, edge);
        }
        i += 1;
    }
    assert(order@.take(order@.len() as int) =~= order@);
}

proof fn lemma_toggle_commutes(s: Set<Edge>, x: Edge, y: Edge)
    ensures
        toggle(toggle(s, x), y) == toggle(toggle(s, y), x),
{
    assert(toggle(toggle(s, x), y) =~= toggle(toggle(s, y), x));
}

proof fn lemma_toggle_twice(s: Set<Edge>, x: Edge)
    ensures
        toggle(toggle(s, x), x) == s,
{
    assert(toggle(toggle(s, x), x) =~= s);
}

/// Adding the same triangle to a border twice leaves the border as it was.
pub proof fn law_insert_twice_restores(s: Set<Edge>, t: [u32; 3])
    ensures
        with_triangle(with_triangle(s, t), t) == s,
{
    let (a, b, c) = outer_edges(t);
    let s1 = toggle(toggle(toggle(s, a), b), c);
    // move the second `a` next to the first one, then the second `b`, then `c`
    lemma_toggle_commutes(toggle(s1, a), b, c);
    lemma_toggle_commutes(s1, a, c);
    lemma_toggle_twice(toggle(toggle(s, a), b), c);
    lemma_toggle_commutes(toggle(toggle(s, a), b), a, b);
    lemma_toggle_commutes(toggle(s, a), b, a);
    lemma_toggle_twice(toggle(s, a), b);
    lemma_toggle_twice(s, a);
    assert(toggle(toggle(toggle(s1, a), b), c) == toggle(toggle(toggle(s1, c), a), b));
}

/// No edge of the border runs both ways (nor from a vertex to itself).
pub open spec fn one_way(o: Set<Edge>) -> bool {
    forall|e: Edge| #[trigger] o.contains(e) ==> !o.contains(reversed(e))
}

/// The outcome of merging the border `o` into `s` when `o` is one-way: the edges of
/// `s` whose reverse is not in `o`, and the edges of `o` whose reverse is not in `s`.
pub open spec fn merged(s: Set<Edge>, o: Set<Edge>) -> Set<Edge> {
    Set::new(
        |x: Edge|
            (s.contains(x) && !o.contains(reversed(x))) || (o.contains(x) && !s.contains(
                reversed(x),
            )),
    )
}

proof fn lemma_merge_all_closed(s: Set<Edge>, order: Seq<Edge>, o: Set<Edge>)
    requires
        order.no_duplicates(),
        order.to_set().subset_of(o),
        one_way(o),
    ensures
        merge_all(s, order) == merged(s, order.to_set()),
    decreases order.len(),
{
    if order.len() == 0 {
        assert(order.to_set() =~= Set::<Edge>::empty());
        assert(merged(s, order.to_set()) =~= s);
    } else {
        let p = order.drop_last();
        let e = order.last();
        assert(p.no_duplicates());
        assert forall|x: Edge| p.to_set().contains(x) implies o.contains(x) by {
            let k = choose|k: int| 0 <= k < p.len() && p[k] == x;
            assert(order[k] == x);
        }
        lemma_merge_all_closed(s, p, o);
        assert(order.to_set() =~= p.to_set().insert(e)) by {
            assert(order =~= p.push(e));
            assert forall|x: Edge| order.to_set().contains(x) <==> p.to_set().insert(e).contains(x) by {
                if order.to_set().contains(x) {
                    let k = choose|k: int| 0 <= k < order.len() && order[k] == x;
                    if k < order.len() - 1 {
                        assert(p[k] == x);
                    }
                }
                if p.to_set().contains(x) {
                    let k = choose|k: int| 0 <= k < p.len() && p[k] == x;
                    assert(order[k] == x);
                }
                if x == e {
                    assert(order[order.len() - 1] == x);
                }
            }
        }
        assert(o.contains(e)) by {
            assert(order[order.len() - 1] == e);
        }
        assert(!p.to_set().contains(e)) by {
            if p.to_set().contains(e) {
                let k = choose|k: int| 0 <= k < p.len() && p[k] == e;
                assert(order[k] == order[order.len() - 1]);
            }
        }
        let ps = p.to_set();
        let m = merged(s, ps);
        assert(!o.contains(reversed(e)));
        assert(reversed(reversed(e)) =~= e);
        assert(m.contains(reversed(e)) == s.contains(reversed(e)));
        assert forall|x: Edge| o.contains(x) implies reversed(reversed(x)) == x by {
            assert(reversed(reversed(x)) =~= x);
        }
        assert(merge_step(m, e) =~= merged(s, ps.insert(e))) by {
            assert forall|x: Edge| #[trigger] merge_step(m, e).contains(x) <==> merged(
                s,
                ps.insert(e),
            ).contains(x) by {
                assert(reversed(reversed(x)) =~= x);
                if x == reversed(e) {
                    assert(reversed(x) =~= e);
                }
            }
        }
    }
}

/// When the border merged in runs one way only, the order in which its edges are
/// taken does not matter: the outcome is the edges of `s` whose reverse `o` lacks,
/// together with the edges of `o` whose reverse `s` lacks.
pub proof fn law_intersect_order_free(s: Set<Edge>, o: Set<Edge>, order: Seq<Edge>)
    requires
        one_way(o),
        order.to_set() == o,
        order.no_duplicates(),
    ensures
        merge_all(s, order) == merged(s, o),
{
    lemma_merge_all_closed(s, order, o);
}

/// Corner `k` of triangle `t` of the index list.
pub open spec fn corner_of(ind: Seq<u32>, t: int, k: int) -> u32 {
    ind[3 * t + k]
}

/// The corner after corner `k`, going round the triangle.
pub open spec fn next_corner(k: int) -> int {
    if k == 2 {
        0
    } else {
        k + 1
    }
}

/// The directed edge of triangle `t` that starts at corner `k`.
pub open spec fn directed_edge(ind: Seq<u32>, t: int, k: int) -> Edge {
    [corner_of(ind, t, k), corner_of(ind, t, next_corner(k))]
}

/// Triangle `t` has the directed edge `e`.
pub open spec fn owns_edge(ind: Seq<u32>, t: int, e: Edge) -> bool {
    directed_edge(ind, t, 0) == e || directed_edge(ind, t, 1) == e || directed_edge(ind, t, 2) == e
}

/// The triangle among the first `n` that has the directed edge `e`, if any.
pub open spec fn owner_below(ind: Seq<u32>, n: int, e: Edge) -> Option<usize> {
    if exists|t: usize| t < n && #[trigger] owns_edge(ind, t as int, e) {
        Some(choose|t: usize| t < n && #[trigger] owns_edge(ind, t as int, e))
    } else {
        None
    }
}

/// No directed edge occurs twice among the first `n` triangles.
pub open spec fn edges_unique(ind: Seq<u32>, n: int) -> bool {
    forall|t1: int, k1: int, t2: int, k2: int|
        0 <= t1 < n && 0 <= k1 < 3 && 0 <= t2 < n && 0 <= k2 < 3 && #[trigger] directed_edge(
            ind,
            t1,
            k1,
        ) == #[trigger] directed_edge(ind, t2, k2) ==> t1 == t2 && k1 == k2
}

/// Each of the first `n` triangles has three different corners.
pub open spec fn corners_distinct(ind: Seq<u32>, n: int) -> bool {
    forall|t: int|
        0 <= t < n ==> #[trigger] corner_of(ind, t, 0) != corner_of(ind, t, 1) && corner_of(ind, t, 1)
            != corner_of(ind, t, 2) && corner_of(ind, t, 0) != corner_of(ind, t, 2)
}

/// The triangles are those of the index list, in order, not yet linked to anything
/// (which cluster owns them does not matter).
pub open spec fn fresh_triangles(tris: Seq<TriangleNode>, ind: Seq<u32>) -> bool {
    &&& 3 * tris.len() <= ind.len()
    &&& forall|t: int|
        0 <= t < tris.len() ==> {
            &&& (#[trigger] tris[t]).idx == t
            &&& tris[t].idxs == [corner_of(ind, t, 0), corner_of(ind, t, 1), corner_of(ind, t, 2)]
            &&& tris[t].connections == [usize::MAX, usize::MAX, usize::MAX]
        }
}

/// The triangles of an index list, three indices each, none yet in a cluster or linked
/// to a neighbour.
pub fn triangles_from_indices(indices: &[u32]) -> (tris: Vec<TriangleNode>)
    requires
        indices@.len() % 3 == 0,
    ensures
        fresh_triangles(tris@, indices@),
        3 * tris@.len() == indices@.len(),
        forall|t: int| 0 <= t < tris@.len() ==> (#[trigger] tris@[t]).owned_by == usize::MAX,
{
    let mut tris: Vec<TriangleNode> = Vec::new();
    let len = indices.len();
    let count = len / 3;
    let mut t: usize = 0;
    while t < count
        invariant
            len == indices@.len(),
            count == indices@.len() / 3,
            indices@.len() % 3 == 0,
            t <= count,
            tris@.len() == t,
            fresh_triangles(tris@, indices@),
            forall|s: int| 0 <= s < tris@.len() ==> (#[trigger] tris@[s]).owned_by == usize::MAX,
        decreases count - t,
    {
        assert(3 * t + 2 < indices@.len());
        let base = 3 * t;
        let node = TriangleNode {
            idx: t,
            owned_by: usize::MAX,
            connections: [usize::MAX, usize::MAX, usize::MAX],
            idxs: [indices[base], indices[base + 1], indices[base + 2]],
        };
        let ghost before = tris@;
        tris.push(node);
        assert forall|s: int| 0 <= s < tris@.len() implies {
            &&& (#[trigger] tris@[s]).idx == s
            &&& tris@[s].owned_by == usize::MAX
            &&& tris@[s].idxs == [corner_of(indices@, s, 0), corner_of(indices@, s, 1), corner_of(indices@, s, 2)]
            &&& tris@[s].connections == [usize::MAX, usize::MAX, usize::MAX]
        } by {
            if s < t {
                assert(tris@[s] == before[s]);
            }
        }
        t += 1;
    }
    tris
}

/// The link of corner `k` of triangle `t` once the first `n` triangles are linked: the
/// triangle among them across the edge that starts at corner `k`.
pub open spec fn link(ind: Seq<u32>, n: int, t: int, k: int) -> usize {
    match owner_below(ind, n, reversed(directed_edge(ind, t, k))) {
        Some(s) => s,
        None => usize::MAX,
    }
}

/// Under unique directed edges, at most one triangle has a given directed edge.
proof fn lemma_owner_unique(ind: Seq<u32>, n: int, s1: int, s2: int, e: Edge)
    requires
        edges_unique(ind, n),
        0 <= s1 < n,
        0 <= s2 < n,
        owns_edge(ind, s1, e),
        owns_edge(ind, s2, e),
    ensures
        s1 == s2,
{
    let k1 = if directed_edge(ind, s1, 0) == e { 0int } else if directed_edge(ind, s1, 1) == e { 1int } else { 2int };
    let k2 = if directed_edge(ind, s2, 0) == e { 0int } else if directed_edge(ind, s2, 1) == e { 1int } else { 2int };
    assert(directed_edge(ind, s1, k1) == directed_edge(ind, s2, k2));
}

/// Under unique directed edges, the owner of an edge among the first `m` triangles is
/// the one triangle that has it, as long as that triangle is among them.
proof fn lemma_owner_below(ind: Seq<u32>, n: int, m: int, e: Edge)
    requires
        edges_unique(ind, n),
        0 <= m <= n,
        m <= usize::MAX,
    ensures
        forall|s: usize| s < m && owns_edge(ind, s as int, e) ==> owner_below(ind, m, e) == Some(s),
        (forall|s: usize| s < m ==> !owns_edge(ind, s as int, e)) ==> owner_below(ind, m, e) is None,
{
    assert forall|s: usize| s < m && owns_edge(ind, s as int, e) implies owner_below(ind, m, e) == Some(s) by {
        let c = choose|t: usize| t < m && #[trigger] owns_edge(ind, t as int, e);
        lemma_owner_unique(ind, n, s as int, c as int, e);
    }
}

/// The directed edge `e` is one of the edges of triangle `t` that start at corners
/// before `j`.
pub open spec fn reached(ind: Seq<u32>, t: int, j: int, e: Edge) -> bool {
    (j > 0 && directed_edge(ind, t, 0) == e) || (j > 1 && directed_edge(ind, t, 1) == e) || (j > 2
        && directed_edge(ind, t, 2) == e)
}

/// Links every triangle to its neighbours across shared edges and returns the table
/// from each directed edge to the triangle that has it.
///
/// Two triangles that share an edge wind it in opposite directions, so the neighbour
/// across the edge that starts at corner `k` of a triangle is the triangle that has
/// that edge reversed. The triangles must come fresh from their index list, every
/// directed edge must occur once and every triangle must have three different corners.
pub fn build_adjacency_graph(triangles: &mut Vec<TriangleNode>, indices: &[u32]) -> (g: EdgeMap<usize>)
    requires
        fresh_triangles(old(triangles)@, indices@),
        edges_unique(indices@, old(triangles)@.len() as int),
        corners_distinct(indices@, old(triangles)@.len() as int),
    ensures
        final(triangles)@.len() == old(triangles)@.len(),
        forall|e: Edge|
            #[trigger] g@.contains_key(e) <==> owner_below(indices@, old(triangles)@.len() as int, e) is Some,
        forall|e: Edge|
            #[trigger] g@.contains_key(e) ==> owner_below(indices@, old(triangles)@.len() as int, e)
                == Some(g@[e]),
        forall|t: int|
            0 <= t < final(triangles)@.len() ==> {
                &&& (#[trigger] final(triangles)@[t]).idx == old(triangles)@[t].idx
                &&& final(triangles)@[t].owned_by == old(triangles)@[t].owned_by
                &&& final(triangles)@[t].idxs == old(triangles)@[t].idxs
                &&& final(triangles)@[t].connections == [
                    link(indices@, final(triangles)@.len() as int, t, 0),
                    link(indices@, final(triangles)@.len() as int, t, 1),
                    link(indices@, final(triangles)@.len() as int, t, 2),
                ]
            },
{
    let ghost ind = indices@;
    let ghost orig = triangles@;
    let ghost n = triangles@.len() as int;
    let mut g: EdgeMap<usize> = map_new();
    let count = triangles.len();
    let ilen = indices.len();
    let mut t: usize = 0;
    while t < count
        invariant
            ilen == ind.len(),
            orig.len() == n,
            count == n,
            n == triangles@.len(),
            ind == indices@,
            fresh_triangles(orig, ind),
            edges_unique(ind, n),
            corners_distinct(ind, n),
            0 <= t <= n,
            forall|e: Edge| #[trigger] g@.contains_key(e) <==> owner_below(ind, t as int, e) is Some,
            forall|e: Edge| #[trigger] g@.contains_key(e) ==> owner_below(ind, t as int, e) == Some(g@[e]),
            forall|s: int| t <= s < n ==> #[trigger] triangles@[s] == orig[s],
            forall|s: int|
                0 <= s < t ==> {
                    &&& (#[trigger] triangles@[s]).idx == orig[s].idx
                    &&& triangles@[s].owned_by == orig[s].owned_by
                    &&& triangles@[s].idxs == orig[s].idxs
                    &&& triangles@[s].connections == [
                        link(ind, t as int, s, 0),
                        link(ind, t as int, s, 1),
                        link(ind, t as int, s, 2),
                    ]
                },
        decreases n - t,
    {
        proof {
            assert(triangles@[t as int] == orig[t as int]);
            assert(orig[t as int].idxs == [corner_of(ind, t as int, 0), corner_of(ind, t as int, 1), corner_of(ind, t as int, 2)]);
            assert(3 * n <= ind.len());
        }
        let tri = triangles[t];
        let i0 = tri.idxs[0];
        let i1 = tri.idxs[1];
        let i2 = tri.idxs[2];
        let ghost gt = g@;
        map_insert(&mut g, [i0, i1], t);
        map_insert(&mut g, [i1, i2], t);
        map_insert(&mut g, [i2, i0], t);
        proof {
            let tt = t as int;
            assert(directed_edge(ind, tt, 0) == [i0, i1]);
            assert(directed_edge(ind, tt, 1) == [i1, i2]);
            assert(directed_edge(ind, tt, 2) == [i2, i0]);
            lemma_owner_below(ind, n, tt + 1, [i0, i1]);
            assert(g@ == gt.insert([i0, i1], t).insert([i1, i2], t).insert([i2, i0], t));
            assert forall|e: Edge| #[trigger] g@.contains_key(e) <==> owner_below(ind, tt + 1, e) is Some by {
                lemma_owner_below(ind, n, tt + 1, e);
                lemma_owner_below(ind, n, tt, e);
                if owns_edge(ind, tt, e) {
                    assert(t < tt + 1 && owns_edge(ind, t as int, e));
                }
                if owner_below(ind, tt + 1, e) is Some {
                    let c = choose|c: usize| c < tt + 1 && #[trigger] owns_edge(ind, c as int, e);
                    if c < tt {
                        assert(gt.contains_key(e));
                    }
                }
                if gt.contains_key(e) {
                    let c = choose|c: usize| c < tt && #[trigger] owns_edge(ind, c as int, e);
                    assert(c < tt + 1);
                }
            }
            assert forall|e: Edge| #[trigger] g@.contains_key(e) implies owner_below(ind, tt + 1, e) == Some(g@[e]) by {
                lemma_owner_below(ind, n, tt + 1, e);
                lemma_owner_below(ind, n, tt, e);
                if !owns_edge(ind, tt, e) {
                    assert(gt.contains_key(e));
                    let c = choose|c: usize| c < tt && #[trigger] owns_edge(ind, c as int, e);
                    assert(owner_below(ind, tt, e) == Some(c));
                }
            }
        }
        let adjacent_edges: [Edge; 3] = [[i1, i0], [i2, i1], [i0, i2]];
        let mut eidx: usize = 0;
        while eidx < 3
            invariant
                ilen == ind.len(),
                orig.len() == n,
                count == n,
                n == triangles@.len(),
                ind == indices@,
                fresh_triangles(orig, ind),
                edges_unique(ind, n),
                corners_distinct(ind, n),
                0 <= t < n,
                0 <= eidx <= 3,
                adjacent_edges@ == seq![
                    reversed(directed_edge(ind, t as int, 0)),
                    reversed(directed_edge(ind, t as int, 1)),
                    reversed(directed_edge(ind, t as int, 2)),
                ],
                forall|e: Edge| #[trigger] g@.contains_key(e) <==> owner_below(ind, t + 1, e) is Some,
                forall|e: Edge| #[trigger] g@.contains_key(e) ==> owner_below(ind, t + 1, e) == Some(g@[e]),
                forall|s: int| t < s < n ==> #[trigger] triangles@[s] == orig[s],
                triangles@[t as int].idx == orig[t as int].idx,
                triangles@[t as int].owned_by == orig[t as int].owned_by,
                triangles@[t as int].idxs == orig[t as int].idxs,
                forall|k: int| 0 <= k < 3 ==> #[trigger] triangles@[t as int].connections[k] == if k < eidx {
                    link(ind, t + 1, t as int, k)
                } else {
                    usize::MAX
                },
                forall|s: int|
                    0 <= s < t ==> {
                        &&& (#[trigger] triangles@[s]).idx == orig[s].idx
                        &&& triangles@[s].owned_by == orig[s].owned_by
                        &&& triangles@[s].idxs == orig[s].idxs
                    },
                forall|s: int, k: int|
                    0 <= s < t && 0 <= k < 3 ==> #[trigger] triangles@[s].connections[k] == if reached(
                        ind,
                        t as int,
                        eidx as int,
                        reversed(directed_edge(ind, s, k)),
                    ) {
                        link(ind, t + 1, s, k)
                    } else {
                        link(ind, t as int, s, k)
                    },
            decreases 3 - eidx,
        {
            let edge = adjacent_edges[eidx];
            let ghost before = triangles@;
            match map_get(&g, &edge) {
                Some(adj) => {
                    proof {
                        assert(owns_edge(ind, adj as int, edge));
                        if adj == t {
                            assert(false);
                        }
                    }
                    let mut me = triangles[t];
                    me.connections[eidx] = adj;
                    triangles.set(t, me);
                    assert(3 * n <= ind.len());
                    let base = 3 * adj;
                    let mut k: usize = 0;
                    while k < 3 && indices[base + k] != edge[0]
                        invariant
                            adj < t,
                            t < n,
                            base == 3 * adj,
                            3 * n <= ind.len(),
                            ilen == ind.len(),
                            ind == indices@,
                            0 <= k <= 3,
                            forall|k2: int| 0 <= k2 < k ==> corner_of(ind, adj as int, k2) != edge[0],
                        decreases 3 - k,
                    {
                        k += 1;
                    }
                    proof {
                        let m = if directed_edge(ind, adj as int, 0) == edge { 0int } else if directed_edge(ind, adj as int, 1) == edge { 1int } else { 2int };
                        assert(directed_edge(ind, adj as int, m) == edge);
                        assert(k <= m);
                        assert(k == m);
                    }
                    let ghost mid = triangles@;
                    let mut other = triangles[adj];
                    other.connections[k] = t;
                    triangles.set(adj, other);
                    proof {
                        let tt = t as int;
                        let j = eidx as int;
                        lemma_owner_below(ind, n, tt + 1, reversed(edge));
                        assert(reversed(edge) == directed_edge(ind, tt, j));
                        assert forall|s: int, k2: int|
                            0 <= s < t && 0 <= k2 < 3 implies #[trigger] triangles@[s].connections[k2] == if reached(
                                ind,
                                tt,
                                j + 1,
                                reversed(directed_edge(ind, s, k2)),
                            ) {
                                link(ind, tt + 1, s, k2)
                            } else {
                                link(ind, tt, s, k2)
                            } by {
                            let x = reversed(directed_edge(ind, s, k2));
                            lemma_owner_below(ind, n, tt + 1, x);
                            lemma_owner_below(ind, n, tt, x);
                            if s == adj && k2 == k {
                                assert(x == directed_edge(ind, tt, j));
                                assert(owns_edge(ind, tt, x));
                                assert(t < tt + 1 && owns_edge(ind, t as int, x));
                                if reached(ind, tt, j, x) {
                                    let e2 = if directed_edge(ind, tt, 0) == x { 0int } else if directed_edge(ind, tt, 1) == x { 1int } else { 2int };
                                    assert(directed_edge(ind, tt, e2) == directed_edge(ind, tt, j));
                                }
                                assert(link(ind, tt + 1, s, k2) == t);
                            } else {
                                assert(triangles@[s].connections[k2] == before[s].connections[k2]);
                                if x == directed_edge(ind, tt, j) {
                                    assert(directed_edge(ind, s, k2) == edge);
                                    assert(directed_edge(ind, adj as int, k as int) == edge);
                                    assert(s == adj && k2 == k);
                                }
                            }
                        }
                    }
                    proof {

                    }
                },
                None => {
                    proof {
                        let tt = t as int;
                        let j = eidx as int;
                        assert forall|s: int, k2: int|
                            0 <= s < t && 0 <= k2 < 3 implies #[trigger] triangles@[s].connections[k2] == if reached(
                                ind,
                                tt,
                                j + 1,
                                reversed(directed_edge(ind, s, k2)),
                            ) {
                                link(ind, tt + 1, s, k2)
                            } else {
                                link(ind, tt, s, k2)
                            } by {
                            let x = reversed(directed_edge(ind, s, k2));
                            if x == directed_edge(ind, tt, j) {
                                assert(directed_edge(ind, s, k2) == edge);
                                assert(owns_edge(ind, s, edge));
                                lemma_owner_below(ind, n, tt + 1, edge);
                                assert((s as usize) < tt + 1 && owns_edge(ind, (s as usize) as int, edge));
                            }
                        }
                    }
                },
            }
            eidx += 1;
        }
        t += 1;
    }
    g
}

/// Links go both ways: when the edge at corner `k` of triangle `t` leads to triangle
/// `s`, some edge of `s` leads back to `t`; and no triangle is linked to itself.
pub proof fn law_links_are_mutual(ind: Seq<u32>, n: int, t: int, k: int)
    requires
        edges_unique(ind, n),
        corners_distinct(ind, n),
        3 * n <= ind.len(),
        n <= usize::MAX,
        0 <= t < n,
        0 <= k < 3,
        link(ind, n, t, k) != usize::MAX,
    ensures
        link(ind, n, t, k) != t,
        exists|k2: int| 0 <= k2 < 3 && link(ind, n, link(ind, n, t, k) as int, k2) == t,
{
    let x = reversed(directed_edge(ind, t, k));
    let s = link(ind, n, t, k);
    assert(owner_below(ind, n, x) is Some);
    let c = choose|c: usize| c < n && #[trigger] owns_edge(ind, c as int, x);
    lemma_owner_below(ind, n, n, x);
    assert(s == c);
    let k2 = if directed_edge(ind, s as int, 0) == x { 0int } else if directed_edge(ind, s as int, 1) == x { 1int } else { 2int };
    assert(directed_edge(ind, s as int, k2) == x);
    assert(reversed(directed_edge(ind, s as int, k2)) =~= directed_edge(ind, t, k));
    lemma_owner_below(ind, n, n, directed_edge(ind, t, k));
    assert((t as usize) < n && owns_edge(ind, (t as usize) as int, directed_edge(ind, t, k)));
    assert(link(ind, n, s as int, k2) == t);
    if s == t {
        assert(directed_edge(ind, t, k2) == reversed(directed_edge(ind, t, k)));
    }
}

/// The triangles from which clusters start growing: every `step`-th triangle, from the
/// first.
pub fn cluster_seeds(tri_count: usize, step: usize) -> (seeds: Vec<usize>)
    requires
        step >= 1,
    ensures
        seeds@.len() == (tri_count + step - 1) as int / (step as int),
        forall|i: int| 0 <= i < seeds@.len() ==> #[trigger] seeds@[i] == i * step,
{
    let mut seeds: Vec<usize> = Vec::new();
    let mut tri_idx: usize = 0;
    assert(seeds@.len() * step == 0) by (nonlinear_arith)
        requires
            seeds@.len() == 0,
    ;
    while tri_idx < tri_count
        invariant
            step >= 1,
            tri_idx == seeds@.len() * step,
            seeds@.len() * step < tri_count + step,
            forall|i: int| 0 <= i < seeds@.len() ==> #[trigger] seeds@[i] == i * step,
        decreases tri_count - tri_idx,
    {
        let ghost before = seeds@;
        seeds.push(tri_idx);
        proof {
            assert forall|i: int| 0 <= i < seeds@.len() implies #[trigger] seeds@[i] == i * step by {
                if i < before.len() {
                    assert(seeds@[i] == before[i]);
                }
            }
            assert((seeds@.len() as int) * step == before.len() * step + step) by (nonlinear_arith)
                requires
                    seeds@.len() == before.len() + 1,
            ;
        }
        if tri_count - tri_idx <= step {
            proof {
                let k = seeds@.len() as int;
                assert((tri_count + step - 1) as int / (step as int) == k) by (nonlinear_arith)
                    requires
                        step >= 1,
                        (k - 1) * step < tri_count,
                        tri_count <= k * step,
                ;
            }
            return seeds;
        }
        tri_idx = tri_idx + step;
    }
    proof {
        let k = seeds@.len() as int;
        assert((tri_count + step - 1) as int / (step as int) == k) by (nonlinear_arith)
            requires
                step >= 1,
                k * step >= tri_count,
                k * step < tri_count + step,
        ;
    }
    seeds
}

} // verus!
