//! The bookkeeping of mesh simplification by edge collapse: when the two ends of an
//! edge merge into a new vertex, the index list and the connectivity tables are brought
//! up to date.

use crate::fold::{map_get, map_insert, map_keys, map_new, map_remove, set_contains, set_elements, set_insert, set_new, set_remove, EdgeMap, EdgeSet, TriSet};
use crate::topology::{new_edge, new_tri, spec_edge, spec_tri, Edge, Triangle};
use std::collections::HashMap;
use std::collections::HashSet;
use vstd::prelude::*;

verus! {

/// Vertex `x` after the ends of `e` have merged into vertex `v`.
pub open spec fn merged_vertex(x: u32, e: Edge, v: u32) -> u32 {
    if x == e[0] || x == e[1] {
        v
    } else {
        x
    }
}

/// Two corners of the triangle at position `3 * t` of the list coincide.
pub open spec fn degenerate_at(s: Seq<u32>, t: int) -> bool {
    s[3 * t] == s[3 * t + 1] || s[3 * t] == s[3 * t + 2] || s[3 * t + 1] == s[3 * t + 2]
}

/// The index list with the ends of `e` renamed `v`, keeping only the triangles (three
/// indices each) whose corners stay different, in order.
pub open spec fn collapsed_list(s: Seq<u32>, e: Edge, v: u32) -> Seq<u32>
    decreases s.len(),
{
    if s.len() < 3 {
        Seq::empty()
    } else {
        let rest = collapsed_list(s.take(s.len() - 3), e, v);
        let (a, b, c) = (
            merged_vertex(s[s.len() - 3], e, v),
            merged_vertex(s[s.len() - 2], e, v),
            merged_vertex(s[s.len() - 1], e, v),
        );
        if a == b || a == c || b == c {
            rest
        } else {
            rest + seq![a, b, c]
        }
    }
}

/// Merges the ends of `edge` into vertex `new_idx` in an index list of whole triangles:
/// every index of either end becomes `new_idx`, and the triangles that thereby lose a
/// corner (two corners the same) leave the list.
pub fn collapse_indices(indices: &mut Vec<u32>, edge: Edge, new_idx: u32)
    requires
        old(indices)@.len() % 3 == 0,
    ensures
        final(indices)@ == collapsed_list(old(indices)@, edge, new_idx),
        final(indices)@.len() % 3 == 0,
{
    let ghost orig = indices@;
    let mut kept: Vec<u32> = Vec::new();
    let len = indices.len();
    let count = len / 3;
    let mut t: usize = 0;
    while t < count
        invariant
            len == orig.len(),
            count == orig.len() / 3,
            orig.len() % 3 == 0,
            indices@ == orig,
            t <= count,
            kept@ == collapsed_list(orig.take(3 * t), edge, new_idx),
            kept@.len() % 3 == 0,
        decreases count - t,
    {
        assert(3 * t + 2 < len);
        let base = 3 * t;
        let a0 = indices[base];
        let b0 = indices[base + 1];
        let c0 = indices[base + 2];
        let a = if a0 == edge[0] || a0 == edge[1] { new_idx } else { a0 };
        let b = if b0 == edge[0] || b0 == edge[1] { new_idx } else { b0 };
        let c = if c0 == edge[0] || c0 == edge[1] { new_idx } else { c0 };
        proof {
            let p = orig.take(3 * t + 3);
            assert(p.take(p.len() - 3) =~= orig.take(3 * t));
            assert(p[p.len() - 3] == a0 && p[p.len() - 2] == b0 && p[p.len() - 1] == c0);
        }
        if !(a == b || a == c || b == c) {
            kept.push(a);
            kept.push(b);
            kept.push(c);
        }
        assert(kept@ =~= collapsed_list(orig.take(3 * t + 3), edge, new_idx));
        t += 1;
    }
    assert(orig.take(3 * count) =~= orig);
    *indices = kept;
}

/// How many corners of `t` are ends of `e`.
pub open spec fn hit_count(t: Triangle, e: Edge) -> int {
    (if t[0] == e[0] || t[0] == e[1] { 1int } else { 0int }) + (if t[1] == e[0] || t[1] == e[1] {
        1int
    } else {
        0int
    }) + (if t[2] == e[0] || t[2] == e[1] { 1int } else { 0int })
}

/// Triangle `t`, which has one end of `e` as a corner, with that corner replaced by `v`
/// (corners ascending).
pub open spec fn replacement(t: Triangle, e: Edge, v: u32) -> Triangle {
    if t[2] == e[0] || t[2] == e[1] {
        spec_tri(v, t[0], t[1])
    } else if t[1] == e[0] || t[1] == e[1] {
        spec_tri(v, t[0], t[2])
    } else {
        spec_tri(v, t[1], t[2])
    }
}

/// The triangle set after the ends of `e` merged into `v`: triangles away from the edge
/// stay, triangles with one end as a corner are carried over to `v`, and triangles with
/// both ends (the ones on the edge) vanish.
pub open spec fn retargeted_tris(tris: Set<Triangle>, e: Edge, v: u32) -> Set<Triangle> {
    tris.filter(|t: Triangle| hit_count(t, e) == 0).union(
        tris.filter(|t: Triangle| hit_count(t, e) == 1).map(|t: Triangle| replacement(t, e, v)),
    )
}

/// Brings the triangle set up to date after the ends of `collapsed` merged into
/// `new_point`.
pub fn retarget_tris(tris: &mut TriSet, collapsed: Edge, new_point: u32)
    ensures
        final(tris)@ == retargeted_tris(old(tris)@, collapsed, new_point),
{
    let ghost orig = tris@;
    let order = set_elements(tris);
    let mut removals: Vec<Triangle> = Vec::new();
    let mut additions: Vec<Triangle> = Vec::new();
    let mut i: usize = 0;
    while i < order.len()
        invariant
            0 <= i <= order@.len(),
            order@.to_set() == orig,
            removals@.to_set() == order@.take(i as int).to_set().filter(|t: Triangle| hit_count(t, collapsed) >= 1),
            additions@.to_set() == order@.take(i as int).to_set().filter(|t: Triangle| hit_count(t, collapsed) == 1).map(|t: Triangle| replacement(t, collapsed, new_point)),
        decreases order@.len() - i,
    {
        let tri = order[i];
        let mut count: u32 = 0;
        let mut add: Triangle = [0, 0, 0];
        if tri[0] == collapsed[0] || tri[0] == collapsed[1] {
            count += 1;
            add = new_tri(new_point, tri[1], tri[2]);
        }
        if tri[1] == collapsed[0] || tri[1] == collapsed[1] {
            count += 1;
            add = new_tri(new_point, tri[0], tri[2]);
        }
        if tri[2] == collapsed[0] || tri[2] == collapsed[1] {
            count += 1;
            add = new_tri(new_point, tri[0], tri[1]);
        }
        let ghost r_before = removals@;
        let ghost a_before = additions@;
        if count > 1 {
            removals.push(tri);
        }
        if count == 1 {
            removals.push(tri);
            additions.push(add);
        }
        proof {
            let prev = order@.take(i as int).to_set();
            order@.take(i as int).lemma_push_to_set_commute(tri);
            assert(order@.take(i + 1) =~= order@.take(i as int).push(tri));
            assert(count == hit_count(tri, collapsed));
            r_before.lemma_push_to_set_commute(tri);
            a_before.lemma_push_to_set_commute(add);
            let fr = |t: Triangle| hit_count(t, collapsed) >= 1;
            let fa = |t: Triangle| hit_count(t, collapsed) == 1;
            let g = |t: Triangle| replacement(t, collapsed, new_point);
            assert(removals@.to_set() =~= prev.insert(tri).filter(fr));
            if count == 1 {
                assert(add == g(tri));
                assert(prev.insert(tri).filter(fa) =~= prev.filter(fa).insert(tri));
                assert(additions@.to_set() =~= prev.insert(tri).filter(fa).map(g)) by {
                    assert forall|x: Triangle| #[trigger] additions@.to_set().contains(x) <==> prev.filter(fa).insert(tri).map(g).contains(x) by {
                        if x == g(tri) {
                            assert(prev.filter(fa).insert(tri).contains(tri));
                        }
                        if prev.filter(fa).map(g).contains(x) {
                            let y = choose|y: Triangle| prev.filter(fa).contains(y) && g(y) == x;
                            assert(prev.filter(fa).insert(tri).contains(y));
                        }
                        if prev.filter(fa).insert(tri).map(g).contains(x) {
                            let y = choose|y: Triangle| prev.filter(fa).insert(tri).contains(y) && g(y) == x;
                            if y != tri {
                                assert(prev.filter(fa).map(g).contains(x));
                            }
                        }
                    }
                }
            } else {
                assert(prev.insert(tri).filter(fa) =~= prev.filter(fa));
            }
        }
        i += 1;
    }
    assert(order@.take(order@.len() as int) =~= order@);
    let ghost removed = removals@.to_set();
    let ghost added = additions@.to_set();
    let mut j: usize = 0;
    while j < removals.len()
        invariant
            0 <= j <= removals@.len(),
            tris@ == orig.difference(removals@.take(j as int).to_set()),
        decreases removals@.len() - j,
    {
        let r = removals[j];
        proof {
            removals@.take(j as int).lemma_push_to_set_commute(r);
            assert(removals@.take(j + 1) =~= removals@.take(j as int).push(r));
        }
        set_remove(tris, &r);
        assert(tris@ =~= orig.difference(removals@.take(j + 1).to_set()));
        j += 1;
    }
    assert(removals@.take(removals@.len() as int) =~= removals@);
    let ghost middle = tris@;
    let mut k: usize = 0;
    while k < additions.len()
        invariant
            0 <= k <= additions@.len(),
            tris@ == middle.union(additions@.take(k as int).to_set()),
        decreases additions@.len() - k,
    {
        let a = additions[k];
        proof {
            additions@.take(k as int).lemma_push_to_set_commute(a);
            assert(additions@.take(k + 1) =~= additions@.take(k as int).push(a));
        }
        set_insert(tris, a);
        assert(tris@ =~= middle.union(additions@.take(k + 1).to_set()));
        k += 1;
    }
    assert(additions@.take(additions@.len() as int) =~= additions@);
    assert(middle =~= orig.filter(|t: Triangle| hit_count(t, collapsed) == 0));
}

/// `x` is an end of `e`.
pub open spec fn hits(x: u32, e: Edge) -> bool {
    x == e[0] || x == e[1]
}

/// The new entry of an edge untouched by the merge at its ends: `None` where the edge
/// leaves the table (two or more of its ends and sides are ends of the collapsed edge, or
/// one of its own ends is), otherwise its entry with a side that was an end renamed `v`.
pub open spec fn kept_entry(k: Edge, w: [u32; 2], c: Edge, v: u32) -> Option<[u32; 2]> {
    let replaced = (if hits(k[0], c) { 1int } else { 0int }) + (if hits(k[1], c) { 1int } else { 0int })
        + (if hits(w[0], c) { 1int } else { 0int }) + (if hits(w[1], c) { 1int } else { 0int });
    if hits(k[0], c) || hits(k[1], c) || replaced >= 2 {
        None
    } else if replaced == 1 {
        Some(spec_edge(merged_vertex(w[0], c, v), merged_vertex(w[1], c, v)))
    } else {
        Some(w)
    }
}

/// The entry an edge with an end at the collapsed edge hands on: the edge with that end
/// renamed `v`, and its sides with any end of the collapsed edge emptied.
pub open spec fn moved_entry(k: Edge, w: [u32; 2], c: Edge, v: u32) -> Option<(Edge, [u32; 2])> {
    if hits(k[0], c) || hits(k[1], c) {
        Some(
            (
                spec_edge(merged_vertex(k[0], c, v), merged_vertex(k[1], c, v)),
                spec_edge(
                    if hits(w[0], c) { u32::MAX } else { w[0] },
                    if hits(w[1], c) { u32::MAX } else { w[1] },
                ),
            ),
        )
    } else {
        None
    }
}

/// The table with the collapsed edge gone, every other edge given its kept entry, and the
/// edges without one removed.
pub open spec fn kept_table(m: Map<Edge, [u32; 2]>, c: Edge, v: u32) -> Map<Edge, [u32; 2]> {
    Map::new(
        |k: Edge| m.contains_key(k) && k != c && kept_entry(k, m[k], c, v) is Some,
        |k: Edge| kept_entry(k, m[k], c, v).unwrap(),
    )
}

/// The side of an entry to keep when two entries meet: the first unless it is empty.
pub open spec fn pick_side(x: [u32; 2]) -> u32 {
    if x[0] == u32::MAX {
        x[1]
    } else {
        x[0]
    }
}

/// Stores a moved entry: where the edge already has an entry, the two are joined (the
/// kept side of each, ascending) unless both are empty.
pub open spec fn store_moved(m: Map<Edge, [u32; 2]>, key: Edge, val: [u32; 2]) -> Map<Edge, [u32; 2]> {
    if m.contains_key(key) {
        let joined = spec_edge(pick_side(m[key]), pick_side(val));
        if joined[0] != u32::MAX || joined[1] != u32::MAX {
            m.insert(key, joined)
        } else {
            m.insert(key, val)
        }
    } else {
        m.insert(key, val)
    }
}

/// The moved entries of the edges of `order`, in that order.
pub open spec fn moved_entries(order: Seq<Edge>, m: Map<Edge, [u32; 2]>, c: Edge, v: u32) -> Seq<(Edge, [u32; 2])>
    decreases order.len(),
{
    if order.len() == 0 {
        Seq::empty()
    } else {
        let prev = moved_entries(order.drop_last(), m, c, v);
        match moved_entry(order.last(), m[order.last()], c, v) {
            Some(x) => prev.push(x),
            None => prev,
        }
    }
}

/// Stores the moved entries one after the other.
pub open spec fn store_all(m: Map<Edge, [u32; 2]>, adds: Seq<(Edge, [u32; 2])>) -> Map<Edge, [u32; 2]>
    decreases adds.len(),
{
    if adds.len() == 0 {
        m
    } else {
        store_moved(store_all(m, adds.drop_last()), adds.last().0, adds.last().1)
    }
}

/// Brings the edge table up to date after the ends of `collapsed` merged into
/// `new_point`: the collapsed edge leaves; edges with an end at it move to `new_point`
/// (see `moved_entry`, `store_moved`), in the order in which the table yields them;
/// the others keep or lose their entries as `kept_entry` says.
pub fn retarget_edges(edges: &mut EdgeMap<[u32; 2]>, collapsed: Edge, new_point: u32)
    ensures
        exists|order: Seq<Edge>|
            order.to_set() == old(edges)@.dom().remove(collapsed) && order.no_duplicates()
                && final(edges)@ == store_all(
                kept_table(old(edges)@, collapsed, new_point),
                moved_entries(order, old(edges)@, collapsed, new_point),
            ),
        new_point != collapsed[0] && new_point != collapsed[1] && collapsed[0] != u32::MAX && collapsed[1] != u32::MAX
            && (forall|k: Edge| #[trigger] old(edges)@.contains_key(k) ==> k[0] != new_point && k[1] != new_point) ==> {
            &&& forall|k: Edge| #[trigger] final(edges)@.contains_key(k) ==> !hits(k[0], collapsed) && !hits(k[1], collapsed)
                && sides_clear(final(edges)@[k], collapsed)
            &&& forall|k: Edge|
                #[trigger] final(edges)@.contains_key(k) && k[0] != new_point && k[1] != new_point ==> {
                    &&& old(edges)@.contains_key(k)
                    &&& !(hits(old(edges)@[k][0], collapsed) && hits(old(edges)@[k][1], collapsed))
                    &&& final(edges)@[k] == if sides_clear(old(edges)@[k], collapsed) {
                        old(edges)@[k]
                    } else {
                        spec_edge(merged_vertex(old(edges)@[k][0], collapsed, new_point), merged_vertex(old(edges)@[k][1], collapsed, new_point))
                    }
                }
            &&& forall|k: Edge|
                #[trigger] old(edges)@.contains_key(k) && !hits(k[0], collapsed) && !hits(k[1], collapsed) && !(hits(old(edges)@[k][0], collapsed)
                    && hits(old(edges)@[k][1], collapsed)) ==> final(edges)@.contains_key(k)
            &&& forall|k0: Edge|
                #[trigger] old(edges)@.contains_key(k0) && k0 != collapsed && (hits(k0[0], collapsed) || hits(k0[1], collapsed))
                    ==> final(edges)@.contains_key(renamed_edge(k0, collapsed, new_point))
        },
{
    let ghost orig = edges@;
    map_remove(edges, &collapsed);
    let ghost m1 = edges@;
    let order = map_keys(edges);
    let mut removals: Vec<Edge> = Vec::new();
    let mut additions: Vec<(Edge, [u32; 2])> = Vec::new();
    let mut i: usize = 0;
    while i < order.len()
        invariant
            0 <= i <= order@.len(),
            order@.to_set() == m1.dom(),
            order@.no_duplicates(),
            m1 == orig.remove(collapsed),
            edges@.dom() == m1.dom(),
            forall|k: Edge| #[trigger] edges@.contains_key(k) ==> edges@[k] == if order@.take(i as int).contains(k) && kept_entry(k, m1[k], collapsed, new_point) is Some {
                kept_entry(k, m1[k], collapsed, new_point).unwrap()
            } else {
                m1[k]
            },
            removals@.to_set() == order@.take(i as int).to_set().filter(|k: Edge| kept_entry(k, m1[k], collapsed, new_point) is None),
            additions@ == moved_entries(order@.take(i as int), m1, collapsed, new_point),
        decreases order@.len() - i,
    {
        let key = order[i];
        proof {
            assert(order@.to_set().contains(key));
        }
        let value = map_get(edges, &key).unwrap();
        proof {
            assert(!order@.take(i as int).contains(key)) by {
                if order@.take(i as int).contains(key) {
                    let q = choose|q: int| 0 <= q < i && order@.take(i as int)[q] == key;
                    assert(order@[q] == order@[i as int]);
                }
            }
            assert(value == m1[key]);
        }
        let mut replaced: u32 = 0;
        let mut key_changed = false;
        let mut new_key = key;
        let mut new_val = value;
        let mut cur = value;
        if new_key[0] == collapsed[0] || new_key[0] == collapsed[1] {
            new_key[0] = new_point;
            key_changed = true;
            replaced += 1;
        }
        if new_key[1] == collapsed[0] || new_key[1] == collapsed[1] {
            new_key[1] = new_point;
            key_changed = true;
            replaced += 1;
        }
        if value[0] == collapsed[0] || value[0] == collapsed[1] {
            if key_changed {
                new_val[0] = u32::MAX;
            } else {
                cur[0] = new_point;
            }
            replaced += 1;
        }
        if value[1] == collapsed[0] || value[1] == collapsed[1] {
            if key_changed {
                new_val[1] = u32::MAX;
            } else {
                cur[1] = new_point;
            }
            replaced += 1;
        }
        let ghost r_before = removals@;
        let ghost a_before = additions@;
        let ghost e_before = edges@;
        if replaced >= 2 || key_changed {
            removals.push(key);
        } else if replaced > 0 {
            map_insert(edges, key, new_edge(cur[0], cur[1]));
        }
        if key_changed {
            additions.push((new_edge(new_key[0], new_key[1]), new_edge(new_val[0], new_val[1])));
        }
        proof {
            order@.take(i as int).lemma_push_to_set_commute(key);
            assert(order@.take(i + 1) =~= order@.take(i as int).push(key));
            assert(order@.take(i + 1).drop_last() =~= order@.take(i as int));
            r_before.lemma_push_to_set_commute(key);
            let fr = |k: Edge| kept_entry(k, m1[k], collapsed, new_point) is None;
            assert(removals@.to_set() =~= order@.take(i as int).to_set().insert(key).filter(fr));
            assert(additions@ =~= moved_entries(order@.take(i + 1), m1, collapsed, new_point));
            assert forall|k: Edge| #[trigger] edges@.contains_key(k) implies edges@[k] == if order@.take(i + 1).contains(k) && kept_entry(k, m1[k], collapsed, new_point) is Some {
                kept_entry(k, m1[k], collapsed, new_point).unwrap()
            } else {
                m1[k]
            } by {
                if k != key {
                    assert(order@.take(i + 1).contains(k) == order@.take(i as int).contains(k));
                } else {
                    assert(order@.take(i + 1)[i as int] == key);
                }
            }
            assert(edges@.dom() =~= m1.dom());
        }
        i += 1;
    }
    assert(order@.take(order@.len() as int) =~= order@);
    let ghost mid = edges@;
    let mut j: usize = 0;
    while j < removals.len()
        invariant
            0 <= j <= removals@.len(),
            edges@ == mid.remove_keys(removals@.take(j as int).to_set()),
        decreases removals@.len() - j,
    {
        let r = removals[j];
        proof {
            removals@.take(j as int).lemma_push_to_set_commute(r);
            assert(removals@.take(j + 1) =~= removals@.take(j as int).push(r));
        }
        map_remove(edges, &r);
        assert(edges@ =~= mid.remove_keys(removals@.take(j + 1).to_set()));
        j += 1;
    }
    assert(removals@.take(removals@.len() as int) =~= removals@);
    proof {
        assert(edges@ =~= kept_table(orig, collapsed, new_point)) by {
            assert forall|k: Edge| #[trigger] edges@.contains_key(k) <==> kept_table(orig, collapsed, new_point).contains_key(k) by {
                if m1.contains_key(k) {
                    assert(order@.to_set().contains(k));
                }
            }
            assert forall|k: Edge| #[trigger] edges@.contains_key(k) implies edges@[k] == kept_table(orig, collapsed, new_point)[k] by {
                assert(order@.to_set().contains(k));
            }
        }
    }
    let ghost kept = edges@;
    let mut k: usize = 0;
    while k < additions.len()
        invariant
            0 <= k <= additions@.len(),
            edges@ == store_all(kept, additions@.take(k as int)),
        decreases additions@.len() - k,
    {
        let add = additions[k];
        let key = add.0;
        let val = add.1;
        proof {
            assert(additions@.take(k + 1).drop_last() =~= additions@.take(k as int));
            assert(additions@.take(k + 1).last() == add);
        }
        let previous = map_insert(edges, key, val);
        if let Some(o) = previous {
            let a = if o[0] == u32::MAX { o[1] } else { o[0] };
            let b = if val[0] == u32::MAX { val[1] } else { val[0] };
            let joined = new_edge(a, b);
            if joined[0] != u32::MAX || joined[1] != u32::MAX {
                map_insert(edges, key, joined);
            }
        }
        assert(edges@ =~= store_all(kept, additions@.take(k + 1)));
        k += 1;
    }
    assert(additions@.take(additions@.len() as int) =~= additions@);
    proof {
        lemma_moved_entries_agree(order@, m1, orig, collapsed, new_point);
        if new_point != collapsed[0] && new_point != collapsed[1] && collapsed[0] != u32::MAX && collapsed[1] != u32::MAX
            && (forall|k: Edge| #[trigger] orig.contains_key(k) ==> k[0] != new_point && k[1] != new_point) {
            assert(order@.to_set() == orig.dom().remove(collapsed)) by {
                assert(m1.dom() =~= orig.dom().remove(collapsed));
            }
            law_retargeted_edges_leave_the_collapsed_edge(orig, collapsed, new_point, order@, edges@);
        }
    }
}

proof fn lemma_moved_entries_agree(order: Seq<Edge>, m1: Map<Edge, [u32; 2]>, orig: Map<Edge, [u32; 2]>, c: Edge, v: u32)
    requires
        m1 == orig.remove(c),
        forall|i: int| 0 <= i < order.len() ==> #[trigger] m1.contains_key(order[i]),
    ensures
        moved_entries(order, m1, c, v) == moved_entries(order, orig, c, v),
    decreases order.len(),
{
    if order.len() > 0 {
        lemma_moved_entries_agree(order.drop_last(), m1, orig, c, v);
        assert(m1.contains_key(order[order.len() - 1]));
    }
}

/// Neither side of the entry is an end of `c`.
pub open spec fn sides_clear(w: [u32; 2], c: Edge) -> bool {
    !hits(w[0], c) && !hits(w[1], c)
}

/// Storing entries keeps every edge already stored, adds the edges of the entries, and
/// leaves the entries of all other edges alone; where neither the table nor the entries
/// hold an end of `c` as a side, neither does the result.
proof fn lemma_store_all(base: Map<Edge, [u32; 2]>, adds: Seq<(Edge, [u32; 2])>, c: Edge)
    ensures
        forall|k: Edge| #[trigger] store_all(base, adds).contains_key(k) <==> base.contains_key(k) || exists|i: int|
            0 <= i < adds.len() && #[trigger] adds[i].0 == k,
        forall|k: Edge|
            #[trigger] store_all(base, adds).contains_key(k) && (forall|i: int| 0 <= i < adds.len() ==> #[trigger] adds[i].0 != k)
                ==> store_all(base, adds)[k] == base[k],
        (forall|k: Edge| #[trigger] base.contains_key(k) ==> sides_clear(base[k], c)) && (forall|i: int|
            0 <= i < adds.len() ==> #[trigger] sides_clear(adds[i].1, c)) ==> forall|k: Edge|
            #[trigger] store_all(base, adds).contains_key(k) ==> sides_clear(store_all(base, adds)[k], c),
    decreases adds.len(),
{
    if adds.len() > 0 {
        let p = adds.drop_last();
        lemma_store_all(base, p, c);
        let prev = store_all(base, p);
        let (key, val) = adds.last();
        assert forall|k: Edge| #[trigger] store_all(base, adds).contains_key(k) <==> base.contains_key(k) || exists|i: int|
            0 <= i < adds.len() && #[trigger] adds[i].0 == k by {
            if exists|i: int| 0 <= i < adds.len() && #[trigger] adds[i].0 == k {
                let i = choose|i: int| 0 <= i < adds.len() && #[trigger] adds[i].0 == k;
                if i < p.len() {
                    assert(p[i].0 == k);
                }
            }
            if prev.contains_key(k) && !base.contains_key(k) {
                let i = choose|i: int| 0 <= i < p.len() && #[trigger] p[i].0 == k;
                assert(adds[i].0 == k);
            }
        }
        assert forall|k: Edge|
            #[trigger] store_all(base, adds).contains_key(k) && (forall|i: int| 0 <= i < adds.len() ==> #[trigger] adds[i].0 != k)
                implies store_all(base, adds)[k] == base[k] by {
            assert(adds[adds.len() - 1].0 != k);
            assert forall|i: int| 0 <= i < p.len() implies #[trigger] p[i].0 != k by {
                assert(adds[i].0 != k);
            }
        }
        if (forall|k: Edge| #[trigger] base.contains_key(k) ==> sides_clear(base[k], c)) && (forall|i: int|
            0 <= i < adds.len() ==> #[trigger] sides_clear(adds[i].1, c)) {
            assert forall|i: int| 0 <= i < p.len() implies #[trigger] sides_clear(p[i].1, c) by {
                assert(sides_clear(adds[i].1, c));
            }
            assert(sides_clear(adds[adds.len() - 1].1, c));
            assert(sides_clear(val, c));
            if prev.contains_key(key) {
                assert(sides_clear(prev[key], c));
                assert(sides_clear(spec_edge(pick_side(prev[key]), pick_side(val)), c));
            }
        }
    }
}

/// Some entry of `adds` is for edge `k`.
pub open spec fn stored_key(adds: Seq<(Edge, [u32; 2])>, k: Edge) -> bool {
    exists|i: int| 0 <= i < adds.len() && adds[i].0 == k
}

/// Each moved entry comes from an edge of `order` with an end at `c`, under that edge's
/// new name, and each such edge hands one on; no moved entry has an end of `c` as a side.
proof fn lemma_moved_entries(order: Seq<Edge>, m: Map<Edge, [u32; 2]>, c: Edge, v: u32)
    requires
        v != c[0],
        v != c[1],
    ensures
        forall|i: int| 0 <= i < moved_entries(order, m, c, v).len() ==> exists|j: int|
            0 <= j < order.len() && (hits(order[j][0], c) || hits(order[j][1], c)) && #[trigger] moved_entries(order, m, c, v)[i].0
                == renamed_edge(order[j], c, v),
        forall|j: int|
            0 <= j < order.len() && (hits(order[j][0], c) || hits(order[j][1], c)) ==> #[trigger] stored_key(
                moved_entries(order, m, c, v),
                renamed_edge(order[j], c, v),
            ),
        c[0] != u32::MAX && c[1] != u32::MAX ==> forall|i: int|
            0 <= i < moved_entries(order, m, c, v).len() ==> #[trigger] sides_clear(moved_entries(order, m, c, v)[i].1, c),
    decreases order.len(),
{
    if order.len() > 0 {
        let p = order.drop_last();
        lemma_moved_entries(p, m, c, v);
        let prev = moved_entries(p, m, c, v);
        let cur = moved_entries(order, m, c, v);
        let last = order.last();
        let n = order.len() - 1;
        assert forall|j: int| 0 <= j < p.len() implies p[j] == order[j] by {}
        if hits(last[0], c) || hits(last[1], c) {
            assert(cur == prev.push(moved_entry(last, m[last], c, v).unwrap()));
        } else {
            assert(cur == prev);
        }
        assert forall|i: int| 0 <= i < cur.len() implies exists|j: int|
            0 <= j < order.len() && (hits(order[j][0], c) || hits(order[j][1], c)) && #[trigger] cur[i].0 == renamed_edge(order[j], c, v) by {
            if i < prev.len() {
                let j = choose|j: int| 0 <= j < p.len() && (hits(p[j][0], c) || hits(p[j][1], c)) && #[trigger] prev[i].0 == renamed_edge(p[j], c, v);
                assert(order[j] == p[j]);
            } else {
                assert(order[n] == last);
                assert(cur[i].0 == renamed_edge(order[n], c, v));
            }
        }
        assert forall|j: int| 0 <= j < order.len() && (hits(order[j][0], c) || hits(order[j][1], c)) implies #[trigger] stored_key(
            cur,
            renamed_edge(order[j], c, v),
        ) by {
            if j < p.len() {
                assert(order[j] == p[j]);
                assert(hits(p[j][0], c) || hits(p[j][1], c));
                assert(stored_key(prev, renamed_edge(p[j], c, v)));
                let i = choose|i: int| 0 <= i < prev.len() && prev[i].0 == renamed_edge(p[j], c, v);
                assert(cur[i] == prev[i]);
            } else {
                assert(cur[prev.len() as int].0 == renamed_edge(order[j], c, v));
            }
        }
        if c[0] != u32::MAX && c[1] != u32::MAX {
            assert forall|i: int| 0 <= i < cur.len() implies #[trigger] sides_clear(cur[i].1, c) by {
                if i < prev.len() {
                    assert(cur[i] == prev[i]);
                }
            }
        }
    }
}

/// After the collapse of `c` into the new vertex `v`, the edge table names neither end
/// of `c`, as an edge's end or as a side. An edge away from `v` stays exactly where it
/// stayed before and away from `c` with at most one side at `c`, keeping its entry with
/// that side renamed `v`; an edge at `v` is the renamed form of an edge that had an end
/// at `c`, and every such edge (other than `c`) reappears renamed.
pub proof fn law_retargeted_edges_leave_the_collapsed_edge(
    m: Map<Edge, [u32; 2]>,
    c: Edge,
    v: u32,
    order: Seq<Edge>,
    after: Map<Edge, [u32; 2]>,
)
    requires
        v != c[0],
        v != c[1],
        c[0] != u32::MAX,
        c[1] != u32::MAX,
        forall|k: Edge| #[trigger] m.contains_key(k) ==> k[0] != v && k[1] != v,
        order.to_set() == m.dom().remove(c),
        order.no_duplicates(),
        after == store_all(kept_table(m, c, v), moved_entries(order, m, c, v)),
    ensures
        forall|k: Edge| #[trigger] after.contains_key(k) ==> !hits(k[0], c) && !hits(k[1], c) && sides_clear(after[k], c),
        forall|k: Edge|
            #[trigger] after.contains_key(k) && k[0] != v && k[1] != v ==> {
                &&& m.contains_key(k)
                &&& !hits(k[0], c) && !hits(k[1], c)
                &&& !(hits(m[k][0], c) && hits(m[k][1], c))
                &&& after[k] == if sides_clear(m[k], c) {
                    m[k]
                } else {
                    spec_edge(merged_vertex(m[k][0], c, v), merged_vertex(m[k][1], c, v))
                }
            },
        forall|k: Edge|
            #[trigger] m.contains_key(k) && !hits(k[0], c) && !hits(k[1], c) && !(hits(m[k][0], c) && hits(m[k][1], c))
                ==> after.contains_key(k),
        forall|k: Edge|
            #[trigger] after.contains_key(k) && (k[0] == v || k[1] == v) ==> exists|k0: Edge|
                #[trigger] m.contains_key(k0) && k0 != c && (hits(k0[0], c) || hits(k0[1], c)) && renamed_edge(k0, c, v) == k,
        forall|k0: Edge|
            #[trigger] m.contains_key(k0) && k0 != c && (hits(k0[0], c) || hits(k0[1], c)) ==> after.contains_key(
                renamed_edge(k0, c, v),
            ),
{
    let base = kept_table(m, c, v);
    let adds = moved_entries(order, m, c, v);
    lemma_store_all(base, adds, c);
    lemma_moved_entries(order, m, c, v);
    assert forall|k: Edge| #[trigger] base.contains_key(k) implies sides_clear(base[k], c) && !hits(k[0], c) && !hits(k[1], c)
        && k[0] != v && k[1] != v by {
        assert(m.contains_key(k));
    }
    assert forall|i: int| 0 <= i < adds.len() implies (#[trigger] adds[i]).0[0] == v || adds[i].0[1] == v by {
        let j = choose|j: int|
            0 <= j < order.len() && (hits(order[j][0], c) || hits(order[j][1], c)) && #[trigger] adds[i].0 == renamed_edge(order[j], c, v);
    }
    assert forall|k: Edge| #[trigger] after.contains_key(k) implies !hits(k[0], c) && !hits(k[1], c) && sides_clear(after[k], c) by {
        if !base.contains_key(k) {
            let i = choose|i: int| 0 <= i < adds.len() && #[trigger] adds[i].0 == k;
            let j = choose|j: int|
                0 <= j < order.len() && (hits(order[j][0], c) || hits(order[j][1], c)) && #[trigger] adds[i].0 == renamed_edge(order[j], c, v);
        }
    }
    assert forall|k: Edge| #[trigger] after.contains_key(k) && k[0] != v && k[1] != v implies {
        &&& m.contains_key(k)
        &&& !hits(k[0], c) && !hits(k[1], c)
        &&& !(hits(m[k][0], c) && hits(m[k][1], c))
        &&& after[k] == if sides_clear(m[k], c) {
            m[k]
        } else {
            spec_edge(merged_vertex(m[k][0], c, v), merged_vertex(m[k][1], c, v))
        }
    } by {
        assert forall|i: int| 0 <= i < adds.len() implies #[trigger] adds[i].0 != k by {
            assert(adds[i].0[0] == v || adds[i].0[1] == v);
        }
        assert(base.contains_key(k));
    }
    assert forall|k0: Edge|
        #[trigger] m.contains_key(k0) && k0 != c && (hits(k0[0], c) || hits(k0[1], c)) implies after.contains_key(renamed_edge(k0, c, v)) by {
        assert(order.to_set().contains(k0));
        let j = choose|j: int| 0 <= j < order.len() && order[j] == k0;
        assert(hits(order[j][0], c) || hits(order[j][1], c));
        assert(stored_key(adds, renamed_edge(order[j], c, v)));
        let i = choose|i: int| 0 <= i < adds.len() && adds[i].0 == renamed_edge(order[j], c, v);
        assert(adds[i].0 == renamed_edge(k0, c, v));
    }
    assert forall|k: Edge| #[trigger] after.contains_key(k) && (k[0] == v || k[1] == v) implies exists|k0: Edge|
        #[trigger] m.contains_key(k0) && k0 != c && (hits(k0[0], c) || hits(k0[1], c)) && renamed_edge(k0, c, v) == k by {
        assert(!base.contains_key(k));
        let i = choose|i: int| 0 <= i < adds.len() && #[trigger] adds[i].0 == k;
        let j = choose|j: int|
            0 <= j < order.len() && (hits(order[j][0], c) || hits(order[j][1], c)) && #[trigger] adds[i].0 == renamed_edge(order[j], c, v);
        assert(order.to_set().contains(order[j]));
        assert(m.contains_key(order[j]) && order[j] != c);
    }
}

/// Two places of the list hold ends of `c`.
pub open spec fn hit_twice(l: Seq<u32>, c: Edge) -> bool {
    exists|i: int, j: int| 0 <= i < j < l.len() && #[trigger] hits(l[i], c) && #[trigger] hits(l[j], c)
}

/// The last place of the list that holds an end of `c`.
pub open spec fn last_hit(l: Seq<u32>, c: Edge) -> int {
    choose|i: int| 0 <= i < l.len() && hits(l[i], c) && forall|j: int| i < j < l.len() ==> !#[trigger] hits(l[j], c)
}

/// A neighbour list after the ends of `c` merged into `v`: the ends are renamed `v`, and
/// where that happened twice or more the last renamed place is filled from the end of
/// the list, which shortens by one.
pub open spec fn rewired(l: Seq<u32>, c: Edge, v: u32) -> Seq<u32> {
    let r = l.map_values(|x: u32| merged_vertex(x, c, v));
    if hit_twice(l, c) {
        r.update(last_hit(l, c), r.last()).drop_last()
    } else {
        r
    }
}

fn rewire_list(l: &mut Vec<u32>, collapsed: Edge, new_point: u32)
    ensures
        final(l)@ == rewired(old(l)@, collapsed, new_point),
{
    let ghost orig = l@;
    let mut idx: Option<usize> = None;
    let mut already_in = false;
    let mut pos: usize = 0;
    while pos < l.len()
        invariant
            0 <= pos <= l@.len(),
            l@.len() == orig.len(),
            forall|q: int| 0 <= q < pos ==> l@[q] == merged_vertex(orig[q], collapsed, new_point),
            forall|q: int| pos <= q < l@.len() ==> l@[q] == orig[q],
            already_in <==> exists|q: int| 0 <= q < pos && #[trigger] hits(orig[q], collapsed),
            idx is Some <==> hit_twice(orig.take(pos as int), collapsed),
            idx matches Some(p) ==> p < pos && hits(orig[p as int], collapsed) && forall|q: int| p < q < pos ==> !#[trigger] hits(orig[q], collapsed),
        decreases l@.len() - pos,
    {
        let vert = l[pos];
        if vert == collapsed[0] || vert == collapsed[1] {
            l.set(pos, new_point);
            proof {
                assert(hits(orig[pos as int], collapsed));
                if already_in {
                    let q = choose|q: int| 0 <= q < pos && #[trigger] hits(orig[q], collapsed);
                    assert(orig.take(pos + 1)[q] == orig[q] && orig.take(pos + 1)[pos as int] == orig[pos as int]);
                    assert(hit_twice(orig.take(pos + 1), collapsed));
                } else {
                    assert(!hit_twice(orig.take(pos + 1), collapsed)) by {
                        if hit_twice(orig.take(pos + 1), collapsed) {
                            let (i, j) = choose|i: int, j: int| 0 <= i < j < orig.take(pos + 1).len() && #[trigger] hits(orig.take(pos + 1)[i], collapsed) && #[trigger] hits(orig.take(pos + 1)[j], collapsed);
                            assert(hits(orig[i], collapsed));
                        }
                    }
                }
            }
            if already_in {
                idx = Some(pos);
            } else {
                already_in = true;
            }
        } else {
            proof {
                assert(hit_twice(orig.take(pos + 1), collapsed) == hit_twice(orig.take(pos as int), collapsed)) by {
                    if hit_twice(orig.take(pos + 1), collapsed) {
                        let (i, j) = choose|i: int, j: int| 0 <= i < j < orig.take(pos + 1).len() && #[trigger] hits(orig.take(pos + 1)[i], collapsed) && #[trigger] hits(orig.take(pos + 1)[j], collapsed);
                        assert(j < pos);
                        assert(orig.take(pos as int)[i] == orig[i] && orig.take(pos as int)[j] == orig[j]);
                    }
                    if hit_twice(orig.take(pos as int), collapsed) {
                        let (i, j) = choose|i: int, j: int| 0 <= i < j < orig.take(pos as int).len() && #[trigger] hits(orig.take(pos as int)[i], collapsed) && #[trigger] hits(orig.take(pos as int)[j], collapsed);
                        assert(orig.take(pos + 1)[i] == orig[i] && orig.take(pos + 1)[j] == orig[j]);
                    }
                }
            }
        }
        pos += 1;
    }
    let ghost r = orig.map_values(|x: u32| merged_vertex(x, collapsed, new_point));
    assert(l@ =~= r);
    assert(orig.take(orig.len() as int) =~= orig);
    if let Some(value) = idx {
        proof {
            let p = value as int;
            assert(forall|j: int| p < j < orig.len() ==> !#[trigger] hits(orig[j], collapsed));
            let lh = last_hit(orig, collapsed);
            assert(lh == p) by {
                if lh < p {
                    assert(!hits(orig[p], collapsed));
                } else if lh > p {
                    assert(!hits(orig[lh], collapsed));
                }
            }
        }
        l.swap_remove(value);
        assert(l@ =~= r.update(value as int, r.last()).drop_last());
    }
}

/// The corners of triangle `t` after the ends of `e` merged into `v`.
pub open spec fn merged_corners(s: Seq<u32>, t: int, e: Edge, v: u32) -> Seq<u32> {
    seq![
        merged_vertex(crate::mesh::corner(s, t, 0), e, v),
        merged_vertex(crate::mesh::corner(s, t, 1), e, v),
        merged_vertex(crate::mesh::corner(s, t, 2), e, v),
    ]
}

/// Triangle `t` survives the merge (its merged corners stay different) and `k` and `w`
/// sit at two of its corners afterwards.
pub open spec fn merged_meet(s: Seq<u32>, t: int, e: Edge, v: u32, k: u32, w: u32) -> bool {
    !degenerate_at(merged_corners(s, t, e, v), 0) && crate::mesh::corners_meet(merged_corners(s, t, e, v), 0, k, w)
}

/// Triangle `t` survives the merge and has `k` as a corner afterwards.
pub open spec fn merged_has(s: Seq<u32>, t: int, e: Edge, v: u32, k: u32) -> bool {
    !degenerate_at(merged_corners(s, t, e, v), 0) && crate::mesh::has_corner(merged_corners(s, t, e, v), 0, k)
}

/// The neighbours and used vertices of a collapsed index list are read off the
/// triangles of the original list that survive the merge.
proof fn lemma_collapsed_neighbours(s: Seq<u32>, e: Edge, v: u32)
    requires
        s.len() % 3 == 0,
    ensures
        forall|k: u32, w: u32|
            #[trigger] crate::mesh::neighbours(collapsed_list(s, e, v), crate::mesh::tri_count(collapsed_list(s, e, v)), k).contains(w)
                <==> exists|t: int| 0 <= t < crate::mesh::tri_count(s) && #[trigger] merged_meet(s, t, e, v, k, w),
        forall|k: u32|
            #[trigger] crate::mesh::used_vertex(collapsed_list(s, e, v), crate::mesh::tri_count(collapsed_list(s, e, v)), k)
                <==> exists|t: int| 0 <= t < crate::mesh::tri_count(s) && #[trigger] merged_has(s, t, e, v, k),
    decreases s.len(),
{
    let cl = collapsed_list(s, e, v);
    lemma_collapsed_whole(s, e, v);
    if s.len() < 3 {
        assert(cl =~= Seq::<u32>::empty());
        assert(crate::mesh::tri_count(s) == 0);
        assert(crate::mesh::tri_count(cl) == 0);
    } else {
        let p = s.take(s.len() - 3);
        let n = crate::mesh::tri_count(s);
        lemma_collapsed_neighbours(p, e, v);
        lemma_collapsed_whole(p, e, v);
        let rest = collapsed_list(p, e, v);
        let m = crate::mesh::tri_count(rest);
        assert(crate::mesh::tri_count(p) == n - 1);
        assert forall|t: int, k: int| 0 <= t < n - 1 && 0 <= k < 3 implies #[trigger] crate::mesh::corner(p, t, k)
            == crate::mesh::corner(s, t, k) by {
            assert(p[3 * t + k] == s[3 * t + k]);
        }
        assert forall|t: int| 0 <= t < n - 1 implies #[trigger] merged_corners(p, t, e, v) == merged_corners(s, t, e, v) by {
            assert(crate::mesh::corner(p, t, 0) == crate::mesh::corner(s, t, 0));
            assert(crate::mesh::corner(p, t, 1) == crate::mesh::corner(s, t, 1));
            assert(crate::mesh::corner(p, t, 2) == crate::mesh::corner(s, t, 2));
        }
        let last = merged_corners(s, n - 1, e, v);
        assert(s[s.len() - 3] == crate::mesh::corner(s, n - 1, 0));
        assert(s[s.len() - 2] == crate::mesh::corner(s, n - 1, 1));
        assert(s[s.len() - 1] == crate::mesh::corner(s, n - 1, 2));
        let kept = !degenerate_at(last, 0);
        if kept {
            assert(cl == rest + last) by {
                assert(last =~= seq![last[0], last[1], last[2]]);
            }
            assert(crate::mesh::tri_count(cl) == m + 1);
            assert forall|t: int, k: int| 0 <= t < m && 0 <= k < 3 implies #[trigger] crate::mesh::corner(cl, t, k)
                == crate::mesh::corner(rest, t, k) by {
                assert(cl[3 * t + k] == rest[3 * t + k]);
            }
            assert forall|k: int| 0 <= k < 3 implies #[trigger] crate::mesh::corner(cl, m, k) == last[k] by {
                assert(cl[3 * m + k] == last[k]);
            }
        } else {
            assert(cl == rest);
        }
        assert forall|k: u32, w: u32|
            #[trigger] crate::mesh::neighbours(cl, crate::mesh::tri_count(cl), k).contains(w)
                <==> exists|t: int| 0 <= t < n && #[trigger] merged_meet(s, t, e, v, k, w) by {
            if crate::mesh::neighbours(cl, crate::mesh::tri_count(cl), k).contains(w) {
                let t = choose|t: int| 0 <= t < crate::mesh::tri_count(cl) && #[trigger] crate::mesh::corners_meet(cl, t, k, w);
                if t < m {
                    assert(crate::mesh::corners_meet(rest, t, k, w));
                    assert(crate::mesh::neighbours(rest, m, k).contains(w));
                    let u = choose|u: int| 0 <= u < n - 1 && #[trigger] merged_meet(p, u, e, v, k, w);
                    assert(merged_meet(s, u, e, v, k, w));
                } else {
                    assert(merged_meet(s, n - 1, e, v, k, w));
                }
            }
            if exists|t: int| 0 <= t < n && #[trigger] merged_meet(s, t, e, v, k, w) {
                let t = choose|t: int| 0 <= t < n && #[trigger] merged_meet(s, t, e, v, k, w);
                if t < n - 1 {
                    assert(merged_meet(p, t, e, v, k, w));
                    assert(crate::mesh::neighbours(rest, m, k).contains(w));
                    let u = choose|u: int| 0 <= u < m && #[trigger] crate::mesh::corners_meet(rest, u, k, w);
                    assert(crate::mesh::corners_meet(cl, u, k, w));
                } else {
                    assert(crate::mesh::corners_meet(cl, m, k, w));
                }
            }
        }
        assert forall|k: u32|
            #[trigger] crate::mesh::used_vertex(cl, crate::mesh::tri_count(cl), k)
                <==> exists|t: int| 0 <= t < n && #[trigger] merged_has(s, t, e, v, k) by {
            if crate::mesh::used_vertex(cl, crate::mesh::tri_count(cl), k) {
                let t = choose|t: int| 0 <= t < crate::mesh::tri_count(cl) && #[trigger] crate::mesh::has_corner(cl, t, k);
                if t < m {
                    assert(crate::mesh::has_corner(rest, t, k));
                    assert(crate::mesh::used_vertex(rest, m, k));
                    let u = choose|u: int| 0 <= u < n - 1 && #[trigger] merged_has(p, u, e, v, k);
                    assert(merged_has(s, u, e, v, k));
                } else {
                    assert(merged_has(s, n - 1, e, v, k));
                }
            }
            if exists|t: int| 0 <= t < n && #[trigger] merged_has(s, t, e, v, k) {
                let t = choose|t: int| 0 <= t < n && #[trigger] merged_has(s, t, e, v, k);
                if t < n - 1 {
                    assert(merged_has(p, t, e, v, k));
                    assert(crate::mesh::used_vertex(rest, m, k));
                    let u = choose|u: int| 0 <= u < m && #[trigger] crate::mesh::has_corner(rest, u, k);
                    assert(crate::mesh::has_corner(cl, u, k));
                } else {
                    assert(crate::mesh::has_corner(cl, m, k));
                }
            }
        }
    }
}

/// Triangle `t` has both ends of `e` as corners: it lies on the edge and vanishes when
/// the edge collapses.
pub open spec fn holds_both_ends(s: Seq<u32>, t: int, e: Edge) -> bool {
    crate::mesh::has_corner(s, t, e[0]) && crate::mesh::has_corner(s, t, e[1])
}

/// Every two vertices that meet in a triangle on edge `e`, other than its two ends, also
/// meet in a triangle off it: collapsing `e` loses no neighbourhood.
pub open spec fn links_survive(s: Seq<u32>, e: Edge) -> bool {
    forall|t: int, y: u32, x: u32|
        0 <= t < crate::mesh::tri_count(s) && #[trigger] crate::mesh::corners_meet(s, t, y, x) && holds_both_ends(s, t, e)
            && !(hits(y, e) && hits(x, e)) ==> exists|t2: int|
            0 <= t2 < crate::mesh::tri_count(s) && #[trigger] crate::mesh::corners_meet(s, t2, y, x) && !holds_both_ends(
                s,
                t2,
                e,
            )
}

/// What merging the ends of `e` into a new vertex `v` does to one triangle with three
/// different corners.
proof fn lemma_merged_cases(s: Seq<u32>, t: int, e: Edge, v: u32, k: u32, w: u32)
    requires
        crate::mesh::corner(s, t, 0) != crate::mesh::corner(s, t, 1),
        crate::mesh::corner(s, t, 1) != crate::mesh::corner(s, t, 2),
        crate::mesh::corner(s, t, 0) != crate::mesh::corner(s, t, 2),
        crate::mesh::corner(s, t, 0) != v,
        crate::mesh::corner(s, t, 1) != v,
        crate::mesh::corner(s, t, 2) != v,
        e[0] != e[1],
        v != e[0],
        v != e[1],
    ensures
        !degenerate_at(merged_corners(s, t, e, v), 0) == !holds_both_ends(s, t, e),
        !hits(k, e) && k != v ==> (merged_meet(s, t, e, v, k, w) <==> !holds_both_ends(s, t, e) && (
        (crate::mesh::corners_meet(s, t, k, w) && !hits(w, e)) || (w == v && (crate::mesh::corners_meet(s, t, k, e[0])
            || crate::mesh::corners_meet(s, t, k, e[1]))))),
        merged_meet(s, t, e, v, v, w) <==> !holds_both_ends(s, t, e) && !hits(w, e) && w != v && (
        crate::mesh::corners_meet(s, t, e[0], w) || crate::mesh::corners_meet(s, t, e[1], w)),
        hits(k, e) ==> !merged_meet(s, t, e, v, k, w) && !merged_has(s, t, e, v, k),
        !hits(k, e) && k != v ==> (merged_has(s, t, e, v, k) <==> !holds_both_ends(s, t, e) && crate::mesh::has_corner(s, t, k)),
        merged_has(s, t, e, v, v) <==> !holds_both_ends(s, t, e) && (crate::mesh::has_corner(s, t, e[0])
            || crate::mesh::has_corner(s, t, e[1])),
{
    let m = merged_corners(s, t, e, v);
    assert(m[0] == merged_vertex(crate::mesh::corner(s, t, 0), e, v));
    assert(m[1] == merged_vertex(crate::mesh::corner(s, t, 1), e, v));
    assert(m[2] == merged_vertex(crate::mesh::corner(s, t, 2), e, v));
    assert(crate::mesh::corner(m, 0, 0) == m[0] && crate::mesh::corner(m, 0, 1) == m[1] && crate::mesh::corner(m, 0, 2) == m[2]);
}

/// A list with an end of `c` at place `i` has a last such place.
proof fn lemma_last_hit_exists(l: Seq<u32>, c: Edge, i: int)
    requires
        0 <= i < l.len(),
        hits(l[i], c),
    ensures
        0 <= last_hit(l, c) < l.len(),
        hits(l[last_hit(l, c)], c),
        forall|j: int| last_hit(l, c) < j < l.len() ==> !#[trigger] hits(l[j], c),
    decreases l.len() - i,
{
    if exists|j: int| i < j < l.len() && #[trigger] hits(l[j], c) {
        let j = choose|j: int| i < j < l.len() && #[trigger] hits(l[j], c);
        lemma_last_hit_exists(l, c, j);
    } else {
        assert(forall|j: int| i < j < l.len() ==> !#[trigger] hits(l[j], c));
    }
}

/// The elements of a rewired list are those of the list with the ends of `c` renamed `v`.
proof fn lemma_rewired_elements(l: Seq<u32>, c: Edge, v: u32, w: u32)
    ensures
        rewired(l, c, v).contains(w) <==> exists|i: int| 0 <= i < l.len() && #[trigger] merged_vertex(l[i], c, v) == w,
{
    let r = l.map_values(|x: u32| merged_vertex(x, c, v));
    if hit_twice(l, c) {
        let (i0, j0) = choose|i: int, j: int| 0 <= i < j < l.len() && #[trigger] hits(l[i], c) && #[trigger] hits(l[j], c);
        let lh = last_hit(l, c);
        lemma_last_hit_exists(l, c, j0);
        let q = r.update(lh, r.last()).drop_last();
        if q.contains(w) {
            let i = choose|i: int| 0 <= i < q.len() && q[i] == w;
            if i == lh {
                assert(merged_vertex(l[l.len() - 1], c, v) == w);
            } else {
                assert(merged_vertex(l[i], c, v) == w);
            }
        }
        if exists|i: int| 0 <= i < l.len() && #[trigger] merged_vertex(l[i], c, v) == w {
            let i = choose|i: int| 0 <= i < l.len() && #[trigger] merged_vertex(l[i], c, v) == w;
            if i == lh {
                assert(i0 < lh);
                assert(q[i0] == w);
            } else if i == l.len() - 1 {
                assert(q[lh] == w);
            } else {
                assert(q[i] == w);
            }
        }
    } else {
        if r.contains(w) {
            let i = choose|i: int| 0 <= i < r.len() && r[i] == w;
            assert(merged_vertex(l[i], c, v) == w);
        }
        if exists|i: int| 0 <= i < l.len() && #[trigger] merged_vertex(l[i], c, v) == w {
            let i = choose|i: int| 0 <= i < l.len() && #[trigger] merged_vertex(l[i], c, v) == w;
            assert(r[i] == w);
        }
    }
}

/// The neighbours of the two ends of `c`.
pub open spec fn around(m: Map<u32, Vec<u32>>, c: Edge) -> Set<u32> {
    m[c[0]]@.to_set().union(m[c[1]]@.to_set())
}

/// The neighbour table has lists for both ends of `c` and for all their neighbours.
pub open spec fn vertices_ready(m: Map<u32, Vec<u32>>, c: Edge) -> bool {
    &&& m.contains_key(c[0])
    &&& m.contains_key(c[1])
    &&& forall|x: u32| #[trigger] around(m, c).contains(x) ==> m.contains_key(x)
}

/// `after` is the neighbour table `before` once the ends of `c` merged into `v`: every
/// neighbour of either end has its list rewired (see `rewired`); the two ends leave the
/// table and `v` joins it with the neighbours of both ends (other than the ends
/// themselves), each once.
pub open spec fn vertices_retargeted(before: Map<u32, Vec<u32>>, after: Map<u32, Vec<u32>>, c: Edge, v: u32) -> bool {
    &&& forall|k: u32| #[trigger] after.contains_key(k) <==> (k == v || (before.contains_key(k) && k != c[0] && k != c[1]))
    &&& after[v]@.to_set() == around(before, c).remove(c[0]).remove(c[1])
    &&& after[v]@.no_duplicates()
    &&& forall|k: u32| #[trigger] after.contains_key(k) && k != v ==> after[k]@ == if around(before, c).contains(k) {
        rewired(before[k]@, c, v)
    } else {
        before[k]@
    }
}

/// Bringing the neighbour table up to date after a collapse gives the neighbours of the
/// collapsed index list, as sets: the retargeted table has a list for exactly the
/// vertices the collapsed list uses, each holding that vertex's neighbours there. It
/// holds for index lists of whole triangles with three different corners each, a new
/// vertex that the list does not use yet, a table that holds the neighbours of the list,
/// and an edge whose collapse loses no neighbourhood (see `links_survive`).
pub proof fn law_retarget_vertices_matches_rebuild(
    s: Seq<u32>,
    before: Map<u32, Vec<u32>>,
    after: Map<u32, Vec<u32>>,
    e: Edge,
    v: u32,
)
    requires
        s.len() % 3 == 0,
        crate::cluster::proper_triangles(s),
        avoids_vertex(s, v),
        e[0] != e[1],
        links_survive(s, e),
        forall|k: u32| #[trigger] before.contains_key(k) <==> crate::mesh::used_vertex(s, crate::mesh::tri_count(s), k),
        forall|k: u32| #[trigger] before.contains_key(k) ==> before[k]@.to_set() == crate::mesh::neighbours(s, crate::mesh::tri_count(s), k),
        vertices_ready(before, e),
        vertices_retargeted(before, after, e, v),
    ensures
        forall|k: u32| #[trigger] after.contains_key(k) <==> crate::mesh::used_vertex(
            collapsed_list(s, e, v),
            crate::mesh::tri_count(collapsed_list(s, e, v)),
            k,
        ),
        forall|k: u32| #[trigger] after.contains_key(k) ==> after[k]@.to_set() == crate::mesh::neighbours(
            collapsed_list(s, e, v),
            crate::mesh::tri_count(collapsed_list(s, e, v)),
            k,
        ),
{
    let n = crate::mesh::tri_count(s);
    let cl = collapsed_list(s, e, v);
    let nc = crate::mesh::tri_count(cl);
    lemma_collapsed_neighbours(s, e, v);
    let nb = |k: u32| crate::mesh::neighbours(s, n, k);
    assert forall|t: int| 0 <= t < n implies #[trigger] crate::mesh::corner(s, t, 0) != v && crate::mesh::corner(s, t, 1) != v
        && crate::mesh::corner(s, t, 2) != v by {
        assert(s[3 * t] != v && s[3 * t + 1] != v && s[3 * t + 2] != v);
    }
    // the ends are used, hence not the new vertex
    assert(crate::mesh::used_vertex(s, n, e[0]) && crate::mesh::used_vertex(s, n, e[1]));
    let t0 = choose|t: int| 0 <= t < n && #[trigger] crate::mesh::has_corner(s, t, e[0]);
    let t1 = choose|t: int| 0 <= t < n && #[trigger] crate::mesh::has_corner(s, t, e[1]);
    assert(crate::mesh::corner(s, t0, 0) != v);
    assert(crate::mesh::corner(s, t1, 0) != v);
    assert(v != e[0] && v != e[1]);
    // used vertices
    assert forall|k: u32| #[trigger] after.contains_key(k) <==> crate::mesh::used_vertex(cl, nc, k) by {
        if k == v {
            let t = t0;
            lemma_merged_cases(s, t, e, v, v, v);
            if holds_both_ends(s, t, e) {
                let c0 = crate::mesh::corner(s, t, 0);
                let c1 = crate::mesh::corner(s, t, 1);
                let c2 = crate::mesh::corner(s, t, 2);
                let x = if !hits(c0, e) { c0 } else if !hits(c1, e) { c1 } else { c2 };
                assert(crate::mesh::corners_meet(s, t, e[0], x));
                let t2 = choose|t2: int| 0 <= t2 < n && #[trigger] crate::mesh::corners_meet(s, t2, e[0], x) && !holds_both_ends(s, t2, e);
                lemma_merged_cases(s, t2, e, v, v, v);
                assert(merged_has(s, t2, e, v, v));
            } else {
                assert(merged_has(s, t, e, v, v));
            }
        } else if hits(k, e) {
            if crate::mesh::used_vertex(cl, nc, k) {
                let t = choose|t: int| 0 <= t < n && #[trigger] merged_has(s, t, e, v, k);
                lemma_merged_cases(s, t, e, v, k, k);
            }
        } else {
            if crate::mesh::used_vertex(cl, nc, k) {
                let t = choose|t: int| 0 <= t < n && #[trigger] merged_has(s, t, e, v, k);
                lemma_merged_cases(s, t, e, v, k, k);
                assert(crate::mesh::has_corner(s, t, k));
            }
            if before.contains_key(k) {
                let t = choose|t: int| 0 <= t < n && #[trigger] crate::mesh::has_corner(s, t, k);
                lemma_merged_cases(s, t, e, v, k, k);
                if holds_both_ends(s, t, e) {
                    assert(crate::mesh::corners_meet(s, t, k, e[0]));
                    let t2 = choose|t2: int| 0 <= t2 < n && #[trigger] crate::mesh::corners_meet(s, t2, k, e[0]) && !holds_both_ends(s, t2, e);
                    lemma_merged_cases(s, t2, e, v, k, k);
                    assert(merged_has(s, t2, e, v, k));
                } else {
                    assert(merged_has(s, t, e, v, k));
                }
            }
        }
    }
    // neighbour sets
    assert forall|k: u32| #[trigger] after.contains_key(k) implies after[k]@.to_set() == crate::mesh::neighbours(cl, nc, k) by {
        assert forall|w: u32| #[trigger] after[k]@.to_set().contains(w) <==> crate::mesh::neighbours(cl, nc, k).contains(w) by {
            if k == v {
                assert(after[v]@.to_set() == around(before, e).remove(e[0]).remove(e[1]));
                if after[k]@.to_set().contains(w) {
                    assert(!hits(w, e));
                    let i = if nb(e[0]).contains(w) { 0int } else { 1int };
                    assert(nb(e[i]).contains(w));
                    let t = choose|t: int| 0 <= t < n && #[trigger] crate::mesh::corners_meet(s, t, e[i], w);
                    assert(w != v) by {
                        assert(crate::mesh::corner(s, t, 0) != v);
                    }
                    if holds_both_ends(s, t, e) {
                        let t2 = choose|t2: int| 0 <= t2 < n && #[trigger] crate::mesh::corners_meet(s, t2, e[i], w) && !holds_both_ends(s, t2, e);
                        lemma_merged_cases(s, t2, e, v, v, w);
                        assert(merged_meet(s, t2, e, v, v, w));
                    } else {
                        lemma_merged_cases(s, t, e, v, v, w);
                        assert(merged_meet(s, t, e, v, v, w));
                    }
                }
                if crate::mesh::neighbours(cl, nc, k).contains(w) {
                    let t = choose|t: int| 0 <= t < n && #[trigger] merged_meet(s, t, e, v, v, w);
                    lemma_merged_cases(s, t, e, v, v, w);
                    if crate::mesh::corners_meet(s, t, e[0], w) {
                        assert(nb(e[0]).contains(w));
                    } else {
                        assert(nb(e[1]).contains(w));
                    }
                    assert(around(before, e).contains(w));
                }
            } else {
                assert(before.contains_key(k) && !hits(k, e));
                // the list of `k` afterwards holds its neighbours with the ends renamed `v`
                assert(after[k]@.to_set().contains(w) <==> (nb(k).contains(w) && !hits(w, e)) || (w == v && (nb(k).contains(e[0])
                    || nb(k).contains(e[1])))) by {
                    let l = before[k]@;
                    assert(l.to_set() == nb(k));
                    if around(before, e).contains(k) {
                        lemma_rewired_elements(l, e, v, w);
                        assert(after[k]@ == rewired(l, e, v));
                        if after[k]@.to_set().contains(w) {
                            let i = choose|i: int| 0 <= i < l.len() && #[trigger] merged_vertex(l[i], e, v) == w;
                            assert(l.to_set().contains(l[i]));
                        }
                        if nb(k).contains(w) && !hits(w, e) {
                            assert(l.to_set().contains(w));
                            let i = choose|i: int| 0 <= i < l.len() && l[i] == w;
                            assert(merged_vertex(l[i], e, v) == w);
                            assert(rewired(l, e, v).contains(w));
                        }
                        if w == v && (nb(k).contains(e[0]) || nb(k).contains(e[1])) {
                            let x = if nb(k).contains(e[0]) { e[0] } else { e[1] };
                            assert(l.to_set().contains(x));
                            let i = choose|i: int| 0 <= i < l.len() && l[i] == x;
                            assert(merged_vertex(l[i], e, v) == w);
                            assert(rewired(l, e, v).contains(w));
                        }
                    } else {
                        assert(after[k]@ == l);
                        crate::mesh::law_neighbours_symmetric(s, n, k, e[0]);
                        crate::mesh::law_neighbours_symmetric(s, n, k, e[1]);
                        assert(!nb(k).contains(e[0]) && !nb(k).contains(e[1]));
                        if nb(k).contains(w) {
                            assert(!hits(w, e));
                        }
                        if w == v {
                            assert(!nb(k).contains(v)) by {
                                if nb(k).contains(v) {
                                    let t = choose|t: int| 0 <= t < n && #[trigger] crate::mesh::corners_meet(s, t, k, v);
                                    assert(crate::mesh::corner(s, t, 0) != v);
                                }
                            }
                        }
                    }
                }
                if crate::mesh::neighbours(cl, nc, k).contains(w) {
                    let t = choose|t: int| 0 <= t < n && #[trigger] merged_meet(s, t, e, v, k, w);
                    lemma_merged_cases(s, t, e, v, k, w);
                    if crate::mesh::corners_meet(s, t, k, w) && !hits(w, e) {
                        assert(nb(k).contains(w));
                    } else if crate::mesh::corners_meet(s, t, k, e[0]) {
                        assert(nb(k).contains(e[0]));
                    } else {
                        assert(nb(k).contains(e[1]));
                    }
                }
                if (nb(k).contains(w) && !hits(w, e)) || (w == v && (nb(k).contains(e[0]) || nb(k).contains(e[1]))) {
                    let x = if nb(k).contains(w) && !hits(w, e) { w } else if nb(k).contains(e[0]) { e[0] } else { e[1] };
                    assert(nb(k).contains(x));
                    let t = choose|t: int| 0 <= t < n && #[trigger] crate::mesh::corners_meet(s, t, k, x);
                    let t3 = if holds_both_ends(s, t, e) {
                        choose|t2: int| 0 <= t2 < n && #[trigger] crate::mesh::corners_meet(s, t2, k, x) && !holds_both_ends(s, t2, e)
                    } else {
                        t
                    };
                    assert(crate::mesh::corners_meet(s, t3, k, x) && !holds_both_ends(s, t3, e));
                    lemma_merged_cases(s, t3, e, v, k, w);
                    assert(merged_meet(s, t3, e, v, k, w));
                }
            }
        }
        assert(after[k]@.to_set() =~= crate::mesh::neighbours(cl, nc, k));
    }
}

/// Brings the neighbour table up to date after the ends of `collapsed` merged into
/// `new_point`: every neighbour of either end has its list rewired (see `rewired`); the
/// two ends leave the table and `new_point` joins it with the neighbours of both ends
/// (other than the ends themselves), each once, in the order in which a hash set yields
/// them.
pub fn retarget_vertices(vertices: &mut HashMap<u32, Vec<u32>>, collapsed: Edge, new_point: u32)
    requires
        vertices_ready(old(vertices)@, collapsed),
    ensures
        vertices_retargeted(old(vertices)@, final(vertices)@, collapsed, new_point),
{
    let ghost orig = vertices@;
    let ghost ar = around(orig, collapsed);
    let mut adjacent: HashSet<u32> = HashSet::new();
    {
        let a = vertices.get(&collapsed[0]).unwrap();
        let b = vertices.get(&collapsed[1]).unwrap();
        let mut i: usize = 0;
        while i < a.len()
            invariant
                0 <= i <= a@.len(),
                adjacent@ == a@.take(i as int).to_set(),
            decreases a@.len() - i,
        {
            proof {
                a@.take(i as int).lemma_push_to_set_commute(a@[i as int]);
                assert(a@.take(i + 1) =~= a@.take(i as int).push(a@[i as int]));
            }
            adjacent.insert(a[i]);
            i += 1;
        }
        assert(a@.take(a@.len() as int) =~= a@);
        let ghost sa = adjacent@;
        let mut j: usize = 0;
        while j < b.len()
            invariant
                0 <= j <= b@.len(),
                adjacent@ == sa.union(b@.take(j as int).to_set()),
            decreases b@.len() - j,
        {
            proof {
                b@.take(j as int).lemma_push_to_set_commute(b@[j as int]);
                assert(b@.take(j + 1) =~= b@.take(j as int).push(b@[j as int]));
            }
            adjacent.insert(b[j]);
            assert(adjacent@ =~= sa.union(b@.take(j + 1).to_set()));
            j += 1;
        }
        assert(b@.take(b@.len() as int) =~= b@);
    }
    assert(adjacent@ == ar);
    let mut combined: Vec<u32> = Vec::new();
    for adj in it: adjacent.iter()
        invariant
            adjacent@ == ar,
            it.seq().unref().to_set() == ar,
            it.seq().unref().no_duplicates(),
            it.seq().unref().take(it.seq().len() as int) == it.seq().unref(),
            forall|x: u32| #[trigger] ar.contains(x) ==> orig.contains_key(x),
            forall|k: u32| #[trigger] vertices@.contains_key(k) <==> orig.contains_key(k),
            forall|k: u32| #[trigger] vertices@.contains_key(k) ==> vertices@[k]@ == if it.seq().unref().take(it.index() as int).contains(k) {
                rewired(orig[k]@, collapsed, new_point)
            } else {
                orig[k]@
            },
            combined@.to_set() == it.seq().unref().take(it.index() as int).to_set().remove(collapsed[0]).remove(collapsed[1]),
            combined@.no_duplicates(),
            forall|q: int| 0 <= q < combined@.len() ==> it.seq().unref().take(it.index() as int).contains(#[trigger] combined@[q]),
        ensures
            forall|k: u32| #[trigger] vertices@.contains_key(k) <==> orig.contains_key(k),
            forall|k: u32| #[trigger] vertices@.contains_key(k) ==> vertices@[k]@ == if ar.contains(k) {
                rewired(orig[k]@, collapsed, new_point)
            } else {
                orig[k]@
            },
            combined@.to_set() == ar.remove(collapsed[0]).remove(collapsed[1]),
            combined@.no_duplicates(),
    {
        let ghost i = it.index() as int;
        let ghost sq = it.seq().unref();
        let x = *adj;
        proof {
            assert(sq[i] == x);
            assert(sq.to_set().contains(x));
            assert(!sq.take(i).contains(x)) by {
                if sq.take(i).contains(x) {
                    let q = choose|q: int| 0 <= q < i && sq.take(i)[q] == x;
                    assert(sq[q] == sq[i]);
                }
            }
            sq.take(i).lemma_push_to_set_commute(x);
            assert(sq.take(i + 1) =~= sq.take(i).push(x));
        }
        proof {
            assert(!combined@.contains(x)) by {
                if combined@.contains(x) {
                    let q = choose|q: int| 0 <= q < combined@.len() && combined@[q] == x;
                    assert(sq.take(i).contains(combined@[q]));
                }
            }
        }
        let mut list = vertices.remove(&x).unwrap();
        rewire_list(&mut list, collapsed, new_point);
        vertices.insert(x, list);
        let ghost cb = combined@;
        if x != collapsed[0] && x != collapsed[1] {
            combined.push(x);
            proof {
                cb.lemma_push_to_set_commute(x);
            }
        }
        proof {
            assert forall|k: u32| #[trigger] vertices@.contains_key(k) implies vertices@[k]@ == if sq.take(i + 1).contains(k) {
                rewired(orig[k]@, collapsed, new_point)
            } else {
                orig[k]@
            } by {
                if k != x {
                    assert(sq.take(i + 1).contains(k) == sq.take(i).contains(k));
                } else {
                    assert(sq.take(i + 1)[i] == x);
                }
            }
            assert(combined@.to_set() =~= sq.take(i + 1).to_set().remove(collapsed[0]).remove(collapsed[1]));
            assert forall|q: int| 0 <= q < combined@.len() implies sq.take(i + 1).contains(#[trigger] combined@[q]) by {
                if q < combined@.len() - 1 || !(x != collapsed[0] && x != collapsed[1]) {
                    let w = combined@[q];
                    assert(sq.take(i).contains(w));
                    let r = choose|r: int| 0 <= r < i && sq.take(i)[r] == w;
                    assert(sq.take(i + 1)[r] == w);
                } else {
                    assert(sq.take(i + 1)[i] == x);
                }
            }
        }
    }
    vertices.remove(&collapsed[0]);
    vertices.remove(&collapsed[1]);
    vertices.insert(new_point, combined);
}

/// The number of distinct values that both lists hold.
pub fn sorted_vec_intersection_count(a: &Vec<u32>, b: &Vec<u32>) -> (r: usize)
    ensures
        r == a@.to_set().intersect(b@.to_set()).len(),
{
    let mut seen: Vec<u32> = Vec::new();
    let mut count: usize = 0;
    let mut i: usize = 0;
    assert(a@.take(0).to_set().intersect(b@.to_set()) =~= Set::<u32>::empty());
    assert(seen@.to_set() =~= a@.take(0).to_set());
    while i < a.len()
        invariant
            0 <= i <= a@.len(),
            seen@.to_set() == a@.take(i as int).to_set(),
            seen@.no_duplicates(),
            count <= seen@.len() <= i,
            count == a@.take(i as int).to_set().intersect(b@.to_set()).len(),
        decreases a@.len() - i,
    {
        let x = a[i];
        let ghost prev = a@.take(i as int).to_set();
        proof {
            a@.take(i as int).lemma_push_to_set_commute(x);
            assert(a@.take(i + 1) =~= a@.take(i as int).push(x));
        }
        let mut dup = false;
        let mut k: usize = 0;
        while k < seen.len()
            invariant
                0 <= k <= seen@.len(),
                dup <==> seen@.take(k as int).contains(x),
            decreases seen@.len() - k,
        {
            if seen[k] == x {
                dup = true;
            }
            proof {
                let t1 = seen@.take(k + 1);
                let t0 = seen@.take(k as int);
                assert(t1 =~= t0.push(seen@[k as int]));
                if t1.contains(x) {
                    let p = choose|p: int| 0 <= p < t1.len() && t1[p] == x;
                    if p < k {
                        assert(t0[p] == x);
                    }
                }
                if t0.contains(x) {
                    let p = choose|p: int| 0 <= p < t0.len() && t0[p] == x;
                    assert(t1[p] == x);
                }
                if seen@[k as int] == x {
                    assert(t1[k as int] == x);
                }
            }
            k += 1;
        }
        assert(seen@.take(seen@.len() as int) =~= seen@);
        if !dup {
            let mut inb = false;
            let mut q: usize = 0;
            while q < b.len()
                invariant
                    0 <= q <= b@.len(),
                    inb <==> b@.take(q as int).contains(x),
                decreases b@.len() - q,
            {
                if b[q] == x {
                    inb = true;
                }
                proof {
                    let t1 = b@.take(q + 1);
                    let t0 = b@.take(q as int);
                    assert(t1 =~= t0.push(b@[q as int]));
                    if t1.contains(x) {
                        let p = choose|p: int| 0 <= p < t1.len() && t1[p] == x;
                        if p < q {
                            assert(t0[p] == x);
                        }
                    }
                    if t0.contains(x) {
                        let p = choose|p: int| 0 <= p < t0.len() && t0[p] == x;
                        assert(t1[p] == x);
                    }
                    if b@[q as int] == x {
                        assert(t1[q as int] == x);
                    }
                }
                q += 1;
            }
            assert(b@.take(b@.len() as int) =~= b@);
            let ghost sb = seen@;
            seen.push(x);
            proof {
                sb.lemma_push_to_set_commute(x);
                assert(!prev.contains(x));
                if inb {
                    assert(prev.insert(x).intersect(b@.to_set()) =~= prev.intersect(b@.to_set()).insert(x));
                } else {
                    assert(prev.insert(x).intersect(b@.to_set()) =~= prev.intersect(b@.to_set()));
                }
                seen@.unique_seq_to_set();
                sb.unique_seq_to_set();
            }
            if inb {
                count += 1;
            }
        } else {
            proof {
                assert(prev.insert(x) =~= prev);
            }
        }
        i += 1;
    }
    assert(a@.take(a@.len() as int) =~= a@);
    count
}

/// Edge `o` of the table has a side missing and is not on the mesh's outline: it is a
/// border of the piece that a collapse must not move.
pub open spec fn open_at_cut(m: Map<Edge, [u32; 2]>, mesh_edge: Set<Edge>, o: Edge) -> bool {
    m.contains_key(o) && (m[o][0] == u32::MAX || m[o][1] == u32::MAX) && !mesh_edge.contains(o)
}

/// Edges `a` and `b` have an end in common.
pub open spec fn shares_an_end(a: Edge, b: Edge) -> bool {
    a[0] == b[0] || a[0] == b[1] || a[1] == b[0] || a[1] == b[1]
}

/// The collapse candidates keep off the piece's border: every candidate is an edge of the
/// table and has neither end on any edge of the table with a side missing that the mesh
/// outline lacks (both ends of such an edge are locked); every edge of the table with
/// no end on such an edge is a candidate.
pub proof fn law_collapsible_edges_stay_off_cut(m: Map<Edge, [u32; 2]>, mesh_edge: Set<Edge>, r: Seq<Edge>)
    requires
        r.to_set() == m.dom().filter(
            |e: Edge| !pinned_vertices(m, mesh_edge).contains(e[0]) && !pinned_vertices(m, mesh_edge).contains(e[1]),
        ),
    ensures
        forall|i: int| 0 <= i < r.len() ==> #[trigger] m.contains_key(r[i]),
        forall|i: int, o: Edge|
            #![trigger r[i], open_at_cut(m, mesh_edge, o)]
            0 <= i < r.len() && open_at_cut(m, mesh_edge, o) ==> !shares_an_end(r[i], o),
        forall|k: Edge|
            #[trigger] m.contains_key(k) && (forall|o: Edge| #[trigger] open_at_cut(m, mesh_edge, o) ==> !shares_an_end(k, o))
                ==> r.contains(k),
{
    let pinned = pinned_vertices(m, mesh_edge);
    assert forall|i: int| 0 <= i < r.len() implies #[trigger] m.contains_key(r[i]) by {
        assert(r.to_set().contains(r[i]));
    }
    assert forall|i: int, o: Edge|
        #![trigger r[i], open_at_cut(m, mesh_edge, o)]
        0 <= i < r.len() && open_at_cut(m, mesh_edge, o) implies !shares_an_end(r[i], o) by {
        assert(r.to_set().contains(r[i]));
        let x = r[i];
        assert(!pinned.contains(x[0]) && !pinned.contains(x[1]));
        assert(m.contains_key(o) && (m[o][0] == u32::MAX || m[o][1] == u32::MAX) && !mesh_edge.contains(o));
        if x[0] == o[0] || x[0] == o[1] {
            assert(pinned.contains(x[0]));
        }
        if x[1] == o[0] || x[1] == o[1] {
            assert(pinned.contains(x[1]));
        }
    }
    assert forall|k: Edge|
        #[trigger] m.contains_key(k) && (forall|o: Edge| #[trigger] open_at_cut(m, mesh_edge, o) ==> !shares_an_end(k, o))
            implies r.contains(k) by {
        if pinned.contains(k[0]) {
            let o = choose|o: Edge|
                #[trigger] m.contains_key(o) && (m[o][0] == u32::MAX || m[o][1] == u32::MAX) && !mesh_edge.contains(o)
                    && (o[0] == k[0] || o[1] == k[0]);
            assert(open_at_cut(m, mesh_edge, o));
        }
        if pinned.contains(k[1]) {
            let o = choose|o: Edge|
                #[trigger] m.contains_key(o) && (m[o][0] == u32::MAX || m[o][1] == u32::MAX) && !mesh_edge.contains(o)
                    && (o[0] == k[1] || o[1] == k[1]);
            assert(open_at_cut(m, mesh_edge, o));
        }
        assert(r.to_set().contains(k));
    }
}

/// The vertices at the open edges of a mesh piece that are not open edges of the whole
/// mesh: the ends of every edge of the table with a side missing that the mesh's outline
/// lacks.
pub open spec fn pinned_vertices(m: Map<Edge, [u32; 2]>, mesh_edge: Set<Edge>) -> Set<u32> {
    Set::new(
        |v: u32|
            exists|e: Edge|
                #[trigger] m.contains_key(e) && (m[e][0] == u32::MAX || m[e][1] == u32::MAX) && !mesh_edge.contains(e)
                    && (e[0] == v || e[1] == v),
    )
}

/// The edges that may collapse: those of the table with neither end pinned (see
/// `pinned_vertices`), each once, in the order in which the table yields them.
pub fn collapsible_edges(edges: &EdgeMap<[u32; 2]>, mesh_edge: &EdgeSet) -> (r: Vec<Edge>)
    ensures
        r@.no_duplicates(),
        r@.to_set() == edges@.dom().filter(
            |e: Edge| !pinned_vertices(edges@, mesh_edge@).contains(e[0]) && !pinned_vertices(edges@, mesh_edge@).contains(e[1]),
        ),
        forall|i: int| 0 <= i < r@.len() ==> #[trigger] edges@.contains_key(r@[i]),
        forall|i: int, o: Edge|
            #![trigger r@[i], open_at_cut(edges@, mesh_edge@, o)]
            0 <= i < r@.len() && open_at_cut(edges@, mesh_edge@, o) ==> !shares_an_end(r@[i], o),
        forall|k: Edge|
            #[trigger] edges@.contains_key(k) && (forall|o: Edge| #[trigger] open_at_cut(edges@, mesh_edge@, o) ==> !shares_an_end(k, o))
                ==> r@.contains(k),
{
    let keys = map_keys(edges);
    let ghost pinned = pinned_vertices(edges@, mesh_edge@);
    let mut edge_verts: HashSet<u32> = HashSet::new();
    let mut i: usize = 0;
    while i < keys.len()
        invariant
            0 <= i <= keys@.len(),
            keys@.to_set() == edges@.dom(),
            forall|v: u32| #[trigger] edge_verts@.contains(v) <==> exists|q: int| 0 <= q < i && {
                let e = #[trigger] keys@[q];
                (edges@[e][0] == u32::MAX || edges@[e][1] == u32::MAX) && !mesh_edge@.contains(e) && (e[0] == v || e[1] == v)
            },
        decreases keys@.len() - i,
    {
        let e = keys[i];
        proof {
            assert(keys@.to_set().contains(e));
        }
        let value = map_get(edges, &e).unwrap();
        if value[1] == u32::MAX || value[0] == u32::MAX {
            if !set_contains(mesh_edge, &e) {
                edge_verts.insert(e[0]);
                edge_verts.insert(e[1]);
            }
        }
        proof {
            assert forall|v: u32| #[trigger] edge_verts@.contains(v) <==> exists|q: int| 0 <= q < i + 1 && {
                let e2 = #[trigger] keys@[q];
                (edges@[e2][0] == u32::MAX || edges@[e2][1] == u32::MAX) && !mesh_edge@.contains(e2) && (e2[0] == v || e2[1] == v)
            } by {
                if edge_verts@.contains(v) && (v == e[0] || v == e[1]) && (value[1] == u32::MAX || value[0] == u32::MAX) && !mesh_edge@.contains(e) {
                    assert(keys@[i as int] == e);
                }
            }
        }
        i += 1;
    }
    assert forall|v: u32| #[trigger] edge_verts@.contains(v) <==> pinned.contains(v) by {
        if pinned.contains(v) {
            let e = choose|e: Edge|
                #[trigger] edges@.contains_key(e) && (edges@[e][0] == u32::MAX || edges@[e][1] == u32::MAX) && !mesh_edge@.contains(e)
                    && (e[0] == v || e[1] == v);
            assert(keys@.to_set().contains(e));
            let q = choose|q: int| 0 <= q < keys@.len() && keys@[q] == e;
        }
        if edge_verts@.contains(v) {
            let q = choose|q: int| 0 <= q < keys@.len() && {
                let e = #[trigger] keys@[q];
                (edges@[e][0] == u32::MAX || edges@[e][1] == u32::MAX) && !mesh_edge@.contains(e) && (e[0] == v || e[1] == v)
            };
            assert(keys@.to_set().contains(keys@[q]));
        }
    }
    let ghost f = |e: Edge| !pinned.contains(e[0]) && !pinned.contains(e[1]);
    let mut r: Vec<Edge> = Vec::new();
    let mut j: usize = 0;
    while j < keys.len()
        invariant
            0 <= j <= keys@.len(),
            keys@.to_set() == edges@.dom(),
            keys@.no_duplicates(),
            forall|v: u32| #[trigger] edge_verts@.contains(v) <==> pinned.contains(v),
            r@.to_set() == keys@.take(j as int).to_set().filter(|e: Edge| !pinned.contains(e[0]) && !pinned.contains(e[1])),
            r@.no_duplicates(),
            forall|q: int| 0 <= q < r@.len() ==> keys@.take(j as int).contains(#[trigger] r@[q]),
        decreases keys@.len() - j,
    {
        let e = keys[j];
        let ghost rb = r@;
        proof {
            keys@.take(j as int).lemma_push_to_set_commute(e);
            assert(keys@.take(j + 1) =~= keys@.take(j as int).push(e));
            assert(!keys@.take(j as int).contains(e)) by {
                if keys@.take(j as int).contains(e) {
                    let q = choose|q: int| 0 <= q < j && keys@.take(j as int)[q] == e;
                    assert(keys@[q] == keys@[j as int]);
                }
            }
            assert(!rb.contains(e)) by {
                if rb.contains(e) {
                    let q = choose|q: int| 0 <= q < rb.len() && rb[q] == e;
                    assert(keys@.take(j as int).contains(rb[q]));
                }
            }
        }
        if !edge_verts.contains(&e[0]) && !edge_verts.contains(&e[1]) {
            r.push(e);
            proof {
                rb.lemma_push_to_set_commute(e);
            }
        }
        proof {
            assert(r@.to_set() =~= keys@.take(j + 1).to_set().filter(|e: Edge| !pinned.contains(e[0]) && !pinned.contains(e[1])));
            assert forall|q: int| 0 <= q < r@.len() implies keys@.take(j + 1).contains(#[trigger] r@[q]) by {
                if q < rb.len() {
                    let w = r@[q];
                    assert(keys@.take(j as int).contains(w));
                    let p = choose|p: int| 0 <= p < j && keys@.take(j as int)[p] == w;
                    assert(keys@.take(j + 1)[p] == w);
                } else {
                    assert(keys@.take(j + 1)[j as int] == e);
                }
            }
        }
        j += 1;
    }
    assert(keys@.take(keys@.len() as int) =~= keys@);
    proof {
        law_collapsible_edges_stay_off_cut(edges@, mesh_edge@, r@);
    }
    r
}

/// The lists of a table from vertices to edge lists, as sequences.
pub open spec fn edge_lists(m: Map<u32, Vec<Edge>>) -> Map<u32, Seq<Edge>> {
    Map::new(|k: u32| m.contains_key(k), |k: u32| m[k]@)
}

/// The table with edge `e` put at the front of the list of `k`.
pub open spec fn prepend(m: Map<u32, Seq<Edge>>, k: u32, e: Edge) -> Map<u32, Seq<Edge>> {
    if m.contains_key(k) {
        m.insert(k, seq![e] + m[k])
    } else {
        m.insert(k, seq![e])
    }
}

/// For each corner of each triangle of `order`, in turn, the edge opposite that corner put
/// at the front of the corner's list.
pub open spec fn opposite_lists(order: Seq<Triangle>) -> Map<u32, Seq<Edge>>
    decreases order.len(),
{
    if order.len() == 0 {
        Map::empty()
    } else {
        let m = opposite_lists(order.drop_last());
        let t = order.last();
        prepend(
            prepend(prepend(m, t[0], spec_edge(t[1], t[2])), t[1], spec_edge(t[0], t[2])),
            t[2],
            spec_edge(t[0], t[1]),
        )
    }
}

fn prepend_edge(m: &mut HashMap<u32, Vec<Edge>>, k: u32, e: Edge)
    ensures
        edge_lists(final(m)@) == prepend(edge_lists(old(m)@), k, e),
{
    let mut list: Vec<Edge> = Vec::new();
    list.push(e);
    let ghost before = m@;
    match m.remove(&k) {
        Some(prev) => {
            let mut prev = prev;
            assert(prev@ == before[k]@);
            list.append(&mut prev);
            assert(list@ =~= seq![e] + before[k]@);
        },
        None => {
            assert(list@ =~= seq![e]);
        },
    }
    m.insert(k, list);
    assert(edge_lists(m@) =~= prepend(edge_lists(old(m)@), k, e));
}

/// For each vertex of the triangle set, the edges opposite it in the triangles that have
/// it as a corner; the triangles are taken in the order in which the set yields them,
/// and each list holds the last one taken first.
pub fn build_tri_dict(tris: &TriSet) -> (r: HashMap<u32, Vec<Edge>>)
    ensures
        exists|order: Seq<Triangle>|
            order.to_set() == tris@ && order.no_duplicates() && edge_lists(r@) == opposite_lists(order),
{
    let order = set_elements(tris);
    let mut dict: HashMap<u32, Vec<Edge>> = HashMap::new();
    assert(edge_lists(dict@) =~= opposite_lists(order@.take(0)));
    let mut i: usize = 0;
    while i < order.len()
        invariant
            0 <= i <= order@.len(),
            edge_lists(dict@) == opposite_lists(order@.take(i as int)),
        decreases order@.len() - i,
    {
        let tri = order[i];
        proof {
            assert(order@.take(i + 1).drop_last() =~= order@.take(i as int));
            assert(order@.take(i + 1).last() == tri);
        }
        prepend_edge(&mut dict, tri[0], new_edge(tri[1], tri[2]));
        prepend_edge(&mut dict, tri[1], new_edge(tri[0], tri[2]));
        prepend_edge(&mut dict, tri[2], new_edge(tri[0], tri[1]));
        i += 1;
    }
    assert(order@.take(order@.len() as int) =~= order@);
    dict
}

/// Where bringing a mesh piece's tables up to date stops.
#[derive(Debug, Clone, Copy, PartialEq, Eq)]
pub enum SimplifyError {
    /// A vertex that the collapse touches has no entry in a table.
    MissingVertex,
    /// A list shrank below a place that was to be removed from it.
    RemovalOutOfRange,
}

/// Edge `e` has `x` as an end.
pub open spec fn touches(e: Edge, x: u32) -> bool {
    e[0] == x || e[1] == x
}

/// The ends, in order, of the edges of `l` that touch `x` (or, with `touching` false,
/// that do not).
pub open spec fn ends_where(l: Seq<Edge>, x: u32, touching: bool) -> Seq<u32>
    decreases l.len(),
{
    if l.len() == 0 {
        Seq::empty()
    } else {
        let p = ends_where(l.drop_last(), x, touching);
        if touches(l.last(), x) == touching {
            p + seq![l.last()[0], l.last()[1]]
        } else {
            p
        }
    }
}

/// The edges of `l` that do not touch `x`, in order.
pub open spec fn edges_apart(l: Seq<Edge>, x: u32) -> Seq<Edge>
    decreases l.len(),
{
    if l.len() == 0 {
        Seq::empty()
    } else {
        let p = edges_apart(l.drop_last(), x);
        if touches(l.last(), x) {
            p
        } else {
            p.push(l.last())
        }
    }
}

/// Edge `e` with the ends of `c` renamed `v`, ascending.
pub open spec fn renamed_edge(e: Edge, c: Edge, v: u32) -> Edge {
    spec_edge(merged_vertex(e[0], c, v), merged_vertex(e[1], c, v))
}

/// The places, ascending, of the edges of `l` whose ends become one when those of `c`
/// are renamed `v`.
pub open spec fn collapsed_places(l: Seq<Edge>, c: Edge, v: u32) -> Seq<int>
    decreases l.len(),
{
    if l.len() == 0 {
        Seq::empty()
    } else {
        let p = collapsed_places(l.drop_last(), c, v);
        let e = l.last();
        if merged_vertex(e[0], c, v) == merged_vertex(e[1], c, v) {
            p.push(l.len() - 1)
        } else {
            p
        }
    }
}

/// Removes the places of `ps` from `l` one after the other (each removal shifting what
/// follows); `None` where a place lies beyond the list as it then stands.
pub open spec fn remove_in_turn(l: Seq<Edge>, ps: Seq<int>) -> Option<Seq<Edge>>
    decreases ps.len(),
{
    if ps.len() == 0 {
        Some(l)
    } else {
        match remove_in_turn(l, ps.drop_last()) {
            Some(l2) => if 0 <= ps.last() < l2.len() {
                Some(l2.remove(ps.last()))
            } else {
                None
            },
            None => None,
        }
    }
}

/// A list of a vertex next to the collapsed edge: its edges renamed, then the places of
/// those that collapsed removed in turn.
pub open spec fn swapped_list(l: Seq<Edge>, c: Edge, v: u32) -> Option<Seq<Edge>> {
    remove_in_turn(l.map_values(|e: Edge| renamed_edge(e, c, v)), collapsed_places(l, c, v))
}

/// The table after the lists of the vertices of `swaps` are swapped over, in turn.
pub open spec fn apply_swaps(m: Map<u32, Seq<Edge>>, swaps: Seq<u32>, c: Edge, v: u32) -> Option<Map<u32, Seq<Edge>>>
    decreases swaps.len(),
{
    if swaps.len() == 0 {
        Some(m)
    } else {
        match apply_swaps(m, swaps.drop_last(), c, v) {
            Some(m2) => {
                let k = swaps.last();
                if m2.contains_key(k) {
                    match swapped_list(m2[k], c, v) {
                        Some(l) => Some(m2.insert(k, l)),
                        None => None,
                    }
                } else {
                    None
                }
            },
            None => None,
        }
    }
}

/// The table after the lists of the vertices of `rems` lose, in turn, their edges that
/// touch `x`.
pub open spec fn apply_removals(m: Map<u32, Seq<Edge>>, rems: Seq<u32>, x: u32) -> Option<Map<u32, Seq<Edge>>>
    decreases rems.len(),
{
    if rems.len() == 0 {
        Some(m)
    } else {
        match apply_removals(m, rems.drop_last(), x) {
            Some(m2) => {
                let k = rems.last();
                if m2.contains_key(k) {
                    Some(m2.insert(k, edges_apart(m2[k], x)))
                } else {
                    None
                }
            },
            None => None,
        }
    }
}

/// The vertex-to-opposite-edges table after the ends of `c` merged into `v`: the edges
/// of the two ends' lists that touch the other end mark vertices whose lists lose their
/// edges at the second end; the others mark vertices whose lists are renamed (see
/// `swapped_list`) and make up the list of `v`; the two ends leave. `None` where the
/// update cannot be carried out.
pub open spec fn retargeted_dict(m: Map<u32, Seq<Edge>>, c: Edge, v: u32) -> Option<Map<u32, Seq<Edge>>> {
    if !(m.contains_key(c[0]) && m.contains_key(c[1])) {
        None
    } else {
        let (l0, l1) = (m[c[0]], m[c[1]]);
        let removals = ends_where(l0, c[1], true) + ends_where(l1, c[0], true);
        let swaps = ends_where(l0, c[1], false) + ends_where(l1, c[0], false);
        let combined = edges_apart(l0, c[1]) + edges_apart(l1, c[0]);
        match apply_swaps(m, swaps, c, v) {
            Some(m2) => match apply_removals(m2, removals, c[1]) {
                Some(m3) => Some(m3.remove(c[0]).remove(c[1]).insert(v, combined)),
                None => None,
            },
            None => None,
        }
    }
}

fn split_by_touch(
    l: &Vec<Edge>,
    x: u32,
    removals: &mut Vec<u32>,
    swaps: &mut Vec<u32>,
    combined: &mut Vec<Edge>,
)
    ensures
        final(removals)@ == old(removals)@ + ends_where(l@, x, true),
        final(swaps)@ == old(swaps)@ + ends_where(l@, x, false),
        final(combined)@ == old(combined)@ + edges_apart(l@, x),
{
    let mut i: usize = 0;
    assert(removals@ =~= old(removals)@ + ends_where(l@.take(0), x, true));
    assert(swaps@ =~= old(swaps)@ + ends_where(l@.take(0), x, false));
    assert(combined@ =~= old(combined)@ + edges_apart(l@.take(0), x));
    while i < l.len()
        invariant
            0 <= i <= l@.len(),
            removals@ == old(removals)@ + ends_where(l@.take(i as int), x, true),
            swaps@ == old(swaps)@ + ends_where(l@.take(i as int), x, false),
            combined@ == old(combined)@ + edges_apart(l@.take(i as int), x),
        decreases l@.len() - i,
    {
        let edge = l[i];
        proof {
            assert(l@.take(i + 1).drop_last() =~= l@.take(i as int));
            assert(l@.take(i + 1).last() == edge);
        }
        if edge[0] == x || edge[1] == x {
            removals.push(edge[0]);
            removals.push(edge[1]);
        } else {
            swaps.push(edge[0]);
            swaps.push(edge[1]);
            combined.push(edge);
        }
        assert(removals@ =~= old(removals)@ + ends_where(l@.take(i + 1), x, true));
        assert(swaps@ =~= old(swaps)@ + ends_where(l@.take(i + 1), x, false));
        assert(combined@ =~= old(combined)@ + edges_apart(l@.take(i + 1), x));
        i += 1;
    }
    assert(l@.take(l@.len() as int) =~= l@);
}

proof fn lemma_remove_in_turn_stays_none(l: Seq<Edge>, ps: Seq<int>, i: int)
    requires
        0 <= i <= ps.len(),
        remove_in_turn(l, ps.take(i)) is None,
    ensures
        remove_in_turn(l, ps) is None,
    decreases ps.len() - i,
{
    if i < ps.len() {
        assert(ps.take(i + 1).drop_last() =~= ps.take(i));
        lemma_remove_in_turn_stays_none(l, ps, i + 1);
    } else {
        assert(ps.take(i) =~= ps);
    }
}

fn swap_list(l: &Vec<Edge>, c: Edge, v: u32) -> (r: Option<Vec<Edge>>)
    ensures
        match r {
            Some(x) => swapped_list(l@, c, v) == Some(x@),
            None => swapped_list(l@, c, v) is None,
        },
{
    let mut renamed: Vec<Edge> = Vec::new();
    let mut places: Vec<usize> = Vec::new();
    let ghost f = |e: Edge| renamed_edge(e, c, v);
    let mut i: usize = 0;
    assert(places@.map_values(|p: usize| p as int) =~= collapsed_places(l@.take(0), c, v));
    while i < l.len()
        invariant
            0 <= i <= l@.len(),
            renamed@ == l@.take(i as int).map_values(|e: Edge| renamed_edge(e, c, v)),
            places@.map_values(|p: usize| p as int) == collapsed_places(l@.take(i as int), c, v),
        decreases l@.len() - i,
    {
        let edge = l[i];
        let a = if edge[0] == c[0] || edge[0] == c[1] { v } else { edge[0] };
        let b = if edge[1] == c[0] || edge[1] == c[1] { v } else { edge[1] };
        proof {
            assert(l@.take(i + 1).drop_last() =~= l@.take(i as int));
            assert(l@.take(i + 1).last() == edge);
        }
        let ghost pb = places@;
        if a == b {
            places.push(i);
        }
        renamed.push(new_edge(a, b));
        assert(renamed@ =~= l@.take(i + 1).map_values(|e: Edge| renamed_edge(e, c, v)));
        assert(places@.map_values(|p: usize| p as int) =~= collapsed_places(l@.take(i + 1), c, v));
        i += 1;
    }
    assert(l@.take(l@.len() as int) =~= l@);
    let ghost ps = places@.map_values(|p: usize| p as int);
    let mut j: usize = 0;
    assert(ps.take(0) =~= Seq::<int>::empty());
    assert(ps =~= collapsed_places(l@, c, v));
    while j < places.len()
        invariant
            0 <= j <= places@.len(),
            ps == collapsed_places(l@, c, v),
            ps == places@.map_values(|p: usize| p as int),
            remove_in_turn(l@.map_values(|e: Edge| renamed_edge(e, c, v)), ps.take(j as int)) == Some(renamed@),
        decreases places@.len() - j,
    {
        let p = places[j];
        proof {
            assert(ps.take(j + 1).drop_last() =~= ps.take(j as int));
            assert(ps.take(j + 1).last() == p as int);
        }
        if p >= renamed.len() {
            proof {
                lemma_remove_in_turn_stays_none(l@.map_values(|e: Edge| renamed_edge(e, c, v)), ps, j + 1);
            }
            return None;
        }
        renamed.remove(p);
        j += 1;
    }
    assert(ps.take(places@.len() as int) =~= ps);
    assert(ps =~= collapsed_places(l@, c, v));
    Some(renamed)
}

fn keep_apart(l: &Vec<Edge>, x: u32) -> (r: Vec<Edge>)
    ensures
        r@ == edges_apart(l@, x),
{
    let mut r: Vec<Edge> = Vec::new();
    let mut i: usize = 0;
    while i < l.len()
        invariant
            0 <= i <= l@.len(),
            r@ == edges_apart(l@.take(i as int), x),
        decreases l@.len() - i,
    {
        let edge = l[i];
        proof {
            assert(l@.take(i + 1).drop_last() =~= l@.take(i as int));
            assert(l@.take(i + 1).last() == edge);
        }
        if !(edge[0] == x || edge[1] == x) {
            r.push(edge);
        }
        i += 1;
    }
    assert(l@.take(l@.len() as int) =~= l@);
    r
}

proof fn lemma_apply_swaps_stays_none(m: Map<u32, Seq<Edge>>, s: Seq<u32>, c: Edge, v: u32, i: int)
    requires
        0 <= i <= s.len(),
        apply_swaps(m, s.take(i), c, v) is None,
    ensures
        apply_swaps(m, s, c, v) is None,
    decreases s.len() - i,
{
    if i < s.len() {
        assert(s.take(i + 1).drop_last() =~= s.take(i));
        lemma_apply_swaps_stays_none(m, s, c, v, i + 1);
    } else {
        assert(s.take(i) =~= s);
    }
}

proof fn lemma_apply_removals_stays_none(m: Map<u32, Seq<Edge>>, s: Seq<u32>, x: u32, i: int)
    requires
        0 <= i <= s.len(),
        apply_removals(m, s.take(i), x) is None,
    ensures
        apply_removals(m, s, x) is None,
    decreases s.len() - i,
{
    if i < s.len() {
        assert(s.take(i + 1).drop_last() =~= s.take(i));
        lemma_apply_removals_stays_none(m, s, x, i + 1);
    } else {
        assert(s.take(i) =~= s);
    }
}

/// Swapping lists over keeps the table's vertices and the lists of the vertices not swapped.
proof fn lemma_apply_swaps_keeps(m: Map<u32, Seq<Edge>>, swaps: Seq<u32>, c: Edge, v: u32)
    requires
        apply_swaps(m, swaps, c, v) is Some,
    ensures
        apply_swaps(m, swaps, c, v).unwrap().dom() == m.dom(),
        forall|k: u32| #[trigger] m.contains_key(k) && !swaps.contains(k) ==> apply_swaps(m, swaps, c, v).unwrap()[k] == m[k],
    decreases swaps.len(),
{
    if swaps.len() > 0 {
        let p = swaps.drop_last();
        lemma_apply_swaps_keeps(m, p, c, v);
        let m2 = apply_swaps(m, p, c, v).unwrap();
        assert(m2.contains_key(swaps.last()));
        assert(apply_swaps(m, swaps, c, v).unwrap().dom() =~= m.dom());
        assert forall|k: u32| #[trigger] m.contains_key(k) && !swaps.contains(k) implies apply_swaps(m, swaps, c, v).unwrap()[k] == m[k] by {
            assert(swaps[swaps.len() - 1] != k);
            assert(!p.contains(k)) by {
                if p.contains(k) {
                    let i = choose|i: int| 0 <= i < p.len() && p[i] == k;
                    assert(swaps[i] == k);
                }
            }
        }
    }
}

/// Removing edges from lists keeps the table's vertices and the lists of the other vertices.
proof fn lemma_apply_removals_keeps(m: Map<u32, Seq<Edge>>, rems: Seq<u32>, x: u32)
    requires
        apply_removals(m, rems, x) is Some,
    ensures
        apply_removals(m, rems, x).unwrap().dom() == m.dom(),
        forall|k: u32| #[trigger] m.contains_key(k) && !rems.contains(k) ==> apply_removals(m, rems, x).unwrap()[k] == m[k],
    decreases rems.len(),
{
    if rems.len() > 0 {
        let p = rems.drop_last();
        lemma_apply_removals_keeps(m, p, x);
        let m2 = apply_removals(m, p, x).unwrap();
        assert(m2.contains_key(rems.last()));
        assert(apply_removals(m, rems, x).unwrap().dom() =~= m.dom());
        assert forall|k: u32| #[trigger] m.contains_key(k) && !rems.contains(k) implies apply_removals(m, rems, x).unwrap()[k] == m[k] by {
            assert(rems[rems.len() - 1] != k);
            assert(!p.contains(k)) by {
                if p.contains(k) {
                    let i = choose|i: int| 0 <= i < p.len() && p[i] == k;
                    assert(rems[i] == k);
                }
            }
        }
    }
}

/// Some edge of the list has `y` as an end.
pub open spec fn has_end_in(l: Seq<Edge>, y: u32) -> bool {
    exists|i: int| 0 <= i < l.len() && (#[trigger] l[i][0] == y || l[i][1] == y)
}

/// The ends listed are ends of edges of the list.
proof fn lemma_ends_where_from(l: Seq<Edge>, x: u32, touching: bool, y: u32)
    requires
        ends_where(l, x, touching).contains(y),
    ensures
        has_end_in(l, y),
    decreases l.len(),
{
    if l.len() == 0 {
        assert(ends_where(l, x, touching) =~= Seq::<u32>::empty());
    } else {
        let p = l.drop_last();
        let prev = ends_where(p, x, touching);
        let q = ends_where(l, x, touching);
        let last = l[l.len() - 1];
        if prev.contains(y) {
            lemma_ends_where_from(p, x, touching, y);
            let i = choose|i: int| 0 <= i < p.len() && (#[trigger] p[i][0] == y || p[i][1] == y);
            assert(l[i] == p[i]);
            assert(l[i][0] == y || l[i][1] == y);
        } else {
            let j = choose|j: int| 0 <= j < q.len() && q[j] == y;
            if touches(last, x) == touching {
                assert(q == prev + seq![last[0], last[1]]);
                assert(j >= prev.len()) by {
                    if j < prev.len() {
                        assert(prev[j] == y);
                    }
                }
                assert(l[l.len() - 1][0] == y || l[l.len() - 1][1] == y);
            } else {
                assert(q == prev);
            }
        }
    }
}

/// The edges of a list kept apart from `x` are exactly its edges that do not touch `x`.
proof fn lemma_edges_apart_elements(l: Seq<Edge>, x: u32)
    ensures
        forall|ed: Edge| #[trigger] edges_apart(l, x).contains(ed) <==> l.contains(ed) && !touches(ed, x),
    decreases l.len(),
{
    if l.len() > 0 {
        let p = l.drop_last();
        lemma_edges_apart_elements(p, x);
        let last = l[l.len() - 1];
        let ep = edges_apart(p, x);
        let q = edges_apart(l, x);
        if touches(last, x) {
            assert(q == ep);
        } else {
            assert(q == ep.push(last));
        }
        assert forall|ed: Edge| #[trigger] edges_apart(l, x).contains(ed) <==> l.contains(ed) && !touches(ed, x) by {
            if l.contains(ed) && !touches(ed, x) {
                let i = choose|i: int| 0 <= i < l.len() && l[i] == ed;
                if i < p.len() {
                    assert(p[i] == ed);
                    assert(p.contains(ed));
                    assert(ep.contains(ed));
                    let k = choose|k: int| 0 <= k < ep.len() && ep[k] == ed;
                    assert(q[k] == ed);
                } else {
                    assert(q[q.len() - 1] == ed);
                }
            }
            if q.contains(ed) {
                let k = choose|k: int| 0 <= k < q.len() && q[k] == ed;
                if k < ep.len() {
                    assert(ep[k] == ed);
                    assert(ep.contains(ed));
                    assert(p.contains(ed));
                    let i = choose|i: int| 0 <= i < p.len() && p[i] == ed;
                    assert(l[i] == ed);
                } else {
                    assert(ed == last);
                    assert(l[l.len() - 1] == ed);
                }
            }
        }
    } else {
        assert(edges_apart(l, x) =~= Seq::<Edge>::empty());
    }
}

/// After a successful collapse of `c` into the new vertex `v`, the opposite-edge table
/// has no list for either end of `c`; `v` has a list, holding the edges opposite one end
/// that do not touch the other; every other vertex has a list exactly where it had one,
/// and a vertex that is no end of any edge in the lists of the two ends keeps its list.
pub proof fn law_retargeted_dict_shape(m: Map<u32, Seq<Edge>>, c: Edge, v: u32)
    requires
        v != c[0],
        v != c[1],
        retargeted_dict(m, c, v) is Some,
    ensures
        m.contains_key(c[0]) && m.contains_key(c[1]),
        !retargeted_dict(m, c, v).unwrap().contains_key(c[0]),
        !retargeted_dict(m, c, v).unwrap().contains_key(c[1]),
        retargeted_dict(m, c, v).unwrap().contains_key(v),
        forall|ed: Edge|
            #[trigger] retargeted_dict(m, c, v).unwrap()[v].contains(ed) <==> (m[c[0]].contains(ed) && !touches(ed, c[1])) || (
            m[c[1]].contains(ed) && !touches(ed, c[0])),
        forall|k: u32| k != c[0] && k != c[1] && k != v ==> (#[trigger] retargeted_dict(m, c, v).unwrap().contains_key(k) <==> m.contains_key(k)),
        forall|k: u32|
            #[trigger] m.contains_key(k) && k != c[0] && k != c[1] && k != v && (forall|i: int|
                0 <= i < m[c[0]].len() ==> #[trigger] m[c[0]][i][0] != k && m[c[0]][i][1] != k) && (forall|i: int|
                0 <= i < m[c[1]].len() ==> #[trigger] m[c[1]][i][0] != k && m[c[1]][i][1] != k)
                ==> retargeted_dict(m, c, v).unwrap()[k] == m[k],
{
    let (l0, l1) = (m[c[0]], m[c[1]]);
    let removals = ends_where(l0, c[1], true) + ends_where(l1, c[0], true);
    let swaps = ends_where(l0, c[1], false) + ends_where(l1, c[0], false);
    let combined = edges_apart(l0, c[1]) + edges_apart(l1, c[0]);
    let m2 = apply_swaps(m, swaps, c, v).unwrap();
    let m3 = apply_removals(m2, removals, c[1]).unwrap();
    let d = retargeted_dict(m, c, v).unwrap();
    assert(d == m3.remove(c[0]).remove(c[1]).insert(v, combined));
    lemma_apply_swaps_keeps(m, swaps, c, v);
    lemma_apply_removals_keeps(m2, removals, c[1]);
    lemma_edges_apart_elements(l0, c[1]);
    lemma_edges_apart_elements(l1, c[0]);
    assert forall|ed: Edge| #[trigger] d[v].contains(ed) <==> (l0.contains(ed) && !touches(ed, c[1])) || (l1.contains(ed) && !touches(
        ed,
        c[0],
    )) by {
        let (a, b) = (edges_apart(l0, c[1]), edges_apart(l1, c[0]));
        if combined.contains(ed) {
            let i = choose|i: int| 0 <= i < combined.len() && combined[i] == ed;
            if i < a.len() {
                assert(a[i] == ed);
                assert(a.contains(ed));
            } else {
                assert(b[i - a.len()] == ed);
                assert(b.contains(ed));
            }
        }
        if a.contains(ed) {
            let i = choose|i: int| 0 <= i < a.len() && a[i] == ed;
            assert(combined[i] == ed);
        }
        if b.contains(ed) {
            let i = choose|i: int| 0 <= i < b.len() && b[i] == ed;
            assert(combined[a.len() + i] == ed);
        }
    }
    assert forall|k: u32|
        #[trigger] m.contains_key(k) && k != c[0] && k != c[1] && k != v && (forall|i: int|
            0 <= i < l0.len() ==> #[trigger] l0[i][0] != k && l0[i][1] != k) && (forall|i: int|
            0 <= i < l1.len() ==> #[trigger] l1[i][0] != k && l1[i][1] != k) implies d[k] == m[k] by {
        assert(!swaps.contains(k)) by {
            if ends_where(l0, c[1], false).contains(k) {
                lemma_ends_where_from(l0, c[1], false, k);
                let i = choose|i: int| 0 <= i < l0.len() && (#[trigger] l0[i][0] == k || l0[i][1] == k);
            }
            if ends_where(l1, c[0], false).contains(k) {
                lemma_ends_where_from(l1, c[0], false, k);
                let i = choose|i: int| 0 <= i < l1.len() && (#[trigger] l1[i][0] == k || l1[i][1] == k);
            }
            if swaps.contains(k) {
                let i = choose|i: int| 0 <= i < swaps.len() && swaps[i] == k;
                let f = ends_where(l0, c[1], false);
                if i < f.len() {
                    assert(f[i] == k);
                    assert(f.contains(k));
                } else {
                    assert(ends_where(l1, c[0], false)[i - f.len()] == k);
                    assert(ends_where(l1, c[0], false).contains(k));
                }
            }
        }
        assert(!removals.contains(k)) by {
            if ends_where(l0, c[1], true).contains(k) {
                lemma_ends_where_from(l0, c[1], true, k);
                let i = choose|i: int| 0 <= i < l0.len() && (#[trigger] l0[i][0] == k || l0[i][1] == k);
            }
            if ends_where(l1, c[0], true).contains(k) {
                lemma_ends_where_from(l1, c[0], true, k);
                let i = choose|i: int| 0 <= i < l1.len() && (#[trigger] l1[i][0] == k || l1[i][1] == k);
            }
            if removals.contains(k) {
                let i = choose|i: int| 0 <= i < removals.len() && removals[i] == k;
                let f = ends_where(l0, c[1], true);
                if i < f.len() {
                    assert(f[i] == k);
                    assert(f.contains(k));
                } else {
                    assert(ends_where(l1, c[0], true)[i - f.len()] == k);
                    assert(ends_where(l1, c[0], true).contains(k));
                }
            }
        }
        assert(m2.contains_key(k));
    }
}

/// Brings the vertex-to-opposite-edges table up to date after the ends of `collapsed`
/// merged into `new_point` (see `retargeted_dict`). Fails where the update cannot be
/// carried out; the table is then left part-way.
pub fn retarget_tri_dict(dict: &mut HashMap<u32, Vec<Edge>>, collapsed: Edge, new_point: u32) -> (r: Result<(), SimplifyError>)
    ensures
        r is Ok <==> retargeted_dict(edge_lists(old(dict)@), collapsed, new_point) is Some,
        r is Ok ==> edge_lists(final(dict)@) == retargeted_dict(edge_lists(old(dict)@), collapsed, new_point).unwrap(),
        r is Ok && new_point != collapsed[0] && new_point != collapsed[1] ==> {
            &&& !final(dict)@.contains_key(collapsed[0])
            &&& !final(dict)@.contains_key(collapsed[1])
            &&& final(dict)@.contains_key(new_point)
            &&& forall|ed: Edge|
                #[trigger] final(dict)@[new_point]@.contains(ed) <==> (old(dict)@[collapsed[0]]@.contains(ed) && !touches(ed, collapsed[1]))
                    || (old(dict)@[collapsed[1]]@.contains(ed) && !touches(ed, collapsed[0]))
            &&& forall|k: u32|
                k != collapsed[0] && k != collapsed[1] && k != new_point ==> (#[trigger] final(dict)@.contains_key(k)
                    <==> old(dict)@.contains_key(k))
        },
{
    let ghost m0 = edge_lists(dict@);
    let mut swaps: Vec<u32> = Vec::new();
    let mut removals: Vec<u32> = Vec::new();
    let mut combined: Vec<Edge> = Vec::new();
    match dict.get(&collapsed[0]) {
        Some(l0) => split_by_touch(l0, collapsed[1], &mut removals, &mut swaps, &mut combined),
        None => return Err(SimplifyError::MissingVertex),
    }
    match dict.get(&collapsed[1]) {
        Some(l1) => split_by_touch(l1, collapsed[0], &mut removals, &mut swaps, &mut combined),
        None => return Err(SimplifyError::MissingVertex),
    }
    proof {
        assert(swaps@ =~= ends_where(m0[collapsed[0]], collapsed[1], false) + ends_where(m0[collapsed[1]], collapsed[0], false));
        assert(removals@ =~= ends_where(m0[collapsed[0]], collapsed[1], true) + ends_where(m0[collapsed[1]], collapsed[0], true));
        assert(combined@ =~= edges_apart(m0[collapsed[0]], collapsed[1]) + edges_apart(m0[collapsed[1]], collapsed[0]));
        assert(swaps@.take(0) =~= Seq::<u32>::empty());
    }
    let mut i: usize = 0;
    while i < swaps.len()
        invariant
            m0 == edge_lists(old(dict)@),
            m0.contains_key(collapsed[0]) && m0.contains_key(collapsed[1]),
            swaps@ == ends_where(m0[collapsed[0]], collapsed[1], false) + ends_where(m0[collapsed[1]], collapsed[0], false),
            removals@ == ends_where(m0[collapsed[0]], collapsed[1], true) + ends_where(m0[collapsed[1]], collapsed[0], true),
            combined@ == edges_apart(m0[collapsed[0]], collapsed[1]) + edges_apart(m0[collapsed[1]], collapsed[0]),
            0 <= i <= swaps@.len(),
            apply_swaps(m0, swaps@.take(i as int), collapsed, new_point) == Some(edge_lists(dict@)),
        decreases swaps@.len() - i,
    {
        let k = swaps[i];
        proof {
            assert(swaps@.take(i + 1).drop_last() =~= swaps@.take(i as int));
            assert(swaps@.take(i + 1).last() == k);
        }
        let ghost mb = dict@;
        let list = match dict.remove(&k) {
            Some(l) => l,
            None => {
                proof {
                    assert(!edge_lists(mb).contains_key(k));
                    lemma_apply_swaps_stays_none(m0, swaps@, collapsed, new_point, i + 1);
                }
                return Err(SimplifyError::MissingVertex);
            },
        };
        proof {
            assert(list@ == edge_lists(mb)[k]);
        }
        match swap_list(&list, collapsed, new_point) {
            Some(nl) => {
                let ghost nv = nl@;
                dict.insert(k, nl);
                proof {
                    assert(edge_lists(dict@) =~= edge_lists(mb).insert(k, nv));
                }
            },
            None => {
                proof {
                    lemma_apply_swaps_stays_none(m0, swaps@, collapsed, new_point, i + 1);
                }
                return Err(SimplifyError::RemovalOutOfRange);
            },
        }
        i += 1;
    }
    assert(swaps@.take(swaps@.len() as int) =~= swaps@);
    let ghost m2 = edge_lists(dict@);
    assert(removals@.take(0) =~= Seq::<u32>::empty());
    let mut j: usize = 0;
    while j < removals.len()
        invariant
            m0 == edge_lists(old(dict)@),
            m0.contains_key(collapsed[0]) && m0.contains_key(collapsed[1]),
            swaps@ == ends_where(m0[collapsed[0]], collapsed[1], false) + ends_where(m0[collapsed[1]], collapsed[0], false),
            removals@ == ends_where(m0[collapsed[0]], collapsed[1], true) + ends_where(m0[collapsed[1]], collapsed[0], true),
            combined@ == edges_apart(m0[collapsed[0]], collapsed[1]) + edges_apart(m0[collapsed[1]], collapsed[0]),
            apply_swaps(m0, swaps@, collapsed, new_point) == Some(m2),
            0 <= j <= removals@.len(),
            apply_removals(m2, removals@.take(j as int), collapsed[1]) == Some(edge_lists(dict@)),
        decreases removals@.len() - j,
    {
        let k = removals[j];
        proof {
            assert(removals@.take(j + 1).drop_last() =~= removals@.take(j as int));
            assert(removals@.take(j + 1).last() == k);
        }
        let ghost mb = dict@;
        let list = match dict.remove(&k) {
            Some(l) => l,
            None => {
                proof {
                    assert(!edge_lists(mb).contains_key(k));
                    lemma_apply_removals_stays_none(m2, removals@, collapsed[1], j + 1);
                }
                return Err(SimplifyError::MissingVertex);
            },
        };
        let nl = keep_apart(&list, collapsed[1]);
        let ghost nv = nl@;
        dict.insert(k, nl);
        proof {
            assert(list@ == edge_lists(mb)[k]);
            assert(edge_lists(dict@) =~= edge_lists(mb).insert(k, nv));
        }
        j += 1;
    }
    assert(removals@.take(removals@.len() as int) =~= removals@);
    let ghost m3 = edge_lists(dict@);
    dict.remove(&collapsed[0]);
    dict.remove(&collapsed[1]);
    let ghost cv = combined@;
    dict.insert(new_point, combined);
    assert(edge_lists(dict@) =~= m3.remove(collapsed[0]).remove(collapsed[1]).insert(new_point, cv));
    proof {
        if new_point != collapsed[0] && new_point != collapsed[1] {
            law_retargeted_dict_shape(m0, collapsed, new_point);
            let d = edge_lists(dict@);
            assert forall|k: u32| k != collapsed[0] && k != collapsed[1] && k != new_point implies (#[trigger] dict@.contains_key(k)
                <==> old(dict)@.contains_key(k)) by {
                assert(d.contains_key(k) == dict@.contains_key(k));
                assert(m0.contains_key(k) == old(dict)@.contains_key(k));
            }
            assert(!d.contains_key(collapsed[0]) && !d.contains_key(collapsed[1]) && d.contains_key(new_point));
            assert(d[new_point] == dict@[new_point]@);
            assert(m0[collapsed[0]] == old(dict)@[collapsed[0]]@);
            assert(m0[collapsed[1]] == old(dict)@[collapsed[1]]@);
            assert forall|ed: Edge| #[trigger] dict@[new_point]@.contains(ed) <==> (old(dict)@[collapsed[0]]@.contains(ed) && !touches(
                ed,
                collapsed[1],
            )) || (old(dict)@[collapsed[1]]@.contains(ed) && !touches(ed, collapsed[0])) by {
                assert(d[new_point].contains(ed) == dict@[new_point]@.contains(ed));
            }
        }
    }
    Ok(())
}

/// Walking the list of collapse candidates after the ends of `c` merged into `v`: the
/// far ends met so far next to the collapsed edge, and the entries that stay, each with
/// its place in the old list, its edge (renamed where it touched the collapsed edge)
/// and whether it changed. An entry touching the collapsed edge whose far end was met
/// before is dropped.
pub open spec fn candidates_walk(l: Seq<Edge>, c: Edge, v: u32) -> (Seq<u32>, Seq<(usize, Edge, bool)>)
    decreases l.len(),
{
    if l.len() == 0 {
        (Seq::empty(), Seq::empty())
    } else {
        let (met, kept) = candidates_walk(l.drop_last(), c, v);
        let i = (l.len() - 1) as usize;
        let e = l.last();
        if hits(e[0], c) {
            if met.contains(e[1]) {
                (met, kept)
            } else {
                (met.push(e[1]), kept.push((i, spec_edge(v, e[1]), true)))
            }
        } else if hits(e[1], c) {
            if met.contains(e[0]) {
                (met, kept)
            } else {
                (met.push(e[0]), kept.push((i, spec_edge(e[0], v), true)))
            }
        } else {
            (met, kept.push((i, e, false)))
        }
    }
}

/// The keys of the list never go down.
pub open spec fn keys_ascending(s: Seq<(u32, Edge)>) -> bool {
    forall|i: int, j: int| 0 <= i <= j < s.len() ==> #[trigger] s[i].0 <= #[trigger] s[j].0
}

/// The entries of the list with key `k`, in order.
pub open spec fn with_key(s: Seq<(u32, Edge)>, k: u32) -> Seq<(u32, Edge)> {
    s.filter(|x: (u32, Edge)| x.0 == k)
}

/// Inserting `x` right after the entries whose keys are no larger than its own keeps the
/// keys ascending, appends `x` to the entries of its key and leaves the others alone.
proof fn lemma_insert_after_equal_keys(out: Seq<(u32, Edge)>, pos: int, x: (u32, Edge))
    requires
        keys_ascending(out),
        0 <= pos <= out.len(),
        forall|j: int| 0 <= j < pos ==> #[trigger] out[j].0 <= x.0,
        forall|j: int| pos <= j < out.len() ==> #[trigger] out[j].0 > x.0,
    ensures
        keys_ascending(out.insert(pos, x)),
        out.insert(pos, x).len() == out.len() + 1,
        forall|k: u32| #[trigger] with_key(out.insert(pos, x), k) == if k == x.0 {
            with_key(out, k).push(x)
        } else {
            with_key(out, k)
        },
{
    broadcast use vstd::seq_lib::group_seq_properties;

    let new = out.insert(pos, x);
    let (front, back) = (out.take(pos), out.skip(pos));
    assert(out =~= front + back);
    assert(new =~= front.push(x) + back);
    assert forall|i: int, j: int| 0 <= i <= j < new.len() implies #[trigger] new[i].0 <= #[trigger] new[j].0 by {
        if j < pos {
            assert(new[i] == out[i] && new[j] == out[j]);
        } else if j == pos {
            assert(new[j] == x);
            if i < pos {
                assert(new[i] == out[i]);
            }
        } else {
            assert(new[j] == out[j - 1]);
            if i < pos {
                assert(new[i] == out[i]);
            } else if i > pos {
                assert(new[i] == out[i - 1]);
            }
        }
    }
    assert forall|k: u32| #[trigger] with_key(new, k) == if k == x.0 {
        with_key(out, k).push(x)
    } else {
        with_key(out, k)
    } by {
        let f = |y: (u32, Edge)| y.0 == k;
        Seq::filter_distributes_over_add(front.push(x), back, f);
        Seq::filter_distributes_over_add(front, back, f);
        front.lemma_filter_push(x, f);
        if k == x.0 {
            assert(back.all(|y: (u32, Edge)| !f(y))) by {
                assert forall|i: int| 0 <= i < back.len() implies !f(#[trigger] back[i]) by {
                    assert(back[i] == out[pos + i]);
                }
            }
            back.lemma_all_neg_filter_empty(f);
            assert(back.filter(f) =~= Seq::<(u32, Edge)>::empty());
            assert(with_key(out, k) =~= front.filter(f));
            assert(with_key(new, k) =~= front.filter(f).push(x));
        } else {
            assert(with_key(new, k) =~= front.filter(f) + back.filter(f));
        }
    }
}

/// How often `x` occurs in a list is how often it occurs among the entries with its key.
proof fn lemma_count_within_key(s: Seq<(u32, Edge)>, x: (u32, Edge))
    ensures
        s.to_multiset().count(x) == with_key(s, x.0).to_multiset().count(x),
    decreases s.len(),
{
    broadcast use vstd::seq_lib::group_to_multiset_ensures;

    if s.len() == 0 {
        assert(with_key(s, x.0) =~= Seq::<(u32, Edge)>::empty()) by {
            s.lemma_all_neg_filter_empty(|y: (u32, Edge)| y.0 == x.0);
        }
        assert(!s.contains(x));
        assert(!Seq::<(u32, Edge)>::empty().contains(x));
    } else {
        let p = s.drop_last();
        lemma_count_within_key(p, x);
        assert(s =~= p.push(s.last()));
        p.lemma_filter_push(s.last(), |y: (u32, Edge)| y.0 == x.0);
    }
}

/// Two lists whose entries of every key agree hold the same entries, each as often: a
/// sorted list of candidates is a rearrangement of the list it came from.
pub proof fn law_sorting_keeps_the_candidates(before: Seq<(u32, Edge)>, after: Seq<(u32, Edge)>)
    requires
        forall|k: u32| #[trigger] with_key(after, k) == with_key(before, k),
    ensures
        after.to_multiset() == before.to_multiset(),
{
    assert forall|x: (u32, Edge)| #[trigger] after.to_multiset().count(x) == before.to_multiset().count(x) by {
        lemma_count_within_key(after, x);
        lemma_count_within_key(before, x);
        assert(with_key(after, x.0) == with_key(before, x.0));
    }
    assert(after.to_multiset() =~= before.to_multiset());
}

/// Sorts collapse candidates by their length keys, shortest first, keeping candidates
/// of equal length in the order they had. The keys are the bit patterns of the lengths
/// as single-precision numbers, which for lengths that are neither negative nor NaN
/// order as the lengths do.
pub fn sort_by_length(candidates: &mut Vec<(u32, Edge)>)
    ensures
        final(candidates)@.len() == old(candidates)@.len(),
        keys_ascending(final(candidates)@),
        forall|i: int, j: int|
            0 <= i <= j < final(candidates)@.len() ==> #[trigger] final(candidates)@[i].0 <= #[trigger] final(candidates)@[j].0,
        forall|k: u32| #[trigger] with_key(final(candidates)@, k) == with_key(old(candidates)@, k),
        final(candidates)@.to_multiset() == old(candidates)@.to_multiset(),
{
    let ghost orig = candidates@;
    let mut out: Vec<(u32, Edge)> = Vec::new();
    let mut i: usize = 0;
    while i < candidates.len()
        invariant
            candidates@ == orig,
            0 <= i <= orig.len(),
            out@.len() == i,
            keys_ascending(out@),
            forall|k: u32| #[trigger] with_key(out@, k) == with_key(orig.take(i as int), k),
        decreases orig.len() - i,
    {
        let x = candidates[i];
        let mut pos: usize = out.len();
        while pos > 0 && out[pos - 1].0 > x.0
            invariant
                0 <= pos <= out@.len(),
                keys_ascending(out@),
                forall|j: int| pos <= j < out@.len() ==> #[trigger] out@[j].0 > x.0,
            decreases pos,
        {
            pos -= 1;
        }
        proof {
            assert forall|j: int| 0 <= j < pos implies #[trigger] out@[j].0 <= x.0 by {
                assert(out@[j].0 <= out@[pos - 1].0);
            }
            lemma_insert_after_equal_keys(out@, pos as int, x);
            assert(orig.take(i + 1) =~= orig.take(i as int).push(x));
            assert forall|k: u32| #[trigger] with_key(orig.take(i + 1), k) == if k == x.0 {
                with_key(orig.take(i as int), k).push(x)
            } else {
                with_key(orig.take(i as int), k)
            } by {
                orig.take(i as int).lemma_filter_push(x, |y: (u32, Edge)| y.0 == k);
            }
        }
        out.insert(pos, x);
        i += 1;
    }
    assert(orig.take(orig.len() as int) =~= orig);
    proof {
        law_sorting_keeps_the_candidates(orig, out@);
    }
    *candidates = out;
}

/// Brings the list of collapse candidates up to date after the ends of `collapsed`
/// merged into `new_point` (see `candidates_walk`): hands back the entries that stay,
/// in order, each with its place in the old list, its edge, and whether it changed (so
/// that its length must be measured again).
pub fn retarget_collapsible(edges: &Vec<Edge>, collapsed: Edge, new_point: u32) -> (r: Vec<(usize, Edge, bool)>)
    ensures
        r@ == candidates_walk(edges@, collapsed, new_point).1,
{
    let mut contained: Vec<u32> = Vec::new();
    let mut kept: Vec<(usize, Edge, bool)> = Vec::new();
    let mut i: usize = 0;
    while i < edges.len()
        invariant
            0 <= i <= edges@.len(),
            (contained@, kept@) == candidates_walk(edges@.take(i as int), collapsed, new_point),
        decreases edges@.len() - i,
    {
        let e = edges[i];
        proof {
            assert(edges@.take(i + 1).drop_last() =~= edges@.take(i as int));
            assert(edges@.take(i + 1).last() == e);
        }
        if e[0] == collapsed[0] || e[0] == collapsed[1] {
            let mut found = false;
            let mut k: usize = 0;
            while k < contained.len()
                invariant
                    0 <= k <= contained@.len(),
                    found <==> contained@.take(k as int).contains(e[1]),
                decreases contained@.len() - k,
            {
                if contained[k] == e[1] {
                    found = true;
                }
                proof {
                    let t1 = contained@.take(k + 1);
                    let t0 = contained@.take(k as int);
                    assert(t1 =~= t0.push(contained@[k as int]));
                    if t1.contains(e[1]) {
                        let p = choose|p: int| 0 <= p < t1.len() && t1[p] == e[1];
                        if p < k {
                            assert(t0[p] == e[1]);
                        }
                    }
                    if t0.contains(e[1]) {
                        let p = choose|p: int| 0 <= p < t0.len() && t0[p] == e[1];
                        assert(t1[p] == e[1]);
                    }
                    if contained@[k as int] == e[1] {
                        assert(t1[k as int] == e[1]);
                    }
                }
                k += 1;
            }
            assert(contained@.take(contained@.len() as int) =~= contained@);
            if !found {
                contained.push(e[1]);
                kept.push((i, new_edge(new_point, e[1]), true));
            }
        } else if e[1] == collapsed[0] || e[1] == collapsed[1] {
            let mut found = false;
            let mut k: usize = 0;
            while k < contained.len()
                invariant
                    0 <= k <= contained@.len(),
                    found <==> contained@.take(k as int).contains(e[0]),
                decreases contained@.len() - k,
            {
                if contained[k] == e[0] {
                    found = true;
                }
                proof {
                    let t1 = contained@.take(k + 1);
                    let t0 = contained@.take(k as int);
                    assert(t1 =~= t0.push(contained@[k as int]));
                    if t1.contains(e[0]) {
                        let p = choose|p: int| 0 <= p < t1.len() && t1[p] == e[0];
                        if p < k {
                            assert(t0[p] == e[0]);
                        }
                    }
                    if t0.contains(e[0]) {
                        let p = choose|p: int| 0 <= p < t0.len() && t0[p] == e[0];
                        assert(t1[p] == e[0]);
                    }
                    if contained@[k as int] == e[0] {
                        assert(t1[k as int] == e[0]);
                    }
                }
                k += 1;
            }
            assert(contained@.take(contained@.len() as int) =~= contained@);
            if !found {
                contained.push(e[0]);
                kept.push((i, new_edge(e[0], new_point), true));
            }
        } else {
            kept.push((i, e, false));
        }
        i += 1;
    }
    assert(edges@.take(edges@.len() as int) =~= edges@);
    kept
}

/// After a collapse the index list holds whole triangles with three different corners
/// each, and neither end of the collapsed edge any more (the new vertex is not an end).
pub proof fn law_collapse_leaves_proper_triangles(s: Seq<u32>, e: Edge, v: u32)
    requires
        s.len() % 3 == 0,
        v != e[0],
        v != e[1],
    ensures
        collapsed_list(s, e, v).len() % 3 == 0,
        forall|i: int| 0 <= i < collapsed_list(s, e, v).len() ==> !hits(#[trigger] collapsed_list(s, e, v)[i], e),
        forall|t: int| 0 <= t < collapsed_list(s, e, v).len() / 3 ==> !#[trigger] degenerate_at(collapsed_list(s, e, v), t),
    decreases s.len(),
{
    if s.len() >= 3 {
        let p = s.take(s.len() - 3);
        law_collapse_leaves_proper_triangles(p, e, v);
        let rest = collapsed_list(p, e, v);
        let r = collapsed_list(s, e, v);
        let (a, b, c) = (
            merged_vertex(s[s.len() - 3], e, v),
            merged_vertex(s[s.len() - 2], e, v),
            merged_vertex(s[s.len() - 1], e, v),
        );
        if !(a == b || a == c || b == c) {
            assert(r == rest + seq![a, b, c]);
            assert forall|t: int| 0 <= t < r.len() / 3 implies !#[trigger] degenerate_at(r, t) by {
                if t < rest.len() / 3 {
                    assert(degenerate_at(rest, t) == degenerate_at(r, t));
                } else {
                    assert(t == rest.len() / 3);
                    assert(r[3 * t] == a && r[3 * t + 1] == b && r[3 * t + 2] == c);
                }
            }
            assert forall|i: int| 0 <= i < r.len() implies !hits(#[trigger] r[i], e) by {
                if i < rest.len() {
                    assert(r[i] == rest[i]);
                }
            }
        }
    }
}

/// A collapse never lengthens the index list, and one that merges the ends of an edge
/// some triangle lies on removes at least that triangle: so rounds of collapses, each on
/// an edge of the mesh, end after at most as many rounds as the mesh has triangles.
pub proof fn law_collapse_shrinks(s: Seq<u32>, e: Edge, v: u32)
    requires
        s.len() % 3 == 0,
    ensures
        collapsed_list(s, e, v).len() <= s.len(),
        e[0] != e[1] && (exists|t: int| 0 <= t < crate::mesh::tri_count(s) && #[trigger] holds_both_ends(s, t, e))
            ==> collapsed_list(s, e, v).len() + 3 <= s.len(),
    decreases s.len(),
{
    if s.len() >= 3 {
        let p = s.take(s.len() - 3);
        let n = crate::mesh::tri_count(s);
        law_collapse_shrinks(p, e, v);
        let (a, b, c) = (
            merged_vertex(s[s.len() - 3], e, v),
            merged_vertex(s[s.len() - 2], e, v),
            merged_vertex(s[s.len() - 1], e, v),
        );
        if e[0] != e[1] && exists|t: int| 0 <= t < n && #[trigger] holds_both_ends(s, t, e) {
            let t = choose|t: int| 0 <= t < n && #[trigger] holds_both_ends(s, t, e);
            if t < n - 1 {
                assert forall|k: int| 0 <= k < 3 implies #[trigger] crate::mesh::corner(p, t, k) == crate::mesh::corner(s, t, k) by {
                    assert(p[3 * t + k] == s[3 * t + k]);
                }
                assert(holds_both_ends(p, t, e));
            } else {
                assert(s[s.len() - 3] == crate::mesh::corner(s, n - 1, 0));
                assert(s[s.len() - 2] == crate::mesh::corner(s, n - 1, 1));
                assert(s[s.len() - 1] == crate::mesh::corner(s, n - 1, 2));
                assert(a == b || a == c || b == c);
            }
        }
    }
}

/// Neither end of `e` is in `locked`.
pub open spec fn unlocked_edge(locked: Set<u32>, e: Edge) -> bool {
    !locked.contains(e[0]) && !locked.contains(e[1])
}

/// Collapse candidates stay off locked vertices: where no candidate touches a vertex of
/// `locked` and the new vertex is not locked, no candidate kept after a collapse touches
/// one either.
pub proof fn law_candidates_stay_unlocked(l: Seq<Edge>, c: Edge, v: u32, locked: Set<u32>)
    requires
        forall|i: int| 0 <= i < l.len() ==> #[trigger] unlocked_edge(locked, l[i]),
        !locked.contains(v),
    ensures
        forall|i: int| 0 <= i < candidates_walk(l, c, v).1.len() ==> #[trigger] unlocked_edge(locked, candidates_walk(l, c, v).1[i].1),
    decreases l.len(),
{
    if l.len() > 0 {
        let p = l.drop_last();
        assert forall|i: int| 0 <= i < p.len() implies #[trigger] unlocked_edge(locked, p[i]) by {
            assert(p[i] == l[i]);
        }
        law_candidates_stay_unlocked(p, c, v, locked);
        let kept = candidates_walk(l, c, v).1;
        let prev = candidates_walk(p, c, v).1;
        let met = candidates_walk(p, c, v).0;
        let e = l.last();
        assert(unlocked_edge(locked, l[l.len() - 1]));
        let i0 = (l.len() - 1) as usize;
        if hits(e[0], c) {
            if !met.contains(e[1]) {
                assert(kept == prev.push((i0, spec_edge(v, e[1]), true)));
            } else {
                assert(kept == prev);
            }
        } else if hits(e[1], c) {
            if !met.contains(e[0]) {
                assert(kept == prev.push((i0, spec_edge(e[0], v), true)));
            } else {
                assert(kept == prev);
            }
        } else {
            assert(kept == prev.push((i0, e, false)));
        }
        assert forall|i: int| 0 <= i < kept.len() implies #[trigger] unlocked_edge(locked, kept[i].1) by {
            if i < prev.len() {
                assert(kept[i] == prev[i]);
                assert(unlocked_edge(locked, prev[i].1));
            }
        }
    }
}

/// After a collapse no triangle of the set has an end of the collapsed edge as a corner
/// (the new vertex is not an end).
pub proof fn law_retargeted_tris_avoid_collapsed(tris: Set<Triangle>, e: Edge, v: u32, t: Triangle)
    requires
        v != e[0],
        v != e[1],
        retargeted_tris(tris, e, v).contains(t),
    ensures
        hit_count(t, e) == 0,
{
    if !tris.filter(|x: Triangle| hit_count(x, e) == 0).contains(t) {
        let fa = |x: Triangle| hit_count(x, e) == 1;
        let g = |x: Triangle| replacement(x, e, v);
        let y = choose|y: Triangle| tris.filter(fa).contains(y) && g(y) == t;
        crate::topology::lemma_spec_tri_sorted(v, y[0], y[1]);
        crate::topology::lemma_spec_tri_sorted(v, y[0], y[2]);
        crate::topology::lemma_spec_tri_sorted(v, y[1], y[2]);
        if hits(y[2], e) {
            assert(crate::topology::count3(e[0], t) == crate::topology::count3(e[0], [v, y[0], y[1]]));
            assert(crate::topology::count3(e[1], t) == crate::topology::count3(e[1], [v, y[0], y[1]]));
        } else if hits(y[1], e) {
            assert(crate::topology::count3(e[0], t) == crate::topology::count3(e[0], [v, y[0], y[2]]));
            assert(crate::topology::count3(e[1], t) == crate::topology::count3(e[1], [v, y[0], y[2]]));
        } else {
            assert(crate::topology::count3(e[0], t) == crate::topology::count3(e[0], [v, y[1], y[2]]));
            assert(crate::topology::count3(e[1], t) == crate::topology::count3(e[1], [v, y[1], y[2]]));
        }
    }
}

/// No index of the list is `v`.
pub open spec fn avoids_vertex(s: Seq<u32>, v: u32) -> bool {
    forall|i: int| 0 <= i < s.len() ==> #[trigger] s[i] != v
}

/// A collapsed index list holds whole triangles.
proof fn lemma_collapsed_whole(s: Seq<u32>, e: Edge, v: u32)
    ensures
        collapsed_list(s, e, v).len() % 3 == 0,
    decreases s.len(),
{
    if s.len() >= 3 {
        lemma_collapsed_whole(s.take(s.len() - 3), e, v);
    }
}

/// One more triangle at the end of an index list joins its triangle set.
proof fn lemma_triangle_set_append(r: Seq<u32>, a: u32, b: u32, c: u32)
    requires
        r.len() % 3 == 0,
    ensures
        crate::mesh::triangle_set(r + seq![a, b, c]) == crate::mesh::triangle_set(r).insert(spec_tri(a, b, c)),
{
    let q = r + seq![a, b, c];
    let n = crate::mesh::tri_count(r);
    assert(crate::mesh::tri_count(q) == n + 1);
    assert forall|t: int| 0 <= t < n implies #[trigger] crate::mesh::sorted_tri(q, t) == crate::mesh::sorted_tri(r, t) by {
        assert(q[3 * t] == r[3 * t] && q[3 * t + 1] == r[3 * t + 1] && q[3 * t + 2] == r[3 * t + 2]);
    }
    assert(q[3 * n] == a && q[3 * n + 1] == b && q[3 * n + 2] == c);
    assert(crate::mesh::sorted_tri(q, n) == spec_tri(a, b, c));
    assert forall|x: Triangle| #[trigger] crate::mesh::triangle_set(q).contains(x) == crate::mesh::triangle_set(r).insert(spec_tri(a, b, c)).contains(x) by {
        if crate::mesh::triangle_set(q).contains(x) {
            let t = choose|t: int| 0 <= t < n + 1 && #[trigger] crate::mesh::sorted_tri(q, t) == x;
            if t < n {
                assert(crate::mesh::sorted_tri(r, t) == x);
            }
        }
        if crate::mesh::triangle_set(r).contains(x) {
            let t = choose|t: int| 0 <= t < n && #[trigger] crate::mesh::sorted_tri(r, t) == x;
            assert(crate::mesh::sorted_tri(q, t) == x);
        }
    }
    assert(crate::mesh::triangle_set(q) =~= crate::mesh::triangle_set(r).insert(spec_tri(a, b, c)));
}

/// A triangle of three different corners, one of them an end of `e`, carried over to
/// the new vertex `v` is the triangle of its merged corners.
proof fn lemma_replacement_merges(a: u32, b: u32, c: u32, e: Edge, v: u32)
    requires
        a != b && b != c && a != c,
        hit_count(spec_tri(a, b, c), e) == 1,
        v != a && v != b && v != c,
    ensures
        replacement(spec_tri(a, b, c), e, v) == spec_tri(merged_vertex(a, e, v), merged_vertex(b, e, v), merged_vertex(c, e, v)),
{
    let x = spec_tri(a, b, c);
    let (a2, b2, c2) = (merged_vertex(a, e, v), merged_vertex(b, e, v), merged_vertex(c, e, v));
    let abc: Triangle = [a, b, c];
    let m: Triangle = [a2, b2, c2];
    crate::topology::lemma_spec_tri_sorted(a, b, c);
    crate::topology::lemma_spec_tri_sorted(a2, b2, c2);
    assert(crate::topology::count3(x[0], x) == crate::topology::count3(x[0], abc));
    assert(crate::topology::count3(x[1], x) == crate::topology::count3(x[1], abc));
    assert(crate::topology::count3(x[2], x) == crate::topology::count3(x[2], abc));
    assert(crate::topology::count3(a, x) == crate::topology::count3(a, abc));
    assert(crate::topology::count3(b, x) == crate::topology::count3(b, abc));
    assert(crate::topology::count3(c, x) == crate::topology::count3(c, abc));
    let (p, q) = if hits(x[2], e) {
        (x[0], x[1])
    } else if hits(x[1], e) {
        (x[0], x[2])
    } else {
        (x[1], x[2])
    };
    let vpq: Triangle = [v, p, q];
    crate::topology::lemma_spec_tri_sorted(v, p, q);
    assert forall|w: u32| #[trigger] crate::topology::count3(w, vpq) == crate::topology::count3(w, m) by {
        assert(crate::topology::count3(w, x) == crate::topology::count3(w, abc));
    }
    assert forall|w: u32| #[trigger] crate::topology::count3(w, replacement(x, e, v)) == crate::topology::count3(w, m) by {
        assert(crate::topology::count3(w, replacement(x, e, v)) == crate::topology::count3(w, vpq));
    }
    crate::topology::lemma_sorted_corners_unique(replacement(x, e, v), spec_tri(a2, b2, c2), a2, b2, c2);
}

/// Bringing the triangle set up to date after a collapse gives the triangle set of the
/// collapsed index list: the retargeted tables agree with tables built afresh. It holds
/// for index lists of whole triangles with three different corners each, and a new
/// vertex that the list does not use yet.
pub proof fn law_retarget_tris_matches_rebuild(s: Seq<u32>, e: Edge, v: u32)
    requires
        s.len() % 3 == 0,
        crate::cluster::proper_triangles(s),
        avoids_vertex(s, v),
    ensures
        retargeted_tris(crate::mesh::triangle_set(s), e, v) == crate::mesh::triangle_set(collapsed_list(s, e, v)),
    decreases s.len(),
{
    if s.len() == 0 {
        assert(crate::mesh::triangle_set(s) =~= Set::<Triangle>::empty());
        assert(collapsed_list(s, e, v) =~= Seq::<u32>::empty());
        assert(crate::mesh::triangle_set(collapsed_list(s, e, v)) =~= Set::<Triangle>::empty());
        assert(retargeted_tris(crate::mesh::triangle_set(s), e, v) =~= Set::<Triangle>::empty());
    } else {
        let p = s.take(s.len() - 3);
        let n = crate::mesh::tri_count(s);
        assert forall|t: int| 0 <= t < crate::mesh::tri_count(p) implies #[trigger] crate::mesh::corner(p, t, 0) != crate::mesh::corner(p, t, 1)
            && crate::mesh::corner(p, t, 1) != crate::mesh::corner(p, t, 2) && crate::mesh::corner(p, t, 0) != crate::mesh::corner(p, t, 2) by {
            assert(crate::mesh::corner(s, t, 0) != crate::mesh::corner(s, t, 1));
        }
        law_retarget_tris_matches_rebuild(p, e, v);
        let (a, b, c) = (s[s.len() - 3], s[s.len() - 2], s[s.len() - 1]);
        assert(crate::mesh::corner(s, n - 1, 0) != crate::mesh::corner(s, n - 1, 1));
        assert(a != b && b != c && a != c);
        assert(s =~= p + seq![a, b, c]);
        lemma_triangle_set_append(p, a, b, c);
        let x = spec_tri(a, b, c);
        let t0 = crate::mesh::triangle_set(p);
        let r0 = retargeted_tris(t0, e, v);
        let rest = collapsed_list(p, e, v);
        lemma_collapsed_whole(p, e, v);
        let (a2, b2, c2) = (merged_vertex(a, e, v), merged_vertex(b, e, v), merged_vertex(c, e, v));
        assert(v != a && v != b && v != c);
        crate::topology::lemma_spec_tri_sorted(a, b, c);
        let abc: Triangle = [a, b, c];
        assert(crate::topology::count3(e[0], x) == crate::topology::count3(e[0], abc));
        assert(crate::topology::count3(e[1], x) == crate::topology::count3(e[1], abc));
        assert(crate::topology::count3(x[0], x) == crate::topology::count3(x[0], abc));
        assert(crate::topology::count3(x[1], x) == crate::topology::count3(x[1], abc));
        assert(crate::topology::count3(x[2], x) == crate::topology::count3(x[2], abc));
        let h = hit_count(x, e);
        let fz = |y: Triangle| hit_count(y, e) == 0;
        let fo = |y: Triangle| hit_count(y, e) == 1;
        let g = |y: Triangle| replacement(y, e, v);
        if h == 0 {
            assert(a2 == a && b2 == b && c2 == c);
            assert(collapsed_list(s, e, v) == rest + seq![a, b, c]);
            lemma_triangle_set_append(rest, a, b, c);
            assert forall|y: Triangle| #[trigger] retargeted_tris(t0.insert(x), e, v).contains(y) == r0.insert(x).contains(y) by {
                if t0.insert(x).filter(fo).map(g).contains(y) {
                    let z = choose|z: Triangle| t0.insert(x).filter(fo).contains(z) && g(z) == y;
                    assert(t0.filter(fo).contains(z));
                }
                if t0.filter(fo).map(g).contains(y) {
                    let z = choose|z: Triangle| t0.filter(fo).contains(z) && g(z) == y;
                    assert(t0.insert(x).filter(fo).contains(z));
                }
            }
            assert(retargeted_tris(t0.insert(x), e, v) =~= r0.insert(x));
        } else if h == 1 {
            lemma_replacement_merges(a, b, c, e, v);
            assert(!(a2 == b2 || a2 == c2 || b2 == c2));
            assert(collapsed_list(s, e, v) == rest + seq![a2, b2, c2]);
            lemma_triangle_set_append(rest, a2, b2, c2);
            let y2 = replacement(x, e, v);
            assert forall|y: Triangle| #[trigger] retargeted_tris(t0.insert(x), e, v).contains(y) == r0.insert(y2).contains(y) by {
                if t0.insert(x).filter(fo).map(g).contains(y) {
                    let z = choose|z: Triangle| t0.insert(x).filter(fo).contains(z) && g(z) == y;
                    if z != x {
                        assert(t0.filter(fo).contains(z));
                    }
                }
                if t0.filter(fo).map(g).contains(y) {
                    let z = choose|z: Triangle| t0.filter(fo).contains(z) && g(z) == y;
                    assert(t0.insert(x).filter(fo).contains(z));
                }
                if y == y2 {
                    assert(t0.insert(x).filter(fo).contains(x));
                }
            }
            assert(retargeted_tris(t0.insert(x), e, v) =~= r0.insert(y2));
        } else {
            assert(a2 == b2 || a2 == c2 || b2 == c2);
            assert(collapsed_list(s, e, v) == rest);
            assert forall|y: Triangle| #[trigger] retargeted_tris(t0.insert(x), e, v).contains(y) == r0.contains(y) by {
                if t0.insert(x).filter(fo).map(g).contains(y) {
                    let z = choose|z: Triangle| t0.insert(x).filter(fo).contains(z) && g(z) == y;
                    assert(t0.filter(fo).contains(z));
                }
                if t0.filter(fo).map(g).contains(y) {
                    let z = choose|z: Triangle| t0.filter(fo).contains(z) && g(z) == y;
                    assert(t0.insert(x).filter(fo).contains(z));
                }
            }
            assert(retargeted_tris(t0.insert(x), e, v) =~= r0);
        }
    }
}

/// The tables that edge-collapse simplification keeps up to date for a mesh piece: the
/// index list, each vertex's neighbours, the triangle set, the edge table and each
/// vertex's opposite edges.
pub struct CollapseTables {
    pub indices: Vec<u32>,
    pub vertices: HashMap<u32, Vec<u32>>,
    pub tris: TriSet,
    pub edges: EdgeMap<[u32; 2]>,
    pub tri_dict: HashMap<u32, Vec<Edge>>,
}

/// Tells whether the neighbour table is ready for the collapse of `c` (see
/// `vertices_ready`).
pub fn check_vertices_ready(m: &HashMap<u32, Vec<u32>>, c: Edge) -> (b: bool)
    ensures
        b == vertices_ready(m@, c),
{
    let l0 = match m.get(&c[0]) {
        Some(l) => l,
        None => return false,
    };
    let l1 = match m.get(&c[1]) {
        Some(l) => l,
        None => return false,
    };
    let mut i: usize = 0;
    while i < l0.len()
        invariant
            0 <= i <= l0@.len(),
            l0@ == m@[c[0]]@,
            forall|j: int| 0 <= j < i ==> m@.contains_key(#[trigger] l0@[j]),
        decreases l0@.len() - i,
    {
        if !m.contains_key(&l0[i]) {
            assert(around(m@, c).contains(l0@[i as int]));
            return false;
        }
        i += 1;
    }
    let mut k: usize = 0;
    while k < l1.len()
        invariant
            0 <= k <= l1@.len(),
            l1@ == m@[c[1]]@,
            forall|j: int| 0 <= j < k ==> m@.contains_key(#[trigger] l1@[j]),
        decreases l1@.len() - k,
    {
        if !m.contains_key(&l1[k]) {
            assert(around(m@, c).contains(l1@[k as int]));
            return false;
        }
        k += 1;
    }
    assert forall|x: u32| #[trigger] around(m@, c).contains(x) implies m@.contains_key(x) by {
        if l0@.contains(x) {
            let j = choose|j: int| 0 <= j < l0@.len() && l0@[j] == x;
            assert(m@.contains_key(l0@[j]));
        } else {
            let j = choose|j: int| 0 <= j < l1@.len() && l1@[j] == x;
            assert(m@.contains_key(l1@[j]));
        }
    }
    true
}

/// Merges the ends of `collapsed` into the new vertex `new_point` and brings every table
/// up to date: the index list (see `collapse_indices`), the edge table (see
/// `retarget_edges`), the triangle set (see `retarget_tris`), the neighbour table (see
/// `retarget_vertices`) and the opposite-edge table (see `retarget_tri_dict`). Fails,
/// with the tables part-way, where the neighbour table is not ready for the collapse or
/// the opposite-edge table cannot follow it.
pub fn collapse_edge(t: &mut CollapseTables, collapsed: Edge, new_point: u32) -> (r: Result<(), SimplifyError>)
    requires
        old(t).indices@.len() % 3 == 0,
    ensures
        final(t).indices@ == collapsed_list(old(t).indices@, collapsed, new_point),
        final(t).tris@ == retargeted_tris(old(t).tris@, collapsed, new_point),
        exists|order: Seq<Edge>|
            order.to_set() == old(t).edges@.dom().remove(collapsed) && order.no_duplicates()
                && final(t).edges@ == store_all(
                kept_table(old(t).edges@, collapsed, new_point),
                moved_entries(order, old(t).edges@, collapsed, new_point),
            ),
        r is Ok <==> vertices_ready(old(t).vertices@, collapsed) && retargeted_dict(edge_lists(old(t).tri_dict@), collapsed, new_point) is Some,
        !vertices_ready(old(t).vertices@, collapsed) ==> r == Err::<(), SimplifyError>(SimplifyError::MissingVertex)
            && final(t).vertices@ == old(t).vertices@ && final(t).tri_dict@ == old(t).tri_dict@,
        vertices_ready(old(t).vertices@, collapsed) ==> vertices_retargeted(old(t).vertices@, final(t).vertices@, collapsed, new_point),
        r is Ok ==> edge_lists(final(t).tri_dict@) == retargeted_dict(edge_lists(old(t).tri_dict@), collapsed, new_point).unwrap(),
        final(t).indices@.len() % 3 == 0,
        final(t).indices@.len() <= old(t).indices@.len(),
        new_point != collapsed[0] && new_point != collapsed[1] ==> {
            &&& forall|q: int| 0 <= q < final(t).indices@.len() / 3 ==> !#[trigger] degenerate_at(final(t).indices@, q)
            &&& forall|i: int| 0 <= i < final(t).indices@.len() ==> !hits(#[trigger] final(t).indices@[i], collapsed)
            &&& forall|x: Triangle| #[trigger] final(t).tris@.contains(x) ==> hit_count(x, collapsed) == 0
            &&& r is Ok ==> !final(t).tri_dict@.contains_key(collapsed[0]) && !final(t).tri_dict@.contains_key(collapsed[1])
                && final(t).tri_dict@.contains_key(new_point)
        },
        new_point != collapsed[0] && new_point != collapsed[1] && collapsed[0] != u32::MAX && collapsed[1] != u32::MAX
            && (forall|k: Edge| #[trigger] old(t).edges@.contains_key(k) ==> k[0] != new_point && k[1] != new_point)
            ==> forall|k: Edge| #[trigger] final(t).edges@.contains_key(k) ==> !hits(k[0], collapsed) && !hits(k[1], collapsed)
            && sides_clear(final(t).edges@[k], collapsed),
{
    proof {
        law_collapse_shrinks(t.indices@, collapsed, new_point);
        if new_point != collapsed[0] && new_point != collapsed[1] {
            law_collapse_leaves_proper_triangles(t.indices@, collapsed, new_point);
        }
        lemma_collapsed_whole(t.indices@, collapsed, new_point);
    }
    let ghost tris0 = t.tris@;
    collapse_indices(&mut t.indices, collapsed, new_point);
    retarget_edges(&mut t.edges, collapsed, new_point);
    retarget_tris(&mut t.tris, collapsed, new_point);
    proof {
        if new_point != collapsed[0] && new_point != collapsed[1] {
            assert forall|x: Triangle| #[trigger] t.tris@.contains(x) implies hit_count(x, collapsed) == 0 by {
                law_retargeted_tris_avoid_collapsed(tris0, collapsed, new_point, x);
            }
        }
    }
    if !check_vertices_ready(&t.vertices, collapsed) {
        return Err(SimplifyError::MissingVertex);
    }
    retarget_vertices(&mut t.vertices, collapsed, new_point);
    retarget_tri_dict(&mut t.tri_dict, collapsed, new_point)
}

/// Builds the collapse tables of a mesh piece from its index list (see
/// `generate_data_structures` and `build_tri_dict`).
pub fn collapse_tables(indices: &Vec<u32>) -> (t: CollapseTables)
    ensures
        t.indices@ == indices@,
        t.tris@ == crate::mesh::triangle_set(indices@),
        t.edges@ == crate::mesh::edge_table(indices@, crate::mesh::tri_count(indices@)),
        forall|v: u32| #[trigger] t.vertices@.contains_key(v) <==> crate::mesh::used_vertex(indices@, crate::mesh::tri_count(indices@), v),
        forall|v: u32| #[trigger] t.vertices@.contains_key(v) ==> crate::mesh::strictly_ascending(t.vertices@[v]@)
            && t.vertices@[v]@.to_set() == crate::mesh::neighbours(indices@, crate::mesh::tri_count(indices@), v),
        exists|order: Seq<Triangle>| order.to_set() == t.tris@ && order.no_duplicates() && edge_lists(t.tri_dict@) == opposite_lists(order),
{
    let (edges, tris, vertices, _maps) = crate::mesh::generate_data_structures(indices);
    let tri_dict = build_tri_dict(&tris);
    let mut own: Vec<u32> = Vec::new();
    let mut i: usize = 0;
    while i < indices.len()
        invariant
            0 <= i <= indices@.len(),
            own@ == indices@.take(i as int),
        decreases indices@.len() - i,
    {
        own.push(indices[i]);
        i += 1;
        assert(own@ =~= indices@.take(i as int));
    }
    assert(indices@.take(indices@.len() as int) =~= indices@);
    CollapseTables { indices: own, vertices, tris, edges, tri_dict }
}

/// What the simplification loop does next.
#[derive(Debug, Clone, Copy, PartialEq, Eq)]
pub enum CollapseStep {
    /// The mesh holds no more than the target number of triangles: simplification ends.
    Reached,
    /// Triangles are to go but no edge is a candidate.
    NoCandidate,
    /// Triangles are to go but no candidate passes the test.
    NonePasses,
    /// The candidate at this place, the first that passes, collapses next.
    Collapse(usize),
}

/// The answer the candidate test gives for place `i`.
pub open spec fn test_answer<P: Fn(usize) -> bool>(p: P, i: usize) -> bool {
    choose|b: bool| call_ensures(p, (i,), b)
}

/// The candidate test can be asked about any place and answers the same each time.
pub open spec fn steady_test<P: Fn(usize) -> bool>(p: P) -> bool {
    &&& forall|i: usize| #[trigger] call_requires(p, (i,))
    &&& forall|i: usize, b1: bool, b2: bool|
        #[trigger] call_ensures(p, (i,), b1) && #[trigger] call_ensures(p, (i,), b2) ==> b1 == b2
}

/// Decides the next step of simplification towards `target_tris` triangles: stop once
/// the index list holds no more than that; otherwise collapse the first of the
/// `candidates` places (in the caller's order) that `passes`.
pub fn choose_collapse<P: Fn(usize) -> bool>(t: &CollapseTables, target_tris: u32, candidates: usize, passes: &P) -> (r: CollapseStep)
    requires
        3 * target_tris <= u32::MAX,
        steady_test(*passes),
    ensures
        r == CollapseStep::Reached <==> t.indices@.len() <= 3 * target_tris,
        r == CollapseStep::NoCandidate <==> t.indices@.len() > 3 * target_tris && candidates == 0,
        r == CollapseStep::NonePasses <==> t.indices@.len() > 3 * target_tris && candidates > 0 && forall|i: usize|
            i < candidates ==> !#[trigger] test_answer(*passes, i),
        r matches CollapseStep::Collapse(i) ==> {
            &&& t.indices@.len() > 3 * target_tris
            &&& i < candidates
            &&& test_answer(*passes, i)
            &&& forall|j: usize| j < i ==> !#[trigger] test_answer(*passes, j)
        },
{
    let limit: usize = (target_tris * 3) as usize;
    if t.indices.len() <= limit {
        return CollapseStep::Reached;
    }
    if candidates == 0 {
        return CollapseStep::NoCandidate;
    }
    let mut idx: usize = 0;
    while idx < candidates
        invariant
            idx <= candidates,
            candidates > 0,
            t.indices@.len() > 3 * target_tris,
            steady_test(*passes),
            forall|j: usize| j < idx ==> !#[trigger] test_answer(*passes, j),
        decreases candidates - idx,
    {
        let b = passes(idx);
        proof {
            assert(call_ensures(*passes, (idx,), test_answer(*passes, idx)));
        }
        if b {
            return CollapseStep::Collapse(idx);
        }
        idx += 1;
    }
    CollapseStep::NonePasses
}

/// Whether the two ends of `e` share at most two neighbours (a collapse there keeps the
/// surface simple); `None` where an end has no neighbour list.
pub fn shares_few_neighbours(m: &HashMap<u32, Vec<u32>>, e: Edge) -> (r: Option<bool>)
    ensures
        r is None <==> !(m@.contains_key(e[0]) && m@.contains_key(e[1])),
        r matches Some(b) ==> b == (m@[e[0]]@.to_set().intersect(m@[e[1]]@.to_set()).len() <= 2),
{
    let a = match m.get(&e[0]) {
        Some(l) => l,
        None => return None,
    };
    let b = match m.get(&e[1]) {
        Some(l) => l,
        None => return None,
    };
    Some(sorted_vec_intersection_count(a, b) <= 2)
}

} // verus!
