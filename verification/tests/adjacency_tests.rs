use clustermesh::adjacency::{
    build_adjacency_graph, cluster_seeds, insert, intersect, triangles_from_indices, TriangleNode,
};
use clustermesh::fold::EdgeSet;
use std::hash::Hash;

fn map_get<K: Eq + Hash, V: Copy>(m: &foldhash::HashMap<K, V>, k: &K) -> Option<V> {
    m.get(k).copied()
}

fn set_contains<K: Eq + Hash>(s: &foldhash::HashSet<K>, k: &K) -> bool {
    s.contains(k)
}

fn set_elements<K: Copy>(s: &foldhash::HashSet<K>) -> Vec<K> {
    s.iter().copied().collect()
}

fn set_insert<K: Eq + Hash>(s: &mut foldhash::HashSet<K>, k: K) -> bool {
    s.insert(k)
}

fn set_new<K>() -> foldhash::HashSet<K> {
    <foldhash::HashSet<K> as foldhash::HashSetExt>::new()
}

fn set_of(edges: &[[u32; 2]]) -> EdgeSet {
    let mut s = set_new();
    for e in edges {
        set_insert(&mut s, *e);
    }
    s
}

fn sorted(s: &EdgeSet) -> Vec<[u32; 2]> {
    let mut v = set_elements(s);
    v.sort();
    v
}

fn node(idxs: [u32; 3]) -> TriangleNode {
    TriangleNode { idx: 0, owned_by: usize::MAX, connections: [usize::MAX; 3], idxs }
}

#[test]
fn insert_adds_reversed_edges_of_a_lone_triangle() {
    let mut s = set_new();
    insert(&mut s, &node([0, 1, 2]));
    assert_eq!(sorted(&s), vec![[0, 2], [1, 0], [2, 1]]);
}

#[test]
fn insert_toggles_each_reversed_edge() {
    let mut s = set_new();
    insert(&mut s, &node([0, 1, 2]));
    // the reversed edges of [2, 1, 3] are 1->2, 3->1, 2->3: none is in the set yet
    insert(&mut s, &node([2, 1, 3]));
    assert_eq!(sorted(&s), vec![[0, 2], [1, 0], [1, 2], [2, 1], [2, 3], [3, 1]]);
    // an edge already present leaves the set
    let mut t = set_of(&[[1, 0], [9, 9]]);
    insert(&mut t, &node([0, 1, 2]));
    assert_eq!(sorted(&t), vec![[0, 2], [2, 1], [9, 9]]);
    assert!(!set_contains(&t, &[1, 0]));
}

#[test]
fn insert_twice_restores_the_border() {
    let mut s = set_of(&[[5, 6], [1, 0]]);
    let before = sorted(&s);
    let t = node([0, 1, 2]);
    insert(&mut s, &t);
    insert(&mut s, &t);
    assert_eq!(sorted(&s), before);
}

#[test]
fn intersect_cancels_opposite_edges_and_adds_the_rest() {
    let mut a = set_of(&[[0, 1], [1, 2], [2, 0]]);
    let b = set_of(&[[1, 0], [1, 3], [3, 0]]);
    intersect(&mut a, &b);
    assert_eq!(sorted(&a), vec![[1, 2], [1, 3], [2, 0], [3, 0]]);
}

#[test]
fn intersect_with_empty_changes_nothing() {
    let mut a = set_of(&[[0, 1], [4, 2]]);
    let b = set_new();
    intersect(&mut a, &b);
    assert_eq!(sorted(&a), vec![[0, 1], [4, 2]]);
}

#[test]
fn triangles_from_indices_reads_triples() {
    let tris = triangles_from_indices(&[0, 1, 2, 2, 1, 3]);
    assert_eq!(tris.len(), 2);
    assert_eq!(tris[0].idxs, [0, 1, 2]);
    assert_eq!(tris[1].idxs, [2, 1, 3]);
    assert_eq!(tris[1].idx, 1);
    assert_eq!(tris[0].owned_by, usize::MAX);
    assert_eq!(tris[1].connections, [usize::MAX; 3]);
}

#[test]
fn adjacency_links_neighbours_across_shared_edges() {
    let indices = [0u32, 1, 2, 2, 1, 3];
    let mut tris = triangles_from_indices(&indices);
    let g = build_adjacency_graph(&mut tris, &indices);
    assert_eq!(map_get(&g, &[0, 1]), Some(0));
    assert_eq!(map_get(&g, &[1, 2]), Some(0));
    assert_eq!(map_get(&g, &[2, 0]), Some(0));
    assert_eq!(map_get(&g, &[2, 1]), Some(1));
    assert_eq!(map_get(&g, &[1, 3]), Some(1));
    assert_eq!(map_get(&g, &[3, 2]), Some(1));
    assert_eq!(map_get(&g, &[1, 0]), None);
    // triangle 0: the edge starting at corner 1 (1 -> 2) faces triangle 1
    assert_eq!(tris[0].connections, [usize::MAX, 1, usize::MAX]);
    // triangle 1: the edge starting at corner 0 (2 -> 1) faces triangle 0
    assert_eq!(tris[1].connections, [0, usize::MAX, usize::MAX]);
}

#[test]
fn adjacency_of_a_closed_tetrahedron_links_every_edge() {
    let indices = [0u32, 1, 2, 0, 2, 3, 0, 3, 1, 1, 3, 2];
    let mut tris = triangles_from_indices(&indices);
    build_adjacency_graph(&mut tris, &indices);
    for (t, tri) in tris.iter().enumerate() {
        for k in 0..3 {
            let s = tri.connections[k];
            assert!(s != usize::MAX && s != t);
            assert!(tris[s].connections.contains(&t));
        }
    }
}

#[test]
fn cluster_seeds_are_every_step_th_triangle() {
    assert_eq!(cluster_seeds(10, 4), vec![0, 4, 8]);
    assert_eq!(cluster_seeds(8, 4), vec![0, 4]);
    assert_eq!(cluster_seeds(0, 4), Vec::<usize>::new());
    assert_eq!(cluster_seeds(3, 1), vec![0, 1, 2]);
}
