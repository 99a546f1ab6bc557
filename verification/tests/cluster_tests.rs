use clustermesh::cluster::{
    boundary_edges, closest_triangle, find_order_accurate_tri, get_order_accurate_tri,
    next_seed, remove_tri, shared_count, shared_edges, split_mesh, SplitError, TempCluster,
};
use clustermesh::fold::EdgeSet;
use std::hash::Hash;
use clustermesh::mesh::{generate_data_structures, TempMesh};

fn map_get<K: Eq + Hash, V: Copy>(m: &foldhash::HashMap<K, V>, k: &K) -> Option<V> {
    m.get(k).copied()
}

fn map_insert<K: Eq + Hash, V>(m: &mut foldhash::HashMap<K, V>, k: K, v: V) -> Option<V> {
    m.insert(k, v)
}

fn map_new<K, V>() -> foldhash::HashMap<K, V> {
    <foldhash::HashMap<K, V> as foldhash::HashMapExt>::new()
}

fn set_contains<K: Eq + Hash>(s: &foldhash::HashSet<K>, k: &K) -> bool {
    s.contains(k)
}

fn set_elements<K: Copy>(s: &foldhash::HashSet<K>) -> Vec<K> {
    s.iter().copied().collect()
}

fn set_insert<K: Eq + Hash>(s: &mut foldhash::HashSet<K>, k: K) -> bool {
    s.insert(k)
}

fn set_new<K>() -> foldhash::HashSet<K> {
    <foldhash::HashSet<K> as foldhash::HashSetExt>::new()
}

fn set_of(edges: &[[u32; 2]]) -> EdgeSet {
    let mut s = set_new();
    for e in edges {
        set_insert(&mut s, *e);
    }
    s
}

fn sorted(s: &EdgeSet) -> Vec<[u32; 2]> {
    let mut v = set_elements(s);
    v.sort();
    v
}

const QUAD: [u32; 6] = [0, 1, 2, 2, 1, 3];

#[test]
fn remove_tri_takes_a_triangle_out_of_the_tables() {
    let (mut edges, mut tris, _, _) = generate_data_structures(&QUAD.to_vec());
    let mut overall = set_new();
    let mut cur = set_new();
    remove_tri(&[0, 1, 2], &mut tris, &mut edges, &mut overall, &mut cur);
    assert!(!set_contains(&tris, &[0, 1, 2]));
    assert!(set_contains(&tris, &[1, 2, 3]));
    assert_eq!(map_get(&edges, &[0, 1]), None);
    assert_eq!(map_get(&edges, &[0, 2]), None);
    assert_eq!(map_get(&edges, &[1, 2]), Some([3, u32::MAX]));
    assert_eq!(map_get(&edges, &[2, 3]), Some([1, u32::MAX]));
    assert_eq!(sorted(&cur), vec![[1, 2]]);
    assert!(sorted(&overall).is_empty());
}

#[test]
fn remove_tri_keeps_edges_of_the_overall_border() {
    let (mut edges, mut tris, _, _) = generate_data_structures(&QUAD.to_vec());
    let mut overall = set_of(&[[0, 1]]);
    let mut cur = set_new();
    remove_tri(&[0, 1, 2], &mut tris, &mut edges, &mut overall, &mut cur);
    assert_eq!(sorted(&cur), vec![[0, 1], [1, 2]]);
    assert_eq!(sorted(&overall), vec![[0, 1]]);
}

#[test]
fn get_order_accurate_tri_finds_the_mesh_triangle() {
    let (_, _, _, (vertex_map, tri_list)) = generate_data_structures(&QUAD.to_vec());
    assert_eq!(get_order_accurate_tri(&vertex_map, &tri_list, &[1, 2, 3]), [1, 2, 3]);
    assert_eq!(get_order_accurate_tri(&vertex_map, &tri_list, &[0, 1, 2]), [0, 1, 2]);
}

#[test]
fn find_order_accurate_tri_reports_missing_triangles() {
    let (_, _, _, (vertex_map, tri_list)) = generate_data_structures(&QUAD.to_vec());
    assert_eq!(find_order_accurate_tri(&vertex_map, &tri_list, &[0, 1, 3]), None);
    assert_eq!(find_order_accurate_tri(&vertex_map, &tri_list, &[0, 9, 1]), None);
    assert_eq!(find_order_accurate_tri(&vertex_map, &tri_list, &[2, 1, 3]), Some([1, 2, 3]));
}

#[test]
fn boundary_edges_of_a_quad() {
    let (edges, _, _, _) = generate_data_structures(&QUAD.to_vec());
    assert_eq!(sorted(&boundary_edges(&edges)), vec![[0, 1], [0, 2], [1, 3], [2, 3]]);
}

#[test]
fn shared_count_counts_common_edges() {
    let a = set_of(&[[0, 1], [1, 2], [2, 3]]);
    let b = set_of(&[[1, 2], [2, 3], [5, 6]]);
    assert_eq!(shared_count(&a, &b), 2);
    assert_eq!(shared_count(&a, &set_new()), 0);
}

fn cluster(cut: &[[u32; 2]]) -> TempCluster {
    TempCluster { mesh: TempMesh { indices: vec![] }, cut: set_of(cut) }
}

#[test]
fn shared_edges_ranks_neighbours() {
    let clusters = vec![
        cluster(&[[0, 1], [1, 2], [2, 3], [7, 8]]),
        cluster(&[[0, 1], [9, 9]]),
        cluster(&[[1, 2], [2, 3]]),
        cluster(&[[4, 4]]),
    ];
    let shared = shared_edges(&clusters);
    assert_eq!(shared.len(), 4);
    assert_eq!(shared[&0], vec![(2, 2), (1, 1)]);
    assert_eq!(shared[&1], vec![(0, 1)]);
    assert_eq!(shared[&2], vec![(0, 2)]);
    assert_eq!(shared[&3], vec![]);
}

#[test]
fn shared_edges_breaks_ties_by_cluster_number() {
    let clusters = vec![cluster(&[[0, 1], [1, 2]]), cluster(&[[1, 2]]), cluster(&[[0, 1]])];
    let shared = shared_edges(&clusters);
    assert_eq!(shared[&0], vec![(1, 1), (2, 1)]);
}

#[test]
fn closest_triangle_takes_the_nearest_far_side() {
    let mut edges = map_new();
    map_insert(&mut edges, [1, 2], [3, u32::MAX]);
    map_insert(&mut edges, [2, 5], [7, 6]);
    map_insert(&mut edges, [8, 9], [4, 0]);
    let cut = set_of(&[[1, 2], [2, 5], [0, 0]]);
    let dist = |v: u32, _t: [u32; 3]| v * 10;
    // edge [1,2]: far side 3 at 30; edge [2,5]: sides 70 and 60, far side 7 at 70
    assert_eq!(closest_triangle(&cut, &edges, &dist, [0, 1, 2]), Ok(Some([1, 2, 3])));
    let far_only = set_of(&[[2, 5]]);
    assert_eq!(closest_triangle(&far_only, &edges, &dist, [0, 1, 2]), Ok(Some([2, 5, 7])));
    assert_eq!(closest_triangle(&set_new(), &edges, &dist, [0, 1, 2]), Ok(None));
}

#[test]
fn closest_triangle_skips_out_of_reach_and_empty_sides() {
    let mut edges = map_new();
    map_insert(&mut edges, [1, 2], [3, u32::MAX]);
    map_insert(&mut edges, [4, 5], [u32::MAX, u32::MAX]);
    let cut = set_of(&[[1, 2], [4, 5]]);
    let far = |_v: u32, _t: [u32; 3]| 0x7f80_0000u32;
    assert_eq!(closest_triangle(&cut, &edges, &far, [0, 1, 2]), Ok(None));
    let zero = |_v: u32, _t: [u32; 3]| 0u32;
    assert_eq!(closest_triangle(&cut, &edges, &zero, [0, 1, 2]), Ok(None));
}

#[test]
fn closest_triangle_stops_on_a_tie() {
    let mut edges = map_new();
    map_insert(&mut edges, [1, 2], [3, 4]);
    let cut = set_of(&[[1, 2]]);
    let same = |_v: u32, _t: [u32; 3]| 7u32;
    assert_eq!(closest_triangle(&cut, &edges, &same, [0, 1, 2]), Err(SplitError::Equidistant));
}

#[test]
fn next_seed_starts_across_the_border() {
    let mut edges = map_new();
    map_insert(&mut edges, [1, 2], [3, u32::MAX]);
    assert_eq!(next_seed(&set_of(&[[1, 2]]), &edges, [9, 9, 9]), Ok([1, 2, 3]));
    assert_eq!(next_seed(&set_new(), &edges, [9, 9, 9]), Ok([9, 9, 9]));
    assert_eq!(next_seed(&set_of(&[[5, 6]]), &edges, [9, 9, 9]), Ok([9, 9, 9]));
    let mut open = map_new();
    map_insert(&mut open, [1, 2], [u32::MAX, u32::MAX]);
    assert_eq!(next_seed(&set_of(&[[1, 2]]), &open, [9, 9, 9]), Err(SplitError::OpenSeedEdge));
    let mut second = map_new();
    map_insert(&mut second, [1, 2], [u32::MAX, 4]);
    assert_eq!(next_seed(&set_of(&[[1, 2]]), &second, [9, 9, 9]), Ok([1, 2, 4]));
}

#[test]
fn next_seed_prefers_a_triangle_with_two_border_edges() {
    let mut edges = map_new();
    map_insert(&mut edges, [1, 2], [3, u32::MAX]);
    map_insert(&mut edges, [5, 6], [7, u32::MAX]);
    // [5,6] -> [5,6,7] has the second border edge [5,7]
    let overall = set_of(&[[1, 2], [5, 6], [5, 7]]);
    assert_eq!(next_seed(&overall, &edges, [9, 9, 9]), Ok([5, 6, 7]));
}

fn triangles_of(clusters: &[TempCluster]) -> Vec<[u32; 3]> {
    let mut all = Vec::new();
    for c in clusters {
        for t in c.mesh.indices.chunks(3) {
            all.push([t[0], t[1], t[2]]);
        }
    }
    all.sort();
    all
}

#[test]
fn split_mesh_one_triangle_per_cluster() {
    let dist = |v: u32, _t: [u32; 3]| v + 1;
    let (shared, clusters, mesh_edge) = split_mesh(&QUAD.to_vec(), 1, &dist).unwrap();
    assert_eq!(clusters.len(), 2);
    assert_eq!(triangles_of(&clusters), vec![[0, 1, 2], [1, 2, 3]]);
    assert_eq!(sorted(&mesh_edge), vec![[0, 1], [0, 2], [1, 3], [2, 3]]);
    assert_eq!(shared[&0], vec![(1, 1)]);
    assert_eq!(shared[&1], vec![(0, 1)]);
}

#[test]
fn split_mesh_grows_a_cluster_over_the_quad() {
    let dist = |v: u32, _t: [u32; 3]| v + 1;
    let (shared, clusters, _) = split_mesh(&QUAD.to_vec(), 4, &dist).unwrap();
    assert_eq!(clusters.len(), 1);
    assert_eq!(triangles_of(&clusters), vec![[0, 1, 2], [1, 2, 3]]);
    assert_eq!(shared[&0], vec![]);
}

#[test]
fn split_mesh_of_an_empty_mesh_fails() {
    let dist = |v: u32, _t: [u32; 3]| v;
    assert!(matches!(split_mesh(&vec![], 4, &dist), Err(SplitError::EmptyMesh)));
}

/// A 3 x 3 grid of vertices, two triangles per cell, wound alike.
fn grid() -> Vec<u32> {
    let mut indices = Vec::new();
    for r in 0..2u32 {
        for c in 0..2u32 {
            let v = 3 * r + c;
            indices.extend_from_slice(&[v, v + 1, v + 3, v + 1, v + 4, v + 3]);
        }
    }
    indices
}

fn mesh_triangles(indices: &[u32]) -> Vec<[u32; 3]> {
    let mut all: Vec<[u32; 3]> = indices
        .chunks(3)
        .map(|t| {
            let mut s = [t[0], t[1], t[2]];
            s.sort();
            s
        })
        .collect();
    all.sort();
    all
}

#[test]
fn split_mesh_puts_every_triangle_of_a_grid_into_one_cluster_once() {
    let dist = |v: u32, _t: [u32; 3]| v + 1;
    let indices = grid();
    let (shared, clusters, mesh_edge) = split_mesh(&indices, 8, &dist).unwrap();
    assert_eq!(clusters.len(), 1);
    assert_eq!(triangles_of(&clusters), mesh_triangles(&indices));
    assert_eq!(shared[&0], vec![]);
    assert_eq!(mesh_edge.len(), 8);
}

#[test]
fn split_mesh_stops_where_the_mesh_falls_apart() {
    let dist = |v: u32, _t: [u32; 3]| v + 1;
    let two_pieces = vec![0, 1, 2, 3, 4, 5];
    assert!(matches!(split_mesh(&two_pieces, 4, &dist), Err(SplitError::SeedMissing)));
}

#[test]
fn split_mesh_of_one_triangle_succeeds() {
    let dist = |v: u32, _t: [u32; 3]| v + 1;
    let (shared, clusters, mesh_edge) = split_mesh(&vec![4, 7, 2], 128, &dist).unwrap();
    assert_eq!(clusters.len(), 1);
    assert_eq!(triangles_of(&clusters), vec![[2, 4, 7]]);
    assert_eq!(shared[&0], vec![]);
    assert_eq!(mesh_edge.len(), 3);
}

#[test]
fn closest_triangle_stops_on_a_nan_key() {
    let mut edges = map_new();
    map_insert(&mut edges, [1, 2], [3, u32::MAX]);
    let cut = set_of(&[[1, 2]]);
    let nan = |_v: u32, _t: [u32; 3]| f32::NAN.to_bits();
    assert_eq!(closest_triangle(&cut, &edges, &nan, [0, 1, 2]), Err(SplitError::Equidistant));
}

#[test]
fn split_mesh_of_one_triangle_with_the_largest_corner_succeeds() {
    let dist = |v: u32, _t: [u32; 3]| v / 2 + 1;
    let (_, clusters, _) = split_mesh(&vec![0, 1, u32::MAX], 4, &dist).unwrap();
    assert_eq!(triangles_of(&clusters), vec![[0, 1, u32::MAX]]);
}
