use clustermesh::simplify::{choose_collapse, collapse_tables, shares_few_neighbours, CollapseStep};
use clustermesh::fold::{EdgeSet, TriSet};
use std::hash::Hash;
use clustermesh::mesh::generate_data_structures;
use clustermesh::simplify::{
    build_tri_dict, collapse_indices, collapsible_edges, retarget_collapsible, retarget_edges,
    retarget_tri_dict, retarget_tris, retarget_vertices, sorted_vec_intersection_count,
    SimplifyError,
};
use std::collections::HashMap;

fn map_get<K: Eq + Hash, V: Copy>(m: &foldhash::HashMap<K, V>, k: &K) -> Option<V> {
    m.get(k).copied()
}

fn map_insert<K: Eq + Hash, V>(m: &mut foldhash::HashMap<K, V>, k: K, v: V) -> Option<V> {
    m.insert(k, v)
}

fn map_keys<K: Copy, V>(m: &foldhash::HashMap<K, V>) -> Vec<K> {
    m.keys().copied().collect()
}

fn map_new<K, V>() -> foldhash::HashMap<K, V> {
    <foldhash::HashMap<K, V> as foldhash::HashMapExt>::new()
}

fn set_contains<K: Eq + Hash>(s: &foldhash::HashSet<K>, k: &K) -> bool {
    s.contains(k)
}

fn set_elements<K: Copy>(s: &foldhash::HashSet<K>) -> Vec<K> {
    s.iter().copied().collect()
}

fn set_insert<K: Eq + Hash>(s: &mut foldhash::HashSet<K>, k: K) -> bool {
    s.insert(k)
}

fn set_new<K>() -> foldhash::HashSet<K> {
    <foldhash::HashSet<K> as foldhash::HashSetExt>::new()
}

const QUAD: [u32; 6] = [0, 1, 2, 2, 1, 3];

#[test]
fn collapse_indices_drops_triangles_on_the_edge() {
    let mut indices = vec![0u32, 1, 2, 1, 2, 3, 3, 4, 5];
    collapse_indices(&mut indices, [1, 2], 9);
    assert_eq!(indices, vec![3, 4, 5]);
    let mut other = vec![0u32, 1, 4, 2, 5, 6];
    collapse_indices(&mut other, [1, 2], 9);
    assert_eq!(other, vec![0, 9, 4, 9, 5, 6]);
    let mut empty: Vec<u32> = vec![];
    collapse_indices(&mut empty, [1, 2], 9);
    assert!(empty.is_empty());
}

#[test]
fn retarget_tris_moves_triangles_to_the_new_vertex() {
    let mut tris: TriSet = set_new();
    for t in [[0, 1, 2], [1, 2, 3], [0, 1, 4], [5, 6, 7]] {
        set_insert(&mut tris, t);
    }
    retarget_tris(&mut tris, [1, 2], 9);
    let mut all = set_elements(&tris);
    all.sort();
    assert_eq!(all, vec![[0, 4, 9], [5, 6, 7]]);
}

#[test]
fn retarget_edges_of_a_quad() {
    let (mut edges, _, _, _) = generate_data_structures(&QUAD.to_vec());
    retarget_edges(&mut edges, [1, 2], 9);
    let mut keys = map_keys(&edges);
    keys.sort();
    assert_eq!(keys, vec![[0, 9], [3, 9]]);
    assert_eq!(map_get(&edges, &[0, 9]), Some([u32::MAX, u32::MAX]));
    assert_eq!(map_get(&edges, &[3, 9]), Some([u32::MAX, u32::MAX]));
}

#[test]
fn retarget_edges_renames_sides_and_drops_doubly_hit_entries() {
    let mut edges = map_new();
    map_insert(&mut edges, [1, 2], [0, 3]);
    map_insert(&mut edges, [0, 3], [1, 7]);
    map_insert(&mut edges, [5, 6], [1, 2]);
    map_insert(&mut edges, [4, 5], [6, 7]);
    map_insert(&mut edges, [1, 4], [5, u32::MAX]);
    retarget_edges(&mut edges, [1, 2], 9);
    assert_eq!(map_get(&edges, &[1, 2]), None);
    assert_eq!(map_get(&edges, &[0, 3]), Some([7, 9]));
    assert_eq!(map_get(&edges, &[5, 6]), None);
    assert_eq!(map_get(&edges, &[4, 5]), Some([6, 7]));
    assert_eq!(map_get(&edges, &[1, 4]), None);
    assert_eq!(map_get(&edges, &[4, 9]), Some([5, u32::MAX]));
}

#[test]
fn retarget_edges_joins_entries_that_meet() {
    let mut edges = map_new();
    map_insert(&mut edges, [0, 1], [5, u32::MAX]);
    map_insert(&mut edges, [0, 2], [6, u32::MAX]);
    retarget_edges(&mut edges, [1, 2], 9);
    // both move to [0, 9]; the second joins the first
    assert_eq!(map_get(&edges, &[0, 9]), Some([5, 6]));
}

#[test]
fn retarget_vertices_of_a_quad() {
    let (_, _, mut vertices, _) = generate_data_structures(&QUAD.to_vec());
    retarget_vertices(&mut vertices, [1, 2], 9);
    assert_eq!(vertices.len(), 3);
    assert_eq!(vertices[&0], vec![9]);
    assert_eq!(vertices[&3], vec![9]);
    let mut around = vertices[&9].clone();
    around.sort();
    assert_eq!(around, vec![0, 3]);
    assert!(!vertices.contains_key(&1) && !vertices.contains_key(&2));
}

#[test]
fn build_tri_dict_lists_opposite_edges() {
    let mut tris: TriSet = set_new();
    set_insert(&mut tris, [0, 1, 2]);
    let d = build_tri_dict(&tris);
    assert_eq!(d[&0], vec![[1, 2]]);
    assert_eq!(d[&1], vec![[0, 2]]);
    assert_eq!(d[&2], vec![[0, 1]]);
    set_insert(&mut tris, [1, 2, 3]);
    let d = build_tri_dict(&tris);
    let mut at1 = d[&1].clone();
    at1.sort();
    assert_eq!(at1, vec![[0, 2], [2, 3]]);
    assert_eq!(d[&3], vec![[1, 2]]);
}

#[test]
fn retarget_tri_dict_renames_neighbour_lists() {
    let mut d: HashMap<u32, Vec<[u32; 2]>> = HashMap::new();
    d.insert(1, vec![[5, 6]]);
    d.insert(2, vec![[7, 8]]);
    d.insert(5, vec![[1, 6]]);
    d.insert(6, vec![[1, 5]]);
    d.insert(7, vec![[2, 8]]);
    d.insert(8, vec![[2, 7]]);
    assert_eq!(retarget_tri_dict(&mut d, [1, 2], 9), Ok(()));
    assert_eq!(d[&5], vec![[6, 9]]);
    assert_eq!(d[&6], vec![[5, 9]]);
    assert_eq!(d[&7], vec![[8, 9]]);
    assert_eq!(d[&8], vec![[7, 9]]);
    assert_eq!(d[&9], vec![[5, 6], [7, 8]]);
    assert!(!d.contains_key(&1) && !d.contains_key(&2));
}

#[test]
fn retarget_tri_dict_of_a_quad_clears_the_lists() {
    let mut d: HashMap<u32, Vec<[u32; 2]>> = HashMap::new();
    d.insert(0, vec![[1, 2]]);
    d.insert(1, vec![[0, 2], [2, 3]]);
    d.insert(2, vec![[0, 1], [1, 3]]);
    d.insert(3, vec![[1, 2]]);
    assert_eq!(retarget_tri_dict(&mut d, [1, 2], 9), Ok(()));
    assert_eq!(d[&0], Vec::<[u32; 2]>::new());
    assert_eq!(d[&3], Vec::<[u32; 2]>::new());
    assert_eq!(d[&9], Vec::<[u32; 2]>::new());
    assert_eq!(d.len(), 3);
}

#[test]
fn retarget_tri_dict_errors() {
    let mut d: HashMap<u32, Vec<[u32; 2]>> = HashMap::new();
    d.insert(1, vec![[5, 6]]);
    assert_eq!(retarget_tri_dict(&mut d, [1, 2], 9), Err(SimplifyError::MissingVertex));
    let mut d: HashMap<u32, Vec<[u32; 2]>> = HashMap::new();
    d.insert(1, vec![[5, 6]]);
    d.insert(2, vec![[7, 8]]);
    d.insert(5, vec![[1, 2], [3, 4], [2, 1]]);
    d.insert(6, vec![]);
    d.insert(7, vec![]);
    d.insert(8, vec![]);
    assert_eq!(retarget_tri_dict(&mut d, [1, 2], 9), Err(SimplifyError::RemovalOutOfRange));
    let mut d: HashMap<u32, Vec<[u32; 2]>> = HashMap::new();
    d.insert(1, vec![[5, 6]]);
    d.insert(2, vec![]);
    d.insert(5, vec![]);
    assert_eq!(retarget_tri_dict(&mut d, [1, 2], 9), Err(SimplifyError::MissingVertex));
}

#[test]
fn collapsible_edges_skip_pinned_vertices() {
    let (edges, _, _, _) = generate_data_structures(&QUAD.to_vec());
    let mut outline: EdgeSet = set_new();
    for e in [[0, 1], [0, 2], [1, 3], [2, 3]] {
        set_insert(&mut outline, e);
    }
    let mut all = collapsible_edges(&edges, &outline);
    all.sort();
    assert_eq!(all, vec![[0, 1], [0, 2], [1, 2], [1, 3], [2, 3]]);
    let none = collapsible_edges(&edges, &set_new());
    assert!(none.is_empty());
    assert!(set_contains(&outline, &[0, 1]));
}

#[test]
fn sorted_vec_intersection_count_counts_common_values() {
    assert_eq!(sorted_vec_intersection_count(&vec![1, 2, 3, 3], &vec![3, 4, 1]), 2);
    assert_eq!(sorted_vec_intersection_count(&vec![], &vec![3]), 0);
    assert_eq!(sorted_vec_intersection_count(&vec![5, 6], &vec![5, 6]), 2);
}

#[test]
fn retarget_collapsible_renames_and_drops_repeats() {
    let list = vec![[0u32, 1], [1, 5], [0, 2], [3, 4], [2, 5]];
    let r = retarget_collapsible(&list, [1, 2], 9);
    assert_eq!(r, vec![(0, [0, 9], true), (1, [5, 9], true), (3, [3, 4], false)]);
}

#[test]
fn retargeted_triangles_match_the_rebuilt_mesh() {
    // a fan of four triangles around vertex 4, wound alike
    let indices: Vec<u32> = vec![0, 1, 4, 1, 2, 4, 2, 3, 4, 3, 0, 4];
    let (_, mut tris, _, _) = clustermesh::mesh::generate_data_structures(&indices);
    let mut collapsed = indices.clone();
    clustermesh::simplify::collapse_indices(&mut collapsed, [1, 4], 9);
    clustermesh::simplify::retarget_tris(&mut tris, [1, 4], 9);
    let (_, rebuilt, _, _) = clustermesh::mesh::generate_data_structures(&collapsed);
    let mut a: Vec<[u32; 3]> = tris.iter().copied().collect();
    let mut b: Vec<[u32; 3]> = rebuilt.iter().copied().collect();
    a.sort();
    b.sort();
    assert_eq!(a, vec![[0, 3, 9], [2, 3, 9]]);
    assert_eq!(a, b);
}

#[test]
fn collapse_edge_updates_every_table() {
    let indices: Vec<u32> = vec![0, 1, 4, 1, 2, 4, 2, 3, 4, 3, 0, 4];
    let mut tables = clustermesh::simplify::collapse_tables(&indices);
    assert_eq!(tables.indices, indices);
    assert!(clustermesh::simplify::check_vertices_ready(&tables.vertices, [1, 4]));
    assert_eq!(clustermesh::simplify::collapse_edge(&mut tables, [1, 4], 9), Ok(()));
    assert_eq!(tables.indices, vec![2, 3, 9, 3, 0, 9]);
    let mut tris: Vec<[u32; 3]> = tables.tris.iter().copied().collect();
    tris.sort();
    assert_eq!(tris, vec![[0, 3, 9], [2, 3, 9]]);
    assert!(!tables.vertices.contains_key(&1));
    assert!(!tables.vertices.contains_key(&4));
    let mut around: Vec<u32> = tables.vertices[&9].clone();
    around.sort();
    assert_eq!(around, vec![0, 2, 3]);
    assert!(!tables.edges.contains_key(&[1, 4]));
}

#[test]
fn collapse_edge_needs_the_neighbour_lists() {
    let indices: Vec<u32> = vec![0, 1, 4, 1, 2, 4, 2, 3, 4, 3, 0, 4];
    let mut tables = clustermesh::simplify::collapse_tables(&indices);
    tables.vertices.remove(&4);
    assert!(!clustermesh::simplify::check_vertices_ready(&tables.vertices, [1, 4]));
    assert_eq!(
        clustermesh::simplify::collapse_edge(&mut tables, [1, 4], 9),
        Err(SimplifyError::MissingVertex)
    );
}

#[test]
fn choose_collapse_takes_the_first_passing_candidate() {
    let indices: Vec<u32> = vec![0, 1, 4, 1, 2, 4, 2, 3, 4, 3, 0, 4];
    let tables = collapse_tables(&indices);
    let odd = |i: usize| i % 2 == 1;
    assert_eq!(choose_collapse(&tables, 2, 5, &odd), CollapseStep::Collapse(1));
    assert_eq!(choose_collapse(&tables, 4, 5, &odd), CollapseStep::Reached);
    assert_eq!(choose_collapse(&tables, 2, 0, &odd), CollapseStep::NoCandidate);
    let never = |_i: usize| false;
    assert_eq!(choose_collapse(&tables, 2, 5, &never), CollapseStep::NonePasses);
}

#[test]
fn shares_few_neighbours_counts_common_neighbours() {
    let indices: Vec<u32> = vec![0, 1, 4, 1, 2, 4, 2, 3, 4, 3, 0, 4];
    let tables = collapse_tables(&indices);
    // 1 and 4 share the neighbours 0 and 2
    assert_eq!(shares_few_neighbours(&tables.vertices, [1, 4]), Some(true));
    assert_eq!(shares_few_neighbours(&tables.vertices, [1, 9]), None);
    // 0 and 2 share 1, 3 and 4
    assert_eq!(shares_few_neighbours(&tables.vertices, [0, 2]), Some(false));
}

#[test]
fn sort_by_length_is_stable_and_ascending() {
    use_sort();
}

fn use_sort() {
    let mut v: Vec<(u32, [u32; 2])> = vec![
        (5.0f32.to_bits(), [0, 1]),
        (1.0f32.to_bits(), [2, 3]),
        (5.0f32.to_bits(), [4, 5]),
        (0, [6, 7]),
        (1.0f32.to_bits(), [8, 9]),
    ];
    clustermesh::simplify::sort_by_length(&mut v);
    let edges: Vec<[u32; 2]> = v.iter().map(|c| c.1).collect();
    assert_eq!(edges, vec![[6, 7], [2, 3], [8, 9], [0, 1], [4, 5]]);
    let mut empty: Vec<(u32, [u32; 2])> = Vec::new();
    clustermesh::simplify::sort_by_length(&mut empty);
    assert!(empty.is_empty());
}

#[test]
fn neighbour_table_after_a_collapse_matches_a_rebuild() {
    // an octahedron: every pair joined along a triangle on the edge [0, 1] is also
    // joined along a triangle off it
    let indices: Vec<u32> = vec![0, 1, 2, 0, 2, 3, 0, 3, 4, 0, 4, 1, 5, 2, 1, 5, 3, 2, 5, 4, 3, 5, 1, 4];
    let mut tables = clustermesh::simplify::collapse_tables(&indices);
    assert_eq!(clustermesh::simplify::collapse_edge(&mut tables, [0, 1], 6), Ok(()));
    let (_, _, rebuilt, _) = generate_data_structures(&tables.indices);
    let mut kept: Vec<(u32, Vec<u32>)> = tables
        .vertices
        .iter()
        .map(|(k, l)| {
            let mut l = l.clone();
            l.sort();
            (*k, l)
        })
        .collect();
    let mut fresh: Vec<(u32, Vec<u32>)> = rebuilt.iter().map(|(k, l)| (*k, l.clone())).collect();
    kept.sort();
    fresh.sort();
    assert_eq!(kept, fresh);
    assert_eq!(fresh.iter().find(|x| x.0 == 6).unwrap().1, vec![2, 3, 4, 5]);
}

#[test]
fn collapse_removes_the_triangles_on_the_edge() {
    let mut indices: Vec<u32> = vec![0, 1, 2, 0, 2, 3, 0, 3, 4, 0, 4, 1, 5, 2, 1, 5, 3, 2, 5, 4, 3, 5, 1, 4];
    let before = indices.len();
    collapse_indices(&mut indices, [0, 1], 6);
    assert_eq!(indices.len() + 6, before);
    let mut unchanged: Vec<u32> = vec![0, 1, 2];
    collapse_indices(&mut unchanged, [3, 4], 6);
    assert_eq!(unchanged, vec![0, 1, 2]);
}

#[test]
fn candidates_stay_off_locked_vertices() {
    // vertex 9 is locked; no candidate touches it before the collapse of [1, 2]
    let candidates: Vec<[u32; 2]> = vec![[0, 1], [2, 3], [3, 4], [1, 4], [2, 4]];
    let kept = retarget_collapsible(&candidates, [1, 2], 7);
    assert!(kept.iter().all(|(_, e, _)| e[0] != 9 && e[1] != 9));
    let edges: Vec<[u32; 2]> = kept.iter().map(|(_, e, _)| *e).collect();
    assert_eq!(edges, vec![[0, 7], [3, 7], [3, 4], [4, 7]]);
}
