use clustermesh::fold::EdgeSet;
use std::hash::Hash;
use clustermesh::mesh::{
    generate_data_structures, insert_sorted, simplify_indices_positions,
    simplify_indices_positions_cut, TempMesh,
};

fn map_get<K: Eq + Hash, V: Copy>(m: &foldhash::HashMap<K, V>, k: &K) -> Option<V> {
    m.get(k).copied()
}

fn set_contains<K: Eq + Hash>(s: &foldhash::HashSet<K>, k: &K) -> bool {
    s.contains(k)
}

fn set_elements<K: Copy>(s: &foldhash::HashSet<K>) -> Vec<K> {
    s.iter().copied().collect()
}

fn set_insert<K: Eq + Hash>(s: &mut foldhash::HashSet<K>, k: K) -> bool {
    s.insert(k)
}

fn set_new<K>() -> foldhash::HashSet<K> {
    <foldhash::HashSet<K> as foldhash::HashSetExt>::new()
}

#[test]
fn generate_data_structures_of_a_quad() {
    let indices = vec![0u32, 1, 2, 2, 1, 3];
    let (edges, tris, vertices, (vertex_map, tri_list)) = generate_data_structures(&indices);
    assert_eq!(map_get(&edges, &[0, 1]), Some([2, u32::MAX]));
    assert_eq!(map_get(&edges, &[0, 2]), Some([1, u32::MAX]));
    assert_eq!(map_get(&edges, &[1, 2]), Some([0, 3]));
    assert_eq!(map_get(&edges, &[2, 3]), Some([1, u32::MAX]));
    assert_eq!(map_get(&edges, &[1, 3]), Some([2, u32::MAX]));
    assert_eq!(map_get(&edges, &[0, 3]), None);
    assert_eq!(edges.len(), 5);
    assert!(set_contains(&tris, &[0, 1, 2]));
    assert!(set_contains(&tris, &[1, 2, 3]));
    assert_eq!(tris.len(), 2);
    assert_eq!(vertices[&0], vec![1, 2]);
    assert_eq!(vertices[&1], vec![0, 2, 3]);
    assert_eq!(vertices[&2], vec![0, 1, 3]);
    assert_eq!(vertices[&3], vec![1, 2]);
    assert_eq!(vertices.len(), 4);
    let mut at1: Vec<usize> = vertex_map[&1].iter().copied().collect();
    at1.sort();
    assert_eq!(at1, vec![0, 1]);
    assert_eq!(vertex_map[&3].len(), 1);
    assert!(vertex_map[&3].contains(&1));
    assert_eq!(tri_list, vec![[0, 1, 2], [1, 2, 3]]);
}

#[test]
fn generate_data_structures_ignores_a_trailing_partial_triangle() {
    let indices = vec![4u32, 2, 9, 7];
    let (edges, tris, vertices, (vertex_map, tri_list)) = generate_data_structures(&indices);
    assert_eq!(tri_list, vec![[2, 4, 9]]);
    assert_eq!(tris.len(), 1);
    assert!(!vertices.contains_key(&7));
    assert!(!vertex_map.contains_key(&7));
    assert_eq!(edges.len(), 3);
    assert_eq!(map_get(&edges, &[2, 4]), Some([9, u32::MAX]));
}

#[test]
fn generate_data_structures_edge_seen_three_times() {
    // three triangles on edge 0-1 with opposite corners 2, 3, 4
    let indices = vec![0u32, 1, 2, 0, 1, 3, 0, 1, 4];
    let (edges, _, _, _) = generate_data_structures(&indices);
    // first [2, MAX], then new_edge(3, 2) = [2, 3], then new_edge(4, 2) = [2, 4]
    assert_eq!(map_get(&edges, &[0, 1]), Some([2, 4]));
}

#[test]
fn generate_data_structures_of_nothing() {
    let (edges, tris, vertices, (vertex_map, tri_list)) = generate_data_structures(&vec![]);
    assert_eq!(edges.len(), 0);
    assert_eq!(tris.len(), 0);
    assert!(vertices.is_empty() && vertex_map.is_empty() && tri_list.is_empty());
}

#[test]
fn insert_sorted_keeps_order_and_drops_repeats() {
    let mut v = vec![1u32, 4, 9];
    insert_sorted(&mut v, 5);
    assert_eq!(v, vec![1, 4, 5, 9]);
    insert_sorted(&mut v, 4);
    assert_eq!(v, vec![1, 4, 5, 9]);
    insert_sorted(&mut v, 0);
    insert_sorted(&mut v, 10);
    assert_eq!(v, vec![0, 1, 4, 5, 9, 10]);
}

#[test]
fn simplify_indices_positions_renumbers_by_first_use() {
    let positions: Vec<f32> = (0..24).map(|i| i as f32).collect();
    let (indices, pos) = simplify_indices_positions(&vec![5u32, 3, 5, 7], &positions);
    assert_eq!(indices, vec![0, 1, 0, 2]);
    assert_eq!(pos, vec![15.0, 16.0, 17.0, 9.0, 10.0, 11.0, 21.0, 22.0, 23.0]);
    // the shape is kept: each index still points at the same coordinates
    let old = vec![5u32, 3, 5, 7];
    for i in 0..4 {
        for c in 0..3 {
            assert_eq!(pos[3 * indices[i] as usize + c], positions[3 * old[i] as usize + c]);
        }
    }
}

#[test]
fn simplify_indices_positions_cut_carries_edges_over() {
    let positions: Vec<f32> = (0..24).map(|i| i as f32).collect();
    let mut cut: EdgeSet = set_new();
    set_insert(&mut cut, [3, 5]);
    set_insert(&mut cut, [5, 7]);
    let (indices, pos, new_cut) = simplify_indices_positions_cut(&vec![5u32, 3, 5, 7], &positions, &cut);
    assert_eq!(indices, vec![0, 1, 0, 2]);
    assert_eq!(pos.len(), 9);
    let mut e = set_elements(&new_cut);
    e.sort();
    assert_eq!(e, vec![[0, 1], [0, 2]]);
}

#[test]
fn temp_mesh_holds_indices() {
    let m = TempMesh { indices: vec![0, 1, 2] };
    assert_eq!(m.indices.len(), 3);
}

#[test]
fn renumbering_twice_changes_nothing() {
    let indices: Vec<u32> = vec![5, 2, 7, 2, 5, 9];
    let positions: Vec<u32> = (0..30).collect();
    let (i1, p1) = clustermesh::mesh::simplify_indices_positions(&indices, &positions);
    let (i2, p2) = clustermesh::mesh::simplify_indices_positions(&i1, &p1);
    assert_eq!(i1, vec![0, 1, 2, 1, 0, 3]);
    assert_eq!(i1, i2);
    assert_eq!(p1, p2);
}

#[test]
fn tables_ignore_triangle_order_and_winding() {
    let a: Vec<u32> = vec![0, 1, 4, 1, 2, 4, 2, 3, 4, 3, 0, 4];
    // same triangles, listed in another order and with their corners turned
    let b: Vec<u32> = vec![4, 3, 2, 0, 4, 3, 1, 4, 0, 4, 1, 2];
    let (ea, ta, va, _) = generate_data_structures(&a);
    let (eb, tb, vb, _) = generate_data_structures(&b);
    let mut ka: Vec<([u32; 2], [u32; 2])> = ea.iter().map(|(k, v)| (*k, *v)).collect();
    let mut kb: Vec<([u32; 2], [u32; 2])> = eb.iter().map(|(k, v)| (*k, *v)).collect();
    ka.sort();
    kb.sort();
    assert_eq!(ka, kb);
    assert_eq!(ta, tb);
    assert_eq!(va, vb);
}

#[test]
fn edge_table_ignores_order_with_a_repeated_triangle() {
    let a: Vec<u32> = vec![0, 1, 2, 0, 1, 2, 2, 3, 4];
    // the same triangles, the repeated one included, in another order and winding
    let b: Vec<u32> = vec![4, 3, 2, 2, 1, 0, 1, 0, 2];
    let (ea, _, _, _) = generate_data_structures(&a);
    let (eb, _, _, _) = generate_data_structures(&b);
    let mut ka: Vec<([u32; 2], [u32; 2])> = ea.iter().map(|(k, v)| (*k, *v)).collect();
    let mut kb: Vec<([u32; 2], [u32; 2])> = eb.iter().map(|(k, v)| (*k, *v)).collect();
    ka.sort();
    kb.sort();
    assert_eq!(ka, kb);
    assert_eq!(ka.iter().find(|e| e.0 == [0, 1]).unwrap().1, [2, 2]);
}
