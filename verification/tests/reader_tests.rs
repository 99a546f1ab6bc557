use clustermesh::reader::read;

fn push_u32(v: &mut Vec<u8>, x: u32) {
    v.extend_from_slice(&x.to_le_bytes());
}

fn sample_file() -> Vec<u8> {
    let mut d = Vec::new();
    push_u32(&mut d, 2);
    // node 0: cluster at byte 44, children 1..4
    for x in [44u32, 1, 2, 3, 4] {
        push_u32(&mut d, x);
    }
    // node 1: cluster at byte 76
    for x in [76u32, 0, 0, 0, 0] {
        push_u32(&mut d, x);
    }
    assert_eq!(d.len(), 44);
    push_u32(&mut d, 3);
    for f in [1.0f32, 2.0, 3.0] {
        push_u32(&mut d, f.to_bits());
    }
    push_u32(&mut d, 3);
    for x in [0u32, 1, 2] {
        push_u32(&mut d, x);
    }
    assert_eq!(d.len(), 76);
    push_u32(&mut d, 0);
    push_u32(&mut d, 2);
    push_u32(&mut d, 5);
    push_u32(&mut d, 6);
    d
}

#[test]
fn read_decodes_the_node_table() {
    let t = read(sample_file());
    assert_eq!(t.len(), 2);
    assert_eq!(t.get_node(&0).offset, 44);
    assert_eq!(t.get_node(&0).children, [1, 2, 3, 4]);
    assert_eq!(t.get_node(&1).offset, 76);
    assert_eq!(t.roots, [0, 0]);
    assert!(t.cluster_cache.iter().all(|c| c.pos.is_empty() && c.idx.is_empty()));
}

#[test]
fn get_cluster_decodes_and_caches() {
    let mut t = read(sample_file());
    let c = t.get_cluster(&0).unwrap();
    let pos: Vec<f32> = c.pos.iter().map(|b| f32::from_bits(*b)).collect();
    assert_eq!(pos, vec![1.0, 2.0, 3.0]);
    assert_eq!(c.idx, vec![0, 1, 2]);
    assert_eq!(t.cluster_cache[0].idx, vec![0, 1, 2]);
    // asking again gives the same cluster
    assert_eq!(t.get_cluster(&0).unwrap().idx, vec![0, 1, 2]);
    let c1 = t.get_cluster(&1).unwrap();
    assert!(c1.pos.is_empty());
    assert_eq!(c1.idx, vec![5, 6]);
    assert!(t.get_cluster(&2).is_none());
}

#[test]
fn get_cluster_w_offset_tells_where_the_cluster_starts() {
    let mut t = read(sample_file());
    let (c, off) = t.get_cluster_w_offset(&1).unwrap();
    assert_eq!(off, 76);
    assert_eq!(c.idx, vec![5, 6]);
    assert!(t.get_cluster_w_offset(&7).is_none());
}

#[test]
fn load_all_fills_every_slot() {
    let mut t = read(sample_file());
    t.load_all();
    assert_eq!(t.cluster_cache[0].pos.len(), 3);
    assert_eq!(t.cluster_cache[1].idx, vec![5, 6]);
    assert_eq!(t.iter_all().count(), 2);
}

#[test]
fn bytes_past_the_end_read_as_zero() {
    let mut d = Vec::new();
    push_u32(&mut d, 1);
    push_u32(&mut d, 24);
    // the rest of the node and its cluster are missing
    let mut t = read(d);
    assert_eq!(t.len(), 1);
    assert_eq!(t.get_node(&0).children, [0, 0, 0, 0]);
    let c = t.get_cluster(&0).unwrap();
    assert!(c.pos.is_empty() && c.idx.is_empty());
}

#[test]
fn read_of_an_empty_file_has_no_nodes() {
    let mut t = read(Vec::new());
    assert_eq!(t.len(), 0);
    assert!(t.get_cluster(&0).is_none());
}

#[test]
fn offset_read_gives_what_a_plain_read_gives() {
    let mut plain = read(sample_file());
    let mut with_offset = read(sample_file());
    let c = plain.get_cluster(&0).unwrap();
    let (pos, idx) = (c.pos.clone(), c.idx.clone());
    let (d, off) = with_offset.get_cluster_w_offset(&0).unwrap();
    assert_eq!(d.pos, pos);
    assert_eq!(d.idx, idx);
    assert_eq!(off, 44);
    for i in 0..2 {
        assert_eq!(plain.cluster_cache[i].pos, with_offset.cluster_cache[i].pos);
        assert_eq!(plain.cluster_cache[i].idx, with_offset.cluster_cache[i].idx);
    }
}

#[test]
fn repeated_read_changes_nothing() {
    let mut t = read(sample_file());
    let first = t.get_cluster(&0).unwrap();
    let (pos, idx) = (first.pos.clone(), first.idx.clone());
    let cache: Vec<(Vec<u32>, Vec<u32>)> = t.cluster_cache.iter().map(|c| (c.pos.clone(), c.idx.clone())).collect();
    let second = t.get_cluster(&0).unwrap();
    assert_eq!(second.pos, pos);
    assert_eq!(second.idx, idx);
    let after: Vec<(Vec<u32>, Vec<u32>)> = t.cluster_cache.iter().map(|c| (c.pos.clone(), c.idx.clone())).collect();
    assert_eq!(after, cache);
}
