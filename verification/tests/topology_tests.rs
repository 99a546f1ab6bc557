use clustermesh::topology::{new_edge, new_tri};

#[test]
fn new_edge_orders_endpoints() {
    assert_eq!(new_edge(3, 1), [1, 3]);
    assert_eq!(new_edge(1, 3), [1, 3]);
    assert_eq!(new_edge(7, 7), [7, 7]);
    assert_eq!(new_edge(u32::MAX, 0), [0, u32::MAX]);
}

#[test]
fn new_edge_is_symmetric() {
    for a in 0..5u32 {
        for b in 0..5u32 {
            assert_eq!(new_edge(a, b), new_edge(b, a));
        }
    }
}

#[test]
fn new_tri_orders_corners() {
    assert_eq!(new_tri(3, 1, 2), [1, 2, 3]);
    assert_eq!(new_tri(1, 2, 3), [1, 2, 3]);
    assert_eq!(new_tri(2, 3, 1), [1, 2, 3]);
    assert_eq!(new_tri(3, 2, 1), [1, 2, 3]);
    assert_eq!(new_tri(1, 3, 2), [1, 2, 3]);
    assert_eq!(new_tri(2, 1, 3), [1, 2, 3]);
    assert_eq!(new_tri(5, 5, 1), [1, 5, 5]);
    assert_eq!(new_tri(5, 1, 5), [1, 5, 5]);
}

#[test]
fn new_tri_ignores_corner_order() {
    for a in 0..4u32 {
        for b in 0..4u32 {
            for c in 0..4u32 {
                let t = new_tri(a, b, c);
                assert_eq!(t, new_tri(b, a, c));
                assert_eq!(t, new_tri(c, b, a));
                assert_eq!(t, new_tri(b, c, a));
                assert!(t[0] <= t[1] && t[1] <= t[2]);
                assert_eq!(new_tri(t[0], t[1], t[2]), t);
            }
        }
    }
}
