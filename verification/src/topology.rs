use vstd::prelude::*;

verus! {

/// An undirected edge between two vertex indices, stored with the smaller index first.
pub type Edge = [u32; 2];

/// A triangle given by three vertex indices.
pub type Triangle = [u32; 3];

/// The edge `{a, b}` with its endpoints in ascending order.
pub open spec fn spec_edge(a: u32, b: u32) -> Edge {
    if a <= b {
        [a, b]
    } else {
        [b, a]
    }
}

/// How often `x` occurs among the three corners of `t`.
pub open spec fn count3(x: u32, t: Triangle) -> int {
    (if t[0] == x { 1int } else { 0int }) + (if t[1] == x { 1int } else { 0int }) + (if t[2]
        == x { 1int } else { 0int })
}

/// `t` holds the corners `a`, `b`, `c` (with multiplicity) in ascending order.
pub open spec fn is_sorted_corners(t: Triangle, a: u32, b: u32, c: u32) -> bool {
    &&& t[0] <= t[1] <= t[2]
    &&& forall|x: u32| #[trigger] count3(x, t) == count3(x, [a, b, c])
}

/// The corners `a`, `b`, `c` sorted ascending.
pub open spec fn spec_tri(a: u32, b: u32, c: u32) -> Triangle {
    if a <= b {
        if b <= c {
            [a, b, c]
        } else if c < a {
            [c, a, b]
        } else {
            [a, c, b]
        }
    } else {
        if a <= c {
            [b, a, c]
        } else if c < b {
            [c, b, a]
        } else {
            [b, c, a]
        }
    }
}

/// Orders the corners of a triangle consistently: ascending.
pub fn new_tri(a: u32, b: u32, c: u32) -> (t: Triangle)
    ensures
        t == spec_tri(a, b, c),
        is_sorted_corners(t, a, b, c),
{
    if a <= b {
        if b <= c {
            [a, b, c]
        } else if c < a {
            [c, a, b]
        } else {
            [a, c, b]
        }
    } else {
        if a <= c {
            [b, a, c]
        } else if c < b {
            [c, b, a]
        } else {
            [b, c, a]
        }
    }
}

/// Orders the endpoints of an edge consistently: ascending.
pub fn new_edge(a: u32, b: u32) -> (e: Edge)
    ensures
        e == spec_edge(a, b),
        e[0] <= e[1],
        (e[0] == a && e[1] == b) || (e[0] == b && e[1] == a),
{
    if a <= b {
        [a, b]
    } else {
        [b, a]
    }
}

/// Sorting the corners gives an ascending arrangement of the same corners.
pub proof fn lemma_spec_tri_sorted(a: u32, b: u32, c: u32)
    ensures
        is_sorted_corners(spec_tri(a, b, c), a, b, c),
{
}

/// Two ascending arrangements of the same corners are the same triangle.
pub proof fn lemma_sorted_corners_unique(t: Triangle, u: Triangle, a: u32, b: u32, c: u32)
    requires
        is_sorted_corners(t, a, b, c),
        is_sorted_corners(u, a, b, c),
    ensures
        t == u,
{
    assert(count3(t[0], t) == count3(t[0], u));
    assert(count3(u[0], t) == count3(u[0], u));
    assert(count3(t[1], t) == count3(t[1], u));
    assert(count3(u[1], t) == count3(u[1], u));
    assert(count3(t[2], t) == count3(t[2], u));
    assert(count3(u[2], t) == count3(u[2], u));
    assert(t =~= u);
}

/// An edge does not depend on the order in which its endpoints are given.
pub proof fn law_edge_symmetric(a: u32, b: u32)
    ensures
        spec_edge(a, b) == spec_edge(b, a),
{
}

/// A triangle does not depend on the order in which its corners are given:
/// every permutation of the corners gives the same triangle.
pub proof fn law_tri_permutation_invariant(a: u32, b: u32, c: u32)
    ensures
        spec_tri(a, b, c) == spec_tri(b, a, c),
        spec_tri(a, b, c) == spec_tri(a, c, b),
        spec_tri(a, b, c) == spec_tri(b, c, a),
        spec_tri(a, b, c) == spec_tri(c, a, b),
        spec_tri(a, b, c) == spec_tri(c, b, a),
{
}

/// Ordering an already ordered edge or triangle changes nothing.
pub proof fn law_canonical_forms_idempotent(e: Edge, t: Triangle)
    ensures
        e[0] <= e[1] ==> spec_edge(e[0], e[1]) == e,
        t[0] <= t[1] <= t[2] ==> spec_tri(t[0], t[1], t[2]) == t,
{
    assert(e[0] <= e[1] ==> spec_edge(e[0], e[1]) =~= e);
    assert(t[0] <= t[1] <= t[2] ==> spec_tri(t[0], t[1], t[2]) =~= t);
}

} // verus!
