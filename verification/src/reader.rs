//! Reading a cluster tree file: a little-endian `u32` node count, that many nodes of
//! five little-endian `u32`s (the byte offset of the node's cluster, then four
//! children), and at each cluster's offset a `u32` count of position words followed by
//! those words, then a `u32` count of indices followed by those indices.
//!
//! The file is held in memory; clusters are decoded the first time they are asked for
//! and kept. A byte past the end of the file reads as zero.

use vstd::prelude::*;
use vstd::std_specs::iter::IteratorSpec;

verus! {

/// A node of the cluster tree.
pub struct Node {
    /// Where in the file the node's cluster starts.
    pub offset: u32,
    pub children: [u32; 4],
}

/// The geometry of one cluster: vertex positions as IEEE-754 single-precision bit
/// patterns, three per vertex, and the triangle index list.
pub struct Cluster {
    pub pos: Vec<u32>,
    pub idx: Vec<u32>,
}

/// A cluster tree read from a file, with the clusters decoded so far.
pub struct CTree {
    pub nodes: Vec<Node>,
    pub cluster_cache: Vec<Cluster>,
    pub roots: [u32; 2],
    /// The bytes of the file.
    pub data: Vec<u8>,
}

/// Byte `i` of the file; zero past its end.
pub open spec fn byte_at(d: Seq<u8>, i: int) -> int {
    if 0 <= i < d.len() {
        d[i] as int
    } else {
        0
    }
}

/// The little-endian `u32` that starts at byte `off`.
pub open spec fn u32_at(d: Seq<u8>, off: int) -> u32 {
    (byte_at(d, off) + 256 * byte_at(d, off + 1) + 65536 * byte_at(d, off + 2) + 16777216
        * byte_at(d, off + 3)) as u32
}

/// Node `i` of the file's node table.
pub open spec fn node_at(d: Seq<u8>, i: int) -> (u32, [u32; 4]) {
    let base = 4 + 20 * i;
    (
        u32_at(d, base),
        [u32_at(d, base + 4), u32_at(d, base + 8), u32_at(d, base + 12), u32_at(d, base + 16)],
    )
}

/// The number of nodes the file declares.
pub open spec fn node_count(d: Seq<u8>) -> nat {
    u32_at(d, 0) as nat
}

/// The `n` words that follow byte `off`.
pub open spec fn words_at(d: Seq<u8>, off: int, n: nat) -> Seq<u32> {
    Seq::new(n, |k: int| u32_at(d, off + 4 * k))
}

/// The position words of the cluster stored at byte `off`.
pub open spec fn cluster_pos(d: Seq<u8>, off: int) -> Seq<u32> {
    words_at(d, off + 4, u32_at(d, off) as nat)
}

/// The index list of the cluster stored at byte `off`.
pub open spec fn cluster_idx(d: Seq<u8>, off: int) -> Seq<u32> {
    let after_pos = off + 4 + 4 * u32_at(d, off);
    words_at(d, after_pos + 4, u32_at(d, after_pos) as nat)
}

/// `c` is the cluster stored at byte `off`.
pub open spec fn decodes(c: Cluster, d: Seq<u8>, off: int) -> bool {
    c.pos@ == cluster_pos(d, off) && c.idx@ == cluster_idx(d, off)
}

fn byte_at_exec(data: &Vec<u8>, i: u64) -> (b: u32)
    ensures
        b == byte_at(data@, i as int),
{
    if i < data.len() as u64 {
        data[i as usize] as u32
    } else {
        0
    }
}

/// The little-endian `u32` at byte `off`.
fn read_u32_at(data: &Vec<u8>, off: u64) -> (v: u32)
    requires
        off + 3 <= u64::MAX,
    ensures
        v == u32_at(data@, off as int),
{
    let b0 = byte_at_exec(data, off);
    let b1 = byte_at_exec(data, off + 1);
    let b2 = byte_at_exec(data, off + 2);
    let b3 = byte_at_exec(data, off + 3);
    b0 + 256 * b1 + 65536 * b2 + 16777216 * b3
}

/// The `n` words after byte `off`.
fn read_words(data: &Vec<u8>, off: u64, n: u32) -> (v: Vec<u32>)
    requires
        off <= 0x10_0000_0000,
    ensures
        v@ == words_at(data@, off as int, n as nat),
{
    let mut v: Vec<u32> = Vec::new();
    let mut k: u32 = 0;
    while k < n
        invariant
            k <= n,
            off <= 0x10_0000_0000,
            v@ == words_at(data@, off as int, k as nat),
        decreases n - k,
    {
        let w = read_u32_at(data, off + 4 * (k as u64));
        v.push(w);
        k += 1;
        assert(v@ =~= words_at(data@, off as int, k as nat));
    }
    v
}

/// What asking tree `before` for the cluster of node `id` gives, with `after` the tree
/// afterwards: where there is such a node, its cluster as the file stores it, now held in
/// its slot (the slot's earlier contents where they held positions), every other slot as
/// it was; where there is none, nothing, and the tree as it was. The file and the nodes
/// stay, and the tree stays well formed.
pub open spec fn fetched(before: CTree, after: CTree, id: u32, c: Option<Cluster>) -> bool {
    &&& after.wf()
    &&& after.data@ == before.data@
    &&& after.nodes@ == before.nodes@
    &&& after.roots == before.roots
    &&& c is Some <==> (id as int) < before.nodes@.len()
    &&& c matches Some(c) ==> {
        &&& decodes(c, before.data@, before.nodes@[id as int].offset as int)
        &&& c == after.cluster_cache@[id as int]
        &&& after.cluster_cache@.len() == before.cluster_cache@.len()
        &&& forall|j: int|
            0 <= j < after.cluster_cache@.len() && j != id as int ==> #[trigger] after.cluster_cache@[j]
                == before.cluster_cache@[j]
        &&& before.cluster_cache@[id as int].pos@.len() > 0 ==> after.cluster_cache@[id as int]
            == before.cluster_cache@[id as int]
    }
    &&& c is None ==> after == before
}

/// Two trees hold the same file, nodes and roots, and the same clusters in every slot.
pub open spec fn same_reads(a: CTree, b: CTree) -> bool {
    &&& a.data@ == b.data@
    &&& a.nodes@ == b.nodes@
    &&& a.roots == b.roots
    &&& a.cluster_cache@.len() == b.cluster_cache@.len()
    &&& forall|j: int|
        0 <= j < a.cluster_cache@.len() ==> (#[trigger] a.cluster_cache@[j]).pos@ == b.cluster_cache@[j].pos@
            && a.cluster_cache@[j].idx@ == b.cluster_cache@[j].idx@
}

impl CTree {
    /// The tree agrees with its file: the nodes are the file's node table, there is one
    /// cache slot per node, and every slot that holds positions holds the node's cluster.
    pub open spec fn wf(&self) -> bool {
        &&& self.nodes@.len() == node_count(self.data@)
        &&& forall|i: int|
            0 <= i < self.nodes@.len() ==> (#[trigger] self.nodes@[i].offset, self.nodes@[i].children)
                == node_at(self.data@, i)
        &&& self.cluster_cache@.len() == self.nodes@.len()
        &&& forall|i: int|
            0 <= i < self.cluster_cache@.len() && #[trigger] self.cluster_cache@[i].pos@.len() > 0
                ==> decodes(self.cluster_cache@[i], self.data@, self.nodes@[i].offset as int)
    }

    /// Decodes the cluster of node `id` from the file.
    fn load_cluster(&self, id: &u32) -> (c: Cluster)
        requires
            self.wf(),
            (*id as int) < self.nodes@.len(),
        ensures
            decodes(c, self.data@, self.nodes@[*id as int].offset as int),
    {
        let offset = self.nodes[*id as usize].offset as u64;
        let positions_length = read_u32_at(&self.data, offset);
        let positions = read_words(&self.data, offset + 4, positions_length);
        let after = offset + 4 + 4 * (positions_length as u64);
        let indices_length = read_u32_at(&self.data, after);
        let indices = read_words(&self.data, after + 4, indices_length);
        Cluster { pos: positions, idx: indices }
    }

    /// Makes slot `i` hold the cluster of node `i`, decoding it unless the slot already
    /// holds positions.
    fn ensure_loaded(&mut self, i: usize)
        requires
            old(self).wf(),
            i < old(self).cluster_cache@.len(),
        ensures
            final(self).wf(),
            final(self).data@ == old(self).data@,
            final(self).nodes@ == old(self).nodes@,
            final(self).roots == old(self).roots,
            final(self).cluster_cache@.len() == old(self).cluster_cache@.len(),
            decodes(final(self).cluster_cache@[i as int], final(self).data@, final(self).nodes@[i as int].offset as int),
            forall|j: int| 0 <= j < final(self).cluster_cache@.len() && j != i ==> #[trigger] final(self).cluster_cache@[j] == old(self).cluster_cache@[j],
            old(self).cluster_cache@[i as int].pos@.len() > 0 ==> final(self).cluster_cache@[i as int] == old(self).cluster_cache@[i as int],
    {
        if self.cluster_cache[i].pos.len() == 0 {
            assert(self.nodes@.len() <= u32::MAX);
            let read_cluster = self.load_cluster(&(i as u32));
            assert(decodes(read_cluster, self.data@, self.nodes@[i as int].offset as int));
            let ghost before = self.cluster_cache@;
            self.cluster_cache.set(i, read_cluster);
            assert(self.cluster_cache@ == before.update(i as int, read_cluster));
            assert forall|j: int|
                0 <= j < self.cluster_cache@.len() && #[trigger] self.cluster_cache@[j].pos@.len() > 0
                    implies decodes(self.cluster_cache@[j], self.data@, self.nodes@[j].offset as int) by {
                if j != i {
                    assert(before[j] == self.cluster_cache@[j]);
                    assert(before[j].pos@.len() > 0);
                    assert(old(self).cluster_cache@[j].pos@.len() > 0);
                    assert(decodes(old(self).cluster_cache@[j], old(self).data@, old(self).nodes@[j].offset as int));
                } else {
                    assert(j == i as int);
                    assert(self.cluster_cache@[j] == read_cluster);
                    assert(self.nodes@[j] == self.nodes@[i as int]);
                }
            }
        }
    }

    /// The cluster of node `id`, decoded from the file the first time it is asked for;
    /// `None` when there is no such node.
    pub fn get_cluster(&mut self, id: &u32) -> (r: Option<&Cluster>)
        requires
            old(self).wf(),
        ensures
            fetched(
                *old(self),
                *final(self),
                *id,
                match r {
                    Some(c) => Some(*c),
                    None => None,
                },
            ),
    {
        if *id < self.cluster_cache.len() as u32 {
            let i = *id as usize;
            self.ensure_loaded(i);
            Some(&self.cluster_cache[i])
        } else {
            None
        }
    }

    /// Node `id` of the tree.
    pub fn get_node(&self, id: &usize) -> (n: &Node)
        requires
            *id < self.nodes@.len(),
        ensures
            *n == self.nodes@[*id as int],
    {
        &self.nodes[*id]
    }

    /// Like `get_cluster`, together with where in the file the cluster starts.
    pub fn get_cluster_w_offset(&mut self, id: &u32) -> (r: Option<(&Cluster, u32)>)
        requires
            old(self).wf(),
        ensures
            fetched(
                *old(self),
                *final(self),
                *id,
                match r {
                    Some((c, _)) => Some(*c),
                    None => None,
                },
            ),
            r matches Some((_, off)) ==> off == old(self).nodes@[*id as int].offset,
    {
        if *id < self.cluster_cache.len() as u32 {
            let i = *id as usize;
            self.ensure_loaded(i);
            Some((&self.cluster_cache[i], self.nodes[i].offset))
        } else {
            None
        }
    }

    /// Decodes every cluster not decoded yet.
    pub fn load_all(&mut self)
        requires
            old(self).wf(),
        ensures
            final(self).wf(),
            final(self).data@ == old(self).data@,
            final(self).nodes@ == old(self).nodes@,
            final(self).roots == old(self).roots,
            forall|i: int|
                0 <= i < final(self).cluster_cache@.len() ==> decodes(
                    #[trigger] final(self).cluster_cache@[i],
                    final(self).data@,
                    final(self).nodes@[i].offset as int,
                ),
    {
        let mut idx: usize = 0;
        while idx < self.cluster_cache.len()
            invariant
                self.wf(),
                self.data@ == old(self).data@,
                self.nodes@ == old(self).nodes@,
                self.roots == old(self).roots,
                0 <= idx <= self.cluster_cache@.len(),
                forall|i: int|
                    0 <= i < idx ==> decodes(
                        #[trigger] self.cluster_cache@[i],
                        self.data@,
                        self.nodes@[i].offset as int,
                    ),
            decreases self.cluster_cache@.len() - idx,
        {
            self.ensure_loaded(idx);
            idx += 1;
        }
    }

    /// The cache slots in node order, as an iterator.
    pub fn iter_all(&self) -> (it: std::slice::Iter<'_, Cluster>)
        ensures
            it.remaining() == self.cluster_cache@.as_ref(),
    {
        self.cluster_cache.as_slice().iter()
    }

    /// The number of nodes.
    pub fn len(&self) -> (n: usize)
        ensures
            n == self.nodes@.len(),
    {
        self.nodes.len()
    }
}

/// Reads a cluster tree from the bytes of its file: the node table is decoded at once;
/// the clusters wait in empty cache slots until asked for.
pub fn read(data: Vec<u8>) -> (t: CTree)
    ensures
        t.wf(),
        t.data@ == data@,
        t.nodes@.len() == node_count(data@),
        forall|i: int|
            0 <= i < t.nodes@.len() ==> (#[trigger] t.nodes@[i].offset, t.nodes@[i].children)
                == node_at(data@, i),
        t.cluster_cache@.len() == t.nodes@.len(),
        forall|i: int|
            0 <= i < t.cluster_cache@.len() ==> #[trigger] t.cluster_cache@[i].pos@.len() == 0
                && t.cluster_cache@[i].idx@.len() == 0,
        t.roots == [0u32, 0u32],
{
    let nodes_length = read_u32_at(&data, 0);
    let mut nodes: Vec<Node> = Vec::new();
    let mut i: u32 = 0;
    while i < nodes_length
        invariant
            i <= nodes_length,
            nodes_length == node_count(data@),
            nodes@.len() == i,
            forall|k: int|
                0 <= k < i ==> (#[trigger] nodes@[k].offset, nodes@[k].children) == node_at(data@, k),
        decreases nodes_length - i,
    {
        let base: u64 = 4 + 20 * (i as u64);
        let node = Node {
            offset: read_u32_at(&data, base),
            children: [
                read_u32_at(&data, base + 4),
                read_u32_at(&data, base + 8),
                read_u32_at(&data, base + 12),
                read_u32_at(&data, base + 16),
            ],
        };
        nodes.push(node);
        i += 1;
    }
    let mut cluster_cache: Vec<Cluster> = Vec::new();
    let mut j: u32 = 0;
    while j < nodes_length
        invariant
            j <= nodes_length,
            cluster_cache@.len() == j,
            forall|k: int|
                0 <= k < j ==> #[trigger] cluster_cache@[k].pos@.len() == 0
                    && cluster_cache@[k].idx@.len() == 0,
        decreases nodes_length - j,
    {
        let empty = Cluster { pos: Vec::new(), idx: Vec::new() };
        assert(empty.pos@.len() == 0 && empty.idx@.len() == 0);
        let ghost before = cluster_cache@;
        cluster_cache.push(empty);
        assert(cluster_cache@ == before.push(empty));
        assert forall|k: int| 0 <= k < j + 1 implies #[trigger] cluster_cache@[k].pos@.len() == 0
            && cluster_cache@[k].idx@.len() == 0 by {
            if k < j {
                assert(cluster_cache@[k] == before[k]);
            }
        }
        j += 1;
    }
    let roots = [0u32; 2];
    CTree { nodes, cluster_cache, roots, data }
}

/// A cluster read twice from the same file reads the same, whether it came from the
/// file or from the cache: both decode the bytes at the node's offset.
pub proof fn law_cluster_reads_agree(first: Cluster, second: Cluster, d: Seq<u8>, off: int)
    requires
        decodes(first, d, off),
        decodes(second, d, off),
    ensures
        first.pos@ == second.pos@,
        first.idx@ == second.idx@,
{
}

/// Asking for a cluster together with its offset gives what asking for the cluster
/// alone gives, from the same tree, and leaves the tree as that would: one answers
/// exactly when the other does, with the same cluster, and the trees afterwards hold
/// the same clusters.
pub proof fn law_offset_read_is_cluster_read(
    before: CTree,
    after_plain: CTree,
    after_offset: CTree,
    id: u32,
    plain: Option<Cluster>,
    with_offset: Option<Cluster>,
)
    requires
        before.wf(),
        fetched(before, after_plain, id, plain),
        fetched(before, after_offset, id, with_offset),
    ensures
        plain is Some <==> with_offset is Some,
        plain matches Some(c) ==> with_offset->0.pos@ == c.pos@ && with_offset->0.idx@ == c.idx@,
        same_reads(after_plain, after_offset),
{
    if let Some(c) = plain {
        let d = with_offset->0;
        law_cluster_reads_agree(c, d, before.data@, before.nodes@[id as int].offset as int);
        assert forall|j: int| 0 <= j < after_plain.cluster_cache@.len() implies (#[trigger] after_plain.cluster_cache@[j]).pos@
            == after_offset.cluster_cache@[j].pos@ && after_plain.cluster_cache@[j].idx@
            == after_offset.cluster_cache@[j].idx@ by {
            if j != id as int {
                assert(after_plain.cluster_cache@[j] == before.cluster_cache@[j]);
                assert(after_offset.cluster_cache@[j] == before.cluster_cache@[j]);
            }
        }
    }
}

/// Asking twice for the same cluster gives the same cluster and leaves the tree holding
/// what the first answer left; once the cluster holds positions, the second answer is
/// the very cluster the first gave and the tree's slots are unchanged.
pub proof fn law_repeated_read_changes_nothing(
    before: CTree,
    middle: CTree,
    after: CTree,
    id: u32,
    first: Option<Cluster>,
    second: Option<Cluster>,
)
    requires
        before.wf(),
        fetched(before, middle, id, first),
        fetched(middle, after, id, second),
    ensures
        first is Some <==> second is Some,
        first matches Some(c) ==> second->0.pos@ == c.pos@ && second->0.idx@ == c.idx@,
        same_reads(middle, after),
        first matches Some(c) && c.pos@.len() > 0 ==> second == first && after.cluster_cache@ == middle.cluster_cache@,
{
    if let Some(c) = first {
        let d = second->0;
        law_cluster_reads_agree(c, d, before.data@, before.nodes@[id as int].offset as int);
        assert forall|j: int| 0 <= j < middle.cluster_cache@.len() implies (#[trigger] middle.cluster_cache@[j]).pos@
            == after.cluster_cache@[j].pos@ && middle.cluster_cache@[j].idx@ == after.cluster_cache@[j].idx@ by {
            if j != id as int {
                assert(after.cluster_cache@[j] == middle.cluster_cache@[j]);
            }
        }
        if c.pos@.len() > 0 {
            assert(after.cluster_cache@ =~= middle.cluster_cache@);
        }
    }
}

} // verus!
