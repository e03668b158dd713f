//! The compacted, read-only octree: a point-in-time snapshot of a mutable
//! [`crate::octree::Octree`], produced by a one-way freeze.  It supports
//! only queries; its ids are widened to 32 bits, numeric values preserved.

use vstd::prelude::*;
use crate::octree::{
    child_idx, grid, grid_exec, is_pow2, lemma_grid_from, node_at, node_inv, off, Node, Octree,
    OctreeError,
};

verus! {

/// A cell of the frozen tree: same shape discipline as the mutable cell,
/// with a wider content id.
pub struct StaticNode {
    pub leaf: bool,
    pub id: u32,
    pub nodes: Vec<StaticNode>,
}

/// Well-formedness of a frozen cell covering a cube of edge `s`: a leaf has
/// no children; an internal cell has edge at least 2, id 0 and exactly eight
/// children, each well-formed at half the edge.
pub open spec fn static_node_inv(n: StaticNode, s: nat) -> bool
    decreases s,
{
    if n.leaf {
        n.nodes@.len() == 0
    } else {
        &&& s >= 2
        &&& n.id == 0
        &&& n.nodes@.len() == 8
        &&& (forall|i: int| 0 <= i < 8 ==> static_node_inv(#[trigger] n.nodes@[i], (s / 2) as nat))
    }
}

/// The content id governing point `(x, y, z)` of a frozen cell of edge `s`,
/// by the same octant descent as the mutable tree.
pub open spec fn static_node_at(n: StaticNode, s: nat, x: int, y: int, z: int) -> u32
    decreases s,
{
    if n.leaf {
        n.id
    } else if s >= 2 {
        let h: int = (s / 2) as int;
        static_node_at(
            n.nodes@[child_idx(h, x, y, z)],
            (s / 2) as nat,
            off(x, h),
            off(y, h),
            off(z, h),
        )
    } else {
        0
    }
}

/// Deep-copies a well-formed cell into the compacted form, widening each
/// id to 32 bits; the copy reads the same id at every point.
fn freeze_node(n: &Node, Ghost(s): Ghost<nat>) -> (r: StaticNode)
    requires
        node_inv(*n, s),
    ensures
        static_node_inv(r, s),
        forall|x: int, y: int, z: int| #[trigger]
            static_node_at(r, s, x, y, z) == node_at(*n, s, x, y, z) as u32,
    decreases s,
{
    if n.leaf {
        StaticNode { leaf: true, id: n.id as u32, nodes: Vec::new() }
    } else {
        let mut c: Vec<StaticNode> = Vec::new();
        let mut k: usize = 0;
        while k < 8
            invariant
                node_inv(*n, s),
                !n.leaf,
                n.nodes@.len() == 8,
                k <= 8,
                c@.len() == k,
                forall|i: int| 0 <= i < k ==> static_node_inv(#[trigger] c@[i], (s / 2) as nat),
                forall|i: int, x: int, y: int, z: int|
                    0 <= i < k ==> #[trigger] static_node_at(c@[i], (s / 2) as nat, x, y, z)
                        == node_at(n.nodes@[i], (s / 2) as nat, x, y, z) as u32,
            decreases 8 - k,
        {
            let child = freeze_node(&n.nodes[k], Ghost((s / 2) as nat));
            c.push(child);
            k += 1;
        }
        let r = StaticNode { leaf: false, id: 0, nodes: c };
        proof {
            assert forall|x: int, y: int, z: int| #[trigger]
                static_node_at(r, s, x, y, z) == node_at(*n, s, x, y, z) as u32 by {
                let h: int = (s / 2) as int;
                let j: int = child_idx(h, x, y, z);
                assert(0 <= j < 8);
                assert(static_node_at(r.nodes@[j], (s / 2) as nat, off(x, h), off(y, h), off(z, h))
                    == node_at(n.nodes@[j], (s / 2) as nat, off(x, h), off(y, h), off(z, h))
                    as u32);
            }
        }
        r
    }
}

/// Reads the id governing `(x, y, z)` inside a well-formed frozen cell of
/// edge `s`.
fn static_node_query(n: &StaticNode, s: u64, x: u64, y: u64, z: u64) -> (r: u32)
    requires
        static_node_inv(*n, s as nat),
    ensures
        r == static_node_at(*n, s as nat, x as int, y as int, z as int),
    decreases s,
{
    if n.leaf {
        n.id
    } else {
        let h: u64 = s / 2;
        let mut idx: usize = 0;
        let nx: u64 = if x >= h {
            idx += 4;
            x - h
        } else {
            x
        };
        let ny: u64 = if y >= h {
            idx += 2;
            y - h
        } else {
            y
        };
        let nz: u64 = if z >= h {
            idx += 1;
            z - h
        } else {
            z
        };
        static_node_query(&n.nodes[idx], h, nx, ny, nz)
    }
}

/// The frozen octree: owns the compacted root cell and the edge length
/// copied from the source at freeze time; structurally immutable.
pub struct StaticOctree {
    pub size: u32,
    pub root_node: StaticNode,
}

impl StaticOctree {
    /// Edge length of the internal power-of-two cube covered by the root.
    pub open spec fn extent(self) -> nat {
        grid(self.size as nat)
    }

    /// Validity: positive size and a well-formed root covering the extent.
    pub open spec fn wf(self) -> bool {
        &&& self.size >= 1
        &&& self.size <= self.extent()
        &&& is_pow2(self.extent())
        &&& static_node_inv(self.root_node, self.extent())
    }

    /// The content id stored for a point, 0 meaning empty.
    pub open spec fn at(self, x: int, y: int, z: int) -> u32 {
        static_node_at(self.root_node, self.extent(), x, y, z)
    }

    /// Whether a point lies inside the addressable volume `[0, size)^3`.
    pub open spec fn spec_in_bounds(self, p: (i64, i64, i64)) -> bool {
        &&& 0 <= p.0 < self.size
        &&& 0 <= p.1 < self.size
        &&& 0 <= p.2 < self.size
    }

    /// True when every coordinate of `p` lies in `[0, size)`.
    pub fn in_bounds(&self, p: (i64, i64, i64)) -> (r: bool)
        ensures
            r == self.spec_in_bounds(p),
    {
        p.0 >= 0 && p.0 < self.size as i64 && p.1 >= 0 && p.1 < self.size as i64 && p.2 >= 0
            && p.2 < self.size as i64
    }

    /// Creates an empty snapshot of the given edge length, as freezing a
    /// freshly created mutable tree would.  A zero edge length is rejected.
    pub fn new(size: u32) -> (r: Result<StaticOctree, OctreeError>)
        ensures
            size == 0 ==> r == Err::<StaticOctree, OctreeError>(OctreeError::InvalidSize),
            size >= 1 ==> r is Ok,
            size >= 1 ==> (r->Ok_0).wf() && (r->Ok_0).size == size,
            size >= 1 ==> forall|x: int, y: int, z: int| (r->Ok_0).at(x, y, z) == 0,
    {
        if size == 0 {
            Err(OctreeError::InvalidSize)
        } else {
            proof {
                lemma_grid_from(1, size as nat);
            }
            Ok(
                StaticOctree {
                    size,
                    root_node: StaticNode { leaf: true, id: 0, nodes: Vec::new() },
                },
            )
        }
    }

    /// Freezes a point-in-time snapshot: a compacted, fully independent
    /// copy of the source tree's shape and content, every id widened to 32
    /// bits with its numeric value preserved.
    pub fn freeze(source: &Octree) -> (r: StaticOctree)
        requires
            source.wf(),
        ensures
            r.wf(),
            r.size == source.size,
            forall|x: int, y: int, z: int| #[trigger]
                r.at(x, y, z) == source.at(x, y, z) as u32,
    {
        let root = freeze_node(&source.root_node, Ghost(source.extent()));
        StaticOctree { size: source.size, root_node: root }
    }

    /// Looks up the content id at `p` in the snapshot, by the same octant
    /// rule as the mutable tree; 0 means empty.  Fails with `OutOfBounds`
    /// exactly when a coordinate lies outside `[0, size)`.
    pub fn query(&self, p: (i64, i64, i64)) -> (r: Result<u32, OctreeError>)
        requires
            self.wf(),
        ensures
            self.spec_in_bounds(p) ==> r == Ok::<u32, OctreeError>(
                self.at(p.0 as int, p.1 as int, p.2 as int),
            ),
            !self.spec_in_bounds(p) ==> r == Err::<u32, OctreeError>(OctreeError::OutOfBounds),
    {
        if self.in_bounds(p) {
            let g: u64 = grid_exec(self.size);
            Ok(static_node_query(&self.root_node, g, p.0 as u64, p.1 as u64, p.2 as u64))
        } else {
            Err(OctreeError::OutOfBounds)
        }
    }
}

} // verus!
