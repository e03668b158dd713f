//! The mutable octree: a cubic volume of edge `size` meters, recursively
//! subdivided into octants so that sparse voxel content can be edited and
//! queried by integer coordinates.
//!
//! A cell either is a leaf carrying one content id for its whole region
//! (0 meaning empty), or has exactly eight children, one per octant.
//! Internally the root covers a power-of-two cube at least as large as
//! `size`; only points of `[0, size)^3` are addressable.

use vstd::prelude::*;

verus! {

/// Errors reported by the octree operations.
#[derive(Clone, Copy, PartialEq, Eq, Debug)]
pub enum OctreeError {
    /// The requested root edge length was zero.
    InvalidSize,
    /// A coordinate lay outside the volume `[0, size)^3`.
    OutOfBounds,
}

/// A cell of the mutable tree: either a leaf (no children) whose `id` holds
/// the content of its whole region, or an internal cell with exactly eight
/// children indexed by octant.
pub struct Node {
    pub leaf: bool,
    pub id: u16,
    pub nodes: Vec<Node>,
}

/// `s` is a power of two.
pub open spec fn is_pow2(s: nat) -> bool
    decreases s,
{
    if s == 0 {
        false
    } else if s == 1 {
        true
    } else {
        s % 2 == 0 && is_pow2(s / 2)
    }
}

/// Doubling from `g`: the first value at or above `size` that is reached.
pub open spec fn grid_from(g: nat, size: nat) -> nat
    decreases (if g >= size { 0int } else { size - g }) when g >= 1
{
    if g >= size {
        g
    } else {
        grid_from(g * 2, size)
    }
}

/// Edge length of the internal cube: the least power of two at or above
/// `size`.
pub open spec fn grid(size: nat) -> nat {
    grid_from(1, size)
}

/// Octant selection at a cell whose halves split at `h`: each axis
/// contributes one bit, set when the coordinate falls in the high half.
pub open spec fn child_idx(h: int, x: int, y: int, z: int) -> int {
    (if x >= h {
        4int
    } else {
        0int
    }) + (if y >= h {
        2int
    } else {
        0int
    }) + (if z >= h {
        1int
    } else {
        0int
    })
}

/// Coordinate made relative to the selected octant's low corner.
pub open spec fn off(c: int, h: int) -> int {
    if c >= h {
        c - h
    } else {
        c
    }
}

/// All cells of `c` are leaves and carry one and the same id.
pub open spec fn all_leaf_eq(c: Seq<Node>) -> bool {
    forall|i: int| 0 <= i < c.len() ==> (#[trigger] c[i]).leaf && c[i].id == c[0].id
}

/// Well-formedness of a cell covering a cube of edge `s`: a leaf has no
/// children; an internal cell has edge at least 2, id 0, exactly eight
/// children, each well-formed at half the edge, and keeps itself merged:
/// its eight children are never all leaves of one id.
pub open spec fn node_inv(n: Node, s: nat) -> bool
    decreases s,
{
    if n.leaf {
        n.nodes@.len() == 0
    } else {
        &&& s >= 2
        &&& n.id == 0
        &&& n.nodes@.len() == 8
        &&& (forall|i: int| 0 <= i < 8 ==> node_inv(#[trigger] n.nodes@[i], (s / 2) as nat))
        &&& !all_leaf_eq(n.nodes@)
    }
}

/// The content id governing point `(x, y, z)` of a cell of edge `s`,
/// coordinates relative to the cell's low corner: the id of the leaf that
/// the octant descent reaches.
pub open spec fn node_at(n: Node, s: nat, x: int, y: int, z: int) -> u16
    decreases s,
{
    if n.leaf {
        n.id
    } else if s >= 2 {
        let h: int = (s / 2) as int;
        node_at(n.nodes@[child_idx(h, x, y, z)], (s / 2) as nat, off(x, h), off(y, h), off(z, h))
    } else {
        0
    }
}

pub(crate) proof fn lemma_grid_from(g: nat, size: nat)
    requires
        g >= 1,
        is_pow2(g),
    ensures
        grid_from(g, size) >= size,
        grid_from(g, size) >= g,
        is_pow2(grid_from(g, size)),
    decreases (if g >= size { 0int } else { size - g }),
{
    if g >= size {
    } else {
        assert(is_pow2(g * 2)) by {
            assert((g * 2) % 2 == 0 && (g * 2) / 2 == g) by (nonlinear_arith);
        };
        lemma_grid_from(g * 2, size);
    }
}

/// The least power of two at or above `size`, computed by doubling.
pub(crate) fn grid_exec(size: u32) -> (g: u64)
    requires
        size >= 1,
    ensures
        g == grid(size as nat),
        g >= size,
        is_pow2(g as nat),
    no_unwind
{
    let mut g: u64 = 1;
    while g < size as u64
        invariant
            1 <= g,
            is_pow2(g as nat),
            grid_from(g as nat, size as nat) == grid(size as nat),
        decreases 2 * (size as int) - g as int,
    {
        proof {
            assert(is_pow2((g * 2) as nat)) by {
                assert(((g * 2) as nat) % 2 == 0 && ((g * 2) as nat) / 2 == g as nat)
                    by (nonlinear_arith);
            };
        }
        g = g * 2;
    }
    g
}

/// The mutable octree: owns the root cell and the edge length of the
/// volume it covers.
pub struct Octree {
    pub size: u32,
    pub root_node: Node,
}

impl Octree {
    /// Edge length of the internal power-of-two cube covered by the root.
    pub open spec fn extent(self) -> nat {
        grid(self.size as nat)
    }

    /// Validity: positive size and a well-formed root covering the extent.
    pub open spec fn wf(self) -> bool {
        &&& self.size >= 1
        &&& self.size <= self.extent()
        &&& is_pow2(self.extent())
        &&& node_inv(self.root_node, self.extent())
    }

    /// The content id stored for a point, 0 meaning empty.
    pub open spec fn at(self, x: int, y: int, z: int) -> u16 {
        node_at(self.root_node, self.extent(), x, y, z)
    }

    /// Whether a point lies inside the addressable volume `[0, size)^3`.
    pub open spec fn spec_in_bounds(self, p: (i64, i64, i64)) -> bool {
        &&& 0 <= p.0 < self.size
        &&& 0 <= p.1 < self.size
        &&& 0 <= p.2 < self.size
    }

    /// True when every coordinate of `p` lies in `[0, size)`.
    pub fn in_bounds(&self, p: (i64, i64, i64)) -> (r: bool)
        ensures
            r == self.spec_in_bounds(p),
    {
        p.0 >= 0 && p.0 < self.size as i64 && p.1 >= 0 && p.1 < self.size as i64 && p.2 >= 0
            && p.2 < self.size as i64
    }

    /// Creates a tree of the given edge length whose whole volume is empty.
    /// A zero edge length is rejected.
    pub fn new(size: u32) -> (r: Result<Octree, OctreeError>)
        ensures
            size == 0 ==> r == Err::<Octree, OctreeError>(OctreeError::InvalidSize),
            size >= 1 ==> r is Ok,
            size >= 1 ==> (r->Ok_0).wf() && (r->Ok_0).size == size,
            size >= 1 ==> forall|x: int, y: int, z: int| (r->Ok_0).at(x, y, z) == 0,
    {
        if size == 0 {
            Err(OctreeError::InvalidSize)
        } else {
            proof {
                lemma_grid_from(1, size as nat);
            }
            Ok(Octree { size, root_node: Node { leaf: true, id: 0, nodes: Vec::new() } })
        }
    }

    /// Looks up the content id at `p`, descending from the root by octant
    /// until a leaf is reached; 0 means empty.  Fails with `OutOfBounds`
    /// exactly when a coordinate lies outside `[0, size)`.
    pub fn query(&self, p: (i64, i64, i64)) -> (r: Result<u16, OctreeError>)
        requires
            self.wf(),
        ensures
            self.spec_in_bounds(p) ==> r == Ok::<u16, OctreeError>(
                self.at(p.0 as int, p.1 as int, p.2 as int),
            ),
            !self.spec_in_bounds(p) ==> r == Err::<u16, OctreeError>(OctreeError::OutOfBounds),
    {
        if self.in_bounds(p) {
            let g: u64 = grid_exec(self.size);
            Ok(node_query(&self.root_node, g, p.0 as u64, p.1 as u64, p.2 as u64))
        } else {
            Err(OctreeError::OutOfBounds)
        }
    }

    /// Stores `id` for exactly the point `p`, subdividing along the descent
    /// only where a finer distinction is needed and merging eight identical
    /// leaf children back into one; id 0 empties the point.  Fails with
    /// `OutOfBounds` exactly when a coordinate lies outside `[0, size)`,
    /// leaving the tree unchanged.
    pub fn insert(&mut self, p: (i64, i64, i64), id: u16) -> (r: Result<(), OctreeError>)
        requires
            old(self).wf(),
        ensures
            final(self).wf(),
            final(self).size == old(self).size,
            old(self).spec_in_bounds(p) ==> r == Ok::<(), OctreeError>(()),
            !old(self).spec_in_bounds(p) ==> r == Err::<(), OctreeError>(OctreeError::OutOfBounds)
                && *final(self) == *old(self),
            old(self).spec_in_bounds(p) ==> final(self).at(p.0 as int, p.1 as int, p.2 as int)
                == id,
            old(self).spec_in_bounds(p) ==> forall|qx: int, qy: int, qz: int|
                0 <= qx < old(self).extent() && 0 <= qy < old(self).extent() && 0 <= qz < old(
                    self,
                ).extent() && !(qx == p.0 && qy == p.1 && qz == p.2)
                    ==> #[trigger] final(self).at(qx, qy, qz) == old(self).at(qx, qy, qz),
    {
        if self.in_bounds(p) {
            let g: u64 = grid_exec(self.size);
            node_insert(&mut self.root_node, g, p.0 as u64, p.1 as u64, p.2 as u64, id);
            Ok(())
        } else {
            Err(OctreeError::OutOfBounds)
        }
    }

    /// Empties the point `p`: the same operation as inserting id 0 there.
    /// Fails with `OutOfBounds` exactly when a coordinate lies outside
    /// `[0, size)`, leaving the tree unchanged.
    pub fn remove(&mut self, p: (i64, i64, i64)) -> (r: Result<(), OctreeError>)
        requires
            old(self).wf(),
        ensures
            final(self).wf(),
            final(self).size == old(self).size,
            old(self).spec_in_bounds(p) ==> r == Ok::<(), OctreeError>(()),
            !old(self).spec_in_bounds(p) ==> r == Err::<(), OctreeError>(OctreeError::OutOfBounds)
                && *final(self) == *old(self),
            old(self).spec_in_bounds(p) ==> final(self).at(p.0 as int, p.1 as int, p.2 as int)
                == 0,
            old(self).spec_in_bounds(p) ==> forall|qx: int, qy: int, qz: int|
                0 <= qx < old(self).extent() && 0 <= qy < old(self).extent() && 0 <= qz < old(
                    self,
                ).extent() && !(qx == p.0 && qy == p.1 && qz == p.2)
                    ==> #[trigger] final(self).at(qx, qy, qz) == old(self).at(qx, qy, qz),
    {
        self.insert(p, 0)
    }
}

proof fn lemma_pow2_halves(s: nat)
    requires
        is_pow2(s),
        s >= 2,
    ensures
        s % 2 == 0,
        2 * (s / 2) == s,
        s / 2 >= 1,
        is_pow2(s / 2),
{
    vstd::arithmetic::div_mod::lemma_fundamental_div_mod(s as int, 2);
}

/// Equal octant indices force equal per-axis half selections.
proof fn lemma_child_idx_eq(h: int, x: int, y: int, z: int, qx: int, qy: int, qz: int)
    requires
        child_idx(h, x, y, z) == child_idx(h, qx, qy, qz),
    ensures
        (x >= h) == (qx >= h),
        (y >= h) == (qy >= h),
        (z >= h) == (qz >= h),
{
}

/// One level of an edit: `n0` is the cell before, `c0` its octant
/// decomposition, `c1` the children after the selected child was edited,
/// and `fin` the rebuilt cell (merged back into one leaf exactly when the
/// eight children came out as leaves of one id).  The rebuilt cell is
/// well-formed, reads `v` at the edited point, and reads as before
/// everywhere else.
proof fn lemma_insert_step(
    n0: Node,
    c0: Seq<Node>,
    c1: Seq<Node>,
    fin: Node,
    s: nat,
    x: int,
    y: int,
    z: int,
    v: u16,
)
    requires
        is_pow2(s),
        s >= 2,
        0 <= x < s,
        0 <= y < s,
        0 <= z < s,
        node_inv(n0, s),
        c0.len() == 8,
        forall|i: int| 0 <= i < 8 ==> node_inv(#[trigger] c0[i], s / 2),
        n0.leaf ==> forall|i: int| 0 <= i < 8 ==> (#[trigger] c0[i]).leaf && c0[i].id == n0.id,
        !n0.leaf ==> c0 == n0.nodes@,
        c1 == c0.update(child_idx((s / 2) as int, x, y, z), c1[child_idx((s / 2) as int, x, y, z)]),
        node_inv(c1[child_idx((s / 2) as int, x, y, z)], s / 2),
        node_at(
            c1[child_idx((s / 2) as int, x, y, z)],
            s / 2,
            off(x, (s / 2) as int),
            off(y, (s / 2) as int),
            off(z, (s / 2) as int),
        ) == v,
        forall|ax: int, ay: int, az: int|
            0 <= ax < s / 2 && 0 <= ay < s / 2 && 0 <= az < s / 2 && !(ax == off(
                x,
                (s / 2) as int,
            ) && ay == off(y, (s / 2) as int) && az == off(z, (s / 2) as int))
                ==> #[trigger] node_at(c1[child_idx((s / 2) as int, x, y, z)], s / 2, ax, ay, az)
                == node_at(c0[child_idx((s / 2) as int, x, y, z)], s / 2, ax, ay, az),
        all_leaf_eq(c1) ==> fin.leaf && fin.id == c1[0].id && fin.nodes@.len() == 0,
        !all_leaf_eq(c1) ==> !fin.leaf && fin.id == 0 && fin.nodes@ == c1,
    ensures
        node_inv(fin, s),
        node_at(fin, s, x, y, z) == v,
        forall|qx: int, qy: int, qz: int|
            0 <= qx < s && 0 <= qy < s && 0 <= qz < s && !(qx == x && qy == y && qz == z)
                ==> #[trigger] node_at(fin, s, qx, qy, qz) == node_at(n0, s, qx, qy, qz),
{
    lemma_pow2_halves(s);
    let h: int = (s / 2) as int;
    let hn: nat = s / 2;
    let idx: int = child_idx(h, x, y, z);
    assert(0 <= idx < 8);
    // the edited point now reads v
    if all_leaf_eq(c1) {
        assert(c1[idx].leaf && c1[idx].id == c1[0].id);
        assert(node_at(fin, s, x, y, z) == fin.id);
    } else {
        assert(node_at(fin, s, x, y, z) == node_at(
            fin.nodes@[child_idx(h, x, y, z)],
            hn,
            off(x, h),
            off(y, h),
            off(z, h),
        ));
    }
    // the invariant is restored
    if all_leaf_eq(c1) {
        assert(node_inv(fin, s));
    } else {
        assert forall|i: int| 0 <= i < 8 implies node_inv(#[trigger] c1[i], hn) by {
            if i != idx {
                assert(c1[i] == c0[i]);
            }
        }
        assert(node_inv(fin, s));
    }
    // every other point keeps its id
    assert forall|qx: int, qy: int, qz: int|
        0 <= qx < s && 0 <= qy < s && 0 <= qz < s && !(qx == x && qy == y && qz
            == z) implies #[trigger] node_at(fin, s, qx, qy, qz) == node_at(n0, s, qx, qy, qz) by {
        let j: int = child_idx(h, qx, qy, qz);
        let ox: int = off(qx, h);
        let oy: int = off(qy, h);
        let oz: int = off(qz, h);
        assert(0 <= j < 8);
        assert(0 <= ox < h && 0 <= oy < h && 0 <= oz < h);
        // before the edit, octant by octant
        if n0.leaf {
            assert(node_at(n0, s, qx, qy, qz) == n0.id);
            assert(c0[j].leaf && c0[j].id == n0.id);
            assert(node_at(c0[j], hn, ox, oy, oz) == n0.id);
        } else {
            assert(node_at(n0, s, qx, qy, qz) == node_at(c0[j], hn, ox, oy, oz));
        }
        // across the edit, child by child
        if j != idx {
            assert(c1[j] == c0[j]);
        } else {
            lemma_child_idx_eq(h, x, y, z, qx, qy, qz);
            assert(!(ox == off(x, h) && oy == off(y, h) && oz == off(z, h)));
            assert(node_at(c1[j], hn, ox, oy, oz) == node_at(c0[j], hn, ox, oy, oz));
        }
        // after the rebuild
        if all_leaf_eq(c1) {
            assert(c1[j].leaf && c1[j].id == c1[0].id);
            assert(node_at(c1[j], hn, ox, oy, oz) == c1[0].id);
            assert(node_at(fin, s, qx, qy, qz) == fin.id);
        } else {
            assert(node_at(fin, s, qx, qy, qz) == node_at(c1[j], hn, ox, oy, oz));
        }
    }
}

/// Sets the id governing exactly the unit cell of `(x, y, z)` inside a
/// well-formed cell of edge `s` (a power of two), subdividing along the
/// descent where a finer distinction is needed and merging eight identical
/// leaf children back into one; every other point of the cell keeps its id.
#[verifier::rlimit(50)]
fn node_insert(n: &mut Node, s: u64, x: u64, y: u64, z: u64, v: u16)
    requires
        node_inv(*old(n), s as nat),
        is_pow2(s as nat),
        x < s,
        y < s,
        z < s,
    ensures
        node_inv(*final(n), s as nat),
        node_at(*final(n), s as nat, x as int, y as int, z as int) == v,
        forall|qx: int, qy: int, qz: int|
            0 <= qx < s && 0 <= qy < s && 0 <= qz < s && !(qx == x && qy == y && qz == z)
                ==> #[trigger] node_at(*final(n), s as nat, qx, qy, qz) == node_at(
                *old(n),
                s as nat,
                qx,
                qy,
                qz,
            ),
    decreases s,
{
    if n.leaf && n.id == v {
        // the whole region already carries this id
    } else if s == 1 {
        // unit cell: the leaf is the point itself
        n.id = v;
    } else {
        let ghost n0 = *n;
        let h: u64 = s / 2;
        proof {
            lemma_pow2_halves(s as nat);
        }
        if n.leaf {
            // a finer distinction is needed: split into eight copies
            let w: u16 = n.id;
            let mut c: Vec<Node> = Vec::new();
            let mut k: usize = 0;
            while k < 8
                invariant
                    k <= 8,
                    c@.len() == k,
                    forall|i: int|
                        0 <= i < k ==> (#[trigger] c@[i]).leaf && c@[i].id == w
                            && c@[i].nodes@.len() == 0,
                decreases 8 - k,
            {
                c.push(Node { leaf: true, id: w, nodes: Vec::new() });
                k += 1;
            }
            n.leaf = false;
            n.id = 0;
            n.nodes = c;
        }
        let ghost c0 = n.nodes@;
        proof {
            assert(forall|i: int| 0 <= i < 8 ==> node_inv(#[trigger] c0[i], (s / 2) as nat));
        }
        let mut idx: usize = 0;
        let nx: u64 = if x >= h {
            idx += 4;
            x - h
        } else {
            x
        };
        let ny: u64 = if y >= h {
            idx += 2;
            y - h
        } else {
            y
        };
        let nz: u64 = if z >= h {
            idx += 1;
            z - h
        } else {
            z
        };
        proof {
            assert(idx == child_idx(h as int, x as int, y as int, z as int));
            assert(nx < h && ny < h && nz < h);
        }
        node_insert(&mut n.nodes[idx], h, nx, ny, nz, v);
        let ghost c1 = n.nodes@;
        let alleq: bool = n.nodes[0].leaf && n.nodes[1].leaf && n.nodes[2].leaf
            && n.nodes[3].leaf && n.nodes[4].leaf && n.nodes[5].leaf && n.nodes[6].leaf
            && n.nodes[7].leaf && n.nodes[1].id == n.nodes[0].id && n.nodes[2].id == n.nodes[0].id
            && n.nodes[3].id == n.nodes[0].id && n.nodes[4].id == n.nodes[0].id
            && n.nodes[5].id == n.nodes[0].id && n.nodes[6].id == n.nodes[0].id
            && n.nodes[7].id == n.nodes[0].id;
        proof {
            assert(alleq == all_leaf_eq(c1));
        }
        if alleq {
            let id0: u16 = n.nodes[0].id;
            n.leaf = true;
            n.id = id0;
            n.nodes = Vec::new();
        }
        proof {
            assert(c1 == c0.update(idx as int, c1[idx as int]));
            lemma_insert_step(
                n0,
                c0,
                c1,
                *n,
                s as nat,
                x as int,
                y as int,
                z as int,
                v,
            );
        }
    }
}

/// The two cells have identical shape and content, compared level by level
/// while the edge `s` allows children; for cells that are well-formed at
/// `s` this reaches every node of both.
pub open spec fn same_tree(a: Node, b: Node, s: nat) -> bool
    decreases s,
{
    &&& a.leaf == b.leaf
    &&& a.id == b.id
    &&& a.nodes@.len() == b.nodes@.len()
    &&& (s >= 2 ==> forall|i: int|
        0 <= i < a.nodes@.len() ==> same_tree(#[trigger] a.nodes@[i], b.nodes@[i], s / 2))
}

proof fn lemma_bits(i: int)
    requires
        0 <= i < 8,
    ensures
        0 <= i / 4 <= 1,
        0 <= (i % 4) / 2 <= 1,
        0 <= i % 2 <= 1,
        4 * (i / 4) + 2 * ((i % 4) / 2) + i % 2 == i,
{
}

/// Any offset inside octant `i` of a cell split at `h` is reached by one
/// point of the cell, which routes back to `i` with that offset.
proof fn lemma_embed(h: int, i: int, cx: int, cy: int, cz: int) -> (p: (int, int, int))
    requires
        h >= 1,
        0 <= i < 8,
        0 <= cx < h,
        0 <= cy < h,
        0 <= cz < h,
    ensures
        0 <= p.0 < 2 * h,
        0 <= p.1 < 2 * h,
        0 <= p.2 < 2 * h,
        child_idx(h, p.0, p.1, p.2) == i,
        off(p.0, h) == cx,
        off(p.1, h) == cy,
        off(p.2, h) == cz,
{
    lemma_bits(i);
    let px: int = if i / 4 == 1 {
        cx + h
    } else {
        cx
    };
    let py: int = if (i % 4) / 2 == 1 {
        cy + h
    } else {
        cy
    };
    let pz: int = if i % 2 == 1 {
        cz + h
    } else {
        cz
    };
    (px, py, pz)
}

/// A well-formed internal cell never reads as one constant id: it holds a
/// distinction somewhere, witnessed by two points with different ids.
proof fn lemma_internal_two_ids(n: Node, s: nat) -> (pq: ((int, int, int), (int, int, int)))
    requires
        is_pow2(s),
        node_inv(n, s),
        !n.leaf,
    ensures
        0 <= pq.0.0 < s && 0 <= pq.0.1 < s && 0 <= pq.0.2 < s,
        0 <= pq.1.0 < s && 0 <= pq.1.1 < s && 0 <= pq.1.2 < s,
        node_at(n, s, pq.0.0, pq.0.1, pq.0.2) != node_at(n, s, pq.1.0, pq.1.1, pq.1.2),
    decreases s,
{
    lemma_pow2_halves(s);
    let h: int = (s / 2) as int;
    let hn: nat = s / 2;
    let c = n.nodes@;
    assert(!all_leaf_eq(c));
    if exists|i: int| 0 <= i < 8 && !(#[trigger] c[i]).leaf {
        // some child is internal: it already holds a distinction
        let i = choose|i: int| 0 <= i < 8 && !(#[trigger] c[i]).leaf;
        let sub = lemma_internal_two_ids(c[i], hn);
        let p = lemma_embed(h, i, sub.0.0, sub.0.1, sub.0.2);
        let q = lemma_embed(h, i, sub.1.0, sub.1.1, sub.1.2);
        assert(node_at(n, s, p.0, p.1, p.2) == node_at(c[i], hn, sub.0.0, sub.0.1, sub.0.2));
        assert(node_at(n, s, q.0, q.1, q.2) == node_at(c[i], hn, sub.1.0, sub.1.1, sub.1.2));
        (p, q)
    } else {
        // eight leaf children, not all of one id: two of them differ
        let i = choose|i: int|
            0 <= i < 8 && !((#[trigger] c[i]).leaf && c[i].id == c[0].id);
        assert(c[i].leaf && c[0].leaf);
        assert(c[i].id != c[0].id);
        let p = lemma_embed(h, i, 0, 0, 0);
        let q = lemma_embed(h, 0, 0, 0, 0);
        assert(node_at(n, s, p.0, p.1, p.2) == node_at(c[i], hn, 0, 0, 0));
        assert(node_at(n, s, q.0, q.1, q.2) == node_at(c[0], hn, 0, 0, 0));
        (p, q)
    }
}

/// Two well-formed cells of one edge that read the same id at every point
/// of the cell have identical shape and content: subdividing only on
/// demand and merging on write keep the representation canonical.
pub proof fn lemma_canonical_shape(a: Node, b: Node, s: nat)
    requires
        is_pow2(s),
        node_inv(a, s),
        node_inv(b, s),
        forall|x: int, y: int, z: int|
            0 <= x < s && 0 <= y < s && 0 <= z < s ==> #[trigger] node_at(a, s, x, y, z)
                == node_at(b, s, x, y, z),
    ensures
        same_tree(a, b, s),
    decreases s,
{
    if a.leaf && b.leaf {
        assert(node_at(a, s, 0, 0, 0) == a.id && node_at(b, s, 0, 0, 0) == b.id);
        assert(same_tree(a, b, s));
    } else if a.leaf && !b.leaf {
        let pq = lemma_internal_two_ids(b, s);
        assert(node_at(a, s, pq.0.0, pq.0.1, pq.0.2) == a.id);
        assert(node_at(a, s, pq.1.0, pq.1.1, pq.1.2) == a.id);
        assert(false);
    } else if !a.leaf && b.leaf {
        let pq = lemma_internal_two_ids(a, s);
        assert(node_at(b, s, pq.0.0, pq.0.1, pq.0.2) == b.id);
        assert(node_at(b, s, pq.1.0, pq.1.1, pq.1.2) == b.id);
        assert(false);
    } else {
        lemma_pow2_halves(s);
        let h: int = (s / 2) as int;
        let hn: nat = s / 2;
        assert forall|i: int| 0 <= i < 8 implies same_tree(
            #[trigger] a.nodes@[i],
            b.nodes@[i],
            hn,
        ) by {
            assert forall|cx: int, cy: int, cz: int|
                0 <= cx < hn && 0 <= cy < hn && 0 <= cz < hn implies #[trigger] node_at(
                a.nodes@[i],
                hn,
                cx,
                cy,
                cz,
            ) == node_at(b.nodes@[i], hn, cx, cy, cz) by {
                let p = lemma_embed(h, i, cx, cy, cz);
                assert(node_at(a, s, p.0, p.1, p.2) == node_at(a.nodes@[i], hn, cx, cy, cz));
                assert(node_at(b, s, p.0, p.1, p.2) == node_at(b.nodes@[i], hn, cx, cy, cz));
                assert(node_at(a, s, p.0, p.1, p.2) == node_at(b, s, p.0, p.1, p.2));
            }
            lemma_canonical_shape(a.nodes@[i], b.nodes@[i], hn);
        }
        assert(same_tree(a, b, s));
    }
}

/// A well-formed cell whose whole region reads one id is a single leaf of
/// that id: merging on write never leaves a subdivided cell of uniform
/// content behind, however the region came to be uniform.
pub proof fn lemma_constant_region_is_leaf(n: Node, s: nat, v: u16)
    requires
        is_pow2(s),
        node_inv(n, s),
        forall|x: int, y: int, z: int|
            0 <= x < s && 0 <= y < s && 0 <= z < s ==> #[trigger] node_at(n, s, x, y, z) == v,
    ensures
        n.leaf,
        n.id == v,
{
    if n.leaf {
        assert(node_at(n, s, 0, 0, 0) == v);
    } else {
        let pq = lemma_internal_two_ids(n, s);
        assert(node_at(n, s, pq.0.0, pq.0.1, pq.0.2) == v);
        assert(node_at(n, s, pq.1.0, pq.1.1, pq.1.2) == v);
    }
}

/// Inserting an id at a point it already reads changes nothing of the
/// tree's shape; in particular `insert(p, v)` twice yields the same tree
/// as `insert(p, v)` once.  `once` stands for the tree after the first
/// insert, `twice` for the tree after the repeated one: the contract of
/// `insert` supplies every hypothesis.
pub proof fn lemma_insert_idempotent(once: Octree, twice: Octree, p: (i64, i64, i64), v: u16)
    requires
        once.wf(),
        twice.wf(),
        once.size == twice.size,
        once.spec_in_bounds(p),
        once.at(p.0 as int, p.1 as int, p.2 as int) == v,
        twice.at(p.0 as int, p.1 as int, p.2 as int) == v,
        forall|qx: int, qy: int, qz: int|
            0 <= qx < once.extent() && 0 <= qy < once.extent() && 0 <= qz < once.extent() && !(qx
                == p.0 && qy == p.1 && qz == p.2) ==> #[trigger] twice.at(qx, qy, qz) == once.at(
                qx,
                qy,
                qz,
            ),
    ensures
        same_tree(once.root_node, twice.root_node, once.extent()),
{
    assert forall|x: int, y: int, z: int|
        0 <= x < once.extent() && 0 <= y < once.extent() && 0 <= z
            < once.extent() implies #[trigger] node_at(once.root_node, once.extent(), x, y, z)
        == node_at(twice.root_node, once.extent(), x, y, z) by {
        if x == p.0 && y == p.1 && z == p.2 {
            assert(once.at(x, y, z) == v && twice.at(x, y, z) == v);
        } else {
            assert(twice.at(x, y, z) == once.at(x, y, z));
        }
    }
    lemma_canonical_shape(once.root_node, twice.root_node, once.extent());
}

/// Reads the id governing `(x, y, z)` inside a well-formed cell of edge `s`.
fn node_query(n: &Node, s: u64, x: u64, y: u64, z: u64) -> (r: u16)
    requires
        node_inv(*n, s as nat),
    ensures
        r == node_at(*n, s as nat, x as int, y as int, z as int),
    decreases s,
{
    if n.leaf {
        n.id
    } else {
        let h: u64 = s / 2;
        let mut idx: usize = 0;
        let nx: u64 = if x >= h {
            idx += 4;
            x - h
        } else {
            x
        };
        let ny: u64 = if y >= h {
            idx += 2;
            y - h
        } else {
            y
        };
        let nz: u64 = if z >= h {
            idx += 1;
            z - h
        } else {
            z
        };
        node_query(&n.nodes[idx], h, nx, ny, nz)
    }
}

} // verus!
