use vstd::prelude::*;
use crate::aabb::{AABB, longest_axis_spec};
use crate::hittable::{HitRecord, Hittable, HittableList, is_nearest_hit};
use crate::interval::Interval;
use crate::ray::Ray;

verus! {

broadcast use vstd::seq_lib::to_multiset_contains, vstd::seq_lib::to_multiset_remove, vstd::seq_lib::to_multiset_insert;

/// Why an acceleration structure could not be built.
#[derive(Clone, Copy, Debug, PartialEq, Eq, Structural)]
pub enum BuildError {
    /// There were no primitives to build it from.
    EmptyPrimitiveList,
}

impl BuildError {
    /// A sentence that says what went wrong.
    pub fn message(&self) -> (r: String)
        ensures
            r@ == "BVH cannot be built from empty list"@,
    {
        match self {
            BuildError::EmptyPrimitiveList => String::from_str("BVH cannot be built from empty list"),
        }
    }
}

/// A node of the tree: a single primitive, or a box around one or two subtrees.
pub enum BVHNode<P> {
    Leaf(P),
    Branch { left: Box<BVHNode<P>>, right: Option<Box<BVHNode<P>>>, bbox: AABB },
}

/// The key by which primitives are ordered along `axis`: the low end of their box.
pub open spec fn box_key<P: Hittable>(p: P, axis: int) -> int {
    p.box_spec().axis_spec(axis).min as int
}

/// `iv` is the hull of axis `n` of the boxes of `s`: it spans every box's extent on that axis
/// and its ends are ends of such boxes.
pub open spec fn axis_hull<P: Hittable>(iv: Interval, s: Seq<P>, n: int) -> bool {
    &&& forall|i: int|
        0 <= i < s.len() ==> iv.min <= (#[trigger] s[i]).box_spec().axis_spec(n).min && s[i].box_spec().axis_spec(
            n,
        ).max <= iv.max
    &&& exists|i: int| 0 <= i < s.len() && iv.min == (#[trigger] s[i]).box_spec().axis_spec(n).min
    &&& exists|j: int| 0 <= j < s.len() && iv.max == (#[trigger] s[j]).box_spec().axis_spec(n).max
}

/// `b` is the smallest box around the boxes of the non-empty sequence `s`.
pub open spec fn is_hull<P: Hittable>(b: AABB, s: Seq<P>) -> bool {
    axis_hull(b.x, s, 0) && axis_hull(b.y, s, 1) && axis_hull(b.z, s, 2)
}

/// Every member of `s` is valid.
pub open spec fn all_valid<P: Hittable>(s: Seq<P>) -> bool {
    forall|i: int| 0 <= i < s.len() ==> (#[trigger] s[i]).valid()
}

/// Some member of `s` is hit by the ray at parameter `t`.
pub open spec fn any_hit<P: Hittable>(s: Seq<P>, ray: Ray, t: int) -> bool {
    exists|i: int| 0 <= i < s.len() && (#[trigger] s[i]).hit_at(ray, t)
}

impl<P: Hittable> BVHNode<P> {
    /// The box of the node: its primitive's box for a leaf.
    pub open spec fn box_of(self) -> AABB {
        match self {
            BVHNode::Leaf(p) => p.box_spec(),
            BVHNode::Branch { bbox, .. } => bbox,
        }
    }

    /// The ray meets a primitive of the subtree at parameter `t`.
    pub open spec fn hits(self, ray: Ray, t: int) -> bool
        decreases self,
    {
        match self {
            BVHNode::Leaf(p) => p.hit_at(ray, t),
            BVHNode::Branch { left, right, .. } => {
                left.hits(ray, t) || match right {
                    Some(r) => r.hits(ray, t),
                    None => false,
                }
            },
        }
    }

    /// The number of nodes in the subtree.
    pub open spec fn node_count(self) -> nat
        decreases self,
    {
        match self {
            BVHNode::Leaf(_) => 1,
            BVHNode::Branch { left, right, .. } => 1 + left.node_count() + match right {
                Some(r) => r.node_count(),
                None => 0,
            },
        }
    }

    /// The number of leaves in the subtree.
    pub open spec fn leaf_count(self) -> nat
        decreases self,
    {
        match self {
            BVHNode::Leaf(_) => 1,
            BVHNode::Branch { left, right, .. } => left.leaf_count() + match right {
                Some(r) => r.leaf_count(),
                None => 0,
            },
        }
    }

    /// The primitives of the subtree's leaves, from left to right.
    pub open spec fn leaves(self) -> Seq<P>
        decreases self,
    {
        match self {
            BVHNode::Leaf(p) => seq![p],
            BVHNode::Branch { left, right, .. } => left.leaves() + match right {
                Some(r) => r.leaves(),
                None => Seq::empty(),
            },
        }
    }

    pub proof fn lemma_leaves_len(self)
        ensures
            self.leaves().len() == self.leaf_count(),
        decreases self,
    {
        match self {
            BVHNode::Leaf(_) => {},
            BVHNode::Branch { left, right, .. } => {
                left.lemma_leaves_len();
                if let Some(r) = right {
                    r.lemma_leaves_len();
                }
            },
        }
    }

    /// Every primitive is valid and every branch's box covers the boxes of its children.
    pub open spec fn wf(self) -> bool
        decreases self,
    {
        match self {
            BVHNode::Leaf(p) => p.valid(),
            BVHNode::Branch { left, right, bbox } => {
                &&& left.wf()
                &&& bbox.covers(left.box_of())
                &&& match right {
                    Some(r) => r.wf() && bbox.covers(r.box_of()),
                    None => true,
                }
            },
        }
    }

    /// The subtree has the shape that `build` gives: every branch has two children, its box is
    /// the union of theirs, its left child holds the first half (rounded down) of its leaves,
    /// and no leaf on the left comes after a leaf on the right along the longest axis of the
    /// branch's box, as the low ends of their boxes go.
    pub open spec fn built(self) -> bool
        decreases self,
    {
        match self {
            BVHNode::Leaf(_) => true,
            BVHNode::Branch { left, right, bbox } => match right {
                None => false,
                Some(r) => {
                    &&& bbox == AABB::union_spec(left.box_of(), r.box_of())
                    &&& left.leaf_count() == (left.leaf_count() + r.leaf_count()) / 2
                    &&& forall|i: int, j: int|
                        0 <= i < left.leaves().len() && 0 <= j < r.leaves().len() ==> box_key(
                            #[trigger] left.leaves()[i],
                            longest_axis_spec(bbox),
                        ) <= box_key(#[trigger] r.leaves()[j], longest_axis_spec(bbox))
                    &&& left.built()
                    &&& r.built()
                },
            },
        }
    }

    /// Wherever the ray meets a primitive of a well-formed subtree, it is inside the node's box.
    pub proof fn lemma_hit_in_box(self, ray: Ray, t: int)
        requires
            self.wf(),
            self.hits(ray, t),
        ensures
            self.box_of().contains_interior(ray, t),
        decreases self,
    {
        match self {
            BVHNode::Leaf(p) => {
                p.lemma_hit_in_box(ray, t);
            },
            BVHNode::Branch { left, right, bbox } => {
                if left.hits(ray, t) {
                    left.lemma_hit_in_box(ray, t);
                } else {
                    let r = right.unwrap();
                    r.lemma_hit_in_box(ray, t);
                }
            },
        }
    }

    proof fn lemma_leaf_hits(self, ray: Ray)
        requires
            self is Leaf,
        ensures
            forall|t: int| #[trigger] self.hits(ray, t) == self->Leaf_0.hit_at(ray, t),
    {
    }

    proof fn lemma_branch_hits(self, ray: Ray)
        requires
            self is Branch,
        ensures
            forall|t: int| #[trigger] self.hits(ray, t) == (self->left.hits(ray, t) || match self->right {
                Some(r) => r.hits(ray, t),
                None => false,
            }),
    {
    }

    /// The record that `hit` reports: the search that it makes, as a formula.
    pub open spec fn hit_spec(self, ray: Ray, ray_t: Interval) -> Option<HitRecord>
        decreases self,
    {
        match self {
            BVHNode::Leaf(p) => p.hit_spec(ray, ray_t),
            BVHNode::Branch { left, right, bbox } => {
                if !bbox.hit_spec(ray, ray_t) {
                    None
                } else {
                    match left.hit_spec(ray, ray_t) {
                        Some(hl) => match right {
                            Some(rn) => match rn.hit_spec(ray, Interval { min: ray_t.min, max: hl.t }) {
                                Some(hr) => Some(hr),
                                None => Some(hl),
                            },
                            None => Some(hl),
                        },
                        None => match right {
                            Some(rn) => rn.hit_spec(ray, ray_t),
                            None => None,
                        },
                    }
                }
            },
        }
    }

    pub fn bounding_box(&self) -> (r: AABB)
        requires
            self.wf(),
        ensures
            r == self.box_of(),
    {
        match self {
            BVHNode::Leaf(p) => p.bounding_box(),
            BVHNode::Branch { bbox, .. } => *bbox,
        }
    }

    /// The nearest hit of the subtree within `ray_t`. A branch whose box the ray misses is
    /// skipped; otherwise the left subtree is searched over `ray_t`, and the right one only
    /// for hits no farther than the left's, a right hit winning a tie.
    pub fn hit(&self, ray: Ray, ray_t: Interval) -> (r: Option<HitRecord>)
        requires
            self.wf(),
        ensures
            r == self.hit_spec(ray, ray_t),
            match r {
                None => ray_t.min < ray_t.max ==> forall|t: int| ray_t.contains_spec(t) ==> !#[trigger] self.hits(ray, t),
                Some(h) => {
                    &&& ray_t.contains_spec(h.t as int)
                    &&& self.hits(ray, h.t as int)
                    &&& forall|t: int| ray_t.min <= t < h.t ==> !#[trigger] self.hits(ray, t)
                },
            },
        decreases self,
    {
        match self {
            BVHNode::Leaf(p) => {
                let r = p.hit(ray, ray_t);
                proof {
                    self.lemma_leaf_hits(ray);
                }
                r
            },
            BVHNode::Branch { left, right, bbox } => {
                proof {
                    self.lemma_branch_hits(ray);
                }
                if !bbox.hit(ray, ray_t) {
                    proof {
                        assert forall|t: int| ray_t.min < ray_t.max && ray_t.contains_spec(t) implies !#[trigger] self.hits(ray, t) by {
                            if self.hits(ray, t) {
                                self.lemma_hit_in_box(ray, t);
                            }
                        }
                    }
                    return None;
                }
                match left.hit(ray, ray_t) {
                    Some(hit_left) => {
                        match right {
                            Some(right_node) => {
                                let narrowed = Interval::new(ray_t.min, hit_left.t);
                                let hit_right = right_node.hit(ray, narrowed);
                                match hit_right {
                                    Some(hr) => Some(hr),
                                    None => {
                                        proof {
                                            assert forall|t: int| ray_t.min <= t < hit_left.t implies !#[trigger] self.hits(ray, t) by {
                                                assert(narrowed.contains_spec(t));
                                                assert(!left.hits(ray, t));
                                                assert(!right_node.hits(ray, t));
                                            }
                                        }
                                        Some(hit_left)
                                    },
                                }
                            },
                            None => Some(hit_left),
                        }
                    },
                    None => {
                        match right {
                            Some(right_node) => {
                                let hit_right = right_node.hit(ray, ray_t);
                                proof {
                                    if hit_right is None {
                                        assert forall|t: int| ray_t.min < ray_t.max && ray_t.contains_spec(t) implies !#[trigger] self.hits(ray, t) by {
                                            assert(!left.hits(ray, t));
                                            assert(!right_node.hits(ray, t));
                                        }
                                    }
                                }
                                hit_right
                            },
                            None => None,
                        }
                    },
                }
            },
        }
    }
}

/// One node of the flattened tree. Children are named by their index in the node array, and
/// `u32::MAX` marks an absent child; a leaf has no children and names its primitive by its
/// position among the leaves from left to right; a branch names no primitive (`u32::MAX`).
#[derive(Clone, Copy, Debug, PartialEq, Eq, Structural)]
pub struct BVHNodeGPU {
    pub bbox: AABB,
    pub left: u32,
    pub right: u32,
    pub triangle_id: u32,
}

/// Entry `i` of `s` encodes `node`, whose leaves are numbered from `base` on: its box, and,
/// for a branch, children at smaller indices, the left below the right, that encode its
/// subtrees in turn.
pub open spec fn encodes<P: Hittable>(s: Seq<BVHNodeGPU>, i: int, node: BVHNode<P>, base: int) -> bool
    decreases node,
{
    &&& 0 <= i < s.len()
    &&& s[i].bbox == node.box_of()
    &&& match node {
        BVHNode::Leaf(_) => s[i].left == u32::MAX && s[i].right == u32::MAX && s[i].triangle_id == base,
        BVHNode::Branch { left, right, .. } => {
            &&& s[i].triangle_id == u32::MAX
            &&& s[i].left < i
            &&& encodes(s, s[i].left as int, *left, base)
            &&& match right {
                Some(r) => s[i].left < s[i].right && s[i].right < i && s[i].right != u32::MAX && encodes(
                    s,
                    s[i].right as int,
                    *r,
                    base + left.leaf_count(),
                ),
                None => s[i].right == u32::MAX,
            }
        },
    }
}

proof fn lemma_encodes_entry<P: Hittable>(s: Seq<BVHNodeGPU>, i: int, node: BVHNode<P>, base: int)
    requires
        encodes(s, i, node, base),
    ensures
        0 <= i < s.len(),
        s[i].bbox == node.box_of(),
{
}

/// An encoding survives appending to the array.
proof fn lemma_encodes_extend<P: Hittable>(s: Seq<BVHNodeGPU>, t: Seq<BVHNodeGPU>, i: int, node: BVHNode<P>, base: int)
    requires
        encodes(s, i, node, base),
        s.len() <= t.len(),
        forall|j: int| 0 <= j < s.len() ==> t[j] == s[j],
    ensures
        encodes(t, i, node, base),
    decreases node,
{
    match node {
        BVHNode::Leaf(_) => {},
        BVHNode::Branch { left, right, .. } => {
            lemma_encodes_extend(s, t, s[i].left as int, *left, base);
            if let Some(r) = right {
                lemma_encodes_extend(s, t, s[i].right as int, *r, base + left.leaf_count());
            }
        },
    }
}

/// Appends the nodes of the subtree to `flat`, children before their parent, numbering its
/// leaves from `*leaves` on; returns the index of the subtree's root.
fn flatten<P: Hittable>(node: &BVHNode<P>, flat: &mut Vec<BVHNodeGPU>, leaves: &mut u32) -> (idx: u32)
    requires
        node.wf(),
        old(flat)@.len() + node.node_count() < u32::MAX,
        *old(leaves) + node.leaf_count() < u32::MAX,
    ensures
        final(flat)@.len() == old(flat)@.len() + node.node_count(),
        forall|j: int| 0 <= j < old(flat)@.len() ==> final(flat)@[j] == old(flat)@[j],
        idx == final(flat)@.len() - 1,
        *final(leaves) == *old(leaves) + node.leaf_count(),
        encodes(final(flat)@, idx as int, *node, *old(leaves) as int),
    decreases node,
{
    match node {
        BVHNode::Leaf(p) => {
            let triangle_index = *leaves;
            let node_index = flat.len() as u32;
            let bbox = p.bounding_box();
            flat.push(BVHNodeGPU { bbox, left: u32::MAX, right: u32::MAX, triangle_id: triangle_index });
            *leaves = triangle_index + 1;
            node_index
        },
        BVHNode::Branch { left, right, bbox } => {
            let ghost s0 = flat@;
            let ghost base = *leaves as int;
            let left_index = flatten(left, flat, leaves);
            let ghost s1 = flat@;
            let right_index = match right {
                Some(right_node) => flatten(right_node, flat, leaves),
                None => u32::MAX,
            };
            let ghost s2 = flat@;
            let node_index = flat.len() as u32;
            flat.push(BVHNodeGPU { bbox: *bbox, left: left_index, right: right_index, triangle_id: u32::MAX });
            proof {
                let s3 = flat@;
                lemma_encodes_extend(s1, s2, left_index as int, **left, base);
                lemma_encodes_extend(s2, s3, left_index as int, **left, base);
                if let Some(right_node) = right {
                    lemma_encodes_extend(s2, s3, right_index as int, **right_node, base + left.leaf_count());
                }
            }
            node_index
        },
    }
}

/// Entry `i` of the node array is sound: a leaf names a valid primitive of `prims` and has
/// that primitive's box; a branch has children at smaller indices, sound in turn, whose boxes
/// its own box covers.
pub open spec fn flat_ok<P: Hittable>(nodes: Seq<BVHNodeGPU>, prims: Seq<P>, i: int) -> bool
    decreases i,
{
    &&& 0 <= i < nodes.len()
    &&& if nodes[i].triangle_id != u32::MAX {
        &&& nodes[i].triangle_id < prims.len()
        &&& prims[nodes[i].triangle_id as int].valid()
        &&& nodes[i].bbox == prims[nodes[i].triangle_id as int].box_spec()
    } else {
        &&& 0 <= nodes[i].left < i
        &&& flat_ok(nodes, prims, nodes[i].left as int)
        &&& nodes[i].bbox.covers(nodes[nodes[i].left as int].bbox)
        &&& (nodes[i].right == u32::MAX || {
            &&& 0 <= nodes[i].right < i
            &&& flat_ok(nodes, prims, nodes[i].right as int)
            &&& nodes[i].bbox.covers(nodes[nodes[i].right as int].bbox)
        })
    }
}

/// The ray meets, at parameter `t`, a primitive below entry `i` of the node array.
pub open spec fn flat_hits<P: Hittable>(nodes: Seq<BVHNodeGPU>, prims: Seq<P>, i: int, ray: Ray, t: int) -> bool
    decreases i,
{
    if 0 <= i < nodes.len() {
        if nodes[i].triangle_id != u32::MAX {
            0 <= nodes[i].triangle_id < prims.len() && prims[nodes[i].triangle_id as int].hit_at(ray, t)
        } else {
            (nodes[i].left < i && flat_hits(nodes, prims, nodes[i].left as int, ray, t)) || (nodes[i].right
                != u32::MAX && nodes[i].right < i && flat_hits(nodes, prims, nodes[i].right as int, ray, t))
        }
    } else {
        false
    }
}

proof fn lemma_flat_hit_in_box<P: Hittable>(nodes: Seq<BVHNodeGPU>, prims: Seq<P>, i: int, ray: Ray, t: int)
    requires
        flat_ok(nodes, prims, i),
        flat_hits(nodes, prims, i, ray, t),
    ensures
        nodes[i].bbox.contains_interior(ray, t),
    decreases i,
{
    if nodes[i].triangle_id != u32::MAX {
        prims[nodes[i].triangle_id as int].lemma_hit_in_box(ray, t);
    } else if nodes[i].left < i && flat_hits(nodes, prims, nodes[i].left as int, ray, t) {
        lemma_flat_hit_in_box(nodes, prims, nodes[i].left as int, ray, t);
        crate::aabb::lemma_encloses_interior(nodes[i].bbox, nodes[nodes[i].left as int].bbox, ray, t);
    } else {
        lemma_flat_hit_in_box(nodes, prims, nodes[i].right as int, ray, t);
    }
}

/// The record that `hit_flattened` reports from entry `i`: its search, as a formula.
pub open spec fn flat_hit_spec<P: Hittable>(
    nodes: Seq<BVHNodeGPU>,
    prims: Seq<P>,
    i: int,
    ray: Ray,
    ray_t: Interval,
) -> Option<HitRecord>
    decreases i,
{
    if !(0 <= i < nodes.len()) {
        None
    } else if nodes[i].triangle_id != u32::MAX {
        if nodes[i].triangle_id < prims.len() {
            prims[nodes[i].triangle_id as int].hit_spec(ray, ray_t)
        } else {
            None
        }
    } else if !nodes[i].bbox.hit_spec(ray, ray_t) || !(nodes[i].left < i) {
        None
    } else {
        let has_right = nodes[i].right != u32::MAX && nodes[i].right < i;
        match flat_hit_spec(nodes, prims, nodes[i].left as int, ray, ray_t) {
            Some(hl) => if has_right {
                match flat_hit_spec(nodes, prims, nodes[i].right as int, ray, Interval { min: ray_t.min, max: hl.t }) {
                    Some(hr) => Some(hr),
                    None => Some(hl),
                }
            } else {
                Some(hl)
            },
            None => if has_right {
                flat_hit_spec(nodes, prims, nodes[i].right as int, ray, ray_t)
            } else {
                None
            },
        }
    }
}

/// The nearest hit below entry `i` of a flattened tree, by the same pruned search as
/// `BVHNode::hit`: a branch whose box the ray misses is skipped, and the right child is asked
/// only for hits no farther than the left child's.
pub fn hit_flattened<P: Hittable>(nodes: &Vec<BVHNodeGPU>, prims: &Vec<P>, i: u32, ray: Ray, ray_t: Interval) -> (r:
    Option<HitRecord>)
    requires
        flat_ok(nodes@, prims@, i as int),
    ensures
        r == flat_hit_spec(nodes@, prims@, i as int, ray, ray_t),
        match r {
            None => ray_t.min < ray_t.max ==> forall|t: int| ray_t.contains_spec(t) ==> !#[trigger] flat_hits(
                nodes@,
                prims@,
                i as int,
                ray,
                t,
            ),
            Some(h) => {
                &&& ray_t.contains_spec(h.t as int)
                &&& flat_hits(nodes@, prims@, i as int, ray, h.t as int)
                &&& forall|t: int| ray_t.min <= t < h.t ==> !#[trigger] flat_hits(nodes@, prims@, i as int, ray, t)
            },
        },
    decreases i,
{
    let node = nodes[i as usize];
    if node.triangle_id != u32::MAX {
        let p = &prims[node.triangle_id as usize];
        let r = p.hit(ray, ray_t);
        proof {
            assert forall|t: int| #[trigger] flat_hits(nodes@, prims@, i as int, ray, t) == p.hit_at(ray, t) by {}
            match r {
                None => {
                    assert forall|t: int| ray_t.min < ray_t.max && ray_t.contains_spec(t) implies !#[trigger] flat_hits(nodes@, prims@, i as int, ray, t) by {
                        assert(!p.hit_at(ray, t));
                    }
                },
                Some(h) => {
                    assert forall|t: int| ray_t.min <= t < h.t implies !#[trigger] flat_hits(nodes@, prims@, i as int, ray, t) by {
                        assert(!p.hit_at(ray, t));
                    }
                },
            }
        }
        return r;
    }
    let ghost has_right = node.right != u32::MAX;
    proof {
        assert forall|t: int| #[trigger] flat_hits(nodes@, prims@, i as int, ray, t) == (flat_hits(nodes@, prims@, node.left as int, ray, t)
            || (has_right && flat_hits(nodes@, prims@, node.right as int, ray, t))) by {}
    }
    if !node.bbox.hit(ray, ray_t) {
        proof {
            assert forall|t: int| ray_t.min < ray_t.max && ray_t.contains_spec(t) implies !#[trigger] flat_hits(nodes@, prims@, i as int, ray, t) by {
                if flat_hits(nodes@, prims@, i as int, ray, t) {
                    lemma_flat_hit_in_box(nodes@, prims@, i as int, ray, t);
                }
            }
        }
        return None;
    }
    match hit_flattened(nodes, prims, node.left, ray, ray_t) {
        Some(hit_left) => {
            if node.right != u32::MAX {
                let narrowed = Interval::new(ray_t.min, hit_left.t);
                let hit_right = hit_flattened(nodes, prims, node.right, ray, narrowed);
                match hit_right {
                    Some(hr) => Some(hr),
                    None => {
                        proof {
                            assert forall|t: int| ray_t.min <= t < hit_left.t implies !#[trigger] flat_hits(nodes@, prims@, i as int, ray, t) by {
                                assert(narrowed.contains_spec(t));
                                assert(!flat_hits(nodes@, prims@, node.left as int, ray, t));
                                assert(!flat_hits(nodes@, prims@, node.right as int, ray, t));
                            }
                        }
                        Some(hit_left)
                    },
                }
            } else {
                Some(hit_left)
            }
        },
        None => {
            if node.right != u32::MAX {
                let hit_right = hit_flattened(nodes, prims, node.right, ray, ray_t);
                proof {
                    if hit_right is None {
                        assert forall|t: int| ray_t.min < ray_t.max && ray_t.contains_spec(t) implies !#[trigger] flat_hits(nodes@, prims@, i as int, ray, t) by {
                            assert(!flat_hits(nodes@, prims@, node.left as int, ray, t));
                            assert(!flat_hits(nodes@, prims@, node.right as int, ray, t));
                        }
                    }
                }
                hit_right
            } else {
                proof {
                    assert forall|t: int| ray_t.min < ray_t.max && ray_t.contains_spec(t) implies !#[trigger] flat_hits(nodes@, prims@, i as int, ray, t) by {
                        assert(!flat_hits(nodes@, prims@, node.left as int, ray, t));
                    }
                }
                None
            }
        },
    }
}

/// An entry that encodes a well-formed subtree, over primitives laid out in the order of its
/// leaves, is sound, and below it the ray meets exactly what it meets in the subtree.
pub proof fn lemma_encoding_sound<P: Hittable>(
    nodes: Seq<BVHNodeGPU>,
    prims: Seq<P>,
    i: int,
    node: BVHNode<P>,
    base: int,
)
    requires
        encodes(nodes, i, node, base),
        node.wf(),
        0 <= base,
        base + node.leaf_count() <= prims.len(),
        prims.len() < u32::MAX,
        forall|k: int| 0 <= k < node.leaves().len() ==> prims[base + k] == #[trigger] node.leaves()[k],
    ensures
        flat_ok(nodes, prims, i),
        forall|ray: Ray, t: int| #[trigger] flat_hits(nodes, prims, i, ray, t) == node.hits(ray, t),
        forall|ray: Ray, ray_t: Interval| #[trigger] flat_hit_spec(nodes, prims, i, ray, ray_t) == node.hit_spec(ray, ray_t),
    decreases node,
{
    node.lemma_leaves_len();
    match node {
        BVHNode::Leaf(p) => {
            assert(node.leaves()[0] == p);
            assert(prims[base + 0] == p);
            assert(nodes[i].triangle_id == base);
            assert(nodes[i].triangle_id != u32::MAX);
            assert(prims[nodes[i].triangle_id as int] == p);
            assert(flat_ok(nodes, prims, i));
            assert forall|ray: Ray, t: int| #[trigger] flat_hits(nodes, prims, i, ray, t) == node.hits(ray, t) by {}
            assert forall|ray: Ray, ray_t: Interval| #[trigger] flat_hit_spec(nodes, prims, i, ray, ray_t) == node.hit_spec(ray, ray_t) by {}
        },
        BVHNode::Branch { left, right, .. } => {
            left.lemma_leaves_len();
            assert forall|k: int| 0 <= k < left.leaves().len() implies prims[base + k] == #[trigger] left.leaves()[k] by {
                assert(node.leaves()[k] == left.leaves()[k]);
            }
            let li = nodes[i].left as int;
            let ri = nodes[i].right as int;
            lemma_encoding_sound(nodes, prims, li, *left, base);
            assert(nodes[i].triangle_id == u32::MAX);
            lemma_encodes_entry(nodes, li, *left, base);
            if let Some(r) = right {
                r.lemma_leaves_len();
                let b2 = base + left.leaf_count();
                assert forall|k: int| 0 <= k < r.leaves().len() implies prims[b2 + k] == #[trigger] r.leaves()[k] by {
                    assert(node.leaves()[left.leaf_count() + k] == r.leaves()[k]);
                }
                lemma_encoding_sound(nodes, prims, ri, *r, b2);
                lemma_encodes_entry(nodes, ri, *r, b2);
                assert(nodes[i].right != u32::MAX);
                assert(flat_ok(nodes, prims, i));
                assert forall|ray: Ray, t: int| #[trigger] flat_hits(nodes, prims, i, ray, t) == node.hits(ray, t) by {
                    assert(flat_hits(nodes, prims, li, ray, t) == left.hits(ray, t));
                    assert(flat_hits(nodes, prims, ri, ray, t) == r.hits(ray, t));
                }
                assert forall|ray: Ray, ray_t: Interval| #[trigger] flat_hit_spec(nodes, prims, i, ray, ray_t) == node.hit_spec(ray, ray_t) by {
                    assert(flat_hit_spec(nodes, prims, li, ray, ray_t) == left.hit_spec(ray, ray_t));
                    if let Some(hl) = left.hit_spec(ray, ray_t) {
                        let nt = Interval { min: ray_t.min, max: hl.t };
                        assert(flat_hit_spec(nodes, prims, ri, ray, nt) == r.hit_spec(ray, nt));
                    }
                    assert(flat_hit_spec(nodes, prims, ri, ray, ray_t) == r.hit_spec(ray, ray_t));
                }
            } else {
                assert(flat_ok(nodes, prims, i));
                assert forall|ray: Ray, t: int| #[trigger] flat_hits(nodes, prims, i, ray, t) == node.hits(ray, t) by {
                    assert(flat_hits(nodes, prims, li, ray, t) == left.hits(ray, t));
                }
                assert forall|ray: Ray, ray_t: Interval| #[trigger] flat_hit_spec(nodes, prims, i, ray, ray_t) == node.hit_spec(ray, ray_t) by {
                    assert(flat_hit_spec(nodes, prims, li, ray, ray_t) == left.hit_spec(ray, ray_t));
                }
            }
        },
    }
}

/// Appends the primitives of the subtree's leaves to `out`, from left to right.
fn collect_leaves<P: Hittable>(node: BVHNode<P>, out: &mut Vec<P>)
    ensures
        final(out)@ == old(out)@ + node.leaves(),
    decreases node,
{
    match node {
        BVHNode::Leaf(p) => {
            out.push(p);
        },
        BVHNode::Branch { left, right, .. } => {
            let ghost l = left.leaves();
            collect_leaves(*left, out);
            match right {
                Some(r) => {
                    let ghost rl = r.leaves();
                    collect_leaves(*r, out);
                    proof {
                        assert(final(out)@ =~= old(out)@ + (l + rl));
                    }
                },
                None => {
                    proof {
                        assert(out@ =~= old(out)@ + (l + Seq::<P>::empty()));
                    }
                },
            }
        },
    }
}

/// A bounding-volume hierarchy over primitives of type `P`.
pub struct BVH<P> {
    root: Box<BVHNode<P>>,
    contents: Ghost<Seq<P>>,
}

impl<P: Hittable> BVH<P> {
    /// The primitives the tree was built from.
    pub closed spec fn primitives(self) -> Seq<P> {
        self.contents@
    }

    /// The root node.
    pub closed spec fn root_node(self) -> BVHNode<P> {
        *self.root
    }

    /// The tree is well formed and holds exactly the primitives it was built from.
    pub closed spec fn inv(self) -> bool {
        &&& self.root.wf()
        &&& self.root.leaf_count() == self.contents@.len()
        &&& self.root.node_count() == 2 * self.contents@.len() - 1
        &&& self.root.built()
        &&& self.root.leaves().to_multiset() == self.contents@.to_multiset()
        &&& forall|ray: Ray, t: int| #[trigger] self.root.hits(ray, t) <==> any_hit(self.contents@, ray, t)
    }

    /// Builds the tree. Fails exactly when `list` is empty.
    pub fn new(list: Vec<P>) -> (r: Result<BVH<P>, BuildError>)
        requires
            all_valid(list@),
        ensures
            list@.len() == 0 <==> r == Err::<BVH<P>, BuildError>(BuildError::EmptyPrimitiveList),
            r is Ok ==> r->Ok_0.inv() && r->Ok_0.primitives() == list@ && is_hull(
                r->Ok_0.root_node().box_of(),
                list@,
            ),
    {
        if list.len() == 0 {
            return Err(BuildError::EmptyPrimitiveList);
        }
        let ghost contents = list@;
        let root = build(list);
        Ok(BVH { root: Box::new(root), contents: Ghost(contents) })
    }

    /// The tree as an array of nodes, children before their parent and the root last, for
    /// evaluators that walk it without recursion. Leaves number the primitives from left to
    /// right.
    pub fn to_gpu(&self) -> (r: Vec<BVHNodeGPU>)
        requires
            self.inv(),
            self.primitives().len() < 0x8000_0000,
        ensures
            r@.len() == 2 * self.primitives().len() - 1,
            encodes(r@, r@.len() - 1, self.root_node(), 0),
    {
        let mut flattened: Vec<BVHNodeGPU> = Vec::new();
        let mut leaves: u32 = 0;
        flatten(&self.root, &mut flattened, &mut leaves);
        flattened
    }

    /// Gives up the tree and hands out its primitives in the order of its leaves, the order in
    /// which `to_gpu` numbers them.
    pub fn into_primitives(self) -> (r: Vec<P>)
        requires
            self.inv(),
        ensures
            r@ == self.root_node().leaves(),
            r@.len() == self.primitives().len(),
    {
        proof {
            self.root_node().lemma_leaves_len();
        }
        let mut out: Vec<P> = Vec::new();
        collect_leaves(*self.root, &mut out);
        proof {
            assert(out@ =~= self.root_node().leaves());
        }
        out
    }

    pub proof fn lemma_inv_parts(self)
        requires
            self.inv(),
        ensures
            self.root_node().wf(),
            forall|ray: Ray, t: int| #[trigger] self.root_node().hits(ray, t) <==> any_hit(self.primitives(), ray, t),
    {
    }
}

impl<P: Hittable> Hittable for BVH<P> {
    open spec fn hit_spec(&self, ray: Ray, ray_t: Interval) -> Option<HitRecord> {
        self.root_node().hit_spec(ray, ray_t)
    }

    open spec fn valid(&self) -> bool {
        self.inv()
    }

    open spec fn hit_at(&self, ray: Ray, t: int) -> bool {
        any_hit(self.primitives(), ray, t)
    }

    open spec fn box_spec(&self) -> AABB {
        self.root_node().box_of()
    }

    fn hit(&self, ray: Ray, ray_t: Interval) -> (r: Option<HitRecord>) {
        proof {
            self.lemma_inv_parts();
        }
        let r = self.root.hit(ray, ray_t);
        proof {
            assert forall|t: int| #[trigger] self.hit_at(ray, t) == self.root_node().hits(ray, t) by {}
        }
        r
    }

    fn bounding_box(&self) -> (r: AABB) {
        proof {
            self.lemma_inv_parts();
        }
        self.root.bounding_box()
    }

    proof fn lemma_hit_in_box(&self, ray: Ray, t: int) {
        self.lemma_inv_parts();
        self.root_node().lemma_hit_in_box(ray, t);
    }
}

/// Two sequences with the same multiset of members have the same members.
proof fn lemma_same_members<P>(s1: Seq<P>, s2: Seq<P>, a: P)
    requires
        s1.to_multiset() == s2.to_multiset(),
    ensures
        s1.contains(a) <==> s2.contains(a),
{
    vstd::seq_lib::to_multiset_contains(s1, a);
    vstd::seq_lib::to_multiset_contains(s2, a);
}

/// The members of `s` are in ascending order of `box_key` along `axis`.
pub open spec fn sorted_by_key<P: Hittable>(s: Seq<P>, axis: int) -> bool {
    forall|a: int, b: int| 0 <= a < b < s.len() ==> box_key(#[trigger] s[a], axis) <= box_key(#[trigger] s[b], axis)
}

/// The members of `s` are in descending order of `box_key` along `axis`.
pub open spec fn descending_by_key<P: Hittable>(s: Seq<P>, axis: int) -> bool {
    forall|a: int, b: int| 0 <= a < b < s.len() ==> box_key(#[trigger] s[b], axis) <= box_key(#[trigger] s[a], axis)
}

/// No member of `lo` has a larger key than any member of `hi`.
pub open spec fn keys_below<P: Hittable>(lo: Seq<P>, hi: Seq<P>, axis: int) -> bool {
    forall|a: int, b: int|
        0 <= a < lo.len() && 0 <= b < hi.len() ==> box_key(#[trigger] lo[a], axis) <= box_key(#[trigger] hi[b], axis)
}

/// The low end of `p`'s box along `axis`.
fn key_of<P: Hittable>(p: &P, axis: usize) -> (k: i64)
    requires
        p.valid(),
        axis < 3,
    ensures
        k == box_key(*p, axis as int),
{
    p.bounding_box().axis(axis).min
}

proof fn lemma_push_multiset<P>(s: Seq<P>, x: P)
    ensures
        s.push(x).to_multiset() == s.to_multiset().insert(x),
{
    vstd::seq_lib::to_multiset_insert(s, s.len() as int, x);
    assert(s.insert(s.len() as int, x) =~= s.push(x));
}

/// Merges two sorted sequences: the largest remaining member moves to a descending pile, and
/// the pile is then emptied from its smallest end.
fn merge<P: Hittable>(a: Vec<P>, b: Vec<P>, axis: usize) -> (r: Vec<P>)
    requires
        axis < 3,
        all_valid(a@),
        all_valid(b@),
        sorted_by_key(a@, axis as int),
        sorted_by_key(b@, axis as int),
    ensures
        r@.to_multiset() == a@.to_multiset().add(b@.to_multiset()),
        r@.len() == a@.len() + b@.len(),
        sorted_by_key(r@, axis as int),
{
    let ghost total = a@.to_multiset().add(b@.to_multiset());
    let ghost n = a@.len() + b@.len();
    let mut a = a;
    let mut b = b;
    let mut pile: Vec<P> = Vec::new();
    while a.len() > 0 || b.len() > 0
        invariant
            axis < 3,
            all_valid(a@),
            all_valid(b@),
            sorted_by_key(a@, axis as int),
            sorted_by_key(b@, axis as int),
            descending_by_key(pile@, axis as int),
            keys_below(a@, pile@, axis as int),
            keys_below(b@, pile@, axis as int),
            pile@.to_multiset().add(a@.to_multiset()).add(b@.to_multiset()) == total,
            pile@.len() + a@.len() + b@.len() == n,
        decreases a@.len() + b@.len(),
    {
        let from_a = if a.len() == 0 {
            false
        } else if b.len() == 0 {
            true
        } else {
            key_of(&a[a.len() - 1], axis) > key_of(&b[b.len() - 1], axis)
        };
        let ghost a0 = a@;
        let ghost b0 = b@;
        let ghost p0 = pile@;
        let x = if from_a {
            a.pop().unwrap()
        } else {
            b.pop().unwrap()
        };
        proof {
            if from_a {
                assert(a0 =~= a@.push(x));
                lemma_push_multiset(a@, x);
                assert(x == a0[a0.len() - 1]);
            } else {
                assert(b0 =~= b@.push(x));
                lemma_push_multiset(b@, x);
                assert(x == b0[b0.len() - 1]);
            }
            let k = box_key(x, axis as int);
            assert forall|i: int| 0 <= i < a@.len() implies box_key(#[trigger] a@[i], axis as int) <= k by {
                assert(a@[i] == a0[i]);
                if !from_a {
                    assert(box_key(a0[i], axis as int) <= box_key(a0[a0.len() - 1], axis as int));
                }
            }
            assert forall|i: int| 0 <= i < b@.len() implies box_key(#[trigger] b@[i], axis as int) <= k by {
                assert(b@[i] == b0[i]);
                if from_a {
                    assert(box_key(b0[i], axis as int) <= box_key(b0[b0.len() - 1], axis as int));
                }
            }
            assert forall|i: int| 0 <= i < p0.len() implies k <= box_key(#[trigger] p0[i], axis as int) by {
                if from_a {
                    assert(box_key(a0[a0.len() - 1], axis as int) <= box_key(p0[i], axis as int));
                } else {
                    assert(box_key(b0[b0.len() - 1], axis as int) <= box_key(p0[i], axis as int));
                }
            }
        }
        pile.push(x);
        proof {
            lemma_push_multiset(p0, x);
            assert(pile@.to_multiset().add(a@.to_multiset()).add(b@.to_multiset()) =~= total);
            assert forall|i: int, j: int| 0 <= i < j < pile@.len() implies box_key(#[trigger] pile@[j], axis as int)
                <= box_key(#[trigger] pile@[i], axis as int) by {
                if j < p0.len() {
                    assert(pile@[i] == p0[i] && pile@[j] == p0[j]);
                } else {
                    assert(pile@[i] == p0[i]);
                }
            }
            assert forall|i: int, j: int| 0 <= i < a@.len() && 0 <= j < pile@.len() implies box_key(
                #[trigger] a@[i],
                axis as int,
            ) <= box_key(#[trigger] pile@[j], axis as int) by {
                assert(a@[i] == a0[i]);
                if j < p0.len() {
                    assert(pile@[j] == p0[j]);
                }
            }
            assert forall|i: int, j: int| 0 <= i < b@.len() && 0 <= j < pile@.len() implies box_key(
                #[trigger] b@[i],
                axis as int,
            ) <= box_key(#[trigger] pile@[j], axis as int) by {
                assert(b@[i] == b0[i]);
                if j < p0.len() {
                    assert(pile@[j] == p0[j]);
                }
            }
        }
    }
    proof {
        assert(a@.to_multiset() =~= vstd::multiset::Multiset::empty());
        assert(b@.to_multiset() =~= vstd::multiset::Multiset::empty());
        assert(pile@.to_multiset() =~= total);
    }
    let mut out: Vec<P> = Vec::new();
    while pile.len() > 0
        invariant
            descending_by_key(pile@, axis as int),
            sorted_by_key(out@, axis as int),
            keys_below(out@, pile@, axis as int),
            out@.to_multiset().add(pile@.to_multiset()) == total,
            out@.len() + pile@.len() == n,
        decreases pile@.len(),
    {
        let ghost p0 = pile@;
        let ghost o0 = out@;
        let x = pile.pop().unwrap();
        proof {
            assert(p0 =~= pile@.push(x));
            lemma_push_multiset(pile@, x);
            assert(x == p0[p0.len() - 1]);
        }
        out.push(x);
        proof {
            lemma_push_multiset(o0, x);
            assert(out@.to_multiset().add(pile@.to_multiset()) =~= total);
            assert forall|i: int, j: int| 0 <= i < j < out@.len() implies box_key(#[trigger] out@[i], axis as int)
                <= box_key(#[trigger] out@[j], axis as int) by {
                if j < o0.len() {
                    assert(out@[i] == o0[i] && out@[j] == o0[j]);
                } else {
                    assert(out@[i] == o0[i]);
                    assert(box_key(o0[i], axis as int) <= box_key(p0[p0.len() - 1], axis as int));
                }
            }
            assert forall|i: int, j: int| 0 <= i < out@.len() && 0 <= j < pile@.len() implies box_key(
                #[trigger] out@[i],
                axis as int,
            ) <= box_key(#[trigger] pile@[j], axis as int) by {
                assert(pile@[j] == p0[j]);
                if i < o0.len() {
                    assert(out@[i] == o0[i]);
                } else {
                    assert(box_key(p0[j], axis as int) >= box_key(p0[p0.len() - 1], axis as int));
                }
            }
            assert forall|i: int, j: int| 0 <= i < j < pile@.len() implies box_key(#[trigger] pile@[j], axis as int)
                <= box_key(#[trigger] pile@[i], axis as int) by {
                assert(pile@[i] == p0[i] && pile@[j] == p0[j]);
            }
        }
    }
    proof {
        assert(pile@.to_multiset() =~= vstd::multiset::Multiset::empty());
        assert(out@.to_multiset() =~= total);
    }
    out
}

/// Sorts `v` by merging on the low end of each primitive's box along `axis`.
fn sort_by_box_min<P: Hittable>(v: Vec<P>, axis: usize) -> (r: Vec<P>)
    requires
        axis < 3,
        all_valid(v@),
    ensures
        r@.to_multiset() == v@.to_multiset(),
        r@.len() == v@.len(),
        forall|a: int, b: int|
            0 <= a < b < r@.len() ==> box_key(r@[a], axis as int) <= box_key(r@[b], axis as int),
    decreases v@.len(),
{
    if v.len() <= 1 {
        return v;
    }
    let mut left = v;
    let ghost whole = left@;
    let right = left.split_off(left.len() / 2);
    proof {
        assert(whole =~= left@ + right@);
        vstd::seq_lib::lemma_multiset_commutative(left@, right@);
        assert forall|i: int| 0 <= i < right@.len() implies (#[trigger] right@[i]).valid() by {
            assert(right@[i] == whole[i + left@.len()]);
        }
    }
    let sl = sort_by_box_min(left, axis);
    let sr = sort_by_box_min(right, axis);
    proof {
        assert forall|i: int| 0 <= i < sl@.len() implies (#[trigger] sl@[i]).valid() by {
            lemma_same_members(sl@, left@, sl@[i]);
            assert(sl@.contains(sl@[i]));
        }
        assert forall|i: int| 0 <= i < sr@.len() implies (#[trigger] sr@[i]).valid() by {
            lemma_same_members(sr@, right@, sr@[i]);
            assert(sr@.contains(sr@[i]));
        }
    }
    let r = merge(sl, sr, axis);
    proof {
        assert forall|a: int, b: int| 0 <= a < b < r@.len() implies box_key(r@[a], axis as int) <= box_key(
            r@[b],
            axis as int,
        ) by {
            assert(box_key(r@[a], axis as int) <= box_key(r@[b], axis as int));
        }
    }
    r
}

/// The smallest box around the boxes of the non-empty `prims`.
fn union_of_boxes<P: Hittable>(prims: &Vec<P>) -> (r: AABB)
    requires
        prims@.len() >= 1,
        all_valid(prims@),
    ensures
        is_hull(r, prims@),
{
    let n = prims.len();
    let mut bbox = AABB::empty();
    for k in 0..n
        invariant
            n == prims@.len(),
            all_valid(prims@),
            k == 0 ==> bbox == AABB::empty_spec(),
            k > 0 ==> is_hull(bbox, prims@.subrange(0, k as int)),
    {
        let b = prims[k].bounding_box();
        let ghost old_box = bbox;
        bbox = AABB::from_AABB_pair(bbox, b);
        proof {
            let s = prims@.subrange(0, k as int + 1);
            let s0 = prims@.subrange(0, k as int);
            assert forall|i: int| 0 <= i < k implies s0[i] == #[trigger] s[i] by {}
            assert(s[k as int] == prims@[k as int]);
            if k == 0 {
                assert(axis_hull(bbox.x, s, 0));
                assert(axis_hull(bbox.y, s, 1));
                assert(axis_hull(bbox.z, s, 2));
            } else {
                lemma_hull_step(old_box.x, bbox.x, s0, s, 0, b.x);
                lemma_hull_step(old_box.y, bbox.y, s0, s, 1, b.y);
                lemma_hull_step(old_box.z, bbox.z, s0, s, 2, b.z);
            }
        }
    }
    proof {
        assert(prims@.subrange(0, n as int) == prims@);
    }
    bbox
}

/// Reordering keeps validity and what the ray hits.
proof fn lemma_reordered<P: Hittable>(before: Seq<P>, sorted: Seq<P>)
    requires
        all_valid(before),
        before.to_multiset() == sorted.to_multiset(),
    ensures
        all_valid(sorted),
        forall|ray: Ray, t: int| #[trigger] any_hit(before, ray, t) == any_hit(sorted, ray, t),
{
    assert forall|i: int| 0 <= i < sorted.len() implies (#[trigger] sorted[i]).valid() by {
        lemma_same_members(before, sorted, sorted[i]);
        assert(sorted.contains(sorted[i]));
    }
    assert forall|ray: Ray, t: int| #[trigger] any_hit(before, ray, t) == any_hit(sorted, ray, t) by {
        if any_hit(before, ray, t) {
            let i = choose|i: int| 0 <= i < before.len() && (#[trigger] before[i]).hit_at(ray, t);
            lemma_same_members(before, sorted, before[i]);
            assert(before.contains(before[i]));
            let j = choose|j: int| 0 <= j < sorted.len() && sorted[j] == before[i];
            assert(sorted[j].hit_at(ray, t));
        }
        if any_hit(sorted, ray, t) {
            let i = choose|i: int| 0 <= i < sorted.len() && (#[trigger] sorted[i]).hit_at(ray, t);
            lemma_same_members(before, sorted, sorted[i]);
            assert(sorted.contains(sorted[i]));
            let j = choose|j: int| 0 <= j < before.len() && before[j] == sorted[i];
            assert(before[j].hit_at(ray, t));
        }
    }
}

/// Splitting a sequence in two keeps validity and what the ray hits.
proof fn lemma_split<P: Hittable>(s: Seq<P>, ls: Seq<P>, rs: Seq<P>, middle: int)
    requires
        all_valid(s),
        0 <= middle <= s.len(),
        ls == s.subrange(0, middle),
        rs == s.subrange(middle, s.len() as int),
    ensures
        all_valid(ls),
        all_valid(rs),
        forall|i: int| 0 <= i < ls.len() ==> ls[i] == #[trigger] s[i + 0],
        forall|i: int| 0 <= i < rs.len() ==> rs[i] == #[trigger] s[i + middle],
        forall|ray: Ray, t: int| #[trigger] any_hit(s, ray, t) == (any_hit(ls, ray, t) || any_hit(rs, ray, t)),
{
    assert forall|i: int| 0 <= i < rs.len() implies (#[trigger] rs[i]).valid() by {
        assert(s[i + middle].valid());
    }
    assert forall|ray: Ray, t: int| #[trigger] any_hit(s, ray, t) == (any_hit(ls, ray, t) || any_hit(rs, ray, t)) by {
        if any_hit(s, ray, t) {
            let i = choose|i: int| 0 <= i < s.len() && (#[trigger] s[i]).hit_at(ray, t);
            if i < middle {
                assert(ls[i] == s[i]);
            } else {
                assert(rs[i - middle] == s[i]);
            }
        }
        if any_hit(ls, ray, t) {
            let i = choose|i: int| 0 <= i < ls.len() && (#[trigger] ls[i]).hit_at(ray, t);
            assert(s[i] == ls[i]);
        }
        if any_hit(rs, ray, t) {
            let i = choose|i: int| 0 <= i < rs.len() && (#[trigger] rs[i]).hit_at(ray, t);
            assert(s[i + middle] == rs[i]);
        }
    }
}

/// Builds a subtree over `prims`: one primitive makes a leaf; more are sorted along the
/// longest axis of their common box and split at the middle index.
fn build<P: Hittable>(prims: Vec<P>) -> (r: BVHNode<P>)
    requires
        prims@.len() >= 1,
        all_valid(prims@),
    ensures
        r.wf(),
        is_hull(r.box_of(), prims@),
        forall|ray: Ray, t: int| #[trigger] r.hits(ray, t) <==> any_hit(prims@, ray, t),
        r.leaf_count() == prims@.len(),
        r.node_count() == 2 * prims@.len() - 1,
        r.built(),
        r.leaves().to_multiset() == prims@.to_multiset(),
    decreases prims@.len(),
{
    let mut prims = prims;
    let n = prims.len();
    if n == 1 {
        let ghost s = prims@;
        let obj = prims.swap_remove(0);
        proof {
            assert(s[0] == obj);
            assert forall|ray: Ray, t: int| obj.hit_at(ray, t) <==> any_hit(s, ray, t) by {
                if any_hit(s, ray, t) {
                    let i = choose|i: int| 0 <= i < s.len() && (#[trigger] s[i]).hit_at(ray, t);
                    assert(i == 0);
                }
            }
        }
        proof {
            assert(s =~= seq![obj]);
        }
        return BVHNode::Leaf(obj);
    }
    let bbox = union_of_boxes(&prims);
    let axis = bbox.longest_axis();
    let ghost before = prims@;
    prims = sort_by_box_min(prims, axis);
    let ghost sorted = prims@;
    proof {
        lemma_hull_members(bbox, before, sorted);
        lemma_reordered(before, sorted);
    }
    let middle = n / 2;
    let right_objs = prims.split_off(middle);
    let left_objs = prims;
    let ghost ls = left_objs@;
    let ghost rs = right_objs@;
    proof {
        lemma_split(sorted, ls, rs, middle as int);
    }
    let left = build(left_objs);
    let right = build(right_objs);
    proof {
        lemma_hull_covers_sub(bbox, sorted, left.box_of(), ls, 0);
        lemma_hull_covers_sub(bbox, sorted, right.box_of(), rs, middle as int);
    }
    proof {
        lemma_branch_built(left, right, bbox, sorted, ls, rs, middle as int);
    }
    let node = BVHNode::Branch { left: Box::new(left), right: Some(Box::new(right)), bbox };
    proof {
        assert(node.leaves() == left.leaves() + right.leaves());
        assert(node.built());
    }
    proof {
        assert forall|ray: Ray, t: int| #[trigger] node.hits(ray, t) <==> any_hit(before, ray, t) by {
            assert(node.hits(ray, t) == (left.hits(ray, t) || right.hits(ray, t)));
            assert(any_hit(before, ray, t) == any_hit(sorted, ray, t));
            assert(any_hit(sorted, ray, t) == (any_hit(ls, ray, t) || any_hit(rs, ray, t)));
        }
    }
    node
}

/// Growing a hull by one more box keeps it the hull.
proof fn lemma_hull_step<P: Hittable>(old_iv: Interval, new_iv: Interval, s0: Seq<P>, s: Seq<P>, n: int, b: Interval)
    requires
        s0.len() >= 1,
        s.len() == s0.len() + 1,
        forall|i: int| 0 <= i < s0.len() ==> s0[i] == #[trigger] s[i],
        b == s[s0.len() as int].box_spec().axis_spec(n),
        axis_hull(old_iv, s0, n),
        new_iv == Interval::hull_spec(old_iv, b),
    ensures
        axis_hull(new_iv, s, n),
{
    let k = s0.len() as int;
    assert forall|i: int| 0 <= i < s.len() implies new_iv.min <= (#[trigger] s[i]).box_spec().axis_spec(n).min
        && s[i].box_spec().axis_spec(n).max <= new_iv.max by {
        if i < k {
            assert(s0[i] == s[i]);
        }
    }
    if old_iv.min <= b.min {
        let i = choose|i: int| 0 <= i < s0.len() && old_iv.min == (#[trigger] s0[i]).box_spec().axis_spec(n).min;
        assert(s[i] == s0[i]);
    } else {
        assert(new_iv.min == s[k].box_spec().axis_spec(n).min);
    }
    if old_iv.max >= b.max {
        let j = choose|j: int| 0 <= j < s0.len() && old_iv.max == (#[trigger] s0[j]).box_spec().axis_spec(n).max;
        assert(s[j] == s0[j]);
    } else {
        assert(new_iv.max == s[k].box_spec().axis_spec(n).max);
    }
}

/// A branch over the two halves of a sequence sorted along the longest axis of its hull has
/// the shape that `build` gives, and its leaves are the members of the sequence.
proof fn lemma_branch_built<P: Hittable>(
    left: BVHNode<P>,
    right: BVHNode<P>,
    bbox: AABB,
    sorted: Seq<P>,
    ls: Seq<P>,
    rs: Seq<P>,
    middle: int,
)
    requires
        is_hull(bbox, sorted),
        is_hull(left.box_of(), ls),
        is_hull(right.box_of(), rs),
        0 < middle < sorted.len(),
        middle == sorted.len() / 2,
        ls == sorted.subrange(0, middle),
        rs == sorted.subrange(middle, sorted.len() as int),
        forall|a: int, b: int|
            0 <= a < b < sorted.len() ==> box_key(sorted[a], longest_axis_spec(bbox)) <= box_key(
                sorted[b],
                longest_axis_spec(bbox),
            ),
        left.leaf_count() == ls.len(),
        right.leaf_count() == rs.len(),
        left.built(),
        right.built(),
        left.leaves().to_multiset() == ls.to_multiset(),
        right.leaves().to_multiset() == rs.to_multiset(),
    ensures
        bbox == AABB::union_spec(left.box_of(), right.box_of()),
        left.leaf_count() == (left.leaf_count() + right.leaf_count()) / 2,
        forall|i: int, j: int|
            0 <= i < left.leaves().len() && 0 <= j < right.leaves().len() ==> box_key(
                #[trigger] left.leaves()[i],
                longest_axis_spec(bbox),
            ) <= box_key(#[trigger] right.leaves()[j], longest_axis_spec(bbox)),
        (left.leaves() + right.leaves()).to_multiset() == sorted.to_multiset(),
{
    lemma_hull_union(bbox, sorted, left.box_of(), ls, right.box_of(), rs, middle);
    left.lemma_leaves_len();
    right.lemma_leaves_len();
    assert(sorted =~= ls + rs);
    vstd::seq_lib::lemma_multiset_commutative(ls, rs);
    vstd::seq_lib::lemma_multiset_commutative(left.leaves(), right.leaves());
    let axis = longest_axis_spec(bbox);
    assert forall|i: int, j: int|
        0 <= i < left.leaves().len() && 0 <= j < right.leaves().len() implies box_key(
            #[trigger] left.leaves()[i],
            axis,
        ) <= box_key(#[trigger] right.leaves()[j], axis) by {
        let x = left.leaves()[i];
        let y = right.leaves()[j];
        lemma_same_members(left.leaves(), ls, x);
        lemma_same_members(right.leaves(), rs, y);
        assert(left.leaves().contains(x));
        assert(right.leaves().contains(y));
        let a = choose|a: int| 0 <= a < ls.len() && ls[a] == x;
        let b = choose|b: int| 0 <= b < rs.len() && rs[b] == y;
        assert(sorted[a] == x);
        assert(sorted[b + middle] == y);
    }
}

/// The hull of a sequence is the union of the hulls of its two parts.
proof fn lemma_hull_union<P: Hittable>(b: AABB, s: Seq<P>, l: AABB, ls: Seq<P>, r: AABB, rs: Seq<P>, m: int)
    requires
        is_hull(b, s),
        is_hull(l, ls),
        is_hull(r, rs),
        0 < m < s.len(),
        ls == s.subrange(0, m),
        rs == s.subrange(m, s.len() as int),
    ensures
        b == AABB::union_spec(l, r),
{
    lemma_axis_hull_union(b.x, s, l.x, ls, r.x, rs, m, 0);
    lemma_axis_hull_union(b.y, s, l.y, ls, r.y, rs, m, 1);
    lemma_axis_hull_union(b.z, s, l.z, ls, r.z, rs, m, 2);
}

proof fn lemma_axis_hull_union<P: Hittable>(
    iv: Interval,
    s: Seq<P>,
    l: Interval,
    ls: Seq<P>,
    r: Interval,
    rs: Seq<P>,
    m: int,
    n: int,
)
    requires
        axis_hull(iv, s, n),
        axis_hull(l, ls, n),
        axis_hull(r, rs, n),
        0 < m < s.len(),
        ls == s.subrange(0, m),
        rs == s.subrange(m, s.len() as int),
    ensures
        iv == Interval::hull_spec(l, r),
{
    let a = choose|a: int| 0 <= a < ls.len() && l.min == (#[trigger] ls[a]).box_spec().axis_spec(n).min;
    assert(s[a] == ls[a]);
    let b = choose|b: int| 0 <= b < rs.len() && r.min == (#[trigger] rs[b]).box_spec().axis_spec(n).min;
    assert(s[b + m] == rs[b]);
    let c = choose|c: int| 0 <= c < s.len() && iv.min == (#[trigger] s[c]).box_spec().axis_spec(n).min;
    if c < m {
        assert(ls[c] == s[c]);
    } else {
        assert(rs[c - m] == s[c]);
    }
    let a2 = choose|a: int| 0 <= a < ls.len() && l.max == (#[trigger] ls[a]).box_spec().axis_spec(n).max;
    assert(s[a2] == ls[a2]);
    let b2 = choose|b: int| 0 <= b < rs.len() && r.max == (#[trigger] rs[b]).box_spec().axis_spec(n).max;
    assert(s[b2 + m] == rs[b2]);
    let c2 = choose|c: int| 0 <= c < s.len() && iv.max == (#[trigger] s[c]).box_spec().axis_spec(n).max;
    if c2 < m {
        assert(ls[c2] == s[c2]);
    } else {
        assert(rs[c2 - m] == s[c2]);
    }
}

/// A hull stays the hull of any sequence with the same members.
proof fn lemma_hull_members<P: Hittable>(b: AABB, s1: Seq<P>, s2: Seq<P>)
    requires
        is_hull(b, s1),
        s1.to_multiset() == s2.to_multiset(),
    ensures
        is_hull(b, s2),
{
    lemma_axis_hull_members(b.x, s1, s2, 0);
    lemma_axis_hull_members(b.y, s1, s2, 1);
    lemma_axis_hull_members(b.z, s1, s2, 2);
}

proof fn lemma_axis_hull_members<P: Hittable>(iv: Interval, s1: Seq<P>, s2: Seq<P>, n: int)
    requires
        axis_hull(iv, s1, n),
        s1.to_multiset() == s2.to_multiset(),
    ensures
        axis_hull(iv, s2, n),
{
    assert forall|i: int| 0 <= i < s2.len() implies iv.min <= (#[trigger] s2[i]).box_spec().axis_spec(n).min
        && s2[i].box_spec().axis_spec(n).max <= iv.max by {
        lemma_same_members(s1, s2, s2[i]);
        assert(s2.contains(s2[i]));
        let j = choose|j: int| 0 <= j < s1.len() && s1[j] == s2[i];
        assert(s1[j] == s2[i]);
    }
    let i = choose|i: int| 0 <= i < s1.len() && iv.min == (#[trigger] s1[i]).box_spec().axis_spec(n).min;
    lemma_same_members(s1, s2, s1[i]);
    assert(s1.contains(s1[i]));
    let i2 = choose|i2: int| 0 <= i2 < s2.len() && s2[i2] == s1[i];
    assert(iv.min == s2[i2].box_spec().axis_spec(n).min);
    let j = choose|j: int| 0 <= j < s1.len() && iv.max == (#[trigger] s1[j]).box_spec().axis_spec(n).max;
    lemma_same_members(s1, s2, s1[j]);
    assert(s1.contains(s1[j]));
    let j2 = choose|j2: int| 0 <= j2 < s2.len() && s2[j2] == s1[j];
    assert(iv.max == s2[j2].box_spec().axis_spec(n).max);
}

/// The hull of a sequence covers the hull of any run of it.
proof fn lemma_hull_covers_sub<P: Hittable>(b: AABB, s: Seq<P>, c: AABB, sub: Seq<P>, off: int)
    requires
        is_hull(b, s),
        is_hull(c, sub),
        0 <= off,
        off + sub.len() <= s.len(),
        forall|i: int| 0 <= i < sub.len() ==> sub[i] == #[trigger] s[i + off],
    ensures
        b.covers(c),
{
    let i = choose|i: int| 0 <= i < sub.len() && c.x.min == (#[trigger] sub[i]).box_spec().axis_spec(0).min;
    assert(s[i + off] == sub[i]);
    let i = choose|i: int| 0 <= i < sub.len() && c.x.max == (#[trigger] sub[i]).box_spec().axis_spec(0).max;
    assert(s[i + off] == sub[i]);
    let i = choose|i: int| 0 <= i < sub.len() && c.y.min == (#[trigger] sub[i]).box_spec().axis_spec(1).min;
    assert(s[i + off] == sub[i]);
    let i = choose|i: int| 0 <= i < sub.len() && c.y.max == (#[trigger] sub[i]).box_spec().axis_spec(1).max;
    assert(s[i + off] == sub[i]);
    let i = choose|i: int| 0 <= i < sub.len() && c.z.min == (#[trigger] sub[i]).box_spec().axis_spec(2).min;
    assert(s[i + off] == sub[i]);
    let i = choose|i: int| 0 <= i < sub.len() && c.z.max == (#[trigger] sub[i]).box_spec().axis_spec(2).max;
    assert(s[i + off] == sub[i]);
}

/// The tree finds the globally nearest hit: for any ray and any interval of more than one
/// parameter, the hit that a tree built from some primitives reports lies at the same
/// parameter as the hit that a linear scan of the same primitives reports, and one is found
/// exactly when the other is. (Over a single parameter the strict slab test of a branch box
/// can prune a hit that the scan finds.)
pub proof fn lemma_nearest_hit_matches_scan<P: Hittable>(
    bvh: BVH<P>,
    scan: HittableList<P>,
    ray: Ray,
    ray_t: Interval,
    from_tree: Option<HitRecord>,
    from_scan: Option<HitRecord>,
)
    requires
        bvh.inv(),
        scan.objects@ == bvh.primitives(),
        ray_t.min < ray_t.max,
        is_nearest_hit(bvh, ray, ray_t, from_tree),
        is_nearest_hit(scan, ray, ray_t, from_scan),
    ensures
        from_tree is Some <==> from_scan is Some,
        from_tree is Some ==> from_tree->Some_0.t == from_scan->Some_0.t,
{
    assert forall|t: int| #[trigger] bvh.hit_at(ray, t) == scan.hit_at(ray, t) by {}
    if let (Some(a), Some(b)) = (from_tree, from_scan) {
        if a.t < b.t {
            assert(scan.hit_at(ray, a.t as int));
        } else if b.t < a.t {
            assert(bvh.hit_at(ray, b.t as int));
        }
    } else if let Some(a) = from_tree {
        assert(scan.hit_at(ray, a.t as int));
    } else if let Some(b) = from_scan {
        assert(bvh.hit_at(ray, b.t as int));
    }
}

/// Containment: in a well-formed subtree, every branch's box contains the union of its
/// children's boxes, and its children are well formed in turn.
pub proof fn lemma_branch_contains_children<P: Hittable>(node: BVHNode<P>)
    requires
        node.wf(),
        node is Branch,
    ensures
        node->left.wf(),
        node->right is Some ==> node->right->Some_0.wf(),
        node->right is Some ==> node->bbox.covers(
            AABB::union_spec(node->left.box_of(), node->right->Some_0.box_of()),
        ),
        node->right is None ==> node->bbox.covers(node->left.box_of()),
{
}

/// A tree built by `BVH::new` is well formed, has the shape that `build` gives (every branch
/// the union of two children, split at the middle after sorting along the longest axis), and
/// its leaves, from left to right, are the primitives it was built from, reordered.
pub proof fn lemma_built_tree_well_formed<P: Hittable>(bvh: BVH<P>)
    requires
        bvh.inv(),
    ensures
        bvh.root_node().wf(),
        bvh.root_node().built(),
        bvh.root_node().leaves().to_multiset() == bvh.primitives().to_multiset(),
        bvh.root_node().leaf_count() == bvh.primitives().len(),
{
}

/// Flattening keeps the nearest hit: the array that `to_gpu` gives, over the primitives in
/// the order that `into_primitives` gives, is sound at its last entry, and below that entry
/// the ray meets exactly what it meets in the tree. So `hit_flattened` from that entry finds
/// the nearest hit of the tree's primitives, and reports the very record that the tree's
/// `hit` reports, for every range.
pub proof fn lemma_flattened_tree_hits<P: Hittable>(bvh: BVH<P>, nodes: Seq<BVHNodeGPU>, prims: Seq<P>)
    requires
        bvh.inv(),
        bvh.primitives().len() < 0x8000_0000,
        nodes.len() == 2 * bvh.primitives().len() - 1,
        encodes(nodes, nodes.len() - 1, bvh.root_node(), 0),
        prims == bvh.root_node().leaves(),
    ensures
        flat_ok(nodes, prims, nodes.len() - 1),
        forall|ray: Ray, t: int| #[trigger] flat_hits(nodes, prims, nodes.len() - 1, ray, t) == any_hit(bvh.primitives(), ray, t),
        forall|ray: Ray, ray_t: Interval| #[trigger] flat_hit_spec(nodes, prims, nodes.len() - 1, ray, ray_t) == bvh.hit_spec(ray, ray_t),
{
    bvh.lemma_inv_parts();
    bvh.root_node().lemma_leaves_len();
    lemma_encoding_sound(nodes, prims, nodes.len() - 1, bvh.root_node(), 0);
    assert forall|ray: Ray, t: int| #[trigger] flat_hits(nodes, prims, nodes.len() - 1, ray, t) == any_hit(bvh.primitives(), ray, t) by {
        assert(bvh.root_node().hits(ray, t) == any_hit(bvh.primitives(), ray, t));
    }
}

} // verus!
