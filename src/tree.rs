use vstd::multiset::Multiset;
use vstd::prelude::*;

use crate::geometry::{Cuboid, Point};

verus! {

/// How many levels below the node it starts at an insertion may descend.
/// A body that would have to go deeper is refused: coincident points would
/// otherwise be routed into the same octant for ever.
pub const MAX_DEPTH: usize = 64;

/// A point mass: an integer mass at an integer location.
#[derive(Clone, Copy, Debug, PartialEq, Eq, Structural)]
pub struct Body {
    pub mass: u64,
    pub location: Point,
}

/// Why an insertion was refused.
#[derive(Clone, Copy, Debug, PartialEq, Eq, Structural)]
pub enum InsertError {
    /// Every node on the body's path down to `MAX_DEPTH` levels below the
    /// starting node is occupied.
    MaxDepthExceeded,
}

/// A node of the octree: the box it covers, the body that came to rest here
/// (the first one routed to this node), and one optional child per octant.
///
/// A resident body stays where it is when later bodies pass through the node
/// on their way to its children: each node keeps the first body that reached
/// it. Points outside the root's box are not refused; they are routed by
/// midpoint comparison like any other.
#[derive(Debug)]
pub struct OctreeNode {
    pub children: [Option<Box<OctreeNode>>; 8],
    pub body: Option<Body>,
    pub bounding_box: Cuboid,
}

pub open spec fn no_children() -> [Option<Box<OctreeNode>>; 8] {
    [None, None, None, None, None, None, None, None]
}

/// `a` with slot `i` replaced by `v`.
pub open spec fn with_slot(
    a: [Option<Box<OctreeNode>>; 8],
    i: int,
    v: Option<Box<OctreeNode>>,
) -> [Option<Box<OctreeNode>>; 8] {
    [
        if i == 0 { v } else { a[0] },
        if i == 1 { v } else { a[1] },
        if i == 2 { v } else { a[2] },
        if i == 3 { v } else { a[3] },
        if i == 4 { v } else { a[4] },
        if i == 5 { v } else { a[5] },
        if i == 6 { v } else { a[6] },
        if i == 7 { v } else { a[7] },
    ]
}

/// A node over `space` with no body and no children.
pub open spec fn empty_node(space: Cuboid) -> OctreeNode {
    OctreeNode { children: no_children(), body: None, bounding_box: space }
}

/// A node over `space` that holds `body` and has no children.
pub open spec fn leaf(space: Cuboid, body: Body) -> OctreeNode {
    OctreeNode { children: no_children(), body: Some(body), bounding_box: space }
}

impl OctreeNode {
    /// The node after `body` is inserted into it, where the node stands
    /// `depth` levels below the node the insertion started at; `None` where
    /// the body's path runs past `MAX_DEPTH`.
    pub open spec fn inserted(self, body: Body, depth: nat) -> Option<OctreeNode>
        decreases MAX_DEPTH - depth,
    {
        if self.body is None {
            Some(OctreeNode { children: self.children, body: Some(body), bounding_box: self.bounding_box })
        } else if depth >= MAX_DEPTH {
            None
        } else {
            let i = self.bounding_box.octant_index(body.location);
            match self.children[i] {
                None => Some(
                    OctreeNode {
                        children: with_slot(
                            self.children,
                            i,
                            Some(Box::new(leaf(self.bounding_box.sub_cuboid(i), body))),
                        ),
                        body: self.body,
                        bounding_box: self.bounding_box,
                    },
                ),
                Some(child) => match child.inserted(body, depth + 1) {
                    None => None,
                    Some(c) => Some(
                        OctreeNode {
                            children: with_slot(self.children, i, Some(Box::new(c))),
                            body: self.body,
                            bounding_box: self.bounding_box,
                        },
                    ),
                },
            }
        }
    }

    /// The tree invariant, for a node `depth` levels below the root: a node
    /// without a body has no children, each child covers its octant of the
    /// parent's box, and no node lies deeper than `MAX_DEPTH`.
    pub open spec fn well_formed_at(self, depth: nat) -> bool
        decreases MAX_DEPTH - depth,
    {
        &&& (self.body is None ==> self.children == no_children())
        &&& if depth >= MAX_DEPTH {
            self.children == no_children()
        } else {
            forall|i: int|
                0 <= i < 8 ==> match #[trigger] self.children[i] {
                    None => true,
                    Some(c) => c.bounding_box == self.bounding_box.sub_cuboid(i)
                        && c.well_formed_at(depth + 1),
                }
        }
    }

    pub open spec fn well_formed(self) -> bool {
        self.well_formed_at(0)
    }

    /// An empty node scoped to `space`.
    pub fn new(space: Cuboid) -> (r: OctreeNode)
        ensures
            r == empty_node(space),
            r.well_formed(),
    {
        let r = OctreeNode {
            children: [None, None, None, None, None, None, None, None],
            body: None,
            bounding_box: space,
        };
        assert(r.children =~= no_children());
        r
    }

    /// Inserts `body`: it rests here if this node is empty, and otherwise
    /// descends into the child of the octant that its location falls in,
    /// creating that child if it does not exist yet. Fails, leaving the tree
    /// unchanged, where the body would have to rest more than `MAX_DEPTH`
    /// levels below this node.
    pub fn insert(&mut self, body: Body) -> (r: Result<(), InsertError>)
        ensures
            match old(self).inserted(body, 0) {
                Some(n) => r == Ok::<(), InsertError>(()) && *final(self) == n,
                None => r == Err::<(), InsertError>(InsertError::MaxDepthExceeded) && *final(self)
                    == *old(self),
            },
            old(self).well_formed() ==> final(self).well_formed(),
            r is Ok ==> bodies_of(*final(self)) =~= bodies_of(*old(self)).insert(body),
    {
        let ghost before = *self;
        let r = self.insert_at(body, 0);
        proof {
            if r is Ok {
                lemma_inserted_bodies(before, body, 0);
            }
        }
        r
    }

    fn insert_at(&mut self, body: Body, depth: usize) -> (r: Result<(), InsertError>)
        requires
            depth <= MAX_DEPTH,
        ensures
            match old(self).inserted(body, depth as nat) {
                Some(n) => r == Ok::<(), InsertError>(()) && *final(self) == n,
                None => r == Err::<(), InsertError>(InsertError::MaxDepthExceeded) && *final(self)
                    == *old(self),
            },
            old(self).well_formed_at(depth as nat) ==> final(self).well_formed_at(depth as nat),
        decreases MAX_DEPTH - depth,
    {
        if self.body.is_none() {
            self.body = Some(body);
            return Ok(());
        }
        if depth >= MAX_DEPTH {
            return Err(InsertError::MaxDepthExceeded);
        }
        let ghost before = *self;
        let i = self.bounding_box.octant_contains_point(&body.location);
        if self.children[i].is_none() {
            let octants = self.bounding_box.split();
            let mut child = OctreeNode::new(octants[i]);
            child.body = Some(body);
            assert(child.well_formed_at(depth as nat + 1));
            self.children[i] = Some(Box::new(child));
            assert(self.children =~= with_slot(
                before.children,
                i as int,
                Some(Box::new(leaf(before.bounding_box.sub_cuboid(i as int), body))),
            ));
            Ok(())
        } else {
            let mut slot: Option<Box<OctreeNode>> = None;
            std::mem::swap(&mut self.children[i], &mut slot);
            let mut child = slot.unwrap();
            let r = child.insert_at(body, depth + 1);
            self.children[i] = Some(child);
            assert(self.children =~= with_slot(before.children, i as int, Some(child)));
            proof {
                if r is Err {
                    assert(self.children =~= before.children);
                }
            }
            r
        }
    }
}

/// The node with `bodies` inserted one after another, in order; `None` where
/// one of the insertions is refused.
pub open spec fn inserted_all(node: OctreeNode, bodies: Seq<Body>) -> Option<OctreeNode>
    decreases bodies.len(),
{
    if bodies.len() == 0 {
        Some(node)
    } else {
        match inserted_all(node, bodies.drop_last()) {
            None => None,
            Some(n) => n.inserted(bodies.last(), 0),
        }
    }
}

impl From<Cuboid> for OctreeNode {
    fn from(value: Cuboid) -> Self {
        OctreeNode::new(value)
    }
}

impl vstd::std_specs::convert::FromSpecImpl<Cuboid> for OctreeNode {
    open spec fn obeys_from_spec() -> bool {
        true
    }

    open spec fn from_spec(v: Cuboid) -> Self {
        empty_node(v)
    }
}

/// Once an insertion in a sequence is refused, inserting any longer sequence
/// that starts the same way is refused too.
proof fn lemma_refused_prefix(node: OctreeNode, bodies: Seq<Body>, k: int)
    requires
        0 <= k <= bodies.len(),
        inserted_all(node, bodies.take(k)) is None,
    ensures
        inserted_all(node, bodies) is None,
    decreases bodies.len(),
{
    if k < bodies.len() {
        assert(bodies.drop_last().take(k) =~= bodies.take(k));
        lemma_refused_prefix(node, bodies.drop_last(), k);
    } else {
        assert(bodies.take(k) =~= bodies);
    }
}

/// A tree built over one box from a sequence of bodies.
#[derive(Debug)]
pub struct Simulation {
    pub tree: OctreeNode,
}

impl Simulation {
    /// Builds the tree over `space`, inserting `bodies` in order into an
    /// empty root. Fails where one of the insertions is refused.
    pub fn new(bodies: Vec<Body>, space: Cuboid) -> (r: Result<Simulation, InsertError>)
        ensures
            match inserted_all(empty_node(space), bodies@) {
                Some(t) => r == Ok::<Simulation, InsertError>(Simulation { tree: t }),
                None => r == Err::<Simulation, InsertError>(InsertError::MaxDepthExceeded),
            },
            r matches Ok(s) ==> s.tree.well_formed(),
            r matches Ok(s) ==> bodies_of(s.tree) =~= bodies@.to_multiset(),
    {
        broadcast use vstd::seq_lib::group_to_multiset_ensures;

        let mut root = OctreeNode::new(space);
        let mut i: usize = 0;
        proof {
            assert(bodies@.take(0) =~= Seq::<Body>::empty());
            lemma_slot_index(no_children(), 0, None);
            lemma_no_children_bodies(0, 8);
            assert(bodies_of(root) =~= Multiset::empty());
            assert(bodies@.take(0).to_multiset().len() == 0);
        }
        while i < bodies.len()
            invariant
                i <= bodies.len(),
                inserted_all(empty_node(space), bodies@.take(i as int)) == Some(root),
                root.well_formed(),
                bodies_of(root) =~= bodies@.take(i as int).to_multiset(),
            decreases bodies.len() - i,
        {
            let body = bodies[i];
            let res = root.insert(body);
            assert(bodies@.take(i + 1).drop_last() =~= bodies@.take(i as int));
            assert(bodies@.take(i + 1) =~= bodies@.take(i as int).push(body));
            if res.is_err() {
                proof {
                    lemma_refused_prefix(empty_node(space), bodies@, i + 1);
                }
                return Err(InsertError::MaxDepthExceeded);
            }
            proof {
                vstd::seq_lib::to_multiset_build(bodies@.take(i as int), body);
            }
            assert(bodies_of(root) =~= bodies@.take(i + 1).to_multiset());
            i = i + 1;
        }
        assert(bodies@.take(i as int) =~= bodies@);
        Ok(Simulation { tree: root })
    }
}

/// A single body inserted into an empty node rests at that node, which gets
/// no children.
pub proof fn lemma_single_insert(space: Cuboid, a: Body)
    ensures
        inserted_all(empty_node(space), seq![a]) == Some(leaf(space, a)),
{
    assert(seq![a].drop_last() =~= Seq::<Body>::empty());
    assert(inserted_all(empty_node(space), Seq::<Body>::empty()) == Some(empty_node(space)));
    assert(empty_node(space).inserted(a, 0) == Some(leaf(space, a)));
}

/// Two bodies inserted into an empty node: the first rests at the node, and
/// the second in a new leaf, the only child, at the octant its location
/// falls in.
pub proof fn lemma_two_inserts(space: Cuboid, a: Body, b: Body)
    ensures
        inserted_all(empty_node(space), seq![a, b]) == Some(
            OctreeNode {
                children: with_slot(
                    no_children(),
                    space.octant_index(b.location),
                    Some(Box::new(leaf(space.sub_cuboid(space.octant_index(b.location)), b))),
                ),
                body: Some(a),
                bounding_box: space,
            },
        ),
{
    lemma_single_insert(space, a);
    assert(seq![a, b].drop_last() =~= seq![a]);
    crate::geometry::lemma_octant_index_total(space, b.location);
}

/// Insertion does not commute: of two distinct bodies, the one inserted
/// first rests at the root, so the two orders give different trees.
pub proof fn lemma_insertion_order_matters(space: Cuboid, a: Body, b: Body)
    requires
        a != b,
    ensures
        inserted_all(empty_node(space), seq![a, b]) is Some,
        inserted_all(empty_node(space), seq![b, a]) is Some,
        inserted_all(empty_node(space), seq![a, b]).unwrap().body == Some(a),
        inserted_all(empty_node(space), seq![b, a]).unwrap().body == Some(b),
        inserted_all(empty_node(space), seq![a, b]) != inserted_all(empty_node(space), seq![b, a]),
{
    lemma_two_inserts(space, a, b);
    lemma_two_inserts(space, b, a);
}

/// The bodies that one child slot holds, where its parent stands `depth`
/// levels down.
pub open spec fn slot_bodies(slot: Option<Box<OctreeNode>>, depth: nat) -> Multiset<Body>
    decreases MAX_DEPTH - depth, 0nat,
{
    if depth >= MAX_DEPTH {
        Multiset::empty()
    } else {
        match slot {
            None => Multiset::empty(),
            Some(c) => bodies_at(*c, depth + 1),
        }
    }
}

/// The bodies held by the first `k` child slots of a node `depth` levels down.
pub open spec fn children_bodies(children: [Option<Box<OctreeNode>>; 8], depth: nat, k: nat) -> Multiset<Body>
    decreases MAX_DEPTH - depth, k + 1,
{
    if k == 0 {
        Multiset::empty()
    } else {
        children_bodies(children, depth, (k - 1) as nat).add(slot_bodies(children[k - 1], depth))
    }
}

/// Every body held in the subtree of a node that stands `depth` levels down,
/// counted with multiplicity.
pub open spec fn bodies_at(node: OctreeNode, depth: nat) -> Multiset<Body>
    decreases MAX_DEPTH - depth, 10nat,
{
    let own = match node.body {
        Some(b) => Multiset::singleton(b),
        None => Multiset::empty(),
    };
    own.add(children_bodies(node.children, depth, 8))
}

/// Every body held in a tree.
pub open spec fn bodies_of(node: OctreeNode) -> Multiset<Body> {
    bodies_at(node, 0)
}

proof fn lemma_slot_index(a: [Option<Box<OctreeNode>>; 8], i: int, v: Option<Box<OctreeNode>>)
    ensures
        forall|j: int|
            0 <= j < 8 ==> #[trigger] with_slot(a, i, v)[j] == if j == i {
                v
            } else {
                a[j]
            },
        forall|j: int| 0 <= j < 8 ==> #[trigger] no_children()[j] is None,
{
    assert forall|j: int| 0 <= j < 8 implies #[trigger] with_slot(a, i, v)[j] == if j == i {
        v
    } else {
        a[j]
    } && no_children()[j] is None by {
        if j == 0 {
        } else if j == 1 {
        } else if j == 2 {
        } else if j == 3 {
        } else if j == 4 {
        } else if j == 5 {
        } else if j == 6 {
        } else {
        }
    }
}

proof fn lemma_no_children_bodies(depth: nat, k: nat)
    requires
        k <= 8,
    ensures
        children_bodies(no_children(), depth, k) =~= Multiset::empty(),
    decreases k,
{
    broadcast use vstd::multiset::group_multiset_axioms;

    if k > 0 {
        lemma_slot_index(no_children(), 0, None);
        lemma_no_children_bodies(depth, (k - 1) as nat);
        assert(no_children()[k - 1] is None);
        assert(slot_bodies(no_children()[k - 1], depth) =~= Multiset::empty());
        assert(children_bodies(no_children(), depth, k) == children_bodies(no_children(), depth, (k - 1) as nat).add(slot_bodies(no_children()[k - 1], depth)));
    }
}

/// Replacing one slot changes the bodies of the slots by what the slot held.
proof fn lemma_replace_slot_bodies(
    children: [Option<Box<OctreeNode>>; 8],
    depth: nat,
    k: nat,
    i: int,
    v: Option<Box<OctreeNode>>,
)
    requires
        0 <= i < 8,
        k <= 8,
    ensures
        children_bodies(with_slot(children, i, v), depth, k).add(
            if i < k { slot_bodies(children[i], depth) } else { Multiset::empty() },
        ) =~= children_bodies(children, depth, k).add(
            if i < k { slot_bodies(v, depth) } else { Multiset::empty() },
        ),
    decreases k,
{
    broadcast use vstd::multiset::group_multiset_axioms;

    if k > 0 {
        lemma_slot_index(children, i, v);
        lemma_replace_slot_bodies(children, depth, (k - 1) as nat, i, v);
        let w = with_slot(children, i, v);
        assert(w[k - 1] == if k - 1 == i { v } else { children[k - 1] });
        assert(children_bodies(w, depth, k) == children_bodies(w, depth, (k - 1) as nat).add(
            slot_bodies(w[k - 1], depth),
        ));
        assert(children_bodies(children, depth, k) == children_bodies(
            children,
            depth,
            (k - 1) as nat,
        ).add(slot_bodies(children[k - 1], depth)));
        let prev_old = if i < k - 1 { slot_bodies(children[i], depth) } else { Multiset::empty() };
        let prev_new = if i < k - 1 { slot_bodies(v, depth) } else { Multiset::empty() };
        let a = children_bodies(w, depth, (k - 1) as nat);
        let b = children_bodies(children, depth, (k - 1) as nat);
        assert(a.add(prev_old) =~= b.add(prev_new));
        assert forall|x: Body| a.count(x) + prev_old.count(x) == b.count(x) + prev_new.count(x) by {
            assert(a.add(prev_old).count(x) == b.add(prev_new).count(x));
        }
    }
}

/// An insertion that succeeds adds its body to the subtree's bodies and
/// loses none.
proof fn lemma_inserted_bodies(node: OctreeNode, body: Body, depth: nat)
    requires
        node.inserted(body, depth) is Some,
    ensures
        bodies_at(node.inserted(body, depth).unwrap(), depth) =~= bodies_at(node, depth).insert(body),
    decreases MAX_DEPTH - depth,
{
    broadcast use vstd::multiset::group_multiset_axioms;

    let n = node.inserted(body, depth).unwrap();
    if node.body is Some && depth < MAX_DEPTH {
        let i = node.bounding_box.octant_index(body.location);
        crate::geometry::lemma_octant_index_total(node.bounding_box, body.location);
        let v = n.children[i];
        match node.children[i] {
            None => {
                lemma_no_children_bodies(depth + 1, 8);
                assert(slot_bodies(v, depth) =~= slot_bodies(node.children[i], depth).insert(body));
            },
            Some(c) => {
                lemma_inserted_bodies(*c, body, depth + 1);
                assert(slot_bodies(v, depth) =~= slot_bodies(node.children[i], depth).insert(body));
            },
        }
        lemma_replace_slot_bodies(node.children, depth, 8, i, v);
        let old_slot = slot_bodies(node.children[i], depth);
        let lhs = children_bodies(n.children, depth, 8);
        let rhs = children_bodies(node.children, depth, 8).insert(body);
        assert(lhs.add(old_slot) =~= rhs.add(old_slot));
        assert forall|x: Body| lhs.count(x) == rhs.count(x) by {
            assert(lhs.add(old_slot).count(x) == rhs.add(old_slot).count(x));
        }
        assert(lhs =~= rhs);
    }
}

} // verus!
