use crate::gfx::Drawable;
use std::collections::VecDeque;
use vstd::prelude::*;
use vstd::set_lib::{lemma_int_range, lemma_len_subset, set_int_range};

verus! {

/// The link value that means "no sibling" or "no child".
pub const NONE: u32 = 0;

/// The child link of a node that is not in use.
pub const INACTIVE: u32 = 0xffff_ffff;

/// A node of the scene: links to its next sibling and its first child, its
/// transform relative to its parent, the world transform computed from it, and
/// what it draws.
#[derive(Clone, Copy, Debug)]
pub struct Node<X, B> {
    pub sib: u32,
    pub kid: u32,
    pub local: X,
    pub world: X,
    pub draw: Drawable<B>,
}

impl<X, B> Node<X, B> {
    pub open spec fn active(&self) -> bool {
        self.kid != INACTIVE
    }

    pub fn is_active(&self) -> (r: bool)
        ensures
            r == self.active(),
    {
        self.kid != INACTIVE
    }
}

/// Whether the update may go from node `a` to node `b`: `b` is the sibling or the
/// child of `a`, and both are in the pool and in use.
pub open spec fn link<X, B>(nodes: Seq<Node<X, B>>, a: int, b: int) -> bool {
    &&& 0 <= a < nodes.len()
    &&& 0 <= b < nodes.len()
    &&& b != NONE
    &&& nodes[a].active()
    &&& nodes[b].active()
    &&& (b == nodes[a].sib || b == nodes[a].kid)
}

/// Whether `x` may be the parent transform of node `b`: `root` for node 0, else the
/// world transform of a reached node whose child is `b`, or the parent transform
/// of a reached node whose sibling is `b`.
pub open spec fn fed_by<X, B>(
    nodes: Seq<Node<X, B>>,
    vis: Set<int>,
    pw: Map<int, X>,
    root: X,
    b: int,
    x: X,
) -> bool {
    ||| b == 0 && x == root
    ||| exists|p: int|
        #![trigger nodes[p]]
        vis.contains(p) && b != NONE && nodes[p].kid == b && x == nodes[p].world
    ||| exists|q: int|
        #![trigger nodes[q]]
        vis.contains(q) && b != NONE && nodes[q].sib == b && x == pw[q]
}

/// Where the parent transform that node `a` was combined with comes from.
pub open spec fn fed_from<X, B>(
    nodes: Seq<Node<X, B>>,
    vis: Set<int>,
    pw: Map<int, X>,
    root: X,
    a: int,
) -> bool {
    fed_by(nodes, vis, pw, root, a, pw[a])
}

/// Node `i` is node 0 in use, or is reached from it in at most `d` links.
pub open spec fn reach<X, B>(nodes: Seq<Node<X, B>>, i: int, d: nat) -> bool
    decreases d,
{
    if d == 0 {
        i == 0 && nodes.len() > 0 && nodes[0].active()
    } else {
        reach(nodes, i, (d - 1) as nat) || exists|a: int|
            #![trigger link(nodes, a, i)]
            reach(nodes, a, (d - 1) as nat) && link(nodes, a, i)
    }
}

/// Node `i` is reached from node 0 over sibling and child links.
#[verifier::opaque]
pub open spec fn reachable<X, B>(nodes: Seq<Node<X, B>>, i: int) -> bool {
    exists|d: nat| reach(nodes, i, d)
}

/// A queued node that is in the pool and in use is reached from node 0.
#[verifier::opaque]
pub open spec fn entry_reached<X, B>(nodes: Seq<Node<X, B>>, b: int) -> bool {
    0 <= b < nodes.len() && nodes[b].active() ==> reachable(nodes, b)
}

proof fn lemma_reach_link<X, B>(nodes: Seq<Node<X, B>>, a: int, b: int)
    requires
        reachable(nodes, a),
        link(nodes, a, b),
    ensures
        reachable(nodes, b),
{
    reveal(reachable);
    let d = choose|d: nat| reach(nodes, a, d);
    assert(reach(nodes, b, d + 1));
}

/// Node 0, queued first, is reached.
proof fn lemma_root_entry<X, B>(nodes: Seq<Node<X, B>>)
    ensures
        entry_reached(nodes, 0),
{
    reveal(entry_reached);
    reveal(reachable);
    if nodes.len() > 0 && nodes[0].active() {
        assert(reach(nodes, 0, 0));
    }
}

/// A queued node taken up by the update is reached.
proof fn lemma_entry_taken<X, B>(nodes: Seq<Node<X, B>>, b: int)
    requires
        entry_reached(nodes, b),
        0 <= b < nodes.len(),
        nodes[b].active(),
    ensures
        reachable(nodes, b),
{
    reveal(entry_reached);
}

/// The sibling or child queued after a reached node is reached when it is in
/// use.
proof fn lemma_entry_pushed<X, B>(nodes: Seq<Node<X, B>>, a: int, b: int)
    requires
        reachable(nodes, a),
        0 <= a < nodes.len(),
        nodes[a].active(),
        b != NONE,
        b == nodes[a].sib || b == nodes[a].kid,
    ensures
        entry_reached(nodes, b),
{
    reveal(entry_reached);
    if 0 <= b < nodes.len() && nodes[b].active() {
        lemma_reach_link(nodes, a, b);
    }
}

/// `fed_by` survives a step that reaches more nodes and leaves the reached ones
/// and their parent transforms as they were.
proof fn lemma_fed_by_grows<X, B>(
    nodes0: Seq<Node<X, B>>,
    nodes1: Seq<Node<X, B>>,
    vis0: Set<int>,
    vis1: Set<int>,
    pw0: Map<int, X>,
    pw1: Map<int, X>,
    root: X,
    b: int,
    x: X,
)
    requires
        fed_by(nodes0, vis0, pw0, root, b, x),
        vis0.subset_of(vis1),
        forall|p: int| vis0.contains(p) ==> nodes1[p] == nodes0[p] && pw1[p] == pw0[p],
    ensures
        fed_by(nodes1, vis1, pw1, root, b, x),
{
    if b == 0 && x == root {
    } else if exists|p: int|
        #![trigger nodes0[p]]
        vis0.contains(p) && b != NONE && nodes0[p].kid == b && x == nodes0[p].world {
        let p = choose|p: int|
            #![trigger nodes0[p]]
            vis0.contains(p) && b != NONE && nodes0[p].kid == b && x == nodes0[p].world;
        assert(nodes1[p] == nodes0[p]);
    } else {
        let q = choose|q: int|
            #![trigger nodes0[q]]
            vis0.contains(q) && b != NONE && nodes0[q].sib == b && x == pw0[q];
        assert(nodes1[q] == nodes0[q]);
    }
}

#[verifier::opaque]
/// The outcome of `update`: `vis` is the set of nodes reached from node 0 (closed
/// under links), `pw` the parent transform each of them was combined with.
pub open spec fn updated<X, B, F: Fn(&X, &X) -> X>(
    before: Seq<Node<X, B>>,
    after: Seq<Node<X, B>>,
    root: X,
    concat: F,
    vis: Set<int>,
    pw: Map<int, X>,
) -> bool {
    &&& after.len() == before.len()
    &&& forall|i: int|
        0 <= i < before.len() ==> {
            &&& (#[trigger] after[i]).sib == before[i].sib
            &&& after[i].kid == before[i].kid
            &&& after[i].local == before[i].local
            &&& after[i].draw == before[i].draw
        }
    &&& forall|i: int| #[trigger] vis.contains(i) ==> 0 <= i < before.len() && before[i].active()
    &&& before.len() > 0 && before[0].active() ==> vis.contains(0)
    &&& forall|a: int, b: int| vis.contains(a) && #[trigger] link(before, a, b) ==> vis.contains(b)
    &&& forall|i: int| 0 <= i < before.len() && !vis.contains(i) ==> #[trigger] after[i].world == before[i].world
    &&& forall|a: int| #[trigger]
        vis.contains(a) ==> pw.contains_key(a) && concat.ensures(
            (&pw[a], &before[a].local),
            after[a].world,
        )
    &&& forall|a: int| #[trigger] vis.contains(a) ==> fed_from(after, vis, pw, root, a)
    &&& forall|a: int| #[trigger] vis.contains(a) ==> reachable(before, a)
}

pub open spec fn is_queued<X>(q: Seq<(u32, X)>, b: int) -> bool {
    exists|k: int| 0 <= k < q.len() && q[k].0 as int == b
}

/// The pool after `add_node(node)`: the first slot not in use holds `node`, or,
/// with every slot in use, `node` is appended.
pub open spec fn added<X, B>(before: Seq<Node<X, B>>, node: Node<X, B>, after: Seq<Node<X, B>>) -> bool {
    ||| (forall|j: int| 0 <= j < before.len() ==> (#[trigger] before[j]).active()) && after
        == before.push(node)
    ||| exists|i: int|
        0 <= i < before.len() && !before[i].active() && (forall|j: int|
            0 <= j < i ==> (#[trigger] before[j]).active()) && after == before.update(i, node)
}

/// The pool after `deactivate(id)`: slot `id` is marked not in use, nothing else
/// changes.
pub open spec fn deactivated<X, B>(before: Seq<Node<X, B>>, id: int, after: Seq<Node<X, B>>) -> bool {
    &&& 0 <= id < before.len()
    &&& after == before.update(id, Node { kid: INACTIVE, ..before[id] })
}

/// The (world transform, drawable) pairs of the nodes in use that draw a mesh, in
/// pool order.
pub open spec fn drawable_list<X, B>(nodes: Seq<Node<X, B>>) -> Seq<(X, Drawable<B>)>
    decreases nodes.len(),
{
    if nodes.len() == 0 {
        Seq::empty()
    } else {
        let rest = drawable_list(nodes.drop_last());
        let last = nodes.last();
        if last.active() && last.draw.is_mesh() {
            rest.push((last.world, last.draw))
        } else {
            rest
        }
    }
}

/// The slots in use, in pool order.
pub open spec fn active_list<X, B>(nodes: Seq<Node<X, B>>) -> Seq<usize>
    decreases nodes.len(),
{
    if nodes.len() == 0 {
        Seq::empty()
    } else {
        let rest = active_list(nodes.drop_last());
        if nodes.last().active() {
            rest.push((nodes.len() - 1) as usize)
        } else {
            rest
        }
    }
}

/// A node other than 0 that no reached node names as sibling, and that only the
/// reached node `p` names as child, was combined with the world transform of `p`.
proof fn lemma_fed_by_parent<X, B>(
    nodes: Seq<Node<X, B>>,
    vis: Set<int>,
    pw: Map<int, X>,
    root: X,
    a: int,
    p: int,
)
    requires
        fed_from(nodes, vis, pw, root, a),
        a != 0,
        forall|q: int| vis.contains(q) ==> (#[trigger] nodes[q]).sib != a,
        forall|q: int| vis.contains(q) && (#[trigger] nodes[q]).kid == a ==> q == p,
    ensures
        pw[a] == nodes[p].world,
{
    if exists|q: int|
        #![trigger nodes[q]]
        vis.contains(q) && a != NONE && nodes[q].kid == a && pw[a] == nodes[q].world {
        let q = choose|q: int|
            #![trigger nodes[q]]
            vis.contains(q) && a != NONE && nodes[q].kid == a && pw[a] == nodes[q].world;
        assert(q == p);
    } else {
        let q = choose|q: int|
            #![trigger nodes[q]]
            vis.contains(q) && a != NONE && nodes[q].sib == a && pw[a] == pw[q];
        assert(nodes[q].sib != a);
    }
}

/// What an update tells of a three-node chain: all three are reached, node 0 was
/// combined with `root`, nodes 1 and 2 with their parents' world transforms.
proof fn lemma_chain_reached<X, B, F: Fn(&X, &X) -> X>(
    before: Seq<Node<X, B>>,
    after: Seq<Node<X, B>>,
    root: X,
    concat: F,
    vis: Set<int>,
    pw: Map<int, X>,
)
    requires
        updated(before, after, root, concat, vis, pw),
        before.len() == 3,
        before[0].kid == 1 && before[1].kid == 2 && before[2].kid == NONE,
        before[0].sib == NONE && before[1].sib == NONE && before[2].sib == NONE,
    ensures
        concat.ensures((&pw[0], &before[0].local), after[0].world),
        concat.ensures((&pw[1], &before[1].local), after[1].world),
        concat.ensures((&pw[2], &before[2].local), after[2].world),
        pw[0] == root,
        pw[1] == after[0].world,
        pw[2] == after[1].world,
{
    reveal(updated);
    assert(vis.contains(0));
    assert(link(before, 0, 1));
    assert(vis.contains(1));
    assert(link(before, 1, 2));
    assert(vis.contains(2));
    assert(after[0].kid == 1 && after[1].kid == 2 && after[2].kid == NONE);
    assert(after[0].sib == NONE && after[1].sib == NONE && after[2].sib == NONE);
    assert(fed_from(after, vis, pw, root, 0));
    assert(fed_from(after, vis, pw, root, 1));
    lemma_fed_by_parent(after, vis, pw, root, 1, 0);
    assert(fed_from(after, vis, pw, root, 2));
    lemma_fed_by_parent(after, vis, pw, root, 2, 1);
}

/// After an update of a chain of three nodes, 0 with child 1 with child 2 and no
/// siblings, the world transform of each is its parent's world transform (`root`
/// for node 0) combined with its local transform: the world transform of node 2
/// is `root`, then the three local transforms, composed in that order.
pub proof fn lemma_chain_world<X, B, F: Fn(&X, &X) -> X>(
    before: Seq<Node<X, B>>,
    after: Seq<Node<X, B>>,
    root: X,
    concat: F,
)
    requires
        exists|vis: Set<int>, pw: Map<int, X>| updated(before, after, root, concat, vis, pw),
        before.len() == 3,
        before[0].kid == 1 && before[1].kid == 2 && before[2].kid == NONE,
        before[0].sib == NONE && before[1].sib == NONE && before[2].sib == NONE,
    ensures
        concat.ensures((&root, &before[0].local), after[0].world),
        concat.ensures((&after[0].world, &before[1].local), after[1].world),
        concat.ensures((&after[1].world, &before[2].local), after[2].world),
{
    let (vis, pw) = choose|vis: Set<int>, pw: Map<int, X>|
        updated(before, after, root, concat, vis, pw);
    lemma_chain_reached(before, after, root, concat, vis, pw);
}

/// Deactivating node `id`, when every slot before it is in use, and then adding a
/// node puts the new node in slot `id`: the pool does not grow.
pub proof fn lemma_slot_reused<X, B>(
    p0: Seq<Node<X, B>>,
    id: int,
    node: Node<X, B>,
    p1: Seq<Node<X, B>>,
    p2: Seq<Node<X, B>>,
)
    requires
        deactivated(p0, id, p1),
        added(p1, node, p2),
        forall|j: int| 0 <= j < id ==> (#[trigger] p0[j]).active(),
    ensures
        p2.len() == p0.len(),
        p2[id] == node,
{
    assert(!p1[id].active());
    if forall|j: int| 0 <= j < p1.len() ==> (#[trigger] p1[j]).active() {
        assert(p1[id].active());
    }
    let i = choose|i: int|
        0 <= i < p1.len() && !p1[i].active() && (forall|j: int|
            0 <= j < i ==> (#[trigger] p1[j]).active()) && p2 == p1.update(i, node);
    if i < id {
        assert(p1[i] == p0[i]);
    }
    if i > id {
        assert(p1[id].active());
    }
}

/// A pool of nodes linked by sibling and child indices. Slot 0 is the root; a slot
/// whose child link is `INACTIVE` is free for reuse.
pub struct Scene<X, B> {
    nodes: Vec<Node<X, B>>,
    nodeq: VecDeque<(u32, X)>,
}

impl<X: Copy, B: Copy> Scene<X, B> {
    pub closed spec fn pool(&self) -> Seq<Node<X, B>> {
        self.nodes@
    }

    pub fn new() -> (r: Self)
        ensures
            r.pool().len() == 0,
    {
        Scene { nodes: Vec::new(), nodeq: VecDeque::new() }
    }

    /// The number of slots in the pool.
    pub fn len(&self) -> (r: usize)
        ensures
            r == self.pool().len(),
    {
        self.nodes.len()
    }

    /// The node in slot `id`.
    pub fn node(&self, id: usize) -> (r: &Node<X, B>)
        requires
            id < self.pool().len(),
        ensures
            *r == self.pool()[id as int],
    {
        &self.nodes[id]
    }

    /// Puts `node` in the first slot not in use, or appends it when every slot is
    /// in use.
    pub fn add_node(&mut self, node: Node<X, B>)
        requires
            old(self).pool().len() < usize::MAX,
        ensures
            added(old(self).pool(), node, final(self).pool()),
    {
        let n = self.nodes.len();
        let mut i: usize = 0;
        while i < n
            invariant
                n == self.nodes@.len(),
                self.nodes@ == old(self).nodes@,
                i <= n,
                forall|j: int| 0 <= j < i ==> (#[trigger] self.nodes@[j]).active(),
            decreases n - i,
        {
            if !self.nodes[i].is_active() {
                self.nodes.set(i, node);
                return;
            }
            i += 1;
        }
        self.nodes.push(node);
    }

    /// Marks node `id` not in use: its child link becomes `INACTIVE`.
    pub fn deactivate(&mut self, id: usize)
        requires
            id < old(self).pool().len(),
        ensures
            deactivated(old(self).pool(), id as int, final(self).pool()),
    {
        let mut node = self.nodes[id];
        node.kid = INACTIVE;
        self.nodes.set(id, node);
    }

    /// Replaces the local transform of node `id`.
    pub fn set_local(&mut self, id: usize, local: X)
        requires
            id < old(self).pool().len(),
        ensures
            final(self).pool() == old(self).pool().update(
                id as int,
                Node { local, ..old(self).pool()[id as int] },
            ),
    {
        let mut node = self.nodes[id];
        node.local = local;
        self.nodes.set(id, node);
    }

    /// The slots in use, in pool order.
    pub fn active_ids(&self) -> (r: Vec<usize>)
        ensures
            r@ == active_list(self.pool()),
    {
        let mut r: Vec<usize> = Vec::new();
        let mut i: usize = 0;
        while i < self.nodes.len()
            invariant
                i <= self.nodes@.len(),
                r@ == active_list(self.nodes@.take(i as int)),
            decreases self.nodes@.len() - i,
        {
            assert(self.nodes@.take(i as int + 1).drop_last() =~= self.nodes@.take(i as int));
            if self.nodes[i].is_active() {
                r.push(i);
            }
            i += 1;
        }
        assert(self.nodes@.take(i as int) =~= self.nodes@);
        r
    }

    /// The world transform and drawable of each node in use that draws a mesh, in
    /// pool order.
    pub fn drawables(&self) -> (r: Vec<(X, Drawable<B>)>)
        ensures
            r@ == drawable_list(self.pool()),
    {
        let mut r: Vec<(X, Drawable<B>)> = Vec::new();
        let mut i: usize = 0;
        while i < self.nodes.len()
            invariant
                i <= self.nodes@.len(),
                r@ == drawable_list(self.nodes@.take(i as int)),
            decreases self.nodes@.len() - i,
        {
            assert(self.nodes@.take(i as int + 1).drop_last() =~= self.nodes@.take(i as int));
            let node = &self.nodes[i];
            if node.is_active() && node.draw.is_some() {
                r.push((node.world, node.draw));
            }
            i += 1;
        }
        assert(self.nodes@.take(i as int) =~= self.nodes@);
        r
    }

    /// Recomputes the world transforms: node 0 combines `root` with its local
    /// transform, and every node reached from it over sibling and child links
    /// combines, once, its parent's world transform with its own local one (a
    /// sibling shares the parent of the node that links to it). A node's world
    /// transform is computed after its parent's. Nodes not reached keep theirs.
    #[verifier::rlimit(100)]
    #[verifier::spinoff_prover]
    pub fn update<F: Fn(&X, &X) -> X>(&mut self, root: X, concat: F)
        requires
            forall|p: &X, l: &X| concat.requires((p, l)),
        ensures
            exists|vis: Set<int>, pw: Map<int, X>|
                updated(old(self).pool(), final(self).pool(), root, concat, vis, pw),
    {
        let n = self.nodes.len();
        let mut seen: Vec<bool> = Vec::new();
        while seen.len() < n
            invariant
                seen@.len() <= n,
                forall|k: int| 0 <= k < seen@.len() ==> !seen@[k],
            decreases n - seen@.len(),
        {
            seen.push(false);
        }
        self.nodeq.clear();
        if n > 0 && self.nodes[0].is_active() {
            self.nodeq.push_back((0, root));
            assert(self.nodeq@[0].0 == 0);
        }
        let ghost before = self.nodes@;
        assert(before == old(self).nodes@);
        proof {
            lemma_root_entry(before);
        }
        let ghost mut vis: Set<int> = Set::empty();
        let ghost mut pw: Map<int, X> = Map::empty();
        proof {
            lemma_int_range(0, n as int);
        }
        while self.nodeq.len() > 0
            invariant
                forall|p: &X, l: &X| concat.requires((p, l)),
                n == self.nodes@.len(),
                n == before.len(),
                n == seen@.len(),
                set_int_range(0, n as int).finite(),
                set_int_range(0, n as int).len() == n,
                vis.finite(),
                forall|i: int| 0 <= i < n ==> seen@[i] == vis.contains(i),
                forall|i: int| #[trigger] vis.contains(i) ==> 0 <= i < n && before[i].active(),
                forall|i: int|
                    0 <= i < n ==> {
                        &&& (#[trigger] self.nodes@[i]).sib == before[i].sib
                        &&& self.nodes@[i].kid == before[i].kid
                        &&& self.nodes@[i].local == before[i].local
                        &&& self.nodes@[i].draw == before[i].draw
                    },
                forall|i: int|
                    0 <= i < n && !vis.contains(i) ==> #[trigger] self.nodes@[i].world
                        == before[i].world,
                forall|a: int| #[trigger]
                    vis.contains(a) ==> pw.contains_key(a) && concat.ensures(
                        (&pw[a], &before[a].local),
                        self.nodes@[a].world,
                    ),
                forall|a: int| #[trigger] vis.contains(a) ==> fed_from(self.nodes@, vis, pw, root, a),
                forall|a: int| #[trigger] vis.contains(a) ==> reachable(before, a),
                forall|k: int|
                    0 <= k < self.nodeq@.len() ==> entry_reached(before, (#[trigger] self.nodeq@[k]).0 as int),
                forall|k: int|
                    0 <= k < self.nodeq@.len() ==> fed_by(
                        self.nodes@,
                        vis,
                        pw,
                        root,
                        (#[trigger] self.nodeq@[k]).0 as int,
                        self.nodeq@[k].1,
                    ),
                forall|a: int, b: int|
                    vis.contains(a) && #[trigger] link(before, a, b) ==> vis.contains(b)
                        || is_queued(self.nodeq@, b),
                n > 0 && before[0].active() ==> vis.contains(0) || is_queued(self.nodeq@, 0),
            decreases n - vis.len(), self.nodeq@.len(),
        {
            let ghost q0 = self.nodeq@;
            let ghost nodes0 = self.nodes@;
            let ghost vis0 = vis;
            let ghost pw0 = pw;
            let (id, xform) = self.nodeq.pop_front().unwrap();
            proof {
                assert(self.nodeq@ =~= q0.subrange(1, q0.len() as int));
                assert(q0[0] == (id, xform));
                assert(fed_by(nodes0, vis0, pw0, root, id as int, xform));
            }
            let i = id as usize;
            if i < n && !seen[i] && self.nodes[i].is_active() {
                let world = concat(&xform, &self.nodes[i].local);
                let mut node = self.nodes[i];
                node.world = world;
                self.nodes.set(i, node);
                seen.set(i, true);
                proof {
                    vis = vis.insert(i as int);
                    pw = pw.insert(i as int, xform);
                    lemma_len_subset(vis0, set_int_range(0, n as int));
                    assert(vis.subset_of(set_int_range(0, n as int)));
                    lemma_len_subset(vis, set_int_range(0, n as int));
                    assert forall|p: int| vis0.contains(p) implies self.nodes@[p] == nodes0[p]
                        && pw[p] == pw0[p] by {}
                    lemma_fed_by_grows(
                        nodes0,
                        self.nodes@,
                        vis0,
                        vis,
                        pw0,
                        pw,
                        root,
                        id as int,
                        xform,
                    );
                    assert forall|a: int| #[trigger] vis.contains(a) implies fed_from(
                        self.nodes@,
                        vis,
                        pw,
                        root,
                        a,
                    ) by {
                        if a != i as int {
                            lemma_fed_by_grows(
                                nodes0,
                                self.nodes@,
                                vis0,
                                vis,
                                pw0,
                                pw,
                                root,
                                a,
                                pw0[a],
                            );
                        }
                    }
                }
                let sib = self.nodes[i].sib;
                let kid = self.nodes[i].kid;
                let ghost nodes1 = self.nodes@;
                let ghost q1 = self.nodeq@;
                if sib != NONE {
                    self.nodeq.push_back((sib, xform));
                }
                let ghost q2 = self.nodeq@;
                if kid != NONE {
                    self.nodeq.push_back((kid, world));
                }
                proof {
                    let q3 = self.nodeq@;
                    assert(entry_reached(before, q0[0].0 as int));
                    lemma_entry_taken(before, i as int);
                    assert forall|k: int| 0 <= k < q3.len() implies entry_reached(
                        before,
                        (#[trigger] q3[k]).0 as int,
                    ) by {
                        if k < q1.len() {
                            assert(q3[k] == q0[k + 1]);
                        } else if k < q2.len() {
                            assert(q3[k] == (sib, xform));
                            lemma_entry_pushed(before, i as int, sib as int);
                        } else {
                            assert(q3[k] == (kid, world));
                            lemma_entry_pushed(before, i as int, kid as int);
                        }
                    }
                    assert forall|k: int| 0 <= k < q3.len() implies fed_by(
                        nodes1,
                        vis,
                        pw,
                        root,
                        (#[trigger] q3[k]).0 as int,
                        q3[k].1,
                    ) by {
                        if k < q1.len() {
                            assert(q3[k] == q0[k + 1]);
                            lemma_fed_by_grows(
                                nodes0,
                                nodes1,
                                vis0,
                                vis,
                                pw0,
                                pw,
                                root,
                                q0[k + 1].0 as int,
                                q0[k + 1].1,
                            );
                        } else if k < q2.len() {
                            assert(q3[k] == (sib, xform));
                            assert(nodes1[i as int].sib == sib);
                        } else {
                            assert(q3[k] == (kid, world));
                            assert(nodes1[i as int].kid == kid);
                        }
                    }
                    assert forall|a: int, b: int|
                        vis.contains(a) && #[trigger] link(before, a, b) implies vis.contains(b)
                        || is_queued(q3, b) by {
                        if a == i as int {
                            if b == sib as int {
                                assert(q3[q1.len() as int].0 == sib);
                            } else {
                                assert(q3[q2.len() as int].0 == kid);
                            }
                        } else if !vis.contains(b) {
                            let k = choose|k: int| 0 <= k < q0.len() && q0[k].0 as int == b;
                            assert(k != 0);
                            assert(q3[k - 1] == q0[k]);
                        }
                    }
                    if n > 0 && before[0].active() && !vis.contains(0) {
                        let k = choose|k: int| 0 <= k < q0.len() && q0[k].0 as int == 0;
                        assert(k != 0);
                        assert(q3[k - 1] == q0[k]);
                    }
                }
            } else {
                proof {
                    let q3 = self.nodeq@;
                    assert forall|a: int, b: int|
                        vis.contains(a) && #[trigger] link(before, a, b) implies vis.contains(b)
                        || is_queued(q3, b) by {
                        if !vis.contains(b) {
                            let k = choose|k: int| 0 <= k < q0.len() && q0[k].0 as int == b;
                            if k == 0 {
                                assert(seen@[b]);
                            } else {
                                assert(q3[k - 1] == q0[k]);
                            }
                        }
                    }
                    if n > 0 && before[0].active() && !vis.contains(0) {
                        let k = choose|k: int| 0 <= k < q0.len() && q0[k].0 as int == 0;
                        if k != 0 {
                            assert(q3[k - 1] == q0[k]);
                        }
                    }
                    assert forall|k: int| 0 <= k < q3.len() implies fed_by(
                        self.nodes@,
                        vis,
                        pw,
                        root,
                        (#[trigger] q3[k]).0 as int,
                        q3[k].1,
                    ) by {
                        assert(q3[k] == q0[k + 1]);
                    }
                    assert forall|k: int| 0 <= k < q3.len() implies entry_reached(
                        before,
                        (#[trigger] q3[k]).0 as int,
                    ) by {
                        assert(q3[k] == q0[k + 1]);
                    }
                }
            }
        }
        proof {
            assert forall|a: int, b: int|
                vis.contains(a) && #[trigger] link(before, a, b) implies vis.contains(b) by {
                if !vis.contains(b) {
                    assert(is_queued(self.nodeq@, b));
                    let k = choose|k: int| 0 <= k < self.nodeq@.len() && self.nodeq@[k].0 as int == b;
                }
            }
            if n > 0 && before[0].active() && !vis.contains(0) {
                assert(is_queued(self.nodeq@, 0));
                let k = choose|k: int| 0 <= k < self.nodeq@.len() && self.nodeq@[k].0 as int == 0;
            }
            reveal(updated);
            assert(updated(before, self.nodes@, root, concat, vis, pw));
            assert(updated(old(self).pool(), self.pool(), root, concat, vis, pw));
        }
    }
}

} // verus!
