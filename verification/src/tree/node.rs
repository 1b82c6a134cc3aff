//! Tree nodes in an arena: nodes are addressed by their position in the
//! arena, and the links between them (left, right, parent) are such
//! positions too.

use crate::tree::ordered::is_sorted;
use vstd::prelude::*;

verus! {

/// The colour of a node in a red-black tree.
#[derive(Clone, Copy, Debug, PartialEq, Eq, Structural)]
pub enum Color {
    Red,
    Black,
}

/// A link to a node of an arena, or to none.
#[derive(Clone, Copy, Debug, PartialEq, Eq, Structural)]
pub enum NodePtr {
    /// The link that leads nowhere.
    Null,
    /// The link to the node at this position.
    At(usize),
}

/// A node: its colour, its links, and the entry it carries.
pub struct Node<V> {
    pub color: Color,
    pub left: NodePtr,
    pub right: NodePtr,
    pub parent: NodePtr,
    pub key: u64,
    pub value: V,
}

impl<V> Node<V> {
    /// The entry that the node carries.
    pub fn pair(self) -> (entry: (u64, V))
        ensures
            entry == (self.key, self.value),
    {
        (self.key, self.value)
    }
}

/// Whether `p` leads to a node of `nodes`.
pub open spec fn holds<V>(nodes: Seq<Node<V>>, p: NodePtr) -> bool {
    match p {
        NodePtr::Null => false,
        NodePtr::At(i) => i < nodes.len(),
    }
}

/// Whether `p` may stand as a link in `nodes`: it leads nowhere, or to one
/// of the nodes.
pub open spec fn accepts<V>(nodes: Seq<Node<V>>, p: NodePtr) -> bool {
    p is Null || holds(nodes, p)
}

/// Whether every link in `nodes` leads nowhere or to one of the nodes.
pub open spec fn links_closed<V>(nodes: Seq<Node<V>>) -> bool {
    forall|i: int|
        0 <= i < nodes.len() ==> {
            &&& accepts(nodes, (#[trigger] nodes[i]).left)
            &&& accepts(nodes, nodes[i].right)
            &&& accepts(nodes, nodes[i].parent)
        }
}

/// The node that `p` leads to.
pub open spec fn node_at<V>(nodes: Seq<Node<V>>, p: NodePtr) -> Node<V>
    recommends
        holds(nodes, p),
{
    nodes[p->At_0 as int]
}

/// The left link of the node at `p`; none where `p` leads to no node.
pub open spec fn left_of<V>(nodes: Seq<Node<V>>, p: NodePtr) -> NodePtr {
    if holds(nodes, p) {
        node_at(nodes, p).left
    } else {
        NodePtr::Null
    }
}

/// The right link of the node at `p`; none where `p` leads to no node.
pub open spec fn right_of<V>(nodes: Seq<Node<V>>, p: NodePtr) -> NodePtr {
    if holds(nodes, p) {
        node_at(nodes, p).right
    } else {
        NodePtr::Null
    }
}

/// The parent link of the node at `p`; none where `p` leads to no node.
pub open spec fn parent_of<V>(nodes: Seq<Node<V>>, p: NodePtr) -> NodePtr {
    if holds(nodes, p) {
        node_at(nodes, p).parent
    } else {
        NodePtr::Null
    }
}

/// The colour of the node at `p`. Where `p` leads to no node the colour
/// is black, as that of a leaf.
pub open spec fn color_of<V>(nodes: Seq<Node<V>>, p: NodePtr) -> Color {
    if holds(nodes, p) {
        node_at(nodes, p).color
    } else {
        Color::Black
    }
}

/// The other colour.
pub open spec fn flipped(color: Color) -> Color {
    match color {
        Color::Black => Color::Red,
        Color::Red => Color::Black,
    }
}

/// The link on the given side of the node at `p`.
pub open spec fn child_of<V>(nodes: Seq<Node<V>>, p: NodePtr, leftward: bool) -> NodePtr {
    if leftward {
        left_of(nodes, p)
    } else {
        right_of(nodes, p)
    }
}

/// Whether the parent of `p` has `p` on the given side.
pub open spec fn hangs_on<V>(nodes: Seq<Node<V>>, p: NodePtr, leftward: bool) -> bool {
    child_of(nodes, parent_of(nodes, p), leftward) == p
}

/// The nodes, with the colour of the node at `p` set to `color`.
pub open spec fn recolored<V>(nodes: Seq<Node<V>>, p: NodePtr, color: Color) -> Seq<Node<V>> {
    if holds(nodes, p) {
        nodes.update(p->At_0 as int, Node { color, ..node_at(nodes, p) })
    } else {
        nodes
    }
}

/// The nodes, with the left link of the node at `p` set to `left`.
pub open spec fn relinked_left<V>(nodes: Seq<Node<V>>, p: NodePtr, left: NodePtr) -> Seq<Node<V>> {
    if holds(nodes, p) {
        nodes.update(p->At_0 as int, Node { left, ..node_at(nodes, p) })
    } else {
        nodes
    }
}

/// The nodes, with the right link of the node at `p` set to `right`.
pub open spec fn relinked_right<V>(nodes: Seq<Node<V>>, p: NodePtr, right: NodePtr) -> Seq<
    Node<V>,
> {
    if holds(nodes, p) {
        nodes.update(p->At_0 as int, Node { right, ..node_at(nodes, p) })
    } else {
        nodes
    }
}

/// The nodes, with the parent link of the node at `p` set to `parent`.
pub open spec fn relinked_parent<V>(nodes: Seq<Node<V>>, p: NodePtr, parent: NodePtr) -> Seq<
    Node<V>,
> {
    if holds(nodes, p) {
        nodes.update(p->At_0 as int, Node { parent, ..node_at(nodes, p) })
    } else {
        nodes
    }
}

/// The link reached from `p` by following the links of one side `steps`
/// times.
pub open spec fn walk<V>(nodes: Seq<Node<V>>, p: NodePtr, leftward: bool, steps: nat) -> NodePtr
    decreases steps,
{
    if steps == 0 {
        p
    } else {
        child_of(nodes, walk(nodes, p, leftward, (steps - 1) as nat), leftward)
    }
}

/// Whether the walk from `p` down one side ends after exactly `steps`
/// links: the node reached has no link on that side, and every node
/// before it has one.
pub open spec fn walk_ends_at<V>(
    nodes: Seq<Node<V>>,
    p: NodePtr,
    leftward: bool,
    steps: nat,
) -> bool {
    &&& child_of(nodes, walk(nodes, p, leftward, steps), leftward) is Null
    &&& forall|m: nat|
        m < steps ==> !(child_of(nodes, #[trigger] walk(nodes, p, leftward, m), leftward) is Null)
}

/// Whether the walk from `p` down one side ends at all.
pub open spec fn walk_ends<V>(nodes: Seq<Node<V>>, p: NodePtr, leftward: bool) -> bool {
    exists|steps: nat| walk_ends_at(nodes, p, leftward, steps)
}

/// The last node on the walk from `p` down one side: the leftmost or
/// rightmost node below `p`. It is `p` itself where `p` has no link on
/// that side.
pub open spec fn outermost<V>(nodes: Seq<Node<V>>, p: NodePtr, leftward: bool) -> NodePtr {
    walk(nodes, p, leftward, choose|steps: nat| walk_ends_at(nodes, p, leftward, steps))
}

/// The link reached from `p` by following parent links `steps` times.
pub open spec fn climb<V>(nodes: Seq<Node<V>>, p: NodePtr, steps: nat) -> NodePtr
    decreases steps,
{
    if steps == 0 {
        p
    } else {
        parent_of(nodes, climb(nodes, p, (steps - 1) as nat))
    }
}

/// Whether a climb stops at `p`: it has no parent, or it hangs on the
/// given side of its parent.
pub open spec fn climb_stops<V>(nodes: Seq<Node<V>>, p: NodePtr, leftward: bool) -> bool {
    parent_of(nodes, p) is Null || hangs_on(nodes, p, leftward)
}

/// Whether the climb from `p` stops after exactly `steps` parent links.
pub open spec fn climb_ends_at<V>(
    nodes: Seq<Node<V>>,
    p: NodePtr,
    leftward: bool,
    steps: nat,
) -> bool {
    &&& climb_stops(nodes, climb(nodes, p, steps), leftward)
    &&& forall|m: nat| m < steps ==> !climb_stops(nodes, #[trigger] climb(nodes, p, m), leftward)
}

/// Whether the climb from `p` stops at all.
pub open spec fn climb_ends<V>(nodes: Seq<Node<V>>, p: NodePtr, leftward: bool) -> bool {
    exists|steps: nat| climb_ends_at(nodes, p, leftward, steps)
}

/// The parent at which the climb from `p` turns: the first ancestor that
/// has the climbed path on the given side. None where the climb reaches
/// a node without parent first.
pub open spec fn turning_point<V>(nodes: Seq<Node<V>>, p: NodePtr, leftward: bool) -> NodePtr {
    parent_of(
        nodes,
        climb(nodes, p, choose|steps: nat| climb_ends_at(nodes, p, leftward, steps)),
    )
}

/// Whether the neighbour of `p` in key order can be found: the walk or
/// the climb that leads to it ends. `forward` asks for the next node,
/// otherwise for the one before.
pub open spec fn neighbor_reachable<V>(nodes: Seq<Node<V>>, p: NodePtr, forward: bool) -> bool {
    if child_of(nodes, p, !forward) is Null {
        climb_ends(nodes, p, forward)
    } else {
        walk_ends(nodes, child_of(nodes, p, !forward), forward)
    }
}

/// The neighbour of `p` in key order. Going forward it is the leftmost
/// node below the right link of `p`, or, where `p` has no right link, the
/// first ancestor that has `p` in its left part. Going backward it is the
/// mirror image. None where `p` is the last node in that direction.
pub open spec fn neighbor<V>(nodes: Seq<Node<V>>, p: NodePtr, forward: bool) -> NodePtr {
    if child_of(nodes, p, !forward) is Null {
        turning_point(nodes, p, forward)
    } else {
        outermost(nodes, child_of(nodes, p, !forward), forward)
    }
}

/// A walk down one side ends after one number of links only.
pub proof fn lemma_walk_end_unique<V>(
    nodes: Seq<Node<V>>,
    p: NodePtr,
    leftward: bool,
    a: nat,
    b: nat,
)
    requires
        walk_ends_at(nodes, p, leftward, a),
        walk_ends_at(nodes, p, leftward, b),
    ensures
        a == b,
{
    if a < b {
        assert(!(child_of(nodes, walk(nodes, p, leftward, a), leftward) is Null));
    } else if b < a {
        assert(!(child_of(nodes, walk(nodes, p, leftward, b), leftward) is Null));
    }
}

/// A climb stops after one number of parent links only.
pub proof fn lemma_climb_end_unique<V>(
    nodes: Seq<Node<V>>,
    p: NodePtr,
    leftward: bool,
    a: nat,
    b: nat,
)
    requires
        climb_ends_at(nodes, p, leftward, a),
        climb_ends_at(nodes, p, leftward, b),
    ensures
        a == b,
{
    if a < b {
        assert(!climb_stops(nodes, climb(nodes, p, a), leftward));
    } else if b < a {
        assert(!climb_stops(nodes, climb(nodes, p, b), leftward));
    }
}

/// Whether `height` ranks the nodes so that every left and right link
/// leads to a node of lower rank, every parent link to one of higher
/// rank, and no rank exceeds `top`. A forest has such a ranking: the
/// height of each node above its deepest leaf.
pub open spec fn ranked<V>(nodes: Seq<Node<V>>, height: Seq<nat>, top: nat) -> bool {
    &&& height.len() == nodes.len()
    &&& forall|i: int|
        0 <= i < nodes.len() ==> {
            &&& (#[trigger] height[i]) <= top
            &&& (holds(nodes, nodes[i].left) ==> height[nodes[i].left->At_0 as int] < height[i])
            &&& (holds(nodes, nodes[i].right) ==> height[nodes[i].right->At_0 as int] < height[i])
            &&& (holds(nodes, nodes[i].parent) ==> height[nodes[i].parent->At_0 as int]
                > height[i])
        }
}

/// How many levels there can be below `p`, by the ranking.
pub open spec fn descent_room<V>(nodes: Seq<Node<V>>, height: Seq<nat>, p: NodePtr) -> nat {
    if holds(nodes, p) {
        height[p->At_0 as int] + 1
    } else {
        0
    }
}

/// How many levels there can be above `p`, by the ranking.
pub open spec fn climb_room<V>(nodes: Seq<Node<V>>, height: Seq<nat>, top: nat, p: NodePtr) -> nat {
    if holds(nodes, p) {
        (top - height[p->At_0 as int] + 1) as nat
    } else {
        0
    }
}

/// A walk of one link more is the walk from the first child.
pub proof fn lemma_walk_shift<V>(nodes: Seq<Node<V>>, p: NodePtr, leftward: bool, steps: nat)
    ensures
        walk(nodes, p, leftward, steps + 1) == walk(
            nodes,
            child_of(nodes, p, leftward),
            leftward,
            steps,
        ),
    decreases steps,
{
    let below = child_of(nodes, p, leftward);
    assert(walk(nodes, p, leftward, steps + 1) == child_of(
        nodes,
        walk(nodes, p, leftward, steps),
        leftward,
    ));
    if steps > 0 {
        lemma_walk_shift(nodes, p, leftward, (steps - 1) as nat);
        assert(walk(nodes, below, leftward, steps) == child_of(
            nodes,
            walk(nodes, below, leftward, (steps - 1) as nat),
            leftward,
        ));
    }
}

/// A climb of one link more is the climb from the parent.
pub proof fn lemma_climb_shift<V>(nodes: Seq<Node<V>>, p: NodePtr, steps: nat)
    ensures
        climb(nodes, p, steps + 1) == climb(nodes, parent_of(nodes, p), steps),
    decreases steps,
{
    let above = parent_of(nodes, p);
    assert(climb(nodes, p, steps + 1) == parent_of(nodes, climb(nodes, p, steps)));
    if steps > 0 {
        lemma_climb_shift(nodes, p, (steps - 1) as nat);
        assert(climb(nodes, above, steps) == parent_of(
            nodes,
            climb(nodes, above, (steps - 1) as nat),
        ));
    }
}

/// Where the nodes can be ranked, every walk down one side ends.
pub proof fn lemma_ranked_walk_ends<V>(
    nodes: Seq<Node<V>>,
    height: Seq<nat>,
    top: nat,
    p: NodePtr,
    leftward: bool,
)
    requires
        ranked(nodes, height, top),
    ensures
        walk_ends(nodes, p, leftward),
    decreases descent_room(nodes, height, p),
{
    let below = child_of(nodes, p, leftward);
    if below is Null {
        lemma_outermost_here(nodes, p, leftward);
    } else {
        lemma_ranked_walk_ends(nodes, height, top, below, leftward);
        lemma_outermost_below(nodes, p, leftward);
    }
}

/// Where the nodes can be ranked, every climb stops.
pub proof fn lemma_ranked_climb_ends<V>(
    nodes: Seq<Node<V>>,
    height: Seq<nat>,
    top: nat,
    p: NodePtr,
    leftward: bool,
)
    requires
        ranked(nodes, height, top),
    ensures
        climb_ends(nodes, p, leftward),
    decreases climb_room(nodes, height, top, p),
{
    let above = parent_of(nodes, p);
    if climb_stops(nodes, p, leftward) {
        assert(climb_ends_at(nodes, p, leftward, 0));
    } else {
        lemma_ranked_climb_ends(nodes, height, top, above, leftward);
        let rest = choose|steps: nat| climb_ends_at(nodes, above, leftward, steps);
        lemma_climb_shift(nodes, p, rest);
        assert forall|m: nat| m < rest + 1 implies !climb_stops(
            nodes,
            #[trigger] climb(nodes, p, m),
            leftward,
        ) by {
            if m > 0 {
                lemma_climb_shift(nodes, p, (m - 1) as nat);
            }
        }
        assert(climb_ends_at(nodes, p, leftward, rest + 1));
    }
}

/// Where `p` has no link on the given side, the walk down that side ends
/// at `p` itself.
pub proof fn lemma_outermost_here<V>(nodes: Seq<Node<V>>, p: NodePtr, leftward: bool)
    requires
        child_of(nodes, p, leftward) is Null,
    ensures
        walk_ends(nodes, p, leftward),
        outermost(nodes, p, leftward) == p,
{
    assert(walk_ends_at(nodes, p, leftward, 0));
    let chosen = choose|steps: nat| walk_ends_at(nodes, p, leftward, steps);
    lemma_walk_end_unique(nodes, p, leftward, chosen, 0);
}

/// Where `p` has a link on the given side and the walk from there ends,
/// the walk from `p` ends at the same node.
pub proof fn lemma_outermost_below<V>(nodes: Seq<Node<V>>, p: NodePtr, leftward: bool)
    requires
        !(child_of(nodes, p, leftward) is Null),
        walk_ends(nodes, child_of(nodes, p, leftward), leftward),
    ensures
        walk_ends(nodes, p, leftward),
        outermost(nodes, p, leftward) == outermost(nodes, child_of(nodes, p, leftward), leftward),
{
    let below = child_of(nodes, p, leftward);
    let rest = choose|steps: nat| walk_ends_at(nodes, below, leftward, steps);
    lemma_walk_shift(nodes, p, leftward, rest);
    assert forall|m: nat| m < rest + 1 implies !(child_of(
        nodes,
        #[trigger] walk(nodes, p, leftward, m),
        leftward,
    ) is Null) by {
        if m > 0 {
            lemma_walk_shift(nodes, p, leftward, (m - 1) as nat);
        }
    }
    assert(walk_ends_at(nodes, p, leftward, rest + 1));
    let chosen = choose|steps: nat| walk_ends_at(nodes, p, leftward, steps);
    lemma_walk_end_unique(nodes, p, leftward, chosen, rest + 1);
}

/// Where the climb from `p` stops after `steps` parent links, the turning
/// point is the parent of the node reached then.
pub proof fn lemma_turning_point<V>(nodes: Seq<Node<V>>, p: NodePtr, leftward: bool, steps: nat)
    requires
        climb_ends_at(nodes, p, leftward, steps),
    ensures
        climb_ends(nodes, p, leftward),
        turning_point(nodes, p, leftward) == parent_of(nodes, climb(nodes, p, steps)),
{
    let chosen = choose|n: nat| climb_ends_at(nodes, p, leftward, n);
    lemma_climb_end_unique(nodes, p, leftward, chosen, steps);
}

/// Whether the links below `t` form a tree of at most `depth` levels: `t`
/// has `up` as its parent link, its two links differ, and each of them
/// leads to such a tree one level lower, with `t` as parent.
pub open spec fn is_subtree<V>(nodes: Seq<Node<V>>, t: NodePtr, up: NodePtr, depth: nat) -> bool
    decreases depth,
{
    t is Null || {
        &&& depth > 0
        &&& holds(nodes, t)
        &&& parent_of(nodes, t) == up
        &&& (left_of(nodes, t) is Null || left_of(nodes, t) != right_of(nodes, t))
        &&& is_subtree(nodes, left_of(nodes, t), t, (depth - 1) as nat)
        &&& is_subtree(nodes, right_of(nodes, t), t, (depth - 1) as nat)
    }
}

/// The nodes of the tree below `t` in key order: what is on the near side
/// of each node, the node, then what is on the far side. Going forward the
/// near side is the left; going backward it is the right, and the order is
/// the reverse.
pub open spec fn in_order<V>(nodes: Seq<Node<V>>, t: NodePtr, depth: nat, forward: bool) -> Seq<
    NodePtr,
>
    decreases depth,
{
    if t is Null || depth == 0 {
        Seq::empty()
    } else {
        in_order(nodes, child_of(nodes, t, forward), (depth - 1) as nat, forward) + seq![t]
            + in_order(nodes, child_of(nodes, t, !forward), (depth - 1) as nat, forward)
    }
}

/// The first node of a tree in key order is the one that the walk down
/// the near side ends at.
pub proof fn lemma_in_order_first<V>(
    nodes: Seq<Node<V>>,
    t: NodePtr,
    up: NodePtr,
    depth: nat,
    forward: bool,
)
    requires
        is_subtree(nodes, t, up, depth),
        !(t is Null),
    ensures
        in_order(nodes, t, depth, forward).len() > 0,
        walk_ends(nodes, t, forward),
        outermost(nodes, t, forward) == in_order(nodes, t, depth, forward)[0],
    decreases depth,
{
    let near = child_of(nodes, t, forward);
    let lower = (depth - 1) as nat;
    let front = in_order(nodes, near, lower, forward);
    if near is Null {
        lemma_outermost_here(nodes, t, forward);
        assert(front =~= Seq::<NodePtr>::empty());
    } else {
        lemma_in_order_first(nodes, near, t, lower, forward);
        lemma_outermost_below(nodes, t, forward);
    }
}

/// From the last node of a tree in key order, parent links lead to the
/// root of the tree without the climb stopping on the way; and that node
/// has no link on the far side. Returns the number of links climbed.
pub proof fn lemma_in_order_last<V>(
    nodes: Seq<Node<V>>,
    t: NodePtr,
    up: NodePtr,
    depth: nat,
    forward: bool,
) -> (steps: nat)
    requires
        is_subtree(nodes, t, up, depth),
        !(t is Null),
    ensures
        in_order(nodes, t, depth, forward).len() > 0,
        child_of(nodes, in_order(nodes, t, depth, forward).last(), !forward) is Null,
        climb(nodes, in_order(nodes, t, depth, forward).last(), steps) == t,
        forall|m: nat|
            m < steps ==> !climb_stops(
                nodes,
                #[trigger] climb(nodes, in_order(nodes, t, depth, forward).last(), m),
                forward,
            ),
    decreases depth,
{
    reveal_with_fuel(is_subtree, 2);
    let far = child_of(nodes, t, !forward);
    let lower = (depth - 1) as nat;
    let back = in_order(nodes, far, lower, forward);
    let all = in_order(nodes, t, depth, forward);
    if far is Null {
        assert(back =~= Seq::<NodePtr>::empty());
        assert(all.last() == t);
        0
    } else {
        let below = lemma_in_order_last(nodes, far, t, lower, forward);
        let last = back.last();
        assert(all.last() == last);
        assert(climb(nodes, last, below + 1) == parent_of(nodes, climb(nodes, last, below)));
        assert(child_of(nodes, t, forward) != far);
        assert(!climb_stops(nodes, far, forward));
        below + 1
    }
}

/// In a tree, the neighbour of each node but the last is the node that
/// follows it in key order.
pub proof fn lemma_neighbor_within<V>(
    nodes: Seq<Node<V>>,
    t: NodePtr,
    up: NodePtr,
    depth: nat,
    forward: bool,
    k: int,
)
    requires
        is_subtree(nodes, t, up, depth),
        0 <= k,
        k + 1 < in_order(nodes, t, depth, forward).len(),
    ensures
        neighbor_reachable(nodes, in_order(nodes, t, depth, forward)[k], forward),
        neighbor(nodes, in_order(nodes, t, depth, forward)[k], forward) == in_order(
            nodes,
            t,
            depth,
            forward,
        )[k + 1],
    decreases depth,
{
    reveal_with_fuel(is_subtree, 2);
    let near = child_of(nodes, t, forward);
    let far = child_of(nodes, t, !forward);
    let lower = (depth - 1) as nat;
    let front = in_order(nodes, near, lower, forward);
    let back = in_order(nodes, far, lower, forward);
    let all = in_order(nodes, t, depth, forward);
    assert(all =~= front + seq![t] + back);
    let a = front.len() as int;
    if k + 1 < a {
        lemma_neighbor_within(nodes, near, t, lower, forward, k);
        assert(all[k] == front[k]);
        assert(all[k + 1] == front[k + 1]);
    } else if k + 1 == a {
        let last = front.last();
        assert(all[k] == last);
        assert(all[k + 1] == t);
        assert(!(near is Null));
        let steps = lemma_in_order_last(nodes, near, t, lower, forward);
        assert(climb_stops(nodes, near, forward));
        assert(climb_ends_at(nodes, last, forward, steps));
        lemma_turning_point(nodes, last, forward, steps);
    } else if k == a {
        assert(all[k] == t);
        assert(all[k + 1] == back[0]);
        assert(!(far is Null));
        lemma_in_order_first(nodes, far, t, lower, forward);
    } else {
        lemma_neighbor_within(nodes, far, t, lower, forward, k - a - 1);
        assert(all[k] == back[k - a - 1]);
        assert(all[k + 1] == back[k - a]);
    }
}

/// The link at position `k` of a run of links; none past its end.
pub open spec fn entry_at(links: Seq<NodePtr>, k: int) -> NodePtr {
    if 0 <= k < links.len() {
        links[k]
    } else {
        NodePtr::Null
    }
}

/// In-order navigation. In a tree whose root has no parent, the nodes in
/// key order are `in_order(nodes, root, depth, forward)`. The walk down
/// the near side from the root ends at the first of them; the neighbour
/// of each is the one that follows it; and the last has no neighbour.
pub proof fn lemma_in_order_neighbors<V>(
    nodes: Seq<Node<V>>,
    root: NodePtr,
    depth: nat,
    forward: bool,
    k: int,
)
    requires
        is_subtree(nodes, root, NodePtr::Null, depth),
        0 <= k < in_order(nodes, root, depth, forward).len(),
    ensures
        walk_ends(nodes, root, forward),
        outermost(nodes, root, forward) == in_order(nodes, root, depth, forward)[0],
        neighbor_reachable(nodes, in_order(nodes, root, depth, forward)[k], forward),
        neighbor(nodes, in_order(nodes, root, depth, forward)[k], forward) == entry_at(
            in_order(nodes, root, depth, forward),
            k + 1,
        ),
{
    let all = in_order(nodes, root, depth, forward);
    lemma_in_order_first(nodes, root, NodePtr::Null, depth, forward);
    if k + 1 < all.len() {
        lemma_neighbor_within(nodes, root, NodePtr::Null, depth, forward, k);
    } else {
        let last = all.last();
        let steps = lemma_in_order_last(nodes, root, NodePtr::Null, depth, forward);
        assert(climb_stops(nodes, root, forward));
        assert(climb_ends_at(nodes, last, forward, steps));
        lemma_turning_point(nodes, last, forward, steps);
    }
}

/// The keys of the tree below `root`, as a forward walk meets them.
pub open spec fn keys_in_order<V>(nodes: Seq<Node<V>>, root: NodePtr, depth: nat) -> Seq<nat> {
    in_order(nodes, root, depth, true).map_values(|p: NodePtr| node_at(nodes, p).key as nat)
}

/// Whether the links below `root` form a search tree: a tree whose root
/// has no parent and whose keys never decrease in a forward walk.
pub open spec fn is_search_tree<V>(nodes: Seq<Node<V>>, root: NodePtr, depth: nat) -> bool {
    &&& is_subtree(nodes, root, NodePtr::Null, depth)
    &&& is_sorted(keys_in_order(nodes, root, depth))
}

/// In a search tree, the node that follows another has a key that is not
/// less.
pub proof fn lemma_next_key_not_less<V>(nodes: Seq<Node<V>>, root: NodePtr, depth: nat, k: int)
    requires
        is_search_tree(nodes, root, depth),
        0 <= k,
        k + 1 < in_order(nodes, root, depth, true).len(),
    ensures
        neighbor_reachable(nodes, in_order(nodes, root, depth, true)[k], true),
        node_at(nodes, in_order(nodes, root, depth, true)[k]).key <= node_at(
            nodes,
            neighbor(nodes, in_order(nodes, root, depth, true)[k], true),
        ).key,
{
    lemma_in_order_neighbors(nodes, root, depth, true, k);
    let keys = keys_in_order(nodes, root, depth);
    assert(keys[k] <= keys[k + 1]);
}

/// Every node of a tree in key order is a node of the arena.
pub proof fn lemma_in_order_holds<V>(
    nodes: Seq<Node<V>>,
    t: NodePtr,
    up: NodePtr,
    depth: nat,
    forward: bool,
    k: int,
)
    requires
        is_subtree(nodes, t, up, depth),
        0 <= k < in_order(nodes, t, depth, forward).len(),
    ensures
        holds(nodes, in_order(nodes, t, depth, forward)[k]),
    decreases depth,
{
    let near = child_of(nodes, t, forward);
    let far = child_of(nodes, t, !forward);
    let lower = (depth - 1) as nat;
    let front = in_order(nodes, near, lower, forward);
    let back = in_order(nodes, far, lower, forward);
    let all = in_order(nodes, t, depth, forward);
    assert(all =~= front + seq![t] + back);
    if k < front.len() {
        lemma_in_order_holds(nodes, near, t, lower, forward, k);
        assert(all[k] == front[k]);
    } else if k > front.len() {
        lemma_in_order_holds(nodes, far, t, lower, forward, k - front.len() - 1);
        assert(all[k] == back[k - front.len() - 1]);
    }
}

/// The store of nodes. It only grows, so a link that leads to a node keeps
/// leading to it.
pub struct NodeArena<V> {
    nodes: Vec<Node<V>>,
}

impl<V> View for NodeArena<V> {
    type V = Seq<Node<V>>;

    closed spec fn view(&self) -> Seq<Node<V>> {
        self.nodes@
    }
}

impl<V> NodeArena<V> {
    /// Holds of every arena value that executable code can obtain.
    #[verifier::type_invariant]
    pub open spec fn well_formed(&self) -> bool {
        links_closed(self@)
    }

    /// An arena without nodes.
    pub fn new() -> (arena: Self)
        ensures
            arena@ == Seq::<Node<V>>::empty(),
    {
        Self { nodes: Vec::new() }
    }

    /// The number of nodes.
    pub fn len(&self) -> (count: usize)
        ensures
            count == self@.len(),
    {
        self.nodes.len()
    }

    /// Whether `p` leads to a node of this arena.
    pub fn contains(&self, p: NodePtr) -> (held: bool)
        ensures
            held == holds(self@, p),
    {
        match p {
            NodePtr::Null => false,
            NodePtr::At(i) => i < self.nodes.len(),
        }
    }

    /// The keys of the tree below `root`, as a walk from its leftmost node
    /// to its rightmost meets them.
    pub fn keys(&self, root: NodePtr) -> (keys: Vec<u64>)
        requires
            exists|depth: nat| is_subtree(self@, root, NodePtr::Null, depth),
        ensures
            exists|depth: nat|
                is_subtree(self@, root, NodePtr::Null, depth) && keys@.map_values(
                    |key: u64| key as nat,
                ) == keys_in_order(self@, root, depth),
    {
        let ghost depth = choose|depth: nat| is_subtree(self@, root, NodePtr::Null, depth);
        let ghost walk = in_order(self@, root, depth, true);
        let mut keys: Vec<u64> = Vec::new();
        proof {
            if root is Null {
                lemma_outermost_here(self@, root, true);
            } else {
                lemma_in_order_first(self@, root, NodePtr::Null, depth, true);
            }
        }
        let mut at = root.min_node(self);
        let ghost mut seen: int = 0;
        while !at.is_null()
            invariant
                is_subtree(self@, root, NodePtr::Null, depth),
                walk == in_order(self@, root, depth, true),
                0 <= seen <= walk.len(),
                at == entry_at(walk, seen),
                keys@.map_values(|key: u64| key as nat) == keys_in_order(self@, root, depth).take(
                    seen,
                ),
            decreases walk.len() - seen,
        {
            proof {
                lemma_in_order_neighbors(self@, root, depth, true, seen);
                lemma_in_order_holds(self@, root, NodePtr::Null, depth, true, seen);
            }
            let ghost before = keys@.map_values(|key: u64| key as nat);
            keys.push(self.key(at).unwrap());
            proof {
                let all = keys_in_order(self@, root, depth);
                assert(keys@.map_values(|key: u64| key as nat) =~= before.push(all[seen]));
                assert(all.take(seen + 1) =~= all.take(seen).push(all[seen]));
                seen = seen + 1;
            }
            at = at.next(self);
        }
        proof {
            if seen < walk.len() {
                lemma_in_order_holds(self@, root, NodePtr::Null, depth, true, seen);
            }
            let all = keys_in_order(self@, root, depth);
            assert(all.take(seen) =~= all);
        }
        keys
    }

    /// The key of the node at `p`, where `p` leads to a node.
    pub fn key(&self, p: NodePtr) -> (key: Option<u64>)
        ensures
            holds(self@, p) ==> key == Some(node_at(self@, p).key),
            !holds(self@, p) ==> key.is_none(),
    {
        match p {
            NodePtr::Null => None,
            NodePtr::At(i) => if i < self.nodes.len() {
                Some(self.nodes[i].key)
            } else {
                None
            },
        }
    }

    /// The value of the node at `p`, where `p` leads to a node.
    pub fn value(&self, p: NodePtr) -> (value: Option<&V>)
        ensures
            holds(self@, p) ==> value == Some(&node_at(self@, p).value),
            !holds(self@, p) ==> value.is_none(),
    {
        match p {
            NodePtr::Null => None,
            NodePtr::At(i) => if i < self.nodes.len() {
                Some(&self.nodes[i].value)
            } else {
                None
            },
        }
    }
}

impl NodePtr {
    /// Puts a new node into the arena and returns the link to it. The node
    /// is black and has no links yet.
    pub fn new<V>(arena: &mut NodeArena<V>, key: u64, value: V) -> (p: NodePtr)
        ensures
            p == NodePtr::At(old(arena)@.len() as usize),
            holds(final(arena)@, p),
            final(arena)@ == old(arena)@.push(
                (Node {
                    color: Color::Black,
                    left: NodePtr::Null,
                    right: NodePtr::Null,
                    parent: NodePtr::Null,
                    key,
                    value,
                }),
            ),
    {
        proof {
            use_type_invariant(&*arena);
        }
        let mut nodes: Vec<Node<V>> = Vec::new();
        std::mem::swap(&mut arena.nodes, &mut nodes);
        let at = nodes.len();
        nodes.push(
            Node {
                color: Color::Black,
                left: NodePtr::null(),
                right: NodePtr::null(),
                parent: NodePtr::null(),
                key,
                value,
            },
        );
        proof {
            assert forall|i: int| 0 <= i < nodes@.len() implies {
                &&& accepts(nodes@, (#[trigger] nodes@[i]).left)
                &&& accepts(nodes@, nodes@[i].right)
                &&& accepts(nodes@, nodes@[i].parent)
            } by {
                if i < old(arena)@.len() {
                    assert(nodes@[i] == old(arena)@[i]);
                }
            }
        }
        std::mem::swap(&mut arena.nodes, &mut nodes);
        NodePtr::At(at)
    }

    /// The link that leads nowhere.
    pub fn null() -> (p: NodePtr)
        ensures
            p == NodePtr::Null,
    {
        NodePtr::Null
    }

    /// Whether the link leads nowhere.
    pub fn is_null(&self) -> (none: bool)
        ensures
            none == (*self is Null),
    {
        match self {
            NodePtr::Null => true,
            NodePtr::At(_) => false,
        }
    }

    /// Sets the colour of the node at this link. Nothing happens where the
    /// link leads to no node.
    pub fn set_color<V>(&self, arena: &mut NodeArena<V>, color: Color)
        ensures
            final(arena)@ == recolored(old(arena)@, *self, color),
    {
        proof {
            use_type_invariant(&*arena);
        }
        match *self {
            NodePtr::Null => {},
            NodePtr::At(i) => {
                if i < arena.nodes.len() {
                    let mut nodes: Vec<Node<V>> = Vec::new();
                    std::mem::swap(&mut arena.nodes, &mut nodes);
                    nodes[i].color = color;
                    assert(nodes@ =~= recolored(old(arena)@, *self, color));
                    std::mem::swap(&mut arena.nodes, &mut nodes);
                }
            },
        }
    }

    /// Makes the node at this link red.
    pub fn set_color_red<V>(&self, arena: &mut NodeArena<V>)
        ensures
            final(arena)@ == recolored(old(arena)@, *self, Color::Red),
    {
        self.set_color(arena, Color::Red)
    }

    /// Makes the node at this link black.
    pub fn set_color_black<V>(&self, arena: &mut NodeArena<V>)
        ensures
            final(arena)@ == recolored(old(arena)@, *self, Color::Black),
    {
        self.set_color(arena, Color::Black)
    }

    /// Gives the node at this link the other colour.
    pub fn flip_color<V>(&self, arena: &mut NodeArena<V>)
        requires
            holds(old(arena)@, *self),
        ensures
            final(arena)@ == recolored(
                old(arena)@,
                *self,
                flipped(color_of(old(arena)@, *self)),
            ),
    {
        match self.get_color(arena) {
            Color::Black => self.set_color_red(arena),
            Color::Red => self.set_color_black(arena),
        }
    }

    /// The colour of the node at this link; black where the link leads to
    /// no node.
    pub fn get_color<V>(&self, arena: &NodeArena<V>) -> (color: Color)
        ensures
            color == color_of(arena@, *self),
    {
        match *self {
            NodePtr::Null => Color::Black,
            NodePtr::At(i) => if i < arena.nodes.len() {
                arena.nodes[i].color
            } else {
                Color::Black
            },
        }
    }

    /// Whether the node at this link counts as black.
    pub fn is_color_black<V>(&self, arena: &NodeArena<V>) -> (black: bool)
        ensures
            black == (color_of(arena@, *self) == Color::Black),
    {
        self.get_color(arena) == Color::Black
    }

    /// Whether the node at this link is red.
    pub fn is_color_red<V>(&self, arena: &NodeArena<V>) -> (red: bool)
        ensures
            red == (color_of(arena@, *self) == Color::Red),
    {
        !self.is_color_black(arena)
    }

    /// Whether the parent has this link as its left link.
    pub fn is_left_child<V>(&self, arena: &NodeArena<V>) -> (hangs: bool)
        ensures
            hangs == hangs_on(arena@, *self, true),
    {
        self.parent(arena).left(arena) == *self
    }

    /// Whether the parent has this link as its right link.
    pub fn is_right_child<V>(&self, arena: &NodeArena<V>) -> (hangs: bool)
        ensures
            hangs == hangs_on(arena@, *self, false),
    {
        self.parent(arena).right(arena) == *self
    }

    /// The leftmost node below this link, this link included.
    pub fn min_node<V>(self, arena: &NodeArena<V>) -> (end: NodePtr)
        requires
            walk_ends(arena@, self, true),
        ensures
            end == outermost(arena@, self, true),
    {
        self.descend(arena, true)
    }

    /// The rightmost node below this link, this link included.
    pub fn max_node<V>(self, arena: &NodeArena<V>) -> (end: NodePtr)
        requires
            walk_ends(arena@, self, false),
        ensures
            end == outermost(arena@, self, false),
    {
        self.descend(arena, false)
    }

    /// The node that follows this one in key order; none where this is
    /// the last.
    pub fn next<V>(self, arena: &NodeArena<V>) -> (following: NodePtr)
        requires
            neighbor_reachable(arena@, self, true),
        ensures
            following == neighbor(arena@, self, true),
    {
        if !self.right(arena).is_null() {
            self.right(arena).min_node(arena)
        } else {
            self.ascend(arena, true)
        }
    }

    /// The node that precedes this one in key order; none where this is
    /// the first.
    pub fn prev<V>(self, arena: &NodeArena<V>) -> (preceding: NodePtr)
        requires
            neighbor_reachable(arena@, self, false),
        ensures
            preceding == neighbor(arena@, self, false),
    {
        if !self.left(arena).is_null() {
            self.left(arena).max_node(arena)
        } else {
            self.ascend(arena, false)
        }
    }

    /// The link on the given side of the node at this link.
    fn child<V>(&self, arena: &NodeArena<V>, leftward: bool) -> (child: NodePtr)
        ensures
            child == child_of(arena@, *self, leftward),
    {
        if leftward {
            self.left(arena)
        } else {
            self.right(arena)
        }
    }

    /// Follows the links of one side until there is none.
    fn descend<V>(self, arena: &NodeArena<V>, leftward: bool) -> (end: NodePtr)
        requires
            walk_ends(arena@, self, leftward),
        ensures
            end == outermost(arena@, self, leftward),
    {
        let ghost total = choose|steps: nat| walk_ends_at(arena@, self, leftward, steps);
        let ghost mut done: nat = 0;
        let mut temp = self;
        while !temp.child(arena, leftward).is_null()
            invariant
                walk_ends_at(arena@, self, leftward, total),
                done <= total,
                temp == walk(arena@, self, leftward, done),
            decreases total - done,
        {
            temp = temp.child(arena, leftward);
            proof {
                done = done + 1;
            }
        }
        proof {
            lemma_walk_end_unique(arena@, self, leftward, done, total);
        }
        temp
    }

    /// Follows parent links until the path hangs on the given side of a
    /// parent, and returns that parent; none where the parents run out.
    fn ascend<V>(self, arena: &NodeArena<V>, leftward: bool) -> (turn: NodePtr)
        requires
            climb_ends(arena@, self, leftward),
        ensures
            turn == turning_point(arena@, self, leftward),
    {
        let ghost total = choose|steps: nat| climb_ends_at(arena@, self, leftward, steps);
        let ghost mut done: nat = 0;
        let mut temp = self;
        loop
            invariant
                climb_ends_at(arena@, self, leftward, total),
                done <= total,
                temp == climb(arena@, self, done),
            decreases total - done,
        {
            let up = temp.parent(arena);
            if up.is_null() {
                proof {
                    lemma_climb_end_unique(arena@, self, leftward, done, total);
                }
                return NodePtr::null();
            }
            if up.child(arena, leftward) == temp {
                proof {
                    lemma_climb_end_unique(arena@, self, leftward, done, total);
                }
                return up;
            }
            temp = up;
            proof {
                done = done + 1;
            }
        }
    }

    /// Sets the left link of the node at this link. Nothing happens where
    /// this link leads to no node.
    pub fn set_left<V>(&self, arena: &mut NodeArena<V>, left: NodePtr)
        requires
            accepts(old(arena)@, left),
        ensures
            final(arena)@ == relinked_left(old(arena)@, *self, left),
    {
        proof {
            use_type_invariant(&*arena);
        }
        match *self {
            NodePtr::Null => {},
            NodePtr::At(i) => {
                if i < arena.nodes.len() {
                    let mut nodes: Vec<Node<V>> = Vec::new();
                    std::mem::swap(&mut arena.nodes, &mut nodes);
                    nodes[i].left = left;
                    assert(nodes@ =~= relinked_left(old(arena)@, *self, left));
                    std::mem::swap(&mut arena.nodes, &mut nodes);
                }
            },
        }
    }

    /// Sets the right link of the node at this link. Nothing happens where
    /// this link leads to no node.
    pub fn set_right<V>(&self, arena: &mut NodeArena<V>, right: NodePtr)
        requires
            accepts(old(arena)@, right),
        ensures
            final(arena)@ == relinked_right(old(arena)@, *self, right),
    {
        proof {
            use_type_invariant(&*arena);
        }
        match *self {
            NodePtr::Null => {},
            NodePtr::At(i) => {
                if i < arena.nodes.len() {
                    let mut nodes: Vec<Node<V>> = Vec::new();
                    std::mem::swap(&mut arena.nodes, &mut nodes);
                    nodes[i].right = right;
                    assert(nodes@ =~= relinked_right(old(arena)@, *self, right));
                    std::mem::swap(&mut arena.nodes, &mut nodes);
                }
            },
        }
    }

    /// Sets the parent link of the node at this link. Nothing happens
    /// where this link leads to no node.
    pub fn set_parent<V>(&self, arena: &mut NodeArena<V>, parent: NodePtr)
        requires
            accepts(old(arena)@, parent),
        ensures
            final(arena)@ == relinked_parent(old(arena)@, *self, parent),
    {
        proof {
            use_type_invariant(&*arena);
        }
        match *self {
            NodePtr::Null => {},
            NodePtr::At(i) => {
                if i < arena.nodes.len() {
                    let mut nodes: Vec<Node<V>> = Vec::new();
                    std::mem::swap(&mut arena.nodes, &mut nodes);
                    nodes[i].parent = parent;
                    assert(nodes@ =~= relinked_parent(old(arena)@, *self, parent));
                    std::mem::swap(&mut arena.nodes, &mut nodes);
                }
            },
        }
    }

    /// The left link of the node at this link; none where this link leads
    /// to no node.
    pub fn left<V>(&self, arena: &NodeArena<V>) -> (child: NodePtr)
        ensures
            child == left_of(arena@, *self),
            accepts(arena@, child),
    {
        proof {
            use_type_invariant(arena);
        }
        match *self {
            NodePtr::Null => NodePtr::null(),
            NodePtr::At(i) => if i < arena.nodes.len() {
                arena.nodes[i].left
            } else {
                NodePtr::null()
            },
        }
    }

    /// The right link of the node at this link; none where this link leads
    /// to no node.
    pub fn right<V>(&self, arena: &NodeArena<V>) -> (child: NodePtr)
        ensures
            child == right_of(arena@, *self),
            accepts(arena@, child),
    {
        proof {
            use_type_invariant(arena);
        }
        match *self {
            NodePtr::Null => NodePtr::null(),
            NodePtr::At(i) => if i < arena.nodes.len() {
                arena.nodes[i].right
            } else {
                NodePtr::null()
            },
        }
    }

    /// The parent link of the node at this link; none where this link
    /// leads to no node.
    pub fn parent<V>(&self, arena: &NodeArena<V>) -> (up: NodePtr)
        ensures
            up == parent_of(arena@, *self),
            accepts(arena@, up),
    {
        proof {
            use_type_invariant(arena);
        }
        match *self {
            NodePtr::Null => NodePtr::null(),
            NodePtr::At(i) => if i < arena.nodes.len() {
                arena.nodes[i].parent
            } else {
                NodePtr::null()
            },
        }
    }
}

} // verus!
