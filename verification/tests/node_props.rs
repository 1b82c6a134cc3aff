use rust_cfs::tree::node::{Color, Node, NodeArena, NodePtr};

fn link_left(arena: &mut NodeArena<&'static str>, parent: NodePtr, child: NodePtr) {
    parent.set_left(arena, child);
    child.set_parent(arena, parent);
}

fn link_right(arena: &mut NodeArena<&'static str>, parent: NodePtr, child: NodePtr) {
    parent.set_right(arena, child);
    child.set_parent(arena, parent);
}

/// The tree
///
/// ```text
///          50
///        /    \
///      30      70
///     /  \    /
///   20    40 60
///          \
///           45
/// ```
fn sample() -> (NodeArena<&'static str>, Vec<NodePtr>) {
    let mut arena = NodeArena::new();
    let n50 = NodePtr::new(&mut arena, 50, "fifty");
    let n30 = NodePtr::new(&mut arena, 30, "thirty");
    let n70 = NodePtr::new(&mut arena, 70, "seventy");
    let n20 = NodePtr::new(&mut arena, 20, "twenty");
    let n40 = NodePtr::new(&mut arena, 40, "forty");
    let n60 = NodePtr::new(&mut arena, 60, "sixty");
    let n45 = NodePtr::new(&mut arena, 45, "forty-five");
    link_left(&mut arena, n50, n30);
    link_right(&mut arena, n50, n70);
    link_left(&mut arena, n30, n20);
    link_right(&mut arena, n30, n40);
    link_left(&mut arena, n70, n60);
    link_right(&mut arena, n40, n45);
    (arena, vec![n50, n30, n70, n20, n40, n60, n45])
}

#[test]
fn null_leads_nowhere() {
    let arena: NodeArena<&'static str> = NodeArena::new();
    let null = NodePtr::null();
    assert!(null.is_null());
    assert_eq!(null, NodePtr::Null);
    assert!(null.left(&arena).is_null());
    assert!(null.right(&arena).is_null());
    assert!(null.parent(&arena).is_null());
    assert_eq!(null.get_color(&arena), Color::Black);
    assert!(null.is_color_black(&arena));
    assert!(!null.is_color_red(&arena));
    assert!(null.min_node(&arena).is_null());
    assert!(null.max_node(&arena).is_null());
    assert!(null.next(&arena).is_null());
    assert!(null.prev(&arena).is_null());
    assert_eq!(arena.key(null), None);
    assert_eq!(arena.value(null), None);
    assert_eq!(arena.len(), 0);
}

#[test]
fn new_node_is_black_and_unlinked() {
    let mut arena = NodeArena::new();
    let first = NodePtr::new(&mut arena, 4, "four");
    let second = NodePtr::new(&mut arena, 9, "nine");
    assert_eq!(first, NodePtr::At(0));
    assert_eq!(second, NodePtr::At(1));
    assert!(first != second);
    assert!(!first.is_null());
    assert_eq!(arena.len(), 2);
    assert_eq!(first.get_color(&arena), Color::Black);
    assert!(first.left(&arena).is_null());
    assert!(first.right(&arena).is_null());
    assert!(first.parent(&arena).is_null());
    assert!(arena.contains(first));
    assert!(arena.contains(second));
    assert!(!arena.contains(NodePtr::At(2)));
    assert!(!arena.contains(NodePtr::null()));
    assert_eq!(arena.key(NodePtr::At(2)), None);
    assert!(NodePtr::At(2).left(&arena).is_null());
    assert_eq!(arena.key(first), Some(4));
    assert_eq!(arena.key(second), Some(9));
    assert_eq!(arena.value(second), Some(&"nine"));
}

#[test]
fn colors_can_be_set_and_flipped() {
    let mut arena = NodeArena::new();
    let node = NodePtr::new(&mut arena, 4, "four");
    let other = NodePtr::new(&mut arena, 5, "five");
    node.set_color_red(&mut arena);
    assert_eq!(node.get_color(&arena), Color::Red);
    assert!(node.is_color_red(&arena));
    assert!(!node.is_color_black(&arena));
    assert_eq!(other.get_color(&arena), Color::Black);
    node.flip_color(&mut arena);
    assert_eq!(node.get_color(&arena), Color::Black);
    node.flip_color(&mut arena);
    assert_eq!(node.get_color(&arena), Color::Red);
    node.set_color_black(&mut arena);
    assert!(node.is_color_black(&arena));
    node.set_color(&mut arena, Color::Red);
    assert!(node.is_color_red(&arena));
    NodePtr::null().set_color(&mut arena, Color::Red);
    assert_eq!(NodePtr::null().get_color(&arena), Color::Black);
    assert_eq!(other.get_color(&arena), Color::Black);
}

#[test]
fn links_can_be_set_and_read() {
    let (mut arena, nodes) = sample();
    let (n50, n30, n70, n20) = (nodes[0], nodes[1], nodes[2], nodes[3]);
    assert_eq!(n50.left(&arena), n30);
    assert_eq!(n50.right(&arena), n70);
    assert_eq!(n30.parent(&arena), n50);
    assert!(n50.parent(&arena).is_null());
    assert!(n20.left(&arena).is_null());
    assert!(n30.is_left_child(&arena));
    assert!(!n30.is_right_child(&arena));
    assert!(n70.is_right_child(&arena));
    assert!(!n70.is_left_child(&arena));
    assert!(!n50.is_left_child(&arena));
    assert!(!n50.is_right_child(&arena));
    assert!(NodePtr::null().is_left_child(&arena));
    NodePtr::null().set_left(&mut arena, n20);
    NodePtr::null().set_right(&mut arena, n20);
    NodePtr::null().set_parent(&mut arena, n20);
    assert!(NodePtr::null().left(&arena).is_null());
    n30.set_left(&mut arena, NodePtr::null());
    assert!(n30.left(&arena).is_null());
    assert_eq!(n30.right(&arena), nodes[4]);
}

#[test]
fn min_and_max_follow_one_side() {
    let (arena, nodes) = sample();
    let (n50, n30, n70, n20, n40, n60, n45) =
        (nodes[0], nodes[1], nodes[2], nodes[3], nodes[4], nodes[5], nodes[6]);
    assert_eq!(n50.min_node(&arena), n20);
    assert_eq!(n50.max_node(&arena), n70);
    assert_eq!(n30.max_node(&arena), n45);
    assert_eq!(n70.min_node(&arena), n60);
    assert_eq!(n40.min_node(&arena), n40);
    assert_eq!(n20.max_node(&arena), n20);
}

#[test]
fn next_walks_the_keys_upward() {
    let (arena, nodes) = sample();
    let mut keys = Vec::new();
    let mut at = nodes[0].min_node(&arena);
    while !at.is_null() {
        keys.push(arena.key(at).unwrap());
        at = at.next(&arena);
    }
    assert_eq!(keys, vec![20, 30, 40, 45, 50, 60, 70]);
}

#[test]
fn prev_walks_the_keys_downward() {
    let (arena, nodes) = sample();
    let mut keys = Vec::new();
    let mut at = nodes[0].max_node(&arena);
    while !at.is_null() {
        keys.push(arena.key(at).unwrap());
        at = at.prev(&arena);
    }
    assert_eq!(keys, vec![70, 60, 50, 45, 40, 30, 20]);
}

#[test]
fn pair_gives_key_and_value() {
    let node = Node {
        color: Color::Red,
        left: NodePtr::Null,
        right: NodePtr::Null,
        parent: NodePtr::Null,
        key: 12,
        value: "twelve",
    };
    assert_eq!(node.pair(), (12, "twelve"));
}

#[test]
fn walk_from_any_node_meets_its_neighbours() {
    let (arena, nodes) = sample();
    let in_key_order = [nodes[3], nodes[1], nodes[4], nodes[6], nodes[0], nodes[5], nodes[2]];
    for k in 0..in_key_order.len() {
        let following = in_key_order[k].next(&arena);
        let preceding = in_key_order[k].prev(&arena);
        if k + 1 < in_key_order.len() {
            assert_eq!(following, in_key_order[k + 1]);
        } else {
            assert!(following.is_null());
        }
        if k > 0 {
            assert_eq!(preceding, in_key_order[k - 1]);
        } else {
            assert!(preceding.is_null());
        }
    }
}

#[test]
fn keys_lists_a_tree_in_key_order() {
    let (arena, nodes) = sample();
    assert_eq!(arena.keys(nodes[0]), vec![20, 30, 40, 45, 50, 60, 70]);
    assert!(arena.keys(NodePtr::null()).is_empty());

    let mut lone = NodeArena::new();
    let only = NodePtr::new(&mut lone, 9, "nine");
    assert_eq!(lone.keys(only), vec![9]);
}
