//! The ranking of runnable tasks: a balanced search tree keyed by virtual
//! runtime, seen as the sequence of its entries in key order.
//!
//! The tree itself comes from the `rbtree` crate. What this module states
//! of it is trusted, not proved; everything else here is proved from those
//! statements.

use crate::proc::task::Task;
use rbtree::RBTree;
use vstd::prelude::*;

verus! {

/// The position at which a new key enters a run of keys: behind every
/// leading key that is not greater. In a sorted run this is behind all
/// keys that are less or equal, so equal keys keep their order of arrival.
pub open spec fn upper_slot(keys: Seq<nat>, key: nat) -> nat
    decreases keys.len(),
{
    if keys.len() == 0 || keys[0] > key {
        0
    } else {
        1 + upper_slot(keys.drop_first(), key)
    }
}

/// Whether a run of keys never decreases.
pub open spec fn is_sorted(keys: Seq<nat>) -> bool {
    forall|i: int, j: int| 0 <= i <= j < keys.len() ==> keys[i] <= keys[j]
}

/// The run of keys after `key` entered it.
pub open spec fn with_key(keys: Seq<nat>, key: nat) -> Seq<nat> {
    keys.insert(upper_slot(keys, key) as int, key)
}

/// The run of keys after each of `arrivals` entered it, first to last.
pub open spec fn with_keys(keys: Seq<nat>, arrivals: Seq<nat>) -> Seq<nat>
    decreases arrivals.len(),
{
    if arrivals.len() == 0 {
        keys
    } else {
        with_key(with_keys(keys, arrivals.drop_last()), arrivals.last())
    }
}

/// The slot is inside the run; the keys before it are not greater than
/// `key`, and the key at it, if there is one, is greater.
pub proof fn lemma_upper_slot(keys: Seq<nat>, key: nat)
    ensures
        upper_slot(keys, key) <= keys.len(),
        forall|i: int| 0 <= i < upper_slot(keys, key) ==> keys[i] <= key,
        upper_slot(keys, key) < keys.len() ==> keys[upper_slot(keys, key) as int] > key,
    decreases keys.len(),
{
    if keys.len() == 0 || keys[0] > key {
    } else {
        let rest = keys.drop_first();
        lemma_upper_slot(rest, key);
        assert forall|i: int| 0 <= i < upper_slot(keys, key) implies keys[i] <= key by {
            if i > 0 {
                assert(keys[i] == rest[i - 1]);
            }
        }
        if upper_slot(keys, key) < keys.len() {
            assert(keys[upper_slot(keys, key) as int] == rest[upper_slot(rest, key) as int]);
        }
    }
}

/// A sorted run stays sorted when a key enters it.
pub proof fn lemma_with_key_sorted(keys: Seq<nat>, key: nat)
    requires
        is_sorted(keys),
    ensures
        is_sorted(with_key(keys, key)),
        with_key(keys, key).len() == keys.len() + 1,
{
    lemma_upper_slot(keys, key);
    let slot = upper_slot(keys, key) as int;
    let after = with_key(keys, key);
    assert forall|i: int, j: int| 0 <= i <= j < after.len() implies after[i] <= after[j] by {
        if slot < keys.len() {
            assert(keys[slot] > key);
        }
        if i < slot && j > slot {
            assert(after[i] == keys[i]);
            assert(after[j] == keys[j - 1]);
        } else if i > slot {
            assert(after[i] == keys[i - 1]);
            assert(after[j] == keys[j - 1]);
            assert(keys[slot] <= keys[i - 1]);
        } else if i == slot && j > slot {
            assert(after[j] == keys[j - 1]);
            assert(keys[slot] <= keys[j - 1]);
        }
    }
}

/// Round trip: whatever keys enter an empty run, in whatever order, the
/// run holds as many keys as entered and never decreases from front to
/// back. Taking keys from the front therefore yields them in
/// non-decreasing order.
pub proof fn lemma_round_trip_sorted(arrivals: Seq<nat>)
    ensures
        with_keys(Seq::empty(), arrivals).len() == arrivals.len(),
        is_sorted(with_keys(Seq::empty(), arrivals)),
        with_keys(Seq::empty(), arrivals).to_multiset() == arrivals.to_multiset(),
    decreases arrivals.len(),
{
    broadcast use vstd::seq_lib::group_to_multiset_ensures;

    if arrivals.len() == 0 {
        assert(arrivals =~= Seq::<nat>::empty());
    } else {
        let before = with_keys(Seq::empty(), arrivals.drop_last());
        lemma_round_trip_sorted(arrivals.drop_last());
        lemma_with_key_sorted(before, arrivals.last());
        lemma_upper_slot(before, arrivals.last());
        assert(arrivals =~= arrivals.drop_last().push(arrivals.last()));
        let slot = upper_slot(before, arrivals.last()) as int;
        let after = before.insert(slot, arrivals.last());
        assert(after.remove(slot) =~= before);
        assert(after[slot] == arrivals.last());
        assert(after.to_multiset() =~= before.to_multiset().insert(arrivals.last()));
    }
}

/// The red-black tree of the `rbtree` crate. Its nodes are not visible
/// here; a tree is known by [`tree_entries`] alone.
#[verifier::external_type_specification]
#[verifier::external_body]
#[verifier::reject_recursive_types(K)]
#[verifier::reject_recursive_types(V)]
pub struct ExRBTree<K: Ord, V>(RBTree<K, V>);

/// The entries of a tree of tasks, as an in-order walk meets them: from
/// the leftmost node to the rightmost.
pub uninterp spec fn tree_entries(tree: RBTree<u64, Task>) -> Seq<(u64, Task)>;

/// The keys of a run of entries.
pub open spec fn keys_of(entries: Seq<(u64, Task)>) -> Seq<nat> {
    entries.map_values(|entry: (u64, Task)| entry.0 as nat)
}

/// The run of entries after `task` entered it under `key`.
pub open spec fn with_entry(entries: Seq<(u64, Task)>, key: u64, task: Task) -> Seq<(u64, Task)> {
    entries.insert(upper_slot(keys_of(entries), key as nat) as int, (key, task))
}

/// Calls `RBTree::new`, which makes a tree without nodes.
#[verifier::external_body]
pub(crate) fn tree_new() -> (tree: RBTree<u64, Task>)
    ensures
        tree_entries(tree) == Seq::<(u64, Task)>::empty(),
{
    RBTree::new()
}

/// Calls `RBTree::is_empty`, which tells whether the tree has a root.
#[verifier::external_body]
pub(crate) fn tree_is_empty(tree: &RBTree<u64, Task>) -> (empty: bool)
    ensures
        empty == (tree_entries(*tree).len() == 0),
{
    tree.is_empty()
}

/// Calls `RBTree::insert`. The crate descends from the root, going left
/// where the new key is less than a node's key and right otherwise, and
/// hangs the new node where the descent ends; an existing entry with the
/// same key is kept, not replaced. In the in-order walk the new entry thus
/// stands behind every entry whose key is less or equal. The rotations
/// that rebalance the tree afterwards leave the in-order walk as it is.
#[verifier::external_body]
pub(crate) fn tree_insert(tree: &mut RBTree<u64, Task>, key: u64, task: Task)
    ensures
        tree_entries(*final(tree)) == with_entry(tree_entries(*old(tree)), key, task),
{
    tree.insert(key, task)
}

/// Calls `RBTree::pop_first`. The crate unlinks the leftmost node and
/// returns its key and value, or returns nothing where the tree has no
/// node. The rest of the in-order walk is left as it is.
#[verifier::external_body]
pub(crate) fn tree_pop_first(tree: &mut RBTree<u64, Task>) -> (first: Option<(u64, Task)>)
    ensures
        tree_entries(*old(tree)).len() == 0 ==> first.is_none() && tree_entries(*final(tree))
            == tree_entries(*old(tree)),
        tree_entries(*old(tree)).len() > 0 ==> first == Some(tree_entries(*old(tree))[0])
            && tree_entries(*final(tree)) == tree_entries(*old(tree)).drop_first(),
{
    tree.pop_first()
}

} // verus!
