//! Traversals that keep their own stack, so that the depth of a tree is
//! bounded by the heap only.

use vstd::prelude::*;
use crate::btree::{Node, Tree, Visit, link_seq, link_size, link_visits, link_max_id};

verus! {

/// How far the in-order walk has come with a node.
#[derive(Debug, Copy, Clone)]
enum Address {
    /// First visit: the left subtree comes first.
    Enter,
    /// The left subtree is done: the node's own value is next.
    LeftCompleted,
    /// The value was handed out: the right subtree is next.
    ValueYield,
    /// Nothing is left of this node.
    Completed,
}

/// What a stack entry of the in-order walk still has to hand out.
spec fn frame_seq<T>(address: Address, node: Node<T>) -> Seq<T> {
    match address {
        Address::Enter => node.in_order(),
        Address::LeftCompleted => seq![node.value] + link_seq(node.right),
        Address::ValueYield => link_seq(node.right),
        Address::Completed => Seq::empty(),
    }
}

/// The number of steps that a stack entry of the in-order walk still takes.
spec fn frame_cost<T>(address: Address, node: Node<T>) -> nat {
    match address {
        Address::Enter => 4 * node.size(),
        Address::LeftCompleted => 4 * link_size(node.right) + 3,
        Address::ValueYield => 4 * link_size(node.right) + 2,
        Address::Completed => 1,
    }
}

/// What the entries of a stack still have to hand out, the top entry
/// first.
spec fn stack_seq<T>(stack: Seq<(Address, &Node<T>)>) -> Seq<T>
    decreases stack.len(),
{
    if stack.len() == 0 {
        Seq::empty()
    } else {
        frame_seq(stack.last().0, *stack.last().1) + stack_seq(stack.drop_last())
    }
}

/// The number of steps that the entries of a stack still take.
spec fn stack_cost<T>(stack: Seq<(Address, &Node<T>)>) -> nat
    decreases stack.len(),
{
    if stack.len() == 0 {
        0
    } else {
        frame_cost(stack.last().0, *stack.last().1) + stack_cost(stack.drop_last())
    }
}

/// A pushed entry comes before the others and adds its steps to theirs.
proof fn lemma_stack_push<T>(stack: Seq<(Address, &Node<T>)>, address: Address, node: &Node<T>)
    ensures
        stack_seq(stack.push((address, node))) == frame_seq(address, *node) + stack_seq(stack),
        stack_cost(stack.push((address, node))) == frame_cost(address, *node) + stack_cost(stack),
{
    assert(stack.push((address, node)).drop_last() =~= stack);
}

/// An in-order walk over a tree: left subtree, node, right subtree.
pub struct PostOrderTraversalIter<'a, T> {
    stack: Vec<(Address, &'a Node<T>)>,
}

impl<'a, T> PostOrderTraversalIter<'a, T> {
    /// The values that the walk has yet to hand out, in order.
    pub closed spec fn remaining(self) -> Seq<T> {
        stack_seq(self.stack@)
    }

    pub(crate) fn new(tree: &'a Tree<T>) -> (walk: PostOrderTraversalIter<'a, T>)
        ensures
            walk.remaining() == tree.in_order(),
    {
        match &tree.root {
            None => PostOrderTraversalIter { stack: Vec::new() },
            Some(node) => {
                let mut stack: Vec<(Address, &'a Node<T>)> = Vec::new();
                proof {
                    lemma_stack_push(stack@, Address::Enter, &**node);
                }
                stack.push((Address::Enter, &**node));
                PostOrderTraversalIter { stack }
            },
        }
    }

    /// Hands out the next value of the walk, or `None` once all were handed
    /// out.
    pub fn next_item(&mut self) -> (item: Option<&'a T>)
        ensures
            old(self).remaining().len() == 0 ==> item.is_none() && final(self).remaining().len()
                == 0,
            old(self).remaining().len() > 0 ==> item == Some(&old(self).remaining()[0])
                && final(self).remaining() == old(self).remaining().drop_first(),
    {
        loop
            invariant
                stack_seq(self.stack@) == stack_seq(old(self).stack@),
            decreases stack_cost(self.stack@),
        {
            let ghost before = self.stack@;
            match self.stack.pop() {
                None => {
                    return None;
                },
                Some((address, node)) => {
                    let ghost rest = self.stack@;
                    assert(rest == before.drop_last());
                    assert(before.last() == (address, node));
                    match address {
                        Address::Enter => {
                            proof {
                                lemma_stack_push(rest, Address::LeftCompleted, node);
                            }
                            self.stack.push((Address::LeftCompleted, node));
                            match &node.left {
                                None => {
                                    assert(node.in_order() =~= seq![node.value] + link_seq(
                                        node.right,
                                    ));
                                },
                                Some(left) => {
                                    proof {
                                        lemma_stack_push(self.stack@, Address::Enter, &**left);
                                        assert(left.in_order() + (seq![node.value] + link_seq(
                                            node.right,
                                        ) + stack_seq(rest)) =~= node.in_order() + stack_seq(
                                            rest,
                                        ));
                                    }
                                    self.stack.push((Address::Enter, &**left));
                                },
                            }
                        },
                        Address::LeftCompleted => {
                            proof {
                                lemma_stack_push(rest, Address::ValueYield, node);
                                assert(stack_seq(before)[0] == node.value);
                                assert(stack_seq(before).drop_first() =~= link_seq(node.right)
                                    + stack_seq(rest));
                            }
                            self.stack.push((Address::ValueYield, node));
                            return Some(&node.value);
                        },
                        Address::ValueYield => {
                            proof {
                                lemma_stack_push(rest, Address::Completed, node);
                            }
                            self.stack.push((Address::Completed, node));
                            match &node.right {
                                None => {},
                                Some(right) => {
                                    proof {
                                        lemma_stack_push(self.stack@, Address::Enter, &**right);
                                    }
                                    self.stack.push((Address::Enter, &**right));
                                },
                            }
                        },
                        Address::Completed => {},
                    }
                },
            }
        }
    }
}

/// A node as the pre-order walk hands it out.
pub struct TreeItem<'a, T> {
    pub id: usize,
    pub level: usize,
    pub value: &'a T,
    pub leaf: bool,
}

impl<'a, T> TreeItem<'a, T> {
    /// The item as a visit.
    pub open spec fn visit(self) -> Visit<T> {
        Visit { id: self.id as nat, level: self.level as nat, value: *self.value, leaf: self.leaf }
    }
}

/// A node that the pre-order walk has yet to visit, with its id and level.
struct TreeStackItem<'a, T> {
    id: usize,
    level: usize,
    node: &'a Node<T>,
}

/// The visits that the entries of a stack stand for, the top entry first.
spec fn entries_seq<T>(stack: Seq<TreeStackItem<'_, T>>) -> Seq<Visit<T>>
    decreases stack.len(),
{
    if stack.len() == 0 {
        Seq::empty()
    } else {
        stack.last().node.visits(stack.last().id as nat, stack.last().level as nat) + entries_seq(
            stack.drop_last(),
        )
    }
}

/// The id and the level of an entry, and the ids of all nodes below it,
/// are `usize` values.
spec fn entry_fits<T>(entry: TreeStackItem<'_, T>) -> bool {
    &&& 1 <= entry.level <= entry.id
    &&& entry.node.max_id(entry.id as nat) <= usize::MAX
}

/// A walk that hands out each node before its subtrees, the right subtree
/// before the left one.
pub struct PreOrderTraversalIter<'a, T> {
    stack: Vec<TreeStackItem<'a, T>>,
}

impl<'a, T> PreOrderTraversalIter<'a, T> {
    /// The visits that the walk has yet to hand out, in order.
    pub closed spec fn remaining(self) -> Seq<Visit<T>> {
        entries_seq(self.stack@)
    }

    /// The ids and levels on the stack, and those of all nodes below, are
    /// `usize` values.
    pub closed spec fn wf(self) -> bool {
        forall|i: int| 0 <= i < self.stack@.len() ==> entry_fits(#[trigger] self.stack@[i])
    }

    pub(crate) fn new(tree: &'a Tree<T>) -> (walk: PreOrderTraversalIter<'a, T>)
        requires
            tree.ids_fit(),
        ensures
            walk.wf(),
            walk.remaining() == tree.visits(),
    {
        match &tree.root {
            None => PreOrderTraversalIter { stack: Vec::new() },
            Some(node) => {
                let mut stack: Vec<TreeStackItem<'a, T>> = Vec::new();
                let entry = TreeStackItem { id: 1, level: 1, node: &**node };
                proof {
                    assert(stack@.push(entry).drop_last() =~= stack@);
                    assert(entries_seq(stack@) =~= Seq::<Visit<T>>::empty());
                    assert(entries_seq(stack@.push(entry)) =~= node.visits(1, 1));
                }
                stack.push(entry);
                PreOrderTraversalIter { stack }
            },
        }
    }

    /// Hands out the next node of the walk, or `None` once all were handed
    /// out.
    pub fn next_item(&mut self) -> (item: Option<TreeItem<'a, T>>)
        requires
            old(self).wf(),
        ensures
            final(self).wf(),
            old(self).remaining().len() == 0 ==> item.is_none() && final(self).remaining().len()
                == 0,
            old(self).remaining().len() > 0 ==> item.is_some() && item.unwrap().visit() == old(
                self,
            ).remaining()[0] && final(self).remaining() == old(self).remaining().drop_first(),
    {
        let ghost before = self.stack@;
        match self.stack.pop() {
            None => None,
            Some(entry) => {
                let ghost rest = self.stack@;
                assert(rest == before.drop_last());
                assert(before.last() == entry);
                assert(entry_fits(before[before.len() - 1]));
                assert forall|i: int| 0 <= i < rest.len() implies entry_fits(#[trigger] rest[i]) by {
                    assert(rest[i] == before[i]);
                }
                let node = entry.node;
                let ghost id = entry.id as nat;
                let ghost level = entry.level as nat;
                let mut leaf: bool = true;
                match &node.left {
                    None => {},
                    Some(left) => {
                        proof {
                            assert(node.max_id(id) >= link_max_id(node.left, 2 * id));
                            assert(left.max_id(2 * id) >= 2 * id);
                        }
                        let child = TreeStackItem {
                            id: entry.id * 2,
                            level: entry.level + 1,
                            node: &**left,
                        };
                        proof {
                            assert(self.stack@.push(child).drop_last() =~= self.stack@);
                        }
                        self.stack.push(child);
                        leaf = false;
                    },
                }
                let ghost middle = self.stack@;
                assert(entries_seq(middle) == link_visits(node.left, 2 * id, level + 1)
                    + entries_seq(rest));
                match &node.right {
                    None => {},
                    Some(right) => {
                        proof {
                            assert(node.max_id(id) >= link_max_id(node.right, 2 * id + 1));
                            assert(right.max_id(2 * id + 1) >= 2 * id + 1);
                        }
                        let child = TreeStackItem {
                            id: entry.id * 2 + 1,
                            level: entry.level + 1,
                            node: &**right,
                        };
                        proof {
                            assert(self.stack@.push(child).drop_last() =~= self.stack@);
                        }
                        self.stack.push(child);
                        leaf = false;
                    },
                }
                proof {
                    assert(entries_seq(self.stack@) == link_visits(node.right, 2 * id + 1, level + 1)
                        + entries_seq(middle));
                    let first = Visit { id, level, value: node.value, leaf: node.is_leaf() };
                    assert(entries_seq(before) == node.visits(id, level) + entries_seq(rest));
                    assert(entries_seq(before)[0] == first);
                    assert(entries_seq(before).drop_first() =~= entries_seq(self.stack@));
                }
                Some(TreeItem { id: entry.id, level: entry.level, value: &node.value, leaf })
            },
        }
    }
}

/// Whether the structural ids of the subtree at `node`, which itself has
/// the id `id`, are all `usize` values.
fn node_fits<T>(node: &Node<T>, id: usize) -> (fits: bool)
    ensures
        fits == (node.max_id(id as nat) <= usize::MAX),
    decreases *node,
{
    let left_fits = match &node.left {
        None => true,
        Some(left) => {
            assert(left.max_id(2 * (id as nat)) >= 2 * id);
            if id > usize::MAX / 2 {
                false
            } else {
                node_fits(&**left, id * 2)
            }
        },
    };
    let right_fits = match &node.right {
        None => true,
        Some(right) => {
            assert(right.max_id(2 * (id as nat) + 1) >= 2 * id + 1);
            if id > (usize::MAX - 1) / 2 {
                false
            } else {
                node_fits(&**right, id * 2 + 1)
            }
        },
    };
    left_fits && right_fits
}

impl<T> Tree<T> {
    /// Whether every structural id of the tree is a `usize`, so that the
    /// pre-order walk can tag the nodes.
    pub fn fits(&self) -> (fits: bool)
        ensures
            fits == self.ids_fit(),
    {
        match &self.root {
            None => true,
            Some(node) => node_fits(&**node, 1),
        }
    }

    /// Starts an in-order walk.
    pub fn post_order_iter<'a>(&'a self) -> (walk: PostOrderTraversalIter<'a, T>)
        ensures
            walk.remaining() == self.in_order(),
    {
        PostOrderTraversalIter::new(self)
    }

    /// Starts a walk in depth: the in-order walk.
    pub fn depth_iter<'a>(&'a self) -> (walk: PostOrderTraversalIter<'a, T>)
        ensures
            walk.remaining() == self.in_order(),
    {
        PostOrderTraversalIter::new(self)
    }

    /// Starts a walk that reports the level of each node: the pre-order
    /// walk, which hands out a node before the nodes below it, not level
    /// by level.
    pub fn breadth_iter<'a>(&'a self) -> (walk: PreOrderTraversalIter<'a, T>)
        requires
            self.ids_fit(),
        ensures
            walk.wf(),
            walk.remaining() == self.visits(),
    {
        PreOrderTraversalIter::new(self)
    }

    /// Starts a pre-order walk that tags each node with its structural id.
    pub fn pre_order_iter<'a>(&'a self) -> (walk: PreOrderTraversalIter<'a, T>)
        requires
            self.ids_fit(),
        ensures
            walk.wf(),
            walk.remaining() == self.visits(),
    {
        PreOrderTraversalIter::new(self)
    }
}

} // verus!
