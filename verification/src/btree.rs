//! An owned binary tree with explicit-stack traversals.

use vstd::prelude::*;
use vstd::arithmetic::power2::{
    pow2, lemma_pow2_pos, lemma_pow2_unfold, lemma_pow2_strictly_increases, lemma2_to64,
};
use crate::order::{below, ascending, placed, placed_all, total_order, lemma_order_laws};

pub mod dot;
pub mod walk;
pub mod export;

pub use walk::{PostOrderTraversalIter, PreOrderTraversalIter, TreeItem};
pub use dot::Dot;
pub use export::Labeled;

verus! {

/// A tree node that exclusively owns its two optional subtrees.
#[derive(Debug)]
pub struct Node<T> {
    pub value: T,
    pub left: Option<Box<Node<T>>>,
    pub right: Option<Box<Node<T>>>,
}

/// What a pre-order walk reports of one node: its structural id (the root
/// has 1, a left child twice its parent's id, a right child one more), its
/// level (the root has 1), its value, and whether it has no children.
pub struct Visit<T> {
    pub id: nat,
    pub level: nat,
    pub value: T,
    pub leaf: bool,
}

/// The values below `link`, left subtree first, then the node, then the
/// right subtree.
pub open spec fn link_seq<T>(link: Option<Box<Node<T>>>) -> Seq<T>
    decreases link,
{
    match link {
        None => Seq::empty(),
        Some(n) => n.in_order(),
    }
}

/// The number of nodes below `link`.
pub open spec fn link_size<T>(link: Option<Box<Node<T>>>) -> nat
    decreases link,
{
    match link {
        None => 0,
        Some(n) => n.size(),
    }
}

/// The number of levels below `link`.
pub open spec fn link_height<T>(link: Option<Box<Node<T>>>) -> nat
    decreases link,
{
    match link {
        None => 0,
        Some(n) => n.height(),
    }
}

/// The visits of the subtree at `link`, whose top node has the given id and
/// level: the node itself, then its right subtree, then its left subtree.
pub open spec fn link_visits<T>(link: Option<Box<Node<T>>>, id: nat, level: nat) -> Seq<Visit<T>>
    decreases link,
{
    match link {
        None => Seq::empty(),
        Some(n) => n.visits(id, level),
    }
}

/// The largest structural id below `link` (0 for an empty subtree).
pub open spec fn link_max_id<T>(link: Option<Box<Node<T>>>, id: nat) -> nat
    decreases link,
{
    match link {
        None => 0,
        Some(n) => n.max_id(id),
    }
}

/// The larger of two numbers.
pub open spec fn larger(a: nat, b: nat) -> nat {
    if a >= b { a } else { b }
}

impl<T> Node<T> {
    /// A node without children.
    pub fn new(value: T) -> (node: Node<T>)
        ensures
            node.value == value,
            node.left.is_none(),
            node.right.is_none(),
    {
        Node { value, left: None, right: None }
    }

    /// The values of the subtree: those of the left subtree, the node's
    /// own, those of the right subtree.
    pub open spec fn in_order(self) -> Seq<T>
        decreases self,
    {
        link_seq(self.left).push(self.value) + link_seq(self.right)
    }

    /// The number of nodes of the subtree.
    pub open spec fn size(self) -> nat
        decreases self,
    {
        1 + link_size(self.left) + link_size(self.right)
    }

    /// The number of levels of the subtree.
    pub open spec fn height(self) -> nat
        decreases self,
    {
        1 + larger(link_height(self.left), link_height(self.right))
    }

    /// The node has no children.
    pub open spec fn is_leaf(self) -> bool {
        self.left.is_none() && self.right.is_none()
    }

    /// The visits of the subtree, whose top node has the given id and
    /// level: the node itself, then its right subtree, then its left one.
    pub open spec fn visits(self, id: nat, level: nat) -> Seq<Visit<T>>
        decreases self,
    {
        seq![Visit { id, level, value: self.value, leaf: self.is_leaf() }]
            + link_visits(self.right, 2 * id + 1, level + 1)
            + link_visits(self.left, 2 * id, level + 1)
    }

    /// The largest structural id of the subtree, whose top node has the
    /// id `id`.
    pub open spec fn max_id(self, id: nat) -> nat
        decreases self,
    {
        larger(id, larger(link_max_id(self.left, 2 * id), link_max_id(self.right, 2 * id + 1)))
    }
}

/// A binary tree that owns its nodes.
#[derive(Debug)]
pub struct Tree<T> {
    root: Option<Box<Node<T>>>,
}

impl<T> Tree<T> {
    /// The root node, if the tree has one.
    pub closed spec fn root(self) -> Option<Node<T>> {
        match self.root {
            None => None,
            Some(n) => Some(*n),
        }
    }

    /// The values in in-order.
    pub open spec fn in_order(self) -> Seq<T> {
        match self.root() {
            None => Seq::empty(),
            Some(n) => n.in_order(),
        }
    }

    /// The visits of a pre-order walk from the root.
    pub open spec fn visits(self) -> Seq<Visit<T>> {
        match self.root() {
            None => Seq::empty(),
            Some(n) => n.visits(1, 1),
        }
    }

    /// The number of nodes.
    pub open spec fn size(self) -> nat {
        match self.root() {
            None => 0,
            Some(n) => n.size(),
        }
    }

    /// The number of levels.
    pub open spec fn height(self) -> nat {
        match self.root() {
            None => 0,
            Some(n) => n.height(),
        }
    }

    /// Every structural id of the tree is a `usize`.
    pub open spec fn ids_fit(self) -> bool {
        match self.root() {
            None => true,
            Some(n) => n.max_id(1) <= usize::MAX,
        }
    }

    /// The empty tree.
    pub fn new() -> (tree: Tree<T>)
        ensures
            tree.root().is_none(),
    {
        Tree { root: None }
    }

    /// The tree whose root is `node`.
    pub fn from_node(node: Node<T>) -> (tree: Tree<T>)
        ensures
            tree.root() == Some(node),
    {
        Tree { root: Some(Box::new(node)) }
    }
}

impl<T> Default for Tree<T> {
    /// The empty tree.
    fn default() -> (tree: Tree<T>)
        ensures
            tree.root().is_none(),
    {
        Tree::new()
    }
}

/// The subtree at `link` after `v` was inserted: a new leaf where the
/// descent by the order ends at an empty place, no change where it meets
/// `v` itself.
pub open spec fn link_with<T: Ord>(link: Option<Box<Node<T>>>, v: T) -> Option<Box<Node<T>>>
    decreases link,
{
    match link {
        None => Some(Box::new(Node { value: v, left: None, right: None })),
        Some(n) => Some(Box::new(n.with(v))),
    }
}

impl<T: Ord> Node<T> {
    /// The subtree after `v` was inserted: to the right where the node's
    /// value is below `v`, to the left where `v` is below it, and not at
    /// all where neither holds.
    pub open spec fn with(self, v: T) -> Node<T>
        decreases self,
    {
        if below(self.value, v) {
            Node { value: self.value, left: self.left, right: link_with(self.right, v) }
        } else if below(v, self.value) {
            Node { value: self.value, left: link_with(self.left, v), right: self.right }
        } else {
            self
        }
    }

    /// In a search tree, inserting a value places it into the in-order
    /// sequence.
    pub proof fn lemma_with_places(self, v: T)
        requires
            total_order::<T>(),
            ascending(self.in_order()),
        ensures
            self.with(v).in_order() == placed(self.in_order(), v),
        decreases self,
    {
        lemma_order_laws::<T>();
        lemma_placed_split(link_seq(self.left), self.value, link_seq(self.right), v);
        lemma_ascending_parts(link_seq(self.left), self.value, link_seq(self.right));
        if below(self.value, v) {
            match self.right {
                None => {
                    assert(link_seq(link_with(self.right, v)) =~= seq![v]);
                },
                Some(n) => {
                    n.lemma_with_places(v);
                },
            }
        } else if below(v, self.value) {
            match self.left {
                None => {
                    assert(link_seq(link_with(self.left, v)) =~= seq![v]);
                },
                Some(n) => {
                    n.lemma_with_places(v);
                },
            }
        }
    }
}

impl<T: Ord> Tree<T> {
    /// The in-order sequence is strictly ascending: the search-tree
    /// invariant.
    pub open spec fn ordered(self) -> bool {
        ascending(self.in_order())
    }

    /// The root after `value` was inserted.
    pub open spec fn root_with(self, value: T) -> Node<T> {
        match self.root() {
            None => Node { value, left: None, right: None },
            Some(n) => n.with(value),
        }
    }

    /// Puts `value` at its place in the order; a value that the tree
    /// already holds is dropped. In a search tree that places the value
    /// into the in-order sequence, and the tree stays a search tree.
    pub fn insert(&mut self, value: T)
        requires
            total_order::<T>(),
        ensures
            final(self).root() == Some(old(self).root_with(value)),
            old(self).ordered() ==> final(self).ordered() && final(self).in_order() == placed(
                old(self).in_order(),
                value,
            ),
    {
        proof {
            if self.ordered() {
                lemma_placed_ascending(self.in_order(), value);
                match self.root() {
                    None => {
                        assert(self.root_with(value).in_order() =~= seq![value]);
                    },
                    Some(n) => {
                        n.lemma_with_places(value);
                    },
                }
            }
        }
        match &mut self.root {
            None => {
                self.root = Some(Box::new(Node::new(value)));
            },
            Some(node) => {
                Tree::<T>::insert_recursive(node, value);
            },
        }
    }

    fn insert_recursive(node: &mut Node<T>, value: T)
        requires
            total_order::<T>(),
        ensures
            *final(node) == old(node).with(value),
        decreases *old(node),
    {
        proof {
            lemma_order_laws::<T>();
        }
        if value > node.value {
            match &mut node.right {
                None => {
                    node.right = Some(Box::new(Node::new(value)));
                },
                Some(n) => {
                    Tree::<T>::insert_recursive(n, value);
                },
            }
        } else if value < node.value {
            match &mut node.left {
                None => {
                    node.left = Some(Box::new(Node::new(value)));
                },
                Some(n) => {
                    Tree::<T>::insert_recursive(n, value);
                },
            }
        }
    }
}

/// The root of the tree that the values of `vals`, inserted one after
/// another, make of the empty tree.
pub open spec fn filled<T: Ord>(vals: Seq<T>) -> Option<Node<T>>
    decreases vals.len(),
{
    if vals.len() == 0 {
        None
    } else {
        match filled(vals.drop_last()) {
            None => Some(Node { value: vals.last(), left: None, right: None }),
            Some(n) => Some(n.with(vals.last())),
        }
    }
}

/// The in-order sequence below an optional root.
pub open spec fn root_seq<T>(root: Option<Node<T>>) -> Seq<T> {
    match root {
        None => Seq::empty(),
        Some(n) => n.in_order(),
    }
}

/// Whatever values are inserted into an empty tree, in whatever order and
/// however often, the in-order walk of the outcome is strictly ascending
/// and holds each of the values once: it is their sorted form without
/// duplicates.
pub proof fn lemma_filled_sorted<T: Ord>(vals: Seq<T>)
    requires
        total_order::<T>(),
    ensures
        root_seq(filled(vals)) == placed_all(vals),
        ascending(root_seq(filled(vals))),
        forall|w: T| #[trigger] root_seq(filled(vals)).contains(w) <==> vals.contains(w),
    decreases vals.len(),
{
    lemma_placed_all_sorted(vals);
    if vals.len() > 0 {
        let front = vals.drop_last();
        lemma_filled_sorted(front);
        match filled(front) {
            None => {
                assert(root_seq(filled(vals)) =~= seq![vals.last()]);
                assert(placed_all(front) =~= Seq::<T>::empty());
            },
            Some(n) => {
                n.lemma_with_places(vals.last());
            },
        }
    }
}

/// The structural ids of a subtree stay below the id after that of its
/// top node, doubled once for each level under the top.
pub proof fn lemma_max_id_bound<T>(node: Node<T>, id: nat)
    requires
        id >= 1,
    ensures
        node.height() >= 1,
        node.max_id(id) < (id + 1) * pow2((node.height() - 1) as nat),
    decreases node,
{
    let h = node.height();
    lemma_pow2_pos((h - 1) as nat);
    let top = pow2((h - 1) as nat) as int;
    assert(id < (id + 1) * top) by (nonlinear_arith)
        requires
            top >= 1,
            id >= 1,
    ;
    match node.left {
        None => {},
        Some(n) => {
            lemma_max_id_bound(*n, 2 * id);
            let hl = n.height();
            lemma_pow2_unfold((h - 1) as nat);
            let under = pow2((h - 2) as nat) as int;
            let own = pow2((hl - 1) as nat) as int;
            lemma_pow2_pos((hl - 1) as nat);
            assert(link_height(node.left) == hl);
            assert(1 <= hl <= h - 1);
            if hl < h - 1 {
                lemma_pow2_strictly_increases((hl - 1) as nat, (h - 2) as nat);
            }
            assert((2 * id + 1) * own <= (id + 1) * (2 * under)) by (nonlinear_arith)
                requires
                    0 < own <= under,
                    id >= 1,
            ;
        },
    }
    match node.right {
        None => {},
        Some(n) => {
            lemma_max_id_bound(*n, 2 * id + 1);
            let hr = n.height();
            lemma_pow2_unfold((h - 1) as nat);
            let under = pow2((h - 2) as nat) as int;
            let own = pow2((hr - 1) as nat) as int;
            lemma_pow2_pos((hr - 1) as nat);
            assert(link_height(node.right) == hr);
            assert(1 <= hr <= h - 1);
            if hr < h - 1 {
                lemma_pow2_strictly_increases((hr - 1) as nat, (h - 2) as nat);
            }
            assert((2 * id + 1 + 1) * own <= (id + 1) * (2 * under)) by (nonlinear_arith)
                requires
                    0 < own <= under,
                    id >= 1,
            ;
        },
    }
}

impl<T> Tree<T> {
    /// In a tree of at most 32 levels every structural id is a `usize`.
    pub proof fn lemma_shallow_fits(self)
        requires
            self.height() <= 32,
        ensures
            self.ids_fit(),
    {
        match self.root() {
            None => {},
            Some(n) => {
                lemma_max_id_bound(n, 1);
                lemma2_to64();
                let h = n.height();
                lemma_pow2_unfold(h);
                if h < 32 {
                    lemma_pow2_strictly_increases(h, 32);
                }
            },
        }
    }
}

/// Placing `v` into `l`, `x`, `r` laid end to end goes into `r` where `x`
/// is below `v` (and so is all of `l`), into `l` where `v` is below `x`,
/// and changes nothing where `v` is `x`.
pub proof fn lemma_placed_split<T: Ord>(l: Seq<T>, x: T, r: Seq<T>, v: T)
    requires
        total_order::<T>(),
    ensures
        below(v, x) ==> placed(l.push(x) + r, v) == placed(l, v).push(x) + r,
        v == x && (forall|i: int| 0 <= i < l.len() ==> below(#[trigger] l[i], x))
            ==> placed(l.push(x) + r, v) == l.push(x) + r,
        below(x, v) && (forall|i: int| 0 <= i < l.len() ==> below(#[trigger] l[i], x))
            ==> placed(l.push(x) + r, v) == l.push(x) + placed(r, v),
    decreases l.len(),
{
    lemma_order_laws::<T>();
    let s = l.push(x) + r;
    if l.len() == 0 {
        assert(s.drop_first() =~= r);
        assert(s[0] == x);
        if below(v, x) {
            assert(placed(l, v).push(x) + r =~= seq![v] + s);
        } else if below(x, v) {
            assert(l.push(x) + placed(r, v) =~= seq![x] + placed(r, v));
        }
    } else {
        let l1 = l.drop_first();
        lemma_placed_split(l1, x, r, v);
        assert(s.drop_first() =~= l1.push(x) + r);
        assert(s[0] == l[0]);
        if forall|j: int| 0 <= j < l.len() ==> below(#[trigger] l[j], x) {
            assert forall|i: int| 0 <= i < l1.len() implies below(#[trigger] l1[i], x) by {
                assert(l1[i] == l[i + 1]);
            }
        }
        if below(v, x) {
            if below(v, l[0]) {
                assert(placed(l, v).push(x) + r =~= seq![v] + s);
            } else if below(l[0], v) {
                assert(placed(l, v).push(x) + r =~= seq![l[0]] + (placed(l1, v).push(x) + r));
            }
        } else if forall|j: int| 0 <= j < l.len() ==> below(#[trigger] l[j], x) {
            assert(below(l[0], x));
            if v == x {
            } else if below(x, v) {
                assert(l.push(x) + placed(r, v) =~= seq![l[0]] + (l1.push(x) + placed(r, v)));
            }
        }
    }
}

/// The parts of an ascending sequence `l`, `x`, `r` are ascending, and `x`
/// lies above all of `l`.
pub proof fn lemma_ascending_parts<T: Ord>(l: Seq<T>, x: T, r: Seq<T>)
    requires
        ascending(l.push(x) + r),
    ensures
        ascending(l),
        ascending(r),
        forall|i: int| 0 <= i < l.len() ==> below(#[trigger] l[i], x),
{
    let s = l.push(x) + r;
    assert(s[l.len() as int] == x);
    assert forall|i: int| 0 <= i < l.len() implies below(#[trigger] l[i], x) by {
        assert(s[i] == l[i]);
    }
    assert forall|i: int, j: int| 0 <= i < j < l.len() implies below(
        #[trigger] l[i],
        #[trigger] l[j],
    ) by {
        assert(s[i] == l[i] && s[j] == l[j]);
    }
    assert forall|i: int, j: int| 0 <= i < j < r.len() implies below(
        #[trigger] r[i],
        #[trigger] r[j],
    ) by {
        assert(s[l.len() + 1 + i] == r[i] && s[l.len() + 1 + j] == r[j]);
    }
}

/// Placing a value into an ascending sequence leaves it ascending, and
/// adds that value and no other.
pub proof fn lemma_placed_ascending<T: Ord>(s: Seq<T>, v: T)
    requires
        total_order::<T>(),
        ascending(s),
    ensures
        ascending(placed(s, v)),
        forall|w: T|
            #![trigger placed(s, v).contains(w)]
            #![trigger s.contains(w)]
            placed(s, v).contains(w) <==> s.contains(w) || w == v,
    decreases s.len(),
{
    lemma_order_laws::<T>();
    let p = placed(s, v);
    if s.len() == 0 {
        assert(p[0] == v);
    } else if below(v, s[0]) {
        assert(p[0] == v);
        assert forall|i: int, j: int| 0 <= i < j < p.len() implies below(
            #[trigger] p[i],
            #[trigger] p[j],
        ) by {
            assert(p[j] == s[j - 1]);
            if i == 0 {
                if j > 1 {
                    assert(below(s[0], s[j - 1]));
                }
            } else {
                assert(p[i] == s[i - 1]);
            }
        }
        assert forall|w: T| p.contains(w) <==> s.contains(w) || w == v by {
            if s.contains(w) {
                let k = choose|k: int| 0 <= k < s.len() && s[k] == w;
                assert(p[k + 1] == w);
            }
            if p.contains(w) {
                let k = choose|k: int| 0 <= k < p.len() && p[k] == w;
                if k > 0 {
                    assert(s[k - 1] == w);
                }
            }
        }
    } else if below(s[0], v) {
        let t = s.drop_first();
        assert forall|i: int, j: int| 0 <= i < j < t.len() implies below(
            #[trigger] t[i],
            #[trigger] t[j],
        ) by {
            assert(t[i] == s[i + 1]);
            assert(t[j] == s[j + 1]);
        }
        lemma_placed_ascending(t, v);
        let q = placed(t, v);
        assert(p[0] == s[0]);
        assert forall|k: int| 0 <= k < q.len() implies below(s[0], #[trigger] q[k]) by {
            assert(q.contains(q[k]));
            if t.contains(q[k]) {
                let m = choose|m: int| 0 <= m < t.len() && t[m] == q[k];
                assert(t[m] == s[m + 1]);
            }
        }
        assert forall|i: int, j: int| 0 <= i < j < p.len() implies below(
            #[trigger] p[i],
            #[trigger] p[j],
        ) by {
            assert(p[j] == q[j - 1]);
            if i > 0 {
                assert(p[i] == q[i - 1]);
            }
        }
        assert forall|w: T| p.contains(w) <==> s.contains(w) || w == v by {
            if s.contains(w) {
                let k = choose|k: int| 0 <= k < s.len() && s[k] == w;
                if k > 0 {
                    assert(t[k - 1] == w);
                    assert(t.contains(w));
                    assert(q.contains(w));
                    let m = choose|m: int| 0 <= m < q.len() && q[m] == w;
                    assert(p[m + 1] == w);
                } else {
                    assert(p[0] == w);
                }
            }
            if w == v {
                assert(q.contains(w));
                let m = choose|m: int| 0 <= m < q.len() && q[m] == w;
                assert(p[m + 1] == w);
            }
            if p.contains(w) {
                let k = choose|k: int| 0 <= k < p.len() && p[k] == w;
                if k > 0 {
                    assert(q[k - 1] == w);
                    assert(q.contains(w));
                    if t.contains(w) {
                        let m = choose|m: int| 0 <= m < t.len() && t[m] == w;
                        assert(s[m + 1] == w);
                    }
                } else {
                    assert(s[0] == w);
                }
            }
        }
    } else {
        assert(s[0] == v);
    }
}

/// Whatever values are placed one after another into an empty sequence,
/// in whatever order and however often, the outcome is strictly ascending
/// and holds each of them once: it is their sorted form without
/// duplicates. This is what an in-order walk yields of a tree that was
/// filled by inserting those values into an empty tree.
pub proof fn lemma_placed_all_sorted<T: Ord>(vals: Seq<T>)
    requires
        total_order::<T>(),
    ensures
        ascending(placed_all(vals)),
        forall|w: T| #[trigger] placed_all(vals).contains(w) <==> vals.contains(w),
    decreases vals.len(),
{
    if vals.len() > 0 {
        let front = vals.drop_last();
        lemma_placed_all_sorted(front);
        lemma_placed_ascending(placed_all(front), vals.last());
        assert forall|w: T| #[trigger] placed_all(vals).contains(w) <==> vals.contains(w) by {
            if vals.contains(w) {
                let k = choose|k: int| 0 <= k < vals.len() && vals[k] == w;
                if k < front.len() {
                    assert(front[k] == w);
                    assert(front.contains(w));
                }
            }
            if front.contains(w) {
                let k = choose|k: int| 0 <= k < front.len() && front[k] == w;
                assert(vals[k] == w);
            }
            assert(vals[vals.len() - 1] == vals.last());
        }
    }
}

} // verus!
