//! Drawing a tree as a layered graph description.

use vstd::prelude::*;
use vstd::string::*;
use crate::btree::{Node, Tree, Visit, larger, link_visits, link_size, link_height};
use crate::btree::dot::{Dot, Graph, NodeRecord, EdgeRecord};
use crate::text::{decimal, decimal_text, signed, signed_text};

verus! {

/// A payload that can be written on a node of the drawing.
pub trait Labeled {
    /// The text that stands on the node.
    spec fn label_text(&self) -> Seq<char>;

    /// Writes the text that stands on the node.
    fn label(&self) -> (s: String)
        ensures
            s@ == self.label_text(),
    ;
}

impl Labeled for i64 {
    open spec fn label_text(&self) -> Seq<char> {
        signed_text(*self as int)
    }

    fn label(&self) -> (s: String) {
        signed(*self as i128)
    }
}

/// The name of the node with structural id `id`.
pub open spec fn node_name(id: nat) -> Seq<char> {
    "node"@ + decimal_text(id)
}

/// The style of a leaf, which sets it apart from a node with children.
pub open spec fn leaf_style(leaf: bool) -> Option<Seq<char>> {
    if leaf {
        Some("rounded,filled"@)
    } else {
        None
    }
}

/// The fill colour of a leaf.
pub open spec fn leaf_color(leaf: bool) -> Option<Seq<char>> {
    if leaf {
        Some("green"@)
    } else {
        None
    }
}

/// The node record of a visit.
pub open spec fn node_record<T: Labeled>(v: Visit<T>) -> NodeRecord {
    NodeRecord {
        name: node_name(v.id),
        label: v.value.label_text(),
        shape: "box"@,
        style: leaf_style(v.leaf),
        fillcolor: leaf_color(v.leaf),
    }
}

/// The edge record that links a visit to its parent, whose id is half its
/// own; an even id is a left child and gets the label `left`.
pub open spec fn edge_record<T>(v: Visit<T>, left: Seq<char>, right: Seq<char>) -> EdgeRecord {
    EdgeRecord {
        first: node_name(v.id / 2),
        second: node_name(v.id),
        label: if v.id % 2 == 0 {
            left
        } else {
            right
        },
    }
}

/// `g` with one more visit drawn: its node record, its edge unless it is
/// the root, and its name on the rank of its level.
pub open spec fn drawn<T: Labeled>(g: Graph, v: Visit<T>, left: Seq<char>, right: Seq<char>) -> Graph {
    let with_node = g.with_node(node_record(v));
    let with_edge = if v.id > 1 {
        with_node.with_edge(edge_record(v, left, right))
    } else {
        with_node
    };
    with_edge.with_rank((v.level - 1) as nat, node_name(v.id))
}

/// The graph of a sequence of visits, drawn one after another.
pub open spec fn graph_of<T: Labeled>(visits: Seq<Visit<T>>, left: Seq<char>, right: Seq<char>) -> Graph
    decreases visits.len(),
{
    if visits.len() == 0 {
        Graph::empty()
    } else {
        drawn(graph_of(visits.drop_last(), left, right), visits.last(), left, right)
    }
}

/// The number of visits that are not of the root.
pub open spec fn below_root<T>(visits: Seq<Visit<T>>) -> nat
    decreases visits.len(),
{
    if visits.len() == 0 {
        0
    } else {
        below_root(visits.drop_last()) + if visits.last().id > 1 {
            1nat
        } else {
            0nat
        }
    }
}

/// The deepest level among the visits.
pub open spec fn deepest<T>(visits: Seq<Visit<T>>) -> nat
    decreases visits.len(),
{
    if visits.len() == 0 {
        0
    } else {
        larger(deepest(visits.drop_last()), visits.last().level)
    }
}

/// Over visits laid end to end, those below the root add up, and the
/// deepest level is the deeper of the two.
proof fn lemma_counts_concat<T>(a: Seq<Visit<T>>, b: Seq<Visit<T>>)
    ensures
        below_root(a + b) == below_root(a) + below_root(b),
        deepest(a + b) == larger(deepest(a), deepest(b)),
    decreases b.len(),
{
    if b.len() == 0 {
        assert(a + b =~= a);
    } else {
        lemma_counts_concat(a, b.drop_last());
        assert((a + b).drop_last() =~= a + b.drop_last());
        assert((a + b).last() == b.last());
    }
}

/// The visits of a subtree are as many as its nodes, carry ids and levels
/// from those of its top node on, and reach down by its height.
pub proof fn lemma_visits_shape<T>(node: Node<T>, id: nat, level: nat)
    requires
        id >= 1,
    ensures
        node.visits(id, level).len() == node.size(),
        forall|k: int|
            0 <= k < node.visits(id, level).len() ==> (#[trigger] node.visits(id, level)[k]).id
                >= id && node.visits(id, level)[k].level >= level,
        below_root(node.visits(id, level)) == if id > 1 {
            node.size()
        } else {
            (node.size() - 1) as nat
        },
        deepest(node.visits(id, level)) == level + node.height() - 1,
    decreases node,
{
    let first = seq![Visit { id, level, value: node.value, leaf: node.is_leaf() }];
    let r = link_visits(node.right, 2 * id + 1, level + 1);
    let l = link_visits(node.left, 2 * id, level + 1);
    match node.right {
        None => {},
        Some(n) => {
            lemma_visits_shape(*n, 2 * id + 1, level + 1);
        },
    }
    match node.left {
        None => {},
        Some(n) => {
            lemma_visits_shape(*n, 2 * id, level + 1);
        },
    }
    assert(first.drop_last() =~= Seq::<Visit<T>>::empty());
    assert(below_root(first.drop_last()) == 0);
    assert(deepest(first.drop_last()) == 0);
    lemma_counts_concat(first, r);
    lemma_counts_concat(first + r, l);
    let all = node.visits(id, level);
    assert(all == first + r + l);
    assert forall|k: int| 0 <= k < all.len() implies (#[trigger] all[k]).id >= id && all[k].level
        >= level by {
        if k == 0 {
        } else if k < 1 + r.len() {
            assert(all[k] == r[k - 1]);
        } else {
            assert(all[k] == l[k - 1 - r.len()]);
        }
    }
}

/// The graph of a sequence of visits has one node record for each visit,
/// one edge record for each visit but the root's, one rank for each level
/// down to the deepest, and marks the leaves, and only them, by style and
/// fill colour.
pub proof fn lemma_graph_shape<T: Labeled>(visits: Seq<Visit<T>>, left: Seq<char>, right: Seq<char>)
    requires
        forall|k: int| 0 <= k < visits.len() ==> (#[trigger] visits[k]).level >= 1,
    ensures
        graph_of(visits, left, right).nodes.len() == visits.len(),
        graph_of(visits, left, right).edges.len() == below_root(visits),
        graph_of(visits, left, right).ranks.len() == deepest(visits),
        forall|k: int|
            0 <= k < visits.len() ==> #[trigger] graph_of(visits, left, right).nodes[k]
                == node_record(visits[k]),
    decreases visits.len(),
{
    if visits.len() > 0 {
        let front = visits.drop_last();
        assert forall|k: int| 0 <= k < front.len() implies (#[trigger] front[k]).level >= 1 by {
            assert(front[k] == visits[k]);
        }
        lemma_graph_shape(front, left, right);
        let g = graph_of(front, left, right);
        let v = visits.last();
        assert(v == visits[visits.len() - 1]);
        assert forall|k: int| 0 <= k < visits.len() implies #[trigger] graph_of(
            visits,
            left,
            right,
        ).nodes[k] == node_record(visits[k]) by {
            if k < front.len() {
                assert(front[k] == visits[k]);
                assert(g.nodes[k] == node_record(front[k]));
            }
        }
    }
}

impl<T: Labeled> Tree<T> {
    /// The drawing of the tree: `left` and `right` label the edges to left
    /// and right children.
    pub open spec fn graph(self, left: Seq<char>, right: Seq<char>) -> Graph {
        graph_of(self.visits(), left, right)
    }

    /// For a tree of N nodes the drawing has N node records and, unless
    /// the tree is empty, N - 1 edge records; it has one rank for each
    /// level of the tree; and the node records of leaves, and only they,
    /// carry a style and a fill colour.
    pub proof fn lemma_graph_counts(self, left: Seq<char>, right: Seq<char>)
        ensures
            self.graph(left, right).nodes.len() == self.size(),
            self.size() > 0 ==> self.graph(left, right).edges.len() == self.size() - 1,
            self.size() == 0 ==> self.graph(left, right).edges.len() == 0,
            self.graph(left, right).ranks.len() == self.height(),
            self.visits().len() == self.size(),
            forall|k: int|
                0 <= k < self.size() ==> {
                    let r = #[trigger] self.graph(left, right).nodes[k];
                    &&& r.style == leaf_style(self.visits()[k].leaf)
                    &&& r.fillcolor == leaf_color(self.visits()[k].leaf)
                    &&& r.shape == "box"@
                },
            leaf_style(true) != leaf_style(false),
            leaf_color(true) != leaf_color(false),
    {
        match self.root() {
            None => {},
            Some(n) => {
                lemma_visits_shape(n, 1, 1);
            },
        }
        lemma_graph_shape(self.visits(), left, right);
    }

    /// Draws the tree as a graph description.
    pub fn dot_dump(&self, left: &str, right: &str) -> (text: String)
        requires
            self.ids_fit(),
        ensures
            text@ == self.graph(left@, right@).text(),
    {
        let mut graph = Dot::new();
        let mut walk = self.pre_order_iter();
        let ghost all = self.visits();
        let ghost mut done: Seq<Visit<T>> = Seq::empty();
        proof {
            match self.root() {
                None => {},
                Some(n) => {
                    lemma_visits_shape(n, 1, 1);
                },
            }
            assert(done + walk.remaining() =~= all);
        }
        let mut next = walk.next_item();
        while next.is_some()
            invariant
                walk.wf(),
                forall|k: int| 0 <= k < all.len() ==> (#[trigger] all[k]).level >= 1,
                next.is_some() ==> done.push(next.unwrap().visit()) + walk.remaining() == all,
                next.is_none() ==> done == all,
                graph@ == graph_of(done, left@, right@),
            decreases
                    walk.remaining().len() + if next.is_some() {
                        1nat
                    } else {
                        0nat
                    },
        {
            let item = next.unwrap();
            let ghost v = item.visit();
            proof {
                assert(all[done.len() as int] == v);
                assert(done.push(v).drop_last() =~= done);
            }
            let mut name = String::from_str("node");
            let id_text = decimal(item.id as u128);
            name.append(id_text.as_str());
            let mut parent_name = String::from_str("node");
            let parent_text = decimal((item.id / 2) as u128);
            parent_name.append(parent_text.as_str());
            let label = item.value.label();
            graph.add_node(
                name.clone(),
                label,
                String::from_str("box"),
                if item.leaf {
                    Some(String::from_str("rounded,filled"))
                } else {
                    None
                },
                if item.leaf {
                    Some(String::from_str("green"))
                } else {
                    None
                },
            );
            if item.id > 1 {
                let edgelabel: String = if item.id % 2 == 0 {
                    String::from_str(left)
                } else {
                    String::from_str(right)
                };
                graph.add_edge(parent_name, name.clone(), edgelabel);
            }
            graph.append_rank(item.level - 1, name);
            proof {
                done = done.push(v);
                assert(graph@ == drawn(graph_of(done.drop_last(), left@, right@), v, left@, right@));
            }
            let ghost rest = walk.remaining();
            next = walk.next_item();
            proof {
                if next.is_some() {
                    assert(done.push(next.unwrap().visit()) + walk.remaining() =~= done + rest);
                } else {
                    assert(done + rest =~= done);
                }
            }
        }
        graph.to_string()
    }
}

} // verus!
