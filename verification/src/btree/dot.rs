//! A directed-graph description in text: node records, edge records and
//! groups of nodes that are drawn on one rank.

use vstd::prelude::*;
use vstd::string::*;
use crate::text::{joined, texts, join};

verus! {

/// A node declaration.
pub struct NodeRecord {
    pub name: Seq<char>,
    pub label: Seq<char>,
    pub shape: Seq<char>,
    pub style: Option<Seq<char>>,
    pub fillcolor: Option<Seq<char>>,
}

/// An edge declaration, from `first` to `second`.
pub struct EdgeRecord {
    pub first: Seq<char>,
    pub second: Seq<char>,
    pub label: Seq<char>,
}

/// What a graph description holds: its records in the order in which they
/// were added, and for each rank the names of the nodes on it.
pub struct Graph {
    pub nodes: Seq<NodeRecord>,
    pub edges: Seq<EdgeRecord>,
    pub ranks: Seq<Seq<Seq<char>>>,
}

/// `ranks`, with empty ranks added at the end until there are at least `n`.
pub open spec fn padded(ranks: Seq<Seq<Seq<char>>>, n: nat) -> Seq<Seq<Seq<char>>> {
    if ranks.len() >= n {
        ranks
    } else {
        ranks + Seq::new((n - ranks.len()) as nat, |i: int| Seq::<Seq<char>>::empty())
    }
}

/// The part of a node declaration that gives its style, if it has one.
pub open spec fn style_text(style: Option<Seq<char>>) -> Seq<char> {
    match style {
        None => Seq::empty(),
        Some(kind) => ", style=\""@ + kind + "\""@,
    }
}

/// The part of a node declaration that gives its fill colour, if it has
/// one.
pub open spec fn fillcolor_text(fillcolor: Option<Seq<char>>) -> Seq<char> {
    match fillcolor {
        None => Seq::empty(),
        Some(kind) => ", fillcolor=\""@ + kind + "\""@,
    }
}

/// The line that declares a node.
pub open spec fn node_line(r: NodeRecord) -> Seq<char> {
    r.name + " [label=\""@ + r.label + "\", shape=\""@ + r.shape + "\""@ + style_text(r.style)
        + fillcolor_text(r.fillcolor) + "];"@
}

/// The line that declares an edge.
pub open spec fn edge_line(r: EdgeRecord) -> Seq<char> {
    r.first + " -> "@ + r.second + " [label=\""@ + r.label + "\"];"@
}

/// The line that puts the nodes of one rank side by side.
pub open spec fn rank_line(names: Seq<Seq<char>>) -> Seq<char> {
    "{rank = same; "@ + joined(names, "; "@) + ";}"@
}

impl Graph {
    /// The graph without records.
    pub open spec fn empty() -> Graph {
        Graph { nodes: Seq::empty(), edges: Seq::empty(), ranks: Seq::empty() }
    }

    /// The graph with one more node record.
    pub open spec fn with_node(self, r: NodeRecord) -> Graph {
        Graph { nodes: self.nodes.push(r), ..self }
    }

    /// The graph with one more edge record.
    pub open spec fn with_edge(self, r: EdgeRecord) -> Graph {
        Graph { edges: self.edges.push(r), ..self }
    }

    /// The graph with `name` added to rank `index`; ranks up to `index`
    /// that were not there yet come into being empty.
    pub open spec fn with_rank(self, index: nat, name: Seq<char>) -> Graph {
        let ranks = padded(self.ranks, index + 1);
        Graph { ranks: ranks.update(index as int, ranks[index as int].push(name)), ..self }
    }

    /// The lines of the description: the header, the node, edge and rank
    /// declarations, and the two closing brackets.
    pub open spec fn lines(self) -> Seq<Seq<char>> {
        seq!["digraph {"@, "rankdir = BT;"@, "subgraph{"@]
            + Seq::new(self.nodes.len(), |i: int| node_line(self.nodes[i]))
            + Seq::new(self.edges.len(), |i: int| edge_line(self.edges[i]))
            + Seq::new(self.ranks.len(), |i: int| rank_line(self.ranks[i]))
            + seq!["}"@, "}"@]
    }

    /// The description as text, one declaration per line.
    pub open spec fn text(self) -> Seq<char> {
        joined(self.lines(), "\n"@)
    }
}

struct DotNode {
    name: String,
    label: String,
    shape: String,
    style: Option<String>,
    fillcolor: Option<String>,
}

impl DotNode {
    spec fn record(self) -> NodeRecord {
        NodeRecord {
            name: self.name@,
            label: self.label@,
            shape: self.shape@,
            style: opt_view(self.style),
            fillcolor: opt_view(self.fillcolor),
        }
    }

    fn line(&self) -> (s: String)
        ensures
            s@ == node_line(self.record()),
    {
        let mut s = self.name.clone();
        s.append(" [label=\"");
        s.append(self.label.as_str());
        s.append("\", shape=\"");
        s.append(self.shape.as_str());
        s.append("\"");
        match &self.style {
            None => {
                assert(s@ + Seq::<char>::empty() =~= s@);
            },
            Some(kind) => {
                let ghost before = s@;
                s.append(", style=\"");
                s.append(kind.as_str());
                s.append("\"");
                assert(s@ =~= before + style_text(Some(kind@)));
            },
        }
        match &self.fillcolor {
            None => {
                assert(s@ + Seq::<char>::empty() =~= s@);
            },
            Some(kind) => {
                let ghost before = s@;
                s.append(", fillcolor=\"");
                s.append(kind.as_str());
                s.append("\"");
                assert(s@ =~= before + fillcolor_text(Some(kind@)));
            },
        }
        s.append("];");
        s
    }
}

struct DotEdge {
    first: String,
    second: String,
    label: String,
}

impl DotEdge {
    spec fn record(self) -> EdgeRecord {
        EdgeRecord { first: self.first@, second: self.second@, label: self.label@ }
    }

    fn line(&self) -> (s: String)
        ensures
            s@ == edge_line(self.record()),
    {
        let mut s = self.first.clone();
        s.append(" -> ");
        s.append(self.second.as_str());
        s.append(" [label=\"");
        s.append(self.label.as_str());
        s.append("\"];");
        s
    }
}

struct DotRank(Vec<String>);

impl DotRank {
    fn new() -> (rank: DotRank)
        ensures
            rank.0@ == Seq::<String>::empty(),
    {
        DotRank(Vec::new())
    }

    fn line(&self) -> (s: String)
        ensures
            s@ == rank_line(texts(self.0@)),
    {
        let mut s = String::from_str("{rank = same; ");
        let names = join(&self.0, "; ");
        s.append(names.as_str());
        s.append(";}");
        s
    }
}

/// A graph description under construction.
pub struct Dot {
    nodes: Vec<DotNode>,
    edges: Vec<DotEdge>,
    ranks: Vec<DotRank>,
}

/// The names on each rank, as text.
spec fn rank_names(ranks: Seq<DotRank>) -> Seq<Seq<Seq<char>>> {
    Seq::new(ranks.len(), |i: int| texts(ranks[i].0@))
}

impl Dot {
    /// The records and ranks that were added so far.
    pub closed spec fn view(&self) -> Graph {
        Graph {
            nodes: Seq::new(self.nodes@.len(), |i: int| self.nodes@[i].record()),
            edges: Seq::new(self.edges@.len(), |i: int| self.edges@[i].record()),
            ranks: rank_names(self.ranks@),
        }
    }

    /// A description without records.
    pub fn new() -> (dot: Dot)
        ensures
            dot@ == Graph::empty(),
    {
        let dot = Dot { nodes: Vec::new(), edges: Vec::new(), ranks: Vec::new() };
        assert(dot@.nodes =~= Seq::empty());
        assert(dot@.edges =~= Seq::empty());
        assert(dot@.ranks =~= Seq::empty());
        dot
    }

    /// Adds a node record.
    pub fn add_node(
        &mut self,
        name: String,
        label: String,
        shape: String,
        style: Option<String>,
        fillcolor: Option<String>,
    )
        ensures
            final(self)@ == old(self)@.with_node(
                (NodeRecord {
                    name: name@,
                    label: label@,
                    shape: shape@,
                    style: opt_view(style),
                    fillcolor: opt_view(fillcolor),
                }),
            ),
    {
        let node = DotNode { name, label, shape, style, fillcolor };
        self.nodes.push(node);
        assert(self@.nodes =~= old(self)@.nodes.push(node.record()));
    }

    /// Adds an edge record.
    pub fn add_edge(&mut self, first: String, second: String, label: String)
        ensures
            final(self)@ == old(self)@.with_edge(
                (EdgeRecord { first: first@, second: second@, label: label@ }),
            ),
    {
        let edge = DotEdge { first, second, label };
        self.edges.push(edge);
        assert(self@.edges =~= old(self)@.edges.push(edge.record()));
    }

    /// Adds a node's name to the rank `index`, after making the ranks up to
    /// that one where they are not there yet.
    pub fn append_rank(&mut self, index: usize, node: String)
        requires
            index < usize::MAX,
        ensures
            final(self)@ == old(self)@.with_rank(index as nat, node@),
    {
        while self.ranks.len() <= index
            invariant
                index < usize::MAX,
                self.nodes == old(self).nodes,
                self.edges == old(self).edges,
                old(self).ranks@.len() <= self.ranks@.len(),
                self.ranks@.len() <= index + 1 || self.ranks@ == old(self).ranks@,
                rank_names(self.ranks@) == padded(
                    rank_names(old(self).ranks@),
                    self.ranks@.len() as nat,
                ),
            decreases index + 1 - self.ranks.len(),
        {
            let ghost before = rank_names(self.ranks@);
            let rank = DotRank::new();
            assert(texts(rank.0@) =~= Seq::<Seq<char>>::empty());
            self.ranks.push(rank);
            assert(rank_names(self.ranks@) =~= before.push(Seq::<Seq<char>>::empty()));
            assert(rank_names(self.ranks@) =~= padded(
                rank_names(old(self).ranks@),
                self.ranks@.len() as nat,
            ));
        }
        let ghost ranks = rank_names(self.ranks@);
        let ghost stack = self.ranks@;
        assert(ranks == padded(old(self)@.ranks, (index + 1) as nat));
        self.ranks[index].0.push(node);
        proof {
            assert(self.ranks@.len() == stack.len());
            assert(self.ranks@[index as int].0@ == stack[index as int].0@.push(node));
            assert(texts(self.ranks@[index as int].0@) =~= ranks[index as int].push(node@));
            assert forall|k: int| 0 <= k < stack.len() && k != index implies self.ranks@[k]
                == stack[k] by {}
            assert(rank_names(self.ranks@) =~= ranks.update(
                index as int,
                ranks[index as int].push(node@),
            ));
        }
    }

    /// The description as text.
    pub fn to_string(&self) -> (text: String)
        ensures
            text@ == self@.text(),
    {
        let mut graph: Vec<String> = Vec::new();
        graph.push(String::from_str("digraph {"));
        graph.push(String::from_str("rankdir = BT;"));
        graph.push(String::from_str("subgraph{"));
        let ghost head = seq!["digraph {"@, "rankdir = BT;"@, "subgraph{"@];
        assert(texts(graph@) =~= head);
        let ghost model = self@;
        let mut i: usize = 0;
        while i < self.nodes.len()
            invariant
                i <= self.nodes.len(),
                model == self@,
                texts(graph@) == head + Seq::new(i as nat, |k: int| node_line(model.nodes[k])),
            decreases self.nodes.len() - i,
        {
            let line = self.nodes[i].line();
            let ghost before = texts(graph@);
            graph.push(line);
            assert(texts(graph@) =~= before.push(line@));
            assert(texts(graph@) =~= head + Seq::new(
                (i + 1) as nat,
                |k: int| node_line(model.nodes[k]),
            ));
            i = i + 1;
        }
        let ghost part1 = texts(graph@);
        let mut i: usize = 0;
        while i < self.edges.len()
            invariant
                i <= self.edges.len(),
                model == self@,
                texts(graph@) == part1 + Seq::new(i as nat, |k: int| edge_line(model.edges[k])),
            decreases self.edges.len() - i,
        {
            let line = self.edges[i].line();
            let ghost before = texts(graph@);
            graph.push(line);
            assert(texts(graph@) =~= before.push(line@));
            assert(texts(graph@) =~= part1 + Seq::new(
                (i + 1) as nat,
                |k: int| edge_line(model.edges[k]),
            ));
            i = i + 1;
        }
        let ghost part2 = texts(graph@);
        let mut i: usize = 0;
        while i < self.ranks.len()
            invariant
                i <= self.ranks.len(),
                model == self@,
                texts(graph@) == part2 + Seq::new(i as nat, |k: int| rank_line(model.ranks[k])),
            decreases self.ranks.len() - i,
        {
            let line = self.ranks[i].line();
            let ghost before = texts(graph@);
            graph.push(line);
            assert(texts(graph@) =~= before.push(line@));
            assert(texts(graph@) =~= part2 + Seq::new(
                (i + 1) as nat,
                |k: int| rank_line(model.ranks[k]),
            ));
            i = i + 1;
        }
        let ghost part3 = texts(graph@);
        graph.push(String::from_str("}"));
        graph.push(String::from_str("}"));
        assert(texts(graph@) =~= part3 + seq!["}"@, "}"@]);
        assert(texts(graph@) =~= model.lines());
        join(&graph, "\n")
    }
}

/// The text of an optional string.
pub open spec fn opt_view(s: Option<String>) -> Option<Seq<char>> {
    match s {
        None => None,
        Some(t) => Some(t@),
    }
}

} // verus!
