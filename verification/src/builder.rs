//! Growing a decision tree by splitting a table again and again.

use vstd::prelude::*;
use vstd::string::*;
use crate::btree::{Node, Tree};
use crate::btree::export::Labeled;
use crate::impurity::{count_of, majority, majority_leaf, predict_majority_dataframe,
    lemma_single_class};
use crate::ratio::Ratio;
use crate::rule::{Decision, Rule};
use crate::split::{best_split, evaluate_best_split};
use crate::table::{Table, TableView, BuildError};
use crate::text::{decimal, decimal_text, signed, signed_text};

verus! {

/// The features that are handed down to the children of a split on
/// `used`: all of them where features may be used again, else all but
/// `used`.
pub open spec fn handed_down(features: Seq<usize>, used: usize, reuse: bool) -> Seq<usize>
    decreases features.len(),
{
    if features.len() == 0 {
        Seq::empty()
    } else {
        let front = handed_down(features.drop_last(), used, reuse);
        if reuse || features.last() != used {
            front.push(features.last())
        } else {
            front
        }
    }
}

/// A node without children.
pub open spec fn leaf_node(value: Decision) -> Node<Decision> {
    Node { value, left: None, right: None }
}

/// Splitting stops at a node: no feature is left, all rows are of one
/// class, the rows are no more than `min_size`, or no level is left.
pub open spec fn stops(
    view: TableView,
    levels: nat,
    features: Seq<usize>,
    min_size: nat,
) -> bool {
    ||| features.len() == 0
    ||| majority_leaf(view.labels, view.classes).confidence.whole()
    ||| view.rows() <= min_size
    ||| levels == 0
}

/// The tree grown from a table: a leaf that predicts the majority class
/// where splitting stops; else a node that holds the best split, above the
/// tree grown from the rows on its high side, to the left, and the tree
/// grown from those on its low side, to the right, each with one level
/// less. `levels` is the number of levels of nodes that may still split.
pub open spec fn grow(
    view: TableView,
    levels: nat,
    features: Seq<usize>,
    min_size: nat,
    reuse: bool,
) -> Result<Node<Decision>, BuildError>
    decreases levels,
{
    if view.rows() == 0 {
        Err(BuildError::EmptyPartition)
    } else {
        let leaf = majority_leaf(view.labels, view.classes);
        if stops(view, levels, features, min_size) {
            Ok(leaf_node(leaf))
        } else {
            match best_split(view, features) {
                Err(e) => Err(e),
                Ok(rule) => {
                    let next = handed_down(features, rule.dimension, reuse);
                    let below = (levels - 1) as nat;
                    let high = view.side(rule.dimension as int, rule.cutoff as int, true);
                    let low = view.side(rule.dimension as int, rule.cutoff as int, false);
                    match grow(high, below, next, min_size, reuse) {
                        Err(e) => Err(e),
                        Ok(left) => match grow(low, below, next, min_size, reuse) {
                            Err(e) => Err(e),
                            Ok(right) => Ok(
                                Node {
                                    value: Decision { rule: Some(rule), ..leaf },
                                    left: Some(Box::new(left)),
                                    right: Some(Box::new(right)),
                                },
                            ),
                        },
                    }
                },
            }
        }
    }
}

/// A node is a leaf iff it holds no rule, and a node with a rule has both
/// children; so all the way down.
pub open spec fn shaped(node: Node<Decision>) -> bool
    decreases node,
{
    match node.value.rule {
        None => node.left.is_none() && node.right.is_none(),
        Some(_) => match (node.left, node.right) {
            (Some(l), Some(r)) => shaped(*l) && shaped(*r),
            _ => false,
        },
    }
}

/// A grown tree is shaped as its rules say, and has at most one level
/// more than the levels that were allowed to split.
pub proof fn lemma_grown_shape(
    view: TableView,
    levels: nat,
    features: Seq<usize>,
    min_size: nat,
    reuse: bool,
)
    ensures
        match grow(view, levels, features, min_size, reuse) {
            Ok(node) => shaped(node) && 1 <= node.height() <= levels + 1,
            Err(_) => true,
        },
    decreases levels,
{
    if view.rows() > 0 && !stops(view, levels, features, min_size) {
        match best_split(view, features) {
            Err(_) => {},
            Ok(rule) => {
                let next = handed_down(features, rule.dimension, reuse);
                let below = (levels - 1) as nat;
                let high = view.side(rule.dimension as int, rule.cutoff as int, true);
                let low = view.side(rule.dimension as int, rule.cutoff as int, false);
                lemma_grown_shape(high, below, next, min_size, reuse);
                lemma_grown_shape(low, below, next, min_size, reuse);
            },
        }
    }
}

/// A table whose rows are all of one class grows into a single leaf of
/// that class with confidence 1, however many levels are allowed.
pub proof fn lemma_single_class_leaf(
    view: TableView,
    levels: nat,
    features: Seq<usize>,
    min_size: nat,
    reuse: bool,
    class: u32,
)
    requires
        view.rows() > 0,
        class < view.classes,
        forall|i: int| 0 <= i < view.labels.len() ==> #[trigger] view.labels[i] == class,
    ensures
        grow(view, levels, features, min_size, reuse) == Ok::<Node<Decision>, BuildError>(
            leaf_node(
                (Decision {
                    rule: None,
                    confidence: (Ratio {
                        num: view.labels.len() as u64,
                        den: view.labels.len() as u64,
                    }),
                    prediction: class,
                }),
            ),
        ),
{
    lemma_single_class(view.labels, view.classes, class as nat);
}

/// With no level allowed to split, a table with rows grows into its root
/// leaf alone.
pub proof fn lemma_no_levels(view: TableView, features: Seq<usize>, min_size: nat, reuse: bool)
    requires
        view.rows() > 0,
    ensures
        grow(view, 0, features, min_size, reuse) == Ok::<Node<Decision>, BuildError>(
            leaf_node(majority_leaf(view.labels, view.classes)),
        ),
{
}

/// A larger `min_size` never makes the tree deeper: where the tree grows
/// with the smaller one, it grows with the larger one too, to at most the
/// same height.
pub proof fn lemma_min_size_monotone(
    view: TableView,
    levels: nat,
    features: Seq<usize>,
    small: nat,
    large: nat,
    reuse: bool,
)
    requires
        small <= large,
        grow(view, levels, features, small, reuse).is_ok(),
    ensures
        grow(view, levels, features, large, reuse).is_ok(),
        grow(view, levels, features, large, reuse).unwrap().height() <= grow(
            view,
            levels,
            features,
            small,
            reuse,
        ).unwrap().height(),
    decreases levels,
{
    lemma_grown_shape(view, levels, features, small, reuse);
    if !stops(view, levels, features, small) && !stops(view, levels, features, large) {
        let rule = best_split(view, features).unwrap();
        let next = handed_down(features, rule.dimension, reuse);
        let below = (levels - 1) as nat;
        let high = view.side(rule.dimension as int, rule.cutoff as int, true);
        let low = view.side(rule.dimension as int, rule.cutoff as int, false);
        lemma_min_size_monotone(high, below, next, small, large, reuse);
        lemma_min_size_monotone(low, below, next, small, large, reuse);
    }
}

/// The features that the children of a split on `used` may split by.
fn hand_down(features: &Vec<usize>, used: usize, reuse: bool) -> (next: Vec<usize>)
    ensures
        next@ == handed_down(features@, used, reuse),
{
    let mut next: Vec<usize> = Vec::new();
    let mut i: usize = 0;
    while i < features.len()
        invariant
            i <= features.len(),
            next@ == handed_down(features@.take(i as int), used, reuse),
        decreases features.len() - i,
    {
        proof {
            assert(features@.take(i + 1).drop_last() =~= features@.take(i as int));
        }
        if reuse || features[i] != used {
            next.push(features[i]);
        }
        i = i + 1;
    }
    proof {
        assert(features@.take(i as int) =~= features@);
    }
    next
}

/// The settings by which a decision tree is grown.
#[derive(Debug)]
pub struct DTreeBuilder {
    max_level: usize,
    min_size: usize,
    features: Vec<usize>,
    reuse_features: bool,
}

impl DTreeBuilder {
    /// The deepest level whose nodes may split; the root is on level 1.
    pub closed spec fn max_level(self) -> usize {
        self.max_level
    }

    /// A node splits only if it has more rows than this.
    pub closed spec fn min_size(self) -> usize {
        self.min_size
    }

    /// The feature columns to split by, in the order in which they are
    /// tried.
    pub closed spec fn features(self) -> Seq<usize> {
        self.features@
    }

    /// Whether a feature that a node split by may be used again below it.
    pub closed spec fn reuse_features(self) -> bool {
        self.reuse_features
    }

    /// A builder for the given features, with three levels, a minimum
    /// size of one row and no reuse of features.
    pub fn new(features: Vec<usize>) -> (builder: DTreeBuilder)
        ensures
            builder.max_level() == 3,
            builder.min_size() == 1,
            builder.features() == features@,
            !builder.reuse_features(),
    {
        DTreeBuilder { max_level: 3, min_size: 1, features, reuse_features: false }
    }

    /// Sets the deepest level whose nodes may split.
    pub fn set_max_level(self, max_level: usize) -> (builder: DTreeBuilder)
        ensures
            builder.max_level() == max_level,
            builder.min_size() == self.min_size(),
            builder.features() == self.features(),
            builder.reuse_features() == self.reuse_features(),
    {
        let mut builder = self;
        builder.max_level = max_level;
        builder
    }

    /// Sets the number of rows above which a node may split.
    pub fn set_min_size(self, min_size: usize) -> (builder: DTreeBuilder)
        ensures
            builder.max_level() == self.max_level(),
            builder.min_size() == min_size,
            builder.features() == self.features(),
            builder.reuse_features() == self.reuse_features(),
    {
        let mut builder = self;
        builder.min_size = min_size;
        builder
    }

    /// Sets whether a feature may be split by again below a node that split by it.
    pub fn set_reuse_features(self, reuse_features: bool) -> (builder: DTreeBuilder)
        ensures
            builder.max_level() == self.max_level(),
            builder.min_size() == self.min_size(),
            builder.features() == self.features(),
            builder.reuse_features() == reuse_features,
    {
        let mut builder = self;
        builder.reuse_features = reuse_features;
        builder
    }

    /// The tree that these settings grow from a table.
    pub open spec fn grown(self, view: TableView) -> Result<Node<Decision>, BuildError> {
        grow(
            view,
            self.max_level() as nat,
            self.features(),
            self.min_size() as nat,
            self.reuse_features(),
        )
    }

    /// Grows the node of a table and the nodes below it, as long as
    /// `levels` levels may split.
    fn build_node(&self, data: &Table, levels: usize, features: &Vec<usize>) -> (made: Result<
        Node<Decision>,
        BuildError,
    >)
        requires
            data@.wf(),
        ensures
            made == grow(
                data@,
                levels as nat,
                features@,
                self.min_size() as nat,
                self.reuse_features(),
            ),
        decreases levels,
    {
        let leaf = match predict_majority_dataframe(data) {
            Err(e) => {
                return Err(e);
            },
            Ok(leaf) => leaf,
        };
        let mut node = Node::new(leaf);
        if features.len() > 0 && !leaf.confidence.is_whole() && data.rows() > self.min_size
            && levels > 0 {
            let rule = match evaluate_best_split(data, features) {
                Err(e) => {
                    return Err(e);
                },
                Ok(rule) => rule,
            };
            let higher = data.side(rule.dimension, rule.cutoff, true);
            let lower = data.side(rule.dimension, rule.cutoff, false);
            let next = hand_down(features, rule.dimension, self.reuse_features);
            let left = match self.build_node(&higher, levels - 1, &next) {
                Err(e) => {
                    return Err(e);
                },
                Ok(left) => left,
            };
            let right = match self.build_node(&lower, levels - 1, &next) {
                Err(e) => {
                    return Err(e);
                },
                Ok(right) => right,
            };
            node.value.rule = Some(rule);
            node.left = Some(Box::new(left));
            node.right = Some(Box::new(right));
        }
        Ok(node)
    }

    /// Grows the tree from a table: all of it, or the first error met.
    pub fn build(&self, data: &Table) -> (made: Result<Tree<Decision>, BuildError>)
        requires
            data@.wf(),
        ensures
            match made {
                Ok(tree) => {
                    &&& self.grown(data@).is_ok()
                    &&& tree.root() == Some(self.grown(data@).unwrap())
                    &&& 1 <= tree.height() <= self.max_level() + 1
                    &&& self.max_level() < 32 ==> tree.ids_fit()
                },
                Err(e) => self.grown(data@) == Err::<Node<Decision>, BuildError>(e),
            },
    {
        match self.build_node(data, self.max_level, &self.features) {
            Err(e) => Err(e),
            Ok(root) => {
                let tree = Tree::from_node(root);
                proof {
                    lemma_grown_shape(
                        data@,
                        self.max_level as nat,
                        self.features@,
                        self.min_size as nat,
                        self.reuse_features,
                    );
                    if self.max_level < 32 {
                        tree.lemma_shallow_fits();
                    }
                }
                Ok(tree)
            },
        }
    }
}

impl Labeled for Decision {
    /// A node with a rule asks whether twice the feature's value reaches
    /// the cut; a leaf names its class and the share of it.
    open spec fn label_text(&self) -> Seq<char> {
        match self.rule {
            Some(rule) => "2 * x"@ + decimal_text(rule.dimension as nat) + " >= "@ + signed_text(
                rule.cutoff as int,
            ),
            None => "class "@ + decimal_text(self.prediction as nat) + " ("@ + decimal_text(
                self.confidence.num as nat,
            ) + "/"@ + decimal_text(self.confidence.den as nat) + ")"@,
        }
    }

    fn label(&self) -> (s: String) {
        match self.rule {
            Some(rule) => {
                let mut s = String::from_str("2 * x");
                let dimension = decimal(rule.dimension as u128);
                s.append(dimension.as_str());
                s.append(" >= ");
                let cutoff = signed(rule.cutoff);
                s.append(cutoff.as_str());
                s
            },
            None => {
                let mut s = String::from_str("class ");
                let class = decimal(self.prediction as u128);
                s.append(class.as_str());
                s.append(" (");
                let num = decimal(self.confidence.num as u128);
                s.append(num.as_str());
                s.append("/");
                let den = decimal(self.confidence.den as u128);
                s.append(den.as_str());
                s.append(")");
                s
            },
        }
    }
}

} // verus!
