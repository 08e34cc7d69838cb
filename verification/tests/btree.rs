use decision::btree::{Dot, Labeled, Node, Tree};

fn sample() -> Tree<i64> {
    let mut tree: Tree<i64> = Tree::new();
    for num in [6, 1, 0, 2, 5, 4, 9, 8, 3, 7] {
        tree.insert(num);
    }
    tree
}

#[test]
fn post_order() {
    let tree = sample();
    println!("{:?}", tree);
    let mut result: Vec<i64> = Vec::new();
    let mut walk = tree.post_order_iter();
    while let Some(x) = walk.next_item() {
        result.push(*x);
    }
    assert_eq!(result, vec![0, 1, 2, 3, 4, 5, 6, 7, 8, 9]);
}

#[test]
fn pre_order() {
    let tree = sample();
    println!("{:?}", tree);
    let mut result: Vec<i64> = Vec::new();
    let mut walk = tree.pre_order_iter();
    while let Some(x) = walk.next_item() {
        result.push(*x.value);
    }
    assert_eq!(result, vec![6, 9, 8, 7, 1, 2, 5, 4, 3, 0]);
}

#[test]
fn duplicates_are_dropped() {
    let mut tree: Tree<i64> = Tree::new();
    for num in [3, 1, 3, 2, 1, 2, 3] {
        tree.insert(num);
    }
    let mut result: Vec<i64> = Vec::new();
    let mut walk = tree.post_order_iter();
    while let Some(x) = walk.next_item() {
        result.push(*x);
    }
    assert_eq!(result, vec![1, 2, 3]);
    assert!(walk.next_item().is_none());
}

#[test]
fn empty_tree_yields_nothing() {
    let tree: Tree<i64> = Tree::new();
    assert!(tree.post_order_iter().next_item().is_none());
    assert!(tree.pre_order_iter().next_item().is_none());
}

#[test]
fn pre_order_tags_ids_levels_and_leaves() {
    let tree = sample();
    let mut seen: Vec<(usize, usize, i64, bool)> = Vec::new();
    let mut walk = tree.pre_order_iter();
    while let Some(x) = walk.next_item() {
        seen.push((x.id, x.level, *x.value, x.leaf));
    }
    assert_eq!(
        seen,
        vec![
            (1, 1, 6, false),
            (3, 2, 9, false),
            (6, 3, 8, false),
            (12, 4, 7, true),
            (2, 2, 1, false),
            (5, 3, 2, false),
            (11, 4, 5, false),
            (22, 5, 4, false),
            (44, 6, 3, true),
            (4, 3, 0, true),
        ]
    );
}

#[test]
fn from_node_keeps_the_given_shape() {
    let mut root = Node::new(5i64);
    root.left = Some(Box::new(Node::new(9)));
    let tree = Tree::from_node(root);
    let mut seen: Vec<(usize, i64, bool)> = Vec::new();
    let mut walk = tree.pre_order_iter();
    while let Some(x) = walk.next_item() {
        seen.push((x.id, *x.value, x.leaf));
    }
    assert_eq!(seen, vec![(1, 5, false), (2, 9, true)]);
    let mut values: Vec<i64> = Vec::new();
    let mut walk = tree.post_order_iter();
    while let Some(x) = walk.next_item() {
        values.push(*x);
    }
    assert_eq!(values, vec![9, 5]);
}

#[test]
fn dot_dump_of_three_nodes() {
    let mut tree: Tree<i64> = Tree::new();
    for num in [2, 1, 3] {
        tree.insert(num);
    }
    let text = tree.dot_dump("yes", "no");
    let expected = [
        "digraph {",
        "rankdir = BT;",
        "subgraph{",
        "node1 [label=\"2\", shape=\"box\"];",
        "node3 [label=\"3\", shape=\"box\", style=\"rounded,filled\", fillcolor=\"green\"];",
        "node2 [label=\"1\", shape=\"box\", style=\"rounded,filled\", fillcolor=\"green\"];",
        "node1 -> node3 [label=\"no\"];",
        "node1 -> node2 [label=\"yes\"];",
        "{rank = same; node1;}",
        "{rank = same; node3; node2;}",
        "}",
        "}",
    ]
    .join("\n");
    assert_eq!(text, expected);
}

#[test]
fn dot_dump_counts_records() {
    let tree = sample();
    let text = tree.dot_dump("<", ">");
    let lines: Vec<&str> = text.lines().collect();
    let nodes = lines.iter().filter(|l| l.contains("[label=") && !l.contains("->")).count();
    let edges = lines.iter().filter(|l| l.contains("->")).count();
    let ranks = lines.iter().filter(|l| l.starts_with("{rank = same;")).count();
    let leaves = lines.iter().filter(|l| l.contains("fillcolor=\"green\"")).count();
    assert_eq!(nodes, 10);
    assert_eq!(edges, 9);
    assert_eq!(ranks, 6);
    assert_eq!(leaves, 3);
}

#[test]
fn dot_dump_of_empty_tree() {
    let tree: Tree<i64> = Tree::new();
    assert_eq!(tree.dot_dump("a", "b"), "digraph {\nrankdir = BT;\nsubgraph{\n}\n}");
}

#[test]
fn dot_records_and_ranks() {
    let mut dot = Dot::new();
    dot.add_node("a".to_string(), "A".to_string(), "box".to_string(), None, None);
    dot.add_node(
        "b".to_string(),
        "B".to_string(),
        "oval".to_string(),
        Some("filled".to_string()),
        Some("red".to_string()),
    );
    dot.add_edge("a".to_string(), "b".to_string(), "to".to_string());
    dot.append_rank(2, "b".to_string());
    dot.append_rank(0, "a".to_string());
    dot.append_rank(2, "c".to_string());
    let expected = [
        "digraph {",
        "rankdir = BT;",
        "subgraph{",
        "a [label=\"A\", shape=\"box\"];",
        "b [label=\"B\", shape=\"oval\", style=\"filled\", fillcolor=\"red\"];",
        "a -> b [label=\"to\"];",
        "{rank = same; a;}",
        "{rank = same; ;}",
        "{rank = same; b; c;}",
        "}",
        "}",
    ]
    .join("\n");
    assert_eq!(dot.to_string(), expected);
}

#[test]
fn labels_of_numbers() {
    assert_eq!(0i64.label(), "0");
    assert_eq!(7i64.label(), "7");
    assert_eq!(1203i64.label(), "1203");
    assert_eq!((-45i64).label(), "-45");
    assert_eq!(i64::MIN.label(), "-9223372036854775808");
    assert_eq!(i64::MAX.label(), "9223372036854775807");
}

fn left_chain(levels: usize) -> Tree<i64> {
    let mut node = Node::new(0i64);
    for value in 1..levels {
        let mut parent = Node::new(value as i64);
        parent.left = Some(Box::new(node));
        node = parent;
    }
    Tree::from_node(node)
}

fn right_chain(levels: usize) -> Tree<i64> {
    let mut node = Node::new(0i64);
    for value in 1..levels {
        let mut parent = Node::new(value as i64);
        parent.right = Some(Box::new(node));
        node = parent;
    }
    Tree::from_node(node)
}

#[test]
fn ids_fit_up_to_one_level_per_bit() {
    let bits = usize::BITS as usize;
    assert!(Tree::<i64>::new().fits());
    assert!(sample().fits());
    assert!(left_chain(bits).fits());
    assert!(right_chain(bits).fits());
    assert!(!left_chain(bits + 1).fits());
    assert!(!right_chain(bits + 1).fits());
}

#[test]
fn deepest_ids_of_chains() {
    let bits = usize::BITS as usize;
    let tree = right_chain(bits);
    let mut walk = tree.pre_order_iter();
    let mut last = (0usize, 0usize);
    while let Some(item) = walk.next_item() {
        last = (item.id, item.level);
    }
    assert_eq!(last, (usize::MAX, bits));
    let tree = left_chain(bits);
    let mut walk = tree.breadth_iter();
    let mut last = (0usize, 0usize);
    while let Some(item) = walk.next_item() {
        last = (item.id, item.level);
    }
    assert_eq!(last, (1usize << (bits - 1), bits));
}

#[test]
fn in_order_walk_of_a_deep_tree() {
    let tree = left_chain(3000);
    let mut walk = tree.depth_iter();
    let mut expected = 0i64;
    while let Some(value) = walk.next_item() {
        assert_eq!(*value, expected);
        expected += 1;
    }
    assert_eq!(expected, 3000);
}

#[test]
fn insert_descends_by_order_in_any_tree() {
    // 1 stands to the right of 5: no search tree
    let mut root = Node::new(5i64);
    root.right = Some(Box::new(Node::new(1)));
    let mut tree = Tree::from_node(root);
    tree.insert(3);
    tree.insert(7);
    let mut seen: Vec<(usize, i64)> = Vec::new();
    let mut walk = tree.pre_order_iter();
    while let Some(x) = walk.next_item() {
        seen.push((x.id, *x.value));
    }
    assert_eq!(seen, vec![(1, 5), (3, 1), (7, 7), (2, 3)]);
}
