use decision::btree::{Node, Tree};
use decision::table::MAX_ROWS;
use decision::{
    estimate_gini, evaluate_best_split, evaluate_metric, predict_majority_dataframe, BuildError,
    DTreeBuilder, Decision, Ratio, Rule, SplitScore, Table,
};

fn table(columns: Vec<Vec<i64>>, labels: Vec<u32>, classes: usize) -> Table {
    Table::new(columns, labels, classes).unwrap()
}

fn staircase() -> Table {
    table(vec![vec![1, 2, 3, 4]], vec![0, 0, 1, 1], 2)
}

fn nodes(tree: &Tree<Decision>) -> Vec<(usize, usize, Decision, bool)> {
    let mut out = Vec::new();
    let mut walk = tree.pre_order_iter();
    while let Some(item) = walk.next_item() {
        out.push((item.id, item.level, *item.value, item.leaf));
    }
    out
}

fn depth(tree: &Tree<Decision>) -> usize {
    nodes(tree).iter().map(|n| n.1).max().unwrap_or(0)
}

#[test]
fn table_refuses_ragged_columns() {
    assert_eq!(
        Table::new(vec![vec![1, 2], vec![1]], vec![0, 0], 1).unwrap_err(),
        BuildError::Schema
    );
}

#[test]
fn table_refuses_unknown_class() {
    assert_eq!(Table::new(vec![vec![1, 2]], vec![0, 2], 2).unwrap_err(), BuildError::Schema);
}

#[test]
fn table_refuses_too_many_rows() {
    let labels = vec![0u32; MAX_ROWS + 1];
    assert_eq!(Table::new(vec![], labels, 1).unwrap_err(), BuildError::TooManyRows);
    let labels = vec![0u32; MAX_ROWS + 1];
    assert_eq!(Table::new(vec![vec![]], labels, 0).unwrap_err(), BuildError::TooManyRows);
    let labels = vec![0u32; MAX_ROWS];
    assert_eq!(Table::new(vec![], labels, 1).unwrap().rows(), MAX_ROWS);
}

#[test]
fn table_reports_its_shape() {
    let t = table(vec![vec![1, 2, 3], vec![4, 5, 6]], vec![0, 1, 0], 2);
    assert_eq!(t.rows(), 3);
    assert_eq!(t.width(), 2);
    assert_eq!(t.classes(), 2);
    assert_eq!(t.labels(), &vec![0, 1, 0]);
    assert_eq!(t.column(1).unwrap(), &vec![4, 5, 6]);
    assert_eq!(t.column(2).unwrap_err(), BuildError::Schema);
}

#[test]
fn sides_share_out_every_row_once() {
    let t = table(vec![vec![5, 1, 3, 3, 9], vec![10, 20, 30, 40, 50]], vec![0, 1, 2, 0, 1], 3);
    let high = t.side(0, 6, true);
    let low = t.side(0, 6, false);
    assert_eq!(high.column(0).unwrap(), &vec![5, 3, 3, 9]);
    assert_eq!(high.column(1).unwrap(), &vec![10, 30, 40, 50]);
    assert_eq!(high.labels(), &vec![0, 2, 0, 1]);
    assert_eq!(low.column(0).unwrap(), &vec![1]);
    assert_eq!(low.column(1).unwrap(), &vec![20]);
    assert_eq!(low.labels(), &vec![1]);
    assert_eq!(high.rows() + low.rows(), t.rows());
}

#[test]
fn side_at_an_odd_cut() {
    let t = table(vec![vec![-3, -2, 0]], vec![0, 0, 0], 1);
    let high = t.side(0, -5, true);
    let low = t.side(0, -5, false);
    assert_eq!(high.column(0).unwrap(), &vec![-2, 0]);
    assert_eq!(low.column(0).unwrap(), &vec![-3]);
}

#[test]
fn gini_of_even_mix() {
    assert_eq!(estimate_gini(&staircase()), Ratio { num: 8, den: 16 });
}

#[test]
fn gini_of_three_classes() {
    let t = table(vec![], vec![0, 1, 1, 2, 2, 2], 3);
    assert_eq!(estimate_gini(&t), Ratio { num: 36 - 14, den: 36 });
}

#[test]
fn gini_of_pure_partition_is_zero() {
    let t = table(vec![], vec![1, 1, 1], 2);
    assert_eq!(estimate_gini(&t), Ratio { num: 0, den: 9 });
}

#[test]
fn gini_of_no_rows_is_one() {
    let t = table(vec![vec![]], vec![], 2);
    assert_eq!(estimate_gini(&t), Ratio { num: 1, den: 1 });
}

#[test]
fn gini_stays_within_bounds() {
    let t = table(vec![], vec![0, 1, 2, 3, 3, 3, 1], 5);
    let g = estimate_gini(&t);
    let k = 4u64;
    assert!(g.num <= g.den);
    assert!(k * g.num <= (k - 1) * g.den);
}

#[test]
fn majority_and_confidence() {
    let t = table(vec![], vec![2, 0, 2, 1, 2], 3);
    assert_eq!(
        predict_majority_dataframe(&t),
        Ok(Decision { rule: None, confidence: Ratio { num: 3, den: 5 }, prediction: 2 })
    );
}

#[test]
fn majority_tie_takes_smallest_code() {
    let t = table(vec![], vec![3, 1, 3, 1], 4);
    assert_eq!(
        predict_majority_dataframe(&t),
        Ok(Decision { rule: None, confidence: Ratio { num: 2, den: 4 }, prediction: 1 })
    );
}

#[test]
fn majority_of_no_rows_fails() {
    let t = table(vec![], vec![], 3);
    assert_eq!(predict_majority_dataframe(&t), Err(BuildError::EmptyPartition));
}

#[test]
fn metric_of_each_cut() {
    assert_eq!(
        evaluate_metric(&staircase(), 0),
        Ok(vec![
            SplitScore { split: 3, metric: Ratio { num: 4, den: 12 } },
            SplitScore { split: 5, metric: Ratio { num: 0, den: 16 } },
            SplitScore { split: 7, metric: Ratio { num: 4, den: 12 } },
        ])
    );
}

#[test]
fn metric_sorts_and_collapses_values() {
    let t = table(vec![vec![7, -1, 7, 2, -1]], vec![0, 1, 0, 1, 1], 2);
    let scores = evaluate_metric(&t, 0).unwrap();
    let cuts: Vec<i128> = scores.iter().map(|s| s.split).collect();
    assert_eq!(cuts, vec![1, 9]);
    assert_eq!(scores[1].metric, Ratio { num: 0, den: 2 * 3 * 5 });
    // cut 1: high = [0, 0, 1] (7, 7, 2), low = [1, 1]
    assert_eq!(scores[0].metric, Ratio { num: (9 - 5) * 2, den: 3 * 2 * 5 });
}

#[test]
fn metric_of_constant_column_is_empty() {
    let t = table(vec![vec![4, 4, 4]], vec![0, 1, 0], 2);
    assert_eq!(evaluate_metric(&t, 0), Ok(vec![]));
}

#[test]
fn metric_of_missing_column_fails() {
    assert_eq!(evaluate_metric(&staircase(), 1), Err(BuildError::Schema));
}

#[test]
fn metric_with_extreme_values() {
    let t = table(vec![vec![i64::MAX, i64::MIN, i64::MAX - 1]], vec![0, 1, 0], 2);
    let scores = evaluate_metric(&t, 0).unwrap();
    assert_eq!(scores[0].split, i64::MIN as i128 + (i64::MAX - 1) as i128);
    assert_eq!(scores[1].split, 2 * (i64::MAX as i128) - 1);
    assert_eq!(scores[0].metric, Ratio { num: 0, den: 2 * 1 * 3 });
}

#[test]
fn best_split_takes_least_impurity() {
    assert_eq!(
        evaluate_best_split(&staircase(), &vec![0]),
        Ok(Rule { dimension: 0, cutoff: 5, metric: Ratio { num: 0, den: 16 } })
    );
}

#[test]
fn best_split_ties_go_to_first_feature_then_lowest_cut() {
    let t = table(vec![vec![1, 2, 3, 4], vec![10, 20, 30, 40]], vec![0, 0, 1, 1], 2);
    assert_eq!(evaluate_best_split(&t, &vec![1, 0]).unwrap().dimension, 1);
    assert_eq!(evaluate_best_split(&t, &vec![0, 1]).unwrap().dimension, 0);
    let flat = table(vec![vec![1, 2, 3]], vec![0, 1, 0], 2);
    // both cuts leave the impurity 2/6: one side is pure, the other an even mix of two rows
    assert_eq!(
        evaluate_metric(&flat, 0),
        Ok(vec![
            SplitScore { split: 3, metric: Ratio { num: 2, den: 6 } },
            SplitScore { split: 5, metric: Ratio { num: 2, den: 6 } },
        ])
    );
    assert_eq!(
        evaluate_best_split(&flat, &vec![0]),
        Ok(Rule { dimension: 0, cutoff: 3, metric: Ratio { num: 2, den: 6 } })
    );
}

#[test]
fn best_split_of_unknown_feature_fails() {
    assert_eq!(evaluate_best_split(&staircase(), &vec![0, 3]), Err(BuildError::Schema));
}

#[test]
fn best_split_without_candidates_fails() {
    let t = table(vec![vec![4, 4]], vec![0, 1], 2);
    assert_eq!(evaluate_best_split(&t, &vec![0]), Err(BuildError::EmptyPartition));
    assert_eq!(evaluate_best_split(&staircase(), &vec![]), Err(BuildError::EmptyPartition));
}

#[test]
fn ratio_comparison() {
    let third = Ratio { num: 1, den: 3 };
    let half = Ratio { num: 8, den: 16 };
    assert!(third.less_than(&half));
    assert!(!half.less_than(&third));
    assert!(!half.less_than(&Ratio { num: 1, den: 2 }));
    assert!(Ratio { num: 1, den: u64::MAX }.less_than(&Ratio { num: u64::MAX, den: u64::MAX }));
    assert!(Ratio { num: 5, den: 5 }.is_whole());
    assert!(!third.is_whole());
}

#[test]
fn single_class_gives_one_node() {
    let t = table(vec![vec![1, 2, 3]], vec![1, 1, 1], 2);
    for max_level in [0usize, 1, 3, 50] {
        let tree = DTreeBuilder::new(vec![0]).set_max_level(max_level).build(&t).unwrap();
        assert_eq!(
            nodes(&tree),
            vec![(
                1,
                1,
                Decision { rule: None, confidence: Ratio { num: 3, den: 3 }, prediction: 1 },
                true
            )]
        );
    }
}

#[test]
fn no_levels_gives_root_leaf() {
    let tree = DTreeBuilder::new(vec![0]).set_max_level(0).build(&staircase()).unwrap();
    assert_eq!(
        nodes(&tree),
        vec![(
            1,
            1,
            Decision { rule: None, confidence: Ratio { num: 2, den: 4 }, prediction: 0 },
            true
        )]
    );
}

#[test]
fn one_split_separates_two_classes() {
    let tree = DTreeBuilder::new(vec![0]).build(&staircase()).unwrap();
    let rule = Rule { dimension: 0, cutoff: 5, metric: Ratio { num: 0, den: 16 } };
    assert_eq!(
        nodes(&tree),
        vec![
            (
                1,
                1,
                Decision { rule: Some(rule), confidence: Ratio { num: 2, den: 4 }, prediction: 0 },
                false
            ),
            (
                3,
                2,
                Decision { rule: None, confidence: Ratio { num: 2, den: 2 }, prediction: 0 },
                true
            ),
            (
                2,
                2,
                Decision { rule: None, confidence: Ratio { num: 2, den: 2 }, prediction: 1 },
                true
            ),
        ]
    );
}

fn zigzag() -> Table {
    table(
        vec![vec![1, 2, 3, 4, 5, 6, 7, 8], vec![0, 1, 0, 1, 0, 1, 0, 1]],
        vec![0, 1, 0, 0, 1, 1, 0, 1],
        2,
    )
}

#[test]
fn larger_min_size_never_deepens() {
    let mut last = usize::MAX;
    for min_size in 0..10usize {
        let tree = DTreeBuilder::new(vec![0, 1])
            .set_reuse_features(true)
            .set_max_level(6)
            .set_min_size(min_size)
            .build(&zigzag())
            .unwrap();
        let d = depth(&tree);
        assert!(d <= last);
        last = d;
    }
    assert_eq!(last, 1);
}

#[test]
fn depth_is_bounded_by_levels() {
    for max_level in 0..5usize {
        let tree = DTreeBuilder::new(vec![0, 1])
            .set_reuse_features(true)
            .set_max_level(max_level)
            .build(&zigzag())
            .unwrap();
        assert!(depth(&tree) <= max_level + 1);
    }
}

#[test]
fn used_feature_is_not_tried_again() {
    let t = table(vec![vec![1, 2, 3, 4]], vec![0, 1, 0, 1], 2);
    let once = DTreeBuilder::new(vec![0]).set_max_level(5).build(&t).unwrap();
    assert_eq!(depth(&once), 2);
    let again = DTreeBuilder::new(vec![0]).set_max_level(5).set_reuse_features(true).build(&t).unwrap();
    assert!(depth(&again) > 2);
    for (_, _, decision, leaf) in nodes(&again) {
        assert_eq!(decision.rule.is_none(), leaf);
    }
}

#[test]
fn build_fails_on_empty_table() {
    let t = table(vec![vec![]], vec![], 2);
    assert_eq!(DTreeBuilder::new(vec![0]).build(&t).unwrap_err(), BuildError::EmptyPartition);
}

#[test]
fn build_fails_on_unknown_feature() {
    assert_eq!(DTreeBuilder::new(vec![4]).build(&staircase()).unwrap_err(), BuildError::Schema);
}

#[test]
fn build_fails_where_no_split_exists() {
    let t = table(vec![vec![4, 4]], vec![0, 1], 2);
    assert_eq!(DTreeBuilder::new(vec![0]).build(&t).unwrap_err(), BuildError::EmptyPartition);
}

#[test]
fn decision_tree_is_drawn() {
    let tree = DTreeBuilder::new(vec![0]).build(&staircase()).unwrap();
    let text = tree.dot_dump("yes", "no");
    let expected = [
        "digraph {",
        "rankdir = BT;",
        "subgraph{",
        "node1 [label=\"2 * x0 >= 5\", shape=\"box\"];",
        "node3 [label=\"class 0 (2/2)\", shape=\"box\", style=\"rounded,filled\", fillcolor=\"green\"];",
        "node2 [label=\"class 1 (2/2)\", shape=\"box\", style=\"rounded,filled\", fillcolor=\"green\"];",
        "node1 -> node3 [label=\"no\"];",
        "node1 -> node2 [label=\"yes\"];",
        "{rank = same; node1;}",
        "{rank = same; node3; node2;}",
        "}",
        "}",
    ]
    .join("\n");
    assert_eq!(text, expected);
}

#[test]
fn node_new_has_no_children() {
    let node = Node::new(3u8);
    assert_eq!(node.value, 3);
    assert!(node.left.is_none());
    assert!(node.right.is_none());
}
