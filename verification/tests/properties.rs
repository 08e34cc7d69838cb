use decision::btree::Tree;
use decision::{estimate_gini, evaluate_metric, DTreeBuilder, Table};

/// A small generator of numbers that look random and are the same in
/// every run.
struct Numbers(u64);

impl Numbers {
    fn next(&mut self, below: u64) -> u64 {
        self.0 = self.0.wrapping_mul(6364136223846793005).wrapping_add(1442695040888963407);
        (self.0 >> 33) % below
    }
}

fn rows_of(t: &Table) -> Vec<(Vec<i64>, u32)> {
    (0..t.rows())
        .map(|i| {
            let features = (0..t.width()).map(|c| t.column(c).unwrap()[i]).collect();
            (features, t.labels()[i])
        })
        .collect()
}

fn random_table(numbers: &mut Numbers, rows: usize, width: usize, classes: usize) -> Table {
    let columns = (0..width)
        .map(|_| (0..rows).map(|_| numbers.next(9) as i64 - 4).collect())
        .collect();
    let labels = (0..rows).map(|_| numbers.next(classes as u64) as u32).collect();
    Table::new(columns, labels, classes).unwrap()
}

#[test]
fn in_order_is_the_sorted_input_without_duplicates() {
    let mut numbers = Numbers(7);
    for round in 0..50 {
        let len = numbers.next(40) as usize + round % 3;
        let input: Vec<i64> = (0..len).map(|_| numbers.next(30) as i64 - 15).collect();
        let mut tree: Tree<i64> = Tree::new();
        for v in &input {
            tree.insert(*v);
        }
        let mut seen: Vec<i64> = Vec::new();
        let mut walk = tree.post_order_iter();
        while let Some(v) = walk.next_item() {
            seen.push(*v);
        }
        let mut expected = input.clone();
        expected.sort();
        expected.dedup();
        assert_eq!(seen, expected);
    }
}

#[test]
fn pre_order_visits_every_node_once_with_its_parent_before_it() {
    let mut numbers = Numbers(11);
    for _ in 0..30 {
        let len = numbers.next(25) as usize;
        let mut tree: Tree<i64> = Tree::new();
        let mut distinct: Vec<i64> = Vec::new();
        for _ in 0..len {
            let v = numbers.next(50) as i64;
            tree.insert(v);
            if !distinct.contains(&v) {
                distinct.push(v);
            }
        }
        let mut ids: Vec<usize> = Vec::new();
        let mut walk = tree.pre_order_iter();
        while let Some(item) = walk.next_item() {
            assert!(item.id == 1 || ids.contains(&(item.id / 2)));
            assert!(!ids.contains(&item.id));
            assert_eq!(item.level as u32, usize::BITS - item.id.leading_zeros());
            ids.push(item.id);
        }
        assert_eq!(ids.len(), distinct.len());
    }
}

#[test]
fn every_split_shares_out_every_row_once() {
    let mut numbers = Numbers(3);
    for _ in 0..40 {
        let rows = numbers.next(30) as usize;
        let t = random_table(&mut numbers, rows, 3, 4);
        let feature = numbers.next(3) as usize;
        let mut cuts: Vec<i128> =
            evaluate_metric(&t, feature).unwrap().iter().map(|s| s.split).collect();
        cuts.push(numbers.next(30) as i128 - 15);
        for cut in cuts {
            let high = t.side(feature, cut, true);
            let low = t.side(feature, cut, false);
            for row in rows_of(&high) {
                assert!(2 * row.0[feature] as i128 >= cut);
            }
            for row in rows_of(&low) {
                assert!((2 * row.0[feature] as i128) < cut);
            }
            let mut parts = rows_of(&high);
            parts.extend(rows_of(&low));
            let mut all = rows_of(&t);
            assert_eq!(parts.len(), all.len());
            parts.sort();
            all.sort();
            assert_eq!(parts, all);
        }
    }
}

#[test]
fn candidate_cuts_leave_rows_on_both_sides() {
    let mut numbers = Numbers(5);
    for _ in 0..40 {
        let rows = numbers.next(20) as usize + 1;
        let t = random_table(&mut numbers, rows, 2, 3);
        for feature in 0..2 {
            let mut distinct = t.column(feature).unwrap().clone();
            distinct.sort();
            distinct.dedup();
            let scores = evaluate_metric(&t, feature).unwrap();
            assert_eq!(scores.len(), distinct.len() - 1);
            for (i, score) in scores.iter().enumerate() {
                assert_eq!(score.split, (distinct[i] + distinct[i + 1]) as i128);
                let high = t.side(feature, score.split, true).rows() as u64;
                let low = t.side(feature, score.split, false).rows() as u64;
                assert!(high > 0 && low > 0);
                assert_eq!(score.metric.den, high * low * (high + low));
                assert!(score.metric.num <= score.metric.den);
            }
        }
    }
}

#[test]
fn gini_lies_between_zero_and_one_less_the_share_of_a_class() {
    let mut numbers = Numbers(13);
    for _ in 0..60 {
        let rows = numbers.next(40) as usize + 1;
        let classes = numbers.next(6) as usize + 1;
        let t = random_table(&mut numbers, rows, 0, classes);
        let mut observed: Vec<u32> = t.labels().clone();
        observed.sort();
        observed.dedup();
        let k = observed.len() as u64;
        let g = estimate_gini(&t);
        assert_eq!(g.den, (rows * rows) as u64);
        assert!(g.num <= g.den);
        assert!(k * g.num <= (k - 1) * g.den);
        assert_eq!(g.num == 0, k == 1);
    }
}

#[test]
fn grown_trees_are_leaves_exactly_where_no_rule_stands() {
    let mut numbers = Numbers(17);
    for _ in 0..25 {
        let rows = numbers.next(30) as usize + 1;
        let t = random_table(&mut numbers, rows, 3, 3);
        let max_level = numbers.next(5) as usize;
        let built = DTreeBuilder::new(vec![0, 1, 2])
            .set_max_level(max_level)
            .set_reuse_features(numbers.next(2) == 1)
            .build(&t);
        // rows that agree in every feature and differ in class cannot be split
        let tree = match built {
            Ok(tree) => tree,
            Err(e) => {
                assert_eq!(e, decision::BuildError::EmptyPartition);
                continue;
            },
        };
        let mut nodes = 0usize;
        let mut leaves = 0usize;
        let mut walk = tree.pre_order_iter();
        while let Some(item) = walk.next_item() {
            assert_eq!(item.value.rule.is_none(), item.leaf);
            assert!(item.level <= max_level + 1);
            assert!(item.value.confidence.num > 0);
            assert!(item.value.confidence.num <= item.value.confidence.den);
            nodes += 1;
            if item.leaf {
                leaves += 1;
            }
        }
        // every node with a rule has two children
        assert_eq!(nodes, 2 * leaves - 1);
    }
}

#[test]
fn larger_min_size_never_deepens_random_tables() {
    let mut numbers = Numbers(19);
    for _ in 0..15 {
        let rows = numbers.next(30) as usize + 1;
        let t = random_table(&mut numbers, rows, 2, 2);
        let mut last: Option<usize> = None;
        for min_size in 0..rows + 1 {
            let built = DTreeBuilder::new(vec![0, 1])
                .set_max_level(4)
                .set_reuse_features(true)
                .set_min_size(min_size)
                .build(&t);
            match built {
                Err(_) => {
                    // a tree that grows for a smaller minimum grows for a larger one
                    assert!(last.is_none());
                },
                Ok(tree) => {
                    let mut depth = 0usize;
                    let mut walk = tree.pre_order_iter();
                    while let Some(item) = walk.next_item() {
                        depth = depth.max(item.level);
                    }
                    if let Some(before) = last {
                        assert!(depth <= before);
                    }
                    last = Some(depth);
                },
            }
        }
        assert_eq!(last, Some(1));
    }
}
