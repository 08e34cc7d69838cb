//! The search for the split of a table that leaves the least impurity.

use vstd::prelude::*;
use crate::ratio::Ratio;
use crate::rule::Rule;
use crate::table::{Table, TableView, BuildError, MAX_ROWS, labels_below, pick, picked, on_side,
    lemma_pick_shape, lemma_pick_partition};
use crate::impurity::{gini, gini_num, gini_den, square_sum, count_sum, lemma_square_bounds,
    lemma_count_total};

verus! {

/// Every element is smaller than all later ones.
pub open spec fn increasing(s: Seq<i64>) -> bool {
    forall|i: int, j: int| 0 <= i < j < s.len() ==> #[trigger] s[i] < #[trigger] s[j]
}

/// The increasing sequence `s` with `x` at its place; unchanged if it
/// holds `x` already.
pub open spec fn with_value(s: Seq<i64>, x: i64) -> Seq<i64>
    decreases s.len(),
{
    if s.len() == 0 {
        seq![x]
    } else if s.last() < x {
        s.push(x)
    } else if s.last() == x {
        s
    } else {
        with_value(s.drop_last(), x).push(s.last())
    }
}

/// The values of a column in increasing order, each once.
pub open spec fn distinct_values(col: Seq<i64>) -> Seq<i64>
    decreases col.len(),
{
    if col.len() == 0 {
        Seq::empty()
    } else {
        with_value(distinct_values(col.drop_last()), col.last())
    }
}

/// The candidate cuts of a column: for each two neighbours among its
/// distinct values their sum, which is twice their mean.
pub open spec fn cuts(col: Seq<i64>) -> Seq<int> {
    let d = distinct_values(col);
    Seq::new((if d.len() == 0 { 0 } else { d.len() - 1 }) as nat, |i: int| d[i] + d[i + 1])
}

/// The numerator of the impurity of two sides, weighted by their sizes:
/// `(n_h * gini_h + n_l * gini_l) / (n_h + n_l)` over `weighted_den`, for
/// sides that both have rows.
pub open spec fn weighted_num(high: Seq<u32>, low: Seq<u32>, k: nat) -> int {
    gini_num(high, k) * low.len() + gini_num(low, k) * high.len()
}

/// The denominator that goes with `weighted_num`.
pub open spec fn weighted_den(high: Seq<u32>, low: Seq<u32>) -> int {
    (high.len() * low.len() * (high.len() + low.len())) as int
}

/// The weighted impurity of the two sides of a cut through a feature.
pub open spec fn split_score(view: TableView, feature: int, cut: int) -> Ratio {
    let high = pick(view.labels, view.columns[feature], cut, true);
    let low = pick(view.labels, view.columns[feature], cut, false);
    Ratio {
        num: weighted_num(high, low, view.classes) as u64,
        den: weighted_den(high, low) as u64,
    }
}

/// Placing a value keeps a sequence increasing and adds that value and
/// no other.
pub proof fn lemma_with_value(s: Seq<i64>, x: i64)
    requires
        increasing(s),
    ensures
        increasing(with_value(s, x)),
        forall|w: i64|
            #![trigger with_value(s, x).contains(w)]
            with_value(s, x).contains(w) <==> s.contains(w) || w == x,
    decreases s.len(),
{
    let p = with_value(s, x);
    if s.len() == 0 {
        assert(p[0] == x);
    } else if s.last() < x {
        assert(p[s.len() as int] == x);
        assert forall|w: i64| #![trigger p.contains(w)] p.contains(w) <==> s.contains(w) || w
            == x by {
            if s.contains(w) {
                let k = choose|k: int| 0 <= k < s.len() && s[k] == w;
                assert(p[k] == w);
            }
            if p.contains(w) {
                let k = choose|k: int| 0 <= k < p.len() && p[k] == w;
                if k < s.len() {
                    assert(s[k] == w);
                }
            }
        }
    } else if s.last() == x {
        assert(s[s.len() - 1] == x);
    } else {
        let front = s.drop_last();
        let q = with_value(front, x);
        assert forall|i: int, j: int| 0 <= i < j < front.len() implies #[trigger] front[i]
            < #[trigger] front[j] by {
            assert(front[i] == s[i] && front[j] == s[j]);
        }
        lemma_with_value(front, x);
        assert forall|i: int| 0 <= i < q.len() implies #[trigger] q[i] < s.last() by {
            assert(q.contains(q[i]));
            if front.contains(q[i]) {
                let k = choose|k: int| 0 <= k < front.len() && front[k] == q[i];
                assert(s[k] < s[s.len() - 1]);
            }
        }
        assert forall|w: i64| #![trigger p.contains(w)] p.contains(w) <==> s.contains(w) || w
            == x by {
            if s.contains(w) {
                let k = choose|k: int| 0 <= k < s.len() && s[k] == w;
                if k < front.len() {
                    assert(front[k] == w);
                    assert(front.contains(w));
                    assert(q.contains(w));
                    let m = choose|m: int| 0 <= m < q.len() && q[m] == w;
                    assert(p[m] == w);
                } else {
                    assert(p[q.len() as int] == w);
                }
            }
            if w == x {
                assert(q.contains(w));
                let m = choose|m: int| 0 <= m < q.len() && q[m] == w;
                assert(p[m] == w);
            }
            if p.contains(w) {
                let k = choose|k: int| 0 <= k < p.len() && p[k] == w;
                if k < q.len() {
                    assert(q[k] == w);
                    assert(q.contains(w));
                    if front.contains(w) {
                        let m = choose|m: int| 0 <= m < front.len() && front[m] == w;
                        assert(s[m] == w);
                    }
                } else {
                    assert(s[s.len() - 1] == w);
                }
            }
        }
    }
}

/// The distinct values of a column are increasing and are the values that
/// the column holds.
pub proof fn lemma_distinct_values(col: Seq<i64>)
    ensures
        increasing(distinct_values(col)),
        forall|w: i64| #[trigger] distinct_values(col).contains(w) <==> col.contains(w),
    decreases col.len(),
{
    if col.len() > 0 {
        let front = col.drop_last();
        lemma_distinct_values(front);
        lemma_with_value(distinct_values(front), col.last());
        assert forall|w: i64| #[trigger] distinct_values(col).contains(w) <==> col.contains(w) by {
            if col.contains(w) {
                let k = choose|k: int| 0 <= k < col.len() && col[k] == w;
                if k < front.len() {
                    assert(front[k] == w);
                    assert(front.contains(w));
                }
            }
            if front.contains(w) {
                let k = choose|k: int| 0 <= k < front.len() && front[k] == w;
                assert(col[k] == w);
            }
            assert(col[col.len() - 1] == col.last());
        }
    }
}

/// Where `x` goes among the elements of `s`: behind `k` of them, all
/// later ones being larger.
proof fn lemma_with_value_at(s: Seq<i64>, x: i64, k: int)
    requires
        0 <= k <= s.len(),
        forall|j: int| k <= j < s.len() ==> #[trigger] s[j] > x,
        k == 0 || s[k - 1] <= x,
    ensures
        with_value(s, x) == if k > 0 && s[k - 1] == x {
            s
        } else {
            s.insert(k, x)
        },
    decreases s.len(),
{
    if s.len() == 0 {
        assert(s.insert(0, x) =~= seq![x]);
    } else if k == s.len() {
        if s.last() < x {
            assert(s.insert(k, x) =~= s.push(x));
        }
    } else {
        let front = s.drop_last();
        assert(s.last() == s[s.len() - 1]);
        lemma_with_value_at(front, x, k);
        if k > 0 && s[k - 1] == x {
            assert(front.push(s.last()) =~= s);
        } else {
            assert(front.insert(k, x).push(s.last()) =~= s.insert(k, x));
        }
    }
}

/// Puts `x` at its place among the increasing `values`.
fn insert_value(values: &mut Vec<i64>, x: i64)
    ensures
        final(values)@ == with_value(old(values)@, x),
{
    let mut k: usize = values.len();
    while k > 0 && values[k - 1] > x
        invariant
            k <= values.len(),
            *values == *old(values),
            forall|j: int| k <= j < values@.len() ==> #[trigger] values@[j] > x,
        decreases k,
    {
        k = k - 1;
    }
    proof {
        lemma_with_value_at(values@, x, k as int);
    }
    if k > 0 && values[k - 1] == x {
    } else {
        values.insert(k, x);
    }
}

/// The values of a column in increasing order, each once.
pub fn unique_sorted(col: &Vec<i64>) -> (values: Vec<i64>)
    ensures
        values@ == distinct_values(col@),
{
    let mut values: Vec<i64> = Vec::new();
    let mut i: usize = 0;
    while i < col.len()
        invariant
            i <= col.len(),
            values@ == distinct_values(col@.take(i as int)),
        decreases col.len() - i,
    {
        proof {
            assert(col@.take(i + 1).drop_last() =~= col@.take(i as int));
        }
        insert_value(&mut values, col[i]);
        i = i + 1;
    }
    proof {
        assert(col@.take(i as int) =~= col@);
    }
    values
}

/// A row on a side makes that side's pick non-empty.
proof fn lemma_pick_has<A>(vals: Seq<A>, keys: Seq<i64>, cut: int, high: bool, j: int)
    requires
        vals.len() == keys.len(),
        0 <= j < keys.len(),
        on_side(keys[j], cut, high),
    ensures
        pick(vals, keys, cut, high).len() > 0,
    decreases vals.len(),
{
    if j < vals.len() - 1 {
        lemma_pick_has(vals.drop_last(), keys.drop_last(), cut, high, j);
    }
}

/// A candidate cut of a column leaves rows on both of its sides.
pub proof fn lemma_cut_sides<A>(vals: Seq<A>, col: Seq<i64>, i: int)
    requires
        vals.len() == col.len(),
        0 <= i < cuts(col).len(),
    ensures
        pick(vals, col, cuts(col)[i], true).len() > 0,
        pick(vals, col, cuts(col)[i], false).len() > 0,
{
    let d = distinct_values(col);
    lemma_distinct_values(col);
    assert(d.contains(d[i]));
    assert(d.contains(d[i + 1]));
    assert(d[i] < d[i + 1]);
    let a = choose|a: int| 0 <= a < col.len() && col[a] == d[i];
    let b = choose|b: int| 0 <= b < col.len() && col[b] == d[i + 1];
    lemma_pick_has(vals, col, cuts(col)[i], true, b);
    lemma_pick_has(vals, col, cuts(col)[i], false, a);
}

/// The weighted impurity of two sides is a fraction of non-negative
/// numbers below the cube of the number of rows.
pub proof fn lemma_weighted_bounds(high: Seq<u32>, low: Seq<u32>, k: nat)
    requires
        labels_below(high, k),
        labels_below(low, k),
        high.len() > 0,
        low.len() > 0,
        high.len() + low.len() <= MAX_ROWS,
    ensures
        0 <= weighted_num(high, low, k) <= weighted_den(high, low),
        0 < weighted_den(high, low) <= 2097152 * 2097152 * 2097152,
{
    lemma_count_total(high, k);
    lemma_count_total(low, k);
    lemma_square_bounds(high, k);
    lemma_square_bounds(low, k);
    let h = high.len() as int;
    let l = low.len() as int;
    let gh = gini_num(high, k);
    let gl = gini_num(low, k);
    assert(0 <= gh <= h * h);
    assert(0 <= gl <= l * l);
    assert(0 <= gh * l + gl * h <= h * l * (h + l)) by (nonlinear_arith)
        requires
            0 <= gh <= h * h,
            0 <= gl <= l * l,
            h > 0,
            l > 0,
    ;
    assert(0 < h * l * (h + l) <= 2097152 * 2097152 * 2097152) by (nonlinear_arith)
        requires
            h > 0,
            l > 0,
            h + l <= 2097152,
    ;
}

/// The impurity of two sides, weighted by their sizes.
pub fn weighted(high: &Vec<u32>, low: &Vec<u32>, classes: usize) -> (metric: Ratio)
    requires
        labels_below(high@, classes as nat),
        labels_below(low@, classes as nat),
        high@.len() > 0,
        low@.len() > 0,
        high@.len() + low@.len() <= MAX_ROWS,
    ensures
        metric.num == weighted_num(high@, low@, classes as nat),
        metric.den == weighted_den(high@, low@),
        metric.den > 0,
{
    let gh = gini(high, classes);
    let gl = gini(low, classes);
    let h = high.len() as u64;
    let l = low.len() as u64;
    proof {
        lemma_weighted_bounds(high@, low@, classes as nat);
        lemma_count_total(high@, classes as nat);
        lemma_count_total(low@, classes as nat);
        lemma_square_bounds(high@, classes as nat);
        lemma_square_bounds(low@, classes as nat);
        let a = gh.num as int;
        let b = gl.num as int;
        let hh = h as int;
        let ll = l as int;
        assert(0 <= a * ll <= hh * ll * (hh + ll) && 0 <= b * hh <= hh * ll * (hh + ll) && 0 <= hh
            * ll <= hh * ll * (hh + ll)) by (nonlinear_arith)
            requires
                0 <= a <= hh * hh,
                0 <= b <= ll * ll,
                hh > 0,
                ll > 0,
        ;
    }
    Ratio { num: gh.num * l + gl.num * h, den: h * l * (h + l) }
}

/// A candidate cut of a feature and the weighted impurity of its sides.
#[derive(Debug, Clone, Copy, PartialEq, Eq)]
pub struct SplitScore {
    /// Twice the threshold.
    pub split: i128,
    pub metric: Ratio,
}

/// The scores of the candidate cuts of a feature, by increasing cut.
pub open spec fn feature_scores(view: TableView, feature: int) -> Seq<SplitScore> {
    let c = cuts(view.columns[feature]);
    Seq::new(
        c.len(),
        |i: int| SplitScore { split: c[i] as i128, metric: split_score(view, feature, c[i]) },
    )
}

/// Scores every candidate cut of a feature: the cuts lie midway between
/// neighbours among the distinct values of the column, and the score of a
/// cut is the impurity of the rows at or above it and of those below it,
/// weighted by their numbers.
pub fn evaluate_metric(data: &Table, feature: usize) -> (made: Result<Vec<SplitScore>, BuildError>)
    requires
        data@.wf(),
    ensures
        feature >= data@.width() ==> made == Err::<Vec<SplitScore>, BuildError>(
            BuildError::Schema,
        ),
        feature < data@.width() ==> made.is_ok() && made.unwrap()@ == feature_scores(
            data@,
            feature as int,
        ),
        made.is_ok() ==> forall|i: int|
            0 <= i < made.unwrap()@.len() ==> (#[trigger] made.unwrap()@[i]).metric.den > 0,
{
    let col = match data.column(feature) {
        Err(e) => {
            return Err(e);
        },
        Ok(col) => col,
    };
    let labels = data.labels();
    let classes = data.classes();
    let values = unique_sorted(col);
    let ghost target = feature_scores(data@, feature as int);
    let mut scores: Vec<SplitScore> = Vec::new();
    if values.len() == 0 {
        assert(scores@ =~= target);
        return Ok(scores);
    }
    assert(data@.columns[feature as int].len() == data@.labels.len());
    let mut i: usize = 0;
    while i < values.len() - 1
        invariant
            i <= values.len() - 1,
            values@ == distinct_values(col@),
            col@ == data@.columns[feature as int],
            labels@ == data@.labels,
            classes == data@.classes,
            data@.wf(),
            col@.len() == labels@.len(),
            target == feature_scores(data@, feature as int),
            scores@.len() == i,
            forall|j: int| 0 <= j < i ==> #[trigger] scores@[j] == target[j],
            forall|j: int| 0 <= j < i ==> (#[trigger] scores@[j]).metric.den > 0,
        decreases values.len() - i,
    {
        let cut: i128 = values[i] as i128 + values[i + 1] as i128;
        let ghost c = cuts(col@);
        assert(c[i as int] == cut);
        let high = picked(labels, col, cut, true);
        let low = picked(labels, col, cut, false);
        proof {
            lemma_cut_sides(labels@, col@, i as int);
            lemma_pick_partition(labels@, col@, cut as int);
            lemma_pick_shape(labels@, col@, cut as int, true);
            lemma_pick_shape(labels@, col@, cut as int, false);
            assert forall|j: int| 0 <= j < high@.len() implies (#[trigger] high@[j]) < classes by {
                assert(labels@.contains(high@[j]));
            }
            assert forall|j: int| 0 <= j < low@.len() implies (#[trigger] low@[j]) < classes by {
                assert(labels@.contains(low@[j]));
            }
        }
        let metric = weighted(&high, &low, classes);
        scores.push(SplitScore { split: cut, metric });
        i = i + 1;
    }
    assert(scores@ =~= target);
    Ok(scores)
}

/// The rules that the candidate cuts of a feature make, by increasing cut.
pub open spec fn feature_rules(view: TableView, feature: usize) -> Seq<Rule> {
    let s = feature_scores(view, feature as int);
    Seq::new(
        s.len(),
        |i: int| Rule { dimension: feature, cutoff: s[i].split, metric: s[i].metric },
    )
}

/// The rules of the candidate cuts of all the features, feature by feature
/// in the order given.
pub open spec fn candidate_rules(view: TableView, features: Seq<usize>) -> Seq<Rule>
    decreases features.len(),
{
    if features.len() == 0 {
        Seq::empty()
    } else {
        candidate_rules(view, features.drop_last()) + feature_rules(view, features.last())
    }
}

/// The first among the rules of least impurity.
pub open spec fn best_rule(rules: Seq<Rule>) -> Rule
    recommends
        rules.len() > 0,
    decreases rules.len(),
{
    if rules.len() <= 1 {
        rules[0]
    } else {
        let best = best_rule(rules.drop_last());
        if rules.last().metric.less(best.metric) {
            rules.last()
        } else {
            best
        }
    }
}

/// Every feature of the list is a column of the table.
pub open spec fn features_known(view: TableView, features: Seq<usize>) -> bool {
    forall|i: int| 0 <= i < features.len() ==> (#[trigger] features[i]) < view.width()
}

/// The best split of a table by the given features: the first rule of
/// least impurity among the candidates of all the features.
pub open spec fn best_split(view: TableView, features: Seq<usize>) -> Result<Rule, BuildError> {
    if !features_known(view, features) {
        Err(BuildError::Schema)
    } else if candidate_rules(view, features).len() == 0 {
        Err(BuildError::EmptyPartition)
    } else {
        Ok(best_rule(candidate_rules(view, features)))
    }
}

/// Finds the split of least weighted impurity among the candidate cuts of
/// the given features; of several, the first by the order of the features
/// and then by increasing cut.
pub fn evaluate_best_split(data: &Table, features: &Vec<usize>) -> (made: Result<Rule, BuildError>)
    requires
        data@.wf(),
    ensures
        made == best_split(data@, features@),
        made.is_ok() ==> sound_rule(data@, made.unwrap()),
{
    let ghost view = data@;
    proof {
        lemma_best_split_sound(view, features@);
    }
    let mut best: Option<Rule> = None;
    let mut f: usize = 0;
    while f < features.len()
        invariant
            f <= features.len(),
            view == data@,
            view.wf(),
            features_known(view, features@.take(f as int)),
            candidate_rules(view, features@.take(f as int)).len() == 0 ==> best.is_none(),
            candidate_rules(view, features@.take(f as int)).len() > 0 ==> best == Some(
                best_rule(candidate_rules(view, features@.take(f as int))),
            ),
        decreases features.len() - f,
    {
        let feature = features[f];
        let scores = match evaluate_metric(data, feature) {
            Err(e) => {
                assert(!features_known(view, features@));
                return Err(e);
            },
            Ok(scores) => scores,
        };
        let ghost base = candidate_rules(view, features@.take(f as int));
        let ghost own = feature_rules(view, feature);
        proof {
            assert(features@.take(f + 1).drop_last() =~= features@.take(f as int));
            assert(features@.take(f + 1).last() == feature);
            assert(base + own.take(0) =~= base);
        }
        let mut j: usize = 0;
        while j < scores.len()
            invariant
                j <= scores.len(),
                scores@ == feature_scores(view, feature as int),
                own == feature_rules(view, feature),
                feature < view.width(),
                (base + own.take(j as int)).len() == 0 ==> best.is_none(),
                (base + own.take(j as int)).len() > 0 ==> best == Some(
                    best_rule(base + own.take(j as int)),
                ),
            decreases scores.len() - j,
        {
            let rule = Rule {
                dimension: feature,
                cutoff: scores[j].split,
                metric: scores[j].metric,
            };
            proof {
                let now = base + own.take(j + 1);
                assert(now.drop_last() =~= base + own.take(j as int));
                assert(now.last() == rule);
            }
            best = match best {
                None => Some(rule),
                Some(b) => if rule.metric.less_than(&b.metric) {
                    Some(rule)
                } else {
                    Some(b)
                },
            };
            j = j + 1;
        }
        proof {
            assert(own.take(j as int) =~= own);
        }
        f = f + 1;
    }
    proof {
        assert(features@.take(f as int) =~= features@);
    }
    match best {
        None => Err(BuildError::EmptyPartition),
        Some(rule) => Ok(rule),
    }
}

/// The best rule is one of the rules, none is of less impurity, and none
/// before it of as little.
pub proof fn lemma_best_rule(rules: Seq<Rule>)
    requires
        rules.len() > 0,
        forall|i: int| 0 <= i < rules.len() ==> (#[trigger] rules[i]).metric.den > 0,
    ensures
        exists|b: int|
            0 <= b < rules.len() && rules[b] == best_rule(rules) && (forall|i: int|
                0 <= i < rules.len() ==> !(#[trigger] rules[i]).metric.less(rules[b].metric)) && (
            forall|i: int| 0 <= i < b ==> rules[b].metric.less((#[trigger] rules[i]).metric)),
    decreases rules.len(),
{
    if rules.len() <= 1 {
        assert(rules[0] == best_rule(rules));
    } else {
        let front = rules.drop_last();
        assert forall|i: int| 0 <= i < front.len() implies (#[trigger] front[i]).metric.den
            > 0 by {
            assert(front[i] == rules[i]);
        }
        lemma_best_rule(front);
        let b0 = choose|b: int|
            0 <= b < front.len() && front[b] == best_rule(front) && (forall|i: int|
                0 <= i < front.len() ==> !(#[trigger] front[i]).metric.less(front[b].metric)) && (
            forall|i: int| 0 <= i < b ==> front[b].metric.less((#[trigger] front[i]).metric));
        let last = rules.last();
        let best = front[b0];
        assert(last == rules[rules.len() - 1]);
        assert(rules[b0] == best);
        if last.metric.less(best.metric) {
            let b = rules.len() - 1;
            assert forall|i: int| 0 <= i < rules.len() implies !(#[trigger] rules[i]).metric.less(
                rules[b].metric,
            ) by {
                if i < front.len() {
                    assert(front[i] == rules[i]);
                    if rules[i].metric.less(last.metric) {
                        lemma_less_chain(rules[i].metric, last.metric, best.metric);
                    }
                }
            }
            assert forall|i: int| 0 <= i < b implies rules[b].metric.less(
                (#[trigger] rules[i]).metric,
            ) by {
                assert(front[i] == rules[i]);
                lemma_less_after(last.metric, best.metric, rules[i].metric);
            }
        } else {
            assert forall|i: int| 0 <= i < rules.len() implies !(#[trigger] rules[i]).metric.less(
                rules[b0].metric,
            ) by {
                if i < front.len() {
                    assert(front[i] == rules[i]);
                }
            }
            assert forall|i: int| 0 <= i < b0 implies rules[b0].metric.less(
                (#[trigger] rules[i]).metric,
            ) by {
                assert(front[i] == rules[i]);
            }
        }
    }
}

/// A rule splits the table by one of its features into two sides that
/// both have rows, and its impurity is a fraction between 0 and 1.
pub open spec fn sound_rule(view: TableView, rule: Rule) -> bool {
    &&& rule.dimension < view.width()
    &&& view.side(rule.dimension as int, rule.cutoff as int, true).rows() > 0
    &&& view.side(rule.dimension as int, rule.cutoff as int, false).rows() > 0
    &&& view.side(rule.dimension as int, rule.cutoff as int, true).rows() + view.side(
        rule.dimension as int,
        rule.cutoff as int,
        false,
    ).rows() == view.rows()
    &&& 0 < rule.metric.den
    &&& rule.metric.num <= rule.metric.den
}

/// The score of a cut through the labels, by the keys of the rows, that
/// has rows on both sides is the cut itself with the weighted impurity of
/// its sides: both are numbers that the score can hold.
pub open spec fn exact_score(score: SplitScore, labels: Seq<u32>, keys: Seq<i64>, k: nat, cut: int) -> bool {
    &&& score.split == cut
    &&& score.metric.num == weighted_num(
        pick(labels, keys, cut, true),
        pick(labels, keys, cut, false),
        k,
    )
    &&& score.metric.den == weighted_den(
        pick(labels, keys, cut, true),
        pick(labels, keys, cut, false),
    )
}

/// Every candidate rule of a known feature is sound, and the scores of
/// the feature lose nothing of the cuts and impurities that they stand
/// for.
pub proof fn lemma_feature_rules(view: TableView, feature: usize)
    requires
        view.wf(),
        feature < view.width(),
    ensures
        forall|i: int|
            0 <= i < feature_rules(view, feature).len() ==> sound_rule(
                view,
                #[trigger] feature_rules(view, feature)[i],
            ),
        feature_scores(view, feature as int).len() == cuts(view.columns[feature as int]).len(),
        forall|i: int|
            0 <= i < feature_scores(view, feature as int).len() ==> exact_score(
                #[trigger] feature_scores(view, feature as int)[i],
                view.labels,
                view.columns[feature as int],
                view.classes,
                cuts(view.columns[feature as int])[i],
            ),
{
    let col = view.columns[feature as int];
    let labels = view.labels;
    assert forall|i: int| 0 <= i < feature_rules(view, feature).len() implies sound_rule(
        view,
        #[trigger] feature_rules(view, feature)[i],
    ) by {
        let rule = feature_rules(view, feature)[i];
        let cut = cuts(col)[i];
        assert(rule.cutoff == cut);
        lemma_cut_sides(labels, col, i);
        lemma_pick_partition(labels, col, cut);
        lemma_pick_shape(labels, col, cut, true);
        lemma_pick_shape(labels, col, cut, false);
        let high = pick(labels, col, cut, true);
        let low = pick(labels, col, cut, false);
        assert forall|j: int| 0 <= j < high.len() implies (#[trigger] high[j]) < view.classes by {
            assert(labels.contains(high[j]));
        }
        assert forall|j: int| 0 <= j < low.len() implies (#[trigger] low[j]) < view.classes by {
            assert(labels.contains(low[j]));
        }
        lemma_weighted_bounds(high, low, view.classes);
    }
    assert forall|i: int| 0 <= i < feature_scores(view, feature as int).len() implies exact_score(
        #[trigger] feature_scores(view, feature as int)[i],
        labels,
        col,
        view.classes,
        cuts(col)[i],
    ) by {
        let cut = cuts(col)[i];
        lemma_cut_sides(labels, col, i);
        lemma_pick_partition(labels, col, cut);
        lemma_pick_shape(labels, col, cut, true);
        lemma_pick_shape(labels, col, cut, false);
        let high = pick(labels, col, cut, true);
        let low = pick(labels, col, cut, false);
        assert forall|j: int| 0 <= j < high.len() implies (#[trigger] high[j]) < view.classes by {
            assert(labels.contains(high[j]));
        }
        assert forall|j: int| 0 <= j < low.len() implies (#[trigger] low[j]) < view.classes by {
            assert(labels.contains(low[j]));
        }
        lemma_weighted_bounds(high, low, view.classes);
    }
}

/// Every candidate rule of known features is sound.
pub proof fn lemma_candidate_rules(view: TableView, features: Seq<usize>)
    requires
        view.wf(),
        features_known(view, features),
    ensures
        forall|i: int|
            0 <= i < candidate_rules(view, features).len() ==> sound_rule(
                view,
                #[trigger] candidate_rules(view, features)[i],
            ),
    decreases features.len(),
{
    if features.len() > 0 {
        let front = features.drop_last();
        assert forall|i: int| 0 <= i < front.len() implies (#[trigger] front[i])
            < view.width() by {
            assert(front[i] == features[i]);
        }
        lemma_candidate_rules(view, front);
        assert(features.last() == features[features.len() - 1]);
        lemma_feature_rules(view, features.last());
        let before = candidate_rules(view, front);
        let own = feature_rules(view, features.last());
        let all = candidate_rules(view, features);
        assert forall|i: int| 0 <= i < all.len() implies sound_rule(view, #[trigger] all[i]) by {
            if i < before.len() {
                assert(all[i] == before[i]);
            } else {
                assert(all[i] == own[i - before.len()]);
            }
        }
    }
}

/// The best split of a table is sound: it goes by a feature of the table
/// and leaves rows on both of its sides, so that each side has fewer rows
/// than the table.
pub proof fn lemma_best_split_sound(view: TableView, features: Seq<usize>)
    requires
        view.wf(),
    ensures
        match best_split(view, features) {
            Ok(rule) => sound_rule(view, rule),
            Err(_) => true,
        },
{
    if best_split(view, features).is_ok() {
        let rules = candidate_rules(view, features);
        lemma_candidate_rules(view, features);
        lemma_best_rule(rules);
    }
}

/// `a < b` and `b < c` give `a < c`, for fractions of positive denominator.
proof fn lemma_less_chain(a: Ratio, b: Ratio, c: Ratio)
    requires
        a.den > 0,
        b.den > 0,
        c.den > 0,
        a.less(b),
        b.less(c),
    ensures
        a.less(c),
{
    lemma_less_after(a, b, c);
}

/// `a < b` and not `c < b` give `a < c`, for fractions of positive
/// denominator.
proof fn lemma_less_after(a: Ratio, b: Ratio, c: Ratio)
    requires
        a.den > 0,
        b.den > 0,
        c.den > 0,
        a.less(b),
        !c.less(b),
    ensures
        a.less(c),
{
    let an = a.num as int;
    let ad = a.den as int;
    let bn = b.num as int;
    let bd = b.den as int;
    let cn = c.num as int;
    let cd = c.den as int;
    assert(an * cd < cn * ad) by (nonlinear_arith)
        requires
            an * bd < bn * ad,
            cn * bd >= bn * cd,
            ad > 0,
            bd > 0,
            cd > 0,
            an >= 0,
            bn >= 0,
            cn >= 0,
    {
        assert(an * bd * cd < bn * ad * cd);
        assert(bn * cd * ad <= cn * bd * ad);
        assert(an * cd * bd < cn * ad * bd);
    }
}

} // verus!
