//! Class counts, the majority class and the Gini impurity of a list of
//! labels.

use vstd::prelude::*;
use crate::ratio::Ratio;
use crate::rule::Decision;
use crate::table::{Table, BuildError, MAX_ROWS, labels_below};

verus! {

/// How often the class `c` occurs among the labels.
pub open spec fn count_of(labels: Seq<u32>, c: nat) -> nat
    decreases labels.len(),
{
    if labels.len() == 0 {
        0
    } else {
        count_of(labels.drop_last(), c) + if labels.last() == c {
            1nat
        } else {
            0nat
        }
    }
}

/// The sum of the counts of the classes below `k`.
pub open spec fn count_sum(labels: Seq<u32>, k: nat) -> nat
    decreases k,
{
    if k == 0 {
        0
    } else {
        count_sum(labels, (k - 1) as nat) + count_of(labels, (k - 1) as nat)
    }
}

/// The sum of the squared counts of the classes below `k`.
pub open spec fn square_sum(labels: Seq<u32>, k: nat) -> nat
    decreases k,
{
    if k == 0 {
        0
    } else {
        square_sum(labels, (k - 1) as nat) + count_of(labels, (k - 1) as nat) * count_of(
            labels,
            (k - 1) as nat,
        )
    }
}

/// The number of classes below `k` that occur among the labels.
pub open spec fn observed(labels: Seq<u32>, k: nat) -> nat
    decreases k,
{
    if k == 0 {
        0
    } else {
        observed(labels, (k - 1) as nat) + if count_of(labels, (k - 1) as nat) > 0 {
            1nat
        } else {
            0nat
        }
    }
}

/// The most frequent class below `k`; of several, the one with the
/// smallest code.
pub open spec fn majority(labels: Seq<u32>, k: nat) -> nat
    decreases k,
{
    if k <= 1 {
        0
    } else {
        let m = majority(labels, (k - 1) as nat);
        if count_of(labels, (k - 1) as nat) > count_of(labels, m) {
            (k - 1) as nat
        } else {
            m
        }
    }
}

/// The numerator of the Gini impurity `1 - sum of p_i^2`, over the
/// denominator `gini_den`; for no labels at all the impurity is 1.
pub open spec fn gini_num(labels: Seq<u32>, k: nat) -> int {
    if labels.len() == 0 {
        1
    } else {
        labels.len() * labels.len() - square_sum(labels, k)
    }
}

/// The denominator of the Gini impurity: the squared number of labels.
pub open spec fn gini_den(labels: Seq<u32>) -> int {
    if labels.len() == 0 {
        1
    } else {
        (labels.len() * labels.len()) as int
    }
}

/// A class occurs no more often than there are labels.
pub proof fn lemma_count_bound(labels: Seq<u32>, c: nat)
    ensures
        count_of(labels, c) <= labels.len(),
    decreases labels.len(),
{
    if labels.len() > 0 {
        lemma_count_bound(labels.drop_last(), c);
    }
}

/// One more label adds one to the counts of the classes that it is among.
proof fn lemma_sums_push(labels: Seq<u32>, x: u32, k: nat)
    ensures
        count_sum(labels.push(x), k) == count_sum(labels, k) + if x < k {
            1nat
        } else {
            0nat
        },
    decreases k,
{
    if k > 0 {
        lemma_sums_push(labels, x, (k - 1) as nat);
        assert(labels.push(x).drop_last() =~= labels);
    }
}

/// The counts of the classes add up to the number of labels.
pub proof fn lemma_count_total(labels: Seq<u32>, k: nat)
    requires
        labels_below(labels, k),
    ensures
        count_sum(labels, k) == labels.len(),
    decreases labels.len(),
{
    if labels.len() == 0 {
        lemma_count_sum_none(labels, k);
    } else {
        let front = labels.drop_last();
        assert forall|i: int| 0 <= i < front.len() implies (#[trigger] front[i]) < k by {
            assert(front[i] == labels[i]);
        }
        lemma_count_total(front, k);
        lemma_sums_push(front, labels.last(), k);
        assert(front.push(labels.last()) =~= labels);
        assert(labels[labels.len() - 1] < k);
    }
}

/// Without labels every sum over the classes is 0.
proof fn lemma_count_sum_none(labels: Seq<u32>, k: nat)
    requires
        labels.len() == 0,
    ensures
        count_sum(labels, k) == 0,
        square_sum(labels, k) == 0,
        observed(labels, k) == 0,
    decreases k,
{
    if k > 0 {
        lemma_count_sum_none(labels, (k - 1) as nat);
    }
}

/// Between the sums over the classes below `k`: the squares add up to at
/// most the square of the total, and, multiplied by the number of classes
/// that occur, to at least that square.
pub proof fn lemma_square_bounds(labels: Seq<u32>, k: nat)
    ensures
        square_sum(labels, k) <= count_sum(labels, k) * count_sum(labels, k),
        observed(labels, k) * square_sum(labels, k) >= count_sum(labels, k) * count_sum(labels, k),
        observed(labels, k) == 0 ==> count_sum(labels, k) == 0,
        observed(labels, k) == 1 ==> square_sum(labels, k) == count_sum(labels, k) * count_sum(
            labels,
            k,
        ),
    decreases k,
{
    if k > 0 {
        lemma_square_bounds(labels, (k - 1) as nat);
        let n = count_sum(labels, (k - 1) as nat) as int;
        let s = square_sum(labels, (k - 1) as nat) as int;
        let o = observed(labels, (k - 1) as nat) as int;
        let x = count_of(labels, (k - 1) as nat) as int;
        assert(s + x * x <= (n + x) * (n + x)) by (nonlinear_arith)
            requires
                s <= n * n,
                n >= 0,
                x >= 0,
        ;
        if x > 0 {
            if o == 0 {
                assert(n == 0);
                assert(s == 0);
                assert((o + 1) * (s + x * x) >= (n + x) * (n + x)) by (nonlinear_arith)
                    requires
                        o == 0,
                        n == 0,
                        s == 0,
                ;
                assert(s + x * x == (n + x) * (n + x)) by (nonlinear_arith)
                    requires
                        n == 0,
                        s == 0,
                ;
            } else {
                // o * (s + o x^2 - 2 n x) >= (n - o x)^2 >= 0
                assert(o * (s + o * x * x - 2 * n * x) >= 0) by (nonlinear_arith)
                    requires
                        o * s >= n * n,
                        o >= 1,
                {
                    assert(o * (s + o * x * x - 2 * n * x) == o * s + (o * x) * (o * x) - 2 * n * (o
                        * x));
                    assert(n * n + (o * x) * (o * x) - 2 * n * (o * x) == (n - o * x) * (n - o * x));
                    assert((n - o * x) * (n - o * x) >= 0);
                }
                assert(s + o * x * x - 2 * n * x >= 0) by (nonlinear_arith)
                    requires
                        o * (s + o * x * x - 2 * n * x) >= 0,
                        o >= 1,
                ;
                assert((o + 1) * (s + x * x) >= (n + x) * (n + x)) by (nonlinear_arith)
                    requires
                        o * s >= n * n,
                        s + o * x * x - 2 * n * x >= 0,
                ;
            }
        } else {
            assert(x == 0);
            assert(s + x * x == s) by (nonlinear_arith)
                requires
                    x == 0,
            ;
            assert((n + x) * (n + x) == n * n) by (nonlinear_arith)
                requires
                    x == 0,
            ;
        }
    }
}

/// The Gini impurity of labels of which `observed` classes occur lies
/// between 0 and `1 - 1/observed`, and is 0 where one class occurs alone.
pub proof fn lemma_gini_bounds(labels: Seq<u32>, k: nat)
    requires
        labels_below(labels, k),
        labels.len() > 0,
    ensures
        observed(labels, k) >= 1,
        0 <= gini_num(labels, k) <= gini_den(labels),
        gini_den(labels) > 0,
        observed(labels, k) * gini_num(labels, k) <= (observed(labels, k) - 1) * gini_den(labels),
        observed(labels, k) == 1 ==> gini_num(labels, k) == 0,
{
    lemma_count_total(labels, k);
    lemma_square_bounds(labels, k);
    let n = labels.len() as int;
    let s = square_sum(labels, k) as int;
    let o = observed(labels, k) as int;
    assert(n * n > 0) by (nonlinear_arith)
        requires
            n > 0,
    ;
    assert(o * (n * n - s) <= (o - 1) * (n * n)) by (nonlinear_arith)
        requires
            o * s >= n * n,
    ;
}

/// The majority class is a class, no class occurs more often, and none
/// with a smaller code as often.
pub proof fn lemma_majority(labels: Seq<u32>, k: nat)
    requires
        k > 0,
    ensures
        majority(labels, k) < k,
        forall|c: nat|
            c < k ==> #[trigger] count_of(labels, c) <= count_of(labels, majority(labels, k)),
        forall|c: nat|
            c < majority(labels, k) ==> #[trigger] count_of(labels, c) < count_of(
                labels,
                majority(labels, k),
            ),
    decreases k,
{
    if k > 1 {
        lemma_majority(labels, (k - 1) as nat);
    }
}

/// A label that occurs is counted at least once.
pub proof fn lemma_count_positive(labels: Seq<u32>, i: int)
    requires
        0 <= i < labels.len(),
    ensures
        count_of(labels, labels[i] as nat) >= 1,
    decreases labels.len(),
{
    if i < labels.len() - 1 {
        lemma_count_positive(labels.drop_last(), i);
    }
}

/// The confidence of the majority leaf of a table with rows is a share
/// above 0 and at most 1, and the predicted class is one of the table's.
pub proof fn lemma_confidence_range(labels: Seq<u32>, k: nat)
    requires
        labels.len() > 0,
        labels.len() <= MAX_ROWS,
        labels_below(labels, k),
    ensures
        0 < majority_leaf(labels, k).confidence.num <= majority_leaf(labels, k).confidence.den,
        majority_leaf(labels, k).confidence.num == count_of(labels, majority(labels, k)),
        majority_leaf(labels, k).confidence.den == labels.len(),
        majority_leaf(labels, k).prediction == majority(labels, k),
        majority(labels, k) < k,
        count_of(labels, majority(labels, k)) >= 1,
{
    assert(labels[0] < k);
    lemma_majority(labels, k);
    lemma_count_positive(labels, 0);
    lemma_count_bound(labels, majority(labels, k));
    let m = majority(labels, k);
    if m > u32::MAX {
        lemma_no_such_label(labels, m);
    }
}

/// A number that is no `u32` is the code of no label.
proof fn lemma_no_such_label(labels: Seq<u32>, c: nat)
    requires
        c > u32::MAX,
    ensures
        count_of(labels, c) == 0,
    decreases labels.len(),
{
    if labels.len() > 0 {
        lemma_no_such_label(labels.drop_last(), c);
    }
}

/// Where every label is the class `c`, that class is the majority and
/// its count is the number of labels.
pub proof fn lemma_single_class(labels: Seq<u32>, k: nat, c: nat)
    requires
        labels.len() > 0,
        c < k,
        forall|i: int| 0 <= i < labels.len() ==> (#[trigger] labels[i]) == c,
    ensures
        majority(labels, k) == c,
        count_of(labels, c) == labels.len(),
{
    lemma_all_same_counts(labels, c);
    lemma_majority(labels, k);
    let m = majority(labels, k);
    if m != c {
        lemma_all_same_count_other(labels, c, m);
    }
}

/// Where every label is the class `c`, that class is counted once for
/// each label.
proof fn lemma_all_same_counts(labels: Seq<u32>, c: nat)
    requires
        forall|i: int| 0 <= i < labels.len() ==> (#[trigger] labels[i]) == c,
    ensures
        count_of(labels, c) == labels.len(),
    decreases labels.len(),
{
    if labels.len() > 0 {
        let front = labels.drop_last();
        assert forall|i: int| 0 <= i < front.len() implies (#[trigger] front[i]) == c by {
            assert(front[i] == labels[i]);
        }
        lemma_all_same_counts(front, c);
        assert(labels[labels.len() - 1] == c);
    }
}

/// Where every label is the class `c`, no other class is counted.
proof fn lemma_all_same_count_other(labels: Seq<u32>, c: nat, d: nat)
    requires
        c != d,
        forall|i: int| 0 <= i < labels.len() ==> (#[trigger] labels[i]) == c,
    ensures
        count_of(labels, d) == 0,
    decreases labels.len(),
{
    if labels.len() > 0 {
        let front = labels.drop_last();
        assert forall|i: int| 0 <= i < front.len() implies (#[trigger] front[i]) == c by {
            assert(front[i] == labels[i]);
        }
        lemma_all_same_count_other(front, c, d);
        assert(labels[labels.len() - 1] == c);
    }
}

/// Counts each of the `classes` classes among the labels.
pub fn tally(labels: &Vec<u32>, classes: usize) -> (counts: Vec<u64>)
    requires
        labels_below(labels@, classes as nat),
    ensures
        counts@.len() == classes,
        forall|c: int| 0 <= c < classes ==> (#[trigger] counts@[c]) == count_of(labels@, c as nat),
{
    let mut counts: Vec<u64> = Vec::new();
    let mut c: usize = 0;
    while c < classes
        invariant
            c <= classes,
            counts@.len() == c,
            forall|d: int| 0 <= d < c ==> (#[trigger] counts@[d]) == 0,
        decreases classes - c,
    {
        counts.push(0);
        c = c + 1;
    }
    let mut i: usize = 0;
    while i < labels.len()
        invariant
            i <= labels.len(),
            labels_below(labels@, classes as nat),
            counts@.len() == classes,
            forall|d: int|
                0 <= d < classes ==> (#[trigger] counts@[d]) == count_of(
                    labels@.take(i as int),
                    d as nat,
                ),
        decreases labels.len() - i,
    {
        let label = labels[i] as usize;
        proof {
            assert(labels@.take(i + 1).drop_last() =~= labels@.take(i as int));
            lemma_count_bound(labels@.take(i as int), label as nat);
        }
        let old_count = counts[label];
        counts.set(label, old_count + 1);
        i = i + 1;
    }
    proof {
        assert(labels@.take(i as int) =~= labels@);
    }
    counts
}

/// The sum of the squares of the counts.
fn squares(counts: &Vec<u64>, labels: Ghost<Seq<u32>>) -> (sum: u64)
    requires
        labels@.len() <= MAX_ROWS,
        forall|c: int|
            0 <= c < counts@.len() ==> (#[trigger] counts@[c]) == count_of(labels@, c as nat),
    ensures
        sum == square_sum(labels@, counts@.len() as nat),
        sum <= labels@.len() * labels@.len(),
{
    let mut sum: u64 = 0;
    let mut c: usize = 0;
    proof {
        lemma_count_sum_below(labels@, 0);
    }
    while c < counts.len()
        invariant
            c <= counts.len(),
            labels@.len() <= MAX_ROWS,
            forall|d: int|
                0 <= d < counts@.len() ==> (#[trigger] counts@[d]) == count_of(labels@, d as nat),
            sum == square_sum(labels@, c as nat),
        decreases counts.len() - c,
    {
        let x = counts[c];
        proof {
            lemma_count_sum_below(labels@, (c + 1) as nat);
            lemma_square_bounds(labels@, (c + 1) as nat);
            let t = count_sum(labels@, (c + 1) as nat) as int;
            assert(t * t <= 2097152 * 2097152) by (nonlinear_arith)
                requires
                    0 <= t <= 2097152,
            ;
        }
        sum = sum + x * x;
        c = c + 1;
    }
    proof {
        lemma_count_sum_below(labels@, counts@.len() as nat);
        lemma_square_bounds(labels@, counts@.len() as nat);
        let t = count_sum(labels@, counts@.len() as nat) as int;
        let n = labels@.len() as int;
        assert(t * t <= n * n) by (nonlinear_arith)
            requires
                0 <= t <= n,
        ;
    }
    sum
}

/// The Gini impurity of a list of labels.
pub fn gini(labels: &Vec<u32>, classes: usize) -> (g: Ratio)
    requires
        labels@.len() <= MAX_ROWS,
        labels_below(labels@, classes as nat),
    ensures
        g.num == gini_num(labels@, classes as nat),
        g.den == gini_den(labels@),
        g.den > 0,
{
    let n = labels.len() as u64;
    if n == 0 {
        return Ratio { num: 1, den: 1 };
    }
    let counts = tally(labels, classes);
    let sum = squares(&counts, Ghost(labels@));
    assert(n * n <= 2097152 * 2097152 && n * n > 0) by (nonlinear_arith)
        requires
            0 < n <= 2097152,
    ;
    Ratio { num: n * n - sum, den: n * n }
}

/// The Gini impurity `1 - sum of p_i^2` of the labels of a table, over
/// the shares `p_i` of the classes; 1 for a table without rows.
pub fn estimate_gini(data: &Table) -> (g: Ratio)
    requires
        data@.wf(),
    ensures
        g.num == gini_num(data@.labels, data@.classes),
        g.den == gini_den(data@.labels),
        g.den > 0,
{
    gini(data.labels(), data.classes())
}

/// The leaf that predicts the majority class of the labels, with the share
/// of that class as its confidence.
pub open spec fn majority_leaf(labels: Seq<u32>, k: nat) -> Decision {
    Decision {
        rule: None,
        confidence: Ratio {
            num: count_of(labels, majority(labels, k)) as u64,
            den: labels.len() as u64,
        },
        prediction: majority(labels, k) as u32,
    }
}

/// The majority class of the labels of a table and its share among them;
/// a table without rows has none.
pub fn predict_majority_dataframe(data: &Table) -> (made: Result<Decision, BuildError>)
    requires
        data@.wf(),
    ensures
        data@.rows() == 0 ==> made == Err::<Decision, BuildError>(BuildError::EmptyPartition),
        data@.rows() > 0 ==> made == Ok::<Decision, BuildError>(
            majority_leaf(data@.labels, data@.classes),
        ),
{
    let labels = data.labels();
    let classes = data.classes();
    if labels.len() == 0 {
        return Err(BuildError::EmptyPartition);
    }
    assert(labels@[0] < classes);
    let counts = tally(labels, classes);
    let mut best: usize = 0;
    let mut c: usize = 1;
    while c < classes
        invariant
            1 <= c <= classes,
            counts@.len() == classes,
            forall|d: int|
                0 <= d < classes ==> (#[trigger] counts@[d]) == count_of(labels@, d as nat),
            best == majority(labels@, c as nat),
            best < c,
        decreases classes - c,
    {
        if counts[c] > counts[best] {
            best = c;
        }
        c = c + 1;
    }
    proof {
        lemma_count_bound(labels@, best as nat);
    }
    Ok(
        Decision {
            rule: None,
            confidence: Ratio { num: counts[best], den: labels.len() as u64 },
            prediction: best as u32,
        },
    )
}

/// The counts of any classes add up to no more than the number of labels.
pub proof fn lemma_count_sum_below(labels: Seq<u32>, k: nat)
    ensures
        count_sum(labels, k) <= labels.len(),
    decreases labels.len(),
{
    if labels.len() == 0 {
        lemma_count_sum_none(labels, k);
    } else {
        let front = labels.drop_last();
        lemma_count_sum_below(front, k);
        lemma_sums_push(front, labels.last(), k);
        assert(front.push(labels.last()) =~= labels);
    }
}

} // verus!
