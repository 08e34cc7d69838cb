//! A table of integer feature columns and class labels.

use vstd::prelude::*;

verus! {

/// The largest number of rows of a table: the cube of a row count has to
/// be a `u64`, for impurities are exact fractions over it.
pub const MAX_ROWS: usize = 2097152;

/// Why a table or a tree could not be made.
#[derive(Debug, Clone, Copy, PartialEq, Eq)]
pub enum BuildError {
    /// A column is missing, or the columns and labels do not make a table.
    Schema,
    /// The table has more than `MAX_ROWS` rows.
    TooManyRows,
    /// A partition has no rows, or no split leaves rows on both sides.
    EmptyPartition,
}

/// Every label is the code of one of `k` classes.
pub open spec fn labels_below(labels: Seq<u32>, k: nat) -> bool {
    forall|i: int| 0 <= i < labels.len() ==> (#[trigger] labels[i]) < k
}

/// A row lies on the high side of a cut iff twice its key is at least the
/// cut; the cut is twice a threshold, so that the mean of two keys is a
/// whole number.
pub open spec fn on_side(key: i64, cut: int, high: bool) -> bool {
    (2 * key >= cut) == high
}

/// The values of `vals` whose rows lie on the given side of the cut, by
/// the keys of the rows.
pub open spec fn pick<A>(vals: Seq<A>, keys: Seq<i64>, cut: int, high: bool) -> Seq<A>
    decreases vals.len(),
{
    if vals.len() == 0 || keys.len() == 0 {
        Seq::empty()
    } else {
        let rest = pick(vals.drop_last(), keys.drop_last(), cut, high);
        if on_side(keys.last(), cut, high) {
            rest.push(vals.last())
        } else {
            rest
        }
    }
}

/// What a table holds: its feature columns, the label of each row, and the
/// number of classes.
pub struct TableView {
    pub columns: Seq<Seq<i64>>,
    pub labels: Seq<u32>,
    pub classes: nat,
}

/// A row of a table: its value of each feature, and its label.
pub struct Row {
    pub features: Seq<i64>,
    pub label: u32,
}

impl TableView {
    /// The row at index `i`.
    pub open spec fn row(self, i: int) -> Row {
        Row {
            features: Seq::new(self.columns.len(), |c: int| self.columns[c][i]),
            label: self.labels[i],
        }
    }

    /// The rows from first to last.
    pub open spec fn row_seq(self) -> Seq<Row> {
        Seq::new(self.labels.len(), |i: int| self.row(i))
    }

    /// The number of rows.
    pub open spec fn rows(self) -> nat {
        self.labels.len()
    }

    /// The number of feature columns.
    pub open spec fn width(self) -> nat {
        self.columns.len()
    }

    /// Every column has one value for each row, every label is the code
    /// of a class, and the rows are no more than `MAX_ROWS`.
    pub open spec fn wf(self) -> bool {
        &&& self.labels.len() <= MAX_ROWS
        &&& labels_below(self.labels, self.classes)
        &&& forall|c: int|
            0 <= c < self.columns.len() ==> (#[trigger] self.columns[c]).len() == self.labels.len()
    }

    /// The rows on one side of a cut through a feature.
    pub open spec fn side(self, feature: int, cut: int, high: bool) -> TableView {
        TableView {
            columns: Seq::new(
                self.columns.len(),
                |c: int| pick(self.columns[c], self.columns[feature], cut, high),
            ),
            labels: pick(self.labels, self.columns[feature], cut, high),
            classes: self.classes,
        }
    }
}

/// What is picked is no longer than what it is picked from, as long as the
/// picked keys, and holds only values from there.
pub proof fn lemma_pick_shape<A>(vals: Seq<A>, keys: Seq<i64>, cut: int, high: bool)
    requires
        vals.len() == keys.len(),
    ensures
        pick(vals, keys, cut, high).len() == pick(keys, keys, cut, high).len(),
        pick(vals, keys, cut, high).len() <= vals.len(),
        forall|i: int|
            0 <= i < pick(vals, keys, cut, high).len() ==> vals.contains(
                #[trigger] pick(vals, keys, cut, high)[i],
            ),
    decreases vals.len(),
{
    if vals.len() > 0 {
        lemma_pick_shape(vals.drop_last(), keys.drop_last(), cut, high);
        let p = pick(vals, keys, cut, high);
        let rest = pick(vals.drop_last(), keys.drop_last(), cut, high);
        assert forall|i: int| 0 <= i < p.len() implies vals.contains(#[trigger] p[i]) by {
            if i < rest.len() {
                assert(vals.drop_last().contains(rest[i]));
                let j = choose|j: int| 0 <= j < vals.len() - 1 && vals.drop_last()[j] == rest[i];
                assert(vals[j] == p[i]);
            } else {
                assert(vals[vals.len() - 1] == p[i]);
            }
        }
    }
}

/// Each row lies on exactly one side of a cut: the two sides hold between
/// them what was there, each value as often as before.
pub proof fn lemma_pick_partition<A>(vals: Seq<A>, keys: Seq<i64>, cut: int)
    requires
        vals.len() == keys.len(),
    ensures
        pick(vals, keys, cut, true).len() + pick(vals, keys, cut, false).len() == vals.len(),
        pick(vals, keys, cut, true).to_multiset().add(pick(vals, keys, cut, false).to_multiset())
            == vals.to_multiset(),
    decreases vals.len(),
{
    broadcast use vstd::seq_lib::group_to_multiset_ensures;

    if vals.len() > 0 {
        let front = vals.drop_last();
        lemma_pick_partition(front, keys.drop_last(), cut);
        let h = pick(front, keys.drop_last(), cut, true);
        let l = pick(front, keys.drop_last(), cut, false);
        assert(vals =~= front.push(vals.last()));
        assert(vals.to_multiset() =~= front.to_multiset().insert(vals.last()));
        if on_side(keys.last(), cut, true) {
            assert(h.push(vals.last()).to_multiset() =~= h.to_multiset().insert(vals.last()));
            assert(h.push(vals.last()).to_multiset().add(l.to_multiset()) =~= vals.to_multiset());
        } else {
            assert(l.push(vals.last()).to_multiset() =~= l.to_multiset().insert(vals.last()));
            assert(h.to_multiset().add(l.push(vals.last()).to_multiset()) =~= vals.to_multiset());
        }
    } else {
        assert(pick(vals, keys, cut, true).to_multiset().add(
            pick(vals, keys, cut, false).to_multiset(),
        ) =~= vals.to_multiset());
    }
}

/// The indices of the rows on one side of a cut, by the keys of the rows.
pub open spec fn pick_index(keys: Seq<i64>, cut: int, high: bool) -> Seq<int> {
    pick(Seq::new(keys.len(), |i: int| i), keys, cut, high)
}

/// What is picked from any values is what stands at the picked indices.
pub proof fn lemma_pick_by_index<A>(vals: Seq<A>, keys: Seq<i64>, cut: int, high: bool)
    requires
        vals.len() == keys.len(),
    ensures
        pick(vals, keys, cut, high).len() == pick_index(keys, cut, high).len(),
        forall|j: int|
            0 <= j < pick_index(keys, cut, high).len() ==> 0 <= (#[trigger] pick_index(
                keys,
                cut,
                high,
            )[j]) < vals.len() && pick(vals, keys, cut, high)[j] == vals[pick_index(
                keys,
                cut,
                high,
            )[j]],
    decreases vals.len(),
{
    if vals.len() > 0 {
        let all = Seq::new(keys.len(), |i: int| i);
        assert(all.drop_last() =~= Seq::new(keys.drop_last().len(), |i: int| i));
        lemma_pick_by_index(vals.drop_last(), keys.drop_last(), cut, high);
        assert(all.last() == vals.len() - 1);
    }
}

/// A cut through a feature shares out the rows of a table: the rows of
/// each side are the rows of the table that lie on that side, whole and in
/// their order, and the two sides hold between them each row of the table
/// as often as the table does, so that none is lost and none is in both.
pub proof fn lemma_rows_partition(view: TableView, feature: int, cut: int)
    requires
        view.wf(),
        0 <= feature < view.width(),
    ensures
        view.side(feature, cut, true).row_seq() == pick(
            view.row_seq(),
            view.columns[feature],
            cut,
            true,
        ),
        view.side(feature, cut, false).row_seq() == pick(
            view.row_seq(),
            view.columns[feature],
            cut,
            false,
        ),
        view.side(feature, cut, true).rows() + view.side(feature, cut, false).rows()
            == view.rows(),
        view.side(feature, cut, true).row_seq().to_multiset().add(
            view.side(feature, cut, false).row_seq().to_multiset(),
        ) == view.row_seq().to_multiset(),
{
    lemma_side_rows(view, feature, cut, true);
    lemma_side_rows(view, feature, cut, false);
    lemma_pick_partition(view.row_seq(), view.columns[feature], cut);
}

/// The rows of a side are the rows of the table that lie on that side.
proof fn lemma_side_rows(view: TableView, feature: int, cut: int, high: bool)
    requires
        view.wf(),
        0 <= feature < view.width(),
    ensures
        view.side(feature, cut, high).row_seq() == pick(
            view.row_seq(),
            view.columns[feature],
            cut,
            high,
        ),
{
    let keys = view.columns[feature];
    let part = view.side(feature, cut, high);
    let index = pick_index(keys, cut, high);
    lemma_pick_by_index(view.row_seq(), keys, cut, high);
    lemma_pick_by_index(view.labels, keys, cut, high);
    let picked_rows = pick(view.row_seq(), keys, cut, high);
    assert forall|j: int| 0 <= j < part.row_seq().len() implies part.row_seq()[j]
        == picked_rows[j] by {
        let i = index[j];
        assert(picked_rows[j] == view.row(i));
        assert forall|c: int| 0 <= c < view.columns.len() implies part.columns[c][j]
            == view.columns[c][i] by {
            lemma_pick_by_index(view.columns[c], keys, cut, high);
        }
        assert(part.row(j).features =~= view.row(i).features);
    }
    assert(part.row_seq() =~= picked_rows);
}

/// A side of a well-formed table is a well-formed table.
pub proof fn lemma_side_wf(view: TableView, feature: int, cut: int, high: bool)
    requires
        view.wf(),
        0 <= feature < view.width(),
    ensures
        view.side(feature, cut, high).wf(),
        view.side(feature, cut, high).rows() <= view.rows(),
        view.side(feature, cut, high).width() == view.width(),
{
    let keys = view.columns[feature];
    let s = view.side(feature, cut, high);
    lemma_pick_shape(view.labels, keys, cut, high);
    assert forall|c: int| 0 <= c < s.columns.len() implies (#[trigger] s.columns[c]).len()
        == s.labels.len() by {
        lemma_pick_shape(view.columns[c], keys, cut, high);
    }
    assert forall|i: int| 0 <= i < s.labels.len() implies (#[trigger] s.labels[i])
        < s.classes by {
        assert(view.labels.contains(s.labels[i]));
    }
}

/// Feature columns of integers, one class label for each row, and the
/// number of classes.
#[derive(Debug)]
pub struct Table {
    columns: Vec<Vec<i64>>,
    labels: Vec<u32>,
    classes: usize,
}

/// The table of the given columns, labels and number of classes.
pub open spec fn assembled(columns: Seq<Vec<i64>>, labels: Seq<u32>, classes: nat) -> TableView {
    TableView { columns: Seq::new(columns.len(), |c: int| columns[c]@), labels, classes }
}

/// The values of `vals` on one side of the cut, by the keys of the rows.
pub fn picked<A: Copy>(vals: &Vec<A>, keys: &Vec<i64>, cutoff: i128, high: bool) -> (out: Vec<A>)
    requires
        vals@.len() == keys@.len(),
    ensures
        out@ == pick(vals@, keys@, cutoff as int, high),
{
    let mut out: Vec<A> = Vec::new();
    let mut i: usize = 0;
    while i < vals.len()
        invariant
            i <= vals.len(),
            vals@.len() == keys@.len(),
            out@ == pick(vals@.take(i as int), keys@.take(i as int), cutoff as int, high),
        decreases vals.len() - i,
    {
        proof {
            assert(vals@.take(i + 1).drop_last() =~= vals@.take(i as int));
            assert(keys@.take(i + 1).drop_last() =~= keys@.take(i as int));
        }
        let key: i128 = keys[i] as i128;
        if (2 * key >= cutoff) == high {
            out.push(vals[i]);
        }
        i = i + 1;
    }
    proof {
        assert(vals@.take(i as int) =~= vals@);
        assert(keys@.take(i as int) =~= keys@);
    }
    out
}

impl Table {
    /// What the table holds.
    pub closed spec fn view(&self) -> TableView {
        TableView {
            columns: Seq::new(self.columns@.len(), |c: int| self.columns@[c]@),
            labels: self.labels@,
            classes: self.classes as nat,
        }
    }

    /// Makes a table of `columns`, `labels` and the number of classes.
    /// More than `MAX_ROWS` labels are refused as too many rows; else
    /// columns that are not as long as the labels, and labels that are the
    /// code of no class, are refused as no table.
    pub fn new(columns: Vec<Vec<i64>>, labels: Vec<u32>, classes: usize) -> (made: Result<
        Table,
        BuildError,
    >)
        ensures
            match made {
                Ok(table) => table@ == assembled(columns@, labels@, classes as nat) && table@.wf(),
                Err(e) => !assembled(columns@, labels@, classes as nat).wf() && e == if labels@.len()
                    > MAX_ROWS {
                    BuildError::TooManyRows
                } else {
                    BuildError::Schema
                },
            },
    {
        let ghost view = assembled(columns@, labels@, classes as nat);
        if labels.len() > MAX_ROWS {
            return Err(BuildError::TooManyRows);
        }
        let mut c: usize = 0;
        while c < columns.len()
            invariant
                c <= columns.len(),
                labels@.len() <= MAX_ROWS,
                view == assembled(columns@, labels@, classes as nat),
                forall|d: int| 0 <= d < c ==> (#[trigger] columns@[d])@.len() == labels@.len(),
            decreases columns.len() - c,
        {
            if columns[c].len() != labels.len() {
                assert(view.columns.len() == columns@.len());
                assert(view.columns[c as int] == columns@[c as int]@);
                return Err(BuildError::Schema);
            }
            c = c + 1;
        }
        let mut i: usize = 0;
        while i < labels.len()
            invariant
                i <= labels.len(),
                labels@.len() <= MAX_ROWS,
                view == assembled(columns@, labels@, classes as nat),
                forall|j: int| 0 <= j < i ==> (#[trigger] labels@[j]) < classes,
            decreases labels.len() - i,
        {
            if labels[i] as usize >= classes {
                return Err(BuildError::Schema);
            }
            i = i + 1;
        }
        let table = Table { columns, labels, classes };
        assert(table@ == view);
        Ok(table)
    }

    /// The number of rows.
    pub fn rows(&self) -> (n: usize)
        ensures
            n == self@.rows(),
    {
        self.labels.len()
    }

    /// The number of feature columns.
    pub fn width(&self) -> (n: usize)
        ensures
            n == self@.width(),
    {
        self.columns.len()
    }

    /// The number of classes.
    pub fn classes(&self) -> (n: usize)
        ensures
            n == self@.classes,
    {
        self.classes
    }

    /// The labels, row by row.
    pub fn labels(&self) -> (labels: &Vec<u32>)
        ensures
            labels@ == self@.labels,
    {
        &self.labels
    }

    /// A feature column.
    pub fn column(&self, feature: usize) -> (column: Result<&Vec<i64>, BuildError>)
        ensures
            feature < self@.width() ==> column.is_ok() && column.unwrap()@
                == self@.columns[feature as int],
            feature >= self@.width() ==> column == Err::<&Vec<i64>, BuildError>(
                BuildError::Schema,
            ),
    {
        if feature < self.columns.len() {
            Ok(&self.columns[feature])
        } else {
            Err(BuildError::Schema)
        }
    }

    /// The table of the rows on one side of a cut through a feature.
    pub fn side(&self, feature: usize, cutoff: i128, high: bool) -> (part: Table)
        requires
            self@.wf(),
            feature < self@.width(),
        ensures
            part@ == self@.side(feature as int, cutoff as int, high),
            part@.wf(),
    {
        let keys = &self.columns[feature];
        let mut columns: Vec<Vec<i64>> = Vec::new();
        let mut c: usize = 0;
        while c < self.columns.len()
            invariant
                c <= self.columns.len(),
                self@.wf(),
                feature < self@.width(),
                keys@ == self@.columns[feature as int],
                columns@.len() == c,
                forall|d: int|
                    0 <= d < c ==> (#[trigger] columns@[d])@ == pick(
                        self@.columns[d],
                        keys@,
                        cutoff as int,
                        high,
                    ),
            decreases self.columns.len() - c,
        {
            assert(self@.columns[c as int].len() == self@.labels.len());
            assert(self@.columns[feature as int].len() == self@.labels.len());
            let column = picked(&self.columns[c], keys, cutoff, high);
            columns.push(column);
            c = c + 1;
        }
        assert(self@.columns[feature as int].len() == self@.labels.len());
        let labels = picked(&self.labels, keys, cutoff, high);
        let part = Table { columns, labels, classes: self.classes };
        proof {
            assert(part@.columns =~= self@.side(feature as int, cutoff as int, high).columns);
            lemma_side_wf(self@, feature as int, cutoff as int, high);
        }
        part
    }
}

} // verus!
