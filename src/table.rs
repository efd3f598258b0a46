//! Tables of typed records with an inverted index from (column, value) to
//! the rows that hold that value, and the selection query over them.
use vstd::prelude::*;
use crate::value::{render, DataType, ValueView};

verus! {

/// One candidate value for one column. A list of selections constrains each
/// column it names to the values listed for it (any of them), and every
/// column it names at once.
#[derive(Debug, Clone, PartialEq, Eq, Hash)]
pub struct Selection {
    pub column: String,
    pub value: String,
}

/// A selection as (column, value) character sequences.
pub type SelectionView = (Seq<char>, Seq<char>);

impl View for Selection {
    type V = SelectionView;

    open spec fn view(&self) -> SelectionView {
        (self.column@, self.value@)
    }
}

/// The views of a list of selections.
pub open spec fn sel_view(s: Seq<Selection>) -> Seq<SelectionView> {
    s.map_values(|x: Selection| x@)
}

impl Selection {
    /// Whether two selections name the same column and value.
    pub fn same(&self, other: &Selection) -> (r: bool)
        ensures
            r == (self@ == other@),
    {
        self.column == other.column && self.value == other.value
    }

    pub fn duplicate(&self) -> (r: Selection)
        ensures
            r@ == self@,
    {
        Selection { column: self.column.clone(), value: self.value.clone() }
    }
}

pub type Record = Vec<DataType>;

/// The values of a record.
pub open spec fn row_view(r: Record) -> Seq<ValueView> {
    r@.map(|_i: int, v: DataType| v@)
}

/// Whether a row holds the value spelled `v` in a column named `c`.
pub open spec fn cell_matches(cols: Seq<String>, row: Seq<ValueView>, c: Seq<char>, v: Seq<char>) -> bool {
    exists|i: int| 0 <= i < cols.len() && i < row.len() && #[trigger] cols[i]@ == c && render(row[i]) == v
}

/// Whether a row satisfies the constraint that `sel` puts on column `c`:
/// it holds one of the values selected for `c`.
pub open spec fn column_ok(cols: Seq<String>, row: Seq<ValueView>, sel: Seq<SelectionView>, c: Seq<char>) -> bool {
    exists|j: int| 0 <= j < sel.len() && #[trigger] sel[j].0 == c && cell_matches(cols, row, c, sel[j].1)
}

/// Whether a row satisfies every column that `sel` constrains.
pub open spec fn row_selected(cols: Seq<String>, row: Seq<ValueView>, sel: Seq<SelectionView>) -> bool {
    forall|j: int| 0 <= j < sel.len() ==> column_ok(cols, row, sel, #[trigger] sel[j].0)
}

/// The rows among the first `n` that satisfy `sel`, ascending.
pub open spec fn matching_rows(cols: Seq<String>, rows: Seq<Seq<ValueView>>, sel: Seq<SelectionView>, n: nat) -> Seq<usize>
    decreases n,
{
    if n == 0 {
        Seq::empty()
    } else {
        let prev = matching_rows(cols, rows, sel, (n - 1) as nat);
        if row_selected(cols, rows[n - 1], sel) {
            prev.push((n - 1) as usize)
        } else {
            prev
        }
    }
}

pub(crate) struct IndexEntry {
    pub(crate) column: String,
    pub(crate) value: String,
    pub(crate) rows: Vec<usize>,
}

/// A named table: an ordered list of columns, the records appended so far,
/// and an inverted index over their cells.
pub struct Table {
    pub(crate) name: String,
    pub(crate) columns: Vec<String>,
    pub(crate) records: Vec<Record>,
    pub(crate) index: Vec<IndexEntry>,
}

/// A record whose length differs from the table's number of columns.
#[derive(Debug, Clone, PartialEq, Eq)]
pub struct ArityError {
    pub expected: usize,
    pub found: usize,
}

/// Whether one of the first `m` cells of a row, in a column named `c`, is spelled `v`.
pub open spec fn prefix_matches(cols: Seq<String>, row: Seq<ValueView>, c: Seq<char>, v: Seq<char>, m: int) -> bool {
    exists|i: int| 0 <= i < m && #[trigger] cols[i]@ == c && render(row[i]) == v
}

pub(crate) open spec fn has_entry(idx: Seq<IndexEntry>, c: Seq<char>, v: Seq<char>) -> bool {
    exists|e: int| 0 <= e < idx.len() && #[trigger] idx[e].column@ == c && idx[e].value@ == v
}

impl Table {
    pub open(crate) spec fn name_spec(&self) -> Seq<char> {
        self.name@
    }

    pub open(crate) spec fn columns_spec(&self) -> Seq<String> {
        self.columns@
    }

    pub open(crate) spec fn records_spec(&self) -> Seq<Record> {
        self.records@
    }

    /// The table's rows as sequences of values.
    pub open spec fn rows_spec(&self) -> Seq<Seq<ValueView>> {
        self.records_spec().map(|_i: int, r: Record| row_view(r))
    }

    /// The rows that satisfy `sel`, ascending.
    pub open spec fn possible_spec(&self, sel: Seq<SelectionView>) -> Seq<usize> {
        matching_rows(self.columns_spec(), self.rows_spec(), sel, self.rows_spec().len())
    }

    /// Every record has one value per column, and the index lists, for each
    /// (column, value) pair that occurs, exactly the rows holding it, ascending.
    pub open(crate) spec fn wf(&self) -> bool {
        let n = self.records@.len();
        let cols = self.columns@;
        &&& forall|r: int| 0 <= r < n ==> (#[trigger] self.records@[r]).len() == cols.len()
        &&& forall|a: int, b: int|
            0 <= a < self.index@.len() && 0 <= b < self.index@.len() && a != b ==> !(
            #[trigger] self.index@[a].column@ == #[trigger] self.index@[b].column@
                && self.index@[a].value@ == self.index@[b].value@)
        &&& forall|e: int, k: int|
            0 <= e < self.index@.len() && 0 <= k < self.index@[e].rows@.len() ==> #[trigger] self.index@[e].rows@[k] < n
        &&& forall|e: int, a: int, b: int|
            0 <= e < self.index@.len() && 0 <= a < b < self.index@[e].rows@.len() ==> #[trigger] self.index@[e].rows@[a]
                < #[trigger] self.index@[e].rows@[b]
        &&& forall|e: int, r: int|
            0 <= e < self.index@.len() && 0 <= r < n ==> (#[trigger] self.index@[e].rows@.contains(r as usize)
                <==> cell_matches(cols, row_view(#[trigger] self.records@[r]), self.index@[e].column@, self.index@[e].value@))
        &&& forall|r: int, i: int|
            0 <= r < n && 0 <= i < cols.len() ==> has_entry(self.index@, #[trigger] cols[i]@, render(#[trigger] self.records@[r]@[i]@))
    }

    /// An empty table with the given columns.
    pub fn new(name: &str, columns: Vec<String>) -> (r: Table)
        ensures
            r.wf(),
            r.name_spec() == name@,
            r.columns_spec() == columns@,
            r.records_spec().len() == 0,
    {
        let cs = crate::text::chars_of(name);
        let n = crate::text::string_of(&cs);
        Table { name: n, columns, records: Vec::new(), index: Vec::new() }
    }
}


/// The position of the index entry for `(c, v)`, if there is one.
fn find_entry(idx: &Vec<IndexEntry>, c: &String, v: &String) -> (r: Option<usize>)
    ensures
        match r {
            Some(e) => e < idx@.len() && idx@[e as int].column@ == c@ && idx@[e as int].value@ == v@,
            None => !has_entry(idx@, c@, v@),
        },
{
    let mut e: usize = 0;
    while e < idx.len()
        invariant
            e <= idx@.len(),
            forall|k: int| 0 <= k < e ==> !(#[trigger] idx@[k].column@ == c@ && idx@[k].value@ == v@),
        decreases idx.len() - e,
    {
        if idx[e].column == *c && idx[e].value == *v {
            return Some(e);
        }
        e = e + 1;
    }
    None
}

impl Table {
    /// Appends a record and indexes each of its cells under its column and
    /// canonical spelling. A record whose length is not the number of
    /// columns is refused and leaves the table as it was.
    pub fn insert(&mut self, record: Record) -> (r: Result<(), ArityError>)
        requires
            old(self).wf(),
        ensures
            final(self).wf(),
            final(self).name_spec() == old(self).name_spec(),
            final(self).columns_spec() == old(self).columns_spec(),
            record@.len() == old(self).columns_spec().len() ==> r is Ok && final(self).records_spec()
                == old(self).records_spec().push(record),
            record@.len() != old(self).columns_spec().len() ==> r == Err::<(), ArityError>(
                ArityError { expected: old(self).columns_spec().len() as usize, found: record@.len() as usize },
            ) && final(self).records_spec() == old(self).records_spec(),
    {
        let n = self.records.len();
        let arity = self.columns.len();
        if record.len() != arity {
            return Err(ArityError { expected: arity, found: record.len() });
        }
        let ghost rec = record;
        let ghost old_index = self.index@;
        self.records.push(record);
        assert(self.records@[n as int] == rec);
        let mut i: usize = 0;
        while i < arity
            invariant
                n == old(self).records@.len(),
                arity == self.columns@.len(),
                rec@.len() == arity,
                self.records@ == old(self).records@.push(rec),
                self.columns@ == old(self).columns@,
                self.name@ == old(self).name@,
                i <= arity,
                forall|r: int| 0 <= r < n + 1 ==> (#[trigger] self.records@[r]).len() == arity,
                forall|a: int, b: int|
                    0 <= a < self.index@.len() && 0 <= b < self.index@.len() && a != b ==> !(
                    #[trigger] self.index@[a].column@ == #[trigger] self.index@[b].column@
                        && self.index@[a].value@ == self.index@[b].value@),
                forall|e: int, k: int|
                    0 <= e < self.index@.len() && 0 <= k < self.index@[e].rows@.len() ==> #[trigger] self.index@[e].rows@[k]
                        < n + 1,
                forall|e: int, a: int, b: int|
                    0 <= e < self.index@.len() && 0 <= a < b < self.index@[e].rows@.len() ==> #[trigger] self.index@[e].rows@[a]
                        < #[trigger] self.index@[e].rows@[b],
                forall|e: int, r: int|
                    0 <= e < self.index@.len() && 0 <= r < n ==> (#[trigger] self.index@[e].rows@.contains(r as usize)
                        <==> cell_matches(self.columns@, row_view(#[trigger] self.records@[r]), self.index@[e].column@, self.index@[e].value@)),
                forall|e: int|
                    0 <= e < self.index@.len() ==> (#[trigger] self.index@[e].rows@.contains(n)
                        <==> prefix_matches(self.columns@, row_view(rec), self.index@[e].column@, self.index@[e].value@, i as int)),
                forall|r: int, i2: int|
                    0 <= r < n && 0 <= i2 < arity ==> has_entry(self.index@, #[trigger] self.columns@[i2]@, render(#[trigger] self.records@[r]@[i2]@)),
                forall|i2: int|
                    0 <= i2 < i ==> has_entry(self.index@, #[trigger] self.columns@[i2]@, render(rec@[i2]@)),
            decreases arity - i,
        {
            let v = self.records[n][i].to_string();
            assert(row_view(rec)[i as int] == rec@[i as int]@);
            let ghost before = self.index@;
            match find_entry(&self.index, &self.columns[i], &v) {
                Some(e) => {
                    let len = self.index[e].rows.len();
                    if len == 0 || self.index[e].rows[len - 1] != n {
                        proof {
                            if before[e as int].rows@.contains(n) {
                                let k = choose|k: int| 0 <= k < len && before[e as int].rows@[k] == n;
                                if k < len - 1 {
                                    assert(before[e as int].rows@[k] < before[e as int].rows@[len - 1]);
                                }
                            }
                        }
                        self.index[e].rows.push(n);
                    }
                    proof {
                        assert forall|e2: int, r: int|
                            0 <= e2 < self.index@.len() && 0 <= r < n implies (#[trigger] self.index@[e2].rows@.contains(r as usize)
                                <==> cell_matches(self.columns@, row_view(#[trigger] self.records@[r]), self.index@[e2].column@, self.index@[e2].value@)) by {
                            if e2 < before.len() {
                                assert(before[e2].column@ == self.index@[e2].column@);
                                assert(before[e2].value@ == self.index@[e2].value@);
                                assert(before[e2].rows@.contains(r as usize) <==> self.index@[e2].rows@.contains(r as usize)) by {
                                    if before[e2].rows@.contains(r as usize) {
                                        let k = choose|k: int| 0 <= k < before[e2].rows@.len() && before[e2].rows@[k] == r as usize;
                                        assert(self.index@[e2].rows@[k] == r as usize);
                                    }
                                    if self.index@[e2].rows@.contains(r as usize) {
                                        let k = choose|k: int| 0 <= k < self.index@[e2].rows@.len() && self.index@[e2].rows@[k] == r as usize;
                                        assert(k < before[e2].rows@.len());
                                        assert(before[e2].rows@[k] == r as usize);
                                    }
                                }
                            } else {
                                assert(self.index@[e2].rows@ == seq![n]);
                                if self.index@[e2].rows@.contains(r as usize) {
                                    assert(self.index@[e2].rows@[0] == r);
                                }
                            }
                        }
                        assert forall|e2: int| 0 <= e2 < self.index@.len() implies (#[trigger] self.index@[e2].rows@.contains(n)
                            <==> prefix_matches(self.columns@, row_view(rec), self.index@[e2].column@, self.index@[e2].value@, i + 1)) by {
                            if e2 == e {
                                assert(self.index@[e2].rows@.contains(n)) by {
                                    if self.index@[e2].rows@ == before[e2].rows@ {
                                        assert(self.index@[e2].rows@[len - 1] == n);
                                    } else {
                                        assert(self.index@[e2].rows@[len as int] == n);
                                    }
                                }
                                assert(self.columns@[i as int]@ == self.index@[e2].column@);
                            } else {
                                assert(self.index@[e2] == before[e2]);
                                if prefix_matches(self.columns@, row_view(rec), self.index@[e2].column@, self.index@[e2].value@, i + 1) {
                                    let w = choose|w: int| 0 <= w < i + 1 && #[trigger] self.columns@[w]@ == self.index@[e2].column@
                                        && render(row_view(rec)[w]) == self.index@[e2].value@;
                                    if w == i {
                                        assert(!(before[e2].column@ == before[e as int].column@ && before[e2].value@ == before[e as int].value@));
                                    }
                                }
                            }
                        }
                        assert forall|r: int, i2: int|
                            0 <= r < n && 0 <= i2 < arity implies has_entry(self.index@, #[trigger] self.columns@[i2]@, render(#[trigger] self.records@[r]@[i2]@)) by {
                            assert(has_entry(before, self.columns@[i2]@, render(self.records@[r]@[i2]@)));
                            let w = choose|w: int| 0 <= w < before.len() && #[trigger] before[w].column@ == self.columns@[i2]@ && before[w].value@ == render(self.records@[r]@[i2]@);
                            assert(self.index@[w].column@ == before[w].column@);
                        }
                        assert forall|i2: int| 0 <= i2 < i + 1 implies has_entry(self.index@, #[trigger] self.columns@[i2]@, render(rec@[i2]@)) by {
                            if i2 < i {
                                assert(has_entry(before, self.columns@[i2]@, render(rec@[i2]@)));
                                let w = choose|w: int| 0 <= w < before.len() && #[trigger] before[w].column@ == self.columns@[i2]@ && before[w].value@ == render(rec@[i2]@);
                                assert(self.index@[w].column@ == before[w].column@);
                            } else {
                                assert(self.index@[e as int].column@ == self.columns@[i2]@);
                            }
                        }
                    }
                },
                None => {
                    let mut rows: Vec<usize> = Vec::new();
                    rows.push(n);
                    let column = self.columns[i].clone();
                    self.index.push(IndexEntry { column, value: v, rows });
                    proof {
                        let last = before.len() as int;
                        assert forall|e2: int, r: int|
                            0 <= e2 < self.index@.len() && 0 <= r < n implies (#[trigger] self.index@[e2].rows@.contains(r as usize)
                                <==> cell_matches(self.columns@, row_view(#[trigger] self.records@[r]), self.index@[e2].column@, self.index@[e2].value@)) by {
                            if e2 < before.len() {
                                assert(before[e2].column@ == self.index@[e2].column@);
                                assert(before[e2].value@ == self.index@[e2].value@);
                                assert(before[e2].rows@.contains(r as usize) <==> self.index@[e2].rows@.contains(r as usize)) by {
                                    if before[e2].rows@.contains(r as usize) {
                                        let k = choose|k: int| 0 <= k < before[e2].rows@.len() && before[e2].rows@[k] == r as usize;
                                        assert(self.index@[e2].rows@[k] == r as usize);
                                    }
                                    if self.index@[e2].rows@.contains(r as usize) {
                                        let k = choose|k: int| 0 <= k < self.index@[e2].rows@.len() && self.index@[e2].rows@[k] == r as usize;
                                        assert(k < before[e2].rows@.len());
                                        assert(before[e2].rows@[k] == r as usize);
                                    }
                                }
                            } else {
                                assert(self.index@[e2].rows@ == seq![n]);
                                if self.index@[e2].rows@.contains(r as usize) {
                                    assert(self.index@[e2].rows@[0] == r);
                                }
                            }
                        }
                        assert forall|r: int| 0 <= r < n implies !cell_matches(self.columns@, row_view(#[trigger] self.records@[r]), self.index@[last].column@, self.index@[last].value@) by {
                            if cell_matches(self.columns@, row_view(self.records@[r]), self.index@[last].column@, self.index@[last].value@) {
                                let w = choose|w: int| 0 <= w < self.columns@.len() && w < row_view(self.records@[r]).len() && #[trigger] self.columns@[w]@ == self.index@[last].column@
                                    && render(row_view(self.records@[r])[w]) == self.index@[last].value@;
                                assert(row_view(self.records@[r])[w] == self.records@[r]@[w]@);
                                assert(has_entry(before, self.columns@[w]@, render(self.records@[r]@[w]@)));
                            }
                        }
                        assert forall|e2: int| 0 <= e2 < self.index@.len() implies (#[trigger] self.index@[e2].rows@.contains(n)
                            <==> prefix_matches(self.columns@, row_view(rec), self.index@[e2].column@, self.index@[e2].value@, i + 1)) by {
                            if e2 == last {
                                assert(self.index@[e2].rows@[0] == n);
                                assert(self.columns@[i as int]@ == self.index@[e2].column@);
                            } else {
                                assert(self.index@[e2] == before[e2]);
                                if prefix_matches(self.columns@, row_view(rec), self.index@[e2].column@, self.index@[e2].value@, i + 1) {
                                    let w = choose|w: int| 0 <= w < i + 1 && #[trigger] self.columns@[w]@ == self.index@[e2].column@
                                        && render(row_view(rec)[w]) == self.index@[e2].value@;
                                    if w == i {
                                        assert(has_entry(before, self.index@[e2].column@, self.index@[e2].value@));
                                    }
                                }
                            }
                        }
                        assert forall|r: int, i2: int|
                            0 <= r < n && 0 <= i2 < arity implies has_entry(self.index@, #[trigger] self.columns@[i2]@, render(#[trigger] self.records@[r]@[i2]@)) by {
                            assert(has_entry(before, self.columns@[i2]@, render(self.records@[r]@[i2]@)));
                            let w = choose|w: int| 0 <= w < before.len() && #[trigger] before[w].column@ == self.columns@[i2]@ && before[w].value@ == render(self.records@[r]@[i2]@);
                            assert(self.index@[w] == before[w]);
                        }
                        assert forall|i2: int| 0 <= i2 < i + 1 implies has_entry(self.index@, #[trigger] self.columns@[i2]@, render(rec@[i2]@)) by {
                            if i2 < i {
                                assert(has_entry(before, self.columns@[i2]@, render(rec@[i2]@)));
                                let w = choose|w: int| 0 <= w < before.len() && #[trigger] before[w].column@ == self.columns@[i2]@ && before[w].value@ == render(rec@[i2]@);
                                assert(self.index@[w] == before[w]);
                            } else {
                                assert(self.index@[last].column@ == self.columns@[i2]@);
                            }
                        }
                    }
                },
            }
            i = i + 1;
        }
        proof {
            assert forall|e: int, r: int|
                0 <= e < self.index@.len() && 0 <= r < n + 1 implies (#[trigger] self.index@[e].rows@.contains(r as usize)
                    <==> cell_matches(self.columns@, row_view(#[trigger] self.records@[r]), self.index@[e].column@, self.index@[e].value@)) by {
                if r == n {
                    assert(self.records@[r] == rec);
                    let c = self.index@[e].column@;
                    let v = self.index@[e].value@;
                    if prefix_matches(self.columns@, row_view(rec), c, v, arity as int) {
                        let w = choose|w: int| 0 <= w < arity && #[trigger] self.columns@[w]@ == c && render(row_view(rec)[w]) == v;
                        assert(self.columns@[w]@ == c);
                    }
                    if cell_matches(self.columns@, row_view(rec), c, v) {
                        let w = choose|w: int| 0 <= w < self.columns@.len() && w < row_view(rec).len() && #[trigger] self.columns@[w]@ == c && render(row_view(rec)[w]) == v;
                        assert(self.columns@[w]@ == c);
                    }
                }
            }
            assert forall|r: int, i2: int|
                0 <= r < n + 1 && 0 <= i2 < arity implies has_entry(self.index@, #[trigger] self.columns@[i2]@, render(#[trigger] self.records@[r]@[i2]@)) by {
                if r == n {
                    assert(self.records@[r] == rec);
                    assert(has_entry(self.index@, self.columns@[i2]@, render(rec@[i2]@)));
                }
            }
        }
        Ok(())
    }
}


/// The records at the given ids that exist, in the order of the ids.
pub open spec fn records_at(records: Seq<Record>, ids: Seq<usize>) -> Seq<Record>
    decreases ids.len(),
{
    if ids.len() == 0 {
        Seq::empty()
    } else {
        let prev = records_at(records, ids.drop_last());
        if (ids.last() as int) < records.len() {
            prev.push(records[ids.last() as int])
        } else {
            prev
        }
    }
}

/// Whether some column is named `c`.
pub open spec fn declares(cols: Seq<String>, c: Seq<char>) -> bool {
    exists|i: int| 0 <= i < cols.len() && #[trigger] cols[i]@ == c
}

/// The position of the first column named `c`, or -1.
pub open spec fn find_col(cols: Seq<String>, c: Seq<char>) -> int
    decreases cols.len(),
{
    if cols.len() == 0 {
        -1
    } else if cols[0]@ == c {
        0
    } else if find_col(cols.drop_first(), c) < 0 {
        -1
    } else {
        find_col(cols.drop_first(), c) + 1
    }
}

/// A string with the characters of `s`.
pub(crate) fn owned(s: &str) -> (r: String)
    ensures
        r@ == s@,
{
    crate::text::string_of(&crate::text::chars_of(s))
}

impl Table {
    /// The table's name.
    pub fn get_name(&self) -> (r: &String)
        ensures
            r@ == self.name_spec(),
    {
        &self.name
    }

    /// The table's columns, in order.
    pub fn get_columns(&self) -> (r: &Vec<String>)
        ensures
            r@ == self.columns_spec(),
    {
        &self.columns
    }

    /// The table's records, in order of insertion.
    pub fn get_records(&self) -> (r: &Vec<Record>)
        ensures
            r@ == self.records_spec(),
    {
        &self.records
    }

    /// The position of the first column named `col`, if any.
    pub fn get_col_index(&self, col: &str) -> (r: Option<usize>)
        ensures
            match r {
                Some(i) => i < self.columns_spec().len() && self.columns_spec()[i as int]@ == col@ && forall|j: int|
                    0 <= j < i ==> (#[trigger] self.columns_spec()[j])@ != col@,
                None => !declares(self.columns_spec(), col@),
            },
            match r {
                Some(i) => i as int == find_col(self.columns_spec(), col@),
                None => find_col(self.columns_spec(), col@) == -1,
            },
    {
        let target = owned(col);
        let mut i: usize = 0;
        assert(self.columns@.skip(0) =~= self.columns@);
        while i < self.columns.len()
            invariant
                i <= self.columns@.len(),
                target@ == col@,
                forall|j: int| 0 <= j < i ==> (#[trigger] self.columns@[j])@ != col@,
                find_col(self.columns@, col@) == (if find_col(self.columns@.skip(i as int), col@) < 0 {
                    -1
                } else {
                    find_col(self.columns@.skip(i as int), col@) + i
                }),
            decreases self.columns.len() - i,
        {
            assert(self.columns@.skip(i as int)[0] == self.columns@[i as int]);
            assert(self.columns@.skip(i as int).drop_first() =~= self.columns@.skip(i + 1));
            if self.columns[i] == target {
                return Some(i);
            }
            i = i + 1;
        }
        None
    }

    /// For each row, whether it holds one of the values that `selection`
    /// lists for column `c`.
    fn column_hits(&self, selection: &Vec<Selection>, c: &String) -> (hit: Vec<bool>)
        requires
            self.wf(),
        ensures
            hit@.len() == self.records@.len(),
            forall|r: int| 0 <= r < self.records@.len() ==> #[trigger] hit@[r] == column_ok(self.columns@, self.rows_spec()[r], sel_view(selection@), c@),
    {
        let n = self.records.len();
        let mut hit: Vec<bool> = Vec::new();
        while hit.len() < n
            invariant
                hit@.len() <= n,
                forall|r: int| 0 <= r < hit@.len() ==> !#[trigger] hit@[r],
            decreases n - hit@.len(),
        {
            hit.push(false);
        }
        let mut j: usize = 0;
        while j < selection.len()
            invariant
                self.wf(),
                n == self.records@.len(),
                hit@.len() == n,
                j <= selection@.len(),
                forall|r: int| 0 <= r < n ==> #[trigger] hit@[r] == exists|j3: int| 0 <= j3 < j && #[trigger] sel_view(selection@)[j3].0 == c@
                    && cell_matches(self.columns@, self.rows_spec()[r], c@, sel_view(selection@)[j3].1),
            decreases selection.len() - j,
        {
            let ghost prev = hit@;
            if selection[j].column == *c {
                match find_entry(&self.index, c, &selection[j].value) {
                    Some(e) => {
                        let bucket = &self.index[e].rows;
                        let mut k: usize = 0;
                        while k < bucket.len()
                            invariant
                                self.wf(),
                                n == self.records@.len(),
                                e < self.index@.len(),
                                bucket@ == self.index@[e as int].rows@,
                                hit@.len() == n,
                                k <= bucket@.len(),
                                forall|r: int| 0 <= r < n ==> #[trigger] hit@[r] == (prev[r] || exists|k2: int| 0 <= k2 < k && bucket@[k2] == r),
                            decreases bucket.len() - k,
                        {
                            let row = bucket[k];
                            assert(row < n);
                            hit.set(row, true);
                            k = k + 1;
                            assert forall|r: int| 0 <= r < n implies #[trigger] hit@[r] == (prev[r] || exists|k2: int| 0 <= k2 < k && bucket@[k2] == r) by {
                                if r == row {
                                    assert(bucket@[k - 1] == r);
                                }
                            }
                        }
                        assert forall|r: int| 0 <= r < n implies #[trigger] hit@[r] == (prev[r] || cell_matches(self.columns@, self.rows_spec()[r], c@, sel_view(selection@)[j as int].1)) by {
                            assert(self.rows_spec()[r] == row_view(self.records@[r]));
                            assert(bucket@.contains(r as usize) <==> cell_matches(self.columns@, row_view(self.records@[r]), self.index@[e as int].column@, self.index@[e as int].value@));
                            if bucket@.contains(r as usize) {
                                let k2 = choose|k2: int| 0 <= k2 < bucket@.len() && bucket@[k2] == r as usize;
                                assert(bucket@[k2] == r);
                            }
                        }
                    },
                    None => {
                        assert forall|r: int| 0 <= r < n implies !cell_matches(self.columns@, self.rows_spec()[r], c@, sel_view(selection@)[j as int].1) by {
                            assert(self.rows_spec()[r] == row_view(self.records@[r]));
                            if cell_matches(self.columns@, self.rows_spec()[r], c@, sel_view(selection@)[j as int].1) {
                                let w = choose|w: int| 0 <= w < self.columns@.len() && w < self.rows_spec()[r].len() && #[trigger] self.columns@[w]@ == c@
                                    && render(self.rows_spec()[r][w]) == sel_view(selection@)[j as int].1;
                                assert(self.rows_spec()[r][w] == self.records@[r]@[w]@);
                                assert(has_entry(self.index@, self.columns@[w]@, render(self.records@[r]@[w]@)));
                            }
                        }
                    },
                }
            }
            j = j + 1;
            assert forall|r: int| 0 <= r < n implies #[trigger] hit@[r] == exists|j3: int| 0 <= j3 < j && #[trigger] sel_view(selection@)[j3].0 == c@
                && cell_matches(self.columns@, self.rows_spec()[r], c@, sel_view(selection@)[j3].1) by {
                if cell_matches(self.columns@, self.rows_spec()[r], c@, sel_view(selection@)[j - 1].1) && sel_view(selection@)[j - 1].0 == c@ {
                    assert(sel_view(selection@)[j - 1].0 == c@);
                }
            }
        }
        hit
    }

    /// The ids of the rows that satisfy `selection`, ascending: every row
    /// when it is empty; otherwise those that hold, for every column it
    /// names, one of the values it lists for that column.
    pub fn possible_rows(&self, selection: &Vec<Selection>) -> (r: Vec<usize>)
        requires
            self.wf(),
        ensures
            r@ == self.possible_spec(sel_view(selection@)),
    {
        let n = self.records.len();
        let mut keep: Vec<bool> = Vec::new();
        while keep.len() < n
            invariant
                keep@.len() <= n,
                forall|r: int| 0 <= r < keep@.len() ==> #[trigger] keep@[r],
            decreases n - keep@.len(),
        {
            keep.push(true);
        }
        let mut j: usize = 0;
        while j < selection.len()
            invariant
                self.wf(),
                n == self.records@.len(),
                keep@.len() == n,
                j <= selection@.len(),
                forall|r: int| 0 <= r < n ==> #[trigger] keep@[r] == forall|j2: int| 0 <= j2 < j ==> column_ok(self.columns@, self.rows_spec()[r], sel_view(selection@), #[trigger] sel_view(selection@)[j2].0),
            decreases selection.len() - j,
        {
            let hit = self.column_hits(selection, &selection[j].column);
            let ghost prev = keep@;
            let mut r: usize = 0;
            while r < n
                invariant
                    n == self.records@.len(),
                    keep@.len() == n,
                    hit@.len() == n,
                    r <= n,
                    forall|q: int| 0 <= q < r ==> #[trigger] keep@[q] == (prev[q] && hit@[q]),
                    forall|q: int| r <= q < n ==> #[trigger] keep@[q] == prev[q],
                decreases n - r,
            {
                let both = keep[r] && hit[r];
                keep.set(r, both);
                r = r + 1;
            }
            j = j + 1;
            assert forall|q: int| 0 <= q < n implies #[trigger] keep@[q] == forall|j2: int| 0 <= j2 < j ==> column_ok(self.columns@, self.rows_spec()[q], sel_view(selection@), #[trigger] sel_view(selection@)[j2].0) by {
                if keep@[q] {
                    assert forall|j2: int| 0 <= j2 < j implies column_ok(self.columns@, self.rows_spec()[q], sel_view(selection@), #[trigger] sel_view(selection@)[j2].0) by {
                        if j2 < j - 1 {
                            assert(prev[q]);
                        }
                    }
                } else {
                    if prev[q] {
                        assert(!column_ok(self.columns@, self.rows_spec()[q], sel_view(selection@), sel_view(selection@)[j - 1].0));
                    }
                }
            }
        }
        let mut out: Vec<usize> = Vec::new();
        let mut r: usize = 0;
        while r < n
            invariant
                n == self.records@.len(),
                keep@.len() == n,
                r <= n,
                forall|q: int| 0 <= q < n ==> #[trigger] keep@[q] == row_selected(self.columns@, self.rows_spec()[q], sel_view(selection@)),
                out@ == matching_rows(self.columns@, self.rows_spec(), sel_view(selection@), r as nat),
            decreases n - r,
        {
            if keep[r] {
                out.push(r);
            }
            r = r + 1;
        }
        out
    }

    /// The records at the given ids, skipping ids past the end.
    pub fn get_rows_by_id(&self, row_ids: &Vec<usize>) -> (r: Vec<&Record>)
        ensures
            r@.map(|_i: int, x: &Record| *x) == records_at(self.records_spec(), row_ids@),
    {
        let mut out: Vec<&Record> = Vec::new();
        let mut k: usize = 0;
        while k < row_ids.len()
            invariant
                k <= row_ids@.len(),
                out@.map(|_i: int, x: &Record| *x) == records_at(self.records@, row_ids@.take(k as int)),
            decreases row_ids.len() - k,
        {
            let id = row_ids[k];
            assert(row_ids@.take(k + 1).drop_last() =~= row_ids@.take(k as int));
            if id < self.records.len() {
                out.push(&self.records[id]);
            }
            k = k + 1;
            assert(out@.map(|_i: int, x: &Record| *x) =~= records_at(self.records@, row_ids@.take(k as int)));
        }
        assert(row_ids@.take(row_ids.len() as int) =~= row_ids@);
        out
    }
}


/// The rows that `matching_rows` lists are exactly the selected rows below
/// `n`, in strictly ascending order.
pub proof fn lemma_matching_rows(cols: Seq<String>, rows: Seq<Seq<ValueView>>, sel: Seq<SelectionView>, n: nat)
    requires
        n <= rows.len(),
        n <= usize::MAX,
    ensures
        forall|k: int| 0 <= k < matching_rows(cols, rows, sel, n).len() ==> (#[trigger] matching_rows(cols, rows, sel, n)[k]) < n,
        forall|a: int, b: int| 0 <= a < b < matching_rows(cols, rows, sel, n).len() ==> #[trigger] matching_rows(cols, rows, sel, n)[a]
            < #[trigger] matching_rows(cols, rows, sel, n)[b],
        forall|r: int| 0 <= r < n ==> (matching_rows(cols, rows, sel, n).contains(r as usize) <==> row_selected(cols, #[trigger] rows[r], sel)),
        matching_rows(cols, rows, sel, n).len() <= n,
    decreases n,
{
    if n > 0 {
        lemma_matching_rows(cols, rows, sel, (n - 1) as nat);
        let prev = matching_rows(cols, rows, sel, (n - 1) as nat);
        let cur = matching_rows(cols, rows, sel, n);
        assert forall|r: int| 0 <= r < n implies (cur.contains(r as usize) <==> row_selected(cols, #[trigger] rows[r], sel)) by {
            if r < n - 1 {
                if cur.contains(r as usize) && !prev.contains(r as usize) {
                    let k = choose|k: int| 0 <= k < cur.len() && cur[k] == r as usize;
                    assert(k == prev.len());
                }
                if prev.contains(r as usize) {
                    let k = choose|k: int| 0 <= k < prev.len() && prev[k] == r as usize;
                    assert(cur[k] == r as usize);
                }
            } else {
                if row_selected(cols, rows[r], sel) {
                    assert(cur[prev.len() as int] == r as usize);
                } else if cur.contains(r as usize) {
                    let k = choose|k: int| 0 <= k < cur.len() && cur[k] == r as usize;
                    assert(prev[k] < n - 1);
                }
            }
        }
    }
}

/// Fetching records at ids that all exist gives one record per id.
pub proof fn lemma_records_at_all(records: Seq<Record>, ids: Seq<usize>)
    requires
        forall|k: int| 0 <= k < ids.len() ==> (#[trigger] ids[k] as int) < records.len(),
    ensures
        records_at(records, ids).len() == ids.len(),
        forall|k: int| 0 <= k < ids.len() ==> #[trigger] records_at(records, ids)[k] == records[ids[k] as int],
    decreases ids.len(),
{
    if ids.len() > 0 {
        let init = ids.drop_last();
        assert forall|k: int| 0 <= k < init.len() implies (#[trigger] init[k] as int) < records.len() by {
            assert(init[k] == ids[k]);
        }
        lemma_records_at_all(records, init);
        assert(ids.last() == ids[ids.len() - 1]);
    }
}

impl Table {
    /// The records that satisfy `selection`, in row order.
    pub fn get_possible(&self, selection: &Vec<Selection>) -> (r: Vec<&Record>)
        requires
            self.wf(),
        ensures
            r@.len() == self.possible_spec(sel_view(selection@)).len(),
            forall|k: int| 0 <= k < r@.len() ==> *#[trigger] r@[k] == self.records_spec()[self.possible_spec(sel_view(selection@))[k] as int],
    {
        let ids = self.possible_rows(selection);
        let n = self.records.len();
        proof {
            assert(self.rows_spec().len() == n);
            lemma_matching_rows(self.columns@, self.rows_spec(), sel_view(selection@), self.rows_spec().len());
            lemma_records_at_all(self.records@, ids@);
        }
        let out = self.get_rows_by_id(&ids);
        proof {
            let m = out@.map(|_i: int, x: &Record| *x);
            assert forall|k: int| 0 <= k < out@.len() implies *#[trigger] out@[k] == self.records_spec()[ids@[k] as int] by {
                assert(m[k] == *out@[k]);
            }
        }
        out
    }

    /// The number of records.
    pub fn len(&self) -> (r: usize)
        ensures
            r == self.records_spec().len(),
    {
        self.records.len()
    }
}

} // verus!
