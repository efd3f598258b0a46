//! A live view of one table: the current selection, the rows it keeps, and
//! aggregates over them.
use vstd::prelude::*;
use crate::table::{find_col, sel_view, Selection, SelectionView, Table};
use crate::value::{add_spec, compare_spec, is_numeric, opt_view, DataType, ValueView};

verus! {

/// The selection after selecting `s`: unchanged if it already holds `s`,
/// else with `s` appended.
pub open spec fn select_view(sel: Seq<SelectionView>, s: SelectionView) -> Seq<SelectionView> {
    if sel.contains(s) {
        sel
    } else {
        sel.push(s)
    }
}

/// The selection with its first occurrence of `s` taken out, if any.
pub open spec fn remove_first(sel: Seq<SelectionView>, s: SelectionView) -> Seq<SelectionView>
    decreases sel.len(),
{
    if sel.len() == 0 {
        sel
    } else if sel[0] == s {
        sel.drop_first()
    } else {
        seq![sel[0]] + remove_first(sel.drop_first(), s)
    }
}

/// The values in column `i` of the given rows.
pub open spec fn column_values(rows: Seq<Seq<ValueView>>, ids: Seq<usize>, i: int) -> Seq<ValueView> {
    ids.map_values(|id: usize| rows[id as int][i])
}

/// The numbers among `vals`, in order; text is left out.
pub open spec fn numbers(vals: Seq<ValueView>) -> Seq<ValueView>
    decreases vals.len(),
{
    if vals.len() == 0 {
        Seq::empty()
    } else if is_numeric(vals.last()) {
        numbers(vals.drop_last()).push(vals.last())
    } else {
        numbers(vals.drop_last())
    }
}

/// The sum of a non-empty list, added from the left; `None` once a partial
/// sum cannot be held.
pub open spec fn reduce_sum(vals: Seq<ValueView>) -> Option<ValueView>
    decreases vals.len(),
{
    if vals.len() <= 1 {
        if vals.len() == 1 {
            Some(vals[0])
        } else {
            None
        }
    } else {
        match reduce_sum(vals.drop_last()) {
            Some(a) => add_spec(a, vals.last()),
            None => None,
        }
    }
}

/// The sum of a list: the integer zero when it is empty.
pub open spec fn sum_spec(vals: Seq<ValueView>) -> Option<ValueView> {
    if vals.len() == 0 {
        Some(ValueView::Int(0))
    } else {
        reduce_sum(vals)
    }
}

/// The largest of a non-empty list; the last of equal largest ones.
pub open spec fn max_spec(vals: Seq<ValueView>) -> ValueView
    decreases vals.len(),
{
    if vals.len() <= 1 {
        vals[0]
    } else {
        let m = max_spec(vals.drop_last());
        if compare_spec(m, vals.last()) == std::cmp::Ordering::Greater {
            m
        } else {
            vals.last()
        }
    }
}

/// The smallest of a non-empty list; the first of equal smallest ones.
pub open spec fn min_spec(vals: Seq<ValueView>) -> ValueView
    decreases vals.len(),
{
    if vals.len() <= 1 {
        vals[0]
    } else {
        let m = min_spec(vals.drop_last());
        if compare_spec(m, vals.last()) == std::cmp::Ordering::Greater {
            vals.last()
        } else {
            m
        }
    }
}

/// A selection over one table, with the rows that satisfy it.
pub struct DataContext<'a> {
    pub(crate) table: &'a Table,
    pub(crate) selection: Vec<Selection>,
    pub(crate) selected: Vec<usize>,
}

impl Table {
    /// A context over this table with nothing selected.
    pub fn new_context(&self) -> (r: DataContext<'_>)
        requires
            self.wf(),
        ensures
            r.wf(),
            r.table_spec() == self,
            r.selection_spec().len() == 0,
    {
        let selection: Vec<Selection> = Vec::new();
        let selected = self.possible_rows(&selection);
        DataContext { table: self, selection, selected }
    }
}

impl<'a> DataContext<'a> {
    pub open(crate) spec fn table_spec(&self) -> &'a Table {
        self.table
    }

    pub open(crate) spec fn selection_spec(&self) -> Seq<SelectionView> {
        sel_view(self.selection@)
    }

    pub open(crate) spec fn selected_spec(&self) -> Seq<usize> {
        self.selected@
    }

    /// The rows kept are those of the table that satisfy the selection.
    pub open(crate) spec fn wf(&self) -> bool {
        &&& self.table.wf()
        &&& self.selected@ == self.table.possible_spec(sel_view(self.selection@))
    }

    /// The values of column `i` that the selection keeps.
    pub open spec fn kept_values(&self, i: int) -> Seq<ValueView> {
        column_values(self.table_spec().rows_spec(), self.table_spec().possible_spec(self.selection_spec()), i)
    }

    fn update_selected_records(&mut self)
        requires
            old(self).table.wf(),
        ensures
            final(self).wf(),
            final(self).table == old(self).table,
            final(self).selection == old(self).selection,
    {
        self.selected = self.table.possible_rows(&self.selection);
    }

    /// Adds `selection` to the current selection, unless it is already
    /// there, and recomputes the rows kept.
    pub fn select(&mut self, selection: &Selection) -> (r: &DataContext<'a>)
        requires
            old(self).wf(),
        ensures
            *r == *final(self),
            final(self).wf(),
            final(self).table_spec() == old(self).table_spec(),
            final(self).selection_spec() == select_view(old(self).selection_spec(), selection@),
    {
        let mut k: usize = 0;
        while k < self.selection.len()
            invariant
                self.wf(),
                self.table == old(self).table,
                self.selection@ == old(self).selection@,
                k <= self.selection@.len(),
                forall|j: int| 0 <= j < k ==> (#[trigger] self.selection@[j])@ != selection@,
            decreases self.selection.len() - k,
        {
            if self.selection[k].same(selection) {
                assert(sel_view(self.selection@)[k as int] == selection@);
                return self;
            }
            k = k + 1;
        }
        assert(!sel_view(self.selection@).contains(selection@)) by {
            if sel_view(self.selection@).contains(selection@) {
                let j = choose|j: int| 0 <= j < self.selection@.len() && sel_view(self.selection@)[j] == selection@;
                assert(self.selection@[j]@ == selection@);
            }
        }
        let ghost before = self.selection@;
        self.selection.push(selection.duplicate());
        assert(sel_view(self.selection@) =~= sel_view(before).push(selection@));
        self.update_selected_records();
        self
    }

    /// Takes the first occurrence of `selection` out of the current
    /// selection, if it is there, and recomputes the rows kept.
    pub fn deselect(&mut self, selection: &Selection) -> (r: &DataContext<'a>)
        requires
            old(self).wf(),
        ensures
            *r == *final(self),
            final(self).wf(),
            final(self).table_spec() == old(self).table_spec(),
            final(self).selection_spec() == remove_first(old(self).selection_spec(), selection@),
    {
        let mut k: usize = 0;
        let ghost sv = sel_view(self.selection@);
        assert(sv.skip(0) =~= sv);
        while k < self.selection.len()
            invariant
                self.table.wf(),
                self.table == old(self).table,
                sv == sel_view(old(self).selection@),
                sv == sel_view(self.selection@),
                k <= sv.len(),
                forall|j: int| 0 <= j < k ==> sv[j] != selection@,
                remove_first(sv, selection@) == sv.take(k as int) + remove_first(sv.skip(k as int), selection@),
            decreases self.selection.len() - k,
        {
            assert(sv.skip(k as int)[0] == sv[k as int]);
            assert(sv.skip(k as int).drop_first() =~= sv.skip(k + 1));
            if self.selection[k].same(selection) {
                self.selection.remove(k);
                assert(sel_view(self.selection@) =~= sv.take(k as int) + sv.skip(k + 1));
                self.update_selected_records();
                return self;
            }
            assert(sv.take(k as int) + seq![sv[k as int]] =~= sv.take(k + 1));
            assert(sv.take(k as int) + remove_first(sv.skip(k as int), selection@) =~= sv.take(k + 1) + remove_first(sv.skip(k + 1), selection@));
            k = k + 1;
        }
        assert(sv.take(k as int) =~= sv);
        self.update_selected_records();
        self
    }

    /// The number of rows the selection keeps.
    pub fn count(&self) -> (r: usize)
        requires
            self.wf(),
        ensures
            r == self.table_spec().possible_spec(self.selection_spec()).len(),
    {
        self.selected.len()
    }
}


/// The views of a list of values.
pub open spec fn vals_view(v: Seq<DataType>) -> Seq<ValueView> {
    v.map_values(|x: DataType| x@)
}

/// The sum of a list of values, added from the left, text counting as zero.
fn fold_sum(vals: &Vec<DataType>) -> (r: Option<DataType>)
    ensures
        opt_view(r) == sum_spec(vals_view(vals@)),
{
    if vals.len() == 0 {
        return Some(DataType::Int(0));
    }
    let ghost vv = vals_view(vals@);
    let mut acc: DataType = vals[0].duplicate();
    let mut broken = false;
    let mut k: usize = 1;
    assert(vv.take(1) =~= seq![vv[0]]);
    while k < vals.len()
        invariant
            vv == vals_view(vals@),
            1 <= k <= vals@.len(),
            !broken ==> reduce_sum(vv.take(k as int)) == Some(acc@),
            broken ==> reduce_sum(vv.take(k as int)) is None,
        decreases vals.len() - k,
    {
        assert(vv.take(k + 1).drop_last() =~= vv.take(k as int));
        assert(vv.take(k + 1).last() == vals@[k as int]@);
        if !broken {
            match DataType::sum(&acc, &vals[k]) {
                Some(s) => {
                    acc = s;
                },
                None => {
                    broken = true;
                },
            }
        }
        k = k + 1;
    }
    assert(vv.take(k as int) =~= vv);
    if broken {
        None
    } else {
        Some(acc)
    }
}

/// The largest of a list of values; the last of equal largest ones.
fn fold_max(vals: &Vec<DataType>) -> (r: Option<DataType>)
    ensures
        vals@.len() == 0 ==> r is None,
        vals@.len() > 0 ==> opt_view(r) == Some(max_spec(vals_view(vals@))),
{
    if vals.len() == 0 {
        return None;
    }
    let ghost vv = vals_view(vals@);
    let mut best: DataType = vals[0].duplicate();
    let mut k: usize = 1;
    assert(vv.take(1) =~= seq![vv[0]]);
    while k < vals.len()
        invariant
            vv == vals_view(vals@),
            1 <= k <= vals@.len(),
            max_spec(vv.take(k as int)) == best@,
        decreases vals.len() - k,
    {
        assert(vv.take(k + 1).drop_last() =~= vv.take(k as int));
        assert(vv.take(k + 1).last() == vals@[k as int]@);
        match DataType::cmp(&best, &vals[k]) {
            std::cmp::Ordering::Greater => {},
            _ => {
                best = vals[k].duplicate();
            },
        }
        k = k + 1;
    }
    assert(vv.take(k as int) =~= vv);
    Some(best)
}

/// The smallest of a list of values; the first of equal smallest ones.
fn fold_min(vals: &Vec<DataType>) -> (r: Option<DataType>)
    ensures
        vals@.len() == 0 ==> r is None,
        vals@.len() > 0 ==> opt_view(r) == Some(min_spec(vals_view(vals@))),
{
    if vals.len() == 0 {
        return None;
    }
    let ghost vv = vals_view(vals@);
    let mut best: DataType = vals[0].duplicate();
    let mut k: usize = 1;
    assert(vv.take(1) =~= seq![vv[0]]);
    while k < vals.len()
        invariant
            vv == vals_view(vals@),
            1 <= k <= vals@.len(),
            min_spec(vv.take(k as int)) == best@,
        decreases vals.len() - k,
    {
        assert(vv.take(k + 1).drop_last() =~= vv.take(k as int));
        assert(vv.take(k + 1).last() == vals@[k as int]@);
        match DataType::cmp(&best, &vals[k]) {
            std::cmp::Ordering::Greater => {
                best = vals[k].duplicate();
            },
            _ => {},
        }
        k = k + 1;
    }
    assert(vv.take(k as int) =~= vv);
    Some(best)
}

impl<'a> DataContext<'a> {
    /// The numbers in column `i` of the rows kept, in row order.
    fn numeric_column(&self, i: usize) -> (r: Vec<DataType>)
        requires
            self.wf(),
            i < self.table_spec().columns_spec().len(),
        ensures
            vals_view(r@) == numbers(self.kept_values(i as int)),
    {
        let ghost ids = self.selected@;
        let ghost rows = self.table.rows_spec();
        let n = self.table.len();
        proof {
            crate::table::lemma_matching_rows(self.table.columns@, rows, sel_view(self.selection@), n as nat);
        }
        let mut out: Vec<DataType> = Vec::new();
        let mut k: usize = 0;
        assert(column_values(rows, ids.take(0), i as int) =~= Seq::<ValueView>::empty());
        while k < self.selected.len()
            invariant
                self.wf(),
                ids == self.selected@,
                rows == self.table.rows_spec(),
                n == self.table.records@.len(),
                i < self.table.columns@.len(),
                k <= ids.len(),
                forall|q: int| 0 <= q < ids.len() ==> (#[trigger] ids[q]) < n,
                vals_view(out@) == numbers(column_values(rows, ids.take(k as int), i as int)),
            decreases self.selected.len() - k,
        {
            let id = self.selected[k];
            assert(id < n);
            let v = &self.table.records[id][i];
            assert(rows[id as int] == crate::table::row_view(self.table.records@[id as int]));
            assert(rows[id as int][i as int] == v@);
            let ghost prefix = column_values(rows, ids.take(k as int), i as int);
            assert(column_values(rows, ids.take(k + 1), i as int) =~= prefix.push(v@));
            assert(prefix.push(v@).drop_last() =~= prefix);
            let numeric = match v {
                DataType::String(_) => false,
                _ => true,
            };
            if numeric {
                out.push(v.duplicate());
                assert(vals_view(out@) =~= numbers(prefix).push(v@));
            }
            k = k + 1;
        }
        assert(ids.take(k as int) =~= ids);
        out
    }

    /// The sum of the numbers in column `col` of the rows kept (the integer
    /// zero if there are none); `None` if no column has that name, or when
    /// a partial sum cannot be held in 64 bits.
    pub fn sum(&self, col: String) -> (r: Option<DataType>)
        requires
            self.wf(),
        ensures
            find_col(self.table_spec().columns_spec(), col@) < 0 ==> r is None,
            find_col(self.table_spec().columns_spec(), col@) >= 0 ==> opt_view(r) == sum_spec(
                numbers(self.kept_values(find_col(self.table_spec().columns_spec(), col@))),
            ),
    {
        match self.table.get_col_index(col.as_str()) {
            None => None,
            Some(i) => fold_sum(&self.numeric_column(i)),
        }
    }

    /// The largest number in column `col` of the rows kept; `None` if no
    /// column has that name or it holds no number there.
    pub fn max(&self, col: String) -> (r: Option<DataType>)
        requires
            self.wf(),
        ensures
            find_col(self.table_spec().columns_spec(), col@) < 0 ==> r is None,
            find_col(self.table_spec().columns_spec(), col@) >= 0 ==> ({
                let ns = numbers(self.kept_values(find_col(self.table_spec().columns_spec(), col@)));
                &&& ns.len() == 0 ==> r is None
                &&& ns.len() > 0 ==> opt_view(r) == Some(max_spec(ns))
            }),
    {
        match self.table.get_col_index(col.as_str()) {
            None => None,
            Some(i) => fold_max(&self.numeric_column(i)),
        }
    }

    /// The smallest number in column `col` of the rows kept; `None` if no
    /// column has that name or it holds no number there.
    pub fn min(&self, col: String) -> (r: Option<DataType>)
        requires
            self.wf(),
        ensures
            find_col(self.table_spec().columns_spec(), col@) < 0 ==> r is None,
            find_col(self.table_spec().columns_spec(), col@) >= 0 ==> ({
                let ns = numbers(self.kept_values(find_col(self.table_spec().columns_spec(), col@)));
                &&& ns.len() == 0 ==> r is None
                &&& ns.len() > 0 ==> opt_view(r) == Some(min_spec(ns))
            }),
    {
        match self.table.get_col_index(col.as_str()) {
            None => None,
            Some(i) => fold_min(&self.numeric_column(i)),
        }
    }
}

} // verus!
