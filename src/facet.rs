//! A live view of a model: a selection over column names, and the values
//! still reachable in any column given that selection, carried across
//! tables through the columns they share.
use vstd::prelude::*;
use crate::context::{remove_first, select_view};
use crate::model::{insert_sorted, refs_view, tables_with, Model};
use crate::table::{
    cell_matches, declares, find_col, lemma_matching_rows, row_selected, sel_view, Selection, SelectionView,
    Table,
};
use crate::value::{render, sorted_values, DataType, ValueView};

verus! {

/// The selections of `sel` on columns that `cols` declares, in order.
pub open spec fn restrict(sel: Seq<SelectionView>, cols: Seq<String>) -> Seq<SelectionView>
    decreases sel.len(),
{
    if sel.len() == 0 {
        sel
    } else {
        let prev = restrict(sel.drop_last(), cols);
        if declares(cols, sel.last().0) {
            prev.push(sel.last())
        } else {
            prev
        }
    }
}

pub proof fn lemma_restrict(sel: Seq<SelectionView>, cols: Seq<String>)
    ensures
        forall|s: SelectionView| #[trigger] restrict(sel, cols).contains(s) <==> (sel.contains(s) && declares(cols, s.0)),
    decreases sel.len(),
{
    if sel.len() > 0 {
        lemma_restrict(sel.drop_last(), cols);
        let prev = restrict(sel.drop_last(), cols);
        assert forall|s: SelectionView| #[trigger] restrict(sel, cols).contains(s) <==> (sel.contains(s) && declares(cols, s.0)) by {
            if sel.contains(s) {
                let k = choose|k: int| 0 <= k < sel.len() && sel[k] == s;
                if k < sel.len() - 1 {
                    assert(sel.drop_last()[k] == s);
                }
            }
            if sel.drop_last().contains(s) {
                let k = choose|k: int| 0 <= k < sel.drop_last().len() && sel.drop_last()[k] == s;
                assert(sel[k] == s);
            }
            if restrict(sel, cols).contains(s) && !prev.contains(s) {
                assert(sel[sel.len() - 1] == s);
            }
            if prev.contains(s) {
                let k = choose|k: int| 0 <= k < prev.len() && prev[k] == s;
                if declares(cols, sel.last().0) {
                    assert(restrict(sel, cols)[k] == s);
                }
            }
            if s == sel.last() && declares(cols, s.0) {
                assert(restrict(sel, cols)[prev.len() as int] == s);
            }
        }
    }
}

/// Whether a table with columns `cols` declares a column that `sel` constrains.
pub open spec fn touches(cols: Seq<String>, sel: Seq<SelectionView>) -> bool {
    exists|k: int| 0 <= k < sel.len() && declares(cols, #[trigger] sel[k].0)
}

/// The (column, value) pair of cell `j` of row `r` of `t`.
pub open spec fn cell_pair(t: Table, r: int, j: int) -> SelectionView {
    (t.columns_spec()[j]@, render(t.rows_spec()[r][j]))
}

/// Whether `s` is a cell of a row of `t` that `t`'s share of `sel` keeps.
pub open spec fn kept_pair(t: Table, sel: Seq<SelectionView>, s: SelectionView) -> bool {
    exists|r: int, j: int|
        0 <= r < t.rows_spec().len() && 0 <= j < t.columns_spec().len() && row_selected(
            t.columns_spec(),
            t.rows_spec()[r],
            restrict(sel, t.columns_spec()),
        ) && s == #[trigger] cell_pair(t, r, j)
}

/// The virtual selection: `sel` itself, and every cell of every row kept by
/// `sel` in a table that declares a column `sel` constrains.
pub open spec fn in_virtual(tables: Seq<Table>, sel: Seq<SelectionView>, s: SelectionView) -> bool {
    sel.contains(s) || exists|t: int|
        0 <= t < tables.len() && touches(tables[t].columns_spec(), sel) && kept_pair(#[trigger] tables[t], sel, s)
}

/// Whether a row of a table with columns `cols` satisfies the virtual
/// selection: for each column of the table that it constrains, the row holds
/// one of the values it lists for that column.
pub open spec fn satisfies_virtual(cols: Seq<String>, row: Seq<ValueView>, tables: Seq<Table>, sel: Seq<SelectionView>) -> bool {
    forall|s: SelectionView|
        #[trigger] in_virtual(tables, sel, s) && declares(cols, s.0) ==> exists|s2: SelectionView|
            #[trigger] in_virtual(tables, sel, s2) && s2.0 == s.0 && cell_matches(cols, row, s.0, s2.1)
}

/// Whether table `u` has a row that satisfies the virtual selection and
/// holds `v` in its first column named `col`.
pub open spec fn reachable_in(tables: Seq<Table>, sel: Seq<SelectionView>, u: int, col: Seq<char>, v: ValueView) -> bool {
    exists|r: int|
        0 <= r < tables[u].rows_spec().len() && satisfies_virtual(tables[u].columns_spec(), tables[u].rows_spec()[r], tables, sel)
            && #[trigger] tables[u].rows_spec()[r][find_col(tables[u].columns_spec(), col)] == v
}

/// Whether `v` is still reachable in column `col`: some table declaring
/// `col` has a row that satisfies the virtual selection and holds `v` there.
pub open spec fn reachable(tables: Seq<Table>, sel: Seq<SelectionView>, col: Seq<char>, v: ValueView) -> bool {
    exists|u: int| 0 <= u < tables.len() && declares(tables[u].columns_spec(), col) && #[trigger] reachable_in(tables, sel, u, col, v)
}

/// A list of selections that holds exactly the virtual selection gives each
/// table the rows that satisfy it.
pub proof fn lemma_restrict_virtual(
    q: Seq<SelectionView>,
    cols: Seq<String>,
    row: Seq<ValueView>,
    tables: Seq<Table>,
    sel: Seq<SelectionView>,
)
    requires
        forall|s: SelectionView| q.contains(s) <==> in_virtual(tables, sel, s),
    ensures
        row_selected(cols, row, restrict(q, cols)) <==> satisfies_virtual(cols, row, tables, sel),
{
    lemma_restrict(q, cols);
    let rq = restrict(q, cols);
    if row_selected(cols, row, rq) {
        assert forall|s: SelectionView| #[trigger] in_virtual(tables, sel, s) && declares(cols, s.0) implies exists|s2: SelectionView|
            #[trigger] in_virtual(tables, sel, s2) && s2.0 == s.0 && cell_matches(cols, row, s.0, s2.1) by {
            assert(rq.contains(s));
            let j = choose|j: int| 0 <= j < rq.len() && rq[j] == s;
            assert(crate::table::column_ok(cols, row, rq, rq[j].0));
            let j2 = choose|j2: int| 0 <= j2 < rq.len() && #[trigger] rq[j2].0 == s.0 && cell_matches(cols, row, s.0, rq[j2].1);
            assert(rq.contains(rq[j2]));
            assert(in_virtual(tables, sel, rq[j2]));
        }
    }
    if satisfies_virtual(cols, row, tables, sel) {
        assert forall|j: int| 0 <= j < rq.len() implies crate::table::column_ok(cols, row, rq, #[trigger] rq[j].0) by {
            assert(rq.contains(rq[j]));
            assert(in_virtual(tables, sel, rq[j]));
            let s2 = choose|s2: SelectionView| #[trigger] in_virtual(tables, sel, s2) && s2.0 == rq[j].0 && cell_matches(cols, row, rq[j].0, s2.1);
            assert(q.contains(s2));
            assert(rq.contains(s2));
            let j2 = choose|j2: int| 0 <= j2 < rq.len() && rq[j2] == s2;
            assert(rq[j2].0 == rq[j].0);
        }
    }
}


/// The selections of `sel` on columns that `t` declares, in order.
fn restrict_to(sel: &Vec<Selection>, t: &Table) -> (r: Vec<Selection>)
    ensures
        sel_view(r@) == restrict(sel_view(sel@), t.columns_spec()),
{
    let mut out: Vec<Selection> = Vec::new();
    let mut k: usize = 0;
    let ghost sv = sel_view(sel@);
    assert(sv.take(0) =~= Seq::<SelectionView>::empty());
    while k < sel.len()
        invariant
            sv == sel_view(sel@),
            k <= sel@.len(),
            sel_view(out@) == restrict(sv.take(k as int), t.columns_spec()),
        decreases sel.len() - k,
    {
        assert(sv.take(k + 1).drop_last() =~= sv.take(k as int));
        assert(sv.take(k + 1).last() == sel@[k as int]@);
        if t.get_col_index(sel[k].column.as_str()).is_some() {
            out.push(sel[k].duplicate());
            assert(sel_view(out@) =~= restrict(sv.take(k as int), t.columns_spec()).push(sel@[k as int]@));
        }
        k = k + 1;
    }
    assert(sv.take(k as int) =~= sv);
    out
}

/// Whether `t` declares a column that `sel` constrains.
fn touches_exec(sel: &Vec<Selection>, t: &Table) -> (r: bool)
    ensures
        r == touches(t.columns_spec(), sel_view(sel@)),
{
    let mut k: usize = 0;
    while k < sel.len()
        invariant
            k <= sel@.len(),
            forall|j: int| 0 <= j < k ==> !declares(t.columns_spec(), #[trigger] sel_view(sel@)[j].0),
        decreases sel.len() - k,
    {
        if t.get_col_index(sel[k].column.as_str()).is_some() {
            assert(declares(t.columns_spec(), sel_view(sel@)[k as int].0));
            return true;
        }
        k = k + 1;
    }
    false
}

impl Table {
    /// Appends the (column, value) pair of every cell of the given rows.
    fn push_cell_pairs(&self, ids: &Vec<usize>, out: &mut Vec<Selection>)
        requires
            self.wf(),
            forall|k: int| 0 <= k < ids@.len() ==> (#[trigger] ids@[k] as int) < self.rows_spec().len(),
        ensures
            forall|s: SelectionView| #[trigger] sel_view(final(out)@).contains(s) <==> (sel_view(old(out)@).contains(s)
                || exists|k: int, j: int| 0 <= k < ids@.len() && 0 <= j < self.columns_spec().len() && s == #[trigger] cell_pair(*self, ids@[k] as int, j)),
    {
        let ghost start = sel_view(out@);
        let cols = self.get_columns();
        let records = self.get_records();
        let mut k: usize = 0;
        while k < ids.len()
            invariant
                self.wf(),
                cols@ == self.columns_spec(),
                records@ == self.records_spec(),
                forall|q: int| 0 <= q < ids@.len() ==> (#[trigger] ids@[q] as int) < self.rows_spec().len(),
                k <= ids@.len(),
                forall|s: SelectionView| #[trigger] sel_view(out@).contains(s) <==> (start.contains(s)
                    || exists|k2: int, j: int| 0 <= k2 < k && 0 <= j < self.columns_spec().len() && s == #[trigger] cell_pair(*self, ids@[k2] as int, j)),
            decreases ids.len() - k,
        {
            let id = ids[k];
            assert(self.rows_spec().len() == records@.len());
            assert(records@[id as int]@.len() == cols@.len());
            let ghost mid = sel_view(out@);
            let mut j: usize = 0;
            while j < cols.len()
                invariant
                    self.wf(),
                    cols@ == self.columns_spec(),
                    records@ == self.records_spec(),
                    id < records@.len(),
                    records@[id as int]@.len() == cols@.len(),
                    j <= cols@.len(),
                    forall|s: SelectionView| #[trigger] sel_view(out@).contains(s) <==> (mid.contains(s)
                        || exists|j2: int| 0 <= j2 < j && s == #[trigger] cell_pair(*self, id as int, j2)),
                decreases cols.len() - j,
            {
                let pair = Selection { column: cols[j].clone(), value: records[id][j].to_string() };
                assert(self.rows_spec()[id as int][j as int] == records@[id as int]@[j as int]@);
                assert(pair@ == cell_pair(*self, id as int, j as int));
                let ghost before = sel_view(out@);
                out.push(pair);
                assert(sel_view(out@) =~= before.push(pair@));
                j = j + 1;
                assert forall|s: SelectionView| #[trigger] sel_view(out@).contains(s) <==> (mid.contains(s)
                    || exists|j2: int| 0 <= j2 < j && s == #[trigger] cell_pair(*self, id as int, j2)) by {
                    if sel_view(out@).contains(s) {
                        let w = choose|w: int| 0 <= w < sel_view(out@).len() && sel_view(out@)[w] == s;
                        if w < before.len() {
                            assert(before.contains(s));
                        }
                    }
                    if before.contains(s) {
                        let w = choose|w: int| 0 <= w < before.len() && before[w] == s;
                        assert(sel_view(out@)[w] == s);
                    }
                    if s == pair@ {
                        assert(sel_view(out@)[before.len() as int] == s);
                    }
                    if exists|j2: int| 0 <= j2 < j && s == #[trigger] cell_pair(*self, id as int, j2) {
                        let j2 = choose|j2: int| 0 <= j2 < j && s == #[trigger] cell_pair(*self, id as int, j2);
                        if j2 < j - 1 {
                            assert(before.contains(s));
                        }
                    }
                }
            }
            k = k + 1;
            assert forall|s: SelectionView| #[trigger] sel_view(out@).contains(s) <==> (start.contains(s)
                || exists|k2: int, j2: int| 0 <= k2 < k && 0 <= j2 < self.columns_spec().len() && s == #[trigger] cell_pair(*self, ids@[k2] as int, j2)) by {
                if exists|j2: int| 0 <= j2 < cols@.len() && s == #[trigger] cell_pair(*self, id as int, j2) {
                    let j2 = choose|j2: int| 0 <= j2 < cols@.len() && s == #[trigger] cell_pair(*self, id as int, j2);
                    assert(s == cell_pair(*self, ids@[k - 1] as int, j2));
                }
                if exists|k2: int, j2: int| 0 <= k2 < k && 0 <= j2 < self.columns_spec().len() && s == #[trigger] cell_pair(*self, ids@[k2] as int, j2) {
                    let (k2, j2) = choose|k2: int, j2: int| 0 <= k2 < k && 0 <= j2 < self.columns_spec().len() && s == #[trigger] cell_pair(*self, ids@[k2] as int, j2);
                    if k2 == k - 1 {
                        assert(s == cell_pair(*self, id as int, j2));
                    } else {
                        assert(mid.contains(s));
                    }
                }
            }
        }
    }
}


/// A selection over the column names of a model.
pub struct ModelContext<'a> {
    pub(crate) model: &'a Model,
    pub(crate) selection: Vec<Selection>,
}

impl Model {
    /// A context over this model with nothing selected.
    pub fn new_data_context(&self) -> (r: ModelContext<'_>)
        requires
            self.wf(),
        ensures
            r.wf(),
            r.model_spec() == self,
            r.selection_spec().len() == 0,
    {
        ModelContext::new(self)
    }
}

impl<'a> ModelContext<'a> {
    pub open(crate) spec fn model_spec(&self) -> &'a Model {
        self.model
    }

    pub open(crate) spec fn selection_spec(&self) -> Seq<SelectionView> {
        sel_view(self.selection@)
    }

    pub open(crate) spec fn wf(&self) -> bool {
        self.model.wf()
    }

    /// A context over `model` with nothing selected.
    pub fn new(model: &'a Model) -> (r: ModelContext<'a>)
        requires
            model.wf(),
        ensures
            r.wf(),
            r.model_spec() == model,
            r.selection_spec().len() == 0,
    {
        let r = ModelContext { model, selection: Vec::new() };
        assert(sel_view(r.selection@) =~= Seq::<SelectionView>::empty());
        r
    }

    /// Adds `select` to the selection, unless it is already there.
    pub fn select(&mut self, select: &Selection) -> (r: &ModelContext<'a>)
        requires
            old(self).wf(),
        ensures
            *r == *final(self),
            final(self).wf(),
            final(self).model_spec() == old(self).model_spec(),
            final(self).selection_spec() == select_view(old(self).selection_spec(), select@),
    {
        let mut k: usize = 0;
        while k < self.selection.len()
            invariant
                self.wf(),
                self.model == old(self).model,
                self.selection@ == old(self).selection@,
                k <= self.selection@.len(),
                forall|j: int| 0 <= j < k ==> (#[trigger] self.selection@[j])@ != select@,
            decreases self.selection.len() - k,
        {
            if self.selection[k].same(select) {
                assert(sel_view(self.selection@)[k as int] == select@);
                return self;
            }
            k = k + 1;
        }
        assert(!sel_view(self.selection@).contains(select@)) by {
            if sel_view(self.selection@).contains(select@) {
                let j = choose|j: int| 0 <= j < self.selection@.len() && sel_view(self.selection@)[j] == select@;
                assert(self.selection@[j]@ == select@);
            }
        }
        let ghost before = self.selection@;
        self.selection.push(select.duplicate());
        assert(sel_view(self.selection@) =~= sel_view(before).push(select@));
        self
    }

    /// Takes the first occurrence of `select` out of the selection, if any.
    pub fn deselect(&mut self, select: &Selection) -> (r: &ModelContext<'a>)
        requires
            old(self).wf(),
        ensures
            *r == *final(self),
            final(self).wf(),
            final(self).model_spec() == old(self).model_spec(),
            final(self).selection_spec() == remove_first(old(self).selection_spec(), select@),
    {
        let mut k: usize = 0;
        let ghost sv = sel_view(self.selection@);
        assert(sv.skip(0) =~= sv);
        while k < self.selection.len()
            invariant
                self.wf(),
                self.model == old(self).model,
                sv == sel_view(old(self).selection@),
                sv == sel_view(self.selection@),
                k <= sv.len(),
                forall|j: int| 0 <= j < k ==> sv[j] != select@,
                remove_first(sv, select@) == sv.take(k as int) + remove_first(sv.skip(k as int), select@),
            decreases self.selection.len() - k,
        {
            assert(sv.skip(k as int)[0] == sv[k as int]);
            assert(sv.skip(k as int).drop_first() =~= sv.skip(k + 1));
            if self.selection[k].same(select) {
                self.selection.remove(k);
                assert(sel_view(self.selection@) =~= sv.take(k as int) + sv.skip(k + 1));
                return self;
            }
            assert(sv.take(k as int) + seq![sv[k as int]] =~= sv.take(k + 1));
            assert(sv.take(k as int) + remove_first(sv.skip(k as int), select@) =~= sv.take(k + 1) + remove_first(sv.skip(k + 1), select@));
            k = k + 1;
        }
        assert(sv.take(k as int) =~= sv);
        self
    }

    /// The virtual selection: the selection, then the cells of every row
    /// kept by the selection in each table that declares a column it
    /// constrains.
    fn virtual_selection(&self) -> (r: Vec<Selection>)
        requires
            self.wf(),
        ensures
            forall|s: SelectionView| sel_view(r@).contains(s) <==> in_virtual(self.model.tables@, sel_view(self.selection@), s),
    {
        let ghost sv = sel_view(self.selection@);
        let ghost tables = self.model.tables@;
        let mut virt: Vec<Selection> = Vec::new();
        let mut k: usize = 0;
        while k < self.selection.len()
            invariant
                sv == sel_view(self.selection@),
                k <= sv.len(),
                sel_view(virt@) == sv.take(k as int),
            decreases self.selection.len() - k,
        {
            let ghost before = sel_view(virt@);
            virt.push(self.selection[k].duplicate());
            assert(sel_view(virt@) =~= before.push(sv[k as int]));
            assert(sv.take(k + 1) =~= sv.take(k as int).push(sv[k as int]));
            k = k + 1;
            assert(sel_view(virt@) =~= sv.take(k as int));
        }
        assert(sv.take(k as int) =~= sv);
        let m = self.model.tables.len();
        let mut t: usize = 0;
        while t < m
            invariant
                self.wf(),
                sv == sel_view(self.selection@),
                tables == self.model.tables@,
                m == tables.len(),
                t <= m,
                forall|s: SelectionView| #[trigger] sel_view(virt@).contains(s) <==> (sv.contains(s) || exists|t2: int|
                    0 <= t2 < t && touches(tables[t2].columns_spec(), sv) && kept_pair(#[trigger] tables[t2], sv, s)),
            decreases m - t,
        {
            let table = &self.model.tables[t];
            assert(table.wf());
            let ghost mid = sel_view(virt@);
            if touches_exec(&self.selection, table) {
                let restricted = restrict_to(&self.selection, table);
                let ids = table.possible_rows(&restricted);
                let n = table.len();
                proof {
                    assert(table.rows_spec().len() == n);
                    lemma_matching_rows(table.columns_spec(), table.rows_spec(), sel_view(restricted@), n as nat);
                }
                table.push_cell_pairs(&ids, &mut virt);
                proof {
                    assert forall|s: SelectionView| (exists|k2: int, j: int| 0 <= k2 < ids@.len() && 0 <= j < table.columns_spec().len() && s == #[trigger] cell_pair(*table, ids@[k2] as int, j))
                        <==> kept_pair(*table, sv, s) by {
                        if exists|k2: int, j: int| 0 <= k2 < ids@.len() && 0 <= j < table.columns_spec().len() && s == #[trigger] cell_pair(*table, ids@[k2] as int, j) {
                            let (k2, j) = choose|k2: int, j: int| 0 <= k2 < ids@.len() && 0 <= j < table.columns_spec().len() && s == #[trigger] cell_pair(*table, ids@[k2] as int, j);
                            let r = ids@[k2] as int;
                            assert(ids@.contains(r as usize));
                            assert(row_selected(table.columns_spec(), table.rows_spec()[r], restrict(sv, table.columns_spec())));
                        }
                        if kept_pair(*table, sv, s) {
                            let (r, j) = choose|r: int, j: int| 0 <= r < table.rows_spec().len() && 0 <= j < table.columns_spec().len() && row_selected(
                                table.columns_spec(),
                                table.rows_spec()[r],
                                restrict(sv, table.columns_spec()),
                            ) && s == #[trigger] cell_pair(*table, r, j);
                            assert(ids@.contains(r as usize));
                            let k2 = choose|k2: int| 0 <= k2 < ids@.len() && ids@[k2] == r as usize;
                            assert(s == cell_pair(*table, ids@[k2] as int, j));
                        }
                    }
                }
            }
            t = t + 1;
            assert forall|s: SelectionView| #[trigger] sel_view(virt@).contains(s) <==> (sv.contains(s) || exists|t2: int|
                0 <= t2 < t && touches(tables[t2].columns_spec(), sv) && kept_pair(#[trigger] tables[t2], sv, s)) by {
                assert(mid.contains(s) <==> (sv.contains(s) || exists|t2: int|
                    0 <= t2 < t - 1 && touches(tables[t2].columns_spec(), sv) && kept_pair(#[trigger] tables[t2], sv, s)));
                if exists|t2: int| 0 <= t2 < t && touches(tables[t2].columns_spec(), sv) && kept_pair(#[trigger] tables[t2], sv, s) {
                    let t2 = choose|t2: int| 0 <= t2 < t && touches(tables[t2].columns_spec(), sv) && kept_pair(#[trigger] tables[t2], sv, s);
                    if t2 < t - 1 {
                        assert(mid.contains(s));
                    } else {
                        assert(tables[t2] == *table);
                    }
                }
                if touches(table.columns_spec(), sv) && kept_pair(*table, sv, s) {
                    assert(tables[t - 1] == *table);
                }
            }
        }
        virt
    }
}


impl<'a> ModelContext<'a> {
    /// The distinct values still reachable in column `col`, ascending: the
    /// selection is carried through every table that declares a column it
    /// constrains into a virtual selection, and each table that declares
    /// `col` contributes the values of its rows that satisfy that.
    pub fn get_possible(&self, col: &str) -> (r: Vec<&DataType>)
        requires
            self.wf(),
        ensures
            sorted_values(refs_view(r@)),
            forall|v: ValueView| refs_view(r@).contains(v) <==> reachable(
                self.model_spec().tables_spec(),
                self.selection_spec(),
                col@,
                v,
            ),
    {
        let virt = self.virtual_selection();
        let ghost sv = sel_view(self.selection@);
        let ghost tables = self.model.tables@;
        let pairs = self.model.get_tables_and_col_indices(col);
        let m = self.model.tables.len();
        let ghost tw = tables_with(tables, col@, m as nat);
        proof {
            crate::model::lemma_tables_with(tables, col@, m as nat);
        }
        let mut out: Vec<&DataType> = Vec::new();
        let mut p: usize = 0;
        while p < pairs.len()
            invariant
                self.wf(),
                sv == sel_view(self.selection@),
                tables == self.model.tables@,
                m == tables.len(),
                forall|s: SelectionView| sel_view(virt@).contains(s) <==> in_virtual(tables, sv, s),
                tw == tables_with(tables, col@, m as nat),
                pairs@.len() == tw.len(),
                forall|k: int| 0 <= k < pairs@.len() ==> (#[trigger] pairs@[k]).0 == tw[k]
                    && pairs@[k].1 as int == find_col(tables[pairs@[k].0 as int].columns_spec(), col@)
                    && pairs@[k].0 < m && pairs@[k].1 < tables[pairs@[k].0 as int].columns_spec().len(),
                p <= pairs@.len(),
                sorted_values(refs_view(out@)),
                forall|v: ValueView| refs_view(out@).contains(v) <==> exists|k: int| 0 <= k < p && reachable_in(tables, sv, #[trigger] tw[k] as int, col@, v),
            decreases pairs.len() - p,
        {
            let (u, i) = pairs[p];
            let table = &self.model.tables[u];
            assert(table.wf());
            let restricted = restrict_to(&virt, table);
            let ids = table.possible_rows(&restricted);
            let n = table.len();
            let records = table.get_records();
            proof {
                assert(table.rows_spec().len() == n);
                lemma_matching_rows(table.columns_spec(), table.rows_spec(), sel_view(restricted@), n as nat);
            }
            let ghost before = refs_view(out@);
            let mut k: usize = 0;
            while k < ids.len()
                invariant
                    self.wf(),
                    u < m,
                    *table == tables[u as int],
                    table.wf(),
                    records@ == table.records_spec(),
                    n == records@.len(),
                    table.rows_spec().len() == n,
                    i as int == find_col(table.columns_spec(), col@),
                    i < table.columns_spec().len(),
                    forall|q: int| 0 <= q < ids@.len() ==> (#[trigger] ids@[q]) < n,
                    k <= ids@.len(),
                    sorted_values(refs_view(out@)),
                    forall|v: ValueView| refs_view(out@).contains(v) <==> (before.contains(v) || exists|q: int| 0 <= q < k && #[trigger] table.rows_spec()[ids@[q] as int][i as int] == v),
                decreases ids.len() - k,
            {
                let id = ids[k];
                assert(records@[id as int]@.len() == table.columns_spec().len());
                let v = &records[id][i];
                assert(table.rows_spec()[id as int][i as int] == v@);
                let ghost mid = refs_view(out@);
                let ghost vv = v@;
                let ghost k0 = k as int;
                assert(forall|x: ValueView| mid.contains(x) <==> (before.contains(x) || exists|q: int| 0 <= q < k0 && #[trigger] table.rows_spec()[ids@[q] as int][i as int] == x));
                insert_sorted(&mut out, v);
                k = k + 1;
                assert forall|x: ValueView| refs_view(out@).contains(x) <==> (before.contains(x) || exists|q: int| 0 <= q < k && #[trigger] table.rows_spec()[ids@[q] as int][i as int] == x) by {
                    assert(refs_view(out@).contains(x) <==> (mid.contains(x) || x == vv));
                    assert(mid.contains(x) <==> (before.contains(x) || exists|q: int| 0 <= q < k0 && #[trigger] table.rows_spec()[ids@[q] as int][i as int] == x));
                    if x == vv {
                        assert(table.rows_spec()[ids@[k0] as int][i as int] == x);
                    }
                    if exists|q: int| 0 <= q < k && #[trigger] table.rows_spec()[ids@[q] as int][i as int] == x {
                        let q = choose|q: int| 0 <= q < k && #[trigger] table.rows_spec()[ids@[q] as int][i as int] == x;
                        if q < k0 {
                            assert(exists|q2: int| 0 <= q2 < k0 && #[trigger] table.rows_spec()[ids@[q2] as int][i as int] == x);
                        }
                    }
                }
            }
            p = p + 1;
            proof {
                assert forall|v: ValueView| (exists|q: int| 0 <= q < ids@.len() && #[trigger] table.rows_spec()[ids@[q] as int][i as int] == v)
                    <==> reachable_in(tables, sv, u as int, col@, v) by {
                    if exists|q: int| 0 <= q < ids@.len() && #[trigger] table.rows_spec()[ids@[q] as int][i as int] == v {
                        let q = choose|q: int| 0 <= q < ids@.len() && #[trigger] table.rows_spec()[ids@[q] as int][i as int] == v;
                        let r = ids@[q] as int;
                        assert(ids@.contains(r as usize));
                        lemma_restrict_virtual(sel_view(virt@), table.columns_spec(), table.rows_spec()[r], tables, sv);
                        assert(tables[u as int].rows_spec()[r][find_col(tables[u as int].columns_spec(), col@)] == v);
                    }
                    if reachable_in(tables, sv, u as int, col@, v) {
                        let r = choose|r: int|
                            0 <= r < tables[u as int].rows_spec().len() && satisfies_virtual(tables[u as int].columns_spec(), tables[u as int].rows_spec()[r], tables, sv)
                                && #[trigger] tables[u as int].rows_spec()[r][find_col(tables[u as int].columns_spec(), col@)] == v;
                        lemma_restrict_virtual(sel_view(virt@), table.columns_spec(), table.rows_spec()[r], tables, sv);
                        assert(ids@.contains(r as usize));
                        let q = choose|q: int| 0 <= q < ids@.len() && ids@[q] == r as usize;
                        assert(table.rows_spec()[ids@[q] as int][i as int] == v);
                    }
                }
                assert forall|v: ValueView| refs_view(out@).contains(v) <==> exists|k2: int| 0 <= k2 < p && reachable_in(tables, sv, #[trigger] tw[k2] as int, col@, v) by {
                    assert(before.contains(v) <==> exists|k2: int| 0 <= k2 < p - 1 && reachable_in(tables, sv, #[trigger] tw[k2] as int, col@, v));
                    if exists|k2: int| 0 <= k2 < p && reachable_in(tables, sv, #[trigger] tw[k2] as int, col@, v) {
                        let k2 = choose|k2: int| 0 <= k2 < p && reachable_in(tables, sv, #[trigger] tw[k2] as int, col@, v);
                        if k2 < p - 1 {
                            assert(exists|k3: int| 0 <= k3 < p - 1 && reachable_in(tables, sv, #[trigger] tw[k3] as int, col@, v));
                        }
                    }
                    assert(tw[p - 1] == u);
                }
            }
        }
        proof {
            assert forall|v: ValueView| refs_view(out@).contains(v) <==> reachable(tables, sv, col@, v) by {
                if refs_view(out@).contains(v) {
                    let k = choose|k: int| 0 <= k < pairs@.len() && reachable_in(tables, sv, #[trigger] tw[k] as int, col@, v);
                    assert(tw.contains(tw[k]));
                }
                if reachable(tables, sv, col@, v) {
                    let u = choose|u: int| 0 <= u < tables.len() && declares(tables[u].columns_spec(), col@) && #[trigger] reachable_in(tables, sv, u, col@, v);
                    assert(tw.contains(u as usize));
                    let k = choose|k: int| 0 <= k < tw.len() && tw[k] == u as usize;
                    assert(reachable_in(tables, sv, tw[k] as int, col@, v));
                }
            }
        }
        out
    }
}

} // verus!
