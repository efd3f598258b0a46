//! A collection of tables with a reverse index from column name to the
//! tables that declare it.
use vstd::prelude::*;
use crate::table::{declares, find_col, owned, Table};
use crate::value::{sorted_values, value_lt, DataType, ValueView};

verus! {

/// The tables among the first `n` that declare column `c`, ascending.
pub open spec fn tables_with(tables: Seq<Table>, c: Seq<char>, n: nat) -> Seq<usize>
    decreases n,
{
    if n == 0 {
        Seq::empty()
    } else {
        let prev = tables_with(tables, c, (n - 1) as nat);
        if declares(tables[n - 1].columns_spec(), c) {
            prev.push((n - 1) as usize)
        } else {
            prev
        }
    }
}

pub proof fn lemma_tables_with(tables: Seq<Table>, c: Seq<char>, n: nat)
    requires
        n <= tables.len(),
        n <= usize::MAX,
    ensures
        forall|k: int| 0 <= k < tables_with(tables, c, n).len() ==> (#[trigger] tables_with(tables, c, n)[k]) < n,
        forall|t: int| 0 <= t < n ==> (tables_with(tables, c, n).contains(t as usize) <==> declares(#[trigger] tables[t].columns_spec(), c)),
    decreases n,
{
    if n > 0 {
        lemma_tables_with(tables, c, (n - 1) as nat);
        let prev = tables_with(tables, c, (n - 1) as nat);
        let cur = tables_with(tables, c, n);
        assert forall|t: int| 0 <= t < n implies (cur.contains(t as usize) <==> declares(#[trigger] tables[t].columns_spec(), c)) by {
            if t < n - 1 {
                if cur.contains(t as usize) && !prev.contains(t as usize) {
                    let k = choose|k: int| 0 <= k < cur.len() && cur[k] == t as usize;
                    assert(k == prev.len());
                }
                if prev.contains(t as usize) {
                    let k = choose|k: int| 0 <= k < prev.len() && prev[k] == t as usize;
                    assert(cur[k] == t as usize);
                }
            } else {
                if declares(tables[t].columns_spec(), c) {
                    assert(cur[prev.len() as int] == t as usize);
                } else if cur.contains(t as usize) {
                    let k = choose|k: int| 0 <= k < cur.len() && cur[k] == t as usize;
                    assert(prev[k] < n - 1);
                }
            }
        }
    }
}

proof fn lemma_tables_with_prefix(a: Seq<Table>, b: Seq<Table>, c: Seq<char>, n: nat)
    requires
        n <= a.len(),
        n <= b.len(),
        forall|t: int| 0 <= t < n ==> a[t] == b[t],
    ensures
        tables_with(a, c, n) == tables_with(b, c, n),
    decreases n,
{
    if n > 0 {
        lemma_tables_with_prefix(a, b, c, (n - 1) as nat);
    }
}

pub(crate) struct ColumnTables {
    pub(crate) name: String,
    pub(crate) tables: Vec<usize>,
}

/// Tables, and for each column name the tables that declare it.
pub struct Model {
    pub(crate) tables: Vec<Table>,
    pub(crate) columns: Vec<ColumnTables>,
}

pub(crate) open spec fn has_column_entry(cs: Seq<ColumnTables>, c: Seq<char>) -> bool {
    exists|e: int| 0 <= e < cs.len() && #[trigger] cs[e].name@ == c
}

/// The position of the reverse-index entry for `c`, if there is one.
fn find_column(cs: &Vec<ColumnTables>, c: &String) -> (r: Option<usize>)
    ensures
        match r {
            Some(e) => e < cs@.len() && cs@[e as int].name@ == c@,
            None => !has_column_entry(cs@, c@),
        },
{
    let mut e: usize = 0;
    while e < cs.len()
        invariant
            e <= cs@.len(),
            forall|k: int| 0 <= k < e ==> #[trigger] cs@[k].name@ != c@,
        decreases cs.len() - e,
    {
        if cs[e].name == *c {
            return Some(e);
        }
        e = e + 1;
    }
    None
}

impl Model {
    pub open(crate) spec fn tables_spec(&self) -> Seq<Table> {
        self.tables@
    }

    /// Every table is well formed, and the reverse index lists, for each
    /// column name that some table declares, exactly those tables, ascending.
    pub open(crate) spec fn wf(&self) -> bool {
        let m = self.tables@.len();
        &&& forall|t: int| 0 <= t < m ==> (#[trigger] self.tables@[t]).wf()
        &&& forall|a: int, b: int|
            0 <= a < self.columns@.len() && 0 <= b < self.columns@.len() && a != b ==> #[trigger] self.columns@[a].name@
                != #[trigger] self.columns@[b].name@
        &&& forall|e: int|
            0 <= e < self.columns@.len() ==> (#[trigger] self.columns@[e]).tables@ == tables_with(self.tables@, self.columns@[e].name@, m)
        &&& forall|t: int, i: int|
            0 <= t < m && 0 <= i < self.tables@[t].columns_spec().len() ==> has_column_entry(
                self.columns@,
                #[trigger] self.tables@[t].columns_spec()[i]@,
            )
    }

    /// A model with no tables.
    pub fn new() -> (r: Model)
        ensures
            r.wf(),
            r.tables_spec().len() == 0,
    {
        Model { tables: Vec::new(), columns: Vec::new() }
    }

    /// Adds a table and records it under each column it declares.
    pub fn add_table(&mut self, table: Table)
        requires
            old(self).wf(),
            table.wf(),
        ensures
            final(self).wf(),
            final(self).tables_spec() == old(self).tables_spec().push(table),
    {
        let m = self.tables.len();
        let ghost olds = self.tables@;
        let ghost news = self.tables@.push(table);
        let arity = table.columns.len();
        let mut i: usize = 0;
        assert(table.columns@.take(0) =~= Seq::<String>::empty());
        while i < arity
            invariant
                forall|t: int| 0 <= t < m ==> (#[trigger] self.tables@[t]).wf(),
                forall|a: int, b: int|
                    0 <= a < self.columns@.len() && 0 <= b < self.columns@.len() && a != b ==> #[trigger] self.columns@[a].name@
                        != #[trigger] self.columns@[b].name@,
                forall|t: int, i2: int|
                    0 <= t < m && 0 <= i2 < self.tables@[t].columns_spec().len() ==> has_column_entry(
                        self.columns@,
                        #[trigger] self.tables@[t].columns_spec()[i2]@,
                    ),
                self.tables@ == olds,
                m == olds.len(),
                news == olds.push(table),
                arity == table.columns@.len(),
                i <= arity,
                forall|e: int|
                    0 <= e < self.columns@.len() ==> (#[trigger] self.columns@[e]).tables@ == tables_with(olds, self.columns@[e].name@, m as nat)
                        + (if declares(table.columns@.take(i as int), self.columns@[e].name@) {
                        seq![m]
                    } else {
                        Seq::<usize>::empty()
                    }),
                forall|i2: int| 0 <= i2 < i ==> has_column_entry(self.columns@, #[trigger] table.columns@[i2]@),
            decreases arity - i,
        {
            let c = &table.columns[i];
            let ghost before = self.columns@;
            proof {
                lemma_tables_with(olds, c@, m as nat);
                assert forall|nm: Seq<char>| nm != c@ implies (declares(table.columns@.take(i + 1), nm)
                    <==> declares(table.columns@.take(i as int), nm)) by {
                    if declares(table.columns@.take(i + 1), nm) {
                        let w = choose|w: int| 0 <= w < i + 1 && #[trigger] table.columns@.take(i + 1)[w]@ == nm;
                        assert(table.columns@.take(i as int)[w]@ == nm);
                    }
                    if declares(table.columns@.take(i as int), nm) {
                        let w = choose|w: int| 0 <= w < i && #[trigger] table.columns@.take(i as int)[w]@ == nm;
                        assert(table.columns@.take(i + 1)[w]@ == nm);
                    }
                }
                assert(table.columns@.take(i + 1)[i as int]@ == c@);
                assert(declares(table.columns@.take(i + 1), c@));
            }
            match find_column(&self.columns, c) {
                Some(e) => {
                    let len = self.columns[e].tables.len();
                    if len == 0 || self.columns[e].tables[len - 1] != m {
                        proof {
                            if declares(table.columns@.take(i as int), c@) {
                                assert(before[e as int].tables@[len - 1] == m);
                            }
                        }
                        self.columns[e].tables.push(m);
                    } else {
                        proof {
                            if !declares(table.columns@.take(i as int), c@) {
                                assert(tables_with(olds, c@, m as nat)[len - 1] < m);
                            }
                        }
                    }
                    proof {
                        assert forall|e2: int| 0 <= e2 < self.columns@.len() implies (#[trigger] self.columns@[e2]).tables@ == tables_with(olds, self.columns@[e2].name@, m as nat)
                            + (if declares(table.columns@.take(i + 1), self.columns@[e2].name@) {
                            seq![m]
                        } else {
                            Seq::<usize>::empty()
                        }) by {
                            if e2 == e {
                                if declares(table.columns@.take(i as int), c@) {
                                    assert(self.columns@[e2].tables@ =~= before[e2].tables@);
                                } else {
                                    assert(self.columns@[e2].tables@ =~= tables_with(olds, c@, m as nat) + seq![m]);
                                }
                            } else {
                                assert(self.columns@[e2] == before[e2]);
                            }
                        }
                        assert forall|t: int, i2: int|
                            0 <= t < m && 0 <= i2 < self.tables@[t].columns_spec().len() implies has_column_entry(
                                self.columns@,
                                #[trigger] self.tables@[t].columns_spec()[i2]@,
                            ) by {
                            let w = choose|w: int| 0 <= w < before.len() && #[trigger] before[w].name@ == self.tables@[t].columns_spec()[i2]@;
                            assert(self.columns@[w].name@ == before[w].name@);
                        }
                        assert forall|i2: int| 0 <= i2 < i + 1 implies has_column_entry(self.columns@, #[trigger] table.columns@[i2]@) by {
                            if i2 < i {
                                let w = choose|w: int| 0 <= w < before.len() && #[trigger] before[w].name@ == table.columns@[i2]@;
                                assert(self.columns@[w].name@ == before[w].name@);
                            } else {
                                assert(self.columns@[e as int].name@ == c@);
                            }
                        }
                    }
                },
                None => {
                    proof {
                        if tables_with(olds, c@, m as nat).len() > 0 {
                            let t = tables_with(olds, c@, m as nat)[0] as int;
                            assert(tables_with(olds, c@, m as nat).contains(t as usize));
                            assert(declares(olds[t].columns_spec(), c@));
                            let w = choose|w: int| 0 <= w < olds[t].columns_spec().len() && #[trigger] olds[t].columns_spec()[w]@ == c@;
                            assert(has_column_entry(before, olds[t].columns_spec()[w]@));
                        }
                        if declares(table.columns@.take(i as int), c@) {
                            let w = choose|w: int| 0 <= w < i && #[trigger] table.columns@.take(i as int)[w]@ == c@;
                            assert(has_column_entry(before, table.columns@[w]@));
                        }
                    }
                    let mut ts: Vec<usize> = Vec::new();
                    ts.push(m);
                    self.columns.push(ColumnTables { name: c.clone(), tables: ts });
                    proof {
                        let last = before.len() as int;
                        assert forall|e2: int| 0 <= e2 < self.columns@.len() implies (#[trigger] self.columns@[e2]).tables@ == tables_with(olds, self.columns@[e2].name@, m as nat)
                            + (if declares(table.columns@.take(i + 1), self.columns@[e2].name@) {
                            seq![m]
                        } else {
                            Seq::<usize>::empty()
                        }) by {
                            if e2 == last {
                                assert(self.columns@[e2].tables@ =~= tables_with(olds, c@, m as nat) + seq![m]);
                            } else {
                                assert(self.columns@[e2] == before[e2]);
                            }
                        }
                        assert forall|t: int, i2: int|
                            0 <= t < m && 0 <= i2 < self.tables@[t].columns_spec().len() implies has_column_entry(
                                self.columns@,
                                #[trigger] self.tables@[t].columns_spec()[i2]@,
                            ) by {
                            let w = choose|w: int| 0 <= w < before.len() && #[trigger] before[w].name@ == self.tables@[t].columns_spec()[i2]@;
                            assert(self.columns@[w] == before[w]);
                        }
                        assert forall|i2: int| 0 <= i2 < i + 1 implies has_column_entry(self.columns@, #[trigger] table.columns@[i2]@) by {
                            if i2 < i {
                                let w = choose|w: int| 0 <= w < before.len() && #[trigger] before[w].name@ == table.columns@[i2]@;
                                assert(self.columns@[w] == before[w]);
                            } else {
                                assert(self.columns@[last].name@ == c@);
                            }
                        }
                    }
                },
            }
            i = i + 1;
        }
        assert(table.columns@.take(arity as int) =~= table.columns@);
        self.tables.push(table);
        proof {
            assert forall|e: int| 0 <= e < self.columns@.len() implies (#[trigger] self.columns@[e]).tables@ == tables_with(self.tables@, self.columns@[e].name@, (m + 1) as nat) by {
                lemma_tables_with_prefix(olds, self.tables@, self.columns@[e].name@, m as nat);
                assert(self.tables@[m as int] == table);
            }
            assert forall|t: int| 0 <= t < m + 1 implies (#[trigger] self.tables@[t]).wf() by {
                if t < m {
                    assert(self.tables@[t] == olds[t]);
                }
            }
            assert forall|t: int, i2: int|
                0 <= t < m + 1 && 0 <= i2 < self.tables@[t].columns_spec().len() implies has_column_entry(
                    self.columns@,
                    #[trigger] self.tables@[t].columns_spec()[i2]@,
                ) by {
                if t == m {
                    assert(self.tables@[t] == table);
                    assert(has_column_entry(self.columns@, table.columns@[i2]@));
                } else {
                    assert(self.tables@[t] == olds[t]);
                }
            }
        }
    }
}


/// The values a list of references points to.
pub open spec fn refs_view(v: Seq<&DataType>) -> Seq<ValueView> {
    v.map_values(|x: &DataType| x@)
}

/// Adds `v` to an ascending list of distinct values, keeping it so.
pub(crate) fn insert_sorted<'b>(out: &mut Vec<&'b DataType>, v: &'b DataType)
    requires
        sorted_values(refs_view(old(out)@)),
    ensures
        sorted_values(refs_view(final(out)@)),
        forall|x: ValueView| refs_view(final(out)@).contains(x) <==> (refs_view(old(out)@).contains(x) || x == v@),
{
    let ghost before = refs_view(out@);
    let mut k: usize = 0;
    while k < out.len() && out[k].less(v)
        invariant
            before == refs_view(out@),
            k <= out@.len(),
            forall|j: int| 0 <= j < k ==> value_lt(#[trigger] before[j], v@),
        decreases out.len() - k,
    {
        k = k + 1;
    }
    if k < out.len() && out[k].same(v) {
        return;
    }
    proof {
        if k < before.len() {
            crate::value::lemma_value_lt_total(before[k as int], v@);
        }
        assert forall|j: int| k <= j < before.len() implies value_lt(v@, #[trigger] before[j]) by {
            if j > k {
                crate::value::lemma_value_lt_transitive(v@, before[k as int], before[j]);
            }
        }
    }
    out.insert(k, v);
    proof {
        let now = refs_view(out@);
        assert(now =~= before.insert(k as int, v@));
        assert forall|i: int, j: int| 0 <= i < j < now.len() implies value_lt(#[trigger] now[i], #[trigger] now[j]) by {
            if i < k && j > k {
                crate::value::lemma_value_lt_transitive(now[i], v@, now[j]);
            }
        }
        assert forall|x: ValueView| now.contains(x) <==> (before.contains(x) || x == v@) by {
            if now.contains(x) {
                let w = choose|w: int| 0 <= w < now.len() && now[w] == x;
                if w < k {
                    assert(before[w] == x);
                } else if w > k {
                    assert(before[w - 1] == x);
                }
            }
            if before.contains(x) {
                let w = choose|w: int| 0 <= w < before.len() && before[w] == x;
                if w < k {
                    assert(now[w] == x);
                } else {
                    assert(now[w + 1] == x);
                }
            }
            if x == v@ {
                assert(now[k as int] == x);
            }
        }
    }
}

/// Whether some row of `t` holds `v` in its first column named `c`.
pub open spec fn column_has(t: Table, c: Seq<char>, v: ValueView) -> bool {
    exists|r: int| 0 <= r < t.rows_spec().len() && #[trigger] t.rows_spec()[r][find_col(t.columns_spec(), c)] == v
}

/// Whether some table that declares column `c` holds `v` in it.
pub open spec fn in_some_column(tables: Seq<Table>, c: Seq<char>, v: ValueView) -> bool {
    exists|t: int| 0 <= t < tables.len() && declares(tables[t].columns_spec(), c) && column_has(#[trigger] tables[t], c, v)
}

impl Model {
    /// The first table with the given name, if any.
    pub fn get_table(&self, table_name: &str) -> (r: Option<&Table>)
        ensures
            match r {
                Some(t) => exists|k: int| 0 <= k < self.tables_spec().len() && *t == #[trigger] self.tables_spec()[k]
                    && t.name_spec() == table_name@ && forall|j: int| 0 <= j < k ==> (#[trigger] self.tables_spec()[j]).name_spec() != table_name@,
                None => forall|j: int| 0 <= j < self.tables_spec().len() ==> (#[trigger] self.tables_spec()[j]).name_spec() != table_name@,
            },
    {
        let target = owned(table_name);
        let mut k: usize = 0;
        while k < self.tables.len()
            invariant
                k <= self.tables@.len(),
                target@ == table_name@,
                forall|j: int| 0 <= j < k ==> (#[trigger] self.tables@[j]).name_spec() != table_name@,
            decreases self.tables.len() - k,
        {
            if *self.tables[k].get_name() == target {
                assert(self.tables_spec()[k as int] == self.tables@[k as int]);
                return Some(&self.tables[k]);
            }
            k = k + 1;
        }
        None
    }

    /// The tables that declare column `col`, ascending, each with the
    /// position of its first column of that name.
    pub(crate) fn get_tables_and_col_indices(&self, col: &str) -> (r: Vec<(usize, usize)>)
        requires
            self.wf(),
        ensures
            r@.len() == tables_with(self.tables@, col@, self.tables@.len() as nat).len(),
            forall|k: int| 0 <= k < r@.len() ==> (#[trigger] r@[k]).0 == tables_with(self.tables@, col@, self.tables@.len() as nat)[k]
                && r@[k].1 as int == find_col(self.tables@[r@[k].0 as int].columns_spec(), col@)
                && r@[k].0 < self.tables@.len() && r@[k].1 < self.tables@[r@[k].0 as int].columns_spec().len(),
    {
        let m = self.tables.len();
        let ghost tw = tables_with(self.tables@, col@, m as nat);
        proof {
            lemma_tables_with(self.tables@, col@, m as nat);
        }
        let target = owned(col);
        let mut out: Vec<(usize, usize)> = Vec::new();
        match find_column(&self.columns, &target) {
            None => {
                proof {
                    if tw.len() > 0 {
                        let t = tw[0] as int;
                        assert(tw.contains(t as usize));
                        let w = choose|w: int| 0 <= w < self.tables@[t].columns_spec().len() && #[trigger] self.tables@[t].columns_spec()[w]@ == col@;
                        assert(has_column_entry(self.columns@, self.tables@[t].columns_spec()[w]@));
                    }
                }
            },
            Some(e) => {
                let ids = &self.columns[e].tables;
                assert(ids@ == tw);
                let mut k: usize = 0;
                while k < ids.len()
                    invariant
                        self.wf(),
                        m == self.tables@.len(),
                        ids@ == tw,
                        tw == tables_with(self.tables@, col@, m as nat),
                        forall|q: int| 0 <= q < tw.len() ==> (#[trigger] tw[q]) < m,
                        forall|t: int| 0 <= t < m ==> (tw.contains(t as usize) <==> declares(#[trigger] self.tables@[t].columns_spec(), col@)),
                        k <= ids@.len(),
                        out@.len() == k,
                        forall|q: int| 0 <= q < k ==> (#[trigger] out@[q]).0 == tw[q]
                            && out@[q].1 as int == find_col(self.tables@[out@[q].0 as int].columns_spec(), col@)
                            && out@[q].0 < m && out@[q].1 < self.tables@[out@[q].0 as int].columns_spec().len(),
                    decreases ids.len() - k,
                {
                    let t = ids[k];
                    assert(tw.contains(t));
                    match self.tables[t].get_col_index(col) {
                        Some(i) => {
                            out.push((t, i));
                        },
                        None => {
                            assert(false);
                        },
                    }
                    k = k + 1;
                }
            },
        }
        out
    }

    /// The distinct values of column `col` over every table that declares
    /// it, in ascending order.
    pub fn get_all_values(&self, col: &str) -> (r: Vec<&DataType>)
        requires
            self.wf(),
        ensures
            sorted_values(refs_view(r@)),
            forall|v: ValueView| refs_view(r@).contains(v) <==> in_some_column(self.tables_spec(), col@, v),
    {
        let pairs = self.get_tables_and_col_indices(col);
        let m = self.tables.len();
        let ghost tw = tables_with(self.tables@, col@, m as nat);
        proof {
            lemma_tables_with(self.tables@, col@, m as nat);
        }
        let mut out: Vec<&DataType> = Vec::new();
        let mut p: usize = 0;
        while p < pairs.len()
            invariant
                self.wf(),
                tw == tables_with(self.tables@, col@, self.tables@.len() as nat),
                pairs@.len() == tw.len(),
                forall|k: int| 0 <= k < pairs@.len() ==> (#[trigger] pairs@[k]).0 == tw[k]
                    && pairs@[k].1 as int == find_col(self.tables@[pairs@[k].0 as int].columns_spec(), col@)
                    && pairs@[k].0 < self.tables@.len() && pairs@[k].1 < self.tables@[pairs@[k].0 as int].columns_spec().len(),
                p <= pairs@.len(),
                sorted_values(refs_view(out@)),
                forall|v: ValueView| refs_view(out@).contains(v) <==> exists|k: int| 0 <= k < p && column_has(self.tables@[#[trigger] tw[k] as int], col@, v),
            decreases pairs.len() - p,
        {
            let (t, i) = pairs[p];
            let table = &self.tables[t];
            let records = table.get_records();
            let ghost before = refs_view(out@);
            let mut r: usize = 0;
            assert forall|v: ValueView| refs_view(out@).contains(v) <==> (before.contains(v) || exists|q: int| 0 <= q < r && #[trigger] table.rows_spec()[q][i as int] == v) by {}
            while r < records.len()
                invariant
                    self.wf(),
                    t < self.tables@.len(),
                    table == self.tables@[t as int],
                    records@ == table.records_spec(),
                    i as int == find_col(table.columns_spec(), col@),
                    i < table.columns_spec().len(),
                    r <= records@.len(),
                    sorted_values(refs_view(out@)),
                    forall|v: ValueView| refs_view(out@).contains(v) <==> (before.contains(v) || exists|q: int| 0 <= q < r && #[trigger] table.rows_spec()[q][i as int] == v),
                decreases records.len() - r,
            {
                assert(table.wf());
                assert(records@[r as int]@.len() == table.columns_spec().len());
                let v = &records[r][i];
                assert(table.rows_spec()[r as int][i as int] == v@);
                let ghost mid = refs_view(out@);
                let ghost vv = v@;
                let ghost r0 = r as int;
                assert(forall|x: ValueView| mid.contains(x) <==> (before.contains(x) || exists|q: int| 0 <= q < r0 && #[trigger] table.rows_spec()[q][i as int] == x));
                insert_sorted(&mut out, v);
                r = r + 1;
                assert forall|x: ValueView| refs_view(out@).contains(x) <==> (before.contains(x) || exists|q: int| 0 <= q < r && #[trigger] table.rows_spec()[q][i as int] == x) by {
                    assert(refs_view(out@).contains(x) <==> (mid.contains(x) || x == vv));
                    assert(mid.contains(x) <==> (before.contains(x) || exists|q: int| 0 <= q < r0 && #[trigger] table.rows_spec()[q][i as int] == x));
                    if x == vv {
                        assert(table.rows_spec()[r - 1][i as int] == x);
                    }
                    if exists|q: int| 0 <= q < r && #[trigger] table.rows_spec()[q][i as int] == x {
                        let q = choose|q: int| 0 <= q < r && #[trigger] table.rows_spec()[q][i as int] == x;
                        if q < r0 {
                            assert(exists|q2: int| 0 <= q2 < r0 && #[trigger] table.rows_spec()[q2][i as int] == x);
                        }
                    }
                }
            }
            p = p + 1;
            assert forall|v: ValueView| refs_view(out@).contains(v) <==> exists|k: int| 0 <= k < p && column_has(self.tables@[#[trigger] tw[k] as int], col@, v) by {
                assert(table.rows_spec().len() == records@.len());
                assert(before.contains(v) <==> exists|k: int| 0 <= k < p - 1 && column_has(self.tables@[#[trigger] tw[k] as int], col@, v));
                if exists|k: int| 0 <= k < p && column_has(self.tables@[#[trigger] tw[k] as int], col@, v) {
                    let k = choose|k: int| 0 <= k < p && column_has(self.tables@[#[trigger] tw[k] as int], col@, v);
                    if k < p - 1 {
                        assert(exists|k2: int| 0 <= k2 < p - 1 && column_has(self.tables@[#[trigger] tw[k2] as int], col@, v));
                    }
                }
                assert(self.tables@[tw[p - 1] as int] == *table);
                if exists|q: int| 0 <= q < records@.len() && #[trigger] table.rows_spec()[q][i as int] == v {
                    assert(column_has(self.tables@[tw[p - 1] as int], col@, v));
                }
                if column_has(self.tables@[tw[p - 1] as int], col@, v) {
                    let q = choose|q: int| 0 <= q < table.rows_spec().len() && #[trigger] table.rows_spec()[q][find_col(table.columns_spec(), col@)] == v;
                    assert(table.rows_spec()[q][i as int] == v);
                }
            }
        }
        proof {
            assert forall|v: ValueView| refs_view(out@).contains(v) <==> in_some_column(self.tables@, col@, v) by {
                if refs_view(out@).contains(v) {
                    let k = choose|k: int| 0 <= k < pairs@.len() && column_has(self.tables@[#[trigger] tw[k] as int], col@, v);
                    assert(tw.contains(tw[k]));
                }
                if in_some_column(self.tables@, col@, v) {
                    let t = choose|t: int| 0 <= t < self.tables@.len() && declares(self.tables@[t].columns_spec(), col@) && column_has(#[trigger] self.tables@[t], col@, v);
                    assert(tw.contains(t as usize));
                    let k = choose|k: int| 0 <= k < tw.len() && tw[k] == t as usize;
                    assert(column_has(self.tables@[tw[k] as int], col@, v));
                }
            }
        }
        out
    }
}

} // verus!
