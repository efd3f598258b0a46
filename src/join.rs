//! A nested-loop equality join of two headered tables of text cells, on
//! the one column name their headers share.
use vstd::prelude::*;
use crate::text::chars_of;

verus! {

/// The headers do not share exactly one column.
#[derive(Debug, Clone, Copy, PartialEq, Eq)]
pub struct JoinError {}

pub type RowView = Seq<Seq<char>>;

pub open spec fn cells_view(r: Vec<&str>) -> RowView {
    r@.map_values(|s: &str| s@)
}

/// The rows of a table as sequences of cell texts, its header first.
pub open spec fn grid_view(g: Seq<Vec<&str>>) -> Seq<RowView> {
    g.map_values(|r: Vec<&str>| cells_view(r))
}

/// The positions in `h2` of columns that `h1` also has, ascending.
pub open spec fn shared_positions(h1: RowView, h2: RowView, n: nat) -> Seq<int>
    decreases n,
{
    if n == 0 {
        Seq::empty()
    } else {
        let prev = shared_positions(h1, h2, (n - 1) as nat);
        if h1.contains(h2[n - 1]) {
            prev.push(n - 1)
        } else {
            prev
        }
    }
}

/// The position of the first cell equal to `c`, or -1.
pub open spec fn position_of(h: RowView, c: Seq<char>) -> int
    decreases h.len(),
{
    if h.len() == 0 {
        -1
    } else if h[0] == c {
        0
    } else if position_of(h.drop_first(), c) < 0 {
        -1
    } else {
        position_of(h.drop_first(), c) + 1
    }
}

/// `r` without its cell at `j`.
pub open spec fn without(r: RowView, j: int) -> RowView {
    r.take(j) + r.skip(j + 1)
}

/// For one row of the first table, the joined rows with each matching row
/// of the second, in order.
pub open spec fn joined_with(r1: RowView, d2: Seq<RowView>, i: int, j: int) -> Seq<RowView>
    decreases d2.len(),
{
    if d2.len() == 0 {
        Seq::empty()
    } else {
        let prev = joined_with(r1, d2.drop_last(), i, j);
        if r1[i] == d2.last()[j] {
            prev.push(r1 + without(d2.last(), j))
        } else {
            prev
        }
    }
}

/// The joined rows for every row of the first table, in order.
pub open spec fn joined_rows(d1: Seq<RowView>, d2: Seq<RowView>, i: int, j: int) -> Seq<RowView>
    decreases d1.len(),
{
    if d1.len() == 0 {
        Seq::empty()
    } else {
        joined_rows(d1.drop_last(), d2, i, j) + joined_with(d1.last(), d2, i, j)
    }
}

/// Whether every row of a table is as long as its header.
pub open spec fn rectangular(g: Seq<RowView>) -> bool {
    g.len() >= 1 && forall|k: int| 0 <= k < g.len() ==> (#[trigger] g[k]).len() == g[0].len()
}

fn str_eq(a: &str, b: &str) -> (r: bool)
    ensures
        r == (a@ == b@),
{
    let x = chars_of(a);
    let y = chars_of(b);
    if x.len() != y.len() {
        return false;
    }
    let mut i: usize = 0;
    while i < x.len()
        invariant
            x@ == a@,
            y@ == b@,
            x@.len() == y@.len(),
            i <= x@.len(),
            forall|q: int| 0 <= q < i ==> x@[q] == y@[q],
        decreases x.len() - i,
    {
        if x[i] != y[i] {
            assert(x@[i as int] != y@[i as int]);
            return false;
        }
        i = i + 1;
    }
    assert(x@ =~= y@);
    true
}

fn contains_str(h: &Vec<&str>, c: &str) -> (r: Option<usize>)
    ensures
        match r {
            Some(i) => i as int == position_of(cells_view(*h), c@) && i < h@.len() && cells_view(*h)[i as int] == c@,
            None => position_of(cells_view(*h), c@) == -1 && !cells_view(*h).contains(c@),
        },
{
    let ghost hv = cells_view(*h);
    let mut i: usize = 0;
    assert(hv.skip(0) =~= hv);
    while i < h.len()
        invariant
            hv == cells_view(*h),
            i <= hv.len(),
            forall|q: int| 0 <= q < i ==> hv[q] != c@,
            position_of(hv, c@) == (if position_of(hv.skip(i as int), c@) < 0 {
                -1
            } else {
                position_of(hv.skip(i as int), c@) + i
            }),
        decreases h.len() - i,
    {
        assert(hv.skip(i as int)[0] == hv[i as int]);
        assert(hv.skip(i as int).drop_first() =~= hv.skip(i + 1));
        if str_eq(h[i], c) {
            assert(hv[i as int] == h@[i as int]@);
            return Some(i);
        }
        i = i + 1;
    }
    assert(hv.skip(i as int).len() == 0);
    None
}

/// `r` without its cell at `j`.
fn copy_without<'a>(r: &Vec<&'a str>, j: usize, out: &mut Vec<&'a str>)
    requires
        j < r@.len(),
    ensures
        cells_view(*final(out)) == cells_view(*old(out)) + without(cells_view(*r), j as int),
{
    let ghost start = cells_view(*out);
    let ghost rv = cells_view(*r);
    let mut k: usize = 0;
    while k < r.len()
        invariant
            rv == cells_view(*r),
            j < rv.len(),
            k <= rv.len(),
            k <= j ==> cells_view(*out) == start + rv.take(k as int),
            k > j ==> cells_view(*out) == start + rv.take(j as int) + rv.subrange(j + 1, k as int),
        decreases r.len() - k,
    {
        let ghost before = cells_view(*out);
        if k != j {
            out.push(r[k]);
            assert(cells_view(*out) =~= before.push(rv[k as int]));
        }
        k = k + 1;
        if k <= j {
            assert(cells_view(*out) =~= start + rv.take(k as int));
        } else if k == j + 1 {
            assert(cells_view(*out) =~= start + rv.take(j as int) + rv.subrange(j + 1, k as int));
        } else {
            assert(cells_view(*out) =~= start + rv.take(j as int) + rv.subrange(j + 1, k as int));
        }
    }
    assert(cells_view(*out) =~= start + without(rv, j as int));
}

fn copy_all<'a>(r: &Vec<&'a str>) -> (out: Vec<&'a str>)
    ensures
        cells_view(out) == cells_view(*r),
{
    let mut out: Vec<&'a str> = Vec::new();
    let mut k: usize = 0;
    while k < r.len()
        invariant
            k <= r@.len(),
            cells_view(out) == cells_view(*r).take(k as int),
        decreases r.len() - k,
    {
        let ghost before = cells_view(out);
        out.push(r[k]);
        assert(cells_view(out) =~= before.push(cells_view(*r)[k as int]));
        k = k + 1;
        assert(cells_view(out) =~= cells_view(*r).take(k as int));
    }
    assert(cells_view(*r).take(k as int) =~= cells_view(*r));
    out
}


/// The joined table, when the headers share exactly one column position:
/// the first header followed by the second without the shared column, then
/// for each row of the first table, in order, each row of the second whose
/// shared cell equals the first row's cell in that column, joined the same
/// way.
pub open spec fn join_spec(g1: Seq<RowView>, g2: Seq<RowView>) -> Option<Seq<RowView>> {
    let h1 = g1[0];
    let h2 = g2[0];
    let sp = shared_positions(h1, h2, h2.len());
    if sp.len() != 1 {
        None
    } else {
        let j = sp[0];
        let i = position_of(h1, h2[j]);
        Some(seq![h1 + without(h2, j)] + joined_rows(g1.skip(1), g2.skip(1), i, j))
    }
}

/// Joins two headered tables on the one column name they share; fails when
/// they share none or more than one.
pub fn join_tables<'a>(t1: &'a Vec<Vec<&'a str>>, t2: &'a Vec<Vec<&'a str>>) -> (r: Result<Vec<Vec<&'a str>>, JoinError>)
    requires
        rectangular(grid_view(t1@)),
        rectangular(grid_view(t2@)),
    ensures
        match r {
            Ok(g) => join_spec(grid_view(t1@), grid_view(t2@)) == Some(grid_view(g@)),
            Err(_) => join_spec(grid_view(t1@), grid_view(t2@)) is None,
        },
{
    let ghost g1 = grid_view(t1@);
    let ghost g2 = grid_view(t2@);
    let h1 = &t1[0];
    let h2 = &t2[0];
    assert(cells_view(*h1) == g1[0]);
    assert(cells_view(*h2) == g2[0]);
    let ghost hv1 = g1[0];
    let ghost hv2 = g2[0];
    let mut count: usize = 0;
    let mut jpos: usize = 0;
    let mut j: usize = 0;
    while j < h2.len()
        invariant
            hv1 == cells_view(*h1),
            hv2 == cells_view(*h2),
            j <= hv2.len(),
            count as int == shared_positions(hv1, hv2, j as nat).len(),
            count > 0 ==> jpos as int == shared_positions(hv1, hv2, j as nat).last() && jpos < j,
            count <= j,
        decreases h2.len() - j,
    {
        assert(hv2[j as int] == h2@[j as int]@);
        let found = contains_str(h1, h2[j]);
        proof {
            if let Some(w) = found {
                assert(hv1[w as int] == hv2[j as int]);
                assert(hv1.contains(hv2[j as int]));
            }
        }
        if found.is_some() {
            count = count + 1;
            jpos = j;
        }
        j = j + 1;
    }
    if count != 1 {
        return Err(JoinError {});
    }
    let ghost sp = shared_positions(hv1, hv2, hv2.len());
    assert(sp.len() == 1 && sp[0] == jpos);
    assert(hv1.contains(hv2[jpos as int])) by {
        assert(sp.len() == 1);
        lemma_shared_positions(hv1, hv2, hv2.len());
    }
    assert(hv2[jpos as int] == h2@[jpos as int]@);
    let i = match contains_str(h1, h2[jpos]) {
        Some(i) => i,
        None => {
            return Err(JoinError {});
        },
    };
    let mut header = copy_all(h1);
    copy_without(h2, jpos, &mut header);
    let mut out: Vec<Vec<&'a str>> = Vec::new();
    out.push(header);
    let ghost d1 = g1.skip(1);
    let ghost d2 = g2.skip(1);
    assert(grid_view(out@) =~= seq![hv1 + without(hv2, jpos as int)]);
    assert(d1.take(0) =~= Seq::<RowView>::empty());
    let mut a: usize = 1;
    while a < t1.len()
        invariant
            g1 == grid_view(t1@),
            g2 == grid_view(t2@),
            rectangular(g1),
            rectangular(g2),
            d1 == g1.skip(1),
            d2 == g2.skip(1),
            i < hv1.len(),
            jpos < hv2.len(),
            hv1 == g1[0],
            hv2 == g2[0],
            1 <= a <= t1@.len(),
            grid_view(out@) == seq![hv1 + without(hv2, jpos as int)] + joined_rows(d1.take(a - 1), d2, i as int, jpos as int),
        decreases t1.len() - a,
    {
        let r1 = &t1[a];
        assert(cells_view(*r1) == g1[a as int]);
        assert(g1[a as int].len() == hv1.len());
        assert(d1[a - 1] == g1[a as int]);
        let ghost before = grid_view(out@);
        assert(d2.take(0) =~= Seq::<RowView>::empty());
        let mut b: usize = 1;
        while b < t2.len()
            invariant
                g1 == grid_view(t1@),
                g2 == grid_view(t2@),
                rectangular(g2),
                d2 == g2.skip(1),
                i < hv1.len(),
                jpos < hv2.len(),
                hv2 == g2[0],
                cells_view(*r1).len() == hv1.len(),
                1 <= b <= t2@.len(),
                grid_view(out@) == before + joined_with(cells_view(*r1), d2.take(b - 1), i as int, jpos as int),
            decreases t2.len() - b,
        {
            let r2 = &t2[b];
            assert(cells_view(*r2) == g2[b as int]);
            assert(g2[b as int].len() == hv2.len());
            assert(d2[b - 1] == g2[b as int]);
            assert(d2.take(b as int).drop_last() =~= d2.take(b - 1));
            assert(cells_view(*r1)[i as int] == r1@[i as int]@);
            assert(cells_view(*r2)[jpos as int] == r2@[jpos as int]@);
            if str_eq(r1[i], r2[jpos]) {
                let mut row = copy_all(r1);
                copy_without(r2, jpos, &mut row);
                let ghost mid = grid_view(out@);
                out.push(row);
                assert(grid_view(out@) =~= mid.push(cells_view(row)));
            }
            b = b + 1;
        }
        assert(d2.take(b - 1) =~= d2);
        assert(d1.take(a as int).drop_last() =~= d1.take(a - 1));
        a = a + 1;
    }
    assert(d1.take(a - 1) =~= d1);
    Ok(out)
}

proof fn lemma_shared_positions(h1: RowView, h2: RowView, n: nat)
    requires
        n <= h2.len(),
    ensures
        forall|k: int| 0 <= k < shared_positions(h1, h2, n).len() ==> 0 <= #[trigger] shared_positions(h1, h2, n)[k] < n
            && h1.contains(h2[shared_positions(h1, h2, n)[k]]),
    decreases n,
{
    if n > 0 {
        lemma_shared_positions(h1, h2, (n - 1) as nat);
        let prev = shared_positions(h1, h2, (n - 1) as nat);
        let cur = shared_positions(h1, h2, n);
        assert forall|k: int| 0 <= k < cur.len() implies 0 <= #[trigger] cur[k] < n && h1.contains(h2[cur[k]]) by {
            if k < prev.len() {
                assert(cur[k] == prev[k]);
            }
        }
    }
}

} // verus!
