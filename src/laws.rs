//! Properties that hold of the engine as a whole.
use vstd::prelude::*;
use crate::text::{all_digits, digits_val, int_str, lemma_digits_spelling, lemma_digits_val_nonneg, nat_str};
use crate::value::{
    abs, apply_sign, decimal_str, dec_mantissa, dot_index, fits_i64, frac_digits, int_body, is_decimal_literal,
    is_int_literal, is_neg, parse_spec, render, sign_len, whole_digits, with_point, pad_digits, zeros,
};

use crate::context::{remove_first, select_view};
use crate::table::{cell_matches, column_ok, lemma_matching_rows, matching_rows, row_selected, SelectionView, Table};
use crate::value::ValueView;
use crate::facet::{in_virtual, reachable, reachable_in, satisfies_virtual};
use crate::model::{column_has, in_some_column};

verus! {

/// Digits without a leading zero, or the single digit zero.
pub open spec fn canonical_digits(d: Seq<char>) -> bool {
    d.len() > 0 && all_digits(d) && (d[0] != '0' || d.len() == 1)
}

/// An integer as it is canonically spelled: an optional minus sign and
/// digits without leading zeros, within the range of `i64`, and no `-0`.
pub open spec fn canonical_integer(s: Seq<char>) -> bool {
    &&& (sign_len(s) == 0 || is_neg(s))
    &&& canonical_digits(int_body(s))
    &&& fits_i64(apply_sign(is_neg(s), digits_val(int_body(s))))
    &&& !(is_neg(s) && digits_val(int_body(s)) == 0)
}

/// A decimal as it is canonically spelled: an optional minus sign, a whole
/// part without leading zeros, a point and one to 255 digits, with a
/// mantissa within the range of `i64`, and not a negative zero.
pub open spec fn canonical_decimal(s: Seq<char>) -> bool {
    &&& (sign_len(s) == 0 || is_neg(s))
    &&& dot_index(s) >= sign_len(s)
    &&& canonical_digits(whole_digits(s))
    &&& frac_digits(s).len() > 0
    &&& all_digits(frac_digits(s))
    &&& frac_digits(s).len() <= 255
    &&& fits_i64(dec_mantissa(s))
    &&& !(is_neg(s) && digits_val(whole_digits(s) + frac_digits(s)) == 0)
}

proof fn lemma_canonical_spelling(d: Seq<char>)
    requires
        canonical_digits(d),
    ensures
        nat_str(digits_val(d) as nat) == d,
{
    lemma_digits_spelling(d);
    let ns = nat_str(digits_val(d) as nat);
    let k = d.len() - ns.len();
    if k > 0 {
        crate::text::lemma_nat_str_digits(digits_val(d) as nat);
        assert(d[0] == '0');
        assert(ns.len() >= 1);
    }
    assert(d =~= ns);
}

proof fn lemma_dot_index_bounds(s: Seq<char>)
    ensures
        dot_index(s) < s.len(),
        dot_index(s) >= 0 ==> s[dot_index(s)] == '.',
        dot_index(s) >= -1,
        forall|j: int| 0 <= j < dot_index(s) || (dot_index(s) < 0 && 0 <= j < s.len()) ==> s[j] != '.',
    decreases s.len(),
{
    if s.len() > 0 && s[0] != '.' {
        lemma_dot_index_bounds(s.drop_first());
        assert forall|j: int| 0 <= j < dot_index(s) || (dot_index(s) < 0 && 0 <= j < s.len()) implies s[j] != '.' by {
            if j > 0 {
                assert(s.drop_first()[j - 1] == s[j]);
            }
        }
    }
}

/// Parsing a canonically spelled integer or decimal and rendering the value
/// gives back the same text.
pub proof fn law_decimal_round_trip(s: Seq<char>)
    requires
        canonical_integer(s) || canonical_decimal(s),
    ensures
        render(parse_spec(s)) == s,
{
    let sl = sign_len(s);
    if canonical_integer(s) {
        assert(is_int_literal(s));
        let body = int_body(s);
        lemma_canonical_spelling(body);
        lemma_digits_val_nonneg(body);
        let v = apply_sign(is_neg(s), digits_val(body));
        assert(render(parse_spec(s)) == int_str(v));
        if is_neg(s) {
            assert(s =~= seq!['-'] + body);
        } else {
            assert(s =~= body);
        }
    } else {
        lemma_dot_index_bounds(s);
        let k = dot_index(s);
        let whole = whole_digits(s);
        let frac = frac_digits(s);
        assert(!is_int_literal(s)) by {
            if is_int_literal(s) {
                assert(int_body(s)[k - sl] == s[k]);
            }
        }
        assert(is_decimal_literal(s));
        let d = whole + frac;
        let p = frac.len();
        assert(all_digits(d)) by {
            assert forall|i: int| 0 <= i < d.len() implies crate::text::is_digit(#[trigger] d[i]) by {
                if i < whole.len() {
                    assert(d[i] == whole[i]);
                } else {
                    assert(d[i] == frac[i - whole.len()]);
                }
            }
        }
        lemma_digits_val_nonneg(d);
        lemma_digits_spelling(d);
        let big = digits_val(d);
        let m = dec_mantissa(s);
        assert(abs(m) == big);
        let ns = nat_str(big as nat);
        if whole.len() == 1 {
            assert(pad_digits(ns, p + 1 as int) =~= d);
        } else {
            assert(d[0] == whole[0]);
            if ns.len() < d.len() {
                crate::text::lemma_nat_str_digits(big as nat);
                assert(d[0] == '0');
            }
            assert(d =~= ns);
            assert(zeros(p + 1 as int - ns.len()) =~= Seq::<char>::empty());
            assert(pad_digits(ns, p + 1 as int) =~= d);
        }
        assert(with_point(d, p as int) =~= whole + seq!['.'] + frac);
        assert(render(parse_spec(s)) == decimal_str(m, p as nat));
        if is_neg(s) {
            assert(m < 0);
            assert(s =~= seq!['-'] + whole + seq!['.'] + frac);
        } else {
            assert(s =~= whole + seq!['.'] + frac);
        }
    }
}


proof fn lemma_fewer_rows(
    cols: Seq<String>,
    rows: Seq<Seq<ValueView>>,
    a: Seq<SelectionView>,
    b: Seq<SelectionView>,
    n: nat,
)
    requires
        n <= rows.len(),
        forall|r: int| 0 <= r < n ==> row_selected(cols, #[trigger] rows[r], a) ==> row_selected(cols, rows[r], b),
    ensures
        matching_rows(cols, rows, a, n).len() <= matching_rows(cols, rows, b, n).len(),
    decreases n,
{
    if n > 0 {
        lemma_fewer_rows(cols, rows, a, b, (n - 1) as nat);
    }
}

/// Selecting a value on a column that the selection does not constrain
/// yet never increases the number of rows kept.
pub proof fn law_narrowing_on_select(t: Table, sel: Seq<SelectionView>, s: SelectionView)
    requires
        forall|j: int| 0 <= j < sel.len() ==> (#[trigger] sel[j]).0 != s.0,
    ensures
        t.possible_spec(select_view(sel, s)).len() <= t.possible_spec(sel).len(),
{
    let cols = t.columns_spec();
    let rows = t.rows_spec();
    let sel2 = select_view(sel, s);
    assert(!sel.contains(s)) by {
        if sel.contains(s) {
            let j = choose|j: int| 0 <= j < sel.len() && sel[j] == s;
            assert(sel[j].0 != s.0);
        }
    }
    assert forall|r: int| 0 <= r < rows.len() && row_selected(cols, #[trigger] rows[r], sel2) implies row_selected(cols, rows[r], sel) by {
        assert forall|j: int| 0 <= j < sel.len() implies column_ok(cols, rows[r], sel, #[trigger] sel[j].0) by {
            assert(sel2[j] == sel[j]);
            assert(column_ok(cols, rows[r], sel2, sel2[j].0));
            let w = choose|w: int| 0 <= w < sel2.len() && #[trigger] sel2[w].0 == sel[j].0 && cell_matches(cols, rows[r], sel[j].0, sel2[w].1);
            assert(w < sel.len());
            assert(sel2[w] == sel[w]);
        }
    }
    lemma_fewer_rows(cols, rows, sel2, sel, rows.len());
}

proof fn lemma_remove_first(sel: Seq<SelectionView>, s: SelectionView)
    ensures
        forall|x: SelectionView| #[trigger] remove_first(sel, s).contains(x) ==> sel.contains(x),
        forall|x: SelectionView| sel.contains(x) && x != s ==> #[trigger] remove_first(sel, s).contains(x),
    decreases sel.len(),
{
    if sel.len() > 0 {
        lemma_remove_first(sel.drop_first(), s);
        let rest = remove_first(sel.drop_first(), s);
        assert forall|x: SelectionView| #[trigger] remove_first(sel, s).contains(x) implies sel.contains(x) by {
            if sel[0] == s {
                let k = choose|k: int| 0 <= k < sel.drop_first().len() && sel.drop_first()[k] == x;
                assert(sel[k + 1] == x);
            } else {
                let k = choose|k: int| 0 <= k < remove_first(sel, s).len() && remove_first(sel, s)[k] == x;
                if k == 0 {
                    assert(sel[0] == x);
                } else {
                    assert(rest[k - 1] == x);
                    assert(rest.contains(x));
                    assert(sel.drop_first().contains(x));
                    let k2 = choose|k2: int| 0 <= k2 < sel.drop_first().len() && sel.drop_first()[k2] == x;
                    assert(sel[k2 + 1] == x);
                }
            }
        }
        assert forall|x: SelectionView| sel.contains(x) && x != s implies #[trigger] remove_first(sel, s).contains(x) by {
            let k = choose|k: int| 0 <= k < sel.len() && sel[k] == x;
            if k == 0 {
                assert(remove_first(sel, s)[0] == x);
            } else {
                assert(sel.drop_first()[k - 1] == x);
                if sel[0] == s {
                    assert(remove_first(sel, s)[k - 1] == x);
                } else {
                    assert(sel.drop_first().contains(x));
                    assert(rest.contains(x));
                    let k2 = choose|k2: int| 0 <= k2 < rest.len() && rest[k2] == x;
                    assert(remove_first(sel, s)[k2 + 1] == x);
                }
            }
        }
    }
}

/// Deselecting the only value selected on its column never decreases the
/// number of rows kept.
pub proof fn law_widening_on_deselect(t: Table, sel: Seq<SelectionView>, s: SelectionView)
    requires
        forall|j: int| 0 <= j < sel.len() && (#[trigger] sel[j]).0 == s.0 ==> sel[j] == s,
    ensures
        t.possible_spec(remove_first(sel, s)).len() >= t.possible_spec(sel).len(),
{
    let cols = t.columns_spec();
    let rows = t.rows_spec();
    let sel2 = remove_first(sel, s);
    lemma_remove_first(sel, s);
    assert forall|r: int| 0 <= r < rows.len() && row_selected(cols, #[trigger] rows[r], sel) implies row_selected(cols, rows[r], sel2) by {
        assert forall|j: int| 0 <= j < sel2.len() implies column_ok(cols, rows[r], sel2, #[trigger] sel2[j].0) by {
            assert(sel2.contains(sel2[j]));
            let k = choose|k: int| 0 <= k < sel.len() && sel[k] == sel2[j];
            assert(column_ok(cols, rows[r], sel, sel[k].0));
            let w = choose|w: int| 0 <= w < sel.len() && #[trigger] sel[w].0 == sel[k].0 && cell_matches(cols, rows[r], sel[k].0, sel[w].1);
            if sel[w] == s {
                assert(sel[k].0 == s.0);
                assert(sel[k] == s);
                assert(sel2[j] == s);
            } else {
                assert(sel.contains(sel[w]));
                assert(sel2.contains(sel[w]));
                let w2 = choose|w2: int| 0 <= w2 < sel2.len() && sel2[w2] == sel[w];
                assert(sel2[w2].0 == sel2[j].0);
            }
        }
    }
    lemma_fewer_rows(cols, rows, sel, sel2, rows.len());
}


/// Two values selected on the same column keep the rows that hold either
/// of them; values selected on two different columns keep the rows that
/// hold both.
pub proof fn law_or_within_and_across(t: Table, c: Seq<char>, a: Seq<char>, b: Seq<char>, c2: Seq<char>, row: usize)
    requires
        t.rows_spec().len() <= usize::MAX,
    ensures
        t.possible_spec(seq![(c, a), (c, b)]).contains(row) <==> (t.possible_spec(seq![(c, a)]).contains(row)
            || t.possible_spec(seq![(c, b)]).contains(row)),
        c != c2 ==> (t.possible_spec(seq![(c, a), (c2, b)]).contains(row) <==> (t.possible_spec(seq![(c, a)]).contains(row)
            && t.possible_spec(seq![(c2, b)]).contains(row))),
{
    let cols = t.columns_spec();
    let rows = t.rows_spec();
    let n = rows.len();
    let both: Seq<SelectionView> = seq![(c, a), (c, b)];
    let across: Seq<SelectionView> = seq![(c, a), (c2, b)];
    let only_a: Seq<SelectionView> = seq![(c, a)];
    let only_b: Seq<SelectionView> = seq![(c, b)];
    let only_b2: Seq<SelectionView> = seq![(c2, b)];
    lemma_matching_rows(cols, rows, both, n);
    lemma_matching_rows(cols, rows, across, n);
    lemma_matching_rows(cols, rows, only_a, n);
    lemma_matching_rows(cols, rows, only_b, n);
    lemma_matching_rows(cols, rows, only_b2, n);
    assert forall|r: int| 0 <= r < n implies (row_selected(cols, #[trigger] rows[r], both) <==> (
        row_selected(cols, rows[r], only_a) || row_selected(cols, rows[r], only_b))) by {
        let ma = cell_matches(cols, rows[r], c, a);
        let mb = cell_matches(cols, rows[r], c, b);
        if ma {
            assert(column_ok(cols, rows[r], only_a, only_a[0].0));
            assert(column_ok(cols, rows[r], both, both[0].0));
        }
        if mb {
            assert(column_ok(cols, rows[r], only_b, only_b[0].0));
            assert(column_ok(cols, rows[r], both, both[1].0));
            assert(column_ok(cols, rows[r], both, both[0].0));
        }
        if row_selected(cols, rows[r], both) {
            assert(column_ok(cols, rows[r], both, both[0].0));
            let w = choose|w: int| 0 <= w < both.len() && #[trigger] both[w].0 == c && cell_matches(cols, rows[r], c, both[w].1);
            assert(ma || mb);
        }
        if row_selected(cols, rows[r], only_a) {
            assert(column_ok(cols, rows[r], only_a, only_a[0].0));
            let w = choose|w: int| 0 <= w < only_a.len() && #[trigger] only_a[w].0 == c && cell_matches(cols, rows[r], c, only_a[w].1);
            assert(ma);
        }
        if row_selected(cols, rows[r], only_b) {
            assert(column_ok(cols, rows[r], only_b, only_b[0].0));
            let w = choose|w: int| 0 <= w < only_b.len() && #[trigger] only_b[w].0 == c && cell_matches(cols, rows[r], c, only_b[w].1);
            assert(mb);
        }
    }
    assert forall|r: usize| #[trigger] t.possible_spec(both).contains(r) <==> (t.possible_spec(only_a).contains(r)
        || t.possible_spec(only_b).contains(r)) by {
        if t.possible_spec(both).contains(r) {
            let k = choose|k: int| 0 <= k < t.possible_spec(both).len() && t.possible_spec(both)[k] == r;
        }
        if t.possible_spec(only_a).contains(r) {
            let k = choose|k: int| 0 <= k < t.possible_spec(only_a).len() && t.possible_spec(only_a)[k] == r;
        }
        if t.possible_spec(only_b).contains(r) {
            let k = choose|k: int| 0 <= k < t.possible_spec(only_b).len() && t.possible_spec(only_b)[k] == r;
        }
        if (r as int) < n {
            assert(row_selected(cols, rows[r as int], both) <==> (row_selected(cols, rows[r as int], only_a) || row_selected(cols, rows[r as int], only_b)));
        }
    }
    if c != c2 {
        assert forall|r: int| 0 <= r < n implies (row_selected(cols, #[trigger] rows[r], across) <==> (
            row_selected(cols, rows[r], only_a) && row_selected(cols, rows[r], only_b2))) by {
            let ma = cell_matches(cols, rows[r], c, a);
            let mb = cell_matches(cols, rows[r], c2, b);
            if row_selected(cols, rows[r], across) {
                assert(column_ok(cols, rows[r], across, across[0].0));
                assert(column_ok(cols, rows[r], across, across[1].0));
                let w = choose|w: int| 0 <= w < across.len() && #[trigger] across[w].0 == c && cell_matches(cols, rows[r], c, across[w].1);
                let w2 = choose|w2: int| 0 <= w2 < across.len() && #[trigger] across[w2].0 == c2 && cell_matches(cols, rows[r], c2, across[w2].1);
                assert(ma && mb);
                assert(column_ok(cols, rows[r], only_a, only_a[0].0));
                assert(column_ok(cols, rows[r], only_b2, only_b2[0].0));
            }
            if row_selected(cols, rows[r], only_a) && row_selected(cols, rows[r], only_b2) {
                assert(column_ok(cols, rows[r], only_a, only_a[0].0));
                assert(column_ok(cols, rows[r], only_b2, only_b2[0].0));
                let w = choose|w: int| 0 <= w < only_a.len() && #[trigger] only_a[w].0 == c && cell_matches(cols, rows[r], c, only_a[w].1);
                let w2 = choose|w2: int| 0 <= w2 < only_b2.len() && #[trigger] only_b2[w2].0 == c2 && cell_matches(cols, rows[r], c2, only_b2[w2].1);
                assert(column_ok(cols, rows[r], across, across[0].0));
                assert(column_ok(cols, rows[r], across, across[1].0));
            }
        }
        assert forall|r: usize| #[trigger] t.possible_spec(across).contains(r) <==> (t.possible_spec(only_a).contains(r)
            && t.possible_spec(only_b2).contains(r)) by {
            if t.possible_spec(across).contains(r) {
                let k = choose|k: int| 0 <= k < t.possible_spec(across).len() && t.possible_spec(across)[k] == r;
            }
            if t.possible_spec(only_a).contains(r) {
                let k = choose|k: int| 0 <= k < t.possible_spec(only_a).len() && t.possible_spec(only_a)[k] == r;
            }
            if (r as int) < n {
                assert(row_selected(cols, rows[r as int], across) <==> (row_selected(cols, rows[r as int], only_a) && row_selected(cols, rows[r as int], only_b2)));
            }
        }
    }
}

/// Selecting the same value a second time leaves the selection as the first
/// selection left it.
pub proof fn law_select_idempotent(sel: Seq<SelectionView>, s: SelectionView)
    ensures
        select_view(select_view(sel, s), s) == select_view(sel, s),
{
    if !sel.contains(s) {
        assert(sel.push(s)[sel.len() as int] == s);
    }
}


/// With nothing selected, the values still reachable in a column are all the
/// values that column holds in any table.
pub proof fn law_empty_selection_reaches_all(tables: Seq<Table>, col: Seq<char>, v: ValueView)
    ensures
        reachable(tables, Seq::empty(), col, v) <==> in_some_column(tables, col, v),
{
    let none: Seq<SelectionView> = Seq::empty();
    assert forall|s: SelectionView| !#[trigger] in_virtual(tables, none, s) by {
        assert forall|t: int| 0 <= t < tables.len() implies !crate::facet::touches(tables[t].columns_spec(), none) by {}
    }
    assert forall|cols: Seq<String>, row: Seq<ValueView>| #[trigger] satisfies_virtual(cols, row, tables, none) by {}
    if reachable(tables, none, col, v) {
        let u = choose|u: int| 0 <= u < tables.len() && crate::table::declares(tables[u].columns_spec(), col) && #[trigger] reachable_in(tables, none, u, col, v);
        let r = choose|r: int|
            0 <= r < tables[u].rows_spec().len() && satisfies_virtual(tables[u].columns_spec(), tables[u].rows_spec()[r], tables, none)
                && #[trigger] tables[u].rows_spec()[r][crate::table::find_col(tables[u].columns_spec(), col)] == v;
        assert(column_has(tables[u], col, v));
    }
    if in_some_column(tables, col, v) {
        let u = choose|u: int| 0 <= u < tables.len() && crate::table::declares(tables[u].columns_spec(), col) && column_has(#[trigger] tables[u], col, v);
        let r = choose|r: int| 0 <= r < tables[u].rows_spec().len() && #[trigger] tables[u].rows_spec()[r][crate::table::find_col(tables[u].columns_spec(), col)] == v;
        assert(satisfies_virtual(tables[u].columns_spec(), tables[u].rows_spec()[r], tables, none));
        assert(reachable_in(tables, none, u, col, v));
    }
}

} // verus!
