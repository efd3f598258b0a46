//! Splitting one line of delimited text into fields.
use vstd::prelude::*;
use crate::text::{chars_of, string_of, strings_view};

verus! {

pub uninterp spec fn white_space(c: char) -> bool;

/// Relies on std's `char::is_whitespace`: whether the character has the
/// Unicode White_Space property, which depends on the character alone.
#[verifier::external_body]
fn is_white_space(c: char) -> (r: bool)
    ensures
        r == white_space(c),
{
    c.is_whitespace()
}

/// `s` without its trailing white space.
pub open spec fn trim_end(s: Seq<char>) -> Seq<char>
    decreases s.len(),
{
    if s.len() > 0 && white_space(s.last()) {
        trim_end(s.drop_last())
    } else {
        s
    }
}

/// Whether `d` occurs in `s` at position `i`.
pub open spec fn occurs_at(s: Seq<char>, d: Seq<char>, i: int) -> bool {
    0 <= i && i + d.len() <= s.len() && s.subrange(i, i + d.len()) == d
}

/// The first position at or after `i` where `d` occurs in `s`, or -1.
pub open spec fn next_match(s: Seq<char>, d: Seq<char>, i: int) -> int
    decreases s.len() + 1 - i,
{
    if i < 0 || i + d.len() > s.len() {
        -1
    } else if occurs_at(s, d, i) {
        i
    } else {
        next_match(s, d, i + 1)
    }
}

/// The pieces of `s` from position `i` on between non-overlapping
/// occurrences of `d`, taken from the left.
pub open spec fn pieces(s: Seq<char>, d: Seq<char>, i: int) -> Seq<Seq<char>>
    decreases s.len() + 1 - i,
{
    let p = next_match(s, d, i);
    if d.len() == 0 || p < i || i > s.len() || p + d.len() > s.len() {
        seq![s.subrange(i, s.len() as int)]
    } else {
        seq![s.subrange(i, p)] + pieces(s, d, p + d.len())
    }
}

/// The fields of a line: its pieces between delimiters, each without
/// trailing white space, at most `max` of them when a bound is given.
pub open spec fn fields_spec(line: Seq<char>, delim: Seq<char>, max: Option<usize>) -> Seq<Seq<char>> {
    let all = pieces(line, delim, 0).map_values(|f: Seq<char>| trim_end(f));
    match max {
        Some(m) => if (m as int) < all.len() {
            all.take(m as int)
        } else {
            all
        },
        None => all,
    }
}

fn occurs(s: &Vec<char>, d: &Vec<char>, i: usize) -> (r: bool)
    requires
        i <= s@.len(),
    ensures
        r == occurs_at(s@, d@, i as int),
{
    if d.len() > s.len() - i {
        return false;
    }
    let mut k: usize = 0;
    while k < d.len()
        invariant
            i + d@.len() <= s@.len(),
            s@.len() <= usize::MAX,
            k <= d@.len(),
            forall|q: int| 0 <= q < k ==> s@[i + q] == d@[q],
        decreases d.len() - k,
    {
        if s[i + k] != d[k] {
            assert(s@.subrange(i as int, i + d@.len())[k as int] != d@[k as int]);
            return false;
        }
        k = k + 1;
    }
    assert(s@.subrange(i as int, i + d@.len()) =~= d@);
    true
}

fn trimmed(cs: &Vec<char>, lo: usize, hi: usize) -> (r: String)
    requires
        lo <= hi <= cs@.len(),
    ensures
        r@ == trim_end(cs@.subrange(lo as int, hi as int)),
{
    let mut e = hi;
    while e > lo && is_white_space(cs[e - 1])
        invariant
            lo <= e <= hi <= cs@.len(),
            trim_end(cs@.subrange(lo as int, hi as int)) == trim_end(cs@.subrange(lo as int, e as int)),
        decreases e - lo,
    {
        assert(cs@.subrange(lo as int, e as int).drop_last() =~= cs@.subrange(lo as int, e - 1));
        e = e - 1;
    }
    let mut piece: Vec<char> = Vec::new();
    let mut k = lo;
    while k < e
        invariant
            lo <= k <= e <= cs@.len(),
            piece@ == cs@.subrange(lo as int, k as int),
        decreases e - k,
    {
        piece.push(cs[k]);
        k = k + 1;
        assert(piece@ =~= cs@.subrange(lo as int, k as int));
    }
    string_of(&piece)
}

/// Splits a line on a non-empty delimiter and trims the end of each field;
/// keeps at most `max_cols` fields when a bound is given.
pub fn parse_csv_line(line: &str, delim: &str, max_cols: Option<usize>) -> (r: Vec<String>)
    requires
        delim@.len() > 0,
    ensures
        strings_view(r@) == fields_spec(line@, delim@, max_cols),
{
    let s = chars_of(line);
    let d = chars_of(delim);
    let ghost sv = s@;
    let ghost dv = d@;
    let ghost all = pieces(sv, dv, 0).map_values(|f: Seq<char>| trim_end(f));
    let mut out: Vec<String> = Vec::new();
    let mut start: usize = 0;
    let mut i: usize = 0;
    while d.len() <= s.len() - i
        invariant
            sv == s@,
            dv == d@,
            sv == line@,
            dv == delim@,
            dv.len() > 0,
            all == pieces(sv, dv, 0).map_values(|f: Seq<char>| trim_end(f)),
            start <= i <= sv.len(),
            next_match(sv, dv, start as int) == next_match(sv, dv, i as int),
            strings_view(out@) + pieces(sv, dv, start as int).map_values(|f: Seq<char>| trim_end(f)) == all,
        decreases sv.len() - i,
    {
        if occurs(&s, &d, i) {
            let f = trimmed(&s, start, i);
            proof {
                assert(next_match(sv, dv, i as int) == i);
                assert(pieces(sv, dv, start as int) == seq![sv.subrange(start as int, i as int)] + pieces(sv, dv, i + dv.len()));
            }
            let ghost before = strings_view(out@);
            out.push(f);
            assert(strings_view(out@) =~= before.push(f@));
            assert(pieces(sv, dv, start as int).map_values(|f: Seq<char>| trim_end(f)) =~= seq![f@] + pieces(sv, dv, i + dv.len()).map_values(|f: Seq<char>| trim_end(f)));
            assert(strings_view(out@) + pieces(sv, dv, i + dv.len()).map_values(|f: Seq<char>| trim_end(f)) =~= all);
            i = i + d.len();
            start = i;
        } else {
            i = i + 1;
        }
    }
    let f = trimmed(&s, start, s.len());
    proof {
        assert(next_match(sv, dv, i as int) == -1);
        assert(pieces(sv, dv, start as int) == seq![sv.subrange(start as int, sv.len() as int)]);
    }
    let ghost before = strings_view(out@);
    out.push(f);
    assert(strings_view(out@) =~= before.push(f@));
    assert(pieces(sv, dv, start as int).map_values(|f: Seq<char>| trim_end(f)) =~= seq![f@]);
    assert(strings_view(out@) =~= all);
    match max_cols {
        Some(m) => {
            if m < out.len() {
                out.truncate(m);
                assert(strings_view(out@) =~= all.take(m as int));
            }
        },
        None => {},
    }
    out
}

} // verus!
