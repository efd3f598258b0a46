//! Candidate values grouped by column: one entry per column, each with the
//! values that column may take.
use vstd::prelude::*;
use crate::table::owned;

verus! {

/// Candidate values per column.
pub struct BetterSelection {
    pub selected_values: Vec<(String, Vec<String>)>,
}

pub type CandidatesView = (Seq<char>, Seq<Seq<char>>);

pub open spec fn strs_view(v: Seq<&str>) -> Seq<Seq<char>> {
    v.map_values(|s: &str| s@)
}

pub open spec fn owned_view(v: Seq<String>) -> Seq<Seq<char>> {
    v.map_values(|s: String| s@)
}

pub open spec fn given_view(v: Seq<(&str, Vec<&str>)>) -> Seq<CandidatesView> {
    v.map_values(|p: (&str, Vec<&str>)| (p.0@, strs_view(p.1@)))
}

pub open spec fn entries_view(v: Seq<(String, Vec<String>)>) -> Seq<CandidatesView> {
    v.map_values(|p: (String, Vec<String>)| (p.0@, owned_view(p.1@)))
}

/// The values given last for column `c`, if any were given.
pub open spec fn last_for(vals: Seq<CandidatesView>, c: Seq<char>) -> Option<Seq<Seq<char>>>
    decreases vals.len(),
{
    if vals.len() == 0 {
        None
    } else if vals.last().0 == c {
        Some(vals.last().1)
    } else {
        last_for(vals.drop_last(), c)
    }
}

fn owned_all(vs: &Vec<&str>) -> (r: Vec<String>)
    ensures
        owned_view(r@) == strs_view(vs@),
{
    let mut out: Vec<String> = Vec::new();
    let mut i: usize = 0;
    while i < vs.len()
        invariant
            i <= vs@.len(),
            owned_view(out@) == strs_view(vs@).take(i as int),
        decreases vs.len() - i,
    {
        let s = owned(vs[i]);
        let ghost before = owned_view(out@);
        let ghost sv = s@;
        assert(sv == strs_view(vs@)[i as int]);
        out.push(s);
        assert(owned_view(out@) =~= before.push(sv));
        i = i + 1;
        assert(owned_view(out@) =~= strs_view(vs@).take(i as int));
    }
    assert(strs_view(vs@).take(i as int) =~= strs_view(vs@));
    out
}

impl BetterSelection {
    /// Groups candidate values by column; when a column is given more than
    /// once, the values given last stand.
    pub fn new(vals: Vec<(&str, Vec<&str>)>) -> (r: BetterSelection)
        ensures
            forall|a: int, b: int|
                0 <= a < r.selected_values@.len() && 0 <= b < r.selected_values@.len() && a != b ==> #[trigger] r.selected_values@[a].0@
                    != #[trigger] r.selected_values@[b].0@,
            forall|e: int|
                0 <= e < r.selected_values@.len() ==> last_for(given_view(vals@), #[trigger] entries_view(r.selected_values@)[e].0)
                    == Some(entries_view(r.selected_values@)[e].1),
            forall|c: Seq<char>| #[trigger] last_for(given_view(vals@), c) is Some ==> exists|e: int|
                0 <= e < r.selected_values@.len() && #[trigger] r.selected_values@[e].0@ == c,
    {
        let mut bs = BetterSelection { selected_values: Vec::new() };
        let ghost gv = given_view(vals@);
        let mut i: usize = 0;
        while i < vals.len()
            invariant
                gv == given_view(vals@),
                i <= vals@.len(),
                forall|a: int, b: int|
                    0 <= a < bs.selected_values@.len() && 0 <= b < bs.selected_values@.len() && a != b ==> #[trigger] bs.selected_values@[a].0@
                        != #[trigger] bs.selected_values@[b].0@,
                forall|e: int|
                    0 <= e < bs.selected_values@.len() ==> last_for(gv.take(i as int), #[trigger] entries_view(bs.selected_values@)[e].0)
                        == Some(entries_view(bs.selected_values@)[e].1),
                forall|c: Seq<char>| #[trigger] last_for(gv.take(i as int), c) is Some ==> exists|e: int|
                    0 <= e < bs.selected_values@.len() && #[trigger] bs.selected_values@[e].0@ == c,
            decreases vals.len() - i,
        {
            let key = owned(vals[i].0);
            let values = owned_all(&vals[i].1);
            let ghost pair = (key@, owned_view(values@));
            assert(gv[i as int] == pair);
            assert(gv.take(i + 1).drop_last() =~= gv.take(i as int));
            assert(gv.take(i + 1).last() == pair);
            let ghost before = bs.selected_values@;
            let mut e: usize = 0;
            while e < bs.selected_values.len() && !(bs.selected_values[e].0 == key)
                invariant
                    bs.selected_values@ == before,
                    e <= before.len(),
                    forall|k: int| 0 <= k < e ==> (#[trigger] before[k]).0@ != key@,
                decreases bs.selected_values.len() - e,
            {
                e = e + 1;
            }
            let found = e < bs.selected_values.len();
            if found {
                bs.selected_values.set(e, (key, values));
                assert(entries_view(bs.selected_values@)[e as int] == pair);
            } else {
                bs.selected_values.push((key, values));
                assert(entries_view(bs.selected_values@)[before.len() as int] == pair);
            }
            proof {
                let now = bs.selected_values@;
                assert forall|k: int| 0 <= k < now.len() && now[k].0@ != key@ implies now[k] == before[k] by {}
                assert forall|a: int, b: int|
                    0 <= a < now.len() && 0 <= b < now.len() && a != b implies #[trigger] now[a].0@ != #[trigger] now[b].0@ by {
                    if now[a].0@ == key@ && now[b].0@ == key@ {
                        if found {
                            if a != e {
                                assert(now[a] == before[a]);
                            } else {
                                assert(now[b] == before[b]);
                            }
                        } else {
                            if a < before.len() {
                                assert(now[a] == before[a]);
                            } else {
                                assert(now[b] == before[b]);
                            }
                        }
                    } else if now[a].0@ != key@ && now[b].0@ != key@ {
                        assert(now[a] == before[a]);
                        assert(now[b] == before[b]);
                    }
                }
                assert forall|c: Seq<char>| #[trigger] last_for(gv.take(i + 1), c) is Some implies exists|e2: int|
                    0 <= e2 < now.len() && #[trigger] now[e2].0@ == c by {
                    if c == key@ {
                        if found {
                            assert(now[e as int].0@ == c);
                        } else {
                            assert(now[before.len() as int].0@ == c);
                        }
                    } else {
                        assert(last_for(gv.take(i as int), c) is Some);
                        let e2 = choose|e2: int| 0 <= e2 < before.len() && #[trigger] before[e2].0@ == c;
                        assert(now[e2] == before[e2]);
                    }
                }
                assert forall|e2: int| 0 <= e2 < now.len() implies last_for(gv.take(i + 1), #[trigger] entries_view(now)[e2].0)
                    == Some(entries_view(now)[e2].1) by {
                    if now[e2].0@ != key@ {
                        assert(now[e2] == before[e2]);
                        assert(entries_view(before)[e2] == entries_view(now)[e2]);
                    } else if found {
                        assert(e2 == e);
                    } else {
                        if e2 < before.len() {
                            assert(now[e2] == before[e2]);
                        }
                    }
                }
            }
            i = i + 1;
        }
        assert(gv.take(i as int) =~= gv);
        bs
    }
}

} // verus!
