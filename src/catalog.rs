//! A fixed-schema catalog of persons with an index from (field, value) to
//! the persons holding it, queried by intersecting index buckets.
use vstd::prelude::*;
use crate::table::owned;

verus! {

/// A person record.
#[derive(Debug)]
pub struct Person {
    pub name: String,
    pub country: String,
    pub sex: String,
    pub job: String,
}

/// The indexed fields of a person.
#[derive(Debug, Clone, Copy, PartialEq, Eq, Hash, Structural)]
pub enum Column {
    Name,
    Country,
    Sex,
    Job,
}

/// A value of one field.
#[derive(Debug, Clone, PartialEq, Eq, Hash)]
pub struct Value {
    pub column: Column,
    pub value: String,
}

pub type KeyView = (Column, Seq<char>);

impl View for Value {
    type V = KeyView;

    open spec fn view(&self) -> KeyView {
        (self.column, self.value@)
    }
}

pub(crate) struct Entry {
    pub(crate) key: Value,
    pub(crate) rows: Vec<usize>,
}

/// Persons, and for each field value that occurs the ids of the persons
/// indexed under it.
pub struct Catalog {
    pub(crate) persons: Vec<Person>,
    pub(crate) index: Vec<Entry>,
}

pub(crate) open spec fn index_view(idx: Seq<Entry>) -> Seq<(KeyView, Seq<usize>)> {
    idx.map_values(|e: Entry| (e.key@, e.rows@))
}

/// The ids indexed under `k`: those of its entry, or none.
pub open spec fn bucket(idx: Seq<(KeyView, Seq<usize>)>, k: KeyView) -> Seq<usize>
    decreases idx.len(),
{
    if idx.len() == 0 {
        Seq::empty()
    } else if idx[0].0 == k {
        idx[0].1
    } else {
        bucket(idx.drop_first(), k)
    }
}

pub open spec fn unique_keys(idx: Seq<(KeyView, Seq<usize>)>) -> bool {
    forall|a: int, b: int| 0 <= a < idx.len() && 0 <= b < idx.len() && a != b ==> #[trigger] idx[a].0 != #[trigger] idx[b].0
}

/// The elements of `a` that `b` holds, in the order of `a`.
pub open spec fn keep_in(a: Seq<usize>, b: Seq<usize>) -> Seq<usize>
    decreases a.len(),
{
    if a.len() == 0 {
        a
    } else if b.contains(a.last()) {
        keep_in(a.drop_last(), b).push(a.last())
    } else {
        keep_in(a.drop_last(), b)
    }
}

/// The ids in every bucket of a non-empty list of keys, in the order of the
/// first bucket.
pub open spec fn common_ids(idx: Seq<(KeyView, Seq<usize>)>, keys: Seq<KeyView>) -> Seq<usize>
    decreases keys.len(),
{
    if keys.len() <= 1 {
        bucket(idx, keys[0])
    } else {
        keep_in(common_ids(idx, keys.drop_last()), bucket(idx, keys.last()))
    }
}

/// The persons at the given ids that exist, in the order of the ids.
pub open spec fn persons_at(persons: Seq<Person>, ids: Seq<usize>) -> Seq<Person>
    decreases ids.len(),
{
    if ids.len() == 0 {
        Seq::empty()
    } else {
        let prev = persons_at(persons, ids.drop_last());
        if (ids.last() as int) < persons.len() {
            prev.push(persons[ids.last() as int])
        } else {
            prev
        }
    }
}

pub open spec fn person_keys(p: Person) -> Seq<KeyView> {
    seq![(Column::Name, p.name@), (Column::Country, p.country@), (Column::Sex, p.sex@), (Column::Job, p.job@)]
}

proof fn lemma_bucket_at(idx: Seq<(KeyView, Seq<usize>)>, e: int)
    requires
        unique_keys(idx),
        0 <= e < idx.len(),
    ensures
        bucket(idx, idx[e].0) == idx[e].1,
    decreases idx.len(),
{
    if e > 0 {
        let rest = idx.drop_first();
        assert(idx[0].0 != idx[e].0);
        assert(unique_keys(rest)) by {
            assert forall|a: int, b: int| 0 <= a < rest.len() && 0 <= b < rest.len() && a != b implies #[trigger] rest[a].0 != #[trigger] rest[b].0 by {
                assert(rest[a] == idx[a + 1]);
                assert(rest[b] == idx[b + 1]);
            }
        }
        assert(rest[e - 1] == idx[e]);
        lemma_bucket_at(rest, e - 1);
    }
}

proof fn lemma_bucket_absent(idx: Seq<(KeyView, Seq<usize>)>, k: KeyView)
    requires
        forall|e: int| 0 <= e < idx.len() ==> (#[trigger] idx[e]).0 != k,
    ensures
        bucket(idx, k) == Seq::<usize>::empty(),
    decreases idx.len(),
{
    if idx.len() > 0 {
        let rest = idx.drop_first();
        assert(idx[0].0 != k);
        assert forall|e: int| 0 <= e < rest.len() implies (#[trigger] rest[e]).0 != k by {
            assert(rest[e] == idx[e + 1]);
        }
        lemma_bucket_absent(rest, k);
    }
}

impl Person {
    /// A person with the given fields; the age is not recorded.
    pub fn new(name: &str, country: &str, sex: &str, age: i32, job: &str) -> (r: Person)
        ensures
            r.name@ == name@,
            r.country@ == country@,
            r.sex@ == sex@,
            r.job@ == job@,
    {
        Person { name: owned(name), country: owned(country), sex: owned(sex), job: owned(job) }
    }
}

fn same_key(a: &Value, b: &Value) -> (r: bool)
    ensures
        r == (a@ == b@),
{
    a.column == b.column && a.value == b.value
}

/// The elements of `acc` that `r` holds, in the order of `acc`.
fn intersect(acc: &Vec<usize>, r: &Vec<usize>) -> (out: Vec<usize>)
    ensures
        out@ == keep_in(acc@, r@),
{
    let mut out: Vec<usize> = Vec::new();
    let mut i: usize = 0;
    assert(acc@.take(0) =~= Seq::<usize>::empty());
    while i < acc.len()
        invariant
            i <= acc@.len(),
            out@ == keep_in(acc@.take(i as int), r@),
        decreases acc.len() - i,
    {
        let x = acc[i];
        assert(acc@.take(i + 1).drop_last() =~= acc@.take(i as int));
        let mut j: usize = 0;
        while j < r.len() && r[j] != x
            invariant
                j <= r@.len(),
                forall|q: int| 0 <= q < j ==> r@[q] != x,
            decreases r.len() - j,
        {
            j = j + 1;
        }
        if j < r.len() {
            out.push(x);
        }
        i = i + 1;
    }
    assert(acc@.take(i as int) =~= acc@);
    out
}

impl Catalog {
    pub open(crate) spec fn persons_spec(&self) -> Seq<Person> {
        self.persons@
    }

    pub open(crate) spec fn index_spec(&self) -> Seq<(KeyView, Seq<usize>)> {
        index_view(self.index@)
    }

    /// Each field value has at most one index entry.
    pub open(crate) spec fn wf(&self) -> bool {
        unique_keys(index_view(self.index@))
    }

    /// An empty catalog.
    pub fn new() -> (r: Catalog)
        ensures
            r.wf(),
            r.persons_spec().len() == 0,
            forall|k: KeyView| bucket(r.index_spec(), k) == Seq::<usize>::empty(),
    {
        let r = Catalog { persons: Vec::new(), index: Vec::new() };
        assert(index_view(r.index@) =~= Seq::<(KeyView, Seq<usize>)>::empty());
        r
    }

    /// Indexes the id the next person will get under `v`.
    pub fn index_value(&mut self, v: Value)
        requires
            old(self).wf(),
        ensures
            final(self).wf(),
            final(self).persons_spec() == old(self).persons_spec(),
            forall|k: KeyView|
                #[trigger] bucket(final(self).index_spec(), k) == if k == v@ {
                    bucket(old(self).index_spec(), k).push(old(self).persons_spec().len() as usize)
                } else {
                    bucket(old(self).index_spec(), k)
                },
    {
        let n = self.persons.len();
        let ghost before = index_view(self.index@);
        let ghost key = v@;
        let mut e: usize = 0;
        while e < self.index.len() && !same_key(&self.index[e].key, &v)
            invariant
                before == index_view(self.index@),
                key == v@,
                e <= before.len(),
                forall|q: int| 0 <= q < e ==> (#[trigger] before[q]).0 != key,
            decreases self.index.len() - e,
        {
            assert(before[e as int].0 == self.index@[e as int].key@);
            e = e + 1;
        }
        if e < self.index.len() {
            self.index[e].rows.push(n);
            proof {
                let now = index_view(self.index@);
                assert(before[e as int].0 == key);
                assert forall|q: int| 0 <= q < now.len() && q != e implies now[q] == before[q] by {}
                assert(now[e as int] == (key, before[e as int].1.push(n)));
                assert(unique_keys(now)) by {
                    assert forall|a: int, b: int| 0 <= a < now.len() && 0 <= b < now.len() && a != b implies #[trigger] now[a].0 != #[trigger] now[b].0 by {
                        assert(now[a].0 == before[a].0);
                        assert(now[b].0 == before[b].0);
                    }
                }
                assert forall|k: KeyView| #[trigger] bucket(now, k) == if k == key {
                    bucket(before, k).push(n)
                } else {
                    bucket(before, k)
                } by {
                    lemma_bucket_at(before, e as int);
                    lemma_bucket_at(now, e as int);
                    if k != key {
                        if exists|q: int| 0 <= q < before.len() && before[q].0 == k {
                            let q = choose|q: int| 0 <= q < before.len() && before[q].0 == k;
                            lemma_bucket_at(before, q);
                            lemma_bucket_at(now, q);
                        } else {
                            lemma_bucket_absent(before, k);
                            assert forall|q: int| 0 <= q < now.len() implies (#[trigger] now[q]).0 != k by {
                                assert(now[q].0 == before[q].0);
                            }
                            lemma_bucket_absent(now, k);
                        }
                    }
                }
            }
        } else {
            let mut rows: Vec<usize> = Vec::new();
            rows.push(n);
            self.index.push(Entry { key: v, rows });
            proof {
                let now = index_view(self.index@);
                let last = before.len() as int;
                assert forall|q: int| 0 <= q < before.len() implies now[q] == before[q] by {}
                assert(now[last] == (key, seq![n]));
                assert(unique_keys(now)) by {
                    assert forall|a: int, b: int| 0 <= a < now.len() && 0 <= b < now.len() && a != b implies #[trigger] now[a].0 != #[trigger] now[b].0 by {
                        if a < last {
                            assert(now[a] == before[a]);
                        }
                        if b < last {
                            assert(now[b] == before[b]);
                        }
                    }
                }
                assert forall|k: KeyView| #[trigger] bucket(now, k) == if k == key {
                    bucket(before, k).push(n)
                } else {
                    bucket(before, k)
                } by {
                    if k == key {
                        lemma_bucket_absent(before, k);
                        lemma_bucket_at(now, last);
                        assert(seq![n] =~= Seq::<usize>::empty().push(n));
                    } else if exists|q: int| 0 <= q < before.len() && before[q].0 == k {
                        let q = choose|q: int| 0 <= q < before.len() && before[q].0 == k;
                        lemma_bucket_at(before, q);
                        lemma_bucket_at(now, q);
                    } else {
                        lemma_bucket_absent(before, k);
                        assert forall|q: int| 0 <= q < now.len() implies (#[trigger] now[q]).0 != k by {
                            if q < last {
                                assert(now[q] == before[q]);
                            }
                        }
                        lemma_bucket_absent(now, k);
                    }
                }
            }
        }
    }
}


pub open spec fn keys_view(sel: Seq<Value>) -> Seq<KeyView> {
    sel.map_values(|v: Value| v@)
}

pub open spec fn persons_view(r: Seq<&Person>) -> Seq<Person> {
    r.map_values(|p: &Person| *p)
}

fn copy_ids(v: &Vec<usize>) -> (r: Vec<usize>)
    ensures
        r@ == v@,
{
    let mut r: Vec<usize> = Vec::new();
    let mut i: usize = 0;
    while i < v.len()
        invariant
            i <= v@.len(),
            r@ == v@.take(i as int),
        decreases v.len() - i,
    {
        r.push(v[i]);
        i = i + 1;
        assert(r@ =~= v@.take(i as int));
    }
    assert(v@.take(i as int) =~= v@);
    r
}

impl Catalog {
    /// Adds a person and indexes each of its fields.
    pub fn insert(&mut self, p: Person)
        requires
            old(self).wf(),
        ensures
            final(self).wf(),
            final(self).persons_spec() == old(self).persons_spec().push(p),
            forall|k: KeyView|
                #[trigger] bucket(final(self).index_spec(), k) == if person_keys(p).contains(k) {
                    bucket(old(self).index_spec(), k).push(old(self).persons_spec().len() as usize)
                } else {
                    bucket(old(self).index_spec(), k)
                },
    {
        let ghost keys = person_keys(p);
        let ghost n = self.persons@.len() as usize;
        let ghost start = self.index_spec();
        self.index_value(Value { value: p.name.clone(), column: Column::Name });
        let ghost s1 = self.index_spec();
        self.index_value(Value { value: p.country.clone(), column: Column::Country });
        let ghost s2 = self.index_spec();
        self.index_value(Value { value: p.sex.clone(), column: Column::Sex });
        let ghost s3 = self.index_spec();
        self.index_value(Value { value: p.job.clone(), column: Column::Job });
        let ghost s4 = self.index_spec();
        self.persons.push(p);
        proof {
            assert forall|k: KeyView| #[trigger] bucket(s4, k) == if keys.contains(k) {
                bucket(start, k).push(n)
            } else {
                bucket(start, k)
            } by {
                assert(bucket(s1, k) == if k == keys[0] { bucket(start, k).push(n) } else { bucket(start, k) });
                assert(bucket(s2, k) == if k == keys[1] { bucket(s1, k).push(n) } else { bucket(s1, k) });
                assert(bucket(s3, k) == if k == keys[2] { bucket(s2, k).push(n) } else { bucket(s2, k) });
                assert(bucket(s4, k) == if k == keys[3] { bucket(s3, k).push(n) } else { bucket(s3, k) });
                if keys.contains(k) {
                    let w = choose|w: int| 0 <= w < keys.len() && keys[w] == k;
                }
            }
            assert(s4 == self.index_spec());
            assert forall|k: KeyView| #[trigger] bucket(self.index_spec(), k) == if keys.contains(k) {
                bucket(start, k).push(n)
            } else {
                bucket(start, k)
            } by {
                if keys.contains(k) {
                    let w = choose|w: int| 0 <= w < 4 && keys[w] == k;
                    assert(keys[0] == (Column::Name, p.name@));
                    assert(keys[1] == (Column::Country, p.country@));
                    assert(keys[2] == (Column::Sex, p.sex@));
                    assert(keys[3] == (Column::Job, p.job@));
                } else {
                    assert(k != keys[0] && k != keys[1] && k != keys[2] && k != keys[3]);
                }
            }
        }
    }

    /// The persons at the given ids, skipping ids past the end.
    pub fn get_persons_by_row_id(&self, row_ids: &Vec<usize>) -> (r: Vec<&Person>)
        ensures
            persons_view(r@) == persons_at(self.persons_spec(), row_ids@),
    {
        let mut out: Vec<&Person> = Vec::new();
        let mut k: usize = 0;
        while k < row_ids.len()
            invariant
                k <= row_ids@.len(),
                persons_view(out@) == persons_at(self.persons@, row_ids@.take(k as int)),
            decreases row_ids.len() - k,
        {
            let id = row_ids[k];
            assert(row_ids@.take(k + 1).drop_last() =~= row_ids@.take(k as int));
            if id < self.persons.len() {
                out.push(&self.persons[id]);
            }
            k = k + 1;
            assert(persons_view(out@) =~= persons_at(self.persons@, row_ids@.take(k as int)));
        }
        assert(row_ids@.take(row_ids.len() as int) =~= row_ids@);
        out
    }

    /// The ids indexed under `v`.
    fn bucket_of(&self, v: &Value) -> (r: Vec<usize>)
        requires
            self.wf(),
        ensures
            r@ == bucket(self.index_spec(), v@),
    {
        let ghost idx = self.index_spec();
        let mut e: usize = 0;
        while e < self.index.len() && !same_key(&self.index[e].key, v)
            invariant
                idx == index_view(self.index@),
                e <= idx.len(),
                forall|q: int| 0 <= q < e ==> (#[trigger] idx[q]).0 != v@,
            decreases self.index.len() - e,
        {
            assert(idx[e as int].0 == self.index@[e as int].key@);
            e = e + 1;
        }
        if e < self.index.len() {
            proof {
                lemma_bucket_at(idx, e as int);
            }
            copy_ids(&self.index[e].rows)
        } else {
            proof {
                lemma_bucket_absent(idx, v@);
            }
            Vec::new()
        }
    }

    /// The persons indexed under every value of `selection`, in the order
    /// of the first value's bucket; every person when it is empty.
    pub fn get_possible_rows(&self, selection: &Vec<Value>) -> (r: Vec<&Person>)
        requires
            self.wf(),
        ensures
            selection@.len() == 0 ==> persons_view(r@) == self.persons_spec(),
            selection@.len() > 0 ==> persons_view(r@) == persons_at(
                self.persons_spec(),
                common_ids(self.index_spec(), keys_view(selection@)),
            ),
    {
        if selection.len() == 0 {
            let mut out: Vec<&Person> = Vec::new();
            let mut k: usize = 0;
            while k < self.persons.len()
                invariant
                    k <= self.persons@.len(),
                    persons_view(out@) == self.persons@.take(k as int),
                decreases self.persons.len() - k,
            {
                let ghost before = persons_view(out@);
                out.push(&self.persons[k]);
                assert(persons_view(out@) =~= before.push(self.persons@[k as int]));
                k = k + 1;
                assert(persons_view(out@) =~= self.persons@.take(k as int));
            }
            assert(self.persons@.take(k as int) =~= self.persons@);
            return out;
        }
        let ghost keys = keys_view(selection@);
        let mut acc = self.bucket_of(&selection[0]);
        let mut i: usize = 1;
        assert(keys.take(1).len() == 1 && keys.take(1)[0] == keys[0]);
        while i < selection.len()
            invariant
                self.wf(),
                keys == keys_view(selection@),
                1 <= i <= selection@.len(),
                acc@ == common_ids(self.index_spec(), keys.take(i as int)),
            decreases selection.len() - i,
        {
            let b = self.bucket_of(&selection[i]);
            assert(keys.take(i + 1).drop_last() =~= keys.take(i as int));
            assert(keys.take(i + 1).last() == selection@[i as int]@);
            acc = intersect(&acc, &b);
            i = i + 1;
        }
        assert(keys.take(i as int) =~= keys);
        self.get_persons_by_row_id(&acc)
    }
}

} // verus!
