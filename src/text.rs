//! Character-level helpers shared by the value codec and the expression
//! tokenizer: decimal digits, lexicographic order and string building.
use vstd::prelude::*;
use vstd::std_specs::iter::IteratorSpec;

verus! {

pub open spec fn is_digit(c: char) -> bool {
    '0' <= c && c <= '9'
}

pub open spec fn all_digits(s: Seq<char>) -> bool {
    forall|i: int| 0 <= i < s.len() ==> is_digit(#[trigger] s[i])
}

/// The numeric value of a decimal digit character.
pub open spec fn char_val(c: char) -> int {
    (c as int) - ('0' as int)
}

/// The character of a digit `0..=9`.
pub open spec fn digit_char(d: int) -> char {
    seq!['0', '1', '2', '3', '4', '5', '6', '7', '8', '9'][d]
}

/// The value of a sequence of decimal digits, most significant first.
pub open spec fn digits_val(s: Seq<char>) -> int
    decreases s.len(),
{
    if s.len() == 0 {
        0
    } else {
        digits_val(s.drop_last()) * 10 + char_val(s.last())
    }
}

/// The shortest decimal spelling of a natural number.
pub open spec fn nat_str(n: nat) -> Seq<char>
    decreases n,
{
    if n < 10 {
        seq![digit_char(n as int)]
    } else {
        nat_str(n / 10).push(digit_char((n % 10) as int))
    }
}

/// The decimal spelling of an integer, with a leading `-` when negative.
pub open spec fn int_str(i: int) -> Seq<char> {
    if i < 0 {
        seq!['-'] + nat_str((-i) as nat)
    } else {
        nat_str(i as nat)
    }
}

/// The character sequences of a list of strings.
pub open spec fn strings_view(v: Seq<String>) -> Seq<Seq<char>> {
    v.map_values(|t: String| t@)
}

/// Lexicographic order on character sequences, by code point.
pub open spec fn seq_lt(a: Seq<char>, b: Seq<char>) -> bool
    decreases a.len(),
{
    if a.len() == 0 {
        b.len() > 0
    } else if b.len() == 0 {
        false
    } else if a[0] != b[0] {
        a[0] < b[0]
    } else {
        seq_lt(a.drop_first(), b.drop_first())
    }
}

pub proof fn lemma_digit_char(d: int)
    requires
        0 <= d < 10,
    ensures
        is_digit(digit_char(d)),
        char_val(digit_char(d)) == d,
{
}

pub proof fn lemma_nat_str_digits(n: nat)
    ensures
        all_digits(nat_str(n)),
        nat_str(n).len() >= 1,
        digits_val(nat_str(n)) == n,
        nat_str(n)[0] != '0' || n == 0,
    decreases n,
{
    if n < 10 {
        lemma_digit_char(n as int);
        assert(nat_str(n).drop_last() =~= Seq::<char>::empty());
        assert(digits_val(nat_str(n)) == digits_val(Seq::<char>::empty()) * 10 + char_val(digit_char(n as int)));
    } else {
        lemma_nat_str_digits(n / 10);
        lemma_digit_char((n % 10) as int);
        assert(nat_str(n).drop_last() =~= nat_str(n / 10));
        assert(nat_str(n).last() == digit_char((n % 10) as int));
        assert(digits_val(nat_str(n)) == digits_val(nat_str(n / 10)) * 10 + (n % 10) as int);
        assert((n / 10) * 10 + n % 10 == n);
        assert forall|i: int| 0 <= i < nat_str(n).len() implies is_digit(#[trigger] nat_str(n)[i]) by {
            if i < nat_str(n / 10).len() {
                assert(nat_str(n)[i] == nat_str(n / 10)[i]);
            }
        }
        assert(nat_str(n)[0] == nat_str(n / 10)[0]);
    }
}

pub proof fn lemma_seq_lt_total(a: Seq<char>, b: Seq<char>)
    requires
        a != b,
    ensures
        seq_lt(a, b) || seq_lt(b, a),
    decreases a.len(),
{
    if a.len() == 0 {
        assert(b.len() > 0) by {
            if b.len() == 0 {
                assert(a =~= b);
            }
        }
    } else if b.len() == 0 {
    } else if a[0] != b[0] {
    } else {
        assert(a.drop_first() != b.drop_first()) by {
            if a.drop_first() == b.drop_first() {
                assert(a =~= seq![a[0]] + a.drop_first());
                assert(b =~= seq![b[0]] + b.drop_first());
            }
        }
        lemma_seq_lt_total(a.drop_first(), b.drop_first());
    }
}

pub proof fn lemma_seq_lt_transitive(a: Seq<char>, b: Seq<char>, c: Seq<char>)
    requires
        seq_lt(a, b),
        seq_lt(b, c),
    ensures
        seq_lt(a, c),
    decreases a.len(),
{
    if a.len() > 0 && a[0] == b[0] && b[0] == c[0] {
        lemma_seq_lt_transitive(a.drop_first(), b.drop_first(), c.drop_first());
    }
}

pub proof fn lemma_digits_val_nonneg(d: Seq<char>)
    requires
        all_digits(d),
    ensures
        digits_val(d) >= 0,
        digits_val(d) == 0 ==> forall|i: int| 0 <= i < d.len() ==> #[trigger] d[i] == '0',
    decreases d.len(),
{
    if d.len() > 0 {
        let init = d.drop_last();
        assert(all_digits(init)) by {
            assert forall|i: int| 0 <= i < init.len() implies is_digit(#[trigger] init[i]) by {
                assert(init[i] == d[i]);
            }
        }
        lemma_digits_val_nonneg(init);
        assert(is_digit(d[d.len() - 1]));
        if digits_val(d) == 0 {
            assert forall|i: int| 0 <= i < d.len() implies #[trigger] d[i] == '0' by {
                if i < d.len() - 1 {
                    assert(init[i] == d[i]);
                }
            }
        }
    }
}

/// A run of digits is its value's shortest spelling, left-padded with zeros.
pub proof fn lemma_digits_spelling(d: Seq<char>)
    requires
        all_digits(d),
        d.len() >= 1,
    ensures
        nat_str(digits_val(d) as nat).len() <= d.len(),
        d == Seq::new((d.len() - nat_str(digits_val(d) as nat).len()) as nat, |_i: int| '0') + nat_str(digits_val(d) as nat),
    decreases d.len(),
{
    let init = d.drop_last();
    let c = d.last();
    assert(is_digit(d[d.len() - 1]));
    assert(all_digits(init)) by {
        assert forall|i: int| 0 <= i < init.len() implies is_digit(#[trigger] init[i]) by {
            assert(init[i] == d[i]);
        }
    }
    lemma_digits_val_nonneg(init);
    let v0 = digits_val(init);
    let v = digits_val(d);
    assert(v == v0 * 10 + char_val(c));
    assert(digit_char(char_val(c)) == c);
    if v0 == 0 {
        assert(v < 10);
        assert(nat_str(v as nat) =~= seq![c]);
        assert(d =~= Seq::new((d.len() - 1) as nat, |_i: int| '0') + seq![c]) by {
            assert forall|i: int| 0 <= i < d.len() - 1 implies d[i] == '0' by {
                assert(init[i] == d[i]);
            }
        }
    } else {
        lemma_digits_spelling(init);
        assert(v >= 10);
        assert((v as nat) / 10 == v0 as nat);
        assert((v as nat) % 10 == char_val(c));
        assert(nat_str(v as nat) == nat_str(v0 as nat).push(c));
        let k = (init.len() - nat_str(v0 as nat).len()) as nat;
        assert(d =~= init.push(c));
        assert(init == Seq::new(k, |_i: int| '0') + nat_str(v0 as nat));
        assert(d =~= Seq::new(k, |_i: int| '0') + nat_str(v as nat));
    }
}

/// The characters of a string, one element each.
pub(crate) fn chars_of(s: &str) -> (v: Vec<char>)
    ensures
        v@ == s@,
{
    let mut v: Vec<char> = Vec::new();
    for c in it: s.chars()
        invariant
            v@ == it.seq().take(it.index() as int),
            it.seq() == s@,
    {
        v.push(c);
    }
    v
}

/// Relies on std's `String::push`: appends one character at the end.
#[verifier::external_body]
pub(crate) fn push_char(s: &mut String, c: char)
    ensures
        final(s)@ == old(s)@.push(c),
{
    s.push(c);
}

/// A string holding exactly the given characters.
pub(crate) fn string_of(cs: &Vec<char>) -> (r: String)
    ensures
        r@ == cs@,
{
    let mut r = String::new();
    let mut i: usize = 0;
    while i < cs.len()
        invariant
            i <= cs.len(),
            r@ == cs@.take(i as int),
        decreases cs.len() - i,
    {
        push_char(&mut r, cs[i]);
        i = i + 1;
        assert(r@ =~= cs@.take(i as int));
    }
    assert(cs@.take(cs.len() as int) =~= cs@);
    r
}

pub(crate) fn digit_of(d: u64) -> (c: char)
    requires
        d < 10,
    ensures
        c == digit_char(d as int),
{
    if d == 0 {
        '0'
    } else if d == 1 {
        '1'
    } else if d == 2 {
        '2'
    } else if d == 3 {
        '3'
    } else if d == 4 {
        '4'
    } else if d == 5 {
        '5'
    } else if d == 6 {
        '6'
    } else if d == 7 {
        '7'
    } else if d == 8 {
        '8'
    } else {
        '9'
    }
}

/// Appends the shortest decimal spelling of `n`.
pub(crate) fn push_nat(out: &mut Vec<char>, n: u64)
    ensures
        final(out)@ == old(out)@ + nat_str(n as nat),
    decreases n,
{
    if n >= 10 {
        push_nat(out, n / 10);
    }
    let c = digit_of(n % 10);
    out.push(c);
    proof {
        if n < 10 {
            assert(nat_str(n as nat) =~= seq![c]);
        }
    }
    assert(final(out)@ =~= old(out)@ + nat_str(n as nat));
}

/// Lexicographic comparison of two character sequences.
pub(crate) fn chars_lt(a: &Vec<char>, b: &Vec<char>) -> (r: bool)
    ensures
        r == seq_lt(a@, b@),
{
    let mut i: usize = 0;
    assert(a@.skip(0) =~= a@);
    assert(b@.skip(0) =~= b@);
    while i < a.len() && i < b.len() && a[i] == b[i]
        invariant
            i <= a.len(),
            i <= b.len(),
            seq_lt(a@, b@) == seq_lt(a@.skip(i as int), b@.skip(i as int)),
        decreases a.len() - i,
    {
        assert(a@.skip(i as int).drop_first() =~= a@.skip(i + 1));
        assert(b@.skip(i as int).drop_first() =~= b@.skip(i + 1));
        i = i + 1;
    }
    if i == a.len() {
        i < b.len()
    } else if i == b.len() {
        false
    } else {
        a[i] < b[i]
    }
}

} // verus!
