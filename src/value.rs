//! Typed scalar values: text, integers and fixed-point decimals, with their
//! canonical spelling, parsing, exact arithmetic and ordering.
use vstd::prelude::*;
use crate::text::{
    all_digits, char_val, chars_of, digits_val, int_str, is_digit, nat_str, push_nat, seq_lt,
    string_of,
};

verus! {

/// The largest magnitude a signed 64-bit integer can hold (that of `i64::MIN`).
pub const MAGNITUDE_CAP: u64 = 9223372036854775808;

pub open spec fn fits_i64(x: int) -> bool {
    i64::MIN <= x <= i64::MAX
}

pub open spec fn pow10(n: nat) -> int
    decreases n,
{
    if n == 0 {
        1
    } else {
        10 * pow10((n - 1) as nat)
    }
}

pub proof fn lemma_pow10_positive(n: nat)
    ensures
        pow10(n) >= 1,
    decreases n,
{
    if n > 0 {
        lemma_pow10_positive((n - 1) as nat);
    }
}

pub proof fn lemma_pow10_add(a: nat, b: nat)
    ensures
        pow10(a + b) == pow10(a) * pow10(b),
    decreases a,
{
    if a > 0 {
        lemma_pow10_add((a - 1) as nat, b);
        assert(pow10(a + b) == 10 * pow10((a - 1 + b) as nat));
        assert(10 * (pow10((a - 1) as nat) * pow10(b)) == (10 * pow10((a - 1) as nat)) * pow10(b))
            by (nonlinear_arith);
    }
}

/// A scalar value of a table cell.
#[derive(Debug, Clone, PartialEq, Eq, Hash)]
pub enum DataType {
    String(String),
    /// `Decimal(mantissa, scale)` stands for `mantissa / 10^scale`.
    Decimal(i64, u8),
    Int(i64),
}

/// What a [`DataType`] holds, with text as a character sequence.
pub enum ValueView {
    Text(Seq<char>),
    Decimal(i64, u8),
    Int(i64),
}

impl View for DataType {
    type V = ValueView;

    open spec fn view(&self) -> ValueView {
        match self {
            DataType::String(s) => ValueView::Text(s@),
            DataType::Decimal(m, p) => ValueView::Decimal(*m, *p),
            DataType::Int(i) => ValueView::Int(*i),
        }
    }
}

pub open spec fn opt_view(o: Option<DataType>) -> Option<ValueView> {
    match o {
        Some(v) => Some(v@),
        None => None,
    }
}

// ---------------------------------------------------------------- parsing

pub open spec fn sign_len(s: Seq<char>) -> int {
    if s.len() > 0 && (s[0] == '-' || s[0] == '+') {
        1
    } else {
        0
    }
}

pub open spec fn is_neg(s: Seq<char>) -> bool {
    s.len() > 0 && s[0] == '-'
}

pub open spec fn apply_sign(neg: bool, v: int) -> int {
    if neg {
        -v
    } else {
        v
    }
}

/// The digits of an integer literal, after its optional sign.
pub open spec fn int_body(s: Seq<char>) -> Seq<char> {
    s.skip(sign_len(s))
}

/// An optional sign followed by one or more digits, within the range of `i64`.
pub open spec fn is_int_literal(s: Seq<char>) -> bool {
    &&& int_body(s).len() > 0
    &&& all_digits(int_body(s))
    &&& fits_i64(apply_sign(is_neg(s), digits_val(int_body(s))))
}

/// Position of the first `.` in `s`, or -1.
pub open spec fn dot_index(s: Seq<char>) -> int
    decreases s.len(),
{
    if s.len() == 0 {
        -1
    } else if s[0] == '.' {
        0
    } else if dot_index(s.drop_first()) < 0 {
        -1
    } else {
        dot_index(s.drop_first()) + 1
    }
}

pub open spec fn whole_digits(s: Seq<char>) -> Seq<char> {
    s.subrange(sign_len(s), dot_index(s))
}

pub open spec fn frac_digits(s: Seq<char>) -> Seq<char> {
    s.skip(dot_index(s) + 1)
}

pub open spec fn dec_mantissa(s: Seq<char>) -> int {
    apply_sign(is_neg(s), digits_val(whole_digits(s) + frac_digits(s)))
}

/// An optional sign, digits, a point and digits, with at least one digit in all,
/// at most 255 digits after the point and a mantissa within the range of `i64`.
pub open spec fn is_decimal_literal(s: Seq<char>) -> bool {
    &&& dot_index(s) >= sign_len(s)
    &&& all_digits(whole_digits(s))
    &&& all_digits(frac_digits(s))
    &&& whole_digits(s).len() + frac_digits(s).len() > 0
    &&& frac_digits(s).len() <= 255
    &&& fits_i64(dec_mantissa(s))
}

/// The value a string stands for: an integer if it is one, else a decimal
/// if it is one, else the text itself.
pub open spec fn parse_spec(s: Seq<char>) -> ValueView {
    if is_int_literal(s) {
        ValueView::Int(apply_sign(is_neg(s), digits_val(int_body(s))) as i64)
    } else if is_decimal_literal(s) {
        ValueView::Decimal(dec_mantissa(s) as i64, frac_digits(s).len() as u8)
    } else {
        ValueView::Text(s)
    }
}

fn sub_chars(cs: &Vec<char>, lo: usize, hi: usize) -> (r: Vec<char>)
    requires
        lo <= hi <= cs.len(),
    ensures
        r@ == cs@.subrange(lo as int, hi as int),
{
    let mut r: Vec<char> = Vec::new();
    let mut i: usize = lo;
    while i < hi
        invariant
            lo <= i <= hi <= cs.len(),
            r@ == cs@.subrange(lo as int, i as int),
        decreases hi - i,
    {
        r.push(cs[i]);
        i = i + 1;
        assert(r@ =~= cs@.subrange(lo as int, i as int));
    }
    r
}

/// The value of a run of digits, or `None` when it exceeds [`MAGNITUDE_CAP`].
fn digits_value(d: &Vec<char>) -> (r: Option<u64>)
    requires
        all_digits(d@),
    ensures
        match r {
            Some(v) => v as int == digits_val(d@) && v <= MAGNITUDE_CAP,
            None => digits_val(d@) > MAGNITUDE_CAP,
        },
{
    let mut acc: u64 = 0;
    let mut big = false;
    let mut i: usize = 0;
    assert(d@.take(0) =~= Seq::<char>::empty());
    while i < d.len()
        invariant
            i <= d.len(),
            all_digits(d@),
            !big ==> acc as int == digits_val(d@.take(i as int)) && acc <= MAGNITUDE_CAP,
            big ==> digits_val(d@.take(i as int)) > MAGNITUDE_CAP,
        decreases d.len() - i,
    {
        let c = d[i];
        assert(is_digit(d@[i as int]));
        assert(d@.take(i + 1).drop_last() =~= d@.take(i as int));
        assert(d@.take(i + 1).last() == c);
        let dig: u64 = (c as u32 - '0' as u32) as u64;
        assert(dig as int == char_val(c));
        if !big {
            if acc > 922337203685477580 {
                big = true;
            } else {
                let next = acc * 10 + dig;
                if next > MAGNITUDE_CAP {
                    big = true;
                } else {
                    acc = next;
                }
            }
        }
        i = i + 1;
    }
    assert(d@.take(d.len() as int) =~= d@);
    if big {
        None
    } else {
        Some(acc)
    }
}

/// The signed 64-bit value of a magnitude and a sign, if it has one.
fn signed_value(neg: bool, mag: Option<u64>) -> (r: Option<i64>)
    ensures
        match mag {
            Some(v) => match r {
                Some(x) => x as int == apply_sign(neg, v as int),
                None => !fits_i64(apply_sign(neg, v as int)),
            },
            None => r is None,
        },
{
    match mag {
        None => None,
        Some(v) => {
            if neg {
                if v == MAGNITUDE_CAP {
                    Some(i64::MIN)
                } else if v < MAGNITUDE_CAP {
                    Some(-(v as i64))
                } else {
                    None
                }
            } else if v <= i64::MAX as u64 {
                Some(v as i64)
            } else {
                None
            }
        },
    }
}

fn sign_length(cs: &Vec<char>) -> (r: usize)
    ensures
        r as int == sign_len(cs@),
        r <= cs.len(),
{
    if cs.len() > 0 && (cs[0] == '-' || cs[0] == '+') {
        1
    } else {
        0
    }
}

fn all_digit_chars(cs: &Vec<char>) -> (r: bool)
    ensures
        r == all_digits(cs@),
{
    let mut i: usize = 0;
    while i < cs.len()
        invariant
            i <= cs.len(),
            forall|j: int| 0 <= j < i ==> is_digit(#[trigger] cs@[j]),
        decreases cs.len() - i,
    {
        if !(cs[i] >= '0' && cs[i] <= '9') {
            return false;
        }
        i = i + 1;
    }
    true
}

fn parse_int(cs: &Vec<char>) -> (r: Option<i64>)
    ensures
        match r {
            Some(x) => is_int_literal(cs@) && x as int == apply_sign(is_neg(cs@), digits_val(int_body(cs@))),
            None => !is_int_literal(cs@),
        },
{
    let sl = sign_length(cs);
    let body = sub_chars(cs, sl, cs.len());
    assert(body@ =~= int_body(cs@));
    if body.len() == 0 || !all_digit_chars(&body) {
        return None;
    }
    let neg = cs.len() > 0 && cs[0] == '-';
    signed_value(neg, digits_value(&body))
}

fn find_dot(cs: &Vec<char>) -> (r: Option<usize>)
    ensures
        match r {
            Some(k) => k as int == dot_index(cs@) && k < cs.len(),
            None => dot_index(cs@) == -1,
        },
{
    let mut i: usize = 0;
    assert(cs@.skip(0) =~= cs@);
    while i < cs.len()
        invariant
            i <= cs.len(),
            dot_index(cs@) == (if dot_index(cs@.skip(i as int)) < 0 {
                -1
            } else {
                dot_index(cs@.skip(i as int)) + i
            }),
        decreases cs.len() - i,
    {
        assert(cs@.skip(i as int)[0] == cs@[i as int]);
        assert(cs@.skip(i as int).drop_first() =~= cs@.skip(i + 1));
        if cs[i] == '.' {
            return Some(i);
        }
        i = i + 1;
    }
    assert(cs@.skip(i as int).len() == 0);
    None
}

fn parse_decimal(cs: &Vec<char>) -> (r: Option<(i64, u8)>)
    ensures
        match r {
            Some((m, p)) => is_decimal_literal(cs@) && m as int == dec_mantissa(cs@) && p as int
                == frac_digits(cs@).len(),
            None => !is_decimal_literal(cs@),
        },
{
    let sl = sign_length(cs);
    let k = match find_dot(cs) {
        Some(k) => k,
        None => return None,
    };
    if k < sl {
        return None;
    }
    let whole = sub_chars(cs, sl, k);
    let frac = sub_chars(cs, k + 1, cs.len());
    assert(whole@ =~= whole_digits(cs@));
    assert(frac@ =~= frac_digits(cs@));
    if !all_digit_chars(&whole) || !all_digit_chars(&frac) {
        return None;
    }
    if whole.len() + frac.len() == 0 || frac.len() > 255 {
        return None;
    }
    let mut joined = whole;
    let mut j: usize = 0;
    while j < frac.len()
        invariant
            j <= frac.len(),
            joined@ == whole_digits(cs@) + frac@.take(j as int),
        decreases frac.len() - j,
    {
        joined.push(frac[j]);
        j = j + 1;
        assert(joined@ =~= whole_digits(cs@) + frac@.take(j as int));
    }
    assert(frac@.take(frac.len() as int) =~= frac@);
    assert(all_digits(joined@)) by {
        assert forall|i: int| 0 <= i < joined@.len() implies is_digit(#[trigger] joined@[i]) by {
            if i < whole@.len() {
                assert(joined@[i] == whole@[i]);
            } else {
                assert(joined@[i] == frac@[i - whole@.len()]);
            }
        }
    }
    let neg = cs.len() > 0 && cs[0] == '-';
    match signed_value(neg, digits_value(&joined)) {
        Some(m) => Some((m, frac.len() as u8)),
        None => None,
    }
}

impl DataType {
    /// Reads a cell: an integer if the text is one, else a decimal if it is
    /// one, else the text itself. Never fails.
    pub fn from_string(s: &str) -> (r: DataType)
        ensures
            r@ == parse_spec(s@),
    {
        let cs = chars_of(s);
        match parse_int(&cs) {
            Some(i) => {
                return DataType::Int(i);
            },
            None => {},
        }
        match parse_decimal(&cs) {
            Some((m, p)) => {
                return DataType::Decimal(m, p);
            },
            None => {},
        }
        DataType::String(string_of(&cs))
    }
}


// ---------------------------------------------------------------- rendering

pub open spec fn zeros(n: int) -> Seq<char> {
    Seq::new(if n > 0 { n as nat } else { 0 }, |_i: int| '0')
}

/// Digits left-padded with zeros to at least `w` characters.
pub open spec fn pad_digits(d: Seq<char>, w: int) -> Seq<char> {
    zeros(w - d.len()) + d
}

/// `d` with a point inserted `p` characters from its right end.
pub open spec fn with_point(d: Seq<char>, p: int) -> Seq<char> {
    d.take(d.len() - p) + seq!['.'] + d.skip(d.len() - p)
}

pub open spec fn abs(i: int) -> nat {
    if i < 0 {
        (-i) as nat
    } else {
        i as nat
    }
}

pub open spec fn decimal_str(m: int, p: nat) -> Seq<char> {
    if p == 0 {
        int_str(m)
    } else {
        (if m < 0 {
            seq!['-']
        } else {
            Seq::<char>::empty()
        }) + with_point(pad_digits(nat_str(abs(m)), p + 1 as int), p as int)
    }
}

/// The canonical spelling of a value, the key under which tables index it.
pub open spec fn render(v: ValueView) -> Seq<char> {
    match v {
        ValueView::Text(s) => s,
        ValueView::Int(i) => int_str(i as int),
        ValueView::Decimal(m, p) => decimal_str(m as int, p as nat),
    }
}

fn magnitude(i: i64) -> (r: u64)
    ensures
        r as int == abs(i as int),
{
    if i < 0 {
        (-(i as i128)) as u64
    } else {
        i as u64
    }
}

pub(crate) fn int_chars(i: i64) -> (r: Vec<char>)
    ensures
        r@ == int_str(i as int),
{
    let mut out: Vec<char> = Vec::new();
    if i < 0 {
        out.push('-');
    }
    push_nat(&mut out, magnitude(i));
    assert(out@ =~= int_str(i as int));
    out
}

pub(crate) fn decimal_chars(m: i64, p: u8) -> (r: Vec<char>)
    ensures
        r@ == decimal_str(m as int, p as nat),
{
    if p == 0 {
        return int_chars(m);
    }
    let mut digits: Vec<char> = Vec::new();
    push_nat(&mut digits, magnitude(m));
    assert(digits@ =~= nat_str(abs(m as int)));
    proof {
        crate::text::lemma_nat_str_digits(abs(m as int));
    }
    let width: usize = p as usize + 1;
    let mut padded: Vec<char> = Vec::new();
    let mut z: usize = digits.len();
    while z < width
        invariant
            digits.len() <= z <= width || (z == digits.len() && z >= width),
            padded@ == zeros(z - digits@.len()),
        decreases width - z,
    {
        padded.push('0');
        z = z + 1;
        assert(padded@ =~= zeros(z - digits@.len()));
    }
    let mut j: usize = 0;
    let base = padded.len();
    while j < digits.len()
        invariant
            j <= digits.len(),
            base == padded@.len() - j,
            padded@ == zeros(width - digits@.len()) + digits@.take(j as int),
        decreases digits.len() - j,
    {
        padded.push(digits[j]);
        j = j + 1;
        assert(padded@ =~= zeros(width - digits@.len()) + digits@.take(j as int));
    }
    assert(digits@.take(digits.len() as int) =~= digits@);
    assert(padded@ == pad_digits(digits@, width as int));
    let mut out: Vec<char> = Vec::new();
    if m < 0 {
        out.push('-');
    }
    let ghost sign = out@;
    let cut: usize = padded.len() - p as usize;
    let mut k: usize = 0;
    while k < padded.len()
        invariant
            cut <= padded.len(),
            k <= padded.len(),
            k <= cut ==> out@ == sign + padded@.take(k as int),
            k > cut ==> out@ == sign + padded@.take(cut as int) + seq!['.'] + padded@.subrange(
                cut as int,
                k as int,
            ),
        decreases padded.len() - k,
    {
        if k == cut {
            out.push('.');
            assert(out@ =~= sign + padded@.take(cut as int) + seq!['.'] + padded@.subrange(
                cut as int,
                k as int,
            ));
        }
        out.push(padded[k]);
        k = k + 1;
        if k <= cut {
            assert(out@ =~= sign + padded@.take(k as int));
        } else {
            assert(out@ =~= sign + padded@.take(cut as int) + seq!['.'] + padded@.subrange(
                cut as int,
                k as int,
            ));
        }
    }
    assert(padded@.subrange(cut as int, padded.len() as int) =~= padded@.skip(cut as int));
    assert(out@ =~= decimal_str(m as int, p as nat));
    out
}

impl DataType {
    /// The canonical spelling of the value: text as it is, integers in
    /// decimal, decimals with their point `scale` digits from the right.
    pub fn to_string(&self) -> (r: String)
        ensures
            r@ == render(self@),
    {
        match self {
            DataType::String(s) => s.clone(),
            DataType::Int(i) => string_of(&int_chars(*i)),
            DataType::Decimal(m, p) => string_of(&decimal_chars(*m, *p)),
        }
    }

    /// A copy of the value.
    pub fn duplicate(&self) -> (r: DataType)
        ensures
            r@ == self@,
    {
        match self {
            DataType::String(s) => DataType::String(s.clone()),
            DataType::Int(i) => DataType::Int(*i),
            DataType::Decimal(m, p) => DataType::Decimal(*m, *p),
        }
    }

    /// Whether two values are the same value of the same kind.
    pub fn same(&self, other: &DataType) -> (r: bool)
        ensures
            r == (self@ == other@),
    {
        match self {
            DataType::String(a) => match other {
                DataType::String(b) => *a == *b,
                _ => false,
            },
            DataType::Int(a) => match other {
                DataType::Int(b) => *a == *b,
                _ => false,
            },
            DataType::Decimal(a, p) => match other {
                DataType::Decimal(b, q) => *a == *b && *p == *q,
                _ => false,
            },
        }
    }
}


// ---------------------------------------------------------------- arithmetic

pub open spec fn is_numeric(v: ValueView) -> bool {
    !(v is Text)
}

/// The mantissa of a number; text counts as zero.
pub open spec fn mantissa(v: ValueView) -> int {
    match v {
        ValueView::Text(_) => 0,
        ValueView::Decimal(m, _) => m as int,
        ValueView::Int(i) => i as int,
    }
}

/// The scale of a number; integers and text have scale zero.
pub open spec fn scale(v: ValueView) -> nat {
    match v {
        ValueView::Decimal(_, p) => p as nat,
        _ => 0,
    }
}

/// The exact sum of `m1 / 10^p1` and `m2 / 10^p2`: an integer when both
/// scales are zero, else a decimal at the larger scale; `None` when a
/// rescaled operand or the sum leaves the range of `i64`.
pub open spec fn add_parts(m1: int, p1: nat, m2: int, p2: nat) -> Option<ValueView> {
    if p1 == 0 && p2 == 0 {
        if fits_i64(m1 + m2) {
            Some(ValueView::Int((m1 + m2) as i64))
        } else {
            None
        }
    } else {
        let p = if p1 >= p2 {
            p1
        } else {
            p2
        };
        let t1 = m1 * pow10((p - p1) as nat);
        let t2 = m2 * pow10((p - p2) as nat);
        if fits_i64(t1) && fits_i64(t2) && fits_i64(t1 + t2) {
            Some(ValueView::Decimal((t1 + t2) as i64, p as u8))
        } else {
            None
        }
    }
}

/// The sum of two values, text counting as zero.
pub open spec fn add_spec(a: ValueView, b: ValueView) -> Option<ValueView> {
    add_parts(mantissa(a), scale(a), mantissa(b), scale(b))
}

proof fn lemma_out_of_range_grows(y: int, c: int)
    requires
        c >= 1,
        !fits_i64(y),
    ensures
        !fits_i64(y * c),
{
    assert(y > i64::MAX ==> y * c >= y) by (nonlinear_arith)
        requires
            c >= 1,
    ;
    assert(y < i64::MIN ==> y * c <= y) by (nonlinear_arith)
        requires
            c >= 1,
    ;
}

impl DataType {
    /// `num * 10^prec`, or `None` when it leaves the range of `i64`.
    fn precision_mul(num: i64, prec: u8) -> (r: Option<i64>)
        ensures
            match r {
                Some(x) => x as int == num * pow10(prec as nat),
                None => !fits_i64(num * pow10(prec as nat)),
            },
    {
        let mut res: i64 = num;
        let mut i: u8 = 0;
        while i < prec
            invariant
                i <= prec,
                res as int == num * pow10(i as nat),
            decreases prec - i,
        {
            proof {
                lemma_pow10_add(i as nat, 1);
                lemma_pow10_add(i as nat + 1, (prec - i - 1) as nat);
                assert(pow10(1) == 10) by {
                    assert(pow10(0) == 1);
                }
            }
            if res > 922337203685477580 || res < -922337203685477580 {
                proof {
                    lemma_pow10_positive((prec - i - 1) as nat);
                    assert(!fits_i64(res * 10));
                    lemma_out_of_range_grows(res * 10, pow10((prec - i - 1) as nat));
                    assert(num * pow10(prec as nat) == (res * 10) * pow10((prec - i - 1) as nat))
                        by (nonlinear_arith)
                        requires
                            res as int == num * pow10(i as nat),
                            pow10(prec as nat) == pow10(i as nat + 1) * pow10(
                                (prec - i - 1) as nat,
                            ),
                            pow10(i as nat + 1) == pow10(i as nat) * 10,
                    ;
                }
                return None;
            }
            assert(res * 10 == num * pow10(i as nat + 1)) by (nonlinear_arith)
                requires
                    res as int == num * pow10(i as nat),
                    pow10(i as nat + 1) == pow10(i as nat) * 10,
            ;
            res = res * 10;
            i = i + 1;
        }
        Some(res)
    }

    /// The exact sum of `d1 / 10^p1` and `d2 / 10^p2`, if it can be held.
    fn add(d1: i64, d2: i64, p1: u8, p2: u8) -> (r: Option<DataType>)
        ensures
            opt_view(r) == add_parts(d1 as int, p1 as nat, d2 as int, p2 as nat),
    {
        if p1 == 0 && p2 == 0 {
            return match d1.checked_add(d2) {
                Some(s) => Some(DataType::Int(s)),
                None => None,
            };
        }
        let p = if p1 >= p2 {
            p1
        } else {
            p2
        };
        let t1 = match Self::precision_mul(d1, p - p1) {
            Some(t) => t,
            None => return None,
        };
        let t2 = match Self::precision_mul(d2, p - p2) {
            Some(t) => t,
            None => return None,
        };
        match t1.checked_add(t2) {
            Some(s) => Some(DataType::Decimal(s, p)),
            None => None,
        }
    }

    /// The sum of two values, text counting as zero; `None` when the exact
    /// result cannot be held.
    pub fn sum(acc: &DataType, next: &DataType) -> (r: Option<DataType>)
        ensures
            opt_view(r) == add_spec(acc@, next@),
    {
        let (num1, p1) = match acc {
            DataType::Int(n) => (*n, 0u8),
            DataType::Decimal(n, p) => (*n, *p),
            DataType::String(_) => (0i64, 0u8),
        };
        let (num2, p2) = match next {
            DataType::Int(n) => (*n, 0u8),
            DataType::Decimal(n, p) => (*n, *p),
            DataType::String(_) => (0i64, 0u8),
        };
        Self::add(num1, num2, p1, p2)
    }
}

// ---------------------------------------------------------------- ordering

pub open spec fn ord_of(x: int, y: int) -> std::cmp::Ordering {
    if x < y {
        std::cmp::Ordering::Less
    } else if x == y {
        std::cmp::Ordering::Equal
    } else {
        std::cmp::Ordering::Greater
    }
}

pub open spec fn reverse(o: std::cmp::Ordering) -> std::cmp::Ordering {
    match o {
        std::cmp::Ordering::Less => std::cmp::Ordering::Greater,
        std::cmp::Ordering::Equal => std::cmp::Ordering::Equal,
        std::cmp::Ordering::Greater => std::cmp::Ordering::Less,
    }
}

/// A number scaled to the largest scale a decimal can have, so that numbers
/// compare as their keys do.
pub open spec fn num_key(v: ValueView) -> int {
    mantissa(v) * pow10((255 - scale(v)) as nat)
}

/// The total order on values: all text below all numbers, text
/// lexicographically, numbers by their exact value.
pub open spec fn compare_spec(a: ValueView, b: ValueView) -> std::cmp::Ordering {
    match (a, b) {
        (ValueView::Text(x), ValueView::Text(y)) => if seq_lt(x, y) {
            std::cmp::Ordering::Less
        } else if x == y {
            std::cmp::Ordering::Equal
        } else {
            std::cmp::Ordering::Greater
        },
        (ValueView::Text(_), _) => std::cmp::Ordering::Less,
        (_, ValueView::Text(_)) => std::cmp::Ordering::Greater,
        _ => ord_of(num_key(a), num_key(b)),
    }
}

/// Among numbers of equal value: integers first, then decimals by scale.
pub open spec fn tie_rank(v: ValueView) -> int {
    match v {
        ValueView::Decimal(_, p) => p as int + 1,
        _ => 0,
    }
}

/// The strict total order in which value sets are listed: [`compare_spec`],
/// with equal numbers of different spelling ordered by [`tie_rank`].
pub open spec fn value_lt(a: ValueView, b: ValueView) -> bool {
    match (a, b) {
        (ValueView::Text(x), ValueView::Text(y)) => seq_lt(x, y),
        (ValueView::Text(_), _) => true,
        (_, ValueView::Text(_)) => false,
        _ => num_key(a) < num_key(b) || (num_key(a) == num_key(b) && tie_rank(a) < tie_rank(b)),
    }
}

proof fn lemma_ord_scale(x: int, y: int, c: int)
    requires
        c >= 1,
    ensures
        ord_of(x * c, y * c) == ord_of(x, y),
{
    assert(x < y ==> x * c < y * c) by (nonlinear_arith)
        requires
            c >= 1,
    ;
    assert(x > y ==> x * c > y * c) by (nonlinear_arith)
        requires
            c >= 1,
    ;
}

pub proof fn lemma_value_lt_total(a: ValueView, b: ValueView)
    requires
        a != b,
    ensures
        value_lt(a, b) || value_lt(b, a),
{
    match (a, b) {
        (ValueView::Text(x), ValueView::Text(y)) => {
            crate::text::lemma_seq_lt_total(x, y);
        },
        (ValueView::Text(_), _) => {},
        (_, ValueView::Text(_)) => {},
        _ => {
            if num_key(a) == num_key(b) && tie_rank(a) == tie_rank(b) {
                let c = pow10((255 - scale(a)) as nat);
                lemma_pow10_positive((255 - scale(a)) as nat);
                assert(scale(a) == scale(b));
                lemma_ord_scale(mantissa(a), mantissa(b), c);
                assert(mantissa(a) == mantissa(b));
            }
        },
    }
}

pub proof fn lemma_value_lt_transitive(a: ValueView, b: ValueView, c: ValueView)
    requires
        value_lt(a, b),
        value_lt(b, c),
    ensures
        value_lt(a, c),
{
    if let (ValueView::Text(x), ValueView::Text(y), ValueView::Text(z)) = (a, b, c) {
        crate::text::lemma_seq_lt_transitive(x, y, z);
    }
}

/// Whether a list of values is strictly ascending in the listing order.
pub open spec fn sorted_values(s: Seq<ValueView>) -> bool {
    forall|i: int, j: int| 0 <= i < j < s.len() ==> value_lt(#[trigger] s[i], #[trigger] s[j])
}

/// The order of `a * 10^k` and `b`.
fn cmp_scaled(a: i64, k: u8, b: i64) -> (r: std::cmp::Ordering)
    ensures
        r == ord_of(a * pow10(k as nat), b as int),
{
    match DataType::precision_mul(a, k) {
        Some(x) => {
            if x < b {
                std::cmp::Ordering::Less
            } else if x == b {
                std::cmp::Ordering::Equal
            } else {
                std::cmp::Ordering::Greater
            }
        },
        None => {
            proof {
                lemma_pow10_positive(k as nat);
                let c = pow10(k as nat);
                assert(a > 0 ==> a * c > 0) by (nonlinear_arith)
                    requires
                        c >= 1,
                ;
                assert(a < 0 ==> a * c < 0) by (nonlinear_arith)
                    requires
                        c >= 1,
                ;
            }
            if a > 0 {
                std::cmp::Ordering::Greater
            } else {
                std::cmp::Ordering::Less
            }
        },
    }
}

fn numeric_parts(v: &DataType) -> (r: (i64, u8))
    ensures
        r.0 as int == mantissa(v@),
        r.1 as nat == scale(v@),
{
    match v {
        DataType::Int(n) => (*n, 0u8),
        DataType::Decimal(n, p) => (*n, *p),
        DataType::String(_) => (0i64, 0u8),
    }
}

/// The order of two numbers by exact value.
fn cmp_numbers(x: &DataType, y: &DataType) -> (r: std::cmp::Ordering)
    requires
        is_numeric(x@),
        is_numeric(y@),
    ensures
        r == ord_of(num_key(x@), num_key(y@)),
{
    let (m1, p1) = numeric_parts(x);
    let (m2, p2) = numeric_parts(y);
    if p1 >= p2 {
        let d = p1 - p2;
        let o = cmp_scaled(m2, d, m1);
        proof {
            let c = pow10((255 - p1) as nat);
            lemma_pow10_positive((255 - p1) as nat);
            lemma_pow10_add(d as nat, (255 - p1) as nat);
            assert(num_key(y@) == (m2 * pow10(d as nat)) * c) by (nonlinear_arith)
                requires
                    num_key(y@) == m2 * pow10((255 - p2) as nat),
                    pow10((255 - p2) as nat) == pow10(d as nat) * c,
            ;
            lemma_ord_scale(m1 as int, m2 * pow10(d as nat), c);
        }
        reverse_ordering(o)
    } else {
        let d = p2 - p1;
        let o = cmp_scaled(m1, d, m2);
        proof {
            let c = pow10((255 - p2) as nat);
            lemma_pow10_positive((255 - p2) as nat);
            lemma_pow10_add(d as nat, (255 - p2) as nat);
            assert(num_key(x@) == (m1 * pow10(d as nat)) * c) by (nonlinear_arith)
                requires
                    num_key(x@) == m1 * pow10((255 - p1) as nat),
                    pow10((255 - p1) as nat) == pow10(d as nat) * c,
            ;
            lemma_ord_scale(m1 * pow10(d as nat), m2 as int, c);
        }
        o
    }
}

fn reverse_ordering(o: std::cmp::Ordering) -> (r: std::cmp::Ordering)
    ensures
        r == reverse(o),
{
    match o {
        std::cmp::Ordering::Less => std::cmp::Ordering::Greater,
        std::cmp::Ordering::Equal => std::cmp::Ordering::Equal,
        std::cmp::Ordering::Greater => std::cmp::Ordering::Less,
    }
}

impl DataType {
    /// Compares two values: all text below all numbers, text
    /// lexicographically, numbers by exact value after rescaling.
    pub fn cmp(x: &DataType, y: &DataType) -> (r: std::cmp::Ordering)
        ensures
            r == compare_spec(x@, y@),
    {
        match x {
            DataType::String(s1) => match y {
                DataType::String(s2) => {
                    let a = chars_of(s1.as_str());
                    let b = chars_of(s2.as_str());
                    if crate::text::chars_lt(&a, &b) {
                        std::cmp::Ordering::Less
                    } else if *s1 == *s2 {
                        std::cmp::Ordering::Equal
                    } else {
                        std::cmp::Ordering::Greater
                    }
                },
                _ => std::cmp::Ordering::Less,
            },
            _ => match y {
                DataType::String(_) => std::cmp::Ordering::Greater,
                _ => cmp_numbers(x, y),
            },
        }
    }

    /// Whether `self` comes strictly before `other` in the listing order of
    /// value sets.
    pub fn less(&self, other: &DataType) -> (r: bool)
        ensures
            r == value_lt(self@, other@),
    {
        match self {
            DataType::String(s1) => match other {
                DataType::String(s2) => {
                    let a = chars_of(s1.as_str());
                    let b = chars_of(s2.as_str());
                    crate::text::chars_lt(&a, &b)
                },
                _ => true,
            },
            _ => match other {
                DataType::String(_) => false,
                _ => {
                    let o = cmp_numbers(self, other);
                    match o {
                        std::cmp::Ordering::Less => true,
                        std::cmp::Ordering::Greater => false,
                        std::cmp::Ordering::Equal => rank(self) < rank(other),
                    }
                },
            },
        }
    }
}

fn rank(v: &DataType) -> (r: u16)
    ensures
        r as int == tie_rank(v@),
{
    match v {
        DataType::Decimal(_, p) => *p as u16 + 1,
        _ => 0,
    }
}

} // verus!
