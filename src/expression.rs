//! A small aggregate-expression language: a tokenizer, a recursive-descent
//! parser and a printer.
use vstd::prelude::*;
use crate::text::{chars_of, int_str, string_of, strings_view};
use crate::value::{decimal_str, parse_spec, DataType, ValueView};

verus! {

pub open spec fn is_separator(c: char) -> bool {
    c == '(' || c == ')' || c == '+' || c == ','
}

pub open spec fn is_space(c: char) -> bool {
    c == ' ' || c == '\t' || c == '\n' || c == '\r'
}

/// The first position at or after `i` that does not hold white space.
pub open spec fn skip_space(cs: Seq<char>, i: int) -> int
    decreases cs.len() - i,
{
    if 0 <= i < cs.len() && is_space(cs[i]) {
        skip_space(cs, i + 1)
    } else {
        i
    }
}

/// The end of the run of ordinary characters that starts at `i`.
pub open spec fn run_end(cs: Seq<char>, i: int) -> int
    decreases cs.len() - i,
{
    if 0 <= i < cs.len() && !is_separator(cs[i]) && !is_space(cs[i]) {
        run_end(cs, i + 1)
    } else {
        i
    }
}

/// The token that starts at or after position `i`, with the position after
/// it: a single separator, or a maximal run of characters that are neither
/// separators nor white space.
pub open spec fn next_token(cs: Seq<char>, i: int) -> Option<(Seq<char>, int)> {
    let j = skip_space(cs, i);
    if j >= cs.len() {
        None
    } else if is_separator(cs[j]) {
        Some((seq![cs[j]], j + 1))
    } else {
        Some((cs.subrange(j, run_end(cs, j)), run_end(cs, j)))
    }
}

/// The tokens from position `i` on.
pub open spec fn tokens_from(cs: Seq<char>, i: int) -> Seq<Seq<char>>
    decreases cs.len() - i,
{
    match next_token(cs, i) {
        None => Seq::empty(),
        Some((t, j)) => if i < j <= cs.len() {
            seq![t] + tokens_from(cs, j)
        } else {
            Seq::empty()
        },
    }
}

pub proof fn lemma_skip_space(cs: Seq<char>, i: int)
    requires
        0 <= i <= cs.len(),
    ensures
        i <= skip_space(cs, i) <= cs.len(),
        skip_space(cs, i) < cs.len() ==> !is_space(cs[skip_space(cs, i)]),
    decreases cs.len() - i,
{
    if i < cs.len() && is_space(cs[i]) {
        lemma_skip_space(cs, i + 1);
    }
}

pub proof fn lemma_run_end(cs: Seq<char>, i: int)
    requires
        0 <= i <= cs.len(),
    ensures
        i <= run_end(cs, i) <= cs.len(),
        i < cs.len() && !is_separator(cs[i]) && !is_space(cs[i]) ==> i < run_end(cs, i),
    decreases cs.len() - i,
{
    if i < cs.len() && !is_separator(cs[i]) && !is_space(cs[i]) {
        lemma_run_end(cs, i + 1);
    }
}

pub proof fn lemma_next_token(cs: Seq<char>, i: int)
    requires
        0 <= i <= cs.len(),
    ensures
        match next_token(cs, i) {
            Some((t, j)) => i < j <= cs.len() && t.len() > 0,
            None => true,
        },
{
    lemma_skip_space(cs, i);
    let j = skip_space(cs, i);
    if j < cs.len() && !is_separator(cs[j]) {
        lemma_run_end(cs, j);
    }
}

/// Splits an expression into tokens, one at a time.
pub struct ExpressionTokenizer {
    pub(crate) chars: Vec<char>,
    pub(crate) index: usize,
}

impl ExpressionTokenizer {
    pub open(crate) spec fn chars_spec(&self) -> Seq<char> {
        self.chars@
    }

    pub open(crate) spec fn index_spec(&self) -> int {
        self.index as int
    }

    /// The position is within the text.
    pub open(crate) spec fn wf(&self) -> bool {
        self.index <= self.chars@.len()
    }

    /// A tokenizer positioned at the start of `s`.
    pub fn new(s: String) -> (r: ExpressionTokenizer)
        ensures
            r.wf(),
            r.chars_spec() == s@,
            r.index_spec() == 0,
    {
        ExpressionTokenizer { chars: chars_of(s.as_str()), index: 0 }
    }

    pub fn is_token_separator(c: char) -> (r: bool)
        ensures
            r == is_separator(c),
    {
        c == '(' || c == ')' || c == '+' || c == ','
    }

    fn is_white_space(c: char) -> (r: bool)
        ensures
            r == is_space(c),
    {
        c == ' ' || c == '\t' || c == '\n' || c == '\r'
    }

    /// The next token, if any is left.
    pub fn next(&mut self) -> (r: Option<String>)
        requires
            old(self).wf(),
        ensures
            final(self).wf(),
            final(self).chars_spec() == old(self).chars_spec(),
            match next_token(old(self).chars_spec(), old(self).index_spec()) {
                None => r is None,
                Some((t, j)) => r is Some && r->0@ == t && final(self).index_spec() == j,
            },
    {
        let ghost cs = self.chars@;
        let ghost i0 = self.index as int;
        let mut j = self.index;
        while j < self.chars.len() && Self::is_white_space(self.chars[j])
            invariant
                cs == self.chars@,
                i0 <= j <= cs.len(),
                skip_space(cs, i0) == skip_space(cs, j as int),
            decreases self.chars.len() - j,
        {
            j = j + 1;
        }
        if j >= self.chars.len() {
            self.index = j;
            return None;
        }
        let c = self.chars[j];
        if Self::is_token_separator(c) {
            self.index = j + 1;
            let mut t = String::new();
            crate::text::push_char(&mut t, c);
            assert(t@ =~= seq![c]);
            return Some(t);
        }
        let mut e = j;
        let mut run: Vec<char> = Vec::new();
        while e < self.chars.len() && !Self::is_token_separator(self.chars[e]) && !Self::is_white_space(self.chars[e])
            invariant
                cs == self.chars@,
                j <= e <= cs.len(),
                run_end(cs, j as int) == run_end(cs, e as int),
                run@ == cs.subrange(j as int, e as int),
            decreases self.chars.len() - e,
        {
            run.push(self.chars[e]);
            e = e + 1;
            assert(run@ =~= cs.subrange(j as int, e as int));
        }
        self.index = e;
        Some(string_of(&run))
    }
}

/// The tokens of `s`, in order.
pub fn tokenize(s: &str) -> (r: Vec<String>)
    ensures
        strings_view(r@) == tokens_from(s@, 0),
{
    let mut tk = ExpressionTokenizer { chars: chars_of(s), index: 0 };
    let ghost cs = s@;
    let mut out: Vec<String> = Vec::new();
    loop
        invariant
            cs == s@,
            tk.chars@ == cs,
            tk.index <= cs.len(),
            strings_view(out@) + tokens_from(cs, tk.index as int) == tokens_from(cs, 0),
        decreases cs.len() - tk.index,
    {
        let ghost i = tk.index as int;
        proof {
            lemma_next_token(cs, i);
        }
        match tk.next() {
            None => {
                assert(tokens_from(cs, i) == Seq::<Seq<char>>::empty());
                assert(strings_view(out@) =~= tokens_from(cs, 0));
                assert(cs == s@);
                assert(strings_view(out@) == tokens_from(s@, 0));
                return out;
            },
            Some(t) => {
                let ghost before = strings_view(out@);
                let ghost tv = t@;
                out.push(t);
                assert(strings_view(out@) =~= before.push(tv));
                assert(before.push(tv) + tokens_from(cs, tk.index as int) =~= before + (seq![tv] + tokens_from(cs, tk.index as int)));
            },
        }
    }
}


/// An aggregate expression.
#[derive(Debug, PartialEq, Eq)]
pub enum Expression {
    IntConst(i64),
    /// `DecConst(mantissa, scale)` stands for `mantissa / 10^scale`.
    DecConst(i64, u8),
    Variable(String),
    Add(Box<Expression>, Box<Expression>),
    Sum(Box<Expression>),
    Count,
    Values(String),
}

/// What an [`Expression`] holds, with names as character sequences.
pub enum ExprView {
    IntConst(i64),
    DecConst(i64, u8),
    Variable(Seq<char>),
    Add(Box<ExprView>, Box<ExprView>),
    Sum(Box<ExprView>),
    Count,
    Values(Seq<char>),
}

pub open spec fn expr_view(e: Expression) -> ExprView
    decreases e,
{
    match e {
        Expression::IntConst(i) => ExprView::IntConst(i),
        Expression::DecConst(m, p) => ExprView::DecConst(m, p),
        Expression::Variable(s) => ExprView::Variable(s@),
        Expression::Add(a, b) => ExprView::Add(Box::new(expr_view(*a)), Box::new(expr_view(*b))),
        Expression::Sum(a) => ExprView::Sum(Box::new(expr_view(*a))),
        Expression::Count => ExprView::Count,
        Expression::Values(s) => ExprView::Values(s@),
    }
}

impl View for Expression {
    type V = ExprView;

    open spec fn view(&self) -> ExprView {
        expr_view(*self)
    }
}

/// What went wrong in parsing an expression.
#[derive(Debug, Clone, Copy, PartialEq, Eq, Structural)]
pub enum ParseErrorKind {
    ExpectedOpen,
    ExpectedClose,
    ExpectedComma,
    ExpectedVariable,
    ExpectedAlphanumeric,
    UnexpectedEnd,
    ExpectedEnd,
}

/// A parse failure.
#[derive(Debug, Clone, Copy, PartialEq, Eq)]
pub struct ParseExpressionError {
    pub kind: ParseErrorKind,
}

/// The description of each kind of failure.
pub open spec fn error_message(kind: ParseErrorKind) -> Seq<char> {
    match kind {
        ParseErrorKind::ExpectedOpen => "Expected '('"@,
        ParseErrorKind::ExpectedClose => "Expected ')'"@,
        ParseErrorKind::ExpectedComma => "Expected ','"@,
        ParseErrorKind::ExpectedVariable => "Expected variable expression"@,
        ParseErrorKind::ExpectedAlphanumeric => "Expected alphanumeric char"@,
        ParseErrorKind::UnexpectedEnd => "Unexpected end of input"@,
        ParseErrorKind::ExpectedEnd => "Expected end of input"@,
    }
}

impl ParseExpressionError {
    /// A description of the failure.
    pub fn message(&self) -> (r: &'static str)
        ensures
            r@ == error_message(self.kind),
    {
        match self.kind {
            ParseErrorKind::ExpectedOpen => "Expected '('",
            ParseErrorKind::ExpectedClose => "Expected ')'",
            ParseErrorKind::ExpectedComma => "Expected ','",
            ParseErrorKind::ExpectedVariable => "Expected variable expression",
            ParseErrorKind::ExpectedAlphanumeric => "Expected alphanumeric char",
            ParseErrorKind::UnexpectedEnd => "Unexpected end of input",
            ParseErrorKind::ExpectedEnd => "Expected end of input",
        }
    }
}

pub uninterp spec fn alphanumeric(c: char) -> bool;

/// Relies on std's `char::is_alphanumeric`: whether the character is
/// alphabetic or numeric, which depends on the character alone.
#[verifier::external_body]
fn is_alphanumeric(c: char) -> (r: bool)
    ensures
        r == alphanumeric(c),
{
    c.is_alphanumeric()
}

pub open spec fn word_sum() -> Seq<char> {
    seq!['s', 'u', 'm']
}

pub open spec fn word_add() -> Seq<char> {
    seq!['a', 'd', 'd']
}

pub open spec fn word_count() -> Seq<char> {
    seq!['c', 'o', 'u', 'n', 't']
}

pub open spec fn word_values() -> Seq<char> {
    seq!['v', 'a', 'l', 'u', 'e', 's']
}

/// Whether token `k` exists and is the single character `c`.
pub open spec fn tok_is(toks: Seq<Seq<char>>, k: int, c: char) -> bool {
    0 <= k < toks.len() && toks[k] == seq![c]
}

/// A literal or a variable: an integer if the token is one, else a decimal
/// if it is one, else a variable, which when one character long must be
/// alphanumeric. Tokens are never empty.
pub open spec fn atom(t: Seq<char>) -> Result<ExprView, ParseErrorKind> {
    match parse_spec(t) {
        ValueView::Int(i) => Ok(ExprView::IntConst(i)),
        ValueView::Decimal(m, p) => Ok(ExprView::DecConst(m, p)),
        ValueView::Text(_) => if t.len() == 1 && !alphanumeric(t[0]) {
            Err(ParseErrorKind::ExpectedAlphanumeric)
        } else {
            Ok(ExprView::Variable(t))
        },
    }
}

/// The expression that starts at token `k`, with the position after it.
pub open spec fn parse_at(toks: Seq<Seq<char>>, k: int) -> Result<(ExprView, int), ParseErrorKind>
    decreases toks.len() - k,
{
    if k < 0 || k >= toks.len() {
        Err(ParseErrorKind::UnexpectedEnd)
    } else if toks[k] == word_sum() {
        if !tok_is(toks, k + 1, '(') {
            Err(ParseErrorKind::ExpectedOpen)
        } else {
            match parse_at(toks, k + 2) {
                Err(x) => Err(x),
                Ok((e, k2)) => if !tok_is(toks, k2, ')') {
                    Err(ParseErrorKind::ExpectedClose)
                } else {
                    Ok((ExprView::Sum(Box::new(e)), k2 + 1))
                },
            }
        }
    } else if toks[k] == word_add() {
        if !tok_is(toks, k + 1, '(') {
            Err(ParseErrorKind::ExpectedOpen)
        } else {
            match parse_at(toks, k + 2) {
                Err(x) => Err(x),
                Ok((e1, k2)) => if !tok_is(toks, k2, ',') {
                    Err(ParseErrorKind::ExpectedComma)
                } else if k2 <= k {
                    Err(ParseErrorKind::UnexpectedEnd)
                } else {
                    match parse_at(toks, k2 + 1) {
                        Err(x) => Err(x),
                        Ok((e2, k3)) => if !tok_is(toks, k3, ')') {
                            Err(ParseErrorKind::ExpectedClose)
                        } else {
                            Ok((ExprView::Add(Box::new(e1), Box::new(e2)), k3 + 1))
                        },
                    }
                },
            }
        }
    } else if toks[k] == word_count() {
        if !tok_is(toks, k + 1, '(') {
            Err(ParseErrorKind::ExpectedOpen)
        } else if !tok_is(toks, k + 2, ')') {
            Err(ParseErrorKind::ExpectedClose)
        } else {
            Ok((ExprView::Count, k + 3))
        }
    } else if toks[k] == word_values() {
        if !tok_is(toks, k + 1, '(') {
            Err(ParseErrorKind::ExpectedOpen)
        } else {
            match parse_at(toks, k + 2) {
                Err(x) => Err(x),
                Ok((e, k2)) => if !tok_is(toks, k2, ')') {
                    Err(ParseErrorKind::ExpectedClose)
                } else {
                    match e {
                        ExprView::Variable(v) => Ok((ExprView::Values(v), k2 + 1)),
                        _ => Err(ParseErrorKind::ExpectedVariable),
                    }
                },
            }
        }
    } else {
        match atom(toks[k]) {
            Err(x) => Err(x),
            Ok(a) => Ok((a, k + 1)),
        }
    }
}

/// The expression that the whole token list spells.
pub open spec fn parse_all(toks: Seq<Seq<char>>) -> Result<ExprView, ParseErrorKind> {
    match parse_at(toks, 0) {
        Err(x) => Err(x),
        Ok((e, k)) => if k < toks.len() {
            Err(ParseErrorKind::ExpectedEnd)
        } else {
            Ok(e)
        },
    }
}

fn same_chars(a: &Vec<char>, b: &Vec<char>) -> (r: bool)
    ensures
        r == (a@ == b@),
{
    if a.len() != b.len() {
        return false;
    }
    let mut i: usize = 0;
    while i < a.len()
        invariant
            a@.len() == b@.len(),
            i <= a@.len(),
            forall|j: int| 0 <= j < i ==> a@[j] == b@[j],
        decreases a.len() - i,
    {
        if a[i] != b[i] {
            return false;
        }
        i = i + 1;
    }
    assert(a@ =~= b@);
    true
}

/// Whether token `k` exists and is the single character `c`.
fn token_is(toks: &Vec<String>, k: usize, c: char) -> (r: bool)
    ensures
        r == tok_is(strings_view(toks@), k as int, c),
{
    if k >= toks.len() {
        return false;
    }
    let cs = chars_of(toks[k].as_str());
    assert(strings_view(toks@)[k as int] == cs@);
    if cs.len() == 1 && cs[0] == c {
        assert(cs@ =~= seq![c]);
        true
    } else {
        false
    }
}

fn err<T>(kind: ParseErrorKind) -> (r: Result<T, ParseExpressionError>)
    ensures
        r == Err::<T, ParseExpressionError>(ParseExpressionError { kind }),
{
    Err(ParseExpressionError { kind })
}

fn parse_atom(t: &String) -> (r: Result<Expression, ParseExpressionError>)
    ensures
        match r {
            Ok(e) => atom(t@) == Ok::<ExprView, ParseErrorKind>(e@),
            Err(x) => atom(t@) == Err::<ExprView, ParseErrorKind>(x.kind),
        },
{
    let cs = chars_of(t.as_str());
    match DataType::from_string(t.as_str()) {
        DataType::Int(i) => Ok(Expression::IntConst(i)),
        DataType::Decimal(m, p) => Ok(Expression::DecConst(m, p)),
        DataType::String(_) => {
            if cs.len() == 1 && !is_alphanumeric(cs[0]) {
                err(ParseErrorKind::ExpectedAlphanumeric)
            } else {
                Ok(Expression::Variable(t.clone()))
            }
        },
    }
}


/// Which keyword a token is: 1 for `sum`, 2 for `add`, 3 for `count`, 4 for
/// `values`, 0 for none.
fn keyword(t: &String) -> (r: u8)
    ensures
        r == 1 <==> t@ == word_sum(),
        r == 2 <==> t@ == word_add(),
        r == 3 <==> t@ == word_count(),
        r == 4 <==> t@ == word_values(),
        r <= 4,
{
    let cs = chars_of(t.as_str());
    let sum = chars_of("sum");
    let add = chars_of("add");
    let count = chars_of("count");
    let values = chars_of("values");
    proof {
        reveal_strlit("sum");
        reveal_strlit("add");
        reveal_strlit("count");
        reveal_strlit("values");
        assert(sum@ =~= word_sum());
        assert(add@ =~= word_add());
        assert(count@ =~= word_count());
        assert(values@ =~= word_values());
        assert(word_sum() != word_add() && word_sum() != word_count() && word_sum() != word_values());
        assert(word_add()[0] != word_count()[0] && word_add()[0] != word_values()[0] && word_count()[0] != word_values()[0]);
    }
    if same_chars(&cs, &sum) {
        1
    } else if same_chars(&cs, &add) {
        2
    } else if same_chars(&cs, &count) {
        3
    } else if same_chars(&cs, &values) {
        4
    } else {
        0
    }
}

impl Expression {
    /// Parses the expression that starts at token `k`; returns it with the
    /// position after it.
    fn from_iter(toks: &Vec<String>, k: usize) -> (r: Result<(Expression, usize), ParseExpressionError>)
        ensures
            match r {
                Ok((e, k2)) => parse_at(strings_view(toks@), k as int) == Ok::<(ExprView, int), ParseErrorKind>((e@, k2 as int))
                    && k < k2 <= toks@.len(),
                Err(x) => parse_at(strings_view(toks@), k as int) == Err::<(ExprView, int), ParseErrorKind>(x.kind),
            },
        decreases toks@.len() - k,
    {
        let ghost tv = strings_view(toks@);
        if k >= toks.len() {
            return err(ParseErrorKind::UnexpectedEnd);
        }
        let kw = keyword(&toks[k]);
        assert(tv[k as int] == toks@[k as int]@);
        if kw == 1 {
            if !token_is(toks, k + 1, '(') {
                return err(ParseErrorKind::ExpectedOpen);
            }
            let (e, k2) = match Self::from_iter(toks, k + 2) {
                Ok(p) => p,
                Err(x) => return Err(x),
            };
            if !token_is(toks, k2, ')') {
                return err(ParseErrorKind::ExpectedClose);
            }
            let r = Expression::Sum(Box::new(e));
            assert(r@ == ExprView::Sum(Box::new(e@)));
            Ok((r, k2 + 1))
        } else if kw == 2 {
            if !token_is(toks, k + 1, '(') {
                return err(ParseErrorKind::ExpectedOpen);
            }
            let (e1, k2) = match Self::from_iter(toks, k + 2) {
                Ok(p) => p,
                Err(x) => return Err(x),
            };
            if !token_is(toks, k2, ',') {
                return err(ParseErrorKind::ExpectedComma);
            }
            let (e2, k3) = match Self::from_iter(toks, k2 + 1) {
                Ok(p) => p,
                Err(x) => return Err(x),
            };
            if !token_is(toks, k3, ')') {
                return err(ParseErrorKind::ExpectedClose);
            }
            let r = Expression::Add(Box::new(e1), Box::new(e2));
            assert(r@ == ExprView::Add(Box::new(e1@), Box::new(e2@)));
            Ok((r, k3 + 1))
        } else if kw == 3 {
            if !token_is(toks, k + 1, '(') {
                return err(ParseErrorKind::ExpectedOpen);
            }
            if !token_is(toks, k + 2, ')') {
                return err(ParseErrorKind::ExpectedClose);
            }
            Ok((Expression::Count, k + 3))
        } else if kw == 4 {
            if !token_is(toks, k + 1, '(') {
                return err(ParseErrorKind::ExpectedOpen);
            }
            let (e, k2) = match Self::from_iter(toks, k + 2) {
                Ok(p) => p,
                Err(x) => return Err(x),
            };
            if !token_is(toks, k2, ')') {
                return err(ParseErrorKind::ExpectedClose);
            }
            match e {
                Expression::Variable(v) => Ok((Expression::Values(v), k2 + 1)),
                _ => err(ParseErrorKind::ExpectedVariable),
            }
        } else {
            match parse_atom(&toks[k]) {
                Ok(a) => Ok((a, k + 1)),
                Err(x) => Err(x),
            }
        }
    }

    /// Parses a whole expression; every token must be used.
    pub fn from_string(s: &str) -> (r: Result<Expression, ParseExpressionError>)
        ensures
            match r {
                Ok(e) => parse_all(tokens_from(s@, 0)) == Ok::<ExprView, ParseErrorKind>(e@),
                Err(x) => parse_all(tokens_from(s@, 0)) == Err::<ExprView, ParseErrorKind>(x.kind),
            },
    {
        let toks = tokenize(s);
        let (e, k) = match Self::from_iter(&toks, 0) {
            Ok(p) => p,
            Err(x) => return Err(x),
        };
        if k < toks.len() {
            return err(ParseErrorKind::ExpectedEnd);
        }
        Ok(e)
    }
}


/// The printed form of an expression: constants in canonical spelling,
/// variables as named, and `add(a, b)`, `sum(a)`, `count()`, `values(v)`.
pub open spec fn expr_str(e: ExprView) -> Seq<char>
    decreases e,
{
    match e {
        ExprView::IntConst(i) => int_str(i as int),
        ExprView::DecConst(m, p) => decimal_str(m as int, p as nat),
        ExprView::Variable(v) => v,
        ExprView::Add(a, b) => word_add() + seq!['('] + expr_str(*a) + seq![',', ' '] + expr_str(*b) + seq![')'],
        ExprView::Sum(a) => word_sum() + seq!['('] + expr_str(*a) + seq![')'],
        ExprView::Count => word_count() + seq!['(', ')'],
        ExprView::Values(v) => word_values() + seq!['('] + v + seq![')'],
    }
}

fn push_all(out: &mut Vec<char>, cs: &Vec<char>)
    ensures
        final(out)@ == old(out)@ + cs@,
{
    let mut i: usize = 0;
    while i < cs.len()
        invariant
            i <= cs@.len(),
            out@ == old(out)@ + cs@.take(i as int),
        decreases cs.len() - i,
    {
        out.push(cs[i]);
        i = i + 1;
        assert(out@ =~= old(out)@ + cs@.take(i as int));
    }
    assert(cs@.take(i as int) =~= cs@);
}

fn push_word(out: &mut Vec<char>, w: &str)
    ensures
        final(out)@ == old(out)@ + w@,
{
    let cs = chars_of(w);
    push_all(out, &cs);
}

impl Expression {
    fn write_to(&self, out: &mut Vec<char>)
        ensures
            final(out)@ == old(out)@ + expr_str(self@),
        decreases self,
    {
        proof {
            reveal_strlit("sum(");
            reveal_strlit("add(");
            reveal_strlit("count()");
            reveal_strlit("values(");
            reveal_strlit(", ");
            reveal_strlit(")");
        }
        let ghost start = out@;
        match self {
            Expression::IntConst(i) => {
                let cs = crate::value::int_chars(*i);
                push_all(out, &cs);
            },
            Expression::DecConst(m, p) => {
                let cs = crate::value::decimal_chars(*m, *p);
                push_all(out, &cs);
            },
            Expression::Variable(v) => {
                let cs = chars_of(v.as_str());
                push_all(out, &cs);
            },
            Expression::Add(a, b) => {
                push_word(out, "add(");
                a.write_to(out);
                push_word(out, ", ");
                b.write_to(out);
                push_word(out, ")");
                assert(out@ =~= start + expr_str(self@));
            },
            Expression::Sum(a) => {
                push_word(out, "sum(");
                a.write_to(out);
                push_word(out, ")");
                assert(out@ =~= start + expr_str(self@));
            },
            Expression::Count => {
                push_word(out, "count()");
                assert(out@ =~= start + expr_str(self@));
            },
            Expression::Values(v) => {
                push_word(out, "values(");
                let cs = chars_of(v.as_str());
                push_all(out, &cs);
                push_word(out, ")");
                assert(out@ =~= start + expr_str(self@));
            },
        }
    }

    /// The printed form of the expression.
    pub fn to_string(&self) -> (r: String)
        ensures
            r@ == expr_str(self@),
    {
        let mut out: Vec<char> = Vec::new();
        self.write_to(&mut out);
        assert(out@ =~= expr_str(self@));
        string_of(&out)
    }
}

} // verus!
