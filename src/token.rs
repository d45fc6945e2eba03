use vstd::prelude::*;

use std::collections::VecDeque;

use crate::calc::{calc_term, head, operand, reduce};

verus! {

/// The numbers that expressions compute with.
pub type Num = u32;

/// Why an expression could not be read or computed.
#[derive(Debug)]
pub enum TokensError {
    /// Something else stood where a number was expected.
    InvalidExpression { expected: String, found: String },
    /// The input is not a well-formed expression, or it cannot be computed.
    Invalid,
}

/// A token of the expression language.
#[derive(Debug)]
pub enum Token {
    /// A run of decimal digits.
    Number(String),
    /// An operator: one symbol, or a run of lower-case letters.
    Operator(String),
    /// `(`
    LeftBracket,
    /// `)`
    RightBracket,
    /// `{`
    LeftBraces,
    /// `}`
    RightBraces,
    /// The end of the input.
    Eof,
}

/// What a token stands for, with its text as characters.
pub enum Lexeme {
    /// A number, with its digits.
    Number(Seq<char>),
    /// An operator, with its name.
    Operator(Seq<char>),
    LeftBracket,
    RightBracket,
    LeftBraces,
    RightBraces,
    Eof,
}

impl View for Token {
    type V = Lexeme;

    open spec fn view(&self) -> Lexeme {
        match self {
            Token::Number(s) => Lexeme::Number(s@),
            Token::Operator(s) => Lexeme::Operator(s@),
            Token::LeftBracket => Lexeme::LeftBracket,
            Token::RightBracket => Lexeme::RightBracket,
            Token::LeftBraces => Lexeme::LeftBraces,
            Token::RightBraces => Lexeme::RightBraces,
            Token::Eof => Lexeme::Eof,
        }
    }
}

/// An expression tree.
#[derive(Debug)]
pub enum Expr {
    /// A number.
    Number(Num),
    /// An operator applied to its operands.
    Operator(String, Vec<Expr>),
    /// A quoted list, which is not computed.
    QExpr(Vec<Expr>),
}

/// What an expression tree stands for.
pub enum Term {
    /// A number.
    Num(Num),
    /// An operator name and the terms of its operands.
    Op(Seq<char>, Seq<Term>),
    /// The terms of a quoted list.
    Quote(Seq<Term>),
}

/// The term of an expression tree.
pub open spec fn term_of(e: Expr) -> Term
    decreases e, 0nat,
{
    match e {
        Expr::Number(n) => Term::Num(n),
        Expr::Operator(s, v) => Term::Op(s@, terms_of(v@, v@.len())),
        Expr::QExpr(v) => Term::Quote(terms_of(v@, v@.len())),
    }
}

/// The terms of the first `k` expressions of `v`.
pub open spec fn terms_of(v: Seq<Expr>, k: nat) -> Seq<Term>
    decreases v, k,
{
    if k == 0 || k > v.len() {
        Seq::empty()
    } else {
        terms_of(v, (k - 1) as nat).push(term_of(v[k - 1]))
    }
}

impl View for Expr {
    type V = Term;

    open spec fn view(&self) -> Term {
        term_of(*self)
    }
}

/// `terms_of` has one term per expression, in order.
pub proof fn lemma_terms_of(v: Seq<Expr>, k: nat)
    requires
        k <= v.len(),
    ensures
        terms_of(v, k).len() == k,
        forall|i: int| 0 <= i < k ==> #[trigger] terms_of(v, k)[i] == term_of(v[i]),
    decreases k,
{
    if k > 0 {
        lemma_terms_of(v, (k - 1) as nat);
    }
}

/// The terms of all the expressions of `v`.
pub open spec fn terms(v: Seq<Expr>) -> Seq<Term> {
    terms_of(v, v.len())
}

/// Copies of a list of expressions.
fn copy_all(v: &Vec<Expr>) -> (r: Vec<Expr>)
    ensures
        terms(r@) == terms(v@),
    decreases v@, 1nat,
{
    let mut r: Vec<Expr> = Vec::new();
    let mut i: usize = 0;
    while i < v.len()
        invariant
            i <= v@.len(),
            r@.len() == i,
            forall|j: int| 0 <= j < i ==> #[trigger] term_of(r@[j]) == term_of(v@[j]),
        decreases v@.len() - i,
    {
        r.push(v[i].copy());
        i = i + 1;
    }
    proof {
        lemma_terms_of(v@, v@.len());
        lemma_terms_of(r@, r@.len());
        assert(terms(r@) =~= terms(v@));
    }
    r
}

impl Expr {
    /// A copy of the expression.
    pub fn copy(&self) -> (r: Expr)
        ensures
            r@ == self@,
        decreases self, 0nat,
    {
        match self {
            Expr::Number(n) => Expr::Number(*n),
            Expr::Operator(s, v) => Expr::Operator(s.clone(), copy_all(v)),
            Expr::QExpr(v) => Expr::QExpr(copy_all(v)),
        }
    }

    /// Computes the expression one level: a number or a quoted list stays as it
    /// is, an operator is applied to its operands. Fails where the operator
    /// does.
    pub fn calc(&self) -> (r: Result<Expr, TokensError>)
        ensures
            r is Ok <==> calc_term(self@) is Some,
            r is Ok ==> r->Ok_0@ == calc_term(self@)->Some_0,
            r is Err ==> r->Err_0 is Invalid,
    {
        match self {
            Expr::Number(v) => Ok(Expr::Number(*v)),
            Expr::Operator(op, exprs) => Self::switch(op.as_str(), exprs.as_slice()),
            Expr::QExpr(_) => Ok(self.copy()),
        }
    }

    /// The number the expression computes to. Fails on a quoted list, on an
    /// operator that gives no number, and where an operator fails.
    pub fn math_result(&self) -> (r: Result<Num, TokensError>)
        ensures
            r is Ok <==> crate::calc::num_of(self@) is Some,
            r is Ok ==> r->Ok_0 == crate::calc::num_of(self@)->Some_0,
            r is Err ==> r->Err_0 is Invalid,
    {
        operand(self)
    }

    /// Applies the operator named `op` to `v`: `head` gives the first element
    /// of the quoted list that opens `v`, as it stands; `+ - * / min max % ^`
    /// give a number. Any other name fails.
    pub fn switch(op: &str, v: &[Expr]) -> (r: Result<Expr, TokensError>)
        ensures
            r is Ok <==> reduce(op@, terms(v@)) is Some,
            r is Ok ==> r->Ok_0@ == reduce(op@, terms(v@))->Some_0,
            r is Err ==> r->Err_0 is Invalid,
        decreases v@, 3nat, 0nat,
    {
        if str_eq(op, "head") {
            match head(v) {
                Ok(e) => Ok(e.copy()),
                Err(x) => Err(x),
            }
        } else if str_eq(op, "+") {
            crate::calc::add(v)
        } else if str_eq(op, "-") {
            crate::calc::sub(v)
        } else if str_eq(op, "*") {
            crate::calc::mul(v)
        } else if str_eq(op, "/") {
            crate::calc::div(v)
        } else if str_eq(op, "min") {
            crate::calc::min(v)
        } else if str_eq(op, "max") {
            crate::calc::max(v)
        } else if str_eq(op, "%") {
            crate::calc::mmod(v)
        } else if str_eq(op, "^") {
            crate::calc::mi(v)
        } else {
            Err(TokensError::Invalid)
        }
    }
}

/// Whether two strings hold the same characters.
pub fn str_eq(a: &str, b: &str) -> (r: bool)
    ensures
        r == (a@ == b@),
{
    let x = crate::utils::chars_of(a);
    let y = crate::utils::chars_of(b);
    if x.len() != y.len() {
        return false;
    }
    let mut i: usize = 0;
    while i < x.len()
        invariant
            x@ == a@,
            y@ == b@,
            x@.len() == y@.len(),
            i <= x@.len(),
            forall|j: int| 0 <= j < i ==> x@[j] == y@[j],
        decreases x@.len() - i,
    {
        if x[i] != y[i] {
            return false;
        }
        i = i + 1;
    }
    assert(x@ =~= y@);
    true
}

/// Whether `c` is a decimal digit.
pub open spec fn is_digit(c: char) -> bool {
    '0' <= c <= '9'
}

/// Whether `c` is a lower-case ASCII letter.
pub open spec fn is_lower(c: char) -> bool {
    'a' <= c <= 'z'
}

/// Whether `c` is one of the one-character operators.
pub open spec fn is_symbol(c: char) -> bool {
    c == '+' || c == '-' || c == '*' || c == '/' || c == '%' || c == '^'
}

/// The end of the run of digits (or of lower-case letters) that starts at `i`.
pub open spec fn run_end(s: Seq<char>, i: int, digits: bool) -> int
    decreases s.len() - i,
{
    if i < 0 || i >= s.len() {
        i
    } else if (digits && is_digit(s[i])) || (!digits && is_lower(s[i])) {
        run_end(s, i + 1, digits)
    } else {
        i
    }
}

/// `t` in front of the tokens `rest`, if there are any.
pub open spec fn cons(t: Lexeme, rest: Option<Seq<Lexeme>>) -> Option<Seq<Lexeme>> {
    match rest {
        Some(ts) => Some(seq![t] + ts),
        None => None,
    }
}

/// The tokens of `s` from position `i` on: a run of digits is a number, a run
/// of lower-case letters an operator, `+ - * / % ^` an operator each, brackets
/// and braces a token each, and spaces are skipped. Any other character makes
/// the input unreadable.
pub open spec fn lex_from(s: Seq<char>, i: int) -> Option<Seq<Lexeme>>
    decreases s.len() - i,
{
    if i < 0 || i >= s.len() {
        Some(Seq::empty())
    } else {
        let c = s[i];
        if is_digit(c) || is_lower(c) {
            let e = run_end(s, i + 1, is_digit(c));
            if e <= i || e > s.len() {
                None
            } else if is_digit(c) {
                cons(Lexeme::Number(s.subrange(i, e)), lex_from(s, e))
            } else {
                cons(Lexeme::Operator(s.subrange(i, e)), lex_from(s, e))
            }
        } else if is_symbol(c) {
            cons(Lexeme::Operator(seq![c]), lex_from(s, i + 1))
        } else if c == '(' {
            cons(Lexeme::LeftBracket, lex_from(s, i + 1))
        } else if c == ')' {
            cons(Lexeme::RightBracket, lex_from(s, i + 1))
        } else if c == '{' {
            cons(Lexeme::LeftBraces, lex_from(s, i + 1))
        } else if c == '}' {
            cons(Lexeme::RightBraces, lex_from(s, i + 1))
        } else if c == ' ' {
            lex_from(s, i + 1)
        } else {
            None
        }
    }
}

/// A run ends within the string, after its start.
pub proof fn lemma_run_end(s: Seq<char>, i: int, digits: bool)
    requires
        0 <= i <= s.len(),
    ensures
        i <= run_end(s, i, digits) <= s.len(),
        forall|j: int| i <= j < run_end(s, i, digits) ==> (digits && is_digit(#[trigger] s[j])) || (!digits && is_lower(s[j])),
        run_end(s, i, digits) < s.len() ==> !((digits && is_digit(s[run_end(s, i, digits)])) || (!digits && is_lower(s[run_end(s, i, digits)]))),
    decreases s.len() - i,
{
    if i < s.len() && ((digits && is_digit(s[i])) || (!digits && is_lower(s[i]))) {
        lemma_run_end(s, i + 1, digits);
    }
}

/// A sequence of tokens, read from the front.
#[derive(Debug)]
pub struct Tokens {
    tokens: VecDeque<Token>,
}

impl Tokens {
    /// What the tokens left stand for.
    pub closed spec fn model(&self) -> Seq<Lexeme> {
        self.tokens@.map_values(|t: Token| t@)
    }

    /// Reads the characters of `s` at `*pos` and after, up to the end of the run
    /// of digits that follows the first one, and moves `*pos` past them. At
    /// or past the end of `s`, reads nothing.
    pub fn parser_number_string(s: &str, pos: &mut usize) -> (r: String)
        ensures
            *old(pos) < s@.len() ==> *final(pos) == run_end(s@, *old(pos) + 1, true) && r@ == s@.subrange(
                *old(pos) as int,
                *final(pos) as int,
            ),
            *old(pos) >= s@.len() ==> *final(pos) == *old(pos) && r@.len() == 0,
    {
        if *pos >= s.unicode_len() {
            return String::new();
        }
        Self::read_run(s, pos, true)
    }

    /// Reads the characters of `s` at `*pos` and after, up to the end of the run
    /// of lower-case letters that follows the first one, and moves `*pos` past
    /// them. At or past the end of `s`, reads nothing.
    pub fn str_parser(s: &str, pos: &mut usize) -> (r: String)
        ensures
            *old(pos) < s@.len() ==> *final(pos) == run_end(s@, *old(pos) + 1, false) && r@ == s@.subrange(
                *old(pos) as int,
                *final(pos) as int,
            ),
            *old(pos) >= s@.len() ==> *final(pos) == *old(pos) && r@.len() == 0,
    {
        if *pos >= s.unicode_len() {
            return String::new();
        }
        Self::read_run(s, pos, false)
    }

    /// The character at `*pos` and the run of digits, or of letters, after it.
    fn read_run(s: &str, pos: &mut usize, digits: bool) -> (r: String)
        requires
            *old(pos) < s@.len(),
        ensures
            *final(pos) == run_end(s@, *old(pos) + 1, digits),
            r@ == s@.subrange(*old(pos) as int, *final(pos) as int),
    {
        let n = s.unicode_len();
        let start = *pos;
        let mut j = start + 1;
        proof {
            lemma_run_end(s@, start + 1, digits);
        }
        while j < n
            invariant
                n == s@.len(),
                start < j <= n,
                run_end(s@, j as int, digits) == run_end(s@, start + 1, digits),
            ensures
                j == run_end(s@, start + 1, digits),
            decreases n - j,
        {
            let c = s.get_char(j);
            if !((digits && '0' <= c && c <= '9') || (!digits && 'a' <= c && c <= 'z')) {
                break;
            }
            j = j + 1;
        }
        *pos = j;
        String::from_str(s.substring_char(start, j))
    }

    /// Splits `s` into tokens. Fails on a character that no token holds.
    pub fn new(s: String) -> (r: Result<Tokens, TokensError>)
        ensures
            r is Ok <==> lex_from(s@, 0) is Some,
            r is Ok ==> r->Ok_0.model() == lex_from(s@, 0)->Some_0,
            r is Err ==> r->Err_0 is Invalid,
    {
        let text = s.as_str();
        let n = text.unicode_len();
        let mut deq: VecDeque<Token> = VecDeque::new();
        let mut i: usize = 0;
        while i < n
            invariant
                n == s@.len(),
                text@ == s@,
                i <= n,
                lex_from(s@, 0) == match lex_from(s@, i as int) {
                    Some(ts) => Some(deq@.map_values(|t: Token| t@) + ts),
                    None => None::<Seq<Lexeme>>,
                },
            decreases n - i,
        {
            let c = text.get_char(i);
            let ghost before = deq@;
            if ('0' <= c && c <= '9') || ('a' <= c && c <= 'z') {
                let digits = '0' <= c && c <= '9';
                let ghost at = i;
                proof {
                    lemma_run_end(s@, i + 1, digits);
                }
                let w = Self::read_run(text, &mut i, digits);
                if digits {
                    deq.push_back(Token::Number(w));
                } else {
                    deq.push_back(Token::Operator(w));
                }
                proof {
                    assert(deq@.map_values(|t: Token| t@) =~= before.map_values(|t: Token| t@).push(deq@.last()@));
                    lemma_cons_assoc(before.map_values(|t: Token| t@), deq@.last()@, lex_from(s@, i as int));
                }
            } else if c == '+' || c == '-' || c == '*' || c == '/' || c == '%' || c == '^' {
                let op = String::from_str(text.substring_char(i, i + 1));
                deq.push_back(Token::Operator(op));
                proof {
                    assert(s@.subrange(i as int, i + 1) =~= seq![c]);
                    assert(deq@.last()@ == Lexeme::Operator(seq![c]));
                    assert(deq@.map_values(|t: Token| t@) =~= before.map_values(|t: Token| t@).push(deq@.last()@));
                    lemma_cons_assoc(before.map_values(|t: Token| t@), deq@.last()@, lex_from(s@, i + 1));
                }
                i = i + 1;
            } else if c == '(' || c == ')' || c == '{' || c == '}' {
                let t = if c == '(' {
                    Token::LeftBracket
                } else if c == ')' {
                    Token::RightBracket
                } else if c == '{' {
                    Token::LeftBraces
                } else {
                    Token::RightBraces
                };
                deq.push_back(t);
                proof {
                    assert(deq@.map_values(|t: Token| t@) =~= before.map_values(|t: Token| t@).push(deq@.last()@));
                    lemma_cons_assoc(before.map_values(|t: Token| t@), deq@.last()@, lex_from(s@, i + 1));
                }
                i = i + 1;
            } else if c == ' ' {
                i = i + 1;
            } else {
                return Err(TokensError::Invalid);
            }
        }
        proof {
            assert(deq@.map_values(|t: Token| t@) + Seq::<Lexeme>::empty() =~= deq@.map_values(|t: Token| t@));
        }
        Ok(Tokens { tokens: deq })
    }
}

/// Appending a token, then the rest, is the same as putting it in front of the rest.
pub proof fn lemma_cons_assoc(a: Seq<Lexeme>, t: Lexeme, rest: Option<Seq<Lexeme>>)
    ensures
        match cons(t, rest) {
            Some(ts) => Some(a + ts),
            None => None::<Seq<Lexeme>>,
        } == match rest {
            Some(ts) => Some(a.push(t) + ts),
            None => None::<Seq<Lexeme>>,
        },
{
    if let Some(ts) = rest {
        assert(a + (seq![t] + ts) =~= a.push(t) + ts);
    }
}

/// The value of a digit.
pub open spec fn digit_val(c: char) -> nat {
    (c as u32 - '0' as u32) as nat
}

/// The value of a string of decimal digits.
pub open spec fn digits_value(d: Seq<char>) -> nat
    decreases d.len(),
{
    if d.len() == 0 {
        0
    } else {
        digits_value(d.drop_last()) * 10 + digit_val(d.last())
    }
}

/// The number a nonempty string of digits stands for, if it fits.
pub open spec fn num_text(d: Seq<char>) -> Option<Num> {
    if d.len() > 0 && (forall|i: int| 0 <= i < d.len() ==> is_digit(#[trigger] d[i])) && digits_value(d) <= Num::MAX {
        Some(digits_value(d) as Num)
    } else {
        None
    }
}

/// Longer prefixes of a digit string are worth no less.
pub proof fn lemma_digits_grow(d: Seq<char>, i: int, k: int)
    requires
        0 <= i <= k <= d.len(),
    ensures
        digits_value(d.take(i)) <= digits_value(d.take(k)),
    decreases k - i,
{
    if i < k {
        lemma_digits_grow(d, i, k - 1);
        assert(d.take(k).drop_last() =~= d.take(k - 1));
    }
}

/// The tokens after the first, as `Tokens::next` leaves them.
pub open spec fn rest(ts: Seq<Lexeme>) -> Seq<Lexeme> {
    if ts.len() == 0 {
        ts
    } else {
        ts.drop_first()
    }
}

/// Reads one expression from the front of `ts`: a number, an operator with
/// the operands that follow it, a bracketed expression (whose operands go on
/// after the bracket if it is an operator), or a quoted list. Gives the term
/// and the tokens left. An error holds the operator that stood where an
/// operand was expected, or nothing for any other error.
pub open spec fn p_expr(ts: Seq<Lexeme>) -> Result<(Term, Seq<Lexeme>), Option<Seq<char>>>
    decreases ts.len(), 2nat,
{
    if ts.len() == 0 {
        Err(None)
    } else {
        let r = ts.drop_first();
        match ts[0] {
            Lexeme::Number(d) => match num_text(d) {
                Some(n) => Ok((Term::Num(n), r)),
                None => Err(None),
            },
            Lexeme::Operator(v) => p_args(v, Seq::empty(), r),
            Lexeme::LeftBracket => match p_expr(r) {
                Ok((e, r2)) => match e {
                    Term::Op(name, args) => if r2.len() < ts.len() {
                        p_args(name, args, r2)
                    } else {
                        Err(None)
                    },
                    _ => Ok((e, r2)),
                },
                Err(x) => Err(x),
            },
            Lexeme::LeftBraces => p_quote(Seq::empty(), r),
            _ => Err(None),
        }
    }
}

/// Reads the operands of operator `name`, after `args`, up to the end of
/// the tokens, a closing bracket or a closing brace, which are left in place.
pub open spec fn p_args(name: Seq<char>, args: Seq<Term>, ts: Seq<Lexeme>) -> Result<(Term, Seq<Lexeme>), Option<Seq<char>>>
    decreases ts.len(), 1nat,
{
    if ts.len() == 0 {
        Ok((Term::Op(name, args), ts))
    } else {
        match ts[0] {
            Lexeme::Number(d) => match num_text(d) {
                Some(n) => p_args(name, args.push(Term::Num(n)), ts.drop_first()),
                None => Err(None),
            },
            Lexeme::Operator(v) => Err(Some(v)),
            Lexeme::LeftBracket => match p_expr(ts.drop_first()) {
                Ok((e, r)) => if r.len() < ts.len() {
                    p_args(name, args.push(e), rest(r))
                } else {
                    Err(None)
                },
                Err(x) => Err(x),
            },
            Lexeme::LeftBraces => match p_quote(Seq::empty(), ts.drop_first()) {
                Ok((q, r)) => if r.len() < ts.len() {
                    p_args(name, args.push(q), rest(r))
                } else {
                    Err(None)
                },
                Err(x) => Err(x),
            },
            _ => Ok((Term::Op(name, args), ts)),
        }
    }
}

/// Reads the elements of a quoted list, after `items`, up to its closing brace
/// or the end of the tokens; closing brackets inside are skipped.
pub open spec fn p_quote(items: Seq<Term>, ts: Seq<Lexeme>) -> Result<(Term, Seq<Lexeme>), Option<Seq<char>>>
    decreases ts.len(), 0nat,
{
    if ts.len() == 0 {
        Ok((Term::Quote(items), ts))
    } else {
        let r = ts.drop_first();
        match ts[0] {
            Lexeme::Number(d) => match num_text(d) {
                Some(n) => p_quote(items.push(Term::Num(n)), r),
                None => Err(None),
            },
            Lexeme::LeftBraces => match p_quote(Seq::empty(), r) {
                Ok((q, r2)) => if r2.len() < ts.len() {
                    p_quote(items.push(q), r2)
                } else {
                    Err(None)
                },
                Err(x) => Err(x),
            },
            Lexeme::LeftBracket => match p_expr(r) {
                Ok((e, r2)) => if r2.len() < ts.len() {
                    p_quote(items.push(e), r2)
                } else {
                    Err(None)
                },
                Err(x) => Err(x),
            },
            Lexeme::RightBracket => p_quote(items, r),
            Lexeme::Operator(_) => Err(None),
            _ => Ok((Term::Quote(items), r)),
        }
    }
}

/// Whether `e` is the error that the grammar's error `k` stands for: an
/// operator where an operand was expected, or any other error.
pub open spec fn error_is(e: TokensError, k: Option<Seq<char>>) -> bool {
    match k {
        Some(f) => match e {
            TokensError::InvalidExpression { expected, found } => expected@ == "number"@ && found@ == f,
            TokensError::Invalid => false,
        },
        None => e is Invalid,
    }
}

/// The terms of a list with one more expression.
pub proof fn lemma_terms_push(v: Seq<Expr>, e: Expr)
    ensures
        terms(v.push(e)) == terms(v).push(term_of(e)),
{
    lemma_terms_of(v, v.len());
    lemma_terms_of(v.push(e), v.len() + 1);
    assert(terms(v.push(e)) =~= terms(v).push(term_of(e)));
}

/// The number a string of digits stands for, if it is one and fits.
fn parse_num(s: &String) -> (r: Option<Num>)
    ensures
        r == num_text(s@),
{
    let d = crate::utils::chars_of(s.as_str());
    if d.len() == 0 {
        return None;
    }
    let mut acc: u64 = 0;
    let mut i: usize = 0;
    assert(d@.take(0) =~= Seq::<char>::empty());
    while i < d.len()
        invariant
            d@ == s@,
            i <= d@.len(),
            d@.len() > 0,
            acc == digits_value(d@.take(i as int)),
            acc <= Num::MAX,
            forall|j: int| 0 <= j < i ==> is_digit(#[trigger] d@[j]),
        decreases d@.len() - i,
    {
        let c = d[i];
        if !('0' <= c && c <= '9') {
            return None;
        }
        assert(d@.take(i + 1).drop_last() =~= d@.take(i as int));
        let next = acc * 10 + (c as u32 - '0' as u32) as u64;
        if next > Num::MAX as u64 {
            proof {
                lemma_digits_grow(d@, i + 1, d@.len() as int);
                assert(d@.take(d@.len() as int) =~= d@);
            }
            return None;
        }
        acc = next;
        i = i + 1;
    }
    assert(d@.take(d@.len() as int) =~= d@);
    Some(acc as Num)
}

impl Tokens {
    /// Takes the first token; `Eof` when none is left.
    pub fn next(&mut self) -> (r: Token)
        ensures
            old(self).model().len() == 0 ==> r@ == Lexeme::Eof && final(self).model() == old(self).model(),
            old(self).model().len() > 0 ==> r@ == old(self).model()[0] && final(self).model() == old(self).model().drop_first(),
            final(self).model() == rest(old(self).model()),
    {
        let ghost before = self.tokens@;
        match self.tokens.pop_front() {
            Some(t) => {
                assert(self.model() =~= before.map_values(|t: Token| t@).drop_first());
                t
            },
            None => Token::Eof,
        }
    }

    /// The first token, left in place; `Eof` when none is left.
    pub fn peek(&self) -> (r: &Token)
        ensures
            self.model().len() == 0 ==> r@ == Lexeme::Eof,
            self.model().len() > 0 ==> r@ == self.model()[0],
    {
        if self.tokens.len() == 0 {
            &Token::Eof
        } else {
            &self.tokens[0]
        }
    }

    /// Reads one expression from the front of the tokens: a number, an operator
    /// with the operands that follow it, a bracketed expression, or a quoted
    /// list. Fails where the tokens do not form one.
    pub fn parser(&mut self) -> (r: Result<Expr, TokensError>)
        ensures
            r is Ok <==> p_expr(old(self).model()) is Ok,
            r is Ok ==> r->Ok_0@ == p_expr(old(self).model())->Ok_0.0 && final(self).model() == p_expr(
                old(self).model(),
            )->Ok_0.1,
            r is Err ==> error_is(r->Err_0, p_expr(old(self).model())->Err_0),
            final(self).model().len() <= old(self).model().len(),
        decreases old(self).model().len(), 2nat,
    {
        let ghost ts = self.model();
        let t = self.next();
        let op = match t {
            Token::Number(v) => match parse_num(&v) {
                Some(n) => {
                    return Ok(Expr::Number(n));
                },
                None => {
                    return Err(TokensError::Invalid);
                },
            },
            Token::Operator(v) => {
                proof {
                    assert(terms(Seq::<Expr>::empty()) =~= Seq::<Term>::empty());
                }
                return self.parse_args(v, Vec::new());
            },
            Token::LeftBracket => match self.parser() {
                Ok(e) => e,
                Err(x) => {
                    return Err(x);
                },
            },
            Token::LeftBraces => {
                return self.parser_qexpr();
            },
            _ => {
                return Err(TokensError::Invalid);
            },
        };
        match op {
            Expr::Operator(name, args) => self.parse_args(name, args),
            other => Ok(other),
        }
    }

    /// Reads the operands of operator `name`, after `args`, up to the end of the
    /// tokens, a closing bracket or a closing brace.
    fn parse_args(&mut self, name: String, args: Vec<Expr>) -> (r: Result<Expr, TokensError>)
        ensures
            r is Ok <==> p_args(name@, terms(args@), old(self).model()) is Ok,
            r is Ok ==> r->Ok_0@ == p_args(name@, terms(args@), old(self).model())->Ok_0.0 && final(self).model()
                == p_args(name@, terms(args@), old(self).model())->Ok_0.1,
            r is Err ==> error_is(r->Err_0, p_args(name@, terms(args@), old(self).model())->Err_0),
            final(self).model().len() <= old(self).model().len(),
        decreases old(self).model().len(), 1nat,
    {
        let ghost goal = p_args(name@, terms(args@), self.model());
        let ghost len0 = self.model().len();
        let mut list = args;
        loop
            invariant
                goal == p_args(name@, terms(args@), old(self).model()),
                len0 == old(self).model().len(),
                goal == p_args(name@, terms(list@), self.model()),
                self.model().len() <= len0,
            decreases self.model().len(),
        {
            let ghost ts = self.model();
            let tk = self.peek();
            proof {
                if ts.len() == 0 {
                    assert(tk@ == Lexeme::Eof);
                } else {
                    assert(tk@ == ts[0]);
                }
            }
            match tk {
                Token::Number(v) => match parse_num(v) {
                    Some(n) => {
                        proof {
                            lemma_terms_push(list@, Expr::Number(n));
                        }
                        list.push(Expr::Number(n));
                        self.next();
                    },
                    None => {
                        assert(ts[0] == Lexeme::Number(v@));
                        return Err(TokensError::Invalid);
                    },
                },
                Token::Operator(v) => {
                    assert(ts[0] == Lexeme::Operator(v@));
                    return Err(
                        TokensError::InvalidExpression { expected: String::from_str("number"), found: v.clone() },
                    );
                },
                Token::LeftBracket => {
                    assert(ts[0] == Lexeme::LeftBracket);
                    self.next();
                    match self.parser() {
                        Ok(e) => {
                            proof {
                                lemma_terms_push(list@, e);
                            }
                            list.push(e);
                            self.next();
                        },
                        Err(x) => {
                            return Err(x);
                        },
                    }
                },
                Token::LeftBraces => {
                    assert(ts[0] == Lexeme::LeftBraces);
                    self.next();
                    match self.parser_qexpr() {
                        Ok(e) => {
                            proof {
                                lemma_terms_push(list@, e);
                            }
                            list.push(e);
                            self.next();
                        },
                        Err(x) => {
                            return Err(x);
                        },
                    }
                },
                _ => {
                    return Ok(Expr::Operator(name, list));
                },
            }
        }
    }

    /// Reads the elements of a quoted list whose opening brace has been taken,
    /// up to its closing brace or the end of the tokens.
    pub fn parser_qexpr(&mut self) -> (r: Result<Expr, TokensError>)
        ensures
            r is Ok <==> p_quote(Seq::empty(), old(self).model()) is Ok,
            r is Ok ==> r->Ok_0@ == p_quote(Seq::empty(), old(self).model())->Ok_0.0 && final(self).model()
                == p_quote(Seq::empty(), old(self).model())->Ok_0.1,
            r is Err ==> error_is(r->Err_0, p_quote(Seq::empty(), old(self).model())->Err_0),
            final(self).model().len() <= old(self).model().len(),
        decreases old(self).model().len(), 0nat,
    {
        let ghost goal = p_quote(Seq::empty(), self.model());
        let ghost len0 = self.model().len();
        assert(goal == p_quote(Seq::empty(), old(self).model()));
        let mut items: Vec<Expr> = Vec::new();
        proof {
            assert(terms(items@) =~= Seq::<Term>::empty());
        }
        loop
            invariant
                goal == p_quote(Seq::empty(), old(self).model()),
                len0 == old(self).model().len(),
                goal == p_quote(terms(items@), self.model()),
                self.model().len() <= len0,
            decreases self.model().len(),
        {
            let ghost ts = self.model();
            if self.tokens.len() == 0 {
                return Ok(Expr::QExpr(items));
            }
            let t = self.next();
            match t {
                Token::Number(v) => match parse_num(&v) {
                    Some(n) => {
                        proof {
                            lemma_terms_push(items@, Expr::Number(n));
                        }
                        items.push(Expr::Number(n));
                    },
                    None => {
                        return Err(TokensError::Invalid);
                    },
                },
                Token::LeftBraces => match self.parser_qexpr() {
                    Ok(q) => {
                        proof {
                            lemma_terms_push(items@, q);
                        }
                        items.push(q);
                    },
                    Err(x) => {
                        return Err(x);
                    },
                },
                Token::LeftBracket => match self.parser() {
                    Ok(e) => {
                        proof {
                            lemma_terms_push(items@, e);
                        }
                        items.push(e);
                    },
                    Err(x) => {
                        return Err(x);
                    },
                },
                Token::RightBracket => {},
                Token::Operator(_) => {
                    return Err(TokensError::Invalid);
                },
                _ => {
                    return Ok(Expr::QExpr(items));
                },
            }
        }
    }
}

/// Relies on `String::push`: the character is appended at the end.
pub assume_specification[ String::push ](s: &mut String, ch: char)
    ensures
        final(s)@ == old(s)@.push(ch),
;

/// The character of a decimal digit.
pub open spec fn digit_char(d: nat) -> char {
    seq!['0', '1', '2', '3', '4', '5', '6', '7', '8', '9'][d as int]
}

/// The decimal digits of `n`, most significant first.
pub open spec fn dec(n: nat) -> Seq<char>
    decreases n,
{
    if n < 10 {
        seq![digit_char(n)]
    } else {
        dec(n / 10).push(digit_char(n % 10))
    }
}

/// The pieces of `ps`, separated by single spaces.
pub open spec fn joined(ps: Seq<Seq<char>>) -> Seq<char>
    decreases ps.len(),
{
    if ps.len() == 0 {
        Seq::empty()
    } else if ps.len() == 1 {
        ps[0]
    } else {
        joined(ps.drop_last()).push(' ') + ps.last()
    }
}

/// The text of a term: a number in decimal; an operator followed by its
/// operands; a quoted list between braces; pieces separated by spaces.
pub open spec fn text_of(t: Term) -> Seq<char>
    decreases t, 1nat,
{
    match t {
        Term::Num(n) => dec(n as nat),
        Term::Op(op, args) => joined(seq![op] + texts_of(args, args.len())),
        Term::Quote(items) => joined(seq![seq!['{']] + texts_of(items, items.len()) + seq![seq!['}']]),
    }
}

/// The texts of the first `k` terms.
pub open spec fn texts_of(ts: Seq<Term>, k: nat) -> Seq<Seq<char>>
    decreases ts, 0nat, k,
{
    if k == 0 || k > ts.len() {
        Seq::empty()
    } else {
        texts_of(ts, (k - 1) as nat).push(text_of(ts[k - 1]))
    }
}

/// The text of a token: its characters, the bracket or brace, and nothing
/// for `Eof`.
pub open spec fn token_text(t: Lexeme) -> Seq<char> {
    match t {
        Lexeme::Number(v) => v,
        Lexeme::Operator(v) => v,
        Lexeme::LeftBracket => seq!['('],
        Lexeme::RightBracket => seq![')'],
        Lexeme::LeftBraces => seq!['{'],
        Lexeme::RightBraces => seq!['}'],
        Lexeme::Eof => Seq::empty(),
    }
}

/// Appends the decimal digits of `n`.
fn push_dec(out: &mut String, n: Num)
    ensures
        final(out)@ == old(out)@ + dec(n as nat),
    decreases n,
{
    if n >= 10 {
        push_dec(out, n / 10);
    }
    let d = n % 10;
    let c = if d == 0 {
        '0'
    } else if d == 1 {
        '1'
    } else if d == 2 {
        '2'
    } else if d == 3 {
        '3'
    } else if d == 4 {
        '4'
    } else if d == 5 {
        '5'
    } else if d == 6 {
        '6'
    } else if d == 7 {
        '7'
    } else if d == 8 {
        '8'
    } else {
        '9'
    };
    out.push(c);
    proof {
        if n >= 10 {
            assert(old(out)@ + dec(n as nat) =~= old(out)@ + dec((n / 10) as nat) + seq![c]);
        } else {
            assert(old(out)@ + dec(n as nat) =~= old(out)@ + seq![c]);
        }
    }
}

/// `joined` of one more piece.
pub proof fn lemma_joined_push(ps: Seq<Seq<char>>, p: Seq<char>)
    requires
        ps.len() > 0,
    ensures
        joined(ps.push(p)) == joined(ps).push(' ') + p,
{
    assert(ps.push(p).drop_last() =~= ps);
}

/// The texts of a list with its terms spelled out one by one.
pub proof fn lemma_texts_of(ts: Seq<Term>, k: nat)
    requires
        k <= ts.len(),
    ensures
        texts_of(ts, k).len() == k,
        forall|i: int| 0 <= i < k ==> #[trigger] texts_of(ts, k)[i] == text_of(ts[i]),
    decreases k,
{
    if k > 0 {
        lemma_texts_of(ts, (k - 1) as nat);
    }
}

/// Appends a space and the text of each expression of `v`, turning the
/// joined pieces `first` into the joined pieces `first` followed by those texts.
fn push_each(out: &mut String, v: &Vec<Expr>, Ghost(first): Ghost<Seq<Seq<char>>>)
    requires
        first.len() > 0,
        old(out)@ == joined(first),
    ensures
        final(out)@ == joined(first + texts_of(terms(v@), v@.len())),
    decreases v@, 0nat,
{
    let ghost ts = terms(v@);
    proof {
        lemma_terms_of(v@, v@.len());
        lemma_texts_of(ts, v@.len());
    }
    let mut i: usize = 0;
    assert(first + texts_of(ts, 0) =~= first);
    while i < v.len()
        invariant
            i <= v@.len(),
            first.len() > 0,
            ts == terms(v@),
            ts.len() == v@.len(),
            forall|j: int| 0 <= j < v@.len() ==> #[trigger] ts[j] == term_of(v@[j]),
            texts_of(ts, v@.len()).len() == v@.len(),
            forall|j: int| 0 <= j < v@.len() ==> #[trigger] texts_of(ts, v@.len())[j] == text_of(ts[j]),
            out@ == joined(first + texts_of(ts, v@.len()).take(i as int)),
        decreases v@.len() - i,
    {
        let ghost pre = first + texts_of(ts, v@.len()).take(i as int);
        out.push(' ');
        push_text(out, &v[i]);
        proof {
            assert(first + texts_of(ts, v@.len()).take(i + 1) =~= pre.push(text_of(ts[i as int])));
            lemma_joined_push(pre, text_of(ts[i as int]));
        }
        i = i + 1;
    }
    assert(texts_of(ts, v@.len()).take(v@.len() as int) =~= texts_of(ts, v@.len()));
}

/// Appends the text of `e`.
fn push_text(out: &mut String, e: &Expr)
    ensures
        final(out)@ == old(out)@ + text_of(e@),
    decreases e, 1nat,
{
    let ghost start = old(out)@;
    let mut part = String::new();
    match e {
        Expr::Number(n) => {
            push_dec(&mut part, *n);
            assert(part@ =~= dec(*n as nat));
            assert(part@ == text_of(e@));
        },
        Expr::Operator(op, args) => {
            part.append(op.as_str());
            let ghost first = seq![op@];
            assert(part@ =~= joined(first));
            push_each(&mut part, args, Ghost(first));
            proof {
                lemma_terms_of(args@, args@.len());
            }
            assert(part@ == text_of(e@));
        },
        Expr::QExpr(items) => {
            part.push('{');
            let ghost first = seq![seq!['{']];
            assert(part@ =~= joined(first));
            push_each(&mut part, items, Ghost(first));
            let ghost mid = seq![seq!['{']] + texts_of(terms(items@), items@.len());
            part.push(' ');
            part.push('}');
            proof {
                lemma_terms_of(items@, items@.len());
                assert(mid.len() > 0);
                lemma_joined_push(mid, seq!['}']);
                assert(mid.push(seq!['}']) =~= mid + seq![seq!['}']]);
                assert(part@ =~= joined(mid).push(' ') + seq!['}']);
                assert(part@ == text_of(e@));
            }
        },
    }
    out.append(part.as_str());
}

impl Expr {
    /// The text of the expression: a number in decimal; an operator followed by
    /// its operands; a quoted list between braces, as `{ 1 2 }`; pieces
    /// separated by spaces.
    pub fn to_text(&self) -> (r: String)
        ensures
            r@ == text_of(self@),
    {
        let mut out = String::new();
        push_text(&mut out, self);
        assert(out@ =~= text_of(self@));
        out
    }
}

impl Token {
    /// The text of the token.
    pub fn to_text(&self) -> (r: String)
        ensures
            r@ == token_text(self@),
    {
        match self {
            Token::Number(v) => String::from_str(v.as_str()),
            Token::Operator(v) => String::from_str(v.as_str()),
            Token::LeftBracket => {
                proof {
                    reveal_strlit("(");
                }
                let r = String::from_str("(");
                assert(r@ =~= seq!['(']);
                r
            },
            Token::RightBracket => {
                proof {
                    reveal_strlit(")");
                }
                let r = String::from_str(")");
                assert(r@ =~= seq![')']);
                r
            },
            Token::LeftBraces => {
                proof {
                    reveal_strlit("{");
                }
                let r = String::from_str("{");
                assert(r@ =~= seq!['{']);
                r
            },
            Token::RightBraces => {
                proof {
                    reveal_strlit("}");
                }
                let r = String::from_str("}");
                assert(r@ =~= seq!['}']);
                r
            },
            Token::Eof => String::new(),
        }
    }
}

} // verus!
