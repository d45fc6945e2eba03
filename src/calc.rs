use vstd::prelude::*;

use crate::token::{lemma_terms_of, term_of, terms, Expr, Num, Term, TokensError};

verus! {

/// The arithmetic operators.
#[derive(Clone, Copy, PartialEq, Eq, Structural)]
pub enum Arith {
    Add,
    Sub,
    Mul,
    Div,
    Min,
    Max,
    Mod,
    Pow,
}

/// The arithmetic operator an operator name stands for.
pub open spec fn arith_of(op: Seq<char>) -> Option<Arith> {
    if op == "+"@ {
        Some(Arith::Add)
    } else if op == "-"@ {
        Some(Arith::Sub)
    } else if op == "*"@ {
        Some(Arith::Mul)
    } else if op == "/"@ {
        Some(Arith::Div)
    } else if op == "min"@ {
        Some(Arith::Min)
    } else if op == "max"@ {
        Some(Arith::Max)
    } else if op == "%"@ {
        Some(Arith::Mod)
    } else if op == "^"@ {
        Some(Arith::Pow)
    } else {
        None
    }
}

/// `a` to the power `b`.
pub open spec fn pow(a: nat, b: nat) -> nat
    decreases b,
{
    if b == 0 {
        1
    } else {
        a * pow(a, (b - 1) as nat)
    }
}

/// One step of an operator: `None` on overflow, underflow or division by zero.
pub open spec fn step(k: Arith, a: Num, b: Num) -> Option<Num> {
    match k {
        Arith::Add => a.checked_add(b),
        Arith::Sub => a.checked_sub(b),
        Arith::Mul => a.checked_mul(b),
        Arith::Div => if b == 0 {
            None
        } else {
            Some((a / b) as Num)
        },
        Arith::Min => if b < a {
            Some(b)
        } else {
            Some(a)
        },
        Arith::Max => if a < b {
            Some(b)
        } else {
            Some(a)
        },
        Arith::Mod => if b == 0 {
            None
        } else {
            Some((a % b) as Num)
        },
        Arith::Pow => if pow(a as nat, b as nat) <= Num::MAX {
            Some(pow(a as nat, b as nat) as Num)
        } else {
            None
        },
    }
}

/// Applies `k` from left to right, starting from `acc`.
pub open spec fn fold(k: Arith, acc: Num, ns: Seq<Num>) -> Option<Num>
    decreases ns.len(),
{
    if ns.len() == 0 {
        Some(acc)
    } else {
        match step(k, acc, ns[0]) {
            Some(a) => fold(k, a, ns.drop_first()),
            None => None,
        }
    }
}

/// The value of `k` on its operands: a sum starts from 0, a minimum from the
/// largest number, a maximum from 0; the other operators start from their
/// first operand, and give 0 when there is none. A product with a zero factor
/// is 0, and a power with a zero among its later exponents is 1, whatever the
/// size of the partial results before it.
pub open spec fn apply(k: Arith, ns: Seq<Num>) -> Option<Num> {
    match k {
        Arith::Add => fold(k, 0, ns),
        Arith::Min => fold(k, Num::MAX, ns),
        Arith::Max => fold(k, 0, ns),
        _ => if ns.len() == 0 {
            Some(0)
        } else if k == Arith::Mul && ns.contains(0) {
            Some(0)
        } else if k == Arith::Pow && ns.drop_first().contains(0) {
            Some(1)
        } else {
            fold(k, ns[0], ns.drop_first())
        },
    }
}

/// The first element of the quoted list that opens `args`.
pub open spec fn head_term(args: Seq<Term>) -> Option<Term> {
    if args.len() > 0 {
        match args[0] {
            Term::Quote(items) => if items.len() > 0 {
                Some(items[0])
            } else {
                None
            },
            _ => None,
        }
    } else {
        None
    }
}

/// The number a term computes to, if it computes to one.
pub open spec fn num_of(t: Term) -> Option<Num>
    decreases t, 0nat, 0nat,
{
    match t {
        Term::Num(n) => Some(n),
        Term::Op(op, args) => match reduce(op, args) {
            Some(Term::Num(n)) => Some(n),
            _ => None,
        },
        Term::Quote(_) => None,
    }
}

/// The numbers the first `k` terms compute to, if they all compute to one.
pub open spec fn values(args: Seq<Term>, k: nat) -> Option<Seq<Num>>
    decreases args, 1nat, k,
{
    if k == 0 || k > args.len() {
        Some(Seq::empty())
    } else {
        match values(args, (k - 1) as nat) {
            Some(ns) => match num_of(args[k - 1]) {
                Some(n) => Some(ns.push(n)),
                None => None,
            },
            None => None,
        }
    }
}

/// The value of arithmetic operator `k` on the terms `args`.
pub open spec fn arith_value(k: Arith, args: Seq<Term>) -> Option<Num>
    decreases args, 2nat, 0nat,
{
    match values(args, args.len()) {
        Some(ns) => apply(k, ns),
        None => None,
    }
}

/// What operator `op` gives on `args`: for `head`, the first element of the
/// quoted list, as it stands; for an arithmetic operator, a number.
pub open spec fn reduce(op: Seq<char>, args: Seq<Term>) -> Option<Term>
    decreases args, 3nat, 0nat,
{
    if op == "head"@ {
        head_term(args)
    } else {
        match arith_of(op) {
            Some(k) => match arith_value(k, args) {
                Some(n) => Some(Term::Num(n)),
                None => None,
            },
            None => None,
        }
    }
}

/// What `Expr::calc` gives on a term: a number stays as it is, a quoted list
/// too, and an operator is reduced.
pub open spec fn calc_term(t: Term) -> Option<Term> {
    match t {
        Term::Op(op, args) => reduce(op, args),
        _ => Some(t),
    }
}

/// Zero and one keep their value under any positive power.
pub proof fn lemma_pow_small(a: nat, b: nat)
    requires
        a <= 1,
        b > 0,
    ensures
        pow(a, b) == a,
    decreases b,
{
    if b > 1 {
        lemma_pow_small(a, (b - 1) as nat);
    }
    if a == 0 {
        assert(pow(a, b) == 0 * pow(a, (b - 1) as nat));
    } else {
        assert(pow(a, b) == 1 * pow(a, (b - 1) as nat));
    }
}

/// Powers of a base of at least one do not shrink as the exponent grows.
pub proof fn lemma_pow_grows(a: nat, b: nat, c: nat)
    requires
        a >= 1,
        b <= c,
    ensures
        pow(a, b) <= pow(a, c),
    decreases c,
{
    if b < c {
        lemma_pow_grows(a, b, (c - 1) as nat);
        assert(pow(a, (c - 1) as nat) <= a * pow(a, (c - 1) as nat)) by (nonlinear_arith)
            requires
                a >= 1,
        ;
    }
}

/// `a` to the power `b`, if it fits.
fn pow_exec(a: Num, b: Num) -> (r: Option<Num>)
    ensures
        r == step(Arith::Pow, a, b),
{
    if b == 0 {
        return Some(1);
    }
    if a <= 1 {
        proof {
            lemma_pow_small(a as nat, b as nat);
        }
        return Some(a);
    }
    let mut acc: u64 = 1;
    let mut i: u32 = 0;
    while i < b
        invariant
            a >= 2,
            i <= b,
            acc == pow(a as nat, i as nat),
            acc <= Num::MAX,
        decreases b - i,
    {
        assert(acc * (a as u64) <= 0xffff_ffffu64 * 0xffff_ffffu64) by (nonlinear_arith)
            requires
                acc <= 0xffff_ffffu64,
                a <= 0xffff_ffffu64,
        ;
        let next = acc * (a as u64);
        assert(pow(a as nat, (i + 1) as nat) == a * pow(a as nat, i as nat));
        assert(next == pow(a as nat, (i + 1) as nat)) by (nonlinear_arith)
            requires
                next == acc * a,
                acc == pow(a as nat, i as nat),
                pow(a as nat, (i + 1) as nat) == a * pow(a as nat, i as nat),
        ;
        if next > Num::MAX as u64 {
            proof {
                lemma_pow_grows(a as nat, (i + 1) as nat, b as nat);
            }
            return None;
        }
        acc = next;
        i = i + 1;
    }
    Some(acc as Num)
}

/// One step of an operator.
fn step_exec(k: Arith, a: Num, b: Num) -> (r: Option<Num>)
    ensures
        r == step(k, a, b),
{
    match k {
        Arith::Add => a.checked_add(b),
        Arith::Sub => a.checked_sub(b),
        Arith::Mul => a.checked_mul(b),
        Arith::Div => if b == 0 {
            None
        } else {
            Some(a / b)
        },
        Arith::Min => if b < a {
            Some(b)
        } else {
            Some(a)
        },
        Arith::Max => if a < b {
            Some(b)
        } else {
            Some(a)
        },
        Arith::Mod => if b == 0 {
            None
        } else {
            Some(a % b)
        },
        Arith::Pow => pow_exec(a, b),
    }
}

/// Whether a zero stands in `ns` at position `from` or after.
fn zero_from(ns: &Vec<Num>, from: usize) -> (r: bool)
    requires
        from <= ns@.len(),
    ensures
        r == ns@.skip(from as int).contains(0),
{
    let mut i: usize = from;
    while i < ns.len()
        invariant
            from <= i <= ns@.len(),
            forall|j: int| from <= j < i ==> ns@[j] != 0,
        decreases ns@.len() - i,
    {
        if ns[i] == 0 {
            assert(ns@.skip(from as int)[i - from] == 0);
            return true;
        }
        i = i + 1;
    }
    proof {
        if ns@.skip(from as int).contains(0) {
            let j = choose|j: int| 0 <= j < ns@.skip(from as int).len() && ns@.skip(from as int)[j] == 0;
            assert(ns@[from + j] == 0);
        }
    }
    false
}

/// The value of an operator on a list of numbers.
fn apply_exec(k: Arith, ns: &Vec<Num>) -> (r: Option<Num>)
    ensures
        r == apply(k, ns@),
{
    let mut acc: Num;
    let mut i: usize;
    match k {
        Arith::Add | Arith::Max => {
            acc = 0;
            i = 0;
            assert(ns@.skip(0) =~= ns@);
        },
        Arith::Min => {
            acc = Num::MAX;
            i = 0;
            assert(ns@.skip(0) =~= ns@);
        },
        _ => {
            if ns.len() == 0 {
                return Some(0);
            }
            if k == Arith::Mul && zero_from(ns, 0) {
                assert(ns@.skip(0) =~= ns@);
                return Some(0);
            }
            if k == Arith::Pow && zero_from(ns, 1) {
                assert(ns@.skip(1) =~= ns@.drop_first());
                return Some(1);
            }
            proof {
                assert(ns@.skip(0) =~= ns@);
                assert(ns@.skip(1) =~= ns@.drop_first());
            }
            acc = ns[0];
            i = 1;
            assert(ns@.skip(1) =~= ns@.drop_first());
        },
    }
    while i < ns.len()
        invariant
            i <= ns@.len(),
            apply(k, ns@) == fold(k, acc, ns@.skip(i as int)),
        decreases ns@.len() - i,
    {
        assert(ns@.skip(i as int).drop_first() =~= ns@.skip(i + 1));
        assert(ns@.skip(i as int)[0] == ns@[i as int]);
        match step_exec(k, acc, ns[i]) {
            Some(a) => {
                acc = a;
            },
            None => {
                return None;
            },
        }
        i = i + 1;
    }
    assert(ns@.skip(i as int).len() == 0);
    Some(acc)
}

/// Once one of the first `j` terms computes to no number, so does a longer prefix.
pub proof fn lemma_values_none(args: Seq<Term>, j: nat, k: nat)
    requires
        j <= k <= args.len(),
        values(args, j) is None,
    ensures
        values(args, k) is None,
    decreases k - j,
{
    if j < k {
        lemma_values_none(args, j, (k - 1) as nat);
    }
}

/// The number an expression computes to.
pub(crate) fn operand(e: &Expr) -> (r: Result<Num, TokensError>)
    ensures
        r is Ok <==> num_of(e@) is Some,
        r is Ok ==> r->Ok_0 == num_of(e@)->Some_0,
        r is Err ==> r->Err_0 is Invalid,
    decreases e, 0nat, 0nat,
{
    match e {
        Expr::Number(n) => Ok(*n),
        Expr::Operator(op, es) => match Expr::switch(op.as_str(), es.as_slice()) {
            Ok(Expr::Number(n)) => Ok(n),
            Ok(_) => Err(TokensError::Invalid),
            Err(x) => Err(x),
        },
        Expr::QExpr(_) => Err(TokensError::Invalid),
    }
}

/// The numbers a list of expressions computes to.
fn operands(v: &[Expr]) -> (r: Result<Vec<Num>, TokensError>)
    ensures
        r is Ok <==> values(terms(v@), v@.len()) is Some,
        r is Ok ==> r->Ok_0@ == values(terms(v@), v@.len())->Some_0,
        r is Err ==> r->Err_0 is Invalid,
    decreases v@, 1nat, 0nat,
{
    let ghost ts = terms(v@);
    proof {
        lemma_terms_of(v@, v@.len());
    }
    let mut ns: Vec<Num> = Vec::new();
    let mut i: usize = 0;
    while i < v.len()
        invariant
            i <= v@.len(),
            ts == terms(v@),
            ts.len() == v@.len(),
            forall|j: int| 0 <= j < v@.len() ==> #[trigger] ts[j] == term_of(v@[j]),
            values(ts, i as nat) == Some(ns@),
        decreases v@.len() - i,
    {
        assert(ts[i as int] == term_of(v@[i as int]));
        match operand(&v[i]) {
            Ok(n) => {
                ns.push(n);
            },
            Err(x) => {
                proof {
                    lemma_values_none(ts, (i + 1) as nat, v@.len());
                }
                return Err(x);
            },
        }
        i = i + 1;
    }
    Ok(ns)
}

/// The value of an arithmetic operator on a list of expressions.
fn arith(k: Arith, v: &[Expr]) -> (r: Result<Expr, TokensError>)
    ensures
        r is Ok <==> arith_value(k, terms(v@)) is Some,
        r is Ok ==> r->Ok_0@ == Term::Num(arith_value(k, terms(v@))->Some_0),
        r is Err ==> r->Err_0 is Invalid,
    decreases v@, 2nat, 0nat,
{
    proof {
        lemma_terms_of(v@, v@.len());
    }
    match operands(v) {
        Ok(ns) => match apply_exec(k, &ns) {
            Some(n) => Ok(Expr::Number(n)),
            None => Err(TokensError::Invalid),
        },
        Err(x) => Err(x),
    }
}

/// The first element of the quoted list that opens `tokens`.
pub fn head(tokens: &[Expr]) -> (r: Result<&Expr, TokensError>)
    ensures
        r is Ok <==> head_term(terms(tokens@)) is Some,
        r is Ok ==> r->Ok_0@ == head_term(terms(tokens@))->Some_0,
        r is Err ==> r->Err_0 is Invalid,
{
    proof {
        lemma_terms_of(tokens@, tokens@.len());
    }
    if tokens.len() == 0 {
        return Err(TokensError::Invalid);
    }
    match &tokens[0] {
        Expr::QExpr(items) => {
            proof {
                lemma_terms_of(items@, items@.len());
            }
            if items.len() == 0 {
                Err(TokensError::Invalid)
            } else {
                Ok(&items[0])
            }
        },
        _ => Err(TokensError::Invalid),
    }
}

/// The sum of the operands, from 0. Fails on an operand that computes to no number,
/// and on overflow, underflow or division by zero.
pub fn add(tokens: &[Expr]) -> (r: Result<Expr, TokensError>)
    ensures
        r is Ok <==> arith_value(Arith::Add, terms(tokens@)) is Some,
        r is Ok ==> r->Ok_0@ == Term::Num(arith_value(Arith::Add, terms(tokens@))->Some_0),
        r is Err ==> r->Err_0 is Invalid,
    decreases tokens@, 2nat, 1nat,
{
    arith(Arith::Add, tokens)
}

/// The first operand minus each of the others; 0 without operands. Fails on an operand that computes to no number,
/// and on overflow, underflow or division by zero.
pub fn sub(tokens: &[Expr]) -> (r: Result<Expr, TokensError>)
    ensures
        r is Ok <==> arith_value(Arith::Sub, terms(tokens@)) is Some,
        r is Ok ==> r->Ok_0@ == Term::Num(arith_value(Arith::Sub, terms(tokens@))->Some_0),
        r is Err ==> r->Err_0 is Invalid,
    decreases tokens@, 2nat, 1nat,
{
    arith(Arith::Sub, tokens)
}

/// The product of the operands; 0 without operands, and 0 with a zero
/// operand. Fails on an operand that computes to no number, and on overflow.
pub fn mul(tokens: &[Expr]) -> (r: Result<Expr, TokensError>)
    ensures
        r is Ok <==> arith_value(Arith::Mul, terms(tokens@)) is Some,
        r is Ok ==> r->Ok_0@ == Term::Num(arith_value(Arith::Mul, terms(tokens@))->Some_0),
        r is Err ==> r->Err_0 is Invalid,
    decreases tokens@, 2nat, 1nat,
{
    arith(Arith::Mul, tokens)
}

/// The first operand divided by each of the others, rounding down; 0 without operands. Fails on an operand that computes to no number,
/// and on overflow, underflow or division by zero.
pub fn div(tokens: &[Expr]) -> (r: Result<Expr, TokensError>)
    ensures
        r is Ok <==> arith_value(Arith::Div, terms(tokens@)) is Some,
        r is Ok ==> r->Ok_0@ == Term::Num(arith_value(Arith::Div, terms(tokens@))->Some_0),
        r is Err ==> r->Err_0 is Invalid,
    decreases tokens@, 2nat, 1nat,
{
    arith(Arith::Div, tokens)
}

/// The least operand; the largest number without operands. Fails on an operand that computes to no number,
/// and on overflow, underflow or division by zero.
pub fn min(tokens: &[Expr]) -> (r: Result<Expr, TokensError>)
    ensures
        r is Ok <==> arith_value(Arith::Min, terms(tokens@)) is Some,
        r is Ok ==> r->Ok_0@ == Term::Num(arith_value(Arith::Min, terms(tokens@))->Some_0),
        r is Err ==> r->Err_0 is Invalid,
    decreases tokens@, 2nat, 1nat,
{
    arith(Arith::Min, tokens)
}

/// The greatest operand; 0 without operands. Fails on an operand that computes to no number,
/// and on overflow, underflow or division by zero.
pub fn max(tokens: &[Expr]) -> (r: Result<Expr, TokensError>)
    ensures
        r is Ok <==> arith_value(Arith::Max, terms(tokens@)) is Some,
        r is Ok ==> r->Ok_0@ == Term::Num(arith_value(Arith::Max, terms(tokens@))->Some_0),
        r is Err ==> r->Err_0 is Invalid,
    decreases tokens@, 2nat, 1nat,
{
    arith(Arith::Max, tokens)
}

/// The first operand reduced modulo each of the others in turn; 0 without operands. Fails on an operand that computes to no number,
/// and on overflow, underflow or division by zero.
pub fn mmod(tokens: &[Expr]) -> (r: Result<Expr, TokensError>)
    ensures
        r is Ok <==> arith_value(Arith::Mod, terms(tokens@)) is Some,
        r is Ok ==> r->Ok_0@ == Term::Num(arith_value(Arith::Mod, terms(tokens@))->Some_0),
        r is Err ==> r->Err_0 is Invalid,
    decreases tokens@, 2nat, 1nat,
{
    arith(Arith::Mod, tokens)
}

/// The first operand raised to each of the others in turn; 0 without
/// operands, and 1 when a later operand is zero. Fails on an operand that
/// computes to no number, and on overflow.
pub fn mi(tokens: &[Expr]) -> (r: Result<Expr, TokensError>)
    ensures
        r is Ok <==> arith_value(Arith::Pow, terms(tokens@)) is Some,
        r is Ok ==> r->Ok_0@ == Term::Num(arith_value(Arith::Pow, terms(tokens@))->Some_0),
        r is Err ==> r->Err_0 is Invalid,
    decreases tokens@, 2nat, 1nat,
{
    arith(Arith::Pow, tokens)
}

} // verus!
