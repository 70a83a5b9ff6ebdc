use vstd::prelude::*;
use vstd::string::*;

verus! {

/// A lambda term with De Bruijn indices.
#[derive(Debug, PartialEq, Eq)]
pub enum Term {
    /// A bound variable: the number of binders between the use and its binder.
    Var(u32),
    /// An abstraction around its body.
    Lam(Box<Term>),
    /// An application of a function to an argument.
    App(Box<Term>, Box<Term>),
    /// An uninterpreted atom, never reduced.
    Free(String),
}

/// Builds `Var(n)`.
pub fn var(n: u32) -> (r: Box<Term>)
    ensures
        *r == Term::Var(n),
{
    Box::new(Term::Var(n))
}

/// Builds `Lam(t)`.
pub fn lam(t: Box<Term>) -> (r: Box<Term>)
    ensures
        *r == Term::Lam(t),
{
    Box::new(Term::Lam(t))
}

/// Builds `App(u, v)`.
pub fn app(u: Box<Term>, v: Box<Term>) -> (r: Box<Term>)
    ensures
        *r == Term::App(u, v),
{
    Box::new(Term::App(u, v))
}

/// Builds the atom `Free(name)`.
pub fn free(name: &str) -> (r: Box<Term>)
    ensures
        *r matches Term::Free(n) && n@ == name@,
{
    Box::new(Term::Free(name.to_owned()))
}

/// The character of a decimal digit.
pub open spec fn digit_char(d: nat) -> char {
    if d == 0 { '0' }
    else if d == 1 { '1' }
    else if d == 2 { '2' }
    else if d == 3 { '3' }
    else if d == 4 { '4' }
    else if d == 5 { '5' }
    else if d == 6 { '6' }
    else if d == 7 { '7' }
    else if d == 8 { '8' }
    else { '9' }
}

/// The decimal notation of `n`, without leading zeros.
pub open spec fn decimal(n: nat) -> Seq<char>
    decreases n,
{
    if n < 10 {
        seq![digit_char(n)]
    } else {
        decimal(n / 10).push(digit_char(n % 10))
    }
}

/// The printed form of a term: an index in decimal, `λ.` before a body,
/// `(u) v` for an application, and an atom's name as it stands.
pub open spec fn print(t: Term) -> Seq<char>
    decreases t,
{
    match t {
        Term::Var(i) => decimal(i as nat),
        Term::Lam(b) => seq!['λ', '.'] + print(*b),
        Term::App(u, v) => seq!['('] + print(*u) + seq![')', ' '] + print(*v),
        Term::Free(name) => name@,
    }
}

fn digit_str(d: u32) -> (r: &'static str)
    requires
        d < 10,
    ensures
        r@ == seq![digit_char(d as nat)],
{
    proof {
        reveal_strlit("0");
        reveal_strlit("1");
        reveal_strlit("2");
        reveal_strlit("3");
        reveal_strlit("4");
        reveal_strlit("5");
        reveal_strlit("6");
        reveal_strlit("7");
        reveal_strlit("8");
        reveal_strlit("9");
    }
    let r = if d == 0 { "0" }
    else if d == 1 { "1" }
    else if d == 2 { "2" }
    else if d == 3 { "3" }
    else if d == 4 { "4" }
    else if d == 5 { "5" }
    else if d == 6 { "6" }
    else if d == 7 { "7" }
    else if d == 8 { "8" }
    else { "9" };
    assert(r@ =~= seq![digit_char(d as nat)]);
    r
}

fn push_decimal(out: &mut String, n: u32)
    ensures
        final(out)@ == old(out)@ + decimal(n as nat),
    decreases n,
{
    if n >= 10 {
        push_decimal(out, n / 10);
    }
    out.append(digit_str(n % 10));
    assert(final(out)@ =~= old(out)@ + decimal(n as nat));
}

fn push_term(out: &mut String, t: &Term)
    ensures
        final(out)@ == old(out)@ + print(*t),
    decreases t,
{
    proof {
        reveal_strlit("λ.");
        reveal_strlit("(");
        reveal_strlit(") ");
    }
    match t {
        Term::Var(i) => push_decimal(out, *i),
        Term::Lam(b) => {
            out.append("λ.");
            push_term(out, b);
        },
        Term::App(u, v) => {
            out.append("(");
            push_term(out, u);
            out.append(") ");
            push_term(out, v);
        },
        Term::Free(name) => out.append(name.as_str()),
    }
    assert(final(out)@ =~= old(out)@ + print(*t));
}

/// Renders a term as `print` describes it.
pub fn to_string(t: &Term) -> (r: String)
    ensures
        r@ == print(*t),
{
    let mut out = String::new();
    push_term(&mut out, t);
    assert(out@ =~= print(*t));
    out
}

} // verus!
