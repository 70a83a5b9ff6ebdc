//! The environment machine. Arguments are not substituted: an application
//! pushes its argument, with the current environment, on a stack of pending
//! arguments; an abstraction binds the innermost pending argument, or, where
//! none is pending, stays in the result and binds a placeholder behind a
//! weakening frame. An irreducible head (a placeholder, a variable free in the
//! whole term, or an atom) is applied to its pending arguments, each normalized
//! on its own. Suspended work sits on an explicit list of frames, so that the
//! depth of the term does not become the depth of the native stack.
//!
//! Indices in the result: a placeholder becomes the number of weakening frames
//! between its use and its binder; a variable free in the whole term keeps the
//! index that remains once every binding frame has taken one, plus the number
//! of weakening frames on the way, so that only binders that normalization kept
//! in the result shift it. A lookup always passes a weakening frame on to its
//! parent, and wraps what it finds there in one more weakening frame.

use std::rc::Rc;
use vstd::prelude::*;
use crate::normal::{is_normal, lemma_normalize_normal};
use crate::term::{app, lam, var, Term};

verus! {

/// An environment: a chain of frames, shared between closures.
pub enum Env<'a> {
    /// The root: no binding at all.
    Nil,
    /// Binds index 0 to a closure; index `i + 1` goes on to the parent as `i`.
    Bind(Closure<'a>, Rc<Env<'a>>),
    /// A binder introduced by normalization under an abstraction; consumes no index.
    Lift(Rc<Env<'a>>),
}

/// What an index is bound to.
pub enum Closure<'a> {
    /// A variable of an abstraction kept in the output; the environment
    /// records how many binders were introduced since it.
    Unbound(Rc<Env<'a>>),
    /// A delayed argument: a subterm and the environment to evaluate it in.
    Bound(&'a Term, Rc<Env<'a>>),
}

/// An argument waiting on the application spine.
pub type Pending<'a> = (&'a Term, Rc<Env<'a>>);

/// The number of weakening frames between `e` and the root.
pub open spec fn weakenings(e: Env) -> nat
    decreases e,
{
    match e {
        Env::Nil => 0,
        Env::Bind(_, p) => weakenings(*p),
        Env::Lift(p) => 1 + weakenings(*p),
    }
}

/// The number of binding frames between `e` and the root.
pub open spec fn bindings(e: Env) -> nat
    decreases e,
{
    match e {
        Env::Nil => 0,
        Env::Bind(_, p) => 1 + bindings(*p),
        Env::Lift(p) => bindings(*p),
    }
}

/// What index `i` is bound to in `e`. A weakening frame passes the lookup on
/// and wraps the environment of what comes back in one more weakening.
pub open spec fn resolve<'a>(i: nat, e: Env<'a>) -> Option<Closure<'a>>
    decreases e,
{
    match e {
        Env::Nil => None,
        Env::Bind(c, p) => if i == 0 { Some(c) } else { resolve((i - 1) as nat, *p) },
        Env::Lift(p) => match resolve(i, *p) {
            None => None,
            Some(Closure::Bound(t, e2)) => Some(Closure::Bound(t, Rc::new(Env::Lift(e2)))),
            Some(Closure::Unbound(e2)) => Some(Closure::Unbound(Rc::new(Env::Lift(e2)))),
        },
    }
}

/// A variable of index `n`, where `n` fits in a `u32`.
pub open spec fn index_var(n: int) -> Option<Term> {
    if 0 <= n <= u32::MAX {
        Some(Term::Var(n as u32))
    } else {
        None
    }
}

/// The control of the machine: a term to evaluate in an environment against
/// its pending arguments (the last one is the innermost), or a normal form
/// handed back to the innermost suspended frame.
pub enum Control<'a> {
    Eval(Term, Env<'a>, Seq<Pending<'a>>),
    Return(Term),
}

/// Work suspended while a subterm is normalized.
pub enum Resume<'a> {
    /// Wraps the normal form in an abstraction.
    Wrap,
    /// Applies the head to the normal form, then goes on with the remaining arguments.
    Args(Term, Seq<Pending<'a>>),
}

/// A state of the machine: its control and its suspended frames, innermost last.
pub struct State<'a> {
    pub control: Control<'a>,
    pub frames: Seq<Resume<'a>>,
}

/// Applies `head` to the arguments of `s`: with none left, hands `head`
/// back; otherwise suspends the rest and normalizes the innermost argument
/// on its own.
pub open spec fn next_argument<'a>(head: Term, s: Seq<Pending<'a>>, frames: Seq<Resume<'a>>) -> State<'a> {
    if s.len() == 0 {
        State { control: Control::Return(head), frames }
    } else {
        State {
            control: Control::Eval(*s.last().0, *s.last().1, seq![]),
            frames: frames.push(Resume::Args(head, s.drop_last())),
        }
    }
}

/// An irreducible head: the variable of index `n`, where `n` fits in a `u32`.
pub open spec fn head_var<'a>(n: int, s: Seq<Pending<'a>>, frames: Seq<Resume<'a>>) -> Option<State<'a>> {
    match index_var(n) {
        Some(h) => Some(next_argument(h, s, frames)),
        None => None,
    }
}

/// A final state: a normal form with nothing suspended.
pub open spec fn is_final(st: State) -> bool {
    st.control is Return && st.frames.len() == 0
}

/// One step of the machine; `None` where a variable of the result would
/// need an index past `u32::MAX`, or the state is final.
pub open spec fn step<'a>(st: State<'a>) -> Option<State<'a>> {
    let frames = st.frames;
    match st.control {
        Control::Eval(t, e, s) => match t {
            Term::Var(i) => match resolve(i as nat, e) {
                Some(Closure::Bound(t2, e2)) => Some(State { control: Control::Eval(*t2, *e2, s), frames }),
                Some(Closure::Unbound(e2)) => head_var(weakenings(*e2) as int, s, frames),
                None => head_var(i - bindings(e) + weakenings(e), s, frames),
            },
            Term::Lam(b) => if s.len() > 0 {
                Some(State {
                    control: Control::Eval(*b, Env::Bind(Closure::Bound(s.last().0, s.last().1), Rc::new(e)), s.drop_last()),
                    frames,
                })
            } else {
                Some(State {
                    control: Control::Eval(*b, Env::Bind(Closure::Unbound(Rc::new(Env::Nil)), Rc::new(Env::Lift(Rc::new(e)))), s),
                    frames: frames.push(Resume::Wrap),
                })
            },
            Term::App(u, v) => Some(State { control: Control::Eval(*u, e, s.push((&*v, Rc::new(e)))), frames }),
            Term::Free(n) => Some(next_argument(Term::Free(n), s, frames)),
        },
        Control::Return(v) => if frames.len() == 0 {
            None
        } else {
            match frames.last() {
                Resume::Wrap => Some(State {
                    control: Control::Return(Term::Lam(Box::new(v))),
                    frames: frames.drop_last(),
                }),
                Resume::Args(h, rest) => Some(next_argument(Term::App(Box::new(h), Box::new(v)), rest, frames.drop_last())),
            }
        },
    }
}

/// The normal form that the machine reaches from `st` in at most `fuel` steps.
pub open spec fn outcome<'a>(fuel: nat, st: State<'a>) -> Option<Term>
    decreases fuel,
{
    if is_final(st) {
        Some(st.control->Return_0)
    } else if fuel == 0 {
        None
    } else {
        match step(st) {
            Some(next) => outcome((fuel - 1) as nat, next),
            None => None,
        }
    }
}

/// The state that evaluates `t` in `e` against the pending arguments `s`.
pub open spec fn start<'a>(t: Term, e: Env<'a>, s: Seq<Pending<'a>>) -> State<'a> {
    State { control: Control::Eval(t, e, s), frames: seq![] }
}

/// The normal form of `t`, reached in at most `fuel` steps of the machine.
pub open spec fn normalize(fuel: nat, t: Term) -> Option<Term> {
    outcome(fuel, start(t, Env::Nil, seq![]))
}

/// The environment behind a shared pointer.
pub open spec fn env_of<'a>(e: &Rc<Env<'a>>) -> Env<'a> {
    **e
}

fn share<'a>(e: &Rc<Env<'a>>) -> (r: Rc<Env<'a>>)
    ensures
        r == *e,
{
    Rc::clone(e)
}

/// `e` under `n` more weakening frames.
pub open spec fn lifted<'a>(n: nat, e: Env<'a>) -> Env<'a>
    decreases n,
{
    if n == 0 {
        e
    } else {
        lifted((n - 1) as nat, Env::Lift(Rc::new(e)))
    }
}

/// The closure `c` with `n` more weakening frames around its environment.
pub open spec fn relift<'a>(n: nat, c: Option<Closure<'a>>) -> Option<Closure<'a>> {
    match c {
        None => None,
        Some(Closure::Bound(t, e)) => Some(Closure::Bound(t, Rc::new(lifted(n, *e)))),
        Some(Closure::Unbound(e)) => Some(Closure::Unbound(Rc::new(lifted(n, *e)))),
    }
}

proof fn lemma_lifted_outer<'a>(n: nat, e: Env<'a>)
    ensures
        lifted(n + 1, e) == Env::Lift(Rc::new(lifted(n, e))),
    decreases n,
{
    let l = Env::Lift(Rc::new(e));
    assert(lifted(n + 1, e) == lifted(n, l));
    if n > 0 {
        lemma_lifted_outer((n - 1) as nat, l);
        assert(lifted(n, e) == lifted((n - 1) as nat, l));
    }
}

proof fn lemma_unbound_past_bindings<'a>(i: nat, e: Env<'a>)
    requires
        resolve(i, e) is None,
    ensures
        i >= bindings(e),
    decreases e,
{
    match e {
        Env::Bind(_, p) => lemma_unbound_past_bindings((i - 1) as nat, env_of(&p)),
        Env::Lift(p) => lemma_unbound_past_bindings(i, env_of(&p)),
        Env::Nil => {},
    }
}

/// The number of weakening frames of `e`, where it fits in a `u32`.
fn level(e: &Env) -> (r: Option<u32>)
    ensures
        match r {
            Some(k) => k == weakenings(*e),
            None => weakenings(*e) > u32::MAX,
        },
{
    let mut cur: &Env = e;
    let mut n: u32 = 0;
    loop
        invariant
            n + weakenings(*cur) == weakenings(*e),
        decreases *cur,
    {
        match cur {
            Env::Nil => return Some(n),
            Env::Bind(_, p) => cur = &**p,
            Env::Lift(p) => {
                if n == u32::MAX {
                    return None;
                }
                n = n + 1;
                cur = &**p;
            },
        }
    }
}

/// The index in the output of a variable that `e` leaves free.
fn free_index(i: u32, e: &Env) -> (r: Option<u32>)
    requires
        resolve(i as nat, *e) is None,
    ensures
        match r {
            Some(k) => k == i - bindings(*e) + weakenings(*e),
            None => i - bindings(*e) + weakenings(*e) > u32::MAX,
        },
{
    let mut cur: &Env = e;
    let mut j: u32 = i;
    let mut n: u32 = 0;
    loop
        invariant
            resolve(j as nat, *cur) is None,
            j - bindings(*cur) + weakenings(*cur) + n == i - bindings(*e) + weakenings(*e),
        decreases *cur,
    {
        proof {
            lemma_unbound_past_bindings(j as nat, *cur);
        }
        match cur {
            Env::Nil => return if j <= u32::MAX - n { Some(j + n) } else { None },
            Env::Bind(_, p) => {
                j = j - 1;
                cur = &**p;
            },
            Env::Lift(p) => {
                if n == u32::MAX {
                    return None;
                }
                n = n + 1;
                cur = &**p;
            },
        }
    }
}

/// `e` under `n` more weakening frames.
fn weaken<'a>(e: Rc<Env<'a>>, n: usize) -> (r: Rc<Env<'a>>)
    ensures
        *r == lifted(n as nat, *e),
{
    let mut acc: Rc<Env<'a>> = share(&e);
    let mut k: usize = 0;
    while k < n
        invariant
            k <= n,
            *acc == lifted(k as nat, *e),
        decreases n - k,
    {
        proof {
            lemma_lifted_outer(k as nat, env_of(&e));
        }
        acc = Rc::new(Env::Lift(acc));
        k = k + 1;
    }
    acc
}

/// Looks index `i` up in `e`. Each weakening frame passed on the way wraps
/// the environment of the closure found in one more weakening frame.
fn fetch<'a>(i: u32, e: &Rc<Env<'a>>) -> (r: Option<Closure<'a>>)
    ensures
        r == resolve(i as nat, **e),
{
    let mut cur: &Rc<Env<'a>> = e;
    let mut j: u32 = i;
    let mut passed: Vec<()> = Vec::new();
    loop
        invariant
            resolve(i as nat, **e) == relift(passed@.len(), resolve(j as nat, **cur)),
        decreases **cur,
    {
        match &**cur {
            Env::Nil => return None,
            Env::Bind(c, p) => {
                if j == 0 {
                    return match c {
                        Closure::Bound(t, e2) => Some(Closure::Bound(*t, weaken(share(e2), passed.len()))),
                        Closure::Unbound(e2) => Some(Closure::Unbound(weaken(share(e2), passed.len()))),
                    };
                }
                j = j - 1;
                cur = p;
            },
            Env::Lift(p) => {
                passed.push(());
                cur = p;
            },
        }
    }
}

/// Work suspended while a subterm is normalized.
pub enum Frame<'a> {
    Wrap,
    Args(Box<Term>, Vec<Pending<'a>>),
}

impl<'a> Frame<'a> {
    pub open spec fn model(&self) -> Resume<'a> {
        match self {
            Frame::Wrap => Resume::Wrap,
            Frame::Args(h, rest) => Resume::Args(**h, rest@),
        }
    }
}

/// The suspended frames `fs` hold the work that `m` describes.
pub open spec fn frames_match<'a>(fs: Seq<Frame<'a>>, m: Seq<Resume<'a>>) -> bool {
    fs.len() == m.len() && forall|j: int| 0 <= j < fs.len() ==> (#[trigger] fs[j]).model() == m[j]
}

/// What the machine does next after an irreducible head.
enum Next<'a> {
    Value(Box<Term>),
    Go(&'a Term, Rc<Env<'a>>),
}

/// Applies `head` to the arguments of `stack`: hands it back when none is
/// left, or suspends the rest on `frames` and starts on the innermost one.
fn next_arg<'a>(head: Box<Term>, stack: &mut Vec<Pending<'a>>, frames: &mut Vec<Frame<'a>>, Ghost(m): Ghost<Seq<Resume<'a>>>) -> (r: (Next<'a>, Ghost<Seq<Resume<'a>>>))
    requires
        frames_match(old(frames)@, m),
    ensures
        frames_match(final(frames)@, r.1@),
        next_argument(*head, old(stack)@, m) == (match r.0 {
            Next::Value(v) => State { control: Control::Return(*v), frames: r.1@ },
            Next::Go(t, e) => State { control: Control::Eval(*t, *e, final(stack)@), frames: r.1@ },
        }),
{
    match stack.pop() {
        None => (Next::Value(head), Ghost(m)),
        Some((t, e)) => {
            let mut rest: Vec<Pending<'a>> = Vec::new();
            std::mem::swap(stack, &mut rest);
            let ghost m2 = m.push(Resume::Args(*head, rest@));
            frames.push(Frame::Args(head, rest));
            assert(frames_match(frames@, m2)) by {
                assert forall|j: int| 0 <= j < frames@.len() implies (#[trigger] frames@[j]).model() == m2[j] by {
                    if j < m.len() {
                        assert(frames@[j] == old(frames)@[j]);
                    }
                }
            }
            (Next::Go(t, e), Ghost(m2))
        },
    }
}

/// The current control: the value handed back, or the term under evaluation.
pub open spec fn control_of<'a>(value: Option<Box<Term>>, t: Term, e: Env<'a>, s: Seq<Pending<'a>>) -> Control<'a> {
    match value {
        Some(v) => Control::Return(*v),
        None => Control::Eval(t, e, s),
    }
}

/// Runs the machine from `t` in `e` against the pending arguments `s`, for at
/// most `fuel` steps, keeping suspended work on an explicit list of frames.
fn eval_aux<'a>(t: &'a Term, e: Rc<Env<'a>>, s: &mut Vec<Pending<'a>>, fuel: u64) -> (r: Option<Box<Term>>)
    ensures
        r == (match outcome(fuel as nat, start(*t, *e, old(s)@)) {
            Some(n) => Some(Box::new(n)),
            None => None,
        }),
{
    let mut cur_t: &'a Term = t;
    let mut cur_e: Rc<Env<'a>> = share(&e);
    let mut stack: Vec<Pending<'a>> = Vec::new();
    std::mem::swap(s, &mut stack);
    let mut value: Option<Box<Term>> = None;
    let mut frames: Vec<Frame<'a>> = Vec::new();
    let ghost mut m: Seq<Resume<'a>> = seq![];
    let mut left: u64 = fuel;
    loop
        invariant
            left <= fuel,
            frames_match(frames@, m),
            outcome(left as nat, State { control: control_of(value, *cur_t, env_of(&cur_e), stack@), frames: m })
                == outcome(fuel as nat, start(*t, env_of(&e), old(s)@)),
        decreases left,
    {
        let ghost st = State { control: control_of(value, *cur_t, env_of(&cur_e), stack@), frames: m };
        if value.is_some() && frames.len() == 0 {
            return value;
        }
        if left == 0 {
            return None;
        }
        left = left - 1;
        let mut head: Option<Box<Term>> = None;
        match value {
            Some(v) => {
                let ghost before = frames@;
                match frames.pop() {
                    Some(Frame::Wrap) => {
                        value = Some(lam(v));
                    },
                    Some(Frame::Args(h, rest)) => {
                        value = None;
                        stack = rest;
                        head = Some(app(h, v));
                    },
                    None => return None,
                }
                proof {
                    assert(before.last().model() == m.last());
                    m = m.drop_last();
                    assert forall|j: int| 0 <= j < frames@.len() implies (#[trigger] frames@[j]).model() == m[j] by {
                        assert(frames@[j] == before[j]);
                    }
                }
            },
            None => match cur_t {
                Term::Var(i) => match fetch(*i, &cur_e) {
                    Some(Closure::Bound(t2, e2)) => {
                        cur_t = t2;
                        cur_e = e2;
                    },
                    Some(Closure::Unbound(e2)) => match level(&e2) {
                        Some(k) => head = Some(var(k)),
                        None => return None,
                    },
                    None => match free_index(*i, &cur_e) {
                        Some(k) => head = Some(var(k)),
                        None => return None,
                    },
                },
                Term::Lam(b) => match stack.pop() {
                    Some(c) => {
                        cur_e = Rc::new(Env::Bind(Closure::Bound(c.0, c.1), cur_e));
                        cur_t = &**b;
                    },
                    None => {
                        cur_e = Rc::new(Env::Bind(Closure::Unbound(Rc::new(Env::Nil)), Rc::new(Env::Lift(cur_e))));
                        cur_t = &**b;
                        let ghost before = frames@;
                        frames.push(Frame::Wrap);
                        proof {
                            let m0 = m;
                            m = m.push(Resume::Wrap);
                            assert forall|j: int| 0 <= j < frames@.len() implies (#[trigger] frames@[j]).model() == m[j] by {
                                if j < m0.len() {
                                    assert(frames@[j] == before[j]);
                                }
                            }
                        }
                    },
                },
                Term::App(u, v) => {
                    stack.push((&**v, share(&cur_e)));
                    cur_t = &**u;
                },
                Term::Free(n) => head = Some(Box::new(Term::Free(n.clone()))),
            },
        }
        match head {
            Some(h) => {
                let (next, Ghost(m2)) = next_arg(h, &mut stack, &mut frames, Ghost(m));
                proof {
                    m = m2;
                }
                match next {
                    Next::Value(x) => value = Some(x),
                    Next::Go(t2, e2) => {
                        cur_t = t2;
                        cur_e = e2;
                    },
                }
            },
            None => {},
        }
        assert(step(st) == Some(State { control: control_of(value, *cur_t, env_of(&cur_e), stack@), frames: m }));
    }
}

/// Normalizes `t` in normal order, under abstractions too. Gives up (with
/// `None`) where more than `fuel` steps of the machine would be needed, or
/// where an index of the result would not fit in a `u32`.
pub fn eval(t: Box<Term>, fuel: u64) -> (r: Option<Box<Term>>)
    ensures
        r == (match normalize(fuel as nat, *t) {
            Some(n) => Some(Box::new(n)),
            None => None,
        }),
        r matches Some(n) ==> is_normal(*n),
{
    proof {
        lemma_normalize_normal(fuel as nat, *t);
    }
    let mut s: Vec<Pending> = Vec::new();
    eval_aux(&*t, Rc::new(Env::Nil), &mut s, fuel)
}

} // verus!
