use std::rc::Rc;
use vstd::prelude::*;
use crate::machine::{
    bindings, env_of, is_final, next_argument, normalize, outcome, resolve, start, step, weakenings,
    Closure, Control, Env, Pending, Resume, State,
};
use crate::term::Term;

verus! {

/// A term in beta-normal form: abstractions over a neutral term.
pub open spec fn is_normal(t: Term) -> bool
    decreases t,
{
    match t {
        Term::Lam(b) => is_normal(*b),
        Term::App(u, v) => is_neutral(*u) && is_normal(*v),
        _ => true,
    }
}

/// A variable or an atom applied to normal arguments.
pub open spec fn is_neutral(t: Term) -> bool
    decreases t,
{
    match t {
        Term::Lam(_) => false,
        Term::App(u, v) => is_neutral(*u) && is_normal(*v),
        _ => true,
    }
}

/// The environment under `k` abstractions that normalization kept, with no argument bound.
pub open spec fn under<'a>(k: nat) -> Env<'a>
    decreases k,
{
    if k == 0 {
        Env::Nil
    } else {
        Env::Bind(Closure::Unbound(Rc::new(Env::Nil)), Rc::new(Env::Lift(Rc::new(under((k - 1) as nat)))))
    }
}

/// `head` applied to the arguments of `s`, innermost (last) first.
pub open spec fn apply<'a>(head: Term, s: Seq<Pending<'a>>) -> Term
    decreases s.len(),
{
    if s.len() == 0 {
        head
    } else {
        apply(Term::App(Box::new(head), Box::new(*s.last().0)), s.drop_last())
    }
}

proof fn lemma_neutral_is_normal(t: Term)
    requires
        is_neutral(t),
    ensures
        is_normal(t),
{
}

proof fn lemma_resolve_under(i: nat, k: nat)
    ensures
        bindings(under(k)) == k,
        weakenings(under(k)) == k,
        i < k ==> (resolve(i, under(k)) matches Some(Closure::Unbound(e2)) && weakenings(env_of(&e2)) == i),
        i >= k ==> resolve(i, under(k)) is None,
    decreases k,
{
    if k > 0 {
        let p: Env = Env::Lift(Rc::new(under((k - 1) as nat)));
        assert(bindings(p) == bindings(under((k - 1) as nat)));
        assert(weakenings(p) == 1 + weakenings(under((k - 1) as nat)));
        reveal_with_fuel(resolve, 2);
        if i > 0 {
            lemma_resolve_under((i - 1) as nat, (k - 1) as nat);
        } else {
            lemma_resolve_under(0, (k - 1) as nat);
        }
    }
}

/// The number of machine steps that normalizing a normal form takes: one per
/// node, and one more for handing back each abstraction's body and each argument.
pub open spec fn cost(t: Term) -> nat
    decreases t,
{
    match t {
        Term::Lam(b) => cost(*b) + 2,
        Term::App(u, v) => cost(*u) + cost(*v) + 2,
        _ => 1,
    }
}

/// The steps that the pending arguments of `s` take, each handed back after its own.
pub open spec fn pending_cost<'a>(s: Seq<Pending<'a>>) -> nat
    decreases s.len(),
{
    if s.len() == 0 {
        0
    } else {
        cost(*s.last().0) + 1 + pending_cost(s.drop_last())
    }
}

/// Every normal form handed back is normal, and every suspended head is neutral.
pub open spec fn sound_state<'a>(st: State<'a>) -> bool {
    &&& (st.control matches Control::Return(v) ==> is_normal(v))
    &&& forall|j: int| 0 <= j < st.frames.len() ==> (#[trigger] st.frames[j] matches Resume::Args(h, _) ==> is_neutral(h))
}

proof fn lemma_next_argument_sound<'a>(h: Term, s: Seq<Pending<'a>>, frames: Seq<Resume<'a>>)
    requires
        is_neutral(h),
        sound_state(State { control: Control::Return(h), frames }),
    ensures
        sound_state(next_argument(h, s, frames)),
{
    lemma_neutral_is_normal(h);
    if s.len() > 0 {
        let f2 = frames.push(Resume::Args(h, s.drop_last()));
        assert forall|j: int| 0 <= j < f2.len() implies (#[trigger] f2[j] matches Resume::Args(h2, _) ==> is_neutral(h2)) by {
            if j < frames.len() {
                assert(f2[j] == frames[j]);
            }
        }
    }
}

proof fn lemma_step_sound<'a>(st: State<'a>)
    requires
        sound_state(st),
    ensures
        step(st) matches Some(next) ==> sound_state(next),
{
    let frames = st.frames;
    if frames.len() > 0 {
        assert forall|j: int| 0 <= j < frames.drop_last().len() implies (#[trigger] frames.drop_last()[j] matches Resume::Args(h2, _) ==> is_neutral(h2)) by {
            assert(frames.drop_last()[j] == frames[j]);
        }
    }
    assert forall|j: int| 0 <= j < frames.push(Resume::Wrap).len() implies (#[trigger] frames.push(Resume::Wrap)[j] matches Resume::Args(h2, _) ==> is_neutral(h2)) by {
        if j < frames.len() {
            assert(frames.push(Resume::Wrap)[j] == frames[j]);
        }
    }
    match st.control {
        Control::Eval(t, e, s) => match t {
            Term::Var(i) => {
                lemma_next_argument_sound(Term::Var(i), s, frames);
                if let Some(Closure::Unbound(e2)) = resolve(i as nat, e) {
                    if weakenings(env_of(&e2)) <= u32::MAX {
                        lemma_next_argument_sound(Term::Var(weakenings(env_of(&e2)) as u32), s, frames);
                    }
                } else if 0 <= i - bindings(e) + weakenings(e) <= u32::MAX {
                    lemma_next_argument_sound(Term::Var((i - bindings(e) + weakenings(e)) as u32), s, frames);
                }
            },
            Term::Free(n) => lemma_next_argument_sound(Term::Free(n), s, frames),
            _ => {},
        },
        Control::Return(v) => if frames.len() > 0 {
            if let Resume::Args(h, rest) = frames.last() {
                let a = Term::App(Box::new(h), Box::new(v));
                lemma_next_argument_sound(a, rest, frames.drop_last());
            }
        },
    }
}

proof fn lemma_outcome_sound<'a>(fuel: nat, st: State<'a>)
    requires
        sound_state(st),
    ensures
        outcome(fuel, st) matches Some(r) ==> is_normal(r),
    decreases fuel,
{
    if !is_final(st) && fuel > 0 {
        lemma_step_sound(st);
        if let Some(next) = step(st) {
            lemma_outcome_sound((fuel - 1) as nat, next);
        }
    }
}

/// Every result of normalization is in beta-normal form.
pub proof fn lemma_normalize_normal(fuel: nat, t: Term)
    ensures
        normalize(fuel, t) matches Some(r) ==> is_normal(r),
{
    lemma_outcome_sound(fuel, start(t, Env::Nil, seq![]));
}

proof fn lemma_spine_fixed<'a>(fuel: nat, head: Term, k: nat, s: Seq<Pending<'a>>, frames: Seq<Resume<'a>>)
    requires
        fuel >= pending_cost(s),
        forall|j: int| 0 <= j < s.len() ==> env_of(&s[j].1) == under(k) && is_normal(*s[j].0),
    ensures
        outcome(fuel, next_argument(head, s, frames))
            == outcome((fuel - pending_cost(s)) as nat, State { control: Control::Return(apply(head, s)), frames }),
    decreases fuel, 3int,
{
    if s.len() > 0 {
        let a = *s.last().0;
        let rest = s.drop_last();
        let inner = frames.push(Resume::Args(head, rest));
        lemma_fixed_under(fuel, a, k, env_of(&s.last().1), inner);
        let left = (fuel - cost(a)) as nat;
        let back = State { control: Control::Return(a), frames: inner };
        assert(inner.drop_last() =~= frames);
        assert(inner.last() == Resume::Args(head, rest));
        assert(step(back) == Some(next_argument(Term::App(Box::new(head), Box::new(a)), rest, frames)));
        lemma_spine_fixed((left - 1) as nat, Term::App(Box::new(head), Box::new(a)), k, rest, frames);
    }
}

proof fn lemma_neutral_fixed<'a>(fuel: nat, n: Term, k: nat, s: Seq<Pending<'a>>, frames: Seq<Resume<'a>>)
    requires
        is_neutral(n),
        fuel >= cost(n) + pending_cost(s),
        forall|j: int| 0 <= j < s.len() ==> env_of(&s[j].1) == under(k) && is_normal(*s[j].0),
    ensures
        outcome(fuel, State { control: Control::Eval(n, under(k), s), frames })
            == outcome((fuel - cost(n) - pending_cost(s)) as nat, State { control: Control::Return(apply(n, s)), frames }),
    decreases fuel, 1int,
{
    let f: nat = (fuel - 1) as nat;
    match n {
        Term::App(u, v) => {
            let s2 = s.push((&*v, Rc::new(under(k))));
            assert forall|j: int| 0 <= j < s2.len() implies env_of(&s2[j].1) == under(k) && is_normal(*s2[j].0) by {
                if j < s.len() {
                    assert(s2[j] == s[j]);
                }
            }
            assert(s2.drop_last() =~= s);
            lemma_neutral_fixed(f, *u, k, s2, frames);
        },
        Term::Var(i) => {
            lemma_resolve_under(i as nat, k);
            lemma_spine_fixed(f, n, k, s, frames);
        },
        Term::Free(_) => {
            lemma_spine_fixed(f, n, k, s, frames);
        },
        Term::Lam(_) => {},
    }
}

proof fn lemma_fixed_under<'a>(fuel: nat, t: Term, k: nat, e: Env<'a>, frames: Seq<Resume<'a>>)
    requires
        is_normal(t),
        fuel >= cost(t),
        e == under::<'a>(k),
    ensures
        outcome(fuel, State { control: Control::Eval(t, e, seq![]), frames })
            == outcome((fuel - cost(t)) as nat, State { control: Control::Return(t), frames }),
    decreases fuel, 2int,
{
    match t {
        Term::Lam(b) => {
            let inner = frames.push(Resume::Wrap);
            lemma_fixed_under((fuel - 1) as nat, *b, k + 1, under::<'a>(k + 1), inner);
            let back = State { control: Control::Return(*b), frames: inner };
            assert(inner.drop_last() =~= frames);
            assert(step(back) == Some(State { control: Control::Return(t), frames }));
        },
        _ => {
            let empty: Seq<Pending<'a>> = seq![];
            lemma_neutral_fixed(fuel, t, k, empty, frames);
        },
    }
}

/// A term in beta-normal form is its own normal form, given `cost(t)` steps.
pub proof fn lemma_normal_form_fixed(fuel: nat, t: Term)
    requires
        is_normal(t),
        fuel >= cost(t),
    ensures
        normalize(fuel, t) == Some(t),
{
    let none: Seq<Resume> = seq![];
    lemma_fixed_under(fuel, t, 0, Env::Nil, none);
}

/// Normalizing a normal form again gives it back unchanged.
pub proof fn lemma_normalize_idempotent(fuel: nat, t: Term, again: nat)
    requires
        normalize(fuel, t) is Some,
        again >= cost(normalize(fuel, t)->0),
    ensures
        normalize(again, normalize(fuel, t)->0) == normalize(fuel, t),
{
    lemma_normalize_normal(fuel, t);
    lemma_normal_form_fixed(again, normalize(fuel, t)->0);
}

} // verus!
