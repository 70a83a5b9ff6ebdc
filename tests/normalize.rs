use rusty::{app, eval, free, lam, to_string, var, Term};

fn church(k: u8) -> Box<Term> {
    let mut b = var(0);
    for _ in 0..k {
        b = app(var(1), b);
    }
    lam(lam(b))
}

fn normal(t: Box<Term>) -> Box<Term> {
    eval(t, u64::MAX).expect("the term has a normal form")
}

#[test]
fn it_works() {
    assert_eq!(2 + 2, 4);
}

#[test]
fn prints_identity() {
    assert_eq!(to_string(&lam(var(0))), "λ.0");
}

#[test]
fn prints_every_form() {
    let t = lam(app(app(free("f"), var(12)), lam(var(0))));
    assert_eq!(to_string(&t), "λ.((f) 12) λ.0");
    assert_eq!(to_string(&var(4294967295)), "4294967295");
    assert_eq!(to_string(&var(10)), "10");
}

#[test]
fn keeps_outer_reference_apart_from_inner_binder() {
    let t = lam(app(var(1), lam(var(0))));
    let r = normal(t);
    assert_eq!(*r, *lam(app(var(1), lam(var(0)))));
    assert_eq!(to_string(&r), "λ.(1) λ.0");
}

#[test]
fn shifts_free_variable_by_new_binders_only() {
    // (λ.λ.1) 0 reduces to λ.1: the argument moves under one new binder.
    let t = app(lam(lam(var(1))), var(0));
    assert_eq!(*normal(t), *lam(var(1)));
}

#[test]
fn lookup_through_weakening_keeps_bound_index() {
    // λ.λ.1 is normal: the outer variable seen under the inner binder stays 1.
    let t = lam(lam(var(1)));
    assert_eq!(*normal(t), *lam(lam(var(1))));
}

#[test]
fn reduces_simple_redex() {
    let t = app(lam(var(0)), free("x"));
    assert_eq!(*normal(t), *free("x"));
}

#[test]
fn identity_is_normal() {
    assert_eq!(*normal(lam(var(0))), *lam(var(0)));
}

#[test]
fn church_three_of_two_is_eight() {
    let r = normal(app(church(3), church(2)));
    assert_eq!(*r, *church(8));
    assert_eq!(to_string(&r), to_string(&church(8)));
}

#[test]
fn folds_atom_applications_in_order() {
    let t = app(app(free("a"), free("b")), free("c"));
    let r = normal(t);
    assert_eq!(to_string(&r), "((a) b) c");
}

#[test]
fn normalizes_arguments_of_atom() {
    let t = app(free("a"), app(lam(var(0)), free("b")));
    assert_eq!(to_string(&normal(t)), "(a) b");
}

#[test]
fn normalizing_twice_changes_nothing() {
    let t = app(app(church(2), church(2)), free("s"));
    let once = normal(t);
    let twice = normal(Box::new(copy(&once)));
    assert_eq!(*once, *twice);
    let open = app(lam(lam(app(var(2), var(1)))), free("z"));
    let once = normal(open);
    assert_eq!(*once, *lam(app(var(1), free("z"))));
    assert_eq!(*normal(Box::new(copy(&once))), *once);
}

#[test]
fn divergent_term_runs_out_of_fuel() {
    let delta = || lam(app(var(0), var(0)));
    assert!(eval(app(delta(), delta()), 1000).is_none());
}

#[test]
fn zero_fuel_gives_nothing() {
    assert!(eval(var(0), 0).is_none());
    assert_eq!(*eval(var(3), 1).unwrap(), *var(3));
}

#[test]
fn index_past_u32_is_refused() {
    let t = app(lam(lam(var(1))), var(4294967295));
    assert!(eval(t, u64::MAX).is_none());
}

fn copy(t: &Term) -> Term {
    match t {
        Term::Var(i) => Term::Var(*i),
        Term::Lam(b) => Term::Lam(Box::new(copy(b))),
        Term::App(u, v) => Term::App(Box::new(copy(u)), Box::new(copy(v))),
        Term::Free(n) => Term::Free(n.clone()),
    }
}
