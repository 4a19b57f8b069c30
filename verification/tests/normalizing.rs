use pts_kernel::normalizer::{advance, normalize_step, stops, MAX_PASSES};
use pts_kernel::term::{normalize, Bind, Sort, Term};
use std::time::Duration;

fn var(index: i32) -> Term {
    Term::Variable { index }
}

fn app(function: Term, argument: Term) -> Term {
    Term::Application { function: Box::new(function), argument: Box::new(argument) }
}

fn lam(annotation: Term, body: Term) -> Term {
    Term::Binder { bind: Bind::Term, type_annotation: Box::new(annotation), body: Box::new(body) }
}

fn pi(annotation: Term, body: Term) -> Term {
    Term::Binder { bind: Bind::Type, type_annotation: Box::new(annotation), body: Box::new(body) }
}

fn star() -> Term {
    Term::Constant(Sort::Type)
}

fn omega() -> Term {
    let half = lam(star(), app(var(0), var(0)));
    app(half.clone(), half)
}

#[test]
fn normalize_step_leaves_normal_terms_alone() {
    assert_eq!(normalize_step(star()), Some((star(), true)));
    assert_eq!(normalize_step(var(3)), Some((var(3), true)));
    let stuck = app(var(0), lam(star(), var(0)));
    assert_eq!(normalize_step(stuck.clone()), Some((stuck, true)));
}

#[test]
fn normalize_step_reduces_an_application_of_a_binder() {
    let redex = app(lam(star(), var(0)), var(4));
    assert_eq!(normalize_step(redex), Some((var(4), false)));
    let pi_redex = app(pi(star(), app(var(0), var(1))), var(7));
    assert_eq!(normalize_step(pi_redex), Some((app(var(7), var(0)), false)));
}

#[test]
fn normalize_step_rewrites_bodies_but_not_annotations() {
    let redex = app(lam(star(), var(0)), var(4));
    let term = lam(redex.clone(), redex.clone());
    assert_eq!(normalize_step(term), Some((lam(redex.clone(), var(4)), false)));
    let in_annotation = lam(redex.clone(), var(0));
    assert_eq!(normalize_step(in_annotation.clone()), Some((in_annotation, true)));
}

#[test]
fn normalize_step_reduces_once_where_the_rewritten_function_is_a_binder() {
    let identity = lam(star(), var(0));
    let term = app(app(identity.clone(), identity.clone()), var(2));
    assert_eq!(normalize_step(term), Some((var(2), false)));
}

#[test]
fn normalize_step_is_parallel() {
    let redex = app(lam(star(), var(0)), var(4));
    let term = app(var(9), app(redex.clone(), redex));
    assert_eq!(normalize_step(term), Some((app(var(9), app(var(4), var(4))), false)));
}

#[test]
fn normalize_step_gives_none_when_a_beta_step_leaves_the_range() {
    let term = app(lam(star(), var(0)), var(i32::MAX));
    assert_eq!(normalize_step(term), None);
}

#[test]
fn normalize_reaches_the_normal_form() {
    let identity = lam(star(), var(0));
    let term = app(identity.clone(), app(identity.clone(), app(identity, var(1))));
    assert_eq!(normalize(term, None), var(1));
    let constant = lam(star(), lam(star(), var(1)));
    let nested = lam(star(), app(app(constant, var(0)), var(5)));
    assert_eq!(normalize(nested, None), lam(star(), var(0)));
}

#[test]
fn normalize_is_idempotent() {
    let identity = lam(star(), var(0));
    let terms = vec![
        star(),
        var(0),
        app(identity.clone(), var(3)),
        lam(app(identity.clone(), star()), app(app(identity.clone(), identity.clone()), var(0))),
        app(var(1), app(identity.clone(), identity)),
    ];
    for term in terms {
        let once = normalize(term, None);
        assert_eq!(normalize(once.clone(), None), once);
    }
}

#[test]
fn normalize_returns_the_term_when_the_first_pass_leaves_the_range() {
    let term = app(lam(star(), var(0)), var(i32::MAX));
    assert_eq!(normalize(term.clone(), None), term);
}

#[test]
fn normalize_stops_when_the_budget_is_spent() {
    assert_eq!(normalize(omega(), Some(Duration::from_nanos(0))), omega());
    assert_eq!(normalize(omega(), Some(Duration::from_millis(20))), omega());
}

#[test]
fn normalize_with_a_budget_finishes_short_work() {
    let term = app(lam(star(), var(0)), var(4));
    assert_eq!(normalize(term, Some(Duration::from_secs(3600))), var(4));
}

#[test]
fn the_pass_budget_is_the_whole_range_of_the_counter() {
    assert_eq!(MAX_PASSES, u64::MAX);
}

fn scoped(term: &Term, depth: i64) -> bool {
    match term {
        Term::Constant(_) => true,
        Term::Variable { index } => 0 <= *index && (*index as i64) < depth,
        Term::Application { function, argument } => scoped(function, depth) && scoped(argument, depth),
        Term::Binder { type_annotation, body, .. } => {
            scoped(type_annotation, depth) && scoped(body, depth + 1)
        }
    }
}

#[test]
fn normalization_keeps_terms_well_scoped() {
    let constant = lam(star(), lam(star(), var(1)));
    let term = lam(star(), lam(star(), app(app(constant, var(1)), var(0))));
    assert!(scoped(&term, 0));
    let (stepped, _) = normalize_step(term.clone()).unwrap();
    assert!(scoped(&stepped, 0));
    let normal = normalize(term, None);
    assert!(scoped(&normal, 0));
    assert_eq!(normal, lam(star(), lam(star(), var(1))));
}

#[test]
fn advance_makes_one_pass_and_reports_rest() {
    let redex = app(lam(star(), var(0)), var(4));
    assert_eq!(advance(app(redex.clone(), redex.clone())), (app(var(4), var(4)), false));
    assert_eq!(advance(var(4)), (var(4), true));
    assert_eq!(advance(omega()), (omega(), false));
    let unfit = app(lam(star(), var(0)), var(i32::MAX));
    assert_eq!(advance(unfit.clone()), (unfit, true));
}

#[test]
fn stops_at_rest_or_when_the_budget_or_the_passes_are_spent() {
    assert!(!stops(false, false, 1));
    assert!(stops(true, false, 1));
    assert!(stops(false, true, 1));
    assert!(stops(true, true, 1));
    assert!(!stops(false, false, MAX_PASSES - 1));
    assert!(stops(false, false, MAX_PASSES));
}
