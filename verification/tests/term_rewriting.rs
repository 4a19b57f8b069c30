use pts_kernel::term::{reduction_step, shift, substitute, Bind, Sort, Term};

fn var(index: i32) -> Term {
    Term::Variable { index }
}

fn app(function: Term, argument: Term) -> Term {
    Term::Application { function: Box::new(function), argument: Box::new(argument) }
}

fn lam(annotation: Term, body: Term) -> Term {
    Term::Binder { bind: Bind::Term, type_annotation: Box::new(annotation), body: Box::new(body) }
}

fn pi(annotation: Term, body: Term) -> Term {
    Term::Binder { bind: Bind::Type, type_annotation: Box::new(annotation), body: Box::new(body) }
}

fn star() -> Term {
    Term::Constant(Sort::Type)
}

#[test]
fn shift_moves_indices_at_or_above_the_cutoff() {
    assert_eq!(shift(var(3), 0, 2), Some(var(5)));
    assert_eq!(shift(var(3), 3, 2), Some(var(5)));
    assert_eq!(shift(var(3), 4, 2), Some(var(3)));
    assert_eq!(shift(var(3), 0, -3), Some(var(0)));
    assert_eq!(shift(star(), 0, 7), Some(star()));
    assert_eq!(shift(app(var(0), var(1)), 1, 10), Some(app(var(0), var(11))));
}

#[test]
fn shift_raises_the_cutoff_in_a_body_but_not_in_an_annotation() {
    let term = lam(var(0), app(var(0), var(1)));
    assert_eq!(shift(term, 0, 5), Some(lam(var(5), app(var(0), var(6)))));
    let nested = pi(var(1), lam(var(1), app(var(2), var(3))));
    assert_eq!(shift(nested, 1, 1), Some(pi(var(2), lam(var(1), app(var(2), var(4))))));
}

#[test]
fn shift_gives_none_when_an_index_leaves_the_range() {
    assert_eq!(shift(var(i32::MAX), 0, 1), None);
    assert_eq!(shift(var(i32::MIN), i32::MIN, -1), None);
    assert_eq!(shift(app(var(0), var(i32::MAX)), 0, 1), None);
    assert_eq!(shift(var(i32::MAX), 0, 0), Some(var(i32::MAX)));
    assert_eq!(shift(var(i32::MAX - 1), 0, 1), Some(var(i32::MAX)));
}

#[test]
fn shift_leaves_indices_below_a_cutoff_at_the_top_of_the_range() {
    let term = lam(star(), var(i32::MAX));
    assert_eq!(shift(term.clone(), i32::MAX, 1), Some(term));
    assert_eq!(shift(var(i32::MAX), i32::MAX, 1), None);
}

#[test]
fn shift_up_then_down_is_the_identity() {
    let term = lam(var(2), app(pi(var(0), var(3)), app(var(0), var(7))));
    for amount in [0, 1, 2, 40, 1000] {
        let up = shift(term.clone(), 0, amount).unwrap();
        assert_eq!(shift(up, 0, -amount), Some(term.clone()));
    }
}

#[test]
fn substitute_replaces_the_variable_by_the_value() {
    assert_eq!(substitute(var(0), star(), 0), Some(star()));
    assert_eq!(substitute(var(1), star(), 0), Some(var(1)));
    assert_eq!(substitute(star(), var(4), 0), Some(star()));
    assert_eq!(
        substitute(app(var(2), app(var(0), var(2))), var(9), 2),
        Some(app(var(9), app(var(0), var(9))))
    );
}

#[test]
fn substitute_shifts_the_value_under_a_binder() {
    let term = lam(var(0), app(var(0), var(1)));
    assert_eq!(substitute(term, var(5), 0), Some(lam(var(5), app(var(0), var(6)))));
    let deep = lam(star(), lam(star(), var(2)));
    let value = lam(star(), app(var(0), var(1)));
    assert_eq!(
        substitute(deep, value, 0),
        Some(lam(star(), lam(star(), lam(star(), app(var(0), var(3))))))
    );
}

#[test]
fn substitute_gives_none_when_the_shifted_value_leaves_the_range() {
    let term = lam(star(), var(1));
    assert_eq!(substitute(term, var(i32::MAX), 0), None);
    let unused = lam(star(), var(0));
    assert_eq!(substitute(unused.clone(), var(i32::MAX), 0), Some(unused));
}

#[test]
fn substitute_for_the_greatest_variable() {
    assert_eq!(substitute(var(i32::MAX), star(), i32::MAX), Some(star()));
    let under = lam(var(i32::MAX), var(i32::MAX));
    assert_eq!(substitute(under, star(), i32::MAX), Some(lam(star(), var(i32::MAX))));
}

#[test]
fn reduction_step_puts_the_argument_in_and_closes_the_binder() {
    assert_eq!(reduction_step(var(0), var(5)), Some(var(5)));
    assert_eq!(reduction_step(var(1), var(5)), Some(var(0)));
    assert_eq!(reduction_step(app(var(0), var(3)), star()), Some(app(star(), var(2))));
    assert_eq!(
        reduction_step(lam(var(0), app(var(1), var(2))), var(4)),
        Some(lam(var(4), app(var(5), var(1))))
    );
}

#[test]
fn reduction_step_is_substitution_when_the_body_refers_to_its_binder_only() {
    let body = lam(var(0), app(var(1), app(var(0), var(1))));
    let argument = lam(var(3), app(var(0), var(2)));
    assert_eq!(
        reduction_step(body.clone(), argument.clone()),
        substitute(body, argument, 0)
    );
}

#[test]
fn reduction_step_gives_none_when_the_lifted_argument_leaves_the_range() {
    assert_eq!(reduction_step(star(), var(i32::MAX)), None);
    assert_eq!(reduction_step(lam(star(), var(1)), var(i32::MAX - 1)), None);
}

#[test]
fn clone_and_equality_are_structural() {
    let term = lam(var(2), app(pi(var(0), var(3)), star()));
    assert_eq!(term.clone(), term);
    assert_ne!(term, lam(var(2), app(pi(var(0), var(4)), star())));
    assert_ne!(lam(star(), var(0)), pi(star(), var(0)));
    assert_ne!(Term::Constant(Sort::Type), Term::Constant(Sort::Kind));
    assert_ne!(var(0), star());
}
