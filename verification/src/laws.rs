//! Laws of the rewrites and of the normalizer, proved of the pseudoterms that terms
//! stand for.

use crate::inferencer::{type_of, ErrorKind};
use crate::normalizer::lemma_reduce_at_rest;
use crate::term::{lemma_shift_compose, lemma_shift_zero, Pseudoterm};
use vstd::prelude::*;

verus! {

/// Shifting a pseudoterm up by a non-negative amount and down again by the same amount
/// gives the pseudoterm back.
pub proof fn lemma_shift_round_trip(term: Pseudoterm, amount: int)
    requires
        0 <= amount,
    ensures
        term.shift(0, amount).shift(0, -amount) == term,
{
    lemma_shift_compose(term, 0, amount, -amount);
    lemma_shift_zero(term, 0);
}

/// A pseudoterm that was shifted up by `depth + 1` and is then moved down by one at
/// cutoff `depth` is the pseudoterm shifted up by `depth`.
pub proof fn lemma_shift_retract(term: Pseudoterm, cutoff: int, depth: int)
    requires
        0 <= depth,
    ensures
        term.shift(cutoff, depth + 1).shift(cutoff + depth, -1) == term.shift(cutoff, depth),
    decreases term,
{
    match term {
        Pseudoterm::Constant(_) => {},
        Pseudoterm::Variable(_) => {},
        Pseudoterm::Application(function, argument) => {
            lemma_shift_retract(*function, cutoff, depth);
            lemma_shift_retract(*argument, cutoff, depth);
        },
        Pseudoterm::Binder(_, annotation, body) => {
            lemma_shift_retract(*annotation, cutoff, depth);
            lemma_shift_retract(*body, cutoff + 1, depth);
        },
    }
}

/// Under `depth` binders, in a body whose variables reach no further out than the binder
/// that is removed: putting in the argument lifted once more and moving the free
/// variables down is the same as putting in the argument as it is.
pub proof fn lemma_reduction_under(body: Pseudoterm, argument: Pseudoterm, depth: int)
    requires
        0 <= depth,
        body.scoped(depth + 1),
    ensures
        body.substitute(argument.shift(0, depth + 1), depth).shift(depth, -1) == body.substitute(
            argument.shift(0, depth),
            depth,
        ),
    decreases body,
{
    match body {
        Pseudoterm::Constant(_) => {},
        Pseudoterm::Variable(index) => {
            if index == depth {
                lemma_shift_retract(argument, 0, depth);
            }
        },
        Pseudoterm::Application(function, operand) => {
            lemma_reduction_under(*function, argument, depth);
            lemma_reduction_under(*operand, argument, depth);
        },
        Pseudoterm::Binder(_, annotation, inner) => {
            lemma_reduction_under(*annotation, argument, depth);
            lemma_shift_compose(argument, 0, depth + 1, 1);
            lemma_shift_compose(argument, 0, depth, 1);
            lemma_reduction_under(*inner, argument, depth + 1);
        },
    }
}

/// Where the body of a binder has no variable that refers beyond that binder, a beta
/// step is plain substitution of the argument for variable 0: lifting the argument and
/// moving the result down cancel.
pub proof fn lemma_reduction_is_substitution(body: Pseudoterm, argument: Pseudoterm)
    requires
        body.scoped(1),
    ensures
        Pseudoterm::reduction_step(body, argument) == body.substitute(argument, 0),
{
    lemma_reduction_under(body, argument, 0);
    lemma_shift_zero(argument, 0);
}

/// Normalizing a normal form again changes nothing, where the first normalization came
/// to rest before the pass budget ran out.
pub proof fn lemma_normalize_idempotent(term: Pseudoterm)
    requires
        term.normal_form().settled(),
    ensures
        term.normal_form().normal_form() == term.normal_form(),
{
    lemma_reduce_at_rest(term.normal_form(), crate::normalizer::MAX_PASSES as nat);
}

/// Shifting a well-scoped pseudoterm up puts it under that many more binders.
pub proof fn lemma_shift_scoped(term: Pseudoterm, cutoff: int, amount: int, depth: int)
    requires
        term.scoped(depth),
        0 <= amount,
    ensures
        term.shift(cutoff, amount).scoped(depth + amount),
    decreases term,
{
    match term {
        Pseudoterm::Constant(_) => {},
        Pseudoterm::Variable(_) => {},
        Pseudoterm::Application(function, argument) => {
            lemma_shift_scoped(*function, cutoff, amount, depth);
            lemma_shift_scoped(*argument, cutoff, amount, depth);
        },
        Pseudoterm::Binder(_, annotation, body) => {
            lemma_shift_scoped(*annotation, cutoff, amount, depth);
            lemma_shift_scoped(*body, cutoff + 1, amount, depth + 1);
        },
    }
}

/// Substituting a well-scoped value in a well-scoped pseudoterm keeps it well scoped.
pub proof fn lemma_substitute_scoped(term: Pseudoterm, value: Pseudoterm, var: int, depth: int)
    requires
        term.scoped(depth),
        value.scoped(depth),
    ensures
        term.substitute(value, var).scoped(depth),
    decreases term,
{
    match term {
        Pseudoterm::Constant(_) => {},
        Pseudoterm::Variable(_) => {},
        Pseudoterm::Application(function, argument) => {
            lemma_substitute_scoped(*function, value, var, depth);
            lemma_substitute_scoped(*argument, value, var, depth);
        },
        Pseudoterm::Binder(_, annotation, body) => {
            lemma_substitute_scoped(*annotation, value, var, depth);
            lemma_shift_scoped(value, 0, 1, depth);
            lemma_substitute_scoped(*body, value.shift(0, 1), var + 1, depth + 1);
        },
    }
}

/// After a shift up by one at a cutoff, the variable at the cutoff does not occur.
pub proof fn lemma_shift_frees(term: Pseudoterm, cutoff: int)
    ensures
        term.shift(cutoff, 1).misses(cutoff),
    decreases term,
{
    match term {
        Pseudoterm::Constant(_) => {},
        Pseudoterm::Variable(_) => {},
        Pseudoterm::Application(function, argument) => {
            lemma_shift_frees(*function, cutoff);
            lemma_shift_frees(*argument, cutoff);
        },
        Pseudoterm::Binder(_, annotation, body) => {
            lemma_shift_frees(*annotation, cutoff);
            lemma_shift_frees(*body, cutoff + 1);
        },
    }
}

/// A variable that does not occur in a pseudoterm is, one higher, still missing after a
/// shift up by one at a cutoff that is not above it.
pub proof fn lemma_shift_keeps_missing(term: Pseudoterm, cutoff: int, var: int)
    requires
        term.misses(var),
        cutoff <= var,
    ensures
        term.shift(cutoff, 1).misses(var + 1),
    decreases term,
{
    match term {
        Pseudoterm::Constant(_) => {},
        Pseudoterm::Variable(_) => {},
        Pseudoterm::Application(function, argument) => {
            lemma_shift_keeps_missing(*function, cutoff, var);
            lemma_shift_keeps_missing(*argument, cutoff, var);
        },
        Pseudoterm::Binder(_, annotation, body) => {
            lemma_shift_keeps_missing(*annotation, cutoff, var);
            lemma_shift_keeps_missing(*body, cutoff + 1, var + 1);
        },
    }
}

/// Substituting, for a variable, a value in which that variable does not occur removes
/// the variable.
pub proof fn lemma_substitute_removes(term: Pseudoterm, value: Pseudoterm, var: int)
    requires
        value.misses(var),
        0 <= var,
    ensures
        term.substitute(value, var).misses(var),
    decreases term,
{
    match term {
        Pseudoterm::Constant(_) => {},
        Pseudoterm::Variable(_) => {},
        Pseudoterm::Application(function, argument) => {
            lemma_substitute_removes(*function, value, var);
            lemma_substitute_removes(*argument, value, var);
        },
        Pseudoterm::Binder(_, annotation, body) => {
            lemma_substitute_removes(*annotation, value, var);
            lemma_shift_keeps_missing(value, 0, var);
            lemma_substitute_removes(*body, value.shift(0, 1), var + 1);
        },
    }
}

/// Moving the variables above a missing one down by one takes a well-scoped pseudoterm
/// out of one binder.
pub proof fn lemma_shift_down_scoped(term: Pseudoterm, cutoff: int, depth: int)
    requires
        term.scoped(depth + 1),
        term.misses(cutoff),
        0 <= cutoff <= depth,
    ensures
        term.shift(cutoff, -1).scoped(depth),
    decreases term,
{
    match term {
        Pseudoterm::Constant(_) => {},
        Pseudoterm::Variable(_) => {},
        Pseudoterm::Application(function, argument) => {
            lemma_shift_down_scoped(*function, cutoff, depth);
            lemma_shift_down_scoped(*argument, cutoff, depth);
        },
        Pseudoterm::Binder(_, annotation, body) => {
            lemma_shift_down_scoped(*annotation, cutoff, depth);
            lemma_shift_down_scoped(*body, cutoff + 1, depth + 1);
        },
    }
}

/// A beta step keeps indices in scope: where the body is well scoped under one binder
/// more than the argument, the result is well scoped where the argument is.
pub proof fn lemma_reduction_scoped(body: Pseudoterm, argument: Pseudoterm, depth: int)
    requires
        0 <= depth,
        body.scoped(depth + 1),
        argument.scoped(depth),
    ensures
        Pseudoterm::reduction_step(body, argument).scoped(depth),
{
    lemma_shift_scoped(argument, 0, 1, depth);
    lemma_shift_frees(argument, 0);
    lemma_substitute_scoped(body, argument.lifted(), 0, depth + 1);
    lemma_substitute_removes(body, argument.lifted(), 0);
    lemma_shift_down_scoped(body.substitute(argument.lifted(), 0), 0, depth);
}

/// A rewrite pass keeps a well-scoped pseudoterm well scoped.
pub proof fn lemma_pass_scoped(term: Pseudoterm, depth: int)
    requires
        0 <= depth,
        term.scoped(depth),
    ensures
        term.pass().scoped(depth),
    decreases term,
{
    match term {
        Pseudoterm::Constant(_) => {},
        Pseudoterm::Variable(_) => {},
        Pseudoterm::Application(function, argument) => {
            lemma_pass_scoped(*function, depth);
            lemma_pass_scoped(*argument, depth);
            match function.pass() {
                Pseudoterm::Binder(_, _, body) => {
                    lemma_reduction_scoped(*body, argument.pass(), depth);
                },
                _ => {},
            }
        },
        Pseudoterm::Binder(_, _, body) => {
            lemma_pass_scoped(*body, depth + 1);
        },
    }
}

/// Normalization keeps a well-scoped pseudoterm well scoped, however many rounds it makes.
pub proof fn lemma_reduce_scoped(term: Pseudoterm, rounds: nat, depth: int)
    requires
        0 <= depth,
        term.scoped(depth),
    ensures
        term.reduce(rounds).scoped(depth),
    decreases rounds,
{
    if rounds > 0 {
        lemma_reduce_scoped(term, (rounds - 1) as nat, depth);
        lemma_pass_scoped(term.reduce((rounds - 1) as nat), depth);
    }
}

/// The inferencer rejects every pseudoterm with a variable that escapes all binders: a
/// pseudoterm that has a type under a context is well scoped under as many binders as the
/// context has entries.
pub proof fn lemma_typed_is_scoped(context: Seq<Pseudoterm>, term: Pseudoterm)
    requires
        type_of(context, term) is Ok,
    ensures
        term.scoped(context.len() as int),
    decreases term,
{
    match term {
        Pseudoterm::Constant(_) => {},
        Pseudoterm::Variable(_) => {},
        Pseudoterm::Application(function, argument) => {
            lemma_typed_is_scoped(context, *function);
            lemma_typed_is_scoped(context, *argument);
        },
        Pseudoterm::Binder(_, annotation, body) => {
            lemma_typed_is_scoped(context, *annotation);
            lemma_typed_is_scoped(context.push(*annotation), *body);
        },
    }
}

/// `Kind` has no type, and `Type` has the type `Kind`, under every context.
pub proof fn lemma_sort_hierarchy(context: Seq<Pseudoterm>)
    ensures
        type_of(context, Pseudoterm::Constant(crate::term::Sort::Type)) == Ok::<
            Pseudoterm,
            ErrorKind,
        >(Pseudoterm::Constant(crate::term::Sort::Kind)),
        type_of(context, Pseudoterm::Constant(crate::term::Sort::Kind)) == Err::<
            Pseudoterm,
            ErrorKind,
        >(ErrorKind::TopSortHasNoType),
{
}

/// An application whose argument has a type that does not reduce to what the domain of
/// the function's type reduces to has no type: the error is `TypeMismatch`.
pub proof fn lemma_mismatch_is_rejected(
    context: Seq<Pseudoterm>,
    function: Pseudoterm,
    argument: Pseudoterm,
)
    requires
        type_of(context, function) matches Ok(function_type) && type_of(context, argument) matches Ok(
            argument_type,
        ) && function_type.normal_form() matches Pseudoterm::Binder(
            crate::term::Bind::Type,
            domain,
            _,
        ) && domain.normal_form() != argument_type.normal_form(),
    ensures
        type_of(context, Pseudoterm::Application(Box::new(function), Box::new(argument))) == Err::<
            Pseudoterm,
            ErrorKind,
        >(ErrorKind::TypeMismatch),
{
}

/// Under the empty context no variable has a type: the error is `UnboundVariable`.
pub proof fn lemma_variable_needs_a_binder(index: int)
    ensures
        type_of(Seq::empty(), Pseudoterm::Variable(index)) == Err::<Pseudoterm, ErrorKind>(
            ErrorKind::UnboundVariable,
        ),
{
}

} // verus!
