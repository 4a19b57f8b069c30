//! Reduction of pseudoterms by parallel rewrite passes, under an optional time budget.

use crate::clock::{elapsed, longer, now};
use crate::term::{reduction_step, Pseudoterm, Term};
use std::time::Duration;
use vstd::prelude::*;

verus! {

/// The greatest number of rewrite passes that one call of `normalize` makes.
pub const MAX_PASSES: u64 = 0xffff_ffff_ffff_ffff;

impl Pseudoterm {
    /// No application outside an annotation has a binder in function position: a rewrite
    /// pass finds nothing to reduce.
    pub open spec fn is_normal(self) -> bool
        decreases self,
    {
        match self {
            Pseudoterm::Constant(_) => true,
            Pseudoterm::Variable(_) => true,
            Pseudoterm::Application(function, argument) => !(*function is Binder)
                && function.is_normal() && argument.is_normal(),
            Pseudoterm::Binder(_, _, body) => body.is_normal(),
        }
    }

    /// One parallel rewrite pass. Function and argument of every application are rewritten
    /// first; where the rewritten function is a binder, one beta step follows. The body of
    /// every binder is rewritten; its annotation, constants and variables are left alone.
    pub open spec fn pass(self) -> Pseudoterm
        decreases self,
    {
        match self {
            Pseudoterm::Constant(sort) => Pseudoterm::Constant(sort),
            Pseudoterm::Variable(index) => Pseudoterm::Variable(index),
            Pseudoterm::Application(function, argument) => match function.pass() {
                Pseudoterm::Binder(_, _, body) => Pseudoterm::reduction_step(
                    *body,
                    argument.pass(),
                ),
                rewritten => Pseudoterm::Application(
                    Box::new(rewritten),
                    Box::new(argument.pass()),
                ),
            },
            Pseudoterm::Binder(bind, annotation, body) => Pseudoterm::Binder(
                bind,
                annotation,
                Box::new(body.pass()),
            ),
        }
    }

    /// Every beta step of the rewrite pass stays within the range of `i32`.
    pub open spec fn pass_fits(self) -> bool
        decreases self,
    {
        match self {
            Pseudoterm::Constant(_) => true,
            Pseudoterm::Variable(_) => true,
            Pseudoterm::Application(function, argument) => function.pass_fits() && (
            argument.pass_fits()) && (match function.pass() {
                Pseudoterm::Binder(_, _, body) => Pseudoterm::reduction_fits(
                    *body,
                    argument.pass(),
                ),
                _ => true,
            }),
            Pseudoterm::Binder(_, _, body) => body.pass_fits(),
        }
    }

    /// Rewriting has come to rest: the pseudoterm is normal, or its next pass would leave
    /// the range of `i32`.
    pub open spec fn settled(self) -> bool {
        self.is_normal() || !self.pass_fits()
    }

    /// One round of the normalizer: a rewrite pass, unless rewriting has come to rest.
    pub open spec fn advance(self) -> Pseudoterm {
        if self.settled() {
            self
        } else {
            self.pass()
        }
    }

    /// The pseudoterm after `rounds` rounds of the normalizer.
    pub open spec fn reduce(self, rounds: nat) -> Pseudoterm
        decreases rounds,
    {
        if rounds == 0 {
            self
        } else {
            self.reduce((rounds - 1) as nat).advance()
        }
    }

    /// What the normalizer returns when no time budget cuts it short.
    pub open spec fn normal_form(self) -> Pseudoterm {
        self.reduce(MAX_PASSES as nat)
    }
}

/// A rewrite pass leaves a normal pseudoterm as it is.
pub proof fn lemma_pass_of_normal(term: Pseudoterm)
    requires
        term.is_normal(),
    ensures
        term.pass() == term,
        term.pass_fits(),
    decreases term,
{
    match term {
        Pseudoterm::Constant(_) => {},
        Pseudoterm::Variable(_) => {},
        Pseudoterm::Application(function, argument) => {
            lemma_pass_of_normal(*function);
            lemma_pass_of_normal(*argument);
        },
        Pseudoterm::Binder(_, _, body) => {
            lemma_pass_of_normal(*body);
        },
    }
}

/// Once rewriting has come to rest, further rounds change nothing.
pub proof fn lemma_reduce_at_rest(term: Pseudoterm, rounds: nat)
    requires
        term.settled(),
    ensures
        term.reduce(rounds) == term,
    decreases rounds,
{
    if rounds > 0 {
        lemma_reduce_at_rest(term, (rounds - 1) as nat);
    }
}

/// Where rewriting has come to rest after `rounds` rounds, any greater number of rounds
/// gives the same pseudoterm.
pub proof fn lemma_reduce_stays(term: Pseudoterm, rounds: nat, more: nat)
    requires
        term.reduce(rounds).settled(),
        rounds <= more,
    ensures
        term.reduce(more) == term.reduce(rounds),
    decreases more,
{
    if rounds < more {
        lemma_reduce_stays(term, rounds, (more - 1) as nat);
    }
}

/// One parallel rewrite pass over `term`. The flag is `true` when the pass found nothing
/// to reduce: the term was normal and comes back unchanged. Returns `None` exactly when
/// a beta step of the pass would leave the range of `i32`.
pub fn normalize_step(term: Term) -> (stepped: Option<(Term, bool)>)
    ensures
        stepped is Some <==> term@.pass_fits(),
        match stepped {
            Some((rewritten, is_normal)) => rewritten@ == term@.pass() && is_normal
                == term@.is_normal(),
            None => true,
        },
    decreases term,
{
    match term {
        Term::Constant(sort) => Some((Term::Constant(sort), true)),
        Term::Variable { index } => Some((Term::Variable { index }, true)),
        Term::Application { function, argument } => {
            let ghost before = *function;
            let (function, is_function_normal) = normalize_step(*function)?;
            let (argument, is_argument_normal) = normalize_step(*argument)?;
            proof {
                if is_function_normal {
                    lemma_pass_of_normal(before@);
                }
            }
            match function {
                Term::Binder { body, .. } => {
                    let reduced = reduction_step(*body, argument)?;
                    Some((reduced, false))
                },
                function => {
                    let is_normal = is_function_normal && is_argument_normal;
                    Some(
                        (
                            Term::Application {
                                function: Box::new(function),
                                argument: Box::new(argument),
                            },
                            is_normal,
                        ),
                    )
                },
            }
        },
        Term::Binder { bind, type_annotation, body } => {
            let (body, is_body_normal) = normalize_step(*body)?;
            Some((Term::Binder { bind, type_annotation, body: Box::new(body) }, is_body_normal))
        },
    }
}

/// One round of the normalizer: a rewrite pass over `term`, unless rewriting has come to
/// rest. The flag says that it has: the term was normal, or the pass could not be made
/// within the range of `i32`; the term then comes back unchanged.
pub fn advance(term: Term) -> (round: (Term, bool))
    ensures
        round.0@ == term@.advance(),
        round.1 == term@.settled(),
{
    let kept = term.clone();
    match normalize_step(term) {
        Some((next, is_normal)) => {
            proof {
                if is_normal {
                    lemma_pass_of_normal(kept@);
                }
            }
            (next, is_normal)
        },
        None => (kept, true),
    }
}

/// Whether the normalizer stops after a round: when rewriting has come to rest, when the
/// time read after the round has exceeded the budget, or when `rounds`, the number of
/// rounds made, has reached `MAX_PASSES`.
pub fn stops(at_rest: bool, spent: bool, rounds: u64) -> (stop: bool)
    ensures
        stop == (at_rest || spent || rounds >= MAX_PASSES),
{
    at_rest || spent || rounds >= MAX_PASSES
}

/// Reduces `term` by rounds of rewriting. After each round the clock is read once, where
/// a time budget was given, and `stops` decides from the round's flag, the clock's answer
/// and the number of rounds whether to go on. At least one round is always made. Without
/// a time budget the result is `term@.normal_form()`; with one it is the term after some
/// number of rounds.
pub fn normalize(term: Term, timeout: Option<Duration>) -> (result: Term)
    ensures
        exists|rounds: nat| 1 <= rounds <= MAX_PASSES && result@ == term@.reduce(rounds),
        timeout is None ==> result@ == term@.normal_form(),
{
    let timer = now();
    let mut result = term;
    let mut rounds: u64 = 0;
    let mut finished = false;
    while !finished
        invariant
            rounds <= MAX_PASSES,
            rounds == 0 ==> !finished,
            !finished ==> rounds < MAX_PASSES,
            result@ == term@.reduce(rounds as nat),
            finished && timeout is None ==> result@.settled() || rounds == MAX_PASSES,
        decreases MAX_PASSES - rounds,
    {
        let (next, at_rest) = advance(result);
        result = next;
        rounds = rounds + 1;
        let spent = match &timeout {
            Some(budget) => longer(&elapsed(&timer), budget),
            None => false,
        };
        finished = stops(at_rest, spent, rounds);
    }
    proof {
        assert(1 <= rounds <= MAX_PASSES && result@ == term@.reduce(rounds as nat));
        if timeout is None && rounds < MAX_PASSES {
            lemma_reduce_stays(term@, rounds as nat, MAX_PASSES as nat);
        }
    }
    result
}

} // verus!
