//! Pseudoterms with de Bruijn indices, and the two rewrites that keep the indices right
//! when a term moves across binders: `shift` and `substitute`.

pub use crate::inferencer::infer;
pub use crate::normalizer::normalize;
use vstd::prelude::*;

verus! {

/// The two sorts of the system: `Type` classifies ordinary types, `Kind` classifies `Type`.
#[derive(Debug, Copy, Clone, PartialEq, Eq, Structural)]
pub enum Sort {
    Type,
    Kind,
}

/// The two flavours of binder: a function abstraction and a dependent function type.
#[derive(Debug, Copy, Clone, PartialEq, Eq, Structural)]
pub enum Bind {
    Term,
    Type,
}

/// A pseudoterm with machine-sized de Bruijn indices.
#[derive(Debug)]
pub enum Term {
    /// `Type` or `Kind`.
    Constant(Sort),
    /// The variable bound by the binder `index` binders out from here.
    Variable { index: i32 },
    /// A function, of values or of types, applied to an argument.
    Application { function: Box<Term>, argument: Box<Term> },
    /// One new variable, of the type `type_annotation`, in scope over `body`. The
    /// annotation itself lies outside the binder.
    Binder { bind: Bind, type_annotation: Box<Term>, body: Box<Term> },
}

/// The mathematical pseudoterm that a `Term` stands for. Its indices are unbounded
/// integers, so the rewriting functions below are total and obey the usual de Bruijn laws.
pub enum Pseudoterm {
    Constant(Sort),
    Variable(int),
    Application(Box<Pseudoterm>, Box<Pseudoterm>),
    Binder(Bind, Box<Pseudoterm>, Box<Pseudoterm>),
}

impl Pseudoterm {
    /// Every index lies in the range of `i32`, so that a `Term` can hold this pseudoterm.
    pub open spec fn fits(self) -> bool
        decreases self,
    {
        match self {
            Pseudoterm::Constant(_) => true,
            Pseudoterm::Variable(index) => i32::MIN <= index <= i32::MAX,
            Pseudoterm::Application(function, argument) => function.fits() && argument.fits(),
            Pseudoterm::Binder(_, annotation, body) => annotation.fits() && body.fits(),
        }
    }

    /// Every variable refers to one of the binders inside this pseudoterm or to one of the
    /// `depth` binders around it: at each variable, `0 <= index < depth + binders crossed`.
    pub open spec fn scoped(self, depth: int) -> bool
        decreases self,
    {
        match self {
            Pseudoterm::Constant(_) => true,
            Pseudoterm::Variable(index) => 0 <= index < depth,
            Pseudoterm::Application(function, argument) => function.scoped(depth)
                && argument.scoped(depth),
            Pseudoterm::Binder(_, annotation, body) => annotation.scoped(depth) && body.scoped(
                depth + 1,
            ),
        }
    }

    /// The variable `var` does not occur: no variable has the index `var` plus the number
    /// of binders around it.
    pub open spec fn misses(self, var: int) -> bool
        decreases self,
    {
        match self {
            Pseudoterm::Constant(_) => true,
            Pseudoterm::Variable(index) => index != var,
            Pseudoterm::Application(function, argument) => function.misses(var)
                && argument.misses(var),
            Pseudoterm::Binder(_, annotation, body) => annotation.misses(var) && body.misses(
                var + 1,
            ),
        }
    }

    /// Adds `amount` to every index that is at least `cutoff`. The cutoff grows by one in
    /// the body of a binder; the annotation of a binder lives outside it and keeps the cutoff.
    pub open spec fn shift(self, cutoff: int, amount: int) -> Pseudoterm
        decreases self,
    {
        match self {
            Pseudoterm::Constant(sort) => Pseudoterm::Constant(sort),
            Pseudoterm::Variable(index) => if index < cutoff {
                Pseudoterm::Variable(index)
            } else {
                Pseudoterm::Variable(index + amount)
            },
            Pseudoterm::Application(function, argument) => Pseudoterm::Application(
                Box::new(function.shift(cutoff, amount)),
                Box::new(argument.shift(cutoff, amount)),
            ),
            Pseudoterm::Binder(bind, annotation, body) => Pseudoterm::Binder(
                bind,
                Box::new(annotation.shift(cutoff, amount)),
                Box::new(body.shift(cutoff + 1, amount)),
            ),
        }
    }

    /// Replaces every occurrence of the variable `var` by `value`. In the body of a binder
    /// the variable is `var + 1` and the value is shifted up by one; the annotation of a
    /// binder is rewritten with `var` and `value` as they are.
    pub open spec fn substitute(self, value: Pseudoterm, var: int) -> Pseudoterm
        decreases self,
    {
        match self {
            Pseudoterm::Constant(sort) => Pseudoterm::Constant(sort),
            Pseudoterm::Variable(index) => if index == var {
                value
            } else {
                Pseudoterm::Variable(index)
            },
            Pseudoterm::Application(function, argument) => Pseudoterm::Application(
                Box::new(function.substitute(value, var)),
                Box::new(argument.substitute(value, var)),
            ),
            Pseudoterm::Binder(bind, annotation, body) => Pseudoterm::Binder(
                bind,
                Box::new(annotation.substitute(value, var)),
                Box::new(body.substitute(value.shift(0, 1), var + 1)),
            ),
        }
    }

    /// The argument as it is put into the body of the binder that a beta step removes:
    /// shifted up by one.
    pub open spec fn lifted(self) -> Pseudoterm {
        self.shift(0, 1)
    }

    /// One beta step on `body`, the body of a binder applied to `argument`: the lifted
    /// argument replaces variable 0, then the free variables move down by one.
    pub open spec fn reduction_step(body: Pseudoterm, argument: Pseudoterm) -> Pseudoterm {
        body.substitute(argument.lifted(), 0).shift(0, -1)
    }

    /// Both intermediate results of the beta step can be held by a `Term`.
    pub open spec fn reduction_fits(body: Pseudoterm, argument: Pseudoterm) -> bool {
        argument.lifted().fits() && body.substitute(argument.lifted(), 0).fits()
    }
}

impl Term {
    /// The pseudoterm that this term stands for.
    pub open spec fn model(&self) -> Pseudoterm
        decreases self,
    {
        match self {
            Term::Constant(sort) => Pseudoterm::Constant(*sort),
            Term::Variable { index } => Pseudoterm::Variable(*index as int),
            Term::Application { function, argument } => Pseudoterm::Application(
                Box::new(function.model()),
                Box::new(argument.model()),
            ),
            Term::Binder { bind, type_annotation, body } => Pseudoterm::Binder(
                *bind,
                Box::new(type_annotation.model()),
                Box::new(body.model()),
            ),
        }
    }
}

impl View for Term {
    type V = Pseudoterm;

    open spec fn view(&self) -> Pseudoterm {
        self.model()
    }
}

/// The pseudoterms of a sequence of terms, in the same order.
pub open spec fn models(terms: Seq<Term>) -> Seq<Pseudoterm> {
    Seq::new(terms.len(), |position: int| terms[position]@)
}

impl Clone for Term {
    fn clone(&self) -> (copy: Self)
        ensures
            copy == *self,
        decreases self,
    {
        match self {
            Term::Constant(sort) => Term::Constant(*sort),
            Term::Variable { index } => Term::Variable { index: *index },
            Term::Application { function, argument } => Term::Application {
                function: Box::new((&**function).clone()),
                argument: Box::new((&**argument).clone()),
            },
            Term::Binder { bind, type_annotation, body } => Term::Binder {
                bind: *bind,
                type_annotation: Box::new((&**type_annotation).clone()),
                body: Box::new((&**body).clone()),
            },
        }
    }
}

impl PartialEq for Term {
    fn eq(&self, other: &Term) -> (same: bool)
        decreases self,
    {
        match (self, other) {
            (Term::Constant(a), Term::Constant(b)) => *a == *b,
            (Term::Variable { index: a }, Term::Variable { index: b }) => *a == *b,
            (
                Term::Application { function: f1, argument: a1 },
                Term::Application { function: f2, argument: a2 },
            ) => (&**f1).eq(&**f2) && (&**a1).eq(&**a2),
            (
                Term::Binder { bind: b1, type_annotation: t1, body: d1 },
                Term::Binder { bind: b2, type_annotation: t2, body: d2 },
            ) => *b1 == *b2 && (&**t1).eq(&**t2) && (&**d1).eq(&**d2),
            _ => false,
        }
    }
}

impl vstd::std_specs::cmp::PartialEqSpecImpl for Term {
    open spec fn obeys_eq_spec() -> bool {
        true
    }

    open spec fn eq_spec(&self, other: &Term) -> bool {
        *self == *other
    }
}

impl Eq for Term {}

/// The pseudoterm of a `Term` always has its indices in the range of `i32`.
pub proof fn lemma_model_fits(term: &Term)
    ensures
        term@.fits(),
    decreases term,
{
    match term {
        Term::Constant(_) => {},
        Term::Variable { .. } => {},
        Term::Application { function, argument } => {
            lemma_model_fits(&**function);
            lemma_model_fits(&**argument);
        },
        Term::Binder { type_annotation, body, .. } => {
            lemma_model_fits(&**type_annotation);
            lemma_model_fits(&**body);
        },
    }
}

/// Two terms that stand for the same pseudoterm are the same term.
pub proof fn lemma_model_injective(left: &Term, right: &Term)
    requires
        left@ == right@,
    ensures
        *left == *right,
    decreases left,
{
    match (left, right) {
        (
            Term::Application { function: f1, argument: a1 },
            Term::Application { function: f2, argument: a2 },
        ) => {
            lemma_model_injective(&**f1, &**f2);
            lemma_model_injective(&**a1, &**a2);
        },
        (
            Term::Binder { type_annotation: t1, body: b1, .. },
            Term::Binder { type_annotation: t2, body: b2, .. },
        ) => {
            lemma_model_injective(&**t1, &**t2);
            lemma_model_injective(&**b1, &**b2);
        },
        _ => {},
    }
}

/// A shift by zero changes nothing.
pub proof fn lemma_shift_zero(term: Pseudoterm, cutoff: int)
    ensures
        term.shift(cutoff, 0) == term,
    decreases term,
{
    match term {
        Pseudoterm::Constant(_) => {},
        Pseudoterm::Variable(_) => {},
        Pseudoterm::Application(function, argument) => {
            lemma_shift_zero(*function, cutoff);
            lemma_shift_zero(*argument, cutoff);
        },
        Pseudoterm::Binder(_, annotation, body) => {
            lemma_shift_zero(*annotation, cutoff);
            lemma_shift_zero(*body, cutoff + 1);
        },
    }
}

/// A shift upwards followed by a second shift at the same cutoff is one shift by the sum.
pub proof fn lemma_shift_compose(term: Pseudoterm, cutoff: int, first: int, second: int)
    requires
        0 <= first,
    ensures
        term.shift(cutoff, first).shift(cutoff, second) == term.shift(cutoff, first + second),
    decreases term,
{
    match term {
        Pseudoterm::Constant(_) => {},
        Pseudoterm::Variable(_) => {},
        Pseudoterm::Application(function, argument) => {
            lemma_shift_compose(*function, cutoff, first, second);
            lemma_shift_compose(*argument, cutoff, first, second);
        },
        Pseudoterm::Binder(_, annotation, body) => {
            lemma_shift_compose(*annotation, cutoff, first, second);
            lemma_shift_compose(*body, cutoff + 1, first, second);
        },
    }
}

/// A cutoff above every index that a `Term` can hold leaves such a pseudoterm as it is.
pub proof fn lemma_shift_beyond(term: Pseudoterm, cutoff: int, amount: int)
    requires
        term.fits(),
        cutoff > i32::MAX,
    ensures
        term.shift(cutoff, amount) == term,
    decreases term,
{
    match term {
        Pseudoterm::Constant(_) => {},
        Pseudoterm::Variable(_) => {},
        Pseudoterm::Application(function, argument) => {
            lemma_shift_beyond(*function, cutoff, amount);
            lemma_shift_beyond(*argument, cutoff, amount);
        },
        Pseudoterm::Binder(_, annotation, body) => {
            lemma_shift_beyond(*annotation, cutoff, amount);
            lemma_shift_beyond(*body, cutoff + 1, amount);
        },
    }
}

/// A variable above every index that a `Term` can hold does not occur in such a
/// pseudoterm, so substituting for it changes nothing.
pub proof fn lemma_substitute_beyond(term: Pseudoterm, value: Pseudoterm, var: int)
    requires
        term.fits(),
        var > i32::MAX,
    ensures
        term.substitute(value, var) == term,
    decreases term,
{
    match term {
        Pseudoterm::Constant(_) => {},
        Pseudoterm::Variable(_) => {},
        Pseudoterm::Application(function, argument) => {
            lemma_substitute_beyond(*function, value, var);
            lemma_substitute_beyond(*argument, value, var);
        },
        Pseudoterm::Binder(_, annotation, body) => {
            lemma_substitute_beyond(*annotation, value, var);
            lemma_substitute_beyond(*body, value.shift(0, 1), var + 1);
        },
    }
}

/// Moving the indices at or above a cutoff that is not below `i32::MIN + 1` down by one
/// keeps them in the range of `i32`.
pub proof fn lemma_shift_down_fits(term: Pseudoterm, cutoff: int)
    requires
        term.fits(),
        cutoff > i32::MIN,
    ensures
        term.shift(cutoff, -1).fits(),
    decreases term,
{
    match term {
        Pseudoterm::Constant(_) => {},
        Pseudoterm::Variable(_) => {},
        Pseudoterm::Application(function, argument) => {
            lemma_shift_down_fits(*function, cutoff);
            lemma_shift_down_fits(*argument, cutoff);
        },
        Pseudoterm::Binder(_, annotation, body) => {
            lemma_shift_down_fits(*annotation, cutoff);
            lemma_shift_down_fits(*body, cutoff + 1);
        },
    }
}

/// The widest amount that the rewriting below ever shifts by: the distance between the
/// least and the greatest index.
const INDEX_SPAN: i64 = 0xffff_ffff;

/// The least cutoff or variable that is above every index: rewriting at any greater one
/// gives the same result, so the counters below stop here.
const PAST_LAST_INDEX: i64 = 0x8000_0000;

/// `shift` on a borrowed term, with the cutoff and the amount in a wider type so that
/// neither can overflow while the rewrite descends through binders.
fn shift_wide(term: &Term, cutoff: i64, amount: i64) -> (shifted: Option<Term>)
    requires
        i32::MIN <= cutoff <= PAST_LAST_INDEX,
        -INDEX_SPAN <= amount <= INDEX_SPAN,
    ensures
        shifted is Some <==> term@.shift(cutoff as int, amount as int).fits(),
        shifted is Some ==> shifted->0@ == term@.shift(cutoff as int, amount as int),
    decreases term,
{
    match term {
        Term::Constant(sort) => Some(Term::Constant(*sort)),
        Term::Variable { index } => {
            let wide: i64 = *index as i64;
            if wide < cutoff {
                Some(Term::Variable { index: *index })
            } else {
                let moved: i64 = wide + amount;
                if i32::MIN as i64 <= moved && moved <= i32::MAX as i64 {
                    Some(Term::Variable { index: moved as i32 })
                } else {
                    None
                }
            }
        },
        Term::Application { function, argument } => {
            let function = shift_wide(&**function, cutoff, amount)?;
            let argument = shift_wide(&**argument, cutoff, amount)?;
            Some(Term::Application { function: Box::new(function), argument: Box::new(argument) })
        },
        Term::Binder { bind, type_annotation, body } => {
            let annotation = shift_wide(&**type_annotation, cutoff, amount)?;
            let inner: i64 = if cutoff < PAST_LAST_INDEX {
                cutoff + 1
            } else {
                cutoff
            };
            proof {
                if cutoff == PAST_LAST_INDEX {
                    lemma_model_fits(&**body);
                    lemma_shift_beyond(body@, cutoff as int, amount as int);
                    lemma_shift_beyond(body@, cutoff + 1, amount as int);
                }
            }
            let body = shift_wide(&**body, inner, amount)?;
            Some(
                Term::Binder { bind: *bind, type_annotation: Box::new(annotation), body: Box::new(body) },
            )
        },
    }
}

/// Adds `amount` to every index of `term` that is at least `cutoff`, where the cutoff counts
/// the binders crossed on the way down. Returns `None` exactly when an index would leave
/// the range of `i32`.
pub fn shift(term: Term, cutoff: i32, amount: i32) -> (shifted: Option<Term>)
    ensures
        shifted is Some <==> term@.shift(cutoff as int, amount as int).fits(),
        shifted is Some ==> shifted->0@ == term@.shift(cutoff as int, amount as int),
{
    shift_wide(&term, cutoff as i64, amount as i64)
}

/// `substitute` on borrowed terms. `var` is the variable to replace at this place and
/// `depth` the number of binders crossed since the start: the value is shifted by it
/// where it is put in.
fn substitute_wide(term: &Term, value: &Term, var: i64, depth: i64) -> (replaced: Option<Term>)
    requires
        i32::MIN <= var <= PAST_LAST_INDEX,
        0 <= depth <= var - i32::MIN,
    ensures
        replaced is Some <==> term@.substitute(value@.shift(0, depth as int), var as int).fits(),
        replaced is Some ==> replaced->0@ == term@.substitute(
            value@.shift(0, depth as int),
            var as int,
        ),
    decreases term,
{
    match term {
        Term::Constant(sort) => Some(Term::Constant(*sort)),
        Term::Variable { index } => {
            if *index as i64 == var {
                shift_wide(value, 0, depth)
            } else {
                Some(Term::Variable { index: *index })
            }
        },
        Term::Application { function, argument } => {
            let function = substitute_wide(&**function, value, var, depth)?;
            let argument = substitute_wide(&**argument, value, var, depth)?;
            Some(Term::Application { function: Box::new(function), argument: Box::new(argument) })
        },
        Term::Binder { bind, type_annotation, body } => {
            let annotation = substitute_wide(&**type_annotation, value, var, depth)?;
            proof {
                lemma_shift_compose(value@, 0, depth as int, 1);
                lemma_model_fits(&**body);
            }
            let body = if var < PAST_LAST_INDEX {
                substitute_wide(&**body, value, var + 1, depth + 1)?
            } else {
                proof {
                    lemma_substitute_beyond(body@, value@.shift(0, depth + 1), var + 1);
                }
                (&**body).clone()
            };
            Some(
                Term::Binder { bind: *bind, type_annotation: Box::new(annotation), body: Box::new(body) },
            )
        },
    }
}

/// Replaces every occurrence of the variable `var` in `term` by `value`, shifted up by the
/// number of binders between the root of `term` and the occurrence. Returns `None`
/// exactly when an index of the result would leave the range of `i32`.
pub fn substitute(term: Term, value: Term, var: i32) -> (replaced: Option<Term>)
    ensures
        replaced is Some <==> term@.substitute(value@, var as int).fits(),
        replaced is Some ==> replaced->0@ == term@.substitute(value@, var as int),
{
    proof {
        lemma_shift_zero(value@, 0);
    }
    substitute_wide(&term, &value, var as i64, 0)
}

/// One beta step: `body` is the body of a binder that is applied to `argument`. The
/// argument is shifted up by one, put in place of variable 0, and the result is shifted
/// down by one. Returns `None` exactly when the shifted argument or the body with the
/// argument in place has an index outside the range of `i32`.
pub fn reduction_step(body: Term, argument: Term) -> (reduced: Option<Term>)
    ensures
        reduced is Some <==> Pseudoterm::reduction_fits(body@, argument@),
        reduced is Some ==> reduced->0@ == Pseudoterm::reduction_step(body@, argument@),
{
    let lifted = shift(argument, 0, 1)?;
    let replaced = substitute(body, lifted, 0)?;
    proof {
        lemma_shift_down_fits(replaced@, 0);
    }
    shift(replaced, 0, -1)
}

} // verus!
