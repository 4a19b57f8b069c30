//! Type inference: one rule for each shape of term, over a context that is used as a
//! stack of the types of the variables in scope.

use crate::normalizer::normalize;
use crate::term::{lemma_model_injective, models, substitute, Bind, Pseudoterm, Sort, Term};
use vstd::prelude::*;

verus! {

/// Why a term has no type.
#[derive(Debug, Copy, Clone, PartialEq, Eq, Structural)]
pub enum ErrorKind {
    /// The term is `Kind`, the top sort, which nothing classifies.
    TopSortHasNoType,
    /// A variable's index has no entry in the context.
    UnboundVariable,
    /// The type of the function of an application does not reduce to a dependent
    /// function type.
    NotAFunctionType,
    /// The type of the argument of an application is not the domain of the function's
    /// type.
    TypeMismatch,
    /// The type of an application has an index outside the range of `i32`.
    IndexOverflow,
}

impl ErrorKind {
    /// The text of the message for this error.
    pub open spec fn text(self) -> Seq<char> {
        match self {
            ErrorKind::TopSortHasNoType => "Type Error: Kind does not have a type"@,
            ErrorKind::UnboundVariable => "Type Error: No type for variable"@,
            ErrorKind::NotAFunctionType => "Type Error: Function in application must be function typed"@,
            ErrorKind::TypeMismatch => "Type Error: Function type does not match argument type"@,
            ErrorKind::IndexOverflow => "Type Error: Variable index out of range"@,
        }
    }

    /// A message that describes the error to the user.
    pub fn message(&self) -> (message: String)
        ensures
            message@ == self.text(),
    {
        match self {
            ErrorKind::TopSortHasNoType => "Type Error: Kind does not have a type".to_owned(),
            ErrorKind::UnboundVariable => "Type Error: No type for variable".to_owned(),
            ErrorKind::NotAFunctionType => "Type Error: Function in application must be function typed".to_owned(),
            ErrorKind::TypeMismatch => "Type Error: Function type does not match argument type".to_owned(),
            ErrorKind::IndexOverflow => "Type Error: Variable index out of range".to_owned(),
        }
    }
}

/// The type of an application whose function has type `function_type` and whose argument
/// has type `argument_type`. The function's type must reduce to a dependent function
/// type; its annotation and the argument's type must have the same normal form; the
/// result is the body of the function type with that normal form in place of variable 0.
pub open spec fn type_of_application(
    function_type: Pseudoterm,
    argument_type: Pseudoterm,
) -> Result<Pseudoterm, ErrorKind> {
    match function_type.normal_form() {
        Pseudoterm::Binder(Bind::Type, annotation, body) => {
            let actual = argument_type.normal_form();
            if annotation.normal_form() != actual {
                Err(ErrorKind::TypeMismatch)
            } else if !body.substitute(actual, 0).fits() {
                Err(ErrorKind::IndexOverflow)
            } else {
                Ok(body.substitute(actual, 0))
            }
        },
        _ => Err(ErrorKind::NotAFunctionType),
    }
}

/// The type of `term` under `context`, which holds the types of the variables in scope,
/// outermost first: variable `index` has the type at position `len - index - 1`. The
/// first error met, going through function, argument, annotation and body in this order,
/// is the result.
pub open spec fn type_of(context: Seq<Pseudoterm>, term: Pseudoterm) -> Result<
    Pseudoterm,
    ErrorKind,
>
    decreases term,
{
    match term {
        Pseudoterm::Constant(Sort::Type) => Ok(Pseudoterm::Constant(Sort::Kind)),
        Pseudoterm::Constant(Sort::Kind) => Err(ErrorKind::TopSortHasNoType),
        Pseudoterm::Variable(index) => if 0 <= index < context.len() {
            Ok(context[context.len() - index - 1])
        } else {
            Err(ErrorKind::UnboundVariable)
        },
        Pseudoterm::Application(function, argument) => match type_of(context, *function) {
            Err(error) => Err(error),
            Ok(function_type) => match type_of(context, *argument) {
                Err(error) => Err(error),
                Ok(argument_type) => type_of_application(function_type, argument_type),
            },
        },
        Pseudoterm::Binder(bind, annotation, body) => match type_of(context, *annotation) {
            Err(error) => Err(error),
            Ok(_) => match type_of(context.push(*annotation), *body) {
                Err(error) => Err(error),
                Ok(body_type) => match bind {
                    Bind::Term => Ok(
                        Pseudoterm::Binder(Bind::Type, annotation, Box::new(body_type)),
                    ),
                    Bind::Type => Ok(body_type),
                },
            },
        },
    }
}

/// What an executable result says of the type of a pseudoterm.
pub open spec fn agrees(result: Result<Term, ErrorKind>, expected: Result<Pseudoterm, ErrorKind>) -> bool {
    match result {
        Ok(found) => expected == Ok::<Pseudoterm, ErrorKind>(found@),
        Err(error) => expected == Err::<Pseudoterm, ErrorKind>(error),
    }
}

/// The type of an application, from the type of its function and the type of its
/// argument.
pub fn application_type(function_type: Term, argument_type: Term) -> (result: Result<
    Term,
    ErrorKind,
>)
    ensures
        agrees(result, type_of_application(function_type@, argument_type@)),
{
    match normalize(function_type, None) {
        Term::Binder { bind: Bind::Type, type_annotation, body } => {
            let expected = normalize(*type_annotation, None);
            let actual = normalize(argument_type, None);
            proof {
                if expected@ == actual@ {
                    lemma_model_injective(&expected, &actual);
                }
            }
            if expected == actual {
                match substitute(*body, actual, 0) {
                    Some(found) => Ok(found),
                    None => Err(ErrorKind::IndexOverflow),
                }
            } else {
                Err(ErrorKind::TypeMismatch)
            }
        },
        _ => Err(ErrorKind::NotAFunctionType),
    }
}

/// Infers the type of `term` under `context`, the types of the variables in scope with
/// the outermost first. The context is extended while the body of a binder is checked
/// and is the same after the call as before it, whether the call succeeds or fails.
pub fn infer(context: &mut Vec<Term>, term: Term) -> (result: Result<Term, ErrorKind>)
    ensures
        final(context)@ == old(context)@,
        agrees(result, type_of(models(old(context)@), term@)),
    decreases term,
{
    match term {
        Term::Constant(Sort::Type) => Ok(Term::Constant(Sort::Kind)),
        Term::Constant(Sort::Kind) => Err(ErrorKind::TopSortHasNoType),
        Term::Variable { index } => {
            if 0 <= index && (index as usize) < context.len() {
                let position: usize = context.len() - 1 - index as usize;
                Ok(context[position].clone())
            } else {
                Err(ErrorKind::UnboundVariable)
            }
        },
        Term::Application { function, argument } => {
            let function_type = match infer(context, *function) {
                Ok(found) => found,
                Err(error) => {
                    return Err(error);
                },
            };
            let argument_type = match infer(context, *argument) {
                Ok(found) => found,
                Err(error) => {
                    return Err(error);
                },
            };
            application_type(function_type, argument_type)
        },
        Term::Binder { bind, type_annotation, body } => {
            let annotation = (&*type_annotation).clone();
            match infer(context, *type_annotation) {
                Ok(_) => {},
                Err(error) => {
                    return Err(error);
                },
            }
            context.push(annotation.clone());
            proof {
                assert(models(context@) == models(old(context)@).push(annotation@));
            }
            let body_type = infer(context, *body);
            context.pop();
            proof {
                assert(context@ == old(context)@);
            }
            match body_type {
                Err(error) => Err(error),
                Ok(found) => match bind {
                    Bind::Term => Ok(
                        Term::Binder {
                            bind: Bind::Type,
                            type_annotation: Box::new(annotation),
                            body: Box::new(found),
                        },
                    ),
                    Bind::Type => Ok(found),
                },
            }
        },
    }
}

} // verus!
