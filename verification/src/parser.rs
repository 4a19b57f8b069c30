//! The surface syntax: `*` and `#` for the constants `Type` and `Kind`, `\x:A.b` for an
//! abstraction, `@x:A.b` for a dependent function type, juxtaposition for application and
//! parentheses for grouping. Identifiers become de Bruijn indices while the text is read.

use crate::term::{models, Bind, Pseudoterm, Sort, Term};
use std::collections::VecDeque;
use vstd::prelude::*;

verus! {

/// A token of the surface syntax. An identifier is held as the range of character
/// positions that spells it.
#[derive(Debug, Copy, Clone, PartialEq, Eq, Structural)]
pub enum Token {
    Star,
    Hash,
    Var(usize, usize),
    Lambda,
    ForAll,
    Dot,
    Colon,
    OpenP,
    CloseP,
}

/// Whether a character has the Unicode property `White_Space`, as `char::is_whitespace`
/// reports it.
pub uninterp spec fn char_is_whitespace(c: char) -> bool;

/// `char::is_whitespace`: the answer is a fixed property of the character, which the
/// contract names without spelling out the Unicode table.
#[verifier::external_body]
fn is_whitespace(c: char) -> (answer: bool)
    ensures
        answer == char_is_whitespace(c),
{
    c.is_whitespace()
}

/// The token that a reserved character stands for.
pub open spec fn symbol(c: char) -> Option<Token> {
    if c == '*' {
        Some(Token::Star)
    } else if c == '#' {
        Some(Token::Hash)
    } else if c == '\\' {
        Some(Token::Lambda)
    } else if c == '@' {
        Some(Token::ForAll)
    } else if c == '.' {
        Some(Token::Dot)
    } else if c == ':' {
        Some(Token::Colon)
    } else if c == '(' {
        Some(Token::OpenP)
    } else if c == ')' {
        Some(Token::CloseP)
    } else {
        None
    }
}

/// A character of an identifier: neither white space nor reserved.
pub open spec fn in_identifier(c: char) -> bool {
    !char_is_whitespace(c) && symbol(c) is None
}

/// Where the run of identifier characters that starts at `from` ends.
pub open spec fn identifier_end(text: Seq<char>, from: int) -> int
    decreases text.len() - from,
{
    if 0 <= from < text.len() && in_identifier(text[from]) {
        identifier_end(text, from + 1)
    } else {
        from
    }
}

/// The tokens of `text` from position `from` on. White space separates tokens and is
/// dropped; each reserved character is a token; each longest run of other characters is
/// one identifier.
pub open spec fn lex(text: Seq<char>, from: int) -> Seq<Token>
    decreases text.len() - from,
{
    if from < 0 || from >= text.len() {
        Seq::empty()
    } else if char_is_whitespace(text[from]) {
        lex(text, from + 1)
    } else if symbol(text[from]) is Some {
        seq![symbol(text[from])->0] + lex(text, from + 1)
    } else {
        let end = identifier_end(text, from + 1);
        if from < end <= text.len() {
            seq![Token::Var(#[verifier::truncate] (from as usize), #[verifier::truncate] (end as usize))]
                + lex(text, end)
        } else {
            Seq::empty()
        }
    }
}

/// The reserved character's token, if `c` is reserved.
fn symbol_of(c: char) -> (token: Option<Token>)
    ensures
        token == symbol(c),
{
    if c == '*' {
        Some(Token::Star)
    } else if c == '#' {
        Some(Token::Hash)
    } else if c == '\\' {
        Some(Token::Lambda)
    } else if c == '@' {
        Some(Token::ForAll)
    } else if c == '.' {
        Some(Token::Dot)
    } else if c == ':' {
        Some(Token::Colon)
    } else if c == '(' {
        Some(Token::OpenP)
    } else if c == ')' {
        Some(Token::CloseP)
    } else {
        None
    }
}

/// The characters of a string, in order.
fn characters(input: &str) -> (text: Vec<char>)
    ensures
        text@ == input@,
{
    let mut text: Vec<char> = Vec::new();
    for c in it: input.chars()
        invariant
            it.seq() == input@,
            text@ == it.seq().take(it.index()),
    {
        text.push(c);
    }
    text
}

/// Why a text is not a term.
#[derive(Debug, Copy, Clone, PartialEq, Eq, Structural)]
pub enum ParseError {
    /// Another token stands where this one is required.
    MissingToken(Token),
    /// The text ends where a token is required.
    OutOfTokens,
    /// No binder around an identifier has its spelling.
    UnboundIdentifier,
    /// A binder is not followed by the identifier that it binds.
    MissingBinderVariable,
    /// An expression holds no term.
    EmptyApplication,
    /// An identifier is bound so far out that `i32` cannot hold its index.
    IndexOverflow,
}

impl ParseError {
    /// The text of the message for this error.
    pub open spec fn text(self) -> Seq<char> {
        match self {
            ParseError::MissingToken(Token::Star) => "Parse Error: Missing required token Star"@,
            ParseError::MissingToken(Token::Hash) => "Parse Error: Missing required token Hash"@,
            ParseError::MissingToken(Token::Var(_, _)) => "Parse Error: Missing required token Var"@,
            ParseError::MissingToken(Token::Lambda) => "Parse Error: Missing required token Lambda"@,
            ParseError::MissingToken(Token::ForAll) => "Parse Error: Missing required token ForAll"@,
            ParseError::MissingToken(Token::Dot) => "Parse Error: Missing required token Dot"@,
            ParseError::MissingToken(Token::Colon) => "Parse Error: Missing required token Colon"@,
            ParseError::MissingToken(Token::OpenP) => "Parse Error: Missing required token OpenP"@,
            ParseError::MissingToken(Token::CloseP) => "Parse Error: Missing required token CloseP"@,
            ParseError::OutOfTokens => "Parse Error: Out of tokens"@,
            ParseError::UnboundIdentifier => "Parse Error: Missing variable in context"@,
            ParseError::MissingBinderVariable => "Parse Error: Missing variable in binder"@,
            ParseError::EmptyApplication => "Parse Error: No term in application"@,
            ParseError::IndexOverflow => "Parse Error: Variable index out of range"@,
        }
    }

    /// A message that describes the error to the user.
    pub fn message(&self) -> (message: String)
        ensures
            message@ == self.text(),
    {
        match self {
            ParseError::MissingToken(Token::Star) => "Parse Error: Missing required token Star".to_owned(),
            ParseError::MissingToken(Token::Hash) => "Parse Error: Missing required token Hash".to_owned(),
            ParseError::MissingToken(Token::Var(_, _)) => "Parse Error: Missing required token Var".to_owned(),
            ParseError::MissingToken(Token::Lambda) => "Parse Error: Missing required token Lambda".to_owned(),
            ParseError::MissingToken(Token::ForAll) => "Parse Error: Missing required token ForAll".to_owned(),
            ParseError::MissingToken(Token::Dot) => "Parse Error: Missing required token Dot".to_owned(),
            ParseError::MissingToken(Token::Colon) => "Parse Error: Missing required token Colon".to_owned(),
            ParseError::MissingToken(Token::OpenP) => "Parse Error: Missing required token OpenP".to_owned(),
            ParseError::MissingToken(Token::CloseP) => "Parse Error: Missing required token CloseP".to_owned(),
            ParseError::OutOfTokens => "Parse Error: Out of tokens".to_owned(),
            ParseError::UnboundIdentifier => "Parse Error: Missing variable in context".to_owned(),
            ParseError::MissingBinderVariable => "Parse Error: Missing variable in binder".to_owned(),
            ParseError::EmptyApplication => "Parse Error: No term in application".to_owned(),
            ParseError::IndexOverflow => "Parse Error: Variable index out of range".to_owned(),
        }
    }
}

/// The characters that a range of positions spells, where the range lies within the text.
pub open spec fn spelling(text: Seq<char>, range: (usize, usize)) -> Option<Seq<char>> {
    if range.0 <= range.1 <= text.len() {
        Some(text.subrange(range.0 as int, range.1 as int))
    } else {
        None
    }
}

/// Two ranges of the text spell the same identifier.
pub open spec fn same_spelling(text: Seq<char>, first: (usize, usize), second: (usize, usize)) -> bool {
    spelling(text, first) is Some && spelling(text, first) == spelling(text, second)
}

/// The de Bruijn index of the identifier `name` under the binders of `scope`, outermost
/// first: the number of binders between the occurrence and the innermost binder with
/// the same spelling.
pub open spec fn resolve(text: Seq<char>, scope: Seq<(usize, usize)>, name: (usize, usize)) -> Option<
    int,
>
    decreases scope.len(),
{
    if scope.len() == 0 {
        None
    } else if same_spelling(text, scope.last(), name) {
        Some(0)
    } else {
        match resolve(text, scope.drop_last(), name) {
            Some(index) => Some(index + 1),
            None => None,
        }
    }
}

/// The variable that an identifier denotes.
pub open spec fn variable(text: Seq<char>, scope: Seq<(usize, usize)>, name: (usize, usize)) -> Result<
    Pseudoterm,
    ParseError,
> {
    match resolve(text, scope, name) {
        None => Err(ParseError::UnboundIdentifier),
        Some(index) => if index <= i32::MAX {
            Ok(Pseudoterm::Variable(index))
        } else {
            Err(ParseError::IndexOverflow)
        },
    }
}

/// The tokens that are left when the next one, if there is one, has been taken.
pub open spec fn taken(tokens: Seq<Token>) -> Seq<Token> {
    if tokens.len() == 0 {
        tokens
    } else {
        tokens.drop_first()
    }
}

/// Whether the next token is `token`, or why it is not.
pub open spec fn required(tokens: Seq<Token>, token: Token) -> Result<(), ParseError> {
    if tokens.len() == 0 {
        Err(ParseError::OutOfTokens)
    } else if tokens[0] == token {
        Ok(())
    } else {
        Err(ParseError::MissingToken(token))
    }
}

/// What a step of the parse gives and leaves: the term or the error, the tokens not yet
/// read, and the binders in scope. After a success the scope is the one before the step;
/// after a failure the binders that were entered on the way to it are still in it.
pub struct Parsed {
    pub outcome: Result<Pseudoterm, ParseError>,
    pub rest: Seq<Token>,
    pub scope: Seq<(usize, usize)>,
}

/// The application of `head` to each of `arguments` in turn.
pub open spec fn applied(head: Pseudoterm, arguments: Seq<Pseudoterm>) -> Pseudoterm
    decreases arguments.len(),
{
    if arguments.len() == 0 {
        head
    } else {
        Pseudoterm::Application(
            Box::new(applied(head, arguments.drop_last())),
            Box::new(arguments.last()),
        )
    }
}

/// The term of a run of juxtaposed items: the last item is the head and is applied to
/// the items before it, first to last. An empty run is no term.
pub open spec fn finished(items: Seq<Pseudoterm>) -> Result<Pseudoterm, ParseError> {
    if items.len() == 0 {
        Err(ParseError::EmptyApplication)
    } else {
        Ok(applied(items.last(), items.drop_last()))
    }
}

/// The expression at the start of `tokens`, under the binders of `scope`.
pub open spec fn expression(text: Seq<char>, scope: Seq<(usize, usize)>, tokens: Seq<Token>) -> Parsed
    decreases tokens.len(), 1nat,
{
    sequence(text, scope, tokens, Seq::empty())
}

/// The rest of an expression of which `items` have been read. An identifier, a binder or
/// an expression in parentheses is one more item. A constant ends the expression and is
/// its term. `.`, `:`, `)` and the end of the tokens end the run, whose term is
/// `finished(items)`, and are left unread. A failure leaves the tokens as they are after
/// the token or the step that failed.
pub open spec fn sequence(
    text: Seq<char>,
    scope: Seq<(usize, usize)>,
    tokens: Seq<Token>,
    items: Seq<Pseudoterm>,
) -> Parsed
    decreases tokens.len(), 0nat,
{
    if tokens.len() == 0 {
        Parsed { outcome: finished(items), rest: tokens, scope }
    } else {
        let rest = tokens.drop_first();
        match tokens[0] {
            Token::Star => Parsed { outcome: Ok(Pseudoterm::Constant(Sort::Type)), rest, scope },
            Token::Hash => Parsed { outcome: Ok(Pseudoterm::Constant(Sort::Kind)), rest, scope },
            Token::Var(start, end) => match variable(text, scope, (start, end)) {
                Ok(term) => sequence(text, scope, rest, items.push(term)),
                Err(error) => Parsed { outcome: Err(error), rest, scope },
            },
            Token::Lambda => {
                let inner = binder(text, scope, rest, Bind::Term);
                match inner.outcome {
                    Ok(term) => if inner.rest.len() < tokens.len() {
                        sequence(text, scope, inner.rest, items.push(term))
                    } else {
                        inner
                    },
                    Err(_) => inner,
                }
            },
            Token::ForAll => {
                let inner = binder(text, scope, rest, Bind::Type);
                match inner.outcome {
                    Ok(term) => if inner.rest.len() < tokens.len() {
                        sequence(text, scope, inner.rest, items.push(term))
                    } else {
                        inner
                    },
                    Err(_) => inner,
                }
            },
            Token::OpenP => {
                let inner = expression(text, scope, rest);
                match inner.outcome {
                    Ok(term) => match required(inner.rest, Token::CloseP) {
                        Ok(_) => if taken(inner.rest).len() < tokens.len() {
                            sequence(text, scope, taken(inner.rest), items.push(term))
                        } else {
                            inner
                        },
                        Err(error) => Parsed {
                            outcome: Err(error),
                            rest: taken(inner.rest),
                            scope,
                        },
                    },
                    Err(_) => inner,
                }
            },
            _ => Parsed { outcome: finished(items), rest: tokens, scope },
        }
    }
}

/// The binder whose `\` or `@` has just been read: an identifier, `:`, the annotation,
/// `.`, and the body, in which the identifier is the innermost binder in scope. The
/// token in the identifier's place is taken whatever it is.
pub open spec fn binder(
    text: Seq<char>,
    scope: Seq<(usize, usize)>,
    tokens: Seq<Token>,
    bind: Bind,
) -> Parsed
    decreases tokens.len(), 0nat,
{
    if tokens.len() > 0 && tokens[0] is Var {
        let name = (tokens[0]->Var_0, tokens[0]->Var_1);
        let after_name = tokens.drop_first();
        match required(after_name, Token::Colon) {
            Err(error) => Parsed { outcome: Err(error), rest: taken(after_name), scope },
            Ok(_) => {
                let annotation = expression(text, scope, taken(after_name));
                match annotation.outcome {
                    Err(_) => annotation,
                    Ok(domain) => match required(annotation.rest, Token::Dot) {
                        Err(error) => Parsed {
                            outcome: Err(error),
                            rest: taken(annotation.rest),
                            scope,
                        },
                        Ok(_) => if taken(annotation.rest).len() < tokens.len() {
                            let body = expression(text, scope.push(name), taken(annotation.rest));
                            match body.outcome {
                                Err(_) => body,
                                Ok(inner) => Parsed {
                                    outcome: Ok(
                                        Pseudoterm::Binder(bind, Box::new(domain), Box::new(inner)),
                                    ),
                                    rest: body.rest,
                                    scope,
                                },
                            }
                        } else {
                            annotation
                        },
                    },
                }
            },
        }
    } else {
        Parsed { outcome: Err(ParseError::MissingBinderVariable), rest: taken(tokens), scope }
    }
}

/// The term that a text denotes: the first expression of its tokens, under no binder.
pub open spec fn parsed(text: Seq<char>) -> Result<Pseudoterm, ParseError> {
    expression(text, Seq::empty(), lex(text, 0)).outcome
}

/// An executable step has given `outcome` and left `tokens` and `scope`, as `parsed`
/// says.
pub open spec fn describes(
    parsed: Parsed,
    outcome: Result<Term, ParseError>,
    tokens: Seq<Token>,
    scope: Seq<(usize, usize)>,
) -> bool {
    &&& parsed.rest == tokens
    &&& parsed.scope == scope
    &&& match outcome {
        Ok(term) => parsed.outcome == Ok::<Pseudoterm, ParseError>(term@),
        Err(error) => parsed.outcome == Err::<Pseudoterm, ParseError>(error),
    }
}

/// An index that `resolve` finds counts binders of the scope.
pub proof fn lemma_resolve_bounds(text: Seq<char>, scope: Seq<(usize, usize)>, name: (usize, usize))
    ensures
        resolve(text, scope, name) matches Some(index) ==> 0 <= index < scope.len(),
    decreases scope.len(),
{
    if scope.len() > 0 && !same_spelling(text, scope.last(), name) {
        lemma_resolve_bounds(text, scope.drop_last(), name);
    }
}

/// An application of well-scoped pseudoterms is well scoped.
pub proof fn lemma_applied_scoped(head: Pseudoterm, arguments: Seq<Pseudoterm>, depth: int)
    requires
        head.scoped(depth),
        forall|position: int| 0 <= position < arguments.len() ==> arguments[position].scoped(depth),
    ensures
        applied(head, arguments).scoped(depth),
    decreases arguments.len(),
{
    if arguments.len() > 0 {
        lemma_applied_scoped(head, arguments.drop_last(), depth);
    }
}

/// An expression reads its tokens from the front, and its term is well scoped: every
/// variable refers to a binder of the term itself or of the scope.
pub proof fn lemma_expression_scoped(text: Seq<char>, scope: Seq<(usize, usize)>, tokens: Seq<Token>)
    ensures
        expression(text, scope, tokens).outcome matches Ok(term) ==> expression(
            text,
            scope,
            tokens,
        ).rest.len() <= tokens.len() && term.scoped(scope.len() as int),
    decreases tokens.len(), 1nat,
{
    lemma_sequence_scoped(text, scope, tokens, Seq::empty());
}

/// The same of the rest of an expression, where the items read so far are well scoped.
pub proof fn lemma_sequence_scoped(
    text: Seq<char>,
    scope: Seq<(usize, usize)>,
    tokens: Seq<Token>,
    items: Seq<Pseudoterm>,
)
    requires
        forall|position: int|
            0 <= position < items.len() ==> items[position].scoped(scope.len() as int),
    ensures
        sequence(text, scope, tokens, items).outcome matches Ok(term) ==> sequence(
            text,
            scope,
            tokens,
            items,
        ).rest.len() <= tokens.len() && term.scoped(scope.len() as int),
    decreases tokens.len(), 0nat,
{
    let depth = scope.len() as int;
    if items.len() > 0 {
        lemma_applied_scoped(items.last(), items.drop_last(), depth);
    }
    if tokens.len() > 0 {
        let rest = tokens.drop_first();
        match tokens[0] {
            Token::Var(start, end) => {
                lemma_resolve_bounds(text, scope, (start, end));
                if let Ok(term) = variable(text, scope, (start, end)) {
                    lemma_sequence_scoped(text, scope, rest, items.push(term));
                }
            },
            Token::Lambda => {
                lemma_binder_scoped(text, scope, rest, Bind::Term);
                let inner = binder(text, scope, rest, Bind::Term);
                if let Ok(term) = inner.outcome {
                    lemma_sequence_scoped(text, scope, inner.rest, items.push(term));
                }
            },
            Token::ForAll => {
                lemma_binder_scoped(text, scope, rest, Bind::Type);
                let inner = binder(text, scope, rest, Bind::Type);
                if let Ok(term) = inner.outcome {
                    lemma_sequence_scoped(text, scope, inner.rest, items.push(term));
                }
            },
            Token::OpenP => {
                lemma_expression_scoped(text, scope, rest);
                let inner = expression(text, scope, rest);
                if let Ok(term) = inner.outcome {
                    if required(inner.rest, Token::CloseP) is Ok {
                        lemma_sequence_scoped(text, scope, taken(inner.rest), items.push(term));
                    }
                }
            },
            _ => {},
        }
    }
}

/// The same of a binder.
pub proof fn lemma_binder_scoped(
    text: Seq<char>,
    scope: Seq<(usize, usize)>,
    tokens: Seq<Token>,
    bind: Bind,
)
    ensures
        binder(text, scope, tokens, bind).outcome matches Ok(term) ==> binder(
            text,
            scope,
            tokens,
            bind,
        ).rest.len() <= tokens.len() && term.scoped(scope.len() as int),
    decreases tokens.len(), 0nat,
{
    if tokens.len() > 0 && tokens[0] is Var {
        let name = (tokens[0]->Var_0, tokens[0]->Var_1);
        let after_name = tokens.drop_first();
        if required(after_name, Token::Colon) is Ok {
            lemma_expression_scoped(text, scope, taken(after_name));
            let annotation = expression(text, scope, taken(after_name));
            if annotation.outcome is Ok && required(annotation.rest, Token::Dot) is Ok {
                lemma_expression_scoped(text, scope.push(name), taken(annotation.rest));
            }
        }
    }
}

/// Applies `head` to each of `arguments` in turn.
fn applied_to(head: Term, arguments: Vec<Term>) -> (term: Term)
    ensures
        term@ == applied(head@, models(arguments@)),
    decreases arguments@.len(),
{
    let mut arguments = arguments;
    let ghost all = arguments@;
    match arguments.pop() {
        None => head,
        Some(last) => {
            proof {
                assert(models(arguments@) == models(all).drop_last());
            }
            let function = applied_to(head, arguments);
            Term::Application { function: Box::new(function), argument: Box::new(last) }
        },
    }
}

/// The state of a parse: the characters of the input, the tokens not yet read, and the
/// identifiers of the binders around the place that is being parsed, outermost first.
struct Parser {
    text: Vec<char>,
    tokens: VecDeque<Token>,
    context: Vec<(usize, usize)>,
}

impl Parser {
    /// Replaces the tokens by those of the whole text.
    fn tokenize(&mut self)
        ensures
            final(self).text == old(self).text,
            final(self).context@ == old(self).context@,
            final(self).tokens@ == lex(old(self).text@, 0),
    {
        let mut result: VecDeque<Token> = VecDeque::new();
        let length: usize = self.text.len();
        let mut position: usize = 0;
        while position < length
            invariant
                length == self.text@.len(),
                position <= length,
                self.text == old(self).text,
                self.context@ == old(self).context@,
                result@ + lex(self.text@, position as int) == lex(self.text@, 0),
            decreases length - position,
        {
            let c = self.text[position];
            if is_whitespace(c) {
                position = position + 1;
            } else {
                match symbol_of(c) {
                    Some(token) => {
                        proof {
                            assert(result@.push(token) + lex(self.text@, position + 1) == result@
                                + lex(self.text@, position as int));
                        }
                        result.push_back(token);
                        position = position + 1;
                    },
                    None => {
                        let start: usize = position;
                        position = position + 1;
                        while position < length && !is_whitespace(self.text[position])
                            && symbol_of(self.text[position]).is_none()
                            invariant
                                length == self.text@.len(),
                                start < position <= length,
                                identifier_end(self.text@, position as int) == identifier_end(
                                    self.text@,
                                    start + 1,
                                ),
                            decreases length - position,
                        {
                            position = position + 1;
                        }
                        proof {
                            let token = Token::Var(start, position);
                            assert(identifier_end(self.text@, position as int) == position);
                            assert(result@.push(token) + lex(self.text@, position as int)
                                == result@ + lex(self.text@, start as int));
                        }
                        result.push_back(Token::Var(start, position));
                    },
                }
            }
        }
        proof {
            assert(result@ + Seq::<Token>::empty() == result@);
        }
        self.tokens = result;
    }

    /// Takes the next token, if there is one.
    fn next(&mut self) -> (token: Option<Token>)
        ensures
            final(self).text == old(self).text,
            final(self).context@ == old(self).context@,
            match token {
                Some(first) => old(self).tokens@.len() > 0 && first == old(self).tokens@[0]
                    && final(self).tokens@ == old(self).tokens@.drop_first(),
                None => old(self).tokens@.len() == 0 && final(self).tokens@ == old(self).tokens@,
            },
    {
        self.tokens.pop_front()
    }

    /// Takes the next token, which must be `token`. The token is taken whether it is the
    /// required one or not.
    fn require(&mut self, token: Token) -> (outcome: Result<(), ParseError>)
        ensures
            final(self).text == old(self).text,
            final(self).context@ == old(self).context@,
            final(self).tokens@ == taken(old(self).tokens@),
            outcome == required(old(self).tokens@, token),
    {
        match self.next() {
            Some(found) => {
                if token == found {
                    Ok(())
                } else {
                    Err(ParseError::MissingToken(token))
                }
            },
            None => Err(ParseError::OutOfTokens),
        }
    }

    /// Whether two ranges of the text spell the same identifier.
    fn same(&self, first: (usize, usize), second: (usize, usize)) -> (answer: bool)
        ensures
            answer == same_spelling(self.text@, first, second),
    {
        let length: usize = self.text.len();
        if first.0 > first.1 || first.1 > length || second.0 > second.1 || second.1 > length {
            return false;
        }
        if first.1 - first.0 != second.1 - second.0 {
            proof {
                assert(spelling(self.text@, first)->0.len() != spelling(self.text@, second)->0.len());
            }
            return false;
        }
        let count: usize = first.1 - first.0;
        let mut offset: usize = 0;
        while offset < count
            invariant
                length == self.text@.len(),
                first.0 <= first.1 <= length,
                second.0 <= second.1 <= length,
                count == first.1 - first.0,
                count == second.1 - second.0,
                offset <= count,
                forall|k: int|
                    0 <= k < offset ==> #[trigger] self.text@.subrange(
                        first.0 as int,
                        first.1 as int,
                    )[k] == self.text@.subrange(second.0 as int, second.1 as int)[k],
            decreases count - offset,
        {
            if self.text[first.0 + offset] != self.text[second.0 + offset] {
                proof {
                    let left = spelling(self.text@, first)->0;
                    let right = spelling(self.text@, second)->0;
                    assert(left[offset as int] != right[offset as int]);
                }
                return false;
            }
            offset = offset + 1;
        }
        proof {
            assert(spelling(self.text@, first)->0 =~= spelling(self.text@, second)->0);
        }
        true
    }

    /// The variable that the identifier at `start..end` denotes: its index counts the
    /// binders between this place and the innermost binder of the same spelling.
    fn parse_var(&self, start: usize, end: usize) -> (outcome: Result<Term, ParseError>)
        ensures
            match outcome {
                Ok(term) => variable(self.text@, self.context@, (start, end)) == Ok::<
                    Pseudoterm,
                    ParseError,
                >(term@),
                Err(error) => variable(self.text@, self.context@, (start, end)) == Err::<
                    Pseudoterm,
                    ParseError,
                >(error),
            },
    {
        let depth: usize = self.context.len();
        let mut crossed: usize = 0;
        proof {
            assert(self.context@.take(depth as int) == self.context@);
        }
        while crossed < depth
            invariant
                depth == self.context@.len(),
                crossed <= depth,
                resolve(self.text@, self.context@, (start, end)) == match resolve(
                    self.text@,
                    self.context@.take(depth - crossed),
                    (start, end),
                ) {
                    Some(index) => Some(index + crossed),
                    None => None,
                },
            decreases depth - crossed,
        {
            let ghost outer = self.context@.take(depth - crossed);
            proof {
                assert(outer.drop_last() == self.context@.take(depth - crossed - 1));
            }
            if self.same(self.context[depth - 1 - crossed], (start, end)) {
                if crossed <= 0x7fff_ffff {
                    return Ok(Term::Variable { index: crossed as i32 });
                } else {
                    return Err(ParseError::IndexOverflow);
                }
            }
            crossed = crossed + 1;
        }
        proof {
            assert(self.context@.take(0).len() == 0);
        }
        Err(ParseError::UnboundIdentifier)
    }

    /// The run of items read so far, closed: its last item applied to the others.
    fn finish(items: Vec<Term>) -> (outcome: Result<Term, ParseError>)
        ensures
            match outcome {
                Ok(term) => finished(models(items@)) == Ok::<Pseudoterm, ParseError>(term@),
                Err(error) => finished(models(items@)) == Err::<Pseudoterm, ParseError>(error),
            },
    {
        let mut items = items;
        let ghost all = items@;
        match items.pop() {
            None => Err(ParseError::EmptyApplication),
            Some(head) => {
                proof {
                    assert(models(items@) == models(all).drop_last());
                }
                Ok(applied_to(head, items))
            },
        }
    }

    /// Parses the binder whose `\` or `@` has just been read. After a failure the tokens
    /// are those after the token or the step that failed, and an identifier whose body
    /// failed is still in the context.
    fn parse_binder(&mut self, bind: Bind) -> (outcome: Result<Term, ParseError>)
        ensures
            final(self).text == old(self).text,
            final(self).tokens@.len() <= old(self).tokens@.len(),
            outcome is Ok ==> final(self).context@ == old(self).context@,
            describes(
                binder(old(self).text@, old(self).context@, old(self).tokens@, bind),
                outcome,
                final(self).tokens@,
                final(self).context@,
            ),
        decreases old(self).tokens@.len(), 0nat,
    {
        match self.next() {
            Some(Token::Var(start, end)) => {
                match self.require(Token::Colon) {
                    Ok(_) => {},
                    Err(error) => {
                        return Err(error);
                    },
                }
                let annotation = match self.parse_expr() {
                    Ok(term) => term,
                    Err(error) => {
                        return Err(error);
                    },
                };
                match self.require(Token::Dot) {
                    Ok(_) => {},
                    Err(error) => {
                        return Err(error);
                    },
                }
                self.context.push((start, end));
                let body = match self.parse_expr() {
                    Ok(term) => term,
                    Err(error) => {
                        return Err(error);
                    },
                };
                self.context.pop();
                proof {
                    assert(self.context@ == old(self).context@);
                }
                Ok(
                    Term::Binder {
                        bind,
                        type_annotation: Box::new(annotation),
                        body: Box::new(body),
                    },
                )
            },
            _ => Err(ParseError::MissingBinderVariable),
        }
    }

    /// Parses one expression: a run of items, or the constant that ends it. The token
    /// that ends a run is put back. After a failure the tokens and the context are as the
    /// token or the step that failed left them.
    fn parse_expr(&mut self) -> (outcome: Result<Term, ParseError>)
        ensures
            final(self).text == old(self).text,
            final(self).tokens@.len() <= old(self).tokens@.len(),
            outcome is Ok ==> final(self).context@ == old(self).context@,
            describes(
                expression(old(self).text@, old(self).context@, old(self).tokens@),
                outcome,
                final(self).tokens@,
                final(self).context@,
            ),
        decreases old(self).tokens@.len(), 1nat,
    {
        let mut result: Vec<Term> = Vec::new();
        proof {
            assert(models(result@) == Seq::<Pseudoterm>::empty());
        }
        loop
            invariant
                self.text == old(self).text,
                self.context@ == old(self).context@,
                self.tokens@.len() <= old(self).tokens@.len(),
                sequence(self.text@, self.context@, self.tokens@, models(result@)) == expression(
                    old(self).text@,
                    old(self).context@,
                    old(self).tokens@,
                ),
            ensures
                self.text == old(self).text,
                self.context@ == old(self).context@,
                self.tokens@.len() <= old(self).tokens@.len(),
                expression(old(self).text@, old(self).context@, old(self).tokens@) == (Parsed {
                    outcome: finished(models(result@)),
                    rest: self.tokens@,
                    scope: self.context@,
                }),
            decreases self.tokens@.len(),
        {
            let ghost before = self.tokens@;
            let ghost items = models(result@);
            match self.next() {
                Some(Token::Star) => {
                    return Ok(Term::Constant(Sort::Type));
                },
                Some(Token::Hash) => {
                    return Ok(Term::Constant(Sort::Kind));
                },
                Some(Token::Var(start, end)) => {
                    let term = match self.parse_var(start, end) {
                        Ok(term) => term,
                        Err(error) => {
                            return Err(error);
                        },
                    };
                    result.push(term);
                    proof {
                        assert(models(result@) == items.push(term@));
                    }
                },
                Some(Token::Lambda) => {
                    let term = match self.parse_binder(Bind::Term) {
                        Ok(term) => term,
                        Err(error) => {
                            return Err(error);
                        },
                    };
                    result.push(term);
                    proof {
                        assert(models(result@) == items.push(term@));
                    }
                },
                Some(Token::ForAll) => {
                    let term = match self.parse_binder(Bind::Type) {
                        Ok(term) => term,
                        Err(error) => {
                            return Err(error);
                        },
                    };
                    result.push(term);
                    proof {
                        assert(models(result@) == items.push(term@));
                    }
                },
                Some(Token::OpenP) => {
                    let term = match self.parse_expr() {
                        Ok(term) => term,
                        Err(error) => {
                            return Err(error);
                        },
                    };
                    match self.require(Token::CloseP) {
                        Ok(_) => {},
                        Err(error) => {
                            return Err(error);
                        },
                    }
                    result.push(term);
                    proof {
                        assert(models(result@) == items.push(term@));
                    }
                },
                Some(token) => {
                    self.tokens.push_front(token);
                    proof {
                        assert(self.tokens@ == before);
                    }
                    break ;
                },
                None => {
                    break ;
                },
            }
        }
        Parser::finish(result)
    }
}

/// Parses the first expression of `tokens`, whose identifiers are ranges of `text`. The
/// result is the term that the grammar gives to the tokens under no binder; each of its
/// variables refers to a binder of the term.
pub fn parse_tokens(text: Vec<char>, tokens: VecDeque<Token>) -> (outcome: Result<Term, ParseError>)
    ensures
        match outcome {
            Ok(term) => expression(text@, Seq::empty(), tokens@).outcome == Ok::<
                Pseudoterm,
                ParseError,
            >(term@) && term@.scoped(0),
            Err(error) => expression(text@, Seq::empty(), tokens@).outcome == Err::<
                Pseudoterm,
                ParseError,
            >(error),
        },
{
    proof {
        lemma_expression_scoped(text@, Seq::empty(), tokens@);
    }
    let mut parser = Parser { text, tokens, context: Vec::new() };
    parser.parse_expr()
}

/// Parses the first expression of `input`. The result is the term that the grammar
/// gives to the tokens of the text; its variables are de Bruijn indices, and each refers
/// to a binder of the term.
pub fn parse(input: &str) -> (outcome: Result<Term, ParseError>)
    ensures
        match outcome {
            Ok(term) => parsed(input@) == Ok::<Pseudoterm, ParseError>(term@) && term@.scoped(0),
            Err(error) => parsed(input@) == Err::<Pseudoterm, ParseError>(error),
        },
{
    let mut parser = Parser { text: characters(input), tokens: VecDeque::new(), context: Vec::new() };
    parser.tokenize();
    parse_tokens(parser.text, parser.tokens)
}

} // verus!
