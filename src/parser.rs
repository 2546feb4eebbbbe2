//! Fundamentals of the parser: errors, the alias retry protocol, and the
//! token lookahead and here-document queues.
use vstd::prelude::*;
use vstd::string::StringExecFns;
use crate::source::Location;
use crate::lex::{HereDoc, Lexer, PartialHereDoc, Token, TokenId, here_doc_at, lemma_here_doc_at_len, skipped_len, token_at};

verus! {

/// Types of errors that may happen in parsing.
#[derive(Clone, Debug)]
pub enum ErrorCause {
    /// Error in the underlying input function, with its message.
    IoError(String),
    /// The end of input was reached while a character was expected.
    EndOfInput,
    /// Unexpected token.
    UnexpectedToken,
    /// A here-document operator is missing its delimiter token.
    MissingHereDocDelimiter,
    /// A here-document operator is missing its corresponding content.
    MissingHereDocContent,
}

/// Whether two causes compare equal: input errors never do, the other
/// causes do when they are the same.
pub open spec fn same_cause(a: ErrorCause, b: ErrorCause) -> bool {
    match (a, b) {
        (ErrorCause::EndOfInput, ErrorCause::EndOfInput) => true,
        (ErrorCause::UnexpectedToken, ErrorCause::UnexpectedToken) => true,
        (ErrorCause::MissingHereDocDelimiter, ErrorCause::MissingHereDocDelimiter) => true,
        (ErrorCause::MissingHereDocContent, ErrorCause::MissingHereDocContent) => true,
        _ => false,
    }
}

impl PartialEq for ErrorCause {
    fn eq(&self, other: &Self) -> (r: bool)
        ensures
            r == same_cause(*self, *other),
    {
        match (self, other) {
            (ErrorCause::EndOfInput, ErrorCause::EndOfInput)
            | (ErrorCause::UnexpectedToken, ErrorCause::UnexpectedToken)
            | (ErrorCause::MissingHereDocDelimiter, ErrorCause::MissingHereDocDelimiter)
            | (ErrorCause::MissingHereDocContent, ErrorCause::MissingHereDocContent) => true,
            _ => false,
        }
    }
}

impl vstd::std_specs::cmp::PartialEqSpecImpl for ErrorCause {
    open spec fn obeys_eq_spec() -> bool {
        false
    }

    open spec fn eq_spec(&self, other: &ErrorCause) -> bool {
        same_cause(*self, *other)
    }
}

/// Text that describes an error cause.
pub open spec fn cause_message(c: ErrorCause) -> Seq<char> {
    match c {
        ErrorCause::IoError(m) => "Error while reading commands: "@ + m@,
        ErrorCause::EndOfInput => "Incomplete command"@,
        ErrorCause::UnexpectedToken => "Unexpected token"@,
        ErrorCause::MissingHereDocDelimiter => "The here-document operator is missing its delimiter"@,
        ErrorCause::MissingHereDocContent => "Content of the here-document is missing"@,
    }
}

impl ErrorCause {
    /// Describes the cause in words.
    pub fn message(&self) -> (r: String)
        ensures
            r@ == cause_message(*self),
    {
        match self {
            ErrorCause::IoError(m) => String::from_str("Error while reading commands: ").concat(m.as_str()),
            ErrorCause::EndOfInput => String::from_str("Incomplete command"),
            ErrorCause::UnexpectedToken => String::from_str("Unexpected token"),
            ErrorCause::MissingHereDocDelimiter => String::from_str(
                "The here-document operator is missing its delimiter",
            ),
            ErrorCause::MissingHereDocContent => String::from_str(
                "Content of the here-document is missing",
            ),
        }
    }

    /// Copies the cause.
    pub fn duplicate(&self) -> (r: ErrorCause)
        ensures
            r == *self,
    {
        match self {
            ErrorCause::IoError(m) => ErrorCause::IoError(m.clone()),
            ErrorCause::EndOfInput => ErrorCause::EndOfInput,
            ErrorCause::UnexpectedToken => ErrorCause::UnexpectedToken,
            ErrorCause::MissingHereDocDelimiter => ErrorCause::MissingHereDocDelimiter,
            ErrorCause::MissingHereDocContent => ErrorCause::MissingHereDocContent,
        }
    }
}

/// Explanation of a failure in parsing.
#[derive(Clone, Debug, PartialEq)]
pub struct Error {
    /// What went wrong.
    pub cause: ErrorCause,
    /// Where it went wrong.
    pub location: Location,
}

impl Error {
    /// Describes the error in words.
    pub fn message(&self) -> (r: String)
        ensures
            r@ == cause_message(self.cause),
    {
        self.cause.message()
    }

    /// Copies the error.
    pub fn duplicate(&self) -> (r: Error)
        ensures
            r == *self,
    {
        Error { cause: self.cause.duplicate(), location: self.location.duplicate() }
    }
}


/// Result of a parsing step that may restart after alias substitution.
#[derive(Debug, PartialEq, Eq)]
pub enum Rec<T> {
    /// Alias substitution occurred: nothing was produced, and the step has to
    /// be tried again on the substituted text.
    AliasSubstituted,
    /// Result produced without consuming any input character.
    Empty(T),
    /// Result produced by consuming one or more input characters.
    NonEmpty(T),
}

/// Parsing step, taking an argument of type `A`, that may be retried after
/// alias substitution.
///
/// Its state determines what the next attempt yields and the state after
/// it. Each attempt that ends in alias substitution lowers the number of
/// retries left, so that retrying ends.
pub trait Reparse<A, T>: Sized {
    /// What the next attempt on `a` yields.
    spec fn outcome(&self, a: &A) -> Result<Rec<T>, Error>;

    /// The state after the next attempt on `a`.
    spec fn after(&self, a: &A) -> Self;

    /// Bound on the number of alias substitutions still to come.
    spec fn retries(&self, a: &A) -> nat;

    /// Makes one attempt.
    fn attempt(&mut self, a: &A) -> (r: Result<Rec<T>, Error>)
        ensures
            r == old(self).outcome(a),
            *final(self) == old(self).after(a),
    ;

    /// An attempt that ends in alias substitution lowers the retries left.
    proof fn retry_decreases(&self, a: &A)
        requires
            self.outcome(a) == Ok::<Rec<T>, Error>(Rec::AliasSubstituted),
        ensures
            self.after(a).retries(a) < self.retries(a),
    ;
}

/// Parsing step whose outcomes come from elsewhere: it substitutes aliases
/// a given number of times, then yields a given outcome, then fails with the
/// error given for that, whatever the argument.
#[derive(Debug)]
pub struct Scripted<T> {
    substitutions: usize,
    result: Option<Result<Rec<T>, Error>>,
    exhausted: Error,
}

impl<T> Scripted<T> {
    /// Number of alias substitutions still to come.
    pub closed spec fn substitutions_left(&self) -> nat {
        self.substitutions as nat
    }

    /// Outcome after the substitutions, if not yielded yet.
    pub closed spec fn final_result(&self) -> Option<Result<Rec<T>, Error>> {
        self.result
    }

    /// Error of every attempt after the outcome was yielded.
    pub closed spec fn exhausted_error(&self) -> Error {
        self.exhausted
    }

    /// Creates a step that substitutes aliases `substitutions` times, then
    /// yields `result`, then fails with `exhausted`.
    pub fn new(substitutions: usize, result: Result<Rec<T>, Error>, exhausted: Error) -> (r: Scripted<T>)
        ensures
            r.substitutions_left() == substitutions,
            r.final_result() == Some(result),
            r.exhausted_error() == exhausted,
    {
        Scripted { substitutions, result: Some(result), exhausted }
    }
}

impl<A, T> Reparse<A, T> for Scripted<T> {
    open spec fn outcome(&self, a: &A) -> Result<Rec<T>, Error> {
        if self.substitutions_left() > 0 {
            Ok(Rec::AliasSubstituted)
        } else {
            match self.final_result() {
                Some(r) => r,
                None => Err(self.exhausted_error()),
            }
        }
    }

    closed spec fn after(&self, a: &A) -> Self {
        if self.substitutions > 0 {
            Scripted { substitutions: (self.substitutions - 1) as usize, result: self.result, exhausted: self.exhausted }
        } else {
            Scripted { substitutions: 0, result: None, exhausted: self.exhausted }
        }
    }

    closed spec fn retries(&self, a: &A) -> nat {
        self.substitutions as nat + if self.result == Some(Ok::<Rec<T>, Error>(Rec::AliasSubstituted)) {
            1nat
        } else {
            0nat
        }
    }

    fn attempt(&mut self, a: &A) -> (r: Result<Rec<T>, Error>) {
        if self.substitutions > 0 {
            self.substitutions = self.substitutions - 1;
            Ok(Rec::AliasSubstituted)
        } else {
            match self.result.take() {
                Some(r) => r,
                None => Err(self.exhausted.duplicate()),
            }
        }
    }

    proof fn retry_decreases(&self, a: &A) {
    }
}

/// Outcome of retrying `f` on `a` until it stops substituting aliases, with
/// the state it ends in.
pub open spec fn finished<A, T, F: Reparse<A, T>>(f: F, a: A) -> (Result<T, Error>, F)
    decreases f.retries(&a),
    via finished_decreases::<A, T, F>
{
    match f.outcome(&a) {
        Err(e) => (Err(e), f.after(&a)),
        Ok(Rec::Empty(t)) => (Ok(t), f.after(&a)),
        Ok(Rec::NonEmpty(t)) => (Ok(t), f.after(&a)),
        Ok(Rec::AliasSubstituted) => finished(f.after(&a), a),
    }
}

#[via_fn]
proof fn finished_decreases<A, T, F: Reparse<A, T>>(f: F, a: A) {
    if f.outcome(&a) == Ok::<Rec<T>, Error>(Rec::AliasSubstituted) {
        f.retry_decreases(&a);
    }
}

/// Retries `f` on `a` until it yields a result that is not an alias
/// substitution.
fn finish_with<A, T, F: Reparse<A, T>>(f: &mut F, a: &A) -> (r: Result<T, Error>)
    ensures
        (r, *final(f)) == finished(*old(f), *a),
{
    loop
        invariant
            finished(*f, *a) == finished(*old(f), *a),
        decreases f.retries(a),
    {
        proof {
            if f.outcome(a) == Ok::<Rec<T>, Error>(Rec::AliasSubstituted) {
                f.retry_decreases(a);
            }
        }
        match f.attempt(a) {
            Err(e) => {
                return Err(e);
            },
            Ok(Rec::Empty(t)) => {
                return Ok(t);
            },
            Ok(Rec::NonEmpty(t)) => {
                return Ok(t);
            },
            Ok(Rec::AliasSubstituted) => {},
        }
    }
}

/// Repeatedly applies a parsing step that may involve alias substitution
/// until it yields its final result, which is returned.
pub fn finish<T, F: Reparse<(), T>>(f: &mut F) -> (r: Result<T, Error>)
    ensures
        (r, *final(f)) == finished(*old(f), ()),
{
    finish_with(f, &())
}

/// Outcome of [`Rec::zip`] on `r` and `f`, with the state `f` ends in.
pub open spec fn zipped<T, U, F: Reparse<T, U>>(r: Rec<T>, f: F) -> (Result<Rec<(T, U)>, Error>, F) {
    match r {
        Rec::AliasSubstituted => (Ok(Rec::AliasSubstituted), f),
        Rec::Empty(t) => (
            match f.outcome(&t) {
                Err(e) => Err(e),
                Ok(Rec::AliasSubstituted) => Ok(Rec::AliasSubstituted),
                Ok(Rec::Empty(u)) => Ok(Rec::Empty((t, u))),
                Ok(Rec::NonEmpty(u)) => Ok(Rec::NonEmpty((t, u))),
            },
            f.after(&t),
        ),
        Rec::NonEmpty(t) => (
            match finished(f, t).0 {
                Err(e) => Err(e),
                Ok(u) => Ok(Rec::NonEmpty((t, u))),
            },
            finished(f, t).1,
        ),
    }
}

impl<T> Rec<T> {
    /// Combines `self` with another parsing step.
    ///
    /// If `self` is `AliasSubstituted`, the result is `AliasSubstituted`
    /// without `f` being tried. If `self` is `Empty`, `f` is tried once on its
    /// value. If `self` is `NonEmpty`, `f` is retried until it yields a result
    /// that is not `AliasSubstituted`, and the result is `NonEmpty`. The
    /// values of both are paired.
    pub fn zip<U, F: Reparse<T, U>>(self, f: &mut F) -> (r: Result<Rec<(T, U)>, Error>)
        ensures
            (r, *final(f)) == zipped(self, *old(f)),
    {
        match self {
            Rec::AliasSubstituted => Ok(Rec::AliasSubstituted),
            Rec::Empty(t) => match f.attempt(&t) {
                Err(e) => Err(e),
                Ok(Rec::AliasSubstituted) => Ok(Rec::AliasSubstituted),
                Ok(Rec::Empty(u)) => Ok(Rec::Empty((t, u))),
                Ok(Rec::NonEmpty(u)) => Ok(Rec::NonEmpty((t, u))),
            },
            Rec::NonEmpty(t) => match finish_with(f, &t) {
                Err(e) => Err(e),
                Ok(u) => Ok(Rec::NonEmpty((t, u))),
            },
        }
    }

    /// Transforms the value in `self` by `f`.
    pub fn map<U, F: FnOnce(T) -> Result<U, Error>>(self, f: F) -> (r: Result<Rec<U>, Error>)
        requires
            self matches Rec::Empty(t) ==> call_requires(f, (t,)),
            self matches Rec::NonEmpty(t) ==> call_requires(f, (t,)),
        ensures
            self is AliasSubstituted ==> r == Ok::<Rec<U>, Error>(Rec::AliasSubstituted),
            self matches Rec::Empty(t) ==> match r {
                Ok(Rec::Empty(u)) => call_ensures(f, (t,), Ok::<U, Error>(u)),
                Err(e) => call_ensures(f, (t,), Err::<U, Error>(e)),
                _ => false,
            },
            self matches Rec::NonEmpty(t) ==> match r {
                Ok(Rec::NonEmpty(u)) => call_ensures(f, (t,), Ok::<U, Error>(u)),
                Err(e) => call_ensures(f, (t,), Err::<U, Error>(e)),
                _ => false,
            },
    {
        match self {
            Rec::AliasSubstituted => Ok(Rec::AliasSubstituted),
            Rec::Empty(t) => match f(t) {
                Ok(u) => Ok(Rec::Empty(u)),
                Err(e) => Err(e),
            },
            Rec::NonEmpty(t) => match f(t) {
                Ok(u) => Ok(Rec::NonEmpty(u)),
                Err(e) => Err(e),
            },
        }
    }
}


/// Contents of the here-documents `docs` read one after another from the
/// start of `s`, and the number of characters they take in all.
pub open spec fn here_docs_at(s: Seq<char>, docs: Seq<PartialHereDoc>) -> (Seq<Seq<char>>, nat)
    decreases docs.len(),
{
    if docs.len() == 0 {
        (Seq::empty(), 0)
    } else {
        let first = here_doc_at(s, docs[0].delimiter.value@, docs[0].remove_tabs);
        let rest = here_docs_at(s.skip(first.1 as int), docs.drop_first());
        (seq![first.0] + rest.0, first.1 + rest.1)
    }
}

/// Token at the start of `s` after blanks and a comment, and the characters
/// that are left after it.
pub open spec fn next_token(s: Seq<char>) -> ((TokenId, Seq<char>), Seq<char>) {
    let t = s.skip(skipped_len(s) as int);
    let (id, n) = token_at(t);
    ((id, t.take(n as int)), t.skip(n as int))
}

/// Parser state: the lexer it reads, the token read ahead if any, and the
/// here-documents whose content is still to be read or was read.
#[derive(Debug)]
pub struct Parser {
    lexer: Lexer,
    token: Option<Token>,
    unread_here_docs: Vec<PartialHereDoc>,
    read_here_docs: Vec<HereDoc>,
}

impl Parser {
    /// Internal consistency of the parser.
    pub closed spec fn wf(&self) -> bool {
        self.lexer.wf()
    }

    /// The lexer.
    pub closed spec fn lexer_state(&self) -> Lexer {
        self.lexer
    }

    /// The token read ahead, if any.
    pub closed spec fn pending(&self) -> Option<Token> {
        self.token
    }

    /// Here-documents whose content is still to be read, in order.
    pub closed spec fn unread(&self) -> Seq<PartialHereDoc> {
        self.unread_here_docs@
    }

    /// Here-documents whose content was read, in order.
    pub closed spec fn read(&self) -> Seq<HereDoc> {
        self.read_here_docs@
    }

    /// Creates a parser that reads tokens from `lexer`.
    pub fn new(lexer: Lexer) -> (r: Parser)
        requires
            lexer.wf(),
        ensures
            r.wf(),
            r.lexer_state() == lexer,
            r.pending() is None,
            r.unread() == Seq::<PartialHereDoc>::empty(),
            r.read() == Seq::<HereDoc>::empty(),
    {
        Parser { lexer, token: None, unread_here_docs: Vec::new(), read_here_docs: Vec::new() }
    }

    /// Whether a token was read ahead and not taken yet.
    pub fn has_pending_token(&self) -> (r: bool)
        ensures
            r == self.pending() is Some,
    {
        self.token.is_some()
    }

    /// Gives the lexer back.
    pub fn into_lexer(self) -> (r: Lexer)
        ensures
            r == self.lexer_state(),
    {
        self.lexer
    }

    /// Reads the next token if none is read ahead.
    fn require_token(&mut self)
        requires
            old(self).wf(),
        ensures
            final(self).wf(),
            final(self).pending() is Some,
            old(self).pending() is Some ==> *final(self) == *old(self),
            old(self).pending() is None ==> ({
                let ((id, text), rest) = next_token(old(self).lexer_state().upcoming());
                &&& final(self).pending().unwrap().id == id
                &&& final(self).pending().unwrap().word.value@ == text
                &&& final(self).lexer_state().upcoming() == rest
            }),
            final(self).unread() == old(self).unread(),
            final(self).read() == old(self).read(),
    {
        if self.token.is_none() {
            self.lexer.skip_blanks_and_comment();
            let t = self.lexer.token();
            self.token = Some(t);
        }
    }

    /// Returns the next token, reading it from the lexer unless it was read
    /// ahead before. The token stays read ahead.
    pub fn peek_token(&mut self) -> (r: Result<Token, Error>)
        requires
            old(self).wf(),
        ensures
            final(self).wf(),
            final(self).pending() matches Some(t) && r == Ok::<Token, Error>(t),
            old(self).pending() is Some ==> *final(self) == *old(self),
            old(self).pending() is None ==> ({
                let ((id, text), rest) = next_token(old(self).lexer_state().upcoming());
                &&& final(self).pending().unwrap().id == id
                &&& final(self).pending().unwrap().word.value@ == text
                &&& final(self).lexer_state().upcoming() == rest
            }),
            final(self).unread() == old(self).unread(),
            final(self).read() == old(self).read(),
    {
        self.require_token();
        Ok(self.token.as_ref().unwrap().duplicate())
    }

    /// Consumes the next token, reading it from the lexer unless it was read
    /// ahead before.
    pub fn take_token(&mut self) -> (r: Result<Token, Error>)
        requires
            old(self).wf(),
        ensures
            final(self).wf(),
            final(self).pending() is None,
            old(self).pending() matches Some(t) ==> r == Ok::<Token, Error>(t)
                && final(self).lexer_state() == old(self).lexer_state(),
            old(self).pending() is None ==> ({
                let ((id, text), rest) = next_token(old(self).lexer_state().upcoming());
                &&& r matches Ok(t) && t.id == id && t.word.value@ == text
                &&& final(self).lexer_state().upcoming() == rest
            }),
            final(self).unread() == old(self).unread(),
            final(self).read() == old(self).read(),
    {
        self.require_token();
        Ok(self.token.take().unwrap())
    }

    /// Remembers a here-document whose content is to be read after the next
    /// newline token.
    pub fn memorize_unread_here_doc(&mut self, here_doc: PartialHereDoc)
        ensures
            final(self).unread() == old(self).unread().push(here_doc),
            final(self).read() == old(self).read(),
            final(self).pending() == old(self).pending(),
            final(self).lexer_state() == old(self).lexer_state(),
    {
        self.unread_here_docs.push(here_doc)
    }

    /// Reads the contents of the remembered here-documents, in the order
    /// they were remembered, and adds them to the here-documents read.
    ///
    /// This must be called just after a newline token was taken, with no
    /// token read ahead.
    pub fn here_doc_contents(&mut self) -> (r: Result<(), Error>)
        requires
            old(self).wf(),
            old(self).pending() is None,
        ensures
            r is Ok,
            final(self).wf(),
            final(self).pending() is None,
            final(self).unread() == Seq::<PartialHereDoc>::empty(),
            ({
                let s = old(self).lexer_state().upcoming();
                let docs = old(self).unread();
                let (contents, n) = here_docs_at(s, docs);
                &&& final(self).read().len() == old(self).read().len() + docs.len()
                &&& final(self).read().take(old(self).read().len() as int) == old(self).read()
                &&& forall|i: int| 0 <= i < docs.len() ==> {
                    let d = #[trigger] final(self).read()[old(self).read().len() + i];
                    &&& d.delimiter == docs[i].delimiter
                    &&& d.remove_tabs == docs[i].remove_tabs
                    &&& d.content@ == contents[i]
                }
                &&& final(self).lexer_state().upcoming() == s.skip(n as int)
            }),
    {
        let ghost s = self.lexer.upcoming();
        let ghost docs = self.unread_here_docs@;
        let ghost base = self.read_here_docs@;
        let mut i: usize = 0;
        proof {
            assert(docs.take(0) =~= Seq::<PartialHereDoc>::empty());
            assert(docs.skip(0) =~= docs);
            assert(s.skip(0) =~= s);
            assert(Seq::<Seq<char>>::empty() + here_docs_at(s, docs).0 =~= here_docs_at(s, docs).0);
            assert(self.read_here_docs@.take(base.len() as int) =~= base);
        }
        while i < self.unread_here_docs.len()
            invariant
                self.wf(),
                self.token is None,
                self.unread_here_docs@ == docs,
                i <= docs.len(),
                self.read_here_docs@.len() == base.len() + i,
                self.read_here_docs@.take(base.len() as int) == base,
                ({
                    let done = here_docs_at(s, docs.take(i as int));
                    let rest = here_docs_at(self.lexer.upcoming(), docs.skip(i as int));
                    &&& here_docs_at(s, docs).0 == done.0 + rest.0
                    &&& here_docs_at(s, docs).1 == done.1 + rest.1
                    &&& self.lexer.upcoming() == s.skip(done.1 as int)
                    &&& forall|j: int| 0 <= j < i ==> {
                        let d = #[trigger] self.read_here_docs@[base.len() + j];
                        &&& d.delimiter == docs[j].delimiter
                        &&& d.remove_tabs == docs[j].remove_tabs
                        &&& d.content@ == done.0[j]
                    }
                }),
            decreases docs.len() - i,
        {
            let partial = PartialHereDoc {
                delimiter: self.unread_here_docs[i].delimiter.duplicate(),
                remove_tabs: self.unread_here_docs[i].remove_tabs,
            };
            let ghost before = self.lexer.upcoming();
            let ghost old_read = self.read_here_docs@;
            let here_doc = self.lexer.here_doc_content(partial);
            proof {
                let done = here_docs_at(s, docs.take(i as int));
                let rest = here_docs_at(before, docs.skip(i as int));
                let one = here_doc_at(before, docs[i as int].delimiter.value@, docs[i as int].remove_tabs);
                lemma_here_docs_at_len(s, docs);
                lemma_here_docs_at_len(s, docs.take(i as int));
                lemma_here_docs_at_len(before.skip(one.1 as int), docs.skip(i + 1));
                lemma_here_doc_at_len(before, docs[i as int].delimiter.value@, docs[i as int].remove_tabs);
                lemma_here_docs_step(s, docs, i as int, before);
                let rest2 = here_docs_at(before.skip(one.1 as int), docs.skip(i + 1));
                assert(done.0 + rest.0 =~= done.0.push(one.0) + rest2.0);
                assert(s.skip(done.1 as int).skip(one.1 as int) =~= s.skip((done.1 + one.1) as int));
            }
            self.read_here_docs.push(here_doc);
            proof {
                assert(self.read_here_docs@.take(base.len() as int) =~= old_read.take(base.len() as int));
                let done2 = here_docs_at(s, docs.take(i + 1));
                assert forall|j: int| 0 <= j < i + 1 implies {
                    let d = #[trigger] self.read_here_docs@[base.len() + j];
                    &&& d.delimiter == docs[j].delimiter
                    &&& d.remove_tabs == docs[j].remove_tabs
                    &&& d.content@ == done2.0[j]
                } by {
                    if j < i {
                        assert(self.read_here_docs@[base.len() + j] == old_read[base.len() + j]);
                    }
                }
            }
            i = i + 1;
        }
        self.unread_here_docs = Vec::new();
        proof {
            assert(docs.take(docs.len() as int) =~= docs);
            assert(docs.skip(docs.len() as int) =~= Seq::<PartialHereDoc>::empty());
        }
        Ok(())
    }

    /// Checks that no here-document is left whose content was not read.
    ///
    /// Fails with `MissingHereDocContent` located at the delimiter of the
    /// first such here-document.
    pub fn ensure_no_unread_here_doc(&self) -> (r: Result<(), Error>)
        ensures
            r is Ok <==> self.unread().len() == 0,
            r matches Err(e) ==> e.cause == ErrorCause::MissingHereDocContent
                && e.location == self.unread()[0].delimiter.location,
    {
        if self.unread_here_docs.len() == 0 {
            Ok(())
        } else {
            Err(Error {
                cause: ErrorCause::MissingHereDocContent,
                location: self.unread_here_docs[0].delimiter.location.duplicate(),
            })
        }
    }

    /// Hands out the here-documents whose content was read, leaving none.
    pub fn take_read_here_docs(&mut self) -> (r: Vec<HereDoc>)
        ensures
            r@ == old(self).read(),
            final(self).read() == Seq::<HereDoc>::empty(),
            final(self).unread() == old(self).unread(),
            final(self).pending() == old(self).pending(),
            final(self).lexer_state() == old(self).lexer_state(),
    {
        let mut r: Vec<HereDoc> = Vec::new();
        std::mem::swap(&mut r, &mut self.read_here_docs);
        r
    }
}

/// Here-documents take no more characters than there are.
proof fn lemma_here_docs_at_len(s: Seq<char>, docs: Seq<PartialHereDoc>)
    ensures
        here_docs_at(s, docs).1 <= s.len(),
        here_docs_at(s, docs).0.len() == docs.len(),
    decreases docs.len(),
{
    if docs.len() > 0 {
        let first = here_doc_at(s, docs[0].delimiter.value@, docs[0].remove_tabs);
        lemma_here_doc_at_len(s, docs[0].delimiter.value@, docs[0].remove_tabs);
        lemma_here_docs_at_len(s.skip(first.1 as int), docs.drop_first());
    }
}

/// One more here-document read extends the contents read so far.
proof fn lemma_here_docs_step(s: Seq<char>, docs: Seq<PartialHereDoc>, i: int, at: Seq<char>)
    requires
        0 <= i < docs.len(),
        at == s.skip(here_docs_at(s, docs.take(i)).1 as int),
        here_docs_at(s, docs.take(i)).1 <= s.len(),
    ensures
        ({
            let done = here_docs_at(s, docs.take(i));
            let one = here_doc_at(at, docs[i].delimiter.value@, docs[i].remove_tabs);
            &&& here_docs_at(s, docs.take(i + 1)).0 == done.0.push(one.0)
            &&& here_docs_at(s, docs.take(i + 1)).1 == done.1 + one.1
            &&& here_docs_at(at, docs.skip(i)).0 == seq![one.0] + here_docs_at(at.skip(one.1 as int), docs.skip(i + 1)).0
            &&& here_docs_at(at, docs.skip(i)).1 == one.1 + here_docs_at(at.skip(one.1 as int), docs.skip(i + 1)).1
        }),
    decreases i,
{
    assert(docs.skip(i).drop_first() =~= docs.skip(i + 1));
    assert(docs.skip(i)[0] == docs[i]);
    if i == 0 {
        assert(docs.take(0) =~= Seq::<PartialHereDoc>::empty());
        assert(docs.take(1).drop_first() =~= Seq::<PartialHereDoc>::empty());
        assert(s.skip(0) =~= s);
        let one = here_doc_at(at, docs[0].delimiter.value@, docs[0].remove_tabs);
        assert(seq![one.0] + Seq::<Seq<char>>::empty() =~= Seq::<Seq<char>>::empty().push(one.0));
        assert(docs.take(1)[0] == docs[0]);
        assert(here_docs_at(at.skip(one.1 as int), docs.take(1).drop_first()) == (Seq::<Seq<char>>::empty(), 0nat));
        assert(here_docs_at(s, docs.take(1)).0 == seq![one.0] + Seq::<Seq<char>>::empty());
        assert(here_docs_at(s, docs.take(1)).1 == one.1);
        assert(here_docs_at(at, docs.skip(0)).0 == seq![one.0] + here_docs_at(at.skip(one.1 as int), docs.skip(1)).0);
    } else {
        let first = here_doc_at(s, docs[0].delimiter.value@, docs[0].remove_tabs);
        let tail = docs.drop_first();
        assert(docs.take(i).drop_first() =~= tail.take(i - 1));
        assert(docs.take(i + 1).drop_first() =~= tail.take(i));
        assert(docs.take(i)[0] == docs[0]);
        assert(docs.take(i + 1)[0] == docs[0]);
        let s1 = s.skip(first.1 as int);
        let done1 = here_docs_at(s1, tail.take(i - 1));
        lemma_here_doc_at_len(s, docs[0].delimiter.value@, docs[0].remove_tabs);
        assert(s1.skip(done1.1 as int) =~= s.skip((first.1 + done1.1) as int));
        lemma_here_docs_step(s1, tail, i - 1, at);
        assert(tail.skip(i - 1) =~= docs.skip(i));
        assert(tail.skip(i) =~= docs.skip(i + 1));
        assert(tail[i - 1] == docs[i]);
        let one = here_doc_at(at, docs[i].delimiter.value@, docs[i].remove_tabs);
        assert(seq![first.0] + done1.0.push(one.0) =~= (seq![first.0] + done1.0).push(one.0));
        assert(here_docs_at(s, docs.take(i)).0 == seq![first.0] + done1.0);
        assert(here_docs_at(s, docs.take(i + 1)).0 == seq![first.0] + here_docs_at(s1, tail.take(i)).0);
        assert(here_docs_at(at, docs.skip(i)).0 == seq![one.0] + here_docs_at(at.skip(one.1 as int), docs.skip(i + 1)).0);
    }
}


/// State of `f` after `n` attempts on `a`.
pub open spec fn attempted<A, T, F: Reparse<A, T>>(f: F, a: A, n: nat) -> F
    decreases n,
{
    if n == 0 {
        f
    } else {
        attempted(f.after(&a), a, (n - 1) as nat)
    }
}

/// However many alias substitutions come first, retrying yields the value
/// of the first attempt that does not substitute an alias.
pub proof fn finish_skips_substitutions<A, T, F: Reparse<A, T>>(f: F, a: A, n: nat, t: T)
    requires
        forall|k: nat| k < n ==> (#[trigger] attempted(f, a, k)).outcome(&a) == Ok::<Rec<T>, Error>(
            Rec::AliasSubstituted,
        ),
        attempted(f, a, n).outcome(&a) == Ok::<Rec<T>, Error>(Rec::Empty(t))
            || attempted(f, a, n).outcome(&a) == Ok::<Rec<T>, Error>(Rec::NonEmpty(t)),
    ensures
        finished(f, a).0 == Ok::<T, Error>(t),
    decreases n,
{
    if n > 0 {
        assert(attempted(f, a, 0) == f);
        assert forall|k: nat| k < (n - 1) as nat implies (#[trigger] attempted(f.after(&a), a, k)).outcome(&a)
            == Ok::<Rec<T>, Error>(Rec::AliasSubstituted) by {
            assert(attempted(f, a, k + 1) == attempted(f.after(&a), a, k));
        }
        assert(attempted(f, a, n) == attempted(f.after(&a), a, (n - 1) as nat));
        finish_skips_substitutions(f.after(&a), a, (n - 1) as nat, t);
    }
}

/// Here-documents queued in order get their contents in that order: the
/// first from the lines that follow the newline, each next one from the
/// lines after the delimiter line of the one before.
pub proof fn here_docs_in_order(s: Seq<char>, d1: PartialHereDoc, d2: PartialHereDoc, d3: PartialHereDoc)
    ensures
        ({
            let h1 = here_doc_at(s, d1.delimiter.value@, d1.remove_tabs);
            let s2 = s.skip(h1.1 as int);
            let h2 = here_doc_at(s2, d2.delimiter.value@, d2.remove_tabs);
            let s3 = s2.skip(h2.1 as int);
            let h3 = here_doc_at(s3, d3.delimiter.value@, d3.remove_tabs);
            here_docs_at(s, seq![d1, d2, d3]).0 == seq![h1.0, h2.0, h3.0]
        }),
{
    let docs = seq![d1, d2, d3];
    assert(docs.drop_first() =~= seq![d2, d3]);
    assert(docs.drop_first().drop_first() =~= seq![d3]);
    assert(seq![d3].drop_first() =~= Seq::<PartialHereDoc>::empty());
    let h1 = here_doc_at(s, d1.delimiter.value@, d1.remove_tabs);
    let s2 = s.skip(h1.1 as int);
    let h2 = here_doc_at(s2, d2.delimiter.value@, d2.remove_tabs);
    let s3 = s2.skip(h2.1 as int);
    let h3 = here_doc_at(s3, d3.delimiter.value@, d3.remove_tabs);
    assert(seq![d3][0] == d3);
    assert(seq![d2, d3][0] == d2);
    assert(docs[0] == d1);
    let e = here_docs_at(s3.skip(h3.1 as int), Seq::<PartialHereDoc>::empty());
    assert(e.0 =~= Seq::<Seq<char>>::empty());
    let r3 = here_docs_at(s3, seq![d3]);
    assert(r3.0 == seq![h3.0] + e.0);
    assert(r3.0 =~= seq![h3.0]);
    let r2 = here_docs_at(s2, seq![d2, d3]);
    assert(r2.0 == seq![h2.0] + r3.0);
    assert(r2.0 =~= seq![h2.0, h3.0]);
    assert(here_docs_at(s, docs).0 == seq![h1.0] + r2.0);
    assert(here_docs_at(s, docs).0 =~= seq![h1.0, h2.0, h3.0]);
}

} // verus!
