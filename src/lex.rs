//! Character-level lexer: reads input line by line and offers peek and
//! consume primitives over the characters read.
use vstd::prelude::*;
use crate::parser::{Error, ErrorCause};
use crate::source::{Line, Location, Source};
use crate::text::{chars_of, lemma_push};
use crate::op::{Operator, Trie, longest_match, operator_prefix, operators, well_formed};

verus! {

/// Input character with its location.
#[derive(Clone, Debug, PartialEq, Eq)]
pub struct SourceChar {
    /// Character value.
    pub value: char,
    /// Where the character is.
    pub location: Location,
}

/// Values of a sequence of source characters.
pub open spec fn char_values(cs: Seq<SourceChar>) -> Seq<char> {
    cs.map_values(|c: SourceChar| c.value)
}

/// Texts of a sequence of lines.
pub open spec fn line_texts(ls: Seq<String>) -> Seq<Seq<char>> {
    ls.map_values(|l: String| l@)
}

/// Column after `c`, saturating at the largest column.
pub open spec fn column_after(c: u64) -> u64 {
    if c < u64::MAX {
        (c + 1) as u64
    } else {
        c
    }
}

/// Character-level lexer over source code that arrives line by line.
///
/// The characters of a line enter the buffer when the lexer needs the first
/// of them. Once the input is exhausted, the end-of-input error is latched
/// and returned by every later request for a character.
#[derive(Debug)]
pub struct Lexer {
    source: Source,
    input: Vec<String>,
    next_line: usize,
    chars: Vec<SourceChar>,
    index: usize,
    origin: Location,
    end: Option<Error>,
    operators: Trie,
}

impl Lexer {
    /// Internal consistency of the lexer.
    pub closed spec fn wf(&self) -> bool {
        &&& self.index <= self.chars@.len()
        &&& self.next_line <= self.input@.len()
        &&& forall|i: int| 0 <= i < self.input@.len() ==> (#[trigger] self.input@[i])@.len() > 0
        &&& self.end is Some ==> self.index == self.chars@.len() && self.next_line == self.input@.len()
        &&& self.end matches Some(e) ==> e == self.end_error()
        &&& self.origin.column == 1 && self.origin.line.number == 1
        &&& well_formed(&self.operators)
        &&& forall|t: Seq<char>| #[trigger] longest_match(&self.operators, t) == operator_prefix(t)
    }

    /// Characters that are still to be read, buffered or not.
    pub closed spec fn upcoming(&self) -> Seq<char> {
        char_values(self.chars@.skip(self.index as int)) + line_texts(
            self.input@.skip(self.next_line as int),
        ).flatten()
    }

    /// Characters consumed so far.
    pub closed spec fn consumed(&self) -> Seq<char> {
        char_values(self.chars@.subrange(0, self.index as int))
    }

    /// Number of characters consumed so far.
    pub closed spec fn position(&self) -> nat {
        self.index as nat
    }

    /// The error that was latched, if any.
    pub closed spec fn latched(&self) -> Option<Error> {
        self.end
    }

    /// Number of input lines not yet read into the buffer.
    pub closed spec fn unread_lines(&self) -> nat {
        (self.input@.len() - self.next_line) as nat
    }

    /// Number of buffered characters not yet consumed.
    pub closed spec fn buffered(&self) -> nat {
        (self.chars@.len() - self.index) as nat
    }

    /// The end-of-input error: it is located one column past the last
    /// character read, or at the first column of the first line where
    /// nothing was read.
    pub closed spec fn end_error(&self) -> Error {
        if self.chars@.len() == 0 {
            Error { cause: ErrorCause::EndOfInput, location: self.origin }
        } else {
            let l = self.chars@.last().location;
            Error {
                cause: ErrorCause::EndOfInput,
                location: Location { line: l.line, column: column_after(l.column) },
            }
        }
    }

    /// What a request for the next character yields.
    pub open spec fn outcome(&self) -> Result<char, Error> {
        if self.upcoming().len() > 0 {
            Ok(self.upcoming()[0])
        } else {
            Err(self.end_error())
        }
    }

    /// Once the end-of-input error is latched, every request for a character
    /// yields that error.
    pub proof fn end_of_input_is_sticky(&self)
        requires
            self.wf(),
            self.latched() is Some,
        ensures
            self.outcome() == Err::<char, Error>(self.latched().unwrap()),
    {
        assert(char_values(self.chars@.skip(self.index as int)) =~= Seq::<char>::empty());
        assert(line_texts(self.input@.skip(self.next_line as int)) =~= Seq::<Seq<char>>::empty());
        assert(self.upcoming() =~= Seq::<char>::empty());
    }

    /// Creates a lexer that reads the given code.
    ///
    /// The code is cut into lines after each newline.
    pub fn with_source(source: Source, code: &str) -> (r: Lexer)
        ensures
            r.wf(),
            r.upcoming() == code@,
            r.position() == 0,
            r.latched() is None,
    {
        let cs = chars_of(code);
        let mut input: Vec<String> = Vec::new();
        let mut line: Vec<char> = Vec::new();
        let mut i: usize = 0;
        while i < cs.len()
            invariant
                cs@ == code@,
                i <= cs@.len(),
                forall|k: int| 0 <= k < input@.len() ==> (#[trigger] input@[k])@.len() > 0,
                line_texts(input@).flatten() + line@ == cs@.subrange(0, i as int),
            decreases cs@.len() - i,
        {
            let c = cs[i];
            line.push(c);
            proof {
                assert(cs@.subrange(0, i as int).push(c) =~= cs@.subrange(0, i as int + 1));
                assert(line_texts(input@).flatten() + line@ =~= cs@.subrange(0, i as int + 1));
            }
            if c == '\n' {
                let text = crate::text::string_of(&line);
                proof {
                    line_texts(input@).lemma_flatten_push(text@);
                    assert(line_texts(input@.push(text)) =~= line_texts(input@).push(text@));
                }
                input.push(text);
                line = Vec::new();
                assert(line_texts(input@).flatten() + line@ =~= line_texts(input@).flatten());
            }
            i = i + 1;
        }
        if line.len() > 0 {
            let text = crate::text::string_of(&line);
            proof {
                line_texts(input@).lemma_flatten_push(text@);
                assert(line_texts(input@.push(text)) =~= line_texts(input@).push(text@));
            }
            input.push(text);
        }
        assert(cs@.subrange(0, cs@.len() as int) =~= cs@);
        let origin = Location {
            line: Line { value: String::new(), number: 1, source },
            column: 1,
        };
        let r = Lexer {
            source,
            input,
            next_line: 0,
            chars: Vec::new(),
            index: 0,
            origin,
            end: None,
            operators: operators(),
        };
        proof {
            assert(r.chars@.skip(0) =~= Seq::<SourceChar>::empty());
            assert(char_values(r.chars@.skip(0)) =~= Seq::<char>::empty());
            assert(r.input@.skip(0) =~= r.input@);
            assert(r.upcoming() =~= code@);
        }
        r
    }

    /// Reads the next input line into the buffer.
    fn load_line(&mut self)
        requires
            old(self).wf(),
            old(self).index == old(self).chars@.len(),
            old(self).next_line < old(self).input@.len(),
        ensures
            final(self).wf(),
            final(self).upcoming() == old(self).upcoming(),
            final(self).position() == old(self).position(),
            final(self).latched() == old(self).latched(),
            final(self).unread_lines() < old(self).unread_lines(),
            final(self).buffered() > 0,
            final(self).consumed() == old(self).consumed(),
    {
        let n = self.next_line;
        let lines = self.input.len();
        assert(n < lines);
        let text = self.input[n].clone();
        let cs = chars_of(text.as_str());
        let number: u64 = if (n as u64) < u64::MAX { n as u64 + 1 } else { n as u64 };
        let line = Line { value: text, number, source: self.source };
        let mut buf: Vec<SourceChar> = Vec::new();
        let mut j: usize = 0;
        while j < cs.len()
            invariant
                buf@.len() == j,
                j <= cs@.len(),
                char_values(buf@) == cs@.subrange(0, j as int),
            decreases cs@.len() - j,
        {
            let column: u64 = if (j as u64) < u64::MAX { j as u64 + 1 } else { j as u64 };
            let v = cs[j];
            let sc = SourceChar { value: v, location: Location { line: line.clone(), column } };
            let ghost before = buf@;
            let ghost g = sc;
            buf.push(sc);
            proof {
                lemma_push(before, g);
                assert forall|k: int| 0 <= k < buf@.len() implies #[trigger] char_values(buf@)[k] == cs@.subrange(0, j as int + 1)[k] by {
                    if k < j {
                        assert(char_values(before)[k] == cs@.subrange(0, j as int)[k]);
                    }
                }
                assert(char_values(buf@) =~= cs@.subrange(0, j as int + 1));
            }
            j = j + 1;
        }
        let ghost old_chars = self.chars@;
        self.chars.append(&mut buf);
        self.next_line = n + 1;
        proof {
            let ls = line_texts(old(self).input@.skip(n as int));
            assert(ls.drop_first() =~= line_texts(self.input@.skip(n as int + 1)));
            assert(ls[0] == cs@);
            assert(cs@.subrange(0, cs@.len() as int) =~= cs@);
            assert(self.chars@.skip(self.index as int).map_values(|c: SourceChar| c.value) =~= cs@);
            assert(char_values(old_chars.skip(old_chars.len() as int)) =~= Seq::<char>::empty());
            assert(self.chars@.subrange(0, self.index as int) =~= old_chars.subrange(0, self.index as int));
        }
    }

    /// Returns the next character without consuming it.
    ///
    /// Once the input is exhausted, the end-of-input error is latched and
    /// returned by this and every later call.
    pub fn peek(&mut self) -> (r: Result<char, Error>)
        requires
            old(self).wf(),
        ensures
            final(self).wf(),
            r == old(self).outcome(),
            final(self).outcome() == old(self).outcome(),
            final(self).upcoming() == old(self).upcoming(),
            final(self).position() == old(self).position(),
            final(self).consumed() == old(self).consumed(),
            old(self).latched() matches Some(e) ==> r == Err::<char, Error>(e),
            r matches Err(e) ==> final(self).latched() == Some(e),
            r is Ok ==> final(self).latched() == old(self).latched(),
            final(self).unread_lines() <= old(self).unread_lines(),
            r is Ok ==> final(self).buffered() > 0,
            r is Ok ==> final(self).unread_lines() < old(self).unread_lines()
                || (final(self).unread_lines() == old(self).unread_lines() && final(self).buffered() == old(self).buffered()),
    {
        if let Some(e) = &self.end {
            return Err(e.duplicate());
        }
        if self.index == self.chars.len() && self.next_line < self.input.len() {
            self.load_line();
        }
        if self.index < self.chars.len() {
            let c = self.chars[self.index].value;
            proof {
                assert(char_values(self.chars@.skip(self.index as int))[0] == c);
            }
            Ok(c)
        } else {
            proof {
                assert(char_values(self.chars@.skip(self.index as int)) =~= Seq::<char>::empty());
                assert(self.input@.skip(self.next_line as int) =~= Seq::<String>::empty());
                assert(line_texts(self.input@.skip(self.next_line as int)) =~= Seq::<Seq<char>>::empty());
                assert(self.upcoming() =~= Seq::<char>::empty());
            }
            let location = if self.chars.len() == 0 {
                self.origin.duplicate()
            } else {
                let last = &self.chars[self.chars.len() - 1].location;
                let column = if last.column < u64::MAX { last.column + 1 } else { last.column };
                Location { line: last.line.duplicate(), column }
            };
            let e = Error { cause: ErrorCause::EndOfInput, location };
            self.end = Some(e.duplicate());
            Err(e)
        }
    }

    /// Consumes the next character and returns it.
    pub fn next(&mut self) -> (r: Result<char, Error>)
        requires
            old(self).wf(),
        ensures
            final(self).wf(),
            r == old(self).outcome(),
            r is Ok ==> final(self).upcoming() == old(self).upcoming().drop_first(),
            r is Ok ==> final(self).position() == old(self).position() + 1,
            r matches Ok(c) ==> final(self).consumed() == old(self).consumed().push(c),
            r is Err ==> final(self).consumed() == old(self).consumed(),
            r is Ok ==> final(self).latched() == old(self).latched(),
            r is Err ==> final(self).outcome() == old(self).outcome(),
            r is Err ==> final(self).upcoming() == old(self).upcoming(),
            r is Err ==> final(self).position() == old(self).position(),
            old(self).latched() matches Some(e) ==> r == Err::<char, Error>(e),
            r matches Err(e) ==> final(self).latched() == Some(e),
            r is Ok ==> final(self).unread_lines() < old(self).unread_lines()
                || (final(self).unread_lines() == old(self).unread_lines() && final(self).buffered() < old(self).buffered()),
    {
        let r = self.peek();
        if r.is_ok() {
            proof {
                assert(self.chars@.subrange(0, self.index as int + 1) =~= self.chars@.subrange(0, self.index as int).push(self.chars@[self.index as int]));
                assert(char_values(self.chars@.subrange(0, self.index as int + 1)) =~= char_values(self.chars@.subrange(0, self.index as int)).push(self.chars@[self.index as int].value));
                let cs = self.chars@.skip(self.index as int);
                assert(char_values(self.chars@.skip(self.index as int + 1)) =~= char_values(cs).drop_first());
            }
            let len = self.chars.len();
            assert(self.index < len);
            self.index = self.index + 1;
        }
        r
    }

    /// Consumes the next character if `f` accepts it.
    ///
    /// `f` is called exactly once, on the next character, unless the input
    /// is exhausted. Returns the character it accepted, or `None` with
    /// nothing consumed.
    pub fn next_if<F: Fn(char) -> bool>(&mut self, f: F) -> (r: Result<Option<char>, Error>)
        requires
            old(self).wf(),
            forall|c: char| call_requires(f, (c,)),
        ensures
            final(self).wf(),
            old(self).outcome() matches Err(e) ==> r == Err::<Option<char>, Error>(e),
            old(self).outcome() matches Ok(c) ==> (r matches Ok(Some(d)) && d == c && call_ensures(f, (c,), true)
                && final(self).upcoming() == old(self).upcoming().drop_first()
                && final(self).consumed() == old(self).consumed().push(c)
                && final(self).position() == old(self).position() + 1)
                || (r == Ok::<Option<char>, Error>(None) && call_ensures(f, (c,), false)
                && final(self).upcoming() == old(self).upcoming()
                && final(self).consumed() == old(self).consumed()
                && final(self).position() == old(self).position()),
            r is Err ==> final(self).outcome() == old(self).outcome(),
            r is Err ==> final(self).upcoming() == old(self).upcoming(),
            r is Err ==> final(self).position() == old(self).position(),
            r is Err ==> final(self).consumed() == old(self).consumed(),
            r matches Err(e) ==> final(self).latched() == Some(e),
            r is Ok ==> final(self).latched() == old(self).latched(),
    {
        match self.peek() {
            Err(e) => Err(e),
            Ok(c) => {
                if f(c) {
                    let _ = self.next();
                    Ok(Some(c))
                } else {
                    Ok(None)
                }
            },
        }
    }

    /// Returns the location of the next character, or the end-of-input
    /// error.
    pub fn location(&mut self) -> (r: Result<Location, Error>)
        requires
            old(self).wf(),
        ensures
            final(self).wf(),
            r is Ok <==> old(self).outcome() is Ok,
            old(self).outcome() matches Err(e) ==> r == Err::<Location, Error>(e),
            final(self).outcome() == old(self).outcome(),
            final(self).upcoming() == old(self).upcoming(),
            final(self).position() == old(self).position(),
    {
        match self.peek() {
            Err(e) => Err(e),
            Ok(_) => Ok(self.chars[self.index].location.duplicate()),
        }
    }
}


/// Whether `c` is a blank that separates tokens.
pub open spec fn is_blank(c: char) -> bool {
    c == ' ' || c == '\t'
}

/// Number of blanks at the start of `s`.
pub open spec fn blanks_len(s: Seq<char>) -> nat
    decreases s.len(),
{
    if s.len() > 0 && is_blank(s[0]) {
        1 + blanks_len(s.drop_first())
    } else {
        0
    }
}

/// Number of characters of `s` before its first newline.
pub open spec fn line_rest_len(s: Seq<char>) -> nat
    decreases s.len(),
{
    if s.len() > 0 && s[0] != '\n' {
        1 + line_rest_len(s.drop_first())
    } else {
        0
    }
}

/// Number of characters of a comment at the start of `s`: from `#` up to,
/// not including, the next newline.
pub open spec fn comment_len(s: Seq<char>) -> nat {
    if s.len() > 0 && s[0] == '#' {
        line_rest_len(s)
    } else {
        0
    }
}

/// Number of characters that blanks and a comment take at the start of `s`.
pub open spec fn skipped_len(s: Seq<char>) -> nat {
    blanks_len(s) + comment_len(s.skip(blanks_len(s) as int))
}

/// Whether `c` may continue a word token.
pub open spec fn is_word_char(c: char) -> bool {
    !is_blank(c) && c != '\n' && c != '&' && c != '|' && c != '<'
}

/// Number of word characters at the start of `s`.
pub open spec fn word_chars_len(s: Seq<char>) -> nat
    decreases s.len(),
{
    if s.len() > 0 && is_word_char(s[0]) {
        1 + word_chars_len(s.drop_first())
    } else {
        0
    }
}

/// Classification of a token.
#[derive(Clone, Copy, Debug, PartialEq, Eq, Structural)]
pub enum TokenId {
    /// Word.
    Token,
    /// Operator.
    Operator(Operator),
    /// Newline.
    Newline,
    /// End of input.
    EndOfInput,
}

/// Word: a string of characters with the location of its first one.
#[derive(Clone, Debug, PartialEq, Eq)]
pub struct Word {
    /// Text of the word.
    pub value: String,
    /// Location of the first character of the word.
    pub location: Location,
}

impl Word {
    /// Text of the word.
    pub fn to_string(&self) -> (r: String)
        ensures
            r@ == self.value@,
    {
        self.value.clone()
    }

    /// Copies the word.
    pub fn duplicate(&self) -> (r: Word)
        ensures
            r == *self,
    {
        Word { value: self.value.clone(), location: self.location.duplicate() }
    }
}

/// Lexical unit: its classification and its text.
#[derive(Clone, Debug, PartialEq, Eq)]
pub struct Token {
    /// Text and location of the token.
    pub word: Word,
    /// Classification of the token.
    pub id: TokenId,
}

impl Token {
    /// Copies the token.
    pub fn duplicate(&self) -> (r: Token)
        ensures
            r == *self,
    {
        Token { word: self.word.duplicate(), id: self.id }
    }
}

/// Classification and length of the token at the start of `s`, which holds
/// no leading blank or comment.
pub open spec fn token_at(s: Seq<char>) -> (TokenId, nat) {
    if s.len() == 0 {
        (TokenId::EndOfInput, 0)
    } else if s[0] == '\n' {
        (TokenId::Newline, 1)
    } else {
        match operator_prefix(s) {
            Some((op, n)) => (TokenId::Operator(op), n),
            None => (TokenId::Token, 1 + word_chars_len(s.drop_first())),
        }
    }
}

/// The operator at the start of `s` depends on its first three characters
/// only.
proof fn lemma_operator_prefix_take(s: Seq<char>)
    ensures
        operator_prefix(s) == operator_prefix(s.take(if s.len() < 3 { s.len() as int } else { 3 })),
{
    let t = s.take(if s.len() < 3 { s.len() as int } else { 3 });
    assert(t.len() >= 1 ==> t[0] == s[0]);
    assert(t.len() >= 2 ==> t[1] == s[1]);
    assert(t.len() >= 3 ==> t[2] == s[2]);
}

impl Lexer {
    /// Index of the next character: the number consumed so far.
    pub fn index(&self) -> (r: usize)
        requires
            self.wf(),
        ensures
            r == self.position(),
    {
        self.index
    }

    /// Moves the position back to `index`, so that the characters consumed
    /// since then are read again.
    pub fn rewind(&mut self, index: usize)
        requires
            old(self).wf(),
            index <= old(self).position(),
        ensures
            final(self).wf(),
            final(self).position() == index,
            final(self).consumed() == old(self).consumed().take(index as int),
            final(self).upcoming() == old(self).consumed().skip(index as int) + old(self).upcoming(),
            index == old(self).position() ==> final(self).latched() == old(self).latched(),
    {
        if index < self.index {
            self.end = None;
        }
        proof {
            let cs = self.chars@;
            let i = index as int;
            let j = old(self).index as int;
            assert(cs.skip(i) =~= cs.subrange(i, j) + cs.skip(j));
            assert(char_values(cs.skip(i)) =~= char_values(cs.subrange(i, j)) + char_values(cs.skip(j)));
            assert(char_values(cs.subrange(0, j)).skip(i) =~= char_values(cs.subrange(i, j)));
            assert(char_values(cs.subrange(0, j)).take(i) =~= char_values(cs.subrange(0, i)));
        }
        self.index = index;
        proof {
            assert(self.upcoming() =~= old(self).consumed().skip(index as int) + old(self).upcoming());
        }
    }

    /// Skips blanks and a comment that follows them.
    pub fn skip_blanks_and_comment(&mut self)
        requires
            old(self).wf(),
        ensures
            final(self).wf(),
            final(self).upcoming() == old(self).upcoming().skip(skipped_len(old(self).upcoming()) as int),
    {
        let ghost orig = self.upcoming();
        let ghost mut k: nat = 0;
        loop
            invariant
                self.wf(),
                k <= orig.len(),
                self.upcoming() == orig.skip(k as int),
                blanks_len(orig) == k + blanks_len(self.upcoming()),
            ensures
                self.wf(),
                k <= orig.len(),
                self.upcoming() == orig.skip(k as int),
                blanks_len(orig) == k,
            decreases self.upcoming().len(),
        {
            let blank = |c: char| -> (b: bool)
                ensures
                    b == is_blank(c),
                { c == ' ' || c == '\t' };
            let ghost here = self.upcoming();
            match self.next_if(blank) {
                Ok(Some(_)) => {
                    proof {
                        assert(orig.skip(k as int).drop_first() =~= orig.skip(k as int + 1));
                        k = k + 1;
                    }
                },
                _ => {
                    assert(blanks_len(here) == 0);
                    break;
                },
            }
        }
        let ghost rest = self.upcoming();
        let ghost mut m: nat = 0;
        if let Ok('#') = self.peek() {
            loop
                invariant
                    self.wf(),
                    rest.len() > 0 && rest[0] == '#',
                    m <= rest.len(),
                    self.upcoming() == rest.skip(m as int),
                    line_rest_len(rest) == m + line_rest_len(self.upcoming()),
                ensures
                    self.wf(),
                    m <= rest.len(),
                    self.upcoming() == rest.skip(m as int),
                    line_rest_len(rest) == m,
                decreases self.upcoming().len(),
            {
                let not_newline = |c: char| -> (b: bool)
                    ensures
                        b == (c != '\n'),
                    { c != '\n' };
                let ghost here = self.upcoming();
                match self.next_if(not_newline) {
                    Ok(Some(_)) => {
                        proof {
                            assert(rest.skip(m as int).drop_first() =~= rest.skip(m as int + 1));
                            m = m + 1;
                        }
                    },
                    _ => {
                        assert(line_rest_len(here) == 0);
                        break;
                    },
                }
            }
            assert(comment_len(rest) == m);
        } else {
            assert(comment_len(rest) == 0);
        }
        proof {
            assert(orig.skip(k as int) == rest);
            assert(orig.skip(k as int).skip(m as int) =~= orig.skip(k as int + m as int));
        }
    }

    /// Reads up to `n` characters ahead without consuming them.
    #[verifier::rlimit(40)]
    fn read_ahead(&mut self, n: usize) -> (r: Vec<char>)
        requires
            old(self).wf(),
        ensures
            final(self).wf(),
            final(self).upcoming() == old(self).upcoming(),
            final(self).position() == old(self).position(),
            r@ == old(self).upcoming().take(
                if old(self).upcoming().len() < n { old(self).upcoming().len() as int } else { n as int },
            ),
            r@.len() < n ==> r@.len() == old(self).upcoming().len(),
    {
        let start = self.index();
        let ghost orig = self.upcoming();
        let ghost before = self.consumed();
        let mut r: Vec<char> = Vec::new();
        while r.len() < n
            invariant
                self.wf(),
                r@.len() <= n,
                r@.len() <= orig.len(),
                self.position() == start + r@.len(),
                self.consumed() == before + r@,
                self.upcoming() == orig.skip(r@.len() as int),
                r@ == orig.take(r@.len() as int),
                before.len() == start,
            ensures
                self.wf(),
                r@.len() <= n,
                r@.len() <= orig.len(),
                self.position() == start + r@.len(),
                self.consumed() == before + r@,
                self.upcoming() == orig.skip(r@.len() as int),
                r@ == orig.take(r@.len() as int),
                r@.len() < n ==> r@.len() == orig.len(),
            decreases n - r@.len(),
        {
            match self.next() {
                Ok(c) => {
                    proof {
                        assert(orig.skip(r@.len() as int).drop_first() =~= orig.skip(r@.len() as int + 1));
                        assert(orig.take(r@.len() as int).push(c) =~= orig.take(r@.len() as int + 1));
                    }
                    r.push(c);
                },
                Err(_) => {
                    assert(orig.skip(r@.len() as int).len() == 0);
                    break;
                },
            }
        }
        self.rewind(start);
        proof {
            assert((before + r@).skip(start as int) =~= r@);
            assert(r@ + orig.skip(r@.len() as int) =~= orig);
        }
        r
    }

    /// Reads the token at the current position, where no blank or comment
    /// precedes it.
    pub fn token(&mut self) -> (r: Token)
        requires
            old(self).wf(),
        ensures
            final(self).wf(),
            r.id == token_at(old(self).upcoming()).0,
            r.word.value@ == old(self).upcoming().take(token_at(old(self).upcoming()).1 as int),
            final(self).upcoming() == old(self).upcoming().skip(token_at(old(self).upcoming()).1 as int),
    {
        let ghost orig = self.upcoming();
        let location = match self.location() {
            Ok(l) => l,
            Err(e) => {
                assert(orig.len() == 0);
                assert(orig.take(0) =~= Seq::<char>::empty());
                assert(orig.skip(0) =~= orig);
                return Token {
                    word: Word { value: String::new(), location: e.location },
                    id: TokenId::EndOfInput,
                };
            },
        };
        let ahead = self.read_ahead(3);
        proof {
            lemma_operator_prefix_take(orig);
        }
        let first = ahead[0];
        let mut text: Vec<char> = Vec::new();
        if first == '\n' {
            let _ = self.next();
            text.push(first);
            proof {
                assert(text@ =~= orig.take(1));
            }
            return Token { word: Word { value: crate::text::string_of(&text), location }, id: TokenId::Newline };
        }
        match self.operators.longest_operator(&ahead) {
            Some((op, n)) => {
                let mut i: usize = 0;
                while i < n
                    invariant
                        self.wf(),
                        n <= orig.len(),
                        i <= n,
                        self.upcoming() == orig.skip(i as int),
                        text@ == orig.take(i as int),
                    decreases n - i,
                {
                    let c = self.next();
                    match c {
                        Ok(c) => {
                            proof {
                                assert(orig.skip(i as int).drop_first() =~= orig.skip(i as int + 1));
                                assert(orig.take(i as int).push(c) =~= orig.take(i as int + 1));
                            }
                            text.push(c);
                        },
                        Err(_) => {
                            assert(false);
                        },
                    }
                    i = i + 1;
                }
                Token { word: Word { value: crate::text::string_of(&text), location }, id: TokenId::Operator(op) }
            },
            None => {
                let _ = self.next();
                text.push(first);
                proof {
                    assert(orig.skip(0).drop_first() =~= orig.skip(1));
                    assert(text@ =~= orig.take(1));
                }
                let ghost mut k: nat = 1;
                loop
                    invariant
                        self.wf(),
                        1 <= k <= orig.len(),
                        self.upcoming() == orig.skip(k as int),
                        text@ == orig.take(k as int),
                        word_chars_len(orig.drop_first()) == (k - 1) + word_chars_len(self.upcoming()),
                    ensures
                        self.wf(),
                        1 <= k <= orig.len(),
                        self.upcoming() == orig.skip(k as int),
                        text@ == orig.take(k as int),
                        word_chars_len(orig.drop_first()) == k - 1,
                    decreases self.upcoming().len(),
                {
                    let word_char = |c: char| -> (b: bool)
                        ensures
                            b == is_word_char(c),
                        { c != ' ' && c != '\t' && c != '\n' && c != '&' && c != '|' && c != '<' };
                    let ghost here = self.upcoming();
                    match self.next_if(word_char) {
                        Ok(Some(c)) => {
                            proof {
                                assert(orig.skip(k as int).drop_first() =~= orig.skip(k as int + 1));
                                assert(orig.take(k as int).push(c) =~= orig.take(k as int + 1));
                                k = k + 1;
                            }
                            text.push(c);
                        },
                        _ => {
                            assert(word_chars_len(here) == 0);
                            break;
                        },
                    }
                }
                proof {
                    assert(orig.drop_first().skip(k - 1) =~= orig.skip(k as int));
                }
                Token { word: Word { value: crate::text::string_of(&text), location }, id: TokenId::Token }
            },
        }
    }
}


/// Number of characters of the line at the start of `s`, its newline
/// included.
pub open spec fn line_len(s: Seq<char>) -> nat {
    if line_rest_len(s) < s.len() {
        line_rest_len(s) + 1
    } else {
        line_rest_len(s)
    }
}

/// `s` without its leading tabs where `remove` holds.
pub open spec fn strip_tabs(s: Seq<char>, remove: bool) -> Seq<char>
    decreases s.len(),
{
    if remove && s.len() > 0 && s[0] == '\t' {
        strip_tabs(s.drop_first(), remove)
    } else {
        s
    }
}

/// Here-document at the start of `s`: its content, and the number of
/// characters it takes with its delimiter line.
///
/// The content is made of the lines that precede the first line that equals
/// the delimiter, each without its leading tabs where `remove` holds. It ends
/// with the input when no line equals the delimiter.
pub open spec fn here_doc_at(s: Seq<char>, delimiter: Seq<char>, remove: bool) -> (Seq<char>, nat)
    decreases s.len(),
{
    if s.len() == 0 {
        (Seq::empty(), 0)
    } else {
        let n = line_len(s);
        if 1 <= n <= s.len() {
            let line = strip_tabs(s.take(n as int), remove);
            let body = strip_tabs(s.take(line_rest_len(s) as int), remove);
            if body == delimiter {
                (Seq::empty(), n)
            } else {
                let rest = here_doc_at(s.skip(n as int), delimiter, remove);
                (line + rest.0, n + rest.1)
            }
        } else {
            (Seq::empty(), 0)
        }
    }
}

/// The length of the rest of a line does not exceed the text.
proof fn lemma_line_rest_len(s: Seq<char>)
    ensures
        line_rest_len(s) <= s.len(),
        s.len() > 0 ==> 1 <= line_len(s) <= s.len(),
        forall|i: int| 0 <= i < line_rest_len(s) ==> s[i] != '\n',
        line_rest_len(s) < s.len() ==> s[line_rest_len(s) as int] == '\n',
    decreases s.len(),
{
    if s.len() > 0 && s[0] != '\n' {
        lemma_line_rest_len(s.drop_first());
        assert forall|i: int| 0 <= i < line_rest_len(s) implies s[i] != '\n' by {
            if i > 0 {
                assert(s[i] == s.drop_first()[i - 1]);
            }
        }
    }
}

/// A here-document takes no more characters than there are.
pub proof fn lemma_here_doc_at_len(s: Seq<char>, delimiter: Seq<char>, remove: bool)
    ensures
        here_doc_at(s, delimiter, remove).1 <= s.len(),
    decreases s.len(),
{
    if s.len() > 0 {
        lemma_line_rest_len(s);
        lemma_here_doc_at_len(s.skip(line_len(s) as int), delimiter, remove);
    }
}

/// Here-document operator whose content is not read yet.
#[derive(Clone, Debug, PartialEq, Eq)]
pub struct PartialHereDoc {
    /// Delimiter that ends the content.
    pub delimiter: Word,
    /// Whether leading tabs are removed from the content lines.
    pub remove_tabs: bool,
}

/// Here-document with its content.
#[derive(Clone, Debug, PartialEq, Eq)]
pub struct HereDoc {
    /// Delimiter that ends the content.
    pub delimiter: Word,
    /// Whether leading tabs are removed from the content lines.
    pub remove_tabs: bool,
    /// Content of the here-document.
    pub content: String,
}

/// Copy of `s` without its leading tabs where `remove` holds.
fn strip_leading_tabs(s: &Vec<char>, remove: bool) -> (r: Vec<char>)
    ensures
        r@ == strip_tabs(s@, remove),
{
    let mut i: usize = 0;
    assert(s@.skip(0) =~= s@);
    if remove {
        while i < s.len() && s[i] == '\t'
            invariant
                remove,
                i <= s@.len(),
                strip_tabs(s@, remove) == strip_tabs(s@.skip(i as int), remove),
            decreases s@.len() - i,
        {
            assert(s@.skip(i as int)[0] == '\t');
            assert(s@.skip(i as int).len() > 0);
            assert(strip_tabs(s@.skip(i as int), remove) == strip_tabs(s@.skip(i as int).drop_first(), remove));
            assert(s@.skip(i as int).drop_first() =~= s@.skip(i as int + 1));
            i = i + 1;
        }
    }
    let mut r: Vec<char> = Vec::new();
    let start = i;
    while i < s.len()
        invariant
            start <= i <= s@.len(),
            r@ == s@.subrange(start as int, i as int),
        decreases s@.len() - i,
    {
        r.push(s[i]);
        assert(s@.subrange(start as int, i as int).push(s@[i as int]) =~= s@.subrange(start as int, i as int + 1));
        i = i + 1;
    }
    assert(s@.subrange(start as int, s@.len() as int) =~= s@.skip(start as int));
    assert(s@.skip(0) =~= s@);
    r
}

/// Whether two character vectors are equal.
fn same_chars(a: &Vec<char>, b: &Vec<char>) -> (r: bool)
    ensures
        r == (a@ == b@),
{
    if a.len() != b.len() {
        return false;
    }
    let mut i: usize = 0;
    while i < a.len()
        invariant
            a@.len() == b@.len(),
            i <= a@.len(),
            forall|j: int| 0 <= j < i ==> a@[j] == b@[j],
        decreases a@.len() - i,
    {
        if a[i] != b[i] {
            return false;
        }
        i = i + 1;
    }
    assert(a@ =~= b@);
    true
}

impl Lexer {
    /// Reads the line at the current position, its newline included.
    fn read_line(&mut self) -> (r: Vec<char>)
        requires
            old(self).wf(),
        ensures
            final(self).wf(),
            r@ == old(self).upcoming().take(line_len(old(self).upcoming()) as int),
            final(self).upcoming() == old(self).upcoming().skip(line_len(old(self).upcoming()) as int),
    {
        let ghost cur = self.upcoming();
        proof {
            lemma_line_rest_len(cur);
        }
        let mut line: Vec<char> = Vec::new();
        loop
            invariant_except_break
                line@.len() <= line_rest_len(cur),
            invariant
                self.wf(),
                line@ == cur.take(line@.len() as int),
                self.upcoming() == cur.skip(line@.len() as int),
                line_rest_len(cur) <= cur.len(),
                forall|i: int| 0 <= i < line_rest_len(cur) ==> cur[i] != '\n',
                line_rest_len(cur) < cur.len() ==> cur[line_rest_len(cur) as int] == '\n',
            ensures
                self.wf(),
                line@ == cur.take(line_len(cur) as int),
                self.upcoming() == cur.skip(line_len(cur) as int),
            decreases self.upcoming().len(),
        {
            match self.next() {
                Ok(c) => {
                    proof {
                        assert(cur.skip(line@.len() as int).drop_first() =~= cur.skip(line@.len() as int + 1));
                        assert(cur.take(line@.len() as int).push(c) =~= cur.take(line@.len() as int + 1));
                    }
                    line.push(c);
                    if c == '\n' {
                        break;
                    }
                },
                Err(_) => {
                    break;
                },
            }
        }
        line
    }

    /// Reads the content of a here-document that starts at the current
    /// position, up to and including its delimiter line.
    pub fn here_doc_content(&mut self, here_doc: PartialHereDoc) -> (r: HereDoc)
        requires
            old(self).wf(),
        ensures
            final(self).wf(),
            r.delimiter == here_doc.delimiter,
            r.remove_tabs == here_doc.remove_tabs,
            r.content@ == here_doc_at(old(self).upcoming(), here_doc.delimiter.value@, here_doc.remove_tabs).0,
            final(self).upcoming() == old(self).upcoming().skip(
                here_doc_at(old(self).upcoming(), here_doc.delimiter.value@, here_doc.remove_tabs).1 as int,
            ),
    {
        let delimiter = chars_of(here_doc.delimiter.value.as_str());
        let remove = here_doc.remove_tabs;
        let ghost orig = self.upcoming();
        let ghost d = here_doc.delimiter.value@;
        let ghost mut k: nat = 0;
        let mut content: Vec<char> = Vec::new();
        loop
            invariant_except_break
                k <= orig.len(),
                self.upcoming() == orig.skip(k as int),
                here_doc_at(orig, d, remove).0 == content@ + here_doc_at(self.upcoming(), d, remove).0,
                here_doc_at(orig, d, remove).1 == k + here_doc_at(self.upcoming(), d, remove).1,
            invariant
                self.wf(),
                delimiter@ == d,
            ensures
                self.wf(),
                here_doc_at(orig, d, remove).0 == content@,
                self.upcoming() == orig.skip(here_doc_at(orig, d, remove).1 as int),
            decreases self.upcoming().len(),
        {
            let ghost cur = self.upcoming();
            proof {
                lemma_line_rest_len(cur);
            }
            let line = self.read_line();
            if line.len() == 0 {
                assert(content@ + Seq::<char>::empty() =~= content@);
                break;
            }
            let mut body: Vec<char> = Vec::new();
            let mut i: usize = 0;
            while i < line.len() && line[i] != '\n'
                invariant
                    i <= line@.len(),
                    body@ == line@.take(i as int),
                    forall|j: int| 0 <= j < i ==> line@[j] != '\n',
                decreases line@.len() - i,
            {
                body.push(line[i]);
                assert(line@.take(i as int).push(line@[i as int]) =~= line@.take(i as int + 1));
                i = i + 1;
            }
            proof {
                assert(i as int == line_rest_len(cur) as int) by {
                    if (i as int) < line_rest_len(cur) as int {
                        assert(line@[i as int] == cur[i as int]);
                    } else if (i as int) > line_rest_len(cur) as int {
                        assert(line@[line_rest_len(cur) as int] == cur[line_rest_len(cur) as int]);
                    }
                }
                assert(body@ =~= cur.take(line_rest_len(cur) as int));
            }
            let stripped_body = strip_leading_tabs(&body, remove);
            if same_chars(&stripped_body, &delimiter) {
                proof {
                    assert(content@ + Seq::<char>::empty() =~= content@);
                    assert(orig.skip(k as int).skip(line_len(cur) as int) =~= orig.skip((k + line_len(cur)) as int));
                }
                break;
            }
            let stripped = strip_leading_tabs(&line, remove);
            proof {
                let rest = here_doc_at(cur.skip(line_len(cur) as int), d, remove);
                assert(stripped_body@ != d);
                assert(here_doc_at(cur, d, remove) == (stripped@ + rest.0, line_len(cur) + rest.1));
                assert(content@ + (stripped@ + rest.0) =~= (content@ + stripped@) + rest.0);
                assert(orig.skip(k as int).skip(line_len(cur) as int) =~= orig.skip((k + line_len(cur)) as int));
                k = k + line_len(cur);
            }
            let mut j: usize = 0;
            let ghost base = content@;
            while j < stripped.len()
                invariant
                    j <= stripped@.len(),
                    content@ == base + stripped@.take(j as int),
                decreases stripped@.len() - j,
            {
                content.push(stripped[j]);
                assert(stripped@.take(j as int).push(stripped@[j as int]) =~= stripped@.take(j as int + 1));
                j = j + 1;
            }
            assert(stripped@.take(stripped@.len() as int) =~= stripped@);
        }
        HereDoc {
            delimiter: here_doc.delimiter,
            remove_tabs: remove,
            content: crate::text::string_of(&content),
        }
    }
}

} // verus!
