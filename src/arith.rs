//! Tokenization of arithmetic expressions.
use vstd::prelude::*;
use std::ops::Range;

verus! {

/// Value of an arithmetic term.
#[derive(Clone, Copy, Debug, PartialEq, Eq, Hash, Structural)]
pub enum Value {
    /// Integer.
    Integer(i64),
}

/// Term of an arithmetic expression.
#[derive(Debug, PartialEq, Eq, Hash)]
pub enum Term {
    /// Constant value.
    Value(Value),
    /// Variable, with the byte range of its name in the expression.
    Variable { name: String, location: Range<usize> },
}

/// Atomic lexical element of an expression.
#[derive(Debug, PartialEq, Eq, Hash)]
pub enum Token {
    /// Term.
    Term(Term),
}

/// Cause of a tokenization error.
#[derive(Clone, Copy, Debug, PartialEq, Eq, Hash, Structural)]
pub enum TokenError {
    /// A numeric constant holds an invalid character or is out of range.
    InvalidNumericConstant,
}

impl TokenError {
    /// Describes the error in words.
    pub fn message(&self) -> (r: &'static str)
        ensures
            r@ == "invalid numeric constant"@,
    {
        "invalid numeric constant"
    }
}

/// Description of a tokenization error.
#[derive(Debug, PartialEq, Eq, Hash)]
pub struct Error {
    /// Cause of the error.
    pub cause: TokenError,
    /// Byte range in the expression where the error occurred.
    pub location: Range<usize>,
}

/// Whether `c` has the Unicode `White_Space` property.
pub open spec fn is_space(c: char) -> bool {
    let u = c as u32;
    (0x09 <= u <= 0x0d) || u == 0x20 || u == 0x85 || u == 0xa0 || u == 0x1680 || (0x2000 <= u
        <= 0x200a) || u == 0x2028 || u == 0x2029 || u == 0x202f || u == 0x205f || u == 0x3000
}

/// Whether `c` has the Unicode `White_Space` property.
pub fn is_whitespace(c: char) -> (r: bool)
    ensures
        r == is_space(c),
{
    let u = c as u32;
    (0x09 <= u && u <= 0x0d) || u == 0x20 || u == 0x85 || u == 0xa0 || u == 0x1680 || (0x2000 <= u
        && u <= 0x200a) || u == 0x2028 || u == 0x2029 || u == 0x202f || u == 0x205f || u == 0x3000
}

/// Whether `c` is alphabetic or numeric in the sense of Unicode.
pub uninterp spec fn alphanumeric(c: char) -> bool;

/// Relies on `char::is_alphanumeric`: whether the character is alphabetic
/// or numeric; ASCII letters and digits are.
#[verifier::external_body]
fn is_alphanumeric(c: char) -> (r: bool)
    ensures
        r == alphanumeric(c),
        ('a' <= c <= 'z' || 'A' <= c <= 'Z' || '0' <= c <= '9') ==> r,
{
    c.is_alphanumeric()
}

/// Value of `c` as a digit in base `radix`, if it is one.
pub open spec fn digit_value(c: char, radix: nat) -> Option<nat> {
    let v: int = if '0' <= c <= '9' {
        c as u32 - '0' as u32
    } else if 'a' <= c <= 'z' {
        c as u32 - 'a' as u32 + 10
    } else if 'A' <= c <= 'Z' {
        c as u32 - 'A' as u32 + 10
    } else {
        36
    };
    if v < radix {
        Some(v as nat)
    } else {
        None
    }
}

/// Whether `s` is a non-empty string of digits in base `radix`.
pub open spec fn all_digits(s: Seq<char>, radix: nat) -> bool {
    s.len() > 0 && forall|i: int| 0 <= i < s.len() ==> (#[trigger] digit_value(s[i], radix)) is Some
}

/// Number that the digits of `s` denote in base `radix`.
pub open spec fn digits_number(s: Seq<char>, radix: nat) -> int
    decreases s.len(),
{
    if s.len() == 0 {
        0
    } else {
        digits_number(s.drop_last(), radix) * radix + digit_value(s.last(), radix).unwrap_or(0)
    }
}

/// Number that `s` denotes in base `radix`: an optional `+` or `-` sign and
/// one or more digits.
pub open spec fn parse_number(s: Seq<char>, radix: nat) -> Option<int> {
    let (negative, body) = if s.len() > 0 && s[0] == '-' {
        (true, s.drop_first())
    } else if s.len() > 0 && s[0] == '+' {
        (false, s.drop_first())
    } else {
        (false, s)
    };
    if all_digits(body, radix) {
        Some(if negative { -digits_number(body, radix) } else { digits_number(body, radix) })
    } else {
        None
    }
}

/// Integer that `s` denotes in base `radix`: an optional `+` or `-` sign and
/// one or more digits, with a value that fits in an `i64`.
pub open spec fn parse_integer(s: Seq<char>, radix: nat) -> Option<i64> {
    match parse_number(s, radix) {
        Some(v) => if i64::MIN <= v <= i64::MAX { Some(v as i64) } else { None },
        None => None,
    }
}

/// Relies on `i64::from_str_radix`: an optional sign followed by digits in
/// the base, whose value fits in an `i64`.
#[verifier::external_body]
fn parse_radix(s: &str, radix: u32) -> (r: Option<i64>)
    requires
        2 <= radix <= 36,
    ensures
        r == parse_integer(s@, radix as nat),
{
    i64::from_str_radix(s, radix).ok()
}

/// Number of bytes of `c` in UTF-8.
pub open spec fn utf8_width(c: char) -> nat {
    let u = c as u32;
    if u < 0x80 {
        1
    } else if u < 0x800 {
        2
    } else if u < 0x10000 {
        3
    } else {
        4
    }
}

/// Number of bytes of `s` in UTF-8.
pub open spec fn byte_len(s: Seq<char>) -> nat
    decreases s.len(),
{
    if s.len() == 0 {
        0
    } else {
        byte_len(s.drop_last()) + utf8_width(s.last())
    }
}

proof fn lemma_byte_len_mono(s: Seq<char>, i: int, j: int)
    requires
        0 <= i <= j <= s.len(),
    ensures
        byte_len(s.take(i)) <= byte_len(s.take(j)),
    decreases j - i,
{
    if i < j {
        lemma_byte_len_mono(s, i, j - 1);
        assert(s.take(j).drop_last() =~= s.take(j - 1));
    }
}

/// Number of `White_Space` characters at the start of `s`.
pub open spec fn spaces_len(s: Seq<char>) -> nat
    decreases s.len(),
{
    if s.len() > 0 && is_space(s[0]) {
        1 + spaces_len(s.drop_first())
    } else {
        0
    }
}

/// Number of characters at the start of `s` before the first
/// `White_Space` character.
pub open spec fn non_spaces_len(s: Seq<char>) -> nat
    decreases s.len(),
{
    if s.len() > 0 && !is_space(s[0]) {
        1 + non_spaces_len(s.drop_first())
    } else {
        0
    }
}

/// Whether `c` may appear in a variable name.
pub open spec fn is_name_char(c: char) -> bool {
    alphanumeric(c) || c == '_'
}

/// Number of name characters at the start of `s`.
pub open spec fn name_len(s: Seq<char>) -> nat
    decreases s.len(),
{
    if s.len() > 0 && is_name_char(s[0]) {
        1 + name_len(s.drop_first())
    } else {
        0
    }
}

/// Value of a numeric constant: hexadecimal after `0x` or `0X`, octal after
/// another leading `0`, decimal otherwise.
pub open spec fn constant_value(t: Seq<char>) -> Option<i64> {
    if t.len() >= 2 && t[0] == '0' && (t[1] == 'x' || t[1] == 'X') {
        parse_integer(t.skip(2), 16)
    } else if t.len() >= 1 && t[0] == '0' {
        parse_integer(t, 8)
    } else {
        parse_integer(t, 10)
    }
}

/// Iterator-like tokenizer over an expression.
#[derive(Clone, Debug, PartialEq, Eq, Hash)]
pub struct Tokens {
    source: Vec<char>,
    index: usize,
}

impl Tokens {
    /// The characters of the expression.
    pub closed spec fn text(&self) -> Seq<char> {
        self.source@
    }

    /// Number of characters already tokenized.
    pub closed spec fn position(&self) -> nat {
        self.index as nat
    }

    /// Internal consistency: the position is within the expression, whose
    /// UTF-8 length fits in a `usize`.
    pub closed spec fn wf(&self) -> bool {
        self.index <= self.source@.len() && byte_len(self.source@) <= usize::MAX
    }

    /// Creates a tokenizer at the start of `source`.
    pub fn new(source: &str) -> (r: Tokens)
        requires
            byte_len(source@) <= usize::MAX,
        ensures
            r.wf(),
            r.text() == source@,
            r.position() == 0,
    {
        Tokens { source: crate::text::chars_of(source), index: 0 }
    }

    /// Byte offset of the character at `k`.
    fn byte_offset(&self, k: usize) -> (r: usize)
        requires
            self.wf(),
            k <= self.source@.len(),
        ensures
            r == byte_len(self.source@.take(k as int)),
    {
        let mut r: usize = 0;
        let mut i: usize = 0;
        while i < k
            invariant
                self.wf(),
                i <= k <= self.source@.len(),
                r == byte_len(self.source@.take(i as int)),
            decreases k - i,
        {
            proof {
                assert(self.source@.take(i as int + 1).drop_last() =~= self.source@.take(i as int));
                lemma_byte_len_mono(self.source@, i as int + 1, self.source@.len() as int);
                assert(self.source@.take(self.source@.len() as int) =~= self.source@);
            }
            let u = self.source[i] as u32;
            let w: usize = if u < 0x80 {
                1
            } else if u < 0x800 {
                2
            } else if u < 0x10000 {
                3
            } else {
                4
            };
            r = r + w;
            i = i + 1;
        }
        r
    }

    /// Extracts the next token.
    ///
    /// After leading `White_Space`, a token that starts with an ASCII digit
    /// is a numeric constant that runs up to the next `White_Space`; an
    /// invalid one is an error and leaves the position where it was. Any other
    /// token is a variable name made of alphanumeric characters and `_`.
    /// Returns `None` at the end of the expression.
    pub fn next(&mut self) -> (r: Option<Result<Token, Error>>)
        requires
            old(self).wf(),
        ensures
            final(self).wf(),
            final(self).text() == old(self).text(),
            ({
                let s = old(self).text();
                let start = old(self).position() + spaces_len(s.skip(old(self).position() as int));
                let t = s.skip(start as int);
                if t.len() == 0 {
                    r is None && final(self).position() == old(self).position()
                } else if '0' <= t[0] <= '9' {
                    let end = start + non_spaces_len(t);
                    match constant_value(t.take(non_spaces_len(t) as int)) {
                        Some(v) => r == Some(Ok::<Token, Error>(Token::Term(Term::Value(Value::Integer(v)))))
                            && final(self).position() == end,
                        None => r matches Some(Err(e)) && e.cause == TokenError::InvalidNumericConstant
                            && e.location.start == byte_len(s.take(start as int))
                            && e.location.end == byte_len(s.take(end as int))
                            && final(self).position() == old(self).position(),
                    }
                } else {
                    let end = start + name_len(t);
                    r matches Some(Ok(Token::Term(Term::Variable { name, location })))
                        && name@ == t.take(name_len(t) as int)
                        && location.start == byte_len(s.take(start as int))
                        && location.end == byte_len(s.take(end as int))
                        && final(self).position() == end
                }
            }),
    {
        let ghost s = self.source@;
        let ghost i0 = self.index as int;
        let mut start = self.index;
        proof {
            assert(s.skip(i0).skip(0) =~= s.skip(i0));
        }
        while start < self.source.len() && is_whitespace(self.source[start])
            invariant
                self.wf(),
                self.source@ == s,
                self.index == i0,
                i0 <= start <= s.len(),
                spaces_len(s.skip(i0)) == (start - i0) + spaces_len(s.skip(start as int)),
            decreases s.len() - start,
        {
            assert(s.skip(start as int).drop_first() =~= s.skip(start as int + 1));
            start = start + 1;
        }
        let ghost t = s.skip(start as int);
        if start == self.source.len() {
            return None;
        }
        assert(t[0] == s[start as int]);
        let first = self.source[start];
        if '0' <= first && first <= '9' {
            let mut end = start;
            while end < self.source.len() && !is_whitespace(self.source[end])
                invariant
                    self.wf(),
                    self.source@ == s,
                    start <= end <= s.len(),
                    t == s.skip(start as int),
                    non_spaces_len(t) == (end - start) + non_spaces_len(s.skip(end as int)),
                decreases s.len() - end,
            {
                assert(s.skip(end as int).drop_first() =~= s.skip(end as int + 1));
                end = end + 1;
            }
            let mut token: Vec<char> = Vec::new();
            let mut k = start;
            while k < end
                invariant
                    self.source@ == s,
                    start <= k <= end <= s.len(),
                    token@ == s.subrange(start as int, k as int),
                decreases end - k,
            {
                token.push(self.source[k]);
                assert(s.subrange(start as int, k as int).push(s[k as int]) =~= s.subrange(start as int, k as int + 1));
                k = k + 1;
            }
            let ghost ts = t.take(non_spaces_len(t) as int);
            assert(token@ =~= ts);
            let value = if token.len() >= 2 && token[0] == '0' && (token[1] == 'x' || token[1] == 'X') {
                let mut digits: Vec<char> = Vec::new();
                let mut j: usize = 2;
                while j < token.len()
                    invariant
                        2 <= j <= token@.len(),
                        digits@ == token@.subrange(2, j as int),
                    decreases token@.len() - j,
                {
                    digits.push(token[j]);
                    assert(token@.subrange(2, j as int).push(token@[j as int]) =~= token@.subrange(2, j as int + 1));
                    j = j + 1;
                }
                assert(digits@ =~= ts.skip(2));
                parse_radix(crate::text::string_of(&digits).as_str(), 16)
            } else if token.len() >= 1 && token[0] == '0' {
                parse_radix(crate::text::string_of(&token).as_str(), 8)
            } else {
                parse_radix(crate::text::string_of(&token).as_str(), 10)
            };
            match value {
                Some(v) => {
                    self.index = end;
                    Some(Ok(Token::Term(Term::Value(Value::Integer(v)))))
                },
                None => {
                    proof {
                        lemma_byte_len_mono(s, start as int, end as int);
                    }
                    let location = self.byte_offset(start)..self.byte_offset(end);
                    Some(Err(Error { cause: TokenError::InvalidNumericConstant, location }))
                },
            }
        } else {
            let mut end = start;
            let mut name: Vec<char> = Vec::new();
            while end < self.source.len() && (is_alphanumeric(self.source[end]) || self.source[end] == '_')
                invariant
                    self.wf(),
                    self.source@ == s,
                    start <= end <= s.len(),
                    t == s.skip(start as int),
                    name@ == s.subrange(start as int, end as int),
                    name_len(t) == (end - start) + name_len(s.skip(end as int)),
                decreases s.len() - end,
            {
                assert(s.skip(end as int).drop_first() =~= s.skip(end as int + 1));
                name.push(self.source[end]);
                assert(s.subrange(start as int, end as int).push(s[end as int]) =~= s.subrange(start as int, end as int + 1));
                end = end + 1;
            }
            assert(name@ =~= t.take(name_len(t) as int));
            let location = self.byte_offset(start)..self.byte_offset(end);
            self.index = end;
            Some(Ok(Token::Term(Term::Variable { name: crate::text::string_of(&name), location })))
        }
    }
}

} // verus!
