//! Attributed characters produced by word expansion, the sinks that collect
//! them, quoting scopes, and quote removal.
use vstd::prelude::*;
use crate::source::Location;
use crate::lex::Word;

verus! {

/// Origin of a character produced in the initial expansion.
#[derive(Clone, Copy, Debug, PartialEq, Eq, Structural)]
pub enum Origin {
    /// The character appeared literally in the word.
    Literal,
    /// The character comes from a tilde expansion: it is treated literally in
    /// pathname expansion.
    HardExpansion,
    /// The character comes from a parameter expansion, command substitution
    /// or arithmetic expansion: it is subject to field splitting.
    SoftExpansion,
}

/// Character with attributes that describe its origin and quoting.
#[derive(Clone, Copy, Debug, PartialEq, Eq, Structural)]
pub struct AttrChar {
    /// Character value.
    pub value: char,
    /// Character origin.
    pub origin: Origin,
    /// Whether this character is quoted by another character.
    pub is_quoted: bool,
    /// Whether this character quotes another character. A character can be
    /// both quoting and quoted.
    pub is_quoting: bool,
}

/// Result of the initial expansion: attributed characters with the location
/// of the word they come from.
#[derive(Clone, Debug, PartialEq, Eq)]
pub struct AttrField {
    /// Value of the field.
    pub chars: Vec<AttrChar>,
    /// Location of the word this field resulted from.
    pub origin: Location,
}

/// Field: a string with the location of the word it comes from.
#[derive(Clone, Debug, PartialEq, Eq)]
pub struct Field {
    /// Value of the field.
    pub value: String,
    /// Location of the word this field resulted from.
    pub origin: Location,
}

impl Field {
    /// Copies the field.
    pub fn clone_field(&self) -> (r: Field)
        ensures
            r == *self,
    {
        Field { value: self.value.clone(), origin: self.origin.duplicate() }
    }
}

/// Fields after `c` is appended to the last one, or to a new one where there
/// is none.
pub open spec fn push_attr(fields: Seq<Seq<AttrChar>>, c: AttrChar) -> Seq<Seq<AttrChar>> {
    if fields.len() == 0 {
        seq![seq![c]]
    } else {
        fields.update(fields.len() - 1, fields.last().push(c))
    }
}

/// Fields after each character of `cs` is appended in turn.
pub open spec fn push_attrs(fields: Seq<Seq<AttrChar>>, cs: Seq<AttrChar>) -> Seq<Seq<AttrChar>>
    decreases cs.len(),
{
    if cs.len() == 0 {
        fields
    } else {
        push_attrs(push_attr(fields, cs[0]), cs.drop_first())
    }
}

/// Attributed characters made of `s`, all with the same attributes.
pub open spec fn attr_chars(s: Seq<char>, origin: Origin, is_quoted: bool, is_quoting: bool) -> Seq<AttrChar>
    decreases s.len(),
{
    if s.len() == 0 {
        Seq::empty()
    } else {
        attr_chars(s.drop_last(), origin, is_quoted, is_quoting).push(
            attr_char(s.last(), origin, is_quoted, is_quoting),
        )
    }
}

/// Attributed character with the given value and attributes.
pub open spec fn attr_char(c: char, origin: Origin, is_quoted: bool, is_quoting: bool) -> AttrChar {
    AttrChar { value: c, origin, is_quoted, is_quoting }
}

proof fn lemma_attr_chars(s: Seq<char>, origin: Origin, is_quoted: bool, is_quoting: bool)
    ensures
        attr_chars(s, origin, is_quoted, is_quoting).len() == s.len(),
        forall|k: int| 0 <= k < s.len() ==> #[trigger] attr_chars(s, origin, is_quoted, is_quoting)[k]
            == attr_char(s[k], origin, is_quoted, is_quoting),
    decreases s.len(),
{
    if s.len() > 0 {
        lemma_attr_chars(s.drop_last(), origin, is_quoted, is_quoting);
        let c = attr_char(s.last(), origin, is_quoted, is_quoting);
        crate::text::lemma_push(attr_chars(s.drop_last(), origin, is_quoted, is_quoting), c);
        assert forall|k: int| 0 <= k < s.len() implies #[trigger] attr_chars(s, origin, is_quoted, is_quoting)[k]
            == attr_char(s[k], origin, is_quoted, is_quoting) by {
            if k < s.len() - 1 {
                assert(s.drop_last()[k] == s[k]);
            }
        }
    }
}

/// Sink that accumulates attributed characters into fields.
pub trait Expansion {
    /// The fields accumulated so far.
    spec fn fields(&self) -> Seq<Seq<AttrChar>>;

    /// Appends a character to the current field.
    fn push_char(&mut self, c: AttrChar)
        ensures
            final(self).fields() == push_attr(old(self).fields(), c),
    ;

    /// Appends characters to the current field, all with the same
    /// attributes.
    fn push_str(&mut self, s: &str, origin: Origin, is_quoted: bool, is_quoting: bool)
        ensures
            final(self).fields() == push_attrs(old(self).fields(), attr_chars(s@, origin, is_quoted, is_quoting)),
    ;
}

/// Appends the characters of `s` to the single field `v`.
fn push_str_to_field(v: &mut Vec<AttrChar>, s: &str, origin: Origin, is_quoted: bool, is_quoting: bool)
    ensures
        seq![final(v)@] == push_attrs(seq![old(v)@], attr_chars(s@, origin, is_quoted, is_quoting)),
{
    let cs = crate::text::chars_of(s);
    let ghost all = attr_chars(s@, origin, is_quoted, is_quoting);
    proof {
        lemma_attr_chars(s@, origin, is_quoted, is_quoting);
    }
    assert(all.skip(0) =~= all);
    let mut i: usize = 0;
    while i < cs.len()
        invariant
            cs@ == s@,
            all == attr_chars(s@, origin, is_quoted, is_quoting),
            all.len() == cs@.len(),
            forall|k: int| 0 <= k < all.len() ==> #[trigger] all[k] == attr_char(cs@[k], origin, is_quoted, is_quoting),
            i <= cs@.len(),
            push_attrs(seq![old(v)@], all) == push_attrs(seq![v@], all.skip(i as int)),
        decreases cs@.len() - i,
    {
        let c = AttrChar { value: cs[i], origin, is_quoted, is_quoting };
        proof {
            assert(all.skip(i as int)[0] == c);
            assert(all.skip(i as int).drop_first() =~= all.skip(i as int + 1));
        }
        let ghost before = v@;
        v.push(c);
        assert(seq![v@] =~= push_attr(seq![before], c));
        i = i + 1;
    }
    assert(all.skip(cs@.len() as int) =~= Seq::<AttrChar>::empty());
}

/// Appends the characters of `s` to the last of the fields `v`.
fn push_str_to_fields(v: &mut Vec<Vec<AttrChar>>, s: &str, origin: Origin, is_quoted: bool, is_quoting: bool)
    ensures
        final(v)@.map_values(|f: Vec<AttrChar>| f@) == push_attrs(
            old(v)@.map_values(|f: Vec<AttrChar>| f@),
            attr_chars(s@, origin, is_quoted, is_quoting),
        ),
{
    let cs = crate::text::chars_of(s);
    let ghost all = attr_chars(s@, origin, is_quoted, is_quoting);
    proof {
        lemma_attr_chars(s@, origin, is_quoted, is_quoting);
    }
    assert(all.skip(0) =~= all);
    let mut i: usize = 0;
    while i < cs.len()
        invariant
            cs@ == s@,
            all == attr_chars(s@, origin, is_quoted, is_quoting),
            all.len() == cs@.len(),
            forall|k: int| 0 <= k < all.len() ==> #[trigger] all[k] == attr_char(cs@[k], origin, is_quoted, is_quoting),
            i <= cs@.len(),
            push_attrs(old(v)@.map_values(|f: Vec<AttrChar>| f@), all) == push_attrs(
                v@.map_values(|f: Vec<AttrChar>| f@),
                all.skip(i as int),
            ),
        decreases cs@.len() - i,
    {
        let c = AttrChar { value: cs[i], origin, is_quoted, is_quoting };
        proof {
            assert(all.skip(i as int)[0] == c);
            assert(all.skip(i as int).drop_first() =~= all.skip(i as int + 1));
        }
        push_char_to_fields(v, c);
        i = i + 1;
    }
    assert(all.skip(cs@.len() as int) =~= Seq::<AttrChar>::empty());
}

/// Appends `c` to the last of the fields `v`, or to a new one.
fn push_char_to_fields(v: &mut Vec<Vec<AttrChar>>, c: AttrChar)
    ensures
        final(v)@.map_values(|f: Vec<AttrChar>| f@) == push_attr(old(v)@.map_values(|f: Vec<AttrChar>| f@), c),
{
    let n = v.len();
    if n == 0 {
        let mut field = Vec::new();
        field.push(c);
        v.push(field);
        assert(v@.map_values(|f: Vec<AttrChar>| f@) =~= seq![seq![c]]);
    } else {
        let mut last = v.pop().unwrap();
        last.push(c);
        v.push(last);
        assert(v@.map_values(|f: Vec<AttrChar>| f@) =~= push_attr(old(v)@.map_values(|f: Vec<AttrChar>| f@), c));
    }
}

/// A vector of attributed characters is a single field.
impl Expansion for Vec<AttrChar> {
    open spec fn fields(&self) -> Seq<Seq<AttrChar>> {
        seq![self@]
    }

    fn push_char(&mut self, c: AttrChar) {
        self.push(c);
        assert(seq![self@] =~= push_attr(seq![old(self)@], c));
    }

    fn push_str(&mut self, s: &str, origin: Origin, is_quoted: bool, is_quoting: bool) {
        push_str_to_field(self, s, origin, is_quoted, is_quoting)
    }
}

/// A vector of vectors of attributed characters holds any number of fields.
impl Expansion for Vec<Vec<AttrChar>> {
    open spec fn fields(&self) -> Seq<Seq<AttrChar>> {
        self@.map_values(|f: Vec<AttrChar>| f@)
    }

    fn push_char(&mut self, c: AttrChar) {
        push_char_to_fields(self, c)
    }

    fn push_str(&mut self, s: &str, origin: Origin, is_quoted: bool, is_quoting: bool) {
        push_str_to_fields(self, s, origin, is_quoted, is_quoting)
    }
}

/// `c` with its `is_quoted` flag set where `quoted` holds.
pub open spec fn mark_quoted(c: AttrChar, quoted: bool) -> AttrChar {
    AttrChar { is_quoted: c.is_quoted || quoted, ..c }
}

/// Sink wrapper that tracks whether the part being expanded is quoted.
///
/// While it is, every character pushed through it is marked quoted.
#[derive(Debug)]
pub struct Output<E> {
    inner: E,
    is_quoted: bool,
}

/// Token of a quoting scope begun by [`Output::begin_quote`]: it holds the
/// quoting state to restore when the scope ends.
#[derive(Debug)]
#[must_use]
pub struct QuotedOutput {
    was_quoted: bool,
}

impl QuotedOutput {
    /// The quoting state before the scope began.
    pub closed spec fn saved(&self) -> bool {
        self.was_quoted
    }
}

/// Quoting state in a scope begun from state `q`, and the state the scope
/// saves.
pub open spec fn begin_quote_spec(q: bool) -> (bool, bool) {
    (true, q)
}

/// Quoting state after a scope that saved `saved` ends.
pub open spec fn end_quote_spec(saved: bool) -> bool {
    saved
}

impl<E: Expansion> Output<E> {
    /// The wrapped sink.
    pub closed spec fn inner_sink(&self) -> E {
        self.inner
    }

    /// Whether the part being expanded is quoted.
    pub closed spec fn quoted(&self) -> bool {
        self.is_quoted
    }

    /// Creates an output around `inner`, not quoted.
    pub fn new(inner: E) -> (r: Output<E>)
        ensures
            r.inner_sink() == inner,
            !r.quoted(),
    {
        Output { inner, is_quoted: false }
    }

    /// Whether the part being expanded is quoted.
    pub fn is_quoted(&self) -> (r: bool)
        ensures
            r == self.quoted(),
    {
        self.is_quoted
    }

    /// Gives the wrapped sink back.
    pub fn into_inner(self) -> (r: E)
        ensures
            r == self.inner_sink(),
    {
        self.inner
    }

    /// Begins a quoting scope: characters pushed until it ends are quoted.
    ///
    /// The returned token restores the previous state when it is passed to
    /// [`end_quote`](Self::end_quote).
    pub fn begin_quote(&mut self) -> (r: QuotedOutput)
        ensures
            (final(self).quoted(), r.saved()) == begin_quote_spec(old(self).quoted()),
            final(self).inner_sink() == old(self).inner_sink(),
    {
        let was_quoted = self.is_quoted;
        self.is_quoted = true;
        QuotedOutput { was_quoted }
    }

    /// Ends a quoting scope, restoring the state from before it began.
    pub fn end_quote(&mut self, quote: QuotedOutput)
        ensures
            final(self).quoted() == end_quote_spec(quote.saved()),
            final(self).inner_sink() == old(self).inner_sink(),
    {
        self.is_quoted = quote.was_quoted;
    }
}

/// The output delegates to the wrapped sink, marking the characters quoted
/// while a quoting scope is open.
impl<E: Expansion> Output<E> {
    /// The fields accumulated so far.
    pub open spec fn fields(&self) -> Seq<Seq<AttrChar>> {
        self.inner_sink().fields()
    }

    /// Appends a character to the current field, quoted if a quoting scope
    /// is open.
    pub fn push_char(&mut self, c: AttrChar)
        ensures
            final(self).quoted() == old(self).quoted(),
            final(self).fields() == push_attr(old(self).fields(), mark_quoted(c, old(self).quoted())),
    {
        let mut c = c;
        c.is_quoted = c.is_quoted || self.is_quoted;
        self.inner.push_char(c);
    }

    /// Appends characters to the current field, all with the same
    /// attributes, quoted if a quoting scope is open.
    pub fn push_str(&mut self, s: &str, origin: Origin, is_quoted: bool, is_quoting: bool)
        ensures
            final(self).quoted() == old(self).quoted(),
            final(self).fields() == push_attrs(
                old(self).fields(),
                attr_chars(s@, origin, is_quoted || old(self).quoted(), is_quoting),
            ),
    {
        let q = is_quoted || self.is_quoted;
        self.inner.push_str(s, origin, q, is_quoting);
    }
}

/// Values of the characters that are not quoting, in order.
pub open spec fn unquoted(cs: Seq<AttrChar>) -> Seq<char>
    decreases cs.len(),
{
    if cs.len() == 0 {
        Seq::empty()
    } else if cs.last().is_quoting {
        unquoted(cs.drop_last())
    } else {
        unquoted(cs.drop_last()).push(cs.last().value)
    }
}

/// Values of the quoting characters of `cs` dropped.
pub fn remove_quotes(cs: &Vec<AttrChar>) -> (r: String)
    ensures
        r@ == unquoted(cs@),
{
    let mut r = String::new();
    let mut i: usize = 0;
    while i < cs.len()
        invariant
            i <= cs@.len(),
            r@ == unquoted(cs@.take(i as int)),
        decreases cs@.len() - i,
    {
        let c = cs[i];
        assert(cs@.take(i as int + 1).drop_last() =~= cs@.take(i as int));
        if !c.is_quoting {
            crate::text::push_char(&mut r, c.value);
        }
        i = i + 1;
    }
    assert(cs@.take(cs@.len() as int) =~= cs@);
    r
}

impl AttrField {
    /// Quote removal: the field without its quoting characters, and with its
    /// other characters stripped of their attributes.
    pub fn do_quote_removal(self) -> (r: Field)
        ensures
            r.value@ == unquoted(self.chars@),
            r.origin == self.origin,
    {
        Field { value: remove_quotes(&self.chars), origin: self.origin }
    }
}


/// Quoting state and saved states after `n` scopes begin in a row from
/// state `q`, the saved state of the innermost scope last.
pub open spec fn nested_quotes(q: bool, n: nat) -> (bool, Seq<bool>)
    decreases n,
{
    if n == 0 {
        (q, Seq::empty())
    } else {
        let (inner, saved) = nested_quotes(q, (n - 1) as nat);
        let (now, token) = begin_quote_spec(inner);
        (now, saved.push(token))
    }
}

/// Quoting state after the scopes whose saved states are `saved` end, the
/// innermost first.
pub open spec fn unnest_quotes(q: bool, saved: Seq<bool>) -> bool
    decreases saved.len(),
{
    if saved.len() == 0 {
        q
    } else {
        unnest_quotes(end_quote_spec(saved.last()), saved.drop_last())
    }
}

/// After `n` quoting scopes begin and end in reverse order, the quoting state
/// is what it was before the first began; while at least one is open, every
/// character pushed is marked quoted.
pub proof fn nested_quotes_restore(q: bool, n: nat, c: AttrChar)
    ensures
        unnest_quotes(nested_quotes(q, n).0, nested_quotes(q, n).1) == q,
        n > 0 ==> mark_quoted(c, nested_quotes(q, n).0).is_quoted,
    decreases n,
{
    if n > 0 {
        let (inner, saved) = nested_quotes(q, (n - 1) as nat);
        nested_quotes_restore(q, (n - 1) as nat, c);
        crate::text::lemma_push(saved, inner);
        assert(saved.push(inner).drop_last() =~= saved);
    }
}


/// Literal character of a word, neither quoted nor quoting.
pub open spec fn literal_char(c: char) -> AttrChar {
    AttrChar { value: c, origin: Origin::Literal, is_quoted: false, is_quoting: false }
}

/// Quoting character of a word.
pub open spec fn quoting_char(c: char) -> AttrChar {
    AttrChar { value: c, origin: Origin::Literal, is_quoted: false, is_quoting: true }
}

/// Literal character of a word quoted by a quoting character before it.
pub open spec fn quoted_char(c: char) -> AttrChar {
    AttrChar { value: c, origin: Origin::Literal, is_quoted: true, is_quoting: false }
}

/// Whether a backslash quotes `c` inside double quotes.
pub open spec fn escapable_in_double_quotes(c: char) -> bool {
    c == '$' || c == '`' || c == '"' || c == '\\' || c == '\n'
}

/// Number of characters of `s` before the first single quote.
pub open spec fn single_quoted_len(s: Seq<char>) -> nat
    decreases s.len(),
{
    if s.len() > 0 && s[0] != '\'' {
        1 + single_quoted_len(s.drop_first())
    } else {
        0
    }
}

/// Quoted literal characters of `s`.
pub open spec fn quoted_chars(s: Seq<char>) -> Seq<AttrChar>
    decreases s.len(),
{
    if s.len() == 0 {
        Seq::empty()
    } else {
        quoted_chars(s.drop_last()).push(quoted_char(s.last()))
    }
}

/// Initial expansion of the literal text `s` of a word, inside double quotes
/// where `in_double` holds.
///
/// A backslash quotes the next character (inside double quotes only `$`,
/// `` ` ``, `"`, `\` and newline); single quotes quote the characters up to
/// the next single quote, outside double quotes; double quotes quote what
/// they enclose. The quotes and quoting backslashes are quoting characters;
/// characters inside double quotes are quoted.
#[verifier::opaque]
pub open spec fn expand_text(s: Seq<char>, in_double: bool) -> Seq<AttrChar>
    decreases s.len(),
{
    if s.len() == 0 {
        Seq::empty()
    } else if s[0] == '\\' && s.len() >= 2 && (!in_double || escapable_in_double_quotes(s[1])) {
        seq![mark_quoted(quoting_char('\\'), in_double), quoted_char(s[1])] + expand_text(
            s.skip(2),
            in_double,
        )
    } else if s[0] == '"' {
        seq![quoting_char('"')] + expand_text(s.drop_first(), !in_double)
    } else if s[0] == '\'' && !in_double {
        let n = single_quoted_len(s.drop_first()) as int;
        if n + 1 < s.len() {
            seq![quoting_char('\'')] + quoted_chars(s.subrange(1, n + 1)) + seq![quoting_char('\'')]
                + expand_text(s.skip(n + 2), false)
        } else {
            seq![quoting_char('\'')] + quoted_chars(s.drop_first())
        }
    } else {
        seq![mark_quoted(literal_char(s[0]), in_double)] + expand_text(s.drop_first(), in_double)
    }
}

/// One step of the initial expansion, seen from the characters already
/// expanded: `pre` is what the step adds and `rest2` in state `q2` what
/// remains.
proof fn lemma_expand_step(
    whole: Seq<AttrChar>,
    done: Seq<AttrChar>,
    rest: Seq<char>,
    q: bool,
    pre: Seq<AttrChar>,
    rest2: Seq<char>,
    q2: bool,
)
    requires
        whole == done + expand_text(rest, q),
        expand_text(rest, q) == pre + expand_text(rest2, q2),
    ensures
        whole == (done + pre) + expand_text(rest2, q2),
{
    assert(done + (pre + expand_text(rest2, q2)) =~= (done + pre) + expand_text(rest2, q2));
}

proof fn lemma_expand_cases(s: Seq<char>, q: bool)
    requires
        s.len() > 0,
    ensures
        (s[0] == '\\' && s.len() >= 2 && (!q || escapable_in_double_quotes(s[1]))) ==> expand_text(s, q)
            == seq![mark_quoted(quoting_char('\\'), q), quoted_char(s[1])] + expand_text(s.skip(2), q),
        !(s[0] == '\\' && s.len() >= 2 && (!q || escapable_in_double_quotes(s[1]))) && s[0] == '"' ==> expand_text(s, q)
            == seq![quoting_char('"')] + expand_text(s.drop_first(), !q),
        !(s[0] == '\\' && s.len() >= 2 && (!q || escapable_in_double_quotes(s[1]))) && s[0] != '"' && s[0] == '\'' && !q
            ==> ({
            let n = single_quoted_len(s.drop_first()) as int;
            if n + 1 < s.len() {
                expand_text(s, q) == seq![quoting_char('\'')] + quoted_chars(s.subrange(1, n + 1)) + seq![quoting_char('\'')]
                    + expand_text(s.skip(n + 2), false)
            } else {
                expand_text(s, q) == seq![quoting_char('\'')] + quoted_chars(s.drop_first())
            }
        }),
        !(s[0] == '\\' && s.len() >= 2 && (!q || escapable_in_double_quotes(s[1]))) && s[0] != '"' && !(s[0] == '\'' && !q)
            ==> expand_text(s, q) == seq![mark_quoted(literal_char(s[0]), q)] + expand_text(s.drop_first(), q),
{
    reveal(expand_text);
}

proof fn lemma_expand_empty(q: bool)
    ensures
        expand_text(Seq::<char>::empty(), q) == Seq::<AttrChar>::empty(),
{
    reveal(expand_text);
}

proof fn lemma_single_quoted_len(s: Seq<char>)
    ensures
        single_quoted_len(s) <= s.len(),
        forall|i: int| 0 <= i < single_quoted_len(s) ==> s[i] != '\'',
        single_quoted_len(s) < s.len() ==> s[single_quoted_len(s) as int] == '\'',
    decreases s.len(),
{
    if s.len() > 0 && s[0] != '\'' {
        lemma_single_quoted_len(s.drop_first());
        assert forall|i: int| 0 <= i < single_quoted_len(s) implies s[i] != '\'' by {
            if i > 0 {
                assert(s[i] == s.drop_first()[i - 1]);
            }
        }
    }
}

/// Performs the initial expansion of the literal text of a word.
pub fn expand_literal(text: &str) -> (r: Vec<AttrChar>)
    ensures
        r@ == expand_text(text@, false),
{
    let s = crate::text::chars_of(text);
    let mut out: Output<Vec<AttrChar>> = Output::new(Vec::new());
    let mut scope: Option<QuotedOutput> = None;
    let mut i: usize = 0;
    proof {
        assert(s@.skip(0) =~= s@);
        assert(Seq::<AttrChar>::empty() + expand_text(s@, false) =~= expand_text(s@, false));
    }
    while i < s.len()
        invariant
            s@ == text@,
            i <= s@.len(),
            out.fields().len() == 1,
            out.quoted() == scope is Some,
            scope matches Some(q) ==> !q.saved(),
            expand_text(s@, false) == out.fields()[0] + expand_text(s@.skip(i as int), out.quoted()),
        decreases s@.len() - i,
    {
        let ghost rest = s@.skip(i as int);
        let ghost done = out.fields()[0];
        let ghost q = out.quoted();
        assert(rest[0] == s@[i as int]);
        let c = s[i];
        if c == '\\' && i + 1 < s.len() && (!out.is_quoted() || {
            let d = s[i + 1];
            d == '$' || d == '`' || d == '"' || d == '\\' || d == '\n'
        }) {
            assert(rest[1] == s@[i + 1]);
            out.push_char(AttrChar { value: '\\', origin: Origin::Literal, is_quoted: false, is_quoting: true });
            let scope_d = out.begin_quote();
            out.push_char(AttrChar { value: s[i + 1], origin: Origin::Literal, is_quoted: false, is_quoting: false });
            out.end_quote(scope_d);
            proof {
                assert(rest.skip(2) =~= s@.skip(i + 2));
                let pre = seq![mark_quoted(quoting_char('\\'), q), quoted_char(rest[1])];
                assert(out.fields()[0] =~= done + pre);
                lemma_expand_cases(rest, q);
                lemma_expand_step(expand_text(s@, false), done, rest, q, pre, rest.skip(2), q);
            }
            i = i + 2;
        } else if c == '"' {
            if scope.is_some() {
                let t = scope.take().unwrap();
                out.end_quote(t);
                out.push_char(AttrChar { value: '"', origin: Origin::Literal, is_quoted: false, is_quoting: true });
            } else {
                out.push_char(AttrChar { value: '"', origin: Origin::Literal, is_quoted: false, is_quoting: true });
                scope = Some(out.begin_quote());
            }
            proof {
                assert(rest.drop_first() =~= s@.skip(i + 1));
                let pre = seq![quoting_char('"')];
                assert(out.fields()[0] =~= done + pre);
                lemma_expand_cases(rest, q);
                lemma_expand_step(expand_text(s@, false), done, rest, q, pre, rest.drop_first(), !q);
            }
            i = i + 1;
        } else if c == '\'' && !out.is_quoted() {
            out.push_char(AttrChar { value: '\'', origin: Origin::Literal, is_quoted: false, is_quoting: true });
            let ghost after_open = out.fields()[0];
            let mut j = i + 1;
            proof {
                lemma_single_quoted_len(rest.drop_first());
                assert(rest.drop_first() =~= s@.skip(i + 1));
                assert(s@.subrange(i + 1, i + 1) =~= Seq::<char>::empty());
                assert(out.fields()[0] =~= after_open + quoted_chars(s@.subrange(i + 1, i + 1)));
            }
            while j < s.len() && s[j] != '\''
                invariant
                    s@ == text@,
                    i < j <= s@.len(),
                    rest == s@.skip(i as int),
                    out.fields().len() == 1,
                    !out.quoted(),
                    scope is None,
                    out.fields()[0] == after_open + quoted_chars(s@.subrange(i + 1, j as int)),
                    single_quoted_len(rest.drop_first()) == (j - i - 1) + single_quoted_len(s@.skip(j as int)),
                decreases s@.len() - j,
            {
                let ghost before = out.fields()[0];
                out.push_char(AttrChar { value: s[j], origin: Origin::Literal, is_quoted: true, is_quoting: false });
                proof {
                    assert(s@.skip(j as int).drop_first() =~= s@.skip(j as int + 1));
                    assert(s@.subrange(i + 1, j as int + 1).drop_last() =~= s@.subrange(i + 1, j as int));
                    assert(s@.subrange(i + 1, j as int + 1).last() == s@[j as int]);
                    assert(out.fields()[0] =~= after_open + quoted_chars(s@.subrange(i + 1, j as int + 1)));
                }
                j = j + 1;
            }
            proof {
                let n = single_quoted_len(rest.drop_first()) as int;
                assert(n == j - i - 1);
                assert(rest.subrange(1, n + 1) =~= s@.subrange(i + 1, j as int));
            }
            if j < s.len() {
                out.push_char(AttrChar { value: '\'', origin: Origin::Literal, is_quoted: false, is_quoting: true });
                proof {
                    let n = single_quoted_len(rest.drop_first()) as int;
                    assert(rest.skip(n + 2) =~= s@.skip(j + 1));
                    let pre = seq![quoting_char('\'')] + quoted_chars(rest.subrange(1, n + 1)) + seq![quoting_char('\'')];
                    assert(out.fields()[0] =~= done + pre);
                    lemma_expand_cases(rest, q);
                    lemma_expand_step(expand_text(s@, false), done, rest, q, pre, rest.skip(n + 2), false);
                }
                i = j + 1;
            } else {
                proof {
                    assert(rest.drop_first() =~= s@.subrange(i + 1, j as int));
                    assert(s@.skip(j as int) =~= Seq::<char>::empty());
                    let pre = seq![quoting_char('\'')] + quoted_chars(rest.drop_first());
                    assert(out.fields()[0] =~= done + pre);
                    lemma_expand_cases(rest, q);
                    lemma_expand_empty(false);
                    lemma_expand_step(expand_text(s@, false), done, rest, q, pre, s@.skip(j as int), false);
                }
                i = j;
            }
        } else {
            out.push_char(AttrChar { value: c, origin: Origin::Literal, is_quoted: false, is_quoting: false });
            proof {
                assert(rest.drop_first() =~= s@.skip(i + 1));
                let pre = seq![mark_quoted(literal_char(c), q)];
                assert(out.fields()[0] =~= done + pre);
                lemma_expand_cases(rest, q);
                lemma_expand_step(expand_text(s@, false), done, rest, q, pre, rest.drop_first(), q);
            }
            i = i + 1;
        }
    }
    proof {
        assert(s@.skip(i as int) =~= Seq::<char>::empty());
        lemma_expand_empty(out.quoted());
        assert(out.fields()[0] + Seq::<AttrChar>::empty() =~= out.fields()[0]);
    }
    out.into_inner()
}


/// Types of errors that may occur in word expansion.
#[derive(Clone, Debug, PartialEq, Eq)]
pub enum ErrorCause {
    /// Error described by its message.
    Dummy(String),
}

/// Explanation of an expansion failure.
#[derive(Clone, Debug, PartialEq, Eq)]
pub struct Error {
    /// What went wrong.
    pub cause: ErrorCause,
    /// Where it went wrong.
    pub location: Location,
}

/// Value of an assignment as written: a word or an array of words.
#[derive(Clone, Debug, PartialEq, Eq)]
pub enum Value {
    /// Scalar value.
    Scalar(Word),
    /// Array value.
    Array(Vec<Word>),
}

/// Value of a variable: a string or an array of strings.
#[derive(Clone, Debug, PartialEq, Eq)]
pub enum VariableValue {
    /// Scalar value.
    Scalar(String),
    /// Array value.
    Array(Vec<String>),
}

/// Text of a word after initial expansion and quote removal.
pub open spec fn expanded_word(w: Word) -> Seq<char> {
    unquoted(expand_text(w.value@, false))
}

/// Expands a word to a field: initial expansion, then quote removal.
pub fn expand_word(word: &Word) -> (r: Result<Field, Error>)
    ensures
        r is Ok,
        r matches Ok(f) ==> f.value@ == expanded_word(*word) && f.origin == word.location,
{
    let chars = expand_literal(word.value.as_str());
    let field = AttrField { chars, origin: word.location.duplicate() };
    Ok(field.do_quote_removal())
}

/// Expands words to fields, one field for each word, in order.
pub fn expand_words(words: &Vec<Word>) -> (r: Result<Vec<Field>, Error>)
    ensures
        r is Ok,
        r matches Ok(fs) ==> fs@.len() == words@.len() && forall|i: int| 0 <= i < words@.len() ==> {
            &&& (#[trigger] fs@[i]).value@ == expanded_word(words@[i])
            &&& fs@[i].origin == words@[i].location
        },
{
    let mut fields: Vec<Field> = Vec::new();
    let mut i: usize = 0;
    while i < words.len()
        invariant
            i <= words@.len(),
            fields@.len() == i,
            forall|k: int| 0 <= k < i ==> {
                &&& (#[trigger] fields@[k]).value@ == expanded_word(words@[k])
                &&& fields@[k].origin == words@[k].location
            },
        decreases words@.len() - i,
    {
        let chars = expand_literal(words[i].value.as_str());
        let ghost before = fields@;
        let f = AttrField { chars, origin: words[i].location.duplicate() }.do_quote_removal();
        fields.push(f);
        proof {
            crate::text::lemma_push(before, f);
        }
        i = i + 1;
    }
    Ok(fields)
}

/// Expands an assignment value: a scalar by [`expand_word`], an array by
/// [`expand_words`].
pub fn expand_value(value: &Value) -> (r: Result<VariableValue, Error>)
    ensures
        r is Ok,
        *value matches Value::Scalar(w) ==> r matches Ok(VariableValue::Scalar(s)) && s@ == expanded_word(w),
        *value matches Value::Array(ws) ==> r matches Ok(VariableValue::Array(ss)) && ss@.len() == ws@.len()
            && forall|i: int| 0 <= i < ws@.len() ==> (#[trigger] ss@[i])@ == expanded_word(ws@[i]),
{
    match value {
        Value::Scalar(word) => {
            let field = expand_word(word)?;
            Ok(VariableValue::Scalar(field.value))
        },
        Value::Array(words) => {
            let fields = expand_words(words)?;
            let mut values: Vec<String> = Vec::new();
            let mut i: usize = 0;
            while i < fields.len()
                invariant
                    fields@.len() == words@.len(),
                    forall|k: int| 0 <= k < fields@.len() ==> (#[trigger] fields@[k]).value@ == expanded_word(words@[k]),
                    i <= fields@.len(),
                    values@.len() == i,
                    forall|k: int| 0 <= k < i ==> (#[trigger] values@[k])@ == expanded_word(words@[k]),
                decreases fields@.len() - i,
            {
                let ghost before = values@;
                let v = fields[i].value.clone();
                values.push(v);
                proof {
                    crate::text::lemma_push(before, v);
                }
                i = i + 1;
            }
            Ok(VariableValue::Array(values))
        },
    }
}

} // verus!
