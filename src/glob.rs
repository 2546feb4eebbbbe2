//! Pathname expansion: a field becomes a pattern, which is matched against
//! the names of a directory's entries.
use vstd::prelude::*;
use crate::expansion::{AttrChar, AttrField, Field, Origin, remove_quotes, unquoted};
use crate::source::Location;

verus! {

/// Character of a pattern.
#[derive(Clone, Copy, Debug, PartialEq, Eq, Structural)]
pub enum GlobChar {
    /// Character that may have a special meaning (`?`, `*`, `[`, `]`).
    Normal(char),
    /// Character that always matches itself.
    Literal(char),
}

/// A pattern character as a value and whether it is literal.
pub open spec fn glob_char_view(g: GlobChar) -> (char, bool) {
    match g {
        GlobChar::Normal(c) => (c, false),
        GlobChar::Literal(c) => (c, true),
    }
}

/// Pattern characters as values and literal flags.
pub open spec fn glob_chars_view(gs: Seq<GlobChar>) -> Seq<(char, bool)>
    decreases gs.len(),
{
    if gs.len() == 0 {
        Seq::empty()
    } else {
        glob_chars_view(gs.drop_last()).push(glob_char_view(gs.last()))
    }
}

/// Pattern made of a field's characters: quoting characters are dropped;
/// quoted characters and those of a hard expansion are literal.
pub open spec fn pattern_of(cs: Seq<AttrChar>) -> Seq<(char, bool)>
    decreases cs.len(),
{
    if cs.len() == 0 {
        Seq::empty()
    } else if cs.last().is_quoting {
        pattern_of(cs.drop_last())
    } else {
        pattern_of(cs.drop_last()).push(
            (cs.last().value, cs.last().is_quoted || cs.last().origin == Origin::HardExpansion),
        )
    }
}

/// Whether the pattern compiles, anchored at both ends and with a leading
/// period matched only explicitly.
pub uninterp spec fn pattern_compiles(p: Seq<(char, bool)>) -> bool;

/// The only text that the compiled pattern matches, where it has no
/// wildcard.
pub uninterp spec fn pattern_literal(p: Seq<(char, bool)>) -> Option<Seq<char>>;

/// Whether the compiled pattern matches `name`.
pub uninterp spec fn pattern_matches(p: Seq<(char, bool)>, name: Seq<char>) -> bool;

/// Whether every character of the pattern is literal.
pub open spec fn all_literal(p: Seq<(char, bool)>) -> bool {
    forall|i: int| 0 <= i < p.len() ==> (#[trigger] p[i]).1
}

/// Values of the pattern's characters.
pub open spec fn pattern_values(p: Seq<(char, bool)>) -> Seq<char>
    decreases p.len(),
{
    if p.len() == 0 {
        Seq::empty()
    } else {
        pattern_values(p.drop_last()).push(p.last().0)
    }
}

#[verifier::external_type_specification]
#[verifier::external_body]
pub struct ExPattern(yash_fnmatch::Pattern);

/// Compiled pattern, with the characters it was compiled from.
pub struct GlobPattern {
    pattern: yash_fnmatch::Pattern,
    source: Ghost<Seq<(char, bool)>>,
}

impl GlobPattern {
    /// The characters the pattern was compiled from.
    pub closed spec fn chars(&self) -> Seq<(char, bool)> {
        self.source@
    }
}

/// Relies on `yash_fnmatch::Pattern::parse_with_config`, with the pattern
/// anchored at both ends and a leading period to be matched explicitly: the
/// pattern compiles or not depending on its characters alone, and one made
/// of literal characters only always compiles.
#[verifier::external_body]
fn compile(chars: &Vec<GlobChar>) -> (r: Option<GlobPattern>)
    ensures
        r is Some <==> pattern_compiles(glob_chars_view(chars@)),
        all_literal(glob_chars_view(chars@)) ==> r is Some,
        r is Some ==> r->Some_0.chars() == glob_chars_view(chars@),
{
    let pattern_chars = chars.iter().map(|g| match *g {
        GlobChar::Normal(c) => yash_fnmatch::PatternChar::Normal(c),
        GlobChar::Literal(c) => yash_fnmatch::PatternChar::Literal(c),
    });
    let mut config = yash_fnmatch::Config::default();
    config.anchor_begin = true;
    config.anchor_end = true;
    config.literal_period = true;
    let pattern = yash_fnmatch::Pattern::parse_with_config(pattern_chars, config).ok()?;
    Some(GlobPattern { pattern, source: Ghost(glob_chars_view(chars@)) })
}

/// Relies on `yash_fnmatch::Pattern::into_literal`: the only text a pattern
/// without wildcards matches, which for a pattern of literal characters only
/// is those characters.
#[verifier::external_body]
fn into_literal(p: GlobPattern) -> (r: Result<String, GlobPattern>)
    ensures
        r is Ok ==> pattern_literal(p.chars()) == Some(r->Ok_0@),
        r is Err ==> pattern_literal(p.chars()) is None && r->Err_0.chars() == p.chars(),
        all_literal(p.chars()) ==> r is Ok && r->Ok_0@ == pattern_values(p.chars()),
{
    let GlobPattern { pattern, source } = p;
    match pattern.into_literal() {
        Ok(s) => Ok(s),
        Err(pattern) => Err(GlobPattern { pattern, source }),
    }
}

/// Relies on `yash_fnmatch::Pattern::is_match`: whether the pattern matches
/// the whole name.
#[verifier::external_body]
fn is_match(p: &GlobPattern, name: &str) -> (r: bool)
    ensures
        r == pattern_matches(p.chars(), name@),
{
    p.pattern.is_match(name)
}

/// Converts a field to pattern characters.
pub fn to_pattern(chars: &Vec<AttrChar>) -> (r: Vec<GlobChar>)
    ensures
        glob_chars_view(r@) == pattern_of(chars@),
{
    let mut r: Vec<GlobChar> = Vec::new();
    let mut i: usize = 0;
    while i < chars.len()
        invariant
            i <= chars@.len(),
            glob_chars_view(r@) == pattern_of(chars@.take(i as int)),
        decreases chars@.len() - i,
    {
        let c = chars[i];
        assert(chars@.take(i as int + 1).drop_last() =~= chars@.take(i as int));
        if !c.is_quoting {
            let g = if c.is_quoted || c.origin == Origin::HardExpansion {
                GlobChar::Literal(c.value)
            } else {
                GlobChar::Normal(c.value)
            };
            let ghost before = r@;
            r.push(g);
            proof {
                crate::text::lemma_push(before, g);
                assert(r@.drop_last() =~= before);
            }
        }
        i = i + 1;
    }
    assert(chars@.take(chars@.len() as int) =~= chars@);
    r
}

/// Whether `a` comes before `b` or equals it, comparing characters in turn.
pub open spec fn text_le(a: Seq<char>, b: Seq<char>) -> bool
    decreases a.len(),
{
    if a.len() == 0 {
        true
    } else if b.len() == 0 {
        false
    } else if a[0] != b[0] {
        a[0] < b[0]
    } else {
        text_le(a.drop_first(), b.drop_first())
    }
}

/// Whether the texts are in ascending order.
pub open spec fn sorted_texts(s: Seq<Seq<char>>) -> bool {
    forall|i: int, j: int| 0 <= i < j < s.len() ==> text_le(#[trigger] s[i], #[trigger] s[j])
}

proof fn lemma_text_le_total(a: Seq<char>, b: Seq<char>)
    ensures
        text_le(a, b) || text_le(b, a),
    decreases a.len(),
{
    if a.len() > 0 && b.len() > 0 && a[0] == b[0] {
        lemma_text_le_total(a.drop_first(), b.drop_first());
    }
}

proof fn lemma_text_le_trans(a: Seq<char>, b: Seq<char>, c: Seq<char>)
    requires
        text_le(a, b),
        text_le(b, c),
    ensures
        text_le(a, c),
    decreases a.len(),
{
    if a.len() > 0 && b.len() > 0 && c.len() > 0 && a[0] == b[0] && b[0] == c[0] {
        lemma_text_le_trans(a.drop_first(), b.drop_first(), c.drop_first());
    }
}

/// Compares two texts.
fn text_le_exec(a: &Vec<char>, b: &Vec<char>) -> (r: bool)
    ensures
        r == text_le(a@, b@),
{
    let mut i: usize = 0;
    assert(a@.skip(0) =~= a@);
    assert(b@.skip(0) =~= b@);
    while i < a.len() && i < b.len() && a[i] == b[i]
        invariant
            i <= a@.len(),
            i <= b@.len(),
            text_le(a@, b@) == text_le(a@.skip(i as int), b@.skip(i as int)),
        decreases a@.len() - i,
    {
        assert(a@.skip(i as int).drop_first() =~= a@.skip(i as int + 1));
        assert(b@.skip(i as int).drop_first() =~= b@.skip(i as int + 1));
        i = i + 1;
    }
    if i == a.len() {
        true
    } else if i == b.len() {
        false
    } else {
        assert(a@.skip(i as int)[0] == a@[i as int]);
        assert(b@.skip(i as int)[0] == b@[i as int]);
        a[i] < b[i]
    }
}

/// Values of the fields.
pub open spec fn field_values(fs: Seq<Field>) -> Seq<Seq<char>> {
    fs.map_values(|f: Field| f.value@)
}

/// The entry names that the pattern matches, in the order of the entries.
pub open spec fn matching_names(p: Seq<(char, bool)>, names: Seq<Seq<char>>) -> Seq<Seq<char>>
    decreases names.len(),
{
    if names.len() == 0 {
        Seq::empty()
    } else if pattern_matches(p, names.last()) {
        matching_names(p, names.drop_last()).push(names.last())
    } else {
        matching_names(p, names.drop_last())
    }
}

/// Names of directory entries, as texts.
pub open spec fn name_texts(names: Seq<String>) -> Seq<Seq<char>> {
    names.map_values(|n: String| n@)
}

/// Inserts `f` into the sorted fields `v`, keeping them sorted.
fn insert_sorted(v: &mut Vec<Field>, f: Field)
    requires
        sorted_texts(field_values(old(v)@)),
    ensures
        sorted_texts(field_values(final(v)@)),
        field_values(final(v)@).to_multiset() == field_values(old(v)@).to_multiset().insert(f.value@),
        forall|i: int| 0 <= i < final(v)@.len() ==> (#[trigger] final(v)@[i]).origin == f.origin
            || exists|j: int| 0 <= j < old(v)@.len() && old(v)@[j] == final(v)@[i],
{
    let key = crate::text::chars_of(f.value.as_str());
    let mut i: usize = 0;
    while i < v.len()
        invariant
            i <= v@.len(),
            key@ == f.value@,
            forall|j: int| 0 <= j < i ==> text_le(#[trigger] v@[j].value@, f.value@),
        ensures
            i <= v@.len(),
            forall|j: int| 0 <= j < i ==> text_le(#[trigger] v@[j].value@, f.value@),
            i < v@.len() ==> !text_le(v@[i as int].value@, f.value@),
        decreases v@.len() - i,
    {
        let other = crate::text::chars_of(v[i].value.as_str());
        if !text_le_exec(&other, &key) {
            break;
        }
        i = i + 1;
    }
    let ghost before = v@;
    v.insert(i, f);
    proof {
        let fv = field_values(before);
        let gv = field_values(v@);
        assert(gv =~= fv.insert(i as int, f.value@));
        fv.insert_ensures(i as int, f.value@);
        vstd::seq_lib::to_multiset_insert(fv, i as int, f.value@);
        assert forall|a: int, b: int| 0 <= a < b < gv.len() implies text_le(#[trigger] gv[a], #[trigger] gv[b]) by {
            if a < i && b < i {
            } else if a < i && b == i {
            } else if a < i && b > i {
                assert(text_le(gv[a], f.value@));
                if i < before.len() {
                    assert(gv[b] == fv[b - 1]);
                }
                assert(text_le(fv[a], fv[b - 1]));
            } else if a == i {
                assert(gv[b] == fv[b - 1]);
                assert(gv[a] == f.value@);
                assert(fv[i as int] == before[i as int].value@);
                lemma_text_le_total(fv[i as int], f.value@);
                if b - 1 != i as int {
                    assert(text_le(fv[i as int], fv[b - 1]));
                    lemma_text_le_trans(f.value@, fv[i as int], fv[b - 1]);
                }
            } else {
                assert(gv[a] == fv[a - 1]);
                assert(gv[b] == fv[b - 1]);
            }
        }
        assert forall|k: int| 0 <= k < v@.len() implies (#[trigger] v@[k]).origin == f.origin
            || exists|j: int| 0 <= j < before.len() && before[j] == v@[k] by {
            if k < i {
                assert(before[k] == v@[k]);
            } else if k > i {
                assert(before[k - 1] == v@[k]);
            }
        }
    }
}


/// Whether `fs` is the result of pathname expansion of a field with
/// characters `chars` and location `origin` against the entry names `names`.
///
/// A field whose pattern does not compile, and a field that matches no
/// entry, expands to itself without its quoting characters. A field without
/// wildcards expands to its literal text, whatever the entries. Otherwise it
/// expands to the matching names in ascending order. Every field keeps the
/// location.
pub open spec fn glob_result(chars: Seq<AttrChar>, origin: Location, names: Seq<String>, fs: Seq<Field>) -> bool {
    let p = pattern_of(chars);
    let ms = matching_names(p, name_texts(names));
    &&& forall|i: int| 0 <= i < fs.len() ==> (#[trigger] fs[i]).origin == origin
    &&& if !pattern_compiles(p) {
        field_values(fs) == seq![unquoted(chars)]
    } else if pattern_literal(p) is Some {
        field_values(fs) == seq![pattern_literal(p).unwrap()]
    } else if ms.len() == 0 {
        field_values(fs) == seq![unquoted(chars)]
    } else {
        sorted_texts(field_values(fs)) && field_values(fs).to_multiset() == ms.to_multiset()
    }
}

/// Fields that result from pathname expansion, handed out one at a time.
#[derive(Debug)]
pub struct Glob {
    fields: Vec<Field>,
    next: usize,
}

impl Glob {
    /// Fields not handed out yet, in order.
    pub closed spec fn remaining(&self) -> Seq<Field> {
        self.fields@.skip(self.next as int)
    }

    /// Internal consistency.
    pub closed spec fn wf(&self) -> bool {
        self.next <= self.fields@.len()
    }

    /// Hands out the next field, if any is left.
    pub fn next(&mut self) -> (r: Option<Field>)
        requires
            old(self).wf(),
        ensures
            final(self).wf(),
            old(self).remaining().len() == 0 ==> r is None && final(self).remaining() == old(self).remaining(),
            old(self).remaining().len() > 0 ==> r == Some(old(self).remaining()[0])
                && final(self).remaining() == old(self).remaining().drop_first(),
    {
        if self.next < self.fields.len() {
            let f = self.fields[self.next].clone_field();
            proof {
                assert(self.fields@.skip(self.next as int + 1) =~= self.fields@.skip(self.next as int).drop_first());
            }
            self.next = self.next + 1;
            Some(f)
        } else {
            None
        }
    }
}

/// Performs pathname expansion of `field` against the entry names of a
/// directory, as [`glob_result`] describes.
pub fn glob(field: AttrField, names: &Vec<String>) -> (r: Glob)
    ensures
        r.wf(),
        glob_result(field.chars@, field.origin, names@, r.remaining()),
{
    let fields = expand_pathname(field, names);
    let r = Glob { fields, next: 0 };
    assert(r.remaining() =~= r.fields@);
    r
}

/// Pathname expansion of `field` against the entry names of a directory.
fn expand_pathname(field: AttrField, names: &Vec<String>) -> (r: Vec<Field>)
    ensures
        glob_result(field.chars@, field.origin, names@, r@),
{
    let ghost p = pattern_of(field.chars@);
    let atoms = to_pattern(&field.chars);
    let pattern = match compile(&atoms) {
        Some(pattern) => pattern,
        None => {
            let value = remove_quotes(&field.chars);
            let mut r = Vec::new();
            r.push(Field { value, origin: field.origin });
            assert(field_values(r@) =~= seq![unquoted(field.chars@)]);
            return r;
        },
    };
    let pattern = match into_literal(pattern) {
        Ok(literal) => {
            let mut r = Vec::new();
            r.push(Field { value: literal, origin: field.origin });
            assert(field_values(r@) =~= seq![pattern_literal(p).unwrap()]);
            return r;
        },
        Err(pattern) => pattern,
    };
    let mut r: Vec<Field> = Vec::new();
    let mut i: usize = 0;
    assert(field_values(r@) =~= Seq::<Seq<char>>::empty());
    assert(name_texts(names@).take(0) =~= Seq::<Seq<char>>::empty());
    while i < names.len()
        invariant
            i <= names@.len(),
            pattern.chars() == p,
            sorted_texts(field_values(r@)),
            field_values(r@).to_multiset() == matching_names(p, name_texts(names@).take(i as int)).to_multiset(),
            forall|k: int| 0 <= k < r@.len() ==> (#[trigger] r@[k]).origin == field.origin,
        decreases names@.len() - i,
    {
        let ghost nt = name_texts(names@);
        assert(nt.take(i as int + 1).drop_last() =~= nt.take(i as int));
        assert(nt.take(i as int + 1).last() == names@[i as int]@);
        proof {
            vstd::seq_lib::to_multiset_build(matching_names(p, nt.take(i as int)), names@[i as int]@);
        }
        if is_match(&pattern, names[i].as_str()) {
            let ghost before = r@;
            insert_sorted(&mut r, Field { value: names[i].clone(), origin: field.origin.duplicate() });
            proof {
                assert forall|k: int| 0 <= k < r@.len() implies (#[trigger] r@[k]).origin == field.origin by {
                    if r@[k].origin != field.origin {
                        let j = choose|j: int| 0 <= j < before.len() && before[j] == r@[k];
                        assert(before[j].origin == field.origin);
                    }
                }
            }
        }
        i = i + 1;
    }
    assert(name_texts(names@).take(names@.len() as int) =~= name_texts(names@));
    if r.len() == 0 {
        proof {
            let ms = matching_names(p, name_texts(names@));
            let fv = field_values(r@);
            fv.to_multiset_ensures();
            ms.to_multiset_ensures();
            assert(ms.len() == 0);
        }
        let value = remove_quotes(&field.chars);
        r.push(Field { value, origin: field.origin });
        assert(field_values(r@) =~= seq![unquoted(field.chars@)]);
    } else {
        proof {
            let ms = matching_names(p, name_texts(names@));
            let fv = field_values(r@);
            fv.to_multiset_ensures();
            ms.to_multiset_ensures();
            assert(fv.to_multiset().count(fv[0]) > 0);
            assert(ms.to_multiset().count(fv[0]) > 0);
            assert(ms.to_multiset().len() == ms.len());
            assert(ms.len() > 0);
            assert(pattern_compiles(p));
            assert(pattern_literal(p) is None);
        }
    }
    r
}

} // verus!
