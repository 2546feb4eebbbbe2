//! Operator tokens and the trie that recognizes them.
use vstd::prelude::*;

verus! {

/// Operator token identifier.
#[derive(Clone, Copy, Debug, PartialEq, Eq, Structural)]
pub enum Operator {
    /// `&`
    And,
    /// `&&`
    AndAnd,
    /// `|`
    Bar,
    /// `||`
    BarBar,
    /// `<<`
    LessLess,
    /// `<<-`
    LessLessDash,
}

/// Node of a trie that defines a set of operator tokens.
///
/// A node is an array of [`Edge`]s sorted by their keys.
#[derive(Debug)]
pub struct Trie(pub Vec<Edge>);

/// Edge of a [`Trie`].
#[derive(Debug)]
pub struct Edge {
    /// Character value of this edge.
    pub key: char,
    /// Operator that is delimited after taking this edge if no longer match
    /// follows.
    pub value: Option<Operator>,
    /// Sub-trie for the operators that share the prefix up to this edge.
    pub next: Trie,
}

/// Whether the keys of the node's edges strictly increase.
pub open spec fn sorted(t: &Trie) -> bool {
    forall|i: int, j: int|
        0 <= i < j < t.0@.len() ==> (#[trigger] t.0@[i].key as u32) < (#[trigger] t.0@[j].key as u32)
}

/// Whether every node of the trie has sorted edges.
pub open spec fn well_formed(t: &Trie) -> bool
    decreases t,
{
    sorted(t) && forall|i: int|
        0 <= i < t.0@.len() ==> well_formed(&(#[trigger] t.0@[i]).next)
}

/// The edge of node `t` whose key is `key`, if any.
pub open spec fn edge_of(t: &Trie, key: char) -> Option<&Edge> {
    if exists|i: int| 0 <= i < t.0@.len() && (#[trigger] t.0@[i]).key == key {
        let i = choose|i: int| 0 <= i < t.0@.len() && (#[trigger] t.0@[i]).key == key;
        Some(&t.0@[i])
    } else {
        None
    }
}

/// Greedy longest match of an operator at the start of `s` in trie `t`:
/// the operator and the number of characters it covers.
pub open spec fn longest_match(t: &Trie, s: Seq<char>) -> Option<(Operator, nat)>
    decreases s.len(),
{
    if s.len() == 0 {
        None
    } else {
        match edge_of(t, s[0]) {
            None => None,
            Some(e) => match longest_match(&e.next, s.drop_first()) {
                Some((op, n)) => Some((op, n + 1)),
                None => match e.value {
                    Some(op) => Some((op, 1)),
                    None => None,
                },
            },
        }
    }
}

/// The operator that the text of `s` starts with, the longest one where
/// several do, with its length.
pub open spec fn operator_prefix(s: Seq<char>) -> Option<(Operator, nat)> {
    if s.len() >= 1 && s[0] == '&' {
        if s.len() >= 2 && s[1] == '&' {
            Some((Operator::AndAnd, 2))
        } else {
            Some((Operator::And, 1))
        }
    } else if s.len() >= 1 && s[0] == '|' {
        if s.len() >= 2 && s[1] == '|' {
            Some((Operator::BarBar, 2))
        } else {
            Some((Operator::Bar, 1))
        }
    } else if s.len() >= 2 && s[0] == '<' && s[1] == '<' {
        if s.len() >= 3 && s[2] == '-' {
            Some((Operator::LessLessDash, 3))
        } else {
            Some((Operator::LessLess, 2))
        }
    } else {
        None
    }
}

/// Edge whose sub-trie is empty.
fn leaf(key: char, value: Operator) -> (r: Edge)
    ensures
        r.key == key,
        r.value == Some(value),
        r.next.0@.len() == 0,
        well_formed(&r.next),
{
    Edge { key, value: Some(value), next: Trie(Vec::new()) }
}

/// Builds the trie of all operators.
pub fn operators() -> (r: Trie)
    ensures
        well_formed(&r),
        forall|s: Seq<char>| #[trigger] longest_match(&r, s) == operator_prefix(s),
{
    let and_and = leaf('&', Operator::AndAnd);
    let mut v = Vec::new();
    v.push(and_and);
    let and = Edge { key: '&', value: Some(Operator::And), next: Trie(v) };
    let bar_bar = leaf('|', Operator::BarBar);
    let mut v = Vec::new();
    v.push(bar_bar);
    let bar = Edge { key: '|', value: Some(Operator::Bar), next: Trie(v) };
    let dash = leaf('-', Operator::LessLessDash);
    let mut v = Vec::new();
    v.push(dash);
    let less_less = Edge { key: '<', value: Some(Operator::LessLess), next: Trie(v) };
    let mut v = Vec::new();
    v.push(less_less);
    let less = Edge { key: '<', value: None, next: Trie(v) };
    let mut v = Vec::new();
    v.push(and);
    v.push(less);
    v.push(bar);
    let r = Trie(v);
    proof {
        lemma_operators(&r);
    }
    r
}

/// A node with a single edge finds exactly that edge.
proof fn lemma_single_edge(t: &Trie, key: char)
    requires
        t.0@.len() == 1,
    ensures
        edge_of(t, key) == (if t.0@[0].key == key { Some(&t.0@[0]) } else { None }),
{
    if t.0@[0].key == key {
        assert(0 <= 0 < t.0@.len() && t.0@[0].key == key);
    }
}

/// The trie that [`operators`] builds matches [`operator_prefix`].
proof fn lemma_operators(r: &Trie)
    requires
        r.0@.len() == 3,
        r.0@[0].key == '&',
        r.0@[0].value == Some(Operator::And),
        r.0@[0].next.0@.len() == 1,
        r.0@[0].next.0@[0].key == '&',
        r.0@[0].next.0@[0].value == Some(Operator::AndAnd),
        r.0@[0].next.0@[0].next.0@.len() == 0,
        r.0@[1].key == '<',
        r.0@[1].value is None,
        r.0@[1].next.0@.len() == 1,
        r.0@[1].next.0@[0].key == '<',
        r.0@[1].next.0@[0].value == Some(Operator::LessLess),
        r.0@[1].next.0@[0].next.0@.len() == 1,
        r.0@[1].next.0@[0].next.0@[0].key == '-',
        r.0@[1].next.0@[0].next.0@[0].value == Some(Operator::LessLessDash),
        r.0@[1].next.0@[0].next.0@[0].next.0@.len() == 0,
        r.0@[2].key == '|',
        r.0@[2].value == Some(Operator::Bar),
        r.0@[2].next.0@.len() == 1,
        r.0@[2].next.0@[0].key == '|',
        r.0@[2].next.0@[0].value == Some(Operator::BarBar),
        r.0@[2].next.0@[0].next.0@.len() == 0,
    ensures
        well_formed(r),
        forall|s: Seq<char>| #[trigger] longest_match(r, s) == operator_prefix(s),
{
    let a = &r.0@[0].next;
    let aa = &a.0@[0].next;
    let l = &r.0@[1].next;
    let ll = &l.0@[0].next;
    let lld = &ll.0@[0].next;
    let b = &r.0@[2].next;
    let bb = &b.0@[0].next;
    assert(well_formed(aa));
    assert(well_formed(a));
    assert(well_formed(lld));
    assert(well_formed(ll));
    assert(well_formed(l));
    assert(well_formed(bb));
    assert(well_formed(b));
    assert(sorted(r));
    assert(well_formed(r));
    assert forall|s: Seq<char>| #[trigger] longest_match(r, s) == operator_prefix(s) by {
        lemma_operator_string(r, s);
    }
}

proof fn lemma_operator_string(r: &Trie, s: Seq<char>)
    requires
        r.0@.len() == 3,
        r.0@[0].key == '&',
        r.0@[0].value == Some(Operator::And),
        r.0@[0].next.0@.len() == 1,
        r.0@[0].next.0@[0].key == '&',
        r.0@[0].next.0@[0].value == Some(Operator::AndAnd),
        r.0@[0].next.0@[0].next.0@.len() == 0,
        r.0@[1].key == '<',
        r.0@[1].value is None,
        r.0@[1].next.0@.len() == 1,
        r.0@[1].next.0@[0].key == '<',
        r.0@[1].next.0@[0].value == Some(Operator::LessLess),
        r.0@[1].next.0@[0].next.0@.len() == 1,
        r.0@[1].next.0@[0].next.0@[0].key == '-',
        r.0@[1].next.0@[0].next.0@[0].value == Some(Operator::LessLessDash),
        r.0@[1].next.0@[0].next.0@[0].next.0@.len() == 0,
        r.0@[2].key == '|',
        r.0@[2].value == Some(Operator::Bar),
        r.0@[2].next.0@.len() == 1,
        r.0@[2].next.0@[0].key == '|',
        r.0@[2].next.0@[0].value == Some(Operator::BarBar),
        r.0@[2].next.0@[0].next.0@.len() == 0,
    ensures
        longest_match(r, s) == operator_prefix(s),
{
    if s.len() == 0 {
        return;
    }
    let c = s[0];
    let s1 = s.drop_first();
    let s2 = s1.drop_first();
    let s3 = s2.drop_first();
    if c == '&' || c == '<' || c == '|' {
        let k: int = if c == '&' { 0 } else if c == '<' { 1 } else { 2 };
        assert(r.0@[k].key == c);
        assert(forall|i: int| 0 <= i < 3 && (#[trigger] r.0@[i]).key == c ==> i == k);
        assert(edge_of(r, c) == Some(&r.0@[k]));
        let n1 = &r.0@[k].next;
        lemma_single_edge(n1, if s1.len() > 0 { s1[0] } else { ' ' });
        if s1.len() > 0 && s1[0] == n1.0@[0].key {
            let n2 = &n1.0@[0].next;
            if n2.0@.len() == 1 {
                lemma_single_edge(n2, if s2.len() > 0 { s2[0] } else { ' ' });
                if s2.len() > 0 && s2[0] == n2.0@[0].key {
                    let n3 = &n2.0@[0].next;
                    assert(edge_of(n3, if s3.len() > 0 { s3[0] } else { ' ' }) is None);
                    assert(longest_match(n3, s3) is None);
                } else {
                    assert(longest_match(n2, s2) is None);
                }
            } else {
                assert(edge_of(n2, if s2.len() > 0 { s2[0] } else { ' ' }) is None);
                assert(longest_match(n2, s2) is None);
            }
        } else {
            assert(longest_match(n1, s1) is None);
        }
    } else {
        assert(edge_of(r, c) is None);
    }
}

impl Trie {
    /// Finds the edge for the given key.
    pub fn edge(&self, key: char) -> (r: Option<&Edge>)
        requires
            sorted(self),
        ensures
            r == edge_of(self, key),
            r matches Some(e) ==> e.key == key && (exists|i: int| 0 <= i < self.0@.len() && self.0@[i] == *e),
    {
        let mut lo: usize = 0;
        let mut hi: usize = self.0.len();
        while lo < hi
            invariant
                sorted(self),
                lo <= hi <= self.0@.len(),
                forall|i: int| 0 <= i < lo ==> (#[trigger] self.0@[i].key as u32) < key as u32,
                forall|i: int| hi <= i < self.0@.len() ==> (#[trigger] self.0@[i].key as u32) > key as u32,
            decreases hi - lo,
        {
            let mid = lo + (hi - lo) / 2;
            let k = self.0[mid].key;
            if k == key {
                let r = &self.0[mid];
                proof {
                    assert(forall|i: int| 0 <= i < self.0@.len() && #[trigger] self.0@[i].key == key ==> i == mid) by {
                        assert forall|i: int| 0 <= i < self.0@.len() && #[trigger] self.0@[i].key == key implies i == mid by {
                            if i < mid {
                                assert((self.0@[i].key as u32) < (self.0@[mid as int].key as u32));
                            } else if i > mid {
                                assert((self.0@[mid as int].key as u32) < (self.0@[i].key as u32));
                            }
                        }
                    }
                }
                return Some(r);
            } else if (k as u32) < (key as u32) {
                proof {
                    assert forall|i: int| 0 <= i <= mid implies (#[trigger] self.0@[i].key as u32) < key as u32 by {
                        if i < mid {
                            assert((self.0@[i].key as u32) < (self.0@[mid as int].key as u32));
                        }
                    }
                }
                lo = mid + 1;
            } else {
                proof {
                    assert forall|i: int| mid <= i < self.0@.len() implies (#[trigger] self.0@[i].key as u32) > key as u32 by {
                        if i > mid {
                            assert((self.0@[mid as int].key as u32) < (self.0@[i].key as u32));
                        }
                    }
                }
                hi = mid;
            }
        }
        proof {
            assert(!exists|i: int| 0 <= i < self.0@.len() && (#[trigger] self.0@[i]).key == key);
        }
        None
    }

    /// Finds the longest operator at the start of `s`.
    ///
    /// Returns the operator and the number of characters it covers. The match
    /// is greedy: it is extended as long as an edge matches the next
    /// character, and the deepest operator met on the way is the result.
    pub fn longest_operator(&self, s: &Vec<char>) -> (r: Option<(Operator, usize)>)
        requires
            well_formed(self),
        ensures
            match (r, longest_match(self, s@)) {
                (Some((op, n)), Some((op2, n2))) => op == op2 && n as nat == n2,
                (None, None) => true,
                _ => false,
            },
    {
        let mut node: &Trie = self;
        let mut i: usize = 0;
        let mut best: Option<(Operator, usize)> = None;
        assert(s@.skip(0) =~= s@);
        while i < s.len()
            invariant
                well_formed(node),
                i <= s@.len(),
                ({
                    let rest = longest_match(node, s@.skip(i as int));
                    let whole = longest_match(self, s@);
                    match rest {
                        Some((op, n)) => whole == Some((op, (n + i) as nat)),
                        None => match best {
                            Some((op, n)) => whole == Some((op, n as nat)),
                            None => whole is None,
                        },
                    }
                }),
            decreases s@.len() - i,
        {
            let c = s[i];
            assert(s@.skip(i as int)[0] == c);
            assert(s@.skip(i as int).drop_first() =~= s@.skip(i as int + 1));
            match node.edge(c) {
                None => {
                    return best;
                }
                Some(e) => {
                    proof {
                        let k = choose|k: int| 0 <= k < node.0@.len() && (#[trigger] node.0@[k]).key == c;
                        assert(node.0@[k] == *e);
                        assert(well_formed(&node.0@[k].next));
                        assert(well_formed(&e.next));
                    }
                    if let Some(op) = e.value {
                        best = Some((op, i + 1));
                    }
                    node = &e.next;
                    i = i + 1;
                }
            }
        }
        best
    }
}


impl Operator {
    /// Reads the operator at the start of `s`; characters after it are
    /// ignored.
    pub fn from_str(s: &str) -> (r: Result<Operator, ()>)
        ensures
            r == match operator_prefix(s@) {
                Some((op, _)) => Ok::<Operator, ()>(op),
                None => Err(()),
            },
    {
        let trie = operators();
        let cs = crate::text::chars_of(s);
        match trie.longest_operator(&cs) {
            Some((op, _)) => Ok(op),
            None => Err(()),
        }
    }
}

/// Operator that joins pipelines in an and-or list.
#[derive(Clone, Copy, Debug, PartialEq, Eq, Structural)]
pub enum AndOr {
    /// `&&`
    AndThen,
    /// `||`
    OrElse,
}

/// The and-or operator that `op` is, if any.
pub open spec fn and_or_of(op: Operator) -> Option<AndOr> {
    match op {
        Operator::AndAnd => Some(AndOr::AndThen),
        Operator::BarBar => Some(AndOr::OrElse),
        _ => None,
    }
}

impl AndOr {
    /// Converts an operator to an and-or operator.
    pub fn try_from_operator(op: Operator) -> (r: Result<AndOr, ()>)
        ensures
            r == match and_or_of(op) {
                Some(a) => Ok::<AndOr, ()>(a),
                None => Err(()),
            },
    {
        match op {
            Operator::AndAnd => Ok(AndOr::AndThen),
            Operator::BarBar => Ok(AndOr::OrElse),
            _ => Err(()),
        }
    }

    /// Reads the and-or operator at the start of `s`.
    pub fn from_str(s: &str) -> (r: Result<AndOr, ()>)
        ensures
            r == match operator_prefix(s@) {
                Some((op, _)) => match and_or_of(op) {
                    Some(a) => Ok::<AndOr, ()>(a),
                    None => Err(()),
                },
                None => Err(()),
            },
    {
        match Operator::from_str(s) {
            Ok(op) => AndOr::try_from_operator(op),
            Err(()) => Err(()),
        }
    }
}

} // verus!
