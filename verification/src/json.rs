//! The value model: the tree a parse produces, and its typed accessors.
//!
//! [`Value`] is a closed tagged union over the six JSON shapes.  Its
//! mathematical meaning is the [`JVal`] its view returns: object members
//! collapse into a key-unique `Map`, array elements stay an ordered
//! `Seq`, and a number keeps the token text the grammar matched.  Each
//! accessor returns `Some` exactly on its own variant and copies the
//! payload out; a mismatch is an absence, never an error.

use crate::grammar::{
    doc_parse, lemma_pairs_to_map_contains, lemma_pairs_to_map_last, lemma_pairs_to_map_push,
    lemma_pairs_to_map_update, num_token, pairs_to_map, ErrorKind, JVal, SpErr,
};
use vstd::prelude::*;

verus! {

/// A parse failure: the position it was detected at and what was
/// expected there.
#[derive(Clone, Copy, Debug, PartialEq, Eq, Structural)]
pub struct ParseError {
    pub pos: usize,
    pub kind: ErrorKind,
}

impl View for ParseError {
    type V = SpErr;

    open spec fn view(&self) -> SpErr {
        SpErr { pos: self.pos as int, kind: self.kind }
    }
}

/// A JSON number, kept as the token the grammar matched.  The library
/// never commits a number to a machine float; a caller that wants one
/// converts the text itself.
#[derive(Debug, PartialEq)]
pub struct Number {
    text: String,
}

impl View for Number {
    type V = Seq<char>;

    closed spec fn view(&self) -> Seq<char> {
        self.text@
    }
}

impl Number {
    /// The token is one complete, well-formed number.
    pub open spec fn wf(self) -> bool {
        num_token(self@)
    }

    /// An owned copy of the token text.
    pub fn text(&self) -> (r: String)
        ensures
            r@ == self@,
    {
        self.text.clone()
    }

    /// Wraps a token the scanner has already checked.
    pub(crate) fn from_token(text: String) -> (r: Number)
        requires
            num_token(text@),
        ensures
            r@ == text@,
            r.wf(),
    {
        Number { text }
    }

    /// Checks a text against the number grammar and wraps it: `Some`
    /// exactly when the whole text is one number token.
    pub fn from_text(text: String) -> (r: Option<Number>)
        ensures
            r is Some <==> num_token(text@),
            r matches Some(n) ==> n@ == text@ && n.wf(),
    {
        let chars = crate::parsers::chars_of(text.as_str());
        match crate::parsers::parse_number_at(&chars, 0) {
            Some((j, _)) => {
                if j == chars.len() {
                    Some(Number { text })
                } else {
                    None
                }
            },
            None => None,
        }
    }
}

/// A parsed JSON value.
#[derive(Debug, PartialEq)]
pub enum Value {
    String(String),
    Number(Number),
    Object(Mapping),
    Array(Vec<Value>),
    Bool(bool),
    Null,
}

/// A JSON object: a key-unique mapping from strings to values.
/// Members are held in insertion order, though the order carries no
/// meaning; inserting a key again replaces its value in place.
#[derive(Debug, PartialEq)]
pub struct Mapping {
    pairs: Vec<(String, Value)>,
}

/// The meanings of a sequence of values, element by element.
pub open spec fn jvals(s: Seq<Value>) -> Seq<JVal>
    decreases s,
{
    if s.len() == 0 {
        Seq::empty()
    } else {
        jvals(s.drop_last()).push(s.last()@)
    }
}

pub broadcast proof fn jvals_len(s: Seq<Value>)
    ensures
        #[trigger] jvals(s).len() == s.len(),
    decreases s.len(),
{
    if s.len() > 0 {
        jvals_len(s.drop_last());
        assert(jvals(s) == jvals(s.drop_last()).push(s.last()@));
    } else {
        assert(jvals(s) == Seq::<JVal>::empty());
    }
}

pub broadcast proof fn jvals_index(s: Seq<Value>, i: int)
    requires
        0 <= i < s.len(),
    ensures
        #[trigger] jvals(s)[i] == s[i]@,
    decreases s.len(),
{
    jvals_len(s);
    jvals_len(s.drop_last());
    assert(jvals(s) == jvals(s.drop_last()).push(s.last()@));
    if i < s.len() - 1 {
        jvals_index(s.drop_last(), i);
        assert(s.drop_last()[i] == s[i]);
    } else {
        assert(s.last() == s[i]);
    }
}

/// The members of an object, as key text and value meaning, in order.
pub open spec fn pseq(ps: Seq<(String, Value)>) -> Seq<(Seq<char>, JVal)>
    decreases ps,
{
    if ps.len() == 0 {
        Seq::empty()
    } else {
        pseq(ps.drop_last()).push((ps.last().0@, ps.last().1@))
    }
}

pub broadcast proof fn pseq_len(ps: Seq<(String, Value)>)
    ensures
        #[trigger] pseq(ps).len() == ps.len(),
    decreases ps.len(),
{
    if ps.len() > 0 {
        pseq_len(ps.drop_last());
        assert(pseq(ps) == pseq(ps.drop_last()).push((ps.last().0@, ps.last().1@)));
    } else {
        assert(pseq(ps) == Seq::<(Seq<char>, JVal)>::empty());
    }
}

pub broadcast proof fn pseq_index(ps: Seq<(String, Value)>, i: int)
    requires
        0 <= i < ps.len(),
    ensures
        #[trigger] pseq(ps)[i] == (ps[i].0@, ps[i].1@),
    decreases ps.len(),
{
    pseq_len(ps);
    pseq_len(ps.drop_last());
    assert(pseq(ps) == pseq(ps.drop_last()).push((ps.last().0@, ps.last().1@)));
    if i < ps.len() - 1 {
        pseq_index(ps.drop_last(), i);
        assert(ps.drop_last()[i] == ps[i]);
    } else {
        assert(ps.last() == ps[i]);
    }
}

impl View for Value {
    type V = JVal;

    open spec fn view(&self) -> JVal
        decreases self,
    {
        match self {
            Value::String(t) => JVal::JString(t@),
            Value::Number(n) => JVal::JNumber(n@),
            Value::Object(m) => JVal::JObject(pairs_to_map(m.pair_seq())),
            Value::Array(a) => JVal::JArray(jvals(a@)),
            Value::Bool(b) => JVal::JBool(*b),
            Value::Null => JVal::JNull,
        }
    }
}

impl Value {
    /// Every mapping in the tree keeps its keys unique, and every number
    /// holds a well-formed token.
    pub open spec fn wf(self) -> bool
        decreases self,
    {
        match self {
            Value::String(_) => true,
            Value::Number(n) => n.wf(),
            Value::Object(m) => m.wf(),
            Value::Array(a) => forall|i: int| 0 <= i < a@.len() ==> a@[i].wf(),
            Value::Bool(_) => true,
            Value::Null => true,
        }
    }
}

impl Mapping {
    /// The members in insertion order, as key text and value meaning.
    pub closed spec fn pair_seq(self) -> Seq<(Seq<char>, JVal)>
        decreases self,
    {
        pseq(self.pairs@)
    }

    /// No key occurs twice, and every member value is well-formed.
    pub closed spec fn wf(self) -> bool
        decreases self,
    {
        (forall|i: int, j: int|
            0 <= i < j < self.pairs@.len() ==> self.pairs@[i].0@ != self.pairs@[j].0@)
            && (forall|i: int| 0 <= i < self.pairs@.len() ==> self.pairs@[i].1.wf())
    }
}

impl View for Mapping {
    type V = Map<Seq<char>, JVal>;

    open spec fn view(&self) -> Map<Seq<char>, JVal> {
        pairs_to_map(self.pair_seq())
    }
}

pub proof fn pseq_update(ps: Seq<(String, Value)>, idx: int, pr: (String, Value))
    requires
        0 <= idx < ps.len(),
    ensures
        pseq(ps.update(idx, pr)) == pseq(ps).update(idx, (pr.0@, pr.1@)),
{
    let l = pseq(ps.update(idx, pr));
    let r = pseq(ps).update(idx, (pr.0@, pr.1@));
    pseq_len(ps.update(idx, pr));
    pseq_len(ps);
    assert forall|t: int| 0 <= t < ps.len() implies l[t] == r[t] by {
        pseq_index(ps.update(idx, pr), t);
        pseq_index(ps, t);
    }
    assert(l =~= r);
}

pub proof fn pseq_push(ps: Seq<(String, Value)>, pr: (String, Value))
    ensures
        pseq(ps.push(pr)) == pseq(ps).push((pr.0@, pr.1@)),
{
    assert(ps.push(pr).drop_last() =~= ps);
    assert(ps.push(pr).last() == pr);
}

impl Mapping {
    /// An empty mapping.
    pub fn new() -> (r: Mapping)
        ensures
            r@ == Map::<Seq<char>, JVal>::empty(),
            r.pair_seq() == Seq::<(Seq<char>, JVal)>::empty(),
            r.wf(),
    {
        let r = Mapping { pairs: Vec::new() };
        proof {
            assert(r.pair_seq() =~= Seq::<(Seq<char>, JVal)>::empty());
        }
        r
    }

    /// Puts `v` under `key`.  A key already present keeps its place and
    /// only its value changes, so later members silently replace earlier
    /// ones; a new key goes to the end.
    pub fn insert(&mut self, key: String, v: Value)
        ensures
            old(self).wf() && v.wf() ==> {
                &&& final(self)@ == old(self)@.insert(key@, v@)
                &&& final(self).wf()
            },
    {
        let ghost gk: Seq<char> = key@;
        let ghost gv: JVal = v@;
        let ghost gvw: Value = v;
        let mut idx: usize = 0;
        while idx < self.pairs.len()
            invariant
                idx <= self.pairs.len(),
                *self == *old(self),
                gk == key@,
                gv == v@,
                gvw == v,
                forall|t: int| 0 <= t < idx ==> self.pairs@[t].0@ != gk,
            decreases self.pairs@.len() - idx,
        {
            if str_eq(self.pairs[idx].0.as_str(), key.as_str()) {
                let ghost ops = self.pairs@;
                let pr = (key, v);
                let ghost gpr: (String, Value) = pr;
                let _ = self.pairs.remove(idx);
                self.pairs.insert(idx, pr);
                proof {
                    assert(self.pairs@ =~= ops.update(idx as int, gpr));
                    pseq_update(ops, idx as int, gpr);
                    pseq_len(ops);
                    if old(self).wf() && gvw.wf() {
                        assert forall|a: int, b: int|
                            0 <= a < b < pseq(ops).len() implies pseq(ops)[a].0 != pseq(
                            ops,
                        )[b].0 by {
                            pseq_index(ops, a);
                            pseq_index(ops, b);
                        }
                        pseq_index(ops, idx as int);
                        lemma_pairs_to_map_update(pseq(ops), idx as int, (gk, gv));
                        assert(self.wf());
                    }
                }
                return ;
            }
            idx += 1;
        }
        let ghost ops = self.pairs@;
        let pr = (key, v);
        let ghost gpr: (String, Value) = pr;
        self.pairs.push(pr);
        proof {
            pseq_push(ops, gpr);
            lemma_pairs_to_map_push(pseq(ops), (gk, gv));
            if old(self).wf() && gvw.wf() {
                assert(self.wf());
            }
        }
    }

    /// Looks a key up: the value of the last member carrying it, or
    /// `None` when no member does.
    pub fn get(&self, key: &str) -> (r: Option<&Value>)
        ensures
            match r {
                Some(v) => self@.contains_key(key@) && v@ == self@[key@],
                None => !self@.contains_key(key@),
            },
    {
        let mut idx: usize = self.pairs.len();
        while idx > 0
            invariant
                idx <= self.pairs@.len(),
                forall|t: int| idx <= t < self.pairs@.len() ==> self.pairs@[t].0@ != key@,
            decreases idx,
        {
            idx = idx - 1;
            if str_eq(self.pairs[idx].0.as_str(), key) {
                proof {
                    pseq_len(self.pairs@);
                    assert forall|t: int|
                        (idx as int) < t < pseq(self.pairs@).len() implies pseq(self.pairs@)[t].0
                        != pseq(self.pairs@)[idx as int].0 by {
                        pseq_index(self.pairs@, t);
                        pseq_index(self.pairs@, idx as int);
                    }
                    pseq_index(self.pairs@, idx as int);
                    lemma_pairs_to_map_last(pseq(self.pairs@), idx as int);
                }
                return Some(&self.pairs[idx].1);
            }
        }
        proof {
            pseq_len(self.pairs@);
            lemma_pairs_to_map_contains(pseq(self.pairs@), key@);
            assert forall|t: int| 0 <= t < pseq(self.pairs@).len() implies pseq(self.pairs@)[t].0
                != key@ by {
                pseq_index(self.pairs@, t);
            }
        }
        None
    }
}

impl Value {
    /// An exact copy of the tree: the copy means the same `JVal` and is
    /// well-formed whenever the value it was taken from is.
    #[verifier::loop_isolation(false)]
    fn dup(&self) -> (r: Value)
        ensures
            r@ == self@,
            self.wf() ==> r.wf(),
        decreases self,
    {
        match self {
            Value::String(t) => Value::String(t.clone()),
            Value::Number(n) => Value::Number(Number { text: n.text.clone() }),
            Value::Object(m) => Value::Object(m.dup()),
            Value::Array(a) => {
                let mut out: Vec<Value> = Vec::new();
                let mut i: usize = 0;
                while i < a.len()
                    invariant
                        i <= a.len(),
                        out@.len() == i,
                        forall|k: int|
                            0 <= k < i ==> out@[k]@ == a@[k]@ && (a@[k].wf() ==> out@[k].wf()),
                    decreases a@.len() - i,
                {
                    out.push(a[i].dup());
                    i += 1;
                }
                proof {
                    jvals_len(out@);
                    jvals_len(a@);
                    assert forall|k: int| 0 <= k < a@.len() implies jvals(out@)[k] == jvals(
                        a@,
                    )[k] by {
                        jvals_index(out@, k);
                        jvals_index(a@, k);
                    }
                    assert(jvals(out@) =~= jvals(a@));
                }
                Value::Array(out)
            },
            Value::Bool(b) => Value::Bool(*b),
            Value::Null => Value::Null,
        }
    }

    /// The text of a string value; `None` on every other variant.
    pub fn as_string(&self) -> (r: Option<String>)
        ensures
            match self {
                Value::String(t) => r matches Some(u) && u@ == t@,
                _ => r is None,
            },
    {
        if let Value::String(t) = self {
            Some(t.clone())
        } else {
            None
        }
    }

    /// The token of a number value; `None` on every other variant.
    pub fn as_f64(&self) -> (r: Option<Number>)
        ensures
            match self {
                Value::Number(n) => r matches Some(u) && u@ == n@,
                _ => r is None,
            },
    {
        if let Value::Number(n) = self {
            Some(Number { text: n.text.clone() })
        } else {
            None
        }
    }

    /// A copy of an object's mapping; `None` on every other variant.
    pub fn as_map(&self) -> (r: Option<Mapping>)
        ensures
            match self {
                Value::Object(m) => r matches Some(u) && u@ == m@ && (self.wf() ==> u.wf()),
                _ => r is None,
            },
    {
        if let Value::Object(m) = self {
            Some(m.dup())
        } else {
            None
        }
    }

    /// A copy of an array's elements, in order; `None` on every other
    /// variant.
    pub fn as_vec(&self) -> (r: Option<Vec<Value>>)
        ensures
            match self {
                Value::Array(a) => r matches Some(u) && u@.len() == a@.len() && jvals(u@)
                    == jvals(a@) && (self.wf() ==> forall|i: int|
                    0 <= i < u@.len() ==> u@[i].wf()),
                _ => r is None,
            },
    {
        if let Value::Array(a) = self {
            let mut out: Vec<Value> = Vec::new();
            let mut i: usize = 0;
            while i < a.len()
                invariant
                    i <= a.len(),
                    out@.len() == i,
                    forall|k: int|
                        0 <= k < i ==> out@[k]@ == a@[k]@ && (a@[k].wf() ==> out@[k].wf()),
                decreases a@.len() - i,
            {
                out.push(a[i].dup());
                i += 1;
            }
            proof {
                jvals_len(out@);
                jvals_len(a@);
                assert forall|k: int| 0 <= k < a@.len() implies jvals(out@)[k] == jvals(a@)[k] by {
                    jvals_index(out@, k);
                    jvals_index(a@, k);
                }
                assert(jvals(out@) =~= jvals(a@));
            }
            Some(out)
        } else {
            None
        }
    }

    /// The truth of a boolean value; `None` on every other variant.
    pub fn as_bool(&self) -> (r: Option<bool>)
        ensures
            match self {
                Value::Bool(b) => r == Some(*b),
                _ => r is None,
            },
    {
        if let Value::Bool(b) = self {
            Some(*b)
        } else {
            None
        }
    }
}

impl Mapping {
    /// An exact copy: same members in the same order.
    #[verifier::loop_isolation(false)]
    fn dup(&self) -> (r: Mapping)
        ensures
            r.pair_seq() == self.pair_seq(),
            r@ == self@,
            self.wf() ==> r.wf(),
        decreases self,
    {
        let mut out: Vec<(String, Value)> = Vec::new();
        let mut i: usize = 0;
        while i < self.pairs.len()
            invariant
                i <= self.pairs@.len(),
                out@.len() == i,
                forall|k: int|
                    0 <= k < i ==> {
                        &&& out@[k].0@ == self.pairs@[k].0@
                        &&& out@[k].1@ == self.pairs@[k].1@
                        &&& (self.pairs@[k].1.wf() ==> out@[k].1.wf())
                    },
            decreases self.pairs@.len() - i,
        {
            out.push((self.pairs[i].0.clone(), self.pairs[i].1.dup()));
            i += 1;
        }
        let r = Mapping { pairs: out };
        proof {
            pseq_len(out@);
            pseq_len(self.pairs@);
            assert forall|k: int| 0 <= k < self.pairs@.len() implies pseq(out@)[k] == pseq(
                self.pairs@,
            )[k] by {
                pseq_index(out@, k);
                pseq_index(self.pairs@, k);
            }
            assert(pseq(out@) =~= pseq(self.pairs@));
        }
        r
    }
}

/// Parses a complete JSON document: on success the root object's
/// key-unique mapping, well-formed; on failure the position and kind of
/// the first error.  The answer is exactly what [`doc_parse`] assigns
/// to the text, so the whole grammar — which documents are accepted,
/// what tree each denotes, which error the rest earn — is pinned down.
pub fn parse_json(text: &str) -> (r: Result<Mapping, ParseError>)
    ensures
        match r {
            Ok(m) => doc_parse(text@) == Ok::<Map<Seq<char>, JVal>, SpErr>(m@) && m.wf(),
            Err(e) => doc_parse(text@) == Err::<Map<Seq<char>, JVal>, SpErr>(e@),
        },
{
    let chars = crate::parsers::chars_of(text);
    crate::parsers::parse_document(&chars)
}

/// Compares two strings character by character.
fn str_eq(a: &str, b: &str) -> (r: bool)
    ensures
        r == (a@ == b@),
{
    let la = a.unicode_len();
    let lb = b.unicode_len();
    if la != lb {
        return false;
    }
    let mut i: usize = 0;
    while i < la
        invariant
            la == a@.len(),
            lb == b@.len(),
            la == lb,
            i <= la,
            forall|k: int| 0 <= k < i ==> a@[k] == b@[k],
        decreases la - i,
    {
        if a.get_char(i) != b.get_char(i) {
            return false;
        }
        i += 1;
    }
    proof {
        assert(a@ =~= b@);
    }
    true
}

} // verus!
