//! The JSON grammar, written as total spec functions.
//!
//! Each rule takes the input as a `Seq<char>` together with the position
//! it starts reading at, and returns either the position one past what it
//! consumed along with the parsed result, or the position and kind of the
//! first failure.  The functions are deterministic, so they state exactly
//! which documents are accepted, what tree an accepted document denotes,
//! and which error a rejected document earns.  The executable parser in
//! [`crate::parsers`] is proved to agree with them everywhere.

use vstd::prelude::*;

verus! {

/// A parsed JSON value at the specification level.
///
/// Object members live in a key-unique `Map` (insertion order carries no
/// meaning and a repeated key keeps only its last value), array elements
/// in an ordered `Seq`.  A number is kept as the token the grammar
/// matched; the library never commits it to a machine float.
#[verifier::ext_equal]
pub enum JVal {
    JString(Seq<char>),
    JNumber(Seq<char>),
    JObject(Map<Seq<char>, JVal>),
    JArray(Seq<JVal>),
    JBool(bool),
    JNull,
}

/// What a parse failure complains about.
#[derive(Clone, Copy, Debug, PartialEq, Eq, Structural)]
pub enum ErrorKind {
    /// A value was required and none of the alternatives matched.
    ExpectedValue,
    /// The document's root must be an object, and no `{` was found.
    ExpectedObject,
    /// Inside an object: neither a key string nor `}` followed.
    ExpectedPairOrBrace,
    /// Inside an object: a member must follow a comma, and none did.
    ExpectedPair,
    /// Inside an object: a member was not followed by `,` or `}`.
    ExpectedCommaOrBrace,
    /// Inside an array: an element was not followed by `,` or `]`.
    ExpectedCommaOrBracket,
    /// An object key was not followed by `:`.
    ExpectedColon,
    /// The input ended inside a string literal.
    UnterminatedString,
    /// A backslash began an escape the grammar does not know.
    BadEscape,
    /// Characters remained after the root object.
    TrailingText,
    /// Containers were nested more than [`MAX_DEPTH`] levels deep.
    TooDeep,
}

/// A failure at the specification level: where, and what was expected.
pub ghost struct SpErr {
    pub pos: int,
    pub kind: ErrorKind,
}

/// How many levels of `{`/`[` nesting a document may use, the root
/// object included.  Deeper input fails with [`ErrorKind::TooDeep`]
/// instead of exhausting the call stack.
pub const MAX_DEPTH: u32 = 256;

/// The whitespace characters the grammar skips around structural tokens.
pub open spec fn is_ws(c: char) -> bool {
    c == ' ' || c == '\n' || c == '\t' || c == '\r'
}

/// First position at or after `i` holding no whitespace (or the end).
pub open spec fn ws_end(s: Seq<char>, i: int) -> int
    decreases s.len() - i,
{
    if 0 <= i < s.len() && is_ws(s[i]) {
        ws_end(s, i + 1)
    } else {
        i
    }
}

/// A decimal digit.
pub open spec fn is_digit(c: char) -> bool {
    48 <= c as u32 <= 57
}

/// A nonzero decimal digit: the only digits the integer part may use.
pub open spec fn is_digit19(c: char) -> bool {
    49 <= c as u32 <= 57
}

/// First position at or after `i` holding no decimal digit.
pub open spec fn digits_end(s: Seq<char>, i: int) -> int
    decreases s.len() - i,
{
    if 0 <= i < s.len() && is_digit(s[i]) {
        digits_end(s, i + 1)
    } else {
        i
    }
}

/// First position at or after `i` holding no digit `1`-`9`.
pub open spec fn digits19_end(s: Seq<char>, i: int) -> int
    decreases s.len() - i,
{
    if 0 <= i < s.len() && is_digit19(s[i]) {
        digits19_end(s, i + 1)
    } else {
        i
    }
}

pub proof fn lemma_digits_end(s: Seq<char>, i: int)
    requires
        0 <= i <= s.len(),
    ensures
        i <= digits_end(s, i) <= s.len(),
    decreases s.len() - i,
{
    if i < s.len() && is_digit(s[i]) {
        lemma_digits_end(s, i + 1);
    }
}

pub proof fn lemma_digits19_end(s: Seq<char>, i: int)
    requires
        0 <= i <= s.len(),
    ensures
        i <= digits19_end(s, i) <= s.len(),
    decreases s.len() - i,
{
    if i < s.len() && is_digit19(s[i]) {
        lemma_digits19_end(s, i + 1);
    }
}

/// What a backslash escape decodes to, or `None` for an unknown escape.
pub open spec fn esc_char(c: char) -> Option<char> {
    if c == '"' {
        Some('"')
    } else if c == '\\' {
        Some('\\')
    } else if c == '/' {
        Some('/')
    } else if c == 'n' {
        Some('\n')
    } else if c == 't' {
        Some('\t')
    } else if c == 'r' {
        Some('\r')
    } else if c == 'b' {
        Some('\u{0008}')
    } else if c == 'f' {
        Some('\u{000C}')
    } else {
        None
    }
}

/// The tail of a string literal: `i` points one past the opening quote.
/// On success, the position one past the closing quote and the decoded
/// text.  Decoding is one left-to-right pass; an unknown escape fails.
pub open spec fn str_tail(s: Seq<char>, i: int) -> Result<(int, Seq<char>), SpErr>
    decreases s.len() - i,
{
    if i < 0 || i >= s.len() {
        Err(SpErr { pos: s.len() as int, kind: ErrorKind::UnterminatedString })
    } else if s[i] == '"' {
        Ok((i + 1, Seq::empty()))
    } else if s[i] == '\\' {
        if i + 1 >= s.len() {
            Err(SpErr { pos: s.len() as int, kind: ErrorKind::UnterminatedString })
        } else {
            match esc_char(s[i + 1]) {
                Some(c) => match str_tail(s, i + 2) {
                    Ok((j, t)) => Ok((j, seq![c] + t)),
                    Err(e) => Err(e),
                },
                None => Err(SpErr { pos: i + 1, kind: ErrorKind::BadEscape }),
            }
        }
    } else {
        match str_tail(s, i + 1) {
            Ok((j, t)) => Ok((j, seq![s[i]] + t)),
            Err(e) => Err(e),
        }
    }
}

/// End of a number's integer part: a single `0`, or an optional `-`
/// followed by a nonempty run of digits `1`-`9`.  `None` when no number
/// token starts at `i`.
pub open spec fn int_part_end(s: Seq<char>, i: int) -> Option<int> {
    if 0 <= i < s.len() && s[i] == '0' {
        Some(i + 1)
    } else {
        let k = if 0 <= i < s.len() && s[i] == '-' {
            i + 1
        } else {
            i
        };
        let j = digits19_end(s, k);
        if j == k {
            None
        } else {
            Some(j)
        }
    }
}

/// End of an optional fraction: `.` followed by at least one digit,
/// consumed greedily; otherwise `j` unchanged.
pub open spec fn frac_end(s: Seq<char>, j: int) -> int {
    if 0 <= j && j + 1 < s.len() && s[j] == '.' && is_digit(s[j + 1]) {
        digits_end(s, j + 1)
    } else {
        j
    }
}

/// End of an optional exponent: `e` or `E`, an optional sign, and any
/// run of digits, the empty run included; otherwise `j` unchanged.
pub open spec fn exp_end(s: Seq<char>, j: int) -> int {
    if 0 <= j < s.len() && (s[j] == 'e' || s[j] == 'E') {
        let k = if j + 2 <= s.len() && (s[j + 1] == '+' || s[j + 1] == '-') {
            j + 2
        } else {
            j + 1
        };
        digits_end(s, k)
    } else {
        j
    }
}

/// End of the number token starting at `i`, or `None` if none starts
/// there: integer part, optional fraction, optional exponent.
pub open spec fn num_end(s: Seq<char>, i: int) -> Option<int> {
    match int_part_end(s, i) {
        Some(j) => Some(exp_end(s, frac_end(s, j))),
        None => None,
    }
}

/// Whether a whole text is one well-formed number token.
pub open spec fn num_token(t: Seq<char>) -> bool {
    num_end(t, 0) == Some(t.len() as int)
}

pub proof fn lemma_digits_end_sub(s: Seq<char>, a: int, b: int, k: int)
    requires
        0 <= a <= k <= b <= s.len(),
        digits_end(s, k) <= b,
    ensures
        digits_end(s.subrange(a, b), k - a) == digits_end(s, k) - a,
    decreases b - k,
{
    let u = s.subrange(a, b);
    if k < b && is_digit(s[k]) {
        assert(u[k - a] == s[k]);
        lemma_digits_end_sub(s, a, b, k + 1);
    } else if k < b {
        assert(u[k - a] == s[k]);
    } else {
        if k < s.len() && is_digit(s[k]) {
            lemma_digits_end(s, k + 1);
        }
    }
}

pub proof fn lemma_digits19_end_sub(s: Seq<char>, a: int, b: int, k: int)
    requires
        0 <= a <= k <= b <= s.len(),
        digits19_end(s, k) <= b,
    ensures
        digits19_end(s.subrange(a, b), k - a) == digits19_end(s, k) - a,
    decreases b - k,
{
    let u = s.subrange(a, b);
    if k < b && is_digit19(s[k]) {
        assert(u[k - a] == s[k]);
        lemma_digits19_end_sub(s, a, b, k + 1);
    } else if k < b {
        assert(u[k - a] == s[k]);
    } else {
        if k < s.len() && is_digit19(s[k]) {
            lemma_digits19_end(s, k + 1);
        }
    }
}

/// A number token cut out of its surroundings is a complete number
/// token on its own: the scan makes the same decisions on the piece as
/// it made inside the whole.
pub proof fn lemma_num_token_sub(s: Seq<char>, i: int, j: int)
    requires
        0 <= i,
        num_end(s, i) == Some(j),
    ensures
        i < j <= s.len(),
        num_token(s.subrange(i, j)),
{
    let j1 = int_part_end(s, i)->Some_0;
    let j2 = frac_end(s, j1);
    let j3 = exp_end(s, j2);
    let u = s.subrange(i, j);
    // bounds of the three parts
    if i < s.len() && s[i] == '0' {
        assert(j1 == i + 1);
    } else {
        let k = if 0 <= i < s.len() && s[i] == '-' {
            i + 1
        } else {
            i
        };
        lemma_digits19_end(s, k);
    }
    assert(i < j1 <= s.len());
    if 0 <= j1 && j1 + 1 < s.len() && s[j1] == '.' && is_digit(s[j1 + 1]) {
        lemma_digits_end(s, j1 + 1);
        assert(is_digit(s[j1 + 1]));
        assert(digits_end(s, j1 + 1) == digits_end(s, j1 + 2));
        lemma_digits_end(s, j1 + 2);
    }
    assert(j1 <= j2 <= s.len());
    assert(j2 == j1 || j2 >= j1 + 2);
    if 0 <= j2 < s.len() && (s[j2] == 'e' || s[j2] == 'E') {
        let k2 = if j2 + 2 <= s.len() && (s[j2 + 1] == '+' || s[j2 + 1] == '-') {
            j2 + 2
        } else {
            j2 + 1
        };
        lemma_digits_end(s, k2);
    }
    assert(j2 <= j3 <= s.len());
    assert(j == j3);
    assert(u.len() == j - i);
    // the integer part of the piece
    if i < s.len() && s[i] == '0' {
        assert(u[0] == '0');
        assert(int_part_end(u, 0) == Some(1int));
    } else {
        let k = if s[i] == '-' {
            i + 1
        } else {
            i
        };
        assert(u[0] == s[i]);
        if s[i] == '-' {
            assert(u[0] == '-');
        }
        lemma_digits19_end_sub(s, i, j, k);
        assert(digits19_end(u, k - i) == j1 - i);
        assert(int_part_end(u, 0) == Some(j1 - i));
    }
    // the fraction of the piece
    if 0 <= j1 && j1 + 1 < s.len() && s[j1] == '.' && is_digit(s[j1 + 1]) {
        assert(j2 >= j1 + 2);
        assert(u[j1 - i] == s[j1]);
        assert(u[j1 - i + 1] == s[j1 + 1]);
        lemma_digits_end_sub(s, i, j, j1 + 1);
        assert(frac_end(u, j1 - i) == j2 - i);
    } else {
        assert(j2 == j1);
        if j1 + 1 < j {
            assert(u[j1 - i] == s[j1]);
            assert(u[j1 - i + 1] == s[j1 + 1]);
        } else if j1 < j {
            assert(u[j1 - i] == s[j1]);
        }
        assert(frac_end(u, j1 - i) == j1 - i);
    }
    // the exponent of the piece
    if 0 <= j2 < s.len() && (s[j2] == 'e' || s[j2] == 'E') {
        let k2 = if j2 + 2 <= s.len() && (s[j2 + 1] == '+' || s[j2 + 1] == '-') {
            j2 + 2
        } else {
            j2 + 1
        };
        lemma_digits_end(s, k2);
        assert(j2 < k2 <= j3);
        assert(j2 < j);
        assert(u[j2 - i] == s[j2]);
        if j2 + 2 <= s.len() && (s[j2 + 1] == '+' || s[j2 + 1] == '-') {
            assert(k2 <= j);
            assert(u[j2 - i + 1] == s[j2 + 1]);
        } else {
            if j2 - i + 2 <= u.len() {
                assert(u[j2 - i + 1] == s[j2 + 1]);
            }
        }
        lemma_digits_end_sub(s, i, j, k2);
        assert(exp_end(u, j2 - i) == j - i);
    } else {
        assert(j3 == j2);
        assert(exp_end(u, j2 - i) == j2 - i);
    }
    assert(num_end(u, 0) == Some(j - i));
}

// The structural rules are mutually recursive.  They terminate because
// every step into a nested container spends one unit of `d`, and every
// other recursive call starts strictly further into the input.  The
// positions other rules return are known to advance only by a proof, not
// by unfolding, so each such call sits behind a bounds test; the failing
// side of such a test is unreachable (the executable parser's contracts
// bound every such position) and exists for the termination measure
// alone.

/// A value: string, object, array, `true`, `false`, `null`, or number,
/// the alternatives tried in that order.  `d` is the nesting allowance
/// left; entering `{` or `[` spends one unit.
pub open spec fn value_at(s: Seq<char>, i: int, d: nat) -> Result<(int, JVal), SpErr>
    decreases d, s.len() - i,
{
    if i < 0 || i >= s.len() {
        Err(SpErr { pos: s.len() as int, kind: ErrorKind::ExpectedValue })
    } else if s[i] == '"' {
        match str_tail(s, i + 1) {
            Ok((j, t)) => Ok((j, JVal::JString(t))),
            Err(e) => Err(e),
        }
    } else if s[i] == '{' {
        if d == 0 {
            Err(SpErr { pos: i, kind: ErrorKind::TooDeep })
        } else {
            match object_at(s, i, (d - 1) as nat) {
                Ok((j, ps)) => Ok((j, JVal::JObject(pairs_to_map(ps)))),
                Err(e) => Err(e),
            }
        }
    } else if s[i] == '[' {
        if d == 0 {
            Err(SpErr { pos: i, kind: ErrorKind::TooDeep })
        } else {
            match array_at(s, i, (d - 1) as nat) {
                Ok((j, vs)) => Ok((j, JVal::JArray(vs))),
                Err(e) => Err(e),
            }
        }
    } else if s[i] == 't' {
        if i + 4 <= s.len() && s[i + 1] == 'r' && s[i + 2] == 'u' && s[i + 3] == 'e' {
            Ok((i + 4, JVal::JBool(true)))
        } else {
            Err(SpErr { pos: i, kind: ErrorKind::ExpectedValue })
        }
    } else if s[i] == 'f' {
        if i + 5 <= s.len() && s[i + 1] == 'a' && s[i + 2] == 'l' && s[i + 3] == 's' && s[i + 4]
            == 'e' {
            Ok((i + 5, JVal::JBool(false)))
        } else {
            Err(SpErr { pos: i, kind: ErrorKind::ExpectedValue })
        }
    } else if s[i] == 'n' {
        if i + 4 <= s.len() && s[i + 1] == 'u' && s[i + 2] == 'l' && s[i + 3] == 'l' {
            Ok((i + 4, JVal::JNull))
        } else {
            Err(SpErr { pos: i, kind: ErrorKind::ExpectedValue })
        }
    } else {
        match num_end(s, i) {
            Some(j) => Ok((j, JVal::JNumber(s.subrange(i, j)))),
            None => Err(SpErr { pos: i, kind: ErrorKind::ExpectedValue }),
        }
    }
}

/// An object member: a key string at `i` (so `s[i]` is `"`), then `:`
/// with whitespace allowed around it, then a value.
pub open spec fn pair_at(s: Seq<char>, i: int, d: nat) -> Result<(int, (Seq<char>, JVal)), SpErr>
    decreases d, s.len() - i,
{
    match str_tail(s, i + 1) {
        Err(e) => Err(e),
        Ok((j, key)) => if !(i < j <= s.len()) {
            Err(SpErr { pos: i, kind: ErrorKind::ExpectedColon })
        } else {
            let m = ws_end(s, j);
            if !(j <= m <= s.len()) {
                Err(SpErr { pos: j, kind: ErrorKind::ExpectedColon })
            } else if m >= s.len() || s[m] != ':' {
                Err(SpErr { pos: m, kind: ErrorKind::ExpectedColon })
            } else {
                let v0 = ws_end(s, m + 1);
                if !(m + 1 <= v0 <= s.len()) {
                    Err(SpErr { pos: m + 1, kind: ErrorKind::ExpectedValue })
                } else {
                    match value_at(s, v0, d) {
                        Ok((k, v)) => Ok((k, (key, v))),
                        Err(e) => Err(e),
                    }
                }
            }
        },
    }
}

/// An object, `i` at its `{`: whitespace, then `}` or a first member
/// followed by [`obj_rest`].  Members are returned in textual order.
pub open spec fn object_at(s: Seq<char>, i: int, d: nat) -> Result<
    (int, Seq<(Seq<char>, JVal)>),
    SpErr,
>
    decreases d, s.len() - i,
{
    let j = ws_end(s, i + 1);
    if !(i + 1 <= j <= s.len()) {
        Err(SpErr { pos: i + 1, kind: ErrorKind::ExpectedPairOrBrace })
    } else if j >= s.len() {
        Err(SpErr { pos: s.len() as int, kind: ErrorKind::ExpectedPairOrBrace })
    } else if s[j] == '}' {
        Ok((j + 1, Seq::empty()))
    } else if s[j] == '"' {
        match pair_at(s, j, d) {
            Ok((k, p)) => if !(j < k <= s.len()) {
                Err(SpErr { pos: j, kind: ErrorKind::ExpectedCommaOrBrace })
            } else {
                match obj_rest(s, k, d) {
                    Ok((e, ps)) => Ok((e, seq![p] + ps)),
                    Err(er) => Err(er),
                }
            },
            Err(e) => Err(e),
        }
    } else {
        Err(SpErr { pos: j, kind: ErrorKind::ExpectedPairOrBrace })
    }
}

/// After an object member, at `i`: whitespace, then `}` to close or `,`
/// and a further member.
pub open spec fn obj_rest(s: Seq<char>, i: int, d: nat) -> Result<
    (int, Seq<(Seq<char>, JVal)>),
    SpErr,
>
    decreases d, s.len() - i,
{
    let j = ws_end(s, i);
    if !(i <= j <= s.len()) {
        Err(SpErr { pos: i, kind: ErrorKind::ExpectedCommaOrBrace })
    } else if j >= s.len() {
        Err(SpErr { pos: s.len() as int, kind: ErrorKind::ExpectedCommaOrBrace })
    } else if s[j] == '}' {
        Ok((j + 1, Seq::empty()))
    } else if s[j] == ',' {
        let m = ws_end(s, j + 1);
        if !(j + 1 <= m <= s.len()) {
            Err(SpErr { pos: j + 1, kind: ErrorKind::ExpectedPair })
        } else if m >= s.len() || s[m] != '"' {
            Err(SpErr { pos: m, kind: ErrorKind::ExpectedPair })
        } else {
            match pair_at(s, m, d) {
                Ok((k, p)) => if !(m < k <= s.len()) {
                    Err(SpErr { pos: m, kind: ErrorKind::ExpectedCommaOrBrace })
                } else {
                    match obj_rest(s, k, d) {
                        Ok((e, ps)) => Ok((e, seq![p] + ps)),
                        Err(er) => Err(er),
                    }
                },
                Err(e) => Err(e),
            }
        }
    } else {
        Err(SpErr { pos: j, kind: ErrorKind::ExpectedCommaOrBrace })
    }
}

/// An array, `i` at its `[`: whitespace, then `]` or a first element
/// followed by [`arr_rest`].  Elements are returned in textual order.
pub open spec fn array_at(s: Seq<char>, i: int, d: nat) -> Result<(int, Seq<JVal>), SpErr>
    decreases d, s.len() - i,
{
    let j = ws_end(s, i + 1);
    if !(i + 1 <= j <= s.len()) {
        Err(SpErr { pos: i + 1, kind: ErrorKind::ExpectedValue })
    } else if j < s.len() && s[j] == ']' {
        Ok((j + 1, Seq::empty()))
    } else {
        match value_at(s, j, d) {
            Ok((k, v)) => if !(j < k <= s.len()) {
                Err(SpErr { pos: j, kind: ErrorKind::ExpectedCommaOrBracket })
            } else {
                match arr_rest(s, k, d) {
                    Ok((e, vs)) => Ok((e, seq![v] + vs)),
                    Err(er) => Err(er),
                }
            },
            Err(e) => Err(e),
        }
    }
}

/// After an array element, at `i`: whitespace, then `]` to close or `,`
/// and a further element.
pub open spec fn arr_rest(s: Seq<char>, i: int, d: nat) -> Result<(int, Seq<JVal>), SpErr>
    decreases d, s.len() - i,
{
    let j = ws_end(s, i);
    if !(i <= j <= s.len()) {
        Err(SpErr { pos: i, kind: ErrorKind::ExpectedCommaOrBracket })
    } else if j >= s.len() {
        Err(SpErr { pos: s.len() as int, kind: ErrorKind::ExpectedCommaOrBracket })
    } else if s[j] == ']' {
        Ok((j + 1, Seq::empty()))
    } else if s[j] == ',' {
        let m = ws_end(s, j + 1);
        if !(j + 1 <= m <= s.len()) {
            Err(SpErr { pos: j + 1, kind: ErrorKind::ExpectedValue })
        } else {
            match value_at(s, m, d) {
                Ok((k, v)) => if !(m < k <= s.len()) {
                    Err(SpErr { pos: m, kind: ErrorKind::ExpectedCommaOrBracket })
                } else {
                    match arr_rest(s, k, d) {
                        Ok((e, vs)) => Ok((e, seq![v] + vs)),
                        Err(er) => Err(er),
                    }
                },
                Err(e) => Err(e),
            }
        }
    } else {
        Err(SpErr { pos: j, kind: ErrorKind::ExpectedCommaOrBracket })
    }
}

/// Folds an object's members into a key-unique map, a later member with
/// the same key silently replacing an earlier one.
pub open spec fn pairs_to_map(ps: Seq<(Seq<char>, JVal)>) -> Map<Seq<char>, JVal>
    decreases ps.len(),
{
    if ps.len() == 0 {
        Map::empty()
    } else {
        pairs_to_map(ps.drop_last()).insert(ps.last().0, ps.last().1)
    }
}

pub proof fn lemma_pairs_to_map_push(ps: Seq<(Seq<char>, JVal)>, p: (Seq<char>, JVal))
    ensures
        pairs_to_map(ps.push(p)) == pairs_to_map(ps).insert(p.0, p.1),
{
    assert(ps.push(p).drop_last() =~= ps);
    assert(ps.push(p).last() == p);
}

pub proof fn lemma_pairs_to_map_update(ps: Seq<(Seq<char>, JVal)>, idx: int, p: (Seq<char>, JVal))
    requires
        0 <= idx < ps.len(),
        ps[idx].0 == p.0,
        forall|a: int, b: int| 0 <= a < b < ps.len() ==> ps[a].0 != ps[b].0,
    ensures
        pairs_to_map(ps.update(idx, p)) == pairs_to_map(ps).insert(p.0, p.1),
    decreases ps.len(),
{
    let up = ps.update(idx, p);
    if idx == ps.len() - 1 {
        assert(up.drop_last() =~= ps.drop_last());
        assert(up.last() == p);
        assert(pairs_to_map(ps).insert(p.0, p.1) =~= pairs_to_map(ps.drop_last()).insert(
            p.0,
            p.1,
        ));
    } else {
        assert(up.drop_last() =~= ps.drop_last().update(idx, p));
        assert(up.last() == ps.last());
        lemma_pairs_to_map_update(ps.drop_last(), idx, p);
        // the replaced key and the untouched last key differ, so the two
        // inserts commute
        assert(ps.last().0 != p.0);
        assert(pairs_to_map(ps.drop_last()).insert(p.0, p.1).insert(ps.last().0, ps.last().1)
            =~= pairs_to_map(ps.drop_last()).insert(ps.last().0, ps.last().1).insert(p.0, p.1));
    }
}

pub proof fn lemma_pairs_to_map_contains(ps: Seq<(Seq<char>, JVal)>, k: Seq<char>)
    ensures
        pairs_to_map(ps).contains_key(k) <==> exists|t: int| 0 <= t < ps.len() && ps[t].0 == k,
    decreases ps.len(),
{
    if ps.len() > 0 {
        lemma_pairs_to_map_contains(ps.drop_last(), k);
        if ps.last().0 == k {
            assert(ps[ps.len() - 1].0 == k);
        } else if exists|t: int| 0 <= t < ps.len() && ps[t].0 == k {
            let t = choose|t: int| 0 <= t < ps.len() && ps[t].0 == k;
            assert(ps.drop_last()[t] == ps[t]);
        }
    }
}

pub proof fn lemma_pairs_to_map_last(ps: Seq<(Seq<char>, JVal)>, idx: int)
    requires
        0 <= idx < ps.len(),
        forall|t: int| idx < t < ps.len() ==> ps[t].0 != ps[idx].0,
    ensures
        pairs_to_map(ps).contains_key(ps[idx].0),
        pairs_to_map(ps)[ps[idx].0] == ps[idx].1,
    decreases ps.len(),
{
    if idx == ps.len() - 1 {
        assert(ps.last() == ps[idx]);
    } else {
        assert(ps.drop_last()[idx] == ps[idx]);
        assert(forall|t: int|
            idx < t < ps.drop_last().len() ==> ps.drop_last()[t] == ps[t]);
        lemma_pairs_to_map_last(ps.drop_last(), idx);
        assert(ps.last().0 == ps[ps.len() - 1].0);
        assert(ps.last().0 != ps[idx].0);
    }
}

/// A whole document: an object at the root, with whitespace allowed
/// before it and after it, and nothing else following.
pub open spec fn doc_parse(s: Seq<char>) -> Result<Map<Seq<char>, JVal>, SpErr> {
    let j = ws_end(s, 0);
    if j >= s.len() || s[j] != '{' {
        Err(SpErr { pos: j, kind: ErrorKind::ExpectedObject })
    } else {
        match object_at(s, j, (MAX_DEPTH - 1) as nat) {
            Ok((k, ps)) => {
                let e = ws_end(s, k);
                if e >= s.len() {
                    Ok(pairs_to_map(ps))
                } else {
                    Err(SpErr { pos: e, kind: ErrorKind::TrailingText })
                }
            },
            Err(er) => Err(er),
        }
    }
}

} // verus!
