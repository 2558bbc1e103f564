//! The executable recursive-descent parser, proved against the grammar.
//!
//! Every function here mirrors one rule of [`crate::grammar`] and its
//! contract says it returns exactly what that rule denotes: the same
//! end position and value on success, the same position and kind on
//! failure.  Scanning runs in loops; only the nesting of objects and
//! arrays recurses, and the depth allowance bounds that recursion.

use crate::grammar::{
    arr_rest, array_at, digits_end, digits19_end, doc_parse, esc_char, is_digit, is_digit19,
    is_ws, lemma_num_token_sub, lemma_pairs_to_map_push, num_end, obj_rest, object_at, pair_at,
    pairs_to_map, str_tail, value_at, ws_end, ErrorKind, JVal, SpErr, MAX_DEPTH,
};
use crate::json::{jvals, Mapping, Number, ParseError, Value};
use vstd::prelude::*;

verus! {

/// Skips whitespace: the first position at or after `i` that holds none.
pub fn skip_ws(s: &Vec<char>, i: usize) -> (j: usize)
    requires
        i <= s.len(),
    ensures
        j == ws_end(s@, i as int),
        i <= j <= s.len(),
        j < s.len() ==> !is_ws(s@[j as int]),
{
    let mut k = i;
    while k < s.len() && is_ws_char(s[k])
        invariant
            i <= k <= s.len(),
            ws_end(s@, i as int) == ws_end(s@, k as int),
        decreases s.len() - k,
    {
        k = k + 1;
    }
    k
}

/// Whether `c` is grammar whitespace.
fn is_ws_char(c: char) -> (b: bool)
    ensures
        b == is_ws(c),
{
    c == ' ' || c == '\n' || c == '\t' || c == '\r'
}

/// Whether `c` is a decimal digit.
fn is_digit_char(c: char) -> (b: bool)
    ensures
        b == is_digit(c),
{
    let d = c as u32;
    48 <= d && d <= 57
}

/// Whether `c` is a digit `1`-`9`.
fn is_digit19_char(c: char) -> (b: bool)
    ensures
        b == is_digit19(c),
{
    let d = c as u32;
    49 <= d && d <= 57
}

/// Relies on `String::push`: it appends the given character to the end
/// of the string.
#[verifier::external_body]
fn push_char(s: &mut String, c: char)
    ensures
        final(s)@ == old(s)@.push(c),
{
    s.push(c);
}

/// The characters of a text, in order, as a vector.
pub fn chars_of(text: &str) -> (v: Vec<char>)
    ensures
        v@ == text@,
{
    let n = text.unicode_len();
    let mut v: Vec<char> = Vec::new();
    let mut i: usize = 0;
    while i < n
        invariant
            n == text@.len(),
            i <= n,
            v@ == text@.subrange(0, i as int),
        decreases n - i,
    {
        let c = text.get_char(i);
        v.push(c);
        proof {
            assert(text@.subrange(0, (i + 1) as int) =~= text@.subrange(0, i as int).push(
                text@[i as int],
            ));
        }
        i += 1;
    }
    proof {
        assert(text@.subrange(0, text@.len() as int) =~= text@);
    }
    v
}

/// An owned copy of the characters `s[from..to]`.
fn copy_range(s: &Vec<char>, from: usize, to: usize) -> (t: String)
    requires
        from <= to <= s@.len(),
    ensures
        t@ == s@.subrange(from as int, to as int),
{
    let mut t = String::new();
    let mut p = from;
    while p < to
        invariant
            from <= p <= to <= s@.len(),
            t@ == s@.subrange(from as int, p as int),
        decreases to - p,
    {
        push_char(&mut t, s[p]);
        proof {
            assert(s@.subrange(from as int, (p + 1) as int) =~= s@.subrange(
                from as int,
                p as int,
            ).push(s@[p as int]));
        }
        p += 1;
    }
    t
}

/// First position at or after `i` with no decimal digit.
fn scan_digits(s: &Vec<char>, i: usize) -> (j: usize)
    requires
        i <= s.len(),
    ensures
        j == digits_end(s@, i as int),
        i <= j <= s.len(),
{
    let mut k = i;
    while k < s.len() && is_digit_char(s[k])
        invariant
            i <= k <= s.len(),
            digits_end(s@, i as int) == digits_end(s@, k as int),
        decreases s.len() - k,
    {
        k = k + 1;
    }
    k
}

/// First position at or after `i` with no digit `1`-`9`.
fn scan_digits19(s: &Vec<char>, i: usize) -> (j: usize)
    requires
        i <= s.len(),
    ensures
        j == digits19_end(s@, i as int),
        i <= j <= s.len(),
{
    let mut k = i;
    while k < s.len() && is_digit19_char(s[k])
        invariant
            i <= k <= s.len(),
            digits19_end(s@, i as int) == digits19_end(s@, k as int),
        decreases s.len() - k,
    {
        k = k + 1;
    }
    k
}

/// What a backslash escape decodes to; `None` for an unknown escape.
fn esc_exec(c: char) -> (r: Option<char>)
    ensures
        r == esc_char(c),
{
    if c == '"' {
        Some('"')
    } else if c == '\\' {
        Some('\\')
    } else if c == '/' {
        Some('/')
    } else if c == 'n' {
        Some('\n')
    } else if c == 't' {
        Some('\t')
    } else if c == 'r' {
        Some('\r')
    } else if c == 'b' {
        Some('\u{0008}')
    } else if c == 'f' {
        Some('\u{000C}')
    } else {
        None
    }
}

/// The tail of a string literal, `i` one past the opening quote: decodes
/// up to the closing quote, as [`str_tail`] describes.
pub fn parse_string_body(s: &Vec<char>, i: usize) -> (r: Result<(usize, String), ParseError>)
    requires
        i <= s.len(),
    ensures
        match r {
            Ok((j, t)) => str_tail(s@, i as int) == Ok::<(int, Seq<char>), SpErr>((
                j as int,
                t@,
            )) && i < j <= s.len(),
            Err(e) => str_tail(s@, i as int) == Err::<(int, Seq<char>), SpErr>(e@),
        },
{
    let mut k = i;
    let mut acc = String::new();
    loop
        invariant
            i <= k <= s.len(),
            str_tail(s@, i as int) == (match str_tail(s@, k as int) {
                Ok(p) => Ok::<(int, Seq<char>), SpErr>((p.0, acc@ + p.1)),
                Err(e) => Err::<(int, Seq<char>), SpErr>(e),
            }),
        decreases s.len() - k,
    {
        if k >= s.len() {
            return Err(ParseError { pos: s.len(), kind: ErrorKind::UnterminatedString });
        }
        let c = s[k];
        if c == '"' {
            proof {
                assert(acc@ + Seq::<char>::empty() =~= acc@);
            }
            return Ok((k + 1, acc));
        }
        if c == '\\' {
            if k + 1 >= s.len() {
                return Err(ParseError { pos: s.len(), kind: ErrorKind::UnterminatedString });
            }
            match esc_exec(s[k + 1]) {
                Some(d) => {
                    proof {
                        match str_tail(s@, (k + 2) as int) {
                            Ok(p) => {
                                assert((acc@.push(d)) + p.1 =~= acc@ + (seq![d] + p.1));
                            },
                            Err(_) => {},
                        }
                    }
                    push_char(&mut acc, d);
                    k = k + 2;
                },
                None => {
                    return Err(ParseError { pos: k + 1, kind: ErrorKind::BadEscape });
                },
            }
        } else {
            proof {
                match str_tail(s@, (k + 1) as int) {
                    Ok(p) => {
                        assert((acc@.push(c)) + p.1 =~= acc@ + (seq![c] + p.1));
                    },
                    Err(_) => {},
                }
            }
            push_char(&mut acc, c);
            k = k + 1;
        }
    }
}

/// The number token starting at `i`, if [`num_end`] admits one: its end
/// and its text.
pub fn parse_number_at(s: &Vec<char>, i: usize) -> (r: Option<(usize, String)>)
    requires
        i <= s.len(),
    ensures
        match r {
            Some((j, t)) => num_end(s@, i as int) == Some(j as int) && t@ == s@.subrange(
                i as int,
                j as int,
            ) && i < j <= s.len(),
            None => num_end(s@, i as int) is None,
        },
{
    // integer part
    let j1: usize;
    if i < s.len() && s[i] == '0' {
        j1 = i + 1;
    } else {
        let k = if i < s.len() && s[i] == '-' {
            i + 1
        } else {
            i
        };
        let j = scan_digits19(s, k);
        if j == k {
            return None;
        }
        j1 = j;
    }
    // fraction
    let j2: usize = if j1 < s.len() && j1 + 1 < s.len() && s[j1] == '.' && is_digit_char(
        s[j1 + 1],
    ) {
        scan_digits(s, j1 + 1)
    } else {
        j1
    };
    // exponent
    let j3: usize;
    if j2 < s.len() && (s[j2] == 'e' || s[j2] == 'E') {
        let k2 = if j2 + 1 < s.len() && (s[j2 + 1] == '+' || s[j2 + 1] == '-') {
            j2 + 2
        } else {
            j2 + 1
        };
        j3 = scan_digits(s, k2);
    } else {
        j3 = j2;
    }
    let t = copy_range(s, i, j3);
    Some((j3, t))
}

/// A value at `i`, dispatched on its first character as [`value_at`]
/// prescribes.  `d` is the nesting allowance still unspent.
pub fn parse_value(s: &Vec<char>, i: usize, d: u32) -> (r: Result<(usize, Value), ParseError>)
    requires
        i <= s@.len(),
    ensures
        match value_at(s@, i as int, d as nat) {
            Ok(p) => r matches Ok(q) && q.0 as int == p.0 && q.1@ == p.1 && q.1.wf() && i < q.0
                <= s@.len(),
            Err(e) => r matches Err(pe) && pe@ == e,
        },
    decreases d, s@.len() - i,
{
    if i >= s.len() {
        return Err(ParseError { pos: s.len(), kind: ErrorKind::ExpectedValue });
    }
    let c = s[i];
    if c == '"' {
        match parse_string_body(s, i + 1) {
            Ok((j, t)) => Ok((j, Value::String(t))),
            Err(e) => Err(e),
        }
    } else if c == '{' {
        if d == 0 {
            Err(ParseError { pos: i, kind: ErrorKind::TooDeep })
        } else {
            match parse_object(s, i, d - 1) {
                Ok((j, m)) => Ok((j, Value::Object(m))),
                Err(e) => Err(e),
            }
        }
    } else if c == '[' {
        if d == 0 {
            Err(ParseError { pos: i, kind: ErrorKind::TooDeep })
        } else {
            match parse_array(s, i, d - 1) {
                Ok((j, a)) => Ok((j, Value::Array(a))),
                Err(e) => Err(e),
            }
        }
    } else if c == 't' {
        if s.len() - i >= 4 && s[i + 1] == 'r' && s[i + 2] == 'u' && s[i + 3] == 'e' {
            Ok((i + 4, Value::Bool(true)))
        } else {
            Err(ParseError { pos: i, kind: ErrorKind::ExpectedValue })
        }
    } else if c == 'f' {
        if s.len() - i >= 5 && s[i + 1] == 'a' && s[i + 2] == 'l' && s[i + 3] == 's' && s[i + 4]
            == 'e' {
            Ok((i + 5, Value::Bool(false)))
        } else {
            Err(ParseError { pos: i, kind: ErrorKind::ExpectedValue })
        }
    } else if c == 'n' {
        if s.len() - i >= 4 && s[i + 1] == 'u' && s[i + 2] == 'l' && s[i + 3] == 'l' {
            Ok((i + 4, Value::Null))
        } else {
            Err(ParseError { pos: i, kind: ErrorKind::ExpectedValue })
        }
    } else {
        match parse_number_at(s, i) {
            Some((j, t)) => {
                proof {
                    lemma_num_token_sub(s@, i as int, j as int);
                }
                Ok((j, Value::Number(Number::from_token(t))))
            },
            None => Err(ParseError { pos: i, kind: ErrorKind::ExpectedValue }),
        }
    }
}

/// An object member at `i` (`s[i]` is the key's opening quote), as
/// [`pair_at`] prescribes.
pub fn parse_pair(s: &Vec<char>, i: usize, d: u32) -> (r: Result<
    (usize, String, Value),
    ParseError,
>)
    requires
        i < s@.len(),
    ensures
        match pair_at(s@, i as int, d as nat) {
            Ok(p) => r matches Ok(q) && q.0 as int == p.0 && q.1@ == p.1.0 && q.2@ == p.1.1
                && q.2.wf() && i < q.0 <= s@.len(),
            Err(e) => r matches Err(pe) && pe@ == e,
        },
    decreases d, s@.len() - i,
{
    let n = s.len();
    let (j, key) = match parse_string_body(s, i + 1) {
        Ok(x) => x,
        Err(e) => {
            return Err(e);
        },
    };
    let m = skip_ws(s, j);
    if m >= n || s[m] != ':' {
        return Err(ParseError { pos: m, kind: ErrorKind::ExpectedColon });
    }
    let v0 = skip_ws(s, m + 1);
    match parse_value(s, v0, d) {
        Ok((k, v)) => Ok((k, key, v)),
        Err(e) => Err(e),
    }
}

/// An object at `i` (`s[i]` is `{`), as [`object_at`] prescribes; its
/// members fold into a key-unique [`Mapping`], the last value of a
/// repeated key winning.
pub fn parse_object(s: &Vec<char>, i: usize, d: u32) -> (r: Result<(usize, Mapping), ParseError>)
    requires
        i < s@.len(),
    ensures
        match object_at(s@, i as int, d as nat) {
            Ok(p) => r matches Ok(q) && q.0 as int == p.0 && q.1@ == pairs_to_map(p.1)
                && q.1.wf() && i < q.0 <= s@.len(),
            Err(e) => r matches Err(pe) && pe@ == e,
        },
    decreases d, s@.len() - i,
{
    let n = s.len();
    let j = skip_ws(s, i + 1);
    if j >= n {
        return Err(ParseError { pos: n, kind: ErrorKind::ExpectedPairOrBrace });
    }
    if s[j] == '}' {
        let m = Mapping::new();
        proof {
            assert(pairs_to_map(Seq::<(Seq<char>, JVal)>::empty()) =~= Map::<
                Seq<char>,
                JVal,
            >::empty());
        }
        return Ok((j + 1, m));
    }
    if s[j] != '"' {
        return Err(ParseError { pos: j, kind: ErrorKind::ExpectedPairOrBrace });
    }
    let (k0, key0, v0) = match parse_pair(s, j, d) {
        Ok(x) => x,
        Err(e) => {
            return Err(e);
        },
    };
    let ghost gk0: Seq<char> = key0@;
    let ghost gv0: JVal = v0@;
    let mut map = Mapping::new();
    map.insert(key0, v0);
    let mut k = k0;
    let ghost mut done: Seq<(Seq<char>, JVal)> = seq![(gk0, gv0)];
    proof {
        assert(done.drop_last() =~= Seq::<(Seq<char>, JVal)>::empty());
        assert(map@ =~= pairs_to_map(done));
    }
    loop
        invariant
            i < k <= s@.len(),
            map@ == pairs_to_map(done),
            map.wf(),
            (match obj_rest(s@, k as int, d as nat) {
                Ok(p) => object_at(s@, i as int, d as nat) == Ok::<
                    (int, Seq<(Seq<char>, JVal)>),
                    SpErr,
                >((p.0, done + p.1)),
                Err(e) => object_at(s@, i as int, d as nat) == Err::<
                    (int, Seq<(Seq<char>, JVal)>),
                    SpErr,
                >(e),
            }),
        decreases s@.len() - k,
    {
        let j2 = skip_ws(s, k);
        if j2 >= s.len() {
            return Err(ParseError { pos: s.len(), kind: ErrorKind::ExpectedCommaOrBrace });
        }
        if s[j2] == '}' {
            proof {
                assert(done + Seq::<(Seq<char>, JVal)>::empty() =~= done);
            }
            return Ok((j2 + 1, map));
        }
        if s[j2] != ',' {
            return Err(ParseError { pos: j2, kind: ErrorKind::ExpectedCommaOrBrace });
        }
        let m2 = skip_ws(s, j2 + 1);
        if m2 >= s.len() || s[m2] != '"' {
            return Err(ParseError { pos: m2, kind: ErrorKind::ExpectedPair });
        }
        let (k2, key, v) = match parse_pair(s, m2, d) {
            Ok(x) => x,
            Err(e) => {
                return Err(e);
            },
        };
        let ghost gk: Seq<char> = key@;
        let ghost gv: JVal = v@;
        proof {
            match obj_rest(s@, k2 as int, d as nat) {
                Ok(p) => {
                    assert((done.push((gk, gv))) + p.1 =~= done + (seq![(gk, gv)] + p.1));
                },
                Err(_) => {},
            }
            lemma_pairs_to_map_push(done, (gk, gv));
        }
        map.insert(key, v);
        proof {
            done = done.push((gk, gv));
        }
        k = k2;
    }
}

/// An array at `i` (`s[i]` is `[`), as [`array_at`] prescribes; the
/// elements keep their textual order.
pub fn parse_array(s: &Vec<char>, i: usize, d: u32) -> (r: Result<
    (usize, Vec<Value>),
    ParseError,
>)
    requires
        i < s@.len(),
    ensures
        match array_at(s@, i as int, d as nat) {
            Ok(p) => r matches Ok(q) && q.0 as int == p.0 && jvals(q.1@) == p.1 && (forall|
                t: int,
            |
                0 <= t < q.1@.len() ==> q.1@[t].wf()) && i < q.0 <= s@.len(),
            Err(e) => r matches Err(pe) && pe@ == e,
        },
    decreases d, s@.len() - i,
{
    let n = s.len();
    let j = skip_ws(s, i + 1);
    if j >= n {
        return Err(ParseError { pos: n, kind: ErrorKind::ExpectedValue });
    }
    if s[j] == ']' {
        let out: Vec<Value> = Vec::new();
        proof {
            assert(jvals(out@) =~= Seq::<JVal>::empty());
        }
        return Ok((j + 1, out));
    }
    let (k0, v0) = match parse_value(s, j, d) {
        Ok(x) => x,
        Err(e) => {
            return Err(e);
        },
    };
    let ghost gv0: JVal = v0@;
    let mut out: Vec<Value> = Vec::new();
    out.push(v0);
    let mut k = k0;
    proof {
        assert(out@.drop_last() =~= Seq::<Value>::empty());
        assert(jvals(Seq::<Value>::empty()) == Seq::<JVal>::empty());
        assert(jvals(out@) == jvals(Seq::<Value>::empty()).push(gv0));
        assert(jvals(out@) =~= seq![gv0]);
    }
    loop
        invariant
            i < k <= s@.len(),
            (forall|t: int| 0 <= t < out@.len() ==> out@[t].wf()),
            (match arr_rest(s@, k as int, d as nat) {
                Ok(p) => array_at(s@, i as int, d as nat) == Ok::<(int, Seq<JVal>), SpErr>((
                    p.0,
                    jvals(out@) + p.1,
                )),
                Err(e) => array_at(s@, i as int, d as nat) == Err::<(int, Seq<JVal>), SpErr>(e),
            }),
        decreases s@.len() - k,
    {
        let j2 = skip_ws(s, k);
        if j2 >= s.len() {
            return Err(ParseError { pos: s.len(), kind: ErrorKind::ExpectedCommaOrBracket });
        }
        if s[j2] == ']' {
            proof {
                assert(jvals(out@) + Seq::<JVal>::empty() =~= jvals(out@));
            }
            return Ok((j2 + 1, out));
        }
        if s[j2] != ',' {
            return Err(ParseError { pos: j2, kind: ErrorKind::ExpectedCommaOrBracket });
        }
        let m2 = skip_ws(s, j2 + 1);
        let (k2, v) = match parse_value(s, m2, d) {
            Ok(x) => x,
            Err(e) => {
                return Err(e);
            },
        };
        let ghost gv: JVal = v@;
        let ghost old_out: Seq<Value> = out@;
        out.push(v);
        proof {
            assert(out@.drop_last() =~= old_out);
            assert(jvals(out@) == jvals(old_out).push(gv));
            match arr_rest(s@, k2 as int, d as nat) {
                Ok(p) => {
                    assert((jvals(old_out).push(gv)) + p.1 =~= jvals(old_out) + (seq![gv] + p.1));
                },
                Err(_) => {},
            }
        }
        k = k2;
    }
}

/// A whole document: the root object with only whitespace around it,
/// as [`doc_parse`] prescribes.
pub fn parse_document(s: &Vec<char>) -> (r: Result<Mapping, ParseError>)
    ensures
        match doc_parse(s@) {
            Ok(m) => r matches Ok(q) && q@ == m && q.wf(),
            Err(e) => r matches Err(pe) && pe@ == e,
        },
{
    let j = skip_ws(s, 0);
    if j >= s.len() {
        return Err(ParseError { pos: j, kind: ErrorKind::ExpectedObject });
    }
    if s[j] != '{' {
        return Err(ParseError { pos: j, kind: ErrorKind::ExpectedObject });
    }
    match parse_object(s, j, MAX_DEPTH - 1) {
        Err(e) => Err(e),
        Ok((k, m)) => {
            let e2 = skip_ws(s, k);
            if e2 >= s.len() {
                Ok(m)
            } else {
                Err(ParseError { pos: e2, kind: ErrorKind::TrailingText })
            }
        },
    }
}

} // verus!
