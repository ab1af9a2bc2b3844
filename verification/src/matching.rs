//! Selector matching: class-token containment and attribute lookup, with the
//! character-level comparisons they rest on.

use vstd::prelude::*;
use vstd::string::*;
use crate::dom::{Attr, Elem};

verus! {

/// ASCII whitespace, the separators between class tokens.
pub open spec fn is_ws(c: char) -> bool {
    c == ' ' || c == '\t' || c == '\n' || c == '\r' || c == '\u{0c}'
}

/// `tok` stands in `s` at position `i` as a whole whitespace-delimited word.
pub open spec fn token_at(s: Seq<char>, tok: Seq<char>, i: int) -> bool {
    &&& 0 <= i
    &&& i + tok.len() <= s.len()
    &&& s.subrange(i, i + tok.len()) == tok
    &&& (i == 0 || is_ws(s[i - 1]))
    &&& (i + tok.len() == s.len() || is_ws(s[i + tok.len()]))
}

/// A well-formed class token: non-empty and free of whitespace, as every word
/// produced by splitting on whitespace is.
pub open spec fn plain_token(tok: Seq<char>) -> bool {
    tok.len() > 0 && (forall|k: int| 0 <= k < tok.len() ==> !is_ws(tok[k]))
}

/// `s`, split on ASCII whitespace, contains `tok` as a whole word: exact token
/// containment, never substring containment.
pub open spec fn has_token(s: Seq<char>, tok: Seq<char>) -> bool {
    plain_token(tok) && (exists|i: int| token_at(s, tok, i))
}

/// The value of the first attribute named `name`, scanning in source order.
pub open spec fn attr_value_in(attrs: Seq<Attr>, name: Seq<char>) -> Option<Seq<char>>
    decreases attrs.len(),
{
    if attrs.len() == 0 {
        Option::None
    } else if attrs[0].name@ == name {
        Option::Some(attrs[0].value@)
    } else {
        attr_value_in(attrs.drop_first(), name)
    }
}

/// The value of the element's attribute `name`, if it has one.
pub open spec fn attr_of(e: Elem, name: Seq<char>) -> Option<Seq<char>> {
    attr_value_in(e.attrs@, name)
}

/// The element's class attribute contains `tok` as a whole token.
pub open spec fn has_class(e: Elem, tok: Seq<char>) -> bool {
    match attr_of(e, "class"@) {
        Option::Some(v) => has_token(v, tok),
        Option::None => false,
    }
}

/// Some attribute of the element has exactly the value `v`, whatever the
/// attribute's name.
pub open spec fn elem_has_attr_value(e: Elem, v: Seq<char>) -> bool {
    exists|k: int| 0 <= k < e.attrs@.len() && e.attrs@[k].value@ == v
}

pub(crate) fn char_is_ws(c: char) -> (r: bool)
    ensures
        r == is_ws(c),
{
    c == ' ' || c == '\t' || c == '\n' || c == '\r' || c == '\u{0c}'
}

pub(crate) fn str_eq(a: &str, b: &str) -> (r: bool)
    ensures
        r == (a@ == b@),
{
    let x = a.to_owned();
    let y = b.to_owned();
    x == y
}

fn token_at_exec(s: &str, tok: &str, i: usize, m: usize, n: usize) -> (r: bool)
    requires
        m == tok@.len(),
        n == s@.len(),
        i + m <= n,
    ensures
        r == token_at(s@, tok@, i as int),
{
    if i > 0 && !char_is_ws(s.get_char(i - 1)) {
        return false;
    }
    if i + m < n && !char_is_ws(s.get_char(i + m)) {
        return false;
    }
    let mut j: usize = 0;
    while j < m
        invariant
            m == tok@.len(),
            n == s@.len(),
            i + m <= n,
            j <= m,
            forall|q: int| 0 <= q < j ==> s@[i + q] == tok@[q],
        decreases m - j,
    {
        if s.get_char(i + j) != tok.get_char(j) {
            proof {
                assert(s@.subrange(i as int, i + m as int)[j as int] == s@[i + j]);
            }
            return false;
        }
        j += 1;
    }
    proof {
        assert(s@.subrange(i as int, i + m as int) =~= tok@);
    }
    true
}

pub(crate) fn has_token_exec(s: &str, tok: &str) -> (r: bool)
    ensures
        r == has_token(s@, tok@),
{
    let m = tok.unicode_len();
    if m == 0 {
        return false;
    }
    let mut k: usize = 0;
    while k < m
        invariant
            m == tok@.len(),
            k <= m,
            forall|q: int| 0 <= q < k ==> !is_ws(tok@[q]),
        decreases m - k,
    {
        if char_is_ws(tok.get_char(k)) {
            return false;
        }
        k += 1;
    }
    let n = s.unicode_len();
    if m > n {
        return false;
    }
    let mut i: usize = 0;
    while i <= n - m
        invariant
            m == tok@.len(),
            n == s@.len(),
            0 < m <= n,
            i <= n - m + 1,
            plain_token(tok@),
            forall|q: int| 0 <= q < i ==> !token_at(s@, tok@, q),
        decreases n - m - i + 1,
    {
        if token_at_exec(s, tok, i, m, n) {
            return true;
        }
        i += 1;
    }
    false
}

/// Looks the attribute `name` up on `e`, by the same first-match scan as
/// [`attr_of`]; the returned copy's view equals the attribute's value.
pub(crate) fn attr_value_of(e: &Elem, name: &str) -> (r: Option<String>)
    ensures
        match attr_of(*e, name@) {
            Option::Some(v) => r is Some && r->0@ == v,
            Option::None => r is None,
        },
{
    let mut j: usize = 0;
    proof {
        assert(e.attrs@.skip(0) =~= e.attrs@);
    }
    while j < e.attrs.len()
        invariant
            j <= e.attrs@.len(),
            attr_of(*e, name@) == attr_value_in(e.attrs@.skip(j as int), name@),
        decreases e.attrs@.len() - j,
    {
        proof {
            assert(e.attrs@.skip(j as int)[0] == e.attrs@[j as int]);
            assert(e.attrs@.skip(j as int).drop_first() =~= e.attrs@.skip(j as int + 1));
        }
        if str_eq(e.attrs[j].name.as_str(), name) {
            return Some(e.attrs[j].value.clone());
        }
        j += 1;
    }
    proof {
        assert(e.attrs@.skip(j as int) =~= Seq::<Attr>::empty());
    }
    None
}

/// Whether the element's class attribute contains `tok` as a whole token.
pub(crate) fn elem_has_class(e: &Elem, tok: &str) -> (r: bool)
    ensures
        r == has_class(*e, tok@),
{
    match attr_value_of(e, "class") {
        Some(v) => has_token_exec(v.as_str(), tok),
        None => false,
    }
}

/// Whether any attribute of the element has exactly the value `v`.
pub(crate) fn elem_has_attr_value_exec(e: &Elem, v: &str) -> (r: bool)
    ensures
        r == elem_has_attr_value(*e, v@),
{
    let mut k: usize = 0;
    while k < e.attrs.len()
        invariant
            k <= e.attrs@.len(),
            forall|q: int| 0 <= q < k ==> e.attrs@[q].value@ != v@,
        decreases e.attrs@.len() - k,
    {
        if str_eq(e.attrs[k].value.as_str(), v) {
            return true;
        }
        k += 1;
    }
    false
}

} // verus!
