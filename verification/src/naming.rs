//! The naming conventions of the language: types and variants are written in
//! PascalCase, fields, functions and bindings in snake_case.
use vstd::prelude::*;

use crate::text::chars_of;

verus! {

pub open spec fn is_ascii_upper(c: char) -> bool {
    'A' <= c && c <= 'Z'
}

pub open spec fn is_ascii_lower(c: char) -> bool {
    'a' <= c && c <= 'z'
}

pub open spec fn is_ascii_digit(c: char) -> bool {
    '0' <= c && c <= '9'
}

pub open spec fn is_ascii_alphanumeric(c: char) -> bool {
    is_ascii_upper(c) || is_ascii_lower(c) || is_ascii_digit(c)
}

/// PascalCase: an ASCII capital letter followed by ASCII letters and digits.
pub open spec fn pascal_case(s: Seq<char>) -> bool {
    &&& s.len() > 0
    &&& is_ascii_upper(s[0])
    &&& forall|i: int| 1 <= i < s.len() ==> is_ascii_alphanumeric(#[trigger] s[i])
}

/// snake_case: lower-case ASCII letters and digits in segments joined by single
/// underscores, each segment starting with a letter.
pub open spec fn snake_case(s: Seq<char>) -> bool {
    &&& s.len() > 0
    &&& is_ascii_lower(s[0])
    &&& forall|i: int|
        0 <= i < s.len() ==> is_ascii_lower(#[trigger] s[i]) || is_ascii_digit(s[i]) || s[i]
            == '_'
    &&& forall|i: int| 0 <= i < s.len() && #[trigger] s[i] == '_' ==> i + 1 < s.len() && is_ascii_lower(s[i + 1])
}

/// A name is PascalCase exactly when its first character is an ASCII capital
/// letter, `A` to `Z`, and every later one an ASCII letter or digit, `A` to
/// `Z`, `a` to `z` or `0` to `9`.
pub proof fn lemma_pascal_case_chars(s: Seq<char>)
    ensures
        pascal_case(s) <==> (s.len() > 0 && 'A' <= s[0] <= 'Z' && forall|i: int|
            1 <= i < s.len() ==> ('A' <= #[trigger] s[i] <= 'Z' || 'a' <= s[i] <= 'z' || '0' <= s[i] <= '9')),
{
}

/// A PascalCase name stays PascalCase when an ASCII letter or digit is added
/// at its end, and loses it when anything else is.
pub proof fn lemma_pascal_case_extend(s: Seq<char>, c: char)
    requires
        pascal_case(s),
    ensures
        pascal_case(s.push(c)) <==> ('A' <= c <= 'Z' || 'a' <= c <= 'z' || '0' <= c <= '9'),
{
    let t = s.push(c);
    assert(t[s.len() as int] == c);
    if 'A' <= c <= 'Z' || 'a' <= c <= 'z' || '0' <= c <= '9' {
        assert forall|i: int| 1 <= i < t.len() implies is_ascii_alphanumeric(#[trigger] t[i]) by {
            if i < s.len() {
                assert(t[i] == s[i]);
            }
        }
    }
}

/// No name is both PascalCase and snake_case: the first starts with a capital
/// letter, the second with a small one.
pub proof fn lemma_pascal_not_snake(s: Seq<char>)
    ensures
        !(pascal_case(s) && snake_case(s)),
{
}

/// A name is snake_case exactly when it starts with a small ASCII letter,
/// `a` to `z`, holds only small letters, digits `0` to `9` and underscores,
/// and every underscore is followed by a small letter.
pub proof fn lemma_snake_case_chars(s: Seq<char>)
    ensures
        snake_case(s) <==> (s.len() > 0 && 'a' <= s[0] <= 'z' && (forall|i: int|
            0 <= i < s.len() ==> ('a' <= #[trigger] s[i] <= 'z' || '0' <= s[i] <= '9' || s[i] == '_')) && (forall|i: int|
            0 <= i < s.len() && #[trigger] s[i] == '_' ==> i + 1 < s.len() && 'a' <= s[i + 1] <= 'z')),
{
}

pub fn is_valid_pascal_case(s: &str) -> (r: bool)
    ensures
        r == pascal_case(s@),
{
    let cs = chars_of(s);
    if cs.len() == 0 {
        return false;
    }
    if !('A' <= cs[0] && cs[0] <= 'Z') {
        return false;
    }
    let mut i: usize = 1;
    while i < cs.len()
        invariant
            cs@ == s@,
            1 <= i <= cs@.len(),
            forall|j: int| 1 <= j < i ==> is_ascii_alphanumeric(#[trigger] cs@[j]),
        decreases cs@.len() - i,
    {
        let c = cs[i];
        if !(('A' <= c && c <= 'Z') || ('a' <= c && c <= 'z') || ('0' <= c && c <= '9')) {
            return false;
        }
        i = i + 1;
    }
    true
}

pub fn is_valid_snake_case(s: &str) -> (r: bool)
    ensures
        r == snake_case(s@),
{
    let cs = chars_of(s);
    if cs.len() == 0 {
        return false;
    }
    if !('a' <= cs[0] && cs[0] <= 'z') {
        return false;
    }
    let mut i: usize = 0;
    while i < cs.len()
        invariant
            cs@ == s@,
            cs@.len() > 0,
            is_ascii_lower(cs@[0]),
            i <= cs@.len(),
            forall|j: int|
                0 <= j < i ==> is_ascii_lower(#[trigger] cs@[j]) || is_ascii_digit(cs@[j])
                    || cs@[j] == '_',
            forall|j: int|
                0 <= j < i && #[trigger] cs@[j] == '_' ==> j + 1 < cs@.len() && is_ascii_lower(
                    cs@[j + 1],
                ),
        decreases cs@.len() - i,
    {
        let c = cs[i];
        if c == '_' {
            if i + 1 >= cs.len() {
                return false;
            }
            let n = cs[i + 1];
            if !('a' <= n && n <= 'z') {
                return false;
            }
        } else if !(('a' <= c && c <= 'z') || ('0' <= c && c <= '9')) {
            return false;
        }
        i = i + 1;
    }
    true
}

} // verus!
