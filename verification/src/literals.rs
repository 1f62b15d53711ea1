//! Literal text: integer literals in canonical form, whether an integer fits a
//! native type, and the escapes of string literals.
use vstd::prelude::*;

use crate::naming::is_ascii_digit;
use crate::natives::{integer_native, signed_integer_native};
use crate::semantic::NativeType;
use crate::text::chars_of;
use vstd::arithmetic::power2::pow2;

verus! {

// --- Integers ---

/// `s` without its leading zeros.
pub open spec fn strip_leading_zeros(s: Seq<char>) -> Seq<char>
    decreases s.len(),
{
    if s.len() > 0 && s[0] == '0' {
        strip_leading_zeros(s.drop_first())
    } else {
        s
    }
}

/// The canonical text of an integer literal: without leading zeros, and `0`
/// for a literal made of zeros only.
pub open spec fn canonical_integer(s: Seq<char>) -> Seq<char> {
    if strip_leading_zeros(s).len() == 0 {
        seq!['0']
    } else {
        strip_leading_zeros(s)
    }
}

proof fn lemma_strip_is_suffix(s: Seq<char>, k: int)
    requires
        0 <= k <= s.len(),
        forall|j: int| 0 <= j < k ==> s[j] == '0',
        k == s.len() || s[k] != '0',
    ensures
        strip_leading_zeros(s) == s.subrange(k, s.len() as int),
    decreases s.len(),
{
    if s.len() > 0 && s[0] == '0' {
        assert(k > 0);
        lemma_strip_is_suffix(s.drop_first(), k - 1);
        assert(s.drop_first().subrange(k - 1, s.len() - 1) =~= s.subrange(k, s.len() as int));
    } else {
        assert(k == 0);
        assert(s.subrange(0, s.len() as int) =~= s);
    }
}

/// The literal with its leading zeros removed; `"0"` when nothing but zeros
/// remains.
pub fn canonical_integer_string(lexeme: &str) -> (r: String)
    ensures
        r@ == canonical_integer(lexeme@),
{
    let cs = chars_of(lexeme);
    let mut k: usize = 0;
    while k < cs.len() && cs[k] == '0'
        invariant
            cs@ == lexeme@,
            k <= cs@.len(),
            forall|j: int| 0 <= j < k ==> cs@[j] == '0',
        decreases cs@.len() - k,
    {
        k = k + 1;
    }
    proof {
        lemma_strip_is_suffix(lexeme@, k as int);
    }
    if k == cs.len() {
        proof {
            reveal_strlit("0");
        }
        String::from_str("0")
    } else {
        lexeme.substring_char(k, cs.len()).to_owned()
    }
}

/// The value of a string of decimal digits.
pub open spec fn decimal_value(d: Seq<char>) -> int
    decreases d.len(),
{
    if d.len() == 0 {
        0
    } else {
        decimal_value(d.drop_last()) * 10 + (d.last() as int - '0' as int)
    }
}

pub open spec fn all_digits(d: Seq<char>) -> bool {
    forall|i: int| 0 <= i < d.len() ==> is_ascii_digit(#[trigger] d[i])
}

/// The unsigned value that Rust's integer parsing reads from `s`: an optional
/// `+`, then one or more decimal digits.
pub open spec fn unsigned_value(s: Seq<char>) -> Option<int> {
    let d = if s.len() > 0 && s[0] == '+' {
        s.drop_first()
    } else {
        s
    };
    if d.len() > 0 && all_digits(d) {
        Some(decimal_value(d))
    } else {
        None
    }
}

/// The largest magnitude that a literal may have in `native`; negative literals
/// reach one further in the signed types. `None` for types that no integer
/// literal fits (the dynamic type takes any).
pub open spec fn magnitude_limit(native: NativeType, negative: bool) -> Option<int> {
    match native {
        NativeType::Int8 => Some(if negative { 128int } else { 127int }),
        NativeType::Int16 => Some(if negative { 32768int } else { 32767int }),
        NativeType::Int | NativeType::Int32 => Some(
            if negative {
                2147483648int
            } else {
                2147483647int
            },
        ),
        NativeType::Int64 => Some(
            if negative {
                9223372036854775808int
            } else {
                9223372036854775807int
            },
        ),
        NativeType::Int128 => Some(
            if negative {
                170141183460469231731687303715884105728int
            } else {
                170141183460469231731687303715884105727int
            },
        ),
        NativeType::Uint8 => Some(255int),
        NativeType::Uint16 => Some(65535int),
        NativeType::Uint32 => Some(4294967295int),
        NativeType::Uint64 => Some(18446744073709551615int),
        NativeType::Uint128 => Some(340282366920938463463374607431768211455int),
        _ => None,
    }
}

/// Whether the integer written `s` (a magnitude, negated when `negative`) is a
/// value of `native`.
pub open spec fn integer_representable(s: Seq<char>, native: NativeType, negative: bool) -> bool {
    if native == NativeType::Dynamic {
        true
    } else {
        match (unsigned_value(s), magnitude_limit(native, negative)) {
            (Some(v), Some(limit)) => v <= limit,
            _ => false,
        }
    }
}

/// A literal whose digits read as `v` fits a fixed-width native type exactly
/// when `v` lies in the range of the Rust integer type of the same width and
/// signedness: up to its largest value, or, negated in the signed types, down
/// to its smallest; `int` is 32 bits wide. The dynamic type takes any
/// literal.
pub proof fn lemma_integer_range(s: Seq<char>, v: int, negative: bool)
    requires
        unsigned_value(s) == Some(v),
    ensures
        integer_representable(s, NativeType::Uint8, negative) <==> v <= u8::MAX,
        integer_representable(s, NativeType::Uint16, negative) <==> v <= u16::MAX,
        integer_representable(s, NativeType::Uint32, negative) <==> v <= u32::MAX,
        integer_representable(s, NativeType::Uint64, negative) <==> v <= u64::MAX,
        integer_representable(s, NativeType::Uint128, negative) <==> v <= u128::MAX,
        integer_representable(s, NativeType::Int8, false) <==> v <= i8::MAX,
        integer_representable(s, NativeType::Int8, true) <==> -v >= i8::MIN,
        integer_representable(s, NativeType::Int16, false) <==> v <= i16::MAX,
        integer_representable(s, NativeType::Int16, true) <==> -v >= i16::MIN,
        integer_representable(s, NativeType::Int32, false) <==> v <= i32::MAX,
        integer_representable(s, NativeType::Int32, true) <==> -v >= i32::MIN,
        integer_representable(s, NativeType::Int, false) <==> v <= i32::MAX,
        integer_representable(s, NativeType::Int, true) <==> -v >= i32::MIN,
        integer_representable(s, NativeType::Int64, false) <==> v <= i64::MAX,
        integer_representable(s, NativeType::Int64, true) <==> -v >= i64::MIN,
        integer_representable(s, NativeType::Int128, false) <==> v <= i128::MAX,
        integer_representable(s, NativeType::Int128, true) <==> -v >= i128::MIN,
        integer_representable(s, NativeType::Dynamic, negative),
{
}

/// Text that is not an optional `+` followed by decimal digits is a value of
/// no native type but the dynamic one, and of no floating, boolean or string
/// type at all.
pub proof fn lemma_integer_needs_digits(s: Seq<char>, native: NativeType, negative: bool)
    ensures
        unsigned_value(s) is None && native != NativeType::Dynamic ==> !integer_representable(s, native, negative),
        native == NativeType::Float || native == NativeType::Float32 || native == NativeType::Float64
            || native == NativeType::Bool || native == NativeType::String ==> !integer_representable(s, native, negative),
{
}

/// A literal that fits a type also fits every wider type of the same
/// signedness, and a non-negative literal that fits an unsigned type also
/// fits the signed type twice as wide.
pub proof fn lemma_integer_widening(s: Seq<char>, negative: bool)
    ensures
        integer_representable(s, NativeType::Uint8, negative) ==> integer_representable(s, NativeType::Uint16, negative),
        integer_representable(s, NativeType::Uint16, negative) ==> integer_representable(s, NativeType::Uint32, negative),
        integer_representable(s, NativeType::Uint32, negative) ==> integer_representable(s, NativeType::Uint64, negative),
        integer_representable(s, NativeType::Uint64, negative) ==> integer_representable(s, NativeType::Uint128, negative),
        integer_representable(s, NativeType::Int8, negative) ==> integer_representable(s, NativeType::Int16, negative),
        integer_representable(s, NativeType::Int16, negative) ==> integer_representable(s, NativeType::Int32, negative),
        integer_representable(s, NativeType::Int32, negative) ==> integer_representable(s, NativeType::Int64, negative),
        integer_representable(s, NativeType::Int64, negative) ==> integer_representable(s, NativeType::Int128, negative),
        integer_representable(s, NativeType::Uint8, false) ==> integer_representable(s, NativeType::Int16, false),
        integer_representable(s, NativeType::Uint16, false) ==> integer_representable(s, NativeType::Int32, false),
        integer_representable(s, NativeType::Uint32, false) ==> integer_representable(s, NativeType::Int64, false),
        integer_representable(s, NativeType::Uint64, false) ==> integer_representable(s, NativeType::Int128, false),
{
}

proof fn lemma_decimal_prefix_monotone(d: Seq<char>, j: int)
    requires
        0 <= j <= d.len(),
        all_digits(d),
    ensures
        decimal_value(d.take(j)) <= decimal_value(d),
        decimal_value(d.take(j)) >= 0,
    decreases d.len() - j,
{
    if j < d.len() {
        lemma_decimal_prefix_monotone(d, j + 1);
        assert(d.take(j + 1).drop_last() =~= d.take(j));
        assert(is_ascii_digit(d[j]));
    } else {
        assert(d.take(j) =~= d);
        lemma_decimal_nonneg(d);
    }
}

proof fn lemma_decimal_nonneg(d: Seq<char>)
    requires
        all_digits(d),
    ensures
        decimal_value(d) >= 0,
    decreases d.len(),
{
    if d.len() > 0 {
        assert(all_digits(d.drop_last()));
        lemma_decimal_nonneg(d.drop_last());
        assert(is_ascii_digit(d[d.len() - 1]));
    }
}

fn limit_of(native: NativeType, negative: bool) -> (r: Option<u128>)
    ensures
        match (r, magnitude_limit(native, negative)) {
            (Some(a), Some(b)) => a as int == b,
            (None, None) => true,
            _ => false,
        },
{
    match native {
        NativeType::Int8 => Some(if negative { 128 } else { 127 }),
        NativeType::Int16 => Some(if negative { 32768 } else { 32767 }),
        NativeType::Int | NativeType::Int32 => Some(if negative { 2147483648 } else { 2147483647 }),
        NativeType::Int64 => Some(
            if negative {
                9223372036854775808
            } else {
                9223372036854775807
            },
        ),
        NativeType::Int128 => Some(
            if negative {
                170141183460469231731687303715884105728
            } else {
                170141183460469231731687303715884105727
            },
        ),
        NativeType::Uint8 => Some(255),
        NativeType::Uint16 => Some(65535),
        NativeType::Uint32 => Some(4294967295),
        NativeType::Uint64 => Some(18446744073709551615),
        NativeType::Uint128 => Some(340282366920938463463374607431768211455),
        _ => None,
    }
}

/// Whether the integer literal `canonical_str`, negated in a negative context,
/// is a value of `native`.
pub fn is_integer_representable_in_native(
    canonical_str: &str,
    native: &NativeType,
    is_negative_context: bool,
) -> (r: bool)
    ensures
        r == integer_representable(canonical_str@, *native, is_negative_context),
{
    if *native == NativeType::Dynamic {
        return true;
    }
    let limit = match limit_of(*native, is_negative_context) {
        Some(l) => l,
        None => {
            return false;
        },
    };
    let cs = chars_of(canonical_str);
    let start: usize = if cs.len() > 0 && cs[0] == '+' {
        1
    } else {
        0
    };
    let ghost d = if cs@.len() > 0 && cs@[0] == '+' {
        cs@.drop_first()
    } else {
        cs@
    };
    assert(d =~= cs@.subrange(start as int, cs@.len() as int));
    if start >= cs.len() {
        return false;
    }
    let mut acc: u128 = 0;
    let mut i: usize = start;
    while i < cs.len()
        invariant
            cs@ == canonical_str@,
            start <= i <= cs@.len(),
            d =~= cs@.subrange(start as int, cs@.len() as int),
            all_digits(d.take(i - start)),
            acc as int == decimal_value(d.take(i - start)),
            acc <= limit,
            *native != NativeType::Dynamic,
            magnitude_limit(*native, is_negative_context) == Some(limit as int),
            d.len() > 0,
            unsigned_value(canonical_str@) == (if all_digits(d) {
                Some(decimal_value(d))
            } else {
                None
            }),
        decreases cs@.len() - i,
    {
        let c = cs[i];
        if !('0' <= c && c <= '9') {
            assert(d[i - start] == c);
            assert(!is_ascii_digit(d[i - start]));
            assert(!all_digits(d));
            return false;
        }
        let digit = (c as u32 - '0' as u32) as u128;
        assert(d.take(i - start + 1).drop_last() =~= d.take(i - start));
        assert(d.take(i - start + 1).last() == c);
        assert(all_digits(d.take(i - start + 1)));
        let next = match acc.checked_mul(10) {
            Some(m) => m.checked_add(digit),
            None => None,
        };
        match next {
            Some(n) if n <= limit => {
                acc = n;
            },
            _ => {
                proof {
                    // the digits not yet read only make the value larger
                    let v1 = decimal_value(d.take(i - start + 1));
                    assert(v1 == acc * 10 + digit);
                    assert(v1 > limit);
                    if all_digits(d) {
                        lemma_decimal_prefix_monotone(d, i - start + 1);
                    }
                }
                return false;
            },
        }
        i = i + 1;
    }
    assert(d.take(i - start) =~= d);
    true
}

// --- Strings ---

/// The character that the escape `\c` stands for, if `c` names one.
pub open spec fn escaped(c: char) -> Option<char> {
    if c == '"' {
        Some('"')
    } else if c == '\\' {
        Some('\\')
    } else if c == 'n' {
        Some('\n')
    } else if c == 'r' {
        Some('\r')
    } else if c == 't' {
        Some('\t')
    } else {
        None
    }
}

/// The text that the characters between the quotes of a string literal stand
/// for: known escapes are replaced, an unknown escape and a final lone
/// backslash are kept as written.
pub open spec fn unescape(s: Seq<char>) -> Seq<char>
    decreases s.len(),
{
    if s.len() == 0 {
        Seq::empty()
    } else if s[0] == '\\' {
        if s.len() == 1 {
            seq!['\\']
        } else {
            match escaped(s[1]) {
                Some(e) => seq![e] + unescape(s.skip(2)),
                None => seq!['\\', s[1]] + unescape(s.skip(2)),
            }
        }
    } else {
        seq![s[0]] + unescape(s.skip(1))
    }
}

/// Text without a backslash stands for itself.
proof fn lemma_unescape_plain(a: Seq<char>, rest: Seq<char>)
    requires
        forall|i: int| 0 <= i < a.len() ==> a[i] != '\\',
    ensures
        unescape(a + rest) == a + unescape(rest),
    decreases a.len(),
{
    if a.len() > 0 {
        let t = a + rest;
        assert(t[0] == a[0]);
        assert(t.skip(1) =~= a.skip(1) + rest);
        lemma_unescape_plain(a.skip(1), rest);
        assert(a =~= seq![a[0]] + a.skip(1));
        assert(seq![a[0]] + (a.skip(1) + unescape(rest)) =~= a + unescape(rest));
    } else {
        assert(a + rest =~= rest);
        assert(a + unescape(rest) =~= unescape(rest));
    }
}

/// An escape after text without a backslash stands for its character.
proof fn lemma_escape_at(a: Seq<char>, c: char, b: Seq<char>)
    requires
        forall|i: int| 0 <= i < a.len() ==> a[i] != '\\',
        escaped(c) is Some,
    ensures
        unescape(a + seq!['\\', c] + b) == a + seq![escaped(c)->0] + unescape(b),
{
    let t = seq!['\\', c] + b;
    assert(a + seq!['\\', c] + b =~= a + t);
    lemma_unescape_plain(a, t);
    assert(t[0] == '\\');
    assert(t[1] == c);
    assert(t.skip(2) =~= b);
    assert(unescape(t) == seq![escaped(c)->0] + unescape(b));
    assert(a + (seq![escaped(c)->0] + unescape(b)) =~= a + seq![escaped(c)->0] + unescape(b));
}

/// Each escape of a string literal stands for its character wherever it is
/// written: a backslash then `n` for a line feed, then `r` for a carriage
/// return, then `t` for a tab, then a quote for a quote, then a backslash for
/// a backslash; the text before it, holding no backslash, is kept as
/// written, and what follows is read on.
pub proof fn lemma_escapes(a: Seq<char>, b: Seq<char>)
    requires
        forall|i: int| 0 <= i < a.len() ==> a[i] != '\\',
    ensures
        unescape(a) == a,
        unescape(a + seq!['\\', 'n'] + b) == a + seq!['\n'] + unescape(b),
        unescape(a + seq!['\\', 'r'] + b) == a + seq!['\r'] + unescape(b),
        unescape(a + seq!['\\', 't'] + b) == a + seq!['\t'] + unescape(b),
        unescape(a + seq!['\\', '"'] + b) == a + seq!['"'] + unescape(b),
        unescape(a + seq!['\\', '\\'] + b) == a + seq!['\\'] + unescape(b),
{
    lemma_unescape_plain(a, Seq::empty());
    assert(a + Seq::<char>::empty() =~= a);
    assert(unescape(Seq::<char>::empty()) =~= Seq::<char>::empty());
    assert(a + unescape(Seq::<char>::empty()) =~= a);
    lemma_escape_at(a, 'n', b);
    lemma_escape_at(a, 'r', b);
    lemma_escape_at(a, 't', b);
    lemma_escape_at(a, '"', b);
    lemma_escape_at(a, '\\', b);
}

/// A backslash before any character other than `n`, `r`, `t`, a quote or a
/// backslash is no escape: both are kept as written.
pub proof fn lemma_unknown_escape(a: Seq<char>, c: char, b: Seq<char>)
    requires
        forall|i: int| 0 <= i < a.len() ==> a[i] != '\\',
        c != 'n' && c != 'r' && c != 't' && c != '"' && c != '\\',
    ensures
        unescape(a + seq!['\\', c] + b) == a + seq!['\\', c] + unescape(b),
{
    let t = seq!['\\', c] + b;
    assert(a + seq!['\\', c] + b =~= a + t);
    lemma_unescape_plain(a, t);
    assert(t[0] == '\\');
    assert(t[1] == c);
    assert(t.skip(2) =~= b);
    assert(unescape(t) == seq!['\\', c] + unescape(b));
    assert(a + (seq!['\\', c] + unescape(b)) =~= a + seq!['\\', c] + unescape(b));
}

pub open spec fn is_ascii_char(c: char) -> bool {
    (c as u32) < 128
}

/// The text of a string literal: what lies between its first and last
/// character, unescaped. Shorter than two characters, it stands for nothing.
pub open spec fn string_literal_text(lexeme: Seq<char>) -> Seq<char> {
    if lexeme.len() < 2 {
        Seq::empty()
    } else {
        unescape(lexeme.subrange(1, lexeme.len() - 1))
    }
}

/// Appends `c` to `s` by `String::push`, which std documents as appending the
/// given character to the end of the string; the contract takes it at that
/// word and is not proved here.
#[verifier::external_body]
fn push_char(s: &mut String, c: char)
    ensures
        final(s)@ == old(s)@.push(c),
{
    s.push(c);
}

proof fn lemma_unescape_step(s: Seq<char>, i: int)
    requires
        0 <= i < s.len(),
    ensures
        s[i] != '\\' ==> unescape(s.skip(i)) == seq![s[i]] + unescape(s.skip(i + 1)),
        s[i] == '\\' && i + 1 == s.len() ==> unescape(s.skip(i)) == seq!['\\'],
        s[i] == '\\' && i + 1 < s.len() ==> unescape(s.skip(i)) == (match escaped(s[i + 1]) {
            Some(e) => seq![e],
            None => seq!['\\', s[i + 1]],
        }) + unescape(s.skip(i + 2)),
{
    let t = s.skip(i);
    assert(t[0] == s[i]);
    assert(t.skip(1) =~= s.skip(i + 1));
    if i + 1 < s.len() {
        assert(t[1] == s[i + 1]);
        assert(t.skip(2) =~= s.skip(i + 2));
    }
}

/// The text of the string literal `lexeme`, which the lexer hands over with
/// its quotes: the quotes are dropped and the escapes resolved.
pub fn decode_string_literal(lexeme: &str) -> (r: String)
    requires
        // the quotes are one byte each; another first or last character would
        // fall between the bytes that are dropped
        lexeme@.len() > 0 ==> is_ascii_char(lexeme@[0]) && is_ascii_char(lexeme@.last()),
    ensures
        r@ == string_literal_text(lexeme@),
{
    let cs = chars_of(lexeme);
    let mut result = String::new();
    if cs.len() < 2 {
        return result;
    }
    let end = cs.len() - 1;
    let ghost inner = cs@.subrange(1, end as int);
    let mut i: usize = 1;
    assert(inner.skip(0) =~= inner);
    while i < end
        invariant
            cs@ == lexeme@,
            end == cs@.len() - 1,
            inner == cs@.subrange(1, end as int),
            1 <= i <= end + 1,
            i <= end ==> result@ + unescape(inner.skip(i - 1)) == unescape(inner),
            i > end ==> result@ == unescape(inner),
        decreases end + 1 - i,
    {
        let c = cs[i];
        let ghost old_result = result@;
        let ghost k = i - 1;
        proof {
            lemma_unescape_step(inner, k);
            assert(inner[k] == c);
        }
        if c == '\\' {
            if i + 1 < end {
                let n = cs[i + 1];
                proof {
                    assert(inner[k + 1] == n);
                }
                if n == '"' {
                    push_char(&mut result, '"');
                } else if n == '\\' {
                    push_char(&mut result, '\\');
                } else if n == 'n' {
                    push_char(&mut result, '\n');
                } else if n == 'r' {
                    push_char(&mut result, '\r');
                } else if n == 't' {
                    push_char(&mut result, '\t');
                } else {
                    push_char(&mut result, '\\');
                    push_char(&mut result, n);
                }
                proof {
                    let e: Seq<char> = match escaped(n) {
                        Some(x) => seq![x],
                        None => seq!['\\', n],
                    };
                    assert(result@ =~= old_result + e);
                    assert(old_result + (e + unescape(inner.skip(k + 2))) == unescape(inner));
                    assert(result@ + unescape(inner.skip(k + 2)) =~= unescape(inner));
                }
                i = i + 2;
            } else {
                push_char(&mut result, '\\');
                proof {
                    assert(result@ =~= old_result + seq!['\\']);
                }
                i = cs.len();
            }
        } else {
            push_char(&mut result, c);
            proof {
                assert(result@ =~= old_result + seq![c]);
                assert(old_result + (seq![c] + unescape(inner.skip(k + 1))) == unescape(inner));
                assert(result@ + unescape(inner.skip(k + 1)) =~= unescape(inner));
            }
            i = i + 1;
            proof {
                if i > end {
                    assert(inner.skip(i - 1) =~= Seq::<char>::empty());
                }
            }
        }
        proof {
            if i == end + 1 && c != '\\' {
                assert(unescape(inner.skip(i - 1)) =~= Seq::<char>::empty());
                assert(result@ =~= result@ + unescape(inner.skip(i - 1)));
            }
        }
    }
    if i == end {
        assert(inner.skip(i - 1) =~= Seq::<char>::empty());
        assert(result@ =~= result@ + unescape(inner.skip(i - 1)));
    }
    result
}

// --- Floating literals ---

/// `10^n`.
pub open spec fn pow10(n: nat) -> int
    decreases n,
{
    if n == 0 {
        1
    } else {
        10 * pow10((n - 1) as nat)
    }
}

/// How many decimal digits follow one another in `s` from position `i` on.
pub open spec fn digit_run(s: Seq<char>, i: int) -> int
    decreases s.len() - i,
{
    if 0 <= i < s.len() && is_ascii_digit(s[i]) {
        1 + digit_run(s, i + 1)
    } else {
        0
    }
}

/// The length of the sign that may open a floating literal.
pub open spec fn float_sign_len(s: Seq<char>) -> int {
    if s.len() > 0 && (s[0] == '+' || s[0] == '-') {
        1
    } else {
        0
    }
}

/// Where the digits before the point end.
pub open spec fn float_integer_end(s: Seq<char>) -> int {
    float_sign_len(s) + digit_run(s, float_sign_len(s))
}

pub open spec fn float_has_point(s: Seq<char>) -> bool {
    float_integer_end(s) < s.len() && s[float_integer_end(s)] == '.'
}

/// Where the digits after the point begin.
pub open spec fn float_fraction_start(s: Seq<char>) -> int {
    if float_has_point(s) {
        float_integer_end(s) + 1
    } else {
        float_integer_end(s)
    }
}

/// How many digits follow the point.
pub open spec fn float_fraction_len(s: Seq<char>) -> int {
    if float_has_point(s) {
        digit_run(s, float_integer_end(s) + 1)
    } else {
        0
    }
}

/// Where the digits of the significand end.
pub open spec fn float_mantissa_end(s: Seq<char>) -> int {
    float_fraction_start(s) + float_fraction_len(s)
}

/// The digits of the significand, those before the point and those after it.
pub open spec fn float_mantissa(s: Seq<char>) -> Seq<char> {
    s.subrange(float_sign_len(s), float_integer_end(s)) + s.subrange(
        float_fraction_start(s),
        float_mantissa_end(s),
    )
}

pub open spec fn float_has_exponent(s: Seq<char>) -> bool {
    float_mantissa_end(s) < s.len() && (s[float_mantissa_end(s)] == 'e' || s[float_mantissa_end(
        s,
    )] == 'E')
}

/// The length of the sign that may follow the exponent's letter.
pub open spec fn float_exponent_sign_len(s: Seq<char>) -> int {
    let j = float_mantissa_end(s) + 1;
    if j < s.len() && (s[j] == '+' || s[j] == '-') {
        1
    } else {
        0
    }
}

/// The digits of the exponent: all that follows the letter and its sign.
pub open spec fn float_exponent_digits(s: Seq<char>) -> Seq<char> {
    s.subrange(float_mantissa_end(s) + 1 + float_exponent_sign_len(s), s.len() as int)
}

/// The power of ten that the exponent part writes; `0` without one.
pub open spec fn float_exponent(s: Seq<char>) -> int {
    if float_has_exponent(s) {
        if float_exponent_sign_len(s) == 1 && s[float_mantissa_end(s) + 1] == '-' {
            -decimal_value(float_exponent_digits(s))
        } else {
            decimal_value(float_exponent_digits(s))
        }
    } else {
        0
    }
}

/// The decimal form that Rust reads as a floating number: an optional sign,
/// digits with an optional point among them (at least one digit in all), and
/// an optional exponent, `e` or `E`, an optional sign and one or more digits.
pub open spec fn decimal_float_syntax(s: Seq<char>) -> bool {
    &&& float_mantissa(s).len() > 0
    &&& if float_has_exponent(s) {
        float_exponent_digits(s).len() > 0 && all_digits(float_exponent_digits(s))
    } else {
        float_mantissa_end(s) == s.len()
    }
}

/// The power of ten by which the significand's digits, read as an integer,
/// are scaled.
pub open spec fn float_scale(s: Seq<char>) -> int {
    float_exponent(s) - float_fraction_len(s)
}

/// `2^128 - 2^103` for the 32-bit binary floating type and `2^1024 - 2^970`
/// for the 64-bit one: halfway between the largest finite value and the next
/// power of two. Rounding to nearest, ties to even, takes a magnitude below it
/// to a finite value and one at or above it to infinity.
pub open spec fn float_overflow_threshold(single: bool) -> int {
    if single {
        pow2(128) - pow2(103) as int
    } else {
        pow2(1024) - pow2(970) as int
    }
}

/// Whether `m * 10^e` is below `t`.
pub open spec fn scaled_below(m: int, e: int, t: int) -> bool {
    if e >= 0 {
        m * pow10(e as nat) < t
    } else {
        m < t * pow10((-e) as nat)
    }
}

/// Whether Rust reads `s` as a finite value of the 32-bit (`single`) or
/// 64-bit binary floating type: a decimal form whose magnitude lies below the
/// overflow threshold. The other forms that Rust reads (infinities, not a
/// number) are not finite.
pub open spec fn floating_literal_is_finite(s: Seq<char>, single: bool) -> bool {
    &&& decimal_float_syntax(s)
    &&& scaled_below(
        decimal_value(float_mantissa(s)),
        float_scale(s),
        float_overflow_threshold(single),
    )
}

/// A floating literal that reads as a finite 32-bit value also reads as a
/// finite 64-bit one.
pub proof fn lemma_single_finite_is_double_finite(s: Seq<char>)
    ensures
        floating_literal_is_finite(s, true) ==> floating_literal_is_finite(s, false),
{
    lemma_thresholds();
    if floating_literal_is_finite(s, true) {
        let m = decimal_value(float_mantissa(s));
        let e = float_scale(s);
        let t1 = float_overflow_threshold(true);
        let t2 = float_overflow_threshold(false);
        if e < 0 {
            let p = pow10((-e) as nat);
            lemma_pow10_positive((-e) as nat);
            assert(t1 * p <= t2 * p) by (nonlinear_arith)
                requires
                    t1 <= t2,
                    p >= 1,
            ;
        }
    }
}

/// The overflow thresholds lie between the powers of two around them:
/// `2^127` and `2^128` for the 32-bit type, `2^1023` and `2^1024` for the
/// 64-bit one.
proof fn lemma_thresholds()
    ensures
        pow2(127) < float_overflow_threshold(true) < pow2(128),
        pow2(1023) < float_overflow_threshold(false) < pow2(1024),
        float_overflow_threshold(true) < float_overflow_threshold(false),
{
    vstd::arithmetic::power2::lemma_pow2_adds(1, 127);
    vstd::arithmetic::power2::lemma_pow2_adds(1, 1023);
    vstd::arithmetic::power2::lemma_pow2_strictly_increases(103, 127);
    vstd::arithmetic::power2::lemma_pow2_strictly_increases(970, 1023);
    vstd::arithmetic::power2::lemma_pow2_strictly_increases(128, 1023);
    vstd::arithmetic::power2::lemma_pow2_pos(103);
    vstd::arithmetic::power2::lemma_pow2_pos(970);
    vstd::arithmetic::power2::lemma2_to64();
}

/// Digits alone make a floating literal whose value is the digits' value.
proof fn lemma_digits_float(s: Seq<char>)
    requires
        s.len() > 0,
        all_digits(s),
    ensures
        decimal_float_syntax(s),
        float_mantissa(s) == s,
        float_scale(s) == 0,
{
    lemma_digit_run_all(s, 0);
    assert(float_sign_len(s) == 0) by {
        assert(is_ascii_digit(s[0]));
    }
    assert(float_integer_end(s) == s.len());
    assert(!float_has_point(s));
    assert(float_fraction_len(s) == 0);
    assert(float_mantissa_end(s) == s.len());
    assert(!float_has_exponent(s));
    assert(s.subrange(0, s.len() as int) =~= s);
    assert(s.subrange(s.len() as int, s.len() as int) =~= Seq::<char>::empty());
    assert(float_mantissa(s) =~= s);
}

proof fn lemma_digit_run_all(s: Seq<char>, i: int)
    requires
        0 <= i <= s.len(),
        all_digits(s),
    ensures
        digit_run(s, i) == s.len() - i,
    decreases s.len() - i,
{
    if i < s.len() {
        assert(is_ascii_digit(s[i]));
        lemma_digit_run_all(s, i + 1);
    }
}

/// A literal of digits alone is a finite 32-bit value when its value is at
/// most `2^127` and is none from `2^128` on; a finite 64-bit value when its
/// value is at most `2^1023` and none from `2^1024` on.
pub proof fn lemma_digit_literal_finite(s: Seq<char>)
    requires
        s.len() > 0,
        all_digits(s),
    ensures
        decimal_value(s) <= pow2(127) ==> floating_literal_is_finite(s, true),
        decimal_value(s) >= pow2(128) ==> !floating_literal_is_finite(s, true),
        decimal_value(s) <= pow2(1023) ==> floating_literal_is_finite(s, false),
        decimal_value(s) >= pow2(1024) ==> !floating_literal_is_finite(s, false),
{
    lemma_digits_float(s);
    lemma_thresholds();
    assert(pow10(0) == 1);
    assert(decimal_value(s) * pow10(0) == decimal_value(s));
}

/// A string of `n` zero digits.
pub open spec fn zero_digits(n: nat) -> Seq<char> {
    Seq::new(n, |i: int| '0')
}

proof fn lemma_pow10_positive(n: nat)
    ensures
        pow10(n) >= 1,
    decreases n,
{
    if n > 0 {
        lemma_pow10_positive((n - 1) as nat);
    }
}

proof fn lemma_pow10_add(a: nat, b: nat)
    ensures
        pow10(a + b) == pow10(a) * pow10(b),
    decreases b,
{
    if b > 0 {
        lemma_pow10_add(a, (b - 1) as nat);
        assert(pow10(a + b) == 10 * pow10((a + b - 1) as nat));
        let x = pow10(a);
        let y = pow10((b - 1) as nat);
        assert(10 * (x * y) == x * (10 * y)) by (nonlinear_arith);
    }
}

proof fn lemma_pow10_monotone(a: nat, b: nat)
    requires
        a <= b,
    ensures
        pow10(a) <= pow10(b),
{
    lemma_pow10_add(a, (b - a) as nat);
    lemma_pow10_positive(a);
    lemma_pow10_positive((b - a) as nat);
    let x = pow10(a);
    let y = pow10((b - a) as nat);
    assert(x <= x * y) by (nonlinear_arith)
        requires
            x >= 1,
            y >= 1,
    ;
}

proof fn lemma_decimal_single(c: char)
    ensures
        decimal_value(seq![c]) == c as int - '0' as int,
{
    assert(seq![c].drop_last() =~= Seq::<char>::empty());
    assert(decimal_value(Seq::<char>::empty()) == 0);
    assert(seq![c].last() == c);
}

proof fn lemma_decimal_append(a: Seq<char>, b: Seq<char>)
    ensures
        decimal_value(a + b) == decimal_value(a) * pow10(b.len()) + decimal_value(b),
    decreases b.len(),
{
    if b.len() == 0 {
        assert(a + b =~= a);
    } else {
        lemma_decimal_append(a, b.drop_last());
        assert((a + b).drop_last() =~= a + b.drop_last());
        assert((a + b).last() == b.last());
        let x = decimal_value(a);
        let p = pow10(b.drop_last().len());
        let y = decimal_value(b.drop_last());
        assert((x * p + y) * 10 == x * (10 * p) + y * 10) by (nonlinear_arith);
    }
}

proof fn lemma_decimal_bounds(a: Seq<char>)
    requires
        all_digits(a),
    ensures
        0 <= decimal_value(a) < pow10(a.len()),
    decreases a.len(),
{
    if a.len() > 0 {
        assert(all_digits(a.drop_last()));
        lemma_decimal_bounds(a.drop_last());
        assert(is_ascii_digit(a[a.len() - 1]));
    }
}

proof fn lemma_decimal_leading(a: Seq<char>)
    requires
        all_digits(a),
        a.len() > 0,
        a[0] != '0',
    ensures
        decimal_value(a) >= pow10((a.len() - 1) as nat),
{
    let rest = a.drop_first();
    assert(seq![a[0]] + rest =~= a);
    lemma_decimal_append(seq![a[0]], rest);
    lemma_decimal_single(a[0]);
    assert(all_digits(rest));
    lemma_decimal_bounds(rest);
    assert(is_ascii_digit(a[0]));
    let d = a[0] as int - '0' as int;
    let p = pow10(rest.len());
    lemma_pow10_positive(rest.len());
    assert(d * p >= p) by (nonlinear_arith)
        requires
            d >= 1,
            p >= 1,
    ;
}

proof fn lemma_decimal_zeros(n: nat)
    ensures
        decimal_value(zero_digits(n)) == 0,
        all_digits(zero_digits(n)),
    decreases n,
{
    if n > 0 {
        assert(zero_digits(n).drop_last() =~= zero_digits((n - 1) as nat));
        lemma_decimal_zeros((n - 1) as nat);
    }
}

/// The canonical text of a string of digits is digits again, of the same
/// value, without a leading zero unless it is the single digit zero, and it
/// is its own canonical text.
pub proof fn lemma_canonical_integer(s: Seq<char>)
    requires
        all_digits(s),
    ensures
        all_digits(canonical_integer(s)),
        decimal_value(canonical_integer(s)) == decimal_value(s),
        canonical_integer(s).len() > 0,
        canonical_integer(s)[0] == '0' ==> canonical_integer(s).len() == 1,
        canonical_integer(canonical_integer(s)) == canonical_integer(s),
{
    lemma_decimal_strip(s);
    let t = strip_leading_zeros(s);
    if t.len() == 0 {
        assert(decimal_value(s) == 0);
        lemma_decimal_single('0');
        assert(decimal_value(seq!['0']) == 0);
        assert(seq!['0'].drop_first() =~= Seq::<char>::empty());
        assert(strip_leading_zeros(seq!['0']) == strip_leading_zeros(Seq::<char>::empty()));
    } else {
        assert(strip_leading_zeros(t) == t);
    }
}

/// The integer types are exactly those with a largest literal, and the
/// signed ones exactly those whose negative literals reach one further than
/// their positive ones.
pub proof fn lemma_integer_kinds(nt: NativeType)
    ensures
        integer_native(nt) <==> magnitude_limit(nt, false) is Some,
        signed_integer_native(nt) <==> (magnitude_limit(nt, false) matches Some(p) && magnitude_limit(nt, true) == Some(
            p + 1,
        )),
        integer_native(nt) && !signed_integer_native(nt) ==> magnitude_limit(nt, true) == magnitude_limit(nt, false),
{
}

proof fn lemma_decimal_strip(s: Seq<char>)
    ensures
        decimal_value(strip_leading_zeros(s)) == decimal_value(s),
        all_digits(s) ==> all_digits(strip_leading_zeros(s)),
        strip_leading_zeros(s).len() > 0 ==> strip_leading_zeros(s)[0] != '0',
    decreases s.len(),
{
    if s.len() > 0 && s[0] == '0' {
        lemma_decimal_strip(s.drop_first());
        assert(seq!['0'] + s.drop_first() =~= s);
        lemma_decimal_append(seq!['0'], s.drop_first());
        lemma_decimal_single('0');
        if all_digits(s) {
            assert(all_digits(s.drop_first()));
        }
    }
}

/// Of two digit strings of one length, the one with the smaller digit at the
/// first place where they differ has the smaller value.
proof fn lemma_decimal_lexicographic(a: Seq<char>, b: Seq<char>, k: int)
    requires
        all_digits(a),
        all_digits(b),
        a.len() == b.len(),
        0 <= k < a.len(),
        a.take(k) == b.take(k),
        a[k] < b[k],
    ensures
        decimal_value(a) < decimal_value(b),
{
    let n = a.len();
    assert(a.take(k + 1) + a.skip(k + 1) =~= a);
    assert(b.take(k + 1) + b.skip(k + 1) =~= b);
    lemma_decimal_append(a.take(k + 1), a.skip(k + 1));
    lemma_decimal_append(b.take(k + 1), b.skip(k + 1));
    assert(a.take(k + 1).drop_last() =~= a.take(k));
    assert(b.take(k + 1).drop_last() =~= b.take(k));
    assert(all_digits(a.skip(k + 1)));
    assert(all_digits(b.skip(k + 1)));
    lemma_decimal_bounds(a.skip(k + 1));
    lemma_decimal_bounds(b.skip(k + 1));
    let pre = decimal_value(a.take(k));
    let da = a[k] as int - '0' as int;
    let db = b[k] as int - '0' as int;
    let p = pow10(a.skip(k + 1).len());
    let ra = decimal_value(a.skip(k + 1));
    let rb = decimal_value(b.skip(k + 1));
    lemma_pow10_positive(a.skip(k + 1).len());
    assert((pre * 10 + da) * p + ra < (pre * 10 + db) * p + rb) by (nonlinear_arith)
        requires
            da < db,
            0 <= ra < p,
            0 <= rb,
            p >= 1,
    ;
}

/// A nonzero significand scaled up to or past the threshold's own length is
/// at or above it; one scaled down past its own length is below it.
proof fn lemma_scaled_saturates(a: Seq<char>, b: Seq<char>, e: int)
    requires
        all_digits(a),
        all_digits(b),
        a.len() > 0,
        a[0] != '0',
        b.len() > 0,
        b[0] != '0',
    ensures
        e >= b.len() ==> !scaled_below(decimal_value(a), e, decimal_value(b)),
        e <= -a.len() ==> scaled_below(decimal_value(a), e, decimal_value(b)),
{
    lemma_decimal_leading(a);
    lemma_decimal_leading(b);
    lemma_decimal_bounds(a);
    lemma_decimal_bounds(b);
    lemma_pow10_positive((a.len() - 1) as nat);
    let va = decimal_value(a);
    let vb = decimal_value(b);
    if e >= b.len() {
        lemma_pow10_monotone(b.len(), e as nat);
        lemma_pow10_positive(e as nat);
        let q = pow10(e as nat);
        assert(va * q >= q) by (nonlinear_arith)
            requires
                va >= 1,
                q >= 1,
        ;
    }
    if e <= -a.len() {
        lemma_pow10_monotone(a.len(), (-e) as nat);
        let q = pow10((-e) as nat);
        assert(vb * q >= q) by (nonlinear_arith)
            requires
                vb >= 1,
                q >= 1,
        ;
    }
}

fn is_digit_char(c: char) -> (r: bool)
    ensures
        r == is_ascii_digit(c),
{
    '0' <= c && c <= '9'
}

/// The position after the run of digits that starts at `from`.
fn skip_digits(cs: &Vec<char>, from: usize) -> (r: usize)
    requires
        from <= cs@.len(),
    ensures
        r == from + digit_run(cs@, from as int),
        from <= r <= cs@.len(),
{
    let mut i = from;
    while i < cs.len() && is_digit_char(cs[i])
        invariant
            from <= i <= cs@.len(),
            digit_run(cs@, from as int) == (i - from) + digit_run(cs@, i as int),
        decreases cs@.len() - i,
    {
        i = i + 1;
    }
    i
}

/// Appends the characters of `cs` from `from` up to `to`.
fn append_range(v: &mut Vec<char>, cs: &Vec<char>, from: usize, to: usize)
    requires
        from <= to <= cs@.len(),
    ensures
        final(v)@ == old(v)@ + cs@.subrange(from as int, to as int),
{
    let mut i = from;
    while i < to
        invariant
            from <= i <= to <= cs@.len(),
            v@ == old(v)@ + cs@.subrange(from as int, i as int),
        decreases to - i,
    {
        v.push(cs[i]);
        i = i + 1;
        assert(v@ =~= old(v)@ + cs@.subrange(from as int, i as int));
    }
}

/// `v` without its leading zeros.
fn strip_zeros(v: &Vec<char>) -> (r: Vec<char>)
    ensures
        r@ == strip_leading_zeros(v@),
{
    let mut k: usize = 0;
    while k < v.len() && v[k] == '0'
        invariant
            k <= v@.len(),
            forall|j: int| 0 <= j < k ==> v@[j] == '0',
        decreases v@.len() - k,
    {
        k = k + 1;
    }
    proof {
        lemma_strip_is_suffix(v@, k as int);
    }
    let mut r: Vec<char> = Vec::new();
    append_range(&mut r, v, k, v.len());
    assert(r@ =~= v@.subrange(k as int, v@.len() as int));
    r
}

/// The limit at which exponents are cut off: far beyond any number of
/// digits a literal can have, so that a cut exponent decides as the true one.
pub const EXPONENT_CAP: i128 = 0x4_0000_0000_0000_0000;

/// The value of the exponent digits of `cs` from `from` on, cut off at
/// `EXPONENT_CAP`; `None` when a character there is not a digit.
fn exponent_magnitude(cs: &Vec<char>, from: usize) -> (r: Option<i128>)
    requires
        from <= cs@.len(),
    ensures
        match r {
            None => !all_digits(cs@.subrange(from as int, cs@.len() as int)),
            Some(m) => {
                &&& 0 <= m <= EXPONENT_CAP
                &&& all_digits(cs@.subrange(from as int, cs@.len() as int))
                &&& m == if decimal_value(cs@.subrange(from as int, cs@.len() as int))
                    < EXPONENT_CAP {
                    decimal_value(cs@.subrange(from as int, cs@.len() as int))
                } else {
                    EXPONENT_CAP as int
                }
            },
        },
{
    let mut m: i128 = 0;
    let mut i = from;
    while i < cs.len()
        invariant
            from <= i <= cs@.len(),
            all_digits(cs@.subrange(from as int, i as int)),
            0 <= m <= EXPONENT_CAP,
            m == if decimal_value(cs@.subrange(from as int, i as int)) < EXPONENT_CAP {
                decimal_value(cs@.subrange(from as int, i as int))
            } else {
                EXPONENT_CAP as int
            },
        decreases cs@.len() - i,
    {
        if !is_digit_char(cs[i]) {
            proof {
                let t = cs@.subrange(from as int, cs@.len() as int);
                assert(t[i - from] == cs@[i as int]);
            }
            return None;
        }
        let d = (cs[i] as u32 - '0' as u32) as i128;
        let ghost before = cs@.subrange(from as int, i as int);
        let ghost after = cs@.subrange(from as int, i + 1);
        proof {
            assert(after.drop_last() =~= before);
            assert(all_digits(after));
            lemma_decimal_bounds(before);
        }
        m = m * 10 + d;
        if m > EXPONENT_CAP {
            m = EXPONENT_CAP;
        }
        i = i + 1;
    }
    Some(m)
}

/// The character of the digit `d`.
fn digit_char(d: u64) -> (c: char)
    requires
        d < 10,
    ensures
        is_ascii_digit(c),
        c as int - '0' as int == d,
{
    if d == 0 {
        '0'
    } else if d == 1 {
        '1'
    } else if d == 2 {
        '2'
    } else if d == 3 {
        '3'
    } else if d == 4 {
        '4'
    } else if d == 5 {
        '5'
    } else if d == 6 {
        '6'
    } else if d == 7 {
        '7'
    } else if d == 8 {
        '8'
    } else {
        '9'
    }
}

/// Multiplies the number whose decimal digits `d` holds by `k`.
fn multiply_digits(d: &mut Vec<char>, k: u64)
    requires
        all_digits(old(d)@),
        1 <= k <= 0x40_0000_0000_0000,
    ensures
        all_digits(final(d)@),
        decimal_value(final(d)@) == decimal_value(old(d)@) * k,
{
    let n = d.len();
    let ghost original = d@;
    let mut i = n;
    let mut carry: u64 = 0;
    while i > 0
        invariant
            i <= n == d@.len() == original.len(),
            all_digits(d@),
            all_digits(original),
            d@.take(i as int) == original.take(i as int),
            1 <= k <= 0x40_0000_0000_0000,
            carry < k,
            decimal_value(d@.skip(i as int)) + carry * pow10((n - i) as nat) == k
                * decimal_value(original.skip(i as int)),
        decreases i,
    {
        i = i - 1;
        assert(d@[i as int] == d@.take(i + 1)[i as int]);
        assert(original[i as int] == original.take(i + 1)[i as int]);
        assert(is_ascii_digit(d@[i as int]));
        let digit = (d[i] as u32 - '0' as u32) as u64;
        assert(digit <= 9);
        assert(digit * k <= 9 * k) by (nonlinear_arith)
            requires
                digit <= 9,
                k >= 1,
        ;
        let v = digit * k + carry;
        let c = digit_char(v % 10);
        let ghost suffix = d@.skip(i + 1);
        let ghost before_set = d@;
        d.set(i, c);
        let ghost p = pow10((n - i - 1) as nat);
        let ghost rest = decimal_value(original.skip(i + 1));
        proof {
            assert(d@.skip(i as int) =~= seq![c] + suffix);
            assert(original.skip(i as int) =~= seq![original[i as int]] + original.skip(i + 1));
            lemma_decimal_append(seq![c], suffix);
            lemma_decimal_append(seq![original[i as int]], original.skip(i + 1));
            lemma_decimal_single(c);
            lemma_decimal_single(original[i as int]);
            assert(d@.take(i as int) =~= original.take(i as int));
            assert(pow10((n - i) as nat) == 10 * p);
            assert forall|j: int| 0 <= j < d@.len() implies is_ascii_digit(#[trigger] d@[j]) by {
                if j != i {
                    assert(d@[j] == before_set[j]);
                }
            }
            let vs = decimal_value(suffix);
            assert((v % 10) as int * p + vs + (v / 10) as int * (10 * p) == k * (digit * p + rest))
                by (nonlinear_arith)
                requires
                    vs + carry * p == k * rest,
                    v == digit * k + carry,
            ;
        }
        carry = v / 10;
    }
    assert(d@.skip(0) =~= d@);
    assert(original.skip(0) =~= original);
    while carry > 0
        invariant
            all_digits(d@),
            decimal_value(d@) + carry * pow10(d@.len()) == k * decimal_value(original),
        decreases carry,
    {
        let c = digit_char(carry % 10);
        let ghost before = d@;
        d.insert(0, c);
        proof {
            assert(d@ =~= seq![c] + before);
            lemma_decimal_append(seq![c], before);
            lemma_decimal_single(c);
            let p = pow10(before.len());
            assert(pow10(before.len() + 1) == 10 * p);
            assert((carry % 10) as int * p + (carry / 10) as int * (10 * p) == carry * p)
                by (nonlinear_arith);
            assert forall|j: int| 0 <= j < d@.len() implies is_ascii_digit(#[trigger] d@[j]) by {
                if j > 0 {
                    assert(d@[j] == before[j - 1]);
                }
            }
        }
        carry = carry / 10;
    }
    assert(carry * pow10(d@.len()) == 0);
    assert(original == old(d)@);
    let ghost x = decimal_value(original);
    assert(k * x == x * k) by (nonlinear_arith);
}

/// The decimal digits of the overflow threshold, without leading zeros.
fn threshold_digits(single: bool) -> (t: Vec<char>)
    ensures
        all_digits(t@),
        t@.len() > 0,
        t@[0] != '0',
        decimal_value(t@) == float_overflow_threshold(single),
{
    let low: u32 = if single {
        103
    } else {
        970
    };
    let factor: u64 = if single {
        33554431
    } else {
        18014398509481983
    };
    let mut d: Vec<char> = vec!['1'];
    proof {
        lemma_decimal_single('1');
        assert(d@ =~= seq!['1']);
        vstd::arithmetic::power2::lemma2_to64();
    }
    let mut j: u32 = 0;
    while j < low
        invariant
            j <= low,
            all_digits(d@),
            decimal_value(d@) == pow2(j as nat),
        decreases low - j,
    {
        multiply_digits(&mut d, 2);
        j = j + 1;
        proof {
            vstd::arithmetic::power2::lemma_pow2_unfold(j as nat);
        }
    }
    multiply_digits(&mut d, factor);
    proof {
        vstd::arithmetic::power2::lemma2_to64();
        vstd::arithmetic::power2::lemma2_to64_rest();
        vstd::arithmetic::power2::lemma_pow2_adds(25, 103);
        vstd::arithmetic::power2::lemma_pow2_adds(54, 970);
        let x = pow2(low as nat) as int;
        assert((factor + 1) * x - x == factor * x) by (nonlinear_arith);
        vstd::arithmetic::power2::lemma_pow2_pos(low as nat);
        assert(x * factor >= 1) by (nonlinear_arith)
            requires
                x >= 1,
                factor >= 1,
        ;
        lemma_decimal_strip(d@);
    }
    strip_zeros(&d)
}

/// Whether `a * 10^e < b`, for digit strings without leading zeros; found
/// from the lengths of the two sides and, where those agree, from the first
/// place where their digits differ.
fn scaled_digits_below(a: &Vec<char>, e: i128, b: &Vec<char>) -> (r: bool)
    requires
        all_digits(a@),
        all_digits(b@),
        a@.len() > 0,
        a@[0] != '0',
        b@.len() > 0,
        b@[0] != '0',
        -0x1_0000_0000_0000_0000_0000 <= e <= 0x1_0000_0000_0000_0000_0000,
    ensures
        r == scaled_below(decimal_value(a@), e as int, decimal_value(b@)),
{
    let p = a.len() as i128;
    let q = b.len() as i128;
    let pad_a: i128 = if e > 0 {
        e
    } else {
        0
    };
    let pad_b: i128 = if e < 0 {
        -e
    } else {
        0
    };
    let la = p + pad_a;
    let lb = q + pad_b;
    let ghost sa = a@ + zero_digits(pad_a as nat);
    let ghost sb = b@ + zero_digits(pad_b as nat);
    proof {
        lemma_decimal_append(a@, zero_digits(pad_a as nat));
        lemma_decimal_append(b@, zero_digits(pad_b as nat));
        lemma_decimal_zeros(pad_a as nat);
        lemma_decimal_zeros(pad_b as nat);
        assert(all_digits(sa));
        assert(all_digits(sb));
        assert(sa[0] == a@[0]);
        assert(sb[0] == b@[0]);
        assert(pow10(0) == 1);
        assert(scaled_below(decimal_value(a@), e as int, decimal_value(b@)) == (decimal_value(sa)
            < decimal_value(sb)));
    }
    if la < lb {
        proof {
            lemma_decimal_bounds(sa);
            lemma_decimal_leading(sb);
            lemma_pow10_monotone(sa.len(), (sb.len() - 1) as nat);
        }
        return true;
    }
    if la > lb {
        proof {
            lemma_decimal_bounds(sb);
            lemma_decimal_leading(sa);
            lemma_pow10_monotone(sb.len(), (sa.len() - 1) as nat);
        }
        return false;
    }
    let len: usize = if pad_a == 0 {
        a.len()
    } else {
        b.len()
    };
    let mut k: usize = 0;
    while k < len
        invariant
            k <= len,
            len == sa.len() == sb.len(),
            pad_a >= 0,
            pad_b >= 0,
            scaled_below(decimal_value(a@), e as int, decimal_value(b@)) == (decimal_value(sa)
                < decimal_value(sb)),
            sa == a@ + zero_digits(pad_a as nat),
            sb == b@ + zero_digits(pad_b as nat),
            all_digits(sa),
            all_digits(sb),
            sa.take(k as int) == sb.take(k as int),
        decreases len - k,
    {
        let x = if k < a.len() {
            a[k]
        } else {
            '0'
        };
        let y = if k < b.len() {
            b[k]
        } else {
            '0'
        };
        assert(x == sa[k as int]);
        assert(y == sb[k as int]);
        if x < y {
            proof {
                lemma_decimal_lexicographic(sa, sb, k as int);
            }
            return true;
        }
        if x > y {
            proof {
                lemma_decimal_lexicographic(sb, sa, k as int);
            }
            return false;
        }
        assert(sa.take(k + 1) =~= sa.take(k as int).push(x));
        assert(sb.take(k + 1) =~= sb.take(k as int).push(y));
        k = k + 1;
    }
    assert(sa =~= sa.take(len as int));
    assert(sb =~= sb.take(len as int));
    false
}

/// `x` cut off at `EXPONENT_CAP` either way.
pub open spec fn cap_exponent(x: int) -> int {
    if x > EXPONENT_CAP {
        EXPONENT_CAP as int
    } else if x < -EXPONENT_CAP {
        -EXPONENT_CAP
    } else {
        x
    }
}

/// Reads `cs` in the decimal form of a floating literal: the digits of its
/// significand and the power of ten that scales them, with the exponent cut
/// off at `EXPONENT_CAP`; `None` when `cs` is not in that form.
fn read_decimal_float(cs: &Vec<char>) -> (r: Option<(Vec<char>, i128)>)
    ensures
        match r {
            None => !decimal_float_syntax(cs@),
            Some((mantissa, scale)) => {
                &&& decimal_float_syntax(cs@)
                &&& mantissa@ == float_mantissa(cs@)
                &&& scale == cap_exponent(float_exponent(cs@)) - float_fraction_len(cs@)
                &&& 0 <= float_fraction_len(cs@) <= cs@.len()
            },
        },
{
    let ghost s = cs@;
    let n = cs.len();
    let sign: usize = if n > 0 && (cs[0] == '+' || cs[0] == '-') {
        1
    } else {
        0
    };
    let integer_end = skip_digits(cs, sign);
    let mut fraction_start = integer_end;
    let mut mantissa_end = integer_end;
    if integer_end < n && cs[integer_end] == '.' {
        fraction_start = integer_end + 1;
        mantissa_end = skip_digits(cs, integer_end + 1);
    }
    let fraction_len = mantissa_end - fraction_start;
    let mut mantissa: Vec<char> = Vec::new();
    append_range(&mut mantissa, cs, sign, integer_end);
    append_range(&mut mantissa, cs, fraction_start, mantissa_end);
    assert(mantissa@ =~= float_mantissa(s));
    if mantissa.len() == 0 {
        return None;
    }
    let mut exponent: i128 = 0;
    if mantissa_end < n && (cs[mantissa_end] == 'e' || cs[mantissa_end] == 'E') {
        let mut j = mantissa_end + 1;
        let mut negative = false;
        if j < n && (cs[j] == '+' || cs[j] == '-') {
            negative = cs[j] == '-';
            j = j + 1;
        }
        assert(cs@.subrange(j as int, n as int) =~= float_exponent_digits(s));
        if j >= n {
            return None;
        }
        match exponent_magnitude(cs, j) {
            None => {
                return None;
            },
            Some(m) => {
                exponent = if negative {
                    -m
                } else {
                    m
                };
            },
        }
    } else if mantissa_end != n {
        return None;
    }
    Some((mantissa, exponent - fraction_len as i128))
}

/// Whether the floating literal `lexeme` reads as a finite value of the
/// 32-bit (`single`) or 64-bit binary floating type.
pub fn floating_literal_finite(lexeme: &str, single: bool) -> (r: bool)
    ensures
        r == floating_literal_is_finite(lexeme@, single),
{
    let cs = chars_of(lexeme);
    let ghost s = lexeme@;
    let (mantissa, scale) = match read_decimal_float(&cs) {
        None => {
            return false;
        },
        Some(parts) => parts,
    };
    let digits = strip_zeros(&mantissa);
    proof {
        lemma_decimal_strip(mantissa@);
        lemma_mantissa_digits(s);
    }
    proof {
        vstd::arithmetic::power2::lemma_pow2_strictly_increases(103, 128);
        vstd::arithmetic::power2::lemma_pow2_strictly_increases(970, 1024);
        assert(float_overflow_threshold(single) > 0);
    }
    if digits.len() == 0 {
        proof {
            assert(decimal_value(digits@) == 0);
            assert(decimal_value(float_mantissa(s)) == 0);
            vstd::arithmetic::power2::lemma_pow2_strictly_increases(970, 1024);
            lemma_pow10_positive((-float_scale(s)) as nat);
            let t = float_overflow_threshold(single);
            let q = pow10((-float_scale(s)) as nat);
            assert(t * q > 0) by (nonlinear_arith)
                requires
                    t > 0,
                    q >= 1,
            ;
        }
        return true;
    }
    let threshold = threshold_digits(single);
    let n_cs = cs.len();
    let n_threshold = threshold.len();
    proof {
        assert(cs@.len() == n_cs);
        assert(threshold@.len() == n_threshold);
        assert(0 <= float_fraction_len(cs@) <= cs@.len());
        assert(-EXPONENT_CAP <= cap_exponent(float_exponent(cs@)) <= EXPONENT_CAP);
        assert(scale == cap_exponent(float_exponent(cs@)) - float_fraction_len(cs@));
    }
    let below = scaled_digits_below(&digits, scale, &threshold);
    proof {
        let e = float_exponent(s);
        let f = float_fraction_len(s);
        lemma_scaled_saturates(digits@, threshold@, float_scale(s));
        lemma_scaled_saturates(digits@, threshold@, scale as int);
        if e > EXPONENT_CAP {
            assert(scale >= threshold@.len());
            assert(float_scale(s) >= threshold@.len());
        } else if e < -EXPONENT_CAP {
            assert(scale <= -digits@.len());
            assert(float_scale(s) <= -digits@.len());
        } else {
            assert(scale == float_scale(s));
        }
    }
    below
}

/// The significand of a literal holds nothing but digits.
proof fn lemma_mantissa_digits(s: Seq<char>)
    ensures
        all_digits(float_mantissa(s)),
{
    let m = float_mantissa(s);
    let sign = float_sign_len(s);
    let ie = float_integer_end(s);
    let fs = float_fraction_start(s);
    lemma_digit_run_bounds(s, sign);
    if float_has_point(s) {
        lemma_digit_run_bounds(s, ie + 1);
    }
    assert forall|t: int| 0 <= t < m.len() implies is_ascii_digit(#[trigger] m[t]) by {
        if t < ie - sign {
            assert(m[t] == s[sign + t]);
            lemma_digit_run_digits(s, sign, sign + t);
        } else {
            assert(m[t] == s[fs + t - (ie - sign)]);
            lemma_digit_run_digits(s, fs, fs + t - (ie - sign));
        }
    }
}

proof fn lemma_digit_run_bounds(s: Seq<char>, i: int)
    requires
        0 <= i <= s.len(),
    ensures
        0 <= digit_run(s, i) <= s.len() - i,
    decreases s.len() - i,
{
    if i < s.len() && is_ascii_digit(s[i]) {
        lemma_digit_run_bounds(s, i + 1);
    }
}

proof fn lemma_digit_run_digits(s: Seq<char>, from: int, j: int)
    requires
        0 <= from <= j < from + digit_run(s, from),
    ensures
        is_ascii_digit(s[j]),
    decreases j - from,
{
    if j > from {
        lemma_digit_run_digits(s, from + 1, j);
    }
}

} // verus!
