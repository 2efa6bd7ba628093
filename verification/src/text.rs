//! Lexical ground layer: character classes, setting-name and
//! float-literal recognizers, and text conversions shared by the
//! grammar, the path resolver and the tree.

use vstd::prelude::*;
use vstd::string::StrSliceExecFns;

verus! {

/// Whitespace of the configuration grammar.
pub open spec fn is_ws(c: char) -> bool {
    c == ' ' || c == '\t' || c == '\n' || c == '\r'
}

/// A decimal digit.
pub open spec fn is_digit(c: char) -> bool {
    48 <= (c as u32) && (c as u32) <= 57
}

/// A hexadecimal digit.
pub open spec fn is_hex_digit(c: char) -> bool {
    is_digit(c) || (97 <= (c as u32) && (c as u32) <= 102) || (65 <= (c as u32) && (c as u32)
        <= 70)
}

/// An ASCII letter.
pub open spec fn is_letter(c: char) -> bool {
    (65 <= (c as u32) && (c as u32) <= 90) || (97 <= (c as u32) && (c as u32) <= 122)
}

/// A character that may open a setting name.
pub open spec fn is_name_start(c: char) -> bool {
    is_letter(c) || c == '_' || c == '*'
}

/// A character that may continue a setting name.
pub open spec fn is_name_char(c: char) -> bool {
    is_letter(c) || is_digit(c) || c == '_' || c == '-' || c == '*'
}

/// A valid setting name: a name-start character followed by name
/// characters.
pub open spec fn is_name(s: Seq<char>) -> bool {
    &&& s.len() > 0
    &&& is_name_start(s[0])
    &&& forall|i: int| 0 < i < s.len() ==> is_name_char(#[trigger] s[i])
}

/// Index just past the run of decimal digits starting at `i`.
pub open spec fn digits_end(s: Seq<char>, i: int) -> int
    decreases s.len() - i,
    when 0 <= i <= s.len()
{
    if i < s.len() && is_digit(s[i]) {
        digits_end(s, i + 1)
    } else {
        i
    }
}

/// The digit run stays within the text and starts where it begins.
pub proof fn lemma_digits_end_bounds(s: Seq<char>, i: int)
    requires
        0 <= i <= s.len(),
    ensures
        i <= digits_end(s, i) <= s.len(),
        forall|j: int| i <= j < digits_end(s, i) ==> is_digit(#[trigger] s[j]),
        digits_end(s, i) < s.len() ==> !is_digit(s[digits_end(s, i)]),
    decreases s.len() - i,
{
    if i < s.len() && is_digit(s[i]) {
        lemma_digits_end_bounds(s, i + 1);
    }
}

/// A floating-point literal: an optional minus sign, an integer part,
/// then a fraction part or an exponent part (or both), covering the
/// whole text.  This is the exact shape the grammar reads and the
/// writer emits for `TypeFloat` values.
pub open spec fn is_float_lit(s: Seq<char>) -> bool {
    let i0: int = if s.len() > 0 && s[0] == '-' {
        1
    } else {
        0
    };
    let i1 = digits_end(s, i0);
    if i1 == i0 {
        false
    } else {
        let has_dot = i1 < s.len() && s[i1] == '.';
        let i2 = if has_dot {
            digits_end(s, i1 + 1)
        } else {
            i1
        };
        if i2 < s.len() && (s[i2] == 'e' || s[i2] == 'E') {
            let j = if i2 + 1 < s.len() && (s[i2 + 1] == '-' || s[i2 + 1] == '+') {
                i2 + 2
            } else {
                i2 + 1
            };
            let i3 = digits_end(s, j);
            i3 > j && i3 == s.len()
        } else {
            has_dot && i2 == s.len()
        }
    }
}

/// The characters of a text, in order.
pub fn str_to_chars(s: &str) -> (v: Vec<char>)
    ensures
        v@ == s@,
{
    let n = s.unicode_len();
    let mut v: Vec<char> = Vec::new();
    let mut i: usize = 0;
    while i < n
        invariant
            n == s@.len(),
            i <= n,
            v@ == s@.subrange(0, i as int),
        decreases n - i,
    {
        v.push(s.get_char(i));
        i = i + 1;
        assert(v@ =~= s@.subrange(0, i as int));
    }
    assert(v@ =~= s@);
    v
}

/// Relies on `String`'s `FromIterator` implementation: collecting
/// chars yields the string of exactly those chars, in order.
#[verifier::external_body]
pub fn chars_to_string(v: &Vec<char>) -> (r: String)
    ensures
        r@ == v@,
{
    v.iter().collect()
}

/// Index just past the run of decimal digits starting at `i`.
pub fn digits_end_at(v: &Vec<char>, i: usize) -> (r: usize)
    requires
        i <= v@.len(),
    ensures
        r == digits_end(v@, i as int),
        i <= r <= v@.len(),
    decreases v@.len() - i,
{
    proof {
        lemma_digits_end_bounds(v@, i as int);
    }
    if i < v.len() {
        let c = v[i];
        if 48 <= (c as u32) && (c as u32) <= 57 {
            return digits_end_at(v, i + 1);
        }
    }
    i
}

/// Whether the text is a valid setting name.
pub fn check_name(v: &Vec<char>) -> (r: bool)
    ensures
        r == is_name(v@),
{
    if v.len() == 0 {
        return false;
    }
    let c0 = v[0];
    if !(c0 == '_' || c0 == '*' || (65 <= (c0 as u32) && (c0 as u32) <= 90) || (97 <= (c0 as u32)
        && (c0 as u32) <= 122)) {
        return false;
    }
    let mut i: usize = 1;
    while i < v.len()
        invariant
            1 <= i <= v@.len(),
            is_name_start(v@[0]),
            forall|j: int| 0 < j < i ==> is_name_char(#[trigger] v@[j]),
        decreases v@.len() - i,
    {
        let c = v[i];
        let ok = c == '_' || c == '-' || c == '*' || (65 <= (c as u32) && (c as u32) <= 90) || (97
            <= (c as u32) && (c as u32) <= 122) || (48 <= (c as u32) && (c as u32) <= 57);
        if !ok {
            return false;
        }
        i = i + 1;
    }
    true
}

/// Index just past the run of blanks (spaces and tabs) starting at
/// `i`.
pub open spec fn blank_end(s: Seq<char>, i: int) -> int
    decreases s.len() - i,
    when 0 <= i <= s.len()
{
    if i < s.len() && (s[i] == ' ' || s[i] == '\t') {
        blank_end(s, i + 1)
    } else {
        i
    }
}

/// The blank run stays within the text.
pub proof fn lemma_blank_end_bounds(s: Seq<char>, i: int)
    requires
        0 <= i <= s.len(),
    ensures
        i <= blank_end(s, i) <= s.len(),
    decreases s.len() - i,
{
    if i < s.len() && (s[i] == ' ' || s[i] == '\t') {
        lemma_blank_end_bounds(s, i + 1);
    }
}

/// Index of the next `"` at or after `i`, or the end of the text.
pub open spec fn quote_end(s: Seq<char>, i: int) -> int
    decreases s.len() - i,
    when 0 <= i <= s.len()
{
    if i < s.len() && s[i] != '"' {
        quote_end(s, i + 1)
    } else {
        i
    }
}

/// The quote search stays within the text.
pub proof fn lemma_quote_end_bounds(s: Seq<char>, i: int)
    requires
        0 <= i <= s.len(),
    ensures
        i <= quote_end(s, i) <= s.len(),
    decreases s.len() - i,
{
    if i < s.len() && s[i] != '"' {
        lemma_quote_end_bounds(s, i + 1);
    }
}

/// The file named by an include directive: a line of the shape
/// `@include "file"`, up to surrounding blanks; `None` for any other
/// line.
pub open spec fn include_target_spec(s: Seq<char>) -> Option<Seq<char>> {
    let i = blank_end(s, 0);
    if i + 9 <= s.len() && s.subrange(i, i + 9) == seq![
        '@', 'i', 'n', 'c', 'l', 'u', 'd', 'e', ' ',
    ] {
        let j = blank_end(s, i + 9);
        if j < s.len() && s[j] == '"' {
            let k = quote_end(s, j + 1);
            if k < s.len() && blank_end(s, k + 1) == s.len() {
                Some(s.subrange(j + 1, k))
            } else {
                None
            }
        } else {
            None
        }
    } else {
        None
    }
}

/// Index just past the run of blanks starting at `i`.
pub fn blank_end_at(v: &Vec<char>, i: usize) -> (r: usize)
    requires
        i <= v@.len(),
    ensures
        r == blank_end(v@, i as int),
        i <= r <= v@.len(),
    decreases v@.len() - i,
{
    proof {
        lemma_blank_end_bounds(v@, i as int);
    }
    if i < v.len() && (v[i] == ' ' || v[i] == '\t') {
        blank_end_at(v, i + 1)
    } else {
        i
    }
}

/// Index of the next `"` at or after `i`, or the end of the text.
pub fn quote_end_at(v: &Vec<char>, i: usize) -> (r: usize)
    requires
        i <= v@.len(),
    ensures
        r == quote_end(v@, i as int),
        i <= r <= v@.len(),
    decreases v@.len() - i,
{
    proof {
        lemma_quote_end_bounds(v@, i as int);
    }
    if i < v.len() && v[i] != '"' {
        quote_end_at(v, i + 1)
    } else {
        i
    }
}

/// The file named by an include directive, if the line is one.
pub fn include_target(line: &str) -> (r: Option<String>)
    ensures
        match include_target_spec(line@) {
            Some(t) => r matches Some(f) && f@ == t,
            None => r is None,
        },
{
    let v = str_to_chars(line);
    let i = blank_end_at(&v, 0);
    if !(v.len() >= 9 && i <= v.len() - 9) {
        proof {
            assert(!(i + 9 <= line@.len()));
        }
        return None;
    }
    let marker = ['@', 'i', 'n', 'c', 'l', 'u', 'd', 'e', ' '];
    let mut m: usize = 0;
    while m < 9
        invariant
            m <= 9,
            i + 9 <= v@.len(),
            v@.len() <= usize::MAX,
            v@ == line@,
            marker@ =~= seq!['@', 'i', 'n', 'c', 'l', 'u', 'd', 'e', ' '],
            i == blank_end(line@, 0),
            forall|t: int| 0 <= t < m ==> v@[i + t] == marker@[t],
        decreases 9 - m,
    {
        if !(v[i + m] == marker[m]) {
            proof {
                assert(line@.subrange(i as int, i + 9) != seq![
                    '@', 'i', 'n', 'c', 'l', 'u', 'd', 'e', ' ',
                ]) by {
                    assert(line@.subrange(i as int, i + 9)[m as int] == line@[i + m]);
                }
            }
            return None;
        }
        m = m + 1;
    }
    proof {
        assert(line@.subrange(i as int, i + 9) =~= seq![
            '@', 'i', 'n', 'c', 'l', 'u', 'd', 'e', ' ',
        ]);
    }
    let j = blank_end_at(&v, i + 9);
    if !(j < v.len() && v[j] == '"') {
        return None;
    }
    let k = quote_end_at(&v, j + 1);
    if !(k < v.len()) {
        return None;
    }
    if !(blank_end_at(&v, k + 1) == v.len()) {
        return None;
    }
    let name = crate::path::subvec(&v, j + 1, k);
    Some(chars_to_string(&name))
}

/// Whether the text is a valid floating-point literal.
pub fn check_float_lit(v: &Vec<char>) -> (r: bool)
    ensures
        r == is_float_lit(v@),
{
    let i0: usize = if v.len() > 0 && v[0] == '-' {
        1
    } else {
        0
    };
    let i1 = digits_end_at(v, i0);
    if i1 == i0 {
        return false;
    }
    let has_dot = i1 < v.len() && v[i1] == '.';
    let i2 = if has_dot {
        digits_end_at(v, i1 + 1)
    } else {
        i1
    };
    if i2 < v.len() && (v[i2] == 'e' || v[i2] == 'E') {
        let j = if i2 + 1 < v.len() && (v[i2 + 1] == '-' || v[i2 + 1] == '+') {
            i2 + 2
        } else {
            i2 + 1
        };
        let i3 = digits_end_at(v, j);
        i3 > j && i3 == v.len()
    } else {
        has_dot && i2 == v.len()
    }
}

} // verus!
