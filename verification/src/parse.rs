//! The configuration text grammar: reading text into a raw tree.
//!
//! A document is a sequence of settings `name = value;` (or with `:`
//! for `=`).  A value is a scalar — boolean, integer (decimal or
//! `0x..` hexadecimal, with `L` for 64-bit), float, quoted string — or
//! an aggregate: a group `{ .. }` of named settings, an array
//! `[ v, v ]` of uniform scalars, or a list `( v, v )` of mixed
//! values.  Whitespace and `#` line comments separate tokens.

use vstd::prelude::*;

use crate::num::dec_val;
use crate::num::hex_val;
use crate::text::is_digit;
use crate::text::is_hex_digit;
use crate::text::is_name_char;
use crate::text::is_name_start;
use crate::text::is_ws;
use crate::types::Format;
use crate::types::LibType;
use crate::types::Value;
use crate::types::ValueV;

verus! {

/// One node of a raw settings tree, as the grammar reads and writes
/// it: a scalar with its display hint, or an aggregate of children
/// (named for groups, positional for arrays and lists).
pub enum RawValue {
    Scalar(Value, Format),
    Group(Vec<(String, RawValue)>),
    Array(Vec<RawValue>),
    List(Vec<RawValue>),
}

/// Mathematical model of a raw settings tree.
pub enum RawV {
    ScalarV(ValueV, Format),
    GroupV(Seq<(Seq<char>, RawV)>),
    ArrayV(Seq<RawV>),
    ListV(Seq<RawV>),
}

/// Model of one raw tree.
pub open spec fn raw_view(rv: RawValue) -> RawV
    decreases rv, 0int,
{
    match rv {
        RawValue::Scalar(v, f) => RawV::ScalarV(v@, f),
        RawValue::Group(entries) => RawV::GroupV(entry_views(entries@)),
        RawValue::Array(items) => RawV::ArrayV(raw_views(items@)),
        RawValue::List(items) => RawV::ListV(raw_views(items@)),
    }
}

/// Models of a sequence of raw trees.
pub open spec fn raw_views(s: Seq<RawValue>) -> Seq<RawV>
    decreases s, 1int,
{
    if s.len() == 0 {
        Seq::empty()
    } else {
        raw_views(s.subrange(0, s.len() - 1)).push(raw_view(s[s.len() - 1]))
    }
}

/// Models of a sequence of named raw trees.
pub open spec fn entry_views(s: Seq<(String, RawValue)>) -> Seq<(Seq<char>, RawV)>
    decreases s, 1int,
{
    if s.len() == 0 {
        Seq::empty()
    } else {
        entry_views(s.subrange(0, s.len() - 1)).push(
            (s[s.len() - 1].0@, raw_view(s[s.len() - 1].1)),
        )
    }
}

/// Element views, element by element.
pub proof fn lemma_raw_views(s: Seq<RawValue>)
    ensures
        raw_views(s).len() == s.len(),
        forall|k: int| 0 <= k < s.len() ==> raw_views(s)[k] == raw_view(#[trigger] s[k]),
    decreases s.len(),
{
    if s.len() > 0 {
        lemma_raw_views(s.subrange(0, s.len() - 1));
        assert forall|k: int| 0 <= k < s.len() implies raw_views(s)[k] == raw_view(
            #[trigger] s[k],
        ) by {
            if k < s.len() - 1 {
                assert(s.subrange(0, s.len() - 1)[k] == s[k]);
            }
        }
    }
}

/// Entry views, entry by entry.
pub proof fn lemma_entry_views(s: Seq<(String, RawValue)>)
    ensures
        entry_views(s).len() == s.len(),
        forall|k: int|
            0 <= k < s.len() ==> entry_views(s)[k] == ((#[trigger] s[k]).0@, raw_view(s[k].1)),
    decreases s.len(),
{
    if s.len() > 0 {
        lemma_entry_views(s.subrange(0, s.len() - 1));
        assert forall|k: int| 0 <= k < s.len() implies entry_views(s)[k] == ((#[trigger] s[k]).0@,
        raw_view(s[k].1)) by {
            if k < s.len() - 1 {
                assert(s.subrange(0, s.len() - 1)[k] == s[k]);
            }
        }
    }
}

/// The kind of a modelled scalar payload.
pub open spec fn vkind(v: ValueV) -> LibType {
    match v {
        ValueV::IntV(_) => LibType::TypeInt,
        ValueV::Int64V(_) => LibType::TypeInt64,
        ValueV::FloatV(_) => LibType::TypeFloat,
        ValueV::StrV(_) => LibType::TypeString,
        ValueV::BoolV(_) => LibType::TypeBoolean,
    }
}

/// Some entry carries the name `nm`.
pub open spec fn entries_contain(es: Seq<(Seq<char>, RawV)>, nm: Seq<char>) -> bool {
    exists|k: int| 0 <= k < es.len() && (#[trigger] es[k]).0 == nm
}

/// Index just past the whitespace and `#` line comments from `i` on.
pub open spec fn sp(s: Seq<char>, i: int) -> int
    decreases s.len() - i, 0int,
    when 0 <= i <= s.len()
{
    if i < s.len() && is_ws(s[i]) {
        sp(s, i + 1)
    } else if i < s.len() && s[i] == '#' {
        sp_comment(s, i + 1)
    } else {
        i
    }
}

/// Index just past the rest of a line comment.
pub open spec fn sp_comment(s: Seq<char>, i: int) -> int
    decreases s.len() - i, 1int,
    when 0 <= i <= s.len()
{
    if i >= s.len() {
        i
    } else if s[i] == '\n' {
        sp(s, i + 1)
    } else {
        sp_comment(s, i + 1)
    }
}

/// Skipping only moves forward, over whitespace and comments.
pub proof fn lemma_sp_bounds(s: Seq<char>, i: int)
    requires
        0 <= i <= s.len(),
    ensures
        i <= sp(s, i) <= s.len(),
    decreases s.len() - i, 0int,
{
    if i < s.len() && is_ws(s[i]) {
        lemma_sp_bounds(s, i + 1);
    } else if i < s.len() && s[i] == '#' {
        lemma_sp_comment_bounds(s, i + 1);
    }
}

/// Comment skipping only moves forward.
pub proof fn lemma_sp_comment_bounds(s: Seq<char>, i: int)
    requires
        0 <= i <= s.len(),
    ensures
        i <= sp_comment(s, i) <= s.len(),
    decreases s.len() - i, 1int,
{
    if i < s.len() {
        if s[i] == '\n' {
            lemma_sp_bounds(s, i + 1);
        } else {
            lemma_sp_comment_bounds(s, i + 1);
        }
    }
}

/// Index just past the run of name characters starting at `i`.
pub open spec fn name_end(s: Seq<char>, i: int) -> int
    decreases s.len() - i,
    when 0 <= i <= s.len()
{
    if i < s.len() && is_name_char(s[i]) {
        name_end(s, i + 1)
    } else {
        i
    }
}

/// The name run stays within the text.
pub proof fn lemma_name_end_bounds(s: Seq<char>, i: int)
    requires
        0 <= i <= s.len(),
    ensures
        i <= name_end(s, i) <= s.len(),
        forall|j: int| i <= j < name_end(s, i) ==> is_name_char(#[trigger] s[j]),
        name_end(s, i) < s.len() ==> !is_name_char(s[name_end(s, i)]),
    decreases s.len() - i,
{
    if i < s.len() && is_name_char(s[i]) {
        lemma_name_end_bounds(s, i + 1);
    }
}

/// Index just past the run of hexadecimal digits starting at `i`.
pub open spec fn hex_end(s: Seq<char>, i: int) -> int
    decreases s.len() - i,
    when 0 <= i <= s.len()
{
    if i < s.len() && is_hex_digit(s[i]) {
        hex_end(s, i + 1)
    } else {
        i
    }
}

/// The hexadecimal digit run stays within the text.
pub proof fn lemma_hex_end_bounds(s: Seq<char>, i: int)
    requires
        0 <= i <= s.len(),
    ensures
        i <= hex_end(s, i) <= s.len(),
        forall|j: int| i <= j < hex_end(s, i) ==> is_hex_digit(#[trigger] s[j]),
        hex_end(s, i) < s.len() ==> !is_hex_digit(s[hex_end(s, i)]),
    decreases s.len() - i,
{
    if i < s.len() && is_hex_digit(s[i]) {
        lemma_hex_end_bounds(s, i + 1);
    }
}

/// What a backslash escape denotes inside a quoted string, if
/// anything.
pub open spec fn unescape(c: char) -> Option<char> {
    if c == '\\' {
        Some('\\')
    } else if c == '"' {
        Some('"')
    } else if c == 'n' {
        Some('\n')
    } else if c == 't' {
        Some('\t')
    } else if c == 'r' {
        Some('\r')
    } else {
        None
    }
}

/// The body of a quoted string from `i` (just past the opening
/// quote): its denoted characters and the index just past the closing
/// quote.  An unterminated string or an unknown escape is an error.
pub open spec fn p_string_body(s: Seq<char>, i: int) -> Option<(Seq<char>, int)>
    decreases s.len() - i,
    when 0 <= i <= s.len()
{
    if i >= s.len() {
        None
    } else if s[i] == '"' {
        Some((Seq::empty(), i + 1))
    } else if s[i] == '\\' {
        if i + 1 < s.len() {
            match unescape(s[i + 1]) {
                None => None,
                Some(cc) => match p_string_body(s, i + 2) {
                    None => None,
                    Some((t, j)) => Some((seq![cc] + t, j)),
                },
            }
        } else {
            None
        }
    } else {
        match p_string_body(s, i + 1) {
            None => None,
            Some((t, j)) => Some((seq![s[i]] + t, j)),
        }
    }
}

/// String parsing moves forward.
pub proof fn lemma_p_string_bounds(s: Seq<char>, i: int)
    requires
        0 <= i <= s.len(),
    ensures
        match p_string_body(s, i) {
            Some((t, j)) => i < j <= s.len(),
            None => true,
        },
    decreases s.len() - i,
{
    if i < s.len() && s[i] != '"' {
        if s[i] == '\\' {
            if i + 1 < s.len() {
                lemma_p_string_bounds(s, i + 2);
            }
        } else {
            lemma_p_string_bounds(s, i + 1);
        }
    }
}

/// The 32-bit two's-complement value of a bit pattern.
pub open spec fn bits32_value(v: nat) -> int {
    if v <= 0x7FFF_FFFF {
        v as int
    } else {
        v as int - 0x1_0000_0000
    }
}

/// The 64-bit two's-complement value of a bit pattern.
pub open spec fn bits64_value(v: nat) -> int {
    if v <= 0x7FFF_FFFF_FFFF_FFFF {
        v as int
    } else {
        v as int - 0x1_0000_0000_0000_0000
    }
}

/// A number at `i`: decimal or hexadecimal integer, 32- or 64-bit by
/// range and `L` suffix, or a float.  Yields the payload, the display
/// hint, and the index just past the token.
pub open spec fn p_number(s: Seq<char>, i: int) -> Option<(ValueV, Format, int)> {
    let neg = i < s.len() && s[i] == '-';
    let i0 = if neg {
        i + 1
    } else {
        i
    };
    if !neg && i0 + 1 < s.len() && s[i0] == '0' && s[i0 + 1] == 'x' {
        let h0 = i0 + 2;
        let h1 = hex_end(s, h0);
        if h1 == h0 {
            None
        } else {
            let v = hex_val(s.subrange(h0, h1));
            if h1 < s.len() && s[h1] == 'L' {
                if v <= u64::MAX {
                    Some((ValueV::Int64V(bits64_value(v)), Format::FormatHex, h1 + 1))
                } else {
                    None
                }
            } else {
                if v <= u32::MAX {
                    Some((ValueV::IntV(bits32_value(v)), Format::FormatHex, h1))
                } else if v <= u64::MAX {
                    Some((ValueV::Int64V(bits64_value(v)), Format::FormatHex, h1))
                } else {
                    None
                }
            }
        }
    } else {
        let d1 = crate::text::digits_end(s, i0);
        if d1 == i0 {
            None
        } else {
            let isf_dot = d1 < s.len() && s[d1] == '.';
            let isf_exp = d1 < s.len() && (s[d1] == 'e' || s[d1] == 'E');
            if isf_dot || isf_exp {
                let d2 = if isf_dot {
                    crate::text::digits_end(s, d1 + 1)
                } else {
                    d1
                };
                if d2 < s.len() && (s[d2] == 'e' || s[d2] == 'E') {
                    let e0 = if d2 + 1 < s.len() && (s[d2 + 1] == '-' || s[d2 + 1] == '+') {
                        d2 + 2
                    } else {
                        d2 + 1
                    };
                    let e1 = crate::text::digits_end(s, e0);
                    if e1 > e0 && crate::text::is_float_lit(s.subrange(i, e1)) {
                        Some((ValueV::FloatV(s.subrange(i, e1)), Format::FormatDefault, e1))
                    } else {
                        None
                    }
                } else {
                    if isf_dot && crate::text::is_float_lit(s.subrange(i, d2)) {
                        Some((ValueV::FloatV(s.subrange(i, d2)), Format::FormatDefault, d2))
                    } else {
                        None
                    }
                }
            } else {
                let m = dec_val(s.subrange(i0, d1));
                let has_l = d1 < s.len() && s[d1] == 'L';
                let j = if has_l {
                    d1 + 1
                } else {
                    d1
                };
                if neg {
                    if !has_l && m <= 0x8000_0000 {
                        Some((ValueV::IntV(-(m as int)), Format::FormatDefault, j))
                    } else if m <= 0x8000_0000_0000_0000 {
                        Some((ValueV::Int64V(-(m as int)), Format::FormatDefault, j))
                    } else {
                        None
                    }
                } else {
                    if !has_l && m <= 0x7FFF_FFFF {
                        Some((ValueV::IntV(m as int), Format::FormatDefault, j))
                    } else if m <= 0x7FFF_FFFF_FFFF_FFFF {
                        Some((ValueV::Int64V(m as int), Format::FormatDefault, j))
                    } else {
                        None
                    }
                }
            }
        }
    }
}

/// A scalar token at `i`: a boolean, a quoted string, or a number.
pub open spec fn p_scalar(s: Seq<char>, i: int) -> Option<(ValueV, Format, int)> {
    if i < s.len() && s[i] == '"' {
        match p_string_body(s, i + 1) {
            None => None,
            Some((t, j)) => Some((ValueV::StrV(t), Format::FormatDefault, j)),
        }
    } else if i + 4 <= s.len() && s.subrange(i, i + 4) == seq!['t', 'r', 'u', 'e'] {
        Some((ValueV::BoolV(true), Format::FormatDefault, i + 4))
    } else if i + 5 <= s.len() && s.subrange(i, i + 5) == seq!['f', 'a', 'l', 's', 'e'] {
        Some((ValueV::BoolV(false), Format::FormatDefault, i + 5))
    } else {
        p_number(s, i)
    }
}

/// A value at `i` (whitespace already skipped): a group, an array, a
/// list, or a scalar.  Yields the raw tree and the index just past
/// the value.
pub open spec fn p_value(s: Seq<char>, i: int, f: nat) -> Option<(RawV, int)>
    decreases f,
    when 0 <= i <= s.len()
{
    if f == 0 {
        None
    } else if i < s.len() && s[i] == '{' {
        match p_entries(s, sp(s, i + 1), (f - 1) as nat) {
            None => None,
            Some((es, j)) => if j < s.len() && s[j] == '}' {
                Some((RawV::GroupV(es), j + 1))
            } else {
                None
            },
        }
    } else if i < s.len() && s[i] == '[' {
        match p_items(s, sp(s, i + 1), (f - 1) as nat, ']') {
            None => None,
            Some((vs, j)) => if j < s.len() && s[j] == ']' && array_ok(vs) {
                Some((RawV::ArrayV(vs), j + 1))
            } else {
                None
            },
        }
    } else if i < s.len() && s[i] == '(' {
        match p_items(s, sp(s, i + 1), (f - 1) as nat, ')') {
            None => None,
            Some((vs, j)) => if j < s.len() && s[j] == ')' {
                Some((RawV::ListV(vs), j + 1))
            } else {
                None
            },
        }
    } else {
        match p_scalar(s, i) {
            None => None,
            Some((v, fmt, j)) => Some((RawV::ScalarV(v, fmt), j)),
        }
    }
}

/// Comma-separated values up to (not consuming) the closing
/// character, which the caller checks.  Yields the values and the
/// index of the position just after the last value's trailing
/// whitespace.
pub open spec fn p_items(s: Seq<char>, i: int, f: nat, close: char) -> Option<
    (Seq<RawV>, int),
>
    decreases f,
    when 0 <= i <= s.len()
{
    if f == 0 {
        None
    } else if i < s.len() && s[i] == close {
        Some((Seq::empty(), i))
    } else {
        match p_value(s, i, (f - 1) as nat) {
            None => None,
            Some((v, j0)) => {
                let j = sp_in(s, j0);
                if j < s.len() && s[j] == ',' {
                    match p_items(s, sp_in(s, j + 1), (f - 1) as nat, close) {
                        None => None,
                        Some((rest, k)) => Some((seq![v] + rest, k)),
                    }
                } else {
                    Some((seq![v], j))
                }
            },
        }
    }
}

/// Settings `name = value;` as long as a name follows; stops (without
/// consuming) at the first position, past whitespace, holding no
/// name.  Duplicate names within one group are an error.
pub open spec fn p_entries(s: Seq<char>, i: int, f: nat) -> Option<
    (Seq<(Seq<char>, RawV)>, int),
>
    decreases f,
    when 0 <= i <= s.len()
{
    if f == 0 {
        None
    } else if i < s.len() && is_name_start(s[i]) {
        let ne = name_end(s, i);
        let nm = s.subrange(i, ne);
        let k = sp_in(s, ne);
        if k < s.len() && (s[k] == '=' || s[k] == ':') {
            match p_value(s, sp_in(s, k + 1), (f - 1) as nat) {
                None => None,
                Some((v, j0)) => {
                    let j = sp_in(s, j0);
                    if j < s.len() && s[j] == ';' {
                        match p_entries(s, sp_in(s, j + 1), (f - 1) as nat) {
                            None => None,
                            Some((rest, k2)) => if entries_contain(rest, nm) {
                                None
                            } else {
                                Some((seq![(nm, v)] + rest, k2))
                            },
                        }
                    } else {
                        None
                    }
                },
            }
        } else {
            None
        }
    } else {
        Some((Seq::empty(), i))
    }
}

/// Whitespace skipping clipped into the text, so positions stay
/// in range for the recursion.
pub open spec fn sp_in(s: Seq<char>, i: int) -> int {
    if 0 <= i <= s.len() {
        sp(s, i)
    } else {
        i
    }
}

/// All items are scalars of one uniform kind: what an array holds.
pub open spec fn array_ok(vs: Seq<RawV>) -> bool {
    forall|k1: int, k2: int|
        0 <= k1 < vs.len() && 0 <= k2 < vs.len() ==> ((#[trigger] vs[k1]) matches
            RawV::ScalarV(v1, f1) && ((#[trigger] vs[k2]) matches RawV::ScalarV(v2, f2) && vkind(
            v1,
        ) == vkind(v2)))
}

/// A raw tree the settings tree can store: floats carry literal
/// text, group entries carry valid, pairwise distinct names, arrays
/// hold scalars of one uniform kind.
pub open spec fn rawv_ok(rv: RawV) -> bool
    decreases rv, 0int,
{
    match rv {
        RawV::ScalarV(v, fmt) => (match v {
            ValueV::FloatV(t) => crate::text::is_float_lit(t),
            ValueV::IntV(n) => -0x8000_0000 <= n <= 0x7FFF_FFFF,
            ValueV::Int64V(n) => -0x8000_0000_0000_0000 <= n <= 0x7FFF_FFFF_FFFF_FFFF,
            _ => true,
        }) && (vkind(v) != LibType::TypeInt && vkind(v) != LibType::TypeInt64 ==> fmt
            == Format::FormatDefault),
        RawV::GroupV(es) => {
            &&& (forall|k: int|
                0 <= k < es.len() ==> crate::text::is_name((#[trigger] es[k]).0))
            &&& (forall|k1: int, k2: int|
                0 <= k1 < es.len() && 0 <= k2 < es.len() && k1 != k2 ==> (#[trigger] es[k1]).0
                    != (#[trigger] es[k2]).0)
            &&& entries_ok(es)
        },
        RawV::ArrayV(vs) => array_ok(vs) && items_ok(vs),
        RawV::ListV(vs) => items_ok(vs),
    }
}

/// Every entry's value is storable.
pub open spec fn entries_ok(es: Seq<(Seq<char>, RawV)>) -> bool
    decreases es, 1int,
{
    if es.len() == 0 {
        true
    } else {
        entries_ok(es.drop_last()) && rawv_ok(es.last().1)
    }
}

/// Every item is storable.
pub open spec fn items_ok(vs: Seq<RawV>) -> bool
    decreases vs, 1int,
{
    if vs.len() == 0 {
        true
    } else {
        items_ok(vs.drop_last()) && rawv_ok(vs.last())
    }
}

/// Storability, item by item.
pub proof fn lemma_items_ok(vs: Seq<RawV>)
    ensures
        items_ok(vs) == (forall|k: int| 0 <= k < vs.len() ==> rawv_ok(#[trigger] vs[k])),
    decreases vs.len(),
{
    if vs.len() > 0 {
        lemma_items_ok(vs.drop_last());
        if forall|k: int| 0 <= k < vs.drop_last().len() ==> rawv_ok(#[trigger] vs.drop_last()[k]) {
            assert forall|k: int| 0 <= k < vs.len() - 1 implies rawv_ok(#[trigger] vs[k]) by {
                assert(vs.drop_last()[k] == vs[k]);
            }
        }
        if forall|k: int| 0 <= k < vs.len() ==> rawv_ok(#[trigger] vs[k]) {
            assert forall|k: int|
                0 <= k < vs.drop_last().len() implies rawv_ok(#[trigger] vs.drop_last()[k]) by {
                assert(vs.drop_last()[k] == vs[k]);
            }
        }
    }
}

/// Storability, entry by entry.
pub proof fn lemma_entries_ok(es: Seq<(Seq<char>, RawV)>)
    ensures
        entries_ok(es) == (forall|k: int| 0 <= k < es.len() ==> rawv_ok((#[trigger] es[k]).1)),
    decreases es.len(),
{
    if es.len() > 0 {
        lemma_entries_ok(es.drop_last());
        if forall|k: int| 0 <= k < es.drop_last().len() ==> rawv_ok(
            (#[trigger] es.drop_last()[k]).1,
        ) {
            assert forall|k: int| 0 <= k < es.len() - 1 implies rawv_ok(
                (#[trigger] es[k]).1,
            ) by {
                assert(es.drop_last()[k] == es[k]);
            }
        }
        if forall|k: int| 0 <= k < es.len() ==> rawv_ok((#[trigger] es[k]).1) {
            assert forall|k: int| 0 <= k < es.drop_last().len() implies rawv_ok(
                (#[trigger] es.drop_last()[k]).1,
            ) by {
                assert(es.drop_last()[k] == es[k]);
            }
        }
    }
}

/// The fuel that always suffices for a text of length `n`.
pub open spec fn fuel_for(n: nat) -> nat {
    3 * n + 8
}

/// A parsed scalar is storable.
pub proof fn lemma_p_scalar_ok(s: Seq<char>, i: int)
    requires
        0 <= i <= s.len(),
    ensures
        match p_scalar(s, i) {
            Some((v, fmt, j)) => rawv_ok(RawV::ScalarV(v, fmt)) && i < j <= s.len(),
            None => true,
        },
{
    if i < s.len() && s[i] == '"' {
        lemma_p_string_bounds(s, i + 1);
    } else if i + 4 <= s.len() && s.subrange(i, i + 4) == seq!['t', 'r', 'u', 'e'] {
    } else if i + 5 <= s.len() && s.subrange(i, i + 5) == seq!['f', 'a', 'l', 's', 'e'] {
    } else {
        let neg = i < s.len() && s[i] == '-';
        let i0 = if neg {
            i + 1
        } else {
            i
        };
        if i0 <= s.len() {
            crate::text::lemma_digits_end_bounds(s, i0);
            if !neg && i0 + 1 < s.len() && s[i0] == '0' && s[i0 + 1] == 'x' {
                lemma_hex_end_bounds(s, i0 + 2);
            } else {
                let d1 = crate::text::digits_end(s, i0);
                if d1 > i0 {
                    let isf_dot = d1 < s.len() && s[d1] == '.';
                    if isf_dot {
                        crate::text::lemma_digits_end_bounds(s, d1 + 1);
                    }
                    let d2 = if isf_dot {
                        crate::text::digits_end(s, d1 + 1)
                    } else {
                        d1
                    };
                    if d2 < s.len() && (s[d2] == 'e' || s[d2] == 'E') {
                        let e0 = if d2 + 1 < s.len() && (s[d2 + 1] == '-' || s[d2 + 1] == '+') {
                            d2 + 2
                        } else {
                            d2 + 1
                        };
                        if e0 <= s.len() {
                            crate::text::lemma_digits_end_bounds(s, e0);
                        }
                    }
                }
            }
        }
    }
}

/// A parsed value is storable.
pub proof fn lemma_p_value_ok(s: Seq<char>, i: int, f: nat)
    requires
        0 <= i <= s.len(),
    ensures
        match p_value(s, i, f) {
            Some((rv, j)) => rawv_ok(rv) && i < j <= s.len(),
            None => true,
        },
    decreases f,
{
    if f == 0 {
    } else if i < s.len() && s[i] == '{' {
        lemma_sp_bounds(s, i + 1);
        lemma_p_entries_ok(s, sp(s, i + 1), (f - 1) as nat);
    } else if i < s.len() && s[i] == '[' {
        lemma_sp_bounds(s, i + 1);
        lemma_p_items_ok(s, sp(s, i + 1), (f - 1) as nat, ']');
    } else if i < s.len() && s[i] == '(' {
        lemma_sp_bounds(s, i + 1);
        lemma_p_items_ok(s, sp(s, i + 1), (f - 1) as nat, ')');
    } else {
        lemma_p_scalar_ok(s, i);
    }
}

/// Parsed items are storable.
pub proof fn lemma_p_items_ok(s: Seq<char>, i: int, f: nat, close: char)
    requires
        0 <= i <= s.len(),
    ensures
        match p_items(s, i, f, close) {
            Some((vs, j)) => items_ok(vs) && i <= j <= s.len(),
            None => true,
        },
    decreases f,
{
    if f == 0 {
    } else if i < s.len() && s[i] == close {
        assert(items_ok(Seq::<RawV>::empty()));
    } else {
        lemma_p_value_ok(s, i, (f - 1) as nat);
        match p_value(s, i, (f - 1) as nat) {
            None => {},
            Some((v, j0)) => {
                lemma_sp_bounds(s, j0);
                let j = sp_in(s, j0);
                if j < s.len() && s[j] == ',' {
                    lemma_sp_bounds(s, j + 1);
                    lemma_p_items_ok(s, sp_in(s, j + 1), (f - 1) as nat, close);
                    match p_items(s, sp_in(s, j + 1), (f - 1) as nat, close) {
                        None => {},
                        Some((rest, k)) => {
                            lemma_items_ok(rest);
                            lemma_items_ok(seq![v] + rest);
                            assert forall|t: int| 0 <= t < (seq![v] + rest).len() implies rawv_ok(
                                #[trigger] (seq![v] + rest)[t],
                            ) by {
                                if t == 0 {
                                    assert((seq![v] + rest)[0] == v);
                                } else {
                                    assert((seq![v] + rest)[t] == rest[t - 1]);
                                }
                            }
                        },
                    }
                } else {
                    lemma_items_ok(seq![v]);
                    assert((seq![v])[0] == v);
                }
            },
        }
    }
}

/// Parsed entries are storable, validly and distinctly named.
pub proof fn lemma_p_entries_ok(s: Seq<char>, i: int, f: nat)
    requires
        0 <= i <= s.len(),
    ensures
        match p_entries(s, i, f) {
            Some((es, j)) => {
                &&& entries_ok(es)
                &&& i <= j <= s.len()
                &&& (forall|k: int|
                    0 <= k < es.len() ==> crate::text::is_name((#[trigger] es[k]).0))
                &&& (forall|k1: int, k2: int|
                    0 <= k1 < es.len() && 0 <= k2 < es.len() && k1 != k2 ==> (
                    #[trigger] es[k1]).0 != (#[trigger] es[k2]).0)
            },
            None => true,
        },
    decreases f,
{
    if f == 0 {
    } else if i < s.len() && is_name_start(s[i]) {
        lemma_name_end_bounds(s, i);
        let ne = name_end(s, i);
        let nm = s.subrange(i, ne);
        assert(ne > i) by {
            assert(is_name_char(s[i]));
        }
        assert(crate::text::is_name(nm)) by {
            assert(nm[0] == s[i]);
            assert forall|t: int| 0 < t < nm.len() implies is_name_char(#[trigger] nm[t]) by {
                assert(nm[t] == s[i + t]);
            }
        }
        lemma_sp_bounds(s, ne);
        let k = sp_in(s, ne);
        if k < s.len() && (s[k] == '=' || s[k] == ':') {
            lemma_sp_bounds(s, k + 1);
            lemma_p_value_ok(s, sp_in(s, k + 1), (f - 1) as nat);
            match p_value(s, sp_in(s, k + 1), (f - 1) as nat) {
                None => {},
                Some((v, j0)) => {
                    lemma_sp_bounds(s, j0);
                    let j = sp_in(s, j0);
                    if j < s.len() && s[j] == ';' {
                        lemma_sp_bounds(s, j + 1);
                        lemma_p_entries_ok(s, sp_in(s, j + 1), (f - 1) as nat);
                        match p_entries(s, sp_in(s, j + 1), (f - 1) as nat) {
                            None => {},
                            Some((rest, k2)) => {
                                if !entries_contain(rest, nm) {
                                    let es = seq![(nm, v)] + rest;
                                    lemma_entries_ok(rest);
                                    lemma_entries_ok(es);
                                    assert forall|t: int| 0 <= t < es.len() implies rawv_ok(
                                        (#[trigger] es[t]).1,
                                    ) && crate::text::is_name(es[t].0) by {
                                        if t == 0 {
                                            assert(es[0] == (nm, v));
                                        } else {
                                            assert(es[t] == rest[t - 1]);
                                        }
                                    }
                                    assert forall|k1: int, t2: int|
                                        0 <= k1 < es.len() && 0 <= t2 < es.len() && k1
                                            != t2 implies (#[trigger] es[k1]).0 != (
                                        #[trigger] es[t2]).0 by {
                                        if k1 == 0 {
                                            assert(es[t2] == rest[t2 - 1]);
                                            assert(!((rest[t2 - 1]).0 == nm));
                                        } else if t2 == 0 {
                                            assert(es[k1] == rest[k1 - 1]);
                                            assert(!((rest[k1 - 1]).0 == nm));
                                        } else {
                                            assert(es[k1] == rest[k1 - 1]);
                                            assert(es[t2] == rest[t2 - 1]);
                                        }
                                    }
                                }
                            },
                        }
                    }
                },
            }
        }
    } else {
    }
}

/// The whole document: settings from the start to the end of the
/// text.  `None` on any malformed text.
pub open spec fn parse_doc(s: Seq<char>) -> Option<Seq<(Seq<char>, RawV)>> {
    match p_entries(s, sp(s, 0), fuel_for(s.len())) {
        None => None,
        Some((es, j)) => if j == s.len() {
            Some(es)
        } else {
            None
        },
    }
}

/// Index just past the whitespace and `#` line comments from `i` on.
pub fn sp_at(v: &Vec<char>, i: usize) -> (r: usize)
    requires
        i <= v@.len(),
    ensures
        r == sp(v@, i as int),
        i <= r <= v@.len(),
    decreases v@.len() - i, 0int,
{
    proof {
        lemma_sp_bounds(v@, i as int);
    }
    if i < v.len() {
        let c = v[i];
        if c == ' ' || c == '\t' || c == '\n' || c == '\r' {
            return sp_at(v, i + 1);
        }
        if c == '#' {
            return sp_comment_at(v, i + 1);
        }
    }
    i
}

/// Index just past the rest of a line comment.
pub fn sp_comment_at(v: &Vec<char>, i: usize) -> (r: usize)
    requires
        i <= v@.len(),
    ensures
        r == sp_comment(v@, i as int),
        i <= r <= v@.len(),
    decreases v@.len() - i, 1int,
{
    proof {
        lemma_sp_comment_bounds(v@, i as int);
    }
    if i >= v.len() {
        i
    } else if v[i] == '\n' {
        sp_at(v, i + 1)
    } else {
        sp_comment_at(v, i + 1)
    }
}

/// Index just past the run of name characters starting at `i`.
pub fn name_end_at(v: &Vec<char>, i: usize) -> (r: usize)
    requires
        i <= v@.len(),
    ensures
        r == name_end(v@, i as int),
        i <= r <= v@.len(),
    decreases v@.len() - i,
{
    proof {
        lemma_name_end_bounds(v@, i as int);
    }
    if i < v.len() {
        let c = v[i];
        let u = c as u32;
        if c == '_' || c == '-' || c == '*' || (65 <= u && u <= 90) || (97 <= u && u <= 122) || (
        48 <= u && u <= 57) {
            return name_end_at(v, i + 1);
        }
    }
    i
}

/// Index just past the run of hexadecimal digits starting at `i`.
pub fn hex_end_at(v: &Vec<char>, i: usize) -> (r: usize)
    requires
        i <= v@.len(),
    ensures
        r == hex_end(v@, i as int),
        i <= r <= v@.len(),
    decreases v@.len() - i,
{
    proof {
        lemma_hex_end_bounds(v@, i as int);
    }
    if i < v.len() {
        let c = v[i];
        let u = c as u32;
        if (48 <= u && u <= 57) || (97 <= u && u <= 102) || (65 <= u && u <= 70) {
            return hex_end_at(v, i + 1);
        }
    }
    i
}

/// The body of a quoted string from `i` (just past the opening
/// quote).
fn p_string_at(v: &Vec<char>, i: usize) -> (r: Option<(Vec<char>, usize)>)
    requires
        i <= v@.len(),
    ensures
        match p_string_body(v@, i as int) {
            None => r is None,
            Some((t, j)) => r matches Some((rt, rj)) && rt@ == t && rj == j && i < rj
                <= v@.len(),
        },
    decreases v@.len() - i,
{
    proof {
        lemma_p_string_bounds(v@, i as int);
    }
    if i >= v.len() {
        return None;
    }
    let c = v[i];
    if c == '"' {
        return Some((Vec::new(), i + 1));
    }
    if c == '\\' {
        if i + 1 < v.len() {
            let e = v[i + 1];
            let cc: char;
            if e == '\\' {
                cc = '\\';
            } else if e == '"' {
                cc = '"';
            } else if e == 'n' {
                cc = '\n';
            } else if e == 't' {
                cc = '\t';
            } else if e == 'r' {
                cc = '\r';
            } else {
                return None;
            }
            match p_string_at(v, i + 2) {
                None => None,
                Some((mut t, j)) => {
                    t.insert(0, cc);
                    proof {
                        let spec_pair = p_string_body(v@, i + 2)->0;
                        let spec_t = spec_pair.0;
                        assert(t@ =~= seq![cc] + spec_t);
                    }
                    Some((t, j))
                },
            }
        } else {
            None
        }
    } else {
        match p_string_at(v, i + 1) {
            None => None,
            Some((mut t, j)) => {
                t.insert(0, c);
                proof {
                    let spec_pair = p_string_body(v@, i + 1)->0;
                        let spec_t = spec_pair.0;
                    assert(t@ =~= seq![c] + spec_t);
                }
                Some((t, j))
            },
        }
    }
}

/// The 32-bit two's-complement value of a bit pattern.
fn bits_to_i32(v: u32) -> (r: i32)
    ensures
        r as int == bits32_value(v as nat),
{
    if v <= 0x7FFF_FFFF {
        v as i32
    } else {
        ((v as i64) - 0x1_0000_0000i64) as i32
    }
}

/// The 64-bit two's-complement value of a bit pattern.
fn bits_to_i64(v: u64) -> (r: i64)
    ensures
        r as int == bits64_value(v as nat),
{
    if v <= 0x7FFF_FFFF_FFFF_FFFFu64 {
        v as i64
    } else {
        -((u64::MAX - v) as i64) - 1
    }
}

/// A number token at `i`.
fn p_number_at(v: &Vec<char>, i: usize) -> (r: Option<(Value, Format, usize)>)
    requires
        i <= v@.len(),
    ensures
        match p_number(v@, i as int) {
            None => r is None,
            Some((vv, fmt, j)) => r matches Some((rv, rf, rj)) && rv@ == vv && rf == fmt && rj
                == j && i < rj <= v@.len(),
        },
{
    let neg = i < v.len() && v[i] == '-';
    let i0 = if neg {
        i + 1
    } else {
        i
    };
    proof {
        crate::text::lemma_digits_end_bounds(v@, i0 as int);
    }
    if !neg && i0 < v.len() && v.len() - i0 >= 2 && v[i0] == '0' && v[i0 + 1] == 'x' {
        let h0 = i0 + 2;
        let h1 = hex_end_at(v, h0);
        if h1 == h0 {
            return None;
        }
        proof {
            lemma_hex_end_bounds(v@, h0 as int);
        }
        let hv = crate::num::hex_to_u64(v, h0, h1);
        if h1 < v.len() && v[h1] == 'L' {
            match hv {
                None => None,
                Some(h) => Some((Value::Int64Val(bits_to_i64(h)), Format::FormatHex, h1 + 1)),
            }
        } else {
            match hv {
                None => None,
                Some(h) => {
                    if h <= u32::MAX as u64 {
                        Some((Value::IntVal(bits_to_i32(h as u32)), Format::FormatHex, h1))
                    } else {
                        Some((Value::Int64Val(bits_to_i64(h)), Format::FormatHex, h1))
                    }
                },
            }
        }
    } else {
        let d1 = crate::text::digits_end_at(v, i0);
        if d1 == i0 {
            return None;
        }
        let isf_dot = d1 < v.len() && v[d1] == '.';
        let isf_exp = d1 < v.len() && (v[d1] == 'e' || v[d1] == 'E');
        if isf_dot || isf_exp {
            let d2 = if isf_dot {
                crate::text::digits_end_at(v, d1 + 1)
            } else {
                d1
            };
            let fend: usize;
            if d2 < v.len() && (v[d2] == 'e' || v[d2] == 'E') {
                let e0 = if d2 + 1 < v.len() && (v[d2 + 1] == '-' || v[d2 + 1] == '+') {
                    d2 + 2
                } else {
                    d2 + 1
                };
                let e1 = crate::text::digits_end_at(v, e0);
                if e1 == e0 {
                    return None;
                }
                fend = e1;
            } else {
                if !isf_dot {
                    return None;
                }
                fend = d2;
            }
            let txt = crate::path::subvec(v, i, fend);
            if !crate::text::check_float_lit(&txt) {
                return None;
            }
            let t = crate::text::chars_to_string(&txt);
            Some((Value::FloatVal(t), Format::FormatDefault, fend))
        } else {
            let m = match crate::num::dec_to_u64(v, i0, d1) {
                None => {
                    proof {
                        assert(dec_val(v@.subrange(i0 as int, d1 as int)) > u64::MAX);
                    }
                    return None;
                },
                Some(m) => m,
            };
            let has_l = d1 < v.len() && v[d1] == 'L';
            let j = if has_l {
                d1 + 1
            } else {
                d1
            };
            if neg {
                if !has_l && m <= 0x8000_0000u64 {
                    let x: i64 = -(m as i64);
                    Some((Value::IntVal(x as i32), Format::FormatDefault, j))
                } else if m <= 0x8000_0000_0000_0000u64 {
                    let x: i64 = if m == 0x8000_0000_0000_0000u64 {
                        i64::MIN
                    } else {
                        -(m as i64)
                    };
                    Some((Value::Int64Val(x), Format::FormatDefault, j))
                } else {
                    None
                }
            } else {
                if !has_l && m <= 0x7FFF_FFFFu64 {
                    Some((Value::IntVal(m as i32), Format::FormatDefault, j))
                } else if m <= 0x7FFF_FFFF_FFFF_FFFFu64 {
                    Some((Value::Int64Val(m as i64), Format::FormatDefault, j))
                } else {
                    None
                }
            }
        }
    }
}

/// A scalar token at `i`: boolean, string, or number.
fn p_scalar_at(v: &Vec<char>, i: usize) -> (r: Option<(Value, Format, usize)>)
    requires
        i <= v@.len(),
    ensures
        match p_scalar(v@, i as int) {
            None => r is None,
            Some((vv, fmt, j)) => r matches Some((rv, rf, rj)) && rv@ == vv && rf == fmt && rj
                == j && i < rj <= v@.len(),
        },
{
    if i < v.len() && v[i] == '"' {
        match p_string_at(v, i + 1) {
            None => None,
            Some((t, j)) => Some((Value::StrVal(crate::text::chars_to_string(&t)), Format::FormatDefault, j)),
        }
    } else if v.len() >= 4 && i <= v.len() - 4 && v[i] == 't' && v[i + 1] == 'r' && v[i + 2]
        == 'u' && v[i + 3] == 'e' {
        proof {
            assert(v@.subrange(i as int, i + 4) =~= seq!['t', 'r', 'u', 'e']);
        }
        Some((Value::BoolVal(true), Format::FormatDefault, i + 4))
    } else if v.len() >= 5 && i <= v.len() - 5 && v[i] == 'f' && v[i + 1] == 'a' && v[i + 2]
        == 'l' && v[i + 3] == 's' && v[i + 4] == 'e' {
        proof {
            assert(v@.subrange(i as int, i + 5) =~= seq!['f', 'a', 'l', 's', 'e']);
            assert(!(i + 4 <= v@.len() && v@.subrange(i as int, i + 4) == seq![
                't', 'r', 'u', 'e',
            ])) by {
                if i + 4 <= v@.len() && v@.subrange(i as int, i + 4) == seq!['t', 'r', 'u', 'e'] {
                    assert(v@.subrange(i as int, i + 4)[0] == 't');
                }
            }
        }
        Some((Value::BoolVal(false), Format::FormatDefault, i + 5))
    } else {
        proof {
            if i + 4 <= v@.len() && v@.subrange(i as int, i + 4) == seq!['t', 'r', 'u', 'e'] {
                assert(v@.subrange(i as int, i + 4)[0] == 't');
                assert(v@.subrange(i as int, i + 4)[1] == 'r');
                assert(v@.subrange(i as int, i + 4)[2] == 'u');
                assert(v@.subrange(i as int, i + 4)[3] == 'e');
            }
            if i + 5 <= v@.len() && v@.subrange(i as int, i + 5) == seq![
                'f', 'a', 'l', 's', 'e',
            ] {
                assert(v@.subrange(i as int, i + 5)[0] == 'f');
                assert(v@.subrange(i as int, i + 5)[1] == 'a');
                assert(v@.subrange(i as int, i + 5)[2] == 'l');
                assert(v@.subrange(i as int, i + 5)[3] == 's');
                assert(v@.subrange(i as int, i + 5)[4] == 'e');
            }
        }
        p_number_at(v, i)
    }
}

/// Whether the items are scalars of one uniform kind.
fn check_array(items: &Vec<RawValue>) -> (r: bool)
    ensures
        r == array_ok(raw_views(items@)),
{
    proof {
        lemma_raw_views(items@);
    }
    if items.len() == 0 {
        return true;
    }
    let k0 = match &items[0] {
        RawValue::Scalar(vv, _) => vv.kind(),
        _ => {
            proof {
                assert(!array_ok(raw_views(items@))) by {
                    assert(!(raw_views(items@)[0] matches RawV::ScalarV(v1, f1)));
                }
            }
            return false;
        },
    };
    let mut m: usize = 1;
    while m < items.len()
        invariant
            1 <= m <= items@.len(),
            raw_views(items@).len() == items@.len(),
            forall|t: int|
                0 <= t < items@.len() ==> raw_views(items@)[t] == raw_view(#[trigger] items@[t]),
            (raw_views(items@)[0] matches RawV::ScalarV(v1, f1) && vkind(v1) == k0),
            forall|t: int|
                0 <= t < m ==> ((#[trigger] raw_views(items@)[t]) matches RawV::ScalarV(v1, f1)
                    && vkind(v1) == k0),
        decreases items@.len() - m,
    {
        match &items[m] {
            RawValue::Scalar(vv, _) => {
                if !(vv.kind() == k0) {
                    proof {
                        assert(!array_ok(raw_views(items@))) by {
                            assert(raw_views(items@)[m as int] matches RawV::ScalarV(v2, f2)
                                && vkind(v2) != k0);
                        }
                    }
                    return false;
                }
            },
            _ => {
                proof {
                    assert(!array_ok(raw_views(items@))) by {
                        assert(!(raw_views(items@)[m as int] matches RawV::ScalarV(v1, f1)));
                    }
                }
                return false;
            },
        }
        m = m + 1;
    }
    proof {
        assert(array_ok(raw_views(items@)));
    }
    true
}

/// A value at `i` (whitespace already skipped).
fn p_value_at(v: &Vec<char>, i: usize, f: Ghost<nat>) -> (r: Option<(RawValue, usize)>)
    requires
        i <= v@.len(),
        f@ >= 3 * (v@.len() - i) + 4,
    ensures
        match p_value(v@, i as int, f@) {
            None => r is None,
            Some((rv, j)) => r matches Some((x, rj)) && raw_view(x) == rv && rj == j && i < rj
                <= v@.len(),
        },
    decreases v@.len() - i, 0int,
{
    if i < v.len() && v[i] == '{' {
        let j0 = sp_at(v, i + 1);
        match p_entries_at(v, j0, Ghost((f@ - 1) as nat)) {
            None => None,
            Some((es, j)) => {
                if j < v.len() && v[j] == '}' {
                    Some((RawValue::Group(es), j + 1))
                } else {
                    None
                }
            },
        }
    } else if i < v.len() && v[i] == '[' {
        let j0 = sp_at(v, i + 1);
        match p_items_at(v, j0, Ghost((f@ - 1) as nat), ']') {
            None => None,
            Some((xs, j)) => {
                if j < v.len() && v[j] == ']' && check_array(&xs) {
                    Some((RawValue::Array(xs), j + 1))
                } else {
                    None
                }
            },
        }
    } else if i < v.len() && v[i] == '(' {
        let j0 = sp_at(v, i + 1);
        match p_items_at(v, j0, Ghost((f@ - 1) as nat), ')') {
            None => None,
            Some((xs, j)) => {
                if j < v.len() && v[j] == ')' {
                    Some((RawValue::List(xs), j + 1))
                } else {
                    None
                }
            },
        }
    } else {
        match p_scalar_at(v, i) {
            None => None,
            Some((vv, fmt, j)) => Some((RawValue::Scalar(vv, fmt), j)),
        }
    }
}

/// Comma-separated values up to the closing character.
fn p_items_at(v: &Vec<char>, i: usize, f: Ghost<nat>, close: char) -> (r: Option<
    (Vec<RawValue>, usize),
>)
    requires
        i <= v@.len(),
        f@ >= 3 * (v@.len() - i) + 5,
    ensures
        match p_items(v@, i as int, f@, close) {
            None => r is None,
            Some((vs, j)) => r matches Some((xs, rj)) && raw_views(xs@) == vs && rj == j && i
                <= rj <= v@.len(),
        },
    decreases v@.len() - i, 1int,
{
    if i < v.len() && v[i] == close {
        let xs: Vec<RawValue> = Vec::new();
        proof {
            assert(raw_views(xs@) =~= Seq::<RawV>::empty());
        }
        return Some((xs, i));
    }
    match p_value_at(v, i, Ghost((f@ - 1) as nat)) {
        None => None,
        Some((x, j0)) => {
            let j = sp_at(v, j0);
            proof {
                assert(sp_in(v@, j0 as int) == sp(v@, j0 as int));
            }
            if j < v.len() && v[j] == ',' {
                let i2 = sp_at(v, j + 1);
                match p_items_at(v, i2, Ghost((f@ - 1) as nat), close) {
                    None => None,
                    Some((mut xs, k)) => {
                        let ghost old_xs = xs@;
                        xs.insert(0, x);
                        proof {
                            lemma_raw_views(old_xs);
                            lemma_raw_views(xs@);
                            assert forall|t: int| 0 <= t < xs@.len() implies raw_views(xs@)[t]
                                == (seq![raw_view(x)] + raw_views(old_xs))[t] by {
                                if t == 0 {
                                    assert(xs@[0] == x);
                                } else {
                                    assert(xs@[t] == old_xs[t - 1]);
                                    assert((seq![raw_view(x)] + raw_views(old_xs))[t]
                                        == raw_views(old_xs)[t - 1]);
                                }
                            }
                            assert(raw_views(xs@) =~= seq![raw_view(x)] + raw_views(old_xs));
                        }
                        Some((xs, k))
                    },
                }
            } else {
                let mut xs: Vec<RawValue> = Vec::new();
                xs.push(x);
                proof {
                    lemma_raw_views(xs@);
                    assert(raw_views(xs@) =~= seq![raw_view(x)]);
                }
                Some((xs, j))
            }
        },
    }
}

/// Settings `name = value;` as long as a name follows.
fn p_entries_at(v: &Vec<char>, i: usize, f: Ghost<nat>) -> (r: Option<
    (Vec<(String, RawValue)>, usize),
>)
    requires
        i <= v@.len(),
        f@ >= 3 * (v@.len() - i) + 6,
    ensures
        match p_entries(v@, i as int, f@) {
            None => r is None,
            Some((es, j)) => r matches Some((xs, rj)) && entry_views(xs@) == es && rj == j && i
                <= rj <= v@.len(),
        },
    decreases v@.len() - i, 2int,
{
    let starts = i < v.len() && {
        let c = v[i];
        let u = c as u32;
        c == '_' || c == '*' || (65 <= u && u <= 90) || (97 <= u && u <= 122)
    };
    if !starts {
        let xs: Vec<(String, RawValue)> = Vec::new();
        proof {
            assert(entry_views(xs@) =~= Seq::<(Seq<char>, RawV)>::empty());
        }
        return Some((xs, i));
    }
    let ne = name_end_at(v, i);
    proof {
        assert(is_name_char(v@[i as int]));
        assert(ne > i) by {
            lemma_name_end_bounds(v@, i as int);
            assert(name_end(v@, i as int) == name_end(v@, i + 1));
        }
    }
    let k = sp_at(v, ne);
    if !(k < v.len() && (v[k] == '=' || v[k] == ':')) {
        return None;
    }
    proof {
        assert(sp_in(v@, ne as int) == sp(v@, ne as int));
    }
    let vstart = sp_at(v, k + 1);
    proof {
        assert(sp_in(v@, k + 1) == sp(v@, k + 1));
    }
    match p_value_at(v, vstart, Ghost((f@ - 1) as nat)) {
        None => None,
        Some((x, j0)) => {
            let j = sp_at(v, j0);
            proof {
                assert(sp_in(v@, j0 as int) == sp(v@, j0 as int));
            }
            if !(j < v.len() && v[j] == ';') {
                return None;
            }
            let nxt = sp_at(v, j + 1);
            proof {
                assert(sp_in(v@, j + 1) == sp(v@, j + 1));
            }
            match p_entries_at(v, nxt, Ghost((f@ - 1) as nat)) {
                None => None,
                Some((mut xs, k2)) => {
                    let nm = crate::text::chars_to_string(&crate::path::subvec(v, i, ne));
                    proof {
                        lemma_entry_views(xs@);
                    }
                    let ghost spec_nm = v@.subrange(i as int, ne as int);
                    let ghost spec_rest = entry_views(xs@);
                    proof {
                        assert(entries_contain(spec_rest, spec_nm) ==> p_entries(
                            v@,
                            i as int,
                            f@,
                        ) is None);
                        assert(!entries_contain(spec_rest, spec_nm) ==> p_entries(
                            v@,
                            i as int,
                            f@,
                        ) == Some((seq![(spec_nm, raw_view(x))] + spec_rest, k2 as int)));
                    }
                    let mut m: usize = 0;
                    while m < xs.len()
                        invariant
                            m <= xs@.len(),
                            nm@ == spec_nm,
                            spec_rest == entry_views(xs@),
                            entries_contain(spec_rest, spec_nm) ==> p_entries(
                                v@,
                                i as int,
                                f@,
                            ) is None,
                            !entries_contain(spec_rest, spec_nm) ==> p_entries(v@, i as int, f@)
                                == Some((seq![(spec_nm, raw_view(x))] + spec_rest, k2 as int)),
                            entry_views(xs@).len() == xs@.len(),
                            forall|t: int|
                                0 <= t < xs@.len() ==> entry_views(xs@)[t] == ((
                                #[trigger] xs@[t]).0@, raw_view(xs@[t].1)),
                            forall|t: int|
                                0 <= t < m ==> (#[trigger] entry_views(xs@)[t]).0 != nm@,
                        decreases xs@.len() - m,
                    {
                        if xs[m].0 == nm {
                            proof {
                                assert(entries_contain(entry_views(xs@), nm@)) by {
                                    assert((entry_views(xs@)[m as int]).0 == nm@);
                                }
                            }
                            return None;
                        }
                        m = m + 1;
                    }
                    proof {
                        assert(!entries_contain(entry_views(xs@), nm@));
                    }
                    let ghost old_xs = xs@;
                    let ghost nm_view = nm@;
                    xs.insert(0, (nm, x));
                    proof {
                        lemma_entry_views(old_xs);
                        lemma_entry_views(xs@);
                        assert forall|t: int| 0 <= t < xs@.len() implies entry_views(xs@)[t] == (
                        seq![(nm_view, raw_view(x))] + entry_views(old_xs))[t] by {
                            if t == 0 {
                                assert(xs@[0].0@ == nm_view && xs@[0].1 == x);
                            } else {
                                assert(xs@[t] == old_xs[t - 1]);
                                assert((seq![(nm_view, raw_view(x))] + entry_views(old_xs))[t]
                                    == entry_views(old_xs)[t - 1]);
                            }
                        }
                        assert(entry_views(xs@) =~= seq![(nm_view, raw_view(x))] + entry_views(
                            old_xs,
                        ));
                    }
                    Some((xs, k2))
                },
            }
        },
    }
}

/// The whole document: settings from the start to the end of the
/// text.
pub fn parse_doc_at(v: &Vec<char>) -> (r: Option<Vec<(String, RawValue)>>)
    ensures
        match parse_doc(v@) {
            None => r is None,
            Some(es) => r matches Some(xs) && entry_views(xs@) == es,
        },
{
    let s0 = sp_at(v, 0);
    match p_entries_at(v, s0, Ghost(fuel_for(v@.len()))) {
        None => None,
        Some((xs, j)) => {
            if j == v.len() {
                Some(xs)
            } else {
                None
            }
        },
    }
}

} // verus!
