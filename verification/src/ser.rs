//! Writing a raw settings tree back to configuration text.

use vstd::prelude::*;

use crate::num::dec_digits;
use crate::num::hex_digits;
use crate::parse::RawV;
use crate::parse::RawValue;
use crate::parse::entry_views;
use crate::parse::raw_view;
use crate::parse::raw_views;
use crate::types::Format;
use crate::types::Value;
use crate::types::ValueV;

verus! {

/// The characters that stand for one string character in a quoted
/// string: the escapes the grammar knows, or the character itself.
pub open spec fn esc_char(c: char) -> Seq<char> {
    if c == '\\' {
        seq!['\\', '\\']
    } else if c == '"' {
        seq!['\\', '"']
    } else if c == '\n' {
        seq!['\\', 'n']
    } else if c == '\t' {
        seq!['\\', 't']
    } else if c == '\r' {
        seq!['\\', 'r']
    } else {
        seq![c]
    }
}

/// A string body, escaped.
pub open spec fn esc(t: Seq<char>) -> Seq<char>
    decreases t.len(),
{
    if t.len() == 0 {
        Seq::empty()
    } else {
        esc(t.drop_last()) + esc_char(t.last())
    }
}

/// The numeral of a 32-bit value: decimal, or its bit pattern in
/// hexadecimal under the hex display hint.
pub open spec fn ser_i32(n: int, fmt: Format) -> Seq<char> {
    if fmt == Format::FormatHex {
        seq!['0', 'x'] + hex_digits(
            if n >= 0 {
                n as nat
            } else {
                (n + 0x1_0000_0000) as nat
            },
        )
    } else {
        if n < 0 {
            seq!['-'] + dec_digits((-n) as nat)
        } else {
            dec_digits(n as nat)
        }
    }
}

/// The numeral of a 64-bit value, with its `L` suffix.
pub open spec fn ser_i64(n: int, fmt: Format) -> Seq<char> {
    if fmt == Format::FormatHex {
        seq!['0', 'x'] + hex_digits(
            if n >= 0 {
                n as nat
            } else {
                (n + 0x1_0000_0000_0000_0000) as nat
            },
        ) + seq!['L']
    } else {
        if n < 0 {
            seq!['-'] + dec_digits((-n) as nat) + seq!['L']
        } else {
            dec_digits(n as nat) + seq!['L']
        }
    }
}

/// The text of one scalar value.
pub open spec fn ser_scalar(v: ValueV, fmt: Format) -> Seq<char> {
    match v {
        ValueV::IntV(n) => ser_i32(n, fmt),
        ValueV::Int64V(n) => ser_i64(n, fmt),
        ValueV::FloatV(t) => t,
        ValueV::StrV(t) => seq!['"'] + esc(t) + seq!['"'],
        ValueV::BoolV(b) => if b {
            seq!['t', 'r', 'u', 'e']
        } else {
            seq!['f', 'a', 'l', 's', 'e']
        },
    }
}

/// The text of one value.
pub open spec fn ser_value(rv: RawV) -> Seq<char>
    decreases rv, 0int,
{
    match rv {
        RawV::ScalarV(v, fmt) => ser_scalar(v, fmt),
        RawV::GroupV(es) => seq!['{', ' '] + ser_entries(es) + seq!['}'],
        RawV::ArrayV(vs) => seq!['[', ' '] + ser_items(vs) + seq![']'],
        RawV::ListV(vs) => seq!['(', ' '] + ser_items(vs) + seq![')'],
    }
}

/// The text of a sequence of settings, each `name = value; `.
pub open spec fn ser_entries(es: Seq<(Seq<char>, RawV)>) -> Seq<char>
    decreases es, 1int,
{
    if es.len() == 0 {
        Seq::empty()
    } else {
        ser_entries(es.drop_last()) + es.last().0 + seq![' ', '=', ' '] + ser_value(es.last().1)
            + seq![';', ' ']
    }
}

/// The text of the values before the last one, each `value, `.
pub open spec fn ser_items_pre(vs: Seq<RawV>) -> Seq<char>
    decreases vs, 1int,
{
    if vs.len() == 0 {
        Seq::empty()
    } else {
        ser_items_pre(vs.drop_last()) + ser_value(vs.last()) + seq![',', ' ']
    }
}

/// The text of a sequence of values, comma-separated, space-ended.
pub open spec fn ser_items(vs: Seq<RawV>) -> Seq<char>
    decreases vs, 2int,
{
    if vs.len() == 0 {
        Seq::empty()
    } else {
        ser_items_pre(vs.drop_last()) + ser_value(vs.last()) + seq![' ']
    }
}

/// Appends the characters of `src`.
fn push_all(dst: &mut Vec<char>, src: &Vec<char>)
    ensures
        final(dst)@ == old(dst)@ + src@,
{
    let mut j: usize = 0;
    let ghost base = old(dst)@;
    while j < src.len()
        invariant
            j <= src@.len(),
            dst@ == base + src@.subrange(0, j as int),
        decreases src@.len() - j,
    {
        dst.push(src[j]);
        proof {
            assert(dst@ =~= base + src@.subrange(0, j + 1));
        }
        j = j + 1;
    }
    proof {
        assert(src@.subrange(0, src@.len() as int) =~= src@);
        assert(dst@ =~= base + src@);
    }
}

/// Appends one character.
fn push_one(dst: &mut Vec<char>, c: char)
    ensures
        final(dst)@ == old(dst)@ + seq![c],
{
    dst.push(c);
    proof {
        assert(dst@ =~= old(dst)@ + seq![c]);
    }
}

/// Appends the escaped body of a string value.
fn push_esc(dst: &mut Vec<char>, t: &String)
    ensures
        final(dst)@ == old(dst)@ + esc(t@),
{
    let chars = crate::text::str_to_chars(t.as_str());
    let mut j: usize = 0;
    let ghost base = old(dst)@;
    while j < chars.len()
        invariant
            j <= chars@.len(),
            chars@ == t@,
            dst@ == base + esc(t@.subrange(0, j as int)),
        decreases chars@.len() - j,
    {
        let c = chars[j];
        if c == '\\' {
            dst.push('\\');
            dst.push('\\');
        } else if c == '"' {
            dst.push('\\');
            dst.push('"');
        } else if c == '\n' {
            dst.push('\\');
            dst.push('n');
        } else if c == '\t' {
            dst.push('\\');
            dst.push('t');
        } else if c == '\r' {
            dst.push('\\');
            dst.push('r');
        } else {
            dst.push(c);
        }
        proof {
            let pre = t@.subrange(0, j as int);
            let cur = t@.subrange(0, j + 1);
            assert(cur.drop_last() =~= pre);
            assert(cur.last() == c);
            assert(dst@ =~= base + esc(pre) + esc_char(c));
        }
        j = j + 1;
    }
    proof {
        assert(t@.subrange(0, t@.len() as int) =~= t@);
    }
}

/// Appends the numeral of a 32-bit value.
fn push_i32(dst: &mut Vec<char>, n: i32, fmt: Format)
    ensures
        final(dst)@ == old(dst)@ + ser_i32(n as int, fmt),
{
    if matches!(fmt, Format::FormatHex) {
        dst.push('0');
        dst.push('x');
        let bits: u32 = if n >= 0 {
            n as u32
        } else {
            ((n as i64) + 0x1_0000_0000i64) as u32
        };
        let digits = crate::num::u64_to_hex(bits as u64);
        push_all(dst, &digits);
        proof {
            assert(dst@ =~= old(dst)@ + ser_i32(n as int, fmt));
        }
    } else {
        if n < 0 {
            dst.push('-');
            let m: u64 = (-(n as i64)) as u64;
            let digits = crate::num::u64_to_dec(m);
            push_all(dst, &digits);
            proof {
                assert(dst@ =~= old(dst)@ + ser_i32(n as int, fmt));
            }
        } else {
            let digits = crate::num::u64_to_dec(n as u64);
            push_all(dst, &digits);
            proof {
                assert(dst@ =~= old(dst)@ + ser_i32(n as int, fmt));
            }
        }
    }
}

/// Appends the numeral of a 64-bit value, with its `L` suffix.
fn push_i64(dst: &mut Vec<char>, n: i64, fmt: Format)
    ensures
        final(dst)@ == old(dst)@ + ser_i64(n as int, fmt),
{
    if matches!(fmt, Format::FormatHex) {
        dst.push('0');
        dst.push('x');
        let bits: u64 = if n >= 0 {
            n as u64
        } else if n >= -0x7FFF_FFFF_FFFF_FFFFi64 {
            (0x8000_0000_0000_0000u64 + ((n + 0x7FFF_FFFF_FFFF_FFFFi64 + 1) as u64))
        } else {
            0x8000_0000_0000_0000u64
        };
        proof {
            assert(bits as int == if (n as int) >= 0 {
                n as int
            } else {
                (n as int) + 0x1_0000_0000_0000_0000
            });
        }
        let digits = crate::num::u64_to_hex(bits);
        push_all(dst, &digits);
        dst.push('L');
        proof {
            assert(dst@ =~= old(dst)@ + ser_i64(n as int, fmt));
        }
    } else {
        if n < 0 {
            dst.push('-');
            let m: u64 = if n == i64::MIN {
                0x8000_0000_0000_0000u64
            } else {
                (-n) as u64
            };
            let digits = crate::num::u64_to_dec(m);
            push_all(dst, &digits);
            dst.push('L');
            proof {
                assert(dst@ =~= old(dst)@ + ser_i64(n as int, fmt));
            }
        } else {
            let digits = crate::num::u64_to_dec(n as u64);
            push_all(dst, &digits);
            dst.push('L');
            proof {
                assert(dst@ =~= old(dst)@ + ser_i64(n as int, fmt));
            }
        }
    }
}

/// Appends the text of one scalar value.
fn push_scalar(dst: &mut Vec<char>, v: &Value, fmt: Format)
    ensures
        final(dst)@ == old(dst)@ + ser_scalar(v@, fmt),
{
    match v {
        Value::IntVal(n) => push_i32(dst, *n, fmt),
        Value::Int64Val(n) => push_i64(dst, *n, fmt),
        Value::FloatVal(t) => {
            let chars = crate::text::str_to_chars(t.as_str());
            push_all(dst, &chars);
        },
        Value::StrVal(t) => {
            dst.push('"');
            push_esc(dst, t);
            dst.push('"');
            proof {
                assert(dst@ =~= old(dst)@ + (seq!['"'] + esc(t@) + seq!['"']));
            }
        },
        Value::BoolVal(b) => {
            if *b {
                dst.push('t');
                dst.push('r');
                dst.push('u');
                dst.push('e');
                proof {
                    assert(dst@ =~= old(dst)@ + seq!['t', 'r', 'u', 'e']);
                }
            } else {
                dst.push('f');
                dst.push('a');
                dst.push('l');
                dst.push('s');
                dst.push('e');
                proof {
                    assert(dst@ =~= old(dst)@ + seq!['f', 'a', 'l', 's', 'e']);
                }
            }
        },
    }
}

/// Appends the text of one value.
pub fn push_value(dst: &mut Vec<char>, rv: &RawValue)
    ensures
        final(dst)@ == old(dst)@ + ser_value(raw_view(*rv)),
    decreases *rv, 0int,
{
    match rv {
        RawValue::Scalar(v, fmt) => {
            push_scalar(dst, v, *fmt);
        },
        RawValue::Group(entries) => {
            dst.push('{');
            dst.push(' ');
            push_entries(dst, entries);
            dst.push('}');
            proof {
                assert(dst@ =~= old(dst)@ + (seq!['{', ' '] + ser_entries(entry_views(entries@))
                    + seq!['}']));
            }
        },
        RawValue::Array(items) => {
            dst.push('[');
            dst.push(' ');
            push_items(dst, items);
            dst.push(']');
            proof {
                assert(dst@ =~= old(dst)@ + (seq!['[', ' '] + ser_items(raw_views(items@))
                    + seq![']']));
            }
        },
        RawValue::List(items) => {
            dst.push('(');
            dst.push(' ');
            push_items(dst, items);
            dst.push(')');
            proof {
                assert(dst@ =~= old(dst)@ + (seq!['(', ' '] + ser_items(raw_views(items@))
                    + seq![')']));
            }
        },
    }
}

/// Appends the text of a sequence of settings.
pub fn push_entries(dst: &mut Vec<char>, entries: &Vec<(String, RawValue)>)
    ensures
        final(dst)@ == old(dst)@ + ser_entries(entry_views(entries@)),
    decreases *entries, 1int,
{
    let ghost base = old(dst)@;
    let ghost es = entry_views(entries@);
    proof {
        crate::parse::lemma_entry_views(entries@);
    }
    let mut k: usize = 0;
    while k < entries.len()
        invariant
            k <= entries@.len(),
            es == entry_views(entries@),
            es.len() == entries@.len(),
            forall|t: int|
                0 <= t < entries@.len() ==> es[t] == ((#[trigger] entries@[t]).0@, raw_view(
                    entries@[t].1,
                )),
            dst@ == base + ser_entries(es.subrange(0, k as int)),
        decreases entries@.len() - k,
    {
        let ghost pre = es.subrange(0, k as int);
        let nm_chars = crate::text::str_to_chars(entries[k].0.as_str());
        push_all(dst, &nm_chars);
        dst.push(' ');
        dst.push('=');
        dst.push(' ');
        proof {
            assert(decreases_to!(*entries => entries@[k as int].1)) by {
                vstd::std_specs::vec::axiom_vec_decreases_to_view(*entries);
                vstd::seq::axiom_seq_index_decreases(entries@, k as int);
            }
        }
        push_value(dst, &entries[k].1);
        dst.push(';');
        dst.push(' ');
        proof {
            let cur = es.subrange(0, k + 1);
            assert(cur.drop_last() =~= pre);
            assert(cur.last() == es[k as int]);
            assert(dst@ =~= base + (ser_entries(pre) + es[k as int].0 + seq![' ', '=', ' ']
                + ser_value(es[k as int].1) + seq![';', ' ']));
            assert(dst@ =~= base + ser_entries(cur));
        }
        k = k + 1;
    }
    proof {
        assert(es.subrange(0, es.len() as int) =~= es);
    }
}

/// Appends the text of a sequence of values.
pub fn push_items(dst: &mut Vec<char>, items: &Vec<RawValue>)
    ensures
        final(dst)@ == old(dst)@ + ser_items(raw_views(items@)),
    decreases *items, 1int,
{
    let ghost base = old(dst)@;
    let ghost vs = raw_views(items@);
    proof {
        crate::parse::lemma_raw_views(items@);
    }
    if items.len() == 0 {
        return ;
    }
    let mut k: usize = 0;
    while k < items.len() - 1
        invariant
            items@.len() >= 1,
            k <= items@.len() - 1,
            vs == raw_views(items@),
            vs.len() == items@.len(),
            forall|t: int| 0 <= t < items@.len() ==> vs[t] == raw_view(#[trigger] items@[t]),
            dst@ == base + ser_items_pre(vs.subrange(0, k as int)),
        decreases items@.len() - k,
    {
        let ghost pre = vs.subrange(0, k as int);
        proof {
            assert(decreases_to!(*items => items@[k as int])) by {
                vstd::std_specs::vec::axiom_vec_decreases_to_view(*items);
                vstd::seq::axiom_seq_index_decreases(items@, k as int);
            }
        }
        push_value(dst, &items[k]);
        dst.push(',');
        dst.push(' ');
        proof {
            let cur = vs.subrange(0, k + 1);
            assert(cur.drop_last() =~= pre);
            assert(cur.last() == vs[k as int]);
            assert(dst@ =~= base + (ser_items_pre(pre) + ser_value(vs[k as int]) + seq![
                ',', ' ',
            ]));
            assert(dst@ =~= base + ser_items_pre(cur));
        }
        k = k + 1;
    }
    proof {
        assert(decreases_to!(*items => items@[k as int])) by {
            vstd::std_specs::vec::axiom_vec_decreases_to_view(*items);
            vstd::seq::axiom_seq_index_decreases(items@, k as int);
        }
    }
    push_value(dst, &items[items.len() - 1]);
    dst.push(' ');
    proof {
        assert(vs.subrange(0, vs.len() - 1) =~= vs.drop_last());
        assert(dst@ =~= base + (ser_items_pre(vs.drop_last()) + ser_value(vs.last()) + seq![
            ' ',
        ]));
        assert(dst@ =~= base + ser_items(vs));
    }
}

/// The text of a whole document: its settings, one after another.
pub fn ser_doc(entries: &Vec<(String, RawValue)>) -> (out: Vec<char>)
    ensures
        out@ == ser_entries(entry_views(entries@)),
{
    let mut out: Vec<char> = Vec::new();
    push_entries(&mut out, entries);
    proof {
        assert(out@ =~= ser_entries(entry_views(entries@)));
    }
    out
}

} // verus!
