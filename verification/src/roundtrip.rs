//! The round-trip law: configuration text written by the serializer
//! reads back as the very tree it was written from.

use vstd::prelude::*;

use crate::num::dec_digits;
use crate::num::dec_val;
use crate::num::hex_digits;
use crate::num::hex_val;
use crate::num::lemma_dec_round_trip;
use crate::num::lemma_hex_round_trip;
use crate::parse::RawV;
use crate::parse::hex_end;
use crate::parse::name_end;
use crate::parse::p_number;
use crate::parse::p_scalar;
use crate::parse::p_string_body;
use crate::parse::sp;
use crate::parse::unescape;
use crate::ser::esc;
use crate::ser::esc_char;
use crate::ser::ser_scalar;
use crate::text::digits_end;
use crate::text::is_digit;
use crate::text::is_hex_digit;
use crate::text::is_name_char;
use crate::text::is_ws;
use crate::types::Format;
use crate::types::ValueV;

verus! {

/// A character that ends every token the writer emits: what follows
/// a value or a name in written text.
pub open spec fn is_stopper(c: char) -> bool {
    c == ';' || c == ',' || c == ' ' || c == '=' || c == ']' || c == ')' || c == '}'
}

/// Skipping whitespace over one written blank: a single space
/// followed by visible text.
pub proof fn lemma_sp_one(s: Seq<char>, i: int)
    requires
        0 <= i < s.len(),
        s[i] == ' ',
        i + 1 == s.len() || (!is_ws(s[i + 1]) && s[i + 1] != '#'),
    ensures
        sp(s, i) == i + 1,
{
    assert(sp(s, i + 1) == i + 1);
}

/// Skipping whitespace where none was written.
pub proof fn lemma_sp_none(s: Seq<char>, i: int)
    requires
        0 <= i <= s.len(),
        i == s.len() || (!is_ws(s[i]) && s[i] != '#'),
    ensures
        sp(s, i) == i,
{
}

/// A digit run embedded in a longer text ends where the stopper
/// begins.
pub proof fn lemma_digits_end_embed(s: Seq<char>, a: int, b: int)
    requires
        0 <= a <= b <= s.len(),
        forall|t: int| a <= t < b ==> is_digit(#[trigger] s[t]),
        b == s.len() || !is_digit(s[b]),
    ensures
        digits_end(s, a) == b,
    decreases b - a,
{
    if a < b {
        lemma_digits_end_embed(s, a + 1, b);
    }
}

/// A hexadecimal digit run embedded in a longer text ends where the
/// stopper begins.
pub proof fn lemma_hex_end_embed(s: Seq<char>, a: int, b: int)
    requires
        0 <= a <= b <= s.len(),
        forall|t: int| a <= t < b ==> is_hex_digit(#[trigger] s[t]),
        b == s.len() || !is_hex_digit(s[b]),
    ensures
        hex_end(s, a) == b,
    decreases b - a,
{
    if a < b {
        lemma_hex_end_embed(s, a + 1, b);
    }
}

/// A name run embedded in a longer text ends where the stopper
/// begins.
pub proof fn lemma_name_end_embed(s: Seq<char>, a: int, b: int)
    requires
        0 <= a <= b <= s.len(),
        forall|t: int| a <= t < b ==> is_name_char(#[trigger] s[t]),
        b == s.len() || !is_name_char(s[b]),
    ensures
        name_end(s, a) == b,
    decreases b - a,
{
    if a < b {
        lemma_name_end_embed(s, a + 1, b);
    }
}

/// Escaping distributes over concatenation.
pub proof fn lemma_esc_app(a: Seq<char>, b: Seq<char>)
    ensures
        esc(a + b) == esc(a) + esc(b),
    decreases b.len(),
{
    if b.len() == 0 {
        assert(a + b =~= a);
        assert(esc(a) + esc(b) =~= esc(a));
    } else {
        lemma_esc_app(a, b.drop_last());
        assert((a + b).drop_last() =~= a + b.drop_last());
        assert((a + b).last() == b.last());
        assert(esc(a + b) == esc(a + b.drop_last()) + esc_char(b.last()));
        assert(esc(a) + esc(b) =~= esc(a) + esc(b.drop_last()) + esc_char(b.last()));
        assert(esc(a + b) =~= esc(a) + esc(b));
    }
}

/// Escaping, seen from the left.
pub proof fn lemma_esc_left(t: Seq<char>)
    requires
        t.len() > 0,
    ensures
        esc(t) == esc_char(t[0]) + esc(t.subrange(1, t.len() as int)),
{
    let head = seq![t[0]];
    let tail = t.subrange(1, t.len() as int);
    assert(t =~= head + tail);
    lemma_esc_app(head, tail);
    assert(esc(head) =~= esc_char(t[0])) by {
        assert(head.drop_last() =~= Seq::<char>::empty());
        assert(head.last() == t[0]);
        assert(esc(Seq::<char>::empty()) =~= Seq::<char>::empty());
        assert(esc(head) == esc(head.drop_last()) + esc_char(t[0]));
    }
}

/// A written string body reads back as the string it came from: the
/// text `esc(t) + "\"" ...` parses to exactly `t`, consuming through
/// the closing quote.
pub proof fn lemma_rt_string(s: Seq<char>, i: int, t: Seq<char>)
    requires
        0 <= i,
        i + esc(t).len() + 1 <= s.len(),
        forall|x: int| 0 <= x < esc(t).len() ==> s[i + x] == #[trigger] esc(t)[x],
        s[i + esc(t).len()] == '"',
    ensures
        p_string_body(s, i) == Some((t, i + esc(t).len() + 1)),
    decreases t.len(),
{
    if t.len() == 0 {
        assert(esc(t).len() == 0);
        assert(s[i] == '"');
    } else {
        let c = t[0];
        let rest = t.subrange(1, t.len() as int);
        lemma_esc_left(t);
        let ec = esc_char(c);
        assert(esc(t) == ec + esc(rest));
        assert forall|x: int| 0 <= x < esc(rest).len() implies s[i + ec.len() + x] == #[trigger] esc(
            rest,
        )[x] by {
            assert(esc(t)[ec.len() + x] == esc(rest)[x]);
            assert(s[i + (ec.len() + x)] == esc(t)[ec.len() + x]);
        }
        lemma_rt_string(s, i + ec.len() as int, rest);
        assert(p_string_body(s, i + ec.len()) == Some(
            (rest, i + ec.len() + esc(rest).len() + 1),
        ));
        if c == '\\' || c == '"' || c == '\n' || c == '\t' || c == '\r' {
            assert(ec.len() == 2);
            assert(s[i] == ec[0] && s[i + 1] == ec[1]) by {
                assert(esc(t)[0] == ec[0]);
                assert(esc(t)[1] == ec[1]);
            }
            assert(s[i] == '\\');
            assert(unescape(s[i + 1]) == Some(c));
            assert(p_string_body(s, i) == Some((seq![c] + rest, i + esc(t).len() + 1)));
            assert(seq![c] + rest =~= t);
        } else {
            assert(ec.len() == 1);
            assert(s[i] == c) by {
                assert(esc(t)[0] == ec[0]);
            }
            assert(s[i] != '"' && s[i] != '\\');
            assert(p_string_body(s, i) == Some((seq![s[i]] + rest, i + esc(t).len() + 1)));
            assert(seq![s[i]] + rest =~= t);
        }
    }
}

/// A written number token reads back as the value it came from.
#[verifier::rlimit(100)]
#[verifier::spinoff_prover]
pub proof fn lemma_rt_number(s: Seq<char>, i: int, v: ValueV, fmt: Format)
    requires
        v is IntV || v is Int64V || v is FloatV,
        crate::parse::rawv_ok(RawV::ScalarV(v, fmt)),
        0 <= i,
        i + ser_scalar(v, fmt).len() < s.len(),
        forall|x: int|
            0 <= x < ser_scalar(v, fmt).len() ==> s[i + x] == #[trigger] ser_scalar(v, fmt)[x],
        is_stopper(s[i + ser_scalar(v, fmt).len()]),
    ensures
        p_number(s, i) == Some((v, fmt, i + ser_scalar(v, fmt).len())),
{
    let w = ser_scalar(v, fmt);
    let stop = s[i + w.len()];
    assert(!is_digit(stop) && !is_hex_digit(stop) && stop != '.' && stop != 'e' && stop != 'E'
        && stop != 'L' && stop != 'x' && stop != '-' && stop != '"');
    match v {
        ValueV::FloatV(t) => {
            assert(fmt == Format::FormatDefault);
            assert(w == t);
            assert(crate::text::is_float_lit(t));
            let i0t: int = if t.len() > 0 && t[0] == '-' {
                1
            } else {
                0
            };
            let d1t = digits_end(t, i0t);
            crate::text::lemma_digits_end_bounds(t, i0t);
            assert(d1t > i0t);
            let neg = i < s.len() && s[i] == '-';
            assert(s[i] == t[0]);
            assert(neg == (i0t == 1));
            let i0 = if neg {
                i + 1
            } else {
                i
            };
            assert(i0 == i + i0t);
            // the digit runs of the embedded literal
            assert forall|x: int| i + i0t <= x < i + d1t implies is_digit(#[trigger] s[x]) by {
                assert(s[x] == t[x - i]);
            }
            assert(i + d1t == s.len() || !is_digit(s[i + d1t])) by {
                if d1t < t.len() {
                    assert(s[i + d1t] == t[d1t]);
                }
            }
            lemma_digits_end_embed(s, i + i0t, i + d1t);
            let has_dot = d1t < t.len() && t[d1t] == '.';
            let d2t = if has_dot {
                digits_end(t, d1t + 1)
            } else {
                d1t
            };
            // the literal reaches past its integer part
            assert(d1t < t.len()) by {
                if d1t == t.len() {
                    assert(!crate::text::is_float_lit(t));
                }
            }
            assert(s[i + d1t] == t[d1t]);
            // no hexadecimal reading: the second character is never `x`
            if !neg {
                assert(i0 + 1 < s.len());
                assert(s[i0 + 1] != 'x') by {
                    if d1t >= 2 {
                        assert(is_digit(t[1]));
                        assert(s[i + 1] == t[1]);
                    } else {
                        assert(d1t == 1);
                        assert(s[i + 1] == t[1]);
                        assert(t[1] == '.' || t[1] == 'e' || t[1] == 'E') by {
                            if t[1] != '.' && t[1] != 'e' && t[1] != 'E' {
                                assert(!crate::text::is_float_lit(t));
                            }
                        }
                    }
                }
            }
            if has_dot {
                crate::text::lemma_digits_end_bounds(t, d1t + 1);
                assert forall|x: int| i + d1t + 1 <= x < i + d2t implies is_digit(
                    #[trigger] s[x],
                ) by {
                    assert(s[x] == t[x - i]);
                }
                assert(i + d2t == s.len() || !is_digit(s[i + d2t])) by {
                    if d2t < t.len() {
                        assert(s[i + d2t] == t[d2t]);
                    }
                }
                lemma_digits_end_embed(s, i + d1t + 1, i + d2t);
            }
            let has_exp = d2t < t.len() && (t[d2t] == 'e' || t[d2t] == 'E');
            if has_exp {
                assert(s[i + d2t] == t[d2t]);
                let e0t = if d2t + 1 < t.len() && (t[d2t + 1] == '-' || t[d2t + 1] == '+') {
                    d2t + 2
                } else {
                    d2t + 1
                };
                let e1t = digits_end(t, e0t);
                assert(e1t > e0t && e1t == t.len()) by {
                    if !(e1t > e0t && e1t == t.len()) {
                        assert(!crate::text::is_float_lit(t));
                    }
                }
                assert(d2t + 1 < t.len());
                assert(s[i + d2t + 1] == t[d2t + 1]);
                crate::text::lemma_digits_end_bounds(t, e0t);
                assert forall|x: int| i + e0t <= x < i + e1t implies is_digit(
                    #[trigger] s[x],
                ) by {
                    assert(s[x] == t[x - i]);
                }
                lemma_digits_end_embed(s, i + e0t, i + e1t);
                assert(s.subrange(i, i + e1t) =~= t) by {
                    assert forall|x: int| 0 <= x < t.len() implies s.subrange(i, i + e1t)[x]
                        == t[x] by {
                        assert(s[i + x] == t[x]);
                    }
                }
            } else {
                assert(has_dot && d2t == t.len()) by {
                    if !(has_dot && d2t == t.len()) {
                        assert(!crate::text::is_float_lit(t));
                    }
                }
                assert(s[i + d2t] == stop);
                assert(s.subrange(i, i + d2t) =~= t) by {
                    assert forall|x: int| 0 <= x < t.len() implies s.subrange(i, i + d2t)[x]
                        == t[x] by {
                        assert(s[i + x] == t[x]);
                    }
                }
            }
        },
        ValueV::IntV(n) => {
            if fmt == Format::FormatHex {
                let bits: nat = if n >= 0 {
                    n as nat
                } else {
                    (n + 0x1_0000_0000) as nat
                };
                let hd = hex_digits(bits);
                lemma_hex_round_trip(bits);
                assert(w =~= seq!['0', 'x'] + hd);
                assert(s[i] == '0' && s[i + 1] == 'x') by {
                    assert(s[i + 0] == w[0]);
                    assert(s[i + 1] == w[1]);
                }
                assert forall|x: int| i + 2 <= x < i + 2 + hd.len() implies is_hex_digit(
                    #[trigger] s[x],
                ) by {
                    assert(s[x] == w[x - i]);
                    assert(w[x - i] == hd[x - i - 2]);
                }
                lemma_hex_end_embed(s, i + 2, i + 2 + hd.len() as int);
                assert(s.subrange(i + 2, i + 2 + hd.len() as int) =~= hd) by {
                    assert forall|x: int| 0 <= x < hd.len() implies s.subrange(
                        i + 2,
                        i + 2 + hd.len() as int,
                    )[x] == hd[x] by {
                        assert(s[i + 2 + x] == w[2 + x]);
                    }
                }
                assert(hex_val(s.subrange(i + 2, i + 2 + hd.len() as int)) == bits);
                assert(bits <= u32::MAX);
                assert(s[i + 2 + hd.len()] == stop);
                assert(crate::parse::bits32_value(bits) == n);
            } else {
                let m: nat = if n < 0 {
                    (-n) as nat
                } else {
                    n as nat
                };
                let dd = dec_digits(m);
                lemma_dec_round_trip(m);
                let neg = n < 0;
                if neg {
                    assert(w =~= seq!['-'] + dd);
                    assert(s[i] == '-') by {
                        assert(s[i + 0] == w[0]);
                    }
                } else {
                    assert(w =~= dd);
                    assert(s[i] != '-') by {
                        assert(s[i + 0] == w[0]);
                        assert(is_digit(w[0]));
                    }
                }
                let i0 = if neg {
                    i + 1
                } else {
                    i
                };
                assert forall|x: int| i0 <= x < i0 + dd.len() implies is_digit(
                    #[trigger] s[x],
                ) by {
                    assert(s[x] == w[x - i]);
                    if neg {
                        assert(w[x - i] == dd[x - i - 1]);
                    } else {
                        assert(w[x - i] == dd[x - i]);
                    }
                }
                assert(s[i0 + dd.len()] == stop);
                lemma_digits_end_embed(s, i0, i0 + dd.len() as int);
                if !neg {
                    assert(s[i0 + 1] != 'x') by {
                        if dd.len() >= 2 {
                            assert(is_digit(s[i0 + 1]));
                        } else {
                            assert(s[i0 + 1] == stop);
                        }
                    }
                }
                assert(s.subrange(i0, i0 + dd.len() as int) =~= dd) by {
                    assert forall|x: int| 0 <= x < dd.len() implies s.subrange(
                        i0,
                        i0 + dd.len() as int,
                    )[x] == dd[x] by {
                        assert(s[i0 + x] == w[i0 - i + x]);
                        assert(w[i0 - i + x] == dd[x]);
                    }
                }
                assert(dec_val(s.subrange(i0, i0 + dd.len() as int)) == m);
                if neg {
                    assert(m <= 0x8000_0000);
                } else {
                    assert(m <= 0x7FFF_FFFF);
                }
            }
        },
        ValueV::Int64V(n) => {
            if fmt == Format::FormatHex {
                let bits: nat = if n >= 0 {
                    n as nat
                } else {
                    (n + 0x1_0000_0000_0000_0000) as nat
                };
                let hd = hex_digits(bits);
                lemma_hex_round_trip(bits);
                assert(w =~= seq!['0', 'x'] + hd + seq!['L']);
                assert(s[i] == '0' && s[i + 1] == 'x') by {
                    assert(s[i + 0] == w[0]);
                    assert(s[i + 1] == w[1]);
                }
                assert forall|x: int| i + 2 <= x < i + 2 + hd.len() implies is_hex_digit(
                    #[trigger] s[x],
                ) by {
                    assert(s[x] == w[x - i]);
                    assert(w[x - i] == hd[x - i - 2]);
                }
                assert(s[i + 2 + hd.len()] == 'L') by {
                    assert(s[i + 2 + hd.len() as int] == w[2 + hd.len() as int]);
                }
                lemma_hex_end_embed(s, i + 2, i + 2 + hd.len() as int);
                assert(s.subrange(i + 2, i + 2 + hd.len() as int) =~= hd) by {
                    assert forall|x: int| 0 <= x < hd.len() implies s.subrange(
                        i + 2,
                        i + 2 + hd.len() as int,
                    )[x] == hd[x] by {
                        assert(s[i + 2 + x] == w[2 + x]);
                    }
                }
                assert(hex_val(s.subrange(i + 2, i + 2 + hd.len() as int)) == bits);
                assert(bits <= u64::MAX);
                assert(crate::parse::bits64_value(bits) == n);
            } else {
                let m: nat = if n < 0 {
                    (-n) as nat
                } else {
                    n as nat
                };
                let dd = dec_digits(m);
                lemma_dec_round_trip(m);
                let neg = n < 0;
                if neg {
                    assert(w =~= seq!['-'] + dd + seq!['L']);
                    assert(s[i] == '-') by {
                        assert(s[i + 0] == w[0]);
                    }
                } else {
                    assert(w =~= dd + seq!['L']);
                    assert(s[i] != '-') by {
                        assert(s[i + 0] == w[0]);
                        assert(is_digit(w[0]));
                    }
                }
                let i0 = if neg {
                    i + 1
                } else {
                    i
                };
                assert forall|x: int| i0 <= x < i0 + dd.len() implies is_digit(
                    #[trigger] s[x],
                ) by {
                    assert(s[x] == w[x - i]);
                    if neg {
                        assert(w[x - i] == dd[x - i - 1]);
                    } else {
                        assert(w[x - i] == dd[x - i]);
                    }
                }
                assert(s[i0 + dd.len()] == 'L') by {
                    if neg {
                        assert(s[i0 + dd.len() as int] == w[1 + dd.len() as int]);
                    } else {
                        assert(s[i0 + dd.len() as int] == w[dd.len() as int]);
                    }
                }
                lemma_digits_end_embed(s, i0, i0 + dd.len() as int);
                if !neg {
                    assert(s[i0 + 1] != 'x') by {
                        if dd.len() >= 2 {
                            assert(is_digit(s[i0 + 1]));
                        } else {
                            assert(s[i0 + 1] == 'L');
                        }
                    }
                }
                assert(s.subrange(i0, i0 + dd.len() as int) =~= dd) by {
                    assert forall|x: int| 0 <= x < dd.len() implies s.subrange(
                        i0,
                        i0 + dd.len() as int,
                    )[x] == dd[x] by {
                        assert(s[i0 + x] == w[i0 - i + x]);
                        assert(w[i0 - i + x] == dd[x]);
                    }
                }
                assert(dec_val(s.subrange(i0, i0 + dd.len() as int)) == m);
                if neg {
                    assert(m <= 0x8000_0000_0000_0000);
                } else {
                    assert(m <= 0x7FFF_FFFF_FFFF_FFFF);
                }
            }
        },
        _ => {},
    }
}

/// A written scalar token reads back as the value it came from.
pub proof fn lemma_rt_scalar(s: Seq<char>, i: int, v: ValueV, fmt: Format)
    requires
        crate::parse::rawv_ok(RawV::ScalarV(v, fmt)),
        0 <= i,
        i + ser_scalar(v, fmt).len() < s.len(),
        forall|x: int|
            0 <= x < ser_scalar(v, fmt).len() ==> s[i + x] == #[trigger] ser_scalar(v, fmt)[x],
        is_stopper(s[i + ser_scalar(v, fmt).len()]),
    ensures
        p_scalar(s, i) == Some((v, fmt, i + ser_scalar(v, fmt).len())),
{
    let w = ser_scalar(v, fmt);
    assert(w.len() > 0) by {
        match v {
            ValueV::IntV(n) => {
                if fmt == Format::FormatHex {
                } else if n < 0 {
                } else {
                    crate::num::lemma_dec_round_trip(n as nat);
                }
            },
            ValueV::Int64V(n) => {},
            ValueV::FloatV(t) => {
                crate::text::lemma_digits_end_bounds(
                    t,
                    if t.len() > 0 && t[0] == '-' {
                        1
                    } else {
                        0
                    },
                );
                assert(t.len() > 0) by {
                    if t.len() == 0 {
                        assert(!crate::text::is_float_lit(t));
                    }
                }
            },
            ValueV::StrV(t) => {},
            ValueV::BoolV(b) => {},
        }
    }
    assert(s[i] == w[0]) by {
        assert(s[i + 0] == w[0]);
    }
    match v {
        ValueV::StrV(t) => {
            assert(fmt == Format::FormatDefault);
            assert(w =~= seq!['"'] + esc(t) + seq!['"']);
            assert(s[i] == '"');
            assert forall|x: int| 0 <= x < esc(t).len() implies s[i + 1 + x] == #[trigger] esc(
                t,
            )[x] by {
                assert(s[i + (1 + x)] == w[1 + x]);
            }
            assert(s[i + 1 + esc(t).len()] == '"') by {
                assert(s[i + (1 + esc(t).len() as int)] == w[1 + esc(t).len() as int]);
            }
            lemma_rt_string(s, i + 1, t);
        },
        ValueV::BoolV(b) => {
            assert(fmt == Format::FormatDefault);
            if b {
                assert(w =~= seq!['t', 'r', 'u', 'e']);
                assert(s[i] != '"');
                assert(s.subrange(i, i + 4) =~= seq!['t', 'r', 'u', 'e']) by {
                    assert forall|x: int| 0 <= x < 4 implies s.subrange(i, i + 4)[x] == seq![
                        't', 'r', 'u', 'e',
                    ][x] by {
                        assert(s[i + x] == w[x]);
                    }
                }
            } else {
                assert(w =~= seq!['f', 'a', 'l', 's', 'e']);
                assert(s[i] != '"');
                assert(s[i] == 'f');
                if i + 4 <= s.len() && s.subrange(i, i + 4) == seq!['t', 'r', 'u', 'e'] {
                    assert(s.subrange(i, i + 4)[0] == 't');
                    assert(false);
                }
                assert(s.subrange(i, i + 5) =~= seq!['f', 'a', 'l', 's', 'e']) by {
                    assert forall|x: int| 0 <= x < 5 implies s.subrange(i, i + 5)[x] == seq![
                        'f', 'a', 'l', 's', 'e',
                    ][x] by {
                        assert(s[i + x] == w[x]);
                    }
                }
            }
        },
        _ => {
            // numbers: the token neither opens a string nor spells a boolean
            assert(s[i] == '-' || is_digit(s[i])) by {
                match v {
                    ValueV::IntV(n) => {
                        if fmt == Format::FormatHex {
                            assert(w[0] == '0');
                        } else if n < 0 {
                            assert(w[0] == '-');
                        } else {
                            crate::num::lemma_dec_round_trip(n as nat);
                            assert(w[0] == dec_digits(n as nat)[0]);
                        }
                    },
                    ValueV::Int64V(n) => {
                        if fmt == Format::FormatHex {
                            assert(w[0] == '0');
                        } else if n < 0 {
                            assert(w[0] == '-');
                        } else {
                            crate::num::lemma_dec_round_trip(n as nat);
                            assert(w[0] == (dec_digits(n as nat) + seq!['L'])[0]);
                        }
                    },
                    ValueV::FloatV(t) => {
                        assert(w[0] == t[0]);
                        assert(t[0] == '-' || is_digit(t[0])) by {
                            let i0t: int = if t.len() > 0 && t[0] == '-' {
                                1
                            } else {
                                0
                            };
                            if i0t == 0 {
                                crate::text::lemma_digits_end_bounds(t, 0);
                                assert(digits_end(t, 0) > 0) by {
                                    if digits_end(t, 0) == 0 {
                                        assert(!crate::text::is_float_lit(t));
                                    }
                                }
                            }
                        }
                    },
                    _ => {},
                }
            }
            assert(s[i] != '"' && s[i] != 't' && s[i] != 'f');
            if i + 4 <= s.len() && s.subrange(i, i + 4) == seq!['t', 'r', 'u', 'e'] {
                assert(s.subrange(i, i + 4)[0] == 't');
                assert(false);
            }
            if i + 5 <= s.len() && s.subrange(i, i + 5) == seq!['f', 'a', 'l', 's', 'e'] {
                assert(s.subrange(i, i + 5)[0] == 'f');
                assert(false);
            }
            lemma_rt_number(s, i, v, fmt);
        },
    }
}

/// A written value begins with a brace, a bracket, a parenthesis, a
/// quote, a boolean letter, a minus sign or a digit — never with
/// whitespace, a comment, a separator or a closer.
pub proof fn lemma_value_head(rv: RawV)
    requires
        crate::parse::rawv_ok(rv),
    ensures
        crate::ser::ser_value(rv).len() > 0,
        !is_ws(crate::ser::ser_value(rv)[0]),
        crate::ser::ser_value(rv)[0] != '#',
        crate::ser::ser_value(rv)[0] != ';',
        crate::ser::ser_value(rv)[0] != ',',
        crate::ser::ser_value(rv)[0] != '}',
        crate::ser::ser_value(rv)[0] != ']',
        crate::ser::ser_value(rv)[0] != ')',
        rv is ScalarV ==> crate::ser::ser_value(rv)[0] != '{' && crate::ser::ser_value(rv)[0]
            != '[' && crate::ser::ser_value(rv)[0] != '(',
{
    match rv {
        RawV::ScalarV(v, fmt) => {
            let w = ser_scalar(v, fmt);
            match v {
                ValueV::IntV(n) => {
                    if fmt == Format::FormatHex {
                        assert(w[0] == '0');
                    } else if n < 0 {
                        assert(w[0] == '-');
                    } else {
                        lemma_dec_round_trip(n as nat);
                        assert(w =~= dec_digits(n as nat));
                        assert(is_digit(w[0]));
                    }
                },
                ValueV::Int64V(n) => {
                    if fmt == Format::FormatHex {
                        assert(w[0] == '0');
                    } else if n < 0 {
                        assert(w[0] == '-');
                    } else {
                        lemma_dec_round_trip(n as nat);
                        assert(w =~= dec_digits(n as nat) + seq!['L']);
                        assert(w[0] == dec_digits(n as nat)[0]);
                        assert(is_digit(w[0]));
                    }
                },
                ValueV::FloatV(t) => {
                    assert(w == t);
                    assert(t.len() > 0 && (t[0] == '-' || is_digit(t[0]))) by {
                        crate::text::lemma_digits_end_bounds(
                            t,
                            if t.len() > 0 && t[0] == '-' {
                                1
                            } else {
                                0
                            },
                        );
                        if t.len() == 0 {
                            assert(!crate::text::is_float_lit(t));
                        } else if t[0] != '-' {
                            if digits_end(t, 0) == 0 {
                                assert(!crate::text::is_float_lit(t));
                            }
                            assert(is_digit(t[0]));
                        }
                    }
                },
                ValueV::StrV(t) => {
                    assert(w[0] == '"');
                },
                ValueV::BoolV(b) => {
                    if b {
                        assert(w =~= seq!['t', 'r', 'u', 'e']);
                    } else {
                        assert(w =~= seq!['f', 'a', 'l', 's', 'e']);
                    }
                },
            }
        },
        RawV::GroupV(es) => {
            assert(crate::ser::ser_value(rv)[0] == '{');
        },
        RawV::ArrayV(vs) => {
            assert(crate::ser::ser_value(rv)[0] == '[');
        },
        RawV::ListV(vs) => {
            assert(crate::ser::ser_value(rv)[0] == '(');
        },
    }
}

/// The written items before the last, seen from the left.
pub proof fn lemma_items_pre_left(vs: Seq<RawV>)
    requires
        vs.len() >= 1,
    ensures
        crate::ser::ser_items_pre(vs) == crate::ser::ser_value(vs[0]) + seq![',', ' ']
            + crate::ser::ser_items_pre(vs.subrange(1, vs.len() as int)),
    decreases vs.len(),
{
    let rest = vs.subrange(1, vs.len() as int);
    if vs.len() == 1 {
        assert(vs.drop_last() =~= Seq::<RawV>::empty());
        assert(rest =~= Seq::<RawV>::empty());
        assert(crate::ser::ser_items_pre(Seq::<RawV>::empty()) =~= Seq::<char>::empty());
        assert(vs.last() == vs[0]);
        assert(crate::ser::ser_items_pre(vs) =~= crate::ser::ser_value(vs[0]) + seq![',', ' ']
            + crate::ser::ser_items_pre(rest));
    } else {
        lemma_items_pre_left(vs.drop_last());
        assert(vs.drop_last()[0] == vs[0]);
        assert(vs.drop_last().subrange(1, vs.drop_last().len() as int) =~= rest.drop_last());
        assert(rest.last() == vs.last());
        assert(crate::ser::ser_items_pre(vs) == crate::ser::ser_items_pre(vs.drop_last())
            + crate::ser::ser_value(vs.last()) + seq![',', ' ']);
        assert(crate::ser::ser_items_pre(rest) == crate::ser::ser_items_pre(rest.drop_last())
            + crate::ser::ser_value(rest.last()) + seq![',', ' ']);
        assert(crate::ser::ser_items_pre(vs) =~= crate::ser::ser_value(vs[0]) + seq![',', ' ']
            + crate::ser::ser_items_pre(rest));
    }
}

/// The written items, seen from the left.
pub proof fn lemma_items_left(vs: Seq<RawV>)
    requires
        vs.len() >= 1,
    ensures
        vs.len() == 1 ==> crate::ser::ser_items(vs) == crate::ser::ser_value(vs[0]) + seq![' '],
        vs.len() > 1 ==> crate::ser::ser_items(vs) == crate::ser::ser_value(vs[0]) + seq![
            ',', ' ',
        ] + crate::ser::ser_items(vs.subrange(1, vs.len() as int)),
{
    let rest = vs.subrange(1, vs.len() as int);
    if vs.len() == 1 {
        assert(vs.drop_last() =~= Seq::<RawV>::empty());
        assert(crate::ser::ser_items_pre(Seq::<RawV>::empty()) =~= Seq::<char>::empty());
        assert(vs.last() == vs[0]);
        assert(crate::ser::ser_items(vs) =~= crate::ser::ser_value(vs[0]) + seq![' ']);
    } else {
        lemma_items_pre_left(vs.drop_last());
        assert(vs.drop_last()[0] == vs[0]);
        assert(vs.drop_last().subrange(1, vs.drop_last().len() as int) =~= rest.drop_last());
        assert(rest.last() == vs.last());
        assert(crate::ser::ser_items(vs) == crate::ser::ser_items_pre(vs.drop_last())
            + crate::ser::ser_value(vs.last()) + seq![' ']);
        assert(crate::ser::ser_items(rest) == crate::ser::ser_items_pre(rest.drop_last())
            + crate::ser::ser_value(rest.last()) + seq![' ']);
        assert(crate::ser::ser_items(vs) =~= crate::ser::ser_value(vs[0]) + seq![',', ' ']
            + crate::ser::ser_items(rest));
    }
}

/// The written settings, seen from the left.
pub proof fn lemma_entries_left(es: Seq<(Seq<char>, RawV)>)
    requires
        es.len() >= 1,
    ensures
        crate::ser::ser_entries(es) == es[0].0 + seq![' ', '=', ' '] + crate::ser::ser_value(
            es[0].1,
        ) + seq![';', ' '] + crate::ser::ser_entries(es.subrange(1, es.len() as int)),
    decreases es.len(),
{
    let rest = es.subrange(1, es.len() as int);
    if es.len() == 1 {
        assert(es.drop_last() =~= Seq::<(Seq<char>, RawV)>::empty());
        assert(rest =~= Seq::<(Seq<char>, RawV)>::empty());
        assert(crate::ser::ser_entries(Seq::<(Seq<char>, RawV)>::empty()) =~= Seq::<
            char,
        >::empty());
        assert(es.last() == es[0]);
        assert(crate::ser::ser_entries(es) =~= es[0].0 + seq![' ', '=', ' ']
            + crate::ser::ser_value(es[0].1) + seq![';', ' '] + crate::ser::ser_entries(rest));
    } else {
        lemma_entries_left(es.drop_last());
        assert(es.drop_last()[0] == es[0]);
        assert(es.drop_last().subrange(1, es.drop_last().len() as int) =~= rest.drop_last());
        assert(rest.last() == es.last());
        assert(crate::ser::ser_entries(es) == crate::ser::ser_entries(es.drop_last())
            + es.last().0 + seq![' ', '=', ' '] + crate::ser::ser_value(es.last().1) + seq![
            ';',
            ' ',
        ]);
        assert(crate::ser::ser_entries(rest) == crate::ser::ser_entries(rest.drop_last())
            + rest.last().0 + seq![' ', '=', ' '] + crate::ser::ser_value(rest.last().1) + seq![
            ';',
            ' ',
        ]);
        assert(crate::ser::ser_entries(es) =~= es[0].0 + seq![' ', '=', ' ']
            + crate::ser::ser_value(es[0].1) + seq![';', ' '] + crate::ser::ser_entries(rest));
    }
}

/// A written value reads back as the value it came from.
pub proof fn lemma_rt_value(s: Seq<char>, i: int, rv: RawV, f: nat)
    requires
        crate::parse::rawv_ok(rv),
        0 <= i,
        i + crate::ser::ser_value(rv).len() < s.len(),
        forall|x: int|
            0 <= x < crate::ser::ser_value(rv).len() ==> s[i + x] == #[trigger] crate::ser::ser_value(
                rv,
            )[x],
        is_stopper(s[i + crate::ser::ser_value(rv).len()]),
        f >= 3 * (s.len() - i) + 4,
    ensures
        crate::parse::p_value(s, i, f) == Some((rv, i + crate::ser::ser_value(rv).len())),
    decreases rv, 0int,
{
    let w = crate::ser::ser_value(rv);
    lemma_value_head(rv);
    assert(s[i] == w[0]) by {
        assert(s[i + 0] == w[0]);
    }
    match rv {
        RawV::ScalarV(v, fmt) => {
            assert(s[i] != '{' && s[i] != '[' && s[i] != '(');
            lemma_rt_scalar(s, i, v, fmt);
        },
        RawV::GroupV(es) => {
            assert(s[i] == '{');
            let elen = crate::ser::ser_entries(es).len() as int;
            assert(w =~= seq!['{', ' '] + crate::ser::ser_entries(es) + seq!['}']);
            assert(s[i + 1] == ' ') by {
                assert(s[i + 1] == w[1]);
            }
            assert forall|x: int| 0 <= x < elen implies s[i + 2 + x]
                == #[trigger] crate::ser::ser_entries(es)[x] by {
                assert(s[i + (2 + x)] == w[2 + x]);
            }
            assert(s[i + 2 + elen] == '}') by {
                assert(s[i + (2 + elen)] == w[2 + elen]);
            }
            assert(sp(s, i + 1) == i + 2) by {
                if es.len() == 0 {
                    lemma_sp_one(s, i + 1);
                } else {
                    lemma_entries_left(es);
                    assert(crate::ser::ser_entries(es)[0] == es[0].0[0]) by {
                        assert(crate::parse::rawv_ok(rv));
                        assert(crate::text::is_name(es[0].0));
                    }
                    assert(crate::text::is_name(es[0].0));
                    assert(crate::text::is_name_start(es[0].0[0]));
                    assert(s[i + 2] == crate::ser::ser_entries(es)[0]);
                    lemma_sp_one(s, i + 1);
                }
            }
            crate::parse::lemma_entries_ok(es);
            lemma_rt_entries(s, i + 2, es, (f - 1) as nat);
            assert(crate::parse::p_entries(s, i + 2, (f - 1) as nat) == Some(
                (es, i + 2 + elen),
            ));
        },
        RawV::ArrayV(vs) => {
            assert(s[i] == '[');
            let ilen = crate::ser::ser_items(vs).len() as int;
            assert(w =~= seq!['[', ' '] + crate::ser::ser_items(vs) + seq![']']);
            assert(s[i + 1] == ' ') by {
                assert(s[i + 1] == w[1]);
            }
            assert forall|x: int| 0 <= x < ilen implies s[i + 2 + x]
                == #[trigger] crate::ser::ser_items(vs)[x] by {
                assert(s[i + (2 + x)] == w[2 + x]);
            }
            assert(s[i + 2 + ilen] == ']') by {
                assert(s[i + (2 + ilen)] == w[2 + ilen]);
            }
            crate::parse::lemma_items_ok(vs);
            assert(sp(s, i + 1) == i + 2) by {
                if vs.len() == 0 {
                    lemma_sp_one(s, i + 1);
                } else {
                    lemma_items_left(vs);
                    lemma_value_head(vs[0]);
                    assert(crate::ser::ser_items(vs)[0] == crate::ser::ser_value(vs[0])[0]);
                    assert(s[i + 2] == crate::ser::ser_items(vs)[0]);
                    lemma_sp_one(s, i + 1);
                }
            }
            lemma_rt_items(s, i + 2, vs, (f - 1) as nat, ']');
            assert(crate::parse::p_items(s, i + 2, (f - 1) as nat, ']') == Some(
                (vs, i + 2 + ilen),
            ));
            assert(crate::parse::array_ok(vs));
        },
        RawV::ListV(vs) => {
            assert(s[i] == '(');
            let ilen = crate::ser::ser_items(vs).len() as int;
            assert(w =~= seq!['(', ' '] + crate::ser::ser_items(vs) + seq![')']);
            assert(s[i + 1] == ' ') by {
                assert(s[i + 1] == w[1]);
            }
            assert forall|x: int| 0 <= x < ilen implies s[i + 2 + x]
                == #[trigger] crate::ser::ser_items(vs)[x] by {
                assert(s[i + (2 + x)] == w[2 + x]);
            }
            assert(s[i + 2 + ilen] == ')') by {
                assert(s[i + (2 + ilen)] == w[2 + ilen]);
            }
            crate::parse::lemma_items_ok(vs);
            assert(sp(s, i + 1) == i + 2) by {
                if vs.len() == 0 {
                    lemma_sp_one(s, i + 1);
                } else {
                    lemma_items_left(vs);
                    lemma_value_head(vs[0]);
                    assert(crate::ser::ser_items(vs)[0] == crate::ser::ser_value(vs[0])[0]);
                    assert(s[i + 2] == crate::ser::ser_items(vs)[0]);
                    lemma_sp_one(s, i + 1);
                }
            }
            lemma_rt_items(s, i + 2, vs, (f - 1) as nat, ')');
            assert(crate::parse::p_items(s, i + 2, (f - 1) as nat, ')') == Some(
                (vs, i + 2 + ilen),
            ));
        },
    }
}

/// Written items read back as the items they came from.
pub proof fn lemma_rt_items(s: Seq<char>, i: int, vs: Seq<RawV>, f: nat, close: char)
    requires
        forall|k: int| 0 <= k < vs.len() ==> crate::parse::rawv_ok(#[trigger] vs[k]),
        0 <= i,
        i + crate::ser::ser_items(vs).len() < s.len(),
        forall|x: int|
            0 <= x < crate::ser::ser_items(vs).len() ==> s[i + x]
                == #[trigger] crate::ser::ser_items(vs)[x],
        s[i + crate::ser::ser_items(vs).len()] == close,
        close == ']' || close == ')',
        f >= 3 * (s.len() - i) + 5,
    ensures
        crate::parse::p_items(s, i, f, close) == Some(
            (vs, i + crate::ser::ser_items(vs).len()),
        ),
    decreases vs, 1int,
{
    if vs.len() == 0 {
        assert(s[i] == close);
    } else {
        let v0 = vs[0];
        let rest = vs.subrange(1, vs.len() as int);
        let w0 = crate::ser::ser_value(v0);
        lemma_items_left(vs);
        lemma_value_head(v0);
        assert(s[i] == crate::ser::ser_items(vs)[0]) by {
            assert(s[i + 0] == crate::ser::ser_items(vs)[0]);
        }
        assert(s[i] != close);
        if vs.len() == 1 {
            assert(crate::ser::ser_items(vs) == w0 + seq![' ']);
            assert forall|x: int| 0 <= x < w0.len() implies s[i + x] == #[trigger] w0[x] by {
                assert(s[i + x] == crate::ser::ser_items(vs)[x]);
            }
            assert(s[i + w0.len()] == ' ') by {
                assert(s[i + w0.len() as int] == crate::ser::ser_items(vs)[w0.len() as int]);
            }
            lemma_rt_value(s, i, v0, (f - 1) as nat);
            let j0 = i + w0.len() as int;
            assert(sp(s, j0) == j0 + 1) by {
                assert(s[j0 + 1] == close);
                lemma_sp_one(s, j0);
            }
            assert(crate::parse::sp_in(s, j0) == j0 + 1);
            assert(s[j0 + 1] == close);
            assert(close != ',');
            assert(crate::parse::p_items(s, i, f, close) == Some((seq![v0], j0 + 1)));
            assert(seq![v0] =~= vs);
        } else {
            let wr = crate::ser::ser_items(rest);
            assert(crate::ser::ser_items(vs) == w0 + seq![',', ' '] + wr);
            assert forall|x: int| 0 <= x < w0.len() implies s[i + x] == #[trigger] w0[x] by {
                assert(s[i + x] == crate::ser::ser_items(vs)[x]);
            }
            assert(s[i + w0.len()] == ',') by {
                assert(s[i + w0.len() as int] == crate::ser::ser_items(vs)[w0.len() as int]);
            }
            assert(s[i + w0.len() + 1] == ' ') by {
                assert(s[i + (w0.len() + 1)] == crate::ser::ser_items(vs)[w0.len() as int + 1]);
            }
            lemma_rt_value(s, i, v0, (f - 1) as nat);
            let j0 = i + w0.len() as int;
            assert(crate::parse::sp_in(s, j0) == j0) by {
                lemma_sp_none(s, j0);
            }
            let i2 = j0 + 2;
            assert forall|x: int| 0 <= x < wr.len() implies s[i2 + x] == #[trigger] wr[x] by {
                assert(s[i + (w0.len() + 2 + x)] == crate::ser::ser_items(vs)[w0.len() as int + 2 + x]);
            }
            assert(s[i2 + wr.len()] == close) by {
                assert(i2 + wr.len() == i + crate::ser::ser_items(vs).len());
            }
            assert(sp(s, j0 + 1) == i2) by {
                lemma_items_left(rest);
                lemma_value_head(rest[0]);
                assert(wr[0] == crate::ser::ser_value(rest[0])[0]);
                assert(s[i2] == wr[0]) by {
                    assert(s[i2 + 0] == wr[0]);
                }
                lemma_sp_one(s, j0 + 1);
            }
            assert forall|k: int| 0 <= k < rest.len() implies crate::parse::rawv_ok(
                #[trigger] rest[k],
            ) by {
                assert(rest[k] == vs[k + 1]);
            }
            lemma_rt_items(s, i2, rest, (f - 1) as nat, close);
            assert(crate::parse::p_items(s, i2, (f - 1) as nat, close) == Some(
                (rest, i2 + wr.len()),
            ));
            assert(seq![v0] + rest =~= vs);
        }
    }
}

/// Written settings read back as the settings they came from.
pub proof fn lemma_rt_entries(s: Seq<char>, i: int, es: Seq<(Seq<char>, RawV)>, f: nat)
    requires
        forall|k: int| 0 <= k < es.len() ==> crate::parse::rawv_ok((#[trigger] es[k]).1),
        forall|k: int| 0 <= k < es.len() ==> crate::text::is_name((#[trigger] es[k]).0),
        forall|k1: int, k2: int|
            0 <= k1 < es.len() && 0 <= k2 < es.len() && k1 != k2 ==> (#[trigger] es[k1]).0 != (
            #[trigger] es[k2]).0,
        0 <= i,
        i + crate::ser::ser_entries(es).len() <= s.len(),
        forall|x: int|
            0 <= x < crate::ser::ser_entries(es).len() ==> s[i + x]
                == #[trigger] crate::ser::ser_entries(es)[x],
        i + crate::ser::ser_entries(es).len() == s.len() || s[i + crate::ser::ser_entries(
            es,
        ).len()] == '}',
        f >= 3 * (s.len() - i) + 6,
    ensures
        crate::parse::p_entries(s, i, f) == Some((es, i + crate::ser::ser_entries(es).len())),
    decreases es, 1int,
{
    let elen = crate::ser::ser_entries(es).len() as int;
    if es.len() == 0 {
        assert(i == s.len() || s[i] == '}');
        assert(!(i < s.len() && crate::text::is_name_start(s[i])));
    } else {
        let nm = es[0].0;
        let v0 = es[0].1;
        let rest = es.subrange(1, es.len() as int);
        let w0 = crate::ser::ser_value(v0);
        let wr = crate::ser::ser_entries(rest);
        lemma_entries_left(es);
        assert(crate::ser::ser_entries(es) == nm + seq![' ', '=', ' '] + w0 + seq![';', ' ']
            + wr);
        assert(crate::text::is_name(nm));
        let nl = nm.len() as int;
        assert forall|x: int| 0 <= x < nl implies s[i + x] == #[trigger] nm[x] by {
            assert(s[i + x] == crate::ser::ser_entries(es)[x]);
        }
        assert(s[i] == nm[0]) by {
            assert(s[i + 0] == nm[0]);
        }
        assert(crate::text::is_name_start(s[i]));
        assert(s[i + nl] == ' ' && s[i + nl + 1] == '=' && s[i + nl + 2] == ' ') by {
            assert(s[i + nl] == crate::ser::ser_entries(es)[nl]);
            assert(s[i + (nl + 1)] == crate::ser::ser_entries(es)[nl + 1]);
            assert(s[i + (nl + 2)] == crate::ser::ser_entries(es)[nl + 2]);
        }
        // the name token
        assert forall|x: int| i <= x < i + nl implies is_name_char(#[trigger] s[x]) by {
            assert(s[x] == nm[x - i]);
            if x == i {
                assert(crate::text::is_name_start(nm[0]));
            }
        }
        assert(!is_name_char(s[i + nl]));
        lemma_name_end_embed(s, i, i + nl);
        assert(s.subrange(i, i + nl) =~= nm) by {
            assert forall|x: int| 0 <= x < nl implies s.subrange(i, i + nl)[x] == nm[x] by {
                assert(s[i + x] == nm[x]);
            }
        }
        // the separator
        assert(sp(s, i + nl) == i + nl + 1) by {
            lemma_sp_one(s, i + nl);
        }
        assert(crate::parse::sp_in(s, i + nl) == i + nl + 1);
        let vstart = i + nl + 3;
        assert(sp(s, i + nl + 2) == vstart) by {
            lemma_value_head(v0);
            assert(s[vstart] == w0[0]) by {
                assert(s[i + (nl + 3)] == crate::ser::ser_entries(es)[nl + 3]);
                assert(crate::ser::ser_entries(es)[nl + 3] == w0[0]);
            }
            lemma_sp_one(s, i + nl + 2);
        }
        // the value
        assert forall|x: int| 0 <= x < w0.len() implies s[vstart + x] == #[trigger] w0[x] by {
            assert(s[i + (nl + 3 + x)] == crate::ser::ser_entries(es)[nl + 3 + x]);
        }
        let j0 = vstart + w0.len() as int;
        assert(s[j0] == ';' && s[j0 + 1] == ' ') by {
            assert(s[i + (nl + 3 + w0.len() as int)] == crate::ser::ser_entries(es)[nl + 3
                + w0.len() as int]);
            assert(s[i + (nl + 4 + w0.len() as int)] == crate::ser::ser_entries(es)[nl + 4
                + w0.len() as int]);
        }
        lemma_rt_value(s, vstart, v0, (f - 1) as nat);
        assert(crate::parse::sp_in(s, j0) == j0) by {
            lemma_sp_none(s, j0);
        }
        // past the terminator
        let nxt = j0 + 2;
        assert forall|x: int| 0 <= x < wr.len() implies s[nxt + x] == #[trigger] wr[x] by {
            assert(s[i + (nl + 5 + w0.len() as int + x)] == crate::ser::ser_entries(es)[nl + 5
                + w0.len() as int + x]);
        }
        assert(nxt + wr.len() == i + elen);
        assert(sp(s, j0 + 1) == nxt) by {
            if rest.len() == 0 {
                if nxt == s.len() {
                    lemma_sp_one(s, j0 + 1);
                } else {
                    assert(s[nxt] == '}');
                    lemma_sp_one(s, j0 + 1);
                }
            } else {
                lemma_entries_left(rest);
                assert(crate::text::is_name(rest[0].0)) by {
                    assert(rest[0] == es[1]);
                }
                assert(wr[0] == rest[0].0[0]);
                assert(s[nxt] == wr[0]) by {
                    assert(s[nxt + 0] == wr[0]);
                }
                assert(crate::text::is_name_start(s[nxt]));
                lemma_sp_one(s, j0 + 1);
            }
        }
        assert forall|k: int| 0 <= k < rest.len() implies crate::parse::rawv_ok(
            (#[trigger] rest[k]).1,
        ) && crate::text::is_name(rest[k].0) by {
            assert(rest[k] == es[k + 1]);
        }
        assert forall|k1: int, k2: int|
            0 <= k1 < rest.len() && 0 <= k2 < rest.len() && k1 != k2 implies (
        #[trigger] rest[k1]).0 != (#[trigger] rest[k2]).0 by {
            assert(rest[k1] == es[k1 + 1]);
            assert(rest[k2] == es[k2 + 1]);
        }
        lemma_rt_entries(s, nxt, rest, (f - 1) as nat);
        assert(crate::parse::p_entries(s, nxt, (f - 1) as nat) == Some((rest, i + elen)));
        // no duplicate of the first name among the rest
        assert(!crate::parse::entries_contain(rest, nm)) by {
            if crate::parse::entries_contain(rest, nm) {
                let k = choose|k: int|
                    0 <= k < rest.len() && (#[trigger] rest[k]).0 == nm;
                assert(rest[k] == es[k + 1]);
                assert(es[k + 1].0 != es[0].0);
            }
        }
        assert(seq![(nm, v0)] + rest =~= es);
    }
}

/// A written document reads back as the settings it was written
/// from: parsing after serializing is the identity on storable,
/// validly and distinctly named settings.
pub proof fn lemma_parse_of_written(es: Seq<(Seq<char>, RawV)>)
    requires
        forall|k: int| 0 <= k < es.len() ==> crate::parse::rawv_ok((#[trigger] es[k]).1),
        forall|k: int| 0 <= k < es.len() ==> crate::text::is_name((#[trigger] es[k]).0),
        forall|k1: int, k2: int|
            0 <= k1 < es.len() && 0 <= k2 < es.len() && k1 != k2 ==> (#[trigger] es[k1]).0 != (
            #[trigger] es[k2]).0,
    ensures
        crate::parse::parse_doc(crate::ser::ser_entries(es)) == Some(es),
{
    let s = crate::ser::ser_entries(es);
    let f = crate::parse::fuel_for(s.len());
    if es.len() == 0 {
        assert(s.len() == 0);
        assert(sp(s, 0) == 0);
        assert(crate::parse::p_entries(s, 0, f) == Some(
            (Seq::<(Seq<char>, RawV)>::empty(), 0int),
        ));
        assert(es =~= Seq::<(Seq<char>, RawV)>::empty());
    } else {
        lemma_entries_left(es);
        assert(crate::text::is_name(es[0].0));
        assert(s[0] == es[0].0[0]);
        assert(crate::text::is_name_start(s[0]));
        assert(sp(s, 0) == 0) by {
            lemma_sp_none(s, 0);
        }
        lemma_rt_entries(s, 0, es, f);
    }
}

} // verus!
