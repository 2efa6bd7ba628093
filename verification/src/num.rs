//! Decimal and hexadecimal numerals: rendering, reading, and the
//! round-trip laws connecting them.

use vstd::prelude::*;

use crate::text::is_digit;
use crate::text::is_hex_digit;

verus! {

/// The character for one decimal (or low hexadecimal) digit.
pub open spec fn digit_char(d: int) -> char {
    if d == 0 {
        '0'
    } else if d == 1 {
        '1'
    } else if d == 2 {
        '2'
    } else if d == 3 {
        '3'
    } else if d == 4 {
        '4'
    } else if d == 5 {
        '5'
    } else if d == 6 {
        '6'
    } else if d == 7 {
        '7'
    } else if d == 8 {
        '8'
    } else {
        '9'
    }
}

/// The character for one hexadecimal digit (lower case).
pub open spec fn hex_char(d: int) -> char {
    if d < 10 {
        digit_char(d)
    } else if d == 10 {
        'a'
    } else if d == 11 {
        'b'
    } else if d == 12 {
        'c'
    } else if d == 13 {
        'd'
    } else if d == 14 {
        'e'
    } else {
        'f'
    }
}

/// Numeric value of one digit character, decimal or hexadecimal.
pub open spec fn digit_val(c: char) -> nat {
    if is_digit(c) {
        ((c as u32) - 48) as nat
    } else if 97 <= (c as u32) && (c as u32) <= 102 {
        ((c as u32) - 87) as nat
    } else if 65 <= (c as u32) && (c as u32) <= 70 {
        ((c as u32) - 55) as nat
    } else {
        0
    }
}

/// The decimal numeral of `n`, most significant digit first, no
/// leading zeros.
pub open spec fn dec_digits(n: nat) -> Seq<char>
    decreases n,
{
    if n < 10 {
        seq![digit_char(n as int)]
    } else {
        dec_digits(n / 10).push(digit_char((n % 10) as int))
    }
}

/// The hexadecimal numeral of `n`, lower case, most significant digit
/// first, no leading zeros.
pub open spec fn hex_digits(n: nat) -> Seq<char>
    decreases n,
{
    if n < 16 {
        seq![hex_char(n as int)]
    } else {
        hex_digits(n / 16).push(hex_char((n % 16) as int))
    }
}

/// The value of a decimal digit string.
pub open spec fn dec_val(s: Seq<char>) -> nat
    decreases s.len(),
{
    if s.len() == 0 {
        0
    } else {
        dec_val(s.drop_last()) * 10 + digit_val(s.last())
    }
}

/// The value of a hexadecimal digit string.
pub open spec fn hex_val(s: Seq<char>) -> nat
    decreases s.len(),
{
    if s.len() == 0 {
        0
    } else {
        hex_val(s.drop_last()) * 16 + digit_val(s.last())
    }
}

/// A decimal numeral reads back as its value.
pub proof fn lemma_dec_round_trip(n: nat)
    ensures
        dec_val(dec_digits(n)) == n,
        dec_digits(n).len() >= 1,
        forall|i: int| 0 <= i < dec_digits(n).len() ==> is_digit(#[trigger] dec_digits(n)[i]),
    decreases n,
{
    if n < 10 {
        assert(dec_val(dec_digits(n)) == dec_val(Seq::<char>::empty()) * 10 + digit_val(
            digit_char(n as int),
        )) by {
            assert(dec_digits(n).drop_last() =~= Seq::<char>::empty());
        }
    } else {
        lemma_dec_round_trip(n / 10);
        let s = dec_digits(n / 10);
        let c = digit_char((n % 10) as int);
        assert(s.push(c).drop_last() =~= s);
        assert(s.push(c).last() == c);
        assert(dec_val(s.push(c)) == dec_val(s) * 10 + digit_val(c));
        assert(digit_val(c) == n % 10);
        assert forall|i: int| 0 <= i < s.push(c).len() implies is_digit(
            #[trigger] s.push(c)[i],
        ) by {
            if i < s.len() {
                assert(s.push(c)[i] == s[i]);
            }
        }
    }
}

/// A hexadecimal numeral reads back as its value.
pub proof fn lemma_hex_round_trip(n: nat)
    ensures
        hex_val(hex_digits(n)) == n,
        hex_digits(n).len() >= 1,
        forall|i: int| 0 <= i < hex_digits(n).len() ==> is_hex_digit(#[trigger] hex_digits(n)[i]),
    decreases n,
{
    if n < 16 {
        assert(hex_val(hex_digits(n)) == hex_val(Seq::<char>::empty()) * 16 + digit_val(
            hex_char(n as int),
        )) by {
            assert(hex_digits(n).drop_last() =~= Seq::<char>::empty());
        }
    } else {
        lemma_hex_round_trip(n / 16);
        let s = hex_digits(n / 16);
        let c = hex_char((n % 16) as int);
        assert(s.push(c).drop_last() =~= s);
        assert(s.push(c).last() == c);
        assert(hex_val(s.push(c)) == hex_val(s) * 16 + digit_val(c));
        assert(digit_val(c) == n % 16);
        assert forall|i: int| 0 <= i < s.push(c).len() implies is_hex_digit(
            #[trigger] s.push(c)[i],
        ) by {
            if i < s.len() {
                assert(s.push(c)[i] == s[i]);
            }
        }
    }
}

/// Extending a digit string to the right never shrinks its value.
pub proof fn lemma_dec_val_prefix(t: Seq<char>, k: int)
    requires
        0 <= k <= t.len(),
    ensures
        dec_val(t) >= dec_val(t.take(k)),
    decreases t.len() - k,
{
    if k < t.len() {
        lemma_dec_val_prefix(t, k + 1);
        let a = t.take(k + 1);
        assert(a.drop_last() =~= t.take(k));
        assert(dec_val(a) == dec_val(t.take(k)) * 10 + digit_val(a.last()));
    } else {
        assert(t.take(k) =~= t);
    }
}

/// Extending a hexadecimal digit string to the right never shrinks
/// its value.
pub proof fn lemma_hex_val_prefix(t: Seq<char>, k: int)
    requires
        0 <= k <= t.len(),
    ensures
        hex_val(t) >= hex_val(t.take(k)),
    decreases t.len() - k,
{
    if k < t.len() {
        lemma_hex_val_prefix(t, k + 1);
        let a = t.take(k + 1);
        assert(a.drop_last() =~= t.take(k));
        assert(hex_val(a) == hex_val(t.take(k)) * 16 + digit_val(a.last()));
    } else {
        assert(t.take(k) =~= t);
    }
}

/// The character for one decimal digit.
pub fn digit_char_of(d: u64) -> (c: char)
    requires
        d < 10,
    ensures
        c == digit_char(d as int),
{
    match d {
        0 => '0',
        1 => '1',
        2 => '2',
        3 => '3',
        4 => '4',
        5 => '5',
        6 => '6',
        7 => '7',
        8 => '8',
        _ => '9',
    }
}

/// The character for one hexadecimal digit.
pub fn hex_char_of(d: u64) -> (c: char)
    requires
        d < 16,
    ensures
        c == hex_char(d as int),
{
    if d < 10 {
        digit_char_of(d)
    } else {
        match d {
            10 => 'a',
            11 => 'b',
            12 => 'c',
            13 => 'd',
            14 => 'e',
            _ => 'f',
        }
    }
}

/// Renders `n` in decimal.
pub fn u64_to_dec(n: u64) -> (v: Vec<char>)
    ensures
        v@ == dec_digits(n as nat),
    decreases n,
{
    if n < 10 {
        let mut v: Vec<char> = Vec::new();
        v.push(digit_char_of(n));
        proof {
            assert(v@ =~= dec_digits(n as nat));
        }
        v
    } else {
        let mut v = u64_to_dec(n / 10);
        v.push(digit_char_of(n % 10));
        v
    }
}

/// Renders `n` in hexadecimal, lower case.
pub fn u64_to_hex(n: u64) -> (v: Vec<char>)
    ensures
        v@ == hex_digits(n as nat),
    decreases n,
{
    if n < 16 {
        let mut v: Vec<char> = Vec::new();
        v.push(hex_char_of(n));
        proof {
            assert(v@ =~= hex_digits(n as nat));
        }
        v
    } else {
        let mut v = u64_to_hex(n / 16);
        v.push(hex_char_of(n % 16));
        v
    }
}

/// Numeric value of one digit character.
pub fn digit_val_of(c: char) -> (d: u64)
    ensures
        d == digit_val(c),
        is_hex_digit(c) ==> d < 16,
        is_digit(c) ==> d < 10,
{
    let u = c as u32;
    if 48 <= u && u <= 57 {
        (u - 48) as u64
    } else if 97 <= u && u <= 102 {
        (u - 87) as u64
    } else if 65 <= u && u <= 70 {
        (u - 55) as u64
    } else {
        0
    }
}

/// Reads the decimal digit run `v[from..to]` as a `u64`; `None` when
/// the value does not fit.
pub fn dec_to_u64(v: &Vec<char>, from: usize, to: usize) -> (r: Option<u64>)
    requires
        from <= to <= v@.len(),
        forall|i: int| from <= i < to ==> is_digit(#[trigger] v@[i]),
    ensures
        dec_val(v@.subrange(from as int, to as int)) <= u64::MAX ==> r == Some(
            dec_val(v@.subrange(from as int, to as int)) as u64,
        ),
        dec_val(v@.subrange(from as int, to as int)) > u64::MAX ==> r is None,
{
    let ghost whole = v@.subrange(from as int, to as int);
    let mut acc: u64 = 0;
    let mut i: usize = from;
    while i < to
        invariant
            from <= i <= to <= v@.len(),
            forall|j: int| from <= j < to ==> is_digit(#[trigger] v@[j]),
            whole == v@.subrange(from as int, to as int),
            acc == dec_val(whole.take(i - from)),
        decreases to - i,
    {
        let d = digit_val_of(v[i]);
        proof {
            assert(whole.take(i + 1 - from).drop_last() =~= whole.take(i - from));
            assert(whole.take(i + 1 - from).last() == v@[i as int]);
        }
        if acc > (u64::MAX - d) / 10 {
            proof {
                assert(dec_val(whole.take(i + 1 - from)) == acc * 10 + d);
                assert(dec_val(whole.take(i + 1 - from)) > u64::MAX) by {
                    assert(acc >= (u64::MAX - d) / 10 + 1);
                    assert(acc * 10 >= ((u64::MAX - d) / 10 + 1) * 10) by (nonlinear_arith)
                        requires
                            acc >= (u64::MAX - d) / 10 + 1,
                    ;
                }
                lemma_dec_val_prefix(whole, i + 1 - from);
                assert(whole.take(whole.len() as int) =~= whole);
            }
            return None;
        }
        acc = acc * 10 + d;
        i = i + 1;
    }
    proof {
        assert(whole.take(whole.len() as int) =~= whole);
    }
    Some(acc)
}

/// Reads the hexadecimal digit run `v[from..to]` as a `u64`; `None`
/// when the value does not fit.
pub fn hex_to_u64(v: &Vec<char>, from: usize, to: usize) -> (r: Option<u64>)
    requires
        from <= to <= v@.len(),
        forall|i: int| from <= i < to ==> is_hex_digit(#[trigger] v@[i]),
    ensures
        hex_val(v@.subrange(from as int, to as int)) <= u64::MAX ==> r == Some(
            hex_val(v@.subrange(from as int, to as int)) as u64,
        ),
        hex_val(v@.subrange(from as int, to as int)) > u64::MAX ==> r is None,
{
    let ghost whole = v@.subrange(from as int, to as int);
    let mut acc: u64 = 0;
    let mut i: usize = from;
    while i < to
        invariant
            from <= i <= to <= v@.len(),
            forall|j: int| from <= j < to ==> is_hex_digit(#[trigger] v@[j]),
            whole == v@.subrange(from as int, to as int),
            acc == hex_val(whole.take(i - from)),
        decreases to - i,
    {
        let d = digit_val_of(v[i]);
        proof {
            assert(whole.take(i + 1 - from).drop_last() =~= whole.take(i - from));
            assert(whole.take(i + 1 - from).last() == v@[i as int]);
        }
        if acc > (u64::MAX - d) / 16 {
            proof {
                assert(hex_val(whole.take(i + 1 - from)) == acc * 16 + d);
                assert(hex_val(whole.take(i + 1 - from)) > u64::MAX) by {
                    assert(acc >= (u64::MAX - d) / 16 + 1);
                    assert(acc * 16 >= ((u64::MAX - d) / 16 + 1) * 16) by (nonlinear_arith)
                        requires
                            acc >= (u64::MAX - d) / 16 + 1,
                    ;
                }
                lemma_hex_val_prefix(whole, i + 1 - from);
                assert(whole.take(whole.len() as int) =~= whole);
            }
            return None;
        }
        acc = acc * 16 + d;
        i = i + 1;
    }
    proof {
        assert(whole.take(whole.len() as int) =~= whole);
    }
    Some(acc)
}

} // verus!
