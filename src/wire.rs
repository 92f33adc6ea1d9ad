//! Text building blocks of the wire format: decimal numbers, hex colors and
//! field splitting, each as a spec function with the code that meets it.

use vstd::prelude::*;

use crate::Color;

verus! {

/// Relies on String::push: the character is appended at the end of the string.
pub assume_specification[ String::push ](s: &mut String, ch: char)
    ensures
        final(s)@ == old(s)@.push(ch),
;

pub open spec fn is_digit(c: char) -> bool {
    48 <= c as u32 <= 57
}

pub open spec fn digit_value(c: char) -> nat {
    (c as u32 - 48) as nat
}

pub open spec fn digit_char(d: nat) -> char {
    ((d + 48) as u32) as char
}

pub open spec fn is_hex(c: char) -> bool {
    is_digit(c) || 65 <= c as u32 <= 70 || 97 <= c as u32 <= 102
}

pub open spec fn hex_value(c: char) -> nat {
    if is_digit(c) {
        digit_value(c)
    } else if 65 <= c as u32 <= 70 {
        (c as u32 - 55) as nat
    } else {
        (c as u32 - 87) as nat
    }
}

/// Upper-case hex digit.
pub open spec fn hex_char(d: nat) -> char {
    if d < 10 {
        digit_char(d)
    } else {
        ((d + 55) as u32) as char
    }
}

/// Decimal text of a natural number, without leading zeros.
pub open spec fn dec_nat(n: nat) -> Seq<char>
    decreases n,
{
    if n < 10 {
        seq![digit_char(n)]
    } else {
        dec_nat(n / 10).push(digit_char(n % 10))
    }
}

/// Decimal text of an integer, with a leading '-' when negative.
pub open spec fn dec_int(v: int) -> Seq<char> {
    if v < 0 {
        seq!['-'] + dec_nat((-v) as nat)
    } else {
        dec_nat(v as nat)
    }
}

pub open spec fn hex_byte(b: u8) -> Seq<char> {
    seq![hex_char((b / 16) as nat), hex_char((b % 16) as nat)]
}

/// `#RRGGBB`, upper-case.
pub open spec fn color_text(c: Color) -> Seq<char> {
    seq!['#'] + hex_byte(c.r) + hex_byte(c.g) + hex_byte(c.b)
}

pub open spec fn all_digits(s: Seq<char>) -> bool {
    forall|i: int| 0 <= i < s.len() ==> is_digit(#[trigger] s[i])
}

pub open spec fn digits_value(s: Seq<char>) -> nat
    decreases s.len(),
{
    if s.len() == 0 {
        0
    } else {
        digits_value(s.drop_last()) * 10 + digit_value(s.last())
    }
}

/// One or more decimal digits.
pub open spec fn parse_unsigned(s: Seq<char>) -> Option<nat> {
    if s.len() > 0 && all_digits(s) {
        Some(digits_value(s))
    } else {
        None
    }
}

pub open spec fn parse_id(s: Seq<char>) -> Option<u64> {
    match parse_unsigned(s) {
        Some(n) => if n <= u64::MAX {
            Some(n as u64)
        } else {
            None
        },
        None => None,
    }
}

/// Decimal digits with an optional leading '-', in the range of `i32`.
pub open spec fn parse_coordinate(s: Seq<char>) -> Option<i32> {
    if s.len() > 0 && s[0] == '-' {
        match parse_unsigned(s.drop_first()) {
            Some(n) => if n <= 0x8000_0000 {
                Some((-n) as i32)
            } else {
                None
            },
            None => None,
        }
    } else {
        match parse_unsigned(s) {
            Some(n) => if n <= i32::MAX {
                Some(n as i32)
            } else {
                None
            },
            None => None,
        }
    }
}

/// `#` followed by exactly six hex digits of either case.
pub open spec fn parse_color(s: Seq<char>) -> Option<Color> {
    if s.len() == 7 && s[0] == '#' && (forall|i: int| 1 <= i < 7 ==> is_hex(#[trigger] s[i])) {
        Some(
            Color {
                r: (hex_value(s[1]) * 16 + hex_value(s[2])) as u8,
                g: (hex_value(s[3]) * 16 + hex_value(s[4])) as u8,
                b: (hex_value(s[5]) * 16 + hex_value(s[6])) as u8,
            },
        )
    } else {
        None
    }
}

/// The pieces of `s` between separators: n separators give n + 1 pieces.
pub open spec fn split(s: Seq<char>, sep: char) -> Seq<Seq<char>>
    decreases s.len(),
{
    if s.len() == 0 {
        seq![Seq::<char>::empty()]
    } else {
        let rest = split(s.drop_last(), sep);
        if s.last() == sep {
            rest.push(Seq::<char>::empty())
        } else {
            rest.update(rest.len() - 1, rest.last().push(s.last()))
        }
    }
}

pub proof fn lemma_split_nonempty(s: Seq<char>, sep: char)
    ensures
        split(s, sep).len() >= 1,
    decreases s.len(),
{
    if s.len() > 0 {
        lemma_split_nonempty(s.drop_last(), sep);
    }
}

pub open spec fn free_of(s: Seq<char>, c: char) -> bool {
    forall|i: int| 0 <= i < s.len() ==> s[i] != c
}

/// A piece without separators splits into itself.
pub proof fn lemma_split_single(t: Seq<char>, sep: char)
    requires
        free_of(t, sep),
    ensures
        split(t, sep) == seq![t],
    decreases t.len(),
{
    if t.len() == 0 {
        assert(t =~= Seq::<char>::empty());
    } else {
        lemma_split_single(t.drop_last(), sep);
        assert(t[t.len() - 1] != sep);
        assert(t.drop_last().push(t.last()) =~= t);
        let rest = split(t.drop_last(), sep);
        assert(rest == seq![t.drop_last()]);
        assert(split(t, sep) == rest.update(0, rest.last().push(t.last())));
        assert(split(t, sep) =~~= seq![t]);
    }
}

/// Appending a separator and a piece without separators adds that piece.
pub proof fn lemma_split_append(s: Seq<char>, t: Seq<char>, sep: char)
    requires
        free_of(t, sep),
    ensures
        split(s + seq![sep] + t, sep) == split(s, sep).push(t),
    decreases t.len(),
{
    let u = s + seq![sep] + t;
    if t.len() == 0 {
        assert(u =~= s.push(sep));
        assert(u.drop_last() =~= s);
        assert(t =~= Seq::<char>::empty());
    } else {
        let t0 = t.drop_last();
        lemma_split_append(s, t0, sep);
        assert(u.drop_last() =~= s + seq![sep] + t0);
        assert(t0.push(t.last()) =~= t);
        assert(t[t.len() - 1] != sep);
        assert(free_of(t0, sep));
        assert(u.last() == t.last());
        lemma_split_nonempty(s, sep);
        assert(split(u, sep) =~~= split(s, sep).push(t));
    }
}

proof fn lemma_digit_char(d: nat)
    requires
        d < 10,
    ensures
        is_digit(digit_char(d)),
        digit_value(digit_char(d)) == d,
{
}

pub proof fn lemma_dec_nat(n: nat)
    ensures
        dec_nat(n).len() > 0,
        all_digits(dec_nat(n)),
        digits_value(dec_nat(n)) == n,
    decreases n,
{
    if n < 10 {
        lemma_digit_char(n);
        let s = dec_nat(n);
        assert(s.drop_last() =~= Seq::<char>::empty());
        assert(digits_value(s.drop_last()) == 0);
        assert(digits_value(s) == digits_value(s.drop_last()) * 10 + digit_value(s.last()));
    } else {
        lemma_dec_nat(n / 10);
        let s = dec_nat(n);
        assert(s.drop_last() =~= dec_nat(n / 10));
        lemma_digit_char((n % 10) as nat);
        assert(s.last() == digit_char((n % 10) as nat));
        assert(digits_value(s) == digits_value(s.drop_last()) * 10 + digit_value(s.last()));
        assert(digits_value(s) == (n / 10) * 10 + n % 10);
        assert((n / 10) * 10 + n % 10 == n) by (nonlinear_arith);
        assert forall|i: int| 0 <= i < s.len() implies is_digit(#[trigger] s[i]) by {
            if i < s.len() - 1 {
                assert(s[i] == dec_nat(n / 10)[i]);
            }
        }
    }
}

pub proof fn lemma_parse_id(n: u64)
    ensures
        parse_id(dec_nat(n as nat)) == Some(n),
{
    lemma_dec_nat(n as nat);
}

pub proof fn lemma_parse_coordinate(v: i32)
    ensures
        parse_coordinate(dec_int(v as int)) == Some(v),
{
    if v < 0 {
        let d = dec_nat((-v) as nat);
        lemma_dec_nat((-v) as nat);
        let s = seq!['-'] + d;
        assert(s.drop_first() =~= d);
    } else {
        lemma_dec_nat(v as nat);
    }
}

pub proof fn lemma_parse_color(c: Color)
    ensures
        parse_color(color_text(c)) == Some(c),
{
    let s = color_text(c);
    assert(s =~= seq![
        '#',
        hex_char((c.r / 16) as nat),
        hex_char((c.r % 16) as nat),
        hex_char((c.g / 16) as nat),
        hex_char((c.g % 16) as nat),
        hex_char((c.b / 16) as nat),
        hex_char((c.b % 16) as nat),
    ]);
    assert forall|i: int| 1 <= i < 7 implies is_hex(#[trigger] s[i]) && hex_value(s[i]) == (
    if i % 2 == 1 {
        (if i == 1 {
            c.r
        } else if i == 3 {
            c.g
        } else {
            c.b
        }) / 16
    } else {
        (if i == 2 {
            c.r
        } else if i == 4 {
            c.g
        } else {
            c.b
        }) % 16
    }) by {}
}

/// The characters of a string, in order.
pub fn chars_of(s: &str) -> (r: Vec<char>)
    ensures
        r@ == s@,
{
    let mut r: Vec<char> = Vec::new();
    for c in it: s.chars()
        invariant
            r@ == it.seq().take(it.index() as int),
    {
        r.push(c);
    }
    r
}

/// The pieces of `s` between separators.
pub fn split_chars(s: &Vec<char>, sep: char) -> (r: Vec<Vec<char>>)
    ensures
        r@.map_values(|v: Vec<char>| v@) == split(s@, sep),
{
    let mut fields: Vec<Vec<char>> = Vec::new();
    let mut cur: Vec<char> = Vec::new();
    let mut i: usize = 0;
    assert(s@.take(0) =~= Seq::<char>::empty());
    assert(fields@.map_values(|v: Vec<char>| v@).push(cur@) =~= split(Seq::<char>::empty(), sep));
    while i < s.len()
        invariant
            0 <= i <= s.len(),
            fields@.map_values(|v: Vec<char>| v@).push(cur@) == split(s@.take(i as int), sep),
        decreases s.len() - i,
    {
        let c = s[i];
        let ghost before = fields@.map_values(|v: Vec<char>| v@);
        let ghost old_cur = cur@;
        assert(s@.take(i + 1).drop_last() =~= s@.take(i as int));
        assert(s@.take(i + 1).last() == c);
        if c == sep {
            fields.push(cur);
            cur = Vec::new();
            assert(fields@.map_values(|v: Vec<char>| v@) =~= before.push(old_cur));
            assert(fields@.map_values(|v: Vec<char>| v@).push(cur@) =~= before.push(old_cur).push(
                Seq::<char>::empty(),
            ));
        } else {
            cur.push(c);
            assert(fields@.map_values(|v: Vec<char>| v@).push(cur@) =~= before.push(
                old_cur,
            ).update(before.len() as int, old_cur.push(c)));
        }
        i += 1;
    }
    assert(s@.take(s.len() as int) =~= s@);
    let ghost before = fields@.map_values(|v: Vec<char>| v@);
    let ghost last = cur@;
    fields.push(cur);
    assert(fields@.map_values(|v: Vec<char>| v@) =~= before.push(last));
    fields
}

proof fn lemma_digits_prefix(s: Seq<char>, i: int)
    requires
        all_digits(s),
        0 <= i <= s.len(),
    ensures
        digits_value(s.take(i)) <= digits_value(s),
    decreases s.len(),
{
    if i == s.len() {
        assert(s.take(i) =~= s);
    } else {
        let t = s.drop_last();
        assert(t.take(i) =~= s.take(i));
        assert(all_digits(t));
        lemma_digits_prefix(t, i);
    }
}

/// The decimal number written from `start` to the end of `s`, when it is at most `limit`.
pub fn parse_digits(s: &Vec<char>, start: usize, limit: u64) -> (r: Option<u64>)
    requires
        start <= s.len(),
    ensures
        r == (match parse_unsigned(s@.skip(start as int)) {
            Some(n) => if n <= limit {
                Some(n as u64)
            } else {
                None
            },
            None => None,
        }),
{
    let ghost t = s@.skip(start as int);
    if start == s.len() {
        return None;
    }
    let mut v: u64 = 0;
    let mut i: usize = start;
    assert(t.take(0) =~= Seq::<char>::empty());
    while i < s.len()
        invariant
            start <= i <= s.len(),
            t == s@.skip(start as int),
            all_digits(t.take(i - start)),
            v == digits_value(t.take(i - start)),
            v <= limit,
        decreases s.len() - i,
    {
        let c = s[i];
        let code = c as u32;
        let ghost k = i - start;
        assert(t[k] == c);
        if code < 48 || code > 57 {
            assert(!is_digit(t[k]));
            return None;
        }
        let w: u128 = (v as u128) * 10 + (code - 48) as u128;
        assert(t.take(k + 1).drop_last() =~= t.take(k));
        assert(t.take(k + 1).last() == c);
        assert(w == digits_value(t.take(k + 1)));
        if w > limit as u128 {
            proof {
                if all_digits(t) {
                    lemma_digits_prefix(t, k + 1);
                }
            }
            return None;
        }
        v = w as u64;
        i += 1;
        assert(all_digits(t.take(i - start))) by {
            assert forall|j: int| 0 <= j < i - start implies is_digit(#[trigger] t.take(i - start)[j]) by {
                if j < k {
                    assert(t.take(i - start)[j] == t.take(k)[j]);
                }
            }
        }
    }
    assert(t.take(s.len() - start) =~= t);
    Some(v)
}

/// A decimal id in the range of `u64`.
pub fn parse_id_chars(s: &Vec<char>) -> (r: Option<u64>)
    ensures
        r == parse_id(s@),
{
    assert(s@.skip(0) =~= s@);
    parse_digits(s, 0, u64::MAX)
}

/// A decimal coordinate, optionally negative, in the range of `i32`.
pub fn parse_coordinate_chars(s: &Vec<char>) -> (r: Option<i32>)
    ensures
        r == parse_coordinate(s@),
{
    if s.len() > 0 && s[0] == '-' {
        assert(s@.skip(1) =~= s@.drop_first());
        match parse_digits(s, 1, 0x8000_0000) {
            Some(n) => Some((0 - (n as i64)) as i32),
            None => None,
        }
    } else {
        assert(s@.skip(0) =~= s@);
        match parse_digits(s, 0, 0x7fff_ffff) {
            Some(n) => Some(n as i32),
            None => None,
        }
    }
}

fn hex_digit(c: char) -> (r: Option<u8>)
    ensures
        r == (if is_hex(c) {
            Some(hex_value(c) as u8)
        } else {
            None
        }),
{
    let code = c as u32;
    if 48 <= code && code <= 57 {
        Some((code - 48) as u8)
    } else if 65 <= code && code <= 70 {
        Some((code - 55) as u8)
    } else if 97 <= code && code <= 102 {
        Some((code - 87) as u8)
    } else {
        None
    }
}

/// A color written `#RRGGBB`.
pub fn parse_color_chars(s: &Vec<char>) -> (r: Option<Color>)
    ensures
        r == parse_color(s@),
{
    if s.len() != 7 || s[0] != '#' {
        return None;
    }
    let mut d: Vec<u8> = Vec::new();
    let mut i: usize = 1;
    while i < 7
        invariant
            1 <= i <= 7,
            s@.len() == 7,
            d@.len() == i - 1,
            forall|j: int| 1 <= j < i ==> is_hex(#[trigger] s@[j]) && d@[j - 1] == hex_value(s@[j]),
        decreases 7 - i,
    {
        match hex_digit(s[i]) {
            Some(v) => d.push(v),
            None => {
                return None;
            },
        }
        i += 1;
    }
    Some(Color { r: d[0] * 16 + d[1], g: d[2] * 16 + d[3], b: d[4] * 16 + d[5] })
}

fn digit_to_char(d: u64) -> (c: char)
    requires
        d < 10,
    ensures
        c == digit_char(d as nat),
{
    ((d + 48) as u8) as char
}

fn hex_to_char(d: u8) -> (c: char)
    requires
        d < 16,
    ensures
        c == hex_char(d as nat),
{
    if d < 10 {
        (d + 48) as char
    } else {
        (d + 55) as char
    }
}

/// Appends the decimal text of `n`.
pub fn push_decimal(out: &mut String, n: u64)
    ensures
        final(out)@ == old(out)@ + dec_nat(n as nat),
    decreases n,
{
    if n >= 10 {
        push_decimal(out, n / 10);
    }
    out.push(digit_to_char(n % 10));
}

/// Appends the decimal text of `v`, with a '-' when negative.
pub fn push_signed(out: &mut String, v: i32)
    ensures
        final(out)@ == old(out)@ + dec_int(v as int),
{
    if v < 0 {
        out.push('-');
        push_decimal(out, (0 - (v as i64)) as u64);
    } else {
        push_decimal(out, v as u64);
    }
}

/// Appends `#RRGGBB`, upper-case.
pub fn push_color(out: &mut String, c: Color)
    ensures
        final(out)@ == old(out)@ + color_text(c),
{
    out.push('#');
    out.push(hex_to_char(c.r / 16));
    out.push(hex_to_char(c.r % 16));
    out.push(hex_to_char(c.g / 16));
    out.push(hex_to_char(c.g % 16));
    out.push(hex_to_char(c.b / 16));
    out.push(hex_to_char(c.b % 16));
}

pub proof fn lemma_free_of_concat(a: Seq<char>, b: Seq<char>, c: char)
    requires
        free_of(a, c),
        free_of(b, c),
    ensures
        free_of(a + b, c),
{
    assert forall|i: int| 0 <= i < (a + b).len() implies (a + b)[i] != c by {
        if i >= a.len() {
            assert((a + b)[i] == b[i - a.len()]);
        }
    }
}

/// Decimal text holds neither field separator.
pub proof fn lemma_dec_int_separators(v: int)
    ensures
        free_of(dec_int(v), ':'),
        free_of(dec_int(v), ','),
{
    if v < 0 {
        lemma_dec_nat((-v) as nat);
        lemma_free_of_concat(seq!['-'], dec_nat((-v) as nat), ':');
        lemma_free_of_concat(seq!['-'], dec_nat((-v) as nat), ',');
    } else {
        lemma_dec_nat(v as nat);
    }
}

/// Color text holds neither field separator.
pub proof fn lemma_color_separators(c: Color)
    ensures
        free_of(color_text(c), ':'),
        free_of(color_text(c), ','),
{
    let s = color_text(c);
    assert(s =~= seq![
        '#',
        hex_char((c.r / 16) as nat),
        hex_char((c.r % 16) as nat),
        hex_char((c.g / 16) as nat),
        hex_char((c.g % 16) as nat),
        hex_char((c.b / 16) as nat),
        hex_char((c.b % 16) as nat),
    ]);
}

} // verus!
