use crate::error::GxtError;
use vstd::prelude::*;
use vstd::slice::slice_subrange;
use vstd::std_specs::iter::IteratorSpec;
use vstd::utf8::char_u32_cast;

verus! {

pub open spec fn is_high_surrogate(u: u16) -> bool {
    0xD800 <= u <= 0xDBFF
}

pub open spec fn is_low_surrogate(u: u16) -> bool {
    0xDC00 <= u <= 0xDFFF
}

pub open spec fn is_surrogate(u: u16) -> bool {
    0xD800 <= u <= 0xDFFF
}

/// Units that the engine treats specially and that are always shown escaped.
pub open spec fn is_reserved(u: u16) -> bool {
    0x80 <= u <= 0x9F
}

/// The code point of a surrogate pair.
pub open spec fn pair_code(hi: u16, lo: u16) -> u32 {
    (0x10000 + (hi - 0xD800) * 0x400 + (lo - 0xDC00)) as u32
}

/// The upper-case hexadecimal digit of `d < 16`.
pub open spec fn hex_digit(d: int) -> char {
    (if d < 10 { 0x30 + d } else { 0x37 + d }) as u32 as char
}

/// The escape `\u{XXXX}` of a unit, with four upper-case hexadecimal digits.
pub open spec fn escape_of(u: u16) -> Seq<char> {
    seq![
        '\\',
        'u',
        '{',
        hex_digit((u / 0x1000) as int),
        hex_digit((u / 0x100 % 0x10) as int),
        hex_digit((u / 0x10 % 0x10) as int),
        hex_digit((u % 0x10) as int),
        '}',
    ]
}

/// The display text of a run of UTF-16 units: surrogate pairs become one character,
/// reserved units and unpaired surrogates become escapes, other units are shown as they are.
pub open spec fn display_of(u: Seq<u16>) -> Seq<char>
    decreases u.len(),
{
    if u.len() == 0 {
        Seq::empty()
    } else if u.len() >= 2 && is_high_surrogate(u[0]) && is_low_surrogate(u[1]) {
        seq![pair_code(u[0], u[1]) as char] + display_of(u.skip(2))
    } else if is_reserved(u[0]) || is_surrogate(u[0]) {
        escape_of(u[0]) + display_of(u.skip(1))
    } else {
        seq![u[0] as u32 as char] + display_of(u.skip(1))
    }
}

/// The little-endian unit of the two bytes of `b` at `p`.
pub open spec fn unit_at(b: Seq<u8>, p: int) -> u16 {
    (b[p] + 0x100 * b[p + 1]) as u16
}

/// The units of `b` from `p` up to the first zero unit, or `None` when `b` ends first.
pub open spec fn scan_units(b: Seq<u8>, p: int) -> Option<Seq<u16>>
    decreases b.len() - p,
{
    if p < 0 || p + 2 > b.len() {
        None
    } else if unit_at(b, p) == 0 {
        Some(Seq::empty())
    } else {
        match scan_units(b, p + 2) {
            Some(r) => Some(seq![unit_at(b, p)] + r),
            None => None,
        }
    }
}

/// The little-endian bytes of a run of units.
pub open spec fn unit_bytes(u: Seq<u16>) -> Seq<u8> {
    Seq::new(
        2 * u.len(),
        |i: int|
            if i % 2 == 0 {
                (u[i / 2] % 0x100) as u8
            } else {
                (u[i / 2] / 0x100) as u8
            },
    )
}

pub open spec fn is_hex_char(c: char) -> bool {
    ||| 0x30 <= c as u32 <= 0x39
    ||| 0x41 <= c as u32 <= 0x46
    ||| 0x61 <= c as u32 <= 0x66
}

/// The value of a hexadecimal digit.
pub open spec fn hex_char_value(c: char) -> nat {
    if c as u32 <= 0x39 {
        (c as u32 - 0x30) as nat
    } else if c as u32 <= 0x46 {
        (c as u32 - 0x37) as nat
    } else {
        (c as u32 - 0x57) as nat
    }
}

pub open spec fn all_hex(s: Seq<char>) -> bool {
    forall|i: int| 0 <= i < s.len() ==> is_hex_char(#[trigger] s[i])
}

/// The value of a run of hexadecimal digits.
pub open spec fn hex_value(s: Seq<char>) -> nat
    decreases s.len(),
{
    if s.len() == 0 {
        0
    } else {
        hex_value(s.drop_last()) * 16 + hex_char_value(s.last())
    }
}

/// The index of the first `}` of `t` at or after `j`, or its length.
pub open spec fn brace_stop(t: Seq<char>, j: int) -> int
    decreases t.len() - j,
{
    if j < 0 || j >= t.len() || t[j] == '}' {
        j
    } else {
        brace_stop(t, j + 1)
    }
}

/// The body of a braced escape: one or more hexadecimal digits whose value fits 32 bits,
/// then `}`. Gives the value and the number of characters taken, the brace included.
pub open spec fn braced_hex(t: Seq<char>) -> Option<(u32, int)> {
    let j = brace_stop(t, 0);
    if 0 < j < t.len() && all_hex(t.take(j)) && hex_value(t.take(j)) <= 0xFFFF_FFFF {
        Some((hex_value(t.take(j)) as u32, j + 1))
    } else {
        None
    }
}

/// The first token of non-empty display text: the code point it stands for and how many
/// characters it takes. A backslash starts `\\`, `\xHHHH`, `\uHHHH` or `\u{H..}`;
/// a backslash that starts none of them stands for itself.
pub open spec fn first_token(s: Seq<char>) -> (u32, int) {
    if s[0] == '\\' {
        if s.len() >= 2 && s[1] == '\\' {
            (0x5C, 2)
        } else if s.len() >= 6 && s[1] == 'x' && all_hex(s.subrange(2, 6)) {
            (hex_value(s.subrange(2, 6)) as u32, 6)
        } else if s.len() >= 6 && s[1] == 'u' && s[2] != '{' && all_hex(s.subrange(2, 6)) {
            (hex_value(s.subrange(2, 6)) as u32, 6)
        } else if s.len() >= 4 && s[1] == 'u' && s[2] == '{' && braced_hex(s.skip(3)) is Some {
            let (cp, n) = braced_hex(s.skip(3))->0;
            (cp, 3 + n)
        } else {
            (0x5C, 1)
        }
    } else {
        (s[0] as u32, 1)
    }
}

/// The UTF-16 units of a code point up to `0x10FFFF`.
pub open spec fn utf16_of(cp: u32) -> Seq<u16> {
    if cp < 0x10000 {
        seq![cp as u16]
    } else {
        seq![(0xD800 + (cp - 0x10000) / 0x400) as u16, (0xDC00 + (cp - 0x10000) % 0x400) as u16]
    }
}

/// The units that display text stands for, or the first code point above `0x10FFFF`
/// that one of its escapes names.
pub open spec fn encode_units(s: Seq<char>) -> Result<Seq<u16>, u32>
    decreases s.len(),
{
    if s.len() == 0 {
        Ok(Seq::empty())
    } else {
        let (cp, n) = first_token(s);
        if cp > 0x10FFFF {
            Err(cp)
        } else {
            match encode_units(s.skip(n)) {
                Ok(r) => Ok(utf16_of(cp) + r),
                Err(e) => Err(e),
            }
        }
    }
}

/// Relies on `char::from_u32`: it gives the char of a Unicode scalar value, and `None` otherwise.
#[verifier::external_body]
fn char_from_u32(v: u32) -> (r: Option<char>)
    ensures
        r is Some <==> (v < 0xD800 || 0xE000 <= v <= 0x10FFFF),
        r matches Some(c) ==> c as u32 == v,
{
    char::from_u32(v)
}

/// Relies on `String::push`: it appends one char.
#[verifier::external_body]
fn push_char(s: &mut String, c: char)
    ensures
        final(s)@ == old(s)@.push(c),
{
    s.push(c)
}

fn hex_digit_char(d: u16) -> (r: char)
    requires
        d < 16,
    ensures
        r == hex_digit(d as int),
        r as u32 == (if d < 10 { 0x30 + d } else { 0x37 + d }),
{
    let v: u32 = if d < 10 { 0x30 + d as u32 } else { 0x37 + d as u32 };
    match char_from_u32(v) {
        Some(c) => {
            proof {
                char_u32_cast(c, v);
            }
            c
        },
        None => '0',
    }
}

fn push_escape(out: &mut String, u: u16)
    ensures
        final(out)@ == old(out)@ + escape_of(u),
{
    push_char(out, '\\');
    push_char(out, 'u');
    push_char(out, '{');
    push_char(out, hex_digit_char(u / 0x1000));
    push_char(out, hex_digit_char(u / 0x100 % 0x10));
    push_char(out, hex_digit_char(u / 0x10 % 0x10));
    push_char(out, hex_digit_char(u % 0x10));
    push_char(out, '}');
    assert(final(out)@ =~= old(out)@ + escape_of(u));
}

/// Renders a run of units as display text (see `display_of`).
pub fn units_to_string_with_escapes(units: &[u16]) -> (r: String)
    ensures
        r@ == display_of(units@),
{
    let mut out = String::new();
    let mut i: usize = 0;
    assert(units@.skip(0) =~= units@);
    assert(out@ + display_of(units@) =~= display_of(units@));
    while i < units.len()
        invariant
            i <= units@.len(),
            out@ + display_of(units@.skip(i as int)) == display_of(units@),
        decreases units@.len() - i,
    {
        let ghost t = units@.skip(i as int);
        let u = units[i];
        if 0xD800 <= u && u <= 0xDBFF && i + 1 < units.len() {
            let lo = units[i + 1];
            if 0xDC00 <= lo && lo <= 0xDFFF {
                let cp: u32 = 0x10000 + (u as u32 - 0xD800) * 0x400 + (lo as u32 - 0xDC00);
                if let Some(ch) = char_from_u32(cp) {
                    proof {
                        char_u32_cast(ch, cp);
                    }
                    push_char(&mut out, ch);
                    assert(t.skip(2) =~= units@.skip(i + 2));
                    i = i + 2;
                    continue;
                }
            }
        }
        assert(t.skip(1) =~= units@.skip(i + 1));
        if (0x80 <= u && u <= 0x9F) || (0xD800 <= u && u <= 0xDFFF) {
            push_escape(&mut out, u);
            i = i + 1;
            continue;
        }
        match char_from_u32(u as u32) {
            Some(ch) => {
                proof {
                    char_u32_cast(ch, u as u32);
                }
                push_char(&mut out, ch);
            },
            None => push_escape(&mut out, u),
        }
        i = i + 1;
    }
    assert(units@.skip(i as int) =~= Seq::<u16>::empty());
    out
}

/// Reads the zero-terminated little-endian UTF-16 value that starts at `start` and renders it.
pub fn decode_utf16z_with_escapes(val_field: &[u8], start: usize) -> (r: Result<String, GxtError>)
    ensures
        match scan_units(val_field@, start as int) {
            Some(u) => r matches Ok(s) && s@ == display_of(u),
            None => r == Err::<String, GxtError>(GxtError::TruncatedValue),
        },
{
    let mut units: Vec<u16> = Vec::new();
    let mut p: usize = start;
    loop
        invariant
            scan_units(val_field@, start as int) == match scan_units(val_field@, p as int) {
                Some(r) => Some(units@ + r),
                None => None::<Seq<u16>>,
            },
        decreases val_field@.len() - p,
    {
        if p >= val_field.len() || val_field.len() - p < 2 {
            return Err(GxtError::TruncatedValue);
        }
        let u: u16 = val_field[p] as u16 + 0x100 * (val_field[p + 1] as u16);
        assert(u == unit_at(val_field@, p as int));
        if u == 0 {
            assert(units@ + Seq::<u16>::empty() =~= units@);
            return Ok(units_to_string_with_escapes(units.as_slice()));
        }
        let ghost before = units@;
        units.push(u);
        proof {
            match scan_units(val_field@, p + 2) {
                Some(r) => assert(before + (seq![u] + r) =~= units@ + r),
                None => {},
            }
        }
        p = p + 2;
    }
}

/// `unit_bytes` maps concatenation to concatenation.
pub proof fn lemma_unit_bytes_concat(a: Seq<u16>, b: Seq<u16>)
    ensures
        unit_bytes(a + b) == unit_bytes(a) + unit_bytes(b),
{
    let l = unit_bytes(a + b);
    let r = unit_bytes(a) + unit_bytes(b);
    assert forall|i: int| 0 <= i < l.len() implies l[i] == r[i] by {
        if i >= 2 * a.len() {
            assert((i - 2 * a.len()) / 2 == i / 2 - a.len());
            assert((i - 2 * a.len()) % 2 == i % 2);
        }
    }
    assert(l =~= r);
}

/// Whether `c` is a hexadecimal digit.
pub fn is_hex(c: char) -> (r: bool)
    ensures
        r == is_hex_char(c),
{
    ('0' <= c && c <= '9') || ('a' <= c && c <= 'f') || ('A' <= c && c <= 'F')
}

fn hex_char_val(c: char) -> (r: u32)
    requires
        is_hex_char(c),
    ensures
        r == hex_char_value(c),
        r < 16,
{
    let v = c as u32;
    if v <= 0x39 {
        v - 0x30
    } else if v <= 0x46 {
        v - 0x37
    } else {
        v - 0x57
    }
}

/// Parses exactly four hexadecimal digits, in either case.
pub fn parse_fixed_4hex(hex4: &[char]) -> (r: Option<u16>)
    ensures
        r is Some <==> hex4@.len() == 4 && all_hex(hex4@),
        r matches Some(v) ==> v == hex_value(hex4@),
{
    if hex4.len() != 4 {
        return None;
    }
    let mut v: u32 = 0;
    let mut k: usize = 0;
    while k < 4
        invariant
            hex4@.len() == 4,
            k <= 4,
            all_hex(hex4@.take(k as int)),
            v == hex_value(hex4@.take(k as int)),
            v < (if k == 0 { 1int } else if k == 1 { 16 } else if k == 2 { 256 } else if k == 3 {
                4096
            } else {
                65536
            }),
        decreases 4 - k,
    {
        let c = hex4[k];
        if !is_hex(c) {
            assert(hex4@[k as int] == c);
            return None;
        }
        let d = hex_char_val(c);
        assert(hex4@.take(k + 1).drop_last() =~= hex4@.take(k as int));
        v = v * 16 + d;
        k = k + 1;
    }
    assert(hex4@.take(4) =~= hex4@);
    Some(v as u16)
}

/// Parses the body of a braced escape: hexadecimal digits up to the first `}` (see `braced_hex`).
pub fn parse_braced_hex(input: &[char]) -> (r: Option<(u32, usize)>)
    ensures
        match r {
            Some((v, n)) => braced_hex(input@) == Some((v, n as int)),
            None => braced_hex(input@) is None,
        },
{
    let mut j: usize = 0;
    while j < input.len() && input[j] != '}'
        invariant
            j <= input@.len(),
            brace_stop(input@, j as int) == brace_stop(input@, 0),
        decreases input@.len() - j,
    {
        j = j + 1;
    }
    if j == 0 || j >= input.len() {
        return None;
    }
    assert(brace_stop(input@, 0) == j as int);
    let ghost t = input@.take(j as int);
    let mut acc: u64 = 0;
    let mut k: usize = 0;
    while k < j
        invariant
            j < input@.len(),
            brace_stop(input@, 0) == j as int,
            t == input@.take(j as int),
            k <= j,
            all_hex(t.take(k as int)),
            acc == (if hex_value(t.take(k as int)) < 0x1_0000_0000 {
                hex_value(t.take(k as int))
            } else {
                0x1_0000_0000
            }),
        decreases j - k,
    {
        let c = input[k];
        if !is_hex(c) {
            assert(t[k as int] == c);
            assert(!all_hex(t));
            return None;
        }
        let d = hex_char_val(c);
        assert(t.take(k + 1).drop_last() =~= t.take(k as int));
        acc = acc * 16 + d as u64;
        if acc > 0x1_0000_0000 {
            acc = 0x1_0000_0000;
        }
        k = k + 1;
    }
    assert(t.take(j as int) =~= t);
    if acc > 0xFFFF_FFFF {
        return None;
    }
    Some((acc as u32, j + 1))
}

/// The code point and length of the token of `cs` at `i` (see `first_token`).
fn scan_token(cs: &[char], i: usize) -> (r: (u32, usize))
    requires
        i < cs@.len(),
    ensures
        r.0 == first_token(cs@.skip(i as int)).0,
        r.1 == first_token(cs@.skip(i as int)).1,
{
    let ghost t = cs@.skip(i as int);
    let n = cs.len();
    let c = cs[i];
    if c != '\\' {
        return (c as u32, 1);
    }
    if i + 1 < n && cs[i + 1] == '\\' {
        return (0x5C, 2);
    }
    if n - i > 5 && cs[i + 1] == 'x' {
        let h = slice_subrange(cs, i + 2, i + 6);
        assert(h@ =~= t.subrange(2, 6));
        if let Some(u) = parse_fixed_4hex(h) {
            return (u as u32, 6);
        }
    }
    if n - i > 5 && cs[i + 1] == 'u' && cs[i + 2] != '{' {
        let h = slice_subrange(cs, i + 2, i + 6);
        assert(h@ =~= t.subrange(2, 6));
        if let Some(u) = parse_fixed_4hex(h) {
            return (u as u32, 6);
        }
    }
    if n - i > 3 && cs[i + 1] == 'u' && cs[i + 2] == '{' {
        let rest = slice_subrange(cs, i + 3, n);
        assert(rest@ =~= t.skip(3));
        if let Some((cp, consumed)) = parse_braced_hex(rest) {
            return (cp, 3 + consumed);
        }
    }
    (0x5C, 1)
}

/// Appends the two little-endian bytes of `u`.
pub fn push_u16_le(out: &mut Vec<u8>, u: u16)
    ensures
        final(out)@ == old(out)@ + unit_bytes(seq![u]),
{
    out.push((u % 0x100) as u8);
    out.push((u / 0x100) as u8);
    assert(final(out)@ =~= old(out)@ + unit_bytes(seq![u]));
}

fn push_code(out: &mut Vec<u8>, cp: u32)
    requires
        cp <= 0x10FFFF,
    ensures
        final(out)@ == old(out)@ + unit_bytes(utf16_of(cp)),
{
    if cp < 0x10000 {
        push_u16_le(out, cp as u16);
    } else {
        let hi = (0xD800 + (cp - 0x10000) / 0x400) as u16;
        let lo = (0xDC00 + (cp - 0x10000) % 0x400) as u16;
        push_u16_le(out, hi);
        push_u16_le(out, lo);
        proof {
            lemma_unit_bytes_concat(seq![hi], seq![lo]);
            assert(seq![hi] + seq![lo] =~= utf16_of(cp));
        }
    }
}

fn chars_of(s: &str) -> (r: Vec<char>)
    ensures
        r@ == s@,
{
    let mut out: Vec<char> = Vec::new();
    let mut it = s.chars();
    loop
        invariant
            out@ + it.remaining() == s@,
            it.decrease() is Some,
        decreases it.decrease()->0,
    {
        match it.next() {
            Some(c) => {
                out.push(c);
            },
            None => {
                return out;
            },
        }
    }
}

/// The bytes written for a value: its units and a zero terminator, little-endian.
pub open spec fn value_bytes(u: Seq<u16>) -> Seq<u8> {
    unit_bytes(u.push(0))
}

/// Appends the zero-terminated little-endian UTF-16 units that the display text `s` stands
/// for, and returns how many bytes that was.
pub fn encode_utf16z_with_escapes(s: &str, out: &mut Vec<u8>) -> (r: Result<u32, GxtError>)
    ensures
        match encode_units(s@) {
            Ok(u) => if value_bytes(u).len() <= u32::MAX {
                &&& r == Ok::<u32, GxtError>(value_bytes(u).len() as u32)
                &&& final(out)@ == old(out)@ + value_bytes(u)
            } else {
                &&& r == Err::<u32, GxtError>(GxtError::ValueSectionTooLarge)
                &&& final(out)@ == old(out)@
            },
            Err(cp) => {
                &&& r == Err::<u32, GxtError>(GxtError::InvalidEscapeCodepoint { codepoint: cp })
                &&& final(out)@ == old(out)@
            },
        },
{
    let cs = chars_of(s);
    let n = cs.len();
    let mut buf: Vec<u8> = Vec::new();
    let ghost mut done: Seq<u16> = Seq::empty();
    let mut i: usize = 0;
    assert(cs@.skip(0) =~= cs@);
    while i < n
        invariant
            n == cs@.len(),
            cs@ == s@,
            i <= n,
            buf@ == unit_bytes(done),
            encode_units(s@) == match encode_units(cs@.skip(i as int)) {
                Ok(r) => Ok(done + r),
                Err(e) => Err(e),
            },
        decreases n - i,
    {
        let ghost t = cs@.skip(i as int);
        let (cp, k) = scan_token(cs.as_slice(), i);
        if cp > 0x10FFFF {
            return Err(GxtError::InvalidEscapeCodepoint { codepoint: cp });
        }
        push_code(&mut buf, cp);
        proof {
            lemma_unit_bytes_concat(done, utf16_of(cp));
            assert(t.skip(k as int) =~= cs@.skip(i + k));
            match encode_units(cs@.skip(i + k)) {
                Ok(r) => assert(done + (utf16_of(cp) + r) =~= (done + utf16_of(cp)) + r),
                Err(e) => {},
            }
            done = done + utf16_of(cp);
        }
        i = i + k;
    }
    assert(cs@.skip(i as int) =~= Seq::<char>::empty());
    assert(done + Seq::<u16>::empty() =~= done);
    push_u16_le(&mut buf, 0);
    proof {
        lemma_unit_bytes_concat(done, seq![0u16]);
        assert(done + seq![0u16] =~= done.push(0));
    }
    if buf.len() > 0xFFFF_FFFF {
        return Err(GxtError::ValueSectionTooLarge);
    }
    let written = buf.len() as u32;
    out.append(&mut buf);
    Ok(written)
}

/// After a backslash, `rest` starts no escape, so the backslash stands for itself.
pub open spec fn lone_backslash(rest: Seq<char>) -> bool {
    first_token(seq!['\\'] + rest) == (0x5Cu32, 1int)
}

/// Each backslash unit of `u` is followed, in the display text, by text that starts no escape.
pub open spec fn plain_backslashes(u: Seq<u16>) -> bool {
    forall|i: int|
        #![trigger u[i]]
        0 <= i < u.len() && u[i] == 0x5C ==> lone_backslash(display_of(u.skip(i + 1)))
}

proof fn lemma_scalar_cast(v: u32)
    requires
        v < 0xD800 || 0xE000 <= v <= 0x10FFFF,
    ensures
        (v as char) as u32 == v,
{
}

proof fn lemma_hex_digit(d: int)
    requires
        0 <= d < 16,
    ensures
        is_hex_char(hex_digit(d)),
        hex_char_value(hex_digit(d)) == d,
        hex_digit(d) != '}',
{
    let v: u32 = (if d < 10 { 0x30 + d } else { 0x37 + d }) as u32;
    lemma_scalar_cast(v);
    assert('}' as u32 == 0x7D);
}

proof fn lemma_hex_value_4(a: Seq<char>)
    requires
        a.len() == 4,
    ensures
        hex_value(a) == hex_char_value(a[0]) * 4096 + hex_char_value(a[1]) * 256
            + hex_char_value(a[2]) * 16 + hex_char_value(a[3]),
{
    let a3 = a.drop_last();
    let a2 = a3.drop_last();
    let a1 = a2.drop_last();
    let a0 = a1.drop_last();
    assert(a0.len() == 0);
    assert(hex_value(a0) == 0);
    assert(hex_value(a1) == hex_char_value(a[0]));
    assert(hex_value(a2) == hex_char_value(a[0]) * 16 + hex_char_value(a[1]));
    assert(hex_value(a3) == (hex_char_value(a[0]) * 16 + hex_char_value(a[1])) * 16
        + hex_char_value(a[2]));
}

proof fn lemma_escape_token(x: u16, rest: Seq<char>)
    ensures
        first_token(escape_of(x) + rest) == (x as u32, 8int),
{
    let s = escape_of(x) + rest;
    let t = s.skip(3);
    let d0 = (x / 0x1000) as int;
    let d1 = (x / 0x100 % 0x10) as int;
    let d2 = (x / 0x10 % 0x10) as int;
    let d3 = (x % 0x10) as int;
    lemma_hex_digit(d0);
    lemma_hex_digit(d1);
    lemma_hex_digit(d2);
    lemma_hex_digit(d3);
    assert(t[0] == hex_digit(d0) && t[1] == hex_digit(d1) && t[2] == hex_digit(d2) && t[3]
        == hex_digit(d3) && t[4] == '}');
    assert(brace_stop(t, 4) == 4);
    assert(brace_stop(t, 3) == 4);
    assert(brace_stop(t, 2) == 4);
    assert(brace_stop(t, 1) == 4);
    assert(brace_stop(t, 0) == 4);
    let h = t.take(4);
    assert(all_hex(h));
    lemma_hex_value_4(h);
    assert(d0 * 4096 + d1 * 256 + d2 * 16 + d3 == x) by (nonlinear_arith)
        requires
            d0 == x / 0x1000,
            d1 == x / 0x100 % 0x10,
            d2 == x / 0x10 % 0x10,
            d3 == x % 0x10,
            0 <= x < 0x10000,
    ;
    assert(braced_hex(t) == Some((x as u32, 5int)));
}

proof fn lemma_pair_units(h: u16, l: u16)
    requires
        is_high_surrogate(h),
        is_low_surrogate(l),
    ensures
        0x10000 <= pair_code(h, l) <= 0x10FFFF,
        (pair_code(h, l) as char) as u32 == pair_code(h, l),
        utf16_of(pair_code(h, l)) == seq![h, l],
{
    let a = h - 0xD800;
    let b = l - 0xDC00;
    let cp = pair_code(h, l);
    assert(cp - 0x10000 == a * 0x400 + b);
    assert((a * 0x400 + b) / 0x400 == a && (a * 0x400 + b) % 0x400 == b) by (nonlinear_arith)
        requires
            0 <= a < 0x400,
            0 <= b < 0x400,
    ;
    lemma_scalar_cast(cp);
}

proof fn lemma_plain_backslashes_skip(u: Seq<u16>, k: int)
    requires
        plain_backslashes(u),
        0 <= k <= u.len(),
    ensures
        plain_backslashes(u.skip(k)),
{
    let v = u.skip(k);
    assert forall|i: int| 0 <= i < v.len() && v[i] == 0x5C implies lone_backslash(
        display_of(v.skip(i + 1)),
    ) by {
        assert(u[i + k] == 0x5C);
        assert(v.skip(i + 1) =~= u.skip(i + k + 1));
    }
}

/// The display text of units whose backslashes stand alone encodes back to those units.
pub proof fn lemma_display_encodes_back(u: Seq<u16>)
    requires
        plain_backslashes(u),
    ensures
        encode_units(display_of(u)) == Ok::<Seq<u16>, u32>(u),
    decreases u.len(),
{
    if u.len() == 0 {
        assert(u =~= Seq::<u16>::empty());
        return;
    }
    let d = display_of(u);
    if u.len() >= 2 && is_high_surrogate(u[0]) && is_low_surrogate(u[1]) {
        let cp = pair_code(u[0], u[1]);
        lemma_plain_backslashes_skip(u, 2);
        lemma_display_encodes_back(u.skip(2));
        lemma_pair_units(u[0], u[1]);
        assert(d[0] == cp as char);
        assert(first_token(d) == (cp, 1int));
        assert(d.skip(1) =~= display_of(u.skip(2)));
        assert(seq![u[0], u[1]] + u.skip(2) =~= u);
    } else if is_reserved(u[0]) || is_surrogate(u[0]) {
        lemma_plain_backslashes_skip(u, 1);
        lemma_display_encodes_back(u.skip(1));
        lemma_escape_token(u[0], display_of(u.skip(1)));
        assert(d.skip(8) =~= display_of(u.skip(1)));
        assert(utf16_of(u[0] as u32) =~= seq![u[0]]);
        assert(seq![u[0]] + u.skip(1) =~= u);
    } else {
        let c = u[0] as u32 as char;
        lemma_scalar_cast(u[0] as u32);
        lemma_plain_backslashes_skip(u, 1);
        lemma_display_encodes_back(u.skip(1));
        if u[0] == 0x5C {
            assert(lone_backslash(display_of(u.skip(1))));
            assert(d =~= seq!['\\'] + display_of(u.skip(1)));
        }
        assert(first_token(d) == (u[0] as u32, 1int));
        assert(d.skip(1) =~= display_of(u.skip(1)));
        assert(utf16_of(u[0] as u32) =~= seq![u[0]]);
        assert(seq![u[0]] + u.skip(1) =~= u);
    }
}

/// The units that a scan finds hold no zero.
pub proof fn lemma_scan_no_zero(b: Seq<u8>, p: int)
    requires
        scan_units(b, p) is Some,
    ensures
        forall|i: int|
            0 <= i < scan_units(b, p)->0.len() ==> #[trigger] scan_units(b, p)->0[i] != 0,
    decreases b.len() - p,
{
    if unit_at(b, p) != 0 {
        lemma_scan_no_zero(b, p + 2);
        let r = scan_units(b, p + 2)->0;
        assert forall|i: int| 0 <= i < r.len() + 1 implies (seq![unit_at(b, p)] + r)[i] != 0 by {
            if i > 0 {
                assert((seq![unit_at(b, p)] + r)[i] == r[i - 1]);
            }
        }
    }
}

/// Where the bytes of zero-free units and a terminator stand in `b` at `p`, scanning from
/// unit `k` of them finds the units from `k`.
pub proof fn lemma_scan_value_bytes(b: Seq<u8>, p: int, u: Seq<u16>, k: int)
    requires
        forall|i: int| 0 <= i < u.len() ==> #[trigger] u[i] != 0,
        0 <= k <= u.len(),
        0 <= p,
        p + value_bytes(u).len() <= b.len(),
        forall|i: int| 0 <= i < value_bytes(u).len() ==> b[p + i] == #[trigger] value_bytes(u)[i],
    ensures
        scan_units(b, p + 2 * k) == Some(u.skip(k)),
    decreases u.len() - k,
{
    let vb = value_bytes(u);
    let w = u.push(0)[k];
    assert(b[p + 2 * k] == vb[2 * k]);
    assert(b[p + 2 * k + 1] == vb[2 * k + 1]);
    assert(vb[2 * k] == (w % 0x100) as u8);
    assert(vb[2 * k + 1] == (w / 0x100) as u8);
    assert(unit_at(b, p + 2 * k) == w);
    if k == u.len() {
        assert(u.skip(k) =~= Seq::<u16>::empty());
    } else {
        lemma_scan_value_bytes(b, p, u, k + 1);
        assert(p + 2 * k + 2 == p + 2 * (k + 1));
        assert(seq![u[k]] + u.skip(k + 1) =~= u.skip(k));
    }
}

/// The escape round trip: text that the value decoder produced encodes back to the units it
/// was decoded from, which, written with their terminator, decode to the same text again.
/// The one exception is a backslash unit followed by text that starts an escape
/// (`plain_backslashes` leaves it out): its display text reads back differently.
pub proof fn lemma_escape_round_trip(b: Seq<u8>, p: int)
    requires
        scan_units(b, p) is Some,
        plain_backslashes(scan_units(b, p)->0),
    ensures
        encode_units(display_of(scan_units(b, p)->0)) == Ok::<Seq<u16>, u32>(scan_units(b, p)->0),
        scan_units(value_bytes(scan_units(b, p)->0), 0) == Some(scan_units(b, p)->0),
{
    let u = scan_units(b, p)->0;
    lemma_display_encodes_back(u);
    lemma_scan_no_zero(b, p);
    lemma_scan_value_bytes(value_bytes(u), 0, u, 0);
    assert(u.skip(0) =~= u);
}

} // verus!
