//! JSON string literals over bytes.
//!
//! A byte string is written between two quotes. The quote and the backslash
//! are written behind a backslash, the control bytes as `\b`, `\t`, `\n`, `\f`,
//! `\r` or `\u00xx` with lower-case hex digits, and every other byte as itself.
//! Each byte string has exactly one such literal, and the reader accepts no
//! other spelling.

use vstd::prelude::*;
use vstd::utf8::{
    encode_scalar, encode_utf8, encode_utf8_valid_utf8, is_ascii_chars_encode_utf8, valid_utf8,
    valid_utf8_concat,
};

verus! {

/// The byte `"`.
pub const QUOTE: u8 = 0x22;

/// The byte `\`.
pub const BACKSLASH: u8 = 0x5c;

/// The letter that follows the backslash where `b` has a two-byte escape.
pub open spec fn short_escape(b: u8) -> Option<u8> {
    if b == QUOTE {
        Some(QUOTE)
    } else if b == BACKSLASH {
        Some(BACKSLASH)
    } else if b == 0x08 {
        Some('b' as u8)
    } else if b == 0x09 {
        Some('t' as u8)
    } else if b == 0x0a {
        Some('n' as u8)
    } else if b == 0x0c {
        Some('f' as u8)
    } else if b == 0x0d {
        Some('r' as u8)
    } else {
        None
    }
}

/// The byte that a backslash and `letter` stand for, where they are a
/// two-byte escape.
pub open spec fn short_escape_value(letter: u8) -> Option<u8> {
    if letter == QUOTE {
        Some(QUOTE)
    } else if letter == BACKSLASH {
        Some(BACKSLASH)
    } else if letter == 'b' as u8 {
        Some(0x08u8)
    } else if letter == 't' as u8 {
        Some(0x09u8)
    } else if letter == 'n' as u8 {
        Some(0x0au8)
    } else if letter == 'f' as u8 {
        Some(0x0cu8)
    } else if letter == 'r' as u8 {
        Some(0x0du8)
    } else {
        None
    }
}

/// The lower-case hex digit for `n`, which is below 16.
pub open spec fn hex_digit(n: int) -> u8 {
    if n < 10 {
        (0x30 + n) as u8
    } else {
        (0x61 + n - 10) as u8
    }
}

/// The number that the lower-case hex digit `c` stands for.
pub open spec fn hex_value(c: u8) -> Option<int> {
    if 0x30 <= c <= 0x39 {
        Some(c - 0x30)
    } else if 0x61 <= c <= 0x66 {
        Some(c - 0x61 + 10)
    } else {
        None
    }
}

/// How one byte is written inside a string literal.
pub open spec fn escape_byte(b: u8) -> Seq<u8> {
    match short_escape(b) {
        Some(letter) => seq![BACKSLASH, letter],
        None => if b < 0x20 {
            seq![
                BACKSLASH,
                'u' as u8,
                '0' as u8,
                '0' as u8,
                hex_digit(b as int / 16),
                hex_digit(b as int % 16),
            ]
        } else {
            seq![b]
        },
    }
}

/// How a byte string is written inside a string literal: byte by byte.
pub open spec fn escape(s: Seq<u8>) -> Seq<u8>
    decreases s.len(),
{
    if s.len() == 0 {
        Seq::empty()
    } else {
        escape_byte(s[0]) + escape(s.skip(1))
    }
}

/// The string literal for `s`: its escaped bytes between two quotes.
pub open spec fn json_string(s: Seq<u8>) -> Seq<u8> {
    seq![QUOTE] + escape(s) + seq![QUOTE]
}

/// The byte that the escape at the head of `z` stands for, and the length of
/// that escape; `None` where `z` starts with no escape of a byte.
pub open spec fn first_token(z: Seq<u8>) -> Option<(u8, int)> {
    if z.len() == 0 {
        None
    } else if z[0] == BACKSLASH {
        if z.len() >= 2 && short_escape_value(z[1]) is Some {
            Some((short_escape_value(z[1])->0, 2))
        } else if z.len() >= 6 && z[1] == 'u' as u8 && z[2] == '0' as u8 && z[3] == '0' as u8
            && hex_value(z[4]) is Some && hex_value(z[5]) is Some {
            let v = 16 * hex_value(z[4])->0 + hex_value(z[5])->0;
            if v < 0x20 && short_escape(v as u8) is None {
                Some((v as u8, 6))
            } else {
                None
            }
        } else {
            None
        }
    } else if z[0] == QUOTE || z[0] < 0x20 {
        None
    } else {
        Some((z[0], 1))
    }
}

/// The escape of a byte never starts with a quote, and is read back as that
/// byte, whatever follows it.
pub proof fn lemma_token_of_escape(b: u8, rest: Seq<u8>)
    ensures
        escape_byte(b).len() > 0,
        escape_byte(b)[0] != QUOTE,
        first_token(escape_byte(b) + rest) == Some((b, escape_byte(b).len() as int)),
{
}

/// A token that is read at the head of `z` is the escape of the byte read.
pub proof fn lemma_escape_of_token(z: Seq<u8>)
    requires
        first_token(z) is Some,
    ensures
        ({
            let (b, n) = first_token(z)->0;
            0 < n <= z.len() && z.take(n) == escape_byte(b)
        }),
{
}

/// Escaping goes through concatenation.
pub proof fn lemma_escape_concat(a: Seq<u8>, b: Seq<u8>)
    ensures
        escape(a + b) == escape(a) + escape(b),
    decreases a.len(),
{
    if a.len() > 0 {
        lemma_escape_concat(a.skip(1), b);
        assert((a + b).skip(1) =~= a.skip(1) + b);
    }
}

/// Escaping a string with one more byte appends the escape of that byte.
pub proof fn lemma_escape_push(a: Seq<u8>, b: u8)
    ensures
        escape(a.push(b)) == escape(a) + escape_byte(b),
{
    lemma_escape_concat(a, seq![b]);
    assert(a.push(b) =~= a + seq![b]);
    let one = seq![b];
    assert(escape(one.skip(1)) =~= Seq::<u8>::empty());
}

/// Where the escape of `a` and the escape of `s` with its closing quote start
/// the same bytes, `a` starts `s`, and what follows the escape of `a` is the
/// escape of the rest of `s` with the closing quote.
pub proof fn lemma_escape_aligned(a: Seq<u8>, x: Seq<u8>, s: Seq<u8>, y: Seq<u8>)
    requires
        escape(a) + x == escape(s) + seq![QUOTE] + y,
    ensures
        a.is_prefix_of(s),
        x == escape(s.skip(a.len() as int)) + seq![QUOTE] + y,
    decreases a.len(),
{
    if a.len() == 0 {
        assert(s.skip(0) =~= s);
    } else {
        let left = escape(a.skip(1)) + x;
        assert(escape(a) + x =~= escape_byte(a[0]) + left);
        lemma_token_of_escape(a[0], left);
        if s.len() == 0 {
            assert(false);
        } else {
            let right = escape(s.skip(1)) + seq![QUOTE] + y;
            assert(escape(s) + seq![QUOTE] + y =~= escape_byte(s[0]) + right);
            lemma_token_of_escape(s[0], right);
            let n = escape_byte(a[0]).len() as int;
            assert(left =~= (escape_byte(a[0]) + left).skip(n));
            assert(right =~= (escape_byte(s[0]) + right).skip(n));
            lemma_escape_aligned(a.skip(1), x, s.skip(1), y);
            assert(s.skip(1).skip(a.skip(1).len() as int) =~= s.skip(a.len() as int));
            assert(a =~= s.take(a.len() as int)) by {
                assert forall|i: int| 0 <= i < a.len() implies a[i] == s[i] by {
                    if i > 0 {
                        assert(a[i] == a.skip(1)[i - 1]);
                    }
                }
            }
        }
    }
}

/// No string literal starts another: where two literals, each with something
/// behind it, make the same bytes, they are the same literal.
pub proof fn lemma_json_string_unique(a: Seq<u8>, x: Seq<u8>, b: Seq<u8>, y: Seq<u8>)
    requires
        json_string(a) + x == json_string(b) + y,
    ensures
        a == b,
        x == y,
{
    let left = escape(a) + (seq![QUOTE] + x);
    let right = escape(b) + seq![QUOTE] + y;
    assert(left =~= (json_string(a) + x).skip(1));
    assert(right =~= (json_string(b) + y).skip(1));
    lemma_escape_aligned(a, seq![QUOTE] + x, b, y);
    let rest = b.skip(a.len() as int);
    if rest.len() > 0 {
        let tail = escape(rest.skip(1)) + seq![QUOTE] + y;
        lemma_token_of_escape(rest[0], tail);
        assert(escape(rest) + seq![QUOTE] + y =~= escape_byte(rest[0]) + tail);
        assert(false);
    }
    assert(x =~= (seq![QUOTE] + x).skip(1));
}

/// Bytes below 0x80 are text in UTF-8.
proof fn lemma_ascii_is_text(bytes: Seq<u8>)
    requires
        forall|i: int| 0 <= i < bytes.len() ==> bytes[i] < 0x80,
    ensures
        valid_utf8(bytes),
{
    let chars = Seq::new(bytes.len(), |i: int| bytes[i] as char);
    is_ascii_chars_encode_utf8(chars);
    assert(encode_utf8(chars) =~= bytes);
    encode_utf8_valid_utf8(chars);
}

/// A byte with its first bit set by one of the marks of UTF-8 is no smaller
/// than 0x80.
proof fn lemma_marked_bytes(y: u8)
    by (bit_vector)
    ensures
        0x80u8 | y >= 0x80,
        0xC0u8 | y >= 0x80,
        0xE0u8 | y >= 0x80,
        0xF0u8 | y >= 0x80,
{
}

/// The lower seven bits of a number are below 0x80.
proof fn lemma_seven_bits(v: u32)
    by (bit_vector)
    ensures
        v & 0x7F < 0x80,
{
}

/// The escape of the UTF-8 form of one character is text in UTF-8.
proof fn lemma_escaped_char_is_text(c: char)
    ensures
        valid_utf8(escape(encode_scalar(c as u32))),
{
    let v = c as u32;
    let bytes = encode_scalar(v);
    reveal_with_fuel(escape, 5);
    if v <= 0x7F {
        lemma_seven_bits(v);
        assert(escape(bytes) =~= escape_byte(bytes[0]));
        lemma_ascii_is_text(escape_byte(bytes[0]));
    } else {
        lemma_marked_bytes(((v >> 6) & 0x1F) as u8);
        lemma_marked_bytes(((v >> 12) & 0x0F) as u8);
        lemma_marked_bytes(((v >> 18) & 0x7) as u8);
        lemma_marked_bytes((v & 0x3F) as u8);
        lemma_marked_bytes(((v >> 6) & 0x3F) as u8);
        lemma_marked_bytes(((v >> 12) & 0x3F) as u8);
        assert(forall|i: int| 0 <= i < bytes.len() ==> bytes[i] >= 0x80);
        assert(escape(bytes) =~= bytes);
        let one = seq![c];
        assert(encode_utf8(one.drop_first()) =~= Seq::<u8>::empty());
        assert(encode_utf8(one) =~= bytes);
        encode_utf8_valid_utf8(one);
    }
}

/// The escape of text in UTF-8 is text in UTF-8.
pub proof fn lemma_escaped_text_is_text(chars: Seq<char>)
    ensures
        valid_utf8(escape(encode_utf8(chars))),
    decreases chars.len(),
{
    if chars.len() > 0 {
        lemma_escaped_char_is_text(chars[0]);
        lemma_escaped_text_is_text(chars.drop_first());
        lemma_escape_concat(encode_scalar(chars[0] as u32), encode_utf8(chars.drop_first()));
        valid_utf8_concat(
            escape(encode_scalar(chars[0] as u32)),
            escape(encode_utf8(chars.drop_first())),
        );
    }
}

/// The string literal for text in UTF-8 is text in UTF-8.
pub proof fn lemma_json_string_is_text(chars: Seq<char>)
    ensures
        valid_utf8(json_string(encode_utf8(chars))),
{
    lemma_escaped_text_is_text(chars);
    lemma_ascii_is_text(seq![QUOTE]);
    valid_utf8_concat(seq![QUOTE], escape(encode_utf8(chars)));
    valid_utf8_concat(seq![QUOTE] + escape(encode_utf8(chars)), seq![QUOTE]);
}

/// Where a literal starts at `pos` and the bytes from behind its opening
/// quote up to `i` are the escape of `out`, the literal goes on at `i`: with
/// its closing quote, or with the escape of one more byte.
proof fn lemma_literal_goes_on(input: Seq<u8>, pos: int, i: int, out: Seq<u8>, s: Seq<u8>)
    requires
        0 <= pos < i <= input.len(),
        input.subrange(pos + 1, i) == escape(out),
        json_string(s).is_prefix_of(input.skip(pos)),
    ensures
        i < input.len(),
        input[i] == QUOTE || first_token(input.skip(i)) is Some,
{
    let lit = json_string(s);
    let y = input.skip(pos + lit.len());
    assert(input.skip(pos) =~= lit + y);
    assert(input.skip(pos + 1) =~= escape(s) + seq![QUOTE] + y) by {
        assert(input.skip(pos + 1) =~= input.skip(pos).skip(1));
    }
    assert(input.skip(pos + 1) =~= escape(out) + input.skip(i));
    lemma_escape_aligned(out, input.skip(i), s, y);
    let rest = s.skip(out.len() as int);
    if rest.len() > 0 {
        lemma_token_of_escape(rest[0], escape(rest.skip(1)) + seq![QUOTE] + y);
    }
}

/// Appends the escape of `b` to `out`.
fn write_escaped_byte(out: &mut Vec<u8>, b: u8)
    ensures
        final(out)@ == old(out)@ + escape_byte(b),
{
    if b == QUOTE || b == BACKSLASH {
        out.push(BACKSLASH);
        out.push(b);
    } else if b == 0x08 {
        out.push(BACKSLASH);
        out.push('b' as u8);
    } else if b == 0x09 {
        out.push(BACKSLASH);
        out.push('t' as u8);
    } else if b == 0x0a {
        out.push(BACKSLASH);
        out.push('n' as u8);
    } else if b == 0x0c {
        out.push(BACKSLASH);
        out.push('f' as u8);
    } else if b == 0x0d {
        out.push(BACKSLASH);
        out.push('r' as u8);
    } else if b < 0x20 {
        out.push(BACKSLASH);
        out.push('u' as u8);
        out.push('0' as u8);
        out.push('0' as u8);
        out.push(hex_digit_of(b / 16));
        out.push(hex_digit_of(b % 16));
    } else {
        out.push(b);
    }
}

/// The lower-case hex digit for `n`.
fn hex_digit_of(n: u8) -> (c: u8)
    requires
        n < 16,
    ensures
        c == hex_digit(n as int),
{
    if n < 10 {
        0x30 + n
    } else {
        0x61 + (n - 10)
    }
}

/// The number that the lower-case hex digit `c` stands for.
fn hex_value_of(c: u8) -> (v: Option<u8>)
    ensures
        match v {
            Some(n) => hex_value(c) == Some(n as int),
            None => hex_value(c) is None,
        },
{
    if 0x30 <= c && c <= 0x39 {
        Some(c - 0x30)
    } else if 0x61 <= c && c <= 0x66 {
        Some(c - 0x61 + 10)
    } else {
        None
    }
}

/// The byte that a backslash and `letter` stand for.
fn short_escape_value_of(letter: u8) -> (v: Option<u8>)
    ensures
        v == short_escape_value(letter),
{
    if letter == QUOTE {
        Some(QUOTE)
    } else if letter == BACKSLASH {
        Some(BACKSLASH)
    } else if letter == 'b' as u8 {
        Some(0x08)
    } else if letter == 't' as u8 {
        Some(0x09)
    } else if letter == 'n' as u8 {
        Some(0x0a)
    } else if letter == 'f' as u8 {
        Some(0x0c)
    } else if letter == 'r' as u8 {
        Some(0x0d)
    } else {
        None
    }
}

/// Reads the escape of one byte at `i`.
fn read_token(input: &[u8], i: usize) -> (r: Option<(u8, usize)>)
    requires
        i <= input@.len(),
    ensures
        match r {
            Some((b, n)) => first_token(input@.skip(i as int)) == Some((b, n as int)),
            None => first_token(input@.skip(i as int)) is None,
        },
{
    let len = input.len();
    if i >= len {
        return None;
    }
    let c = input[i];
    if c == BACKSLASH {
        if len - i < 2 {
            return None;
        }
        let letter = input[i + 1];
        match short_escape_value_of(letter) {
            Some(b) => Some((b, 2)),
            None => {
                if len - i < 6 || letter != 'u' as u8 {
                    return None;
                }
                if input[i + 2] != '0' as u8 || input[i + 3] != '0' as u8 {
                    return None;
                }
                match (hex_value_of(input[i + 4]), hex_value_of(input[i + 5])) {
                    (Some(high), Some(low)) => {
                        if high >= 2 {
                            return None;
                        }
                        let v: u8 = 16 * high + low;
                        if v == 0x08 || v == 0x09 || v == 0x0a || v == 0x0c || v == 0x0d {
                            None
                        } else {
                            Some((v, 6))
                        }
                    },
                    _ => None,
                }
            },
        }
    } else if c == QUOTE || c < 0x20 {
        None
    } else {
        Some((c, 1))
    }
}

/// Appends the string literal for `s` to `out`.
pub fn write_string(out: &mut Vec<u8>, s: &[u8])
    ensures
        final(out)@ == old(out)@ + json_string(s@),
{
    out.push(QUOTE);
    let mut i: usize = 0;
    while i < s.len()
        invariant
            i <= s@.len(),
            out@ == old(out)@ + seq![QUOTE] + escape(s@.take(i as int)),
        decreases s@.len() - i,
    {
        proof {
            lemma_escape_push(s@.take(i as int), s@[i as int]);
            assert(s@.take(i as int).push(s@[i as int]) =~= s@.take(i + 1));
        }
        write_escaped_byte(out, s[i]);
        i += 1;
    }
    out.push(QUOTE);
    proof {
        assert(s@.take(i as int) =~= s@);
    }
}

/// Reads the string literal that starts at `pos`.
///
/// Returns the bytes that the literal stands for and the position behind its
/// closing quote, or `None` where no string literal starts at `pos`.
pub fn read_string(input: &[u8], pos: usize) -> (r: Option<(Vec<u8>, usize)>)
    ensures
        match r {
            Some((out, end)) => {
                &&& pos < end <= input@.len()
                &&& input@.subrange(pos as int, end as int) == json_string(out@)
            },
            None => pos > input@.len() || forall|s: Seq<u8>|
                !(#[trigger] json_string(s)).is_prefix_of(input@.skip(pos as int)),
        },
{
    let len = input.len();
    if pos > len {
        return None;
    }
    if pos == len || input[pos] != QUOTE {
        assert forall|s: Seq<u8>|
            !(#[trigger] json_string(s)).is_prefix_of(input@.skip(pos as int)) by {
            if json_string(s).is_prefix_of(input@.skip(pos as int)) {
                assert(json_string(s)[0] == QUOTE);
            }
        }
        return None;
    }
    let mut out: Vec<u8> = Vec::new();
    let mut i: usize = pos + 1;
    loop
        invariant
            pos < i <= len,
            len == input@.len(),
            input@[pos as int] == QUOTE,
            input@.subrange(pos + 1, i as int) == escape(out@),
        decreases len - i,
    {
        if i < len && input[i] == QUOTE {
            return Some((out, i + 1));
        }
        match read_token(input, i) {
            Some((b, n)) => {
                proof {
                    lemma_escape_of_token(input@.skip(i as int));
                    lemma_escape_push(out@, b);
                    assert(input@.subrange(pos + 1, i + n) =~= input@.subrange(pos + 1, i as int)
                        + input@.skip(i as int).take(n as int));
                }
                out.push(b);
                i += n;
            },
            None => {
                assert forall|s: Seq<u8>|
                    !(#[trigger] json_string(s)).is_prefix_of(input@.skip(pos as int)) by {
                    if json_string(s).is_prefix_of(input@.skip(pos as int)) {
                        lemma_literal_goes_on(input@, pos as int, i as int, out@, s);
                    }
                }
                return None;
            },
        }
    }
}

} // verus!
