//! Small building blocks for working with strings as character sequences.

use vstd::prelude::*;
use vstd::utf8::{valid_utf8, decode_utf8, encode_utf8};

verus! {

/// The characters of `s`, in order.
pub fn chars_of(s: &str) -> (v: Vec<char>)
    ensures
        v@ == s@,
{
    let mut v: Vec<char> = Vec::new();
    for c in it: s.chars()
        invariant
            v@ == it.seq().take(it.index() as int),
            it.seq() == s@,
    {
        v.push(c);
    }
    v
}

/// Appends one character with `String::push`. Trusted: the string grows by
/// exactly that character at its end.
#[verifier::external_body]
pub fn push_char(s: &mut String, c: char)
    ensures
        final(s)@ == old(s)@.push(c),
{
    s.push(c);
}

/// The text that `String::from_utf8_lossy` makes of `bytes`: their UTF-8
/// reading, with U+FFFD in place of each invalid sequence.
pub uninterp spec fn utf8_lossy(bytes: Seq<u8>) -> Seq<char>;

/// Reads bytes as UTF-8 with `String::from_utf8_lossy`. Trusted: the result
/// is [`utf8_lossy`] of the bytes; the plain UTF-8 reading when the bytes
/// are valid UTF-8; and, since valid sequences read as themselves and
/// invalid ones as U+FFFD, the text opens with U+FEFF only when the bytes
/// open with its UTF-8 form `EF BB BF`. How invalid sequences are split and
/// replaced is not stated here.
#[verifier::external_body]
pub fn from_utf8_lossy(bytes: &[u8]) -> (text: String)
    ensures
        text@ == utf8_lossy(bytes@),
        valid_utf8(bytes@) ==> text@ == decode_utf8(bytes@),
        !(bytes@.len() >= 3 && bytes@[0] == 0xEF && bytes@[1] == 0xBB && bytes@[2] == 0xBF) ==> (
        text@.len() == 0 || text@[0] != '\u{feff}'),
{
    String::from_utf8_lossy(bytes).into_owned()
}

/// The UTF-8 bytes of a string.
pub fn utf8_bytes(text: &String) -> (bytes: Vec<u8>)
    ensures
        bytes@ == encode_utf8(text@),
{
    vstd::slice::slice_to_vec(text.as_str().as_bytes())
}

/// Are `bytes` valid UTF-8? (`std::str::from_utf8` succeeds.) Trusted:
/// the answer is vstd's [`valid_utf8`] of the bytes.
#[verifier::external_body]
pub fn is_valid_utf8(bytes: &[u8]) -> (r: bool)
    ensures
        r == valid_utf8(bytes@),
{
    std::str::from_utf8(bytes).is_ok()
}

/// ASCII lower case of a byte.
pub open spec fn ascii_lower_byte(b: u8) -> u8 {
    if 0x41 <= b <= 0x5A {
        (b + 32) as u8
    } else {
        b
    }
}

/// `a` and `b` are equal when ASCII letters are compared without case
/// (`eq_ignore_ascii_case`).
pub open spec fn eq_ignore_ascii_case(a: Seq<u8>, b: Seq<u8>) -> bool {
    a.len() == b.len() && forall|i: int| 0 <= i < a.len() ==> ascii_lower_byte(a[i])
        == ascii_lower_byte(b[i])
}

/// Compares two byte strings without ASCII case.
pub fn bytes_eq_ignore_ascii_case(a: &[u8], b: &[u8]) -> (r: bool)
    ensures
        r == eq_ignore_ascii_case(a@, b@),
{
    if a.len() != b.len() {
        return false;
    }
    let mut i: usize = 0;
    while i < a.len()
        invariant
            a@.len() == b@.len(),
            i <= a@.len(),
            forall|m: int| 0 <= m < i ==> ascii_lower_byte(a@[m]) == ascii_lower_byte(b@[m]),
        decreases a.len() - i,
    {
        let x = a[i];
        let y = b[i];
        let lx = if 0x41 <= x && x <= 0x5A {
            x + 32
        } else {
            x
        };
        let ly = if 0x41 <= y && y <= 0x5A {
            y + 32
        } else {
            y
        };
        if lx != ly {
            return false;
        }
        i += 1;
    }
    true
}

/// The character of the decimal digit `d`.
pub open spec fn digit_char(d: nat) -> char {
    ((d + 48) as u32) as char
}

/// The decimal numeral of `n`, without leading zeros.
pub open spec fn decimal(n: nat) -> Seq<char>
    decreases n,
{
    if n < 10 {
        seq![digit_char(n)]
    } else {
        decimal(n / 10) + seq![digit_char(n % 10)]
    }
}

/// Appends the decimal numeral of `n`.
pub fn push_decimal(out: &mut String, n: u64)
    ensures
        final(out)@ == old(out)@ + decimal(n as nat),
    decreases n,
{
    if n >= 10 {
        push_decimal(out, n / 10);
    }
    let d = (n % 10) as u8;
    push_char(out, (d + 48) as char);
    assert(((d + 48) as u8) as char == digit_char((n % 10) as nat));
}

/// A CSV structure byte: `;`, `#`, CR or LF.
pub open spec fn is_separator_byte(b: u8) -> bool {
    b == 0x3B || b == 0x23 || b == 0x0D || b == 0x0A
}

/// A CSV structure character: `;`, `#`, CR or LF.
pub open spec fn is_separator_char(c: char) -> bool {
    c == ';' || c == '#' || c == '\r' || c == '\n'
}

/// The CSV structure bytes of `bs`, in order.
pub open spec fn separator_bytes(bs: Seq<u8>) -> Seq<u8>
    decreases bs.len(),
{
    if bs.len() == 0 {
        Seq::empty()
    } else if is_separator_byte(bs[0]) {
        seq![bs[0]] + separator_bytes(bs.drop_first())
    } else {
        separator_bytes(bs.drop_first())
    }
}

/// The CSV structure characters of `cs`, in order.
pub open spec fn separator_chars(cs: Seq<char>) -> Seq<char>
    decreases cs.len(),
{
    if cs.len() == 0 {
        Seq::empty()
    } else if is_separator_char(cs[0]) {
        seq![cs[0]] + separator_chars(cs.drop_first())
    } else {
        separator_chars(cs.drop_first())
    }
}

pub proof fn lemma_separator_bytes_concat(a: Seq<u8>, b: Seq<u8>)
    ensures
        separator_bytes(a + b) == separator_bytes(a) + separator_bytes(b),
    decreases a.len(),
{
    if a.len() == 0 {
        assert(a + b =~= b);
        assert(Seq::<u8>::empty() + separator_bytes(b) =~= separator_bytes(b));
    } else {
        lemma_separator_bytes_concat(a.drop_first(), b);
        assert((a + b).drop_first() =~= a.drop_first() + b);
        assert((a + b)[0] == a[0]);
        if is_separator_byte(a[0]) {
            assert(seq![a[0]] + (separator_bytes(a.drop_first()) + separator_bytes(b)) =~= (seq![
                a[0],
            ] + separator_bytes(a.drop_first())) + separator_bytes(b));
        }
    }
}

pub proof fn lemma_separator_chars_concat(a: Seq<char>, b: Seq<char>)
    ensures
        separator_chars(a + b) == separator_chars(a) + separator_chars(b),
    decreases a.len(),
{
    if a.len() == 0 {
        assert(a + b =~= b);
        assert(Seq::<char>::empty() + separator_chars(b) =~= separator_chars(b));
    } else {
        lemma_separator_chars_concat(a.drop_first(), b);
        assert((a + b).drop_first() =~= a.drop_first() + b);
        assert((a + b)[0] == a[0]);
        if is_separator_char(a[0]) {
            assert(seq![a[0]] + (separator_chars(a.drop_first()) + separator_chars(b)) =~= (seq![
                a[0],
            ] + separator_chars(a.drop_first())) + separator_chars(b));
        }
    }
}

/// The UTF-8 bytes of a character hold a structure byte only when the
/// character is that structure character.
proof fn lemma_separator_bytes_of_scalar(c: char)
    ensures
        separator_bytes(vstd::utf8::encode_scalar(c as u32)) == (if is_separator_char(c) {
            seq![c as u8]
        } else {
            Seq::<u8>::empty()
        }),
{
    let v = c as u32;
    let e = vstd::utf8::encode_scalar(v);
    if vstd::utf8::has_width_1_encoding(v) {
        assert(e == seq![vstd::utf8::leading_byte_width_1(v)]);
        assert(vstd::utf8::leading_byte_width_1(v) == v as u8) by (bit_vector)
            requires v <= 0x7F;
        assert(e.drop_first() =~= Seq::<u8>::empty());
        assert(separator_bytes(e.drop_first()) =~= Seq::<u8>::empty());
    } else {
        assert forall|i: int| 0 <= i < e.len() implies e[i] >= 0x80 by {
            assert(forall|x: u32| (0xC0u8 | ((x >> 6) & 0x1F) as u8) >= 0x80) by (bit_vector);
            assert(forall|x: u32| (0xE0u8 | ((x >> 12) & 0x0F) as u8) >= 0x80) by (bit_vector);
            assert(forall|x: u32| (0xF0u8 | ((x >> 18) & 0x7) as u8) >= 0x80) by (bit_vector);
            assert(forall|x: u32| (0x80u8 | (x & 0x3F) as u8) >= 0x80) by (bit_vector);
            assert(forall|x: u32| (0x80u8 | ((x >> 6) & 0x3F) as u8) >= 0x80) by (bit_vector);
            assert(forall|x: u32| (0x80u8 | ((x >> 12) & 0x3F) as u8) >= 0x80) by (bit_vector);
        }
        lemma_no_separator_bytes(e);
    }
}

proof fn lemma_no_separator_bytes(e: Seq<u8>)
    requires
        forall|i: int| 0 <= i < e.len() ==> e[i] >= 0x80,
    ensures
        separator_bytes(e) == Seq::<u8>::empty(),
    decreases e.len(),
{
    if e.len() > 0 {
        lemma_no_separator_bytes(e.drop_first());
    }
}

/// The structure bytes of UTF-8 text are the UTF-8 bytes of its structure
/// characters.
pub proof fn lemma_separator_bytes_of_utf8(cs: Seq<char>)
    ensures
        separator_bytes(encode_utf8(cs)) == encode_utf8(separator_chars(cs)),
    decreases cs.len(),
{
    if cs.len() > 0 {
        lemma_separator_bytes_of_utf8(cs.drop_first());
        lemma_separator_bytes_of_scalar(cs[0]);
        lemma_separator_bytes_concat(
            vstd::utf8::encode_scalar(cs[0] as u32),
            encode_utf8(cs.drop_first()),
        );
        if is_separator_char(cs[0]) {
            let t = seq![cs[0]] + separator_chars(cs.drop_first());
            assert(t[0] == cs[0]);
            assert(t.drop_first() =~= separator_chars(cs.drop_first()));
            assert(vstd::utf8::encode_scalar(cs[0] as u32) == seq![cs[0] as u8]) by {
                let v = cs[0] as u32;
                assert(vstd::utf8::leading_byte_width_1(v) == v as u8) by (bit_vector)
                    requires v <= 0x7F;
            }
        } else {
            assert(Seq::<u8>::empty() + encode_utf8(separator_chars(cs.drop_first())) =~= encode_utf8(
                separator_chars(cs.drop_first()),
            ));
        }
    }
}

} // verus!
