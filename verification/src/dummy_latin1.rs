//! The "dummy Latin-1" layer: game bytes <-> Unicode text.
//!
//! The game reads every byte as a Latin-1 character; a Chinese font draws
//! GBK byte pairs as Chinese characters. Reading game bytes:
//! - a byte below 0x80 is ASCII;
//! - `£` (0xA3), `¤` (0xA4) and `§` (0xA7) followed by an ASCII byte or by
//!   nothing are the Paradox control characters themselves;
//! - otherwise a GBK lead byte (0x81..=0xFE) and a trail byte (0x40..=0x7E,
//!   0x80..=0xFE) that GBK maps to one character are that character;
//! - any other byte is read as the Latin-1 character of the same number.
//!
//! Writing game bytes, ASCII and the three control characters take one byte
//! each; every other character that GBK can represent takes its GBK bytes;
//! a remaining character up to U+00FF takes its Latin-1 byte, and anything
//! else becomes `?`.
//!
//! Structural characters of the CSV files (`;`, `#`, line breaks) are below
//! 0x40 and so are never read as part of a GBK pair.

use vstd::prelude::*;
use crate::Codepage;
use crate::gbk::{gbk_char_encoded, gbk_pair_decoded, gbk_decode_pair, gbk_encode_char};
use crate::text::{chars_of, push_char, is_separator_byte, is_separator_char, separator_bytes, separator_chars};
use vstd::utf8::encode_utf8;

verus! {

/// `b` is one of the Paradox control bytes `£`, `¤`, `§`.
pub open spec fn is_control_byte(b: u8) -> bool {
    b == 0xA3 || b == 0xA4 || b == 0xA7
}

/// `c` is one of the Paradox control characters `£`, `¤`, `§`.
pub open spec fn is_control_char(c: char) -> bool {
    c == '£' || c == '¤' || c == '§'
}

/// A byte that can open a GBK pair.
pub open spec fn is_gbk_lead(b: u8) -> bool {
    0x81 <= b <= 0xFE
}

/// A byte that can close a GBK pair.
pub open spec fn is_gbk_trail(b: u8) -> bool {
    (0x40 <= b <= 0x7E) || (0x80 <= b <= 0xFE)
}

/// The one character that GBK maps the pair `lead`, `trail` to, if any.
/// Such a pair has a lead and a trail byte and a non-ASCII character (the
/// GBK decoder gives a single character for nothing else); the conditions
/// here say so.
pub open spec fn gbk_pair_char(lead: u8, trail: u8) -> Option<char> {
    if is_gbk_lead(lead) && is_gbk_trail(trail) {
        match gbk_pair_decoded(lead, trail) {
            Some(cs) => if cs.len() == 1 && (cs[0] as u32) >= 0x80 {
                Some(cs[0])
            } else {
                None
            },
            None => None,
        }
    } else {
        None
    }
}

/// The front of `bytes` is read as a GBK pair.
pub open spec fn reads_pair(bytes: Seq<u8>) -> bool {
    &&& bytes.len() >= 2
    &&& is_gbk_lead(bytes[0])
    &&& is_gbk_trail(bytes[1])
    &&& !(is_control_byte(bytes[0]) && bytes[1] < 0x80)
    &&& gbk_pair_char(bytes[0], bytes[1]) is Some
}

/// The character read at the front of the non-empty `bytes`, and how many
/// bytes it takes.
pub open spec fn game_unit(bytes: Seq<u8>) -> (char, nat) {
    if reads_pair(bytes) {
        (gbk_pair_char(bytes[0], bytes[1])->0, 2)
    } else {
        (bytes[0] as char, 1)
    }
}

/// The text that the game bytes `bytes` stand for.
pub open spec fn game_to_chars(bytes: Seq<u8>) -> Seq<char>
    decreases bytes.len(),
{
    if bytes.len() == 0 {
        Seq::empty()
    } else {
        let (c, k) = game_unit(bytes);
        seq![c] + game_to_chars(bytes.skip(k as int))
    }
}

/// The game bytes of the single character `c`.
pub open spec fn game_char_bytes(c: char) -> Seq<u8> {
    if (c as u32) < 0x80 || is_control_char(c) {
        seq![c as u8]
    } else {
        match gbk_char_encoded(c) {
            Some(bytes) => bytes,
            None => if (c as u32) <= 0xFF {
                seq![c as u8]
            } else {
                seq![0x3Fu8]
            },
        }
    }
}

/// The game bytes of the text `cs`, character after character.
pub open spec fn chars_to_game(cs: Seq<char>) -> Seq<u8>
    decreases cs.len(),
{
    if cs.len() == 0 {
        Seq::empty()
    } else {
        game_char_bytes(cs[0]) + chars_to_game(cs.drop_first())
    }
}

/// The front of `bytes` has the shape of a GBK pair that the reader tries:
/// a lead byte and a trail byte, and not a control byte before ASCII.
pub open spec fn pair_shape(bytes: Seq<u8>) -> bool {
    &&& bytes.len() >= 2
    &&& is_gbk_lead(bytes[0])
    &&& is_gbk_trail(bytes[1])
    &&& !(is_control_byte(bytes[0]) && bytes[1] < 0x80)
}

/// The text of `bytes` when `pairs[i]` is the character that the pair
/// starting at index `i` stands for (looked at only where a pair has the
/// right shape): such a pair with a character takes two bytes, any other
/// byte is its Latin-1 character.
pub open spec fn game_to_chars_with(bytes: Seq<u8>, pairs: Seq<Option<char>>) -> Seq<char>
    decreases bytes.len(),
{
    if bytes.len() == 0 {
        Seq::empty()
    } else if pair_shape(bytes) && pairs.len() > 0 && pairs[0] is Some {
        seq![pairs[0]->0] + game_to_chars_with(bytes.skip(2), pairs.skip(2))
    } else {
        seq![bytes[0] as char] + game_to_chars_with(bytes.drop_first(), pairs.drop_first())
    }
}

/// `pairs` holds, at every index where a pair of the right shape starts,
/// the character GBK maps that pair to.
pub open spec fn gbk_pairs_of(bytes: Seq<u8>, pairs: Seq<Option<char>>) -> bool {
    &&& pairs.len() == bytes.len()
    &&& forall|i: int|
        0 <= i < bytes.len() && #[trigger] pair_shape(bytes.skip(i)) ==> pairs[i] == gbk_pair_char(
            bytes[i],
            bytes[i + 1],
        )
}

proof fn lemma_game_to_chars_with(bytes: Seq<u8>, pairs: Seq<Option<char>>)
    requires
        gbk_pairs_of(bytes, pairs),
    ensures
        game_to_chars_with(bytes, pairs) == game_to_chars(bytes),
    decreases bytes.len(),
{
    if bytes.len() > 0 {
        assert(bytes.skip(0) =~= bytes);
        if pair_shape(bytes) {
            assert(pairs[0] == gbk_pair_char(bytes[0], bytes[1]));
        }
        if reads_pair(bytes) {
            let (b2, p2) = (bytes.skip(2), pairs.skip(2));
            assert forall|i: int| 0 <= i < b2.len() && #[trigger] pair_shape(b2.skip(i)) implies p2[i]
                == gbk_pair_char(b2[i], b2[i + 1]) by {
                assert(b2.skip(i) =~= bytes.skip(i + 2));
            }
            lemma_game_to_chars_with(b2, p2);
        } else {
            let (b1, p1) = (bytes.drop_first(), pairs.drop_first());
            assert forall|i: int| 0 <= i < b1.len() && #[trigger] pair_shape(b1.skip(i)) implies p1[i]
                == gbk_pair_char(b1[i], b1[i + 1]) by {
                assert(b1.skip(i) =~= bytes.skip(i + 1));
            }
            lemma_game_to_chars_with(b1, p1);
            assert(bytes.skip(1) =~= b1);
        }
    }
}

/// Reads a GBK pair through the code table.
fn read_pair(lead: u8, trail: u8) -> (r: Option<char>)
    ensures
        r == gbk_pair_char(lead, trail),
{
    match gbk_decode_pair(lead, trail) {
        Some(text) => {
            let t = text.as_str();
            if t.unicode_len() == 1 {
                Some(t.get_char(0))
            } else {
                None
            }
        },
        None => None,
    }
}

/// Does a pair of the right shape start at `input[i]`?
fn has_pair_shape(input: &[u8], i: usize) -> (r: bool)
    requires
        i < input@.len(),
    ensures
        r == pair_shape(input@.skip(i as int)),
{
    let ghost cur = input@.skip(i as int);
    if input.len() - i < 2 {
        return false;
    }
    let b = input[i];
    let t = input[i + 1];
    assert(cur[0] == b && cur[1] == t);
    0x81 <= b && b <= 0xFE && ((0x40 <= t && t <= 0x7E) || (0x80 <= t && t <= 0xFE)) && !((b == 0xA3
        || b == 0xA4 || b == 0xA7) && t < 0x80)
}

/// Decodes game-format bytes given the characters of their GBK pairs (see
/// [`game_to_chars_with`]).
pub fn decode_with_pairs(input: &[u8], pairs: &[Option<char>]) -> (text: String)
    requires
        pairs@.len() == input@.len(),
    ensures
        text@ == game_to_chars_with(input@, pairs@),
{
    let ghost s = input@;
    let ghost ps = pairs@;
    let n = input.len();
    let mut out = String::new();
    let mut i: usize = 0;
    assert(s.skip(0) =~= s);
    assert(ps.skip(0) =~= ps);
    while i < n
        invariant
            s == input@,
            ps == pairs@,
            n == s.len() == ps.len(),
            i <= n,
            game_to_chars_with(s, ps) == out@ + game_to_chars_with(s.skip(i as int), ps.skip(
                i as int,
            )),
        decreases n - i,
    {
        let ghost cur = s.skip(i as int);
        let ghost pcur = ps.skip(i as int);
        assert(cur[0] == input[i as int]);
        assert(pcur[0] == pairs[i as int]);
        let shaped = has_pair_shape(input, i);
        let pick = if shaped {
            pairs[i]
        } else {
            None
        };
        match pick {
            Some(c) => {
                push_char(&mut out, c);
                assert(cur.skip(2) =~= s.skip(i + 2));
                assert(pcur.skip(2) =~= ps.skip(i + 2));
                i += 2;
            },
            None => {
                push_char(&mut out, input[i] as char);
                assert(cur.drop_first() =~= s.skip(i + 1));
                assert(pcur.drop_first() =~= ps.skip(i + 1));
                i += 1;
            },
        }
    }
    assert(s.skip(n as int) =~= Seq::<u8>::empty());
    out
}

/// Decodes game-format bytes (GBK dummy Latin-1) into readable text.
pub fn dummy_latin1_to_unicode(input: &[u8], codepage: Codepage) -> (text: String)
    ensures
        text@ == game_to_chars(input@),
{
    match codepage {
        Codepage::Gbk => {},
    }
    let n = input.len();
    let mut pairs: Vec<Option<char>> = Vec::new();
    let mut i: usize = 0;
    while i < n
        invariant
            n == input@.len(),
            i <= n,
            pairs@.len() == i,
            forall|m: int|
                0 <= m < i && #[trigger] pair_shape(input@.skip(m)) ==> pairs@[m] == gbk_pair_char(
                    input@[m],
                    input@[m + 1],
                ),
        decreases n - i,
    {
        if has_pair_shape(input, i) {
            assert(input@.skip(i as int)[0] == input@[i as int]);
            assert(input@.skip(i as int)[1] == input@[i + 1]);
            pairs.push(read_pair(input[i], input[i + 1]));
        } else {
            pairs.push(None);
        }
        i += 1;
    }
    let text = decode_with_pairs(input, pairs.as_slice());
    proof {
        lemma_game_to_chars_with(input@, pairs@);
    }
    text
}

/// The game bytes of `c` when `code` is what GBK encodes it to.
pub open spec fn game_char_bytes_with(c: char, code: Option<Seq<u8>>) -> Seq<u8> {
    if (c as u32) < 0x80 || is_control_char(c) {
        seq![c as u8]
    } else {
        match code {
            Some(bytes) => bytes,
            None => if (c as u32) <= 0xFF {
                seq![c as u8]
            } else {
                seq![0x3Fu8]
            },
        }
    }
}

/// The game bytes of the text `cs` when `codes[i]` is what GBK encodes
/// `cs[i]` to.
pub open spec fn chars_to_game_with(cs: Seq<char>, codes: Seq<Option<Seq<u8>>>) -> Seq<u8>
    decreases cs.len(),
{
    if cs.len() == 0 {
        Seq::empty()
    } else {
        game_char_bytes_with(cs[0], codes[0]) + chars_to_game_with(cs.drop_first(), codes.drop_first())
    }
}

/// The values of a list of optional byte strings.
pub open spec fn codes_view(codes: Seq<Option<Vec<u8>>>) -> Seq<Option<Seq<u8>>> {
    codes.map_values(|c: Option<Vec<u8>>| match c {
        Some(v) => Some(v@),
        None => None,
    })
}

/// Encodes text given the GBK codes of its characters (see
/// [`chars_to_game_with`]).
pub fn encode_with_codes(text: &str, codes: &[Option<Vec<u8>>]) -> (bytes: Vec<u8>)
    requires
        codes@.len() == text@.len(),
    ensures
        bytes@ == chars_to_game_with(text@, codes_view(codes@)),
{
    let cs = chars_of(text);
    let ghost s = text@;
    let ghost cv = codes_view(codes@);
    let mut out: Vec<u8> = Vec::new();
    let mut i: usize = 0;
    assert(s.skip(0) =~= s);
    assert(cv.skip(0) =~= cv);
    while i < cs.len()
        invariant
            cs@ == s,
            cv == codes_view(codes@),
            cv.len() == s.len(),
            i <= s.len(),
            chars_to_game_with(s, cv) == out@ + chars_to_game_with(s.skip(i as int), cv.skip(
                i as int,
            )),
        decreases cs.len() - i,
    {
        let ghost cur = s.skip(i as int);
        let ghost ccur = cv.skip(i as int);
        let c = cs[i];
        assert(cur[0] == c);
        assert(ccur[0] == cv[i as int]);
        let ghost old_out = out@;
        if (c as u32) < 0x80 || c == '£' || c == '¤' || c == '§' {
            out.push(c as u8);
        } else {
            match &codes[i] {
                Some(bytes) => {
                    let mut piece = bytes.clone();
                    assert(piece@ == bytes@);
                    out.append(&mut piece);
                },
                None => {
                    if (c as u32) <= 0xFF {
                        out.push(c as u8);
                    } else {
                        out.push(0x3Fu8);
                    }
                },
            }
        }
        assert(out@ =~= old_out + game_char_bytes_with(c, cv[i as int]));
        assert(cur.drop_first() =~= s.skip(i + 1));
        assert(ccur.drop_first() =~= cv.skip(i + 1));
        i += 1;
    }
    assert(s.skip(cs@.len() as int) =~= Seq::<char>::empty());
    out
}

proof fn lemma_chars_to_game_with(cs: Seq<char>, codes: Seq<Option<Seq<u8>>>)
    requires
        codes.len() == cs.len(),
        forall|i: int|
            0 <= i < cs.len() && !((cs[i] as u32) < 0x80 || is_control_char(cs[i])) ==> #[trigger] codes[i]
                == gbk_char_encoded(cs[i]),
    ensures
        chars_to_game_with(cs, codes) == chars_to_game(cs),
    decreases cs.len(),
{
    if cs.len() > 0 {
        let (c1, k1) = (cs.drop_first(), codes.drop_first());
        assert forall|i: int|
            0 <= i < c1.len() && !((c1[i] as u32) < 0x80 || is_control_char(c1[i])) implies #[trigger] k1[i]
                == gbk_char_encoded(c1[i]) by {
            assert(k1[i] == codes[i + 1]);
            assert(c1[i] == cs[i + 1]);
        }
        lemma_chars_to_game_with(c1, k1);
        if !((cs[0] as u32) < 0x80 || is_control_char(cs[0])) {
            assert(codes[0] == gbk_char_encoded(cs[0]));
        }
    }
}

/// Encodes readable text into game-format bytes (GBK dummy Latin-1).
pub fn unicode_to_dummy_latin1(text: &str, codepage: Codepage) -> (bytes: Vec<u8>)
    ensures
        bytes@ == chars_to_game(text@),
{
    match codepage {
        Codepage::Gbk => {},
    }
    let cs = chars_of(text);
    let ghost s = text@;
    let mut codes: Vec<Option<Vec<u8>>> = Vec::new();
    let mut i: usize = 0;
    while i < cs.len()
        invariant
            cs@ == s,
            i <= s.len(),
            codes@.len() == i,
            forall|m: int|
                0 <= m < i && !((s[m] as u32) < 0x80 || is_control_char(s[m])) ==> #[trigger] codes_view(
                    codes@,
                )[m] == gbk_char_encoded(s[m]),
        decreases cs.len() - i,
    {
        let c = cs[i];
        let ghost before = codes@;
        if (c as u32) < 0x80 || c == '£' || c == '¤' || c == '§' {
            codes.push(None);
        } else {
            codes.push(gbk_encode_char(c));
        }
        assert forall|m: int|
            0 <= m < i + 1 && !((s[m] as u32) < 0x80 || is_control_char(s[m])) implies #[trigger] codes_view(
                codes@,
            )[m] == gbk_char_encoded(s[m]) by {
            if m < i {
                assert(codes@[m] == before[m]);
                assert(codes_view(before)[m] == gbk_char_encoded(s[m]));
            }
        }
        i += 1;
    }
    let bytes = encode_with_codes(text, codes.as_slice());
    proof {
        lemma_chars_to_game_with(s, codes_view(codes@));
    }
    bytes
}

/// `c`, written as game bytes and followed by the game bytes `next`, is
/// read back as `c`, taking exactly its own bytes.
pub open spec fn char_reads_back(c: char, next: Seq<u8>) -> bool {
    game_unit(game_char_bytes(c) + next) == (c, game_char_bytes(c).len())
}

/// `c` has a two-byte GBK code that reads back as `c`: the code's first
/// byte is not a control byte followed by an ASCII byte, and the pair maps
/// to `c`.
pub open spec fn gbk_round_trips(c: char) -> bool {
    gbk_char_encoded(c) matches Some(code) && code.len() == 2 && !(is_control_byte(code[0])
        && code[1] < 0x80) && gbk_pair_char(code[0], code[1]) == Some(c)
}

/// Every character of `cs`, written as game bytes with the rest of the text
/// after it, is read back as itself.
pub open spec fn text_reads_back(cs: Seq<char>) -> bool {
    forall|i: int| 0 <= i < cs.len() ==> char_reads_back(cs[i], chars_to_game(cs.skip(i + 1)))
}

/// When a character is read back: an ASCII character always; a control
/// character when an ASCII byte or nothing follows; a character whose GBK
/// code is a pair that reads as a pair and maps back to it, always.
pub proof fn lemma_char_reads_back(c: char, next: Seq<u8>)
    ensures
        (c as u32) < 0x80 ==> char_reads_back(c, next),
        is_control_char(c) && (next.len() == 0 || next[0] < 0x80) ==> char_reads_back(c, next),
        ((c as u32) >= 0x80 && !is_control_char(c) && gbk_round_trips(c)) ==> char_reads_back(
            c,
            next,
        ),
{
    let e = game_char_bytes(c);
    let t = e + next;
    if (c as u32) < 0x80 {
        assert(e == seq![c as u8]);
        assert(t[0] == c as u8);
        assert(((c as u8) as char) == c);
    }
    if is_control_char(c) && (next.len() == 0 || next[0] < 0x80) {
        assert(e == seq![c as u8]);
        assert(t[0] == c as u8);
        assert((c as u8) == 0xA3u8 || (c as u8) == 0xA4u8 || (c as u8) == 0xA7u8);
        assert(((c as u8) as char) == c);
        if t.len() >= 2 {
            assert(t[1] == next[0]);
        }
    }
}

/// Law: text whose every character is read back (see [`text_reads_back`])
/// survives writing it as game bytes and reading them again.
pub proof fn lemma_text_round_trip(cs: Seq<char>)
    requires
        text_reads_back(cs),
    ensures
        game_to_chars(chars_to_game(cs)) == cs,
    decreases cs.len(),
{
    if cs.len() > 0 {
        let rest = cs.drop_first();
        assert forall|i: int| 0 <= i < rest.len() implies char_reads_back(
            rest[i],
            chars_to_game(rest.skip(i + 1)),
        ) by {
            assert(rest.skip(i + 1) =~= cs.skip(i + 2));
            assert(char_reads_back(cs[i + 1], chars_to_game(cs.skip(i + 1 + 1))));
        }
        lemma_text_round_trip(rest);
        let e = game_char_bytes(cs[0]);
        let r = chars_to_game(rest);
        assert(cs.skip(1) =~= rest);
        assert(char_reads_back(cs[0], r));
        assert((e + r).skip(e.len() as int) =~= r);
        assert(chars_to_game(cs) == e + r);
        assert(cs =~= seq![cs[0]] + rest);
    }
}

/// Each character read from `bytes` is written back as exactly the bytes it
/// was read from.
pub open spec fn bytes_write_back(bytes: Seq<u8>) -> bool
    decreases bytes.len(),
{
    if bytes.len() == 0 {
        true
    } else {
        let (c, k) = game_unit(bytes);
        game_char_bytes(c) == bytes.take(k as int) && bytes_write_back(bytes.skip(k as int))
    }
}

/// Law: game bytes of which [`bytes_write_back`] holds survive reading them
/// as text and writing the text back.
pub proof fn lemma_game_round_trip(bytes: Seq<u8>)
    requires
        bytes_write_back(bytes),
    ensures
        chars_to_game(game_to_chars(bytes)) == bytes,
    decreases bytes.len(),
{
    if bytes.len() > 0 {
        let (c, k) = game_unit(bytes);
        lemma_game_round_trip(bytes.skip(k as int));
        let cs = game_to_chars(bytes);
        assert(cs[0] == c);
        assert(cs.drop_first() =~= game_to_chars(bytes.skip(k as int)));
        assert(bytes =~= bytes.take(k as int) + bytes.skip(k as int));
    }
}

/// Law: a byte that cannot close a GBK pair (such as the CSV separators
/// `;`, `#` and the line breaks, all below 0x40) is never taken into a pair:
/// reading `a` followed by such a byte and the rest `x` reads `a` and `x`
/// apart.
pub proof fn lemma_separator_splits(a: Seq<u8>, x: Seq<u8>)
    requires
        x.len() > 0,
        !is_gbk_trail(x[0]),
    ensures
        game_to_chars(a + x) == game_to_chars(a) + game_to_chars(x),
    decreases a.len(),
{
    if a.len() == 0 {
        assert(a + x =~= x);
        assert(game_to_chars(a) =~= Seq::<char>::empty());
        assert(Seq::<char>::empty() + game_to_chars(x) =~= game_to_chars(x));
    } else {
        let t = a + x;
        assert(t[0] == a[0]);
        assert(t[1] == (if a.len() >= 2 { a[1] } else { x[0] }));
        if reads_pair(t) {
            assert(a.len() >= 2);
            assert(reads_pair(a));
            lemma_separator_splits(a.skip(2), x);
            assert(t.skip(2) =~= a.skip(2) + x);
        } else {
            assert(a.len() >= 2 ==> !reads_pair(a));
            lemma_separator_splits(a.drop_first(), x);
            assert(t.skip(1) =~= a.drop_first() + x);
            assert(a.skip(1) =~= a.drop_first());
        }
        assert(game_unit(t) == game_unit(a));
    }
}

/// Law: writing text as game bytes goes character by character, so the
/// bytes of two texts put together are their bytes put together.
pub proof fn lemma_chars_to_game_concat(a: Seq<char>, b: Seq<char>)
    ensures
        chars_to_game(a + b) == chars_to_game(a) + chars_to_game(b),
    decreases a.len(),
{
    if a.len() == 0 {
        assert(a + b =~= b);
        assert(Seq::<u8>::empty() + chars_to_game(b) =~= chars_to_game(b));
    } else {
        lemma_chars_to_game_concat(a.drop_first(), b);
        assert((a + b).drop_first() =~= a.drop_first() + b);
        assert((a + b)[0] == a[0]);
    }
}

/// Law: ASCII passes through unchanged both ways: ASCII bytes read as the
/// same characters, and those characters are written as the same bytes.
pub proof fn lemma_ascii_passes_through(bytes: Seq<u8>)
    requires
        forall|i: int| 0 <= i < bytes.len() ==> bytes[i] < 0x80,
    ensures
        game_to_chars(bytes) == bytes.map_values(|b: u8| b as char),
        chars_to_game(bytes.map_values(|b: u8| b as char)) == bytes,
    decreases bytes.len(),
{
    let cs = bytes.map_values(|b: u8| b as char);
    if bytes.len() > 0 {
        let rest = bytes.drop_first();
        lemma_ascii_passes_through(rest);
        assert(!reads_pair(bytes));
        assert(bytes.skip(1) =~= rest);
        assert(cs =~= seq![bytes[0] as char] + rest.map_values(|b: u8| b as char));
        assert(cs.drop_first() =~= rest.map_values(|b: u8| b as char));
        assert(((bytes[0] as char) as u32) < 0x80);
        assert(((bytes[0] as char) as u8) == bytes[0]);
        assert(bytes =~= seq![bytes[0]] + rest);
    } else {
        assert(cs =~= Seq::<char>::empty());
    }
}

/// Law: reading game bytes keeps their CSV structure: the structure
/// characters (`;`, `#`, CR, LF) of the text are, as UTF-8, exactly the
/// structure bytes of the game bytes. No structure byte is taken into a GBK
/// pair, and no pair reads as a structure character.
pub proof fn lemma_game_separators(g: Seq<u8>)
    ensures
        encode_utf8(separator_chars(game_to_chars(g))) == separator_bytes(g),
    decreases g.len(),
{
    if g.len() > 0 {
        let (c, k) = game_unit(g);
        lemma_game_separators(g.skip(k as int));
        let cs = game_to_chars(g);
        assert(cs[0] == c);
        assert(cs.drop_first() =~= game_to_chars(g.skip(k as int)));
        if reads_pair(g) {
            assert(!is_separator_char(c));
            assert(!is_separator_byte(g[0]) && !is_separator_byte(g[1]));
            assert(g.drop_first().drop_first() =~= g.skip(2));
            assert(g.drop_first()[0] == g[1]);
            assert(separator_bytes(g) == separator_bytes(g.drop_first()));
            assert(separator_bytes(g.drop_first()) == separator_bytes(g.skip(2)));
            assert(separator_chars(cs) == separator_chars(cs.drop_first()));
        } else {
            assert(g.drop_first() =~= g.skip(1));
            if is_separator_byte(g[0]) {
                assert(c == g[0] as char);
                assert(is_separator_char(c));
                let t = seq![c] + separator_chars(cs.drop_first());
                assert(t[0] == c && t.drop_first() =~= separator_chars(cs.drop_first()));
                assert(encode_utf8(seq![c]) =~= seq![g[0]]) by {
                    let v = c as u32;
                    assert(vstd::utf8::has_width_1_encoding(v));
                    assert(encode_utf8(seq![c]) == vstd::utf8::encode_scalar(v) + encode_utf8(
                        seq![c].drop_first(),
                    ));
                    assert(encode_utf8(seq![c].drop_first()) =~= Seq::<u8>::empty()) by {
                        assert(seq![c].drop_first() =~= Seq::<char>::empty());
                    }
                    let b = g[0];
                    assert(v == b as u32);
                    assert(vstd::utf8::leading_byte_width_1(v) == b) by (bit_vector)
                        requires v == b as u32, b <= 0x7F;
                }
                assert(encode_utf8(t) == vstd::utf8::encode_scalar(c as u32) + encode_utf8(
                    t.drop_first(),
                ));
            } else {
                assert(!is_separator_char(c));
            }
        }
    }
}

proof fn lemma_ascii_byte(c: char)
    requires
        (c as u32) < 0x80,
    ensures
        (c as u8) < 0x80,
{
    let e = game_char_bytes(c);
    assert(e == seq![c as u8]);
    assert(((c as u8) as char) == c);
}

/// Text made of ASCII, of control characters each followed by ASCII or
/// ending the text, and of characters with a two-byte GBK code that reads
/// back (see [`gbk_round_trips`]).
pub open spec fn plain_game_text(cs: Seq<char>) -> bool {
    forall|i: int|
        0 <= i < cs.len() ==> {
            ||| (#[trigger] cs[i] as u32) < 0x80
            ||| is_control_char(cs[i]) && (i + 1 == cs.len() || (cs[i + 1] as u32) < 0x80)
            ||| (cs[i] as u32) >= 0x80 && !is_control_char(cs[i]) && gbk_round_trips(cs[i])
        }
}

/// Such text is read back character by character (see
/// [`text_reads_back`]).
pub proof fn lemma_plain_text_reads_back(cs: Seq<char>)
    requires
        plain_game_text(cs),
    ensures
        text_reads_back(cs),
{
    assert forall|i: int| 0 <= i < cs.len() implies char_reads_back(
        cs[i],
        chars_to_game(#[trigger] cs.skip(i + 1)),
    ) by {
        let r = cs.skip(i + 1);
        let next = chars_to_game(r);
        let c = cs[i];
        assert((c as u32) < 0x80 || is_control_char(c) && (i + 1 == cs.len() || (cs[i + 1] as u32)
            < 0x80) || (c as u32) >= 0x80 && !is_control_char(c) && gbk_round_trips(c));
        if r.len() > 0 {
            assert(r[0] == cs[i + 1]);
            if (r[0] as u32) < 0x80 {
                assert(next == game_char_bytes(r[0]) + chars_to_game(r.drop_first()));
                assert(game_char_bytes(r[0]) == seq![r[0] as u8]);
                assert(next[0] == r[0] as u8);
                lemma_ascii_byte(r[0]);
                assert(next[0] < 0x80);
            }
        } else {
            assert(next.len() == 0);
        }
        lemma_char_reads_back(cs[i], next);
        if (c as u32) < 0x80 {
            assert(char_reads_back(c, next));
        } else if is_control_char(c) && (i + 1 == cs.len() || (cs[i + 1] as u32) < 0x80) {
            assert(next.len() == 0 || next[0] < 0x80);
            assert(char_reads_back(c, next));
        } else {
            assert(char_reads_back(c, next));
        }
    }
}

/// Law: how game bytes are read, front first, against the GBK table. Two
/// bytes are read as one character exactly when the first is a GBK lead
/// byte (0x81..=0xFE), the second a GBK trail byte (0x40..=0x7E or
/// 0x80..=0xFE), they are not a control byte (`£` 0xA3, `¤` 0xA4, `§` 0xA7)
/// before an ASCII byte, and GBK decodes them to a single non-ASCII
/// character: that character. Any other first byte is read as the Latin-1
/// character of the same number.
pub proof fn lemma_game_bytes_read_front(lead: u8, trail: u8, rest: Seq<u8>)
    ensures
        ({
            let bytes = seq![lead, trail] + rest;
            let shape = 0x81 <= lead <= 0xFE && (0x40 <= trail <= 0x7E || 0x80 <= trail <= 0xFE)
                && !((lead == 0xA3 || lead == 0xA4 || lead == 0xA7) && trail < 0x80);
            let latin1 = game_to_chars(bytes) == seq![lead as char] + game_to_chars(
                seq![trail] + rest,
            );
            match gbk_pair_decoded(lead, trail) {
                Some(cs) => if shape && cs.len() == 1 && (cs[0] as u32) >= 0x80 {
                    game_to_chars(bytes) == seq![cs[0]] + game_to_chars(rest)
                } else {
                    latin1
                },
                None => latin1,
            }
        }),
{
    let bytes = seq![lead, trail] + rest;
    assert(bytes[0] == lead && bytes[1] == trail);
    assert(bytes.skip(2) =~= rest);
    assert(bytes.drop_first() =~= seq![trail] + rest);
}

/// Law: a single byte at the end of game bytes, or one that no pair starts
/// at, is read as the Latin-1 character of the same number.
pub proof fn lemma_last_game_byte_read(b: u8)
    ensures
        game_to_chars(seq![b]) == seq![b as char],
{
    assert(!reads_pair(seq![b]));
    assert(seq![b].skip(1) =~= Seq::<u8>::empty());
    assert(game_to_chars(Seq::<u8>::empty()) == Seq::<char>::empty());
    assert(seq![b as char] + Seq::<char>::empty() =~= seq![b as char]);
}

/// Law: how readable text is written, front first, against the GBK table.
/// An ASCII character is its own byte; `£`, `¤`, `§` are the single bytes
/// 0xA3, 0xA4, 0xA7; any other character is its GBK code when GBK has one,
/// else its Latin-1 byte when it has one, else `?`. The rest of the text
/// follows, written the same way.
pub proof fn lemma_text_written_front(c: char, rest: Seq<char>)
    ensures
        (c as u32) < 0x80 ==> chars_to_game(seq![c] + rest) == seq![c as u8] + chars_to_game(
            rest,
        ),
        c == '£' ==> chars_to_game(seq![c] + rest) == seq![0xA3u8] + chars_to_game(rest),
        c == '¤' ==> chars_to_game(seq![c] + rest) == seq![0xA4u8] + chars_to_game(rest),
        c == '§' ==> chars_to_game(seq![c] + rest) == seq![0xA7u8] + chars_to_game(rest),
        (c as u32) >= 0x80 && c != '£' && c != '¤' && c != '§' ==> chars_to_game(seq![c] + rest)
            == (match gbk_char_encoded(c) {
            Some(code) => code,
            None => if (c as u32) <= 0xFF {
                seq![c as u8]
            } else {
                seq![0x3Fu8]
            },
        }) + chars_to_game(rest),
{
    let t = seq![c] + rest;
    assert(t[0] == c);
    assert(t.drop_first() =~= rest);
    assert('£' as u8 == 0xA3u8);
    assert('¤' as u8 == 0xA4u8);
    assert('§' as u8 == 0xA7u8);
}

} // verus!
