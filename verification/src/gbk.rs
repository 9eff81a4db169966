//! The GBK code table, as `encoding_rs` holds it.

use vstd::prelude::*;

verus! {

/// What `encoding_rs`'s GBK decoder gives for the two bytes `lead`, `trail`
/// decoded as a whole input without replacement; `None` when they are
/// malformed.
pub uninterp spec fn gbk_pair_decoded(lead: u8, trail: u8) -> Option<Seq<char>>;

/// What `encoding_rs`'s GBK encoder gives for the single character `c`;
/// `None` when GBK cannot represent it.
pub uninterp spec fn gbk_char_encoded(c: char) -> Option<Seq<u8>>;

/// Decodes the bytes `[lead, trail]` with
/// `encoding_rs::GBK.decode_without_bom_handling_and_without_replacement`.
/// Trusted: the result is [`gbk_pair_decoded`] of the two bytes, and `None`
/// exactly when that call reports a malformed sequence. As the decoder's
/// source shows, a single character comes out only of a lead byte
/// (0x81..=0xFE) with a two-byte trail (0x40..=0x7E or 0x80..=0xFE): an
/// ASCII byte or 0x80 gives a character of its own, 0xFF and other trails
/// are malformed, and a digit trail waits for four bytes. The character
/// of such a pair is written through the decoder's non-ASCII writers, so it
/// is never ASCII.
#[verifier::external_body]
pub(crate) fn gbk_decode_pair(lead: u8, trail: u8) -> (r: Option<String>)
    ensures
        match r {
            Some(text) => gbk_pair_decoded(lead, trail) == Some(text@),
            None => gbk_pair_decoded(lead, trail) is None,
        },
        match r {
            Some(text) => text@.len() == 1 ==> {
                &&& 0x81 <= lead <= 0xFE
                &&& (0x40 <= trail <= 0x7E || 0x80 <= trail <= 0xFE)
                &&& (text@[0] as u32) >= 0x80
            },
            None => true,
        },
{
    match encoding_rs::GBK.decode_without_bom_handling_and_without_replacement(&[lead, trail]) {
        Some(text) => Some(text.into_owned()),
        None => None,
    }
}

/// Encodes the single character `c` with `encoding_rs::GBK.encode`.
/// Trusted: the result is [`gbk_char_encoded`] of `c`, and `None` exactly
/// when that call reports an unmappable character.
#[verifier::external_body]
pub(crate) fn gbk_encode_char(c: char) -> (r: Option<Vec<u8>>)
    ensures
        match r {
            Some(bytes) => gbk_char_encoded(c) == Some(bytes@),
            None => gbk_char_encoded(c) is None,
        },
{
    let mut buf = [0u8; 4];
    let (bytes, _, had_errors) = encoding_rs::GBK.encode(c.encode_utf8(&mut buf));
    if had_errors {
        None
    } else {
        Some(bytes.into_owned())
    }
}

} // verus!
