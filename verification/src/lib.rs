//! Encoding conversion for Victoria 2 localisation files.
//!
//! Victoria 2 reads its `;`-separated localisation CSV as Windows-1252.
//! Chinese translations are stored as GBK bytes that the game shows as
//! Latin-1 characters ("dummy Latin-1") through a custom font. This crate
//! converts between that game-format byte representation and readable
//! Unicode, optionally protecting Paradox control sequences with inert
//! `<...>` safe tokens, and carries the decisions of the "PA" mod migration.
#![allow(unused_imports)]

pub mod text;
pub mod gbk;
pub mod dummy_latin1;
pub mod safe_token;
pub mod convert;
pub mod path;
pub mod script_line;
pub mod pa_migrate;
pub mod request;

pub use convert::{convert_bytes, BatchScope, Stats};
pub use dummy_latin1::{dummy_latin1_to_unicode, unicode_to_dummy_latin1};
pub use pa_migrate::{PaMigrateOptions, PaMigrateReport};
pub use safe_token::{to_safe_string, to_unsafe_string};

use vstd::prelude::*;
use crate::text::chars_of;

verus! {

/// Multi-byte codepage used for the "dummy Latin-1" layer.
///
/// Only GBK (Simplified Chinese, cp936) exists today; the enum leaves room
/// for other codepages without changing the conversion API.
#[derive(Debug, Clone, Copy, PartialEq, Eq, Structural)]
pub enum Codepage {
    /// Simplified Chinese, GBK / cp936.
    Gbk,
}

impl Default for Codepage {
    fn default() -> (r: Codepage)
        ensures
            r == Codepage::Gbk,
    {
        Codepage::Gbk
    }
}

/// ASCII lower case of `c`; other characters are unchanged.
pub open spec fn ascii_lower(c: char) -> char {
    if 'A' <= c <= 'Z' {
        ((c as u32) + 32) as char
    } else {
        c
    }
}

/// ASCII lower case of every character of `s`.
pub open spec fn ascii_lower_seq(s: Seq<char>) -> Seq<char> {
    s.map_values(|c: char| ascii_lower(c))
}

/// The codepage that the command-line spelling `name` stands for: `gbk`,
/// `gb`, `gb2312`, `cp936` and `936`, in any ASCII case, all name GBK.
pub open spec fn codepage_named(name: Seq<char>) -> Option<Codepage> {
    let l = ascii_lower_seq(name);
    if l == seq!['g', 'b', 'k'] || l == seq!['g', 'b'] || l == seq!['g', 'b', '2', '3', '1', '2']
        || l == seq!['c', 'p', '9', '3', '6'] || l == seq!['9', '3', '6'] {
        Some(Codepage::Gbk)
    } else {
        None
    }
}

/// ASCII lower case of one character.
pub fn to_ascii_lower(c: char) -> (r: char)
    ensures
        r == ascii_lower(c),
{
    if 'A' <= c && c <= 'Z' {
        ((c as u8) + 32) as char
    } else {
        c
    }
}

/// Do `a` and `b` hold the same characters?
pub fn same_chars(a: &[char], b: &[char]) -> (r: bool)
    ensures
        r == (a@ == b@),
{
    if a.len() != b.len() {
        return false;
    }
    let mut i: usize = 0;
    while i < a.len()
        invariant
            a@.len() == b@.len(),
            i <= a@.len(),
            forall|m: int| 0 <= m < i ==> a@[m] == b@[m],
        decreases a.len() - i,
    {
        if a[i] != b[i] {
            return false;
        }
        i += 1;
    }
    assert(a@ =~= b@);
    true
}

impl Codepage {
    /// Parses a codepage from a command-line spelling (see [`codepage_named`]).
    pub fn parse(s: &str) -> (r: Option<Codepage>)
        ensures
            r == codepage_named(s@),
    {
        let cs = chars_of(s);
        let mut lower: Vec<char> = Vec::new();
        let mut i: usize = 0;
        while i < cs.len()
            invariant
                cs@ == s@,
                i <= cs@.len(),
                lower@ == ascii_lower_seq(s@).take(i as int),
            decreases cs.len() - i,
        {
            lower.push(to_ascii_lower(cs[i]));
            i += 1;
            assert(lower@ =~= ascii_lower_seq(s@).take(i as int));
        }
        assert(lower@ =~= ascii_lower_seq(s@));
        proof {
            reveal_strlit("gbk");
            reveal_strlit("gb");
            reveal_strlit("gb2312");
            reveal_strlit("cp936");
            reveal_strlit("936");
        }
        let gbk = chars_of("gbk");
        let gb = chars_of("gb");
        let gb2312 = chars_of("gb2312");
        let cp936 = chars_of("cp936");
        let n936 = chars_of("936");
        assert(gbk@ =~= seq!['g', 'b', 'k']);
        assert(gb@ =~= seq!['g', 'b']);
        assert(gb2312@ =~= seq!['g', 'b', '2', '3', '1', '2']);
        assert(cp936@ =~= seq!['c', 'p', '9', '3', '6']);
        assert(n936@ =~= seq!['9', '3', '6']);
        if same_chars(lower.as_slice(), gbk.as_slice()) || same_chars(lower.as_slice(), gb.as_slice())
            || same_chars(lower.as_slice(), gb2312.as_slice()) || same_chars(
            lower.as_slice(),
            cp936.as_slice(),
        ) || same_chars(lower.as_slice(), n936.as_slice()) {
            Some(Codepage::Gbk)
        } else {
            None
        }
    }
}

/// Direction of a conversion.
#[derive(Debug, Clone, Copy, PartialEq, Eq, Structural)]
pub enum Direction {
    /// Game format (GBK dummy-Latin1) -> readable Unicode (UTF-8).
    ToUnicode,
    /// Readable Unicode (UTF-8) -> game format (GBK dummy-Latin1).
    ToGame,
}

/// Options controlling a conversion.
#[derive(Debug, Clone, Copy, PartialEq, Eq, Structural)]
pub struct ConvertOptions {
    /// Codepage for the dummy-Latin1 layer.
    pub codepage: Codepage,
    /// Protect `$VAR$`/`§`/`£`/`¤` with `<...>` safe tokens (default off).
    ///
    /// Off keeps the readable text using the raw Paradox control codes, the
    /// symmetric round trip most mod workflows want. Turn it on only to
    /// shield those codes from external translation or spreadsheet tools.
    pub safe_tokens: bool,
}

impl Default for ConvertOptions {
    fn default() -> (r: ConvertOptions)
        ensures
            r == (ConvertOptions { codepage: Codepage::Gbk, safe_tokens: false }),
    {
        ConvertOptions { codepage: Codepage::Gbk, safe_tokens: false }
    }
}

impl ConvertOptions {
    /// Options from command-line values: the codepage spelling and the
    /// safe-token switch; `None` when the codepage is not known.
    pub fn from_cli(codepage: &str, safe_tokens: bool) -> (r: Option<ConvertOptions>)
        ensures
            r == (match codepage_named(codepage@) {
                Some(cp) => Some(ConvertOptions { codepage: cp, safe_tokens }),
                None => None,
            }),
    {
        match Codepage::parse(codepage) {
            Some(cp) => Some(ConvertOptions { codepage: cp, safe_tokens }),
            None => None,
        }
    }
}

/// Law: a codepage spelling is read without ASCII case.
pub proof fn lemma_codepage_ignores_case(name: Seq<char>)
    ensures
        codepage_named(name) == codepage_named(ascii_lower_seq(name)),
{
    let l = ascii_lower_seq(name);
    assert(ascii_lower_seq(l) =~= l) by {
        assert forall|i: int| 0 <= i < l.len() implies ascii_lower(l[i]) == l[i] by {
            let c = name[i];
            if 'A' <= c <= 'Z' {
                assert(l[i] == ((c as u32) + 32) as char);
            }
        }
    }
}

/// `a` and `b` are the same character up to ASCII case: equal, or an ASCII
/// capital and its small letter, 32 apart.
pub open spec fn same_up_to_ascii_case(a: char, b: char) -> bool {
    ||| a == b
    ||| 'A' <= a <= 'Z' && (b as int) == (a as int) + 32
    ||| 'A' <= b <= 'Z' && (a as int) == (b as int) + 32
}

/// Law: codepage spellings are read without ASCII case. Two spellings that
/// have the same length and agree up to ASCII case at every position name
/// the same codepage; `gbk`, `gb`, `gb2312`, `cp936` and `936` name GBK.
pub proof fn lemma_codepage_spellings(s: Seq<char>, t: Seq<char>)
    requires
        s.len() == t.len(),
        forall|i: int| 0 <= i < s.len() ==> same_up_to_ascii_case(#[trigger] s[i], t[i]),
    ensures
        codepage_named(s) == codepage_named(t),
        codepage_named(seq!['g', 'b', 'k']) == Some(Codepage::Gbk),
        codepage_named(seq!['g', 'b']) == Some(Codepage::Gbk),
        codepage_named(seq!['g', 'b', '2', '3', '1', '2']) == Some(Codepage::Gbk),
        codepage_named(seq!['c', 'p', '9', '3', '6']) == Some(Codepage::Gbk),
        codepage_named(seq!['9', '3', '6']) == Some(Codepage::Gbk),
{
    assert forall|i: int| 0 <= i < s.len() implies ascii_lower(#[trigger] s[i]) == ascii_lower(
        t[i],
    ) by {
        let a = s[i];
        let b = t[i];
        if a != b {
            if 'A' <= a <= 'Z' {
                assert(ascii_lower(a) == b);
            } else {
                assert(ascii_lower(b) == a);
            }
        }
    }
    assert(ascii_lower_seq(s) =~= ascii_lower_seq(t));
    let names = seq![
        seq!['g', 'b', 'k'],
        seq!['g', 'b'],
        seq!['g', 'b', '2', '3', '1', '2'],
        seq!['c', 'p', '9', '3', '6'],
        seq!['9', '3', '6'],
    ];
    assert(ascii_lower_seq(names[0]) =~= names[0]);
    assert(ascii_lower_seq(names[1]) =~= names[1]);
    assert(ascii_lower_seq(names[2]) =~= names[2]);
    assert(ascii_lower_seq(names[3]) =~= names[3]);
    assert(ascii_lower_seq(names[4]) =~= names[4]);
}

/// The spellings of GBK: `gbk`, `gb`, `gb2312`, `cp936`, `936`.
pub open spec fn gbk_spellings() -> Seq<Seq<char>> {
    seq![
        seq!['g', 'b', 'k'],
        seq!['g', 'b'],
        seq!['g', 'b', '2', '3', '1', '2'],
        seq!['c', 'p', '9', '3', '6'],
        seq!['9', '3', '6'],
    ]
}

/// `s` is `name` up to ASCII case.
pub open spec fn spelled_as(s: Seq<char>, name: Seq<char>) -> bool {
    s.len() == name.len() && forall|i: int| 0 <= i < s.len() ==> same_up_to_ascii_case(
        #[trigger] s[i],
        name[i],
    )
}

/// Law: a spelling names GBK exactly when it is one of the GBK spellings up
/// to ASCII case; no other spelling names a codepage.
pub proof fn lemma_codepage_named_exactly(s: Seq<char>)
    ensures
        codepage_named(s) == (if exists|k: int|
            0 <= k < gbk_spellings().len() && spelled_as(s, #[trigger] gbk_spellings()[k]) {
            Some(Codepage::Gbk)
        } else {
            None
        }),
{
    let names = gbk_spellings();
    let l = ascii_lower_seq(s);
    assert forall|i: int| 0 <= i < s.len() implies same_up_to_ascii_case(#[trigger] s[i], l[i]) by {
        let c = s[i];
        if 'A' <= c <= 'Z' {
            assert(l[i] == ((c as u32) + 32) as char);
            assert((l[i] as int) == (c as int) + 32);
        }
    }
    if exists|k: int| 0 <= k < names.len() && spelled_as(s, #[trigger] names[k]) {
        let k = choose|k: int| 0 <= k < names.len() && spelled_as(s, #[trigger] names[k]);
        lemma_codepage_spellings(s, names[k]);
    } else {
        if codepage_named(s) is Some {
            let k: int = if l == names[0] {
                0
            } else if l == names[1] {
                1
            } else if l == names[2] {
                2
            } else if l == names[3] {
                3
            } else {
                4
            };
            assert(spelled_as(s, names[k]));
        }
    }
}

} // verus!
