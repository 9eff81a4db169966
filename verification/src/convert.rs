//! Conversion entry points: a whole file's worth of bytes in memory, the
//! statistics of a batch, and which files of a directory tree a batch takes.

use vstd::prelude::*;
use vstd::utf8::{valid_utf8, decode_utf8, encode_utf8};
use crate::{ConvertOptions, Direction};
use crate::dummy_latin1::{
    bytes_write_back,
    chars_to_game,
    dummy_latin1_to_unicode,
    game_to_chars,
    lemma_game_round_trip,
    lemma_game_separators,
    lemma_plain_text_reads_back,
    lemma_text_round_trip,
    plain_game_text,
    text_reads_back,
    unicode_to_dummy_latin1,
};
use crate::safe_token::{
    keeps_raw,
    keeps_safe,
    lemma_raw_form_of_safe_form,
    lemma_safe_form_head,
    lemma_safe_form_separators,
    lemma_raw_form_head,
    lemma_safe_form_of_raw_form,
    raw_form,
    safe_form,
    to_safe_string,
    to_unsafe_string,
};
use crate::text::{decimal, eq_ignore_ascii_case, from_utf8_lossy, push_decimal, utf8_bytes, utf8_lossy, separator_bytes, separator_chars, lemma_separator_bytes_of_utf8};
use crate::path::{extension, has_ext, in_script_dir, under_script_dir, FsPath};

verus! {

/// The UTF-8 byte order mark.
pub open spec fn utf8_bom() -> Seq<u8> {
    seq![0xEFu8, 0xBBu8, 0xBFu8]
}

/// `bytes` without a leading UTF-8 byte order mark.
pub open spec fn without_bom(bytes: Seq<u8>) -> Seq<u8> {
    if bytes.len() >= 3 && bytes.take(3) == utf8_bom() {
        bytes.skip(3)
    } else {
        bytes
    }
}

/// The readable text (before UTF-8 encoding) of game bytes.
pub open spec fn readable_text(game: Seq<u8>, safe_tokens: bool) -> Seq<char> {
    let text = game_to_chars(game);
    if safe_tokens {
        safe_form(text)
    } else {
        text
    }
}

/// The text of UTF-8 bytes: their plain reading when they are valid UTF-8,
/// else what the lossy reading makes of them.
pub open spec fn utf8_text(bytes: Seq<u8>) -> Seq<char> {
    if valid_utf8(bytes) {
        decode_utf8(bytes)
    } else {
        utf8_lossy(bytes)
    }
}

/// The text (before game encoding) of readable UTF-8 bytes.
pub open spec fn game_text(readable: Seq<u8>, safe_tokens: bool) -> Seq<char> {
    let text = utf8_text(without_bom(readable));
    if safe_tokens {
        raw_form(text)
    } else {
        text
    }
}

/// What [`convert_bytes`] makes of `input`.
pub open spec fn converted(input: Seq<u8>, dir: Direction, opts: ConvertOptions) -> Seq<u8> {
    match dir {
        Direction::ToUnicode => encode_utf8(readable_text(input, opts.safe_tokens)),
        Direction::ToGame => chars_to_game(game_text(input, opts.safe_tokens)),
    }
}

/// The game bytes of readable text: its raw form when safe tokens are on,
/// written as game bytes.
pub fn text_to_game(text: &str, opts: &ConvertOptions) -> (out: Vec<u8>)
    ensures
        out@ == chars_to_game(if opts.safe_tokens {
            raw_form(text@)
        } else {
            text@
        }),
{
    if opts.safe_tokens {
        let raw = to_unsafe_string(text);
        unicode_to_dummy_latin1(raw.as_str(), opts.codepage)
    } else {
        unicode_to_dummy_latin1(text, opts.codepage)
    }
}

/// Converts a whole file's worth of bytes in memory.
///
/// - [`Direction::ToUnicode`]: game bytes -> readable UTF-8 (with safe tokens
///   if enabled). The whole buffer is transcoded at once; CSV separators
///   (`;`, `#`, newlines) are all below 0x40 and so never join a GBK pair.
/// - [`Direction::ToGame`]: readable UTF-8 -> game bytes. A leading UTF-8 BOM
///   on the input is ignored; invalid UTF-8 is read as U+FFFD.
///
/// With safe tokens on, writing readable bytes that do not open with a byte
/// order mark writes, as without tokens, the UTF-8 of their raw form.
pub fn convert_bytes(input: &[u8], dir: Direction, opts: &ConvertOptions) -> (out: Vec<u8>)
    ensures
        out@ == converted(input@, dir, *opts),
        dir is ToGame && opts.safe_tokens && without_bom(input@) == input@ ==> out@ == converted(
            encode_utf8(raw_form(utf8_text(input@))),
            Direction::ToGame,
            (ConvertOptions { codepage: opts.codepage, safe_tokens: false }),
        ),
{
    match dir {
        Direction::ToUnicode => {
            let unicode = dummy_latin1_to_unicode(input, opts.codepage);
            let text = if opts.safe_tokens {
                to_safe_string(unicode.as_str())
            } else {
                unicode
            };
            utf8_bytes(&text)
        },
        Direction::ToGame => {
            let n = input.len();
            let has_bom = n >= 3 && input[0] == 0xEF && input[1] == 0xBB && input[2] == 0xBF;
            let stripped: &[u8] = if has_bom {
                vstd::slice::slice_subrange(input, 3, n)
            } else {
                input
            };
            proof {
                if has_bom {
                    assert(input@.take(3) =~= utf8_bom());
                    assert(stripped@ =~= input@.skip(3));
                } else if n >= 3 {
                    assert(input@.take(3) != utf8_bom()) by {
                        if input@.take(3) == utf8_bom() {
                            assert(input@.take(3)[0] == input@[0]);
                            assert(input@.take(3)[1] == input@[1]);
                            assert(input@.take(3)[2] == input@[2]);
                        }
                    }
                }
            }
            let text = from_utf8_lossy(stripped);
            proof {
                if opts.safe_tokens && without_bom(input@) == input@ {
                    if has_bom {
                        assert(input@.take(3) =~= utf8_bom());
                    }
                    if text@.len() > 0 && (text@[0] as u32) == 0xFEFF {
                        vstd::utf8::char_u32_cast(text@[0], text@[0] as u32);
                        assert(0xFEFFu32 as char == '\u{feff}');
                    }
                    lemma_safe_tokens_compose(input@, input@, opts.codepage);
                }
            }
            text_to_game(text.as_str(), opts)
        },
    }
}

/// UTF-8 bytes open with a byte order mark only when the text opens with
/// U+FEFF.
proof fn lemma_bom_only_from_feff(t: Seq<char>)
    requires
        t.len() == 0 || (t[0] as u32) != 0xFEFF,
    ensures
        without_bom(encode_utf8(t)) == encode_utf8(t),
{
    let b = encode_utf8(t);
    if t.len() > 0 && b.len() >= 3 && b.take(3) == utf8_bom() {
        vstd::utf8::encode_utf8_first_scalar(t);
        assert(b[0] == b.take(3)[0]);
        assert(b[1] == b.take(3)[1]);
        assert(b[2] == b.take(3)[2]);
        assert(vstd::utf8::codepoint_width_3(0xEFu8, 0xBBu8, 0xBFu8) == 0xFEFFu32) by (bit_vector);
    }
    if t.len() == 0 {
        assert(b.len() == 0);
    }
}

/// Law: readable UTF-8 text survives conversion to game bytes and back
/// (a leading byte order mark is dropped) when it is valid UTF-8, every
/// character of the raw text is read back from game bytes (see
/// [`text_reads_back`]), and, with safe tokens on, the text keeps its
/// tokens through the raw form (see [`keeps_safe`]).
pub proof fn lemma_readable_round_trip(readable: Seq<u8>, opts: ConvertOptions)
    requires
        valid_utf8(without_bom(readable)),
        opts.safe_tokens ==> keeps_safe(decode_utf8(without_bom(readable))),
        text_reads_back(
            if opts.safe_tokens {
                raw_form(decode_utf8(without_bom(readable)))
            } else {
                decode_utf8(without_bom(readable))
            },
        ),
    ensures
        converted(converted(readable, Direction::ToGame, opts), Direction::ToUnicode, opts)
            == without_bom(readable),
{
    let text = decode_utf8(without_bom(readable));
    if opts.safe_tokens {
        lemma_text_round_trip(raw_form(text));
        lemma_safe_form_of_raw_form(text);
    } else {
        lemma_text_round_trip(text);
    }
    vstd::utf8::decode_utf8_encode_utf8(without_bom(readable));
}

/// Law: game bytes survive conversion to readable text and back when every
/// character read from them is written back as the same bytes (see
/// [`bytes_write_back`]), the text does not open with U+FEFF, and, with
/// safe tokens on, the text keeps its raw form through the tokens (see
/// [`keeps_raw`]).
pub proof fn lemma_game_bytes_round_trip(game: Seq<u8>, opts: ConvertOptions)
    requires
        bytes_write_back(game),
        game_to_chars(game).len() == 0 || (game_to_chars(game)[0] as u32) != 0xFEFF,
        opts.safe_tokens ==> keeps_raw(game_to_chars(game)),
    ensures
        converted(converted(game, Direction::ToUnicode, opts), Direction::ToGame, opts) == game,
{
    let text = game_to_chars(game);
    let shown = readable_text(game, opts.safe_tokens);
    lemma_game_round_trip(game);
    lemma_safe_form_head(text);
    lemma_bom_only_from_feff(shown);
    vstd::utf8::encode_utf8_valid_utf8(shown);
    vstd::utf8::encode_utf8_decode_utf8(shown);
    if opts.safe_tokens {
        lemma_raw_form_of_safe_form(text);
    }
}

/// Statistics describing a completed conversion.
#[derive(Debug, Clone, Copy, PartialEq, Eq, Structural)]
pub struct Stats {
    /// Number of files converted.
    pub files: usize,
    /// Total bytes read.
    pub bytes_in: u64,
    /// Total bytes written.
    pub bytes_out: u64,
}

impl Default for Stats {
    fn default() -> (r: Stats)
        ensures
            r == (Stats { files: 0, bytes_in: 0, bytes_out: 0 }),
    {
        Stats { files: 0, bytes_in: 0, bytes_out: 0 }
    }
}

impl Stats {
    /// Counts one more converted file with its bytes read and written.
    pub fn add_file(&mut self, bytes_in: usize, bytes_out: usize)
        requires
            old(self).files < usize::MAX,
            old(self).bytes_in + bytes_in <= u64::MAX,
            old(self).bytes_out + bytes_out <= u64::MAX,
        ensures
            final(self).files == old(self).files + 1,
            final(self).bytes_in == old(self).bytes_in + bytes_in,
            final(self).bytes_out == old(self).bytes_out + bytes_out,
    {
        self.files += 1;
        self.bytes_in += bytes_in as u64;
        self.bytes_out += bytes_out as u64;
    }

    /// Adds the counts of `other` to these.
    pub fn add(&mut self, other: &Stats)
        requires
            old(self).files + other.files <= usize::MAX,
            old(self).bytes_in + other.bytes_in <= u64::MAX,
            old(self).bytes_out + other.bytes_out <= u64::MAX,
        ensures
            final(self).files == old(self).files + other.files,
            final(self).bytes_in == old(self).bytes_in + other.bytes_in,
            final(self).bytes_out == old(self).bytes_out + other.bytes_out,
    {
        self.files += other.files;
        self.bytes_in += other.bytes_in;
        self.bytes_out += other.bytes_out;
    }

    /// The summary line `N file(s), N bytes in, N bytes out`.
    pub fn describe(&self) -> (text: String)
        ensures
            text@ == decimal(self.files as nat) + " file(s), "@ + decimal(self.bytes_in as nat)
                + " bytes in, "@ + decimal(self.bytes_out as nat) + " bytes out"@,
    {
        let mut out = String::new();
        push_decimal(&mut out, self.files as u64);
        out.append(" file(s), ");
        push_decimal(&mut out, self.bytes_in);
        out.append(" bytes in, ");
        push_decimal(&mut out, self.bytes_out);
        out.append(" bytes out");
        out
    }
}

/// Which files a directory batch picks up.
///
/// `*.csv` (localisation) is always converted. `*.txt` is Paradox script and
/// only carries display text in `events`/`decisions` folders, so its
/// handling is gated: `convert_txt` turns `*.txt` conversion on or off
/// entirely (on by default), and `txt_all_folders` widens it from just
/// `events`/`decisions` to every folder.
#[derive(Debug, Clone, Copy, PartialEq, Eq, Structural)]
pub struct BatchScope {
    /// Convert script `*.txt` at all (default `true`). When `false`, only
    /// `*.csv` is processed whatever `txt_all_folders` says.
    pub convert_txt: bool,
    /// Convert `*.txt` in every folder, not just `events`/`decisions`.
    pub txt_all_folders: bool,
}

impl Default for BatchScope {
    fn default() -> (r: BatchScope)
        ensures
            r == (BatchScope { convert_txt: true, txt_all_folders: false }),
    {
        BatchScope { convert_txt: true, txt_all_folders: false }
    }
}

pub open spec fn csv_bytes() -> Seq<u8> {
    seq![0x63u8, 0x73u8, 0x76u8]
}

pub open spec fn txt_bytes() -> Seq<u8> {
    seq![0x74u8, 0x78u8, 0x74u8]
}

/// The path has the extension `ext` (given in lower case), in any case.
pub open spec fn has_extension(path: Seq<crate::path::PartView>, ext: Seq<u8>) -> bool {
    extension(path) matches Some(e) && eq_ignore_ascii_case(e, ext)
}

/// Whether a batch over `input_dir` converts the file at `path`.
pub open spec fn batch_takes(
    input_dir: Seq<crate::path::PartView>,
    path: Seq<crate::path::PartView>,
    scope: BatchScope,
) -> bool {
    if has_extension(path, csv_bytes()) {
        true
    } else if has_extension(path, txt_bytes()) {
        scope.convert_txt && (scope.txt_all_folders || in_script_dir(input_dir, path))
    } else {
        false
    }
}

/// Should a batch over `input_dir` convert the file at `path`?
pub fn should_convert(input_dir: &FsPath, path: &FsPath, scope: BatchScope) -> (r: bool)
    ensures
        r == batch_takes(input_dir@, path@, scope),
{
    proof {
        reveal_strlit("csv");
        reveal_strlit("txt");
    }
    assert(encode_utf8("csv"@) == csv_bytes()) by {
        vstd::utf8::is_ascii_chars_encode_utf8("csv"@);
    }
    assert(encode_utf8("txt"@) == txt_bytes()) by {
        vstd::utf8::is_ascii_chars_encode_utf8("txt"@);
    }
    if has_ext(path, "csv") {
        return true;
    }
    if has_ext(path, "txt") {
        if !scope.convert_txt {
            return false;
        }
        return scope.txt_all_folders || under_script_dir(input_dir, path);
    }
    false
}

/// Law: what a batch takes. Every `*.csv` file; no `*.txt` file when
/// `convert_txt` is off; every `*.txt` file when `convert_txt` and
/// `txt_all_folders` are on; with only `convert_txt` on, a `*.txt` file
/// exactly when it lies in an `events`/`decisions` folder; and no file with
/// another extension.
pub proof fn lemma_batch_scope_rules(
    input_dir: Seq<crate::path::PartView>,
    path: Seq<crate::path::PartView>,
    scope: BatchScope,
)
    ensures
        has_extension(path, csv_bytes()) ==> batch_takes(input_dir, path, scope),
        has_extension(path, txt_bytes()) && !scope.convert_txt ==> !batch_takes(
            input_dir,
            path,
            scope,
        ),
        has_extension(path, txt_bytes()) && scope.convert_txt && scope.txt_all_folders
            ==> batch_takes(input_dir, path, scope),
        has_extension(path, txt_bytes()) && scope.convert_txt && !scope.txt_all_folders ==> (
        batch_takes(input_dir, path, scope) == in_script_dir(input_dir, path)),
        !has_extension(path, csv_bytes()) && !has_extension(path, txt_bytes()) ==> !batch_takes(
            input_dir,
            path,
            scope,
        ),
{
    if has_extension(path, csv_bytes()) && has_extension(path, txt_bytes()) {
        let e = extension(path)->0;
        assert(crate::text::ascii_lower_byte(e[0]) == crate::text::ascii_lower_byte(
            csv_bytes()[0],
        ));
        assert(crate::text::ascii_lower_byte(e[0]) == crate::text::ascii_lower_byte(
            txt_bytes()[0],
        ));
    }
}

/// Law: readable UTF-8 text (without a byte order mark) made of ASCII, of
/// control characters each followed by ASCII or ending the text, and of
/// characters with a two-byte GBK code that reads back (see
/// [`plain_game_text`]) survives conversion to game bytes and back.
pub proof fn lemma_plain_readable_round_trip(readable: Seq<u8>, opts: ConvertOptions)
    requires
        !opts.safe_tokens,
        valid_utf8(without_bom(readable)),
        plain_game_text(decode_utf8(without_bom(readable))),
    ensures
        converted(converted(readable, Direction::ToGame, opts), Direction::ToUnicode, opts)
            == without_bom(readable),
{
    lemma_plain_text_reads_back(decode_utf8(without_bom(readable)));
    lemma_readable_round_trip(readable, opts);
}

/// Law: reading game bytes gives valid UTF-8 that keeps their CSV structure:
/// its `;`, `#`, CR and LF bytes are exactly those of the game bytes, in
/// order, with or without safe tokens.
pub proof fn lemma_separators_survive_decoding(game: Seq<u8>, opts: ConvertOptions)
    ensures
        valid_utf8(converted(game, Direction::ToUnicode, opts)),
        separator_bytes(converted(game, Direction::ToUnicode, opts)) == separator_bytes(game),
{
    let text = game_to_chars(game);
    let shown = readable_text(game, opts.safe_tokens);
    vstd::utf8::encode_utf8_valid_utf8(shown);
    lemma_separator_bytes_of_utf8(shown);
    lemma_game_separators(game);
    if opts.safe_tokens {
        lemma_safe_form_separators(text);
    }
}

/// Valid UTF-8 without a byte order mark does not read as text opening with
/// U+FEFF.
proof fn lemma_no_bom_no_feff(bytes: Seq<u8>)
    requires
        valid_utf8(bytes),
        without_bom(bytes) == bytes,
    ensures
        decode_utf8(bytes).len() == 0 || (decode_utf8(bytes)[0] as u32) != 0xFEFF,
{
    let t = decode_utf8(bytes);
    vstd::utf8::decode_utf8_encode_utf8(bytes);
    if t.len() > 0 && (t[0] as u32) == 0xFEFF {
        let v = t[0] as u32;
        assert(encode_utf8(t) == vstd::utf8::encode_scalar(v) + encode_utf8(t.drop_first()));
        assert(vstd::utf8::has_width_3_encoding(v));
        assert(vstd::utf8::leading_byte_width_3(v) == 0xEFu8 && vstd::utf8::second_last_continuation_byte(
            v,
        ) == 0xBBu8 && vstd::utf8::last_continuation_byte(v) == 0xBFu8) by (bit_vector)
            requires v == 0xFEFF;
        assert(bytes.take(3) =~= utf8_bom());
    }
}

/// Law: the safe-token switch composes with the conversion. Reading game
/// bytes with tokens gives the safe form of reading them without; writing
/// readable bytes (without a byte order mark) with tokens writes, without
/// tokens, the UTF-8 of their raw form. The second half needs the reading
/// of the bytes not to open with U+FEFF, which holds for valid UTF-8 and,
/// by the lossy reading's contract, whenever it is called; [`convert_bytes`]
/// states that half for every input without a byte order mark.
pub proof fn lemma_safe_tokens_compose(game: Seq<u8>, readable: Seq<u8>, codepage: crate::Codepage)
    requires
        without_bom(readable) == readable,
        valid_utf8(readable) || utf8_lossy(readable).len() == 0 || (utf8_lossy(readable)[0] as u32)
            != 0xFEFF,
    ensures
        converted(
            game,
            Direction::ToUnicode,
            ConvertOptions { codepage, safe_tokens: true },
        ) == encode_utf8(
            safe_form(
                decode_utf8(
                    converted(game, Direction::ToUnicode, ConvertOptions { codepage, safe_tokens: false }),
                ),
            ),
        ),
        converted(readable, Direction::ToGame, ConvertOptions { codepage, safe_tokens: true })
            == converted(
            encode_utf8(raw_form(utf8_text(readable))),
            Direction::ToGame,
            ConvertOptions { codepage, safe_tokens: false },
        ),
{
    vstd::utf8::encode_utf8_decode_utf8(game_to_chars(game));
    let text = utf8_text(readable);
    if valid_utf8(readable) {
        lemma_no_bom_no_feff(readable);
    }
    let raw = raw_form(text);
    lemma_raw_form_head(text);
    assert(raw.len() == 0 || (raw[0] as u32) != 0xFEFF);
    lemma_bom_only_from_feff(raw);
    vstd::utf8::encode_utf8_valid_utf8(raw);
    vstd::utf8::encode_utf8_decode_utf8(raw);
}

} // verus!
