//! The "PA migration": moving a Victoria 2 Chinese mod that hard-codes its
//! translations in the localisation CSVs and in the `events`, `decisions`
//! and `common` scripts (the "PA" layout) to the UTF-8
//! `assets/localisation/zh-CN` layout.
//!
//! Two phases, whose file work the caller performs:
//!
//! 1. Localisation: every file under `<mod>/localisation/` is decoded from
//!    game format to readable UTF-8 and written, mirroring the tree, into
//!    `<mod>/assets/localisation/zh-CN/`.
//! 2. Scripts: in the target folders, every `*.txt` line of the form
//!    `key = "中文" # English` whose quoted value holds Chinese becomes
//!    `key = "English"` (indentation and line endings kept), and the pair
//!    `English;中文;x` is appended to `<mod>/assets/localisation/zh-CN/<stem>.csv`.
//!
//! The affected folders are backed up to `<mod>/_pa_backup_<timestamp>/`
//! first. This module holds the decisions: which folders, which names, what
//! each script becomes, and the report.

use vstd::prelude::*;
use vstd::utf8::valid_utf8;
use crate::Codepage;
use crate::dummy_latin1::{dummy_latin1_to_unicode, game_to_chars};
use crate::path::{file_name, last_dot, path_file_name, FsPath};
use crate::script_line::{
    contains_chinese,
    first_index,
    has_chinese,
    key_word,
    lemma_first_index_facts,
    lemma_first_index_is,
    lemma_pa_line_parts,
    lemma_rewritten_line_unread,
    pa_key,
    pa_line,
    pa_line_with,
    parse_pa_line,
    PaLineView,
};
use crate::text::{chars_of, decimal, from_utf8_lossy, is_valid_utf8, push_char, push_decimal};
use vstd::utf8::decode_utf8;

verus! {

/// Index just past the first line break of `t`, or the length of `t`.
pub open spec fn line_end(t: Seq<char>) -> int {
    match first_index(t, '\n') {
        Some(i) => i + 1,
        None => t.len() as int,
    }
}

/// Length of the line ending of a line: 2 for `\r\n`, 1 for `\n`, 0 for none.
pub open spec fn ending_len(chunk: Seq<char>) -> int {
    if chunk.len() >= 1 && chunk.last() == '\n' {
        if chunk.len() >= 2 && chunk[chunk.len() - 2] == '\r' {
            2
        } else {
            1
        }
    } else {
        0
    }
}

/// A line (with its ending) after extraction, and the `(English, 中文)`
/// pair taken from it, if any.
pub open spec fn rewrite_line(chunk: Seq<char>) -> (Seq<char>, Option<(Seq<char>, Seq<char>)>) {
    let cut = chunk.len() - ending_len(chunk);
    let content = chunk.take(cut);
    let term = chunk.skip(cut);
    match pa_line(content) {
        Some(m) => if has_chinese(m.value) {
            (
                m.indent + m.key + seq![' ', '=', ' ', '"'] + m.comment + seq!['"'] + term,
                Some((m.comment, m.value)),
            )
        } else {
            (chunk, None)
        },
        None => (chunk, None),
    }
}

pub proof fn lemma_first_index_bound(t: Seq<char>, c: char)
    ensures
        first_index(t, c) matches Some(i) ==> 0 <= i < t.len() && t[i] == c,
    decreases t.len(),
{
    if t.len() > 0 && t[0] != c {
        lemma_first_index_bound(t.drop_first(), c);
    }
}

/// A script after extraction, line by line, and the pairs taken from it.
pub open spec fn extracted(t: Seq<char>) -> (Seq<char>, Seq<(Seq<char>, Seq<char>)>)
    decreases t.len(),
{
    if t.len() == 0 {
        (Seq::empty(), Seq::empty())
    } else {
        proof {
            lemma_first_index_bound(t, '\n');
        }
        let k = line_end(t);
        let (line, pair) = rewrite_line(t.take(k));
        let (rest, pairs) = extracted(t.skip(k));
        (
            line + rest,
            match pair {
                Some(p) => seq![p] + pairs,
                None => pairs,
            },
        )
    }
}

/// The values of a list of string pairs.
pub open spec fn pairs_view(v: Seq<(String, String)>) -> Seq<(Seq<char>, Seq<char>)> {
    v.map_values(|p: (String, String)| (p.0@, p.1@))
}

/// The values of a list of strings.
pub open spec fn strings_view(v: Seq<String>) -> Seq<Seq<char>> {
    v.map_values(|s: String| s@)
}

/// Appends a string's characters.
fn push_all(out: &mut String, s: &str)
    ensures
        final(out)@ == old(out)@ + s@,
{
    out.append(s);
}

/// The characters `cs[from..to]` as a string.
fn collect_range(cs: &Vec<char>, from: usize, to: usize) -> (r: String)
    requires
        from <= to <= cs@.len(),
    ensures
        r@ == cs@.subrange(from as int, to as int),
{
    let mut out = String::new();
    let mut j = from;
    while j < to
        invariant
            from <= j <= to <= cs@.len(),
            out@ == cs@.subrange(from as int, j as int),
        decreases to - j,
    {
        push_char(&mut out, cs[j]);
        j += 1;
        assert(out@ =~= cs@.subrange(from as int, j as int));
    }
    out
}

/// Rewrites the line `cs[from..to]` (with its ending).
fn rewrite_chunk(cs: &Vec<char>, from: usize, to: usize) -> (r: (String, Option<(String, String)>))
    requires
        from <= to <= cs@.len(),
    ensures
        ({
            let (line, pair) = rewrite_line(cs@.subrange(from as int, to as int));
            &&& r.0@ == line
            &&& match r.1 {
                Some(p) => pair == Some((p.0@, p.1@)),
                None => pair is None,
            }
        }),
{
    let ghost chunk = cs@.subrange(from as int, to as int);
    let cut = if to > from && cs[to - 1] == '\n' {
        if to - from >= 2 && cs[to - 2] == '\r' {
            to - 2
        } else {
            to - 1
        }
    } else {
        to
    };
    assert(to > from ==> chunk.last() == cs@[to - 1]);
    assert(to - from >= 2 ==> chunk[chunk.len() - 2] == cs@[to - 2]);
    assert(cut - from == chunk.len() - ending_len(chunk));
    let content = collect_range(cs, from, cut);
    let term = collect_range(cs, cut, to);
    assert(content@ =~= chunk.take(cut - from));
    assert(term@ =~= chunk.skip(cut - from));
    match parse_pa_line(content.as_str()) {
        Some(m) => {
            if contains_chinese(m.value.as_str()) {
                let mut out = String::new();
                push_all(&mut out, m.indent.as_str());
                push_all(&mut out, m.key.as_str());
                push_all(&mut out, " = \"");
                push_all(&mut out, m.comment.as_str());
                push_char(&mut out, '"');
                push_all(&mut out, term.as_str());
                proof {
                    reveal_strlit(" = \"");
                    assert(" = \""@ =~= seq![' ', '=', ' ', '"']);
                }
                let c = m.comment;
                let v = m.value;
                (out, Some((c, v)))
            } else {
                let mut out = content;
                push_all(&mut out, term.as_str());
                assert(out@ =~= chunk);
                (out, None)
            }
        },
        None => {
            let mut out = content;
            push_all(&mut out, term.as_str());
            assert(out@ =~= chunk);
            (out, None)
        },
    }
}

/// Rewrites a decoded script: each inline-translation line
/// `key = "中文" # English` whose value holds Chinese becomes
/// `key = "English"`, keeping its indentation and line ending; every other
/// line stays as it is. Returns the new text and the `(English, 中文)` pairs
/// in the order of their lines.
pub fn extract_inline_chinese(text: &str) -> (r: (String, Vec<(String, String)>))
    ensures
        r.0@ == extracted(text@).0,
        pairs_view(r.1@) == extracted(text@).1,
{
    let cs = chars_of(text);
    let ghost s = text@;
    let n = cs.len();
    let mut out = String::new();
    let mut entries: Vec<(String, String)> = Vec::new();
    let mut i: usize = 0;
    assert(s.skip(0) =~= s);
    assert(pairs_view(entries@) =~= Seq::<(Seq<char>, Seq<char>)>::empty());
    while i < n
        invariant
            cs@ == s,
            n == s.len(),
            i <= n,
            extracted(s).0 == out@ + extracted(s.skip(i as int)).0,
            extracted(s).1 == pairs_view(entries@) + extracted(s.skip(i as int)).1,
        decreases n - i,
    {
        let ghost cur = s.skip(i as int);
        // the end of this line
        let mut j = i;
        while j < n && cs[j] != '\n'
            invariant
                cs@ == s,
                n == s.len(),
                i <= j <= n,
                forall|m: int| i <= m < j ==> s[m] != '\n',
            decreases n - j,
        {
            j += 1;
        }
        let end = if j < n {
            j + 1
        } else {
            j
        };
        proof {
            lemma_first_index_at(cur, j - i);
            assert(cur.take(end - i) =~= s.subrange(i as int, end as int));
            assert(cur.skip(end - i) =~= s.skip(end as int));
        }
        let ghost old_entries = entries@;
        let (line, pair) = rewrite_chunk(&cs, i, end);
        push_all(&mut out, line.as_str());
        match pair {
            Some(p) => {
                entries.push(p);
                assert(pairs_view(entries@) =~= pairs_view(old_entries) + seq![(p.0@, p.1@)]);
            },
            None => {},
        }
        i = end;
    }
    assert(s.skip(n as int) =~= Seq::<char>::empty());
    (out, entries)
}

proof fn lemma_first_index_at(t: Seq<char>, k: int)
    requires
        0 <= k <= t.len(),
        forall|m: int| 0 <= m < k ==> t[m] != '\n',
        k == t.len() || t[k] == '\n',
    ensures
        line_end(t) == (if k < t.len() {
            k + 1
        } else {
            k
        }),
    decreases k,
{
    lemma_first_index_is(t, '\n', k);
}

/// Law: a script in which no line is rewritten (no pair is taken) comes out
/// unchanged.
pub proof fn lemma_untouched_without_pairs(t: Seq<char>)
    requires
        extracted(t).1.len() == 0,
    ensures
        extracted(t).0 == t,
    decreases t.len(),
{
    if t.len() > 0 {
        lemma_first_index_bound(t, '\n');
        let k = line_end(t);
        lemma_untouched_without_pairs(t.skip(k));
        assert(rewrite_line(t.take(k)).1 is None);
        assert(t =~= t.take(k) + t.skip(k));
    }
}

/// Law: every pair taken from a script has a non-empty English name and
/// Chinese text.
pub proof fn lemma_pairs_named_and_chinese(t: Seq<char>)
    ensures
        forall|i: int|
            0 <= i < extracted(t).1.len() ==> (#[trigger] extracted(t).1[i]).0.len() > 0
                && has_chinese(extracted(t).1[i].1),
    decreases t.len(),
{
    if t.len() > 0 {
        lemma_first_index_bound(t, '\n');
        let k = line_end(t);
        lemma_pairs_named_and_chinese(t.skip(k));
        let (line, pair) = rewrite_line(t.take(k));
        let rest = extracted(t.skip(k)).1;
        match pair {
            Some(p) => {
                assert forall|i: int| 0 <= i < extracted(t).1.len() implies (
                #[trigger] extracted(t).1[i]).0.len() > 0 && has_chinese(extracted(t).1[i].1) by {
                    if i > 0 {
                        assert(extracted(t).1[i] == rest[i - 1]);
                    }
                }
            },
            None => {},
        }
    }
}

/// `l` is one line: not empty, with no line break but perhaps its last
/// character.
spec fn one_line(l: Seq<char>) -> bool {
    l.len() > 0 && forall|i: int| 0 <= i < l.len() - 1 ==> #[trigger] l[i] != '\n'
}

/// The first line of a text is one line, and it ends with a line break
/// unless it is the whole text.
proof fn lemma_line_split(t: Seq<char>)
    requires
        t.len() > 0,
    ensures
        0 < line_end(t) <= t.len(),
        one_line(t.take(line_end(t))),
        t.take(line_end(t)).last() == '\n' || line_end(t) == t.len(),
{
    lemma_first_index_facts(t, '\n');
    let k = line_end(t);
    assert forall|i: int| 0 <= i < k - 1 implies #[trigger] t.take(k)[i] != '\n' by {
        assert(t.take(k)[i] == t[i]);
    }
}

/// A line followed by the rest of a text: the text's first line is that
/// line, when it ends with a line break or nothing follows.
proof fn lemma_line_end_concat(l: Seq<char>, r: Seq<char>)
    requires
        one_line(l),
        l.last() == '\n' || r.len() == 0,
    ensures
        line_end(l + r) == l.len(),
{
    let u = l + r;
    assert forall|m: int| 0 <= m < l.len() - 1 implies u[m] != '\n' by {
        assert(u[m] == l[m]);
    }
    if l.last() == '\n' {
        lemma_first_index_is(u, '\n', l.len() - 1);
    } else {
        assert(u =~= l);
        lemma_first_index_is(u, '\n', l.len() as int);
    }
}

/// Two texts that lack `x` joined lack it too.
proof fn lemma_concat_lacks(a: Seq<char>, b: Seq<char>, x: char)
    requires
        !a.contains(x),
        !b.contains(x),
    ensures
        !(a + b).contains(x),
{
    assert forall|i: int| 0 <= i < (a + b).len() implies (a + b)[i] != x by {
        if i < a.len() {
            assert((a + b)[i] == a[i]);
        } else {
            assert((a + b)[i] == b[i - a.len()]);
        }
    }
}

/// A line that has been through extraction stays as it is when it goes
/// through again, provided the English taken from it holds no quote.
proof fn lemma_rewrite_settles(chunk: Seq<char>)
    requires
        one_line(chunk),
        rewrite_line(chunk).1 matches Some(p) ==> !p.0.contains('"'),
    ensures
        one_line(rewrite_line(chunk).0),
        (rewrite_line(chunk).0.last() == '\n') == (chunk.last() == '\n'),
        rewrite_line(rewrite_line(chunk).0) == (
            rewrite_line(chunk).0,
            None::<(Seq<char>, Seq<char>)>,
        ),
{
    let cut = chunk.len() - ending_len(chunk);
    let content = chunk.take(cut);
    let term = chunk.skip(cut);
    let kw = match pa_key(content) {
        Some(k) => key_word(k),
        None => false,
    };
    match pa_line(content) {
        Some(m) => if has_chinese(m.value) {
            assert forall|i: int| 0 <= i < content.len() implies content[i] != '\n' by {
                assert(content[i] == chunk[i]);
            }
            lemma_pa_line_parts(content, kw, '\n');
            let body = m.indent + m.key + seq![' ', '=', ' ', '"'] + m.comment + seq!['"'];
            let line = body + term;
            assert(!seq![' ', '=', ' ', '"'].contains('\n')) by {
                assert forall|i: int| 0 <= i < 4 implies seq![' ', '=', ' ', '"'][i] != '\n' by {}
            }
            assert(!seq!['"'].contains('\n')) by {
                assert(seq!['"'][0] == '"');
            }
            lemma_concat_lacks(m.indent, m.key, '\n');
            lemma_concat_lacks(m.indent + m.key, seq![' ', '=', ' ', '"'], '\n');
            lemma_concat_lacks(m.indent + m.key + seq![' ', '=', ' ', '"'], m.comment, '\n');
            lemma_concat_lacks(
                m.indent + m.key + seq![' ', '=', ' ', '"'] + m.comment,
                seq!['"'],
                '\n',
            );
            assert(body.last() == '"');
            if ending_len(chunk) == 0 {
                assert(term =~= Seq::<char>::empty());
                assert(line =~= body);
            } else if ending_len(chunk) == 1 {
                assert(term =~= seq!['\n']);
                assert(line[line.len() - 2] == body.last());
            } else {
                assert(term =~= seq!['\r', '\n']);
                assert(line[line.len() - 2] == '\r');
            }
            assert(ending_len(line) == term.len());
            assert forall|i: int| 0 <= i < line.len() - 1 implies #[trigger] line[i] != '\n' by {
                if i < body.len() {
                    assert(line[i] == body[i]);
                } else {
                    assert(line[i] == term[i - body.len()]);
                }
            }
            assert(line.take(line.len() - ending_len(line)) =~= body);
            assert(line.skip(line.len() - ending_len(line)) =~= term);
            let kw2 = match pa_key(body) {
                Some(k) => key_word(k),
                None => false,
            };
            lemma_rewritten_line_unread(m.indent, m.key, m.comment, kw2);
        } else {
        },
        None => {},
    }
}

/// Law: a migrated script has nothing left to extract. Extraction run again
/// on its own output changes nothing and takes no pair, as long as none of
/// the English texts it took holds a quote.
pub proof fn lemma_extraction_settles(t: Seq<char>)
    requires
        forall|i: int|
            0 <= i < extracted(t).1.len() ==> !(#[trigger] extracted(t).1[i]).0.contains('"'),
    ensures
        extracted(extracted(t).0).0 == extracted(t).0,
        extracted(extracted(t).0).1.len() == 0,
    decreases t.len(),
{
    if t.len() > 0 {
        lemma_line_split(t);
        let k = line_end(t);
        let chunk = t.take(k);
        let rest = t.skip(k);
        let (line, pair) = rewrite_line(chunk);
        let pairs = extracted(rest).1;
        assert forall|i: int| 0 <= i < pairs.len() implies !(#[trigger] pairs[i]).0.contains(
            '"',
        ) by {
            match pair {
                Some(p) => {
                    assert(extracted(t).1[i + 1] == pairs[i]);
                },
                None => {
                    assert(extracted(t).1[i] == pairs[i]);
                },
            }
        }
        lemma_extraction_settles(rest);
        match pair {
            Some(p) => {
                assert(extracted(t).1[0] == p);
            },
            None => {},
        }
        lemma_rewrite_settles(chunk);
        let r = extracted(rest).0;
        if chunk.last() != '\n' {
            assert(rest =~= Seq::<char>::empty());
        }
        lemma_line_end_concat(line, r);
        let u = line + r;
        assert(u.take(line.len() as int) =~= line);
        assert(u.skip(line.len() as int) =~= r);
    }
}

/// Options for a migration.
#[derive(Debug, Clone)]
pub struct PaMigrateOptions {
    /// Codepage of the source game files.
    pub codepage: Codepage,
    /// Back up the affected folders before modifying anything (default
    /// `true`).
    pub backup: bool,
    /// Script folders to scan for inline Chinese ([`default_targets`] when
    /// empty).
    pub target_folders: Vec<String>,
}

/// The script folders scanned by default: `events`, `decisions`, `common`.
pub open spec fn default_targets() -> Seq<Seq<char>> {
    seq!["events"@, "decisions"@, "common"@]
}

/// The script folders scanned by default.
pub fn default_target_folders() -> (v: Vec<String>)
    ensures
        strings_view(v@) == default_targets(),
{
    let mut v: Vec<String> = Vec::new();
    v.push(String::from_str("events"));
    v.push(String::from_str("decisions"));
    v.push(String::from_str("common"));
    assert(strings_view(v@) =~= default_targets());
    v
}

impl Default for PaMigrateOptions {
    fn default() -> (r: PaMigrateOptions)
        ensures
            r.codepage == Codepage::Gbk,
            r.backup,
            strings_view(r.target_folders@) == default_targets(),
    {
        PaMigrateOptions {
            codepage: Codepage::Gbk,
            backup: true,
            target_folders: default_target_folders(),
        }
    }
}

/// A copy of a list of strings.
fn copy_strings(v: &Vec<String>) -> (r: Vec<String>)
    ensures
        strings_view(r@) == strings_view(v@),
{
    let mut r: Vec<String> = Vec::new();
    let mut i: usize = 0;
    while i < v.len()
        invariant
            i <= v@.len(),
            r@.len() == i,
            strings_view(r@) == strings_view(v@).take(i as int),
        decreases v.len() - i,
    {
        let c = v[i].clone();
        assert(c == v@[i as int]);
        let ghost before = r@;
        r.push(c);
        assert(r@ == before.push(c));
        i += 1;
        assert forall|k: int| 0 <= k < i implies strings_view(r@)[k] == strings_view(v@).take(
            i as int,
        )[k] by {
            if k < i - 1 {
                assert(r@[k] == before[k]);
                assert(strings_view(before)[k] == strings_view(v@).take(i - 1)[k]);
            }
        }
        assert(strings_view(r@) =~= strings_view(v@).take(i as int));
    }
    assert(strings_view(v@).take(v@.len() as int) =~= strings_view(v@));
    r
}

impl PaMigrateOptions {
    /// The script folders to scan: the given ones, or the default ones when
    /// none is given.
    pub fn targets(&self) -> (v: Vec<String>)
        ensures
            strings_view(v@) == (if self.target_folders@.len() == 0 {
                default_targets()
            } else {
                strings_view(self.target_folders@)
            }),
    {
        if self.target_folders.len() == 0 {
            default_target_folders()
        } else {
            copy_strings(&self.target_folders)
        }
    }
}

/// The folders to back up: `localisation` and the script folders.
pub fn backup_folders(targets: &Vec<String>) -> (v: Vec<String>)
    ensures
        strings_view(v@) == seq!["localisation"@] + strings_view(targets@),
{
    let mut v: Vec<String> = Vec::new();
    v.push(String::from_str("localisation"));
    let mut rest = copy_strings(targets);
    let ghost first = v@;
    v.append(&mut rest);
    assert(strings_view(v@) =~= strings_view(first) + strings_view(targets@));
    v
}

/// The name of the backup folder for the time stamp `stamp` (seconds since
/// the Unix epoch): `_pa_backup_<stamp>`.
pub fn backup_dir_name(stamp: u64) -> (name: String)
    ensures
        name@ == "_pa_backup_"@ + decimal(stamp as nat),
{
    let mut name = String::from_str("_pa_backup_");
    push_decimal(&mut name, stamp);
    name
}

/// The CSV rows `English;中文;x` of the extracted pairs, one per line.
pub open spec fn csv_rows_text(pairs: Seq<(Seq<char>, Seq<char>)>) -> Seq<char>
    decreases pairs.len(),
{
    if pairs.len() == 0 {
        Seq::empty()
    } else {
        pairs[0].0 + seq![';'] + pairs[0].1 + seq![';', 'x', '\n'] + csv_rows_text(
            pairs.drop_first(),
        )
    }
}

/// Law: the CSV text holds one row `English;中文;x` and a line break per
/// pair, in the order of the pairs: nothing for no pair, that row for one
/// pair, and the rows of two lists of pairs one after the other for the two
/// lists joined.
pub proof fn lemma_csv_rows_one_per_pair(
    english: Seq<char>,
    chinese: Seq<char>,
    a: Seq<(Seq<char>, Seq<char>)>,
    b: Seq<(Seq<char>, Seq<char>)>,
)
    ensures
        csv_rows_text(Seq::empty()) == Seq::<char>::empty(),
        csv_rows_text(seq![(english, chinese)]) == english + seq![';'] + chinese + seq![
            ';',
            'x',
            '\n',
        ],
        csv_rows_text(a + b) == csv_rows_text(a) + csv_rows_text(b),
    decreases a.len(),
{
    let one = seq![(english, chinese)];
    assert(one.drop_first() =~= Seq::<(Seq<char>, Seq<char>)>::empty());
    assert(csv_rows_text(one.drop_first()) == Seq::<char>::empty());
    let row = english + seq![';'] + chinese + seq![';', 'x', '\n'];
    assert(row + Seq::<char>::empty() =~= row);
    if a.len() == 0 {
        assert(a + b =~= b);
        assert(Seq::<char>::empty() + csv_rows_text(b) =~= csv_rows_text(b));
    } else {
        lemma_csv_rows_one_per_pair(english, chinese, a.drop_first(), b);
        assert((a + b).drop_first() =~= a.drop_first() + b);
        assert((a + b)[0] == a[0]);
        let head = a[0].0 + seq![';'] + a[0].1 + seq![';', 'x', '\n'];
        assert(head + (csv_rows_text(a.drop_first()) + csv_rows_text(b)) =~= (head
            + csv_rows_text(a.drop_first())) + csv_rows_text(b));
    }
}

/// The CSV rows for the extracted pairs.
pub fn csv_rows(entries: &Vec<(String, String)>) -> (text: String)
    ensures
        text@ == csv_rows_text(pairs_view(entries@)),
{
    let ghost all = pairs_view(entries@);
    let mut out = String::new();
    let mut i: usize = 0;
    assert(all.skip(0) =~= all);
    while i < entries.len()
        invariant
            all == pairs_view(entries@),
            i <= entries@.len(),
            csv_rows_text(all) == out@ + csv_rows_text(all.skip(i as int)),
        decreases entries.len() - i,
    {
        let ghost before = out@;
        let (english, chinese) = &entries[i];
        push_all(&mut out, english.as_str());
        push_char(&mut out, ';');
        push_all(&mut out, chinese.as_str());
        push_all(&mut out, ";x\n");
        proof {
            reveal_strlit(";x\n");
            assert(";x\n"@ =~= seq![';', 'x', '\n']);
            assert(all.skip(i as int)[0] == all[i as int]);
            assert(all.skip(i as int).drop_first() =~= all.skip(i + 1));
            assert(out@ =~= before + (all[i as int].0 + seq![';'] + all[i as int].1 + seq![
                ';',
                'x',
                '\n',
            ]));
        }
        i += 1;
    }
    assert(all.skip(entries@.len() as int) =~= Seq::<(Seq<char>, Seq<char>)>::empty());
    out
}

/// The stem of a file name (`Path::file_stem`): the part before the last
/// `.`, or the whole name when there is no dot or it is the first byte.
pub open spec fn name_stem(name: Seq<u8>) -> Seq<u8> {
    match last_dot(name) {
        Some(d) => if d > 0 {
            name.take(d)
        } else {
            name
        },
        None => name,
    }
}

/// The name of the CSV that takes the pairs of the script at `p`:
/// `<stem>.csv`, or `extracted.csv` when the stem is missing or not UTF-8.
pub open spec fn script_csv_name_of(p: Seq<crate::path::PartView>) -> Seq<char> {
    let stem = match file_name(p) {
        Some(n) => if valid_utf8(name_stem(n)) {
            decode_utf8(name_stem(n))
        } else {
            "extracted"@
        },
        None => "extracted"@,
    };
    stem + ".csv"@
}

/// The name of the CSV that takes the pairs of the script at `script`.
pub fn script_csv_name(script: &FsPath) -> (name: String)
    ensures
        name@ == script_csv_name_of(script@),
{
    let mut name = match path_file_name(script) {
        Some(n) => {
            let len = n.len();
            let mut j = len;
            assert(n@.take(len as int) =~= n@);
            while j > 0 && n[j - 1] != 0x2E
                invariant
                    j <= len == n@.len(),
                    last_dot(n@) == last_dot(n@.take(j as int)),
                decreases j,
            {
                assert(n@.take(j as int).drop_last() =~= n@.take(j - 1));
                j -= 1;
            }
            proof {
                if j > 0 {
                    assert(n@.take(j as int).last() == n@[j - 1]);
                } else {
                    assert(n@.take(0) =~= Seq::<u8>::empty());
                }
            }
            let stem_len = if j > 1 {
                j - 1
            } else {
                len
            };
            let mut stem: Vec<u8> = Vec::new();
            let mut k: usize = 0;
            while k < stem_len
                invariant
                    stem_len <= len == n@.len(),
                    k <= stem_len,
                    stem@ == n@.take(k as int),
                decreases stem_len - k,
            {
                stem.push(n[k]);
                k += 1;
                assert(stem@ =~= n@.take(k as int));
            }
            assert(stem@ == name_stem(n@)) by {
                assert(n@.take(len as int) =~= n@);
            }
            if is_valid_utf8(stem.as_slice()) {
                from_utf8_lossy(stem.as_slice())
            } else {
                String::from_str("extracted")
            }
        },
        None => String::from_str("extracted"),
    };
    name.append(".csv");
    name
}

/// Summary of a completed migration.
#[derive(Debug, Clone, PartialEq, Eq)]
pub struct PaMigrateReport {
    /// Where the backup was written (`None` when backup is off).
    pub backup_dir: Option<String>,
    /// Files decoded from `localisation/` into `assets/localisation/zh-CN/`.
    pub localisation_files: usize,
    /// `*.txt` scripts scanned in the target folders.
    pub scripts_scanned: usize,
    /// Scripts with at least one inline-Chinese line rewritten.
    pub scripts_modified: usize,
    /// `English;中文` pairs extracted in all.
    pub entries_extracted: usize,
    /// CSV files created under `assets/localisation/zh-CN/`.
    pub csv_files_written: usize,
}

impl Default for PaMigrateReport {
    fn default() -> (r: PaMigrateReport)
        ensures
            r.backup_dir is None,
            r.localisation_files == 0,
            r.scripts_scanned == 0,
            r.scripts_modified == 0,
            r.entries_extracted == 0,
            r.csv_files_written == 0,
    {
        PaMigrateReport {
            backup_dir: None,
            localisation_files: 0,
            scripts_scanned: 0,
            scripts_modified: 0,
            entries_extracted: 0,
            csv_files_written: 0,
        }
    }
}

impl PaMigrateReport {
    /// Notes where the backup went.
    pub fn record_backup(&mut self, dir: String)
        ensures
            final(self).backup_dir == Some(dir),
            final(self).localisation_files == old(self).localisation_files,
            final(self).scripts_scanned == old(self).scripts_scanned,
            final(self).scripts_modified == old(self).scripts_modified,
            final(self).entries_extracted == old(self).entries_extracted,
            final(self).csv_files_written == old(self).csv_files_written,
    {
        self.backup_dir = Some(dir);
    }

    /// Counts one decoded localisation file.
    pub fn record_localisation_file(&mut self)
        requires
            old(self).localisation_files < usize::MAX,
        ensures
            final(self).localisation_files == old(self).localisation_files + 1,
            final(self).backup_dir == old(self).backup_dir,
            final(self).scripts_scanned == old(self).scripts_scanned,
            final(self).scripts_modified == old(self).scripts_modified,
            final(self).entries_extracted == old(self).entries_extracted,
            final(self).csv_files_written == old(self).csv_files_written,
    {
        self.localisation_files += 1;
    }

    /// Counts one scanned script.
    pub fn record_script_scanned(&mut self)
        requires
            old(self).scripts_scanned < usize::MAX,
        ensures
            final(self).scripts_scanned == old(self).scripts_scanned + 1,
            final(self).backup_dir == old(self).backup_dir,
            final(self).localisation_files == old(self).localisation_files,
            final(self).scripts_modified == old(self).scripts_modified,
            final(self).entries_extracted == old(self).entries_extracted,
            final(self).csv_files_written == old(self).csv_files_written,
    {
        self.scripts_scanned += 1;
    }

    /// Counts one rewritten script with `entries` extracted pairs, and the
    /// CSV file it created, if it created one.
    pub fn record_script_modified(&mut self, entries: usize, csv_created: bool)
        requires
            old(self).scripts_modified < usize::MAX,
            old(self).entries_extracted + entries <= usize::MAX,
            old(self).csv_files_written < usize::MAX,
        ensures
            final(self).scripts_modified == old(self).scripts_modified + 1,
            final(self).entries_extracted == old(self).entries_extracted + entries,
            final(self).csv_files_written == old(self).csv_files_written + (if csv_created {
                1int
            } else {
                0int
            }),
            final(self).backup_dir == old(self).backup_dir,
            final(self).localisation_files == old(self).localisation_files,
            final(self).scripts_scanned == old(self).scripts_scanned,
    {
        self.scripts_modified += 1;
        self.entries_extracted += entries;
        if csv_created {
            self.csv_files_written += 1;
        }
    }
}

/// Decodes a game-format script and extracts its inline Chinese: the
/// rewritten script and the `(English, 中文)` pairs.
pub fn migrate_script(data: &[u8], codepage: Codepage) -> (r: (String, Vec<(String, String)>))
    ensures
        r.0@ == extracted(game_to_chars(data@)).0,
        pairs_view(r.1@) == extracted(game_to_chars(data@)).1,
{
    let text = dummy_latin1_to_unicode(data, codepage);
    extract_inline_chinese(text.as_str())
}

} // verus!
