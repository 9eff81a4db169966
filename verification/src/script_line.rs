//! Reading the inline-translation lines of Paradox scripts:
//! `<indent>key = "中文" # English`.

use vstd::prelude::*;
use crate::text::{chars_of, push_char};

verus! {

/// `c` has the Unicode `White_Space` property (`char::is_whitespace`).
pub open spec fn is_ws(c: char) -> bool {
    ||| ('\u{9}' <= c <= '\u{d}')
    ||| c == ' '
    ||| c == '\u{85}'
    ||| c == '\u{a0}'
    ||| c == '\u{1680}'
    ||| ('\u{2000}' <= c <= '\u{200a}')
    ||| c == '\u{2028}'
    ||| c == '\u{2029}'
    ||| c == '\u{202f}'
    ||| c == '\u{205f}'
    ||| c == '\u{3000}'
}

/// `char::is_whitespace`.
pub fn is_whitespace(c: char) -> (r: bool)
    ensures
        r == is_ws(c),
{
    ('\u{9}' <= c && c <= '\u{d}') || c == ' ' || c == '\u{85}' || c == '\u{a0}' || c == '\u{1680}'
        || ('\u{2000}' <= c && c <= '\u{200a}') || c == '\u{2028}' || c == '\u{2029}' || c
        == '\u{202f}' || c == '\u{205f}' || c == '\u{3000}'
}

/// Whether `char::is_alphanumeric` holds of `c` (Unicode `Alphabetic` or
/// `Numeric`).
pub uninterp spec fn unicode_alphanumeric(c: char) -> bool;

/// `char::is_alphanumeric`. Trusted: the answer is [`unicode_alphanumeric`]
/// of `c`, and ASCII letters and digits are alphanumeric (they are
/// `Alphabetic` and `Numeric`); the rest of the Unicode tables behind it is
/// not stated here.
#[verifier::external_body]
pub fn is_alphanumeric(c: char) -> (r: bool)
    ensures
        r == unicode_alphanumeric(c),
        ('a' <= c <= 'z' || 'A' <= c <= 'Z' || '0' <= c <= '9') ==> r,
{
    c.is_alphanumeric()
}

/// `c` is a CJK Unified Ideograph (U+4E00..=U+9FFF).
pub open spec fn is_chinese(c: char) -> bool {
    '\u{4e00}' <= c <= '\u{9fff}'
}

/// `text` holds a CJK Unified Ideograph.
pub open spec fn has_chinese(text: Seq<char>) -> bool {
    exists|i: int| 0 <= i < text.len() && is_chinese(#[trigger] text[i])
}

/// Whether `text` contains a CJK Unified Ideograph.
pub fn contains_chinese(text: &str) -> (r: bool)
    ensures
        r == has_chinese(text@),
{
    let cs = chars_of(text);
    let mut i: usize = 0;
    while i < cs.len()
        invariant
            cs@ == text@,
            i <= cs@.len(),
            forall|m: int| 0 <= m < i ==> !is_chinese(#[trigger] text@[m]),
        decreases cs.len() - i,
    {
        if '\u{4e00}' <= cs[i] && cs[i] <= '\u{9fff}' {
            assert(is_chinese(text@[i as int]));
            return true;
        }
        i += 1;
    }
    false
}

/// Number of leading whitespace characters of `s`.
pub open spec fn ws_prefix_len(s: Seq<char>) -> nat
    decreases s.len(),
{
    if s.len() > 0 && is_ws(s[0]) {
        1 + ws_prefix_len(s.drop_first())
    } else {
        0
    }
}

/// Number of trailing whitespace characters of `s`.
pub open spec fn ws_suffix_len(s: Seq<char>) -> nat
    decreases s.len(),
{
    if s.len() > 0 && is_ws(s.last()) {
        1 + ws_suffix_len(s.drop_last())
    } else {
        0
    }
}

/// `s` without leading whitespace (`str::trim_start`).
pub open spec fn trim_start(s: Seq<char>) -> Seq<char> {
    s.skip(ws_prefix_len(s) as int)
}

/// `s` without trailing whitespace (`str::trim_end`).
pub open spec fn trim_end(s: Seq<char>) -> Seq<char> {
    s.take(s.len() - ws_suffix_len(s))
}

/// Index of the first `c` in `s`, if any.
pub open spec fn first_index(s: Seq<char>, c: char) -> Option<int>
    decreases s.len(),
{
    if s.len() == 0 {
        None
    } else if s[0] == c {
        Some(0)
    } else {
        match first_index(s.drop_first(), c) {
            Some(i) => Some(i + 1),
            None => None,
        }
    }
}

/// A quoted value at the front of `v` (just after the opening quote):
/// the value, with each backslash kept together with the character after
/// it, and how many characters it takes with its closing quote; `None` when
/// the quote is not closed.
pub open spec fn quoted_value(v: Seq<char>) -> Option<(Seq<char>, nat)>
    decreases v.len(),
{
    if v.len() == 0 {
        None
    } else if v[0] == '\\' {
        if v.len() >= 2 {
            match quoted_value(v.skip(2)) {
                Some((w, k)) => Some((seq!['\\', v[1]] + w, k + 2)),
                None => None,
            }
        } else {
            None
        }
    } else if v[0] == '"' {
        Some((Seq::empty(), 1))
    } else {
        match quoted_value(v.drop_first()) {
            Some((w, k)) => Some((seq![v[0]] + w, k + 1)),
            None => None,
        }
    }
}

/// An inline-translation line, read.
pub struct PaLine {
    /// The leading whitespace.
    pub indent: String,
    /// The key before `=`.
    pub key: String,
    /// The quoted value, without its quotes.
    pub value: String,
    /// The comment after `#`, trimmed.
    pub comment: String,
}

/// The mathematical value of a [`PaLine`].
pub struct PaLineView {
    pub indent: Seq<char>,
    pub key: Seq<char>,
    pub value: Seq<char>,
    pub comment: Seq<char>,
}

impl View for PaLine {
    type V = PaLineView;

    open spec fn view(&self) -> PaLineView {
        PaLineView {
            indent: self.indent@,
            key: self.key@,
            value: self.value@,
            comment: self.comment@,
        }
    }
}

/// Every character of the key is alphanumeric or `_`.
pub open spec fn key_word(key: Seq<char>) -> bool {
    forall|i: int| 0 <= i < key.len() ==> unicode_alphanumeric(#[trigger] key[i]) || key[i] == '_'
}

/// The key of a line: the text before its first `=`, trimmed at both ends;
/// `None` when the line has no `=`.
pub open spec fn pa_key(line: Seq<char>) -> Option<Seq<char>> {
    let trimmed = line.skip(ws_prefix_len(line) as int);
    match first_index(trimmed, '=') {
        None => None,
        Some(eq) => Some(trim_end(trimmed.take(eq))),
    }
}

/// The line `<indent>key = "value" # comment` read into its parts: the key
/// is the non-empty text before the first `=` (trimmed at its end) made of
/// alphanumerics and `_`; after the `=` and optional whitespace comes a
/// quoted value (a backslash keeps the next character in the value); then
/// optional whitespace, `#`, and the comment, which must not be empty once
/// trimmed. `None` when the line has another shape.
pub open spec fn pa_line(line: Seq<char>) -> Option<PaLineView> {
    pa_line_with(
        line,
        match pa_key(line) {
            Some(k) => key_word(k),
            None => false,
        },
    )
}

/// [`pa_line`], where `key_is_word` tells whether the key is made of
/// alphanumerics and `_`.
pub open spec fn pa_line_with(line: Seq<char>, key_is_word: bool) -> Option<PaLineView> {
    let lead = ws_prefix_len(line) as int;
    let trimmed = line.skip(lead);
    match first_index(trimmed, '=') {
        None => None,
        Some(eq) => {
            let key = trim_end(trimmed.take(eq));
            let rest = trim_start(trimmed.skip(eq + 1));
            if key.len() == 0 || !key_is_word || rest.len() == 0 || rest[0] != '"' {
                None
            } else {
                match quoted_value(rest.drop_first()) {
                    None => None,
                    Some((value, used)) => {
                        let after = rest.drop_first().skip(used as int);
                        let w = ws_prefix_len(after) as int;
                        if w < after.len() && after[w] == '#' {
                            let comment = trim_end(trim_start(after.skip(w + 1)));
                            if comment.len() == 0 {
                                None
                            } else {
                                Some(
                                    PaLineView {
                                        indent: line.take(lead),
                                        key,
                                        value,
                                        comment,
                                    },
                                )
                            }
                        } else {
                            None
                        }
                    },
                }
            }
        },
    }
}

proof fn lemma_ws_prefix(s: Seq<char>, a: int, b: int)
    requires
        0 <= a <= b <= s.len(),
        forall|m: int| a <= m < b ==> is_ws(s[m]),
        b == s.len() || !is_ws(s[b]),
    ensures
        ws_prefix_len(s.skip(a)) == b - a,
    decreases b - a,
{
    if a < b {
        lemma_ws_prefix(s, a + 1, b);
        assert(s.skip(a).drop_first() =~= s.skip(a + 1));
    } else if b < s.len() {
        assert(s.skip(a)[0] == s[b]);
    }
}

proof fn lemma_ws_suffix(s: Seq<char>, from: int, j: int, to: int)
    requires
        0 <= from <= j <= to <= s.len(),
        forall|m: int| j <= m < to ==> is_ws(s[m]),
        j == from || !is_ws(s[j - 1]),
    ensures
        ws_suffix_len(s.subrange(from, to)) == to - j,
    decreases to - j,
{
    let t = s.subrange(from, to);
    if j < to {
        lemma_ws_suffix(s, from, j, to - 1);
        assert(t.drop_last() =~= s.subrange(from, to - 1));
        assert(t.last() == s[to - 1]);
    } else if j > from {
        assert(t.last() == s[j - 1]);
    }
}

/// Index after the whitespace that starts at `from`.
fn skip_ws(cs: &Vec<char>, from: usize) -> (r: usize)
    requires
        from <= cs@.len(),
    ensures
        from <= r <= cs@.len(),
        r - from == ws_prefix_len(cs@.skip(from as int)),
{
    let mut j = from;
    while j < cs.len() && is_whitespace(cs[j])
        invariant
            from <= j <= cs@.len(),
            forall|m: int| from <= m < j ==> is_ws(cs@[m]),
        decreases cs.len() - j,
    {
        j += 1;
    }
    proof {
        lemma_ws_prefix(cs@, from as int, j as int);
    }
    j
}

/// Index where the trailing whitespace of `cs[from..to]` starts.
fn trim_end_at(cs: &Vec<char>, from: usize, to: usize) -> (r: usize)
    requires
        from <= to <= cs@.len(),
    ensures
        from <= r <= to,
        to - r == ws_suffix_len(cs@.subrange(from as int, to as int)),
{
    let mut j = to;
    while j > from && is_whitespace(cs[j - 1])
        invariant
            from <= j <= to,
            to <= cs@.len(),
            forall|m: int| j <= m < to ==> is_ws(cs@[m]),
        decreases j,
    {
        j -= 1;
    }
    proof {
        lemma_ws_suffix(cs@, from as int, j as int, to as int);
    }
    j
}

/// The characters `cs[from..to]` as a string.
fn collect(cs: &Vec<char>, from: usize, to: usize) -> (r: String)
    requires
        from <= to <= cs@.len(),
    ensures
        r@ == cs@.subrange(from as int, to as int),
{
    let mut out = String::new();
    let mut j = from;
    while j < to
        invariant
            from <= j <= to <= cs@.len(),
            out@ == cs@.subrange(from as int, j as int),
        decreases to - j,
    {
        push_char(&mut out, cs[j]);
        j += 1;
        assert(out@ =~= cs@.subrange(from as int, j as int));
    }
    out
}

/// Index of the first `c` at or after `from`.
fn find_from(cs: &Vec<char>, from: usize, c: char) -> (r: Option<usize>)
    requires
        from <= cs@.len(),
    ensures
        match r {
            Some(i) => from <= i < cs@.len() && first_index(cs@.skip(from as int), c) == Some(
                i - from,
            ),
            None => first_index(cs@.skip(from as int), c) is None,
        },
{
    let mut j = from;
    while j < cs.len()
        invariant
            from <= j <= cs@.len(),
            first_index(cs@.skip(from as int), c) == (match first_index(cs@.skip(j as int), c) {
                Some(i) => Some(i + (j - from)),
                None => None,
            }),
        decreases cs.len() - j,
    {
        assert(cs@.skip(j as int)[0] == cs@[j as int]);
        if cs[j] == c {
            return Some(j);
        }
        assert(cs@.skip(j as int).drop_first() =~= cs@.skip(j + 1));
        j += 1;
    }
    assert(cs@.skip(j as int) =~= Seq::<char>::empty());
    None
}

/// `r` with `v` in front of its value and `d` more characters used.
pub open spec fn after_prefix(v: Seq<char>, d: int, r: Option<(Seq<char>, nat)>) -> Option<
    (Seq<char>, nat),
> {
    match r {
        Some((w, k)) => Some((v + w, (k + d) as nat)),
        None => None,
    }
}

/// Reads the quoted value that starts at `from` (just after the quote).
fn read_quoted(cs: &Vec<char>, from: usize) -> (r: Option<(String, usize)>)
    requires
        from <= cs@.len(),
    ensures
        match r {
            Some((v, used)) => quoted_value(cs@.skip(from as int)) == Some((v@, used as nat))
                && from + used <= cs@.len(),
            None => quoted_value(cs@.skip(from as int)) is None,
        },
{
    let ghost s = cs@;
    let n = cs.len();
    let mut value = String::new();
    let mut p = from;
    assert(value@ + Seq::<char>::empty() =~= value@);
    while p < n
        invariant
            s == cs@,
            n == s.len(),
            from <= p <= n,
            quoted_value(s.skip(from as int)) == after_prefix(value@, p - from, quoted_value(
                s.skip(p as int),
            )),
            forall|v: Seq<char>| #[trigger] (v + Seq::<char>::empty()) == v,
        decreases n - p,
    {
        let ghost cur = s.skip(p as int);
        let ghost old_value = value@;
        assert(cur[0] == cs[p as int]);
        let c = cs[p];
        if c == '\\' {
            push_char(&mut value, '\\');
            if p + 1 < n {
                push_char(&mut value, cs[p + 1]);
                assert(cur[1] == s[p + 1]);
                assert(cur.skip(2) =~= s.skip(p + 2));
                assert(value@ =~= old_value + seq!['\\', cur[1]]);
                proof {
                    match quoted_value(s.skip(p + 2)) {
                        Some((w, k)) => {
                            assert(old_value + (seq!['\\', cur[1]] + w) =~= value@ + w);
                        },
                        None => {},
                    }
                }
                p += 2;
            } else {
                assert(quoted_value(cur) is None);
                assert(s.skip(p + 1) =~= Seq::<char>::empty());
                p += 1;
            }
        } else if c == '"' {
            return Some((value, p + 1 - from));
        } else {
            push_char(&mut value, c);
            assert(cur.drop_first() =~= s.skip(p + 1));
            proof {
                match quoted_value(s.skip(p + 1)) {
                    Some((w, k)) => {
                        assert(old_value + (seq![c] + w) =~= value@ + w);
                    },
                    None => {},
                }
            }
            p += 1;
        }
    }
    assert(s.skip(p as int) =~= Seq::<char>::empty());
    None
}

/// Is every character of `cs[from..to]` alphanumeric or `_`?
fn key_chars_ok(cs: &Vec<char>, from: usize, to: usize) -> (r: bool)
    requires
        from <= to <= cs@.len(),
    ensures
        r == (forall|i: int|
            0 <= i < to - from ==> unicode_alphanumeric(#[trigger] cs@.subrange(
                from as int,
                to as int,
            )[i]) || cs@.subrange(from as int, to as int)[i] == '_'),
{
    let ghost key = cs@.subrange(from as int, to as int);
    let mut j = from;
    while j < to
        invariant
            from <= j <= to <= cs@.len(),
            key == cs@.subrange(from as int, to as int),
            forall|i: int| 0 <= i < j - from ==> unicode_alphanumeric(#[trigger] key[i]) || key[i]
                == '_',
        decreases to - j,
    {
        assert(key[j - from] == cs@[j as int]);
        if !(is_alphanumeric(cs[j]) || cs[j] == '_') {
            return false;
        }
        j += 1;
    }
    true
}

/// Reads one line of the form `<indent>key = "value" # comment` (see
/// [`pa_line`]); `None` when the line is not an inline-translation line.
pub fn parse_pa_line(line: &str) -> (r: Option<PaLine>)
    ensures
        match r {
            Some(m) => pa_line(line@) == Some(m@),
            None => pa_line(line@) is None,
        },
{
    let cs = chars_of(line);
    let ghost s = line@;
    let lead = skip_ws(&cs, 0);
    assert(s.skip(0) =~= s);
    let ghost trimmed = s.skip(lead as int);
    match find_from(&cs, lead, '=') {
        None => None,
        Some(eq) => {
            let key_end = trim_end_at(&cs, lead, eq);
            assert(trimmed.take(eq - lead) =~= s.subrange(lead as int, eq as int));
            assert(trim_end(trimmed.take(eq - lead)) =~= s.subrange(lead as int, key_end as int));
            let ok = key_chars_ok(&cs, lead, key_end);
            parse_pa_line_with(line, ok)
        },
    }
}

/// Reads one line as [`parse_pa_line`] does, with `key_is_word` telling
/// whether its key is made of alphanumerics and `_` (see [`pa_line_with`]).
#[verifier::rlimit(30)]
pub fn parse_pa_line_with(line: &str, key_is_word: bool) -> (r: Option<PaLine>)
    ensures
        match r {
            Some(m) => pa_line_with(line@, key_is_word) == Some(m@),
            None => pa_line_with(line@, key_is_word) is None,
        },
{
    let cs = chars_of(line);
    let ghost s = line@;
    let n = cs.len();
    let lead = skip_ws(&cs, 0);
    assert(s.skip(0) =~= s);
    let ghost trimmed = s.skip(lead as int);
    let eq = match find_from(&cs, lead, '=') {
        None => {
            return None;
        },
        Some(e) => e,
    };
    let ghost e = eq - lead;
    let key_end = trim_end_at(&cs, lead, eq);
    assert(trimmed.take(e) =~= s.subrange(lead as int, eq as int));
    let ghost key = trim_end(trimmed.take(e));
    assert(key =~= s.subrange(lead as int, key_end as int));
    if key_end == lead || !key_is_word {
        return None;
    }
    let q = skip_ws(&cs, eq + 1);
    assert(trimmed.skip(e + 1) =~= s.skip(eq + 1));
    let ghost rest = trim_start(trimmed.skip(e + 1));
    assert(rest =~= s.skip(q as int));
    if q >= n || cs[q] != '"' {
        return None;
    }
    assert(rest.drop_first() =~= s.skip(q + 1));
    let (value, used) = match read_quoted(&cs, q + 1) {
        None => {
            return None;
        },
        Some(r) => r,
    };
    let a = q + 1 + used;
    let ghost after = rest.drop_first().skip(used as int);
    assert(after =~= s.skip(a as int));
    let h = skip_ws(&cs, a);
    if h >= n || cs[h] != '#' {
        assert(h - a < after.len() ==> after[h - a] == s[h as int]);
        return None;
    }
    assert(after[h - a] == s[h as int]);
    let c0 = skip_ws(&cs, h + 1);
    let c1 = trim_end_at(&cs, c0, n);
    assert(after.skip(h - a + 1) =~= s.skip(h + 1));
    assert(trim_start(after.skip(h - a + 1)) =~= s.subrange(c0 as int, n as int));
    assert(trim_end(trim_start(after.skip(h - a + 1))) =~= s.subrange(c0 as int, c1 as int));
    if c1 == c0 {
        return None;
    }
    let indent = collect(&cs, 0, lead);
    let key_s = collect(&cs, lead, key_end);
    let comment = collect(&cs, c0, c1);
    assert(s.take(lead as int) =~= s.subrange(0, lead as int));
    Some(PaLine { indent, key: key_s, value, comment })
}

/// The leading whitespace of `s` fits in `s`, is whitespace throughout, and
/// is followed by a character that is not.
proof fn lemma_ws_prefix_bound(s: Seq<char>)
    ensures
        ws_prefix_len(s) <= s.len(),
        forall|m: int| 0 <= m < ws_prefix_len(s) ==> is_ws(#[trigger] s[m]),
        ws_prefix_len(s) < s.len() ==> !is_ws(s[ws_prefix_len(s) as int]),
    decreases s.len(),
{
    if s.len() > 0 && is_ws(s[0]) {
        let r = s.drop_first();
        lemma_ws_prefix_bound(r);
        assert forall|m: int| 0 <= m < ws_prefix_len(s) implies is_ws(#[trigger] s[m]) by {
            if m > 0 {
                assert(s[m] == r[m - 1]);
            }
        }
        if ws_prefix_len(s) < s.len() {
            assert(s[ws_prefix_len(s) as int] == r[ws_prefix_len(r) as int]);
        }
    }
}

/// The trailing whitespace of `s` fits in `s`.
proof fn lemma_ws_suffix_bound(s: Seq<char>)
    ensures
        ws_suffix_len(s) <= s.len(),
    decreases s.len(),
{
    if s.len() > 0 && is_ws(s.last()) {
        lemma_ws_suffix_bound(s.drop_last());
    }
}

/// The first `c` of `s` is a `c`, and nothing before it is.
pub(crate) proof fn lemma_first_index_facts(s: Seq<char>, c: char)
    ensures
        match first_index(s, c) {
            Some(i) => 0 <= i < s.len() && s[i] == c && forall|m: int|
                0 <= m < i ==> #[trigger] s[m] != c,
            None => forall|m: int| 0 <= m < s.len() ==> #[trigger] s[m] != c,
        },
    decreases s.len(),
{
    if s.len() > 0 && s[0] != c {
        let r = s.drop_first();
        lemma_first_index_facts(r, c);
        assert forall|m: int| 1 <= m < s.len() implies #[trigger] s[m] == r[m - 1] by {}
    }
}

/// `first_index(s, c)` is `k` when nothing before `k` is `c` and `s[k]` is
/// (`None` when `k` is the end of `s`).
pub(crate) proof fn lemma_first_index_is(s: Seq<char>, c: char, k: int)
    requires
        0 <= k <= s.len(),
        forall|m: int| 0 <= m < k ==> s[m] != c,
        k == s.len() || s[k] == c,
    ensures
        first_index(s, c) == (if k < s.len() {
            Some(k)
        } else {
            None::<int>
        }),
    decreases k,
{
    if k > 0 {
        lemma_first_index_is(s.drop_first(), c, k - 1);
    }
}

/// A quoted value takes at least its closing quote and no more than `v`.
proof fn lemma_quoted_value_used(v: Seq<char>)
    ensures
        quoted_value(v) matches Some((w, k)) ==> 1 <= k <= v.len(),
    decreases v.len(),
{
    if v.len() > 0 {
        if v[0] == '\\' {
            if v.len() >= 2 {
                lemma_quoted_value_used(v.skip(2));
            }
        } else if v[0] != '"' {
            lemma_quoted_value_used(v.drop_first());
        }
    }
}

/// Text without quotes, then a closing quote: the value is read up to that
/// quote, or not at all (when a backslash takes the quote).
proof fn lemma_quoted_to_end(c: Seq<char>)
    requires
        !c.contains('"'),
    ensures
        quoted_value(c + seq!['"']) matches Some((w, k)) ==> k == c.len() + 1,
    decreases c.len(),
{
    let v = c + seq!['"'];
    if c.len() == 0 {
        assert(v[0] == '"');
    } else {
        assert(v[0] == c[0]);
        assert(c[0] != '"');
        if c[0] == '\\' {
            if c.len() >= 2 {
                assert(v.skip(2) =~= c.skip(2) + seq!['"']);
                lemma_sub_lacks(c, 2, c.len() as int, '"');
                lemma_quoted_to_end(c.skip(2));
                assert(v.len() >= 2 && v[1] == c[1]);
                assert(quoted_value(v) == after_prefix(seq!['\\', v[1]], 2, quoted_value(v.skip(2))));
            } else {
                assert(v.skip(2) =~= Seq::<char>::empty());
            }
        } else {
            assert(v.drop_first() =~= c.drop_first() + seq!['"']);
            lemma_sub_lacks(c, 1, c.len() as int, '"');
            lemma_quoted_to_end(c.drop_first());
            assert(quoted_value(v) == after_prefix(seq![v[0]], 1, quoted_value(v.drop_first())));
        }
    }
}

/// A part of a text that lacks `x` lacks it too.
pub(crate) proof fn lemma_sub_lacks(s: Seq<char>, a: int, b: int, x: char)
    requires
        0 <= a <= b <= s.len(),
        !s.contains(x),
    ensures
        !s.subrange(a, b).contains(x),
{
    assert forall|i: int| 0 <= i < b - a implies s.subrange(a, b)[i] != x by {
        assert(s.subrange(a, b)[i] == s[i + a]);
    }
}

/// What a read inline-translation line is made of: the indent is
/// whitespace; the key is not empty, does not start with whitespace and
/// holds no `=`; and indent, key and comment hold no character that the line
/// does not.
pub(crate) proof fn lemma_pa_line_parts(line: Seq<char>, key_is_word: bool, x: char)
    ensures
        pa_line_with(line, key_is_word) matches Some(m) ==> {
            &&& forall|i: int| 0 <= i < m.indent.len() ==> is_ws(#[trigger] m.indent[i])
            &&& m.key.len() > 0
            &&& !is_ws(m.key[0])
            &&& !m.key.contains('=')
            &&& !line.contains(x) ==> !m.indent.contains(x) && !m.key.contains(x)
                && !m.comment.contains(x)
        },
{
    let lead = ws_prefix_len(line) as int;
    lemma_ws_prefix_bound(line);
    let trimmed = line.skip(lead);
    lemma_first_index_facts(trimmed, '=');
    match first_index(trimmed, '=') {
        None => {},
        Some(eq) => {
            let pre = trimmed.take(eq);
            lemma_ws_suffix_bound(pre);
            let key = trim_end(pre);
            let after_eq = trimmed.skip(eq + 1);
            lemma_ws_prefix_bound(after_eq);
            let rest = trim_start(after_eq);
            if key.len() > 0 && key_is_word && rest.len() > 0 && rest[0] == '"' {
                let inner = rest.drop_first();
                lemma_quoted_value_used(inner);
                match quoted_value(inner) {
                    None => {},
                    Some((value, used)) => {
                        let after = inner.skip(used as int);
                        lemma_ws_prefix_bound(after);
                        let w = ws_prefix_len(after) as int;
                        if w < after.len() && after[w] == '#' {
                            let tail = after.skip(w + 1);
                            lemma_ws_prefix_bound(tail);
                            let ts = trim_start(tail);
                            lemma_ws_suffix_bound(ts);
                            let comment = trim_end(ts);
                            assert(key[0] == line[lead]);
                            assert forall|i: int| 0 <= i < key.len() implies key[i] != '=' by {
                                assert(key[i] == trimmed[i]);
                            }
                            assert forall|i: int| 0 <= i < lead implies is_ws(
                                #[trigger] line.take(lead)[i],
                            ) by {
                                assert(line.take(lead)[i] == line[i]);
                            }
                            if !line.contains(x) {
                                lemma_sub_lacks(line, 0, lead, x);
                                lemma_sub_lacks(line, lead, line.len() as int, x);
                                lemma_sub_lacks(trimmed, 0, eq, x);
                                lemma_sub_lacks(pre, 0, key.len() as int, x);
                                lemma_sub_lacks(trimmed, eq + 1, trimmed.len() as int, x);
                                lemma_sub_lacks(
                                    after_eq,
                                    ws_prefix_len(after_eq) as int,
                                    after_eq.len() as int,
                                    x,
                                );
                                lemma_sub_lacks(rest, 1, rest.len() as int, x);
                                lemma_sub_lacks(inner, used as int, inner.len() as int, x);
                                lemma_sub_lacks(after, w + 1, after.len() as int, x);
                                lemma_sub_lacks(
                                    tail,
                                    ws_prefix_len(tail) as int,
                                    tail.len() as int,
                                    x,
                                );
                                lemma_sub_lacks(ts, 0, comment.len() as int, x);
                            }
                        }
                    },
                }
            }
        },
    }
}

/// A line `<indent>key = "<comment>"` is no inline-translation line when
/// the indent is whitespace, the key starts with something else and holds no
/// `=`, and the comment holds no quote: no `#` follows the closing quote.
pub(crate) proof fn lemma_rewritten_line_unread(
    indent: Seq<char>,
    key: Seq<char>,
    comment: Seq<char>,
    key_is_word: bool,
)
    requires
        forall|i: int| 0 <= i < indent.len() ==> is_ws(#[trigger] indent[i]),
        key.len() > 0,
        !is_ws(key[0]),
        !key.contains('='),
        !comment.contains('"'),
    ensures
        pa_line_with(
            indent + key + seq![' ', '=', ' ', '"'] + comment + seq!['"'],
            key_is_word,
        ) is None,
{
    let line = indent + key + seq![' ', '=', ' ', '"'] + comment + seq!['"'];
    let n = indent.len() as int;
    assert forall|m: int| 0 <= m < n implies is_ws(line[m]) by {
        assert(line[m] == indent[m]);
    }
    assert(line[n] == key[0]);
    lemma_ws_prefix(line, 0, n);
    assert(line.skip(0) =~= line);
    let trimmed = line.skip(n);
    assert(trimmed =~= key + seq![' ', '=', ' ', '"'] + comment + seq!['"']);
    let e = key.len() as int + 1;
    assert forall|m: int| 0 <= m < e implies trimmed[m] != '=' by {
        if m < key.len() {
            assert(trimmed[m] == key[m]);
        }
    }
    lemma_first_index_is(trimmed, '=', e);
    let after_eq = trimmed.skip(e + 1);
    let q = seq![' ', '"'] + comment + seq!['"'];
    assert(after_eq =~= q);
    lemma_ws_prefix(q, 0, 1);
    assert(q.skip(0) =~= q);
    let rest = trim_start(after_eq);
    assert(rest =~= seq!['"'] + comment + seq!['"']);
    assert(rest.drop_first() =~= comment + seq!['"']);
    lemma_quoted_to_end(comment);
    match quoted_value(comment + seq!['"']) {
        Some((v, used)) => {
            assert(rest.drop_first().skip(used as int) =~= Seq::<char>::empty());
        },
        None => {},
    }
}

/// A value without quotes or backslashes, then a closing quote: the value
/// is read whole, with its closing quote, whatever follows.
proof fn lemma_quoted_plain(v: Seq<char>, r: Seq<char>)
    requires
        forall|i: int| 0 <= i < v.len() ==> #[trigger] v[i] != '"' && v[i] != '\\',
    ensures
        quoted_value(v + seq!['"'] + r) == Some((v, (v.len() + 1) as nat)),
    decreases v.len(),
{
    let x = v + seq!['"'] + r;
    if v.len() == 0 {
        assert(x[0] == '"');
    } else {
        assert(x[0] == v[0]);
        let d = v.drop_first();
        assert(x.drop_first() =~= d + seq!['"'] + r);
        lemma_quoted_plain(d, r);
        assert(seq![v[0]] + d =~= v);
    }
}

/// The front of a line: indent, key, whitespace, `=`, and what follows `r`.
proof fn lemma_line_front(indent: Seq<char>, key: Seq<char>, ws1: Seq<char>, r: Seq<char>)
    requires
        forall|i: int| 0 <= i < indent.len() ==> is_ws(#[trigger] indent[i]),
        forall|i: int| 0 <= i < ws1.len() ==> is_ws(#[trigger] ws1[i]),
        key.len() > 0,
        forall|i: int| 0 <= i < key.len() ==> !is_ws(#[trigger] key[i]) && key[i] != '=',
    ensures
        ({
            let line = indent + key + ws1 + seq!['='] + r;
            let lead = ws_prefix_len(line) as int;
            let trimmed = line.skip(lead);
            &&& lead == indent.len()
            &&& line.take(lead) == indent
            &&& first_index(trimmed, '=') == Some(key.len() + ws1.len() as int)
            &&& trim_end(trimmed.take(key.len() + ws1.len() as int)) == key
            &&& trimmed.skip(key.len() + ws1.len() as int + 1) == r
            &&& pa_key(line) == Some(key)
        }),
{
    let body = key + ws1 + seq!['='] + r;
    let line = indent + key + ws1 + seq!['='] + r;
    assert(line =~= indent + body);
    let n = indent.len() as int;
    assert forall|m: int| 0 <= m < n implies is_ws(line[m]) by {
        assert(line[m] == indent[m]);
    }
    assert(line[n] == key[0]);
    lemma_ws_prefix(line, 0, n);
    assert(line.skip(0) =~= line);
    let trimmed = line.skip(n);
    assert(trimmed =~= body);
    assert(line.take(n) =~= indent);
    let eq: int = key.len() as int + ws1.len() as int;
    assert forall|m: int| 0 <= m < eq implies trimmed[m] != '=' by {
        if m < key.len() {
            assert(trimmed[m] == key[m]);
        } else {
            assert(trimmed[m] == ws1[m - key.len()]);
        }
    }
    assert(trimmed[eq] == '=');
    lemma_first_index_is(trimmed, '=', eq);
    let kw = key + ws1;
    assert(trimmed.take(eq) =~= kw);
    assert forall|m: int| key.len() <= m < eq implies is_ws(kw[m]) by {
        assert(kw[m] == ws1[m - key.len()]);
    }
    assert(kw[key.len() - 1] == key[key.len() - 1]);
    lemma_ws_suffix(kw, 0, key.len() as int, eq);
    assert(kw.subrange(0, eq) =~= kw);
    assert(trim_end(kw) =~= key);
    assert(trimmed.skip(eq + 1) =~= r);
}

/// The end of a line: whitespace, `#`, whitespace and the comment.
proof fn lemma_line_comment(ws3: Seq<char>, ws4: Seq<char>, comment: Seq<char>)
    requires
        forall|i: int| 0 <= i < ws3.len() ==> is_ws(#[trigger] ws3[i]),
        forall|i: int| 0 <= i < ws4.len() ==> is_ws(#[trigger] ws4[i]),
        comment.len() > 0,
        !is_ws(comment[0]),
        !is_ws(comment.last()),
    ensures
        ({
            let after = ws3 + seq!['#'] + ws4 + comment;
            let w = ws_prefix_len(after) as int;
            &&& w == ws3.len()
            &&& w < after.len()
            &&& after[w] == '#'
            &&& trim_end(trim_start(after.skip(w + 1))) == comment
        }),
{
    let after = ws3 + seq!['#'] + ws4 + comment;
    let w = ws3.len() as int;
    assert forall|m: int| 0 <= m < w implies is_ws(after[m]) by {
        assert(after[m] == ws3[m]);
    }
    assert(after[w] == '#');
    lemma_ws_prefix(after, 0, w);
    assert(after.skip(0) =~= after);
    let c0 = after.skip(w + 1);
    assert(c0 =~= ws4 + comment);
    assert forall|m: int| 0 <= m < ws4.len() implies is_ws(c0[m]) by {
        assert(c0[m] == ws4[m]);
    }
    assert(c0[ws4.len() as int] == comment[0]);
    lemma_ws_prefix(c0, 0, ws4.len() as int);
    assert(c0.skip(0) =~= c0);
    assert(trim_start(c0) =~= comment);
    lemma_ws_suffix(comment, 0, comment.len() as int, comment.len() as int);
    assert(comment.subrange(0, comment.len() as int) =~= comment);
    assert(trim_end(comment) =~= comment);
}

/// After the `=`: whitespace and the quoted value, then `tail`.
proof fn lemma_line_value(ws2: Seq<char>, value: Seq<char>, tail: Seq<char>)
    requires
        forall|i: int| 0 <= i < ws2.len() ==> is_ws(#[trigger] ws2[i]),
        forall|i: int| 0 <= i < value.len() ==> #[trigger] value[i] != '"' && value[i] != '\\',
    ensures
        ({
            let rest = trim_start(ws2 + seq!['"'] + value + seq!['"'] + tail);
            &&& rest.len() > 0
            &&& rest[0] == '"'
            &&& quoted_value(rest.drop_first()) == Some((value, (value.len() + 1) as nat))
            &&& rest.drop_first().skip(value.len() as int + 1) == tail
        }),
{
    let x = ws2 + seq!['"'] + value + seq!['"'] + tail;
    assert forall|m: int| 0 <= m < ws2.len() implies is_ws(x[m]) by {
        assert(x[m] == ws2[m]);
    }
    assert(x[ws2.len() as int] == '"');
    lemma_ws_prefix(x, 0, ws2.len() as int);
    assert(x.skip(0) =~= x);
    let rest = trim_start(x);
    assert(rest =~= seq!['"'] + value + seq!['"'] + tail);
    assert(rest.drop_first() =~= value + seq!['"'] + tail);
    lemma_quoted_plain(value, tail);
    assert(rest.drop_first().skip(value.len() as int + 1) =~= tail);
}

/// Law: how an inline-translation line is read. A line made of an indent of
/// whitespace, a key of word characters (alphanumerics and `_`), any run of
/// whitespace (none included), `=`, any run of whitespace, a quoted value
/// without quotes or backslashes, any run of whitespace, `#`, any run of
/// whitespace and a comment that starts and ends with something else than
/// whitespace, is read into exactly those indent, key, value and comment.
pub proof fn lemma_pa_line_reads(
    indent: Seq<char>,
    key: Seq<char>,
    ws1: Seq<char>,
    ws2: Seq<char>,
    value: Seq<char>,
    ws3: Seq<char>,
    ws4: Seq<char>,
    comment: Seq<char>,
)
    requires
        forall|i: int| 0 <= i < indent.len() ==> is_ws(#[trigger] indent[i]),
        forall|i: int| 0 <= i < ws1.len() ==> is_ws(#[trigger] ws1[i]),
        forall|i: int| 0 <= i < ws2.len() ==> is_ws(#[trigger] ws2[i]),
        forall|i: int| 0 <= i < ws3.len() ==> is_ws(#[trigger] ws3[i]),
        forall|i: int| 0 <= i < ws4.len() ==> is_ws(#[trigger] ws4[i]),
        key.len() > 0,
        key_word(key),
        forall|i: int| 0 <= i < key.len() ==> !is_ws(#[trigger] key[i]) && key[i] != '=',
        forall|i: int| 0 <= i < value.len() ==> #[trigger] value[i] != '"' && value[i] != '\\',
        comment.len() > 0,
        !is_ws(comment[0]),
        !is_ws(comment.last()),
    ensures
        pa_line(
            indent + key + ws1 + seq!['='] + ws2 + seq!['"'] + value + seq!['"'] + ws3 + seq!['#']
                + ws4 + comment,
        ) == Some(PaLineView { indent, key, value, comment }),
{
    let tail = ws3 + seq!['#'] + ws4 + comment;
    let r = ws2 + seq!['"'] + value + seq!['"'] + tail;
    let line = indent + key + ws1 + seq!['='] + r;
    assert(line =~= indent + key + ws1 + seq!['='] + ws2 + seq!['"'] + value + seq!['"'] + ws3
        + seq!['#'] + ws4 + comment);
    lemma_line_front(indent, key, ws1, r);
    lemma_line_value(ws2, value, tail);
    lemma_line_comment(ws3, ws4, comment);
}

/// Every character of `s` is whitespace.
pub open spec fn all_ws(s: Seq<char>) -> bool {
    forall|i: int| 0 <= i < s.len() ==> is_ws(#[trigger] s[i])
}

/// The trailing whitespace of `s` fits in `s` and is whitespace
/// throughout.
proof fn lemma_ws_suffix_facts(s: Seq<char>)
    ensures
        ws_suffix_len(s) <= s.len(),
        forall|m: int| s.len() - ws_suffix_len(s) <= m < s.len() ==> is_ws(#[trigger] s[m]),
    decreases s.len(),
{
    if s.len() > 0 && is_ws(s.last()) {
        let r = s.drop_last();
        lemma_ws_suffix_facts(r);
        assert forall|m: int| s.len() - ws_suffix_len(s) <= m < s.len() implies is_ws(
            #[trigger] s[m],
        ) by {
            if m < s.len() - 1 {
                assert(s[m] == r[m]);
            }
        }
    }
}

/// A quoted value takes its characters and then its closing quote.
proof fn lemma_quoted_value_text(v: Seq<char>)
    ensures
        quoted_value(v) matches Some((w, k)) ==> k <= v.len() && v.take(k as int) == w + seq!['"'],
    decreases v.len(),
{
    if v.len() > 0 {
        if v[0] == '\\' {
            if v.len() >= 2 {
                lemma_quoted_value_text(v.skip(2));
                match quoted_value(v.skip(2)) {
                    Some((w, k)) => {
                        assert(v.take(k as int + 2) =~= seq!['\\', v[1]] + v.skip(2).take(k as int));
                        assert(seq!['\\', v[1]] + (w + seq!['"']) =~= (seq!['\\', v[1]] + w)
                            + seq!['"']);
                    },
                    None => {},
                }
            }
        } else if v[0] == '"' {
            assert(v.take(1) =~= Seq::<char>::empty() + seq!['"']);
        } else {
            lemma_quoted_value_text(v.drop_first());
            match quoted_value(v.drop_first()) {
                Some((w, k)) => {
                    assert(v.take(k as int + 1) =~= seq![v[0]] + v.drop_first().take(k as int));
                    assert(seq![v[0]] + (w + seq!['"']) =~= (seq![v[0]] + w) + seq!['"']);
                },
                None => {},
            }
        }
    }
}

/// The front of a read line: its indent, its key, whitespace, `=` and the
/// text after the `=`.
proof fn lemma_front_shape(line: Seq<char>, eq: int)
    requires
        first_index(line.skip(ws_prefix_len(line) as int), '=') == Some(eq),
    ensures
        ({
            let lead = ws_prefix_len(line) as int;
            let trimmed = line.skip(lead);
            let pre = trimmed.take(eq);
            let key = trim_end(pre);
            let ws1 = pre.skip(key.len() as int);
            &&& all_ws(line.take(lead))
            &&& all_ws(ws1)
            &&& line == line.take(lead) + key + ws1 + seq!['='] + trimmed.skip(eq + 1)
        }),
{
    let lead = ws_prefix_len(line) as int;
    lemma_ws_prefix_bound(line);
    let trimmed = line.skip(lead);
    lemma_first_index_facts(trimmed, '=');
    let pre = trimmed.take(eq);
    lemma_ws_suffix_facts(pre);
    let key = trim_end(pre);
    let ws1 = pre.skip(key.len() as int);
    let indent = line.take(lead);
    assert forall|i: int| 0 <= i < indent.len() implies is_ws(#[trigger] indent[i]) by {
        assert(indent[i] == line[i]);
    }
    assert forall|i: int| 0 <= i < ws1.len() implies is_ws(#[trigger] ws1[i]) by {
        assert(ws1[i] == pre[i + key.len()]);
    }
    assert(pre =~= key + ws1);
    assert(trimmed =~= pre + seq!['='] + trimmed.skip(eq + 1));
    assert(line =~= indent + trimmed);
}

/// After the `=` of a read line: whitespace, the quoted value and what
/// follows it.
proof fn lemma_value_shape(after_eq: Seq<char>, value: Seq<char>, used: nat)
    requires
        trim_start(after_eq).len() > 0,
        trim_start(after_eq)[0] == '"',
        quoted_value(trim_start(after_eq).drop_first()) == Some((value, used)),
    ensures
        ({
            let ws2 = after_eq.take(ws_prefix_len(after_eq) as int);
            let after = trim_start(after_eq).drop_first().skip(used as int);
            &&& all_ws(ws2)
            &&& after_eq == ws2 + seq!['"'] + value + seq!['"'] + after
        }),
{
    lemma_ws_prefix_bound(after_eq);
    let p2 = ws_prefix_len(after_eq) as int;
    let ws2 = after_eq.take(p2);
    let rest = trim_start(after_eq);
    let inner = rest.drop_first();
    lemma_quoted_value_text(inner);
    let after = inner.skip(used as int);
    assert forall|i: int| 0 <= i < ws2.len() implies is_ws(#[trigger] ws2[i]) by {
        assert(ws2[i] == after_eq[i]);
    }
    assert(inner =~= inner.take(used as int) + after);
    assert(rest =~= seq!['"'] + inner);
    assert(after_eq =~= ws2 + rest);
    assert(after_eq =~= ws2 + seq!['"'] + value + seq!['"'] + after);
}

/// After the quoted value of a read line: whitespace, `#`, whitespace, the
/// comment and trailing whitespace.
proof fn lemma_comment_shape(after: Seq<char>)
    requires
        ws_prefix_len(after) < after.len(),
        after[ws_prefix_len(after) as int] == '#',
        trim_end(trim_start(after.skip(ws_prefix_len(after) as int + 1))).len() > 0,
    ensures
        ({
            let w = ws_prefix_len(after) as int;
            let tail = after.skip(w + 1);
            let ts = trim_start(tail);
            let comment = trim_end(ts);
            let ws3 = after.take(w);
            let ws4 = tail.take(ws_prefix_len(tail) as int);
            let ws5 = ts.skip(comment.len() as int);
            &&& all_ws(ws3)
            &&& all_ws(ws4)
            &&& all_ws(ws5)
            &&& !is_ws(comment[0])
            &&& !is_ws(comment.last())
            &&& after == ws3 + seq!['#'] + ws4 + comment + ws5
        }),
{
    lemma_ws_prefix_bound(after);
    let w = ws_prefix_len(after) as int;
    let tail = after.skip(w + 1);
    lemma_ws_prefix_bound(tail);
    let p4 = ws_prefix_len(tail) as int;
    let ts = trim_start(tail);
    lemma_ws_suffix_facts(ts);
    let comment = trim_end(ts);
    let ws3 = after.take(w);
    let ws4 = tail.take(p4);
    let ws5 = ts.skip(comment.len() as int);
    assert forall|i: int| 0 <= i < ws3.len() implies is_ws(#[trigger] ws3[i]) by {
        assert(ws3[i] == after[i]);
    }
    assert forall|i: int| 0 <= i < ws4.len() implies is_ws(#[trigger] ws4[i]) by {
        assert(ws4[i] == tail[i]);
    }
    assert forall|i: int| 0 <= i < ws5.len() implies is_ws(#[trigger] ws5[i]) by {
        assert(ws5[i] == ts[i + comment.len()]);
    }
    assert(comment[0] == ts[0]);
    assert(ts[0] == tail[p4]);
    assert(comment.last() == ts[comment.len() - 1]);
    lemma_ws_suffix_last(ts);
    assert(ts =~= comment + ws5);
    assert(tail =~= ws4 + ts);
    assert(after =~= ws3 + seq!['#'] + tail);
    assert(after =~= ws3 + seq!['#'] + ws4 + comment + ws5);
}

/// The pieces of a line, joined.
proof fn lemma_join_line(
    line: Seq<char>,
    indent: Seq<char>,
    key: Seq<char>,
    ws1: Seq<char>,
    after_eq: Seq<char>,
    ws2: Seq<char>,
    value: Seq<char>,
    after: Seq<char>,
    ws3: Seq<char>,
    ws4: Seq<char>,
    comment: Seq<char>,
    ws5: Seq<char>,
)
    requires
        line == indent + key + ws1 + seq!['='] + after_eq,
        after_eq == ws2 + seq!['"'] + value + seq!['"'] + after,
        after == ws3 + seq!['#'] + ws4 + comment + ws5,
    ensures
        line == indent + key + ws1 + seq!['='] + ws2 + seq!['"'] + value + seq!['"'] + ws3 + seq![
            '#',
        ] + ws4 + comment + ws5,
{
    assert(line =~= indent + key + ws1 + seq!['='] + ws2 + seq!['"'] + value + seq!['"'] + ws3
        + seq!['#'] + ws4 + comment + ws5);
}

/// Law: the shape of every line that is read as an inline-translation
/// line. It is its indent, its key (word characters), whitespace, `=`,
/// whitespace, `"`, its value, `"`, whitespace, `#`, whitespace, its comment
/// and trailing whitespace, nothing more; the key and the comment are not
/// empty, and the comment starts and ends with something else than
/// whitespace.
#[verifier::rlimit(60)]
pub proof fn lemma_pa_line_shape(line: Seq<char>)
    ensures
        pa_line(line) matches Some(m) ==> {
            &&& all_ws(m.indent)
            &&& m.key.len() > 0
            &&& key_word(m.key)
            &&& m.comment.len() > 0
            &&& !is_ws(m.comment[0])
            &&& !is_ws(m.comment.last())
            &&& exists|ws1: Seq<char>, ws2: Seq<char>, ws3: Seq<char>, ws4: Seq<char>, ws5: Seq<char>|
                #![trigger all_ws(ws1), all_ws(ws2), all_ws(ws3), all_ws(ws4), all_ws(ws5)]
                all_ws(ws1) && all_ws(ws2) && all_ws(ws3) && all_ws(ws4) && all_ws(ws5) && line
                    == m.indent + m.key + ws1 + seq!['='] + ws2 + seq!['"'] + m.value + seq!['"']
                    + ws3 + seq!['#'] + ws4 + m.comment + ws5
        },
{
    let lead = ws_prefix_len(line) as int;
    let trimmed = line.skip(lead);
    match first_index(trimmed, '=') {
        None => {},
        Some(eq) => {
            let key = trim_end(trimmed.take(eq));
            let after_eq = trimmed.skip(eq + 1);
            let rest = trim_start(after_eq);
            assert(pa_key(line) == Some(key));
            if key.len() > 0 && key_word(key) && rest.len() > 0 && rest[0] == '"' {
                match quoted_value(rest.drop_first()) {
                    None => {},
                    Some((value, used)) => {
                        let after = rest.drop_first().skip(used as int);
                        let w = ws_prefix_len(after) as int;
                        if w < after.len() && after[w] == '#' && trim_end(
                            trim_start(after.skip(w + 1)),
                        ).len() > 0 {
                            lemma_front_shape(line, eq);
                            lemma_value_shape(after_eq, value, used);
                            lemma_comment_shape(after);
                            let comment = trim_end(trim_start(after.skip(w + 1)));
                            let ws1 = trimmed.take(eq).skip(key.len() as int);
                            let ws2 = after_eq.take(ws_prefix_len(after_eq) as int);
                            let ws3 = after.take(w);
                            let ws4 = after.skip(w + 1).take(
                                ws_prefix_len(after.skip(w + 1)) as int,
                            );
                            let ws5 = trim_start(after.skip(w + 1)).skip(comment.len() as int);
                            lemma_join_line(
                                line,
                                line.take(lead),
                                key,
                                ws1,
                                after_eq,
                                ws2,
                                value,
                                after,
                                ws3,
                                ws4,
                                comment,
                                ws5,
                            );
                        }
                    },
                }
            }
        },
    }
}

/// Text without its trailing whitespace ends with something else.
proof fn lemma_ws_suffix_last(s: Seq<char>)
    requires
        ws_suffix_len(s) < s.len(),
    ensures
        !is_ws(s[s.len() - ws_suffix_len(s) - 1]),
    decreases s.len(),
{
    if s.len() > 0 && is_ws(s.last()) {
        lemma_ws_suffix_last(s.drop_last());
        assert(s[s.len() - ws_suffix_len(s) - 1] == s.drop_last()[s.len() - ws_suffix_len(s) - 1]);
    }
}

} // verus!
