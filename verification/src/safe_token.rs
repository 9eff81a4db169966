//! "Safe token" conversion.
//!
//! Paradox control sequences (`$VAR$` variables, `§` colour codes, `£` icon
//! keys, `¤` currency) are fragile: external translation tools and spreadsheet
//! editors tend to mangle them. This module rewrites them into inert
//! `<...>`-delimited ASCII tokens and back, so that text can pass through such
//! tools untouched.
//!
//! Token format:
//! - `§x`             -> `<A7-x>`   (a lone trailing `§` -> `<A7>`)
//! - `¤`              -> `<A4>`
//! - `£key£`          -> `<A3-key-A3>`
//! - `£key ` / `£key` -> `<A3-key>`  (the delimiting space comes back on decode)
//! - `$VAR$`          -> `<VAR-VAR>`
//!
//! The decoder also understands the closed `<A3-key-A3>` form.

use vstd::prelude::*;
use crate::text::{chars_of, push_char, is_separator_char, separator_chars, lemma_separator_chars_concat};

verus! {

/// Length of the icon key at the front of `s`: the longest prefix holding no
/// space and no `£`.
pub open spec fn key_len(s: Seq<char>) -> nat
    decreases s.len(),
{
    if s.len() == 0 || s[0] == ' ' || s[0] == '£' {
        0
    } else {
        1 + key_len(s.drop_first())
    }
}

/// Index of the first `$` in `s`, or `s.len()` when there is none.
pub open spec fn dollar_pos(s: Seq<char>) -> nat
    decreases s.len(),
{
    if s.len() == 0 || s[0] == '$' {
        0
    } else {
        1 + dollar_pos(s.drop_first())
    }
}

/// Index of the first `>` in `s`, or `s.len()` when there is none.
pub open spec fn gt_pos(s: Seq<char>) -> nat
    decreases s.len(),
{
    if s.len() == 0 || s[0] == '>' {
        0
    } else {
        1 + gt_pos(s.drop_first())
    }
}

/// `pat` occurs in `s` at index `i`.
pub open spec fn occurs_at(s: Seq<char>, i: int, pat: Seq<char>) -> bool {
    0 <= i && i + pat.len() <= s.len() && s.subrange(i, i + pat.len()) == pat
}

pub open spec fn tok_a3() -> Seq<char> {
    seq!['<', 'A', '3', '-']
}

pub open spec fn tok_a3_close() -> Seq<char> {
    seq!['-', 'A', '3', '>']
}

pub open spec fn tok_a4() -> Seq<char> {
    seq!['<', 'A', '4', '>']
}

pub open spec fn tok_a7() -> Seq<char> {
    seq!['<', 'A', '7', '-']
}

pub open spec fn tok_a7_lone() -> Seq<char> {
    seq!['<', 'A', '7', '>']
}

pub open spec fn tok_var() -> Seq<char> {
    seq!['<', 'V', 'A', 'R', '-']
}

/// The safe-token form of `s`, read left to right.
pub open spec fn safe_form(s: Seq<char>) -> Seq<char>
    decreases s.len(),
{
    if s.len() == 0 {
        Seq::empty()
    } else if s[0] == '£' {
        let rest = s.drop_first();
        let k = key_len(rest) as int;
        if k < rest.len() && rest[k] == '£' {
            tok_a3() + rest.take(k) + tok_a3_close() + safe_form(rest.skip(k + 1))
        } else if k < rest.len() {
            // the delimiting space is dropped
            tok_a3() + rest.take(k) + seq!['>'] + safe_form(rest.skip(k + 1))
        } else {
            tok_a3() + rest.take(k) + seq!['>']
        }
    } else if s[0] == '¤' {
        tok_a4() + safe_form(s.drop_first())
    } else if s[0] == '§' {
        if s.len() >= 2 {
            tok_a7() + seq![s[1], '>'] + safe_form(s.skip(2))
        } else {
            tok_a7_lone()
        }
    } else if s[0] == '$' {
        let rest = s.drop_first();
        let j = dollar_pos(rest) as int;
        if j < rest.len() && j > 0 {
            tok_var() + rest.take(j) + seq!['>'] + safe_form(rest.skip(j + 1))
        } else {
            seq!['$'] + safe_form(rest)
        }
    } else {
        seq![s[0]] + safe_form(s.drop_first())
    }
}

/// What the decoder finds after `<A3-`: the length of the key and whether it
/// was closed by `-A3>` (`true`) or by `>` (`false`); `None` when neither
/// comes.
pub open spec fn a3_scan(u: Seq<char>) -> Option<(nat, bool)>
    decreases u.len(),
{
    if u.len() == 0 {
        None
    } else if u[0] == '>' {
        Some((0, false))
    } else if occurs_at(u, 0, tok_a3_close()) {
        Some((0, true))
    } else {
        match a3_scan(u.drop_first()) {
            Some((k, closed)) => Some((k + 1, closed)),
            None => None,
        }
    }
}

/// The raw form of the safe-token text `t`, read left to right. Text that
/// forms no complete token is kept as it is.
pub open spec fn raw_form(t: Seq<char>) -> Seq<char>
    decreases t.len(),
{
    if t.len() == 0 {
        Seq::empty()
    } else if occurs_at(t, 0, tok_a3()) && a3_scan(t.skip(4)) is Some {
        proof {
            lemma_a3_scan_bound(t.skip(4));
        }
        let (kn, closed) = a3_scan(t.skip(4))->0;
        let k = kn as int;
        let key = t.subrange(4, 4 + k);
        if closed {
            seq!['£'] + key + seq!['£'] + raw_form(t.skip(4 + k + 4))
        } else {
            seq!['£'] + key + seq![' '] + raw_form(t.skip(4 + k + 1))
        }
    } else if occurs_at(t, 0, tok_a4()) {
        seq!['¤'] + raw_form(t.skip(4))
    } else if occurs_at(t, 0, tok_a7()) && 5 < t.len() && t[5] == '>' {
        seq!['§', t[4]] + raw_form(t.skip(6))
    } else if occurs_at(t, 0, tok_a7_lone()) {
        seq!['§'] + raw_form(t.skip(4))
    } else if occurs_at(t, 0, tok_var()) && gt_pos(t.skip(5)) < t.len() - 5 {
        let k = gt_pos(t.skip(5)) as int;
        seq!['$'] + t.subrange(5, 5 + k) + seq!['$'] + raw_form(t.skip(5 + k + 1))
    } else {
        seq![t[0]] + raw_form(t.drop_first())
    }
}

/// A closing marker found by [`a3_scan`] lies inside the scanned text.
pub proof fn lemma_a3_scan_bound(u: Seq<char>)
    ensures
        a3_scan(u) matches Some((k, closed)) ==> (if closed {
            k + 4 <= u.len()
        } else {
            k + 1 <= u.len()
        }),
    decreases u.len(),
{
    if u.len() > 0 && u[0] != '>' && !occurs_at(u, 0, tok_a3_close()) {
        lemma_a3_scan_bound(u.drop_first());
    }
}

proof fn lemma_key_len(s: Seq<char>, k: int)
    requires
        0 <= k <= s.len(),
        forall|m: int| 0 <= m < k ==> s[m] != ' ' && s[m] != '£',
        k == s.len() || s[k] == ' ' || s[k] == '£',
    ensures
        key_len(s) == k,
    decreases k,
{
    if k > 0 {
        lemma_key_len(s.drop_first(), k - 1);
    }
}

proof fn lemma_dollar_pos(s: Seq<char>, k: int)
    requires
        0 <= k <= s.len(),
        forall|m: int| 0 <= m < k ==> s[m] != '$',
        k == s.len() || s[k] == '$',
    ensures
        dollar_pos(s) == k,
    decreases k,
{
    if k > 0 {
        lemma_dollar_pos(s.drop_first(), k - 1);
    }
}

proof fn lemma_gt_pos(s: Seq<char>, k: int)
    requires
        0 <= k <= s.len(),
        forall|m: int| 0 <= m < k ==> s[m] != '>',
        k == s.len() || s[k] == '>',
    ensures
        gt_pos(s) == k,
    decreases k,
{
    if k > 0 {
        lemma_gt_pos(s.drop_first(), k - 1);
    }
}

/// Appends the characters of a string.
fn push_str_chars(out: &mut String, lit: &str)
    ensures
        final(out)@ == old(out)@ + lit@,
{
    let cs = chars_of(lit);
    let mut i: usize = 0;
    while i < cs.len()
        invariant
            cs@ == lit@,
            i <= cs@.len(),
            out@ == old(out)@ + lit@.take(i as int),
        decreases cs.len() - i,
    {
        push_char(out, cs[i]);
        i += 1;
        assert(lit@.take(i as int) == lit@.take(i - 1) + seq![lit@[i - 1]]);
    }
    assert(lit@.take(cs@.len() as int) == lit@);
}

/// Does `chars[i..]` start with `pat`? An empty pattern always matches.
pub(crate) fn matches_at(chars: &[char], i: usize, pat: &str) -> (r: bool)
    ensures
        r == (pat@.len() == 0 || occurs_at(chars@, i as int, pat@)),
{
    let p = chars_of(pat);
    let mut j: usize = i;
    let mut k: usize = 0;
    while k < p.len()
        invariant
            p@ == pat@,
            k <= p@.len(),
            j == i + k,
            k > 0 ==> j <= chars@.len(),
            k > 0 ==> chars@.subrange(i as int, j as int) == p@.take(k as int),
        decreases p.len() - k,
    {
        if j >= chars.len() || chars[j] != p[k] {
            proof {
                if occurs_at(chars@, i as int, pat@) {
                    assert(chars@.subrange(i as int, i + pat@.len())[k as int] == pat@[k as int]);
                }
            }
            return false;
        }
        j += 1;
        k += 1;
        assert(chars@.subrange(i as int, j as int) =~= p@.take(k as int)) by {
            if k > 1 {
                assert(chars@.subrange(i as int, j - 1) == p@.take(k - 1));
            }
        }
    }
    if k > 0 {
        assert(p@.take(k as int) == p@);
    }
    true
}

/// Emits the token for the `£` at `chars[i]`; returns where reading goes on.
fn safe_icon(chars: &Vec<char>, i: usize, out: &mut String) -> (next: usize)
    requires
        i < chars@.len(),
        chars@[i as int] == '£',
    ensures
        i < next <= chars@.len(),
        final(out)@ + safe_form(chars@.skip(next as int)) == old(out)@ + safe_form(
            chars@.skip(i as int),
        ),
{
    let ghost s = chars@;
    let ghost before = out@;
    let ghost cur = s.skip(i as int);
    let n = chars.len();
    assert(cur.drop_first() =~= s.skip(i + 1));
    proof {
        reveal_strlit("<A3-");
        reveal_strlit("-A3");
    }
    push_str_chars(out, "<A3-");
    assert("<A3-"@ =~= tok_a3());
    let start = i + 1;
    let mut j = start;
    while j < n && chars[j] != ' ' && chars[j] != '£'
        invariant
            chars@ == s,
            n == s.len(),
            start <= j <= n,
            forall|m: int| start <= m < j ==> s[m] != ' ' && s[m] != '£',
            out@ == before + tok_a3() + s.subrange(start as int, j as int),
        decreases n - j,
    {
        push_char(out, chars[j]);
        j += 1;
        assert(s.subrange(start as int, j as int) =~= s.subrange(start as int, j - 1) + seq![
            s[j - 1],
        ]);
    }
    let ghost rest = cur.drop_first();
    proof {
        lemma_key_len(rest, j - start);
        assert(rest.take(j - start) =~= s.subrange(start as int, j as int));
    }
    if j < n && chars[j] == '£' {
        push_str_chars(out, "-A3");
        push_char(out, '>');
        assert(rest.skip(j - start + 1) =~= s.skip(j + 1));
        assert("-A3"@ + seq!['>'] =~= tok_a3_close());
        assert(out@ =~= before + tok_a3() + rest.take(j - start) + tok_a3_close());
        j + 1
    } else if j < n {
        push_char(out, '>');
        assert(rest.skip(j - start + 1) =~= s.skip(j + 1));
        assert(out@ =~= before + tok_a3() + rest.take(j - start) + seq!['>']);
        j + 1
    } else {
        push_char(out, '>');
        assert(s.skip(j as int) =~= Seq::<char>::empty());
        assert(out@ =~= before + tok_a3() + rest.take(j - start) + seq!['>']);
        j
    }
}

/// Emits the token for the `$` at `chars[i]`, or the `$` itself when no
/// variable follows; returns where reading goes on.
fn safe_dollar(chars: &Vec<char>, i: usize, out: &mut String) -> (next: usize)
    requires
        i < chars@.len(),
        chars@[i as int] == '$',
    ensures
        i < next <= chars@.len(),
        final(out)@ + safe_form(chars@.skip(next as int)) == old(out)@ + safe_form(
            chars@.skip(i as int),
        ),
{
    let ghost s = chars@;
    let ghost before = out@;
    let ghost cur = s.skip(i as int);
    let n = chars.len();
    assert(cur.drop_first() =~= s.skip(i + 1));
    let mut j = i + 1;
    while j < n && chars[j] != '$'
        invariant
            chars@ == s,
            n == s.len(),
            i + 1 <= j <= n,
            forall|m: int| i + 1 <= m < j ==> s[m] != '$',
        decreases n - j,
    {
        j += 1;
    }
    let ghost rest = cur.drop_first();
    proof {
        lemma_dollar_pos(rest, j - i - 1);
    }
    if j < n && j > i + 1 {
        proof {
            reveal_strlit("<VAR-");
        }
        push_str_chars(out, "<VAR-");
        assert("<VAR-"@ =~= tok_var());
        let mut m = i + 1;
        while m < j
            invariant
                chars@ == s,
                n == s.len(),
                i + 1 <= m <= j < n,
                out@ == before + tok_var() + s.subrange(i + 1, m as int),
            decreases j - m,
        {
            push_char(out, chars[m]);
            m += 1;
            assert(s.subrange(i + 1, m as int) =~= s.subrange(i + 1, m - 1) + seq![s[m - 1]]);
        }
        push_char(out, '>');
        assert(rest.take(j - i - 1) =~= s.subrange(i + 1, j as int));
        assert(rest.skip(j - i - 1 + 1) =~= s.skip(j + 1));
        assert(out@ =~= before + tok_var() + rest.take(j - i - 1) + seq!['>']);
        j + 1
    } else {
        push_char(out, '$');
        i + 1
    }
}

/// Rewrites raw Paradox control sequences into inert `<...>` tokens.
pub fn to_safe_string(input: &str) -> (out: String)
    ensures
        out@ == safe_form(input@),
{
    let chars = chars_of(input);
    let n = chars.len();
    let ghost s = input@;
    let mut out = String::new();
    let mut i: usize = 0;
    assert(s.skip(0) =~= s);
    while i < n
        invariant
            chars@ == s,
            n == s.len(),
            i <= n,
            safe_form(s) == out@ + safe_form(s.skip(i as int)),
        decreases n - i,
    {
        let ghost before = out@;
        let ghost cur = s.skip(i as int);
        let c = chars[i];
        assert(cur[0] == c);
        assert(cur.drop_first() =~= s.skip(i + 1));
        if c == '£' {
            i = safe_icon(&chars, i, &mut out);
        } else if c == '¤' {
            proof {
                reveal_strlit("<A4>");
            }
            push_str_chars(&mut out, "<A4>");
            assert("<A4>"@ =~= tok_a4());
            i += 1;
        } else if c == '§' {
            if i + 1 < n {
                proof {
                    reveal_strlit("<A7-");
                }
                push_str_chars(&mut out, "<A7-");
                push_char(&mut out, chars[i + 1]);
                push_char(&mut out, '>');
                assert("<A7-"@ =~= tok_a7());
                assert(cur.skip(2) =~= s.skip(i + 2));
                assert(out@ =~= before + tok_a7() + seq![cur[1], '>']);
                i += 2;
            } else {
                proof {
                    reveal_strlit("<A7>");
                }
                push_str_chars(&mut out, "<A7>");
                assert("<A7>"@ =~= tok_a7_lone());
                assert(s.skip(i + 1) =~= Seq::<char>::empty());
                i += 1;
            }
        } else if c == '$' {
            i = safe_dollar(&chars, i, &mut out);
        } else {
            push_char(&mut out, c);
            i += 1;
        }
    }
    assert(s.skip(n as int) =~= Seq::<char>::empty());
    out
}

proof fn lemma_occurs_shift(u: Seq<char>, m: int, pat: Seq<char>)
    requires
        1 <= m,
        u.len() >= 1,
    ensures
        occurs_at(u, m, pat) == occurs_at(u.drop_first(), m - 1, pat),
{
    if occurs_at(u, m, pat) {
        assert(u.drop_first().subrange(m - 1, m - 1 + pat.len()) =~= u.subrange(m, m + pat.len()));
    }
    if occurs_at(u.drop_first(), m - 1, pat) {
        assert(u.drop_first().subrange(m - 1, m - 1 + pat.len()) =~= u.subrange(m, m + pat.len()));
    }
}

/// Reading past `d` characters that neither end nor close a key moves the
/// result of [`a3_scan`] by `d`.
proof fn lemma_a3_scan_shift(u: Seq<char>, d: int)
    requires
        0 <= d <= u.len(),
        forall|m: int| 0 <= m < d ==> u[m] != '>' && !occurs_at(u, m, tok_a3_close()),
    ensures
        a3_scan(u) == (match a3_scan(u.skip(d)) {
            Some((k, closed)) => Some(((k + d) as nat, closed)),
            None => None,
        }),
    decreases d,
{
    if d == 0 {
        assert(u.skip(0) =~= u);
        match a3_scan(u) {
            Some((k, closed)) => {},
            None => {},
        }
    } else {
        assert forall|m: int| 0 <= m < d - 1 implies u.drop_first()[m] != '>' && !occurs_at(
            u.drop_first(),
            m,
            tok_a3_close(),
        ) by {
            lemma_occurs_shift(u, m + 1, tok_a3_close());
        }
        lemma_a3_scan_shift(u.drop_first(), d - 1);
        assert(u.drop_first().skip(d - 1) =~= u.skip(d));
    }
}

proof fn lemma_occurs_skip(s: Seq<char>, i: int, pat: Seq<char>)
    requires
        0 <= i <= s.len(),
    ensures
        occurs_at(s, i, pat) == occurs_at(s.skip(i), 0, pat),
{
    if occurs_at(s, i, pat) {
        assert(s.skip(i).subrange(0, pat.len() as int) =~= s.subrange(i, i + pat.len()));
    }
    if occurs_at(s.skip(i), 0, pat) {
        assert(s.skip(i).subrange(0, pat.len() as int) =~= s.subrange(i, i + pat.len()));
    }
}

/// The token heads differ from each other, so at most one of them starts `t`.
proof fn lemma_token_heads(t: Seq<char>)
    ensures
        occurs_at(t, 0, tok_a3()) ==> !occurs_at(t, 0, tok_a4()) && !occurs_at(t, 0, tok_a7())
            && !occurs_at(t, 0, tok_a7_lone()) && !occurs_at(t, 0, tok_var()),
        occurs_at(t, 0, tok_a4()) ==> !occurs_at(t, 0, tok_a7()) && !occurs_at(t, 0, tok_a7_lone())
            && !occurs_at(t, 0, tok_var()),
        occurs_at(t, 0, tok_a7()) ==> !occurs_at(t, 0, tok_a7_lone()) && !occurs_at(t, 0, tok_var()),
        occurs_at(t, 0, tok_a7_lone()) ==> !occurs_at(t, 0, tok_var()),
{
    if occurs_at(t, 0, tok_a3()) {
        assert(t.subrange(0, 4)[2] == '3');
        assert(t.subrange(0, 4)[1] == 'A');
    }
    if occurs_at(t, 0, tok_a4()) {
        assert(t.subrange(0, 4)[2] == '4');
        assert(t.subrange(0, 4)[1] == 'A');
    }
    if occurs_at(t, 0, tok_a7()) {
        assert(t.subrange(0, 4)[3] == '-');
        assert(t.subrange(0, 4)[1] == 'A');
    }
    if occurs_at(t, 0, tok_a7_lone()) {
        assert(t.subrange(0, 4)[1] == 'A');
    }
    if occurs_at(t, 0, tok_var()) {
        assert(t.subrange(0, 5)[1] == 'V');
        assert(t.subrange(0, 5)[2] == 'A');
        assert(t.subrange(0, 5)[3] == 'R');
    }
}

/// Decodes an `<A3-...>` token at `chars[i]`; `None` when it is not closed.
fn unsafe_icon(chars: &Vec<char>, i: usize, out: &mut String) -> (r: Option<usize>)
    requires
        occurs_at(chars@, i as int, tok_a3()),
    ensures
        r is None ==> a3_scan(chars@.skip(i + 4)) is None && final(out)@ == old(out)@,
        r matches Some(next) ==> {
            &&& a3_scan(chars@.skip(i + 4)) is Some
            &&& i < next <= chars@.len()
            &&& final(out)@ + raw_form(chars@.skip(next as int)) == old(out)@ + raw_form(
                chars@.skip(i as int),
            )
        },
{
    let ghost s = chars@;
    let ghost u = s.skip(i + 4);
    let n = chars.len();
    proof {
        reveal_strlit("-A3>");
    }
    assert("-A3>"@ =~= tok_a3_close());
    let mut j = i + 4;
    let mut closed = false;
    let mut found = false;
    while j < n
        invariant_except_break
            chars@ == s,
            n == s.len(),
            i + 4 <= j <= n,
            !found,
            !closed,
            u == s.skip(i + 4),
            "-A3>"@ == tok_a3_close(),
            forall|m: int| 0 <= m < j - i - 4 ==> u[m] != '>' && !occurs_at(u, m, tok_a3_close()),
        ensures
            chars@ == s,
            n == s.len(),
            u == s.skip(i + 4),
            i + 4 <= j <= n,
            closed ==> found,
            found ==> j < n && (if closed {
                occurs_at(s, j as int, tok_a3_close())
            } else {
                s[j as int] == '>'
            }),
            !found ==> j == n,
            forall|m: int| 0 <= m < j - i - 4 ==> u[m] != '>' && !occurs_at(u, m, tok_a3_close()),
        decreases n - j,
    {
        if chars[j] == '>' {
            found = true;
            break;
        }
        if chars[j] == '-' && matches_at(chars.as_slice(), j, "-A3>") {
            closed = true;
            found = true;
            break;
        }
        proof {
            assert(u[j - i - 4] == s[j as int]);
            if occurs_at(u, j - i - 4, tok_a3_close()) {
                assert(s.subrange(j as int, j + 4) =~= u.subrange(j - i - 4, j - i - 4 + 4));
            }
        }
        j += 1;
    }
    let ghost d = j - i - 4;
    proof {
        lemma_a3_scan_shift(u, d);
        assert(u.skip(d) =~= s.skip(j as int));
    }
    if !found {
        assert(s.skip(j as int) =~= Seq::<char>::empty());
        return None;
    }
    let ghost tail = s.skip(j as int);
    proof {
        if closed {
            assert(tail.subrange(0, 4) =~= s.subrange(j as int, j + 4));
            assert(a3_scan(tail) == Some((0nat, true)));
        } else {
            assert(tail[0] == '>');
        }
        lemma_a3_scan_bound(u);
    }
    let ghost before = out@;
    push_char(out, '£');
    let mut m = i + 4;
    while m < j
        invariant
            chars@ == s,
            n == s.len(),
            i + 4 <= m <= j < n,
            out@ == before + seq!['£'] + s.subrange(i + 4, m as int),
        decreases j - m,
    {
        push_char(out, chars[m]);
        m += 1;
        assert(s.subrange(i + 4, m as int) =~= s.subrange(i + 4, m - 1) + seq![s[m - 1]]);
    }
    let ghost cur = s.skip(i as int);
    assert(cur.subrange(4, 4 + d) =~= s.subrange(i + 4, j as int));
    assert(cur.skip(4) =~= u);
    assert(cur.subrange(0, 4) =~= s.subrange(i as int, i + 4));
    assert(occurs_at(cur, 0, tok_a3()));
    assert(a3_scan(cur.skip(4)) == Some((d as nat, closed)));
    if closed {
        push_char(out, '£');
        assert(s.skip(i as int).skip(4 + d + 4) =~= s.skip(j + 4));
        Some(j + 4)
    } else {
        push_char(out, ' ');
        assert(s.skip(i as int).skip(4 + d + 1) =~= s.skip(j + 1));
        Some(j + 1)
    }
}

/// Decodes a `<VAR-...>` token at `chars[i]`; `None` when no `>` follows.
fn unsafe_var(chars: &Vec<char>, i: usize, out: &mut String) -> (r: Option<usize>)
    requires
        occurs_at(chars@, i as int, tok_var()),
    ensures
        r is None ==> gt_pos(chars@.skip(i + 5)) >= chars@.len() - i - 5 && final(out)@ == old(
            out,
        )@,
        r matches Some(next) ==> {
            &&& gt_pos(chars@.skip(i + 5)) < chars@.len() - i - 5
            &&& i < next <= chars@.len()
            &&& final(out)@ + raw_form(chars@.skip(next as int)) == old(out)@ + raw_form(
                chars@.skip(i as int),
            )
        },
{
    let ghost s = chars@;
    let ghost u = s.skip(i + 5);
    let n = chars.len();
    let mut j = i + 5;
    while j < n && chars[j] != '>'
        invariant
            chars@ == s,
            n == s.len(),
            i + 5 <= j <= n,
            forall|m: int| i + 5 <= m < j ==> s[m] != '>',
        decreases n - j,
    {
        j += 1;
    }
    proof {
        lemma_gt_pos(u, j - i - 5);
    }
    if j >= n {
        return None;
    }
    let ghost before = out@;
    push_char(out, '$');
    let mut m = i + 5;
    while m < j
        invariant
            chars@ == s,
            n == s.len(),
            i + 5 <= m <= j < n,
            out@ == before + seq!['$'] + s.subrange(i + 5, m as int),
        decreases j - m,
    {
        push_char(out, chars[m]);
        m += 1;
        assert(s.subrange(i + 5, m as int) =~= s.subrange(i + 5, m - 1) + seq![s[m - 1]]);
    }
    push_char(out, '$');
    let ghost k = j - i - 5;
    let ghost cur = s.skip(i as int);
    assert(cur.subrange(5, 5 + k) =~= s.subrange(i + 5, j as int));
    assert(cur.skip(5) =~= u);
    assert(cur.subrange(0, 5) =~= s.subrange(i as int, i + 5));
    assert(cur.subrange(0, 5)[1] == 'V');
    assert(!occurs_at(cur, 0, tok_a3()) && !occurs_at(cur, 0, tok_a4()) && !occurs_at(cur, 0, tok_a7())
        && !occurs_at(cur, 0, tok_a7_lone())) by {
        assert(cur.subrange(0, 4)[1] == 'V');
    }
    assert(occurs_at(cur, 0, tok_var()));
    assert(s.skip(i as int).skip(5 + k + 1) =~= s.skip(j + 1));
    Some(j + 1)
}

/// Turns `<...>` tokens back into raw Paradox control sequences; the
/// reverse of [`to_safe_string`]. Text that forms no complete token is kept.
#[verifier::spinoff_prover]
#[verifier::rlimit(40)]
pub fn to_unsafe_string(input: &str) -> (out: String)
    ensures
        out@ == raw_form(input@),
{
    let chars = chars_of(input);
    let n = chars.len();
    let ghost s = input@;
    let mut out = String::new();
    let mut i: usize = 0;
    assert(s.skip(0) =~= s);
    proof {
        reveal_strlit("<A3-");
        reveal_strlit("<A4>");
        reveal_strlit("<A7-");
        reveal_strlit("<A7>");
        reveal_strlit("<VAR-");
    }
    assert("<A3-"@ =~= tok_a3());
    assert("<A4>"@ =~= tok_a4());
    assert("<A7-"@ =~= tok_a7());
    assert("<A7>"@ =~= tok_a7_lone());
    assert("<VAR-"@ =~= tok_var());
    while i < n
        invariant
            chars@ == s,
            n == s.len(),
            i <= n,
            raw_form(s) == out@ + raw_form(s.skip(i as int)),
            "<A3-"@ == tok_a3(),
            "<A4>"@ == tok_a4(),
            "<A7-"@ == tok_a7(),
            "<A7>"@ == tok_a7_lone(),
            "<VAR-"@ == tok_var(),
        decreases n - i,
    {
        let ghost cur = s.skip(i as int);
        let ghost before = out@;
        proof {
            lemma_occurs_skip(s, i as int, tok_a3());
            lemma_occurs_skip(s, i as int, tok_a4());
            lemma_occurs_skip(s, i as int, tok_a7());
            lemma_occurs_skip(s, i as int, tok_a7_lone());
            lemma_occurs_skip(s, i as int, tok_var());
            assert(cur.drop_first() =~= s.skip(i + 1));
        }
        proof {
            lemma_token_heads(cur);
            if n - i > 5 {
                assert(cur[5] == s[i + 5]);
            }
        }
        let mut done = false;
        if matches_at(chars.as_slice(), i, "<A3-") {
            match unsafe_icon(&chars, i, &mut out) {
                Some(next) => {
                    i = next;
                    done = true;
                },
                None => {
                    assert(cur.skip(4) =~= s.skip(i + 4));
                },
            }
        } else if matches_at(chars.as_slice(), i, "<A4>") {
            push_char(&mut out, '¤');
            assert(cur.skip(4) =~= s.skip(i + 4));
            assert(raw_form(cur) == seq!['¤'] + raw_form(cur.skip(4)));
            i += 4;
            done = true;
        } else if matches_at(chars.as_slice(), i, "<A7-") && n - i > 5 && chars[i + 5] == '>' {
            push_char(&mut out, '§');
            push_char(&mut out, chars[i + 4]);
            assert(cur.skip(6) =~= s.skip(i + 6));
            assert(out@ =~= before + seq!['§', cur[4]]);
            assert(raw_form(cur) == seq!['§', cur[4]] + raw_form(cur.skip(6)));
            i += 6;
            done = true;
        } else if matches_at(chars.as_slice(), i, "<A7>") {
            push_char(&mut out, '§');
            assert(cur.skip(4) =~= s.skip(i + 4));
            assert(raw_form(cur) == seq!['§'] + raw_form(cur.skip(4)));
            i += 4;
            done = true;
        } else if matches_at(chars.as_slice(), i, "<VAR-") {
            match unsafe_var(&chars, i, &mut out) {
                Some(next) => {
                    i = next;
                    done = true;
                },
                None => {
                    assert(cur.skip(5) =~= s.skip(i + 5));
                },
            }
        }
        if !done {
            push_char(&mut out, chars[i]);
            assert(raw_form(cur) == seq![cur[0]] + raw_form(cur.drop_first()));
            i += 1;
        }
    }
    assert(s.skip(n as int) =~= Seq::<char>::empty());
    out
}

/// `key` ends with the characters `-A3`.
pub open spec fn ends_with_a3(key: Seq<char>) -> bool {
    key.len() >= 3 && key.subrange(key.len() - 3, key.len() as int) == seq!['-', 'A', '3']
}

/// The inputs that [`to_unsafe_string`] gives back unchanged after
/// [`to_safe_string`], read token by token as [`safe_form`] reads them:
/// every icon key is closed by `£` or a space, holds no `>`, and, when a
/// space closes it, does not end in `-A3`; no variable holds a `>`; and no
/// `<` of the plain text is followed by `A` or `V`.
pub open spec fn keeps_raw(s: Seq<char>) -> bool
    decreases s.len(),
{
    if s.len() == 0 {
        true
    } else if s[0] == '£' {
        let rest = s.drop_first();
        let k = key_len(rest) as int;
        let key = rest.take(k);
        &&& k < rest.len()
        &&& !key.contains('>')
        &&& (rest[k] == '£' || !ends_with_a3(key))
        &&& keeps_raw(rest.skip(k + 1))
    } else if s[0] == '¤' {
        keeps_raw(s.drop_first())
    } else if s[0] == '§' {
        s.len() >= 2 ==> keeps_raw(s.skip(2))
    } else if s[0] == '$' {
        let rest = s.drop_first();
        let j = dollar_pos(rest) as int;
        if j < rest.len() && j > 0 {
            !rest.take(j).contains('>') && keeps_raw(rest.skip(j + 1))
        } else {
            keeps_raw(rest)
        }
    } else if s[0] == '<' {
        (s.len() >= 2 ==> s[1] != 'A' && s[1] != 'V') && keeps_raw(s.drop_first())
    } else {
        keeps_raw(s.drop_first())
    }
}

proof fn lemma_occurs_head(t: Seq<char>, pat: Seq<char>, m: int)
    requires
        occurs_at(t, 0, pat),
        0 <= m < pat.len(),
    ensures
        t[m] == pat[m],
{
    assert(t.subrange(0, pat.len() as int)[m] == t[m]);
}

proof fn lemma_occurs_prefix(pat: Seq<char>, x: Seq<char>)
    ensures
        occurs_at(pat + x, 0, pat),
{
    assert((pat + x).subrange(0, pat.len() as int) =~= pat);
}

/// The safe form opens with the text's own first character or with the `<`
/// of a token; it is empty only for empty text.
pub proof fn lemma_safe_form_head(r: Seq<char>)
    ensures
        r.len() == 0 ==> safe_form(r).len() == 0,
        r.len() > 0 ==> safe_form(r).len() > 0 && (safe_form(r)[0] == r[0] || safe_form(r)[0]
            == '<'),
{
    if r.len() > 0 {
        if r[0] == '£' {
            let rest = r.drop_first();
            let k = key_len(rest) as int;
            if k < rest.len() && rest[k] == '£' {
                assert((tok_a3() + rest.take(k) + tok_a3_close() + safe_form(rest.skip(k + 1)))[0]
                    == '<');
            } else if k < rest.len() {
                assert((tok_a3() + rest.take(k) + seq!['>'] + safe_form(rest.skip(k + 1)))[0]
                    == '<');
            } else {
                assert((tok_a3() + rest.take(k) + seq!['>'])[0] == '<');
            }
        } else if r[0] == '¤' {
            assert((tok_a4() + safe_form(r.drop_first()))[0] == '<');
        } else if r[0] == '§' {
            if r.len() >= 2 {
                assert((tok_a7() + seq![r[1], '>'] + safe_form(r.skip(2)))[0] == '<');
            }
        } else if r[0] == '$' {
            let rest = r.drop_first();
            let j = dollar_pos(rest) as int;
            if j < rest.len() && j > 0 {
                assert((tok_var() + rest.take(j) + seq!['>'] + safe_form(rest.skip(j + 1)))[0]
                    == '<');
            } else {
                assert((seq!['$'] + safe_form(rest))[0] == '$');
            }
        } else {
            assert((seq![r[0]] + safe_form(r.drop_first()))[0] == r[0]);
        }
    }
}

proof fn lemma_raw_plain(c: char, x: Seq<char>)
    requires
        c != '<' || x.len() == 0 || (x[0] != 'A' && x[0] != 'V'),
    ensures
        raw_form(seq![c] + x) == seq![c] + raw_form(x),
{
    let t = seq![c] + x;
    assert(t[0] == c);
    assert(t.drop_first() =~= x);
    if occurs_at(t, 0, tok_a3()) {
        lemma_occurs_head(t, tok_a3(), 0);
        lemma_occurs_head(t, tok_a3(), 1);
    }
    if occurs_at(t, 0, tok_a4()) {
        lemma_occurs_head(t, tok_a4(), 0);
        lemma_occurs_head(t, tok_a4(), 1);
    }
    if occurs_at(t, 0, tok_a7()) {
        lemma_occurs_head(t, tok_a7(), 0);
        lemma_occurs_head(t, tok_a7(), 1);
    }
    if occurs_at(t, 0, tok_a7_lone()) {
        lemma_occurs_head(t, tok_a7_lone(), 0);
        lemma_occurs_head(t, tok_a7_lone(), 1);
    }
    if occurs_at(t, 0, tok_var()) {
        lemma_occurs_head(t, tok_var(), 0);
        lemma_occurs_head(t, tok_var(), 1);
    }
}

proof fn lemma_raw_a4(x: Seq<char>)
    ensures
        raw_form(tok_a4() + x) == seq!['¤'] + raw_form(x),
{
    let t = tok_a4() + x;
    lemma_occurs_prefix(tok_a4(), x);
    lemma_token_heads(t);
    assert(t.skip(4) =~= x);
}

proof fn lemma_raw_a7(c: char, x: Seq<char>)
    ensures
        raw_form(tok_a7() + seq![c, '>'] + x) == seq!['§', c] + raw_form(x),
{
    let t = tok_a7() + seq![c, '>'] + x;
    assert(t =~= tok_a7() + (seq![c, '>'] + x));
    lemma_occurs_prefix(tok_a7(), seq![c, '>'] + x);
    lemma_token_heads(t);
    assert(t[5] == '>');
    assert(t[4] == c);
    assert(t.skip(6) =~= x);
}

proof fn lemma_raw_a7_lone()
    ensures
        raw_form(tok_a7_lone()) == seq!['§'],
{
    let t = tok_a7_lone();
    lemma_occurs_prefix(tok_a7_lone(), Seq::empty());
    assert(t + Seq::<char>::empty() =~= t);
    lemma_token_heads(t);
    if occurs_at(t, 0, tok_a7()) {
        lemma_occurs_head(t, tok_a7(), 3);
    }
    assert(t.skip(4) =~= Seq::<char>::empty());
    assert(raw_form(Seq::<char>::empty()) == Seq::<char>::empty());
    assert(seq!['§'] + Seq::<char>::empty() =~= seq!['§']);
}

proof fn lemma_raw_var(content: Seq<char>, x: Seq<char>)
    requires
        !content.contains('>'),
    ensures
        raw_form(tok_var() + content + seq!['>'] + x) == seq!['$'] + content + seq!['$'] + raw_form(
            x,
        ),
{
    let t = tok_var() + content + seq!['>'] + x;
    assert(t =~= tok_var() + (content + seq!['>'] + x));
    lemma_occurs_prefix(tok_var(), content + seq!['>'] + x);
    lemma_token_heads(t);
    let k = content.len() as int;
    assert forall|m: int| 0 <= m < k implies t.skip(5)[m] != '>' by {
        assert(t.skip(5)[m] == content[m]);
    }
    assert(t.skip(5)[k] == '>');
    lemma_gt_pos(t.skip(5), k);
    assert(t.subrange(5, 5 + k) =~= content);
    assert(t.skip(5 + k + 1) =~= x);
}

proof fn lemma_a3_key_char(key: Seq<char>, closed: bool, x: Seq<char>, m: int)
    requires
        !key.contains('>'),
        closed || !ends_with_a3(key),
        0 <= m < key.len(),
    ensures
        ({
            let u = key + (if closed { tok_a3_close() } else { seq!['>'] }) + x;
            u[m] != '>' && !occurs_at(u, m, tok_a3_close())
        }),
{
    let close = if closed {
        tok_a3_close()
    } else {
        seq!['>']
    };
    let u = key + close + x;
    let k = key.len() as int;
    assert(u[m] == key[m]);
    if occurs_at(u, m, tok_a3_close()) {
        assert(u.subrange(m, m + 4)[3] == u[m + 3]);
        if m + 3 < k {
            assert(u[m + 3] == key[m + 3]);
        } else if m + 3 == k {
            assert(u[m + 3] == close[0]);
            assert(!closed);
            assert(u.subrange(m, m + 4)[0] == u[m]);
            assert(u.subrange(m, m + 4)[1] == u[m + 1]);
            assert(u.subrange(m, m + 4)[2] == u[m + 2]);
            assert(key.subrange(k - 3, k) =~= seq!['-', 'A', '3']);
        } else {
            assert(u.subrange(m, m + 4)[k - m] == u[k]);
            assert(u[k] == close[0]);
        }
    }
}

proof fn lemma_raw_a3(key: Seq<char>, closed: bool, x: Seq<char>)
    requires
        !key.contains('>'),
        closed || !ends_with_a3(key),
    ensures
        raw_form(tok_a3() + key + (if closed { tok_a3_close() } else { seq!['>'] }) + x) == seq![
            '£',
        ] + key + seq![if closed {
            '£'
        } else {
            ' '
        }] + raw_form(x),
{
    let close = if closed {
        tok_a3_close()
    } else {
        seq!['>']
    };
    let t = tok_a3() + key + close + x;
    let u = t.skip(4);
    let k = key.len() as int;
    assert(t =~= tok_a3() + (key + close + x));
    assert(u =~= key + close + x);
    lemma_occurs_prefix(tok_a3(), key + close + x);
    assert forall|m: int| 0 <= m < k implies u[m] != '>' && !occurs_at(u, m, tok_a3_close()) by {
        lemma_a3_key_char(key, closed, x, m);
    }
    lemma_a3_scan_shift(u, k);
    let v = u.skip(k);
    assert(v =~= close + x);
    if closed {
        lemma_occurs_prefix(tok_a3_close(), x);
        assert(v[0] == '-');
        assert(a3_scan(v) == Some((0nat, true)));
        assert(t.subrange(4, 4 + k) =~= key);
        assert(t.skip(4 + k + 4) =~= x);
    } else {
        assert(v[0] == '>');
        assert(a3_scan(v) == Some((0nat, false)));
        assert(t.subrange(4, 4 + k) =~= key);
        assert(t.skip(4 + k + 1) =~= x);
    }
}

/// Law: turning raw text into safe tokens and back gives the raw text again,
/// for every text of which [`keeps_raw`] holds.
pub proof fn lemma_raw_form_of_safe_form(s: Seq<char>)
    requires
        keeps_raw(s),
    ensures
        raw_form(safe_form(s)) == s,
    decreases s.len(),
{
    if s.len() == 0 {
        return;
    }
    if s[0] == '£' {
        let rest = s.drop_first();
        let k = key_len(rest) as int;
        let key = rest.take(k);
        let tail = rest.skip(k + 1);
        lemma_raw_form_of_safe_form(tail);
        if rest[k] == '£' {
            lemma_raw_a3(key, true, safe_form(tail));
        } else {
            lemma_raw_a3(key, false, safe_form(tail));
            lemma_key_len_stop(rest);
        }
        assert(s =~= seq![s[0]] + key + seq![rest[k]] + tail);
    } else if s[0] == '¤' {
        lemma_raw_form_of_safe_form(s.drop_first());
        lemma_raw_a4(safe_form(s.drop_first()));
        assert(s =~= seq![s[0]] + s.drop_first());
    } else if s[0] == '§' {
        if s.len() >= 2 {
            lemma_raw_form_of_safe_form(s.skip(2));
            lemma_raw_a7(s[1], safe_form(s.skip(2)));
            assert(tok_a7() + seq![s[1], '>'] + safe_form(s.skip(2)) =~= safe_form(s));
            assert(s =~= seq![s[0], s[1]] + s.skip(2));
        } else {
            lemma_raw_a7_lone();
            assert(s =~= seq![s[0]]);
        }
    } else if s[0] == '$' {
        let rest = s.drop_first();
        let j = dollar_pos(rest) as int;
        if j < rest.len() && j > 0 {
            lemma_raw_form_of_safe_form(rest.skip(j + 1));
            lemma_raw_var(rest.take(j), safe_form(rest.skip(j + 1)));
            lemma_dollar_pos_stop(rest);
            assert(s =~= seq!['$'] + rest.take(j) + seq!['$'] + rest.skip(j + 1));
        } else {
            lemma_raw_form_of_safe_form(rest);
            lemma_raw_plain('$', safe_form(rest));
            assert(s =~= seq![s[0]] + rest);
        }
    } else {
        let rest = s.drop_first();
        lemma_raw_form_of_safe_form(rest);
        lemma_safe_form_head(rest);
        lemma_raw_plain(s[0], safe_form(rest));
        assert(s =~= seq![s[0]] + rest);
    }
}

proof fn lemma_key_len_stop(s: Seq<char>)
    ensures
        key_len(s) <= s.len(),
        key_len(s) < s.len() ==> s[key_len(s) as int] == ' ' || s[key_len(s) as int] == '£',
    decreases s.len(),
{
    if s.len() > 0 && s[0] != ' ' && s[0] != '£' {
        lemma_key_len_stop(s.drop_first());
    }
}

proof fn lemma_dollar_pos_stop(s: Seq<char>)
    ensures
        dollar_pos(s) <= s.len(),
        dollar_pos(s) < s.len() ==> s[dollar_pos(s) as int] == '$',
    decreases s.len(),
{
    if s.len() > 0 && s[0] != '$' {
        lemma_dollar_pos_stop(s.drop_first());
    }
}

/// The safe-token texts that [`to_safe_string`] gives back unchanged after
/// [`to_unsafe_string`], read token by token as [`raw_form`] reads them: the
/// text holds no raw `£`, `¤`, `§` or `$`; an icon key holds no space and no
/// `£`; a variable is not empty and holds no `$`; and a lone `<A7>` only
/// ends the text.
pub open spec fn keeps_safe(t: Seq<char>) -> bool
    decreases t.len(),
{
    if t.len() == 0 {
        true
    } else if occurs_at(t, 0, tok_a3()) && a3_scan(t.skip(4)) is Some {
        proof {
            lemma_a3_scan_bound(t.skip(4));
        }
        let (kn, closed) = a3_scan(t.skip(4))->0;
        let k = kn as int;
        let key = t.subrange(4, 4 + k);
        &&& 4 + k <= t.len()
        &&& !key.contains(' ')
        &&& !key.contains('£')
        &&& keeps_safe(t.skip(if closed { 4 + k + 4 } else { 4 + k + 1 }))
    } else if occurs_at(t, 0, tok_a4()) {
        keeps_safe(t.skip(4))
    } else if occurs_at(t, 0, tok_a7()) && 5 < t.len() && t[5] == '>' {
        keeps_safe(t.skip(6))
    } else if occurs_at(t, 0, tok_a7_lone()) {
        t.len() == 4
    } else if occurs_at(t, 0, tok_var()) && gt_pos(t.skip(5)) < t.len() - 5 {
        let k = gt_pos(t.skip(5)) as int;
        &&& k > 0
        &&& !t.subrange(5, 5 + k).contains('$')
        &&& keeps_safe(t.skip(5 + k + 1))
    } else {
        &&& t[0] != '£'
        &&& t[0] != '¤'
        &&& t[0] != '§'
        &&& t[0] != '$'
        &&& keeps_safe(t.drop_first())
    }
}

proof fn lemma_safe_plain(c: char, y: Seq<char>)
    requires
        c != '£' && c != '¤' && c != '§' && c != '$',
    ensures
        safe_form(seq![c] + y) == seq![c] + safe_form(y),
{
    let s = seq![c] + y;
    assert(s[0] == c);
    assert(s.drop_first() =~= y);
}

proof fn lemma_safe_icon(key: Seq<char>, term: char, y: Seq<char>)
    requires
        !key.contains(' '),
        !key.contains('£'),
        term == ' ' || term == '£',
    ensures
        safe_form(seq!['£'] + key + seq![term] + y) == tok_a3() + key + (if term == '£' {
            tok_a3_close()
        } else {
            seq!['>']
        }) + safe_form(y),
{
    let s = seq!['£'] + key + seq![term] + y;
    let rest = s.drop_first();
    let k = key.len() as int;
    assert(rest =~= key + seq![term] + y);
    assert forall|m: int| 0 <= m < k implies rest[m] != ' ' && rest[m] != '£' by {
        assert(rest[m] == key[m]);
        if rest[m] == ' ' {
            assert(key.contains(' '));
        }
        if rest[m] == '£' {
            assert(key.contains('£'));
        }
    }
    assert(rest[k] == term);
    lemma_key_len(rest, k);
    assert(rest.take(k) =~= key);
    assert(rest.skip(k + 1) =~= y);
    assert(s[0] == '£');
}

proof fn lemma_safe_var(content: Seq<char>, y: Seq<char>)
    requires
        content.len() > 0,
        !content.contains('$'),
    ensures
        safe_form(seq!['$'] + content + seq!['$'] + y) == tok_var() + content + seq!['>'] + safe_form(
            y,
        ),
{
    let s = seq!['$'] + content + seq!['$'] + y;
    let rest = s.drop_first();
    let k = content.len() as int;
    assert(rest =~= content + seq!['$'] + y);
    assert forall|m: int| 0 <= m < k implies rest[m] != '$' by {
        assert(rest[m] == content[m]);
        if rest[m] == '$' {
            assert(content.contains('$'));
        }
    }
    assert(rest[k] == '$');
    lemma_dollar_pos(rest, k);
    assert(rest.take(k) =~= content);
    assert(rest.skip(k + 1) =~= y);
    assert(s[0] == '$');
}

proof fn lemma_safe_a7(c: char, y: Seq<char>)
    ensures
        safe_form(seq!['§', c] + y) == tok_a7() + seq![c, '>'] + safe_form(y),
{
    let s = seq!['§', c] + y;
    assert(s[0] == '§');
    assert(s[1] == c);
    assert(s.skip(2) =~= y);
}

proof fn lemma_safe_a4(y: Seq<char>)
    ensures
        safe_form(seq!['¤'] + y) == tok_a4() + safe_form(y),
{
    let s = seq!['¤'] + y;
    assert(s[0] == '¤');
    assert(s.drop_first() =~= y);
}

/// Law: turning safe-token text into raw text and back gives the safe-token
/// text again, for every text of which [`keeps_safe`] holds.
pub proof fn lemma_safe_form_of_raw_form(t: Seq<char>)
    requires
        keeps_safe(t),
    ensures
        safe_form(raw_form(t)) == t,
    decreases t.len(),
{
    if t.len() == 0 {
        assert(raw_form(t) =~= Seq::<char>::empty());
        return;
    }
    lemma_token_heads(t);
    if occurs_at(t, 0, tok_a3()) && a3_scan(t.skip(4)) is Some {
        lemma_a3_scan_bound(t.skip(4));
        let (kn, closed) = a3_scan(t.skip(4))->0;
        let k = kn as int;
        let key = t.subrange(4, 4 + k);
        let next = if closed {
            4 + k + 4
        } else {
            4 + k + 1
        };
        let y = t.skip(next);
        lemma_safe_form_of_raw_form(y);
        let term = if closed {
            '£'
        } else {
            ' '
        };
        lemma_safe_icon(key, term, raw_form(y));
        lemma_a3_scan_found(t.skip(4));
        assert(t.subrange(0, 4) =~= tok_a3());
        if closed {
            assert(t.skip(4).subrange(k, k + 4) =~= t.subrange(4 + k, 4 + k + 4));
            assert(t =~= tok_a3() + key + tok_a3_close() + y);
        } else {
            assert(t.skip(4)[k] == t[4 + k]);
            assert(t =~= tok_a3() + key + seq!['>'] + y);
        }
    } else if occurs_at(t, 0, tok_a4()) {
        lemma_safe_form_of_raw_form(t.skip(4));
        lemma_safe_a4(raw_form(t.skip(4)));
        assert(t.subrange(0, 4) =~= tok_a4());
        assert(t =~= tok_a4() + t.skip(4));
    } else if occurs_at(t, 0, tok_a7()) && 5 < t.len() && t[5] == '>' {
        lemma_safe_form_of_raw_form(t.skip(6));
        lemma_safe_a7(t[4], raw_form(t.skip(6)));
        assert(t.subrange(0, 4) =~= tok_a7());
        assert(t =~= tok_a7() + seq![t[4], '>'] + t.skip(6));
    } else if occurs_at(t, 0, tok_a7_lone()) {
        assert(t.skip(4) =~= Seq::<char>::empty());
        assert(raw_form(t.skip(4)) =~= Seq::<char>::empty());
        assert(raw_form(t) =~= seq!['§']);
        assert(t =~= tok_a7_lone());
    } else if occurs_at(t, 0, tok_var()) && gt_pos(t.skip(5)) < t.len() - 5 {
        let k = gt_pos(t.skip(5)) as int;
        let content = t.subrange(5, 5 + k);
        let y = t.skip(5 + k + 1);
        lemma_safe_form_of_raw_form(y);
        lemma_safe_var(content, raw_form(y));
        lemma_gt_pos_found(t.skip(5));
        assert(t.skip(5)[k] == t[5 + k]);
        assert(t.subrange(0, 5) =~= tok_var());
        assert(t =~= tok_var() + content + seq!['>'] + y);
    } else {
        lemma_safe_form_of_raw_form(t.drop_first());
        lemma_safe_plain(t[0], raw_form(t.drop_first()));
        assert(t =~= seq![t[0]] + t.drop_first());
    }
}

proof fn lemma_a3_scan_found(u: Seq<char>)
    ensures
        a3_scan(u) matches Some((k, closed)) ==> (if closed {
            occurs_at(u, k as int, tok_a3_close())
        } else {
            k < u.len() && u[k as int] == '>'
        }),
    decreases u.len(),
{
    if u.len() > 0 && u[0] != '>' && !occurs_at(u, 0, tok_a3_close()) {
        lemma_a3_scan_found(u.drop_first());
        match a3_scan(u.drop_first()) {
            Some((k, closed)) => {
                if closed {
                    let ki = k as int;
                    assert(u.drop_first().subrange(ki, ki + 4) =~= u.subrange(ki + 1, ki + 1 + 4));
                }
            },
            None => {},
        }
    }
}

proof fn lemma_gt_pos_found(u: Seq<char>)
    ensures
        gt_pos(u) <= u.len(),
        gt_pos(u) < u.len() ==> u[gt_pos(u) as int] == '>',
    decreases u.len(),
{
    if u.len() > 0 && u[0] != '>' {
        lemma_gt_pos_found(u.drop_first());
    }
}

/// Law: text without `£`, `¤`, `§` and `$` has itself as its safe form.
pub proof fn lemma_plain_text_is_safe(s: Seq<char>)
    requires
        forall|i: int| 0 <= i < s.len() ==> s[i] != '£' && s[i] != '¤' && s[i] != '§' && s[i]
            != '$',
    ensures
        safe_form(s) == s,
    decreases s.len(),
{
    if s.len() > 0 {
        lemma_plain_text_is_safe(s.drop_first());
        lemma_safe_plain(s[0], s.drop_first());
        assert(s =~= seq![s[0]] + s.drop_first());
    }
}

/// Law: text without `<` has itself as its raw form.
pub proof fn lemma_text_without_tokens_is_raw(t: Seq<char>)
    requires
        forall|i: int| 0 <= i < t.len() ==> t[i] != '<',
    ensures
        raw_form(t) == t,
    decreases t.len(),
{
    if t.len() > 0 {
        lemma_text_without_tokens_is_raw(t.drop_first());
        lemma_raw_plain(t[0], t.drop_first());
        assert(t =~= seq![t[0]] + t.drop_first());
    }
}

proof fn lemma_no_separator_chars(t: Seq<char>)
    requires
        forall|i: int| 0 <= i < t.len() ==> !is_separator_char(t[i]),
    ensures
        separator_chars(t) == Seq::<char>::empty(),
    decreases t.len(),
{
    if t.len() > 0 {
        lemma_no_separator_chars(t.drop_first());
    }
}

/// Law: the safe form keeps the CSV structure characters (`;`, `#`, CR,
/// LF) of the text, in order: tokens hold none of their own.
pub proof fn lemma_safe_form_separators(s: Seq<char>)
    ensures
        separator_chars(safe_form(s)) == separator_chars(s),
    decreases s.len(),
{
    if s.len() == 0 {
        return;
    }
    lemma_no_separator_chars(tok_a3());
    lemma_no_separator_chars(tok_a3_close());
    lemma_no_separator_chars(tok_a4());
    lemma_no_separator_chars(tok_a7());
    lemma_no_separator_chars(tok_a7_lone());
    lemma_no_separator_chars(tok_var());
    lemma_no_separator_chars(seq!['>']);
    lemma_no_separator_chars(seq![' ']);
    lemma_no_separator_chars(seq!['£']);
    lemma_no_separator_chars(seq!['$']);
    lemma_no_separator_chars(seq!['¤']);
    lemma_no_separator_chars(seq!['§']);
    if s[0] == '£' {
        let rest = s.drop_first();
        let k = key_len(rest) as int;
        lemma_key_len_stop(rest);
        let key = rest.take(k);
        if k < rest.len() {
            let tail = rest.skip(k + 1);
            lemma_safe_form_separators(tail);
            let close = if rest[k] == '£' {
                tok_a3_close()
            } else {
                seq!['>']
            };
            lemma_separator_chars_concat(tok_a3() + key + close, safe_form(tail));
            lemma_separator_chars_concat(tok_a3() + key, close);
            lemma_separator_chars_concat(tok_a3(), key);
            assert(s =~= seq!['£'] + key + seq![rest[k]] + tail);
            lemma_separator_chars_concat(seq!['£'] + key + seq![rest[k]], tail);
            lemma_separator_chars_concat(seq!['£'] + key, seq![rest[k]]);
            lemma_separator_chars_concat(seq!['£'], key);
            lemma_no_separator_chars(seq![rest[k]]);
        } else {
            lemma_separator_chars_concat(tok_a3() + key, seq!['>']);
            lemma_separator_chars_concat(tok_a3(), key);
            assert(rest.take(k) =~= rest);
            assert(s =~= seq!['£'] + key);
            lemma_separator_chars_concat(seq!['£'], key);
        }
    } else if s[0] == '¤' {
        lemma_safe_form_separators(s.drop_first());
        lemma_separator_chars_concat(tok_a4(), safe_form(s.drop_first()));
        assert(s =~= seq!['¤'] + s.drop_first());
        lemma_separator_chars_concat(seq!['¤'], s.drop_first());
    } else if s[0] == '§' {
        if s.len() >= 2 {
            lemma_safe_form_separators(s.skip(2));
            lemma_separator_chars_concat(tok_a7() + seq![s[1], '>'], safe_form(s.skip(2)));
            lemma_separator_chars_concat(tok_a7(), seq![s[1], '>']);
            assert(seq![s[1], '>'] =~= seq![s[1]] + seq!['>']);
            lemma_separator_chars_concat(seq![s[1]], seq!['>']);
            assert(s =~= seq!['§'] + seq![s[1]] + s.skip(2));
            lemma_separator_chars_concat(seq!['§'] + seq![s[1]], s.skip(2));
            lemma_separator_chars_concat(seq!['§'], seq![s[1]]);
        } else {
            assert(s =~= seq!['§']);
        }
    } else if s[0] == '$' {
        let rest = s.drop_first();
        let j = dollar_pos(rest) as int;
        lemma_dollar_pos_stop(rest);
        if j < rest.len() && j > 0 {
            let tail = rest.skip(j + 1);
            let content = rest.take(j);
            lemma_safe_form_separators(tail);
            lemma_separator_chars_concat(tok_var() + content + seq!['>'], safe_form(tail));
            lemma_separator_chars_concat(tok_var() + content, seq!['>']);
            lemma_separator_chars_concat(tok_var(), content);
            assert(s =~= seq!['$'] + content + seq!['$'] + tail);
            lemma_separator_chars_concat(seq!['$'] + content + seq!['$'], tail);
            lemma_separator_chars_concat(seq!['$'] + content, seq!['$']);
            lemma_separator_chars_concat(seq!['$'], content);
        } else {
            lemma_safe_form_separators(rest);
            lemma_separator_chars_concat(seq!['$'], safe_form(rest));
            assert(s =~= seq!['$'] + rest);
            lemma_separator_chars_concat(seq!['$'], rest);
        }
    } else {
        let rest = s.drop_first();
        lemma_safe_form_separators(rest);
        lemma_separator_chars_concat(seq![s[0]], safe_form(rest));
        assert(s =~= seq![s[0]] + rest);
        lemma_separator_chars_concat(seq![s[0]], rest);
    }
}

/// The raw form opens with the text's own first character or with the
/// control character of a token; it is empty only for empty text.
pub proof fn lemma_raw_form_head(t: Seq<char>)
    ensures
        t.len() == 0 ==> raw_form(t).len() == 0,
        t.len() > 0 ==> raw_form(t).len() > 0 && (raw_form(t)[0] == t[0] || raw_form(t)[0] == '£'
            || raw_form(t)[0] == '¤' || raw_form(t)[0] == '§' || raw_form(t)[0] == '$'),
{
    if t.len() > 0 {
        if occurs_at(t, 0, tok_a3()) && a3_scan(t.skip(4)) is Some {
            lemma_a3_scan_bound(t.skip(4));
        }
    }
}

} // verus!
