//! Markdown rendering for PDF paragraphs and lines, with inline bold/italic
//! markup, dehyphenation across line breaks and CJK-aware word joining.

use vstd::prelude::*;
use std::borrow::Cow;
use vstd::string::*;
use crate::types::ExtractedImage;
use crate::text::{
    decimal, push_decimal, trim, trim_bounds,
    push_str_chars,
    char_alphabetic, char_lowercase, chars_of, push_char, split_words, words, trim_start, trim_start_index, contains_chars, occurs_in, is_alphabetic, is_lowercase, push_all,
    string_from_chars,
};

verus! {

/// Whether `c` belongs to a CJK script block (ideographs, kana, hangul,
/// bopomofo, CJK punctuation and full-width forms): text in these scripts is
/// written without spaces between words.
pub open spec fn is_cjk(c: char) -> bool {
    let u = c as u32;
    ||| (0x1100 <= u && u <= 0x11FF)
    ||| (0x2E80 <= u && u <= 0x2FDF)
    ||| (0x3000 <= u && u <= 0x303F)
    ||| (0x3040 <= u && u <= 0x30FF)
    ||| (0x3100 <= u && u <= 0x312F)
    ||| (0x3130 <= u && u <= 0x318F)
    ||| (0x31F0 <= u && u <= 0x31FF)
    ||| (0x3400 <= u && u <= 0x4DBF)
    ||| (0x4E00 <= u && u <= 0x9FFF)
    ||| (0xAC00 <= u && u <= 0xD7AF)
    ||| (0xF900 <= u && u <= 0xFAFF)
    ||| (0xFF00 <= u && u <= 0xFFEF)
    ||| (0x20000 <= u && u <= 0x2FA1F)
}

/// Executable CJK test.
pub fn is_cjk_char(c: char) -> (r: bool)
    ensures
        r == is_cjk(c),
{
    let u = c as u32;
    (0x1100 <= u && u <= 0x11FF) || (0x2E80 <= u && u <= 0x2FDF) || (0x3000 <= u && u <= 0x303F)
        || (0x3040 <= u && u <= 0x30FF) || (0x3100 <= u && u <= 0x312F) || (0x3130 <= u && u
        <= 0x318F) || (0x31F0 <= u && u <= 0x31FF) || (0x3400 <= u && u <= 0x4DBF) || (0x4E00
        <= u && u <= 0x9FFF) || (0xAC00 <= u && u <= 0xD7AF) || (0xF900 <= u && u <= 0xFAFF)
        || (0xFF00 <= u && u <= 0xFFEF) || (0x20000 <= u && u <= 0x2FA1F)
}

/// A space goes between two adjacent chunks unless the first ends and the
/// second starts with a CJK character.
pub open spec fn space_between(prev: Seq<char>, next: Seq<char>) -> bool {
    !(prev.len() > 0 && next.len() > 0 && is_cjk(prev.last()) && is_cjk(next[0]))
}

/// Whether a space is needed between `prev` and `next`.
pub fn needs_space_between(prev: &[char], next: &[char]) -> (r: bool)
    ensures
        r == space_between(prev@, next@),
{
    if prev.len() > 0 && next.len() > 0 {
        !(is_cjk_char(prev[prev.len() - 1]) && is_cjk_char(next[0]))
    } else {
        true
    }
}

/// A trailing hyphen is dropped, and the chunks glued, when `prev` ends with
/// `-` after an alphabetic character and `next` starts with a lowercase one.
pub open spec fn dehyphenates(prev: Seq<char>, next: Seq<char>) -> bool {
    &&& prev.len() >= 2
    &&& prev.last() == '-'
    &&& char_alphabetic(prev[prev.len() - 2])
    &&& next.len() > 0
    &&& char_lowercase(next[0])
}

/// `dehyphenates` for ASCII text: a letter before the trailing hyphen and
/// a lowercase ASCII letter first in the next word.
pub open spec fn ascii_dehyphenates(prev: Seq<char>, next: Seq<char>) -> bool {
    &&& prev.len() >= 2
    &&& prev.last() == '-'
    &&& crate::text::is_ascii_letter(prev[prev.len() - 2])
    &&& next.len() > 0
    &&& 'a' <= next[0] && next[0] <= 'z'
}

/// Whether the characters `dehyphenates` classifies are ASCII.
pub open spec fn dehyphenation_is_ascii(prev: Seq<char>, next: Seq<char>) -> bool {
    &&& prev.len() >= 2 ==> (prev[prev.len() - 2] as u32) < 128
    &&& next.len() > 0 ==> (next[0] as u32) < 128
}

/// Check if a line-ending hyphen should be removed and words joined.
pub fn should_dehyphenate(prev: &[char], next: &[char]) -> (r: bool)
    ensures
        r == dehyphenates(prev@, next@),
        dehyphenation_is_ascii(prev@, next@) ==> r == ascii_dehyphenates(prev@, next@),
{
    if prev.len() < 2 || prev[prev.len() - 1] != '-' {
        return false;
    }
    if !is_alphabetic(prev[prev.len() - 2]) {
        return false;
    }
    next.len() > 0 && is_lowercase(next[0])
}

/// Words joined left to right: a dehyphenating pair is glued with the hyphen
/// dropped, other pairs get a space unless both sides are CJK.
pub open spec fn join_words(ws: Seq<Seq<char>>) -> Seq<char>
    decreases ws.len(),
{
    if ws.len() == 0 {
        seq![]
    } else if ws.len() == 1 {
        ws[0]
    } else {
        let acc = join_words(ws.drop_last());
        let prev = ws[ws.len() - 2];
        let next = ws.last();
        if dehyphenates(prev, next) {
            acc.drop_last() + next
        } else if space_between(prev, next) {
            acc.push(' ') + next
        } else {
            acc + next
        }
    }
}

/// A nonempty join ends with its last word.
pub proof fn lemma_join_words_suffix(ws: Seq<Seq<char>>)
    requires
        ws.len() > 0,
    ensures
        ws.last().is_suffix_of(join_words(ws)),
    decreases ws.len(),
{
    if ws.len() > 1 {
        lemma_join_words_suffix(ws.drop_last());
        let acc = join_words(ws.drop_last());
        let next = ws.last();
        let r = join_words(ws);
        assert(r.subrange(r.len() - next.len(), r.len() as int) =~= next);
    } else {
        assert(join_words(ws).subrange(0, ws[0].len() as int) =~= ws[0]);
    }
}

/// Lines joined left to right: empty lines are skipped, a line ending in a
/// dehyphenating hyphen is glued to the next, others get a space unless the
/// junction is CJK on both sides.
pub open spec fn join_lines(ls: Seq<Seq<char>>) -> Seq<char>
    decreases ls.len(),
{
    if ls.len() == 0 {
        seq![]
    } else if ls.len() == 1 {
        ls[0]
    } else {
        let acc = join_lines(ls.drop_last());
        let next = ls.last();
        if next.len() == 0 {
            acc
        } else if acc.len() == 0 {
            next
        } else if dehyphenates(acc, next) {
            acc.drop_last() + next
        } else if space_between(acc, next) {
            acc.push(' ') + next
        } else {
            acc + next
        }
    }
}

/// Executable word join on character vectors.
pub fn join_word_chars(ws: &[Vec<char>]) -> (r: Vec<char>)
    ensures
        r@ == join_words(ws@.map_values(|w: Vec<char>| w@)),
{
    let ghost sws = ws@.map_values(|w: Vec<char>| w@);
    let n = ws.len();
    if n == 0 {
        return Vec::new();
    }
    let mut result: Vec<char> = Vec::new();
    push_all(&mut result, ws[0].as_slice());
    assert(sws.take(1).drop_last().len() == 0);
    assert(result@ == join_words(sws.take(1)));
    let mut i: usize = 1;
    while i < n
        invariant
            1 <= i <= n,
            n == ws@.len(),
            sws == ws@.map_values(|w: Vec<char>| w@),
            result@ == join_words(sws.take(i as int)),
        decreases n - i,
    {
        let prev = ws[i - 1].as_slice();
        let next = ws[i].as_slice();
        assert(sws.take(i + 1).drop_last() =~= sws.take(i as int));
        if should_dehyphenate(prev, next) {
            proof {
                lemma_join_words_suffix(sws.take(i as int));
            }
            result.pop();
            push_all(&mut result, next);
        } else {
            if needs_space_between(prev, next) {
                result.push(' ');
            }
            push_all(&mut result, next);
        }
        i = i + 1;
    }
    assert(sws.take(n as int) =~= sws);
    result
}

/// Executable line join on character vectors.
pub fn join_line_chars(ls: &[Vec<char>]) -> (r: Vec<char>)
    ensures
        r@ == join_lines(ls@.map_values(|w: Vec<char>| w@)),
{
    let ghost sls = ls@.map_values(|w: Vec<char>| w@);
    let n = ls.len();
    if n == 0 {
        return Vec::new();
    }
    let mut result: Vec<char> = Vec::new();
    push_all(&mut result, ls[0].as_slice());
    assert(result@ == join_lines(sls.take(1)));
    let mut i: usize = 1;
    while i < n
        invariant
            1 <= i <= n,
            n == ls@.len(),
            sls == ls@.map_values(|w: Vec<char>| w@),
            result@ == join_lines(sls.take(i as int)),
        decreases n - i,
    {
        let next = ls[i].as_slice();
        assert(sls.take(i + 1).drop_last() =~= sls.take(i as int));
        if next.len() == 0 {
        } else if result.len() == 0 {
            push_all(&mut result, next);
        } else if should_dehyphenate(result.as_slice(), next) {
            result.pop();
            push_all(&mut result, next);
        } else if needs_space_between(result.as_slice(), next) {
            result.push(' ');
            push_all(&mut result, next);
        } else {
            push_all(&mut result, next);
        }
        i = i + 1;
    }
    assert(sls.take(n as int) =~= sls);
    result
}

/// Join text chunks with spaces, omitting the space between two CJK chunks,
/// and dehyphenating `"syl-"` + `"lable"` into `"syllable"`.
pub fn join_texts_cjk_aware(texts: &[&str]) -> (r: String)
    ensures
        r@ == join_words(texts@.map_values(|t: &str| t@)),
{
    let mut ws: Vec<Vec<char>> = Vec::new();
    let n = texts.len();
    for i in 0..n
        invariant
            n == texts@.len(),
            ws@.map_values(|w: Vec<char>| w@) == texts@.take(i as int).map_values(|t: &str| t@),
    {
        let w = chars_of(texts[i]);
        let ghost old_ws = ws@;
        let ghost wv = w@;
        ws.push(w);
        assert(ws@.map_values(|w: Vec<char>| w@) =~= old_ws.map_values(|w: Vec<char>| w@).push(wv));
        assert(texts@.take(i + 1).map_values(|t: &str| t@) =~= texts@.take(i as int).map_values(
            |t: &str| t@,
        ).push(texts@[i as int]@));
        assert(ws@.map_values(|w: Vec<char>| w@) =~= texts@.take(i + 1).map_values(|t: &str| t@));
    }
    assert(texts@.take(n as int) =~= texts@);
    let r = join_word_chars(ws.as_slice());
    string_from_chars(r.as_slice())
}

/// Join pre-built line strings, applying dehyphenation at line boundaries.
pub fn join_lines_with_dehyphenation(lines: &[String]) -> (r: String)
    ensures
        r@ == join_lines(lines@.map_values(|t: String| t@)),
{
    let mut ls: Vec<Vec<char>> = Vec::new();
    let n = lines.len();
    for i in 0..n
        invariant
            n == lines@.len(),
            ls@.map_values(|w: Vec<char>| w@) == lines@.take(i as int).map_values(|t: String| t@),
    {
        let w = chars_of(lines[i].as_str());
        let ghost old_ls = ls@;
        let ghost wv = w@;
        ls.push(w);
        assert(ls@.map_values(|w: Vec<char>| w@) =~= old_ls.map_values(|w: Vec<char>| w@).push(wv));
        assert(lines@.take(i + 1).map_values(|t: String| t@) =~= lines@.take(i as int).map_values(
            |t: String| t@,
        ).push(lines@[i as int]@));
        assert(ls@.map_values(|w: Vec<char>| w@) =~= lines@.take(i + 1).map_values(|t: String| t@));
    }
    assert(lines@.take(n as int) =~= lines@);
    let r = join_line_chars(ls.as_slice());
    string_from_chars(r.as_slice())
}


/// What one character becomes in escaped output; `url` says whether the
/// surrounding text is a URL (contains `://`), where `_` stays as it is.
pub open spec fn escape_char(c: char, url: bool) -> Seq<char> {
    if c == '&' {
        seq!['&', 'a', 'm', 'p', ';']
    } else if c == '<' {
        seq!['&', 'l', 't', ';']
    } else if c == '>' {
        seq!['&', 'g', 't', ';']
    } else if c == '_' && !url {
        seq!['\\', '_']
    } else {
        seq![c]
    }
}

/// Every character of `s` escaped in turn.
pub open spec fn escape_seq(s: Seq<char>, url: bool) -> Seq<char>
    decreases s.len(),
{
    if s.len() == 0 {
        seq![]
    } else {
        escape_seq(s.drop_last(), url) + escape_char(s.last(), url)
    }
}

/// Whether a text counts as a URL for escaping purposes.
pub open spec fn is_url_text(s: Seq<char>) -> bool {
    occurs_in(s, seq![':', '/', '/'])
}

/// The escaped form of `s`: `&`, `<`, `>` as entities, `_` as `\_` unless
/// `s` contains `://`.
pub open spec fn escaped(s: Seq<char>) -> Seq<char> {
    escape_seq(s, is_url_text(s))
}

/// Whether escaping changes anything in `s`.
pub open spec fn has_escapable(s: Seq<char>) -> bool {
    exists|i: int|
        0 <= i < s.len() && (s[i] == '&' || s[i] == '<' || s[i] == '>' || (s[i] == '_'
            && !is_url_text(s)))
}

proof fn lemma_escape_identity(s: Seq<char>, url: bool)
    requires
        forall|i: int|
            0 <= i < s.len() ==> s[i] != '&' && s[i] != '<' && s[i] != '>' && (s[i] != '_'
                || url),
    ensures
        escape_seq(s, url) == s,
    decreases s.len(),
{
    if s.len() > 0 {
        lemma_escape_identity(s.drop_last(), url);
        assert(s.drop_last().push(s.last()) =~= s);
    }
}

/// The escaped characters of `v`.
pub fn escape_chars(v: &[char]) -> (r: Vec<char>)
    ensures
        r@ == escaped(v@),
{
    let pat = vec![':', '/', '/'];
    let url = contains_chars(v, pat.as_slice());
    assert(pat@ =~= seq![':', '/', '/']);
    let mut out: Vec<char> = Vec::new();
    let n = v.len();
    for i in 0..n
        invariant
            n == v@.len(),
            url == is_url_text(v@),
            out@ == escape_seq(v@.take(i as int), url),
    {
        assert(v@.take(i + 1).drop_last() =~= v@.take(i as int));
        let c = v[i];
        if c == '&' {
            out.push('&');
            out.push('a');
            out.push('m');
            out.push('p');
            out.push(';');
        } else if c == '<' {
            out.push('&');
            out.push('l');
            out.push('t');
            out.push(';');
        } else if c == '>' {
            out.push('&');
            out.push('g');
            out.push('t');
            out.push(';');
        } else if c == '_' && !url {
            out.push('\\');
            out.push('_');
        } else {
            out.push(c);
        }
        assert(out@ =~= escape_seq(v@.take(i + 1), url));
    }
    assert(v@.take(n as int) =~= v@);
    out
}

/// Escape HTML entities in text for safe markdown output: `&` to `&amp;`,
/// `<` to `&lt;`, `>` to `&gt;`, and `_` to `\_` unless the text contains
/// `://`. Text with nothing to escape is handed back borrowed.
pub fn escape_html_entities(text: &str) -> (r: Cow<'_, str>)
    ensures
        r@ == escaped(text@),
        (r is Borrowed) == !has_escapable(text@),
{
    let v = chars_of(text);
    let pat = vec![':', '/', '/'];
    let url = contains_chars(v.as_slice(), pat.as_slice());
    assert(pat@ =~= seq![':', '/', '/']);
    let n = v.len();
    let mut found = false;
    for i in 0..n
        invariant
            n == v@.len(),
            v@ == text@,
            url == is_url_text(v@),
            found == (exists|k: int|
                0 <= k < i && (v@[k] == '&' || v@[k] == '<' || v@[k] == '>' || (v@[k] == '_'
                    && !url))),
    {
        let c = v[i];
        if c == '&' || c == '<' || c == '>' || (c == '_' && !url) {
            found = true;
        }
    }
    if !found {
        proof {
            lemma_escape_identity(text@, url);
        }
        return Cow::Borrowed(text);
    }
    let out = escape_chars(v.as_slice());
    Cow::Owned(string_from_chars(out.as_slice()))
}


/// Number of leading `' '` characters of `s`.
pub open spec fn leading_spaces(s: Seq<char>) -> nat
    decreases s.len(),
{
    if s.len() > 0 && s[0] == ' ' {
        1 + leading_spaces(s.drop_first())
    } else {
        0
    }
}

/// `s` with every `' '` that follows another `' '` removed.
pub open spec fn squeeze_spaces(s: Seq<char>) -> Seq<char>
    decreases s.len(),
{
    if s.len() == 0 {
        seq![]
    } else {
        let acc = squeeze_spaces(s.drop_last());
        if s.last() == ' ' && s.len() >= 2 && s[s.len() - 2] == ' ' {
            acc
        } else {
            acc.push(s.last())
        }
    }
}

/// A code line with its leading indentation kept and inner runs of spaces
/// collapsed to one.
pub open spec fn collapsed(s: Seq<char>) -> Seq<char> {
    let k = leading_spaces(s) as int;
    s.take(k) + squeeze_spaces(s.skip(k))
}

/// Executable space collapsing on characters.
pub fn collapse_chars(v: &[char]) -> (r: Vec<char>)
    ensures
        r@ == collapsed(v@),
{
    let n = v.len();
    let mut k: usize = 0;
    assert(v@.skip(0) =~= v@);
    while k < n && v[k] == ' '
        invariant
            k <= n == v@.len(),
            leading_spaces(v@) == k + leading_spaces(v@.skip(k as int)),
        decreases n - k,
    {
        assert(v@.skip(k as int).drop_first() =~= v@.skip(k + 1));
        k = k + 1;
    }
    assert(leading_spaces(v@.skip(k as int)) == 0);
    let mut out: Vec<char> = Vec::new();
    for i in 0..k
        invariant
            k <= n == v@.len(),
            out@ == v@.take(i as int),
    {
        assert(v@.take(i + 1) =~= v@.take(i as int).push(v@[i as int]));
        out.push(v[i]);
    }
    let ghost rest = v@.skip(k as int);
    let mut prev_space = false;
    let mut i = k;
    while i < n
        invariant
            k <= i <= n == v@.len(),
            rest == v@.skip(k as int),
            out@ == v@.take(k as int) + squeeze_spaces(rest.take(i - k)),
            prev_space == (i > k && v@[i - 1] == ' '),
        decreases n - i,
    {
        assert(rest.take(i + 1 - k).drop_last() =~= rest.take(i - k));
        let ch = v[i];
        if ch == ' ' {
            if !prev_space {
                out.push(ch);
            }
            prev_space = true;
        } else {
            prev_space = false;
            out.push(ch);
        }
        assert(out@ =~= v@.take(k as int) + squeeze_spaces(rest.take(i + 1 - k)));
        i = i + 1;
    }
    assert(rest.take(n - k) =~= rest);
    out
}

/// Collapse runs of 2+ spaces inside a line while preserving leading
/// indentation.
pub fn collapse_inner_spaces(line: &str) -> (r: String)
    ensures
        r@ == collapsed(line@),
{
    let v = chars_of(line);
    let out = collapse_chars(v.as_slice());
    string_from_chars(out.as_slice())
}

/// Bullet characters that become `"- "`.
pub open spec fn is_round_bullet(c: char) -> bool {
    c == '\u{2022}' || c == '\u{00B7}'
}

/// Dash-like and arrow/circle bullet characters that are replaced by `"- "`.
pub open spec fn is_dash_bullet(c: char) -> bool {
    ||| c == '\u{2013}'
    ||| c == '\u{2014}'
    ||| c == '\u{2212}'
    ||| c == '\u{2010}'
    ||| c == '\u{2011}'
    ||| c == '\u{2012}'
    ||| c == '\u{2015}'
    ||| c == '\u{27A4}'
    ||| c == '\u{25BA}'
    ||| c == '\u{25B6}'
    ||| c == '\u{25CB}'
    ||| c == '\u{25CF}'
    ||| c == '\u{25E6}'
}

/// Number of leading ASCII digits of `s`.
pub open spec fn leading_digits(s: Seq<char>) -> nat
    decreases s.len(),
{
    if s.len() > 0 && '0' <= s[0] && s[0] <= '9' {
        1 + leading_digits(s.drop_first())
    } else {
        0
    }
}

/// Whether `t` starts with a number followed by `.` or `)` (`"1. text"`).
pub open spec fn starts_numbered(t: Seq<char>) -> bool {
    let d = leading_digits(t) as int;
    d > 0 && d < t.len() && (t[d] == '.' || t[d] == ')')
}

/// The list item `s` with its bullet normalised to markdown's `"- "`;
/// numbered items are kept as they are.
pub open spec fn normalized_list_item(s: Seq<char>) -> Seq<char> {
    let t = trim_start(s);
    let dash = seq!['-', ' '];
    if t.len() > 0 && is_round_bullet(t[0]) {
        dash + trim_start(t.drop_first())
    } else if t.len() >= 2 && t[0] == '*' && t[1] == ' ' {
        dash + trim_start(t.skip(2))
    } else if t.len() >= 2 && t[0] == '-' && t[1] == ' ' {
        t
    } else if t.len() > 0 && is_dash_bullet(t[0]) {
        dash + trim_start(t.drop_first())
    } else if starts_numbered(t) {
        t
    } else {
        dash + t
    }
}

/// Executable bullet normalisation on characters.
pub fn normalize_list_chars(v: &[char]) -> (r: Vec<char>)
    ensures
        r@ == normalized_list_item(v@),
{
    let n = v.len();
    let a = trim_start_index(v, 0, n);
    assert(v@.subrange(0, n as int) =~= v@);
    let ghost t = v@.subrange(a as int, n as int);
    let mut out: Vec<char> = Vec::new();
    out.push('-');
    out.push(' ');
    assert(out@ =~= seq!['-', ' ']);
    if a < n {
        let c = v[a];
        if c == '\u{2022}' || c == '\u{00B7}' {
            let b = trim_start_index(v, a + 1, n);
            assert(t.drop_first() =~= v@.subrange(a + 1, n as int));
            push_all(&mut out, &v[b..n]);
            return out;
        }
        if c == '*' && a + 1 < n && v[a + 1] == ' ' {
            let b = trim_start_index(v, a + 2, n);
            assert(t.skip(2) =~= v@.subrange(a + 2, n as int));
            push_all(&mut out, &v[b..n]);
            return out;
        }
        if c == '-' && a + 1 < n && v[a + 1] == ' ' {
            let mut keep: Vec<char> = Vec::new();
            push_all(&mut keep, &v[a..n]);
            return keep;
        }
        if c == '\u{2013}' || c == '\u{2014}' || c == '\u{2212}' || c == '\u{2010}' || c
            == '\u{2011}' || c == '\u{2012}' || c == '\u{2015}' || c == '\u{27A4}' || c
            == '\u{25BA}' || c == '\u{25B6}' || c == '\u{25CB}' || c == '\u{25CF}' || c
            == '\u{25E6}' {
            let b = trim_start_index(v, a + 1, n);
            assert(t.drop_first() =~= v@.subrange(a + 1, n as int));
            push_all(&mut out, &v[b..n]);
            return out;
        }
        let mut d = a;
        while d < n && '0' <= v[d] && v[d] <= '9'
            invariant
                a <= d <= n == v@.len(),
                t == v@.subrange(a as int, n as int),
                leading_digits(t) == (d - a) + leading_digits(v@.subrange(d as int, n as int)),
            decreases n - d,
        {
            assert(v@.subrange(d as int, n as int).drop_first() =~= v@.subrange(d + 1, n as int));
            d = d + 1;
        }
        assert(leading_digits(v@.subrange(d as int, n as int)) == 0);
        if d > a && d < n && (v[d] == '.' || v[d] == ')') {
            let mut keep: Vec<char> = Vec::new();
            push_all(&mut keep, &v[a..n]);
            return keep;
        }
    }
    push_all(&mut out, &v[a..n]);
    out
}

/// Normalize bullet/number list prefix to standard markdown syntax.
pub fn normalize_list_prefix(text: &str) -> (r: String)
    ensures
        r@ == normalized_list_item(text@),
{
    let v = chars_of(text);
    let out = normalize_list_chars(v.as_slice());
    string_from_chars(out.as_slice())
}


/// One run of text on a PDF line, with the font attributes the renderer uses.
pub struct SegmentData {
    pub text: String,
    pub is_bold: bool,
    pub is_italic: bool,
}

/// A PDF text line made of segments.
pub struct PdfLine {
    pub segments: Vec<SegmentData>,
}

/// Layout classes a layout model can assign to a region.
#[derive(Clone, Copy, Debug, PartialEq, Eq, Structural)]
pub enum LayoutHintClass {
    Caption,
    Footnote,
    Formula,
    ListItem,
    PageFooter,
    PageHeader,
    Picture,
    SectionHeader,
    Table,
    Text,
    Title,
    Code,
}

/// A paragraph of PDF lines with the classification that decides how it is
/// rendered.
pub struct PdfParagraph {
    pub lines: Vec<PdfLine>,
    pub heading_level: Option<u8>,
    pub is_list_item: bool,
    pub is_code_block: bool,
    pub is_formula: bool,
    pub layout_class: Option<LayoutHintClass>,
}

/// All words of a sequence of segments, in order.
pub open spec fn segs_words(segs: Seq<SegmentData>) -> Seq<Seq<char>>
    decreases segs.len(),
{
    if segs.len() == 0 {
        seq![]
    } else {
        segs_words(segs.drop_last()) + words(segs.last().text@)
    }
}

/// The text of one line: its segments' words joined.
pub open spec fn line_string(line: PdfLine) -> Seq<char> {
    join_words(segs_words(line.segments@))
}

/// The nonempty line texts of a paragraph.
pub open spec fn line_strings(lines: Seq<PdfLine>) -> Seq<Seq<char>>
    decreases lines.len(),
{
    if lines.len() == 0 {
        seq![]
    } else {
        let t = line_string(lines.last());
        line_strings(lines.drop_last()) + (if t.len() > 0 {
            seq![t]
        } else {
            seq![]
        })
    }
}

/// A paragraph's lines joined into plain text, with dehyphenation.
pub open spec fn joined_text(lines: Seq<PdfLine>) -> Seq<char> {
    join_lines(line_strings(lines))
}

/// Words of a line's segments, as vectors.
fn segs_words_exec(segs: &[SegmentData]) -> (r: Vec<Vec<char>>)
    ensures
        r@.map_values(|w: Vec<char>| w@) == segs_words(segs@),
{
    let mut out: Vec<Vec<char>> = Vec::new();
    let n = segs.len();
    for i in 0..n
        invariant
            n == segs@.len(),
            out@.map_values(|w: Vec<char>| w@) == segs_words(segs@.take(i as int)),
    {
        assert(segs@.take(i + 1).drop_last() =~= segs@.take(i as int));
        let v = chars_of(segs[i].text.as_str());
        let ws = split_words(v.as_slice(), 0, v.len());
        assert(v@.subrange(0, v@.len() as int) =~= v@);
        let ghost before = out@;
        let m = ws.len();
        for j in 0..m
            invariant
                m == ws@.len(),
                out@.map_values(|w: Vec<char>| w@) == before.map_values(|w: Vec<char>| w@)
                    + ws@.take(j as int).map_values(|w: Vec<char>| w@),
        {
            let w = ws[j].clone();
            let ghost prev = out@;
            out.push(w);
            assert(out@.map_values(|w: Vec<char>| w@) =~= prev.map_values(|w: Vec<char>| w@)
                .push(ws@[j as int]@));
            assert(ws@.take(j + 1).map_values(|w: Vec<char>| w@) =~= ws@.take(j as int).map_values(
                |w: Vec<char>| w@,
            ).push(ws@[j as int]@));
        }
        assert(ws@.take(m as int) =~= ws@);
    }
    assert(segs@.take(n as int) =~= segs@);
    out
}

/// Join lines into a single string (no inline markup): each line's words
/// are joined, empty lines dropped, then lines joined with dehyphenation.
pub fn join_line_texts(lines: &[PdfLine]) -> (r: Vec<char>)
    ensures
        r@ == joined_text(lines@),
{
    let mut strs: Vec<Vec<char>> = Vec::new();
    let n = lines.len();
    for i in 0..n
        invariant
            n == lines@.len(),
            strs@.map_values(|w: Vec<char>| w@) == line_strings(lines@.take(i as int)),
    {
        assert(lines@.take(i + 1).drop_last() =~= lines@.take(i as int));
        let ws = segs_words_exec(lines[i].segments.as_slice());
        let t = join_word_chars(ws.as_slice());
        if t.len() > 0 {
            let ghost prev = strs@;
            let ghost tv = t@;
            strs.push(t);
            assert(strs@.map_values(|w: Vec<char>| w@) =~= prev.map_values(|w: Vec<char>| w@).push(
                tv,
            ));
        } else {
            assert(line_strings(lines@.take(i + 1)) =~= line_strings(lines@.take(i as int)));
        }
    }
    assert(lines@.take(n as int) =~= lines@);
    join_line_chars(strs.as_slice())
}


/// The segments of a paragraph, line after line.
pub open spec fn para_segs(lines: Seq<PdfLine>) -> Seq<SegmentData>
    decreases lines.len(),
{
    if lines.len() == 0 {
        seq![]
    } else {
        para_segs(lines.drop_last()) + lines.last().segments@
    }
}

/// Indices (into `para_segs`) of the segments that begin a new line, other
/// than the paragraph's first.
pub open spec fn line_start_seq(lines: Seq<PdfLine>) -> Seq<usize>
    decreases lines.len(),
{
    if lines.len() == 0 {
        seq![]
    } else {
        let before = para_segs(lines.drop_last()).len();
        line_start_seq(lines.drop_last()) + (if before > 0 {
            seq![before as usize]
        } else {
            seq![]
        })
    }
}

/// The segments a slice of segment references points at.
pub open spec fn deref_segs(s: Seq<&SegmentData>) -> Seq<SegmentData> {
    s.map_values(|x: &SegmentData| *x)
}

/// The last word of `s`, or nothing.
pub open spec fn last_word(s: Seq<char>) -> Seq<char> {
    let w = words(s);
    if w.len() > 0 {
        w.last()
    } else {
        seq![]
    }
}

/// The first word of `s`, or nothing.
pub open spec fn first_word(s: Seq<char>) -> Seq<char> {
    let w = words(s);
    if w.len() > 0 {
        w[0]
    } else {
        seq![]
    }
}

/// Line texts and pending words after the first `k` segments of a
/// formatting run that starts at index `offset` of the paragraph: a segment
/// that begins a new line closes the pending words into a line text.
pub open spec fn run_groups(run: Seq<SegmentData>, offset: int, ls: Seq<usize>, k: int) -> (
    Seq<Seq<char>>,
    Seq<Seq<char>>,
)
    decreases k,
{
    if k <= 0 || k > run.len() {
        (seq![], seq![])
    } else {
        let (lt, cw) = run_groups(run, offset, ls, k - 1);
        let local = k - 1;
        let flush = local > 0 && ls.contains((offset + local) as usize) && cw.len() > 0;
        let lt2 = if flush {
            lt.push(join_words(cw))
        } else {
            lt
        };
        let cw2 = if flush {
            seq![]
        } else {
            cw
        };
        (lt2, cw2 + words(run[local].text@))
    }
}

/// The text of a formatting run: words joined within each PDF line, lines
/// joined with dehyphenation.
pub open spec fn run_text(run: Seq<SegmentData>, offset: int, ls: Seq<usize>) -> Seq<char> {
    let (lt, cw) = run_groups(run, offset, ls, run.len() as int);
    join_lines(
        if cw.len() > 0 {
            lt.push(join_words(cw))
        } else {
            lt
        },
    )
}

/// The run text wrapped in the markdown emphasis for its formatting.
pub open spec fn emphasized(bold: bool, italic: bool, body: Seq<char>) -> Seq<char> {
    if bold && italic {
        seq!['*', '*', '*'] + body + seq!['*', '*', '*']
    } else if bold {
        seq!['*', '*'] + body + seq!['*', '*']
    } else if italic {
        seq!['*'] + body + seq!['*']
    } else {
        body
    }
}

/// End (exclusive) of the run of segments from `j` on whose formatting is
/// `(bold, italic)`.
pub open spec fn run_end(segs: Seq<SegmentData>, j: int, bold: bool, italic: bool) -> int
    decreases segs.len() - j,
{
    if 0 <= j < segs.len() && segs[j].is_bold == bold && segs[j].is_italic == italic {
        run_end(segs, j + 1, bold, italic)
    } else {
        j
    }
}

proof fn lemma_run_end_bounds(segs: Seq<SegmentData>, j: int, bold: bool, italic: bool)
    requires
        0 <= j <= segs.len(),
    ensures
        j <= run_end(segs, j, bold, italic) <= segs.len(),
        forall|t: int|
            j <= t < run_end(segs, j, bold, italic) ==> #[trigger] segs[t].is_bold == bold
                && segs[t].is_italic == italic,
    decreases segs.len() - j,
{
    if j < segs.len() && segs[j].is_bold == bold && segs[j].is_italic == italic {
        lemma_run_end_bounds(segs, j + 1, bold, italic);
    }
}

/// Markdown for the segments from `i` on, appended to what `acc` holds:
/// each run of equally formatted segments is emphasised as a whole, with a
/// space before it unless the junction is CJK on both sides.
pub open spec fn markup_from(segs: Seq<SegmentData>, ls: Seq<usize>, i: int, acc: Seq<char>) -> Seq<
    char,
>
    decreases segs.len() - i,
{
    if i < 0 || i >= segs.len() {
        acc
    } else {
        let bold = segs[i].is_bold;
        let italic = segs[i].is_italic;
        let e = run_end(segs, i + 1, bold, italic);
        let body = run_text(segs.subrange(i, e), i, ls);
        let sep = acc.len() > 0 && space_between(
            last_word(segs[i - 1].text@),
            first_word(segs[i].text@),
        );
        let acc2 = (if sep {
            acc.push(' ')
        } else {
            acc
        }) + emphasized(bold, italic, body);
        if i < e <= segs.len() {
            markup_from(segs, ls, e, acc2)
        } else {
            acc2
        }
    }
}

/// A paragraph body with inline bold/italic markup, escaped.
pub open spec fn inline_markup(lines: Seq<PdfLine>) -> Seq<char> {
    escaped(markup_from(para_segs(lines), line_start_seq(lines), 0, seq![]))
}

/// Whether `x` is in `v`.
fn contains_index(v: &[usize], x: usize) -> (r: bool)
    ensures
        r == v@.contains(x),
{
    let n = v.len();
    for i in 0..n
        invariant
            n == v@.len(),
            forall|k: int| 0 <= k < i ==> v@[k] != x,
    {
        if v[i] == x {
            return true;
        }
    }
    false
}

/// Words of one segment's text.
fn segment_words(seg: &SegmentData) -> (r: Vec<Vec<char>>)
    ensures
        r@.map_values(|w: Vec<char>| w@) == words(seg.text@),
{
    let v = chars_of(seg.text.as_str());
    assert(v@.subrange(0, v@.len() as int) =~= v@);
    split_words(v.as_slice(), 0, v.len())
}

/// Join words from a formatting run's segments, respecting line boundaries.
pub fn join_run_segments_line_aware(
    run_segments: &[&SegmentData],
    global_offset: usize,
    line_start_indices: &[usize],
) -> (r: Vec<char>)
    requires
        global_offset + run_segments@.len() <= usize::MAX,
    ensures
        r@ == run_text(deref_segs(run_segments@), global_offset as int, line_start_indices@),
{
    let ghost run = deref_segs(run_segments@);
    let ghost ls = line_start_indices@;
    let n = run_segments.len();
    let mut line_texts: Vec<Vec<char>> = Vec::new();
    let mut current: Vec<Vec<char>> = Vec::new();
    for k in 0..n
        invariant
            n == run_segments@.len() == run.len(),
            run == deref_segs(run_segments@),
            ls == line_start_indices@,
            global_offset + n <= usize::MAX,
            (line_texts@.map_values(|w: Vec<char>| w@), current@.map_values(|w: Vec<char>| w@))
                == run_groups(run, global_offset as int, ls, k as int),
    {
        let ghost cw_before = current@.map_values(|w: Vec<char>| w@);
        let ghost lt_before = line_texts@.map_values(|w: Vec<char>| w@);
        if k > 0 && current.len() > 0 && contains_index(line_start_indices, global_offset + k) {
            let t = join_word_chars(current.as_slice());
            let ghost tv = t@;
            line_texts.push(t);
            assert(line_texts@.map_values(|w: Vec<char>| w@) =~= lt_before.push(tv));
            current = Vec::new();
            assert(current@.map_values(|w: Vec<char>| w@) =~= seq![]);
        }
        let ghost cw_mid = current@.map_values(|w: Vec<char>| w@);
        let ws = segment_words(run_segments[k]);
        let m = ws.len();
        for j in 0..m
            invariant
                m == ws@.len(),
                current@.map_values(|w: Vec<char>| w@) == cw_mid + ws@.take(j as int).map_values(
                    |w: Vec<char>| w@,
                ),
        {
            let w = ws[j].clone();
            let ghost prev = current@;
            current.push(w);
            assert(current@.map_values(|w: Vec<char>| w@) =~= prev.map_values(|w: Vec<char>| w@)
                .push(ws@[j as int]@));
            assert(ws@.take(j + 1).map_values(|w: Vec<char>| w@) =~= ws@.take(j as int).map_values(
                |w: Vec<char>| w@,
            ).push(ws@[j as int]@));
        }
        assert(ws@.take(m as int) =~= ws@);
        assert(run[k as int] == *run_segments@[k as int]);
    }
    if current.len() > 0 {
        let t = join_word_chars(current.as_slice());
        let ghost lt_before = line_texts@.map_values(|w: Vec<char>| w@);
        let ghost tv = t@;
        line_texts.push(t);
        assert(line_texts@.map_values(|w: Vec<char>| w@) =~= lt_before.push(tv));
    }
    join_line_chars(line_texts.as_slice())
}


/// The last element of a word list, or an empty word.
fn last_or_empty(ws: &Vec<Vec<char>>) -> (r: Vec<char>)
    ensures
        r@ == (if ws@.len() > 0 {
            ws@.last()@
        } else {
            seq![]
        }),
{
    if ws.len() > 0 {
        ws[ws.len() - 1].clone()
    } else {
        Vec::new()
    }
}

/// The first element of a word list, or an empty word.
fn first_or_empty(ws: &Vec<Vec<char>>) -> (r: Vec<char>)
    ensures
        r@ == (if ws@.len() > 0 {
            ws@[0]@
        } else {
            seq![]
        }),
{
    if ws.len() > 0 {
        ws[0].clone()
    } else {
        Vec::new()
    }
}

/// Line-aware inline markup renderer: runs of equally formatted segments are
/// emphasised together; within a run, words of one line are joined and
/// lines are joined with dehyphenation.
pub fn render_segment_refs_with_markup_line_aware(
    segments: &[&SegmentData],
    line_start_indices: &[usize],
) -> (r: Vec<char>)
    ensures
        r@ == markup_from(deref_segs(segments@), line_start_indices@, 0, seq![]),
{
    let ghost segs = deref_segs(segments@);
    let ghost ls = line_start_indices@;
    let n = segments.len();
    let mut result: Vec<char> = Vec::new();
    let mut i: usize = 0;
    while i < n
        invariant
            i <= n == segments@.len() == segs.len(),
            segs == deref_segs(segments@),
            ls == line_start_indices@,
            i == 0 ==> result@.len() == 0,
            markup_from(segs, ls, 0, seq![]) == markup_from(segs, ls, i as int, result@),
        decreases n - i,
    {
        let bold = segments[i].is_bold;
        let italic = segments[i].is_italic;
        let run_start = i;
        i = i + 1;
        while i < n && segments[i].is_bold == bold && segments[i].is_italic == italic
            invariant
                run_start < i <= n == segments@.len() == segs.len(),
                segs == deref_segs(segments@),
                bold == segs[run_start as int].is_bold,
                italic == segs[run_start as int].is_italic,
                run_end(segs, run_start + 1, bold, italic) == run_end(segs, i as int, bold, italic),
            decreases n - i,
        {
            i = i + 1;
        }
        let ghost acc = result@;
        let run = &segments[run_start..i];
        assert(deref_segs(run@) =~= segs.subrange(run_start as int, i as int));
        let body = join_run_segments_line_aware(run, run_start, line_start_indices);
        if result.len() > 0 {
            let prev_words = segment_words(segments[run_start - 1]);
            let next_words = segment_words(segments[run_start]);
            let prev_last = last_or_empty(&prev_words);
            let next_first = first_or_empty(&next_words);
            if needs_space_between(prev_last.as_slice(), next_first.as_slice()) {
                result.push(' ');
            }
        }
        if bold && italic {
            result.push('*');
            result.push('*');
            result.push('*');
            push_all(&mut result, body.as_slice());
            result.push('*');
            result.push('*');
            result.push('*');
        } else if bold {
            result.push('*');
            result.push('*');
            push_all(&mut result, body.as_slice());
            result.push('*');
            result.push('*');
        } else if italic {
            result.push('*');
            push_all(&mut result, body.as_slice());
            result.push('*');
        } else {
            push_all(&mut result, body.as_slice());
        }
        proof {
            let sep = acc.len() > 0 && space_between(
                last_word(segs[run_start - 1].text@),
                first_word(segs[run_start as int].text@),
            );
            let acc2 = (if sep {
                acc.push(' ')
            } else {
                acc
            }) + emphasized(bold, italic, body@);
            assert(result@ =~= acc2);
        }
    }
    result
}

/// Render an entire body paragraph with inline bold/italic markup, escaped.
pub fn render_paragraph_with_inline_markup(para: &PdfParagraph) -> (r: Vec<char>)
    ensures
        r@ == inline_markup(para.lines@),
{
    let ghost lines = para.lines@;
    let mut all: Vec<&SegmentData> = Vec::new();
    let mut starts: Vec<usize> = Vec::new();
    let nl = para.lines.len();
    for li in 0..nl
        invariant
            nl == lines.len(),
            lines == para.lines@,
            deref_segs(all@) == para_segs(lines.take(li as int)),
            starts@ == line_start_seq(lines.take(li as int)),
    {
        assert(lines.take(li + 1).drop_last() =~= lines.take(li as int));
        if all.len() > 0 {
            starts.push(all.len());
        }
        let segs = &para.lines[li].segments;
        let ghost base = deref_segs(all@);
        let m = segs.len();
        for j in 0..m
            invariant
                m == segs@.len(),
                deref_segs(all@) == base + segs@.take(j as int),
        {
            let ghost prev = all@;
            let sref = &segs[j];
            assert(*sref == segs@[j as int]);
            all.push(sref);
            assert(deref_segs(all@) =~= deref_segs(prev).push(segs@[j as int]));
            assert(segs@.take(j + 1) =~= segs@.take(j as int).push(segs@[j as int]));
            assert(deref_segs(all@) =~= base + segs@.take(j + 1));
        }
        assert(segs@.take(m as int) =~= segs@);
    }
    assert(lines.take(nl as int) =~= lines);
    let marked = render_segment_refs_with_markup_line_aware(all.as_slice(), starts.as_slice());
    escape_chars(marked.as_slice())
}


/// A line's segment texts joined with single spaces (code lines keep their
/// segments' own spacing).
pub open spec fn space_joined(segs: Seq<SegmentData>) -> Seq<char>
    decreases segs.len(),
{
    if segs.len() == 0 {
        seq![]
    } else if segs.len() == 1 {
        segs[0].text@
    } else {
        space_joined(segs.drop_last()) + seq![' '] + segs.last().text@
    }
}

/// The body of a code block: each line's text with inner spaces collapsed,
/// followed by a newline.
pub open spec fn code_body(lines: Seq<PdfLine>) -> Seq<char>
    decreases lines.len(),
{
    if lines.len() == 0 {
        seq![]
    } else {
        code_body(lines.drop_last()) + collapsed(space_joined(lines.last().segments@)) + seq!['\n']
    }
}

/// `s` with every `*` escaped as `\*`.
pub open spec fn star_escaped(s: Seq<char>) -> Seq<char>
    decreases s.len(),
{
    if s.len() == 0 {
        seq![]
    } else {
        star_escaped(s.drop_last()) + (if s.last() == '*' {
            seq!['\\', '*']
        } else {
            seq![s.last()]
        })
    }
}

/// `n` hash marks.
pub open spec fn hashes(n: nat) -> Seq<char> {
    Seq::new(n, |i: int| '#')
}

/// The markdown for one paragraph: an ATX heading, a fenced code block, a
/// `$$` formula block, a normalised list item, an italic caption, or body
/// text with inline emphasis. Headings, captions and body text are
/// escaped; code and formulas are not.
pub open spec fn rendered_paragraph(p: PdfParagraph) -> Seq<char> {
    let joined = joined_text(p.lines@);
    match p.heading_level {
        Some(level) => hashes(level as nat) + seq![' '] + escaped(joined),
        None => if p.is_code_block {
            seq!['`', '`', '`', '\n'] + code_body(p.lines@) + seq!['`', '`', '`']
        } else if p.is_formula {
            seq!['$', '$', '\n'] + joined + seq!['\n', '$', '$']
        } else if p.is_list_item {
            normalized_list_item(inline_markup(p.lines@))
        } else if p.layout_class == Some(LayoutHintClass::Caption) {
            seq!['*'] + star_escaped(escaped(joined)) + seq!['*']
        } else {
            inline_markup(p.lines@)
        },
    }
}

/// Paragraphs rendered and separated by blank lines; a separator is only
/// written once the output is nonempty.
pub open spec fn rendered_paragraphs(ps: Seq<PdfParagraph>) -> Seq<char>
    decreases ps.len(),
{
    if ps.len() == 0 {
        seq![]
    } else {
        let acc = rendered_paragraphs(ps.drop_last());
        (if acc.len() > 0 {
            acc + seq!['\n', '\n']
        } else {
            acc
        }) + rendered_paragraph(ps.last())
    }
}

/// Appends characters to a `String`.
pub fn push_chars(out: &mut String, v: &[char])
    ensures
        final(out)@ == old(out)@ + v@,
{
    let n = v.len();
    for i in 0..n
        invariant
            n == v@.len(),
            out@ == old(out)@ + v@.take(i as int),
    {
        assert(v@.take(i + 1) =~= v@.take(i as int).push(v@[i as int]));
        push_char(out, v[i]);
    }
    assert(v@.take(n as int) =~= v@);
}

/// Segment texts of a line joined with single spaces.
fn space_join_segments(segs: &[SegmentData]) -> (r: Vec<char>)
    ensures
        r@ == space_joined(segs@),
{
    let mut out: Vec<char> = Vec::new();
    let n = segs.len();
    for i in 0..n
        invariant
            n == segs@.len(),
            out@ == space_joined(segs@.take(i as int)),
    {
        assert(segs@.take(i + 1).drop_last() =~= segs@.take(i as int));
        if i > 0 {
            out.push(' ');
        }
        push_str_chars(&mut out, segs[i].text.as_str());
        assert(out@ =~= space_joined(segs@.take(i + 1)));
    }
    assert(segs@.take(n as int) =~= segs@);
    out
}

/// Escapes `*` as `\*`.
fn escape_stars(v: &[char]) -> (r: Vec<char>)
    ensures
        r@ == star_escaped(v@),
{
    let mut out: Vec<char> = Vec::new();
    let n = v.len();
    for i in 0..n
        invariant
            n == v@.len(),
            out@ == star_escaped(v@.take(i as int)),
    {
        assert(v@.take(i + 1).drop_last() =~= v@.take(i as int));
        if v[i] == '*' {
            out.push('\\');
            out.push('*');
        } else {
            out.push(v[i]);
        }
        assert(out@ =~= star_escaped(v@.take(i + 1)));
    }
    assert(v@.take(n as int) =~= v@);
    out
}

/// Render a single paragraph to the output string.
pub fn render_paragraph_to_output(para: &PdfParagraph, output: &mut String)
    ensures
        final(output)@ == old(output)@ + rendered_paragraph(*para),
{
    let ghost joined = joined_text(para.lines@);
    if let Some(level) = para.heading_level {
        let mut prefix: Vec<char> = Vec::new();
        for i in 0..level
            invariant
                prefix@ == hashes(i as nat),
        {
            prefix.push('#');
            assert(prefix@ =~= hashes((i + 1) as nat));
        }
        let j = join_line_texts(para.lines.as_slice());
        let text = escape_chars(j.as_slice());
        push_chars(output, prefix.as_slice());
        push_char(output, ' ');
        push_chars(output, text.as_slice());
        assert(output@ =~= old(output)@ + rendered_paragraph(*para));
    } else if para.is_code_block {
        let ghost lines = para.lines@;
        let mut body: Vec<char> = Vec::new();
        let n = para.lines.len();
        for i in 0..n
            invariant
                n == lines.len(),
                lines == para.lines@,
                body@ == code_body(lines.take(i as int)),
        {
            assert(lines.take(i + 1).drop_last() =~= lines.take(i as int));
            let line_text = space_join_segments(para.lines[i].segments.as_slice());
            let c = collapse_chars(line_text.as_slice());
            push_all(&mut body, c.as_slice());
            body.push('\n');
            assert(body@ =~= code_body(lines.take(i + 1)));
        }
        assert(lines.take(n as int) =~= lines);
        let ghost start = output@;
        push_char(output, '`');
        push_char(output, '`');
        push_char(output, '`');
        push_char(output, '\n');
        push_chars(output, body.as_slice());
        push_char(output, '`');
        push_char(output, '`');
        push_char(output, '`');
        assert(output@ =~= start + rendered_paragraph(*para));
    } else if para.is_formula {
        let j = join_line_texts(para.lines.as_slice());
        let ghost start = output@;
        push_char(output, '$');
        push_char(output, '$');
        push_char(output, '\n');
        push_chars(output, j.as_slice());
        push_char(output, '\n');
        push_char(output, '$');
        push_char(output, '$');
        assert(output@ =~= start + rendered_paragraph(*para));
    } else if para.is_list_item {
        let text = render_paragraph_with_inline_markup(para);
        let normalized = normalize_list_chars(text.as_slice());
        push_chars(output, normalized.as_slice());
    } else if matches!(para.layout_class, Some(LayoutHintClass::Caption)) {
        let j = join_line_texts(para.lines.as_slice());
        let text = escape_chars(j.as_slice());
        let escaped_text = escape_stars(text.as_slice());
        let ghost start = output@;
        push_char(output, '*');
        push_chars(output, escaped_text.as_slice());
        push_char(output, '*');
        assert(output@ =~= start + rendered_paragraph(*para));
    } else {
        let text = render_paragraph_with_inline_markup(para);
        push_chars(output, text.as_slice());
    }
}

/// Render a slice of paragraphs into a single markdown string, separated by
/// double newlines.
pub fn render_paragraphs_to_string(paragraphs: &[PdfParagraph]) -> (r: String)
    ensures
        r@ == rendered_paragraphs(paragraphs@),
{
    let mut output = String::new();
    let n = paragraphs.len();
    for i in 0..n
        invariant
            n == paragraphs@.len(),
            output@ == rendered_paragraphs(paragraphs@.take(i as int)),
    {
        assert(paragraphs@.take(i + 1).drop_last() =~= paragraphs@.take(i as int));
        let ghost before = output@;
        if output.as_str().is_empty() == false {
            push_char(&mut output, '\n');
            push_char(&mut output, '\n');
            assert(output@ =~= before + seq!['\n', '\n']);
        }
        render_paragraph_to_output(&paragraphs[i], &mut output);
        assert(paragraphs@.take(i + 1).last() == paragraphs@[i as int]);
    }
    assert(paragraphs@.take(n as int) =~= paragraphs@);
    output
}


/// The page an image is grouped under (`0` when unknown).
pub open spec fn page_key(img: ExtractedImage) -> int {
    match img.page_number {
        Some(p) => p as int,
        None => 0,
    }
}

/// The markdown image link naming an image (and its page, when known).
pub open spec fn image_label(img: ExtractedImage) -> Seq<char> {
    let ii = decimal(img.image_index as nat);
    let p = page_key(img);
    if p > 0 {
        let pd = decimal(p as nat);
        seq!['\n', '\n', '!', '[', 'I', 'm', 'a', 'g', 'e', ' '] + ii + seq![' ', '(', 'p', 'a', 'g', 'e', ' '] + pd
            + seq![')', ']', '(', 'e', 'm', 'b', 'e', 'd', 'd', 'e', 'd', ':', 'p'] + pd + seq!['_', 'i']
            + ii + seq![')']
    } else {
        seq!['\n', '\n', '!', '[', 'I', 'm', 'a', 'g', 'e', ' '] + ii + seq![']', '(', 'e', 'm', 'b', 'e', 'd', 'd', 'e', 'd', ':', 'i']
            + ii + seq![')']
    }
}

/// An image's OCR text as a quoted line, when there is nonblank OCR text.
pub open spec fn image_ocr_quote(img: ExtractedImage) -> Seq<char> {
    match img.ocr_result {
        Some(r) => {
            let t = trim(r.content@);
            if t.len() > 0 {
                seq!['\n', '>', ' ', '*', 'I', 'm', 'a', 'g', 'e', ' ', 't', 'e', 'x', 't', ':', ' '] + t
                    + seq!['*']
            } else {
                seq![]
            }
        },
        None => seq![],
    }
}

/// The placeholder for one image: its link, then its OCR quote.
pub open spec fn image_block(img: ExtractedImage) -> Seq<char> {
    image_label(img) + image_ocr_quote(img)
}

/// Placeholders of the images on page `p`, in the order they were given.
pub open spec fn blocks_on_page(imgs: Seq<ExtractedImage>, p: int) -> Seq<char>
    decreases imgs.len(),
{
    if imgs.len() == 0 {
        seq![]
    } else {
        blocks_on_page(imgs.drop_last(), p) + (if page_key(imgs.last()) == p {
            image_block(imgs.last())
        } else {
            seq![]
        })
    }
}

/// The smallest page key that is at least `lo`, if any image has one.
pub open spec fn min_page_from(imgs: Seq<ExtractedImage>, lo: int) -> Option<int>
    decreases imgs.len(),
{
    if imgs.len() == 0 {
        None
    } else {
        let rest = min_page_from(imgs.drop_last(), lo);
        let k = page_key(imgs.last());
        if k >= lo {
            match rest {
                Some(m) => Some(if k < m { k } else { m }),
                None => Some(k),
            }
        } else {
            rest
        }
    }
}

/// Number of images whose page key is at least `lo`.
pub open spec fn count_from(imgs: Seq<ExtractedImage>, lo: int) -> nat
    decreases imgs.len(),
{
    if imgs.len() == 0 {
        0
    } else {
        count_from(imgs.drop_last(), lo) + (if page_key(imgs.last()) >= lo { 1nat } else { 0nat })
    }
}

pub proof fn lemma_count_from_monotone(imgs: Seq<ExtractedImage>, a: int, b: int)
    requires
        a <= b,
    ensures
        count_from(imgs, b) <= count_from(imgs, a),
    decreases imgs.len(),
{
    if imgs.len() > 0 {
        lemma_count_from_monotone(imgs.drop_last(), a, b);
    }
}

pub proof fn lemma_min_page_progress(imgs: Seq<ExtractedImage>, lo: int)
    ensures
        min_page_from(imgs, lo) matches Some(m) ==> m >= lo && count_from(imgs, m + 1) < count_from(
            imgs,
            lo,
        ),
    decreases imgs.len(),
{
    if imgs.len() > 0 {
        let rest = imgs.drop_last();
        lemma_min_page_progress(rest, lo);
        let k = page_key(imgs.last());
        if k >= lo {
            lemma_count_from_monotone(rest, lo, k + 1);
            if let Some(m2) = min_page_from(rest, lo) {
                lemma_count_from_monotone(rest, lo, m2 + 1);
            }
        }
    }
}

/// Placeholders of every image whose page key is at least `lo`: pages in
/// ascending order, images of one page in the order they were given.
pub open spec fn blocks_from(imgs: Seq<ExtractedImage>, lo: int) -> Seq<char>
    decreases count_from(imgs, lo),
{
    match min_page_from(imgs, lo) {
        None => seq![],
        Some(m) => {
            proof {
                lemma_min_page_progress(imgs, lo);
            }
            blocks_on_page(imgs, m) + blocks_from(imgs, m + 1)
        },
    }
}

/// All image placeholders: grouped by page in ascending page order.
pub open spec fn image_placeholders(imgs: Seq<ExtractedImage>) -> Seq<char> {
    blocks_from(imgs, 0)
}

proof fn lemma_min_page_none_above(imgs: Seq<ExtractedImage>, lo: int)
    requires
        lo > usize::MAX,
    ensures
        min_page_from(imgs, lo) is None,
    decreases imgs.len(),
{
    if imgs.len() > 0 {
        lemma_min_page_none_above(imgs.drop_last(), lo);
    }
}

/// Appends the placeholder for one image.
fn push_image_block(out: &mut Vec<char>, img: &ExtractedImage)
    ensures
        final(out)@ == old(out)@ + image_block(*img),
{
    let ii = img.image_index;
    let page = match img.page_number {
        Some(p) => p,
        None => 0,
    };
    let ghost start = out@;
    proof {
        reveal_strlit("\n\n![Image ");
        reveal_strlit(" (page ");
        reveal_strlit(")](embedded:p");
        reveal_strlit("_i");
        reveal_strlit(")");
        reveal_strlit("](embedded:i");
    }
    if page > 0 {
        push_str_chars(out, "\n\n![Image ");
        push_decimal(out, ii);
        push_str_chars(out, " (page ");
        push_decimal(out, page);
        push_str_chars(out, ")](embedded:p");
        push_decimal(out, page);
        push_str_chars(out, "_i");
        push_decimal(out, ii);
        push_str_chars(out, ")");
    } else {
        push_str_chars(out, "\n\n![Image ");
        push_decimal(out, ii);
        push_str_chars(out, "](embedded:i");
        push_decimal(out, ii);
        push_str_chars(out, ")");
    }
    assert(out@ =~= start + image_label(*img));
    let ghost mid = out@;
    if let Some(r) = &img.ocr_result {
        let v = chars_of(r.content.as_str());
        let (a, b) = trim_bounds(v.as_slice(), 0, v.len());
        assert(v@.subrange(0, v@.len() as int) =~= v@);
        if a < b {
            push_str_chars(out, "\n> *Image text: ");
            push_all(out, &v[a..b]);
            out.push('*');
            proof {
                reveal_strlit("\n> *Image text: ");
            }
            assert(out@ =~= mid + image_ocr_quote(*img));
        } else {
            assert(out@ =~= mid + image_ocr_quote(*img));
        }
    } else {
        assert(out@ =~= mid + image_ocr_quote(*img));
    }
}


/// The smallest page number among `images` that is at least `lo`.
fn min_page_at_least(images: &[ExtractedImage], lo: usize) -> (r: Option<usize>)
    ensures
        match r {
            Some(m) => min_page_from(images@, lo as int) == Some(m as int),
            None => min_page_from(images@, lo as int) is None,
        },
{
    let mut best: Option<usize> = None;
    let n = images.len();
    for i in 0..n
        invariant
            n == images@.len(),
            match best {
                Some(m) => min_page_from(images@.take(i as int), lo as int) == Some(m as int),
                None => min_page_from(images@.take(i as int), lo as int) is None,
            },
    {
        assert(images@.take(i + 1).drop_last() =~= images@.take(i as int));
        let k = match images[i].page_number {
            Some(p) => p,
            None => 0,
        };
        if k >= lo {
            best = match best {
                Some(m) => Some(if k < m { k } else { m }),
                None => Some(k),
            };
        }
    }
    assert(images@.take(n as int) =~= images@);
    best
}

/// Appends the placeholders of the images on page `page`, in order.
fn push_page_blocks(out: &mut Vec<char>, images: &[ExtractedImage], page: usize)
    ensures
        final(out)@ == old(out)@ + blocks_on_page(images@, page as int),
{
    let n = images.len();
    for i in 0..n
        invariant
            n == images@.len(),
            out@ == old(out)@ + blocks_on_page(images@.take(i as int), page as int),
    {
        assert(images@.take(i + 1).drop_last() =~= images@.take(i as int));
        let k = match images[i].page_number {
            Some(p) => p,
            None => 0,
        };
        let ghost before = out@;
        if k == page {
            push_image_block(out, &images[i]);
        }
        assert(out@ =~= old(out)@ + blocks_on_page(images@.take(i + 1), page as int));
    }
    assert(images@.take(n as int) =~= images@);
}

/// Inject image placeholders into markdown: after the text, one link per
/// image, pages in ascending order and images of a page in their order, each
/// followed by its OCR text when there is any.
pub fn inject_image_placeholders(markdown: &str, images: &[ExtractedImage]) -> (r: String)
    ensures
        r@ == markdown@ + image_placeholders(images@),
{
    let mut out = chars_of(markdown);
    if images.len() == 0 {
        assert(min_page_from(images@, 0) is None);
        return string_from_chars(out.as_slice());
    }
    let ghost imgs = images@;
    let mut lo: usize = 0;
    let mut done = false;
    while !done
        invariant
            imgs == images@,
            markdown@ + blocks_from(imgs, 0) == out@ + (if done {
                seq![]
            } else {
                blocks_from(imgs, lo as int)
            }),
        decreases (if done { 0 } else { count_from(imgs, lo as int) + 1 }),
    {
        match min_page_at_least(images, lo) {
            None => {
                assert(blocks_from(imgs, lo as int) =~= seq![]);
                assert(out@ + blocks_from(imgs, lo as int) =~= out@);
                done = true;
            },
            Some(m) => {
                proof {
                    lemma_min_page_progress(imgs, lo as int);
                }
                let ghost before = out@;
                assert(blocks_from(imgs, lo as int) == blocks_on_page(imgs, m as int) + blocks_from(
                    imgs,
                    m + 1,
                ));
                push_page_blocks(&mut out, images, m);
                assert(out@ + blocks_from(imgs, m + 1) =~= before + blocks_from(imgs, lo as int));
                if m == usize::MAX {
                    proof {
                        lemma_min_page_none_above(imgs, m + 1);
                        assert(blocks_from(imgs, m + 1) =~= seq![]);
                        assert(out@ + blocks_from(imgs, m + 1) =~= out@);
                    }
                    done = true;
                } else {
                    lo = m + 1;
                }
            },
        }
    }
    string_from_chars(out.as_slice())
}


/// Decoding of escaped text, read left to right: entities and (outside
/// URL mode) `\_` become the characters they stand for.
pub open spec fn unescape_seq(s: Seq<char>, url: bool) -> Seq<char>
    decreases s.len(),
{
    if s.len() == 0 {
        seq![]
    } else if s.len() >= 5 && s.take(5) == seq!['&', 'a', 'm', 'p', ';'] {
        seq!['&'] + unescape_seq(s.skip(5), url)
    } else if s.len() >= 4 && s.take(4) == seq!['&', 'l', 't', ';'] {
        seq!['<'] + unescape_seq(s.skip(4), url)
    } else if s.len() >= 4 && s.take(4) == seq!['&', 'g', 't', ';'] {
        seq!['>'] + unescape_seq(s.skip(4), url)
    } else if !url && s.len() >= 2 && s.take(2) == seq!['\\', '_'] {
        seq!['_'] + unescape_seq(s.skip(2), url)
    } else {
        seq![s[0]] + unescape_seq(s.drop_first(), url)
    }
}

/// Escaping a character in front of a text escapes it on its own.
pub proof fn lemma_escape_prepend(c: char, t: Seq<char>, url: bool)
    ensures
        escape_seq(seq![c] + t, url) == escape_char(c, url) + escape_seq(t, url),
    decreases t.len(),
{
    if t.len() == 0 {
        assert(seq![c] + t =~= seq![c]);
        assert(seq![c].drop_last() =~= Seq::<char>::empty());
        assert(seq![c].last() == c);
        assert(escape_seq(Seq::<char>::empty(), url) =~= Seq::<char>::empty());
        assert(escape_seq(seq![c], url) == escape_seq(seq![c].drop_last(), url) + escape_char(c, url));
        assert(escape_seq(seq![c], url) =~= escape_char(c, url));
        assert(escape_char(c, url) + escape_seq(t, url) =~= escape_char(c, url));
    } else {
        let u = seq![c] + t;
        assert(u.drop_last() =~= seq![c] + t.drop_last());
        assert(u.last() == t.last());
        lemma_escape_prepend(c, t.drop_last(), url);
        assert(escape_seq(u, url) =~= escape_char(c, url) + escape_seq(t, url));
    }
}

/// Outside URL mode, escaped text never starts with a bare `_`.
proof fn lemma_escape_first_not_underscore(t: Seq<char>)
    requires
        t.len() > 0,
    ensures
        escape_seq(t, false).len() > 0,
        escape_seq(t, false)[0] != '_',
{
    assert(seq![t[0]] + t.drop_first() =~= t);
    lemma_escape_prepend(t[0], t.drop_first(), false);
}

/// Escaping can be undone: decoding escaped text in the same URL mode gives
/// back the text that was escaped.
pub proof fn lemma_escape_roundtrip(s: Seq<char>, url: bool)
    ensures
        unescape_seq(escape_seq(s, url), url) == s,
    decreases s.len(),
{
    if s.len() > 0 {
        let c = s[0];
        let t = s.drop_first();
        assert(seq![c] + t =~= s);
        lemma_escape_prepend(c, t, url);
        lemma_escape_roundtrip(t, url);
        let e = escape_seq(t, url);
        let whole = escape_char(c, url) + e;
        if c == '&' {
            assert(whole.take(5) =~= seq!['&', 'a', 'm', 'p', ';']);
            assert(whole.skip(5) =~= e);
        } else if c == '<' {
            assert(whole.take(4) =~= seq!['&', 'l', 't', ';']);
            assert(whole.take(5) != seq!['&', 'a', 'm', 'p', ';'] || whole.len() < 5) by {
                if whole.len() >= 5 {
                    assert(whole.take(5)[1] == 'l');
                }
            }
            assert(whole.skip(4) =~= e);
        } else if c == '>' {
            assert(whole.take(4) =~= seq!['&', 'g', 't', ';']);
            assert(whole.take(5) != seq!['&', 'a', 'm', 'p', ';'] || whole.len() < 5) by {
                if whole.len() >= 5 {
                    assert(whole.take(5)[1] == 'g');
                }
            }
            assert(whole.take(4) != seq!['&', 'l', 't', ';']) by {
                assert(whole.take(4)[1] == 'g');
            }
            assert(whole.skip(4) =~= e);
        } else if c == '_' && !url {
            assert(whole.take(2) =~= seq!['\\', '_']);
            assert(whole.take(5) != seq!['&', 'a', 'm', 'p', ';'] || whole.len() < 5) by {
                if whole.len() >= 5 {
                    assert(whole.take(5)[0] == '\\');
                }
            }
            assert(whole.take(4) != seq!['&', 'l', 't', ';'] || whole.len() < 4) by {
                if whole.len() >= 4 {
                    assert(whole.take(4)[0] == '\\');
                }
            }
            assert(whole.take(4) != seq!['&', 'g', 't', ';'] || whole.len() < 4) by {
                if whole.len() >= 4 {
                    assert(whole.take(4)[0] == '\\');
                }
            }
            assert(whole.skip(2) =~= e);
        } else {
            assert(whole =~= seq![c] + e);
            assert(whole[0] == c);
            assert(whole.take(5) != seq!['&', 'a', 'm', 'p', ';'] || whole.len() < 5) by {
                if whole.len() >= 5 {
                    assert(whole.take(5)[0] == c);
                }
            }
            assert(whole.take(4) != seq!['&', 'l', 't', ';'] || whole.len() < 4) by {
                if whole.len() >= 4 {
                    assert(whole.take(4)[0] == c);
                }
            }
            assert(whole.take(4) != seq!['&', 'g', 't', ';'] || whole.len() < 4) by {
                if whole.len() >= 4 {
                    assert(whole.take(4)[0] == c);
                }
            }
            if !url && whole.len() >= 2 && c == '\\' {
                if t.len() > 0 {
                    lemma_escape_first_not_underscore(t);
                    assert(whole.take(2)[1] == e[0]);
                } else {
                    assert(e.len() == 0);
                }
            }
            if !url && whole.len() >= 2 && c != '\\' {
                assert(whole.take(2)[0] == c);
            }
            assert(whole.drop_first() =~= e);
        }
    }
}

/// Escaped text holds no raw `<` or `>`.
pub proof fn lemma_escaped_has_no_angle_brackets(s: Seq<char>, url: bool)
    ensures
        forall|i: int|
            0 <= i < escape_seq(s, url).len() ==> escape_seq(s, url)[i] != '<' && escape_seq(
                s,
                url,
            )[i] != '>',
    decreases s.len(),
{
    if s.len() > 0 {
        lemma_escaped_has_no_angle_brackets(s.drop_last(), url);
        let a = escape_seq(s.drop_last(), url);
        let b = escape_char(s.last(), url);
        assert forall|i: int| 0 <= i < (a + b).len() implies (a + b)[i] != '<' && (a + b)[i]
            != '>' by {
            if i >= a.len() {
                assert((a + b)[i] == b[i - a.len()]);
            }
        }
    }
}

/// Text with nothing to escape is left as it is.
pub proof fn lemma_escape_identity_when_clean(s: Seq<char>)
    requires
        !has_escapable(s),
    ensures
        escaped(s) == s,
{
    lemma_escape_identity(s, is_url_text(s));
}


proof fn lemma_leading_spaces_facts(s: Seq<char>)
    ensures
        leading_spaces(s) <= s.len(),
        forall|j: int| 0 <= j < leading_spaces(s) ==> s[j] == ' ',
        leading_spaces(s) < s.len() ==> s[leading_spaces(s) as int] != ' ',
    decreases s.len(),
{
    if s.len() > 0 && s[0] == ' ' {
        let t = s.drop_first();
        lemma_leading_spaces_facts(t);
        assert forall|j: int| 0 <= j < leading_spaces(s) implies s[j] == ' ' by {
            if j > 0 {
                assert(s[j] == t[j - 1]);
            }
        }
    }
}

proof fn lemma_leading_spaces_of(p: Seq<char>, r: Seq<char>)
    requires
        forall|j: int| 0 <= j < p.len() ==> p[j] == ' ',
        r.len() > 0 ==> r[0] != ' ',
    ensures
        leading_spaces(p + r) == p.len(),
    decreases p.len(),
{
    if p.len() > 0 {
        assert((p + r).drop_first() =~= p.drop_first() + r);
        lemma_leading_spaces_of(p.drop_first(), r);
    } else {
        assert(p + r =~= r);
    }
}

proof fn lemma_squeeze_ends(s: Seq<char>)
    requires
        s.len() > 0,
    ensures
        squeeze_spaces(s).len() > 0,
        squeeze_spaces(s)[0] == s[0],
        squeeze_spaces(s).last() == s.last(),
    decreases s.len(),
{
    if s.len() > 1 {
        lemma_squeeze_ends(s.drop_last());
    } else {
        assert(s.drop_last().len() == 0);
        assert(squeeze_spaces(s.drop_last()) =~= Seq::<char>::empty());
    }
}

proof fn lemma_squeeze_idempotent(s: Seq<char>)
    ensures
        squeeze_spaces(squeeze_spaces(s)) == squeeze_spaces(s),
    decreases s.len(),
{
    if s.len() > 0 {
        let a = squeeze_spaces(s.drop_last());
        lemma_squeeze_idempotent(s.drop_last());
        let x = s.last();
        if x == ' ' && s.len() >= 2 && s[s.len() - 2] == ' ' {
        } else {
            let b = a.push(x);
            assert(b.drop_last() =~= a);
            if s.len() >= 2 {
                lemma_squeeze_ends(s.drop_last());
                assert(a.last() == s[s.len() - 2]);
                assert(b[b.len() - 2] == a.last());
            }
        }
    }
}

/// Collapsing inner spaces is idempotent: a collapsed line is left as it is.
pub proof fn lemma_collapse_idempotent(s: Seq<char>)
    ensures
        collapsed(collapsed(s)) == collapsed(s),
{
    let k = leading_spaces(s) as int;
    lemma_leading_spaces_facts(s);
    let p = s.take(k);
    let rest = s.skip(k);
    let r = squeeze_spaces(rest);
    if rest.len() > 0 {
        lemma_squeeze_ends(rest);
        assert(rest[0] == s[k]);
    } else {
        assert(r =~= Seq::<char>::empty());
    }
    lemma_leading_spaces_of(p, r);
    let c = p + r;
    assert(c.take(k) =~= p);
    assert(c.skip(k) =~= r);
    lemma_squeeze_idempotent(rest);
}

/// No two spaces follow one another in `c` from position `k` on.
pub open spec fn single_spaced_from(c: Seq<char>, k: int) -> bool {
    forall|i: int| k <= i && i + 1 < c.len() ==> !(#[trigger] c[i] == ' ' && c[i + 1] == ' ')
}

proof fn lemma_squeeze_single_spaced(s: Seq<char>)
    ensures
        single_spaced_from(squeeze_spaces(s), 0),
    decreases s.len(),
{
    if s.len() > 0 {
        let a = squeeze_spaces(s.drop_last());
        lemma_squeeze_single_spaced(s.drop_last());
        let x = s.last();
        if !(x == ' ' && s.len() >= 2 && s[s.len() - 2] == ' ') {
            let b = a.push(x);
            if s.len() >= 2 {
                lemma_squeeze_ends(s.drop_last());
            }
            assert forall|i: int| 0 <= i && i + 1 < b.len() implies !(#[trigger] b[i] == ' ' && b[
                i + 1
            ] == ' ') by {
                if i + 1 < a.len() {
                    assert(b[i] == a[i] && b[i + 1] == a[i + 1]);
                } else {
                    assert(b[i] == a.last());
                }
            }
        }
    }
}

/// Collapsing keeps a code line's indentation and leaves no two spaces in a
/// row after it.
pub proof fn lemma_collapse_keeps_indent(s: Seq<char>)
    ensures
        leading_spaces(collapsed(s)) == leading_spaces(s),
        single_spaced_from(collapsed(s), leading_spaces(s) as int),
{
    let k = leading_spaces(s) as int;
    lemma_leading_spaces_facts(s);
    let p = s.take(k);
    let rest = s.skip(k);
    let r = squeeze_spaces(rest);
    if rest.len() > 0 {
        lemma_squeeze_ends(rest);
        assert(rest[0] == s[k]);
    } else {
        assert(r =~= Seq::<char>::empty());
    }
    lemma_leading_spaces_of(p, r);
    lemma_squeeze_single_spaced(rest);
    let c = p + r;
    assert forall|i: int| k <= i && i + 1 < c.len() implies !(#[trigger] c[i] == ' ' && c[i + 1]
        == ' ') by {
        assert(c[i] == r[i - k] && c[i + 1] == r[i - k + 1]);
    }
}

proof fn lemma_trim_start_shape(s: Seq<char>)
    ensures
        trim_start(s).len() > 0 ==> !crate::text::is_ws(trim_start(s)[0]),
        trim_start(trim_start(s)) == trim_start(s),
    decreases s.len(),
{
    if s.len() > 0 && crate::text::is_ws(s[0]) {
        lemma_trim_start_shape(s.drop_first());
    }
}

/// Normalising a list item twice changes nothing more than normalising it
/// once.
pub proof fn lemma_normalize_idempotent(s: Seq<char>)
    ensures
        normalized_list_item(normalized_list_item(s)) == normalized_list_item(s),
{
    let t = trim_start(s);
    lemma_trim_start_shape(s);
    let out = normalized_list_item(s);
    let dash = seq!['-', ' '];
    if t.len() > 0 && is_round_bullet(t[0]) {
        assert(out[0] == '-' && out[1] == ' ');
    } else if t.len() >= 2 && t[0] == '*' && t[1] == ' ' {
        assert(out[0] == '-' && out[1] == ' ');
    } else if t.len() >= 2 && t[0] == '-' && t[1] == ' ' {
        assert(out == t);
    } else if t.len() > 0 && is_dash_bullet(t[0]) {
        assert(out[0] == '-' && out[1] == ' ');
    } else if starts_numbered(t) {
        assert(out == t);
        lemma_leading_digits_facts(t);
        assert('0' <= t[0] && t[0] <= '9');
    } else {
        assert(out[0] == '-' && out[1] == ' ');
    }
    assert(out.len() > 0 && !crate::text::is_ws(out[0]));
    assert(trim_start(out) == out);
}

proof fn lemma_leading_digits_facts(s: Seq<char>)
    ensures
        leading_digits(s) > 0 ==> '0' <= s[0] && s[0] <= '9',
{
}

/// The nonempty lines of `ls`, in order.
pub open spec fn nonempty_lines(ls: Seq<Seq<char>>) -> Seq<Seq<char>>
    decreases ls.len(),
{
    if ls.len() == 0 {
        seq![]
    } else if ls.last().len() > 0 {
        nonempty_lines(ls.drop_last()).push(ls.last())
    } else {
        nonempty_lines(ls.drop_last())
    }
}

/// Empty lines do not affect how lines are joined.
pub proof fn lemma_join_lines_ignores_empty(ls: Seq<Seq<char>>)
    ensures
        join_lines(ls) == join_lines(nonempty_lines(ls)),
    decreases ls.len(),
{
    if ls.len() == 0 {
    } else if ls.len() == 1 {
        if ls[0].len() > 0 {
            assert(nonempty_lines(ls.drop_last()) =~= Seq::<Seq<char>>::empty());
            assert(nonempty_lines(ls) =~= seq![ls[0]]);
        } else {
            assert(nonempty_lines(ls.drop_last()) =~= Seq::<Seq<char>>::empty());
        }
    } else {
        lemma_join_lines_ignores_empty(ls.drop_last());
        let f = nonempty_lines(ls.drop_last());
        if ls.last().len() > 0 {
            let g = f.push(ls.last());
            assert(g.drop_last() =~= f);
            if f.len() == 0 {
                assert(join_lines(f) == Seq::<char>::empty());
            }
        }
    }
}


/// A list item renders as its list-prefix normalisation of what the same
/// paragraph renders to as body text: its inline bold and italic markup and
/// its escaping are kept.
pub proof fn lemma_list_item_keeps_inline_markup(p: PdfParagraph)
    requires
        p.heading_level is None,
        !p.is_code_block,
        !p.is_formula,
        p.is_list_item,
    ensures
        rendered_paragraph(p) == normalized_list_item(
            rendered_paragraph(
                PdfParagraph {
                    lines: p.lines,
                    heading_level: None,
                    is_list_item: false,
                    is_code_block: false,
                    is_formula: false,
                    layout_class: None,
                },
            ),
        ),
{
}

/// Japanese kana (Hiragana and Katakana, U+3040 to U+30FF) and CJK
/// ideographs (U+3400 to U+4DBF, U+4E00 to U+9FFF).
pub open spec fn is_kana_or_ideograph(c: char) -> bool {
    let u = c as u32;
    (0x3040 <= u && u <= 0x30FF) || (0x3400 <= u && u <= 0x4DBF) || (0x4E00 <= u && u <= 0x9FFF)
}

/// Two chunks meeting at kana or ideographs are joined with no space, as
/// words and as lines.
pub proof fn lemma_cjk_chunks_join_without_space(a: Seq<char>, b: Seq<char>)
    requires
        a.len() > 0,
        b.len() > 0,
        is_kana_or_ideograph(a.last()),
        is_kana_or_ideograph(b[0]),
    ensures
        join_words(seq![a, b]) == a + b,
        join_lines(seq![a, b]) == a + b,
{
    let ws = seq![a, b];
    assert(ws.len() == 2 && ws[0] == a && ws[1] == b && ws.last() == b);
    assert(ws.drop_last() =~= seq![a]);
    assert(join_words(seq![a]) == a);
    assert(join_lines(seq![a]) == a);
    assert(is_cjk(a.last()) && is_cjk(b[0]));
    assert(a.last() != '-');
    assert(!dehyphenates(a, b));
    assert(!space_between(a, b));
}

} // verus!
