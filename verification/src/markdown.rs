//! Clean-up of CommonMark text produced by the markdown renderer: comment
//! lines, numeric entities and needless escapes removed, blank-line runs
//! collapsed, an arXiv side-bar watermark stripped, and the text ended with
//! exactly one newline.

use vstd::prelude::*;
use vstd::string::*;
use crate::pipeline::{split_from, split_on};
use crate::text::{
    chars_of, contains_chars, is_ws, occurs_in, push_all, push_str_chars, string_from_chars, trim,
    trim_bounds, trim_end, trim_end_index, trim_start, trim_start_index,
};

verus! {

/// `s` with every occurrence of `pat` (scanned left to right, without
/// overlap) replaced by `rep` (`str::replace`).
pub open spec fn replace_all(s: Seq<char>, pat: Seq<char>, rep: Seq<char>) -> Seq<char>
    decreases s.len(),
{
    if s.len() == 0 {
        seq![]
    } else if pat.len() > 0 && pat.len() <= s.len() && s.take(pat.len() as int) == pat {
        rep + replace_all(s.skip(pat.len() as int), pat, rep)
    } else {
        seq![s[0]] + replace_all(s.drop_first(), pat, rep)
    }
}

/// `s` with its first occurrence of `pat` replaced by `rep`
/// (`str::replacen(.., 1)`).
pub open spec fn replace_first(s: Seq<char>, pat: Seq<char>, rep: Seq<char>) -> Seq<char>
    decreases s.len(),
{
    if s.len() == 0 {
        seq![]
    } else if pat.len() > 0 && pat.len() <= s.len() && s.take(pat.len() as int) == pat {
        rep + s.skip(pat.len() as int)
    } else {
        seq![s[0]] + replace_first(s.drop_first(), pat, rep)
    }
}

/// A line piece without its trailing carriage return.
pub open spec fn strip_cr(l: Seq<char>) -> Seq<char> {
    if l.len() > 0 && l.last() == '\r' {
        l.drop_last()
    } else {
        l
    }
}

/// The lines of `s` (`str::lines`): split at `\n`, a `\r` before a `\n`
/// dropped, no empty line after a final newline.
pub open spec fn lines_of(s: Seq<char>) -> Seq<Seq<char>> {
    let ps = split_from(s, seq!['\n'], seq![]);
    let body = Seq::new((ps.len() - 1) as nat, |i: int| strip_cr(ps[i]));
    if ps.last().len() > 0 {
        body.push(ps.last())
    } else {
        body
    }
}

/// Lines joined with `\n`.
pub open spec fn join_nl(ls: Seq<Seq<char>>) -> Seq<char>
    decreases ls.len(),
{
    if ls.len() == 0 {
        seq![]
    } else if ls.len() == 1 {
        ls[0]
    } else {
        join_nl(ls.drop_last()) + seq!['\n'] + ls.last()
    }
}

/// Whether a line is an HTML comment on its own.
pub open spec fn is_comment_line(l: Seq<char>) -> bool {
    let t = trim(l);
    t.len() >= 4 && t.take(4) == seq!['<', '!', '-', '-'] && t.len() >= 3 && t.skip(t.len() - 3)
        == seq!['-', '-', '>']
}

/// Lines that are not comment lines.
pub open spec fn without_comments(ls: Seq<Seq<char>>) -> Seq<Seq<char>>
    decreases ls.len(),
{
    if ls.len() == 0 {
        seq![]
    } else {
        without_comments(ls.drop_last()) + (if is_comment_line(ls.last()) {
            seq![]
        } else {
            seq![ls.last()]
        })
    }
}

/// Whether `t` starts with `p`.
pub open spec fn starts_with(t: Seq<char>, p: Seq<char>) -> bool {
    p.len() <= t.len() && t.take(p.len() as int) == p
}

/// A line whose escaped list marker (`\* `, `\#.`, `\#\.`) is unescaped.
pub open spec fn unescaped_marker_line(l: Seq<char>) -> Seq<char> {
    let t = trim_start(l);
    if starts_with(t, seq!['\\', '*', ' ']) || starts_with(t, seq!['\\', '#', '.']) || starts_with(
        t,
        seq!['\\', '#', '\\', '.'],
    ) {
        replace_first(replace_first(l, seq!['\\', '*'], seq!['*']), seq!['\\', '#'], seq!['#'])
    } else {
        l
    }
}

/// Lines with escaped list markers unescaped.
pub open spec fn unescape_markers(ls: Seq<Seq<char>>) -> Seq<Seq<char>>
    decreases ls.len(),
{
    if ls.len() == 0 {
        seq![]
    } else {
        unescape_markers(ls.drop_last()).push(unescaped_marker_line(ls.last()))
    }
}

/// `s` with every run of three or more newlines cut to two.
pub open spec fn squeeze_blank_lines(s: Seq<char>) -> Seq<char>
    decreases s.len(),
{
    if s.len() == 0 {
        seq![]
    } else {
        let acc = squeeze_blank_lines(s.drop_last());
        if s.last() == '\n' && acc.len() >= 2 && acc.last() == '\n' && acc[acc.len() - 2] == '\n' {
            acc
        } else {
            acc.push(s.last())
        }
    }
}


/// `s` with every occurrence of `pat` replaced by `rep`.
pub fn replace_all_chars(v: &[char], pat: &[char], rep: &[char]) -> (r: Vec<char>)
    ensures
        r@ == replace_all(v@, pat@, rep@),
{
    let n = v.len();
    let m = pat.len();
    let mut out: Vec<char> = Vec::new();
    let mut i: usize = 0;
    assert(v@.skip(0) =~= v@);
    while i < n
        invariant
            i <= n == v@.len(),
            m == pat@.len(),
            replace_all(v@, pat@, rep@) == out@ + replace_all(v@.skip(i as int), pat@, rep@),
        decreases n - i,
    {
        let ghost rest = v@.skip(i as int);
        let ghost before = out@;
        if m > 0 && prefix_at(v, pat, i) {
            assert(rest.skip(m as int) =~= v@.skip(i + m));
            push_all(&mut out, rep);
            assert(before + (rep@ + replace_all(rest.skip(m as int), pat@, rep@)) =~= out@
                + replace_all(rest.skip(m as int), pat@, rep@));
            i = i + m;
        } else {
            assert(rest.drop_first() =~= v@.skip(i + 1));
            out.push(v[i]);
            assert(before + (seq![rest[0]] + replace_all(rest.drop_first(), pat@, rep@)) =~= out@
                + replace_all(rest.drop_first(), pat@, rep@));
            i = i + 1;
        }
    }
    assert(v@.skip(i as int) =~= seq![]);
    assert(out@ + seq![] =~= out@);
    out
}

/// `s` with its first occurrence of `pat` replaced by `rep`.
pub fn replace_first_chars(v: &[char], pat: &[char], rep: &[char]) -> (r: Vec<char>)
    ensures
        r@ == replace_first(v@, pat@, rep@),
{
    let n = v.len();
    let m = pat.len();
    let mut out: Vec<char> = Vec::new();
    let mut i: usize = 0;
    assert(v@.skip(0) =~= v@);
    while i < n
        invariant
            i <= n == v@.len(),
            m == pat@.len(),
            replace_first(v@, pat@, rep@) == out@ + replace_first(v@.skip(i as int), pat@, rep@),
        decreases n - i,
    {
        let ghost rest = v@.skip(i as int);
        let ghost before = out@;
        if m > 0 && prefix_at(v, pat, i) {
            push_all(&mut out, rep);
            push_all(&mut out, &v[i + m..n]);
            assert(rest.skip(m as int) =~= v@.subrange(i + m, n as int));
            assert(out@ =~= before + (rep@ + rest.skip(m as int)));
            return out;
        }
        assert(rest.drop_first() =~= v@.skip(i + 1));
        out.push(v[i]);
        assert(before + (seq![rest[0]] + replace_first(rest.drop_first(), pat@, rep@)) =~= out@
            + replace_first(rest.drop_first(), pat@, rep@));
        i = i + 1;
    }
    assert(v@.skip(i as int) =~= seq![]);
    assert(out@ + seq![] =~= out@);
    out
}

/// Whether `pat` occurs in `v` at position `i`.
fn prefix_at(v: &[char], pat: &[char], i: usize) -> (r: bool)
    requires
        i <= v@.len(),
    ensures
        r == (pat@.len() <= v@.len() - i && v@.skip(i as int).take(pat@.len() as int) == pat@),
{
    let n = v.len();
    let m = pat.len();
    if m > n - i {
        return false;
    }
    let mut j: usize = 0;
    while j < m
        invariant
            n == v@.len(),
            m == pat@.len(),
            i + m <= n,
            j <= m,
            forall|t: int| 0 <= t < j ==> v@[i + t] == pat@[t],
        decreases m - j,
    {
        if v[i + j] != pat[j] {
            assert(v@.skip(i as int).take(m as int)[j as int] != pat@[j as int]);
            return false;
        }
        j = j + 1;
    }
    assert(v@.skip(i as int).take(m as int) =~= pat@);
    true
}

/// The lines of `v` (`str::lines`).
pub fn lines_exec(v: &[char]) -> (r: Vec<Vec<char>>)
    ensures
        r@.map_values(|w: Vec<char>| w@) == lines_of(v@),
{
    let nl = vec!['\n'];
    assert(nl@ =~= seq!['\n']);
    let ps = split_on(v, nl.as_slice());
    let ghost pv = ps@.map_values(|w: Vec<char>| w@);
    proof {
        lemma_split_nonempty(v@, seq!['\n'], seq![]);
    }
    let k = ps.len();
    let mut out: Vec<Vec<char>> = Vec::new();
    for i in 0..k - 1
        invariant
            k == ps@.len() == pv.len(),
            k >= 1,
            pv == ps@.map_values(|w: Vec<char>| w@),
            out@.map_values(|w: Vec<char>| w@) == Seq::new(i as nat, |j: int| strip_cr(pv[j])),
    {
        let p = &ps[i];
        assert(pv[i as int] == p@);
        let mut line: Vec<char> = Vec::new();
        if p.len() > 0 && p[p.len() - 1] == '\r' {
            push_all(&mut line, &p[0..p.len() - 1]);
            assert(line@ =~= p@.drop_last());
        } else {
            push_all(&mut line, p.as_slice());
        }
        assert(line@ == strip_cr(pv[i as int]));
        let ghost prev = out@;
        let ghost lv = line@;
        out.push(line);
        assert(out@.map_values(|w: Vec<char>| w@) =~= prev.map_values(|w: Vec<char>| w@).push(lv));
        assert(out@.map_values(|w: Vec<char>| w@) =~= Seq::new((i + 1) as nat, |j: int| strip_cr(pv[j])));
    }
    let last = &ps[k - 1];
    assert(pv.last() == last@);
    if last.len() > 0 {
        let mut line: Vec<char> = Vec::new();
        push_all(&mut line, last.as_slice());
        let ghost prev = out@;
        let ghost lv = line@;
        out.push(line);
        assert(out@.map_values(|w: Vec<char>| w@) =~= prev.map_values(|w: Vec<char>| w@).push(lv));
    }
    out
}

/// `split_from` always yields at least one piece.
pub proof fn lemma_split_nonempty(s: Seq<char>, sep: Seq<char>, cur: Seq<char>)
    ensures
        split_from(s, sep, cur).len() >= 1,
    decreases s.len(),
{
    if s.len() == 0 {
    } else if sep.len() > 0 && sep.len() <= s.len() && s.take(sep.len() as int) == sep {
        lemma_split_nonempty(s.skip(sep.len() as int), sep, seq![]);
    } else {
        lemma_split_nonempty(s.drop_first(), sep, cur.push(s[0]));
    }
}

/// Lines joined with `\n`.
pub fn join_nl_exec(ls: &[Vec<char>]) -> (r: Vec<char>)
    ensures
        r@ == join_nl(ls@.map_values(|w: Vec<char>| w@)),
{
    let ghost lv = ls@.map_values(|w: Vec<char>| w@);
    let mut out: Vec<char> = Vec::new();
    let n = ls.len();
    for i in 0..n
        invariant
            n == ls@.len() == lv.len(),
            lv == ls@.map_values(|w: Vec<char>| w@),
            out@ == join_nl(lv.take(i as int)),
    {
        assert(lv.take(i + 1).drop_last() =~= lv.take(i as int));
        assert(lv[i as int] == ls@[i as int]@);
        if i > 0 {
            out.push('\n');
        }
        push_all(&mut out, ls[i].as_slice());
        assert(out@ =~= join_nl(lv.take(i + 1)));
    }
    assert(lv.take(n as int) =~= lv);
    out
}


/// Lines without the comment lines.
fn drop_comment_lines(ls: &[Vec<char>]) -> (r: Vec<Vec<char>>)
    ensures
        r@.map_values(|w: Vec<char>| w@) == without_comments(ls@.map_values(|w: Vec<char>| w@)),
{
    let ghost lv = ls@.map_values(|w: Vec<char>| w@);
    let mut out: Vec<Vec<char>> = Vec::new();
    let n = ls.len();
    let open = vec!['<', '!', '-', '-'];
    let close = vec!['-', '-', '>'];
    assert(open@ =~= seq!['<', '!', '-', '-']);
    assert(close@ =~= seq!['-', '-', '>']);
    for i in 0..n
        invariant
            n == ls@.len() == lv.len(),
            lv == ls@.map_values(|w: Vec<char>| w@),
            open@ == seq!['<', '!', '-', '-'],
            close@ == seq!['-', '-', '>'],
            out@.map_values(|w: Vec<char>| w@) == without_comments(lv.take(i as int)),
    {
        assert(lv.take(i + 1).drop_last() =~= lv.take(i as int));
        let l = &ls[i];
        assert(lv[i as int] == l@);
        let (a, b) = trim_bounds(l.as_slice(), 0, l.len());
        assert(l@.subrange(0, l@.len() as int) =~= l@);
        let ghost t = l@.subrange(a as int, b as int);
        let is_comment = b - a >= 4 && prefix_at(l.as_slice(), open.as_slice(), a) && prefix_at(
            l.as_slice(),
            close.as_slice(),
            b - 3,
        );
        proof {
            if b - a >= 4 {
                assert(l@.skip(a as int).take(4) =~= t.take(4));
                assert(l@.skip(b - 3).take(3) =~= t.skip(t.len() - 3));
            }
        }
        assert(is_comment == is_comment_line(l@));
        if !is_comment {
            let ghost prev = out@;
            out.push(l.clone());
            assert(out@.map_values(|w: Vec<char>| w@) =~= prev.map_values(|w: Vec<char>| w@).push(
                l@,
            ));
        } else {
            assert(without_comments(lv.take(i + 1)) =~= without_comments(lv.take(i as int)));
        }
    }
    assert(lv.take(n as int) =~= lv);
    out
}

/// Lines with escaped list markers unescaped.
fn unescape_marker_lines(ls: &[Vec<char>]) -> (r: Vec<Vec<char>>)
    ensures
        r@.map_values(|w: Vec<char>| w@) == unescape_markers(ls@.map_values(|w: Vec<char>| w@)),
{
    let ghost lv = ls@.map_values(|w: Vec<char>| w@);
    let mut out: Vec<Vec<char>> = Vec::new();
    let n = ls.len();
    let star = vec!['\\', '*', ' '];
    let hash_dot = vec!['\\', '#', '.'];
    let hash_esc_dot = vec!['\\', '#', '\\', '.'];
    let esc_star = vec!['\\', '*'];
    let plain_star = vec!['*'];
    let esc_hash = vec!['\\', '#'];
    let plain_hash = vec!['#'];
    for i in 0..n
        invariant
            n == ls@.len() == lv.len(),
            lv == ls@.map_values(|w: Vec<char>| w@),
            star@ == seq!['\\', '*', ' '],
            hash_dot@ == seq!['\\', '#', '.'],
            hash_esc_dot@ == seq!['\\', '#', '\\', '.'],
            esc_star@ == seq!['\\', '*'],
            plain_star@ == seq!['*'],
            esc_hash@ == seq!['\\', '#'],
            plain_hash@ == seq!['#'],
            out@.map_values(|w: Vec<char>| w@) == unescape_markers(lv.take(i as int)),
    {
        assert(lv.take(i + 1).drop_last() =~= lv.take(i as int));
        let l = &ls[i];
        assert(lv[i as int] == l@);
        let a = trim_start_index(l.as_slice(), 0, l.len());
        assert(l@.subrange(0, l@.len() as int) =~= l@);
        let ghost t = l@.subrange(a as int, l@.len() as int);
        assert(l@.skip(a as int) =~= t);
        let hit = prefix_at(l.as_slice(), star.as_slice(), a) || prefix_at(
            l.as_slice(),
            hash_dot.as_slice(),
            a,
        ) || prefix_at(l.as_slice(), hash_esc_dot.as_slice(), a);
        let line = if hit {
            let once = replace_first_chars(l.as_slice(), esc_star.as_slice(), plain_star.as_slice());
            replace_first_chars(once.as_slice(), esc_hash.as_slice(), plain_hash.as_slice())
        } else {
            l.clone()
        };
        assert(line@ == unescaped_marker_line(l@));
        let ghost prev = out@;
        let ghost lv2 = line@;
        out.push(line);
        assert(out@.map_values(|w: Vec<char>| w@) =~= prev.map_values(|w: Vec<char>| w@).push(lv2));
    }
    assert(lv.take(n as int) =~= lv);
    out
}

/// Runs of three or more newlines cut to two.
pub fn squeeze_blank_lines_exec(v: &[char]) -> (r: Vec<char>)
    ensures
        r@ == squeeze_blank_lines(v@),
{
    let mut out: Vec<char> = Vec::new();
    let n = v.len();
    for i in 0..n
        invariant
            n == v@.len(),
            out@ == squeeze_blank_lines(v@.take(i as int)),
    {
        assert(v@.take(i + 1).drop_last() =~= v@.take(i as int));
        let k = out.len();
        if !(v[i] == '\n' && k >= 2 && out[k - 1] == '\n' && out[k - 2] == '\n') {
            out.push(v[i]);
        }
        assert(out@ =~= squeeze_blank_lines(v@.take(i + 1)));
    }
    assert(v@.take(n as int) =~= v@);
    out
}

/// Bytes of the UTF-8 encoding of `c` (`char::len_utf8`).
pub open spec fn utf8_len(c: char) -> nat {
    let u = c as u32;
    if u < 0x80 {
        1
    } else if u < 0x800 {
        2
    } else if u < 0x10000 {
        3
    } else {
        4
    }
}

/// Number of leading characters of `s` whose UTF-8 encoding fits in
/// `budget` bytes (the character prefix ending at
/// `floor_char_boundary(budget)`).
pub open spec fn prefix_within(s: Seq<char>, budget: int) -> nat
    decreases s.len(),
{
    if s.len() > 0 && utf8_len(s[0]) <= budget {
        1 + prefix_within(s.drop_first(), budget - utf8_len(s[0]))
    } else {
        0
    }
}

/// The match of the arXiv side-bar pattern
/// `(?:\s+\S+(?:\s+\S+){0,8})?\s*arXiv:\d{4}\.\d{4,5}(?:v\d+)?(?:\s*\[[\w.-]+\])?\s*(?:\d{1,2}\s+\w+\s+\d{4})?`
/// that the `regex` crate finds first in `area`, as character offsets.
pub uninterp spec fn arxiv_watermark_match(area: Seq<char>) -> Option<(int, int)>;

/// Whether `s` holds the tag `arXiv:`.
pub open spec fn has_arxiv_tag(s: Seq<char>) -> bool {
    exists|k: int|
        0 <= k && k + 6 <= s.len() && #[trigger] s.subrange(k, k + 6) == seq![
            'a',
            'r',
            'X',
            'i',
            'v',
            ':',
        ]
}

/// Calls `regex::Regex::find` with the arXiv watermark pattern; the match
/// offsets are handed back as character positions. The contract names the
/// match and states what the crate's documentation and the pattern give of
/// it: it lies inside the haystack; it holds the literal `arXiv:`, so it is
/// not empty; and, matches being leftmost and every match being able to
/// grow by one whitespace character on the left (through the leading `\s+`
/// or `\s*`), no whitespace precedes it. Which text matches is not stated.
#[verifier::external_body]
fn find_arxiv_watermark(area: &str) -> (r: Option<(usize, usize)>)
    ensures
        match r {
            Some((a, b)) => {
                &&& arxiv_watermark_match(area@) == Some((a as int, b as int))
                &&& a < b <= area@.len()
                &&& has_arxiv_tag(area@.subrange(a as int, b as int))
                &&& (a == 0 || !is_ws(area@[a - 1]))
            },
            None => arxiv_watermark_match(area@) is None,
        },
{
    let re = regex::Regex::new(
        r"(?:\s+\S+(?:\s+\S+){0,8})?\s*arXiv:\d{4}\.\d{4,5}(?:v\d+)?(?:\s*\[[\w.-]+\])?\s*(?:\d{1,2}\s+\w+\s+\d{4})?",
    ).expect("valid regex");
    re.find(area).map(|m| (area[..m.start()].chars().count(), area[..m.end()].chars().count()))
}

/// `s` with the arXiv watermark removed when it is found within the first
/// 6000 bytes and sits at a paragraph boundary (after a `.` or before a
/// newline).
pub open spec fn stripped_watermark(s: Seq<char>) -> Seq<char> {
    let area = s.take(prefix_within(s, 6000) as int);
    match arxiv_watermark_match(area) {
        Some((a, b)) => {
            let after_dot = a > 0 && area[a - 1] == '.';
            let before_nl = b < area.len() && area[b] == '\n';
            if after_dot || before_nl {
                s.take(a) + s.skip(b)
            } else {
                s
            }
        },
        None => s,
    }
}

/// Number of leading characters of `v` that fit in `budget` UTF-8 bytes.
fn chars_within(v: &[char], budget: usize) -> (k: usize)
    ensures
        k == prefix_within(v@, budget as int),
        k <= v@.len(),
{
    let n = v.len();
    let mut k: usize = 0;
    let mut left: usize = budget;
    assert(v@.skip(0) =~= v@);
    while k < n
        invariant
            k <= n == v@.len(),
            left <= budget,
            prefix_within(v@, budget as int) == k + prefix_within(v@.skip(k as int), left as int),
        decreases n - k,
    {
        let u = v[k] as u32;
        let w: usize = if u < 0x80 {
            1
        } else if u < 0x800 {
            2
        } else if u < 0x10000 {
            3
        } else {
            4
        };
        assert(w == utf8_len(v@[k as int]));
        if w > left {
            return k;
        }
        assert(v@.skip(k as int).drop_first() =~= v@.skip(k + 1));
        left = left - w;
        k = k + 1;
    }
    k
}

/// Strip an arXiv watermark ("Title N arXiv:NNNN.NNNNNvN [cat.SC] DD Mon
/// YYYY") from rendered markdown.
pub fn strip_arxiv_watermark_noise(text: String) -> (r: String)
    ensures
        r@ == stripped_watermark(text@),
        r@ == text@ || exists|a: int, b: int|
            #![trigger text@.take(a), text@.skip(b)]
            0 <= a < b <= prefix_within(text@, 6000) && r@ == text@.take(a) + text@.skip(b)
                && has_arxiv_tag(text@.subrange(a, b)) && (a == 0 || !is_ws(text@[a - 1])),
{
    let v = chars_of(text.as_str());
    let k = chars_within(v.as_slice(), 6000);
    let area = text.as_str().substring_char(0, k);
    let ghost av = v@.take(k as int);
    assert(area@ =~= av);
    match find_arxiv_watermark(area) {
        Some((a, b)) => {
            let after_dot = a > 0 && v[a - 1] == '.';
            let before_nl = b < k && v[b] == '\n';
            if after_dot || before_nl {
                let mut out: Vec<char> = Vec::new();
                push_all(&mut out, &v[0..a]);
                push_all(&mut out, &v[b..v.len()]);
                assert(out@ =~= v@.take(a as int) + v@.skip(b as int));
                assert(av.subrange(a as int, b as int) =~= v@.subrange(a as int, b as int));
                assert(a > 0 ==> av[a - 1] == v@[a - 1]);
                let r = string_from_chars(out.as_slice());
                assert(r@ == text@.take(a as int) + text@.skip(b as int));
                r
            } else {
                text
            }
        },
        None => text,
    }
}

/// CommonMark output with comment lines dropped (only when the text holds
/// a comment opener).
pub open spec fn uncommented(s: Seq<char>) -> Seq<char> {
    if occurs_in(s, seq!['<', '!', '-', '-']) {
        join_nl(without_comments(lines_of(s)))
    } else {
        s
    }
}

/// Numeric line-feed entities turned into spaces, `&#2;` dropped.
pub open spec fn entities_fixed(s: Seq<char>) -> Seq<char> {
    replace_all(
        replace_all(s, seq!['&', '#', '1', '0', ';'], seq![' ']),
        seq!['&', '#', '2', ';'],
        seq![],
    )
}

/// Escaped brackets and parentheses unescaped.
pub open spec fn brackets_unescaped(s: Seq<char>) -> Seq<char> {
    replace_all(
        replace_all(
            replace_all(replace_all(s, seq!['\\', '['], seq!['[']), seq!['\\', ']'], seq![']']),
            seq!['\\', '('],
            seq!['('],
        ),
        seq!['\\', ')'],
        seq![')'],
    )
}

/// Escaped list markers unescaped line by line (only when the text holds
/// an escaped `*` or `#`).
pub open spec fn markers_fixed(s: Seq<char>) -> Seq<char> {
    if occurs_in(s, seq!['\\', '*']) || occurs_in(s, seq!['\\', '#']) {
        join_nl(unescape_markers(lines_of(s)))
    } else {
        s
    }
}

/// Text ended with exactly one newline, or empty when it is all
/// whitespace.
pub open spec fn with_final_newline(s: Seq<char>) -> Seq<char> {
    let t = trim_end(s);
    if t.len() == 0 {
        seq![]
    } else {
        t.push('\n')
    }
}

/// The full clean-up of renderer output.
pub open spec fn cleaned_markdown(raw: Seq<char>) -> Seq<char> {
    let a = uncommented(raw);
    let b = entities_fixed(a);
    let c = replace_all(b, seq!['\\', '_'], seq!['_']);
    let d = brackets_unescaped(c);
    let e = markers_fixed(d);
    let f = squeeze_blank_lines(e);
    with_final_newline(stripped_watermark(f))
}

/// Clean up the CommonMark text produced by the markdown renderer.
pub fn finish_markdown_output(raw: &str) -> (r: String)
    ensures
        r@ == cleaned_markdown(raw@),
        has_no_triple_newline(r@),
{
    let v = chars_of(raw);
    let open = vec!['<', '!', '-', '-'];
    assert(open@ =~= seq!['<', '!', '-', '-']);
    let a = if contains_chars(v.as_slice(), open.as_slice()) {
        let ls = lines_exec(v.as_slice());
        let kept = drop_comment_lines(ls.as_slice());
        join_nl_exec(kept.as_slice())
    } else {
        v
    };
    let e10 = vec!['&', '#', '1', '0', ';'];
    let sp = vec![' '];
    let e2 = vec!['&', '#', '2', ';'];
    let nothing: Vec<char> = Vec::new();
    assert(e10@ =~= seq!['&', '#', '1', '0', ';']);
    assert(sp@ =~= seq![' ']);
    assert(e2@ =~= seq!['&', '#', '2', ';']);
    assert(nothing@ =~= seq![]);
    let b1 = replace_all_chars(a.as_slice(), e10.as_slice(), sp.as_slice());
    let b = replace_all_chars(b1.as_slice(), e2.as_slice(), nothing.as_slice());
    let us = vec!['\\', '_'];
    let u = vec!['_'];
    assert(us@ =~= seq!['\\', '_']);
    assert(u@ =~= seq!['_']);
    let c = replace_all_chars(b.as_slice(), us.as_slice(), u.as_slice());
    let p1 = vec!['\\', '['];
    let q1 = vec!['['];
    let p2 = vec!['\\', ']'];
    let q2 = vec![']'];
    let p3 = vec!['\\', '('];
    let q3 = vec!['('];
    let p4 = vec!['\\', ')'];
    let q4 = vec![')'];
    assert(p1@ =~= seq!['\\', '[']);
    assert(q1@ =~= seq!['[']);
    assert(p2@ =~= seq!['\\', ']']);
    assert(q2@ =~= seq![']']);
    assert(p3@ =~= seq!['\\', '(']);
    assert(q3@ =~= seq!['(']);
    assert(p4@ =~= seq!['\\', ')']);
    assert(q4@ =~= seq![')']);
    let d1 = replace_all_chars(c.as_slice(), p1.as_slice(), q1.as_slice());
    let d2 = replace_all_chars(d1.as_slice(), p2.as_slice(), q2.as_slice());
    let d3 = replace_all_chars(d2.as_slice(), p3.as_slice(), q3.as_slice());
    let d = replace_all_chars(d3.as_slice(), p4.as_slice(), q4.as_slice());
    let es = vec!['\\', '*'];
    let eh = vec!['\\', '#'];
    assert(es@ =~= seq!['\\', '*']);
    assert(eh@ =~= seq!['\\', '#']);
    let e = if contains_chars(d.as_slice(), es.as_slice()) || contains_chars(
        d.as_slice(),
        eh.as_slice(),
    ) {
        let ls = lines_exec(d.as_slice());
        let fixed = unescape_marker_lines(ls.as_slice());
        join_nl_exec(fixed.as_slice())
    } else {
        d
    };
    let f = squeeze_blank_lines_exec(e.as_slice());
    let fs = string_from_chars(f.as_slice());
    let ghost fv = fs@;
    let g = strip_arxiv_watermark_noise(fs);
    proof {
        lemma_squeezed_has_no_triple_newline(e@);
        if g@ != fv {
            let (a, b) = choose|a: int, b: int|
                #![trigger fv.take(a), fv.skip(b)]
                0 <= a < b <= prefix_within(fv, 6000) && g@ == fv.take(a) + fv.skip(b)
                    && has_arxiv_tag(fv.subrange(a, b)) && (a == 0 || !is_ws(fv[a - 1]));
            lemma_prefix_within_bound(fv, 6000);
            lemma_cut_keeps_no_triple_newline(fv, a, b);
        }
        lemma_final_newline_keeps_no_triple_newline(g@);
    }
    let gv = chars_of(g.as_str());
    let end = trim_end_index(gv.as_slice(), 0, gv.len());
    assert(gv@.subrange(0, gv@.len() as int) =~= gv@);
    if end == 0 {
        return String::new();
    }
    let mut out: Vec<char> = Vec::new();
    push_all(&mut out, &gv[0..end]);
    out.push('\n');
    string_from_chars(out.as_slice())
}


/// No three newlines follow one another at position `i` of `s`.
pub open spec fn no_triple_newline_at(s: Seq<char>, i: int) -> bool {
    !(s[i] == '\n' && s[i + 1] == '\n' && s[i + 2] == '\n')
}

/// Whether `s` holds no run of three newlines.
pub open spec fn has_no_triple_newline(s: Seq<char>) -> bool {
    forall|i: int| 0 <= i && i + 2 < s.len() ==> #[trigger] no_triple_newline_at(s, i)
}

/// After squeezing, no run of three newlines is left.
pub proof fn lemma_squeezed_has_no_triple_newline(s: Seq<char>)
    ensures
        has_no_triple_newline(squeeze_blank_lines(s)),
    decreases s.len(),
{
    if s.len() > 0 {
        lemma_squeezed_has_no_triple_newline(s.drop_last());
        let acc = squeeze_blank_lines(s.drop_last());
        let r = squeeze_blank_lines(s);
        if !(s.last() == '\n' && acc.len() >= 2 && acc.last() == '\n' && acc[acc.len() - 2]
            == '\n') {
            assert forall|i: int| 0 <= i && i + 2 < r.len() implies #[trigger] no_triple_newline_at(
                r,
                i,
            ) by {
                if i + 3 < r.len() {
                    assert(no_triple_newline_at(acc, i));
                }
            }
        }
    }
}

/// Text without a run of three newlines is left as it is.
pub proof fn lemma_squeeze_keeps_clean_text(t: Seq<char>)
    requires
        has_no_triple_newline(t),
    ensures
        squeeze_blank_lines(t) == t,
    decreases t.len(),
{
    if t.len() > 0 {
        let d = t.drop_last();
        assert forall|i: int| 0 <= i && i + 2 < d.len() implies #[trigger] no_triple_newline_at(
            d,
            i,
        ) by {
            assert(no_triple_newline_at(t, i));
        }
        lemma_squeeze_keeps_clean_text(d);
        if t.len() >= 3 {
            assert(no_triple_newline_at(t, t.len() - 3));
        }
        assert(d.push(t.last()) =~= t);
    }
}

/// Squeezing blank-line runs twice gives what squeezing once gives.
pub proof fn lemma_squeeze_blank_lines_idempotent(s: Seq<char>)
    ensures
        squeeze_blank_lines(squeeze_blank_lines(s)) == squeeze_blank_lines(s),
{
    lemma_squeezed_has_no_triple_newline(s);
    lemma_squeeze_keeps_clean_text(squeeze_blank_lines(s));
}

proof fn lemma_prefix_within_bound(s: Seq<char>, budget: int)
    ensures
        prefix_within(s, budget) <= s.len(),
    decreases s.len(),
{
    if s.len() > 0 && utf8_len(s[0]) <= budget {
        lemma_prefix_within_bound(s.drop_first(), budget - utf8_len(s[0]));
    }
}

/// Cutting out a span that follows no newline leaves no run of three
/// newlines in text that had none.
pub proof fn lemma_cut_keeps_no_triple_newline(f: Seq<char>, a: int, b: int)
    requires
        has_no_triple_newline(f),
        0 <= a <= b <= f.len(),
        a == 0 || f[a - 1] != '\n',
    ensures
        has_no_triple_newline(f.take(a) + f.skip(b)),
{
    let g = f.take(a) + f.skip(b);
    assert forall|i: int| 0 <= i && i + 2 < g.len() implies #[trigger] no_triple_newline_at(g, i) by {
        if i + 2 < a {
            assert(no_triple_newline_at(f, i));
        } else if i >= a {
            assert(no_triple_newline_at(f, i - a + b));
            assert(g[i] == f[i - a + b] && g[i + 1] == f[i - a + b + 1] && g[i + 2] == f[i - a + b + 2]);
        } else {
            assert(g[a - 1] == f[a - 1]);
        }
    }
}

proof fn lemma_trim_end_is_prefix(s: Seq<char>)
    ensures
        trim_end(s).len() <= s.len(),
        trim_end(s) == s.take(trim_end(s).len() as int),
    decreases s.len(),
{
    if s.len() > 0 && is_ws(s.last()) {
        lemma_trim_end_is_prefix(s.drop_last());
        assert(s.drop_last().take(trim_end(s).len() as int) =~= s.take(trim_end(s).len() as int));
    } else {
        assert(s.take(s.len() as int) =~= s);
    }
}

/// Ending text with exactly one newline adds no run of three newlines.
pub proof fn lemma_final_newline_keeps_no_triple_newline(g: Seq<char>)
    requires
        has_no_triple_newline(g),
    ensures
        has_no_triple_newline(with_final_newline(g)),
{
    let t = trim_end(g);
    lemma_trim_end_is_prefix(g);
    lemma_trim_end_last(g);
    if t.len() > 0 {
        let r = t.push('\n');
        assert forall|i: int| 0 <= i && i + 2 < r.len() implies #[trigger] no_triple_newline_at(r, i) by {
            if i + 2 < t.len() {
                assert(no_triple_newline_at(g, i));
                assert(r[i] == g[i] && r[i + 1] == g[i + 1] && r[i + 2] == g[i + 2]);
            } else {
                assert(r[t.len() - 1] == t.last());
                assert(is_ws('\n'));
            }
        }
    }
}

/// What is left after trimming the end does not end in whitespace.
proof fn lemma_trim_end_last(s: Seq<char>)
    ensures
        trim_end(s).len() > 0 ==> !is_ws(trim_end(s).last()),
        trim_end(s).len() <= s.len(),
    decreases s.len(),
{
    if s.len() > 0 && is_ws(s.last()) {
        lemma_trim_end_last(s.drop_last());
    }
}

/// Cleaned markdown is empty, or ends in exactly one newline that follows
/// a character other than whitespace.
pub proof fn lemma_cleaned_markdown_ends_with_one_newline(raw: Seq<char>)
    ensures
        ({
            let r = cleaned_markdown(raw);
            r.len() == 0 || (r.len() >= 2 && r.last() == '\n' && !is_ws(r[r.len() - 2]))
        }),
{
    let a = uncommented(raw);
    let b = entities_fixed(a);
    let c = replace_all(b, seq!['\\', '_'], seq!['_']);
    let d = brackets_unescaped(c);
    let e = markers_fixed(d);
    let f = squeeze_blank_lines(e);
    lemma_trim_end_last(stripped_watermark(f));
}

} // verus!
