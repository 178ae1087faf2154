//! Pipeline feature stages: page boundaries for chunking, and the
//! decisions of the chunking, language-detection and token-reduction
//! stages.

use vstd::prelude::*;
use vstd::string::*;
use vstd::utf8::*;
use crate::text::{chars_of, push_all, string_from_chars, trim, trim_bounds};
use crate::config::{ChunkingConfig, ExtractionConfig, OutputFormat};
use crate::error::KreuzbergError;
use crate::types::{
    warning_is, Chunk, ChunkMetadata, ChunkType, CodeChunk, ExtractionResult, HeadingContext,
    HeadingLevel, PageBoundary, PageContent, ProcessingWarning,
};

verus! {

/// Pieces of `s` between occurrences of `sep_len`-long separators `sep`,
/// scanned left to right, with `cur` the piece being collected
/// (`str::split` with a one- or two-character pattern).
pub open spec fn split_from(s: Seq<char>, sep: Seq<char>, cur: Seq<char>) -> Seq<Seq<char>>
    decreases s.len(),
{
    if s.len() == 0 {
        seq![cur]
    } else if sep.len() > 0 && sep.len() <= s.len() && s.take(sep.len() as int) == sep {
        seq![cur] + split_from(s.skip(sep.len() as int), sep, seq![])
    } else {
        split_from(s.drop_first(), sep, cur.push(s[0]))
    }
}

/// The paragraphs of a page (pieces between blank-line separators),
/// trimmed, blank ones dropped, rejoined with `"\n\n"`.
pub open spec fn rejoin_paragraphs(parts: Seq<Seq<char>>) -> Seq<char>
    decreases parts.len(),
{
    if parts.len() == 0 {
        seq![]
    } else {
        let acc = rejoin_paragraphs(parts.drop_last());
        let t = trim(parts.last());
        if t.len() == 0 {
            acc
        } else if acc.len() == 0 {
            t
        } else {
            acc + seq!['\n', '\n'] + t
        }
    }
}

/// A page's text normalised the way the rendered content lays it out.
pub open spec fn normalized_page(s: Seq<char>) -> Seq<char> {
    rejoin_paragraphs(split_from(s, seq!['\n', '\n'], seq![]))
}

/// The first line of `s` that is not blank, trimmed.
pub open spec fn first_nonblank(lines: Seq<Seq<char>>) -> Option<Seq<char>>
    decreases lines.len(),
{
    if lines.len() == 0 {
        None
    } else if trim(lines[0]).len() > 0 {
        Some(trim(lines[0]))
    } else {
        first_nonblank(lines.drop_first())
    }
}

/// The first nonblank line of a page, trimmed.
pub open spec fn first_nonblank_line(s: Seq<char>) -> Option<Seq<char>> {
    first_nonblank(split_from(s, seq!['\n'], seq![]))
}

/// Whether `p` occurs in `h` at byte `i`.
pub open spec fn occurs_at(h: Seq<u8>, p: Seq<u8>, i: int) -> bool {
    0 <= i && i + p.len() <= h.len() && h.subrange(i, i + p.len()) == p
}

/// The first byte position at or after `i` where `p` occurs in `h`.
pub open spec fn find_from(h: Seq<u8>, p: Seq<u8>, i: int) -> Option<int>
    decreases h.len() + 1 - i,
{
    if i < 0 || i + p.len() > h.len() {
        None
    } else if occurs_at(h, p, i) {
        Some(i)
    } else {
        find_from(h, p, i + 1)
    }
}

/// Whether byte index `j` of UTF-8 text `b` starts a character (or is its
/// end).
pub open spec fn is_boundary(b: Seq<u8>, j: int) -> bool {
    j == 0 || j == b.len() || (0 < j < b.len() && !(0x80 <= b[j] && b[j] < 0xC0))
}

/// The largest character boundary at or below `i`
/// (`str::floor_char_boundary`).
pub open spec fn floor_boundary(b: Seq<u8>, i: int) -> int
    decreases i,
{
    if i >= b.len() {
        b.len() as int
    } else if i <= 0 {
        0
    } else if is_boundary(b, i) {
        i
    } else {
        floor_boundary(b, i - 1)
    }
}

/// Where one page lands in the content bytes `c`, searching from `off`:
/// blank pages get an empty range at `off`; otherwise the normalised page
/// text is looked up, then its first nonblank line; the range ends one
/// normalised-page length after its start, clamped to the content and
/// rounded down to a character boundary. `None` when neither is found.
pub open spec fn locate_page(c: Seq<u8>, page: PageContent, off: int) -> Option<(int, int)> {
    let s = page.content@;
    if trim(s).len() == 0 {
        Some((off, off))
    } else {
        let nb = encode_utf8(normalized_page(s));
        match find_from(c, nb, off) {
            Some(start) => Some((start, floor_boundary(c, start + nb.len()))),
            None => match first_nonblank_line(s) {
                Some(line) => match find_from(c, encode_utf8(line), off) {
                    Some(start) => {
                        let raw = if start + nb.len() < c.len() {
                            start + nb.len()
                        } else {
                            c.len() as int
                        };
                        Some((start, floor_boundary(c, raw)))
                    },
                    None => None,
                },
                None => None,
            },
        }
    }
}

/// Boundaries of `pages` located one after the other in `c`, each search
/// starting where the previous page ended; pages that cannot be located
/// are skipped.
pub open spec fn boundaries_from(c: Seq<u8>, pages: Seq<PageContent>, off: int) -> Seq<
    PageBoundary,
>
    decreases pages.len(),
{
    if pages.len() == 0 {
        seq![]
    } else {
        match locate_page(c, pages[0], off) {
            Some((start, end)) => seq![
                PageBoundary {
                    page_number: pages[0].page_number,
                    byte_start: start as usize,
                    byte_end: end as usize,
                },
            ] + boundaries_from(c, pages.drop_first(), end),
            None => boundaries_from(c, pages.drop_first(), off),
        }
    }
}


/// Whether `sep` occurs in `v` at position `i`.
fn sep_at(v: &[char], sep: &[char], i: usize) -> (r: bool)
    requires
        i <= v@.len(),
    ensures
        r == (sep@.len() <= v@.len() - i && v@.skip(i as int).take(sep@.len() as int) == sep@),
{
    let m = sep.len();
    if m > v.len() - i {
        return false;
    }
    let n = v.len();
    let mut j: usize = 0;
    while j < m
        invariant
            n == v@.len(),
            m == sep@.len(),
            m <= v@.len() - i,
            i + m <= v@.len(),
            j <= m,
            forall|t: int| 0 <= t < j ==> v@[i + t] == sep@[t],
        decreases m - j,
    {
        if v[i + j] != sep[j] {
            assert(v@.skip(i as int).take(m as int)[j as int] != sep@[j as int]);
            return false;
        }
        j = j + 1;
    }
    assert(v@.skip(i as int).take(m as int) =~= sep@);
    true
}

/// Pieces of `v` between occurrences of `sep` (`str::split`).
pub fn split_on(v: &[char], sep: &[char]) -> (r: Vec<Vec<char>>)
    ensures
        r@.map_values(|w: Vec<char>| w@) == split_from(v@, sep@, seq![]),
{
    let n = v.len();
    let mut out: Vec<Vec<char>> = Vec::new();
    let mut cur: Vec<char> = Vec::new();
    let mut i: usize = 0;
    assert(v@.skip(0) =~= v@);
    while i < n
        invariant
            i <= n == v@.len(),
            split_from(v@, sep@, seq![]) == out@.map_values(|w: Vec<char>| w@) + split_from(
                v@.skip(i as int),
                sep@,
                cur@,
            ),
        decreases n - i,
    {
        let ghost rest = v@.skip(i as int);
        let ghost old_out = out@.map_values(|w: Vec<char>| w@);
        if sep.len() > 0 && sep_at(v, sep, i) {
            assert(rest.skip(sep@.len() as int) =~= v@.skip(i + sep@.len()));
            let ghost cv = cur@;
            out.push(cur);
            assert(out@.map_values(|w: Vec<char>| w@) =~= old_out.push(cv));
            cur = Vec::new();
            assert(cur@ =~= seq![]);
            assert(old_out + (seq![cv] + split_from(rest.skip(sep@.len() as int), sep@, seq![]))
                =~= old_out.push(cv) + split_from(rest.skip(sep@.len() as int), sep@, seq![]));
            i = i + sep.len();
        } else {
            assert(rest.drop_first() =~= v@.skip(i + 1));
            cur.push(v[i]);
            i = i + 1;
        }
    }
    assert(v@.skip(i as int) =~= seq![]);
    let ghost old_out = out@.map_values(|w: Vec<char>| w@);
    let ghost cv = cur@;
    out.push(cur);
    assert(out@.map_values(|w: Vec<char>| w@) =~= old_out.push(cv));
    out
}

/// A page's text normalised the way the rendered content lays it out.
pub fn normalize_page_text(v: &[char]) -> (r: Vec<char>)
    ensures
        r@ == normalized_page(v@),
{
    let sep = vec!['\n', '\n'];
    assert(sep@ =~= seq!['\n', '\n']);
    let parts = split_on(v, sep.as_slice());
    let ghost ps = parts@.map_values(|w: Vec<char>| w@);
    let mut out: Vec<char> = Vec::new();
    let n = parts.len();
    for i in 0..n
        invariant
            n == parts@.len() == ps.len(),
            ps == parts@.map_values(|w: Vec<char>| w@),
            out@ == rejoin_paragraphs(ps.take(i as int)),
    {
        assert(ps.take(i + 1).drop_last() =~= ps.take(i as int));
        assert(ps[i as int] == parts@[i as int]@);
        let part = &parts[i];
        let (a, b) = trim_bounds(part.as_slice(), 0, part.len());
        assert(part@.subrange(0, part@.len() as int) =~= part@);
        if a < b {
            if out.len() > 0 {
                out.push('\n');
                out.push('\n');
            }
            push_all(&mut out, &part[a..b]);
        }
        assert(out@ =~= rejoin_paragraphs(ps.take(i + 1)));
    }
    assert(ps.take(n as int) =~= ps);
    out
}

/// The first nonblank line of a page, trimmed.
pub fn first_nonblank_line_of(v: &[char]) -> (r: Option<Vec<char>>)
    ensures
        match r {
            Some(l) => first_nonblank_line(v@) == Some(l@),
            None => first_nonblank_line(v@) is None,
        },
{
    let sep = vec!['\n'];
    assert(sep@ =~= seq!['\n']);
    let lines = split_on(v, sep.as_slice());
    let ghost ls = lines@.map_values(|w: Vec<char>| w@);
    let n = lines.len();
    assert(ls.skip(0) =~= ls);
    for i in 0..n
        invariant
            n == lines@.len() == ls.len(),
            ls == lines@.map_values(|w: Vec<char>| w@),
            ls == split_from(v@, seq!['\n'], seq![]),
            first_nonblank(ls) == first_nonblank(ls.skip(i as int)),
    {
        assert(ls.skip(i as int)[0] == lines@[i as int]@);
        let line = &lines[i];
        let (a, b) = trim_bounds(line.as_slice(), 0, line.len());
        assert(line@.subrange(0, line@.len() as int) =~= line@);
        if a < b {
            let mut t: Vec<char> = Vec::new();
            push_all(&mut t, &line[a..b]);
            assert(t@ =~= line@.subrange(a as int, b as int));
            assert(ls.skip(i as int).len() > 0);
            assert(trim(ls.skip(i as int)[0]).len() > 0);
            assert(t@ == trim(ls.skip(i as int)[0]));
            assert(first_nonblank(ls.skip(i as int)) == Some(trim(ls.skip(i as int)[0])));
            return Some(t);
        }
        assert(ls.skip(i as int).drop_first() =~= ls.skip(i + 1));
    }
    assert(ls.skip(n as int) =~= seq![]);
    None
}

/// The first byte position at or after `from` where `p` occurs in `h`
/// (`str::find` on the tail `h[from..]`).
pub fn find_bytes(h: &[u8], p: &[u8], from: usize) -> (r: Option<usize>)
    ensures
        match r {
            Some(i) => find_from(h@, p@, from as int) == Some(i as int),
            None => find_from(h@, p@, from as int) is None,
        },
{
    let n = h.len();
    let m = p.len();
    if m > n {
        return None;
    }
    let mut i = from;
    while i <= n - m
        invariant
            m <= n,
            n == h@.len(),
            m == p@.len(),
            from <= i,
            find_from(h@, p@, from as int) == find_from(h@, p@, i as int),
        decreases n - i,
    {
        let mut j: usize = 0;
        let mut ok = true;
        while j < m
            invariant
                i + m <= n,
                n == h@.len(),
                m == p@.len(),
                j <= m,
                ok == (forall|t: int| 0 <= t < j ==> h@[i + t] == p@[t]),
            decreases m - j,
        {
            if h[i + j] != p[j] {
                ok = false;
            }
            j = j + 1;
        }
        if ok {
            assert(h@.subrange(i as int, i + m) =~= p@);
            return Some(i);
        }
        assert(!occurs_at(h@, p@, i as int)) by {
            let t = choose|t: int| 0 <= t < m && h@[i + t] != p@[t];
            assert(h@.subrange(i as int, i + m)[t] == h@[i + t]);
        }
        i = i + 1;
    }
    None
}

/// The largest character boundary of UTF-8 bytes `b` at or below `i`.
pub fn floor_char_boundary(b: &[u8], i: usize) -> (r: usize)
    ensures
        r == floor_boundary(b@, i as int),
{
    let n = b.len();
    if i >= n {
        return n;
    }
    let mut j = i;
    while j > 0 && 0x80 <= b[j] && b[j] < 0xC0
        invariant
            j <= i < n == b@.len(),
            floor_boundary(b@, i as int) == floor_boundary(b@, j as int),
        decreases j,
    {
        j = j - 1;
    }
    j
}

/// Recompute page boundaries against the rendered `content` string: each
/// page's normalised text (or, failing that, its first nonblank line) is
/// looked up in the content after the previous page, so that the byte
/// offsets handed to the chunker index into `content`. Pages that cannot
/// be found are skipped.
pub fn recompute_boundaries_from_pages(content: &str, pages: &[PageContent]) -> (r: Vec<
    PageBoundary,
>)
    ensures
        r@ == boundaries_from(encode_utf8(content@), pages@, 0),
{
    let c = content.as_bytes();
    let c_len = c.len();
    let ghost cb = c@;
    let mut boundaries: Vec<PageBoundary> = Vec::new();
    let mut search_offset: usize = 0;
    let n = pages.len();
    assert(pages@.skip(0) =~= pages@);
    for i in 0..n
        invariant
            n == pages@.len(),
            cb == c@,
            c_len == cb.len(),
            cb == encode_utf8(content@),
            search_offset <= cb.len(),
            boundaries_from(cb, pages@, 0) == boundaries@ + boundaries_from(
                cb,
                pages@.skip(i as int),
                search_offset as int,
            ),
    {
        let ghost rest = pages@.skip(i as int);
        assert(rest[0] == pages@[i as int]);
        assert(rest.drop_first() =~= pages@.skip(i + 1));
        let page = &pages[i];
        let pv = chars_of(page.content.as_str());
        let (a, b) = trim_bounds(pv.as_slice(), 0, pv.len());
        assert(pv@.subrange(0, pv@.len() as int) =~= pv@);
        let ghost old_b = boundaries@;
        if a == b {
            boundaries.push(
                PageBoundary {
                    page_number: page.page_number,
                    byte_start: search_offset,
                    byte_end: search_offset,
                },
            );
            assert(boundaries@ =~= old_b + seq![boundaries@.last()]);
        } else {
            let normalized = normalize_page_text(pv.as_slice());
            let ns = string_from_chars(normalized.as_slice());
            let nb = ns.as_str().as_bytes();
            match find_bytes(c, nb, search_offset) {
                Some(start) => {
                    proof {
                        lemma_find_from_occurs(cb, nb@, search_offset as int);
                        assert(occurs_at(cb, nb@, start as int));
                        assert(start + nb@.len() <= cb.len());
                    }
                    let end = floor_char_boundary(c, start + nb.len());
                    proof {
                        lemma_floor_boundary_bounds(cb, (start + nb.len()) as int);
                    }
                    boundaries.push(
                        PageBoundary {
                            page_number: page.page_number,
                            byte_start: start,
                            byte_end: end,
                        },
                    );
                    assert(boundaries@ =~= old_b + seq![boundaries@.last()]);
                    search_offset = end;
                },
                None => {
                    match first_nonblank_line_of(pv.as_slice()) {
                        Some(line) => {
                            let ls = string_from_chars(line.as_slice());
                            let lb = ls.as_str().as_bytes();
                            match find_bytes(c, lb, search_offset) {
                                Some(start) => {
                                    proof {
                                        lemma_find_from_occurs(cb, lb@, search_offset as int);
                                    }
                                    let raw_end = if nb.len() < c.len() - start {
                                        start + nb.len()
                                    } else {
                                        c.len()
                                    };
                                    let end = floor_char_boundary(c, raw_end);
                                    proof {
                                        lemma_floor_boundary_bounds(cb, raw_end as int);
                                    }
                                    boundaries.push(
                                        PageBoundary {
                                            page_number: page.page_number,
                                            byte_start: start,
                                            byte_end: end,
                                        },
                                    );
                                    assert(boundaries@ =~= old_b + seq![boundaries@.last()]);
                                    search_offset = end;
                                },
                                None => {},
                            }
                        },
                        None => {},
                    }
                },
            }
        }
    }
    assert(pages@.skip(n as int) =~= seq![]);
    assert(boundaries@ + seq![] =~= boundaries@);
    boundaries
}

/// A position found by `find_from` is an occurrence at or after the start.
pub proof fn lemma_find_from_occurs(h: Seq<u8>, p: Seq<u8>, i: int)
    ensures
        find_from(h, p, i) matches Some(k) ==> i <= k && occurs_at(h, p, k),
    decreases h.len() + 1 - i,
{
    if !(i < 0 || i + p.len() > h.len()) && !occurs_at(h, p, i) {
        lemma_find_from_occurs(h, p, i + 1);
    }
}

/// `floor_boundary` stays within the text and below its argument.
pub proof fn lemma_floor_boundary_bounds(b: Seq<u8>, i: int)
    ensures
        0 <= floor_boundary(b, i) <= b.len(),
        0 <= i <= b.len() ==> floor_boundary(b, i) <= i,
        is_boundary(b, floor_boundary(b, i)),
    decreases i,
{
    if !(i >= b.len()) && !(i <= 0) && !is_boundary(b, i) {
        lemma_floor_boundary_bounds(b, i - 1);
    }
}


/// The first byte of a nonempty UTF-8 encoding starts a character.
proof fn lemma_first_byte_leads(chars: Seq<char>)
    requires
        chars.len() > 0,
    ensures
        !(0x80 <= encode_utf8(chars)[0] && encode_utf8(chars)[0] < 0xC0),
{
    let v = chars[0] as u32;
    assert(is_scalar(v)) by {
        char_is_scalar(chars[0]);
    }
    let first = encode_scalar(v)[0];
    assert(encode_utf8(chars)[0] == first);
    if has_width_1_encoding(v) {
        assert(first == leading_byte_width_1(v));
        assert(v <= 0x7F ==> ((v & 0x7F) as u8) < 0x80) by (bit_vector);
    } else if has_width_2_encoding(v) {
        assert(first == leading_byte_width_2(v));
        assert((0xC0u8 | ((v >> 6) & 0x1F) as u8) >= 0xC0) by (bit_vector);
    } else if has_width_3_encoding(v) {
        assert(first == leading_byte_width_3(v));
        assert((0xE0u8 | ((v >> 12) & 0x0F) as u8) >= 0xC0) by (bit_vector);
    } else {
        assert(first == leading_byte_width_4(v));
        assert((0xF0u8 | ((v >> 18) & 0x7) as u8) >= 0xC0) by (bit_vector);
    }
}

/// Rounding down never passes below a boundary that lies under the argument.
proof fn lemma_floor_boundary_above(b: Seq<u8>, s: int, i: int)
    requires
        0 <= s <= i,
        s <= b.len(),
        is_boundary(b, s),
    ensures
        s <= floor_boundary(b, i),
    decreases i,
{
    if !(i >= b.len()) && !(i <= 0) && !is_boundary(b, i) {
        lemma_floor_boundary_above(b, s, i - 1);
    }
}

/// A match of the UTF-8 encoding of `needle`, found from a character
/// boundary `off`, starts on a character boundary.
proof fn lemma_found_on_boundary(c: Seq<u8>, needle: Seq<char>, off: int)
    requires
        0 <= off <= c.len(),
        is_boundary(c, off),
        find_from(c, encode_utf8(needle), off) is Some,
    ensures
        is_boundary(c, find_from(c, encode_utf8(needle), off)->0),
        off <= find_from(c, encode_utf8(needle), off)->0,
        find_from(c, encode_utf8(needle), off)->0 + encode_utf8(needle).len() <= c.len(),
{
    let nb = encode_utf8(needle);
    lemma_find_from_occurs(c, nb, off);
    let start = find_from(c, nb, off)->0;
    if nb.len() == 0 {
        assert(occurs_at(c, nb, off)) by {
            assert(c.subrange(off, off) =~= nb);
        }
        assert(start == off);
    } else {
        if needle.len() == 0 {
            assert(nb.len() == 0);
        }
        lemma_first_byte_leads(needle);
        assert(c.subrange(start, start + nb.len())[0] == c[start]);
    }
}

/// What `boundaries_from` yields from a boundary `off`: every range is
/// ordered, lies at or after `off`, inside the content, on character
/// boundaries, and each range ends before the next begins.
proof fn lemma_boundaries_from_ordered(c: Seq<u8>, pages: Seq<PageContent>, off: int)
    requires
        0 <= off <= c.len(),
        c.len() <= usize::MAX,
        is_boundary(c, off),
    ensures
        ({
            let bs = boundaries_from(c, pages, off);
            &&& forall|k: int|
                0 <= k < bs.len() ==> off <= #[trigger] bs[k].byte_start <= bs[k].byte_end <= c.len()
                    && is_boundary(c, bs[k].byte_start as int) && is_boundary(
                    c,
                    bs[k].byte_end as int,
                )
            &&& forall|k: int, l: int|
                0 <= k < l < bs.len() ==> #[trigger] bs[k].byte_end <= #[trigger] bs[l].byte_start
        }),
    decreases pages.len(),
{
    if pages.len() == 0 {
        return;
    }
    let rest = pages.drop_first();
    let s = pages[0].content@;
    match locate_page(c, pages[0], off) {
        Some((start, end)) => {
            assert(off <= start <= end <= c.len() && is_boundary(c, start) && is_boundary(c, end))
                by {
                if trim(s).len() == 0 {
                } else {
                    let nb = encode_utf8(normalized_page(s));
                    match find_from(c, nb, off) {
                        Some(st) => {
                            lemma_found_on_boundary(c, normalized_page(s), off);
                            lemma_floor_boundary_above(c, st, st + nb.len());
                            lemma_floor_boundary_bounds(c, st + nb.len());
                        },
                        None => {
                            let line = first_nonblank_line(s)->0;
                            lemma_found_on_boundary(c, line, off);
                            let st = find_from(c, encode_utf8(line), off)->0;
                            let raw = if st + nb.len() < c.len() {
                                st + nb.len()
                            } else {
                                c.len() as int
                            };
                            lemma_floor_boundary_above(c, st, raw);
                            lemma_floor_boundary_bounds(c, raw);
                        },
                    }
                }
            }
            lemma_boundaries_from_ordered(c, rest, end);
            let tail = boundaries_from(c, rest, end);
            let head = PageBoundary {
                page_number: pages[0].page_number,
                byte_start: start as usize,
                byte_end: end as usize,
            };
            let bs = boundaries_from(c, pages, off);
            assert(bs == seq![head] + tail);
            assert forall|k: int, l: int| 0 <= k < l < bs.len() implies #[trigger] bs[k].byte_end
                <= #[trigger] bs[l].byte_start by {
                if k == 0 {
                    assert(bs[l] == tail[l - 1]);
                } else {
                    assert(bs[k] == tail[k - 1]);
                    assert(bs[l] == tail[l - 1]);
                }
            }
            assert forall|k: int| 0 <= k < bs.len() implies off <= #[trigger] bs[k].byte_start
                <= bs[k].byte_end <= c.len() && is_boundary(c, bs[k].byte_start as int)
                && is_boundary(c, bs[k].byte_end as int) by {
                if k > 0 {
                    assert(bs[k] == tail[k - 1]);
                }
            }
        },
        None => {
            lemma_boundaries_from_ordered(c, rest, off);
            assert(boundaries_from(c, pages, off) == boundaries_from(c, rest, off));
        },
    }
}

/// Recomputed page boundaries index into the content: each range lies
/// inside it, starts and ends on character boundaries, and the ranges
/// follow one another in page order without overlapping.
pub proof fn lemma_recomputed_boundaries_well_formed(content: Seq<char>, pages: Seq<PageContent>)
    requires
        encode_utf8(content).len() <= usize::MAX,
    ensures
        ({
            let c = encode_utf8(content);
            let bs = boundaries_from(c, pages, 0);
            &&& forall|k: int|
                0 <= k < bs.len() ==> #[trigger] bs[k].byte_start <= bs[k].byte_end <= c.len()
                    && is_boundary(c, bs[k].byte_start as int) && is_boundary(
                    c,
                    bs[k].byte_end as int,
                )
            &&& forall|k: int, l: int|
                0 <= k < l < bs.len() ==> #[trigger] bs[k].byte_end <= #[trigger] bs[l].byte_start
        }),
{
    lemma_boundaries_from_ordered(encode_utf8(content), pages, 0);
}


/// Every field but the chunks and the warnings is the same.
pub open spec fn kept_but_chunks_and_warnings(before: ExtractionResult, after: ExtractionResult) -> bool {
    &&& after.content == before.content
    &&& after.formatted_content == before.formatted_content
    &&& after.mime_type == before.mime_type
    &&& after.pages == before.pages
    &&& after.page_boundaries == before.page_boundaries
    &&& after.detected_languages == before.detected_languages
    &&& after.code_chunks == before.code_chunks
}

/// The warnings grew by `w` (`source`, `message`), when given, and are the
/// same otherwise.
pub open spec fn warnings_grew(
    before: ExtractionResult,
    after: ExtractionResult,
    w: Option<(Seq<char>, Seq<char>)>,
) -> bool {
    match w {
        Some((src, msg)) => after.processing_warnings@.len() == before.processing_warnings@.len()
            + 1 && after.processing_warnings@.drop_last() == before.processing_warnings@
            && warning_is(after.processing_warnings@.last(), src, msg),
        None => after.processing_warnings@ == before.processing_warnings@,
    }
}

/// A result whose warnings grew by `w` (when given) and which is otherwise
/// unchanged.
pub open spec fn only_warned(
    before: ExtractionResult,
    after: ExtractionResult,
    w: Option<(Seq<char>, Seq<char>)>,
) -> bool {
    &&& kept_but_chunks_and_warnings(before, after)
    &&& after.chunks == before.chunks
    &&& warnings_grew(before, after, w)
}

fn push_warning(result: &mut ExtractionResult, source: &str, message: &str)
    ensures
        only_warned(*old(result), *final(result), Some((source@, message@))),
{
    let w = ProcessingWarning {
        source: string_from_chars(chars_of(source).as_slice()),
        message: string_from_chars(chars_of(message).as_slice()),
    };
    result.processing_warnings.push(w);
    assert(result.processing_warnings@.drop_last() =~= old(result).processing_warnings@);
}

/// The heading level given to the scope at `depth` of a code chunk's
/// context path: the depth, taken modulo 256, plus two, capped at six.
pub open spec fn heading_level_for_depth(depth: int) -> u8 {
    let d = depth % 256;
    if d < 4 {
        (d + 2) as u8
    } else {
        6u8
    }
}

/// Whether `h` lists the scopes of `path` as headings.
pub open spec fn headings_of_path(h: Seq<HeadingLevel>, path: Seq<String>) -> bool {
    &&& h.len() == path.len()
    &&& forall|j: int|
        0 <= j < h.len() ==> #[trigger] h[j].level == heading_level_for_depth(j) && h[j].text@
            == path[j]@
}

/// Whether `c` is the `i`-th of `total` chunks made from the code chunk
/// `cc`: same text and byte range, a code block, no pages or token count,
/// and the enclosing scopes as its heading context.
pub open spec fn chunk_from_code(c: Chunk, cc: CodeChunk, i: int, total: int) -> bool {
    &&& c.content@ == cc.content@
    &&& c.chunk_type == ChunkType::CodeBlock
    &&& c.metadata.byte_start == cc.start_byte
    &&& c.metadata.byte_end == cc.end_byte
    &&& c.metadata.token_count is None
    &&& c.metadata.chunk_index == i
    &&& c.metadata.total_chunks == total
    &&& c.metadata.first_page is None
    &&& c.metadata.last_page is None
    &&& if cc.context_path@.len() == 0 {
        c.metadata.heading_context is None
    } else {
        c.metadata.heading_context matches Some(hc) && headings_of_path(
            hc.headings@,
            cc.context_path@,
        )
    }
}

fn heading_level(depth: usize) -> (r: u8)
    ensures
        r == heading_level_for_depth(depth as int),
{
    let d: u8 = (depth % 256) as u8;
    if d < 4 {
        d + 2
    } else {
        6
    }
}

fn chunk_of_code(cc: &CodeChunk, i: usize, total: usize) -> (r: Chunk)
    ensures
        chunk_from_code(r, *cc, i as int, total as int),
{
    let n = cc.context_path.len();
    let heading_context = if n == 0 {
        None
    } else {
        let mut headings: Vec<HeadingLevel> = Vec::new();
        let mut depth: usize = 0;
        while depth < n
            invariant
                n == cc.context_path@.len(),
                depth <= n,
                headings@.len() == depth,
                forall|j: int|
                    0 <= j < depth ==> #[trigger] headings@[j].level == heading_level_for_depth(j)
                        && headings@[j].text@ == cc.context_path@[j]@,
            decreases n - depth,
        {
            let h = HeadingLevel {
                level: heading_level(depth),
                text: copy_string(&cc.context_path[depth]),
            };
            let ghost prev = headings@;
            headings.push(h);
            assert forall|j: int| 0 <= j < depth + 1 implies #[trigger] headings@[j].level
                == heading_level_for_depth(j) && headings@[j].text@ == cc.context_path@[j]@ by {
                if j < depth {
                    assert(headings@[j] == prev[j]);
                }
            }
            depth = depth + 1;
        }
        assert(headings_of_path(headings@, cc.context_path@));
        Some(HeadingContext { headings })
    };
    Chunk {
        content: copy_string(&cc.content),
        chunk_type: ChunkType::CodeBlock,
        metadata: ChunkMetadata {
            byte_start: cc.start_byte,
            byte_end: cc.end_byte,
            token_count: None,
            chunk_index: i,
            total_chunks: total,
            first_page: None,
            last_page: None,
            heading_context,
        },
    }
}

/// Chunks taken directly from code intelligence: when the result carries
/// a nonempty list of code chunks, each becomes a code-block chunk with its
/// byte range and its enclosing scopes as headings, so that semantic code
/// boundaries are kept; otherwise `None`.
pub fn try_code_chunks(result: &ExtractionResult) -> (r: Option<Vec<Chunk>>)
    ensures
        match result.code_chunks {
            Some(cs) if cs@.len() > 0 => r matches Some(v) && v@.len() == cs@.len() && forall|
                i: int,
            |
                0 <= i < v@.len() ==> #[trigger] chunk_from_code(v@[i], cs@[i], i, cs@.len() as int),
            _ => r is None,
        },
{
    match &result.code_chunks {
        Some(cs) => {
            if cs.len() == 0 {
                return None;
            }
            let total = cs.len();
            let mut chunks: Vec<Chunk> = Vec::new();
            for i in 0..total
                invariant
                    total == cs@.len(),
                    chunks@.len() == i,
                    forall|k: int|
                        0 <= k < i ==> #[trigger] chunk_from_code(
                            chunks@[k],
                            cs@[k],
                            k,
                            total as int,
                        ),
            {
                chunks.push(chunk_of_code(&cs[i], i, total));
            }
            Some(chunks)
        },
        None => None,
    }
}

/// A result whose detected languages became `d` and which is otherwise
/// unchanged.
pub open spec fn languages_set(
    before: ExtractionResult,
    after: ExtractionResult,
    d: Option<Vec<String>>,
) -> bool {
    &&& after.detected_languages == d
    &&& after.content == before.content
    &&& after.formatted_content == before.formatted_content
    &&& after.mime_type == before.mime_type
    &&& after.pages == before.pages
    &&& after.page_boundaries == before.page_boundaries
    &&& after.code_chunks == before.code_chunks
    &&& after.chunks == before.chunks
    &&& after.processing_warnings == before.processing_warnings
}

/// Record what language detection gave: the detected languages replace
/// the result's, or a failure becomes a `"language_detection"` warning.
pub fn record_language_detection(
    result: &mut ExtractionResult,
    outcome: Result<Option<Vec<String>>, String>,
)
    ensures
        match outcome {
            Ok(d) => languages_set(*old(result), *final(result), d),
            Err(e) => only_warned(*old(result), *final(result), Some(("language_detection"@, e@))),
        },
{
    match outcome {
        Ok(d) => {
            result.detected_languages = d;
        },
        Err(e) => {
            push_warning(result, "language_detection", e.as_str());
        },
    }
}

/// The language hint for token reduction: the first detected language.
pub fn token_reduction_language_hint(result: &ExtractionResult) -> (r: Option<&str>)
    ensures
        match result.detected_languages {
            Some(langs) if langs@.len() > 0 => r matches Some(h) && h@ == langs@[0]@,
            _ => r is None,
        },
{
    match &result.detected_languages {
        Some(langs) => {
            if langs.len() > 0 {
                Some(langs[0].as_str())
            } else {
                None
            }
        },
        None => None,
    }
}

/// Record what token reduction gave: the reduced text replaces the content,
/// or a failure becomes a `"token_reduction"` warning.
pub fn record_token_reduction(result: &mut ExtractionResult, outcome: Result<String, String>)
    ensures
        match outcome {
            Ok(reduced) => {
                &&& final(result).content@ == reduced@
                &&& final(result).formatted_content == old(result).formatted_content
                &&& final(result).mime_type == old(result).mime_type
                &&& final(result).pages == old(result).pages
                &&& final(result).page_boundaries == old(result).page_boundaries
                &&& final(result).detected_languages == old(result).detected_languages
                &&& final(result).code_chunks == old(result).code_chunks
                &&& final(result).chunks == old(result).chunks
                &&& final(result).processing_warnings == old(result).processing_warnings
            },
            Err(e) => only_warned(*old(result), *final(result), Some(("token_reduction"@, e@))),
        },
{
    match outcome {
        Ok(reduced) => {
            result.content = reduced;
        },
        Err(e) => {
            push_warning(result, "token_reduction", e.as_str());
        },
    }
}

/// Record what the chunker gave: the chunks become the result's, or a
/// failure becomes a `"chunking"` warning.
pub fn record_chunks(result: &mut ExtractionResult, outcome: Result<Vec<Chunk>, String>)
    ensures
        match outcome {
            Ok(cs) => {
                &&& final(result).chunks == Some(cs)
                &&& final(result).content == old(result).content
                &&& final(result).formatted_content == old(result).formatted_content
                &&& final(result).mime_type == old(result).mime_type
                &&& final(result).pages == old(result).pages
                &&& final(result).page_boundaries == old(result).page_boundaries
                &&& final(result).detected_languages == old(result).detected_languages
                &&& final(result).code_chunks == old(result).code_chunks
                &&& final(result).processing_warnings == old(result).processing_warnings
            },
            Err(e) => only_warned(*old(result), *final(result), Some(("chunking"@, e@))),
        },
{
    match outcome {
        Ok(cs) => {
            result.chunks = Some(cs);
        },
        Err(e) => {
            push_warning(result, "chunking", e.as_str());
        },
    }
}

/// The warning about embeddings after chunking with `cc`, given what
/// embedding the chunks gave: `None` when this build has no embedder, which
/// is reported only when embeddings are configured; an embedder's failure
/// is reported under `"embedding"`.
pub open spec fn embedding_warning(cc: ChunkingConfig, embedding: Option<Result<(), String>>) -> Option<
    (Seq<char>, Seq<char>),
> {
    if cc.embedding is None {
        None
    } else {
        match embedding {
            None => Some(("embedding"@, "Embeddings feature not enabled"@)),
            Some(Err(e)) => Some(("embedding"@, e@)),
            Some(Ok(())) => None,
        }
    }
}

/// The result's chunks are the chunks made from its code chunks.
pub open spec fn chunks_from_code(r: ExtractionResult, cs: Seq<CodeChunk>) -> bool {
    r.chunks matches Some(v) && v@.len() == cs.len() && forall|i: int|
        0 <= i < v@.len() ==> #[trigger] chunk_from_code(v@[i], cs[i], i, cs.len() as int)
}

/// What the chunking stage does with chunking configured as `cc`, when the
/// chunker ran and gave `outcome`: code chunks, when the result has any,
/// become its chunks; otherwise the chunker's chunks do, or its failure
/// becomes a `"chunking"` warning. When chunks were stored, embedding them
/// may add a warning.
pub open spec fn chunked(
    before: ExtractionResult,
    after: ExtractionResult,
    cc: ChunkingConfig,
    outcome: Result<Vec<Chunk>, String>,
    embedding: Option<Result<(), String>>,
) -> bool {
    match before.code_chunks {
        Some(cs) if cs@.len() > 0 => {
            &&& chunks_from_code(after, cs@)
            &&& kept_but_chunks_and_warnings(before, after)
            &&& warnings_grew(before, after, embedding_warning(cc, embedding))
        },
        _ => match outcome {
            Ok(v) => {
                &&& after.chunks == Some(v)
                &&& kept_but_chunks_and_warnings(before, after)
                &&& warnings_grew(before, after, embedding_warning(cc, embedding))
            },
            Err(e) => only_warned(before, after, Some(("chunking"@, e@))),
        },
    }
}

fn warn_about_embedding(
    result: &mut ExtractionResult,
    cc: &ChunkingConfig,
    embedding: Option<Result<(), String>>,
)
    ensures
        kept_but_chunks_and_warnings(*old(result), *final(result)),
        final(result).chunks == old(result).chunks,
        warnings_grew(*old(result), *final(result), embedding_warning(*cc, embedding)),
{
    if cc.embedding.is_some() {
        match embedding {
            None => push_warning(result, "embedding", "Embeddings feature not enabled"),
            Some(Err(e)) => push_warning(result, "embedding", e.as_str()),
            Some(Ok(())) => {},
        }
    }
}

/// Execute chunking if configured. `chunker` is what running the chunker
/// on `plan_chunking`'s inputs gave, or `None` when this build has no
/// chunker (reported as a warning); `embedding` is what embedding the
/// stored chunks gave, or `None` when this build has no embedder.
pub fn execute_chunking(
    result: &mut ExtractionResult,
    config: &ExtractionConfig,
    chunker: Option<Result<Vec<Chunk>, String>>,
    embedding: Option<Result<(), String>>,
) -> (r: Result<(), KreuzbergError>)
    ensures
        r is Ok,
        match config.chunking {
            None => *final(result) == *old(result),
            Some(cc) => match chunker {
                None => only_warned(
                    *old(result),
                    *final(result),
                    Some(("chunking"@, "Chunking feature not enabled"@)),
                ),
                Some(outcome) => chunked(*old(result), *final(result), cc, outcome, embedding),
            },
        },
{
    match &config.chunking {
        None => Ok(()),
        Some(cc) => match chunker {
            None => {
                push_warning(result, "chunking", "Chunking feature not enabled");
                Ok(())
            },
            Some(outcome) => {
                match try_code_chunks(&*result) {
                    Some(chunks) => {
                        result.chunks = Some(chunks);
                        warn_about_embedding(result, cc, embedding);
                        return Ok(());
                    },
                    None => {},
                }
                match outcome {
                    Ok(chunks) => {
                        result.chunks = Some(chunks);
                        warn_about_embedding(result, cc, embedding);
                    },
                    Err(e) => {
                        push_warning(result, "chunking", e.as_str());
                    },
                }
                Ok(())
            },
        },
    }
}

/// Execute language detection if configured. `detected` is what the
/// detector gave for the content, or `None` when this build has no
/// detector (reported as a warning).
pub fn execute_language_detection(
    result: &mut ExtractionResult,
    config: &ExtractionConfig,
    detected: Option<Result<Option<Vec<String>>, String>>,
) -> (r: Result<(), KreuzbergError>)
    ensures
        r is Ok,
        config.language_detection is None ==> *final(result) == *old(result),
        config.language_detection is Some ==> match detected {
            None => only_warned(
                *old(result),
                *final(result),
                Some(("language_detection"@, "Language detection feature not enabled"@)),
            ),
            Some(Ok(d)) => languages_set(*old(result), *final(result), d),
            Some(Err(e)) => only_warned(
                *old(result),
                *final(result),
                Some(("language_detection"@, e@)),
            ),
        },
{
    if config.language_detection.is_some() {
        match detected {
            None => push_warning(result, "language_detection", "Language detection feature not enabled"),
            Some(outcome) => record_language_detection(result, outcome),
        }
    }
    Ok(())
}

/// The `off` reduction mode, which leaves the text as it is.
pub open spec fn reduction_is_off(mode: Seq<char>) -> bool {
    mode == "off"@
}

/// Execute token reduction if configured. `reduced` is what the reducer
/// gave for the content (with `token_reduction_language_hint` as language
/// hint), or `None` when this build has no reducer (reported as a
/// warning); with the `off` mode nothing is reduced.
pub fn execute_token_reduction(
    result: &mut ExtractionResult,
    config: &ExtractionConfig,
    reduced: Option<Result<String, String>>,
) -> (r: Result<(), KreuzbergError>)
    ensures
        r is Ok,
        match config.token_reduction {
            None => *final(result) == *old(result),
            Some(tr) => match reduced {
                None => only_warned(
                    *old(result),
                    *final(result),
                    Some(("token_reduction"@, "Token reduction requires the quality feature"@)),
                ),
                Some(outcome) => if reduction_is_off(tr.mode@) {
                    *final(result) == *old(result)
                } else {
                    match outcome {
                        Ok(s) => {
                            &&& final(result).content@ == s@
                            &&& final(result).formatted_content == old(result).formatted_content
                            &&& final(result).mime_type == old(result).mime_type
                            &&& final(result).pages == old(result).pages
                            &&& final(result).page_boundaries == old(result).page_boundaries
                            &&& final(result).detected_languages == old(result).detected_languages
                            &&& final(result).code_chunks == old(result).code_chunks
                            &&& final(result).chunks == old(result).chunks
                            &&& final(result).processing_warnings == old(result).processing_warnings
                        },
                        Err(e) => only_warned(
                            *old(result),
                            *final(result),
                            Some(("token_reduction"@, e@)),
                        ),
                    }
                },
            },
        },
{
    match &config.token_reduction {
        None => {},
        Some(tr) => match reduced {
            None => push_warning(result, "token_reduction", "Token reduction requires the quality feature"),
            Some(outcome) => {
                let off = chars_of("off");
                let mode = chars_of(tr.mode.as_str());
                if !crate::text::eq_chars(mode.as_slice(), off.as_slice()) {
                    record_token_reduction(result, outcome);
                }
            },
        },
    }
    Ok(())
}

/// The text a chunker gets and the text it takes headings from: with a
/// non-plain output format, the formatted content (or the plain content
/// when there is none) and no separate heading source; with plain output,
/// the plain content with the formatted content as heading source.
pub open spec fn chunk_sources(r: ExtractionResult, format: OutputFormat) -> (Seq<char>, Option<
    Seq<char>,
>) {
    if format != OutputFormat::Plain {
        (
            match r.formatted_content {
                Some(f) => f@,
                None => r.content@,
            },
            None,
        )
    } else {
        (
            r.content@,
            match r.formatted_content {
                Some(f) => Some(f@),
                None => None,
            },
        )
    }
}

/// What a chunker would be handed.
pub struct ChunkingPlan {
    /// The text to chunk.
    pub input: String,
    /// Where headings are read from, when that differs from the input.
    pub heading_source: Option<String>,
    /// Page byte ranges within the input, when known.
    pub page_boundaries: Option<Vec<PageBoundary>>,
}

/// Page ranges for chunking: recomputed from the pages against the chunk
/// input when that yields any, else the ones recorded in the metadata.
pub open spec fn chunk_boundaries(r: ExtractionResult, input: Seq<char>) -> Option<
    Seq<PageBoundary>,
> {
    let recomputed = match r.pages {
        Some(ps) => {
            let b = boundaries_from(encode_utf8(input), ps@, 0);
            if b.len() > 0 {
                Some(b)
            } else {
                None
            }
        },
        None => None,
    };
    match recomputed {
        Some(b) => Some(b),
        None => match r.page_boundaries {
            Some(b) => Some(b@),
            None => None,
        },
    }
}

fn copy_string(s: &String) -> (r: String)
    ensures
        r@ == s@,
{
    s.clone()
}

fn copy_boundaries(b: &Vec<PageBoundary>) -> (r: Vec<PageBoundary>)
    ensures
        r@ == b@,
{
    let mut out: Vec<PageBoundary> = Vec::new();
    let n = b.len();
    for i in 0..n
        invariant
            n == b@.len(),
            out@ == b@.take(i as int),
    {
        assert(b@.take(i + 1) =~= b@.take(i as int).push(b@[i as int]));
        out.push(b[i]);
    }
    assert(b@.take(n as int) =~= b@);
    out
}

/// The inputs chunking would be run on, when chunking is configured.
pub fn plan_chunking(result: &ExtractionResult, config: &ExtractionConfig) -> (r: Option<
    ChunkingPlan,
>)
    ensures
        config.chunking is None ==> r is None,
        config.chunking is Some ==> (r matches Some(p) && {
            let (input, heading) = chunk_sources(*result, config.output_format);
            &&& p.input@ == input
            &&& match p.heading_source {
                Some(h) => heading == Some(h@),
                None => heading is None,
            }
            &&& match p.page_boundaries {
                Some(b) => chunk_boundaries(*result, input) == Some(b@),
                None => chunk_boundaries(*result, input) is None,
            }
            &&& match result.pages {
                Some(ps) => boundaries_from(encode_utf8(input), ps@, 0).len() > 0 ==> (
                p.page_boundaries matches Some(b) && b@ == boundaries_from(
                    encode_utf8(input),
                    ps@,
                    0,
                )),
                None => true,
            }
        }),
{
    if config.chunking.is_none() {
        return None;
    }
    let (input, heading_source) = if config.output_format != OutputFormat::Plain {
        let i = match &result.formatted_content {
            Some(f) => copy_string(f),
            None => copy_string(&result.content),
        };
        (i, None)
    } else {
        let h = match &result.formatted_content {
            Some(f) => Some(copy_string(f)),
            None => None,
        };
        (copy_string(&result.content), h)
    };
    let recomputed = match &result.pages {
        Some(ps) => {
            let b = recompute_boundaries_from_pages(input.as_str(), ps.as_slice());
            if b.len() > 0 {
                Some(b)
            } else {
                None
            }
        },
        None => None,
    };
    let page_boundaries = match recomputed {
        Some(b) => Some(b),
        None => match &result.page_boundaries {
            Some(b) => Some(copy_boundaries(b)),
            None => None,
        },
    };
    Some(ChunkingPlan { input, heading_source, page_boundaries })
}


/// Page ranges recomputed against the chunk input win: when recomputing the
/// pages' boundaries against the input yields any, those are the ranges
/// used, whatever the result recorded; the recorded ranges are used only
/// when recomputation yields none.
pub proof fn lemma_recomputed_boundaries_win(r: ExtractionResult, input: Seq<char>)
    ensures
        match r.pages {
            Some(ps) => if boundaries_from(encode_utf8(input), ps@, 0).len() > 0 {
                chunk_boundaries(r, input) == Some(boundaries_from(encode_utf8(input), ps@, 0))
            } else {
                chunk_boundaries(r, input) == match r.page_boundaries {
                    Some(b) => Some(b@),
                    None => None::<Seq<PageBoundary>>,
                }
            },
            None => chunk_boundaries(r, input) == match r.page_boundaries {
                Some(b) => Some(b@),
                None => None::<Seq<PageBoundary>>,
            },
        },
{
}

} // verus!
