//! Markdown rendering of recognised table grids, and the integer
//! bookkeeping of table structure recognition.

use vstd::prelude::*;
use vstd::string::*;
use crate::render::{escape_chars, escaped};
use crate::text::{
    chars_of, push_all, push_str_chars, split_words, string_from_chars, trim, trim_bounds,
    words,
};

verus! {

/// Whether a token is a single character.
pub open spec fn is_single_char(t: Seq<char>) -> bool {
    t.len() == 1
}

/// Number of single-character tokens.
pub open spec fn count_single(ts: Seq<Seq<char>>) -> nat
    decreases ts.len(),
{
    if ts.len() == 0 {
        0
    } else {
        count_single(ts.drop_last()) + (if is_single_char(ts.last()) { 1nat } else { 0nat })
    }
}

/// Tokens concatenated without separators.
pub open spec fn concat(ts: Seq<Seq<char>>) -> Seq<char>
    decreases ts.len(),
{
    if ts.len() == 0 {
        seq![]
    } else {
        concat(ts.drop_last()) + ts.last()
    }
}

/// Whether cell text looks like a vertically set header read bottom to top:
/// at least three tokens, more than 70% of them single characters.
pub open spec fn is_vertical_header(s: Seq<char>) -> bool {
    let ts = words(trim(s));
    ts.len() >= 3 && 10 * count_single(ts) > 7 * ts.len()
}

/// Cell text with a vertical header repaired: its characters joined and put
/// back in reading order; other text unchanged.
pub open spec fn fixed_header(s: Seq<char>) -> Seq<char> {
    if is_vertical_header(s) {
        concat(words(trim(s))).reverse()
    } else {
        s
    }
}

/// Executable vertical-header repair on characters.
pub fn fix_vertical_header_chars(v: &[char]) -> (r: Vec<char>)
    ensures
        r@ == fixed_header(v@),
{
    let n = v.len();
    let (a, b) = trim_bounds(v, 0, n);
    assert(v@.subrange(0, n as int) =~= v@);
    let tokens = split_words(v, a, b);
    let ghost ts = tokens@.map_values(|w: Vec<char>| w@);
    let m = tokens.len();
    if m < 3 {
        let mut keep: Vec<char> = Vec::new();
        push_all(&mut keep, v);
        assert(keep@ =~= v@);
        return keep;
    }
    let mut single: usize = 0;
    let mut joined: Vec<char> = Vec::new();
    for i in 0..m
        invariant
            m == tokens@.len() == ts.len(),
            ts == tokens@.map_values(|w: Vec<char>| w@),
            single == count_single(ts.take(i as int)),
            single <= i,
            joined@ == concat(ts.take(i as int)),
    {
        assert(ts.take(i + 1).drop_last() =~= ts.take(i as int));
        assert(ts[i as int] == tokens@[i as int]@);
        let t = &tokens[i];
        if t.len() == 1 {
            single = single + 1;
        }
        push_all(&mut joined, t.as_slice());
    }
    assert(ts.take(m as int) =~= ts);
    if (single as u128) * 10 > (m as u128) * 7 {
        let mut rev: Vec<char> = Vec::new();
        let k = joined.len();
        for i in 0..k
            invariant
                k == joined@.len(),
                rev@ == joined@.reverse().take(i as int),
        {
            assert(joined@.reverse().take(i + 1) =~= joined@.reverse().take(i as int).push(
                joined@[k - 1 - i],
            ));
            rev.push(joined[k - 1 - i]);
        }
        assert(joined@.reverse().take(k as int) =~= joined@.reverse());
        rev
    } else {
        let mut keep: Vec<char> = Vec::new();
        push_all(&mut keep, v);
        assert(keep@ =~= v@);
        keep
    }
}

/// Detect and fix vertically-oriented table header text: "y t i r o h t u A"
/// becomes "Authority".
pub fn fix_vertical_header_text(text: &str) -> (r: String)
    ensures
        r@ == fixed_header(text@),
{
    let v = chars_of(text);
    let out = fix_vertical_header_chars(v.as_slice());
    string_from_chars(out.as_slice())
}


/// `s` with every `|` escaped as `\|`.
pub open spec fn pipe_escaped(s: Seq<char>) -> Seq<char>
    decreases s.len(),
{
    if s.len() == 0 {
        seq![]
    } else {
        pipe_escaped(s.drop_last()) + (if s.last() == '|' {
            seq!['\\', '|']
        } else {
            seq![s.last()]
        })
    }
}

/// The markdown text of one cell.
pub open spec fn cell_markdown(cell: Seq<char>) -> Seq<char> {
    trim(escaped(pipe_escaped(fixed_header(cell))))
}

/// The text of column `col` of a row (empty where the row is short).
pub open spec fn row_cell(row: Seq<Seq<char>>, col: int) -> Seq<char> {
    if 0 <= col < row.len() {
        row[col]
    } else {
        seq![]
    }
}

/// The first `k` cells of a table row, each as `" text |"`.
pub open spec fn row_cells(row: Seq<Seq<char>>, k: int) -> Seq<char>
    decreases k,
{
    if k <= 0 {
        seq![]
    } else {
        row_cells(row, k - 1) + seq![' '] + cell_markdown(row_cell(row, k - 1)) + seq![' ', '|']
    }
}

/// The header separator row's cells, `" --- |"` per column.
pub open spec fn separator_cells(k: int) -> Seq<char>
    decreases k,
{
    if k <= 0 {
        seq![]
    } else {
        separator_cells(k - 1) + seq![' ', '-', '-', '-', ' ', '|']
    }
}

/// The longest row length.
pub open spec fn max_cols(grid: Seq<Seq<Seq<char>>>) -> nat
    decreases grid.len(),
{
    if grid.len() == 0 {
        0
    } else {
        let m = max_cols(grid.drop_last());
        if grid.last().len() > m {
            grid.last().len()
        } else {
            m
        }
    }
}

/// The first `k` rows of a table, each on its own line, with the separator
/// line after the first row.
pub open spec fn table_lines(grid: Seq<Seq<Seq<char>>>, cols: int, k: int) -> Seq<char>
    decreases k,
{
    if k <= 0 {
        seq![]
    } else {
        table_lines(grid, cols, k - 1) + seq!['|'] + row_cells(grid[k - 1], cols) + seq!['\n'] + (
        if k == 1 {
            seq!['|'] + separator_cells(cols) + seq!['\n']
        } else {
            seq![]
        })
    }
}

/// A grid of cell texts as a markdown table: one line per row (padded to the
/// longest row), a separator after the first, no trailing newline; nothing
/// for an empty grid.
pub open spec fn grid_markdown(grid: Seq<Seq<Seq<char>>>) -> Seq<char> {
    let cols = max_cols(grid) as int;
    if grid.len() == 0 || cols == 0 {
        seq![]
    } else {
        table_lines(grid, cols, grid.len() as int).drop_last()
    }
}

/// The views of a grid of strings.
pub open spec fn grid_view(grid: Seq<Vec<String>>) -> Seq<Seq<Seq<char>>> {
    grid.map_values(|row: Vec<String>| row@.map_values(|c: String| c@))
}

fn escape_pipes(v: &[char]) -> (r: Vec<char>)
    ensures
        r@ == pipe_escaped(v@),
{
    let mut out: Vec<char> = Vec::new();
    let n = v.len();
    for i in 0..n
        invariant
            n == v@.len(),
            out@ == pipe_escaped(v@.take(i as int)),
    {
        assert(v@.take(i + 1).drop_last() =~= v@.take(i as int));
        if v[i] == '|' {
            out.push('\\');
            out.push('|');
        } else {
            out.push(v[i]);
        }
        assert(out@ =~= pipe_escaped(v@.take(i + 1)));
    }
    assert(v@.take(n as int) =~= v@);
    out
}

/// Appends the markdown of one cell.
fn push_cell(md: &mut Vec<char>, cell: &[char])
    ensures
        final(md)@ == old(md)@ + cell_markdown(cell@),
{
    let fixed = fix_vertical_header_chars(cell);
    let piped = escape_pipes(fixed.as_slice());
    let esc = escape_chars(piped.as_slice());
    let (a, b) = trim_bounds(esc.as_slice(), 0, esc.len());
    assert(esc@.subrange(0, esc@.len() as int) =~= esc@);
    push_all(md, &esc[a..b]);
}

/// Render a grid of cell text strings as a markdown table.
pub fn render_grid_as_markdown(grid: &[Vec<String>]) -> (r: String)
    ensures
        r@ == grid_markdown(grid_view(grid@)),
{
    let ghost g = grid_view(grid@);
    let nrows = grid.len();
    if nrows == 0 {
        return String::new();
    }
    let mut cols: usize = 0;
    for i in 0..nrows
        invariant
            nrows == grid@.len() == g.len(),
            g == grid_view(grid@),
            cols == max_cols(g.take(i as int)),
    {
        assert(g.take(i + 1).drop_last() =~= g.take(i as int));
        if grid[i].len() > cols {
            cols = grid[i].len();
        }
    }
    assert(g.take(nrows as int) =~= g);
    if cols == 0 {
        return String::new();
    }
    let mut md: Vec<char> = Vec::new();
    for ri in 0..nrows
        invariant
            nrows == grid@.len() == g.len(),
            g == grid_view(grid@),
            cols == max_cols(g),
            md@ == table_lines(g, cols as int, ri as int),
    {
        let row = &grid[ri];
        let ghost rv = g[ri as int];
        assert(rv == row@.map_values(|c: String| c@));
        let ghost start = md@;
        md.push('|');
        for col in 0..cols
            invariant
                rv == row@.map_values(|c: String| c@),
                md@ == start + seq!['|'] + row_cells(rv, col as int),
        {
            let ghost before = md@;
            md.push(' ');
            if col < row.len() {
                let cell = chars_of(row[col].as_str());
                push_cell(&mut md, cell.as_slice());
            } else {
                let empty: Vec<char> = Vec::new();
                push_cell(&mut md, empty.as_slice());
                assert(empty@ =~= seq![]);
            }
            md.push(' ');
            md.push('|');
            assert(md@ =~= start + seq!['|'] + row_cells(rv, col + 1));
        }
        md.push('\n');
        if ri == 0 {
            md.push('|');
            let ghost sep_start = md@;
            for c in 0..cols
                invariant
                    md@ == sep_start + separator_cells(c as int),
            {
                push_str_chars(&mut md, " --- |");
                proof {
                    reveal_strlit(" --- |");
                }
                assert(md@ =~= sep_start + separator_cells(c + 1));
            }
            md.push('\n');
        }
        assert(md@ =~= table_lines(g, cols as int, ri + 1));
    }
    md.pop();
    string_from_chars(md.as_slice())
}


/// Texts trimmed, blank ones dropped, the rest joined with single spaces
/// (the text of a table cell from the words assigned to it, in reading
/// order).
pub open spec fn joined_cell_words(ts: Seq<Seq<char>>) -> Seq<char>
    decreases ts.len(),
{
    if ts.len() == 0 {
        seq![]
    } else {
        let acc = joined_cell_words(ts.drop_last());
        let t = trim(ts.last());
        if t.len() == 0 {
            acc
        } else if acc.len() == 0 {
            t
        } else {
            acc + seq![' '] + t
        }
    }
}

/// The text of a table cell from its words, already in reading order.
pub fn join_cell_words(texts: &[&str]) -> (r: String)
    ensures
        r@ == joined_cell_words(texts@.map_values(|t: &str| t@)),
{
    let ghost ts = texts@.map_values(|t: &str| t@);
    let mut out: Vec<char> = Vec::new();
    let n = texts.len();
    for i in 0..n
        invariant
            n == texts@.len() == ts.len(),
            ts == texts@.map_values(|t: &str| t@),
            out@ == joined_cell_words(ts.take(i as int)),
    {
        assert(ts.take(i + 1).drop_last() =~= ts.take(i as int));
        let v = chars_of(texts[i]);
        let (a, b) = trim_bounds(v.as_slice(), 0, v.len());
        assert(v@.subrange(0, v@.len() as int) =~= v@);
        if a < b {
            if out.len() > 0 {
                out.push(' ');
            }
            push_all(&mut out, &v[a..b]);
        }
        assert(out@ =~= joined_cell_words(ts.take(i + 1)));
    }
    assert(ts.take(n as int) =~= ts);
    string_from_chars(out.as_slice())
}

/// Number of cells of a grid whose trimmed text is nonempty.
pub open spec fn filled_cells(grid: Seq<Seq<Seq<char>>>) -> nat
    decreases grid.len(),
{
    if grid.len() == 0 {
        0
    } else {
        filled_cells(grid.drop_last()) + filled_in_row(grid.last())
    }
}

/// Number of cells of a row whose trimmed text is nonempty.
pub open spec fn filled_in_row(row: Seq<Seq<char>>) -> nat
    decreases row.len(),
{
    if row.len() == 0 {
        0
    } else {
        filled_in_row(row.drop_last()) + (if trim(row.last()).len() > 0 { 1nat } else { 0nat })
    }
}

/// A recognised table is kept unless it has more than four cells and fewer
/// than a quarter of them hold text.
pub open spec fn table_dense_enough(grid: Seq<Seq<Seq<char>>>, rows: nat, cols: nat) -> bool {
    let total = rows * cols;
    !(total > 4 && filled_cells(grid) < total / 4)
}

/// Whether a recognised table has enough filled cells to be kept.
pub fn has_enough_filled_cells(grid: &[Vec<String>], num_rows: usize, num_cols: usize) -> (r: bool)
    requires
        num_rows * num_cols <= usize::MAX,
    ensures
        r == table_dense_enough(grid_view(grid@), num_rows as nat, num_cols as nat),
{
    let ghost g = grid_view(grid@);
    let total = num_rows * num_cols;
    let mut filled: u128 = 0;
    let n = grid.len();
    for i in 0..n
        invariant
            n == grid@.len() == g.len(),
            g == grid_view(grid@),
            filled == filled_cells(g.take(i as int)),
            filled <= i * usize::MAX,
            n <= usize::MAX,
    {
        assert(g.take(i + 1).drop_last() =~= g.take(i as int));
        let row = &grid[i];
        let ghost rv = g[i as int];
        assert(rv == row@.map_values(|c: String| c@));
        let m = row.len();
        let mut in_row: usize = 0;
        for j in 0..m
            invariant
                m == row@.len() == rv.len(),
                rv == row@.map_values(|c: String| c@),
                in_row == filled_in_row(rv.take(j as int)),
                in_row <= j,
        {
            assert(rv.take(j + 1).drop_last() =~= rv.take(j as int));
            let v = chars_of(row[j].as_str());
            let (a, b) = trim_bounds(v.as_slice(), 0, v.len());
            assert(v@.subrange(0, v@.len() as int) =~= v@);
            if a < b {
                in_row = in_row + 1;
            }
        }
        assert(rv.take(m as int) =~= rv);
        assert(filled + in_row <= (i + 1) * usize::MAX) by (nonlinear_arith)
            requires
                filled <= i * usize::MAX,
                in_row <= usize::MAX,
        ;
        filled = filled + in_row as u128;
    }
    assert(g.take(n as int) =~= g);
    !(total > 4 && filled < (total / 4) as u128)
}

/// Width and height of a table crop with the given pixel edges (an edge
/// past its opposite gives zero), when the crop is at least 10 pixels each
/// way and at most four million pixels in all; `None` otherwise.
pub open spec fn usable_crop(left: u32, top: u32, right: u32, bottom: u32) -> Option<(u32, u32)> {
    let w: int = if right > left { right - left } else { 0 };
    let h: int = if bottom > top { bottom - top } else { 0 };
    if w < 10 || h < 10 {
        None
    } else if w * h > 4_000_000 {
        None
    } else {
        Some((w as u32, h as u32))
    }
}

/// The size of a table crop for structure recognition, or `None` when the
/// crop is too small to hold a table or too large to process.
pub fn table_crop_size(px_left: u32, px_top: u32, px_right: u32, px_bottom: u32) -> (r: Option<
    (u32, u32),
>)
    ensures
        r == usable_crop(px_left, px_top, px_right, px_bottom),
{
    let crop_w = px_right.saturating_sub(px_left);
    let crop_h = px_bottom.saturating_sub(px_top);
    if crop_w < 10 || crop_h < 10 {
        return None;
    }
    proof {
        assert((crop_w as int) * (crop_h as int) <= 0xFFFF_FFFF * 0xFFFF_FFFF)
            by (nonlinear_arith)
            requires
                0 <= crop_w <= 0xFFFF_FFFF,
                0 <= crop_h <= 0xFFFF_FFFF,
        ;
    }
    let area: u64 = (crop_w as u64) * (crop_h as u64);
    if area > 4_000_000 {
        return None;
    }
    Some((crop_w, crop_h))
}

/// Text of the last cell that lands on grid position `(r, c)` once cell
/// coordinates are shifted by `(min_row, min_col)`; empty when none does.
pub open spec fn text_at(
    cells: Seq<(usize, usize)>,
    texts: Seq<Seq<char>>,
    min_row: int,
    min_col: int,
    r: int,
    c: int,
) -> Seq<char>
    decreases cells.len(),
{
    if cells.len() == 0 {
        seq![]
    } else {
        let k = cells.len() - 1;
        if cells[k].0 - min_row == r && cells[k].1 - min_col == c {
            texts[k]
        } else {
            text_at(cells.drop_last(), texts, min_row, min_col, r, c)
        }
    }
}

/// The smallest first (`first == true`) or second coordinate of the cells.
pub open spec fn min_coord(cells: Seq<(usize, usize)>, first: bool) -> int
    decreases cells.len(),
{
    if cells.len() == 0 {
        0
    } else {
        let x = if first { cells.last().0 as int } else { cells.last().1 as int };
        if cells.len() == 1 {
            x
        } else {
            let m = min_coord(cells.drop_last(), first);
            if x < m { x } else { m }
        }
    }
}

/// The largest first or second coordinate of the cells.
pub open spec fn max_coord(cells: Seq<(usize, usize)>, first: bool) -> int
    decreases cells.len(),
{
    if cells.len() == 0 {
        0
    } else {
        let x = if first { cells.last().0 as int } else { cells.last().1 as int };
        if cells.len() == 1 {
            x
        } else {
            let m = max_coord(cells.drop_last(), first);
            if x > m { x } else { m }
        }
    }
}

/// The grid of a table recognised from cells with `(row, col)` coordinates:
/// coordinates are shifted so the smallest is zero, the grid is as large as
/// the cells reach but no larger than `rows × cols`, and each position holds
/// the text of the last cell that lands on it.
pub open spec fn cells_grid(
    cells: Seq<(usize, usize)>,
    texts: Seq<Seq<char>>,
    rows: int,
    cols: int,
) -> Seq<Seq<Seq<char>>> {
    if cells.len() == 0 || rows == 0 || cols == 0 {
        seq![]
    } else {
        let min_r = min_coord(cells, true);
        let min_c = min_coord(cells, false);
        let span_r = max_coord(cells, true) - min_r + 1;
        let span_c = max_coord(cells, false) - min_c + 1;
        let gr = if rows < span_r { rows } else { span_r };
        let gc = if cols < span_c { cols } else { span_c };
        Seq::new(
            gr as nat,
            |r: int| Seq::new(gc as nat, |c: int| text_at(cells, texts, min_r, min_c, r, c)),
        )
    }
}

proof fn lemma_min_max(cells: Seq<(usize, usize)>, first: bool)
    requires
        cells.len() > 0,
    ensures
        0 <= min_coord(cells, first) <= max_coord(cells, first) <= usize::MAX,
    decreases cells.len(),
{
    if cells.len() > 1 {
        lemma_min_max(cells.drop_last(), first);
    }
}

fn coord_extremes(cells: &[(usize, usize)], first: bool) -> (r: (usize, usize))
    requires
        cells@.len() > 0,
    ensures
        r.0 == min_coord(cells@, first),
        r.1 == max_coord(cells@, first),
{
    let x0 = if first { cells[0].0 } else { cells[0].1 };
    let mut lo = x0;
    let mut hi = x0;
    let n = cells.len();
    assert(cells@.take(1).drop_last().len() == 0);
    for i in 1..n
        invariant
            n == cells@.len(),
            lo == min_coord(cells@.take(i as int), first),
            hi == max_coord(cells@.take(i as int), first),
    {
        assert(cells@.take(i + 1).drop_last() =~= cells@.take(i as int));
        let x = if first { cells[i].0 } else { cells[i].1 };
        if x < lo {
            lo = x;
        }
        if x > hi {
            hi = x;
        }
    }
    assert(cells@.take(n as int) =~= cells@);
    (lo, hi)
}

fn find_text_at(
    cells: &[(usize, usize)],
    texts: &[String],
    min_row: usize,
    min_col: usize,
    r: usize,
    c: usize,
) -> (t: String)
    requires
        cells@.len() == texts@.len(),
        forall|k: int| 0 <= k < cells@.len() ==> cells@[k].0 >= min_row && cells@[k].1 >= min_col,
    ensures
        t@ == text_at(
            cells@,
            texts@.map_values(|s: String| s@),
            min_row as int,
            min_col as int,
            r as int,
            c as int,
        ),
{
    let ghost tv = texts@.map_values(|s: String| s@);
    let mut k = cells.len();
    assert(cells@.take(k as int) =~= cells@);
    while k > 0
        invariant
            k <= cells@.len() == texts@.len(),
            tv == texts@.map_values(|s: String| s@),
            forall|q: int| 0 <= q < cells@.len() ==> cells@[q].0 >= min_row && cells@[q].1 >= min_col,
            text_at(cells@, tv, min_row as int, min_col as int, r as int, c as int) == text_at(
                cells@.take(k as int),
                tv,
                min_row as int,
                min_col as int,
                r as int,
                c as int,
            ),
        decreases k,
    {
        assert(cells@.take(k as int).drop_last() =~= cells@.take(k - 1));
        let (cr, cc) = cells[k - 1];
        if cr - min_row == r && cc - min_col == c {
            return texts[k - 1].clone();
        }
        k = k - 1;
    }
    String::new()
}

/// Place per-cell texts into the grid of a table recognised from cell
/// coordinates (rows and columns relative to the table's first cell).
pub fn place_cells_in_grid(
    cells: &[(usize, usize)],
    num_rows: usize,
    num_cols: usize,
    texts: &[String],
) -> (grid: Vec<Vec<String>>)
    requires
        cells@.len() == texts@.len(),
    ensures
        grid_view(grid@) == cells_grid(
            cells@,
            texts@.map_values(|s: String| s@),
            num_rows as int,
            num_cols as int,
        ),
{
    let ghost tv = texts@.map_values(|s: String| s@);
    let mut grid: Vec<Vec<String>> = Vec::new();
    if cells.len() == 0 || num_rows == 0 || num_cols == 0 {
        assert(grid_view(grid@) =~= seq![]);
        return grid;
    }
    proof {
        lemma_min_max(cells@, true);
        lemma_min_max(cells@, false);
    }
    let (min_r, max_r) = coord_extremes(cells, true);
    let (min_c, max_c) = coord_extremes(cells, false);
    assert forall|k: int| 0 <= k < cells@.len() implies cells@[k].0 >= min_r && cells@[k].1
        >= min_c by {
        lemma_min_le_each(cells@, k);
    }
    let span_r = max_r - min_r;
    let span_c = max_c - min_c;
    let gr = if num_rows - 1 < span_r { num_rows } else { span_r + 1 };
    let gc = if num_cols - 1 < span_c { num_cols } else { span_c + 1 };
    let ghost target = cells_grid(cells@, tv, num_rows as int, num_cols as int);
    for r in 0..gr
        invariant
            cells@.len() == texts@.len(),
            cells@.len() > 0,
            tv == texts@.map_values(|s: String| s@),
            min_r == min_coord(cells@, true),
            min_c == min_coord(cells@, false),
            forall|k: int| 0 <= k < cells@.len() ==> cells@[k].0 >= min_r && cells@[k].1 >= min_c,
            target.len() == gr,
            forall|q: int| 0 <= q < gr ==> (#[trigger] target[q]).len() == gc,
            forall|q: int, c: int|
                0 <= q < gr && 0 <= c < gc ==> #[trigger] target[q][c] == text_at(
                    cells@,
                    tv,
                    min_r as int,
                    min_c as int,
                    q,
                    c,
                ),
            grid_view(grid@) == target.take(r as int),
    {
        let mut row: Vec<String> = Vec::new();
        for c in 0..gc
            invariant
                cells@.len() == texts@.len(),
                tv == texts@.map_values(|s: String| s@),
                forall|k: int| 0 <= k < cells@.len() ==> cells@[k].0 >= min_r && cells@[k].1 >= min_c,
                r < target.len(),
                target[r as int].len() == gc,
                forall|c2: int|
                    0 <= c2 < gc ==> #[trigger] target[r as int][c2] == text_at(
                        cells@,
                        tv,
                        min_r as int,
                        min_c as int,
                        r as int,
                        c2,
                    ),
                row@.map_values(|s: String| s@) == target[r as int].take(c as int),
        {
            let t = find_text_at(cells, texts, min_r, min_c, r, c);
            let ghost prev = row@;
            let ghost tvv = t@;
            row.push(t);
            assert(row@.map_values(|s: String| s@) =~= prev.map_values(|s: String| s@).push(tvv));
            assert(target[r as int].take(c + 1) =~= target[r as int].take(c as int).push(
                target[r as int][c as int],
            ));
        }
        assert(target[r as int].take(gc as int) =~= target[r as int]);
        let ghost prev_grid = grid@;
        let ghost rowv = row@;
        grid.push(row);
        assert(grid_view(grid@) =~= grid_view(prev_grid).push(rowv.map_values(|s: String| s@)));
        assert(target.take(r + 1) =~= target.take(r as int).push(target[r as int]));
    }
    assert(target.take(gr as int) =~= target);
    grid
}

proof fn lemma_min_le_each(cells: Seq<(usize, usize)>, k: int)
    requires
        0 <= k < cells.len(),
    ensures
        min_coord(cells, true) <= cells[k].0,
        min_coord(cells, false) <= cells[k].1,
    decreases cells.len(),
{
    if k < cells.len() - 1 {
        lemma_min_le_each(cells.drop_last(), k);
    }
}

} // verus!
