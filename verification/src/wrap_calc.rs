//! Soft-wrap geometry: how many display rows a line occupies at a given
//! width, and where any grapheme index lands on screen. Layout and cursor
//! placement must both come here, with the same width, to agree.

use vstd::prelude::*;

use crate::unicode::{gcluster, gwidth, lemma_cluster_count_le_chars, split_graphemes, str_width};

verus! {

/// Visual position of a cursor after accounting for soft wrap.
#[derive(Debug, Clone, Copy, PartialEq, Eq, Structural)]
pub struct VisualPosition {
    /// Display rows consumed by all logical lines before the cursor's.
    pub rows_before: usize,
    /// The wrapped sub-row within the cursor's logical line.
    pub wrap_row: usize,
    /// The column on that sub-row, in display-width units.
    pub col: usize,
    /// Total display rows the cursor's logical line occupies.
    pub line_display_rows: usize,
}

/// The width used for walking cell `i`: the cell's display width, or one
/// column for each virtual cell past the line end.
pub open spec fn unit_width(l: Seq<Seq<char>>, i: int) -> int {
    if 0 <= i < l.len() {
        gwidth(l[i]) as int
    } else {
        1
    }
}

/// The `(wrap_row, column)` state after greedily packing the first `i`
/// cells at width `w`: a cell that would overrun the width starts the next
/// row whole, and zero-width cells consume nothing.
pub open spec fn wstate(l: Seq<Seq<char>>, w: int, i: int) -> (int, int)
    decreases i,
{
    if i <= 0 {
        (0, 0)
    } else {
        let prev = wstate(l, w, i - 1);
        let gw = unit_width(l, i - 1);
        if gw == 0 {
            prev
        } else if prev.1 + gw > w {
            (prev.0 + 1, gw)
        } else {
            (prev.0, prev.1 + gw)
        }
    }
}

/// Where the cell `i` itself lands: the packing state just before it, with
/// the row advanced when the cell must wrap.
pub open spec fn wentry(l: Seq<Seq<char>>, w: int, i: int) -> (int, int) {
    let prev = wstate(l, w, i);
    let gw = unit_width(l, i);
    if gw > 0 && prev.1 + gw > w {
        (prev.0 + 1, 0)
    } else {
        (prev.0, prev.1)
    }
}

/// A glyph is never split across rows: where it lands, either it fits
/// wholly before the right edge, or it begins a fresh row at column zero.
pub proof fn lemma_wrap_never_splits_glyph(l: Seq<Seq<char>>, w: int, i: int)
    requires
        unit_width(l, i) > 0,
    ensures
        wentry(l, w, i).1 + unit_width(l, i) <= w || wentry(l, w, i).1 == 0,
{
}

/// The row only grows by whole cells: packing `i` cells never uses more
/// rows than `i`.
pub proof fn lemma_wstate_rows_le(l: Seq<Seq<char>>, w: int, i: int)
    requires
        i >= 0,
    ensures
        0 <= wstate(l, w, i).0 <= i,
        wstate(l, w, i).1 >= 0,
    decreases i,
{
    if i > 0 {
        lemma_wstate_rows_le(l, w, i - 1);
    }
}

/// The display rows a single line occupies at `width`; zero width means no
/// wrapping at all.
pub fn display_rows_for_line(line: &str, width: usize) -> (r: usize)
    requires
        line@.len() < usize::MAX,
    ensures
        width == 0 ==> r == 1,
        width > 0 ==> r == 1 + wstate(gcluster(line@), width as int, gcluster(line@).len() as int).0,
        r <= line@.len() + 1,
{
    if width == 0 {
        return 1;
    }
    let cells = split_graphemes(line);
    let ghost l = gcluster(line@);
    proof {
        lemma_cluster_count_le_chars(l);
    }
    let n = cells.len();
    let mut rows: usize = 0;
    let mut col: usize = 0;
    let mut i: usize = 0;
    while i < n
        invariant
            i <= n,
            n == l.len(),
            width > 0,
            cells.deep_view() == l,
            n <= line@.len() < usize::MAX,
            (rows as int, col as int) == wstate(l, width as int, i as int),
            rows <= i,
        decreases n - i,
    {
        let gw = str_width(cells[i].as_str());
        proof {
            assert(l[i as int] == cells@[i as int]@);
            lemma_wstate_rows_le(l, width as int, i as int);
        }
        if gw > 0 {
            let wrapped = if col <= width {
                gw > width - col
            } else {
                true
            };
            if wrapped {
                rows = rows + 1;
                col = gw;
            } else {
                col = col + gw;
            }
        }
        i = i + 1;
    }
    rows + 1
}

/// The `(wrap_row, column, width)` screen slot of each grapheme index in
/// `[col_start, col_end)`: real cells first, then single-column virtual
/// cells past the line end, continuing the same wrap accounting. A start
/// past the line end yields nothing.
pub fn visual_positions_in_range(line: &str, col_start: usize, col_end: usize, width: usize) -> (r:
    Vec<(usize, usize, usize)>)
    requires
        line@.len() + col_end < usize::MAX,
    ensures
        ({
            let l = gcluster(line@);
            let w: int = if width == 0 {
                1
            } else {
                width as int
            };
            &&& col_start > l.len() ==> r@.len() == 0
            &&& (col_start <= l.len() && col_end >= col_start) ==> r@.len() == col_end - col_start
            &&& (col_start <= l.len() && col_end < col_start) ==> r@.len() == 0
            &&& forall|k: int|
                0 <= k < r@.len() ==> ((#[trigger] r@[k]).0 as int, r@[k].1 as int) == wentry(
                    l,
                    w,
                    col_start + k,
                ) && r@[k].2 == unit_width(l, col_start + k)
        }),
{
    walk_positions(line, col_start, col_end, width, true)
}

/// The same slots for a block rectangle: every index in
/// `[start_col, end_col)` gets one, however short the line is.
pub fn virtual_block_positions(line: &str, start_col: usize, end_col: usize, width: usize) -> (r:
    Vec<(usize, usize, usize)>)
    requires
        line@.len() + end_col < usize::MAX,
    ensures
        ({
            let l = gcluster(line@);
            let w: int = if width == 0 {
                1
            } else {
                width as int
            };
            &&& end_col >= start_col ==> r@.len() == end_col - start_col
            &&& end_col < start_col ==> r@.len() == 0
            &&& forall|k: int|
                0 <= k < r@.len() ==> ((#[trigger] r@[k]).0 as int, r@[k].1 as int) == wentry(
                    l,
                    w,
                    start_col + k,
                ) && r@[k].2 == unit_width(l, start_col + k)
        }),
{
    walk_positions(line, start_col, end_col, width, false)
}

/// The shared walk behind both position listings; with `stop_at_end` the
/// virtual tail is dropped whenever the range begins past the line.
fn walk_positions(line: &str, col_start: usize, col_end: usize, width: usize, stop_at_end: bool)
    -> (r: Vec<(usize, usize, usize)>)
    requires
        line@.len() + col_end < usize::MAX,
    ensures
        ({
            let l = gcluster(line@);
            let w: int = if width == 0 {
                1
            } else {
                width as int
            };
            let none = stop_at_end && col_start > l.len();
            &&& none ==> r@.len() == 0
            &&& (!none && col_end >= col_start) ==> r@.len() == col_end - col_start
            &&& (!none && col_end < col_start) ==> r@.len() == 0
            &&& forall|k: int|
                0 <= k < r@.len() ==> ((#[trigger] r@[k]).0 as int, r@[k].1 as int) == wentry(
                    l,
                    w,
                    col_start + k,
                ) && r@[k].2 == unit_width(l, col_start + k)
        }),
{
    let w = if width == 0 {
        1
    } else {
        width
    };
    let cells = split_graphemes(line);
    let ghost l = gcluster(line@);
    proof {
        lemma_cluster_count_le_chars(l);
    }
    let n = cells.len();
    let mut out: Vec<(usize, usize, usize)> = Vec::new();
    let mut wrap_row: usize = 0;
    let mut col: usize = 0;
    let mut i: usize = 0;
    while i < n
        invariant
            i <= n,
            n == l.len(),
            w >= 1,
            w == if width == 0 {
                1int
            } else {
                width as int
            },
            cells.deep_view() == l,
            n <= line@.len(),
            line@.len() + col_end < usize::MAX,
            l == gcluster(line@),
            (wrap_row as int, col as int) == wstate(l, w as int, i as int),
            wrap_row <= i,
            out@.len() == if col_start <= i && col_start <= col_end {
                (if i < col_end {
                    i as int
                } else {
                    col_end as int
                }) - col_start
            } else {
                0int
            },
            forall|k: int|
                0 <= k < out@.len() ==> ((#[trigger] out@[k]).0 as int, out@[k].1 as int)
                    == wentry(l, w as int, col_start + k) && out@[k].2 == unit_width(
                    l,
                    col_start + k,
                ),
        decreases n - i,
    {
        let gw = str_width(cells[i].as_str());
        proof {
            assert(l[i as int] == cells@[i as int]@);
            lemma_wstate_rows_le(l, w as int, i as int);
        }
        let wraps = gw > 0 && (if col <= w {
            gw > w - col
        } else {
            true
        });
        if i >= col_start && i < col_end {
            let ghost prev = out@;
            if wraps {
                out.push((wrap_row + 1, 0, gw));
            } else {
                out.push((wrap_row, col, gw));
            }
            proof {
                assert(out@ =~= prev.push(out@[out@.len() - 1]));
            }
        }
        if gw > 0 {
            if wraps {
                wrap_row = wrap_row + 1;
                col = gw;
            } else {
                col = col + gw;
            }
        }
        i = i + 1;
    }
    if stop_at_end && i > col_end {
        proof {
            assert(out@.len() == if col_start <= col_end {
                col_end - col_start
            } else {
                0int
            } || col_start > n);
        }
    }
    if stop_at_end && col_start > n {
        proof {
            assert(out@.len() == 0);
        }
        return out;
    }
    while i < col_end
        invariant
            n <= i,
            n == l.len(),
            w >= 1,
            w == if width == 0 {
                1int
            } else {
                width as int
            },
            n <= line@.len(),
            line@.len() + col_end < usize::MAX,
            l == gcluster(line@),
            (wrap_row as int, col as int) == wstate(l, w as int, i as int),
            wrap_row <= i,
            i <= if col_end > n {
                col_end as int
            } else {
                n as int
            },
            out@.len() == if col_start <= i && col_start <= col_end {
                (if i < col_end {
                    i as int
                } else {
                    col_end as int
                }) - col_start
            } else {
                0int
            },
            forall|k: int|
                0 <= k < out@.len() ==> ((#[trigger] out@[k]).0 as int, out@[k].1 as int)
                    == wentry(l, w as int, col_start + k) && out@[k].2 == unit_width(
                    l,
                    col_start + k,
                ),
        decreases col_end - i,
    {
        proof {
            lemma_wstate_rows_le(l, w as int, i as int);
        }
        let wraps = col >= w;
        if i >= col_start {
            let ghost prev = out@;
            if wraps {
                out.push((wrap_row + 1, 0, 1));
            } else {
                out.push((wrap_row, col, 1));
            }
            proof {
                assert(out@ =~= prev.push(out@[out@.len() - 1]));
            }
        }
        if wraps {
            wrap_row = wrap_row + 1;
            col = 1;
        } else {
            col = col + 1;
        }
        i = i + 1;
    }
    out
}

/// The packed sum of row budgets for the lines before `k`: what bounds the
/// rows-before total.
pub open spec fn rows_budget(ls: Seq<Seq<char>>, k: int) -> int
    decreases k,
{
    if k <= 0 {
        0
    } else {
        rows_budget(ls, k - 1) + 1 + ls[k - 1].len()
    }
}

/// The visual cursor position over the whole document: rows consumed by
/// prior lines, then the wrap row and display column reached by walking
/// the cursor's line up to its grapheme column.
pub fn visual_cursor_position(
    lines: &Vec<String>,
    cursor_row: usize,
    cursor_col: usize,
    width: usize,
) -> (r: VisualPosition)
    requires
        cursor_row <= lines@.len(),
        forall|i: int| 0 <= i < lines@.len() ==> (#[trigger] lines@[i])@.len() < usize::MAX,
        rows_budget(lines.deep_view(), cursor_row as int) <= usize::MAX,
    ensures
        ({
            let w: int = if width == 0 {
                1
            } else {
                width as int
            };
            let line = if cursor_row < lines@.len() {
                gcluster(lines@[cursor_row as int]@)
            } else {
                gcluster(Seq::<char>::empty())
            };
            &&& (r.wrap_row as int, r.col as int) == wentry_at(line, w, cursor_col as int)
            &&& width == 0 ==> r.rows_before == cursor_row
            &&& width > 0 ==> r.rows_before == rows_total(lines.deep_view(), width as int, cursor_row as int)
            &&& width == 0 ==> r.line_display_rows == 1
            &&& width > 0 ==> r.line_display_rows == 1 + wstate(line, width as int, line.len() as int).0
        }),
{
    let w = if width == 0 {
        1
    } else {
        width
    };
    let mut rows_before: usize = 0;
    let mut k: usize = 0;
    while k < cursor_row
        invariant
            k <= cursor_row <= lines@.len(),
            forall|i: int| 0 <= i < lines@.len() ==> (#[trigger] lines@[i])@.len() < usize::MAX,
            rows_budget(lines.deep_view(), cursor_row as int) <= usize::MAX,
            width == 0 ==> rows_before == k,
            width > 0 ==> rows_before == rows_total(lines.deep_view(), width as int, k as int),
            rows_before <= rows_budget(lines.deep_view(), k as int),
        decreases cursor_row - k,
    {
        let ghost dv = lines.deep_view();
        proof {
            assert(dv[k as int] == lines@[k as int]@);
            assert(lines@[k as int]@.len() < usize::MAX);
        }
        let rk = display_rows_for_line(lines[k].as_str(), width);
        proof {
            assert(rows_budget(dv, k + 1) == rows_budget(dv, k as int) + 1 + dv[k as int].len());
            lemma_rows_budget_mono(dv, k + 1, cursor_row as int);
            if width > 0 {
                assert(rows_total(dv, width as int, k + 1) == rows_total(dv, width as int, k as int)
                    + 1 + wstate(
                    gcluster(dv[k as int]),
                    width as int,
                    gcluster(dv[k as int]).len() as int,
                ).0);
            }
        }
        rows_before = rows_before + rk;
        k = k + 1;
    }
    let line_str = if cursor_row < lines.len() {
        lines[cursor_row].as_str()
    } else {
        ""
    };
    proof {
        if cursor_row < lines@.len() {
            assert(lines@[cursor_row as int]@.len() < usize::MAX);
        } else {
            reveal_strlit("");
            assert(line_str@ =~= Seq::<char>::empty());
        }
    }
    let ghost line = gcluster(line_str@);
    let line_display_rows = display_rows_for_line(line_str, width);
    let cells = split_graphemes(line_str);
    proof {
        lemma_cluster_count_le_chars(line);
        if cursor_row >= lines@.len() {
            reveal_strlit("");
            assert(line_str@ =~= Seq::<char>::empty());
        }
    }
    let n = cells.len();
    let mut wrap_row: usize = 0;
    let mut col: usize = 0;
    let mut i: usize = 0;
    let stop = if cursor_col < n {
        cursor_col
    } else {
        n
    };
    while i < stop
        invariant
            i <= stop <= n,
            n == line.len(),
            w >= 1,
            w == if width == 0 {
                1
            } else {
                width as int
            },
            cells.deep_view() == line,
            n <= line_str@.len() < usize::MAX,
            line == gcluster(line_str@),
            (wrap_row as int, col as int) == wstate(line, w as int, i as int),
            wrap_row <= i,
        decreases stop - i,
    {
        let gw = str_width(cells[i].as_str());
        proof {
            assert(line[i as int] == cells@[i as int]@);
            lemma_wstate_rows_le(line, w as int, i as int);
        }
        if gw > 0 {
            let wrapped = if col <= w {
                gw > w - col
            } else {
                true
            };
            if wrapped {
                wrap_row = wrap_row + 1;
                col = gw;
            } else {
                col = col + gw;
            }
        }
        i = i + 1;
    }
    if stop < n && stop == cursor_col {
        let gw = str_width(cells[stop].as_str());
        proof {
            assert(line[stop as int] == cells@[stop as int]@);
            lemma_wstate_rows_le(line, w as int, stop as int);
        }
        if gw > 0 {
            let wraps = if col <= w {
                gw > w - col
            } else {
                true
            };
            if wraps {
                wrap_row = wrap_row + 1;
                col = 0;
            }
        }
    }
    VisualPosition { rows_before, wrap_row, col, line_display_rows }
}

/// Where the cursor's grapheme column lands: past the line end it is the
/// packing state itself, on a cell it is that cell's entry.
pub open spec fn wentry_at(l: Seq<Seq<char>>, w: int, c: int) -> (int, int) {
    if c < l.len() {
        wentry(l, w, c)
    } else {
        wstate(l, w, l.len() as int)
    }
}

/// The display rows of all lines before `k`, as the renderer sums them.
pub open spec fn rows_total(ls: Seq<Seq<char>>, w: int, k: int) -> int
    decreases k,
{
    if k <= 0 {
        0
    } else {
        rows_total(ls, w, k - 1) + 1 + wstate(gcluster(ls[k - 1]), w, gcluster(ls[k - 1]).len() as int).0
    }
}

/// The budget never shrinks as more lines are counted.
proof fn lemma_rows_budget_mono(ls: Seq<Seq<char>>, a: int, b: int)
    requires
        0 <= a <= b,
    ensures
        rows_budget(ls, a) <= rows_budget(ls, b),
    decreases b - a,
{
    if a < b {
        lemma_rows_budget_mono(ls, a, b - 1);
        assert(ls[b - 1].len() >= 0);
    }
}

} // verus!
