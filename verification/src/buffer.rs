//! The text buffer: an ordered sequence of lines, each a sequence of
//! grapheme cells, with a clamped cursor and a bounded undo/redo history.

use vstd::prelude::*;
use vstd::pervasive::VecAdditionalExecFns;
use vstd::seq_lib::lemma_flatten_concat;

use crate::text::{
    all_ws, join_lines, lines_of, lemma_lines_round_trip, split_lines, split_on_nl, split_raw,
};
use crate::unicode::{gcluster, gwidth, join_cells, lower_of, split_graphemes};
use crate::vim_mode::Motion;

verus! {

/// The most undo snapshots kept; the oldest is evicted beyond this.
pub const MAX_UNDO_LEVELS: usize = 50;

/// The text carried by one line: its grapheme cells, concatenated.
pub open spec fn flat(l: Seq<Seq<char>>) -> Seq<char> {
    l.flatten()
}

/// The document text: lines joined with single newlines.
pub open spec fn lines_text(ls: Seq<Seq<Seq<char>>>) -> Seq<char> {
    join_lines(ls.map_values(|l: Seq<Seq<char>>| l.flatten()))
}

/// A valid buffer shape: at least one line, the cursor on a real line and
/// at most one past its last grapheme.
pub open spec fn cursor_ok(ls: Seq<Seq<Seq<char>>>, row: int, col: int) -> bool {
    &&& ls.len() >= 1
    &&& 0 <= row < ls.len()
    &&& 0 <= col <= ls[row].len()
}

/// The first index at or after `i` whose cell's whitespace-ness differs
/// from `ws` (or the line length, when none does).
pub open spec fn scan_from(l: Seq<Seq<char>>, i: int, ws: bool) -> int
    decreases l.len() - i,
{
    if i < 0 || i >= l.len() {
        l.len() as int
    } else if all_ws(l[i]) == ws {
        scan_from(l, i + 1, ws)
    } else {
        i
    }
}

/// Walks left from `i` over whitespace cells.
pub open spec fn skip_ws_back(l: Seq<Seq<char>>, i: int) -> int
    decreases i,
{
    if 0 < i < l.len() && all_ws(l[i]) {
        skip_ws_back(l, i - 1)
    } else {
        i
    }
}

/// Walks left from `i` to the start of the run of word cells before it.
pub open spec fn word_start(l: Seq<Seq<char>>, i: int) -> int
    decreases i,
{
    if 0 < i <= l.len() && !all_ws(l[i - 1]) {
        word_start(l, i - 1)
    } else {
        i
    }
}

/// The number of leading cells that are a single plain space.
pub open spec fn leading_spaces(l: Seq<Seq<char>>) -> int
    decreases l.len(),
{
    if l.len() > 0 && l[0] == seq![' '] {
        1 + leading_spaces(l.drop_first())
    } else {
        0
    }
}

/// The line after one indentation step: `tab` spaces prepended.
pub open spec fn indented(l: Seq<Seq<char>>, tab: int) -> Seq<Seq<char>> {
    Seq::new(tab as nat, |i: int| seq![' ']) + l
}

/// The line after one dedent step: up to `tab` leading spaces removed.
pub open spec fn dedented(l: Seq<Seq<char>>, tab: int) -> Seq<Seq<char>> {
    let remove = if leading_spaces(l) < tab {
        leading_spaces(l)
    } else {
        tab
    };
    l.subrange(remove, l.len() as int)
}

/// A scan that saw `k` spaces and then stopped counts the leading spaces.
proof fn lemma_leading_spaces(l: Seq<Seq<char>>, k: int)
    requires
        0 <= k <= l.len(),
        forall|j: int| 0 <= j < k ==> l[j] == seq![' '],
        k < l.len() ==> l[k] != seq![' '],
    ensures
        leading_spaces(l) == k,
    decreases l.len(),
{
    if k == 0 {
    } else {
        let rest = l.drop_first();
        assert(forall|j: int| 0 <= j < rest.len() ==> rest[j] == l[j + 1]);
        lemma_leading_spaces(rest, k - 1);
    }
}

/// Whether the grapheme cell is a single plain space.
fn cell_is_space(g: &String) -> (r: bool)
    ensures
        r == (g@ == seq![' ']),
{
    let n = g.as_str().unicode_len();
    if n == 1 && g.as_str().get_char(0) == ' ' {
        proof {
            assert(g@ =~= seq![' ']);
        }
        true
    } else {
        proof {
            if g@ == seq![' '] {
                assert(g@.len() == 1 && g@[0] == ' ');
            }
        }
        false
    }
}

/// Counts the leading single-space cells of a line.
fn count_leading_spaces(line: &Vec<String>) -> (r: usize)
    ensures
        r == leading_spaces(line.deep_view()),
        r <= line.len(),
{
    let n = line.len();
    let mut k: usize = 0;
    while k < n
        invariant
            0 <= k <= n,
            n == line.len(),
            line.deep_view().len() == n,
            forall|j: int| 0 <= j < k ==> line.deep_view()[j] == seq![' '],
        decreases n - k,
    {
        if !cell_is_space(&line[k]) {
            proof {
                assert(line.deep_view()[k as int] == line@[k as int]@);
                lemma_leading_spaces(line.deep_view(), k as int);
            }
            return k;
        }
        proof {
            assert(line.deep_view()[k as int] == line@[k as int]@);
        }
        k = k + 1;
    }
    proof {
        lemma_leading_spaces(line.deep_view(), n as int);
    }
    n
}

/// A line of `tab` single-space cells.
fn space_cells(tab: u8) -> (r: Vec<String>)
    ensures
        r.deep_view() == Seq::new(tab as nat, |i: int| seq![' ']),
        r.len() == tab,
{
    let mut out: Vec<String> = Vec::new();
    let mut k: u8 = 0;
    while k < tab
        invariant
            k <= tab,
            out.len() == k,
            out.deep_view() =~= Seq::new(k as nat, |i: int| seq![' ']),
        decreases tab - k,
    {
        let ghost prev = out.deep_view();
        out.push(crate::text::char_to_string(' '));
        proof {
            assert(out.deep_view() =~= prev.push(seq![' ']));
            assert(out.deep_view() =~= Seq::new((k + 1) as nat, |i: int| seq![' ']));
        }
        k = k + 1;
    }
    proof {
        assert(out.deep_view() =~= Seq::new(tab as nat, |i: int| seq![' ']));
    }
    out
}

/// `col` clamped to the line's length.
pub open spec fn clampc(l: Seq<Seq<char>>, col: int) -> int {
    if col <= l.len() {
        col
    } else {
        l.len() as int
    }
}

/// The middle lines' text, one trailing newline each.
pub open spec fn mid_join(ls: Seq<Seq<Seq<char>>>, from: int, to: int) -> Seq<char>
    decreases to - from,
{
    if from >= to {
        Seq::<char>::empty()
    } else {
        flat(ls[from]) + seq!['\n'] + mid_join(ls, from + 1, to)
    }
}

/// The text of the half-open grapheme range from `(sr, sc)` to `(er, ec)`,
/// each column clamped to its line.
pub open spec fn range_text(ls: Seq<Seq<Seq<char>>>, sr: int, sc: int, er: int, ec: int) -> Seq<
    char,
> {
    let scc = clampc(ls[sr], sc);
    let ecc = clampc(ls[er], ec);
    if sr == er {
        flat(ls[sr].subrange(scc, ecc))
    } else {
        flat(ls[sr].subrange(scc, ls[sr].len() as int)) + seq!['\n'] + mid_join(ls, sr + 1, er)
            + flat(ls[er].subrange(0, ecc))
    }
}

/// The document after removing that range: the first line's prefix merged
/// with the last line's suffix, middle lines gone.
pub open spec fn range_removed(
    ls: Seq<Seq<Seq<char>>>,
    sr: int,
    sc: int,
    er: int,
    ec: int,
) -> Seq<Seq<Seq<char>>> {
    let scc = clampc(ls[sr], sc);
    let ecc = clampc(ls[er], ec);
    ls.subrange(0, sr) + seq![
        ls[sr].subrange(0, scc) + ls[er].subrange(ecc, ls[er].len() as int),
    ] + ls.subrange(er + 1, ls.len() as int)
}

pub proof fn lemma_mid_join_extend(ls: Seq<Seq<Seq<char>>>, from: int, to: int)
    requires
        from <= to,
    ensures
        mid_join(ls, from, to + 1) =~= mid_join(ls, from, to) + flat(ls[to]) + seq!['\n'],
    decreases to - from,
{
    if from == to {
        assert(mid_join(ls, to + 1, to + 1) =~= Seq::<char>::empty());
        assert(mid_join(ls, from, to) =~= Seq::<char>::empty());
        assert(mid_join(ls, from, to + 1) =~= flat(ls[to]) + seq!['\n']);
    } else {
        lemma_mid_join_extend(ls, from + 1, to);
        assert(mid_join(ls, from, to + 1) == flat(ls[from]) + seq!['\n'] + mid_join(
            ls,
            from + 1,
            to + 1,
        ));
        assert(mid_join(ls, from, to) == flat(ls[from]) + seq!['\n'] + mid_join(
            ls,
            from + 1,
            to,
        ));
    }
}

/// What a character-wise paste of `t` at grapheme position `pos` of line
/// `row` leaves behind: single-line text goes into the line, multi-line
/// text splits it, and the cursor lands on the last pasted grapheme.
pub open spec fn pasted_charwise(
    ls: Seq<Seq<Seq<char>>>,
    row: int,
    pos: int,
    t: Seq<char>,
    ls2: Seq<Seq<Seq<char>>>,
    row2: int,
    col2: int,
) -> bool {
    let ps = split_on_nl(t);
    let line = ls[row];
    if ps.len() == 1 {
        &&& ls2 =~= ls.update(
            row,
            line.subrange(0, pos) + gcluster(t) + line.subrange(pos, line.len() as int),
        )
        &&& row2 == row
        &&& col2 == if gcluster(t).len() > 0 {
            pos + gcluster(t).len() - 1
        } else {
            pos
        }
    } else {
        let last = ps.len() - 1;
        &&& ls2 =~= ls.subrange(0, row) + seq![line.subrange(0, pos) + gcluster(ps[0])]
            + ps.subrange(1, last as int).map_values(|p: Seq<char>| gcluster(p)) + seq![
            gcluster(ps[last as int]) + line.subrange(pos, line.len() as int),
        ] + ls.subrange(row + 1, ls.len() as int)
        &&& row2 == row + last
        &&& col2 == if gcluster(ps[last as int]).len() > 0 {
            gcluster(ps[last as int]).len() - 1
        } else {
            0
        }
    }
}

/// One character of typed text applied to the document: a newline splits
/// the cursor's line, a carriage return is dropped, anything else becomes
/// one new cell.
pub open spec fn ins_char_step(ls: Seq<Seq<Seq<char>>>, row: int, col: int, c: char) -> (
    Seq<Seq<Seq<char>>>,
    int,
    int,
) {
    if c == '\n' {
        (
            ls.subrange(0, row) + seq![
                ls[row].subrange(0, col),
                ls[row].subrange(col, ls[row].len() as int),
            ] + ls.subrange(row + 1, ls.len() as int),
            row + 1,
            0,
        )
    } else if c == '\r' {
        (ls, row, col)
    } else {
        (
            ls.update(
                row,
                ls[row].subrange(0, col) + seq![seq![c]] + ls[row].subrange(
                    col,
                    ls[row].len() as int,
                ),
            ),
            row,
            col + 1,
        )
    }
}

/// A whole text applied character by character.
pub open spec fn ins_text_rec(ls: Seq<Seq<Seq<char>>>, row: int, col: int, t: Seq<char>) -> (
    Seq<Seq<Seq<char>>>,
    int,
    int,
)
    decreases t.len(),
{
    if t.len() == 0 {
        (ls, row, col)
    } else {
        let st = ins_char_step(ls, row, col, t[0]);
        ins_text_rec(st.0, st.1, st.2, t.drop_first())
    }
}

/// The row reached `o` steps below `srow`, wrapping past the last row.
pub open spec fn row_of(nrows: int, srow: int, o: int) -> int {
    if srow + o < nrows {
        srow + o
    } else {
        srow + o - nrows
    }
}

/// The row reached `o` steps above `srow`, wrapping past the first row.
pub open spec fn row_back_of(nrows: int, srow: int, o: int) -> int {
    if o <= srow {
        srow - o
    } else {
        srow + nrows - o
    }
}

/// A case-insensitive match of the query's grapheme cells at column `c`.
pub open spec fn match_at(l: Seq<Seq<char>>, c: int, q: Seq<Seq<char>>) -> bool {
    &&& 0 <= c
    &&& c + q.len() <= l.len()
    &&& forall|k: int| 0 <= k < q.len() ==> lower_of(l[c + k]) == lower_of(#[trigger] q[k])
}

/// The rank of a position in forward wrapped search order from just after
/// `(srow, scol)`: the start line's later columns first, then each line
/// below (wrapping), and the start line up to the cursor last.
pub open spec fn wrap_rank(nrows: int, srow: int, scol: int, row: int, col: int) -> int {
    if row == srow && col > scol {
        0
    } else if row > srow {
        row - srow
    } else if row < srow {
        nrows - srow + row
    } else {
        nrows
    }
}

/// Whether a backward search from `(srow, scol)` may report a match at
/// `(row, col)`: on the start line only matches that end before the cursor
/// or begin after it.
pub open spec fn prev_eligible(srow: int, scol: int, qlen: int, row: int, col: int) -> bool {
    row != srow || (scol > 0 && col + qlen <= scol - 1) || col > scol
}

/// The rank of a position in backward wrapped search order from just
/// before `(srow, scol)`.
pub open spec fn back_rank(nrows: int, srow: int, scol: int, qlen: int, row: int, col: int) -> int {
    if row == srow && scol > 0 && col + qlen <= scol - 1 {
        0
    } else if row < srow {
        srow - row
    } else if row > srow {
        srow - row + nrows
    } else {
        nrows
    }
}

/// The columns of every match in one line at or after `from`, ascending.
pub open spec fn row_match_cols(l: Seq<Seq<char>>, q: Seq<Seq<char>>, from: int) -> Seq<int>
    decreases l.len() + 1 - from,
{
    if from < 0 || from + q.len() > l.len() {
        Seq::<int>::empty()
    } else if match_at(l, from, q) {
        seq![from] + row_match_cols(l, q, from + 1)
    } else {
        row_match_cols(l, q, from + 1)
    }
}

/// Every match in the document from `row` down, in reading order.
pub open spec fn all_matches(ls: Seq<Seq<Seq<char>>>, q: Seq<Seq<char>>, row: int) -> Seq<
    (int, int),
>
    decreases ls.len() - row,
{
    if row < 0 || row >= ls.len() {
        Seq::<(int, int)>::empty()
    } else {
        row_match_cols(ls[row], q, 0).map_values(|c: int| (row, c)) + all_matches(ls, q, row + 1)
    }
}

/// The query cells lowered one by one.
fn lower_cells(cells: &Vec<String>) -> (r: Vec<String>)
    ensures
        r.deep_view().len() == cells.deep_view().len(),
        forall|k: int|
            0 <= k < cells.deep_view().len() ==> #[trigger] r.deep_view()[k] == lower_of(
                cells.deep_view()[k],
            ),
{
    let mut out: Vec<String> = Vec::new();
    let mut i: usize = 0;
    while i < cells.len()
        invariant
            i <= cells.len(),
            cells.deep_view().len() == cells.len(),
            out.deep_view().len() == i,
            forall|k: int|
                0 <= k < i ==> #[trigger] out.deep_view()[k] == lower_of(cells.deep_view()[k]),
        decreases cells.len() - i,
    {
        let ghost prev = out.deep_view();
        let low = crate::unicode::lowercase(cells[i].as_str());
        out.push(low);
        proof {
            assert(out.deep_view() =~= prev.push(low@));
            assert(cells.deep_view()[i as int] == cells@[i as int]@);
        }
        i = i + 1;
    }
    out
}

/// Whether the lowered query cells `ql` all equal the lowered line cells
/// starting at `c`.
fn cells_match_here(line: &Vec<String>, c: usize, ql: &Vec<String>, qc: &Vec<String>) -> (r: bool)
    requires
        ql.deep_view().len() == qc.deep_view().len(),
        forall|k: int|
            0 <= k < qc.deep_view().len() ==> #[trigger] ql.deep_view()[k] == lower_of(
                qc.deep_view()[k],
            ),
        c + ql.len() <= line.len(),
    ensures
        r == match_at(line.deep_view(), c as int, qc.deep_view()),
{
    let m = ql.len();
    let mut k: usize = 0;
    while k < m
        invariant
            k <= m,
            m == ql.len() == qc.len(),
            ql.deep_view().len() == m && qc.deep_view().len() == m,
            c + m <= line.len(),
            line.deep_view().len() == line.len(),
            forall|k2: int|
                0 <= k2 < qc.deep_view().len() ==> #[trigger] ql.deep_view()[k2] == lower_of(
                    qc.deep_view()[k2],
                ),
            forall|k2: int|
                0 <= k2 < k ==> lower_of(line.deep_view()[c + k2]) == lower_of(
                    #[trigger] qc.deep_view()[k2],
                ),
        decreases m - k,
    {
        let low = crate::unicode::lowercase(line[c + k].as_str());
        if !(low == ql[k]) {
            proof {
                assert(line.deep_view()[c + k] == line@[(c + k) as int]@);
                assert(ql.deep_view()[k as int] == ql@[k as int]@);
                assert(lower_of(line.deep_view()[c + k as int]) != lower_of(
                    qc.deep_view()[k as int],
                ));
            }
            return false;
        }
        proof {
            assert(line.deep_view()[c + k] == line@[(c + k) as int]@);
            assert(ql.deep_view()[k as int] == ql@[k as int]@);
        }
        k = k + 1;
    }
    true
}

/// The leftmost match at or after `from` in one line, if any.
fn find_in_cells_forward(line: &Vec<String>, from: usize, ql: &Vec<String>, qc: &Vec<String>) -> (r:
    Option<usize>)
    requires
        ql.deep_view().len() == qc.deep_view().len(),
        ql.len() > 0,
        forall|k: int|
            0 <= k < qc.deep_view().len() ==> #[trigger] ql.deep_view()[k] == lower_of(
                qc.deep_view()[k],
            ),
    ensures
        r is Some ==> {
            &&& from <= r->0
            &&& match_at(line.deep_view(), r->0 as int, qc.deep_view())
            &&& forall|c2: int|
                from <= c2 < r->0 ==> !match_at(line.deep_view(), c2, qc.deep_view())
        },
        r is None ==> forall|c2: int|
            from <= c2 ==> !match_at(line.deep_view(), c2, qc.deep_view()),
{
    let n = line.len();
    let m = ql.len();
    if m > n || from > n - m {
        proof {
            assert forall|c2: int|
                from <= c2 implies !match_at(line.deep_view(), c2, qc.deep_view()) by {
                assert(c2 + qc.deep_view().len() > line.deep_view().len());
            }
        }
        return None;
    }
    let mut c = from;
    while c <= n - m
        invariant
            from <= c <= n - m + 1,
            m <= n,
            m == ql.len() && n == line.len(),
            ql.deep_view().len() == m && qc.deep_view().len() == m,
            line.deep_view().len() == n,
            forall|k: int|
                0 <= k < qc.deep_view().len() ==> #[trigger] ql.deep_view()[k] == lower_of(
                    qc.deep_view()[k],
                ),
            forall|c2: int| from <= c2 < c ==> !match_at(line.deep_view(), c2, qc.deep_view()),
        decreases n - m + 1 - c,
    {
        if cells_match_here(line, c, ql, qc) {
            return Some(c);
        }
        c = c + 1;
    }
    proof {
        assert forall|c2: int|
            from <= c2 implies !match_at(line.deep_view(), c2, qc.deep_view()) by {
            if c2 > (n - m) as int {
                assert(c2 + qc.deep_view().len() > line.deep_view().len());
            }
        }
    }
    None
}

/// The rightmost match whose end stays within the first `end_col` cells of
/// the line, if any.
fn find_in_cells_backward(line: &Vec<String>, end_col: usize, ql: &Vec<String>, qc: &Vec<String>)
    -> (r: Option<usize>)
    requires
        ql.deep_view().len() == qc.deep_view().len(),
        ql.len() > 0,
        forall|k: int|
            0 <= k < qc.deep_view().len() ==> #[trigger] ql.deep_view()[k] == lower_of(
                qc.deep_view()[k],
            ),
    ensures
        r is Some ==> {
            &&& match_at(line.deep_view(), r->0 as int, qc.deep_view())
            &&& r->0 + ql.deep_view().len() <= end_col || r->0 + ql.deep_view().len()
                <= line.deep_view().len() && line.deep_view().len() <= end_col
            &&& forall|c2: int|
                r->0 < c2 && c2 + qc.deep_view().len() <= end_col ==> !match_at(
                    line.deep_view(),
                    c2,
                    qc.deep_view(),
                )
        },
        r is None ==> forall|c2: int|
            0 <= c2 && c2 + qc.deep_view().len() <= end_col ==> !match_at(
                line.deep_view(),
                c2,
                qc.deep_view(),
            ),
{
    let n = line.len();
    let m = ql.len();
    let bound = if end_col < n {
        end_col
    } else {
        n
    };
    if m > bound {
        proof {
            assert forall|c2: int|
                0 <= c2 && c2 + qc.deep_view().len() <= end_col implies !match_at(
                line.deep_view(),
                c2,
                qc.deep_view(),
            ) by {
                if c2 + qc.deep_view().len() <= line.deep_view().len() {
                }
            }
        }
        return None;
    }
    let mut cp = bound - m + 1;
    while cp > 0
        invariant
            m <= bound <= n,
            0 <= cp <= bound - m + 1,
            bound == if end_col < n {
                end_col as int
            } else {
                n as int
            },
            m == ql.len() && n == line.len(),
            ql.deep_view().len() == m && qc.deep_view().len() == m,
            line.deep_view().len() == n,
            forall|k: int|
                0 <= k < qc.deep_view().len() ==> #[trigger] ql.deep_view()[k] == lower_of(
                    qc.deep_view()[k],
                ),
            forall|c2: int|
                cp <= c2 && c2 + qc.deep_view().len() <= end_col ==> !match_at(
                    line.deep_view(),
                    c2,
                    qc.deep_view(),
                ),
        decreases cp,
    {
        let c = cp - 1;
        if cells_match_here(line, c, ql, qc) {
            return Some(c);
        }
        proof {
            assert forall|c2: int|
                c <= c2 && c2 + qc.deep_view().len() <= end_col implies !match_at(
                line.deep_view(),
                c2,
                qc.deep_view(),
            ) by {
                if c2 > bound - m {
                    if c2 + qc.deep_view().len() <= line.deep_view().len() {
                    }
                }
            }
        }
        cp = cp - 1;
    }
    proof {
        assert forall|c2: int|
            0 <= c2 && c2 + qc.deep_view().len() <= end_col implies !match_at(
            line.deep_view(),
            c2,
            qc.deep_view(),
        ) by {
            if c2 > bound - m {
                if c2 + qc.deep_view().len() <= line.deep_view().len() {
                }
            }
        }
    }
    None
}

/// Whether every character of the grapheme cell is whitespace.
pub fn cell_is_ws(g: &String) -> (r: bool)
    ensures
        r == all_ws(g@),
{
    crate::text::str_all_ws(g.as_str())
}

/// The text of the cells `line[a..b]`, concatenated.
pub fn cells_join(line: &Vec<String>, a: usize, b: usize) -> (r: String)
    requires
        a <= b <= line.len(),
    ensures
        r@ == flat(line.deep_view().subrange(a as int, b as int)),
{
    let mut out = String::new();
    let mut i = a;
    proof {
        assert(line.deep_view().subrange(a as int, a as int) =~= Seq::<Seq<char>>::empty());
        assert(Seq::<Seq<char>>::empty().flatten() =~= Seq::<char>::empty());
    }
    while i < b
        invariant
            a <= i <= b <= line.len(),
            line.deep_view().len() == line.len(),
            out@ == flat(line.deep_view().subrange(a as int, i as int)),
        decreases b - i,
    {
        out.append(line[i].as_str());
        proof {
            let dv = line.deep_view();
            assert(dv.subrange(a as int, i + 1) =~= dv.subrange(a as int, i as int).push(
                dv[i as int],
            ));
            dv.subrange(a as int, i as int).lemma_flatten_push(dv[i as int]);
            assert(dv[i as int] == line@[i as int]@);
        }
        i = i + 1;
    }
    out
}

/// The display column where the cell at grapheme index `col` begins: the
/// summed display widths of all cells before it.
pub open spec fn dcol(l: Seq<Seq<char>>, col: int) -> int
    decreases col,
{
    if col <= 0 {
        0
    } else {
        dcol(l, col - 1) + gwidth(l[col - 1])
    }
}

/// The display span of the cell at `col`: its width, but at least one
/// column, and one column for the virtual cell past the end of the line.
pub open spec fn gspan(l: Seq<Seq<char>>, col: int) -> int {
    if 0 <= col < l.len() && gwidth(l[col]) >= 1 {
        gwidth(l[col]) as int
    } else {
        1
    }
}

/// The index of the cell whose display span covers column `d`, scanning
/// from `i`: the first cell that ends past `d` (or the line length).
pub open spec fn g_at_dcol(l: Seq<Seq<char>>, d: int, i: int) -> int
    decreases l.len() - i,
{
    if i < 0 || i >= l.len() {
        l.len() as int
    } else if dcol(l, i + 1) > d {
        i
    } else {
        g_at_dcol(l, d, i + 1)
    }
}

/// One past the last cell that begins at or before column `d`, scanning
/// from `i`: the first cell that starts past `d` (or the line length).
pub open spec fn g_end_dcol(l: Seq<Seq<char>>, d: int, i: int) -> int
    decreases l.len() - i,
{
    if i < 0 || i >= l.len() {
        l.len() as int
    } else if dcol(l, i) > d {
        i
    } else {
        g_end_dcol(l, d, i + 1)
    }
}

/// Display columns grow with the grapheme index.
pub proof fn lemma_dcol_mono(l: Seq<Seq<char>>, a: int, b: int)
    requires
        0 <= a <= b,
    ensures
        dcol(l, a) <= dcol(l, b),
    decreases b - a,
{
    if a < b {
        lemma_dcol_mono(l, a, b - 1);
    }
}

/// A range's left grapheme bound never passes its right bound.
pub proof fn lemma_g_bounds(l: Seq<Seq<char>>, left: int, right: int, i: int)
    requires
        left <= right,
        0 <= i <= l.len(),
    ensures
        i <= g_at_dcol(l, left, i) <= g_end_dcol(l, right, i) <= l.len(),
    decreases l.len() - i,
{
    if i >= l.len() {
    } else if dcol(l, i) > right {
        assert(dcol(l, i + 1) == dcol(l, i) + gwidth(l[i]));
        assert(dcol(l, i + 1) > left);
    } else {
        lemma_g_bounds(l, left, right, i + 1);
    }
}

/// The cursor position a motion reaches from `(row, col)`.
pub open spec fn motion_target(ls: Seq<Seq<Seq<char>>>, row: int, col: int, m: Motion) -> (
    int,
    int,
) {
    let l = ls[row];
    match m {
        Motion::WordForward => {
            let mid = if col < l.len() && !all_ws(l[col]) {
                scan_from(l, col, false)
            } else {
                col
            };
            let fin = scan_from(l, mid, true);
            if fin >= l.len() && row < ls.len() - 1 {
                (row + 1, 0)
            } else {
                (row, fin)
            }
        },
        Motion::WordBackward => {
            if col == 0 && row > 0 {
                (row - 1, ls[row - 1].len() as int)
            } else {
                (
                    row,
                    word_start(
                        l,
                        skip_ws_back(
                            l,
                            if col > 0 {
                                col - 1
                            } else {
                                0
                            },
                        ),
                    ),
                )
            }
        },
        Motion::LineEnd => (row, l.len() as int),
        Motion::LineStart => (row, 0),
        Motion::FileEnd => (ls.len() - 1, 0),
        Motion::FileStart => (0, 0),
        Motion::Line => (row, col),
    }
}

/// Two positions put into reading order.
pub open spec fn norm_pair(a: (int, int), b: (int, int)) -> ((int, int), (int, int)) {
    if a.0 < b.0 || (a.0 == b.0 && a.1 <= b.1) {
        (a, b)
    } else {
        (b, a)
    }
}

/// A prefix of a line holds no more characters than the whole line.
proof fn lemma_flat_prefix_le(l: Seq<Seq<char>>, i: int)
    requires
        0 <= i <= l.len(),
    ensures
        flat(l.subrange(0, i)).len() <= flat(l).len(),
{
    lemma_flatten_concat(l.subrange(0, i), l.subrange(i, l.len() as int));
    assert(l.subrange(0, i) + l.subrange(i, l.len() as int) =~= l);
}

/// A full copy of the document and cursor, kept for undo.
pub struct BufferSnapshot {
    lines: Vec<Vec<String>>,
    cursor_row: usize,
    cursor_col: usize,
}

impl BufferSnapshot {
    pub closed spec fn glines(&self) -> Seq<Seq<Seq<char>>> {
        self.lines.deep_view()
    }

    pub closed spec fn row(&self) -> int {
        self.cursor_row as int
    }

    pub closed spec fn col(&self) -> int {
        self.cursor_col as int
    }

    pub open spec fn wf(&self) -> bool {
        cursor_ok(self.glines(), self.row(), self.col())
    }
}

/// Appends clones of `src[a..b]` to `dst`.
pub(crate) fn push_cells(dst: &mut Vec<String>, src: &Vec<String>, a: usize, b: usize)
    requires
        a <= b <= src.len(),
    ensures
        final(dst).deep_view() == old(dst).deep_view() + src.deep_view().subrange(
            a as int,
            b as int,
        ),
{
    let mut i = a;
    proof {
        assert(dst.deep_view() =~= old(dst).deep_view() + src.deep_view().subrange(
            a as int,
            a as int,
        ));
    }
    while i < b
        invariant
            a <= i <= b <= src.len(),
            src.deep_view().len() == src.len(),
            dst.deep_view() =~= old(dst).deep_view() + src.deep_view().subrange(
                a as int,
                i as int,
            ),
        decreases b - i,
    {
        let ghost prev = dst.deep_view();
        let c = src[i].clone();
        dst.push(c);
        proof {
            assert(dst.deep_view() =~= prev.push(c@));
            assert(src.deep_view().subrange(a as int, i + 1) =~= src.deep_view().subrange(
                a as int,
                i as int,
            ).push(src.deep_view()[i as int]));
        }
        i = i + 1;
    }
    proof {
        assert(dst.deep_view() =~= old(dst).deep_view() + src.deep_view().subrange(
            a as int,
            b as int,
        ));
    }
}

/// A fresh copy of a line's cells.
pub(crate) fn clone_cells(src: &Vec<String>) -> (r: Vec<String>)
    ensures
        r.deep_view() == src.deep_view(),
{
    let mut out: Vec<String> = Vec::new();
    push_cells(&mut out, src, 0, src.len());
    proof {
        assert(src.deep_view().subrange(0, src.len() as int) =~= src.deep_view());
        assert(out.deep_view() =~= src.deep_view());
    }
    out
}

/// A fresh, fully independent copy of the document's lines.
fn clone_lines(src: &Vec<Vec<String>>) -> (r: Vec<Vec<String>>)
    ensures
        r.deep_view() == src.deep_view(),
{
    let mut out: Vec<Vec<String>> = Vec::new();
    let mut i: usize = 0;
    while i < src.len()
        invariant
            i <= src.len(),
            src.deep_view().len() == src.len(),
            out.deep_view() =~= src.deep_view().subrange(0, i as int),
        decreases src.len() - i,
    {
        let ghost prev = out.deep_view();
        let line = clone_cells(&src[i]);
        out.push(line);
        proof {
            assert(out.deep_view() =~= prev.push(line.deep_view()));
            assert(src.deep_view().subrange(0, i + 1) =~= src.deep_view().subrange(
                0,
                i as int,
            ).push(src.deep_view()[i as int]));
            assert(src.deep_view()[i as int] == src@[i as int].deep_view());
        }
        i = i + 1;
    }
    proof {
        assert(src.deep_view().subrange(0, src.len() as int) =~= src.deep_view());
        assert(out.deep_view() =~= src.deep_view());
    }
    out
}

pub struct TextBuffer {
    lines: Vec<Vec<String>>,
    cursor_row: usize,
    cursor_col: usize,
    undo_stack: Vec<BufferSnapshot>,
    redo_stack: Vec<BufferSnapshot>,
}

impl TextBuffer {
    /// The document as lines of grapheme cells.
    pub closed spec fn glines(&self) -> Seq<Seq<Seq<char>>> {
        self.lines.deep_view()
    }

    pub closed spec fn row(&self) -> int {
        self.cursor_row as int
    }

    pub closed spec fn col(&self) -> int {
        self.cursor_col as int
    }

    /// The serialised document text.
    pub open spec fn text(&self) -> Seq<char> {
        lines_text(self.glines())
    }

    pub closed spec fn undo_model(&self) -> Seq<BufferSnapshot> {
        self.undo_stack@
    }

    pub closed spec fn redo_model(&self) -> Seq<BufferSnapshot> {
        self.redo_stack@
    }

    /// The buffer invariant: a valid shape, and a bounded history whose
    /// snapshots all have valid shapes themselves.
    pub open spec fn wf(&self) -> bool {
        &&& cursor_ok(self.glines(), self.row(), self.col())
        &&& self.undo_model().len() + self.redo_model().len() <= MAX_UNDO_LEVELS
        &&& forall|i: int|
            0 <= i < self.undo_model().len() ==> (#[trigger] self.undo_model()[i]).wf()
        &&& forall|i: int|
            0 <= i < self.redo_model().len() ==> (#[trigger] self.redo_model()[i]).wf()
    }

    /// The state outside the cursor and document: both history stacks.
    pub open spec fn same_history(&self, other: &Self) -> bool {
        self.undo_model() == other.undo_model() && self.redo_model() == other.redo_model()
    }

    /// An operation that leaves the history untouched keeps every snapshot
    /// valid and the stack bounded.
    pub proof fn lemma_history(a: TextBuffer, b: TextBuffer)
        requires
            a.same_history(&b),
            b.wf(),
        ensures
            a.undo_model().len() + a.redo_model().len() <= MAX_UNDO_LEVELS,
            forall|i: int| 0 <= i < a.undo_model().len() ==> (#[trigger] a.undo_model()[i]).wf(),
            forall|i: int| 0 <= i < a.redo_model().len() ==> (#[trigger] a.redo_model()[i]).wf(),
    {
        assert forall|i: int|
            0 <= i < a.undo_model().len() implies (#[trigger] a.undo_model()[i]).wf() by {
            assert(a.undo_model()[i] == b.undo_model()[i]);
        }
        assert forall|i: int|
            0 <= i < a.redo_model().len() implies (#[trigger] a.redo_model()[i]).wf() by {
            assert(a.redo_model()[i] == b.redo_model()[i]);
        }
    }

    /// An empty buffer: one empty line, cursor at the origin.
    pub fn new() -> (r: Self)
        ensures
            r.wf(),
            r.glines() =~= seq![Seq::<Seq<char>>::empty()],
            r.row() == 0 && r.col() == 0,
            r.undo_model().len() == 0 && r.redo_model().len() == 0,
    {
        let mut lines: Vec<Vec<String>> = Vec::new();
        lines.push(Vec::new());
        let r = TextBuffer {
            lines,
            cursor_row: 0,
            cursor_col: 0,
            undo_stack: Vec::new(),
            redo_stack: Vec::new(),
        };
        proof {
            assert(r.glines() =~~= seq![Seq::<Seq<char>>::empty()]);
        }
        r
    }

    /// Reads a document in: empty text becomes a single empty line, anything
    /// else is split into lines, each segmented into grapheme cells. When
    /// the text holds no carriage return and no trailing newline, writing
    /// the buffer back out restores it exactly.
    pub fn from_string(content: &str) -> (r: Self)
        ensures
            r.wf(),
            r.row() == 0 && r.col() == 0,
            r.undo_model().len() == 0 && r.redo_model().len() == 0,
            content@.len() == 0 ==> r.glines() =~= seq![Seq::<Seq<char>>::empty()],
            content@.len() > 0 ==> {
                &&& r.glines().len() == lines_of(content@).len()
                &&& forall|i: int|
                    0 <= i < r.glines().len() ==> #[trigger] r.glines()[i] == gcluster(
                        lines_of(content@)[i],
                    )
                &&& forall|i: int|
                    0 <= i < r.glines().len() ==> flat(#[trigger] r.glines()[i]) == lines_of(
                        content@,
                    )[i]
            },
            (forall|i: int| 0 <= i < content@.len() ==> content@[i] != '\r') && (content@.len()
                > 0 ==> content@.last() != '\n') ==> r.text() == content@,
    {
        let segs = split_lines(content);
        let mut lines: Vec<Vec<String>> = Vec::new();
        if segs.len() == 0 {
            lines.push(Vec::new());
        } else {
            let mut i: usize = 0;
            while i < segs.len()
                invariant
                    i <= segs.len(),
                    segs.deep_view() == lines_of(content@),
                    lines.deep_view().len() == i,
                    forall|j: int|
                        0 <= j < i ==> #[trigger] lines.deep_view()[j] == gcluster(
                            segs.deep_view()[j],
                        ),
                    forall|j: int|
                        0 <= j < i ==> flat(#[trigger] lines.deep_view()[j])
                            == segs.deep_view()[j],
                decreases segs.len() - i,
            {
                let ghost prev = lines.deep_view();
                let cells = split_graphemes(segs[i].as_str());
                proof {
                    assert(segs.deep_view()[i as int] == segs@[i as int]@);
                }
                lines.push(cells);
                proof {
                    assert(lines.deep_view() =~= prev.push(cells.deep_view()));
                }
                i = i + 1;
            }
        }
        let r = TextBuffer {
            lines,
            cursor_row: 0,
            cursor_col: 0,
            undo_stack: Vec::new(),
            redo_stack: Vec::new(),
        };
        proof {
            if content@.len() == 0 {
                assert(r.glines() =~~= seq![Seq::<Seq<char>>::empty()]);
            } else {
                crate::text::lemma_lines_of_nonempty(content@);
            }
            if (forall|i: int| 0 <= i < content@.len() ==> content@[i] != '\r') && (
            content@.len() > 0 ==> content@.last() != '\n') {
                if content@.len() == 0 {
                    assert(r.glines().map_values(|l: Seq<Seq<char>>| l.flatten()) =~= seq![
                        Seq::<char>::empty(),
                    ]);
                    assert(r.text() == Seq::<char>::empty());
                    assert(content@ =~= Seq::<char>::empty());
                } else {
                    assert(r.glines().map_values(|l: Seq<Seq<char>>| l.flatten()) =~= lines_of(
                        content@,
                    ));
                    lemma_lines_round_trip(content@);
                }
            }
        }
        r
    }

    /// Writes the document out: lines joined with single newlines, no
    /// trailing newline added.
    pub fn to_string(&self) -> (r: String)
        ensures
            r@ == self.text(),
    {
        let mut out = String::new();
        let mut i: usize = 0;
        while i < self.lines.len()
            invariant
                i <= self.lines.len(),
                out@ == join_lines(
                    self.glines().subrange(0, i as int).map_values(
                        |l: Seq<Seq<char>>| l.flatten(),
                    ),
                ),
            decreases self.lines.len() - i,
        {
            if i > 0 {
                out.append("\n");
                proof {
                    reveal_strlit("\n");
                }
            }
            let line = join_cells(&self.lines[i]);
            out.append(line.as_str());
            proof {
                let mapped = self.glines().subrange(0, i as int).map_values(
                    |l: Seq<Seq<char>>| l.flatten(),
                );
                let mapped1 = self.glines().subrange(0, i + 1).map_values(
                    |l: Seq<Seq<char>>| l.flatten(),
                );
                assert(mapped1 =~= mapped.push(flat(self.glines()[i as int])));
                crate::text::lemma_join_lines_push(mapped, flat(self.glines()[i as int]));
            }
            i = i + 1;
        }
        proof {
            assert(self.glines().subrange(0, self.lines.len() as int) =~= self.glines());
        }
        out
    }

    /// The document as one plain string per line.
    pub fn content(&self) -> (r: Vec<String>)
        ensures
            r.deep_view() == self.glines().map_values(|l: Seq<Seq<char>>| l.flatten()),
    {
        let mut out: Vec<String> = Vec::new();
        let mut i: usize = 0;
        while i < self.lines.len()
            invariant
                i <= self.lines.len(),
                out.deep_view() =~= self.glines().subrange(0, i as int).map_values(
                    |l: Seq<Seq<char>>| l.flatten(),
                ),
            decreases self.lines.len() - i,
        {
            let ghost prev = out.deep_view();
            let line = join_cells(&self.lines[i]);
            proof {
                assert(self.glines()[i as int] == self.lines@[i as int].deep_view());
            }
            out.push(line);
            proof {
                assert(out.deep_view() =~= prev.push(line@));
                let f = |l: Seq<Seq<char>>| l.flatten();
                assert(self.glines().subrange(0, i + 1).map_values(f) =~= self.glines().subrange(
                    0,
                    i as int,
                ).map_values(f).push(flat(self.glines()[i as int])));
            }
            i = i + 1;
        }
        proof {
            assert(self.glines().subrange(0, self.lines.len() as int) =~= self.glines());
        }
        out
    }

    pub fn cursor_position(&self) -> (r: (usize, usize))
        ensures
            r.0 == self.row() && r.1 == self.col(),
    {
        (self.cursor_row, self.cursor_col)
    }

    pub fn line_count(&self) -> (r: usize)
        ensures
            r == self.glines().len(),
    {
        self.lines.len()
    }

    /// Moves the cursor, clamping the row to the last line and the column
    /// to the addressed line's length; the document and history stay put.
    pub fn set_cursor(&mut self, row: usize, col: usize)
        requires
            old(self).wf(),
        ensures
            final(self).wf(),
            final(self).glines() == old(self).glines(),
            final(self).same_history(old(self)),
            final(self).row() == if row < old(self).glines().len() {
                row as int
            } else {
                old(self).glines().len() - 1
            },
            final(self).col() == if col <= old(self).glines()[final(self).row()].len() {
                col as int
            } else {
                old(self).glines()[final(self).row()].len() as int
            },
    {
        let last = self.lines.len() - 1;
        self.cursor_row = if row < last {
            row
        } else {
            last
        };
        let line_len = self.lines[self.cursor_row].len();
        self.cursor_col = if col < line_len {
            col
        } else {
            line_len
        };
        proof {
            assert(self.glines()[self.row()].len() == self.lines@[self.row()].deep_view().len());
            assert forall|i: int|
                0 <= i < self.redo_model().len() implies (#[trigger] self.redo_model()[i]).wf() by {
                assert(self.redo_model()[i] == old(self).redo_model()[i]);
            }
            assert forall|i: int|
                0 <= i < self.undo_model().len() implies (#[trigger] self.undo_model()[i]).wf() by {
                assert(self.undo_model()[i] == old(self).undo_model()[i]);
            }
        }
    }

    /// Inserts `c` at the cursor: a newline splits the line, any other
    /// character becomes one new grapheme cell and the cursor passes it.
    pub fn insert_char(&mut self, c: char)
        requires
            old(self).wf(),
        ensures
            final(self).wf(),
            final(self).same_history(old(self)),
            c == '\n' ==> {
                &&& final(self).glines() =~= old(self).glines().subrange(0, old(self).row())
                    + seq![
                    old(self).glines()[old(self).row()].subrange(0, old(self).col()),
                    old(self).glines()[old(self).row()].subrange(
                        old(self).col(),
                        old(self).glines()[old(self).row()].len() as int,
                    ),
                ] + old(self).glines().subrange(
                    old(self).row() + 1,
                    old(self).glines().len() as int,
                )
                &&& final(self).row() == old(self).row() + 1
                &&& final(self).col() == 0
            },
            c != '\n' ==> {
                &&& final(self).glines() =~= old(self).glines().update(
                    old(self).row(),
                    old(self).glines()[old(self).row()].subrange(0, old(self).col()) + seq![
                        seq![c],
                    ] + old(self).glines()[old(self).row()].subrange(
                        old(self).col(),
                        old(self).glines()[old(self).row()].len() as int,
                    ),
                )
                &&& final(self).row() == old(self).row()
                &&& final(self).col() == old(self).col() + 1
            },
    {
        if c == '\n' {
            self.insert_newline();
            return;
        }
        let row = self.cursor_row;
        let col = self.cursor_col;
        let len = self.lines[row].len();
        let mut new_line: Vec<String> = Vec::new();
        push_cells(&mut new_line, &self.lines[row], 0, col);
        new_line.push(crate::text::char_to_string(c));
        push_cells(&mut new_line, &self.lines[row], col, len);
        let ghost nl = new_line.deep_view();
        let new_len = new_line.len();
        proof {
            let line = old(self).glines()[row as int];
            assert(nl =~= line.subrange(0, col as int) + seq![seq![c]] + line.subrange(
                col as int,
                line.len() as int,
            ));
            assert(nl.len() == line.len() + 1);
            assert(col < new_len);
        }
        self.lines.set(row, new_line);
        self.cursor_col = col + 1;
        proof {
            let line = old(self).glines()[row as int];
            assert(self.glines() =~= old(self).glines().update(row as int, nl));
            TextBuffer::lemma_history(*self, *old(self));
        }
    }

    /// Inserts spaces at the cursor, one per tab width unit.
    pub fn insert_tab(&mut self, tab_width: u8)
        requires
            old(self).wf(),
        ensures
            final(self).wf(),
            final(self).same_history(old(self)),
            final(self).glines().len() == old(self).glines().len(),
            final(self).row() == old(self).row(),
            final(self).col() == old(self).col() + tab_width,
            final(self).glines() =~= old(self).glines().update(
                old(self).row(),
                old(self).glines()[old(self).row()].subrange(0, old(self).col())
                    + Seq::new(tab_width as nat, |i: int| seq![' ']) + old(self).glines()[old(
                    self,
                ).row()].subrange(
                    old(self).col(),
                    old(self).glines()[old(self).row()].len() as int,
                ),
            ),
    {
        let mut k: u8 = 0;
        proof {
            let r = old(self).row();
            let line = old(self).glines()[r];
            assert(line.subrange(0, old(self).col()) + Seq::new(0nat, |i: int| seq![' '])
                + line.subrange(old(self).col(), line.len() as int) =~= line);
            assert(old(self).glines().update(r, line) =~= old(self).glines());
        }
        while k < tab_width
            invariant
                k <= tab_width,
                old(self).wf(),
                self.wf(),
                self.same_history(old(self)),
                self.row() == old(self).row(),
                self.col() == old(self).col() + k,
                self.glines() =~= old(self).glines().update(
                    old(self).row(),
                    old(self).glines()[old(self).row()].subrange(0, old(self).col()) + Seq::new(
                        k as nat,
                        |i: int| seq![' '],
                    ) + old(self).glines()[old(self).row()].subrange(
                        old(self).col(),
                        old(self).glines()[old(self).row()].len() as int,
                    ),
                ),
            decreases tab_width - k,
        {
            let ghost pre = *self;
            self.insert_char(' ');
            proof {
                let r = old(self).row();
                let c = old(self).col();
                let line = old(self).glines()[r];
                let pre_line = pre.glines()[r];
                let sp = Seq::new(k as nat, |i: int| seq![' ']);
                assert(pre_line =~= line.subrange(0, c) + sp + line.subrange(c, line.len() as int));
                assert(pre_line.subrange(0, c + k) =~= line.subrange(0, c) + sp);
                assert(pre_line.subrange(c + k, pre_line.len() as int) =~= line.subrange(
                    c,
                    line.len() as int,
                ));
                assert((line.subrange(0, c) + sp) + seq![seq![' ']] + line.subrange(
                    c,
                    line.len() as int,
                ) =~= line.subrange(0, c) + Seq::new((k + 1) as nat, |i: int| seq![' '])
                    + line.subrange(c, line.len() as int));
                assert(self.glines() =~= old(self).glines().update(
                    r,
                    line.subrange(0, c) + Seq::new((k + 1) as nat, |i: int| seq![' '])
                        + line.subrange(c, line.len() as int),
                ));
            }
            k = k + 1;
        }
    }

    /// Splits the cursor's line in two at the cursor; the cursor moves to
    /// the start of the lower half.
    pub fn insert_newline(&mut self)
        requires
            old(self).wf(),
        ensures
            final(self).wf(),
            final(self).same_history(old(self)),
            final(self).glines() =~= old(self).glines().subrange(0, old(self).row()) + seq![
                old(self).glines()[old(self).row()].subrange(0, old(self).col()),
                old(self).glines()[old(self).row()].subrange(
                    old(self).col(),
                    old(self).glines()[old(self).row()].len() as int,
                ),
            ] + old(self).glines().subrange(old(self).row() + 1, old(self).glines().len() as int),
            final(self).row() == old(self).row() + 1,
            final(self).col() == 0,
    {
        let row = self.cursor_row;
        let col = self.cursor_col;
        let len = self.lines[row].len();
        let mut before: Vec<String> = Vec::new();
        push_cells(&mut before, &self.lines[row], 0, col);
        let mut after: Vec<String> = Vec::new();
        push_cells(&mut after, &self.lines[row], col, len);
        let ghost bd = before.deep_view();
        let ghost ad = after.deep_view();
        let nlines = self.lines.len();
        proof {
            assert(row < nlines);
        }
        self.lines.set(row, before);
        self.lines.insert(row + 1, after);
        self.cursor_row = row + 1;
        self.cursor_col = 0;
        proof {
            let line = old(self).glines()[row as int];
            assert(bd =~= line.subrange(0, col as int));
            assert(ad =~= line.subrange(col as int, line.len() as int));
            assert(self.glines() =~= old(self).glines().subrange(0, row as int) + seq![bd, ad]
                + old(self).glines().subrange(row + 1, old(self).glines().len() as int));
            TextBuffer::lemma_history(*self, *old(self));
        }
    }

    /// Removes the grapheme before the cursor, or merges with the previous
    /// line when the cursor sits at the start of one.
    pub fn backspace(&mut self)
        requires
            old(self).wf(),
        ensures
            final(self).wf(),
            final(self).same_history(old(self)),
            old(self).col() > 0 ==> {
                &&& final(self).glines() =~= old(self).glines().update(
                    old(self).row(),
                    old(self).glines()[old(self).row()].subrange(0, old(self).col() - 1) + old(
                        self,
                    ).glines()[old(self).row()].subrange(
                        old(self).col(),
                        old(self).glines()[old(self).row()].len() as int,
                    ),
                )
                &&& final(self).row() == old(self).row()
                &&& final(self).col() == old(self).col() - 1
            },
            old(self).col() == 0 && old(self).row() > 0 ==> {
                &&& final(self).glines() =~= old(self).glines().subrange(0, old(self).row() - 1)
                    + seq![
                    old(self).glines()[old(self).row() - 1] + old(self).glines()[old(self).row()],
                ] + old(self).glines().subrange(
                    old(self).row() + 1,
                    old(self).glines().len() as int,
                )
                &&& final(self).row() == old(self).row() - 1
                &&& final(self).col() == old(self).glines()[old(self).row() - 1].len()
            },
            old(self).col() == 0 && old(self).row() == 0 ==> *final(self) == *old(self),
    {
        if self.cursor_col > 0 {
            let row = self.cursor_row;
            let col = self.cursor_col;
            let len = self.lines[row].len();
            let mut new_line: Vec<String> = Vec::new();
            push_cells(&mut new_line, &self.lines[row], 0, col - 1);
            push_cells(&mut new_line, &self.lines[row], col, len);
            let ghost nl = new_line.deep_view();
            self.lines.set(row, new_line);
            self.cursor_col = col - 1;
            proof {
                let line = old(self).glines()[row as int];
                assert(nl =~= line.subrange(0, col - 1) + line.subrange(
                    col as int,
                    line.len() as int,
                ));
                assert(self.glines() =~= old(self).glines().update(row as int, nl));
                TextBuffer::lemma_history(*self, *old(self));
            }
        } else if self.cursor_row > 0 {
            let row = self.cursor_row;
            let mut cur = self.lines.remove(row);
            self.cursor_row = row - 1;
            let mut prev = self.lines.remove(row - 1);
            self.cursor_col = prev.len();
            prev.append(&mut cur);
            let ghost md = prev.deep_view();
            self.lines.insert(row - 1, prev);
            proof {
                assert(md =~= old(self).glines()[row - 1] + old(self).glines()[row as int]);
                assert(self.glines() =~= old(self).glines().subrange(0, row - 1) + seq![md] + old(
                    self,
                ).glines().subrange(row + 1, old(self).glines().len() as int));
                TextBuffer::lemma_history(*self, *old(self));
            }
        }
    }

    /// Removes the grapheme under the cursor, or merges the next line up
    /// when the cursor sits at the end of one.
    pub fn delete_char(&mut self)
        requires
            old(self).wf(),
        ensures
            final(self).wf(),
            final(self).same_history(old(self)),
            final(self).row() == old(self).row() && final(self).col() == old(self).col(),
            old(self).col() < old(self).glines()[old(self).row()].len() ==> final(self).glines()
                =~= old(self).glines().update(
                old(self).row(),
                old(self).glines()[old(self).row()].subrange(0, old(self).col()) + old(
                    self,
                ).glines()[old(self).row()].subrange(
                    old(self).col() + 1,
                    old(self).glines()[old(self).row()].len() as int,
                ),
            ),
            old(self).col() == old(self).glines()[old(self).row()].len() && old(self).row() < old(
                self,
            ).glines().len() - 1 ==> final(self).glines() =~= old(self).glines().subrange(
                0,
                old(self).row(),
            ) + seq![
                old(self).glines()[old(self).row()] + old(self).glines()[old(self).row() + 1],
            ] + old(self).glines().subrange(old(self).row() + 2, old(self).glines().len() as int),
            old(self).col() == old(self).glines()[old(self).row()].len() && old(self).row() == old(
                self,
            ).glines().len() - 1 ==> *final(self) == *old(self),
    {
        let row = self.cursor_row;
        let col = self.cursor_col;
        let len = self.lines[row].len();
        if col < len {
            let mut new_line: Vec<String> = Vec::new();
            push_cells(&mut new_line, &self.lines[row], 0, col);
            push_cells(&mut new_line, &self.lines[row], col + 1, len);
            let ghost nl = new_line.deep_view();
            self.lines.set(row, new_line);
            proof {
                let line = old(self).glines()[row as int];
                assert(nl =~= line.subrange(0, col as int) + line.subrange(
                    col + 1,
                    line.len() as int,
                ));
                assert(self.glines() =~= old(self).glines().update(row as int, nl));
                TextBuffer::lemma_history(*self, *old(self));
            }
        } else if row < self.lines.len() - 1 {
            let mut next = self.lines.remove(row + 1);
            let mut cur = self.lines.remove(row);
            cur.append(&mut next);
            let ghost md = cur.deep_view();
            self.lines.insert(row, cur);
            proof {
                assert(md =~= old(self).glines()[row as int] + old(self).glines()[row + 1]);
                assert(self.glines() =~= old(self).glines().subrange(0, row as int) + seq![md]
                    + old(self).glines().subrange(row + 2, old(self).glines().len() as int));
                TextBuffer::lemma_history(*self, *old(self));
            }
        }
    }

    /// One grapheme left, stopping at the line start.
    pub fn move_left(&mut self)
        requires
            old(self).wf(),
        ensures
            final(self).wf(),
            final(self).same_history(old(self)),
            final(self).glines() == old(self).glines(),
            final(self).row() == old(self).row(),
            final(self).col() == if old(self).col() > 0 {
                old(self).col() - 1
            } else {
                0
            },
    {
        if self.cursor_col > 0 {
            self.cursor_col = self.cursor_col - 1;
        }
        proof {
            TextBuffer::lemma_history(*self, *old(self));
        }
    }

    /// One grapheme right, stopping at the end-of-line position.
    pub fn move_right(&mut self)
        requires
            old(self).wf(),
        ensures
            final(self).wf(),
            final(self).same_history(old(self)),
            final(self).glines() == old(self).glines(),
            final(self).row() == old(self).row(),
            final(self).col() == if old(self).col() < old(self).glines()[old(self).row()].len() {
                old(self).col() + 1
            } else {
                old(self).col()
            },
    {
        let len = self.lines[self.cursor_row].len();
        if self.cursor_col < len {
            self.cursor_col = self.cursor_col + 1;
        }
        proof {
            TextBuffer::lemma_history(*self, *old(self));
        }
    }

    /// One line up, clamping the column to the new line's length.
    pub fn move_up(&mut self)
        requires
            old(self).wf(),
        ensures
            final(self).wf(),
            final(self).same_history(old(self)),
            final(self).glines() == old(self).glines(),
            final(self).row() == if old(self).row() > 0 {
                old(self).row() - 1
            } else {
                0
            },
            final(self).col() == if old(self).row() > 0 {
                if old(self).col() <= old(self).glines()[old(self).row() - 1].len() {
                    old(self).col()
                } else {
                    old(self).glines()[old(self).row() - 1].len() as int
                }
            } else {
                old(self).col()
            },
    {
        if self.cursor_row > 0 {
            self.cursor_row = self.cursor_row - 1;
            let len = self.lines[self.cursor_row].len();
            if self.cursor_col > len {
                self.cursor_col = len;
            }
        }
        proof {
            TextBuffer::lemma_history(*self, *old(self));
        }
    }

    /// One line down, clamping the column to the new line's length.
    pub fn move_down(&mut self)
        requires
            old(self).wf(),
        ensures
            final(self).wf(),
            final(self).same_history(old(self)),
            final(self).glines() == old(self).glines(),
            final(self).row() == if old(self).row() < old(self).glines().len() - 1 {
                old(self).row() + 1
            } else {
                old(self).row()
            },
            final(self).col() == if old(self).row() < old(self).glines().len() - 1 {
                if old(self).col() <= old(self).glines()[old(self).row() + 1].len() {
                    old(self).col()
                } else {
                    old(self).glines()[old(self).row() + 1].len() as int
                }
            } else {
                old(self).col()
            },
    {
        if self.cursor_row < self.lines.len() - 1 {
            self.cursor_row = self.cursor_row + 1;
            let len = self.lines[self.cursor_row].len();
            if self.cursor_col > len {
                self.cursor_col = len;
            }
        }
        proof {
            TextBuffer::lemma_history(*self, *old(self));
        }
    }

    pub fn move_to_line_start(&mut self)
        requires
            old(self).wf(),
        ensures
            final(self).wf(),
            final(self).same_history(old(self)),
            final(self).glines() == old(self).glines(),
            final(self).row() == old(self).row(),
            final(self).col() == 0,
    {
        self.cursor_col = 0;
        proof {
            TextBuffer::lemma_history(*self, *old(self));
        }
    }

    pub fn move_to_line_end(&mut self)
        requires
            old(self).wf(),
        ensures
            final(self).wf(),
            final(self).same_history(old(self)),
            final(self).glines() == old(self).glines(),
            final(self).row() == old(self).row(),
            final(self).col() == old(self).glines()[old(self).row()].len(),
    {
        self.cursor_col = self.lines[self.cursor_row].len();
        proof {
            TextBuffer::lemma_history(*self, *old(self));
        }
    }

    pub fn move_to_first_line(&mut self)
        requires
            old(self).wf(),
        ensures
            final(self).wf(),
            final(self).same_history(old(self)),
            final(self).glines() == old(self).glines(),
            final(self).row() == 0,
            final(self).col() == 0,
    {
        self.cursor_row = 0;
        self.cursor_col = 0;
        proof {
            TextBuffer::lemma_history(*self, *old(self));
        }
    }

    pub fn move_to_last_line(&mut self)
        requires
            old(self).wf(),
        ensures
            final(self).wf(),
            final(self).same_history(old(self)),
            final(self).glines() == old(self).glines(),
            final(self).row() == old(self).glines().len() - 1,
            final(self).col() == 0,
    {
        self.cursor_row = self.lines.len() - 1;
        self.cursor_col = 0;
        proof {
            TextBuffer::lemma_history(*self, *old(self));
        }
    }

    /// Forward to the start of the next word: first past the current word,
    /// then past the whitespace after it; from the last word of a line, to
    /// the start of the next line.
    pub fn move_word_forward(&mut self)
        requires
            old(self).wf(),
        ensures
            final(self).wf(),
            final(self).same_history(old(self)),
            final(self).glines() == old(self).glines(),
            ({
                let l = old(self).glines()[old(self).row()];
                let mid = if old(self).col() < l.len() && !all_ws(l[old(self).col()]) {
                    scan_from(l, old(self).col(), false)
                } else {
                    old(self).col()
                };
                let fin = scan_from(l, mid, true);
                if fin >= l.len() && old(self).row() < old(self).glines().len() - 1 {
                    final(self).row() == old(self).row() + 1 && final(self).col() == 0
                } else {
                    final(self).row() == old(self).row() && final(self).col() == fin
                }
            }),
    {
        let row = self.cursor_row;
        let len = self.lines[row].len();
        let ghost l = self.glines()[row as int];
        let mut pos = self.cursor_col;
        if pos < len && !cell_is_ws(&self.lines[row][pos]) {
            while pos < len && !cell_is_ws(&self.lines[row][pos])
                invariant
                    old(self).wf(),
                    *self == *old(self),
                    row == old(self).row(),
                    len == l.len(),
                    l == old(self).glines()[row as int],
                    old(self).col() <= pos <= len,
                    scan_from(l, old(self).col(), false) == scan_from(l, pos as int, false),
                decreases len - pos,
            {
                proof {
                    assert(l[pos as int] == self.lines@[row as int]@[pos as int]@);
                }
                pos = pos + 1;
            }
        }
        let ghost mid = pos as int;
        while pos < len && cell_is_ws(&self.lines[row][pos])
            invariant
                old(self).wf(),
                *self == *old(self),
                row == old(self).row(),
                len == l.len(),
                l == old(self).glines()[row as int],
                0 <= mid <= pos <= len,
                scan_from(l, mid, true) == scan_from(l, pos as int, true),
            decreases len - pos,
        {
            proof {
                assert(l[pos as int] == self.lines@[row as int]@[pos as int]@);
            }
            pos = pos + 1;
        }
        proof {
            if pos < len {
                assert(l[pos as int] == self.lines@[row as int]@[pos as int]@);
            }
        }
        if pos >= len && self.cursor_row < self.lines.len() - 1 {
            self.cursor_row = row + 1;
            self.cursor_col = 0;
        } else {
            self.cursor_col = pos;
        }
        proof {
            TextBuffer::lemma_history(*self, *old(self));
        }
    }

    /// Backward to the start of the previous word; from a line start, to
    /// the end of the line above.
    pub fn move_word_backward(&mut self)
        requires
            old(self).wf(),
        ensures
            final(self).wf(),
            final(self).same_history(old(self)),
            final(self).glines() == old(self).glines(),
            old(self).col() == 0 && old(self).row() > 0 ==> final(self).row() == old(self).row()
                - 1 && final(self).col() == old(self).glines()[old(self).row() - 1].len(),
            !(old(self).col() == 0 && old(self).row() > 0) ==> {
                let l = old(self).glines()[old(self).row()];
                let start = if old(self).col() > 0 {
                    old(self).col() - 1
                } else {
                    0
                };
                final(self).row() == old(self).row() && final(self).col() == word_start(
                    l,
                    skip_ws_back(l, start),
                )
            },
    {
        if self.cursor_col == 0 && self.cursor_row > 0 {
            self.cursor_row = self.cursor_row - 1;
            self.cursor_col = self.lines[self.cursor_row].len();
            proof {
                TextBuffer::lemma_history(*self, *old(self));
            }
            return;
        }
        let row = self.cursor_row;
        let len = self.lines[row].len();
        let ghost l = self.glines()[row as int];
        let mut pos = if self.cursor_col > 0 {
            self.cursor_col - 1
        } else {
            0
        };
        let ghost start = pos as int;
        while pos > 0 && cell_is_ws(&self.lines[row][pos])
            invariant
                old(self).wf(),
                *self == *old(self),
                row == old(self).row(),
                len == l.len(),
                l == old(self).glines()[row as int],
                0 <= pos <= start < len || (0 == pos && start == 0 && len == 0),
                skip_ws_back(l, start) == skip_ws_back(l, pos as int),
            decreases pos,
        {
            proof {
                assert(l[pos as int] == self.lines@[row as int]@[pos as int]@);
            }
            pos = pos - 1;
        }
        proof {
            if 0 < pos < len {
                assert(l[pos as int] == self.lines@[row as int]@[pos as int]@);
            }
            assert(skip_ws_back(l, pos as int) == pos);
        }
        let ghost after_ws = pos as int;
        while pos > 0 && !cell_is_ws(&self.lines[row][pos - 1])
            invariant
                old(self).wf(),
                *self == *old(self),
                row == old(self).row(),
                len == l.len(),
                l == old(self).glines()[row as int],
                0 <= pos <= after_ws <= len,
                word_start(l, after_ws) == word_start(l, pos as int),
            decreases pos,
        {
            proof {
                assert(l[pos - 1] == self.lines@[row as int]@[pos - 1]@);
            }
            pos = pos - 1;
        }
        proof {
            if pos > 0 {
                assert(l[pos - 1] == self.lines@[row as int]@[pos - 1]@);
            }
            assert(word_start(l, pos as int) == pos);
        }
        self.cursor_col = pos;
        proof {
            TextBuffer::lemma_history(*self, *old(self));
        }
    }

    /// Removes the cursor's line (clearing it instead when it is the only
    /// one); the cursor moves to the start of the line now in its place,
    /// clamped to the new last line.
    pub fn delete_line(&mut self)
        requires
            old(self).wf(),
        ensures
            final(self).wf(),
            final(self).same_history(old(self)),
            final(self).col() == 0,
            old(self).glines().len() > 1 ==> {
                &&& final(self).glines() =~= old(self).glines().subrange(0, old(self).row())
                    + old(self).glines().subrange(
                    old(self).row() + 1,
                    old(self).glines().len() as int,
                )
                &&& final(self).row() == if old(self).row() < old(self).glines().len() - 1 {
                    old(self).row()
                } else {
                    old(self).glines().len() - 2
                }
            },
            old(self).glines().len() == 1 ==> {
                &&& final(self).glines() =~= seq![Seq::<Seq<char>>::empty()]
                &&& final(self).row() == 0
            },
    {
        if self.lines.len() > 1 {
            let row = self.cursor_row;
            self.lines.remove(row);
            if self.cursor_row >= self.lines.len() {
                self.cursor_row = self.lines.len() - 1;
            }
            proof {
                assert(self.glines() =~= old(self).glines().subrange(0, row as int) + old(
                    self,
                ).glines().subrange(row + 1, old(self).glines().len() as int));
            }
        } else {
            self.lines.set(0, Vec::new());
            proof {
                assert(self.glines() =~~= seq![Seq::<Seq<char>>::empty()]);
            }
        }
        self.cursor_col = 0;
        proof {
            TextBuffer::lemma_history(*self, *old(self));
        }
    }

    /// Opens an empty line below the cursor's and moves onto it.
    pub fn insert_line_below(&mut self)
        requires
            old(self).wf(),
        ensures
            final(self).wf(),
            final(self).same_history(old(self)),
            final(self).glines() =~= old(self).glines().insert(
                old(self).row() + 1,
                Seq::<Seq<char>>::empty(),
            ),
            final(self).row() == old(self).row() + 1,
            final(self).col() == 0,
    {
        let n = self.lines.len();
        proof {
            assert(self.cursor_row < n);
        }
        self.cursor_row = self.cursor_row + 1;
        self.lines.insert(self.cursor_row, Vec::new());
        self.cursor_col = 0;
        proof {
            assert(self.glines() =~~= old(self).glines().insert(
                old(self).row() + 1,
                Seq::<Seq<char>>::empty(),
            ));
            TextBuffer::lemma_history(*self, *old(self));
        }
    }

    /// Opens an empty line above the cursor's; the cursor stays on its row
    /// index and so lands on the new line.
    pub fn insert_line_above(&mut self)
        requires
            old(self).wf(),
        ensures
            final(self).wf(),
            final(self).same_history(old(self)),
            final(self).glines() =~= old(self).glines().insert(
                old(self).row(),
                Seq::<Seq<char>>::empty(),
            ),
            final(self).row() == old(self).row(),
            final(self).col() == 0,
    {
        self.lines.insert(self.cursor_row, Vec::new());
        self.cursor_col = 0;
        proof {
            assert(self.glines() =~~= old(self).glines().insert(
                old(self).row(),
                Seq::<Seq<char>>::empty(),
            ));
            TextBuffer::lemma_history(*self, *old(self));
        }
    }

    /// Opens a line holding `prefix` below the cursor's; the cursor lands
    /// after the prefix.
    pub fn insert_line_below_with_prefix(&mut self, prefix: &str)
        requires
            old(self).wf(),
        ensures
            final(self).wf(),
            final(self).same_history(old(self)),
            final(self).glines() =~= old(self).glines().insert(
                old(self).row() + 1,
                gcluster(prefix@),
            ),
            final(self).row() == old(self).row() + 1,
            final(self).col() == gcluster(prefix@).len(),
    {
        let n = self.lines.len();
        proof {
            assert(self.cursor_row < n);
        }
        let cells = split_graphemes(prefix);
        let plen = cells.len();
        self.cursor_row = self.cursor_row + 1;
        self.lines.insert(self.cursor_row, cells);
        self.cursor_col = plen;
        proof {
            assert(self.glines() =~= old(self).glines().insert(
                old(self).row() + 1,
                gcluster(prefix@),
            ));
            TextBuffer::lemma_history(*self, *old(self));
        }
    }

    /// Splits the cursor's line at the cursor and prepends `prefix` to the
    /// lower half; the cursor lands after the prefix.
    pub fn insert_newline_with_prefix(&mut self, prefix: &str)
        requires
            old(self).wf(),
        ensures
            final(self).wf(),
            final(self).same_history(old(self)),
            final(self).glines() =~= old(self).glines().subrange(0, old(self).row()) + seq![
                old(self).glines()[old(self).row()].subrange(0, old(self).col()),
                gcluster(prefix@) + old(self).glines()[old(self).row()].subrange(
                    old(self).col(),
                    old(self).glines()[old(self).row()].len() as int,
                ),
            ] + old(self).glines().subrange(old(self).row() + 1, old(self).glines().len() as int),
            final(self).row() == old(self).row() + 1,
            final(self).col() == gcluster(prefix@).len(),
    {
        let row = self.cursor_row;
        let col = self.cursor_col;
        let len = self.lines[row].len();
        let mut before: Vec<String> = Vec::new();
        push_cells(&mut before, &self.lines[row], 0, col);
        let mut lower = split_graphemes(prefix);
        let plen = lower.len();
        push_cells(&mut lower, &self.lines[row], col, len);
        let ghost bd = before.deep_view();
        let ghost ld = lower.deep_view();
        let nlines = self.lines.len();
        proof {
            assert(row < nlines);
        }
        self.lines.set(row, before);
        self.lines.insert(row + 1, lower);
        self.cursor_row = row + 1;
        self.cursor_col = plen;
        proof {
            let line = old(self).glines()[row as int];
            assert(bd =~= line.subrange(0, col as int));
            assert(ld =~= gcluster(prefix@) + line.subrange(col as int, line.len() as int));
            assert(self.glines() =~= old(self).glines().subrange(0, row as int) + seq![bd, ld]
                + old(self).glines().subrange(row + 1, old(self).glines().len() as int));
            TextBuffer::lemma_history(*self, *old(self));
        }
    }

    /// Empties the cursor's line and moves to its start.
    pub fn clear_current_line(&mut self)
        requires
            old(self).wf(),
        ensures
            final(self).wf(),
            final(self).same_history(old(self)),
            final(self).glines() =~= old(self).glines().update(
                old(self).row(),
                Seq::<Seq<char>>::empty(),
            ),
            final(self).row() == old(self).row(),
            final(self).col() == 0,
    {
        self.lines.set(self.cursor_row, Vec::new());
        self.cursor_col = 0;
        proof {
            assert(self.glines() =~~= old(self).glines().update(
                old(self).row(),
                Seq::<Seq<char>>::empty(),
            ));
            TextBuffer::lemma_history(*self, *old(self));
        }
    }

    /// Prepends `tab_width` spaces to the cursor's line; the cursor shifts
    /// right with them.
    pub fn indent_line(&mut self, tab_width: u8)
        requires
            old(self).wf(),
        ensures
            final(self).wf(),
            final(self).same_history(old(self)),
            final(self).glines() =~= old(self).glines().update(
                old(self).row(),
                indented(old(self).glines()[old(self).row()], tab_width as int),
            ),
            final(self).row() == old(self).row(),
            final(self).col() == old(self).col() + tab_width,
    {
        let row = self.cursor_row;
        let len = self.lines[row].len();
        let mut new_line = space_cells(tab_width);
        push_cells(&mut new_line, &self.lines[row], 0, len);
        let ghost nl = new_line.deep_view();
        let new_len = new_line.len();
        proof {
            assert(nl =~= indented(old(self).glines()[row as int], tab_width as int));
            assert(self.cursor_col + tab_width <= new_len);
        }
        self.lines.set(row, new_line);
        self.cursor_col = self.cursor_col + tab_width as usize;
        proof {
            assert(self.glines() =~= old(self).glines().update(row as int, nl));
            TextBuffer::lemma_history(*self, *old(self));
        }
    }

    /// Removes up to `tab_width` leading spaces from the cursor's line; the
    /// cursor shifts left with them, stopping at the line start.
    pub fn dedent_line(&mut self, tab_width: u8)
        requires
            old(self).wf(),
        ensures
            final(self).wf(),
            final(self).same_history(old(self)),
            final(self).glines() =~= old(self).glines().update(
                old(self).row(),
                dedented(old(self).glines()[old(self).row()], tab_width as int),
            ),
            final(self).row() == old(self).row(),
            ({
                let lead = leading_spaces(old(self).glines()[old(self).row()]);
                let remove = if lead < tab_width as int {
                    lead
                } else {
                    tab_width as int
                };
                final(self).col() == if old(self).col() >= remove {
                    old(self).col() - remove
                } else {
                    0
                }
            }),
    {
        let row = self.cursor_row;
        let len = self.lines[row].len();
        let leading = count_leading_spaces(&self.lines[row]);
        let remove = if leading < tab_width as usize {
            leading
        } else {
            tab_width as usize
        };
        if remove > 0 {
            let mut new_line: Vec<String> = Vec::new();
            push_cells(&mut new_line, &self.lines[row], remove, len);
            let ghost nl = new_line.deep_view();
            self.lines.set(row, new_line);
            self.cursor_col = if self.cursor_col >= remove {
                self.cursor_col - remove
            } else {
                0
            };
            proof {
                assert(nl =~= dedented(old(self).glines()[row as int], tab_width as int));
                assert(self.glines() =~= old(self).glines().update(row as int, nl));
                TextBuffer::lemma_history(*self, *old(self));
            }
        } else {
            proof {
                assert(dedented(old(self).glines()[row as int], tab_width as int) =~= old(
                    self,
                ).glines()[row as int]);
                assert(self.glines() =~= old(self).glines().update(
                    row as int,
                    dedented(old(self).glines()[row as int], tab_width as int),
                ));
                TextBuffer::lemma_history(*self, *old(self));
            }
        }
    }

    /// Indents every line of the row range (clamped to the document); the
    /// cursor, which must sit inside the range, shifts with its line.
    pub fn indent_lines(&mut self, start_row: usize, end_row: usize, tab_width: u8)
        requires
            old(self).wf(),
        ensures
            final(self).wf(),
            final(self).same_history(old(self)),
            final(self).glines().len() == old(self).glines().len(),
            forall|r: int|
                0 <= r < old(self).glines().len() ==> #[trigger] final(self).glines()[r] == if (
                start_row <= r <= end_row) {
                    indented(old(self).glines()[r], tab_width as int)
                } else {
                    old(self).glines()[r]
                },
            final(self).row() == old(self).row(),
            ({
                let newlen = final(self).glines()[final(self).row()].len();
                final(self).col() == if old(self).col() + tab_width <= newlen {
                    old(self).col() + tab_width
                } else {
                    newlen as int
                }
            }),
    {
        let last = self.lines.len() - 1;
        let stop = if end_row < last {
            end_row
        } else {
            last
        };
        let mut r = start_row;
        while r <= stop
            invariant
                old(self).wf(),
                stop < self.lines.len(),
                stop <= end_row,
                start_row <= r,
                r <= stop + 1 || r == start_row,
                self.glines().len() == old(self).glines().len(),
                self.row() == old(self).row() && self.col() == old(self).col(),
                self.same_history(old(self)),
                forall|j: int|
                    0 <= j < old(self).glines().len() ==> #[trigger] self.glines()[j] == if (
                    start_row <= j < r) {
                        indented(old(self).glines()[j], tab_width as int)
                    } else {
                        old(self).glines()[j]
                    },
            decreases stop + 1 - r,
        {
            let len = self.lines[r].len();
            let mut new_line = space_cells(tab_width);
            push_cells(&mut new_line, &self.lines[r], 0, len);
            let ghost nl = new_line.deep_view();
            let ghost pre = self.glines();
            self.lines.set(r, new_line);
            proof {
                assert(pre[r as int] == old(self).glines()[r as int]);
                assert(pre[r as int] == pre[r as int].subrange(0, len as int));
                assert(nl =~= indented(old(self).glines()[r as int], tab_width as int));
                assert(self.glines() =~= pre.update(r as int, nl));
            }
            r = r + 1;
        }
        proof {
            assert forall|j: int|
                0 <= j < old(self).glines().len() implies #[trigger] self.glines()[j] == if (
            start_row <= j <= end_row) {
                indented(old(self).glines()[j], tab_width as int)
            } else {
                old(self).glines()[j]
            } by {
                if start_row <= j <= end_row {
                    assert(j <= stop);
                    assert(j < r);
                }
            }
        }
        let row = self.cursor_row;
        let new_len = self.lines[row].len();
        proof {
            assert(self.glines()[row as int].len() == self.lines@[row as int].deep_view().len());
            assert(self.cursor_col <= new_len);
        }
        let room = new_len - self.cursor_col;
        if tab_width as usize > room {
            self.cursor_col = new_len;
        } else {
            self.cursor_col = self.cursor_col + tab_width as usize;
        }
        proof {
            TextBuffer::lemma_history(*self, *old(self));
        }
    }

    /// Dedents every line of the row range (clamped to the document), then
    /// clamps the cursor column to its line's new length.
    pub fn dedent_lines(&mut self, start_row: usize, end_row: usize, tab_width: u8)
        requires
            old(self).wf(),
        ensures
            final(self).wf(),
            final(self).same_history(old(self)),
            final(self).glines().len() == old(self).glines().len(),
            forall|r: int|
                0 <= r < old(self).glines().len() ==> #[trigger] final(self).glines()[r] == if (
                start_row <= r <= end_row) {
                    dedented(old(self).glines()[r], tab_width as int)
                } else {
                    old(self).glines()[r]
                },
            final(self).row() == old(self).row(),
            final(self).col() == if old(self).col() <= final(self).glines()[old(self).row()].len() {
                old(self).col()
            } else {
                final(self).glines()[old(self).row()].len() as int
            },
    {
        let last = self.lines.len() - 1;
        let stop = if end_row < last {
            end_row
        } else {
            last
        };
        let mut r = start_row;
        while r <= stop
            invariant
                old(self).wf(),
                stop < self.lines.len(),
                stop <= end_row,
                end_row > stop ==> stop == self.lines.len() - 1,
                start_row <= r,
                r <= stop + 1 || r == start_row,
                self.glines().len() == old(self).glines().len(),
                self.row() == old(self).row() && self.col() == old(self).col(),
                self.same_history(old(self)),
                forall|j: int|
                    0 <= j < old(self).glines().len() ==> #[trigger] self.glines()[j] == if (
                    start_row <= j < r) {
                        dedented(old(self).glines()[j], tab_width as int)
                    } else {
                        old(self).glines()[j]
                    },
            decreases stop + 1 - r,
        {
            let len = self.lines[r].len();
            let leading = count_leading_spaces(&self.lines[r]);
            let remove = if leading < tab_width as usize {
                leading
            } else {
                tab_width as usize
            };
            let ghost pre = self.glines();
            proof {
                assert(pre[r as int] == old(self).glines()[r as int]);
                assert(self.lines@[r as int].deep_view() == pre[r as int]);
            }
            if remove > 0 {
                let mut new_line: Vec<String> = Vec::new();
                push_cells(&mut new_line, &self.lines[r], remove, len);
                let ghost nl = new_line.deep_view();
                self.lines.set(r, new_line);
                proof {
                    assert(nl =~= dedented(old(self).glines()[r as int], tab_width as int));
                    assert(self.glines() =~= pre.update(r as int, nl));
                }
            } else {
                proof {
                    assert(dedented(old(self).glines()[r as int], tab_width as int) =~= old(
                        self,
                    ).glines()[r as int]);
                    assert(self.glines() =~= pre.update(
                        r as int,
                        dedented(old(self).glines()[r as int], tab_width as int),
                    ));
                }
            }
            r = r + 1;
        }
        proof {
            assert forall|j: int|
                0 <= j < old(self).glines().len() implies #[trigger] self.glines()[j] == if (
            start_row <= j <= end_row) {
                dedented(old(self).glines()[j], tab_width as int)
            } else {
                old(self).glines()[j]
            } by {
                if start_row <= j <= end_row {
                    assert(j <= stop);
                    assert(j < r);
                }
            }
        }
        let row = self.cursor_row;
        let new_len = self.lines[row].len();
        if self.cursor_col > new_len {
            self.cursor_col = new_len;
        }
        proof {
            assert(self.glines()[row as int].len() == self.lines@[row as int].deep_view().len());
            TextBuffer::lemma_history(*self, *old(self));
        }
    }

    /// Removes the cursor's line as `delete_line` does and hands its text
    /// back with a trailing newline.
    pub fn delete_line_and_return(&mut self) -> (r: String)
        requires
            old(self).wf(),
        ensures
            final(self).wf(),
            final(self).same_history(old(self)),
            r@ == flat(old(self).glines()[old(self).row()]) + seq!['\n'],
            final(self).col() == 0,
            old(self).glines().len() > 1 ==> {
                &&& final(self).glines() =~= old(self).glines().subrange(0, old(self).row())
                    + old(self).glines().subrange(
                    old(self).row() + 1,
                    old(self).glines().len() as int,
                )
                &&& final(self).row() == if old(self).row() < old(self).glines().len() - 1 {
                    old(self).row()
                } else {
                    old(self).glines().len() - 2
                }
            },
            old(self).glines().len() == 1 ==> {
                &&& final(self).glines() =~= seq![Seq::<Seq<char>>::empty()]
                &&& final(self).row() == 0
            },
    {
        let mut text = join_cells(&self.lines[self.cursor_row]);
        text.append("\n");
        proof {
            reveal_strlit("\n");
        }
        self.delete_line();
        text
    }

    /// The text of the cursor's line with a trailing newline, leaving the
    /// buffer untouched.
    pub fn extract_line(&self) -> (r: String)
        requires
            self.wf(),
        ensures
            r@ == flat(self.glines()[self.row()]) + seq!['\n'],
    {
        let mut text = join_cells(&self.lines[self.cursor_row]);
        text.append("\n");
        proof {
            reveal_strlit("\n");
        }
        text
    }

    /// Pushes a full copy of the document and cursor for undo, evicting the
    /// oldest snapshot beyond the cap, and clears the redo stack.
    pub fn save_undo_snapshot(&mut self)
        requires
            old(self).wf(),
        ensures
            final(self).wf(),
            final(self).glines() == old(self).glines(),
            final(self).row() == old(self).row() && final(self).col() == old(self).col(),
            final(self).redo_model().len() == 0,
            final(self).undo_model().len() == if old(self).undo_model().len() < MAX_UNDO_LEVELS {
                old(self).undo_model().len() + 1
            } else {
                MAX_UNDO_LEVELS as nat
            },
            ({
                let last = final(self).undo_model().last();
                last.glines() == old(self).glines() && last.row() == old(self).row()
                    && last.col() == old(self).col()
            }),
            ({
                let shift: int = if old(self).undo_model().len() < MAX_UNDO_LEVELS {
                    0
                } else {
                    1
                };
                forall|i: int|
                    0 <= i < final(self).undo_model().len() - 1
                        ==> #[trigger] final(self).undo_model()[i] == old(self).undo_model()[
                    i + shift]
            }),
    {
        let snapshot = BufferSnapshot {
            lines: clone_lines(&self.lines),
            cursor_row: self.cursor_row,
            cursor_col: self.cursor_col,
        };
        self.undo_stack.push(snapshot);
        if self.undo_stack.len() > MAX_UNDO_LEVELS {
            self.undo_stack.remove(0);
        }
        self.redo_stack.clear();
    }

    /// Steps back to the newest undo snapshot, parking the present state on
    /// the redo stack; `false` (and no change) when there is none.
    pub fn undo(&mut self) -> (r: bool)
        requires
            old(self).wf(),
        ensures
            final(self).wf(),
            r == (old(self).undo_model().len() > 0),
            !r ==> final(self).glines() == old(self).glines() && final(self).row() == old(
                self,
            ).row() && final(self).col() == old(self).col() && final(self).same_history(
                old(self),
            ),
            r ==> {
                let snap = old(self).undo_model().last();
                &&& final(self).glines() == snap.glines()
                &&& final(self).row() == snap.row() && final(self).col() == snap.col()
                &&& final(self).undo_model() == old(self).undo_model().drop_last()
                &&& final(self).redo_model().len() == old(self).redo_model().len() + 1
                &&& final(self).redo_model().last().glines() == old(self).glines()
                &&& final(self).redo_model().last().row() == old(self).row()
                &&& final(self).redo_model().last().col() == old(self).col()
                &&& forall|i: int|
                    0 <= i < old(self).redo_model().len()
                        ==> #[trigger] final(self).redo_model()[i] == old(self).redo_model()[i]
            },
    {
        match self.undo_stack.pop() {
            Some(snapshot) => {
                let current = BufferSnapshot {
                    lines: clone_lines(&self.lines),
                    cursor_row: self.cursor_row,
                    cursor_col: self.cursor_col,
                };
                self.redo_stack.push(current);
                self.lines = snapshot.lines;
                self.cursor_row = snapshot.cursor_row;
                self.cursor_col = snapshot.cursor_col;
                proof {
                    assert(old(self).undo_model().last().wf());
                }
                true
            },
            None => false,
        }
    }

    /// Steps forward to the newest redo snapshot, parking the present state
    /// on the undo stack; `false` (and no change) when there is none.
    pub fn redo(&mut self) -> (r: bool)
        requires
            old(self).wf(),
        ensures
            final(self).wf(),
            r == (old(self).redo_model().len() > 0),
            !r ==> final(self).glines() == old(self).glines() && final(self).row() == old(
                self,
            ).row() && final(self).col() == old(self).col() && final(self).same_history(
                old(self),
            ),
            r ==> {
                let snap = old(self).redo_model().last();
                &&& final(self).glines() == snap.glines()
                &&& final(self).row() == snap.row() && final(self).col() == snap.col()
                &&& final(self).redo_model() == old(self).redo_model().drop_last()
                &&& final(self).undo_model().len() == old(self).undo_model().len() + 1
                &&& final(self).undo_model().last().glines() == old(self).glines()
                &&& final(self).undo_model().last().row() == old(self).row()
                &&& final(self).undo_model().last().col() == old(self).col()
                &&& forall|i: int|
                    0 <= i < old(self).undo_model().len()
                        ==> #[trigger] final(self).undo_model()[i] == old(self).undo_model()[i]
            },
    {
        match self.redo_stack.pop() {
            Some(snapshot) => {
                let current = BufferSnapshot {
                    lines: clone_lines(&self.lines),
                    cursor_row: self.cursor_row,
                    cursor_col: self.cursor_col,
                };
                self.undo_stack.push(current);
                self.lines = snapshot.lines;
                self.cursor_row = snapshot.cursor_row;
                self.cursor_col = snapshot.cursor_col;
                proof {
                    assert(old(self).redo_model().last().wf());
                }
                true
            },
            None => false,
        }
    }

    /// The text of a half-open, grapheme-indexed, possibly multi-line range,
    /// leaving the buffer untouched; columns past a line end are clamped.
    pub fn extract_range(
        &self,
        start_row: usize,
        start_col: usize,
        end_row: usize,
        end_col: usize,
    ) -> (r: String)
        requires
            self.wf(),
            start_row <= end_row < self.glines().len(),
            start_row == end_row ==> start_col <= end_col,
        ensures
            r@ == range_text(
                self.glines(),
                start_row as int,
                start_col as int,
                end_row as int,
                end_col as int,
            ),
    {
        let first_len = self.lines[start_row].len();
        let sc = if start_col < first_len {
            start_col
        } else {
            first_len
        };
        if start_row == end_row {
            let ec = if end_col < first_len {
                end_col
            } else {
                first_len
            };
            cells_join(&self.lines[start_row], sc, ec)
        } else {
            let last_len = self.lines[end_row].len();
            let ec = if end_col < last_len {
                end_col
            } else {
                last_len
            };
            let mut out = cells_join(&self.lines[start_row], sc, first_len);
            out.append("\n");
            proof {
                reveal_strlit("\n");
            }
            let mut row = start_row + 1;
            while row < end_row
                invariant
                    self.wf(),
                    start_row < row <= end_row < self.glines().len(),
                    out@ =~= flat(
                        self.glines()[start_row as int].subrange(
                            clampc(self.glines()[start_row as int], start_col as int),
                            self.glines()[start_row as int].len() as int,
                        ),
                    ) + seq!['\n'] + mid_join(self.glines(), start_row + 1, row as int),
                decreases end_row - row,
            {
                let line = join_cells(&self.lines[row]);
                out.append(line.as_str());
                out.append("\n");
                proof {
                    reveal_strlit("\n");
                    assert(self.glines()[row as int] == self.lines@[row as int].deep_view());
                    lemma_mid_join_extend(self.glines(), start_row + 1, row as int);
                }
                row = row + 1;
            }
            let tail = cells_join(&self.lines[end_row], 0, ec);
            out.append(tail.as_str());
            out
        }
    }

    /// Removes a half-open, grapheme-indexed, possibly multi-line range and
    /// returns its text; for a multi-line range the first line's prefix and
    /// the last line's suffix merge. The cursor re-clamps afterwards.
    pub fn delete_range(
        &mut self,
        start_row: usize,
        start_col: usize,
        end_row: usize,
        end_col: usize,
    ) -> (r: String)
        requires
            old(self).wf(),
            start_row <= end_row < old(self).glines().len(),
            start_row == end_row ==> start_col <= end_col,
        ensures
            final(self).wf(),
            final(self).same_history(old(self)),
            r@ == range_text(
                old(self).glines(),
                start_row as int,
                start_col as int,
                end_row as int,
                end_col as int,
            ),
            final(self).glines() =~= range_removed(
                old(self).glines(),
                start_row as int,
                start_col as int,
                end_row as int,
                end_col as int,
            ),
            final(self).row() == if old(self).row() < final(self).glines().len() {
                old(self).row()
            } else {
                final(self).glines().len() - 1
            },
            ({
                let newlen = final(self).glines()[final(self).row()].len();
                final(self).col() == if old(self).col() <= newlen {
                    old(self).col()
                } else {
                    newlen as int
                }
            }),
    {
        let text = self.extract_range(start_row, start_col, end_row, end_col);
        let first_len = self.lines[start_row].len();
        let sc = if start_col < first_len {
            start_col
        } else {
            first_len
        };
        let last_len = self.lines[end_row].len();
        let ec = if end_col < last_len {
            end_col
        } else {
            last_len
        };
        let mut merged: Vec<String> = Vec::new();
        push_cells(&mut merged, &self.lines[start_row], 0, sc);
        push_cells(&mut merged, &self.lines[end_row], ec, last_len);
        let ghost md = merged.deep_view();
        let cnt = end_row - start_row;
        let mut k: usize = 0;
        while k < cnt
            invariant
                k <= cnt,
                cnt == end_row - start_row,
                start_row <= end_row < old(self).glines().len(),
                self.glines().len() == old(self).glines().len() - k,
                self.row() == old(self).row() && self.col() == old(self).col(),
                self.same_history(old(self)),
                self.glines() =~= old(self).glines().subrange(0, start_row + 1) + old(
                    self,
                ).glines().subrange(start_row + 1 + k, old(self).glines().len() as int),
            decreases cnt - k,
        {
            let ghost pre = self.glines();
            self.lines.remove(start_row + 1);
            proof {
                assert(self.glines() =~= pre.subrange(0, start_row + 1) + pre.subrange(
                    start_row + 2,
                    pre.len() as int,
                ));
                assert(pre.subrange(0, start_row + 1) =~= old(self).glines().subrange(
                    0,
                    start_row + 1,
                ));
                assert(pre.subrange(start_row + 2, pre.len() as int) =~= old(
                    self,
                ).glines().subrange(start_row + 1 + (k + 1), old(self).glines().len() as int));
                assert(self.glines() =~= old(self).glines().subrange(0, start_row + 1) + old(
                    self,
                ).glines().subrange(start_row + 1 + (k + 1), old(self).glines().len() as int));
            }
            k = k + 1;
        }
        let ghost pre2 = self.glines();
        self.lines.set(start_row, merged);
        proof {
            assert(self.glines() =~= pre2.update(start_row as int, md));
            assert(md =~= old(self).glines()[start_row as int].subrange(0, sc as int) + old(
                self,
            ).glines()[end_row as int].subrange(
                ec as int,
                old(self).glines()[end_row as int].len() as int,
            ));
            assert(self.glines() =~= range_removed(
                old(self).glines(),
                start_row as int,
                start_col as int,
                end_row as int,
                end_col as int,
            ));
        }
        if self.cursor_row >= self.lines.len() {
            self.cursor_row = self.lines.len() - 1;
        }
        let ll = self.lines[self.cursor_row].len();
        if self.cursor_col > ll {
            self.cursor_col = ll;
        }
        proof {
            assert(self.glines()[self.row()].len() == self.lines@[self.row()].deep_view().len());
            TextBuffer::lemma_history(*self, *old(self));
        }
        text
    }

    /// Types a whole string at the cursor: newlines split lines, carriage
    /// returns are dropped, everything else is inserted in order.
    pub fn insert_text(&mut self, text: &str)
        requires
            old(self).wf(),
        ensures
            final(self).wf(),
            final(self).same_history(old(self)),
            ({
                let st = ins_text_rec(old(self).glines(), old(self).row(), old(self).col(), text@);
                final(self).glines() == st.0 && final(self).row() == st.1 && final(self).col()
                    == st.2
            }),
    {
        let n = text.unicode_len();
        let mut i: usize = 0;
        proof {
            assert(text@.skip(0) =~= text@);
        }
        while i < n
            invariant
                i <= n,
                n == text@.len(),
                self.wf(),
                self.same_history(old(self)),
                ins_text_rec(old(self).glines(), old(self).row(), old(self).col(), text@)
                    == ins_text_rec(
                    self.glines(),
                    self.row(),
                    self.col(),
                    text@.skip(i as int),
                ),
            decreases n - i,
        {
            let c = text.get_char(i);
            let ghost pre = *self;
            if c == '\n' {
                self.insert_newline();
            } else if c != '\r' {
                self.insert_char(c);
            }
            proof {
                let t = text@.skip(i as int);
                assert(t[0] == c);
                assert(t.drop_first() =~= text@.skip(i + 1));
                let st = ins_char_step(pre.glines(), pre.row(), pre.col(), c);
                assert(self.glines() == st.0 && self.row() == st.1 && self.col() == st.2);
            }
            i = i + 1;
        }
        proof {
            assert(text@.skip(n as int) =~= Seq::<char>::empty());
        }
    }

    /// Pastes text character-wise just after the cursor's grapheme.
    pub fn paste_after_cursor(&mut self, text: &str)
        requires
            old(self).wf(),
        ensures
            final(self).wf(),
            final(self).same_history(old(self)),
            pasted_charwise(
                old(self).glines(),
                old(self).row(),
                if old(self).col() + 1 <= old(self).glines()[old(self).row()].len() {
                    old(self).col() + 1
                } else {
                    old(self).glines()[old(self).row()].len() as int
                },
                text@,
                final(self).glines(),
                final(self).row(),
                final(self).col(),
            ),
    {
        let len = self.lines[self.cursor_row].len();
        let insert_pos = if self.cursor_col < len {
            self.cursor_col + 1
        } else {
            len
        };
        self.paste_charwise(text, insert_pos);
    }

    /// Pastes text character-wise at the cursor's grapheme.
    pub fn paste_before_cursor(&mut self, text: &str)
        requires
            old(self).wf(),
        ensures
            final(self).wf(),
            final(self).same_history(old(self)),
            pasted_charwise(
                old(self).glines(),
                old(self).row(),
                old(self).col(),
                text@,
                final(self).glines(),
                final(self).row(),
                final(self).col(),
            ),
    {
        let len = self.lines[self.cursor_row].len();
        let insert_pos = if self.cursor_col < len {
            self.cursor_col
        } else {
            len
        };
        self.paste_charwise(text, insert_pos);
    }

    /// Pastes `text` at grapheme position `pos` on the cursor's line; text
    /// with newlines splits into further lines, and the cursor lands on the
    /// last pasted grapheme.
    fn paste_charwise(&mut self, text: &str, pos: usize)
        requires
            old(self).wf(),
            pos <= old(self).glines()[old(self).row()].len(),
        ensures
            final(self).wf(),
            final(self).same_history(old(self)),
            pasted_charwise(
                old(self).glines(),
                old(self).row(),
                pos as int,
                text@,
                final(self).glines(),
                final(self).row(),
                final(self).col(),
            ),
    {
        let row = self.cursor_row;
        let len = self.lines[row].len();
        let pieces = split_raw(text);
        proof {
            crate::text::lemma_split_on_nl_len(text@);
        }
        if pieces.len() == 1 {
            let cells = split_graphemes(text);
            let count = cells.len();
            let mut new_line: Vec<String> = Vec::new();
            push_cells(&mut new_line, &self.lines[row], 0, pos);
            let mut cells = cells;
            new_line.append(&mut cells);
            push_cells(&mut new_line, &self.lines[row], pos, len);
            let ghost nl = new_line.deep_view();
            let new_len = new_line.len();
            proof {
                let line = old(self).glines()[row as int];
                assert(nl =~= line.subrange(0, pos as int) + gcluster(text@) + line.subrange(
                    pos as int,
                    line.len() as int,
                ));
                assert(nl.len() == pos + count + (line.len() - pos));
                assert(pos + count <= new_len);
            }
            self.lines.set(row, new_line);
            self.cursor_col = if count > 0 {
                pos + count - 1
            } else {
                pos
            };
            proof {
                assert(self.glines() =~= old(self).glines().update(row as int, nl));
                TextBuffer::lemma_history(*self, *old(self));
            }
            return;
        }
        let last_idx = pieces.len() - 1;
        let first_cells = split_graphemes(pieces[0].as_str());
        let mut new_first: Vec<String> = Vec::new();
        push_cells(&mut new_first, &self.lines[row], 0, pos);
        let mut fc = first_cells;
        new_first.append(&mut fc);
        let ghost nf = new_first.deep_view();
        let mut last_line = split_graphemes(pieces[last_idx].as_str());
        let last_count = last_line.len();
        push_cells(&mut last_line, &self.lines[row], pos, len);
        let ghost nlst = last_line.deep_view();
        self.lines.set(row, new_first);
        let ghost base = self.glines();
        let mut i: usize = 1;
        while i < last_idx
            invariant
                old(self).wf(),
                1 <= i <= last_idx,
                last_idx == split_on_nl(text@).len() - 1,
                pieces.deep_view() == split_on_nl(text@),
                row == old(self).row(),
                row < base.len(),
                base.len() == old(self).glines().len(),
                self.row() == old(self).row() && self.col() == old(self).col(),
                self.same_history(old(self)),
                self.glines().len() == base.len() + i - 1,
                self.glines() =~= base.subrange(0, row + 1) + split_on_nl(text@).subrange(
                    1,
                    i as int,
                ).map_values(|p: Seq<char>| gcluster(p)) + base.subrange(
                    row + 1,
                    base.len() as int,
                ),
            decreases last_idx - i,
        {
            let ghost pre = self.glines();
            let cells = split_graphemes(pieces[i].as_str());
            proof {
                assert(pieces.deep_view()[i as int] == pieces@[i as int]@);
                assert(row + i <= self.lines.len());
            }
            self.lines.insert(row + i, cells);
            proof {
                assert(self.glines() =~= pre.insert(row + i, gcluster(
                    split_on_nl(text@)[i as int],
                )));
                assert(self.glines() =~= base.subrange(0, row + 1) + split_on_nl(
                    text@,
                ).subrange(1, i + 1).map_values(|p: Seq<char>| gcluster(p)) + base.subrange(
                    row + 1,
                    base.len() as int,
                ));
            }
            i = i + 1;
        }
        let ghost pre = self.glines();
        proof {
            assert(row + last_idx <= self.lines.len());
        }
        self.lines.insert(row + last_idx, last_line);
        self.cursor_row = row + last_idx;
        self.cursor_col = if last_count > 0 {
            last_count - 1
        } else {
            0
        };
        proof {
            let ps = split_on_nl(text@);
            let line = old(self).glines()[row as int];
            assert(pieces.deep_view()[0] == pieces@[0]@);
            assert(pieces.deep_view()[last_idx as int] == pieces@[last_idx as int]@);
            assert(nf =~= line.subrange(0, pos as int) + gcluster(ps[0]));
            assert(nlst =~= gcluster(ps[last_idx as int]) + line.subrange(
                pos as int,
                line.len() as int,
            ));
            assert(self.glines() =~= pre.insert(row + last_idx, nlst));
            assert(self.glines() =~= old(self).glines().subrange(0, row as int) + seq![nf] + ps
                .subrange(1, last_idx as int).map_values(|p: Seq<char>| gcluster(p)) + seq![nlst]
                + old(self).glines().subrange(row + 1, old(self).glines().len() as int));
            assert(self.col() <= nlst.len());
            TextBuffer::lemma_history(*self, *old(self));
        }
    }

    /// Pastes whole lines below the cursor's line; the cursor moves to the
    /// start of the first pasted line. Empty text changes nothing.
    pub fn paste_line_below(&mut self, text: &str)
        requires
            old(self).wf(),
        ensures
            final(self).wf(),
            final(self).same_history(old(self)),
            lines_of(text@).len() == 0 ==> final(self).glines() == old(self).glines() && final(self).row() == old(self).row() && final(self).col() == old(self).col(),
            lines_of(text@).len() > 0 ==> {
                &&& final(self).glines() =~= old(self).glines().subrange(0, old(self).row() + 1)
                    + lines_of(text@).map_values(|p: Seq<char>| gcluster(p)) + old(
                    self,
                ).glines().subrange(old(self).row() + 1, old(self).glines().len() as int)
                &&& final(self).row() == old(self).row() + 1
                &&& final(self).col() == 0
            },
    {
        let n = self.lines.len();
        proof {
            assert(self.cursor_row < n);
        }
        let insert_at = self.cursor_row + 1;
        self.paste_lines_at(text, insert_at);
    }

    /// Pastes whole lines above the cursor's line; the cursor moves to the
    /// start of the first pasted line. Empty text changes nothing.
    pub fn paste_line_above(&mut self, text: &str)
        requires
            old(self).wf(),
        ensures
            final(self).wf(),
            final(self).same_history(old(self)),
            lines_of(text@).len() == 0 ==> final(self).glines() == old(self).glines() && final(self).row() == old(self).row() && final(self).col() == old(self).col(),
            lines_of(text@).len() > 0 ==> {
                &&& final(self).glines() =~= old(self).glines().subrange(0, old(self).row())
                    + lines_of(text@).map_values(|p: Seq<char>| gcluster(p)) + old(
                    self,
                ).glines().subrange(old(self).row(), old(self).glines().len() as int)
                &&& final(self).row() == old(self).row()
                &&& final(self).col() == 0
            },
    {
        let insert_at = self.cursor_row;
        self.paste_lines_at(text, insert_at);
    }

    /// Inserts each line of `text` as its own document line starting at row
    /// `at`; the cursor moves to the start of the first inserted line.
    fn paste_lines_at(&mut self, text: &str, at: usize)
        requires
            old(self).wf(),
            at <= old(self).glines().len(),
        ensures
            final(self).wf(),
            final(self).same_history(old(self)),
            lines_of(text@).len() == 0 ==> final(self).glines() == old(self).glines() && final(self).row() == old(self).row() && final(self).col() == old(self).col(),
            lines_of(text@).len() > 0 ==> {
                &&& final(self).glines() =~= old(self).glines().subrange(0, at as int) + lines_of(
                    text@,
                ).map_values(|p: Seq<char>| gcluster(p)) + old(self).glines().subrange(
                    at as int,
                    old(self).glines().len() as int,
                )
                &&& final(self).row() == at
                &&& final(self).col() == 0
            },
    {
        let pieces = split_lines(text);
        if pieces.len() == 0 {
            return;
        }
        let cnt = pieces.len();
        let mut i: usize = 0;
        while i < cnt
            invariant
                old(self).wf(),
                at <= old(self).glines().len(),
                i <= cnt,
                cnt == lines_of(text@).len(),
                pieces.deep_view() == lines_of(text@),
                self.row() == old(self).row() && self.col() == old(self).col(),
                self.same_history(old(self)),
                self.glines().len() == old(self).glines().len() + i,
                self.glines() =~= old(self).glines().subrange(0, at as int) + lines_of(
                    text@,
                ).subrange(0, i as int).map_values(|p: Seq<char>| gcluster(p)) + old(
                    self,
                ).glines().subrange(at as int, old(self).glines().len() as int),
            decreases cnt - i,
        {
            let cells = split_graphemes(pieces[i].as_str());
            let ghost pre = self.glines();
            proof {
                assert(pieces.deep_view()[i as int] == pieces@[i as int]@);
                assert(at + i <= self.lines.len());
            }
            self.lines.insert(at + i, cells);
            proof {
                assert(self.glines() =~= pre.insert(at + i, gcluster(lines_of(text@)[i as int])));
                assert(self.glines() =~= old(self).glines().subrange(0, at as int) + lines_of(
                    text@,
                ).subrange(0, i + 1).map_values(|p: Seq<char>| gcluster(p)) + old(
                    self,
                ).glines().subrange(at as int, old(self).glines().len() as int));
            }
            i = i + 1;
        }
        self.cursor_row = at;
        self.cursor_col = 0;
        proof {
            assert(lines_of(text@).subrange(0, cnt as int) =~= lines_of(text@));
            TextBuffer::lemma_history(*self, *old(self));
        }
    }

    /// Searches forward from just after `(start_row, start_col)` for the
    /// query, case-insensitively, wrapping around the whole document; the
    /// position under the cursor itself is matched only after a full cycle.
    /// Returns the first match in that order, or `None` when the query is
    /// empty or absent.
    pub fn find_next(&self, query: &str, start_row: usize, start_col: usize) -> (r: Option<
        (usize, usize),
    >)
        requires
            self.wf(),
            start_row < self.glines().len(),
            start_col < usize::MAX,
        ensures
            query@.len() == 0 ==> r is None,
            ({
                let q = gcluster(query@);
                let n = self.glines().len() as int;
                &&& (query@.len() > 0 && r is None) ==> forall|r2: int, c2: int|
                    0 <= r2 < n ==> !#[trigger] match_at(self.glines()[r2], c2, q)
                &&& r is Some ==> {
                    let fr = (r->0).0 as int;
                    let fc = (r->0).1 as int;
                    &&& 0 <= fr < n
                    &&& match_at(self.glines()[fr], fc, q)
                    &&& forall|r2: int, c2: int|
                        0 <= r2 < n && #[trigger] match_at(self.glines()[r2], c2, q)
                            ==> wrap_rank(n, start_row as int, start_col as int, fr, fc)
                            < wrap_rank(n, start_row as int, start_col as int, r2, c2) || (
                        wrap_rank(n, start_row as int, start_col as int, fr, fc) == wrap_rank(
                            n,
                            start_row as int,
                            start_col as int,
                            r2,
                            c2,
                        ) && fc <= c2)
                }
            }),
    {
        if query.is_empty() {
            return None;
        }
        let qc = split_graphemes(query);
        proof {
            if qc.deep_view().len() == 0 {
                assert(qc.deep_view().flatten() =~= Seq::<char>::empty());
            }
        }
        let ql = lower_cells(&qc);
        let ghost q = gcluster(query@);
        let ghost n = self.glines().len() as int;
        let ghost srow = start_row as int;
        let ghost scol = start_col as int;
        let total = self.lines.len();
        match find_in_cells_forward(&self.lines[start_row], start_col + 1, &ql, &qc) {
            Some(c) => {
                proof {
                    assert(self.glines()[srow] == self.lines@[start_row as int].deep_view());
                }
                return Some((start_row, c));
            },
            None => {},
        }
        proof {
            assert(self.glines()[srow] == self.lines@[start_row as int].deep_view());
            assert(forall|c2: int| c2 > scol ==> !match_at(self.glines()[srow], c2, q));
        }
        let mut offset: usize = 1;
        while offset < total
            invariant
                self.wf(),
                query@.len() > 0,
                q == gcluster(query@),
                qc.deep_view() == q,
                ql.deep_view().len() == qc.deep_view().len(),
                ql.len() == qc.len() && ql.len() > 0,
                forall|k: int|
                    0 <= k < qc.deep_view().len() ==> #[trigger] ql.deep_view()[k] == lower_of(
                        qc.deep_view()[k],
                    ),
                n == self.glines().len() as int,
                total == self.glines().len(),
                srow == start_row as int && scol == start_col as int,
                start_row < total,
                1 <= offset <= total,
                forall|c2: int| c2 > scol ==> !match_at(self.glines()[srow], c2, q),
                forall|o2: int, c2: int|
                    1 <= o2 < offset ==> !#[trigger] match_at(
                        self.glines()[row_of(n, srow, o2)],
                        c2,
                        q,
                    ),
            decreases total - offset,
        {
            let row = if offset < total - start_row {
                start_row + offset
            } else {
                offset - (total - start_row)
            };
            proof {
                assert(row as int == row_of(n, srow, offset as int));
            }
            match find_in_cells_forward(&self.lines[row], 0, &ql, &qc) {
                Some(c) => {
                    proof {
                        assert(self.glines()[row as int] == self.lines@[row as int].deep_view());
                        let fr = row as int;
                        let fc = c as int;
                        assert(fr != srow);
                        assert(wrap_rank(n, srow, scol, fr, fc) == offset);
                        assert forall|r2: int, c2: int|
                            0 <= r2 < n && #[trigger] match_at(self.glines()[r2], c2, q) implies
                        wrap_rank(n, srow, scol, fr, fc) < wrap_rank(n, srow, scol, r2, c2) || (
                        wrap_rank(n, srow, scol, fr, fc) == wrap_rank(n, srow, scol, r2, c2)
                            && fc <= c2) by {
                            let rk = wrap_rank(n, srow, scol, r2, c2);
                            if rk < offset {
                                if rk == 0 {
                                    assert(!match_at(self.glines()[srow], c2, q));
                                } else {
                                    assert(row_of(n, srow, rk) == r2);
                                    assert(!match_at(self.glines()[row_of(n, srow, rk)], c2, q));
                                }
                            } else if rk == offset {
                                assert(r2 == fr);
                            }
                        }
                    }
                    return Some((row, c));
                },
                None => {
                    proof {
                        assert(self.glines()[row as int] == self.lines@[row as int].deep_view());
                        assert(forall|c2: int|
                            !match_at(self.glines()[row_of(n, srow, offset as int)], c2, q));
                    }
                },
            }
            offset = offset + 1;
        }
        let res = find_in_cells_forward(&self.lines[start_row], 0, &ql, &qc);
        proof {
            assert(self.glines()[srow] == self.lines@[start_row as int].deep_view());
        }
        match res {
            Some(c) => {
                if c <= start_col {
                    proof {
                        let fr = srow;
                        let fc = c as int;
                        assert(wrap_rank(n, srow, scol, fr, fc) == n);
                        assert forall|r2: int, c2: int|
                            0 <= r2 < n && #[trigger] match_at(self.glines()[r2], c2, q) implies
                        wrap_rank(n, srow, scol, fr, fc) < wrap_rank(n, srow, scol, r2, c2) || (
                        wrap_rank(n, srow, scol, fr, fc) == wrap_rank(n, srow, scol, r2, c2)
                            && fc <= c2) by {
                            let rk = wrap_rank(n, srow, scol, r2, c2);
                            if rk == 0 {
                                assert(!match_at(self.glines()[srow], c2, q));
                            } else if rk < n {
                                assert(row_of(n, srow, rk) == r2);
                                assert(!match_at(self.glines()[row_of(n, srow, rk)], c2, q));
                            } else {
                                assert(r2 == srow);
                            }
                        }
                    }
                    Some((start_row, c))
                } else {
                    proof {
                        assert(match_at(self.glines()[srow], c as int, q));
                        assert(!match_at(self.glines()[srow], c as int, q));
                    }
                    None
                }
            },
            None => {
                proof {
                    assert forall|r2: int, c2: int| 0 <= r2 < n implies !#[trigger] match_at(
                        self.glines()[r2],
                        c2,
                        q,
                    ) by {
                        if r2 == srow {
                            assert(!match_at(self.glines()[srow], c2, q));
                        } else {
                            let rk = wrap_rank(n, srow, scol, r2, c2);
                            assert(1 <= rk < n);
                            assert(row_of(n, srow, rk) == r2);
                            assert(!match_at(self.glines()[row_of(n, srow, rk)], c2, q));
                        }
                    }
                }
                None
            },
        }
    }

    /// Searches backward from just before `(start_row, start_col)` for the
    /// query, case-insensitively, wrapping around the whole document. On
    /// the start line only matches ending before the cursor, or beginning
    /// after it, are reported. Returns the first match in backward order.
    pub fn find_prev(&self, query: &str, start_row: usize, start_col: usize) -> (r: Option<
        (usize, usize),
    >)
        requires
            self.wf(),
            start_row < self.glines().len(),
        ensures
            query@.len() == 0 ==> r is None,
            ({
                let q = gcluster(query@);
                let n = self.glines().len() as int;
                let srow = start_row as int;
                let scol = start_col as int;
                &&& (query@.len() > 0 && r is None) ==> forall|r2: int, c2: int|
                    0 <= r2 < n && #[trigger] match_at(self.glines()[r2], c2, q)
                        ==> !prev_eligible(srow, scol, q.len() as int, r2, c2)
                &&& r is Some ==> {
                    let fr = (r->0).0 as int;
                    let fc = (r->0).1 as int;
                    &&& 0 <= fr < n
                    &&& match_at(self.glines()[fr], fc, q)
                    &&& prev_eligible(srow, scol, q.len() as int, fr, fc)
                    &&& forall|r2: int, c2: int|
                        0 <= r2 < n && #[trigger] match_at(self.glines()[r2], c2, q)
                            && prev_eligible(srow, scol, q.len() as int, r2, c2) ==> back_rank(
                            n,
                            srow,
                            scol,
                            q.len() as int,
                            fr,
                            fc,
                        ) < back_rank(n, srow, scol, q.len() as int, r2, c2) || (back_rank(
                            n,
                            srow,
                            scol,
                            q.len() as int,
                            fr,
                            fc,
                        ) == back_rank(n, srow, scol, q.len() as int, r2, c2) && fc >= c2)
                }
            }),
    {
        if query.is_empty() {
            return None;
        }
        let qc = split_graphemes(query);
        proof {
            if qc.deep_view().len() == 0 {
                assert(qc.deep_view().flatten() =~= Seq::<char>::empty());
            }
        }
        let ql = lower_cells(&qc);
        let ghost q = gcluster(query@);
        let ghost n = self.glines().len() as int;
        let ghost srow = start_row as int;
        let ghost scol = start_col as int;
        let ghost m = q.len() as int;
        let total = self.lines.len();
        if start_col > 0 {
            match find_in_cells_backward(&self.lines[start_row], start_col - 1, &ql, &qc) {
                Some(c) => {
                    proof {
                        assert(self.glines()[srow] == self.lines@[start_row as int].deep_view());
                        assert(back_rank(n, srow, scol, m, srow, c as int) == 0);
                    }
                    return Some((start_row, c));
                },
                None => {},
            }
        }
        proof {
            assert(self.glines()[srow] == self.lines@[start_row as int].deep_view());
            assert(forall|c2: int|
                scol > 0 && 0 <= c2 && c2 + m <= scol - 1 ==> !match_at(
                    self.glines()[srow],
                    c2,
                    q,
                ));
        }
        let mut offset: usize = 1;
        while offset < total
            invariant
                self.wf(),
                query@.len() > 0,
                q == gcluster(query@),
                qc.deep_view() == q,
                m == q.len() as int,
                ql.deep_view().len() == qc.deep_view().len(),
                ql.len() == qc.len() && ql.len() > 0,
                forall|k: int|
                    0 <= k < qc.deep_view().len() ==> #[trigger] ql.deep_view()[k] == lower_of(
                        qc.deep_view()[k],
                    ),
                n == self.glines().len() as int,
                total == self.glines().len(),
                srow == start_row as int && scol == start_col as int,
                start_row < total,
                1 <= offset <= total,
                forall|c2: int|
                    scol > 0 && 0 <= c2 && c2 + m <= scol - 1 ==> !match_at(
                        self.glines()[srow],
                        c2,
                        q,
                    ),
                forall|o2: int, c2: int|
                    1 <= o2 < offset ==> !#[trigger] match_at(
                        self.glines()[row_back_of(n, srow, o2)],
                        c2,
                        q,
                    ),
            decreases total - offset,
        {
            let row = if offset <= start_row {
                start_row - offset
            } else {
                start_row + (total - offset)
            };
            proof {
                assert(row as int == row_back_of(n, srow, offset as int));
            }
            let row_len = self.lines[row].len();
            match find_in_cells_backward(&self.lines[row], row_len, &ql, &qc) {
                Some(c) => {
                    proof {
                        assert(self.glines()[row as int] == self.lines@[row as int].deep_view());
                        let fr = row as int;
                        let fc = c as int;
                        assert(fr != srow);
                        assert(back_rank(n, srow, scol, m, fr, fc) == offset);
                        assert forall|r2: int, c2: int|
                            0 <= r2 < n && #[trigger] match_at(self.glines()[r2], c2, q)
                                && prev_eligible(srow, scol, m, r2, c2) implies back_rank(
                            n,
                            srow,
                            scol,
                            m,
                            fr,
                            fc,
                        ) < back_rank(n, srow, scol, m, r2, c2) || (back_rank(
                            n,
                            srow,
                            scol,
                            m,
                            fr,
                            fc,
                        ) == back_rank(n, srow, scol, m, r2, c2) && fc >= c2) by {
                            let rk = back_rank(n, srow, scol, m, r2, c2);
                            if rk < offset {
                                if rk == 0 {
                                    assert(!match_at(self.glines()[srow], c2, q));
                                } else {
                                    assert(row_back_of(n, srow, rk) == r2);
                                    assert(!match_at(
                                        self.glines()[row_back_of(n, srow, rk)],
                                        c2,
                                        q,
                                    ));
                                }
                            } else if rk == offset {
                                assert(r2 == fr);
                                assert(c2 + m <= self.glines()[fr].len());
                            }
                        }
                    }
                    return Some((row, c));
                },
                None => {
                    proof {
                        assert(self.glines()[row as int] == self.lines@[row as int].deep_view());
                        assert forall|c2: int| !match_at(
                            self.glines()[row_back_of(n, srow, offset as int)],
                            c2,
                            q,
                        ) by {
                            if 0 <= c2 && c2 + m <= self.glines()[row as int].len() {
                            }
                        }
                    }
                },
            }
            offset = offset + 1;
        }
        let line_len = self.lines[start_row].len();
        proof {
            assert(self.glines()[srow] == self.lines@[start_row as int].deep_view());
        }
        if line_len > start_col {
            match find_in_cells_backward(&self.lines[start_row], line_len, &ql, &qc) {
                Some(c) => {
                    if c > start_col {
                        proof {
                            let fr = srow;
                            let fc = c as int;
                            assert(back_rank(n, srow, scol, m, fr, fc) == n);
                            assert forall|r2: int, c2: int|
                                0 <= r2 < n && #[trigger] match_at(self.glines()[r2], c2, q)
                                    && prev_eligible(srow, scol, m, r2, c2) implies back_rank(
                                n,
                                srow,
                                scol,
                                m,
                                fr,
                                fc,
                            ) < back_rank(n, srow, scol, m, r2, c2) || (back_rank(
                                n,
                                srow,
                                scol,
                                m,
                                fr,
                                fc,
                            ) == back_rank(n, srow, scol, m, r2, c2) && fc >= c2) by {
                                let rk = back_rank(n, srow, scol, m, r2, c2);
                                if rk == 0 {
                                    assert(!match_at(self.glines()[srow], c2, q));
                                } else if rk < n {
                                    assert(row_back_of(n, srow, rk) == r2);
                                    assert(!match_at(
                                        self.glines()[row_back_of(n, srow, rk)],
                                        c2,
                                        q,
                                    ));
                                } else {
                                    assert(r2 == srow);
                                    assert(c2 + m <= self.glines()[srow].len());
                                }
                            }
                        }
                        return Some((start_row, c));
                    }
                    proof {
                        assert forall|r2: int, c2: int|
                            0 <= r2 < n && #[trigger] match_at(self.glines()[r2], c2, q) implies
                        !prev_eligible(srow, scol, m, r2, c2) by {
                            if r2 == srow {
                                if c2 > scol {
                                    assert(c2 + m <= self.glines()[srow].len());
                                    assert(!match_at(self.glines()[srow], c2, q));
                                }
                            } else {
                                let rk = back_rank(n, srow, scol, m, r2, c2);
                                assert(1 <= rk < n);
                                assert(row_back_of(n, srow, rk) == r2);
                                assert(!match_at(self.glines()[row_back_of(n, srow, rk)], c2, q));
                            }
                        }
                    }
                    return None;
                },
                None => {
                    proof {
                        assert forall|r2: int, c2: int|
                            0 <= r2 < n && #[trigger] match_at(self.glines()[r2], c2, q) implies
                        !prev_eligible(srow, scol, m, r2, c2) by {
                            if r2 == srow {
                                assert(c2 + m <= self.glines()[srow].len());
                                assert(!match_at(self.glines()[srow], c2, q));
                            } else {
                                let rk = back_rank(n, srow, scol, m, r2, c2);
                                assert(1 <= rk < n);
                                assert(row_back_of(n, srow, rk) == r2);
                                assert(!match_at(self.glines()[row_back_of(n, srow, rk)], c2, q));
                            }
                        }
                    }
                    return None;
                },
            }
        }
        proof {
            assert forall|r2: int, c2: int|
                0 <= r2 < n && #[trigger] match_at(self.glines()[r2], c2, q) implies
            !prev_eligible(srow, scol, m, r2, c2) by {
                if r2 == srow {
                    assert(c2 + m <= self.glines()[srow].len());
                    assert(self.glines()[srow].len() <= scol);
                    if scol > 0 && c2 + m <= scol - 1 {
                        assert(!match_at(self.glines()[srow], c2, q));
                    }
                } else {
                    let rk = back_rank(n, srow, scol, m, r2, c2);
                    assert(1 <= rk < n);
                    assert(row_back_of(n, srow, rk) == r2);
                    assert(!match_at(self.glines()[row_back_of(n, srow, rk)], c2, q));
                }
            }
        }
        None
    }

    /// Every case-insensitive match of the query in the whole document, in
    /// reading order, each as `(row, column, grapheme length)`.
    pub fn find_all(&self, query: &str) -> (r: Vec<(usize, usize, usize)>)
        requires
            self.wf(),
        ensures
            query@.len() == 0 ==> r@.len() == 0,
            query@.len() > 0 ==> {
                let q = gcluster(query@);
                let ms = all_matches(self.glines(), q, 0);
                &&& r@.len() == ms.len()
                &&& forall|i: int|
                    0 <= i < ms.len() ==> (#[trigger] r@[i]).0 == ms[i].0 && r@[i].1 == ms[i].1
                        && r@[i].2 == q.len()
            },
    {
        let mut out: Vec<(usize, usize, usize)> = Vec::new();
        if query.is_empty() {
            return out;
        }
        let qc = split_graphemes(query);
        proof {
            if qc.deep_view().len() == 0 {
                assert(qc.deep_view().flatten() =~= Seq::<char>::empty());
            }
        }
        let ql = lower_cells(&qc);
        let ghost q = gcluster(query@);
        let ghost ls = self.glines();
        let qlen = qc.len();
        let total = self.lines.len();
        let ghost out_model = |s: Seq<(usize, usize, usize)>|
            s.map_values(|e: (usize, usize, usize)| (e.0 as int, e.1 as int));
        let mut row: usize = 0;
        proof {
            assert(out_model(out@) =~= Seq::<(int, int)>::empty());
            assert(out_model(out@) + all_matches(ls, q, 0) =~= all_matches(ls, q, 0));
        }
        while row < total
            invariant
                self.wf(),
                query@.len() > 0,
                q == gcluster(query@),
                qc.deep_view() == q,
                qlen == q.len(),
                ql.deep_view().len() == qc.deep_view().len(),
                ql.len() == qc.len() && ql.len() > 0,
                forall|k: int|
                    0 <= k < qc.deep_view().len() ==> #[trigger] ql.deep_view()[k] == lower_of(
                        qc.deep_view()[k],
                    ),
                ls == self.glines(),
                total == self.glines().len(),
                row <= total,
                out_model == (|s: Seq<(usize, usize, usize)>|
                    s.map_values(|e: (usize, usize, usize)| (e.0 as int, e.1 as int))),
                forall|i: int| 0 <= i < out@.len() ==> (#[trigger] out@[i]).2 == q.len(),
                all_matches(ls, q, 0) =~= out_model(out@) + all_matches(ls, q, row as int),
            decreases total - row,
        {
            let line_len = self.lines[row].len();
            proof {
                assert(self.glines()[row as int] == self.lines@[row as int].deep_view());
                assert(all_matches(ls, q, row as int) == row_match_cols(
                    ls[row as int],
                    q,
                    0,
                ).map_values(|c: int| (row as int, c)) + all_matches(ls, q, row + 1));
            }
            if qlen <= line_len {
                let mut c: usize = 0;
                while c <= line_len - qlen
                    invariant
                        self.wf(),
                        query@.len() > 0,
                        q == gcluster(query@),
                        qc.deep_view() == q,
                        qlen == q.len(),
                        ql.deep_view().len() == qc.deep_view().len(),
                        ql.len() == qc.len() && ql.len() > 0,
                        forall|k: int|
                            0 <= k < qc.deep_view().len() ==> #[trigger] ql.deep_view()[k]
                                == lower_of(qc.deep_view()[k]),
                        ls == self.glines(),
                        total == self.glines().len(),
                        row < total,
                        qlen <= line_len,
                        line_len == ls[row as int].len(),
                        c <= line_len - qlen + 1,
                        out_model == (|s: Seq<(usize, usize, usize)>|
                            s.map_values(|e: (usize, usize, usize)| (e.0 as int, e.1 as int))),
                        forall|i: int| 0 <= i < out@.len() ==> (#[trigger] out@[i]).2 == q.len(),
                        all_matches(ls, q, 0) =~= out_model(out@) + row_match_cols(
                            ls[row as int],
                            q,
                            c as int,
                        ).map_values(|cc: int| (row as int, cc)) + all_matches(ls, q, row + 1),
                    decreases line_len - qlen + 1 - c,
                {
                    let ghost prev = out@;
                    proof {
                        assert(self.glines()[row as int] == self.lines@[row as int].deep_view());
                    }
                    if cells_match_here(&self.lines[row], c, &ql, &qc) {
                        out.push((row, c, qlen));
                        proof {
                            assert(row_match_cols(ls[row as int], q, c as int) == seq![c as int]
                                + row_match_cols(ls[row as int], q, c + 1));
                            assert(out@ =~= prev.push((row, c, qlen)));
                            assert(out_model(out@) =~= out_model(prev).push(
                                (row as int, c as int),
                            ));
                            assert(all_matches(ls, q, 0) =~= out_model(out@) + row_match_cols(
                                ls[row as int],
                                q,
                                c + 1,
                            ).map_values(|cc: int| (row as int, cc)) + all_matches(
                                ls,
                                q,
                                row + 1,
                            ));
                        }
                    } else {
                        proof {
                            assert(row_match_cols(ls[row as int], q, c as int) == row_match_cols(
                                ls[row as int],
                                q,
                                c + 1,
                            ));
                        }
                    }
                    c = c + 1;
                }
                proof {
                    assert(row_match_cols(ls[row as int], q, line_len - qlen + 1)
                        =~= Seq::<int>::empty());
                }
            } else {
                proof {
                    assert(row_match_cols(ls[row as int], q, 0) =~= Seq::<int>::empty());
                }
            }
            row = row + 1;
        }
        proof {
            assert(all_matches(ls, q, total as int) =~= Seq::<(int, int)>::empty());
            assert(all_matches(ls, q, 0) =~= out_model(out@));
            assert forall|i: int|
                0 <= i < all_matches(ls, q, 0).len() implies (#[trigger] out@[i]).0
                == all_matches(ls, q, 0)[i].0 && out@[i].1 == all_matches(ls, q, 0)[i].1
                && out@[i].2 == q.len() by {
                assert(out_model(out@)[i] == (out@[i].0 as int, out@[i].1 as int));
            }
        }
        out
    }

    /// The display column at which the cell with grapheme index `col`
    /// begins on line `row` (clamped to the line length), counting no
    /// soft wrap: the summed display widths of the cells before it.
    pub fn display_col_at(&self, row: usize, col: usize) -> (r: usize)
        requires
            self.wf(),
            row < self.glines().len(),
            3 * flat(self.glines()[row as int]).len() <= usize::MAX,
        ensures
            r == dcol(self.glines()[row as int], clampc(self.glines()[row as int], col as int)),
    {
        let line = &self.lines[row];
        let ghost l = self.glines()[row as int];
        proof {
            assert(l == self.lines@[row as int].deep_view());
        }
        let n = line.len();
        let upto = if col < n {
            col
        } else {
            n
        };
        let mut acc: usize = 0;
        let mut i: usize = 0;
        proof {
            assert(flat(l.subrange(0, 0)).len() == 0) by {
                assert(l.subrange(0, 0) =~= Seq::<Seq<char>>::empty());
                assert(Seq::<Seq<char>>::empty().flatten() =~= Seq::<char>::empty());
            }
        }
        while i < upto
            invariant
                self.wf(),
                row < self.glines().len(),
                l == self.glines()[row as int],
                upto == clampc(l, col as int),
                i <= upto <= n,
                n == line.len(),
                l == line.deep_view(),
                l.len() == n,
                3 * flat(l).len() <= usize::MAX,
                acc == dcol(l, i as int),
                acc <= 3 * flat(l.subrange(0, i as int)).len(),
            decreases upto - i,
        {
            let w = crate::unicode::str_width(line[i].as_str());
            proof {
                assert(l[i as int] == line@[i as int]@);
                assert(l.subrange(0, i + 1) =~= l.subrange(0, i as int).push(l[i as int]));
                l.subrange(0, i as int).lemma_flatten_push(l[i as int]);
                lemma_flat_prefix_le(l, i + 1);
            }
            acc = acc + w;
            i = i + 1;
        }
        acc
    }

    /// The display column and display span of the cell at grapheme index
    /// `col` of line `row`, in one walk: where the cell begins, and how
    /// many columns it covers (at least one; one for the end-of-line
    /// position).
    pub fn display_span_at(&self, row: usize, col: usize) -> (r: (usize, usize))
        requires
            self.wf(),
            row < self.glines().len(),
            3 * flat(self.glines()[row as int]).len() + 1 <= usize::MAX,
        ensures
            r.0 == dcol(self.glines()[row as int], clampc(self.glines()[row as int], col as int)),
            r.1 == gspan(self.glines()[row as int], col as int),
            r.0 + r.1 <= 3 * flat(self.glines()[row as int]).len() + 1,
            r.1 >= 1,
    {
        let line = &self.lines[row];
        let ghost l = self.glines()[row as int];
        proof {
            assert(l == self.lines@[row as int].deep_view());
            assert(flat(l.subrange(0, 0)).len() == 0) by {
                assert(l.subrange(0, 0) =~= Seq::<Seq<char>>::empty());
                assert(Seq::<Seq<char>>::empty().flatten() =~= Seq::<char>::empty());
            }
        }
        let n = line.len();
        let upto = if col < n {
            col
        } else {
            n
        };
        let mut acc: usize = 0;
        let mut i: usize = 0;
        while i < upto
            invariant
                self.wf(),
                row < self.glines().len(),
                l == self.glines()[row as int],
                upto == clampc(l, col as int),
                i <= upto <= n,
                n == line.len(),
                l == line.deep_view(),
                l.len() == n,
                3 * flat(l).len() + 1 <= usize::MAX,
                acc == dcol(l, i as int),
                acc <= 3 * flat(l.subrange(0, i as int)).len(),
            decreases upto - i,
        {
            let w = crate::unicode::str_width(line[i].as_str());
            proof {
                assert(l[i as int] == line@[i as int]@);
                assert(l.subrange(0, i + 1) =~= l.subrange(0, i as int).push(l[i as int]));
                l.subrange(0, i as int).lemma_flatten_push(l[i as int]);
                lemma_flat_prefix_le(l, i + 1);
            }
            acc = acc + w;
            i = i + 1;
        }
        let span = if col < n {
            let w = crate::unicode::str_width(line[col].as_str());
            proof {
                assert(l[col as int] == line@[col as int]@);
                assert(l.subrange(0, col + 1) =~= l.subrange(0, col as int).push(l[col as int]));
                l.subrange(0, col as int).lemma_flatten_push(l[col as int]);
                lemma_flat_prefix_le(l, col + 1);
            }
            if w >= 1 {
                w
            } else {
                1
            }
        } else {
            proof {
                assert(l.subrange(0, n as int) =~= l);
            }
            1
        };
        (acc, span)
    }

    /// The display span of the cell at grapheme index `col` of line `row`:
    /// its display width, at least one column, and one column for the
    /// end-of-line cursor position.
    pub fn grapheme_display_width(&self, row: usize, col: usize) -> (r: usize)
        requires
            self.wf(),
            row < self.glines().len(),
        ensures
            r == gspan(self.glines()[row as int], col as int),
            r >= 1,
    {
        let line = &self.lines[row];
        if col < line.len() {
            let w = crate::unicode::str_width(line[col].as_str());
            proof {
                assert(self.glines()[row as int][col as int] == line@[col as int]@);
            }
            if w >= 1 {
                w
            } else {
                1
            }
        } else {
            1
        }
    }

    /// The grapheme index of the cell whose display span covers column `d`
    /// on line `row`; a column inside a wide cell snaps to that cell's
    /// start, and a column past the line end gives the line length.
    pub fn grapheme_at_display_col(&self, row: usize, d: usize) -> (r: usize)
        requires
            self.wf(),
            row < self.glines().len(),
        ensures
            r == g_at_dcol(self.glines()[row as int], d as int, 0),
            r <= self.glines()[row as int].len(),
    {
        let line = &self.lines[row];
        let ghost l = self.glines()[row as int];
        proof {
            assert(l == self.lines@[row as int].deep_view());
        }
        let n = line.len();
        let mut acc: usize = 0;
        let mut i: usize = 0;
        while i < n
            invariant
                self.wf(),
                row < self.glines().len(),
                l == self.glines()[row as int],
                i <= n,
                n == line.len(),
                l == line.deep_view(),
                l.len() == n,
                acc == dcol(l, i as int),
                acc <= d,
                g_at_dcol(l, d as int, 0) == g_at_dcol(l, d as int, i as int),
            decreases n - i,
        {
            let w = crate::unicode::str_width(line[i].as_str());
            proof {
                assert(l[i as int] == line@[i as int]@);
            }
            if w > d - acc {
                proof {
                    assert(dcol(l, i + 1) > d);
                    assert(g_at_dcol(l, d as int, i as int) == i);
                }
                return i;
            }
            proof {
                assert(dcol(l, i + 1) == acc + w);
                assert(g_at_dcol(l, d as int, i as int) == g_at_dcol(l, d as int, i + 1));
            }
            acc = acc + w;
            i = i + 1;
        }
        proof {
            assert(g_at_dcol(l, d as int, n as int) == n);
        }
        n
    }

    /// The half-open grapheme range of line `row` covered by the inclusive
    /// display-column range `[left, right]`: a cell that only partly
    /// overlaps either edge is included in full.
    pub fn grapheme_range_for_display_cols(&self, row: usize, left: usize, right: usize) -> (r: (
        usize,
        usize,
    ))
        requires
            self.wf(),
            row < self.glines().len(),
            left <= right,
        ensures
            r.0 == g_at_dcol(self.glines()[row as int], left as int, 0),
            r.1 == g_end_dcol(self.glines()[row as int], right as int, 0),
            r.0 <= r.1 <= self.glines()[row as int].len(),
    {
        let gs = self.grapheme_at_display_col(row, left);
        let line = &self.lines[row];
        let ghost l = self.glines()[row as int];
        proof {
            assert(l == self.lines@[row as int].deep_view());
            lemma_g_bounds(l, left as int, right as int, 0);
        }
        let n = line.len();
        let mut acc: usize = 0;
        let mut i: usize = 0;
        while i < n
            invariant
                self.wf(),
                row < self.glines().len(),
                l == self.glines()[row as int],
                i <= n,
                n == line.len(),
                l == line.deep_view(),
                l.len() == n,
                acc == dcol(l, i as int),
                acc <= right,
                gs == g_at_dcol(l, left as int, 0),
                left <= right,
                g_end_dcol(l, right as int, 0) == g_end_dcol(l, right as int, i as int),
            decreases n - i,
        {
            let w = crate::unicode::str_width(line[i].as_str());
            proof {
                assert(l[i as int] == line@[i as int]@);
            }
            if w > right - acc {
                proof {
                    assert(dcol(l, i + 1) > right);
                    assert(dcol(l, i as int) <= right);
                    assert(g_end_dcol(l, right as int, i + 1) == i + 1);
                    assert(g_end_dcol(l, right as int, i as int) == g_end_dcol(
                        l,
                        right as int,
                        i + 1,
                    ));
                    lemma_g_bounds(l, left as int, right as int, 0);
                }
                return (gs, i + 1);
            }
            proof {
                assert(dcol(l, i + 1) == acc + w);
                assert(g_end_dcol(l, right as int, i as int) == g_end_dcol(
                    l,
                    right as int,
                    i + 1,
                ));
            }
            acc = acc + w;
            i = i + 1;
        }
        proof {
            assert(g_end_dcol(l, right as int, n as int) == n);
        }
        (gs, n)
    }

    /// Inserts a `- [ ] ` checkbox marker after the current line's
    /// indentation, shifting the cursor with the text; a line that already
    /// has a checkbox stays put.
    pub fn insert_checkbox(&mut self)
        requires
            old(self).wf(),
        ensures
            final(self).wf(),
            final(self).same_history(old(self)),
            ({
                let l = old(self).glines()[old(self).row()];
                let p = scan_from(l, 0, true);
                let t = l.skip(p);
                if crate::list_prefix::has_cb(t) {
                    final(self).glines() == old(self).glines() && final(self).row() == old(
                        self,
                    ).row() && final(self).col() == old(self).col()
                } else {
                    &&& final(self).glines() =~= old(self).glines().update(
                        old(self).row(),
                        l.subrange(0, p) + crate::text::chars_to_cells(
                            seq!['-', ' ', '[', ' ', ']', ' '],
                        ) + l.skip(p),
                    )
                    &&& final(self).row() == old(self).row()
                    &&& final(self).col() == old(self).col() + 6
                }
            }),
    {
        let row = self.cursor_row;
        let len = self.lines[row].len();
        let ghost l = self.glines()[row as int];
        proof {
            assert(l == self.lines@[row as int].deep_view());
            reveal_strlit("- [ ] ");
            reveal_strlit("- [x] ");
            reveal_strlit("- [X] ");
            reveal_strlit("- [ ]");
            reveal_strlit("- [x]");
            reveal_strlit("- [X]");
        }
        let p = crate::list_prefix::ws_prefix(&self.lines[row]);
        proof {
            crate::list_prefix::lemma_cells_are_shift(l, p as int);
        }
        let rem = len - p;
        let has = crate::list_prefix::cells_have_at(&self.lines[row], p, "- [ ] ")
            || crate::list_prefix::cells_have_at(&self.lines[row], p, "- [x] ")
            || crate::list_prefix::cells_have_at(&self.lines[row], p, "- [X] ") || (rem == 5 && (
        crate::list_prefix::cells_have_at(&self.lines[row], p, "- [ ]")
            || crate::list_prefix::cells_have_at(&self.lines[row], p, "- [x]")
            || crate::list_prefix::cells_have_at(&self.lines[row], p, "- [X]")));
        if has {
            return;
        }
        let mut new_line: Vec<String> = Vec::new();
        push_cells(&mut new_line, &self.lines[row], 0, p);
        new_line.push(crate::text::char_to_string('-'));
        new_line.push(crate::text::char_to_string(' '));
        new_line.push(crate::text::char_to_string('['));
        new_line.push(crate::text::char_to_string(' '));
        new_line.push(crate::text::char_to_string(']'));
        new_line.push(crate::text::char_to_string(' '));
        push_cells(&mut new_line, &self.lines[row], p, len);
        let ghost nl = new_line.deep_view();
        let new_len = new_line.len();
        proof {
            assert(nl =~= l.subrange(0, p as int) + crate::text::chars_to_cells(
                seq!['-', ' ', '[', ' ', ']', ' '],
            ) + l.skip(p as int));
            assert(nl.len() == l.len() + 6);
            assert(self.cursor_col + 6 <= new_len);
        }
        self.lines.set(row, new_line);
        self.cursor_col = self.cursor_col + 6;
        proof {
            assert(self.glines() =~= old(self).glines().update(row as int, nl));
            TextBuffer::lemma_history(*self, *old(self));
        }
    }

    /// Flips the current line's checkbox between checked and unchecked;
    /// a line without one stays put, and the cursor never moves.
    pub fn toggle_checkbox(&mut self)
        requires
            old(self).wf(),
        ensures
            final(self).wf(),
            final(self).same_history(old(self)),
            final(self).row() == old(self).row() && final(self).col() == old(self).col(),
            ({
                let l = old(self).glines()[old(self).row()];
                let p = scan_from(l, 0, true);
                let t = l.skip(p);
                if crate::list_prefix::toggle_cb(t) is Some {
                    final(self).glines() =~= old(self).glines().update(
                        old(self).row(),
                        l.subrange(0, p) + crate::list_prefix::toggle_cb(t)->0,
                    )
                } else {
                    final(self).glines() == old(self).glines()
                }
            }),
    {
        let row = self.cursor_row;
        let len = self.lines[row].len();
        let ghost l = self.glines()[row as int];
        proof {
            assert(l == self.lines@[row as int].deep_view());
            reveal_strlit("- [ ] ");
            reveal_strlit("- [x] ");
            reveal_strlit("- [X] ");
            reveal_strlit("- [ ]");
            reveal_strlit("- [x]");
            reveal_strlit("- [X]");
        }
        let p = crate::list_prefix::ws_prefix(&self.lines[row]);
        proof {
            crate::list_prefix::lemma_cells_are_shift(l, p as int);
        }
        let rem = len - p;
        let to_checked = crate::list_prefix::cells_have_at(&self.lines[row], p, "- [ ] ") || (rem
            == 5 && crate::list_prefix::cells_have_at(&self.lines[row], p, "- [ ]"));
        let to_unchecked = !to_checked && (crate::list_prefix::cells_have_at(
            &self.lines[row],
            p,
            "- [x] ",
        ) || crate::list_prefix::cells_have_at(&self.lines[row], p, "- [X] ") || (rem == 5 && (
        crate::list_prefix::cells_have_at(&self.lines[row], p, "- [x]")
            || crate::list_prefix::cells_have_at(&self.lines[row], p, "- [X]"))));
        if !to_checked && !to_unchecked {
            return;
        }
        let mark = if to_checked {
            'x'
        } else {
            ' '
        };
        let mut new_line: Vec<String> = Vec::new();
        push_cells(&mut new_line, &self.lines[row], 0, len);
        proof {
            assert(new_line.deep_view() =~= l);
            assert(new_line.deep_view().len() == new_line.len());
        }
        new_line.set(p + 3, crate::text::char_to_string(mark));
        let ghost nl = new_line.deep_view();
        self.lines.set(row, new_line);
        proof {
            let t = l.skip(p as int);
            assert(nl =~= l.update(p + 3, seq![mark]));
            assert(nl =~= l.subrange(0, p as int) + t.update(3, seq![mark]));
            assert(crate::list_prefix::toggle_cb(t) == Some(t.update(3, seq![mark])));
            assert(self.glines() =~= old(self).glines().update(row as int, nl));
            TextBuffer::lemma_history(*self, *old(self));
        }
    }

    /// The cursor position a motion would reach, without moving anything.
    fn position_after_motion(&self, motion: Motion) -> (r: (usize, usize))
        requires
            self.wf(),
            motion != Motion::Line,
        ensures
            (r.0 as int, r.1 as int) == motion_target(
                self.glines(),
                self.row(),
                self.col(),
                motion,
            ),
            r.0 < self.glines().len(),
            r.1 <= self.glines()[r.0 as int].len(),
    {
        let mut probe = TextBuffer {
            lines: clone_lines(&self.lines),
            cursor_row: self.cursor_row,
            cursor_col: self.cursor_col,
            undo_stack: Vec::new(),
            redo_stack: Vec::new(),
        };
        match motion {
            Motion::WordForward => probe.move_word_forward(),
            Motion::WordBackward => probe.move_word_backward(),
            Motion::LineEnd => probe.move_to_line_end(),
            Motion::LineStart => probe.move_to_line_start(),
            Motion::FileEnd => probe.move_to_last_line(),
            Motion::FileStart => probe.move_to_first_line(),
            Motion::Line => {},
        }
        (probe.cursor_row, probe.cursor_col)
    }

    /// Deletes the text a motion covers and hands it back; a `Line` motion
    /// removes the whole line, any other normalises cursor and target into
    /// a range and deletes it, leaving the cursor at the range start.
    pub fn apply_motion_delete(&mut self, motion: Motion) -> (r: (String, bool))
        requires
            old(self).wf(),
        ensures
            final(self).wf(),
            final(self).same_history(old(self)),
            motion == Motion::Line ==> {
                &&& r.0@ == flat(old(self).glines()[old(self).row()]) + seq!['\n']
                &&& r.1 == true
                &&& final(self).col() == 0
                &&& old(self).glines().len() > 1 ==> final(self).glines() =~= old(
                    self,
                ).glines().subrange(0, old(self).row()) + old(self).glines().subrange(
                    old(self).row() + 1,
                    old(self).glines().len() as int,
                )
                &&& old(self).glines().len() == 1 ==> final(self).glines() =~= seq![
                    Seq::<Seq<char>>::empty(),
                ]
            },
            motion != Motion::Line ==> {
                let tgt = motion_target(old(self).glines(), old(self).row(), old(self).col(), motion);
                let se = norm_pair((old(self).row(), old(self).col()), tgt);
                &&& r.0@ == range_text(old(self).glines(), se.0.0, se.0.1, se.1.0, se.1.1)
                &&& r.1 == false
                &&& final(self).glines() =~= range_removed(
                    old(self).glines(),
                    se.0.0,
                    se.0.1,
                    se.1.0,
                    se.1.1,
                )
                &&& final(self).row() == se.0.0 && final(self).col() == se.0.1
            },
    {
        match motion {
            Motion::Line => {
                let text = self.delete_line_and_return();
                (text, true)
            },
            _ => {
                let (end_row, end_col) = self.position_after_motion(motion);
                let start_row = self.cursor_row;
                let start_col = self.cursor_col;
                let forward = start_row < end_row || (start_row == end_row && start_col
                    <= end_col);
                let (sr, sc, er, ec) = if forward {
                    (start_row, start_col, end_row, end_col)
                } else {
                    (end_row, end_col, start_row, start_col)
                };
                let text = self.delete_range(sr, sc, er, ec);
                self.cursor_row = sr;
                self.cursor_col = sc;
                proof {
                    let ls = old(self).glines();
                    let fl = self.glines();
                    assert(sc <= fl[sr as int].len());
                    TextBuffer::lemma_history(*self, *old(self));
                }
                (text, false)
            },
        }
    }

    /// Copies the text a motion covers without changing anything; a `Line`
    /// motion takes the whole line with its newline.
    pub fn apply_motion_yank(&self, motion: Motion) -> (r: (String, bool))
        requires
            self.wf(),
        ensures
            motion == Motion::Line ==> r.0@ == flat(self.glines()[self.row()]) + seq!['\n']
                && r.1 == true,
            motion != Motion::Line ==> {
                let tgt = motion_target(self.glines(), self.row(), self.col(), motion);
                let se = norm_pair((self.row(), self.col()), tgt);
                r.0@ == range_text(self.glines(), se.0.0, se.0.1, se.1.0, se.1.1) && r.1 == false
            },
    {
        match motion {
            Motion::Line => {
                let text = self.extract_line();
                (text, true)
            },
            _ => {
                let (end_row, end_col) = self.position_after_motion(motion);
                let start_row = self.cursor_row;
                let start_col = self.cursor_col;
                let forward = start_row < end_row || (start_row == end_row && start_col
                    <= end_col);
                let (sr, sc, er, ec) = if forward {
                    (start_row, start_col, end_row, end_col)
                } else {
                    (end_row, end_col, start_row, start_col)
                };
                let text = self.extract_range(sr, sc, er, ec);
                (text, false)
            },
        }
    }

    /// Toggles HTML comments over a row range (clamped to the document):
    /// when any non-blank line there is uncommented, every line is
    /// commented; otherwise every line is uncommented. The cursor column
    /// re-clamps afterwards.
    pub fn toggle_comment_lines(&mut self, start_row: usize, end_row: usize)
        requires
            old(self).wf(),
        ensures
            final(self).wf(),
            final(self).same_history(old(self)),
            final(self).glines().len() == old(self).glines().len(),
            final(self).row() == old(self).row(),
            ({
                let gl = old(self).glines();
                let stop: int = if end_row < gl.len() {
                    end_row as int
                } else {
                    gl.len() - 1
                };
                let to_comment = exists|r: int|
                    start_row <= r <= stop && !crate::comment::blank(#[trigger] gl[r])
                        && !crate::comment::commented(gl[r]);
                forall|r: int|
                    0 <= r < gl.len() ==> #[trigger] final(self).glines()[r] == if (start_row <= r
                        <= stop) {
                        if to_comment {
                            crate::comment::comment_cells(gl[r])
                        } else {
                            match crate::comment::uncomment_cells(gl[r]) {
                                Some(u) => u,
                                None => gl[r],
                            }
                        }
                    } else {
                        gl[r]
                    }
            }),
            final(self).col() == if old(self).col() <= final(self).glines()[old(self).row()].len() {
                old(self).col()
            } else {
                final(self).glines()[old(self).row()].len() as int
            },
    {
        let ghost gl = self.glines();
        let last = self.lines.len() - 1;
        let stop = if end_row < last {
            end_row
        } else {
            last
        };
        let mut to_comment = false;
        let mut r = start_row;
        while r <= stop
            invariant
                old(self).wf(),
                *self == *old(self),
                stop < self.lines.len(),
                stop == if end_row < gl.len() {
                    end_row as int
                } else {
                    gl.len() - 1
                },
                gl == self.glines(),
                start_row <= r,
                r <= stop + 1 || r == start_row,
                to_comment == exists|r2: int|
                    start_row <= r2 < r && !crate::comment::blank(#[trigger] gl[r2])
                        && !crate::comment::commented(gl[r2]),
            decreases stop + 1 - r,
        {
            proof {
                assert(gl[r as int] == self.lines@[r as int].deep_view());
            }
            if !crate::comment::line_blank(&self.lines[r]) && !crate::comment::is_commented_cells(
                &self.lines[r],
            ) {
                to_comment = true;
            }
            r = r + 1;
        }
        proof {
            assert(to_comment == exists|r2: int|
                start_row <= r2 <= stop && !crate::comment::blank(#[trigger] gl[r2])
                    && !crate::comment::commented(gl[r2]));
        }
        let nlines = self.lines.len();
        let mut r = start_row;
        while r <= stop
            invariant
                old(self).wf(),
                nlines == gl.len(),
                stop < nlines,
                stop == if end_row < gl.len() {
                    end_row as int
                } else {
                    gl.len() - 1
                },
                gl == old(self).glines(),
                self.glines().len() == gl.len(),
                self.row() == old(self).row() && self.col() == old(self).col(),
                self.same_history(old(self)),
                start_row <= r,
                r <= stop + 1 || r == start_row,
                to_comment == exists|r2: int|
                    start_row <= r2 <= stop && !crate::comment::blank(#[trigger] gl[r2])
                        && !crate::comment::commented(gl[r2]),
                forall|j: int|
                    0 <= j < gl.len() ==> #[trigger] self.glines()[j] == if (start_row <= j < r) {
                        if to_comment {
                            crate::comment::comment_cells(gl[j])
                        } else {
                            match crate::comment::uncomment_cells(gl[j]) {
                                Some(u) => u,
                                None => gl[j],
                            }
                        }
                    } else {
                        gl[j]
                    },
            decreases stop + 1 - r,
        {
            let ghost pre = self.glines();
            proof {
                assert(pre[r as int] == gl[r as int]);
                assert(self.lines@[r as int].deep_view() == gl[r as int]);
            }
            if to_comment {
                let new_line = crate::comment::comment_line_cells(&self.lines[r]);
                self.lines.set(r, new_line);
                proof {
                    assert(self.glines() =~= pre.update(
                        r as int,
                        crate::comment::comment_cells(gl[r as int]),
                    ));
                }
            } else {
                match crate::comment::uncomment_line_cells(&self.lines[r]) {
                    Some(new_line) => {
                        self.lines.set(r, new_line);
                        proof {
                            assert(self.glines() =~= pre.update(
                                r as int,
                                crate::comment::uncomment_cells(gl[r as int])->0,
                            ));
                        }
                    },
                    None => {
                        proof {
                            assert(self.glines() =~= pre.update(r as int, gl[r as int]));
                        }
                    },
                }
            }
            r = r + 1;
        }
        let row = self.cursor_row;
        let new_len = self.lines[row].len();
        if self.cursor_col > new_len {
            self.cursor_col = new_len;
        }
        proof {
            assert(self.glines()[row as int].len() == self.lines@[row as int].deep_view().len());
            TextBuffer::lemma_history(*self, *old(self));
        }
    }

    /// Toggles an inline markdown marker around a grapheme range of one
    /// line: unwraps a selection already wrapped in the marker, wraps it
    /// otherwise; hands back the new selection bounds. The cursor column
    /// re-clamps afterwards.
    pub fn toggle_format_visual(
        &mut self,
        row: usize,
        sel_start: usize,
        sel_end: usize,
        format: crate::markdown_fmt::MarkdownFormat,
    ) -> (r: (usize, usize))
        requires
            old(self).wf(),
            row < old(self).glines().len(),
            old(self).glines()[row as int].len() + 6 < usize::MAX,
        ensures
            final(self).wf(),
            final(self).same_history(old(self)),
            final(self).glines().len() == old(self).glines().len(),
            final(self).row() == old(self).row(),
            ({
                let t = crate::markdown_fmt::visual_toggled(
                    old(self).glines()[row as int],
                    sel_start as int,
                    sel_end as int,
                    format,
                );
                &&& final(self).glines() =~= old(self).glines().update(row as int, t.0)
                &&& r.0 == t.1 && r.1 == t.2
            }),
            ({
                let newlen = final(self).glines()[final(self).row()].len();
                final(self).col() == if old(self).col() <= newlen {
                    old(self).col()
                } else {
                    newlen as int
                }
            }),
    {
        let ghost l = self.glines()[row as int];
        let marker = format.marker();
        let mlen = marker.unicode_len();
        let n = self.lines[row].len();
        proof {
            assert(l == self.lines@[row as int].deep_view());
            crate::markdown_fmt::lemma_mchars_len(format);
        }
        let se = if sel_end < n {
            sel_end
        } else {
            n
        };
        let ss = if sel_start < se {
            sel_start
        } else {
            se
        };
        let ghost sel = l.subrange(ss as int, se as int);
        let wrapped = se - ss >= 2 * mlen && crate::list_prefix::cells_have_at(
            &self.lines[row],
            ss,
            marker,
        ) && crate::list_prefix::cells_have_at(&self.lines[row], se - mlen, marker);
        proof {
            crate::markdown_fmt::lemma_sel_wrap_equiv(l, ss as int, se as int, marker@);
        }
        let result = if wrapped {
            let mut out: Vec<String> = Vec::new();
            push_cells(&mut out, &self.lines[row], 0, ss);
            push_cells(&mut out, &self.lines[row], ss + mlen, se - mlen);
            push_cells(&mut out, &self.lines[row], se, n);
            let ghost nl = out.deep_view();
            self.lines.set(row, out);
            proof {
                assert(nl =~= crate::markdown_fmt::visual_toggled(
                    l,
                    sel_start as int,
                    sel_end as int,
                    format,
                ).0);
                assert(self.glines() =~= old(self).glines().update(row as int, nl));
            }
            (ss, se - 2 * mlen)
        } else {
            let mut out: Vec<String> = Vec::new();
            push_cells(&mut out, &self.lines[row], 0, ss);
            let mut k: usize = 0;
            while k < mlen
                invariant
                    k <= mlen,
                    mlen == marker@.len(),
                    out.deep_view() =~= l.subrange(0, ss as int) + crate::text::chars_to_cells(
                        marker@.subrange(0, k as int),
                    ),
                    l == old(self).glines()[row as int],
                    ss <= se <= l.len(),
                    self.lines@[row as int].deep_view() == l,
                    row < self.lines@.len(),
                    *self == *old(self),
                decreases mlen - k,
            {
                let ghost prev = out.deep_view();
                out.push(crate::text::char_to_string(marker.get_char(k)));
                proof {
                    assert(out.deep_view() =~= prev.push(seq![marker@[k as int]]));
                    assert(crate::text::chars_to_cells(marker@.subrange(0, k + 1))
                        =~= crate::text::chars_to_cells(marker@.subrange(0, k as int)).push(
                        seq![marker@[k as int]],
                    ));
                }
                k = k + 1;
            }
            push_cells(&mut out, &self.lines[row], ss, se);
            let mut k2: usize = 0;
            let ghost base = out.deep_view();
            while k2 < mlen
                invariant
                    k2 <= mlen,
                    mlen == marker@.len(),
                    out.deep_view() =~= base + crate::text::chars_to_cells(
                        marker@.subrange(0, k2 as int),
                    ),
                    l == old(self).glines()[row as int],
                    ss <= se <= l.len(),
                    self.lines@[row as int].deep_view() == l,
                    row < self.lines@.len(),
                    *self == *old(self),
                decreases mlen - k2,
            {
                let ghost prev = out.deep_view();
                out.push(crate::text::char_to_string(marker.get_char(k2)));
                proof {
                    assert(out.deep_view() =~= prev.push(seq![marker@[k2 as int]]));
                    assert(crate::text::chars_to_cells(marker@.subrange(0, k2 + 1))
                        =~= crate::text::chars_to_cells(marker@.subrange(0, k2 as int)).push(
                        seq![marker@[k2 as int]],
                    ));
                }
                k2 = k2 + 1;
            }
            push_cells(&mut out, &self.lines[row], se, n);
            let ghost nl = out.deep_view();
            self.lines.set(row, out);
            proof {
                assert(marker@.subrange(0, mlen as int) =~= marker@);
                assert(nl =~= crate::markdown_fmt::visual_toggled(
                    l,
                    sel_start as int,
                    sel_end as int,
                    format,
                ).0);
                assert(self.glines() =~= old(self).glines().update(row as int, nl));
            }
            (ss, se + 2 * mlen)
        };
        let crow = self.cursor_row;
        let new_len = self.lines[crow].len();
        if self.cursor_col > new_len {
            self.cursor_col = new_len;
        }
        proof {
            assert(self.glines()[self.row()].len() == self.lines@[self.row()].deep_view().len());
            TextBuffer::lemma_history(*self, *old(self));
        }
        result
    }

    /// The text of one line.
    pub fn line_text(&self, row: usize) -> (r: String)
        requires
            self.wf(),
            row < self.glines().len(),
        ensures
            r@ == flat(self.glines()[row as int]),
    {
        proof {
            assert(self.glines()[row as int] == self.lines@[row as int].deep_view());
        }
        join_cells(&self.lines[row])
    }

    /// The number of grapheme cells on one line.
    pub fn line_len(&self, row: usize) -> (r: usize)
        requires
            self.wf(),
            row < self.glines().len(),
        ensures
            r == self.glines()[row as int].len(),
    {
        self.lines[row].len()
    }

    /// The number of grapheme cells on the cursor's line.
    fn current_line_len(&self) -> (r: usize)
        requires
            self.wf(),
        ensures
            r == self.glines()[self.row()].len(),
    {
        self.lines[self.cursor_row].len()
    }

    /// The text of the cursor's line.
    pub fn current_line_content(&self) -> (r: String)
        requires
            self.wf(),
        ensures
            r@ == flat(self.glines()[self.row()]),
    {
        join_cells(&self.lines[self.cursor_row])
    }
}

} // verus!
