//! Detecting and continuing list prefixes: unordered dashes, checkboxes,
//! and numbered items, with leading indentation preserved.

use vstd::prelude::*;
use vstd::pervasive::VecAdditionalExecFns;

use crate::buffer::{flat, scan_from};
use crate::text::{
    all_digits, all_ws, dec_digits, digits_val, num_body, parse_u64, parses_u64,
};
use crate::unicode::{gcluster, join_cells, split_graphemes};

verus! {

/// A detected list prefix: the leading whitespace, and the marker text the
/// next line should start with.
#[derive(Debug, Clone, PartialEq, Eq)]
pub struct ListPrefix {
    /// Leading whitespace before the prefix.
    pub indent: String,
    /// The continuation marker for the next line.
    pub continuation: String,
}

/// The cells starting at `i` spell `pat`, one character per cell.
pub open spec fn cells_are(l: Seq<Seq<char>>, i: int, pat: Seq<char>) -> bool {
    &&& 0 <= i
    &&& i + pat.len() <= l.len()
    &&& forall|k: int| 0 <= k < pat.len() ==> #[trigger] l[i + k] == seq![pat[k]]
}

/// The index of the first cell equal to the single character `c`, at or
/// after `i` (or the length when there is none).
pub open spec fn first_cell_idx(l: Seq<Seq<char>>, c: char, i: int) -> int
    decreases l.len() - i,
{
    if i < 0 || i >= l.len() {
        l.len() as int
    } else if l[i] == seq![c] {
        i
    } else {
        first_cell_idx(l, c, i + 1)
    }
}

/// The length of `l` with trailing whitespace cells dropped.
pub open spec fn trim_end_len(l: Seq<Seq<char>>) -> int
    decreases l.len(),
{
    if l.len() > 0 && all_ws(l.last()) {
        trim_end_len(l.drop_last())
    } else {
        l.len() as int
    }
}

/// The continuation an ordered-list prefix `N<delim> ` yields: the number
/// before the first delimiter cell, incremented. A count at the `u64`
/// ceiling is left alone rather than wrapped.
pub open spec fn ordered_cont(t: Seq<Seq<char>>, delim: char) -> Option<Seq<char>> {
    let p = first_cell_idx(t, delim, 0);
    let numtext = flat(t.subrange(0, if p <= t.len() { p } else { 0 }));
    if 0 < p < t.len() && parses_u64(numtext) && digits_val(num_body(numtext)) < u64::MAX && (p + 1
        == t.len() || t[p + 1] == seq![' ']) {
        Some(dec_digits(digits_val(num_body(numtext)) + 1).push(delim).push(' '))
    } else {
        None
    }
}

/// The continuation for the trimmed line `t`, if it carries any list
/// prefix: checkboxes continue unchecked, ordered items increment.
pub open spec fn detect_cont(t: Seq<Seq<char>>) -> Option<Seq<char>> {
    let unch = seq!['-', ' ', '[', ' ', ']', ' '];
    if cells_are(t, 0, unch) || cells_are(t, 0, seq!['-', ' ', '[', 'x', ']', ' ']) || cells_are(
        t,
        0,
        seq!['-', ' ', '[', 'X', ']', ' '],
    ) {
        Some(unch)
    } else if t.len() == 5 && (cells_are(t, 0, seq!['-', ' ', '[', ' ', ']']) || cells_are(
        t,
        0,
        seq!['-', ' ', '[', 'x', ']'],
    ) || cells_are(t, 0, seq!['-', ' ', '[', 'X', ']'])) {
        Some(unch)
    } else if ordered_cont(t, '.') is Some {
        ordered_cont(t, '.')
    } else if ordered_cont(t, ')') is Some {
        ordered_cont(t, ')')
    } else if cells_are(t, 0, seq!['-', ' ']) {
        Some(seq!['-', ' '])
    } else if t.len() == 1 && t[0] == seq!['-'] {
        Some(seq!['-', ' '])
    } else {
        None
    }
}

/// Whether the trimmed line `t` starts with (or is exactly) a checkbox
/// marker.
pub open spec fn has_cb(t: Seq<Seq<char>>) -> bool {
    ||| cells_are(t, 0, seq!['-', ' ', '[', ' ', ']', ' '])
    ||| cells_are(t, 0, seq!['-', ' ', '[', 'x', ']', ' '])
    ||| cells_are(t, 0, seq!['-', ' ', '[', 'X', ']', ' '])
    ||| t.len() == 5 && (cells_are(t, 0, seq!['-', ' ', '[', ' ', ']']) || cells_are(
        t,
        0,
        seq!['-', ' ', '[', 'x', ']'],
    ) || cells_are(t, 0, seq!['-', ' ', '[', 'X', ']']))
}

/// Whether the trimmed line is nothing but a list marker: a bare or
/// trailing-space checkbox, dash, or ordered marker.
pub open spec fn prefix_only_spec(t: Seq<Seq<char>>) -> bool {
    let te = t.subrange(0, trim_end_len(t));
    ||| (t.len() == 6 && cells_are(t, 0, seq!['-', ' ', '[', ' ', ']', ' ']))
    ||| (t.len() == 6 && cells_are(t, 0, seq!['-', ' ', '[', 'x', ']', ' ']))
    ||| (t.len() == 6 && cells_are(t, 0, seq!['-', ' ', '[', 'X', ']', ' ']))
    ||| (t.len() == 5 && cells_are(t, 0, seq!['-', ' ', '[', ' ', ']']))
    ||| (t.len() == 5 && cells_are(t, 0, seq!['-', ' ', '[', 'x', ']']))
    ||| (t.len() == 5 && cells_are(t, 0, seq!['-', ' ', '[', 'X', ']']))
    ||| (t.len() == 2 && cells_are(t, 0, seq!['-', ' ']))
    ||| (t.len() == 1 && t[0] == seq!['-'])
    ||| ordered_only(t, te, '.')
    ||| ordered_only(t, te, ')')
}

/// The index of the last cell equal to the single character `c`, or -1.
pub open spec fn last_cell_idx(l: Seq<Seq<char>>, c: char) -> int
    decreases l.len(),
{
    if l.len() == 0 {
        -1
    } else if l.last() == seq![c] {
        l.len() - 1
    } else {
        last_cell_idx(l.drop_last(), c)
    }
}

/// Whether `t` is an ordered marker alone: digits, the delimiter (last of
/// its kind before any trailing whitespace), then nothing or one space.
pub open spec fn ordered_only(t: Seq<Seq<char>>, te: Seq<Seq<char>>, delim: char) -> bool {
    let dp = last_cell_idx(te, delim);
    &&& dp > 0
    &&& all_digits(flat(te.subrange(0, dp)))
    &&& (t.len() == dp + 1 || (t.len() == dp + 2 && t[dp + 1] == seq![' ']))
}

/// The index of the first cell equal to `c` at or after `from`.
fn find_cell_from(cells: &Vec<String>, from: usize, c: char) -> (r: usize)
    requires
        from <= cells.len(),
    ensures
        from <= r <= cells.len(),
        first_cell_idx(cells.deep_view().skip(from as int), c, 0) == r - from,
        r < cells.len() ==> cells.deep_view()[r as int] == seq![c],
{
    let ghost t = cells.deep_view().skip(from as int);
    let n = cells.len();
    let mut dp = from;
    while dp < n
        invariant
            from <= dp <= n,
            n == cells.len(),
            cells.deep_view().len() == n,
            t == cells.deep_view().skip(from as int),
            first_cell_idx(t, c, 0) == first_cell_idx(t, c, dp - from),
        decreases n - dp,
    {
        proof {
            assert(t[dp - from] == cells.deep_view()[dp as int]);
        }
        if cell_is(cells, dp, c) {
            proof {
                assert(first_cell_idx(t, c, dp - from) == dp - from);
            }
            return dp;
        }
        dp = dp + 1;
    }
    proof {
        assert(first_cell_idx(t, c, dp - from) == t.len());
    }
    dp
}

/// Whether the cell at `i` is exactly the character `c`.
pub(crate) fn cell_is(l: &Vec<String>, i: usize, c: char) -> (r: bool)
    requires
        i < l.len(),
    ensures
        r == (l.deep_view()[i as int] == seq![c]),
{
    let g = &l[i];
    let n = g.as_str().unicode_len();
    proof {
        assert(l.deep_view()[i as int] == l@[i as int]@);
    }
    if n == 1 && g.as_str().get_char(0) == c {
        proof {
            assert(g@ =~= seq![c]);
        }
        true
    } else {
        proof {
            if g@ == seq![c] {
                assert(g@.len() == 1 && g@[0] == c);
            }
        }
        false
    }
}

/// Whether the cells starting at `i` spell out `pat`.
pub(crate) fn cells_have_at(l: &Vec<String>, i: usize, pat: &str) -> (r: bool)
    ensures
        r == cells_are(l.deep_view(), i as int, pat@),
{
    let m = pat.unicode_len();
    let n = l.len();
    if m > n || i > n - m {
        return false;
    }
    let mut k: usize = 0;
    while k < m
        invariant
            k <= m,
            m == pat@.len(),
            i + m <= n,
            n == l.len(),
            l.deep_view().len() == n,
            forall|k2: int|
                0 <= k2 < k ==> #[trigger] l.deep_view()[i + k2] == seq![pat@[k2]],
        decreases m - k,
    {
        if !cell_is(l, i + k, pat.get_char(k)) {
            return false;
        }
        k = k + 1;
    }
    true
}

/// The number of leading whitespace cells.
pub(crate) fn ws_prefix(l: &Vec<String>) -> (r: usize)
    ensures
        r == scan_from(l.deep_view(), 0, true),
        r <= l.len(),
{
    let n = l.len();
    let mut i: usize = 0;
    while i < n
        invariant
            i <= n,
            n == l.len(),
            l.deep_view().len() == n,
            scan_from(l.deep_view(), 0, true) == scan_from(l.deep_view(), i as int, true),
        decreases n - i,
    {
        proof {
            assert(l.deep_view()[i as int] == l@[i as int]@);
        }
        if !crate::text::str_all_ws(l[i].as_str()) {
            return i;
        }
        i = i + 1;
    }
    i
}

/// Detects a list prefix on a line and returns its indentation and the
/// marker the next line should continue with.
pub fn detect_list_prefix(line: &str) -> (r: Option<ListPrefix>)
    ensures
        ({
            let cells = gcluster(line@);
            let p = scan_from(cells, 0, true);
            let t = cells.skip(p);
            &&& (r is Some <==> detect_cont(t) is Some)
            &&& r is Some ==> (r->0).indent@ == flat(cells.subrange(0, p)) && (
            r->0).continuation@ == detect_cont(t)->0
        }),
{
    let cells = split_graphemes(line);
    let p = ws_prefix(&cells);
    let ghost t = cells.deep_view().skip(p as int);
    let indent = crate::buffer::cells_join(&cells, 0, p);
    proof {
        assert(t =~= cells.deep_view().subrange(p as int, cells.deep_view().len() as int));
        lemma_cells_are_shift(cells.deep_view(), p as int);
    }
    if cells_have_at(&cells, p, "- [ ] ") || cells_have_at(&cells, p, "- [x] ") || cells_have_at(
        &cells,
        p,
        "- [X] ",
    ) {
        proof {
            reveal_strlit("- [ ] ");
            reveal_strlit("- [x] ");
            reveal_strlit("- [X] ");
        }
        return Some(ListPrefix { indent, continuation: unchecked_marker() });
    }
    let rem = cells.len() - p;
    if rem == 5 && (cells_have_at(&cells, p, "- [ ]") || cells_have_at(&cells, p, "- [x]")
        || cells_have_at(&cells, p, "- [X]")) {
        proof {
            reveal_strlit("- [ ]");
            reveal_strlit("- [x]");
            reveal_strlit("- [X]");
            reveal_strlit("- [ ] ");
            reveal_strlit("- [x] ");
            reveal_strlit("- [X] ");
        }
        return Some(ListPrefix { indent, continuation: unchecked_marker() });
    }
    proof {
        reveal_strlit("- [ ] ");
        reveal_strlit("- [x] ");
        reveal_strlit("- [X] ");
        reveal_strlit("- [ ]");
        reveal_strlit("- [x]");
        reveal_strlit("- [X]");
    }
    match try_ordered_prefix_cells(&cells, p, '.') {
        Some(cont) => {
            return Some(ListPrefix { indent, continuation: cont });
        },
        None => {},
    }
    match try_ordered_prefix_cells(&cells, p, ')') {
        Some(cont) => {
            return Some(ListPrefix { indent, continuation: cont });
        },
        None => {},
    }
    if cells_have_at(&cells, p, "- ") {
        proof {
            reveal_strlit("- ");
        }
        let mut continuation = String::new();
        continuation.append("- ");
        proof {
            reveal_strlit("- ");
            assert(continuation@ =~= seq!['-', ' ']);
        }
        return Some(ListPrefix { indent, continuation });
    }
    if rem == 1 && cell_is(&cells, p, '-') {
        let mut continuation = String::new();
        continuation.append("- ");
        proof {
            reveal_strlit("- ");
            assert(continuation@ =~= seq!['-', ' ']);
            assert(t[0] == seq!['-']);
        }
        return Some(ListPrefix { indent, continuation });
    }
    proof {
        reveal_strlit("- ");
        if t.len() == 1 && t[0] == seq!['-'] {
            assert(cells.deep_view()[p as int] == seq!['-']);
        }
    }
    None
}

/// The marker an unchecked checkbox line continues with.
fn unchecked_marker() -> (r: String)
    ensures
        r@ == seq!['-', ' ', '[', ' ', ']', ' '],
{
    let mut s = String::new();
    s.append("- [ ] ");
    proof {
        reveal_strlit("- [ ] ");
        assert(s@ =~= seq!['-', ' ', '[', ' ', ']', ' ']);
    }
    s
}

/// Shifting a prefix off a line shifts cell patterns with it.
pub(crate) proof fn lemma_cells_are_shift(l: Seq<Seq<char>>, p: int)
    requires
        0 <= p <= l.len(),
    ensures
        forall|pat: Seq<char>|
            #[trigger] cells_are(l.skip(p), 0, pat) == cells_are(l, p, pat),
{
    assert forall|pat: Seq<char>|
        #[trigger] cells_are(l.skip(p), 0, pat) == cells_are(l, p, pat) by {
        let t = l.skip(p);
        assert(forall|k: int| 0 <= k < t.len() ==> #[trigger] t[k] == l[p + k]);
        if cells_are(t, 0, pat) {
            assert forall|k: int| 0 <= k < pat.len() implies #[trigger] l[p + k] == seq![
                pat[k],
            ] by {
                assert(t[0 + k] == seq![pat[k]]);
                assert(t[k] == l[p + k]);
            }
        }
        if cells_are(l, p, pat) {
            assert forall|k: int| 0 <= k < pat.len() implies #[trigger] t[0 + k] == seq![
                pat[k],
            ] by {
                assert(l[p + k] == seq![pat[k]]);
                assert(t[k] == l[p + k]);
            }
        }
    }
}

/// Parses an ordered marker `N<delim>` at cell `p` and hands back the
/// incremented continuation text.
fn try_ordered_prefix_cells(cells: &Vec<String>, p: usize, delim: char) -> (r: Option<String>)
    requires
        p <= cells.len(),
    ensures
        ({
            let t = cells.deep_view().skip(p as int);
            &&& (r is Some <==> ordered_cont(t, delim) is Some)
            &&& r is Some ==> (r->0)@ == ordered_cont(t, delim)->0
        }),
{
    let ghost t = cells.deep_view().skip(p as int);
    let n = cells.len();
    let dp = find_cell_from(cells, p, delim);
    if dp == p || dp >= n {
        return None;
    }
    let numstr = crate::buffer::cells_join(cells, p, dp);
    proof {
        assert(t.subrange(0, dp - p) =~= cells.deep_view().subrange(p as int, dp as int));
    }
    let num = match parse_u64(numstr.as_str()) {
        Some(v) => v,
        None => {
            return None;
        },
    };
    if num == u64::MAX {
        return None;
    }
    proof {
        if dp + 1 < n {
            assert(t[dp + 1 - p] == cells.deep_view()[dp + 1]);
        }
    }
    let ok_after = if dp + 1 == n {
        true
    } else {
        cell_is(cells, dp + 1, ' ')
    };
    if !ok_after {
        return None;
    }
    let mut digit_cells: Vec<String> = Vec::new();
    crate::text::push_dec_digits(num + 1, &mut digit_cells);
    let mut cont = join_cells(&digit_cells);
    let d = crate::text::char_to_string(delim);
    cont.append(d.as_str());
    let sp = crate::text::char_to_string(' ');
    cont.append(sp.as_str());
    proof {
        crate::text::lemma_chars_to_cells_flat(dec_digits((num + 1) as int));
        assert(cont@ =~= dec_digits((num + 1) as int).push(delim).push(' '));
    }
    Some(cont)
}

/// The trimmed line with its checkbox mark flipped, when it has one.
pub open spec fn toggle_cb(t: Seq<Seq<char>>) -> Option<Seq<Seq<char>>> {
    if cells_are(t, 0, seq!['-', ' ', '[', ' ', ']', ' ']) || (t.len() == 5 && cells_are(
        t,
        0,
        seq!['-', ' ', '[', ' ', ']'],
    )) {
        Some(t.update(3, seq!['x']))
    } else if cells_are(t, 0, seq!['-', ' ', '[', 'x', ']', ' ']) || cells_are(
        t,
        0,
        seq!['-', ' ', '[', 'X', ']', ' '],
    ) || (t.len() == 5 && (cells_are(t, 0, seq!['-', ' ', '[', 'x', ']']) || cells_are(
        t,
        0,
        seq!['-', ' ', '[', 'X', ']'],
    ))) {
        Some(t.update(3, seq![' ']))
    } else {
        None
    }
}

/// Whether the line (after its indentation) carries a checkbox marker.
pub fn has_checkbox_prefix(line: &str) -> (r: bool)
    ensures
        ({
            let cells = gcluster(line@);
            let t = cells.skip(scan_from(cells, 0, true));
            r == has_cb(t)
        }),
{
    let cells = split_graphemes(line);
    let p = ws_prefix(&cells);
    proof {
        lemma_cells_are_shift(cells.deep_view(), p as int);
        reveal_strlit("- [ ] ");
        reveal_strlit("- [x] ");
        reveal_strlit("- [X] ");
        reveal_strlit("- [ ]");
        reveal_strlit("- [x]");
        reveal_strlit("- [X]");
    }
    let rem = cells.len() - p;
    cells_have_at(&cells, p, "- [ ] ") || cells_have_at(&cells, p, "- [x] ") || cells_have_at(
        &cells,
        p,
        "- [X] ",
    ) || (rem == 5 && (cells_have_at(&cells, p, "- [ ]") || cells_have_at(&cells, p, "- [x]")
        || cells_have_at(&cells, p, "- [X]")))
}

/// Flips `- [ ]` to `- [x]` and either checked form back, keeping the
/// indentation; `None` when the line has no checkbox.
pub fn toggle_checkbox_prefix(line: &str) -> (r: Option<String>)
    ensures
        ({
            let cells = gcluster(line@);
            let p = scan_from(cells, 0, true);
            let t = cells.skip(p);
            &&& (r is Some <==> toggle_cb(t) is Some)
            &&& r is Some ==> (r->0)@ == flat(cells.subrange(0, p)) + flat(toggle_cb(t)->0)
        }),
{
    let mut cells = split_graphemes(line);
    let ghost cd = cells.deep_view();
    let p = ws_prefix(&cells);
    let ghost t = cd.skip(p as int);
    proof {
        lemma_cells_are_shift(cd, p as int);
        reveal_strlit("- [ ] ");
        reveal_strlit("- [x] ");
        reveal_strlit("- [X] ");
        reveal_strlit("- [ ]");
        reveal_strlit("- [x]");
        reveal_strlit("- [X]");
    }
    let rem = cells.len() - p;
    let to_checked = cells_have_at(&cells, p, "- [ ] ") || (rem == 5 && cells_have_at(
        &cells,
        p,
        "- [ ]",
    ));
    let to_unchecked = !to_checked && (cells_have_at(&cells, p, "- [x] ") || cells_have_at(
        &cells,
        p,
        "- [X] ",
    ) || (rem == 5 && (cells_have_at(&cells, p, "- [x]") || cells_have_at(&cells, p, "- [X]"))));
    if !to_checked && !to_unchecked {
        return None;
    }
    let mark = if to_checked {
        'x'
    } else {
        ' '
    };
    cells.set(p + 3, crate::text::char_to_string(mark));
    let out = join_cells(&cells);
    proof {
        assert(cells.deep_view() =~= cd.update(p + 3, seq![mark]));
        assert(cells.deep_view() =~= cd.subrange(0, p as int) + t.update(3, seq![mark]));
        vstd::seq_lib::lemma_flatten_concat(
            cd.subrange(0, p as int),
            t.update(3, seq![mark]),
        );
        assert(cd.subrange(0, p as int) + t.update(3, seq![mark]) =~= cells.deep_view());
        assert(toggle_cb(t) == Some(t.update(3, seq![mark])));
    }
    Some(out)
}

/// Prepends `- [ ] ` after the indentation; `None` when a checkbox is
/// already there.
pub fn insert_checkbox_prefix(line: &str) -> (r: Option<String>)
    ensures
        ({
            let cells = gcluster(line@);
            let p = scan_from(cells, 0, true);
            let t = cells.skip(p);
            &&& (r is Some <==> !has_cb(t))
            &&& r is Some ==> (r->0)@ == flat(cells.subrange(0, p)) + seq![
                '-',
                ' ',
                '[',
                ' ',
                ']',
                ' ',
            ] + flat(t)
        }),
{
    if has_checkbox_prefix(line) {
        return None;
    }
    let cells = split_graphemes(line);
    let p = ws_prefix(&cells);
    let ghost cd = cells.deep_view();
    let ghost t = cd.skip(p as int);
    let mut out = crate::buffer::cells_join(&cells, 0, p);
    out.append("- [ ] ");
    let rest = crate::buffer::cells_join(&cells, p, cells.len());
    out.append(rest.as_str());
    proof {
        reveal_strlit("- [ ] ");
        assert(t =~= cd.subrange(p as int, cd.len() as int));
        assert(out@ =~= flat(cd.subrange(0, p as int)) + seq!['-', ' ', '[', ' ', ']', ' ']
            + flat(t));
    }
    Some(out)
}

/// Whether the line is nothing but a list marker, so that continuing the
/// list should clear it instead.
pub fn is_prefix_only(line: &str) -> (r: bool)
    ensures
        ({
            let cells = gcluster(line@);
            let t = cells.skip(scan_from(cells, 0, true));
            r == prefix_only_spec(t)
        }),
{
    let cells = split_graphemes(line);
    let p = ws_prefix(&cells);
    let ghost cd = cells.deep_view();
    let ghost t = cd.skip(p as int);
    proof {
        lemma_cells_are_shift(cd, p as int);
        reveal_strlit("- [ ] ");
        reveal_strlit("- [x] ");
        reveal_strlit("- [X] ");
        reveal_strlit("- [ ]");
        reveal_strlit("- [x]");
        reveal_strlit("- [X]");
        reveal_strlit("- ");
    }
    let rem = cells.len() - p;
    if rem == 6 && (cells_have_at(&cells, p, "- [ ] ") || cells_have_at(&cells, p, "- [x] ")
        || cells_have_at(&cells, p, "- [X] ")) {
        return true;
    }
    if rem == 5 && (cells_have_at(&cells, p, "- [ ]") || cells_have_at(&cells, p, "- [x]")
        || cells_have_at(&cells, p, "- [X]")) {
        return true;
    }
    if rem == 2 && cells_have_at(&cells, p, "- ") {
        return true;
    }
    if rem == 1 && cell_is(&cells, p, '-') {
        proof {
            assert(t[0] == cd[p as int]);
        }
        return true;
    }
    let tel = trim_end_cells(&cells, p);
    if ordered_only_check(&cells, p, tel, '.') {
        return true;
    }
    if ordered_only_check(&cells, p, tel, ')') {
        return true;
    }
    proof {
        if t.len() == 1 && t[0] == seq!['-'] {
            assert(cd[p as int] == t[0]);
        }
    }
    false
}

/// The number of cells of the trimmed line once trailing whitespace cells
/// are dropped as well.
pub(crate) fn trim_end_cells(cells: &Vec<String>, p: usize) -> (r: usize)
    requires
        p <= cells.len(),
    ensures
        r == trim_end_len(cells.deep_view().skip(p as int)),
        r <= cells.len() - p,
{
    let ghost t = cells.deep_view().skip(p as int);
    let n = cells.len();
    let mut j = n - p;
    proof {
        assert(t.subrange(0, (n - p) as int) =~= t);
    }
    while j > 0
        invariant
            0 <= j <= n - p,
            p <= n,
            n == cells.len(),
            cells.deep_view().len() == n,
            t == cells.deep_view().skip(p as int),
            trim_end_len(t) == trim_end_len(t.subrange(0, j as int)),
        decreases j,
    {
        proof {
            assert(t[j - 1] == cells.deep_view()[p + j - 1]);
        }
        if !crate::buffer::cell_is_ws(&cells[p + j - 1]) {
            proof {
                assert(t.subrange(0, j as int).last() == t[j - 1]);
                assert(trim_end_len(t.subrange(0, j as int)) == j);
            }
            return j;
        }
        proof {
            assert(t.subrange(0, j as int).last() == t[j - 1]);
            assert(t.subrange(0, j as int).drop_last() =~= t.subrange(0, j - 1));
        }
        j = j - 1;
    }
    proof {
        assert(t.subrange(0, 0) =~= Seq::<Seq<char>>::empty());
        assert(trim_end_len(t.subrange(0, 0)) == 0);
    }
    0
}

/// Whether the trimmed line is exactly an ordered marker for `delim`.
fn ordered_only_check(cells: &Vec<String>, p: usize, tel: usize, delim: char) -> (r: bool)
    requires
        p <= cells.len(),
        tel == trim_end_len(cells.deep_view().skip(p as int)),
        tel <= cells.len() - p,
    ensures
        ({
            let t = cells.deep_view().skip(p as int);
            let te = t.subrange(0, trim_end_len(t));
            r == ordered_only(t, te, delim)
        }),
{
    let ghost t = cells.deep_view().skip(p as int);
    let ghost te = t.subrange(0, tel as int);
    let n = cells.len();
    let mut j = tel;
    proof {
        assert(te.subrange(0, tel as int) =~= te);
    }
    while j > 0
        invariant
            0 <= j <= tel,
            tel <= n - p,
            p <= n,
            n == cells.len(),
            cells.deep_view().len() == n,
            t == cells.deep_view().skip(p as int),
            tel == trim_end_len(t),
            te == t.subrange(0, tel as int),
            last_cell_idx(te, delim) == last_cell_idx(te.subrange(0, j as int), delim),
        decreases j,
    {
        proof {
            assert(te[j - 1] == cells.deep_view()[p + j - 1]);
            assert(te.subrange(0, j as int).last() == te[j - 1]);
        }
        if cell_is(&cells, p + j - 1, delim) {
            let dp = j - 1;
            proof {
                assert(last_cell_idx(te.subrange(0, j as int), delim) == j - 1);
            }
            proof {
                assert(last_cell_idx(te, delim) == dp);
            }
            if dp == 0 {
                proof {
                    assert(!ordered_only(t, te, delim));
                }
                return false;
            }
            let numstr = crate::buffer::cells_join(cells, p, p + dp);
            proof {
                assert(te.subrange(0, dp as int) =~= cells.deep_view().subrange(
                    p as int,
                    p + dp,
                ));
                assert(flat(te.subrange(0, dp as int)) == numstr@);
            }
            let digits_ok = crate::text::str_all_digits(numstr.as_str());
            let tlen = n - p;
            proof {
                assert(t.len() == tlen);
            }
            let after_ok = if tlen == dp + 1 {
                true
            } else if tlen == dp + 2 {
                proof {
                    assert(t[dp + 1] == cells.deep_view()[p + dp + 1]);
                }
                cell_is(&cells, p + dp + 1, ' ')
            } else {
                false
            };
            proof {
                assert(after_ok == (t.len() == dp + 1 || (t.len() == dp + 2 && t[dp + 1]
                    == seq![' '])));
                assert((digits_ok && after_ok) == ordered_only(t, te, delim));
            }
            return digits_ok && after_ok;
        }
        proof {
            assert(te.subrange(0, j as int).drop_last() =~= te.subrange(0, j - 1));
        }
        j = j - 1;
    }
    proof {
        assert(te.subrange(0, 0) =~= Seq::<Seq<char>>::empty());
        assert(last_cell_idx(te.subrange(0, 0), delim) == -1);
    }
    false
}

} // verus!
