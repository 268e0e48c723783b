//! HTML comment markers on whole lines: detecting, wrapping and unwrapping
//! `<!-- ... -->`, preserving indentation.

use vstd::prelude::*;

use crate::buffer::{flat, scan_from};
use crate::list_prefix::{cells_are, cells_have_at, trim_end_len, ws_prefix};
use crate::text::all_ws;
use crate::unicode::{gcluster, join_cells, split_graphemes};

verus! {

/// The line's cells with whitespace cells trimmed from both ends.
pub open spec fn trimmed_full(l: Seq<Seq<char>>) -> Seq<Seq<char>> {
    let p = scan_from(l, 0, true);
    let q = trim_end_len(l);
    if p <= q {
        l.subrange(p, q)
    } else {
        Seq::<Seq<char>>::empty()
    }
}

/// Whether a line, once trimmed, is wrapped in `<!--` and `-->`.
pub open spec fn commented(l: Seq<Seq<char>>) -> bool {
    let t = trimmed_full(l);
    &&& t.len() >= 4
    &&& cells_are(t, 0, seq!['<', '!', '-', '-'])
    &&& cells_are(t, t.len() - 3, seq!['-', '-', '>'])
}

/// The line wrapped in comment markers after its indentation; blank lines
/// stay as they are.
pub open spec fn comment_cells(l: Seq<Seq<char>>) -> Seq<Seq<char>> {
    let p = scan_from(l, 0, true);
    if p >= l.len() {
        l
    } else {
        l.subrange(0, p) + crate::text::chars_to_cells(seq!['<', '!', '-', '-', ' ']) + l.skip(p)
            + crate::text::chars_to_cells(seq![' ', '-', '-', '>'])
    }
}

/// The line without its comment markers, keeping the indentation and
/// trimming at most one interior space on each side; `None` when the line
/// (ignoring indentation, keeping its tail) is not a comment.
pub open spec fn uncomment_cells(l: Seq<Seq<char>>) -> Option<Seq<Seq<char>>> {
    let p = scan_from(l, 0, true);
    let t = l.skip(p);
    if t.len() >= 7 && cells_are(t, 0, seq!['<', '!', '-', '-']) && cells_are(
        t,
        t.len() - 3,
        seq!['-', '-', '>'],
    ) {
        let inner = t.subrange(4, t.len() - 3);
        let inner2 = if inner.len() > 0 && inner[0] == seq![' '] {
            inner.drop_first()
        } else {
            inner
        };
        let inner3 = if inner2.len() > 0 && inner2.last() == seq![' '] {
            inner2.drop_last()
        } else {
            inner2
        };
        Some(l.subrange(0, p) + inner3)
    } else {
        None
    }
}

/// Whether a line is blank: nothing but whitespace.
pub open spec fn blank(l: Seq<Seq<char>>) -> bool {
    forall|i: int| 0 <= i < l.len() ==> all_ws(#[trigger] l[i])
}

/// Whether a line, after trimming, is an HTML comment.
pub fn is_commented(line: &str) -> (r: bool)
    ensures
        r == commented(gcluster(line@)),
{
    let cells = split_graphemes(line);
    is_commented_cells(&cells)
}

/// The cell-level commented check.
pub(crate) fn is_commented_cells(cells: &Vec<String>) -> (r: bool)
    ensures
        r == commented(cells.deep_view()),
{
    let ghost l = cells.deep_view();
    let p = ws_prefix(cells);
    let q = trim_end(cells);
    proof {
        lemma_trim_bounds(l);
        crate::list_prefix::lemma_cells_are_shift(l, p as int);
        reveal_strlit("<!--");
        reveal_strlit("-->");
    }
    if p > q || q - p < 4 {
        proof {
            assert(!commented(l));
        }
        return false;
    }
    let ghost t = trimmed_full(l);
    proof {
        assert(t =~= l.subrange(p as int, q as int));
        assert(t =~= l.skip(p as int).subrange(0, q - p));
    }
    let head = cells_have_at(cells, p, "<!--");
    let tail = cells_have_at(cells, q - 3, "-->");
    proof {
        assert("<!--"@ =~= seq!['<', '!', '-', '-']);
        assert("-->"@ =~= seq!['-', '-', '>']);
        assert(forall|k: int| 0 <= k < t.len() ==> #[trigger] t[k] == l[p + k]);
        assert(cells_are(t, 0, "<!--"@) == cells_are(l, p as int, "<!--"@)) by {
            if cells_are(t, 0, "<!--"@) {
                assert forall|k: int| 0 <= k < "<!--"@.len() implies #[trigger] l[p + k] == seq![
                    "<!--"@[k],
                ] by {
                    assert(t[0 + k] == seq!["<!--"@[k]]);
                    assert(t[k] == l[p + k]);
                }
            }
            if cells_are(l, p as int, "<!--"@) {
                assert forall|k: int| 0 <= k < "<!--"@.len() implies #[trigger] t[0 + k] == seq![
                    "<!--"@[k],
                ] by {
                    assert(l[p + k] == seq!["<!--"@[k]]);
                    assert(t[k] == l[p + k]);
                }
            }
        }
        assert(cells_are(t, t.len() - 3, "-->"@) == cells_are(l, q - 3, "-->"@)) by {
            if cells_are(t, t.len() - 3, "-->"@) {
                assert forall|k: int| 0 <= k < "-->"@.len() implies #[trigger] l[q - 3 + k]
                    == seq!["-->"@[k]] by {
                    assert(t[t.len() - 3 + k] == seq!["-->"@[k]]);
                    assert(t[t.len() - 3 + k] == l[p + (t.len() - 3 + k)]);
                }
            }
            if cells_are(l, q - 3, "-->"@) {
                assert forall|k: int| 0 <= k < "-->"@.len() implies #[trigger] t[t.len() - 3 + k]
                    == seq!["-->"@[k]] by {
                    assert(l[q - 3 + k] == seq!["-->"@[k]]);
                    assert(t[t.len() - 3 + k] == l[p + (t.len() - 3 + k)]);
                }
            }
        }
    }
    head && tail
}

/// Wraps a line in `<!-- -->` after its indentation; blank lines stay.
pub fn comment_line(line: &str) -> (r: String)
    ensures
        r@ == flat(comment_cells(gcluster(line@))),
{
    let cells = split_graphemes(line);
    let out = comment_line_cells(&cells);
    join_cells(&out)
}

/// The cell-level comment wrap.
pub(crate) fn comment_line_cells(cells: &Vec<String>) -> (out: Vec<String>)
    ensures
        out.deep_view() == comment_cells(cells.deep_view()),
{
    let ghost l = cells.deep_view();
    let p = ws_prefix(cells);
    let n = cells.len();
    if p >= n {
        let out = crate::buffer::clone_cells(cells);
        proof {
            assert(out.deep_view() =~= comment_cells(l));
        }
        return out;
    }
    let mut out: Vec<String> = Vec::new();
    crate::buffer::push_cells(&mut out, cells, 0, p);
    out.push(crate::text::char_to_string('<'));
    out.push(crate::text::char_to_string('!'));
    out.push(crate::text::char_to_string('-'));
    out.push(crate::text::char_to_string('-'));
    out.push(crate::text::char_to_string(' '));
    proof {
        assert(out.deep_view() =~= l.subrange(0, p as int) + crate::text::chars_to_cells(
            seq!['<', '!', '-', '-', ' '],
        ));
    }
    crate::buffer::push_cells(&mut out, cells, p, n);
    proof {
        assert(l.subrange(p as int, n as int) =~= l.skip(p as int));
        assert(out.deep_view() =~= l.subrange(0, p as int) + crate::text::chars_to_cells(
            seq!['<', '!', '-', '-', ' '],
        ) + l.skip(p as int));
    }
    out.push(crate::text::char_to_string(' '));
    out.push(crate::text::char_to_string('-'));
    out.push(crate::text::char_to_string('-'));
    out.push(crate::text::char_to_string('>'));
    proof {
        assert(out.deep_view() =~= comment_cells(l));
    }
    out
}

/// Unwraps a commented line, or `None` when it is not one.
pub fn uncomment_line(line: &str) -> (r: Option<String>)
    ensures
        r is Some <==> uncomment_cells(gcluster(line@)) is Some,
        r is Some ==> (r->0)@ == flat(uncomment_cells(gcluster(line@))->0),
{
    let cells = split_graphemes(line);
    match uncomment_line_cells(&cells) {
        Some(out) => Some(join_cells(&out)),
        None => None,
    }
}

/// The cell-level comment unwrap.
pub(crate) fn uncomment_line_cells(cells: &Vec<String>) -> (r: Option<Vec<String>>)
    ensures
        r is Some <==> uncomment_cells(cells.deep_view()) is Some,
        r is Some ==> (r->0).deep_view() == uncomment_cells(cells.deep_view())->0,
{
    let ghost l = cells.deep_view();
    let p = ws_prefix(cells);
    let n = cells.len();
    let ghost t = l.skip(p as int);
    proof {
        crate::list_prefix::lemma_cells_are_shift(l, p as int);
        reveal_strlit("<!--");
        reveal_strlit("-->");
        assert("<!--"@ =~= seq!['<', '!', '-', '-']);
        assert("-->"@ =~= seq!['-', '-', '>']);
    }
    if n - p < 7 {
        return None;
    }
    let head = cells_have_at(cells, p, "<!--");
    let tail = cells_have_at(cells, n - 3, "-->");
    proof {
        assert(cells_are(l, n - 3, "-->"@) == cells_are(t, t.len() - 3, "-->"@)) by {
            if cells_are(l, n - 3, "-->"@) {
                assert(forall|k: int|
                    0 <= k < 3 ==> #[trigger] t[t.len() - 3 + k] == l[n - 3 + k]);
            }
            if cells_are(t, t.len() - 3, "-->"@) {
                assert(forall|k: int| 0 <= k < 3 ==> #[trigger] l[n - 3 + k] == t[t.len() - 3 + k]);
            }
        }
    }
    if !(head && tail) {
        return None;
    }
    let mut inner_start = p + 4;
    let mut inner_end = n - 3;
    if inner_start < inner_end && crate::list_prefix::cell_is(cells, inner_start, ' ') {
        inner_start = inner_start + 1;
    }
    if inner_start < inner_end && crate::list_prefix::cell_is(cells, inner_end - 1, ' ') {
        inner_end = inner_end - 1;
    }
    let mut out: Vec<String> = Vec::new();
    crate::buffer::push_cells(&mut out, cells, 0, p);
    crate::buffer::push_cells(&mut out, cells, inner_start, inner_end);
    proof {
        let inner = t.subrange(4, t.len() - 3);
        let inner2 = if inner.len() > 0 && inner[0] == seq![' '] {
            inner.drop_first()
        } else {
            inner
        };
        let inner3 = if inner2.len() > 0 && inner2.last() == seq![' '] {
            inner2.drop_last()
        } else {
            inner2
        };
        assert(inner =~= l.subrange(p + 4, n - 3));
        assert(inner3 =~= l.subrange(inner_start as int, inner_end as int));
        assert(out.deep_view() =~= l.subrange(0, p as int) + inner3);
    }
    Some(out)
}

/// Comments an uncommented line and uncomments a commented one; a comment
/// that cannot be unwrapped stays as it is.
pub fn toggle_comment_line(line: &str) -> (r: String)
    ensures
        ({
            let l = gcluster(line@);
            if commented(l) {
                match uncomment_cells(l) {
                    Some(u) => r@ == flat(u),
                    None => r@ == flat(l),
                }
            } else {
                r@ == flat(comment_cells(l))
            }
        }),
{
    let cells = split_graphemes(line);
    if is_commented_cells(&cells) {
        match uncomment_line_cells(&cells) {
            Some(out) => join_cells(&out),
            None => join_cells(&cells),
        }
    } else {
        let out = comment_line_cells(&cells);
        join_cells(&out)
    }
}

/// Whether a line range should be commented: true when any non-blank line
/// in it is not yet commented.
pub fn should_comment(lines: &Vec<String>) -> (r: bool)
    ensures
        r == exists|i: int|
            0 <= i < lines@.len() && !blank(gcluster(#[trigger] lines@[i]@)) && !commented(
                gcluster(lines@[i]@),
            ),
{
    let mut i: usize = 0;
    while i < lines.len()
        invariant
            i <= lines@.len(),
            forall|j: int|
                0 <= j < i ==> blank(gcluster(#[trigger] lines@[j]@)) || commented(
                    gcluster(lines@[j]@),
                ),
        decreases lines@.len() - i,
    {
        let cells = split_graphemes(lines[i].as_str());
        let is_blank = line_blank(&cells);
        if !is_blank {
            if !is_commented_cells(&cells) {
                return true;
            }
        }
        i = i + 1;
    }
    false
}

/// Whether every cell of the line is whitespace.
pub(crate) fn line_blank(cells: &Vec<String>) -> (r: bool)
    ensures
        r == blank(cells.deep_view()),
{
    let mut i: usize = 0;
    while i < cells.len()
        invariant
            i <= cells.len(),
            cells.deep_view().len() == cells.len(),
            forall|j: int| 0 <= j < i ==> all_ws(#[trigger] cells.deep_view()[j]),
        decreases cells.len() - i,
    {
        proof {
            assert(cells.deep_view()[i as int] == cells@[i as int]@);
        }
        if !crate::buffer::cell_is_ws(&cells[i]) {
            return false;
        }
        i = i + 1;
    }
    true
}

/// The length of the line once trailing whitespace cells are dropped.
fn trim_end(cells: &Vec<String>) -> (r: usize)
    ensures
        r == trim_end_len(cells.deep_view()),
        r <= cells.len(),
{
    proof {
        assert(cells.deep_view().skip(0) =~= cells.deep_view());
    }
    crate::list_prefix::trim_end_cells(cells, 0)
}

/// Trimming never crosses itself: the whitespace prefix stays at or before
/// the trimmed end whenever anything non-blank remains.
proof fn lemma_trim_bounds(l: Seq<Seq<char>>)
    ensures
        trim_end_len(l) <= l.len(),
        scan_from(l, 0, true) <= l.len(),
    decreases l.len(),
{
    lemma_trim_end_le(l);
    lemma_scan_le(l, 0);
}

proof fn lemma_trim_end_le(l: Seq<Seq<char>>)
    ensures
        0 <= trim_end_len(l) <= l.len(),
    decreases l.len(),
{
    if l.len() > 0 && all_ws(l.last()) {
        lemma_trim_end_le(l.drop_last());
    }
}

proof fn lemma_scan_le(l: Seq<Seq<char>>, i: int)
    requires
        0 <= i <= l.len(),
    ensures
        i <= scan_from(l, i, true) <= l.len(),
    decreases l.len() - i,
{
    if i < l.len() && all_ws(l[i]) {
        lemma_scan_le(l, i + 1);
    }
}

} // verus!
