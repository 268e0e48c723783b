//! Visual selections: character, line and block kinds over a fixed anchor,
//! with block geometry reconciled in display columns.

use vstd::prelude::*;

use crate::buffer::{
    clampc, dcol, flat, g_at_dcol, g_end_dcol, gspan, mid_join, norm_pair, range_removed,
    range_text, TextBuffer,
};

verus! {

/// The inclusive display-column range of a block selection: each endpoint
/// contributes the full display span of the grapheme it sits on, so a wide
/// glyph at either end is never bisected.
pub open spec fn block_range(
    ls: Seq<Seq<Seq<char>>>,
    ar: int,
    ac: int,
    cr: int,
    cc: int,
) -> (int, int) {
    let a_start = dcol(ls[ar], clampc(ls[ar], ac));
    let a_end = a_start + gspan(ls[ar], ac) - 1;
    let c_start = dcol(ls[cr], clampc(ls[cr], cc));
    let c_end = c_start + gspan(ls[cr], cc) - 1;
    (
        if a_start < c_start {
            a_start
        } else {
            c_start
        },
        if a_end > c_end {
            a_end
        } else {
            c_end
        },
    )
}

/// The text a block selection covers: each row's covered cells, rows
/// joined with newlines.
pub open spec fn block_text(
    ls: Seq<Seq<Seq<char>>>,
    top: int,
    bottom: int,
    left: int,
    right: int,
) -> Seq<char>
    decreases bottom - top,
{
    let l = ls[top];
    let row_text = flat(l.subrange(g_at_dcol(l, left, 0), g_end_dcol(l, right, 0)));
    if top >= bottom {
        row_text
    } else {
        row_text + seq!['\n'] + block_text(ls, top + 1, bottom, left, right)
    }
}

/// One line with a block's covered cells removed.
pub open spec fn block_cut(l: Seq<Seq<char>>, left: int, right: int) -> Seq<Seq<char>> {
    l.subrange(0, g_at_dcol(l, left, 0)) + l.subrange(g_end_dcol(l, right, 0), l.len() as int)
}

/// A block's column bounds cover each endpoint's glyph in full: the left
/// bound sits at or before the column where either endpoint's glyph
/// begins, and the right bound at or after the column where it ends, so
/// neither glyph is ever bisected.
pub proof fn lemma_block_covers_endpoint_glyphs(
    ls: Seq<Seq<Seq<char>>>,
    ar: int,
    ac: int,
    cr: int,
    cc: int,
)
    ensures
        ({
            let lr = block_range(ls, ar, ac, cr, cc);
            let a_start = dcol(ls[ar], clampc(ls[ar], ac));
            let c_start = dcol(ls[cr], clampc(ls[cr], cc));
            &&& lr.0 <= a_start && lr.1 >= a_start + gspan(ls[ar], ac) - 1
            &&& lr.0 <= c_start && lr.1 >= c_start + gspan(ls[cr], cc) - 1
        }),
{
}

/// Covering one more row appends a newline and that row's covered text.
proof fn lemma_block_text_extend(ls: Seq<Seq<Seq<char>>>, top: int, row: int, left: int, right: int)
    requires
        top < row,
    ensures
        block_text(ls, top, row, left, right) =~= block_text(ls, top, row - 1, left, right)
            + seq!['\n'] + flat(
            ls[row].subrange(g_at_dcol(ls[row], left, 0), g_end_dcol(ls[row], right, 0)),
        ),
    decreases row - top,
{
    let rt = |j: int| flat(ls[j].subrange(g_at_dcol(ls[j], left, 0), g_end_dcol(ls[j], right, 0)));
    if top + 1 < row {
        lemma_block_text_extend(ls, top + 1, row, left, right);
        assert(block_text(ls, top, row, left, right) == rt(top) + seq!['\n'] + block_text(
            ls,
            top + 1,
            row,
            left,
            right,
        ));
        assert(block_text(ls, top, row - 1, left, right) == rt(top) + seq!['\n'] + block_text(
            ls,
            top + 1,
            row - 1,
            left,
            right,
        ));
        assert(rt(top) + seq!['\n'] + (block_text(ls, top + 1, row - 1, left, right) + seq!['\n']
            + rt(row)) =~= (rt(top) + seq!['\n'] + block_text(ls, top + 1, row - 1, left, right))
            + seq!['\n'] + rt(row));
    } else {
        assert(block_text(ls, top, row, left, right) == rt(top) + seq!['\n'] + block_text(
            ls,
            row,
            row,
            left,
            right,
        ));
        assert(block_text(ls, row, row, left, right) == rt(row));
        assert(block_text(ls, top, row - 1, left, right) == rt(top));
    }
}

/// The kind of visual selection.
#[derive(Debug, Clone, Copy, PartialEq, Eq, Structural)]
pub enum VisualType {
    Character,
    Line,
    Block,
}

/// An in-progress selection: its kind and the anchor where it began; the
/// live cursor supplies the other endpoint on every operation.
#[derive(Debug, Clone)]
pub struct VisualMode {
    visual_type: VisualType,
    anchor_row: usize,
    anchor_col: usize,
}

/// Selection geometry for display.
#[derive(Debug, Clone)]
pub enum RenderSelection {
    CharacterRange { start_row: usize, start_col: usize, end_row: usize, end_col: usize },
    LineRange { start_row: usize, end_row: usize },
    BlockRegion { top_row: usize, bottom_row: usize, left_col: usize, right_col: usize },
}

impl VisualMode {
    pub closed spec fn kind(&self) -> VisualType {
        self.visual_type
    }

    pub closed spec fn arow(&self) -> int {
        self.anchor_row as int
    }

    pub closed spec fn acol(&self) -> int {
        self.anchor_col as int
    }

    pub fn new(visual_type: VisualType, anchor: (usize, usize)) -> (r: Self)
        ensures
            r.kind() == visual_type,
            r.arow() == anchor.0 && r.acol() == anchor.1,
    {
        VisualMode { visual_type, anchor_row: anchor.0, anchor_col: anchor.1 }
    }

    pub fn set_type(&mut self, new_type: VisualType)
        ensures
            final(self).kind() == new_type,
            final(self).arow() == old(self).arow(),
            final(self).acol() == old(self).acol(),
    {
        self.visual_type = new_type;
    }

    pub fn anchor(&self) -> (r: (usize, usize))
        ensures
            r.0 == self.arow() && r.1 == self.acol(),
    {
        (self.anchor_row, self.anchor_col)
    }

    /// The inclusive display-column bounds of the block between anchor and
    /// cursor.
    fn block_display_range(&self, buffer: &TextBuffer, cursor: (usize, usize)) -> (r: (
        usize,
        usize,
    ))
        requires
            buffer.wf(),
            self.arow() < buffer.glines().len(),
            cursor.0 < buffer.glines().len(),
            3 * flat(buffer.glines()[self.arow()]).len() + 1 <= usize::MAX,
            3 * flat(buffer.glines()[cursor.0 as int]).len() + 1 <= usize::MAX,
        ensures
            (r.0 as int, r.1 as int) == block_range(
                buffer.glines(),
                self.arow(),
                self.acol(),
                cursor.0 as int,
                cursor.1 as int,
            ),
            r.0 <= r.1,
    {
        let (anchor_start, anchor_width) = buffer.display_span_at(self.anchor_row, self.anchor_col);
        let anchor_end = anchor_start + anchor_width - 1;
        let (cursor_start, cursor_width) = buffer.display_span_at(cursor.0, cursor.1);
        let cursor_end = cursor_start + cursor_width - 1;
        let left = if anchor_start < cursor_start {
            anchor_start
        } else {
            cursor_start
        };
        let right = if anchor_end > cursor_end {
            anchor_end
        } else {
            cursor_end
        };
        (left, right)
    }

    /// The selection geometry for display: a normalised grapheme pair for
    /// character selections, a row pair for line selections, and for block
    /// selections the display-column rectangle spanning both endpoints'
    /// full glyph widths.
    pub fn render_data(&self, buffer: &TextBuffer, cursor: (usize, usize)) -> (r: RenderSelection)
        requires
            buffer.wf(),
            self.arow() < buffer.glines().len(),
            cursor.0 < buffer.glines().len(),
            3 * flat(buffer.glines()[self.arow()]).len() + 1 <= usize::MAX,
            3 * flat(buffer.glines()[cursor.0 as int]).len() + 1 <= usize::MAX,
        ensures
            self.kind() == VisualType::Character ==> ({
                let se = norm_pair(
                    (self.arow(), self.acol()),
                    (cursor.0 as int, cursor.1 as int),
                );
                r matches RenderSelection::CharacterRange { start_row, start_col, end_row, end_col }
                    && (start_row as int, start_col as int) == se.0 && (
                end_row as int,
                end_col as int,
                ) == se.1
            }),
            self.kind() == VisualType::Line ==> (r matches RenderSelection::LineRange {
                start_row,
                end_row,
            } && start_row == if self.arow() < cursor.0 {
                self.arow()
            } else {
                cursor.0 as int
            } && end_row == if self.arow() > cursor.0 {
                self.arow()
            } else {
                cursor.0 as int
            }),
            self.kind() == VisualType::Block ==> ({
                let lr = block_range(
                    buffer.glines(),
                    self.arow(),
                    self.acol(),
                    cursor.0 as int,
                    cursor.1 as int,
                );
                r matches RenderSelection::BlockRegion { top_row, bottom_row, left_col, right_col }
                    && top_row == if self.arow() < cursor.0 {
                    self.arow()
                } else {
                    cursor.0 as int
                } && bottom_row == if self.arow() > cursor.0 {
                    self.arow()
                } else {
                    cursor.0 as int
                } && (left_col as int, right_col as int) == lr
            }),
    {
        match self.visual_type {
            VisualType::Character => {
                let a = (self.anchor_row, self.anchor_col);
                let forward = a.0 < cursor.0 || (a.0 == cursor.0 && a.1 <= cursor.1);
                let (s, e) = if forward {
                    (a, cursor)
                } else {
                    (cursor, a)
                };
                RenderSelection::CharacterRange {
                    start_row: s.0,
                    start_col: s.1,
                    end_row: e.0,
                    end_col: e.1,
                }
            },
            VisualType::Line => {
                let start_row = if self.anchor_row < cursor.0 {
                    self.anchor_row
                } else {
                    cursor.0
                };
                let end_row = if self.anchor_row > cursor.0 {
                    self.anchor_row
                } else {
                    cursor.0
                };
                RenderSelection::LineRange { start_row, end_row }
            },
            VisualType::Block => {
                let top_row = if self.anchor_row < cursor.0 {
                    self.anchor_row
                } else {
                    cursor.0
                };
                let bottom_row = if self.anchor_row > cursor.0 {
                    self.anchor_row
                } else {
                    cursor.0
                };
                let (left_col, right_col) = self.block_display_range(buffer, cursor);
                RenderSelection::BlockRegion { top_row, bottom_row, left_col, right_col }
            },
        }
    }

    /// Removes the selected text and hands it back: grapheme ranges for
    /// character selections, whole lines (with newlines) for line
    /// selections, and for block selections each covered row's cells, a
    /// glyph partly overlapping the right edge included in full.
    pub fn delete_selection(&self, buffer: &mut TextBuffer, cursor: (usize, usize)) -> (r: String)
        requires
            old(buffer).wf(),
            self.arow() < old(buffer).glines().len(),
            cursor.0 < old(buffer).glines().len(),
            self.acol() < usize::MAX,
            cursor.1 < usize::MAX,
            self.kind() == VisualType::Block ==> 3 * flat(
                old(buffer).glines()[self.arow()],
            ).len() + 1 <= usize::MAX && 3 * flat(old(buffer).glines()[cursor.0 as int]).len() + 1
                <= usize::MAX,
        ensures
            final(buffer).wf(),
            final(buffer).same_history(old(buffer)),
            self.kind() == VisualType::Character ==> ({
                let se = norm_pair(
                    (self.arow(), self.acol()),
                    (cursor.0 as int, cursor.1 as int),
                );
                &&& r@ == range_text(old(buffer).glines(), se.0.0, se.0.1, se.1.0, se.1.1 + 1)
                &&& final(buffer).glines() =~= range_removed(
                    old(buffer).glines(),
                    se.0.0,
                    se.0.1,
                    se.1.0,
                    se.1.1 + 1,
                )
            }),
            self.kind() == VisualType::Line ==> ({
                let s: int = if self.arow() < cursor.0 {
                    self.arow()
                } else {
                    cursor.0 as int
                };
                let e: int = if self.arow() > cursor.0 {
                    self.arow()
                } else {
                    cursor.0 as int
                };
                &&& r@ == mid_join(old(buffer).glines(), s, e + 1)
                &&& (s == 0 && e == old(buffer).glines().len() - 1 ==> final(buffer).glines() =~=
                    seq![Seq::<Seq<char>>::empty()])
                &&& (!(s == 0 && e == old(buffer).glines().len() - 1) ==> final(buffer).glines()
                    =~= old(buffer).glines().subrange(0, s) + old(buffer).glines().subrange(
                    e + 1,
                    old(buffer).glines().len() as int,
                ))
            }),
            self.kind() == VisualType::Block ==> ({
                let gl = old(buffer).glines();
                let top: int = if self.arow() < cursor.0 {
                    self.arow()
                } else {
                    cursor.0 as int
                };
                let bottom: int = if self.arow() > cursor.0 {
                    self.arow()
                } else {
                    cursor.0 as int
                };
                let lr = block_range(gl, self.arow(), self.acol(), cursor.0 as int, cursor.1 as int);
                &&& r@ == block_text(gl, top, bottom, lr.0, lr.1)
                &&& final(buffer).glines().len() == gl.len()
                &&& forall|j: int|
                    0 <= j < gl.len() ==> #[trigger] final(buffer).glines()[j] == if (top <= j
                        <= bottom) {
                        block_cut(gl[j], lr.0, lr.1)
                    } else {
                        gl[j]
                    }
                &&& final(buffer).row() == top
                &&& final(buffer).col() == g_at_dcol(final(buffer).glines()[top], lr.0, 0)
            }),
    {
        match self.visual_type {
            VisualType::Character => {
                let a = (self.anchor_row, self.anchor_col);
                let forward = a.0 < cursor.0 || (a.0 == cursor.0 && a.1 <= cursor.1);
                let (s, e) = if forward {
                    (a, cursor)
                } else {
                    (cursor, a)
                };
                buffer.delete_range(s.0, s.1, e.0, e.1 + 1)
            },
            VisualType::Line => {
                let start_row = if self.anchor_row < cursor.0 {
                    self.anchor_row
                } else {
                    cursor.0
                };
                let end_row = if self.anchor_row > cursor.0 {
                    self.anchor_row
                } else {
                    cursor.0
                };
                let ghost gl = buffer.glines();
                let ghost n = gl.len();
                let nrows = buffer.line_count();
                let mut deleted = String::new();
                let mut i: usize = 0;
                let cnt = end_row - start_row;
                while i <= cnt
                    invariant
                        old(buffer).wf(),
                        buffer.wf(),
                        gl == old(buffer).glines(),
                        n == gl.len(),
                        nrows == n,
                        end_row < nrows,
                        start_row <= end_row < n,
                        cnt == end_row - start_row,
                        i <= cnt + 1,
                        buffer.same_history(old(buffer)),
                        deleted@ =~= mid_join(gl, start_row as int, start_row + i),
                        i <= cnt ==> buffer.glines() =~= gl.subrange(0, start_row as int)
                            + gl.subrange(start_row + i, n as int),
                        i == cnt + 1 ==> ((start_row == 0 && end_row == n - 1 ==> buffer.glines()
                            =~= seq![Seq::<Seq<char>>::empty()]) && (!(start_row == 0 && end_row
                            == n - 1) ==> buffer.glines() =~= gl.subrange(0, start_row as int)
                            + gl.subrange(end_row + 1, n as int))),
                    decreases cnt + 1 - i,
                {
                    proof {
                        assert(buffer.glines().len() == n - i);
                        assert(buffer.glines()[start_row as int] == gl[start_row + i]);
                    }
                    buffer.set_cursor(start_row, 0);
                    let piece = buffer.delete_line_and_return();
                    deleted.append(piece.as_str());
                    proof {
                        crate::buffer::lemma_mid_join_extend(
                            gl,
                            start_row as int,
                            start_row + i,
                        );
                        if buffer.glines().len() == 1 && n - i == 1 {
                        } else {
                            assert(buffer.glines() =~= gl.subrange(0, start_row as int)
                                + gl.subrange(start_row + i + 1, n as int));
                        }
                    }
                    i = i + 1;
                }
                deleted
            },
            VisualType::Block => {
                let top_row = if self.anchor_row < cursor.0 {
                    self.anchor_row
                } else {
                    cursor.0
                };
                let bottom_row = if self.anchor_row > cursor.0 {
                    self.anchor_row
                } else {
                    cursor.0
                };
                let (left, right) = self.block_display_range(buffer, cursor);
                let ghost gl = buffer.glines();
                let ghost n = gl.len();
                let nrows = buffer.line_count();
                let mut deleted = String::new();
                let mut row = top_row;
                while row <= bottom_row
                    invariant
                        old(buffer).wf(),
                        buffer.wf(),
                        gl == old(buffer).glines(),
                        n == gl.len(),
                        nrows == n,
                        bottom_row < nrows,
                        top_row <= bottom_row < n,
                        top_row <= row <= bottom_row + 1,
                        left <= right,
                        buffer.same_history(old(buffer)),
                        buffer.glines().len() == n,
                        forall|j: int|
                            0 <= j < n ==> #[trigger] buffer.glines()[j] == if (top_row <= j
                                < row) {
                                block_cut(gl[j], left as int, right as int)
                            } else {
                                gl[j]
                            },
                        row == top_row ==> deleted@ =~= Seq::<char>::empty(),
                        row > top_row ==> deleted@ =~= block_text(
                            gl,
                            top_row as int,
                            row - 1,
                            left as int,
                            right as int,
                        ),
                    decreases bottom_row + 1 - row,
                {
                    if row > top_row {
                        deleted.append("\n");
                        proof {
                            reveal_strlit("\n");
                        }
                    }
                    proof {
                        assert(buffer.glines()[row as int] == gl[row as int]);
                    }
                    let (gs, ge) = buffer.grapheme_range_for_display_cols(row, left, right);
                    let ghost pre = buffer.glines();
                    let piece = buffer.delete_range(row, gs, row, ge);
                    deleted.append(piece.as_str());
                    proof {
                        let lrow = gl[row as int];
                        assert(piece@ == flat(lrow.subrange(gs as int, ge as int)));
                        assert(buffer.glines() =~= pre.update(
                            row as int,
                            block_cut(lrow, left as int, right as int),
                        ));
                        if row > top_row {
                            lemma_block_text_extend(
                                gl,
                                top_row as int,
                                row as int,
                                left as int,
                                right as int,
                            );
                        }
                    }
                    row = row + 1;
                }
                let cursor_col = buffer.grapheme_at_display_col(top_row, left);
                buffer.set_cursor(top_row, cursor_col);
                deleted
            },
        }
    }

    /// Copies the selected text without changing the buffer, in the same
    /// shapes `delete_selection` removes.
    pub fn yank_selection(&self, buffer: &TextBuffer, cursor: (usize, usize)) -> (r: String)
        requires
            buffer.wf(),
            self.arow() < buffer.glines().len(),
            cursor.0 < buffer.glines().len(),
            self.acol() < usize::MAX,
            cursor.1 < usize::MAX,
            self.kind() == VisualType::Block ==> 3 * flat(buffer.glines()[self.arow()]).len() + 1
                <= usize::MAX && 3 * flat(buffer.glines()[cursor.0 as int]).len() + 1
                <= usize::MAX,
        ensures
            self.kind() == VisualType::Character ==> ({
                let se = norm_pair(
                    (self.arow(), self.acol()),
                    (cursor.0 as int, cursor.1 as int),
                );
                r@ == range_text(buffer.glines(), se.0.0, se.0.1, se.1.0, se.1.1 + 1)
            }),
            self.kind() == VisualType::Line ==> ({
                let s: int = if self.arow() < cursor.0 {
                    self.arow()
                } else {
                    cursor.0 as int
                };
                let e: int = if self.arow() > cursor.0 {
                    self.arow()
                } else {
                    cursor.0 as int
                };
                r@ == mid_join(buffer.glines(), s, e + 1)
            }),
            self.kind() == VisualType::Block ==> ({
                let gl = buffer.glines();
                let top: int = if self.arow() < cursor.0 {
                    self.arow()
                } else {
                    cursor.0 as int
                };
                let bottom: int = if self.arow() > cursor.0 {
                    self.arow()
                } else {
                    cursor.0 as int
                };
                let lr = block_range(gl, self.arow(), self.acol(), cursor.0 as int, cursor.1 as int);
                r@ == block_text(gl, top, bottom, lr.0, lr.1)
            }),
    {
        match self.visual_type {
            VisualType::Character => {
                let a = (self.anchor_row, self.anchor_col);
                let forward = a.0 < cursor.0 || (a.0 == cursor.0 && a.1 <= cursor.1);
                let (s, e) = if forward {
                    (a, cursor)
                } else {
                    (cursor, a)
                };
                buffer.extract_range(s.0, s.1, e.0, e.1 + 1)
            },
            VisualType::Line => {
                let start_row = if self.anchor_row < cursor.0 {
                    self.anchor_row
                } else {
                    cursor.0
                };
                let end_row = if self.anchor_row > cursor.0 {
                    self.anchor_row
                } else {
                    cursor.0
                };
                let ghost gl = buffer.glines();
                let nrows = buffer.line_count();
                let mut yanked = String::new();
                let mut row = start_row;
                while row <= end_row
                    invariant
                        buffer.wf(),
                        gl == buffer.glines(),
                        nrows == gl.len(),
                        end_row < nrows,
                        start_row <= end_row < gl.len(),
                        start_row <= row <= end_row + 1,
                        yanked@ =~= mid_join(gl, start_row as int, row as int),
                    decreases end_row + 1 - row,
                {
                    let line = buffer.line_text(row);
                    yanked.append(line.as_str());
                    yanked.append("
");
                    proof {
                        reveal_strlit("
");
                        crate::buffer::lemma_mid_join_extend(gl, start_row as int, row as int);
                    }
                    row = row + 1;
                }
                yanked
            },
            VisualType::Block => {
                let top_row = if self.anchor_row < cursor.0 {
                    self.anchor_row
                } else {
                    cursor.0
                };
                let bottom_row = if self.anchor_row > cursor.0 {
                    self.anchor_row
                } else {
                    cursor.0
                };
                let (left, right) = self.block_display_range(buffer, cursor);
                let ghost gl = buffer.glines();
                let nrows = buffer.line_count();
                let mut yanked = String::new();
                let mut row = top_row;
                while row <= bottom_row
                    invariant
                        buffer.wf(),
                        gl == buffer.glines(),
                        nrows == gl.len(),
                        bottom_row < nrows,
                        top_row <= bottom_row < gl.len(),
                        top_row <= row <= bottom_row + 1,
                        left <= right,
                        row == top_row ==> yanked@ =~= Seq::<char>::empty(),
                        row > top_row ==> yanked@ =~= block_text(
                            gl,
                            top_row as int,
                            row - 1,
                            left as int,
                            right as int,
                        ),
                    decreases bottom_row + 1 - row,
                {
                    if row > top_row {
                        yanked.append("
");
                        proof {
                            reveal_strlit("
");
                        }
                    }
                    let (gs, ge) = buffer.grapheme_range_for_display_cols(row, left, right);
                    let piece = buffer.extract_range(row, gs, row, ge);
                    yanked.append(piece.as_str());
                    proof {
                        assert(piece@ == flat(gl[row as int].subrange(gs as int, ge as int)));
                        if row > top_row {
                            lemma_block_text_extend(
                                gl,
                                top_row as int,
                                row as int,
                                left as int,
                                right as int,
                            );
                        }
                    }
                    row = row + 1;
                }
                yanked
            },
        }
    }

    /// Indents every line the selection's rows touch, whatever its kind.
    pub fn indent_selection(&self, buffer: &mut TextBuffer, cursor: (usize, usize), tab_width: u8)
        requires
            old(buffer).wf(),
        ensures
            final(buffer).wf(),
            final(buffer).same_history(old(buffer)),
            final(buffer).glines().len() == old(buffer).glines().len(),
            ({
                let s: int = if self.arow() < cursor.0 {
                    self.arow()
                } else {
                    cursor.0 as int
                };
                let e: int = if self.arow() > cursor.0 {
                    self.arow()
                } else {
                    cursor.0 as int
                };
                forall|r: int|
                    0 <= r < old(buffer).glines().len() ==> #[trigger] final(buffer).glines()[r]
                        == if (s <= r <= e) {
                        crate::buffer::indented(old(buffer).glines()[r], tab_width as int)
                    } else {
                        old(buffer).glines()[r]
                    }
            }),
    {
        let start_row = if self.anchor_row < cursor.0 {
            self.anchor_row
        } else {
            cursor.0
        };
        let end_row = if self.anchor_row > cursor.0 {
            self.anchor_row
        } else {
            cursor.0
        };
        buffer.indent_lines(start_row, end_row, tab_width);
    }

    /// Dedents every line the selection's rows touch, whatever its kind.
    pub fn dedent_selection(&self, buffer: &mut TextBuffer, cursor: (usize, usize), tab_width: u8)
        requires
            old(buffer).wf(),
        ensures
            final(buffer).wf(),
            final(buffer).same_history(old(buffer)),
            final(buffer).glines().len() == old(buffer).glines().len(),
            ({
                let s: int = if self.arow() < cursor.0 {
                    self.arow()
                } else {
                    cursor.0 as int
                };
                let e: int = if self.arow() > cursor.0 {
                    self.arow()
                } else {
                    cursor.0 as int
                };
                forall|r: int|
                    0 <= r < old(buffer).glines().len() ==> #[trigger] final(buffer).glines()[r]
                        == if (s <= r <= e) {
                        crate::buffer::dedented(old(buffer).glines()[r], tab_width as int)
                    } else {
                        old(buffer).glines()[r]
                    }
            }),
    {
        let start_row = if self.anchor_row < cursor.0 {
            self.anchor_row
        } else {
            cursor.0
        };
        let end_row = if self.anchor_row > cursor.0 {
            self.anchor_row
        } else {
            cursor.0
        };
        buffer.dedent_lines(start_row, end_row, tab_width);
    }

    /// Toggles HTML comments over the selection's rows, whatever its kind.
    pub fn toggle_comment(&self, buffer: &mut TextBuffer, cursor: (usize, usize))
        requires
            old(buffer).wf(),
        ensures
            final(buffer).wf(),
            final(buffer).same_history(old(buffer)),
            final(buffer).glines().len() == old(buffer).glines().len(),
            ({
                let gl = old(buffer).glines();
                let s: int = if self.arow() < cursor.0 {
                    self.arow()
                } else {
                    cursor.0 as int
                };
                let e: int = if self.arow() > cursor.0 {
                    self.arow()
                } else {
                    cursor.0 as int
                };
                let stop: int = if e < gl.len() {
                    e
                } else {
                    gl.len() - 1
                };
                let to_comment = exists|r: int|
                    s <= r <= stop && !crate::comment::blank(#[trigger] gl[r])
                        && !crate::comment::commented(gl[r]);
                forall|r: int|
                    0 <= r < gl.len() ==> #[trigger] final(buffer).glines()[r] == if (s <= r
                        <= stop) {
                        if to_comment {
                            crate::comment::comment_cells(gl[r])
                        } else {
                            match crate::comment::uncomment_cells(gl[r]) {
                                Some(u) => u,
                                None => gl[r],
                            }
                        }
                    } else {
                        gl[r]
                    }
            }),
    {
        let start_row = if self.anchor_row < cursor.0 {
            self.anchor_row
        } else {
            cursor.0
        };
        let end_row = if self.anchor_row > cursor.0 {
            self.anchor_row
        } else {
            cursor.0
        };
        buffer.toggle_comment_lines(start_row, end_row);
    }

    /// One insertion point per covered row for block-mode insert: each
    /// row's grapheme index at the block's left edge. Other kinds get none.
    pub fn prepare_insert_start(&mut self, buffer: &mut TextBuffer, cursor: (usize, usize)) -> (r:
        Vec<(usize, usize)>)
        requires
            old(buffer).wf(),
            old(self).arow() < old(buffer).glines().len(),
            cursor.0 < old(buffer).glines().len(),
            3 * flat(old(buffer).glines()[old(self).arow()]).len() + 1 <= usize::MAX,
            3 * flat(old(buffer).glines()[cursor.0 as int]).len() + 1 <= usize::MAX,
        ensures
            *final(buffer) == *old(buffer),
            *final(self) == *old(self),
            old(self).kind() != VisualType::Block ==> r@.len() == 0,
            old(self).kind() == VisualType::Block ==> ({
                let gl = old(buffer).glines();
                let top: int = if old(self).arow() < cursor.0 {
                    old(self).arow()
                } else {
                    cursor.0 as int
                };
                let bottom: int = if old(self).arow() > cursor.0 {
                    old(self).arow()
                } else {
                    cursor.0 as int
                };
                let lr = block_range(gl, old(self).arow(), old(self).acol(), cursor.0 as int, cursor.1 as int);
                &&& r@.len() == bottom - top + 1
                &&& forall|k: int|
                    0 <= k < r@.len() ==> ((#[trigger] r@[k]).0 as int, r@[k].1 as int) == (
                    top + k,
                    g_at_dcol(gl[top + k], lr.0, 0),
                    )
            }),
    {
        match self.visual_type {
            VisualType::Block => {},
            _ => {
                let empty: Vec<(usize, usize)> = Vec::new();
                return empty;
            },
        }
        let top_row = if self.anchor_row < cursor.0 {
            self.anchor_row
        } else {
            cursor.0
        };
        let bottom_row = if self.anchor_row > cursor.0 {
            self.anchor_row
        } else {
            cursor.0
        };
        let (left, _right) = self.block_display_range(buffer, cursor);
        let ghost gl = buffer.glines();
        let nrows = buffer.line_count();
        let mut positions: Vec<(usize, usize)> = Vec::new();
        let mut row = top_row;
        while row <= bottom_row
            invariant
                buffer.wf(),
                gl == buffer.glines(),
                nrows == gl.len(),
                bottom_row < nrows,
                top_row <= bottom_row < gl.len(),
                top_row <= row <= bottom_row + 1,
                positions@.len() == row - top_row,
                forall|k: int|
                    0 <= k < positions@.len() ==> ((#[trigger] positions@[k]).0 as int,
                    positions@[k].1 as int) == (top_row + k, g_at_dcol(gl[top_row + k], left as int, 0)),
            decreases bottom_row + 1 - row,
        {
            let col = buffer.grapheme_at_display_col(row, left);
            let ghost prev = positions@;
            positions.push((row, col));
            proof {
                assert(positions@ =~= prev.push((row, col)));
            }
            row = row + 1;
        }
        positions
    }

    /// One insertion point per covered row for block-mode append: just past
    /// the block's right edge, clamped to each row's length. Other kinds
    /// get none.
    pub fn prepare_insert_end(&mut self, buffer: &mut TextBuffer, cursor: (usize, usize)) -> (r:
        Vec<(usize, usize)>)
        requires
            old(buffer).wf(),
            old(self).arow() < old(buffer).glines().len(),
            cursor.0 < old(buffer).glines().len(),
            3 * flat(old(buffer).glines()[old(self).arow()]).len() + 1 <= usize::MAX,
            3 * flat(old(buffer).glines()[cursor.0 as int]).len() + 1 <= usize::MAX,
        ensures
            *final(buffer) == *old(buffer),
            *final(self) == *old(self),
            old(self).kind() != VisualType::Block ==> r@.len() == 0,
            old(self).kind() == VisualType::Block ==> ({
                let gl = old(buffer).glines();
                let top: int = if old(self).arow() < cursor.0 {
                    old(self).arow()
                } else {
                    cursor.0 as int
                };
                let bottom: int = if old(self).arow() > cursor.0 {
                    old(self).arow()
                } else {
                    cursor.0 as int
                };
                let lr = block_range(gl, old(self).arow(), old(self).acol(), cursor.0 as int, cursor.1 as int);
                &&& r@.len() == bottom - top + 1
                &&& forall|k: int|
                    0 <= k < r@.len() ==> ((#[trigger] r@[k]).0 as int, r@[k].1 as int) == (
                    top + k,
                    g_end_dcol(gl[top + k], lr.1, 0),
                    )
            }),
    {
        match self.visual_type {
            VisualType::Block => {},
            _ => {
                let empty: Vec<(usize, usize)> = Vec::new();
                return empty;
            },
        }
        let top_row = if self.anchor_row < cursor.0 {
            self.anchor_row
        } else {
            cursor.0
        };
        let bottom_row = if self.anchor_row > cursor.0 {
            self.anchor_row
        } else {
            cursor.0
        };
        let (_left, right) = self.block_display_range(buffer, cursor);
        let ghost gl = buffer.glines();
        let nrows = buffer.line_count();
        let mut positions: Vec<(usize, usize)> = Vec::new();
        let mut row = top_row;
        while row <= bottom_row
            invariant
                buffer.wf(),
                gl == buffer.glines(),
                nrows == gl.len(),
                bottom_row < nrows,
                top_row <= bottom_row < gl.len(),
                top_row <= row <= bottom_row + 1,
                positions@.len() == row - top_row,
                forall|k: int|
                    0 <= k < positions@.len() ==> ((#[trigger] positions@[k]).0 as int,
                    positions@[k].1 as int) == (top_row + k, g_end_dcol(gl[top_row + k], right as int, 0)),
            decreases bottom_row + 1 - row,
        {
            let (_gs, ge) = buffer.grapheme_range_for_display_cols(row, right, right);
            let line_len = buffer.line_len(row);
            let insert_col = if ge < line_len {
                ge
            } else if line_len < ge {
                line_len
            } else {
                ge
            };
            proof {
                assert(insert_col == ge);
            }
            let ghost prev = positions@;
            positions.push((row, insert_col));
            proof {
                assert(positions@ =~= prev.push((row, insert_col)));
            }
            row = row + 1;
        }
        positions
    }
}

} // verus!
