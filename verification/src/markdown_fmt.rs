//! Inline markdown markers and code-block fences: finding the pair that
//! encloses a cursor, and toggling markers on a cursor position, a visual
//! selection, or a block of lines.

use vstd::prelude::*;

use crate::buffer::flat;
use crate::list_prefix::cells_are;
use crate::text::{chars_to_cells, is_ws_char};
use crate::unicode::{gcluster, join_cells, split_graphemes};

verus! {

/// An inline or block markdown marker.
#[derive(Debug, Clone, Copy, PartialEq, Eq, Structural)]
pub enum MarkdownFormat {
    Bold,
    Italic,
    Strikethrough,
    InlineCode,
    CodeBlock,
}

/// The characters of a format's marker.
pub open spec fn mchars(f: MarkdownFormat) -> Seq<char> {
    match f {
        MarkdownFormat::Bold => seq!['*', '*'],
        MarkdownFormat::Italic => seq!['*'],
        MarkdownFormat::Strikethrough => seq!['~', '~'],
        MarkdownFormat::InlineCode => seq!['`'],
        MarkdownFormat::CodeBlock => seq!['`', '`', '`'],
    }
}

impl MarkdownFormat {
    /// The delimiter text for this format.
    pub fn marker(&self) -> (r: &'static str)
        ensures
            r@ == mchars(*self),
    {
        let r = match self {
            MarkdownFormat::Bold => "**",
            MarkdownFormat::Italic => "*",
            MarkdownFormat::Strikethrough => "~~",
            MarkdownFormat::InlineCode => "`",
            MarkdownFormat::CodeBlock => "```",
        };
        proof {
            reveal_strlit("**");
            reveal_strlit("*");
            reveal_strlit("~~");
            reveal_strlit("`");
            reveal_strlit("```");
            assert("**"@ =~= seq!['*', '*']);
            assert("*"@ =~= seq!['*']);
            assert("~~"@ =~= seq!['~', '~']);
            assert("`"@ =~= seq!['`']);
            assert("```"@ =~= seq!['`', '`', '`']);
        }
        r
    }
}

/// Every marker is one to three characters long.
pub proof fn lemma_mchars_len(f: MarkdownFormat)
    ensures
        1 <= mchars(f).len() <= 3,
{
    match f {
        MarkdownFormat::Bold => assert(mchars(f) =~= seq!['*', '*']),
        MarkdownFormat::Italic => assert(mchars(f) =~= seq!['*']),
        MarkdownFormat::Strikethrough => assert(mchars(f) =~= seq!['~', '~']),
        MarkdownFormat::InlineCode => assert(mchars(f) =~= seq!['`']),
        MarkdownFormat::CodeBlock => assert(mchars(f) =~= seq!['`', '`', '`']),
    }
}

/// Whether a star cell sits immediately before or after the marker at `i`;
/// such a lone star belongs to a bold marker, not an italic one.
pub open spec fn star_adjacent(l: Seq<Seq<char>>, i: int, mlen: int) -> bool {
    (i > 0 && l[i - 1] == seq!['*']) || (i + mlen < l.len() && l[i + mlen] == seq!['*'])
}

/// The cell indices of the marker's occurrences, scanning left to right
/// without overlap; for italics, occurrences adjacent to another star are
/// passed over.
pub open spec fn marker_positions(l: Seq<Seq<char>>, m: Seq<char>, italic: bool, i: int) -> Seq<
    int,
>
    decreases l.len() + 1 - i,
{
    if i < 0 || m.len() <= 0 || i + m.len() > l.len() {
        Seq::<int>::empty()
    } else if cells_are(l, i, m) {
        if italic && star_adjacent(l, i, m.len() as int) {
            marker_positions(l, m, italic, i + m.len())
        } else {
            seq![i] + marker_positions(l, m, italic, i + m.len())
        }
    } else {
        marker_positions(l, m, italic, i + 1)
    }
}

/// Consecutive positions pair up: the pair `(ps[j], ps[j+1])` whose span
/// holds the cursor, if any.
pub open spec fn pair_from(ps: Seq<int>, ceff: int, mlen: int, j: int) -> Option<(int, int)>
    decreases ps.len() + 2 - j,
{
    if j < 0 || j + 1 >= ps.len() {
        None
    } else if ps[j] <= ceff < ps[j + 1] + mlen {
        Some((ps[j], ps[j + 1] + mlen))
    } else {
        pair_from(ps, ceff, mlen, j + 2)
    }
}

/// The cell bounds of the marker pair enclosing the cursor: the opening
/// marker's start and one past the closing marker's end.
pub open spec fn enclosing_pair(l: Seq<Seq<char>>, cursor: int, f: MarkdownFormat) -> Option<
    (int, int),
> {
    let m = mchars(f);
    let ceff: int = if cursor < l.len() {
        cursor
    } else {
        l.len() as int
    };
    if l.len() == 0 {
        None
    } else {
        pair_from(marker_positions(l, m, f == MarkdownFormat::Italic, 0), ceff, m.len() as int, 0)
    }
}

/// Marker positions come in order, whole and inside the line.
pub proof fn lemma_positions_sound(l: Seq<Seq<char>>, m: Seq<char>, italic: bool, i: int)
    requires
        m.len() > 0,
        i >= 0,
    ensures
        forall|k: int|
            0 <= k < marker_positions(l, m, italic, i).len() ==> i <= #[trigger] marker_positions(
                l,
                m,
                italic,
                i,
            )[k] && marker_positions(l, m, italic, i)[k] + m.len() <= l.len(),
        forall|k: int|
            0 <= k < marker_positions(l, m, italic, i).len() - 1 ==> #[trigger] marker_positions(
                l,
                m,
                italic,
                i,
            )[k] + m.len() <= marker_positions(l, m, italic, i)[k + 1],
    decreases l.len() + 1 - i,
{
    if i < 0 || m.len() <= 0 || i + m.len() > l.len() {
    } else if cells_are(l, i, m) {
        lemma_positions_sound(l, m, italic, i + m.len());
        let rest = marker_positions(l, m, italic, i + m.len());
        let whole = marker_positions(l, m, italic, i);
        if italic && star_adjacent(l, i, m.len() as int) {
            assert(whole == rest);
            assert forall|k: int|
                0 <= k < whole.len() implies i <= #[trigger] whole[k] && whole[k] + m.len()
                <= l.len() by {
                assert(rest[k] >= i + m.len());
            }
        } else {
            assert(whole == seq![i] + rest);
            assert forall|k: int|
                0 <= k < whole.len() implies i <= #[trigger] whole[k] && whole[k] + m.len()
                <= l.len() by {
                if k == 0 {
                    assert(whole[0] == i);
                } else {
                    assert(whole[k] == rest[k - 1]);
                    assert(rest[k - 1] >= i + m.len());
                }
            }
            assert forall|k: int|
                0 <= k < whole.len() - 1 implies #[trigger] whole[k] + m.len() <= whole[k + 1] by {
                if k == 0 {
                    assert(whole[0] == i);
                    assert(whole[1] == rest[0]);
                    assert(rest[0] >= i + m.len());
                } else {
                    assert(whole[k] == rest[k - 1]);
                    assert(whole[k + 1] == rest[k]);
                    assert(rest[k - 1] + m.len() <= rest[k]);
                }
            }
        }
    } else {
        lemma_positions_sound(l, m, italic, i + 1);
        let rest = marker_positions(l, m, italic, i + 1);
        let whole = marker_positions(l, m, italic, i);
        assert(whole == rest);
        assert forall|k: int|
            0 <= k < whole.len() implies i <= #[trigger] whole[k] && whole[k] + m.len()
            <= l.len() by {
            assert(rest[k] >= i + 1);
        }
    }
}

/// An enclosing pair is well-formed: ordered, marker-sized apart, inside
/// the line, and around (or at) the cursor.
pub proof fn lemma_pair_sound(l: Seq<Seq<char>>, cursor: int, f: MarkdownFormat)
    requires
        enclosing_pair(l, cursor, f) is Some,
    ensures
        ({
            let (o, ce) = enclosing_pair(l, cursor, f)->0;
            let mlen = mchars(f).len() as int;
            0 <= o && o + mlen <= ce - mlen && ce <= l.len()
        }),
{
    let m = mchars(f);
    let ps = marker_positions(l, m, f == MarkdownFormat::Italic, 0);
    lemma_positions_sound(l, m, f == MarkdownFormat::Italic, 0);
    let ceff: int = if cursor < l.len() {
        cursor
    } else {
        l.len() as int
    };
    lemma_pair_from_sound(ps, ceff, m.len() as int, 0, l.len() as int, m.len() as int);
}

proof fn lemma_pair_from_sound(ps: Seq<int>, ceff: int, mlen: int, j: int, llen: int, m: int)
    requires
        j >= 0,
        mlen == m,
        m > 0,
        forall|k: int| 0 <= k < ps.len() ==> 0 <= #[trigger] ps[k] && ps[k] + m <= llen,
        forall|k: int| 0 <= k < ps.len() - 1 ==> #[trigger] ps[k] + m <= ps[k + 1],
        pair_from(ps, ceff, mlen, j) is Some,
    ensures
        ({
            let (o, ce) = pair_from(ps, ceff, mlen, j)->0;
            0 <= o && o + m <= ce - m && ce <= llen
        }),
    decreases ps.len() + 2 - j,
{
    if j + 1 >= ps.len() {
    } else if ps[j] <= ceff < ps[j + 1] + mlen {
        assert(ps[j] + m <= ps[j + 1]);
    } else {
        lemma_pair_from_sound(ps, ceff, mlen, j + 2, llen, m);
    }
}

/// The cell bounds of the marker pair around `cursor_col`, if one exists:
/// the opening marker's first grapheme and one past the closing marker's
/// last.
pub fn find_enclosing_pair(line: &str, cursor_col: usize, format: MarkdownFormat) -> (r: Option<
    (usize, usize),
>)
    ensures
        r is Some <==> enclosing_pair(gcluster(line@), cursor_col as int, format) is Some,
        r is Some ==> ((r->0).0 as int, (r->0).1 as int) == enclosing_pair(
            gcluster(line@),
            cursor_col as int,
            format,
        )->0,
{
    let cells = split_graphemes(line);
    find_enclosing_pair_cells(&cells, cursor_col, format)
}

/// The cell-level pair search.
pub(crate) fn find_enclosing_pair_cells(
    cells: &Vec<String>,
    cursor_col: usize,
    format: MarkdownFormat,
) -> (r: Option<(usize, usize)>)
    ensures
        r is Some <==> enclosing_pair(cells.deep_view(), cursor_col as int, format) is Some,
        r is Some ==> ((r->0).0 as int, (r->0).1 as int) == enclosing_pair(
            cells.deep_view(),
            cursor_col as int,
            format,
        )->0,
{
    let ghost l = cells.deep_view();
    let marker = format.marker();
    let mlen = marker.unicode_len();
    let italic = match format {
        MarkdownFormat::Italic => true,
        _ => false,
    };
    let ghost m = mchars(format);
    proof {
        assert(m.len() >= 1) by {
            match format {
                MarkdownFormat::Bold => assert(m =~= seq!['*', '*']),
                MarkdownFormat::Italic => assert(m =~= seq!['*']),
                MarkdownFormat::Strikethrough => assert(m =~= seq!['~', '~']),
                MarkdownFormat::InlineCode => assert(m =~= seq!['`']),
                MarkdownFormat::CodeBlock => assert(m =~= seq!['`', '`', '`']),
            }
        }
    }
    let n = cells.len();
    if n == 0 {
        return None;
    }
    let ceff = if cursor_col < n {
        cursor_col
    } else {
        n
    };
    // collect the marker positions
    let mut positions: Vec<usize> = Vec::new();
    let mut i: usize = 0;
    let ghost pos_model = |v: Seq<usize>| v.map_values(|p: usize| p as int);
    proof {
        assert(pos_model(positions@) + marker_positions(l, m, italic, 0) =~= marker_positions(
            l,
            m,
            italic,
            0,
        ));
    }
    while i < n
        invariant
            i <= n,
            n == cells.len(),
            l == cells.deep_view(),
            l.len() == n,
            m == mchars(format),
            marker@ == m,
            mlen == m.len(),
            mlen >= 1,
            italic == (format == MarkdownFormat::Italic),
            pos_model == (|v: Seq<usize>| v.map_values(|p: usize| p as int)),
            marker_positions(l, m, italic, 0) =~= pos_model(positions@) + marker_positions(
                l,
                m,
                italic,
                i as int,
            ),
            forall|k: int| 0 <= k < positions@.len() ==> (#[trigger] positions@[k]) < n,
        decreases n - i,
    {
        if mlen > n - i {
            proof {
                assert(marker_positions(l, m, italic, i as int) =~= Seq::<int>::empty());
                assert(marker_positions(l, m, italic, n as int) =~= Seq::<int>::empty());
            }
            i = n;
        } else {
            let here = crate::list_prefix::cells_have_at(cells, i, marker);
            if here {
                let skip_this = if italic {
                    let before = i > 0 && crate::list_prefix::cell_is(cells, i - 1, '*');
                    let after = i + mlen < n && crate::list_prefix::cell_is(cells, i + mlen, '*');
                    proof {
                        assert((i as int) + m.len() == i + mlen);
                    }
                    before || after
                } else {
                    false
                };
                proof {
                    if italic {
                        assert(skip_this == star_adjacent(l, i as int, m.len() as int));
                    }
                }
                if skip_this {
                    proof {
                        assert(marker_positions(l, m, italic, i as int) == marker_positions(
                            l,
                            m,
                            italic,
                            i + m.len(),
                        ));
                    }
                } else {
                    let ghost prev = positions@;
                    positions.push(i);
                    proof {
                        assert(positions@ =~= prev.push(i));
                        assert(pos_model(positions@) =~= pos_model(prev).push(i as int));
                        assert(marker_positions(l, m, italic, i as int) == seq![i as int]
                            + marker_positions(l, m, italic, i + m.len()));
                        assert(pos_model(prev).push(i as int) + marker_positions(
                            l,
                            m,
                            italic,
                            i + m.len(),
                        ) =~= pos_model(prev) + marker_positions(l, m, italic, i as int));
                    }
                }
                i = i + mlen;
            } else {
                proof {
                    assert(marker_positions(l, m, italic, i as int) == marker_positions(
                        l,
                        m,
                        italic,
                        i + 1,
                    ));
                }
                i = i + 1;
            }
        }
    }
    proof {
        assert(marker_positions(l, m, italic, n as int) =~= Seq::<int>::empty());
        assert(marker_positions(l, m, italic, 0) =~= pos_model(positions@));
    }
    // walk the pairs
    let ghost ps = marker_positions(l, m, italic, 0);
    proof {
        lemma_positions_sound(l, m, italic, 0);
        assert forall|k: int|
            0 <= k < positions@.len() implies (#[trigger] positions@[k]) + mlen <= n by {
            assert(ps[k] == positions@[k] as int);
        }
    }
    let total = positions.len();
    let mut j: usize = 0;
    while j + 1 < total
        invariant
            total == positions@.len(),
            ps == marker_positions(l, m, italic, 0),
            ps =~= pos_model(positions@),
            pos_model == (|v: Seq<usize>| v.map_values(|p: usize| p as int)),
            mlen == m.len(),
            m == mchars(format),
            mlen >= 1,
            italic == (format == MarkdownFormat::Italic),
            l == cells.deep_view(),
            l.len() == n,
            n == cells.len(),
            ceff == if cursor_col < n {
                cursor_col as int
            } else {
                n as int
            },
            j % 2 == 0,
            forall|k: int| 0 <= k < positions@.len() ==> (#[trigger] positions@[k]) < n,
            forall|k: int| 0 <= k < positions@.len() ==> (#[trigger] positions@[k]) + mlen <= n,
            pair_from(ps, ceff as int, mlen as int, 0) == pair_from(
                ps,
                ceff as int,
                mlen as int,
                j as int,
            ),
        decreases total - j,
    {
        let open_pos = positions[j];
        let close_pos = positions[j + 1];
        proof {
            assert(ps[j as int] == open_pos as int);
            assert(ps[j + 1] == close_pos as int);
        }
        if open_pos <= ceff && ceff < close_pos + mlen {
            proof {
                assert(pair_from(ps, ceff as int, mlen as int, j as int) == Some(
                    (open_pos as int, close_pos + mlen as int),
                ));
            }
            return Some((open_pos, close_pos + mlen));
        }
        proof {
            assert(pair_from(ps, ceff as int, mlen as int, j as int) == pair_from(
                ps,
                ceff as int,
                mlen as int,
                j + 2,
            ));
        }
        j = j + 2;
    }
    proof {
        assert(pair_from(ps, ceff as int, mlen as int, j as int) is None);
    }
    None
}

/// What toggling an inline marker at the cursor produces: markers removed
/// when a pair encloses the cursor, an empty pair inserted at the cursor
/// otherwise; and where the cursor lands.
pub open spec fn inline_toggled(l: Seq<Seq<char>>, cursor: int, f: MarkdownFormat) -> (
    Seq<Seq<char>>,
    int,
) {
    let m = mchars(f);
    let mlen = m.len() as int;
    match enclosing_pair(l, cursor, f) {
        Some(pair) => {
            let o = pair.0;
            let ce = pair.1;
            (
                l.subrange(0, o) + l.subrange(o + mlen, ce - mlen) + l.subrange(
                    ce,
                    l.len() as int,
                ),
                if cursor >= o + mlen {
                    cursor - mlen
                } else {
                    o
                },
            )
        },
        None => {
            let pos: int = if cursor < l.len() {
                cursor
            } else {
                l.len() as int
            };
            (
                l.subrange(0, pos) + chars_to_cells(m) + chars_to_cells(m) + l.subrange(
                    pos,
                    l.len() as int,
                ),
                pos + mlen,
            )
        },
    }
}

/// Appends one cell per marker character.
fn push_marker_cells(out: &mut Vec<String>, marker: &str)
    ensures
        final(out).deep_view() == old(out).deep_view() + chars_to_cells(marker@),
{
    let n = marker.unicode_len();
    let mut k: usize = 0;
    proof {
        assert(out.deep_view() =~= old(out).deep_view() + chars_to_cells(marker@.subrange(0, 0)));
    }
    while k < n
        invariant
            k <= n,
            n == marker@.len(),
            out.deep_view() =~= old(out).deep_view() + chars_to_cells(
                marker@.subrange(0, k as int),
            ),
        decreases n - k,
    {
        let ghost prev = out.deep_view();
        out.push(crate::text::char_to_string(marker.get_char(k)));
        proof {
            assert(out.deep_view() =~= prev.push(seq![marker@[k as int]]));
            assert(chars_to_cells(marker@.subrange(0, k + 1)) =~= chars_to_cells(
                marker@.subrange(0, k as int),
            ).push(seq![marker@[k as int]]));
            assert(out.deep_view() =~= old(out).deep_view() + chars_to_cells(
                marker@.subrange(0, k + 1),
            ));
        }
        k = k + 1;
    }
    proof {
        assert(marker@.subrange(0, n as int) =~= marker@);
    }
}

/// Toggles the inline marker at the cursor on one line: removes the pair
/// enclosing the cursor, or inserts an empty pair there; hands back the
/// new line and cursor column.
pub fn toggle_inline_format(line: &str, cursor_col: usize, format: MarkdownFormat) -> (r: (
    String,
    usize,
))
    requires
        line@.len() + 6 < usize::MAX,
        cursor_col < usize::MAX - 6,
    ensures
        ({
            let t = inline_toggled(gcluster(line@), cursor_col as int, format);
            r.0@ == flat(t.0) && r.1 == t.1
        }),
{
    let cells = split_graphemes(line);
    let ghost l = cells.deep_view();
    let marker = format.marker();
    let mlen = marker.unicode_len();
    let n = cells.len();
    proof {
        crate::unicode::lemma_cluster_count_le_chars(l);
    }
    match find_enclosing_pair_cells(&cells, cursor_col, format) {
        Some(pair) => {
            let (o, ce) = pair;
            proof {
                lemma_pair_sound(l, cursor_col as int, format);
            }
            let mut out: Vec<String> = Vec::new();
            crate::buffer::push_cells(&mut out, &cells, 0, o);
            crate::buffer::push_cells(&mut out, &cells, o + mlen, ce - mlen);
            crate::buffer::push_cells(&mut out, &cells, ce, n);
            let new_col = if cursor_col >= o + mlen {
                cursor_col - mlen
            } else {
                o
            };
            let text = join_cells(&out);
            proof {
                assert(out.deep_view() =~= inline_toggled(l, cursor_col as int, format).0);
            }
            (text, new_col)
        },
        None => {
            let pos = if cursor_col < n {
                cursor_col
            } else {
                n
            };
            let mut out: Vec<String> = Vec::new();
            crate::buffer::push_cells(&mut out, &cells, 0, pos);
            push_marker_cells(&mut out, marker);
            push_marker_cells(&mut out, marker);
            crate::buffer::push_cells(&mut out, &cells, pos, n);
            let text = join_cells(&out);
            proof {
                assert(out.deep_view() =~= inline_toggled(l, cursor_col as int, format).0);
            }
            (text, pos + mlen)
        },
    }
}

/// What toggling an inline marker over a selection produces: the selection
/// unwrapped when it already carries the markers at both ends, wrapped in
/// them otherwise; with the new selection bounds.
pub open spec fn visual_toggled(l: Seq<Seq<char>>, s: int, e: int, f: MarkdownFormat) -> (
    Seq<Seq<char>>,
    int,
    int,
) {
    let m = mchars(f);
    let mlen = m.len() as int;
    let se: int = if e < l.len() {
        e
    } else {
        l.len() as int
    };
    let ss: int = if s < se {
        s
    } else {
        se
    };
    let sel = l.subrange(ss, se);
    if sel.len() >= 2 * mlen && cells_are(sel, 0, m) && cells_are(sel, sel.len() - mlen, m) {
        (
            l.subrange(0, ss) + l.subrange(ss + mlen, se - mlen) + l.subrange(se, l.len() as int),
            ss,
            se - 2 * mlen,
        )
    } else {
        (
            l.subrange(0, ss) + chars_to_cells(m) + sel + chars_to_cells(m) + l.subrange(
                se,
                l.len() as int,
            ),
            ss,
            se + 2 * mlen,
        )
    }
}

/// A selection carries the marker at both ends exactly when the line does
/// at the selection's bounds.
pub proof fn lemma_sel_wrap_equiv(l: Seq<Seq<char>>, ss: int, se: int, m: Seq<char>)
    requires
        0 <= ss <= se <= l.len(),
        m.len() >= 1,
    ensures
        ({
            let sel = l.subrange(ss, se);
            (se - ss >= 2 * m.len() && cells_are(l, ss, m) && cells_are(l, se - m.len(), m)) == (
            sel.len() >= 2 * m.len() && cells_are(sel, 0, m) && cells_are(
                sel,
                sel.len() - m.len(),
                m,
            ))
        }),
{
    let sel = l.subrange(ss, se);
    let mlen = m.len() as int;
    assert(forall|k: int| 0 <= k < sel.len() ==> #[trigger] sel[k] == l[ss + k]);
    if sel.len() >= 2 * mlen {
        if cells_are(sel, 0, m) {
            assert forall|k: int| 0 <= k < m.len() implies #[trigger] l[ss + k] == seq![m[k]] by {
                assert(sel[0 + k] == seq![m[k]]);
            }
        }
        if cells_are(l, ss, m) {
            assert forall|k: int| 0 <= k < m.len() implies #[trigger] sel[0 + k] == seq![m[k]] by {
                assert(l[ss + k] == seq![m[k]]);
            }
        }
        if cells_are(sel, sel.len() - mlen, m) {
            assert forall|k: int| 0 <= k < m.len() implies #[trigger] l[se - mlen + k] == seq![
                m[k],
            ] by {
                assert(sel[sel.len() - mlen + k] == seq![m[k]]);
                assert(sel[sel.len() - mlen + k] == l[ss + (sel.len() - mlen + k)]);
            }
        }
        if cells_are(l, se - mlen, m) {
            assert forall|k: int| 0 <= k < m.len() implies #[trigger] sel[sel.len() - mlen + k]
                == seq![m[k]] by {
                assert(l[se - mlen + k] == seq![m[k]]);
                assert(sel[sel.len() - mlen + k] == l[ss + (sel.len() - mlen + k)]);
            }
        }
    }
}

/// Toggles the marker around an explicit selection on one line: unwraps a
/// selection already wrapped in it, wraps it otherwise; hands back the new
/// line and selection bounds.
pub fn toggle_inline_format_visual(
    line: &str,
    sel_start: usize,
    sel_end: usize,
    format: MarkdownFormat,
) -> (r: (String, usize, usize))
    requires
        line@.len() + 6 < usize::MAX,
    ensures
        ({
            let t = visual_toggled(gcluster(line@), sel_start as int, sel_end as int, format);
            r.0@ == flat(t.0) && r.1 == t.1 && r.2 == t.2
        }),
{
    let cells = split_graphemes(line);
    let ghost l = cells.deep_view();
    let marker = format.marker();
    let mlen = marker.unicode_len();
    let n = cells.len();
    proof {
        crate::unicode::lemma_cluster_count_le_chars(l);
        assert(mchars(format).len() >= 1) by {
            match format {
                MarkdownFormat::Bold => assert(mchars(format) =~= seq!['*', '*']),
                MarkdownFormat::Italic => assert(mchars(format) =~= seq!['*']),
                MarkdownFormat::Strikethrough => assert(mchars(format) =~= seq!['~', '~']),
                MarkdownFormat::InlineCode => assert(mchars(format) =~= seq!['`']),
                MarkdownFormat::CodeBlock => assert(mchars(format) =~= seq!['`', '`', '`']),
            }
        }
        assert(mchars(format).len() <= 3) by {
            match format {
                MarkdownFormat::Bold => assert(mchars(format) =~= seq!['*', '*']),
                MarkdownFormat::Italic => assert(mchars(format) =~= seq!['*']),
                MarkdownFormat::Strikethrough => assert(mchars(format) =~= seq!['~', '~']),
                MarkdownFormat::InlineCode => assert(mchars(format) =~= seq!['`']),
                MarkdownFormat::CodeBlock => assert(mchars(format) =~= seq!['`', '`', '`']),
            }
        }
    }
    let se = if sel_end < n {
        sel_end
    } else {
        n
    };
    let ss = if sel_start < se {
        sel_start
    } else {
        se
    };
    let ghost sel = l.subrange(ss as int, se as int);
    let wrapped = se - ss >= 2 * mlen && crate::list_prefix::cells_have_at(&cells, ss, marker)
        && crate::list_prefix::cells_have_at(&cells, se - mlen, marker);
    proof {
        assert(forall|k: int| 0 <= k < sel.len() ==> #[trigger] sel[k] == l[ss + k]);
        assert((se - ss >= 2 * mlen && cells_are(l, ss as int, marker@) && cells_are(
            l,
            se - mlen,
            marker@,
        )) == (sel.len() >= 2 * mchars(format).len() && cells_are(sel, 0, mchars(format))
            && cells_are(sel, sel.len() - mchars(format).len(), mchars(format)))) by {
            if cells_are(sel, 0, marker@) {
                assert forall|k: int| 0 <= k < marker@.len() implies #[trigger] l[ss + k] == seq![
                    marker@[k],
                ] by {
                    assert(sel[0 + k] == seq![marker@[k]]);
                }
            }
            if se - ss >= 2 * mlen && cells_are(l, ss as int, marker@) {
                assert forall|k: int| 0 <= k < marker@.len() implies #[trigger] sel[0 + k] == seq![
                    marker@[k],
                ] by {
                    assert(l[ss + k] == seq![marker@[k]]);
                }
            }
            if se - ss >= 2 * mlen && cells_are(sel, sel.len() - mlen, marker@) {
                assert forall|k: int| 0 <= k < marker@.len() implies #[trigger] l[se - mlen + k]
                    == seq![marker@[k]] by {
                    assert(sel[sel.len() - mlen + k] == seq![marker@[k]]);
                    assert(sel[sel.len() - mlen + k] == l[ss + (sel.len() - mlen + k)]);
                }
            }
            if se - ss >= 2 * mlen && cells_are(l, se - mlen, marker@) {
                assert forall|k: int| 0 <= k < marker@.len() implies #[trigger] sel[sel.len() - mlen
                    + k] == seq![marker@[k]] by {
                    assert(l[se - mlen + k] == seq![marker@[k]]);
                    assert(sel[sel.len() - mlen + k] == l[ss + (sel.len() - mlen + k)]);
                }
            }
        }
    }
    if wrapped {
        let mut out: Vec<String> = Vec::new();
        crate::buffer::push_cells(&mut out, &cells, 0, ss);
        crate::buffer::push_cells(&mut out, &cells, ss + mlen, se - mlen);
        crate::buffer::push_cells(&mut out, &cells, se, n);
        let text = join_cells(&out);
        proof {
            assert(out.deep_view() =~= visual_toggled(
                l,
                sel_start as int,
                sel_end as int,
                format,
            ).0);
        }
        (text, ss, se - 2 * mlen)
    } else {
        let mut out: Vec<String> = Vec::new();
        crate::buffer::push_cells(&mut out, &cells, 0, ss);
        push_marker_cells(&mut out, marker);
        crate::buffer::push_cells(&mut out, &cells, ss, se);
        push_marker_cells(&mut out, marker);
        crate::buffer::push_cells(&mut out, &cells, se, n);
        let text = join_cells(&out);
        proof {
            assert(out.deep_view() =~= visual_toggled(
                l,
                sel_start as int,
                sel_end as int,
                format,
            ).0);
        }
        (text, ss, se + 2 * mlen)
    }
}

/// The first non-whitespace character index at or after `i`.
pub open spec fn char_scan_ws(s: Seq<char>, i: int) -> int
    decreases s.len() - i,
{
    if i < 0 || i >= s.len() {
        s.len() as int
    } else if is_ws_char(s[i]) {
        char_scan_ws(s, i + 1)
    } else {
        i
    }
}

/// The length of the text once trailing whitespace characters are dropped.
pub open spec fn char_trim_end(s: Seq<char>) -> int
    decreases s.len(),
{
    if s.len() > 0 && is_ws_char(s.last()) {
        char_trim_end(s.drop_last())
    } else {
        s.len() as int
    }
}

/// Whether the line starts (after indentation) with a code fence.
pub open spec fn is_fence(s: Seq<char>) -> bool {
    let p = char_scan_ws(s, 0);
    p + 3 <= s.len() && s[p] == '`' && s[p + 1] == '`' && s[p + 2] == '`'
}

/// Whether the line is exactly a bare code fence once trimmed.
pub open spec fn is_exact_fence(s: Seq<char>) -> bool {
    let p = char_scan_ws(s, 0);
    let q = char_trim_end(s);
    q == p + 3 && p + 3 <= s.len() && s[p] == '`' && s[p + 1] == '`' && s[p + 2] == '`'
}

/// The nearest fence row strictly above `r`, or -1.
pub open spec fn last_fence_before(ls: Seq<Seq<char>>, r: int) -> int
    decreases r,
{
    if r <= 0 {
        -1
    } else if is_fence(ls[r - 1]) {
        r - 1
    } else {
        last_fence_before(ls, r - 1)
    }
}

/// How many fence rows come before row `upto`.
pub open spec fn fence_count(ls: Seq<Seq<char>>, upto: int) -> int
    decreases upto,
{
    if upto <= 0 {
        0
    } else {
        fence_count(ls, upto - 1) + if is_fence(ls[upto - 1]) {
            1int
        } else {
            0int
        }
    }
}

/// The first fence row at or below `r`, or the line count.
pub open spec fn first_fence_from(ls: Seq<Seq<char>>, r: int) -> int
    decreases ls.len() - r,
{
    if r < 0 || r >= ls.len() {
        ls.len() as int
    } else if is_fence(ls[r]) {
        r
    } else {
        first_fence_from(ls, r + 1)
    }
}

/// The fence pair around `crow`, if the document's fences put that row
/// inside an open block: the nearest fence above must be an opening one
/// (an odd count up to it), and a closing fence must follow below.
pub open spec fn inside_block(ls: Seq<Seq<char>>, crow: int) -> Option<(int, int)> {
    let o = last_fence_before(ls, crow);
    if o < 0 {
        None
    } else if fence_count(ls, o + 1) % 2 == 0 {
        None
    } else {
        let c = first_fence_from(ls, crow + 1);
        if c >= ls.len() {
            None
        } else {
            Some((o, c))
        }
    }
}

/// Whether one line starts with a code fence after its indentation.
fn is_fence_str(s: &str) -> (r: bool)
    ensures
        r == is_fence(s@),
{
    let n = s.unicode_len();
    let mut i: usize = 0;
    while i < n
        invariant
            i <= n,
            n == s@.len(),
            char_scan_ws(s@, 0) == char_scan_ws(s@, i as int),
        decreases n - i,
    {
        if !crate::text::char_is_ws(s.get_char(i)) {
            proof {
                assert(char_scan_ws(s@, i as int) == i);
            }
            if n - i >= 3 {
                return s.get_char(i) == '`' && s.get_char(i + 1) == '`' && s.get_char(i + 2)
                    == '`';
            }
            return false;
        }
        i = i + 1;
    }
    proof {
        assert(char_scan_ws(s@, n as int) == n);
    }
    false
}

/// The length of one line once trailing whitespace characters are dropped.
fn char_trim_end_str(s: &str) -> (r: usize)
    ensures
        r == char_trim_end(s@),
        r <= s@.len(),
{
    let n = s.unicode_len();
    let mut q = n;
    proof {
        assert(s@.subrange(0, n as int) =~= s@);
    }
    while q > 0
        invariant
            q <= n,
            n == s@.len(),
            char_trim_end(s@) == char_trim_end(s@.subrange(0, q as int)),
        decreases q,
    {
        proof {
            assert(s@.subrange(0, q as int).last() == s@[q - 1]);
            assert(s@.subrange(0, q as int).drop_last() =~= s@.subrange(0, q - 1));
        }
        if !crate::text::char_is_ws(s.get_char(q - 1)) {
            proof {
                assert(char_trim_end(s@.subrange(0, q as int)) == q);
            }
            return q;
        }
        q = q - 1;
    }
    proof {
        assert(s@.subrange(0, 0) =~= Seq::<char>::empty());
        assert(char_trim_end(s@.subrange(0, 0)) == 0);
    }
    0
}

/// Whether one line is exactly a bare code fence once trimmed.
fn is_exact_fence_str(s: &str) -> (r: bool)
    ensures
        r == is_exact_fence(s@),
{
    let n = s.unicode_len();
    let q = char_trim_end_str(s);
    let mut i: usize = 0;
    while i < n
        invariant
            i <= n,
            n == s@.len(),
            q == char_trim_end(s@),
            q <= n,
            char_scan_ws(s@, 0) == char_scan_ws(s@, i as int),
        decreases n - i,
    {
        if !crate::text::char_is_ws(s.get_char(i)) {
            proof {
                assert(char_scan_ws(s@, i as int) == i);
            }
            if n - i >= 3 && q == i + 3 {
                return s.get_char(i) == '`' && s.get_char(i + 1) == '`' && s.get_char(i + 2)
                    == '`';
            }
            return false;
        }
        i = i + 1;
    }
    proof {
        assert(char_scan_ws(s@, n as int) == n);
    }
    false
}

/// The nearest fence row strictly above `from`, if any.
fn scan_fence_up(lines: &Vec<String>, from: usize) -> (r: Option<usize>)
    requires
        from <= lines@.len(),
    ensures
        r is Some <==> last_fence_before(lines.deep_view(), from as int) >= 0,
        r is Some ==> r->0 as int == last_fence_before(lines.deep_view(), from as int) && r->0
            < lines@.len(),
{
    let ghost dv = lines.deep_view();
    let mut rr = from;
    while rr > 0
        invariant
            rr <= from <= lines@.len(),
            dv == lines.deep_view(),
            last_fence_before(dv, from as int) == last_fence_before(dv, rr as int),
        decreases rr,
    {
        proof {
            assert(dv[rr - 1] == lines@[rr - 1]@);
        }
        if is_fence_str(lines[rr - 1].as_str()) {
            proof {
                assert(last_fence_before(dv, rr as int) == rr - 1);
            }
            return Some(rr - 1);
        }
        rr = rr - 1;
    }
    proof {
        assert(last_fence_before(dv, 0) == -1);
    }
    None
}

/// The fence pair around the cursor's row, if it sits in an open fenced
/// block.
pub fn is_inside_code_block(lines: &Vec<String>, cursor_row: usize) -> (r: Option<(usize, usize)>)
    requires
        cursor_row <= lines@.len(),
        cursor_row < usize::MAX,
    ensures
        r is Some <==> inside_block(lines.deep_view(), cursor_row as int) is Some,
        r is Some ==> ((r->0).0 as int, (r->0).1 as int) == inside_block(
            lines.deep_view(),
            cursor_row as int,
        )->0,
{
    let ghost dv = lines.deep_view();
    let n = lines.len();
    let open_opt = scan_fence_up(lines, cursor_row);
    let open_row = match open_opt {
        Some(o) => o,
        None => {
            return None;
        },
    };
    // the fence must open a block: an odd count up to and including it
    let mut count: usize = 0;
    let mut k: usize = 0;
    while k <= open_row
        invariant
            open_row < n,
            k <= open_row + 1,
            n == lines@.len(),
            dv == lines.deep_view(),
            open_row as int == last_fence_before(dv, cursor_row as int),
            cursor_row <= n,
            count == fence_count(dv, k as int),
            count <= k,
        decreases open_row + 1 - k,
    {
        proof {
            assert(dv[k as int] == lines@[k as int]@);
        }
        if is_fence_str(lines[k].as_str()) {
            count = count + 1;
        }
        k = k + 1;
    }
    if count % 2 == 0 {
        return None;
    }
    // the closing fence below
    let mut cr = cursor_row + 1;
    while cr < n
        invariant
            cursor_row + 1 <= cr,
            cr <= n || cr == cursor_row + 1,
            n == lines@.len(),
            dv == lines.deep_view(),
            open_row < n,
            open_row as int == last_fence_before(dv, cursor_row as int),
            count == fence_count(dv, open_row + 1),
            count % 2 == 1,
            cursor_row <= n,
            first_fence_from(dv, cursor_row + 1) == first_fence_from(dv, cr as int),
        decreases n - cr,
    {
        proof {
            assert(dv[cr as int] == lines@[cr as int]@);
        }
        if is_fence_str(lines[cr].as_str()) {
            proof {
                assert(first_fence_from(dv, cr as int) == cr);
            }
            return Some((open_row, cr));
        }
        cr = cr + 1;
    }
    proof {
        assert(first_fence_from(dv, n as int) == n);
    }
    None
}

/// A fresh copy of the rows `lines[a..b]` appended to `out`.
fn push_line_clones(out: &mut Vec<String>, lines: &Vec<String>, a: usize, b: usize)
    requires
        a <= b <= lines.len(),
    ensures
        final(out).deep_view() == old(out).deep_view() + lines.deep_view().subrange(
            a as int,
            b as int,
        ),
{
    let mut i = a;
    proof {
        assert(out.deep_view() =~= old(out).deep_view() + lines.deep_view().subrange(
            a as int,
            a as int,
        ));
    }
    while i < b
        invariant
            a <= i <= b <= lines.len(),
            lines.deep_view().len() == lines.len(),
            out.deep_view() =~= old(out).deep_view() + lines.deep_view().subrange(
                a as int,
                i as int,
            ),
        decreases b - i,
    {
        let ghost prev = out.deep_view();
        let c = lines[i].clone();
        out.push(c);
        proof {
            assert(out.deep_view() =~= prev.push(c@));
            assert(lines.deep_view().subrange(a as int, i + 1) =~= lines.deep_view().subrange(
                a as int,
                i as int,
            ).push(lines.deep_view()[i as int]));
        }
        i = i + 1;
    }
}

/// A bare fence line.
fn fence_line() -> (r: String)
    ensures
        r@ == seq!['`', '`', '`'],
{
    let r = String::from_str("```");
    proof {
        reveal_strlit("```");
        assert(r@ =~= seq!['`', '`', '`']);
    }
    r
}

/// What toggling a code block at the cursor's row produces: the enclosing
/// fences removed when the row sits in an open block, or a fresh fence
/// pair around the row; with the new cursor row and column.
pub open spec fn code_block_toggled(ls: Seq<Seq<char>>, crow: int) -> (Seq<Seq<char>>, int, int) {
    match inside_block(ls, crow) {
        Some(oc) => {
            let o = oc.0;
            let c = oc.1;
            let kept = ls.subrange(0, o) + ls.subrange(o + 1, c) + ls.subrange(
                c + 1,
                ls.len() as int,
            );
            let nr0: int = if crow > o {
                crow - 1
            } else {
                crow
            };
            let nr: int = if kept.len() == 0 {
                0
            } else if nr0 < kept.len() {
                nr0
            } else {
                kept.len() - 1
            };
            (kept, nr, 0)
        },
        None => {
            if crow >= ls.len() {
                (ls, crow, 3)
            } else {
                (
                    ls.subrange(0, crow) + seq![seq!['`', '`', '`'], ls[crow], seq!['`', '`', '`']]
                        + ls.subrange(crow + 1, ls.len() as int),
                    crow,
                    3,
                )
            }
        },
    }
}

/// Toggles a code block around the cursor's row: removes the fences of an
/// open block holding it, or wraps the row in a fresh pair, leaving the
/// cursor on the opening fence after the backticks.
pub fn toggle_code_block(lines: &Vec<String>, cursor_row: usize) -> (r: (Vec<String>, usize, usize))
    requires
        cursor_row <= lines@.len(),
        cursor_row < usize::MAX,
    ensures
        ({
            let t = code_block_toggled(lines.deep_view(), cursor_row as int);
            r.0.deep_view() == t.0 && r.1 == t.1 && r.2 == t.2
        }),
{
    let ghost dv = lines.deep_view();
    let n = lines.len();
    match is_inside_code_block(lines, cursor_row) {
        Some(oc) => {
            let (o, c) = oc;
            proof {
                lemma_inside_block_sound(dv, cursor_row as int);
            }
            let mut out: Vec<String> = Vec::new();
            push_line_clones(&mut out, lines, 0, o);
            push_line_clones(&mut out, lines, o + 1, c);
            push_line_clones(&mut out, lines, c + 1, n);
            let new_len = out.len();
            let nr0 = if cursor_row > o {
                cursor_row - 1
            } else {
                cursor_row
            };
            let nr = if new_len == 0 {
                0
            } else if nr0 < new_len {
                nr0
            } else {
                new_len - 1
            };
            proof {
                assert(out.deep_view() =~= code_block_toggled(dv, cursor_row as int).0);
            }
            (out, nr, 0)
        },
        None => {
            if cursor_row >= n {
                let out = push_all_clone(lines);
                proof {
                    assert(out.deep_view() =~= code_block_toggled(dv, cursor_row as int).0);
                }
                return (out, cursor_row, 3);
            }
            let mut out: Vec<String> = Vec::new();
            push_line_clones(&mut out, lines, 0, cursor_row);
            let ghost pre1 = out.deep_view();
            let f1 = fence_line();
            out.push(f1);
            proof {
                assert(out.deep_view() =~= pre1.push(seq!['`', '`', '`']));
            }
            push_line_clones(&mut out, lines, cursor_row, cursor_row + 1);
            let ghost pre2 = out.deep_view();
            let f2 = fence_line();
            out.push(f2);
            proof {
                assert(out.deep_view() =~= pre2.push(seq!['`', '`', '`']));
            }
            push_line_clones(&mut out, lines, cursor_row + 1, n);
            proof {
                assert(dv.subrange(cursor_row as int, cursor_row + 1) =~= seq![
                    dv[cursor_row as int],
                ]);
                assert(out.deep_view() =~= code_block_toggled(dv, cursor_row as int).0);
            }
            (out, cursor_row, 3)
        },
    }
}

/// A fresh copy of every row.
fn push_all_clone(lines: &Vec<String>) -> (r: Vec<String>)
    ensures
        r.deep_view() == lines.deep_view(),
{
    let mut out: Vec<String> = Vec::new();
    push_line_clones(&mut out, lines, 0, lines.len());
    proof {
        assert(lines.deep_view().subrange(0, lines.len() as int) =~= lines.deep_view());
        assert(out.deep_view() =~= lines.deep_view());
    }
    out
}

/// The pair an open block reports is ordered around the cursor's row and
/// inside the document.
pub proof fn lemma_inside_block_sound(ls: Seq<Seq<char>>, crow: int)
    requires
        inside_block(ls, crow) is Some,
        crow >= 0,
    ensures
        ({
            let (o, c) = inside_block(ls, crow)->0;
            0 <= o < c < ls.len() && o < crow <= c
        }),
{
    let o = last_fence_before(ls, crow);
    lemma_last_fence_range(ls, crow);
    let c = first_fence_from(ls, crow + 1);
    lemma_first_fence_range(ls, crow + 1);
}

proof fn lemma_last_fence_range(ls: Seq<Seq<char>>, r: int)
    requires
        last_fence_before(ls, r) >= 0,
    ensures
        last_fence_before(ls, r) < r,
    decreases r,
{
    if r > 0 && !is_fence(ls[r - 1]) {
        lemma_last_fence_range(ls, r - 1);
    }
}

proof fn lemma_first_fence_range(ls: Seq<Seq<char>>, r: int)
    requires
        r >= 0,
    ensures
        first_fence_from(ls, r) >= r || first_fence_from(ls, r) == ls.len(),
    decreases ls.len() - r,
{
    if 0 <= r < ls.len() && !is_fence(ls[r]) {
        lemma_first_fence_range(ls, r + 1);
    }
}

/// What toggling a code block around a row range produces: the bounding
/// rows removed when they are already a fence pair, or a fence pair put
/// around the range.
pub open spec fn code_block_visual_toggled(ls: Seq<Seq<char>>, start: int, end: int) -> (
    Seq<Seq<char>>,
    int,
    int,
) {
    let s: int = if start < ls.len() {
        start
    } else {
        ls.len() - 1
    };
    let e: int = if end < ls.len() {
        end
    } else {
        ls.len() - 1
    };
    if is_fence(ls[s]) && is_exact_fence(ls[e]) {
        let kept = if s == e {
            ls.subrange(0, s) + ls.subrange(s + 1, ls.len() as int)
        } else {
            ls.subrange(0, s) + ls.subrange(s + 1, e) + ls.subrange(e + 1, ls.len() as int)
        };
        (kept, s, 0)
    } else {
        (
            ls.subrange(0, s) + seq![seq!['`', '`', '`']] + ls.subrange(s, e + 1) + seq![
                seq!['`', '`', '`'],
            ] + ls.subrange(e + 1, ls.len() as int),
            s,
            3,
        )
    }
}

/// Toggles a fence pair around a row range: removes the two bounding rows
/// when the first starts a fence and the last is a bare fence, or wraps
/// the range in a fresh pair.
pub fn toggle_code_block_visual(lines: &Vec<String>, start_row: usize, end_row: usize) -> (r: (
    Vec<String>,
    usize,
    usize,
))
    requires
        lines@.len() > 0,
        start_row <= end_row,
    ensures
        ({
            let t = code_block_visual_toggled(lines.deep_view(), start_row as int, end_row as int);
            r.0.deep_view() == t.0 && r.1 == t.1 && r.2 == t.2
        }),
{
    let ghost dv = lines.deep_view();
    let n = lines.len();
    let s = if start_row < n {
        start_row
    } else {
        n - 1
    };
    let e = if end_row < n {
        end_row
    } else {
        n - 1
    };
    proof {
        assert(dv[s as int] == lines@[s as int]@);
        assert(dv[e as int] == lines@[e as int]@);
    }
    let wrapped = is_fence_str(lines[s].as_str()) && is_exact_fence_str(lines[e].as_str());
    if wrapped {
        let mut out: Vec<String> = Vec::new();
        if s == e {
            push_line_clones(&mut out, lines, 0, s);
            push_line_clones(&mut out, lines, s + 1, n);
        } else {
            push_line_clones(&mut out, lines, 0, s);
            push_line_clones(&mut out, lines, s + 1, e);
            push_line_clones(&mut out, lines, e + 1, n);
        }
        proof {
            assert(out.deep_view() =~= code_block_visual_toggled(
                dv,
                start_row as int,
                end_row as int,
            ).0);
        }
        (out, s, 0)
    } else {
        let mut out: Vec<String> = Vec::new();
        push_line_clones(&mut out, lines, 0, s);
        let ghost pre1 = out.deep_view();
        let f1 = fence_line();
        out.push(f1);
        proof {
            assert(out.deep_view() =~= pre1.push(seq!['`', '`', '`']));
        }
        push_line_clones(&mut out, lines, s, e + 1);
        let ghost pre2 = out.deep_view();
        let f2 = fence_line();
        out.push(f2);
        proof {
            assert(out.deep_view() =~= pre2.push(seq!['`', '`', '`']));
        }
        push_line_clones(&mut out, lines, e + 1, n);
        proof {
            assert(out.deep_view() =~= code_block_visual_toggled(
                dv,
                start_row as int,
                end_row as int,
            ).0);
        }
        (out, s, 3)
    }
}

} // verus!
