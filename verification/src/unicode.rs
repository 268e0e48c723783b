//! The engine's only window onto Unicode data: grapheme segmentation,
//! display width, and case folding. Everything else in the crate works on
//! the values these functions hand back.

use vstd::prelude::*;

use unicode_segmentation::UnicodeSegmentation;
use unicode_width::UnicodeWidthStr;

verus! {

/// The grapheme clusters of a string, as segmented by unicode_segmentation.
pub uninterp spec fn gcluster(s: Seq<char>) -> Seq<Seq<char>>;

/// The display width in terminal columns of a string, as measured by
/// unicode_width.
pub uninterp spec fn gwidth(s: Seq<char>) -> nat;

/// The lowercase form of a string, as computed by str::to_lowercase.
pub uninterp spec fn lower_of(s: Seq<char>) -> Seq<char>;

/// Relies on unicode_segmentation's `UnicodeSegmentation::graphemes` (with
/// extended clusters): it yields consecutive non-empty substrings whose
/// concatenation is the original string.
#[verifier::external_body]
pub fn split_graphemes(s: &str) -> (r: Vec<String>)
    ensures
        r.deep_view() == gcluster(s@),
        r.deep_view().flatten() == s@,
        forall|i: int| 0 <= i < r.deep_view().len() ==> r.deep_view()[i].len() > 0,
{
    s.graphemes(true).map(|g| g.to_string()).collect()
}

/// Relies on unicode_width's `UnicodeWidthStr::width`: the width of a string
/// is the sum of its character widths (each at most 3 columns), except for a
/// few ligature sequences whose total width is smaller still.
#[verifier::external_body]
pub fn str_width(s: &str) -> (r: usize)
    ensures
        r == gwidth(s@),
        r <= 3 * s@.len(),
{
    UnicodeWidthStr::width(s)
}

/// Relies on `str::to_lowercase`: the result depends on the characters alone,
/// and an empty string stays empty.
#[verifier::external_body]
pub fn lowercase(s: &str) -> (r: String)
    ensures
        r@ == lower_of(s@),
        s@.len() == 0 ==> r@.len() == 0,
{
    s.to_lowercase()
}

/// A sequence of grapheme clusters has no more clusters than characters,
/// since every cluster holds at least one character.
pub proof fn lemma_cluster_count_le_chars(cells: Seq<Seq<char>>)
    requires
        forall|i: int| 0 <= i < cells.len() ==> cells[i].len() > 0,
    ensures
        cells.len() <= cells.flatten().len(),
    decreases cells.len(),
{
    if cells.len() > 0 {
        lemma_cluster_count_le_chars(cells.drop_first());
        assert(cells.flatten() == cells.first() + cells.drop_first().flatten());
    }
}

/// Joins grapheme cells back into a single string.
pub fn join_cells(cells: &Vec<String>) -> (r: String)
    ensures
        r@ == cells.deep_view().flatten(),
{
    let mut out = String::new();
    let mut i: usize = 0;
    proof {
        assert(cells.deep_view().subrange(0, 0) =~= Seq::<Seq<char>>::empty());
        assert(Seq::<Seq<char>>::empty().flatten() =~= Seq::<char>::empty());
    }
    while i < cells.len()
        invariant
            i <= cells.len(),
            cells.deep_view().len() == cells.len(),
            out@ == cells.deep_view().subrange(0, i as int).flatten(),
        decreases cells.len() - i,
    {
        out.append(cells[i].as_str());
        proof {
            let dv = cells.deep_view();
            assert(dv.subrange(0, i + 1) =~= dv.subrange(0, i as int).push(dv[i as int]));
            dv.subrange(0, i as int).lemma_flatten_push(dv[i as int]);
        }
        i = i + 1;
    }
    proof {
        assert(cells.deep_view().subrange(0, cells.len() as int) =~= cells.deep_view());
    }
    out
}

} // verus!
