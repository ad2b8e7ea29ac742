use vstd::prelude::*;

use crate::text::str_eq;

verus! {

/// Colour of a redaction mask.
#[derive(Clone, Copy, Debug, PartialEq, Eq, Structural)]
pub enum MaskColor {
    Black,
    White,
}

/// Whether `s` is one of the three spellings that select a white mask:
/// `white`, `White` or `WHITE`.
pub open spec fn is_white_spelling(s: &str) -> bool {
    ||| s@ == "white"@
    ||| s@ == "White"@
    ||| s@ == "WHITE"@
}

impl MaskColor {
    /// Reads a colour name: `white`, `White` and `WHITE` give white,
    /// every other string gives black.
    pub fn from_str(s: &str) -> (r: MaskColor)
        ensures
            r == (if is_white_spelling(s) { MaskColor::White } else { MaskColor::Black }),
    {
        if str_eq(s, "white") || str_eq(s, "White") || str_eq(s, "WHITE") {
            MaskColor::White
        } else {
            MaskColor::Black
        }
    }
}

/// Whether the visible box drawn over a mask is white. Only the exact
/// name `white` draws a white box; every other name draws a black one.
pub fn overlay_is_white(s: &str) -> (r: bool)
    ensures
        r == (s@ == "white"@),
{
    str_eq(s, "white")
}

/// The colour that wins where several masks cover one point: black if
/// any of them is black, white if they are all white, none if there are
/// none.
pub open spec fn spec_strongest(colors: Seq<MaskColor>) -> Option<MaskColor> {
    if exists|i: int| 0 <= i < colors.len() && colors[i] == MaskColor::Black {
        Some(MaskColor::Black)
    } else if colors.len() > 0 {
        Some(MaskColor::White)
    } else {
        None
    }
}

/// Given the colours of the masks that cover a point, in mask order,
/// the colour the point is painted.
pub fn strongest_color(colors: &[MaskColor]) -> (r: Option<MaskColor>)
    ensures
        r == spec_strongest(colors@),
{
    let mut white = false;
    let mut i: usize = 0;
    while i < colors.len()
        invariant
            i <= colors.len(),
            forall|k: int| 0 <= k < i ==> colors@[k] != MaskColor::Black,
            white == (i > 0),
        decreases colors.len() - i,
    {
        if colors[i] == MaskColor::Black {
            return Some(MaskColor::Black);
        }
        white = true;
        i = i + 1;
    }
    if white {
        Some(MaskColor::White)
    } else {
        None
    }
}

/// Black wins where masks overlap: a point covered by any black mask is
/// painted black, and a point is painted white only when every mask that
/// covers it is white.
pub proof fn law_black_wins(colors: Seq<MaskColor>)
    ensures
        (exists|i: int| 0 <= i < colors.len() && colors[i] == MaskColor::Black) ==> spec_strongest(
            colors,
        ) == Some(MaskColor::Black),
        spec_strongest(colors) == Some(MaskColor::White) <==> (colors.len() > 0 && forall|i: int|
            0 <= i < colors.len() ==> colors[i] == MaskColor::White),
        spec_strongest(colors) is None <==> colors.len() == 0,
{
    if colors.len() > 0 && forall|i: int| 0 <= i < colors.len() ==> colors[i] == MaskColor::White {
        assert(!exists|i: int| 0 <= i < colors.len() && colors[i] == MaskColor::Black);
    }
    if spec_strongest(colors) == Some(MaskColor::White) {
        assert forall|i: int| 0 <= i < colors.len() implies colors[i] == MaskColor::White by {
            if colors[i] == MaskColor::Black {
                assert(exists|j: int| 0 <= j < colors.len() && colors[j] == MaskColor::Black);
            }
        }
    }
}

} // verus!
