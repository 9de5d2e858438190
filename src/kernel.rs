use vstd::prelude::*;

use crate::color::{black, Color};

verus! {

/// The colour of a pixel whose orbit escaped after `escape` iterations, or
/// never escaped (`None`): interior points are black, escaped points index the
/// palette by the iteration count modulo its length.
pub open spec fn escape_color(escape: Option<u32>, palette: Seq<Color>) -> Color
    recommends
        palette.len() > 0,
{
    match escape {
        None => black(),
        Some(n) => palette[(n as int) % palette.len() as int],
    }
}

/// The colours of a row of pixels with the given escape counts.
pub open spec fn row_colors(escapes: Seq<Option<u32>>, palette: Seq<Color>) -> Seq<Color> {
    Seq::new(escapes.len(), |i: int| escape_color(escapes[i], palette))
}

/// Colours one pixel from its escape count.
pub fn color_for_escape(escape: Option<u32>, palette: &Vec<Color>) -> (c: Color)
    requires
        palette.len() > 0,
    ensures
        c == escape_color(escape, palette@),
{
    match escape {
        None => Color { r: 0, g: 0, b: 0 },
        Some(n) => palette[(n as usize) % palette.len()],
    }
}

/// Colours a whole row into a scratch buffer that a worker reuses from row
/// to row.
pub fn fill_row(scratch: &mut Vec<Color>, escapes: &Vec<Option<u32>>, palette: &Vec<Color>)
    requires
        old(scratch).len() == escapes.len(),
        palette.len() > 0,
    ensures
        final(scratch)@ == row_colors(escapes@, palette@),
{
    let mut x: usize = 0;
    while x < escapes.len()
        invariant
            scratch.len() == escapes.len(),
            palette.len() > 0,
            0 <= x <= escapes.len(),
            forall|i: int| 0 <= i < x ==> scratch@[i] == escape_color(escapes@[i], palette@),
        decreases escapes.len() - x,
    {
        let c = color_for_escape(escapes[x], palette);
        scratch.set(x, c);
        x = x + 1;
    }
    assert(scratch@ =~= row_colors(escapes@, palette@));
}

} // verus!
