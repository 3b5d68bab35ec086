//! Rasterization of a line segment clipped to a rectangle.

use vstd::prelude::*;

verus! {

/// The pixels of the segment from (x0, y0) to (x1, y1), both ends included,
/// that lie in the rectangle (0, 0) ..= (xmax, ymax), in order along the
/// segment; `None` when no pixel of the segment lies in it.
pub uninterp spec fn clipped_pixels(
    x0: int,
    y0: int,
    x1: int,
    y1: int,
    xmax: int,
    ymax: int,
) -> Option<Seq<(isize, isize)>>;

/// The largest coordinate magnitude for which the clipping arithmetic
/// stays inside isize.
pub open spec fn line_limit() -> int {
    if isize::MAX > 0x7fff_ffff {
        0x2000_0000
    } else {
        0x2000
    }
}

/// Relies on clipline::Clipline::new and its iterator: the integer
/// rasterization of the segment clipped to the inclusive rectangle
/// (0, 0) ..= (xmax, ymax), `None` when the segment misses the rectangle.
/// Only pixels inside the rectangle are produced, from the start towards
/// the end, both included; so a segment whose ends both lie inside starts at
/// (x0, y0) and ends at (x1, y1). Its products of coordinate
/// differences stay inside isize for coordinates bounded by `line_limit`.
#[verifier::external_body]
pub(crate) fn clip_line(
    x0: isize,
    y0: isize,
    x1: isize,
    y1: isize,
    xmax: isize,
    ymax: isize,
) -> (r: Option<Vec<(isize, isize)>>)
    requires
        -line_limit() <= x0 <= line_limit(),
        -line_limit() <= y0 <= line_limit(),
        -line_limit() <= x1 <= line_limit(),
        -line_limit() <= y1 <= line_limit(),
        0 <= xmax <= line_limit(),
        0 <= ymax <= line_limit(),
    ensures
        match r {
            Some(v) => clipped_pixels(x0 as int, y0 as int, x1 as int, y1 as int, xmax as int, ymax as int)
                == Some(v@),
            None => clipped_pixels(x0 as int, y0 as int, x1 as int, y1 as int, xmax as int, ymax as int) is None,
        },
        r matches Some(v) ==> forall|k: int|
            0 <= k < v.len() ==> 0 <= (#[trigger] v@[k]).0 <= xmax && 0 <= v@[k].1 <= ymax,
        r is None ==> !(0 <= x0 <= xmax && 0 <= y0 <= ymax && 0 <= x1 <= xmax && 0 <= y1 <= ymax),
        r matches Some(v) ==> (0 <= x0 <= xmax && 0 <= y0 <= ymax && 0 <= x1 <= xmax && 0 <= y1 <= ymax
            ==> v.len() > 0 && v@[0] == (x0, y0) && v@.last() == (x1, y1)),
{
    match clipline::Clipline::new(((x0, y0), (x1, y1)), ((0, 0), (xmax, ymax))) {
        Some(line) => Some(line.collect()),
        None => None,
    }
}

} // verus!
