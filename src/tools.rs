//! The editing tools and the rectangle a selection spans.

use vstd::prelude::*;
use crate::utils::Vec2I;

verus! {

/// An editing tool; line and selection remember the corners dragged so far.
#[derive(Clone, Copy, Debug, PartialEq, Eq, Structural)]
pub enum Tool {
    Brush,
    Line { start: Option<Vec2I>, end: Option<Vec2I> },
    Selection { start: Option<Vec2I>, end: Option<Vec2I> },
}

/// A rectangle of cells: `start` is its bottom-right corner, `end` its
/// top-left one, both included.
#[derive(Clone, Copy, Debug, PartialEq, Eq, Structural)]
pub struct Selection {
    pub start: Vec2I,
    pub end: Vec2I,
    pub width: isize,
    pub height: isize,
}

pub open spec fn min_int(a: int, b: int) -> int {
    if a <= b {
        a
    } else {
        b
    }
}

pub open spec fn max_int(a: int, b: int) -> int {
    if a >= b {
        a
    } else {
        b
    }
}

/// Half the isize range: corners within it have differences that fit.
pub open spec fn corner_fits(p: Vec2I) -> bool {
    -(isize::MAX / 2) <= p.x <= isize::MAX / 2 && -(isize::MAX / 2) <= p.y <= isize::MAX / 2
}

/// The selection corners known so far lie within `corner_fits`.
pub open spec fn corners_fit(t: Tool) -> bool {
    match t {
        Tool::Selection { start, end } => (start matches Some(s) ==> corner_fits(s)) && (end matches Some(
            e,
        ) ==> corner_fits(e)),
        _ => true,
    }
}

impl Selection {
    /// The rectangle spanned by two opposite corners given in any order.
    pub fn from_corners(a: Vec2I, b: Vec2I) -> (r: Selection)
        requires
            corner_fits(a),
            corner_fits(b),
        ensures
            r.start.x == max_int(a.x as int, b.x as int),
            r.start.y == max_int(a.y as int, b.y as int),
            r.end.x == min_int(a.x as int, b.x as int),
            r.end.y == min_int(a.y as int, b.y as int),
            r.width == r.start.x - r.end.x + 1,
            r.height == r.start.y - r.end.y + 1,
    {
        let (min_x, max_x) = if a.x <= b.x {
            (a.x, b.x)
        } else {
            (b.x, a.x)
        };
        let (min_y, max_y) = if a.y <= b.y {
            (a.y, b.y)
        } else {
            (b.y, a.y)
        };
        let start = Vec2I::new(max_x, max_y);
        let end = Vec2I::new(min_x, min_y);
        Selection { start, end, width: max_x - min_x + 1, height: max_y - min_y + 1 }
    }
}

impl Tool {
    /// The selection being made: present only for the selection tool once
    /// both corners are known.
    pub fn selection(&self) -> (r: Option<Selection>)
        requires
            corners_fit(*self),
        ensures
            r is Some <==> (*self matches Tool::Selection { start, end } && start is Some && end is Some),
            r matches Some(sel) ==> (*self matches Tool::Selection { start, end } && sel == Selection::spec_from(
                start->Some_0,
                end->Some_0,
            )),
    {
        match self {
            Tool::Selection { start: Some(s), end: Some(e) } => Some(Selection::from_corners(*s, *e)),
            _ => None,
        }
    }

    /// The endpoints of the line being drawn, once both are known.
    pub fn line_ends(&self) -> (r: Option<(Vec2I, Vec2I)>)
        ensures
            r is Some <==> (*self matches Tool::Line { start, end } && start is Some && end is Some),
            r matches Some(p) ==> (*self matches Tool::Line { start, end } && p == (start->Some_0, end->Some_0)),
    {
        match self {
            Tool::Line { start: Some(s), end: Some(e) } => Some((*s, *e)),
            _ => None,
        }
    }

    /// The tool's name as shown to the user.
    pub fn name(&self) -> (r: &'static str) {
        match self {
            Tool::Brush => "Brush",
            Tool::Line { .. } => "Line",
            Tool::Selection { .. } => "Selection",
        }
    }
}

impl Selection {
    /// The rectangle spanned by two corners, as `from_corners` builds it.
    pub open spec fn spec_from(a: Vec2I, b: Vec2I) -> Selection {
        let (sx, sy) = (max_int(a.x as int, b.x as int), max_int(a.y as int, b.y as int));
        let (ex, ey) = (min_int(a.x as int, b.x as int), min_int(a.y as int, b.y as int));
        Selection {
            start: Vec2I { x: sx as isize, y: sy as isize },
            end: Vec2I { x: ex as isize, y: ey as isize },
            width: (sx - ex + 1) as isize,
            height: (sy - ey + 1) as isize,
        }
    }
}

} // verus!
