//! Rectangular cell selections: making, resizing and clamping them.
//!
//! A selection is `[x0, y0, x1, y1]`, the inclusive cell coordinates of two
//! opposite corners; it is normalized when `x0 <= x1` and `y0 <= y1`.
use vstd::prelude::*;

verus! {

/// An edge or corner of a selection, as grabbed for resizing.
#[derive(Clone, Copy, Debug, PartialEq, Eq, Structural)]
pub enum SelectionEdge {
    Left,
    Right,
    Top,
    Bottom,
    TopLeft,
    TopRight,
    BottomLeft,
    BottomRight,
}

/// The shape of the pointer over an edge or corner.
#[derive(Clone, Copy, Debug, PartialEq, Eq, Structural)]
pub enum ResizeCursor {
    /// Left or right edge.
    Horizontal,
    /// Top or bottom edge.
    Vertical,
    /// Top-left or bottom-right corner.
    NwSe,
    /// Top-right or bottom-left corner.
    NeSw,
}

/// The smaller of two integers.
pub open spec fn min_i(a: int, b: int) -> int {
    if a <= b {
        a
    } else {
        b
    }
}

/// The larger of two integers.
pub open spec fn max_i(a: int, b: int) -> int {
    if a >= b {
        a
    } else {
        b
    }
}

/// A selection whose first corner is at most its second along both axes.
pub open spec fn normalized(sel: [i32; 4]) -> bool {
    sel[0] <= sel[2] && sel[1] <= sel[3]
}

/// The normalized selection spanned by the cells `a` and `b`.
pub fn selection_between(a: (i32, i32), b: (i32, i32)) -> (sel: [i32; 4])
    ensures
        sel[0] == min_i(a.0 as int, b.0 as int),
        sel[1] == min_i(a.1 as int, b.1 as int),
        sel[2] == max_i(a.0 as int, b.0 as int),
        sel[3] == max_i(a.1 as int, b.1 as int),
        normalized(sel),
{
    let x0 = if a.0 <= b.0 {
        a.0
    } else {
        b.0
    };
    let y0 = if a.1 <= b.1 {
        a.1
    } else {
        b.1
    };
    let x1 = if a.0 >= b.0 {
        a.0
    } else {
        b.0
    };
    let y1 = if a.1 >= b.1 {
        a.1
    } else {
        b.1
    };
    [x0, y0, x1, y1]
}

/// The selection after dragging `edge` to the cell `(cx, cy)`: a dragged side
/// follows the cell but never crosses the opposite side.
pub open spec fn resized(sel: [i32; 4], edge: SelectionEdge, cx: i32, cy: i32) -> [i32; 4] {
    let left = min_i(cx as int, sel[2] as int) as i32;
    let right = max_i(cx as int, sel[0] as int) as i32;
    let top = min_i(cy as int, sel[3] as int) as i32;
    let bottom = max_i(cy as int, sel[1] as int) as i32;
    match edge {
        SelectionEdge::Left => [left, sel[1], sel[2], sel[3]],
        SelectionEdge::Right => [sel[0], sel[1], right, sel[3]],
        SelectionEdge::Top => [sel[0], top, sel[2], sel[3]],
        SelectionEdge::Bottom => [sel[0], sel[1], sel[2], bottom],
        SelectionEdge::TopLeft => [left, top, sel[2], sel[3]],
        SelectionEdge::TopRight => [sel[0], top, right, sel[3]],
        SelectionEdge::BottomLeft => [left, sel[1], sel[2], bottom],
        SelectionEdge::BottomRight => [sel[0], sel[1], right, bottom],
    }
}

/// Drags `edge` of the selection to the cell `(cx, cy)`.
pub fn resize_selection(sel: [i32; 4], edge: SelectionEdge, cx: i32, cy: i32) -> (r: [i32; 4])
    ensures
        r == resized(sel, edge, cx, cy),
{
    let mut r = sel;
    let left = if cx <= sel[2] {
        cx
    } else {
        sel[2]
    };
    let right = if cx >= sel[0] {
        cx
    } else {
        sel[0]
    };
    let top = if cy <= sel[3] {
        cy
    } else {
        sel[3]
    };
    let bottom = if cy >= sel[1] {
        cy
    } else {
        sel[1]
    };
    match edge {
        SelectionEdge::Left => {
            r[0] = left;
        },
        SelectionEdge::Right => {
            r[2] = right;
        },
        SelectionEdge::Top => {
            r[1] = top;
        },
        SelectionEdge::Bottom => {
            r[3] = bottom;
        },
        SelectionEdge::TopLeft => {
            r[0] = left;
            r[1] = top;
        },
        SelectionEdge::TopRight => {
            r[2] = right;
            r[1] = top;
        },
        SelectionEdge::BottomLeft => {
            r[0] = left;
            r[3] = bottom;
        },
        SelectionEdge::BottomRight => {
            r[2] = right;
            r[3] = bottom;
        },
    }
    assert(r@ =~= resized(sel, edge, cx, cy)@);
    r
}

/// Resizing keeps a normalized selection normalized, whichever edge is dragged
/// wherever.
pub proof fn lemma_resize_keeps_normalized(sel: [i32; 4], edge: SelectionEdge, cx: i32, cy: i32)
    requires
        normalized(sel),
    ensures
        normalized(resized(sel, edge, cx, cy)),
{
}

/// The edge or corner that the pointer is near, from whether it is near the
/// top, bottom, left and right sides: a corner when near one horizontal and one
/// vertical side, else the side it is near, else none.
pub open spec fn edge_spec(
    near_top: bool,
    near_bottom: bool,
    near_left: bool,
    near_right: bool,
) -> Option<SelectionEdge> {
    match (near_top, near_bottom, near_left, near_right) {
        (true, false, true, false) => Some(SelectionEdge::TopLeft),
        (true, false, false, true) => Some(SelectionEdge::TopRight),
        (false, true, true, false) => Some(SelectionEdge::BottomLeft),
        (false, true, false, true) => Some(SelectionEdge::BottomRight),
        (true, false, _, _) => Some(SelectionEdge::Top),
        (false, true, _, _) => Some(SelectionEdge::Bottom),
        (_, _, true, false) => Some(SelectionEdge::Left),
        (_, _, false, true) => Some(SelectionEdge::Right),
        _ => None,
    }
}

/// The edge or corner that the pointer is near.
pub fn edge_near(near_top: bool, near_bottom: bool, near_left: bool, near_right: bool) -> (r:
    Option<SelectionEdge>)
    ensures
        r == edge_spec(near_top, near_bottom, near_left, near_right),
{
    match (near_top, near_bottom, near_left, near_right) {
        (true, false, true, false) => Some(SelectionEdge::TopLeft),
        (true, false, false, true) => Some(SelectionEdge::TopRight),
        (false, true, true, false) => Some(SelectionEdge::BottomLeft),
        (false, true, false, true) => Some(SelectionEdge::BottomRight),
        (true, false, _, _) => Some(SelectionEdge::Top),
        (false, true, _, _) => Some(SelectionEdge::Bottom),
        (_, _, true, false) => Some(SelectionEdge::Left),
        (_, _, false, true) => Some(SelectionEdge::Right),
        _ => None,
    }
}

/// The pointer shape for an edge or corner.
pub fn edge_cursor(edge: SelectionEdge) -> (c: ResizeCursor)
    ensures
        c == match edge {
            SelectionEdge::Left | SelectionEdge::Right => ResizeCursor::Horizontal,
            SelectionEdge::Top | SelectionEdge::Bottom => ResizeCursor::Vertical,
            SelectionEdge::TopLeft | SelectionEdge::BottomRight => ResizeCursor::NwSe,
            SelectionEdge::TopRight | SelectionEdge::BottomLeft => ResizeCursor::NeSw,
        },
{
    match edge {
        SelectionEdge::Left | SelectionEdge::Right => ResizeCursor::Horizontal,
        SelectionEdge::Top | SelectionEdge::Bottom => ResizeCursor::Vertical,
        SelectionEdge::TopLeft | SelectionEdge::BottomRight => ResizeCursor::NwSe,
        SelectionEdge::TopRight | SelectionEdge::BottomLeft => ResizeCursor::NeSw,
    }
}

/// `v` clamped into `[lo, hi]`.
pub open spec fn clamp_i(v: int, lo: int, hi: int) -> int {
    if v < lo {
        lo
    } else if v > hi {
        hi
    } else {
        v
    }
}

/// `v` clamped into `[0, n - 1]`.
fn clamp_to(v: i32, n: u32) -> (r: i32)
    requires
        1 <= n <= i32::MAX,
    ensures
        r == clamp_i(v as int, 0, n - 1),
{
    let hi = n as i32 - 1;
    if v < 0 {
        0
    } else if v > hi {
        hi
    } else {
        v
    }
}

/// The selection clamped to a `w` by `h` world, as inclusive cell coordinates;
/// `None` when it is not normalized.
pub fn selection_rect_cells(sel: [i32; 4], w: u32, h: u32) -> (r: Option<(u32, u32, u32, u32)>)
    requires
        1 <= w <= i32::MAX,
        1 <= h <= i32::MAX,
    ensures
        ({
            let x0 = clamp_i(sel[0] as int, 0, w - 1);
            let y0 = clamp_i(sel[1] as int, 0, h - 1);
            let x1 = clamp_i(sel[2] as int, 0, w - 1);
            let y1 = clamp_i(sel[3] as int, 0, h - 1);
            r == if x1 < x0 || y1 < y0 {
                None
            } else {
                Some((x0 as u32, y0 as u32, x1 as u32, y1 as u32))
            }
        }),
        r matches Some((x0, y0, x1, y1)) ==> x0 <= x1 < w && y0 <= y1 < h,
{
    let x0 = clamp_to(sel[0], w) as u32;
    let y0 = clamp_to(sel[1], h) as u32;
    let x1 = clamp_to(sel[2], w) as u32;
    let y1 = clamp_to(sel[3], h) as u32;
    if x1 < x0 || y1 < y0 {
        return None;
    }
    Some((x0, y0, x1, y1))
}

/// The normalized selection of the cells between the corners `(ax, ay)` and
/// `(bx, by)`, each clamped into a `w` by `h` world.
pub fn clamped_cell_rect(ax: i32, ay: i32, bx: i32, by: i32, w: u32, h: u32) -> (sel: [i32; 4])
    requires
        1 <= w <= i32::MAX,
        1 <= h <= i32::MAX,
    ensures
        ({
            let x0 = clamp_i(ax as int, 0, w - 1);
            let y0 = clamp_i(ay as int, 0, h - 1);
            let x1 = clamp_i(bx as int, 0, w - 1);
            let y1 = clamp_i(by as int, 0, h - 1);
            &&& sel[0] == min_i(x0, x1)
            &&& sel[1] == min_i(y0, y1)
            &&& sel[2] == max_i(x0, x1)
            &&& sel[3] == max_i(y0, y1)
        }),
        normalized(sel),
        0 <= sel[0] && sel[2] < w,
        0 <= sel[1] && sel[3] < h,
{
    let x0 = clamp_to(ax, w);
    let y0 = clamp_to(ay, h);
    let x1 = clamp_to(bx, w);
    let y1 = clamp_to(by, h);
    selection_between((x0, y0), (x1, y1))
}

/// The selection of the whole `w` by `h` world; `None` when the world is empty.
pub fn world_selection(w: u32, h: u32) -> (sel: Option<[i32; 4]>)
    requires
        w != 0x8000_0000,
        h != 0x8000_0000,
    ensures
        sel == if w == 0 || h == 0 {
            None
        } else {
            Some([0i32, 0i32, (w as i32 - 1) as i32, (h as i32 - 1) as i32])
        },
{
    if w == 0 || h == 0 {
        return None;
    }
    let wi = #[verifier::truncate] (w as i32);
    let hi = #[verifier::truncate] (h as i32);
    assert(w != 0x8000_0000u32 ==> #[verifier::truncate] (w as i32) != i32::MIN) by (bit_vector);
    assert(h != 0x8000_0000u32 ==> #[verifier::truncate] (h as i32) != i32::MIN) by (bit_vector);
    Some([0, 0, wi - 1, hi - 1])
}

} // verus!
