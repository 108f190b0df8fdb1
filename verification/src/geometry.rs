//! Integer geometry on the cell grid: the cells of a drawn line.
use vstd::prelude::*;

verus! {

/// Absolute value.
pub open spec fn abs(v: int) -> int {
    if v < 0 {
        -v
    } else {
        v
    }
}

/// The direction from `a` toward `b` along one axis (`-1` when equal).
pub open spec fn dir(a: int, b: int) -> int {
    if a < b {
        1
    } else {
        -1
    }
}

/// The cells that Bresenham's algorithm visits from `(x, y)`, with error term
/// `err`, toward `(x1, y1)`, taking at most `fuel` cells.
pub open spec fn line_from(
    x: int,
    y: int,
    err: int,
    x1: int,
    y1: int,
    dx: int,
    dy: int,
    sx: int,
    sy: int,
    fuel: nat,
) -> Seq<(i32, i32)>
    decreases fuel,
{
    if fuel == 0 {
        Seq::empty()
    } else if x == x1 && y == y1 {
        seq![(x as i32, y as i32)]
    } else {
        let e2 = 2 * err;
        let nx = if e2 > -dy {
            x + sx
        } else {
            x
        };
        let err1 = if e2 > -dy {
            err - dy
        } else {
            err
        };
        let ny = if e2 < dx {
            y + sy
        } else {
            y
        };
        let err2 = if e2 < dx {
            err1 + dx
        } else {
            err1
        };
        seq![(x as i32, y as i32)] + line_from(nx, ny, err2, x1, y1, dx, dy, sx, sy, (fuel - 1) as nat)
    }
}

/// The cells of the line from `(x0, y0)` to `(x1, y1)` in Bresenham's algorithm.
pub open spec fn line_spec(x0: int, y0: int, x1: int, y1: int) -> Seq<(i32, i32)> {
    let dx = abs(x1 - x0);
    let dy = abs(y1 - y0);
    line_from(x0, y0, dx - dy, x1, y1, dx, dy, dir(x0, x1), dir(y0, y1), (dx + dy + 1) as nat)
}

/// `q` is one king's move from `p`, moving toward the end point along each axis
/// (`sx`, `sy` are the directions).
pub open spec fn king_step(p: (i32, i32), q: (i32, i32), sx: int, sy: int) -> bool {
    &&& (q.0 - p.0 == 0 || q.0 - p.0 == sx)
    &&& (q.1 - p.1 == 0 || q.1 - p.1 == sy)
    &&& q != p
}

/// A value fits in an `i32`.
pub open spec fn fits_i32(v: int) -> bool {
    i32::MIN <= v <= i32::MAX
}

/// Every step of Bresenham's algorithm from this state keeps its `i32`
/// arithmetic (`2 * err`, `err - dy`, `err + dx`) from overflowing.
pub open spec fn line_fits_from(
    x: int,
    y: int,
    err: int,
    x1: int,
    y1: int,
    dx: int,
    dy: int,
    sx: int,
    sy: int,
    fuel: nat,
) -> bool
    decreases fuel,
{
    if fuel == 0 || (x == x1 && y == y1) {
        true
    } else {
        let e2 = 2 * err;
        let err1 = if e2 > -dy {
            err - dy
        } else {
            err
        };
        let err2 = if e2 < dx {
            err1 + dx
        } else {
            err1
        };
        &&& fits_i32(e2)
        &&& fits_i32(err1)
        &&& fits_i32(err2)
        &&& line_fits_from(
            if e2 > -dy {
                x + sx
            } else {
                x
            },
            if e2 < dx {
                y + sy
            } else {
                y
            },
            err2,
            x1,
            y1,
            dx,
            dy,
            sx,
            sy,
            (fuel - 1) as nat,
        )
    }
}

/// Drawing the line from `(x0, y0)` to `(x1, y1)` keeps all of its `i32`
/// arithmetic in range: the differences and their absolute values, and every
/// step's error term.
pub open spec fn line_fits(x0: i32, y0: i32, x1: i32, y1: i32) -> bool {
    let dx = abs(x1 - x0);
    let dy = abs(y1 - y0);
    &&& fits_i32(x1 - x0) && x1 - x0 != i32::MIN
    &&& fits_i32(y1 - y0) && y1 - y0 != i32::MIN
    &&& line_fits_from(
        x0 as int,
        y0 as int,
        dx - dy,
        x1 as int,
        y1 as int,
        dx,
        dy,
        dir(x0 as int, x1 as int),
        dir(y0 as int, y1 as int),
        (dx + dy + 1) as nat,
    )
}

/// The cells of the straight line from `(x0, y0)` to `(x1, y1)`, both ends
/// included, as Bresenham's algorithm draws it: each cell is one king's move
/// from the previous one, and there is one cell per step along the longer axis.
pub fn line_cells(x0: i32, y0: i32, x1: i32, y1: i32) -> (pts: Vec<(i32, i32)>)
    requires
        line_fits(x0, y0, x1, y1),
    ensures
        pts@ == line_spec(x0 as int, y0 as int, x1 as int, y1 as int),
        pts@.len() == 1 + if abs(x1 - x0) >= abs(y1 - y0) {
            abs(x1 - x0)
        } else {
            abs(y1 - y0)
        },
        pts@[0] == (x0, y0),
        pts@.last() == (x1, y1),
        forall|i: int|
            0 <= i < pts@.len() - 1 ==> king_step(
                #[trigger] pts@[i],
                pts@[i + 1],
                dir(x0 as int, x1 as int),
                dir(y0 as int, y1 as int),
            ),
{
    let mut pts: Vec<(i32, i32)> = Vec::new();
    let dx: i32 = if x1 >= x0 {
        x1 - x0
    } else {
        x0 - x1
    };
    let dy: i32 = if y1 >= y0 {
        y1 - y0
    } else {
        y0 - y1
    };
    let sx: i32 = if x0 < x1 {
        1
    } else {
        -1
    };
    let sy: i32 = if y0 < y1 {
        1
    } else {
        -1
    };
    let mut err: i32 = dx - dy;
    let mut x = x0;
    let mut y = y0;
    let ghost mut a: int = 0;
    let ghost mut b: int = 0;
    let ghost total = line_spec(x0 as int, y0 as int, x1 as int, y1 as int);
    let ghost full: nat = (dx + dy + 1) as nat;
    assert(dx * (1 + 0int) - dy * (1 + 0int) == dx - dy) by (nonlinear_arith);
    while !(x == x1 && y == y1)
        invariant
            0 <= dx <= i32::MAX,
            0 <= dy <= i32::MAX,
            dx == abs(x1 - x0),
            dy == abs(y1 - y0),
            sx == dir(x0 as int, x1 as int),
            sy == dir(y0 as int, y1 as int),
            total == line_spec(x0 as int, y0 as int, x1 as int, y1 as int),
            full == dx + dy + 1,
            0 <= a <= dx,
            0 <= b <= dy,
            x == x0 + sx * a,
            y == y0 + sy * b,
            err == dx * (1 + b) - dy * (1 + a),
            dx > dy ==> 2 * err > -dy || (x == x1 && y == y1),
            dy > dx ==> 2 * err < dx || (x == x1 && y == y1),
            dx == dy ==> a == b,
            dx >= dy ==> a == pts@.len(),
            dy > dx ==> b == pts@.len(),
            a + b >= pts@.len(),
            line_fits_from(
                x as int,
                y as int,
                err as int,
                x1 as int,
                y1 as int,
                dx as int,
                dy as int,
                sx as int,
                sy as int,
                (full - pts@.len()) as nat,
            ),
            pts@ + line_from(
                x as int,
                y as int,
                err as int,
                x1 as int,
                y1 as int,
                dx as int,
                dy as int,
                sx as int,
                sy as int,
                (full - pts@.len()) as nat,
            ) == total,
            pts@.len() > 0 ==> pts@[0] == (x0, y0),
            pts@.len() > 0 ==> king_step(pts@.last(), (x, y), sx as int, sy as int),
            pts@.len() == 0 ==> x == x0 && y == y0,
            forall|i: int|
                0 <= i < pts@.len() - 1 ==> king_step(
                    #[trigger] pts@[i],
                    pts@[i + 1],
                    sx as int,
                    sy as int,
                ),
        decreases (dx - a) + (dy - b),
    {
        let ghost fuel: nat = (full - pts@.len()) as nat;
        proof {
            lemma_line_progress(dx as int, dy as int, a, b, err as int, x == x1 && y == y1);
        }
        let ghost old_pts = pts@;
        let ghost ox = x;
        let ghost oy = y;
        pts.push((x, y));
        let e2 = 2 * err;
        let ghost e = err as int;
        if e2 > -dy {
            err = err - dy;
            x = x + sx;
            proof {
                a = a + 1;
            }
        }
        if e2 < dx {
            err = err + dx;
            y = y + sy;
            proof {
                b = b + 1;
            }
        }
        proof {
            lemma_line_err_update(dx as int, dy as int, a, b, e, err as int, e2 > -dy, e2 < dx);
            assert(pts@ + line_from(
                x as int,
                y as int,
                err as int,
                x1 as int,
                y1 as int,
                dx as int,
                dy as int,
                sx as int,
                sy as int,
                (full - pts@.len()) as nat,
            ) =~= old_pts + line_from(
                ox as int,
                oy as int,
                e,
                x1 as int,
                y1 as int,
                dx as int,
                dy as int,
                sx as int,
                sy as int,
                fuel,
            ));
            assert forall|i: int| 0 <= i < pts@.len() - 1 implies king_step(
                #[trigger] pts@[i],
                pts@[i + 1],
                sx as int,
                sy as int,
            ) by {
                if i < old_pts.len() - 1 {
                    assert(pts@[i] == old_pts[i] && pts@[i + 1] == old_pts[i + 1]);
                }
            }
        }
    }
    proof {
        assert(line_from(
            x as int,
            y as int,
            err as int,
            x1 as int,
            y1 as int,
            dx as int,
            dy as int,
            sx as int,
            sy as int,
            (full - pts@.len()) as nat,
        ) == seq![(x, y)]);
    }
    let ghost before = pts@;
    pts.push((x, y));
    proof {
        assert(pts@ =~= before + seq![(x, y)]);
        assert forall|i: int| 0 <= i < pts@.len() - 1 implies king_step(
            #[trigger] pts@[i],
            pts@[i + 1],
            sx as int,
            sy as int,
        ) by {
            if i < before.len() - 1 {
                assert(pts@[i] == before[i] && pts@[i + 1] == before[i + 1]);
            }
        }
    }
    pts
}

/// Lines no longer than a third of `i32::MAX` along each axis always fit.
pub proof fn lemma_short_lines_fit(x0: i32, y0: i32, x1: i32, y1: i32)
    requires
        abs(x1 - x0) <= 0x2AAA_AAAA,
        abs(y1 - y0) <= 0x2AAA_AAAA,
    ensures
        line_fits(x0, y0, x1, y1),
{
    let dx = abs(x1 - x0);
    let dy = abs(y1 - y0);
    assert(dx * (1 + 0int) - dy * (1 + 0int) == dx - dy) by (nonlinear_arith);
    lemma_line_fits_from(
        x0 as int,
        y0 as int,
        x1 as int,
        y1 as int,
        dx,
        dy,
        dir(x0 as int, x1 as int),
        dir(y0 as int, y1 as int),
        0,
        0,
        (dx + dy + 1) as nat,
    );
}

/// From any state that the algorithm reaches on a short line, the rest of the
/// run fits.
proof fn lemma_line_fits_from(
    x0: int,
    y0: int,
    x1: int,
    y1: int,
    dx: int,
    dy: int,
    sx: int,
    sy: int,
    a: int,
    b: int,
    fuel: nat,
)
    requires
        0 <= dx <= 0x2AAA_AAAA,
        0 <= dy <= 0x2AAA_AAAA,
        dx == abs(x1 - x0),
        dy == abs(y1 - y0),
        sx == dir(x0, x1),
        sy == dir(y0, y1),
        0 <= a <= dx,
        0 <= b <= dy,
        -3 * dy <= 2 * (dx * (1 + b) - dy * (1 + a)) <= 3 * dx,
        dx > dy ==> 2 * (dx * (1 + b) - dy * (1 + a)) > -dy || (a == dx && b == dy),
        dy > dx ==> 2 * (dx * (1 + b) - dy * (1 + a)) < dx || (a == dx && b == dy),
        dx == dy ==> a == b,
    ensures
        line_fits_from(
            x0 + sx * a,
            y0 + sy * b,
            dx * (1 + b) - dy * (1 + a),
            x1,
            y1,
            dx,
            dy,
            sx,
            sy,
            fuel,
        ),
    decreases fuel,
{
    let x = x0 + sx * a;
    let y = y0 + sy * b;
    let err = dx * (1 + b) - dy * (1 + a);
    if fuel > 0 && !(x == x1 && y == y1) {
        assert(!(a == dx && b == dy)) by {
            if a == dx && b == dy {
                assert(x == x1 && y == y1);
            }
        }
        lemma_line_progress(dx, dy, a, b, err, false);
        let e2 = 2 * err;
        let na = if e2 > -dy {
            a + 1
        } else {
            a
        };
        let nb = if e2 < dx {
            b + 1
        } else {
            b
        };
        let err1 = if e2 > -dy {
            err - dy
        } else {
            err
        };
        let err2 = if e2 < dx {
            err1 + dx
        } else {
            err1
        };
        lemma_line_err_update(dx, dy, na, nb, err, err2, e2 > -dy, e2 < dx);
        assert(x0 + sx * na == if e2 > -dy {
            x + sx
        } else {
            x
        }) by (nonlinear_arith)
            requires
                x == x0 + sx * a,
                na == (if e2 > -dy {
                    a + 1
                } else {
                    a
                }),
        ;
        assert(y0 + sy * nb == if e2 < dx {
            y + sy
        } else {
            y
        }) by (nonlinear_arith)
            requires
                y == y0 + sy * b,
                nb == (if e2 < dx {
                    b + 1
                } else {
                    b
                }),
        ;
        lemma_line_fits_from(x0, y0, x1, y1, dx, dy, sx, sy, na, nb, (fuel - 1) as nat);
    }
}

/// Before the end point is reached, a step moves along at least one axis,
/// never past the end point, and along the longer axis every time.
proof fn lemma_line_progress(dx: int, dy: int, a: int, b: int, err: int, done: bool)
    requires
        0 <= a <= dx,
        0 <= b <= dy,
        err == dx * (1 + b) - dy * (1 + a),
        !done,
        !(a == dx && b == dy),
        dx > dy ==> 2 * err > -dy,
        dy > dx ==> 2 * err < dx,
        dx == dy ==> a == b,
    ensures
        a == dx ==> !(2 * err > -dy),
        b == dy ==> !(2 * err < dx),
        2 * err > -dy || 2 * err < dx,
        dx >= dy ==> 2 * err > -dy,
        dy > dx ==> 2 * err < dx,
{
    if a == dx {
        assert(b <= dy - 1);
        assert(dx * (1 + b) <= dx * dy) by (nonlinear_arith)
            requires
                0 <= dx,
                1 + b <= dy,
        ;
        assert(dy * (1 + a) == dy + dy * dx) by (nonlinear_arith)
            requires
                a == dx,
        ;
        assert(dx * dy == dy * dx) by (nonlinear_arith);
    }
    if b == dy {
        assert(a <= dx - 1);
        assert(dy * (1 + a) <= dy * dx) by (nonlinear_arith)
            requires
                0 <= dy,
                1 + a <= dx,
        ;
        assert(dx * (1 + b) == dx + dx * dy) by (nonlinear_arith)
            requires
                b == dy,
        ;
        assert(dx * dy == dy * dx) by (nonlinear_arith);
    }
    if dx == dy {
        assert(err == 0) by (nonlinear_arith)
            requires
                dx == dy,
                a == b,
                err == dx * (1 + b) - dy * (1 + a),
        ;
    }
}

/// The error term keeps its closed form and its bounds across one step.
proof fn lemma_line_err_update(
    dx: int,
    dy: int,
    a: int,
    b: int,
    e: int,
    err: int,
    stepped_x: bool,
    stepped_y: bool,
)
    requires
        0 <= dx,
        0 <= dy,
        e == dx * (1 + (if stepped_y {
            b - 1
        } else {
            b
        })) - dy * (1 + (if stepped_x {
            a - 1
        } else {
            a
        })),
        err == e - (if stepped_x {
            dy
        } else {
            0
        }) + (if stepped_y {
            dx
        } else {
            0
        }),
    ensures
        err == dx * (1 + b) - dy * (1 + a),
{
    let pb = if stepped_y {
        b - 1
    } else {
        b
    };
    let pa = if stepped_x {
        a - 1
    } else {
        a
    };
    assert(dx * (1 + b) == dx * (1 + pb) + (if stepped_y {
        dx
    } else {
        0
    })) by (nonlinear_arith)
        requires
            pb == (if stepped_y {
                b - 1
            } else {
                b
            }),
    ;
    assert(dy * (1 + a) == dy * (1 + pa) + (if stepped_x {
        dy
    } else {
        0
    })) by (nonlinear_arith)
        requires
            pa == (if stepped_x {
                a - 1
            } else {
                a
            }),
    ;
}

} // verus!
