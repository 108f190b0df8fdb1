//! The cell grid as the CPU sees it: a row-major `w` by `h` array of cell
//! ages (0 dead, anything else alive), the edits sent to the GPU, and the
//! integer layout of the GPU work and transfers on it.
use crate::patterns::half_toward_zero;
use crate::rules::Rule;
use vstd::prelude::*;

verus! {

/// One cell write sent to the GPU: cell `(x, y)` is set to `value`
/// (1 alive, 0 dead).
#[derive(Clone, Copy, Debug, PartialEq, Eq, Structural)]
pub struct Edit {
    pub x: u32,
    pub y: u32,
    pub value: u32,
}

/// `(x, y)` is a cell of a `w` by `h` grid.
pub open spec fn on_grid(x: int, y: int, w: int, h: int) -> bool {
    0 <= x < w && 0 <= y < h
}

/// The row-major index of cell `(x, y)` in a grid of width `w`.
pub open spec fn cell_index(x: int, y: int, w: int) -> int {
    y * w + x
}

/// Whether `(x, y)` is a cell of a `w` by `h` grid.
pub fn in_grid(x: i32, y: i32, w: u32, h: u32) -> (b: bool)
    ensures
        b == on_grid(x as int, y as int, w as int, h as int),
{
    x >= 0 && y >= 0 && (x as u32) < w && (y as u32) < h
}

/// The edit that paints (or, with `erase`, clears) cell `(x, y)`; `None` when
/// the cell is off the grid.
pub fn paint_edit(x: i32, y: i32, w: u32, h: u32, erase: bool) -> (e: Option<Edit>)
    ensures
        e == if on_grid(x as int, y as int, w as int, h as int) {
            Some(
                Edit {
                    x: x as u32,
                    y: y as u32,
                    value: if erase {
                        0u32
                    } else {
                        1u32
                    },
                },
            )
        } else {
            None
        },
{
    if in_grid(x, y, w, h) {
        Some(Edit { x: x as u32, y: y as u32, value: if erase { 0 } else { 1 } })
    } else {
        None
    }
}

/// Sets every cell dead.
pub fn clear_cells(state: &mut Vec<u32>)
    ensures
        final(state)@.len() == old(state)@.len(),
        forall|i: int| 0 <= i < final(state)@.len() ==> #[trigger] final(state)@[i] == 0,
{
    let n = state.len();
    let mut i: usize = 0;
    while i < n
        invariant
            i <= n,
            n == state@.len(),
            state@.len() == old(state)@.len(),
            forall|j: int| 0 <= j < i ==> #[trigger] state@[j] == 0,
        decreases n - i,
    {
        state.set(i, 0);
        i = i + 1;
    }
}

/// Some cell of `cells`, moved by `(cx, cy)`, lands on the grid at index `i`.
pub open spec fn stamped(cells: Seq<(i32, i32)>, cx: int, cy: int, w: int, h: int, i: int) -> bool {
    exists|j: int|
        0 <= j < cells.len() && on_grid(cx + cells[j].0, cy + cells[j].1, w, h) && cell_index(
            cx + #[trigger] cells[j].0,
            cy + cells[j].1,
            w,
        ) == i
}

/// Every cell moved to the grid centre `(w / 2, h / 2)` stays within `i32`.
pub open spec fn stamp_fits(cells: Seq<(i32, i32)>, w: int, h: int) -> bool {
    forall|j: int|
        0 <= j < cells.len() ==> i32::MIN <= w / 2 + #[trigger] cells[j].0 <= i32::MAX && i32::MIN
            <= h / 2 + cells[j].1 <= i32::MAX
}

/// Every cell that lands on the grid has an index within the state and within `u32`.
pub open spec fn stamp_in_bounds(cells: Seq<(i32, i32)>, w: int, h: int, len: int) -> bool {
    forall|j: int|
        0 <= j < cells.len() && on_grid(w / 2 + #[trigger] cells[j].0, h / 2 + cells[j].1, w, h)
            ==> cell_index(w / 2 + cells[j].0, h / 2 + cells[j].1, w) < len && cell_index(
            w / 2 + cells[j].0,
            h / 2 + cells[j].1,
            w,
        ) <= u32::MAX
}

/// Makes alive the cells of a pattern placed with its origin at the grid
/// centre `(w / 2, h / 2)`; cells that land off the grid are dropped and every
/// other cell keeps its state.
pub fn stamp_cells(state: &mut Vec<u32>, w: u32, h: u32, cells: &[(i32, i32)])
    requires
        stamp_fits(cells@, w as int, h as int),
        stamp_in_bounds(cells@, w as int, h as int, old(state)@.len() as int),
    ensures
        final(state)@.len() == old(state)@.len(),
        forall|i: int|
            0 <= i < final(state)@.len() ==> #[trigger] final(state)@[i] == if stamped(
                cells@,
                (w / 2) as int,
                (h / 2) as int,
                w as int,
                h as int,
                i,
            ) {
                1
            } else {
                old(state)@[i]
            },
{
    let cx = (w / 2) as i32;
    let cy = (h / 2) as i32;
    let mut k: usize = 0;
    while k < cells.len()
        invariant
            k <= cells.len(),
            cx == w / 2,
            cy == h / 2,
            state@.len() == old(state)@.len(),
            stamp_fits(cells@, w as int, h as int),
            stamp_in_bounds(cells@, w as int, h as int, old(state)@.len() as int),
            forall|i: int|
                0 <= i < state@.len() ==> #[trigger] state@[i] == if stamped(
                    cells@.take(k as int),
                    cx as int,
                    cy as int,
                    w as int,
                    h as int,
                    i,
                ) {
                    1
                } else {
                    old(state)@[i]
                },
        decreases cells.len() - k,
    {
        let (px, py) = cells[k];
        assert(i32::MIN <= w / 2 + cells@[k as int].0 <= i32::MAX);
        let x = cx + px;
        let y = cy + py;
        let ghost before = state@;
        let ghost prefix = cells@.take(k as int);
        let ghost next = cells@.take(k + 1);
        if x >= 0 && y >= 0 && (x as u32) < w && (y as u32) < h {
            assert(cells@[k as int] == (px, py));
            assert(cell_index(x as int, y as int, w as int) < state@.len());
            assert(cell_index(x as int, y as int, w as int) <= u32::MAX);
            assert(0 <= (y as u32) * w <= cell_index(x as int, y as int, w as int)) by (nonlinear_arith)
                requires
                    0 <= x,
                    0 <= y,
                    0 <= w,
            ;
            let i = ((y as u32) * w + (x as u32)) as usize;
            state.set(i, 1);
            assert forall|m: int| 0 <= m < state@.len() implies #[trigger] state@[m] == if stamped(
                next,
                cx as int,
                cy as int,
                w as int,
                h as int,
                m,
            ) {
                1
            } else {
                old(state)@[m]
            } by {
                if m == i {
                    assert(next[k as int] == (px, py));
                    assert(stamped(next, cx as int, cy as int, w as int, h as int, m));
                } else {
                    assert(state@[m] == before[m]);
                    lemma_stamped_extend(cells@, k as int, cx as int, cy as int, w as int, h as int, m);
                }
            }
        } else {
            assert forall|m: int| 0 <= m < state@.len() implies #[trigger] state@[m] == if stamped(
                next,
                cx as int,
                cy as int,
                w as int,
                h as int,
                m,
            ) {
                1
            } else {
                old(state)@[m]
            } by {
                lemma_stamped_extend(cells@, k as int, cx as int, cy as int, w as int, h as int, m);
            }
        }
        k = k + 1;
    }
    assert(cells@.take(cells.len() as int) == cells@);
}

/// Stamping one more cell changes only the index that cell lands on.
proof fn lemma_stamped_extend(
    cells: Seq<(i32, i32)>,
    k: int,
    cx: int,
    cy: int,
    w: int,
    h: int,
    m: int,
)
    requires
        0 <= k < cells.len(),
    ensures
        stamped(cells.take(k + 1), cx, cy, w, h, m) <==> (stamped(cells.take(k), cx, cy, w, h, m)
            || (on_grid(cx + cells[k].0, cy + cells[k].1, w, h) && cell_index(
            cx + cells[k].0,
            cy + cells[k].1,
            w,
        ) == m)),
{
    let next = cells.take(k + 1);
    let prev = cells.take(k);
    if stamped(next, cx, cy, w, h, m) {
        let j = choose|j: int|
            0 <= j < next.len() && on_grid(cx + next[j].0, cy + next[j].1, w, h) && cell_index(
                cx + #[trigger] next[j].0,
                cy + next[j].1,
                w,
            ) == m;
        if j < k {
            assert(prev[j] == next[j]);
        }
    }
    if stamped(prev, cx, cy, w, h, m) {
        let j = choose|j: int|
            0 <= j < prev.len() && on_grid(cx + prev[j].0, cy + prev[j].1, w, h) && cell_index(
                cx + #[trigger] prev[j].0,
                cy + prev[j].1,
                w,
            ) == m;
        assert(next[j] == prev[j]);
    }
    if on_grid(cx + cells[k].0, cy + cells[k].1, w, h) && cell_index(
        cx + cells[k].0,
        cy + cells[k].1,
        w,
    ) == m {
        assert(next[k] == cells[k]);
    }
}

/// How many entries of `s` are non-zero.
pub open spec fn count_alive(s: Seq<u32>) -> nat
    decreases s.len(),
{
    if s.len() == 0 {
        0
    } else {
        count_alive(s.drop_last()) + if s.last() > 0 {
            1nat
        } else {
            0nat
        }
    }
}

/// The population of two stretches of cells is the sum of theirs.
pub proof fn lemma_count_alive_concat(a: Seq<u32>, b: Seq<u32>)
    ensures
        count_alive(a + b) == count_alive(a) + count_alive(b),
    decreases b.len(),
{
    if b.len() == 0 {
        assert(a + b =~= a);
    } else {
        lemma_count_alive_concat(a, b.drop_last());
        assert((a + b).drop_last() =~= a + b.drop_last());
    }
}

/// A single cell counts 1 exactly when it is alive (non-zero).
pub proof fn lemma_count_alive_single(v: u32)
    ensures
        count_alive(seq![v]) == if v > 0 {
            1int
        } else {
            0int
        },
{
    assert(seq![v].drop_last() =~= Seq::<u32>::empty());
    assert(count_alive(Seq::<u32>::empty()) == 0);
    assert(seq![v].last() == v);
}

/// The population is the number of entries that are non-zero, wherever they
/// stand: the length of the non-zero entries kept in order.
pub proof fn lemma_count_alive_is_filter(s: Seq<u32>)
    ensures
        count_alive(s) == s.filter(|v: u32| v > 0).len(),
        count_alive(s) <= s.len(),
    decreases s.len(),
{
    reveal(Seq::filter);
    if s.len() > 0 {
        lemma_count_alive_is_filter(s.drop_last());
    }
}

/// The number of live cells in `data`, as a `u32` (wrapping past `u32::MAX`).
pub fn count_live(data: &[u32]) -> (n: u32)
    ensures
        n == count_alive(data@) as u32,
        n == data@.filter(|v: u32| v > 0).len() as u32,
{
    proof {
        lemma_count_alive_is_filter(data@);
    }
    let mut c: usize = 0;
    let mut i: usize = 0;
    while i < data.len()
        invariant
            i <= data.len(),
            c == count_alive(data@.take(i as int)),
            c <= i,
        decreases data.len() - i,
    {
        assert(data@.take(i + 1).drop_last() == data@.take(i as int));
        if data[i] > 0 {
            c = c + 1;
        }
        i = i + 1;
    }
    assert(data@.take(data.len() as int) == data@);
    #[verifier::truncate]
    (c as u32)
}

/// The `w` by `h` cells of rows that are stored `stride` entries apart,
/// packed row by row.
pub open spec fn unpadded(data: Seq<u32>, w: nat, h: nat, stride: nat) -> Seq<u32> {
    Seq::new(w * h, |i: int| data[(i / w as int) * stride + i % w as int])
}

/// The rows of a padded readback packed without padding: entry `y * w + x` of
/// the result is entry `y * stride + x` of `data`.
pub fn unpad_rows(data: &[u32], w: usize, h: usize, stride: usize) -> (out: Vec<u32>)
    requires
        w * h <= usize::MAX,
        w == 0 || h == 0 || (h - 1) * stride + w <= data@.len(),
    ensures
        out@ == unpadded(data@, w as nat, h as nat, stride as nat),
{
    let mut out: Vec<u32> = Vec::new();
    let mut y: usize = 0;
    while y < h
        invariant
            y <= h,
            w * h <= usize::MAX,
            w == 0 || h == 0 || (h - 1) * stride + w <= data@.len(),
            out@.len() == y * w,
            forall|i: int|
                0 <= i < out@.len() ==> #[trigger] out@[i] == data@[(i / w as int) * stride + i % w as int],
        decreases h - y,
    {
        let mut x: usize = 0;
        while x < w
            invariant
                x <= w,
                y < h,
                w * h <= usize::MAX,
                w == 0 || (h - 1) * stride + w <= data@.len(),
                out@.len() == y * w + x,
                forall|i: int|
                    0 <= i < out@.len() ==> #[trigger] out@[i] == data@[(i / w as int) * stride + i
                        % w as int],
            decreases w - x,
        {
            proof {
                assert(w > 0);
                assert((h - 1) * stride + w <= data@.len());
                assert(y * stride <= (h - 1) * stride) by (nonlinear_arith)
                    requires
                        y < h,
                        0 <= stride,
                ;
                assert(y * w + x < w * h) by (nonlinear_arith)
                    requires
                        x < w,
                        y < h,
                ;
                assert(y * stride + x < data@.len());
                assert(data@.len() == data.len());
                lemma_row_major_div_mod(x as int, y as int, w as int);
            }
            let v = data[y * stride + x];
            let ghost before = out@;
            out.push(v);
            assert forall|i: int|
                0 <= i < out@.len() implies #[trigger] out@[i] == data@[(i / w as int) * stride + i
                % w as int] by {
                if i < before.len() {
                    assert(out@[i] == before[i]);
                }
            }
            x = x + 1;
        }
        assert((y + 1) * w == y * w + w) by (nonlinear_arith);
        y = y + 1;
    }
    assert(h * w == w * h) by (nonlinear_arith);
    assert(out@ =~= unpadded(data@, w as nat, h as nat, stride as nat));
    out
}

/// The row and column of a row-major index.
proof fn lemma_row_major_div_mod(x: int, y: int, w: int)
    requires
        0 <= x < w,
        0 <= y,
    ensures
        (y * w + x) / w == y,
        (y * w + x) % w == x,
{
    vstd::arithmetic::div_mod::lemma_fundamental_div_mod_converse(y * w + x, w, y, x);
}

/// The part of the old grid that is kept when a `old_w` by `old_h` grid is
/// resized to `new_w` by `new_h`: a `width` by `height` block copied from
/// `(src_x, src_y)` in the old grid to `(dst_x, dst_y)` in the new one.
#[derive(Clone, Copy, Debug, PartialEq, Eq, Structural)]
pub struct CopyRegion {
    pub src_x: u32,
    pub src_y: u32,
    pub dst_x: u32,
    pub dst_y: u32,
    pub width: u32,
    pub height: u32,
}

/// The offset of the old content within the new grid along one axis: half the
/// growth, rounded toward zero (negative when shrinking).
pub open spec fn centre_offset(old: int, new: int) -> int {
    half_toward_zero(new - old)
}

/// The copy along one axis: `(src, dst, len)`.
pub open spec fn axis_copy(old: int, new: int) -> (int, int, int) {
    let o = centre_offset(old, new);
    let src = if o < 0 {
        -o
    } else {
        0
    };
    let dst = if o > 0 {
        o
    } else {
        0
    };
    let avail = if old - src > 0 {
        old - src
    } else {
        0
    };
    let len = if avail < new - dst {
        avail
    } else {
        new - dst
    };
    (src, dst, len)
}

/// One axis of `resize_copy`.
fn axis_copy_exec(old: u32, new: u32) -> (r: (u32, u32, u32))
    requires
        old <= i32::MAX,
        new <= i32::MAX,
    ensures
        r.0 == axis_copy(old as int, new as int).0,
        r.1 == axis_copy(old as int, new as int).1,
        r.2 == axis_copy(old as int, new as int).2,
{
    let diff: i64 = new as i64 - old as i64;
    let o: i64 = if diff >= 0 {
        diff / 2
    } else {
        -((-diff) / 2)
    };
    let src: u32 = if o < 0 {
        (-o) as u32
    } else {
        0
    };
    let dst: u32 = if o > 0 {
        o as u32
    } else {
        0
    };
    let avail: u32 = if old > src {
        old - src
    } else {
        0
    };
    let room: u32 = new - dst;
    let len = if avail < room {
        avail
    } else {
        room
    };
    (src, dst, len)
}

/// Where the old content goes when the grid is resized: centred in the new
/// grid, cropped evenly on both sides when the grid shrinks.
pub fn resize_copy(old_w: u32, old_h: u32, new_w: u32, new_h: u32) -> (r: CopyRegion)
    requires
        old_w <= i32::MAX,
        old_h <= i32::MAX,
        new_w <= i32::MAX,
        new_h <= i32::MAX,
    ensures
        (r.src_x as int, r.dst_x as int, r.width as int) == axis_copy(old_w as int, new_w as int),
        (r.src_y as int, r.dst_y as int, r.height as int) == axis_copy(old_h as int, new_h as int),
        r.src_x + r.width <= old_w,
        r.src_y + r.height <= old_h,
        r.dst_x + r.width <= new_w,
        r.dst_y + r.height <= new_h,
        r.dst_x - r.src_x == centre_offset(old_w as int, new_w as int),
        r.dst_y - r.src_y == centre_offset(old_h as int, new_h as int),
{
    let (src_x, dst_x, width) = axis_copy_exec(old_w, new_w);
    let (src_y, dst_y, height) = axis_copy_exec(old_h, new_h);
    CopyRegion { src_x, src_y, dst_x, dst_y, width, height }
}

/// The bytes of one row of `width` 4-byte texels, rounded up to the 256-byte
/// row alignment that GPU buffer copies require.
pub fn padded_row_bytes(width: u32) -> (r: u64)
    requires
        width <= 0x3FFF_FFFF,
    ensures
        r == ((width * 4 + 255) / 256) * 256,
        r % 256 == 0,
        width * 4 <= r < width * 4 + 256,
{
    let row = (width * 4) as u64;
    ((row + 255) / 256) * 256
}

/// The size and transfer layout of a readback of an inclusive cell rectangle.
#[derive(Clone, Copy, Debug, PartialEq, Eq, Structural)]
pub struct ReadbackLayout {
    pub width: u32,
    pub height: u32,
    /// Bytes per row in the readback buffer.
    pub padded_row: u64,
    /// Bytes of the readback buffer.
    pub buffer_size: u64,
}

/// The layout of a readback of the inclusive rectangle `(x0, y0)`-`(x1, y1)`.
pub fn readback_layout(x0: u32, y0: u32, x1: u32, y1: u32) -> (l: ReadbackLayout)
    requires
        x0 <= x1,
        y0 <= y1,
        x1 - x0 + 1 <= 0x3FFF_FFFF,
        y1 - y0 + 1 <= u32::MAX,
    ensures
        l.width == x1 - x0 + 1,
        l.height == y1 - y0 + 1,
        l.padded_row == ((l.width * 4 + 255) / 256) * 256,
        l.buffer_size == l.padded_row * l.height,
{
    let width = x1 - x0 + 1;
    let height = y1 - y0 + 1;
    let padded_row = padded_row_bytes(width);
    assert(padded_row * height <= 0x1_0000_0000 * 0xFFFF_FFFF) by (nonlinear_arith)
        requires
            padded_row <= 0x1_0000_0000,
            height <= u32::MAX,
    ;
    let buffer_size = padded_row * (height as u64);
    ReadbackLayout { width, height, padded_row, buffer_size }
}

/// The number of work groups of `group` invocations that cover `n` items.
pub fn dispatch_groups(n: u32, group: u32) -> (g: u32)
    requires
        group > 0,
        n + group - 1 <= u32::MAX,
    ensures
        g == (n + group - 1) / group as int,
        g * group >= n,
        g * group < n + group,
{
    let g = (n + (group - 1)) / group;
    assert(g * group >= n && g * group < n + group) by (nonlinear_arith)
        requires
            group > 0,
            g == (n + group - 1) / group as int,
    ;
    g
}

/// The uniform block that the simulation shader reads: birth mask, survival
/// mask, 1 when the edges wrap around (else 0), and padding.
pub fn rule_params(rule: Rule, wrap: bool) -> (p: [u32; 4])
    ensures
        p@ == seq![rule.birth, rule.survive, if wrap { 1u32 } else { 0u32 }, 0u32],
{
    let w: u32 = if wrap {
        1
    } else {
        0
    };
    let p = [rule.birth, rule.survive, w, 0];
    assert(p@ =~= seq![rule.birth, rule.survive, w, 0u32]);
    p
}

/// Which of the two state buffers holds the current state after `steps`
/// generations, the buffers trading places each generation.
pub fn current_after_steps(current_is_a: bool, steps: u32) -> (a: bool)
    ensures
        a == (if steps % 2 == 0 {
            current_is_a
        } else {
            !current_is_a
        }),
{
    if steps % 2 == 0 {
        current_is_a
    } else {
        !current_is_a
    }
}

/// How the world grows to fill a `w` by `h` view: the new size and how far the
/// old content shifts to stay centred.
#[derive(Clone, Copy, Debug, PartialEq, Eq, Structural)]
pub struct Growth {
    pub width: u32,
    pub height: u32,
    pub shift_x: i64,
    pub shift_y: i64,
}

/// The growth of a `gw` by `gh` world to cover a `w` by `h` view; `None`
/// when it already covers it. The world only grows, never shrinks.
pub fn grow_world(gw: u32, gh: u32, w: u32, h: u32) -> (g: Option<Growth>)
    ensures
        g == if w > gw || h > gh {
            let nw = if w > gw {
                w
            } else {
                gw
            };
            let nh = if h > gh {
                h
            } else {
                gh
            };
            Some(
                Growth {
                    width: nw,
                    height: nh,
                    shift_x: ((nw - gw) / 2) as i64,
                    shift_y: ((nh - gh) / 2) as i64,
                },
            )
        } else {
            None
        },
        g matches Some(gr) ==> gr.width >= gw && gr.height >= gh && gr.width >= w && gr.height
            >= h,
{
    if w > gw || h > gh {
        let nw = if w > gw {
            w
        } else {
            gw
        };
        let nh = if h > gh {
            h
        } else {
            gh
        };
        let shift_x = (nw as i64 - gw as i64) / 2;
        let shift_y = (nh as i64 - gh as i64) / 2;
        Some(Growth { width: nw, height: nh, shift_x, shift_y })
    } else {
        None
    }
}

} // verus!
