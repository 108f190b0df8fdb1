//! Start patterns: lists of live cells, read from coordinates or from RLE text.
use crate::controls::{decimal_text, lemma_decimal_text};
use crate::text::{chars_of, digit_of, is_digit, is_white_space, is_whitespace};
use vstd::prelude::*;

verus! {

/// A pattern: a named list of live `(x, y)` cells with a bounding size.
#[derive(Clone, Debug, Default)]
pub struct Pattern {
    pub name: String,
    pub cells: Vec<(i32, i32)>,
    pub width: i32,
    pub height: i32,
}

/// The largest `x + 1` over the cells, or 0 when there are none.
pub open spec fn extent_x(cells: Seq<(i32, i32)>) -> int
    decreases cells.len(),
{
    if cells.len() == 0 {
        0
    } else if cells.len() == 1 {
        cells[0].0 + 1
    } else {
        let rest = extent_x(cells.drop_last());
        let here = cells.last().0 + 1;
        if here > rest {
            here
        } else {
            rest
        }
    }
}

/// The largest `y + 1` over the cells, or 0 when there are none.
pub open spec fn extent_y(cells: Seq<(i32, i32)>) -> int
    decreases cells.len(),
{
    if cells.len() == 0 {
        0
    } else if cells.len() == 1 {
        cells[0].1 + 1
    } else {
        let rest = extent_y(cells.drop_last());
        let here = cells.last().1 + 1;
        if here > rest {
            here
        } else {
            rest
        }
    }
}

/// `extent_x` is the largest `x + 1`: every cell stays below it and some cell
/// reaches it; `extent_y` likewise with `y + 1`. Both are 0 for no cells.
pub proof fn lemma_extent_is_max(cells: Seq<(i32, i32)>)
    ensures
        cells.len() == 0 ==> extent_x(cells) == 0 && extent_y(cells) == 0,
        forall|i: int| 0 <= i < cells.len() ==> #[trigger] cells[i].0 + 1 <= extent_x(cells),
        forall|i: int| 0 <= i < cells.len() ==> #[trigger] cells[i].1 + 1 <= extent_y(cells),
        cells.len() > 0 ==> exists|i: int| 0 <= i < cells.len() && #[trigger] cells[i].0 + 1 == extent_x(cells),
        cells.len() > 0 ==> exists|i: int| 0 <= i < cells.len() && #[trigger] cells[i].1 + 1 == extent_y(cells),
    decreases cells.len(),
{
    if cells.len() > 1 {
        let init = cells.drop_last();
        lemma_extent_is_max(init);
        let k = cells.len() - 1;
        assert forall|i: int| 0 <= i < cells.len() implies #[trigger] cells[i].0 + 1 <= extent_x(
            cells,
        ) by {
            if i < k {
                assert(cells[i] == init[i]);
            }
        }
        assert forall|i: int| 0 <= i < cells.len() implies #[trigger] cells[i].1 + 1 <= extent_y(
            cells,
        ) by {
            if i < k {
                assert(cells[i] == init[i]);
            }
        }
        let jx = choose|i: int| 0 <= i < init.len() && #[trigger] init[i].0 + 1 == extent_x(init);
        let jy = choose|i: int| 0 <= i < init.len() && #[trigger] init[i].1 + 1 == extent_y(init);
        assert(cells[jx] == init[jx]);
        assert(cells[jy] == init[jy]);
        if cells[k].0 + 1 > extent_x(init) {
            assert(cells[k].0 + 1 == extent_x(cells));
        } else {
            assert(cells[jx].0 + 1 == extent_x(cells));
        }
        if cells[k].1 + 1 > extent_y(init) {
            assert(cells[k].1 + 1 == extent_y(cells));
        } else {
            assert(cells[jy].1 + 1 == extent_y(cells));
        }
    } else if cells.len() == 1 {
        assert(cells[0].0 + 1 == extent_x(cells));
        assert(cells[0].1 + 1 == extent_y(cells));
    }
}

/// The smallest `x` over the cells, or 0 when there are none.
pub open spec fn min_x(cells: Seq<(i32, i32)>) -> int
    decreases cells.len(),
{
    if cells.len() == 0 {
        0
    } else if cells.len() == 1 {
        cells[0].0 as int
    } else {
        let rest = min_x(cells.drop_last());
        if (cells.last().0 as int) < rest {
            cells.last().0 as int
        } else {
            rest
        }
    }
}

/// The smallest `y` over the cells, or 0 when there are none.
pub open spec fn min_y(cells: Seq<(i32, i32)>) -> int
    decreases cells.len(),
{
    if cells.len() == 0 {
        0
    } else if cells.len() == 1 {
        cells[0].1 as int
    } else {
        let rest = min_y(cells.drop_last());
        if (cells.last().1 as int) < rest {
            cells.last().1 as int
        } else {
            rest
        }
    }
}

/// No cell sits at the largest `i32` coordinate, so `x + 1` and `y + 1` fit.
pub open spec fn below_max(cells: Seq<(i32, i32)>) -> bool {
    forall|i: int| 0 <= i < cells.len() ==> #[trigger] cells[i].0 < i32::MAX && cells[i].1 < i32::MAX
}

/// A value fits in an `i32`.
pub open spec fn fits_i32(v: int) -> bool {
    i32::MIN <= v <= i32::MAX
}

/// Every cell moved by `(dx, dy)` stays within `i32`.
pub open spec fn can_translate(cells: Seq<(i32, i32)>, dx: int, dy: int) -> bool {
    forall|i: int|
        #![trigger cells[i]]
        0 <= i < cells.len() ==> fits_i32(cells[i].0 + dx) && fits_i32(cells[i].1 + dy)
}

/// The cells moved by `(dx, dy)`.
pub open spec fn translated(cells: Seq<(i32, i32)>, dx: int, dy: int) -> Seq<(i32, i32)> {
    cells.map_values(|c: (i32, i32)| ((c.0 + dx) as i32, (c.1 + dy) as i32))
}

/// Integer division by two, rounding toward zero as Rust's `/` does.
pub open spec fn half_toward_zero(v: int) -> int {
    if v >= 0 {
        v / 2
    } else {
        -((-v) / 2)
    }
}

/// The shift that `Pattern::centered` applies along one axis.
pub open spec fn centering_shift(min: int, size: int) -> int {
    -min - half_toward_zero(size)
}

impl Pattern {
    /// A pattern of the given cells; its size is the largest `x + 1` and `y + 1`.
    pub fn new(name: &str, cells: &[(i32, i32)]) -> (p: Self)
        requires
            below_max(cells@),
        ensures
            p.name@ == name@,
            p.cells@ == cells@,
            p.width == extent_x(cells@),
            p.height == extent_y(cells@),
            cells@.len() == 0 ==> p.width == 0 && p.height == 0,
            forall|i: int| 0 <= i < cells@.len() ==> #[trigger] cells@[i].0 + 1 <= p.width,
            forall|i: int| 0 <= i < cells@.len() ==> #[trigger] cells@[i].1 + 1 <= p.height,
            cells@.len() > 0 ==> exists|i: int| 0 <= i < cells@.len() && #[trigger] cells@[i].0 + 1 == p.width,
            cells@.len() > 0 ==> exists|i: int| 0 <= i < cells@.len() && #[trigger] cells@[i].1 + 1 == p.height,
    {
        proof {
            lemma_extent_is_max(cells@);
        }
        let mut width: i32 = 0;
        let mut height: i32 = 0;
        let mut v: Vec<(i32, i32)> = Vec::new();
        let mut i: usize = 0;
        while i < cells.len()
            invariant
                i <= cells.len(),
                below_max(cells@),
                v@ == cells@.take(i as int),
                width == extent_x(cells@.take(i as int)),
                height == extent_y(cells@.take(i as int)),
            decreases cells.len() - i,
        {
            let c = cells[i];
            assert(cells@.take(i + 1).drop_last() == cells@.take(i as int));
            assert(c.0 < i32::MAX && c.1 < i32::MAX);
            let wx = c.0 + 1;
            let hy = c.1 + 1;
            if i == 0 || wx > width {
                width = wx;
            }
            if i == 0 || hy > height {
                height = hy;
            }
            v.push(c);
            i = i + 1;
        }
        assert(cells@.take(cells.len() as int) == cells@);
        Pattern { name: name.to_owned(), cells: v, width, height }
    }

    /// The same pattern with every cell moved by `(dx, dy)`.
    pub fn translate(&self, dx: i32, dy: i32) -> (p: Self)
        requires
            can_translate(self.cells@, dx as int, dy as int),
        ensures
            p.name@ == self.name@,
            p.cells@ == translated(self.cells@, dx as int, dy as int),
            p.width == self.width,
            p.height == self.height,
    {
        let mut v: Vec<(i32, i32)> = Vec::new();
        let mut i: usize = 0;
        while i < self.cells.len()
            invariant
                i <= self.cells.len(),
                can_translate(self.cells@, dx as int, dy as int),
                v@ == translated(self.cells@.take(i as int), dx as int, dy as int),
            decreases self.cells.len() - i,
        {
            let c = self.cells[i];
            assert(fits_i32(self.cells@[i as int].0 + dx) && fits_i32(self.cells@[i as int].1 + dy));
            v.push((c.0 + dx, c.1 + dy));
            i = i + 1;
            assert(translated(self.cells@.take(i as int), dx as int, dy as int) =~= translated(
                self.cells@.take(i - 1),
                dx as int,
                dy as int,
            ).push(((c.0 + dx) as i32, (c.1 + dy) as i32)));
        }
        assert(self.cells@.take(self.cells.len() as int) == self.cells@);
        Pattern { name: self.name.clone(), cells: v, width: self.width, height: self.height }
    }

    /// The smallest coordinates over the cells, or `(0, 0)` when there are none.
    fn min_corner(&self) -> (m: (i32, i32))
        ensures
            m.0 == min_x(self.cells@),
            m.1 == min_y(self.cells@),
    {
        let mut mx: i32 = 0;
        let mut my: i32 = 0;
        let mut i: usize = 0;
        while i < self.cells.len()
            invariant
                i <= self.cells.len(),
                mx == min_x(self.cells@.take(i as int)),
                my == min_y(self.cells@.take(i as int)),
            decreases self.cells.len() - i,
        {
            let c = self.cells[i];
            assert(self.cells@.take(i + 1).drop_last() == self.cells@.take(i as int));
            if i == 0 || c.0 < mx {
                mx = c.0;
            }
            if i == 0 || c.1 < my {
                my = c.1;
            }
            i = i + 1;
        }
        assert(self.cells@.take(self.cells.len() as int) == self.cells@);
        (mx, my)
    }

    /// The pattern moved so that its bounding box is centred on the origin: the
    /// smallest cell moves to `(-width / 2, -height / 2)`.
    pub fn centered(&self) -> (p: Self)
        requires
            min_x(self.cells@) > i32::MIN,
            min_y(self.cells@) > i32::MIN,
            fits_i32(centering_shift(min_x(self.cells@), self.width as int)),
            fits_i32(centering_shift(min_y(self.cells@), self.height as int)),
            can_translate(
                self.cells@,
                centering_shift(min_x(self.cells@), self.width as int),
                centering_shift(min_y(self.cells@), self.height as int),
            ),
        ensures
            p.name@ == self.name@,
            p.cells@ == translated(
                self.cells@,
                centering_shift(min_x(self.cells@), self.width as int),
                centering_shift(min_y(self.cells@), self.height as int),
            ),
            p.width == self.width,
            p.height == self.height,
    {
        let (mx, my) = self.min_corner();
        let hw: i64 = if self.width >= 0 {
            self.width as i64 / 2
        } else {
            -((-(self.width as i64)) / 2)
        };
        let hh: i64 = if self.height >= 0 {
            self.height as i64 / 2
        } else {
            -((-(self.height as i64)) / 2)
        };
        let dx = (-(mx as i64) - hw) as i32;
        let dy = (-(my as i64) - hh) as i32;
        self.translate(dx, dy)
    }
}

/// Moving a pattern and moving it back gives the cells it started with.
pub proof fn lemma_translate_back(cells: Seq<(i32, i32)>, dx: int, dy: int)
    requires
        can_translate(cells, dx, dy),
    ensures
        can_translate(translated(cells, dx, dy), -dx, -dy),
        translated(translated(cells, dx, dy), -dx, -dy) == cells,
{
    let t = translated(cells, dx, dy);
    assert(t.len() == cells.len());
    assert forall|i: int| 0 <= i < t.len() implies fits_i32(#[trigger] t[i].0 + -dx) && fits_i32(
        t[i].1 + -dy,
    ) by {
        assert(0 <= i < cells.len());
        assert(fits_i32(cells[i].0 + dx) && fits_i32(cells[i].1 + dy));
        assert(t[i] == ((cells[i].0 + dx) as i32, (cells[i].1 + dy) as i32));
    }
    assert forall|i: int| 0 <= i < cells.len() implies translated(t, -dx, -dy)[i] == cells[i] by {
        assert(fits_i32(cells[i].0 + dx) && fits_i32(cells[i].1 + dy));
    }
    assert(translated(t, -dx, -dy) =~= cells);
}

/// Moving the cells moves their smallest coordinates by the same amount.
pub proof fn lemma_min_translated(cells: Seq<(i32, i32)>, dx: int, dy: int)
    requires
        cells.len() > 0,
        can_translate(cells, dx, dy),
    ensures
        min_x(translated(cells, dx, dy)) == min_x(cells) + dx,
        min_y(translated(cells, dx, dy)) == min_y(cells) + dy,
    decreases cells.len(),
{
    let t = translated(cells, dx, dy);
    assert(fits_i32(cells[0].0 + dx) && fits_i32(cells[0].1 + dy));
    if cells.len() > 1 {
        let init = cells.drop_last();
        assert forall|i: int| 0 <= i < init.len() implies fits_i32(#[trigger] init[i].0 + dx)
            && fits_i32(init[i].1 + dy) by {
            assert(init[i] == cells[i]);
        }
        lemma_min_translated(init, dx, dy);
        assert(t.drop_last() =~= translated(init, dx, dy));
        let k = cells.len() - 1;
        assert(fits_i32(cells[k].0 + dx) && fits_i32(cells[k].1 + dy));
    }
}

/// A centred pattern's smallest cell sits at `(-width / 2, -height / 2)`
/// (rounding toward zero), so its bounding box is centred on the origin.
pub proof fn lemma_centered_corner(p: Pattern)
    requires
        p.cells@.len() > 0,
        can_translate(
            p.cells@,
            centering_shift(min_x(p.cells@), p.width as int),
            centering_shift(min_y(p.cells@), p.height as int),
        ),
    ensures
        min_x(
            translated(
                p.cells@,
                centering_shift(min_x(p.cells@), p.width as int),
                centering_shift(min_y(p.cells@), p.height as int),
            ),
        ) == -half_toward_zero(p.width as int),
        min_y(
            translated(
                p.cells@,
                centering_shift(min_x(p.cells@), p.width as int),
                centering_shift(min_y(p.cells@), p.height as int),
            ),
        ) == -half_toward_zero(p.height as int),
{
    lemma_min_translated(
        p.cells@,
        centering_shift(min_x(p.cells@), p.width as int),
        centering_shift(min_y(p.cells@), p.height as int),
    );
}

/// Where the RLE reader stands within the current line.
#[derive(Clone, Copy, Debug, PartialEq, Eq, Structural)]
pub enum LineMode {
    /// Only white space has been read on this line so far.
    Start,
    /// The line holds pattern data, which is being read.
    Body,
    /// The rest of the line is ignored: it is a `#` comment line, or `!` ended it.
    Skip,
}

/// The state of the RLE reader after some prefix of the text.
pub struct RleState {
    /// The live cells placed so far.
    pub cells: Seq<(i32, i32)>,
    /// The column of the next cell.
    pub x: int,
    /// The row of the next cell.
    pub y: int,
    /// The digits of the pending run count.
    pub buf: Seq<char>,
    pub mode: LineMode,
}

/// The value of a string of decimal digits.
pub open spec fn decimal_value(ds: Seq<char>) -> int
    decreases ds.len(),
{
    if ds.len() == 0 {
        0
    } else {
        decimal_value(ds.drop_last()) * 10 + digit_of(ds.last())
    }
}

/// The run count that pending digits stand for: their value when they read as
/// an `i32`, and 1 when there are none or their value does not fit.
pub open spec fn run_count(buf: Seq<char>) -> int {
    if buf.len() > 0 && decimal_value(buf) <= i32::MAX {
        decimal_value(buf)
    } else {
        1
    }
}

/// The reader state before any text.
pub open spec fn rle_start() -> RleState {
    RleState { cells: Seq::empty(), x: 0, y: 0, buf: Seq::empty(), mode: LineMode::Start }
}

/// Reads one character of pattern data: a digit extends the run count, `b`
/// skips dead cells, `o` places live cells, `$` ends rows, `!` ends the line,
/// anything else is ignored.
pub open spec fn rle_data(st: RleState, c: char) -> RleState {
    let n = run_count(st.buf);
    if is_digit(c) {
        RleState { buf: st.buf.push(c), ..st }
    } else if c == 'b' {
        RleState { x: st.x + n, buf: Seq::empty(), ..st }
    } else if c == 'o' {
        RleState {
            cells: st.cells + Seq::new(n as nat, |k: int| ((st.x + k) as i32, st.y as i32)),
            x: st.x + n,
            buf: Seq::empty(),
            ..st
        }
    } else if c == '$' {
        RleState { x: 0, y: st.y + n, buf: Seq::empty(), ..st }
    } else if c == '!' {
        RleState { mode: LineMode::Skip, ..st }
    } else {
        st
    }
}

/// Whether `c` is read as pattern data in state `st`.
pub open spec fn is_data(st: RleState, c: char) -> bool {
    &&& c != '\n'
    &&& match st.mode {
        LineMode::Body => true,
        LineMode::Start => !is_white_space(c) && c != '#',
        LineMode::Skip => false,
    }
}

/// Reads one character of RLE text. A line break starts a new line; a line
/// whose first non-blank character is `#` is a comment.
pub open spec fn rle_step(st: RleState, c: char) -> RleState {
    if c == '\n' {
        RleState { mode: LineMode::Start, ..st }
    } else if is_data(st, c) {
        rle_data(RleState { mode: LineMode::Body, ..st }, c)
    } else if st.mode == LineMode::Start && c == '#' {
        RleState { mode: LineMode::Skip, ..st }
    } else {
        st
    }
}

/// The reader state after the first `n` characters of `s`.
pub open spec fn rle_run(s: Seq<char>, n: nat) -> RleState
    decreases n,
{
    if n == 0 {
        rle_start()
    } else {
        rle_step(rle_run(s, (n - 1) as nat), s[n - 1])
    }
}

/// The step on `c` keeps the column and row within `i32`.
pub open spec fn rle_step_fits(st: RleState, c: char) -> bool {
    is_data(st, c) ==> {
        &&& (c == 'b' || c == 'o') ==> st.x + run_count(st.buf) <= i32::MAX
        &&& c == '$' ==> st.y + run_count(st.buf) <= i32::MAX
    }
}

/// Reading the first `n` characters of `s` keeps every column and row within
/// `i32` (otherwise the reader's arithmetic would overflow).
pub open spec fn rle_fits(s: Seq<char>, n: nat) -> bool
    decreases n,
{
    n == 0 || (rle_fits(s, (n - 1) as nat) && rle_step_fits(rle_run(s, (n - 1) as nat), s[n - 1]))
}

/// The live cells that an RLE text describes.
pub open spec fn rle_cells(s: Seq<char>) -> Seq<(i32, i32)> {
    rle_run(s, s.len()).cells
}

/// The pending digits are digits, the column and row are in range, and the
/// count never goes negative.
pub open spec fn rle_state_ok(st: RleState) -> bool {
    &&& 0 <= st.x <= i32::MAX
    &&& 0 <= st.y <= i32::MAX
    &&& forall|i: int| 0 <= i < st.buf.len() ==> #[trigger] is_digit(st.buf[i])
}

/// Digits have a non-negative value.
pub proof fn lemma_decimal_value_nonneg(ds: Seq<char>)
    requires
        forall|i: int| 0 <= i < ds.len() ==> #[trigger] is_digit(ds[i]),
    ensures
        decimal_value(ds) >= 0,
    decreases ds.len(),
{
    if ds.len() > 0 {
        assert(is_digit(ds[ds.len() - 1]));
        lemma_decimal_value_nonneg(ds.drop_last());
    }
}

/// While the text fits, every state of the reader is in range.
pub proof fn lemma_rle_run_ok(s: Seq<char>, n: nat)
    requires
        n <= s.len(),
        rle_fits(s, n),
    ensures
        rle_state_ok(rle_run(s, n)),
    decreases n,
{
    if n > 0 {
        let m = (n - 1) as nat;
        lemma_rle_run_ok(s, m);
        let st = rle_run(s, m);
        lemma_decimal_value_nonneg(st.buf);
        let next = rle_run(s, n);
        if is_digit(s[m as int]) && is_data(st, s[m as int]) {
            assert forall|i: int| 0 <= i < next.buf.len() implies #[trigger] is_digit(next.buf[i]) by {
                if i < st.buf.len() {
                    assert(next.buf[i] == st.buf[i]);
                }
            }
        }
    }
}

/// Once the reader is back in its start state, what follows is read as if it
/// began the text.
pub proof fn lemma_rle_restart(t: Seq<char>, m: nat, s: Seq<char>, k: nat)
    requires
        rle_run(t, m) == rle_start(),
        m + s.len() == t.len(),
        t.skip(m as int) == s,
        k <= s.len(),
    ensures
        rle_run(t, m + k) == rle_run(s, k),
    decreases k,
{
    if k > 0 {
        lemma_rle_restart(t, m, s, (k - 1) as nat);
        assert(t[m + k - 1] == s[k - 1]);
    }
}

/// A comment line (`#`, then anything but a line break, then a line break)
/// adds no cells: the text after it reads the same as on its own.
pub proof fn lemma_comment_line_ignored(c: Seq<char>, s: Seq<char>)
    requires
        forall|i: int| 0 <= i < c.len() ==> c[i] != '\n',
    ensures
        rle_cells(seq!['#'] + c + seq!['\n'] + s) == rle_cells(s),
{
    let t = seq!['#'] + c + seq!['\n'] + s;
    let skip = RleState { mode: LineMode::Skip, ..rle_start() };
    assert(t[0] == '#');
    assert(rle_run(t, 0) == rle_start());
    assert(rle_run(t, 1) == skip);
    lemma_comment_body(t, c, c.len());
    let m = c.len() + 2;
    assert(t[m - 1] == '\n');
    assert(rle_run(t, m as nat) == rle_start());
    assert(t.skip(m as int) =~= s);
    lemma_rle_restart(t, m as nat, s, s.len());
}

/// Inside a comment line the reader stays in the skipping state.
proof fn lemma_comment_body(t: Seq<char>, c: Seq<char>, k: nat)
    requires
        forall|i: int| 0 <= i < c.len() ==> c[i] != '\n',
        t.len() >= c.len() + 1,
        t[0] == '#',
        forall|i: int| 0 <= i < c.len() ==> t[i + 1] == c[i],
        k <= c.len(),
    ensures
        rle_run(t, k + 1) == (RleState { mode: LineMode::Skip, ..rle_start() }),
    decreases k,
{
    assert(rle_run(t, 0) == rle_start());
    if k > 0 {
        lemma_comment_body(t, c, (k - 1) as nat);
        assert(t[k as int] == c[k - 1]);
        assert(c[k - 1] != '\n');
    }
}

/// The reader's state depends only on the characters read so far.
pub proof fn lemma_rle_prefix(t: Seq<char>, s: Seq<char>, k: nat)
    requires
        k <= s.len(),
        k <= t.len(),
        forall|i: int| 0 <= i < k ==> t[i] == s[i],
    ensures
        rle_run(t, k) == rle_run(s, k),
    decreases k,
{
    if k > 0 {
        lemma_rle_prefix(t, s, (k - 1) as nat);
    }
}

/// Reading digits with no count pending, outside a comment, only collects them.
proof fn lemma_rle_digits(t: Seq<char>, m: nat, d: Seq<char>, j: nat)
    requires
        rle_run(t, m).buf.len() == 0,
        rle_run(t, m).mode != LineMode::Skip,
        forall|i: int| 0 <= i < d.len() ==> #[trigger] is_digit(d[i]),
        forall|i: int| 0 <= i < d.len() ==> t[m + i] == d[i],
        m + d.len() <= t.len(),
        j <= d.len(),
    ensures
        ({
            let st = rle_run(t, m);
            rle_run(t, m + j) == (RleState {
                buf: d.take(j as int),
                mode: if j == 0 {
                    st.mode
                } else {
                    LineMode::Body
                },
                ..st
            })
        }),
    decreases j,
{
    let st = rle_run(t, m);
    if j == 0 {
        assert(d.take(0) =~= st.buf);
    } else {
        lemma_rle_digits(t, m, d, (j - 1) as nat);
        let c = d[j - 1];
        assert(is_digit(c));
        assert(t[m + j - 1] == c);
        assert(d.take(j - 1).push(c) =~= d.take(j as int));
    }
}

/// A run count is applied in full whenever its digits read as an `i32`, and
/// counts as 1 otherwise: after any text that leaves no count pending and is
/// not in a comment, the numeral of `n` followed by `b` moves the column on
/// by the count, followed by `o` places that many live cells in a row from
/// the current cell, and followed by `$` moves the row on by the count and
/// back to column 0.
pub proof fn lemma_run_count_applied(s: Seq<char>, n: nat, c: char)
    requires
        c == 'b' || c == 'o' || c == '$',
        rle_run(s, s.len()).buf.len() == 0,
        rle_run(s, s.len()).mode != LineMode::Skip,
    ensures
        ({
            let t = s + decimal_text(n) + seq![c];
            let before = rle_run(s, s.len());
            let after = rle_run(t, t.len());
            let count: int = if n <= i32::MAX {
                n as int
            } else {
                1
            };
            &&& after.buf.len() == 0
            &&& c == 'b' ==> after.cells == before.cells && after.x == before.x + count && after.y
                == before.y
            &&& c == 'o' ==> after.cells.len() == before.cells.len() + count && after.cells.take(
                before.cells.len() as int,
            ) == before.cells && (forall|k: int|
                0 <= k < count ==> #[trigger] after.cells[before.cells.len() + k] == ((before.x
                    + k) as i32, before.y as i32)) && after.x == before.x + count && after.y
                == before.y
            &&& c == '$' ==> after.cells == before.cells && after.x == 0 && after.y == before.y
                + count
        }),
{
    let d = decimal_text(n);
    lemma_decimal_text(n);
    let t = s + d + seq![c];
    let m = s.len();
    assert forall|i: int| 0 <= i < m implies t[i] == s[i] by {}
    lemma_rle_prefix(t, s, m);
    assert forall|i: int| 0 <= i < d.len() implies t[m + i] == d[i] by {}
    lemma_rle_digits(t, m, d, d.len());
    assert(d.take(d.len() as int) =~= d);
    let st = rle_run(t, (m + d.len()) as nat);
    assert(st.buf == d);
    assert(st.mode == LineMode::Body);
    assert(t[(m + d.len()) as int] == c);
    assert(t.len() == m + d.len() + 1);
    assert(run_count(d) == if n <= i32::MAX {
        n as int
    } else {
        1
    });
}

/// The pending run count, capped just above `i32::MAX`.
pub open spec fn capped(v: int) -> int {
    if v > 0x8000_0000 {
        0x8000_0000
    } else {
        v
    }
}

impl Pattern {
    /// A pattern read from RLE text (the run-length encoding that Life programs
    /// use: `b` dead, `o` live, `$` end of row, `!` end, each optionally led by
    /// a run count). Lines whose first non-blank character is `#` are comments.
    /// The size is given, not computed.
    pub fn parse_rle(name: &str, rle: &str, width: i32, height: i32) -> (p: Self)
        requires
            rle_fits(rle@, rle@.len()),
        ensures
            p.name@ == name@,
            p.cells@ == rle_cells(rle@),
            p.width == width,
            p.height == height,
    {
        let cs = chars_of(rle);
        let mut cells: Vec<(i32, i32)> = Vec::new();
        let mut x: i32 = 0;
        let mut y: i32 = 0;
        let mut has_digits = false;
        let mut value: u32 = 0;
        let mut mode = LineMode::Start;
        let mut i: usize = 0;
        while i < cs.len()
            invariant
                i <= cs.len(),
                cs@ == rle@,
                rle_fits(rle@, rle@.len()),
                ({
                    let st = rle_run(rle@, i as nat);
                    &&& cells@ == st.cells
                    &&& x == st.x
                    &&& y == st.y
                    &&& mode == st.mode
                    &&& has_digits == (st.buf.len() > 0)
                    &&& value == capped(decimal_value(st.buf))
                }),
            decreases cs.len() - i,
        {
            proof {
                lemma_fits_prefix(rle@, rle@.len(), (i + 1) as nat);
                lemma_rle_run_ok(rle@, i as nat);
                lemma_decimal_value_nonneg(rle_run(rle@, i as nat).buf);
            }
            let ghost st = rle_run(rle@, i as nat);
            let c = cs[i];
            let count: i32 = if has_digits && value <= 0x7fff_ffff {
                value as i32
            } else {
                1
            };
            assert(count == run_count(st.buf));
            if c == '\n' {
                mode = LineMode::Start;
            } else {
                let data = match mode {
                    LineMode::Body => true,
                    LineMode::Start => !is_whitespace(c) && c != '#',
                    LineMode::Skip => false,
                };
                if data {
                    mode = LineMode::Body;
                    if '0' <= c && c <= '9' {
                        let d = (c as u32 - '0' as u32);
                        assert(st.buf.push(c).drop_last() == st.buf);
                        if value >= 0x8000_0000 {
                            value = 0x8000_0000;
                        } else {
                            let t: u64 = value as u64 * 10 + d as u64;
                            value = if t > 0x8000_0000 {
                                0x8000_0000
                            } else {
                                t as u32
                            };
                        }
                        has_digits = true;
                    } else if c == 'b' {
                        x = x + count;
                        has_digits = false;
                        value = 0;
                    } else if c == 'o' {
                        let ghost before = cells@;
                        let mut k: i32 = 0;
                        while k < count
                            invariant
                                0 <= k <= count,
                                st.x + count <= i32::MAX,
                                x == st.x + k,
                                cells@ == before + Seq::new(
                                    k as nat,
                                    |j: int| ((st.x + j) as i32, st.y as i32),
                                ),
                                y == st.y,
                            decreases count - k,
                        {
                            cells.push((x, y));
                            x = x + 1;
                            k = k + 1;
                            assert(cells@ =~= before + Seq::new(
                                k as nat,
                                |j: int| ((st.x + j) as i32, st.y as i32),
                            ));
                        }
                        has_digits = false;
                        value = 0;
                    } else if c == '$' {
                        y = y + count;
                        x = 0;
                        has_digits = false;
                        value = 0;
                    } else if c == '!' {
                        mode = LineMode::Skip;
                    }
                } else if c == '#' {
                    match mode {
                        LineMode::Start => {
                            mode = LineMode::Skip;
                        },
                        _ => {},
                    }
                }
            }
            i = i + 1;
        }
        Pattern { name: name.to_owned(), cells, width, height }
    }
}

/// A text that fits keeps fitting on every prefix.
pub proof fn lemma_fits_prefix(s: Seq<char>, n: nat, m: nat)
    requires
        m <= n,
        rle_fits(s, n),
    ensures
        rle_fits(s, m),
    decreases n,
{
    if m < n {
        lemma_fits_prefix(s, (n - 1) as nat, m);
    }
}

/// A character that ends a run: `b`, `o` or `$`.
pub open spec fn ends_run(c: char) -> bool {
    c == 'b' || c == 'o' || c == '$'
}

/// A digit at `i` starts a run count of at most two digits that a `b`, `o`
/// or `$` follows at once.
pub open spec fn short_run_at(s: Seq<char>, i: int) -> bool {
    is_digit(s[i]) ==> {
        ||| i + 1 < s.len() && ends_run(s[i + 1])
        ||| i + 2 < s.len() && is_digit(s[i + 1]) && ends_run(s[i + 2])
    }
}

/// Every run count in `s` from index `i` on has at most two digits and is
/// followed at once by `b`, `o` or `$`.
pub open spec fn short_runs_from(s: Seq<char>, i: nat) -> bool
    decreases s.len() - i,
{
    if i >= s.len() {
        true
    } else {
        short_run_at(s, i as int) && short_runs_from(s, i + 1)
    }
}

/// `short_runs_from` holds at every later index.
pub proof fn lemma_short_runs_from(s: Seq<char>, i: nat, j: int)
    requires
        short_runs_from(s, i),
        i <= j < s.len(),
    ensures
        short_run_at(s, j),
    decreases j - i,
{
    if i < j {
        lemma_short_runs_from(s, i + 1, j);
    }
}

/// The reader's state while it reads a text whose run counts are short.
pub open spec fn short_run_state(s: Seq<char>, n: nat) -> bool {
    let st = rle_run(s, n);
    &&& 0 <= st.x <= 99 * n
    &&& 0 <= st.y <= 99 * n
    &&& st.buf.len() <= 2
    &&& forall|i: int| 0 <= i < st.buf.len() ==> #[trigger] is_digit(st.buf[i])
    &&& st.buf.len() >= 1 ==> st.mode == LineMode::Body && n >= 1 && is_digit(s[n - 1])
    &&& st.buf.len() == 2 ==> n >= 2 && is_digit(s[n - 2])
}

/// One or two digits have a value below 100.
pub proof fn lemma_short_decimal(ds: Seq<char>)
    requires
        ds.len() <= 2,
        forall|i: int| 0 <= i < ds.len() ==> #[trigger] is_digit(ds[i]),
    ensures
        0 <= decimal_value(ds) <= 99,
{
    if ds.len() >= 1 {
        assert(is_digit(ds[ds.len() - 1]));
        let p = ds.drop_last();
        if ds.len() == 2 {
            assert(is_digit(p[0]));
            assert(decimal_value(p.drop_last()) == 0);
            assert(0 <= decimal_value(p) <= 9);
        } else {
            assert(decimal_value(p) == 0);
        }
    }
}

/// A text of short run counts and of moderate length never overflows the
/// reader's column or row.
pub proof fn lemma_short_runs_fit(s: Seq<char>, n: nat)
    requires
        short_runs_from(s, 0),
        n <= s.len() <= 10_000_000,
    ensures
        rle_fits(s, n),
        short_run_state(s, n),
    decreases n,
{
    if n > 0 {
        let m = (n - 1) as nat;
        lemma_short_runs_fit(s, m);
        let st = rle_run(s, m);
        let c = s[m as int];
        lemma_short_decimal(st.buf);
        if m >= 1 {
            lemma_short_runs_from(s, 0, m - 1);
        }
        if m >= 2 {
            lemma_short_runs_from(s, 0, m - 2);
        }
        let next = rle_run(s, n);
        assert(next == rle_step(st, c));
        if is_data(st, c) && is_digit(c) {
            assert forall|i: int| 0 <= i < next.buf.len() implies #[trigger] is_digit(next.buf[i]) by {
                if i < st.buf.len() {
                    assert(next.buf[i] == st.buf[i]);
                }
            }
        }
    }
}

/// The start patterns offered in the user interface, in menu order.
#[verifier::rlimit(100)]
#[verifier::spinoff_prover]
pub fn presets() -> (r: Vec<Pattern>)
    ensures
        r@.len() == 14,
            r@[0].name@ == "Empty"@,
            r@[0].cells@ == Seq::<(i32, i32)>::empty(),
            r@[0].width == extent_x(r@[0].cells@),
            r@[0].height == extent_y(r@[0].cells@),
            r@[1].name@ == "Glider"@,
            r@[1].cells@ == seq![(1i32, 0i32), (2i32, 1i32), (0i32, 2i32), (1i32, 2i32), (2i32, 2i32)],
            r@[1].width == extent_x(r@[1].cells@),
            r@[1].height == extent_y(r@[1].cells@),
            r@[2].name@ == "LWSS"@,
            r@[2].cells@ == seq![(1i32, 0i32), (4i32, 0i32), (0i32, 1i32), (0i32, 2i32), (4i32, 2i32), (0i32, 3i32), (1i32, 3i32), (2i32, 3i32), (3i32, 3i32)],
            r@[2].width == extent_x(r@[2].cells@),
            r@[2].height == extent_y(r@[2].cells@),
            r@[3].name@ == "MWSS"@,
            r@[3].cells@ == seq![(2i32, 0i32), (3i32, 0i32), (4i32, 0i32), (5i32, 0i32), (1i32, 1i32), (5i32, 1i32), (5i32, 2i32), (0i32, 2i32), (5i32, 3i32), (0i32, 3i32), (2i32, 4i32), (3i32, 4i32), (4i32, 4i32), (5i32, 4i32)],
            r@[3].width == extent_x(r@[3].cells@),
            r@[3].height == extent_y(r@[3].cells@),
            r@[4].name@ == "HWSS"@,
            r@[4].cells@ == rle_cells("3b5o$o2b5o$7o$o6bo$o!"@),
            r@[4].width == 8,
            r@[4].height == 5,
            r@[5].name@ == "R-pentomino"@,
            r@[5].cells@ == seq![(1i32, 0i32), (2i32, 0i32), (0i32, 1i32), (1i32, 1i32), (1i32, 2i32)],
            r@[5].width == extent_x(r@[5].cells@),
            r@[5].height == extent_y(r@[5].cells@),
            r@[6].name@ == "Diehard"@,
            r@[6].cells@ == seq![(6i32, 0i32), (0i32, 1i32), (1i32, 1i32), (1i32, 2i32), (5i32, 2i32), (6i32, 2i32), (7i32, 2i32)],
            r@[6].width == extent_x(r@[6].cells@),
            r@[6].height == extent_y(r@[6].cells@),
            r@[7].name@ == "Acorn"@,
            r@[7].cells@ == seq![(1i32, 0i32), (3i32, 1i32), (0i32, 2i32), (1i32, 2i32), (4i32, 2i32), (5i32, 2i32), (6i32, 2i32)],
            r@[7].width == extent_x(r@[7].cells@),
            r@[7].height == extent_y(r@[7].cells@),
            r@[8].name@ == "Gosper Glider Gun"@,
            r@[8].cells@ == rle_cells("24bo11b$22bobo11b$12b2o6b2o12b2o$11bo3bo4b2o12b2o$2o8bo5bo3b2o14b$2o8bo3bob2o4bobo11b$
10bo5bo7bobo9b$11bo3bo9bo10b$12b2o!"@),
            r@[8].width == 36,
            r@[8].height == 9,
            r@[9].name@ == "Pulsar"@,
            r@[9].cells@ == rle_cells("3b3o3b3o3b$o3bobobobo3bo$o3bobobobo3bo$o3bobobobo3bo$3b3o3b3o3b$
3b3o3b3o3b$o3bobobobo3bo$o3bobobobo3bo$o3bobobobo3bo$3b3o3b3o3b!"@),
            r@[9].width == 13,
            r@[9].height == 13,
            r@[10].name@ == "Pentadecathlon"@,
            r@[10].cells@ == rle_cells("2bo4bo2b$2ob4o2o$2bo4bo2b!"@),
            r@[10].width == 10,
            r@[10].height == 3,
            r@[11].name@ == "Switch Engine"@,
            r@[11].cells@ == rle_cells("o6bo3b$3o3b3o2b$3bobo3b2o$2b2ob2o2b2o2$2b2ob2o2b2o$3bobo3b2o$
3o3b3o2b$o6bo!"@),
            r@[11].width == 11,
            r@[11].height == 9,
            r@[12].name@ == "Period-30 Glider Gun"@,
            r@[12].cells@ == rle_cells("18bo7b$19bo6b$17b3o6b4$bo20b$obo4b2o13b$o5b3o12b$6bo2bo7b3o$
8b2o6bo3bo$8b2o5bo5bo$8b2o6bo3bo$6bo2bo8b3o$o5b3o$obo4b2o$bo!"@),
            r@[12].width == 24,
            r@[12].height == 17,
            r@[13].name@ == "Puffer Train"@,
            r@[13].cells@ == rle_cells("8bo3bo3b$7b3ob3o2b$6b2o5b2ob$5b3o5b3o$4b3o7b3o$5b3o5b3o$6b2o5b2ob$
7b3ob3o2b$8bo3bo3b$2b2o15b$2ob2o14b$4o15b$b2o!"@),
            r@[13].width == 18,
            r@[13].height == 13,
{
    let mut v: Vec<Pattern> = Vec::new();
    let cells: [(i32, i32); 0] = [];
    proof {
        assert(cells@ == Seq::<(i32, i32)>::empty());
    }
    v.push(Pattern::new("Empty", &cells));
    let cells: [(i32, i32); 5] = [(1, 0), (2, 1), (0, 2), (1, 2), (2, 2)];
    proof {
        assert(cells@ == seq![(1i32, 0i32), (2i32, 1i32), (0i32, 2i32), (1i32, 2i32), (2i32, 2i32)]);
    }
    v.push(Pattern::new("Glider", &cells));
    let cells: [(i32, i32); 9] = [(1, 0), (4, 0), (0, 1), (0, 2), (4, 2), (0, 3), (1, 3), (2, 3), (3, 3)];
    proof {
        assert(cells@ == seq![(1i32, 0i32), (4i32, 0i32), (0i32, 1i32), (0i32, 2i32), (4i32, 2i32), (0i32, 3i32), (1i32, 3i32), (2i32, 3i32), (3i32, 3i32)]);
    }
    v.push(Pattern::new("LWSS", &cells));
    let cells: [(i32, i32); 14] = [(2, 0), (3, 0), (4, 0), (5, 0), (1, 1), (5, 1), (5, 2), (0, 2), (5, 3), (0, 3), (2, 4), (3, 4), (4, 4), (5, 4)];
    proof {
        assert(cells@ == seq![(2i32, 0i32), (3i32, 0i32), (4i32, 0i32), (5i32, 0i32), (1i32, 1i32), (5i32, 1i32), (5i32, 2i32), (0i32, 2i32), (5i32, 3i32), (0i32, 3i32), (2i32, 4i32), (3i32, 4i32), (4i32, 4i32), (5i32, 4i32)]);
    }
    v.push(Pattern::new("MWSS", &cells));
    let text = "3b5o$o2b5o$7o$o6bo$o!";
    proof {
        reveal_strlit("3b5o$o2b5o$7o$o6bo$o!");
        reveal_with_fuel(short_runs_from, 22);
        assert(text@.len() == 21);
        assert(short_runs_from(text@, 20));
        assert(short_runs_from(text@, 10));
        assert(short_runs_from(text@, 0));
        lemma_short_runs_fit(text@, 21);
    }
    v.push(Pattern::parse_rle("HWSS", text, 8, 5));
    let cells: [(i32, i32); 5] = [(1, 0), (2, 0), (0, 1), (1, 1), (1, 2)];
    proof {
        assert(cells@ == seq![(1i32, 0i32), (2i32, 0i32), (0i32, 1i32), (1i32, 1i32), (1i32, 2i32)]);
    }
    v.push(Pattern::new("R-pentomino", &cells));
    let cells: [(i32, i32); 7] = [(6, 0), (0, 1), (1, 1), (1, 2), (5, 2), (6, 2), (7, 2)];
    proof {
        assert(cells@ == seq![(6i32, 0i32), (0i32, 1i32), (1i32, 1i32), (1i32, 2i32), (5i32, 2i32), (6i32, 2i32), (7i32, 2i32)]);
    }
    v.push(Pattern::new("Diehard", &cells));
    let cells: [(i32, i32); 7] = [(1, 0), (3, 1), (0, 2), (1, 2), (4, 2), (5, 2), (6, 2)];
    proof {
        assert(cells@ == seq![(1i32, 0i32), (3i32, 1i32), (0i32, 2i32), (1i32, 2i32), (4i32, 2i32), (5i32, 2i32), (6i32, 2i32)]);
    }
    v.push(Pattern::new("Acorn", &cells));
    let text = "24bo11b$22bobo11b$12b2o6b2o12b2o$11bo3bo4b2o12b2o$2o8bo5bo3b2o14b$2o8bo3bob2o4bobo11b$
10bo5bo7bobo9b$11bo3bo9bo10b$12b2o!";
    proof {
        reveal_strlit("24bo11b$22bobo11b$12b2o6b2o12b2o$11bo3bo4b2o12b2o$2o8bo5bo3b2o14b$2o8bo3bob2o4bobo11b$
10bo5bo7bobo9b$11bo3bo9bo10b$12b2o!");
        reveal_with_fuel(short_runs_from, 123);
        assert(text@.len() == 122);
        assert(short_runs_from(text@, 120));
        assert(short_runs_from(text@, 110));
        assert(short_runs_from(text@, 100));
        assert(short_runs_from(text@, 90));
        assert(short_runs_from(text@, 80));
        assert(short_runs_from(text@, 70));
        assert(short_runs_from(text@, 60));
        assert(short_runs_from(text@, 50));
        assert(short_runs_from(text@, 40));
        assert(short_runs_from(text@, 30));
        assert(short_runs_from(text@, 20));
        assert(short_runs_from(text@, 10));
        assert(short_runs_from(text@, 0));
        lemma_short_runs_fit(text@, 122);
    }
    v.push(Pattern::parse_rle("Gosper Glider Gun", text, 36, 9));
    let text = "3b3o3b3o3b$o3bobobobo3bo$o3bobobobo3bo$o3bobobobo3bo$3b3o3b3o3b$
3b3o3b3o3b$o3bobobobo3bo$o3bobobobo3bo$o3bobobobo3bo$3b3o3b3o3b!";
    proof {
        reveal_strlit("3b3o3b3o3b$o3bobobobo3bo$o3bobobobo3bo$o3bobobobo3bo$3b3o3b3o3b$
3b3o3b3o3b$o3bobobobo3bo$o3bobobobo3bo$o3bobobobo3bo$3b3o3b3o3b!");
        reveal_with_fuel(short_runs_from, 130);
        assert(text@.len() == 129);
        assert(short_runs_from(text@, 120));
        assert(short_runs_from(text@, 110));
        assert(short_runs_from(text@, 100));
        assert(short_runs_from(text@, 90));
        assert(short_runs_from(text@, 80));
        assert(short_runs_from(text@, 70));
        assert(short_runs_from(text@, 60));
        assert(short_runs_from(text@, 50));
        assert(short_runs_from(text@, 40));
        assert(short_runs_from(text@, 30));
        assert(short_runs_from(text@, 20));
        assert(short_runs_from(text@, 10));
        assert(short_runs_from(text@, 0));
        lemma_short_runs_fit(text@, 129);
    }
    v.push(Pattern::parse_rle("Pulsar", text, 13, 13));
    let text = "2bo4bo2b$2ob4o2o$2bo4bo2b!";
    proof {
        reveal_strlit("2bo4bo2b$2ob4o2o$2bo4bo2b!");
        reveal_with_fuel(short_runs_from, 27);
        assert(text@.len() == 26);
        assert(short_runs_from(text@, 20));
        assert(short_runs_from(text@, 10));
        assert(short_runs_from(text@, 0));
        lemma_short_runs_fit(text@, 26);
    }
    v.push(Pattern::parse_rle("Pentadecathlon", text, 10, 3));
    let text = "o6bo3b$3o3b3o2b$3bobo3b2o$2b2ob2o2b2o2$2b2ob2o2b2o$3bobo3b2o$
3o3b3o2b$o6bo!";
    proof {
        reveal_strlit("o6bo3b$3o3b3o2b$3bobo3b2o$2b2ob2o2b2o2$2b2ob2o2b2o$3bobo3b2o$
3o3b3o2b$o6bo!");
        reveal_with_fuel(short_runs_from, 77);
        assert(text@.len() == 76);
        assert(short_runs_from(text@, 70));
        assert(short_runs_from(text@, 60));
        assert(short_runs_from(text@, 50));
        assert(short_runs_from(text@, 40));
        assert(short_runs_from(text@, 30));
        assert(short_runs_from(text@, 20));
        assert(short_runs_from(text@, 10));
        assert(short_runs_from(text@, 0));
        lemma_short_runs_fit(text@, 76);
    }
    v.push(Pattern::parse_rle("Switch Engine", text, 11, 9));
    let text = "18bo7b$19bo6b$17b3o6b4$bo20b$obo4b2o13b$o5b3o12b$6bo2bo7b3o$
8b2o6bo3bo$8b2o5bo5bo$8b2o6bo3bo$6bo2bo8b3o$o5b3o$obo4b2o$bo!";
    proof {
        reveal_strlit("18bo7b$19bo6b$17b3o6b4$bo20b$obo4b2o13b$o5b3o12b$6bo2bo7b3o$
8b2o6bo3bo$8b2o5bo5bo$8b2o6bo3bo$6bo2bo8b3o$o5b3o$obo4b2o$bo!");
        reveal_with_fuel(short_runs_from, 123);
        assert(text@.len() == 122);
        assert(short_runs_from(text@, 120));
        assert(short_runs_from(text@, 110));
        assert(short_runs_from(text@, 100));
        assert(short_runs_from(text@, 90));
        assert(short_runs_from(text@, 80));
        assert(short_runs_from(text@, 70));
        assert(short_runs_from(text@, 60));
        assert(short_runs_from(text@, 50));
        assert(short_runs_from(text@, 40));
        assert(short_runs_from(text@, 30));
        assert(short_runs_from(text@, 20));
        assert(short_runs_from(text@, 10));
        assert(short_runs_from(text@, 0));
        lemma_short_runs_fit(text@, 122);
    }
    v.push(Pattern::parse_rle("Period-30 Glider Gun", text, 24, 17));
    let text = "8bo3bo3b$7b3ob3o2b$6b2o5b2ob$5b3o5b3o$4b3o7b3o$5b3o5b3o$6b2o5b2ob$
7b3ob3o2b$8bo3bo3b$2b2o15b$2ob2o14b$4o15b$b2o!";
    proof {
        reveal_strlit("8bo3bo3b$7b3ob3o2b$6b2o5b2ob$5b3o5b3o$4b3o7b3o$5b3o5b3o$6b2o5b2ob$
7b3ob3o2b$8bo3bo3b$2b2o15b$2ob2o14b$4o15b$b2o!");
        reveal_with_fuel(short_runs_from, 114);
        assert(text@.len() == 113);
        assert(short_runs_from(text@, 110));
        assert(short_runs_from(text@, 100));
        assert(short_runs_from(text@, 90));
        assert(short_runs_from(text@, 80));
        assert(short_runs_from(text@, 70));
        assert(short_runs_from(text@, 60));
        assert(short_runs_from(text@, 50));
        assert(short_runs_from(text@, 40));
        assert(short_runs_from(text@, 30));
        assert(short_runs_from(text@, 20));
        assert(short_runs_from(text@, 10));
        assert(short_runs_from(text@, 0));
        lemma_short_runs_fit(text@, 113);
    }
    v.push(Pattern::parse_rle("Puffer Train", text, 18, 13));
    v
}

} // verus!
