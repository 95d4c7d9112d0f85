//! A double-buffered 2D grid of cells with drawing primitives.

use vstd::prelude::*;

verus! {

/// `d` is a value that `P::default()` may return.
pub open spec fn is_default<P: Default>(d: P) -> bool {
    call_ensures(P::default, (), d)
}

/// Row-major index of the cell at column `x`, row `y` in a grid `w` cells wide.
pub open spec fn cell_index(w: int, x: int, y: int) -> int {
    y * w + x
}

/// `buf` with every cell whose (column, row) lies in `pts` replaced by `p`.
/// Points outside the grid leave it unchanged.
pub open spec fn painted<P>(buf: Seq<P>, w: int, pts: Set<(int, int)>, p: P) -> Seq<P> {
    Seq::new(buf.len(), |i: int| if pts.contains((i % w, i / w)) { p } else { buf[i] })
}

/// The cells of a rectangle with top-left corner (x, y), `w` columns wide and `h` rows high.
pub open spec fn rect_points(x: int, y: int, w: int, h: int) -> Set<(int, int)> {
    Set::new(|pt: (int, int)| x <= pt.0 < x + w && y <= pt.1 < y + h)
}

/// Absolute value.
pub open spec fn abs_int(v: int) -> int {
    if v < 0 { -v } else { v }
}

/// Direction of travel from `a` toward `b` along one axis, as the rasteriser takes it.
pub open spec fn step_dir(a: int, b: int) -> int {
    if a < b { 1 } else { -1 }
}

/// One step of the line rasteriser from position (x, y) with error term `err`,
/// for a line with horizontal extent `dx`, vertical extent `ady` and directions `sx`, `sy`.
pub open spec fn line_step(x: int, y: int, err: int, dx: int, ady: int, sx: int, sy: int) -> (int, int, int) {
    let e2 = 2 * err;
    let x2 = if e2 >= -ady { x + sx } else { x };
    let err2 = if e2 >= -ady { err - ady } else { err };
    let y2 = if e2 <= dx { y + sy } else { y };
    let err3 = if e2 <= dx { err2 + dx } else { err2 };
    (x2, y2, err3)
}

/// The positions the rasteriser visits from (x, y) until it reaches (x1, y1),
/// taking at most `fuel` steps.
pub open spec fn line_run(
    x: int,
    y: int,
    err: int,
    x1: int,
    y1: int,
    dx: int,
    ady: int,
    sx: int,
    sy: int,
    fuel: nat,
) -> Seq<(int, int)>
    decreases fuel,
{
    if (x == x1 && y == y1) || fuel == 0 {
        seq![(x, y)]
    } else {
        let s = line_step(x, y, err, dx, ady, sx, sy);
        seq![(x, y)] + line_run(s.0, s.1, s.2, x1, y1, dx, ady, sx, sy, (fuel - 1) as nat)
    }
}

/// The cells of the line from (x0, y0) to (x1, y1), in the order they are drawn.
pub open spec fn line_points(x0: int, y0: int, x1: int, y1: int) -> Seq<(int, int)> {
    let dx = abs_int(x1 - x0);
    let ady = abs_int(y1 - y0);
    line_run(
        x0,
        y0,
        dx - ady,
        x1,
        y1,
        dx,
        ady,
        step_dir(x0, x1),
        step_dir(y0, y1),
        (dx + ady) as nat,
    )
}

/// `b` is one of the eight neighbours of `a`.
pub open spec fn cells_adjacent(a: (int, int), b: (int, int)) -> bool {
    &&& abs_int(b.0 - a.0) <= 1
    &&& abs_int(b.1 - a.1) <= 1
    &&& a != b
}

/// Steps taken along each axis from the start, and the error term tied to them.
pub open spec fn line_state_ok(x0: int, y0: int, x1: int, y1: int, x: int, y: int, err: int) -> bool {
    let dx = abs_int(x1 - x0);
    let ady = abs_int(y1 - y0);
    let xs = (x - x0) * step_dir(x0, x1);
    let ys = (y - y0) * step_dir(y0, y1);
    &&& 0 <= xs <= dx
    &&& 0 <= ys <= ady
    &&& err == dx * (1 + ys) - ady * (1 + xs)
    &&& -3 * ady <= 2 * err <= 3 * dx
}

/// Steps still needed to reach the end of the line.
pub open spec fn line_remaining(x0: int, y0: int, x1: int, y1: int, x: int, y: int) -> int {
    (abs_int(x1 - x0) - (x - x0) * step_dir(x0, x1)) + (abs_int(y1 - y0) - (y - y0) * step_dir(y0, y1))
}

/// A step from a valid state short of the end keeps the state valid, moves each
/// coordinate by at most one toward the end, moves at least one, and gets closer.
pub proof fn lemma_line_step(x0: int, y0: int, x1: int, y1: int, x: int, y: int, err: int)
    requires
        line_state_ok(x0, y0, x1, y1, x, y, err),
        !(x == x1 && y == y1),
    ensures
        ({
            let s = line_step(x, y, err, abs_int(x1 - x0), abs_int(y1 - y0), step_dir(x0, x1), step_dir(y0, y1));
            &&& line_state_ok(x0, y0, x1, y1, s.0, s.1, s.2)
            &&& line_remaining(x0, y0, x1, y1, s.0, s.1) < line_remaining(x0, y0, x1, y1, x, y)
            &&& abs_int(s.0 - x) <= 1
            &&& abs_int(s.1 - y) <= 1
            &&& (s.0 != x || s.1 != y)
        }),
        line_remaining(x0, y0, x1, y1, x, y) >= 1,
{
    let dx = abs_int(x1 - x0);
    let ady = abs_int(y1 - y0);
    let sx = step_dir(x0, x1);
    let sy = step_dir(y0, y1);
    let xs = (x - x0) * sx;
    let ys = (y - y0) * sy;
    assert(sx == 1 || sx == -1);
    assert(sy == 1 || sy == -1);
    assert(xs == if sx == 1 { x - x0 } else { x0 - x });
    assert(ys == if sy == 1 { y - y0 } else { y0 - y });
    assert(x == x1 <==> xs == dx);
    assert(y == y1 <==> ys == ady);
    let e2 = 2 * err;
    if xs == dx {
        assert(ys <= ady - 1);
        assert(err <= -ady) by (nonlinear_arith)
            requires err == dx * (1 + ys) - ady * (1 + xs), xs == dx, ys <= ady - 1, dx >= 0, ady >= 1;
        assert(!(e2 >= -ady));
    }
    if ys == ady {
        assert(xs <= dx - 1);
        assert(err >= dx) by (nonlinear_arith)
            requires err == dx * (1 + ys) - ady * (1 + xs), ys == ady, xs <= dx - 1, dx >= 1, ady >= 0;
        assert(!(e2 <= dx));
    }
    let s = line_step(x, y, err, dx, ady, sx, sy);
    let bx: int = if e2 >= -ady { 1 } else { 0 };
    let by_: int = if e2 <= dx { 1 } else { 0 };
    assert(s.2 == err - ady * bx + dx * by_);
    assert((s.0 - x0) * sx == xs + bx);
    assert((s.1 - y0) * sy == ys + by_);
    assert(dx * (1 + (ys + by_)) - ady * (1 + (xs + bx)) == err - ady * bx + dx * by_) by (nonlinear_arith)
        requires err == dx * (1 + ys) - ady * (1 + xs);
}

/// Running from a valid state with enough fuel ends exactly at (x1, y1).
pub proof fn lemma_line_run_reaches_end(x0: int, y0: int, x1: int, y1: int, x: int, y: int, err: int, fuel: nat)
    requires
        line_state_ok(x0, y0, x1, y1, x, y, err),
        fuel >= line_remaining(x0, y0, x1, y1, x, y),
    ensures
        ({
            let r = line_run(x, y, err, x1, y1, abs_int(x1 - x0), abs_int(y1 - y0), step_dir(x0, x1), step_dir(y0, y1), fuel);
            &&& r.len() >= 1
            &&& r[0] == (x, y)
            &&& r.last() == (x1, y1)
            &&& forall|k: int| 0 <= k < r.len() - 1 ==> #[trigger] r[k] != (x1, y1)
            &&& forall|k: int| 0 <= k < r.len() - 1 ==> cells_adjacent(#[trigger] r[k], r[k + 1])
        }),
    decreases fuel,
{
    let dx = abs_int(x1 - x0);
    let ady = abs_int(y1 - y0);
    let sx = step_dir(x0, x1);
    let sy = step_dir(y0, y1);
    if x == x1 && y == y1 {
    } else {
        lemma_line_step(x0, y0, x1, y1, x, y, err);
        let s = line_step(x, y, err, dx, ady, sx, sy);
        lemma_line_run_reaches_end(x0, y0, x1, y1, s.0, s.1, s.2, (fuel - 1) as nat);
        let rest = line_run(s.0, s.1, s.2, x1, y1, dx, ady, sx, sy, (fuel - 1) as nat);
        let r = line_run(x, y, err, x1, y1, dx, ady, sx, sy, fuel);
        assert(r == seq![(x, y)] + rest);
        assert forall|k: int| 0 <= k < r.len() - 1 implies #[trigger] r[k] != (x1, y1) by {
            if k > 0 {
                assert(r[k] == rest[k - 1]);
            }
        }
        assert forall|k: int| 0 <= k < r.len() - 1 implies cells_adjacent(#[trigger] r[k], r[k + 1]) by {
            if k > 0 {
                assert(r[k] == rest[k - 1]);
                assert(r[k + 1] == rest[k]);
            } else {
                assert(r[1] == rest[0]);
                assert(rest[0] == (s.0, s.1));
                assert(r[0] == (x, y));
            }
        }
    }
}

/// Along a line that is at least as wide as it is high, every step moves one column.
proof fn lemma_line_run_len_wide(x0: int, y0: int, x1: int, y1: int, x: int, y: int, err: int, fuel: nat)
    requires
        line_state_ok(x0, y0, x1, y1, x, y, err),
        abs_int(x1 - x0) >= abs_int(y1 - y0),
        2 * abs_int(x1 - x0) * ((y - y0) * step_dir(y0, y1))
            >= 2 * abs_int(y1 - y0) * ((x - x0) * step_dir(x0, x1)) - abs_int(x1 - x0),
        fuel >= line_remaining(x0, y0, x1, y1, x, y),
    ensures
        line_run(x, y, err, x1, y1, abs_int(x1 - x0), abs_int(y1 - y0), step_dir(x0, x1), step_dir(y0, y1), fuel).len()
            == abs_int(x1 - x0) - (x - x0) * step_dir(x0, x1) + 1,
    decreases fuel,
{
    let dx = abs_int(x1 - x0);
    let ady = abs_int(y1 - y0);
    let sx = step_dir(x0, x1);
    let sy = step_dir(y0, y1);
    let xs = (x - x0) * sx;
    let ys = (y - y0) * sy;
    assert(xs == if sx == 1 { x - x0 } else { x0 - x });
    assert(ys == if sy == 1 { y - y0 } else { y0 - y });
    assert(x == x1 <==> xs == dx);
    assert(y == y1 <==> ys == ady);
    if xs == dx {
        assert(2 * dx * ys >= 2 * ady * dx - dx);
        if ys < ady {
            assert(2 * dx * ys <= 2 * dx * (ady - 1)) by (nonlinear_arith)
                requires ys <= ady - 1, dx >= 0;
            assert(dx == 0) by (nonlinear_arith)
                requires 2 * dx * ys >= 2 * ady * dx - dx, 2 * dx * ys <= 2 * dx * (ady - 1), dx >= 0;
        }
        assert(ys == ady);
    } else {
        lemma_line_step(x0, y0, x1, y1, x, y, err);
        let e2 = 2 * err;
        assert(e2 >= -ady) by (nonlinear_arith)
            requires
                err == dx * (1 + ys) - ady * (1 + xs),
                2 * dx * ys >= 2 * ady * xs - dx,
                dx >= ady,
                e2 == 2 * err;
        let s = line_step(x, y, err, dx, ady, sx, sy);
        let by_: int = if e2 <= dx { 1 } else { 0 };
        assert((s.0 - x0) * sx == xs + 1);
        assert((s.1 - y0) * sy == ys + by_);
        if by_ == 1 {
            assert(2 * dx * (ys + 1) >= 2 * ady * (xs + 1) - dx) by (nonlinear_arith)
                requires 2 * dx * ys >= 2 * ady * xs - dx, dx >= ady;
        } else {
            assert(2 * dx * ys >= 2 * ady * (xs + 1) - dx) by (nonlinear_arith)
                requires e2 > dx, e2 == 2 * err, err == dx * (1 + ys) - ady * (1 + xs);
        }
        lemma_line_run_len_wide(x0, y0, x1, y1, s.0, s.1, s.2, (fuel - 1) as nat);
    }
}

/// Along a line that is at least as high as it is wide, every step moves one row.
proof fn lemma_line_run_len_tall(x0: int, y0: int, x1: int, y1: int, x: int, y: int, err: int, fuel: nat)
    requires
        line_state_ok(x0, y0, x1, y1, x, y, err),
        abs_int(y1 - y0) >= abs_int(x1 - x0),
        2 * abs_int(y1 - y0) * ((x - x0) * step_dir(x0, x1))
            >= 2 * abs_int(x1 - x0) * ((y - y0) * step_dir(y0, y1)) - abs_int(y1 - y0),
        fuel >= line_remaining(x0, y0, x1, y1, x, y),
    ensures
        line_run(x, y, err, x1, y1, abs_int(x1 - x0), abs_int(y1 - y0), step_dir(x0, x1), step_dir(y0, y1), fuel).len()
            == abs_int(y1 - y0) - (y - y0) * step_dir(y0, y1) + 1,
    decreases fuel,
{
    let dx = abs_int(x1 - x0);
    let ady = abs_int(y1 - y0);
    let sx = step_dir(x0, x1);
    let sy = step_dir(y0, y1);
    let xs = (x - x0) * sx;
    let ys = (y - y0) * sy;
    assert(xs == if sx == 1 { x - x0 } else { x0 - x });
    assert(ys == if sy == 1 { y - y0 } else { y0 - y });
    assert(x == x1 <==> xs == dx);
    assert(y == y1 <==> ys == ady);
    if ys == ady {
        assert(2 * ady * xs >= 2 * dx * ady - ady);
        if xs < dx {
            assert(2 * ady * xs <= 2 * ady * (dx - 1)) by (nonlinear_arith)
                requires xs <= dx - 1, ady >= 0;
            assert(ady == 0) by (nonlinear_arith)
                requires 2 * ady * xs >= 2 * dx * ady - ady, 2 * ady * xs <= 2 * ady * (dx - 1), ady >= 0;
        }
        assert(xs == dx);
    } else {
        lemma_line_step(x0, y0, x1, y1, x, y, err);
        let e2 = 2 * err;
        assert(e2 <= dx) by (nonlinear_arith)
            requires
                err == dx * (1 + ys) - ady * (1 + xs),
                2 * ady * xs >= 2 * dx * ys - ady,
                ady >= dx,
                e2 == 2 * err;
        let s = line_step(x, y, err, dx, ady, sx, sy);
        let bx: int = if e2 >= -ady { 1 } else { 0 };
        assert((s.0 - x0) * sx == xs + bx);
        assert((s.1 - y0) * sy == ys + 1);
        if bx == 1 {
            assert(2 * ady * (xs + 1) >= 2 * dx * (ys + 1) - ady) by (nonlinear_arith)
                requires 2 * ady * xs >= 2 * dx * ys - ady, ady >= dx;
        } else {
            assert(2 * ady * xs >= 2 * dx * (ys + 1) - ady) by (nonlinear_arith)
                requires e2 < -ady, e2 == 2 * err, err == dx * (1 + ys) - ady * (1 + xs);
        }
        lemma_line_run_len_tall(x0, y0, x1, y1, s.0, s.1, s.2, (fuel - 1) as nat);
    }
}

/// The starting state of the rasteriser is valid.
proof fn lemma_line_start(x0: int, y0: int, x1: int, y1: int)
    ensures
        line_state_ok(x0, y0, x1, y1, x0, y0, abs_int(x1 - x0) - abs_int(y1 - y0)),
        line_remaining(x0, y0, x1, y1, x0, y0) == abs_int(x1 - x0) + abs_int(y1 - y0),
{
    let dx = abs_int(x1 - x0);
    let ady = abs_int(y1 - y0);
    assert(dx - ady == dx * (1 + 0) - ady * (1 + 0)) by (nonlinear_arith);
    assert((x0 - x0) * step_dir(x0, x1) == 0);
    assert((y0 - y0) * step_dir(y0, y1) == 0);
}

/// A line starts at its first end point, finishes at its second, reaches the second
/// only at the finish, moves to a neighbouring cell at every step, and has one cell
/// per column or per row, whichever it spans more of.
pub proof fn lemma_line_points(x0: int, y0: int, x1: int, y1: int)
    ensures
        ({
            let pts = line_points(x0, y0, x1, y1);
            &&& pts.len() == (if abs_int(x1 - x0) >= abs_int(y1 - y0) { abs_int(x1 - x0) } else { abs_int(y1 - y0) }) + 1
            &&& pts[0] == (x0, y0)
            &&& pts.last() == (x1, y1)
            &&& forall|k: int| 0 <= k < pts.len() - 1 ==> #[trigger] pts[k] != (x1, y1)
            &&& forall|k: int| 0 <= k < pts.len() - 1 ==> cells_adjacent(#[trigger] pts[k], pts[k + 1])
        }),
{
    let dx = abs_int(x1 - x0);
    let ady = abs_int(y1 - y0);
    lemma_line_start(x0, y0, x1, y1);
    lemma_line_run_reaches_end(x0, y0, x1, y1, x0, y0, dx - ady, (dx + ady) as nat);
    if dx >= ady {
        lemma_line_run_len_wide(x0, y0, x1, y1, x0, y0, dx - ady, (dx + ady) as nat);
    } else {
        lemma_line_run_len_tall(x0, y0, x1, y1, x0, y0, dx - ady, (dx + ady) as nat);
    }
}

/// Painting one more point is a single write at that point's cell, or nothing
/// when the point lies outside the grid.
pub proof fn lemma_paint_one<P>(buf: Seq<P>, w: int, h: int, pts: Set<(int, int)>, x: int, y: int, p: P)
    requires
        w >= 0,
        h >= 0,
        buf.len() == w * h,
    ensures
        painted(buf, w, pts.insert((x, y)), p) == (if 0 <= x < w && 0 <= y < h {
            painted(buf, w, pts, p).update(cell_index(w, x, y), p)
        } else {
            painted(buf, w, pts, p)
        }),
{
    let lhs = painted(buf, w, pts.insert((x, y)), p);
    let base = painted(buf, w, pts, p);
    if 0 <= x < w && 0 <= y < h {
        lemma_index_of_cell(w, h, x, y);
        let rhs = base.update(cell_index(w, x, y), p);
        assert forall|i: int| 0 <= i < lhs.len() implies lhs[i] == rhs[i] by {
            lemma_index_roundtrip(w, h, i);
        }
        assert(lhs =~= rhs);
    } else {
        assert forall|i: int| 0 <= i < lhs.len() implies lhs[i] == base[i] by {
            if w > 0 {
                lemma_index_roundtrip(w, h, i);
            }
        }
        assert(lhs =~= base);
    }
}

/// Painting with no points leaves the buffer unchanged.
pub proof fn lemma_paint_nothing<P>(buf: Seq<P>, w: int, p: P)
    ensures
        painted(buf, w, Set::empty(), p) == buf,
{
    assert(painted(buf, w, Set::empty(), p) =~= buf);
}


/// The cells of the outline of the triangle with corners `p1`, `p2`, `p3`.
pub open spec fn triangle_points(p1: [i32; 2], p2: [i32; 2], p3: [i32; 2]) -> Set<(int, int)> {
    line_points(p1[0] as int, p1[1] as int, p2[0] as int, p2[1] as int).to_set().union(
        line_points(p2[0] as int, p2[1] as int, p3[0] as int, p3[1] as int).to_set(),
    ).union(line_points(p3[0] as int, p3[1] as int, p1[0] as int, p1[1] as int).to_set())
}

/// Painting `s` and then `t` with the same value is painting their union.
pub proof fn lemma_paint_union<P>(buf: Seq<P>, w: int, s: Set<(int, int)>, t: Set<(int, int)>, p: P)
    ensures
        painted(painted(buf, w, s, p), w, t, p) == painted(buf, w, s.union(t), p),
{
    assert(painted(painted(buf, w, s, p), w, t, p) =~= painted(buf, w, s.union(t), p));
}

/// A grid of `width` by `height` cells with a front and a back buffer.
/// Drawing writes to `back`; `front` holds what was last presented.
pub struct ScreenBuffer2D<P: Copy + PartialEq + Default> {
    pub width: usize,
    pub height: usize,
    pub front: Vec<P>,
    pub back: Vec<P>,
}

/// Both buffers hold exactly `width * height` cells.
pub open spec fn buffer_wf<P: Copy + PartialEq + Default>(b: &ScreenBuffer2D<P>) -> bool {
    &&& b.front@.len() == b.width * b.height
    &&& b.back@.len() == b.width * b.height
    &&& b.width * b.height <= usize::MAX
}

/// Facts about row-major indexing in a grid `w` cells wide and `h` rows high.
pub proof fn lemma_index_roundtrip(w: int, h: int, i: int)
    requires
        w > 0,
        0 <= i < w * h,
    ensures
        0 <= i % w < w,
        0 <= i / w < h,
        cell_index(w, i % w, i / w) == i,
{
    vstd::arithmetic::div_mod::lemma_fundamental_div_mod(i, w);
    assert(w * (i / w) == (i / w) * w) by (nonlinear_arith);
    vstd::arithmetic::div_mod::lemma_mod_pos_bound(i, w);
    vstd::arithmetic::div_mod::lemma_div_pos_is_pos(i, w);
    if i / w >= h {
        vstd::arithmetic::mul::lemma_mul_inequality(h, i / w, w);
        assert(w * (i / w) >= w * h) by (nonlinear_arith)
            requires i / w >= h, w > 0;
    }
}

/// The cell at column `x` < `w`, row `y` has index `y * w + x`, from which both are recovered.
pub proof fn lemma_index_of_cell(w: int, h: int, x: int, y: int)
    requires
        w > 0,
        0 <= x < w,
        0 <= y < h,
    ensures
        0 <= cell_index(w, x, y) < w * h,
        cell_index(w, x, y) % w == x,
        cell_index(w, x, y) / w == y,
{
    vstd::arithmetic::div_mod::lemma_fundamental_div_mod_converse(cell_index(w, x, y), w, y, x);
    assert(0 <= y * w + x < w * h) by (nonlinear_arith)
        requires 0 <= x < w, 0 <= y < h;
}

fn filled_vec<P: Copy>(value: P, len: usize) -> (v: Vec<P>)
    ensures
        v@ == Seq::new(len as nat, |i: int| value),
{
    let mut v: Vec<P> = Vec::new();
    let mut k: usize = 0;
    while k < len
        invariant
            k <= len,
            v@ == Seq::new(k as nat, |i: int| value),
        decreases len - k,
    {
        v.push(value);
        k = k + 1;
    }
    v
}

/// The cells of the line from (x0, y0) to (x1, y1), in the order in which
/// `line` visits them.
pub fn line_cells(x0: i32, y0: i32, x1: i32, y1: i32) -> (r: Vec<(i64, i64)>)
    ensures
        r@.len() == line_points(x0 as int, y0 as int, x1 as int, y1 as int).len(),
        forall|k: int|
            #![trigger r@[k]]
            0 <= k < r@.len() ==> r@[k].0 == line_points(x0 as int, y0 as int, x1 as int, y1 as int)[k].0
                && r@[k].1 == line_points(x0 as int, y0 as int, x1 as int, y1 as int)[k].1,
{
    let ghost pts = line_points(x0 as int, y0 as int, x1 as int, y1 as int);
    let xe = x1 as i64;
    let ye = y1 as i64;
    let mut x = x0 as i64;
    let mut y = y0 as i64;
    let dx: i64 = if xe - x < 0 { x - xe } else { xe - x };
    let dy: i64 = if ye - y < 0 { ye - y } else { y - ye };
    let sx: i64 = if x < xe { 1 } else { -1 };
    let sy: i64 = if y < ye { 1 } else { -1 };
    let mut err: i64 = dx + dy;
    let mut out: Vec<(i64, i64)> = Vec::new();
    let ghost mut done: Seq<(int, int)> = Seq::empty();
    let ghost mut fuel: nat = (dx - dy) as nat;
    proof {
        assert(line_state_ok(x0 as int, y0 as int, x1 as int, y1 as int, x as int, y as int, err as int)) by (nonlinear_arith)
            requires
                err == dx + dy,
                x == x0,
                y == y0,
                dx == abs_int(x1 - x0),
                -dy == abs_int(y1 - y0),
                dx >= 0,
                dy <= 0;
    }
    loop
        invariant_except_break
            line_state_ok(x0 as int, y0 as int, x1 as int, y1 as int, x as int, y as int, err as int),
            fuel >= line_remaining(x0 as int, y0 as int, x1 as int, y1 as int, x as int, y as int),
            done + line_run(x as int, y as int, err as int, x1 as int, y1 as int, dx as int, -dy as int, sx as int, sy as int, fuel) == pts,
        invariant
            xe == x1,
            ye == y1,
            dx == abs_int(x1 - x0),
            -dy == abs_int(y1 - y0),
            sx == step_dir(x0 as int, x1 as int),
            sy == step_dir(y0 as int, y1 as int),
            pts == line_points(x0 as int, y0 as int, x1 as int, y1 as int),
            out@.len() == done.len(),
            forall|k: int| #![trigger out@[k]] 0 <= k < out@.len() ==> out@[k].0 == done[k].0 && out@[k].1 == done[k].1,
        ensures
            done == pts,
        decreases fuel,
    {
        out.push((x, y));
        proof {
            done = done.push((x as int, y as int));
        }
        if x == xe && y == ye {
            break;
        }
        proof {
            lemma_line_step(x0 as int, y0 as int, x1 as int, y1 as int, x as int, y as int, err as int);
        }
        let e2 = 2 * err;
        if e2 >= dy {
            err = err + dy;
            x = x + sx;
        }
        if e2 <= dx {
            err = err + dx;
            y = y + sy;
        }
        proof {
            fuel = (fuel - 1) as nat;
        }
    }
    out
}

impl<P: Copy + PartialEq + Default> ScreenBuffer2D<P> {
    /// A `width` by `height` grid whose cells all hold `P::default()`.
    pub fn new(width: usize, height: usize) -> (r: Self)
        requires
            width * height <= usize::MAX,
        ensures
            r.width == width,
            r.height == height,
            buffer_wf(&r),
            exists|d: P|
                is_default(d) && r.front@ == Seq::new((width * height) as nat, |i: int| d)
                    && r.back@ == Seq::new((width * height) as nat, |i: int| d),
    {
        let len = width * height;
        let d = P::default();
        assert(is_default(d));
        Self { width, height, front: filled_vec(d, len), back: filled_vec(d, len) }
    }

    /// The row-major index of the cell at column `x`, row `y`, if it lies in the grid.
    pub fn idx(&self, x: usize, y: usize) -> (r: Option<usize>)
        requires
            buffer_wf(self),
        ensures
            r == (if x < self.width && y < self.height {
                Some(cell_index(self.width as int, x as int, y as int) as usize)
            } else {
                None::<usize>
            }),
            r matches Some(i) ==> i < self.back@.len(),
    {
        if x < self.width && y < self.height {
            proof {
                lemma_index_of_cell(self.width as int, self.height as int, x as int, y as int);
            }
            Some(y * self.width + x)
        } else {
            None
        }
    }

    /// Sets every cell of the back buffer to `p`.
    pub fn fill(&mut self, p: P)
        requires
            buffer_wf(old(self)),
        ensures
            buffer_wf(final(self)),
            final(self).width == old(self).width,
            final(self).height == old(self).height,
            final(self).front@ == old(self).front@,
            final(self).back@ == Seq::new(old(self).back@.len(), |i: int| p),
    {
        let n = self.back.len();
        let mut k: usize = 0;
        while k < n
            invariant
                k <= n,
                n == self.back@.len(),
                self.width == old(self).width,
                self.height == old(self).height,
                self.front@ == old(self).front@,
                self.back@.len() == old(self).back@.len(),
                forall|i: int| 0 <= i < k ==> self.back@[i] == p,
            decreases n - k,
        {
            self.back.set(k, p);
            k = k + 1;
        }
        assert(self.back@ =~= Seq::new(old(self).back@.len(), |i: int| p));
    }

    /// Sets every cell of the back buffer to `P::default()`.
    pub fn clear(&mut self)
        requires
            buffer_wf(old(self)),
        ensures
            buffer_wf(final(self)),
            final(self).width == old(self).width,
            final(self).height == old(self).height,
            final(self).front@ == old(self).front@,
            exists|d: P|
                is_default(d) && final(self).back@ == Seq::new(old(self).back@.len(), |i: int| d),
    {
        let d = P::default();
        assert(is_default(d));
        self.fill(d);
    }

    /// Writes `p` to the back buffer at column `x`, row `y`; a point outside the grid is ignored.
    pub fn put(&mut self, p: P, x: usize, y: usize)
        requires
            buffer_wf(old(self)),
        ensures
            buffer_wf(final(self)),
            final(self).width == old(self).width,
            final(self).height == old(self).height,
            final(self).front@ == old(self).front@,
            final(self).back@ == (if x < old(self).width && y < old(self).height {
                old(self).back@.update(cell_index(old(self).width as int, x as int, y as int), p)
            } else {
                old(self).back@
            }),
    {
        if let Some(i) = self.idx(x, y) {
            proof {
                lemma_index_of_cell(self.width as int, self.height as int, x as int, y as int);
            }
            self.back.set(i, p);
        }
    }
    /// Draws the line from (x0, y0) to (x1, y1) with `p`, cell by cell; cells outside
    /// the grid (negative coordinates among them) are skipped.
    pub fn line(&mut self, p: P, x0: i32, y0: i32, x1: i32, y1: i32)
        requires
            buffer_wf(old(self)),
        ensures
            buffer_wf(final(self)),
            final(self).width == old(self).width,
            final(self).height == old(self).height,
            final(self).front@ == old(self).front@,
            final(self).back@ == painted(
                old(self).back@,
                old(self).width as int,
                line_points(x0 as int, y0 as int, x1 as int, y1 as int).to_set(),
                p,
            ),
    {
        let ghost pts = line_points(x0 as int, y0 as int, x1 as int, y1 as int);
        let ghost w = self.width as int;
        let ghost h = self.height as int;
        let xe = x1 as i64;
        let ye = y1 as i64;
        let mut x = x0 as i64;
        let mut y = y0 as i64;
        let dx: i64 = if xe - x < 0 { x - xe } else { xe - x };
        let dy: i64 = if ye - y < 0 { ye - y } else { y - ye };
        let sx: i64 = if x < xe { 1 } else { -1 };
        let sy: i64 = if y < ye { 1 } else { -1 };
        let mut err: i64 = dx + dy;
        let ghost mut done: Seq<(int, int)> = Seq::empty();
        let ghost mut fuel: nat = (dx - dy) as nat;
        proof {
            assert(line_state_ok(x0 as int, y0 as int, x1 as int, y1 as int, x as int, y as int, err as int)) by (nonlinear_arith)
                requires
                    err == dx + dy,
                    x == x0,
                    y == y0,
                    dx == abs_int(x1 - x0),
                    -dy == abs_int(y1 - y0),
                    dx >= 0,
                    dy <= 0;
            lemma_paint_nothing(old(self).back@, w, p);
        }
        loop
            invariant_except_break
                line_state_ok(x0 as int, y0 as int, x1 as int, y1 as int, x as int, y as int, err as int),
                fuel >= line_remaining(x0 as int, y0 as int, x1 as int, y1 as int, x as int, y as int),
                done + line_run(x as int, y as int, err as int, x1 as int, y1 as int, dx as int, -dy as int, sx as int, sy as int, fuel) == pts,
            invariant
                buffer_wf(self),
                self.width == old(self).width,
                self.height == old(self).height,
                self.front@ == old(self).front@,
                w == self.width,
                h == self.height,
                xe == x1,
                ye == y1,
                dx == abs_int(x1 - x0),
                -dy == abs_int(y1 - y0),
                sx == step_dir(x0 as int, x1 as int),
                sy == step_dir(y0 as int, y1 as int),
                pts == line_points(x0 as int, y0 as int, x1 as int, y1 as int),
                self.back@ == painted(old(self).back@, w, done.to_set(), p),
            ensures
                done == pts,
            decreases fuel,
        {
            proof {
                lemma_paint_one(old(self).back@, w, h, done.to_set(), x as int, y as int, p);
                assert(done.push((x as int, y as int)) =~= done + seq![(x as int, y as int)]);
                Seq::lemma_to_set_insert_commutes(done, (x as int, y as int));
            }
            if x >= 0 && y >= 0 {
                self.put(p, x as usize, y as usize);
            }
            proof {
                done = done.push((x as int, y as int));
            }
            if x == xe && y == ye {
                break;
            }
            proof {
                lemma_line_step(x0 as int, y0 as int, x1 as int, y1 as int, x as int, y as int, err as int);
            }
            let e2 = 2 * err;
            if e2 >= dy {
                err = err + dy;
                x = x + sx;
            }
            if e2 <= dx {
                err = err + dx;
                y = y + sy;
            }
            proof {
                fuel = (fuel - 1) as nat;
            }
        }
    }
    /// Writes `p` to every cell of the rectangle whose top-left corner is (x, y),
    /// `w` columns wide and `h` rows high; the part outside the grid is ignored.
    pub fn fill_bound(&mut self, p: P, x: usize, y: usize, w: usize, h: usize)
        requires
            buffer_wf(old(self)),
            h > 0 ==> x + w <= usize::MAX,
            y + h <= usize::MAX,
        ensures
            buffer_wf(final(self)),
            final(self).width == old(self).width,
            final(self).height == old(self).height,
            final(self).front@ == old(self).front@,
            final(self).back@ == painted(
                old(self).back@,
                old(self).width as int,
                rect_points(x as int, y as int, w as int, h as int),
                p,
            ),
    {
        let ghost gw = self.width as int;
        let ghost gh = self.height as int;
        let ghost base = old(self).back@;
        proof {
            lemma_paint_nothing(base, gw, p);
            assert(rect_points(x as int, y as int, w as int, 0) =~= Set::<(int, int)>::empty());
        }
        let mut row = y;
        while row < y + h
            invariant
                buffer_wf(self),
                self.width == old(self).width,
                self.height == old(self).height,
                self.front@ == old(self).front@,
                gw == self.width,
                gh == self.height,
                base == old(self).back@,
                h > 0 ==> x + w <= usize::MAX,
                y + h <= usize::MAX,
                y <= row <= y + h,
                self.back@ == painted(base, gw, rect_points(x as int, y as int, w as int, row - y), p),
            decreases y + h - row,
        {
            let mut col = x;
            while col < x + w
                invariant
                    buffer_wf(self),
                    self.width == old(self).width,
                    self.height == old(self).height,
                    self.front@ == old(self).front@,
                    gw == self.width,
                    gh == self.height,
                    base == old(self).back@,
                    x + w <= usize::MAX,
                    y + h <= usize::MAX,
                    y <= row < y + h,
                    x <= col <= x + w,
                    self.back@ == painted(
                        base,
                        gw,
                        rect_points(x as int, y as int, w as int, row - y).union(
                            rect_points(x as int, row as int, col - x, 1),
                        ),
                        p,
                    ),
                decreases x + w - col,
            {
                let ghost before = rect_points(x as int, y as int, w as int, row - y).union(
                    rect_points(x as int, row as int, col - x, 1),
                );
                proof {
                    lemma_paint_one(base, gw, gh, before, col as int, row as int, p);
                    assert(before.insert((col as int, row as int)) =~= rect_points(x as int, y as int, w as int, row - y).union(
                        rect_points(x as int, row as int, col + 1 - x, 1),
                    ));
                }
                self.put(p, col, row);
                col = col + 1;
            }
            proof {
                assert(rect_points(x as int, y as int, w as int, row - y).union(
                    rect_points(x as int, row as int, w as int, 1),
                ) =~= rect_points(x as int, y as int, w as int, row + 1 - y));
            }
            row = row + 1;
        }
    }

    /// Draws the outline of the triangle with corners `p1`, `p2`, `p3` as three lines.
    pub fn triangle(&mut self, p: P, p1: [i32; 2], p2: [i32; 2], p3: [i32; 2])
        requires
            buffer_wf(old(self)),
        ensures
            buffer_wf(final(self)),
            final(self).width == old(self).width,
            final(self).height == old(self).height,
            final(self).front@ == old(self).front@,
            final(self).back@ == painted(
                old(self).back@,
                old(self).width as int,
                triangle_points(p1, p2, p3),
                p,
            ),
    {
        self.line(p, p1[0], p1[1], p2[0], p2[1]);
        self.line(p, p2[0], p2[1], p3[0], p3[1]);
        self.line(p, p3[0], p3[1], p1[0], p1[1]);
        proof {
            let w = old(self).width as int;
            let b0 = old(self).back@;
            let s1 = line_points(p1[0] as int, p1[1] as int, p2[0] as int, p2[1] as int).to_set();
            let s2 = line_points(p2[0] as int, p2[1] as int, p3[0] as int, p3[1] as int).to_set();
            let s3 = line_points(p3[0] as int, p3[1] as int, p1[0] as int, p1[1] as int).to_set();
            lemma_paint_union(b0, w, s1, s2, p);
            lemma_paint_union(b0, w, s1.union(s2), s3, p);
        }
    }

    /// Width of the grid in cells.
    pub fn width(&self) -> (r: usize)
        ensures
            r == self.width,
    {
        self.width
    }

    /// Height of the grid in cells.
    pub fn height(&self) -> (r: usize)
        ensures
            r == self.height,
    {
        self.height
    }

    /// Changes the grid to `width` by `height` cells; both buffers are reset to `P::default()`.
    pub fn resize(&mut self, width: usize, height: usize)
        requires
            width * height <= usize::MAX,
        ensures
            final(self).width == width,
            final(self).height == height,
            buffer_wf(final(self)),
            exists|d: P|
                is_default(d) && final(self).front@ == Seq::new((width * height) as nat, |i: int| d)
                    && final(self).back@ == Seq::new((width * height) as nat, |i: int| d),
    {
        self.width = width;
        self.height = height;
        let len = width * height;
        let d = P::default();
        assert(is_default(d));
        self.front = filled_vec(d, len);
        self.back = filled_vec(d, len);
    }

    /// Exchanges the front and back buffers.
    pub fn swap(&mut self)
        ensures
            final(self).width == old(self).width,
            final(self).height == old(self).height,
            final(self).front@ == old(self).back@,
            final(self).back@ == old(self).front@,
    {
        std::mem::swap(&mut self.front, &mut self.back);
    }
}

} // verus!
