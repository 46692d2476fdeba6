//! The digital line the line-drawing brushes walk: integer error stepping
//! from one point to another, one pixel per step, in every octant.

use vstd::prelude::*;

verus! {

/// Coordinates of line end points stay below this bound, so the walk's
/// error term fits 32-bit arithmetic.
pub const LINE_COORD_LIMIT: u32 = 0x4000_0000;

pub open spec fn abs(v: int) -> int {
    if v < 0 {
        -v
    } else {
        v
    }
}

/// One step of the walk: move along x when twice the error is at least
/// `dy`, along y when it is at most `dx`, adjusting the error.
pub open spec fn walk_next(x: int, y: int, err: int, dx: int, dy: int, sx: int, sy: int) -> (int, int, int) {
    let e2 = 2 * err;
    let x1 = if e2 >= dy { x + sx } else { x };
    let err1 = if e2 >= dy { err + dy } else { err };
    let y1 = if e2 <= dx { y + sy } else { y };
    let err2 = if e2 <= dx { err1 + dx } else { err1 };
    (x1, y1, err2)
}

/// The points of the walk from `(x, y)` with error `err` until it reaches
/// `(tx, ty)` (inclusive), taking at most `fuel` points.
pub open spec fn walk_from(
    x: int,
    y: int,
    err: int,
    tx: int,
    ty: int,
    dx: int,
    dy: int,
    sx: int,
    sy: int,
    fuel: nat,
) -> Seq<(int, int)>
    decreases fuel,
{
    if fuel == 0 {
        Seq::empty()
    } else if x == tx && y == ty {
        seq![(x, y)]
    } else {
        let n = walk_next(x, y, err, dx, dy, sx, sy);
        seq![(x, y)] + walk_from(n.0, n.1, n.2, tx, ty, dx, dy, sx, sy, (fuel - 1) as nat)
    }
}

pub open spec fn step_dir(a: int, b: int) -> int {
    if a < b {
        1
    } else {
        -1
    }
}

/// The pixels of the line from `(x0, y0)` to `(x1, y1)`, both ends
/// included, in walking order.
pub open spec fn line_points(x0: int, y0: int, x1: int, y1: int) -> Seq<(int, int)> {
    let dx = abs(x1 - x0);
    let dy = -abs(y1 - y0);
    walk_from(x0, y0, dx + dy, x1, y1, dx, dy, step_dir(x0, x1), step_dir(y0, y1), (dx - dy + 1) as nat)
}

/// The walk is at `(x, y)` with error `err`, having moved `i` columns and
/// `j` rows from the start.
pub open spec fn walk_state(x0: int, y0: int, x1: int, y1: int, x: int, y: int, err: int) -> bool {
    let dx = abs(x1 - x0);
    let ady = abs(y1 - y0);
    let i = abs(x - x0);
    let j = abs(y - y0);
    &&& 0 <= i <= dx
    &&& 0 <= j <= ady
    &&& x == toward(x0, x1, i)
    &&& y == toward(y0, y1, j)
    &&& err == (1 + j) * dx - (1 + i) * ady
}

/// The coordinate `i` steps from `a` in the direction of `b`.
pub open spec fn toward(a: int, b: int, i: int) -> int {
    if a < b {
        a + i
    } else {
        a - i
    }
}

/// The number of steps the walk still has to take.
pub open spec fn walk_remaining(x0: int, y0: int, x1: int, y1: int, x: int, y: int) -> int {
    (abs(x1 - x0) - abs(x - x0)) + (abs(y1 - y0) - abs(y - y0))
}

proof fn lemma_err_bounds(i: int, j: int, dx: int, ady: int)
    requires
        0 <= i <= dx,
        0 <= j <= ady,
    ensures
        i == dx && j < ady ==> (1 + j) * dx - (1 + i) * ady <= -ady,
        j == ady && i < dx ==> (1 + j) * dx - (1 + i) * ady >= dx,
{
    if i == dx && j < ady {
        assert((1 + j) * dx - (1 + i) * ady <= -ady) by (nonlinear_arith)
            requires
                i == dx,
                0 <= j < ady,
                0 <= dx,
        ;
    }
    if j == ady && i < dx {
        assert((1 + j) * dx - (1 + i) * ady >= dx) by (nonlinear_arith)
            requires
                j == ady,
                0 <= i < dx,
                0 <= ady,
        ;
    }
}

/// A step from a state short of the end stays on the line and brings the
/// end one step nearer.
pub proof fn lemma_walk_step(x0: int, y0: int, x1: int, y1: int, x: int, y: int, err: int)
    requires
        walk_state(x0, y0, x1, y1, x, y, err),
        !(x == x1 && y == y1),
    ensures
        ({
            let n = walk_next(x, y, err, abs(x1 - x0), -abs(y1 - y0), step_dir(x0, x1), step_dir(y0, y1));
            &&& walk_state(x0, y0, x1, y1, n.0, n.1, n.2)
            &&& walk_remaining(x0, y0, x1, y1, n.0, n.1) < walk_remaining(x0, y0, x1, y1, x, y)
        }),
{
    let dx = abs(x1 - x0);
    let ady = abs(y1 - y0);
    let dy = -ady;
    let i = abs(x - x0);
    let j = abs(y - y0);
    let sx = step_dir(x0, x1);
    let sy = step_dir(y0, y1);
    lemma_err_bounds(i, j, dx, ady);
    let e2 = 2 * err;
    if e2 >= dy {
        assert(i < dx);
        assert(x + sx == toward(x0, x1, i + 1));
        assert((1 + j) * dx - (1 + i) * ady - ady == (1 + j) * dx - (1 + (i + 1)) * ady) by (nonlinear_arith);
    }
    if e2 <= dx {
        assert(j < ady);
        assert(y + sy == toward(y0, y1, j + 1));
        assert((1 + j) * dx - (1 + i) * ady + dx == (1 + (j + 1)) * dx - (1 + i) * ady) by (nonlinear_arith);
        if e2 >= dy {
            assert((1 + j) * dx - (1 + (i + 1)) * ady + dx == (1 + (j + 1)) * dx - (1 + (i + 1)) * ady)
                by (nonlinear_arith);
        }
    }
}

/// With enough fuel, the walk from a state on the line goes on to the
/// end, so it starts with the current point and, short of the end,
/// continues with the walk from the next state.
pub proof fn lemma_walk_unfold(
    x0: int,
    y0: int,
    x1: int,
    y1: int,
    x: int,
    y: int,
    err: int,
    fuel: nat,
)
    requires
        walk_state(x0, y0, x1, y1, x, y, err),
        fuel >= walk_remaining(x0, y0, x1, y1, x, y) + 1,
    ensures
        ({
            let dx = abs(x1 - x0);
            let dy = -abs(y1 - y0);
            let sx = step_dir(x0, x1);
            let sy = step_dir(y0, y1);
            let s = walk_from(x, y, err, x1, y1, dx, dy, sx, sy, fuel);
            let n = walk_next(x, y, err, dx, dy, sx, sy);
            &&& s.len() >= 1
            &&& s[0] == (x, y)
            &&& (x == x1 && y == y1) ==> s.len() == 1
            &&& !(x == x1 && y == y1) ==> s.drop_first() == walk_from(
                n.0,
                n.1,
                n.2,
                x1,
                y1,
                dx,
                dy,
                sx,
                sy,
                (fuel - 1) as nat,
            )
        }),
{
    let dx = abs(x1 - x0);
    let dy = -abs(y1 - y0);
    let sx = step_dir(x0, x1);
    let sy = step_dir(y0, y1);
    let n = walk_next(x, y, err, dx, dy, sx, sy);
    if !(x == x1 && y == y1) {
        let rest = walk_from(n.0, n.1, n.2, x1, y1, dx, dy, sx, sy, (fuel - 1) as nat);
        assert((seq![(x, y)] + rest).drop_first() =~= rest);
    }
}

/// The walk starts on the line with the whole distance still to go.
pub proof fn lemma_walk_start(x0: int, y0: int, x1: int, y1: int)
    ensures
        walk_state(x0, y0, x1, y1, x0, y0, abs(x1 - x0) - abs(y1 - y0)),
        walk_remaining(x0, y0, x1, y1, x0, y0) == abs(x1 - x0) + abs(y1 - y0),
{
    let dx = abs(x1 - x0);
    let ady = abs(y1 - y0);
    assert((1 + 0) * dx - (1 + 0) * ady == dx - ady) by (nonlinear_arith);
}

/// On the line, the walk's coordinates stay between the end points.
pub proof fn lemma_walk_between(x0: int, y0: int, x1: int, y1: int, x: int, y: int, err: int)
    requires
        walk_state(x0, y0, x1, y1, x, y, err),
    ensures
        (x0 <= x <= x1) || (x1 <= x <= x0),
        (y0 <= y <= y1) || (y1 <= y <= y0),
{
}

/// The error term of a state on the line is bounded by the products of the
/// distances, so it fits wide integer arithmetic.
pub proof fn lemma_err_magnitude(x0: int, y0: int, x1: int, y1: int, x: int, y: int, err: int, bound: int)
    requires
        walk_state(x0, y0, x1, y1, x, y, err),
        abs(x1 - x0) < bound,
        abs(y1 - y0) < bound,
        bound > 0,
    ensures
        -((bound + 1) * bound) <= err <= (bound + 1) * bound,
{
    let dx = abs(x1 - x0);
    let ady = abs(y1 - y0);
    let i = abs(x - x0);
    let j = abs(y - y0);
    assert((1 + j) * dx <= (bound + 1) * bound) by (nonlinear_arith)
        requires
            0 <= j <= ady < bound,
            0 <= dx < bound,
    ;
    assert((1 + i) * ady <= (bound + 1) * bound) by (nonlinear_arith)
        requires
            0 <= i <= dx < bound,
            0 <= ady < bound,
    ;
    assert(0 <= (1 + j) * dx) by (nonlinear_arith)
        requires
            0 <= j,
            0 <= dx,
    ;
    assert(0 <= (1 + i) * ady) by (nonlinear_arith)
        requires
            0 <= i,
            0 <= ady,
    ;
}

proof fn lemma_walk_points_between(
    x0: int,
    y0: int,
    x1: int,
    y1: int,
    x: int,
    y: int,
    err: int,
    fuel: nat,
    k: int,
)
    requires
        walk_state(x0, y0, x1, y1, x, y, err),
        0 <= k < walk_from(
            x,
            y,
            err,
            x1,
            y1,
            abs(x1 - x0),
            -abs(y1 - y0),
            step_dir(x0, x1),
            step_dir(y0, y1),
            fuel,
        ).len(),
    ensures
        ({
            let p = walk_from(
                x,
                y,
                err,
                x1,
                y1,
                abs(x1 - x0),
                -abs(y1 - y0),
                step_dir(x0, x1),
                step_dir(y0, y1),
                fuel,
            )[k];
            &&& (x0 <= p.0 <= x1) || (x1 <= p.0 <= x0)
            &&& (y0 <= p.1 <= y1) || (y1 <= p.1 <= y0)
        }),
    decreases fuel,
{
    lemma_walk_between(x0, y0, x1, y1, x, y, err);
    if fuel > 0 && !(x == x1 && y == y1) && k > 0 {
        let n = walk_next(x, y, err, abs(x1 - x0), -abs(y1 - y0), step_dir(x0, x1), step_dir(y0, y1));
        lemma_walk_step(x0, y0, x1, y1, x, y, err);
        lemma_walk_points_between(x0, y0, x1, y1, n.0, n.1, n.2, (fuel - 1) as nat, k - 1);
    }
}

/// Every point of a line lies between its end points in both coordinates.
pub proof fn lemma_line_point_between(x0: int, y0: int, x1: int, y1: int, k: int)
    requires
        0 <= k < line_points(x0, y0, x1, y1).len(),
    ensures
        (x0 <= line_points(x0, y0, x1, y1)[k].0 <= x1) || (x1 <= line_points(x0, y0, x1, y1)[k].0 <= x0),
        (y0 <= line_points(x0, y0, x1, y1)[k].1 <= y1) || (y1 <= line_points(x0, y0, x1, y1)[k].1 <= y0),
{
    let dx = abs(x1 - x0);
    let dy = -abs(y1 - y0);
    lemma_walk_start(x0, y0, x1, y1);
    lemma_walk_points_between(x0, y0, x1, y1, x0, y0, dx + dy, (dx - dy + 1) as nat, k);
}

/// One step of the walk on machine integers.
pub fn walk_step(x: i64, y: i64, err: i64, dx: i64, dy: i64, sx: i64, sy: i64) -> (r: (i64, i64, i64))
    requires
        -0x1_0000_0000 <= x <= 0x1_0000_0000,
        -0x1_0000_0000 <= y <= 0x1_0000_0000,
        -0x2000_0000_0000_0000 <= err <= 0x2000_0000_0000_0000,
        0 <= dx <= 0x1_0000_0000,
        -0x1_0000_0000 <= dy <= 0,
        sx == 1 || sx == -1,
        sy == 1 || sy == -1,
    ensures
        (r.0 as int, r.1 as int, r.2 as int) == walk_next(
            x as int,
            y as int,
            err as int,
            dx as int,
            dy as int,
            sx as int,
            sy as int,
        ),
{
    let e2 = 2 * err;
    let mut nx = x;
    let mut ne = err;
    let mut ny = y;
    if e2 >= dy {
        nx = x + sx;
        ne = err + dy;
    }
    if e2 <= dx {
        ny = y + sy;
        ne = ne + dx;
    }
    (nx, ny, ne)
}

} // verus!
