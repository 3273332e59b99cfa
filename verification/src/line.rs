use vstd::prelude::*;

verus! {

/// `|v|`.
pub open spec fn abs(v: int) -> int {
    if v < 0 {
        -v
    } else {
        v
    }
}

/// The position `(x, y)` and error term of the line walk from `(ax, ay)` to `(bx, by)` after
/// `k` steps. Each step of the walk (Bresenham's algorithm for all octants) moves one pixel
/// along x, along y, or along both, as the error term says; once the walk reaches `(bx, by)`
/// it stays there.
pub open spec fn line_state(ax: int, ay: int, bx: int, by: int, k: nat) -> (int, int, int)
    decreases k,
{
    let dx = abs(bx - ax);
    let dy = -abs(by - ay);
    let sx: int = if ax < bx { 1 } else { -1 };
    let sy: int = if ay < by { 1 } else { -1 };
    if k == 0 {
        (ax, ay, dx + dy)
    } else {
        let (x, y, err) = line_state(ax, ay, bx, by, (k - 1) as nat);
        if x == bx && y == by {
            (x, y, err)
        } else {
            let e2 = 2 * err;
            let (x2, err2) = if e2 >= dy {
                (x + sx, err + dy)
            } else {
                (x, err)
            };
            let (y2, err3) = if e2 <= dx {
                (y + sy, err2 + dx)
            } else {
                (y, err2)
            };
            (x2, y2, err3)
        }
    }
}

/// The number of steps after which the line walk has surely arrived.
pub open spec fn line_length(ax: int, ay: int, bx: int, by: int) -> nat {
    (abs(bx - ax) + abs(by - ay)) as nat
}

/// Whether the line walk from `(ax, ay)` to `(bx, by)` visits `(px, py)`.
pub open spec fn line_region(ax: int, ay: int, bx: int, by: int, px: int, py: int) -> bool {
    exists|k: nat|
        k <= line_length(ax, ay, bx, by) && (#[trigger] line_state(ax, ay, bx, by, k)).0 == px
            && line_state(ax, ay, bx, by, k).1 == py
}

/// Once the walk has arrived it stays put.
pub proof fn lemma_line_state_stays(ax: int, ay: int, bx: int, by: int, k: nat, j: nat)
    requires
        k <= j,
        line_state(ax, ay, bx, by, k).0 == bx,
        line_state(ax, ay, bx, by, k).1 == by,
    ensures
        line_state(ax, ay, bx, by, j) == line_state(ax, ay, bx, by, k),
    decreases j - k,
{
    if j > k {
        lemma_line_state_stays(ax, ay, bx, by, k, (j - 1) as nat);
    }
}

/// The facts the walk keeps after `k` steps, with `a` steps taken along x and `b` along y.
pub open spec fn line_walk_inv(ax: int, ay: int, bx: int, by: int, k: nat, a: int, b: int) -> bool {
    let dx = abs(bx - ax);
    let dy = -abs(by - ay);
    let sx: int = if ax < bx { 1 } else { -1 };
    let sy: int = if ay < by { 1 } else { -1 };
    let (x, y, err) = line_state(ax, ay, bx, by, k);
    &&& 0 <= a <= dx
    &&& 0 <= b <= -dy
    &&& x == ax + sx * a
    &&& y == ay + sy * b
    &&& err == (b + 1) * dx + (a + 1) * dy
    &&& 2 * dy <= err <= 2 * dx
    &&& k <= a + b
}

/// One more step of the walk keeps the facts, and brings it one pixel nearer to its end along
/// x, y or both, without passing the end.
pub proof fn lemma_line_walk_step(ax: int, ay: int, bx: int, by: int, k: nat, a: int, b: int)
    requires
        line_walk_inv(ax, ay, bx, by, k, a, b),
        !(line_state(ax, ay, bx, by, k).0 == bx && line_state(ax, ay, bx, by, k).1 == by),
    ensures
        ({
            let dx = abs(bx - ax);
            let dy = -abs(by - ay);
            let err = line_state(ax, ay, bx, by, k).2;
            let a2 = if 2 * err >= dy { a + 1 } else { a };
            let b2 = if 2 * err <= dx { b + 1 } else { b };
            &&& line_walk_inv(ax, ay, bx, by, k + 1, a2, b2)
            &&& a2 + b2 > a + b
        }),
{
    let dx = abs(bx - ax);
    let dy = -abs(by - ay);
    let sx: int = if ax < bx { 1 } else { -1 };
    let sy: int = if ay < by { 1 } else { -1 };
    let (x, y, err) = line_state(ax, ay, bx, by, k);
    let e2 = 2 * err;
    // x is at its end exactly when a == dx, and y when b == -dy
    assert(x == bx <==> a == dx) by (nonlinear_arith)
        requires
            x == ax + sx * a,
            sx == (if ax < bx { 1int } else { -1int }),
            dx == abs(bx - ax),
            0 <= a <= dx,
    ;
    assert(y == by <==> b == -dy) by (nonlinear_arith)
        requires
            y == ay + sy * b,
            sy == (if ay < by { 1int } else { -1int }),
            dy == -abs(by - ay),
            0 <= b <= -dy,
    ;
    if e2 >= dy {
        if a == dx {
            assert(b < -dy);
            assert(err <= -(-dy)) by (nonlinear_arith)
                requires
                    err == (b + 1) * dx + (a + 1) * dy,
                    a == dx,
                    0 <= b,
                    b + 1 <= -dy,
                    0 <= dx,
            ;
            assert(false);
        }
    }
    if e2 <= dx {
        if b == -dy {
            assert(a < dx);
            assert(err >= dx) by (nonlinear_arith)
                requires
                    err == (b + 1) * dx + (a + 1) * dy,
                    b == -dy,
                    0 <= a,
                    a + 1 <= dx,
                    dy <= 0,
            ;
            assert(false);
        }
    }
    let a2 = if e2 >= dy { a + 1 } else { a };
    let b2 = if e2 <= dx { b + 1 } else { b };
    let (x2, y2, err2) = line_state(ax, ay, bx, by, k + 1);
    assert(x2 == ax + sx * a2) by (nonlinear_arith)
        requires
            x == ax + sx * a,
            x2 == (if e2 >= dy { x + sx } else { x }),
            a2 == (if e2 >= dy { a + 1 } else { a }),
    ;
    assert(y2 == ay + sy * b2) by (nonlinear_arith)
        requires
            y == ay + sy * b,
            y2 == (if e2 <= dx { y + sy } else { y }),
            b2 == (if e2 <= dx { b + 1 } else { b }),
    ;
    assert(err2 == (b2 + 1) * dx + (a2 + 1) * dy) by (nonlinear_arith)
        requires
            err == (b + 1) * dx + (a + 1) * dy,
            err2 == err + (if e2 >= dy { dy } else { 0 }) + (if e2 <= dx { dx } else { 0 }),
            a2 == (if e2 >= dy { a + 1 } else { a }),
            b2 == (if e2 <= dx { b + 1 } else { b }),
    ;
}

/// The walk after `k` steps has taken `a` steps along x and `b` along y, within the distances
/// to the end; until it arrives it keeps `line_walk_inv`, and once it has arrived it has taken
/// every step along both.
proof fn lemma_line_walk_counts(ax: int, ay: int, bx: int, by: int, k: nat) -> (ab: (int, int))
    ensures
        ({
            let (a, b) = ab;
            let (x, y, err) = line_state(ax, ay, bx, by, k);
            ||| line_walk_inv(ax, ay, bx, by, k, a, b)
            ||| (x == bx && y == by && a == abs(bx - ax) && b == abs(by - ay))
        }),
    decreases k,
{
    if k == 0 {
        assert(line_walk_inv(ax, ay, bx, by, 0, 0, 0));
        (0, 0)
    } else {
        let (a, b) = lemma_line_walk_counts(ax, ay, bx, by, (k - 1) as nat);
        let (x, y, err) = line_state(ax, ay, bx, by, (k - 1) as nat);
        if x == bx && y == by {
            if !(a == abs(bx - ax) && b == abs(by - ay)) {
                lemma_line_walk_arrived(ax, ay, bx, by, (k - 1) as nat, a, b);
            }
            (abs(bx - ax), abs(by - ay))
        } else {
            lemma_line_walk_step(ax, ay, bx, by, (k - 1) as nat, a, b);
            let dx = abs(bx - ax);
            let dy = -abs(by - ay);
            let a2 = if 2 * err >= dy { a + 1 } else { a };
            let b2 = if 2 * err <= dx { b + 1 } else { b };
            (a2, b2)
        }
    }
}

/// Where the walk stands says how many steps it has taken along each axis.
proof fn lemma_line_walk_arrived(ax: int, ay: int, bx: int, by: int, k: nat, a: int, b: int)
    requires
        line_walk_inv(ax, ay, bx, by, k, a, b),
    ensures
        line_state(ax, ay, bx, by, k).0 == bx <==> a == abs(bx - ax),
        line_state(ax, ay, bx, by, k).1 == by <==> b == abs(by - ay),
{
    let dx = abs(bx - ax);
    let dy = -abs(by - ay);
    let sx: int = if ax < bx { 1 } else { -1 };
    let sy: int = if ay < by { 1 } else { -1 };
    let (x, y, err) = line_state(ax, ay, bx, by, k);
    assert(x == bx <==> a == dx) by (nonlinear_arith)
        requires
            x == ax + sx * a,
            sx == (if ax < bx { 1int } else { -1int }),
            dx == abs(bx - ax),
            0 <= a <= dx,
    ;
    assert(y == by <==> b == -dy) by (nonlinear_arith)
        requires
            y == ay + sy * b,
            sy == (if ay < by { 1int } else { -1int }),
            dy == -abs(by - ay),
            0 <= b <= -dy,
    ;
}

/// The line walk goes from its start to its end one pixel at a time: it starts at `(ax, ay)`;
/// every step moves x by nothing or by one toward `bx`, and y by nothing or by one toward `by`,
/// so that both stay between the ends; a step that moves neither comes only after the walk has
/// arrived; and after `line_length` steps it has arrived at `(bx, by)`.
pub proof fn lemma_line_walk_shape(ax: int, ay: int, bx: int, by: int, k: nat)
    ensures
        line_state(ax, ay, bx, by, 0).0 == ax && line_state(ax, ay, bx, by, 0).1 == ay,
        ({
            let sx: int = if ax < bx { 1 } else { -1 };
            let sy: int = if ay < by { 1 } else { -1 };
            let (x, y, err) = line_state(ax, ay, bx, by, k);
            let (x2, y2, err2) = line_state(ax, ay, bx, by, k + 1);
            &&& x2 == x || x2 == x + sx
            &&& y2 == y || y2 == y + sy
            &&& abs(bx - x2) + abs(x2 - ax) == abs(bx - ax)
            &&& abs(by - y2) + abs(y2 - ay) == abs(by - ay)
            &&& (x2 == x && y2 == y) ==> (x == bx && y == by)
        }),
        line_state(ax, ay, bx, by, line_length(ax, ay, bx, by)).0 == bx,
        line_state(ax, ay, bx, by, line_length(ax, ay, bx, by)).1 == by,
{
    let dx = abs(bx - ax);
    let dy = -abs(by - ay);
    let sx: int = if ax < bx { 1 } else { -1 };
    let sy: int = if ay < by { 1 } else { -1 };
    let (a, b) = lemma_line_walk_counts(ax, ay, bx, by, k);
    let (x, y, err) = line_state(ax, ay, bx, by, k);
    let (a2, b2) = lemma_line_walk_counts(ax, ay, bx, by, k + 1);
    let (x2, y2, err2) = line_state(ax, ay, bx, by, k + 1);
    if x == bx && y == by {
        assert(x2 == x && y2 == y);
        assert(x2 == ax + sx * dx && y2 == ay + sy * (-dy));
    } else {
        lemma_line_walk_step(ax, ay, bx, by, k, a, b);
        lemma_line_walk_arrived(ax, ay, bx, by, k, a, b);
        let na = if 2 * err >= dy { a + 1 } else { a };
        let nb = if 2 * err <= dx { b + 1 } else { b };
        assert(x2 == ax + sx * na && y2 == ay + sy * nb);
        assert(0 <= na <= dx && 0 <= nb <= -dy);
        assert(x2 == x || x2 == x + sx) by (nonlinear_arith)
            requires
                x == ax + sx * a,
                x2 == ax + sx * na,
                na == a || na == a + 1,
        ;
        assert(y2 == y || y2 == y + sy) by (nonlinear_arith)
            requires
                y == ay + sy * b,
                y2 == ay + sy * nb,
                nb == b || nb == b + 1,
        ;
        assert(abs(bx - x2) + abs(x2 - ax) == dx) by (nonlinear_arith)
            requires
                x2 == ax + sx * na,
                sx == (if ax < bx { 1int } else { -1int }),
                dx == abs(bx - ax),
                0 <= na <= dx,
        ;
        assert(abs(by - y2) + abs(y2 - ay) == -dy) by (nonlinear_arith)
            requires
                y2 == ay + sy * nb,
                sy == (if ay < by { 1int } else { -1int }),
                dy == -abs(by - ay),
                0 <= nb <= -dy,
        ;
        if x2 == x && y2 == y {
            assert(na == a) by (nonlinear_arith)
                requires
                    x == ax + sx * a,
                    x2 == ax + sx * na,
                    x2 == x,
                    sx == 1 || sx == -1,
            ;
            assert(nb == b) by (nonlinear_arith)
                requires
                    y == ay + sy * b,
                    y2 == ay + sy * nb,
                    y2 == y,
                    sy == 1 || sy == -1,
            ;
        }
    }
    let n = line_length(ax, ay, bx, by);
    let (an, bn) = lemma_line_walk_counts(ax, ay, bx, by, n);
    let (xn, yn, errn) = line_state(ax, ay, bx, by, n);
    if !(xn == bx && yn == by) {
        lemma_line_walk_arrived(ax, ay, bx, by, n, an, bn);
    }
}

/// On a line at least as wide as tall, every step of the walk before it arrives moves along x:
/// after `k <= |bx - ax|` steps x has moved `k` pixels, and until the walk arrives twice its
/// error term lies above `dy` and at most `3 dx + 2 dy`.
proof fn lemma_line_walk_wide(ax: int, ay: int, bx: int, by: int, k: nat)
    requires
        abs(bx - ax) >= abs(by - ay),
        abs(bx - ax) > 0,
        k <= abs(bx - ax),
    ensures
        ({
            let dx = abs(bx - ax);
            let dy = -abs(by - ay);
            let sx: int = if ax < bx { 1 } else { -1 };
            let (x, y, err) = line_state(ax, ay, bx, by, k);
            &&& x == ax + sx * k
            &&& !(x == bx && y == by) ==> dy < 2 * err <= 3 * dx + 2 * dy
        }),
    decreases k,
{
    let dx = abs(bx - ax);
    let dy = -abs(by - ay);
    let sx: int = if ax < bx { 1 } else { -1 };
    if k > 0 {
        lemma_line_walk_wide(ax, ay, bx, by, (k - 1) as nat);
        let (x, y, err) = line_state(ax, ay, bx, by, (k - 1) as nat);
        assert(x != bx) by (nonlinear_arith)
            requires
                x == ax + sx * (k - 1),
                sx == (if ax < bx { 1int } else { -1int }),
                dx == abs(bx - ax),
                k <= dx,
        ;
        assert(ax + sx * k == x + sx) by (nonlinear_arith)
            requires
                x == ax + sx * (k - 1),
        ;
    }
}

/// On a line at least as tall as wide, every step of the walk before it arrives moves along y:
/// after `k <= |by - ay|` steps y has moved `k` pixels, and until the walk arrives twice its
/// error term lies below `dx` and at least `2 dx + 3 dy`.
proof fn lemma_line_walk_tall(ax: int, ay: int, bx: int, by: int, k: nat)
    requires
        abs(by - ay) >= abs(bx - ax),
        abs(by - ay) > 0,
        k <= abs(by - ay),
    ensures
        ({
            let dx = abs(bx - ax);
            let dy = -abs(by - ay);
            let sy: int = if ay < by { 1 } else { -1 };
            let (x, y, err) = line_state(ax, ay, bx, by, k);
            &&& y == ay + sy * k
            &&& !(x == bx && y == by) ==> 2 * dx + 3 * dy <= 2 * err < dx
        }),
    decreases k,
{
    let dy = -abs(by - ay);
    let sy: int = if ay < by { 1 } else { -1 };
    if k > 0 {
        lemma_line_walk_tall(ax, ay, bx, by, (k - 1) as nat);
        let (x, y, err) = line_state(ax, ay, bx, by, (k - 1) as nat);
        assert(y != by) by (nonlinear_arith)
            requires
                y == ay + sy * (k - 1),
                sy == (if ay < by { 1int } else { -1int }),
                dy == -abs(by - ay),
                k <= -dy,
        ;
        assert(ay + sy * k == y + sy) by (nonlinear_arith)
            requires
                y == ay + sy * (k - 1),
        ;
    }
}

/// The longer side of the line: the number of steps the walk takes.
pub open spec fn line_steps(ax: int, ay: int, bx: int, by: int) -> nat {
    if abs(bx - ax) >= abs(by - ay) {
        abs(bx - ax) as nat
    } else {
        abs(by - ay) as nat
    }
}

/// The walk takes as many steps as the line is long along its longer side: it has arrived at
/// `(bx, by)` after `line_steps` steps and not before.
pub proof fn lemma_line_walk_steps(ax: int, ay: int, bx: int, by: int, k: nat)
    ensures
        line_state(ax, ay, bx, by, line_steps(ax, ay, bx, by)).0 == bx,
        line_state(ax, ay, bx, by, line_steps(ax, ay, bx, by)).1 == by,
        k < line_steps(ax, ay, bx, by) ==> !(line_state(ax, ay, bx, by, k).0 == bx && line_state(
            ax,
            ay,
            bx,
            by,
            k,
        ).1 == by),
{
    let dx = abs(bx - ax);
    let dy = -abs(by - ay);
    let sx: int = if ax < bx { 1 } else { -1 };
    let sy: int = if ay < by { 1 } else { -1 };
    let n = line_steps(ax, ay, bx, by);
    if n == 0 {
        return;
    }
    lemma_line_walk_shape(ax, ay, bx, by, n);
    let (xn, yn, errn) = line_state(ax, ay, bx, by, n);
    let (xm, ym, errm) = line_state(ax, ay, bx, by, n + 1);
    if dx >= -dy {
        lemma_line_walk_wide(ax, ay, bx, by, n);
        if k < n {
            lemma_line_walk_wide(ax, ay, bx, by, k);
            let x = line_state(ax, ay, bx, by, k).0;
            assert(x != bx) by (nonlinear_arith)
                requires
                    x == ax + sx * k,
                    sx == (if ax < bx { 1int } else { -1int }),
                    dx == abs(bx - ax),
                    k < dx,
            ;
        }
        if !(xn == bx && yn == by) {
            assert(xm == xn + sx);
            assert(xn == bx) by (nonlinear_arith)
                requires
                    xn == ax + sx * n,
                    n == dx,
                    sx == (if ax < bx { 1int } else { -1int }),
                    dx == abs(bx - ax),
            ;
            assert(abs(bx - xm) + abs(xm - ax) != dx);
        }
    } else {
        lemma_line_walk_tall(ax, ay, bx, by, n);
        if k < n {
            lemma_line_walk_tall(ax, ay, bx, by, k);
            let y = line_state(ax, ay, bx, by, k).1;
            assert(y != by) by (nonlinear_arith)
                requires
                    y == ay + sy * k,
                    sy == (if ay < by { 1int } else { -1int }),
                    dy == -abs(by - ay),
                    k < -dy,
            ;
        }
        if !(xn == bx && yn == by) {
            assert(ym == yn + sy);
            assert(yn == by) by (nonlinear_arith)
                requires
                    yn == ay + sy * n,
                    n == -dy,
                    sy == (if ay < by { 1int } else { -1int }),
                    dy == -abs(by - ay),
            ;
            assert(abs(by - ym) + abs(ym - ay) != -dy);
        }
    }
}

} // verus!
