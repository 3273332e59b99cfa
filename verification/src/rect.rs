use vstd::prelude::*;

verus! {

/// Truncating integer division (the rounding of Rust's `/` on signed integers), for `b > 0`.
pub open spec fn trunc_div(a: int, b: int) -> int
    recommends
        b > 0,
{
    if a >= 0 {
        a / b
    } else {
        -((-a) / b)
    }
}

/// For `0 <= i <= n`, `a * i` lies between `0` and `a * n`, and so does its truncated quotient
/// by `n`, which moreover lies between `0` and `a`.
pub proof fn lemma_scaled_fraction(a: int, i: int, n: int)
    requires
        0 <= i <= n,
        0 < n,
    ensures
        a >= 0 ==> 0 <= a * i <= a * n,
        a < 0 ==> a * n <= a * i <= 0,
        a >= 0 ==> 0 <= trunc_div(a * i, n) <= a,
        a < 0 ==> a <= trunc_div(a * i, n) <= 0,
{
    if a >= 0 {
        assert(0 <= a * i <= a * n) by (nonlinear_arith)
            requires
                a >= 0,
                0 <= i <= n,
        ;
        assert(a * i / n <= a) by (nonlinear_arith)
            requires
                a >= 0,
                0 <= i <= n,
                0 < n,
        ;
        assert(0 <= a * i / n) by (nonlinear_arith)
            requires
                a >= 0,
                0 <= i,
                0 < n,
        ;
    } else {
        assert(a * n <= a * i <= 0) by (nonlinear_arith)
            requires
                a < 0,
                0 <= i <= n,
        ;
        assert((-a) * i / n <= -a) by (nonlinear_arith)
            requires
                a < 0,
                0 <= i <= n,
                0 < n,
        ;
        assert(0 <= (-a) * i / n) by (nonlinear_arith)
            requires
                a < 0,
                0 <= i,
                0 < n,
        ;
        assert(-(a * i) == (-a) * i) by (nonlinear_arith);
    }
}

/// The truncated fractions `a * i / n` do not decrease with `i` when `a >= 0`, and do not
/// increase when `a < 0`.
pub proof fn lemma_scaled_fraction_monotone(a: int, i: int, n: int)
    requires
        0 <= i,
        i + 1 <= n,
        0 < n,
    ensures
        a >= 0 ==> trunc_div(a * i, n) <= trunc_div(a * (i + 1), n),
        a < 0 ==> trunc_div(a * (i + 1), n) <= trunc_div(a * i, n),
{
    if a >= 0 {
        assert(a * i / n <= a * (i + 1) / n) by (nonlinear_arith)
            requires
                a >= 0,
                0 <= i,
                0 < n,
        ;
        lemma_scaled_fraction(a, i, n);
        lemma_scaled_fraction(a, i + 1, n);
    } else {
        assert((-a) * i / n <= (-a) * (i + 1) / n) by (nonlinear_arith)
            requires
                a < 0,
                0 <= i,
                0 < n,
        ;
        assert(-(a * i) == (-a) * i) by (nonlinear_arith);
        assert(-(a * (i + 1)) == (-a) * (i + 1)) by (nonlinear_arith);
        lemma_scaled_fraction(a, i, n);
        lemma_scaled_fraction(a, i + 1, n);
    }
}

/// Whether an integer lies in the range of `i32`.
pub open spec fn fits_i32(v: int) -> bool {
    i32::MIN <= v <= i32::MAX
}

/// An axis-aligned rectangle in pixel coordinates: the columns `x .. x + width` of the rows
/// `y .. y + height`.
#[derive(Clone, Copy, Debug, PartialEq, Eq, Structural)]
pub struct Rect {
    pub x: i32,
    pub y: i32,
    pub width: i32,
    pub height: i32,
}

impl Rect {
    /// Whether the pixel `(px, py)` lies inside the rectangle (an empty set when a side is not
    /// positive).
    pub open spec fn contains(self, px: int, py: int) -> bool {
        &&& self.x <= px < self.x + self.width
        &&& self.y <= py < self.y + self.height
    }

    pub open spec fn spec_new(x: i32, y: i32, width: i32, height: i32) -> Rect {
        Rect { x, y, width, height }
    }

    /// What `split_off_right(width)` leaves and returns.
    pub open spec fn split_right(self, width: int) -> (Rect, Rect) {
        (
            Rect { width: (self.width - width) as i32, ..self },
            Rect { x: (self.x + self.width - width) as i32, y: self.y, width: width as i32, height: self.height },
        )
    }

    /// What `split_off_left(width)` leaves and returns.
    pub open spec fn split_left(self, width: int) -> (Rect, Rect) {
        (
            Rect { x: (self.x + width) as i32, width: (self.width - width) as i32, ..self },
            Rect { width: width as i32, ..self },
        )
    }

    /// What `split_off_bottom(height)` leaves and returns.
    pub open spec fn split_bottom(self, height: int) -> (Rect, Rect) {
        (
            Rect { height: (self.height - height) as i32, ..self },
            Rect { x: self.x, y: (self.y + self.height - height) as i32, width: self.width, height: height as i32 },
        )
    }

    /// What `split_off_top(height)` leaves and returns.
    pub open spec fn split_top(self, height: int) -> (Rect, Rect) {
        (
            Rect { y: (self.y + height) as i32, height: (self.height - height) as i32, ..self },
            Rect { height: height as i32, ..self },
        )
    }

    /// The rectangle with its edges moved in by the given amounts.
    pub open spec fn shrunk(self, right: int, top: int, left: int, bottom: int) -> Rect {
        Rect {
            x: (self.x + left) as i32,
            y: (self.y + top) as i32,
            width: (self.width - right - left) as i32,
            height: (self.height - top - bottom) as i32,
        }
    }

    pub fn new(x: i32, y: i32, width: i32, height: i32) -> (r: Self)
        ensures
            r == Self::spec_new(x, y, width, height),
    {
        Self { x, y, width, height }
    }

    /// Takes a strip of `width` columns off the right edge and returns it; `self` keeps the rest.
    pub fn split_off_right(&mut self, width: i32) -> (r: Self)
        requires
            fits_i32(old(self).width - width),
            fits_i32(old(self).x + old(self).width - width),
        ensures
            *final(self) == old(self).split_right(width as int).0,
            r == old(self).split_right(width as int).1,
    {
        self.width -= width;
        Self { x: self.x + self.width, y: self.y, width, height: self.height }
    }

    /// Takes a strip of `width` columns off the left edge and returns it; `self` keeps the rest.
    pub fn split_off_left(&mut self, width: i32) -> (r: Self)
        requires
            fits_i32(old(self).x + width),
            fits_i32(old(self).width - width),
        ensures
            *final(self) == old(self).split_left(width as int).0,
            r == old(self).split_left(width as int).1,
    {
        let result = Self { x: self.x, y: self.y, width, height: self.height };
        self.x += width;
        self.width -= width;
        result
    }

    /// Takes a strip of `height` rows off the bottom edge and returns it; `self` keeps the rest.
    pub fn split_off_bottom(&mut self, height: i32) -> (r: Self)
        requires
            fits_i32(old(self).height - height),
            fits_i32(old(self).y + old(self).height - height),
        ensures
            *final(self) == old(self).split_bottom(height as int).0,
            r == old(self).split_bottom(height as int).1,
    {
        self.height -= height;
        Self { x: self.x, y: self.y + self.height, width: self.width, height }
    }

    /// Takes a strip of `height` rows off the top edge and returns it; `self` keeps the rest.
    pub fn split_off_top(&mut self, height: i32) -> (r: Self)
        requires
            fits_i32(old(self).y + height),
            fits_i32(old(self).height - height),
        ensures
            *final(self) == old(self).split_top(height as int).0,
            r == old(self).split_top(height as int).1,
    {
        let result = Self { x: self.x, y: self.y, width: self.width, height };
        self.y += height;
        self.height -= height;
        result
    }

    /// The cell in column `col` and row `row` when the rectangle is cut into `cols` columns and
    /// `rows` rows whose edges fall at the (truncated) fractions `width * col / cols` and
    /// `height * row / rows`.
    pub open spec fn grid_cell(self, cols: int, rows: int, col: int, row: int) -> Rect {
        Rect {
            x: (self.x + trunc_div(self.width * col, cols)) as i32,
            y: (self.y + trunc_div(self.height * row, rows)) as i32,
            width: (trunc_div(self.width * (col + 1), cols) - trunc_div(self.width * col, cols)) as i32,
            height: (trunc_div(self.height * (row + 1), rows) - trunc_div(self.height * row, rows)) as i32,
        }
    }

    /// Cuts the rectangle into a grid of `Y` rows of `X` cells each; `grid[row][col]` is
    /// `grid_cell(X, Y, col, row)`.
    pub fn divide_grid<const X: usize, const Y: usize>(self) -> (grid: [[Self; X]; Y])
        requires
            X <= i32::MAX,
            Y <= i32::MAX,
            fits_i32(self.width * X),
            fits_i32(self.height * Y),
            forall|col: int| 0 <= col < X ==> fits_i32(self.x + #[trigger] trunc_div(self.width * col, X as int)),
            forall|row: int| 0 <= row < Y ==> fits_i32(self.y + #[trigger] trunc_div(self.height * row, Y as int)),
        ensures
            forall|row: int, col: int|
                0 <= row < Y && 0 <= col < X ==> #[trigger] grid[row][col] == self.grid_cell(
                    X as int,
                    Y as int,
                    col,
                    row,
                ),
    {
        let w = X as i32;
        let h = Y as i32;
        let blank = Rect { x: 0, y: 0, width: 0, height: 0 };
        let mut grid: [[Self; X]; Y] = [[blank; X]; Y];
        let mut row: usize = 0;
        while row < Y
            invariant
                row <= Y,
                w == X,
                h == Y,
                X <= i32::MAX,
                Y <= i32::MAX,
                fits_i32(self.width * X),
                fits_i32(self.height * Y),
                forall|c: int| 0 <= c < X ==> fits_i32(self.x + #[trigger] trunc_div(self.width * c, X as int)),
                forall|r: int| 0 <= r < Y ==> fits_i32(self.y + #[trigger] trunc_div(self.height * r, Y as int)),
                forall|r: int, c: int|
                    0 <= r < row && 0 <= c < X ==> #[trigger] grid[r][c] == self.grid_cell(
                        X as int,
                        Y as int,
                        c,
                        r,
                    ),
            decreases Y - row,
        {
            let y = row as i32;
            let mut cells: [Self; X] = [blank; X];
            let mut col: usize = 0;
            while col < X
                invariant
                    row < Y,
                    y == row,
                    col <= X,
                    w == X,
                    h == Y,
                    X <= i32::MAX,
                    Y <= i32::MAX,
                    fits_i32(self.width * X),
                    fits_i32(self.height * Y),
                    forall|c: int| 0 <= c < X ==> fits_i32(self.x + #[trigger] trunc_div(self.width * c, X as int)),
                    forall|r: int| 0 <= r < Y ==> fits_i32(self.y + #[trigger] trunc_div(self.height * r, Y as int)),
                    forall|c: int|
                        0 <= c < col ==> #[trigger] cells[c] == self.grid_cell(
                            X as int,
                            Y as int,
                            c,
                            row as int,
                        ),
                decreases X - col,
            {
                let x = col as i32;
                proof {
                    lemma_scaled_fraction(self.width as int, x as int, X as int);
                    lemma_scaled_fraction(self.width as int, x + 1, X as int);
                    lemma_scaled_fraction(self.height as int, y as int, Y as int);
                    lemma_scaled_fraction(self.height as int, y + 1, Y as int);
                    lemma_scaled_fraction_monotone(self.width as int, x as int, X as int);
                    lemma_scaled_fraction_monotone(self.height as int, y as int, Y as int);
                }
                let left = self.width * x / w;
                let right = self.width * (x + 1) / w;
                let top = self.height * y / h;
                let bottom = self.height * (y + 1) / h;
                assert(left == trunc_div(self.width * x, X as int));
                assert(right == trunc_div(self.width * (x + 1), X as int));
                assert(top == trunc_div(self.height * y, Y as int));
                assert(bottom == trunc_div(self.height * (y + 1), Y as int));
                let cell = Rect::new(self.x + left, self.y + top, right - left, bottom - top);
                cells[col] = cell;
                col += 1;
            }
            grid[row] = cells;
            row += 1;
        }
        grid
    }

    /// Moves the left and top edges in by `left` and `top`, and the right and bottom edges in
    /// by `right` and `bottom`.
    pub fn shrink(self, right: i32, top: i32, left: i32, bottom: i32) -> (r: Self)
        requires
            fits_i32(self.x + left),
            fits_i32(self.y + top),
            fits_i32(self.width - right),
            fits_i32(self.width - right - left),
            fits_i32(self.height - top),
            fits_i32(self.height - top - bottom),
        ensures
            r == self.shrunk(right as int, top as int, left as int, bottom as int),
    {
        Self {
            x: self.x + left,
            y: self.y + top,
            width: self.width - right - left,
            height: self.height - top - bottom,
        }
    }
}

/// Splitting `width` columns off the left of a rectangle (for `0 <= width <= r.width`) cuts it
/// into two rectangles that together cover exactly its pixels, with no pixel in both; the same
/// holds for the other three sides.
pub proof fn lemma_split_tiles(r: Rect, amount: int)
    requires
        0 <= amount,
        fits_i32(r.x + r.width),
        fits_i32(r.y + r.height),
    ensures
        amount <= r.width ==> forall|px: int, py: int|
            (r.contains(px, py) <==> (r.split_left(amount).0.contains(px, py) || r.split_left(amount).1.contains(px, py)))
                && !(r.split_left(amount).0.contains(px, py) && r.split_left(amount).1.contains(px, py)),
        amount <= r.width ==> forall|px: int, py: int|
            (r.contains(px, py) <==> (r.split_right(amount).0.contains(px, py) || r.split_right(amount).1.contains(px, py)))
                && !(r.split_right(amount).0.contains(px, py) && r.split_right(amount).1.contains(px, py)),
        amount <= r.height ==> forall|px: int, py: int|
            (r.contains(px, py) <==> (r.split_top(amount).0.contains(px, py) || r.split_top(amount).1.contains(px, py)))
                && !(r.split_top(amount).0.contains(px, py) && r.split_top(amount).1.contains(px, py)),
        amount <= r.height ==> forall|px: int, py: int|
            (r.contains(px, py) <==> (r.split_bottom(amount).0.contains(px, py) || r.split_bottom(amount).1.contains(px, py)))
                && !(r.split_bottom(amount).0.contains(px, py) && r.split_bottom(amount).1.contains(px, py)),
{
}

/// Moving a rectangle's edges in and then out again by the same amounts gives it back.
pub proof fn lemma_shrink_inverse(r: Rect, right: int, top: int, left: int, bottom: int)
    requires
        fits_i32(r.x + left),
        fits_i32(r.y + top),
        fits_i32(r.width - right - left),
        fits_i32(r.height - top - bottom),
    ensures
        r.shrunk(right, top, left, bottom).shrunk(-right, -top, -left, -bottom) == r,
{
}

/// The cells of a grid tile the rectangle: the first column starts at its left edge, each
/// column starts where the one before ends, the last one ends at its right edge, and likewise
/// for the rows; every cell of a column has that column's edges, and every cell of a row that
/// row's edges.
pub proof fn lemma_grid_tiles(r: Rect, cols: int, rows: int)
    requires
        0 < cols <= i32::MAX,
        0 < rows <= i32::MAX,
        fits_i32(r.width * cols),
        fits_i32(r.height * rows),
        forall|col: int| 0 <= col < cols ==> fits_i32(r.x + #[trigger] trunc_div(r.width * col, cols)),
        forall|row: int| 0 <= row < rows ==> fits_i32(r.y + #[trigger] trunc_div(r.height * row, rows)),
    ensures
        forall|row: int| 0 <= row < rows ==> #[trigger] r.grid_cell(cols, rows, 0, row).x == r.x,
        forall|row: int| 0 <= row < rows ==> #[trigger] r.grid_cell(cols, rows, cols - 1, row).x + r.grid_cell(cols, rows, cols - 1, row).width == r.x + r.width,
        forall|col: int, row: int|
            0 <= col < cols - 1 && 0 <= row < rows ==> #[trigger] r.grid_cell(cols, rows, col, row).x + r.grid_cell(cols, rows, col, row).width
                == r.grid_cell(cols, rows, col + 1, row).x,
        forall|col: int| 0 <= col < cols ==> #[trigger] r.grid_cell(cols, rows, col, 0).y == r.y,
        forall|col: int| 0 <= col < cols ==> #[trigger] r.grid_cell(cols, rows, col, rows - 1).y + r.grid_cell(cols, rows, col, rows - 1).height == r.y + r.height,
        forall|col: int, row: int|
            0 <= col < cols && 0 <= row < rows - 1 ==> #[trigger] r.grid_cell(cols, rows, col, row).y + r.grid_cell(cols, rows, col, row).height
                == r.grid_cell(cols, rows, col, row + 1).y,
        forall|col: int, row: int, row2: int|
            0 <= col < cols && 0 <= row < rows && 0 <= row2 < rows ==> #[trigger] r.grid_cell(cols, rows, col, row).x == #[trigger] r.grid_cell(cols, rows, col, row2).x
                && r.grid_cell(cols, rows, col, row).width == r.grid_cell(cols, rows, col, row2).width,
{
    assert forall|col: int| 0 <= col < cols implies fits_i32(#[trigger] trunc_div(r.width * (col + 1), cols) - trunc_div(r.width * col, cols)) by {
        lemma_scaled_fraction(r.width as int, col, cols);
        lemma_scaled_fraction(r.width as int, col + 1, cols);
        lemma_scaled_fraction_monotone(r.width as int, col, cols);
    }
    assert forall|row: int| 0 <= row < rows implies fits_i32(#[trigger] trunc_div(r.height * (row + 1), rows) - trunc_div(r.height * row, rows)) by {
        lemma_scaled_fraction(r.height as int, row, rows);
        lemma_scaled_fraction(r.height as int, row + 1, rows);
        lemma_scaled_fraction_monotone(r.height as int, row, rows);
    }
    assert(r.width * 0 == 0);
    assert(r.height * 0 == 0);
    assert(r.width * (cols - 1 + 1) == r.width * cols);
    assert(trunc_div(r.width * cols, cols) == r.width) by {
        if r.width >= 0 {
            assert(r.width * cols / cols == r.width) by (nonlinear_arith)
                requires
                    cols > 0,
                    r.width >= 0,
            ;
        } else {
            assert((-r.width) * cols / cols == -r.width) by (nonlinear_arith)
                requires
                    cols > 0,
                    r.width < 0,
            ;
            assert(-(r.width * cols) == (-r.width) * cols) by (nonlinear_arith);
            assert(r.width * cols < 0) by (nonlinear_arith)
                requires
                    cols > 0,
                    r.width < 0,
            ;
        }
    }
    assert(trunc_div(r.height * rows, rows) == r.height) by {
        if r.height >= 0 {
            assert(r.height * rows / rows == r.height) by (nonlinear_arith)
                requires
                    rows > 0,
                    r.height >= 0,
            ;
        } else {
            assert((-r.height) * rows / rows == -r.height) by (nonlinear_arith)
                requires
                    rows > 0,
                    r.height < 0,
            ;
            assert(-(r.height * rows) == (-r.height) * rows) by (nonlinear_arith);
            assert(r.height * rows < 0) by (nonlinear_arith)
                requires
                    rows > 0,
                    r.height < 0,
            ;
        }
    }
    assert(r.height * (rows - 1 + 1) == r.height * rows);
}

/// Cutting `a >= 0` into `n` parts at the truncated fractions `a * c / n` makes every part
/// `a / n` or one more long.
pub proof fn lemma_fraction_step(a: int, n: int, c: int)
    requires
        a >= 0,
        n > 0,
        c >= 0,
    ensures
        a / n <= a * (c + 1) / n - a * c / n <= a / n + 1,
{
    let q = a / n;
    let r = a % n;
    vstd::arithmetic::div_mod::lemma_fundamental_div_mod(a, n);
    assert(0 <= r * c) by (nonlinear_arith)
        requires
            0 <= r,
            0 <= c,
    ;
    let u = (r * c) / n;
    let v = (r * c) % n;
    vstd::arithmetic::div_mod::lemma_fundamental_div_mod(r * c, n);
    assert(a * c == (q * c + u) * n + v) by (nonlinear_arith)
        requires
            a == n * q + r,
            r * c == n * u + v,
    ;
    vstd::arithmetic::div_mod::lemma_fundamental_div_mod_converse(a * c, n, q * c + u, v);
    assert(a * (c + 1) == a * c + a) by (nonlinear_arith);
    if v + r < n {
        assert(a * (c + 1) == (q * c + u + q) * n + (v + r)) by (nonlinear_arith)
            requires
                a * c == (q * c + u) * n + v,
                a == n * q + r,
                a * (c + 1) == a * c + a,
        ;
        vstd::arithmetic::div_mod::lemma_fundamental_div_mod_converse(a * (c + 1), n, q * c + u + q, v + r);
    } else {
        assert(a * (c + 1) == (q * c + u + q + 1) * n + (v + r - n)) by (nonlinear_arith)
            requires
                a * c == (q * c + u) * n + v,
                a == n * q + r,
                a * (c + 1) == a * c + a,
        ;
        vstd::arithmetic::div_mod::lemma_fundamental_div_mod_converse(
            a * (c + 1),
            n,
            q * c + u + q + 1,
            v + r - n,
        );
    }
}

/// The cells of a grid cut from a rectangle of width and height not negative are as even as
/// whole pixels allow: every column is `width / cols` or one more pixels wide, and every row
/// `height / rows` or one more pixels tall.
pub proof fn lemma_grid_cells_even(r: Rect, cols: int, rows: int)
    requires
        0 < cols <= i32::MAX,
        0 < rows <= i32::MAX,
        r.width >= 0,
        r.height >= 0,
        fits_i32(r.width * cols),
        fits_i32(r.height * rows),
    ensures
        forall|col: int, row: int|
            0 <= col < cols && 0 <= row < rows ==> r.width as int / cols <= #[trigger] r.grid_cell(cols, rows, col, row).width
                <= r.width as int / cols + 1 && r.height as int / rows <= r.grid_cell(cols, rows, col, row).height <= r.height as int
                / rows + 1,
{
    assert forall|col: int, row: int| 0 <= col < cols && 0 <= row < rows implies r.width as int / cols
        <= #[trigger] r.grid_cell(cols, rows, col, row).width <= r.width as int / cols + 1 && r.height as int / rows
        <= r.grid_cell(cols, rows, col, row).height <= r.height as int / rows + 1 by {
        lemma_fraction_step(r.width as int, cols, col);
        lemma_fraction_step(r.height as int, rows, row);
        lemma_scaled_fraction(r.width as int, col, cols);
        lemma_scaled_fraction(r.width as int, col + 1, cols);
        lemma_scaled_fraction(r.height as int, row, rows);
        lemma_scaled_fraction(r.height as int, row + 1, rows);
    }
}

} // verus!
