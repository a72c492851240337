use vstd::prelude::*;

use crate::board::BoardSize;
use crate::coord::Point;

verus! {

/// The points `(0, y)` to `(width - 1, y)`.
pub open spec fn row_points(width: nat, y: int) -> Seq<Point> {
    Seq::new(width, |x: int| Point { x: x as i32, y: y as i32 })
}

/// The points of the first `height` rows of an extent `width` wide, row by
/// row with `x` running fastest.
pub open spec fn row_major_points(width: nat, height: nat) -> Seq<Point>
    decreases height,
{
    if height == 0 {
        Seq::empty()
    } else {
        row_major_points(width, (height - 1) as nat) + row_points(width, height - 1)
    }
}

/// Listing every point of an extent.
pub trait BoardAllPoints: BoardSize {
    /// Every point, row by row with `x` running fastest.
    fn all_points(&self) -> (r: Vec<Point>)
        requires
            0 <= self.spec_width(),
            0 <= self.spec_height(),
        ensures
            r@ == row_major_points(self.spec_width() as nat, self.spec_height() as nat),
    {
        let w = self.width();
        let h = self.height();
        let mut r: Vec<Point> = Vec::new();
        let mut y: i32 = 0;
        while y < h
            invariant
                0 <= y <= h,
                w == self.spec_width(),
                h == self.spec_height(),
                0 <= w,
                r@ == row_major_points(w as nat, y as nat),
            decreases h - y,
        {
            let mut x: i32 = 0;
            while x < w
                invariant
                    0 <= x <= w,
                    0 <= y < h,
                    0 <= w,
                    r@ == row_major_points(w as nat, y as nat) + row_points(x as nat, y as int),
                decreases w - x,
            {
                let ghost before = r@;
                r.push(Point::new(x, y));
                x = x + 1;
                assert(r@ =~= row_major_points(w as nat, y as nat) + row_points(x as nat, y as int));
            }
            y = y + 1;
            assert(r@ =~= row_major_points(w as nat, y as nat));
        }
        r
    }
}

impl<T: BoardSize> BoardAllPoints for T {
}

/// The points `(x, 0)` to `(x, height - 1)`.
pub open spec fn column_points(x: int, height: nat) -> Seq<Point> {
    Seq::new(height, |y: int| Point { x: x as i32, y: y as i32 })
}

/// The points of the first `width` columns of an extent `height` tall,
/// column by column with `y` running fastest.
pub open spec fn column_major_points(width: nat, height: nat) -> Seq<Point>
    decreases width,
{
    if width == 0 {
        Seq::empty()
    } else {
        column_major_points((width - 1) as nat, height) + column_points(width - 1, height)
    }
}

/// Visiting every point of an extent column by column.
pub trait BoardForAllPoints: BoardSize {
    /// Every point in the order of a visit, column by column with `y`
    /// running fastest.
    fn for_all_points(&self) -> (r: Vec<Point>)
        requires
            0 <= self.spec_width(),
            0 <= self.spec_height(),
        ensures
            r@ == column_major_points(self.spec_width() as nat, self.spec_height() as nat),
    {
        let w = self.width();
        let h = self.height();
        let mut r: Vec<Point> = Vec::new();
        let mut x: i32 = 0;
        while x < w
            invariant
                0 <= x <= w,
                w == self.spec_width(),
                h == self.spec_height(),
                0 <= h,
                r@ == column_major_points(x as nat, h as nat),
            decreases w - x,
        {
            let mut y: i32 = 0;
            while y < h
                invariant
                    0 <= y <= h,
                    0 <= x < w,
                    0 <= h,
                    r@ == column_major_points(x as nat, h as nat) + Seq::new(
                        y as nat,
                        |k: int| Point { x, y: k as i32 },
                    ),
                decreases h - y,
            {
                r.push(Point::new(x, y));
                y = y + 1;
                assert(r@ =~= column_major_points(x as nat, h as nat) + Seq::new(
                    y as nat,
                    |k: int| Point { x, y: k as i32 },
                ));
            }
            x = x + 1;
            assert(r@ =~= column_major_points(x as nat, h as nat));
        }
        r
    }
}

impl<T: BoardSize> BoardForAllPoints for T {
}

/// The border of an extent: the bottom row from left to right, the top row
/// from left to right, then the left and the right column without their
/// ends, each from bottom to top.
pub open spec fn border_points(width: nat, height: nat) -> Seq<Point> {
    row_points(width, 0) + row_points(width, height - 1) + Seq::new(
        (height - 2) as nat,
        |k: int| Point { x: 0, y: (k + 1) as i32 },
    ) + Seq::new((height - 2) as nat, |k: int| Point { x: (width - 1) as i32, y: (k + 1) as i32 })
}

/// Listing the border of an extent.
pub trait BoardCorners: BoardSize {
    /// The border points: bottom row, top row, then the inner parts of the
    /// left and the right column.
    fn corners(&self) -> (r: Vec<Point>)
        requires
            1 <= self.spec_width(),
            2 <= self.spec_height(),
        ensures
            r@ == border_points(self.spec_width() as nat, self.spec_height() as nat),
    {
        let w = self.width();
        let h = self.height();
        let mut r: Vec<Point> = Vec::new();
        let mut x: i32 = 0;
        while x < w
            invariant
                0 <= x <= w,
                r@ == row_points(x as nat, 0),
            decreases w - x,
        {
            r.push(Point::new(x, 0));
            x = x + 1;
            assert(r@ =~= row_points(x as nat, 0));
        }
        let ghost bottom = r@;
        let mut x: i32 = 0;
        while x < w
            invariant
                0 <= x <= w,
                2 <= h,
                r@ == bottom + row_points(x as nat, h - 1),
            decreases w - x,
        {
            r.push(Point::new(x, h - 1));
            x = x + 1;
            assert(r@ =~= bottom + row_points(x as nat, h - 1));
        }
        let ghost rows = r@;
        let mut y: i32 = 1;
        while y < h - 1
            invariant
                1 <= y <= h - 1,
                r@ == rows + Seq::new((y - 1) as nat, |k: int| Point { x: 0, y: (k + 1) as i32 }),
            decreases h - 1 - y,
        {
            r.push(Point::new(0, y));
            y = y + 1;
            assert(r@ =~= rows + Seq::new((y - 1) as nat, |k: int| Point { x: 0, y: (k + 1) as i32 }));
        }
        let ghost left = r@;
        let mut y: i32 = 1;
        while y < h - 1
            invariant
                1 <= y <= h - 1,
                1 <= w,
                r@ == left + Seq::new((y - 1) as nat, |k: int| Point { x: (w - 1) as i32, y: (k + 1) as i32 }),
            decreases h - 1 - y,
        {
            r.push(Point::new(w - 1, y));
            y = y + 1;
            assert(r@ =~= left + Seq::new(
                (y - 1) as nat,
                |k: int| Point { x: (w - 1) as i32, y: (k + 1) as i32 },
            ));
        }
        assert(r@ =~= border_points(w as nat, h as nat));
        r
    }
}

impl<T: BoardSize> BoardCorners for T {
}

} // verus!

verus! {

/// The point `k` steps of `direction` away from `from`.
pub open spec fn stepped(from: Point, direction: Point, k: int) -> (int, int) {
    (from.x + k * direction.x, from.y + k * direction.y)
}

/// Walking across an extent in a straight line.
pub trait BoardIterate: BoardSize {
    /// The points from `from` on, one `direction` step apart, for as long as
    /// they lie inside the extent.
    fn iterate(&self, from: Point, direction: Point) -> (r: Vec<Point>)
        requires
            direction.x != 0 || direction.y != 0,
        ensures
            forall|k: int|
                0 <= k < r@.len() ==> #[trigger] r@[k] == (Point {
                    x: stepped(from, direction, k).0 as i32,
                    y: stepped(from, direction, k).1 as i32,
                }) && 0 <= stepped(from, direction, k).0 < self.spec_width() && 0 <= stepped(
                    from,
                    direction,
                    k,
                ).1 < self.spec_height(),
            !(0 <= stepped(from, direction, r@.len() as int).0 < self.spec_width() && 0 <= stepped(
                from,
                direction,
                r@.len() as int,
            ).1 < self.spec_height()),
    {
        let w = self.width();
        let h = self.height();
        let mut r: Vec<Point> = Vec::new();
        let mut cx: i64 = from.x as i64;
        let mut cy: i64 = from.y as i64;
        while 0 <= cx && cx < w as i64 && 0 <= cy && cy < h as i64
            invariant
                w == self.spec_width(),
                h == self.spec_height(),
                direction.x != 0 || direction.y != 0,
                (cx as int, cy as int) == stepped(from, direction, r@.len() as int),
                forall|k: int|
                    0 <= k < r@.len() ==> #[trigger] r@[k] == (Point {
                        x: stepped(from, direction, k).0 as i32,
                        y: stepped(from, direction, k).1 as i32,
                    }) && 0 <= stepped(from, direction, k).0 < w && 0 <= stepped(from, direction, k).1
                        < h,
            decreases (if direction.x > 0 {
                if w - cx > 0 {
                    w - cx
                } else {
                    0
                }
            } else if direction.x < 0 {
                if cx + 1 > 0 {
                    cx + 1
                } else {
                    0
                }
            } else if direction.y > 0 {
                if h - cy > 0 {
                    h - cy
                } else {
                    0
                }
            } else {
                if cy + 1 > 0 {
                    cy + 1
                } else {
                    0
                }
            }),
        {
            let ghost k = r@.len() as int;
            r.push(Point::new(cx as i32, cy as i32));
            cx = cx + direction.x as i64;
            cy = cy + direction.y as i64;
            assert(from.x + (k + 1) * direction.x == from.x + k * direction.x + direction.x) by (nonlinear_arith);
            assert(from.y + (k + 1) * direction.y == from.y + k * direction.y + direction.y) by (nonlinear_arith);
        }
        r
    }
}

impl<T: BoardSize> BoardIterate for T {
}

/// The `length` points from `from` on, one `direction` step apart.
pub open spec fn line_points(from: (int, int), direction: Point, length: nat) -> Seq<Point> {
    Seq::new(
        length,
        |k: int| Point { x: (from.0 + k * direction.x) as i32, y: (from.1 + k * direction.y) as i32 },
    )
}

/// Where line number `idx` of the lines through `start` starts: the first
/// such line ends at `start`, each next one starts a step further.
pub open spec fn line_start(start: Point, direction: Point, length: int, idx: int) -> (int, int) {
    (
        start.x - direction.x * (length - 1) + direction.x * idx,
        start.y - direction.y * (length - 1) + direction.y * idx,
    )
}

/// Among the first `n` lines of `length` points through `start` in
/// `direction`, those whose both ends lie inside a `width` by `height` extent.
pub open spec fn lines_through(
    width: int,
    height: int,
    start: Point,
    direction: Point,
    length: int,
    n: nat,
) -> Seq<Seq<Point>>
    decreases n,
{
    if n == 0 {
        Seq::empty()
    } else {
        let kept = lines_through(width, height, start, direction, length, (n - 1) as nat);
        let from = line_start(start, direction, length, n - 1);
        let to = (from.0 + direction.x * (length - 1), from.1 + direction.y * (length - 1));
        if 0 <= from.0 < width && 0 <= from.1 < height && 0 <= to.0 < width && 0 <= to.1 < height {
            kept.push(line_points(from, direction, length as nat))
        } else {
            kept
        }
    }
}

/// `d * m` for a unit step `d`.
fn scale(d: i64, m: i64) -> (r: i64)
    requires
        -1 <= d <= 1,
        -(i32::MAX as int) <= m <= i32::MAX,
    ensures
        r == d * m,
        d == 0 ==> r == 0,
        d == 1 ==> r == m,
        d == -1 ==> r == -m,
        -(i32::MAX as int) <= r <= i32::MAX,
{
    if d == 1 {
        m
    } else if d == -1 {
        -m
    } else {
        assert(d == 0);
        assert(d * m == 0) by (nonlinear_arith)
            requires
                d == 0,
        ;
        0
    }
}

/// Listing the straight lines of a given length through a point.
pub trait BoardLines: BoardSize {
    /// The lines of `length` points, one `direction` step apart, that pass
    /// through `start` and lie inside the extent, the one that ends at
    /// `start` first.
    fn lines(&self, start: Point, direction: Point, length: i32) -> (r: Vec<Vec<Point>>)
        requires
            -1 <= direction.x <= 1,
            -1 <= direction.y <= 1,
            1 <= length,
        ensures
            r@.map_values(|l: Vec<Point>| l@) == lines_through(
                self.spec_width(),
                self.spec_height(),
                start,
                direction,
                length as int,
                length as nat,
            ),
    {
        let w = self.width();
        let h = self.height();
        let dx = direction.x as i64;
        let dy = direction.y as i64;
        let n = length as i64;
        let mut r: Vec<Vec<Point>> = Vec::new();
        let mut idx: i64 = 0;
        while idx < n
            invariant
                0 <= idx <= n,
                n == length,
                1 <= length,
                w == self.spec_width(),
                h == self.spec_height(),
                dx == direction.x,
                dy == direction.y,
                -1 <= dx <= 1,
                -1 <= dy <= 1,
                r@.map_values(|l: Vec<Point>| l@) == lines_through(
                    w as int,
                    h as int,
                    start,
                    direction,
                    length as int,
                    idx as nat,
                ),
            decreases n - idx,
        {
            let fx: i64 = start.x as i64 - scale(dx, n - 1) + scale(dx, idx);
            let fy: i64 = start.y as i64 - scale(dy, n - 1) + scale(dy, idx);
            let tx: i64 = fx + scale(dx, n - 1);
            let ty: i64 = fy + scale(dy, n - 1);
            let ghost before = r@.map_values(|l: Vec<Point>| l@);
            if 0 <= fx && fx < w as i64 && 0 <= fy && fy < h as i64 && 0 <= tx && tx < w as i64 && 0
                <= ty && ty < h as i64 {
                let mut line: Vec<Point> = Vec::new();
                let mut k: i64 = 0;
                while k < n
                    invariant
                        0 <= k <= n,
                        n == length,
                        1 <= length,
                        -1 <= dx <= 1,
                        -1 <= dy <= 1,
                        0 <= fx < w,
                        0 <= fy < h,
                        0 <= tx < w,
                        0 <= ty < h,
                        tx == fx + dx * (n - 1),
                        ty == fy + dy * (n - 1),
                        dx == direction.x,
                        dy == direction.y,
                        line@ == line_points((fx as int, fy as int), direction, k as nat),
                    decreases n - k,
                {
                    let sx = scale(dx, k);
                    let sy = scale(dy, k);
                    proof {
                        if dx == 1 {
                            assert((n - 1) * dx == n - 1);
                        } else if dx == -1 {
                            assert((n - 1) * dx == -(n - 1));
                        } else {
                            assert(dx == 0);
                        }
                        if dy == 1 {
                            assert((n - 1) * dy == n - 1);
                        } else if dy == -1 {
                            assert((n - 1) * dy == -(n - 1));
                        } else {
                            assert(dy == 0);
                        }
                    }
                    line.push(Point::new((fx + sx) as i32, (fy + sy) as i32));
                    k = k + 1;
                    assert(line@ =~= line_points((fx as int, fy as int), direction, k as nat));
                }
                r.push(line);
            }
            idx = idx + 1;
            assert(r@.map_values(|l: Vec<Point>| l@) =~= lines_through(
                w as int,
                h as int,
                start,
                direction,
                length as int,
                idx as nat,
            ));
        }
        r
    }
}

impl<T: BoardSize> BoardLines for T {
}

} // verus!
