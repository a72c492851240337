use vstd::prelude::*;

use crate::coord::Point;
use crate::text::decimal;
use crate::text::push_chars;
use crate::text::push_decimal;
use crate::text::string_of;
use crate::text::char_from_u32;

verus! {

/// Anything with a rectangular extent of `width` by `height` cells.
pub trait BoardSize {
    spec fn spec_width(&self) -> int;

    spec fn spec_height(&self) -> int;

    fn width(&self) -> (r: i32)
        ensures
            r == self.spec_width(),
    ;

    fn height(&self) -> (r: i32)
        ensures
            r == self.spec_height(),
    ;

    /// Whether `point` lies inside the extent.
    fn is_valid(&self, point: &Point) -> (r: bool)
        ensures
            r == (0 <= point.x < self.spec_width() && 0 <= point.y < self.spec_height()),
    {
        point.x >= 0 && point.x < self.width() && point.y >= 0 && point.y < self.height()
    }

    /// The extent as a `Size`.
    fn size(&self) -> (r: Size)
        ensures
            r.width == self.spec_width(),
            r.height == self.spec_height(),
    {
        Size::new(self.width(), self.height())
    }
}

/// A width and a height.
#[derive(Clone, Copy, Debug, PartialEq, Eq, Structural)]
pub struct Size {
    pub width: i32,
    pub height: i32,
}

impl Size {
    pub fn new(x: i32, y: i32) -> (r: Size)
        ensures
            r.width == x,
            r.height == y,
    {
        Size { width: x, height: y }
    }
}

impl BoardSize for Size {
    open spec fn spec_width(&self) -> int {
        self.width as int
    }

    open spec fn spec_height(&self) -> int {
        self.height as int
    }

    fn width(&self) -> (r: i32) {
        self.width
    }

    fn height(&self) -> (r: i32) {
        self.height
    }
}

/// A value that shows as a single character.
pub trait AsChar {
    spec fn spec_as_char(&self) -> char;

    fn as_char(&self) -> (r: char)
        ensures
            r == self.spec_as_char(),
    ;
}

impl AsChar for char {
    open spec fn spec_as_char(&self) -> char {
        *self
    }

    fn as_char(&self) -> (r: char) {
        *self
    }
}

/// The cells of row `j` in the first `n` columns, each as `| c ` with `c`
/// the character `f` gives for the cell.
pub open spec fn grid_row(f: spec_fn(int, int) -> char, j: int, n: nat) -> Seq<char>
    decreases n,
{
    if n == 0 {
        Seq::empty()
    } else {
        grid_row(f, j, (n - 1) as nat) + seq!['|', ' ', f(n - 1, j), ' ']
    }
}

/// The first `m` rows of a drawing `width` columns wide, each after a
/// separator line.
pub open spec fn grid_rows(width: nat, f: spec_fn(int, int) -> char, m: nat) -> Seq<char>
    decreases m,
{
    if m == 0 {
        Seq::empty()
    } else {
        grid_rows(width, f, (m - 1) as nat) + separator_line(width) + seq![
            ' ',
            row_label(m - 1),
            ' ',
            ' ',
        ] + grid_row(f, m - 1, width) + seq!['\n']
    }
}

/// The drawing of a grid whose cell `(x, y)` shows `f(x, y)`: a header line
/// numbering the columns from 1, then for each row a separator line and the
/// row, labelled with a letter from `'A'`.
pub open spec fn grid_text(width: nat, height: nat, f: spec_fn(int, int) -> char) -> Seq<char> {
    seq![' ', ' ', ' ', ' '] + header_cols(width) + seq!['\n'] + grid_rows(width, f, height)
}

/// Two cell functions that agree on the grid give the same drawing.
pub proof fn lemma_grid_text_agree(
    width: nat,
    height: nat,
    f: spec_fn(int, int) -> char,
    g: spec_fn(int, int) -> char,
)
    requires
        forall|x: int, y: int| 0 <= x < width && 0 <= y < height ==> #[trigger] f(x, y) == g(x, y),
    ensures
        grid_text(width, height, f) == grid_text(width, height, g),
{
    lemma_grid_rows_agree(width, f, g, height);
}

proof fn lemma_grid_row_agree(f: spec_fn(int, int) -> char, g: spec_fn(int, int) -> char, j: int, n: nat)
    requires
        forall|x: int| 0 <= x < n ==> #[trigger] f(x, j) == g(x, j),
    ensures
        grid_row(f, j, n) == grid_row(g, j, n),
    decreases n,
{
    if n > 0 {
        lemma_grid_row_agree(f, g, j, (n - 1) as nat);
    }
}

proof fn lemma_grid_rows_agree(width: nat, f: spec_fn(int, int) -> char, g: spec_fn(int, int) -> char, m: nat)
    requires
        forall|x: int, y: int| 0 <= x < width && 0 <= y < m ==> #[trigger] f(x, y) == g(x, y),
    ensures
        grid_rows(width, f, m) == grid_rows(width, g, m),
    decreases m,
{
    if m > 0 {
        lemma_grid_rows_agree(width, f, g, (m - 1) as nat);
        lemma_grid_row_agree(f, g, m - 1, width);
    }
}

impl<T: AsChar> Board<T> {
    /// The character each cell shows.
    pub open spec fn chars(&self) -> spec_fn(int, int) -> char {
        |x: int, y: int| self.cell(x, y).spec_as_char()
    }

    /// The drawing of the grid.
    pub open spec fn text(&self) -> Seq<char> {
        grid_text(self.spec_width() as nat, self.spec_height() as nat, self.chars())
    }

    /// The drawing of the grid; each row label is one character, so the grid
    /// has at most `MAX_LABELLED_ROWS` rows.
    pub fn to_string(&self) -> (r: String)
        requires
            self.wf(),
            self.spec_height() <= MAX_LABELLED_ROWS,
        ensures
            r@ == self.text(),
    {
        let w = self.width;
        let h = self.height;
        let mut out: Vec<char> = Vec::new();
        out.push(' ');
        out.push(' ');
        out.push(' ');
        out.push(' ');
        let mut i: i32 = 0;
        while i < w
            invariant
                0 <= i <= w,
                w == self.spec_width(),
                out@ == seq![' ', ' ', ' ', ' '] + header_cols(i as nat),
            decreases w - i,
        {
            out.push('|');
            out.push(' ');
            push_decimal(&mut out, (i + 1) as u32);
            out.push(' ');
            i = i + 1;
            assert(out@ =~= seq![' ', ' ', ' ', ' '] + header_cols(i as nat));
        }
        out.push('\n');
        let mut sep: Vec<char> = Vec::new();
        sep.push('-');
        sep.push('-');
        sep.push('-');
        sep.push('-');
        let mut i: i32 = 0;
        while i < w
            invariant
                0 <= i <= w,
                w == self.spec_width(),
                sep@ == seq!['-', '-', '-', '-'] + separator_cols(i as nat),
            decreases w - i,
        {
            sep.push('+');
            sep.push('-');
            sep.push('-');
            sep.push('-');
            i = i + 1;
            assert(sep@ =~= seq!['-', '-', '-', '-'] + separator_cols(i as nat));
        }
        sep.push('\n');
        let ghost head = out@;
        assert(head =~= seq![' ', ' ', ' ', ' '] + header_cols(w as nat) + seq!['\n']);
        let mut j: i32 = 0;
        while j < h
            invariant
                0 <= j <= h,
                h <= MAX_LABELLED_ROWS,
                self.wf(),
                w == self.spec_width(),
                h == self.spec_height(),
                sep@ == separator_line(w as nat),
                out@ == head + grid_rows(w as nat, self.chars(), j as nat),
            decreases h - j,
        {
            let ghost before = out@;
            push_chars(&mut out, &sep);
            out.push(' ');
            let label = char_from_u32(65 + j as u32).unwrap();
            assert(char_code(label) == 65 + j);
            assert(label == row_label(j as int));
            out.push(label);
            out.push(' ');
            out.push(' ');
            let ghost mid = out@;
            let mut i: i32 = 0;
            while i < w
                invariant
                    0 <= i <= w,
                    0 <= j < h,
                    self.wf(),
                    w == self.spec_width(),
                    h == self.spec_height(),
                    out@ == mid + grid_row(self.chars(), j as int, i as nat),
                decreases w - i,
            {
                let c = self.get(&Point::new(i, j)).as_char();
                out.push('|');
                out.push(' ');
                out.push(c);
                out.push(' ');
                i = i + 1;
                assert(out@ =~= mid + grid_row(self.chars(), j as int, i as nat));
            }
            out.push('\n');
            j = j + 1;
            assert(out@ =~= head + grid_rows(w as nat, self.chars(), j as nat));
        }
        string_of(&out)
    }
}

/// Where the cell at column `x`, row `y` lives in a column-major vector of
/// columns `height` cells tall.
pub open spec fn cell_index(x: int, y: int, height: int) -> int {
    x * height + y
}

proof fn lemma_cell_index_bounds(x: int, y: int, width: int, height: int)
    requires
        0 <= x < width,
        0 <= y < height,
    ensures
        0 <= x * height,
        0 <= cell_index(x, y, height) < width * height,
        cell_index(x, y, height) + 1 <= width * height,
{
    assert(0 <= x * height) by (nonlinear_arith)
        requires
            0 <= x,
            0 <= height,
    ;
    assert(x * height + height <= width * height) by (nonlinear_arith)
        requires
            x + 1 <= width,
            0 <= height,
    ;
}

proof fn lemma_cell_index_injective(x1: int, y1: int, x2: int, y2: int, height: int)
    requires
        0 <= y1 < height,
        0 <= y2 < height,
        cell_index(x1, y1, height) == cell_index(x2, y2, height),
    ensures
        x1 == x2,
        y1 == y2,
{
    if x1 < x2 {
        assert(x1 * height + height <= x2 * height) by (nonlinear_arith)
            requires
                x1 + 1 <= x2,
                0 <= height,
        ;
    } else if x2 < x1 {
        assert(x2 * height + height <= x1 * height) by (nonlinear_arith)
            requires
                x2 + 1 <= x1,
                0 <= height,
        ;
    }
}

/// The column headers `| 1 | 2 ...` of the first `n` columns.
pub open spec fn header_cols(n: nat) -> Seq<char>
    decreases n,
{
    if n == 0 {
        Seq::empty()
    } else {
        header_cols((n - 1) as nat) + seq!['|', ' '] + decimal(n) + seq![' ']
    }
}

/// `+---` for each of `n` columns.
pub open spec fn separator_cols(n: nat) -> Seq<char>
    decreases n,
{
    if n == 0 {
        Seq::empty()
    } else {
        separator_cols((n - 1) as nat) + seq!['+', '-', '-', '-']
    }
}

/// The line between two rows of a grid `width` columns wide.
pub open spec fn separator_line(width: nat) -> Seq<char> {
    seq!['-', '-', '-', '-'] + separator_cols(width) + seq!['\n']
}

/// The label of row `j`: the character with code `65 + j`, so `'A'` for the
/// first row, then on through the character codes.
pub open spec fn row_label(j: int) -> char {
    choose|c: char| #[trigger] char_code(c) == 65 + j
}

/// The code of a character.
pub open spec fn char_code(c: char) -> int {
    c as int
}

/// The most rows a drawing can label: row codes stay below the surrogate
/// range, which holds no characters.
pub const MAX_LABELLED_ROWS: i32 = 55231;

/// A fixed-size grid of cells, addressed by points `(x, y)` with
/// `0 <= x < width` and `0 <= y < height`.
pub struct Board<T> {
    width: i32,
    height: i32,
    cells: Vec<T>,
}

impl<T> BoardSize for Board<T> {
    closed spec fn spec_width(&self) -> int {
        self.width as int
    }

    closed spec fn spec_height(&self) -> int {
        self.height as int
    }

    fn width(&self) -> (r: i32) {
        self.width
    }

    fn height(&self) -> (r: i32) {
        self.height
    }
}

impl<T> Board<T> {
    /// The grid has a positive extent and one value for each cell.
    pub closed spec fn wf(&self) -> bool {
        &&& self.width > 0
        &&& self.height > 0
        &&& self.cells@.len() == self.width * self.height
        &&& self.width * self.height <= usize::MAX
    }

    /// A well-formed grid has a positive extent that fits an `i32`.
    pub proof fn lemma_extent(&self)
        requires
            self.wf(),
        ensures
            0 < self.spec_width() <= i32::MAX,
            0 < self.spec_height() <= i32::MAX,
    {
    }

    /// Whether `(x, y)` lies on the grid.
    pub open spec fn contains(&self, x: int, y: int) -> bool {
        0 <= x < self.spec_width() && 0 <= y < self.spec_height()
    }

    /// The value of the cell at `(x, y)`.
    pub closed spec fn cell(&self, x: int, y: int) -> T {
        self.cells@[cell_index(x, y, self.height as int)]
    }

    /// A grid whose cells are all `value`.
    pub fn new(width: i32, height: i32, value: T) -> (r: Board<T>)
        where
            T: Copy,
        requires
            width > 0,
            height > 0,
            width * height <= usize::MAX,
        ensures
            r.wf(),
            r.spec_width() == width,
            r.spec_height() == height,
            forall|x: int, y: int| r.contains(x, y) ==> r.cell(x, y) == value,
    {
        let n: usize = (width as usize) * (height as usize);
        let mut cells: Vec<T> = Vec::new();
        let mut k: usize = 0;
        while k < n
            invariant
                k <= n,
                cells@.len() == k,
                forall|i: int| 0 <= i < k ==> cells@[i] == value,
            decreases n - k,
        {
            cells.push(value);
            k = k + 1;
        }
        let r = Board { width, height, cells };
        proof {
            assert forall|x: int, y: int| r.contains(x, y) implies r.cell(x, y) == value by {
                lemma_cell_index_bounds(x, y, width as int, height as int);
            }
        }
        r
    }

    /// A grid whose cell at each point `p` is `f(&p)`.
    pub fn generate<F: Fn(&Point) -> T>(width: i32, height: i32, f: F) -> (r: Board<T>)
        requires
            width > 0,
            height > 0,
            width * height <= usize::MAX,
            forall|p: Point| 0 <= p.x < width && 0 <= p.y < height ==> f.requires((&p,)),
        ensures
            r.wf(),
            r.spec_width() == width,
            r.spec_height() == height,
            forall|x: int, y: int|
                r.contains(x, y) ==> f.ensures((&Point { x: x as i32, y: y as i32 },), r.cell(x, y)),
    {
        let mut cells: Vec<T> = Vec::new();
        let mut i: i32 = 0;
        while i < width
            invariant
                0 <= i <= width,
                width > 0,
                height > 0,
                cells@.len() == i * height,
                forall|p: Point| 0 <= p.x < width && 0 <= p.y < height ==> f.requires((&p,)),
                forall|x: int, y: int|
                    0 <= x < i && 0 <= y < height ==> f.ensures(
                        (&Point { x: x as i32, y: y as i32 },),
                        cells@[cell_index(x, y, height as int)],
                    ),
            decreases width - i,
        {
            let mut j: i32 = 0;
            while j < height
                invariant
                    0 <= i < width,
                    0 <= j <= height,
                    width > 0,
                    height > 0,
                    cells@.len() == i * height + j,
                    forall|p: Point| 0 <= p.x < width && 0 <= p.y < height ==> f.requires((&p,)),
                    forall|x: int, y: int|
                        0 <= x < i && 0 <= y < height ==> f.ensures(
                            (&Point { x: x as i32, y: y as i32 },),
                            cells@[cell_index(x, y, height as int)],
                        ),
                    forall|y: int|
                        0 <= y < j ==> f.ensures(
                            (&Point { x: i, y: y as i32 },),
                            cells@[cell_index(i as int, y, height as int)],
                        ),
                decreases height - j,
            {
                let p = Point::new(i, j);
                let v = f(&p);
                proof {
                    lemma_cell_index_bounds(i as int, j as int, width as int, height as int);
                    assert forall|x: int, y: int| 0 <= x < i && 0 <= y < height implies cell_index(
                        x,
                        y,
                        height as int,
                    ) < cells@.len() by {
                        lemma_cell_index_bounds(x, y, i as int, height as int);
                    }
                }
                cells.push(v);
                j = j + 1;
            }
            proof {
                assert forall|x: int, y: int| 0 <= x < i + 1 && 0 <= y < height implies f.ensures(
                    (&Point { x: x as i32, y: y as i32 },),
                    cells@[cell_index(x, y, height as int)],
                ) by {
                    if x == i {
                        assert(Point { x: x as i32, y: y as i32 } == Point { x: i, y: y as i32 });
                    }
                }
                assert((i + 1) * height == i * height + height) by (nonlinear_arith);
            }
            i = i + 1;
        }
        proof {
            assert(i == width);
        }
        Board { width, height, cells }
    }

    /// The value at `point`.
    pub fn get(&self, point: &Point) -> (r: &T)
        requires
            self.wf(),
            self.contains(point.x as int, point.y as int),
        ensures
            *r == self.cell(point.x as int, point.y as int),
    {
        proof {
            lemma_cell_index_bounds(
                point.x as int,
                point.y as int,
                self.width as int,
                self.height as int,
            );
        }
        let k: usize = (point.x as usize) * (self.height as usize) + (point.y as usize);
        &self.cells[k]
    }

    /// Replaces the value of every cell `p` by `f(p, value)`, visiting the
    /// cells column by column.
    pub fn for_all_points_mut<F: Fn(Point, T) -> T>(&mut self, f: F)
        where
            T: Copy,
        requires
            old(self).wf(),
            forall|p: Point, v: T| f.requires((p, v)),
        ensures
            final(self).wf(),
            final(self).spec_width() == old(self).spec_width(),
            final(self).spec_height() == old(self).spec_height(),
            forall|x: int, y: int|
                old(self).contains(x, y) ==> f.ensures(
                    (Point { x: x as i32, y: y as i32 }, old(self).cell(x, y)),
                    #[trigger] final(self).cell(x, y),
                ),
    {
        let ghost start = *self;
        let w = self.width;
        let h = self.height;
        let mut i: i32 = 0;
        while i < w
            invariant
                0 <= i <= w,
                self.wf(),
                start.wf(),
                w == start.width,
                h == start.height,
                self.width == w,
                self.height == h,
                forall|p: Point, v: T| f.requires((p, v)),
                forall|x: int, y: int|
                    0 <= x < i && 0 <= y < h ==> f.ensures(
                        (Point { x: x as i32, y: y as i32 }, start.cell(x, y)),
                        #[trigger] self.cell(x, y),
                    ),
                forall|x: int, y: int| i <= x < w && 0 <= y < h ==> #[trigger] self.cell(x, y) == start.cell(x, y),
            decreases w - i,
        {
            let mut j: i32 = 0;
            while j < h
                invariant
                    0 <= i < w,
                    0 <= j <= h,
                    self.wf(),
                    start.wf(),
                    w == start.width,
                    h == start.height,
                    self.width == w,
                    self.height == h,
                    forall|p: Point, v: T| f.requires((p, v)),
                    forall|x: int, y: int|
                        (0 <= x < i && 0 <= y < h) || (x == i && 0 <= y < j) ==> f.ensures(
                            (Point { x: x as i32, y: y as i32 }, start.cell(x, y)),
                            #[trigger] self.cell(x, y),
                        ),
                    forall|x: int, y: int|
                        (i < x < w && 0 <= y < h) || (x == i && j <= y < h) ==> #[trigger] self.cell(x, y)
                            == start.cell(x, y),
                decreases h - j,
            {
                let p = Point::new(i, j);
                let v = *self.get(&p);
                let nv = f(p, v);
                self.set(&p, nv);
                j = j + 1;
            }
            i = i + 1;
        }
    }

    /// Replaces the value at `point` with `value`; every other cell keeps its value.
    pub fn set(&mut self, point: &Point, value: T)
        requires
            old(self).wf(),
            old(self).contains(point.x as int, point.y as int),
        ensures
            final(self).wf(),
            final(self).spec_width() == old(self).spec_width(),
            final(self).spec_height() == old(self).spec_height(),
            final(self).cell(point.x as int, point.y as int) == value,
            forall|x: int, y: int|
                old(self).contains(x, y) && (x != point.x || y != point.y) ==> final(self).cell(x, y)
                    == old(self).cell(x, y),
    {
        proof {
            lemma_cell_index_bounds(
                point.x as int,
                point.y as int,
                self.width as int,
                self.height as int,
            );
        }
        let k: usize = (point.x as usize) * (self.height as usize) + (point.y as usize);
        assert(k == cell_index(point.x as int, point.y as int, self.height as int));
        self.cells.set(k, value);
        proof {
            assert forall|x: int, y: int|
                old(self).contains(x, y) && (x != point.x || y != point.y) implies self.cell(x, y)
                == old(self).cell(x, y) by {
                lemma_cell_index_bounds(x, y, self.width as int, self.height as int);
                if cell_index(x, y, self.height as int) == k {
                    lemma_cell_index_injective(
                        x,
                        y,
                        point.x as int,
                        point.y as int,
                        self.height as int,
                    );
                }
            }
        }
    }
}

} // verus!
