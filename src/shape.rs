use vstd::prelude::*;

use crate::board::BoardSize;
use crate::board::Size;
use crate::coord::Point;
use crate::tagged_point::TaggedPoint;

verus! {

broadcast use vstd::seq_lib::group_seq_properties;

/// The mathematical content of a shape: its bounding size and its tagged
/// cells `(x, y, colour)` in order.
pub struct ShapeView {
    pub width: int,
    pub height: int,
    pub cells: Seq<(int, int, char)>,
}

/// The smallest of a non-empty sequence of integers.
pub open spec fn seq_min(s: Seq<int>) -> int
    decreases s.len(),
{
    if s.len() <= 1 {
        s[0]
    } else {
        let m = seq_min(s.drop_last());
        if s.last() < m {
            s.last()
        } else {
            m
        }
    }
}

/// The largest of a non-empty sequence of integers.
pub open spec fn seq_max(s: Seq<int>) -> int
    decreases s.len(),
{
    if s.len() <= 1 {
        s[0]
    } else {
        let m = seq_max(s.drop_last());
        if s.last() > m {
            s.last()
        } else {
            m
        }
    }
}

pub open spec fn xs_of(cells: Seq<(int, int, char)>) -> Seq<int> {
    cells.map_values(|c: (int, int, char)| c.0)
}

pub open spec fn ys_of(cells: Seq<(int, int, char)>) -> Seq<int> {
    cells.map_values(|c: (int, int, char)| c.1)
}

/// The cells moved so that the smallest x and the smallest y are 0, with the
/// bounding size of the result; no cells give the size `(0, 0)`.
pub open spec fn normalized_view(cells: Seq<(int, int, char)>) -> ShapeView {
    if cells.len() == 0 {
        ShapeView { width: 0, height: 0, cells }
    } else {
        let min_x = seq_min(xs_of(cells));
        let min_y = seq_min(ys_of(cells));
        ShapeView {
            width: seq_max(xs_of(cells)) - min_x + 1,
            height: seq_max(ys_of(cells)) - min_y + 1,
            cells: cells.map_values(|c: (int, int, char)| (c.0 - min_x, c.1 - min_y, c.2)),
        }
    }
}

/// The spread of the cells in each axis fits an `i32` bounding size.
pub open spec fn span_fits(cells: Seq<(int, int, char)>) -> bool {
    forall|i: int, j: int|
        0 <= i < cells.len() && 0 <= j < cells.len() ==> cells[i].0 - cells[j].0 < i32::MAX
            && cells[i].1 - cells[j].1 < i32::MAX
}

pub proof fn lemma_seq_min_max(s: Seq<int>)
    requires
        s.len() > 0,
    ensures
        forall|i: int| 0 <= i < s.len() ==> seq_min(s) <= #[trigger] s[i] <= seq_max(s),
        exists|i: int| 0 <= i < s.len() && s[i] == seq_min(s),
        exists|i: int| 0 <= i < s.len() && s[i] == seq_max(s),
    decreases s.len(),
{
    if s.len() > 1 {
        lemma_seq_min_max(s.drop_last());
        let t = s.drop_last();
        assert forall|i: int| 0 <= i < s.len() implies seq_min(s) <= #[trigger] s[i] <= seq_max(s) by {
            if i < s.len() - 1 {
                assert(s[i] == t[i]);
            }
        }
        if s.last() >= seq_min(t) {
            let i = choose|i: int| 0 <= i < t.len() && t[i] == seq_min(t);
            assert(s[i] == seq_min(s));
        } else {
            assert(s[s.len() - 1] == seq_min(s));
        }
        if s.last() <= seq_max(t) {
            let i = choose|i: int| 0 <= i < t.len() && t[i] == seq_max(t);
            assert(s[i] == seq_max(s));
        } else {
            assert(s[s.len() - 1] == seq_max(s));
        }
    } else {
        assert(s[0] == seq_min(s));
        assert(s[0] == seq_max(s));
    }
}

impl ShapeView {
    /// Every cell lies inside the bounding size.
    pub open spec fn in_box(self) -> bool {
        &&& self.width >= 0
        &&& self.height >= 0
        &&& forall|i: int|
            0 <= i < self.cells.len() ==> 0 <= (#[trigger] self.cells[i]).0 < self.width && 0
                <= self.cells[i].1 < self.height
    }

    /// The shape has cells, lies inside its bounding size and touches all
    /// four sides of it.
    pub open spec fn tight(self) -> bool {
        &&& self.in_box()
        &&& self.cells.len() > 0
        &&& exists|i: int| 0 <= i < self.cells.len() && #[trigger] self.cells[i].0 == 0
        &&& exists|i: int| 0 <= i < self.cells.len() && #[trigger] self.cells[i].1 == 0
        &&& exists|i: int| 0 <= i < self.cells.len() && #[trigger] self.cells[i].0 == self.width - 1
        &&& exists|i: int| 0 <= i < self.cells.len() && #[trigger] self.cells[i].1 == self.height - 1
    }

    /// The smallest x and the smallest y among the cells are both 0.
    pub open spec fn touches_axes(self) -> bool {
        &&& forall|i: int|
            0 <= i < self.cells.len() ==> 0 <= (#[trigger] self.cells[i]).0 && 0 <= self.cells[i].1
        &&& exists|i: int| 0 <= i < self.cells.len() && #[trigger] self.cells[i].0 == 0
        &&& exists|i: int| 0 <= i < self.cells.len() && #[trigger] self.cells[i].1 == 0
    }

    /// Turned a quarter to the left: `(x, y)` goes to `(y, width - 1 - x)`
    /// and the width and height swap.
    pub open spec fn rotated_left(self) -> ShapeView {
        ShapeView {
            width: self.height,
            height: self.width,
            cells: self.cells.map_values(|c: (int, int, char)| (c.1, self.width - 1 - c.0, c.2)),
        }
    }

    /// Turned a quarter to the right: `(x, y)` goes to `(height - 1 - y, x)`
    /// and the width and height swap.
    pub open spec fn rotated_right(self) -> ShapeView {
        ShapeView {
            width: self.height,
            height: self.width,
            cells: self.cells.map_values(|c: (int, int, char)| (self.height - 1 - c.1, c.0, c.2)),
        }
    }

    /// Flipped along x: `x` goes to `width - 1 - x`.
    pub open spec fn mirrored_x(self) -> ShapeView {
        ShapeView {
            cells: self.cells.map_values(|c: (int, int, char)| (self.width - 1 - c.0, c.1, c.2)),
            ..self
        }
    }

    /// Flipped along y: `y` goes to `height - 1 - y`.
    pub open spec fn mirrored_y(self) -> ShapeView {
        ShapeView {
            cells: self.cells.map_values(|c: (int, int, char)| (c.0, self.height - 1 - c.1, c.2)),
            ..self
        }
    }

    /// Turned left `n` times.
    pub open spec fn rotated_left_times(self, n: nat) -> ShapeView
        decreases n,
    {
        if n == 0 {
            self
        } else {
            self.rotated_left_times((n - 1) as nat).rotated_left()
        }
    }

    /// The `k`-th of the eight orientations tried: turned left `k` times for
    /// `k < 4`; else turned left four times, flipped along x, then turned left
    /// `k - 4` times.
    pub open spec fn orientation(self, k: int) -> ShapeView {
        if k < 4 {
            self.rotated_left_times(k as nat)
        } else {
            self.rotated_left_times(4).mirrored_x().rotated_left_times((k - 4) as nat)
        }
    }

    /// The same shape with its cells sorted by colour, then x, then y.
    pub open spec fn sorted(self) -> ShapeView {
        ShapeView { cells: sort_cells(self.cells), ..self }
    }

    /// Same bounding size and the same set of tagged cells, in any order.
    pub open spec fn same_cells(self, other: ShapeView) -> bool {
        &&& self.width == other.width
        &&& self.height == other.height
        &&& self.cells.to_set() == other.cells.to_set()
    }

    /// The first `n` orientations, each with its cells sorted, each left out
    /// when it has the same cells as one kept before it.
    pub open spec fn distinct_orientations(self, n: nat) -> Seq<ShapeView>
        decreases n,
    {
        if n == 0 {
            Seq::empty()
        } else {
            let kept = self.distinct_orientations((n - 1) as nat);
            let next = self.orientation(n - 1).sorted();
            if exists|i: int| 0 <= i < kept.len() && (#[trigger] kept[i]).same_cells(next) {
                kept
            } else {
                kept.push(next)
            }
        }
    }
}

/// `a` comes before `b` when sorting cells: by colour code, then x, then y.
pub open spec fn cell_lt(a: (int, int, char), b: (int, int, char)) -> bool {
    (a.2 as int) < (b.2 as int) || ((a.2 as int) == (b.2 as int) && (a.0 < b.0 || (a.0 == b.0 && a.1 < b.1)))
}

/// Where cell `c` goes into `s`: after the leading cells that do not come
/// after it.
pub open spec fn cell_insert_at(s: Seq<(int, int, char)>, c: (int, int, char)) -> int
    decreases s.len(),
{
    if s.len() == 0 {
        0
    } else if cell_lt(c, s[0]) {
        0
    } else {
        1 + cell_insert_at(s.drop_first(), c)
    }
}

/// The cells sorted by colour, then x, then y, by inserting each in turn.
pub open spec fn sort_cells(cells: Seq<(int, int, char)>) -> Seq<(int, int, char)>
    decreases cells.len(),
{
    if cells.len() == 0 {
        Seq::empty()
    } else {
        let s = sort_cells(cells.drop_last());
        s.insert(cell_insert_at(s, cells.last()), cells.last())
    }
}

proof fn lemma_cell_insert_at_bounds(s: Seq<(int, int, char)>, c: (int, int, char))
    ensures
        0 <= cell_insert_at(s, c) <= s.len(),
    decreases s.len(),
{
    if s.len() > 0 && !cell_lt(c, s[0]) {
        lemma_cell_insert_at_bounds(s.drop_first(), c);
    }
}

/// Sorting keeps the cells: the same length and the same members.
pub proof fn lemma_sort_cells(cells: Seq<(int, int, char)>)
    ensures
        sort_cells(cells).len() == cells.len(),
        forall|x: (int, int, char)| sort_cells(cells).contains(x) <==> cells.contains(x),
    decreases cells.len(),
{
    if cells.len() > 0 {
        let rest = cells.drop_last();
        let x = cells.last();
        lemma_sort_cells(rest);
        let s = sort_cells(rest);
        lemma_cell_insert_at_bounds(s, x);
        let pos = cell_insert_at(s, x);
        let q = sort_cells(cells);
        assert(q == s.insert(pos, x));
        assert forall|i: int| 0 <= i < q.len() implies #[trigger] q[i] == (if i < pos {
            s[i]
        } else if i == pos {
            x
        } else {
            s[i - 1]
        }) by {
            s.insert_ensures(pos, x);
        }
        assert forall|y: (int, int, char)| q.contains(y) <==> cells.contains(y) by {
            if q.contains(y) {
                let i = choose|i: int| 0 <= i < q.len() && q[i] == y;
                if i == pos {
                    assert(cells[cells.len() - 1] == y);
                } else {
                    let k = if i < pos { i } else { i - 1 };
                    assert(q[i] == s[k]);
                    assert(s.contains(y));
                    assert(rest.contains(y));
                    let r = choose|r: int| 0 <= r < rest.len() && rest[r] == y;
                    assert(cells[r] == y);
                }
            }
            if cells.contains(y) {
                let r = choose|r: int| 0 <= r < cells.len() && cells[r] == y;
                if r == cells.len() - 1 {
                    assert(q[pos] == y);
                } else {
                    assert(rest[r] == y);
                    assert(rest.contains(y));
                    assert(s.contains(y));
                    let k = choose|k: int| 0 <= k < s.len() && s[k] == y;
                    if k < pos {
                        assert(q[k] == y);
                    } else {
                        assert(q[k + 1] == y);
                    }
                }
            }
        }
    }
}

/// Sorting a shape's cells keeps its set of cells and whether it lies in its
/// box, touches the axes, or touches all four sides.
pub proof fn lemma_sorted_keeps(v: ShapeView)
    ensures
        v.sorted().cells.to_set() == v.cells.to_set(),
        v.sorted().cells.len() == v.cells.len(),
        v.in_box() ==> v.sorted().in_box(),
        v.touches_axes() ==> v.sorted().touches_axes(),
        v.tight() ==> v.sorted().tight(),
{
    lemma_sort_cells(v.cells);
    let w = v.sorted();
    assert(w.cells.to_set() =~= v.cells.to_set());
    if v.in_box() {
        assert forall|i: int| 0 <= i < w.cells.len() implies 0 <= (#[trigger] w.cells[i]).0 < w.width && 0
            <= w.cells[i].1 < w.height by {
            assert(w.cells.contains(w.cells[i]));
            assert(v.cells.contains(w.cells[i]));
        }
    }
    if v.touches_axes() {
        assert forall|i: int| 0 <= i < w.cells.len() implies 0 <= (#[trigger] w.cells[i]).0 && 0
            <= w.cells[i].1 by {
            assert(w.cells.contains(w.cells[i]));
            assert(v.cells.contains(w.cells[i]));
        }
        let i = choose|i: int| 0 <= i < v.cells.len() && #[trigger] v.cells[i].0 == 0;
        assert(v.cells.contains(v.cells[i]));
        assert(w.cells.contains(v.cells[i]));
        let i = choose|i: int| 0 <= i < v.cells.len() && #[trigger] v.cells[i].1 == 0;
        assert(v.cells.contains(v.cells[i]));
        assert(w.cells.contains(v.cells[i]));
    }
    if v.tight() {
        let i = choose|i: int| 0 <= i < v.cells.len() && #[trigger] v.cells[i].0 == 0;
        assert(v.cells.contains(v.cells[i]));
        assert(w.cells.contains(v.cells[i]));
        let i = choose|i: int| 0 <= i < v.cells.len() && #[trigger] v.cells[i].1 == 0;
        assert(v.cells.contains(v.cells[i]));
        assert(w.cells.contains(v.cells[i]));
        let i = choose|i: int| 0 <= i < v.cells.len() && #[trigger] v.cells[i].0 == v.width - 1;
        assert(v.cells.contains(v.cells[i]));
        assert(w.cells.contains(v.cells[i]));
        let i = choose|i: int| 0 <= i < v.cells.len() && #[trigger] v.cells[i].1 == v.height - 1;
        assert(v.cells.contains(v.cells[i]));
        assert(w.cells.contains(v.cells[i]));
    }
}

/// Whether the character at `k` of a sprite marks a cell: anything but a
/// space, a line break, or a carriage return that ends a line.
pub open spec fn marks_cell(s: Seq<char>, k: int) -> bool {
    let c = s[k];
    c != ' ' && c != '\n' && !(c == '\r' && k + 1 < s.len() && s[k + 1] == '\n')
}

/// Reading the first `n` characters of a sprite: the tagged cells found so
/// far as `(line, column, character)`, the current line and the current
/// column.
pub open spec fn sprite_scan(s: Seq<char>, n: nat) -> (Seq<(int, int, char)>, int, int)
    decreases n,
{
    if n == 0 {
        (Seq::empty(), 0, 0)
    } else {
        let (cells, line, col) = sprite_scan(s, (n - 1) as nat);
        let k = n - 1;
        if s[k] == '\n' {
            (cells, line + 1, 0)
        } else if marks_cell(s, k) {
            (cells.push((line, col, s[k])), line, col + 1)
        } else {
            (cells, line, col + 1)
        }
    }
}

/// The tagged cells of a sprite: one for each character that marks a cell,
/// at (line index, column index), tagged with that character.
pub open spec fn sprite_cells(s: Seq<char>) -> Seq<(int, int, char)> {
    sprite_scan(s, s.len()).0
}

/// A normalized shape lies inside its bounding size.
pub proof fn lemma_normalized_in_box(cells: Seq<(int, int, char)>)
    ensures
        normalized_view(cells).in_box(),
{
    if cells.len() > 0 {
        lemma_seq_min_max(xs_of(cells));
        lemma_seq_min_max(ys_of(cells));
        let v = normalized_view(cells);
        assert forall|i: int| 0 <= i < v.cells.len() implies 0 <= (#[trigger] v.cells[i]).0 < v.width
            && 0 <= v.cells[i].1 < v.height by {
            assert(xs_of(cells)[i] == cells[i].0);
            assert(ys_of(cells)[i] == cells[i].1);
        }
    }
}

proof fn lemma_turns_in_box(s: ShapeView, n: nat)
    requires
        s.in_box(),
    ensures
        s.rotated_left_times(n).in_box(),
    decreases n,
{
    if n > 0 {
        lemma_turns_in_box(s, (n - 1) as nat);
        let t = s.rotated_left_times((n - 1) as nat);
        let u = t.rotated_left();
        assert forall|i: int| 0 <= i < u.cells.len() implies 0 <= (#[trigger] u.cells[i]).0 < u.width
            && 0 <= u.cells[i].1 < u.height by {
            assert(u.cells[i] == (t.cells[i].1, t.width - 1 - t.cells[i].0, t.cells[i].2));
        }
    }
}

/// Every distinct orientation of a shape inside its bounding size lies
/// inside its own bounding size.
pub proof fn lemma_orientations_in_box(s: ShapeView, n: nat)
    requires
        s.in_box(),
    ensures
        forall|i: int|
            0 <= i < s.distinct_orientations(n).len() ==> (#[trigger] s.distinct_orientations(n)[i]).in_box(),
    decreases n,
{
    if n > 0 {
        lemma_orientations_in_box(s, (n - 1) as nat);
        let k = n - 1;
        if k < 4 {
            lemma_turns_in_box(s, k as nat);
        } else {
            lemma_turns_in_box(s, 4);
            let f = s.rotated_left_times(4).mirrored_x();
            let t = s.rotated_left_times(4);
            assert forall|i: int| 0 <= i < f.cells.len() implies 0 <= (#[trigger] f.cells[i]).0 < f.width
                && 0 <= f.cells[i].1 < f.height by {
                assert(f.cells[i] == (t.width - 1 - t.cells[i].0, t.cells[i].1, t.cells[i].2));
            }
            lemma_turns_in_box(f, (k - 4) as nat);
        }
        lemma_sorted_keeps(s.orientation(k));
        let kept = s.distinct_orientations((n - 1) as nat);
        let all = s.distinct_orientations(n);
        assert forall|i: int| 0 <= i < all.len() implies (#[trigger] all[i]).in_box() by {
            if i < kept.len() {
                assert(all[i] == kept[i]);
            }
        }
    }
}

/// A normalized shape with cells touches all four sides of its bounding
/// size.
pub proof fn lemma_normalized_tight(cells: Seq<(int, int, char)>)
    requires
        cells.len() > 0,
    ensures
        normalized_view(cells).tight(),
{
    lemma_normalized_in_box(cells);
    lemma_seq_min_max(xs_of(cells));
    lemma_seq_min_max(ys_of(cells));
    let v = normalized_view(cells);
    let i = choose|i: int| 0 <= i < cells.len() && xs_of(cells)[i] == seq_min(xs_of(cells));
    assert(v.cells[i].0 == 0);
    let i = choose|i: int| 0 <= i < cells.len() && ys_of(cells)[i] == seq_min(ys_of(cells));
    assert(v.cells[i].1 == 0);
    let i = choose|i: int| 0 <= i < cells.len() && xs_of(cells)[i] == seq_max(xs_of(cells));
    assert(v.cells[i].0 == v.width - 1);
    let i = choose|i: int| 0 <= i < cells.len() && ys_of(cells)[i] == seq_max(ys_of(cells));
    assert(v.cells[i].1 == v.height - 1);
}

proof fn lemma_turns_tight(s: ShapeView, n: nat)
    requires
        s.tight(),
    ensures
        s.rotated_left_times(n).tight(),
    decreases n,
{
    if n > 0 {
        lemma_turns_tight(s, (n - 1) as nat);
        lemma_turns_in_box(s, n);
        let t = s.rotated_left_times((n - 1) as nat);
        let u = t.rotated_left();
        let i = choose|i: int| 0 <= i < t.cells.len() && #[trigger] t.cells[i].1 == 0;
        assert(u.cells[i].0 == 0);
        let i = choose|i: int| 0 <= i < t.cells.len() && #[trigger] t.cells[i].0 == t.width - 1;
        assert(u.cells[i].1 == 0);
        let i = choose|i: int| 0 <= i < t.cells.len() && #[trigger] t.cells[i].1 == t.height - 1;
        assert(u.cells[i].0 == u.width - 1);
        let i = choose|i: int| 0 <= i < t.cells.len() && #[trigger] t.cells[i].0 == 0;
        assert(u.cells[i].1 == u.height - 1);
    }
}

/// Every distinct orientation of a shape that touches all four sides of its
/// bounding size does so too.
pub proof fn lemma_orientations_tight(s: ShapeView, n: nat)
    requires
        s.tight(),
    ensures
        forall|i: int|
            0 <= i < s.distinct_orientations(n).len() ==> (#[trigger] s.distinct_orientations(n)[i]).tight(),
    decreases n,
{
    if n > 0 {
        lemma_orientations_tight(s, (n - 1) as nat);
        let k = n - 1;
        if k < 4 {
            lemma_turns_tight(s, k as nat);
        } else {
            lemma_turns_tight(s, 4);
            lemma_orientations_in_box(s, n);
            let t = s.rotated_left_times(4);
            let f = t.mirrored_x();
            assert forall|i: int| 0 <= i < f.cells.len() implies 0 <= (#[trigger] f.cells[i]).0 < f.width
                && 0 <= f.cells[i].1 < f.height by {
                assert(f.cells[i] == (t.width - 1 - t.cells[i].0, t.cells[i].1, t.cells[i].2));
            }
            let i = choose|i: int| 0 <= i < t.cells.len() && #[trigger] t.cells[i].0 == t.width - 1;
            assert(f.cells[i].0 == 0);
            let i = choose|i: int| 0 <= i < t.cells.len() && #[trigger] t.cells[i].1 == 0;
            assert(f.cells[i].1 == 0);
            let i = choose|i: int| 0 <= i < t.cells.len() && #[trigger] t.cells[i].0 == 0;
            assert(f.cells[i].0 == f.width - 1);
            let i = choose|i: int| 0 <= i < t.cells.len() && #[trigger] t.cells[i].1 == t.height - 1;
            assert(f.cells[i].1 == f.height - 1);
            lemma_turns_tight(f, (k - 4) as nat);
        }
        lemma_sorted_keeps(s.orientation(k));
        let kept = s.distinct_orientations((n - 1) as nat);
        let all = s.distinct_orientations(n);
        assert forall|i: int| 0 <= i < all.len() implies (#[trigger] all[i]).tight() by {
            if i < kept.len() {
                assert(all[i] == kept[i]);
            }
        }
    }
}

/// The colours used by a sequence of tagged cells.
pub open spec fn colors_of(cells: Seq<(int, int, char)>) -> Set<char> {
    cells.map_values(|c: (int, int, char)| c.2).to_set()
}

/// How many of the first `n` characters of a sprite mark a cell.
pub open spec fn marked_count(s: Seq<char>, n: nat) -> nat
    decreases n,
{
    if n == 0 {
        0
    } else {
        marked_count(s, (n - 1) as nat) + if marks_cell(s, n - 1) {
            1nat
        } else {
            0nat
        }
    }
}

proof fn lemma_scan_counts(s: Seq<char>, n: nat)
    requires
        n <= s.len(),
    ensures
        sprite_scan(s, n).0.len() == marked_count(s, n),
        forall|ch: char|
            colors_of(sprite_scan(s, n).0).contains(ch) <==> exists|k: int|
                0 <= k < n && marks_cell(s, k) && s[k] == ch,
    decreases n,
{
    if n > 0 {
        lemma_scan_counts(s, (n - 1) as nat);
        let prev = sprite_scan(s, (n - 1) as nat).0;
        let cur = sprite_scan(s, n).0;
        let k = n - 1;
        if marks_cell(s, k) {
            assert(cur == prev.push((sprite_scan(s, k as nat).1, sprite_scan(s, k as nat).2, s[k])));
        } else {
            assert(cur == prev);
        }
        assert forall|ch: char|
            colors_of(cur).contains(ch) <==> exists|j: int| 0 <= j < n && marks_cell(s, j) && s[j] == ch by {
            let cm = cur.map_values(|c: (int, int, char)| c.2);
            let pm = prev.map_values(|c: (int, int, char)| c.2);
            if colors_of(cur).contains(ch) {
                assert(cm.contains(ch));
                let i = choose|i: int| 0 <= i < cm.len() && cm[i] == ch;
                if i < prev.len() {
                    assert(cur[i] == prev[i]);
                    assert(pm[i] == ch);
                    assert(pm.contains(ch));
                    assert(colors_of(prev).contains(ch));
                    let j = choose|j: int| 0 <= j < n - 1 && marks_cell(s, j) && s[j] == ch;
                    assert(0 <= j < n && marks_cell(s, j) && s[j] == ch);
                } else {
                    assert(marks_cell(s, k) && s[k] == ch);
                }
            }
            if exists|j: int| 0 <= j < n && marks_cell(s, j) && s[j] == ch {
                let j = choose|j: int| 0 <= j < n && marks_cell(s, j) && s[j] == ch;
                if j < k {
                    assert(exists|j: int| 0 <= j < n - 1 && marks_cell(s, j) && s[j] == ch);
                    assert(colors_of(prev).contains(ch));
                    assert(pm.contains(ch));
                    let i = choose|i: int| 0 <= i < pm.len() && pm[i] == ch;
                    assert(cur[i] == prev[i]);
                    assert(cm[i] == ch);
                    assert(cm.contains(ch));
                } else {
                    assert(cm[cm.len() - 1] == ch);
                    assert(cm.contains(ch));
                }
            }
        }
    }
}

/// A sprite has no more tagged cells than characters.
pub proof fn lemma_sprite_cells_len(s: Seq<char>)
    ensures
        sprite_cells(s).len() <= s.len(),
{
    lemma_scan_counts(s, s.len());
    lemma_marked_count_le(s, s.len());
}

proof fn lemma_marked_count_le(s: Seq<char>, n: nat)
    ensures
        marked_count(s, n) <= n,
    decreases n,
{
    if n > 0 {
        lemma_marked_count_le(s, (n - 1) as nat);
    }
}

/// No two cells share a position.
pub open spec fn distinct_positions(cells: Seq<(int, int, char)>) -> bool {
    forall|i: int, j: int|
        0 <= i < cells.len() && 0 <= j < cells.len() && i != j ==> (#[trigger] cells[i].0, cells[i].1) != (
            #[trigger] cells[j].0,
            cells[j].1,
        )
}

proof fn lemma_scan_distinct(s: Seq<char>, n: nat)
    requires
        n <= s.len(),
    ensures
        distinct_positions(sprite_scan(s, n).0),
        forall|i: int|
            0 <= i < sprite_scan(s, n).0.len() ==> (#[trigger] sprite_scan(s, n).0[i]).0 < sprite_scan(s, n).1
                || (sprite_scan(s, n).0[i].0 == sprite_scan(s, n).1 && sprite_scan(s, n).0[i].1
                < sprite_scan(s, n).2),
    decreases n,
{
    if n > 0 {
        lemma_scan_distinct(s, (n - 1) as nat);
        let prev = sprite_scan(s, (n - 1) as nat);
        let cur = sprite_scan(s, n);
        let k = n - 1;
        if s[k] == '\n' {
            assert(cur.0 == prev.0);
        } else if marks_cell(s, k) {
            assert(cur.0 == prev.0.push((prev.1, prev.2, s[k])));
            assert forall|i: int| 0 <= i < cur.0.len() implies (#[trigger] cur.0[i]).0 < cur.1 || (cur.0[i].0
                == cur.1 && cur.0[i].1 < cur.2) by {
                if i < prev.0.len() {
                    assert(cur.0[i] == prev.0[i]);
                }
            }
            assert forall|i: int, j: int|
                0 <= i < cur.0.len() && 0 <= j < cur.0.len() && i != j implies (#[trigger] cur.0[i].0, cur.0[i].1)
                != (#[trigger] cur.0[j].0, cur.0[j].1) by {
                if i < prev.0.len() {
                    assert(cur.0[i] == prev.0[i]);
                }
                if j < prev.0.len() {
                    assert(cur.0[j] == prev.0[j]);
                }
            }
        } else {
            assert(cur.0 == prev.0);
        }
    }
}

/// Moving, turning or flipping cells by a map that is one to one on
/// positions keeps positions distinct.
proof fn lemma_distinct_mapped(a: Seq<(int, int, char)>, b: Seq<(int, int, char)>)
    requires
        distinct_positions(a),
        a.len() == b.len(),
        forall|i: int, j: int|
            0 <= i < a.len() && 0 <= j < a.len() && (#[trigger] b[i].0, b[i].1) == (#[trigger] b[j].0, b[j].1)
                ==> (a[i].0, a[i].1) == (a[j].0, a[j].1),
    ensures
        distinct_positions(b),
{
    assert forall|i: int, j: int|
        0 <= i < b.len() && 0 <= j < b.len() && i != j implies (#[trigger] b[i].0, b[i].1) != (
        #[trigger] b[j].0,
        b[j].1,
    ) by {
        if (b[i].0, b[i].1) == (b[j].0, b[j].1) {
            assert((a[i].0, a[i].1) == (a[j].0, a[j].1));
        }
    }
}

proof fn lemma_turns_distinct(v: ShapeView, n: nat)
    requires
        distinct_positions(v.cells),
    ensures
        distinct_positions(v.rotated_left_times(n).cells),
        v.rotated_left_times(n).cells.len() == v.cells.len(),
    decreases n,
{
    if n > 0 {
        lemma_turns_distinct(v, (n - 1) as nat);
        let t = v.rotated_left_times((n - 1) as nat);
        let u = t.rotated_left();
        assert forall|i: int, j: int|
            0 <= i < t.cells.len() && 0 <= j < t.cells.len() && (#[trigger] u.cells[i].0, u.cells[i].1) == (
                #[trigger] u.cells[j].0,
                u.cells[j].1,
            ) implies (t.cells[i].0, t.cells[i].1) == (t.cells[j].0, t.cells[j].1) by {
            assert(u.cells[i] == (t.cells[i].1, t.width - 1 - t.cells[i].0, t.cells[i].2));
            assert(u.cells[j] == (t.cells[j].1, t.width - 1 - t.cells[j].0, t.cells[j].2));
        }
        lemma_distinct_mapped(t.cells, u.cells);
    }
}

proof fn lemma_sort_distinct(cells: Seq<(int, int, char)>)
    requires
        distinct_positions(cells),
    ensures
        distinct_positions(sort_cells(cells)),
    decreases cells.len(),
{
    if cells.len() > 0 {
        let rest = cells.drop_last();
        let x = cells.last();
        assert forall|i: int, j: int|
            0 <= i < rest.len() && 0 <= j < rest.len() && i != j implies (#[trigger] rest[i].0, rest[i].1) != (
            #[trigger] rest[j].0,
            rest[j].1,
        ) by {
            assert(rest[i] == cells[i]);
            assert(rest[j] == cells[j]);
        }
        lemma_sort_distinct(rest);
        lemma_sort_cells(rest);
        let s = sort_cells(rest);
        lemma_cell_insert_at_bounds(s, x);
        let pos = cell_insert_at(s, x);
        let q = sort_cells(cells);
        assert forall|i: int| 0 <= i < q.len() implies #[trigger] q[i] == (if i < pos {
            s[i]
        } else if i == pos {
            x
        } else {
            s[i - 1]
        }) by {
            s.insert_ensures(pos, x);
        }
        assert forall|k: int| 0 <= k < s.len() implies (s[k].0, s[k].1) != (x.0, x.1) by {
            assert(s.contains(s[k]));
            assert(rest.contains(s[k]));
            let r = choose|r: int| 0 <= r < rest.len() && rest[r] == s[k];
            assert(cells[r] == s[k]);
            assert(cells[cells.len() - 1] == x);
        }
        assert forall|i: int, j: int|
            0 <= i < q.len() && 0 <= j < q.len() && i != j implies (#[trigger] q[i].0, q[i].1) != (
            #[trigger] q[j].0,
            q[j].1,
        ) by {
            assert(q[i] == (if i < pos { s[i] } else if i == pos { x } else { s[i - 1] }));
            assert(q[j] == (if j < pos { s[j] } else if j == pos { x } else { s[j - 1] }));
        }
    }
}

/// The distinct orientations of a shape whose cells have distinct positions
/// have distinct positions too.
pub proof fn lemma_orientations_distinct(v: ShapeView, n: nat)
    requires
        distinct_positions(v.cells),
    ensures
        forall|i: int|
            0 <= i < v.distinct_orientations(n).len() ==> distinct_positions(
                (#[trigger] v.distinct_orientations(n)[i]).cells,
            ),
    decreases n,
{
    if n > 0 {
        lemma_orientations_distinct(v, (n - 1) as nat);
        let k = n - 1;
        if k < 4 {
            lemma_turns_distinct(v, k as nat);
        } else {
            lemma_turns_distinct(v, 4);
            let t = v.rotated_left_times(4);
            let f = t.mirrored_x();
            assert forall|i: int, j: int|
                0 <= i < t.cells.len() && 0 <= j < t.cells.len() && (#[trigger] f.cells[i].0, f.cells[i].1) == (
                    #[trigger] f.cells[j].0,
                    f.cells[j].1,
                ) implies (t.cells[i].0, t.cells[i].1) == (t.cells[j].0, t.cells[j].1) by {
                assert(f.cells[i] == (t.width - 1 - t.cells[i].0, t.cells[i].1, t.cells[i].2));
                assert(f.cells[j] == (t.width - 1 - t.cells[j].0, t.cells[j].1, t.cells[j].2));
            }
            lemma_distinct_mapped(t.cells, f.cells);
            lemma_turns_distinct(f, (k - 4) as nat);
        }
        lemma_sort_distinct(v.orientation(k).cells);
        let kept = v.distinct_orientations((n - 1) as nat);
        let all = v.distinct_orientations(n);
        assert forall|i: int| 0 <= i < all.len() implies distinct_positions((#[trigger] all[i]).cells) by {
            if i < kept.len() {
                assert(all[i] == kept[i]);
            }
        }
    }
}

/// No two tagged points of a parsed sprite share a position, and so none of
/// its distinct orientations has two either.
pub proof fn lemma_sprite_positions_distinct(s: Seq<char>)
    ensures
        distinct_positions(normalized_view(sprite_cells(s)).cells),
        forall|i: int|
            0 <= i < normalized_view(sprite_cells(s)).distinct_orientations(8).len() ==> distinct_positions(
                (#[trigger] normalized_view(sprite_cells(s)).distinct_orientations(8)[i]).cells,
            ),
{
    lemma_scan_distinct(s, s.len());
    let c = sprite_cells(s);
    let v = normalized_view(c);
    if c.len() > 0 {
        assert forall|i: int, j: int|
            0 <= i < c.len() && 0 <= j < c.len() && (#[trigger] v.cells[i].0, v.cells[i].1) == (
                #[trigger] v.cells[j].0,
                v.cells[j].1,
            ) implies (c[i].0, c[i].1) == (c[j].0, c[j].1) by {
        }
        lemma_distinct_mapped(c, v.cells);
    }
    lemma_orientations_distinct(v, 8);
}

/// Parsing a sprite gives one tagged point for each character that marks a
/// cell, and its colours are exactly the characters that mark cells.
pub proof fn lemma_parse_counts(s: Seq<char>)
    ensures
        normalized_view(sprite_cells(s)).cells.len() == marked_count(s, s.len()),
        forall|ch: char|
            colors_of(normalized_view(sprite_cells(s)).cells).contains(ch) <==> exists|k: int|
                0 <= k < s.len() && marks_cell(s, k) && s[k] == ch,
{
    lemma_scan_counts(s, s.len());
    let cells = sprite_cells(s);
    let v = normalized_view(cells);
    assert(v.cells.map_values(|c: (int, int, char)| c.2) =~= cells.map_values(
        |c: (int, int, char)| c.2,
    ));
    assert(colors_of(v.cells) == colors_of(cells));
}

/// A shape's first variant is the shape itself with its points sorted, so for
/// a non-empty point list the first variant of the normalized shape has
/// smallest x and smallest y both 0.
pub proof fn lemma_first_variant_touches_axes(cells: Seq<(int, int, char)>)
    requires
        cells.len() > 0,
    ensures
        normalized_view(cells).distinct_orientations(8).len() >= 1,
        normalized_view(cells).distinct_orientations(8)[0] == normalized_view(cells).sorted(),
        normalized_view(cells).touches_axes(),
        normalized_view(cells).distinct_orientations(8)[0].touches_axes(),
{
    let v = normalized_view(cells);
    lemma_distinct_orientations_count(v, 8);
    lemma_seq_min_max(xs_of(cells));
    lemma_seq_min_max(ys_of(cells));
    let min_x = seq_min(xs_of(cells));
    let min_y = seq_min(ys_of(cells));
    assert forall|i: int| 0 <= i < v.cells.len() implies 0 <= (#[trigger] v.cells[i]).0 && 0
        <= v.cells[i].1 by {
        assert(xs_of(cells)[i] == cells[i].0);
        assert(ys_of(cells)[i] == cells[i].1);
    }
    let i = choose|i: int| 0 <= i < cells.len() && xs_of(cells)[i] == min_x;
    assert(v.cells[i].0 == 0);
    let j = choose|j: int| 0 <= j < cells.len() && ys_of(cells)[j] == min_y;
    assert(v.cells[j].1 == 0);
    lemma_sorted_keeps(v);
}

/// Turning a shape left four times gives it back, and so does flipping it
/// along x twice.
pub proof fn lemma_rotate_four_mirror_twice(s: ShapeView)
    ensures
        s.rotated_left().rotated_left().rotated_left().rotated_left() == s,
        s.mirrored_x().mirrored_x() == s,
{
    assert(s.rotated_left().rotated_left().rotated_left().rotated_left().cells =~= s.cells);
    assert(s.mirrored_x().mirrored_x().cells =~= s.cells);
}

/// Among the first `n` orientations at least one and at most `n` are kept,
/// the first kept is the shape itself, and no two kept ones have the same
/// cells.
pub proof fn lemma_distinct_orientations_count(s: ShapeView, n: nat)
    requires
        n >= 1,
    ensures
        1 <= s.distinct_orientations(n).len() <= n,
        s.distinct_orientations(n)[0] == s.sorted(),
        forall|i: int, j: int|
            0 <= i < j < s.distinct_orientations(n).len() ==> !(#[trigger] s.distinct_orientations(
                n,
            )[i]).same_cells(#[trigger] s.distinct_orientations(n)[j]),
    decreases n,
{
    if n == 1 {
        assert(s.distinct_orientations(0) =~= Seq::<ShapeView>::empty());
        assert(s.orientation(0) == s);
    } else {
        lemma_distinct_orientations_count(s, (n - 1) as nat);
        let kept = s.distinct_orientations((n - 1) as nat);
        let next = s.orientation(n - 1).sorted();
        let all = s.distinct_orientations(n);
        if !(exists|i: int| 0 <= i < kept.len() && (#[trigger] kept[i]).same_cells(next)) {
            assert(all == kept.push(next));
            assert forall|i: int, j: int| 0 <= i < j < all.len() implies !(
            #[trigger] all[i]).same_cells(#[trigger] all[j]) by {
                if j == all.len() - 1 {
                    assert(all[i] == kept[i]);
                    assert(all[j] == next);
                } else {
                    assert(all[i] == kept[i]);
                    assert(all[j] == kept[j]);
                }
            }
        }
    }
}

proof fn lemma_tight_size_from_cells(a: ShapeView, b: ShapeView)
    requires
        a.tight(),
        b.tight(),
        a.cells.to_set() == b.cells.to_set(),
    ensures
        a.width == b.width,
        a.height == b.height,
{
    let i = choose|i: int| 0 <= i < a.cells.len() && #[trigger] a.cells[i].0 == a.width - 1;
    assert(a.cells.to_set().contains(a.cells[i]));
    assert(b.cells.contains(a.cells[i]));
    let i = choose|i: int| 0 <= i < b.cells.len() && #[trigger] b.cells[i].0 == b.width - 1;
    assert(b.cells.to_set().contains(b.cells[i]));
    assert(a.cells.contains(b.cells[i]));
    let i = choose|i: int| 0 <= i < a.cells.len() && #[trigger] a.cells[i].1 == a.height - 1;
    assert(a.cells.to_set().contains(a.cells[i]));
    assert(b.cells.contains(a.cells[i]));
    let i = choose|i: int| 0 <= i < b.cells.len() && #[trigger] b.cells[i].1 == b.height - 1;
    assert(b.cells.to_set().contains(b.cells[i]));
    assert(a.cells.contains(b.cells[i]));
}

/// Every shape has between one and eight distinct orientations, the first is
/// the shape itself with its points sorted, and no two of them have the same
/// size and cells; for a shape that touches all four sides of its bounding
/// size, no two have the same set of cells at all.
pub proof fn lemma_variant_count(s: ShapeView)
    ensures
        s.tight() ==> forall|i: int, j: int|
            0 <= i < j < s.distinct_orientations(8).len() ==> (#[trigger] s.distinct_orientations(
                8,
            )[i]).cells.to_set() != (#[trigger] s.distinct_orientations(8)[j]).cells.to_set(),
        1 <= s.distinct_orientations(8).len() <= 8,
        s.distinct_orientations(8)[0] == s.sorted(),
        forall|i: int, j: int|
            0 <= i < j < s.distinct_orientations(8).len() ==> !(#[trigger] s.distinct_orientations(
                8,
            )[i]).same_cells(#[trigger] s.distinct_orientations(8)[j]),
{
    lemma_distinct_orientations_count(s, 8);
    if s.tight() {
        lemma_orientations_tight(s, 8);
        let d = s.distinct_orientations(8);
        assert forall|i: int, j: int| 0 <= i < j < d.len() implies (#[trigger] d[i]).cells.to_set()
            != (#[trigger] d[j]).cells.to_set() by {
            if d[i].cells.to_set() == d[j].cells.to_set() {
                lemma_tight_size_from_cells(d[i], d[j]);
                assert(d[i].same_cells(d[j]));
            }
        }
    }
}

/// The character a shape shows at column `i`, row `j`: the colour of the
/// first tagged cell there, or a space.
pub open spec fn char_at(cells: Seq<(int, int, char)>, i: int, j: int) -> char
    decreases cells.len(),
{
    if cells.len() == 0 {
        ' '
    } else if cells[0].0 == i && cells[0].1 == j {
        cells[0].2
    } else {
        char_at(cells.drop_first(), i, j)
    }
}

/// The first `n` characters of row `j` of a shape's drawing.
pub open spec fn shape_row(v: ShapeView, j: int, n: nat) -> Seq<char>
    decreases n,
{
    if n == 0 {
        Seq::empty()
    } else {
        shape_row(v, j, (n - 1) as nat).push(char_at(v.cells, n - 1, j))
    }
}

/// The first `m` rows of a shape's drawing, each ended by a line break.
pub open spec fn shape_rows(v: ShapeView, m: nat) -> Seq<char>
    decreases m,
{
    if m == 0 {
        Seq::empty()
    } else {
        shape_rows(v, (m - 1) as nat) + shape_row(v, m - 1, v.width as nat) + seq!['\n']
    }
}

/// A set of tagged cells with its bounding size.
#[derive(Clone, Debug, PartialEq, Eq)]
pub struct Shape {
    pub size: Size,
    pub tagged_points: Vec<TaggedPoint>,
}

/// The views of a sequence of shapes.
pub open spec fn shape_views(shapes: Seq<Shape>) -> Seq<ShapeView> {
    shapes.map_values(|s: Shape| s@)
}

/// Whether `a` comes before `b` when sorting points.
fn point_lt(a: &TaggedPoint, b: &TaggedPoint) -> (r: bool)
    ensures
        r == cell_lt(a@, b@),
{
    let ca = a.color() as u32;
    let cb = b.color() as u32;
    ca < cb || (ca == cb && (a.x() < b.x() || (a.x() == b.x() && a.y() < b.y())))
}

/// Whether one of `shapes` has the same size and set of points as `shape`.
fn shape_in(shapes: &Vec<Shape>, shape: &Shape) -> (r: bool)
    ensures
        r == exists|i: int| 0 <= i < shapes@.len() && (#[trigger] shapes@[i])@.same_cells(shape@),
{
    let n = shapes.len();
    let mut k: usize = 0;
    while k < n
        invariant
            0 <= k <= n,
            n == shapes@.len(),
            forall|i: int| 0 <= i < k ==> !(#[trigger] shapes@[i])@.same_cells(shape@),
        decreases n - k,
    {
        if shapes[k].same_cells(shape) {
            return true;
        }
        k = k + 1;
    }
    false
}

pub open spec fn cells_of(points: Seq<TaggedPoint>) -> Seq<(int, int, char)> {
    points.map_values(|t: TaggedPoint| t@)
}

impl View for Shape {
    type V = ShapeView;

    open spec fn view(&self) -> ShapeView {
        ShapeView {
            width: self.size.width as int,
            height: self.size.height as int,
            cells: cells_of(self.tagged_points@),
        }
    }
}

impl BoardSize for Shape {
    open spec fn spec_width(&self) -> int {
        self.size.width as int
    }

    open spec fn spec_height(&self) -> int {
        self.size.height as int
    }

    fn width(&self) -> (r: i32) {
        self.size.width
    }

    fn height(&self) -> (r: i32) {
        self.size.height
    }
}

impl Shape {
    /// A shape of the given points, moved so that it touches both axes.
    pub fn new(points: Vec<TaggedPoint>) -> (r: Shape)
        requires
            span_fits(cells_of(points@)),
        ensures
            r@ == normalized_view(cells_of(points@)),
            r@.in_box(),
            points@.len() > 0 ==> r@.touches_axes(),
    {
        let mut result = Shape { size: Size::new(0, 0), tagged_points: points };
        result.normalize();
        proof {
            lemma_normalized_in_box(cells_of(points@));
            if points@.len() > 0 {
                lemma_first_variant_touches_axes(cells_of(points@));
            }
        }
        result
    }

    /// The shape drawn by a sprite: lines are split at line breaks, and each
    /// character other than a space gives a point at (line index, column
    /// index) tagged with that character; the result is then normalized.
    pub fn parse(sprite: &str) -> (r: Shape)
        requires
            sprite@.len() < i32::MAX,
        ensures
            r@ == normalized_view(sprite_cells(sprite@)),
            r@.in_box(),
    {
        let ghost s = sprite@;
        let n = sprite.unicode_len();
        let mut points: Vec<TaggedPoint> = Vec::new();
        let mut line: i32 = 0;
        let mut col: i32 = 0;
        let mut k: usize = 0;
        while k < n
            invariant
                0 <= k <= n,
                n == s.len(),
                s == sprite@,
                n < i32::MAX,
                0 <= line <= k,
                0 <= col <= k,
                sprite_scan(s, k as nat) == (cells_of(points@), line as int, col as int),
                forall|i: int|
                    0 <= i < points@.len() ==> 0 <= (#[trigger] points@[i])@.0 <= line && 0
                        <= points@[i]@.1 < k,
            decreases n - k,
        {
            let c = sprite.get_char(k);
            let ghost before = points@;
            if c == '\n' {
                line = line + 1;
                col = 0;
            } else {
                let ends_line = c == '\r' && k + 1 < n && sprite.get_char(k + 1) == '\n';
                if c != ' ' && !ends_line {
                    points.push(TaggedPoint::new(line, col, c));
                    assert(cells_of(points@) =~= cells_of(before).push((line as int, col as int, c)));
                }
                col = col + 1;
            }
            k = k + 1;
        }
        assert forall|i: int, j: int|
            0 <= i < points@.len() && 0 <= j < points@.len() implies cells_of(points@)[i].0
            - cells_of(points@)[j].0 < i32::MAX && cells_of(points@)[i].1 - cells_of(points@)[j].1
            < i32::MAX by {
            assert(cells_of(points@)[i] == points@[i]@);
            assert(cells_of(points@)[j] == points@[j]@);
        }
        Shape::new(points)
    }

    fn normalize(&mut self)
        requires
            span_fits(old(self)@.cells),
        ensures
            final(self)@ == normalized_view(old(self)@.cells),
    {
        let ghost cells = self@.cells;
        let n = self.tagged_points.len();
        if n == 0 {
            self.size = Size::new(0, 0);
            assert(self@ =~= normalized_view(cells));
            return ;
        }
        let mut min_x: i32 = self.tagged_points[0].x();
        let mut min_y: i32 = self.tagged_points[0].y();
        let mut max_x: i32 = min_x;
        let mut max_y: i32 = min_y;
        let mut k: usize = 1;
        assert(xs_of(cells).subrange(0, 1) =~= seq![cells[0].0]);
        assert(ys_of(cells).subrange(0, 1) =~= seq![cells[0].1]);
        while k < n
            invariant
                1 <= k <= n,
                n == self.tagged_points@.len(),
                cells == self@.cells,
                min_x == seq_min(xs_of(cells).subrange(0, k as int)),
                min_y == seq_min(ys_of(cells).subrange(0, k as int)),
                max_x == seq_max(xs_of(cells).subrange(0, k as int)),
                max_y == seq_max(ys_of(cells).subrange(0, k as int)),
            decreases n - k,
        {
            let p = self.tagged_points[k];
            assert(xs_of(cells).subrange(0, k + 1).drop_last() =~= xs_of(cells).subrange(0, k as int));
            assert(ys_of(cells).subrange(0, k + 1).drop_last() =~= ys_of(cells).subrange(0, k as int));
            if p.x() < min_x {
                min_x = p.x();
            }
            if p.y() < min_y {
                min_y = p.y();
            }
            if p.x() > max_x {
                max_x = p.x();
            }
            if p.y() > max_y {
                max_y = p.y();
            }
            k = k + 1;
        }
        assert(xs_of(cells).subrange(0, n as int) =~= xs_of(cells));
        assert(ys_of(cells).subrange(0, n as int) =~= ys_of(cells));
        proof {
            lemma_seq_min_max(xs_of(cells));
            lemma_seq_min_max(ys_of(cells));
            let ix = choose|i: int| 0 <= i < n && xs_of(cells)[i] == seq_min(xs_of(cells));
            let jx = choose|i: int| 0 <= i < n && xs_of(cells)[i] == seq_max(xs_of(cells));
            let iy = choose|i: int| 0 <= i < n && ys_of(cells)[i] == seq_min(ys_of(cells));
            let jy = choose|i: int| 0 <= i < n && ys_of(cells)[i] == seq_max(ys_of(cells));
            assert(cells[jx].0 - cells[ix].0 < i32::MAX);
            assert(cells[jy].1 - cells[iy].1 < i32::MAX);
            assert forall|i: int| 0 <= i < n implies min_x <= (#[trigger] cells[i]).0 <= max_x
                && min_y <= cells[i].1 <= max_y by {
                assert(xs_of(cells)[i] == cells[i].0);
                assert(ys_of(cells)[i] == cells[i].1);
            }
            assert forall|i: int| 0 <= i < n implies self.tagged_points@[i]@ == cells[i] by {
                assert(cells_of(self.tagged_points@)[i] == self.tagged_points@[i]@);
            }
        }
        let mut k: usize = 0;
        while k < n
            invariant
                0 <= k <= n,
                n == self.tagged_points@.len(),
                n == cells.len(),
                min_x == seq_min(xs_of(cells)),
                min_y == seq_min(ys_of(cells)),
                max_x == seq_max(xs_of(cells)),
                max_y == seq_max(ys_of(cells)),
                forall|i: int| 0 <= i < n ==> min_x <= (#[trigger] cells[i]).0 <= max_x && min_y <= cells[i].1 <= max_y,
                max_x - min_x < i32::MAX,
                max_y - min_y < i32::MAX,
                forall|i: int|
                    0 <= i < k ==> self.tagged_points@[i]@ == (
                        cells[i].0 - min_x,
                        cells[i].1 - min_y,
                        cells[i].2,
                    ),
                forall|i: int| k <= i < n ==> self.tagged_points@[i]@ == cells[i],
            decreases n - k,
        {
            let p = self.tagged_points[k];
            assert(p@ == cells[k as int]);
            let q = TaggedPoint::new(p.x() - min_x, p.y() - min_y, p.color());
            self.tagged_points.set(k, q);
            k = k + 1;
        }
        self.size = Size::new(max_x - min_x + 1, max_y - min_y + 1);
        assert(self@.cells =~= cells.map_values(
            |c: (int, int, char)| (c.0 - min_x, c.1 - min_y, c.2),
        ));
        assert(self@ =~= normalized_view(cells));
    }

    /// Moves every point by `direction`.
    pub fn translate(&mut self, direction: &Point)
        requires
            forall|i: int|
                0 <= i < old(self)@.cells.len() ==> crate::coord::fits_i32(
                    (#[trigger] old(self)@.cells[i]).0 + direction.x,
                ) && crate::coord::fits_i32(old(self)@.cells[i].1 + direction.y),
        ensures
            final(self)@ == (ShapeView {
                cells: old(self)@.cells.map_values(
                    |c: (int, int, char)| (c.0 + direction.x, c.1 + direction.y, c.2),
                ),
                ..old(self)@
            }),
    {
        let ghost cells = self@.cells;
        let n = self.tagged_points.len();
        let mut k: usize = 0;
        assert forall|i: int| 0 <= i < n implies self.tagged_points@[i]@ == cells[i] by {
            assert(cells_of(self.tagged_points@)[i] == self.tagged_points@[i]@);
        }
        while k < n
            invariant
                0 <= k <= n,
                n == self.tagged_points@.len(),
                n == cells.len(),
                self.size == old(self).size,
                cells == old(self)@.cells,
                forall|i: int|
                    0 <= i < n ==> crate::coord::fits_i32((#[trigger] cells[i]).0 + direction.x)
                        && crate::coord::fits_i32(cells[i].1 + direction.y),
                forall|i: int|
                    0 <= i < k ==> self.tagged_points@[i]@ == (
                        cells[i].0 + direction.x,
                        cells[i].1 + direction.y,
                        cells[i].2,
                    ),
                forall|i: int| k <= i < n ==> self.tagged_points@[i]@ == cells[i],
            decreases n - k,
        {
            let p = self.tagged_points[k];
            assert(p@ == cells[k as int]);
            let q = TaggedPoint::new(p.x() + direction.x, p.y() + direction.y, p.color());
            self.tagged_points.set(k, q);
            k = k + 1;
        }
        assert(self@.cells =~= cells.map_values(
            |c: (int, int, char)| (c.0 + direction.x, c.1 + direction.y, c.2),
        ));
    }

    /// Turns the shape a quarter to the left.
    pub fn rotate_left(&mut self)
        requires
            old(self)@.in_box(),
        ensures
            final(self)@ == old(self)@.rotated_left(),
            final(self)@.in_box(),
    {
        let ghost v = self@;
        let width = self.size.width;
        let height = self.size.height;
        let n = self.tagged_points.len();
        let mut k: usize = 0;
        assert forall|i: int| 0 <= i < n implies self.tagged_points@[i]@ == v.cells[i] by {
            assert(cells_of(self.tagged_points@)[i] == self.tagged_points@[i]@);
        }
        while k < n
            invariant
                0 <= k <= n,
                n == self.tagged_points@.len(),
                n == v.cells.len(),
                v == old(self)@,
                v.in_box(),
                self.size == old(self).size,
                width == v.width,
                height == v.height,
                forall|i: int| 0 <= i < k ==> self.tagged_points@[i]@ == v.rotated_left().cells[i],
                forall|i: int| k <= i < n ==> self.tagged_points@[i]@ == v.cells[i],
            decreases n - k,
        {
            let p = self.tagged_points[k];
            assert(p@ == v.cells[k as int]);
            let q = TaggedPoint::new(p.y(), width - p.x() - 1, p.color());
            self.tagged_points.set(k, q);
            k = k + 1;
        }
        self.size = Size::new(self.size.height, self.size.width);
        assert(self@.cells =~= v.rotated_left().cells);
        assert(self@ =~= v.rotated_left());
    }

    /// Turns the shape a quarter to the right.
    pub fn rotate_right(&mut self)
        requires
            old(self)@.in_box(),
        ensures
            final(self)@ == old(self)@.rotated_right(),
            final(self)@.in_box(),
    {
        let ghost v = self@;
        let width = self.size.width;
        let height = self.size.height;
        let n = self.tagged_points.len();
        let mut k: usize = 0;
        assert forall|i: int| 0 <= i < n implies self.tagged_points@[i]@ == v.cells[i] by {
            assert(cells_of(self.tagged_points@)[i] == self.tagged_points@[i]@);
        }
        while k < n
            invariant
                0 <= k <= n,
                n == self.tagged_points@.len(),
                n == v.cells.len(),
                v == old(self)@,
                v.in_box(),
                self.size == old(self).size,
                width == v.width,
                height == v.height,
                forall|i: int| 0 <= i < k ==> self.tagged_points@[i]@ == v.rotated_right().cells[i],
                forall|i: int| k <= i < n ==> self.tagged_points@[i]@ == v.cells[i],
            decreases n - k,
        {
            let p = self.tagged_points[k];
            assert(p@ == v.cells[k as int]);
            let q = TaggedPoint::new(height - p.y() - 1, p.x(), p.color());
            self.tagged_points.set(k, q);
            k = k + 1;
        }
        self.size = Size::new(self.size.height, self.size.width);
        assert(self@.cells =~= v.rotated_right().cells);
        assert(self@ =~= v.rotated_right());
    }

    /// Flips the shape along x.
    pub fn mirror_x(&mut self)
        requires
            old(self)@.in_box(),
        ensures
            final(self)@ == old(self)@.mirrored_x(),
            final(self)@.in_box(),
    {
        let ghost v = self@;
        let width = self.size.width;
        let height = self.size.height;
        let n = self.tagged_points.len();
        let mut k: usize = 0;
        assert forall|i: int| 0 <= i < n implies self.tagged_points@[i]@ == v.cells[i] by {
            assert(cells_of(self.tagged_points@)[i] == self.tagged_points@[i]@);
        }
        while k < n
            invariant
                0 <= k <= n,
                n == self.tagged_points@.len(),
                n == v.cells.len(),
                v == old(self)@,
                v.in_box(),
                self.size == old(self).size,
                width == v.width,
                height == v.height,
                forall|i: int| 0 <= i < k ==> self.tagged_points@[i]@ == v.mirrored_x().cells[i],
                forall|i: int| k <= i < n ==> self.tagged_points@[i]@ == v.cells[i],
            decreases n - k,
        {
            let p = self.tagged_points[k];
            assert(p@ == v.cells[k as int]);
            let q = TaggedPoint::new(width - p.x() - 1, p.y(), p.color());
            self.tagged_points.set(k, q);
            k = k + 1;
        }
        assert(self@.cells =~= v.mirrored_x().cells);
        assert(self@ =~= v.mirrored_x());
    }

    /// Flips the shape along y.
    pub fn mirror_y(&mut self)
        requires
            old(self)@.in_box(),
        ensures
            final(self)@ == old(self)@.mirrored_y(),
            final(self)@.in_box(),
    {
        let ghost v = self@;
        let width = self.size.width;
        let height = self.size.height;
        let n = self.tagged_points.len();
        let mut k: usize = 0;
        assert forall|i: int| 0 <= i < n implies self.tagged_points@[i]@ == v.cells[i] by {
            assert(cells_of(self.tagged_points@)[i] == self.tagged_points@[i]@);
        }
        while k < n
            invariant
                0 <= k <= n,
                n == self.tagged_points@.len(),
                n == v.cells.len(),
                v == old(self)@,
                v.in_box(),
                self.size == old(self).size,
                width == v.width,
                height == v.height,
                forall|i: int| 0 <= i < k ==> self.tagged_points@[i]@ == v.mirrored_y().cells[i],
                forall|i: int| k <= i < n ==> self.tagged_points@[i]@ == v.cells[i],
            decreases n - k,
        {
            let p = self.tagged_points[k];
            assert(p@ == v.cells[k as int]);
            let q = TaggedPoint::new(p.x(), height - p.y() - 1, p.color());
            self.tagged_points.set(k, q);
            k = k + 1;
        }
        assert(self@.cells =~= v.mirrored_y().cells);
        assert(self@ =~= v.mirrored_y());
    }

    /// A shape with the same size and the same points in the same order.
    pub(crate) fn duplicate(&self) -> (r: Shape)
        ensures
            r@ == self@,
    {
        let n = self.tagged_points.len();
        let mut points: Vec<TaggedPoint> = Vec::new();
        let mut k: usize = 0;
        while k < n
            invariant
                0 <= k <= n,
                n == self.tagged_points@.len(),
                points@ == self.tagged_points@.subrange(0, k as int),
            decreases n - k,
        {
            points.push(self.tagged_points[k]);
            k = k + 1;
        }
        assert(points@ =~= self.tagged_points@);
        Shape { size: self.size, tagged_points: points }
    }

    /// Whether `point` is one of this shape's tagged points.
    fn has_point(&self, point: &TaggedPoint) -> (r: bool)
        ensures
            r == self@.cells.contains(point@),
    {
        let n = self.tagged_points.len();
        let mut k: usize = 0;
        while k < n
            invariant
                0 <= k <= n,
                n == self.tagged_points@.len(),
                forall|i: int| 0 <= i < k ==> self.tagged_points@[i]@ != point@,
            decreases n - k,
        {
            let q = self.tagged_points[k];
            if q.x() == point.x() && q.y() == point.y() && q.color() == point.color() {
                assert(self@.cells[k as int] == point@);
                return true;
            }
            k = k + 1;
        }
        assert forall|i: int| 0 <= i < n implies self@.cells[i] != point@ by {
            assert(self@.cells[i] == self.tagged_points@[i]@);
        }
        false
    }

    /// Whether every tagged point of this shape is one of `other`'s.
    fn points_within(&self, other: &Shape) -> (r: bool)
        ensures
            r == forall|i: int| 0 <= i < self@.cells.len() ==> other@.cells.contains(#[trigger] self@.cells[i]),
    {
        let n = self.tagged_points.len();
        let mut k: usize = 0;
        while k < n
            invariant
                0 <= k <= n,
                n == self.tagged_points@.len(),
                forall|i: int| 0 <= i < k ==> other@.cells.contains(#[trigger] self@.cells[i]),
            decreases n - k,
        {
            let q = self.tagged_points[k];
            assert(self@.cells[k as int] == q@);
            if !other.has_point(&q) {
                return false;
            }
            k = k + 1;
        }
        true
    }

    /// Whether the two shapes have the same size and the same set of tagged
    /// points.
    fn same_cells(&self, other: &Shape) -> (r: bool)
        ensures
            r == self@.same_cells(other@),
    {
        if self.size.width != other.size.width || self.size.height != other.size.height {
            return false;
        }
        let a = self.points_within(other);
        let b = other.points_within(self);
        proof {
            let s1 = self@.cells;
            let s2 = other@.cells;
            if a && b {
                assert forall|c: (int, int, char)| s1.to_set().contains(c) <==> s2.to_set().contains(c) by {
                    if s1.contains(c) {
                        let i = choose|i: int| 0 <= i < s1.len() && s1[i] == c;
                        assert(s2.contains(s1[i]));
                    }
                    if s2.contains(c) {
                        let i = choose|i: int| 0 <= i < s2.len() && s2[i] == c;
                        assert(s1.contains(s2[i]));
                    }
                }
                assert(s1.to_set() =~= s2.to_set());
            } else if !a {
                let i = choose|i: int| 0 <= i < s1.len() && !s2.contains(#[trigger] s1[i]);
                assert(s1.to_set().contains(s1[i]));
                assert(!s2.to_set().contains(s1[i]));
            } else {
                let i = choose|i: int| 0 <= i < s2.len() && !s1.contains(#[trigger] s2[i]);
                assert(s2.to_set().contains(s2[i]));
                assert(!s1.to_set().contains(s2[i]));
            }
        }
        a && b
    }

    /// A copy of the shape with its points sorted by colour, then x, then y.
    pub(crate) fn sorted_copy(&self) -> (r: Shape)
        ensures
            r@ == self@.sorted(),
    {
        let ghost cells = self@.cells;
        let n = self.tagged_points.len();
        let mut out: Vec<TaggedPoint> = Vec::new();
        let mut t: usize = 0;
        assert(cells.take(0) =~= Seq::<(int, int, char)>::empty());
        assert(cells_of(out@) =~= Seq::<(int, int, char)>::empty());
        while t < n
            invariant
                0 <= t <= n,
                n == cells.len(),
                cells == self@.cells,
                cells_of(out@) == sort_cells(cells.take(t as int)),
            decreases n - t,
        {
            let ghost sorted = cells_of(out@);
            let p = self.tagged_points[t];
            assert(cells[t as int] == p@);
            let mut pos: usize = 0;
            assert(sorted.skip(0) =~= sorted);
            while pos < out.len() && !point_lt(&p, &out[pos])
                invariant
                    0 <= pos <= out@.len(),
                    sorted == cells_of(out@),
                    cell_insert_at(sorted, p@) == pos + cell_insert_at(sorted.skip(pos as int), p@),
                decreases out@.len() - pos,
            {
                assert(sorted.skip(pos as int).drop_first() =~= sorted.skip(pos + 1));
                assert(sorted.skip(pos as int)[0] == out@[pos as int]@);
                pos = pos + 1;
            }
            proof {
                if pos < out@.len() {
                    assert(sorted.skip(pos as int)[0] == out@[pos as int]@);
                }
            }
            out.insert(pos, p);
            proof {
                assert(cells_of(out@) =~= sorted.insert(pos as int, p@));
                assert(cells.take(t + 1).drop_last() =~= cells.take(t as int));
                assert(cells.take(t + 1).last() == p@);
            }
            t = t + 1;
        }
        assert(cells.take(n as int) =~= cells);
        Shape { size: self.size, tagged_points: out }
    }

    /// The distinct orientations of the shape: turned left zero to three
    /// times, then flipped along x and turned left zero to three times again,
    /// each with its points sorted by colour, then x, then y, keeping each
    /// orientation whose cells differ from every one kept before it, in the
    /// order first seen.
    pub fn variants(&self) -> (r: Vec<Shape>)
        requires
            self@.in_box(),
        ensures
            shape_views(r@) == self@.distinct_orientations(8),
    {
        let ghost flipped = self@.rotated_left_times(4).mirrored_x();
        let mut shape = self.duplicate();
        let mut result: Vec<Shape> = Vec::new();
        assert(shape_views(result@) =~= self@.distinct_orientations(0));
        let mut m: usize = 0;
        while m < 2
            invariant
                m <= 2,
                shape@.in_box(),
                m == 0 ==> shape@ == self@,
                m == 1 ==> shape@ == flipped,
                flipped == self@.rotated_left_times(4).mirrored_x(),
                shape_views(result@) == self@.distinct_orientations((4 * m) as nat),
            decreases 2 - m,
        {
            let mut r: usize = 0;
            while r < 4
                invariant
                    r <= 4,
                    m < 2,
                    shape@.in_box(),
                    m == 0 ==> shape@ == self@.rotated_left_times(r as nat),
                    m == 1 ==> shape@ == flipped.rotated_left_times(r as nat),
                    flipped == self@.rotated_left_times(4).mirrored_x(),
                    shape_views(result@) == self@.distinct_orientations((4 * m + r) as nat),
                decreases 4 - r,
            {
                let ghost k = (4 * m + r) as nat;
                assert(shape@ == self@.orientation(k as int));
                let ghost kept = shape_views(result@);
                let sorted = shape.sorted_copy();
                let seen = shape_in(&result, &sorted);
                assert(seen == exists|i: int| 0 <= i < kept.len() && (#[trigger] kept[i]).same_cells(sorted@)) by {
                    if seen {
                        let i = choose|i: int| 0 <= i < result@.len() && (#[trigger] result@[i])@.same_cells(sorted@);
                        assert(kept[i] == result@[i]@);
                    }
                    if exists|i: int| 0 <= i < kept.len() && (#[trigger] kept[i]).same_cells(sorted@) {
                        let i = choose|i: int| 0 <= i < kept.len() && (#[trigger] kept[i]).same_cells(sorted@);
                        assert(kept[i] == result@[i]@);
                    }
                }
                if !seen {
                    result.push(sorted);
                    assert(shape_views(result@) =~= kept.push(self@.orientation(k as int).sorted()));
                }
                assert(shape_views(result@) == self@.distinct_orientations(k + 1));
                shape.rotate_left();
                r = r + 1;
            }
            shape.mirror_x();
            m = m + 1;
        }
        result
    }

    /// The colour of the first tagged point at `(i, j)`, or a space.
    fn color_at(&self, i: i32, j: i32) -> (r: char)
        ensures
            r == char_at(self@.cells, i as int, j as int),
    {
        let ghost cells = self@.cells;
        let n = self.tagged_points.len();
        let mut k: usize = 0;
        assert(cells.subrange(0, n as int) =~= cells);
        while k < n
            invariant
                0 <= k <= n,
                n == cells.len(),
                cells == self@.cells,
                char_at(cells, i as int, j as int) == char_at(cells.subrange(k as int, n as int), i as int, j as int),
            decreases n - k,
        {
            let p = self.tagged_points[k];
            assert(cells[k as int] == p@);
            assert(cells.subrange(k as int, n as int).drop_first() =~= cells.subrange(k + 1, n as int));
            if p.x() == i && p.y() == j {
                return p.color();
            }
            k = k + 1;
        }
        assert(cells.subrange(n as int, n as int) =~= Seq::<(int, int, char)>::empty());
        ' '
    }

    /// The drawing of the shape: one line per row `y`, each character the
    /// colour of the point at `(x, y)` or a space.
    pub fn to_string(&self) -> (r: String)
        requires
            self@.width >= 0,
            self@.height >= 0,
        ensures
            r@ == shape_rows(self@, self@.height as nat),
    {
        let mut out: Vec<char> = Vec::new();
        let w = self.size.width;
        let h = self.size.height;
        let mut j: i32 = 0;
        while j < h
            invariant
                0 <= j <= h,
                w == self@.width,
                h == self@.height,
                w >= 0,
                out@ == shape_rows(self@, j as nat),
            decreases h - j,
        {
            let ghost before = out@;
            let mut i: i32 = 0;
            while i < w
                invariant
                    0 <= i <= w,
                    0 <= j < h,
                    w == self@.width,
                    out@ == before + shape_row(self@, j as int, i as nat),
                decreases w - i,
            {
                let c = self.color_at(i, j);
                out.push(c);
                i = i + 1;
                assert(out@ =~= before + shape_row(self@, j as int, i as nat));
            }
            out.push('\n');
            j = j + 1;
            assert(out@ =~= shape_rows(self@, j as nat));
        }
        crate::text::string_of(&out)
    }
}

} // verus!
