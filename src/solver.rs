use vstd::prelude::*;

use crate::board::Board;
use crate::board::BoardSize;
use crate::coord::Point;
use crate::progress::SolverProgress;
use crate::progress::count_unused;
use crate::progress::lemma_count_unused_bounds;
use crate::progress::lemma_count_unused_update;
use crate::puzzle_piece::PuzzlePiece;
use crate::puzzle_piece::ShapeIdx;
use crate::shape::Shape;
use crate::shape::ShapeView;
use crate::shape::lemma_normalized_in_box;
use crate::shape::normalized_view;
use crate::shape::sprite_cells;
use crate::solution::Solution;
use crate::solution::covers_exactly;
use crate::solution::lemma_tiles_covers_exactly;
use crate::solution::positioned_views;
use crate::solution::strip_index;
use crate::solution::sorted_by_index;
use crate::progress::ShapesStatus;
use crate::progress::SolverProgressState;

verus! {

/// The grid cell that a tagged cell lands on when its shape is placed at `at`.
pub open spec fn placed_cell(c: (int, int, char), at: (int, int)) -> (int, int) {
    (c.0 + at.0, c.1 + at.1)
}

/// The grid cells covered by a shape placed at `at`.
pub open spec fn cover(v: ShapeView, at: (int, int)) -> Set<(int, int)> {
    Set::new(
        |p: (int, int)|
            exists|i: int| 0 <= i < v.cells.len() && p == #[trigger] placed_cell(v.cells[i], at),
    )
}

/// The colour a blank cell waits for.
pub open spec fn blank_color(p: PuzzlePiece) -> char {
    match p {
        PuzzlePiece::Blank { color } => color,
        PuzzlePiece::Shape { .. } => ' ',
    }
}

/// The blank cells of a grid, each with the colour it waits for.
pub open spec fn blank_colors(g: Board<PuzzlePiece>) -> Map<(int, int), char> {
    Map::new(
        |p: (int, int)| g.contains(p.0, p.1) && g.cell(p.0, p.1) is Blank,
        |p: (int, int)| blank_color(g.cell(p.0, p.1)),
    )
}

/// Every tagged cell of the shape placed at `at` lands on a blank cell that
/// waits for its colour.
pub open spec fn fits(m: Map<(int, int), char>, v: ShapeView, at: (int, int)) -> bool {
    forall|i: int|
        0 <= i < v.cells.len() ==> m.contains_key(#[trigger] placed_cell(v.cells[i], at))
            && m[placed_cell(v.cells[i], at)] == v.cells[i].2
}

/// Placements `(shape index, variant, offset)`, the last one placed first,
/// cover the blank cells `m` exactly once each, every tagged cell on a cell
/// of its own colour.
pub open spec fn tiles(m: Map<(int, int), char>, ps: Seq<(int, ShapeView, (int, int))>) -> bool
    decreases ps.len(),
{
    if ps.len() == 0 {
        m.dom() == Set::<(int, int)>::empty()
    } else {
        let p = ps.last();
        fits(m, p.1, p.2) && tiles(m.remove_keys(cover(p.1, p.2)), ps.drop_last())
    }
}

/// Each placement names a shape that `used` leaves unplaced, no shape twice,
/// and every unplaced shape once.
pub open spec fn places_each_unplaced(used: Seq<bool>, ps: Seq<(int, ShapeView, (int, int))>) -> bool {
    &&& forall|j: int| 0 <= j < ps.len() ==> 0 <= #[trigger] ps[j].0 < used.len() && !used[ps[j].0]
    &&& forall|j1: int, j2: int| 0 <= j1 < j2 < ps.len() ==> #[trigger] ps[j1].0 != #[trigger] ps[j2].0
    &&& forall|k: int|
        0 <= k < used.len() && !used[k] ==> exists|j: int| 0 <= j < ps.len() && #[trigger] ps[j].0 == k
}

/// The placement uses one of the variants of its shape.
pub open spec fn in_pool(pool: Seq<Seq<ShapeView>>, p: (int, ShapeView, (int, int))) -> bool {
    exists|v: int| 0 <= v < pool[p.0].len() && #[trigger] pool[p.0][v] == p.1
}

/// Each placement uses one of the variants of its shape.
pub open spec fn from_pool(pool: Seq<Seq<ShapeView>>, ps: Seq<(int, ShapeView, (int, int))>) -> bool {
    forall|j: int| 0 <= j < ps.len() ==> in_pool(pool, #[trigger] ps[j])
}

/// The view of one placement.
pub open spec fn placement_view(p: (usize, Shape, Point)) -> (int, ShapeView, (int, int)) {
    (p.0 as int, p.1@, (p.2.x as int, p.2.y as int))
}

pub open spec fn placement_views(ps: Seq<(usize, Shape, Point)>) -> Seq<(int, ShapeView, (int, int))> {
    ps.map_values(|p: (usize, Shape, Point)| placement_view(p))
}

/// The views of the variants of each shape of a pool.
pub open spec fn pool_views(shapes: Seq<Vec<Shape>>) -> Seq<Seq<ShapeView>> {
    shapes.map_values(|vs: Vec<Shape>| vs@.map_values(|s: Shape| s@))
}

/// Every variant of the pool lies inside its bounding size.
pub open spec fn pool_in_box(shapes: Seq<Vec<Shape>>) -> bool {
    forall|i: int, v: int|
        0 <= i < shapes.len() && 0 <= v < shapes[i]@.len() ==> (#[trigger] shapes[i]@[v])@.in_box()
}

/// Two grids of the same extent with the same value in every cell.
pub open spec fn same_board(a: Board<PuzzlePiece>, b: Board<PuzzlePiece>) -> bool {
    &&& a.wf()
    &&& a.spec_width() == b.spec_width()
    &&& a.spec_height() == b.spec_height()
    &&& forall|x: int, y: int| #[trigger] a.contains(x, y) ==> a.cell(x, y) == b.cell(x, y)
}

proof fn lemma_same_board_blanks(a: Board<PuzzlePiece>, b: Board<PuzzlePiece>)
    requires
        same_board(a, b),
    ensures
        blank_colors(a) == blank_colors(b),
{
    assert(blank_colors(a) =~= blank_colors(b));
}

/// The first blank cell in column-major order from column `from.x` on.
fn get_point_to_fill(grid: &Board<PuzzlePiece>, from: Point) -> (r: Option<Point>)
    requires
        grid.wf(),
        0 <= from.x,
    ensures
        r matches Some(p) ==> {
            &&& grid.contains(p.x as int, p.y as int)
            &&& grid.cell(p.x as int, p.y as int) is Blank
            &&& from.x <= p.x
            &&& forall|x: int, y: int|
                #![trigger grid.cell(x, y)]
                grid.contains(x, y) && from.x <= x && (x < p.x || (x == p.x && y < p.y))
                    ==> !(grid.cell(x, y) is Blank)
        },
        r is None ==> forall|x: int, y: int|
            #![trigger grid.cell(x, y)]
            grid.contains(x, y) && from.x <= x ==> !(grid.cell(x, y) is Blank),
{
    let width = grid.width();
    let height = grid.height();
    proof {
        grid.lemma_extent();
    }
    let mut i: i32 = from.x;
    while i < width
        invariant
            0 <= from.x <= i,
            0 < height,
            width == grid.spec_width(),
            height == grid.spec_height(),
            grid.wf(),
            forall|x: int, y: int|
                #![trigger grid.cell(x, y)]
                grid.contains(x, y) && from.x <= x < i ==> !(grid.cell(x, y) is Blank),
        decreases width - i,
    {
        let mut j: i32 = 0;
        while j < height
            invariant
                0 <= from.x <= i < width,
                0 < height,
                0 <= j <= height,
                width == grid.spec_width(),
                height == grid.spec_height(),
                grid.wf(),
                forall|x: int, y: int|
                    #![trigger grid.cell(x, y)]
                    grid.contains(x, y) && from.x <= x && (x < i || (x == i && y < j)) ==> !(grid.cell(
                        x,
                        y,
                    ) is Blank),
            decreases height - j,
        {
            let pos = Point::new(i, j);
            if grid.get(&pos).is_blank() {
                return Some(pos);
            }
            j = j + 1;
        }
        i = i + 1;
    }
    None
}

/// Whether the shape placed at `at` fits the blank cells of the grid and
/// covers `point_to_fill`. If so, its cells are marked as covered by shape
/// `shape_idx`; if it fits but misses `point_to_fill`, the attempt counts as
/// pruned.
fn matches(
    grid: &mut Board<PuzzlePiece>,
    progress: &mut SolverProgress,
    point_to_fill: Point,
    shape_idx: ShapeIdx,
    shape: &Shape,
    at: Point,
) -> (r: bool)
    requires
        old(grid).wf(),
        shape@.in_box(),
        0 <= at.x,
        0 <= at.y,
        at.x + shape@.width <= old(grid).spec_width(),
        at.y + shape@.height <= old(grid).spec_height(),
    ensures
        r == (fits(blank_colors(*old(grid)), shape@, (at.x as int, at.y as int)) && cover(
            shape@,
            (at.x as int, at.y as int),
        ).contains((point_to_fill.x as int, point_to_fill.y as int))),
        final(grid).wf(),
        final(grid).spec_width() == old(grid).spec_width(),
        final(grid).spec_height() == old(grid).spec_height(),
        forall|x: int, y: int|
            #![trigger final(grid).cell(x, y)]
            old(grid).contains(x, y) ==> final(grid).cell(x, y) == if r && cover(
                shape@,
                (at.x as int, at.y as int),
            ).contains((x, y)) {
                PuzzlePiece::Shape { shape_idx }
            } else {
                old(grid).cell(x, y)
            },
        final(progress)@ == if fits(blank_colors(*old(grid)), shape@, (at.x as int, at.y as int))
            && !r {
            crate::progress::ProgressView {
                pruned: if old(progress)@.pruned < u64::MAX {
                    (old(progress)@.pruned + 1) as u64
                } else {
                    u64::MAX
                },
                ..old(progress)@
            }
        } else {
            old(progress)@
        },
{
    let ghost v = shape@;
    let ghost a = (at.x as int, at.y as int);
    let ghost m = blank_colors(*grid);
    proof {
        grid.lemma_extent();
    }
    let n = shape.tagged_points.len();
    let mut position_is_filled = false;
    let mut k: usize = 0;
    while k < n
        invariant
            0 <= k <= n,
            n == v.cells.len(),
            v == shape@,
            a == (at.x as int, at.y as int),
            v.in_box(),
            grid.wf(),
            m == blank_colors(*grid),
            0 <= at.x,
            0 <= at.y,
            grid.spec_width() <= i32::MAX,
            grid.spec_height() <= i32::MAX,
            at.x + v.width <= grid.spec_width(),
            at.y + v.height <= grid.spec_height(),
            forall|i: int|
                0 <= i < k ==> m.contains_key(#[trigger] placed_cell(v.cells[i], a))
                    && m[placed_cell(v.cells[i], a)] == v.cells[i].2,
            position_is_filled == exists|i: int|
                0 <= i < k && #[trigger] placed_cell(v.cells[i], a) == (
                    point_to_fill.x as int,
                    point_to_fill.y as int,
                ),
        decreases n - k,
    {
        let tp = shape.tagged_points[k];
        assert(v.cells[k as int] == tp@);
        let point = Point::new(tp.x() + at.x, tp.y() + at.y);
        assert(placed_cell(v.cells[k as int], a) == (point.x as int, point.y as int));
        if *grid.get(&point) != PuzzlePiece::blank_char(tp.color()) {
            assert(!fits(m, v, a));
            return false;
        }
        if !position_is_filled && point.x == point_to_fill.x && point.y == point_to_fill.y {
            position_is_filled = true;
        }
        k = k + 1;
    }
    if !position_is_filled {
        progress.incr_pruned();
        return false;
    }
    let ghost g0 = *grid;
    let mut k: usize = 0;
    while k < n
        invariant
            0 <= k <= n,
            n == v.cells.len(),
            v == shape@,
            a == (at.x as int, at.y as int),
            v.in_box(),
            grid.wf(),
            g0.wf(),
            m == blank_colors(g0),
            grid.spec_width() == g0.spec_width(),
            grid.spec_height() == g0.spec_height(),
            0 <= at.x,
            0 <= at.y,
            grid.spec_width() <= i32::MAX,
            grid.spec_height() <= i32::MAX,
            at.x + v.width <= grid.spec_width(),
            at.y + v.height <= grid.spec_height(),
            forall|x: int, y: int|
                #![trigger grid.cell(x, y)]
                g0.contains(x, y) ==> grid.cell(x, y) == if exists|i: int|
                    0 <= i < k && #[trigger] placed_cell(v.cells[i], a) == (x, y) {
                    PuzzlePiece::Shape { shape_idx }
                } else {
                    g0.cell(x, y)
                },
        decreases n - k,
    {
        let tp = shape.tagged_points[k];
        assert(v.cells[k as int] == tp@);
        let point = Point::new(tp.x() + at.x, tp.y() + at.y);
        assert(placed_cell(v.cells[k as int], a) == (point.x as int, point.y as int));
        grid.set(&point, PuzzlePiece::shape(shape_idx));
        k = k + 1;
        proof {
            assert forall|x: int, y: int| #![trigger grid.cell(x, y)] g0.contains(x, y) implies grid.cell(x, y)
                == if exists|i: int| 0 <= i < k && #[trigger] placed_cell(v.cells[i], a) == (x, y) {
                PuzzlePiece::Shape { shape_idx }
            } else {
                g0.cell(x, y)
            } by {
                if x == point.x && y == point.y {
                    assert(placed_cell(v.cells[k - 1], a) == (x, y));
                } else if exists|i: int| 0 <= i < k && #[trigger] placed_cell(v.cells[i], a) == (x, y) {
                    let i = choose|i: int| 0 <= i < k && #[trigger] placed_cell(v.cells[i], a) == (x, y);
                    assert(i < k - 1);
                }
            }
        }
    }
    proof {
        assert forall|x: int, y: int| #![trigger grid.cell(x, y)] g0.contains(x, y) implies grid.cell(x, y)
            == if cover(v, a).contains((x, y)) {
            PuzzlePiece::Shape { shape_idx }
        } else {
            g0.cell(x, y)
        } by {
            if cover(v, a).contains((x, y)) {
                let i = choose|i: int| 0 <= i < v.cells.len() && (x, y) == #[trigger] placed_cell(v.cells[i], a);
                assert(placed_cell(v.cells[i], a) == (x, y));
            }
        }
    }
    true
}

/// Puts back the blank cells under the shape placed at `at`, as they were in
/// `orig`.
fn unmark(grid: &mut Board<PuzzlePiece>, shape: &Shape, at: Point, Ghost(orig): Ghost<Board<PuzzlePiece>>)
    requires
        old(grid).wf(),
        orig.wf(),
        old(grid).spec_width() == orig.spec_width(),
        old(grid).spec_height() == orig.spec_height(),
        shape@.in_box(),
        0 <= at.x,
        0 <= at.y,
        at.x + shape@.width <= orig.spec_width(),
        at.y + shape@.height <= orig.spec_height(),
        fits(blank_colors(orig), shape@, (at.x as int, at.y as int)),
        forall|x: int, y: int|
            #![trigger old(grid).cell(x, y)]
            orig.contains(x, y) && !cover(shape@, (at.x as int, at.y as int)).contains((x, y))
                ==> old(grid).cell(x, y) == orig.cell(x, y),
    ensures
        same_board(*final(grid), orig),
{
    let ghost v = shape@;
    let ghost a = (at.x as int, at.y as int);
    let ghost g0 = *grid;
    proof {
        grid.lemma_extent();
    }
    let n = shape.tagged_points.len();
    let mut k: usize = 0;
    while k < n
        invariant
            0 <= k <= n,
            n == v.cells.len(),
            v == shape@,
            a == (at.x as int, at.y as int),
            v.in_box(),
            grid.wf(),
            orig.wf(),
            grid.spec_width() == orig.spec_width(),
            grid.spec_height() == orig.spec_height(),
            0 <= at.x,
            0 <= at.y,
            orig.spec_width() <= i32::MAX,
            orig.spec_height() <= i32::MAX,
            at.x + v.width <= orig.spec_width(),
            at.y + v.height <= orig.spec_height(),
            fits(blank_colors(orig), v, a),
            forall|x: int, y: int|
                #![trigger grid.cell(x, y)]
                orig.contains(x, y) ==> grid.cell(x, y) == if exists|i: int|
                    0 <= i < k && #[trigger] placed_cell(v.cells[i], a) == (x, y) {
                    orig.cell(x, y)
                } else {
                    g0.cell(x, y)
                },
            forall|x: int, y: int|
                #![trigger g0.cell(x, y)]
                orig.contains(x, y) && !cover(v, a).contains((x, y)) ==> g0.cell(x, y) == orig.cell(
                    x,
                    y,
                ),
        decreases n - k,
    {
        let tp = shape.tagged_points[k];
        assert(v.cells[k as int] == tp@);
        let point = Point::new(tp.x() + at.x, tp.y() + at.y);
        assert(placed_cell(v.cells[k as int], a) == (point.x as int, point.y as int));
        proof {
            let c = placed_cell(v.cells[k as int], a);
            assert(blank_colors(orig).contains_key(c));
            assert(orig.cell(point.x as int, point.y as int) == PuzzlePiece::Blank { color: tp@.2 });
        }
        grid.set(&point, PuzzlePiece::blank_char(tp.color()));
        k = k + 1;
        proof {
            assert forall|x: int, y: int| #![trigger grid.cell(x, y)] orig.contains(x, y) implies grid.cell(x, y)
                == if exists|i: int| 0 <= i < k && #[trigger] placed_cell(v.cells[i], a) == (x, y) {
                orig.cell(x, y)
            } else {
                g0.cell(x, y)
            } by {
                if x == point.x && y == point.y {
                    assert(placed_cell(v.cells[k - 1], a) == (x, y));
                } else if exists|i: int| 0 <= i < k && #[trigger] placed_cell(v.cells[i], a) == (x, y) {
                    let i = choose|i: int| 0 <= i < k && #[trigger] placed_cell(v.cells[i], a) == (x, y);
                    assert(i < k - 1);
                }
            }
        }
    }
    proof {
        assert forall|x: int, y: int| #[trigger] grid.contains(x, y) implies grid.cell(x, y) == orig.cell(x, y) by {
            assert(orig.contains(x, y));
            if cover(v, a).contains((x, y)) {
                let i = choose|i: int| 0 <= i < v.cells.len() && (x, y) == #[trigger] placed_cell(v.cells[i], a);
                assert(placed_cell(v.cells[i], a) == (x, y));
            } else {
                assert(g0.cell(x, y) == orig.cell(x, y));
            }
        }
    }
}

proof fn lemma_marked_blanks(g: Board<PuzzlePiece>, g2: Board<PuzzlePiece>, v: ShapeView, a: (int, int), idx: ShapeIdx)
    requires
        g2.spec_width() == g.spec_width(),
        g2.spec_height() == g.spec_height(),
        forall|x: int, y: int|
            #![trigger g2.cell(x, y)]
            g.contains(x, y) ==> g2.cell(x, y) == if cover(v, a).contains((x, y)) {
                PuzzlePiece::Shape { shape_idx: idx }
            } else {
                g.cell(x, y)
            },
    ensures
        blank_colors(g2) == blank_colors(g).remove_keys(cover(v, a)),
{
    let m2 = blank_colors(g2);
    let m = blank_colors(g).remove_keys(cover(v, a));
    assert forall|p: (int, int)| m2.contains_key(p) <==> m.contains_key(p) by {
        if g.contains(p.0, p.1) {
            assert(g2.cell(p.0, p.1) == g2.cell(p.0, p.1));
        }
    }
    assert forall|p: (int, int)| m2.contains_key(p) implies m2[p] == m[p] by {
        assert(g2.cell(p.0, p.1) == g2.cell(p.0, p.1));
    }
    assert(m2 =~= m);
}

proof fn lemma_from_pool_push(
    pool: Seq<Seq<ShapeView>>,
    ps: Seq<(int, ShapeView, (int, int))>,
    p: (int, ShapeView, (int, int)),
    v: int,
)
    requires
        from_pool(pool, ps),
        0 <= v < pool[p.0].len(),
        pool[p.0][v] == p.1,
    ensures
        from_pool(pool, ps.push(p)),
{
    let all = ps.push(p);
    assert forall|j: int| 0 <= j < all.len() implies in_pool(pool, #[trigger] all[j]) by {
        if j < ps.len() {
            assert(all[j] == ps[j]);
        } else {
            assert(all[j] == p);
        }
    }
}

proof fn lemma_extend_placements(
    used: Seq<bool>,
    idx: int,
    p: (int, ShapeView, (int, int)),
    ps: Seq<(int, ShapeView, (int, int))>,
)
    requires
        0 <= idx < used.len(),
        !used[idx],
        p.0 == idx,
        places_each_unplaced(used.update(idx, true), ps),
    ensures
        places_each_unplaced(used, ps.push(p)),
{
    let all = ps.push(p);
    let u2 = used.update(idx, true);
    assert forall|j: int| 0 <= j < all.len() implies 0 <= #[trigger] all[j].0 < used.len()
        && !used[all[j].0] by {
        if j < ps.len() {
            assert(all[j] == ps[j]);
            assert(!u2[ps[j].0]);
        }
    }
    assert forall|j1: int, j2: int| 0 <= j1 < j2 < all.len() implies #[trigger] all[j1].0
        != #[trigger] all[j2].0 by {
        assert(all[j1] == ps[j1]);
        if j2 < ps.len() {
            assert(all[j2] == ps[j2]);
        } else {
            assert(!u2[ps[j1].0]);
        }
    }
    assert forall|k: int| 0 <= k < used.len() && !used[k] implies exists|j: int|
        0 <= j < all.len() && #[trigger] all[j].0 == k by {
        if k == idx {
            assert(all[all.len() - 1].0 == k);
        } else {
            assert(!u2[k]);
            let j = choose|j: int| 0 <= j < ps.len() && #[trigger] ps[j].0 == k;
            assert(all[j] == ps[j]);
        }
    }
}

/// `ps` places exactly the shapes that `used` leaves unplaced, each once and
/// in one of its variants, and covers the blank cells `m` exactly once.
pub open spec fn is_tiling(
    m: Map<(int, int), char>,
    used: Seq<bool>,
    pool: Seq<Seq<ShapeView>>,
    ps: Seq<(int, ShapeView, (int, int))>,
) -> bool {
    &&& covers_exactly(m, strip_index(ps))
    &&& places_each_unplaced(used, ps)
    &&& from_pool(pool, ps)
}

/// Some placements of the unplaced shapes cover the blank cells `m` exactly
/// once.
pub open spec fn solvable(m: Map<(int, int), char>, used: Seq<bool>, pool: Seq<Seq<ShapeView>>) -> bool {
    exists|ps: Seq<(int, ShapeView, (int, int))>| #[trigger] is_tiling(m, used, pool, ps)
}

/// Placing shape `k` as `v` at `a` fits, covers `p`, and leaves a puzzle
/// that can still be solved.
pub open spec fn leads(
    m: Map<(int, int), char>,
    used: Seq<bool>,
    pool: Seq<Seq<ShapeView>>,
    p: (int, int),
    k: int,
    v: ShapeView,
    a: (int, int),
) -> bool {
    &&& fits(m, v, a)
    &&& cover(v, a).contains(p)
    &&& solvable(m.remove_keys(cover(v, a)), used.update(k, true), pool)
}

/// Every variant of the pool touches all four sides of its bounding size.
pub open spec fn pool_tight(shapes: Seq<Vec<Shape>>) -> bool {
    forall|i: int, v: int|
        0 <= i < shapes.len() && 0 <= v < shapes[i]@.len() ==> (#[trigger] shapes[i]@[v])@.tight()
}

/// What a search gives: the placements found, the last placed first, if any;
/// and the number of placement attempts it made.
pub type SearchOutcome = (Option<Seq<(int, ShapeView, (int, int))>>, nat);

/// `q` comes before `p` in column-major order.
pub open spec fn col_major_before(q: (int, int), p: (int, int)) -> bool {
    q.0 < p.0 || (q.0 == p.0 && q.1 < p.1)
}

/// `p` is the first blank cell of `m` in column-major order.
pub open spec fn is_first_blank(m: Map<(int, int), char>, p: (int, int)) -> bool {
    &&& m.contains_key(p)
    &&& forall|q: (int, int)| #[trigger] m.contains_key(q) ==> !col_major_before(q, p)
}

/// The first blank cell of `m` in column-major order.
pub open spec fn first_blank(m: Map<(int, int), char>) -> (int, int) {
    choose|p: (int, int)| is_first_blank(m, p)
}

/// The outcome `a`, followed by `b` when `a` found nothing.
pub open spec fn then_search(a: SearchOutcome, b: SearchOutcome) -> SearchOutcome {
    if a.0 is Some {
        a
    } else {
        (b.0, a.1 + b.1)
    }
}

/// The smallest x offset at which `v` can cover `p`.
pub open spec fn x_lo(p: (int, int), v: ShapeView) -> int {
    if p.0 - v.width + 1 > 0 {
        p.0 - v.width + 1
    } else {
        0
    }
}

/// The largest x offset at which `v` can cover `p` and stay on the grid.
pub open spec fn x_hi(p: (int, int), v: ShapeView, width: int) -> int {
    if p.0 < width - v.width {
        p.0
    } else {
        width - v.width
    }
}

/// The smallest y offset at which `v` can cover `p`.
pub open spec fn y_lo(p: (int, int), v: ShapeView) -> int {
    if p.1 - v.height + 1 > 0 {
        p.1 - v.height + 1
    } else {
        0
    }
}

/// The largest y offset at which `v` can cover `p` and stay on the grid.
pub open spec fn y_hi(p: (int, int), v: ShapeView, height: int) -> int {
    if p.1 < height - v.height {
        p.1
    } else {
        height - v.height
    }
}

/// The search on the blank cells `m` of a `width` by `height` grid with the
/// shapes that `used` leaves unplaced: with every shape placed it succeeds
/// exactly when no blank cell is left; else it fills the first blank cell,
/// trying the unplaced shapes in pool order, each shape's variants in order,
/// and each variant's offsets column by column, recursing on each placement
/// that fits and covers that cell, and stopping at the first success.
pub open spec fn search(
    m: Map<(int, int), char>,
    used: Seq<bool>,
    pool: Seq<Seq<ShapeView>>,
    width: int,
    height: int,
) -> SearchOutcome
    decreases count_unused(used), 5int, 0int,
{
    if count_unused(used) == 0 {
        if m.dom() == Set::<(int, int)>::empty() {
            (Some(Seq::empty()), 0)
        } else {
            (None, 0)
        }
    } else if exists|p: (int, int)| is_first_blank(m, p) {
        try_shapes(m, used, pool, width, height, first_blank(m), 0)
    } else {
        (None, 0)
    }
}

/// The search from shape `k` of the pool on, filling `p`.
pub open spec fn try_shapes(
    m: Map<(int, int), char>,
    used: Seq<bool>,
    pool: Seq<Seq<ShapeView>>,
    width: int,
    height: int,
    p: (int, int),
    k: int,
) -> SearchOutcome
    decreases count_unused(used), 4int, used.len() - k,
{
    if k < 0 || k >= used.len() {
        (None, 0)
    } else if used[k] {
        try_shapes(m, used, pool, width, height, p, k + 1)
    } else {
        then_search(
            try_variants(m, used, pool, width, height, p, k, 0),
            try_shapes(m, used, pool, width, height, p, k + 1),
        )
    }
}

/// The search from variant `vi` of shape `k` on, filling `p`.
pub open spec fn try_variants(
    m: Map<(int, int), char>,
    used: Seq<bool>,
    pool: Seq<Seq<ShapeView>>,
    width: int,
    height: int,
    p: (int, int),
    k: int,
    vi: int,
) -> SearchOutcome
    decreases count_unused(used), 3int, pool[k].len() - vi,
{
    if vi < 0 || vi >= pool[k].len() {
        (None, 0)
    } else {
        then_search(
            try_xs(m, used, pool, width, height, p, k, vi, x_lo(p, pool[k][vi])),
            try_variants(m, used, pool, width, height, p, k, vi + 1),
        )
    }
}

/// The search over the x offsets from `i` on of variant `vi` of shape `k`.
pub open spec fn try_xs(
    m: Map<(int, int), char>,
    used: Seq<bool>,
    pool: Seq<Seq<ShapeView>>,
    width: int,
    height: int,
    p: (int, int),
    k: int,
    vi: int,
    i: int,
) -> SearchOutcome
    decreases count_unused(used), 2int, x_hi(p, pool[k][vi], width) + 1 - i,
{
    if i > x_hi(p, pool[k][vi], width) {
        (None, 0)
    } else {
        then_search(
            try_ys(m, used, pool, width, height, p, k, vi, i, y_lo(p, pool[k][vi])),
            try_xs(m, used, pool, width, height, p, k, vi, i + 1),
        )
    }
}

/// The search over the offsets `(i, j)` and on in `j` of variant `vi` of
/// shape `k`: each offset is one attempt.
pub open spec fn try_ys(
    m: Map<(int, int), char>,
    used: Seq<bool>,
    pool: Seq<Seq<ShapeView>>,
    width: int,
    height: int,
    p: (int, int),
    k: int,
    vi: int,
    i: int,
    j: int,
) -> SearchOutcome
    decreases count_unused(used), 1int, y_hi(p, pool[k][vi], height) + 1 - j
    via try_ys_decreases
{
    if j > y_hi(p, pool[k][vi], height) {
        (None, 0)
    } else {
        let v = pool[k][vi];
        let a = (i, j);
        let rest = try_ys(m, used, pool, width, height, p, k, vi, i, j + 1);
        if fits(m, v, a) && cover(v, a).contains(p) && 0 <= k < used.len() && !used[k] {
            let sub = search(m.remove_keys(cover(v, a)), used.update(k, true), pool, width, height);
            if sub.0 is Some {
                (Some(sub.0->0.push((k, v, a))), 1 + sub.1)
            } else {
                (rest.0, 1 + sub.1 + rest.1)
            }
        } else {
            (rest.0, 1 + rest.1)
        }
    }
}

#[via_fn]
proof fn try_ys_decreases(
    m: Map<(int, int), char>,
    used: Seq<bool>,
    pool: Seq<Seq<ShapeView>>,
    width: int,
    height: int,
    p: (int, int),
    k: int,
    vi: int,
    i: int,
    j: int,
) {
    if 0 <= k < used.len() && !used[k] {
        lemma_count_unused_update(used, k, true);
    }
}

/// `a` followed by `n` more, stopping at `u64::MAX`.
pub open spec fn sat_add(a: u64, n: nat) -> u64 {
    if a + n < u64::MAX {
        (a + n) as u64
    } else {
        u64::MAX
    }
}

proof fn lemma_then_search_assoc(a: SearchOutcome, b: SearchOutcome, c: SearchOutcome)
    ensures
        then_search(then_search(a, b), c) == then_search(a, then_search(b, c)),
{
}

proof fn lemma_sat_add_twice(a: u64, x: nat, y: nat)
    ensures
        sat_add(sat_add(a, x), y) == sat_add(a, x + y),
        sat_add(a, x) >= a,
{
}

proof fn lemma_first_blank_is(m: Map<(int, int), char>, p: (int, int))
    requires
        is_first_blank(m, p),
    ensures
        first_blank(m) == p,
{
    let q = first_blank(m);
    assert(is_first_blank(m, q));
    assert(!col_major_before(q, p));
    assert(!col_major_before(p, q));
}

/// A variant wider or taller than the grid is never tried: its offsets make
/// no attempt.
pub proof fn lemma_too_large_never_tried(
    m: Map<(int, int), char>,
    used: Seq<bool>,
    pool: Seq<Seq<ShapeView>>,
    width: int,
    height: int,
    p: (int, int),
    k: int,
    vi: int,
    i: int,
)
    requires
        0 <= p.0 < width,
        0 <= p.1 < height,
        pool[k][vi].width > width || pool[k][vi].height > height,
        x_lo(p, pool[k][vi]) <= i,
    ensures
        try_xs(m, used, pool, width, height, p, k, vi, i) == (None::<Seq<(int, ShapeView, (int, int))>>, 0nat),
    decreases x_hi(p, pool[k][vi], width) + 1 - i,
{
    if i <= x_hi(p, pool[k][vi], width) {
        lemma_too_large_never_tried(m, used, pool, width, height, p, k, vi, i + 1);
        assert(pool[k][vi].height > height);
        assert(y_hi(p, pool[k][vi], height) < y_lo(p, pool[k][vi]));
        assert(try_ys(m, used, pool, width, height, p, k, vi, i, y_lo(p, pool[k][vi])).1 == 0);
    }
}

proof fn lemma_ys_success_counts(
    m: Map<(int, int), char>,
    used: Seq<bool>,
    pool: Seq<Seq<ShapeView>>,
    width: int,
    height: int,
    p: (int, int),
    k: int,
    vi: int,
    i: int,
    j: int,
)
    ensures
        try_ys(m, used, pool, width, height, p, k, vi, i, j).0 is Some ==> try_ys(m, used, pool, width, height, p, k, vi, i, j).1 >= 1,
    decreases y_hi(p, pool[k][vi], height) + 1 - j,
{
    if j <= y_hi(p, pool[k][vi], height) {
        lemma_ys_success_counts(m, used, pool, width, height, p, k, vi, i, j + 1);
    }
}

proof fn lemma_xs_success_counts(
    m: Map<(int, int), char>,
    used: Seq<bool>,
    pool: Seq<Seq<ShapeView>>,
    width: int,
    height: int,
    p: (int, int),
    k: int,
    vi: int,
    i: int,
)
    ensures
        try_xs(m, used, pool, width, height, p, k, vi, i).0 is Some ==> try_xs(m, used, pool, width, height, p, k, vi, i).1 >= 1,
    decreases x_hi(p, pool[k][vi], width) + 1 - i,
{
    if i <= x_hi(p, pool[k][vi], width) {
        lemma_ys_success_counts(m, used, pool, width, height, p, k, vi, i, y_lo(p, pool[k][vi]));
        lemma_xs_success_counts(m, used, pool, width, height, p, k, vi, i + 1);
    }
}

proof fn lemma_variants_success_counts(
    m: Map<(int, int), char>,
    used: Seq<bool>,
    pool: Seq<Seq<ShapeView>>,
    width: int,
    height: int,
    p: (int, int),
    k: int,
    vi: int,
)
    ensures
        try_variants(m, used, pool, width, height, p, k, vi).0 is Some ==> try_variants(m, used, pool, width, height, p, k, vi).1 >= 1,
    decreases pool[k].len() - vi,
{
    if 0 <= vi < pool[k].len() {
        lemma_xs_success_counts(m, used, pool, width, height, p, k, vi, x_lo(p, pool[k][vi]));
        lemma_variants_success_counts(m, used, pool, width, height, p, k, vi + 1);
    }
}

proof fn lemma_shapes_success_counts(
    m: Map<(int, int), char>,
    used: Seq<bool>,
    pool: Seq<Seq<ShapeView>>,
    width: int,
    height: int,
    p: (int, int),
    k: int,
)
    ensures
        try_shapes(m, used, pool, width, height, p, k).0 is Some ==> try_shapes(m, used, pool, width, height, p, k).1 >= 1,
    decreases used.len() - k,
{
    if 0 <= k < used.len() {
        lemma_variants_success_counts(m, used, pool, width, height, p, k, 0);
        lemma_shapes_success_counts(m, used, pool, width, height, p, k + 1);
    }
}

/// A search that places at least one shape and succeeds made at least one
/// attempt.
pub proof fn lemma_success_counts(
    m: Map<(int, int), char>,
    used: Seq<bool>,
    pool: Seq<Seq<ShapeView>>,
    width: int,
    height: int,
)
    requires
        count_unused(used) > 0,
        search(m, used, pool, width, height).0 is Some,
    ensures
        search(m, used, pool, width, height).1 >= 1,
{
    lemma_shapes_success_counts(m, used, pool, width, height, first_blank(m), 0);
}

proof fn lemma_remove_placement(
    m: Map<(int, int), char>,
    used: Seq<bool>,
    pool: Seq<Seq<ShapeView>>,
    ps: Seq<(int, ShapeView, (int, int))>,
    j: int,
)
    requires
        is_tiling(m, used, pool, ps),
        0 <= j < ps.len(),
    ensures
        is_tiling(
            m.remove_keys(cover(ps[j].1, ps[j].2)),
            used.update(ps[j].0, true),
            pool,
            ps.remove(j),
        ),
{
    let c = cover(ps[j].1, ps[j].2);
    let m2 = m.remove_keys(c);
    let u2 = used.update(ps[j].0, true);
    let q = ps.remove(j);
    let s = strip_index(ps);
    let sq = strip_index(q);
    assert forall|i: int| 0 <= i < q.len() implies #[trigger] q[i] == ps[if i < j { i } else { i + 1 }] by {
        ps.remove_ensures(j);
    }
    assert forall|i: int| 0 <= i < sq.len() implies #[trigger] sq[i] == s[if i < j { i } else { i + 1 }] by {
        assert(q[i] == ps[if i < j { i } else { i + 1 }]);
    }
    assert forall|x: (int, int)| #[trigger] m2.contains_key(x) implies exists|k: int|
        0 <= k < sq.len() && #[trigger] cover(sq[k].0, sq[k].1).contains(x) by {
        assert(m.contains_key(x));
        let t = choose|t: int| 0 <= t < s.len() && #[trigger] cover(s[t].0, s[t].1).contains(x);
        assert(t != j);
        let i = if t < j { t } else { t - 1 };
        assert(sq[i] == s[t]);
    }
    assert forall|i: int| 0 <= i < sq.len() implies fits(m2, (#[trigger] sq[i]).0, sq[i].1) by {
        let t = if i < j { i } else { i + 1 };
        assert(sq[i] == s[t]);
        assert(s[j] == (ps[j].1, ps[j].2));
        assert(fits(m, s[t].0, s[t].1));
        assert(cover(s[t].0, s[t].1).disjoint(cover(s[j].0, s[j].1)));
        assert forall|e: int| 0 <= e < s[t].0.cells.len() implies m2.contains_key(
            #[trigger] placed_cell(s[t].0.cells[e], s[t].1),
        ) && m2[placed_cell(s[t].0.cells[e], s[t].1)] == s[t].0.cells[e].2 by {
            assert(cover(s[t].0, s[t].1).contains(placed_cell(s[t].0.cells[e], s[t].1)));
        }
    }
    assert forall|i1: int, i2: int|
        0 <= i1 < sq.len() && 0 <= i2 < sq.len() && i1 != i2 implies cover(
        (#[trigger] sq[i1]).0,
        sq[i1].1,
    ).disjoint(cover((#[trigger] sq[i2]).0, sq[i2].1)) by {
        let t1 = if i1 < j { i1 } else { i1 + 1 };
        let t2 = if i2 < j { i2 } else { i2 + 1 };
        assert(sq[i1] == s[t1]);
        assert(sq[i2] == s[t2]);
    }
    assert forall|i: int| 0 <= i < q.len() implies 0 <= #[trigger] q[i].0 < u2.len() && !u2[q[i].0] by {
        let t = if i < j { i } else { i + 1 };
        assert(q[i] == ps[t]);
        if t < j {
            assert(ps[t].0 != ps[j].0);
        } else {
            assert(ps[j].0 != ps[t].0);
        }
    }
    assert forall|i1: int, i2: int| 0 <= i1 < i2 < q.len() implies #[trigger] q[i1].0 != #[trigger] q[i2].0 by {
        let t1 = if i1 < j { i1 } else { i1 + 1 };
        let t2 = if i2 < j { i2 } else { i2 + 1 };
        assert(q[i1] == ps[t1]);
        assert(q[i2] == ps[t2]);
    }
    assert forall|k: int| 0 <= k < u2.len() && !u2[k] implies exists|i: int|
        0 <= i < q.len() && #[trigger] q[i].0 == k by {
        assert(!used[k]);
        let t = choose|t: int| 0 <= t < ps.len() && #[trigger] ps[t].0 == k;
        assert(t != j);
        let i = if t < j { t } else { t - 1 };
        assert(q[i] == ps[t]);
    }
    assert forall|i: int| 0 <= i < q.len() implies in_pool(pool, #[trigger] q[i]) by {
        let t = if i < j { i } else { i + 1 };
        assert(q[i] == ps[t]);
    }
    assert(is_tiling(m2, u2, pool, q));
}

proof fn lemma_some_lead(
    m: Map<(int, int), char>,
    used: Seq<bool>,
    pool: Seq<Seq<ShapeView>>,
    p: (int, int),
)
    requires
        solvable(m, used, pool),
        m.contains_key(p),
    ensures
        exists|k: int, vi: int, a: (int, int)|
            0 <= k < used.len() && !used[k] && 0 <= vi < pool[k].len() && #[trigger] leads(
                m,
                used,
                pool,
                p,
                k,
                pool[k][vi],
                a,
            ),
{
    let ps = choose|ps: Seq<(int, ShapeView, (int, int))>| #[trigger] is_tiling(m, used, pool, ps);
    let s = strip_index(ps);
    let j = choose|j: int| 0 <= j < s.len() && #[trigger] cover(s[j].0, s[j].1).contains(p);
    assert(s[j] == (ps[j].1, ps[j].2));
    assert(fits(m, s[j].0, s[j].1));
    assert(in_pool(pool, ps[j]));
    let vi = choose|vi: int| 0 <= vi < pool[ps[j].0].len() && #[trigger] pool[ps[j].0][vi] == ps[j].1;
    lemma_remove_placement(m, used, pool, ps, j);
    assert(is_tiling(
        m.remove_keys(cover(ps[j].1, ps[j].2)),
        used.update(ps[j].0, true),
        pool,
        ps.remove(j),
    ));
    assert(leads(m, used, pool, p, ps[j].0, pool[ps[j].0][vi], ps[j].2));
}

proof fn lemma_window(m: Map<(int, int), char>, v: ShapeView, a: (int, int), p: (int, int), width: int, height: int)
    requires
        v.tight(),
        fits(m, v, a),
        cover(v, a).contains(p),
        forall|c: (int, int)| #[trigger] m.contains_key(c) ==> 0 <= c.0 < width && 0 <= c.1 < height,
    ensures
        p.0 - v.width + 1 <= a.0 <= p.0,
        0 <= a.0 <= width - v.width,
        p.1 - v.height + 1 <= a.1 <= p.1,
        0 <= a.1 <= height - v.height,
{
    let e = choose|e: int| 0 <= e < v.cells.len() && p == #[trigger] placed_cell(v.cells[e], a);
    assert(0 <= v.cells[e].0 < v.width);
    let i = choose|i: int| 0 <= i < v.cells.len() && #[trigger] v.cells[i].0 == 0;
    assert(m.contains_key(placed_cell(v.cells[i], a)));
    let i = choose|i: int| 0 <= i < v.cells.len() && #[trigger] v.cells[i].1 == 0;
    assert(m.contains_key(placed_cell(v.cells[i], a)));
    let i = choose|i: int| 0 <= i < v.cells.len() && #[trigger] v.cells[i].0 == v.width - 1;
    assert(m.contains_key(placed_cell(v.cells[i], a)));
    let i = choose|i: int| 0 <= i < v.cells.len() && #[trigger] v.cells[i].1 == v.height - 1;
    assert(m.contains_key(placed_cell(v.cells[i], a)));
}

proof fn lemma_blank_colors_on_grid(g: Board<PuzzlePiece>)
    ensures
        forall|c: (int, int)|
            #[trigger] blank_colors(g).contains_key(c) ==> 0 <= c.0 < g.spec_width() && 0 <= c.1 < g.spec_height(),
{
}

/// The recursive search: fills the first blank cell at or after column
/// `point_to_fill.x` with some placement of an unplaced shape, and recurses.
/// On success the placements found are returned, the one made here last; on
/// failure no placement of the unplaced shapes tiles the blank cells. The
/// grid and the placed shapes are as they were on entry either way.
fn solve_puzzle_rec(
    grid: &mut Board<PuzzlePiece>,
    shapes: &Vec<Vec<Shape>>,
    progress: &mut SolverProgress,
    point_to_fill: Point,
) -> (r: Option<Vec<(usize, Shape, Point)>>)
    requires
        old(grid).wf(),
        pool_in_box(shapes@),
        pool_tight(shapes@),
        old(progress)@.wf(),
        old(progress)@.used.len() == shapes@.len(),
        shapes@.len() <= u32::MAX,
        old(progress)@.entered.len() + old(progress)@.remaining <= shapes@.len(),
        0 <= point_to_fill.x,
        forall|x: int, y: int|
            #![trigger old(grid).cell(x, y)]
            old(grid).contains(x, y) && x < point_to_fill.x ==> !(old(grid).cell(x, y) is Blank),
    ensures
        same_board(*final(grid), *old(grid)),
        final(progress)@.wf(),
        final(progress)@.same_placements(old(progress)@),
        r matches Some(ps) ==> {
            &&& tiles(blank_colors(*old(grid)), placement_views(ps@))
            &&& places_each_unplaced(old(progress)@.used, placement_views(ps@))
            &&& from_pool(pool_views(shapes@), placement_views(ps@))
        },
        r is None ==> !solvable(blank_colors(*old(grid)), old(progress)@.used, pool_views(shapes@)),
        final(progress)@.iterations >= old(progress)@.iterations,
        final(progress)@.iterations == sat_add(old(progress)@.iterations, search(blank_colors(*old(grid)), old(progress)@.used, pool_views(shapes@), old(grid).spec_width(), old(grid).spec_height()).1),
        r matches Some(ps) ==> search(blank_colors(*old(grid)), old(progress)@.used, pool_views(shapes@), old(grid).spec_width(), old(grid).spec_height()).0 == Some(placement_views(ps@)),
        r is None ==> search(blank_colors(*old(grid)), old(progress)@.used, pool_views(shapes@), old(grid).spec_width(), old(grid).spec_height()).0 is None,
    decreases old(progress)@.remaining,
{
    let ghost g = *grid;
    let ghost pv0 = progress@;
    proof {
        lemma_count_unused_bounds(progress@.used);
        grid.lemma_extent();
    }
    if progress.finish() {
        let next = get_point_to_fill(grid, point_to_fill);
        if next.is_some() {
            proof {
                let p = next->0;
                let pp = (p.x as int, p.y as int);
                assert(blank_colors(g).contains_key(pp));
                if solvable(blank_colors(g), pv0.used, pool_views(shapes@)) {
                    let ps = choose|ps: Seq<(int, ShapeView, (int, int))>| #[trigger] is_tiling(
                        blank_colors(g),
                        pv0.used,
                        pool_views(shapes@),
                        ps,
                    );
                    if ps.len() > 0 {
                        assert(pv0.used[ps[0].0]);
                    }
                    assert(strip_index(ps).len() == 0);
                }
                assert(blank_colors(g).dom().contains(pp));
                assert(blank_colors(g).dom() != Set::<(int, int)>::empty());
                lemma_sat_add_twice(pv0.iterations, 0, 0);
            }
            return None;
        }
        let ps: Vec<(usize, Shape, Point)> = Vec::new();
        proof {
            assert(blank_colors(g).dom() =~= Set::<(int, int)>::empty()) by {
                assert forall|p: (int, int)| !blank_colors(g).contains_key(p) by {
                    if g.contains(p.0, p.1) {
                        assert(!(g.cell(p.0, p.1) is Blank));
                    }
                }
            }
            assert(placement_views(ps@) =~= Seq::<(int, ShapeView, (int, int))>::empty());
            lemma_sat_add_twice(pv0.iterations, 0, 0);
        }
        return Some(ps);
    }
    let point_to_fill = match get_point_to_fill(grid, point_to_fill) {
        None => {
            proof {
                let m = blank_colors(g);
                let pool = pool_views(shapes@);
                if solvable(m, pv0.used, pool) {
                    let ps = choose|ps: Seq<(int, ShapeView, (int, int))>| #[trigger] is_tiling(m, pv0.used, pool, ps);
                    if forall|k: int| 0 <= k < pv0.used.len() ==> #[trigger] pv0.used[k] {
                        crate::progress::lemma_count_unused_none(pv0.used);
                    }
                    let k = choose|k: int| 0 <= k < pv0.used.len() && !#[trigger] pv0.used[k];
                    let j = choose|j: int| 0 <= j < ps.len() && #[trigger] ps[j].0 == k;
                    let sj = strip_index(ps)[j];
                    assert(fits(m, sj.0, sj.1));
                    assert(in_pool(pool, ps[j]));
                    let vi = choose|vi: int| 0 <= vi < pool[ps[j].0].len() && #[trigger] pool[ps[j].0][vi] == ps[j].1;
                    assert(pool[k][vi] == shapes@[k]@[vi]@);
                    assert(shapes@[k]@[vi]@.tight());
                    let c = placed_cell(sj.0.cells[0], sj.1);
                    assert(m.contains_key(c));
                    assert(g.contains(c.0, c.1));
                }
                assert forall|q: (int, int)| !is_first_blank(m, q) by {
                    if g.contains(q.0, q.1) {
                        assert(!(g.cell(q.0, q.1) is Blank));
                    }
                }
                lemma_sat_add_twice(pv0.iterations, 0, 0);
            }
            return None;
        },
        Some(p) => p,
    };
    let ghost m = blank_colors(g);
    let ghost pool = pool_views(shapes@);
    let ghost pp = (point_to_fill.x as int, point_to_fill.y as int);
    proof {
        lemma_blank_colors_on_grid(g);
    }
    let width = grid.width();
    let height = grid.height();
    let ghost total = search(m, pv0.used, pool, width as int, height as int);
    let ghost mut spent: nat = 0;
    proof {
        assert forall|q: (int, int)| #[trigger] m.contains_key(q) implies !col_major_before(q, pp) by {
            assert(g.contains(q.0, q.1));
        }
        assert(is_first_blank(m, pp));
        lemma_first_blank_is(m, pp);
        assert(count_unused(pv0.used) != 0);
        assert(total == then_search((None, 0), try_shapes(m, pv0.used, pool, width as int, height as int, pp, 0)));
    }
    let n = shapes.len();
    let mut shape_idx: usize = 0;
    while shape_idx < n
        invariant
            n == shapes@.len(),
            g == *old(grid),
            g.wf(),
            pv0 == old(progress)@,
            same_board(*grid, g),
            width == g.spec_width(),
            height == g.spec_height(),
            0 < width <= i32::MAX,
            0 < height <= i32::MAX,
            pool_in_box(shapes@),
            progress@.wf(),
            progress@.same_placements(pv0),
            pv0.wf(),
            pv0.used.len() == n,
            n <= u32::MAX,
            pv0.entered.len() + pv0.remaining <= n,
            pv0.remaining > 0,
            g.contains(point_to_fill.x as int, point_to_fill.y as int),
            g.cell(point_to_fill.x as int, point_to_fill.y as int) is Blank,
            forall|x: int, y: int|
                #![trigger g.cell(x, y)]
                g.contains(x, y) && (x < point_to_fill.x || (x == point_to_fill.x && y < point_to_fill.y))
                    ==> !(g.cell(x, y) is Blank),
            pool_tight(shapes@),
            m == blank_colors(g),
            pool == pool_views(shapes@),
            pp == (point_to_fill.x as int, point_to_fill.y as int),
            forall|c: (int, int)| #[trigger] m.contains_key(c) ==> 0 <= c.0 < width && 0 <= c.1 < height,
            forall|k2: int, vi2: int, a2: (int, int)|
                0 <= k2 < shape_idx && !pv0.used[k2] && 0 <= vi2 < pool[k2].len() ==> !#[trigger] leads(
                    m,
                    pv0.used,
                    pool,
                    pp,
                    k2,
                    pool[k2][vi2],
                    a2,
                ),
            total == search(m, pv0.used, pool, width as int, height as int),
            progress@.iterations == sat_add(pv0.iterations, spent),
            total == then_search((None::<Seq<(int, ShapeView, (int, int))>>, spent), try_shapes(m, pv0.used, pool, width as int, height as int, pp, shape_idx as int)),
        decreases n - shape_idx,
    {
        if !progress.shapes_used()[shape_idx] {
            let variants = &shapes[shape_idx];
            let nv = variants.len();
            proof {
                assert(try_shapes(m, pv0.used, pool, width as int, height as int, pp, shape_idx as int) == then_search(try_variants(m, pv0.used, pool, width as int, height as int, pp, shape_idx as int, 0), try_shapes(m, pv0.used, pool, width as int, height as int, pp, shape_idx as int + 1)));
            }
            let mut vi: usize = 0;
            while vi < nv
                invariant
                    n == shapes@.len(),
                    shape_idx < n,
                    variants == shapes@[shape_idx as int],
                    nv == variants@.len(),
                    !pv0.used[shape_idx as int],
                    g == *old(grid),
                    g.wf(),
            g.wf(),
                    pv0 == old(progress)@,
                    same_board(*grid, g),
                    width == g.spec_width(),
                    height == g.spec_height(),
                    0 < width <= i32::MAX,
                    0 < height <= i32::MAX,
                    pool_in_box(shapes@),
                    progress@.wf(),
                    progress@.same_placements(pv0),
                    pv0.wf(),
                    pv0.used.len() == n,
                    n <= u32::MAX,
                    pv0.entered.len() + pv0.remaining <= n,
                    pv0.remaining > 0,
                    g.contains(point_to_fill.x as int, point_to_fill.y as int),
                    g.cell(point_to_fill.x as int, point_to_fill.y as int) is Blank,
                    forall|x: int, y: int|
                        #![trigger g.cell(x, y)]
                        g.contains(x, y) && (x < point_to_fill.x || (x == point_to_fill.x && y
                            < point_to_fill.y)) ==> !(g.cell(x, y) is Blank),
                pool_tight(shapes@),
                m == blank_colors(g),
                pool == pool_views(shapes@),
                pp == (point_to_fill.x as int, point_to_fill.y as int),
                forall|c: (int, int)| #[trigger] m.contains_key(c) ==> 0 <= c.0 < width && 0 <= c.1 < height,
                forall|k2: int, vi2: int, a2: (int, int)|
                    0 <= k2 < shape_idx && !pv0.used[k2] && 0 <= vi2 < pool[k2].len() ==> !#[trigger] leads(
                        m,
                        pv0.used,
                        pool,
                        pp,
                        k2,
                        pool[k2][vi2],
                        a2,
                    ),
                forall|vi2: int, a2: (int, int)|
                    0 <= vi2 < vi ==> !#[trigger] leads(
                        m,
                        pv0.used,
                        pool,
                        pp,
                        shape_idx as int,
                        pool[shape_idx as int][vi2],
                        a2,
                    ),
                    total == search(m, pv0.used, pool, width as int, height as int),
                    progress@.iterations == sat_add(pv0.iterations, spent),
                    total == then_search((None::<Seq<(int, ShapeView, (int, int))>>, spent), then_search(try_variants(m, pv0.used, pool, width as int, height as int, pp, shape_idx as int, vi as int), try_shapes(m, pv0.used, pool, width as int, height as int, pp, shape_idx as int + 1))),
                decreases nv - vi,
            {
                let variant = &variants[vi];
                assert(variant@.in_box());
                let vw = variant.width();
                let vh = variant.height();
                let x_min: i32 = if point_to_fill.x - vw + 1 > 0 { point_to_fill.x - vw + 1 } else { 0 };
                let x_max: i32 = if point_to_fill.x < width - vw { point_to_fill.x } else { width - vw };
                let y_min: i32 = if point_to_fill.y - vh + 1 > 0 { point_to_fill.y - vh + 1 } else { 0 };
                let y_max: i32 = if point_to_fill.y < height - vh { point_to_fill.y } else { height - vh };
                proof {
                    assert(shapes@[shape_idx as int]@[vi as int] == variant);
                    assert(variant@.tight());
                    assert(pool[shape_idx as int][vi as int] == variant@);
                    lemma_then_search_assoc(try_xs(m, pv0.used, pool, width as int, height as int, pp, shape_idx as int, vi as int, x_min as int), try_variants(m, pv0.used, pool, width as int, height as int, pp, shape_idx as int, vi as int + 1), try_shapes(m, pv0.used, pool, width as int, height as int, pp, shape_idx as int + 1));
                    assert forall|a2: (int, int)| a2.0 < x_min implies !#[trigger] leads(
                        m,
                        pv0.used,
                        pool,
                        pp,
                        shape_idx as int,
                        variant@,
                        a2,
                    ) by {
                        if leads(m, pv0.used, pool, pp, shape_idx as int, variant@, a2) {
                            lemma_window(m, variant@, a2, pp, width as int, height as int);
                        }
                    }
                }
                let mut i: i32 = x_min;
                while i <= x_max
                    invariant
                        n == shapes@.len(),
                        shape_idx < n,
                        variants == shapes@[shape_idx as int],
                        vi < nv,
                        nv == variants@.len(),
                        variant == variants@[vi as int],
                        variant@.in_box(),
                        vw == variant@.width,
                        vh == variant@.height,
                        0 <= x_min <= i,
                        0 <= y_min,
                        y_min == 0 || y_min == point_to_fill.y - vh + 1,
                        y_max == point_to_fill.y || y_max == height - vh,
                        variant@.tight(),
                        x_max <= point_to_fill.x,
                        y_max <= point_to_fill.y,
                        x_max + vw <= width,
                        y_max + vh <= height,
                        !pv0.used[shape_idx as int],
                        g == *old(grid),
                        g.wf(),
                    g.wf(),
            g.wf(),
                        pv0 == old(progress)@,
                        same_board(*grid, g),
                        width == g.spec_width(),
                        height == g.spec_height(),
                        0 < width <= i32::MAX,
                        0 < height <= i32::MAX,
                        pool_in_box(shapes@),
                        progress@.wf(),
                        progress@.same_placements(pv0),
                        pv0.wf(),
                        pv0.used.len() == n,
                        n <= u32::MAX,
                        pv0.entered.len() + pv0.remaining <= n,
                        pv0.remaining > 0,
                        g.contains(point_to_fill.x as int, point_to_fill.y as int),
                        forall|x: int, y: int|
                            #![trigger g.cell(x, y)]
                            g.contains(x, y) && (x < point_to_fill.x || (x == point_to_fill.x && y
                                < point_to_fill.y)) ==> !(g.cell(x, y) is Blank),
                    pool_tight(shapes@),
                    m == blank_colors(g),
                    pool == pool_views(shapes@),
                    pp == (point_to_fill.x as int, point_to_fill.y as int),
                    forall|c: (int, int)| #[trigger] m.contains_key(c) ==> 0 <= c.0 < width && 0 <= c.1 < height,
                    forall|k2: int, vi2: int, a2: (int, int)|
                        0 <= k2 < shape_idx && !pv0.used[k2] && 0 <= vi2 < pool[k2].len() ==> !#[trigger] leads(
                            m,
                            pv0.used,
                            pool,
                            pp,
                            k2,
                            pool[k2][vi2],
                            a2,
                        ),
                    forall|vi2: int, a2: (int, int)|
                        0 <= vi2 < vi ==> !#[trigger] leads(
                            m,
                            pv0.used,
                            pool,
                            pp,
                            shape_idx as int,
                            pool[shape_idx as int][vi2],
                            a2,
                        ),
                    pool[shape_idx as int][vi as int] == variant@,
                    forall|a2: (int, int)|
                        a2.0 < i ==> !#[trigger] leads(m, pv0.used, pool, pp, shape_idx as int, variant@, a2),
                        x_min == x_lo(pp, variant@),
                        x_max == x_hi(pp, variant@, width as int),
                        y_min == y_lo(pp, variant@),
                        y_max == y_hi(pp, variant@, height as int),
                        total == search(m, pv0.used, pool, width as int, height as int),
                        progress@.iterations == sat_add(pv0.iterations, spent),
                        total == then_search((None::<Seq<(int, ShapeView, (int, int))>>, spent), then_search(try_xs(m, pv0.used, pool, width as int, height as int, pp, shape_idx as int, vi as int, i as int), then_search(try_variants(m, pv0.used, pool, width as int, height as int, pp, shape_idx as int, vi as int + 1), try_shapes(m, pv0.used, pool, width as int, height as int, pp, shape_idx as int + 1)))),
                    decreases x_max + 1 - i,
                {
                    proof {
                        lemma_then_search_assoc(
                            try_ys(m, pv0.used, pool, width as int, height as int, pp, shape_idx as int, vi as int, i as int, y_min as int),
                            try_xs(m, pv0.used, pool, width as int, height as int, pp, shape_idx as int, vi as int, i + 1),
                            then_search(try_variants(m, pv0.used, pool, width as int, height as int, pp, shape_idx as int, vi as int + 1), try_shapes(m, pv0.used, pool, width as int, height as int, pp, shape_idx as int + 1)),
                        );
                        assert forall|a2: (int, int)| a2.0 == i && a2.1 < y_min implies !#[trigger] leads(
                            m,
                            pv0.used,
                            pool,
                            pp,
                            shape_idx as int,
                            variant@,
                            a2,
                        ) by {
                            if leads(m, pv0.used, pool, pp, shape_idx as int, variant@, a2) {
                                lemma_window(m, variant@, a2, pp, width as int, height as int);
                            }
                        }
                    }
                    let mut j: i32 = y_min;
                    while j <= y_max
                        invariant
                            n == shapes@.len(),
                            shape_idx < n,
                            variants == shapes@[shape_idx as int],
                            vi < nv,
                            nv == variants@.len(),
                            variant == variants@[vi as int],
                            variant@.in_box(),
                            vw == variant@.width,
                            vh == variant@.height,
                            0 <= x_min <= i <= x_max,
                            0 <= y_min <= j,
                            y_min == 0 || y_min == point_to_fill.y - vh + 1,
                            y_max == point_to_fill.y || y_max == height - vh,
                            variant@.tight(),
                            x_max <= point_to_fill.x,
                            x_max + vw <= width,
                            y_max + vh <= height,
                            y_max <= point_to_fill.y,
                            !pv0.used[shape_idx as int],
                            g == *old(grid),
                            g.wf(),
                        g.wf(),
                    g.wf(),
            g.wf(),
                            pv0 == old(progress)@,
                            same_board(*grid, g),
                            width == g.spec_width(),
                            height == g.spec_height(),
                            0 < width <= i32::MAX,
                            0 < height <= i32::MAX,
                            pool_in_box(shapes@),
                            progress@.wf(),
                            progress@.same_placements(pv0),
                            pv0.wf(),
                            pv0.used.len() == n,
                            n <= u32::MAX,
                            pv0.entered.len() + pv0.remaining <= n,
                            pv0.remaining > 0,
                            g.contains(point_to_fill.x as int, point_to_fill.y as int),
                            forall|x: int, y: int|
                                #![trigger g.cell(x, y)]
                                g.contains(x, y) && (x < point_to_fill.x || (x == point_to_fill.x
                                    && y < point_to_fill.y)) ==> !(g.cell(x, y) is Blank),
                        pool_tight(shapes@),
                        m == blank_colors(g),
                        pool == pool_views(shapes@),
                        pp == (point_to_fill.x as int, point_to_fill.y as int),
                        forall|c: (int, int)| #[trigger] m.contains_key(c) ==> 0 <= c.0 < width && 0 <= c.1 < height,
                        forall|k2: int, vi2: int, a2: (int, int)|
                            0 <= k2 < shape_idx && !pv0.used[k2] && 0 <= vi2 < pool[k2].len() ==> !#[trigger] leads(
                                m,
                                pv0.used,
                                pool,
                                pp,
                                k2,
                                pool[k2][vi2],
                                a2,
                            ),
                        forall|vi2: int, a2: (int, int)|
                            0 <= vi2 < vi ==> !#[trigger] leads(
                                m,
                                pv0.used,
                                pool,
                                pp,
                                shape_idx as int,
                                pool[shape_idx as int][vi2],
                                a2,
                            ),
                        pool[shape_idx as int][vi as int] == variant@,
                        forall|a2: (int, int)|
                            a2.0 < i ==> !#[trigger] leads(m, pv0.used, pool, pp, shape_idx as int, variant@, a2),
                        forall|a2: (int, int)|
                            a2.0 == i && a2.1 < j ==> !#[trigger] leads(m, pv0.used, pool, pp, shape_idx as int, variant@, a2),
                            x_min == x_lo(pp, variant@),
                            x_max == x_hi(pp, variant@, width as int),
                            y_min == y_lo(pp, variant@),
                            y_max == y_hi(pp, variant@, height as int),
                            total == search(m, pv0.used, pool, width as int, height as int),
                            progress@.iterations == sat_add(pv0.iterations, spent),
                            total == then_search((None::<Seq<(int, ShapeView, (int, int))>>, spent), then_search(try_ys(m, pv0.used, pool, width as int, height as int, pp, shape_idx as int, vi as int, i as int, j as int), then_search(try_xs(m, pv0.used, pool, width as int, height as int, pp, shape_idx as int, vi as int, i + 1), then_search(try_variants(m, pv0.used, pool, width as int, height as int, pp, shape_idx as int, vi as int + 1), try_shapes(m, pv0.used, pool, width as int, height as int, pp, shape_idx as int + 1))))),
                        decreases y_max + 1 - j,
                    {
                        let at = Point::new(i, j);
                        let ghost a = (i as int, j as int);
                        progress.incr();
                        proof {
                            lemma_same_board_blanks(*grid, g);
                            lemma_sat_add_twice(pv0.iterations, spent, 1);
                        }
                        let ghost g1 = *grid;
                        let ghost ty_here = try_ys(m, pv0.used, pool, width as int, height as int, pp, shape_idx as int, vi as int, i as int, j as int);
                        let ghost ty_next = try_ys(m, pv0.used, pool, width as int, height as int, pp, shape_idx as int, vi as int, i as int, j + 1);
                        if matches(grid, progress, point_to_fill, shape_idx as u32, variant, at) {
                            let ghost g2 = *grid;
                            let ghost sub_out = search(
                                blank_colors(g2),
                                pv0.used.update(shape_idx as int, true),
                                pool,
                                width as int,
                                height as int,
                            );
                            proof {
                                lemma_marked_blanks(g1, g2, variant@, a, shape_idx as u32);
                                assert(blank_colors(g1) == blank_colors(g));
                                assert forall|x: int, y: int|
                                    #![trigger g2.cell(x, y)]
                                    g2.contains(x, y) && x < point_to_fill.x implies !(g2.cell(x, y) is Blank) by {
                                    assert(g1.contains(x, y));
                                    assert(g1.cell(x, y) == g.cell(x, y));
                                    assert(!(g.cell(x, y) is Blank));
                                }
                                lemma_count_unused_update(pv0.used, shape_idx as int, true);
                            }
                            progress.enter(shape_idx as u32);
                            proof {
                                assert(progress@.used == pv0.used.update(shape_idx as int, true));
                            }
                            let sub = solve_puzzle_rec(grid, shapes, progress, point_to_fill);
                            proof {
                                lemma_sat_add_twice(pv0.iterations, spent + 1, sub_out.1);
                                assert(m.remove_keys(cover(variant@, a)) == blank_colors(g2));
                                assert(fits(m, variant@, a) && cover(variant@, a).contains(pp));
                            }
                            progress.leave();
                            proof {
                                crate::progress::lemma_enter_leave_restores(pv0, shape_idx as int);
                                assert forall|x: int, y: int|
                                    #![trigger grid.cell(x, y)]
                                    g.contains(x, y) && !cover(variant@, a).contains((x, y)) implies grid.cell(x, y)
                                    == g.cell(x, y) by {
                                    assert(grid.contains(x, y));
                                    assert(g1.contains(x, y));
                                    assert(g2.cell(x, y) == g1.cell(x, y));
                                    assert(g1.cell(x, y) == g.cell(x, y));
                                }
                            }
                            unmark(grid, variant, at, Ghost(g));
                            assert(same_board(*grid, g));
                            match sub {
                                Some(mut ps) => {
                                    let ghost sub_views = placement_views(ps@);
                                    let placed = (shape_idx, variant.duplicate(), at);
                                    ps.push(placed);
                                    proof {
                                        let pv = placement_view(placed);
                                        assert(placement_views(ps@) =~= sub_views.push(pv));
                                        assert(pv.1 == variant@);
                                        assert(pv.2 == a);
                                        assert(blank_colors(g).remove_keys(cover(variant@, a)) == blank_colors(g2));
                                        assert(placement_views(ps@).drop_last() == sub_views);
                                        assert(placement_views(ps@).last() == pv);
                                        assert(fits(blank_colors(g), variant@, a));
                                        assert(tiles(blank_colors(g2), sub_views));
                                        assert(tiles(blank_colors(g), placement_views(ps@)));
                                        lemma_extend_placements(pv0.used, shape_idx as int, pv, sub_views);
                                        let pool = pool_views(shapes@);
                                        assert(pool[shape_idx as int][vi as int] == variant@);
                                        lemma_from_pool_push(pool, sub_views, pv, vi as int);
                                        assert(ty_here == (Some(placement_views(ps@)), 1 + sub_out.1));
                                    }
                                    return Some(ps);
                                },
                                None => {
                                    proof {
                                        assert(ty_here == (ty_next.0, 1 + sub_out.1 + ty_next.1));
                                        spent = spent + 1 + sub_out.1;
                                    }
                                },
                            }
                        } else {
                            proof {
                                assert(!(fits(m, variant@, a) && cover(variant@, a).contains(pp)));
                                assert(ty_here == (ty_next.0, 1 + ty_next.1));
                                spent = spent + 1;
                                assert forall|x: int, y: int| #[trigger] grid.contains(x, y) implies grid.cell(x, y) == g.cell(x, y) by {
                                    assert(g1.contains(x, y));
                                }
                            }
                        }
                        j = j + 1;
                    }
                    proof {
                        assert(try_ys(m, pv0.used, pool, width as int, height as int, pp, shape_idx as int, vi as int, i as int, j as int).1 == 0);
                        assert forall|a2: (int, int)| a2.0 < i + 1 implies !#[trigger] leads(
                            m,
                            pv0.used,
                            pool,
                            pp,
                            shape_idx as int,
                            variant@,
                            a2,
                        ) by {
                            if a2.0 == i && leads(m, pv0.used, pool, pp, shape_idx as int, variant@, a2) {
                                lemma_window(m, variant@, a2, pp, width as int, height as int);
                            }
                        }
                    }
                    i = i + 1;
                }
                proof {
                    assert(try_xs(m, pv0.used, pool, width as int, height as int, pp, shape_idx as int, vi as int, i as int).1 == 0);
                    assert forall|vi2: int, a2: (int, int)| 0 <= vi2 < vi + 1 implies !#[trigger] leads(
                        m,
                        pv0.used,
                        pool,
                        pp,
                        shape_idx as int,
                        pool[shape_idx as int][vi2],
                        a2,
                    ) by {
                        if vi2 == vi && leads(m, pv0.used, pool, pp, shape_idx as int, variant@, a2) {
                            lemma_window(m, variant@, a2, pp, width as int, height as int);
                        }
                    }
                }
                vi = vi + 1;
            }
        }
        proof {
            if pv0.used[shape_idx as int] {
                assert(try_shapes(m, pv0.used, pool, width as int, height as int, pp, shape_idx as int) == try_shapes(m, pv0.used, pool, width as int, height as int, pp, shape_idx as int + 1));
            } else {
                assert(try_variants(m, pv0.used, pool, width as int, height as int, pp, shape_idx as int, pool[shape_idx as int].len() as int).1 == 0);
            }
        }
        shape_idx = shape_idx + 1;
    }
    proof {
        assert(try_shapes(m, pv0.used, pool, width as int, height as int, pp, n as int).1 == 0);
        assert(m.contains_key(pp));
        if solvable(m, pv0.used, pool) {
            lemma_some_lead(m, pv0.used, pool, pp);
            let (k, vi, a) = choose|k: int, vi: int, a: (int, int)|
                0 <= k < pv0.used.len() && !pv0.used[k] && 0 <= vi < pool[k].len() && #[trigger] leads(
                    m,
                    pv0.used,
                    pool,
                    pp,
                    k,
                    pool[k][vi],
                    a,
                );
            assert(!leads(m, pv0.used, pool, pp, k, pool[k][vi], a));
        }
    }
    None
}

/// Why a puzzle was not solved.
#[derive(Clone, Copy, Debug, PartialEq, Eq, Structural)]
pub enum SolveError {
    /// The sprite at `index` has no cells.
    EmptySprite { index: usize },
    /// The shapes have `cells` cells in all, but the grid has `area`.
    AreaMismatch { cells: u64, area: u64 },
    /// No placement of the shapes fills the grid.
    NoSolution,
}

/// The normalized shape that a sprite draws.
pub open spec fn sprite_shape(s: &str) -> ShapeView {
    normalized_view(sprite_cells(s@))
}

/// `v` is one of the distinct orientations of the shape the sprite draws.
pub open spec fn is_variant_of(v: ShapeView, sprite: &str) -> bool {
    exists|i: int|
        0 <= i < sprite_shape(sprite).distinct_orientations(8).len() && #[trigger] sprite_shape(
            sprite,
        ).distinct_orientations(8)[i] == v
}

/// `ps` places each shape that the sprites draw once, in one of its distinct
/// orientations, and covers the blank cells `m` exactly once.
pub open spec fn is_sprite_tiling(m: Map<(int, int), char>, sprites: Seq<&str>, ps: Seq<(int, ShapeView, (int, int))>) -> bool {
    &&& covers_exactly(m, strip_index(ps))
    &&& places_each_unplaced(Seq::new(sprites.len(), |i: int| false), ps)
    &&& forall|j: int| 0 <= j < ps.len() ==> is_variant_of((#[trigger] ps[j]).1, sprites[ps[j].0])
}

/// The shapes that the sprites draw can tile the blank cells `m`.
pub open spec fn tiling_exists(m: Map<(int, int), char>, sprites: Seq<&str>) -> bool {
    exists|ps: Seq<(int, ShapeView, (int, int))>| #[trigger] is_sprite_tiling(m, sprites, ps)
}

/// The pool the sprites give: for each sprite, the distinct orientations of
/// the shape it draws.
pub open spec fn sprite_pool(sprites: Seq<&str>) -> Seq<Seq<ShapeView>> {
    Seq::new(sprites.len(), |k: int| sprite_shape(sprites[k]).distinct_orientations(8))
}

/// The search on the blank cells of `g` with every shape the sprites draw
/// unplaced.
pub open spec fn first_search(g: Board<PuzzlePiece>, sprites: Seq<&str>) -> SearchOutcome {
    search(
        blank_colors(g),
        Seq::new(sprites.len(), |i: int| false),
        sprite_pool(sprites),
        g.spec_width(),
        g.spec_height(),
    )
}

/// The number of cells of the first `n` sprites together.
pub open spec fn total_cells(sprites: Seq<&str>, n: nat) -> int
    decreases n,
{
    if n == 0 {
        0
    } else {
        total_cells(sprites, (n - 1) as nat) + sprite_cells(sprites[n - 1]@).len()
    }
}

proof fn lemma_placements_count(n: nat, ps: Seq<(int, ShapeView, (int, int))>)
    requires
        places_each_unplaced(Seq::new(n, |i: int| false), ps),
    ensures
        ps.len() == n,
{
    let used = Seq::new(n, |i: int| false);
    let idx = ps.map_values(|p: (int, ShapeView, (int, int))| p.0);
    assert forall|a: int, b: int| 0 <= a < idx.len() && 0 <= b < idx.len() && a != b implies idx[a]
        != idx[b] by {
        if a < b {
            assert(ps[a].0 != ps[b].0);
        } else {
            assert(ps[b].0 != ps[a].0);
        }
    }
    assert(idx.no_duplicates());
    idx.unique_seq_to_set();
    assert forall|k: int| idx.to_set().contains(k) <==> vstd::set_lib::set_int_range(0, n as int).contains(k) by {
        if idx.to_set().contains(k) {
            let j = choose|j: int| 0 <= j < idx.len() && idx[j] == k;
            assert(0 <= ps[j].0 < used.len());
        }
        if 0 <= k < n {
            assert(!used[k]);
            let j = choose|j: int| 0 <= j < ps.len() && #[trigger] ps[j].0 == k;
            assert(idx[j] == k);
        }
    }
    assert(idx.to_set() =~= vstd::set_lib::set_int_range(0, n as int));
    vstd::set_lib::lemma_int_range(0, n as int);
}

proof fn lemma_pool_order(
    m: Map<(int, int), char>,
    pool: Seq<Seq<ShapeView>>,
    ps: Seq<(int, ShapeView, (int, int))>,
    sol: Seq<(ShapeView, (int, int))>,
    n: nat,
)
    requires
        covers_exactly(m, strip_index(ps)),
        places_each_unplaced(Seq::new(n, |i: int| false), ps),
        from_pool(pool, ps),
        ps.len() == n,
        sol.len() == n,
        forall|j: int| 0 <= j < n ==> sol[(#[trigger] ps[j]).0] == strip_index(ps)[j],
    ensures
        covers_exactly(m, sol),
        forall|k: int| 0 <= k < n ==> #[trigger] in_pool(pool, (k, sol[k].0, sol[k].1)),
{
    let s = strip_index(ps);
    let used = Seq::new(n, |i: int| false);
    assert forall|c: (int, int)| #[trigger] m.contains_key(c) implies exists|k: int|
        0 <= k < sol.len() && #[trigger] cover(sol[k].0, sol[k].1).contains(c) by {
        let j = choose|j: int| 0 <= j < s.len() && #[trigger] cover(s[j].0, s[j].1).contains(c);
        assert(0 <= ps[j].0 < n);
        assert(sol[ps[j].0] == s[j]);
    }
    assert forall|k: int| 0 <= k < sol.len() implies fits(m, (#[trigger] sol[k]).0, sol[k].1) by {
        assert(!used[k]);
        let j = choose|j: int| 0 <= j < n && #[trigger] ps[j].0 == k;
        assert(sol[k] == s[j]);
    }
    assert forall|k1: int, k2: int|
        0 <= k1 < sol.len() && 0 <= k2 < sol.len() && k1 != k2 implies cover(
        (#[trigger] sol[k1]).0,
        sol[k1].1,
    ).disjoint(cover((#[trigger] sol[k2]).0, sol[k2].1)) by {
        assert(!used[k1]);
        assert(!used[k2]);
        let j1 = choose|j: int| 0 <= j < n && #[trigger] ps[j].0 == k1;
        let j2 = choose|j: int| 0 <= j < n && #[trigger] ps[j].0 == k2;
        assert(sol[k1] == s[j1]);
        assert(sol[k2] == s[j2]);
        assert(j1 != j2);
    }
    assert forall|k: int| 0 <= k < n implies #[trigger] in_pool(pool, (k, sol[k].0, sol[k].1)) by {
        assert(!used[k]);
        let j = choose|j: int| 0 <= j < n && #[trigger] ps[j].0 == k;
        assert(in_pool(pool, ps[j]));
        assert(sol[k] == s[j]);
    }
}

/// Solves the puzzle: fills the blank cells of `grid` with the shapes the
/// sprites draw, each shape once, in any of its distinct orientations, every
/// tagged cell on a blank cell of its own colour. Sprites without cells and
/// a total number of shape cells other than the grid's area are refused
/// before the search; after that a solution comes back exactly when such a
/// tiling exists, and the first one found in pool, variant and offset order
/// is the one returned. The grid is left as it was.
pub fn solve_puzzle(grid: &mut Board<PuzzlePiece>, sprites: &[&str]) -> (r: Result<Solution, SolveError>)
    requires
        old(grid).wf(),
        sprites@.len() <= u32::MAX,
        forall|k: int| 0 <= k < sprites@.len() ==> (#[trigger] sprites@[k])@.len() < i32::MAX,
    ensures
        same_board(*final(grid), *old(grid)),
        r matches Err(SolveError::EmptySprite { index }) ==> {
            &&& index < sprites@.len()
            &&& sprite_cells(sprites@[index as int]@).len() == 0
            &&& forall|k: int| 0 <= k < index ==> sprite_cells((#[trigger] sprites@[k])@).len() > 0
        },
        !(r matches Err(SolveError::EmptySprite { .. })) ==> forall|k: int|
            0 <= k < sprites@.len() ==> sprite_cells((#[trigger] sprites@[k])@).len() > 0,
        r matches Err(SolveError::AreaMismatch { cells, area }) ==> {
            &&& cells == total_cells(sprites@, sprites@.len())
            &&& area == old(grid).spec_width() * old(grid).spec_height()
            &&& cells != area
        },
        (r is Ok || r matches Err(SolveError::NoSolution)) ==> total_cells(sprites@, sprites@.len())
            == old(grid).spec_width() * old(grid).spec_height(),
        r matches Err(SolveError::NoSolution) ==> !tiling_exists(blank_colors(*old(grid)), sprites@),
        r matches Err(SolveError::NoSolution) ==> first_search(*old(grid), sprites@).0 is None,
        r matches Ok(solution) ==> {
            &&& first_search(*old(grid), sprites@).0 is Some
            &&& solution.iterations == sat_add(0, first_search(*old(grid), sprites@).1)
            &&& sprites@.len() > 0 ==> solution.iterations > 0
            &&& forall|k: int|
                0 <= k < sprites@.len() ==> crate::shape::distinct_positions(
                    (#[trigger] positioned_views(solution.positioned_shapes@)[k]).0.cells,
                )
            &&& forall|j: int|
                0 <= j < first_search(*old(grid), sprites@).0->0.len() ==> positioned_views(
                    solution.positioned_shapes@,
                )[(#[trigger] first_search(*old(grid), sprites@).0->0[j]).0] == strip_index(
                    first_search(*old(grid), sprites@).0->0,
                )[j]
        },
        r is Ok ==> tiling_exists(blank_colors(*old(grid)), sprites@),
        r matches Ok(solution) ==> {
            &&& solution.positioned_shapes@.len() == sprites@.len()
            &&& covers_exactly(blank_colors(*old(grid)), positioned_views(solution.positioned_shapes@))
            &&& forall|k: int|
                0 <= k < sprites@.len() ==> is_variant_of(
                    (#[trigger] positioned_views(solution.positioned_shapes@)[k]).0,
                    sprites@[k],
                )
        },
{
    proof {
        grid.lemma_extent();
    }
    let ghost g = *grid;
    let n = sprites.len();
    let mut shapes: Vec<Vec<Shape>> = Vec::new();
    let mut total: u64 = 0;
    let mut k: usize = 0;
    while k < n
        invariant
            0 <= k <= n,
            n == sprites@.len(),
            n <= u32::MAX,
            *grid == g,
            g == *old(grid),
            g.wf(),
            forall|i: int| 0 <= i < sprites@.len() ==> (#[trigger] sprites@[i])@.len() < i32::MAX,
            shapes@.len() == k,
            total == total_cells(sprites@, k as nat),
            total <= k * i32::MAX,
            forall|i: int| 0 <= i < k ==> sprite_cells((#[trigger] sprites@[i])@).len() > 0,
            pool_in_box(shapes@),
            pool_tight(shapes@),
            forall|i: int|
                0 <= i < k ==> pool_views(shapes@)[i] == sprite_shape(#[trigger] sprites@[i]).distinct_orientations(8),
        decreases n - k,
    {
        let shape = Shape::parse(sprites[k]);
        let count = shape.tagged_points.len();
        proof {
            crate::shape::lemma_sprite_cells_len(sprites@[k as int]@);
            assert(shape@.cells.len() == count);
            assert(normalized_view(sprite_cells(sprites@[k as int]@)).cells.len() == sprite_cells(
                sprites@[k as int]@,
            ).len());
        }
        if count == 0 {
            assert(sprite_cells(sprites@[k as int]@).len() == 0);
            return Err(SolveError::EmptySprite { index: k });
        }
        proof {
            lemma_normalized_in_box(sprite_cells(sprites@[k as int]@));
            assert(total + count <= (k + 1) * i32::MAX) by (nonlinear_arith)
                requires
                    total <= k * i32::MAX,
                    count < i32::MAX,
            ;
            assert((k + 1) * i32::MAX <= u32::MAX * i32::MAX) by (nonlinear_arith)
                requires
                    k + 1 <= u32::MAX,
            ;
        }
        let variants = shape.variants();
        let ghost before = shapes@;
        total = total + count as u64;
        shapes.push(variants);
        proof {
            assert(shapes@[k as int] == variants);
            assert forall|i: int, v: int|
                0 <= i < shapes@.len() && 0 <= v < shapes@[i]@.len() implies (#[trigger] shapes@[i]@[v])@.in_box() by {
                if i < k {
                    assert(shapes@[i] == before[i]);
                } else {
                    crate::shape::lemma_orientations_in_box(shape@, 8);
                    assert(crate::shape::shape_views(variants@)[v] == variants@[v]@);
                }
            }
            assert forall|i: int, v: int|
                0 <= i < shapes@.len() && 0 <= v < shapes@[i]@.len() implies (#[trigger] shapes@[i]@[v])@.tight() by {
                if i < k {
                    assert(shapes@[i] == before[i]);
                } else {
                    crate::shape::lemma_normalized_tight(sprite_cells(sprites@[k as int]@));
                    crate::shape::lemma_orientations_tight(shape@, 8);
                    assert(crate::shape::shape_views(variants@)[v] == variants@[v]@);
                }
            }
            assert forall|i: int| 0 <= i < k + 1 implies pool_views(shapes@)[i] == sprite_shape(
                #[trigger] sprites@[i],
            ).distinct_orientations(8) by {
                if i < k {
                    assert(shapes@[i] == before[i]);
                    assert(pool_views(shapes@)[i] == pool_views(before)[i]);
                }
            }
        }
        k = k + 1;
    }
    let width = grid.width();
    let height = grid.height();
    proof {
        assert(width * height <= i32::MAX * i32::MAX) by (nonlinear_arith)
            requires
                0 < width <= i32::MAX,
                0 < height <= i32::MAX,
        ;
    }
    let area: u64 = (width as u64) * (height as u64);
    if total != area {
        return Err(SolveError::AreaMismatch { cells: total, area });
    }
    assert(total_cells(sprites@, sprites@.len()) == g.spec_width() * g.spec_height());
    let status = ShapesStatus::of(&shapes);
    let mut progress = SolverProgress::new(SolverProgressState::new(status));
    proof {
        let pv = progress@;
        assert(pv.entered =~= Seq::<int>::empty());
        crate::progress::lemma_count_unused_all(pv.used);
    }
    let found = solve_puzzle_rec(grid, &shapes, &mut progress, Point::new(0, 0));
    let ghost m = blank_colors(g);
    let ghost pool = pool_views(shapes@);
    let ghost used0 = Seq::new(n as nat, |i: int| false);
    proof {
        assert(progress@.used =~= used0);
        assert(pool =~= sprite_pool(sprites@));
    }
    match found {
        None => {
            proof {
                if tiling_exists(m, sprites@) {
                    let ps = choose|ps: Seq<(int, ShapeView, (int, int))>| #[trigger] is_sprite_tiling(m, sprites@, ps);
                    assert forall|j: int| 0 <= j < ps.len() implies in_pool(pool, #[trigger] ps[j]) by {
                        assert(is_variant_of(ps[j].1, sprites@[ps[j].0]));
                        assert(pool[ps[j].0] == sprite_shape(sprites@[ps[j].0]).distinct_orientations(8));
                    }
                    assert(is_tiling(m, used0, pool, ps));
                }
            }
            assert(total_cells(sprites@, sprites@.len()) == g.spec_width() * g.spec_height());
            Err(SolveError::NoSolution)
        },
        Some(ps) => {
            let ghost pv = placement_views(ps@);
            proof {
                lemma_placements_count(n as nat, pv);
                assert(progress@.used.len() == n);
                assert(Seq::new(n as nat, |i: int| false) =~= Seq::new(ps@.len(), |i: int| false));
            }
            let solution = Solution::of(ps, progress.count());
            proof {
                lemma_tiles_covers_exactly(blank_colors(g), pv);
                crate::solution::lemma_sorted_places_by_index(pv, n as nat);
                if n > 0 {
                    crate::progress::lemma_count_unused_all(used0);
                    lemma_success_counts(m, used0, pool, g.spec_width(), g.spec_height());
                }
                let sv = positioned_views(solution.positioned_shapes@);
                assert(sv.len() == n);
                assert forall|j: int| 0 <= j < n implies sv[(#[trigger] pv[j]).0] == strip_index(pv)[j] by {
                    assert(sv[pv[j].0] == strip_index(sorted_by_index(pv))[pv[j].0]);
                }
                assert forall|j: int| 0 <= j < pv.len() implies is_variant_of((#[trigger] pv[j]).1, sprites@[pv[j].0]) by {
                    assert(in_pool(pool, pv[j]));
                    assert(pool[pv[j].0] == sprite_shape(sprites@[pv[j].0]).distinct_orientations(8));
                }
                assert(is_sprite_tiling(m, sprites@, pv));
                lemma_pool_order(
                    blank_colors(g),
                    pool_views(shapes@),
                    pv,
                    positioned_views(solution.positioned_shapes@),
                    n as nat,
                );
                assert forall|k: int|
                    0 <= k < sprites@.len() implies is_variant_of(
                    (#[trigger] positioned_views(solution.positioned_shapes@)[k]).0,
                    sprites@[k],
                ) by {
                    assert(pool_views(shapes@)[k] == sprite_shape(sprites@[k]).distinct_orientations(8));
                    let sv = positioned_views(solution.positioned_shapes@);
                    assert(in_pool(pool_views(shapes@), (k, sv[k].0, sv[k].1)));
                }
                assert forall|k: int| 0 <= k < sprites@.len() implies crate::shape::distinct_positions(
                    (#[trigger] positioned_views(solution.positioned_shapes@)[k]).0.cells,
                ) by {
                    let sv = positioned_views(solution.positioned_shapes@);
                    assert(is_variant_of(sv[k].0, sprites@[k]));
                    crate::shape::lemma_sprite_positions_distinct(sprites@[k]@);
                    let i = choose|i: int|
                        0 <= i < sprite_shape(sprites@[k]).distinct_orientations(8).len() && #[trigger] sprite_shape(
                            sprites@[k],
                        ).distinct_orientations(8)[i] == sv[k].0;
                }
            }
            Ok(solution)
        },
    }
}

} // verus!
