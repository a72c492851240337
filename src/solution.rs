use vstd::prelude::*;

use crate::board::Board;
use crate::board::BoardSize;
use crate::board::grid_text;
use crate::board::lemma_grid_text_agree;
use crate::coord::Point;
use crate::shape::char_at;
use crate::text::decimal;
use crate::text::grouped;
use crate::text::push_str;
use crate::text::string_of;
use crate::text::with_spaces;
use crate::shape::Shape;
use crate::shape::ShapeView;
use crate::solver::blank_colors;
use crate::solver::cover;
use crate::solver::fits;
use crate::solver::placement_views;
use crate::solver::places_each_unplaced;
use crate::solver::tiles;

verus! {

/// A solved puzzle: for each shape of the pool, in pool order, the variant
/// used and where it was placed; and the number of placement attempts made.
pub struct Solution {
    pub positioned_shapes: Vec<(Shape, Point)>,
    pub iterations: u64,
}

/// The views of positioned shapes.
pub open spec fn positioned_views(ps: Seq<(Shape, Point)>) -> Seq<(ShapeView, (int, int))> {
    ps.map_values(|p: (Shape, Point)| (p.0@, (p.1.x as int, p.1.y as int)))
}

/// The placed shapes cover every cell of `m` exactly once, only cells of
/// `m`, and each tagged cell lies on a cell of its own colour.
pub open spec fn covers_exactly(m: Map<(int, int), char>, ps: Seq<(ShapeView, (int, int))>) -> bool {
    &&& forall|c: (int, int)|
        #[trigger] m.contains_key(c) ==> exists|k: int|
            0 <= k < ps.len() && #[trigger] cover(ps[k].0, ps[k].1).contains(c)
    &&& forall|k: int| 0 <= k < ps.len() ==> fits(m, (#[trigger] ps[k]).0, ps[k].1)
    &&& forall|k1: int, k2: int|
        0 <= k1 < ps.len() && 0 <= k2 < ps.len() && k1 != k2 ==> cover(
            (#[trigger] ps[k1]).0,
            ps[k1].1,
        ).disjoint(cover((#[trigger] ps[k2]).0, ps[k2].1))
}

pub open spec fn strip_index(ps: Seq<(int, ShapeView, (int, int))>) -> Seq<(ShapeView, (int, int))> {
    ps.map_values(|p: (int, ShapeView, (int, int))| (p.1, p.2))
}

proof fn lemma_fits_cover_in_dom(m: Map<(int, int), char>, v: ShapeView, a: (int, int))
    requires
        fits(m, v, a),
    ensures
        cover(v, a).subset_of(m.dom()),
{
    assert forall|c: (int, int)| cover(v, a).contains(c) implies m.dom().contains(c) by {
        let i = choose|i: int| 0 <= i < v.cells.len() && c == #[trigger] crate::solver::placed_cell(v.cells[i], a);
        assert(m.contains_key(crate::solver::placed_cell(v.cells[i], a)));
    }
}

/// Placements that tile `m` cover each of its cells exactly once.
pub proof fn lemma_tiles_covers_exactly(m: Map<(int, int), char>, ps: Seq<(int, ShapeView, (int, int))>)
    requires
        tiles(m, ps),
    ensures
        covers_exactly(m, strip_index(ps)),
    decreases ps.len(),
{
    let s = strip_index(ps);
    if ps.len() == 0 {
        assert forall|c: (int, int)| #[trigger] m.contains_key(c) implies false by {
            assert(m.dom().contains(c));
        }
    } else {
        let last = ps.last();
        let rest = ps.drop_last();
        let c_last = cover(last.1, last.2);
        let m2 = m.remove_keys(c_last);
        lemma_tiles_covers_exactly(m2, rest);
        let s2 = strip_index(rest);
        assert(s2 =~= s.drop_last());
        let n = s.len();
        assert(s[n - 1] == (last.1, last.2));
        lemma_fits_cover_in_dom(m, last.1, last.2);
        assert forall|c: (int, int)| #[trigger] m.contains_key(c) implies exists|k: int|
            0 <= k < s.len() && #[trigger] cover(s[k].0, s[k].1).contains(c) by {
            if c_last.contains(c) {
                assert(cover(s[n - 1].0, s[n - 1].1).contains(c));
            } else {
                assert(m2.contains_key(c));
                let k = choose|k: int| 0 <= k < s2.len() && #[trigger] cover(s2[k].0, s2[k].1).contains(c);
                assert(s[k] == s2[k]);
            }
        }
        assert forall|k: int| 0 <= k < s.len() implies fits(m, (#[trigger] s[k]).0, s[k].1) by {
            if k < n - 1 {
                assert(s[k] == s2[k]);
                assert(fits(m2, s2[k].0, s2[k].1));
            }
        }
        assert forall|k1: int, k2: int|
            0 <= k1 < s.len() && 0 <= k2 < s.len() && k1 != k2 implies cover(
            (#[trigger] s[k1]).0,
            s[k1].1,
        ).disjoint(cover((#[trigger] s[k2]).0, s[k2].1)) by {
            if k1 < n - 1 && k2 < n - 1 {
                assert(s[k1] == s2[k1]);
                assert(s[k2] == s2[k2]);
            } else if k1 < n - 1 {
                assert(s[k1] == s2[k1]);
                lemma_fits_cover_in_dom(m2, s2[k1].0, s2[k1].1);
            } else {
                assert(s[k2] == s2[k2]);
                lemma_fits_cover_in_dom(m2, s2[k2].0, s2[k2].1);
            }
        }
    }
}

/// The character a shape placed at `at` shows at `(x, y)`: the colour of
/// its first tagged cell that lands there, or a space.
pub open spec fn placed_char(v: ShapeView, at: (int, int), x: int, y: int) -> char {
    char_at(v.cells, x - at.0, y - at.1)
}

/// The drawings of the first `n` positioned shapes, each on a grid of its
/// own, separated by empty lines.
pub open spec fn boards_text(ps: Seq<(ShapeView, (int, int))>, width: nat, height: nat, n: nat) -> Seq<char>
    decreases n,
{
    if n == 0 {
        Seq::empty()
    } else {
        boards_text(ps, width, height, (n - 1) as nat) + (if n > 1 {
            seq!['\n']
        } else {
            Seq::empty()
        }) + grid_text(width, height, |x: int, y: int| placed_char(ps[n - 1].0, ps[n - 1].1, x, y))
    }
}

/// The text of a solution on a grid of the given size: a line with the
/// number of attempts, its digits grouped by three, an empty line, then the
/// drawing of each positioned shape.
pub open spec fn solution_text(s: Solution, width: nat, height: nat) -> Seq<char> {
    "Found solution after "@ + grouped(decimal(s.iterations as nat)) + " iterations.\n\n"@
        + boards_text(
        positioned_views(s.positioned_shapes@),
        width,
        height,
        s.positioned_shapes@.len(),
    )
}

/// A grid of the given size that shows the shape placed at `at`.
fn placed_board(shape: &Shape, at: Point, width: i32, height: i32) -> (r: Board<char>)
    requires
        width > 0,
        height > 0,
        width * height <= usize::MAX,
    ensures
        r.wf(),
        r.spec_width() == width,
        r.spec_height() == height,
        forall|x: int, y: int|
            r.contains(x, y) ==> #[trigger] r.cell(x, y) == placed_char(shape@, (at.x as int, at.y as int), x, y),
{
    let ghost cells = shape@.cells;
    let ghost a = (at.x as int, at.y as int);
    let mut board = Board::new(width, height, ' ');
    let n = shape.tagged_points.len();
    let mut k: usize = n;
    assert(cells.subrange(n as int, n as int) =~= Seq::<(int, int, char)>::empty());
    while k > 0
        invariant
            0 <= k <= n,
            n == cells.len(),
            cells == shape@.cells,
            a == (at.x as int, at.y as int),
            board.wf(),
            board.spec_width() == width,
            board.spec_height() == height,
            forall|x: int, y: int|
                board.contains(x, y) ==> #[trigger] board.cell(x, y) == char_at(
                    cells.subrange(k as int, n as int),
                    x - a.0,
                    y - a.1,
                ),
        decreases k,
    {
        k = k - 1;
        let p = shape.tagged_points[k];
        assert(cells[k as int] == p@);
        let x: i64 = p.x() as i64 + at.x as i64;
        let y: i64 = p.y() as i64 + at.y as i64;
        let ghost prev = board;
        assert(cells.subrange(k as int, n as int).drop_first() =~= cells.subrange(k + 1, n as int));
        if 0 <= x && x < width as i64 && 0 <= y && y < height as i64 {
            board.set(&Point::new(x as i32, y as i32), p.color());
        }
        assert forall|x1: int, y1: int| board.contains(x1, y1) implies #[trigger] board.cell(x1, y1)
            == char_at(cells.subrange(k as int, n as int), x1 - a.0, y1 - a.1) by {
            assert(prev.contains(x1, y1));
            assert(prev.cell(x1, y1) == char_at(cells.subrange(k + 1, n as int), x1 - a.0, y1 - a.1));
        }
    }
    assert(cells.subrange(0, n as int) =~= cells);
    board
}

/// Entries `(key, view of the shape, offset)` from parallel keys and
/// positioned shapes.
pub open spec fn keyed_views(keys: Seq<usize>, ps: Seq<(Shape, Point)>) -> Seq<(int, ShapeView, (int, int))> {
    Seq::new(keys.len(), |i: int| (keys[i] as int, ps[i].0@, (ps[i].1.x as int, ps[i].1.y as int)))
}

/// Where an entry with key `key` goes into `s`: after the leading entries
/// whose key is not larger.
pub open spec fn insert_at(s: Seq<(int, ShapeView, (int, int))>, key: int) -> int
    decreases s.len(),
{
    if s.len() == 0 {
        0
    } else if s[0].0 > key {
        0
    } else {
        1 + insert_at(s.drop_first(), key)
    }
}

/// The entries ordered by key, entries with equal keys in their given order.
pub open spec fn sorted_by_index(ps: Seq<(int, ShapeView, (int, int))>) -> Seq<(int, ShapeView, (int, int))>
    decreases ps.len(),
{
    if ps.len() == 0 {
        Seq::empty()
    } else {
        let s = sorted_by_index(ps.drop_last());
        s.insert(insert_at(s, ps.last().0), ps.last())
    }
}

proof fn lemma_insert_at(s: Seq<(int, ShapeView, (int, int))>, key: int)
    requires
        forall|i: int, j: int| 0 <= i < j < s.len() ==> s[i].0 <= s[j].0,
    ensures
        0 <= insert_at(s, key) <= s.len(),
        forall|i: int| 0 <= i < insert_at(s, key) ==> s[i].0 <= key,
        forall|i: int| insert_at(s, key) <= i < s.len() ==> s[i].0 > key,
    decreases s.len(),
{
    if s.len() > 0 && s[0].0 <= key {
        let t = s.drop_first();
        lemma_insert_at(t, key);
        assert forall|i: int| 0 <= i < insert_at(s, key) implies s[i].0 <= key by {
            if i > 0 {
                assert(s[i] == t[i - 1]);
            }
        }
        assert forall|i: int| insert_at(s, key) <= i < s.len() implies s[i].0 > key by {
            assert(s[i] == t[i - 1]);
        }
    } else if s.len() > 0 {
        assert forall|i: int| 0 <= i < s.len() implies s[i].0 > key by {
            assert(s[0].0 <= s[i].0 || i == 0);
        }
    }
}

/// Sorting keeps the entries, and with distinct keys the keys come out
/// strictly increasing.
proof fn lemma_sorted_by_index(ps: Seq<(int, ShapeView, (int, int))>)
    ensures
        sorted_by_index(ps).len() == ps.len(),
        forall|i: int, j: int|
            0 <= i < j < sorted_by_index(ps).len() ==> sorted_by_index(ps)[i].0 <= sorted_by_index(ps)[j].0,
        forall|x: (int, ShapeView, (int, int))| sorted_by_index(ps).contains(x) <==> ps.contains(x),
        (forall|a: int, b: int| 0 <= a < b < ps.len() ==> ps[a].0 != ps[b].0) ==> forall|i: int, j: int|
            0 <= i < j < sorted_by_index(ps).len() ==> sorted_by_index(ps)[i].0 < sorted_by_index(ps)[j].0,
    decreases ps.len(),
{
    if ps.len() > 0 {
        let rest = ps.drop_last();
        let x = ps.last();
        lemma_sorted_by_index(rest);
        let s = sorted_by_index(rest);
        lemma_insert_at(s, x.0);
        let pos = insert_at(s, x.0);
        let q = sorted_by_index(ps);
        assert(q == s.insert(pos, x));
        assert forall|i: int| 0 <= i < q.len() implies #[trigger] q[i] == (if i < pos {
            s[i]
        } else if i == pos {
            x
        } else {
            s[i - 1]
        }) by {
            s.insert_ensures(pos, x);
        }
        assert forall|y: (int, ShapeView, (int, int))| q.contains(y) <==> ps.contains(y) by {
            if q.contains(y) {
                let i = choose|i: int| 0 <= i < q.len() && q[i] == y;
                if i == pos {
                    assert(ps[ps.len() - 1] == y);
                } else {
                    let k = if i < pos { i } else { i - 1 };
                    assert(q[i] == s[k]);
                    assert(s.contains(y));
                    assert(rest.contains(y));
                    let r = choose|r: int| 0 <= r < rest.len() && rest[r] == y;
                    assert(ps[r] == y);
                }
            }
            if ps.contains(y) {
                let r = choose|r: int| 0 <= r < ps.len() && ps[r] == y;
                if r == ps.len() - 1 {
                    assert(q[pos] == y);
                } else {
                    assert(rest[r] == y);
                    assert(rest.contains(y));
                    let k = choose|k: int| 0 <= k < s.len() && s[k] == y;
                    if k < pos {
                        assert(q[k] == y);
                    } else {
                        assert(q[k + 1] == y);
                    }
                }
            }
        }
        assert forall|i: int, j: int| 0 <= i < j < q.len() implies q[i].0 <= q[j].0 by {
            assert(q[i] == (if i < pos { s[i] } else if i == pos { x } else { s[i - 1] }));
            assert(q[j] == (if j < pos { s[j] } else if j == pos { x } else { s[j - 1] }));
        }
        if forall|a: int, b: int| 0 <= a < b < ps.len() ==> ps[a].0 != ps[b].0 {
            assert forall|a: int, b: int| 0 <= a < b < rest.len() implies rest[a].0 != rest[b].0 by {
                assert(rest[a] == ps[a]);
                assert(rest[b] == ps[b]);
            }
            assert forall|k: int| 0 <= k < s.len() implies s[k].0 != x.0 by {
                assert(s.contains(s[k]));
                assert(rest.contains(s[k]));
                let r = choose|r: int| 0 <= r < rest.len() && rest[r] == s[k];
                assert(ps[r] == rest[r]);
                assert(ps[r].0 != ps[ps.len() - 1].0);
            }
            assert forall|i: int, j: int| 0 <= i < j < q.len() implies q[i].0 < q[j].0 by {
                assert(q[i] == (if i < pos { s[i] } else if i == pos { x } else { s[i - 1] }));
                assert(q[j] == (if j < pos { s[j] } else if j == pos { x } else { s[j - 1] }));
            }
        }
    }
}

proof fn lemma_strict_keys_are_positions(q: Seq<(int, ShapeView, (int, int))>, i: int)
    requires
        forall|a: int, b: int| 0 <= a < b < q.len() ==> q[a].0 < q[b].0,
        forall|a: int| 0 <= a < q.len() ==> 0 <= #[trigger] q[a].0 < q.len(),
        0 <= i < q.len(),
    ensures
        q[i].0 == i,
{
    lemma_key_at_least(q, i);
    lemma_key_at_most(q, i);
}

proof fn lemma_key_at_least(q: Seq<(int, ShapeView, (int, int))>, i: int)
    requires
        forall|a: int, b: int| 0 <= a < b < q.len() ==> q[a].0 < q[b].0,
        forall|a: int| 0 <= a < q.len() ==> 0 <= #[trigger] q[a].0 < q.len(),
        0 <= i < q.len(),
    ensures
        q[i].0 >= i,
    decreases i,
{
    if i > 0 {
        lemma_key_at_least(q, i - 1);
    }
}

proof fn lemma_key_at_most(q: Seq<(int, ShapeView, (int, int))>, i: int)
    requires
        forall|a: int, b: int| 0 <= a < b < q.len() ==> q[a].0 < q[b].0,
        forall|a: int| 0 <= a < q.len() ==> 0 <= #[trigger] q[a].0 < q.len(),
        0 <= i < q.len(),
    ensures
        q[i].0 <= i,
    decreases q.len() - i,
{
    if i < q.len() - 1 {
        lemma_key_at_most(q, i + 1);
    }
}

/// When the keys are exactly `0` to `n - 1`, each once, sorting puts the
/// entry with key `k` at position `k`.
pub proof fn lemma_sorted_places_by_index(ps: Seq<(int, ShapeView, (int, int))>, n: nat)
    requires
        places_each_unplaced(Seq::new(n, |i: int| false), ps),
        ps.len() == n,
    ensures
        sorted_by_index(ps).len() == n,
        forall|j: int| 0 <= j < n ==> sorted_by_index(ps)[#[trigger] ps[j].0] == ps[j],
{
    let used = Seq::new(n, |i: int| false);
    lemma_sorted_by_index(ps);
    let q = sorted_by_index(ps);
    assert forall|a: int, b: int| 0 <= a < b < ps.len() implies ps[a].0 != ps[b].0 by {
    }
    assert forall|a: int| 0 <= a < q.len() implies 0 <= #[trigger] q[a].0 < q.len() by {
        assert(q.contains(q[a]));
        assert(ps.contains(q[a]));
        let r = choose|r: int| 0 <= r < ps.len() && ps[r] == q[a];
        assert(0 <= ps[r].0 < used.len());
    }
    assert forall|j: int| 0 <= j < n implies q[#[trigger] ps[j].0] == ps[j] by {
        let k = ps[j].0;
        assert(0 <= k < used.len());
        lemma_strict_keys_are_positions(q, k);
        assert(q.contains(q[k]));
        assert(ps.contains(q[k]));
        let r = choose|r: int| 0 <= r < ps.len() && ps[r] == q[k];
        if r != j {
            if r < j {
                assert(ps[r].0 != ps[j].0);
            } else {
                assert(ps[j].0 != ps[r].0);
            }
        }
    }
}

impl Solution {
    /// The text of the solution on a grid of the given size: the number of
    /// attempts, then each shape of the pool drawn where it was placed.
    pub fn render(&self, width: i32, height: i32) -> (r: String)
        requires
            width > 0,
            height > 0,
            height <= crate::board::MAX_LABELLED_ROWS,
            width * height <= usize::MAX,
        ensures
            r@ == solution_text(*self, width as nat, height as nat),
    {
        let ghost views = positioned_views(self.positioned_shapes@);
        let mut out: Vec<char> = Vec::new();
        push_str(&mut out, "Found solution after ");
        let count = with_spaces(self.iterations);
        push_str(&mut out, count.as_str());
        push_str(&mut out, " iterations.\n\n");
        let ghost head = out@;
        assert(head =~= "Found solution after "@ + grouped(decimal(self.iterations as nat))
            + " iterations.\n\n"@);
        let n = self.positioned_shapes.len();
        let mut k: usize = 0;
        while k < n
            invariant
                0 <= k <= n,
                n == self.positioned_shapes@.len(),
                views == positioned_views(self.positioned_shapes@),
                width > 0,
                height > 0,
                height <= crate::board::MAX_LABELLED_ROWS,
                width * height <= usize::MAX,
                out@ == head + boards_text(views, width as nat, height as nat, k as nat),
            decreases n - k,
        {
            let ghost before = out@;
            if k != 0 {
                out.push('\n');
            }
            let entry = &self.positioned_shapes[k];
            let board = placed_board(&entry.0, entry.1, width, height);
            let text = board.to_string();
            proof {
                assert(views[k as int] == (entry.0@, (entry.1.x as int, entry.1.y as int)));
                lemma_grid_text_agree(
                    width as nat,
                    height as nat,
                    board.chars(),
                    |x: int, y: int| placed_char(views[k as int].0, views[k as int].1, x, y),
                );
            }
            push_str(&mut out, text.as_str());
            k = k + 1;
            assert(out@ =~= head + boards_text(views, width as nat, height as nat, k as nat));
        }
        string_of(&out)
    }


    /// The solution with the placements `(shape index, variant, offset)`
    /// ordered by shape index, placements of equal index in their given
    /// order, and the number of attempts made.
    pub fn of(positioned_shapes: Vec<(usize, Shape, Point)>, iterations: u64) -> (r: Solution)
        ensures
            r.iterations == iterations,
            positioned_views(r.positioned_shapes@) == strip_index(
                sorted_by_index(placement_views(positioned_shapes@)),
            ),
    {
        let ghost pv = placement_views(positioned_shapes@);
        let n = positioned_shapes.len();
        let mut keys: Vec<usize> = Vec::new();
        let mut out: Vec<(Shape, Point)> = Vec::new();
        let mut t: usize = 0;
        assert(pv.take(0) =~= Seq::<(int, ShapeView, (int, int))>::empty());
        assert(keyed_views(keys@, out@) =~= Seq::<(int, ShapeView, (int, int))>::empty());
        while t < n
            invariant
                0 <= t <= n,
                n == positioned_shapes@.len(),
                pv == placement_views(positioned_shapes@),
                keys@.len() == out@.len(),
                keyed_views(keys@, out@) == sorted_by_index(pv.take(t as int)),
            decreases n - t,
        {
            let ghost sorted = keyed_views(keys@, out@);
            let key = positioned_shapes[t].0;
            let mut pos: usize = 0;
            assert(sorted.skip(0) =~= sorted);
            while pos < keys.len() && keys[pos] <= key
                invariant
                    0 <= pos <= keys@.len(),
                    keys@.len() == out@.len(),
                    sorted == keyed_views(keys@, out@),
                    insert_at(sorted, key as int) == pos + insert_at(sorted.skip(pos as int), key as int),
                decreases keys@.len() - pos,
            {
                assert(sorted.skip(pos as int).drop_first() =~= sorted.skip(pos + 1));
                assert(sorted.skip(pos as int)[0].0 == keys@[pos as int]);
                pos = pos + 1;
            }
            proof {
                if pos < keys@.len() {
                    assert(sorted.skip(pos as int)[0].0 == keys@[pos as int]);
                }
            }
            let entry = &positioned_shapes[t];
            let copy = entry.1.duplicate();
            keys.insert(pos, key);
            out.insert(pos, (copy, entry.2));
            proof {
                assert(pv[t as int] == (key as int, copy@, (entry.2.x as int, entry.2.y as int)));
                assert(keyed_views(keys@, out@) =~= sorted.insert(pos as int, pv[t as int]));
                assert(pv.take(t + 1).drop_last() =~= pv.take(t as int));
                assert(pv.take(t + 1).last() == pv[t as int]);
            }
            t = t + 1;
        }
        assert(pv.take(n as int) =~= pv);
        assert(positioned_views(out@) =~= strip_index(keyed_views(keys@, out@)));
        Solution { positioned_shapes: out, iterations }
    }
}

} // verus!
