use vstd::prelude::*;

use crate::puzzle_piece::ShapeIdx;

verus! {

/// How many entries of `used` are false.
pub open spec fn count_unused(used: Seq<bool>) -> nat
    decreases used.len(),
{
    if used.len() == 0 {
        0
    } else {
        count_unused(used.drop_last()) + if used.last() {
            0nat
        } else {
            1nat
        }
    }
}

pub proof fn lemma_count_unused_bounds(used: Seq<bool>)
    ensures
        count_unused(used) <= used.len(),
        count_unused(used) == 0 ==> forall|k: int| 0 <= k < used.len() ==> #[trigger] used[k],
    decreases used.len(),
{
    if used.len() > 0 {
        lemma_count_unused_bounds(used.drop_last());
        if count_unused(used) == 0 {
            assert forall|k: int| 0 <= k < used.len() implies #[trigger] used[k] by {
                if k < used.len() - 1 {
                    assert(used.drop_last()[k] == used[k]);
                }
            }
        }
    }
}

pub proof fn lemma_count_unused_all(used: Seq<bool>)
    requires
        forall|k: int| 0 <= k < used.len() ==> !#[trigger] used[k],
    ensures
        count_unused(used) == used.len(),
    decreases used.len(),
{
    if used.len() > 0 {
        lemma_count_unused_all(used.drop_last());
    }
}

pub proof fn lemma_count_unused_none(used: Seq<bool>)
    requires
        forall|k: int| 0 <= k < used.len() ==> #[trigger] used[k],
    ensures
        count_unused(used) == 0,
    decreases used.len(),
{
    if used.len() > 0 {
        lemma_count_unused_none(used.drop_last());
    }
}

pub proof fn lemma_count_unused_update(used: Seq<bool>, k: int, b: bool)
    requires
        0 <= k < used.len(),
    ensures
        count_unused(used.update(k, b)) + (if used[k] {
            0int
        } else {
            1int
        }) == count_unused(used) + (if b {
            0int
        } else {
            1int
        }),
    decreases used.len(),
{
    let u = used.update(k, b);
    if k == used.len() - 1 {
        assert(u.drop_last() =~= used.drop_last());
    } else {
        lemma_count_unused_update(used.drop_last(), k, b);
        assert(u.drop_last() =~= used.drop_last().update(k, b));
    }
}

/// Which shapes of the pool are placed, and how many are not.
pub struct ShapesStatus {
    pub used: Vec<bool>,
    pub remaining: usize,
}

impl ShapesStatus {
    /// Every shape of the pool unplaced.
    pub fn of<T>(shapes: &Vec<T>) -> (r: ShapesStatus)
        ensures
            r.used@ == Seq::new(shapes@.len(), |i: int| false),
            r.remaining == shapes@.len(),
    {
        let n = shapes.len();
        let mut used: Vec<bool> = Vec::new();
        let mut k: usize = 0;
        while k < n
            invariant
                0 <= k <= n,
                used@ == Seq::new(k as nat, |i: int| false),
            decreases n - k,
        {
            used.push(false);
            k = k + 1;
            assert(used@ =~= Seq::new(k as nat, |i: int| false));
        }
        ShapesStatus { used, remaining: n }
    }
}

/// The counters of a search and the status of its shapes.
pub struct SolverProgressState {
    pub iterations: u64,
    pub pruned: u64,
    pub shapes_status: ShapesStatus,
}

impl SolverProgressState {
    pub fn new(shapes_status: ShapesStatus) -> (r: SolverProgressState)
        ensures
            r.iterations == 0,
            r.pruned == 0,
            r.shapes_status == shapes_status,
    {
        SolverProgressState { iterations: 0, pruned: 0, shapes_status }
    }
}

/// What a search has done so far: placement attempts, attempts pruned, which
/// shapes are placed and how many remain, the stack of shapes entered and one
/// attempt counter for each level of that stack.
pub struct ProgressView {
    pub iterations: u64,
    pub pruned: u64,
    pub used: Seq<bool>,
    pub remaining: int,
    pub entered: Seq<int>,
    pub depth_counts: Seq<u64>,
}

impl ProgressView {
    /// `remaining` counts the unplaced shapes, and every entered shape is
    /// placed and entered once.
    pub open spec fn wf(self) -> bool {
        &&& self.remaining == count_unused(self.used)
        &&& self.entered.len() == self.depth_counts.len()
        &&& forall|i: int|
            0 <= i < self.entered.len() ==> 0 <= #[trigger] self.entered[i] < self.used.len()
                && self.used[self.entered[i]]
        &&& forall|i: int, j: int|
            0 <= i < j < self.entered.len() ==> #[trigger] self.entered[i] != #[trigger] self.entered[j]
    }

    /// The state after placing shape `idx`.
    pub open spec fn after_enter(self, idx: int) -> ProgressView {
        ProgressView {
            used: self.used.update(idx, true),
            remaining: self.remaining - 1,
            entered: self.entered.push(idx),
            depth_counts: self.depth_counts.push(0),
            ..self
        }
    }

    /// The state after taking back the shape placed last.
    pub open spec fn after_leave(self) -> ProgressView {
        ProgressView {
            used: self.used.update(self.entered.last(), false),
            remaining: self.remaining + 1,
            entered: self.entered.drop_last(),
            depth_counts: self.depth_counts.drop_last(),
            ..self
        }
    }

    /// The same shapes placed, in the same stack; only counters differ.
    pub open spec fn same_placements(self, other: ProgressView) -> bool {
        &&& self.used == other.used
        &&& self.remaining == other.remaining
        &&& self.entered == other.entered
        &&& self.depth_counts.len() == other.depth_counts.len()
    }
}

/// Entering a shape and then leaving gives back the state as it was, but for
/// the counters of attempts.
pub proof fn lemma_enter_leave_restores(v: ProgressView, idx: int)
    requires
        v.wf(),
        0 <= idx < v.used.len(),
        !v.used[idx],
    ensures
        v.after_enter(idx).wf(),
        v.after_enter(idx).after_leave() == v,
{
    let e = v.after_enter(idx);
    lemma_count_unused_update(v.used, idx, true);
    assert(e.used.update(idx, false) =~= v.used);
    assert(e.entered.drop_last() =~= v.entered);
    assert(e.depth_counts.drop_last() =~= v.depth_counts);
    assert forall|i: int, j: int| 0 <= i < j < e.entered.len() implies #[trigger] e.entered[i]
        != #[trigger] e.entered[j] by {
        if j == e.entered.len() - 1 {
            assert(v.used[e.entered[i]]);
        }
    }
}

/// The bookkeeping of one search: the counters and the status of the shapes,
/// with the stack of shapes entered.
pub struct SolverProgress {
    state: SolverProgressState,
    entered: Vec<ShapeIdx>,
    depth_counts: Vec<u64>,
}

impl View for SolverProgress {
    type V = ProgressView;

    closed spec fn view(&self) -> ProgressView {
        ProgressView {
            iterations: self.state.iterations,
            pruned: self.state.pruned,
            used: self.state.shapes_status.used@,
            remaining: self.state.shapes_status.remaining as int,
            entered: self.entered@.map_values(|i: ShapeIdx| i as int),
            depth_counts: self.depth_counts@,
        }
    }
}

impl SolverProgress {
    /// A search with the given counters and shapes, and nothing entered.
    pub fn new(state: SolverProgressState) -> (r: SolverProgress)
        ensures
            r@.iterations == state.iterations,
            r@.pruned == state.pruned,
            r@.used == state.shapes_status.used@,
            r@.remaining == state.shapes_status.remaining,
            r@.entered.len() == 0,
            r@.depth_counts.len() == 0,
    {
        let r = SolverProgress { state, entered: Vec::new(), depth_counts: Vec::new() };
        assert(r@.entered =~= Seq::<int>::empty());
        r
    }

    /// The number of placement attempts so far.
    pub fn count(&self) -> (r: u64)
        ensures
            r == self@.iterations,
    {
        self.state.iterations
    }

    /// The number of attempts pruned so far.
    pub fn pruned(&self) -> (r: u64)
        ensures
            r == self@.pruned,
    {
        self.state.pruned
    }

    /// Counts one placement attempt, in total and at the current depth; the
    /// counters stop at `u64::MAX`.
    pub fn incr(&mut self)
        ensures
            final(self)@ == (ProgressView {
                iterations: if old(self)@.iterations < u64::MAX {
                    (old(self)@.iterations + 1) as u64
                } else {
                    u64::MAX
                },
                depth_counts: if old(self)@.depth_counts.len() == 0 {
                    old(self)@.depth_counts
                } else {
                    let last = old(self)@.depth_counts.len() - 1;
                    old(self)@.depth_counts.update(
                        last,
                        if old(self)@.depth_counts[last] < u64::MAX {
                            (old(self)@.depth_counts[last] + 1) as u64
                        } else {
                            u64::MAX
                        },
                    )
                },
                ..old(self)@
            }),
    {
        self.state.iterations = self.state.iterations.saturating_add(1);
        let n = self.depth_counts.len();
        if n > 0 {
            let c = self.depth_counts[n - 1];
            self.depth_counts.set(n - 1, c.saturating_add(1));
        }
    }

    /// Counts one attempt rejected because it does not cover the cell to
    /// fill; the counter stops at `u64::MAX`.
    pub fn incr_pruned(&mut self)
        ensures
            final(self)@ == (ProgressView {
                pruned: if old(self)@.pruned < u64::MAX {
                    (old(self)@.pruned + 1) as u64
                } else {
                    u64::MAX
                },
                ..old(self)@
            }),
    {
        self.state.pruned = self.state.pruned.saturating_add(1);
    }

    /// Marks shape `shape_idx` placed and opens a new depth level for it.
    pub fn enter(&mut self, shape_idx: ShapeIdx)
        requires
            old(self)@.wf(),
            shape_idx < old(self)@.used.len(),
            !old(self)@.used[shape_idx as int],
            old(self)@.entered.len() < usize::MAX,
        ensures
            final(self)@ == old(self)@.after_enter(shape_idx as int),
            final(self)@.wf(),
    {
        proof {
            lemma_enter_leave_restores(self@, shape_idx as int);
            lemma_count_unused_update(self@.used, shape_idx as int, true);
        }
        let ghost before = self@;
        self.state.shapes_status.remaining = self.state.shapes_status.remaining - 1;
        self.state.shapes_status.used.set(shape_idx as usize, true);
        self.entered.push(shape_idx);
        self.depth_counts.push(0);
        assert(self@.entered =~= before.entered.push(shape_idx as int));
        assert(self@ =~= before.after_enter(shape_idx as int));
    }

    /// Takes back the shape entered last: it is unplaced again and its depth
    /// level closes.
    pub fn leave(&mut self)
        requires
            old(self)@.wf(),
            old(self)@.entered.len() > 0,
        ensures
            final(self)@ == old(self)@.after_leave(),
            final(self)@.wf(),
    {
        let ghost before = self@;
        let idx = self.entered.pop().unwrap();
        self.depth_counts.pop();
        proof {
            assert(before.entered.last() == idx as int);
            lemma_count_unused_update(before.used, idx as int, false);
            lemma_count_unused_bounds(before.used.update(idx as int, false));
        }
        let n = self.state.shapes_status.used.len();
        assert(self.state.shapes_status.remaining + 1 <= n);
        self.state.shapes_status.remaining = self.state.shapes_status.remaining + 1;
        self.state.shapes_status.used.set(idx as usize, false);
        assert(self@.entered =~= before.entered.drop_last());
        assert(self@ =~= before.after_leave());
        proof {
            let a = self@;
            assert forall|i: int| 0 <= i < a.entered.len() implies 0 <= #[trigger] a.entered[i]
                < a.used.len() && a.used[a.entered[i]] by {
                assert(a.entered[i] == before.entered[i]);
                assert(before.entered[i] != before.entered[before.entered.len() - 1]);
            }
        }
    }

    /// For each shape of the pool, whether it is placed.
    pub fn shapes_used(&self) -> (r: &Vec<bool>)
        ensures
            r@ == self@.used,
    {
        &self.state.shapes_status.used
    }

    /// Write access to whether each shape is placed; the rest stays.
    pub fn shapes_used_mut(&mut self) -> (r: &mut Vec<bool>)
        ensures
            r@ == old(self)@.used,
            final(self)@ == (ProgressView { used: final(r)@, ..old(self)@ }),
    {
        &mut self.state.shapes_status.used
    }

    /// Whether every shape of the pool is placed.
    pub fn finish(&self) -> (r: bool)
        ensures
            r == (self@.remaining == 0),
    {
        self.state.shapes_status.remaining == 0
    }
}

} // verus!
