//! The mathematical model of one simulation run: a step-by-step
//! interpreter, written entirely in specification code, that the
//! executable engine is proved to follow exactly.
//!
//! The model keeps the grid as a flat sequence of cell states, the
//! visited marker as a set of flat indices, the pending queue as the
//! sequence of entries in pop order, and — instead of the engine's
//! snapshot counters — the full *fill sequence*: the cells in the order
//! they were filled, each together with the state of the cell directly
//! above it at the moment of the fill.  The snapshot grid is a pure
//! function of that sequence, which is what makes the fill outcome
//! independent of the requested snapshot resolution.

use vstd::prelude::*;

use crate::depth_queue::{spec_push, QueueEntry};
use crate::grid::spec_flat_idx;
use crate::state::CellState;
use vstd::set_lib::{lemma_int_range, lemma_len_subset, set_int_range};
use crate::utils::{spec_closest_caprock, spec_in_bounds};

verus! {

/// The fixed shape of one run: the grid dimensions and the ordering key
/// of each layer.
pub struct SimConfig {
    pub nx: int,
    pub ny: int,
    pub nz: int,
    pub depths: Seq<u64>,
}

/// One recorded fill: the cell that turned `Reservoir -> Injected`, and
/// the state of the cell directly above it at that moment (`None` exactly
/// when the cell sits at the shallowest layer).
pub struct FillEvent {
    pub x: int,
    pub y: int,
    pub z: int,
    pub above: Option<CellState>,
}

/// The evolving state of one run.
#[verifier::ext_equal]
pub struct SimState {
    pub grid: Seq<CellState>,
    pub visited: Set<int>,
    pub queue: Seq<QueueEntry>,
    pub fills: Seq<FillEvent>,
}

impl SimConfig {
    pub open spec fn wf(self) -> bool {
        &&& 0 <= self.nx <= usize::MAX
        &&& 0 <= self.ny <= usize::MAX
        &&& 0 <= self.nz <= usize::MAX
        &&& self.nx * self.ny * self.nz <= usize::MAX
        &&& self.depths.len() == self.nz
    }

    /// The number of cells in the grid.
    pub open spec fn cell_count(self) -> int {
        self.nx * self.ny * self.nz
    }

    pub open spec fn in_bounds(self, x: int, y: int, z: int) -> bool {
        spec_in_bounds(x, y, z, self.nx, self.ny, self.nz)
    }

    /// The flat index of cell (x, y, z).
    pub open spec fn idx(self, x: int, y: int, z: int) -> int {
        spec_flat_idx(self.ny, self.nz, x, y, z)
    }

    /// The queue entry seeding or re-enqueuing cell (x, y, z) at the
    /// ordering key of its layer.
    pub open spec fn entry_of(self, x: int, y: int, z: int) -> QueueEntry {
        QueueEntry { depth: self.depths[z], x: x as usize, y: y as usize, z: z as usize }
    }

    pub open spec fn entry_in_bounds(self, e: QueueEntry) -> bool {
        self.in_bounds(e.x as int, e.y as int, e.z as int)
    }
}

/// Every pending entry names a cell of the grid.
pub open spec fn queue_in_bounds(cfg: SimConfig, q: Seq<QueueEntry>) -> bool {
    forall|i: int| 0 <= i < q.len() ==> cfg.entry_in_bounds(#[trigger] q[i])
}

/// The state invariant the interpreter maintains.
pub open spec fn state_wf(cfg: SimConfig, s: SimState) -> bool {
    &&& s.grid.len() == cfg.cell_count()
    &&& queue_in_bounds(cfg, s.queue)
    &&& s.visited.finite()
    &&& (forall|i: int| s.visited.contains(i) ==> 0 <= i < cfg.cell_count())
}

/// The in-bounds flat indices not yet visited; its size bounds the work
/// that remains.
pub open spec fn unvisited(cfg: SimConfig, s: SimState) -> Set<int> {
    Set::new(|i: int| 0 <= i < cfg.cell_count() && !s.visited.contains(i))
}

/// The 8 horizontal neighbor offsets, in the order the engine tries them.
pub open spec fn spread_directions() -> Seq<(int, int)> {
    seq![(-1, 0), (1, 0), (0, -1), (0, 1), (-1, -1), (-1, 1), (1, -1), (1, 1)]
}

/// The fill rule: the cell is empty pore space, and either it sits at the
/// shallowest layer or nothing directly above it is still empty.
pub open spec fn can_fill(cfg: SimConfig, grid: Seq<CellState>, x: int, y: int, z: int) -> bool {
    &&& grid[cfg.idx(x, y, z)] == CellState::Reservoir
    &&& (z == 0 || grid[cfg.idx(x, y, z - 1)] != CellState::Reservoir)
}

/// The record of a fill at (x, y, z) performed on `grid`.
pub open spec fn fill_event(cfg: SimConfig, grid: Seq<CellState>, x: int, y: int, z: int) -> FillEvent {
    FillEvent {
        x,
        y,
        z,
        above: if z > 0 {
            Some(grid[cfg.idx(x, y, z - 1)])
        } else {
            None
        },
    }
}

/// Fills cell (x, y, z) when the fill rule allows it, recording the fill;
/// otherwise leaves the state unchanged.
pub open spec fn apply_fill(cfg: SimConfig, s: SimState, x: int, y: int, z: int) -> SimState {
    if can_fill(cfg, s.grid, x, y, z) {
        SimState {
            grid: s.grid.update(cfg.idx(x, y, z), CellState::Injected),
            fills: s.fills.push(fill_event(cfg, s.grid, x, y, z)),
            ..s
        }
    } else {
        s
    }
}

/// Enqueues, among the first `k` of the 8 neighbor offsets applied to
/// (x, y) at layer `zt`, the in-bounds neighbors still in `Reservoir`
/// state; also reports whether any entry was enqueued.
pub open spec fn push_reservoir_neighbors(
    cfg: SimConfig,
    grid: Seq<CellState>,
    q: Seq<QueueEntry>,
    x: int,
    y: int,
    zt: int,
    k: int,
) -> (Seq<QueueEntry>, bool)
    decreases k,
{
    if k <= 0 {
        (q, false)
    } else {
        let r = push_reservoir_neighbors(cfg, grid, q, x, y, zt, k - 1);
        let d = spread_directions()[k - 1];
        let ax = x + d.0;
        let ay = y + d.1;
        if cfg.in_bounds(ax, ay, zt) && grid[cfg.idx(ax, ay, zt)] == CellState::Reservoir {
            (spec_push(r.0, cfg.entry_of(ax, ay, zt)), true)
        } else {
            r
        }
    }
}

/// Enqueues, among the first `k` of the 8 neighbor offsets applied to
/// (x, y) at layer `z`, the in-bounds neighbors that are not `Caprock`.
pub open spec fn push_non_caprock_neighbors(
    cfg: SimConfig,
    grid: Seq<CellState>,
    q: Seq<QueueEntry>,
    x: int,
    y: int,
    z: int,
    k: int,
) -> Seq<QueueEntry>
    decreases k,
{
    if k <= 0 {
        q
    } else {
        let r = push_non_caprock_neighbors(cfg, grid, q, x, y, z, k - 1);
        let d = spread_directions()[k - 1];
        let ax = x + d.0;
        let ay = y + d.1;
        if cfg.in_bounds(ax, ay, z) && grid[cfg.idx(ax, ay, z)] != CellState::Caprock {
            spec_push(r, cfg.entry_of(ax, ay, z))
        } else {
            r
        }
    }
}

/// Upward expansion from (x, y, z): the cell directly above, then the 8
/// neighbors at the layer above, each enqueued when in bounds and still
/// `Reservoir`; reports whether anything was enqueued.
pub open spec fn expand_above(
    cfg: SimConfig,
    grid: Seq<CellState>,
    q: Seq<QueueEntry>,
    x: int,
    y: int,
    z: int,
) -> (Seq<QueueEntry>, bool) {
    if z == 0 {
        (q, false)
    } else {
        let za = z - 1;
        let up = if grid[cfg.idx(x, y, za)] == CellState::Reservoir {
            (spec_push(q, cfg.entry_of(x, y, za)), true)
        } else {
            (q, false)
        };
        let r = push_reservoir_neighbors(cfg, grid, up.0, x, y, za, 8);
        (r.0, up.1 || r.1)
    }
}

/// The column of cell states at fixed (x, y), shallowest layer first.
pub open spec fn column_of(cfg: SimConfig, grid: Seq<CellState>, x: int, y: int) -> Seq<CellState> {
    Seq::new(cfg.nz as nat, |k: int| grid[cfg.idx(x, y, k)])
}

/// The caprock-breach check at (x, y, z): when the column of fluid below
/// the nearest sealing layer at or above z has reached the breach
/// threshold, that layer's cell in this column turns back to `Reservoir`
/// and is enqueued at its own depth.
pub open spec fn apply_breach(
    cfg: SimConfig,
    threshold: int,
    s: SimState,
    x: int,
    y: int,
    z: int,
) -> SimState {
    let ci = spec_closest_caprock(column_of(cfg, s.grid, x, y), z);
    if z - ci >= threshold {
        SimState {
            grid: s.grid.update(cfg.idx(x, y, ci), CellState::Reservoir),
            queue: spec_push(s.queue, cfg.entry_of(x, y, ci)),
            ..s
        }
    } else {
        s
    }
}

/// One visit of a freshly dequeued, not yet visited cell: mark it
/// visited, apply the fill rule, expand upward (falling back to lateral
/// spread when nothing above was enqueued), then check for a breach.
/// `s.queue` already excludes the dequeued entry.
pub open spec fn visit_cell(
    cfg: SimConfig,
    threshold: int,
    s: SimState,
    x: int,
    y: int,
    z: int,
) -> SimState {
    let s1 = SimState { visited: s.visited.insert(cfg.idx(x, y, z)), ..s };
    let s2 = apply_fill(cfg, s1, x, y, z);
    let up = expand_above(cfg, s2.grid, s2.queue, x, y, z);
    let s3 = SimState { queue: up.0, ..s2 };
    let s4 = if !up.1 {
        SimState { queue: push_non_caprock_neighbors(cfg, s3.grid, s3.queue, x, y, z, 8), ..s3 }
    } else {
        s3
    };
    apply_breach(cfg, threshold, s4, x, y, z)
}

/// Runs the inner traversal to exhaustion: pop the front entry, skip it
/// if its cell was already visited, otherwise visit it.
pub open spec fn run_inner(cfg: SimConfig, threshold: int, s: SimState) -> SimState
    decreases unvisited(cfg, s).len(), s.queue.len(),
        when cfg.wf() && state_wf(cfg, s)
{
    if s.queue.len() == 0 {
        s
    } else {
        let e = s.queue[0];
        let rest = SimState { queue: s.queue.drop_first(), ..s };
        let i = cfg.idx(e.x as int, e.y as int, e.z as int);
        if s.visited.contains(i) {
            proof {
                assert(unvisited(cfg, rest) =~= unvisited(cfg, s));
            }
            run_inner(cfg, threshold, rest)
        } else {
            proof {
                lemma_visit_cell_wf(cfg, threshold, rest, e.x as int, e.y as int, e.z as int);
                lemma_unvisited_step(cfg, threshold, s, rest, e.x as int, e.y as int, e.z as int);
            }
            run_inner(cfg, threshold, visit_cell(cfg, threshold, rest, e.x as int, e.y as int, e.z as int))
        }
    }
}

/// The queue seeding one layer pass: the source column's cell at the
/// current layer, when it is in bounds.
pub open spec fn seed_queue(cfg: SimConfig, sx: int, sy: int, zi: int) -> Seq<QueueEntry> {
    if cfg.in_bounds(sx, sy, zi) {
        spec_push(Seq::empty(), cfg.entry_of(sx, sy, zi))
    } else {
        Seq::empty()
    }
}

/// The outer layer passes: from layer `zi` to the deepest layer, each
/// pass seeds a fresh queue at the source column and runs the inner
/// traversal to exhaustion.  The visited set carries over between
/// passes.
pub open spec fn run_outer(
    cfg: SimConfig,
    threshold: int,
    s: SimState,
    sx: int,
    sy: int,
    zi: int,
) -> SimState
    decreases cfg.nz - zi,
        when cfg.wf() && state_wf(cfg, s)
{
    if zi >= cfg.nz {
        s
    } else {
        let seeded = SimState { queue: seed_queue(cfg, sx, sy, zi), ..s };
        proof {
            lemma_seed_queue_wf(cfg, seeded, sx, sy, zi);
            lemma_run_inner_wf(cfg, threshold, seeded);
        }
        run_outer(cfg, threshold, run_inner(cfg, threshold, seeded), sx, sy, zi + 1)
    }
}

/// The state a run starts from: the initial grid, nothing visited,
/// nothing pending, nothing filled.
pub open spec fn init_state(grid: Seq<CellState>) -> SimState {
    SimState { grid, visited: Set::empty(), queue: Seq::empty(), fills: Seq::empty() }
}

/// The complete run from source (sx, sy, sz): layer passes from the
/// source layer to the deepest layer.
pub open spec fn spec_simulate(
    cfg: SimConfig,
    threshold: int,
    grid0: Seq<CellState>,
    sx: int,
    sy: int,
    sz: int,
) -> SimState {
    run_outer(cfg, threshold, init_state(grid0), sx, sy, sz)
}

// ---------------------------------------------------------------------
// Snapshot accounting as a pure function of the fill sequence.
// ---------------------------------------------------------------------

/// How many cells of `s` hold state `v`.
pub open spec fn count_matching(s: Seq<CellState>, v: CellState) -> int
    decreases s.len(),
{
    if s.len() == 0 {
        0
    } else {
        count_matching(s.drop_last(), v) + if s.last() == v {
            1int
        } else {
            0int
        }
    }
}

/// The number of fills after which the snapshot index advances:
/// max(1, total reservoir cells / requested snapshots).
pub open spec fn spec_snapshot_interval(grid: Seq<CellState>, total_snapshots: int) -> int {
    let per = count_matching(grid, CellState::Reservoir) / total_snapshots;
    if per < 1 {
        1
    } else {
        per
    }
}

/// The snapshot index recorded at cell (x, y, z): the k-th fill (0-based)
/// happens at snapshot index k / interval, and a never-filled cell keeps
/// the sentinel -1.
pub open spec fn spec_snapshot_of(
    fills: Seq<FillEvent>,
    interval: int,
    x: int,
    y: int,
    z: int,
) -> int
    decreases fills.len(),
{
    if fills.len() == 0 {
        -1
    } else if fills.last().x == x && fills.last().y == y && fills.last().z == z {
        (fills.len() - 1) / interval
    } else {
        spec_snapshot_of(fills.drop_last(), interval, x, y, z)
    }
}

/// Whether the fill sequence contains cell (x, y, z).
pub open spec fn fills_contain(fills: Seq<FillEvent>, x: int, y: int, z: int) -> bool {
    exists|k: int| 0 <= k < fills.len() && fills[k].x == x && fills[k].y == y && fills[k].z == z
}

// ---------------------------------------------------------------------
// Well-formedness lemmas, including those backing the interpreter's
// termination measure.
// ---------------------------------------------------------------------

/// Pushing adds exactly the new entry: every entry of the result is the
/// new one or one of the old ones.
pub proof fn lemma_spec_push_entries(q: Seq<QueueEntry>, e: QueueEntry)
    ensures
        spec_push(q, e).len() == q.len() + 1,
        forall|i: int|
            0 <= i < spec_push(q, e).len() ==> (#[trigger] spec_push(q, e)[i] == e || q.contains(
                spec_push(q, e)[i],
            )),
    decreases q.len(),
{
    if q.len() > 0 && q[0].depth <= e.depth {
        lemma_spec_push_entries(q.drop_first(), e);
        assert forall|i: int|
            0 <= i < spec_push(q, e).len() implies (#[trigger] spec_push(q, e)[i] == e
            || q.contains(spec_push(q, e)[i])) by {
            if i > 0 {
                let v = spec_push(q, e)[i];
                assert(v == spec_push(q.drop_first(), e)[i - 1]);
                if v != e {
                    let j = choose|j: int|
                        0 <= j < q.drop_first().len() && q.drop_first()[j] == v;
                    assert(q[j + 1] == v);
                }
            }
        }
    }
}

/// Pushing an in-bounds entry keeps every pending entry in bounds.
pub proof fn lemma_spec_push_in_bounds(cfg: SimConfig, q: Seq<QueueEntry>, e: QueueEntry)
    requires
        queue_in_bounds(cfg, q),
        cfg.entry_in_bounds(e),
    ensures
        queue_in_bounds(cfg, spec_push(q, e)),
{
    lemma_spec_push_entries(q, e);
    assert forall|i: int|
        0 <= i < spec_push(q, e).len() implies cfg.entry_in_bounds(#[trigger] spec_push(q, e)[i]) by {
        let v = spec_push(q, e)[i];
        if v != e {
            let j = choose|j: int| 0 <= j < q.len() && q[j] == v;
            assert(cfg.entry_in_bounds(q[j]));
        }
    }
}

/// Neighbor expansion at the layer above keeps every pending entry in
/// bounds.
pub proof fn lemma_push_reservoir_neighbors_in_bounds(
    cfg: SimConfig,
    grid: Seq<CellState>,
    q: Seq<QueueEntry>,
    x: int,
    y: int,
    zt: int,
    k: int,
)
    requires
        cfg.wf(),
        queue_in_bounds(cfg, q),
    ensures
        queue_in_bounds(cfg, push_reservoir_neighbors(cfg, grid, q, x, y, zt, k).0),
    decreases k,
{
    if k > 0 {
        lemma_push_reservoir_neighbors_in_bounds(cfg, grid, q, x, y, zt, k - 1);
        let r = push_reservoir_neighbors(cfg, grid, q, x, y, zt, k - 1);
        let d = spread_directions()[k - 1];
        let ax = x + d.0;
        let ay = y + d.1;
        if cfg.in_bounds(ax, ay, zt) && grid[cfg.idx(ax, ay, zt)] == CellState::Reservoir {
            lemma_spec_push_in_bounds(cfg, r.0, cfg.entry_of(ax, ay, zt));
        }
    }
}

/// Lateral expansion keeps every pending entry in bounds.
pub proof fn lemma_push_non_caprock_neighbors_in_bounds(
    cfg: SimConfig,
    grid: Seq<CellState>,
    q: Seq<QueueEntry>,
    x: int,
    y: int,
    z: int,
    k: int,
)
    requires
        cfg.wf(),
        queue_in_bounds(cfg, q),
    ensures
        queue_in_bounds(cfg, push_non_caprock_neighbors(cfg, grid, q, x, y, z, k)),
    decreases k,
{
    if k > 0 {
        lemma_push_non_caprock_neighbors_in_bounds(cfg, grid, q, x, y, z, k - 1);
        let r = push_non_caprock_neighbors(cfg, grid, q, x, y, z, k - 1);
        let d = spread_directions()[k - 1];
        let ax = x + d.0;
        let ay = y + d.1;
        if cfg.in_bounds(ax, ay, z) && grid[cfg.idx(ax, ay, z)] != CellState::Caprock {
            lemma_spec_push_in_bounds(cfg, r, cfg.entry_of(ax, ay, z));
        }
    }
}

/// Visiting an in-bounds cell preserves the state invariant, marks
/// exactly that cell visited, and appends at most one fill.
pub proof fn lemma_visit_cell_wf(cfg: SimConfig, threshold: int, s: SimState, x: int, y: int, z: int)
    requires
        cfg.wf(),
        state_wf(cfg, s),
        cfg.in_bounds(x, y, z),
    ensures
        state_wf(cfg, visit_cell(cfg, threshold, s, x, y, z)),
        visit_cell(cfg, threshold, s, x, y, z).visited == s.visited.insert(cfg.idx(x, y, z)),
        visit_cell(cfg, threshold, s, x, y, z).fills == if can_fill(cfg, s.grid, x, y, z) {
            s.fills.push(fill_event(cfg, s.grid, x, y, z))
        } else {
            s.fills
        },
{
    crate::grid::lemma_flat_idx_bounds(cfg.nx, cfg.ny, cfg.nz, x, y, z);
    let s1 = SimState { visited: s.visited.insert(cfg.idx(x, y, z)), ..s };
    let s2 = apply_fill(cfg, s1, x, y, z);
    assert(s2.grid.len() == cfg.cell_count());
    let up = expand_above(cfg, s2.grid, s2.queue, x, y, z);
    if z > 0 {
        if s2.grid[cfg.idx(x, y, z - 1)] == CellState::Reservoir {
            lemma_spec_push_in_bounds(cfg, s2.queue, cfg.entry_of(x, y, z - 1));
        }
        lemma_push_reservoir_neighbors_in_bounds(
            cfg,
            s2.grid,
            if s2.grid[cfg.idx(x, y, z - 1)] == CellState::Reservoir {
                spec_push(s2.queue, cfg.entry_of(x, y, z - 1))
            } else {
                s2.queue
            },
            x,
            y,
            z - 1,
            8,
        );
    }
    let s3 = SimState { queue: up.0, ..s2 };
    assert(queue_in_bounds(cfg, s3.queue));
    let s4 = if !up.1 {
        SimState { queue: push_non_caprock_neighbors(cfg, s3.grid, s3.queue, x, y, z, 8), ..s3 }
    } else {
        s3
    };
    if !up.1 {
        lemma_push_non_caprock_neighbors_in_bounds(cfg, s3.grid, s3.queue, x, y, z, 8);
    }
    assert(queue_in_bounds(cfg, s4.queue));
    let col = column_of(cfg, s4.grid, x, y);
    let ci = spec_closest_caprock(col, z);
    crate::utils::lemma_closest_caprock_range(col, z);
    if z - ci >= threshold {
        lemma_spec_push_in_bounds(cfg, s4.queue, cfg.entry_of(x, y, ci));
    }
}

/// Visiting a fresh cell removes exactly it from the unvisited set, so
/// the termination measure falls by one.
pub proof fn lemma_unvisited_step(
    cfg: SimConfig,
    threshold: int,
    s: SimState,
    rest: SimState,
    x: int,
    y: int,
    z: int,
)
    requires
        cfg.wf(),
        state_wf(cfg, s),
        rest.visited == s.visited,
        cfg.in_bounds(x, y, z),
        !s.visited.contains(cfg.idx(x, y, z)),
    ensures
        unvisited(cfg, visit_cell(cfg, threshold, rest, x, y, z)).len() < unvisited(cfg, s).len(),
{
    crate::grid::lemma_flat_idx_bounds(cfg.nx, cfg.ny, cfg.nz, x, y, z);
    let i = cfg.idx(x, y, z);
    let after = visit_cell(cfg, threshold, rest, x, y, z);
    assert(after.visited == rest.visited.insert(i)) by {
        lemma_visit_cell_wf_visited_only(cfg, threshold, rest, x, y, z);
    }
    assert(unvisited(cfg, after) =~= unvisited(cfg, s).remove(i));
    lemma_unvisited_finite(cfg, s);
    assert(unvisited(cfg, s).contains(i));
}

/// Only the visited component of `lemma_visit_cell_wf`, for use where
/// the state invariant is not needed.
pub proof fn lemma_visit_cell_wf_visited_only(
    cfg: SimConfig,
    threshold: int,
    s: SimState,
    x: int,
    y: int,
    z: int,
)
    ensures
        visit_cell(cfg, threshold, s, x, y, z).visited == s.visited.insert(cfg.idx(x, y, z)),
{
}

/// The unvisited set is finite and no larger than the grid.
pub proof fn lemma_unvisited_finite(cfg: SimConfig, s: SimState)
    requires
        cfg.wf(),
    ensures
        unvisited(cfg, s).finite(),
        unvisited(cfg, s).len() <= cfg.cell_count(),
{
    lemma_int_range(0, cfg.cell_count());
    assert(unvisited(cfg, s).subset_of(set_int_range(0, cfg.cell_count())));
    lemma_len_subset(unvisited(cfg, s), set_int_range(0, cfg.cell_count()));
}

/// A seeded pass starts well-formed.
pub proof fn lemma_seed_queue_wf(cfg: SimConfig, seeded: SimState, sx: int, sy: int, zi: int)
    requires
        cfg.wf(),
        seeded.grid.len() == cfg.cell_count(),
        seeded.visited.finite(),
        forall|i: int| seeded.visited.contains(i) ==> 0 <= i < cfg.cell_count(),
        seeded.queue == seed_queue(cfg, sx, sy, zi),
    ensures
        state_wf(cfg, seeded),
{
    if cfg.in_bounds(sx, sy, zi) {
        lemma_spec_push_in_bounds(cfg, Seq::empty(), cfg.entry_of(sx, sy, zi));
    }
}

/// A state never occurs more often than the grid has cells.
pub proof fn lemma_count_matching_le_len(s: Seq<CellState>, v: CellState)
    ensures
        0 <= count_matching(s, v) <= s.len(),
    decreases s.len(),
{
    if s.len() > 0 {
        lemma_count_matching_le_len(s.drop_last(), v);
    }
}

/// Appending a fill stamps the filled cell with index
/// `fills.len() / interval` and leaves every other cell's snapshot index
/// unchanged.
pub proof fn lemma_snapshot_of_push(fills: Seq<FillEvent>, interval: int, e: FillEvent)
    ensures
        spec_snapshot_of(fills.push(e), interval, e.x, e.y, e.z) == fills.len() as int / interval,
        forall|x: int, y: int, z: int|
            !(x == e.x && y == e.y && z == e.z) ==> spec_snapshot_of(
                fills.push(e),
                interval,
                x,
                y,
                z,
            ) == spec_snapshot_of(fills, interval, x, y, z),
{
    assert(fills.push(e).drop_last() =~= fills);
    assert(fills.push(e).last() == e);
}

/// How the snapshot counter and the fills-since-last-snapshot
/// accumulator advance when one more cell fills: the counter is the fill
/// count divided by the interval, the accumulator its remainder.
pub proof fn lemma_counter_step(n: int, interval: int)
    requires
        n >= 0,
        interval >= 1,
    ensures
        (n % interval) + 1 >= interval ==> (n + 1) / interval == n / interval + 1 && (n + 1)
            % interval == 0,
        (n % interval) + 1 < interval ==> (n + 1) / interval == n / interval && (n + 1) % interval
            == (n % interval) + 1,
{
    vstd::arithmetic::div_mod::lemma_fundamental_div_mod(n, interval);
    vstd::arithmetic::div_mod::lemma_mod_pos_bound(n, interval);
    let q = n / interval;
    let r = n % interval;
    assert(interval * q == q * interval) by (nonlinear_arith);
    assert(n == q * interval + r);
    if r + 1 >= interval {
        assert((q + 1) * interval == q * interval + interval) by (nonlinear_arith);
        assert(n + 1 == (q + 1) * interval + 0);
        vstd::arithmetic::div_mod::lemma_fundamental_div_mod_converse(n + 1, interval, q + 1, 0);
    } else {
        assert(n + 1 == q * interval + (r + 1));
        vstd::arithmetic::div_mod::lemma_fundamental_div_mod_converse(n + 1, interval, q, r + 1);
    }
}

/// The snapshot index of a cell is -1 or a valid index, and it is
/// non-negative exactly for the cells the fill sequence contains.
pub proof fn lemma_snapshot_of_bounds(fills: Seq<FillEvent>, interval: int, x: int, y: int, z: int)
    requires
        interval >= 1,
    ensures
        spec_snapshot_of(fills, interval, x, y, z) >= -1,
        spec_snapshot_of(fills, interval, x, y, z) >= 0 <==> fills_contain(fills, x, y, z),
    decreases fills.len(),
{
    if fills.len() > 0 {
        let last = fills.last();
        if last.x == x && last.y == y && last.z == z {
            vstd::arithmetic::div_mod::lemma_div_pos_is_pos(fills.len() - 1, interval);
            assert(fills[fills.len() - 1] == last);
        } else {
            lemma_snapshot_of_bounds(fills.drop_last(), interval, x, y, z);
            if fills_contain(fills, x, y, z) {
                let k = choose|k: int|
                    0 <= k < fills.len() && fills[k].x == x && fills[k].y == y && fills[k].z == z;
                assert(k < fills.len() - 1);
                assert(fills.drop_last()[k] == fills[k]);
            }
            if fills_contain(fills.drop_last(), x, y, z) {
                let k = choose|k: int|
                    0 <= k < fills.drop_last().len() && fills.drop_last()[k].x == x
                        && fills.drop_last()[k].y == y && fills.drop_last()[k].z == z;
                assert(fills[k] == fills.drop_last()[k]);
            }
        }
    }
}

/// The inner traversal preserves the state invariant.
pub proof fn lemma_run_inner_wf(cfg: SimConfig, threshold: int, s: SimState)
    requires
        cfg.wf(),
        state_wf(cfg, s),
    ensures
        state_wf(cfg, run_inner(cfg, threshold, s)),
    decreases unvisited(cfg, s).len(), s.queue.len(),
{
    if s.queue.len() == 0 {
    } else {
        let e = s.queue[0];
        let rest = SimState { queue: s.queue.drop_first(), ..s };
        let i = cfg.idx(e.x as int, e.y as int, e.z as int);
        if s.visited.contains(i) {
            assert(unvisited(cfg, rest) =~= unvisited(cfg, s));
            lemma_run_inner_wf(cfg, threshold, rest);
        } else {
            lemma_visit_cell_wf(cfg, threshold, rest, e.x as int, e.y as int, e.z as int);
            lemma_unvisited_step(cfg, threshold, s, rest, e.x as int, e.y as int, e.z as int);
            lemma_run_inner_wf(
                cfg,
                threshold,
                visit_cell(cfg, threshold, rest, e.x as int, e.y as int, e.z as int),
            );
        }
    }
}

} // verus!
