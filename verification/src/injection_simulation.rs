//! The flood-fill engine: precondition checks, the per-cell fill /
//! expansion / breach steps, and the driver that runs layer passes over
//! the whole grid.  Every function is proved to follow the interpreter
//! in [`crate::model`] exactly.

use vstd::prelude::*;

use crate::depth_queue::{spec_push, DepthOrderedQueue, QueueEntry};
use crate::grid::Grid3;
use crate::model::{
    can_fill, column_of, count_matching, expand_above, fill_event, init_state,
    push_non_caprock_neighbors, push_reservoir_neighbors, run_inner, run_outer, seed_queue,
    spec_simulate, spec_snapshot_interval, spec_snapshot_of, spread_directions, state_wf,
    queue_in_bounds, unvisited, visit_cell, FillEvent, SimConfig, SimState,
};
use crate::state::{CellState, InvalidSourceReason, SimError};
use crate::utils::{is_empty, is_inside_bounds, safe_indices, spec_closest_caprock};

verus! {

/// The shape a grid and depth table give to the model.
pub open spec fn config_of(grid: Grid3<CellState>, depths: Seq<u64>) -> SimConfig {
    SimConfig { nx: grid.nx as int, ny: grid.ny as int, nz: grid.nz as int, depths }
}

/// Whether (x, y, z) is a valid injection source for `grid`: the cell is
/// empty pore space and, unless it sits at the shallowest layer, the cell
/// directly above it is the seal.
pub open spec fn spec_source_ok(grid: Grid3<CellState>, x: int, y: int, z: int) -> bool {
    &&& grid.cell(x, y, z) == CellState::Reservoir
    &&& (z == 0 || grid.cell(x, y, z - 1) == CellState::Caprock)
}

/// Checks that the source cell is in the reservoir and directly beneath
/// caprock (unless it is at the surface layer).  Nothing has been
/// mutated when this fails.
pub fn validate_initial_position(grid: &Grid3<CellState>, source: (usize, usize, usize)) -> (r:
    Result<(), SimError>)
    requires
        grid.wf(),
        grid.in_bounds(source.0 as int, source.1 as int, source.2 as int),
    ensures
        r is Ok <==> spec_source_ok(*grid, source.0 as int, source.1 as int, source.2 as int),
        r == Err::<(), SimError>(SimError::InvalidSource(InvalidSourceReason::NotReservoir))
            <==> grid.cell(source.0 as int, source.1 as int, source.2 as int)
            != CellState::Reservoir,
        r == Err::<(), SimError>(SimError::InvalidSource(InvalidSourceReason::NotBelowCaprock))
            <==> (grid.cell(source.0 as int, source.1 as int, source.2 as int)
            == CellState::Reservoir && source.2 > 0 && grid.cell(
            source.0 as int,
            source.1 as int,
            source.2 as int - 1,
        ) != CellState::Caprock),
{
    let (xi, yi, zi) = source;
    if grid.get(xi, yi, zi) != CellState::Reservoir {
        return Err(SimError::InvalidSource(InvalidSourceReason::NotReservoir));
    }
    if zi > 0 && grid.get(xi, yi, zi - 1) != CellState::Caprock {
        return Err(SimError::InvalidSource(InvalidSourceReason::NotBelowCaprock));
    }
    Ok(())
}

/// The number of fills after which the snapshot index advances:
/// max(1, total reservoir cells / requested snapshots).  A grid smaller
/// than the requested resolution gets an interval of 1.
pub fn compute_snapshot_interval(grid: &Grid3<CellState>, total_snapshots: usize) -> (r: usize)
    requires
        grid.wf(),
        total_snapshots >= 1,
    ensures
        r == spec_snapshot_interval(grid.data@, total_snapshots as int),
        1 <= r,
        r <= grid.data@.len() + 1,
{
    let n: usize = grid.data.len();
    let mut count: usize = 0;
    let mut i: usize = 0;
    while i < n
        invariant
            i <= n,
            n == grid.data@.len(),
            count <= i,
            count == count_matching(grid.data@.take(i as int), CellState::Reservoir),
        decreases n - i,
    {
        proof {
            assert(grid.data@.take(i + 1).drop_last() =~= grid.data@.take(i as int));
            assert(grid.data@.take(i + 1).last() == grid.data@[i as int]);
        }
        if grid.data[i] == CellState::Reservoir {
            count = count + 1;
        }
        i = i + 1;
    }
    proof {
        assert(grid.data@.take(n as int) =~= grid.data@);
        crate::model::lemma_count_matching_le_len(grid.data@, CellState::Reservoir);
        vstd::arithmetic::div_mod::lemma_div_nonincreasing(count as int, total_snapshots as int);
        vstd::arithmetic::div_mod::lemma_div_pos_is_pos(count as int, total_snapshots as int);
    }
    let per: usize = count / total_snapshots;
    if per < 1 {
        1
    } else {
        per
    }
}

/// The set of flat indices the visited marker has set to true.
pub open spec fn visited_set(v: Grid3<bool>) -> Set<int> {
    Set::new(|i: int| 0 <= i < v.data@.len() && v.data@[i])
}

/// The model state the engine's concrete structures stand for.
pub open spec fn abstraction(
    work: Grid3<CellState>,
    visited: Grid3<bool>,
    queue: Seq<QueueEntry>,
    fills: Seq<FillEvent>,
) -> SimState {
    SimState { grid: work.data@, visited: visited_set(visited), queue, fills }
}

/// Every cell of the snapshot grid holds the snapshot index the fill
/// sequence assigns it (-1 where it never filled).
pub open spec fn snapshots_match(snaps: Grid3<i32>, fills: Seq<FillEvent>, interval: int) -> bool {
    forall|x: int, y: int, z: int|
        snaps.in_bounds(x, y, z) ==> #[trigger] snaps.cell(x, y, z) == spec_snapshot_of(
            fills,
            interval,
            x,
            y,
            z,
        )
}

/// In a non-degenerate grid each dimension, and each partial product, is
/// bounded by the total cell count.
proof fn lemma_dims_bounded(nx: int, ny: int, nz: int, m: int)
    by (nonlinear_arith)
    requires
        1 <= nx,
        1 <= ny,
        1 <= nz,
        nx * ny * nz <= m,
    ensures
        nx <= m,
        ny <= m,
        nz <= m,
        nx * ny <= m,
{
}

/// The k-th of the 8 horizontal neighbor offsets, in the order the
/// engine tries them.
fn spread_direction(k: usize) -> (r: (i32, i32))
    requires
        k < 8,
    ensures
        r.0 as int == spread_directions()[k as int].0,
        r.1 as int == spread_directions()[k as int].1,
        -1 <= r.0 <= 1,
        -1 <= r.1 <= 1,
{
    match k {
        0 => (-1, 0),
        1 => (1, 0),
        2 => (0, -1),
        3 => (0, 1),
        4 => (-1, -1),
        5 => (-1, 1),
        6 => (1, -1),
        _ => (1, 1),
    }
}

/// Tries to fill the cell with the injected fluid: it fills exactly when
/// it is empty pore space and nothing directly above it is still empty
/// (or it sits at the shallowest layer).  A fill records the current
/// snapshot index at the cell and advances the snapshot accounting.
pub fn try_to_fill_cell_with_co2(
    reservoir_matrix: &mut Grid3<CellState>,
    snapshots: &mut Grid3<i32>,
    cell: (usize, usize, usize),
    snapshots_counter: &mut i32,
    cells_filled_since_snapshot: &mut usize,
    snapshot_interval: usize,
)
    requires
        old(reservoir_matrix).wf(),
        old(snapshots).wf(),
        old(snapshots).same_dims(*old(reservoir_matrix)),
        old(reservoir_matrix).in_bounds(cell.0 as int, cell.1 as int, cell.2 as int),
        snapshot_interval >= 1,
        *old(snapshots_counter) < i32::MAX,
        *old(cells_filled_since_snapshot) < usize::MAX,
    ensures
        final(reservoir_matrix).wf(),
        final(reservoir_matrix).same_dims(*old(reservoir_matrix)),
        final(snapshots).wf(),
        final(snapshots).same_dims(*old(snapshots)),
        ({
            let x = cell.0 as int;
            let y = cell.1 as int;
            let z = cell.2 as int;
            if old(reservoir_matrix).cell(x, y, z) == CellState::Reservoir && (z == 0 || old(
                reservoir_matrix,
            ).cell(x, y, z - 1) != CellState::Reservoir) {
                &&& final(reservoir_matrix).data@ == old(reservoir_matrix).data@.update(
                    old(reservoir_matrix).flat_idx(x, y, z),
                    CellState::Injected,
                )
                &&& final(snapshots).data@ == old(snapshots).data@.update(
                    old(reservoir_matrix).flat_idx(x, y, z),
                    *old(snapshots_counter),
                )
                &&& (if *old(cells_filled_since_snapshot) + 1 >= snapshot_interval {
                    *final(snapshots_counter) == *old(snapshots_counter) + 1
                        && *final(cells_filled_since_snapshot) == 0
                } else {
                    *final(snapshots_counter) == *old(snapshots_counter)
                        && *final(cells_filled_since_snapshot) == *old(cells_filled_since_snapshot)
                        + 1
                })
            } else {
                &&& *final(reservoir_matrix) == *old(reservoir_matrix)
                &&& *final(snapshots) == *old(snapshots)
                &&& *final(snapshots_counter) == *old(snapshots_counter)
                &&& *final(cells_filled_since_snapshot) == *old(cells_filled_since_snapshot)
            }
        }),
{
    let (xi, yi, zi) = cell;
    if is_empty(reservoir_matrix.get(xi, yi, zi)) && (zi == 0 || !is_empty(
        reservoir_matrix.get(xi, yi, zi - 1),
    )) {
        reservoir_matrix.set(xi, yi, zi, CellState::Injected);
        snapshots.set(xi, yi, zi, *snapshots_counter);
        *cells_filled_since_snapshot = *cells_filled_since_snapshot + 1;
        if *cells_filled_since_snapshot >= snapshot_interval {
            *snapshots_counter = *snapshots_counter + 1;
            *cells_filled_since_snapshot = 0;
        }
    }
}

/// Enqueues the 8-connected horizontal neighbors of the given cell that
/// are in bounds and still empty pore space; `cell_added` turns true if
/// any was enqueued.
pub fn add_to_8_connected_neighbors(
    queue: &mut DepthOrderedQueue,
    reservoir_matrix: &Grid3<CellState>,
    depths: &Vec<u64>,
    current_cell: (usize, usize, usize),
    cell_added: &mut bool,
)
    requires
        old(queue).wf(),
        reservoir_matrix.wf(),
        depths@.len() == reservoir_matrix.nz,
        reservoir_matrix.in_bounds(
            current_cell.0 as int,
            current_cell.1 as int,
            current_cell.2 as int,
        ),
        reservoir_matrix.nx <= i32::MAX as usize,
        reservoir_matrix.ny <= i32::MAX as usize,
        reservoir_matrix.nz <= i32::MAX as usize,
    ensures
        final(queue).wf(),
        ({
            let r = push_reservoir_neighbors(
                config_of(*reservoir_matrix, depths@),
                reservoir_matrix.data@,
                old(queue).model(),
                current_cell.0 as int,
                current_cell.1 as int,
                current_cell.2 as int,
                8,
            );
            final(queue).model() == r.0 && *final(cell_added) == (*old(cell_added) || r.1)
        }),
{
    let (xc, yc, zc) = current_cell;
    let ghost cfg = config_of(*reservoir_matrix, depths@);
    let mut k: usize = 0;
    while k < 8
        invariant
            queue.wf(),
            reservoir_matrix.wf(),
            cfg == config_of(*reservoir_matrix, depths@),
            depths@.len() == reservoir_matrix.nz,
            reservoir_matrix.in_bounds(xc as int, yc as int, zc as int),
            reservoir_matrix.nx <= i32::MAX as usize,
            reservoir_matrix.ny <= i32::MAX as usize,
            reservoir_matrix.nz <= i32::MAX as usize,
            k <= 8,
            ({
                let r = push_reservoir_neighbors(
                    cfg,
                    reservoir_matrix.data@,
                    old(queue).model(),
                    xc as int,
                    yc as int,
                    zc as int,
                    k as int,
                );
                queue.model() == r.0 && *cell_added == (*old(cell_added) || r.1)
            }),
        decreases 8 - k,
    {
        let (dx, dy) = spread_direction(k);
        match safe_indices(
            xc as i32 + dx,
            yc as i32 + dy,
            zc as i32,
            reservoir_matrix.nx,
            reservoir_matrix.ny,
            reservoir_matrix.nz,
        ) {
            Some((ax, ay, az)) => {
                if is_empty(reservoir_matrix.get(ax, ay, az)) {
                    queue.push(depths[az], ax, ay, az);
                    *cell_added = true;
                }
            },
            None => {},
        }
        k = k + 1;
    }
}

/// Enqueues the 8-connected horizontal neighbors of the given cell that
/// are in bounds and not caprock: the lateral fallback when the fluid
/// cannot rise from this position.
pub fn add_non_caprock_neighbors(
    queue: &mut DepthOrderedQueue,
    reservoir_matrix: &Grid3<CellState>,
    depths: &Vec<u64>,
    current_cell: (usize, usize, usize),
)
    requires
        old(queue).wf(),
        reservoir_matrix.wf(),
        depths@.len() == reservoir_matrix.nz,
        reservoir_matrix.in_bounds(
            current_cell.0 as int,
            current_cell.1 as int,
            current_cell.2 as int,
        ),
        reservoir_matrix.nx <= i32::MAX as usize,
        reservoir_matrix.ny <= i32::MAX as usize,
        reservoir_matrix.nz <= i32::MAX as usize,
    ensures
        final(queue).wf(),
        final(queue).model() == push_non_caprock_neighbors(
            config_of(*reservoir_matrix, depths@),
            reservoir_matrix.data@,
            old(queue).model(),
            current_cell.0 as int,
            current_cell.1 as int,
            current_cell.2 as int,
            8,
        ),
{
    let (xc, yc, zc) = current_cell;
    let ghost cfg = config_of(*reservoir_matrix, depths@);
    let mut k: usize = 0;
    while k < 8
        invariant
            queue.wf(),
            reservoir_matrix.wf(),
            cfg == config_of(*reservoir_matrix, depths@),
            depths@.len() == reservoir_matrix.nz,
            reservoir_matrix.in_bounds(xc as int, yc as int, zc as int),
            reservoir_matrix.nx <= i32::MAX as usize,
            reservoir_matrix.ny <= i32::MAX as usize,
            reservoir_matrix.nz <= i32::MAX as usize,
            k <= 8,
            queue.model() == push_non_caprock_neighbors(
                cfg,
                reservoir_matrix.data@,
                old(queue).model(),
                xc as int,
                yc as int,
                zc as int,
                k as int,
            ),
        decreases 8 - k,
    {
        let (dx, dy) = spread_direction(k);
        match safe_indices(
            xc as i32 + dx,
            yc as i32 + dy,
            zc as i32,
            reservoir_matrix.nx,
            reservoir_matrix.ny,
            reservoir_matrix.nz,
        ) {
            Some((ax, ay, az)) => {
                if !crate::utils::is_caprock(reservoir_matrix.get(ax, ay, az)) {
                    queue.push(depths[az], ax, ay, az);
                }
            },
            None => {},
        }
        k = k + 1;
    }
}

/// Checks whether the fluid column beneath the nearest sealing layer at
/// or above the current cell has reached the breach threshold; if so,
/// the seal fails: that caprock cell turns back to `Reservoir` and is
/// enqueued at its own depth.
pub fn try_to_break_caprock(
    queue: &mut DepthOrderedQueue,
    reservoir_matrix: &mut Grid3<CellState>,
    depths: &Vec<u64>,
    current_cell: (usize, usize, usize),
    max_column_height: usize,
)
    requires
        old(queue).wf(),
        old(reservoir_matrix).wf(),
        depths@.len() == old(reservoir_matrix).nz,
        old(reservoir_matrix).in_bounds(
            current_cell.0 as int,
            current_cell.1 as int,
            current_cell.2 as int,
        ),
        max_column_height >= 1,
    ensures
        final(queue).wf(),
        final(reservoir_matrix).wf(),
        final(reservoir_matrix).same_dims(*old(reservoir_matrix)),
        ({
            let cfg = config_of(*old(reservoir_matrix), depths@);
            let x = current_cell.0 as int;
            let y = current_cell.1 as int;
            let z = current_cell.2 as int;
            let ci = spec_closest_caprock(column_of(cfg, old(reservoir_matrix).data@, x, y), z);
            if z - ci >= max_column_height {
                &&& final(reservoir_matrix).data@ == old(reservoir_matrix).data@.update(
                    cfg.idx(x, y, ci),
                    CellState::Reservoir,
                )
                &&& final(queue).model() == spec_push(old(queue).model(), cfg.entry_of(x, y, ci))
            } else {
                &&& *final(reservoir_matrix) == *old(reservoir_matrix)
                &&& *final(queue) == *old(queue)
            }
        }),
{
    let (xc, yc, zc) = current_cell;
    let ghost cfg = config_of(*reservoir_matrix, depths@);
    let ghost col = column_of(cfg, reservoir_matrix.data@, xc as int, yc as int);
    let mut i: usize = zc;
    let mut closest_caprock_idx: usize = 0;
    loop
        invariant_except_break
            i <= zc,
            reservoir_matrix.wf(),
            *reservoir_matrix == *old(reservoir_matrix),
            reservoir_matrix.in_bounds(xc as int, yc as int, zc as int),
            cfg == config_of(*reservoir_matrix, depths@),
            col == column_of(cfg, reservoir_matrix.data@, xc as int, yc as int),
            spec_closest_caprock(col, zc as int) == spec_closest_caprock(col, i as int),
        ensures
            *reservoir_matrix == *old(reservoir_matrix),
            closest_caprock_idx == spec_closest_caprock(col, zc as int),
        decreases i,
    {
        if reservoir_matrix.get(xc, yc, i) == CellState::Caprock {
            proof {
                assert(col[i as int] == CellState::Caprock);
            }
            closest_caprock_idx = i;
            break;
        }
        if i == 0 {
            closest_caprock_idx = 0;
            break;
        }
        i = i - 1;
    }
    proof {
        crate::utils::lemma_closest_caprock_range(col, zc as int);
    }
    if crate::utils::find_height_to_caprock(zc, closest_caprock_idx) >= max_column_height {
        reservoir_matrix.set(xc, yc, closest_caprock_idx, CellState::Reservoir);
        queue.push(depths[closest_caprock_idx], xc, yc, closest_caprock_idx);
    }
}

/// Runs the full injection simulation from `source` and returns the
/// snapshot grid: per cell, the index of the snapshot frame in which it
/// filled, or -1 where it never filled.
///
/// The run fails, before touching any state, exactly when the source
/// cell is not `Reservoir`, or sits below the shallowest layer without
/// caprock directly above it.  On success the result is exactly the
/// snapshot assignment of the model interpreter's fill sequence.
#[verifier::loop_isolation(false)]
#[verifier::rlimit(60)]
pub fn simulate(
    reservoir_matrix: &Grid3<CellState>,
    depths: &Vec<u64>,
    max_column_height: usize,
    source: (usize, usize, usize),
    total_snapshots: usize,
) -> (r: Result<Grid3<i32>, SimError>)
    requires
        reservoir_matrix.wf(),
        depths@.len() == reservoir_matrix.nz,
        reservoir_matrix.in_bounds(source.0 as int, source.1 as int, source.2 as int),
        max_column_height >= 1,
        total_snapshots >= 1,
        (reservoir_matrix.nx as int) * (reservoir_matrix.ny as int) * (reservoir_matrix.nz as int)
            <= i32::MAX as int,
    ensures
        r is Ok <==> spec_source_ok(
            *reservoir_matrix,
            source.0 as int,
            source.1 as int,
            source.2 as int,
        ),
        r == Err::<Grid3<i32>, SimError>(SimError::InvalidSource(InvalidSourceReason::NotReservoir))
            <==> reservoir_matrix.cell(source.0 as int, source.1 as int, source.2 as int)
            != CellState::Reservoir,
        r == Err::<Grid3<i32>, SimError>(
            SimError::InvalidSource(InvalidSourceReason::NotBelowCaprock),
        ) <==> (reservoir_matrix.cell(source.0 as int, source.1 as int, source.2 as int)
            == CellState::Reservoir && source.2 > 0 && reservoir_matrix.cell(
            source.0 as int,
            source.1 as int,
            source.2 as int - 1,
        ) != CellState::Caprock),
        r matches Ok(snaps) ==> ({
            let fin = spec_simulate(
                config_of(*reservoir_matrix, depths@),
                max_column_height as int,
                reservoir_matrix.data@,
                source.0 as int,
                source.1 as int,
                source.2 as int,
            );
            let interval = spec_snapshot_interval(reservoir_matrix.data@, total_snapshots as int);
            &&& snaps.wf()
            &&& snaps.same_dims(*reservoir_matrix)
            &&& snapshots_match(snaps, fin.fills, interval)
            &&& (forall|x: int, y: int, z: int|
                snaps.in_bounds(x, y, z) ==> #[trigger] snaps.cell(x, y, z) >= -1 && (snaps.cell(
                    x,
                    y,
                    z,
                ) >= 0 <==> crate::model::fills_contain(fin.fills, x, y, z)))
        }),
{
    let (sx, sy, sz) = source;
    match validate_initial_position(reservoir_matrix, source) {
        Err(e) => {
            return Err(e);
        },
        Ok(()) => {},
    }
    let snapshot_interval = compute_snapshot_interval(reservoir_matrix, total_snapshots);
    let nx = reservoir_matrix.nx;
    let ny = reservoir_matrix.ny;
    let nz = reservoir_matrix.nz;
    proof {
        lemma_dims_bounded(nx as int, ny as int, nz as int, i32::MAX as int);
    }
    let mut work = reservoir_matrix.duplicate();
    let mut visited = Grid3::<bool>::new(nx, ny, nz, false);
    let mut snapshots = Grid3::<i32>::new(nx, ny, nz, -1i32);
    let mut snapshots_counter: i32 = 0;
    let mut cells_filled_since_snapshot: usize = 0;
    let ghost cfg = config_of(*reservoir_matrix, depths@);
    let ghost threshold = max_column_height as int;
    let ghost interval = snapshot_interval as int;
    let ghost mut fills = Seq::<FillEvent>::empty();
    let ghost target = spec_simulate(
        cfg,
        threshold,
        reservoir_matrix.data@,
        sx as int,
        sy as int,
        sz as int,
    );
    proof {
        assert(visited_set(visited) =~= Set::<int>::empty());
        assert(abstraction(work, visited, Seq::empty(), fills) =~~= init_state(
            reservoir_matrix.data@,
        ));
        crate::model::lemma_unvisited_finite(
            cfg,
            abstraction(work, visited, Seq::empty(), fills),
        );
        vstd::arithmetic::div_mod::lemma_div_basics(interval);
    }
    let mut zi: usize = sz;
    while zi < nz
        invariant
            work.wf(),
            work.same_dims(*reservoir_matrix),
            visited.wf(),
            visited.same_dims(*reservoir_matrix),
            snapshots.wf(),
            snapshots.same_dims(*reservoir_matrix),
            zi <= nz,
            state_wf(cfg, abstraction(work, visited, Seq::empty(), fills)),
            run_outer(
                cfg,
                threshold,
                abstraction(work, visited, Seq::empty(), fills),
                sx as int,
                sy as int,
                zi as int,
            ) == target,
            snapshots_match(snapshots, fills, interval),
            snapshots_counter as int == fills.len() as int / interval,
            cells_filled_since_snapshot as int == fills.len() as int % interval,
            fills.len() + unvisited(cfg, abstraction(work, visited, Seq::empty(), fills)).len()
                <= cfg.cell_count(),
        decreases nz - zi,
    {
        let ghost abs_pass_start = abstraction(work, visited, Seq::empty(), fills);
        let mut queue = DepthOrderedQueue::new();
        if is_inside_bounds(sx as i32, sy as i32, zi as i32, nx, ny, nz) {
            queue.push(depths[zi], sx, sy, zi);
        }
        let ghost seeded = abstraction(work, visited, queue.model(), fills);
        proof {
            assert(seeded.queue == seed_queue(cfg, sx as int, sy as int, zi as int));
            assert(seeded == SimState { queue: seed_queue(cfg, sx as int, sy as int, zi as int), ..abs_pass_start });
            crate::model::lemma_seed_queue_wf(cfg, seeded, sx as int, sy as int, zi as int);
        }
        while queue.len() != 0
            invariant
                queue.wf(),
                work.wf(),
                work.same_dims(*reservoir_matrix),
                visited.wf(),
                visited.same_dims(*reservoir_matrix),
                snapshots.wf(),
                snapshots.same_dims(*reservoir_matrix),
                state_wf(cfg, abstraction(work, visited, queue.model(), fills)),
                run_inner(cfg, threshold, abstraction(work, visited, queue.model(), fills))
                    == run_inner(cfg, threshold, seeded),
                snapshots_match(snapshots, fills, interval),
                snapshots_counter as int == fills.len() as int / interval,
                cells_filled_since_snapshot as int == fills.len() as int % interval,
                fills.len() + unvisited(
                    cfg,
                    abstraction(work, visited, queue.model(), fills),
                ).len() <= cfg.cell_count(),
            decreases
                    unvisited(cfg, abstraction(work, visited, queue.model(), fills)).len(),
                    queue.model().len(),
        {
            let ghost abs_pre = abstraction(work, visited, queue.model(), fills);
            let popped = queue.pop();
            let (cx, cy, cz) = popped.unwrap();
            let ghost e = abs_pre.queue[0];
            let ghost rest = SimState { queue: abs_pre.queue.drop_first(), ..abs_pre };
            let ghost cell_idx = cfg.idx(cx as int, cy as int, cz as int);
            proof {
                assert(cfg.entry_in_bounds(e));
                assert(queue_in_bounds(cfg, rest.queue)) by {
                    assert forall|j: int|
                        0 <= j < rest.queue.len() implies cfg.entry_in_bounds(
                        #[trigger] rest.queue[j],
                    ) by {
                        assert(rest.queue[j] == abs_pre.queue[j + 1]);
                    }
                }
                assert(state_wf(cfg, rest));
                crate::grid::lemma_flat_idx_bounds(
                    cfg.nx,
                    cfg.ny,
                    cfg.nz,
                    cx as int,
                    cy as int,
                    cz as int,
                );
            }
            if visited.get(cx, cy, cz) {
                proof {
                    assert(abs_pre.visited.contains(cell_idx));
                    assert(abstraction(work, visited, queue.model(), fills) =~~= rest);
                    assert(unvisited(cfg, rest) =~= unvisited(cfg, abs_pre));
                }
            } else {
                proof {
                    assert(!abs_pre.visited.contains(cell_idx));
                }
                visited.set(cx, cy, cz, true);
                let ghost s1 = SimState { visited: rest.visited.insert(cell_idx), ..rest };
                proof {
                    assert(visited_set(visited) =~= s1.visited);
                }
                let ghost grid_before = work.data@;
                let ghost snaps_before = snapshots;
                let ghost fills_before = fills;
                let ghost counter_before = snapshots_counter as int;
                proof {
                    crate::model::lemma_unvisited_finite(cfg, abs_pre);
                    assert(unvisited(cfg, abs_pre).contains(cell_idx));
                    vstd::set::axiom_set_remove_len(unvisited(cfg, abs_pre), cell_idx);
                    vstd::arithmetic::div_mod::lemma_div_nonincreasing(
                        fills.len() as int,
                        interval,
                    );
                    vstd::arithmetic::div_mod::lemma_mod_pos_bound(fills.len() as int, interval);
                }
                try_to_fill_cell_with_co2(
                    &mut work,
                    &mut snapshots,
                    (cx, cy, cz),
                    &mut snapshots_counter,
                    &mut cells_filled_since_snapshot,
                    snapshot_interval,
                );
                let ghost s2 = crate::model::apply_fill(cfg, s1, cx as int, cy as int, cz as int);
                proof {
                    if can_fill(cfg, grid_before, cx as int, cy as int, cz as int) {
                        let ev = fill_event(cfg, grid_before, cx as int, cy as int, cz as int);
                        fills = fills.push(ev);
                        crate::model::lemma_counter_step(fills_before.len() as int, interval);
                        crate::model::lemma_snapshot_of_push(fills_before, interval, ev);
                        assert forall|x: int, y: int, z: int|
                            snapshots.in_bounds(x, y, z) implies #[trigger] snapshots.cell(x, y, z)
                            == spec_snapshot_of(fills, interval, x, y, z) by {
                            crate::grid::lemma_flat_idx_bounds(cfg.nx, cfg.ny, cfg.nz, x, y, z);
                            assert(snaps_before.cell(x, y, z) == spec_snapshot_of(
                                fills_before,
                                interval,
                                x,
                                y,
                                z,
                            ));
                            if x == cx as int && y == cy as int && z == cz as int {
                                assert(snapshots.cell(x, y, z) == counter_before);
                                assert(ev.x == x && ev.y == y && ev.z == z);
                            } else {
                                crate::grid::lemma_flat_idx_injective(
                                    cfg.nx,
                                    cfg.ny,
                                    cfg.nz,
                                    x,
                                    y,
                                    z,
                                    cx as int,
                                    cy as int,
                                    cz as int,
                                );
                                assert(snapshots.cell(x, y, z) == snaps_before.cell(x, y, z));
                                assert(spec_snapshot_of(fills, interval, x, y, z)
                                    == spec_snapshot_of(fills_before, interval, x, y, z));
                            }
                        }
                    }
                    assert(work.data@ == s2.grid);
                    assert(fills == s2.fills);
                }
                let mut added_above = false;
                if cz > 0 {
                    let za = cz - 1;
                    if is_empty(work.get(cx, cy, za)) {
                        queue.push(depths[za], cx, cy, za);
                        added_above = true;
                    }
                    add_to_8_connected_neighbors(
                        &mut queue,
                        &work,
                        depths,
                        (cx, cy, za),
                        &mut added_above,
                    );
                }
                let ghost up = expand_above(cfg, s2.grid, s2.queue, cx as int, cy as int, cz as int);
                proof {
                    assert(config_of(work, depths@) == cfg);
                    assert(queue.model() == up.0 && added_above == up.1);
                }
                let ghost s3 = SimState { queue: up.0, ..s2 };
                if !added_above {
                    add_non_caprock_neighbors(&mut queue, &work, depths, (cx, cy, cz));
                }
                let ghost s4 = if !up.1 {
                    SimState {
                        queue: push_non_caprock_neighbors(
                            cfg,
                            s3.grid,
                            s3.queue,
                            cx as int,
                            cy as int,
                            cz as int,
                            8,
                        ),
                        ..s3
                    }
                } else {
                    s3
                };
                proof {
                    assert(queue.model() == s4.queue);
                }
                try_to_break_caprock(&mut queue, &mut work, depths, (cx, cy, cz), max_column_height);
                let ghost s5 = crate::model::apply_breach(
                    cfg,
                    threshold,
                    s4,
                    cx as int,
                    cy as int,
                    cz as int,
                );
                proof {
                    assert(column_of(cfg, s4.grid, cx as int, cy as int) =~= column_of(
                        config_of(*reservoir_matrix, depths@),
                        s4.grid,
                        cx as int,
                        cy as int,
                    ));
                    assert(abstraction(work, visited, queue.model(), fills) =~~= s5);
                    assert(s5 == visit_cell(cfg, threshold, rest, cx as int, cy as int, cz as int));
                    crate::model::lemma_visit_cell_wf(
                        cfg,
                        threshold,
                        rest,
                        cx as int,
                        cy as int,
                        cz as int,
                    );
                    crate::model::lemma_unvisited_step(
                        cfg,
                        threshold,
                        abs_pre,
                        rest,
                        cx as int,
                        cy as int,
                        cz as int,
                    );
                    assert(unvisited(cfg, s5) =~= unvisited(cfg, abs_pre).remove(cell_idx));
                    assert(run_inner(cfg, threshold, abs_pre) == run_inner(cfg, threshold, s5));
                }
            }
        }
        proof {
            let abs_now = abstraction(work, visited, queue.model(), fills);
            assert(run_inner(cfg, threshold, abs_now) == abs_now);
            assert(abs_now == run_inner(cfg, threshold, seeded));
            assert(abstraction(work, visited, Seq::empty(), fills) =~~= abs_now);
            assert(run_outer(cfg, threshold, abs_pass_start, sx as int, sy as int, zi as int)
                == run_outer(cfg, threshold, abs_now, sx as int, sy as int, zi as int + 1));
        }
        zi = zi + 1;
    }
    proof {
        assert(abstraction(work, visited, Seq::empty(), fills) == target);
        assert forall|x: int, y: int, z: int|
            snapshots.in_bounds(x, y, z) implies #[trigger] snapshots.cell(x, y, z) >= -1 && (
        snapshots.cell(x, y, z) >= 0 <==> crate::model::fills_contain(target.fills, x, y, z)) by {
            crate::model::lemma_snapshot_of_bounds(target.fills, interval, x, y, z);
        }
    }
    Ok(snapshots)
}

} // verus!
