//! The library's global laws, proved over the model interpreter: every
//! recorded fill obeyed the fill rule at the moment it happened, a cell
//! ends `Injected` only by being filled, and the fill outcome — hence
//! the number of filled cells — does not depend on the requested
//! snapshot resolution.

use vstd::prelude::*;

use crate::model::{
    apply_fill, can_fill, fill_event, fills_contain, init_state, run_inner,
    run_outer, seed_queue, spec_simulate, spec_snapshot_interval, spec_snapshot_of, state_wf,
    unvisited, visit_cell, FillEvent, SimConfig, SimState,
};
use crate::state::CellState;

verus! {

/// What the fill rule guarantees of one recorded fill: the record notes
/// the state of the cell directly above exactly when the cell is not at
/// the shallowest layer, and that state was not empty reservoir — the
/// fluid accumulates beneath something, never under open pore space.
pub open spec fn fill_event_obeys_rule(ev: FillEvent) -> bool {
    &&& (ev.z == 0 <==> ev.above is None)
    &&& (ev.z > 0 ==> ev.above != Some(CellState::Reservoir))
}

/// How a later state `r` of the interpreter relates to an earlier state
/// `s`: the fill sequence has only grown, every added fill obeyed the
/// fill rule, and any cell that is `Injected` in `r` but was not in `s`
/// appears in the fill sequence.
pub open spec fn trace_extends(cfg: SimConfig, s: SimState, r: SimState) -> bool {
    &&& r.fills.len() >= s.fills.len()
    &&& (forall|k: int| 0 <= k < s.fills.len() ==> r.fills[k] == s.fills[k])
    &&& (forall|k: int|
        s.fills.len() <= k < r.fills.len() ==> fill_event_obeys_rule(#[trigger] r.fills[k]))
    &&& r.grid.len() == s.grid.len()
    &&& (forall|x: int, y: int, z: int|
        cfg.in_bounds(x, y, z) && r.grid[#[trigger] cfg.idx(x, y, z)] == CellState::Injected
            && s.grid[cfg.idx(x, y, z)] != CellState::Injected ==> fills_contain(
            r.fills,
            x,
            y,
            z,
        ))
}

/// `trace_extends` composes.
proof fn lemma_trace_extends_trans(cfg: SimConfig, s: SimState, m: SimState, r: SimState)
    requires
        trace_extends(cfg, s, m),
        trace_extends(cfg, m, r),
    ensures
        trace_extends(cfg, s, r),
{
    assert forall|x: int, y: int, z: int|
        cfg.in_bounds(x, y, z) && r.grid[#[trigger] cfg.idx(x, y, z)] == CellState::Injected
            && s.grid[cfg.idx(x, y, z)] != CellState::Injected implies fills_contain(
        r.fills,
        x,
        y,
        z,
    ) by {
        if m.grid[cfg.idx(x, y, z)] == CellState::Injected {
            assert(fills_contain(m.fills, x, y, z));
            let k = choose|k: int|
                0 <= k < m.fills.len() && m.fills[k].x == x && m.fills[k].y == y && m.fills[k].z
                    == z;
            assert(r.fills[k] == m.fills[k]);
        }
    }
}

/// One visit extends the trace: at most one fill is appended, it obeys
/// the fill rule, and the only cell that can newly turn `Injected` is
/// the filled one.
proof fn lemma_visit_cell_trace(cfg: SimConfig, threshold: int, s: SimState, x: int, y: int, z: int)
    requires
        cfg.wf(),
        state_wf(cfg, s),
        cfg.in_bounds(x, y, z),
    ensures
        trace_extends(cfg, s, visit_cell(cfg, threshold, s, x, y, z)),
{
    crate::grid::lemma_flat_idx_bounds(cfg.nx, cfg.ny, cfg.nz, x, y, z);
    let r = visit_cell(cfg, threshold, s, x, y, z);
    let s1 = SimState { visited: s.visited.insert(cfg.idx(x, y, z)), ..s };
    let s2 = apply_fill(cfg, s1, x, y, z);
    let fills_new = r.fills;
    crate::model::lemma_visit_cell_wf(cfg, threshold, s, x, y, z);
    if can_fill(cfg, s.grid, x, y, z) {
        let ev = fill_event(cfg, s.grid, x, y, z);
        assert(fill_event_obeys_rule(ev));
        assert(fills_new == s.fills.push(ev));
    }
    assert forall|a: int, b: int, c: int|
        cfg.in_bounds(a, b, c) && r.grid[#[trigger] cfg.idx(a, b, c)] == CellState::Injected
            && s.grid[cfg.idx(a, b, c)] != CellState::Injected implies fills_contain(
        r.fills,
        a,
        b,
        c,
    ) by {
        crate::grid::lemma_flat_idx_bounds(cfg.nx, cfg.ny, cfg.nz, a, b, c);
        let col = crate::model::column_of(cfg, s2.grid, x, y);
        let ci = crate::utils::spec_closest_caprock(col, z);
        crate::utils::lemma_closest_caprock_range(col, z);
        // a breach only writes `Reservoir`, so (a, b, c) cannot be the
        // breached cell
        if z - ci >= threshold && cfg.idx(a, b, c) == cfg.idx(x, y, ci) {
            assert(r.grid[cfg.idx(a, b, c)] == CellState::Reservoir);
            assert(false);
        }
        if !(a == x && b == y && c == z) {
            // the fill did not touch (a, b, c) either, so its state is
            // unchanged — contradicting the premise
            crate::grid::lemma_flat_idx_injective(cfg.nx, cfg.ny, cfg.nz, a, b, c, x, y, z);
            assert(false);
        } else {
            // the cell newly turned `Injected`, so the fill happened and
            // recorded it as the last event
            assert(can_fill(cfg, s.grid, x, y, z));
            let ev = fill_event(cfg, s.grid, x, y, z);
            assert(r.fills[r.fills.len() - 1] == ev);
        }
    }
}

/// The inner traversal extends the trace.
proof fn lemma_run_inner_trace(cfg: SimConfig, threshold: int, s: SimState)
    requires
        cfg.wf(),
        state_wf(cfg, s),
    ensures
        trace_extends(cfg, s, run_inner(cfg, threshold, s)),
    decreases unvisited(cfg, s).len(), s.queue.len(),
{
    if s.queue.len() == 0 {
    } else {
        let e = s.queue[0];
        let rest = SimState { queue: s.queue.drop_first(), ..s };
        let i = cfg.idx(e.x as int, e.y as int, e.z as int);
        if s.visited.contains(i) {
            assert(unvisited(cfg, rest) =~= unvisited(cfg, s));
            lemma_run_inner_trace(cfg, threshold, rest);
            assert(trace_extends(cfg, s, rest));
            lemma_trace_extends_trans(cfg, s, rest, run_inner(cfg, threshold, rest));
        } else {
            let v = visit_cell(cfg, threshold, rest, e.x as int, e.y as int, e.z as int);
            crate::model::lemma_visit_cell_wf(cfg, threshold, rest, e.x as int, e.y as int, e.z as int);
            crate::model::lemma_unvisited_step(cfg, threshold, s, rest, e.x as int, e.y as int, e.z as int);
            lemma_visit_cell_trace(cfg, threshold, rest, e.x as int, e.y as int, e.z as int);
            lemma_run_inner_trace(cfg, threshold, v);
            assert(trace_extends(cfg, s, rest));
            lemma_trace_extends_trans(cfg, s, rest, v);
            lemma_trace_extends_trans(cfg, s, v, run_inner(cfg, threshold, v));
        }
    }
}

/// The layer passes extend the trace.
proof fn lemma_run_outer_trace(
    cfg: SimConfig,
    threshold: int,
    s: SimState,
    sx: int,
    sy: int,
    zi: int,
)
    requires
        cfg.wf(),
        state_wf(cfg, s),
    ensures
        trace_extends(cfg, s, run_outer(cfg, threshold, s, sx, sy, zi)),
    decreases cfg.nz - zi,
{
    if zi >= cfg.nz {
    } else {
        let seeded = SimState { queue: seed_queue(cfg, sx, sy, zi), ..s };
        crate::model::lemma_seed_queue_wf(cfg, seeded, sx, sy, zi);
        let after = run_inner(cfg, threshold, seeded);
        crate::model::lemma_run_inner_wf(cfg, threshold, seeded);
        lemma_run_inner_trace(cfg, threshold, seeded);
        lemma_run_outer_trace(cfg, threshold, after, sx, sy, zi + 1);
        assert(trace_extends(cfg, s, seeded));
        lemma_trace_extends_trans(cfg, s, seeded, after);
        lemma_trace_extends_trans(cfg, s, after, run_outer(cfg, threshold, after, sx, sy, zi + 1));
    }
}

/// Fill-rule replay.  In a run whose initial grid holds no injected
/// fluid yet: every recorded fill obeyed the fill rule at the moment it
/// happened (the cell above, when there was one, was not empty
/// reservoir), and every cell that ends `Injected` appears in the fill
/// sequence — so, for any snapshot interval, it carries a non-negative
/// snapshot index.
pub proof fn lemma_fill_rule_replay(
    cfg: SimConfig,
    threshold: int,
    grid0: Seq<CellState>,
    sx: int,
    sy: int,
    sz: int,
    interval: int,
)
    requires
        cfg.wf(),
        grid0.len() == cfg.cell_count(),
        interval >= 1,
        forall|i: int| 0 <= i < grid0.len() ==> grid0[i] != CellState::Injected,
    ensures
        ({
            let fin = spec_simulate(cfg, threshold, grid0, sx, sy, sz);
            &&& (forall|k: int|
                0 <= k < fin.fills.len() ==> fill_event_obeys_rule(#[trigger] fin.fills[k]))
            &&& (forall|x: int, y: int, z: int|
                cfg.in_bounds(x, y, z) && fin.grid[#[trigger] cfg.idx(x, y, z)]
                    == CellState::Injected ==> fills_contain(fin.fills, x, y, z)
                    && spec_snapshot_of(fin.fills, interval, x, y, z) >= 0)
        }),
{
    let s0 = init_state(grid0);
    let fin = spec_simulate(cfg, threshold, grid0, sx, sy, sz);
    lemma_run_outer_trace(cfg, threshold, s0, sx, sy, sz);
    assert forall|x: int, y: int, z: int|
        cfg.in_bounds(x, y, z) && fin.grid[#[trigger] cfg.idx(x, y, z)]
            == CellState::Injected implies fills_contain(fin.fills, x, y, z) && spec_snapshot_of(
        fin.fills,
        interval,
        x,
        y,
        z,
    ) >= 0 by {
        crate::grid::lemma_flat_idx_bounds(cfg.nx, cfg.ny, cfg.nz, x, y, z);
        assert(s0.grid[cfg.idx(x, y, z)] != CellState::Injected);
        crate::model::lemma_snapshot_of_bounds(fin.fills, interval, x, y, z);
    }
}

/// The recorded snapshot index of a fixed cell only grows when the
/// snapshot interval shrinks.
proof fn lemma_snapshot_of_interval_ordered(
    fills: Seq<FillEvent>,
    i1: int,
    i2: int,
    x: int,
    y: int,
    z: int,
)
    requires
        1 <= i2 <= i1,
    ensures
        spec_snapshot_of(fills, i1, x, y, z) <= spec_snapshot_of(fills, i2, x, y, z),
    decreases fills.len(),
{
    if fills.len() > 0 {
        let last = fills.last();
        if last.x == x && last.y == y && last.z == z {
            vstd::arithmetic::div_mod::lemma_div_is_ordered_by_denominator(
                fills.len() - 1,
                i2,
                i1,
            );
        } else {
            lemma_snapshot_of_interval_ordered(fills.drop_last(), i1, i2, x, y, z);
        }
    }
}

/// Snapshot-resolution monotonicity.  The fill outcome of a run is a
/// function of the grid, depths, source and breach threshold alone —
/// the interpreter never consults the snapshot count — so raising the
/// requested snapshot count from `sc1` to `sc2` marks exactly the same
/// cells as filled (the count of `Injected` cells never decreases), and
/// each filled cell's snapshot index only grows or stays: the
/// granularity is refined.
pub proof fn lemma_snapshot_resolution_monotonic(
    cfg: SimConfig,
    threshold: int,
    grid0: Seq<CellState>,
    sx: int,
    sy: int,
    sz: int,
    sc1: int,
    sc2: int,
    x: int,
    y: int,
    z: int,
)
    requires
        cfg.wf(),
        grid0.len() == cfg.cell_count(),
        1 <= sc1 <= sc2,
    ensures
        ({
            let fills = spec_simulate(cfg, threshold, grid0, sx, sy, sz).fills;
            let i1 = spec_snapshot_interval(grid0, sc1);
            let i2 = spec_snapshot_interval(grid0, sc2);
            &&& (spec_snapshot_of(fills, i1, x, y, z) >= 0 <==> spec_snapshot_of(
                fills,
                i2,
                x,
                y,
                z,
            ) >= 0)
            &&& spec_snapshot_of(fills, i1, x, y, z) <= spec_snapshot_of(fills, i2, x, y, z)
        }),
{
    let fills = spec_simulate(cfg, threshold, grid0, sx, sy, sz).fills;
    let count = crate::model::count_matching(grid0, CellState::Reservoir);
    crate::model::lemma_count_matching_le_len(grid0, CellState::Reservoir);
    vstd::arithmetic::div_mod::lemma_div_is_ordered_by_denominator(count, sc1, sc2);
    vstd::arithmetic::div_mod::lemma_div_pos_is_pos(count, sc1);
    vstd::arithmetic::div_mod::lemma_div_pos_is_pos(count, sc2);
    let i1 = spec_snapshot_interval(grid0, sc1);
    let i2 = spec_snapshot_interval(grid0, sc2);
    assert(1 <= i2 <= i1);
    crate::model::lemma_snapshot_of_bounds(fills, i1, x, y, z);
    crate::model::lemma_snapshot_of_bounds(fills, i2, x, y, z);
    lemma_snapshot_of_interval_ordered(fills, i1, i2, x, y, z);
}

} // verus!
