use injection_sim::depth_queue::DepthOrderedQueue;
use injection_sim::grid::Grid3;
use injection_sim::injection_simulation::{
    add_to_8_connected_neighbors, compute_snapshot_interval, simulate, try_to_break_caprock,
    try_to_fill_cell_with_co2, validate_initial_position,
};
use injection_sim::state::{CellState, InvalidSourceReason, SimError};

fn make_test_reservoir(nx: usize, ny: usize, nz: usize, fill: CellState) -> Grid3<CellState> {
    Grid3::new(nx, ny, nz, fill)
}

fn layer_keys(n: usize) -> Vec<u64> {
    (0..n).map(|i| i as u64).collect()
}

#[test]
fn test_validate_initial_position_rejects_if_not_reservoir() {
    let reservoir = make_test_reservoir(3, 3, 3, CellState::Caprock);
    let r = validate_initial_position(&reservoir, (1, 1, 1));
    assert_eq!(
        r,
        Err(SimError::InvalidSource(InvalidSourceReason::NotReservoir))
    );
}

#[test]
fn test_validate_initial_position_rejects_if_not_below_caprock() {
    let mut reservoir = make_test_reservoir(3, 3, 3, CellState::Reservoir);
    reservoir.set(1, 1, 0, CellState::Reservoir); // not caprock above
    let r = validate_initial_position(&reservoir, (1, 1, 1));
    assert_eq!(
        r,
        Err(SimError::InvalidSource(InvalidSourceReason::NotBelowCaprock))
    );
}

#[test]
fn test_compute_snapshot_interval() {
    let reservoir = make_test_reservoir(2, 2, 2, CellState::Reservoir);
    assert_eq!(compute_snapshot_interval(&reservoir, 4), 2); // 8/4 = 2
    assert_eq!(compute_snapshot_interval(&reservoir, 20), 1); // max(1, ..)
}

#[test]
fn test_try_to_fill_cell_with_co2_fills_correctly() {
    let mut reservoir = make_test_reservoir(2, 2, 2, CellState::Reservoir);
    reservoir.set(0, 0, 0, CellState::Caprock); // caprock above (0,0,1)
    let mut snapshots = Grid3::new(2, 2, 2, -1i32);
    let mut snapshots_counter = 0i32;
    let mut cells_filled_since_snapshot = 0usize;

    try_to_fill_cell_with_co2(
        &mut reservoir,
        &mut snapshots,
        (0, 0, 1),
        &mut snapshots_counter,
        &mut cells_filled_since_snapshot,
        1,
    );

    assert_eq!(reservoir.get(0, 0, 1), CellState::Injected);
    assert_eq!(snapshots.get(0, 0, 1), 0);
    assert_eq!(snapshots_counter, 1); // snapshot interval hit
}

#[test]
fn test_add_to_8_connected_neighbors() {
    let mut reservoir = make_test_reservoir(3, 3, 1, CellState::Reservoir);
    reservoir.set(1, 1, 0, CellState::Injected); // already filled
    let depths = layer_keys(1);
    let mut queue = DepthOrderedQueue::new();
    let mut added = false;

    add_to_8_connected_neighbors(&mut queue, &reservoir, &depths, (1, 1, 0), &mut added);

    // Should add some neighbors (all empty)
    assert!(added);
    assert!(!queue.is_empty());
    assert!(queue.len() == 8); // the center cell is not enqueued itself, so 9 - 1 = 8
}

#[test]
fn test_try_to_break_caprock() {
    let mut reservoir = make_test_reservoir(2, 2, 3, CellState::Reservoir);
    reservoir.set(0, 0, 1, CellState::Caprock);
    let depths = layer_keys(3);
    let mut queue = DepthOrderedQueue::new();

    // Place CO2 below caprock
    reservoir.set(0, 0, 2, CellState::Injected);

    try_to_break_caprock(&mut queue, &mut reservoir, &depths, (0, 0, 2), 1);

    // Caprock at [0,0,1] should have turned into reservoir
    assert_eq!(reservoir.get(0, 0, 1), CellState::Reservoir);
    assert!(!queue.is_empty());
}

#[test]
fn test_invalid_source_fails_before_any_mutation() {
    let reservoir = make_test_reservoir(2, 2, 2, CellState::Injected);
    let depths = layer_keys(2);
    let r = simulate(&reservoir, &depths, 1, (0, 0, 0), 1);
    assert_eq!(
        r.err(),
        Some(SimError::InvalidSource(InvalidSourceReason::NotReservoir))
    );
    // the input grid is untouched: simulate borrows it immutably
    for x in 0..2 {
        for y in 0..2 {
            for z in 0..2 {
                assert_eq!(reservoir.get(x, y, z), CellState::Injected);
            }
        }
    }
}

#[test]
fn test_invalid_source_message() {
    let e = SimError::InvalidSource(InvalidSourceReason::NotReservoir);
    assert_eq!(e.message(), "Source must be in reservoir");
    let e2 = SimError::InvalidSource(InvalidSourceReason::NotBelowCaprock);
    assert_eq!(e2.message(), "Source must be just below caprock");
}

#[test]
fn test_fill_beneath_caprock_first_snapshot() {
    // a cell directly beneath a caprock cell fills on first visit and,
    // with interval 1, receives snapshot index 0
    let mut reservoir = make_test_reservoir(1, 1, 2, CellState::Reservoir);
    reservoir.set(0, 0, 0, CellState::Caprock);
    let depths = layer_keys(2);
    let snaps = simulate(&reservoir, &depths, 10, (0, 0, 1), 1).unwrap();
    assert_eq!(snaps.get(0, 0, 1), 0);
    assert_eq!(snaps.get(0, 0, 0), -1);
}

#[test]
fn test_simulate_all_reservoir() {
    // 2x2x2 all-reservoir grid, source at the surface layer, interval 1:
    // the traversal fills the surface layer first, in queue order, then
    // the deeper layer in the second pass
    let reservoir = make_test_reservoir(2, 2, 2, CellState::Reservoir);
    let depths = layer_keys(2);
    let snaps = simulate(&reservoir, &depths, 10, (0, 0, 0), 8).unwrap();
    assert_eq!(snaps.get(0, 0, 0), 0);
    assert_eq!(snaps.get(1, 0, 0), 1);
    assert_eq!(snaps.get(0, 1, 0), 2);
    assert_eq!(snaps.get(1, 1, 0), 3);
    assert_eq!(snaps.get(0, 0, 1), 4);
    assert_eq!(snaps.get(1, 0, 1), 5);
    assert_eq!(snaps.get(0, 1, 1), 6);
    assert_eq!(snaps.get(1, 1, 1), 7);
}

#[test]
fn test_simulate_breach_through_caprock() {
    // a 1x1x3 column: the fluid fills under the seal, the column height
    // reaches the threshold, the seal breaks, and the fill continues
    // above it
    let mut reservoir = make_test_reservoir(1, 1, 3, CellState::Reservoir);
    reservoir.set(0, 0, 1, CellState::Caprock);
    let depths = layer_keys(3);
    let snaps = simulate(&reservoir, &depths, 1, (0, 0, 2), 2).unwrap();
    assert_eq!(snaps.get(0, 0, 2), 0);
    // the broken caprock cell itself never fills: when it is visited the
    // cell above it is still empty reservoir
    assert_eq!(snaps.get(0, 0, 1), -1);
    // the surface cell fills in the continued traversal
    assert_eq!(snaps.get(0, 0, 0), 1);
}

#[test]
fn test_injected_count_independent_of_snapshot_count() {
    let mut reservoir = make_test_reservoir(3, 3, 3, CellState::Reservoir);
    reservoir.set(1, 1, 0, CellState::Caprock);
    reservoir.set(0, 1, 1, CellState::Caprock);
    let depths = layer_keys(3);
    let count = |snaps: &Grid3<i32>| -> usize {
        let mut n = 0;
        for x in 0..3 {
            for y in 0..3 {
                for z in 0..3 {
                    if snaps.get(x, y, z) >= 0 {
                        n += 1;
                    }
                }
            }
        }
        n
    };
    let low = simulate(&reservoir, &depths, 10, (1, 1, 1), 1).unwrap();
    let high = simulate(&reservoir, &depths, 10, (1, 1, 1), 9).unwrap();
    assert_eq!(count(&low), count(&high));
    assert!(count(&low) > 0);
}
