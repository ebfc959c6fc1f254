use injection_sim::state::CellState;
use injection_sim::utils::{
    find_closest_caprock_idx, find_height_to_caprock, is_caprock, is_empty, is_inside_bounds,
    safe_indices,
};

#[test]
fn test_is_inside_bounds() {
    assert!(is_inside_bounds(0, 0, 0, 10, 10, 10));
    assert!(is_inside_bounds(9, 9, 9, 10, 10, 10));
    assert!(!is_inside_bounds(-1, 0, 0, 10, 10, 10));
    assert!(!is_inside_bounds(10, 0, 0, 10, 10, 10));
    assert!(!is_inside_bounds(0, 10, 0, 10, 10, 10));
    assert!(!is_inside_bounds(0, 0, 10, 10, 10, 10));
}

#[test]
fn test_safe_indices() {
    assert_eq!(safe_indices(0, 0, 0, 10, 10, 10), Some((0, 0, 0)));
    assert_eq!(safe_indices(9, 9, 9, 10, 10, 10), Some((9, 9, 9)));
    assert_eq!(safe_indices(-1, 0, 0, 10, 10, 10), None);
    assert_eq!(safe_indices(10, 0, 0, 10, 10, 10), None);
}

#[test]
fn test_is_caprock_and_is_empty() {
    assert!(is_caprock(CellState::Caprock));
    assert!(!is_caprock(CellState::Reservoir));

    assert!(is_empty(CellState::Reservoir));
    assert!(!is_empty(CellState::Caprock));
}

#[test]
fn test_find_height_to_caprock() {
    assert_eq!(find_height_to_caprock(10, 7), 3);
    assert_eq!(find_height_to_caprock(5, 0), 5);
    assert_eq!(find_height_to_caprock(0, 0), 0);
}

#[test]
fn test_find_closest_layer_idx() {
    let column = vec![
        CellState::Reservoir,
        CellState::Reservoir,
        CellState::Caprock,
        CellState::Reservoir,
        CellState::Caprock,
    ];

    // should find the last caprock at or before zi = 4
    assert_eq!(find_closest_caprock_idx(&column, 4), 4);

    // should find caprock at index 2
    assert_eq!(find_closest_caprock_idx(&column, 3), 2);

    // no caprock before zi=1 -> returns 0
    assert_eq!(find_closest_caprock_idx(&column, 1), 0);

    // zi at 0 -> no caprock at/below, return 0
    assert_eq!(find_closest_caprock_idx(&column, 0), 0);
}

#[test]
fn test_nearest_caprock_deterministic() {
    let column = vec![
        CellState::Reservoir,
        CellState::Caprock,
        CellState::Reservoir,
        CellState::Reservoir,
    ];
    let first = find_closest_caprock_idx(&column, 3);
    let second = find_closest_caprock_idx(&column, 3);
    assert_eq!(first, second);
    assert_eq!(first, 1);
}
