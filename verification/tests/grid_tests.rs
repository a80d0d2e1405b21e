use ca_modeler::grid::CAGrid;
use ca_modeler::grid::Neighborhood;
use ca_modeler::registry::CAState;
use ca_modeler::registry::Rgb;

fn rgb() -> Rgb {
    Rgb { r: 0, g: 0, b: 0 }
}

#[test]
fn moore_count_at_center_counts_surrounding_matches() {
    let mut g = CAGrid::filled(5, 5, 0, Neighborhood::Moore);
    g.set_state(1, 2, 1);
    g.set_state(2, 1, 1);
    g.set_state(3, 3, 1);
    assert_eq!(g.count_neighbors(2, 2, 1), 3);
    assert_eq!(g.count_neighbors(2, 2, 0), 5);
}

#[test]
fn von_neumann_counts_at_most_four() {
    let g = CAGrid::filled(5, 5, 7, Neighborhood::VonNeumann);
    assert_eq!(g.count_neighbors(2, 2, 7), 4);
}

#[test]
fn extended_moore_counts_twenty_four_at_interior() {
    let g = CAGrid::filled(5, 5, 3, Neighborhood::ExtendedMoore);
    assert_eq!(g.count_neighbors(2, 2, 3), 24);
}

#[test]
fn corner_undercounts_by_the_off_grid_offsets() {
    let g = CAGrid::filled(5, 5, 1, Neighborhood::ExtendedMoore);
    // At the corner only 8 of the 24 offsets stay on the grid: the clipped
    // boundary drops exactly the 16 off-grid ones.
    assert_eq!(g.count_neighbors(0, 0, 1), 8);
    let gm = CAGrid::filled(5, 5, 1, Neighborhood::Moore);
    assert_eq!(gm.count_neighbors(0, 0, 1), 3);
    let gv = CAGrid::filled(5, 5, 1, Neighborhood::VonNeumann);
    assert_eq!(gv.count_neighbors(0, 0, 1), 2);
}

#[test]
fn single_center_cell_is_not_its_own_neighbor() {
    let mut g = CAGrid::filled(5, 5, 0, Neighborhood::Moore);
    g.set_state(2, 2, 1);
    assert_eq!(g.count_neighbors(2, 2, 1), 0);
    assert_eq!(g.count_neighbors(2, 1, 1), 1);
}

#[test]
fn get_and_set_state_respect_bounds() {
    let mut g = CAGrid::filled(3, 2, 0, Neighborhood::Moore);
    assert_eq!(g.get_state(1, 2), Some(0));
    assert_eq!(g.get_state(2, 0), None);
    assert_eq!(g.get_state(0, 3), None);
    g.set_state(1, 2, 9);
    assert_eq!(g.get_state(1, 2), Some(9));
    g.set_state(5, 5, 9);
    assert_eq!(g.get_state(1, 2), Some(9));
}

#[test]
fn from_cells_validates_shape() {
    let ok = CAGrid::from_cells(2, 2, vec![vec![1, 2], vec![3, 4]], Neighborhood::Moore);
    assert!(ok.is_some());
    let g = ok.unwrap();
    assert_eq!(g.get_state(1, 0), Some(3));
    let ragged = CAGrid::from_cells(2, 2, vec![vec![1, 2], vec![3]], Neighborhood::Moore);
    assert!(ragged.is_none());
    let short = CAGrid::from_cells(2, 2, vec![vec![1, 2]], Neighborhood::Moore);
    assert!(short.is_none());
}

#[test]
fn random_fill_uses_only_positive_weight_states() {
    let states = vec![
        CAState { id: 4, name: b"Only".to_vec(), color: rgb(), weight: 3 },
        CAState { id: 9, name: b"Never".to_vec(), color: rgb(), weight: 0 },
    ];
    let g = CAGrid::new(8, 8, &states, Neighborhood::Moore);
    for r in 0..8 {
        for c in 0..8 {
            assert_eq!(g.get_state(r, c), Some(4));
        }
    }
}

#[test]
fn random_fill_falls_back_to_id_zero_without_weights() {
    let states = vec![CAState { id: 5, name: b"Zero".to_vec(), color: rgb(), weight: 0 }];
    let g = CAGrid::new(4, 4, &states, Neighborhood::VonNeumann);
    for r in 0..4 {
        for c in 0..4 {
            assert_eq!(g.get_state(r, c), Some(0));
        }
    }
}

#[test]
fn replace_all_repaints_only_matching_cells() {
    let mut g = CAGrid::filled(3, 3, 2, Neighborhood::Moore);
    g.set_state(0, 0, 5);
    g.replace_all(2, 7);
    assert_eq!(g.get_state(0, 0), Some(5));
    assert_eq!(g.get_state(1, 1), Some(7));
    assert_eq!(g.get_state(2, 2), Some(7));
}
