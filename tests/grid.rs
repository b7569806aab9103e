use sph::grid::Grid;

fn candidates(g: &Grid, c: (i64, i64)) -> Vec<usize> {
    let mut all = Vec::new();
    for cell in g.neighbor_cells(c) {
        all.extend(cell);
    }
    all.sort();
    all
}

#[test]
fn empty_grid_has_no_cells() {
    let g = Grid::new();
    assert!(g.neighbor_cells((0, 0)).is_empty());
}

#[test]
fn update_files_each_particle_under_its_cell() {
    let mut g = Grid::new();
    g.update(&vec![(0, 0), (1, 0), (0, 0), (5, 5)]);
    assert_eq!(g.neighbor_cells((0, 0)), vec![vec![0, 2], vec![1]]);
    assert_eq!(g.neighbor_cells((5, 5)), vec![vec![3]]);
    assert!(g.neighbor_cells((3, 3)).is_empty());
}

#[test]
fn cells_come_in_block_order() {
    let mut g = Grid::new();
    let cells = vec![(1, 1), (0, 0), (-1, -1), (0, 1), (0, -1), (-1, 0), (-1, 1), (1, -1), (1, 0)];
    g.update(&cells);
    let r = g.neighbor_cells((0, 0));
    assert_eq!(
        r,
        vec![vec![1], vec![3], vec![4], vec![2], vec![5], vec![6], vec![7], vec![8], vec![0]]
    );
}

#[test]
fn negative_cells_stay_apart_from_the_origin() {
    let mut g = Grid::new();
    g.update(&vec![(-1, 0), (0, 0), (-2, 0)]);
    assert_eq!(candidates(&g, (0, 0)), vec![0, 1]);
    assert_eq!(candidates(&g, (-2, 0)), vec![0, 2]);
    assert_eq!(g.neighbor_cells((-1, 0)), vec![vec![0], vec![2], vec![1]]);
}

#[test]
fn update_clears_previous_contents() {
    let mut g = Grid::new();
    g.update(&vec![(0, 0), (0, 0)]);
    g.update(&vec![(4, 4)]);
    assert!(g.neighbor_cells((0, 0)).is_empty());
    assert_eq!(g.neighbor_cells((4, 4)), vec![vec![0]]);
}

#[test]
fn rebuild_twice_gives_same_contents() {
    let cells = vec![(0, 0), (2, 1), (1, 1), (-3, 7), (2, 1)];
    let mut g = Grid::new();
    g.update(&cells);
    let first: Vec<Vec<Vec<usize>>> = cells.iter().map(|c| g.neighbor_cells(*c)).collect();
    g.update(&cells);
    let second: Vec<Vec<Vec<usize>>> = cells.iter().map(|c| g.neighbor_cells(*c)).collect();
    assert_eq!(first, second);
}

#[test]
fn every_particle_is_its_own_candidate() {
    let cells = vec![(0, 0), (2, 1), (-1, -1), (9, -4)];
    let mut g = Grid::new();
    g.update(&cells);
    for (i, c) in cells.iter().enumerate() {
        assert!(candidates(&g, *c).contains(&i));
    }
}

#[test]
fn candidates_are_symmetric() {
    let cells = vec![(0, 0), (1, 1), (2, 2), (-1, 0), (0, 2), (3, 3)];
    let mut g = Grid::new();
    g.update(&cells);
    for i in 0..cells.len() {
        for j in 0..cells.len() {
            assert_eq!(
                candidates(&g, cells[i]).contains(&j),
                candidates(&g, cells[j]).contains(&i)
            );
        }
    }
}

#[test]
fn particles_half_a_radius_apart_are_candidates() {
    // with cell side equal to the radius, h/2 apart lands in the same or an adjacent cell
    let mut g = Grid::new();
    g.update(&vec![(0, 0), (0, 1)]);
    assert_eq!(candidates(&g, (0, 0)), vec![0, 1]);
    assert_eq!(candidates(&g, (0, 1)), vec![0, 1]);
}

#[test]
fn particles_two_radii_apart_are_not_candidates() {
    let mut g = Grid::new();
    g.update(&vec![(0, 0), (2, 0)]);
    assert_eq!(candidates(&g, (0, 0)), vec![0]);
    assert_eq!(candidates(&g, (2, 0)), vec![1]);
}

#[test]
fn candidates_list_each_touching_particle_once() {
    let cells = vec![(0, 0), (1, 1), (2, 2), (-1, 0), (0, 0), (5, 5), (1, -1)];
    let mut g = Grid::new();
    g.update(&cells);
    let mut r = g.candidates((0, 0));
    let n = r.len();
    r.sort();
    r.dedup();
    assert_eq!(r.len(), n);
    assert_eq!(r, vec![0, 1, 3, 4, 6]);
}

#[test]
fn candidates_of_an_empty_area_are_empty() {
    let mut g = Grid::new();
    g.update(&vec![(0, 0), (1, 0)]);
    assert!(g.candidates((10, 10)).is_empty());
    assert_eq!(candidates(&g, (-1, -1)), vec![0]);
}
