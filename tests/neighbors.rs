use sph::grid::Grid;
use sph::neighbors::find_neighbors;

const H: f64 = 0.04;

fn cell(p: (f64, f64)) -> (i64, i64) {
    ((p.0 / H).floor() as i64, (p.1 / H).floor() as i64)
}

fn lists_for(points: &[(f64, f64)]) -> Vec<Vec<usize>> {
    let cells: Vec<(i64, i64)> = points.iter().map(|p| cell(*p)).collect();
    let mut g = Grid::new();
    g.update(&cells);
    let close = |i: usize, j: usize| {
        let dx = points[i].0 - points[j].0;
        let dy = points[i].1 - points[j].1;
        dx * dx + dy * dy <= H * H
    };
    find_neighbors(&g, &cells, &close)
}

fn sorted(mut v: Vec<usize>) -> Vec<usize> {
    v.sort();
    v
}

#[test]
fn half_radius_apart_are_mutual_neighbors() {
    let lists = lists_for(&[(0.1, 0.1), (0.1 + H / 2.0, 0.1)]);
    assert_eq!(sorted(lists[0].clone()), vec![0, 1]);
    assert_eq!(sorted(lists[1].clone()), vec![0, 1]);
}

#[test]
fn two_radii_apart_are_not_neighbors() {
    let lists = lists_for(&[(0.1, 0.1), (0.1 + 2.0 * H, 0.1)]);
    assert_eq!(lists[0], vec![0]);
    assert_eq!(lists[1], vec![1]);
}

#[test]
fn diagonal_cell_beyond_radius_is_filtered_out() {
    // adjacent cells, but the corner distance exceeds the radius
    let lists = lists_for(&[(0.039, 0.039), (0.041 + 0.03, 0.041 + 0.03)]);
    assert_eq!(lists[0], vec![0]);
    assert_eq!(lists[1], vec![1]);
}

#[test]
fn negative_coordinates_use_floor() {
    // -0.01 lies in cell -1, next to cell 0, and within the radius of 0.01
    let lists = lists_for(&[(-0.01, 0.0), (0.01, 0.0), (-0.07, 0.0)]);
    assert_eq!(sorted(lists[0].clone()), vec![0, 1]);
    assert_eq!(sorted(lists[1].clone()), vec![0, 1]);
    assert_eq!(lists[2], vec![2]);
}

#[test]
fn own_index_and_symmetry_hold_on_a_lattice() {
    let mut points = Vec::new();
    for i in 0..6 {
        for j in 0..6 {
            points.push((0.25 + i as f64 * 0.02, 0.1 + j as f64 * 0.017));
        }
    }
    let lists = lists_for(&points);
    assert_eq!(lists.len(), points.len());
    for i in 0..points.len() {
        assert!(lists[i].contains(&i));
        for &j in &lists[i] {
            assert!(lists[j].contains(&i));
        }
    }
}

#[test]
fn neighbor_lists_hold_exactly_the_particles_within_radius() {
    let points = [(0.5, 0.5), (0.52, 0.5), (0.5, 0.535), (0.55, 0.55), (0.46, 0.5), (0.9, 0.1)];
    let lists = lists_for(&points);
    for i in 0..points.len() {
        let expected: Vec<usize> = (0..points.len())
            .filter(|&j| {
                let dx = points[i].0 - points[j].0;
                let dy = points[i].1 - points[j].1;
                dx * dx + dy * dy <= H * H
            })
            .collect();
        assert_eq!(sorted(lists[i].clone()), expected);
    }
}

#[test]
fn empty_particle_set_has_no_lists() {
    let lists = lists_for(&[]);
    assert!(lists.is_empty());
}
