use kairos::cell::{crossing_edges, Axis, CornerSigns, EdgeCrossing};
use kairos::dual_contouring::DualContouring;
use kairos::grid::{Cell, GridPoint, SolidField};

fn field_from(n: usize, solid: impl Fn(usize, usize, usize) -> bool) -> SolidField {
    let mut layers = Vec::new();
    for z in 0..n {
        let mut plane = Vec::new();
        for y in 0..n {
            let mut row = Vec::new();
            for x in 0..n {
                row.push(solid(x, y, z));
            }
            plane.push(row);
        }
        layers.push(plane);
    }
    SolidField::new(layers).expect("cube-shaped layers")
}

fn edge(axis: Axis, u: usize, v: usize) -> EdgeCrossing {
    EdgeCrossing { axis, u, v }
}

#[test]
fn uniform_cell_has_no_crossings() {
    let all_solid: CornerSigns = [[[true; 2]; 2]; 2];
    let all_empty: CornerSigns = [[[false; 2]; 2]; 2];
    assert!(crossing_edges(&all_solid).is_empty());
    assert!(crossing_edges(&all_empty).is_empty());
}

#[test]
fn single_solid_corner_crosses_its_three_edges() {
    let mut c: CornerSigns = [[[false; 2]; 2]; 2];
    c[0][0][0] = true;
    assert_eq!(
        crossing_edges(&c),
        vec![edge(Axis::Z, 0, 0), edge(Axis::Y, 0, 0), edge(Axis::X, 0, 0)]
    );
}

#[test]
fn crossings_come_in_z_y_x_order() {
    // solid below the plane y = 1/2: the four edges along Y cross
    let mut c: CornerSigns = [[[false; 2]; 2]; 2];
    for dx in 0..2 {
        for dz in 0..2 {
            c[dx][0][dz] = true;
        }
    }
    assert_eq!(
        crossing_edges(&c),
        vec![
            edge(Axis::Y, 0, 0),
            edge(Axis::Y, 1, 0),
            edge(Axis::Y, 0, 1),
            edge(Axis::Y, 1, 1)
        ]
    );
    // the opposite corner alone
    let mut d: CornerSigns = [[[false; 2]; 2]; 2];
    d[1][1][1] = true;
    assert_eq!(
        crossing_edges(&d),
        vec![edge(Axis::Z, 1, 1), edge(Axis::Y, 1, 1), edge(Axis::X, 1, 1)]
    );
}

#[test]
fn field_rejects_non_cubes() {
    assert!(SolidField::new(vec![vec![vec![true, false]], vec![vec![true, false]]]).is_none());
    assert!(SolidField::new(vec![vec![vec![true, false], vec![true]], vec![vec![true, false], vec![true, true]]]).is_none());
    let f = SolidField::new(vec![vec![vec![true, false], vec![false, false]], vec![vec![false, false], vec![false, true]]]).unwrap();
    assert_eq!(f.points_per_axis(), 2);
    assert!(f.at(0, 0, 0));
    assert!(f.at(1, 1, 1));
    assert!(!f.at(1, 0, 0));
    assert!(SolidField::new(Vec::new()).is_some());
}

#[test]
fn flat_floor_gives_one_quad() {
    // solid on the bottom layer of a block of 2³ cells
    let f = field_from(3, |_, y, _| y == 0);
    let dc = DualContouring::new(GridPoint::new(0, 0, 0), 2);
    let mesh = dc.generate(&f);
    assert_eq!(
        mesh.vertex_cells,
        vec![
            Cell { x: 0, y: 0, z: 0 },
            Cell { x: 1, y: 0, z: 0 },
            Cell { x: 0, y: 0, z: 1 },
            Cell { x: 1, y: 0, z: 1 }
        ]
    );
    assert_eq!(mesh.faces, vec![0, 2, 3, 3, 1, 0]);
}

#[test]
fn flipping_the_floor_flips_the_winding() {
    let f = field_from(3, |_, y, _| y != 0);
    let dc = DualContouring::new(GridPoint::new(5, -3, 7), 2);
    let mesh = dc.generate(&f);
    assert_eq!(mesh.vertex_cells.len(), 4);
    assert_eq!(mesh.faces, vec![0, 1, 3, 3, 2, 0]);
}

#[test]
fn wall_along_x_gives_quads_on_x_edges() {
    // solid where x == 0
    let f = field_from(3, |x, _, _| x == 0);
    let dc = DualContouring::new(GridPoint::new(0, 0, 0), 2);
    let mesh = dc.generate(&f);
    assert_eq!(
        mesh.vertex_cells,
        vec![
            Cell { x: 0, y: 0, z: 0 },
            Cell { x: 0, y: 1, z: 0 },
            Cell { x: 0, y: 0, z: 1 },
            Cell { x: 0, y: 1, z: 1 }
        ]
    );
    // the x edge at point (0, 1, 1): cells (0,0,0), (0,1,0), (0,1,1), (0,0,1);
    // solid(1, 1, 1) is false, so the quad keeps its first winding
    assert_eq!(mesh.faces, vec![0, 1, 3, 3, 2, 0]);
}

#[test]
fn empty_and_full_blocks_have_no_mesh() {
    let dc = DualContouring::new(GridPoint::new(0, 0, 0), 3);
    let empty = dc.generate(&field_from(4, |_, _, _| false));
    assert!(empty.vertex_cells.is_empty() && empty.faces.is_empty());
    let full = dc.generate(&field_from(4, |_, _, _| true));
    assert!(full.vertex_cells.is_empty() && full.faces.is_empty());
}

#[test]
fn non_positive_size_is_an_empty_block() {
    for size in [0, -1, -40] {
        let dc = DualContouring::new(GridPoint::new(1, 2, 3), size);
        assert_eq!(dc.cells(), 0);
        let mesh = dc.generate(&field_from(1, |_, _, _| true));
        assert!(mesh.vertex_cells.is_empty());
        assert!(mesh.faces.is_empty());
    }
}

#[test]
fn single_solid_point_inside_a_block() {
    // one solid lattice point at (1, 1, 1) of a 2³ block: all eight cells
    // touch it, and each of its six edges closes a quad
    let f = field_from(3, |x, y, z| x == 1 && y == 1 && z == 1);
    let dc = DualContouring::new(GridPoint::new(0, 0, 0), 2);
    let mesh = dc.generate(&f);
    assert_eq!(mesh.vertex_cells.len(), 8);
    // vertex i sits in cell (i % 2, i / 2 % 2, i / 4)
    for (i, c) in mesh.vertex_cells.iter().enumerate() {
        assert_eq!(*c, Cell { x: i % 2, y: i / 2 % 2, z: i / 4 });
    }
    // the six lattice edges at the point, in scan order of their lower ends
    assert_eq!(
        mesh.faces,
        vec![
            0, 2, 3, 3, 1, 0, // z edge from (1, 1, 0)
            0, 1, 5, 5, 4, 0, // y edge from (1, 0, 1)
            0, 4, 6, 6, 2, 0, // x edge from (0, 1, 1)
            4, 5, 7, 7, 6, 4, // z edge from (1, 1, 1)
            2, 6, 7, 7, 3, 2, // y edge from (1, 1, 1)
            1, 3, 7, 7, 5, 1, // x edge from (1, 1, 1)
        ]
    );
}

fn pseudo_random_field(n: usize, seed: u64) -> SolidField {
    field_from(n, |x, y, z| {
        let mut h = seed ^ ((x as u64) << 40) ^ ((y as u64) << 20) ^ (z as u64);
        h = h.wrapping_mul(0x9E37_79B9_7F4A_7C15);
        h ^= h >> 29;
        h = h.wrapping_mul(0xBF58_476D_1CE4_E5B9);
        h ^= h >> 32;
        h & 1 == 1
    })
}

#[test]
fn random_fields_give_well_formed_index_buffers() {
    for seed in 0..8u64 {
        let f = pseudo_random_field(7, seed);
        let dc = DualContouring::new(GridPoint::new(-3, 0, 9), 6);
        let mesh = dc.generate(&f);
        let n = mesh.vertex_cells.len() as u32;
        assert_eq!(mesh.faces.len() % 6, 0);
        assert!(mesh.faces.iter().all(|&i| i < n));
        for t in mesh.faces.chunks(3) {
            assert!(t[0] != t[1] && t[1] != t[2] && t[0] != t[2]);
        }
        // each listed cell has corners of both signs, and no cell repeats
        for (i, c) in mesh.vertex_cells.iter().enumerate() {
            let mut seen = [false, false];
            for dz in 0..2 {
                for dy in 0..2 {
                    for dx in 0..2 {
                        seen[f.at(c.x + dx, c.y + dy, c.z + dz) as usize] = true;
                    }
                }
            }
            assert!(seen[0] && seen[1]);
            assert!(mesh.vertex_cells[..i].iter().all(|d| d != c));
        }
    }
}

#[test]
fn complement_keeps_vertices_and_reverses_quads() {
    for seed in 0..4u64 {
        let f = pseudo_random_field(6, seed);
        let g = field_from(6, |x, y, z| !f.at(x, y, z));
        let dc = DualContouring::new(GridPoint::new(0, 0, 0), 5);
        let a = dc.generate(&f);
        let b = dc.generate(&g);
        assert_eq!(a.vertex_cells, b.vertex_cells);
        let reversed: Vec<u32> = a
            .faces
            .chunks(6)
            .flat_map(|q| q.iter().rev().copied())
            .collect();
        assert_eq!(b.faces, reversed);
    }
}

#[test]
fn world_points_add_the_origin() {
    let dc = DualContouring::new(GridPoint::new(-32, -8, 64), 33);
    assert_eq!(dc.cells(), 33);
    assert_eq!(dc.world_point(0, 0, 0), GridPoint::new(-32, -8, 64));
    assert_eq!(dc.world_point(33, 1, 2), GridPoint::new(1, -7, 66));
}

#[test]
fn vertex_list_matches_crossings_cell_by_cell() {
    for seed in 8..12u64 {
        let f = pseudo_random_field(5, seed);
        let dc = DualContouring::new(GridPoint::new(0, 0, 0), 4);
        let mesh = dc.generate(&f);
        let mut expected = Vec::new();
        for z in 0..4 {
            for y in 0..4 {
                for x in 0..4 {
                    let mut c: CornerSigns = [[[false; 2]; 2]; 2];
                    for dz in 0..2 {
                        for dy in 0..2 {
                            for dx in 0..2 {
                                c[dx][dy][dz] = f.at(x + dx, y + dy, z + dz);
                            }
                        }
                    }
                    if !crossing_edges(&c).is_empty() {
                        expected.push(Cell { x, y, z });
                    }
                }
            }
        }
        assert_eq!(mesh.vertex_cells, expected);
        assert!(mesh.vertex_cells.len() <= 64);
    }
}
