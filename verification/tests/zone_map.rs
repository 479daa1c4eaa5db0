use differential_growth::geometry::squared_distance;
use differential_growth::geometry::Point;
use differential_growth::geometry::SCALE;
use differential_growth::zone_map::Sz;
use differential_growth::zone_map::ZoneMap;

fn sorted(mut v: Vec<usize>) -> Vec<usize> {
    v.sort();
    v
}

fn brute_force(positions: &Vec<Point>, present: &Vec<bool>, v: usize, rad: u32) -> Vec<usize> {
    let mut out = Vec::new();
    for u in 0..positions.len() {
        if present[u] && squared_distance(positions[v], positions[u]) <= (rad as u64) * (rad as u64) {
            out.push(u);
        }
    }
    out
}

fn scatter(n: usize, seed: u64) -> Vec<Point> {
    let mut s = seed;
    let mut out = Vec::new();
    for _ in 0..n {
        s = s.wrapping_mul(6364136223846793005).wrapping_add(1442695040888963407);
        let x = ((s >> 33) % (SCALE as u64 + 1)) as u32;
        s = s.wrapping_mul(6364136223846793005).wrapping_add(1442695040888963407);
        let y = ((s >> 33) % (SCALE as u64 + 1)) as u32;
        out.push(Point { x, y });
    }
    out
}

#[test]
fn new_zone_map_is_empty() {
    let zm = ZoneMap::new(4);
    assert_eq!(zm.nz(), 4);
    assert_eq!(zm.get_max_sphere_count(), 0);
    for z in 0..16 {
        assert_eq!(zm.zone(z).count(), 0);
    }
    assert_eq!(zm.vertex_zone(0), None);
}

#[test]
fn fewer_than_three_cells_per_axis_make_one_cell() {
    for nz in 0..3 {
        let zm = ZoneMap::new(nz);
        assert_eq!(zm.nz(), 1);
        assert_eq!(zm.get_z(0, 0), 0);
        assert_eq!(zm.get_z(SCALE, SCALE), 0);
        assert_eq!(zm.get_z(SCALE / 2, SCALE / 3), 0);
    }
    assert_eq!(ZoneMap::new(3).nz(), 3);
}

#[test]
fn get_z_numbers_cells_row_by_row_along_x() {
    let zm = ZoneMap::new(4);
    assert_eq!(zm.get_z(0, 0), 0);
    assert_eq!(zm.get_z(0, 250_000_000), 1);
    assert_eq!(zm.get_z(250_000_000, 0), 4);
    assert_eq!(zm.get_z(500_000_000, 750_000_000), 11);
    assert_eq!(zm.get_z(SCALE, SCALE), 15);
    assert_eq!(zm.get_z(SCALE, 0), 12);
}

#[test]
fn sz_add_vertex_appends() {
    let mut sz = Sz::new();
    assert_eq!(sz.count(), 0);
    sz.add_vertex(7);
    sz.add_vertex(3);
    sz.add_vertex(9);
    assert_eq!(sz.count(), 3);
    assert_eq!(sz.vertex(0), 7);
    assert_eq!(sz.vertex(1), 3);
    assert_eq!(sz.vertex(2), 9);
}

#[test]
fn sz_remove_vertex_moves_the_last_into_the_gap() {
    let mut sz = Sz::new();
    sz.add_vertex(1);
    sz.add_vertex(2);
    sz.add_vertex(3);
    sz.add_vertex(4);
    assert!(sz.remove_vertex(2));
    assert_eq!(sz.count(), 3);
    assert_eq!(sz.vertex(0), 1);
    assert_eq!(sz.vertex(1), 4);
    assert_eq!(sz.vertex(2), 3);
    assert!(!sz.remove_vertex(2));
    assert_eq!(sz.count(), 3);
    assert!(sz.remove_vertex(3));
    assert_eq!(sz.count(), 2);
    assert_eq!(sz.vertex(0), 1);
    assert_eq!(sz.vertex(1), 4);
}

#[test]
fn sz_remove_vertex_takes_the_first_of_two() {
    let mut sz = Sz::new();
    sz.add_vertex(5);
    sz.add_vertex(6);
    sz.add_vertex(5);
    sz.add_vertex(8);
    assert!(sz.remove_vertex(5));
    assert_eq!(sz.count(), 3);
    assert_eq!(sz.vertex(0), 8);
    assert_eq!(sz.vertex(1), 6);
    assert_eq!(sz.vertex(2), 5);
}

#[test]
fn add_vertex_to_zone_grows_one_list_and_the_greatest_size() {
    let mut zm = ZoneMap::new(3);
    zm.add_vertex_to_zone(4, 10);
    zm.add_vertex_to_zone(4, 11);
    zm.add_vertex_to_zone(2, 12);
    assert_eq!(zm.zone(4).count(), 2);
    assert_eq!(zm.zone(4).vertex(0), 10);
    assert_eq!(zm.zone(4).vertex(1), 11);
    assert_eq!(zm.zone(2).count(), 1);
    assert_eq!(zm.zone(0).count(), 0);
    assert_eq!(zm.get_max_sphere_count(), 18);
    assert_eq!(zm.vertex_zone(10), None);
}

#[test]
fn remove_vertex_from_zone_shrinks_one_list_only() {
    let mut zm = ZoneMap::new(3);
    zm.add_vertex_to_zone(4, 10);
    zm.add_vertex_to_zone(4, 11);
    zm.add_vertex_to_zone(4, 12);
    zm.add_vertex_to_zone(5, 10);
    zm.remove_vertex_from_zone(4, 10);
    assert_eq!(zm.zone(4).count(), 2);
    assert_eq!(zm.zone(4).vertex(0), 12);
    assert_eq!(zm.zone(4).vertex(1), 11);
    assert_eq!(zm.zone(5).count(), 1);
    zm.remove_vertex_from_zone(4, 99);
    assert_eq!(zm.zone(4).count(), 2);
    assert_eq!(zm.get_max_sphere_count(), 27);
}

#[test]
fn add_vertex_files_under_the_cell_of_the_position() {
    let positions = vec![
        Point { x: 0, y: 0 },
        Point { x: SCALE, y: SCALE },
        Point { x: 500_000_000, y: 100_000_000 },
    ];
    let mut zm = ZoneMap::new(4);
    assert_eq!(zm.add_vertex(2, &positions), 8);
    assert_eq!(zm.add_vertex(0, &positions), 0);
    assert_eq!(zm.add_vertex(1, &positions), 15);
    assert_eq!(zm.vertex_zone(0), Some(0));
    assert_eq!(zm.vertex_zone(1), Some(15));
    assert_eq!(zm.vertex_zone(2), Some(8));
    assert_eq!(zm.vertex_zone(3), None);
    assert_eq!(zm.zone(8).count(), 1);
    assert_eq!(zm.zone(8).vertex(0), 2);
    assert_eq!(zm.get_max_sphere_count(), 9);
}

#[test]
fn delete_vertex_forgets_the_vertex() {
    let positions = vec![Point { x: 1, y: 1 }, Point { x: 2, y: 2 }, Point { x: 3, y: 3 }];
    let mut zm = ZoneMap::new(4);
    zm.add_vertex(0, &positions);
    zm.add_vertex(1, &positions);
    zm.add_vertex(2, &positions);
    zm.delete_vertex(0);
    assert_eq!(zm.vertex_zone(0), None);
    assert_eq!(zm.vertex_zone(1), Some(0));
    assert_eq!(zm.zone(0).count(), 2);
    assert_eq!(zm.zone(0).vertex(0), 2);
    assert_eq!(zm.zone(0).vertex(1), 1);
    zm.delete_vertex(0);
    zm.delete_vertex(77);
    assert_eq!(zm.zone(0).count(), 2);
    assert_eq!(zm.get_max_sphere_count(), 27);
}

#[test]
fn update_vertex_moves_between_cells_only_when_the_cell_changes() {
    let positions = vec![Point { x: 1, y: 1 }, Point { x: 2, y: 2 }];
    let mut zm = ZoneMap::new(4);
    zm.add_vertex(0, &positions);
    zm.add_vertex(1, &positions);
    zm.update_vertex(0, 100, 100);
    assert_eq!(zm.vertex_zone(0), Some(0));
    assert_eq!(zm.zone(0).vertex(0), 0);
    assert_eq!(zm.zone(0).vertex(1), 1);
    zm.update_vertex(0, 600_000_000, 300_000_000);
    assert_eq!(zm.vertex_zone(0), Some(9));
    assert_eq!(zm.zone(0).count(), 1);
    assert_eq!(zm.zone(0).vertex(0), 1);
    assert_eq!(zm.zone(9).count(), 1);
    assert_eq!(zm.zone(9).vertex(0), 0);
    zm.update_vertex(5, 0, 0);
    assert_eq!(zm.vertex_zone(5), None);
    zm.delete_vertex(1);
    zm.update_vertex(1, SCALE, SCALE);
    assert_eq!(zm.vertex_zone(1), None);
    assert_eq!(zm.zone(15).count(), 0);
}

#[test]
fn sphere_vertices_reports_the_vertex_itself_and_its_neighbours() {
    let positions = vec![
        Point { x: 500_000_000, y: 500_000_000 },
        Point { x: 510_000_000, y: 500_000_000 },
        Point { x: 500_000_000, y: 600_000_000 },
        Point { x: 500_000_000, y: 600_000_001 },
        Point { x: 100_000_000, y: 100_000_000 },
    ];
    let mut zm = ZoneMap::new(10);
    for v in 0..positions.len() {
        zm.add_vertex(v, &positions);
    }
    let mut out = vec![99, 98, 97];
    let n = zm.sphere_vertices(0, &positions, 100_000_000, &mut out);
    assert_eq!(n, 3);
    assert_eq!(sorted(out), vec![0, 1, 2]);
    let mut out = Vec::new();
    assert_eq!(zm.sphere_vertices(4, &positions, 100_000_000, &mut out), 1);
    assert_eq!(out, vec![4]);
    let mut out = Vec::new();
    assert_eq!(zm.sphere_vertices(0, &positions, 0, &mut out), 1);
    assert_eq!(out, vec![0]);
}

#[test]
fn sphere_vertices_looks_no_farther_than_the_neighbouring_cells() {
    let positions = vec![Point { x: 50_000_000, y: 50_000_000 }, Point { x: 250_000_000, y: 50_000_000 }];
    let mut zm = ZoneMap::new(10);
    zm.add_vertex(0, &positions);
    zm.add_vertex(1, &positions);
    let mut out = Vec::new();
    assert_eq!(zm.sphere_vertices(0, &positions, 300_000_000, &mut out), 1);
    assert_eq!(out, vec![0]);
}

#[test]
fn sphere_vertices_misses_nothing_within_one_cell_width() {
    let nz = 8;
    let rad = SCALE / 8;
    let positions = scatter(300, 42);
    let mut present = vec![false; positions.len()];
    let mut zm = ZoneMap::new(nz);
    for v in 0..positions.len() {
        zm.add_vertex(v, &positions);
        present[v] = true;
    }
    let mut out = Vec::new();
    for v in 0..positions.len() {
        let n = zm.sphere_vertices(v, &positions, rad, &mut out);
        assert_eq!(n, out.len());
        assert!(n <= zm.get_max_sphere_count());
        assert_eq!(sorted(out.clone()), brute_force(&positions, &present, v, rad));
    }
}

#[test]
fn sphere_vertices_stays_complete_after_deletes_and_updates() {
    let nz = 5;
    let rad = SCALE / 5;
    let mut positions = scatter(200, 7);
    let moved = scatter(200, 8);
    let mut present = vec![false; positions.len()];
    let mut zm = ZoneMap::new(nz);
    for v in 0..positions.len() {
        zm.add_vertex(v, &positions);
        present[v] = true;
    }
    for v in 0..positions.len() {
        if v % 3 == 0 {
            zm.delete_vertex(v);
            present[v] = false;
        } else if v % 3 == 1 {
            positions[v] = moved[v];
            zm.update_vertex(v, moved[v].x, moved[v].y);
        }
    }
    let mut out = Vec::new();
    for v in 0..positions.len() {
        zm.sphere_vertices(v, &positions, rad, &mut out);
        assert_eq!(sorted(out.clone()), brute_force(&positions, &present, v, rad));
        zm.sphere_vertices(v, &positions, rad / 3, &mut out);
        assert_eq!(sorted(out.clone()), brute_force(&positions, &present, v, rad / 3));
    }
}

#[test]
fn single_cell_grid_finds_everything_within_the_radius() {
    let positions = scatter(50, 3);
    let present = vec![true; positions.len()];
    let mut zm = ZoneMap::new(1);
    for v in 0..positions.len() {
        zm.add_vertex(v, &positions);
    }
    let mut out = Vec::new();
    for v in 0..positions.len() {
        zm.sphere_vertices(v, &positions, SCALE, &mut out);
        assert_eq!(sorted(out.clone()), brute_force(&positions, &present, v, SCALE));
    }
    assert_eq!(zm.get_max_sphere_count(), 450);
}
