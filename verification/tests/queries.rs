use differential_growth::geometry::Point;
use differential_growth::geometry::SCALE;
use differential_growth::segments::Segments;

fn pt(x: u32, y: u32) -> Point {
    Point { x, y }
}

fn square_loop() -> Segments {
    let mut s = Segments::new(100, 100_000_000);
    let points = vec![
        pt(400_000_000, 400_000_000),
        pt(600_000_000, 400_000_000),
        pt(600_000_000, 600_000_000),
        pt(400_000_000, 600_000_000),
    ];
    s.init_circle_segment(&points).unwrap();
    s
}

#[test]
fn get_edge_length_rounds_down() {
    let mut s = Segments::new(10, 100_000_000);
    s.init_line_segment(&[pt(0, 0), pt(3, 4), pt(4, 5), pt(4, 5)], false).unwrap();
    assert_eq!(s.get_edge_length(0), 5);
    assert_eq!(s.get_edge_length(1), 1);
    assert_eq!(s.get_edge_length(2), 0);
}

#[test]
fn get_edges_lists_what_exists() {
    let mut s = square_loop();
    assert_eq!(s.get_edges(), vec![0, 1, 2, 3]);
    s.delete_edge(2);
    s.delete_edge(0);
    assert_eq!(s.get_edges(), vec![1, 3]);
    assert_eq!(s.get_edges_vertices(), vec![(1, 2), (3, 0)]);
    let mut buf = vec![(9, 9)];
    assert_eq!(s.np_get_edges(&mut buf), 2);
    assert_eq!(buf, vec![(1, 2), (3, 0)]);
}

#[test]
fn np_get_edges_coordinates_gives_both_end_points() {
    let mut s = square_loop();
    s.delete_edge(1);
    let mut buf = Vec::new();
    assert_eq!(s.np_get_edges_coordinates(&mut buf), 3);
    assert_eq!(
        buf,
        vec![
            (pt(400_000_000, 400_000_000), pt(600_000_000, 400_000_000)),
            (pt(600_000_000, 600_000_000), pt(400_000_000, 600_000_000)),
            (pt(400_000_000, 600_000_000), pt(400_000_000, 400_000_000)),
        ]
    );
}

#[test]
fn np_get_vertex_coordinates_skips_deleted_vertices() {
    let mut s = Segments::new(10, 100_000_000);
    s.add_vertex(1, 2, Some(0)).unwrap();
    s.add_vertex(3, 4, Some(0)).unwrap();
    s.add_passive_vertex(5, 6, Some(0)).unwrap();
    s.delete_vertex(1);
    let mut buf = vec![pt(0, 0)];
    assert_eq!(s.np_get_vertex_coordinates(&mut buf), 2);
    assert_eq!(buf, vec![pt(1, 2), pt(5, 6)]);
}

#[test]
fn get_greatest_distance_looks_at_live_vertices() {
    let mut s = Segments::new(10, 100_000_000);
    assert_eq!(s.get_greatest_distance(5, 5), 0);
    s.add_vertex(0, 0, Some(0)).unwrap();
    s.add_vertex(30, 40, Some(0)).unwrap();
    s.add_vertex(SCALE, SCALE, Some(0)).unwrap();
    assert_eq!(s.get_greatest_distance(0, 0), 1_414_213_562);
    s.delete_vertex(2);
    assert_eq!(s.get_greatest_distance(0, 0), 50);
    assert_eq!(s.get_greatest_distance(30, 40), 50);
    assert_eq!(s.get_greatest_distance(30, 41), 50);
}

#[test]
fn get_active_vertex_count_counts_active_vertices() {
    let mut s = Segments::new(10, 100_000_000);
    s.init_line_segment(&[pt(0, 0), pt(1, 0), pt(2, 0), pt(3, 0), pt(4, 0)], true).unwrap();
    assert_eq!(s.get_active_vertex_count(), 3);
    s.set_passive_vertex(2);
    assert_eq!(s.get_active_vertex_count(), 2);
    s.add_vertex(9, 9, Some(7)).unwrap();
    s.delete_vertex(5);
    assert_eq!(s.get_active_vertex_count(), 2);
}

#[test]
fn safe_vertex_positions_checks_the_margin_on_both_axes() {
    let s = square_loop();
    assert!(s.safe_vertex_positions(0));
    assert!(s.safe_vertex_positions(400_000_000));
    assert!(!s.safe_vertex_positions(400_000_001));
    assert!(!s.safe_vertex_positions(SCALE));
    assert!(!s.safe_vertex_positions(SCALE + 1));
    assert!(!s.safe_vertex_positions(u32::MAX));
    let mut t = Segments::new(10, 100_000_000);
    t.add_vertex(500_000_000, 10, Some(0)).unwrap();
    assert!(t.safe_vertex_positions(10));
    assert!(!t.safe_vertex_positions(11));
    let mut u = Segments::new(10, 100_000_000);
    u.add_vertex(SCALE - 10, 500_000_000, Some(0)).unwrap();
    assert!(u.safe_vertex_positions(10));
    assert!(!u.safe_vertex_positions(11));
}

#[test]
fn safe_vertex_positions_ignores_deleted_vertices() {
    let mut s = Segments::new(10, 100_000_000);
    s.add_vertex(0, 0, Some(0)).unwrap();
    s.add_vertex(500_000_000, 500_000_000, Some(0)).unwrap();
    assert!(!s.safe_vertex_positions(1));
    s.delete_vertex(0);
    assert!(s.safe_vertex_positions(1));
    assert!(s.safe_vertex_positions(500_000_000));
    s.delete_vertex(1);
    assert!(s.safe_vertex_positions(SCALE + 5));
}

#[test]
fn get_edge_curvature_adds_the_two_triangles() {
    let s = square_loop();
    assert_eq!(s.get_edge_curvature(0), 40_000_000_000_000_000);
    assert_eq!(s.get_edge_curvature(3), 40_000_000_000_000_000);
    let mut t = Segments::new(10, 100_000_000);
    t.init_line_segment(&[pt(0, 0), pt(10, 0), pt(20, 0), pt(20, 7)], false).unwrap();
    assert_eq!(t.get_edge_curvature(1), 35);
    let mut u = Segments::new(10, 100_000_000);
    u.init_line_segment(&[pt(0, 3), pt(10, 0), pt(20, 0), pt(23, 4)], false).unwrap();
    assert_eq!(u.get_edge_curvature(1), 35);
}

#[test]
fn sorted_vertices_walk_round_the_loop() {
    let s = square_loop();
    let mut buf = vec![9];
    assert_eq!(s.np_get_sorted_vertices(&mut buf), 4);
    assert_eq!(buf, vec![0, 1, 2, 3]);
    let mut coords = vec![pt(0, 0)];
    assert_eq!(s.np_get_sorted_vertex_coordinates(&mut coords), 4);
    assert_eq!(
        coords,
        vec![
            pt(400_000_000, 400_000_000),
            pt(600_000_000, 400_000_000),
            pt(600_000_000, 600_000_000),
            pt(400_000_000, 600_000_000)
        ]
    );
}

#[test]
fn sorted_vertices_follow_the_loop_after_a_split() {
    let mut s = square_loop();
    s.split_edge_no_min(1).unwrap();
    let mut buf = Vec::new();
    assert_eq!(s.np_get_sorted_vertices(&mut buf), 5);
    assert_eq!(buf, vec![4, 1, 0, 3, 2]);
}

#[test]
fn sorted_vertices_of_an_open_chain_end_at_its_end() {
    let mut s = Segments::new(10, 100_000_000);
    s.init_line_segment(&[pt(0, 0), pt(1, 0), pt(2, 0), pt(3, 0)], false).unwrap();
    let mut buf = Vec::new();
    assert_eq!(s.np_get_sorted_vertices(&mut buf), 1);
    assert_eq!(buf, vec![3]);
    s.delete_edge(2);
    assert_eq!(s.np_get_sorted_vertices(&mut buf), 1);
    assert_eq!(buf, vec![2]);
    let mut t = Segments::new(10, 100_000_000);
    let mut out = vec![1, 2];
    assert_eq!(t.np_get_sorted_vertices(&mut out), 0);
    assert!(out.is_empty());
    t.add_vertex(0, 0, Some(0)).unwrap();
    t.add_vertex(1, 0, Some(0)).unwrap();
    t.add_vertex(2, 0, Some(0)).unwrap();
    t.add_edge(0, 1).unwrap();
    t.add_edge(2, 1).unwrap();
    assert_eq!(t.np_get_sorted_vertices(&mut out), 2);
    assert_eq!(out, vec![1, 0]);
}

#[test]
fn sphere_vertices_of_the_mesh_reports_live_neighbours() {
    let mut s = Segments::new(10, 100_000_000);
    s.add_vertex(500_000_000, 500_000_000, Some(0)).unwrap();
    s.add_vertex(500_000_000, 550_000_000, Some(0)).unwrap();
    s.add_vertex(500_000_000, 600_000_000, Some(0)).unwrap();
    s.add_vertex(500_000_000, 600_000_001, Some(0)).unwrap();
    let mut found = vec![7, 7];
    assert_eq!(s.sphere_vertices(0, 100_000_000, &mut found), 3);
    found.sort();
    assert_eq!(found, vec![0, 1, 2]);
    s.delete_vertex(1);
    assert_eq!(s.sphere_vertices(0, 100_000_000, &mut found), 2);
    found.sort();
    assert_eq!(found, vec![0, 2]);
    s.delete_vertex(0);
    assert_eq!(s.sphere_vertices(0, 100_000_000, &mut found), 1);
    assert_eq!(found, vec![2]);
}

#[test]
fn get_max_sphere_count_bounds_every_query() {
    let mut s = Segments::new(20, 250_000_000);
    assert_eq!(s.get_max_sphere_count(), 0);
    for i in 0..5 {
        s.add_vertex(10 * i, 10 * i, Some(0)).unwrap();
    }
    s.add_vertex(900_000_000, 900_000_000, Some(0)).unwrap();
    assert_eq!(s.get_max_sphere_count(), 45);
    let mut found = Vec::new();
    assert_eq!(s.sphere_vertices(0, 1_000, &mut found), 5);
    s.delete_vertex(1);
    s.delete_vertex(2);
    assert_eq!(s.get_max_sphere_count(), 45);
    assert_eq!(s.sphere_vertices(0, 1_000, &mut found), 3);
}

#[test]
fn sorted_vertices_are_the_whole_loop_in_order() {
    let mut s = Segments::new(20, 250_000_000);
    let ring = vec![pt(10, 10), pt(20, 10), pt(30, 20), pt(20, 30), pt(10, 30)];
    s.init_circle_segment(&ring).unwrap();
    let mut order = Vec::new();
    assert_eq!(s.np_get_sorted_vertices(&mut order), 5);
    assert_eq!(order, vec![0, 1, 2, 3, 4]);
    s.split_edge_no_min(4).unwrap();
    assert_eq!(s.get_edge_vertices(6), Some((0, 5)));
    assert_eq!(s.np_get_sorted_vertices(&mut order), 6);
    assert_eq!(order, vec![5, 4, 3, 2, 1, 0]);
    let mut coords = Vec::new();
    assert_eq!(s.np_get_sorted_vertex_coordinates(&mut coords), 6);
    assert_eq!(
        coords,
        vec![pt(10, 20), pt(10, 30), pt(20, 30), pt(30, 20), pt(20, 10), pt(10, 10)]
    );
    let edges = s.get_edges_vertices();
    for i in 0..order.len() {
        let a = order[i];
        let b = order[(i + 1) % order.len()];
        assert!(edges.iter().any(|(x, y)| (*x == a && *y == b) || (*x == b && *y == a)));
    }
}

#[test]
fn get_edge_length2_is_exact() {
    let mut s = Segments::new(10, 100_000_000);
    s.init_line_segment(&[pt(0, 0), pt(5, 1), pt(5, 1)], false).unwrap();
    assert_eq!(s.get_edge_length2(0), 26);
    assert_eq!(s.get_edge_length(0), 5);
    assert_eq!(s.get_edge_length2(1), 0);
}

#[test]
fn checked_edge_curvature_says_when_there_is_none() {
    let s = square_loop();
    assert_eq!(s.checked_edge_curvature(0), Some(40_000_000_000_000_000));
    assert_eq!(s.checked_edge_curvature(4), None);
    let mut t = Segments::new(10, 100_000_000);
    t.init_line_segment(&[pt(0, 0), pt(10, 0), pt(20, 0), pt(30, 0), pt(30, 1)], false).unwrap();
    assert_eq!(t.checked_edge_curvature(0), None);
    assert_eq!(t.checked_edge_curvature(1), None);
    assert_eq!(t.checked_edge_curvature(2), Some(5));
    assert_eq!(t.checked_edge_curvature(3), None);
    t.delete_edge(1);
    assert_eq!(t.checked_edge_curvature(1), None);
    assert_eq!(t.checked_edge_curvature(2), None);
    let mut u = Segments::new(10, 100_000_000);
    u.init_line_segment(&[pt(0, 0), pt(1, 0), pt(2, 0), pt(2, 1)], false).unwrap();
    assert_eq!(u.checked_edge_curvature(1), None);
}

#[test]
fn can_collapse_tests_what_a_collapse_needs() {
    let mut s = square_loop();
    for e in 0..4 {
        assert!(s.can_collapse(e));
    }
    assert!(!s.can_collapse(4));
    s.set_passive_vertex(1);
    assert!(!s.can_collapse(0));
    assert!(!s.can_collapse(1));
    assert!(s.can_collapse(2));
    s.delete_edge(2);
    assert!(!s.can_collapse(2));
    assert!(!s.can_collapse(3));
    let mut t = Segments::new(10, 100_000_000);
    t.init_line_segment(&[pt(0, 0), pt(10, 0), pt(20, 0)], false).unwrap();
    assert!(!t.can_collapse(0));
    assert!(t.can_collapse(1));
    let mut u = Segments::new(10, 100_000_000);
    u.init_circle_segment(&[pt(0, 0), pt(10, 0)]).unwrap();
    assert!(!u.can_collapse(0));
    assert!(!u.can_collapse(1));
}

#[test]
fn split_allowed_tests_the_least_length() {
    let mut s = Segments::new(10, 100_000_000);
    s.init_line_segment(&[pt(0, 0), pt(5, 1)], false).unwrap();
    s.add_vertex(9, 9, None).unwrap();
    s.add_edge(2, 1).unwrap();
    assert!(s.split_allowed(0, 0));
    assert!(s.split_allowed(0, 5));
    assert!(!s.split_allowed(0, 6));
    assert!(!s.split_allowed(0, u32::MAX));
    assert!(s.split_allowed(1, u32::MAX));
    assert!(s.split_allowed(2, u32::MAX));
    s.delete_edge(0);
    assert!(s.split_allowed(0, 6));
}

#[test]
fn collapse_allowed_tests_the_greatest_length() {
    let mut s = Segments::new(10, 100_000_000);
    s.init_circle_segment(&[pt(0, 0), pt(5, 1), pt(5, 9), pt(0, 9)]).unwrap();
    assert!(s.collapse_allowed(0, 0));
    assert!(s.collapse_allowed(0, 6));
    assert!(!s.collapse_allowed(0, 5));
    assert!(s.collapse_allowed(1, 8));
    assert!(!s.collapse_allowed(1, 7));
    assert!(!s.collapse_allowed(4, 0));
    s.set_passive_vertex(0);
    assert!(!s.collapse_allowed(0, 0));
    assert!(!s.collapse_allowed(3, 100));
    assert!(s.collapse_allowed(1, u32::MAX));
}
