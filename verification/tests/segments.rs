use differential_growth::geometry::Point;
use differential_growth::geometry::SCALE;
use differential_growth::mesh::MeshError;
use differential_growth::mesh::VertexStatus;
use differential_growth::segments::grid_cells;
use differential_growth::segments::grid_fits;
use differential_growth::segments::Segments;

fn pt(x: u32, y: u32) -> Point {
    Point { x, y }
}

fn square_loop() -> Segments {
    let mut s = Segments::new(100, 100_000_000);
    let points = vec![
        pt(400_000_000, 400_000_000),
        pt(600_000_000, 400_000_000),
        pt(600_000_000, 600_000_000),
        pt(400_000_000, 600_000_000),
    ];
    assert_eq!(s.init_circle_segment(&points), Ok(()));
    s
}

fn live_edge_count(s: &Segments) -> usize {
    s.get_edges().len()
}

fn live_vertex_count(s: &Segments) -> usize {
    let mut buf = Vec::new();
    s.np_get_vertex_coordinates(&mut buf)
}

fn incident(s: &Segments, v: usize) -> usize {
    s.get_edges_vertices().iter().filter(|(a, b)| *a == v || *b == v).count()
}

#[test]
fn new_mesh_is_empty() {
    let s = Segments::new(10, 100_000_000);
    assert_eq!(s.n_max(), 10);
    assert_eq!(s.v_num(), 0);
    assert_eq!(s.e_num(), 0);
    assert_eq!(s.s_num(), 0);
    assert_eq!(s.nz(), 10);
    assert_eq!(s.get_active_vertex_count(), 0);
    assert!(s.get_edges().is_empty());
    assert!(s.safe_vertex_positions(SCALE));
}

#[test]
fn grid_resolution_is_rounded_and_drops_to_one_cell_below_three() {
    assert_eq!(Segments::new(1, 40_000_000).nz(), 25);
    assert_eq!(Segments::new(1, 300_000_000).nz(), 3);
    assert_eq!(Segments::new(1, 400_000_000).nz(), 3);
    assert_eq!(Segments::new(1, 400_000_001).nz(), 1);
    assert_eq!(Segments::new(1, 500_000_000).nz(), 1);
    assert_eq!(Segments::new(1, SCALE).nz(), 1);
    assert_eq!(Segments::new(1, u32::MAX).nz(), 1);
    assert_eq!(Segments::new(1, 30_000_000).nz(), 33);
    assert_eq!(Segments::new(1, 66_666_667).nz(), 15);
}

#[test]
fn add_vertex_creates_an_active_vertex() {
    let mut s = Segments::new(3, 100_000_000);
    assert_eq!(s.add_vertex(5, 6, Some(2)), Ok(0));
    assert_eq!(s.add_passive_vertex(SCALE, 0, None), Ok(1));
    assert_eq!(s.v_num(), 2);
    assert_eq!(s.vertex_status(0), VertexStatus::Active);
    assert_eq!(s.vertex_status(1), VertexStatus::Passive);
    assert_eq!(s.vertex_segment(0), Some(2));
    assert_eq!(s.vertex_segment(1), None);
    assert_eq!(s.vertex_position(0), pt(5, 6));
    assert_eq!(s.vertex_position(1), pt(SCALE, 0));
    assert_eq!(s.vertex_edges(0), (None, None));
    assert!(s.vertex_exists(0));
    assert!(s.vertex_exists(1));
    assert!(!s.vertex_exists(2));
    assert_eq!(s.get_active_vertex_count(), 1);
}

#[test]
fn add_vertex_rejects_points_outside_the_unit_square() {
    let mut s = Segments::new(3, 100_000_000);
    assert_eq!(s.add_vertex(SCALE + 1, 0, Some(0)), Err(MeshError::OutsideUnitSquare));
    assert_eq!(s.add_passive_vertex(0, SCALE + 1, Some(0)), Err(MeshError::OutsideUnitSquare));
    assert_eq!(s.v_num(), 0);
}

#[test]
fn add_vertex_rejects_a_full_mesh() {
    let mut s = Segments::new(1, 100_000_000);
    assert_eq!(s.add_vertex(0, 0, Some(0)), Ok(0));
    assert_eq!(s.add_vertex(1, 1, Some(0)), Err(MeshError::CapacityExceeded));
    assert_eq!(s.add_passive_vertex(1, 1, Some(0)), Err(MeshError::CapacityExceeded));
    assert_eq!(s.add_vertex(SCALE + 1, 1, Some(0)), Err(MeshError::OutsideUnitSquare));
    assert_eq!(s.v_num(), 1);
}

#[test]
fn add_edge_records_the_edge_at_both_ends() {
    let mut s = Segments::new(3, 100_000_000);
    s.add_vertex(0, 0, Some(0)).unwrap();
    s.add_vertex(10, 0, Some(0)).unwrap();
    s.add_vertex(20, 0, Some(0)).unwrap();
    assert!(s.valid_new_edge(0, 1));
    assert!(!s.valid_new_edge(0, 3));
    assert_eq!(s.add_edge(0, 1), Ok(0));
    assert_eq!(s.add_edge(2, 1), Ok(1));
    assert_eq!(s.e_num(), 2);
    assert!(s.edge_exists(0));
    assert!(s.edge_exists(1));
    assert!(!s.edge_exists(2));
    assert_eq!(s.get_edge_vertices(0), Some((0, 1)));
    assert_eq!(s.get_edge_vertices(1), Some((2, 1)));
    assert_eq!(s.get_edge_vertices(2), None);
    assert_eq!(s.vertex_edges(0), (Some(0), None));
    assert_eq!(s.vertex_edges(1), (Some(0), Some(1)));
    assert_eq!(s.vertex_edges(2), (Some(1), None));
    assert_eq!(s.linked_vertices(1), (Some(0), Some(2)));
    assert_eq!(s.linked_vertices(0), (Some(1), None));
}

#[test]
fn add_edge_rejects_a_full_mesh() {
    let mut s = Segments::new(3, 100_000_000);
    s.add_vertex(0, 0, Some(0)).unwrap();
    s.add_vertex(10, 0, Some(0)).unwrap();
    s.add_vertex(20, 0, Some(0)).unwrap();
    assert_eq!(s.add_edge(0, 1), Ok(0));
    assert_eq!(s.add_edge(1, 2), Ok(1));
    assert_eq!(s.add_edge(2, 0), Ok(2));
    s.delete_edge(1);
    assert_eq!(s.add_edge(1, 2), Err(MeshError::CapacityExceeded));
    assert_eq!(s.e_num(), 3);
    assert_eq!(s.vertex_edges(1), (Some(0), None));
}

#[test]
fn delete_edge_frees_the_slots_and_keeps_the_id() {
    let mut s = Segments::new(5, 100_000_000);
    s.add_vertex(0, 0, Some(0)).unwrap();
    s.add_vertex(10, 0, Some(0)).unwrap();
    s.add_vertex(20, 0, Some(0)).unwrap();
    s.add_edge(0, 1).unwrap();
    s.add_edge(1, 2).unwrap();
    s.delete_edge(0);
    assert!(!s.edge_exists(0));
    assert!(s.edge_exists(1));
    assert_eq!(s.e_num(), 2);
    assert_eq!(s.vertex_edges(0), (None, None));
    assert_eq!(s.vertex_edges(1), (Some(1), None));
    assert_eq!(s.get_edge_vertices(0), None);
    s.delete_edge(0);
    assert_eq!(s.vertex_edges(1), (Some(1), None));
    assert_eq!(s.add_edge(0, 1), Ok(2));
    assert_eq!(s.vertex_edges(1), (Some(1), Some(2)));
    s.delete_edge(1);
    assert_eq!(s.vertex_edges(1), (Some(2), None));
    assert_eq!(s.get_edges(), vec![2]);
}

#[test]
fn delete_vertex_leaves_a_tombstone() {
    let mut s = Segments::new(5, 100_000_000);
    s.add_vertex(0, 0, Some(0)).unwrap();
    s.add_vertex(10, 0, Some(0)).unwrap();
    s.delete_vertex(0);
    assert!(!s.vertex_exists(0));
    assert_eq!(s.vertex_status(0), VertexStatus::Deleted);
    assert_eq!(s.v_num(), 2);
    assert_eq!(s.add_vertex(1, 1, Some(0)), Ok(2));
    let mut found = Vec::new();
    assert_eq!(s.sphere_vertices(1, 100, &mut found), 2);
    found.sort();
    assert_eq!(found, vec![1, 2]);
    assert_eq!(live_vertex_count(&s), 2);
}

#[test]
fn set_passive_vertex_anchors_a_vertex() {
    let mut s = Segments::new(5, 100_000_000);
    s.add_vertex(0, 0, Some(0)).unwrap();
    s.set_passive_vertex(0);
    assert_eq!(s.vertex_status(0), VertexStatus::Passive);
    assert!(s.vertex_exists(0));
    assert_eq!(s.get_active_vertex_count(), 0);
}

#[test]
fn move_vertex_keeps_the_grid_in_step() {
    let mut s = Segments::new(5, 100_000_000);
    s.add_vertex(50_000_000, 50_000_000, Some(0)).unwrap();
    s.add_vertex(950_000_000, 950_000_000, Some(0)).unwrap();
    let mut found = Vec::new();
    assert_eq!(s.sphere_vertices(0, 100_000_000, &mut found), 1);
    s.move_vertex(1, pt(60_000_000, 50_000_000));
    assert_eq!(s.vertex_position(1), pt(60_000_000, 50_000_000));
    assert_eq!(s.sphere_vertices(0, 100_000_000, &mut found), 2);
    found.sort();
    assert_eq!(found, vec![0, 1]);
    s.move_vertex(1, pt(60_000_000, 250_000_000));
    assert_eq!(s.sphere_vertices(0, 100_000_000, &mut found), 1);
    assert_eq!(found, vec![0]);
}

#[test]
fn init_line_segment_makes_an_open_chain() {
    let mut s = Segments::new(10, 100_000_000);
    let points = vec![pt(100, 100), pt(200, 100), pt(300, 100), pt(400, 100)];
    assert_eq!(s.init_line_segment(&points, false), Ok(()));
    assert_eq!(s.v_num(), 4);
    assert_eq!(s.e_num(), 3);
    assert_eq!(s.s_num(), 1);
    assert_eq!(s.get_edges_vertices(), vec![(0, 1), (1, 2), (2, 3)]);
    for v in 0..4 {
        assert_eq!(s.vertex_status(v), VertexStatus::Active);
        assert_eq!(s.vertex_segment(v), Some(0));
        assert_eq!(s.vertex_position(v), points[v]);
    }
    assert_eq!(s.vertex_edges(0), (Some(0), None));
    assert_eq!(s.vertex_edges(1), (Some(0), Some(1)));
    assert_eq!(s.vertex_edges(3), (Some(2), None));
}

#[test]
fn init_line_segment_locks_the_two_ends() {
    let mut s = Segments::new(10, 100_000_000);
    let points = vec![pt(100, 100), pt(200, 100), pt(300, 100), pt(400, 100)];
    assert_eq!(s.init_line_segment(&points, true), Ok(()));
    assert_eq!(s.vertex_status(0), VertexStatus::Passive);
    assert_eq!(s.vertex_status(1), VertexStatus::Active);
    assert_eq!(s.vertex_status(2), VertexStatus::Active);
    assert_eq!(s.vertex_status(3), VertexStatus::Passive);
    assert_eq!(s.get_active_vertex_count(), 2);
    assert_eq!(s.get_edges_vertices(), vec![(0, 1), (1, 2), (2, 3)]);
}

#[test]
fn init_line_segment_takes_short_chains() {
    let mut s = Segments::new(10, 100_000_000);
    assert_eq!(s.init_line_segment(&[], true), Ok(()));
    assert_eq!(s.v_num(), 0);
    assert_eq!(s.s_num(), 1);
    assert_eq!(s.init_line_segment(&[pt(1, 1)], true), Ok(()));
    assert_eq!(s.v_num(), 1);
    assert_eq!(s.e_num(), 0);
    assert_eq!(s.vertex_status(0), VertexStatus::Passive);
    assert_eq!(s.vertex_segment(0), Some(1));
    assert_eq!(s.init_line_segment(&[pt(2, 2), pt(3, 3)], false), Ok(()));
    assert_eq!(s.get_edges_vertices(), vec![(1, 2)]);
    assert_eq!(s.vertex_segment(2), Some(2));
    assert_eq!(s.s_num(), 3);
}

#[test]
fn init_passive_line_segment_anchors_every_vertex() {
    let mut s = Segments::new(10, 100_000_000);
    let points = vec![pt(100, 100), pt(200, 100), pt(300, 100)];
    assert_eq!(s.init_passive_line_segment(&points), Ok(()));
    for v in 0..3 {
        assert_eq!(s.vertex_status(v), VertexStatus::Passive);
    }
    assert_eq!(s.get_edges_vertices(), vec![(0, 1), (1, 2)]);
    assert_eq!(s.get_active_vertex_count(), 0);
}

#[test]
fn init_circle_segment_closes_the_loop() {
    let s = square_loop();
    assert_eq!(s.v_num(), 4);
    assert_eq!(s.e_num(), 4);
    assert_eq!(s.s_num(), 1);
    assert_eq!(s.get_edges_vertices(), vec![(0, 1), (1, 2), (2, 3), (3, 0)]);
    assert_eq!(s.get_active_vertex_count(), 4);
    for v in 0..4 {
        assert_eq!(incident(&s, v), 2);
    }
    assert_eq!(s.vertex_edges(0), (Some(0), Some(3)));
    assert_eq!(s.vertex_edges(3), (Some(2), Some(3)));
}

#[test]
fn init_passive_circle_segment_anchors_every_vertex() {
    let mut s = Segments::new(10, 100_000_000);
    let points = vec![pt(100, 100), pt(200, 100), pt(150, 200)];
    assert_eq!(s.init_passive_circle_segment(&points), Ok(()));
    for v in 0..3 {
        assert_eq!(s.vertex_status(v), VertexStatus::Passive);
    }
    assert_eq!(s.get_edges_vertices(), vec![(0, 1), (1, 2), (2, 0)]);
}

#[test]
fn a_loop_of_two_points_has_two_edges() {
    let mut s = Segments::new(10, 100_000_000);
    assert_eq!(s.init_circle_segment(&[pt(1, 1), pt(2, 2)]), Ok(()));
    assert_eq!(s.get_edges_vertices(), vec![(0, 1), (1, 0)]);
    assert_eq!(s.vertex_edges(0), (Some(0), Some(1)));
}

#[test]
fn a_loop_needs_two_points() {
    let mut s = Segments::new(10, 100_000_000);
    assert_eq!(s.init_circle_segment(&[]), Err(MeshError::DegenerateShape));
    assert_eq!(s.init_circle_segment(&[pt(1, 1)]), Err(MeshError::DegenerateShape));
    assert_eq!(s.init_passive_circle_segment(&[pt(SCALE + 1, 1)]), Err(MeshError::DegenerateShape));
    assert_eq!(s.v_num(), 0);
    assert_eq!(s.s_num(), 0);
}

#[test]
fn a_shape_with_a_point_outside_the_unit_square_is_rejected_whole() {
    let mut s = Segments::new(10, 100_000_000);
    let points = vec![pt(100, 100), pt(200, 100), pt(SCALE + 1, 100)];
    assert_eq!(s.init_line_segment(&points, false), Err(MeshError::OutsideUnitSquare));
    assert_eq!(s.init_passive_line_segment(&points), Err(MeshError::OutsideUnitSquare));
    assert_eq!(s.init_circle_segment(&points), Err(MeshError::OutsideUnitSquare));
    assert_eq!(s.init_passive_circle_segment(&points), Err(MeshError::OutsideUnitSquare));
    assert_eq!(s.v_num(), 0);
    assert_eq!(s.e_num(), 0);
    assert_eq!(s.s_num(), 0);
}

#[test]
fn a_shape_that_does_not_fit_is_rejected_whole() {
    let mut s = Segments::new(3, 100_000_000);
    let four = vec![pt(1, 1), pt(2, 1), pt(3, 1), pt(4, 1)];
    assert_eq!(s.init_line_segment(&four, false), Err(MeshError::CapacityExceeded));
    assert_eq!(s.v_num(), 0);
    let three = vec![pt(1, 1), pt(2, 1), pt(3, 1)];
    assert_eq!(s.init_circle_segment(&three), Ok(()));
    assert_eq!(s.init_line_segment(&[pt(5, 5)], false), Err(MeshError::CapacityExceeded));
    assert_eq!(s.init_line_segment(&[], false), Ok(()));
    assert_eq!(s.v_num(), 3);
    assert_eq!(s.e_num(), 3);
    let mut t = Segments::new(3, 100_000_000);
    assert_eq!(t.init_line_segment(&[pt(1, 1), pt(2, 2)], false), Ok(()));
    assert_eq!(t.init_line_segment(&[pt(3, 3)], false), Ok(()));
    assert_eq!(t.e_num(), 1);
    let mut u = Segments::new(4, 100_000_000);
    assert_eq!(u.init_line_segment(&[pt(1, 1), pt(2, 2)], false), Ok(()));
    assert_eq!(u.init_line_segment(&[pt(1, 1), pt(2, 2)], false), Ok(()));
    u.split_edge_no_min(0).unwrap_err();
}

#[test]
fn split_edge_puts_a_vertex_at_the_midpoint() {
    let mut s = Segments::new(10, 100_000_000);
    s.init_line_segment(&[pt(100, 200), pt(300, 500)], true).unwrap();
    s.init_line_segment(&[pt(100, 200), pt(300, 500)], false).unwrap();
    assert_eq!(s.split_edge(1, 100), Ok(()));
    assert_eq!(s.v_num(), 5);
    assert_eq!(s.e_num(), 4);
    assert!(!s.edge_exists(1));
    assert_eq!(s.vertex_position(4), pt(200, 350));
    assert_eq!(s.vertex_status(4), VertexStatus::Active);
    assert_eq!(s.vertex_segment(4), Some(1));
    assert_eq!(s.get_edge_vertices(2), Some((2, 4)));
    assert_eq!(s.get_edge_vertices(3), Some((3, 4)));
    assert_eq!(s.vertex_edges(2), (Some(2), None));
    assert_eq!(s.vertex_edges(3), (Some(3), None));
    assert_eq!(s.vertex_edges(4), (Some(2), Some(3)));
    assert_eq!(s.get_edges(), vec![0, 2, 3]);
    let mut found = Vec::new();
    s.sphere_vertices(4, 0, &mut found);
    assert_eq!(found, vec![4]);
}

#[test]
fn split_edge_fails_softly_on_a_missing_edge() {
    let mut s = Segments::new(10, 100_000_000);
    s.init_line_segment(&[pt(100, 200), pt(300, 500)], false).unwrap();
    assert_eq!(s.split_edge_no_min(5), Err(MeshError::NoSuchEdge));
    assert_eq!(s.split_edge_no_min(0), Ok(()));
    assert_eq!(s.split_edge_no_min(0), Err(MeshError::NoSuchEdge));
    assert_eq!(s.split_edge(0, 1), Err(MeshError::NoSuchEdge));
    assert_eq!(s.v_num(), 3);
    assert_eq!(s.e_num(), 3);
    assert!(MeshError::NoSuchEdge.soft());
}

#[test]
fn split_edge_fails_softly_on_a_vertex_without_segment() {
    let mut s = Segments::new(10, 100_000_000);
    s.add_vertex(10, 10, None).unwrap();
    s.add_vertex(20, 20, Some(0)).unwrap();
    s.add_edge(0, 1).unwrap();
    s.add_edge(1, 0).unwrap();
    assert_eq!(s.split_edge_no_min(0), Err(MeshError::InvalidSegment));
    assert_eq!(s.v_num(), 2);
    assert!(s.edge_exists(0));
    assert_eq!(s.split_edge_no_min(1), Ok(()));
    assert_eq!(s.vertex_segment(2), Some(0));
    assert!(MeshError::InvalidSegment.soft());
}

#[test]
fn split_edge_needs_room_for_one_vertex_and_two_edges() {
    let mut s = Segments::new(3, 100_000_000);
    s.init_line_segment(&[pt(100, 200), pt(300, 500)], false).unwrap();
    assert_eq!(s.split_edge_no_min(0), Ok(()));
    assert_eq!(s.split_edge_no_min(1), Err(MeshError::CapacityExceeded));
    assert_eq!(s.v_num(), 3);
    assert_eq!(s.e_num(), 3);
    assert!(s.edge_exists(1));
    let mut t = Segments::new(3, 100_000_000);
    t.init_circle_segment(&[pt(1, 1), pt(5, 5)]).unwrap();
    assert_eq!(t.split_edge_no_min(0), Err(MeshError::CapacityExceeded));
    assert_eq!(t.split_edge_no_min(7), Err(MeshError::NoSuchEdge));
    assert_eq!(t.v_num(), 2);
    assert!(!MeshError::CapacityExceeded.soft());
    assert!(!MeshError::OutsideUnitSquare.soft());
    assert!(!MeshError::DegenerateShape.soft());
}

#[test]
fn collapse_edge_merges_two_vertices() {
    let mut s = square_loop();
    assert_eq!(s.collapse_edge(1, 300_000_000), Ok(()));
    assert_eq!(s.v_num(), 4);
    assert_eq!(s.e_num(), 5);
    assert!(!s.vertex_exists(1));
    assert_eq!(s.vertex_position(2), pt(600_000_000, 500_000_000));
    assert!(!s.edge_exists(0));
    assert!(!s.edge_exists(1));
    assert_eq!(s.get_edge_vertices(4), Some((0, 2)));
    assert_eq!(s.get_edges_vertices(), vec![(2, 3), (3, 0), (0, 2)]);
    assert_eq!(s.vertex_edges(0), (Some(3), Some(4)));
    assert_eq!(s.vertex_edges(2), (Some(2), Some(4)));
    assert_eq!(s.vertex_edges(1), (None, None));
    let mut found = Vec::new();
    s.sphere_vertices(2, 1, &mut found);
    assert_eq!(found, vec![2]);
    for v in [0, 2, 3] {
        assert_eq!(incident(&s, v), 2);
    }
}

#[test]
fn collapse_edge_needs_room_for_one_edge() {
    let mut s = Segments::new(4, 100_000_000);
    s.init_circle_segment(&[pt(1, 1), pt(5, 1), pt(5, 5), pt(1, 5)]).unwrap();
    assert_eq!(s.collapse_edge_no_max(0), Err(MeshError::CapacityExceeded));
    assert_eq!(s.get_edges_vertices(), vec![(0, 1), (1, 2), (2, 3), (3, 0)]);
    assert_eq!(s.vertex_position(1), pt(5, 1));
    assert!(s.vertex_exists(0));
}

#[test]
fn split_then_collapse_keeps_the_shape() {
    let mut s = square_loop();
    let edges_before = live_edge_count(&s);
    let vertices_before = live_vertex_count(&s);
    assert_eq!(s.split_edge_no_min(1), Ok(()));
    assert_eq!(live_edge_count(&s), edges_before + 1);
    assert_eq!(live_vertex_count(&s), vertices_before + 1);
    assert_eq!(s.get_edge_vertices(4), Some((1, 4)));
    assert_eq!(s.collapse_edge_no_max(4), Ok(()));
    assert_eq!(live_edge_count(&s), edges_before);
    assert_eq!(live_vertex_count(&s), vertices_before);
    assert!(!s.vertex_exists(1));
    assert!(s.vertex_exists(4));
    assert_eq!(s.get_edges_vertices(), vec![(2, 3), (3, 0), (2, 4), (0, 4)]);
    assert_eq!(s.vertex_position(4), pt(600_000_000, 450_000_000));
    for v in [0, 2, 3, 4] {
        assert_eq!(incident(&s, v), 2);
    }
}

#[test]
fn no_vertex_has_more_than_two_edges_after_many_edits() {
    let mut s = square_loop();
    let mut seed: u64 = 11;
    for _ in 0..40 {
        seed = seed.wrapping_mul(6364136223846793005).wrapping_add(1442695040888963407);
        let edges = s.get_edges();
        let e = edges[(seed >> 33) as usize % edges.len()];
        if (seed >> 20) % 3 != 0 || edges.len() <= 3 {
            let _ = s.split_edge_no_min(e);
        } else {
            s.collapse_edge_no_max(e).unwrap();
        }
        for v in 0..s.v_num() {
            let k = incident(&s, v);
            assert!(k <= 2);
            if s.vertex_exists(v) {
                assert_eq!(k, 2);
            } else {
                assert_eq!(k, 0);
            }
        }
        assert_eq!(live_edge_count(&s), live_vertex_count(&s));
    }
}

#[test]
fn split_long_edges_splits_what_is_longer_than_the_limit() {
    let mut s = Segments::new(20, 100_000_000);
    s.init_line_segment(&[pt(0, 0), pt(100, 0), pt(100, 300), pt(100, 301)], false).unwrap();
    assert_eq!(s.split_long_edges(100), Ok(()));
    assert_eq!(s.get_edges_vertices(), vec![(0, 1), (2, 3), (1, 4), (2, 4)]);
    assert_eq!(s.vertex_position(4), pt(100, 150));
    assert_eq!(s.split_long_edges(99), Ok(()));
    assert_eq!(s.get_edges_vertices(), vec![(2, 3), (0, 5), (1, 5), (1, 6), (4, 6), (2, 7), (4, 7)]);
}

#[test]
fn split_long_edges_passes_over_passive_edges() {
    let mut s = Segments::new(20, 100_000_000);
    s.init_passive_line_segment(&[pt(0, 0), pt(1000, 0)]).unwrap();
    s.init_line_segment(&[pt(0, 10), pt(1000, 10), pt(2000, 10)], true).unwrap();
    assert_eq!(s.split_long_edges(10), Ok(()));
    assert_eq!(s.v_num(), 7);
    assert!(s.edge_exists(0));
    assert!(!s.edge_exists(1));
    assert!(!s.edge_exists(2));
}

#[test]
fn split_long_edges_stops_splitting_when_the_mesh_is_full() {
    let mut s = Segments::new(5, 100_000_000);
    s.init_line_segment(&[pt(0, 0), pt(1000, 0), pt(2000, 0)], false).unwrap();
    assert_eq!(s.split_long_edges(10), Err(MeshError::CapacityExceeded));
    assert_eq!(s.v_num(), 4);
    assert_eq!(s.get_edges_vertices(), vec![(1, 2), (0, 3), (1, 3)]);
    assert_eq!(s.split_long_edges(2000), Ok(()));
    assert_eq!(s.v_num(), 4);
}

#[test]
fn splitting_every_edge_of_a_chain_keeps_its_length() {
    let mut s = Segments::new(20, 100_000_000);
    let points = vec![pt(100_000_000, 100_000_000), pt(400_000_000, 500_000_000), pt(900_000_000, 500_000_000)];
    s.init_line_segment(&points, false).unwrap();
    let vertices_before = s.v_num();
    let edges_before = s.get_edges();
    let length_before: u64 = edges_before.iter().map(|e| s.get_edge_length(*e) as u64).sum();
    assert_eq!(length_before, 1_000_000_000);
    for e in edges_before.iter() {
        assert_eq!(s.split_edge_no_min(*e), Ok(()));
    }
    assert_eq!(s.v_num(), vertices_before + edges_before.len());
    let edges_after = s.get_edges();
    assert_eq!(edges_after.len(), 2 * edges_before.len());
    let length_after: u64 = edges_after.iter().map(|e| s.get_edge_length(*e) as u64).sum();
    let epsilon = 8;
    assert!(length_after.abs_diff(length_before) < epsilon);
    assert_eq!(length_after, 1_000_000_000);
}

#[test]
fn split_long_edges_splits_an_edge_that_is_longer_by_less_than_a_unit() {
    let mut s = Segments::new(20, 100_000_000);
    s.init_line_segment(&[pt(0, 0), pt(5, 1)], false).unwrap();
    s.init_line_segment(&[pt(10, 10), pt(15, 10)], false).unwrap();
    assert_eq!(s.get_edge_length(0), 5);
    assert_eq!(s.get_edge_length(1), 5);
    assert_eq!(s.split_long_edges(5), Ok(()));
    assert!(!s.edge_exists(0));
    assert!(s.edge_exists(1));
    assert_eq!(s.get_edges_vertices(), vec![(2, 3), (0, 4), (1, 4)]);
    assert_eq!(s.vertex_position(4), pt(2, 0));
    assert_eq!(s.v_num(), 5);
}

#[test]
fn split_long_edges_leaves_the_halves_alone() {
    let mut s = Segments::new(50, 100_000_000);
    s.init_circle_segment(&[pt(0, 0), pt(1000, 0), pt(1000, 1000), pt(0, 1000)]).unwrap();
    assert_eq!(s.split_long_edges(100), Ok(()));
    assert_eq!(s.v_num(), 8);
    assert_eq!(s.get_edges().len(), 8);
    assert_eq!(s.get_edges(), vec![4, 5, 6, 7, 8, 9, 10, 11]);
    for e in s.get_edges() {
        assert_eq!(s.get_edge_length(e), 500);
    }
}

#[test]
fn grid_cells_rounds_the_number_of_cells() {
    assert_eq!(grid_cells(40_000_000), 25);
    assert_eq!(grid_cells(400_000_000), 3);
    assert_eq!(grid_cells(400_000_001), 1);
    assert_eq!(grid_cells(u32::MAX), 1);
    assert_eq!(grid_cells(1), 1_000_000_000);
    assert_eq!(grid_cells(3), 333_333_333);
    assert!(grid_fits(40_000_000));
    assert!(grid_fits(u32::MAX));
    assert!(!grid_fits(0));
    assert_eq!(grid_fits(1), usize::MAX as u128 >= 1_000_000_000_000_000_000);
}
