use differential_growth::differential_line::DifferentialLine;
use differential_growth::geometry::squared_distance;
use differential_growth::geometry::Point;
use differential_growth::geometry::SCALE;
use differential_growth::growth::spawn;
use differential_growth::growth::FAR_L;
use differential_growth::growth::NEAR_L;
use differential_growth::growth::STEP;
use differential_growth::segments::Segments;

fn ring(n: usize, radius: f64) -> Vec<Point> {
    let mut points = Vec::new();
    for i in 0..n {
        let theta = std::f64::consts::TAU * i as f64 / n as f64;
        let x = ((0.5 + radius * theta.cos()) * SCALE as f64).round() as u32;
        let y = ((0.5 + radius * theta.sin()) * SCALE as f64).round() as u32;
        points.push(Point { x, y });
    }
    points
}

fn check_mesh(s: &Segments, far_l: u32) {
    let ends = s.get_edges_vertices();
    let mut degree = vec![0usize; s.v_num()];
    for (a, b) in ends.iter() {
        assert_ne!(a, b);
        assert!(s.vertex_exists(*a));
        assert!(s.vertex_exists(*b));
        degree[*a] += 1;
        degree[*b] += 1;
    }
    let mut found = Vec::new();
    for v in 0..s.v_num() {
        assert!(degree[v] <= 2);
        let slots = s.vertex_edges(v);
        let recorded = slots.0.is_some() as usize + slots.1.is_some() as usize;
        assert_eq!(recorded, degree[v]);
        let p = s.vertex_position(v);
        assert!(p.x <= SCALE && p.y <= SCALE);
        if !s.vertex_exists(v) {
            continue;
        }
        let n = s.sphere_vertices(v, far_l, &mut found);
        assert!(n <= s.get_max_sphere_count());
        found.sort();
        let mut expected = Vec::new();
        for u in 0..s.v_num() {
            if s.vertex_exists(u)
                && squared_distance(p, s.vertex_position(u)) <= (far_l as u64) * (far_l as u64)
            {
                expected.push(u);
            }
        }
        assert_eq!(found, expected);
    }
}

#[test]
fn a_growing_ring_stays_a_well_formed_loop() {
    let mut df = DifferentialLine::new(4000, FAR_L, NEAR_L, FAR_L);
    df.segments_mut().init_circle_segment(&ring(60, 0.03)).unwrap();
    check_mesh(df.segments(), FAR_L);
    for round in 0..120 {
        df.optimize_position(STEP);
        assert_eq!(spawn(&mut df, NEAR_L, SCALE / 50), Ok(()));
        if round % 10 == 0 {
            check_mesh(df.segments(), FAR_L);
        }
    }
    check_mesh(df.segments(), FAR_L);
    let vertices = df.segments().v_num();
    assert!(vertices > 60);
    assert_eq!(df.segments().get_edges().len(), vertices);
    let mut order = Vec::new();
    assert_eq!(df.segments().np_get_sorted_vertices(&mut order), vertices);
    let edges = df.segments().get_edges_vertices();
    for i in 0..order.len() {
        let a = order[i];
        let b = order[(i + 1) % order.len()];
        assert!(edges.iter().any(|(x, y)| (*x == a && *y == b) || (*x == b && *y == a)));
    }
    order.sort();
    order.dedup();
    assert_eq!(order.len(), vertices);
}

#[test]
fn splits_and_collapses_keep_the_grid_in_step() {
    let mut df = DifferentialLine::new(500, FAR_L, NEAR_L, FAR_L);
    df.segments_mut().init_circle_segment(&ring(12, 0.3)).unwrap();
    let mut seed: u64 = 5;
    for _ in 0..150 {
        seed = seed.wrapping_mul(6364136223846793005).wrapping_add(1442695040888963407);
        let edges = df.segments().get_edges();
        let e = edges[(seed >> 33) as usize % edges.len()];
        if (seed >> 13) % 2 == 0 || edges.len() <= 3 {
            df.segments_mut().split_edge_no_min(e).unwrap();
        } else {
            df.segments_mut().collapse_edge_no_max(e).unwrap();
        }
    }
    check_mesh(df.segments(), FAR_L);
    check_mesh(df.segments(), FAR_L / 3);
    let live = df.segments().get_edges().len();
    let mut coords = Vec::new();
    assert_eq!(df.segments().np_get_vertex_coordinates(&mut coords), live);
}

#[test]
fn a_locked_chain_keeps_its_ends_while_it_relaxes() {
    let mut df = DifferentialLine::new(500, FAR_L, NEAR_L, FAR_L);
    let mut points = Vec::new();
    for i in 0..20u32 {
        points.push(Point { x: 300_000_000 + i * 10_000_000, y: 500_000_000 + (i % 2) * 3_000_000 });
    }
    df.segments_mut().init_line_segment(&points, true).unwrap();
    for _ in 0..30 {
        df.optimize_position(STEP);
    }
    assert_eq!(df.segments().vertex_position(0), points[0]);
    assert_eq!(df.segments().vertex_position(19), points[19]);
    assert_ne!(df.segments().vertex_position(5), points[5]);
    assert_eq!(df.segments().get_edges().len(), 19);
    check_mesh(df.segments(), FAR_L);
}
