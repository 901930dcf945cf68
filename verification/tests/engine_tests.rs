use graph_layout::error::LayoutError;
use graph_layout::fruchterman_reingold::FruchtermanReingold;
use graph_layout::graph::Graph;
use graph_layout::layout::Coord;
use graph_layout::layout::Point;
use graph_layout::scatter::ScatterLayout;
use graph_layout::scatter::ScatterLayoutSequence;
use graph_layout::Engine;

use rand::rngs::StdRng;
use rand::Rng;
use rand::SeedableRng;

/// Create a random graph with given amount of edges and up to given amount
/// of nodes, the node count defined by the largest node id in the edge list.
fn random_graph(nodes: usize, edges: usize, seed: u64) -> Graph {
    let mut rng = StdRng::seed_from_u64(seed);
    let list: Vec<(usize, usize)> = (0..edges)
        .map(|_| (rng.gen_range(0..nodes), rng.gen_range(0..nodes)))
        .collect();
    let mut n: usize = 0;
    for (s, t) in &list {
        n = usize::max(n, *s);
        n = usize::max(n, *t);
    }
    Graph::new(n + 1, list).unwrap()
}

fn graph_from(edges: &[(usize, usize)]) -> Graph {
    let mut n: usize = 0;
    for (s, t) in edges {
        n = usize::max(n, *s);
        n = usize::max(n, *t);
    }
    Graph::new(n + 1, edges.to_vec()).unwrap()
}

/// Some predefined regular graphs helpful for testing and demonstration.
fn defined_graphs() -> Vec<(&'static str, Vec<(usize, usize)>)> {
    vec![
        ("triangle", vec![(0, 1), (1, 2), (2, 0)]),
        ("square", vec![(0, 1), (1, 2), (2, 3), (3, 0)]),
        ("pentagon", vec![(0, 1), (1, 2), (2, 3), (3, 4), (4, 0)]),
        (
            "tetrahedron",
            vec![(0, 1), (1, 2), (2, 0), (0, 3), (1, 3), (2, 3)],
        ),
        (
            "cube",
            vec![
                (0, 1),
                (1, 2),
                (2, 3),
                (3, 0),
                (4, 5),
                (5, 6),
                (6, 7),
                (7, 4),
                (0, 4),
                (1, 5),
                (2, 6),
                (3, 7),
            ],
        ),
        (
            "prism",
            vec![
                (0, 1),
                (1, 2),
                (2, 0),
                (3, 4),
                (4, 5),
                (5, 3),
                (0, 3),
                (1, 4),
                (2, 5),
            ],
        ),
        (
            "disconnected-components",
            vec![(0, 1), (1, 2), (2, 0), (3, 4), (4, 5), (5, 3)],
        ),
    ]
}

fn wrap_frame(frame: &[Point]) -> Vec<(Coord, Coord)> {
    frame
        .iter()
        .map(|p| (Coord::Finite(p.x()), Coord::Finite(p.y())))
        .collect()
}

#[test]
fn fruchterman_reingold_no_panic() {
    fn create_animation(graph: Graph, name: &str) {
        println!("Creating animation for {}", name);
        let sequence: ScatterLayoutSequence = graph.animate(FruchtermanReingold::default()).unwrap();
        let last = wrap_frame(sequence.frame(sequence.frames() - 1).as_slice());
        let graph_again = Graph::new(sequence.graph().nodes(), sequence.graph().edges().clone())
            .unwrap();
        let _: ScatterLayout = ScatterLayout::new(graph_again, last).unwrap();
    }

    for (name, edges) in defined_graphs() {
        create_animation(graph_from(&edges), name);
    }

    for n in (10..25).step_by(5) {
        for e in (20..50).step_by(5) {
            create_animation(random_graph(n, e, 31), &format!("random-{}-{}", n, e));
        }
    }
}

#[test]
fn animate_is_deterministic() {
    let a = graph_from(&[(0, 1), (1, 2), (2, 0)])
        .animate(FruchtermanReingold::new(100, 7))
        .unwrap();
    let b = graph_from(&[(0, 1), (1, 2), (2, 0)])
        .animate(FruchtermanReingold::new(100, 7))
        .unwrap();
    assert_eq!(a.frames(), b.frames());
    for f in 0..a.frames() {
        assert_eq!(a.frame(f), b.frame(f));
    }
}

#[test]
fn compute_is_last_frame_of_animate() {
    let layout = graph_from(&[(0, 1), (1, 2)])
        .layout(FruchtermanReingold::new(80, 3))
        .unwrap();
    let sequence = graph_from(&[(0, 1), (1, 2)])
        .animate(FruchtermanReingold::new(80, 3))
        .unwrap();
    let last = sequence.frame(sequence.frames() - 1);
    for n in 0..3 {
        assert_eq!(layout.coord(n), last[n]);
    }
}

#[test]
fn frame_shapes_match_node_count() {
    for &n in &[1usize, 2, 10, 100] {
        let g = Graph::new(n, Vec::new()).unwrap();
        let s = g.animate(FruchtermanReingold::new(150, 1)).unwrap();
        assert_eq!(s.frames(), 201);
        for f in 0..s.frames() {
            assert_eq!(s.frame(f).len(), n);
        }
    }
}

#[test]
fn coordinates_stay_finite() {
    // Construction of the returned sequence already rejects any non-finite
    // coordinate, so a successful run is the property; the bounding box puts
    // every coordinate of every frame in a finite range.
    for seed in 0..100u64 {
        for &n in &[1usize, 5, 20] {
            let g = random_graph(n, 2 * n, seed ^ 0x5eed);
            let s = g.animate(FruchtermanReingold::new(150, seed)).unwrap();
            assert_eq!(s.frames(), 201);
        }
    }
}

#[test]
fn displacement_is_capped_by_cooling_temperature() {
    // For a 4-node graph with k = 150: l = isqrt(4) * 150 = 300, t0 = 15.
    // The temperature used at step s is t0 for s = 0 and
    // ((200 - (s - 1)) * t0) / 200 afterwards; it never increases, and no
    // node may move farther than the current temperature in one step along
    // either axis.
    let t0: i64 = 15;
    let temp = |s: i64| -> i64 {
        if s == 0 {
            t0
        } else {
            ((200 - (s - 1)) * t0) / 200
        }
    };
    for s in 0..200i64 {
        assert!(temp(s + 1) <= temp(s));
    }
    let g = graph_from(&[(0, 1), (1, 2), (2, 3), (3, 0)]);
    let seq = g.animate(FruchtermanReingold::new(150, 11)).unwrap();
    for s in 0..200usize {
        let t = temp(s as i64);
        for n in 0..4 {
            let a = seq.coord(s, n);
            let b = seq.coord(s + 1, n);
            assert!((b.x() - a.x()).abs() <= t);
            assert!((b.y() - a.y()).abs() <= t);
        }
    }
}

#[test]
fn empty_graph_is_rejected() {
    let g = Graph::new(0, Vec::new()).unwrap();
    let r = g.animate(FruchtermanReingold::default());
    assert_eq!(r.err(), Some(LayoutError::EmptyGraph));
    let g = Graph::new(0, Vec::new()).unwrap();
    let r = g.layout(FruchtermanReingold::default());
    assert_eq!(r.err(), Some(LayoutError::EmptyGraph));
}

#[test]
fn four_cycle_scenario() {
    // A 4-node cycle with k = 150 and seed 0: 201 frames, frame 0 uniform in
    // [-l/2, l/2] with l = isqrt(4) * 150 = 300, and in the settled frame the
    // edge-connected pairs sit closer, on average, than the two diagonals.
    let g = graph_from(&[(0, 1), (1, 2), (2, 3), (3, 0)]);
    let seq = g.animate(FruchtermanReingold::new(150, 0)).unwrap();
    assert_eq!(seq.frames(), 201);
    for n in 0..4 {
        let p = seq.coord(0, n);
        assert!(-150 <= p.x() && p.x() <= 150);
        assert!(-150 <= p.y() && p.y() <= 150);
    }
    let d = |a: Point, b: Point| -> f64 {
        let dx = (a.x() - b.x()) as f64;
        let dy = (a.y() - b.y()) as f64;
        (dx * dx + dy * dy).sqrt()
    };
    let last = seq.frames() - 1;
    let p: Vec<Point> = (0..4).map(|n| seq.coord(last, n)).collect();
    let adjacent = (d(p[0], p[1]) + d(p[1], p[2]) + d(p[2], p[3]) + d(p[3], p[0])) / 4.0;
    let diagonal = (d(p[0], p[2]) + d(p[1], p[3])) / 2.0;
    assert!(adjacent < diagonal);
}
