use graph_layout::error::LayoutError;
use graph_layout::graph::Graph;
use graph_layout::layout::BoundingBox;
use graph_layout::layout::Coord;
use graph_layout::layout::Point;
use graph_layout::scatter::ScatterLayout;
use graph_layout::scatter::ScatterLayoutSequence;

use rand::rngs::StdRng;
use rand::Rng;
use rand::SeedableRng;

/// Create a random graph with given amount of edges and up to given amount
/// of nodes, the node count defined by the largest node id in the edge list.
fn random_graph(nodes: usize, edges: usize, seed: u64) -> Graph {
    let mut rng = StdRng::seed_from_u64(seed);
    let list: Vec<(usize, usize)> = (0..edges)
        .map(|_| (rng.gen_range(0..nodes), rng.gen_range(0..nodes)))
        .collect();
    let mut n: usize = 0;
    for (s, t) in &list {
        n = usize::max(n, *s);
        n = usize::max(n, *t);
    }
    Graph::new(n + 1, list).unwrap()
}

fn finite_rows(rows: &[(i64, i64)]) -> Vec<(Coord, Coord)> {
    rows.iter()
        .map(|&(x, y)| (Coord::Finite(x), Coord::Finite(y)))
        .collect()
}

#[test]
fn fail_on_nan() {
    let rows = vec![
        (Coord::NotANumber, Coord::NotANumber),
        (Coord::NotANumber, Coord::NotANumber),
    ];
    assert!(ScatterLayout::new(random_graph(2, 2, 2), rows).is_err());
}

#[test]
fn fail_on_inf() {
    let rows = vec![
        (Coord::Infinite, Coord::Infinite),
        (Coord::Infinite, Coord::Infinite),
    ];
    assert!(ScatterLayout::new(random_graph(2, 2, 2), rows).is_err());
}

#[test]
fn fail_on_count_mismatch() {
    let rows = finite_rows(&[(1, 1), (1, 1), (1, 1)]);
    assert!(ScatterLayout::new(random_graph(2, 2, 2), rows).is_err());
}

#[test]
fn success() {
    let rows = finite_rows(&[(0, 0), (1, 1)]);
    ScatterLayout::new(random_graph(2, 2, 2), rows).unwrap();
    let rows = finite_rows(&[(0, 0), (1, 1)]);
    assert!(ScatterLayout::new(random_graph(2, 2, 2), rows).is_ok());
}

fn two_node_graph() -> Graph {
    Graph::new(2, vec![(0, 1)]).unwrap()
}

#[test]
fn shape_mismatch_variant() {
    let rows = finite_rows(&[(0, 0)]);
    let r = ScatterLayout::new(two_node_graph(), rows);
    assert_eq!(r.err(), Some(LayoutError::ShapeMismatch));
}

#[test]
fn nan_variant_beats_infinite() {
    // A not-a-number mark is reported even when an infinite value is there too.
    let rows = vec![
        (Coord::Finite(0), Coord::Infinite),
        (Coord::NotANumber, Coord::Finite(1)),
    ];
    let r = ScatterLayout::new(two_node_graph(), rows);
    assert_eq!(r.err(), Some(LayoutError::NonFiniteCoordinate));
}

#[test]
fn infinite_variant() {
    let rows = vec![
        (Coord::Finite(0), Coord::Finite(0)),
        (Coord::Infinite, Coord::Finite(1)),
    ];
    let r = ScatterLayout::new(two_node_graph(), rows);
    assert_eq!(r.err(), Some(LayoutError::InfiniteBoundingBox));
}

#[test]
fn zero_node_layout_is_rejected() {
    let g = Graph::new(0, Vec::new()).unwrap();
    let r = ScatterLayout::new(g, Vec::new());
    assert_eq!(r.err(), Some(LayoutError::EmptyGraph));
}

#[test]
fn invalid_edge_is_rejected() {
    let r = Graph::new(2, vec![(0, 2)]);
    assert_eq!(r.err(), Some(LayoutError::InvalidEdge));
}

#[test]
fn graph_accessors() {
    let g = Graph::new(3, vec![(0, 1), (1, 2)]).unwrap();
    assert_eq!(g.nodes(), 3);
    assert_eq!(g.edges().as_slice(), &[(0, 1), (1, 2)]);
}

#[test]
fn bounding_box_of_layout() {
    let rows = finite_rows(&[(-3, 7), (5, -2), (1, 1)]);
    let g = Graph::new(3, Vec::new()).unwrap();
    let l = ScatterLayout::new(g, rows).unwrap();
    let b = l.bbox();
    assert_eq!((b.lower_left().x(), b.lower_left().y()), (-3, -2));
    assert_eq!((b.upper_right().x(), b.upper_right().y()), (5, 7));
    assert_eq!(b.width(), 8);
    assert_eq!(b.height(), 9);
    assert_eq!(b.area(), 72);
    assert_eq!(l.coord(0), Point(-3, 7));
    assert_eq!(l.coord(2), Point(1, 1));
}

#[test]
fn transform_exact_values() {
    let rows = finite_rows(&[(0, 0), (10, 10), (5, 0)]);
    let g = Graph::new(3, Vec::new()).unwrap();
    let l = ScatterLayout::new(g, rows).unwrap();
    let target = BoundingBox::new(Point(0, 0), Point(100, 100)).unwrap();
    let t = l.transform(&target).unwrap();
    assert_eq!(t.coord(0), Point(0, 0));
    assert_eq!(t.coord(1), Point(100, 100));
    assert_eq!(t.coord(2), Point(50, 0));
}

#[test]
fn transform_roundtrip_is_identity() {
    let rows = finite_rows(&[(-4, 2), (9, -11), (3, 5), (0, 0)]);
    let g = Graph::new(4, Vec::new()).unwrap();
    let l = ScatterLayout::new(g, rows).unwrap();
    let own = *l.bbox();
    let t = l.transform(&own).unwrap();
    assert_eq!(t.coord(0), Point(-4, 2));
    assert_eq!(t.coord(1), Point(9, -11));
    assert_eq!(t.coord(2), Point(3, 5));
    assert_eq!(t.coord(3), Point(0, 0));
}

#[test]
fn transform_degenerate_source_fails() {
    // A single node spans a zero-extent box, which cannot be rescaled.
    let rows = finite_rows(&[(4, 4)]);
    let g = Graph::new(1, Vec::new()).unwrap();
    let l = ScatterLayout::new(g, rows).unwrap();
    let target = BoundingBox::new(Point(0, 0), Point(10, 10)).unwrap();
    let r = l.transform(&target);
    assert_eq!(r.err(), Some(LayoutError::DegenerateBoundingBox));
}

#[test]
fn bounding_box_misordered_corners() {
    let r = BoundingBox::new(Point(5, 0), Point(0, 5));
    assert_eq!(r.err(), Some(LayoutError::DegenerateBoundingBox));
}

#[test]
fn empty_sequence_is_rejected() {
    let g = Graph::new(1, Vec::new()).unwrap();
    let r = ScatterLayoutSequence::new(g, Vec::new());
    assert_eq!(r.err(), Some(LayoutError::EmptySequence));
}

#[test]
fn sequence_joint_bounding_box() {
    let g = Graph::new(2, vec![(0, 1)]).unwrap();
    let frames = vec![
        finite_rows(&[(0, 0), (4, 4)]),
        finite_rows(&[(-2, 1), (3, 9)]),
    ];
    let s = ScatterLayoutSequence::new(g, frames).unwrap();
    assert_eq!(s.frames(), 2);
    let b = s.bbox();
    assert_eq!((b.lower_left().x(), b.lower_left().y()), (-2, 0));
    assert_eq!((b.upper_right().x(), b.upper_right().y()), (4, 9));
    assert_eq!(s.coord(1, 0), Point(-2, 1));
    assert_eq!(s.frame(0)[1], Point(4, 4));
}

#[test]
fn sequence_transform_uses_joint_box() {
    let g = Graph::new(2, Vec::new()).unwrap();
    let frames = vec![
        finite_rows(&[(0, 0), (10, 10)]),
        finite_rows(&[(5, 5), (10, 0)]),
    ];
    let s = ScatterLayoutSequence::new(g, frames).unwrap();
    let target = BoundingBox::new(Point(0, 0), Point(100, 100)).unwrap();
    let t = s.transform(&target).unwrap();
    assert_eq!(t.coord(0, 0), Point(0, 0));
    assert_eq!(t.coord(0, 1), Point(100, 100));
    assert_eq!(t.coord(1, 0), Point(50, 50));
    assert_eq!(t.coord(1, 1), Point(100, 0));
}
