use quadtree::Point;
use quadtree::QuadError;
use quadtree::QuadTree;
use quadtree::Rectangle;

fn root_10() -> QuadTree {
    let boundary = Rectangle::new(0, 0, 10, 10).unwrap();
    QuadTree::new(boundary, 1).unwrap()
}

#[test]
fn contains_is_strict_interior() {
    let r = Rectangle::new(0, 0, 10, 10).unwrap();
    assert!(r.contains(Point::new(0, 0)));
    assert!(r.contains(Point::new(9, -9)));
    assert!(!r.contains(Point::new(10, 0)));
    assert!(!r.contains(Point::new(-10, 0)));
    assert!(!r.contains(Point::new(0, 10)));
    assert!(!r.contains(Point::new(0, -10)));
    assert!(!r.contains(Point::new(11, 0)));
}

#[test]
fn rectangle_rejects_degenerate_extents() {
    assert_eq!(Rectangle::new(0, 0, 0, 5), Err(QuadError::InvalidConstruction));
    assert_eq!(Rectangle::new(0, 0, 5, -1), Err(QuadError::InvalidConstruction));
    assert_eq!(Rectangle::new(i64::MAX, 0, 10, 10), Err(QuadError::InvalidConstruction));
    assert_eq!(Rectangle::new(0, i64::MIN + 1, 10, 10), Err(QuadError::InvalidConstruction));
    let ok = Rectangle::new(3, -4, 5, 6).unwrap();
    assert_eq!((ok.x, ok.y, ok.w, ok.h), (3, -4, 5, 6));
}

#[test]
fn tree_rejects_degenerate_boundary() {
    let bad = Rectangle { x: 0, y: 0, w: 0, h: 5 };
    assert!(matches!(QuadTree::new(bad, 4), Err(QuadError::InvalidConstruction)));
}

#[test]
fn scenario_two_points_capacity_one() {
    // Root centered (0,0) with half-extents (10,10), capacity 1.
    let mut qt = root_10();
    assert!(qt.insert(Point::new(1, 1)));
    assert!(!qt.is_divided());
    assert_eq!(qt.points().len(), 1);
    assert_eq!(qt.points()[0], Point::new(1, 1));

    // The second point forces a subdivision; the root's list freezes.
    assert!(qt.insert(Point::new(2, 2)));
    assert!(qt.is_divided());
    assert_eq!(qt.points().len(), 1);
    assert_eq!(qt.points()[0], Point::new(1, 1));

    // The children quarter the boundary exactly (north = smaller y).
    let ne = qt.northeast().unwrap();
    let nw = qt.northwest().unwrap();
    let se = qt.southeast().unwrap();
    let sw = qt.southwest().unwrap();
    assert_eq!(ne.boundary(), Rectangle { x: 5, y: -5, w: 5, h: 5 });
    assert_eq!(nw.boundary(), Rectangle { x: -5, y: -5, w: 5, h: 5 });
    assert_eq!(se.boundary(), Rectangle { x: 5, y: 5, w: 5, h: 5 });
    assert_eq!(sw.boundary(), Rectangle { x: -5, y: 5, w: 5, h: 5 });
    assert_eq!(ne.capacity(), 1);

    // Exactly one child accepted (2,2): the quadrant with positive x and y.
    let stored: Vec<usize> =
        [ne, nw, se, sw].iter().map(|c| c.points().len()).collect();
    assert_eq!(stored.iter().sum::<usize>(), 1);
    assert_eq!(se.points().len(), 1);
    assert_eq!(se.points()[0], Point::new(2, 2));
    assert_eq!(qt.total_points(), 2);
}

#[test]
fn scenario_five_points_capacity_four() {
    // Five points inside one quadrant: exactly one subdivision, and the
    // fifth point lands in exactly one child.
    let boundary = Rectangle::new(0, 0, 100, 100).unwrap();
    let mut qt = QuadTree::new(boundary, 4).unwrap();
    let pts = [
        Point::new(10, 10),
        Point::new(20, 10),
        Point::new(10, 20),
        Point::new(20, 20),
        Point::new(30, 30),
    ];
    for p in pts {
        assert!(qt.insert(p));
    }
    assert!(qt.is_divided());
    assert_eq!(qt.points().len(), 4);
    let children = [
        qt.northeast().unwrap(),
        qt.northwest().unwrap(),
        qt.southeast().unwrap(),
        qt.southwest().unwrap(),
    ];
    for c in &children {
        assert!(!c.is_divided());
    }
    let stored: Vec<usize> = children.iter().map(|c| c.points().len()).collect();
    assert_eq!(stored.iter().sum::<usize>(), 1);
    assert_eq!(qt.total_points(), 5);
}

#[test]
fn scenario_left_edge_point_rejected() {
    // A point exactly on the left edge, (x-w, y), is dropped unchanged.
    let mut qt = root_10();
    assert!(qt.insert(Point::new(1, 1)));
    let before = qt.serialize();
    assert!(!qt.insert(Point::new(-10, 0)));
    assert_eq!(qt.serialize(), before);
    assert_eq!(qt.total_points(), 1);
}

#[test]
fn outside_point_never_mutates() {
    let mut qt = root_10();
    let before = qt.serialize();
    assert!(!qt.insert(Point::new(11, 0)));
    assert!(!qt.insert(Point::new(0, -11)));
    assert!(!qt.insert(Point::new(10, 10)));
    assert_eq!(qt.serialize(), before);
    assert_eq!(qt.total_points(), 0);
}

#[test]
fn conservation_many_accepted_points() {
    // Points strictly inside and off every dividing line (odd coordinates,
    // lines fall on even ones here): every insertion stores exactly one.
    let boundary = Rectangle::new(0, 0, 128, 128).unwrap();
    let mut qt = QuadTree::new(boundary, 2).unwrap();
    let pts = [
        Point::new(-99, -99),
        Point::new(-65, 35),
        Point::new(-33, -7),
        Point::new(-1, 77),
        Point::new(1, -87),
        Point::new(33, 13),
        Point::new(65, -45),
        Point::new(99, 99),
    ];
    let mut n = 0u64;
    for p in pts {
        assert!(qt.insert(p));
        n += 1;
        assert_eq!(qt.total_points(), n);
    }
    // Conservation over the walk: per-node lists sum to the same total.
    let sum: usize = qt.walk().iter().map(|r| r.points.len()).sum();
    assert_eq!(sum as u64, n);
}

#[test]
fn leaves_respect_capacity() {
    let boundary = Rectangle::new(0, 0, 64, 64).unwrap();
    let mut qt = QuadTree::new(boundary, 3).unwrap();
    for k in 0..30i64 {
        qt.insert(Point::new(2 * k - 31, (k * k) % 50 - 25));
    }
    for rec in qt.walk() {
        if !rec.divided {
            assert!(rec.points.len() <= 3);
        } else {
            assert_eq!(rec.points.len(), 3);
        }
    }
}

#[test]
fn walk_visits_node_then_children_in_order() {
    let mut qt = root_10();
    qt.insert(Point::new(1, 1));
    qt.insert(Point::new(2, 2));
    let recs = qt.walk();
    assert_eq!(recs.len(), 5);
    assert_eq!(recs[0].boundary, Rectangle { x: 0, y: 0, w: 10, h: 10 });
    assert!(recs[0].divided);
    assert_eq!(recs[0].points, vec![Point::new(1, 1)]);
    assert_eq!(recs[1].boundary, Rectangle { x: 5, y: -5, w: 5, h: 5 });
    assert_eq!(recs[2].boundary, Rectangle { x: -5, y: -5, w: 5, h: 5 });
    assert_eq!(recs[3].boundary, Rectangle { x: 5, y: 5, w: 5, h: 5 });
    assert_eq!(recs[4].boundary, Rectangle { x: -5, y: 5, w: 5, h: 5 });
}

#[test]
fn round_trip_reproduces_tree() {
    let boundary = Rectangle::new(-8, 12, 100, 60).unwrap();
    let mut qt = QuadTree::new(boundary, 2).unwrap();
    for k in 0..15i64 {
        qt.insert(Point::new(-8 + 5 * k - 33, 12 + 3 * k - 20));
    }
    let bytes = qt.serialize();
    let back = QuadTree::deserialize(&bytes).unwrap();
    assert_eq!(back.serialize(), bytes);
    assert_eq!(back.boundary(), qt.boundary());
    assert_eq!(back.capacity(), qt.capacity());
    assert_eq!(back.is_divided(), qt.is_divided());
    assert_eq!(back.total_points(), qt.total_points());
    let (a, b) = (qt.walk(), back.walk());
    assert_eq!(a.len(), b.len());
    for (x, y) in a.iter().zip(b.iter()) {
        assert_eq!(x.boundary, y.boundary);
        assert_eq!(x.divided, y.divided);
        assert_eq!(x.points, y.points);
    }
}

#[test]
fn round_trip_empty_tree() {
    let qt = root_10();
    let bytes = qt.serialize();
    assert_eq!(bytes[0], b'B');
    let back = QuadTree::deserialize(&bytes).unwrap();
    assert_eq!(back.serialize(), bytes);
    assert_eq!(back.total_points(), 0);
}

#[test]
fn deserialize_rejects_malformed_buffers() {
    match QuadTree::deserialize(&[]) {
        Err(e) => assert_eq!(e, QuadError::MalformedData),
        Ok(_) => panic!("an empty buffer must be refused"),
    }
}

#[test]
fn deserialize_rejects_damage() {
    let mut qt = root_10();
    qt.insert(Point::new(1, 1));
    let bytes = qt.serialize();

    // truncated
    let cut = &bytes[..bytes.len() - 1];
    assert!(QuadTree::deserialize(cut).is_err());

    // trailing garbage
    let mut longer = bytes.clone();
    longer.push(0);
    assert!(QuadTree::deserialize(&longer).is_err());

    // wrong leading tag
    let mut wrong = bytes.clone();
    wrong[0] = b'Z';
    assert!(QuadTree::deserialize(&wrong).is_err());

    // a divided flag that is neither 0 nor 1
    let mut flag = bytes.clone();
    let last = flag.len() - 1;
    flag[last] = 7;
    assert!(QuadTree::deserialize(&flag).is_err());
}

#[test]
fn deserialize_rejects_invariant_breaking_encoding() {
    // A degenerate boundary (w = 0) in an otherwise well-shaped record.
    let qt = root_10();
    let mut bytes = qt.serialize();
    // The w field sits after tag B and two coordinates: offset 1 + 16.
    // Overwrite its eight bytes with the encoding of zero (offset code
    // 2^63 = little-endian 00..0080).
    for k in 0..7 {
        bytes[17 + k] = 0;
    }
    bytes[24] = 0x80;
    match QuadTree::deserialize(&bytes) {
        Err(e) => assert_eq!(e, QuadError::MalformedData),
        Ok(_) => panic!("a degenerate boundary must be refused"),
    }
}

#[test]
fn capacity_zero_tree_stores_nothing() {
    let boundary = Rectangle::new(0, 0, 10, 10).unwrap();
    let mut qt = QuadTree::new(boundary, 0).unwrap();
    assert!(!qt.insert(Point::new(1, 1)));
    assert_eq!(qt.total_points(), 0);
}

#[test]
fn full_node_too_small_to_split_drops_points() {
    // A region of half-extent 1 holds only its center and cannot quarter.
    let boundary = Rectangle::new(0, 0, 1, 1).unwrap();
    let mut qt = QuadTree::new(boundary, 1).unwrap();
    assert!(qt.insert(Point::new(0, 0)));
    assert!(!qt.insert(Point::new(0, 0)));
    assert!(!qt.is_divided());
    assert_eq!(qt.total_points(), 1);
}

#[test]
fn point_on_dividing_line_is_dropped_after_subdivision() {
    // (0, 3) lies on the shared vertical line of all four quadrants.
    let mut qt = root_10();
    assert!(qt.insert(Point::new(0, 3)));
    assert!(qt.insert(Point::new(1, 1)));
    // Root is now divided; a further point on the line is accepted by no
    // child and silently dropped.
    assert!(qt.is_divided());
    assert!(!qt.insert(Point::new(0, 5)));
    assert_eq!(qt.total_points(), 2);
}
