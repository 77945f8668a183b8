//! The field, its grid, and rectangles on it.

use mission_control::geometry::{
    clamp_position, columns, grid_position, is_click, node_in_rect, nodes_bbox, normalize_rect,
    Rect, CELL_HEIGHT, CELL_WIDTH, FIELD_HEIGHT, FIELD_WIDTH, GRID_MARGIN, HOME_WIDTH, NODE_HEIGHT,
    NODE_WIDTH,
};
use mission_control::graph::{connected_components, dependencies, neighbors};
use mission_control::model::Position;
use mission_control::number::{
    hold, less, maximum, minimum, narrow, number, order_rank, round_single, same_number, whole,
};

fn bits(x: f32) -> u64 {
    f64::from(x).to_bits()
}

fn at(x: f32, y: f32) -> Position {
    Position { x: bits(x), y: bits(y) }
}

fn point(p: Position) -> (f32, f32) {
    (f64::from_bits(p.x) as f32, f64::from_bits(p.y) as f32)
}

fn grid(ix: usize, count: usize) -> (f32, f32) {
    point(grid_position(ix, count))
}

/// A node of the standard size, by its corners.
fn node(x: f32, y: f32) -> (Position, Position) {
    (at(x, y), at(x + NODE_WIDTH as f32, y + NODE_HEIGHT as f32))
}

#[test]
fn grid_is_deterministic_row_major_centered_and_in_bounds() {
    let cols = columns();
    assert!(cols >= 2);
    // Second row starts below the first, same column.
    let (x0, y0) = grid(0, 400);
    let (x_wrap, y_wrap) = grid(cols, 400);
    assert_eq!(x_wrap, x0);
    assert_eq!(y_wrap, y0 + CELL_HEIGHT as f32);
    for ix in 0..400 {
        let (x, y) = grid(ix, 400);
        assert!(x >= GRID_MARGIN as f32 && x + NODE_WIDTH as f32 <= FIELD_WIDTH as f32);
        assert!(
            y >= GRID_MARGIN as f32 && y + NODE_HEIGHT as f32 <= FIELD_HEIGHT as f32,
            "ix {ix} y {y}"
        );
    }
    // The grid centers in the field: a small grid starts near the
    // middle, not at the top-left margin.
    let (x_small, y_small) = grid(0, 4);
    assert!(x_small > FIELD_WIDTH as f32 / 4.0);
    assert!(y_small > FIELD_HEIGHT as f32 / 4.0);
    // Centering is count-stable per node index within one layout.
    assert_eq!(grid(1, 4).1, y_small);
}

/// The grid computed in single precision.
fn single_grid(ix: usize, count: usize) -> (f32, f32) {
    let (cell_w, cell_h) = (CELL_WIDTH as f32, CELL_HEIGHT as f32);
    let (node_w, node_h) = (NODE_WIDTH as f32, NODE_HEIGHT as f32);
    let margin = GRID_MARGIN as f32;
    let cols = (((HOME_WIDTH as f32 - 2.0 * margin) / cell_w) as usize).max(1);
    let count = count.max(1);
    let width = cols.min(count) as f32 * cell_w - (cell_w - node_w);
    let height = count.div_ceil(cols) as f32 * cell_h - (cell_h - node_h);
    let x = ((FIELD_WIDTH as f32 - width) / 2.0).max(margin);
    let y = ((FIELD_HEIGHT as f32 - height) / 2.0).max(margin);
    (x + (ix % cols) as f32 * cell_w, y + (ix / cols) as f32 * cell_h)
}

#[test]
fn grid_agrees_with_single_precision() {
    for count in [0, 1, 3, 6, 7, 50, 1277, 1278, 1279, 1280, 5000] {
        for ix in [0, 1, 5, 6, 7, 100, 9999] {
            assert_eq!(grid(ix, count), single_grid(ix, count), "{ix} of {count}");
        }
    }
    for ix in [1_000_001, 99_999_999, 123_456_789_012, usize::MAX] {
        assert_eq!(grid(ix, 10), single_grid(ix, 10), "{ix}");
    }
    assert_eq!(grid(0, 1), (2288.0, 9562.0));
}

#[test]
fn grid_cells_are_all_different() {
    let cells: std::collections::BTreeSet<(u64, u64)> = (0..1200)
        .map(|ix| grid_position(ix, 1200))
        .map(|p| (p.x, p.y))
        .collect();
    assert_eq!(cells.len(), 1200);
}

#[test]
fn clamp_keeps_nodes_reachable() {
    assert_eq!(point(clamp_position(at(-50.0, -50.0))), (0.0, 0.0));
    let (x, y) = point(clamp_position(at(1e6, 1e6)));
    assert_eq!(
        (x, y),
        ((FIELD_WIDTH - NODE_WIDTH) as f32, (FIELD_HEIGHT - NODE_HEIGHT) as f32)
    );
}

#[test]
fn clamping_leaves_the_field_alone() {
    assert_eq!(clamp_position(at(17.5, 18.25)), at(17.5, 18.25));
    assert_eq!(clamp_position(at(-0.0, 0.0)), at(-0.0, 0.0));
    let nan = clamp_position(at(f32::NAN, f32::INFINITY));
    assert!(point(nan).0.is_nan());
    assert_eq!(point(nan).1, (FIELD_HEIGHT - NODE_HEIGHT) as f32);
}

#[test]
fn click_slop_separates_clicks_from_drags() {
    assert!(is_click(bits(0.0), bits(0.0)));
    assert!(is_click(bits(-3.0), bits(3.0)));
    assert!(!is_click(bits(4.0), bits(0.0)));
    assert!(!is_click(bits(0.0), bits(-10.0)));
}

#[test]
fn what_is_not_a_number_is_no_click() {
    assert!(!is_click(bits(f32::NAN), bits(0.0)));
    assert!(!is_click(bits(0.0), bits(f32::NEG_INFINITY)));
    assert!(!is_click(bits(3.0000002), bits(0.0)));
}

#[test]
fn rect_normalizes_any_corner_order() {
    let rect = |a: (f32, f32), b: (f32, f32)| {
        let r = normalize_rect(at(a.0, a.1), at(b.0, b.1));
        let (min, max) = (point(r.min), point(r.max));
        (min.0, min.1, max.0, max.1)
    };
    assert_eq!(rect((10.0, 20.0), (5.0, 40.0)), (5.0, 20.0, 10.0, 40.0));
    assert_eq!(rect((0.0, 0.0), (3.0, 4.0)), (0.0, 0.0, 3.0, 4.0));
}

#[test]
fn node_rect_intersection() {
    let rect = Rect { min: at(100.0, 100.0), max: at(300.0, 200.0) };
    let inside = |x: f32, y: f32| {
        let (corner, far) = node(x, y);
        node_in_rect(corner, far, rect)
    };
    // Fully inside.
    assert!(inside(120.0, 120.0));
    // Overlapping the left edge (node extends into the rect).
    assert!(inside(100.0 - NODE_WIDTH as f32 + 1.0, 150.0));
    // Entirely left of the rect.
    assert!(!inside(100.0 - NODE_WIDTH as f32 - 1.0, 150.0));
    // Entirely below.
    assert!(!inside(150.0, 201.0));
    // Only touching.
    assert!(!inside(300.0, 150.0));
    assert!(!inside(150.0, 100.0 - NODE_HEIGHT as f32));
}

#[test]
fn bbox_spans_node_extents() {
    assert_eq!(nodes_bbox(&Vec::new()), None);
    let bbox = nodes_bbox(&vec![node(10.0, 20.0), node(200.0, 5.0)]).unwrap();
    assert_eq!(point(bbox.min), (10.0, 5.0));
    assert_eq!(
        point(bbox.max),
        (200.0 + NODE_WIDTH as f32, 20.0 + NODE_HEIGHT as f32)
    );
}

#[test]
fn components_group_by_edges() {
    // 0-1-2 chain, 3 isolated, 4-5 pair.
    let components = connected_components(6, &[(0, 1), (1, 2), (4, 5)]);
    assert_eq!(components, vec![vec![0, 1, 2], vec![3], vec![4, 5]]);
}

#[test]
fn components_ignore_edges_to_nowhere() {
    assert_eq!(connected_components(2, &[(0, 9), (7, 1)]), vec![vec![0], vec![1]]);
    assert_eq!(connected_components(0, &[(0, 0)]), Vec::<Vec<usize>>::new());
    assert_eq!(
        connected_components(5, &[(4, 0), (3, 1), (1, 4), (2, 2)]),
        vec![vec![0, 1, 3, 4], vec![2]]
    );
}

#[test]
fn neighbors_look_both_ways_and_dependencies_one() {
    let edges = [(0, 1), (1, 2), (5, 0)];
    assert_eq!(neighbors(3, &edges), vec![vec![1], vec![0, 2], vec![1]]);
    assert_eq!(dependencies(3, &edges), vec![vec![1], vec![2], vec![]]);
}

#[test]
fn numbers_order_as_floating_point_does() {
    let values = [
        f64::NEG_INFINITY, -1e300, -2.5, -2.0, -1e-310, -0.0, 0.0, 1e-310, 0.5, 2.0, 1e300,
        f64::INFINITY, f64::NAN,
    ];
    for a in values {
        assert_eq!(number(a.to_bits()), !a.is_nan());
        for b in values {
            let (x, y) = (a.to_bits(), b.to_bits());
            assert_eq!(less(x, y), a < b, "{a} < {b}");
            assert_eq!(same_number(x, y), a == b, "{a} == {b}");
            assert_eq!(order_rank(x) < order_rank(y), a.total_cmp(&b).is_lt(), "{a} before {b}");
            let low = f64::from_bits(minimum(x, y));
            let high = f64::from_bits(maximum(x, y));
            assert!(low == a.min(b) || (low.is_nan() && a.is_nan() && b.is_nan()));
            assert!(high == a.max(b) || (high.is_nan() && a.is_nan() && b.is_nan()));
        }
        let held = f64::from_bits(hold(a.to_bits(), 0f64.to_bits(), 2f64.to_bits()));
        assert!(held == a.clamp(0.0, 2.0) || (held.is_nan() && a.is_nan()));
    }
}

#[test]
fn whole_numbers_round_to_single_precision() {
    for n in [0u128, 1, 3, 224, 16_777_215, 16_777_217, 16_777_219, 33_554_434, 4_611_686_018_427_387_905] {
        assert_eq!(round_single(n), (n as f32) as u128, "{n}");
    }
    for n in [0u128, 1, 2, 3, 240, 4576, 19_124, 1 << 40] {
        assert_eq!(f64::from_bits(whole(n)), n as f64);
    }
}

#[test]
fn narrowing_agrees_with_single_precision() {
    let check = |x: f64| {
        let expected = f64::from(x as f32);
        assert_eq!(narrow(x.to_bits()), expected.to_bits(), "{x:e}");
        assert_eq!(narrow(narrow(x.to_bits())), narrow(x.to_bits()));
    };
    for x in [
        0.0,
        -0.0,
        0.1,
        5.5,
        16_777_217.0,
        16_777_219.0,
        3.4028234663852886e38,
        3.4028235677973366e38,
        3.402823669209385e38,
        1e300,
        f64::INFINITY,
        f64::NEG_INFINITY,
        1.1754943508222875e-38,
        1.1754942807573643e-38,
        1.401298464324817e-45,
        7.006492321624085e-46,
        7.006492321624086e-46,
        2.1019476964872256e-45,
        1e-46,
        5e-324,
        f64::MIN_POSITIVE,
        f64::MAX,
    ] {
        check(x);
        check(-x);
    }
    let mut state: u64 = 0x9e37_79b9_7f4a_7c15;
    for _ in 0..200_000 {
        state = state.wrapping_mul(6_364_136_223_846_793_005).wrapping_add(1_442_695_040_888_963_407);
        // Exponents around the range of single precision.
        let exponent = 860 + (state >> 40) % 300;
        let x = f64::from_bits((exponent << 52) | (state & 0xf_ffff_ffff_ffff));
        check(x);
        // Halfway between two neighbors.
        check(f64::from_bits((x.to_bits() & !0x1fff_ffff) | 0x1000_0000));
    }
    assert!(f64::from_bits(narrow(f64::NAN.to_bits())).is_nan());
}
