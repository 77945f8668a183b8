//! Layered rows and the plan of a squeeze.

use mission_control::geometry::{CELL_HEIGHT, CELL_WIDTH, NODE_HEIGHT, NODE_WIDTH};
use mission_control::layers::{depths, rows_of, Layers};
use mission_control::squeeze::{
    best_candidate, opens_shelf, pack_order, singles_block, square_columns, squeeze_plan,
};

fn bits(values: &[f64]) -> Vec<u64> {
    values.iter().map(|v| v.to_bits()).collect()
}

#[test]
fn chains_stack_one_node_per_row() {
    // 0 depends on 1, 1 depends on 2: the dependent is on top.
    let layers = Layers::new(3, &[(0, 1), (1, 2)]);
    assert_eq!(*layers.rows(), vec![vec![0], vec![1], vec![2]]);
}

#[test]
fn a_diamond_has_three_rows() {
    let layers = Layers::new(4, &[(0, 1), (0, 2), (1, 3), (2, 3)]);
    assert_eq!(*layers.rows(), vec![vec![0], vec![1, 2], vec![3]]);
    assert_eq!(layers.deps()[0], vec![1, 2]);
    assert_eq!(layers.links()[3], vec![1, 2]);
    assert_eq!(layers.children(0, 0), vec![1, 2]);
    assert_eq!(layers.children(3, 2), Vec::<usize>::new());
}

#[test]
fn cycles_are_cut() {
    let layers = Layers::new(2, &[(0, 1), (1, 0)]);
    assert_eq!(layers.rows().iter().map(|row| row.len()).sum::<usize>(), 2);
    // The visit from 0 comes back to it: 1 stands on 0's depth of nothing.
    assert_eq!(depths(&vec![vec![1], vec![0]]), vec![2, 1]);
    assert_eq!(*layers.rows(), vec![vec![0], vec![1], vec![]]);
    assert_eq!(layers.children(0, 0), vec![1]);
    assert_eq!(layers.children(1, 1), Vec::<usize>::new());
    assert_eq!(depths(&vec![vec![0]]), vec![1]);
}

#[test]
fn a_dual_homed_node_lies_below_both_parents() {
    let layers = Layers::new(3, &[(0, 2), (1, 2)]);
    assert_eq!(*layers.rows(), vec![vec![0, 1], vec![2]]);
    assert_eq!(layers.children(0, 0), vec![2]);
    assert_eq!(layers.children(1, 0), vec![2]);
}

#[test]
fn rows_go_from_deep_to_shallow() {
    assert_eq!(rows_of(&vec![0, 2, 0, 1]), vec![vec![1], vec![3], vec![0, 2]]);
    assert_eq!(rows_of(&Vec::new()), vec![Vec::<usize>::new()]);
}

#[test]
fn reordering_sorts_each_row_by_weight() {
    let mut layers = Layers::new(5, &[(0, 4), (1, 4), (2, 4), (3, 4)]);
    layers.reorder(&bits(&[2.0, -1.0, 2.0, 0.5, 9.0]));
    assert_eq!(*layers.rows(), vec![vec![1, 3, 0, 2], vec![4]]);
    // Negative zero comes before zero; equal weights keep their order.
    layers.reorder(&bits(&[0.0, -0.0, -0.0, 0.0, 0.0]));
    assert_eq!(*layers.rows(), vec![vec![1, 2, 3, 0], vec![4]]);
}

#[test]
fn a_squeeze_parts_blocks_from_isolated_nodes() {
    let plan = squeeze_plan(6, &[(2, 5), (5, 0), (3, 9)]);
    assert_eq!(plan.singles, vec![1, 3, 4]);
    assert_eq!(plan.blocks.len(), 1);
    assert_eq!(plan.blocks[0].members, vec![0, 2, 5]);
    assert_eq!(plan.blocks[0].edges, vec![(1, 2), (2, 0)]);
}

#[test]
fn isolated_nodes_form_a_square() {
    for (count, cols) in [(1, 1), (2, 2), (4, 2), (5, 3), (9, 3), (10, 4), (100, 10), (101, 11)] {
        assert_eq!(square_columns(count), cols);
        assert_eq!(square_columns(count), (count as f32).sqrt().ceil() as usize);
    }
    let block = singles_block(&vec![7, 8, 9]);
    let (w, h) = (u128::from(CELL_WIDTH), u128::from(CELL_HEIGHT));
    assert_eq!(block.members, vec![(7, 0, 0), (8, w, 0), (9, 0, h)]);
    assert_eq!(block.width, w + u128::from(NODE_WIDTH));
    assert_eq!(block.height, h + u128::from(NODE_HEIGHT));
}

#[test]
fn blocks_are_packed_tallest_first() {
    let order = pack_order(&bits(&[10.0, 30.0, 10.0, 30.0]), &bits(&[5.0, 1.0, 6.0, 1.0]));
    assert_eq!(order, vec![1, 3, 2, 0]);
}

#[test]
fn a_full_shelf_wraps() {
    let b = |v: f64| v.to_bits();
    assert!(opens_shelf(b(16.5), b(101.0), b(100.0)));
    assert!(!opens_shelf(b(16.5), b(100.0), b(100.0)));
    // The first block of a shelf stays, however wide.
    assert!(!opens_shelf(b(16.0), b(101.0), b(100.0)));
}

#[test]
fn the_first_least_score_wins() {
    assert_eq!(best_candidate(&bits(&[3.0, 1.0, 2.0, 1.0])), Some(1));
    assert_eq!(best_candidate(&bits(&[f64::NAN, 1.0])), Some(0));
    assert_eq!(best_candidate(&bits(&[1.0, f64::NAN])), Some(0));
    assert_eq!(best_candidate(&Vec::new()), None);
}
