//! Scalar arithmetic, unit evaluation, cost functions and name lookup.

use prizen::cost::{cost_from_name, mean_sq, mse, CostFn};
use prizen::fx::{fx_add, fx_div, fx_divn, fx_mul, fx_sub, SCALE};
use prizen::node::{node_from_name, AffineNode, LinearNode, Node};
use prizen::shape::{sqdf, sum};

fn fx(x: i64) -> i64 {
    x * SCALE
}

#[test]
fn fx_add_exact() {
    assert_eq!(fx_add(1_500_000, 2_250_000), 3_750_000);
    assert_eq!(fx_add(-1_500_000, 500_000), -1_000_000);
}

#[test]
fn fx_add_saturates() {
    assert_eq!(fx_add(i64::MAX, 1), i64::MAX);
    assert_eq!(fx_sub(i64::MIN, 1), i64::MIN);
}

#[test]
fn fx_mul_exact() {
    // 2.002 * 2.002 == 4.008004
    assert_eq!(fx_mul(2_002_000, 2_002_000), 4_008_004);
    assert_eq!(fx_mul(-1_500_000, 2_000_000), -3_000_000);
    assert_eq!(fx_mul(0, i64::MAX), 0);
}

#[test]
fn fx_div_truncates_toward_zero() {
    assert_eq!(fx_div(fx(1), fx(3)), 333_333);
    assert_eq!(fx_div(fx(-1), fx(3)), -333_333);
    assert_eq!(fx_divn(7, 2), 3);
    assert_eq!(fx_divn(-7, 2), -3);
}

#[test]
fn linear_unit_cancels_bias() {
    // (3 * 2 + 5) - 5 == 6: the linear unit's bias has no effect.
    let n = Node::Linear(LinearNode { w: vec![fx(2)], b: fx(5), needed: 1 });
    assert_eq!(n.get_value(&vec![fx(3)]), fx(6));
}

#[test]
fn affine_unit_adds_bias() {
    // 3 * 2 + 5 == 11.
    let n = Node::Affine(AffineNode { w: vec![fx(2)], b: fx(5), needed: 1 });
    assert_eq!(n.get_value(&vec![fx(3)]), fx(11));
}

#[test]
fn unit_accessors() {
    let n = Node::Affine(AffineNode { w: vec![fx(2), fx(4)], b: fx(5), needed: 2 });
    assert_eq!(n.needed(), 2);
    assert_eq!(n.bias(), fx(5));
    assert_eq!(n.weight(1), fx(4));
    assert_eq!(n.weights(), vec![fx(2), fx(4)]);
}

#[test]
fn take_b_strips_one_tail_entry() {
    let mut n = LinearNode { w: vec![fx(1)], b: 0, needed: 1 };
    let rest = n.take_b(vec![10, 20, 30]);
    assert_eq!(n.b, 30);
    assert_eq!(rest, vec![10, 20]);
}

#[test]
fn take_w_strips_needed_tail_entries() {
    let mut n = AffineNode { w: vec![0, 0], b: 0, needed: 2 };
    let rest = n.take_w(vec![10, 20, 30]);
    assert_eq!(n.w, vec![20, 30]);
    assert_eq!(rest, vec![10]);
}

#[test]
fn mse_squares_per_example_error() {
    // errors 1.0 and 2.0; mean squared errors 1.0 and 4.0; squared then
    // averaged: (1 + 16) / 2 == 8.5.
    let a = vec![vec![fx(1)], vec![fx(3)]];
    let b = vec![vec![fx(2)], vec![fx(5)]];
    assert_eq!(mse(a, b), 8_500_000);
}

#[test]
fn mean_sq_averages_per_example_error() {
    // (1 + 4) / 2 == 2.5.
    let a = vec![vec![fx(1)], vec![fx(3)]];
    let b = vec![vec![fx(2)], vec![fx(5)]];
    assert_eq!(mean_sq(a, b), 2_500_000);
}

#[test]
fn sqdf_is_elementwise_squared_difference() {
    let r = sqdf(&vec![fx(1), fx(3)], &vec![fx(2), fx(5)]);
    assert_eq!(r, vec![fx(1), fx(4)]);
}

#[test]
fn sum_is_elementwise() {
    let r = sum(&vec![vec![fx(1), fx(2)], vec![fx(3), fx(4)]]);
    assert_eq!(r, vec![fx(4), fx(6)]);
}

#[test]
fn vector_mse_is_per_dimension() {
    // per-dimension squared diffs [1,4] and [4,9]; averaged: [2.5, 6.5].
    let a = vec![vec![fx(1), fx(3)], vec![fx(3), fx(7)]];
    let b = vec![vec![fx(2), fx(5)], vec![fx(5), fx(10)]];
    assert_eq!(prizen::shape::mse(a, b), vec![2_500_000, 6_500_000]);
}

#[test]
fn cost_names_are_checked() {
    assert_eq!(cost_from_name("mse"), Some(CostFn::Mse));
    assert_eq!(cost_from_name("mean_sq"), Some(CostFn::MeanSq));
    assert_eq!(cost_from_name("hinge"), None);
    assert_eq!(cost_from_name(""), None);
}

#[test]
fn node_names_are_checked() {
    let n = node_from_name("linearnode", vec![fx(1)], 0).unwrap();
    assert!(matches!(n, Node::Linear(_)));
    let n = node_from_name("affinenode", vec![fx(1)], 0).unwrap();
    assert!(matches!(n, Node::Affine(_)));
    assert!(node_from_name("perceptron", vec![fx(1)], 0).is_none());
}
